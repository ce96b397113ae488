use vstd::prelude::*;
use vstd::arithmetic::power2::lemma2_to64;
use vstd::bits::lemma_u64_shl_is_mul;
use vstd::arithmetic::div_mod::{
    lemma_fundamental_div_mod, lemma_fundamental_div_mod_converse, lemma_div_pos_is_pos,
    lemma_div_is_ordered,
};
use crate::scheme::{valid_width, max_weight_of};

verus! {

/// The word with the low `n` bits set (`n <= 64`).
pub open spec fn low_bits(n: u64) -> u64 {
    if n == 0 {
        0
    } else {
        u64::MAX >> ((64 - n) as u64)
    }
}

/// The `p`-bit slot that starts at bit offset `s` of word `w`.
pub open spec fn slot_at(w: u64, s: u64, p: u64) -> u64 {
    (w >> s) & low_bits(p)
}

/// The presence bit of a `p`-bit slot: its most significant bit.
pub open spec fn presence_bit(p: u64) -> u64 {
    1u64 << ((p - 1) as u64)
}

/// Whether a slot value records an edge.
pub open spec fn is_present(slot: u64, p: u64) -> bool {
    slot & presence_bit(p) != 0
}

/// The weight bits of a slot value: all but its presence bit.
pub open spec fn weight_bits(slot: u64, p: u64) -> u64 {
    slot & low_bits((p - 1) as u64)
}

/// The slot value that records an edge of the given weight.
pub open spec fn encode(weight: u64, p: u64) -> u64 {
    presence_bit(p) | weight
}

/// One word of a row after the slot-shift: the bits below `s0` stay, the
/// bits from `s0 + p` up move down by `p`, and `carry` (the lowest slot of
/// the next word) fills the top slot.
pub open spec fn shift_word(w: u64, s0: u64, carry: u64, p: u64) -> u64 {
    (w & low_bits(s0)) | ((w >> p) & !low_bits(s0)) | (carry << ((64 - p) as u64))
}

/// Number of slots in one word for slot width `p`.
pub open spec fn slots_per_word(p: usize) -> int {
    64int / (p as int)
}

/// Bit offset, inside its word, of the slot for destination `j`.
pub open spec fn slot_offset(j: int, p: usize) -> u64 {
    ((j % slots_per_word(p)) * p) as u64
}

/// The slot for destination `j` in a row of words.
pub open spec fn row_slot(row: Seq<u64>, j: int, p: usize) -> u64 {
    slot_at(row[j / slots_per_word(p)], slot_offset(j, p), p as u64)
}

/// Number of destinations a row of words can address.
pub open spec fn row_capacity(row: Seq<u64>, p: usize) -> int {
    row.len() * slots_per_word(p)
}

/// The row after the slot of destination `k` is taken out: every later
/// slot moves down by one place, across word boundaries, and the last slot
/// of the row becomes empty.
pub open spec fn shifted_row(row: Seq<u64>, k: int, p: usize) -> Seq<u64> {
    let start = k / slots_per_word(p);
    Seq::new(
        row.len(),
        |e: int|
            if e < start {
                row[e]
            } else {
                shift_word(
                    row[e],
                    if e == start { slot_offset(k, p) } else { 0 },
                    if e + 1 < row.len() { row[e + 1] & low_bits(p as u64) } else { 0 },
                    p as u64,
                )
            },
    )
}

/// A word holds a whole number of slots, at least two.
pub proof fn lemma_slots_per_word(p: usize)
    requires
        valid_width(p),
    ensures
        slots_per_word(p) * p == 64,
        slots_per_word(p) >= 2,
{
}

/// OR-ing a value into one slot changes that slot alone.
pub proof fn lemma_slot_or(w: u64, e: u64, s: u64, t: u64, p: u64)
    by (bit_vector)
    requires
        1 <= p <= 32,
        s + p <= 64,
        t + p <= 64,
        s == t || s + p <= t || t + p <= s,
        e & low_bits(p) == e,
    ensures
        slot_at(w | (e << s), t, p) == if s == t { slot_at(w, t, p) | e } else { slot_at(w, t, p) },
{
}

/// Clearing one slot leaves the other slots of the word alone.
pub proof fn lemma_slot_clear(w: u64, s: u64, t: u64, p: u64)
    by (bit_vector)
    requires
        1 <= p <= 32,
        s + p <= 64,
        t + p <= 64,
        s == t || s + p <= t || t + p <= s,
    ensures
        slot_at(w & !(low_bits(p) << s), t, p) == if s == t { 0 } else { slot_at(w, t, p) },
{
}

/// Clearing a slot that is already empty leaves the word as it was.
pub proof fn lemma_clear_empty_slot(w: u64, s: u64, p: u64)
    by (bit_vector)
    requires
        1 <= p <= 32,
        s + p <= 64,
        slot_at(w, s, p) == 0,
    ensures
        w & !(low_bits(p) << s) == w,
{
}

/// The slots of a shifted word, in terms of those of the old word.
pub proof fn lemma_shift_word_slot(w: u64, s0: u64, carry: u64, t: u64, p: u64)
    by (bit_vector)
    requires
        1 <= p <= 32,
        s0 + p <= 64,
        t + p <= 64,
        t < s0 ==> t + p <= s0,
        t + p < 64 ==> t + 2 * p <= 64,
        carry & low_bits(p) == carry,
    ensures
        slot_at(shift_word(w, s0, carry, p), t, p) == if t < s0 {
            slot_at(w, t, p)
        } else if t + p < 64 {
            slot_at(w, (t + p) as u64, p)
        } else {
            carry
        },
{
}

/// The encoded slot fits in `p` bits and records an edge.
pub proof fn lemma_encode(weight: u64, p: usize)
    requires
        valid_width(p),
        weight <= max_weight_of(p),
    ensures
        encode(weight, p as u64) & low_bits(p as u64) == encode(weight, p as u64),
        forall|x: u64| is_present(#[trigger] (x | encode(weight, p as u64)), p as u64),
{
    let w: u64 = p as u64;
    let q: u64 = (w - 1) as u64;
    lemma2_to64();
    lemma_u64_shl_is_mul(1, q);
    assert(weight < (1u64 << q));
    assert(encode(weight, w) & low_bits(w) == encode(weight, w)) by (bit_vector)
        requires
            1 <= w <= 32,
            q == w - 1,
            weight < (1u64 << q),
    ;
    assert forall|x: u64| is_present(#[trigger] (x | encode(weight, w)), w) by {
        assert(is_present(x | encode(weight, w), w)) by (bit_vector)
            requires
                1 <= w <= 32,
        ;
    }
}

/// Where destination `j` lives: word `j / n` at slot `j % n`, with
/// `n * p == 64`, so every slot fits in its word.
pub proof fn lemma_slot_position(j: int, p: usize)
    requires
        valid_width(p),
        0 <= j,
    ensures
        0 <= j % slots_per_word(p) < slots_per_word(p),
        j == (j / slots_per_word(p)) * slots_per_word(p) + j % slots_per_word(p),
        (j % slots_per_word(p)) * p + p <= 64,
        slot_offset(j, p) == (j % slots_per_word(p)) * p,
{
    let n = slots_per_word(p);
    lemma_slots_per_word(p);
    lemma_fundamental_div_mod(j, n);
    let t = j % n;
    assert(t * p + p <= 64) by (nonlinear_arith)
        requires
            0 <= t < n,
            n * p == 64,
    ;
}

/// The slots of a row after the slot of destination `k` is taken out: those
/// below `k` stay, the others are those of the next destination up, and the
/// last one is empty.
pub proof fn lemma_shifted_row_slot(row: Seq<u64>, k: int, p: usize, j: int)
    requires
        valid_width(p),
        0 <= k < row_capacity(row, p),
        0 <= j < row_capacity(row, p),
    ensures
        row_slot(shifted_row(row, k, p), j, p) == if j < k {
            row_slot(row, j, p)
        } else if j + 1 < row_capacity(row, p) {
            row_slot(row, j + 1, p)
        } else {
            0
        },
{
    let n = slots_per_word(p);
    let w = p as u64;
    lemma_slots_per_word(p);
    lemma_slot_position(j, p);
    lemma_slot_position(k, p);
    let e = j / n;
    let t = j % n;
    let start = k / n;
    let len = row.len() as int;
    assert(len * n - 1 == (len - 1) * n + (n - 1)) by (nonlinear_arith);
    assert(0 <= e < len) by {
        lemma_div_pos_is_pos(j, n);
        lemma_div_is_ordered(j, len * n - 1, n);
        lemma_fundamental_div_mod_converse(len * n - 1, n, len - 1, n - 1);
    }
    assert(0 <= start < len) by {
        lemma_div_pos_is_pos(k, n);
        lemma_div_is_ordered(k, len * n - 1, n);
        lemma_fundamental_div_mod_converse(len * n - 1, n, len - 1, n - 1);
    }
    let new_row = shifted_row(row, k, p);
    // The next destination up, and where it lives.
    if t + 1 < n {
        lemma_fundamental_div_mod_converse(j + 1, n, e, t + 1);
    } else {
        assert(j + 1 == (e + 1) * n) by (nonlinear_arith)
            requires
                j == e * n + t,
                t + 1 == n,
        ;
        lemma_fundamental_div_mod_converse(j + 1, n, e + 1, 0);
    }
    if e < start {
        assert(j < k) by (nonlinear_arith)
            requires
                j == e * n + t,
                k == start * n + k % n,
                0 <= t < n,
                0 <= k % n,
                e < start,
        ;
        assert(new_row[e] == row[e]);
    } else {
        let s0: u64 = if e == start { slot_offset(k, p) } else { 0 };
        let carry: u64 = if e + 1 < len { row[e + 1] & low_bits(w) } else { 0 };
        if e + 1 < len {
            let nxt = row[e + 1];
            assert((nxt & low_bits(w)) & low_bits(w) == nxt & low_bits(w)) by (bit_vector);
        } else {
            assert(0u64 & low_bits(w) == 0u64) by (bit_vector);
        }
        assert(new_row[e] == shift_word(row[e], s0, carry, w));
        let tp: u64 = (t * p) as u64;
        assert(t * p < s0 ==> t * p + p <= s0) by (nonlinear_arith)
            requires
                s0 == 0 || s0 == (k % n) * p,
                p >= 1,
        ;
        assert(t * p + p < 64 ==> t * p + 2 * p <= 64) by (nonlinear_arith)
            requires
                n * p == 64,
                0 <= t < n,
                p >= 1,
        ;
        lemma_shift_word_slot(row[e], s0, carry, tp, w);
        if e == start {
            assert(t * p < s0 <==> j < k) by (nonlinear_arith)
                requires
                    s0 == (k % n) * p,
                    j == e * n + t,
                    k == e * n + k % n,
                    p >= 1,
            ;
        } else {
            assert(j > k) by (nonlinear_arith)
                requires
                    j == e * n + t,
                    k == start * n + k % n,
                    k % n < n,
                    0 <= t,
                    e > start,
            ;
        }
        if t * p + p < 64 {
            assert(t + 1 < n) by (nonlinear_arith)
                requires
                    n * p == 64,
                    t * p + p < 64,
                    p >= 1,
            ;
            assert((t + 1) * p == t * p + p) by (nonlinear_arith);
            assert(slot_offset(j + 1, p) == (tp + w) as u64);
            assert(j + 1 < len * n) by (nonlinear_arith)
                requires
                    j == e * n + t,
                    t + 1 < n,
                    e < len,
                    n > 0,
                    0 <= e,
            ;
            assert(row_slot(row, j + 1, p) == slot_at(row[e], (tp + w) as u64, w));
        } else {
            assert(t + 1 == n) by (nonlinear_arith)
                requires
                    n * p == 64,
                    t * p + p >= 64,
                    0 <= t < n,
                    p >= 1,
            ;
            if e + 1 < len {
                let nxt = row[e + 1];
                assert(nxt >> 0u64 == nxt) by (bit_vector);
                assert(slot_offset(j + 1, p) == 0);
                assert(j + 1 < len * n) by (nonlinear_arith)
                    requires
                        j + 1 == (e + 1) * n,
                        e + 1 < len,
                        n > 0,
                ;
                assert(row_slot(row, j + 1, p) == carry);
            } else {
                assert(j + 1 == len * n) by (nonlinear_arith)
                    requires
                        j == e * n + t,
                        t + 1 == n,
                        e + 1 == len,
                ;
            }
        }
    }
}

/// Two distinct destinations that share a word have slots that do not
/// overlap; one that does not share the word keeps its slot.
pub proof fn lemma_distinct_slots(j: int, d: int, p: usize)
    requires
        valid_width(p),
        0 <= j,
        0 <= d,
        j != d,
        j / slots_per_word(p) == d / slots_per_word(p),
    ensures
        slot_offset(j, p) + p <= slot_offset(d, p) || slot_offset(d, p) + p <= slot_offset(j, p),
{
    let n = slots_per_word(p);
    lemma_slot_position(j, p);
    lemma_slot_position(d, p);
    let a = j % n;
    let b = d % n;
    assert(a != b);
    if a < b {
        assert(a * p + p <= b * p) by (nonlinear_arith)
            requires
                a < b,
                p >= 1,
        ;
    } else {
        assert(b * p + p <= a * p) by (nonlinear_arith)
            requires
                b < a,
                p >= 1,
        ;
    }
}

/// Keeping the first `m` words of a row keeps the slots they hold.
pub proof fn lemma_prefix_slot(row: Seq<u64>, m: int, j: int, p: usize)
    requires
        valid_width(p),
        0 <= m <= row.len(),
        0 <= j < m * slots_per_word(p),
    ensures
        row_slot(row.subrange(0, m), j, p) == row_slot(row, j, p),
{
    let n = slots_per_word(p);
    lemma_slot_position(j, p);
    let e = j / n;
    assert(e < m) by (nonlinear_arith)
        requires
            j == e * n + j % n,
            0 <= j % n,
            j < m * n,
            n > 0,
    ;
}

/// The word that holds destination `j` is a word of a row with room for
/// `j`.
pub proof fn lemma_slot_in_row(row: Seq<u64>, j: int, p: usize)
    requires
        valid_width(p),
        0 <= j < row_capacity(row, p),
    ensures
        0 <= j / slots_per_word(p) < row.len(),
{
    let n = slots_per_word(p);
    lemma_slot_position(j, p);
    let e = j / n;
    let len = row.len() as int;
    assert(0 <= e < len) by (nonlinear_arith)
        requires
            j == e * n + j % n,
            0 <= j % n < n,
            0 <= j < len * n,
            n > 0,
    ;
}

/// Every slot of an empty word is empty.
pub proof fn lemma_zero_slots(p: u64)
    ensures
        forall|s: u64| #[trigger] slot_at(0u64, s, p) == 0,
{
    assert forall|s: u64| #[trigger] slot_at(0u64, s, p) == 0 by {
        assert(slot_at(0u64, s, p) == 0) by (bit_vector);
    }
}

} // verus!
