use vstd::prelude::*;
use crate::codec::{
    row_slot, is_present, weight_bits, encode, low_bits, slot_offset, slots_per_word, row_capacity,
    shifted_row, lemma_slots_per_word, lemma_slot_position, lemma_slot_in_row, lemma_distinct_slots,
    lemma_zero_slots, lemma_prefix_slot, lemma_shifted_row_slot, lemma_encode, lemma_slot_or, lemma_slot_clear, lemma_clear_empty_slot,
};
use vstd::std_specs::cmp::PartialEqSpec;
use crate::error::GraphError;
use crate::scheme::{valid_width, max_weight_of};

verus! {

/// Number of words in every row of a graph with `n` vertices: enough to
/// address destination `n - 1`.
pub open spec fn words_for(n: int, p: usize) -> int {
    if n <= 0 {
        0
    } else {
        (n - 1) / slots_per_word(p) + 1
    }
}

/// Index, before the removal of vertex `k`, of the vertex that is at index
/// `i` after it.
pub open spec fn index_before_removal(i: int, k: int) -> int {
    if i < k {
        i
    } else {
        i + 1
    }
}

/// Index of the first element of `s`, from index `i` on, that `x` is equal
/// to; the length of `s` when there is none.
pub open spec fn first_match_from<T: PartialEq>(s: Seq<T>, x: T, i: int) -> int
    decreases s.len() - i,
{
    if i < 0 || i >= s.len() {
        s.len() as int
    } else if x.eq_spec(&s[i]) {
        i
    } else {
        first_match_from(s, x, i + 1)
    }
}

/// A search result is an index of the sequence or its length.
pub proof fn lemma_first_match_from_bounds<T: PartialEq>(s: Seq<T>, x: T, i: int)
    requires
        0 <= i,
    ensures
        0 <= first_match_from(s, x, i) <= s.len(),
    decreases s.len() - i,
{
    if i < s.len() && !x.eq_spec(&s[i]) {
        lemma_first_match_from_bounds(s, x, i + 1);
    }
}

/// Index of the first element of `s` that `x` is equal to; the length of
/// `s` when there is none.
pub open spec fn first_match<T: PartialEq>(s: Seq<T>, x: T) -> int {
    first_match_from(s, x, 0)
}

/// The abstract state of a graph: its slot width, the payload of each
/// vertex in index order, and the row of words of each vertex.
pub struct GraphModel<T> {
    pub width: usize,
    pub payloads: Seq<T>,
    pub rows: Seq<Seq<u64>>,
}

/// The outcome of the bounds check on an edge `(src, dest)` in a graph of
/// `n` vertices.
pub open spec fn bounds_check(src: int, dest: int, n: int) -> Result<(), GraphError> {
    if src >= n && dest >= n {
        Err(GraphError::BothOutOfRange)
    } else if src >= n {
        Err(GraphError::SourceOutOfRange)
    } else if dest >= n {
        Err(GraphError::DestOutOfRange)
    } else {
        Ok(())
    }
}

impl<T> GraphModel<T> {
    pub open spec fn size(self) -> int {
        self.payloads.len() as int
    }

    /// The outcome of connecting `(src, dest)` with weight `weight`.
    pub open spec fn connect_result(self, src: int, dest: int, weight: int) -> Result<(), GraphError> {
        match bounds_check(src, dest, self.size()) {
            Err(e) => Err(e),
            Ok(_) => if weight <= max_weight_of(self.width) {
                Ok(())
            } else {
                Err(GraphError::WeightOverflow)
            },
        }
    }

    /// The outcome of asking whether `(src, dest)` is an edge.
    pub open spec fn connected_result(self, src: int, dest: int) -> Result<bool, GraphError> {
        match bounds_check(src, dest, self.size()) {
            Err(e) => Err(e),
            Ok(_) => Ok(self.connected(src, dest)),
        }
    }

    /// Both indices name vertices of the graph.
    pub open spec fn valid_edge(self, src: int, dest: int) -> bool {
        0 <= src < self.size() && 0 <= dest < self.size()
    }

    /// The slot of edge `(src, dest)`, in the row of `src`.
    pub open spec fn slot(self, src: int, dest: int) -> u64 {
        row_slot(self.rows[src], dest, self.width)
    }

    /// Whether the edge `(src, dest)` exists.
    pub open spec fn connected(self, src: int, dest: int) -> bool {
        is_present(self.slot(src, dest), self.width as u64)
    }

    /// The weight bits of the slot of edge `(src, dest)`.
    pub open spec fn weight(self, src: int, dest: int) -> u64 {
        weight_bits(self.slot(src, dest), self.width as u64)
    }

    /// A well-formed graph: every row has the length the vertex count
    /// calls for, slots past the last vertex are empty, and a slot holds
    /// bits only under its presence bit.
    pub open spec fn wf(self) -> bool {
        &&& valid_width(self.width)
        &&& self.rows.len() == self.payloads.len()
        &&& forall|i: int|
            0 <= i < self.size() ==> (#[trigger] self.rows[i]).len() == words_for(
                self.size(),
                self.width,
            )
        &&& forall|i: int, j: int|
            0 <= i < self.size() && self.size() <= j < row_capacity(self.rows[i], self.width)
                ==> #[trigger] self.slot(i, j) == 0
        &&& forall|i: int, j: int|
            0 <= i < self.size() && 0 <= j < self.size() && !self.connected(i, j) ==> #[trigger] self.slot(
                i,
                j,
            ) == 0
    }

    /// The graph after OR-ing an edge of weight `weight` into the slot of
    /// `(src, dest)`.
    pub open spec fn connect(self, src: int, dest: int, weight: u64) -> Self {
        let e = dest / slots_per_word(self.width);
        let row = self.rows[src];
        GraphModel {
            rows: self.rows.update(
                src,
                row.update(e, row[e] | (encode(weight, self.width as u64) << slot_offset(dest, self.width))),
            ),
            ..self
        }
    }

    /// The graph after clearing the slot of `(src, dest)`.
    pub open spec fn disconnect(self, src: int, dest: int) -> Self {
        let e = dest / slots_per_word(self.width);
        let row = self.rows[src];
        GraphModel {
            rows: self.rows.update(
                src,
                row.update(e, row[e] & !(low_bits(self.width as u64) << slot_offset(dest, self.width))),
            ),
            ..self
        }
    }

    /// The graph after appending a vertex: when the vertex count is a
    /// multiple of the slots per word, every row first gains a zero word;
    /// the new row has as many words as its own index calls for.
    pub open spec fn add_vertex(self, data: T) -> Self {
        let n = self.size();
        let grow = n % slots_per_word(self.width) == 0;
        GraphModel {
            width: self.width,
            payloads: self.payloads.push(data),
            rows: Seq::new(
                (n + 1) as nat,
                |i: int|
                    if i < n {
                        if grow {
                            self.rows[i].push(0u64)
                        } else {
                            self.rows[i]
                        }
                    } else {
                        Seq::new((n / slots_per_word(self.width) + 1) as nat, |w: int| 0u64)
                    },
            ),
        }
    }

    /// The graph after appending one vertex for each payload, in order.
    pub open spec fn add_vertices(self, data: Seq<T>) -> Self
        decreases data.len(),
    {
        if data.len() == 0 {
            self
        } else {
            self.add_vertices(data.drop_last()).add_vertex(data.last())
        }
    }

    /// The graph after removing vertex `k`: its payload and row go, every
    /// other row loses the slot of `k` (later slots move down one place),
    /// and rows drop their last word when the new count no longer needs it.
    pub open spec fn remove_vertex(self, k: int) -> Self {
        let m = words_for(self.size() - 1, self.width);
        GraphModel {
            width: self.width,
            payloads: self.payloads.remove(k),
            rows: Seq::new(
                (self.size() - 1) as nat,
                |i: int|
                    shifted_row(self.rows[index_before_removal(i, k)], k, self.width).subrange(0, m),
            ),
        }
    }
}

/// Rows of `words_for(n)` words address all `n` vertices, and one more
/// vertex adds a word exactly when `n` is a multiple of the slots per word.
pub proof fn lemma_words_for(n: int, p: usize)
    requires
        valid_width(p),
        n >= 0,
    ensures
        n <= words_for(n, p) * slots_per_word(p),
        n % slots_per_word(p) == 0 ==> words_for(n + 1, p) == words_for(n, p) + 1,
        n % slots_per_word(p) != 0 ==> words_for(n + 1, p) == words_for(n, p),
        words_for(n + 1, p) == n / slots_per_word(p) + 1,
{
    let s = slots_per_word(p);
    lemma_slots_per_word(p);
    if n > 0 {
        lemma_slot_position(n - 1, p);
        lemma_slot_position(n, p);
        let q = (n - 1) / s;
        let r = (n - 1) % s;
        if r + 1 < s {
            vstd::arithmetic::div_mod::lemma_fundamental_div_mod_converse(n, s, q, r + 1);
        } else {
            assert(n == (q + 1) * s) by (nonlinear_arith)
                requires
                    n - 1 == q * s + r,
                    r + 1 == s,
            ;
            vstd::arithmetic::div_mod::lemma_fundamental_div_mod_converse(n, s, q + 1, 0);
        }
        assert(n <= (q + 1) * s) by (nonlinear_arith)
            requires
                n - 1 == q * s + r,
                r < s,
        ;
    } else {
        vstd::arithmetic::div_mod::lemma_fundamental_div_mod_converse(0, s, 0, 0);
    }
}

/// Connecting a valid edge with an allowed weight records the edge: the
/// graph stays well formed, the edge exists afterwards, its slot is the old
/// one OR-ed with the encoded weight, and no other slot changes.
pub proof fn lemma_connect<T>(g: GraphModel<T>, src: int, dest: int, weight: u64)
    requires
        g.wf(),
        g.valid_edge(src, dest),
        weight <= max_weight_of(g.width),
    ensures
        g.connect(src, dest, weight).wf(),
        g.connect(src, dest, weight).payloads == g.payloads,
        g.connect(src, dest, weight).connected(src, dest),
        g.connect(src, dest, weight).slot(src, dest) == g.slot(src, dest) | encode(weight, g.width as u64),
        forall|i: int, j: int|
            0 <= i < g.size() && 0 <= j < row_capacity(g.rows[i], g.width) && !(i == src && j == dest)
                ==> #[trigger] g.connect(src, dest, weight).slot(i, j) == g.slot(i, j),
{
    let h = g.connect(src, dest, weight);
    let p = g.width;
    let w = p as u64;
    let n = slots_per_word(p);
    let e = dest / n;
    let enc = encode(weight, w);
    lemma_encode(weight, p);
    lemma_slots_per_word(p);
    lemma_words_for(g.size(), p);
    lemma_slot_position(dest, p);
    lemma_slot_in_row(g.rows[src], dest, p);
    assert forall|i: int, j: int|
        0 <= i < g.size() && 0 <= j < row_capacity(g.rows[i], p) implies #[trigger] h.slot(i, j) == if i
        == src && j == dest {
        g.slot(i, j) | enc
    } else {
        g.slot(i, j)
    } by {
        if i == src {
            lemma_slot_position(j, p);
            lemma_slot_in_row(g.rows[i], j, p);
            if j / n == e {
                if j != dest {
                    lemma_distinct_slots(j, dest, p);
                }
                lemma_slot_or(g.rows[src][e], enc, slot_offset(dest, p), slot_offset(j, p), w);
            }
        }
    }
    assert(h.slot(src, dest) == g.slot(src, dest) | enc);
    assert(h.connected(src, dest));
    assert forall|i: int, j: int|
        0 <= i < h.size() && 0 <= j < h.size() && !h.connected(i, j) implies #[trigger] h.slot(i, j) == 0 by {
        assert(!(i == src && j == dest));
        assert(h.slot(i, j) == g.slot(i, j));
        assert(!g.connected(i, j));
    }
    assert forall|i: int, j: int|
        0 <= i < h.size() && h.size() <= j < row_capacity(h.rows[i], p) implies #[trigger] h.slot(i, j) == 0 by {
        assert(h.slot(i, j) == g.slot(i, j));
    }
}

/// Disconnecting a valid edge clears its slot, so the edge is gone, and
/// leaves every other slot, in the same word or elsewhere, as it was; the
/// graph stays well formed.
pub proof fn lemma_disconnect<T>(g: GraphModel<T>, src: int, dest: int)
    requires
        g.wf(),
        g.valid_edge(src, dest),
    ensures
        g.disconnect(src, dest).wf(),
        g.disconnect(src, dest).payloads == g.payloads,
        !g.disconnect(src, dest).connected(src, dest),
        g.disconnect(src, dest).slot(src, dest) == 0,
        forall|i: int, j: int|
            0 <= i < g.size() && 0 <= j < row_capacity(g.rows[i], g.width) && !(i == src && j == dest)
                ==> #[trigger] g.disconnect(src, dest).slot(i, j) == g.slot(i, j),
{
    let h = g.disconnect(src, dest);
    let p = g.width;
    let w = p as u64;
    let n = slots_per_word(p);
    let e = dest / n;
    lemma_slots_per_word(p);
    lemma_words_for(g.size(), p);
    lemma_slot_position(dest, p);
    lemma_slot_in_row(g.rows[src], dest, p);
    assert forall|i: int, j: int|
        0 <= i < g.size() && 0 <= j < row_capacity(g.rows[i], p) implies #[trigger] h.slot(i, j) == if i
        == src && j == dest {
        0
    } else {
        g.slot(i, j)
    } by {
        if i == src {
            lemma_slot_position(j, p);
            lemma_slot_in_row(g.rows[i], j, p);
            if j / n == e {
                if j != dest {
                    lemma_distinct_slots(j, dest, p);
                }
                lemma_slot_clear(g.rows[src][e], slot_offset(dest, p), slot_offset(j, p), w);
            }
        }
    }
    assert(h.slot(src, dest) == 0);
    assert(!is_present(0, w)) by (bit_vector);
    assert forall|i: int, j: int|
        0 <= i < h.size() && 0 <= j < h.size() && !h.connected(i, j) implies #[trigger] h.slot(i, j) == 0 by {
        if !(i == src && j == dest) {
            assert(h.slot(i, j) == g.slot(i, j));
            assert(!g.connected(i, j));
        }
    }
    assert forall|i: int, j: int|
        0 <= i < h.size() && h.size() <= j < row_capacity(h.rows[i], p) implies #[trigger] h.slot(i, j) == 0 by {
        assert(h.slot(i, j) == g.slot(i, j));
    }
}

/// Disconnecting is idempotent, and disconnecting an edge that does not
/// exist changes nothing.
pub proof fn lemma_disconnect_idempotent<T>(g: GraphModel<T>, src: int, dest: int)
    requires
        g.wf(),
        g.valid_edge(src, dest),
    ensures
        g.disconnect(src, dest).disconnect(src, dest) == g.disconnect(src, dest),
        !g.connected(src, dest) ==> g.disconnect(src, dest) == g,
{
    let p = g.width;
    let w = p as u64;
    let e = dest / slots_per_word(p);
    let s = slot_offset(dest, p);
    lemma_slot_position(dest, p);
    lemma_words_for(g.size(), p);
    lemma_slot_in_row(g.rows[src], dest, p);
    let h = g.disconnect(src, dest);
    let x = g.rows[src][e];
    assert((x & !(low_bits(w) << s)) & !(low_bits(w) << s) == x & !(low_bits(w) << s)) by (bit_vector);
    assert(h.rows[src].update(e, h.rows[src][e] & !(low_bits(w) << s)) =~= h.rows[src]);
    assert(h.rows.update(src, h.rows[src]) =~= h.rows);
    if !g.connected(src, dest) {
        assert(g.slot(src, dest) == 0);
        lemma_clear_empty_slot(x, s, w);
        assert(g.rows[src].update(e, x & !(low_bits(w) << s)) =~= g.rows[src]);
        assert(g.rows.update(src, g.rows[src]) =~= g.rows);
    }
}

/// Adding a vertex keeps every row the same length as every other, the
/// length the new vertex count calls for, and keeps the graph well formed;
/// existing slots keep their values and the new vertex has no edges.
pub proof fn lemma_add_vertex<T>(g: GraphModel<T>, data: T)
    requires
        g.wf(),
    ensures
        g.add_vertex(data).wf(),
        g.add_vertex(data).payloads == g.payloads.push(data),
        forall|i: int|
            0 <= i <= g.size() ==> (#[trigger] g.add_vertex(data).rows[i]).len() == words_for(
                g.size() + 1,
                g.width,
            ),
        forall|i: int, j: int|
            0 <= i < g.size() && 0 <= j < g.size() ==> #[trigger] g.add_vertex(data).slot(i, j)
                == g.slot(i, j),
        forall|i: int, j: int|
            0 <= i <= g.size() && 0 <= j <= g.size() && (i == g.size() || j == g.size())
                ==> #[trigger] g.add_vertex(data).slot(i, j) == 0,
{
    let h = g.add_vertex(data);
    let p = g.width;
    let w = p as u64;
    let n = g.size();
    let spw = slots_per_word(p);
    lemma_words_for(n, p);
    lemma_words_for(n + 1, p);
    lemma_slots_per_word(p);
    lemma_zero_slots(w);
    assert forall|i: int| 0 <= i <= n implies (#[trigger] h.rows[i]).len() == words_for(n + 1, p) by {}
    // Every slot of the new graph is an old slot or an empty one.
    assert forall|i: int, j: int|
        0 <= i <= n && 0 <= j < row_capacity(h.rows[i], p) implies #[trigger] h.slot(i, j) == if i < n
        && j < row_capacity(g.rows[i], p) {
        g.slot(i, j)
    } else {
        0
    } by {
        lemma_slot_position(j, p);
        lemma_slot_in_row(h.rows[i], j, p);
        if i < n && j < row_capacity(g.rows[i], p) {
            lemma_slot_in_row(g.rows[i], j, p);
        } else if i < n {
            assert(j / spw >= g.rows[i].len()) by {
                if j / spw < g.rows[i].len() {
                    assert(j < row_capacity(g.rows[i], p)) by (nonlinear_arith)
                        requires
                            j == (j / spw) * spw + j % spw,
                            j % spw < spw,
                            j / spw < g.rows[i].len(),
                            row_capacity(g.rows[i], p) == g.rows[i].len() * spw,
                    ;
                }
            }
        }
    }
    assert forall|i: int, j: int|
        0 <= i < h.size() && h.size() <= j < row_capacity(h.rows[i], p) implies #[trigger] h.slot(i, j) == 0 by {
        if i < n && j < row_capacity(g.rows[i], p) {
            assert(g.slot(i, j) == 0);
        }
    }
    assert forall|i: int, j: int|
        0 <= i < n && 0 <= j < n implies #[trigger] h.slot(i, j) == g.slot(i, j) by {
        assert(row_capacity(g.rows[i], p) == words_for(n, p) * spw);
        assert(row_capacity(h.rows[i], p) == words_for(n + 1, p) * spw);
        assert(words_for(n, p) * spw <= words_for(n + 1, p) * spw) by (nonlinear_arith)
            requires
                words_for(n, p) <= words_for(n + 1, p),
                spw > 0,
        ;
        assert(j < row_capacity(g.rows[i], p));
    }
    assert forall|i: int, j: int|
        0 <= i <= n && 0 <= j <= n && (i == n || j == n) implies #[trigger] h.slot(i, j) == 0 by {
        assert(row_capacity(h.rows[i], p) == words_for(n + 1, p) * spw);
        assert(j < row_capacity(h.rows[i], p));
        if i < n && j < row_capacity(g.rows[i], p) {
            assert(g.slot(i, j) == 0);
        }
    }
    assert(!is_present(0, w)) by (bit_vector);
    assert forall|i: int, j: int|
        0 <= i < h.size() && 0 <= j < h.size() && !h.connected(i, j) implies #[trigger] h.slot(i, j) == 0 by {
        if i < n && j < n {
            assert(!g.connected(i, j));
        }
    }
}

/// Removing vertex `k` renumbers the vertices after it down by one and
/// keeps the graph well formed: each surviving vertex keeps its payload, and
/// each slot between survivors holds what the slot between the same two
/// vertices held before, so edges between survivors keep their existence
/// and weight while the edges that touched `k` are gone.
pub proof fn lemma_remove_vertex<T>(g: GraphModel<T>, k: int)
    requires
        g.wf(),
        0 <= k < g.size(),
    ensures
        g.remove_vertex(k).wf(),
        g.remove_vertex(k).size() == g.size() - 1,
        forall|i: int|
            0 <= i < g.size() - 1 ==> #[trigger] g.remove_vertex(k).payloads[i]
                == g.payloads[index_before_removal(i, k)],
        forall|i: int, j: int|
            0 <= i < g.size() - 1 && 0 <= j < g.size() - 1 ==> #[trigger] g.remove_vertex(k).slot(i, j)
                == g.slot(index_before_removal(i, k), index_before_removal(j, k)),
        forall|i: int, j: int|
            0 <= i < g.size() - 1 && 0 <= j < g.size() - 1 ==> #[trigger] g.remove_vertex(k).connected(i, j)
                == g.connected(index_before_removal(i, k), index_before_removal(j, k)),
{
    let h = g.remove_vertex(k);
    let p = g.width;
    let w = p as u64;
    let n = g.size();
    let spw = slots_per_word(p);
    let m = words_for(n - 1, p);
    lemma_slots_per_word(p);
    lemma_words_for(n - 1, p);
    lemma_words_for(n, p);
    assert(m * spw <= words_for(n, p) * spw) by (nonlinear_arith)
        requires
            m <= words_for(n, p),
            spw > 0,
    ;
    assert forall|i: int| 0 <= i < n - 1 implies #[trigger] h.payloads[i] == g.payloads[index_before_removal(
        i,
        k,
    )] by {}
    assert forall|i: int| 0 <= i < n - 1 implies (#[trigger] h.rows[i]).len() == m by {}
    // Every slot of a surviving row is the old slot one place up, or empty.
    assert forall|i: int, j: int|
        0 <= i < n - 1 && 0 <= j < m * spw implies #[trigger] h.slot(i, j) == if j < k {
        g.slot(index_before_removal(i, k), j)
    } else if j + 1 < n {
        g.slot(index_before_removal(i, k), j + 1)
    } else {
        0
    } by {
        let oi = index_before_removal(i, k);
        let old_row = g.rows[oi];
        assert(row_capacity(old_row, p) == words_for(n, p) * spw);
        lemma_prefix_slot(shifted_row(old_row, k, p), m, j, p);
        lemma_shifted_row_slot(old_row, k, p, j);
        if j >= k && j + 1 >= n && j + 1 < row_capacity(old_row, p) {
            assert(g.slot(oi, j + 1) == 0);
        }
    }
    assert forall|i: int, j: int|
        0 <= i < n - 1 && 0 <= j < n - 1 implies #[trigger] h.slot(i, j) == g.slot(
        index_before_removal(i, k),
        index_before_removal(j, k),
    ) by {
        assert(row_capacity(h.rows[i], p) == m * spw);
    }
    assert forall|i: int, j: int|
        0 <= i < n - 1 && 0 <= j < n - 1 implies #[trigger] h.connected(i, j) == g.connected(
        index_before_removal(i, k),
        index_before_removal(j, k),
    ) by {
        assert(h.slot(i, j) == g.slot(index_before_removal(i, k), index_before_removal(j, k)));
    }
    assert forall|i: int, j: int|
        0 <= i < h.size() && h.size() <= j < row_capacity(h.rows[i], p) implies #[trigger] h.slot(i, j) == 0 by {
        assert(row_capacity(h.rows[i], p) == m * spw);
        assert(j >= k);
    }
    assert forall|i: int, j: int|
        0 <= i < h.size() && 0 <= j < h.size() && !h.connected(i, j) implies #[trigger] h.slot(i, j) == 0 by {
        assert(h.slot(i, j) == g.slot(index_before_removal(i, k), index_before_removal(j, k)));
    }
}

/// Any sequence of vertex additions keeps the graph well formed, with every
/// row of the length the final vertex count calls for.
pub proof fn lemma_add_vertices<T>(g: GraphModel<T>, data: Seq<T>)
    requires
        g.wf(),
    ensures
        g.add_vertices(data).wf(),
        g.add_vertices(data).width == g.width,
        g.add_vertices(data).size() == g.size() + data.len(),
        g.add_vertices(data).payloads == g.payloads + data,
        forall|i: int|
            0 <= i < g.add_vertices(data).size() ==> (#[trigger] g.add_vertices(data).rows[i]).len()
                == words_for(g.size() + data.len(), g.width),
    decreases data.len(),
{
    if data.len() > 0 {
        let prefix = data.drop_last();
        lemma_add_vertices(g, prefix);
        lemma_add_vertex(g.add_vertices(prefix), data.last());
        assert(g.add_vertices(data) == g.add_vertices(prefix).add_vertex(data.last()));
        assert(g.payloads + data =~= (g.payloads + prefix).push(data.last()));
    } else {
        assert(g.payloads + data =~= g.payloads);
    }
}

} // verus!
