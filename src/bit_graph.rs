use vstd::prelude::*;
use crate::codec::{
    low_bits, encode, slots_per_word, slot_offset, row_capacity, shifted_row, shift_word,
    lemma_slots_per_word, lemma_slot_position, lemma_encode, lemma_zero_slots,
};
use vstd::std_specs::cmp::PartialEqSpec;
use crate::error::GraphError;
use crate::model::{
    GraphModel, bounds_check, index_before_removal, first_match, first_match_from, words_for, lemma_add_vertex, lemma_connect, lemma_disconnect,
    lemma_remove_vertex, lemma_words_for, lemma_first_match_from_bounds,
};
use crate::scheme::{EdgeScale, scale_width, valid_width, max_weight_of, WORD_BITS};

verus! {

/// One vertex: its payload, its index in the graph, and its row of words,
/// where each destination vertex has a slot.
#[derive(Debug, Clone)]
pub struct Vertex<T> {
    data: T,
    vertnum: usize,
    edgevert: Vec<u64>,
}

impl<T> Vertex<T> {
    /// The payload of the vertex.
    pub closed spec fn payload(&self) -> T {
        self.data
    }

    /// The index the vertex holds.
    pub closed spec fn index(&self) -> int {
        self.vertnum as int
    }

    /// The row of words of the vertex.
    pub closed spec fn row(&self) -> Seq<u64> {
        self.edgevert@
    }

    /// A copy of the payload.
    pub fn get_vert_data(&self) -> (r: T)
        where
            T: Clone,
        ensures
            cloned(self.payload(), r),
    {
        self.data.clone()
    }

    /// Appends an empty word to the row.
    pub fn push_new_ev(&mut self)
        ensures
            final(self).row() == old(self).row().push(0u64),
            final(self).payload() == old(self).payload(),
            final(self).index() == old(self).index(),
    {
        self.edgevert.push(0);
    }

    /// Number of words in the row.
    pub fn get_ev_size(&self) -> (r: usize)
        ensures
            r == self.row().len(),
    {
        self.edgevert.len()
    }

    /// Word `idx` of the row.
    pub fn get_ev_num(&self, idx: usize) -> (r: u64)
        requires
            idx < self.row().len(),
        ensures
            r == self.row()[idx as int],
    {
        self.edgevert[idx]
    }

    /// Drops the last word of the row, if there is one.
    pub fn dec_ev(&mut self)
        ensures
            final(self).row() == if old(self).row().len() > 0 {
                old(self).row().drop_last()
            } else {
                old(self).row()
            },
            final(self).payload() == old(self).payload(),
            final(self).index() == old(self).index(),
    {
        self.edgevert.pop();
    }

    /// The index the vertex holds.
    pub fn get_vertnum(&self) -> (r: usize)
        ensures
            r == self.index(),
    {
        self.vertnum
    }

    /// ORs an edge of weight `weight` into the slot of destination `bitnum`:
    /// the presence bit and the weight bits go into the slot's word, and
    /// nothing is cleared first.
    pub fn connect_to(&mut self, bitnum: usize, weight: usize, vbi: usize, partition_size: usize)
        requires
            valid_width(partition_size),
            vbi == slots_per_word(partition_size),
            weight <= max_weight_of(partition_size),
            bitnum < row_capacity(old(self).row(), partition_size),
        ensures
            final(self).row() == old(self).row().update(
                (bitnum / vbi) as int,
                old(self).row()[(bitnum / vbi) as int] | (encode(weight as u64, partition_size as u64)
                    << slot_offset(bitnum as int, partition_size)),
            ),
            final(self).payload() == old(self).payload(),
            final(self).index() == old(self).index(),
    {
        proof {
            lemma_slots_per_word(partition_size);
            lemma_slot_position(bitnum as int, partition_size);
            crate::codec::lemma_slot_in_row(self.row(), bitnum as int, partition_size);
            lemma_encode(weight as u64, partition_size);
        }
        let p: u64 = partition_size as u64;
        let shift: u64 = ((bitnum % vbi) * partition_size) as u64;
        let slot: u64 = (1u64 << (p - 1)) | (weight as u64);
        let e: usize = bitnum / vbi;
        let word: u64 = self.edgevert[e] | (slot << shift);
        self.edgevert.set(e, word);
    }

    /// Clears the whole slot of destination `bitnum`, presence and weight
    /// bits alike, and leaves the other slots of the word alone.
    pub fn disconnect_from(&mut self, bitnum: usize, vbi: usize, partition_size: usize, bits: usize)
        requires
            valid_width(partition_size),
            vbi == slots_per_word(partition_size),
            bits == WORD_BITS,
            bitnum < row_capacity(old(self).row(), partition_size),
        ensures
            final(self).row() == old(self).row().update(
                (bitnum / vbi) as int,
                old(self).row()[(bitnum / vbi) as int] & !(low_bits(partition_size as u64)
                    << slot_offset(bitnum as int, partition_size)),
            ),
            final(self).payload() == old(self).payload(),
            final(self).index() == old(self).index(),
    {
        proof {
            lemma_slots_per_word(partition_size);
            lemma_slot_position(bitnum as int, partition_size);
            crate::codec::lemma_slot_in_row(self.row(), bitnum as int, partition_size);
        }
        let mask: u64 = u64::MAX >> ((bits - partition_size) as u64);
        let shift: u64 = ((bitnum % vbi) * partition_size) as u64;
        let e: usize = bitnum / vbi;
        let word: u64 = self.edgevert[e] & !(mask << shift);
        self.edgevert.set(e, word);
    }

    /// Decrements the index the vertex holds.
    pub fn dec_vn(&mut self)
        requires
            old(self).index() > 0,
        ensures
            final(self).index() == old(self).index() - 1,
            final(self).row() == old(self).row(),
            final(self).payload() == old(self).payload(),
    {
        self.vertnum -= 1;
    }

    /// Takes the slot of destination `vertex` out of the row: slots below
    /// it stay, every later slot moves down by one place (the lowest slot of
    /// each following word moves into the top slot of the word before), and
    /// the top slot of the last word becomes empty.
    pub fn shift_after_vertex(&mut self, vertex: usize, partition_size: usize, bits: usize)
        requires
            valid_width(partition_size),
            bits == WORD_BITS,
            vertex < row_capacity(old(self).row(), partition_size),
        ensures
            final(self).row() == shifted_row(old(self).row(), vertex as int, partition_size),
            final(self).payload() == old(self).payload(),
            final(self).index() == old(self).index(),
    {
        proof {
            lemma_slots_per_word(partition_size);
            lemma_slot_position(vertex as int, partition_size);
            crate::codec::lemma_slot_in_row(self.row(), vertex as int, partition_size);
        }
        let ghost old_row = self.row();
        let ghost target = shifted_row(old_row, vertex as int, partition_size);
        let p: u64 = partition_size as u64;
        // slots per word
        let vbi: usize = bits / partition_size;
        // bit offset of the removed slot inside its word
        let compd_vn_bit_pos: u64 = ((vertex % vbi) * partition_size) as u64;
        // the word that holds the removed slot; words before it keep their bits
        let ev_start: usize = vertex / vbi;
        let len: usize = self.edgevert.len();
        let m1: u64 = u64::MAX >> ((bits - partition_size) as u64);
        let top: u64 = (bits - partition_size) as u64;
        let mut e: usize = ev_start;
        while e < len
            invariant
                ev_start <= e <= len,
                len == old_row.len(),
                self.row().len() == len,
                self.payload() == old(self).payload(),
                self.index() == old(self).index(),
                p == partition_size,
                valid_width(partition_size),
                compd_vn_bit_pos + p <= 64,
                vbi == slots_per_word(partition_size),
                ev_start == vertex as int / slots_per_word(partition_size),
                compd_vn_bit_pos == slot_offset(vertex as int, partition_size),
                m1 == low_bits(p),
                top == 64 - p,
                target == shifted_row(old_row, vertex as int, partition_size),
                forall|i: int| 0 <= i < e ==> self.row()[i] == target[i],
                forall|i: int| e <= i < len ==> self.row()[i] == old_row[i],
            decreases len - e,
        {
            let keep: u64 = if e == ev_start {
                if compd_vn_bit_pos == 0 {
                    0
                } else {
                    u64::MAX >> (64 - compd_vn_bit_pos)
                }
            } else {
                0
            };
            let carry: u64 = if e + 1 < len {
                self.edgevert[e + 1] & m1
            } else {
                0
            };
            let w: u64 = self.edgevert[e];
            let shifted: u64 = (w & keep) | ((w >> p) & !keep) | (carry << top);
            proof {
                let s0: u64 = if e == ev_start { compd_vn_bit_pos } else { 0 };
                assert(keep == low_bits(s0));
                assert(shifted == shift_word(w, s0, carry, p));
            }
            self.edgevert.set(e, shifted);
            e += 1;
        }
        proof {
            assert(self.row() =~= target);
        }
    }
}

/// A directed graph whose edges are bit fields packed into rows of words:
/// the row of vertex `src` has, for each destination `dest`, a slot of
/// `partition` bits whose top bit says whether the edge exists and whose
/// other bits hold its weight.
#[derive(Debug, Clone)]
pub struct BitGraph<T> {
    vertices: Vec<Vertex<T>>,
    vert_bit_indexing: usize,
    max_weight: usize,
    partition: usize,
    bits: usize,
}

impl<T> View for BitGraph<T> {
    type V = GraphModel<T>;

    closed spec fn view(&self) -> GraphModel<T> {
        GraphModel {
            width: self.partition,
            payloads: Seq::new(self.vertices@.len(), |i: int| self.vertices@[i].payload()),
            rows: Seq::new(self.vertices@.len(), |i: int| self.vertices@[i].row()),
        }
    }
}

impl<T> BitGraph<T> {
    /// The derived constants agree with the slot width, and every vertex
    /// holds its own index.
    pub closed spec fn inv(&self) -> bool {
        &&& self.bits == WORD_BITS
        &&& self.vert_bit_indexing == slots_per_word(self.partition)
        &&& self.max_weight == max_weight_of(self.partition)
        &&& forall|i: int| 0 <= i < self.vertices@.len() ==> (#[trigger] self.vertices@[i]).index() == i
    }

    /// A well-formed graph: its model is well formed (uniform rows, empty
    /// slots past the last vertex) and its stored constants agree.
    pub open spec fn wf(&self) -> bool {
        self@.wf() && self.inv()
    }
}

/// Checks that `source` and `dest` are both vertex indices of a graph of
/// `vert_len` vertices, and tells which is not.
pub fn check_bounds(source: &usize, dest: &usize, vert_len: usize) -> (r: Result<(), GraphError>)
    ensures
        r == bounds_check(*source as int, *dest as int, vert_len as int),
{
    let source_is_greater: bool = *source >= vert_len;
    let dest_is_greater: bool = *dest >= vert_len;
    if source_is_greater || dest_is_greater {
        if source_is_greater && dest_is_greater {
            Err(GraphError::BothOutOfRange)
        } else if source_is_greater {
            Err(GraphError::SourceOutOfRange)
        } else {
            Err(GraphError::DestOutOfRange)
        }
    } else {
        Ok(())
    }
}

/// The constants of a scheme: slots per word, largest weight, slot width.
fn scheme_params(scale: &EdgeScale) -> (r: (usize, usize, usize))
    ensures
        r.2 == scale_width(*scale),
        valid_width(r.2),
        r.0 == slots_per_word(r.2),
        r.1 == max_weight_of(r.2),
{
    let p: usize = scale.width();
    (WORD_BITS / p, scale.max_weight(), p)
}

/// A row of `n` empty words.
fn zero_row(n: usize) -> (r: Vec<u64>)
    ensures
        r@ == Seq::new(n as nat, |w: int| 0u64),
{
    let mut ev: Vec<u64> = Vec::with_capacity(n);
    while ev.len() < n
        invariant
            ev.len() <= n,
            forall|w: int| 0 <= w < ev.len() ==> ev@[w] == 0u64,
        decreases n - ev.len(),
    {
        ev.push(0);
    }
    proof {
        assert(ev@ =~= Seq::new(n as nat, |w: int| 0u64));
    }
    ev
}

/// Scans the vertices in index order for the first whose payload `source`
/// equals and the first whose payload `dest` equals. Each entry of the
/// result says whether one was found and, if so, its index.
pub fn find_src_dest_idx<T: Clone + PartialEq>(graph: &BitGraph<T>, source: &T, dest: &T) -> (r: [(
    bool,
    usize,
); 2])
    ensures
        0 <= first_match(graph@.payloads, *source) <= graph@.size(),
        0 <= first_match(graph@.payloads, *dest) <= graph@.size(),
        r[0].0 ==> r[0].1 < graph@.size(),
        r[1].0 ==> r[1].1 < graph@.size(),
        !r[0].0 ==> r[0].1 == 0,
        !r[1].0 ==> r[1].1 == 0,
        T::obeys_eq_spec() ==> {
            &&& r[0].0 <==> first_match(graph@.payloads, *source) < graph@.size()
            &&& r[0].0 ==> r[0].1 == first_match(graph@.payloads, *source)
            &&& r[1].0 <==> first_match(graph@.payloads, *dest) < graph@.size()
            &&& r[1].0 ==> r[1].1 == first_match(graph@.payloads, *dest)
        },
{
    let ghost payloads = graph@.payloads;
    proof {
        lemma_first_match_from_bounds(payloads, *source, 0);
        lemma_first_match_from_bounds(payloads, *dest, 0);
    }
    let len: usize = graph.vertices.len();
    let mut found_source: bool = false;
    let mut found_dest: bool = false;
    let mut source_idx: usize = 0;
    let mut dest_idx: usize = 0;
    let mut v: usize = 0;
    while (!found_source || !found_dest) && v < len
        invariant
            v <= len,
            len == payloads.len(),
            payloads == graph@.payloads,
            found_source ==> source_idx < len,
            found_dest ==> dest_idx < len,
            !found_source ==> source_idx == 0,
            !found_dest ==> dest_idx == 0,
            T::obeys_eq_spec() ==> {
                &&& found_source ==> source_idx == first_match(payloads, *source)
                &&& !found_source ==> first_match(payloads, *source) == first_match_from(
                    payloads,
                    *source,
                    v as int,
                )
                &&& found_dest ==> dest_idx == first_match(payloads, *dest)
                &&& !found_dest ==> first_match(payloads, *dest) == first_match_from(
                    payloads,
                    *dest,
                    v as int,
                )
            },
        decreases len - v,
    {
        proof {
            assert(graph.vertices@[v as int].payload() == payloads[v as int]);
        }
        if !found_source && *source == graph.vertices[v].data {
            found_source = true;
            source_idx = v;
        }
        if !found_dest && *dest == graph.vertices[v].data {
            found_dest = true;
            dest_idx = v;
        }
        v += 1;
    }
    [(found_source, source_idx), (found_dest, dest_idx)]
}

impl<T: PartialEq + Clone> BitGraph<T> {
    /// An empty graph with the given partition scheme. Every scheme's slot
    /// fits in a 64-bit word, so construction cannot fail.
    pub fn new(scale: EdgeScale) -> (r: BitGraph<T>)
        ensures
            r.wf(),
            r@.width == scale_width(scale),
            r@.size() == 0,
    {
        let (vbi, mw, p) = scheme_params(&scale);
        let r = BitGraph {
            vertices: Vec::new(),
            vert_bit_indexing: vbi,
            max_weight: mw,
            partition: p,
            bits: WORD_BITS,
        };
        proof {
            assert(r@.rows.len() == 0);
        }
        r
    }

    /// An empty graph with the given partition scheme and room reserved
    /// for `capacity` vertices.
    pub fn new_with_capacity(scale: EdgeScale, capacity: usize) -> (r: BitGraph<T>)
        ensures
            r.wf(),
            r@.width == scale_width(scale),
            r@.size() == 0,
    {
        let (vbi, mw, p) = scheme_params(&scale);
        let r = BitGraph {
            vertices: Vec::with_capacity(capacity),
            vert_bit_indexing: vbi,
            max_weight: mw,
            partition: p,
            bits: WORD_BITS,
        };
        proof {
            assert(r@.rows.len() == 0);
        }
        r
    }

    /// A copy of the payload of vertex `vert_idx`.
    pub fn get_data(&self, vert_idx: usize) -> (r: T)
        requires
            self.wf(),
            vert_idx < self@.size(),
        ensures
            cloned(self@.payloads[vert_idx as int], r),
    {
        self.vertices[vert_idx].get_vert_data()
    }

    /// The index that vertex `vert_idx` holds, which is `vert_idx` itself.
    pub fn get_vn(&self, vert_idx: usize) -> (r: usize)
        requires
            self.wf(),
            vert_idx < self@.size(),
        ensures
            r == vert_idx,
    {
        self.vertices[vert_idx].get_vertnum()
    }

    /// The slot width of the graph's scheme.
    pub fn get_partition_size(&self) -> (r: usize)
        ensures
            r == self@.width,
    {
        self.partition
    }

    /// The number of vertices.
    pub fn size(&self) -> (r: usize)
        ensures
            r == self@.size(),
    {
        self.vertices.len()
    }

    /// The number of words in the row of vertex `idx`.
    pub fn ev_len_at(&self, idx: usize) -> (r: usize)
        requires
            self.wf(),
            idx < self@.size(),
        ensures
            r == self@.rows[idx as int].len(),
    {
        self.vertices[idx].get_ev_size()
    }

    /// Word `ev_idx` of the row of vertex `vert_idx`.
    pub fn ev_num_at(&self, vert_idx: usize, ev_idx: usize) -> (r: u64)
        requires
            self.wf(),
            vert_idx < self@.size(),
            ev_idx < self@.rows[vert_idx as int].len(),
        ensures
            r == self@.rows[vert_idx as int][ev_idx as int],
    {
        self.vertices[vert_idx].get_ev_num(ev_idx)
    }

    /// Appends a vertex holding `new_data`. When the vertex count is a
    /// multiple of the slots per word, every existing row first gains an
    /// empty word; the new row has as many words as its index calls for, so
    /// all rows keep one length.
    pub fn add(&mut self, new_data: T)
        requires
            old(self).wf(),
        ensures
            final(self).wf(),
            final(self)@ == old(self)@.add_vertex(new_data),
            forall|i: int|
                0 <= i < final(self)@.size() ==> (#[trigger] final(self)@.rows[i]).len() == words_for(
                    final(self)@.size(),
                    final(self)@.width,
                ),
    {
        let ghost old_view = self@;
        // all new vertnums are assigned in order: 0, 1, 2, ...
        let new_vertnum: usize = self.vertices.len();
        let vbi: usize = self.vert_bit_indexing;
        proof {
            lemma_slots_per_word(self.partition);
            lemma_add_vertex(old_view, new_data);
            lemma_words_for(new_vertnum as int, self.partition);
            assert(new_vertnum / vbi < usize::MAX) by (nonlinear_arith)
                requires
                    vbi >= 2,
                    new_vertnum <= usize::MAX,
            ;
        }
        let ev_len: usize = new_vertnum / vbi + 1;
        if new_vertnum % vbi == 0 {
            let mut i: usize = 0;
            while i < new_vertnum
                invariant
                    0 <= i <= new_vertnum,
                    self.vertices@.len() == new_vertnum,
                    old(self).vertices@.len() == new_vertnum,
                    self.partition == old_view.width,
                    self.vert_bit_indexing == old(self).vert_bit_indexing,
                    self.max_weight == old(self).max_weight,
                    self.bits == old(self).bits,
                    old_view == old(self)@,
                    forall|k: int|
                        0 <= k < new_vertnum ==> (#[trigger] self.vertices@[k]).payload() == old(self).vertices@[k].payload()
                            && self.vertices@[k].index() == old(self).vertices@[k].index(),
                    forall|k: int|
                        0 <= k < i ==> (#[trigger] self.vertices@[k]).row() == old(self).vertices@[k].row().push(0u64),
                    forall|k: int|
                        i <= k < new_vertnum ==> (#[trigger] self.vertices@[k]).row() == old(self).vertices@[k].row(),
                decreases new_vertnum - i,
            {
                self.vertices[i].push_new_ev();
                i += 1;
            }
        }
        let ev: Vec<u64> = zero_row(ev_len);
        let v: Vertex<T> = Vertex { data: new_data, vertnum: new_vertnum, edgevert: ev };
        self.vertices.push(v);
        proof {
            let target = old_view.add_vertex(new_data);
            assert(self@.payloads =~= target.payloads);
            assert(ev@ =~= target.rows[new_vertnum as int]);
            assert forall|k: int| 0 <= k <= new_vertnum implies #[trigger] self@.rows[k] == target.rows[k] by {
                if k == new_vertnum {
                    assert(self@.rows[k] == ev@);
                }
            }
            assert(self@.rows =~= target.rows);
        }
    }

    /// ORs an edge of weight `weight` from `source` to `dest` into the
    /// graph. Re-connecting an edge ORs the new weight bits into the old ones.
    pub fn connect(&mut self, source: usize, dest: usize, weight: usize) -> (r: Result<(), GraphError>)
        requires
            old(self).wf(),
        ensures
            final(self).wf(),
            r == old(self)@.connect_result(source as int, dest as int, weight as int),
            r is Ok ==> final(self)@ == old(self)@.connect(source as int, dest as int, weight as u64),
            r is Err ==> final(self)@ == old(self)@,
    {
        match check_bounds(&source, &dest, self.vertices.len()) {
            Err(e) => Err(e),
            Ok(()) => {
                if weight <= self.max_weight {
                    let ghost old_view = self@;
                    proof {
                        lemma_connect(old_view, source as int, dest as int, weight as u64);
                        lemma_words_for(old_view.size(), self.partition);
                        assert(self.vertices@[source as int].row() == old_view.rows[source as int]);
                    }
                    self.vertices[source].connect_to(dest, weight, self.vert_bit_indexing, self.partition);
                    proof {
                        let target = old_view.connect(source as int, dest as int, weight as u64);
                        assert(self@.payloads =~= target.payloads);
                        assert(self@.rows =~= target.rows);
                    }
                    Ok(())
                } else {
                    Err(GraphError::WeightOverflow)
                }
            },
        }
    }

    /// Clears the slot of the edge from `source` to `dest`, presence and
    /// weight bits alike.
    pub fn disconnect(&mut self, source: usize, dest: usize) -> (r: Result<(), GraphError>)
        requires
            old(self).wf(),
        ensures
            final(self).wf(),
            r == bounds_check(source as int, dest as int, old(self)@.size()),
            r is Ok ==> final(self)@ == old(self)@.disconnect(source as int, dest as int),
            r is Err ==> final(self)@ == old(self)@,
    {
        match check_bounds(&source, &dest, self.vertices.len()) {
            Err(e) => Err(e),
            Ok(()) => {
                let ghost old_view = self@;
                proof {
                    lemma_disconnect(old_view, source as int, dest as int);
                    lemma_words_for(old_view.size(), self.partition);
                    assert(self.vertices@[source as int].row() == old_view.rows[source as int]);
                }
                self.vertices[source].disconnect_from(
                    dest,
                    self.vert_bit_indexing,
                    self.partition,
                    self.bits,
                );
                proof {
                    let target = old_view.disconnect(source as int, dest as int);
                    assert(self@.payloads =~= target.payloads);
                    assert(self@.rows =~= target.rows);
                }
                Ok(())
            },
        }
    }

    /// Whether there is an edge from `source` to `dest`: the presence bit
    /// of its slot.
    pub fn is_connected(&self, source: usize, dest: usize) -> (r: Result<bool, GraphError>)
        requires
            self.wf(),
        ensures
            r == self@.connected_result(source as int, dest as int),
    {
        match check_bounds(&source, &dest, self.vertices.len()) {
            Err(e) => Err(e),
            Ok(()) => {
                let vbi: usize = self.vert_bit_indexing;
                let p: usize = self.partition;
                proof {
                    lemma_slots_per_word(p);
                    lemma_slot_position(dest as int, p);
                    lemma_words_for(self@.size(), p);
                    crate::codec::lemma_slot_in_row(self@.rows[source as int], dest as int, p);
                    assert(self.vertices@[source as int].row() == self@.rows[source as int]);
                }
                let word: u64 = self.vertices[source].get_ev_num(dest / vbi);
                let shift: u64 = ((dest % vbi) * p) as u64;
                let slot: u64 = (word >> shift) & (u64::MAX >> ((WORD_BITS - p) as u64));
                Ok(slot & (1u64 << ((p - 1) as u64)) != 0)
            },
        }
    }

    /// Removes vertex `vertex`: its payload and row go, every other row
    /// loses the slot of `vertex` (later slots move down one place, across
    /// word boundaries), the vertices after it move down one index, and
    /// every row drops its last word when the new count no longer needs it.
    pub fn remove(&mut self, vertex: usize) -> (r: Result<(), GraphError>)
        requires
            old(self).wf(),
        ensures
            final(self).wf(),
            r == if vertex < old(self)@.size() {
                Ok(())
            } else {
                Err(GraphError::VertexOutOfRange)
            },
            r is Ok ==> final(self)@ == old(self)@.remove_vertex(vertex as int),
            r is Ok ==> final(self)@.size() == old(self)@.size() - 1,
            r is Ok ==> forall|i: int|
                0 <= i < final(self)@.size() ==> #[trigger] final(self)@.payloads[i]
                    == old(self)@.payloads[index_before_removal(i, vertex as int)],
            r is Ok ==> forall|i: int, j: int|
                0 <= i < final(self)@.size() && 0 <= j < final(self)@.size() ==> #[trigger] final(self)@.slot(i, j)
                    == old(self)@.slot(
                    index_before_removal(i, vertex as int),
                    index_before_removal(j, vertex as int),
                ),
            r is Err ==> final(self)@ == old(self)@,
    {
        let len: usize = self.vertices.len();
        if vertex >= len {
            return Err(GraphError::VertexOutOfRange);
        }
        let ghost old_view = self@;
        let ghost target = old_view.remove_vertex(vertex as int);
        let ghost p = self.partition;
        proof {
            lemma_remove_vertex(old_view, vertex as int);
            lemma_slots_per_word(p);
            lemma_words_for(len as int, p);
            lemma_words_for(len - 1, p);
        }
        // every row loses a word when the new count fills one word fewer
        let needs_ev_dec: bool = (len - 1) % self.vert_bit_indexing == 0;
        let mut v: usize = 0;
        while v < vertex
            invariant
                0 <= v <= vertex < len,
                self.vertices@.len() == len,
                self.partition == p,
                self.bits == WORD_BITS,
                self.vert_bit_indexing == old(self).vert_bit_indexing,
                self.max_weight == old(self).max_weight,
                old_view == old(self)@,
                old_view.wf(),
                old_view.width == p,
                old_view.size() == len,
                target == old_view.remove_vertex(vertex as int),
                target.size() == len - 1,
                target.rows.len() == len - 1,
                needs_ev_dec == (words_for(len - 1, p) == words_for(len as int, p) - 1),
                forall|i: int|
                    0 <= i < len ==> (#[trigger] self.vertices@[i]).payload() == old(self).vertices@[i].payload()
                        && self.vertices@[i].index() == i,
                forall|i: int| 0 <= i < v ==> (#[trigger] self.vertices@[i]).row() == target.rows[i],
                forall|i: int| v <= i < len ==> (#[trigger] self.vertices@[i]).row() == old_view.rows[i],
            decreases vertex - v,
        {
            proof {
                lemma_words_for(len as int, p);
            }
            self.vertices[v].shift_after_vertex(vertex, self.partition, self.bits);
            if needs_ev_dec {
                self.vertices[v].dec_ev();
            }
            proof {
                let shifted = shifted_row(old_view.rows[v as int], vertex as int, p);
                lemma_words_for(len - 1, p);
                assert(old_view.rows[v as int].len() == words_for(len as int, p));
                assert(shifted.len() == words_for(len as int, p));
                assert(self.vertices@[v as int].row() =~= shifted.subrange(0, words_for(len - 1, p)));
            }
            v += 1;
        }
        self.vertices.remove(vertex);
        let new_len: usize = len - 1;
        let mut v: usize = vertex;
        while v < new_len
            invariant
                vertex <= v <= new_len,
                new_len == len - 1,
                vertex < len,
                self.vertices@.len() == new_len,
                self.partition == p,
                self.bits == WORD_BITS,
                self.vert_bit_indexing == old(self).vert_bit_indexing,
                self.max_weight == old(self).max_weight,
                old_view == old(self)@,
                old_view.wf(),
                old_view.width == p,
                old_view.size() == len,
                target == old_view.remove_vertex(vertex as int),
                target.size() == len - 1,
                target.rows.len() == len - 1,
                needs_ev_dec == (words_for(len - 1, p) == words_for(len as int, p) - 1),
                forall|i: int|
                    0 <= i < new_len ==> (#[trigger] self.vertices@[i]).payload() == target.payloads[i],
                forall|i: int| 0 <= i < v ==> (#[trigger] self.vertices@[i]).index() == i,
                forall|i: int| v <= i < new_len ==> (#[trigger] self.vertices@[i]).index() == i + 1,
                forall|i: int| 0 <= i < v ==> (#[trigger] self.vertices@[i]).row() == target.rows[i],
                forall|i: int|
                    v <= i < new_len ==> (#[trigger] self.vertices@[i]).row() == old_view.rows[i + 1],
            decreases new_len - v,
        {
            proof {
                lemma_words_for(len as int, p);
            }
            self.vertices[v].dec_vn();
            self.vertices[v].shift_after_vertex(vertex, self.partition, self.bits);
            if needs_ev_dec {
                self.vertices[v].dec_ev();
            }
            proof {
                let shifted = shifted_row(old_view.rows[v + 1], vertex as int, p);
                lemma_words_for(len - 1, p);
                assert(old_view.rows[v + 1].len() == words_for(len as int, p));
                assert(shifted.len() == words_for(len as int, p));
                assert(self.vertices@[v as int].row() =~= shifted.subrange(0, words_for(len - 1, p)));
            }
            v += 1;
        }
        proof {
            assert(self@.payloads =~= target.payloads);
            assert(self@.rows =~= target.rows);
        }
        Ok(())
    }

    /// Appends a vertex holding `data` and returns its index.
    pub fn addv(&mut self, data: T) -> (r: usize)
        requires
            old(self).wf(),
        ensures
            final(self).wf(),
            final(self)@ == old(self)@.add_vertex(data),
            r == old(self)@.size(),
    {
        self.add(data);
        return self.vertices.len() - 1;
    }

    /// Appends `times` vertices, each holding a clone of `data`.
    pub fn add_copies(&mut self, data: T, times: usize)
        requires
            old(self).wf(),
        ensures
            final(self).wf(),
            final(self)@.size() == old(self)@.size() + times,
            final(self)@ == old(self)@.add_vertices(
                final(self)@.payloads.subrange(old(self)@.size(), final(self)@.size()),
            ),
            forall|i: int|
                old(self)@.size() <= i < final(self)@.size() ==> cloned(data, #[trigger] final(self)@.payloads[i]),
    {
        let ghost start = self@;
        let mut v: usize = 0;
        while v < times
            invariant
                v <= times,
                self.wf(),
                self@.size() == start.size() + v,
                start == old(self)@,
                self@ == start.add_vertices(self@.payloads.subrange(start.size(), self@.size())),
                forall|i: int| start.size() <= i < self@.size() ==> cloned(data, #[trigger] self@.payloads[i]),
            decreases times - v,
        {
            let ghost before = self@;
            let copy: T = data.clone();
            self.add(copy);
            proof {
                let added = before.payloads.subrange(start.size(), before.size());
                let now = self@.payloads.subrange(start.size(), self@.size());
                assert(now.drop_last() =~= added);
                assert(now.last() == copy);
            }
            v += 1;
        }
    }

    /// A graph with the given scheme whose vertices hold clones of `d`, in
    /// order, with no edges.
    pub fn initialize(scale: EdgeScale, d: &[T]) -> (r: BitGraph<T>)
        ensures
            r.wf(),
            r@.width == scale_width(scale),
            r@.size() == d@.len(),
            forall|i: int| 0 <= i < d@.len() ==> cloned(d@[i], #[trigger] r@.payloads[i]),
            forall|i: int|
                0 <= i < d@.len() ==> #[trigger] r@.rows[i] == Seq::new(
                    words_for(d@.len() as int, scale_width(scale)) as nat,
                    |w: int| 0u64,
                ),
    {
        let len: usize = d.len();
        let mut verts: Vec<Vertex<T>> = Vec::<Vertex<T>>::with_capacity(len);
        let (vbi, mw, p) = scheme_params(&scale);
        proof {
            lemma_slots_per_word(p);
        }
        let edgevert_len: usize = if len == 0 {
            0
        } else {
            (len - 1) / vbi + 1
        };
        let ghost zeros = Seq::new(edgevert_len as nat, |w: int| 0u64);
        let mut v: usize = 0;
        while v < len
            invariant
                v <= len,
                len == d@.len(),
                verts@.len() == v,
                edgevert_len == words_for(len as int, p),
                zeros == Seq::new(edgevert_len as nat, |w: int| 0u64),
                forall|i: int|
                    0 <= i < v ==> {
                        &&& cloned(d@[i], (#[trigger] verts@[i]).payload())
                        &&& verts@[i].index() == i
                        &&& verts@[i].row() == zeros
                    },
            decreases len - v,
        {
            let vert: Vertex<T> = Vertex { data: d[v].clone(), vertnum: v, edgevert: zero_row(edgevert_len) };
            verts.push(vert);
            v += 1;
        }
        let r = BitGraph {
            vertices: verts,
            vert_bit_indexing: vbi,
            max_weight: mw,
            partition: p,
            bits: WORD_BITS,
        };
        proof {
            lemma_words_for(len as int, p);
            lemma_zero_slots(p as u64);
            assert forall|i: int| 0 <= i < len implies #[trigger] r@.rows[i] == zeros by {
                assert(r.vertices@[i].row() == zeros);
            }
            assert forall|i: int, j: int| 0 <= i < len && 0 <= j < row_capacity(r@.rows[i], p) implies #[trigger] r@.slot(i, j) == 0 by {
                lemma_slot_position(j, p);
                crate::codec::lemma_slot_in_row(r@.rows[i], j, p);
            }
        }
        r
    }

    /// ORs an edge of weight `weight` into the graph between the first
    /// vertex whose payload `source` equals and the first whose payload
    /// `dest` equals.
    pub fn type_connect(&mut self, source: &T, dest: &T, weight: usize) -> (r: Result<(), GraphError>)
        requires
            old(self).wf(),
        ensures
            final(self).wf(),
            r is Err ==> final(self)@ == old(self)@,
            r is Ok ==> exists|i: int, j: int|
                old(self)@.valid_edge(i, j) && final(self)@ == old(self)@.connect(i, j, weight as u64),
            T::obeys_eq_spec() ==> ({
                let i = first_match(old(self)@.payloads, *source);
                let j = first_match(old(self)@.payloads, *dest);
                &&& r == if i == old(self)@.size() || j == old(self)@.size() {
                    Err(GraphError::PayloadNotFound)
                } else {
                    old(self)@.connect_result(i, j, weight as int)
                }
                &&& r is Ok ==> final(self)@ == old(self)@.connect(i, j, weight as u64)
            }),
    {
        let ghost old_view = self@;
        let result: [(bool, usize); 2] = find_src_dest_idx(self, source, dest);
        let (found_source, source_idx) = result[0];
        let (found_dest, dest_idx) = result[1];
        if found_source && found_dest {
            let r = self.connect(source_idx, dest_idx, weight);
            proof {
                assert(old_view.valid_edge(source_idx as int, dest_idx as int));
            }
            r
        } else {
            Err(GraphError::PayloadNotFound)
        }
    }

    /// Clears the edge between the first vertex whose payload `source`
    /// equals and the first whose payload `dest` equals.
    pub fn type_disconnect(&mut self, source: &T, dest: &T) -> (r: Result<(), GraphError>)
        requires
            old(self).wf(),
        ensures
            final(self).wf(),
            r is Err ==> r == Err::<(), GraphError>(GraphError::PayloadNotFound) && final(self)@ == old(self)@,
            r is Ok ==> exists|i: int, j: int|
                old(self)@.valid_edge(i, j) && final(self)@ == old(self)@.disconnect(i, j),
            T::obeys_eq_spec() ==> ({
                let i = first_match(old(self)@.payloads, *source);
                let j = first_match(old(self)@.payloads, *dest);
                &&& r is Err <==> (i == old(self)@.size() || j == old(self)@.size())
                &&& r is Ok ==> final(self)@ == old(self)@.disconnect(i, j)
            }),
    {
        let ghost old_view = self@;
        let result: [(bool, usize); 2] = find_src_dest_idx(self, source, dest);
        let (found_source, source_idx) = result[0];
        let (found_dest, dest_idx) = result[1];
        if found_source && found_dest {
            let r = self.disconnect(source_idx, dest_idx);
            proof {
                assert(old_view.valid_edge(source_idx as int, dest_idx as int));
            }
            r
        } else {
            Err(GraphError::PayloadNotFound)
        }
    }

    /// Removes the first vertex whose payload `data` equals.
    pub fn type_remove(&mut self, data: &T) -> (r: Result<(), GraphError>)
        requires
            old(self).wf(),
        ensures
            final(self).wf(),
            r is Err ==> r == Err::<(), GraphError>(GraphError::PayloadNotFound) && final(self)@ == old(self)@,
            r is Ok ==> exists|k: int| 0 <= k < old(self)@.size() && final(self)@ == old(self)@.remove_vertex(k),
            T::obeys_eq_spec() ==> ({
                let k = first_match(old(self)@.payloads, *data);
                &&& r is Err <==> k == old(self)@.size()
                &&& r is Ok ==> final(self)@ == old(self)@.remove_vertex(k)
            }),
    {
        let ghost payloads = self@.payloads;
        proof {
            lemma_first_match_from_bounds(payloads, *data, 0);
        }
        let len: usize = self.vertices.len();
        let mut found_data: bool = false;
        let mut vertex: usize = 0;
        while !found_data && vertex < len
            invariant
                vertex <= len,
                len == payloads.len(),
                payloads == self@.payloads,
                found_data ==> vertex < len,
                T::obeys_eq_spec() ==> {
                    &&& found_data ==> vertex == first_match(payloads, *data)
                    &&& !found_data ==> first_match(payloads, *data) == first_match_from(
                        payloads,
                        *data,
                        vertex as int,
                    )
                },
            decreases len - vertex + if found_data { 0int } else { 1int },
        {
            proof {
                assert(self.vertices@[vertex as int].payload() == payloads[vertex as int]);
            }
            if *data == self.vertices[vertex].data {
                found_data = true;
            } else {
                vertex += 1;
            }
        }
        if found_data {
            self.remove(vertex)
        } else {
            Err(GraphError::PayloadNotFound)
        }
    }
}

} // verus!
