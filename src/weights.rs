//! The sparse spatial weight matrix shared by every builder.

use std::collections::{HashMap, HashSet};
use vstd::prelude::*;

verus! {

broadcast use vstd::std_specs::hash::group_hash_axioms;

/// Reads an association list as a map; a later pair for the same key wins.
pub open spec fn assoc_map<W>(r: Seq<(usize, W)>) -> Map<usize, W>
    decreases r.len(),
{
    if r.len() == 0 {
        Map::empty()
    } else {
        assoc_map(r.drop_last()).insert(r.last().0, r.last().1)
    }
}

/// No key occurs twice in the association list.
pub open spec fn distinct_keys<W>(r: Seq<(usize, W)>) -> bool {
    forall|i: int, j: int| 0 <= i < j < r.len() ==> r[i].0 != r[j].0
}

/// A key of the map is exactly a key that occurs in the list.
pub proof fn lemma_assoc_map_dom<W>(r: Seq<(usize, W)>, d: usize)
    ensures
        assoc_map(r).contains_key(d) <==> exists|k: int| 0 <= k < r.len() && r[k].0 == d,
    decreases r.len(),
{
    if r.len() > 0 {
        lemma_assoc_map_dom(r.drop_last(), d);
        if assoc_map(r.drop_last()).contains_key(d) {
            let k = choose|k: int| 0 <= k < r.drop_last().len() && r.drop_last()[k].0 == d;
            assert(r[k].0 == d);
        }
        if exists|k: int| 0 <= k < r.len() && r[k].0 == d {
            let k = choose|k: int| 0 <= k < r.len() && r[k].0 == d;
            if k < r.len() - 1 {
                assert(r.drop_last()[k].0 == d);
            }
        }
    }
}

/// With distinct keys, each pair of the list is a pair of the map.
pub proof fn lemma_assoc_map_index<W>(r: Seq<(usize, W)>, k: int)
    requires
        distinct_keys(r),
        0 <= k < r.len(),
    ensures
        assoc_map(r).contains_key(r[k].0),
        assoc_map(r)[r[k].0] == r[k].1,
    decreases r.len(),
{
    if k < r.len() - 1 {
        lemma_assoc_map_index(r.drop_last(), k);
    }
}

/// With distinct keys, the map has as many keys as the list has pairs.
pub proof fn lemma_assoc_map_len<W>(r: Seq<(usize, W)>)
    requires
        distinct_keys(r),
    ensures
        assoc_map(r).dom().finite(),
        assoc_map(r).dom().len() == r.len(),
    decreases r.len(),
{
    if r.len() > 0 {
        let p = r.drop_last();
        lemma_assoc_map_len(p);
        lemma_assoc_map_dom(p, r.last().0);
        if assoc_map(p).contains_key(r.last().0) {
            let k = choose|k: int| 0 <= k < p.len() && p[k].0 == r.last().0;
            assert(r[k].0 == r[r.len() - 1].0);
        }
    }
}

/// Overwriting the value of a present key is a map insert.
pub proof fn lemma_assoc_map_update<W>(r: Seq<(usize, W)>, k: int, w: W)
    requires
        distinct_keys(r),
        0 <= k < r.len(),
    ensures
        distinct_keys(r.update(k, (r[k].0, w))),
        assoc_map(r.update(k, (r[k].0, w))) == assoc_map(r).insert(r[k].0, w),
{
    let s = r.update(k, (r[k].0, w));
    let lhs = assoc_map(s);
    let rhs = assoc_map(r).insert(r[k].0, w);
    assert forall|d: usize| lhs.contains_key(d) <==> rhs.contains_key(d) by {
        lemma_assoc_map_dom(s, d);
        lemma_assoc_map_dom(r, d);
        if exists|j: int| 0 <= j < s.len() && s[j].0 == d {
            let j = choose|j: int| 0 <= j < s.len() && s[j].0 == d;
            assert(r[j].0 == d);
        }
        if exists|j: int| 0 <= j < r.len() && r[j].0 == d {
            let j = choose|j: int| 0 <= j < r.len() && r[j].0 == d;
            assert(s[j].0 == d);
        }
    }
    assert forall|d: usize| lhs.contains_key(d) implies lhs[d] == rhs[d] by {
        lemma_assoc_map_dom(s, d);
        let j = choose|j: int| 0 <= j < s.len() && s[j].0 == d;
        lemma_assoc_map_index(s, j);
        if j != k {
            lemma_assoc_map_index(r, j);
        }
    }
    assert(lhs =~= rhs);
}

/// Appending a pair is a map insert.
pub proof fn lemma_assoc_map_push<W>(r: Seq<(usize, W)>, p: (usize, W))
    ensures
        assoc_map(r.push(p)) == assoc_map(r).insert(p.0, p.1),
{
    assert(r.push(p).drop_last() =~= r);
}


/// The row of `o` in a matrix model, empty when `o` has no entry.
pub open spec fn row_or_empty<W>(m: Map<usize, Map<usize, W>>, o: usize) -> Map<usize, W> {
    if m.contains_key(o) {
        m[o]
    } else {
        Map::empty()
    }
}

/// The matrix described by the first `t` triples of a list representation:
/// each triple links origin and destination both ways, later triples overwrite.
pub open spec fn list_rep_map<W>(
    origins: Seq<usize>,
    dests: Seq<usize>,
    weights: Seq<W>,
    t: int,
) -> Map<usize, Map<usize, W>>
    decreases t,
{
    if t <= 0 {
        Map::empty()
    } else {
        let m = list_rep_map(origins, dests, weights, t - 1);
        let (a, b, x) = (origins[t - 1], dests[t - 1], weights[t - 1]);
        let m1 = m.insert(a, row_or_empty(m, a).insert(b, x));
        m1.insert(b, row_or_empty(m1, b).insert(a, x))
    }
}

/// `pairs` lists exactly the entries of `m`: every pair is an entry and
/// every key appears.
pub open spec fn describes<W>(pairs: Seq<(usize, W)>, m: Map<usize, W>) -> bool {
    &&& forall|k: int| 0 <= k < pairs.len() ==> m.contains_key(#[trigger] pairs[k].0) && m[pairs[k].0] == pairs[k].1
    &&& forall|d: usize| #[trigger] m.contains_key(d) ==> exists|k: int| 0 <= k < pairs.len() && pairs[k].0 == d
}

/// The entries of a hash map, in its iteration order.
fn map_pairs<W: Copy>(m: &HashMap<usize, W>) -> (r: Vec<(usize, W)>)
    ensures
        describes(r@, m@),
{
    let mut out: Vec<(usize, W)> = Vec::new();
    for (k, v) in it: m.iter()
        invariant
            out@.len() == it.index(),
            forall|j: int| 0 <= j < out@.len() ==> out@[j] == (*it.seq()[j].0, *it.seq()[j].1),
            forall|j: int| 0 <= j < it.seq().len() ==> m@.contains_key(*it.seq()[j].0) && m@[*it.seq()[j].0] == *it.seq()[j].1,
            forall|d: usize|
                #[trigger] m@.contains_key(d) ==> (exists|j: int| 0 <= j < out@.len() && out@[j].0 == d) || (exists|j: int|
                    it.index() <= j < it.seq().len() && *it.seq()[j].0 == d),
    {
        proof {
            assert forall|d: usize| #[trigger] m@.contains_key(d) implies (exists|j: int| 0 <= j < out@.len() + 1 && (out@.push((*k, *v)))[j].0 == d) || (exists|j: int|
                    it.index() + 1 <= j < it.seq().len() && *it.seq()[j].0 == d) by {
                if !(exists|j: int| 0 <= j < out@.len() && out@[j].0 == d) {
                    let j = choose|j: int| it.index() <= j < it.seq().len() && *it.seq()[j].0 == d;
                    if j == it.index() {
                        assert(out@.push((*k, *v))[j].0 == d);
                    }
                } else {
                    let j = choose|j: int| 0 <= j < out@.len() && out@[j].0 == d;
                    assert(out@.push((*k, *v))[j].0 == d);
                }
            }
        }
        out.push((*k, *v));
    }
    out
}

/// The rows of a nested hash map, each with its entries, in iteration order.
fn map_rows<W: Copy>(m: &HashMap<usize, HashMap<usize, W>>) -> (r: Vec<(usize, Vec<(usize, W)>)>)
    ensures
        forall|j: int|
            #![trigger r@[j]]
            0 <= j < r@.len() ==> m@.contains_key(r@[j].0) && describes(r@[j].1@, m@[r@[j].0]@),
        forall|o: usize| #[trigger] m@.contains_key(o) ==> exists|j: int| 0 <= j < r@.len() && r@[j].0 == o,
{
    let mut out: Vec<(usize, Vec<(usize, W)>)> = Vec::new();
    for (k, v) in it: m.iter()
        invariant
            out@.len() == it.index(),
            forall|j: int| 0 <= j < out@.len() ==> out@[j].0 == *it.seq()[j].0 && describes(out@[j].1@, (*it.seq()[j].1)@),
            forall|j: int| 0 <= j < it.seq().len() ==> m@.contains_key(*it.seq()[j].0) && m@[*it.seq()[j].0] == *it.seq()[j].1,
            forall|d: usize|
                #[trigger] m@.contains_key(d) ==> (exists|j: int| 0 <= j < out@.len() && out@[j].0 == d) || (exists|j: int|
                    it.index() <= j < it.seq().len() && *it.seq()[j].0 == d),
    {
        let pairs = map_pairs(v);
        proof {
            assert forall|d: usize| #[trigger] m@.contains_key(d) implies (exists|j: int| 0 <= j < out@.len() + 1 && (out@.push((*k, pairs)))[j].0 == d) || (exists|j: int|
                    it.index() + 1 <= j < it.seq().len() && *it.seq()[j].0 == d) by {
                if !(exists|j: int| 0 <= j < out@.len() && out@[j].0 == d) {
                    let j = choose|j: int| it.index() <= j < it.seq().len() && *it.seq()[j].0 == d;
                    if j == it.index() {
                        assert(out@.push((*k, pairs))[j].0 == d);
                    }
                } else {
                    let j = choose|j: int| 0 <= j < out@.len() && out@[j].0 == d;
                    assert(out@.push((*k, pairs))[j].0 == d);
                }
            }
        }
        out.push((*k, pairs));
    }
    out
}

/// The smallest of three lengths.
pub open spec fn min3(a: nat, b: nat, c: nat) -> nat {
    if a <= b && a <= c {
        a
    } else if b <= c {
        b
    } else {
        c
    }
}

/// How stored weights are rescaled when the matrix is laid out row by row.
pub enum TransformType {
    /// Each row is divided by the sum of its weights.
    Row,
    /// Weights are passed through unchanged.
    Binary,
    /// Rows and columns both standardised; not supported.
    DoublyStandardized,
}

/// Failures of building or querying a weight matrix.
#[derive(Debug, Clone, Copy, PartialEq, Eq, Structural)]
pub enum WeightsError {
    /// The matrix holds no entry for this origin.
    UnknownOrigin { origin: usize },
    /// An identifier does not lie in `[0, no_elements)`.
    IdOutOfRange { id: usize, no_elements: usize },
    /// The requested transform is not implemented.
    UnsupportedTransform,
    /// A distance builder with neither a cutoff nor distance weights.
    MissingCutoff,
}

/// Row `o` of stored rows, empty when absent.
pub open spec fn raw_row<W>(rows: Seq<Option<Vec<(usize, W)>>>, o: int) -> Seq<(usize, W)> {
    if 0 <= o < rows.len() && rows[o] is Some {
        rows[o]->0@
    } else {
        Seq::empty()
    }
}

/// Stored rows list no neighbour twice and only neighbours in range.
pub open spec fn rows_consistent<W>(rows: Seq<Option<Vec<(usize, W)>>>) -> bool {
    forall|o: int|
        #![trigger raw_row(rows, o)]
        0 <= o < rows.len() ==> {
            &&& distinct_keys(raw_row(rows, o))
            &&& forall|k: int| 0 <= k < raw_row(rows, o).len() ==> (#[trigger] raw_row(rows, o)[k]).0 < rows.len()
        }
}

/// A sparse weight matrix over the elements `0..no_elements`.
///
/// Each origin either has no entry at all, or an entry listing its
/// neighbours in the order they were first linked, each with its weight.
/// An entry may be empty: the element is known and has no neighbours.
#[derive(Debug)]
pub struct Weights<W> {
    rows: Vec<Option<Vec<(usize, W)>>>,
}

impl<W> Weights<W> {
    /// The rows as stored: entry `o` lists the neighbours of `o` with weights.
    pub closed spec fn rows_view(&self) -> Seq<Option<Seq<(usize, W)>>> {
        self.rows@.map_values(|r: Option<Vec<(usize, W)>>| match r {
            Some(v) => Some(v@),
            None => None,
        })
    }

    /// Number of elements of the underlying geometry set.
    pub open spec fn size(&self) -> nat {
        self.rows_view().len()
    }

    /// Whether origin `o` has an entry (possibly empty).
    pub open spec fn has_entry(&self, o: int) -> bool {
        0 <= o < self.size() && self.rows_view()[o] is Some
    }

    /// The neighbours of `o` with their weights, in stored order; empty without an entry.
    pub open spec fn row_seq(&self, o: int) -> Seq<(usize, W)> {
        if self.has_entry(o) {
            self.rows_view()[o]->0
        } else {
            Seq::empty()
        }
    }

    /// Internal consistency: identifiers in range, no neighbour listed twice.
    pub open spec fn wf(&self) -> bool {
        forall|o: int|
            #![trigger self.row_seq(o)]
            0 <= o < self.size() ==> {
                &&& distinct_keys(self.row_seq(o))
                &&& forall|k: int|
                    0 <= k < self.row_seq(o).len() ==> (#[trigger] self.row_seq(o)[k]).0 < self.size()
            }
    }

    /// Every matrix is internally consistent.
    #[verifier::type_invariant]
    spec fn consistent(&self) -> bool {
        rows_consistent(self.rows@)
    }

    proof fn lemma_wf_consistent(&self)
        requires
            self.wf(),
        ensures
            rows_consistent(self.rows@),
    {
        assert forall|o: int| 0 <= o < self.rows@.len() implies {
            &&& distinct_keys(#[trigger] raw_row(self.rows@, o))
            &&& forall|k: int| 0 <= k < raw_row(self.rows@, o).len() ==> (#[trigger] raw_row(self.rows@, o)[k]).0 < self.rows@.len()
        } by {
            assert(self.row_seq(o) == raw_row(self.rows@, o));
        }
    }

    proof fn lemma_consistent_wf(&self)
        requires
            rows_consistent(self.rows@),
        ensures
            self.wf(),
    {
        assert forall|o: int| 0 <= o < self.size() implies {
            &&& distinct_keys(#[trigger] self.row_seq(o))
            &&& forall|k: int| 0 <= k < self.row_seq(o).len() ==> (#[trigger] self.row_seq(o)[k]).0 < self.size()
        } by {
            assert(self.row_seq(o) == raw_row(self.rows@, o));
        }
    }

}

impl<W> View for Weights<W> {
    /// Origin with an entry ↦ (neighbour ↦ weight).
    type V = Map<usize, Map<usize, W>>;

    open spec fn view(&self) -> Map<usize, Map<usize, W>> {
        Map::new(|o: usize| self.has_entry(o as int), |o: usize| assoc_map(self.row_seq(o as int)))
    }
}

impl<W: Copy> Weights<W> {
    /// A matrix over `no_elements` elements in which no origin has an entry.
    pub fn empty(no_elements: usize) -> (r: Weights<W>)
        ensures
            r.wf(),
            r.size() == no_elements,
            r@ == Map::<usize, Map<usize, W>>::empty(),
            forall|o: int| !r.has_entry(o),
    {
        let mut rows: Vec<Option<Vec<(usize, W)>>> = Vec::new();
        let mut i: usize = 0;
        while i < no_elements
            invariant
                i <= no_elements,
                rows@.len() == i,
                forall|o: int| 0 <= o < i ==> rows@[o] is None,
            decreases no_elements - i,
        {
            rows.push(None);
            i = i + 1;
        }
        let r = Weights { rows };
        assert(r@ =~= Map::<usize, Map<usize, W>>::empty());
        r
    }

    /// The stored rows: entry `o` is `None` when `o` has no entry, else its
    /// neighbours with their weights in stored order.
    pub fn weights(&self) -> (r: &Vec<Option<Vec<(usize, W)>>>)
        ensures
            r@.len() == self.size(),
            forall|o: int|
                0 <= o < self.size() ==> (#[trigger] r@[o] is Some <==> self.has_entry(o)) && (r@[o] matches Some(
                    v,
                ) ==> v@ == self.row_seq(o)),
    {
        &self.rows
    }

    /// The total number of elements, islands included.
    pub fn no_elements(&self) -> (r: usize)
        ensures
            r == self.size(),
    {
        self.rows.len()
    }

    /// Gives origin `o` an empty entry if it has none.
    pub(crate) fn touch(&mut self, o: usize)
        requires
            old(self).wf(),
            o < old(self).size(),
        ensures
            final(self).wf(),
            final(self).size() == old(self).size(),
            final(self).has_entry(o as int),
            final(self).row_seq(o as int) == old(self).row_seq(o as int),
            forall|p: int| 0 <= p < old(self).size() && p != o ==> final(self).rows_view()[p] == old(self).rows_view()[p],
            final(self)@ == old(self)@.insert(o, row_or_empty(old(self)@, o)),
    {
        let mut rows: Vec<Option<Vec<(usize, W)>>> = Vec::new();
        std::mem::swap(&mut rows, &mut self.rows);
        if rows[o].is_none() {
            rows[o] = Some(Vec::new());
        }
        proof {
            assert forall|p: int| 0 <= p < rows@.len() implies #[trigger] raw_row(rows@, p)
                == raw_row(old(self).rows@, p) by {
                if p == o {
                    assert(raw_row(rows@, p) =~= raw_row(old(self).rows@, p));
                }
            }
            assert(rows_consistent(old(self).rows@)) by {
                old(self).lemma_wf_consistent();
            }
        }
        self.rows = rows;
        assert(self.row_seq(o as int) =~= old(self).row_seq(o as int));
        assert forall|p: int| 0 <= p < self.size() implies #[trigger] self.row_seq(p)
            == old(self).row_seq(p) by {
            if p != o {
                assert(self.rows_view()[p] == old(self).rows_view()[p]);
            }
        }
        assert forall|p: usize| #[trigger] self.has_entry(p as int) == old(self)@.insert(o, row_or_empty(old(self)@, o)).contains_key(p) by {
            if p != o && (p as int) < self.size() {
                assert(self.rows_view()[p as int] == old(self).rows_view()[p as int]);
            }
        }
        assert forall|p: usize| #[trigger] self.has_entry(p as int) implies assoc_map(self.row_seq(p as int)) == old(self)@.insert(o, row_or_empty(old(self)@, o))[p] by {
            if p != o {
                assert(self.rows_view()[p as int] == old(self).rows_view()[p as int]);
            } else if !old(self).has_entry(o as int) {
                assert(assoc_map(self.row_seq(p as int)) =~= Map::empty());
            }
        }
        assert(self@ =~= old(self)@.insert(o, row_or_empty(old(self)@, o)));
    }

    /// Sets the weight of `o → d` to `w`, overwriting an earlier weight.
    pub(crate) fn link(&mut self, o: usize, d: usize, w: W)
        requires
            old(self).wf(),
            o < old(self).size(),
            d < old(self).size(),
        ensures
            final(self).wf(),
            final(self).size() == old(self).size(),
            final(self).has_entry(o as int),
            assoc_map(final(self).row_seq(o as int)) == assoc_map(old(self).row_seq(o as int)).insert(d, w),
            forall|p: int| 0 <= p < old(self).size() && p != o ==> final(self).rows_view()[p] == old(self).rows_view()[p],
            final(self)@ == old(self)@.insert(o, row_or_empty(old(self)@, o).insert(d, w)),
    {
        let ghost before = self.row_seq(o as int);
        let mut rows: Vec<Option<Vec<(usize, W)>>> = Vec::new();
        std::mem::swap(&mut rows, &mut self.rows);
        let mut slot: Option<Vec<(usize, W)>> = None;
        std::mem::swap(&mut slot, &mut rows[o]);
        let mut row: Vec<(usize, W)> = match slot {
            Some(v) => v,
            None => Vec::new(),
        };
        assert(row@ == before);
        let mut k: usize = 0;
        let mut found = false;
        while k < row.len()
            invariant_except_break
                k <= row.len(),
                row@ == before,
                forall|j: int| 0 <= j < k ==> row@[j].0 != d,
            invariant
                !found,
            ensures
                row@ == before,
                k <= row.len(),
                !found,
                k < row.len() ==> row@[k as int].0 == d,
                k == row.len() ==> forall|j: int| 0 <= j < row.len() ==> row@[j].0 != d,
            decreases row.len() - k,
        {
            if row[k].0 == d {
                break;
            }
            k = k + 1;
        }
        proof {
            assert(distinct_keys(before)) by {
                assert(old(self).row_seq(o as int) == before);
            }
        }
        if k < row.len() {
            proof {
                lemma_assoc_map_update(before, k as int, w);
            }
            row[k] = (d, w);
        } else {
            proof {
                lemma_assoc_map_push(before, (d, w));
            }
            row.push((d, w));
        }
        rows[o] = Some(row);
        proof {
            old(self).lemma_wf_consistent();
            assert forall|p: int| 0 <= p < rows@.len() implies {
                &&& distinct_keys(#[trigger] raw_row(rows@, p))
                &&& forall|j: int| 0 <= j < raw_row(rows@, p).len() ==> (#[trigger] raw_row(rows@, p)[j]).0 < rows@.len()
            } by {
                if p != o {
                    assert(raw_row(rows@, p) == raw_row(old(self).rows@, p));
                } else {
                    assert(raw_row(rows@, p) == row@);
                }
            }
        }
        self.rows = rows;
        assert forall|p: int| 0 <= p < self.size() implies {
            &&& distinct_keys(#[trigger] self.row_seq(p))
            &&& forall|j: int|
                0 <= j < self.row_seq(p).len() ==> (#[trigger] self.row_seq(p)[j]).0 < self.size()
        } by {
            if p != o {
                assert(self.rows_view()[p] == old(self).rows_view()[p]);
                assert(self.row_seq(p) == old(self).row_seq(p));
            } else {
                assert(self.row_seq(p) == row@);
            }
        }
        assert forall|p: usize| #[trigger] self.has_entry(p as int) == old(self)@.insert(o, row_or_empty(old(self)@, o).insert(d, w)).contains_key(p) by {
            if p != o && (p as int) < self.size() {
                assert(self.rows_view()[p as int] == old(self).rows_view()[p as int]);
            }
        }
        assert forall|p: usize| #[trigger] self.has_entry(p as int) implies assoc_map(self.row_seq(p as int)) == old(self)@.insert(o, row_or_empty(old(self)@, o).insert(d, w))[p] by {
            if p != o {
                assert(self.rows_view()[p as int] == old(self).rows_view()[p as int]);
            }
        }
        assert(self@ =~= old(self)@.insert(o, row_or_empty(old(self)@, o).insert(d, w)));
    }

    /// Builds a matrix from a map `origin ↦ (destination ↦ weight)` over
    /// `no_elements` elements; an origin mapped to an empty map is a known
    /// island. Fails when an identifier is not below `no_elements`.
    pub fn new(weights: HashMap<usize, HashMap<usize, W>>, no_elements: usize) -> (r: Result<
        Weights<W>,
        WeightsError,
    >)
        ensures
            ({
                let bad = (exists|o: usize| #[trigger] weights@.contains_key(o) && o >= no_elements) || (
                exists|o: usize, d: usize|
                    #![trigger weights@[o]@.contains_key(d)]
                    weights@.contains_key(o) && weights@[o]@.contains_key(d) && d >= no_elements);
                match r {
                    Ok(w) => {
                        &&& !bad
                        &&& w.wf()
                        &&& w.size() == no_elements
                        &&& w@ == weights@.map_values(|m: HashMap<usize, W>| m@)
                    },
                    Err(e) => {
                        &&& bad
                        &&& e matches WeightsError::IdOutOfRange { id, no_elements: n }
                        &&& n == no_elements
                        &&& id >= no_elements
                        &&& exists|o: usize|
                            #![trigger weights@[o]]
                            weights@.contains_key(o) && (o == id || weights@[o]@.contains_key(id))
                    },
                }
            }),
    {
        let entries = map_rows(&weights);
        let mut w: Weights<W> = Weights::empty(no_elements);
        let mut t: usize = 0;
        while t < entries.len()
            invariant
                t <= entries@.len(),
                w.wf(),
                w.size() == no_elements,
                forall|j: int|
                    #![trigger entries@[j]]
                    0 <= j < entries@.len() ==> weights@.contains_key(entries@[j].0)
                        && describes(entries@[j].1@, weights@[entries@[j].0]@),
                forall|o: usize| #[trigger] weights@.contains_key(o) ==> exists|j: int| 0 <= j < entries@.len() && entries@[j].0 == o,
                forall|j: int| 0 <= j < t ==> #[trigger] entries@[j].0 < no_elements,
                forall|j: int|
                    #![trigger entries@[j]]
                    0 <= j < t ==> forall|d: usize|
                        #![trigger weights@[entries@[j].0]@.contains_key(d)]
                        weights@[entries@[j].0]@.contains_key(d) ==> d < no_elements,
                forall|p: usize|
                    #[trigger] w@.contains_key(p) <==> exists|j: int| 0 <= j < t && entries@[j].0 == p,
                forall|p: usize| #[trigger] w@.contains_key(p) ==> weights@.contains_key(p) && w@[p] == weights@[p]@,
            decreases entries@.len() - t,
        {
            let o = entries[t].0;
            let pairs = &entries[t].1;
            if o >= no_elements {
                proof {
                    assert(weights@.contains_key(entries@[t as int].0));
                }
                return Err(WeightsError::IdOutOfRange { id: o, no_elements });
            }
            let ghost prior = w@;
            let ghost full = weights@[o]@;
            w.touch(o);
            assert(w@.dom() =~= prior.dom().insert(o));
            let mut k: usize = 0;
            while k < pairs.len()
                invariant
                    k <= pairs@.len(),
                    o < no_elements,
                    weights@.contains_key(o),
                    full == weights@[o]@,
                    describes(pairs@, full),
                    w.wf(),
                    w.size() == no_elements,
                    w@.dom() == prior.dom().insert(o),
                    forall|p: usize| p != o && #[trigger] prior.contains_key(p) ==> w@[p] == prior[p],
                    forall|m: int| 0 <= m < k ==> #[trigger] pairs@[m].0 < no_elements,
                    forall|d: usize|
                        #[trigger] w@[o].contains_key(d) <==> row_or_empty(prior, o).contains_key(d)
                            || exists|m: int| 0 <= m < k && pairs@[m].0 == d,
                    forall|d: usize| #[trigger] w@[o].contains_key(d) ==> full.contains_key(d) || row_or_empty(prior, o).contains_key(d),
                    forall|d: usize| #[trigger] w@[o].contains_key(d) && full.contains_key(d) && (row_or_empty(prior, o).contains_key(d) ==> row_or_empty(prior, o)[d] == full[d]) ==> w@[o][d] == full[d],
                decreases pairs@.len() - k,
            {
                let (d, x) = pairs[k];
                proof {
                    assert(full.contains_key(pairs@[k as int].0));
                }
                if d >= no_elements {
                    proof {
                        assert(weights@[o]@.contains_key(d));
                    }
                    return Err(WeightsError::IdOutOfRange { id: d, no_elements });
                }
                let ghost before = w@;
                w.link(o, d, x);
                proof {
                    assert(w@.dom() =~= prior.dom().insert(o));
                    assert forall|e: usize| #[trigger] w@[o].contains_key(e) <==> row_or_empty(prior, o).contains_key(e)
                        || exists|m: int| 0 <= m < k + 1 && pairs@[m].0 == e by {
                        if e == d {
                            assert(pairs@[k as int].0 == e);
                        } else if exists|m: int| 0 <= m < k + 1 && pairs@[m].0 == e {
                            let m = choose|m: int| 0 <= m < k + 1 && pairs@[m].0 == e;
                            assert(m != k);
                        }
                    }
                }
                k = k + 1;
            }
            proof {
                assert forall|e: usize|
                    #![trigger weights@[entries@[t as int].0]@.contains_key(e)]
                    weights@[entries@[t as int].0]@.contains_key(e) implies e < no_elements by {
                    assert(full.contains_key(e));
                    let m = choose|m: int| 0 <= m < pairs@.len() && pairs@[m].0 == e;
                    assert(pairs@[m].0 < no_elements);
                }
                assert(prior.contains_key(o) ==> prior[o] == full);
                assert(w@[o] =~= full) by {
                    assert forall|e: usize| #[trigger] w@[o].contains_key(e) <==> full.contains_key(e) by {
                        if full.contains_key(e) {
                            let m = choose|m: int| 0 <= m < pairs@.len() && pairs@[m].0 == e;
                            assert(pairs@[m].0 == e);
                        }
                    }
                }
                assert forall|p: usize| #[trigger] w@.contains_key(p) <==> exists|j: int| 0 <= j < t + 1 && entries@[j].0 == p by {
                    if p == o {
                        assert(entries@[t as int].0 == p);
                    } else if exists|j: int| 0 <= j < t + 1 && entries@[j].0 == p {
                        let j = choose|j: int| 0 <= j < t + 1 && entries@[j].0 == p;
                        assert(j != t);
                    }
                }
            }
            t = t + 1;
        }
        proof {
            assert forall|p: usize| #[trigger] weights@.contains_key(p) implies w@.contains_key(p) by {
                let j = choose|j: int| 0 <= j < entries@.len() && entries@[j].0 == p;
                assert(entries@[j].0 == p);
            }
            assert forall|o: usize, d: usize|
                #![trigger weights@[o]@.contains_key(d)]
                weights@.contains_key(o) && weights@[o]@.contains_key(d) implies d < no_elements by {
                let j = choose|j: int| 0 <= j < entries@.len() && entries@[j].0 == o;
                assert(entries@[j].0 == o);
            }
            assert forall|o: usize| #[trigger] weights@.contains_key(o) implies o < no_elements by {
                let j = choose|j: int| 0 <= j < entries@.len() && entries@[j].0 == o;
                assert(entries@[j].0 == o);
            }
        }
        assert(w@ =~= weights@.map_values(|m: HashMap<usize, W>| m@));
        Ok(w)
    }

    /// Builds a matrix from parallel lists of origins, destinations and weights.
    ///
    /// Each triple links origin and destination in both directions; a later
    /// triple for the same pair overwrites the weight of an earlier one.
    /// Only as many triples are read as the shortest list holds. Fails when
    /// an identifier among them is not below `no_elements`.
    pub fn from_list_rep(
        origins: &Vec<usize>,
        dests: &Vec<usize>,
        weights: &Vec<W>,
        no_elements: usize,
    ) -> (r: Result<Weights<W>, WeightsError>)
        ensures
            ({
                let m = min3(origins@.len(), dests@.len(), weights@.len());
                let bad = exists|t: int|
                    0 <= t < m && (origins@[t] >= no_elements || dests@[t] >= no_elements);
                match r {
                    Ok(w) => {
                        &&& !bad
                        &&& w.wf()
                        &&& w.size() == no_elements
                        &&& w@ == list_rep_map(origins@, dests@, weights@, m as int)
                    },
                    Err(e) => {
                        &&& bad
                        &&& e matches WeightsError::IdOutOfRange { id, no_elements: n }
                        &&& n == no_elements
                        &&& exists|t: int|
                            #![trigger origins@[t]]
                            0 <= t < m && (forall|j: int| 0 <= j < t ==> origins@[j] < no_elements
                                && dests@[j] < no_elements) && id == (if origins@[t] >= no_elements {
                                origins@[t]
                            } else {
                                dests@[t]
                            }) && id >= no_elements
                    },
                }
            }),
    {
        let mut m = origins.len();
        if dests.len() < m {
            m = dests.len();
        }
        if weights.len() < m {
            m = weights.len();
        }
        let mut t: usize = 0;
        while t < m
            invariant
                t <= m,
                m == min3(origins@.len(), dests@.len(), weights@.len()),
                forall|j: int| 0 <= j < t ==> origins@[j] < no_elements && dests@[j] < no_elements,
            decreases m - t,
        {
            if origins[t] >= no_elements {
                return Err(WeightsError::IdOutOfRange { id: origins[t], no_elements });
            }
            if dests[t] >= no_elements {
                return Err(WeightsError::IdOutOfRange { id: dests[t], no_elements });
            }
            t = t + 1;
        }
        let mut w: Weights<W> = Weights::empty(no_elements);
        let mut t: usize = 0;
        while t < m
            invariant
                t <= m,
                m == min3(origins@.len(), dests@.len(), weights@.len()),
                forall|j: int| 0 <= j < m ==> origins@[j] < no_elements && dests@[j] < no_elements,
                w.wf(),
                w.size() == no_elements,
                w@ == list_rep_map(origins@, dests@, weights@, t as int),
            decreases m - t,
        {
            w.link(origins[t], dests[t], weights[t]);
            w.link(dests[t], origins[t], weights[t]);
            t = t + 1;
        }
        Ok(w)
    }

    /// The identifiers of the neighbours of `origin`, or `None` when the
    /// matrix has no entry for it. An empty set means a known island.
    pub fn get_neighbor_ids(&self, origin: usize) -> (r: Option<HashSet<usize>>)
        ensures
            match r {
                None => !self@.contains_key(origin),
                Some(s) => self@.contains_key(origin) && s@ == self@[origin].dom(),
            },
    {
        proof {
            use_type_invariant(self);
            self.lemma_consistent_wf();
        }
        if origin >= self.rows.len() {
            return None;
        }
        match &self.rows[origin] {
            None => None,
            Some(row) => {
                let ghost r = self.row_seq(origin as int);
                assert(row@ == r);
                let mut ids: HashSet<usize> = HashSet::new();
                let mut k: usize = 0;
                while k < row.len()
                    invariant
                        k <= row.len(),
                        row@ == r,
                        ids@ == Set::new(|d: usize| exists|j: int| 0 <= j < k && r[j].0 == d),
                    decreases row.len() - k,
                {
                    let ghost before = ids@;
                    ids.insert(row[k].0);
                    assert(ids@ =~= Set::new(|d: usize| exists|j: int| 0 <= j < k + 1 && r[j].0 == d)) by {
                        assert forall|d: usize| #[trigger] ids@.contains(d) implies exists|j: int| 0 <= j < k + 1 && r[j].0 == d by {
                            if d == r[k as int].0 {
                                assert(r[k as int].0 == d);
                            } else {
                                assert(before.contains(d));
                            }
                        }
                    }
                    k = k + 1;
                }
                assert forall|d: usize| #[trigger] ids@.contains(d) == self@[origin].dom().contains(d) by {
                    lemma_assoc_map_dom(r, d);
                }
                assert(ids@ =~= self@[origin].dom());
                Some(ids)
            },
        }
    }

    /// Whether `dest` is a neighbour of `origin`; an error when the matrix
    /// has no entry for `origin`.
    pub fn are_neighbors(&self, origin: usize, dest: usize) -> (r: Result<bool, WeightsError>)
        ensures
            match r {
                Ok(b) => self@.contains_key(origin) && b == self@[origin].contains_key(dest),
                Err(e) => !self@.contains_key(origin) && e == WeightsError::UnknownOrigin { origin },
            },
    {
        proof {
            use_type_invariant(self);
            self.lemma_consistent_wf();
        }
        if origin >= self.rows.len() {
            return Err(WeightsError::UnknownOrigin { origin });
        }
        match &self.rows[origin] {
            None => Err(WeightsError::UnknownOrigin { origin }),
            Some(row) => {
                let ghost r = self.row_seq(origin as int);
                assert(row@ == r);
                assert(self@.contains_key(origin) && self@[origin] == assoc_map(r));
                let mut k: usize = 0;
                while k < row.len()
                    invariant
                        k <= row.len(),
                        row@ == r,
                        self@.contains_key(origin) && self@[origin] == assoc_map(r),
                        forall|j: int| 0 <= j < k ==> r[j].0 != dest,
                    decreases row.len() - k,
                {
                    if row[k].0 == dest {
                        proof {
                            lemma_assoc_map_dom(r, dest);
                            assert(r[k as int].0 == dest);
                        }
                        return Ok(true);
                    }
                    k = k + 1;
                }
                proof {
                    lemma_assoc_map_dom(r, dest);
                }
                Ok(false)
            },
        }
    }

    /// Every stored link as (origin, destination, weight), origins in
    /// increasing order and each row in stored order.
    pub fn to_list(&self) -> (r: (Vec<usize>, Vec<usize>, Vec<W>))
        ensures
            r.0@.len() == self.entries_before(self.size() as int).len(),
            r.1@.len() == r.0@.len(),
            r.2@.len() == r.0@.len(),
            forall|t: int|
                0 <= t < r.0@.len() ==> (r.0@[t], r.1@[t], r.2@[t]) == #[trigger] self.entries_before(
                    self.size() as int,
                )[t],
    {
        let (origins, dests, values, _offsets) = self.flatten();
        (origins, dests, values)
    }

    /// Lays the matrix out row by row: row `i` occupies positions
    /// `row_offsets[i]..row_offsets[i + 1]` of `col_indices` and `values`.
    /// `Row` asks for each row to be divided by its sum, which the numeric
    /// consumer applies; `None` and `Binary` keep the weights as stored;
    /// `DoublyStandardized` is refused.
    pub fn as_sparse_matrix(&self, transform: Option<TransformType>) -> (r: Result<
        SparseRows<W>,
        WeightsError,
    >)
        ensures
            match r {
                Err(e) => transform == Some(TransformType::DoublyStandardized) && e
                    == WeightsError::UnsupportedTransform,
                Ok(s) => {
                    &&& transform != Some(TransformType::DoublyStandardized)
                    &&& s.normalize_rows == (transform == Some(TransformType::Row))
                    &&& s.no_elements == self.size()
                    &&& self.is_layout(s.row_offsets@, s.col_indices@, s.values@)
                },
            },
    {
        let normalize_rows = match transform {
            Some(TransformType::DoublyStandardized) => {
                return Err(WeightsError::UnsupportedTransform);
            },
            Some(TransformType::Row) => true,
            _ => false,
        };
        let (_origins, col_indices, values, row_offsets) = self.flatten();
        Ok(SparseRows { no_elements: self.rows.len(), row_offsets, col_indices, values, normalize_rows })
    }

    /// The number of neighbours of each element; zero without an entry.
    pub fn neighbor_counts(&self) -> (r: Vec<usize>)
        ensures
            r@.len() == self.size(),
            forall|o: int|
                0 <= o < self.size() ==> #[trigger] r@[o] == (if self@.contains_key(o as usize) {
                    self@[o as usize].dom().len()
                } else {
                    0
                }),
    {
        proof {
            use_type_invariant(self);
            self.lemma_consistent_wf();
        }
        let mut counts: Vec<usize> = Vec::new();
        let mut i: usize = 0;
        while i < self.rows.len()
            invariant
                self.wf(),
                i <= self.size(),
                counts@.len() == i,
                forall|o: int|
                    0 <= o < i ==> #[trigger] counts@[o] == (if self@.contains_key(o as usize) {
                        self@[o as usize].dom().len()
                    } else {
                        0
                    }),
            decreases self.size() - i,
        {
            let c: usize = match &self.rows[i] {
                Some(row) => row.len(),
                None => 0,
            };
            proof {
                lemma_assoc_map_len(self.row_seq(i as int));
            }
            counts.push(c);
            i = i + 1;
        }
        counts
    }

    /// Walks the rows in order, listing every link and where each row starts.
    fn flatten(&self) -> (r: (Vec<usize>, Vec<usize>, Vec<W>, Vec<usize>))
        ensures
            r.0@.len() == self.entries_before(self.size() as int).len(),
            r.1@.len() == r.0@.len(),
            r.2@.len() == r.0@.len(),
            forall|t: int|
                0 <= t < r.0@.len() ==> (r.0@[t], r.1@[t], r.2@[t]) == #[trigger] self.entries_before(
                    self.size() as int,
                )[t],
            self.is_layout(r.3@, r.1@, r.2@),
    {
        let n = self.rows.len();
        let mut origins: Vec<usize> = Vec::new();
        let mut dests: Vec<usize> = Vec::new();
        let mut values: Vec<W> = Vec::new();
        let mut offsets: Vec<usize> = Vec::new();
        offsets.push(0);
        let mut i: usize = 0;
        while i < n
            invariant
                n == self.size(),
                i <= n,
                origins@.len() == self.entries_before(i as int).len(),
                dests@.len() == origins@.len(),
                values@.len() == origins@.len(),
                forall|t: int|
                    0 <= t < origins@.len() ==> (origins@[t], dests@[t], values@[t])
                        == #[trigger] self.entries_before(i as int)[t],
                offsets@.len() == i + 1,
                forall|j: int|
                    0 <= j <= i ==> #[trigger] offsets@[j] == self.entries_before(j).len(),
            decreases n - i,
        {
            let ghost base = self.entries_before(i as int);
            let ghost tail = self.row_seq(i as int).map_values(
                |p: (usize, W)| (i, p.0, p.1),
            );
            assert(self.entries_before(i + 1) == base + tail);
            match &self.rows[i] {
                None => {
                    assert(tail =~= Seq::empty());
                    assert(base + tail =~= base);
                },
                Some(row) => {
                    assert(row@ == self.row_seq(i as int));
                    let mut k: usize = 0;
                    while k < row.len()
                        invariant
                            k <= row.len(),
                            row@ == self.row_seq(i as int),
                            tail == row@.map_values(|p: (usize, W)| (i, p.0, p.1)),
                            origins@.len() == base.len() + k,
                            dests@.len() == origins@.len(),
                            values@.len() == origins@.len(),
                            forall|t: int|
                                0 <= t < origins@.len() ==> (origins@[t], dests@[t], values@[t])
                                    == #[trigger] (base + tail)[t],
                        decreases row.len() - k,
                    {
                        let (d, w) = row[k];
                        origins.push(i);
                        dests.push(d);
                        values.push(w);
                        k = k + 1;
                    }
                },
            }
            assert(origins@.len() == (base + tail).len());
            offsets.push(origins.len());
            i = i + 1;
        }
        (origins, dests, values, offsets)
    }
}

/// A row-major sparse layout of a weight matrix, ready for a numeric
/// compressed-sparse-row matrix.
#[derive(Debug)]
pub struct SparseRows<W> {
    /// Number of rows and of columns.
    pub no_elements: usize,
    /// `no_elements + 1` offsets into `col_indices` and `values`.
    pub row_offsets: Vec<usize>,
    /// Column (destination) of each stored weight.
    pub col_indices: Vec<usize>,
    /// The stored weights, unscaled.
    pub values: Vec<W>,
    /// Whether each row is to be divided by its sum.
    pub normalize_rows: bool,
}

impl<W> Weights<W> {
    /// The links of origins `0..o`, origin by origin, each row in stored order.
    pub open spec fn entries_before(&self, o: int) -> Seq<(usize, usize, W)>
        decreases o,
    {
        if o <= 0 {
            Seq::empty()
        } else {
            self.entries_before(o - 1) + self.row_seq(o - 1).map_values(
                |p: (usize, W)| ((o - 1) as usize, p.0, p.1),
            )
        }
    }

    /// `offsets`, `cols` and `vals` lay the rows out in order: row `i`
    /// occupies `offsets[i]..offsets[i + 1]`.
    pub open spec fn is_layout(&self, offsets: Seq<usize>, cols: Seq<usize>, vals: Seq<W>) -> bool {
        let all = self.entries_before(self.size() as int);
        &&& offsets.len() == self.size() + 1
        &&& forall|i: int| 0 <= i <= self.size() ==> #[trigger] offsets[i] == self.entries_before(i).len()
        &&& cols.len() == all.len()
        &&& vals.len() == all.len()
        &&& forall|t: int| 0 <= t < all.len() ==> cols[t] == (#[trigger] all[t]).1 && vals[t] == all[t].2
    }
}

/// The (column, value) pairs that a row-major layout holds for row `i`.
pub open spec fn layout_segment<W>(offsets: Seq<usize>, cols: Seq<usize>, vals: Seq<W>, i: int) -> Seq<
    (usize, W),
> {
    Seq::new((offsets[i + 1] - offsets[i]) as nat, |k: int| (cols[offsets[i] + k], vals[offsets[i] + k]))
}

/// The links of the first `i` origins are a prefix of those of the first `j`.
pub proof fn lemma_entries_prefix<W>(w: &Weights<W>, i: int, j: int)
    requires
        0 <= i <= j,
    ensures
        w.entries_before(i).len() <= w.entries_before(j).len(),
        w.entries_before(j).take(w.entries_before(i).len() as int) == w.entries_before(i),
    decreases j - i,
{
    if i < j {
        lemma_entries_prefix(w, i, j - 1);
        let a = w.entries_before(i);
        let b = w.entries_before(j - 1);
        let tail = w.row_seq(j - 1).map_values(|p: (usize, W)| ((j - 1) as usize, p.0, p.1));
        assert(w.entries_before(j) == b + tail);
        assert((b + tail).take(a.len() as int) =~= b.take(a.len() as int));
    } else {
        assert(w.entries_before(j).take(w.entries_before(i).len() as int) =~= w.entries_before(i));
    }
}

/// In a row-major layout, row `i` occupies exactly its own segment and lists
/// the neighbours of `i` with their weights, in stored order.
pub proof fn lemma_layout_row<W>(
    w: &Weights<W>,
    offsets: Seq<usize>,
    cols: Seq<usize>,
    vals: Seq<W>,
    i: int,
)
    requires
        w.is_layout(offsets, cols, vals),
        0 <= i < w.size(),
    ensures
        offsets[i] <= offsets[i + 1] <= cols.len(),
        offsets[i + 1] - offsets[i] == w.row_seq(i).len(),
        forall|k: int|
            0 <= k < w.row_seq(i).len() ==> cols[offsets[i] + k] == (#[trigger] w.row_seq(i)[k]).0
                && vals[offsets[i] + k] == w.row_seq(i)[k].1,
{
    let n = w.size() as int;
    lemma_entries_prefix(w, i + 1, n);
    let all = w.entries_before(n);
    let base = w.entries_before(i);
    let tail = w.row_seq(i).map_values(|p: (usize, W)| (i as usize, p.0, p.1));
    assert(w.entries_before(i + 1) == base + tail);
    assert(offsets[i] == base.len());
    assert(offsets[i + 1] == base.len() + tail.len());
    assert forall|k: int| 0 <= k < w.row_seq(i).len() implies cols[offsets[i] + k] == (
    #[trigger] w.row_seq(i)[k]).0 && vals[offsets[i] + k] == w.row_seq(i)[k].1 by {
        let t = base.len() + k;
        assert(all.take((base.len() + tail.len()) as int)[t] == all[t]);
        assert((base + tail)[t] == tail[k]);
    }
}

/// Converting a matrix to its row-major layout is faithful and repeatable:
/// any two layouts of the same matrix are identical, and the segment of each
/// row, read as neighbour ↦ weight, is that row of the matrix.
pub proof fn lemma_sparse_rows_identical<W>(
    w: &Weights<W>,
    o1: Seq<usize>,
    c1: Seq<usize>,
    v1: Seq<W>,
    o2: Seq<usize>,
    c2: Seq<usize>,
    v2: Seq<W>,
)
    requires
        w.wf(),
        w.is_layout(o1, c1, v1),
        w.is_layout(o2, c2, v2),
    ensures
        o1 == o2,
        c1 == c2,
        v1 == v2,
        forall|i: usize|
            i < w.size() ==> assoc_map(#[trigger] layout_segment(o1, c1, v1, i as int))
                == row_or_empty(w@, i),
{
    let all = w.entries_before(w.size() as int);
    assert(o1 =~= o2);
    assert forall|t: int| 0 <= t < c1.len() implies c1[t] == c2[t] by {
        assert(c1[t] == all[t].1);
    }
    assert forall|t: int| 0 <= t < v1.len() implies v1[t] == v2[t] by {
        assert(v1[t] == all[t].2);
    }
    assert(c1 =~= c2);
    assert(v1 =~= v2);
    assert forall|i: usize| i < w.size() implies assoc_map(
        #[trigger] layout_segment(o1, c1, v1, i as int),
    ) == row_or_empty(w@, i) by {
        lemma_layout_row(w, o1, c1, v1, i as int);
        let seg = layout_segment(o1, c1, v1, i as int);
        assert(seg =~= w.row_seq(i as int));
        if !w.has_entry(i as int) {
            assert(assoc_map(w.row_seq(i as int)) =~= Map::empty());
        }
    }
}

/// A matrix built from a list representation is symmetric: `b` is a
/// neighbour of `a` exactly when `a` is a neighbour of `b`, with the same weight.
pub proof fn lemma_list_rep_symmetric<W>(origins: Seq<usize>, dests: Seq<usize>, weights: Seq<W>, t: int)
    requires
        t <= origins.len(),
        t <= dests.len(),
        t <= weights.len(),
    ensures
        ({
            let m = list_rep_map(origins, dests, weights, t);
            forall|a: usize, b: usize|
                #![trigger row_or_empty(m, a).contains_key(b)]
                (row_or_empty(m, a).contains_key(b) <==> row_or_empty(m, b).contains_key(a)) && (
                row_or_empty(m, a).contains_key(b) ==> row_or_empty(m, a)[b] == row_or_empty(m, b)[a])
        }),
    decreases t,
{
    if t > 0 {
        lemma_list_rep_symmetric(origins, dests, weights, t - 1);
        let m = list_rep_map(origins, dests, weights, t - 1);
        let (x, y, w) = (origins[t - 1], dests[t - 1], weights[t - 1]);
        let m1 = m.insert(x, row_or_empty(m, x).insert(y, w));
        let m2 = m1.insert(y, row_or_empty(m1, y).insert(x, w));
        assert(list_rep_map(origins, dests, weights, t) == m2);
        assert forall|a: usize, b: usize|
            (#[trigger] row_or_empty(m2, a).contains_key(b) <==> row_or_empty(m2, b).contains_key(a)) && (
            row_or_empty(m2, a).contains_key(b) ==> row_or_empty(m2, a)[b] == row_or_empty(m2, b)[a]) by {
            assert(row_or_empty(m, a).contains_key(b) <==> row_or_empty(m, b).contains_key(a));
        }
    }
}

} // verus!
