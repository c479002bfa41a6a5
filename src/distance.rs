//! The distance builder: neighbours are decided from the distances between
//! geometry centroids, against an optional cutoff.

use crate::weights::{row_or_empty, Weights, WeightsError};
use vstd::prelude::*;

verus! {

/// Distance contiguity, configured by an optional cutoff and whether the
/// distance itself is the weight.
#[derive(Debug)]
pub struct DistanceWeights<A> {
    cutoff_dist: Option<A>,
    use_distance_as_weight: bool,
}

impl<A> DistanceWeights<A> {
    /// Without a cutoff the distance must be the weight, else adjacency is undecidable.
    #[verifier::type_invariant]
    spec fn decidable(&self) -> bool {
        self.cutoff_dist is Some || self.use_distance_as_weight
    }

    /// The configured cutoff.
    pub closed spec fn cutoff_spec(&self) -> Option<A> {
        self.cutoff_dist
    }

    /// Whether distances are used as weights.
    pub closed spec fn uses_distance(&self) -> bool {
        self.use_distance_as_weight
    }

    /// The weight of a pair at `distance`, told whether that distance is
    /// strictly below the cutoff; `unit` is the weight of a plain link.
    /// `None` means the pair is not linked.
    pub open spec fn pair_weight_spec(&self, distance: A, within_cutoff: bool, unit: A) -> Option<A> {
        match self.cutoff_spec() {
            Some(_) => if !within_cutoff {
                None
            } else if self.uses_distance() {
                Some(distance)
            } else {
                Some(unit)
            },
            None => Some(distance),
        }
    }

    /// The weight that the builder gives the unordered pair `{a, b}`; only
    /// the entry above the diagonal of each matrix is read.
    pub open spec fn link_spec(
        &self,
        distances: Seq<Vec<A>>,
        within_cutoff: Seq<Vec<bool>>,
        unit: A,
        a: int,
        b: int,
    ) -> Option<A> {
        let (i, j) = if a < b { (a, b) } else { (b, a) };
        self.pair_weight_spec(distances[i]@[j], within_cutoff[i]@[j], unit)
    }
}

impl<A: Copy> DistanceWeights<A> {
    /// A distance builder; refused when there is neither a cutoff nor
    /// distance weights, since adjacency could then not be decided.
    pub fn new(cutoff_dist: Option<A>, use_distance_as_weight: bool) -> (r: Result<
        DistanceWeights<A>,
        WeightsError,
    >)
        ensures
            match r {
                Ok(b) => (cutoff_dist is Some || use_distance_as_weight) && b.cutoff_spec() == cutoff_dist
                    && b.uses_distance() == use_distance_as_weight,
                Err(e) => cutoff_dist is None && !use_distance_as_weight && e == WeightsError::MissingCutoff,
            },
    {
        if cutoff_dist.is_none() && !use_distance_as_weight {
            Err(WeightsError::MissingCutoff)
        } else {
            Ok(DistanceWeights { cutoff_dist, use_distance_as_weight })
        }
    }

    /// The configured cutoff.
    pub fn cutoff_dist(&self) -> (r: Option<A>)
        ensures
            r == self.cutoff_spec(),
    {
        self.cutoff_dist
    }

    /// Whether distances are used as weights.
    pub fn use_distance_as_weight(&self) -> (r: bool)
        ensures
            r == self.uses_distance(),
    {
        self.use_distance_as_weight
    }

    /// The weight of a pair at `distance`: with a cutoff, only pairs strictly
    /// below it are linked, with the distance or `unit` as weight; without a
    /// cutoff every pair is linked with its distance.
    pub fn pair_weight(&self, distance: A, within_cutoff: bool, unit: A) -> (r: Option<A>)
        ensures
            r == self.pair_weight_spec(distance, within_cutoff, unit),
    {
        proof {
            use_type_invariant(self);
        }
        match self.cutoff_dist {
            Some(_) => if !within_cutoff {
                None
            } else if self.use_distance_as_weight {
                Some(distance)
            } else {
                Some(unit)
            },
            None => Some(distance),
        }
    }

    /// Builds the matrix from the centroid distances of `n` geometries:
    /// `distances[i][j]` is the distance from `i` to `j` and
    /// `within_cutoff[i][j]` whether it is strictly below the cutoff. Each
    /// pair is decided once and linked both ways with the same weight; an
    /// element without neighbours gets no entry.
    pub fn compute_weights(
        &self,
        distances: &Vec<Vec<A>>,
        within_cutoff: &Vec<Vec<bool>>,
        unit: A,
    ) -> (r: Weights<A>)
        requires
            within_cutoff@.len() == distances@.len(),
            forall|i: int| 0 <= i < distances@.len() ==> #[trigger] distances@[i]@.len() == distances@.len(),
            forall|i: int|
                0 <= i < distances@.len() ==> #[trigger] within_cutoff@[i]@.len() == distances@.len(),
        ensures
            r.wf(),
            r.size() == distances@.len(),
            self.distance_links(r@, distances@, within_cutoff@, unit),
    {
        let n = distances.len();
        let ghost ds = distances@;
        let ghost wc = within_cutoff@;
        let mut w: Weights<A> = Weights::empty(n);
        let mut i: usize = 0;
        while i < n
            invariant
                n == ds.len(),
                ds == distances@,
                wc == within_cutoff@,
                wc.len() == n,
                forall|x: int| 0 <= x < n ==> #[trigger] ds[x]@.len() == n,
                forall|x: int| 0 <= x < n ==> #[trigger] wc[x]@.len() == n,
                i <= n,
                w.wf(),
                w.size() == n,
                forall|a: usize| #[trigger] w@.contains_key(a) <==> self.has_link_upto(ds, wc, unit, i as int, 0, a),
                forall|a: usize, b: usize|
                    #![trigger w@[a].contains_key(b)]
                    w@.contains_key(a) ==> (w@[a].contains_key(b) <==> self.linked_upto(ds, wc, unit, i as int, 0, a, b)),
                forall|a: usize, b: usize|
                    #![trigger w@[a][b]]
                    w@.contains_key(a) && w@[a].contains_key(b) ==> Some(w@[a][b]) == self.link_spec(
                        ds,
                        wc,
                        unit,
                        a as int,
                        b as int,
                    ),
            decreases n - i,
        {
            let mut j: usize = i + 1;
            proof {
                self.lemma_pair_start(ds, wc, unit, i as int);
            }
            while j < n
                invariant
                    n == ds.len(),
                    ds == distances@,
                    wc == within_cutoff@,
                    wc.len() == n,
                    forall|x: int| 0 <= x < n ==> #[trigger] ds[x]@.len() == n,
                    forall|x: int| 0 <= x < n ==> #[trigger] wc[x]@.len() == n,
                    i < n,
                    i < j <= n,
                    w.wf(),
                    w.size() == n,
                    forall|a: usize| #[trigger] w@.contains_key(a) <==> self.has_link_upto(ds, wc, unit, i as int, j as int, a),
                    forall|a: usize, b: usize|
                        #![trigger w@[a].contains_key(b)]
                        w@.contains_key(a) ==> (w@[a].contains_key(b) <==> self.linked_upto(ds, wc, unit, i as int, j as int, a, b)),
                    forall|a: usize, b: usize|
                        #![trigger w@[a][b]]
                        w@.contains_key(a) && w@[a].contains_key(b) ==> Some(w@[a][b]) == self.link_spec(
                            ds,
                            wc,
                            unit,
                            a as int,
                            b as int,
                        ),
                decreases n - j,
            {
                let d = distances[i][j];
                let within = within_cutoff[i][j];
                let ghost before = w@;
                let decided = self.pair_weight(d, within, unit);
                assert(decided == self.link_spec(ds, wc, unit, i as int, j as int));
                assert(decided == self.link_spec(ds, wc, unit, j as int, i as int));
                match decided {
                    Some(x) => {
                        w.link(i, j, x);
                        w.link(j, i, x);
                    },
                    None => {},
                }
                proof {
                    self.lemma_pair_step(ds, wc, unit, i as int, j as int);
                    assert forall|a: usize| #[trigger] w@.contains_key(a) <==> self.has_link_upto(
                        ds,
                        wc,
                        unit,
                        i as int,
                        j + 1,
                        a,
                    ) by {
                        if decided is Some && (a == i || a == j) {
                            let b = if a == i { j } else { i };
                            assert(self.linked_upto(ds, wc, unit, i as int, j + 1, a, b));
                        } else if before.contains_key(a) {
                            let b = choose|b: usize| b < n && #[trigger] self.linked_upto(ds, wc, unit, i as int, j as int, a, b);
                            assert(self.linked_upto(ds, wc, unit, i as int, j + 1, a, b));
                        } else if self.has_link_upto(ds, wc, unit, i as int, j + 1, a) {
                            let b = choose|b: usize| b < n && #[trigger] self.linked_upto(ds, wc, unit, i as int, j + 1, a, b);
                            assert(self.linked_upto(ds, wc, unit, i as int, j as int, a, b));
                        }
                    }
                }
                j = j + 1;
            }
            proof {
                self.lemma_pair_row_end(ds, wc, unit, i as int);
            }
            i = i + 1;
        }
        proof {
            assert forall|a: usize, b: usize| a < n && b < n implies #[trigger] self.linked_upto(ds, wc, unit, n as int, 0, a, b)
                == (a != b && self.link_spec(ds, wc, unit, a as int, b as int) is Some) by {}
            assert forall|a: usize| #[trigger] w@.contains_key(a) <==> a < n && exists|b: usize|
                    b < n && a != b && self.link_spec(ds, wc, unit, a as int, b as int) is Some by {
                if w@.contains_key(a) {
                    let b = choose|b: usize| b < n && #[trigger] self.linked_upto(ds, wc, unit, n as int, 0, a, b);
                    assert(b < n && a != b && self.link_spec(ds, wc, unit, a as int, b as int) is Some);
                }
                if a < n && exists|b: usize| b < n && a != b && self.link_spec(ds, wc, unit, a as int, b as int) is Some {
                    let b = choose|b: usize| b < n && a != b && self.link_spec(ds, wc, unit, a as int, b as int) is Some;
                    assert(self.linked_upto(ds, wc, unit, n as int, 0, a, b));
                }
            }
        }
        w
    }

    /// `m` links exactly the pairs of distinct elements that the configuration
    /// links at their distance, with the weight it gives; an element has an
    /// entry exactly when it has a neighbour.
    pub open spec fn distance_links(
        &self,
        m: Map<usize, Map<usize, A>>,
        ds: Seq<Vec<A>>,
        wc: Seq<Vec<bool>>,
        unit: A,
    ) -> bool {
        &&& forall|a: usize, b: usize|
            #![trigger m[a].contains_key(b)]
            m.contains_key(a) ==> (m[a].contains_key(b) <==> b < ds.len() && a != b && self.link_spec(
                ds,
                wc,
                unit,
                a as int,
                b as int,
            ) is Some)
        &&& forall|a: usize, b: usize|
            #![trigger m[a][b]]
            m.contains_key(a) && m[a].contains_key(b) ==> Some(m[a][b]) == self.link_spec(
                ds,
                wc,
                unit,
                a as int,
                b as int,
            )
        &&& forall|a: usize|
            #[trigger] m.contains_key(a) <==> a < ds.len() && exists|b: usize|
                b < ds.len() && a != b && self.link_spec(ds, wc, unit, a as int, b as int) is Some
    }

    /// The pair `{a, b}` of distinct elements is linked and comes before
    /// `(i, j)` in the walk.
    pub open spec fn linked_upto(
        &self,
        ds: Seq<Vec<A>>,
        wc: Seq<Vec<bool>>,
        unit: A,
        i: int,
        j: int,
        a: usize,
        b: usize,
    ) -> bool {
        &&& a < ds.len()
        &&& b < ds.len()
        &&& a != b
        &&& self.pair_done(i, j, a, b)
        &&& self.link_spec(ds, wc, unit, a as int, b as int) is Some
    }

    /// Element `a` has a link that comes before `(i, j)` in the walk.
    pub open spec fn has_link_upto(&self, ds: Seq<Vec<A>>, wc: Seq<Vec<bool>>, unit: A, i: int, j: int, a: usize) -> bool {
        exists|b: usize| b < ds.len() && #[trigger] self.linked_upto(ds, wc, unit, i, j, a, b)
    }

    proof fn lemma_pair_start(&self, ds: Seq<Vec<A>>, wc: Seq<Vec<bool>>, unit: A, i: int)
        ensures
            forall|a: usize, b: usize| #[trigger] self.linked_upto(ds, wc, unit, i, i + 1, a, b)
                == self.linked_upto(ds, wc, unit, i, 0, a, b),
            forall|a: usize| #[trigger] self.has_link_upto(ds, wc, unit, i, i + 1, a)
                == self.has_link_upto(ds, wc, unit, i, 0, a),
    {
        assert forall|a: usize| #[trigger] self.has_link_upto(ds, wc, unit, i, i + 1, a)
            == self.has_link_upto(ds, wc, unit, i, 0, a) by {
            if self.has_link_upto(ds, wc, unit, i, i + 1, a) {
                let b = choose|b: usize| b < ds.len() && #[trigger] self.linked_upto(ds, wc, unit, i, i + 1, a, b);
                assert(self.linked_upto(ds, wc, unit, i, 0, a, b));
            }
            if self.has_link_upto(ds, wc, unit, i, 0, a) {
                let b = choose|b: usize| b < ds.len() && #[trigger] self.linked_upto(ds, wc, unit, i, 0, a, b);
                assert(self.linked_upto(ds, wc, unit, i, i + 1, a, b));
            }
        }
    }

    proof fn lemma_pair_step(&self, ds: Seq<Vec<A>>, wc: Seq<Vec<bool>>, unit: A, i: int, j: int)
        requires
            0 <= i < j,
        ensures
            forall|a: usize, b: usize| #[trigger] self.linked_upto(ds, wc, unit, i, j + 1, a, b)
                == (self.linked_upto(ds, wc, unit, i, j, a, b) || (((a == i && b == j) || (a == j && b == i))
                && b < ds.len() && a < ds.len() && self.link_spec(ds, wc, unit, a as int, b as int) is Some)),
    {
    }

    proof fn lemma_pair_row_end(&self, ds: Seq<Vec<A>>, wc: Seq<Vec<bool>>, unit: A, i: int)
        ensures
            forall|a: usize, b: usize| #[trigger] self.linked_upto(ds, wc, unit, i, ds.len() as int, a, b)
                == self.linked_upto(ds, wc, unit, i + 1, 0, a, b),
            forall|a: usize| #[trigger] self.has_link_upto(ds, wc, unit, i, ds.len() as int, a)
                == self.has_link_upto(ds, wc, unit, i + 1, 0, a),
    {
        assert forall|a: usize| #[trigger] self.has_link_upto(ds, wc, unit, i, ds.len() as int, a)
            == self.has_link_upto(ds, wc, unit, i + 1, 0, a) by {
            if self.has_link_upto(ds, wc, unit, i, ds.len() as int, a) {
                let b = choose|b: usize| b < ds.len() && #[trigger] self.linked_upto(ds, wc, unit, i, ds.len() as int, a, b);
                assert(self.linked_upto(ds, wc, unit, i + 1, 0, a, b));
            }
            if self.has_link_upto(ds, wc, unit, i + 1, 0, a) {
                let b = choose|b: usize| b < ds.len() && #[trigger] self.linked_upto(ds, wc, unit, i + 1, 0, a, b);
                assert(self.linked_upto(ds, wc, unit, i, ds.len() as int, a, b));
            }
        }
    }

    /// Whether the pair `{a, b}` comes before `(i, j)` in the walk over pairs
    /// `i < j`, row by row.
    pub open spec fn pair_done(&self, i: int, j: int, a: usize, b: usize) -> bool {
        let (x, y) = if a < b { (a, b) } else { (b, a) };
        x < i || (x == i && y < j)
    }
}

/// Distance links are symmetric: each pair is linked both ways or not at
/// all, with the same weight both ways.
pub proof fn lemma_distance_symmetric<A: Copy>(
    builder: &DistanceWeights<A>,
    m: Map<usize, Map<usize, A>>,
    ds: Seq<Vec<A>>,
    wc: Seq<Vec<bool>>,
    unit: A,
)
    requires
        builder.distance_links(m, ds, wc, unit),
    ensures
        forall|a: usize, b: usize|
            m.contains_key(a) && #[trigger] m[a].contains_key(b) ==> m.contains_key(b) && m[b].contains_key(a)
                && m[b][a] == m[a][b],
{
    assert forall|a: usize, b: usize| m.contains_key(a) && #[trigger] m[a].contains_key(b) implies m.contains_key(
        b,
    ) && m[b].contains_key(a) && m[b][a] == m[a][b] by {
        assert(builder.link_spec(ds, wc, unit, a as int, b as int) == builder.link_spec(
            ds,
            wc,
            unit,
            b as int,
            a as int,
        ));
        assert(a < ds.len());
        assert(m.contains_key(b));
    }
}

} // verus!
