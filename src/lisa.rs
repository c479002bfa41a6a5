//! The integer side of local spatial autocorrelation: input checks,
//! neighbour counts, conditional-permutation draws, quadrants and pseudo
//! p-values. The floating-point statistics are computed by the caller from
//! these pieces.

use crate::weights::Weights;
use rand::rngs::ThreadRng;
use vstd::prelude::*;

verus! {

#[verifier::external_type_specification]
#[verifier::external_body]
pub struct ExThreadRng(ThreadRng);

/// Relies on rand::thread_rng: a handle to the calling thread's own
/// generator, seeded by the system; nothing is promised of its draws.
pub assume_specification[ rand::thread_rng ]() -> ThreadRng;

/// `s` is `amount` distinct indices below `length`.
pub open spec fn is_sample(s: Seq<usize>, length: nat, amount: nat) -> bool {
    &&& s.len() == amount
    &&& forall|m: int| 0 <= m < s.len() ==> #[trigger] s[m] < length
    &&& forall|m: int, l: int| 0 <= m < l < s.len() ==> s[m] != s[l]
}

/// Relies on rand::seq::index::sample: exactly `amount` distinct indices
/// from `0..length`, in random order; it panics when `amount > length`.
#[verifier::external_body]
fn sample_indices(rng: &mut ThreadRng, length: usize, amount: usize) -> (r: Vec<usize>)
    requires
        amount <= length,
    ensures
        is_sample(r@, length as nat, amount as nat),
{
    rand::seq::index::sample(rng, length, amount).into_vec()
}

/// Moran scatterplot quadrants: sign of the standardized value, then of its lag.
#[derive(Debug, Clone, Copy, PartialEq, Eq, Structural)]
pub enum Quad {
    HH,
    HL,
    LH,
    LL,
}

impl Quad {
    /// The quadrant of an observation; zero counts as non-negative on both axes.
    pub open spec fn classify_spec(value_nonneg: bool, lag_nonneg: bool) -> Quad {
        if value_nonneg {
            if lag_nonneg {
                Quad::HH
            } else {
                Quad::HL
            }
        } else if lag_nonneg {
            Quad::LH
        } else {
            Quad::LL
        }
    }

    /// The quadrant of an observation from the signs of its standardized
    /// value and of its spatial lag (zero counts as non-negative).
    pub fn classify(value_nonneg: bool, lag_nonneg: bool) -> (r: Quad)
        ensures
            r == Quad::classify_spec(value_nonneg, lag_nonneg),
    {
        if value_nonneg {
            if lag_nonneg {
                Quad::HH
            } else {
                Quad::HL
            }
        } else if lag_nonneg {
            Quad::LH
        } else {
            Quad::LL
        }
    }
}

/// How simulated neighbour sets are drawn.
///
/// `FULL` draws a fresh sample for every permutation of every observation.
/// `LOOKUP` draws one table of samples per neighbour count up front, and
/// every observation with that many neighbours reuses the same draws: an
/// approximation that trades independence between observations for speed.
#[derive(Debug, Clone, Copy, PartialEq, Eq, Structural)]
pub enum PermutationMethod {
    FULL,
    LOOKUP,
}

/// Failures of a LISA computation, all detected before any statistic is computed.
#[derive(Debug, Clone, Copy, PartialEq, Eq, Structural)]
pub enum LisaError {
    /// There are no observations.
    EmptyInput,
    /// The number of values differs from the number of elements of the matrix.
    LengthMismatch { values: usize, elements: usize },
    /// An observation has as many neighbours as there are observations, so
    /// no sample of other observations of that size exists.
    TooManyNeighbors { observation: usize },
    /// The values are constant: they cannot be standardized.
    ZeroVariance,
    /// No permutations were asked for.
    NoPermutations,
}

/// The largest entry of `s`, or 0 for an empty sequence.
pub open spec fn seq_max(s: Seq<usize>) -> nat
    decreases s.len(),
{
    if s.len() == 0 {
        0
    } else {
        let m = seq_max(s.drop_last());
        if s.last() > m {
            s.last() as nat
        } else {
            m
        }
    }
}

proof fn lemma_seq_max(s: Seq<usize>)
    ensures
        forall|i: int| 0 <= i < s.len() ==> s[i] <= seq_max(s),
        s.len() > 0 ==> exists|i: int| 0 <= i < s.len() && s[i] == seq_max(s),
    decreases s.len(),
{
    if s.len() > 0 {
        lemma_seq_max(s.drop_last());
        assert forall|i: int| 0 <= i < s.len() implies s[i] <= seq_max(s) by {
            if i < s.len() - 1 {
                assert(s.drop_last()[i] == s[i]);
            }
        }
        if s.last() <= seq_max(s.drop_last()) && s.len() > 1 {
            let i = choose|i: int| 0 <= i < s.drop_last().len() && s.drop_last()[i] == seq_max(s.drop_last());
            assert(s[i] == seq_max(s));
        } else {
            assert(s[s.len() - 1] == seq_max(s));
        }
    }
}

/// What a LISA run needs to know of the weight matrix before simulating.
#[derive(Debug)]
pub struct LisaPlan {
    /// The number of neighbours of each observation.
    pub no_neighbors: Vec<usize>,
    /// The largest of them.
    pub max_neighbors: usize,
}

/// Checks that `no_values` observations fit the matrix and can be permuted,
/// and counts the neighbours of each observation.
pub fn lisa_plan<W: Copy>(weights: &Weights<W>, no_values: usize, permutations: usize) -> (r: Result<
    LisaPlan,
    LisaError,
>)
    ensures
        match r {
            Ok(plan) => {
                &&& no_values > 0
                &&& permutations > 0
                &&& no_values == weights.size()
                &&& plan.no_neighbors@.len() == no_values
                &&& forall|o: int|
                    0 <= o < no_values ==> #[trigger] plan.no_neighbors@[o] == (if weights@.contains_key(
                        o as usize,
                    ) {
                        weights@[o as usize].dom().len()
                    } else {
                        0
                    })
                &&& forall|o: int| 0 <= o < no_values ==> #[trigger] plan.no_neighbors@[o] < no_values
                &&& plan.max_neighbors == seq_max(plan.no_neighbors@)
                &&& plan.max_neighbors < no_values
            },
            Err(LisaError::EmptyInput) => no_values == 0,
            Err(LisaError::NoPermutations) => no_values > 0 && permutations == 0,
            Err(LisaError::LengthMismatch { values, elements }) => no_values > 0 && permutations > 0
                && values == no_values && elements == weights.size() && no_values != weights.size(),
            Err(LisaError::TooManyNeighbors { observation }) => {
                &&& no_values > 0
                &&& permutations > 0
                &&& no_values == weights.size()
                &&& observation < no_values
                &&& weights@.contains_key(observation)
                &&& weights@[observation].dom().len() >= no_values
            },
            Err(LisaError::ZeroVariance) => false,
        },
{
    if no_values == 0 {
        return Err(LisaError::EmptyInput);
    }
    if permutations == 0 {
        return Err(LisaError::NoPermutations);
    }
    if no_values != weights.no_elements() {
        return Err(LisaError::LengthMismatch { values: no_values, elements: weights.no_elements() });
    }
    let counts = weights.neighbor_counts();
    let mut max: usize = 0;
    let mut o: usize = 0;
    while o < counts.len()
        invariant
            counts@.len() == no_values,
            permutations > 0,
            o <= no_values,
            no_values == weights.size(),
            forall|p: int|
                0 <= p < no_values ==> #[trigger] counts@[p] == (if weights@.contains_key(p as usize) {
                    weights@[p as usize].dom().len()
                } else {
                    0
                }),
            forall|p: int| 0 <= p < o ==> #[trigger] counts@[p] < no_values,
            max == seq_max(counts@.take(o as int)),
        decreases no_values - o,
    {
        if counts[o] >= no_values {
            return Err(LisaError::TooManyNeighbors { observation: o });
        }
        assert(counts@.take(o + 1).drop_last() =~= counts@.take(o as int));
        if counts[o] > max {
            max = counts[o];
        }
        o = o + 1;
    }
    assert(counts@.take(o as int) =~= counts@);
    proof {
        lemma_seq_max(counts@);
        if no_values > 0 {
            let i = choose|i: int| 0 <= i < counts@.len() && counts@[i] == seq_max(counts@);
        }
    }
    Ok(LisaPlan { no_neighbors: counts, max_neighbors: max })
}

/// The observation that index `i` of the all-but-`observation` list stands for.
pub open spec fn observation_of_spec(i: usize, observation: usize) -> usize {
    if i < observation {
        i
    } else {
        (i + 1) as usize
    }
}

/// Maps index `i` into the list of observations with `observation` removed
/// back to an observation index.
pub fn observation_of(i: usize, observation: usize) -> (r: usize)
    requires
        i < usize::MAX,
    ensures
        r == observation_of_spec(i, observation),
        r != observation,
{
    if i < observation {
        i
    } else {
        i + 1
    }
}

/// `s` is `k` distinct observations below `n`, none of them `observation`.
pub open spec fn is_draw(s: Seq<usize>, observation: usize, n: nat, k: nat) -> bool {
    &&& s.len() == k
    &&& forall|m: int| 0 <= m < s.len() ==> #[trigger] s[m] < n && s[m] != observation
    &&& forall|m: int, l: int| 0 <= m < l < s.len() ==> s[m] != s[l]
}

/// A table of samples for the lookup method: entry `[k][p]` is the `p`-th
/// sample of `k` indices into a list of `no_observations - 1` observations.
pub open spec fn is_lookup_table(t: Seq<Vec<Vec<usize>>>, max_no_neighbors: nat, permutations: nat, no_observations: nat) -> bool {
    &&& t.len() == max_no_neighbors + 1
    &&& forall|k: int|
        0 <= k < t.len() ==> (#[trigger] t[k])@.len() == permutations && forall|p: int|
            0 <= p < permutations ==> is_sample(#[trigger] t[k]@[p]@, (no_observations - 1) as nat, k as nat)
}

/// Draws, for every neighbour count from 0 to `max_no_neighbors`,
/// `permutations` samples of that many distinct indices into the list of
/// the other `no_observations - 1` observations. Each neighbour count uses
/// a generator of its own.
pub fn generate_perturbation_lookups(max_no_neighbors: usize, permutations: usize, no_observations: usize) -> (r: Vec<
    Vec<Vec<usize>>,
>)
    requires
        max_no_neighbors < no_observations,
    ensures
        is_lookup_table(r@, max_no_neighbors as nat, permutations as nat, no_observations as nat),
{
    let mut table: Vec<Vec<Vec<usize>>> = Vec::new();
    let mut k: usize = 0;
    while k <= max_no_neighbors
        invariant
            max_no_neighbors < no_observations,
            k <= max_no_neighbors + 1,
            table@.len() == k,
            forall|j: int|
                0 <= j < k ==> (#[trigger] table@[j])@.len() == permutations && forall|p: int|
                    0 <= p < permutations ==> is_sample(
                        #[trigger] table@[j]@[p]@,
                        (no_observations - 1) as nat,
                        j as nat,
                    ),
        decreases max_no_neighbors + 1 - k,
    {
        let mut rng = rand::thread_rng();
        let mut draws: Vec<Vec<usize>> = Vec::new();
        let mut p: usize = 0;
        while p < permutations
            invariant
                k <= max_no_neighbors < no_observations,
                p <= permutations,
                draws@.len() == p,
                forall|q: int|
                    0 <= q < p ==> is_sample(#[trigger] draws@[q]@, (no_observations - 1) as nat, k as nat),
            decreases permutations - p,
        {
            draws.push(sample_indices(&mut rng, no_observations - 1, k));
            p = p + 1;
        }
        table.push(draws);
        k = k + 1;
    }
    table
}

/// The simulated neighbour sets of one observation: `permutations` draws of
/// `no_neighbors` other observations each. With a lookup table, draw `p` is
/// entry `[no_neighbors][p]` of the table, mapped past the observation itself;
/// without one, every draw is sampled afresh.
pub fn simulation_draws(
    observation: usize,
    no_neighbors: usize,
    permutations: usize,
    no_observations: usize,
    lookup: Option<&Vec<Vec<Vec<usize>>>>,
) -> (r: Vec<Vec<usize>>)
    requires
        observation < no_observations,
        no_neighbors < no_observations,
        lookup matches Some(t) ==> no_neighbors < t@.len() && (#[trigger] t@[no_neighbors as int])@.len()
            == permutations && forall|p: int|
            0 <= p < permutations ==> is_sample(
                #[trigger] t@[no_neighbors as int]@[p]@,
                (no_observations - 1) as nat,
                no_neighbors as nat,
            ),
    ensures
        r@.len() == permutations,
        forall|p: int|
            0 <= p < permutations ==> is_draw(
                #[trigger] r@[p]@,
                observation,
                no_observations as nat,
                no_neighbors as nat,
            ),
        lookup matches Some(t) ==> forall|p: int, m: int|
            0 <= p < permutations && 0 <= m < no_neighbors ==> #[trigger] r@[p]@[m] == observation_of_spec(
                t@[no_neighbors as int]@[p]@[m],
                observation,
            ),
{
    let mut rng = rand::thread_rng();
    let mut draws: Vec<Vec<usize>> = Vec::new();
    let mut p: usize = 0;
    while p < permutations
        invariant
            observation < no_observations,
            no_neighbors < no_observations,
            lookup matches Some(t) ==> no_neighbors < t@.len() && (#[trigger] t@[no_neighbors as int])@.len()
                == permutations && forall|p: int|
                0 <= p < permutations ==> is_sample(
                    #[trigger] t@[no_neighbors as int]@[p]@,
                    (no_observations - 1) as nat,
                    no_neighbors as nat,
                ),
            p <= permutations,
            draws@.len() == p,
            forall|q: int|
                0 <= q < p ==> is_draw(
                    #[trigger] draws@[q]@,
                    observation,
                    no_observations as nat,
                    no_neighbors as nat,
                ),
            lookup matches Some(t) ==> forall|q: int, m: int|
                0 <= q < p && 0 <= m < no_neighbors ==> #[trigger] draws@[q]@[m] == observation_of_spec(
                    t@[no_neighbors as int]@[q]@[m],
                    observation,
                ),
        decreases permutations - p,
    {
        let sample: Vec<usize> = match lookup {
            Some(t) => {
                let s = &t[no_neighbors][p];
                let mut copy: Vec<usize> = Vec::new();
                let mut m: usize = 0;
                while m < s.len()
                    invariant
                        m <= s@.len(),
                        copy@ == s@.take(m as int),
                    decreases s@.len() - m,
                {
                    copy.push(s[m]);
                    m = m + 1;
                    assert(copy@ =~= s@.take(m as int));
                }
                assert(s@.take(m as int) =~= s@);
                copy
            },
            None => sample_indices(&mut rng, no_observations - 1, no_neighbors),
        };
        let mut draw: Vec<usize> = Vec::new();
        let mut m: usize = 0;
        while m < sample.len()
            invariant
                observation < no_observations,
                is_sample(sample@, (no_observations - 1) as nat, no_neighbors as nat),
                m <= sample@.len(),
                draw@.len() == m,
                forall|l: int| 0 <= l < m ==> #[trigger] draw@[l] == observation_of_spec(sample@[l], observation),
            decreases sample@.len() - m,
        {
            draw.push(observation_of(sample[m], observation));
            m = m + 1;
        }
        assert(is_draw(draw@, observation, no_observations as nat, no_neighbors as nat)) by {
            assert forall|a: int, b: int| 0 <= a < b < draw@.len() implies draw@[a] != draw@[b] by {
                assert(sample@[a] != sample@[b]);
            }
        }
        draws.push(draw);
        p = p + 1;
    }
    draws
}

/// A pseudo p-value as the exact fraction `numerator / denominator`.
#[derive(Debug, Clone, Copy, PartialEq, Eq, Structural)]
pub struct PseudoPValue {
    pub numerator: usize,
    pub denominator: usize,
}

/// The two-sided pseudo p-value of an observation whose statistic was
/// reached or exceeded by `at_least` of `permutations` simulated statistics:
/// the smaller tail count, plus one, over `permutations + 1`. It is never
/// zero and never above one.
pub fn pseudo_p_value(at_least: usize, permutations: usize) -> (r: PseudoPValue)
    requires
        at_least <= permutations,
        permutations < usize::MAX,
    ensures
        r.denominator == permutations + 1,
        r.numerator == (if at_least <= permutations - at_least {
            at_least
        } else {
            (permutations - at_least) as usize
        }) + 1,
        1 <= r.numerator <= r.denominator,
        2 * r.numerator <= r.denominator + 1,
{
    let mut tail = at_least;
    if permutations - at_least < at_least {
        tail = permutations - at_least;
    }
    PseudoPValue { numerator: tail + 1, denominator: permutations + 1 }
}

} // verus!
