//! The nature-action distribution: integer probability weights over a finite
//! catalog of disturbance actions, and inverse-CDF categorical sampling.
use vstd::prelude::*;

use crate::model::Action;
use crate::model::bounded_action;
use crate::model::stay_action;
use crate::GridError;
use crate::PROB_DENOM;

verus! {

/// The sum of the first `n` weights of a distribution's entries.
pub open spec fn spec_weight_prefix(entries: Seq<(Action, u64)>, n: int) -> int
    decreases n,
{
    if n <= 0 {
        0
    } else {
        spec_weight_prefix(entries, n - 1) + entries[n - 1].1
    }
}

/// Prefix sums of the weights grow with the prefix.
pub proof fn lemma_weight_prefix_mono(entries: Seq<(Action, u64)>, n: int, m: int)
    requires
        0 <= n <= m,
    ensures
        spec_weight_prefix(entries, n) <= spec_weight_prefix(entries, m),
    decreases m - n,
{
    if n < m {
        lemma_weight_prefix_mono(entries, n, m - 1);
    }
}

/// Prefix sums of the weights are never negative.
pub proof fn lemma_weight_prefix_nonneg(entries: Seq<(Action, u64)>, n: int)
    ensures
        0 <= spec_weight_prefix(entries, n),
    decreases n,
{
    if n > 0 {
        lemma_weight_prefix_nonneg(entries, n - 1);
    }
}

/// A probability distribution over nature actions: each entry binds an
/// action to an integer weight out of [`PROB_DENOM`].
pub struct NatureDist {
    pub entries: Vec<(Action, u64)>,
}

impl NatureDist {
    /// The weights sum to the full denominator and every action is bounded.
    pub open spec fn wf(self) -> bool {
        &&& spec_weight_prefix(self.entries@, self.entries@.len() as int) == PROB_DENOM
        &&& forall|k: int|
            0 <= k < self.entries@.len() ==> bounded_action(#[trigger] self.entries@[k].0)
    }

    /// Validates and wraps a weighted action catalog, rejecting one whose
    /// weights do not sum to [`PROB_DENOM`] or whose actions are out of
    /// bounds.
    pub fn new(entries: Vec<(Action, u64)>) -> (r: Result<NatureDist, GridError>)
        ensures
            match r {
                Ok(d) => d.entries@ == entries@ && d.wf(),
                Err(e) => {
                    &&& e == GridError::MalformedDistribution
                    &&& !({
                        &&& spec_weight_prefix(entries@, entries@.len() as int) == PROB_DENOM
                        &&& forall|k: int|
                            0 <= k < entries@.len() ==> bounded_action(#[trigger] entries@[k].0)
                    })
                },
            },
    {
        let n = entries.len();
        let mut sum: u64 = 0;
        let mut k: usize = 0;
        while k < n
            invariant
                n == entries@.len(),
                k <= n,
                sum == spec_weight_prefix(entries@, k as int),
                sum <= PROB_DENOM,
                forall|m: int| 0 <= m < k ==> bounded_action(#[trigger] entries@[m].0),
            decreases n - k,
        {
            let (a, wt) = entries[k];
            if a.di < -crate::DELTA_MAX || a.di > crate::DELTA_MAX || a.dj < -crate::DELTA_MAX
                || a.dj > crate::DELTA_MAX {
                return Err(GridError::MalformedDistribution);
            }
            if wt > PROB_DENOM - sum {
                proof {
                    lemma_weight_prefix_mono(entries@, k + 1, entries@.len() as int);
                }
                return Err(GridError::MalformedDistribution);
            }
            sum = sum + wt;
            k = k + 1;
        }
        if sum != PROB_DENOM {
            return Err(GridError::MalformedDistribution);
        }
        Ok(NatureDist { entries })
    }
}

/// The action selected by walking the entries in order, accumulating weight
/// starting from `cum`, until the running total first exceeds `draw`; the
/// zero displacement when no entry is reached.
pub open spec fn spec_sample_from(entries: Seq<(Action, u64)>, n: int, cum: int, draw: int) -> Action
    decreases entries.len() - n,
{
    if n < 0 || n >= entries.len() {
        stay_action()
    } else if cum + entries[n].1 > draw {
        entries[n].0
    } else {
        spec_sample_from(entries, n + 1, cum + entries[n].1, draw)
    }
}

/// The inverse-CDF categorical sample of a distribution at `draw`.
pub open spec fn spec_sample(entries: Seq<(Action, u64)>, draw: int) -> Action {
    spec_sample_from(entries, 0, 0, draw)
}

/// Any draw strictly below the total weight is covered by some entry, so the
/// zero-displacement fallback of the sampling walk is never reached.
pub proof fn lemma_sample_from_hits_catalog(
    entries: Seq<(Action, u64)>,
    n: int,
    cum: int,
    draw: int,
)
    requires
        0 <= n <= entries.len(),
        cum == spec_weight_prefix(entries, n),
        cum <= draw < spec_weight_prefix(entries, entries.len() as int),
    ensures
        exists|k: int|
            0 <= k < entries.len() && (#[trigger] entries[k]).0 == spec_sample_from(
                entries,
                n,
                cum,
                draw,
            ),
    decreases entries.len() - n,
{
    if n == entries.len() {
        assert(false);
    } else if cum + entries[n].1 > draw {
        assert(entries[n].0 == spec_sample_from(entries, n, cum, draw));
    } else {
        lemma_sample_from_hits_catalog(entries, n + 1, cum + entries[n].1, draw);
    }
}

/// With a well-formed distribution, every draw below the denominator selects
/// an action of the catalog.
pub proof fn lemma_sample_hits_catalog(d: NatureDist, draw: int)
    requires
        d.wf(),
        0 <= draw < PROB_DENOM,
    ensures
        exists|k: int|
            0 <= k < d.entries@.len() && (#[trigger] d.entries@[k]).0 == spec_sample(
                d.entries@,
                draw,
            ),
        bounded_action(spec_sample(d.entries@, draw)),
{
    lemma_sample_from_hits_catalog(d.entries@, 0, 0, draw);
    let k = choose|k: int|
        0 <= k < d.entries@.len() && (#[trigger] d.entries@[k]).0 == spec_sample(
            d.entries@,
            draw,
        );
    assert(bounded_action(d.entries@[k].0));
}

/// Walks the distribution in entry order, accumulating weight until the draw
/// is covered, and returns that entry's action. The zero displacement is an
/// explicit fallback for a walk that runs off the end; with a well-formed
/// distribution and an in-range draw it is unreachable.
pub fn sample_nature_action(nature_behaviour: &NatureDist, draw: u64) -> (a: Action)
    requires
        nature_behaviour.wf(),
        draw < PROB_DENOM,
    ensures
        a == spec_sample(nature_behaviour.entries@, draw as int),
        bounded_action(a),
{
    proof {
        lemma_sample_hits_catalog(*nature_behaviour, draw as int);
    }
    let n = nature_behaviour.entries.len();
    let mut cum: u64 = 0;
    let mut k: usize = 0;
    while k < n
        invariant
            nature_behaviour.wf(),
            draw < PROB_DENOM,
            n == nature_behaviour.entries@.len(),
            k <= n,
            cum == spec_weight_prefix(nature_behaviour.entries@, k as int),
            cum <= draw,
            spec_sample(nature_behaviour.entries@, draw as int) == spec_sample_from(
                nature_behaviour.entries@,
                k as int,
                cum as int,
                draw as int,
            ),
        decreases n - k,
    {
        let (na, wt) = nature_behaviour.entries[k];
        proof {
            lemma_weight_prefix_mono(nature_behaviour.entries@, k + 1, n as int);
        }
        if cum + wt > draw {
            return na;
        }
        cum = cum + wt;
        k = k + 1;
    }
    Action { di: 0, dj: 0 }
}

/// Relies on rand::random_range over `0..n`: the draw is taken uniformly
/// from the half-open range, so it is strictly below `n`; the range is
/// non-empty, so the call does not panic.
#[verifier::external_body]
fn random_below(n: u64) -> (r: u64)
    requires
        n > 0,
    ensures
        r < n,
{
    rand::random_range(0..n)
}

/// Draws one nature action: a uniform draw below [`PROB_DENOM`] resolved
/// through the inverse-CDF walk of the distribution.
pub fn choose_nature_action_randomly(nature_behaviour: &NatureDist) -> (a: Action)
    requires
        nature_behaviour.wf(),
    ensures
        exists|u: int|
            0 <= u < PROB_DENOM && a == spec_sample(nature_behaviour.entries@, u),
        bounded_action(a),
{
    let draw = random_below(PROB_DENOM);
    let a = sample_nature_action(nature_behaviour, draw);
    proof {
        assert(a == spec_sample(nature_behaviour.entries@, draw as int));
    }
    a
}

} // verus!
