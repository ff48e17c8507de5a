use crate::word::Word;
use itertools::Itertools;
use vstd::prelude::*;

verus! {

/// The number of rounds within which a game counts as won.
pub const MAX_ROUNDS: usize = 6;

/// Whether `lo` is the first position of the smallest number and `hi` the last position of
/// the largest.
pub open spec fn is_minmax(rounds: Seq<usize>, lo: int, hi: int) -> bool {
    &&& 0 <= lo < rounds.len()
    &&& 0 <= hi < rounds.len()
    &&& forall|j: int| 0 <= j < rounds.len() ==> rounds[lo] <= #[trigger] rounds[j] <= rounds[hi]
    &&& forall|j: int| 0 <= j < lo ==> rounds[lo] < #[trigger] rounds[j]
    &&& forall|j: int| hi < j < rounds.len() ==> #[trigger] rounds[j] < rounds[hi]
}

/// Calls `Itertools::minmax_by_key` on the positions of `rounds`, with the number at a
/// position as its key. It gives nothing for no numbers, and else the first position of the
/// smallest number and the last position of the largest.
#[verifier::external_body]
fn minmax_by_rounds(rounds: &Vec<usize>) -> (r: Option<(usize, usize)>)
    ensures
        match r {
            Some((lo, hi)) => is_minmax(rounds@, lo as int, hi as int),
            None => rounds@.len() == 0,
        },
{
    rounds.iter().enumerate().minmax_by_key(|pair| *pair.1).into_option().map(|(lo, hi)| (lo.0, hi.0))
}

/// The sum of numbers of rounds.
pub open spec fn sum_rounds(rounds: Seq<usize>) -> nat
    decreases rounds.len(),
{
    if rounds.len() == 0 {
        0
    } else {
        sum_rounds(rounds.drop_last()) + rounds.last() as nat
    }
}

/// How many numbers of rounds are over the limit.
pub open spec fn count_failed(rounds: Seq<usize>) -> nat
    decreases rounds.len(),
{
    if rounds.len() == 0 {
        0
    } else {
        count_failed(rounds.drop_last()) + if rounds.last() > MAX_ROUNDS {
            1nat
        } else {
            0nat
        }
    }
}

/// The numbers of rounds of runs.
pub open spec fn rounds_of(results: Seq<(Word, usize)>) -> Seq<usize> {
    Seq::new(results.len(), |i: int| results[i].1)
}

/// What a batch of runs came to.
#[derive(Debug, Clone, Copy, PartialEq, Eq)]
pub struct Summary {
    /// The first of the runs with the fewest rounds.
    pub min: (Word, usize),
    /// The last of the runs with the most rounds.
    pub max: (Word, usize),
    /// The rounds of all runs together.
    pub rounds: u128,
    /// The number of runs.
    pub games: usize,
    /// The number of runs that took more rounds than a game allows.
    pub failed: usize,
}

/// Sums up a batch of runs, each a secret with the number of rounds that it took; nothing
/// for an empty batch.
pub fn summarize(results: &[(Word, usize)]) -> (r: Option<Summary>)
    ensures
        match r {
            None => results@.len() == 0,
            Some(s) => {
                &&& exists|lo: int, hi: int|
                    is_minmax(rounds_of(results@), lo, hi) && s.min == results@[lo] && s.max
                        == results@[hi]
                &&& s.rounds == sum_rounds(rounds_of(results@))
                &&& s.games == results@.len()
                &&& s.failed == count_failed(rounds_of(results@))
            },
        },
{
    let ghost all = rounds_of(results@);
    let mut rounds: Vec<usize> = Vec::new();
    let mut total: u128 = 0;
    let mut failed: usize = 0;
    let mut i: usize = 0;
    assert(all.take(0) =~= Seq::<usize>::empty());
    while i < results.len()
        invariant
            i <= results@.len(),
            all == rounds_of(results@),
            rounds@ == all.take(i as int),
            total == sum_rounds(all.take(i as int)),
            total <= i * usize::MAX,
            failed == count_failed(all.take(i as int)),
            failed <= i,
        decreases results@.len() - i,
    {
        let n: usize = results[i].1;
        proof {
            assert(all.take(i + 1).drop_last() =~= all.take(i as int));
            assert(all.take(i + 1).last() == n);
            assert(all.take(i + 1) =~= all.take(i as int).push(n));
            assert((i + 1) * usize::MAX <= u128::MAX) by (nonlinear_arith)
                requires
                    i < usize::MAX,
            ;
            assert((i + 1) * usize::MAX == i * usize::MAX + usize::MAX) by (nonlinear_arith);
        }
        rounds.push(n);
        total = total + n as u128;
        if n > MAX_ROUNDS {
            failed = failed + 1;
        }
        i += 1;
    }
    proof {
        assert(all.take(results@.len() as int) =~= all);
    }
    match minmax_by_rounds(&rounds) {
        None => None,
        Some((lo, hi)) => {
            let summary = Summary {
                min: results[lo],
                max: results[hi],
                rounds: total,
                games: results.len(),
                failed,
            };
            proof {
                assert(is_minmax(all, lo as int, hi as int) && summary.min == results@[lo as int]
                    && summary.max == results@[hi as int]);
            }
            Some(summary)
        },
    }
}

} // verus!
