use vstd::prelude::*;

use crate::text::{normalize, normalized};

verus! {

/// Why a run cannot start.
#[derive(Debug, PartialEq, Eq, Structural)]
pub enum UsageError {
    /// No word was given to look up.
    MissingWord,
}

/// The word to look up, from the first argument of the command line: trimmed
/// and lowercased; an error when there is none.
pub fn query_word(arg: Option<String>) -> (r: Result<String, UsageError>)
    ensures
        arg is None ==> r == Err::<String, UsageError>(UsageError::MissingWord),
        arg matches Some(a) ==> (r matches Ok(w) && w@ == normalized(a@)),
{
    match arg {
        Some(a) => Ok(normalize(a.as_str())),
        None => Err(UsageError::MissingWord),
    }
}

/// What to do when some sources could not be read.
#[derive(Clone, Copy, Debug, PartialEq, Eq, Structural)]
pub enum FailurePolicy {
    /// Any failure fails the whole run.
    FailFast,
    /// Rank what the sources that answered gave.
    BestEffort,
}

/// The results of the sources that answered, in order; `None` marks one that
/// failed.
pub open spec fn answered(results: Seq<Option<Vec<(usize, String)>>>) -> Seq<Vec<(usize, String)>>
    decreases results.len(),
{
    if results.len() == 0 {
        Seq::empty()
    } else {
        let before = answered(results.drop_last());
        match results.last() {
            Some(v) => before.push(v),
            None => before,
        }
    }
}

/// The source results to rank under the policy: under `FailFast` all of them,
/// or none at all if one failed; under `BestEffort` those that answered.
pub fn gather(policy: FailurePolicy, mut results: Vec<Option<Vec<(usize, String)>>>) -> (r: Option<
    Vec<Vec<(usize, String)>>,
>)
    ensures
        policy == FailurePolicy::FailFast && (exists|i: int|
            0 <= i < results@.len() && #[trigger] results@[i] is None) ==> r is None,
        policy == FailurePolicy::FailFast && (forall|i: int|
            0 <= i < results@.len() ==> #[trigger] results@[i] is Some) ==> (r matches Some(v) && v@
            == answered(results@) && v@.len() == results@.len()),
        policy == FailurePolicy::BestEffort ==> (r matches Some(v) && v@ == answered(results@)),
{
    let ghost input = results@;
    let mut out: Vec<Vec<(usize, String)>> = Vec::new();
    let mut failed = false;
    let ghost mut taken: Seq<Option<Vec<(usize, String)>>> = Seq::empty();
    while results.len() > 0
        invariant
            input == taken + results@,
            out@ == answered(taken),
            out@.len() <= taken.len(),
            failed == exists|i: int| 0 <= i < taken.len() && #[trigger] taken[i] is None,
            !failed ==> out@.len() == taken.len(),
        decreases results@.len(),
    {
        let ghost before = taken;
        assert(results@.len() > 0);
        assert(input == before + results@);
        let item = results.remove(0);
        proof {
            taken = taken.push(item);
            assert(taken.drop_last() =~= before);
            assert(taken.last() == item);
        }
        match item {
            Some(v) => {
                out.push(v);
            },
            None => {
                failed = true;
            },
        }
        proof {
            if item is None {
                assert(taken[taken.len() - 1] is None);
            }
            if exists|i: int| 0 <= i < before.len() && #[trigger] before[i] is None {
                let i = choose|i: int| 0 <= i < before.len() && #[trigger] before[i] is None;
                assert(taken[i] == before[i]);
            }
            if exists|i: int| 0 <= i < taken.len() && #[trigger] taken[i] is None {
                let i = choose|i: int| 0 <= i < taken.len() && #[trigger] taken[i] is None;
                if i < before.len() {
                    assert(taken[i] == before[i]);
                }
            }
        }
    }
    assert(input =~= taken);
    if failed && policy == FailurePolicy::FailFast {
        None
    } else {
        Some(out)
    }
}

} // verus!
