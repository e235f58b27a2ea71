//! The values that a matcher's preparation step hands to its scan, and the
//! rules by which a run holds counts against the counts that were expected.

use vstd::prelude::*;

verus! {

/// The machine word that the bit-parallel matcher computes with.
pub type WordType = u64;

/// One piece of what preparing a single pattern yields.
pub enum PatternData {
    PatternU8Vec(Vec<u8>),
    PatternIntVec(Vec<i32>),
    PatternWord(WordType),
    PatternWordVec(Vec<WordType>),
}

/// One piece of what preparing a list of patterns yields.
pub enum MultiPatternData<T> {
    PatternCount(usize),
    PatternIntVecVec(Vec<Vec<i32>>),
    PatternUsizeVec(Vec<usize>),
    PatternTypeVec(Vec<T>),
}

/// One piece of what preparing a pattern for matching with gaps yields.
pub enum ApproxPatternData {
    PatternIntVecVec(Vec<Vec<i32>>),
    PatternUsize(usize),
}

/// What a run makes of one count.
#[derive(Debug, PartialEq, Eq, Clone, Copy)]
pub enum Verdict {
    /// The scan reported an error: the run ends with this value.
    Failed(i32),
    /// The count is the expected one, or none was expected.
    Agrees,
    /// The count is not the expected one.
    Differs,
}

/// What a run makes of the count `matches` where `expected` is the count
/// that the answers hold, if there are answers.
pub open spec fn verdict_of(matches: i32, expected: Option<u32>) -> Verdict {
    if matches < 0 {
        Verdict::Failed(matches)
    } else {
        match expected {
            Some(count) => if matches == count {
                Verdict::Agrees
            } else {
                Verdict::Differs
            },
            None => Verdict::Agrees,
        }
    }
}

/// Judges one count of a scan for a single pattern: a negative count ends
/// the run, and any other count is held against the expected one.
pub fn judge(matches: i32, expected: Option<u32>) -> (verdict: Verdict)
    ensures
        verdict == verdict_of(matches, expected),
{
    if matches < 0 {
        return Verdict::Failed(matches);
    }
    match expected {
        Some(count) => {
            if matches as u32 != count {
                Verdict::Differs
            } else {
                Verdict::Agrees
            }
        },
        None => Verdict::Agrees,
    }
}

/// The numbers below `n` of the patterns whose count for the sequence
/// with number `sequence` is not the expected one, in rising order.
pub open spec fn mismatches(
    matches: Seq<u32>,
    answers: Seq<Vec<u32>>,
    sequence: int,
    n: nat,
) -> Seq<usize>
    decreases n,
{
    if n == 0 {
        Seq::<usize>::empty()
    } else {
        let earlier = mismatches(matches, answers, sequence, (n - 1) as nat);
        if matches[n - 1] != answers[n - 1]@[sequence] {
            earlier.push((n - 1) as usize)
        } else {
            earlier
        }
    }
}

/// Holds the counts of a scan for many patterns against the answers for
/// one sequence, and lists the patterns whose count is not the expected
/// one.
pub fn mismatched_patterns(matches: &[u32], answers: &[Vec<u32>], sequence: usize) -> (mismatched:
    Vec<usize>)
    requires
        matches@.len() <= answers@.len(),
        forall|p: int| 0 <= p < matches@.len() ==> sequence < (#[trigger] answers@[p])@.len(),
    ensures
        mismatched@ == mismatches(matches@, answers@, sequence as int, matches@.len()),
{
    let mut mismatched: Vec<usize> = Vec::new();
    let mut pattern: usize = 0;
    while pattern < matches.len()
        invariant
            pattern <= matches@.len() <= answers@.len(),
            forall|p: int| 0 <= p < matches@.len() ==> sequence < (#[trigger] answers@[p])@.len(),
            mismatched@ == mismatches(matches@, answers@, sequence as int, pattern as nat),
        decreases matches@.len() - pattern,
    {
        if matches[pattern] != answers[pattern][sequence] {
            mismatched.push(pattern);
        }
        pattern += 1;
    }
    mismatched
}

} // verus!
