//! What to make of the second recognizer's opinion on a block.
//!
//! It does three things: marks the words on which the two disagree, lends the main
//! model the measured times when it has none, and, most importantly, rescues the
//! block when the main model got stuck repeating itself. That case is not
//! theoretical: an encoder-decoder model repeated "no" seventy-four times in a row
//! over five seconds of a test call. A transducer cannot fall into that, so when the
//! main model degenerates and the other does not, the other's text is used and the
//! block is marked as repaired.

use vstd::prelude::*;
use crate::confidence::{loop_score, loop_score_of, LOOP_LIMIT};
use crate::text::{trim, trimmed_str};

verus! {

/// Window, in words, of the repetition test.
pub const LOOP_WINDOW: usize = 4;

/// A text that repeats one phrase of `LOOP_WINDOW` words `LOOP_LIMIT` times or more.
pub open spec fn degenerate(text: Seq<char>) -> bool {
    loop_score_of(text, LOOP_WINDOW as int) >= LOOP_LIMIT
}

/// Is the recognizer caught in a repetition loop in this text?
pub fn is_degenerate(text: &str) -> (r: bool)
    ensures
        r == degenerate(text@),
{
    loop_score(text, LOOP_WINDOW) >= LOOP_LIMIT
}

/// What to do with a block once the second recognizer has heard it too.
#[derive(Clone, Copy, Debug, PartialEq, Eq, Structural)]
pub enum Merge {
    /// The second model heard nothing: no opinion to compare with, and better to mark
    /// nothing than everything. Its text is recorded as empty.
    NoOpinion,
    /// The main model degenerated and the other did not: the block takes the other's
    /// text, words and times, keeps the broken text aside, and is marked repaired.
    Repair,
    /// The words on which the two disagree are marked; the measured times of the
    /// other model are lent to the block when `transfer_timings`.
    Refine { transfer_timings: bool },
}

/// The decision for a block: `other_text` is what the second model heard;
/// `block_degenerate` and `block_exact` say whether the block repeats itself and
/// has measured word times; `other_has_timings` and `other_exact` whether the second
/// model gives times per token and gave them this time.
pub open spec fn merge_of(
    other_text: Seq<char>,
    block_degenerate: bool,
    other_has_timings: bool,
    other_exact: bool,
    block_exact: bool,
) -> Merge {
    if trim(other_text).len() == 0 {
        Merge::NoOpinion
    } else if block_degenerate && !degenerate(other_text) {
        Merge::Repair
    } else {
        Merge::Refine { transfer_timings: other_has_timings && other_exact && !block_exact }
    }
}

/// Decides how a block and the second recognizer's opinion on it are merged.
pub fn merge_plan(
    other_text: &str,
    block_degenerate: bool,
    other_has_timings: bool,
    other_exact: bool,
    block_exact: bool,
) -> (r: Merge)
    ensures
        r == merge_of(other_text@, block_degenerate, other_has_timings, other_exact, block_exact),
{
    let t = trimmed_str(other_text);
    if t.len() == 0 {
        return Merge::NoOpinion;
    }
    if block_degenerate && !is_degenerate(other_text) {
        return Merge::Repair;
    }
    Merge::Refine { transfer_timings: other_has_timings && other_exact && !block_exact }
}

/// The text of a block and its flags: what a merge changes besides word times.
pub struct BlockText {
    pub source: String,
    /// What the other model heard, or the broken text after a repair.
    pub alt_source: Option<String>,
    pub exact_timings: bool,
    pub degenerate: bool,
    pub repaired: bool,
}

/// Applies the merge `m` to the block's text and flags. After a repair the other
/// model's text is shown and the broken one kept aside; otherwise the other model's
/// text is kept aside (empty when it heard nothing).
pub fn merge_text(b: BlockText, other_text: String, other_exact: bool, m: Merge) -> (r: BlockText)
    ensures
        r.source == (if m is Repair { other_text } else { b.source }),
        r.alt_source matches Some(t) && t@ == (match m {
            Merge::NoOpinion => Seq::<char>::empty(),
            Merge::Repair => b.source@,
            Merge::Refine { .. } => other_text@,
        }),
        r.exact_timings == (match m {
            Merge::NoOpinion => b.exact_timings,
            Merge::Repair => other_exact,
            Merge::Refine { transfer_timings } => b.exact_timings || transfer_timings,
        }),
        r.degenerate == (b.degenerate && !(m is Repair)),
        r.repaired == (b.repaired || m is Repair),
{
    match m {
        Merge::NoOpinion => BlockText { alt_source: Some(String::new()), ..b },
        Merge::Repair => BlockText {
            source: other_text,
            alt_source: Some(b.source),
            exact_timings: other_exact,
            degenerate: false,
            repaired: true,
        },
        Merge::Refine { transfer_timings } => BlockText {
            alt_source: Some(other_text),
            exact_timings: b.exact_timings || transfer_timings,
            ..b
        },
    }
}

/// The low-confidence mark of each of a block's `n` words: the comparison's mark
/// where there is one, none past its end.
pub fn word_marks(n: usize, low_conf: &[bool]) -> (r: Vec<bool>)
    ensures
        r@.len() == n,
        forall|k: int| 0 <= k < n ==> #[trigger] r@[k] == (k < low_conf@.len() && low_conf@[k]),
{
    let mut r: Vec<bool> = Vec::new();
    let mut k: usize = 0;
    while k < n
        invariant
            k <= n,
            r@.len() == k,
            forall|q: int| 0 <= q < k ==> #[trigger] r@[q] == (q < low_conf@.len() && low_conf@[q]),
        decreases n - k,
    {
        r.push(k < low_conf.len() && low_conf[k]);
        k = k + 1;
    }
    r
}

/// Law: a block that does not repeat itself is never replaced, and times are lent
/// only to a block without measured times, by a model that measured them.
pub proof fn law_merge_keeps_sound_blocks(
    other_text: Seq<char>,
    block_degenerate: bool,
    other_has_timings: bool,
    other_exact: bool,
    block_exact: bool,
)
    ensures
        !block_degenerate ==> merge_of(
            other_text,
            block_degenerate,
            other_has_timings,
            other_exact,
            block_exact,
        ) != Merge::Repair,
        merge_of(other_text, block_degenerate, other_has_timings, other_exact, block_exact)
            == (Merge::Refine { transfer_timings: true }) ==> other_has_timings && other_exact
            && !block_exact,
        merge_of(other_text, block_degenerate, other_has_timings, other_exact, block_exact)
            == Merge::Repair ==> !degenerate(other_text),
{
}

} // verus!
