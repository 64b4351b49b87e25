//! What the debug log says, and when it is kept.
//!
//! A change in a dialog's wording drops its score below the threshold and stops
//! the tool working with no error at all. The log's format optimises for the one
//! question that then matters, *why did it not fire?*, so every score above zero
//! gets a line, not just those that crossed.

use vstd::prelude::*;

use crate::detector;
use crate::detector::{Detection, DetectionView};
use crate::text;
use crate::text::{append_decimal, same_bytes};

verus! {

/// Set this to `1` to turn the log on.
pub const ENV_VAR: &'static str = "ISAYES_DEBUG";

/// The log's file name, in the home directory.
pub const FILE_NAME: &'static str = ".isayes-debug.log";

/// The value of [`ENV_VAR`] that turns the log on.
pub const ON: &'static str = "1";

/// The names with one comma between neighbours.
pub open spec fn listed(names: Seq<Seq<char>>) -> Seq<char>
    decreases names.len(),
{
    if names.len() == 0 {
        Seq::empty()
    } else if names.len() == 1 {
        names[0]
    } else {
        listed(names.drop_last()) + ","@ + names.last()
    }
}

/// What the log says of a verdict.
pub open spec fn verdict_line(detection: DetectionView) -> Seq<char> {
    (if detection.detected {
        "DETECTED"@
    } else {
        "below   "@
    }) + " score="@ + text::decimal_text(detection.score as nat) + " hits=["@ + listed(
        detection.hits,
    ) + "]"@
}

/// The line of the log for a verdict, if it gets one.
pub open spec fn line_of(detection: DetectionView) -> Option<Seq<char>> {
    if detection.score == 0 {
        None
    } else {
        Some(verdict_line(detection))
    }
}

/// Is the log kept, going by the value of [`ENV_VAR`]?
#[must_use]
pub fn wanted(value: Option<&str>) -> (yes: bool)
    ensures
        yes == (value matches Some(text) && text@ == ON@),
{
    match value {
        Some(text) => {
            proof {
                vstd::utf8::encode_utf8_decode_utf8(text@);
                vstd::utf8::encode_utf8_decode_utf8(ON@);
            }
            same_bytes(text.as_bytes(), ON.as_bytes())
        },
        None => false,
    }
}

/// Appends the names, with one comma between neighbours.
fn append_names(line: &mut String, names: &Vec<&'static str>)
    ensures
        final(line)@ == old(line)@ + listed(detector::names(names@)),
{
    let ghost all = detector::names(names@);
    let mut i: usize = 0;
    assert(all.take(0) =~= seq![]);
    assert(line@ =~= old(line)@ + listed(all.take(0)));
    while i < names.len()
        invariant
            i <= names.len(),
            all == detector::names(names@),
            line@ == old(line)@ + listed(all.take(i as int)),
        decreases names.len() - i,
    {
        let ghost more = all.take(i + 1);
        assert(more.drop_last() =~= all.take(i as int));
        assert(more.last() == names@[i as int]@);
        if i > 0 {
            line.append(",");
        }
        line.append(names[i]);
        assert(line@ =~= old(line)@ + listed(more));
        i = i + 1;
    }
    assert(all.take(i as int) =~= all);
}

/// What the detector concluded, and *why*, as one line of the log.
///
/// `None` for a score of zero: that is ordinary output and would bury everything
/// else. Anything above zero gets a line even when it did not cross, because a
/// dialog that suddenly scores 2 instead of 5 is exactly the symptom the log
/// exists to catch.
#[must_use]
pub fn detection_line(detection: &Detection) -> (line: Option<String>)
    ensures
        match line {
            Some(text) => detection@.score != 0 && text@ == verdict_line(detection@),
            None => detection@.score == 0,
        },
        match line {
            Some(text) => line_of(detection@) == Some(text@),
            None => line_of(detection@) is None,
        },
{
    if detection.score == 0 {
        return None;
    }
    let mut line: String = String::new();
    if detection.detected {
        line.append("DETECTED");
    } else {
        line.append("below   ");
    }
    line.append(" score=");
    append_decimal(&mut line, detection.score as u128);
    line.append(" hits=[");
    append_names(&mut line, &detection.hits);
    line.append("]");
    assert(line@ =~= verdict_line(detection@));
    Some(line)
}

}
