//! Scoring terminal output for a permission dialog.
//!
//! Pure by construction: no I/O, no state, no clock.

use vstd::prelude::*;

use crate::pattern;
use crate::pattern::{
    is_match, replace_all, replace_char, ANSI_CURSOR, ANSI_ESCAPE, CONTROL, MULTI_SPACE, NEEDS_YES,
    YES_NO, YN_AT_END,
};
use crate::text;
use crate::text::{chars_of, contains, tail_lines};

verus! {

/// A dialog is detected at this score or above.
///
/// One weak indicator scores 2 and is ignored, the yes/no button pair scores 5
/// on its own.
pub const THRESHOLD: u32 = 3;

/// Only the last this-many lines of the buffer are scored. A dialog is always
/// the most recent output, and a tail bounds the cost of a scan that runs on
/// every read.
pub const TAIL_LINES: usize = 50;

/// What [`is_prompt`] concluded about a buffer.
#[derive(Debug, Clone, PartialEq, Eq)]
pub struct Detection {
    /// The score reached [`THRESHOLD`] and something that can be answered is on
    /// screen.
    pub detected: bool,
    /// The sum of the weights of the indicators that matched.
    pub score: u32,
    /// The indicators that matched, in table order: descending by weight.
    ///
    /// When the dialog's wording moves, the tool stops approving with no error
    /// at all, and this is what makes the debug log say *which* indicator went
    /// quiet.
    pub hits: Vec<&'static str>,
}

/// What the names say.
pub open spec fn names(hits: Seq<&'static str>) -> Seq<Seq<char>> {
    hits.map_values(|name: &'static str| name@)
}

/// A [`Detection`] as plain values.
pub struct DetectionView {
    pub detected: bool,
    pub score: int,
    pub hits: Seq<Seq<char>>,
}

impl View for Detection {
    type V = DetectionView;

    open spec fn view(&self) -> DetectionView {
        DetectionView {
            detected: self.detected,
            score: self.score as int,
            hits: names(self.hits@),
        }
    }
}

// ── the model ────────────────────────────────────────────────────────────────

/// One space.
pub open spec fn space() -> Seq<char> {
    seq![' ']
}

/// Step one of [`stripped`]: each cursor movement becomes a space.
pub open spec fn cursors_spaced(t: Seq<char>) -> Seq<char> {
    pattern::substituted(t, space(), pattern::cursor_matches())
}

/// Steps two to five of [`stripped`]: the other escapes go, control characters
/// go, a carriage return becomes a space, a run of spaces becomes one space.
pub open spec fn tidied(t: Seq<char>) -> Seq<char> {
    let unescaped = pattern::substituted(t, seq![], pattern::escape_matches());
    let printable = pattern::substituted(
        unescaped,
        seq![],
        pattern::control_matches(),
    );
    let returned = pattern::substituted(
        printable,
        space(),
        pattern::char_matches('\r'),
    );
    pattern::substituted(returned, space(), pattern::spaces_matches())
}

/// The text without its escapes and control characters, white space normalised.
pub open spec fn stripped(t: Seq<char>) -> Seq<char> {
    tidied(cursors_spaced(t))
}

/// The part of a raw text that is scored: its last 50 lines, stripped.
pub open spec fn scored_tail(t: Seq<char>) -> Seq<char> {
    text::last_lines(stripped(t), TAIL_LINES as nat)
}

/// Both halves of the button pair are on screen.
pub open spec fn shows_buttons(t: Seq<char>) -> bool {
    &&& {
        ||| text::occurs_in(t, "1. Yes"@)
        ||| text::occurs_in(t, "1) Yes"@)
        ||| text::occurs_in(t, "\u{2022} Yes"@)
    }
    &&& pattern::shows_no_button(t)
}

/// The dialog names its approving key.
pub open spec fn shows_enter_hint(t: Seq<char>) -> bool {
    text::occurs_in(t, "Enter to approve"@) || text::occurs_in(
        t,
        "Enter to confirm"@,
    )
}

/// Something that can be *answered* is on screen: buttons, an "Enter to …"
/// hint, a `(y/n)`. The other indicators corroborate a dialog, they are not one.
pub open spec fn actionable(t: Seq<char>) -> bool {
    shows_buttons(t) || shows_enter_hint(t) || pattern::ends_in_yn(t)
}

/// `weight` when the indicator is there, else nothing.
pub open spec fn worth(there: bool, weight: int) -> int {
    if there {
        weight
    } else {
        0
    }
}

/// The indicator's name when it is there, else nothing.
pub open spec fn named(there: bool, name: Seq<char>) -> Seq<Seq<char>> {
    if there {
        seq![name]
    } else {
        seq![]
    }
}

/// What a stripped tail scores.
pub open spec fn score_of(t: Seq<char>) -> int {
    worth(shows_buttons(t), 5) + worth(shows_enter_hint(t), 3) + worth(
        pattern::ends_in_yn(t),
        3,
    ) + worth(text::occurs_in(t, "Permission rule"@), 3) + worth(
        text::occurs_in(t, "Esc to cancel"@),
        2,
    ) + worth(text::occurs_in(t, "Tab to amend"@), 2)
}

/// The indicators in a stripped tail, in table order.
pub open spec fn hits_of(t: Seq<char>) -> Seq<Seq<char>> {
    named(shows_buttons(t), "yes_no_buttons"@) + named(shows_enter_hint(t), "enter_to_approve"@)
        + named(pattern::ends_in_yn(t), "yn_prompt"@) + named(
        text::occurs_in(t, "Permission rule"@),
        "permission_rule"@,
    ) + named(text::occurs_in(t, "Esc to cancel"@), "esc_to_cancel"@) + named(
        text::occurs_in(t, "Tab to amend"@),
        "tab_to_amend"@,
    )
}

/// The verdict on a stripped tail.
pub open spec fn judged(t: Seq<char>) -> DetectionView {
    DetectionView {
        detected: score_of(t) >= THRESHOLD && actionable(t),
        score: score_of(t),
        hits: hits_of(t),
    }
}

/// The verdict on a raw text.
pub open spec fn detection_of(t: Seq<char>) -> DetectionView {
    judged(scored_tail(t))
}

/// A raw text asks for the word rather than for a keypress.
pub open spec fn wants_word(t: Seq<char>) -> bool {
    pattern::asks_for_word(scored_tail(t))
}

// ── the functions ────────────────────────────────────────────────────────────

/// Remove ANSI escapes and normalise whitespace.
#[must_use]
pub fn strip_ansi(text: &str) -> (clean: String)
    ensures
        clean@ == stripped(text@),
{
    proof {
        reveal_strlit(" ");
        reveal_strlit("");
        assert(" "@ =~= space());
        assert(""@ =~= Seq::<char>::empty());
    }
    let spaced: String = replace_all(ANSI_CURSOR, text, " ");
    let unescaped: String = replace_all(ANSI_ESCAPE, spaced.as_str(), "");
    let printable: String = replace_all(CONTROL, unescaped.as_str(), "");
    let returned: String = replace_char(printable.as_str(), '\r', " ");
    replace_all(MULTI_SPACE, returned.as_str(), " ")
}

/// Books one indicator: its weight and its name, when it is there.
fn note(
    there: bool,
    name: &'static str,
    weight: u32,
    score: u32,
    hits: &mut Vec<&'static str>,
) -> (total: u32)
    requires
        score + weight <= u32::MAX,
    ensures
        total == score + worth(there, weight as int),
        names(final(hits)@) == names(old(hits)@) + named(there, name@),
{
    if there {
        hits.push(name);
        assert(names(hits@) =~= names(old(hits)@) + named(there, name@));
        score + weight
    } else {
        assert(names(hits@) =~= names(old(hits)@) + named(there, name@));
        score
    }
}

/// Score a stripped tail against the shape of a permission dialog.
#[must_use]
pub fn judge(tail: &str) -> (detection: Detection)
    ensures
        detection@ == judged(tail@),
{
    let chars: Vec<char> = chars_of(tail);
    let has_yes: bool = contains(&chars, "1. Yes") || contains(&chars, "1) Yes") || contains(
        &chars,
        "\u{2022} Yes",
    );
    let buttons: bool = has_yes && is_match(YES_NO, tail);
    let enter: bool = contains(&chars, "Enter to approve") || contains(&chars, "Enter to confirm");
    let asked: bool = is_match(YN_AT_END, tail);

    let mut hits: Vec<&'static str> = Vec::new();
    assert(names(hits@) =~= seq![]);
    let score: u32 = note(buttons, "yes_no_buttons", 5, 0, &mut hits);
    let score: u32 = note(enter, "enter_to_approve", 3, score, &mut hits);
    let score: u32 = note(asked, "yn_prompt", 3, score, &mut hits);
    let rule: bool = contains(&chars, "Permission rule");
    let score: u32 = note(rule, "permission_rule", 3, score, &mut hits);
    let cancel: bool = contains(&chars, "Esc to cancel");
    let score: u32 = note(cancel, "esc_to_cancel", 2, score, &mut hits);
    let amend: bool = contains(&chars, "Tab to amend");
    let score: u32 = note(amend, "tab_to_amend", 2, score, &mut hits);
    assert(names(hits@) =~= hits_of(tail@));

    // Both conditions. A dialog arrives over several reads, and its context
    // lines land in an earlier one than its buttons: a keystroke sent at a
    // dialog that has not finished rendering lands somewhere nobody chose.
    Detection { detected: score >= THRESHOLD && (buttons || enter || asked), score, hits }
}

/// Score a buffer against the shape of a permission dialog.
///
/// Strips first, then scores only the last 50 lines.
#[must_use]
pub fn is_prompt(text: &str) -> (detection: Detection)
    ensures
        detection@ == detection_of(text@),
{
    let clean: String = strip_ansi(text);
    let tail: String = tail_lines(clean.as_str(), TAIL_LINES);
    judge(tail.as_str())
}

/// Does this dialog want `yes\r` rather than `\r`?
///
/// Decides the answer's bytes and nothing else: it never gates whether an
/// answer is sent. It reads the same last 50 lines [`is_prompt`] scores, so a
/// `type yes to confirm` far up the scrollback does not turn an ordinary button
/// dialog's `\r` into a literal `yes`.
#[must_use]
pub fn needs_yes(text: &str) -> (word: bool)
    ensures
        word == wants_word(text@),
{
    let clean: String = strip_ansi(text);
    let tail: String = tail_lines(clean.as_str(), TAIL_LINES);
    is_match(NEEDS_YES, tail.as_str())
}

}
