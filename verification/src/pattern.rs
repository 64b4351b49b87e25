//! The seven patterns the detector reads the screen with, and what each of
//! them matches.
//!
//! Matching itself is the `regex` crate's work. This module says, over plain
//! character sequences, what a search or a replacement with each pattern comes
//! to, so that the detector's contracts can be read without a regex engine at
//! hand.

use vstd::prelude::*;

use crate::text;
use crate::text::chars_of;

verus! {

/// Cursor movement. Replaced with a *space*, not with nothing: a cursor jump is
/// a visual gap, and collapsing it would join two unrelated words into a match
/// that was never on screen.
pub const ANSI_CURSOR: &'static str = r"\x1b\[[\d;]*[ABCDEFGHJKfsu]";

/// Every other escape: an operating system command that a bell ends, a
/// two-character escape, a control sequence. The first of these comes first: the
/// class of the second runs from `\` to `_` and takes in `ESC ]`. It stops at an
/// `ESC`: of a command that no bell ends before the next escape, such as one
/// that `ESC \` ends, only the introducer goes, and its body stays.
pub const ANSI_ESCAPE: &'static str = r"\x1b(?:\][^\x07\x1b]*\x07|[@-Z\\-_]|\[[0-?]*[ -/]*[@-~])";

/// Control characters, less tab, newline and carriage return. Line structure is
/// load-bearing: the score reads a tail measured in lines.
pub const CONTROL: &'static str = r"[\x00-\x08\x0B-\x0C\x0E-\x1F]";

/// A run of spaces.
pub const MULTI_SPACE: &'static str = r" +";

/// The "No" half of the button pair. It is numbered 2 or 3 depending on whether
/// the dialog offers a third option.
pub const YES_NO: &'static str = r"[23][\.\)]\s*No|•\s*No";

/// `(y/n)` at the end of the text. **Not multi-line, deliberately**: `$` is the
/// end of the text, so a `(y/n)` further up scores nothing.
pub const YN_AT_END: &'static str = r"\(y/n\)\s*$";

/// A dialog that wants the word rather than a keypress. **The dot stops at a
/// newline, deliberately**: `1. Yes` on one line and `Enter to approve` on the
/// next is a button dialog, not a request for a word.
pub const NEEDS_YES: &'static str = r"(?i)Type.*yes|Enter.*yes|\(y/n\)";

/// The escape character.
pub const ESC: char = '\u{1b}';

/// The bell.
pub const BEL: char = '\u{7}';

// ── what a match is ──────────────────────────────────────────────────────────

/// The first position at or after `from` whose character is not `ok`; the
/// length of `t` when there is none.
pub open spec fn run_end(t: Seq<char>, from: int, ok: spec_fn(char) -> bool) -> int
    decreases t.len() - from,
{
    if 0 <= from < t.len() && ok(t[from]) {
        run_end(t, from + 1, ok)
    } else {
        from
    }
}

/// A character of the Unicode category `Decimal_Number`, version 16, which `\d`
/// takes: the ten digits of each script that has its own.
pub open spec fn is_decimal_digit(c: char) -> bool {
    ||| '0' <= c <= '9'
    ||| '\u{660}' <= c <= '\u{669}'
    ||| '\u{6f0}' <= c <= '\u{6f9}'
    ||| '\u{7c0}' <= c <= '\u{7c9}'
    ||| '\u{966}' <= c <= '\u{96f}'
    ||| '\u{9e6}' <= c <= '\u{9ef}'
    ||| '\u{a66}' <= c <= '\u{a6f}'
    ||| '\u{ae6}' <= c <= '\u{aef}'
    ||| '\u{b66}' <= c <= '\u{b6f}'
    ||| '\u{be6}' <= c <= '\u{bef}'
    ||| '\u{c66}' <= c <= '\u{c6f}'
    ||| '\u{ce6}' <= c <= '\u{cef}'
    ||| '\u{d66}' <= c <= '\u{d6f}'
    ||| '\u{de6}' <= c <= '\u{def}'
    ||| '\u{e50}' <= c <= '\u{e59}'
    ||| '\u{ed0}' <= c <= '\u{ed9}'
    ||| '\u{f20}' <= c <= '\u{f29}'
    ||| '\u{1040}' <= c <= '\u{1049}'
    ||| '\u{1090}' <= c <= '\u{1099}'
    ||| '\u{17e0}' <= c <= '\u{17e9}'
    ||| '\u{1810}' <= c <= '\u{1819}'
    ||| '\u{1946}' <= c <= '\u{194f}'
    ||| '\u{19d0}' <= c <= '\u{19d9}'
    ||| '\u{1a80}' <= c <= '\u{1a89}'
    ||| '\u{1a90}' <= c <= '\u{1a99}'
    ||| '\u{1b50}' <= c <= '\u{1b59}'
    ||| '\u{1bb0}' <= c <= '\u{1bb9}'
    ||| '\u{1c40}' <= c <= '\u{1c49}'
    ||| '\u{1c50}' <= c <= '\u{1c59}'
    ||| '\u{a620}' <= c <= '\u{a629}'
    ||| '\u{a8d0}' <= c <= '\u{a8d9}'
    ||| '\u{a900}' <= c <= '\u{a909}'
    ||| '\u{a9d0}' <= c <= '\u{a9d9}'
    ||| '\u{a9f0}' <= c <= '\u{a9f9}'
    ||| '\u{aa50}' <= c <= '\u{aa59}'
    ||| '\u{abf0}' <= c <= '\u{abf9}'
    ||| '\u{ff10}' <= c <= '\u{ff19}'
    ||| '\u{104a0}' <= c <= '\u{104a9}'
    ||| '\u{10d30}' <= c <= '\u{10d39}'
    ||| '\u{10d40}' <= c <= '\u{10d49}'
    ||| '\u{11066}' <= c <= '\u{1106f}'
    ||| '\u{110f0}' <= c <= '\u{110f9}'
    ||| '\u{11136}' <= c <= '\u{1113f}'
    ||| '\u{111d0}' <= c <= '\u{111d9}'
    ||| '\u{112f0}' <= c <= '\u{112f9}'
    ||| '\u{11450}' <= c <= '\u{11459}'
    ||| '\u{114d0}' <= c <= '\u{114d9}'
    ||| '\u{11650}' <= c <= '\u{11659}'
    ||| '\u{116c0}' <= c <= '\u{116c9}'
    ||| '\u{116d0}' <= c <= '\u{116e3}'
    ||| '\u{11730}' <= c <= '\u{11739}'
    ||| '\u{118e0}' <= c <= '\u{118e9}'
    ||| '\u{11950}' <= c <= '\u{11959}'
    ||| '\u{11bf0}' <= c <= '\u{11bf9}'
    ||| '\u{11c50}' <= c <= '\u{11c59}'
    ||| '\u{11d50}' <= c <= '\u{11d59}'
    ||| '\u{11da0}' <= c <= '\u{11da9}'
    ||| '\u{11f50}' <= c <= '\u{11f59}'
    ||| '\u{16130}' <= c <= '\u{16139}'
    ||| '\u{16a60}' <= c <= '\u{16a69}'
    ||| '\u{16ac0}' <= c <= '\u{16ac9}'
    ||| '\u{16b50}' <= c <= '\u{16b59}'
    ||| '\u{16d70}' <= c <= '\u{16d79}'
    ||| '\u{1ccf0}' <= c <= '\u{1ccf9}'
    ||| '\u{1d7ce}' <= c <= '\u{1d7ff}'
    ||| '\u{1e140}' <= c <= '\u{1e149}'
    ||| '\u{1e2f0}' <= c <= '\u{1e2f9}'
    ||| '\u{1e4f0}' <= c <= '\u{1e4f9}'
    ||| '\u{1e5f1}' <= c <= '\u{1e5fa}'
    ||| '\u{1e950}' <= c <= '\u{1e959}'
    ||| '\u{1fbf0}' <= c <= '\u{1fbf9}'
}

/// The final byte of a cursor movement.
pub open spec fn is_cursor_final(c: char) -> bool {
    'A' <= c <= 'H' || c == 'J' || c == 'K' || c == 'f' || c == 's' || c == 'u'
}

/// How many characters of `t`, from its first on, are a cursor movement; 0 for
/// none.
pub open spec fn cursor_len(t: Seq<char>) -> int {
    if t.len() >= 2 && t[0] == ESC && t[1] == '[' {
        let end = run_end(t, 2, |c: char| is_decimal_digit(c) || c == ';');
        if end < t.len() && is_cursor_final(t[end]) {
            end + 1
        } else {
            0
        }
    } else {
        0
    }
}

/// How many characters of `t`, from its first on, are any other escape; 0 for
/// none.
pub open spec fn escape_len(t: Seq<char>) -> int {
    if t.len() >= 2 && t[0] == ESC {
        let end = run_end(t, 2, |c: char| c != BEL && c != ESC);
        if t[1] == ']' && end < t.len() && t[end] == BEL {
            end + 1
        } else if '@' <= t[1] <= 'Z' || '\\' <= t[1] <= '_' {
            2
        } else if t[1] == '[' {
            let params = run_end(t, 2, |c: char| '0' <= c <= '?');
            let end = run_end(t, params, |c: char| ' ' <= c <= '/');
            if end < t.len() && '@' <= t[end] <= '~' {
                end + 1
            } else {
                0
            }
        } else {
            0
        }
    } else {
        0
    }
}

/// A control character other than tab, newline and carriage return.
pub open spec fn is_dropped_control(c: char) -> bool {
    c < ' ' && c != '\t' && c != '\n' && c != '\r'
}

/// 1 where `t` begins with a control character to drop, else 0.
pub open spec fn control_len(t: Seq<char>) -> int {
    if t.len() > 0 && is_dropped_control(t[0]) {
        1
    } else {
        0
    }
}

/// The number of spaces `t` begins with.
pub open spec fn spaces_len(t: Seq<char>) -> int {
    run_end(t, 0, |c: char| c == ' ')
}

/// 1 where `t` begins with the character `c`, else 0.
pub open spec fn char_len(t: Seq<char>, c: char) -> int {
    if t.len() > 0 && t[0] == c {
        1
    } else {
        0
    }
}

/// [`cursor_len`] as a value.
pub open spec fn cursor_matches() -> spec_fn(Seq<char>) -> int {
    |t: Seq<char>| cursor_len(t)
}

/// [`escape_len`] as a value.
pub open spec fn escape_matches() -> spec_fn(Seq<char>) -> int {
    |t: Seq<char>| escape_len(t)
}

/// [`control_len`] as a value.
pub open spec fn control_matches() -> spec_fn(Seq<char>) -> int {
    |t: Seq<char>| control_len(t)
}

/// [`spaces_len`] as a value.
pub open spec fn spaces_matches() -> spec_fn(Seq<char>) -> int {
    |t: Seq<char>| spaces_len(t)
}

/// [`char_len`] for the character `c`, as a value.
pub open spec fn char_matches(c: char) -> spec_fn(Seq<char>) -> int {
    |t: Seq<char>| char_len(t, c)
}

/// `t` with every match, found from the left and not overlapping, replaced by
/// `with`. `len` gives the length of the match a text begins with, 0 for none.
pub open spec fn substituted(
    t: Seq<char>,
    with: Seq<char>,
    len: spec_fn(Seq<char>) -> int,
) -> Seq<char>
    decreases t.len(),
{
    if t.len() == 0 {
        t
    } else if 0 < len(t) <= t.len() {
        with + substituted(t.skip(len(t)), with, len)
    } else {
        seq![t[0]] + substituted(t.skip(1), with, len)
    }
}

/// The 25 characters with the Unicode property `White_Space`, which `\s` takes.
pub open spec fn is_white_space(c: char) -> bool {
    ||| '\t' <= c <= '\r'
    ||| c == ' '
    ||| c == '\u{85}'
    ||| c == '\u{a0}'
    ||| c == '\u{1680}'
    ||| '\u{2000}' <= c <= '\u{200a}'
    ||| c == '\u{2028}'
    ||| c == '\u{2029}'
    ||| c == '\u{202f}'
    ||| c == '\u{205f}'
    ||| c == '\u{3000}'
}

/// `No`, letter by letter.
pub open spec fn no_word() -> Seq<char> {
    seq!['N', 'o']
}

/// From `from` on, any amount of white space and then the word `No`.
pub open spec fn no_follows(t: Seq<char>, from: int) -> bool {
    exists|j: int|
        {
            &&& from <= j
            &&& #[trigger] text::occurs_at(t, no_word(), j)
            &&& forall|k: int| from <= k < j ==> is_white_space(#[trigger] t[k])
        }
}

/// A "No" button begins at `i`: `2.`, `2)`, `3.` or `3)`, or a bullet, then the
/// word.
pub open spec fn no_button_at(t: Seq<char>, i: int) -> bool {
    &&& 0 <= i < t.len()
    &&& {
        ||| {
            &&& t[i] == '2' || t[i] == '3'
            &&& i + 1 < t.len()
            &&& t[i + 1] == '.' || t[i + 1] == ')'
            &&& no_follows(t, i + 2)
        }
        ||| t[i] == '•' && no_follows(t, i + 1)
    }
}

/// The "No" half of the button pair is on screen.
pub open spec fn shows_no_button(t: Seq<char>) -> bool {
    exists|i: int| no_button_at(t, i)
}

/// `(y/n)`, letter by letter.
pub open spec fn yn() -> Seq<char> {
    seq!['(', 'y', '/', 'n', ')']
}

/// The text ends in `(y/n)`, white space after it aside.
pub open spec fn ends_in_yn(t: Seq<char>) -> bool {
    exists|i: int|
        {
            &&& #[trigger] text::occurs_at(t, yn(), i)
            &&& forall|k: int| i + 5 <= k < t.len() ==> is_white_space(#[trigger] t[k])
        }
}

/// A character with its case taken away, as far as the letters of the asked-for
/// words go: besides its two cases, `s` has the long `ſ`.
pub open spec fn folded(c: char) -> char {
    if 'A' <= c <= 'Z' {
        ((c as u32) + 32) as char
    } else if c == 'ſ' {
        's'
    } else {
        c
    }
}

/// The lower-case word `w` stands in `t` at `i`, in any mix of cases.
pub open spec fn spelled_at(t: Seq<char>, w: Seq<char>, i: int) -> bool {
    &&& 0 <= i
    &&& i + w.len() <= t.len()
    &&& forall|k: int| 0 <= k < w.len() ==> folded(t[i + k]) == #[trigger] w[k]
}

/// `yes`, letter by letter.
pub open spec fn yes_word() -> Seq<char> {
    seq!['y', 'e', 's']
}

/// `first` and, later on the same line, the word `yes`.
pub open spec fn asks_after(t: Seq<char>, first: Seq<char>) -> bool {
    exists|i: int, j: int|
        {
            &&& #[trigger] spelled_at(t, first, i)
            &&& #[trigger] spelled_at(t, yes_word(), j)
            &&& i + first.len() <= j
            &&& forall|k: int| i + first.len() <= k < j ==> #[trigger] t[k] != '\n'
        }
}

/// The dialog asks for the word: `type … yes` or `enter … yes` on one line, or a
/// `(y/n)`, in any mix of cases.
pub open spec fn asks_for_word(t: Seq<char>) -> bool {
    ||| asks_after(t, seq!['t', 'y', 'p', 'e'])
    ||| asks_after(t, seq!['e', 'n', 't', 'e', 'r'])
    ||| exists|i: int| spelled_at(t, yn(), i)
}

// ── the outside calls ────────────────────────────────────────────────────────

/// `regex::Regex::replace_all` for the pattern `pattern`.
///
/// Trusted: the text comes back with every match, leftmost first and not
/// overlapping, replaced by `with`, where what a match of each of the four
/// patterns is has been written out above. `with` holds no `$`, which the crate
/// would expand.
#[verifier::external_body]
pub(crate) fn replace_all(pattern: &str, text: &str, with: &str) -> (out: String)
    requires
        pattern@ == ANSI_CURSOR@ || pattern@ == ANSI_ESCAPE@ || pattern@ == CONTROL@ || pattern@
            == MULTI_SPACE@,
        !with@.contains('$'),
    ensures
        pattern@ == ANSI_CURSOR@ ==> out@ == substituted(text@, with@, cursor_matches()),
        pattern@ == ANSI_ESCAPE@ ==> out@ == substituted(text@, with@, escape_matches()),
        pattern@ == CONTROL@ ==> out@ == substituted(text@, with@, control_matches()),
        pattern@ == MULTI_SPACE@ ==> out@ == substituted(text@, with@, spaces_matches()),
{
    regex::Regex::new(pattern).unwrap().replace_all(text, with).into_owned()
}

/// `regex::Regex::is_match` for the pattern `pattern`.
///
/// Trusted: the answer is whether the pattern matches anywhere in the text,
/// where what that means for each of the three patterns has been written out
/// above.
#[verifier::external_body]
pub(crate) fn is_match(pattern: &str, text: &str) -> (found: bool)
    requires
        pattern@ == YES_NO@ || pattern@ == YN_AT_END@ || pattern@ == NEEDS_YES@,
    ensures
        pattern@ == YES_NO@ ==> found == shows_no_button(text@),
        pattern@ == YN_AT_END@ ==> found == ends_in_yn(text@),
        pattern@ == NEEDS_YES@ ==> found == asks_for_word(text@),
{
    regex::Regex::new(pattern).unwrap().is_match(text)
}

proof fn lemma_substituted_step(t: Seq<char>, with: Seq<char>, c: char)
    requires
        t.len() > 0,
    ensures
        substituted(t, with, char_matches(c)) == substituted(t.drop_last(), with, char_matches(c))
            + (if t.last() == c {
            with
        } else {
            seq![t.last()]
        }),
    decreases t.len(),
{
    let len = char_matches(c);
    let end = if t.last() == c {
        with
    } else {
        seq![t.last()]
    };
    let head = if t[0] == c {
        with
    } else {
        seq![t[0]]
    };
    assert(len(t) == char_len(t, c));
    if t.len() == 1 {
        assert(t.skip(1) =~= Seq::<char>::empty());
        assert(t.drop_last() =~= Seq::<char>::empty());
        assert(substituted(t.skip(1), with, len) =~= Seq::<char>::empty());
        assert(substituted(t, with, len) =~= end);
        assert(substituted(t.drop_last(), with, len) + end =~= end);
    } else {
        let less = t.drop_last();
        lemma_substituted_step(t.skip(1), with, c);
        assert(len(less) == char_len(less, c));
        assert(t.skip(1).drop_last() =~= less.skip(1));
        let middle = substituted(less.skip(1), with, len);
        assert(substituted(less, with, len) =~= head + middle);
        assert(head + (middle + end) =~= (head + middle) + end);
    }
}

/// The text with every `from` replaced by `to`.
pub fn replace_char(text: &str, from: char, to: &str) -> (out: String)
    ensures
        out@ == substituted(text@, to@, char_matches(from)),
{
    let chars: Vec<char> = chars_of(text);
    let mut out: String = String::new();
    // What stands from `start` on has been looked at and not copied yet.
    let mut start: usize = 0;
    let mut i: usize = 0;
    assert(text@.take(0) =~= Seq::<char>::empty());
    assert(out@ + text@.subrange(0, 0) =~= substituted(text@.take(0), to@, char_matches(from)));
    while i < chars.len()
        invariant
            start <= i <= chars.len(),
            chars@ == text@,
            out@ + text@.subrange(start as int, i as int) == substituted(
                text@.take(i as int),
                to@,
                char_matches(from),
            ),
        decreases chars.len() - i,
    {
        let ghost waiting = text@.subrange(start as int, i as int);
        let ghost before = out@;
        proof {
            lemma_substituted_step(text@.take(i + 1), to@, from);
            assert(text@.take(i + 1).drop_last() =~= text@.take(i as int));
        }
        if chars[i] == from {
            out.append(text.substring_char(start, i));
            out.append(to);
            start = i + 1;
            assert(out@ + text@.subrange(i + 1, i + 1) =~= (before + waiting) + to@);
        } else {
            assert(before + text@.subrange(start as int, i + 1) =~= (before + waiting) + seq![
                text@[i as int],
            ]);
        }
        i = i + 1;
    }
    assert(text@.take(i as int) =~= text@);
    out.append(text.substring_char(start, i));
    out
}

}
