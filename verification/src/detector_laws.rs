//! What the detector promises of every text.

use vstd::prelude::*;

use crate::detector;
use crate::pattern;
use crate::text;

verus! {

// ── the verdict ──────────────────────────────────────────────────────────────

/// A dialog is detected exactly when something that can be answered is on
/// screen. Context lines alone never are one, however many there are; each of
/// the answerable indicators is one on its own.
pub proof fn law_detected_means_answerable(tail: Seq<char>)
    ensures
        detector::judged(tail).detected == detector::actionable(tail),
{
}

/// The score says nothing without naming why: it is zero exactly when no
/// indicator is listed.
pub proof fn law_a_score_has_its_reasons(tail: Seq<char>)
    ensures
        detector::score_of(tail) >= 0,
        detector::score_of(tail) == 0 <==> detector::hits_of(tail).len() == 0,
{
}

// ── stripping ────────────────────────────────────────────────────────────────

/// No two spaces stand side by side.
pub open spec fn single_spaced(t: Seq<char>) -> bool {
    forall|i: int| 0 <= i < t.len() - 1 && #[trigger] t[i] == ' ' ==> t[i + 1] != ' '
}

/// A character that stripping leaves: no control character but tab and newline.
pub open spec fn is_kept(c: char) -> bool {
    c >= ' ' || c == '\t' || c == '\n'
}

/// Only such characters.
pub open spec fn all_kept(t: Seq<char>) -> bool {
    forall|i: int| 0 <= i < t.len() ==> is_kept(#[trigger] t[i])
}

proof fn lemma_no_controls_left(t: Seq<char>)
    ensures
        forall|i: int|
            0 <= i < pattern::substituted(t, seq![], pattern::control_matches()).len()
                ==> !pattern::is_dropped_control(
                #[trigger] pattern::substituted(t, seq![], pattern::control_matches())[i],
            ),
    decreases t.len(),
{
    if t.len() > 0 {
        lemma_no_controls_left(t.skip(1));
        let out = pattern::substituted(t, seq![], pattern::control_matches());
        let rest = pattern::substituted(t.skip(1), seq![], pattern::control_matches());
        if pattern::is_dropped_control(t[0]) {
            assert(pattern::control_matches()(t) == 1);
            assert(out =~= rest);
        } else {
            assert(pattern::control_matches()(t) == 0);
            assert(out =~= seq![t[0]] + rest);
            assert forall|i: int| 0 <= i < out.len() implies !pattern::is_dropped_control(
                #[trigger] out[i],
            ) by {
                if i > 0 {
                    assert(out[i] == rest[i - 1]);
                }
            }
        }
    }
}

proof fn lemma_no_returns_left(t: Seq<char>)
    requires
        forall|i: int| 0 <= i < t.len() ==> !pattern::is_dropped_control(#[trigger] t[i]),
    ensures
        all_kept(pattern::substituted(t, detector::space(), pattern::char_matches('\r'))),
    decreases t.len(),
{
    if t.len() > 0 {
        assert forall|i: int| 0 <= i < t.skip(1).len() implies !pattern::is_dropped_control(
            #[trigger] t.skip(1)[i],
        ) by {
            assert(t.skip(1)[i] == t[i + 1]);
        }
        lemma_no_returns_left(t.skip(1));
        assert(!pattern::is_dropped_control(t[0]));
    }
}

proof fn lemma_run_end_bounds(t: Seq<char>, from: int, ok: spec_fn(char) -> bool)
    requires
        0 <= from <= t.len(),
    ensures
        from <= pattern::run_end(t, from, ok) <= t.len(),
        pattern::run_end(t, from, ok) < t.len() ==> !ok(t[pattern::run_end(t, from, ok)]),
        from < t.len() && ok(t[from]) ==> pattern::run_end(t, from, ok) > from,
    decreases t.len() - from,
{
    if from < t.len() && ok(t[from]) {
        lemma_run_end_bounds(t, from + 1, ok);
    }
}

proof fn lemma_spaces_collapsed(t: Seq<char>)
    requires
        all_kept(t),
    ensures
        ({
            let out = pattern::substituted(t, detector::space(), pattern::spaces_matches());
            &&& single_spaced(out)
            &&& all_kept(out)
            &&& t.len() > 0 ==> out.len() > 0 && out[0] == t[0]
        }),
    decreases t.len(),
{
    if t.len() > 0 {
        lemma_run_end_bounds(t, 0, |c: char| c == ' ');
        let n = pattern::spaces_len(t);
        let k = if n > 0 {
            n
        } else {
            1
        };
        let rest = t.skip(k);
        assert forall|i: int| 0 <= i < rest.len() implies is_kept(#[trigger] rest[i]) by {
            assert(rest[i] == t[i + k]);
        }
        lemma_spaces_collapsed(rest);
        let out = pattern::substituted(t, detector::space(), pattern::spaces_matches());
        let tail = pattern::substituted(rest, detector::space(), pattern::spaces_matches());
        assert(is_kept(t[0]));
        assert(out.len() == tail.len() + 1 && out[0] == t[0]);
        assert forall|i: int| 0 <= i < out.len() - 1 && #[trigger] out[i] == ' ' implies out[i + 1]
            != ' ' by {
            if i > 0 {
                assert(out[i] == tail[i - 1]);
                assert(out[i + 1] == tail[i]);
            } else {
                assert(out[1] == tail[0]);
                assert(rest[0] == t[k]);
            }
        }
        assert forall|i: int| 0 <= i < out.len() implies is_kept(#[trigger] out[i]) by {
            if i > 0 {
                assert(out[i] == tail[i - 1]);
            }
        }
    }
}

/// What stripping leaves is clean: no control character but tab and newline, and
/// no two spaces side by side.
pub proof fn law_stripped_text_is_clean(t: Seq<char>)
    ensures
        all_kept(detector::stripped(t)),
        single_spaced(detector::stripped(t)),
{
    let spaced = detector::cursors_spaced(t);
    let unescaped = pattern::substituted(spaced, seq![], pattern::escape_matches());
    let printable = pattern::substituted(unescaped, seq![], pattern::control_matches());
    lemma_no_controls_left(unescaped);
    lemma_no_returns_left(printable);
    lemma_spaces_collapsed(
        pattern::substituted(printable, detector::space(), pattern::char_matches('\r')),
    );
}

proof fn lemma_nothing_to_substitute(
    t: Seq<char>,
    with: Seq<char>,
    len: spec_fn(Seq<char>) -> int,
)
    requires
        forall|i: int| 0 <= i < t.len() ==> len(#[trigger] t.skip(i)) <= 0,
    ensures
        pattern::substituted(t, with, len) == t,
    decreases t.len(),
{
    if t.len() > 0 {
        assert(t.skip(0) =~= t);
        assert forall|i: int| 0 <= i < t.skip(1).len() implies len(#[trigger] t.skip(1).skip(i))
            <= 0 by {
            assert(t.skip(1).skip(i) =~= t.skip(i + 1));
        }
        lemma_nothing_to_substitute(t.skip(1), with, len);
        assert(seq![t[0]] + t.skip(1) =~= t);
    }
}

proof fn lemma_single_spaces_stay(t: Seq<char>)
    requires
        single_spaced(t),
    ensures
        pattern::substituted(t, detector::space(), pattern::spaces_matches()) == t,
    decreases t.len(),
{
    if t.len() > 0 {
        reveal_with_fuel(pattern::run_end, 3);
        let rest = t.skip(1);
        assert forall|i: int| 0 <= i < rest.len() - 1 && #[trigger] rest[i] == ' ' implies rest[i
            + 1] != ' ' by {
            assert(t[i + 1] == ' ');
            assert(rest[i + 1] == t[i + 2]);
        }
        lemma_single_spaces_stay(rest);
        if t[0] == ' ' {
            assert(pattern::spaces_len(t) == 1);
        }
        assert(seq![t[0]] + rest =~= t);
    }
}

/// Stripping what is already stripped changes nothing.
pub proof fn law_stripping_twice_is_stripping_once(t: Seq<char>)
    ensures
        detector::stripped(detector::stripped(t)) == detector::stripped(t),
{
    let s = detector::stripped(t);
    law_stripped_text_is_clean(t);
    assert forall|i: int| 0 <= i < s.len() implies {
        &&& pattern::cursor_matches()(#[trigger] s.skip(i)) <= 0
        &&& pattern::escape_matches()(s.skip(i)) <= 0
        &&& pattern::control_matches()(s.skip(i)) <= 0
        &&& pattern::char_matches('\r')(s.skip(i)) <= 0
    } by {
        assert(s.skip(i)[0] == s[i]);
        assert(is_kept(s[i]));
    }
    lemma_nothing_to_substitute(s, detector::space(), pattern::cursor_matches());
    lemma_nothing_to_substitute(s, seq![], pattern::escape_matches());
    lemma_nothing_to_substitute(s, seq![], pattern::control_matches());
    lemma_nothing_to_substitute(s, detector::space(), pattern::char_matches('\r'));
    lemma_single_spaces_stay(s);
}

/// The text ends a line.
pub open spec fn ends_a_line(t: Seq<char>) -> bool {
    t.len() > 0 && t.last() == '\n'
}

// ── the tail ─────────────────────────────────────────────────────────────────

/// How many lines a text has, the unfinished last one included.
pub open spec fn line_count(t: Seq<char>) -> nat {
    text::split_on(t, '\n').len()
}

proof fn lemma_line_count_step(t: Seq<char>)
    requires
        t.len() > 0,
    ensures
        line_count(t) == line_count(t.drop_last()) + (if t.last() == '\n' {
            1int
        } else {
            0
        }),
        line_count(t.drop_last()) >= 1,
{
    text::lemma_split_nonempty(t.drop_last(), '\n');
}

proof fn lemma_tail_of_nothing(n: nat)
    requires
        n >= 1,
    ensures
        text::last_lines(Seq::<char>::empty(), n) == Seq::<char>::empty(),
{
    let lines = text::split_on(Seq::<char>::empty(), '\n');
    assert(lines.skip(0) =~= lines);
}

/// The last `n` lines of a text hold its end whole, when that end has no more
/// lines than that. The result is what stands before it.
proof fn lemma_tail_keeps(before: Seq<char>, end: Seq<char>, n: nat) -> (kept: Seq<char>)
    requires
        line_count(end) <= n,
    ensures
        text::last_lines(before + end, n) == kept + end,
        before.len() == 0 ==> kept.len() == 0,
    decreases end.len(),
{
    text::lemma_split_nonempty(end, '\n');
    if end.len() == 0 {
        assert(before + end =~= before);
        let kept = text::last_lines(before, n);
        if before.len() == 0 {
            assert(before =~= Seq::<char>::empty());
            lemma_tail_of_nothing(n);
        }
        assert(kept + end =~= kept);
        kept
    } else {
        let whole = before + end;
        assert(whole.drop_last() =~= before + end.drop_last());
        assert(whole.last() == end.last());
        lemma_line_count_step(end);
        text::lemma_last_lines_step(whole, n);
        let m = if end.last() == '\n' {
            (n - 1) as nat
        } else {
            n
        };
        let kept = lemma_tail_keeps(before, end.drop_last(), m);
        assert((kept + end.drop_last()).push(end.last()) =~= kept + end);
        kept
    }
}

/// The last `n` lines of a text are those of its end, when that end begins a
/// line and has as many.
proof fn lemma_tail_forgets(before: Seq<char>, end: Seq<char>, n: nat)
    requires
        n >= 1,
        ends_a_line(before),
        line_count(end) >= n,
    ensures
        text::last_lines(before + end, n) == text::last_lines(end, n),
    decreases end.len(),
{
    let whole = before + end;
    text::lemma_last_lines_step(whole, n);
    if end.len() == 0 {
        assert(whole =~= before);
        assert(end =~= Seq::<char>::empty());
        lemma_tail_of_nothing(n);
    } else {
        assert(whole.drop_last() =~= before + end.drop_last());
        assert(whole.last() == end.last());
        lemma_line_count_step(end);
        text::lemma_last_lines_step(end, n);
        if end.last() != '\n' {
            lemma_tail_forgets(before, end.drop_last(), n);
        } else if n > 1 {
            lemma_tail_forgets(before, end.drop_last(), (n - 1) as nat);
        }
    }
}

proof fn lemma_occurs_after(before: Seq<char>, t: Seq<char>, w: Seq<char>)
    ensures
        text::occurs_in(t, w) ==> text::occurs_in(before + t, w),
        forall|i: int|
            #[trigger] text::occurs_at(t, w, i) ==> text::occurs_at(
                before + t,
                w,
                i + before.len(),
            ),
{
    assert forall|i: int| #[trigger] text::occurs_at(t, w, i) implies text::occurs_at(
        before + t,
        w,
        i + before.len(),
    ) by {
        let j = i + before.len();
        assert((before + t).subrange(j, j + w.len()) =~= t.subrange(i, i + w.len()));
    }
}

proof fn lemma_no_follows_after(before: Seq<char>, t: Seq<char>, from: int)
    requires
        0 <= from,
        pattern::no_follows(t, from),
    ensures
        pattern::no_follows(before + t, from + before.len()),
{
    lemma_occurs_after(before, t, pattern::no_word());
    let j = choose|j: int|
        {
            &&& from <= j
            &&& #[trigger] text::occurs_at(t, pattern::no_word(), j)
            &&& forall|k: int| from <= k < j ==> pattern::is_white_space(#[trigger] t[k])
        };
    assert(text::occurs_at(before + t, pattern::no_word(), j + before.len()));
    assert forall|k: int|
        from + before.len() <= k < j + before.len() implies pattern::is_white_space(
        #[trigger] (before + t)[k],
    ) by {
        assert((before + t)[k] == t[k - before.len()]);
    }
}

/// Text above it takes no indicator of a dialog away.
proof fn lemma_actionable_after(before: Seq<char>, t: Seq<char>)
    requires
        detector::actionable(t),
    ensures
        detector::actionable(before + t),
{
    let whole = before + t;
    lemma_occurs_after(before, t, "1. Yes"@);
    lemma_occurs_after(before, t, "1) Yes"@);
    lemma_occurs_after(before, t, "\u{2022} Yes"@);
    lemma_occurs_after(before, t, "Enter to approve"@);
    lemma_occurs_after(before, t, "Enter to confirm"@);
    if pattern::shows_no_button(t) {
        let i = choose|i: int| pattern::no_button_at(t, i);
        let j = i + before.len();
        assert(whole[j] == t[i]);
        if t[i] == '•' && pattern::no_follows(t, i + 1) {
            lemma_no_follows_after(before, t, i + 1);
        } else {
            assert(whole[j + 1] == t[i + 1]);
            lemma_no_follows_after(before, t, i + 2);
        }
        assert(pattern::no_button_at(whole, j));
    }
    if pattern::ends_in_yn(t) {
        lemma_occurs_after(before, t, pattern::yn());
        let i = choose|i: int|
            {
                &&& #[trigger] text::occurs_at(t, pattern::yn(), i)
                &&& forall|k: int|
                    i + 5 <= k < t.len() ==> pattern::is_white_space(#[trigger] t[k])
            };
        assert(text::occurs_at(whole, pattern::yn(), i + before.len()));
        assert forall|k: int|
            i + before.len() + 5 <= k < whole.len() implies pattern::is_white_space(
            #[trigger] whole[k],
        ) by {
            assert(whole[k] == t[k - before.len()]);
        }
        assert(pattern::ends_in_yn(whole));
    }
}

// ── volume ───────────────────────────────────────────────────────────────────

/// A match of `len` that begins in `t` reaches into `more`.
pub open spec fn reaches(
    len: spec_fn(Seq<char>) -> int,
    t: Seq<char>,
    more: Seq<char>,
) -> bool {
    exists|i: int| #[trigger] reaches_from(len, t, more, i)
}

/// Such a match begins at `i`.
pub open spec fn reaches_from(
    len: spec_fn(Seq<char>) -> int,
    t: Seq<char>,
    more: Seq<char>,
    i: int,
) -> bool {
    0 <= i < t.len() && len(t.skip(i) + more) > t.len() - i
}

/// No escape of `t` takes in the beginning of `more`: neither a cursor movement
/// nor, once those are spaces, any other.
pub open spec fn no_escape_reaches(t: Seq<char>, more: Seq<char>) -> bool {
    &&& !reaches(pattern::cursor_matches(), t, more)
    &&& !reaches(
        pattern::escape_matches(),
        detector::cursors_spaced(t),
        detector::cursors_spaced(more),
    )
}

/// From every position of `t` on, `len` finds in `t + more` what it finds in `t`.
spec fn settles(len: spec_fn(Seq<char>) -> int, t: Seq<char>, more: Seq<char>) -> bool {
    forall|i: int| 0 <= i < t.len() ==> #[trigger] settles_at(len, t, more, i)
}

spec fn settles_at(
    len: spec_fn(Seq<char>) -> int,
    t: Seq<char>,
    more: Seq<char>,
    i: int,
) -> bool {
    len(t.skip(i) + more) == len(t.skip(i)) && len(t.skip(i)) <= t.len() - i
}

/// A run that ends within `t` ends there whatever follows; one that does not
/// goes on into what follows, if anywhere.
proof fn lemma_run_in_parts(
    t: Seq<char>,
    more: Seq<char>,
    from: int,
    ok: spec_fn(char) -> bool,
)
    requires
        0 <= from <= t.len(),
    ensures
        ({
            let here = pattern::run_end(t, from, ok);
            let there = pattern::run_end(t + more, from, ok);
            &&& from <= here <= t.len()
            &&& here < t.len() ==> there == here
            &&& here == t.len() ==> t.len() <= there <= (t + more).len()
        }),
    decreases t.len() - from,
{
    if from < t.len() {
        assert((t + more)[from] == t[from]);
        if ok(t[from]) {
            lemma_run_in_parts(t, more, from + 1, ok);
        }
    } else {
        lemma_run_end_bounds(t + more, from, ok);
    }
}

proof fn lemma_cursor_settles(t: Seq<char>, more: Seq<char>)
    requires
        !reaches(pattern::cursor_matches(), t, more),
    ensures
        settles(pattern::cursor_matches(), t, more),
{
    assert forall|i: int| 0 <= i < t.len() implies #[trigger] settles_at(
        pattern::cursor_matches(),
        t,
        more,
        i,
    ) by {
        let u = t.skip(i);
        let ok = |c: char| pattern::is_decimal_digit(c) || c == ';';
        assert(!reaches_from(pattern::cursor_matches(), t, more, i));
        assert((u + more)[0] == u[0]);
        if u.len() >= 2 {
            assert((u + more)[1] == u[1]);
            lemma_run_in_parts(u, more, 2, ok);
            let end = pattern::run_end(u, 2, ok);
            if end < u.len() {
                assert((u + more)[end] == u[end]);
            }
        } else if (u + more).len() >= 2 {
            lemma_run_end_bounds(u + more, 2, ok);
        }
    }
}

proof fn lemma_escape_settles(t: Seq<char>, more: Seq<char>)
    requires
        !reaches(pattern::escape_matches(), t, more),
    ensures
        settles(pattern::escape_matches(), t, more),
{
    assert forall|i: int| 0 <= i < t.len() implies #[trigger] settles_at(
        pattern::escape_matches(),
        t,
        more,
        i,
    ) by {
        let u = t.skip(i);
        let whole = u + more;
        let is_body = |c: char| c != pattern::BEL && c != pattern::ESC;
        let is_param = |c: char| '0' <= c <= '?';
        let is_middle = |c: char| ' ' <= c <= '/';
        assert(!reaches_from(pattern::escape_matches(), t, more, i));
        assert(whole[0] == u[0]);
        if whole.len() >= 2 {
            lemma_run_end_bounds(whole, 2, is_body);
            lemma_run_end_bounds(whole, 2, is_param);
            lemma_run_end_bounds(whole, pattern::run_end(whole, 2, is_param), is_middle);
        }
        if u.len() >= 2 {
            assert(whole[1] == u[1]);
            lemma_run_in_parts(u, more, 2, is_body);
            let end = pattern::run_end(u, 2, is_body);
            if end < u.len() {
                assert(whole[end] == u[end]);
            }
            lemma_run_in_parts(u, more, 2, is_param);
            let params = pattern::run_end(u, 2, is_param);
            lemma_run_in_parts(u, more, params, is_middle);
            let last = pattern::run_end(u, params, is_middle);
            if last < u.len() {
                assert(whole[last] == u[last]);
            }
        }
    }
}

proof fn lemma_single_characters_settle(t: Seq<char>, more: Seq<char>)
    ensures
        settles(pattern::control_matches(), t, more),
        settles(pattern::char_matches('\r'), t, more),
{
    assert forall|i: int| 0 <= i < t.len() implies #[trigger] settles_at(
        pattern::control_matches(),
        t,
        more,
        i,
    ) by {
        assert((t.skip(i) + more)[0] == t.skip(i)[0]);
    }
    assert forall|i: int| 0 <= i < t.len() implies #[trigger] settles_at(
        pattern::char_matches('\r'),
        t,
        more,
        i,
    ) by {
        assert((t.skip(i) + more)[0] == t.skip(i)[0]);
    }
}

proof fn lemma_substituted_in_parts(
    t: Seq<char>,
    more: Seq<char>,
    with: Seq<char>,
    len: spec_fn(Seq<char>) -> int,
)
    requires
        settles(len, t, more),
    ensures
        pattern::substituted(t + more, with, len) == pattern::substituted(t, with, len)
            + pattern::substituted(more, with, len),
    decreases t.len(),
{
    let tail = pattern::substituted(more, with, len);
    if t.len() == 0 {
        assert(t + more =~= more);
        assert(pattern::substituted(t, with, len) + tail =~= tail);
    } else {
        assert(settles_at(len, t, more, 0));
        assert(t.skip(0) =~= t);
        let n = len(t);
        let k = if n > 0 {
            n
        } else {
            1
        };
        let kept = if n > 0 {
            with
        } else {
            seq![t[0]]
        };
        let rest = t.skip(k);
        assert((t + more)[0] == t[0]);
        assert((t + more).skip(k) =~= rest + more);
        assert forall|i: int| 0 <= i < rest.len() implies #[trigger] settles_at(
            len,
            rest,
            more,
            i,
        ) by {
            assert(settles_at(len, t, more, i + k));
            assert(rest.skip(i) =~= t.skip(i + k));
        }
        lemma_substituted_in_parts(rest, more, with, len);
        let middle = pattern::substituted(rest, with, len);
        assert(kept + (middle + tail) =~= (kept + middle) + tail);
    }
}

/// The space that `t` begins with goes where the text before it ends in one.
spec fn joined_to(before: Seq<char>, t: Seq<char>) -> Seq<char> {
    let out = pattern::substituted(t, detector::space(), pattern::spaces_matches());
    if before.len() > 0 && before.last() == ' ' && t.len() > 0 && t[0] == ' ' {
        out.skip(1)
    } else {
        out
    }
}

proof fn lemma_run_of_spaces(a: Seq<char>, b: Seq<char>, from: int)
    requires
        0 <= from <= a.len(),
    ensures
        ({
            let ok = |c: char| c == ' ';
            let here = pattern::run_end(a, from, ok);
            &&& from <= here <= a.len()
            &&& here < a.len() ==> pattern::run_end(a + b, from, ok) == here
            &&& here == a.len() ==> pattern::run_end(a + b, from, ok) == a.len()
                + pattern::run_end(b, 0, ok)
        }),
    decreases a.len() - from,
{
    let ok = |c: char| c == ' ';
    if from < a.len() {
        assert((a + b)[from] == a[from]);
        if ok(a[from]) {
            lemma_run_of_spaces(a, b, from + 1);
        }
    } else {
        lemma_run_shifts(a, b, 0);
    }
}

proof fn lemma_run_shifts(a: Seq<char>, b: Seq<char>, from: int)
    requires
        0 <= from <= b.len(),
    ensures
        pattern::run_end(a + b, a.len() + from, |c: char| c == ' ') == a.len() + pattern::run_end(
            b,
            from,
            |c: char| c == ' ',
        ),
    decreases b.len() - from,
{
    if from < b.len() {
        assert((a + b)[a.len() + from] == b[from]);
        if b[from] == ' ' {
            lemma_run_shifts(a, b, from + 1);
        }
    }
}

proof fn lemma_spaces_in_parts(a: Seq<char>, b: Seq<char>)
    ensures
        pattern::substituted(a + b, detector::space(), pattern::spaces_matches())
            == pattern::substituted(a, detector::space(), pattern::spaces_matches()) + joined_to(
            a,
            b,
        ),
    decreases a.len(),
{
    let one = detector::space();
    let len = pattern::spaces_matches();
    let tail = joined_to(a, b);
    if a.len() == 0 {
        assert(a + b =~= b);
        assert(pattern::substituted(a, one, len) + tail =~= tail);
    } else {
        lemma_run_of_spaces(a, b, 0);
        assert((a + b)[0] == a[0]);
        let n = pattern::spaces_len(a);
        if n == a.len() {
            let m = pattern::spaces_len(b);
            lemma_run_end_bounds(b, 0, |c: char| c == ' ');
            lemma_run_end_bounds(a, 0, |c: char| c == ' ');
            lemma_all_spaces(a, 0);
            assert(a.last() == ' ');
            assert(a.skip(n) =~= Seq::<char>::empty());
            assert(pattern::substituted(a.skip(n), one, len) =~= Seq::<char>::empty());
            assert(len(a) == n && len(a + b) == n + m);
            assert(pattern::substituted(a, one, len) =~= one);
            assert((a + b).skip(n + m) =~= b.skip(m));
            assert(pattern::substituted(a + b, one, len) =~= one + pattern::substituted(
                b.skip(m),
                one,
                len,
            ));
            if m == 0 {
                assert(b.skip(0) =~= b);
            } else {
                let rest = pattern::substituted(b.skip(m), one, len);
                assert((one + rest).skip(1) =~= rest);
            }
        } else {
            let k = if n > 0 {
                n
            } else {
                1
            };
            let rest = a.skip(k);
            assert((a + b).skip(k) =~= rest + b);
            lemma_spaces_in_parts(rest, b);
            if rest.len() > 0 {
                assert(rest.last() == a.last());
            } else {
                assert(a.last() == a[0]);
            }
            lemma_run_end_bounds(a, 0, |c: char| c == ' ');
            assert(n > 0 ==> a[0] == ' ');
            assert(len(a) == n && len(a + b) == n);
            assert(joined_to(rest, b) == tail);
            let kept = seq![a[0]];
            let middle = pattern::substituted(rest, one, len);
            assert(n > 0 ==> kept =~= one);
            assert(pattern::substituted(a, one, len) =~= kept + middle);
            assert(kept + (middle + tail) =~= (kept + middle) + tail);
        }
    }
}

proof fn lemma_all_spaces(t: Seq<char>, from: int)
    requires
        0 <= from <= t.len(),
        pattern::run_end(t, from, |c: char| c == ' ') == t.len(),
    ensures
        forall|i: int| from <= i < t.len() ==> #[trigger] t[i] == ' ',
    decreases t.len() - from,
{
    if from < t.len() {
        lemma_all_spaces(t, from + 1);
    }
}

proof fn lemma_line_count_after(before: char, t: Seq<char>)
    requires
        before != '\n',
    ensures
        line_count(seq![before] + t) == line_count(t),
    decreases t.len(),
{
    let whole = seq![before] + t;
    if t.len() == 0 {
        assert(whole.drop_last() =~= Seq::<char>::empty());
        assert(t =~= Seq::<char>::empty());
        lemma_line_count_step(whole);
    } else {
        assert(whole.drop_last() =~= seq![before] + t.drop_last());
        lemma_line_count_step(whole);
        lemma_line_count_step(t);
        lemma_line_count_after(before, t.drop_last());
    }
}

proof fn lemma_occurs_without_space(t: Seq<char>, w: Seq<char>)
    requires
        t.len() > 0,
        t[0] == ' ',
        w.len() > 0,
        w[0] != ' ',
    ensures
        forall|i: int| #[trigger] text::occurs_at(t, w, i) ==> i >= 1 && text::occurs_at(
            t.skip(1),
            w,
            i - 1,
        ),
        text::occurs_in(t, w) ==> text::occurs_in(t.skip(1), w),
{
    assert forall|i: int| #[trigger] text::occurs_at(t, w, i) implies i >= 1 && text::occurs_at(
        t.skip(1),
        w,
        i - 1,
    ) by {
        assert(t.subrange(i, i + w.len())[0] == t[i]);
        assert(t.skip(1).subrange(i - 1, i - 1 + w.len()) =~= t.subrange(i, i + w.len()));
    }
}

proof fn lemma_no_follows_without_space(t: Seq<char>, from: int)
    requires
        t.len() > 0,
        t[0] == ' ',
        1 <= from,
        pattern::no_follows(t, from),
    ensures
        pattern::no_follows(t.skip(1), from - 1),
{
    lemma_occurs_without_space(t, pattern::no_word());
    let j = choose|j: int|
        {
            &&& from <= j
            &&& #[trigger] text::occurs_at(t, pattern::no_word(), j)
            &&& forall|k: int| from <= k < j ==> pattern::is_white_space(#[trigger] t[k])
        };
    assert(text::occurs_at(t.skip(1), pattern::no_word(), j - 1));
    assert forall|k: int| from - 1 <= k < j - 1 implies pattern::is_white_space(
        #[trigger] t.skip(1)[k],
    ) by {
        assert(t.skip(1)[k] == t[k + 1]);
    }
}

/// A leading space is no part of a dialog.
proof fn lemma_actionable_without_space(t: Seq<char>)
    requires
        t.len() > 0,
        t[0] == ' ',
        detector::actionable(t),
    ensures
        detector::actionable(t.skip(1)),
{
    let less = t.skip(1);
    reveal_strlit("1. Yes");
    reveal_strlit("1) Yes");
    reveal_strlit("\u{2022} Yes");
    reveal_strlit("Enter to approve");
    reveal_strlit("Enter to confirm");
    lemma_occurs_without_space(t, "1. Yes"@);
    lemma_occurs_without_space(t, "1) Yes"@);
    lemma_occurs_without_space(t, "\u{2022} Yes"@);
    lemma_occurs_without_space(t, "Enter to approve"@);
    lemma_occurs_without_space(t, "Enter to confirm"@);
    if pattern::shows_no_button(t) {
        let i = choose|i: int| pattern::no_button_at(t, i);
        assert(i >= 1);
        assert(less[i - 1] == t[i]);
        if t[i] == '•' && pattern::no_follows(t, i + 1) {
            lemma_no_follows_without_space(t, i + 1);
        } else {
            assert(less[i] == t[i + 1]);
            lemma_no_follows_without_space(t, i + 2);
        }
        assert(pattern::no_button_at(less, i - 1));
    }
    if pattern::ends_in_yn(t) {
        lemma_occurs_without_space(t, pattern::yn());
        let i = choose|i: int|
            {
                &&& #[trigger] text::occurs_at(t, pattern::yn(), i)
                &&& forall|k: int|
                    i + 5 <= k < t.len() ==> pattern::is_white_space(#[trigger] t[k])
            };
        assert(text::occurs_at(less, pattern::yn(), i - 1));
        assert forall|k: int| i - 1 + 5 <= k < less.len() implies pattern::is_white_space(
            #[trigger] less[k],
        ) by {
            assert(less[k] == t[k + 1]);
        }
        assert(pattern::ends_in_yn(less));
    }
}

/// No match of `len` takes in the newline that `t` ends with.
spec fn spares_the_end(len: spec_fn(Seq<char>) -> int, t: Seq<char>) -> bool {
    forall|i: int| 0 <= i < t.len() ==> len(#[trigger] t.skip(i)) < t.len() - i
}

proof fn lemma_line_end_survives(
    t: Seq<char>,
    with: Seq<char>,
    len: spec_fn(Seq<char>) -> int,
)
    requires
        ends_a_line(t),
        spares_the_end(len, t),
    ensures
        ends_a_line(pattern::substituted(t, with, len)),
    decreases t.len(),
{
    assert(t.skip(0) =~= t);
    let n = len(t.skip(0));
    let k = if n > 0 {
        n
    } else {
        1
    };
    let rest = t.skip(k);
    let out = pattern::substituted(rest, with, len);
    if rest.len() > 0 {
        assert(rest.last() == t.last());
        assert forall|i: int| 0 <= i < rest.len() implies len(#[trigger] rest.skip(i)) < rest.len()
            - i by {
            assert(rest.skip(i) =~= t.skip(i + k));
        }
        lemma_line_end_survives(rest, with, len);
        assert(n > 0 ==> (with + out).last() == out.last());
        assert(n <= 0 ==> (seq![t[0]] + out).last() == out.last());
    } else {
        assert(t[0] == '\n');
        assert(out =~= Seq::<char>::empty());
        assert(seq![t[0]] + out =~= seq![t[0]]);
    }
}

proof fn lemma_matches_spare_the_end(t: Seq<char>)
    requires
        ends_a_line(t),
    ensures
        spares_the_end(pattern::cursor_matches(), t),
        spares_the_end(pattern::escape_matches(), t),
        spares_the_end(pattern::control_matches(), t),
        spares_the_end(pattern::char_matches('\r'), t),
        spares_the_end(pattern::spaces_matches(), t),
{
    assert forall|i: int| 0 <= i < t.len() implies {
        &&& pattern::cursor_matches()(#[trigger] t.skip(i)) < t.len() - i
        &&& pattern::escape_matches()(t.skip(i)) < t.len() - i
        &&& pattern::control_matches()(t.skip(i)) < t.len() - i
        &&& pattern::char_matches('\r')(t.skip(i)) < t.len() - i
        &&& pattern::spaces_matches()(t.skip(i)) < t.len() - i
    } by {
        let u = t.skip(i);
        assert(u[u.len() - 1] == '\n');
        lemma_run_end_bounds(u, 0, |c: char| c == ' ');
        lemma_run_before(u, 0, |c: char| c == ' ');
        if u.len() >= 2 {
            lemma_run_end_bounds(u, 2, |c: char| c != pattern::BEL && c != pattern::ESC);
            lemma_run_end_bounds(u, 2, |c: char| pattern::is_decimal_digit(c) || c == ';');
            lemma_run_end_bounds(u, 2, |c: char| '0' <= c <= '?');
            let params = pattern::run_end(u, 2, |c: char| '0' <= c <= '?');
            lemma_run_end_bounds(u, params, |c: char| ' ' <= c <= '/');
        }
    }
}

/// A run of characters that a newline is none of does not take in the last one.
proof fn lemma_run_before(t: Seq<char>, from: int, ok: spec_fn(char) -> bool)
    requires
        ends_a_line(t),
        0 <= from < t.len(),
        !ok('\n'),
    ensures
        pattern::run_end(t, from, ok) < t.len(),
    decreases t.len() - from,
{
    if ok(t[from]) {
        assert(from < t.len() - 1);
        lemma_run_before(t, from + 1, ok);
    }
}

/// What the two strip to together: the first, and the second less the space it
/// may begin with.
proof fn lemma_stripped_in_parts(noise: Seq<char>, dialog: Seq<char>) -> (rest: Seq<char>)
    requires
        no_escape_reaches(noise, dialog),
    ensures
        detector::stripped(noise + dialog) == detector::stripped(noise) + rest,
        rest == detector::stripped(dialog) || (detector::stripped(dialog).len() > 0
            && detector::stripped(dialog)[0] == ' ' && rest == detector::stripped(dialog).skip(1)),
        ends_a_line(noise) ==> rest == detector::stripped(dialog) && ends_a_line(
            detector::stripped(noise),
        ),
{
    let one = detector::space();
    let line = ends_a_line(noise);
    lemma_cursor_settles(noise, dialog);
    lemma_substituted_in_parts(noise, dialog, one, pattern::cursor_matches());
    if line {
        lemma_matches_spare_the_end(noise);
        lemma_line_end_survives(noise, one, pattern::cursor_matches());
    }
    let a = detector::cursors_spaced(noise);
    let b = detector::cursors_spaced(dialog);
    lemma_escape_settles(a, b);
    lemma_substituted_in_parts(a, b, seq![], pattern::escape_matches());
    if line {
        lemma_matches_spare_the_end(a);
        lemma_line_end_survives(a, seq![], pattern::escape_matches());
    }
    let a = pattern::substituted(a, seq![], pattern::escape_matches());
    let b = pattern::substituted(b, seq![], pattern::escape_matches());
    lemma_single_characters_settle(a, b);
    lemma_substituted_in_parts(a, b, seq![], pattern::control_matches());
    if line {
        lemma_matches_spare_the_end(a);
        lemma_line_end_survives(a, seq![], pattern::control_matches());
    }
    let a = pattern::substituted(a, seq![], pattern::control_matches());
    let b = pattern::substituted(b, seq![], pattern::control_matches());
    lemma_single_characters_settle(a, b);
    lemma_substituted_in_parts(a, b, one, pattern::char_matches('\r'));
    if line {
        lemma_matches_spare_the_end(a);
        lemma_line_end_survives(a, one, pattern::char_matches('\r'));
    }
    let a = pattern::substituted(a, one, pattern::char_matches('\r'));
    let b = pattern::substituted(b, one, pattern::char_matches('\r'));
    lemma_spaces_in_parts(a, b);
    if line {
        lemma_matches_spare_the_end(a);
        lemma_line_end_survives(a, one, pattern::spaces_matches());
    }
    if b.len() > 0 && b[0] == ' ' {
        lemma_run_end_bounds(b, 0, |c: char| c == ' ');
        assert(detector::stripped(dialog)[0] == ' ');
    }
    joined_to(a, b)
}

/// Volume does not blind detection: a dialog that is found alone, and that fits
/// the scored tail, is found after any amount of output before it, unless an
/// escape of that output takes in the dialog's beginning.
pub proof fn law_volume_does_not_hide_a_dialog(noise: Seq<char>, dialog: Seq<char>)
    requires
        no_escape_reaches(noise, dialog),
        line_count(detector::stripped(dialog)) <= 50,
        detector::detection_of(dialog).detected,
    ensures
        detector::detection_of(noise + dialog).detected,
{
    let n = 50nat;
    let clean = detector::stripped(dialog);
    let nothing = lemma_tail_keeps(Seq::<char>::empty(), clean, n);
    assert(Seq::<char>::empty() + clean =~= clean);
    assert(nothing + clean =~= clean);
    let rest = lemma_stripped_in_parts(noise, dialog);
    if rest != clean {
        lemma_actionable_without_space(clean);
        assert(seq![' '] + rest =~= clean);
        lemma_line_count_after(' ', rest);
    }
    let kept = lemma_tail_keeps(detector::stripped(noise), rest, n);
    lemma_actionable_after(kept, rest);
}

proof fn lemma_bell_survives(t: Seq<char>)
    ensures
        t.contains(pattern::BEL) ==> detector::cursors_spaced(t).contains(pattern::BEL),
    decreases t.len(),
{
    if t.contains(pattern::BEL) {
        let at = choose|k: int| 0 <= k < t.len() && t[k] == pattern::BEL;
        let n = pattern::cursor_len(t);
        let out = detector::cursors_spaced(t);
        let ok = |c: char| pattern::is_decimal_digit(c) || c == ';';
        let k = if n > 0 {
            n
        } else {
            1
        };
        if t.len() >= 2 {
            lemma_run_end_bounds(t, 2, ok);
            lemma_run_holds(t, 2, ok);
        }
        let rest = t.skip(k);
        lemma_bell_survives(rest);
        let tail = detector::cursors_spaced(rest);
        if at >= k {
            assert(rest[at - k] == pattern::BEL);
            let j = choose|j: int| 0 <= j < tail.len() && tail[j] == pattern::BEL;
            assert(out[j + 1] == pattern::BEL);
        } else {
            assert(n <= 0 && at == 0);
            assert(out[0] == pattern::BEL);
        }
    }
}

/// Up to its end, a run holds only such characters.
proof fn lemma_run_holds(t: Seq<char>, from: int, ok: spec_fn(char) -> bool)
    requires
        0 <= from <= t.len(),
    ensures
        forall|k: int| from <= k < pattern::run_end(t, from, ok) ==> ok(#[trigger] t[k]),
    decreases t.len() - from,
{
    if from < t.len() && ok(t[from]) {
        lemma_run_holds(t, from + 1, ok);
    }
}

/// An operating system command without its bell begins at `i`.
pub open spec fn opens_command(t: Seq<char>, i: int) -> bool {
    &&& 0 <= i < t.len() - 1
    &&& t[i] == pattern::ESC
    &&& t[i + 1] == ']'
    &&& !t.skip(i + 2).contains(pattern::BEL)
}

/// The text ends without the bell of an operating system command in it.
pub open spec fn ends_in_command(t: Seq<char>) -> bool {
    exists|i: int| #[trigger] opens_command(t, i)
}

/// Spacing the cursor movements opens no command.
proof fn lemma_no_command_is_opened(t: Seq<char>, j: int)
    requires
        opens_command(detector::cursors_spaced(t), j),
    ensures
        ends_in_command(t),
    decreases t.len(),
{
    let out = detector::cursors_spaced(t);
    if t.len() > 0 {
        let n = pattern::cursor_len(t);
        if t.len() >= 2 {
            lemma_run_end_bounds(t, 2, |c: char| pattern::is_decimal_digit(c) || c == ';');
        }
        let k = if n > 0 {
            n
        } else {
            1
        };
        let rest = t.skip(k);
        let tail = detector::cursors_spaced(rest);
        assert(out =~= seq![out[0]] + tail);
        if j == 0 {
            assert(n <= 0);
            assert(out[1] == tail[0]);
            let m = pattern::cursor_len(rest);
            if rest.len() >= 2 {
                lemma_run_end_bounds(rest, 2, |c: char| pattern::is_decimal_digit(c) || c == ';');
            }
            assert(rest[0] == ']');
            let after = rest.skip(1);
            assert(tail =~= seq![rest[0]] + detector::cursors_spaced(after));
            lemma_bell_survives(after);
            assert(out.skip(2) =~= detector::cursors_spaced(after));
            assert(t.skip(2) =~= after);
            assert(opens_command(t, 0));
        } else {
            assert(out.skip(j + 2) =~= tail.skip(j - 1 + 2));
            assert(out[j] == tail[j - 1] && out[j + 1] == tail[j]);
            lemma_no_command_is_opened(rest, j - 1);
            let i = choose|i: int| opens_command(rest, i);
            assert(t.skip(i + k + 2) =~= rest.skip(i + 2));
            assert(opens_command(t, i + k));
        }
    }
}

proof fn lemma_no_bell_is_made(t: Seq<char>)
    ensures
        detector::cursors_spaced(t).contains(pattern::BEL) ==> t.contains(pattern::BEL),
    decreases t.len(),
{
    let out = detector::cursors_spaced(t);
    if out.contains(pattern::BEL) {
        let j = choose|j: int| 0 <= j < out.len() && out[j] == pattern::BEL;
        if t.len() > 0 {
            let n = pattern::cursor_len(t);
            if t.len() >= 2 {
                lemma_run_end_bounds(t, 2, |c: char| pattern::is_decimal_digit(c) || c == ';');
            }
            let k = if n > 0 {
                n
            } else {
                1
            };
            let rest = t.skip(k);
            let tail = detector::cursors_spaced(rest);
            lemma_no_bell_is_made(rest);
            if j > 0 {
                assert(tail[j - 1] == pattern::BEL);
                let i = choose|i: int| 0 <= i < rest.len() && rest[i] == pattern::BEL;
                assert(t[i + k] == pattern::BEL);
            } else {
                assert(t[0] == pattern::BEL);
            }
        }
    }
}

/// The text ends within a sequence: an `ESC` that nothing follows, or an `ESC [`
/// that only parameters and intermediates follow.
pub open spec fn ends_in_sequence(t: Seq<char>) -> bool {
    exists|i: int| #[trigger] opens_sequence(t, i)
}

/// Such a sequence begins at `i`.
pub open spec fn opens_sequence(t: Seq<char>, i: int) -> bool {
    &&& 0 <= i < t.len()
    &&& t[i] == pattern::ESC
    &&& i + 1 == t.len() || (t[i + 1] == '[' && forall|k: int|
        i + 2 <= k < t.len() ==> (' ' <= #[trigger] t[k] <= '?' || pattern::is_decimal_digit(t[k])))
}

/// Only what is left open can reach into what follows: a text that ends within
/// no sequence, neither as it is nor once its cursor movements are spaces, and
/// whose operating system commands have their bells or meet none in what
/// follows.
pub proof fn law_only_what_is_open_reaches_on(t: Seq<char>, more: Seq<char>)
    requires
        !ends_in_sequence(t),
        !ends_in_sequence(detector::cursors_spaced(t)),
        !ends_in_command(t) || !more.contains(pattern::BEL),
    ensures
        no_escape_reaches(t, more),
{
    let is_digit = |c: char| pattern::is_decimal_digit(c) || c == ';';
    if reaches(pattern::cursor_matches(), t, more) {
        let i = choose|i: int| reaches_from(pattern::cursor_matches(), t, more, i);
        let u = t.skip(i);
        assert((u + more)[0] == u[0]);
        assert(t[i] == pattern::ESC);
        if u.len() >= 2 {
            assert((u + more)[1] == u[1]);
            lemma_run_in_parts(u, more, 2, is_digit);
            lemma_run_holds(u, 2, is_digit);
            assert(pattern::run_end(u, 2, is_digit) == u.len());
            assert forall|k: int| i + 2 <= k < t.len() implies (' ' <= #[trigger] t[k] <= '?'
                || pattern::is_decimal_digit(t[k])) by {
                assert(is_digit(u[k - i]));
            }
        }
        assert(opens_sequence(t, i));
    }
    let a = detector::cursors_spaced(t);
    let b = detector::cursors_spaced(more);
    if reaches(pattern::escape_matches(), a, b) {
        let i = choose|i: int| reaches_from(pattern::escape_matches(), a, b, i);
        let u = a.skip(i);
        let whole = u + b;
        let is_body = |c: char| c != pattern::BEL && c != pattern::ESC;
        let is_param = |c: char| '0' <= c <= '?';
        let is_middle = |c: char| ' ' <= c <= '/';
        assert(whole[0] == u[0]);
        assert(a[i] == pattern::ESC);
        if u.len() == 1 {
            assert(opens_sequence(a, i));
        } else if a[i + 1] == '[' {
            assert(whole[1] == u[1]);
            lemma_run_in_parts(u, b, 2, is_param);
            lemma_run_holds(u, 2, is_param);
            let params = pattern::run_end(u, 2, is_param);
            lemma_run_in_parts(u, b, params, is_middle);
            lemma_run_holds(u, params, is_middle);
            assert(pattern::run_end(u, params, is_middle) == u.len());
            assert forall|k: int| i + 2 <= k < a.len() implies (' ' <= #[trigger] a[k] <= '?'
                || pattern::is_decimal_digit(a[k])) by {
                if k - i < params {
                    assert(is_param(u[k - i]));
                } else {
                    assert(is_middle(u[k - i]));
                }
            }
            assert(opens_sequence(a, i));
        } else {
            assert(whole[1] == u[1]);
            assert(a[i + 1] == ']');
            lemma_run_in_parts(u, b, 2, is_body);
            lemma_run_holds(u, 2, is_body);
            let end = pattern::run_end(whole, 2, is_body);
            assert(pattern::run_end(u, 2, is_body) == u.len());
            assert(b[end - u.len()] == whole[end]);
            assert(b.contains(pattern::BEL));
            lemma_no_bell_is_made(more);
            let after = a.skip(i + 2);
            assert forall|k: int| 0 <= k < after.len() implies #[trigger] after[k]
                != pattern::BEL by {
                assert(is_body(u[k + 2]));
            }
            assert(opens_command(a, i));
            lemma_no_command_is_opened(t, i);
        }
    }
}

/// Of what is left open at the end of a line, only an operating system command
/// can reach past it, and only to a bell.
pub proof fn law_only_a_command_reaches_past_a_line_end(t: Seq<char>, more: Seq<char>)
    requires
        ends_a_line(t),
        !ends_in_command(t) || !more.contains(pattern::BEL),
    ensures
        no_escape_reaches(t, more),
{
    lemma_matches_spare_the_end(t);
    lemma_line_end_survives(t, detector::space(), pattern::cursor_matches());
    let u = detector::cursors_spaced(t);
    assert(t[t.len() - 1] == '\n' && u[u.len() - 1] == '\n');
    assert(!ends_in_sequence(t) && !ends_in_sequence(u));
    law_only_what_is_open_reaches_on(t, more);
}

/// Stripping goes line by line: what stands before a newline and what stands
/// after it do not see each other, unless an escape reaches from one to the
/// other.
pub proof fn law_stripping_goes_line_by_line(before: Seq<char>, after: Seq<char>)
    requires
        ends_a_line(before),
        no_escape_reaches(before, after),
    ensures
        detector::stripped(before + after) == detector::stripped(before) + detector::stripped(
            after,
        ),
        ends_a_line(detector::stripped(before)),
{
    lemma_stripped_in_parts(before, after);
}

/// Only the last 50 lines are read. What has scrolled
/// further up changes neither the verdict nor the answer, unless an escape
/// reaches down from there: no dialog is found there, and no request for the
/// word.
pub proof fn law_scrollback_is_not_read(scrolled: Seq<char>, screen: Seq<char>)
    requires
        ends_a_line(scrolled),
        no_escape_reaches(scrolled, screen),
        line_count(detector::stripped(screen)) >= 50,
    ensures
        detector::detection_of(scrolled + screen) == detector::detection_of(screen),
        detector::wants_word(scrolled + screen) == detector::wants_word(screen),
{
    law_stripping_goes_line_by_line(scrolled, screen);
    lemma_tail_forgets(
        detector::stripped(scrolled),
        detector::stripped(screen),
        50,
    );
}

// ── what stripping does to each kind of character ────────────────────────────

/// No escape character.
pub open spec fn has_no_escape(t: Seq<char>) -> bool {
    forall|i: int| 0 <= i < t.len() ==> #[trigger] t[i] != '\u{1b}'
}

proof fn lemma_escapes_pass_by(t: Seq<char>, more: Seq<char>, with: Seq<char>)
    requires
        has_no_escape(t),
    ensures
        pattern::substituted(t + more, with, pattern::cursor_matches()) == t
            + pattern::substituted(more, with, pattern::cursor_matches()),
        pattern::substituted(t + more, with, pattern::escape_matches()) == t
            + pattern::substituted(more, with, pattern::escape_matches()),
{
    let cursor = pattern::cursor_matches();
    let escape = pattern::escape_matches();
    assert forall|i: int| 0 <= i < t.len() implies {
        &&& #[trigger] settles_at(cursor, t, more, i)
        &&& settles_at(escape, t, more, i)
    } by {
        assert((t.skip(i) + more)[0] == t[i]);
        assert(t.skip(i)[0] == t[i]);
    }
    assert forall|i: int| 0 <= i < t.len() implies cursor(#[trigger] t.skip(i)) <= 0 && escape(
        t.skip(i),
    ) <= 0 by {
        assert(t.skip(i)[0] == t[i]);
    }
    assert(settles(cursor, t, more));
    assert forall|i: int| 0 <= i < t.len() implies #[trigger] settles_at(escape, t, more, i) by {
        assert(settles_at(cursor, t, more, i));
    }
    lemma_substituted_in_parts(t, more, with, cursor);
    lemma_substituted_in_parts(t, more, with, escape);
    lemma_nothing_to_substitute(t, with, cursor);
    lemma_nothing_to_substitute(t, with, escape);
}

/// Text as it is read stays as it is: printable characters, tabs and newlines,
/// no two spaces side by side.
pub proof fn law_plain_text_is_not_stripped(t: Seq<char>)
    requires
        forall|i: int|
            0 <= i < t.len() ==> (#[trigger] t[i] >= ' ' || t[i] == '\t' || t[i] == '\n'),
        forall|i: int| 0 <= i < t.len() - 1 && #[trigger] t[i] == ' ' ==> t[i + 1] != ' ',
    ensures
        detector::stripped(t) == t,
{
    assert forall|i: int| 0 <= i < t.len() implies {
        &&& pattern::cursor_matches()(#[trigger] t.skip(i)) <= 0
        &&& pattern::escape_matches()(t.skip(i)) <= 0
        &&& pattern::control_matches()(t.skip(i)) <= 0
        &&& pattern::char_matches('\r')(t.skip(i)) <= 0
    } by {
        assert(t.skip(i)[0] == t[i]);
    }
    lemma_nothing_to_substitute(t, detector::space(), pattern::cursor_matches());
    lemma_nothing_to_substitute(t, seq![], pattern::escape_matches());
    lemma_nothing_to_substitute(t, seq![], pattern::control_matches());
    lemma_nothing_to_substitute(t, detector::space(), pattern::char_matches('\r'));
    lemma_single_spaces_stay(t);
}

/// Decimal digits and semicolons only.
pub open spec fn is_numbers(t: Seq<char>) -> bool {
    forall|i: int| 0 <= i < t.len() ==> ('0' <= #[trigger] t[i] <= '9' || t[i] == ';')
}

/// The last character of a cursor movement.
pub open spec fn moves_the_cursor(c: char) -> bool {
    ||| c == 'A' || c == 'B' || c == 'C' || c == 'D' || c == 'E' || c == 'F' || c == 'G' || c == 'H'
    ||| c == 'J' || c == 'K' || c == 'f' || c == 's' || c == 'u'
}

/// A run that holds `n` such characters and then another one ends there.
proof fn lemma_run_stops(t: Seq<char>, from: int, n: int, ok: spec_fn(char) -> bool)
    requires
        0 <= from <= n <= t.len(),
        forall|k: int| from <= k < n ==> ok(#[trigger] t[k]),
        n < t.len() ==> !ok(t[n]),
    ensures
        pattern::run_end(t, from, ok) == n,
    decreases n - from,
{
    if from < n {
        assert(ok(t[from]));
        lemma_run_stops(t, from + 1, n, ok);
    }
}

/// A cursor movement is read as one space: `ESC [`, numbers, and one of the
/// letters that move the cursor.
pub proof fn law_a_cursor_movement_reads_as_a_space(
    before: Seq<char>,
    numbers: Seq<char>,
    last: char,
    after: Seq<char>,
)
    requires
        has_no_escape(before),
        is_numbers(numbers),
        moves_the_cursor(last),
    ensures
        detector::stripped(before + seq!['\u{1b}', '['] + numbers + seq![last] + after)
            == detector::stripped(before + seq![' '] + after),
{
    let moved = seq!['\u{1b}', '['] + numbers + seq![last] + after;
    let one = detector::space();
    let cursor = pattern::cursor_matches();
    let ok = |c: char| pattern::is_decimal_digit(c) || c == ';';
    let n = numbers.len() as int;
    assert forall|k: int| 2 <= k < n + 2 implies ok(#[trigger] moved[k]) by {
        assert(moved[k] == numbers[k - 2]);
    }
    assert(moved[n + 2] == last);
    lemma_run_stops(moved, 2, n + 2, ok);
    assert(pattern::cursor_len(moved) == n + 3);
    assert(moved.skip(n + 3) =~= after);
    assert(pattern::substituted(moved, one, cursor) == one + pattern::substituted(
        after,
        one,
        cursor,
    ));
    lemma_escapes_pass_by(before, moved, one);
    let spaced = before + seq![' '];
    assert(has_no_escape(spaced));
    lemma_escapes_pass_by(spaced, after, one);
    let tail = pattern::substituted(after, one, cursor);
    assert(before + (one + tail) =~= spaced + tail);
    assert(before + seq!['\u{1b}', '['] + numbers + seq![last] + after =~= before + moved);
}

/// A string that goes as one escape, and holds no other, leaves no trace.
proof fn lemma_escape_goes(before: Seq<char>, escape: Seq<char>, after: Seq<char>)
    requires
        has_no_escape(before),
        escape.len() >= 2,
        escape[0] == pattern::ESC,
        has_no_escape(escape.skip(1)),
        pattern::cursor_len(escape + after) == 0,
        ({
            let rest = detector::cursors_spaced(after);
            pattern::escape_len(escape + rest) == escape.len()
        }),
    ensures
        detector::stripped(before + escape + after) == detector::stripped(before + after),
{
    let one = detector::space();
    let none = Seq::<char>::empty();
    let rest = detector::cursors_spaced(after);
    let whole = escape + after;
    let body = escape.skip(1);
    assert(whole.skip(1) =~= body + after);
    assert(whole[0] == escape[0]);
    lemma_escapes_pass_by(body, after, one);
    assert(detector::cursors_spaced(whole) =~= escape + rest) by {
        assert(seq![escape[0]] + (body + rest) =~= escape + rest);
    }
    lemma_escapes_pass_by(before, whole, one);
    lemma_escapes_pass_by(before, after, one);
    assert(before + escape + after =~= before + whole);
    let len = pattern::escape_matches();
    lemma_escapes_pass_by(before, escape + rest, none);
    lemma_escapes_pass_by(before, rest, none);
    assert((escape + rest).skip(escape.len() as int) =~= rest);
    let gone = pattern::substituted(rest, none, len);
    assert(none + gone =~= gone);
    assert(pattern::substituted(escape + rest, none, len) == gone);
}

/// A control sequence that moves no cursor leaves no trace: `ESC [`, parameters,
/// intermediates and a last character.
pub proof fn law_other_control_sequences_leave_no_trace(
    before: Seq<char>,
    params: Seq<char>,
    middles: Seq<char>,
    last: char,
    after: Seq<char>,
)
    requires
        has_no_escape(before),
        forall|i: int| 0 <= i < params.len() ==> '0' <= #[trigger] params[i] <= '?',
        forall|i: int| 0 <= i < middles.len() ==> ' ' <= #[trigger] middles[i] <= '/',
        '@' <= last <= '~',
        !(is_numbers(params) && middles.len() == 0 && moves_the_cursor(last)),
    ensures
        detector::stripped(before + (seq!['\u{1b}', '['] + params + middles + seq![last]) + after)
            == detector::stripped(before + after),
{
    let escape = seq!['\u{1b}', '['] + params + middles + seq![last];
    let p = params.len() as int;
    let m = middles.len() as int;
    let rest = detector::cursors_spaced(after);
    let digit = |c: char| pattern::is_decimal_digit(c) || c == ';';
    let is_param = |c: char| '0' <= c <= '?';
    let is_middle = |c: char| ' ' <= c <= '/';
    assert forall|k: int| 0 <= k < escape.skip(1).len() implies #[trigger] escape.skip(1)[k]
        != '\u{1b}' by {
        assert(escape.skip(1)[k] == escape[k + 1]);
        if 2 <= k + 1 < p + 2 {
            assert(escape[k + 1] == params[k + 1 - 2]);
        } else if p + 2 <= k + 1 < p + m + 2 {
            assert(escape[k + 1] == middles[k + 1 - 2 - p]);
        }
    }
    // Not a cursor movement.
    let whole = escape + after;
    if is_numbers(params) {
        assert forall|k: int| 2 <= k < p + 2 implies digit(#[trigger] whole[k]) by {
            assert(whole[k] == params[k - 2]);
        }
        if m > 0 {
            assert(whole[p + 2] == middles[0]);
        } else {
            assert(whole[p + 2] == last);
        }
        lemma_run_stops(whole, 2, p + 2, digit);
    } else {
        let j = choose|j: int|
            0 <= j < p && !('0' <= #[trigger] params[j] <= '9' || params[j] == ';');
        assert(whole[j + 2] == params[j]);
        lemma_run_end_bounds(whole, 2, digit);
        lemma_run_holds(whole, 2, digit);
        let end = pattern::run_end(whole, 2, digit);
        assert(end <= j + 2);
        assert(whole[end] == params[end - 2]);
    }
    // One escape, all of it.
    let all = escape + rest;
    assert forall|k: int| 2 <= k < p + 2 implies is_param(#[trigger] all[k]) by {
        assert(all[k] == params[k - 2]);
    }
    if m > 0 {
        assert(all[p + 2] == middles[0]);
    } else {
        assert(all[p + 2] == last);
    }
    lemma_run_stops(all, 2, p + 2, is_param);
    assert forall|k: int| p + 2 <= k < p + m + 2 implies is_middle(#[trigger] all[k]) by {
        assert(all[k] == middles[k - 2 - p]);
    }
    assert(all[p + m + 2] == last);
    lemma_run_stops(all, p + 2, p + m + 2, is_middle);
    lemma_escape_goes(before, escape, after);
}

/// A two-character escape leaves no trace: `ESC` and one of `@` to `Z`, `\`, `^`
/// and `_`.
pub proof fn law_two_character_escapes_leave_no_trace(
    before: Seq<char>,
    second: char,
    after: Seq<char>,
)
    requires
        has_no_escape(before),
        '@' <= second <= 'Z' || second == '\\' || second == '^' || second == '_',
    ensures
        detector::stripped(before + seq!['\u{1b}', second] + after) == detector::stripped(
            before + after,
        ),
{
    lemma_escape_goes(before, seq!['\u{1b}', second], after);
}

/// An operating system command with its bell leaves no trace, and of one that no
/// bell ends the introducer leaves none.
pub proof fn law_commands_leave_no_trace(before: Seq<char>, body: Seq<char>, after: Seq<char>)
    requires
        has_no_escape(before),
        has_no_escape(body),
        forall|i: int| 0 <= i < body.len() ==> #[trigger] body[i] != '\u{7}',
    ensures
        detector::stripped(before + (seq!['\u{1b}', ']'] + body + seq!['\u{7}']) + after)
            == detector::stripped(before + after),
        (forall|i: int| 0 <= i < after.len() ==> #[trigger] after[i] != '\u{7}')
            ==> detector::stripped(before + seq!['\u{1b}', ']'] + after) == detector::stripped(
            before + after,
        ),
{
    let escape = seq!['\u{1b}', ']'] + body + seq!['\u{7}'];
    let rest = detector::cursors_spaced(after);
    let all = escape + rest;
    let is_body = |c: char| c != pattern::BEL && c != pattern::ESC;
    let n = body.len() as int;
    assert forall|k: int| 2 <= k < n + 2 implies is_body(#[trigger] all[k]) by {
        assert(all[k] == body[k - 2]);
    }
    assert(all[n + 2] == '\u{7}');
    lemma_run_stops(all, 2, n + 2, is_body);
    assert forall|k: int| 0 <= k < escape.skip(1).len() implies #[trigger] escape.skip(1)[k]
        != '\u{1b}' by {
        assert(escape.skip(1)[k] == escape[k + 1]);
        if 2 <= k + 1 < n + 2 {
            assert(escape[k + 1] == body[k + 1 - 2]);
        }
    }
    lemma_escape_goes(before, escape, after);
    if forall|i: int| 0 <= i < after.len() ==> #[trigger] after[i] != '\u{7}' {
        let opened = seq!['\u{1b}', ']'];
        let open = opened + rest;
        lemma_no_bell_is_made(after);
        lemma_run_end_bounds(open, 2, is_body);
        let end = pattern::run_end(open, 2, is_body);
        if end < open.len() {
            assert(open[end] == rest[end - 2]);
            assert(!rest.contains(pattern::BEL));
        }
        assert(has_no_escape(opened.skip(1)));
        lemma_escape_goes(before, opened, after);
    }
}

/// The last three steps of stripping depend only on what the escapes left.
spec fn polished(t: Seq<char>) -> Seq<char> {
    let printable = pattern::substituted(t, seq![], pattern::control_matches());
    let returned = pattern::substituted(printable, detector::space(), pattern::char_matches('\r'));
    pattern::substituted(returned, detector::space(), pattern::spaces_matches())
}

/// What the escapes leave of a text without one, a character, and any text.
proof fn lemma_unescaped(before: Seq<char>, c: Seq<char>, after: Seq<char>) -> (rest: Seq<char>)
    requires
        has_no_escape(before),
        has_no_escape(c),
    ensures
        detector::stripped(before + c + after) == polished(before + (c + rest)),
        rest == pattern::substituted(
            detector::cursors_spaced(after),
            seq![],
            pattern::escape_matches(),
        ),
{
    let head = before + c;
    assert forall|i: int| 0 <= i < head.len() implies #[trigger] head[i] != '\u{1b}' by {
        if i < before.len() {
            assert(head[i] == before[i]);
        } else {
            assert(head[i] == c[i - before.len()]);
        }
    }
    lemma_escapes_pass_by(head, after, detector::space());
    lemma_escapes_pass_by(head, detector::cursors_spaced(after), seq![]);
    let rest = pattern::substituted(
        detector::cursors_spaced(after),
        seq![],
        pattern::escape_matches(),
    );
    assert(head + rest =~= before + (c + rest));
    rest
}

/// A control character other than tab, newline, return and `ESC` leaves no
/// trace.
pub proof fn law_control_characters_leave_no_trace(
    before: Seq<char>,
    control: char,
    after: Seq<char>,
)
    requires
        has_no_escape(before),
        control < ' ',
        control != '\t' && control != '\n' && control != '\r' && control != '\u{1b}',
    ensures
        detector::stripped(before + seq![control] + after) == detector::stripped(before + after),
{
    let none = Seq::<char>::empty();
    let len = pattern::control_matches();
    let rest = lemma_unescaped(before, seq![control], after);
    let same = lemma_unescaped(before, none, after);
    assert(before + none + after =~= before + after);
    assert(before + (none + rest) =~= before + rest);
    let with = seq![control] + rest;
    lemma_single_characters_settle(before, with);
    lemma_substituted_in_parts(before, with, none, len);
    lemma_single_characters_settle(before, rest);
    lemma_substituted_in_parts(before, rest, none, len);
    assert(with.skip(1) =~= rest);
    assert(len(with) == 1);
    assert(none + pattern::substituted(rest, none, len) =~= pattern::substituted(rest, none, len));
}

/// An `ESC` that begins no escape goes, and what follows it stays: one at the end,
/// or before a character that is none of `@` to `_`.
pub proof fn law_a_stray_escape_goes_alone(before: Seq<char>, after: Seq<char>)
    requires
        has_no_escape(before),
        after.len() > 0 ==> !('@' <= after[0] <= '_'),
    ensures
        detector::stripped(before + seq!['\u{1b}'] + after) == detector::stripped(before + after),
{
    let none = Seq::<char>::empty();
    let one = detector::space();
    let escape = pattern::escape_matches();
    let control = pattern::control_matches();
    let stray = seq!['\u{1b}'];
    let whole = stray + after;
    let rest = detector::cursors_spaced(after);
    assert(whole.skip(1) =~= after);
    assert(pattern::cursor_len(whole) == 0);
    assert(detector::cursors_spaced(whole) =~= stray + rest);
    assert(rest.len() > 0 ==> !('@' <= rest[0] <= '_')) by {
        if after.len() >= 2 {
            lemma_run_end_bounds(
                after,
                2,
                |c: char| pattern::is_decimal_digit(c) || c == ';',
            );
        }
    }
    let end = stray + rest;
    assert(pattern::escape_len(end) == 0);
    assert(end.skip(1) =~= rest);
    let left = pattern::substituted(rest, none, escape);
    assert(pattern::substituted(end, none, escape) =~= stray + left);
    lemma_escapes_pass_by(before, whole, one);
    lemma_escapes_pass_by(before, after, one);
    lemma_escapes_pass_by(before, end, none);
    lemma_escapes_pass_by(before, rest, none);
    assert(before + stray + after =~= before + whole);
    let with = stray + left;
    lemma_single_characters_settle(before, with);
    lemma_substituted_in_parts(before, with, none, control);
    lemma_single_characters_settle(before, left);
    lemma_substituted_in_parts(before, left, none, control);
    assert(with.skip(1) =~= left);
    assert(control(with) == 1);
    let gone = pattern::substituted(left, none, control);
    assert(none + gone =~= gone);
}

/// A carriage return is read as a space.
pub proof fn law_a_return_reads_as_a_space(before: Seq<char>, after: Seq<char>)
    requires
        has_no_escape(before),
    ensures
        detector::stripped(before + seq!['\r'] + after) == detector::stripped(
            before + seq![' '] + after,
        ),
{
    let none = Seq::<char>::empty();
    let one = detector::space();
    let control = pattern::control_matches();
    let len = pattern::char_matches('\r');
    let rest = lemma_unescaped(before, seq!['\r'], after);
    let same = lemma_unescaped(before, seq![' '], after);
    let printed = pattern::substituted(before, none, control);
    let tail = pattern::substituted(rest, none, control);
    assert forall|c: char| c == '\r' || c == ' ' implies pattern::substituted(
        before + (seq![c] + rest),
        none,
        control,
    ) == #[trigger] (printed + (seq![c] + tail)) by {
        let with = seq![c] + rest;
        lemma_single_characters_settle(before, with);
        lemma_substituted_in_parts(before, with, none, control);
        assert(control(with) == 0);
        assert(with.skip(1) =~= rest);
    }
    let returned = pattern::substituted(printed, one, len);
    let end = pattern::substituted(tail, one, len);
    assert forall|c: char| c == '\r' || c == ' ' implies pattern::substituted(
        #[trigger] (printed + (seq![c] + tail)),
        one,
        len,
    ) == returned + (one + end) by {
        let with = seq![c] + tail;
        lemma_single_characters_settle(printed, with);
        lemma_substituted_in_parts(printed, with, one, len);
        assert(with.skip(1) =~= tail);
        assert(len(with) == (if c == '\r' {
            1int
        } else {
            0
        }));
        assert(seq![c] + end =~= seq![c] + end);
    }
    assert(printed + (seq!['\r'] + tail) == pattern::substituted(
        before + (seq!['\r'] + rest),
        none,
        control,
    ));
    assert(printed + (seq![' '] + tail) == pattern::substituted(
        before + (seq![' '] + rest),
        none,
        control,
    ));
}

/// Two spaces are read as one.
pub proof fn law_two_spaces_read_as_one(before: Seq<char>, after: Seq<char>)
    requires
        has_no_escape(before),
    ensures
        detector::stripped(before + seq![' ', ' '] + after) == detector::stripped(
            before + seq![' '] + after,
        ),
{
    let none = Seq::<char>::empty();
    let one = detector::space();
    let two = seq![' ', ' '];
    let control = pattern::control_matches();
    let cr = pattern::char_matches('\r');
    let spaces = pattern::spaces_matches();
    let rest = lemma_unescaped(before, two, after);
    let same = lemma_unescaped(before, seq![' '], after);
    let a = before;
    lemma_blanks_pass_by(a, two, rest, none, control);
    lemma_blanks_pass_by(a, one, rest, none, control);
    let a = pattern::substituted(a, none, control);
    let b = pattern::substituted(rest, none, control);
    lemma_blanks_pass_by(a, two, b, one, cr);
    lemma_blanks_pass_by(a, one, b, one, cr);
    let a = pattern::substituted(a, one, cr);
    let b = pattern::substituted(b, one, cr);
    lemma_all_one_space(two);
    lemma_all_one_space(one);
    lemma_spaces_in_parts(a, two);
    lemma_spaces_in_parts(a, one);
    lemma_spaces_in_parts(a + two, b);
    lemma_spaces_in_parts(a + one, b);
    assert(a + (two + b) =~= (a + two) + b);
    assert(a + (one + b) =~= (a + one) + b);
    assert((a + two).last() == ' ' && (a + one).last() == ' ');
}

proof fn lemma_all_one_space(t: Seq<char>)
    requires
        t.len() > 0,
        forall|i: int| 0 <= i < t.len() ==> #[trigger] t[i] == ' ',
    ensures
        pattern::substituted(t, detector::space(), pattern::spaces_matches()) == detector::space(),
{
    let ok = |c: char| c == ' ';
    let n = t.len() as int;
    lemma_run_stops(t, 0, n, ok);
    assert(t.skip(n) =~= Seq::<char>::empty());
    assert(pattern::substituted(t.skip(n), detector::space(), pattern::spaces_matches())
        =~= Seq::<char>::empty());
    assert(detector::space() + Seq::<char>::empty() =~= detector::space());
}

/// Spaces are no concern of the steps that look at single characters.
proof fn lemma_blanks_pass_by(
    a: Seq<char>,
    blanks: Seq<char>,
    b: Seq<char>,
    with: Seq<char>,
    len: spec_fn(Seq<char>) -> int,
)
    requires
        len == pattern::control_matches() || len == pattern::char_matches('\r'),
        forall|i: int| 0 <= i < blanks.len() ==> #[trigger] blanks[i] == ' ',
    ensures
        pattern::substituted(a + (blanks + b), with, len) == pattern::substituted(a, with, len) + (
        blanks + pattern::substituted(b, with, len)),
{
    lemma_single_characters_settle(a, blanks + b);
    lemma_substituted_in_parts(a, blanks + b, with, len);
    lemma_single_characters_settle(blanks, b);
    lemma_substituted_in_parts(blanks, b, with, len);
    assert forall|i: int| 0 <= i < blanks.len() implies len(#[trigger] blanks.skip(i)) <= 0 by {
        assert(blanks.skip(i)[0] == blanks[i]);
    }
    lemma_nothing_to_substitute(blanks, with, len);
}

// ── which lines are read ─────────────────────────────────────────────────────

/// How many newlines there are.
pub open spec fn newlines(t: Seq<char>) -> nat
    decreases t.len(),
{
    if t.len() == 0 {
        0
    } else {
        newlines(t.drop_last()) + (if t.last() == '\n' {
            1nat
        } else {
            0
        })
    }
}

/// The last `n` lines of a text are its end: all of it where it has fewer than
/// `n` newlines, and else what follows the newline that leaves `n - 1` behind it.
/// The last 0 lines are nothing.
pub proof fn law_the_last_lines_of_a_text(t: Seq<char>, n: nat) -> (above: Seq<char>)
    ensures
        n == 0 ==> text::last_lines(t, n).len() == 0,
        n >= 1 ==> {
            &&& t == above + text::last_lines(t, n)
            &&& above.len() == 0 <==> newlines(t) < n
            &&& above.len() > 0 ==> above.last() == '\n' && newlines(text::last_lines(t, n)) == n
                - 1
        },
    decreases t.len(),
{
    let none = Seq::<char>::empty();
    if n == 0 {
        text::lemma_split_nonempty(t, '\n');
        let lines = text::split_on(t, '\n');
        assert(lines.skip(lines.len() as int) =~= Seq::<Seq<char>>::empty());
        none
    } else if t.len() == 0 {
        assert(t =~= none);
        lemma_tail_of_nothing(n);
        assert(none + none =~= none);
        none
    } else {
        let less = t.drop_last();
        let tail = text::last_lines(t, n);
        text::lemma_last_lines_step(t, n);
        if t.last() == '\n' && n == 1 {
            assert(t =~= t + tail);
            t
        } else {
            let m = if t.last() == '\n' {
                (n - 1) as nat
            } else {
                n
            };
            let above = law_the_last_lines_of_a_text(less, m);
            let short = text::last_lines(less, m);
            assert(tail == short.push(t.last()));
            assert(less.push(t.last()) =~= t);
            assert((above + short).push(t.last()) =~= above + short.push(t.last()));
            assert(tail.drop_last() =~= short);
            above
        }
    }
}

/// The lines that are read are the last 50: all of a text with fewer than 50
/// newlines, and of any other what follows its fiftieth newline from the end.
pub proof fn law_the_last_fifty_lines_are_read(raw: Seq<char>) -> (above: Seq<char>)
    ensures
        detector::stripped(raw) == above + detector::scored_tail(raw),
        above.len() == 0 <==> newlines(detector::stripped(raw)) < 50,
        above.len() > 0 ==> above.last() == '\n' && newlines(detector::scored_tail(raw)) == 49,
{
    law_the_last_lines_of_a_text(detector::stripped(raw), 50)
}

/// A raw text is judged by what is read of it, and nothing else.
pub proof fn law_a_text_is_judged_by_the_lines_that_are_read(raw: Seq<char>)
    ensures
        detector::detection_of(raw) == detector::judged(detector::scored_tail(raw)),
{
}

// ── one character for another ────────────────────────────────────────────────

/// Replacing a character puts the other text in its place, each time it stands
/// there, and leaves every other character alone.
pub proof fn law_replacing_a_character(before: Seq<char>, c: char, with: Seq<char>, after: Seq<char>)
    requires
        forall|i: int| 0 <= i < before.len() ==> #[trigger] before[i] != c,
    ensures
        pattern::substituted(before + seq![c] + after, with, pattern::char_matches(c)) == before
            + with + pattern::substituted(after, with, pattern::char_matches(c)),
        pattern::substituted(before, with, pattern::char_matches(c)) == before,
    decreases before.len(),
{
    let len = pattern::char_matches(c);
    let whole = before + seq![c] + after;
    if before.len() == 0 {
        assert(len(whole) == 1);
        assert(whole.skip(1) =~= after);
        assert(before + with =~= with);
    } else {
        let less = before.skip(1);
        assert(before[0] != c);
        assert forall|i: int| 0 <= i < less.len() implies #[trigger] less[i] != c by {
            assert(less[i] == before[i + 1]);
        }
        law_replacing_a_character(less, c, with, after);
        assert(whole.skip(1) =~= less + seq![c] + after);
        assert(len(whole) == 0);
        assert(len(before) == 0);
        let rest = pattern::substituted(after, with, len);
        assert(seq![before[0]] + (less + with + rest) =~= before + with + rest);
        assert(seq![before[0]] + less =~= before);
    }
}

}
