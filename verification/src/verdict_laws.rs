//! What is a dialog and what is none, in the words that are on screen.

use vstd::prelude::*;

use crate::detector;
use crate::model;
use crate::pattern;
use crate::text;

verus! {

/// The word `w` stands in `t` at `i`, letter for letter.
pub open spec fn stands_at(t: Seq<char>, w: Seq<char>, i: int) -> bool {
    &&& 0 <= i
    &&& i + w.len() <= t.len()
    &&& forall|k: int| 0 <= k < w.len() ==> t[i + k] == #[trigger] w[k]
}

/// The word `w` stands somewhere in `t`.
pub open spec fn stands_in(t: Seq<char>, w: Seq<char>) -> bool {
    exists|i: int| #[trigger] stands_at(t, w, i)
}

/// One of the characters that Unicode counts as white space.
pub open spec fn is_blank(c: char) -> bool {
    ||| c == '\t' || c == '\n' || c == '\u{b}' || c == '\u{c}' || c == '\r'
    ||| c == ' ' || c == '\u{85}' || c == '\u{a0}' || c == '\u{1680}'
    ||| '\u{2000}' <= c <= '\u{200a}'
    ||| c == '\u{2028}' || c == '\u{2029}' || c == '\u{202f}' || c == '\u{205f}'
    ||| c == '\u{3000}'
}

/// From `from` up to `to`, nothing but white space.
pub open spec fn is_blank_between(t: Seq<char>, from: int, to: int) -> bool {
    forall|k: int| from <= k < to ==> is_blank(#[trigger] t[k])
}

/// A label that begins at `i` and whose word `No` stands at `j`: `2.`, `2)`, `3.`,
/// `3)` or a bullet, white space if any, and the word.
pub open spec fn is_no_label(t: Seq<char>, i: int, j: int) -> bool {
    &&& 0 <= i < j
    &&& stands_at(t, "No"@, j)
    &&& {
        ||| (t[i] == '2' || t[i] == '3') && i + 2 <= j && (t[i + 1] == '.' || t[i + 1] == ')')
            && is_blank_between(t, i + 2, j)
        ||| t[i] == '\u{2022}' && is_blank_between(t, i + 1, j)
    }
}

/// A word occurs at a place exactly when its letters stand there, one by one, and
/// in a text exactly when it occurs at some place of it.
pub proof fn law_a_word_occurs_where_its_letters_stand(t: Seq<char>, w: Seq<char>)
    ensures
        forall|i: int| #[trigger] stands_at(t, w, i) <==> text::occurs_at(t, w, i),
        stands_in(t, w) <==> text::occurs_in(t, w),
{
    assert forall|i: int| #[trigger] stands_at(t, w, i) <==> text::occurs_at(t, w, i) by {
        if 0 <= i && i + w.len() <= t.len() {
            let s = t.subrange(i, i + w.len());
            if stands_at(t, w, i) {
                assert(s =~= w);
            }
            if text::occurs_at(t, w, i) {
                assert forall|k: int| 0 <= k < w.len() implies t[i + k] == #[trigger] w[k] by {
                    assert(s[k] == t[i + k]);
                }
            }
        }
    }
    if stands_in(t, w) {
        let i = choose|i: int| stands_at(t, w, i);
        assert(text::occurs_at(t, w, i));
    }
    if text::occurs_in(t, w) {
        let i = choose|i: int| text::occurs_at(t, w, i);
        assert(stands_at(t, w, i));
    }
}

proof fn lemma_blanks(t: Seq<char>, from: int, to: int)
    ensures
        is_blank_between(t, from, to) <==> forall|k: int|
            from <= k < to ==> pattern::is_white_space(#[trigger] t[k]),
{
    assert forall|c: char| is_blank(c) == #[trigger] pattern::is_white_space(c) by {}
}

proof fn lemma_no_labels(t: Seq<char>)
    ensures
        pattern::shows_no_button(t) <==> exists|i: int, j: int| #[trigger] is_no_label(t, i, j),
{
    reveal_strlit("No");
    assert("No"@ =~= pattern::no_word());
    law_a_word_occurs_where_its_letters_stand(t, "No"@);
    if pattern::shows_no_button(t) {
        let i = choose|i: int| pattern::no_button_at(t, i);
        let from = if t[i] == '\u{2022}' {
            i + 1
        } else {
            i + 2
        };
        assert(pattern::no_follows(t, from));
        let j = choose|j: int|
            {
                &&& from <= j
                &&& #[trigger] text::occurs_at(t, pattern::no_word(), j)
                &&& forall|k: int| from <= k < j ==> pattern::is_white_space(#[trigger] t[k])
            };
        lemma_blanks(t, from, j);
        assert(stands_at(t, "No"@, j));
        assert(is_no_label(t, i, j));
    }
    if exists|i: int, j: int| #[trigger] is_no_label(t, i, j) {
        let (i, j) = choose|i: int, j: int| #[trigger] is_no_label(t, i, j);
        let from = if t[i] == '\u{2022}' {
            i + 1
        } else {
            i + 2
        };
        lemma_blanks(t, from, j);
        assert(text::occurs_at(t, pattern::no_word(), j));
        assert(pattern::no_follows(t, from));
        assert(pattern::no_button_at(t, i));
    }
}

proof fn lemma_ends_in_yn(t: Seq<char>)
    ensures
        pattern::ends_in_yn(t) <==> exists|i: int|
            #[trigger] stands_at(t, "(y/n)"@, i) && is_blank_between(t, i + 5, t.len() as int),
{
    reveal_strlit("(y/n)");
    assert("(y/n)"@ =~= pattern::yn());
    law_a_word_occurs_where_its_letters_stand(t, "(y/n)"@);
    if pattern::ends_in_yn(t) {
        let i = choose|i: int|
            {
                &&& #[trigger] text::occurs_at(t, pattern::yn(), i)
                &&& forall|k: int|
                    i + 5 <= k < t.len() ==> pattern::is_white_space(#[trigger] t[k])
            };
        lemma_blanks(t, i + 5, t.len() as int);
        assert(stands_at(t, "(y/n)"@, i));
    }
    if exists|i: int|
        #[trigger] stands_at(t, "(y/n)"@, i) && is_blank_between(t, i + 5, t.len() as int) {
        let i = choose|i: int|
            #[trigger] stands_at(t, "(y/n)"@, i) && is_blank_between(t, i + 5, t.len() as int);
        lemma_blanks(t, i + 5, t.len() as int);
        assert(text::occurs_at(t, pattern::yn(), i));
    }
}

proof fn lemma_names_differ()
    ensures
        "yes_no_buttons"@.len() == 14,
        "enter_to_approve"@.len() == 16,
        "yn_prompt"@.len() == 9,
        "permission_rule"@.len() == 15,
        "esc_to_cancel"@.len() == 13,
        "tab_to_amend"@.len() == 12,
{
    reveal_strlit("yes_no_buttons");
    reveal_strlit("enter_to_approve");
    reveal_strlit("yn_prompt");
    reveal_strlit("permission_rule");
    reveal_strlit("esc_to_cancel");
    reveal_strlit("tab_to_amend");
}

/// Prose is not a dialog: where none of the labels `1. Yes`, `1) Yes` and `• Yes`
/// stands, no `Enter to approve` and no `Enter to confirm`, and the text does
/// not end in `(y/n)`, nothing is detected and the score is at most 7.
pub proof fn law_prose_is_not_a_dialog(tail: Seq<char>)
    requires
        !stands_in(tail, "1. Yes"@),
        !stands_in(tail, "1) Yes"@),
        !stands_in(tail, "\u{2022} Yes"@),
        !stands_in(tail, "Enter to approve"@),
        !stands_in(tail, "Enter to confirm"@),
        !(exists|i: int|
            #[trigger] stands_at(tail, "(y/n)"@, i) && is_blank_between(
                tail,
                i + 5,
                tail.len() as int,
            )),
    ensures
        !detector::judged(tail).detected,
        detector::judged(tail).score <= 7,
        !detector::judged(tail).hits.contains("yes_no_buttons"@),
{
    law_a_word_occurs_where_its_letters_stand(tail, "1. Yes"@);
    law_a_word_occurs_where_its_letters_stand(tail, "1) Yes"@);
    law_a_word_occurs_where_its_letters_stand(tail, "\u{2022} Yes"@);
    law_a_word_occurs_where_its_letters_stand(tail, "Enter to approve"@);
    law_a_word_occurs_where_its_letters_stand(tail, "Enter to confirm"@);
    lemma_ends_in_yn(tail);
    lemma_names_differ();
}

/// An indicator is listed exactly when its words are on screen: the buttons need
/// both halves, one of the three Yes labels and a No label.
pub proof fn law_an_indicator_is_listed_for_its_words(tail: Seq<char>)
    ensures
        ({
            let hits = detector::judged(tail).hits;
            &&& hits.contains("yes_no_buttons"@) <==> (stands_in(tail, "1. Yes"@) || stands_in(
                tail,
                "1) Yes"@,
            ) || stands_in(tail, "\u{2022} Yes"@)) && exists|i: int, j: int|
                #[trigger] is_no_label(tail, i, j)
            &&& hits.contains("enter_to_approve"@) <==> stands_in(tail, "Enter to approve"@)
                || stands_in(tail, "Enter to confirm"@)
            &&& hits.contains("yn_prompt"@) <==> exists|i: int|
                #[trigger] stands_at(tail, "(y/n)"@, i) && is_blank_between(
                    tail,
                    i + 5,
                    tail.len() as int,
                )
            &&& hits.contains("permission_rule"@) <==> stands_in(tail, "Permission rule"@)
            &&& hits.contains("esc_to_cancel"@) <==> stands_in(tail, "Esc to cancel"@)
            &&& hits.contains("tab_to_amend"@) <==> stands_in(tail, "Tab to amend"@)
        }),
{
    law_a_word_occurs_where_its_letters_stand(tail, "1. Yes"@);
    law_a_word_occurs_where_its_letters_stand(tail, "1) Yes"@);
    law_a_word_occurs_where_its_letters_stand(tail, "\u{2022} Yes"@);
    law_a_word_occurs_where_its_letters_stand(tail, "Enter to approve"@);
    law_a_word_occurs_where_its_letters_stand(tail, "Enter to confirm"@);
    law_a_word_occurs_where_its_letters_stand(tail, "Permission rule"@);
    law_a_word_occurs_where_its_letters_stand(tail, "Esc to cancel"@);
    law_a_word_occurs_where_its_letters_stand(tail, "Tab to amend"@);
    lemma_no_labels(tail);
    lemma_ends_in_yn(tail);
    lemma_listed(tail);
}

/// A name is listed exactly when its indicator is there.
proof fn lemma_listed(tail: Seq<char>)
    ensures
        ({
            let hits = detector::hits_of(tail);
            &&& hits.contains("yes_no_buttons"@) <==> detector::shows_buttons(tail)
            &&& hits.contains("enter_to_approve"@) <==> detector::shows_enter_hint(tail)
            &&& hits.contains("yn_prompt"@) <==> pattern::ends_in_yn(tail)
            &&& hits.contains("permission_rule"@) <==> text::occurs_in(tail, "Permission rule"@)
            &&& hits.contains("esc_to_cancel"@) <==> text::occurs_in(tail, "Esc to cancel"@)
            &&& hits.contains("tab_to_amend"@) <==> text::occurs_in(tail, "Tab to amend"@)
        }),
{
    lemma_names_differ();
    let a = detector::named(detector::shows_buttons(tail), "yes_no_buttons"@);
    let b = detector::named(detector::shows_enter_hint(tail), "enter_to_approve"@);
    let c = detector::named(pattern::ends_in_yn(tail), "yn_prompt"@);
    let d = detector::named(text::occurs_in(tail, "Permission rule"@), "permission_rule"@);
    let e = detector::named(text::occurs_in(tail, "Esc to cancel"@), "esc_to_cancel"@);
    let f = detector::named(text::occurs_in(tail, "Tab to amend"@), "tab_to_amend"@);
    lemma_named_contains(detector::shows_buttons(tail), "yes_no_buttons"@);
    lemma_named_contains(detector::shows_enter_hint(tail), "enter_to_approve"@);
    lemma_named_contains(pattern::ends_in_yn(tail), "yn_prompt"@);
    lemma_named_contains(text::occurs_in(tail, "Permission rule"@), "permission_rule"@);
    lemma_named_contains(text::occurs_in(tail, "Esc to cancel"@), "esc_to_cancel"@);
    lemma_named_contains(text::occurs_in(tail, "Tab to amend"@), "tab_to_amend"@);
    lemma_contains_either(a, b);
    lemma_contains_either(a + b, c);
    lemma_contains_either(a + b + c, d);
    lemma_contains_either(a + b + c + d, e);
    lemma_contains_either(a + b + c + d + e, f);
}

proof fn lemma_named_contains(there: bool, name: Seq<char>)
    ensures
        forall|other: Seq<char>| #[trigger]
            detector::named(there, name).contains(other) <==> there && other == name,
{
    let list = detector::named(there, name);
    assert forall|other: Seq<char>| #[trigger] list.contains(other) <==> there && other == name by {
        if there {
            assert(list[0] == name);
        }
    }
}

proof fn lemma_contains_either(a: Seq<Seq<char>>, b: Seq<Seq<char>>)
    ensures
        forall|name: Seq<char>| #[trigger]
            (a + b).contains(name) <==> a.contains(name) || b.contains(name),
{
    assert forall|name: Seq<char>| #[trigger] (a + b).contains(name) <==> a.contains(name)
        || b.contains(name) by {
        if a.contains(name) {
            let i = choose|i: int| 0 <= i < a.len() && a[i] == name;
            assert((a + b)[i] == name);
        }
        if b.contains(name) {
            let i = choose|i: int| 0 <= i < b.len() && b[i] == name;
            assert((a + b)[a.len() + i] == name);
        }
    }
}

/// What a listed name is worth: 5 for the buttons, 3 for the hint, the question
/// and the rule, 2 for the rest.
pub open spec fn worth_of(hits: Seq<Seq<char>>, name: Seq<char>, weight: int) -> int {
    if hits.contains(name) {
        weight
    } else {
        0
    }
}

/// The score is the sum of what is listed, each name is listed at most once and
/// heaviest first, and a dialog is detected exactly when something that can be
/// answered is among them.
pub proof fn law_the_list_gives_the_score_and_the_verdict(tail: Seq<char>)
    ensures
        ({
            let d = detector::judged(tail);
            &&& d.score == worth_of(d.hits, "yes_no_buttons"@, 5) + worth_of(
                d.hits,
                "enter_to_approve"@,
                3,
            ) + worth_of(d.hits, "yn_prompt"@, 3) + worth_of(d.hits, "permission_rule"@, 3)
                + worth_of(d.hits, "esc_to_cancel"@, 2) + worth_of(d.hits, "tab_to_amend"@, 2)
            &&& d.detected <==> d.hits.contains("yes_no_buttons"@) || d.hits.contains(
                "enter_to_approve"@,
            ) || d.hits.contains("yn_prompt"@)
            &&& d.hits.len() == worth_of(d.hits, "yes_no_buttons"@, 1) + worth_of(
                d.hits,
                "enter_to_approve"@,
                1,
            ) + worth_of(d.hits, "yn_prompt"@, 1) + worth_of(d.hits, "permission_rule"@, 1)
                + worth_of(d.hits, "esc_to_cancel"@, 1) + worth_of(d.hits, "tab_to_amend"@, 1)
            &&& forall|i: int, j: int|
                0 <= i < j < d.hits.len() ==> rank(#[trigger] d.hits[i]) < rank(
                    #[trigger] d.hits[j],
                )
        }),
{
    lemma_listed(tail);
    lemma_names_differ();
}

/// The place of a name in the table; the names' lengths tell them apart.
pub open spec fn rank(name: Seq<char>) -> int {
    if name == "yes_no_buttons"@ {
        0
    } else if name == "enter_to_approve"@ {
        1
    } else if name == "yn_prompt"@ {
        2
    } else if name == "permission_rule"@ {
        3
    } else if name == "esc_to_cancel"@ {
        4
    } else {
        5
    }
}

// ── the word ─────────────────────────────────────────────────────────────────

/// The character is this lower-case letter of the words looked for, in either
/// case. The long `ſ` is an `s`.
pub open spec fn reads_as(c: char, letter: char) -> bool {
    ||| c == letter
    ||| c == 'T' && letter == 't'
    ||| c == 'Y' && letter == 'y'
    ||| c == 'P' && letter == 'p'
    ||| c == 'E' && letter == 'e'
    ||| c == 'N' && letter == 'n'
    ||| c == 'R' && letter == 'r'
    ||| (c == 'S' || c == '\u{17f}') && letter == 's'
}

/// The lower-case word `w` stands in `t` at `i`, in any mix of cases.
pub open spec fn reads_at(t: Seq<char>, w: Seq<char>, i: int) -> bool {
    &&& 0 <= i
    &&& i + w.len() <= t.len()
    &&& forall|k: int| 0 <= k < w.len() ==> reads_as(t[i + k], #[trigger] w[k])
}

/// From `from` up to `to`, no newline.
pub open spec fn is_one_line(t: Seq<char>, from: int, to: int) -> bool {
    forall|k: int| from <= k < to ==> #[trigger] t[k] != '\n'
}

/// A character of the words looked for.
spec fn is_looked_for(c: char) -> bool {
    ||| c == 't' || c == 'y' || c == 'p' || c == 'e' || c == 'n' || c == 'r' || c == 's'
    ||| c == '(' || c == '/' || c == ')'
}

proof fn lemma_letter(c: char, letter: char)
    requires
        is_looked_for(letter),
    ensures
        pattern::folded(c) == letter <==> reads_as(c, letter),
{
    if 'A' <= c <= 'Z' {
        assert(pattern::folded(c) as int == c as int + 32);
    }
}

proof fn lemma_reads(t: Seq<char>, w: Seq<char>)
    requires
        forall|k: int| 0 <= k < w.len() ==> is_looked_for(#[trigger] w[k]),
    ensures
        forall|i: int| #[trigger] reads_at(t, w, i) <==> pattern::spelled_at(t, w, i),
{
    assert forall|i: int| #[trigger] reads_at(t, w, i) <==> pattern::spelled_at(t, w, i) by {
        if pattern::spelled_at(t, w, i) {
            assert forall|k: int| 0 <= k < w.len() implies reads_as(t[i + k], #[trigger] w[k]) by {
                lemma_letter(t[i + k], w[k]);
            }
        }
        if reads_at(t, w, i) {
            assert forall|k: int| 0 <= k < w.len() implies pattern::folded(t[i + k])
                == #[trigger] w[k] by {
                lemma_letter(t[i + k], w[k]);
            }
        }
    }
}

proof fn lemma_asks_after(t: Seq<char>, first: Seq<char>)
    requires
        forall|k: int| 0 <= k < first.len() ==> is_looked_for(#[trigger] first[k]),
    ensures
        pattern::asks_after(t, first) <==> exists|i: int, j: int|
            #[trigger] reads_at(t, first, i) && #[trigger] reads_at(t, "yes"@, j) && i + first.len()
                <= j && is_one_line(t, i + first.len(), j),
{
    reveal_strlit("yes");
    assert("yes"@ =~= pattern::yes_word());
    lemma_reads(t, first);
    lemma_reads(t, "yes"@);
    if pattern::asks_after(t, first) {
        let (i, j) = choose|i: int, j: int|
            {
                &&& #[trigger] pattern::spelled_at(t, first, i)
                &&& #[trigger] pattern::spelled_at(t, pattern::yes_word(), j)
                &&& i + first.len() <= j
                &&& forall|k: int| i + first.len() <= k < j ==> #[trigger] t[k] != '\n'
            };
        assert(reads_at(t, first, i) && reads_at(t, "yes"@, j));
        assert(is_one_line(t, i + first.len(), j));
    }
    if exists|i: int, j: int|
        #[trigger] reads_at(t, first, i) && #[trigger] reads_at(t, "yes"@, j) && i + first.len()
            <= j && is_one_line(t, i + first.len(), j) {
        let (i, j) = choose|i: int, j: int|
            #[trigger] reads_at(t, first, i) && #[trigger] reads_at(t, "yes"@, j) && i + first.len()
                <= j && is_one_line(t, i + first.len(), j);
        assert(pattern::spelled_at(t, first, i));
        assert(pattern::spelled_at(t, pattern::yes_word(), j));
    }
}

/// The word is asked for exactly where, among the lines that are read, `type` or
/// `enter` is followed by `yes` on the same line, or `(y/n)` stands, in any mix
/// of cases.
pub proof fn law_when_the_word_is_asked_for(raw: Seq<char>)
    ensures
        ({
            let t = detector::scored_tail(raw);
            detector::wants_word(raw) <==> {
                ||| exists|i: int, j: int|
                    #[trigger] reads_at(t, "type"@, i) && #[trigger] reads_at(t, "yes"@, j) && i + 4
                        <= j && is_one_line(t, i + 4, j)
                ||| exists|i: int, j: int|
                    #[trigger] reads_at(t, "enter"@, i) && #[trigger] reads_at(t, "yes"@, j) && i
                        + 5 <= j && is_one_line(t, i + 5, j)
                ||| exists|i: int| #[trigger] reads_at(t, "(y/n)"@, i)
            }
        }),
{
    let t = detector::scored_tail(raw);
    reveal_strlit("type");
    reveal_strlit("enter");
    reveal_strlit("(y/n)");
    assert("type"@ =~= seq!['t', 'y', 'p', 'e']);
    assert("enter"@ =~= seq!['e', 'n', 't', 'e', 'r']);
    assert("(y/n)"@ =~= pattern::yn());
    lemma_asks_after(t, "type"@);
    lemma_asks_after(t, "enter"@);
    lemma_reads(t, "(y/n)"@);
    if exists|i: int| pattern::spelled_at(t, pattern::yn(), i) {
        let i = choose|i: int| pattern::spelled_at(t, pattern::yn(), i);
        assert(reads_at(t, "(y/n)"@, i));
    }
    if exists|i: int| #[trigger] reads_at(t, "(y/n)"@, i) {
        let i = choose|i: int| #[trigger] reads_at(t, "(y/n)"@, i);
        assert(pattern::spelled_at(t, pattern::yn(), i));
    }
}

/// A dialog that asks for nothing of the kind is answered with a bare return,
/// one that asks for the word with `yes` and the return.
pub proof fn law_buttons_get_a_bare_return(bytes: Seq<u8>)
    ensures
        ({
            let raw = text::text_of(bytes);
            let t = detector::scored_tail(raw);
            &&& !detector::wants_word(raw) ==> model::answer_to(bytes) == seq![0x0Du8]
            &&& detector::wants_word(raw) ==> model::answer_to(bytes) == seq![
                0x79u8,
                0x65,
                0x73,
                0x0D,
            ]
            &&& (forall|i: int| !#[trigger] reads_at(t, "type"@, i)) && (forall|i: int|
                !#[trigger] reads_at(t, "enter"@, i)) && (forall|i: int|
                !#[trigger] reads_at(t, "(y/n)"@, i)) ==> model::answer_to(bytes) == seq![0x0Du8]
            &&& (forall|i: int| !#[trigger] reads_at(t, "yes"@, i)) && (forall|i: int|
                !#[trigger] reads_at(t, "(y/n)"@, i)) ==> model::answer_to(bytes) == seq![0x0Du8]
        }),
{
    let raw = text::text_of(bytes);
    law_when_the_word_is_asked_for(raw);
    assert(model::ANSWER_KEY@ =~= seq![0x0Du8]);
    assert(model::ANSWER_WORD@ =~= seq![0x79u8, 0x65, 0x73, 0x0D]);
}

}
