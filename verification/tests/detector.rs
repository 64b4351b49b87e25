//! Stripping and scoring.

use isayes::detector::{is_prompt, judge, needs_yes, strip_ansi};

/// `needs_yes` reads the same 50 lines the score does. Scrollback that
/// mentions the word must not turn a button dialog's `\r` into `yes\r`.
#[test]
fn needs_yes_ignores_scrollback_outside_the_tail() {
    let stale = format!(
        "Type yes to confirm\n{}1. Yes\n2. No\nEnter to approve\n",
        "building\n".repeat(60)
    );
    assert!(is_prompt(&stale).detected, "the dialog itself must score");
    assert!(
        !needs_yes(&stale),
        "a `yes` 60 lines back is not this dialog's"
    );
}

/// The tail is 50 lines, so volume before a dialog must not push it out of
/// scoring range.
#[test]
fn volume_before_a_dialog_does_not_blind_the_score() {
    let noise = "x\n".repeat(5_000);
    let buffer = format!("{noise} 1. Yes\n 2. No\n Enter to approve\n Esc to cancel\n");
    assert!(is_prompt(&buffer).detected);
}

/// The 51st line back is out of range: the tail is a real bound.
#[test]
fn a_dialog_scrolled_past_the_tail_is_not_detected() {
    let dialog = " 1. Yes\n 2. No\n Enter to approve\n Esc to cancel";
    let buffer = format!("{dialog}\n{}", "x\n".repeat(60));
    assert!(!is_prompt(&buffer).detected);
}

#[test]
fn hits_are_reported_in_table_order() {
    let got = is_prompt("Permission rule\n 1. Yes\n 2. No\n Enter to approve\n Esc to cancel");
    assert_eq!(
        got.hits,
        [
            "yes_no_buttons",
            "enter_to_approve",
            "permission_rule",
            "esc_to_cancel"
        ]
    );
}

// ── stripping ────────────────────────────────────────────────────────────────

#[test]
fn a_cursor_movement_becomes_a_space() {
    assert_eq!(strip_ansi("Do\x1b[3Cyou"), "Do you");
    assert_eq!(strip_ansi("a\x1b[10;20Hb\x1b[Kc"), "a b c");
    // The digits of any script count as parameters.
    assert_eq!(strip_ansi("a\x1b[\u{663}\u{664}Ab"), "a b");
    // An unfinished one is no movement: only the escape character goes.
    assert_eq!(strip_ansi("a\x1b[3"), "a[3");
}

#[test]
fn other_escapes_are_removed() {
    assert_eq!(strip_ansi("\x1b[1;32mok\x1b[0m"), "ok");
    assert_eq!(strip_ansi("\x1b[?25lx\x1b[?25h"), "x");
    assert_eq!(strip_ansi("a\x1bMb\x1b\\c"), "abc");
    assert_eq!(strip_ansi("\x1b[ qx"), "x");
}

/// An operating system command goes whole, up to the bell that ends it. Of one
/// that no bell ends before the next escape, only the introducer goes.
#[test]
fn operating_system_commands_are_removed() {
    assert_eq!(strip_ansi("\x1b]0;title\x07X"), "X");
    assert_eq!(strip_ansi("a\x1b]8;;http://x\x07link\x1b]8;;\x07b"), "alinkb");
    assert_eq!(strip_ansi("a\x1b]0;two\nlines\x07b"), "ab");
    assert_eq!(strip_ansi("a\x1b]0;title"), "a0;title");
    assert_eq!(strip_ansi("a\x1b]0;t\x1b\\b\x07c"), "a0;tbc");
}

/// A command that `ESC \` ends does not run on to the bell of a later one.
#[test]
fn a_terminated_command_hides_no_dialog() {
    assert!(is_prompt("\x1b]0;t\x1b\\Enter to approve\x07").detected);
    assert!(
        is_prompt("\x1b]8;;u\x1b\\link\x1b]8;;\x1b\\\n 1. Yes\n 2. No\n\x1b]0;t\x07").detected
    );
}

#[test]
fn control_characters_go_but_tab_and_newline_stay() {
    assert_eq!(strip_ansi("a\x00b\x08c\x0bd\x1fe"), "abcde");
    assert_eq!(strip_ansi("a\tb\nc"), "a\tb\nc");
}

#[test]
fn returns_become_spaces_and_spaces_collapse() {
    assert_eq!(strip_ansi("a\r\nb"), "a \nb");
    assert_eq!(strip_ansi("a     b"), "a b");
    assert_eq!(strip_ansi("a \r b"), "a b");
    assert_eq!(strip_ansi(""), "");
}

#[test]
fn stripping_twice_is_stripping_once() {
    let raw = "\x1b[2J\x1b[H  1. Yes\r\n\x1b[33m  2. No\x1b[0m\x07  ";
    let once = strip_ansi(raw);
    assert_eq!(once, " 1. Yes \n 2. No ");
    assert_eq!(strip_ansi(&once), once);
}

#[test]
fn stripping_goes_line_by_line() {
    let a = "\x1b[1;1H one \x1b[31m\n";
    let b = "  two\x1b[0m\r";
    assert_eq!(
        strip_ansi(&format!("{a}{b}")),
        format!("{}{}", strip_ansi(a), strip_ansi(b))
    );
}

// ── scoring ──────────────────────────────────────────────────────────────────

#[test]
fn each_indicator_has_its_weight() {
    for (text, score, hit) in [
        (" 1. Yes\n 2. No", 5, "yes_no_buttons"),
        (" 1) Yes\n 3) No", 5, "yes_no_buttons"),
        ("\u{2022} Yes\n\u{2022} No", 5, "yes_no_buttons"),
        ("Enter to approve", 3, "enter_to_approve"),
        ("Enter to confirm", 3, "enter_to_approve"),
        ("Proceed? (y/n)", 3, "yn_prompt"),
        ("Permission rule", 3, "permission_rule"),
        ("Esc to cancel", 2, "esc_to_cancel"),
        ("Tab to amend", 2, "tab_to_amend"),
    ] {
        let got = is_prompt(text);
        assert_eq!(got.score, score, "{text:?}");
        assert_eq!(got.hits, [hit], "{text:?}");
    }
}

#[test]
fn all_indicators_add_up() {
    let got = judge(
        "Permission rule\n1. Yes\n2. No\nEnter to approve\nEsc to cancel\nTab to amend\n(y/n)\n",
    );
    assert!(got.detected);
    assert_eq!(got.score, 18);
    assert_eq!(got.hits.len(), 6);
}

/// Context alone is no dialog, whatever it adds up to.
#[test]
fn context_without_anything_to_answer_is_not_a_dialog() {
    let got = is_prompt("Permission rule\nEsc to cancel\nTab to amend\n");
    assert_eq!(got.score, 7);
    assert!(!got.detected);
    let none = is_prompt("nothing to see");
    assert_eq!(none.score, 0);
    assert!(none.hits.is_empty() && !none.detected);
}

#[test]
fn half_of_the_button_pair_scores_nothing() {
    assert_eq!(is_prompt(" 1. Yes\n").score, 0);
    assert_eq!(is_prompt(" 2. No\n").score, 0);
    // The number and the word may be apart, by white space only.
    assert_eq!(is_prompt("1. Yes 2.\n\u{a0} No").score, 5);
    assert_eq!(is_prompt("1. Yes 2. x No").score, 0);
}

/// The question counts at the end of the text, not further up.
#[test]
fn a_question_further_up_is_not_asked_any_more() {
    assert!(is_prompt("Proceed? (y/n) \n\n").detected);
    assert!(!is_prompt("Proceed? (y/n)\nyes\n").detected);
}

#[test]
fn the_word_is_asked_for_on_one_line() {
    assert!(needs_yes("Type 'yes' to continue"));
    assert!(needs_yes("ENTER the word YES"));
    assert!(needs_yes("Proceed? (Y/N)"));
    assert!(needs_yes("type ye\u{17f}"));
    assert!(!needs_yes("1. Yes\n2. No\nEnter to approve\n"));
    assert!(!needs_yes("Enter to approve\n1. Yes\n"));
    assert!(!needs_yes("yes, type"));
}

/// A dialog is found after output that leaves no escape open, and is lost when
/// an open escape takes its beginning in.
#[test]
fn only_an_open_escape_before_it_can_hide_a_dialog() {
    let dialog = "(y/n)";
    assert!(is_prompt(&format!("some \x1b[32mcolour\x1b[0m {dialog}")).detected);
    assert!(is_prompt(&format!("trailing spaces   {dialog}")).detected);
    assert!(!is_prompt(&format!("half\x1b[?25 {}", "Yes")).detected);
    assert!(is_prompt("Enter to approve").detected);
    assert!(!is_prompt(&format!("half\x1b[3{}", "Enter to approve")).detected);
    // A command that nothing ends takes in all up to the next bell, if there is
    // one.
    assert!(is_prompt("half\x1b]0;\nEnter to approve").detected);
    assert!(!is_prompt("half\x1b]0;\nEnter to approve\x07").detected);
    assert!(is_prompt("whole\x1b]0;t\x07\nEnter to approve\x07").detected);
}

/// What has scrolled past the tail changes nothing.
#[test]
fn scrollback_is_not_read() {
    let screen = "line\n".repeat(49) + "Enter to approve";
    let scrolled = "Permission rule\nType yes to confirm\n";
    assert_eq!(is_prompt(&format!("{scrolled}{screen}")), is_prompt(&screen));
    assert!(!needs_yes(&format!("{scrolled}{screen}")));
    // An unended command reaches down only to a bell.
    let open = "Type yes\x1b]0;t\n";
    assert_eq!(is_prompt(&format!("{open}{screen}")), is_prompt(&screen));
    assert!(!is_prompt(&format!("{open}{screen}\x07")).detected);
}
