//! The engine, driven by events with made-up instants.

use isayes::engine::{Action, Engine};
use isayes::events::{Event, Instant};

/// `Ctrl+A`.
const CTRL_A: u8 = 0x01;
/// `Ctrl+Up` and `Ctrl+Down`.
const CTRL_UP: &[u8] = b"\x1b[1;5A";
const CTRL_DOWN: &[u8] = b"\x1b[1;5B";

/// A dialog with buttons.
const DIALOG: &str = " 1. Yes\n 2. No\n Enter to approve \n Esc to cancel\n";

/// Every instant after it is arithmetic, so nothing here waits on anything.
fn origin() -> Instant {
    Instant { nanos: 5_000_000_000 }
}

fn at(t0: Instant, ms: u64) -> Instant {
    Instant { nanos: t0.nanos + ms * 1_000_000 }
}

fn answers(actions: &[Action]) -> Vec<Vec<u8>> {
    actions
        .iter()
        .filter_map(|a| match a {
            Action::Answer(bytes) => Some(bytes.clone()),
            _ => None,
        })
        .collect()
}

fn n_answers(actions: &[Action]) -> usize {
    answers(actions).len()
}

/// Run `count` ticks 200 ms apart starting at `from_ms`, collecting actions.
fn ticks(engine: &mut Engine, t0: Instant, from_ms: u64, count: u64) -> Vec<Action> {
    (0..count)
        .flat_map(|i| engine.handle(Event::Tick(at(t0, from_ms + i * 200))))
        .collect()
}

fn out(engine: &mut Engine, t0: Instant, ms: u64, text: &str) -> Vec<Action> {
    engine.handle(Event::Output(text.as_bytes().to_vec(), at(t0, ms)))
}

/// Output is never modified, reordered, or delayed by detection: the caller
/// has already written it, and plain output produces no action at all.
#[test]
fn i1_the_engine_does_not_sit_in_the_output_path() {
    let t0 = origin();
    let mut e = Engine::new(0, t0);
    let actions = out(&mut e, t0, 1, "compiling 1 of 40\nhello world\n");
    assert!(actions.is_empty(), "acted on plain output: {actions:?}");
}

/// One dialog, one answer — however many ticks follow. This is the
/// watermark doing its job; without it the answered dialog stays in
/// the buffer and is re-detected forever.
#[test]
fn i2_one_dialog_is_answered_exactly_once() {
    let t0 = origin();
    let mut e = Engine::new(0, t0);

    assert_eq!(n_answers(&out(&mut e, t0, 1, DIALOG)), 1);

    let later = ticks(&mut e, t0, 200, 50);
    assert_eq!(n_answers(&later), 0, "the watermark did not hold");
    assert_eq!(e.approvals(), 1);
}

#[test]
fn i3_nothing_is_answered_while_auto_approve_is_off() {
    let t0 = origin();
    let mut e = Engine::new(0, t0);
    e.handle(Event::Input(vec![CTRL_A], at(t0, 1)));

    assert_eq!(n_answers(&out(&mut e, t0, 2, DIALOG)), 0);
    assert_eq!(n_answers(&ticks(&mut e, t0, 200, 50)), 0);
    assert_eq!(e.approvals(), 0);
}

/// The buffer is cumulative, so a dialog delivered in two reads scores the
/// same as one. A PTY splits wherever it likes.
#[test]
fn i4_a_dialog_split_across_two_reads_still_answers_once() {
    let t0 = origin();
    let mut e = Engine::new(0, t0);

    // Split right before the "No" button: the yes/no pair scores 5 only
    // when both halves are present, so the head alone must score nothing.
    let split = DIALOG
        .find("2.")
        .expect("the canonical dialog has two buttons");
    let (head, tail) = DIALOG.split_at(split);
    assert_eq!(
        n_answers(&out(&mut e, t0, 1, head)),
        0,
        "half a dialog answered"
    );
    assert_eq!(n_answers(&out(&mut e, t0, 2, tail)), 1);
    assert_eq!(n_answers(&ticks(&mut e, t0, 200, 20)), 0);
}

/// Volume before a dialog must not push it out of the 50-line tail.
#[test]
fn i5_noise_before_a_dialog_does_not_blind_detection() {
    let t0 = origin();
    let mut e = Engine::new(0, t0);

    let noise = "x".repeat(5_000);
    assert_eq!(n_answers(&out(&mut e, t0, 1, &noise)), 0);
    assert_eq!(n_answers(&out(&mut e, t0, 2, DIALOG)), 1);
}

/// The engine sends nothing when the detector says no.
#[test]
fn i6_plain_output_is_never_answered() {
    let t0 = origin();
    for (i, text) in [
        "Here is the code:\n```go\nfunc foo() {}\n```\n",
        "// This is a comment\n// with multiple lines\n",
        "Running: npm install\nfetching packages...\ndone\n",
        "Here's how to implement the feature. Do you want me to explain more?",
    ]
    .iter()
    .enumerate()
    {
        let mut e = Engine::new(0, t0);
        let actions = out(&mut e, t0, 1, text);
        assert_eq!(
            n_answers(&actions),
            0,
            "false positive on case {i}: {text:?}"
        );
        assert_eq!(
            n_answers(&ticks(&mut e, t0, 200, 20)),
            0,
            "case {i} on a tick"
        );
    }
}

/// A dialog that wants the word gets `yes\r`, in one write, in that order.
/// Two writes would let the child see a bare CR first and submit an empty
/// answer.
#[test]
fn i7_a_word_dialog_is_answered_with_yes_then_cr_in_one_write() {
    let t0 = origin();
    let mut e = Engine::new(0, t0);

    let actions = out(&mut e, t0, 1, "Do you want to proceed? (y/n)");
    assert_eq!(answers(&actions), vec![b"yes\r".to_vec()]);
}

#[test]
fn i7_a_button_dialog_is_answered_with_a_bare_cr() {
    let t0 = origin();
    let mut e = Engine::new(0, t0);

    let actions = out(&mut e, t0, 1, DIALOG);
    assert_eq!(answers(&actions), vec![b"\r".to_vec()]);
}

/// A failed PTY write flashes and returns. It never retries — the loop must
/// not spin on a dead child — and it must still serve the next event.
#[test]
fn i8_a_failed_write_does_not_retry_and_the_loop_keeps_serving() {
    let t0 = origin();
    let mut e = Engine::new(0, t0);
    assert_eq!(n_answers(&out(&mut e, t0, 1, DIALOG)), 1);

    let failed = e.handle(Event::AnswerFailed(at(t0, 2)));
    assert_eq!(n_answers(&failed), 0, "retried a failed write");
    assert!(matches!(
        failed.as_slice(),
        [Action::Status { colour: "31", .. }]
    ));

    // Still alive: the next tick is served and still draws a bar.
    let next = e.handle(Event::Tick(at(t0, 200)));
    assert!(next.iter().any(|a| matches!(a, Action::Status { .. })));
}

/// Cancel is "not yet", not "never": the buffer survives, so the watchdog
/// re-detects the same dialog and the countdown starts again.
#[test]
fn i9_a_cancelled_countdown_re_detects() {
    let t0 = origin();
    let mut e = Engine::new(5, t0);

    assert_eq!(
        n_answers(&out(&mut e, t0, 1, DIALOG)),
        0,
        "delay 5 answered at once"
    );

    let cancelled = e.handle(Event::Input(b"x".to_vec(), at(t0, 50)));
    assert!(matches!(
        cancelled.as_slice(),
        [Action::Status { colour: "90", .. }]
    ));
    assert!(
        !cancelled.iter().any(|a| matches!(a, Action::Forward(_))),
        "the cancelling keystroke was forwarded to the child"
    );

    // Watchdog picks it up again, and it answers five seconds after that.
    assert_eq!(n_answers(&ticks(&mut e, t0, 200, 2)), 0);
    assert_eq!(n_answers(&ticks(&mut e, t0, 5_600, 2)), 1);
}

/// A dialog that arrives after the previous one was answered gets its own
/// answer. The watermark narrows the buffer; it does not deafen the tool.
#[test]
fn i10_sequential_dialogs_each_get_their_own_answer() {
    let t0 = origin();
    let mut e = Engine::new(0, t0);

    assert_eq!(n_answers(&out(&mut e, t0, 1, DIALOG)), 1);
    assert_eq!(n_answers(&out(&mut e, t0, 100, DIALOG)), 1);
    assert_eq!(n_answers(&out(&mut e, t0, 200, DIALOG)), 1);
    assert_eq!(e.approvals(), 3);
}

/// Dialogs arriving faster than the countdown may yield fewer answers than
/// dialogs. That is correct, not a defect — the redraw after each answer
/// re-surfaces whatever is still pending. What is guaranteed: at least one
/// answer, and a loop that is still serving events afterwards.
#[test]
fn i11_overlapping_dialogs_coalesce_and_never_deadlock() {
    let t0 = origin();
    let mut e = Engine::new(1, t0);

    let mut sent = 0;
    for i in 0..8 {
        sent += n_answers(&out(&mut e, t0, 1 + i * 20, DIALOG));
    }
    sent += n_answers(&ticks(&mut e, t0, 200, 50));

    assert!(sent >= 1, "eight dialogs produced no answer at all");
    assert!(
        sent <= 8,
        "answered {sent} times for eight dialogs — the watermark is leaking"
    );

    let still_alive = e.handle(Event::Tick(at(t0, 20_000)));
    assert!(
        still_alive
            .iter()
            .any(|a| matches!(a, Action::Status { .. }))
    );
}

// ── keys ──────────────────────────────────────────────────────────────────

#[test]
fn ordinary_keystrokes_are_forwarded_verbatim() {
    let t0 = origin();
    let mut e = Engine::new(0, t0);
    let actions = e.handle(Event::Input(b"ls -la\r".to_vec(), at(t0, 1)));
    assert_eq!(actions, vec![Action::Forward(b"ls -la\r".to_vec())]);
}

#[test]
fn an_empty_read_does_nothing() {
    let t0 = origin();
    let mut e = Engine::new(0, t0);
    assert!(e.handle(Event::Input(Vec::new(), at(t0, 1))).is_empty());
}

#[test]
fn ctrl_a_is_never_forwarded() {
    let t0 = origin();
    let mut e = Engine::new(0, t0);
    let actions = e.handle(Event::Input(vec![CTRL_A], at(t0, 1)));
    assert!(!actions.iter().any(|a| matches!(a, Action::Forward(_))));
}

#[test]
fn enter_during_a_countdown_answers_now() {
    let t0 = origin();
    let mut e = Engine::new(60, t0);
    assert_eq!(n_answers(&out(&mut e, t0, 1, DIALOG)), 0);

    let actions = e.handle(Event::Input(b"\r".to_vec(), at(t0, 50)));
    assert_eq!(n_answers(&actions), 1, "Enter did not answer immediately");
}

#[test]
fn ctrl_up_and_down_move_the_delay_and_are_silent_at_the_bounds() {
    let t0 = origin();
    let mut e = Engine::new(0, t0);

    // Floor: already 0, so nothing happens and nothing is drawn.
    assert!(
        e.handle(Event::Input(CTRL_DOWN.to_vec(), at(t0, 1)))
            .is_empty()
    );

    let up = e.handle(Event::Input(CTRL_UP.to_vec(), at(t0, 2)));
    assert!(matches!(
        up.as_slice(),
        [Action::Status { colour: "36", .. }]
    ));

    // And they are not forwarded to the child.
    assert!(!up.iter().any(|a| matches!(a, Action::Forward(_))));
}

#[test]
fn the_delay_keys_are_ignored_while_a_countdown_runs() {
    let t0 = origin();
    let mut e = Engine::new(5, t0);
    out(&mut e, t0, 1, DIALOG);

    // During a countdown, any key that is not Enter cancels.
    let actions = e.handle(Event::Input(CTRL_UP.to_vec(), at(t0, 50)));
    assert!(matches!(
        actions.as_slice(),
        [Action::Status { colour: "90", .. }]
    ));
}

#[test]
fn toggling_off_then_on_with_a_dialog_waiting_starts_a_countdown() {
    let t0 = origin();
    let mut e = Engine::new(0, t0);

    e.handle(Event::Input(vec![CTRL_A], at(t0, 1)));
    assert_eq!(n_answers(&out(&mut e, t0, 2, DIALOG)), 0);

    // Re-enabling arms it; the next tick fires it.
    assert_eq!(
        n_answers(&e.handle(Event::Input(vec![CTRL_A], at(t0, 3)))),
        0
    );
    assert_eq!(n_answers(&ticks(&mut e, t0, 200, 1)), 1);
}

// ── status ───────────────────────────────────────────────────────────────

#[test]
fn the_countdown_rounds_seconds_up() {
    let t0 = origin();
    let mut e = Engine::new(3, t0);
    out(&mut e, t0, 0, DIALOG);

    // 2.4 s left reads as 3, not 2: the bar never shows the same number
    // twice or reaches 0 before firing.
    let actions = ticks(&mut e, t0, 600, 1);
    let text = actions
        .iter()
        .find_map(|a| match a {
            Action::Status { text, .. } => Some(text.clone()),
            _ => None,
        })
        .expect("a tick always draws the bar");
    assert!(text.contains("in 3s"), "got {text:?}");
}

#[test]
fn the_bar_says_off_when_it_is_off() {
    let t0 = origin();
    let mut e = Engine::new(7, t0);
    e.handle(Event::Input(vec![CTRL_A], at(t0, 1)));

    // Past the flash, the steady text returns.
    let actions = ticks(&mut e, t0, 2_000, 1);
    let text = actions
        .iter()
        .find_map(|a| match a {
            Action::Status { text, .. } => Some(text.clone()),
            _ => None,
        })
        .expect("a tick always draws the bar");
    assert_eq!(
        text,
        "auto-approve OFF  delay 7s  [Ctrl+A=toggle, Ctrl+↑↓=delay]"
    );
}

// ── watchdog ─────────────────────────────────────────────────────────────

/// A painted dialog emits no further bytes, so nothing re-enters detection
/// on its own. After two seconds of silence the engine shakes the tree.
#[test]
fn silence_triggers_one_rescue_redraw_and_then_backs_off() {
    let t0 = origin();
    let mut e = Engine::new(0, t0);

    let quiet = ticks(&mut e, t0, 200, 10); // 0.2 s .. 2.0 s
    let redraws = quiet
        .iter()
        .filter(|a| matches!(a, Action::ForceRedraw))
        .count();
    assert_eq!(redraws, 1, "expected exactly one rescue in the first 2 s");

    // The cooldown holds the next one off for three seconds.
    let soon = ticks(&mut e, t0, 2_200, 5);
    assert_eq!(
        soon.iter()
            .filter(|a| matches!(a, Action::ForceRedraw))
            .count(),
        0
    );
}

// ── exit ─────────────────────────────────────────────────────────────────

#[test]
fn a_fatal_signal_exits_with_128_plus_the_signal() {
    let t0 = origin();
    let mut e = Engine::new(0, t0);
    assert_eq!(e.handle(Event::Terminate(2)), vec![Action::Exit(130)]);
}

/// The caller reaps the child and propagates its status, so the engine has
/// nothing to add.
#[test]
fn eof_is_the_callers_business() {
    let t0 = origin();
    let mut e = Engine::new(0, t0);
    assert!(e.handle(Event::Eof).is_empty());
}

// ── more of the same ─────────────────────────────────────────────────────────

fn bar(actions: &[Action]) -> (String, &'static str) {
    match actions.last() {
        Some(Action::Status { text, colour }) => (text.clone(), *colour),
        other => panic!("expected a bar, got {other:?}"),
    }
}

#[test]
fn a_new_engine_clamps_its_delay() {
    let t0 = origin();
    let mut e = Engine::new(200, t0);
    let (text, colour) = bar(&e.handle(Event::Winch(t0)));
    assert_eq!(
        text,
        "auto-approve ON  0 approved  delay 60s  [Ctrl+A=toggle, Ctrl+↑↓=delay]"
    );
    assert_eq!(colour, "2");
    // At the cap the key is silent.
    assert!(e.handle(Event::Input(CTRL_UP.to_vec(), at(t0, 1))).is_empty());
}

#[test]
fn an_answer_is_three_actions_in_order() {
    let t0 = origin();
    let mut e = Engine::new(0, t0);
    let actions = out(&mut e, t0, 1, DIALOG);
    assert_eq!(
        actions,
        vec![
            Action::Answer(b"\r".to_vec()),
            Action::Status {
                text: "✓ Auto-approved (#1)".to_string(),
                colour: "32"
            },
            Action::ForceRedraw,
        ]
    );
}

#[test]
fn every_flash_has_its_text_and_its_hold() {
    let t0 = origin();
    let mut e = Engine::new(3, t0);

    let up = e.handle(Event::Input(CTRL_UP.to_vec(), at(t0, 0)));
    assert_eq!(bar(&up), ("⏱  Delay: 3s → 4s".to_string(), "36"));
    assert_eq!(bar(&e.handle(Event::Winch(at(t0, 799)))).1, "36");
    assert_eq!(bar(&e.handle(Event::Winch(at(t0, 800)))).1, "2");

    let off = e.handle(Event::Input(vec![CTRL_A], at(t0, 1_000)));
    assert_eq!(bar(&off), ("✗ Auto-approve DISABLED".to_string(), "31"));
    let on = e.handle(Event::Input(vec![CTRL_A], at(t0, 1_100)));
    assert_eq!(bar(&on), ("✓ Auto-approve ENABLED".to_string(), "32"));

    let failed = e.handle(Event::AnswerFailed(at(t0, 2_000)));
    assert_eq!(bar(&failed), ("✗ Failed to send approval".to_string(), "31"));
    assert_eq!(bar(&e.handle(Event::Winch(at(t0, 2_999)))).1, "31");
    assert_eq!(bar(&e.handle(Event::Winch(at(t0, 3_000)))).1, "2");

    out(&mut e, t0, 4_000, DIALOG);
    let cancelled = e.handle(Event::Input(b"q".to_vec(), at(t0, 4_100)));
    assert_eq!(bar(&cancelled), ("✗ Cancelled".to_string(), "90"));
    assert_eq!(bar(&e.handle(Event::Winch(at(t0, 4_599)))).1, "90");
    assert_eq!(bar(&e.handle(Event::Winch(at(t0, 4_600)))).1, "2");
}

#[test]
fn a_flash_outranks_the_countdown() {
    let t0 = origin();
    let mut e = Engine::new(2, t0);
    e.handle(Event::Input(CTRL_UP.to_vec(), at(t0, 0)));
    out(&mut e, t0, 10, DIALOG);
    assert_eq!(bar(&e.handle(Event::Winch(at(t0, 20)))).1, "36");
    assert_eq!(
        bar(&e.handle(Event::Winch(at(t0, 900)))),
        (
            "⏱  Auto-approving in 3s... (Enter=now, any key=cancel, Ctrl+A=off)".to_string(),
            "33"
        )
    );
    assert!(bar(&e.handle(Event::Winch(at(t0, 3_009)))).0.contains("in 1s"));
    assert!(bar(&e.handle(Event::Winch(at(t0, 3_010)))).0.contains("in 0s"));
}

/// What one delay key did the other takes back.
#[test]
fn up_and_down_cancel_out() {
    let t0 = origin();
    let mut e = Engine::new(7, t0);
    e.handle(Event::Input(CTRL_UP.to_vec(), at(t0, 1)));
    let down = e.handle(Event::Input(CTRL_DOWN.to_vec(), at(t0, 2)));
    assert_eq!(bar(&down).0, "⏱  Delay: 8s → 7s");
}

/// A dialog with a delay is answered once, by the tick that reaches the
/// deadline.
#[test]
fn the_deadline_is_exact() {
    let t0 = origin();
    let mut e = Engine::new(1, t0);
    assert!(out(&mut e, t0, 0, DIALOG).is_empty());
    assert_eq!(n_answers(&e.handle(Event::Tick(at(t0, 999)))), 0);
    assert_eq!(n_answers(&e.handle(Event::Tick(at(t0, 1_000)))), 1);
    assert_eq!(n_answers(&ticks(&mut e, t0, 1_200, 20)), 0);
    assert_eq!(e.approvals(), 1);
}

/// What arrives while a countdown runs is kept, found afterwards, and answered
/// with the word it asks for.
#[test]
fn a_dialog_behind_the_watermark_gets_its_own_answer() {
    let t0 = origin();
    let mut e = Engine::new(1, t0);
    out(&mut e, t0, 0, DIALOG);
    out(&mut e, t0, 500, "Proceed? (y/n)");
    // The answer's bytes are decided from the whole buffer.
    assert_eq!(
        answers(&e.handle(Event::Tick(at(t0, 1_000)))),
        vec![b"yes\r".to_vec()]
    );
    assert_eq!(
        answers(&ticks(&mut e, t0, 1_200, 6)),
        vec![b"yes\r".to_vec()]
    );
    assert_eq!(e.approvals(), 2);
}

/// A due countdown and a dialog behind it are two answers of one tick at a zero
/// delay.
#[test]
fn one_tick_can_answer_twice() {
    let t0 = origin();
    let mut e = Engine::new(0, t0);
    e.handle(Event::Input(vec![CTRL_A], at(t0, 1)));
    out(&mut e, t0, 2, DIALOG);
    e.handle(Event::Input(vec![CTRL_A], at(t0, 3)));
    out(&mut e, t0, 4, DIALOG);
    assert_eq!(n_answers(&e.handle(Event::Tick(at(t0, 200)))), 2);
    assert_eq!(n_answers(&ticks(&mut e, t0, 400, 20)), 0);
}

#[test]
fn toggling_stops_a_countdown() {
    let t0 = origin();
    let mut e = Engine::new(1, t0);
    out(&mut e, t0, 0, DIALOG);
    e.handle(Event::Input(vec![CTRL_A], at(t0, 10)));
    assert_eq!(n_answers(&ticks(&mut e, t0, 200, 20)), 0);
}

/// The buffer holds the newest 10 000 bytes, no more: a dialog that they pushed
/// out is gone.
#[test]
fn the_buffer_keeps_the_newest_bytes() {
    let t0 = origin();
    let mut e = Engine::new(0, t0);
    e.handle(Event::Input(vec![CTRL_A], at(t0, 1)));
    out(&mut e, t0, 2, "Enter to approve");
    out(&mut e, t0, 3, &"x".repeat(9_984));
    e.handle(Event::Input(vec![CTRL_A], at(t0, 4)));
    assert_eq!(n_answers(&e.handle(Event::Tick(at(t0, 200)))), 1);

    e.handle(Event::Input(vec![CTRL_A], at(t0, 1_000)));
    out(&mut e, t0, 1_001, "Enter to approve");
    out(&mut e, t0, 1_002, &"x".repeat(9_985));
    e.handle(Event::Input(vec![CTRL_A], at(t0, 1_003)));
    assert_eq!(n_answers(&e.handle(Event::Tick(at(t0, 1_200)))), 0);
}

/// Bytes that are not text are no obstacle, even where the cap cuts a character
/// in two.
#[test]
fn bytes_that_are_not_text_do_not_blind_detection() {
    let t0 = origin();
    let mut e = Engine::new(0, t0);
    let mut noise = "é".repeat(4_999).into_bytes();
    noise.extend_from_slice(b"\xff\xfe\n");
    assert!(e.handle(Event::Output(noise, at(t0, 1))).is_empty());
    assert_eq!(n_answers(&out(&mut e, t0, 2, DIALOG)), 1);
}

#[test]
fn a_character_split_across_two_reads_is_assembled() {
    let t0 = origin();
    let mut e = Engine::new(0, t0);
    let dialog = "\u{2022} Yes\n\u{2022} No\n".as_bytes();
    assert!(e
        .handle(Event::Output(dialog[..9].to_vec(), at(t0, 1)))
        .is_empty());
    assert_eq!(
        n_answers(&e.handle(Event::Output(dialog[9..].to_vec(), at(t0, 2)))),
        1
    );
}

fn key(engine: &mut Engine, t0: Instant, ms: u64, bytes: &[u8]) -> Vec<Action> {
    engine.handle(Event::Input(bytes.to_vec(), at(t0, ms)))
}

/// The toggle fires in each of its encodings and is never forwarded.
#[test]
fn the_toggle_is_known_in_every_encoding() {
    let t0 = origin();
    for form in [&b"\x01"[..], &b"\x1b[27;5;97~"[..], &b"\x1b[97;5u"[..]] {
        let mut e = Engine::new(0, t0);
        assert_eq!(
            key(&mut e, t0, 1, form),
            vec![Action::Status {
                text: "✗ Auto-approve DISABLED".to_string(),
                colour: "31"
            }],
            "{form:?}"
        );
    }
    // Pressed twice in one read it leaves auto-approve as it was.
    let mut e = Engine::new(0, t0);
    assert_eq!(bar(&key(&mut e, t0, 1, b"\x01\x01")).0, "✓ Auto-approve ENABLED");
}

/// A focus report during a countdown is forwarded and does not cancel it.
#[test]
fn a_report_is_forwarded_and_never_cancels() {
    let t0 = origin();
    let mut e = Engine::new(5, t0);
    out(&mut e, t0, 1, DIALOG);
    assert_eq!(
        key(&mut e, t0, 50, b"\x1b[I"),
        vec![Action::Forward(b"\x1b[I".to_vec())]
    );
    assert_eq!(n_answers(&e.handle(Event::Tick(at(t0, 5_000)))), 0);
    assert_eq!(n_answers(&e.handle(Event::Tick(at(t0, 5_001)))), 1);
}

#[test]
fn enter_answers_in_every_encoding() {
    let t0 = origin();
    for form in [
        &b"\r"[..],
        &b"\n"[..],
        &b"\x1b[13u"[..],
        &b"\x1b[27;1;13~"[..],
        &b"\x1b[27;5;13~"[..],
    ] {
        let mut e = Engine::new(5, t0);
        out(&mut e, t0, 1, DIALOG);
        assert_eq!(answers(&key(&mut e, t0, 50, form)), vec![b"\r".to_vec()], "{form:?}");
        // With no countdown it is the child's.
        assert_eq!(key(&mut e, t0, 60, form), vec![Action::Forward(form.to_vec())]);
    }
}

/// A sequence split over reads is acted on once it is whole.
#[test]
fn a_hotkey_split_across_reads_still_fires() {
    let t0 = origin();
    let mut e = Engine::new(0, t0);
    assert!(key(&mut e, t0, 1, b"\x1b[27;5").is_empty());
    assert_eq!(bar(&key(&mut e, t0, 2, b";97~")).1, "31");
}

/// A lone `Esc` is held until the tick: forwarded then, or it cancels.
#[test]
fn a_lone_escape_is_resolved_by_the_tick() {
    let t0 = origin();
    let mut e = Engine::new(5, t0);
    assert!(key(&mut e, t0, 1, b"\x1b").is_empty());
    let tick = e.handle(Event::Tick(at(t0, 200)));
    assert_eq!(tick[0], Action::Forward(b"\x1b".to_vec()));
    assert_eq!(tick.len(), 2);

    out(&mut e, t0, 300, DIALOG);
    assert!(key(&mut e, t0, 400, b"\x1b").is_empty());
    let tick = e.handle(Event::Tick(at(t0, 5_300)));
    assert_eq!(n_answers(&tick), 0, "the key came before the deadline");
    assert_eq!(bar(&tick).0, "✗ Cancelled");
    assert_eq!(n_answers(&e.handle(Event::Tick(at(t0, 10_299)))), 0);
    assert_eq!(n_answers(&e.handle(Event::Tick(at(t0, 10_300)))), 1);
}

/// Keystrokes that follow keystrokes are one write; what stands between them
/// keeps its place.
#[test]
fn adjacent_keystrokes_are_joined() {
    let t0 = origin();
    let mut e = Engine::new(0, t0);
    assert_eq!(
        key(&mut e, t0, 1, b"ab\x1b[Acd\x1b[I"),
        vec![Action::Forward(b"ab\x1b[Acd\x1b[I".to_vec())]
    );
    let mixed = key(&mut e, t0, 2, b"ab\x1b[1;5Acd");
    assert_eq!(mixed.len(), 3);
    assert_eq!(mixed[0], Action::Forward(b"ab".to_vec()));
    assert!(matches!(mixed[1], Action::Status { colour: "36", .. }));
    assert_eq!(mixed[2], Action::Forward(b"cd".to_vec()));
    let paste = "x".repeat(10_240);
    assert_eq!(
        key(&mut e, t0, 3, paste.as_bytes()),
        vec![Action::Forward(paste.clone().into_bytes())]
    );
}

/// The first key of a read cancels, and the rest of it is the child's.
#[test]
fn a_cancelling_read_keeps_what_follows() {
    let t0 = origin();
    let mut e = Engine::new(5, t0);
    out(&mut e, t0, 1, DIALOG);
    let actions = key(&mut e, t0, 50, b"xyz");
    assert_eq!(actions.len(), 2);
    assert!(matches!(actions[0], Action::Status { colour: "90", .. }));
    assert_eq!(actions[1], Action::Forward(b"yz".to_vec()));
}

/// What came after the watermark survives the answer, also where the cap dropped
/// bytes from the front meanwhile.
#[test]
fn the_cap_does_not_move_the_watermark() {
    let t0 = origin();
    let mut e = Engine::new(1, t0);
    out(&mut e, t0, 0, &("x".repeat(9_951) + DIALOG));
    out(&mut e, t0, 20, DIALOG);
    assert_eq!(n_answers(&e.handle(Event::Tick(at(t0, 1_000)))), 1);
    assert_eq!(n_answers(&e.handle(Event::Tick(at(t0, 2_000)))), 1);
    assert_eq!(e.approvals(), 2);
    assert_eq!(n_answers(&ticks(&mut e, t0, 2_200, 20)), 0);
}

/// While off, no key answers and nothing is redrawn.
#[test]
fn off_leaves_the_child_alone() {
    let t0 = origin();
    let mut e = Engine::new(0, t0);
    key(&mut e, t0, 1, b"\x01");
    let mut actions = out(&mut e, t0, 2, DIALOG);
    actions.extend(key(&mut e, t0, 3, b"\r\x1b[I\x1b[1;5A\x1b"));
    actions.extend(ticks(&mut e, t0, 200, 50));
    assert!(!actions
        .iter()
        .any(|a| matches!(a, Action::Answer(_) | Action::ForceRedraw)));
    assert_eq!(e.approvals(), 0);
}

/// The toggle key in a read answers nothing by itself; an `Enter` after it in the
/// same read is an `Enter` during the countdown that it began.
#[test]
fn a_read_with_the_toggle_in_it() {
    let t0 = origin();
    for (read, sent) in [(&b"\x01"[..], 0), (&b"\r\x01"[..], 0), (&b"\x01\r"[..], 1)] {
        let mut e = Engine::new(0, t0);
        key(&mut e, t0, 1, b"\x01");
        out(&mut e, t0, 2, DIALOG);
        assert_eq!(n_answers(&key(&mut e, t0, 3, read)), sent, "{read:?}");
    }
}

/// The same events give the same actions, whenever they are handled.
#[test]
fn the_events_alone_decide() {
    let t0 = origin();
    let events = || {
        vec![
            Event::Output(DIALOG.as_bytes().to_vec(), at(t0, 1)),
            Event::Input(b"x".to_vec(), at(t0, 50)),
            Event::Tick(at(t0, 200)),
            Event::Input(b"\x1b[13u".to_vec(), at(t0, 300)),
            Event::Tick(at(t0, 3_000)),
        ]
    };
    let mut a = Engine::new(2, t0);
    let mut b = Engine::new(2, t0);
    let first: Vec<Vec<Action>> = events().into_iter().map(|e| a.handle(e)).collect();
    let second: Vec<Vec<Action>> = events().into_iter().map(|e| b.handle(e)).collect();
    assert_eq!(first, second);
}

#[test]
fn rescues_are_three_seconds_apart() {
    let t0 = origin();
    let mut e = Engine::new(0, t0);
    assert_eq!(e.handle(Event::Tick(at(t0, 1_999))).len(), 1);
    let first = e.handle(Event::Tick(at(t0, 2_000)));
    assert_eq!(first[0], Action::ForceRedraw);
    assert_eq!(e.handle(Event::Tick(at(t0, 4_999))).len(), 1);
    assert_eq!(e.handle(Event::Tick(at(t0, 5_000)))[0], Action::ForceRedraw);
}

#[test]
fn a_signal_number_out_of_range_exits_with_1() {
    let t0 = origin();
    let mut e = Engine::new(0, t0);
    assert_eq!(e.handle(Event::Terminate(127)), vec![Action::Exit(255)]);
    assert_eq!(e.handle(Event::Terminate(128)), vec![Action::Exit(1)]);
    assert_eq!(e.handle(Event::Terminate(-129)), vec![Action::Exit(1)]);
}

#[test]
fn a_verdict_is_taken_once() {
    let t0 = origin();
    let mut e = Engine::new(5, t0);
    assert!(e.take_detection().is_none());
    out(&mut e, t0, 1, DIALOG);
    match e.take_detection() {
        Some(d) => {
            assert!(d.detected);
            assert_eq!(d.score, 10);
        }
        None => panic!("the scan left no verdict"),
    }
    assert!(e.take_detection().is_none());
}

#[test]
fn stamps() {
    let t0 = origin();
    assert_eq!(Event::Tick(t0).stamp().map(|t| t.nanos), Some(t0.nanos));
    assert!(Event::Output(Vec::new(), t0).stamp().is_some());
    assert!(Event::Input(Vec::new(), t0).stamp().is_some());
    assert!(Event::AnswerFailed(t0).stamp().is_some());
    assert!(Event::Winch(t0).stamp().is_some());
    assert!(Event::Terminate(2).stamp().is_none());
    assert!(Event::Eof.stamp().is_none());
}
