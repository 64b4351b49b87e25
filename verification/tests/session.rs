//! The engine and the terminal together.

use isayes::events::{Event, Instant};
use isayes::session::{narrowed, Effect, Session, REDRAW_GAP};

const DIALOG: &str = " 1. Yes\n 2. No\n Enter to approve \n Esc to cancel\n";

fn at(ms: u64) -> Instant {
    Instant {
        nanos: 7_000_000_000 + ms * 1_000_000,
    }
}

fn session(delay: u8) -> Session {
    Session::new(delay, 80, 24, at(0))
}

/// One turn of the loop for a read of output: shown, then served.
fn output(session: &mut Session, ms: u64, bytes: &[u8]) -> Vec<Effect> {
    let mut effects = session.show(bytes);
    effects.extend(session.serve(Event::Output(bytes.to_vec(), at(ms))));
    effects
}

/// Showing is a step of its own, and the engine has not seen the bytes by then.
#[test]
fn output_is_shown_before_the_engine_sees_it() {
    let mut s = session(0);
    assert_eq!(
        s.show(DIALOG.as_bytes()),
        vec![Effect::Show(DIALOG.as_bytes().to_vec())]
    );
    assert_eq!(s.approvals(), 0);
    assert!(s.take_detection().is_none());
    let effects = s.serve(Event::Output(DIALOG.as_bytes().to_vec(), at(1)));
    assert_eq!(effects[0], Effect::Answer(b"\r".to_vec()));
    assert_eq!(s.approvals(), 1);
}

#[test]
fn plain_output_is_shown_and_that_is_all() {
    let mut s = session(0);
    assert_eq!(
        output(&mut s, 1, b"hello\n"),
        vec![Effect::Show(b"hello\n".to_vec())]
    );
}

/// Over many events of all kinds, stdout gets what the child wrote.
#[test]
fn output_is_never_touched() {
    let mut s = session(1);
    let mut shown: Vec<u8> = Vec::new();
    let mut written: Vec<u8> = Vec::new();
    for (i, chunk) in [
        &b"\x1b7\x1b[r\x1b8"[..],
        &b"\xff\xfe raw \x1b["[..],
        DIALOG.as_bytes(),
        &b"?1049h"[..],
        &b""[..],
    ]
    .iter()
    .enumerate()
    {
        written.extend_from_slice(chunk);
        let ms = 700 * i as u64;
        let mut effects = output(&mut s, ms, chunk);
        effects.extend(s.serve(Event::Tick(at(ms + 200))));
        effects.extend(s.serve(Event::Input(b"k".to_vec(), at(ms + 300))));
        for effect in effects {
            if let Effect::Show(bytes) = effect {
                shown.extend_from_slice(&bytes);
            }
        }
    }
    assert_eq!(shown, written);
}

#[test]
fn a_destroyed_region_comes_back_right_after_the_output() {
    let mut s = session(0);
    assert_eq!(
        output(&mut s, 1, b"\x1b[?1049h"),
        vec![
            Effect::Show(b"\x1b[?1049h".to_vec()),
            Effect::Draw(b"\x1b7\x1b[1;23r\x1b8".to_vec()),
        ]
    );
}

#[test]
fn a_dialog_is_shown_then_answered() {
    let mut s = session(0);
    let effects = output(&mut s, 1, DIALOG.as_bytes());
    assert_eq!(effects.len(), 4);
    assert_eq!(effects[0], Effect::Show(DIALOG.as_bytes().to_vec()));
    assert_eq!(effects[1], Effect::Answer(b"\r".to_vec()));
    assert_eq!(
        effects[2],
        Effect::Draw(
            "\x1b7\x1b[24;1H\x1b[K\x1b(B\x1b[32m✓ Auto-approved (#1)\x1b[0m\x1b8"
                .as_bytes()
                .to_vec()
        )
    );
    assert_eq!(effects[3], Effect::Redraw { rows: 23, cols: 80 });
    assert_eq!(s.approvals(), 1);
    assert!(s.take_detection().is_some());
    assert!(s.take_detection().is_none());
}

#[test]
fn a_failed_answer_only_draws_the_bar() {
    let mut s = session(0);
    let effects = s.serve(Event::AnswerFailed(at(1)));
    assert_eq!(effects.len(), 1);
    assert!(matches!(&effects[0], Effect::Draw(_)));
}

#[test]
fn keys_go_to_the_child() {
    let mut s = session(0);
    assert_eq!(
        s.serve(Event::Input(b"ls\r".to_vec(), at(1))),
        vec![Effect::Forward(b"ls\r".to_vec())]
    );
}

#[test]
fn a_new_size_goes_to_the_child_then_the_region_then_the_bar() {
    let mut s = session(0);
    let effects = s.resized(100, 50, at(1));
    assert_eq!(effects.len(), 3);
    assert_eq!(
        effects[0],
        Effect::Resize {
            rows: 49,
            cols: 100
        }
    );
    assert_eq!(effects[1], Effect::Draw(b"\x1b7\x1b[1;49r\x1b8".to_vec()));
    assert!(matches!(&effects[2], Effect::Draw(bar) if bar.starts_with(b"\x1b7\x1b[50;1H")));
    assert_eq!((s.width(), s.pty_rows()), (100, 49));
}

#[test]
fn the_end_of_the_child_is_reaped() {
    let mut s = session(0);
    assert_eq!(s.serve(Event::Eof), vec![Effect::Reap]);
}

#[test]
fn a_signal_quits() {
    let mut s = session(0);
    assert_eq!(s.serve(Event::Terminate(15)), vec![Effect::Quit(143)]);
}

#[test]
fn starting_and_releasing() {
    let s = session(0);
    assert_eq!(s.start(), b"\x1b[2J\x1b[H\x1b[1;23r");
    assert_eq!(s.release(), b"\x1b[r\x1b[24;1H\x1b[K");
}

#[test]
fn a_redraw_takes_one_column_away_for_a_moment() {
    assert_eq!(narrowed(23, 80), Some(79));
    assert_eq!(narrowed(2, 2), Some(1));
    assert_eq!(narrowed(1, 80), None);
    assert_eq!(narrowed(23, 1), None);
    assert_eq!(REDRAW_GAP, 50);
}
