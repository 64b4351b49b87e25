//! Splitting the user's bytes into keys, hotkeys and reports.

use isayes::input::{is_enter, Hotkey, InputParser, Unit};

fn units(chunks: &[&[u8]]) -> Vec<Unit> {
    let mut parser = InputParser::new();
    let mut out = Vec::new();
    for chunk in chunks {
        out.extend(parser.feed(chunk));
    }
    out.extend(parser.flush());
    out
}

fn one(bytes: &[u8]) -> Unit {
    let mut got = units(&[bytes]);
    assert_eq!(
        got.len(),
        1,
        "expected one unit from {bytes:?}, got {got:?}"
    );
    got.remove(0)
}

// ── hotkeys, in all three encodings ────────────────────────────────

#[test]
fn ctrl_a_raw() {
    assert_eq!(one(b"\x01"), Unit::Hotkey(Hotkey::Toggle));
}

/// `modifyOtherKeys=2`, which the child turns on at startup. Without this
/// arm the toggle is dead on every terminal that honours it.
#[test]
fn ctrl_a_modify_other_keys() {
    assert_eq!(one(b"\x1b[27;5;97~"), Unit::Hotkey(Hotkey::Toggle));
    assert_eq!(one(b"\x1b[27;5;65~"), Unit::Hotkey(Hotkey::Toggle));
}

/// Kitty keyboard protocol, also turned on at startup.
#[test]
fn ctrl_a_kitty() {
    assert_eq!(one(b"\x1b[97;5u"), Unit::Hotkey(Hotkey::Toggle));
}

/// Enter stays a key — it is the child's unless a countdown is running,
/// which the parser does not know about. `is_enter` is how the engine asks.
#[test]
fn enter_is_recognised_in_every_encoding_but_stays_a_key() {
    for form in [
        &b"\r"[..],
        &b"\n"[..],
        &b"\x1b[13u"[..],
        &b"\x1b[27;1;13~"[..],
    ] {
        let unit = one(form);
        assert!(unit.is_enter(), "{form:?} was not recognised as Enter");
        assert!(unit.bytes().is_some(), "{form:?} must still be forwardable");
    }
    assert!(!one(b"a").is_enter());
    assert!(!one(b"\x1b[A").is_enter());
}

#[test]
fn ctrl_arrows_change_the_delay() {
    assert_eq!(one(b"\x1b[1;5A"), Unit::Hotkey(Hotkey::DelayUp));
    assert_eq!(one(b"\x1b[1;5B"), Unit::Hotkey(Hotkey::DelayDown));
    // Ctrl+Shift is still Ctrl.
    assert_eq!(one(b"\x1b[1;6A"), Unit::Hotkey(Hotkey::DelayUp));
}

/// Plain arrows are the child's business — they move its selection.
#[test]
fn unmodified_arrows_are_ordinary_keys() {
    assert_eq!(one(b"\x1b[A"), Unit::Key(b"\x1b[A".to_vec()));
    assert_eq!(one(b"\x1b[B"), Unit::Key(b"\x1b[B".to_vec()));
    assert_eq!(one(b"\x1bOA"), Unit::Key(b"\x1bOA".to_vec()));
    // Shift+Up: a modifier, but not Ctrl.
    assert_eq!(one(b"\x1b[1;2A"), Unit::Key(b"\x1b[1;2A".to_vec()));
}

/// `a` is not `Ctrl+A`, in any encoding.
#[test]
fn an_unmodified_key_is_not_the_hotkey() {
    assert_eq!(one(b"a"), Unit::Key(b"a".to_vec()));
    assert_eq!(one(b"\x1b[97;1u"), Unit::Key(b"\x1b[97;1u".to_vec()));
}

// ── reports: forwarded, never a cancel ─────────────────────────────

/// The sharp one. Clicking away from the window during a countdown must not
/// cancel the approval, and the child asked for these events.
#[test]
fn focus_events_are_reports() {
    assert_eq!(one(b"\x1b[I"), Unit::Report(b"\x1b[I".to_vec()));
    assert_eq!(one(b"\x1b[O"), Unit::Report(b"\x1b[O".to_vec()));
}

#[test]
fn paste_markers_are_reports_and_the_paste_itself_is_not() {
    let got = units(&[b"\x1b[200~hi\x1b[201~"]);
    assert_eq!(
        got,
        vec![
            Unit::Report(b"\x1b[200~".to_vec()),
            Unit::Key(b"h".to_vec()),
            Unit::Key(b"i".to_vec()),
            Unit::Report(b"\x1b[201~".to_vec()),
        ]
    );
}

/// Replies to the two queries the child makes at startup. Swallowing one
/// leaves the child waiting for an answer that never comes.
#[test]
fn query_replies_are_reports() {
    assert_eq!(
        one(b"\x1b[?62;1;6c"),
        Unit::Report(b"\x1b[?62;1;6c".to_vec())
    );
    assert_eq!(
        one(b"\x1bP>|WezTerm\x1b\\"),
        Unit::Report(b"\x1bP>|WezTerm\x1b\\".to_vec())
    );
    assert_eq!(one(b"\x1b[?997;1n"), Unit::Report(b"\x1b[?997;1n".to_vec()));
    assert_eq!(one(b"\x1b[12;40R"), Unit::Report(b"\x1b[12;40R".to_vec()));
}

/// A kitty *key* is `ESC[97;5u`; the kitty *flags reply* is `ESC[?1u`. The
/// private marker is the only thing telling them apart.
#[test]
fn the_kitty_flags_reply_is_a_report_not_a_key() {
    assert_eq!(one(b"\x1b[?1u"), Unit::Report(b"\x1b[?1u".to_vec()));
}

// ── split reads ──────────────────────────────────────────────────────────

#[test]
fn a_sequence_split_across_reads_is_assembled() {
    assert_eq!(
        units(&[b"\x1b[27;5", b";97~"]),
        vec![Unit::Hotkey(Hotkey::Toggle)]
    );
    assert_eq!(
        units(&[b"\x1b", b"[1;5A"]),
        vec![Unit::Hotkey(Hotkey::DelayUp)]
    );
    assert_eq!(
        units(&[b"\x1b[2", b"0", b"0~"]),
        vec![Unit::Report(b"\x1b[200~".to_vec())]
    );
}

#[test]
fn a_sequence_split_at_every_byte_is_assembled() {
    for seq in [&b"\x1b[97;5u"[..], &b"\x1b[27;5;97~"[..], &b"\x1b[1;5B"[..]] {
        let chunks: Vec<&[u8]> = seq.chunks(1).collect();
        let got = units(&chunks);
        assert!(
            matches!(got.as_slice(), [Unit::Hotkey(_)]),
            "byte-at-a-time {seq:?} gave {got:?}"
        );
    }
}

// ── the lone Esc problem ───────────────────────────────────────────

/// `ESC` alone is indistinguishable from the start of `ESC[A` until more
/// bytes arrive or they do not. It is held, then resolved on flush.
#[test]
fn a_lone_escape_is_held_then_resolved_as_a_key() {
    let mut parser = InputParser::new();
    assert!(parser.feed(b"\x1b").is_empty());
    assert!(parser.is_pending());
    assert_eq!(parser.flush(), vec![Unit::Key(b"\x1b".to_vec())]);
    assert!(!parser.is_pending());
}

#[test]
fn escape_then_a_real_sequence_yields_both() {
    assert_eq!(
        units(&[b"\x1b\x1b[1;5A"]),
        vec![Unit::Key(b"\x1b".to_vec()), Unit::Hotkey(Hotkey::DelayUp)]
    );
}

#[test]
fn nothing_pending_means_nothing_to_flush() {
    let mut parser = InputParser::new();
    assert_eq!(parser.feed(b"abc").len(), 3);
    assert!(!parser.is_pending());
    assert!(parser.flush().is_empty());
}

// ── ordinary typing ──────────────────────────────────────────────────────

#[test]
fn typing_is_one_unit_per_byte_and_all_forwardable() {
    let got = units(&[b"ls -la"]);
    assert_eq!(got.len(), 6);
    assert!(got.iter().all(|u| u.bytes().is_some()));
}

#[test]
fn a_hotkey_is_never_forwarded() {
    assert_eq!(Unit::Hotkey(Hotkey::Toggle).bytes(), None);
}

#[test]
fn alt_x_is_a_two_byte_key() {
    assert_eq!(one(b"\x1bx"), Unit::Key(b"\x1bx".to_vec()));
}

// ── robustness ───────────────────────────────────────────────────────────

/// An unterminated string sequence must not grow the buffer without limit
/// inside a long-lived process.
#[test]
fn an_unterminated_sequence_is_bounded_and_recovers() {
    let mut parser = InputParser::new();
    let mut garbage = vec![0x1B, b']'];
    garbage.extend(std::iter::repeat_n(b'x', 4_000));
    let out = parser.feed(&garbage);
    assert!(!out.is_empty(), "the buffer was never handed back");
    assert_eq!(parser.feed(b"\x01"), vec![Unit::Hotkey(Hotkey::Toggle)]);
}

#[test]
fn an_escape_inside_a_csi_restarts_it() {
    assert_eq!(
        units(&[b"\x1b[1;\x1b[1;5A"]),
        vec![
            Unit::Key(b"\x1b[1;".to_vec()),
            Unit::Hotkey(Hotkey::DelayUp)
        ]
    );
}

// ── chunks ───────────────────────────────────────────────────────────────────

/// Every byte comes out again, in order, whatever it is and however it is cut.
#[test]
fn no_byte_is_lost() {
    let input = b"a\x1b[A\x1b]0;t\x07\x1b[I\x1bxb\x1b[12;40R\x1b[";
    for cut in 0..input.len() {
        let got = units(&[&input[..cut], &input[cut..]]);
        assert_eq!(got, units(&[input]), "cut at {cut}");
        let bytes: Vec<u8> = got
            .iter()
            .flat_map(|u| u.bytes().unwrap_or_default().to_vec())
            .collect();
        assert_eq!(bytes, input);
    }
}

#[test]
fn enter_by_its_bytes() {
    for form in [
        &b"\r"[..],
        &b"\n"[..],
        &b"\x1b[13u"[..],
        &b"\x1b[27;1;13~"[..],
        &b"\x1b[27;5;13~"[..],
    ] {
        assert!(is_enter(form), "{form:?}");
    }
    for form in [&b""[..], &b"\r\n"[..], &b"\x1b[13;5u"[..], &b"x"[..]] {
        assert!(!is_enter(form), "{form:?}");
    }
    // A report is not the key, whatever its bytes.
    assert!(!Unit::Report(b"\r".to_vec()).is_enter());
    assert!(!Unit::Hotkey(Hotkey::Toggle).is_enter());
}

#[test]
fn a_string_sequence_ends_with_a_bell_or_a_terminator() {
    assert_eq!(
        units(&[b"\x1b]11;rgb:0/0/0\x07x"]),
        vec![
            Unit::Report(b"\x1b]11;rgb:0/0/0\x07".to_vec()),
            Unit::Key(b"x".to_vec())
        ]
    );
    assert_eq!(
        units(&[b"\x1b_G", b"i=1", b"\x1b", b"\\x"]),
        vec![
            Unit::Report(b"\x1b_Gi=1\x1b\\".to_vec()),
            Unit::Key(b"x".to_vec())
        ]
    );
}

#[test]
fn a_default_parser_is_a_new_one() {
    let mut parser = InputParser::default();
    assert!(!parser.is_pending());
    assert_eq!(parser.feed(b"x"), vec![Unit::Key(b"x".to_vec())]);
}

/// An empty parameter is 0, in first place too.
#[test]
fn a_leading_empty_parameter_counts() {
    assert_eq!(one(b"\x1b[;5A"), Unit::Hotkey(Hotkey::DelayUp));
    assert_eq!(one(b"\x1b[;2A"), Unit::Key(b"\x1b[;2A".to_vec()));
    assert_eq!(one(b"\x1b[1;;5A"), Unit::Key(b"\x1b[1;;5A".to_vec()));
}

/// At most two units per byte, each of 1 to 1024 bytes.
#[test]
fn what_comes_out_is_bounded() {
    let mut parser = InputParser::new();
    let mut garbage = vec![0x1B, b']'];
    garbage.extend(std::iter::repeat_n(b'x', 5_000));
    garbage.extend(b"\x1b\x1b[1;5A\x1b[200~\x07");
    for byte in garbage {
        let out = parser.feed(&[byte]);
        assert!(out.len() <= 2);
        for unit in out {
            if let Some(bytes) = unit.bytes() {
                assert!((1..=1_024).contains(&bytes.len()));
            }
        }
    }
}
