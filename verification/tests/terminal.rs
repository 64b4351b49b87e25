//! The scroll region: what builds it, what destroys it.

use isayes::terminal::{margin, remargin, MarginWatch, Terminal, PARAM_CAP, RESET_MARGIN, STATUS_ROWS};

fn clobbers(chunks: &[&[u8]]) -> bool {
    let mut watch = MarginWatch::new();
    chunks.iter().fold(false, |acc, c| acc | watch.feed(c))
}

#[test]
fn margin_reserves_the_bottom_rows() {
    assert_eq!(margin(24), b"\x1b[1;23r");
    assert_eq!(margin(50), b"\x1b[1;49r");
}

/// A terminal too short to split still gets a valid region rather than
/// `ESC[1;0r`, which is malformed and which some terminals act on anyway.
#[test]
fn margin_never_emits_a_zero_row_region() {
    assert_eq!(margin(1), b"\x1b[1;1r");
    assert_eq!(margin(0), b"\x1b[1;1r");
    assert_eq!(margin(STATUS_ROWS), b"\x1b[1;1r");
}

#[test]
fn reset_margin_is_the_full_height_form() {
    assert_eq!(&RESET_MARGIN, b"\x1b[r");
}

/// Setting a region homes the cursor, so the mid-stream form has to put it
/// back or the child's next byte lands at the top-left.
#[test]
fn remargin_restores_the_cursor_around_the_region() {
    assert_eq!(remargin(24), b"\x1b7\x1b[1;23r\x1b8");
}

// ── the triggers ────────────────────────────────────────────────

#[test]
fn entering_or_leaving_the_alternate_screen_clobbers_the_margin() {
    assert!(clobbers(&[b"\x1b[?1049h"]));
    assert!(clobbers(&[b"\x1b[?1049l"]));
}

/// A DECSET may carry several private modes at once and applies each. The
/// alt screen is entered either way, so membership is the test, not
/// equality against the whole parameter string.
#[test]
fn a_combined_decset_containing_1049_clobbers_the_margin() {
    assert!(clobbers(&[b"\x1b[?1049;1006h"]));
    assert!(clobbers(&[b"\x1b[?1006;1049h"]));
    assert!(clobbers(&[b"\x1b[?25;1049;2004l"]));
}

/// The pre-1049 spellings. Anything built against an older termcap still
/// emits these.
#[test]
fn the_legacy_alternate_screen_forms_clobber_the_margin() {
    assert!(clobbers(&[b"\x1b[?1047h"]));
    assert!(clobbers(&[b"\x1b[?47h"]));
}

/// A child's first eight bytes, as they come: a full-height reset
/// wrapped in DECSC/DECRC. It destroys a margin set before the child
/// started, which is why ours is applied after.
#[test]
fn the_childs_startup_margin_reset_is_caught() {
    assert!(clobbers(&[b"\x1b7\x1b[r\x1b8"]));
}

#[test]
fn the_child_setting_a_region_of_its_own_clobbers_the_margin() {
    assert!(clobbers(&[b"\x1b[1;40r"]));
}

#[test]
fn a_soft_or_hard_reset_clobbers_the_margin() {
    assert!(clobbers(&[b"\x1b[!p"]));
    assert!(clobbers(&[b"\x1bc"]));
}

// ── what must not fire ───────────────────────────────────────────────────

/// A false positive costs a `remargin` write in the middle of the child's
/// paint. Cheap, but not free, and on every colour change it would be
/// neither.
#[test]
fn ordinary_output_leaves_the_margin_alone() {
    assert!(!clobbers(&[b"Do you want to proceed?\n 1. Yes\n 2. No\n"]));
    assert!(!clobbers(&[b"\x1b[32mgreen\x1b[0m \x1b[1mbold\x1b[0m"]));
    assert!(!clobbers(&[b"\x1b[2J\x1b[H\x1b[10;20H\x1b[K"]));
    assert!(!clobbers(&[b"\x1b[?25l\x1b[?25h"]), "cursor hide/show");
    assert!(!clobbers(&[b"\x1b]0;a title\x07"]), "OSC title");
}

/// Everything else a child turns on at startup.
/// None of it touches the margins and all of it is frequent.
#[test]
fn the_childs_other_startup_sequences_leave_the_margin_alone() {
    assert!(!clobbers(&[b"\x1b[?2004h"]), "bracketed paste");
    assert!(!clobbers(&[b"\x1b[?1004h"]), "focus reporting");
    assert!(!clobbers(&[b"\x1b[?2031h"]), "theme notifications");
    assert!(!clobbers(&[b"\x1b[>4;2m"]), "modifyOtherKeys");
    assert!(!clobbers(&[b"\x1b[>1u\x1b[<u"]), "kitty keyboard");
    assert!(!clobbers(&[b"\x1b[>0q"]), "XTVERSION query");
    assert!(!clobbers(&[b"\x1b[c"]), "primary DA query");
}

#[test]
fn other_private_modes_leave_the_margin_alone() {
    assert!(!clobbers(&[b"\x1b[?1000h"]), "mouse reporting");
    assert!(!clobbers(&[b"\x1b[4h"]), "insert mode");
    // These contain the digits without being the modes.
    assert!(!clobbers(&[b"\x1b[?10490h"]));
    assert!(!clobbers(&[b"\x1b[?471h"]));
}

/// Three finals that look like triggers and are not: `p` without `!`,
/// `r` with the private marker (XTRESTORE), `r` with an intermediate
/// (DECCARA).
#[test]
fn near_miss_finals_leave_the_margin_alone() {
    assert!(!clobbers(&[b"\x1b[0p"]), "p without the ! intermediate");
    assert!(!clobbers(&[b"\x1b[?2r"]), "XTRESTORE, not DECSTBM");
    assert!(!clobbers(&[b"\x1b[1;2;3;4$r"]), "DECCARA, not DECSTBM");
}

// ── split across reads ───────────────────────────────────────────────────

/// A PTY read boundary lands wherever it lands. This is why the scanner is
/// a state machine and not a `contains` over the chunk.
#[test]
fn a_sequence_split_across_two_reads_is_still_caught() {
    assert!(clobbers(&[b"\x1b[?10", b"49h"]));
    assert!(clobbers(&[b"\x1b", b"[?1049h"]));
    assert!(clobbers(&[b"\x1b[?1049", b"h"]));
    assert!(clobbers(&[b"\x1b", b"c"]));
    assert!(clobbers(&[b"\x1b[", b"!", b"p"]));
}

/// Byte at a time is the worst case the boundary can produce.
#[test]
fn a_sequence_split_at_every_byte_is_still_caught() {
    for seq in [
        &b"\x1b[?1049h"[..],
        &b"\x1b[?1049;1006h"[..],
        &b"\x1b[!p"[..],
        &b"\x1b[1;40r"[..],
        &b"\x1bc"[..],
    ] {
        let chunks: Vec<&[u8]> = seq.chunks(1).collect();
        assert!(clobbers(&chunks), "missed {seq:?} split byte-at-a-time");
    }
}

// ── robustness against garbage ───────────────────────────────────────────

/// A real terminal treats ESC as an unconditional restart. A truncated CSI
/// immediately followed by a trigger — routine when the child echoes
/// binary or half a frame — must not swallow the trigger.
#[test]
fn an_escape_inside_a_csi_restarts_the_sequence() {
    assert!(clobbers(&[b"\x1b[38;5\x1b[?1049h"]));
    assert!(clobbers(&[b"\x1b[1;2;3\x1bc"]));
}

/// C0 and DEL inside a CSI are executed or ignored by a real terminal,
/// which then keeps parsing. NUL padding and stray BEL are common in
/// truncated tool output.
#[test]
fn a_control_byte_inside_a_csi_does_not_abort_it() {
    assert!(clobbers(&[b"\x1b[?1049\x00h"]));
    assert!(clobbers(&[b"\x1b[?1049\x07h"]));
    assert!(clobbers(&[b"\x1b[?1049\x7fh"]));
}

/// An unterminated CSI in binary output must not grow the parameter buffer
/// without limit inside a long-lived wrapper process.
#[test]
fn an_unterminated_csi_cannot_grow_the_parameter_buffer() {
    let mut watch = MarginWatch::new();
    let mut garbage = vec![0x1B, b'['];
    garbage.extend(std::iter::repeat_n(b'1', 10_000));
    assert!(!watch.feed(&garbage));
    assert!(watch.params().len() <= PARAM_CAP);
    // And it still works afterwards.
    assert!(watch.feed(b"\x1b[?1049h"));
}

/// The machine must not stay armed after a sequence ends, or the next
/// ordinary `r` in prose would read as a `DECSTBM`.
#[test]
fn the_scanner_returns_to_ground_after_a_sequence() {
    let mut watch = MarginWatch::new();
    assert!(watch.feed(b"\x1b[?1049h"));
    assert!(!watch.feed(b"regular text with an r in it"));
}

#[test]
fn a_malformed_sequence_does_not_wedge_the_scanner() {
    let mut watch = MarginWatch::new();
    assert!(!watch.feed(b"\x1bZ"));
    assert!(watch.feed(b"\x1b[?1049h"));
}

/// The whole chunk is scanned, not abandoned at the first hit, so state is
/// correct for the next one.
#[test]
fn a_trigger_after_a_trigger_in_one_chunk_leaves_ground_state() {
    let mut watch = MarginWatch::new();
    assert!(watch.feed(b"\x1b[?1049h text \x1b[!p more"));
    assert!(!watch.feed(b"plain"));
}

// ── the terminal's bytes ─────────────────────────────────────────────────────

#[test]
fn starting_clears_the_screen_and_takes_the_region() {
    let terminal = Terminal::acquire(80, 24);
    assert_eq!(terminal.start(), b"\x1b[2J\x1b[H\x1b[1;23r");
    assert_eq!(terminal.width(), 80);
    assert_eq!(terminal.pty_rows(), 23);
}

#[test]
fn a_terminal_too_short_still_has_a_row_for_the_child() {
    assert_eq!(Terminal::acquire(80, 1).pty_rows(), 1);
    assert_eq!(Terminal::acquire(80, 0).pty_rows(), 1);
    assert_eq!(Terminal::acquire(80, 2).pty_rows(), 1);
    assert_eq!(Terminal::acquire(80, u16::MAX).pty_rows(), u16::MAX - 1);
}

#[test]
fn the_bar_is_drawn_on_the_last_row_with_the_cursor_put_back() {
    let terminal = Terminal::acquire(80, 24);
    assert_eq!(
        terminal.draw_status("on ✓", "32"),
        "\x1b7\x1b[24;1H\x1b[K\x1b(B\x1b[32mon ✓\x1b[0m\x1b8".as_bytes()
    );
    assert!(Terminal::acquire(80, 0).draw_status("on", "32").is_empty());
}

#[test]
fn releasing_hands_the_full_height_back() {
    assert_eq!(Terminal::acquire(80, 24).release(), b"\x1b[r\x1b[24;1H\x1b[K");
    assert_eq!(Terminal::acquire(80, 0).release(), b"\x1b[r");
}

#[test]
fn a_new_size_moves_the_region() {
    let mut terminal = Terminal::acquire(80, 24);
    terminal.refresh_size(100, 50);
    assert_eq!(terminal.width(), 100);
    assert_eq!(terminal.apply_margin(), b"\x1b7\x1b[1;49r\x1b8");
}

#[test]
fn passing_output_through_asks_for_the_region_back() {
    let mut terminal = Terminal::acquire(80, 24);
    assert_eq!(terminal.pass_through(b"text\x1b[?10"), None);
    assert_eq!(
        terminal.pass_through(b"49h"),
        Some(b"\x1b7\x1b[1;23r\x1b8".to_vec())
    );
    assert_eq!(terminal.pass_through(b"more text"), None);
}

/// A cut anywhere in a stream with one trigger changes nothing.
#[test]
fn cuts_do_not_matter() {
    let stream = b"a\x1b[32mb\x1b[?1049hc\x1b[r";
    for cut in 0..stream.len() {
        let mut watch = MarginWatch::default();
        let first = watch.feed(&stream[..cut]);
        let second = watch.feed(&stream[cut..]);
        assert!(first || second, "cut at {cut}");
    }
}

/// After an `ESC` a scanner in the middle of anything answers as a new one does.
#[test]
fn an_escape_makes_scanners_alike() {
    for start in [&b""[..], &b"\x1b"[..], &b"\x1b[?10"[..], &b"\x1b[!"[..], &b"\x1b[1;2"[..]] {
        let mut w = MarginWatch::new();
        let mut v = MarginWatch::new();
        assert!(!w.feed(start));
        assert!(!w.feed(b"\x1b"));
        assert!(!v.feed(b"\x1b"));
        for byte in b"[?1049h[r\x1bcp\x1b[!p\x1b[5r" {
            assert_eq!(w.feed(&[*byte]), v.feed(&[*byte]), "{start:?}");
        }
    }
}
