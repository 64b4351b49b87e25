//! The real terminal and the PTY's size.
//!
//! What is here computes: the scroll-region sequences, the scanner that decides
//! when the region has been destroyed and must be re-applied, and the bytes that
//! the wrapper writes to take the terminal, draw its bar and hand the terminal
//! back. Writing them is the caller's work.

use vstd::prelude::*;

use crate::text;
use crate::text::{push_decimal, same_bytes, split_bytes};

verus! {

/// The bottom rows the wrapper owns; the child gets the rest.
///
/// Rows, not pixels: a terminal is a cell grid. The constant exists so a second
/// row is a one-line change rather than a rewrite.
pub const STATUS_ROWS: u16 = 1;

/// `DECSTBM` restoring the full-height scroll region: `ESC[r`.
///
/// Teardown writes this on every exit path. A leftover margin leaves the user's
/// shell rendering into a box, which looks like the shell broke.
pub const RESET_MARGIN: [u8; 3] = [0x1B, 0x5B, 0x72];

/// A CSI carries at most this many parameter bytes before the rest are dropped:
/// the defence against an unterminated CSI in binary output growing a buffer
/// without limit. Real sequences are a dozen bytes at most.
pub const PARAM_CAP: usize = 64;

/// `ESC[1;`, the beginning of a scroll region from the first row on.
pub const REGION_FROM_TOP: [u8; 4] = [0x1B, 0x5B, 0x31, 0x3B];

/// `ESC 7`: save the cursor.
pub const SAVE_CURSOR: [u8; 2] = [0x1B, 0x37];

/// `ESC 8`: restore the cursor.
pub const RESTORE_CURSOR: [u8; 2] = [0x1B, 0x38];

/// `ESC[2J ESC[H`: clear the screen and home the cursor.
pub const CLEAR_SCREEN: [u8; 7] = [0x1B, 0x5B, 0x32, 0x4A, 0x1B, 0x5B, 0x48];

/// `ESC[`, the beginning of a jump to a row.
pub const CSI: [u8; 2] = [0x1B, 0x5B];

/// `;1H ESC[K`: to the row's first column, and clear the row.
pub const COLUMN_ONE_CLEAR: [u8; 6] = [0x3B, 0x31, 0x48, 0x1B, 0x5B, 0x4B];

/// `ESC(B`: the ASCII character set, so a child that switched to line-drawing
/// does not turn the bar into boxes.
pub const ASCII_CHARSET: [u8; 3] = [0x1B, 0x28, 0x42];

/// `ESC[0m`: plain text.
pub const PLAIN: [u8; 4] = [0x1B, 0x5B, 0x30, 0x6D];

/// `1049`, the alternate screen.
pub const ALT_SCREEN: [u8; 4] = [0x31, 0x30, 0x34, 0x39];

/// `1047`, the alternate screen as older termcaps spell it.
pub const ALT_SCREEN_1047: [u8; 4] = [0x31, 0x30, 0x34, 0x37];

/// `47`, the oldest spelling.
pub const ALT_SCREEN_47: [u8; 2] = [0x34, 0x37];

// ── the scroll region ────────────────────────────────────────────────────────

/// The rows the child gets in a terminal this tall: all but ours, never zero.
pub open spec fn child_rows(height: int) -> int {
    if height - STATUS_ROWS >= 1 {
        height - STATUS_ROWS
    } else {
        1
    }
}

/// `ESC[1;<rows>r`.
pub open spec fn margin_bytes(height: int) -> Seq<u8> {
    REGION_FROM_TOP@ + text::decimal(child_rows(height) as nat) + seq!['r' as u8]
}

/// [`margin_bytes`] between a cursor save and a cursor restore.
pub open spec fn remargin_bytes(height: int) -> Seq<u8> {
    SAVE_CURSOR@ + margin_bytes(height) + RESTORE_CURSOR@
}

/// `a` followed by `b`.
fn append(a: &mut Vec<u8>, b: &[u8])
    ensures
        final(a)@ == old(a)@ + b@,
{
    a.extend_from_slice(b);
    assert(a@ =~= old(a)@ + b@);
}

/// The rows the child gets in a terminal this tall.
fn rows_for_child(height: u16) -> (rows: u16)
    ensures
        rows == child_rows(height as int),
{
    if height > STATUS_ROWS {
        height - STATUS_ROWS
    } else {
        1
    }
}

/// `DECSTBM` for a terminal this tall: scrolling confined to
/// `1 ..= height - STATUS_ROWS`.
///
/// This is the mechanism that makes the reservation *physical*. Sizing the PTY
/// short is not enough: a `winsize` is advisory, the child's bytes still reach
/// the real terminal, and one scroll past the bottom takes the bar with it.
///
/// **Setting a region homes the cursor.** At startup that is free. Mid-stream it
/// is not, which is what [`remargin`] is for.
#[must_use]
pub fn margin(height: u16) -> (bytes: Vec<u8>)
    ensures
        bytes@ == margin_bytes(height as int),
{
    let mut out: Vec<u8> = Vec::new();
    append(&mut out, &REGION_FROM_TOP);
    push_decimal(&mut out, rows_for_child(height));
    out.push('r' as u8);
    assert(out@ =~= margin_bytes(height as int));
    out
}

/// [`margin`] wrapped in `DECSC`/`DECRC`, for re-applying mid-stream.
///
/// The bare form homes the cursor, so re-asserting it in the middle of the
/// child's paint would leave every subsequent byte landing at the top-left until
/// the next repaint.
#[must_use]
pub fn remargin(height: u16) -> (bytes: Vec<u8>)
    ensures
        bytes@ == remargin_bytes(height as int),
{
    let mut out: Vec<u8> = Vec::new();
    append(&mut out, &SAVE_CURSOR);
    append(&mut out, margin(height).as_slice());
    append(&mut out, &RESTORE_CURSOR);
    assert(out@ =~= remargin_bytes(height as int));
    out
}

// ── the scanner: the model ───────────────────────────────────────────────────

/// Where in a sequence the scanner stands.
#[derive(Debug, Clone, Copy, PartialEq, Eq, Structural)]
pub enum State {
    /// Between sequences.
    Ground,
    /// After an `ESC`.
    Escape,
    /// After `ESC [`.
    Csi,
}

/// A [`MarginWatch`] as plain values.
pub struct WatchView {
    pub state: State,
    pub params: Seq<u8>,
    pub private: bool,
    pub bang: bool,
    pub other_intermediate: bool,
}

/// `want` is one of the `;`-separated parameters.
pub open spec fn lists(params: Seq<u8>, want: Seq<u8>) -> bool {
    text::split_on(params, ';' as u8).contains(want)
}

/// One of the parameters is an alternate screen. A legal `DECSET` combines
/// several modes, so this is membership, not equality.
pub open spec fn lists_alt_screen(params: Seq<u8>) -> bool {
    lists(params, ALT_SCREEN@) || lists(params, ALT_SCREEN_1047@) || lists(params, ALT_SCREEN_47@)
}

impl WatchView {
    /// The scanner between sequences, before it has read anything.
    pub open spec fn fresh() -> WatchView {
        WatchView {
            state: State::Ground,
            params: Seq::empty(),
            private: false,
            bang: false,
            other_intermediate: false,
        }
    }

    /// The same scanner in another state.
    pub open spec fn in_state(self, state: State) -> WatchView {
        WatchView { state, ..self }
    }

    /// A CSI with these parameters and markers that ends in `final_byte`
    /// destroys the scroll region.
    pub open spec fn clobbers(self, final_byte: u8) -> bool {
        if final_byte == 'r' as u8 {
            // DECSTBM: neither `CSI ? Pm r` (XTRESTORE) nor `CSI … $ r`
            // (DECCARA).
            !self.private && !self.bang && !self.other_intermediate
        } else if final_byte == 'h' as u8 || final_byte == 'l' as u8 {
            // DECSET/DECRST of an alternate screen, which has its own margins.
            self.private && lists_alt_screen(self.params)
        } else {
            // DECSTR, a soft reset.
            final_byte == 'p' as u8 && self.bang
        }
    }

    /// One byte inside a CSI.
    pub open spec fn advanced_csi(self, byte: u8) -> (WatchView, bool) {
        if 0x30 <= byte <= 0x3F {
            if byte == '?' as u8 && self.params.len() == 0 {
                (WatchView { private: true, ..self }, false)
            } else if self.params.len() < PARAM_CAP {
                (WatchView { params: self.params.push(byte), ..self }, false)
            } else {
                (self, false)
            }
        } else if byte == '!' as u8 {
            (WatchView { bang: true, ..self }, false)
        } else if 0x20 <= byte <= 0x2F {
            (WatchView { other_intermediate: true, ..self }, false)
        } else if 0x40 <= byte <= 0x7E {
            (self.in_state(State::Ground), self.clobbers(byte))
        } else {
            // Control characters and DEL: a real terminal executes or ignores
            // them and keeps parsing the sequence.
            (self, false)
        }
    }

    /// One byte: the scanner after it, and whether it completed something that
    /// destroys the scroll region.
    pub open spec fn stepped(self, byte: u8) -> (WatchView, bool) {
        if byte == 0x1B {
            // Unconditional in every state: a real terminal abandons whatever
            // it was parsing and starts a new sequence.
            (self.in_state(State::Escape), false)
        } else {
            match self.state {
                State::Ground => (self, false),
                State::Escape => if byte == 'c' as u8 {
                    (self.in_state(State::Ground), true)
                } else if byte == '[' as u8 {
                    (WatchView::fresh().in_state(State::Csi), false)
                } else {
                    (self.in_state(State::Ground), false)
                },
                State::Csi => self.advanced_csi(byte),
            }
        }
    }

    /// A whole chunk: the scanner after it, and whether anything in it destroyed
    /// the scroll region.
    pub open spec fn fed(self, chunk: Seq<u8>) -> (WatchView, bool)
        decreases chunk.len(),
    {
        if chunk.len() == 0 {
            (self, false)
        } else {
            let (w, before) = self.fed(chunk.drop_last());
            let (v, now) = w.stepped(chunk.last());
            (v, before || now)
        }
    }

    /// What holds of a scanner at every read boundary.
    pub open spec fn well_formed(self) -> bool {
        self.params.len() <= PARAM_CAP
    }
}

// ── the scanner ──────────────────────────────────────────────────────────────

/// Watches the child's output for anything that destroys the scroll region.
///
/// A margin is not state a wrapper sets once: the alternate screen, the child's
/// own `DECSTBM` and the two resets clear it. The stream is inspected, never
/// rewritten.
///
/// It is a byte-level state machine rather than a `contains`, because an escape
/// sequence can be split across two PTY reads at any point. The machine *is* the
/// carry.
///
/// Known limit: there is no string state, so the body of an OSC is scanned as
/// ordinary text. The cost of being wrong is one [`remargin`].
#[derive(Debug)]
pub struct MarginWatch {
    state: State,
    /// Parameter bytes of the CSI being read, `0x30..=0x3F`, capped.
    params: Vec<u8>,
    /// `?`: a private-mode sequence. `DECSTBM` is never private; `XTRESTORE`
    /// always is, and must not be mistaken for it.
    private: bool,
    /// `!` intermediate: what makes `p` a soft reset rather than anything else.
    bang: bool,
    /// Any other intermediate, e.g. `$` in `DECCARA`.
    other_intermediate: bool,
}

impl View for MarginWatch {
    type V = WatchView;

    closed spec fn view(&self) -> WatchView {
        WatchView {
            state: self.state,
            params: self.params@,
            private: self.private,
            bang: self.bang,
            other_intermediate: self.other_intermediate,
        }
    }
}

impl MarginWatch {
    /// A scanner sitting in the ground state, mid-sequence in nothing.
    #[must_use]
    pub fn new() -> (watch: Self)
        ensures
            watch@ == WatchView::fresh(),
    {
        MarginWatch {
            state: State::Ground,
            params: Vec::new(),
            private: false,
            bang: false,
            other_intermediate: false,
        }
    }

    /// The parameter bytes read so far of the sequence being read.
    #[must_use]
    pub fn params(&self) -> (params: &[u8])
        ensures
            params@ == self@.params,
    {
        self.params.as_slice()
    }

    /// Feed one chunk of child output. `true` if the scroll region is gone and
    /// the caller must re-apply [`remargin`].
    ///
    /// Reports at most once per chunk: the caller re-applies once either way,
    /// and the whole chunk is scanned regardless to keep the machine's state
    /// correct for the next one.
    #[must_use]
    pub fn feed(&mut self, chunk: &[u8]) -> (clobbered: bool)
        ensures
            (final(self)@, clobbered) == old(self)@.fed(chunk@),
            old(self)@.well_formed() ==> final(self)@.well_formed(),
    {
        let mut clobbered: bool = false;
        let mut i: usize = 0;
        assert(chunk@.take(0) =~= Seq::<u8>::empty());
        while i < chunk.len()
            invariant
                i <= chunk.len(),
                (self@, clobbered) == old(self)@.fed(chunk@.take(i as int)),
            decreases chunk.len() - i,
        {
            assert(chunk@.take(i + 1).drop_last() =~= chunk@.take(i as int));
            // In Ground the only interesting byte is ESC.
            if self.state != State::Ground || chunk[i] == 0x1B {
                let now: bool = self.step(chunk[i]);
                clobbered = clobbered || now;
            }
            i = i + 1;
        }
        assert(chunk@.take(i as int) =~= chunk@);
        proof {
            if old(self)@.well_formed() {
                lemma_watch_fed_well_formed(old(self)@, chunk@);
            }
        }
        clobbered
    }

    fn step(&mut self, byte: u8) -> (clobbered: bool)
        ensures
            (final(self)@, clobbered) == old(self)@.stepped(byte),
            byte == 0x1B ==> !clobbered && alike(final(self)@, WatchView::fresh().stepped(0x1B).0),
    {
        if byte == 0x1B {
            self.state = State::Escape;
            return false;
        }
        match self.state {
            State::Ground => false,
            State::Escape => {
                if byte == 'c' as u8 {
                    // RIS: a hard reset takes the margins with everything else.
                    self.state = State::Ground;
                    true
                } else if byte == '[' as u8 {
                    self.state = State::Csi;
                    self.params.clear();
                    self.private = false;
                    self.bang = false;
                    self.other_intermediate = false;
                    false
                } else {
                    self.state = State::Ground;
                    false
                }
            },
            State::Csi => self.step_csi(byte),
        }
    }

    fn step_csi(&mut self, byte: u8) -> (clobbered: bool)
        ensures
            (final(self)@, clobbered) == old(self)@.advanced_csi(byte),
    {
        if 0x30 <= byte && byte <= 0x3F {
            if byte == '?' as u8 && self.params.len() == 0 {
                self.private = true;
            } else if self.params.len() < PARAM_CAP {
                self.params.push(byte);
            }
            false
        } else if byte == '!' as u8 {
            self.bang = true;
            false
        } else if 0x20 <= byte && byte <= 0x2F {
            self.other_intermediate = true;
            false
        } else if 0x40 <= byte && byte <= 0x7E {
            self.state = State::Ground;
            self.is_clobbering_final(byte)
        } else {
            false
        }
    }

    fn is_clobbering_final(&self, final_byte: u8) -> (clobbers: bool)
        ensures
            clobbers == self@.clobbers(final_byte),
    {
        if final_byte == 'r' as u8 {
            !self.private && !self.bang && !self.other_intermediate
        } else if final_byte == 'h' as u8 || final_byte == 'l' as u8 {
            self.private && (self.has_param(&ALT_SCREEN) || self.has_param(&ALT_SCREEN_1047)
                || self.has_param(&ALT_SCREEN_47))
        } else {
            final_byte == 'p' as u8 && self.bang
        }
    }

    fn has_param(&self, want: &[u8]) -> (listed: bool)
        ensures
            listed == lists(self@.params, want@),
    {
        let pieces: Vec<Vec<u8>> = split_bytes(&self.params, ';' as u8);
        let ghost parts = text::split_on(self@.params, ';' as u8);
        let mut i: usize = 0;
        while i < pieces.len()
            invariant
                i <= pieces.len(),
                text::piece_views(pieces@) == parts,
                parts == text::split_on(self@.params, ';' as u8),
                forall|j: int| 0 <= j < i ==> parts[j] != want@,
            decreases pieces.len() - i,
        {
            assert(parts[i as int] == pieces@[i as int]@);
            if same_bytes(pieces[i].as_slice(), want) {
                return true;
            }
            i = i + 1;
        }
        false
    }
}

impl Default for MarginWatch {
    fn default() -> (watch: Self)
        ensures
            watch@ == WatchView::fresh(),
    {
        MarginWatch::new()
    }
}

proof fn lemma_watch_fed_well_formed(w: WatchView, chunk: Seq<u8>)
    requires
        w.well_formed(),
    ensures
        w.fed(chunk).0.well_formed(),
    decreases chunk.len(),
{
    if chunk.len() > 0 {
        lemma_watch_fed_well_formed(w, chunk.drop_last());
    }
}

// ── the wrapper's claim on the terminal ──────────────────────────────────────

/// The wrapper's claim on the real terminal: its size, the scroll region and the
/// status rows.
///
/// Every method that has something to write returns the bytes; none writes.
#[derive(Debug)]
pub struct Terminal {
    width: u16,
    height: u16,
    watch: MarginWatch,
}

/// A [`Terminal`] as plain values.
pub struct TerminalView {
    pub width: int,
    pub height: int,
    pub watch: WatchView,
}

impl View for Terminal {
    type V = TerminalView;

    closed spec fn view(&self) -> TerminalView {
        TerminalView {
            width: self.width as int,
            height: self.height as int,
            watch: self.watch@,
        }
    }
}

/// To the first column of row `row`, and clear the row.
pub open spec fn clear_row_bytes(row: int) -> Seq<u8> {
    CSI@ + text::decimal(row as nat) + COLUMN_ONE_CLEAR@
}

/// The status bar: `line` in `colour` on row `row`, the cursor put back after.
pub open spec fn bar_bytes(row: int, line: Seq<char>, colour: Seq<char>) -> Seq<u8> {
    SAVE_CURSOR@ + clear_row_bytes(row) + ASCII_CHARSET@ + CSI@ + vstd::utf8::encode_utf8(colour)
        + seq!['m' as u8] + vstd::utf8::encode_utf8(line) + PLAIN@ + RESTORE_CURSOR@
}

/// What is written to take a terminal this tall: a clear screen and the scroll
/// region.
pub open spec fn start_bytes(height: int) -> Seq<u8> {
    CLEAR_SCREEN@ + margin_bytes(height)
}

/// What is written to hand a terminal this tall back: a full-height scroll region
/// and a cleared status row.
pub open spec fn release_bytes(height: int) -> Seq<u8> {
    RESET_MARGIN@ + (if height >= 1 {
        clear_row_bytes(height)
    } else {
        Seq::<u8>::empty()
    })
}

impl Terminal {
    /// A terminal of this size. The margin is **not** applied yet: the child
    /// resets it as its first act, so [`start`](Self::start) comes after the
    /// spawn.
    #[must_use]
    pub fn acquire(width: u16, height: u16) -> (terminal: Self)
        ensures
            terminal@ == (TerminalView {
                width: width as int,
                height: height as int,
                watch: WatchView::fresh(),
            }),
    {
        Terminal { width, height, watch: MarginWatch::new() }
    }

    /// Clear the screen and take the scroll region.
    #[must_use]
    pub fn start(&self) -> (bytes: Vec<u8>)
        ensures
            bytes@ == CLEAR_SCREEN@ + margin_bytes(self@.height),
            bytes@ == start_bytes(self@.height),
    {
        let mut out: Vec<u8> = Vec::new();
        append(&mut out, &CLEAR_SCREEN);
        append(&mut out, margin(self.height).as_slice());
        assert(out@ =~= CLEAR_SCREEN@ + margin_bytes(self@.height));
        out
    }

    /// Columns. The child gets all of them; only rows are reserved.
    #[must_use]
    pub fn width(&self) -> (width: u16)
        ensures
            width == self@.width,
    {
        self.width
    }

    /// Rows the child gets: everything but ours, and never zero.
    #[must_use]
    pub fn pty_rows(&self) -> (rows: u16)
        ensures
            rows == child_rows(self@.height),
    {
        rows_for_child(self.height)
    }

    /// The size after a `SIGWINCH`.
    pub fn refresh_size(&mut self, width: u16, height: u16)
        ensures
            final(self)@ == (TerminalView {
                width: width as int,
                height: height as int,
                watch: old(self)@.watch,
            }),
    {
        self.width = width;
        self.height = height;
    }

    /// Re-apply the scroll region, cursor preserved.
    #[must_use]
    pub fn apply_margin(&self) -> (bytes: Vec<u8>)
        ensures
            bytes@ == remargin_bytes(self@.height),
    {
        remargin(self.height)
    }

    /// The re-margin scan over bytes of the child that have gone to stdout, byte
    /// for byte. What it returns, if anything, is to be written after them: the
    /// scroll region again, because the child destroyed it.
    #[must_use]
    pub fn pass_through(&mut self, bytes: &[u8]) -> (after: Option<Vec<u8>>)
        ensures
            final(self)@ == (TerminalView {
                watch: old(self)@.watch.fed(bytes@).0,
                ..old(self)@
            }),
            match after {
                Some(out) => old(self)@.watch.fed(bytes@).1 && out@ == remargin_bytes(
                    old(self)@.height,
                ),
                None => !old(self)@.watch.fed(bytes@).1,
            },
    {
        if self.watch.feed(bytes) {
            Some(self.apply_margin())
        } else {
            None
        }
    }

    /// Draw the status bar on the row the child cannot reach. Nothing when there
    /// is no row.
    #[must_use]
    pub fn draw_status(&self, line: &str, colour: &str) -> (bytes: Vec<u8>)
        ensures
            bytes@ == (if self@.height < 1 {
                Seq::<u8>::empty()
            } else {
                bar_bytes(self@.height, line@, colour@)
            }),
    {
        let mut out: Vec<u8> = Vec::new();
        if self.height < 1 {
            return out;
        }
        append(&mut out, &SAVE_CURSOR);
        append(&mut out, &CSI);
        push_decimal(&mut out, self.height);
        append(&mut out, &COLUMN_ONE_CLEAR);
        append(&mut out, &ASCII_CHARSET);
        append(&mut out, &CSI);
        append(&mut out, colour.as_bytes());
        out.push('m' as u8);
        append(&mut out, line.as_bytes());
        append(&mut out, &PLAIN);
        append(&mut out, &RESTORE_CURSOR);
        assert(out@ =~= bar_bytes(self@.height, line@, colour@));
        out
    }

    /// Hand the terminal back: full-height scroll region, cleared status row.
    #[must_use]
    pub fn release(&self) -> (bytes: Vec<u8>)
        ensures
            bytes@ == RESET_MARGIN@ + (if self@.height >= 1 {
                clear_row_bytes(self@.height)
            } else {
                Seq::<u8>::empty()
            }),
            bytes@ == release_bytes(self@.height),
    {
        let mut out: Vec<u8> = Vec::new();
        append(&mut out, &RESET_MARGIN);
        if self.height >= 1 {
            append(&mut out, &CSI);
            push_decimal(&mut out, self.height);
            append(&mut out, &COLUMN_ONE_CLEAR);
            assert(out@ =~= RESET_MARGIN@ + clear_row_bytes(self@.height));
        } else {
            assert(out@ =~= RESET_MARGIN@ + Seq::<u8>::empty());
        }
        out
    }
}

// ── laws ─────────────────────────────────────────────────────────────────────

/// The bar's row is out of the child's reach: in a terminal of at least two rows
/// the scroll region ends above it, and the child's rows and the region are the
/// same rows. The region is never empty.
pub proof fn law_the_bar_is_outside_the_region(height: int)
    requires
        height >= 0,
    ensures
        1 <= child_rows(height),
        height >= 2 ==> child_rows(height) < height,
        height >= 2 ==> child_rows(height) + 1 == height,
{
}

/// A read boundary means nothing: scanning two chunks one after the other comes
/// to the same, verdict and state, as scanning them as one.
pub proof fn law_watch_chunks_do_not_matter(w: WatchView, a: Seq<u8>, b: Seq<u8>)
    ensures
        w.fed(a + b) == ({
            let (v, first) = w.fed(a);
            let (u, second) = v.fed(b);
            (u, first || second)
        }),
    decreases b.len(),
{
    if b.len() == 0 {
        assert(a + b =~= a);
    } else {
        law_watch_chunks_do_not_matter(w, a, b.drop_last());
        assert((a + b).drop_last() =~= a + b.drop_last());
    }
}

/// Between sequences, text without an `ESC` in it changes nothing and destroys
/// nothing.
pub proof fn law_plain_text_leaves_the_margin_alone(w: WatchView, chunk: Seq<u8>)
    requires
        w.state == State::Ground,
        forall|i: int| 0 <= i < chunk.len() ==> #[trigger] chunk[i] != 0x1B,
    ensures
        w.fed(chunk) == (w, false),
    decreases chunk.len(),
{
    if chunk.len() > 0 {
        law_plain_text_leaves_the_margin_alone(w, chunk.drop_last());
    }
}

/// `ESC [`, then `body`, then `last`.
pub open spec fn csi(body: Seq<u8>, last: u8) -> Seq<u8> {
    CSI@ + body + seq![last]
}

/// Parameter bytes only.
pub open spec fn are_params(body: Seq<u8>) -> bool {
    forall|i: int| 0 <= i < body.len() ==> 0x30 <= #[trigger] body[i] <= 0x3F
}

/// The scanner after `ESC [`, whatever it was in the middle of.
pub proof fn lemma_csi_opened(w: WatchView)
    ensures
        w.fed(CSI@) == (WatchView::fresh().in_state(State::Csi), false),
{
    reveal_with_fuel(WatchView::fed, 3);
    assert(CSI@.drop_last() =~= seq![0x1Bu8]);
    assert(seq![0x1Bu8].drop_last() =~= Seq::<u8>::empty());
}

/// The scanner after `ESC [` and parameters that do not begin with `?`.
pub proof fn lemma_params_read(w: WatchView, body: Seq<u8>)
    requires
        w.state == State::Csi,
        w.params.len() == 0,
        are_params(body),
        body.len() > 0 ==> body[0] != '?' as u8,
    ensures
        w.fed(body).1 == false,
        w.fed(body).0 == (WatchView {
            params: w.fed(body).0.params,
            ..w
        }),
        body.len() <= 64 ==> w.fed(body).0.params == body,
        body.len() > 0 ==> w.fed(body).0.params.len() > 0,
    decreases body.len(),
{
    if body.len() > 0 {
        lemma_params_read(w, body.drop_last());
        assert(body.drop_last().push(body.last()) =~= body);
    } else {
        assert(body =~= w.params);
    }
}

/// The child setting a region of its own, in any form, in one read or several,
/// in the middle of whatever it was writing, destroys ours.
pub proof fn law_a_region_of_the_childs_is_caught(w: WatchView, body: Seq<u8>)
    requires
        are_params(body),
        body.len() > 0 ==> body[0] != '?' as u8,
    ensures
        w.fed(csi(body, 'r' as u8)).1,
        w.fed(csi(body, 'r' as u8)).0.state == State::Ground,
{
    lemma_csi_opened(w);
    let opened = WatchView::fresh().in_state(State::Csi);
    lemma_params_read(opened, body);
    law_watch_chunks_do_not_matter(w, CSI@, body);
    let s = csi(body, 'r' as u8);
    assert(s.drop_last() =~= CSI@ + body);
}

/// Setting or resetting private modes destroys the region exactly when an
/// alternate screen is among them, wherever in the list it stands.
pub proof fn law_alternate_screens_are_caught(w: WatchView, modes: Seq<u8>, last: u8)
    requires
        last == 'h' as u8 || last == 'l' as u8,
        are_params(modes),
        modes.len() > 0 ==> modes[0] != '?' as u8,
        modes.len() <= 64,
    ensures
        w.fed(csi(seq!['?' as u8] + modes, last)).1 == lists_alt_screen(modes),
        w.fed(csi(seq!['?' as u8] + modes, last)).0.state == State::Ground,
{
    lemma_csi_opened(w);
    let opened = WatchView::fresh().in_state(State::Csi);
    let marked = WatchView { private: true, ..opened };
    let mark = seq!['?' as u8];
    assert(mark.drop_last() =~= Seq::<u8>::empty());
    reveal_with_fuel(WatchView::fed, 2);
    assert(opened.fed(mark) == (marked, false));
    lemma_params_read(marked, modes);
    law_watch_chunks_do_not_matter(opened, mark, modes);
    law_watch_chunks_do_not_matter(w, CSI@, mark + modes);
    let s = csi(mark + modes, last);
    assert(s.drop_last() =~= CSI@ + (mark + modes));
}

/// A region restored from a saved one (`CSI ? Pm r`) is not a region set: it
/// destroys nothing.
pub proof fn law_a_private_r_is_not_a_region(w: WatchView, modes: Seq<u8>)
    requires
        are_params(modes),
        modes.len() > 0 ==> modes[0] != '?' as u8,
    ensures
        !w.fed(csi(seq!['?' as u8] + modes, 'r' as u8)).1,
{
    lemma_csi_opened(w);
    let opened = WatchView::fresh().in_state(State::Csi);
    let marked = WatchView { private: true, ..opened };
    let mark = seq!['?' as u8];
    assert(mark.drop_last() =~= Seq::<u8>::empty());
    reveal_with_fuel(WatchView::fed, 2);
    assert(opened.fed(mark) == (marked, false));
    lemma_params_read(marked, modes);
    law_watch_chunks_do_not_matter(opened, mark, modes);
    law_watch_chunks_do_not_matter(w, CSI@, mark + modes);
    let s = csi(mark + modes, 'r' as u8);
    assert(s.drop_last() =~= CSI@ + (mark + modes));
}

/// A hard or a soft reset takes the region with everything else, in the middle
/// of whatever the child was writing.
pub proof fn law_resets_are_caught(w: WatchView)
    ensures
        w.fed(seq![0x1Bu8, 'c' as u8]).1,
        w.fed(csi(seq!['!' as u8], 'p' as u8)).1,
{
    reveal_with_fuel(WatchView::fed, 3);
    assert(seq![0x1Bu8, 'c' as u8].drop_last() =~= seq![0x1Bu8]);
    assert(seq![0x1Bu8].drop_last() =~= Seq::<u8>::empty());
    lemma_csi_opened(w);
    let s = csi(seq!['!' as u8], 'p' as u8);
    assert(s.drop_last().drop_last() =~= CSI@);
    assert(s.drop_last().last() == '!' as u8);
}

/// The capped parameters stay capped, whatever the child writes.
pub proof fn law_parameters_stay_bounded(w: WatchView, chunk: Seq<u8>)
    requires
        w.well_formed(),
    ensures
        w.fed(chunk).0.params.len() <= 64,
{
    lemma_watch_fed_well_formed(w, chunk);
}

/// A control character, `DEL` or a byte of another character set inside a CSI
/// does not abort it: with or without the byte, the rest comes to the same.
pub proof fn law_a_control_byte_does_not_abort_a_csi(
    w: WatchView,
    a: Seq<u8>,
    byte: u8,
    b: Seq<u8>,
)
    requires
        w.fed(a).0.state == State::Csi,
        byte < 0x20 || byte >= 0x7F,
        byte != 0x1B,
    ensures
        w.fed(a.push(byte) + b) == w.fed(a + b),
{
    law_watch_chunks_do_not_matter(w, a.push(byte), b);
    law_watch_chunks_do_not_matter(w, a, b);
    assert(a.push(byte).drop_last() =~= a);
}

/// An `ESC` restarts: from there on the verdict does not depend on what the
/// scanner was in the middle of.
pub proof fn law_an_escape_restarts(w: WatchView, v: WatchView, rest: Seq<u8>)
    ensures
        w.fed(seq![0x1Bu8] + rest).1 == v.fed(seq![0x1Bu8] + rest).1,
        w.fed(seq![0x1Bu8] + rest).0.state == v.fed(seq![0x1Bu8] + rest).0.state,
        w.fed(seq![0x1Bu8] + rest).0.state == State::Csi ==> w.fed(seq![0x1Bu8] + rest).0
            == v.fed(seq![0x1Bu8] + rest).0,
    decreases rest.len(),
{
    let s = seq![0x1Bu8] + rest;
    if rest.len() == 0 {
        reveal_with_fuel(WatchView::fed, 2);
        assert(s.drop_last() =~= Seq::<u8>::empty());
    } else {
        law_an_escape_restarts(w, v, rest.drop_last());
        assert(s.drop_last() =~= seq![0x1Bu8] + rest.drop_last());
    }
}

/// The two scanners stand at the same place, and inside a CSI they have read the
/// same of it.
spec fn alike(w: WatchView, v: WatchView) -> bool {
    w.state == v.state && (w.state == State::Csi ==> w == v)
}

proof fn lemma_alike_stay_alike(w: WatchView, v: WatchView, rest: Seq<u8>)
    requires
        alike(w, v),
    ensures
        alike(w.fed(rest).0, v.fed(rest).0),
    decreases rest.len(),
{
    if rest.len() > 0 {
        lemma_alike_stay_alike(w, v, rest.drop_last());
    }
}

/// An `ESC` abandons whatever is being parsed, in every state: it is no trigger
/// itself, and from there on each byte is answered as a new scanner that was
/// given the `ESC` alone answers it.
pub proof fn law_after_an_escape_every_byte_is_answered_alike(
    w: WatchView,
    rest: Seq<u8>,
    byte: u8,
)
    ensures
        !w.stepped(0x1B).1,
        ({
            let v = WatchView::fresh().stepped(0x1B).0;
            w.stepped(0x1B).0.fed(rest).0.stepped(byte).1 == v.fed(rest).0.stepped(byte).1
        }),
{
    lemma_alike_stay_alike(w.stepped(0x1B).0, WatchView::fresh().stepped(0x1B).0, rest);
}

}
