//! Splitting stdin into units and classifying them.
//!
//! The mirror of [`crate::terminal::MarginWatch`]: the same byte-level state
//! machine, pointed at what arrives from the terminal instead of at what the
//! child emits. Pure: no I/O, no clock.
//!
//! It exists because matching raw bytes against a key table is wrong twice over:
//!
//! - The child turns on `modifyOtherKeys=2` and the Kitty keyboard protocol, so
//!   `Ctrl+A` does not arrive as `0x01` on any terminal that honours either.
//! - The child turns on focus reporting, bracketed paste and theme
//!   notifications, and queries the terminal. The replies are bytes on stdin
//!   that are not keystrokes.

use vstd::prelude::*;

use crate::text;
use crate::text::same_bytes;

verus! {

/// A sequence longer than this is not one. Bounds what is held against a
/// terminal that starts a string sequence and never terminates it.
pub const PENDING_CAP: usize = 1024;

/// A key this wrapper acts on itself. Never forwarded to the child.
#[derive(Debug, Clone, Copy, PartialEq, Eq, Structural)]
pub enum Hotkey {
    /// `Ctrl+A`: toggle auto-approve.
    Toggle,
    /// `Ctrl+Up`: one second more.
    DelayUp,
    /// `Ctrl+Down`: one second less.
    DelayDown,
}

/// One complete thing read from stdin.
#[derive(Debug, Clone, PartialEq, Eq)]
pub enum Unit {
    /// Acted on here. Never reaches the child.
    Hotkey(Hotkey),
    /// A real keystroke. Forwarded, and cancels a running countdown.
    Key(Vec<u8>),
    /// Terminal-to-application traffic: a focus event, a paste marker, a reply
    /// to something the child asked. Forwarded, and **never** cancels: the
    /// operator did not press anything.
    Report(Vec<u8>),
}

/// A [`Unit`] as plain values.
pub enum UnitView {
    Hotkey(Hotkey),
    Key(Seq<u8>),
    Report(Seq<u8>),
}

impl View for Unit {
    type V = UnitView;

    open spec fn view(&self) -> UnitView {
        match self {
            Unit::Hotkey(h) => UnitView::Hotkey(*h),
            Unit::Key(b) => UnitView::Key(b@),
            Unit::Report(b) => UnitView::Report(b@),
        }
    }
}

/// The units as plain values.
pub open spec fn unit_views(units: Seq<Unit>) -> Seq<UnitView> {
    units.map_values(|u: Unit| u@)
}

/// Where in a sequence the parser stands.
#[derive(Debug, Clone, Copy, PartialEq, Eq, Structural)]
pub enum State {
    /// Between sequences.
    Ground,
    /// After an `ESC`.
    Escape,
    /// After `ESC [`.
    Csi,
    /// `ESC O`: SS3, one byte follows. `ESC O A` is Up in application mode, and
    /// is not the same thing as `ESC [ O`, which is focus-out.
    Ss3,
    /// DCS, OSC, APC, PM or SOS: a string that runs until `ESC \` or `BEL`.
    StringSeq,
    /// Inside a string sequence, having just seen an `ESC` that may be the ST.
    StringSeqEsc,
}

/// Splits stdin into [`Unit`]s across read boundaries.
#[derive(Debug)]
pub struct InputParser {
    state: State,
    /// The sequence being assembled, `ESC` included.
    pending: Vec<u8>,
}

/// An [`InputParser`] as plain values.
pub struct ParserView {
    pub state: State,
    pub pending: Seq<u8>,
}

impl View for InputParser {
    type V = ParserView;

    closed spec fn view(&self) -> ParserView {
        ParserView { state: self.state, pending: self.pending@ }
    }
}

// ── the model: one complete CSI sequence ─────────────────────────────────────

/// An ASCII digit.
pub open spec fn is_digit(b: u8) -> bool {
    48 <= b <= 57
}

/// The number that the digits of `part` spell; other bytes are skipped.
pub open spec fn spelled_number(part: Seq<u8>) -> nat
    decreases part.len(),
{
    if part.len() == 0 {
        0
    } else if is_digit(part.last()) {
        10 * spelled_number(part.drop_last()) + (part.last() - 48) as nat
    } else {
        spelled_number(part.drop_last())
    }
}

/// One parameter: the number it spells, held at the largest `u16`.
pub open spec fn param_value(part: Seq<u8>) -> int {
    if spelled_number(part) > 65535 {
        65535
    } else {
        spelled_number(part) as int
    }
}

/// A private marker: one of `<`, `=`, `>` and `?`.
pub open spec fn is_marker(b: u8) -> bool {
    0x3C <= b <= 0x3F
}

/// A sequence body without its private marker, if it has one.
pub open spec fn unmarked(body: Seq<u8>) -> Seq<u8> {
    if body.len() > 0 && is_marker(body[0]) {
        body.skip(1)
    } else {
        body
    }
}

/// The parameters, one by one.
pub open spec fn param_values(parts: Seq<Seq<u8>>) -> Seq<int> {
    parts.map_values(|part: Seq<u8>| param_value(part))
}

/// The `;`-separated decimal parameters of a sequence body. An empty parameter
/// is 0, in first place too.
pub open spec fn params_of(body: Seq<u8>) -> Seq<int> {
    param_values(text::split_on(unmarked(body), ';' as u8))
}

/// The parameter at `i`, if there is one.
pub open spec fn param_at(params: Seq<int>, i: int) -> Option<int> {
    if 0 <= i < params.len() {
        Some(params[i])
    } else {
        None
    }
}

/// `Ctrl` is bit 2 of the modifier encoding, which is `1 + mask`.
pub open spec fn holds_ctrl(modifier: Option<int>) -> bool {
    match modifier {
        Some(m) => m >= 1 && ((m - 1) / 4) % 2 == 1,
        None => false,
    }
}

/// The letter A, in either case.
pub open spec fn is_letter_a(code: Option<int>) -> bool {
    code == Some(97int) || code == Some(65int)
}

/// The hotkey a CSI sequence with this final byte and these parameters is.
pub open spec fn hotkey_of(final_byte: u8, params: Seq<int>) -> Option<Hotkey> {
    let ctrl = holds_ctrl(param_at(params, 1));
    if final_byte == 'A' as u8 && ctrl {
        Some(Hotkey::DelayUp)
    } else if final_byte == 'B' as u8 && ctrl {
        Some(Hotkey::DelayDown)
    } else if final_byte == '~' as u8 && param_at(params, 0) == Some(27int) && is_letter_a(
        param_at(params, 2),
    ) && ctrl {
        Some(Hotkey::Toggle)
    } else if final_byte == 'u' as u8 && is_letter_a(param_at(params, 0)) && ctrl {
        Some(Hotkey::Toggle)
    } else {
        None
    }
}

/// What stands between `ESC [` and the final byte.
pub open spec fn csi_body(seq: Seq<u8>) -> Seq<u8> {
    if seq.len() >= 3 {
        seq.subrange(2, seq.len() - 1)
    } else {
        Seq::empty()
    }
}

/// The body begins with a private marker: the sequence is the terminal's, not a
/// keystroke.
pub open spec fn is_private(body: Seq<u8>) -> bool {
    body.len() > 0 && (body[0] == '?' as u8 || body[0] == '>' as u8 || body[0] == '<' as u8)
}

/// A complete CSI sequence is terminal traffic: a reply, a focus event or a
/// paste marker.
pub open spec fn is_report(seq: Seq<u8>) -> bool {
    let body = csi_body(seq);
    let first = param_at(params_of(body), 0);
    &&& seq.len() > 0
    &&& {
        ||| is_private(body)
        ||| seq.last() == 'R' as u8
        ||| seq.last() == 'n' as u8
        ||| seq.last() == 'I' as u8
        ||| seq.last() == 'O' as u8
        ||| seq.last() == '~' as u8 && (first == Some(200int) || first == Some(201int))
    }
}

/// What a complete CSI sequence is.
pub open spec fn classified(seq: Seq<u8>) -> UnitView {
    if seq.len() == 0 {
        UnitView::Key(seq)
    } else if is_report(seq) {
        UnitView::Report(seq)
    } else {
        match hotkey_of(seq.last(), params_of(csi_body(seq))) {
            Some(hotkey) => UnitView::Hotkey(hotkey),
            None => UnitView::Key(seq),
        }
    }
}

// ── the model: one byte, one chunk ───────────────────────────────────────────

/// The parser between sequences, holding nothing.
pub open spec fn at_ground() -> ParserView {
    ParserView { state: State::Ground, pending: Seq::empty() }
}

/// The parser in `state`, holding `pending`.
pub open spec fn holding(state: State, pending: Seq<u8>) -> ParserView {
    ParserView { state, pending }
}

/// The byte introduces a string that runs until a terminator: DCS, OSC, SOS, PM
/// or APC.
pub open spec fn opens_string(byte: u8) -> bool {
    byte == 'P' as u8 || byte == ']' as u8 || byte == 'X' as u8 || byte == '^' as u8 || byte
        == '_' as u8
}

/// One byte on a parser that holds less than the cap.
pub open spec fn advanced(p: ParserView, byte: u8) -> (ParserView, Seq<UnitView>) {
    let grown = p.pending.push(byte);
    match p.state {
        State::Ground => if byte == 0x1B {
            (holding(State::Escape, grown), seq![])
        } else if byte == 0x01 {
            (p, seq![UnitView::Hotkey(Hotkey::Toggle)])
        } else {
            (p, seq![UnitView::Key(seq![byte])])
        },
        State::Escape => if byte == '[' as u8 {
            (holding(State::Csi, grown), seq![])
        } else if byte == 'O' as u8 {
            (holding(State::Ss3, grown), seq![])
        } else if opens_string(byte) {
            (holding(State::StringSeq, grown), seq![])
        } else if byte == 0x1B {
            // The first one was a real `Esc` press.
            (holding(State::Escape, seq![byte]), seq![UnitView::Key(p.pending)])
        } else {
            (at_ground(), seq![UnitView::Key(grown)])
        },
        State::Csi => if byte == 0x1B {
            (holding(State::Escape, seq![byte]), seq![UnitView::Key(p.pending)])
        } else if 0x40 <= byte <= 0x7E {
            (at_ground(), seq![classified(grown)])
        } else {
            (holding(State::Csi, grown), seq![])
        },
        State::Ss3 => (at_ground(), seq![UnitView::Key(grown)]),
        State::StringSeq => if byte == 0x07 {
            (at_ground(), seq![UnitView::Report(grown)])
        } else if byte == 0x1B {
            (holding(State::StringSeqEsc, grown), seq![])
        } else {
            (holding(State::StringSeq, grown), seq![])
        },
        State::StringSeqEsc => if byte == '\\' as u8 {
            (at_ground(), seq![UnitView::Report(grown)])
        } else {
            (holding(State::StringSeq, grown), seq![])
        },
    }
}

/// One byte. A parser that holds as much as the cap gives it back first: that
/// was no sequence.
pub open spec fn stepped(p: ParserView, byte: u8) -> (ParserView, Seq<UnitView>) {
    if p.pending.len() >= PENDING_CAP {
        let (q, units) = advanced(at_ground(), byte);
        (q, seq![UnitView::Key(p.pending)] + units)
    } else {
        advanced(p, byte)
    }
}

/// A whole chunk, byte by byte.
pub open spec fn fed(p: ParserView, chunk: Seq<u8>) -> (ParserView, Seq<UnitView>)
    decreases chunk.len(),
{
    if chunk.len() == 0 {
        (p, seq![])
    } else {
        let (q, units) = fed(p, chunk.drop_last());
        let (r, more) = stepped(q, chunk.last());
        (r, units + more)
    }
}

/// What is held, resolved as a keystroke.
pub open spec fn flushed(p: ParserView) -> Seq<UnitView> {
    if p.pending.len() == 0 {
        seq![]
    } else {
        seq![UnitView::Key(p.pending)]
    }
}

// ── the functions ────────────────────────────────────────────────────────────

/// The parameters as plain values.
pub open spec fn param_ints(params: Seq<u16>) -> Seq<int> {
    params.map_values(|p: u16| p as int)
}

/// The encodings of the `Enter` key: plain, Kitty's, and two of
/// `modifyOtherKeys`.
pub open spec fn enters(bytes: Seq<u8>) -> bool {
    ||| bytes == seq![0x0Du8]
    ||| bytes == seq![0x0Au8]
    ||| bytes == ENTER_KITTY@
    ||| bytes == ENTER_MODIFIED@
    ||| bytes == ENTER_CTRL@
}

/// `ESC[13u`.
pub const ENTER_KITTY: [u8; 5] = [0x1B, 0x5B, 0x31, 0x33, 0x75];

/// `ESC[27;1;13~`.
pub const ENTER_MODIFIED: [u8; 10] = [0x1B, 0x5B, 0x32, 0x37, 0x3B, 0x31, 0x3B, 0x31, 0x33, 0x7E];

/// `ESC[27;5;13~`.
pub const ENTER_CTRL: [u8; 10] = [0x1B, 0x5B, 0x32, 0x37, 0x3B, 0x35, 0x3B, 0x31, 0x33, 0x7E];

/// Is this the `Enter` key, in any encoding the child may have asked for?
#[must_use]
pub fn is_enter(bytes: &[u8]) -> (yes: bool)
    ensures
        yes == enters(bytes@),
{
    if bytes.len() == 1 {
        assert(bytes@ =~= seq![bytes@[0]]);
        return bytes[0] == 0x0D || bytes[0] == 0x0A;
    }
    same_bytes(bytes, &ENTER_KITTY) || same_bytes(bytes, &ENTER_MODIFIED) || same_bytes(
        bytes,
        &ENTER_CTRL,
    )
}

/// Takes everything out of `pending`.
fn take(pending: &mut Vec<u8>) -> (bytes: Vec<u8>)
    ensures
        bytes@ == old(pending)@,
        final(pending)@ == Seq::<u8>::empty(),
{
    let mut bytes: Vec<u8> = Vec::new();
    std::mem::swap(pending, &mut bytes);
    bytes
}

/// `;`-separated decimal parameters. An empty parameter is 0, in first place
/// too, as in xterm.
fn parse_params(body: &[u8]) -> (params: Vec<u16>)
    ensures
        param_ints(params@) == params_of(body@),
{
    let marked: bool = body.len() > 0 && 0x3C <= body[0] && body[0] <= 0x3F;
    let first: usize = if marked { 1 } else { 0 };
    let ghost digits = unmarked(body@);
    assert(digits =~= body@.skip(first as int));
    let mut params: Vec<u16> = Vec::new();
    let mut value: u16 = 0;
    let mut i: usize = first;
    proof {
        assert(digits.take(0) =~= Seq::<u8>::empty());
        assert(param_ints(params@) =~= param_values(
            text::split_on(digits.take(0), ';' as u8).drop_last(),
        ));
    }
    while i < body.len()
        invariant
            first <= i <= body.len(),
            digits == body@.skip(first as int),
            text::split_on(digits.take(i - first), ';' as u8).len() >= 1,
            param_ints(params@) == param_values(
                text::split_on(digits.take(i - first), ';' as u8).drop_last(),
            ),
            value == param_value(text::split_on(digits.take(i - first), ';' as u8).last()),
        decreases body.len() - i,
    {
        let b: u8 = body[i];
        let ghost seen = digits.take(i - first);
        let ghost more = digits.take(i + 1 - first);
        let ghost parts = text::split_on(seen, ';' as u8);
        let ghost next = text::split_on(more, ';' as u8);
        assert(more.drop_last() =~= seen);
        assert(more.last() == b);
        if b == ';' as u8 {
            let ghost done = params@;
            params.push(value);
            value = 0;
            proof {
                lemma_param_pushed(done, params@[params@.len() - 1], parts);
                assert(next.drop_last() =~= parts);
            }
        } else {
            proof {
                assert(next.drop_last() =~= parts.drop_last());
                assert(next.last().drop_last() =~= parts.last());
            }
            if 48 <= b && b <= 57 {
                let wide: u32 = value as u32 * 10 + (b - 48) as u32;
                value = if wide > 65535 { 65535 } else { wide as u16 };
            }
        }
        i = i + 1;
    }
    proof {
        assert(digits.take(i - first) =~= digits);
        lemma_param_pushed(params@, value, text::split_on(digits, ';' as u8));
    }
    params.push(value);
    params
}

proof fn lemma_param_pushed(done: Seq<u16>, value: u16, parts: Seq<Seq<u8>>)
    requires
        parts.len() >= 1,
        param_ints(done) == param_values(parts.drop_last()),
        value == param_value(parts.last()),
    ensures
        param_ints(done.push(value)) == param_values(parts),
{
    assert(param_ints(done.push(value)) =~= param_ints(done).push(value as int));
    assert(param_values(parts) =~= param_values(parts.drop_last()).push(param_value(parts.last())));
}

/// `Ctrl` is bit 2 of the modifier encoding, which is `1 + mask`.
fn has_ctrl(modifier: Option<u16>) -> (ctrl: bool)
    ensures
        ctrl == holds_ctrl(
            match modifier {
                Some(m) => Some(m as int),
                None => None,
            },
        ),
{
    match modifier {
        Some(m) => {
            let mask: u16 = m.saturating_sub(1);
            assert((mask & 4 != 0) == ((mask / 4) % 2 == 1)) by (bit_vector);
            mask & 4 != 0
        },
        None => false,
    }
}

/// The parameter at `i`, if there is one.
fn param(params: &Vec<u16>, i: usize) -> (value: Option<u16>)
    ensures
        value matches Some(v) ==> param_at(param_ints(params@), i as int) == Some(v as int),
        value is None ==> param_at(param_ints(params@), i as int) is None,
{
    if i < params.len() {
        Some(params[i])
    } else {
        None
    }
}

/// Is this the letter A, in either case?
fn letter_a(code: Option<u16>) -> (yes: bool)
    ensures
        yes == is_letter_a(
            match code {
                Some(c) => Some(c as int),
                None => None,
            },
        ),
{
    match code {
        Some(c) => c == 97 || c == 65,
        None => false,
    }
}

fn csi_hotkey(final_byte: u8, params: &Vec<u16>) -> (hotkey: Option<Hotkey>)
    ensures
        hotkey == hotkey_of(final_byte, param_ints(params@)),
{
    let ctrl: bool = has_ctrl(param(params, 1));
    if final_byte == 'A' as u8 && ctrl {
        // Arrows with modifiers: `ESC[1;5A`. Kitty's disambiguate mode keeps
        // this legacy form for functional keys, so one arm covers both.
        Some(Hotkey::DelayUp)
    } else if final_byte == 'B' as u8 && ctrl {
        Some(Hotkey::DelayDown)
    } else if final_byte == '~' as u8 {
        // modifyOtherKeys=2: `ESC[27;<mods>;<codepoint>~`.
        match param(params, 0) {
            Some(27) if letter_a(param(params, 2)) && ctrl => Some(Hotkey::Toggle),
            _ => None,
        }
    } else if final_byte == 'u' as u8 && letter_a(param(params, 0)) && ctrl {
        // Kitty keyboard: `ESC[<codepoint>;<mods>u`.
        Some(Hotkey::Toggle)
    } else {
        None
    }
}

/// Decide what a complete CSI sequence is. `seq` includes `ESC[` and the final.
fn classify_csi(seq: Vec<u8>) -> (unit: Unit)
    ensures
        unit@ == classified(seq@),
{
    if seq.len() == 0 {
        return Unit::Key(seq);
    }
    let final_byte: u8 = seq[seq.len() - 1];
    let empty: Vec<u8> = Vec::new();
    let body: &[u8] = if seq.len() >= 3 {
        vstd::slice::slice_subrange(seq.as_slice(), 2, seq.len() - 1)
    } else {
        empty.as_slice()
    };
    assert(body@ =~= csi_body(seq@));
    let private: bool = body.len() > 0 && (body[0] == '?' as u8 || body[0] == '>' as u8 || body[0]
        == '<' as u8);
    let params: Vec<u16> = parse_params(body);

    // Reports first: a query reply that looked like a key would be swallowed,
    // and the child is blocking on it.
    if private || final_byte == 'R' as u8 || final_byte == 'n' as u8 || final_byte == 'I' as u8
        || final_byte == 'O' as u8 {
        return Unit::Report(seq);
    }
    // Bracketed paste markers bracket the paste; they are not keystrokes.
    let paste: bool = match param(&params, 0) {
        Some(p) => p == 200 || p == 201,
        None => false,
    };
    if final_byte == '~' as u8 && paste {
        return Unit::Report(seq);
    }
    match csi_hotkey(final_byte, &params) {
        Some(hotkey) => Unit::Hotkey(hotkey),
        None => Unit::Key(seq),
    }
}

impl Unit {
    /// Is this the `Enter` key, in any encoding the child may have asked for?
    ///
    /// `Enter` is not a [`Hotkey`]: it belongs to the child except during a
    /// countdown, and whether a countdown is running is engine state the parser
    /// has no business knowing. So it stays a [`Unit::Key`].
    #[must_use]
    pub fn is_enter(&self) -> (yes: bool)
        ensures
            yes == (self@ matches UnitView::Key(bytes) && enters(bytes)),
    {
        match self {
            Unit::Key(bytes) => is_enter(bytes.as_slice()),
            _ => false,
        }
    }

    /// The bytes to forward to the child, if any.
    #[must_use]
    pub fn bytes(&self) -> (bytes: Option<&[u8]>)
        ensures
            match self@ {
                UnitView::Hotkey(_) => bytes is None,
                UnitView::Key(b) | UnitView::Report(b) => bytes matches Some(s) && s@ == b,
            },
            bytes is None <==> self@ is Hotkey,
            bytes matches Some(s) ==> s@ == forwarded_bytes(self@),
    {
        match self {
            Unit::Hotkey(_) => None,
            Unit::Key(b) => Some(b.as_slice()),
            Unit::Report(b) => Some(b.as_slice()),
        }
    }
}

/// Adds one unit to what came out so far.
fn emit(out: &mut Vec<Unit>, unit: Unit)
    ensures
        unit_views(final(out)@) == unit_views(old(out)@).push(unit@),
{
    out.push(unit);
    assert(unit_views(out@) =~= unit_views(old(out)@).push(unit@));
}

impl InputParser {
    /// A parser in the ground state, holding nothing.
    #[must_use]
    pub fn new() -> (parser: Self)
        ensures
            parser@ == at_ground(),
            parser@.well_formed(),
    {
        InputParser { state: State::Ground, pending: Vec::new() }
    }

    /// Feed one read from stdin. Returns every unit that completed within it; a
    /// partial sequence is held for the next call.
    pub fn feed(&mut self, chunk: &[u8]) -> (units: Vec<Unit>)
        ensures
            (final(self)@, unit_views(units@)) == fed(old(self)@, chunk@),
            old(self)@.well_formed() ==> final(self)@.well_formed(),
            old(self)@.well_formed() ==> units@.len() <= 2 * chunk@.len(),
    {
        let mut out: Vec<Unit> = Vec::new();
        let mut i: usize = 0;
        assert(unit_views(out@) =~= seq![]);
        assert(chunk@.take(0) =~= Seq::<u8>::empty());
        while i < chunk.len()
            invariant
                i <= chunk.len(),
                (self@, unit_views(out@)) == fed(old(self)@, chunk@.take(i as int)),
            decreases chunk.len() - i,
        {
            self.step(chunk[i], &mut out);
            assert(chunk@.take(i + 1).drop_last() =~= chunk@.take(i as int));
            i = i + 1;
        }
        assert(chunk@.take(i as int) =~= chunk@);
        proof {
            if old(self)@.well_formed() {
                lemma_fed_well_formed(old(self)@, chunk@);
                law_a_read_gives_bounded_units(old(self)@, chunk@);
            }
        }
        out
    }

    /// Resolve whatever is held. Call this when a read did not continue a
    /// pending sequence; on the next tick is soon enough.
    ///
    /// This is what makes a bare `Esc` work at all: `ESC` alone is
    /// indistinguishable from the start of `ESC[A` until either more bytes
    /// arrive or they do not.
    pub fn flush(&mut self) -> (units: Vec<Unit>)
        ensures
            final(self)@ == at_ground(),
            unit_views(units@) == flushed(old(self)@),
    {
        self.state = State::Ground;
        let mut out: Vec<Unit> = Vec::new();
        assert(unit_views(out@) =~= seq![]);
        if self.pending.len() == 0 {
            assert(self.pending@ =~= Seq::<u8>::empty());
            return out;
        }
        let bytes: Vec<u8> = take(&mut self.pending);
        emit(&mut out, Unit::Key(bytes));
        out
    }

    /// Is a sequence half-read? The caller uses this to decide whether
    /// [`flush`](Self::flush) has anything to do.
    #[must_use]
    pub fn is_pending(&self) -> (pending: bool)
        ensures
            pending == (self@.pending.len() > 0),
            pending == (flushed(self@).len() > 0),
    {
        self.pending.len() > 0
    }

    fn step(&mut self, byte: u8, out: &mut Vec<Unit>)
        ensures
            final(self)@ == stepped(old(self)@, byte).0,
            unit_views(final(out)@) == unit_views(old(out)@) + stepped(old(self)@, byte).1,
            old(self)@.well_formed() ==> {
                &&& final(self)@.pending.len() <= PENDING_CAP
                &&& final(out)@.len() <= old(out)@.len() + 2
                &&& forall|i: int|
                    old(out)@.len() <= i < final(out)@.len() ==> is_bounded(
                        #[trigger] unit_views(final(out)@)[i],
                    )
            },
    {
        proof {
            if old(self)@.well_formed() {
                law_one_byte_gives_at_most_two_units(old(self)@, byte);
            }
        }
        if self.pending.len() >= PENDING_CAP {
            // Not a sequence. Give the bytes back rather than growing forever.
            let bytes: Vec<u8> = take(&mut self.pending);
            emit(out, Unit::Key(bytes));
            self.state = State::Ground;
        }
        match self.state {
            State::Ground => self.step_ground(byte, out),
            State::Escape => self.step_escape(byte, out),
            State::Csi => self.step_csi(byte, out),
            State::Ss3 => {
                self.pending.push(byte);
                let bytes: Vec<u8> = take(&mut self.pending);
                self.state = State::Ground;
                emit(out, Unit::Key(bytes));
            },
            State::StringSeq => {
                self.pending.push(byte);
                if byte == 0x07 {
                    self.finish_string(out);
                } else if byte == 0x1B {
                    self.state = State::StringSeqEsc;
                }
            },
            State::StringSeqEsc => {
                self.pending.push(byte);
                if byte == '\\' as u8 {
                    self.finish_string(out);
                } else {
                    self.state = State::StringSeq;
                }
            },
        }
        proof {
            let more = stepped(old(self)@, byte).1;
            let all = unit_views(out@);
            let before = unit_views(old(out)@);
            assert(all =~= before + more);
            assert forall|i: int|
                old(self)@.well_formed() && old(out)@.len() <= i < out@.len() implies is_bounded(
                #[trigger] all[i],
            ) by {
                assert(all[i] == more[i - before.len()]);
            }
        }
    }

    fn step_ground(&mut self, byte: u8, out: &mut Vec<Unit>)
        requires
            old(self)@.state == State::Ground,
        ensures
            final(self)@ == advanced(old(self)@, byte).0,
            unit_views(final(out)@) == unit_views(old(out)@) + advanced(old(self)@, byte).1,
    {
        if byte == 0x1B {
            self.state = State::Escape;
            self.pending.push(byte);
        } else if byte == 0x01 {
            // `Ctrl+A` as the terminal sends it when no keyboard protocol is in
            // play.
            emit(out, Unit::Hotkey(Hotkey::Toggle));
        } else {
            let mut key: Vec<u8> = Vec::new();
            key.push(byte);
            assert(key@ =~= seq![byte]);
            emit(out, Unit::Key(key));
        }
    }

    fn step_escape(&mut self, byte: u8, out: &mut Vec<Unit>)
        requires
            old(self)@.state == State::Escape,
        ensures
            final(self)@ == advanced(old(self)@, byte).0,
            unit_views(final(out)@) == unit_views(old(out)@) + advanced(old(self)@, byte).1,
    {
        if byte == '[' as u8 {
            self.state = State::Csi;
            self.pending.push(byte);
        } else if byte == 'O' as u8 {
            self.state = State::Ss3;
            self.pending.push(byte);
        } else if byte == 'P' as u8 || byte == ']' as u8 || byte == 'X' as u8 || byte == '^' as u8
            || byte == '_' as u8 {
            // DCS, OSC, SOS, PM, APC: everything that runs until a terminator.
            self.state = State::StringSeq;
            self.pending.push(byte);
        } else if byte == 0x1B {
            // A second ESC: the first one was a real `Esc` press.
            let bytes: Vec<u8> = take(&mut self.pending);
            emit(out, Unit::Key(bytes));
            self.pending.push(byte);
            assert(self.pending@ =~= seq![byte]);
        } else {
            // A complete two-byte escape, e.g. `Alt+x`.
            self.pending.push(byte);
            let bytes: Vec<u8> = take(&mut self.pending);
            self.state = State::Ground;
            emit(out, Unit::Key(bytes));
        }
    }

    fn step_csi(&mut self, byte: u8, out: &mut Vec<Unit>)
        requires
            old(self)@.state == State::Csi,
        ensures
            final(self)@ == advanced(old(self)@, byte).0,
            unit_views(final(out)@) == unit_views(old(out)@) + advanced(old(self)@, byte).1,
    {
        // Parameters, intermediates, then a final byte ends it. An ESC restarts.
        if byte == 0x1B {
            let bytes: Vec<u8> = take(&mut self.pending);
            emit(out, Unit::Key(bytes));
            self.pending.push(byte);
            assert(self.pending@ =~= seq![byte]);
            self.state = State::Escape;
            return;
        }
        self.pending.push(byte);
        if 0x40 <= byte && byte <= 0x7E {
            let bytes: Vec<u8> = take(&mut self.pending);
            self.state = State::Ground;
            emit(out, classify_csi(bytes));
        }
    }

    fn finish_string(&mut self, out: &mut Vec<Unit>)
        ensures
            final(self)@ == at_ground(),
            unit_views(final(out)@) == unit_views(old(out)@).push(
                UnitView::Report(old(self)@.pending),
            ),
    {
        let bytes: Vec<u8> = take(&mut self.pending);
        self.state = State::Ground;
        // Every string sequence arriving on stdin is an answer to something the
        // child asked.
        emit(out, Unit::Report(bytes));
    }
}

impl Default for InputParser {
    fn default() -> (parser: Self)
        ensures
            parser@ == at_ground(),
    {
        InputParser::new()
    }
}

// ── laws ─────────────────────────────────────────────────────────────────────

impl ParserView {
    /// What holds of a parser at every read boundary: it holds something exactly
    /// while it is inside a sequence, what it holds is the beginning of that
    /// sequence, and it holds no more than the cap.
    pub open spec fn well_formed(self) -> bool {
        &&& self.pending.len() <= PENDING_CAP
        &&& match self.state {
            State::Ground => self.pending.len() == 0,
            State::Escape => self.pending == seq![0x1Bu8],
            State::Csi => self.pending.len() >= 2 && self.pending[0] == 0x1B && self.pending[1]
                == '[' as u8,
            State::Ss3 => self.pending == seq![0x1Bu8, 'O' as u8],
            State::StringSeq | State::StringSeqEsc => self.pending.len() >= 2 && self.pending[0]
                == 0x1B && opens_string(self.pending[1]),
        }
    }
}

proof fn lemma_stepped_well_formed(p: ParserView, byte: u8)
    requires
        p.well_formed(),
    ensures
        stepped(p, byte).0.well_formed(),
{
    assert(Seq::<u8>::empty().push(byte) =~= seq![byte]);
    assert(seq![0x1Bu8].push(byte) =~= seq![0x1Bu8, byte]);
    if p.state == State::Ground {
        assert(p.pending =~= Seq::<u8>::empty());
    }
}

pub proof fn lemma_fed_well_formed(p: ParserView, chunk: Seq<u8>)
    requires
        p.well_formed(),
    ensures
        fed(p, chunk).0.well_formed(),
    decreases chunk.len(),
{
    if chunk.len() > 0 {
        lemma_fed_well_formed(p, chunk.drop_last());
        lemma_stepped_well_formed(fed(p, chunk.drop_last()).0, chunk.last());
    }
}

/// A read boundary means nothing: feeding two chunks one after the other comes
/// to the same, units and state, as feeding them as one.
pub proof fn law_chunks_do_not_matter(p: ParserView, a: Seq<u8>, b: Seq<u8>)
    ensures
        fed(p, a + b) == ({
            let (q, first) = fed(p, a);
            let (r, second) = fed(q, b);
            (r, first + second)
        }),
    decreases b.len(),
{
    if b.len() == 0 {
        assert(a + b =~= a);
        assert(fed(p, a).1 + Seq::<UnitView>::empty() =~= fed(p, a).1);
    } else {
        law_chunks_do_not_matter(p, a, b.drop_last());
        assert((a + b).drop_last() =~= a + b.drop_last());
        let (q, first) = fed(p, a);
        let (r, second) = fed(q, b.drop_last());
        let third = stepped(r, b.last()).1;
        assert((first + second) + third =~= first + (second + third));
    }
}

/// The bytes of one unit that go to the child.
pub open spec fn forwarded_bytes(unit: UnitView) -> Seq<u8> {
    match unit {
        UnitView::Hotkey(_) => Seq::empty(),
        UnitView::Key(b) | UnitView::Report(b) => b,
    }
}

/// The bytes of all the units that go to the child, in order.
pub open spec fn forwarded(units: Seq<UnitView>) -> Seq<u8>
    decreases units.len(),
{
    if units.len() == 0 {
        Seq::empty()
    } else {
        forwarded(units.drop_last()) + forwarded_bytes(units.last())
    }
}

/// None of the units is a hotkey.
pub open spec fn no_hotkeys(units: Seq<UnitView>) -> bool {
    forall|i: int| 0 <= i < units.len() ==> !(#[trigger] units[i] is Hotkey)
}

proof fn lemma_forwarded_concat(a: Seq<UnitView>, b: Seq<UnitView>)
    ensures
        forwarded(a + b) == forwarded(a) + forwarded(b),
    decreases b.len(),
{
    if b.len() == 0 {
        assert(a + b =~= a);
        assert(forwarded(a) + Seq::<u8>::empty() =~= forwarded(a));
    } else {
        lemma_forwarded_concat(a, b.drop_last());
        assert((a + b).drop_last() =~= a + b.drop_last());
        assert(forwarded(a + b) =~= forwarded(a) + forwarded(b));
    }
}

proof fn lemma_forwarded_one(unit: UnitView)
    ensures
        forwarded(seq![unit]) == forwarded_bytes(unit),
{
    reveal_with_fuel(forwarded, 2);
    assert(seq![unit].drop_last() =~= Seq::<UnitView>::empty());
    assert(forwarded(seq![unit]) =~= forwarded_bytes(unit));
}

proof fn lemma_advanced_keeps_every_byte(p: ParserView, byte: u8)
    requires
        p.well_formed(),
        no_hotkeys(advanced(p, byte).1),
    ensures
        forwarded(advanced(p, byte).1) + advanced(p, byte).0.pending == p.pending.push(byte),
{
    let (q, units) = advanced(p, byte);
    if units.len() == 0 {
        assert(forwarded(units) + q.pending =~= p.pending.push(byte));
    } else {
        let unit = units[0];
        assert(!(units[0] is Hotkey));
        assert(units =~= seq![unit]);
        lemma_forwarded_one(unit);
        assert(forwarded(units) + q.pending =~= p.pending.push(byte));
    }
}

proof fn lemma_stepped_keeps_every_byte(p: ParserView, byte: u8)
    requires
        p.well_formed(),
        no_hotkeys(stepped(p, byte).1),
    ensures
        forwarded(stepped(p, byte).1) + stepped(p, byte).0.pending == p.pending.push(byte),
{
    if p.pending.len() >= PENDING_CAP {
        let given = seq![UnitView::Key(p.pending)];
        let (q, units) = advanced(at_ground(), byte);
        assert forall|i: int| 0 <= i < units.len() implies !(#[trigger] units[i] is Hotkey) by {
            assert(stepped(p, byte).1[i + 1] == units[i]);
        }
        lemma_advanced_keeps_every_byte(at_ground(), byte);
        lemma_forwarded_concat(given, units);
        lemma_forwarded_one(given[0]);
        assert((p.pending + forwarded(units)) + q.pending =~= p.pending + (forwarded(units)
            + q.pending));
        assert(p.pending + at_ground().pending.push(byte) =~= p.pending.push(byte));
    } else {
        lemma_advanced_keeps_every_byte(p, byte);
    }
}

/// Nothing is swallowed, invented or reordered: unless a hotkey came out, the
/// bytes to forward, followed by what is still held, are what was held before,
/// followed by what was read.
pub proof fn law_every_byte_is_kept(p: ParserView, chunk: Seq<u8>)
    requires
        p.well_formed(),
        no_hotkeys(fed(p, chunk).1),
    ensures
        forwarded(fed(p, chunk).1) + fed(p, chunk).0.pending == p.pending + chunk,
    decreases chunk.len(),
{
    if chunk.len() == 0 {
        assert(forwarded(fed(p, chunk).1) + p.pending =~= p.pending + chunk);
    } else {
        let (q, units) = fed(p, chunk.drop_last());
        let (r, more) = stepped(q, chunk.last());
        assert forall|i: int| 0 <= i < units.len() implies !(#[trigger] units[i] is Hotkey) by {
            assert(fed(p, chunk).1[i] == units[i]);
        }
        assert forall|i: int| 0 <= i < more.len() implies !(#[trigger] more[i] is Hotkey) by {
            assert(fed(p, chunk).1[units.len() + i] == more[i]);
        }
        law_every_byte_is_kept(p, chunk.drop_last());
        lemma_fed_well_formed(p, chunk.drop_last());
        lemma_stepped_keeps_every_byte(q, chunk.last());
        lemma_forwarded_concat(units, more);
        assert((forwarded(units) + forwarded(more)) + r.pending =~= forwarded(units) + (forwarded(
            more,
        ) + r.pending));
        assert(forwarded(units) + q.pending.push(chunk.last()) =~= (forwarded(units)
            + q.pending).push(chunk.last()));
        assert((p.pending + chunk.drop_last()).push(chunk.last()) =~= p.pending + chunk);
    }
}

/// A unit is a hotkey, or holds at least one byte and no more than 1024.
pub open spec fn is_bounded(unit: UnitView) -> bool {
    unit is Hotkey || 1 <= forwarded_bytes(unit).len() <= 1024
}

/// What one byte can bring about is bounded: at most two units come out, each of
/// at least one byte and no more than 1024, and no more than that is held
/// afterwards.
pub proof fn law_one_byte_gives_at_most_two_units(p: ParserView, byte: u8)
    requires
        p.well_formed(),
    ensures
        stepped(p, byte).1.len() <= 2,
        forall|i: int|
            0 <= i < stepped(p, byte).1.len() ==> is_bounded(#[trigger] stepped(p, byte).1[i]),
        stepped(p, byte).0.pending.len() <= 1024,
{
    lemma_stepped_well_formed(p, byte);
}

/// What a read can bring about is bounded: at most two units for each of its
/// bytes, each of at least one byte and no more than 1024, and no more than that
/// is held afterwards.
pub proof fn law_a_read_gives_bounded_units(p: ParserView, chunk: Seq<u8>)
    requires
        p.well_formed(),
    ensures
        fed(p, chunk).1.len() <= 2 * chunk.len(),
        forall|i: int| 0 <= i < fed(p, chunk).1.len() ==> is_bounded(#[trigger] fed(p, chunk).1[i]),
        fed(p, chunk).0.pending.len() <= 1024,
    decreases chunk.len(),
{
    if chunk.len() > 0 {
        let (q, units) = fed(p, chunk.drop_last());
        law_a_read_gives_bounded_units(p, chunk.drop_last());
        lemma_fed_well_formed(p, chunk.drop_last());
        law_one_byte_gives_at_most_two_units(q, chunk.last());
    }
}

/// Flushing gives back what is held as one keystroke, and leaves nothing.
pub proof fn law_flush_gives_back_what_is_held(p: ParserView)
    ensures
        forwarded(flushed(p)) == p.pending,
        no_hotkeys(flushed(p)),
{
    if p.pending.len() > 0 {
        lemma_forwarded_one(UnitView::Key(p.pending));
    } else {
        assert(forwarded(flushed(p)) =~= p.pending);
    }
}

/// The bytes of a complete CSI sequence: `ESC [`, then neither an `ESC` nor a
/// final byte, then a final byte.
pub open spec fn is_complete_csi(seq: Seq<u8>) -> bool {
    &&& 3 <= seq.len() <= 1024
    &&& seq[0] == 0x1B
    &&& seq[1] == '[' as u8
    &&& 0x40 <= seq.last() <= 0x7E
    &&& forall|i: int|
        2 <= i < seq.len() - 1 ==> #[trigger] seq[i] != 0x1B && !(0x40 <= seq[i] <= 0x7E)
}

proof fn lemma_csi_prefix(seq: Seq<u8>, n: int)
    requires
        is_complete_csi(seq),
        2 <= n < seq.len(),
    ensures
        fed(at_ground(), seq.take(n)) == (
            holding(State::Csi, seq.take(n)),
            Seq::<UnitView>::empty(),
        ),
    decreases n,
{
    let s = seq.take(n);
    assert(s.drop_last() =~= seq.take(n - 1));
    assert(s.drop_last().push(s.last()) =~= s);
    if n == 2 {
        let one = seq.take(1);
        assert(one.drop_last() =~= Seq::<u8>::empty());
        assert(one.drop_last().push(one.last()) =~= one);
        reveal_with_fuel(fed, 3);
    } else {
        lemma_csi_prefix(seq, n - 1);
    }
}

/// However it was split over reads, a complete CSI sequence that begins between
/// sequences comes out as the one unit it is, and nothing is held afterwards.
pub proof fn law_a_csi_sequence_is_assembled(a: Seq<u8>, b: Seq<u8>)
    requires
        is_complete_csi(a + b),
    ensures
        ({
            let (q, first) = fed(at_ground(), a);
            let (r, second) = fed(q, b);
            r == at_ground() && first + second == seq![classified(a + b)]
        }),
{
    let seq = a + b;
    let s = seq.drop_last();
    assert(s =~= seq.take(seq.len() - 1));
    lemma_csi_prefix(seq, seq.len() - 1);
    assert(s.push(seq.last()) =~= seq);
    law_chunks_do_not_matter(at_ground(), a, b);
    assert(Seq::<UnitView>::empty() + seq![classified(seq)] =~= seq![classified(seq)]);
}

/// The number of bytes that end a string sequence: `BEL`, or `ESC \`.
pub open spec fn terminator_len(seq: Seq<u8>) -> int {
    if seq.len() >= 1 && seq.last() == 0x07 {
        1
    } else if seq.len() >= 2 && seq[seq.len() - 2] == 0x1B && seq.last() == '\\' as u8 {
        2
    } else {
        0
    }
}

/// The bytes of a complete string sequence: `ESC`, an introducer, a body with
/// neither `ESC` nor `BEL` in it, and a terminator.
pub open spec fn is_complete_string(seq: Seq<u8>) -> bool {
    &&& terminator_len(seq) > 0
    &&& 2 + terminator_len(seq) <= seq.len() <= 1024
    &&& seq[0] == 0x1B
    &&& opens_string(seq[1])
    &&& forall|i: int|
        2 <= i < seq.len() - terminator_len(seq) ==> #[trigger] seq[i] != 0x1B && seq[i] != 0x07
}

proof fn lemma_string_prefix(seq: Seq<u8>, n: int)
    requires
        is_complete_string(seq),
        2 <= n <= seq.len() - terminator_len(seq),
    ensures
        fed(at_ground(), seq.take(n)) == (
            holding(State::StringSeq, seq.take(n)),
            Seq::<UnitView>::empty(),
        ),
    decreases n,
{
    let s = seq.take(n);
    assert(s.drop_last() =~= seq.take(n - 1));
    assert(s.drop_last().push(s.last()) =~= s);
    if n == 2 {
        let one = seq.take(1);
        assert(one.drop_last() =~= Seq::<u8>::empty());
        assert(one.drop_last().push(one.last()) =~= one);
        reveal_with_fuel(fed, 3);
    } else {
        lemma_string_prefix(seq, n - 1);
    }
}

/// However it was split over reads, a string sequence is a report: an answer to
/// something the child asked, never a keystroke.
pub proof fn law_a_string_sequence_is_a_report(a: Seq<u8>, b: Seq<u8>)
    requires
        is_complete_string(a + b),
    ensures
        ({
            let (q, first) = fed(at_ground(), a);
            let (r, second) = fed(q, b);
            r == at_ground() && first + second == seq![UnitView::Report(a + b)]
        }),
{
    let seq = a + b;
    let s = seq.drop_last();
    let body = seq.len() - terminator_len(seq);
    lemma_string_prefix(seq, body);
    assert(s.push(seq.last()) =~= seq);
    if terminator_len(seq) == 1 {
        assert(s =~= seq.take(body));
    } else {
        assert(s.drop_last() =~= seq.take(body));
        assert(s.drop_last().push(s.last()) =~= s);
        assert(fed(at_ground(), s) == (
            holding(State::StringSeqEsc, s),
            Seq::<UnitView>::empty(),
        ));
    }
    law_chunks_do_not_matter(at_ground(), a, b);
    assert(Seq::<UnitView>::empty() + seq![UnitView::Report(seq)] =~= seq![UnitView::Report(seq)]);
}

/// Terminal traffic is never taken for a keystroke or a hotkey: a sequence with
/// a private marker, a cursor report, a status report and a focus event are
/// reports, whatever their parameters.
pub proof fn law_terminal_traffic_is_a_report(seq: Seq<u8>)
    requires
        is_complete_csi(seq),
        is_private(csi_body(seq)) || seq.last() == 'R' as u8 || seq.last() == 'n' as u8
            || seq.last() == 'I' as u8 || seq.last() == 'O' as u8,
    ensures
        classified(seq) == UnitView::Report(seq),
{
}

/// Ordinary typing is one key per byte, and nothing is held: any byte but `ESC`
/// and `Ctrl+A`.
pub proof fn law_typing_is_one_key_per_byte(chunk: Seq<u8>)
    requires
        forall|i: int| 0 <= i < chunk.len() ==> #[trigger] chunk[i] != 0x1B && chunk[i] != 0x01,
    ensures
        fed(at_ground(), chunk).0 == at_ground(),
        fed(at_ground(), chunk).1 == chunk.map_values(|b: u8| UnitView::Key(seq![b])),
    decreases chunk.len(),
{
    let keys = |b: u8| UnitView::Key(seq![b]);
    if chunk.len() > 0 {
        law_typing_is_one_key_per_byte(chunk.drop_last());
        assert(chunk.drop_last().map_values(keys) + seq![UnitView::Key(seq![chunk.last()])]
            =~= chunk.map_values(keys));
    } else {
        assert(chunk.map_values(keys) =~= Seq::<UnitView>::empty());
    }
}

}
