//! The engine as a mathematical state machine: what one event does to the state,
//! and what it asks the caller to do.

use vstd::prelude::*;

use crate::detector;
use crate::events::EventView;
use crate::input;
use crate::input::{Hotkey, ParserView, UnitView};
use crate::text;

verus! {

/// Bytes past this are dropped from the front of the buffer.
pub const BUFFER_CAP: usize = 10_000;

/// The longest countdown, in seconds.
pub const MAX_DELAY: u8 = 60;

/// One second, in nanoseconds.
pub const SECOND: u64 = 1_000_000_000;

/// Silence this long makes the watchdog suspect a dialog is sitting on screen,
/// painted and emitting nothing.
pub const IDLE: u64 = 2_000_000_000;

/// A rescue redraw costs a repaint, so it is rate-limited.
pub const RESCUE_COOLDOWN: u64 = 3_000_000_000;

/// How long most messages stay on the bar.
pub const FLASH: u64 = 800_000_000;

/// How long the cancel message stays.
pub const FLASH_CANCEL: u64 = 500_000_000;

/// How long the message about a failed write stays.
pub const FLASH_ERROR: u64 = 1_000_000_000;

/// The answer to a dialog with buttons.
pub const ANSWER_KEY: [u8; 1] = [0x0D];

/// The answer to a dialog that wants the word: `yes`, then the return, in one
/// write. Two writes would let the child see a bare return first.
pub const ANSWER_WORD: [u8; 4] = [0x79, 0x65, 0x73, 0x0D];

/// An [`crate::engine::Action`] as plain values.
pub enum ActionView {
    Answer(Seq<u8>),
    Forward(Seq<u8>),
    Status { line: Seq<char>, colour: Seq<char> },
    ForceRedraw,
    Exit(int),
}

/// A countdown that is running.
pub struct CountdownView {
    /// When it fires.
    pub ends_at: int,
    /// Buffer length when it began. What stands before it is the dialog being
    /// answered, what stands after it arrived while detection was switched off.
    pub watermark: int,
}

/// A transient message that outranks the steady status text.
pub struct FlashView {
    pub line: Seq<char>,
    pub colour: Seq<char>,
    pub until: int,
}

/// The engine's state.
pub struct EngineView {
    pub auto_approve: bool,
    /// In seconds.
    pub delay: int,
    /// The newest output, raw.
    pub buffer: Seq<u8>,
    pub countdown: Option<CountdownView>,
    pub approvals: int,
    pub flash: Option<FlashView>,
    pub last_output: int,
    /// `None` until the first rescue.
    pub last_rescue: Option<int>,
    /// The verdict of the last scan that nobody has taken yet.
    pub detection: Option<detector::DetectionView>,
    /// What the user's input is split with.
    pub parser: ParserView,
}

/// The newest [`BUFFER_CAP`] bytes.
pub open spec fn newest(bytes: Seq<u8>) -> Seq<u8> {
    if bytes.len() > BUFFER_CAP {
        bytes.skip(bytes.len() - BUFFER_CAP)
    } else {
        bytes
    }
}

/// How many of so many bytes the buffer drops, from the front.
pub open spec fn surplus(len: int) -> int {
    if len > BUFFER_CAP {
        len - BUFFER_CAP
    } else {
        0
    }
}

/// A countdown over a buffer that dropped `dropped` bytes from its front: the
/// watermark stays where it was in what is left.
pub open spec fn lowered(countdown: Option<CountdownView>, dropped: int) -> Option<CountdownView> {
    match countdown {
        Some(c) => Some(
            CountdownView {
                ends_at: c.ends_at,
                watermark: if c.watermark > dropped {
                    c.watermark - dropped
                } else {
                    0
                },
            },
        ),
        None => None,
    }
}

/// `action` after `done`. Keystrokes that follow keystrokes join them: the bytes
/// the child sees are the same, the number of writes is not.
pub open spec fn followed(done: Seq<ActionView>, action: ActionView) -> Seq<ActionView> {
    if done.len() == 0 {
        seq![action]
    } else {
        match (done.last(), action) {
            (ActionView::Forward(a), ActionView::Forward(b)) => done.drop_last().push(
                ActionView::Forward(a + b),
            ),
            _ => done.push(action),
        }
    }
}

/// `more` after `done`, adjacent keystrokes joined.
pub open spec fn coalesced(done: Seq<ActionView>, more: Seq<ActionView>) -> Seq<ActionView>
    decreases more.len(),
{
    if more.len() == 0 {
        done
    } else {
        followed(coalesced(done, more.drop_last()), more.last())
    }
}

/// What the detector says of raw bytes.
pub open spec fn verdict_on(bytes: Seq<u8>) -> detector::DetectionView {
    detector::detection_of(text::text_of(bytes))
}

/// A dialog is on screen, going by these raw bytes.
pub open spec fn holds_dialog(bytes: Seq<u8>) -> bool {
    verdict_on(bytes).detected
}

/// The bytes that answer the dialog in these raw bytes.
pub open spec fn answer_to(bytes: Seq<u8>) -> Seq<u8> {
    if detector::wants_word(text::text_of(bytes)) {
        ANSWER_WORD@
    } else {
        ANSWER_KEY@
    }
}

/// Whole seconds until `ends_at`, rounded up, so that a 3 s delay reads 3, 2, 1.
pub open spec fn seconds_left(ends_at: int, now: int) -> int {
    if ends_at <= now {
        0
    } else {
        (ends_at - now + SECOND - 1) / (SECOND as int)
    }
}

/// `n` after one press of a delay key: within `0 ..= MAX_DELAY`.
pub open spec fn moved_delay(n: int, increase: bool) -> int {
    if increase {
        if n + 1 < MAX_DELAY {
            n + 1
        } else {
            MAX_DELAY as int
        }
    } else if n > 0 {
        n - 1
    } else {
        0
    }
}

// ── the bar's texts ──────────────────────────────────────────────────────────

/// An answer was sent.
pub open spec fn approved_line(n: int) -> Seq<char> {
    "✓ Auto-approved (#"@ + text::decimal_text(n as nat) + ")"@
}

/// The delay was changed.
pub open spec fn delay_line(old_delay: int, new_delay: int) -> Seq<char> {
    "⏱  Delay: "@ + text::decimal_text(old_delay as nat) + "s → "@ + text::decimal_text(
        new_delay as nat,
    ) + "s"@
}

/// A countdown runs.
pub open spec fn countdown_line(seconds: int) -> Seq<char> {
    "⏱  Auto-approving in "@ + text::decimal_text(seconds as nat)
        + "s... (Enter=now, any key=cancel, Ctrl+A=off)"@
}

/// Auto-approve is on and nothing is pending.
pub open spec fn on_line(approvals: int, delay: int) -> Seq<char> {
    "auto-approve ON  "@ + text::decimal_text(approvals as nat) + " approved  delay "@
        + text::decimal_text(delay as nat) + "s  [Ctrl+A=toggle, Ctrl+↑↓=delay]"@
}

/// Auto-approve is off.
pub open spec fn off_line(delay: int) -> Seq<char> {
    "auto-approve OFF  delay "@ + text::decimal_text(delay as nat)
        + "s  [Ctrl+A=toggle, Ctrl+↑↓=delay]"@
}

// ── transitions ──────────────────────────────────────────────────────────────

impl EngineView {
    /// The state before the first event.
    pub open spec fn fresh(delay: int, started: int) -> EngineView {
        EngineView {
            auto_approve: true,
            delay: if delay > MAX_DELAY {
                MAX_DELAY as int
            } else {
                delay
            },
            buffer: Seq::empty(),
            countdown: None,
            approvals: 0,
            flash: None,
            last_output: started,
            last_rescue: None,
            detection: None,
            parser: input::at_ground(),
        }
    }

    /// Output is offered to detection: auto-approve is on and no countdown runs.
    pub open spec fn listening(self) -> bool {
        self.auto_approve && self.countdown is None
    }

    /// The countdown has reached its deadline.
    pub open spec fn is_due(self, now: int) -> bool {
        self.countdown matches Some(c) && now >= c.ends_at
    }

    /// The status bar, highest priority first: a flash, the countdown, the
    /// steady text.
    pub open spec fn status(self, now: int) -> ActionView {
        match (self.flash, self.countdown) {
            (Some(flash), _) if now < flash.until => ActionView::Status {
                line: flash.line,
                colour: flash.colour,
            },
            (_, Some(countdown)) => ActionView::Status {
                line: countdown_line(seconds_left(countdown.ends_at, now)),
                colour: "33"@,
            },
            (_, None) => if self.auto_approve {
                ActionView::Status { line: on_line(self.approvals, self.delay), colour: "2"@ }
            } else {
                ActionView::Status { line: off_line(self.delay), colour: "90"@ }
            },
        }
    }

    /// A message goes up on the bar for `hold`.
    pub open spec fn flashed(
        self,
        line: Seq<char>,
        colour: Seq<char>,
        now: int,
        hold: int,
    ) -> EngineView {
        EngineView { flash: Some(FlashView { line, colour, until: now + hold }), ..self }
    }

    /// The buffer has been scanned.
    pub open spec fn scanned(self) -> EngineView {
        EngineView { detection: Some(verdict_on(self.buffer)), ..self }
    }

    /// A countdown runs from `now`, over all that is in the buffer.
    pub open spec fn armed(self, now: int) -> EngineView {
        EngineView {
            countdown: Some(
                CountdownView {
                    ends_at: now + self.delay * SECOND,
                    watermark: self.buffer.len() as int,
                },
            ),
            ..self
        }
    }

    /// How much of the buffer belongs to the dialog being answered.
    pub open spec fn answered_part(self) -> int {
        match self.countdown {
            Some(c) if c.watermark < self.buffer.len() => c.watermark,
            _ => self.buffer.len() as int,
        }
    }

    /// The dialog is answered. What the bytes are is decided from the whole
    /// buffer; what stays of the buffer is what came after the watermark.
    pub open spec fn answered(self, now: int) -> (EngineView, Seq<ActionView>) {
        let count = self.approvals + 1;
        let after = EngineView {
            countdown: None,
            approvals: count,
            buffer: self.buffer.skip(self.answered_part()),
            ..self
        }.flashed(approved_line(count), "32"@, now, FLASH as int);
        (
            after,
            seq![
                ActionView::Answer(answer_to(self.buffer)),
                after.status(now),
                ActionView::ForceRedraw,
            ],
        )
    }

    /// A dialog was found. A zero delay answers in this same turn.
    pub open spec fn started(self, now: int) -> (EngineView, Seq<ActionView>) {
        if self.delay == 0 {
            self.armed(now).answered(now)
        } else {
            (self.armed(now), seq![])
        }
    }

    /// The child wrote `bytes`.
    pub open spec fn absorbed(self, bytes: Seq<u8>, now: int) -> EngineView {
        EngineView {
            buffer: newest(self.buffer + bytes),
            countdown: lowered(self.countdown, surplus((self.buffer + bytes).len() as int)),
            last_output: now,
            ..self
        }
    }

    /// The child's output, offered to detection when listening.
    pub open spec fn on_output(self, bytes: Seq<u8>, now: int) -> (EngineView, Seq<ActionView>) {
        let s = self.absorbed(bytes, now);
        if !s.listening() {
            (s, seq![])
        } else if holds_dialog(s.buffer) {
            s.scanned().started(now)
        } else {
            (s.scanned(), seq![])
        }
    }

    /// The toggle key. Switching on with a dialog already on screen arms the
    /// countdown, even at a zero delay: the tick that follows fires it.
    pub open spec fn toggled(self, now: int) -> (EngineView, Seq<ActionView>) {
        let s = EngineView { countdown: None, auto_approve: !self.auto_approve, ..self };
        let after = if self.auto_approve {
            s.flashed("✗ Auto-approve DISABLED"@, "31"@, now, FLASH as int)
        } else if s.buffer.len() == 0 {
            s.flashed("✓ Auto-approve ENABLED"@, "32"@, now, FLASH as int)
        } else if holds_dialog(s.buffer) {
            s.scanned().armed(now).flashed("✓ Auto-approve ENABLED"@, "32"@, now, FLASH as int)
        } else {
            s.scanned().flashed("✓ Auto-approve ENABLED"@, "32"@, now, FLASH as int)
        };
        (after, seq![after.status(now)])
    }

    /// A delay key. At the cap or the floor it is silent.
    pub open spec fn delay_moved(self, increase: bool, now: int) -> (EngineView, Seq<ActionView>) {
        let new_delay = moved_delay(self.delay, increase);
        if new_delay == self.delay {
            (self, seq![])
        } else {
            let after = EngineView { delay: new_delay, ..self }.flashed(
                delay_line(self.delay, new_delay),
                "36"@,
                now,
                FLASH as int,
            );
            (after, seq![after.status(now)])
        }
    }

    /// The countdown is cancelled. The buffer stays, so the same dialog is found
    /// again: cancel means "not yet", not "never".
    pub open spec fn cancelled(self, now: int) -> (EngineView, Seq<ActionView>) {
        let after = EngineView { countdown: None, ..self }.flashed(
            "✗ Cancelled"@,
            "90"@,
            now,
            FLASH_CANCEL as int,
        );
        (after, seq![after.status(now)])
    }

    /// One unit of the user's input. A report is no keystroke: it goes to the
    /// child and changes nothing. During a countdown `Enter` answers, and any
    /// other key but the toggle cancels and is swallowed.
    pub open spec fn acted(self, unit: UnitView, now: int) -> (EngineView, Seq<ActionView>) {
        match unit {
            UnitView::Hotkey(Hotkey::Toggle) => self.toggled(now),
            UnitView::Hotkey(hotkey) => if self.countdown is Some {
                self.cancelled(now)
            } else {
                self.delay_moved(hotkey == Hotkey::DelayUp, now)
            },
            UnitView::Report(bytes) => (self, seq![ActionView::Forward(bytes)]),
            UnitView::Key(bytes) => if self.countdown is None {
                (self, seq![ActionView::Forward(bytes)])
            } else if input::enters(bytes) {
                self.answered(now)
            } else {
                self.cancelled(now)
            },
        }
    }

    /// The units one after the other: the state after them, and all the actions.
    pub open spec fn acted_on_all(self, units: Seq<UnitView>, now: int) -> (
        EngineView,
        Seq<ActionView>,
    )
        decreases units.len(),
    {
        if units.len() == 0 {
            (self, Seq::empty())
        } else {
            let (before, done) = self.acted_on_all(units.drop_last(), now);
            let (after, actions) = before.acted(units.last(), now);
            (after, done + actions)
        }
    }

    /// The user's input: what it completes is acted on, unit by unit, and
    /// adjacent keystrokes to forward are joined.
    pub open spec fn on_input(self, bytes: Seq<u8>, now: int) -> (EngineView, Seq<ActionView>) {
        let (parser, units) = input::fed(self.parser, bytes);
        let (after, actions) = EngineView { parser, ..self }.acted_on_all(units, now);
        (after, coalesced(Seq::empty(), actions))
    }

    /// What the parser holds is resolved: a sequence that has not been continued
    /// by now is a keystroke, such as a lone `Esc`.
    pub open spec fn resolved(self, now: int) -> (EngineView, Seq<ActionView>) {
        EngineView { parser: input::at_ground(), ..self }.acted_on_all(
            input::flushed(self.parser),
            now,
        )
    }

    /// The child has been silent and has not been poked lately.
    pub open spec fn needs_rescue(self, now: int) -> bool {
        &&& now - self.last_output >= IDLE
        &&& self.last_rescue matches Some(last) ==> now - last >= RESCUE_COOLDOWN
    }

    /// The watchdog: only while listening, and one of two things. A dialog that
    /// arrived while a countdown ran was never offered to detection; one that is
    /// already painted emits no further bytes and has to be shaken loose.
    pub open spec fn watched(self, now: int) -> (EngineView, Seq<ActionView>) {
        let s = if self.buffer.len() > 0 {
            self.scanned()
        } else {
            self
        };
        if !self.listening() {
            (self, seq![])
        } else if self.buffer.len() > 0 && holds_dialog(self.buffer) {
            s.started(now)
        } else if self.needs_rescue(now) {
            (EngineView { last_rescue: Some(now), ..s }, seq![ActionView::ForceRedraw])
        } else {
            (s, seq![])
        }
    }

    /// A countdown that is due fires.
    pub open spec fn fired(self, now: int) -> (EngineView, Seq<ActionView>) {
        if self.is_due(now) {
            self.answered(now)
        } else {
            (self, seq![])
        }
    }

    /// The heartbeat: resolve what the parser holds, fire a countdown that is
    /// due, run the watchdog, redraw.
    pub open spec fn on_tick(self, now: int) -> (EngineView, Seq<ActionView>) {
        let (ready, keys) = self.resolved(now);
        let (free, answers) = ready.fired(now);
        let (after, found) = free.watched(now);
        (after, keys + answers + found + seq![after.status(now)])
    }

    /// One event: the state after it, and what the caller should do, in order.
    pub open spec fn handled(self, event: EventView) -> (EngineView, Seq<ActionView>) {
        match event {
            EventView::Output(bytes, now) => self.on_output(bytes, now),
            EventView::Input(bytes, now) => self.on_input(bytes, now),
            EventView::Tick(now) => self.on_tick(now),
            EventView::AnswerFailed(now) => {
                let after = self.flashed(
                    "✗ Failed to send approval"@,
                    "31"@,
                    now,
                    FLASH_ERROR as int,
                );
                (after, seq![after.status(now)])
            },
            EventView::Winch(now) => (self, seq![self.status(now)]),
            EventView::Terminate(signo) => {
                let code = 128 + signo;
                (self, seq![ActionView::Exit(if 0 <= code <= 255 { code } else { 1 })])
            },
            EventView::Eof => (self, seq![]),
        }
    }

    /// How many answers the state can still give rise to with no further output:
    /// one for a countdown that runs, one for what has arrived since it began;
    /// one for a buffer with no countdown over it.
    pub open spec fn credit(self) -> int {
        match self.countdown {
            Some(c) => if self.buffer.len() > c.watermark {
                2
            } else {
                1
            },
            None => if self.buffer.len() > 0 {
                1
            } else {
                0
            },
        }
    }

    /// The most answers that one event can send.
    pub open spec fn most_answers(self, event: EventView) -> int {
        match event {
            EventView::Output(..) => if self.listening() && self.delay == 0 {
                1
            } else {
                0
            },
            EventView::Input(..) | EventView::Tick(_) => self.credit(),
            _ => 0,
        }
    }

    /// What holds of the state after every event.
    pub open spec fn well_formed(self) -> bool {
        &&& 0 <= self.delay <= MAX_DELAY
        &&& self.buffer.len() <= BUFFER_CAP
        &&& self.approvals >= 0
        &&& self.countdown matches Some(c) ==> {
            &&& self.auto_approve
            &&& 0 <= c.watermark <= self.buffer.len()
        }
        &&& self.parser.well_formed()
    }
}

// ── joining ──────────────────────────────────────────────────────────────────

/// None of the actions is a keystroke for the child.
pub open spec fn forwards_nothing(actions: Seq<ActionView>) -> bool {
    forall|i: int| 0 <= i < actions.len() ==> !(#[trigger] actions[i] is Forward)
}

pub proof fn lemma_nothing_to_join(done: Seq<ActionView>, more: Seq<ActionView>)
    requires
        forwards_nothing(more),
    ensures
        coalesced(done, more) == done + more,
    decreases more.len(),
{
    if more.len() == 0 {
        assert(done + more =~= done);
    } else {
        let fewer = more.drop_last();
        assert forall|i: int| 0 <= i < fewer.len() implies !(#[trigger] fewer[i] is Forward) by {
            assert(fewer[i] == more[i]);
        }
        lemma_nothing_to_join(done, fewer);
        assert(!(more[more.len() - 1] is Forward));
        assert((done + fewer).push(more.last()) =~= done + more);
        assert((done + fewer).len() == 0 ==> seq![more.last()] =~= done + more);
    }
}

pub proof fn lemma_coalesced_in_parts(done: Seq<ActionView>, a: Seq<ActionView>, b: Seq<ActionView>)
    ensures
        coalesced(done, a + b) == coalesced(coalesced(done, a), b),
    decreases b.len(),
{
    if b.len() == 0 {
        assert(a + b =~= a);
    } else {
        lemma_coalesced_in_parts(done, a, b.drop_last());
        assert((a + b).drop_last() =~= a + b.drop_last());
    }
}

pub proof fn lemma_one_unit_joins_nothing(s: EngineView, units: Seq<UnitView>, now: int)
    requires
        units.len() <= 1,
    ensures
        coalesced(Seq::empty(), s.acted_on_all(units, now).1) == s.acted_on_all(
            units,
            now,
        ).1,
{
    let actions = s.acted_on_all(units, now).1;
    reveal_with_fuel(coalesced, 2);
    if units.len() == 1 {
        let none = units.drop_last();
        assert(none =~= Seq::<UnitView>::empty());
        assert(s.acted_on_all(none, now) == (s, Seq::<ActionView>::empty()));
        let taken = s.acted(units.last(), now).1;
        assert(actions =~= taken);
        if forwards_nothing(taken) {
            lemma_nothing_to_join(Seq::empty(), taken);
            assert(Seq::<ActionView>::empty() + taken =~= taken);
        } else {
            assert(taken.len() == 1);
            assert(taken.drop_last() =~= Seq::<ActionView>::empty());
            assert(taken =~= seq![taken.last()]);
        }
    }
}

}
