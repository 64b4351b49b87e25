//! All the state and all the decisions.
//!
//! The engine decides; the caller acts. [`Engine::handle`] takes one event and
//! returns the list of things that should happen: it never touches a file
//! descriptor, never spawns a thread, and never reads the clock.

use vstd::prelude::*;

use crate::detector;
use crate::detector::Detection;
use crate::engine_laws;
use crate::events::{Event, EventView, Instant};
use crate::input;
use crate::input::{is_enter, Hotkey, InputParser, Unit, UnitView};
use crate::model;
use crate::model::{
    ActionView, CountdownView, EngineView, FlashView, ANSWER_KEY, ANSWER_WORD, BUFFER_CAP, FLASH,
    FLASH_CANCEL, FLASH_ERROR, IDLE, MAX_DELAY, RESCUE_COOLDOWN, SECOND,
};
use crate::text;
use crate::text::{append_decimal, read_text};

verus! {

/// Something the caller should do. Performed in the order returned.
#[derive(Debug, Clone, PartialEq, Eq)]
pub enum Action {
    /// Write these bytes to the PTY as an answer: `yes\r` or `\r`, one write, in
    /// that order. A failed write comes back as [`Event::AnswerFailed`]; it is
    /// never retried.
    Answer(Vec<u8>),
    /// Write the user's own keystrokes to the PTY, verbatim.
    Forward(Vec<u8>),
    /// Draw the status bar.
    Status {
        /// Already-rendered text, no escapes.
        text: String,
        /// SGR parameter, e.g. `"33"`.
        colour: &'static str,
    },
    /// Make the child repaint.
    ForceRedraw,
    /// Exit the process with this code.
    Exit(u8),
}

impl View for Action {
    type V = ActionView;

    open spec fn view(&self) -> ActionView {
        match self {
            Action::Answer(bytes) => ActionView::Answer(bytes@),
            Action::Forward(bytes) => ActionView::Forward(bytes@),
            Action::Status { text, colour } => ActionView::Status {
                line: text@,
                colour: colour@,
            },
            Action::ForceRedraw => ActionView::ForceRedraw,
            Action::Exit(code) => ActionView::Exit(*code as int),
        }
    }
}

/// The actions as plain values.
pub open spec fn action_views(actions: Seq<Action>) -> Seq<ActionView> {
    actions.map_values(|a: Action| a@)
}

/// A countdown that is running.
#[derive(Debug, Clone, Copy)]
struct Countdown {
    /// In nanoseconds, as [`Instant`] counts them.
    ends_at: u128,
    /// Buffer length when the countdown began. Everything before it is the
    /// dialog being answered, everything after arrived while detection was
    /// switched off.
    watermark: usize,
}

/// A transient message that outranks the steady status text.
#[derive(Debug)]
struct Flash {
    text: String,
    colour: &'static str,
    /// In nanoseconds, as [`Instant`] counts them.
    until: u128,
}

/// The wrapper's state machine.
#[derive(Debug)]
pub struct Engine {
    auto_approve: bool,
    delay: u8,
    /// Raw PTY bytes, not a `String`: a read can split a UTF-8 sequence and a PTY
    /// carries bytes that are not text at all.
    buffer: Vec<u8>,
    countdown: Option<Countdown>,
    approvals: u32,
    flash: Option<Flash>,
    last_output: Instant,
    /// `None` until the first rescue. Seeding it with the start time would be
    /// claiming a rescue that never happened, and would hold the first real one
    /// off for the cooldown instead of the idle threshold.
    last_rescue: Option<Instant>,
    /// The last scan's verdict, until somebody takes it.
    detection: Option<Detection>,
    /// Splits the user's input into keys, hotkeys and reports.
    parser: InputParser,
}

impl View for Engine {
    type V = EngineView;

    closed spec fn view(&self) -> EngineView {
        EngineView {
            auto_approve: self.auto_approve,
            delay: self.delay as int,
            buffer: self.buffer@,
            countdown: match self.countdown {
                Some(c) => Some(
                    CountdownView { ends_at: c.ends_at as int, watermark: c.watermark as int },
                ),
                None => None,
            },
            approvals: self.approvals as int,
            flash: match self.flash {
                Some(f) => Some(
                    FlashView { line: f.text@, colour: f.colour@, until: f.until as int },
                ),
                None => None,
            },
            last_output: self.last_output.nanos as int,
            last_rescue: match self.last_rescue {
                Some(last) => Some(last.nanos as int),
                None => None,
            },
            detection: match self.detection {
                Some(d) => Some(d@),
                None => None,
            },
            parser: self.parser@,
        }
    }
}

/// One action, alone.
fn just(action: Action) -> (actions: Vec<Action>)
    ensures
        action_views(actions@) == seq![action@],
{
    let mut actions: Vec<Action> = Vec::new();
    actions.push(action);
    assert(action_views(actions@) =~= seq![action@]);
    actions
}

/// Nothing to do.
fn nothing() -> (actions: Vec<Action>)
    ensures
        action_views(actions@) == Seq::<ActionView>::empty(),
{
    let actions: Vec<Action> = Vec::new();
    assert(action_views(actions@) =~= Seq::<ActionView>::empty());
    actions
}

/// `more` after `actions`.
fn extend(actions: &mut Vec<Action>, more: Vec<Action>)
    ensures
        action_views(final(actions)@) == action_views(old(actions)@) + action_views(more@),
{
    let mut rest: Vec<Action> = more;
    actions.append(&mut rest);
    assert(action_views(actions@) =~= action_views(old(actions)@) + action_views(more@));
}

/// `more` keystrokes for the child after `actions`: joined to the keystrokes
/// before them, if there are any.
fn forward(actions: &mut Vec<Action>, more: &[u8])
    ensures
        action_views(final(actions)@) == model::coalesced(
            action_views(old(actions)@),
            seq![ActionView::Forward(more@)],
        ),
{
    let ghost done = action_views(actions@);
    let ghost next: Seq<ActionView> = seq![ActionView::Forward(more@)];
    proof {
        reveal_with_fuel(model::coalesced, 2);
        assert(next.drop_last() =~= Seq::<ActionView>::empty());
    }
    match actions.pop() {
        Some(Action::Forward(before)) => {
            let ghost first = before@;
            let mut bytes: Vec<u8> = before;
            bytes.extend_from_slice(more);
            assert(bytes@ =~= first + more@);
            assert(done.last() == ActionView::Forward(first));
            actions.push(Action::Forward(bytes));
            assert(action_views(actions@) =~= done.drop_last().push(
                ActionView::Forward(first + more@),
            ));
        },
        Some(other) => {
            actions.push(other);
            assert(action_views(actions@) =~= done);
            assert(done.last() == other@);
            actions.push(Action::Forward(owned(more)));
            assert(action_views(actions@) =~= done.push(ActionView::Forward(more@)));
        },
        None => {
            actions.push(Action::Forward(owned(more)));
            assert(action_views(actions@) =~= next);
        },
    }
}

/// An array's bytes as a vector.
fn owned(bytes: &[u8]) -> (copy: Vec<u8>)
    ensures
        copy@ == bytes@,
{
    vstd::slice::slice_to_vec(bytes)
}

/// Drops the first `n` bytes.
fn drop_front(bytes: &mut Vec<u8>, n: usize)
    requires
        n <= old(bytes).len(),
    ensures
        final(bytes)@ == old(bytes)@.skip(n as int),
{
    let mut rest: Vec<u8> = bytes.split_off(n);
    std::mem::swap(bytes, &mut rest);
    assert(bytes@ =~= old(bytes)@.skip(n as int));
}

impl Engine {
    /// `delay` in seconds, `started` as the origin for the idle timers.
    #[must_use]
    pub fn new(delay: u8, started: Instant) -> (engine: Self)
        ensures
            engine@ == EngineView::fresh(delay as int, started.nanos as int),
            engine@.well_formed(),
    {
        Engine {
            auto_approve: true,
            delay: if delay > MAX_DELAY { MAX_DELAY } else { delay },
            buffer: Vec::new(),
            countdown: None,
            approvals: 0,
            flash: None,
            last_output: started,
            last_rescue: None,
            detection: None,
            parser: InputParser::new(),
        }
    }

    /// The number of answers sent so far. For the debug log and the bar.
    #[must_use]
    pub fn approvals(&self) -> (count: u32)
        ensures
            count == self@.approvals,
    {
        self.approvals
    }

    /// The last scan's verdict, if nobody has taken it yet. For the debug log.
    pub fn take_detection(&mut self) -> (detection: Option<Detection>)
        ensures
            match detection {
                Some(d) => old(self)@.detection == Some(d@),
                None => old(self)@.detection is None,
            },
            final(self)@ == (EngineView { detection: None, ..old(self)@ }),
    {
        self.detection.take()
    }

    /// Feed one event, get back what should happen.
    pub fn handle(&mut self, event: Event) -> (actions: Vec<Action>)
        requires
            old(self)@.most_answers(event@) > 0 ==> old(self)@.approvals + old(
                self,
            )@.most_answers(event@) <= u32::MAX,
            event matches Event::Terminate(signo) ==> 128 + signo <= i32::MAX,
        ensures
            (final(self)@, action_views(actions@)) == old(self)@.handled(event@),
            old(self)@.well_formed() ==> final(self)@.well_formed(),
    {
        proof {
            if old(self)@.well_formed() {
                engine_laws::law_an_event_keeps_the_state_well_formed(old(self)@, event@);
            }
        }
        match event {
            Event::Output(bytes, now) => self.on_output(&bytes, now),
            Event::Input(bytes, now) => self.on_input(&bytes, now),
            Event::Tick(now) => self.on_tick(now),
            Event::AnswerFailed(now) => {
                let mut line: String = String::new();
                line.append("✗ Failed to send approval");
                assert(line@ =~= "✗ Failed to send approval"@);
                self.flash(line, "31", now, FLASH_ERROR)
            },
            Event::Winch(now) => just(self.status(now)),
            Event::Terminate(signo) => {
                let code: i32 = 128 + signo;
                if 0 <= code && code <= 255 {
                    just(Action::Exit(code as u8))
                } else {
                    just(Action::Exit(1))
                }
            },
            // The caller reaps the child and propagates its status.
            Event::Eof => nothing(),
        }
    }

    // ── events ───────────────────────────────────────────────────────────────

    fn on_output(&mut self, bytes: &Vec<u8>, now: Instant) -> (actions: Vec<Action>)
        requires
            old(self)@.listening() && old(self)@.delay == 0 ==> old(self)@.approvals < u32::MAX,
        ensures
            (final(self)@, action_views(actions@)) == old(self)@.on_output(
                bytes@,
                now.nanos as int,
            ),
    {
        self.last_output = now;
        self.buffer.extend_from_slice(bytes.as_slice());
        assert(self.buffer@ =~= old(self)@.buffer + bytes@);
        if self.buffer.len() > BUFFER_CAP {
            let surplus: usize = self.buffer.len() - BUFFER_CAP;
            drop_front(&mut self.buffer, surplus);
            // The watermark stays where it was in what is left: what came after
            // it must not go with the dialog that is being answered.
            if let Some(c) = self.countdown {
                let watermark: usize = if c.watermark > surplus {
                    c.watermark - surplus
                } else {
                    0
                };
                self.countdown = Some(Countdown { ends_at: c.ends_at, watermark });
            }
        }
        assert(self@.countdown == old(self)@.absorbed(bytes@, now.nanos as int).countdown);
        assert(self@ == old(self)@.absorbed(bytes@, now.nanos as int));
        if self.auto_approve && self.countdown.is_none() && self.buffer_is_prompt() {
            return self.start_countdown(now);
        }
        nothing()
    }

    fn on_input(&mut self, bytes: &Vec<u8>, now: Instant) -> (actions: Vec<Action>)
        requires
            old(self)@.credit() > 0 ==> old(self)@.approvals + old(self)@.credit() <= u32::MAX,
        ensures
            (final(self)@, action_views(actions@)) == old(self)@.on_input(
                bytes@,
                now.nanos as int,
            ),
    {
        let units: Vec<Unit> = self.parser.feed(bytes.as_slice());
        let mut actions: Vec<Action> = nothing();
        self.act_on_all(&units, now, &mut actions);
        actions
    }

    /// Acts on the units, one after the other.
    fn act_on_all(&mut self, units: &Vec<Unit>, now: Instant, actions: &mut Vec<Action>)
        requires
            old(self)@.credit() > 0 ==> old(self)@.approvals + old(self)@.credit() <= u32::MAX,
        ensures
            ({
                let (after, more) = old(self)@.acted_on_all(
                    input::unit_views(units@),
                    now.nanos as int,
                );
                &&& final(self)@ == after
                &&& action_views(final(actions)@) == model::coalesced(
                    action_views(old(actions)@),
                    more,
                )
                &&& final(self)@.approvals + final(self)@.credit() <= old(self)@.approvals + old(
                    self,
                )@.credit()
            }),
    {
        let ghost start = self@;
        let ghost before = action_views(actions@);
        let ghost views = input::unit_views(units@);
        let ghost at = now.nanos as int;
        let mut i: usize = 0;
        assert(views.take(0) =~= Seq::<UnitView>::empty());
        while i < units.len()
            invariant
                i <= units.len(),
                views == input::unit_views(units@),
                at == now.nanos,
                start.approvals <= u32::MAX,
                start.credit() > 0 ==> start.approvals + start.credit() <= u32::MAX,
                self@ == start.acted_on_all(views.take(i as int), at).0,
                action_views(actions@) == model::coalesced(
                    before,
                    start.acted_on_all(views.take(i as int), at).1,
                ),
                self@.approvals + self@.credit() <= start.approvals + start.credit(),
            decreases units.len() - i,
        {
            proof {
                assert(views[i as int] == units@[i as int]@);
                assert(views.take(i + 1).drop_last() =~= views.take(i as int));
                model::lemma_coalesced_in_parts(
                    before,
                    start.acted_on_all(views.take(i as int), at).1,
                    self@.acted(views[i as int], at).1,
                );
            }
            self.act(&units[i], now, actions);
            i = i + 1;
        }
        assert(views.take(i as int) =~= views);
    }

    /// Acts on one unit.
    fn act(&mut self, unit: &Unit, now: Instant, actions: &mut Vec<Action>)
        requires
            old(self)@.credit() > 0 ==> old(self)@.approvals < u32::MAX,
        ensures
            final(self)@ == old(self)@.acted(unit@, now.nanos as int).0,
            action_views(final(actions)@) == model::coalesced(
                action_views(old(actions)@),
                old(self)@.acted(unit@, now.nanos as int).1,
            ),
            final(self)@.approvals + final(self)@.credit() <= old(self)@.approvals + old(
                self,
            )@.credit(),
    {
        let ghost before = self@;
        let ghost taken = before.acted(unit@, now.nanos as int).1;
        let more: Vec<Action> = match unit {
            Unit::Hotkey(Hotkey::Toggle) => self.toggle(now),
            Unit::Hotkey(hotkey) => {
                if self.countdown.is_some() {
                    self.cancel(now)
                } else {
                    let increase: bool = match hotkey {
                        Hotkey::DelayUp => true,
                        _ => false,
                    };
                    self.change_delay(increase, now)
                }
            },
            // The operator did not press anything: the child asked for it.
            Unit::Report(bytes) => {
                forward(actions, bytes.as_slice());
                return;
            },
            Unit::Key(bytes) => {
                if self.countdown.is_none() {
                    forward(actions, bytes.as_slice());
                    return;
                }
                if is_enter(bytes.as_slice()) {
                    self.answer(now)
                } else {
                    self.cancel(now)
                }
            },
        };
        assert(action_views(more@) =~= taken);
        assert(model::forwards_nothing(taken));
        proof {
            model::lemma_nothing_to_join(action_views(actions@), taken);
        }
        extend(actions, more);
    }

    /// Cancels the countdown. The key is swallowed, not forwarded. The buffer is
    /// left intact so the same dialog is re-detected.
    fn cancel(&mut self, now: Instant) -> (actions: Vec<Action>)
        ensures
            (final(self)@, action_views(actions@)) == old(self)@.cancelled(now.nanos as int),
    {
        self.countdown = None;
        let mut line: String = String::new();
        line.append("✗ Cancelled");
        assert(line@ =~= "✗ Cancelled"@);
        self.flash(line, "90", now, FLASH_CANCEL)
    }

    fn on_tick(&mut self, now: Instant) -> (actions: Vec<Action>)
        requires
            old(self)@.credit() > 0 ==> old(self)@.approvals + old(self)@.credit() <= u32::MAX,
        ensures
            (final(self)@, action_views(actions@)) == old(self)@.on_tick(now.nanos as int),
    {
        let ghost at = now.nanos as int;
        // A sequence that has not been continued by now is none: a lone `Esc`.
        let units: Vec<Unit> = self.parser.flush();
        let mut actions: Vec<Action> = nothing();
        let ghost flushed = self@;
        self.act_on_all(&units, now, &mut actions);
        proof {
            model::lemma_one_unit_joins_nothing(flushed, input::unit_views(units@), at);
            assert(action_views(actions@) == old(self)@.resolved(at).1);
        }
        let ghost keys = action_views(actions@);
        let ghost ready = self@;
        let due: bool = match &self.countdown {
            Some(c) => now.nanos as u128 >= c.ends_at,
            None => false,
        };
        let fired: Vec<Action> = if due { self.answer(now) } else { nothing() };
        assert((self@, action_views(fired@)) == ready.fired(at));
        assert(self@.approvals + self@.credit() <= ready.approvals + ready.credit());
        extend(&mut actions, fired);
        let found: Vec<Action> = self.watchdog(now);
        extend(&mut actions, found);
        extend(&mut actions, just(self.status(now)));
        actions
    }

    /// Two jobs, exclusive, and only while listening.
    fn watchdog(&mut self, now: Instant) -> (actions: Vec<Action>)
        requires
            old(self)@.listening() && old(self)@.delay == 0 && old(self)@.buffer.len() > 0 ==> old(
                self,
            )@.approvals < u32::MAX,
        ensures
            (final(self)@, action_views(actions@)) == old(self)@.watched(now.nanos as int),
    {
        if !self.auto_approve || self.countdown.is_some() {
            return nothing();
        }
        // A dialog that arrived while a countdown was running was never offered
        // to detection. This is the only thing that finds it.
        if self.buffer.len() > 0 && self.buffer_is_prompt() {
            return self.start_countdown(now);
        }
        // A dialog that is already painted emits no further bytes, so nothing
        // would re-enter detection on its own. Shake the tree.
        let rested: bool = match &self.last_rescue {
            Some(last) => now.nanos >= last.nanos && now.nanos - last.nanos >= RESCUE_COOLDOWN,
            None => true,
        };
        if now.nanos >= self.last_output.nanos && now.nanos - self.last_output.nanos >= IDLE
            && rested {
            self.last_rescue = Some(now);
            return just(Action::ForceRedraw);
        }
        nothing()
    }

    // ── answering ────────────────────────────────────────────────────────────

    /// Starts the countdown over all that is in the buffer.
    fn arm(&mut self, now: Instant)
        ensures
            final(self)@ == old(self)@.armed(now.nanos as int),
    {
        self.countdown = Some(
            Countdown {
                ends_at: now.nanos as u128 + self.delay as u128 * SECOND as u128,
                watermark: self.buffer.len(),
            },
        );
    }

    fn start_countdown(&mut self, now: Instant) -> (actions: Vec<Action>)
        requires
            old(self)@.delay == 0 ==> old(self)@.approvals < u32::MAX,
        ensures
            (final(self)@, action_views(actions@)) == old(self)@.started(now.nanos as int),
    {
        self.arm(now);
        // A zero delay answers in this same turn rather than waiting a tick.
        if self.delay == 0 {
            return self.answer(now);
        }
        nothing()
    }

    fn answer(&mut self, now: Instant) -> (actions: Vec<Action>)
        requires
            old(self)@.approvals < u32::MAX,
        ensures
            (final(self)@, action_views(actions@)) == old(self)@.answered(now.nanos as int),
    {
        let watermark: usize = match self.countdown.take() {
            Some(c) => c.watermark,
            None => self.buffer.len(),
        };
        self.approvals = self.approvals + 1;

        // Decided from the *whole* buffer, before the truncation below.
        let wants_word: bool = detector::needs_yes(self.text().as_str());

        // Truncate, do not clear: what came after the watermark arrived while
        // detection was off and may be a second dialog.
        let cut: usize = if watermark < self.buffer.len() { watermark } else { self.buffer.len() };
        drop_front(&mut self.buffer, cut);

        let bytes: Vec<u8> = if wants_word { owned(&ANSWER_WORD) } else { owned(&ANSWER_KEY) };
        let mut actions: Vec<Action> = just(Action::Answer(bytes));
        let mut line: String = String::new();
        line.append("✓ Auto-approved (#");
        append_decimal(&mut line, self.approvals as u128);
        line.append(")");
        assert(line@ =~= model::approved_line(self@.approvals));
        let drawn: Vec<Action> = self.flash(line, "32", now, FLASH);
        extend(&mut actions, drawn);
        extend(&mut actions, just(Action::ForceRedraw));
        assert(action_views(actions@) =~= old(self)@.answered(now.nanos as int).1);
        actions
    }

    // ── keys ─────────────────────────────────────────────────────────────────

    fn toggle(&mut self, now: Instant) -> (actions: Vec<Action>)
        ensures
            (final(self)@, action_views(actions@)) == old(self)@.toggled(now.nanos as int),
    {
        self.countdown = None;
        self.auto_approve = !self.auto_approve;
        let mut line: String = String::new();
        if !self.auto_approve {
            line.append("✗ Auto-approve DISABLED");
            assert(line@ =~= "✗ Auto-approve DISABLED"@);
            return self.flash(line, "31", now, FLASH);
        }
        // Re-enabling with a dialog already on screen must not wait for the next
        // byte, which may never come. The countdown is started rather than
        // answered even at a zero delay: the tick that follows fires it, and the
        // deliberate keypress deserves one frame of "about to".
        if self.buffer.len() > 0 && self.buffer_is_prompt() {
            self.arm(now);
        }
        line.append("✓ Auto-approve ENABLED");
        assert(line@ =~= "✓ Auto-approve ENABLED"@);
        self.flash(line, "32", now, FLASH)
    }

    fn change_delay(&mut self, increase: bool, now: Instant) -> (actions: Vec<Action>)
        ensures
            (final(self)@, action_views(actions@)) == old(self)@.delay_moved(
                increase,
                now.nanos as int,
            ),
    {
        let before: u8 = self.delay;
        if increase {
            self.delay = if before < MAX_DELAY { before + 1 } else { MAX_DELAY };
        } else {
            self.delay = if before > 0 { before - 1 } else { 0 };
        }
        if before == self.delay {
            // At the cap or the floor the key is silent.
            return nothing();
        }
        let mut line: String = String::new();
        line.append("⏱  Delay: ");
        append_decimal(&mut line, before as u128);
        line.append("s → ");
        append_decimal(&mut line, self.delay as u128);
        line.append("s");
        assert(line@ =~= model::delay_line(before as int, self@.delay));
        self.flash(line, "36", now, FLASH)
    }

    // ── the bar and the buffer ───────────────────────────────────────────────

    fn text(&self) -> (text: String)
        ensures
            text@ == text::text_of(self@.buffer),
    {
        read_text(&self.buffer)
    }

    /// Scans the buffer and keeps the verdict.
    fn buffer_is_prompt(&mut self) -> (found: bool)
        ensures
            found == model::holds_dialog(old(self)@.buffer),
            final(self)@ == old(self)@.scanned(),
    {
        let detection: Detection = detector::is_prompt(self.text().as_str());
        let found: bool = detection.detected;
        self.detection = Some(detection);
        found
    }

    fn flash(&mut self, line: String, colour: &'static str, now: Instant, hold: u64) -> (actions:
        Vec<Action>)
        ensures
            final(self)@ == old(self)@.flashed(line@, colour@, now.nanos as int, hold as int),
            action_views(actions@) == seq![final(self)@.status(now.nanos as int)],
    {
        self.flash = Some(Flash { text: line, colour, until: now.nanos as u128 + hold as u128 });
        just(self.status(now))
    }

    /// The status bar, highest priority first.
    fn status(&self, now: Instant) -> (action: Action)
        ensures
            action@ == self@.status(now.nanos as int),
    {
        if let Some(flash) = &self.flash {
            if (now.nanos as u128) < flash.until {
                return Action::Status { text: flash.text.clone(), colour: flash.colour };
            }
        }
        if let Some(countdown) = &self.countdown {
            let instant: u128 = now.nanos as u128;
            let left: u128 = if countdown.ends_at > instant {
                countdown.ends_at - instant
            } else {
                0
            };
            // Rounded up, so a 3 s delay reads 3, 2, 1 and never 0 twice.
            let second: u128 = SECOND as u128;
            let part: u128 = if left % second > 0 { 1 } else { 0 };
            let secs: u128 = left / second + part;
            assert(secs == model::seconds_left(countdown.ends_at as int, now.nanos as int));
            let mut line: String = String::new();
            line.append("⏱  Auto-approving in ");
            append_decimal(&mut line, secs);
            line.append("s... (Enter=now, any key=cancel, Ctrl+A=off)");
            assert(line@ =~= model::countdown_line(secs as int));
            return Action::Status { text: line, colour: "33" };
        }
        let mut line: String = String::new();
        if self.auto_approve {
            line.append("auto-approve ON  ");
            append_decimal(&mut line, self.approvals as u128);
            line.append(" approved  delay ");
            append_decimal(&mut line, self.delay as u128);
            line.append("s  [Ctrl+A=toggle, Ctrl+↑↓=delay]");
            assert(line@ =~= model::on_line(self@.approvals, self@.delay));
            Action::Status { text: line, colour: "2" }
        } else {
            line.append("auto-approve OFF  delay ");
            append_decimal(&mut line, self.delay as u128);
            line.append("s  [Ctrl+A=toggle, Ctrl+↑↓=delay]");
            assert(line@ =~= model::off_line(self@.delay));
            Action::Status { text: line, colour: "90" }
        }
    }
}

}
