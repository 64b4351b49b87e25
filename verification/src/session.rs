//! One run of the wrapper: the engine and the terminal together.
//!
//! [`Session::serve`] takes one event and returns the effects it calls for, in
//! order. The caller performs them; what it decides stands here. Output has a
//! step of its own before that, [`Session::show`]: the child's bytes are on the
//! terminal before the engine looks at them.

use vstd::prelude::*;

use crate::detector::Detection;
use crate::engine;
use crate::engine::{Action, Engine};
use crate::engine_laws;
use crate::events::{Event, EventView, Instant};
use crate::model::{ActionView, EngineView};
use crate::terminal;
use crate::terminal::{Terminal, TerminalView, WatchView};

verus! {

/// How long the child's window stays narrow in a redraw, in milliseconds. The
/// gap keeps the kernel from coalescing the two resizes into none.
pub const REDRAW_GAP: u64 = 50;

/// Something the caller performs.
#[derive(Debug, Clone, PartialEq, Eq)]
pub enum Effect {
    /// The child's own bytes, to stdout, as they are.
    Show(Vec<u8>),
    /// The wrapper's own control sequences, to stderr.
    Draw(Vec<u8>),
    /// An answer, to the child, in one write. A write that fails comes back as
    /// [`Event::AnswerFailed`].
    Answer(Vec<u8>),
    /// The user's keystrokes, to the child. A write that fails is of no concern:
    /// the child is exiting.
    Forward(Vec<u8>),
    /// The child's window has this size now.
    Resize { rows: u16, cols: u16 },
    /// Make the child repaint its window of this size, see [`narrowed`].
    Redraw { rows: u16, cols: u16 },
    /// The child is gone: reap it and leave with its status.
    Reap,
    /// Kill the child and leave with this code.
    Quit(u8),
}

/// An [`Effect`] as plain values.
pub enum EffectView {
    Show(Seq<u8>),
    Draw(Seq<u8>),
    Answer(Seq<u8>),
    Forward(Seq<u8>),
    Resize { rows: int, cols: int },
    Redraw { rows: int, cols: int },
    Reap,
    Quit(int),
}

impl View for Effect {
    type V = EffectView;

    open spec fn view(&self) -> EffectView {
        match self {
            Effect::Show(bytes) => EffectView::Show(bytes@),
            Effect::Draw(bytes) => EffectView::Draw(bytes@),
            Effect::Answer(bytes) => EffectView::Answer(bytes@),
            Effect::Forward(bytes) => EffectView::Forward(bytes@),
            Effect::Resize { rows, cols } => EffectView::Resize {
                rows: *rows as int,
                cols: *cols as int,
            },
            Effect::Redraw { rows, cols } => EffectView::Redraw {
                rows: *rows as int,
                cols: *cols as int,
            },
            Effect::Reap => EffectView::Reap,
            Effect::Quit(code) => EffectView::Quit(*code as int),
        }
    }
}

/// The effects as plain values.
pub open spec fn effect_views(effects: Seq<Effect>) -> Seq<EffectView> {
    effects.map_values(|e: Effect| e@)
}

// ── the model ────────────────────────────────────────────────────────────────

/// What performing an action means on this terminal.
pub open spec fn performed(on: TerminalView, action: ActionView) -> EffectView {
    match action {
        ActionView::Answer(bytes) => EffectView::Answer(bytes),
        ActionView::Forward(bytes) => EffectView::Forward(bytes),
        ActionView::Status { line, colour } => EffectView::Draw(
            if on.height < 1 {
                Seq::empty()
            } else {
                terminal::bar_bytes(on.height, line, colour)
            },
        ),
        ActionView::ForceRedraw => EffectView::Redraw {
            rows: terminal::child_rows(on.height),
            cols: on.width,
        },
        ActionView::Exit(code) => EffectView::Quit(code),
    }
}

/// Each action in its turn.
pub open spec fn all_performed(on: TerminalView, actions: Seq<ActionView>) -> Seq<EffectView> {
    actions.map_values(|a: ActionView| performed(on, a))
}

/// The scroll region again, if it is gone.
pub open spec fn margin_again(gone: bool, height: int) -> Seq<EffectView> {
    if gone {
        seq![EffectView::Draw(terminal::remargin_bytes(height))]
    } else {
        seq![]
    }
}

/// A [`Session`] as plain values.
pub struct SessionView {
    pub engine: EngineView,
    pub terminal: TerminalView,
}

impl SessionView {
    /// The child's bytes go to the terminal, and the scroll region after them if
    /// they destroyed it. The engine has no part in it.
    pub open spec fn showed(self, bytes: Seq<u8>) -> (SessionView, Seq<EffectView>) {
        let (watch, gone) = self.terminal.watch.fed(bytes);
        (
            SessionView { terminal: TerminalView { watch, ..self.terminal }, ..self },
            seq![EffectView::Show(bytes)] + margin_again(gone, self.terminal.height),
        )
    }

    /// One event: the session after it, and the effects in order. The end of the
    /// child is no business of the engine.
    pub open spec fn served(self, event: EventView) -> (SessionView, Seq<EffectView>) {
        let (engine, actions) = self.engine.handled(event);
        match event {
            EventView::Eof => (self, seq![EffectView::Reap]),
            _ => (SessionView { engine, ..self }, all_performed(self.terminal, actions)),
        }
    }

    /// One turn of the loop: output is shown, then every event is served.
    pub open spec fn turned(self, event: EventView) -> (SessionView, Seq<EffectView>) {
        let (seen, first) = match event {
            EventView::Output(bytes, _) => self.showed(bytes),
            _ => (self, Seq::empty()),
        };
        let (after, second) = seen.served(event);
        (after, first + second)
    }

    /// The terminal has a new size: the child's window first, then the scroll
    /// region, then the bar.
    pub open spec fn resized(self, width: int, height: int, now: int) -> (
        SessionView,
        Seq<EffectView>,
    ) {
        let on = TerminalView { width, height, ..self.terminal };
        (
            SessionView { terminal: on, ..self },
            seq![
                EffectView::Resize { rows: terminal::child_rows(height), cols: width },
                EffectView::Draw(terminal::remargin_bytes(height)),
                performed(on, self.engine.status(now)),
            ],
        )
    }
}

/// One column less than `cols`; nothing in a window below 2×2.
pub open spec fn narrow_width(rows: int, cols: int) -> Option<int> {
    if rows < 2 || cols < 2 {
        None
    } else {
        Some(cols - 1)
    }
}

/// The width a child's window is set to for a moment, to make the child repaint:
/// one column less, since a child skips the repaint when nothing has changed.
/// `None`, and no redraw, in a window below 2×2.
#[must_use]
pub fn narrowed(rows: u16, cols: u16) -> (narrow: Option<u16>)
    ensures
        narrow == (if rows < 2 || cols < 2 {
            None::<u16>
        } else {
            Some((cols - 1) as u16)
        }),
        match narrow {
            Some(width) => narrow_width(rows as int, cols as int) == Some(width as int),
            None => narrow_width(rows as int, cols as int) is None,
        },
{
    if rows < 2 || cols < 2 {
        None
    } else {
        Some(cols - 1)
    }
}

// ── the session ──────────────────────────────────────────────────────────────

/// The engine and the terminal it speaks through.
#[derive(Debug)]
pub struct Session {
    engine: Engine,
    terminal: Terminal,
}

impl View for Session {
    type V = SessionView;

    closed spec fn view(&self) -> SessionView {
        SessionView { engine: self.engine@, terminal: self.terminal@ }
    }
}

impl Session {
    /// A session with answers after `delay` seconds, on a terminal of this size.
    #[must_use]
    pub fn new(delay: u8, width: u16, height: u16, started: Instant) -> (session: Self)
        ensures
            session@ == (SessionView {
                engine: EngineView::fresh(delay as int, started.nanos as int),
                terminal: TerminalView {
                    width: width as int,
                    height: height as int,
                    watch: WatchView::fresh(),
                },
            }),
            session@.engine.well_formed(),
    {
        Session { engine: Engine::new(delay, started), terminal: Terminal::acquire(width, height) }
    }

    /// What to write to stderr once the child is there: a clear screen and the
    /// scroll region.
    #[must_use]
    pub fn start(&self) -> (bytes: Vec<u8>)
        ensures
            bytes@ == terminal::CLEAR_SCREEN@ + terminal::margin_bytes(self@.terminal.height),
            bytes@ == terminal::start_bytes(self@.terminal.height),
    {
        self.terminal.start()
    }

    /// What to write to stderr on the way out, whatever the way: the terminal is
    /// handed back with a full-height scroll region and a cleared status row.
    #[must_use]
    pub fn release(&self) -> (bytes: Vec<u8>)
        ensures
            bytes@ == terminal::RESET_MARGIN@ + (if self@.terminal.height >= 1 {
                terminal::clear_row_bytes(self@.terminal.height)
            } else {
                Seq::<u8>::empty()
            }),
            bytes@ == terminal::release_bytes(self@.terminal.height),
    {
        self.terminal.release()
    }

    /// Columns of the child's window.
    #[must_use]
    pub fn width(&self) -> (width: u16)
        ensures
            width == self@.terminal.width,
    {
        self.terminal.width()
    }

    /// Rows of the child's window.
    #[must_use]
    pub fn pty_rows(&self) -> (rows: u16)
        ensures
            rows == terminal::child_rows(self@.terminal.height),
    {
        self.terminal.pty_rows()
    }

    /// The number of answers sent so far.
    #[must_use]
    pub fn approvals(&self) -> (count: u32)
        ensures
            count == self@.engine.approvals,
    {
        self.engine.approvals()
    }

    /// The last scan's verdict, if nobody has taken it yet.
    pub fn take_detection(&mut self) -> (detection: Option<Detection>)
        ensures
            match detection {
                Some(d) => old(self)@.engine.detection == Some(d@),
                None => old(self)@.engine.detection is None,
            },
            final(self)@ == (SessionView {
                engine: EngineView { detection: None, ..old(self)@.engine },
                ..old(self)@
            }),
    {
        self.engine.take_detection()
    }

    /// The child wrote these bytes: what to perform before the event that brings
    /// them is served. They are shown as they are, and the scroll region is
    /// re-applied after them if they destroyed it.
    pub fn show(&mut self, bytes: &[u8]) -> (effects: Vec<Effect>)
        ensures
            final(self)@ == (SessionView {
                terminal: TerminalView {
                    watch: old(self)@.terminal.watch.fed(bytes@).0,
                    ..old(self)@.terminal
                },
                ..old(self)@
            }),
            effect_views(effects@) == seq![EffectView::Show(bytes@)] + margin_again(
                old(self)@.terminal.watch.fed(bytes@).1,
                old(self)@.terminal.height,
            ),
            (final(self)@, effect_views(effects@)) == old(self)@.showed(bytes@),
    {
        let mut effects: Vec<Effect> = Vec::new();
        let again: Option<Vec<u8>> = self.terminal.pass_through(bytes);
        effects.push(Effect::Show(vstd::slice::slice_to_vec(bytes)));
        assert(effect_views(effects@) =~= seq![EffectView::Show(bytes@)]);
        if let Some(margin) = again {
            effects.push(Effect::Draw(margin));
        }
        assert(effect_views(effects@) =~= seq![EffectView::Show(bytes@)] + margin_again(
            old(self)@.terminal.watch.fed(bytes@).1,
            old(self)@.terminal.height,
        ));
        effects
    }

    /// Feed one event, get back what to perform. Output has been shown by then,
    /// see [`show`](Self::show).
    pub fn serve(&mut self, event: Event) -> (effects: Vec<Effect>)
        requires
            old(self)@.engine.most_answers(event@) > 0 ==> old(self)@.engine.approvals + old(
                self,
            )@.engine.most_answers(event@) <= u32::MAX,
            event matches Event::Terminate(signo) ==> 128 + signo <= i32::MAX,
        ensures
            (final(self)@, effect_views(effects@)) == old(self)@.served(event@),
            old(self)@.engine.well_formed() ==> final(self)@.engine.well_formed(),
    {
        if let Event::Eof = &event {
            let mut effects: Vec<Effect> = Vec::new();
            effects.push(Effect::Reap);
            assert(effect_views(effects@) =~= seq![EffectView::Reap]);
            return effects;
        }
        let actions: Vec<Action> = self.engine.handle(event);
        self.perform_all(actions)
    }

    /// The terminal has a new size.
    pub fn resized(&mut self, width: u16, height: u16, now: Instant) -> (effects: Vec<Effect>)
        ensures
            (final(self)@, effect_views(effects@)) == old(self)@.resized(
                width as int,
                height as int,
                now.nanos as int,
            ),
    {
        self.terminal.refresh_size(width, height);
        let mut effects: Vec<Effect> = Vec::new();
        effects.push(Effect::Resize { rows: self.terminal.pty_rows(), cols: width });
        effects.push(Effect::Draw(self.terminal.apply_margin()));
        let actions: Vec<Action> = self.engine.handle(Event::Winch(now));
        let ghost first = effect_views(effects@);
        let mut rest: Vec<Effect> = self.perform_all(actions);
        let ghost drawn = effect_views(rest@);
        effects.append(&mut rest);
        assert(effect_views(effects@) =~= first + drawn);
        assert(first + drawn =~= old(self)@.resized(
            width as int,
            height as int,
            now.nanos as int,
        ).1);
        effects
    }

    /// What performing the actions means on this terminal.
    fn perform_all(&self, actions: Vec<Action>) -> (effects: Vec<Effect>)
        ensures
            effect_views(effects@) == all_performed(
                self@.terminal,
                engine::action_views(actions@),
            ),
    {
        let mut effects: Vec<Effect> = Vec::new();
        let ghost views = engine::action_views(actions@);
        let mut i: usize = 0;
        while i < actions.len()
            invariant
                i <= actions.len(),
                views == engine::action_views(actions@),
                effect_views(effects@) == all_performed(self@.terminal, views.take(i as int)),
            decreases actions.len() - i,
        {
            let ghost done = effect_views(effects@);
            let effect: Effect = self.perform(&actions[i]);
            let ghost next = effect@;
            effects.push(effect);
            assert(effect_views(effects@) =~= done.push(next));
            assert(views[i as int] == actions@[i as int]@);
            assert(all_performed(self@.terminal, views.take(i + 1)) =~= done.push(next));
            i = i + 1;
        }
        assert(views.take(i as int) =~= views);
        effects
    }

    /// What performing one action means on this terminal.
    fn perform(&self, action: &Action) -> (effect: Effect)
        ensures
            effect@ == performed(self@.terminal, action@),
    {
        match action {
            Action::Answer(bytes) => Effect::Answer(vstd::slice::slice_to_vec(bytes.as_slice())),
            Action::Forward(bytes) => Effect::Forward(vstd::slice::slice_to_vec(bytes.as_slice())),
            Action::Status { text, colour } => Effect::Draw(
                self.terminal.draw_status(text.as_str(), colour),
            ),
            Action::ForceRedraw => Effect::Redraw {
                rows: self.terminal.pty_rows(),
                cols: self.terminal.width(),
            },
            Action::Exit(code) => Effect::Quit(*code),
        }
    }
}

// ── laws ─────────────────────────────────────────────────────────────────────

/// Many turns of the loop, one after the other: the session after them, and all
/// the effects.
pub open spec fn ran(start: SessionView, events: Seq<EventView>) -> (SessionView, Seq<EffectView>)
    decreases events.len(),
{
    if events.len() == 0 {
        (start, Seq::empty())
    } else {
        let (before, done) = ran(start, events.drop_last());
        let (after, effects) = before.turned(events.last());
        (after, done + effects)
    }
}

/// All that is written to stdout.
pub open spec fn shown(effects: Seq<EffectView>) -> Seq<u8>
    decreases effects.len(),
{
    if effects.len() == 0 {
        Seq::empty()
    } else {
        let before = shown(effects.drop_last());
        match effects.last() {
            EffectView::Show(bytes) => before + bytes,
            _ => before,
        }
    }
}

/// All that the child wrote.
pub open spec fn written(events: Seq<EventView>) -> Seq<u8>
    decreases events.len(),
{
    if events.len() == 0 {
        Seq::empty()
    } else {
        let before = written(events.drop_last());
        match events.last() {
            EventView::Output(bytes, _) => before + bytes,
            _ => before,
        }
    }
}

proof fn lemma_shown_concat(a: Seq<EffectView>, b: Seq<EffectView>)
    ensures
        shown(a + b) == shown(a) + shown(b),
    decreases b.len(),
{
    if b.len() == 0 {
        assert(a + b =~= a);
        assert(shown(a) + shown(b) =~= shown(a));
    } else {
        lemma_shown_concat(a, b.drop_last());
        assert((a + b).drop_last() =~= a + b.drop_last());
        if let EffectView::Show(bytes) = b.last() {
            assert(shown(a) + shown(b.drop_last()) + bytes =~= shown(a) + (shown(b.drop_last())
                + bytes));
        }
    }
}

proof fn lemma_actions_show_nothing(on: TerminalView, actions: Seq<ActionView>)
    ensures
        shown(all_performed(on, actions)) == Seq::<u8>::empty(),
    decreases actions.len(),
{
    let effects = all_performed(on, actions);
    if actions.len() > 0 {
        assert(effects.drop_last() =~= all_performed(on, actions.drop_last()));
        lemma_actions_show_nothing(on, actions.drop_last());
    }
}

proof fn lemma_turn_shows(s: SessionView, event: EventView)
    ensures
        shown(s.turned(event).1) == (match event {
            EventView::Output(bytes, _) => bytes,
            _ => Seq::<u8>::empty(),
        }),
{
    reveal_with_fuel(shown, 2);
    let none = Seq::<EffectView>::empty();
    let actions = s.engine.handled(event).1;
    if let EventView::Output(bytes, _) = event {
        let (seen, first) = s.showed(bytes);
        let show = seq![EffectView::Show(bytes)];
        let again = margin_again(s.terminal.watch.fed(bytes).1, s.terminal.height);
        assert(show.drop_last() =~= none);
        assert(shown(show) =~= bytes);
        if again.len() > 0 {
            assert(again.drop_last() =~= none);
        }
        assert(shown(again) =~= Seq::<u8>::empty());
        lemma_shown_concat(show, again);
        lemma_actions_show_nothing(seen.terminal, actions);
        lemma_shown_concat(first, seen.served(event).1);
        assert(shown(s.turned(event).1) =~= bytes);
    } else {
        lemma_actions_show_nothing(s.terminal, actions);
        let second = s.served(event).1;
        assert(none + second =~= second);
        if event is Eof {
            assert(second.drop_last() =~= none);
        }
    }
}

/// Output is never touched: over a whole session, stdout gets exactly what the
/// child wrote, not modified, not reordered, nothing left out and nothing added.
pub proof fn law_output_is_never_touched(start: SessionView, events: Seq<EventView>)
    ensures
        shown(ran(start, events).1) == written(events),
    decreases events.len(),
{
    if events.len() > 0 {
        law_output_is_never_touched(start, events.drop_last());
        let (before, done) = ran(start, events.drop_last());
        lemma_turn_shows(before, events.last());
        lemma_shown_concat(done, before.turned(events.last()).1);
        assert(written(events.drop_last()) + Seq::<u8>::empty() =~= written(events.drop_last()));
    }
}

/// The child's bytes are shown before the engine sees them: the step that shows
/// them leaves the engine as it was and does not depend on it, and the scroll
/// region that they destroy is re-applied right after them. Only then is the
/// event served.
pub proof fn law_output_is_shown_before_the_engine_sees_it(
    s: SessionView,
    other: EngineView,
    bytes: Seq<u8>,
    now: int,
)
    ensures
        ({
            let event = EventView::Output(bytes, now);
            let (seen, first) = s.showed(bytes);
            &&& seen.engine == s.engine
            &&& first == SessionView { engine: other, ..s }.showed(bytes).1
            &&& first[0] == EffectView::Show(bytes)
            &&& s.terminal.watch.fed(bytes).1 ==> first.len() == 2 && first[1] == EffectView::Draw(
                terminal::remargin_bytes(s.terminal.height),
            )
            &&& s.turned(event) == (seen.served(event).0, first + seen.served(event).1)
        }),
{
}

/// Only the end of the child or a fatal signal ends the session.
pub proof fn law_only_the_child_or_a_signal_ends_a_session(
    s: SessionView,
    event: EventView,
    code: int,
)
    ensures
        s.served(event).1.contains(EffectView::Reap) <==> event is Eof,
        s.served(event).1.contains(EffectView::Quit(code)) ==> event is Terminate,
{
    let (after, effects) = s.served(event);
    let actions = s.engine.handled(event).1;
    if event is Eof {
        assert(effects[0] == EffectView::Reap);
    } else if effects.contains(EffectView::Quit(code)) {
        let i = choose|i: int| 0 <= i < effects.len() && effects[i] == EffectView::Quit(code);
        assert(actions[i] == ActionView::Exit(code));
        assert(actions.contains(ActionView::Exit(code)));
        engine_laws::law_only_a_signal_exits(s.engine, event, code);
    }
}

}
