//! What the engine promises of every state and every run of events.

use vstd::prelude::*;

use crate::detector;
use crate::detector_laws;
use crate::events::EventView;
use crate::input;
use crate::input::{Hotkey, UnitView};
use crate::model;
use crate::model::{ActionView, CountdownView, EngineView};
use crate::text;

verus! {

// ── runs ─────────────────────────────────────────────────────────────────────

/// The answers among the actions, in order.
pub open spec fn answers(actions: Seq<ActionView>) -> Seq<Seq<u8>>
    decreases actions.len(),
{
    if actions.len() == 0 {
        Seq::empty()
    } else {
        let before = answers(actions.drop_last());
        match actions.last() {
            ActionView::Answer(bytes) => before.push(bytes),
            _ => before,
        }
    }
}

/// Many events, one after the other: the state after them, and all the actions.
pub open spec fn ran(start: EngineView, events: Seq<EventView>) -> (EngineView, Seq<ActionView>)
    decreases events.len(),
{
    if events.len() == 0 {
        (start, Seq::empty())
    } else {
        let (before, done) = ran(start, events.drop_last());
        let (after, actions) = before.handled(events.last());
        (after, done + actions)
    }
}

/// How many of the events are output of the child.
pub open spec fn outputs(events: Seq<EventView>) -> nat
    decreases events.len(),
{
    if events.len() == 0 {
        0
    } else {
        outputs(events.drop_last()) + (if events.last() is Output {
            1nat
        } else {
            0
        })
    }
}

proof fn lemma_answers_push(actions: Seq<ActionView>, action: ActionView)
    ensures
        answers(actions.push(action)) == (match action {
            ActionView::Answer(bytes) => answers(actions).push(bytes),
            _ => answers(actions),
        }),
{
    assert(actions.push(action).drop_last() =~= actions);
}

pub proof fn lemma_answers_one(action: ActionView)
    ensures
        answers(seq![action]) == (match action {
            ActionView::Answer(bytes) => seq![bytes],
            _ => seq![],
        }),
{
    lemma_answers_push(seq![], action);
    assert(seq![action] =~= Seq::<ActionView>::empty().push(action));
}

pub proof fn lemma_answers_concat(a: Seq<ActionView>, b: Seq<ActionView>)
    ensures
        answers(a + b) == answers(a) + answers(b),
    decreases b.len(),
{
    if b.len() == 0 {
        assert(a + b =~= a);
        assert(answers(a) + answers(b) =~= answers(a));
    } else {
        lemma_answers_concat(a, b.drop_last());
        assert((a + b).drop_last() =~= a + b.drop_last());
        assert((a + b).last() == b.last());
        if let ActionView::Answer(bytes) = b.last() {
            assert(answers(a) + answers(b.drop_last()).push(bytes) =~= (answers(a) + answers(
                b.drop_last(),
            )).push(bytes));
        }
    }
}

proof fn lemma_answered(s: EngineView, now: int)
    ensures
        answers(s.answered(now).1) == seq![model::answer_to(s.buffer)],
        is_answer(model::answer_to(s.buffer)),
{
    assert(model::ANSWER_KEY@ =~= seq![0x0Du8]);
    assert(model::ANSWER_WORD@ =~= seq![0x79u8, 0x65, 0x73, 0x0D]);
    let actions = s.answered(now).1;
    let first: Seq<ActionView> = seq![actions[0]];
    let second = first.push(actions[1]);
    lemma_answers_one(actions[0]);
    lemma_answers_push(first, actions[1]);
    lemma_answers_push(second, actions[2]);
    assert(actions =~= second.push(actions[2]));
}

/// A return, or `yes` and a return.
pub open spec fn is_answer(bytes: Seq<u8>) -> bool {
    bytes == seq![0x0Du8] || bytes == seq![0x79u8, 0x65, 0x73, 0x0D]
}

/// All of them are.
pub open spec fn all_answers(sent: Seq<Seq<u8>>) -> bool {
    forall|i: int| 0 <= i < sent.len() ==> is_answer(#[trigger] sent[i])
}

proof fn lemma_answers_coalesced(done: Seq<ActionView>, more: Seq<ActionView>)
    ensures
        answers(model::coalesced(done, more)) == answers(done) + answers(more),
    decreases more.len(),
{
    if more.len() == 0 {
        assert(answers(done) + answers(more) =~= answers(done));
    } else {
        let fewer = more.drop_last();
        let so_far = model::coalesced(done, fewer);
        lemma_answers_coalesced(done, fewer);
        lemma_answers_push(so_far, more.last());
        lemma_answers_one(more.last());
        if so_far.len() > 0 && so_far.last() is Forward && more.last() is Forward {
            let joined = model::followed(so_far, more.last());
            lemma_answers_push(so_far.drop_last(), joined.last());
        } else if so_far.len() == 0 {
            assert(so_far.push(more.last()) =~= seq![more.last()]);
        }
        if let ActionView::Answer(bytes) = more.last() {
            assert((answers(done) + answers(fewer)).push(bytes) =~= answers(done) + answers(
                fewer,
            ).push(bytes));
        }
    }
}

proof fn lemma_joined_contains(done: Seq<ActionView>, more: Seq<ActionView>, action: ActionView)
    requires
        !(action is Forward),
        model::coalesced(done, more).contains(action),
    ensures
        done.contains(action) || more.contains(action),
    decreases more.len(),
{
    if more.len() > 0 {
        let fewer = more.drop_last();
        let so_far = model::coalesced(done, fewer);
        let all = model::coalesced(done, more);
        let i = choose|i: int| 0 <= i < all.len() && all[i] == action;
        if more.last() == action {
            assert(more[more.len() - 1] == action);
        } else {
            assert(so_far[i] == action);
            assert(so_far.contains(action));
            lemma_joined_contains(done, fewer, action);
            if fewer.contains(action) {
                let k = choose|k: int| 0 <= k < fewer.len() && fewer[k] == action;
                assert(more[k] == action);
            }
        }
    }
}

/// The answers that acting on one unit sends, spelled out.
pub open spec fn answers_to_unit(s: EngineView, unit: UnitView) -> Seq<Seq<u8>> {
    match unit {
        UnitView::Key(bytes) if s.countdown is Some && input::enters(bytes) => seq![
            model::answer_to(s.buffer),
        ],
        _ => seq![],
    }
}

proof fn lemma_acted(s: EngineView, unit: UnitView, now: int)
    ensures
        answers(s.acted(unit, now).1) == answers_to_unit(s, unit),
        all_answers(answers_to_unit(s, unit)),
        s.acted(unit, now).0.approvals == s.approvals + answers_to_unit(s, unit).len(),
        s.acted(unit, now).0.parser == s.parser,
        s.well_formed() ==> s.acted(unit, now).0.well_formed(),
        s.well_formed() ==> answers_to_unit(s, unit).len() + s.acted(unit, now).0.credit()
            <= s.credit(),
{
    let actions = s.acted(unit, now).1;
    lemma_answered(s, now);
    if actions.len() == 1 {
        assert(actions =~= seq![actions[0]]);
        lemma_answers_one(actions[0]);
    }
}

proof fn lemma_acted_on_all(s: EngineView, units: Seq<UnitView>, now: int)
    ensures
        ({
            let (after, actions) = s.acted_on_all(units, now);
            &&& after.approvals == s.approvals + answers(actions).len()
            &&& all_answers(answers(actions))
            &&& after.parser == s.parser
            &&& s.well_formed() ==> after.well_formed()
            &&& s.well_formed() ==> answers(actions).len() + after.credit() <= s.credit()
        }),
    decreases units.len(),
{
    if units.len() > 0 {
        let (before, done) = s.acted_on_all(units.drop_last(), now);
        lemma_acted_on_all(s, units.drop_last(), now);
        lemma_acted(before, units.last(), now);
        lemma_answers_concat(done, before.acted(units.last(), now).1);
    }
}

/// The answers of a tick, once what the parser holds is resolved.
pub open spec fn answers_of_tick(ready: EngineView, now: int) -> Seq<Seq<u8>> {
    let free = ready.fired(now).0;
    (if ready.is_due(now) {
        seq![model::answer_to(ready.buffer)]
    } else {
        seq![]
    }) + (if free.listening() && free.delay == 0 && free.buffer.len() > 0 && model::holds_dialog(
        free.buffer,
    ) {
        seq![model::answer_to(free.buffer)]
    } else {
        seq![]
    })
}

proof fn lemma_answers_of_tick(s: EngineView, now: int)
    ensures
        answers(s.handled(EventView::Tick(now)).1) == answers(s.resolved(now).1) + answers_of_tick(
            s.resolved(now).0,
            now,
        ),
{
    let (ready, keys) = s.resolved(now);
    let (free, sent) = ready.fired(now);
    let (after, found) = free.watched(now);
    lemma_answered(ready, now);
    lemma_answered(free.scanned().armed(now), now);
    lemma_answers_concat(keys, sent);
    lemma_answers_concat(keys + sent, found);
    lemma_answers_concat(keys + sent + found, seq![after.status(now)]);
    lemma_answers_one(after.status(now));
    if found.len() == 1 {
        assert(found =~= seq![found[0]]);
        lemma_answers_one(found[0]);
    }
    let all = answers(keys + sent + found + seq![after.status(now)]);
    assert(all =~= answers(keys) + (answers(sent) + answers(found)));
    assert(answers(sent) + answers(found) =~= answers_of_tick(ready, now));
}

pub proof fn lemma_nothing_pending(s: EngineView, now: int)
    requires
        s.parser.pending.len() == 0,
    ensures
        s.resolved(now) == (
            EngineView { parser: input::at_ground(), ..s },
            Seq::<ActionView>::empty(),
        ),
{
    assert(input::flushed(s.parser) =~= Seq::<UnitView>::empty());
}

proof fn lemma_output_answers(s: EngineView, bytes: Seq<u8>, now: int)
    ensures
        ({
            let buffer = model::newest(s.buffer + bytes);
            answers(s.handled(EventView::Output(bytes, now)).1) == (if s.listening() && s.delay
                == 0 && model::holds_dialog(buffer) {
                seq![model::answer_to(buffer)]
            } else {
                seq![]
            })
        }),
{
    lemma_answered(s.absorbed(bytes, now).scanned().armed(now), now);
}

/// What every event keeps to.
proof fn lemma_event(s: EngineView, event: EventView)
    ensures
        ({
            let (after, actions) = s.handled(event);
            &&& after.approvals == s.approvals + answers(actions).len()
            &&& all_answers(answers(actions))
            &&& s.well_formed() ==> after.well_formed()
            &&& s.well_formed() ==> answers(actions).len() + after.credit() <= s.credit() + (
            if event is Output {
                1int
            } else {
                0
            })
            &&& event is Output ==> answers(actions).len() <= s.most_answers(event)
        }),
{
    let actions = s.handled(event).1;
    assert(model::ANSWER_KEY@ =~= seq![0x0Du8]);
    assert(model::ANSWER_WORD@ =~= seq![0x79u8, 0x65, 0x73, 0x0D]);
    match event {
        EventView::Output(bytes, now) => {
            lemma_output_answers(s, bytes, now);
        },
        EventView::Input(bytes, now) => {
            let (parser, units) = input::fed(s.parser, bytes);
            let start = EngineView { parser, ..s };
            if s.well_formed() {
                input::lemma_fed_well_formed(s.parser, bytes);
            }
            lemma_acted_on_all(start, units, now);
            let taken = start.acted_on_all(units, now).1;
            lemma_answers_coalesced(Seq::empty(), taken);
            assert(answers(Seq::<ActionView>::empty()) + answers(taken) =~= answers(taken));
        },
        EventView::Tick(now) => {
            let start = EngineView { parser: input::at_ground(), ..s };
            lemma_acted_on_all(start, input::flushed(s.parser), now);
            lemma_answers_of_tick(s, now);
        },
        _ => {
            if actions.len() == 1 {
                assert(actions =~= seq![actions[0]]);
                lemma_answers_one(actions[0]);
            }
        },
    }
}

// ── the state ────────────────────────────────────────────────────────────────

/// The state is well formed from the start and after every run: the delay stays
/// within 0 to 60 seconds, the buffer under its cap, a countdown runs only with
/// auto-approve on, and its watermark is a place in the buffer.
pub proof fn law_every_state_is_well_formed(start: EngineView, events: Seq<EventView>)
    requires
        start.well_formed(),
    ensures
        ran(start, events).0.well_formed(),
    decreases events.len(),
{
    if events.len() > 0 {
        law_every_state_is_well_formed(start, events.drop_last());
        lemma_event(ran(start, events.drop_last()).0, events.last());
    }
}

/// One event keeps the state well formed.
pub proof fn law_an_event_keeps_the_state_well_formed(s: EngineView, event: EventView)
    requires
        s.well_formed(),
    ensures
        s.handled(event).0.well_formed(),
{
    lemma_event(s, event);
}

/// A new engine is on, quiet and well formed.
pub proof fn law_a_new_engine_is_well_formed(delay: int, started: int)
    requires
        delay >= 0,
    ensures
        EngineView::fresh(delay, started).well_formed(),
        EngineView::fresh(delay, started).listening(),
        EngineView::fresh(delay, started).credit() == 0,
{
}

/// Every answer is counted, and nothing else is.
pub proof fn law_the_count_is_the_number_of_answers(start: EngineView, events: Seq<EventView>)
    ensures
        ran(start, events).0.approvals == start.approvals + answers(ran(start, events).1).len(),
    decreases events.len(),
{
    if events.len() > 0 {
        law_the_count_is_the_number_of_answers(start, events.drop_last());
        let (before, done) = ran(start, events.drop_last());
        lemma_answers_concat(done, before.handled(events.last()).1);
        lemma_event(before, events.last());
    }
}

/// No event sends more answers than [`EngineView::most_answers`] says.
pub proof fn law_answers_per_event_are_bounded(s: EngineView, event: EventView)
    requires
        s.well_formed(),
    ensures
        answers(s.handled(event).1).len() <= s.most_answers(event) <= 2,
{
    lemma_event(s, event);
    let actions = s.handled(event).1;
    if actions.len() == 1 {
        assert(actions =~= seq![actions[0]]);
        lemma_answers_one(actions[0]);
    }
}

/// The states and actions of an engine that is given the events one by one.
pub open spec fn is_trace(
    start: EngineView,
    events: Seq<EventView>,
    states: Seq<EngineView>,
    actions: Seq<Seq<ActionView>>,
) -> bool {
    &&& states.len() == events.len() + 1
    &&& actions.len() == events.len()
    &&& states[0] == start
    &&& forall|i: int|
        0 <= i < events.len() ==> (states[i + 1], #[trigger] actions[i]) == states[i].handled(
            events[i],
        )
}

/// The events alone decide, stamps included, never the clock: two engines that
/// start alike and are given the same events return the same actions for each
/// of them and stay alike.
pub proof fn law_the_events_alone_decide(
    start: EngineView,
    events: Seq<EventView>,
    states: Seq<EngineView>,
    actions: Seq<Seq<ActionView>>,
    other_states: Seq<EngineView>,
    other_actions: Seq<Seq<ActionView>>,
    n: int,
)
    requires
        is_trace(start, events, states, actions),
        is_trace(start, events, other_states, other_actions),
        0 <= n <= events.len(),
    ensures
        states[n] == other_states[n],
        n < events.len() ==> actions[n] == other_actions[n],
    decreases n,
{
    if n > 0 {
        law_the_events_alone_decide(
            start,
            events,
            states,
            actions,
            other_states,
            other_actions,
            n - 1,
        );
        assert((states[n - 1 + 1], actions[n - 1]) == states[n - 1].handled(events[n - 1]));
        assert((other_states[n - 1 + 1], other_actions[n - 1]) == other_states[n - 1].handled(
            events[n - 1],
        ));
    }
    if n < events.len() {
        assert((states[n + 1], actions[n]) == states[n].handled(events[n]));
        assert((other_states[n + 1], other_actions[n]) == other_states[n].handled(events[n]));
    }
}

// ── off means off ────────────────────────────────────────────────────────────

/// Neither an answer nor a redraw is among the actions.
pub open spec fn leaves_the_child_alone(actions: Seq<ActionView>) -> bool {
    forall|i: int|
        0 <= i < actions.len() ==> !(#[trigger] actions[i] is Answer) && !(actions[i]
            is ForceRedraw)
}

/// Among the units, `Enter` follows the toggle key.
pub open spec fn enters_after_toggle(units: Seq<UnitView>) -> bool {
    exists|i: int, j: int|
        #![trigger units[i], units[j]]
        0 <= i < j < units.len() && units[i] == UnitView::Hotkey(Hotkey::Toggle)
            && is_enter_key(units[j])
}

/// The unit is `Enter`, in one of its encodings.
pub open spec fn is_enter_key(unit: UnitView) -> bool {
    unit matches UnitView::Key(bytes) && input::enters(bytes)
}

/// The event is one read in which `Enter` follows the toggle key: the first
/// switches on, the second may answer.
pub open spec fn toggles_and_enters(s: EngineView, event: EventView) -> bool {
    event matches EventView::Input(bytes, _) && enters_after_toggle(
        input::fed(s.parser, bytes).1,
    )
}

/// The event holds the toggle key, in one of its encodings.
pub open spec fn toggles(s: EngineView, event: EventView) -> bool {
    event matches EventView::Input(bytes, _) && input::fed(s.parser, bytes).1.contains(
        UnitView::Hotkey(Hotkey::Toggle),
    )
}

/// Whatever the user does while auto-approve is off, the toggle key included,
/// neither answers nor makes the child repaint.
pub proof fn law_no_key_answers_while_off(s: EngineView, unit: UnitView, now: int)
    requires
        s.well_formed(),
        !s.auto_approve,
    ensures
        leaves_the_child_alone(s.acted(unit, now).1),
        s.acted(unit, now).0.approvals == s.approvals,
{
}

proof fn lemma_off_until_toggled(s: EngineView, units: Seq<UnitView>, now: int)
    requires
        s.well_formed(),
        !s.auto_approve,
        !units.contains(UnitView::Hotkey(Hotkey::Toggle)),
    ensures
        !s.acted_on_all(units, now).0.auto_approve,
    decreases units.len(),
{
    if units.len() > 0 {
        let fewer = units.drop_last();
        assert forall|i: int| 0 <= i < fewer.len() implies #[trigger] fewer[i]
            != UnitView::Hotkey(Hotkey::Toggle) by {
            assert(fewer[i] == units[i]);
        }
        lemma_off_until_toggled(s, fewer, now);
        lemma_acted_on_all(s, fewer, now);
        assert(units[units.len() - 1] != UnitView::Hotkey(Hotkey::Toggle));
    }
}

proof fn lemma_units_while_off(s: EngineView, units: Seq<UnitView>, now: int)
    requires
        s.well_formed(),
        !s.auto_approve,
        !enters_after_toggle(units),
    ensures
        leaves_the_child_alone(s.acted_on_all(units, now).1),
        s.acted_on_all(units, now).0.approvals == s.approvals,
    decreases units.len(),
{
    if units.len() > 0 {
        let fewer = units.drop_last();
        let unit = units.last();
        assert(!enters_after_toggle(fewer)) by {
            if enters_after_toggle(fewer) {
                let (i, j) = choose|i: int, j: int|
                    #![trigger fewer[i], fewer[j]]
                    0 <= i < j < fewer.len() && fewer[i] == UnitView::Hotkey(Hotkey::Toggle)
                        && is_enter_key(fewer[j]);
                assert(units[i] == fewer[i] && units[j] == fewer[j]);
            }
        }
        lemma_units_while_off(s, fewer, now);
        lemma_acted_on_all(s, fewer, now);
        let (before, done) = s.acted_on_all(fewer, now);
        if is_enter_key(unit) {
            if fewer.contains(UnitView::Hotkey(Hotkey::Toggle)) {
                let i = choose|i: int|
                    0 <= i < fewer.len() && fewer[i] == UnitView::Hotkey(Hotkey::Toggle);
                assert(units[i] == fewer[i]);
                assert(is_enter_key(units[units.len() - 1]));
            }
            lemma_off_until_toggled(s, fewer, now);
        }
        let more = before.acted(unit, now).1;
        assert(leaves_the_child_alone(more));
        let all = done + more;
        assert forall|i: int| 0 <= i < all.len() implies !(#[trigger] all[i] is Answer) && !(
        all[i] is ForceRedraw) by {
            if i < done.len() {
                assert(done[i] == all[i]);
            } else {
                assert(more[i - done.len()] == all[i]);
            }
        }
    }
}

/// Off means off: with auto-approve off, no event answers anything or makes the
/// child repaint, but for a read in which `Enter` follows the toggle key. An
/// event without the toggle key leaves auto-approve off.
pub proof fn law_off_means_off(s: EngineView, event: EventView)
    requires
        s.well_formed(),
        !s.auto_approve,
        !toggles_and_enters(s, event),
    ensures
        leaves_the_child_alone(s.handled(event).1),
        answers(s.handled(event).1).len() == 0,
        s.handled(event).0.approvals == s.approvals,
        !toggles(s, event) ==> !s.handled(event).0.auto_approve,
{
    lemma_event(s, event);
    match event {
        EventView::Input(bytes, now) => {
            let (parser, units) = input::fed(s.parser, bytes);
            input::lemma_fed_well_formed(s.parser, bytes);
            let start = EngineView { parser, ..s };
            lemma_units_while_off(start, units, now);
            if !toggles(s, event) {
                lemma_off_until_toggled(start, units, now);
            }
            let taken = start.acted_on_all(units, now).1;
            let all = s.handled(event).1;
            assert forall|i: int| 0 <= i < all.len() implies !(#[trigger] all[i] is Answer) && !(
            all[i] is ForceRedraw) by {
                if all[i] is Answer || all[i] is ForceRedraw {
                    assert(all.contains(all[i]));
                    lemma_joined_contains(Seq::empty(), taken, all[i]);
                    let k = choose|k: int| 0 <= k < taken.len() && taken[k] == all[i];
                    assert(taken[k] == all[i]);
                }
            }
        },
        EventView::Tick(now) => {
            let start = EngineView { parser: input::at_ground(), ..s };
            let units = input::flushed(s.parser);
            lemma_units_while_off(start, units, now);
            lemma_off_until_toggled(start, units, now);
            lemma_acted_on_all(start, units, now);
        },
        _ => {},
    }
}

/// None of the events holds the toggle key.
pub open spec fn never_toggled(start: EngineView, events: Seq<EventView>) -> bool
    decreases events.len(),
{
    events.len() > 0 ==> never_toggled(start, events.drop_last()) && !toggles(
        ran(start, events.drop_last()).0,
        events.last(),
    )
}

/// Off stays off: over a whole run in which the toggle key is not pressed,
/// nothing is answered.
pub proof fn law_off_stays_off(start: EngineView, events: Seq<EventView>)
    requires
        start.well_formed(),
        !start.auto_approve,
        never_toggled(start, events),
    ensures
        answers(ran(start, events).1).len() == 0,
        !ran(start, events).0.auto_approve,
    decreases events.len(),
{
    if events.len() > 0 {
        let fewer = events.drop_last();
        law_off_stays_off(start, fewer);
        law_every_state_is_well_formed(start, fewer);
        let (before, done) = ran(start, fewer);
        if let EventView::Input(bytes, _) = events.last() {
            let units = input::fed(before.parser, bytes).1;
            assert forall|i: int| 0 <= i < units.len() implies #[trigger] units[i]
                != UnitView::Hotkey(Hotkey::Toggle) by {
                assert(!units.contains(UnitView::Hotkey(Hotkey::Toggle)));
            }
        }
        law_off_means_off(before, events.last());
        lemma_answers_concat(done, before.handled(events.last()).1);
    }
}

/// The toggle key itself sends nothing, neither an answer nor the key, and
/// stops a countdown that runs; pressed twice it leaves auto-approve as it was.
pub proof fn law_the_toggle_key_is_consumed(s: EngineView, now: int, later: int)
    requires
        s.well_formed(),
    ensures
        ({
            let key = UnitView::Hotkey(Hotkey::Toggle);
            let (once, actions) = s.acted(key, now);
            &&& actions == seq![once.status(now)]
            &&& once.auto_approve == !s.auto_approve
            &&& s.auto_approve ==> once.countdown is None
            &&& once.acted(key, later).0.auto_approve == s.auto_approve
        }),
{
}

// ── what is answered ─────────────────────────────────────────────────────────

/// Every answer is a bare return or `yes` and the return, in that order and in
/// one write.
pub proof fn law_an_answer_is_the_key_or_the_word(s: EngineView, event: EventView)
    ensures
        all_answers(answers(s.handled(event).1)),
{
    lemma_event(s, event);
}

/// Output in which no dialog is found is not acted on, nor is any output while
/// auto-approve is off or a countdown runs.
pub proof fn law_plain_output_is_not_acted_on(s: EngineView, bytes: Seq<u8>, now: int)
    requires
        !s.listening() || !model::holds_dialog(model::newest(s.buffer + bytes)),
    ensures
        s.handled(EventView::Output(bytes, now)).1.len() == 0,
{
}

/// A failed answer is not retried: the bar says so, and all else is as before.
pub proof fn law_a_failed_answer_is_not_retried(s: EngineView, now: int)
    ensures
        ({
            let (after, actions) = s.handled(EventView::AnswerFailed(now));
            &&& actions == seq![after.status(now)]
            &&& after == EngineView { flash: after.flash, ..s }
        }),
{
}

// ── one answer per dialog ────────────────────────────────────────────────────

/// There are never more answers than reads of output, beyond what the state
/// already owed at the start. The watermark is what guarantees it: an answered
/// dialog leaves the buffer with its answer.
pub proof fn law_no_more_answers_than_reads(start: EngineView, events: Seq<EventView>)
    requires
        start.well_formed(),
    ensures
        answers(ran(start, events).1).len() + ran(start, events).0.credit() <= start.credit()
            + outputs(events),
    decreases events.len(),
{
    if events.len() > 0 {
        let fewer = events.drop_last();
        law_no_more_answers_than_reads(start, fewer);
        law_every_state_is_well_formed(start, fewer);
        let (before, done) = ran(start, fewer);
        lemma_answers_concat(done, before.handled(events.last()).1);
        lemma_event(before, events.last());
    }
}

/// One dialog is answered at most once: with no further output, a dialog that is
/// found while nothing else is pending gets one answer, whatever keys are
/// pressed and however much time goes by.
pub proof fn law_one_dialog_gets_one_answer(
    start: EngineView,
    bytes: Seq<u8>,
    now: int,
    events: Seq<EventView>,
)
    requires
        start.well_formed(),
        start.countdown is None,
        outputs(events) == 0,
    ensures
        ({
            let (found, at_once) = start.handled(EventView::Output(bytes, now));
            answers(at_once).len() + answers(ran(found, events).1).len() <= 1
        }),
{
    let output = EventView::Output(bytes, now);
    let found = start.handled(output).0;
    lemma_event(start, output);
    lemma_output_answers(start, bytes, now);
    law_no_more_answers_than_reads(found, events);
}

/// A dialog that is found with a delay is answered by the first tick that
/// reaches the deadline: with one answer, after which nothing is left of it. No
/// key is half read by then: it might cancel.
pub proof fn law_a_dialog_is_answered_when_its_time_is_up(
    s: EngineView,
    bytes: Seq<u8>,
    now: int,
    later: int,
)
    requires
        s.well_formed(),
        s.listening(),
        s.parser.pending.len() == 0,
        s.delay > 0,
        model::holds_dialog(model::newest(s.buffer + bytes)),
        later >= now + s.delay * 1_000_000_000,
    ensures
        ({
            let (waiting, at_once) = s.handled(EventView::Output(bytes, now));
            let (done, actions) = waiting.handled(EventView::Tick(later));
            &&& at_once.len() == 0
            &&& answers(actions) == seq![model::answer_to(model::newest(s.buffer + bytes))]
            &&& done.buffer.len() == 0
            &&& done.countdown is None
        }),
{
    let (waiting, _) = s.handled(EventView::Output(bytes, now));
    lemma_nothing_pending(waiting, later);
    lemma_answers_of_tick(waiting, later);
    let sent = seq![model::answer_to(waiting.buffer)];
    assert(Seq::<Seq<u8>>::empty() + (sent + Seq::<Seq<u8>>::empty()) =~= sent);
}

/// A dialog that arrives while a countdown runs is answered too: the tick that
/// fires the countdown finds it in what is kept and starts the next one, and
/// the tick that reaches that deadline answers it.
pub proof fn law_a_dialog_behind_another_is_answered(s: EngineView, now: int, later: int)
    requires
        s.well_formed(),
        s.parser.pending.len() == 0,
        s.is_due(now),
        s.delay > 0,
        ({
            let kept = s.buffer.skip(s.countdown->0.watermark);
            kept.len() > 0 && model::holds_dialog(kept)
        }),
        later >= now + s.delay * 1_000_000_000,
    ensures
        ({
            let kept = s.buffer.skip(s.countdown->0.watermark);
            let (waiting, first) = s.handled(EventView::Tick(now));
            let (done, second) = waiting.handled(EventView::Tick(later));
            &&& answers(first) == seq![model::answer_to(s.buffer)]
            &&& waiting.buffer == kept
            &&& waiting.countdown == Some(
                CountdownView {
                    ends_at: now + s.delay * 1_000_000_000,
                    watermark: kept.len() as int,
                },
            )
            &&& answers(second) == seq![model::answer_to(kept)]
            &&& done.buffer.len() == 0
            &&& done.approvals == s.approvals + 2
        }),
{
    let none = Seq::<Seq<u8>>::empty();
    let kept = s.buffer.skip(s.countdown->0.watermark);
    lemma_nothing_pending(s, now);
    lemma_answers_of_tick(s, now);
    let ready = s.resolved(now).0;
    let free = ready.fired(now).0;
    assert(free.buffer =~= kept);
    let (waiting, first) = s.handled(EventView::Tick(now));
    let one = seq![model::answer_to(s.buffer)];
    assert(none + (one + none) =~= one);
    lemma_nothing_pending(waiting, later);
    lemma_answers_of_tick(waiting, later);
    let two = seq![model::answer_to(kept)];
    assert(none + (two + none) =~= two);
}

/// A countdown that is due never blocks: the tick answers, first of all, unless a
/// key that was half read cancels it.
pub proof fn law_a_due_countdown_fires(s: EngineView, now: int)
    requires
        s.is_due(now),
        s.parser.pending.len() == 0,
    ensures
        ({
            let (after, actions) = s.handled(EventView::Tick(now));
            &&& actions[0] == ActionView::Answer(model::answer_to(s.buffer))
            &&& answers(actions).len() >= 1
            &&& after.approvals > s.approvals
        }),
{
    lemma_nothing_pending(s, now);
    lemma_answers_of_tick(s, now);
    lemma_event(s, EventView::Tick(now));
}

/// The reads, each stamped with the same instant.
pub open spec fn reads(dialogs: Seq<Seq<u8>>, now: int) -> Seq<EventView> {
    dialogs.map_values(|bytes: Seq<u8>| EventView::Output(bytes, now))
}

/// The answers that the dialogs call for.
pub open spec fn answers_to(dialogs: Seq<Seq<u8>>) -> Seq<Seq<u8>> {
    dialogs.map_values(|bytes: Seq<u8>| model::answer_to(bytes))
}

/// Rapid dialogs each get exactly one answer, their own and in order: at a zero
/// delay, dialogs that come one per read are answered one by one.
pub proof fn law_rapid_dialogs_each_get_their_answer(
    s: EngineView,
    dialogs: Seq<Seq<u8>>,
    now: int,
)
    requires
        s.listening(),
        s.delay == 0,
        s.buffer.len() == 0,
        forall|i: int|
            0 <= i < dialogs.len() ==> #[trigger] dialogs[i].len() <= 10_000
                && model::holds_dialog(dialogs[i]),
    ensures
        answers(ran(s, reads(dialogs, now)).1) == answers_to(dialogs),
        ran(s, reads(dialogs, now)).0.listening(),
        ran(s, reads(dialogs, now)).0.delay == 0,
        ran(s, reads(dialogs, now)).0.buffer.len() == 0,
    decreases dialogs.len(),
{
    let events = reads(dialogs, now);
    if dialogs.len() == 0 {
        assert(answers_to(dialogs) =~= Seq::<Seq<u8>>::empty());
    } else {
        let fewer = dialogs.drop_last();
        let dialog = dialogs[dialogs.len() - 1];
        assert(events.drop_last() =~= reads(fewer, now));
        assert forall|i: int| 0 <= i < fewer.len() implies #[trigger] fewer[i].len() <= 10_000
            && model::holds_dialog(fewer[i]) by {
            assert(fewer[i] == dialogs[i]);
        }
        law_rapid_dialogs_each_get_their_answer(s, fewer, now);
        let (before, done) = ran(s, reads(fewer, now));
        let event = EventView::Output(dialog, now);
        assert(events.last() == event);
        assert(before.buffer + dialog =~= dialog);
        lemma_output_answers(before, dialog, now);
        lemma_answers_concat(done, before.handled(event).1);
        assert(answers_to(dialogs) =~= answers_to(fewer) + seq![model::answer_to(dialog)]);
    }
}

// ── the buffer ───────────────────────────────────────────────────────────────

proof fn lemma_newest_in_steps(buffer: Seq<u8>, a: Seq<u8>, b: Seq<u8>)
    ensures
        model::newest(model::newest(buffer + a) + b) == model::newest(buffer + (a + b)),
{
    assert(model::newest(model::newest(buffer + a) + b) =~= model::newest(buffer + (a + b)));
}

/// A dialog that comes in two reads is found like one that comes in one: if the
/// first part alone is no dialog, the two reads do what the one would have done.
pub proof fn law_a_split_dialog_is_still_found(
    s: EngineView,
    a: Seq<u8>,
    b: Seq<u8>,
    now: int,
    later: int,
)
    requires
        !s.listening() || !model::holds_dialog(model::newest(s.buffer + a)),
    ensures
        ({
            let (half, nothing) = s.handled(EventView::Output(a, now));
            &&& nothing.len() == 0
            &&& half.handled(EventView::Output(b, later)) == s.handled(
                EventView::Output(a + b, later),
            )
        }),
{
    lemma_newest_in_steps(s.buffer, a, b);
}

/// Noise before a dialog does not blind the engine. A dialog that would be found
/// alone is found in the buffer, which holds it and what is left of the output
/// before it, unless an escape of that output takes in the dialog's beginning.
pub proof fn law_noise_does_not_blind_the_engine(s: EngineView, dialog: Seq<u8>, now: int)
    requires
        s.listening(),
        dialog.len() <= 10_000,
        vstd::utf8::valid_utf8(dialog),
        model::holds_dialog(dialog),
        detector_laws::line_count(detector::stripped(text::text_of(dialog))) <= 50,
        ({
            let seen = model::newest(s.buffer + dialog);
            detector_laws::no_escape_reaches(
                text::text_of(seen.take(seen.len() - dialog.len())),
                text::text_of(dialog),
            )
        }),
    ensures
        s.handled(EventView::Output(dialog, now)) == s.absorbed(dialog, now).scanned().started(now),
{
    let seen = model::newest(s.buffer + dialog);
    let noise = seen.take(seen.len() - dialog.len());
    assert(seen =~= noise + dialog);
    text::law_clean_bytes_read_the_same(noise, dialog);
    detector_laws::law_volume_does_not_hide_a_dialog(text::text_of(noise), text::text_of(dialog));
}

/// What arrives while a countdown runs is kept for detection, as far as the
/// buffer reaches: the answer takes what is left of what stood there when the
/// countdown began, and nothing else.
pub proof fn law_output_during_a_countdown_is_kept(
    s: EngineView,
    bytes: Seq<u8>,
    now: int,
    later: int,
)
    requires
        s.well_formed(),
        s.countdown is Some,
    ensures
        ({
            let (waiting, nothing) = s.handled(EventView::Output(bytes, now));
            &&& nothing.len() == 0
            &&& waiting.countdown is Some
            &&& waiting.countdown->0.ends_at == s.countdown->0.ends_at
            &&& waiting.answered(later).0.buffer == model::newest(
                s.buffer.skip(s.countdown->0.watermark) + bytes,
            )
        }),
{
    let (waiting, _) = s.handled(EventView::Output(bytes, now));
    assert(waiting.answered(later).0.buffer =~= model::newest(
        s.buffer.skip(s.countdown->0.watermark) + bytes,
    ));
}

// ── keys ─────────────────────────────────────────────────────────────────────

/// A key that is none of the toggle and, during a countdown, not `Enter`.
pub open spec fn cancels(unit: UnitView) -> bool {
    match unit {
        UnitView::Hotkey(hotkey) => hotkey != Hotkey::Toggle,
        UnitView::Key(bytes) => !input::enters(bytes),
        UnitView::Report(_) => false,
    }
}

/// Cancel means "not yet": the key is swallowed, the buffer stays, and the next
/// tick finds the same dialog again.
pub proof fn law_cancel_is_not_permanent(s: EngineView, unit: UnitView, now: int, later: int)
    requires
        s.well_formed(),
        s.parser.pending.len() == 0,
        s.countdown is Some,
        cancels(unit),
        s.buffer.len() > 0,
        model::holds_dialog(s.buffer),
    ensures
        ({
            let (idle, actions) = s.acted(unit, now);
            let again = idle.handled(EventView::Tick(later)).0;
            &&& actions == seq![idle.status(now)]
            &&& idle.buffer == s.buffer
            &&& idle.countdown is None
            &&& s.delay > 0 ==> again.countdown == idle.armed(later).countdown
            &&& s.delay == 0 ==> again.approvals == s.approvals + 1
        }),
{
    let idle = s.acted(unit, now).0;
    lemma_nothing_pending(idle, later);
}

/// `Enter` during a countdown answers now, in any of its encodings.
pub proof fn law_enter_answers_now(s: EngineView, key: Seq<u8>, now: int)
    requires
        s.countdown is Some,
        input::enters(key),
    ensures
        answers(s.acted(UnitView::Key(key), now).1) == seq![model::answer_to(s.buffer)],
        s.acted(UnitView::Key(key), now).0.countdown is None,
{
    lemma_acted(s, UnitView::Key(key), now);
}

/// A report is no keystroke: it goes to the child as it is, always, and changes
/// nothing. Clicking away from the window does not cancel a countdown.
pub proof fn law_a_report_is_forwarded_and_never_cancels(s: EngineView, report: Seq<u8>, now: int)
    ensures
        s.acted(UnitView::Report(report), now) == (s, seq![ActionView::Forward(report)]),
{
}

/// What goes to the child as it is: a report, and a key while no countdown runs.
/// Hotkeys never do.
pub proof fn law_only_reports_and_unused_keys_are_forwarded(
    s: EngineView,
    unit: UnitView,
    now: int,
    sent: Seq<u8>,
)
    ensures
        s.acted(unit, now).1.contains(ActionView::Forward(sent)) <==> (unit == UnitView::Report(
            sent,
        ) || unit == UnitView::Key(sent) && s.countdown is None),
{
    let actions = s.acted(unit, now).1;
    if unit == UnitView::Report(sent) || unit == UnitView::Key(sent) && s.countdown is None {
        assert(actions[0] == ActionView::Forward(sent));
    }
}

/// A complete sequence is acted on as the one unit that it is, whatever its
/// encoding: a hotkey, a report or a key.
pub proof fn law_a_sequence_is_acted_on_as_one(s: EngineView, seq: Seq<u8>, now: int)
    requires
        s.parser == input::at_ground(),
        input::is_complete_csi(seq),
    ensures
        s.handled(EventView::Input(seq, now)) == s.acted(input::classified(seq), now),
{
    let unit = input::classified(seq);
    let none = Seq::<u8>::empty();
    assert(seq + none =~= seq);
    input::law_a_csi_sequence_is_assembled(seq, none);
    let (parser, units) = input::fed(s.parser, seq);
    assert(units + Seq::<UnitView>::empty() =~= units);
    assert(input::fed(parser, none) == (parser, Seq::<UnitView>::empty()));
    assert(units =~= seq![unit]);
    model::lemma_one_unit_joins_nothing(s, units, now);
    assert(units.drop_last() =~= Seq::<UnitView>::empty());
    assert(s.acted_on_all(units.drop_last(), now) == (s, Seq::<ActionView>::empty()));
    assert(Seq::<ActionView>::empty() + s.acted(unit, now).1 =~= s.acted(unit, now).1);
}

/// A lone `Esc` is held until the tick, which takes it for the key it is.
pub proof fn law_a_lone_escape_is_a_key_by_the_next_tick(s: EngineView, now: int, later: int)
    requires
        s.parser == input::at_ground(),
    ensures
        ({
            let esc = seq![0x1Bu8];
            let (held, nothing) = s.handled(EventView::Input(esc, now));
            &&& nothing.len() == 0
            &&& held.parser.pending == esc
            &&& held.resolved(later) == s.acted(UnitView::Key(esc), later)
        }),
{
    let esc = seq![0x1Bu8];
    reveal_with_fuel(input::fed, 2);
    assert(esc.drop_last() =~= Seq::<u8>::empty());
    assert(Seq::<u8>::empty().push(0x1B) =~= esc);
    let (parser, units) = input::fed(s.parser, esc);
    assert(units =~= Seq::<UnitView>::empty());
    let (held, nothing) = s.handled(EventView::Input(esc, now));
    assert(held == EngineView { parser, ..s });
    let key: Seq<UnitView> = seq![UnitView::Key(esc)];
    assert(input::flushed(held.parser) =~= key);
    assert(key.drop_last() =~= Seq::<UnitView>::empty());
    assert(s.acted_on_all(key.drop_last(), later) == (s, Seq::<ActionView>::empty()));
    assert(Seq::<ActionView>::empty() + s.acted(key[0], later).1 =~= s.acted(key[0], later).1);
}

/// All that the actions send to the child as keystrokes.
pub open spec fn keystrokes(actions: Seq<ActionView>) -> Seq<u8>
    decreases actions.len(),
{
    if actions.len() == 0 {
        Seq::empty()
    } else {
        let before = keystrokes(actions.drop_last());
        match actions.last() {
            ActionView::Forward(bytes) => before + bytes,
            _ => before,
        }
    }
}

/// Joining keystrokes changes none of their bytes.
pub proof fn law_joining_keeps_every_byte(done: Seq<ActionView>, more: Seq<ActionView>)
    ensures
        keystrokes(model::coalesced(done, more)) == keystrokes(done) + keystrokes(more),
    decreases more.len(),
{
    if more.len() == 0 {
        assert(keystrokes(done) + keystrokes(more) =~= keystrokes(done));
    } else {
        let fewer = more.drop_last();
        let so_far = model::coalesced(done, fewer);
        let all = model::followed(so_far, more.last());
        law_joining_keeps_every_byte(done, fewer);
        if so_far.len() == 0 {
            assert(all.drop_last() =~= Seq::<ActionView>::empty());
            assert(keystrokes(all.drop_last()) =~= keystrokes(so_far));
        } else if so_far.last() is Forward && more.last() is Forward {
            assert(all.drop_last() =~= so_far.drop_last());
            let a = so_far.last()->Forward_0;
            let b = more.last()->Forward_0;
            assert(keystrokes(so_far.drop_last()) + (a + b) =~= keystrokes(so_far) + b);
        } else {
            assert(all.drop_last() =~= so_far);
        }
        if let ActionView::Forward(b) = more.last() {
            assert(keystrokes(done) + keystrokes(fewer) + b =~= keystrokes(done) + (keystrokes(
                fewer,
            ) + b));
        }
    }
}

/// The keystrokes of an action one byte at a time; any other action as it is.
pub open spec fn spread_one(action: ActionView) -> Seq<ActionView> {
    match action {
        ActionView::Forward(bytes) => bytes.map_values(|b: u8| ActionView::Forward(seq![b])),
        _ => seq![action],
    }
}

/// The actions with their keystrokes one byte at a time.
pub open spec fn spread(actions: Seq<ActionView>) -> Seq<ActionView>
    decreases actions.len(),
{
    if actions.len() == 0 {
        Seq::empty()
    } else {
        spread(actions.drop_last()) + spread_one(actions.last())
    }
}

/// Joining keystrokes moves nothing: byte by byte and action by action, what is
/// done is what was to be done, in the same order.
pub proof fn law_joining_moves_nothing(done: Seq<ActionView>, more: Seq<ActionView>)
    ensures
        spread(model::coalesced(done, more)) == spread(done) + spread(more),
    decreases more.len(),
{
    if more.len() == 0 {
        assert(spread(done) + spread(more) =~= spread(done));
    } else {
        let fewer = more.drop_last();
        let so_far = model::coalesced(done, fewer);
        let all = model::followed(so_far, more.last());
        law_joining_moves_nothing(done, fewer);
        let one = spread_one(more.last());
        assert((spread(done) + spread(fewer)) + one =~= spread(done) + (spread(fewer) + one));
        if so_far.len() == 0 {
            assert(all.drop_last() =~= so_far);
        } else if so_far.last() is Forward && more.last() is Forward {
            assert(all.drop_last() =~= so_far.drop_last());
            let a = so_far.last()->Forward_0;
            let b = more.last()->Forward_0;
            assert(spread_one(ActionView::Forward(a + b)) =~= spread_one(so_far.last()) + one);
            let head = spread(so_far.drop_last());
            assert(head + (spread_one(so_far.last()) + one) =~= (head + spread_one(so_far.last()))
                + one);
        } else {
            assert(all.drop_last() =~= so_far);
        }
    }
}

/// Keystrokes that follow each other are one write: no two of them stand side by
/// side in what the user's input calls for.
pub proof fn law_keystrokes_are_one_write(more: Seq<ActionView>)
    ensures
        ({
            let all = model::coalesced(Seq::empty(), more);
            forall|i: int|
                0 <= i < all.len() - 1 ==> !(#[trigger] all[i] is Forward && all[i + 1] is Forward)
        }),
    decreases more.len(),
{
    if more.len() > 0 {
        let so_far = model::coalesced(Seq::empty(), more.drop_last());
        let all = model::coalesced(Seq::empty(), more);
        law_keystrokes_are_one_write(more.drop_last());
        assert forall|i: int| 0 <= i < all.len() - 1 implies !(#[trigger] all[i] is Forward
            && all[i + 1] is Forward) by {
            if i + 1 < so_far.len() - 1 {
                assert(all[i] == so_far[i] && all[i + 1] == so_far[i + 1]);
            } else if i + 1 < so_far.len() {
                assert(all[i] == so_far[i]);
                assert(!(so_far[i] is Forward && so_far[i + 1] is Forward));
            }
        }
    }
}

proof fn lemma_typing(s: EngineView, units: Seq<UnitView>, now: int)
    requires
        s.countdown is None,
        input::no_hotkeys(units),
    ensures
        s.acted_on_all(units, now).0 == s,
        keystrokes(s.acted_on_all(units, now).1) == input::forwarded(units),
        model::coalesced(Seq::empty(), s.acted_on_all(units, now).1).len() <= 1,
        forall|i: int|
            0 <= i < model::coalesced(Seq::empty(), s.acted_on_all(units, now).1).len()
                ==> #[trigger] model::coalesced(Seq::empty(), s.acted_on_all(units, now).1)[i]
                is Forward,
    decreases units.len(),
{
    if units.len() > 0 {
        let fewer = units.drop_last();
        let unit = units.last();
        assert forall|i: int| 0 <= i < fewer.len() implies !(#[trigger] fewer[i] is Hotkey) by {
            assert(fewer[i] == units[i]);
        }
        assert(!(units[units.len() - 1] is Hotkey));
        lemma_typing(s, fewer, now);
        let done = s.acted_on_all(fewer, now).1;
        let sent = input::forwarded_bytes(unit);
        let more: Seq<ActionView> = seq![ActionView::Forward(sent)];
        assert(s.acted(unit, now) == (s, more));
        let all = done + more;
        assert(all.drop_last() =~= done);
        assert(all.last() == ActionView::Forward(sent));
    }
}

/// Typing reaches the child verbatim and in one write: with no countdown and no
/// hotkey, what is sent, followed by what is still held, is what was held,
/// followed by what was read, and nothing else happens.
pub proof fn law_typing_reaches_the_child_verbatim(s: EngineView, bytes: Seq<u8>, now: int)
    requires
        s.well_formed(),
        s.countdown is None,
        input::no_hotkeys(input::fed(s.parser, bytes).1),
    ensures
        ({
            let (after, actions) = s.handled(EventView::Input(bytes, now));
            &&& after == EngineView { parser: after.parser, ..s }
            &&& actions.len() <= 1
            &&& actions.len() == 1 ==> actions[0] is Forward
            &&& keystrokes(actions) + after.parser.pending == s.parser.pending + bytes
        }),
{
    let (parser, units) = input::fed(s.parser, bytes);
    let start = EngineView { parser, ..s };
    lemma_typing(start, units, now);
    let taken = start.acted_on_all(units, now).1;
    law_joining_keeps_every_byte(Seq::empty(), taken);
    assert(keystrokes(Seq::<ActionView>::empty()) + keystrokes(taken) =~= keystrokes(taken));
    input::law_every_byte_is_kept(s.parser, bytes);
}

/// A delay key moves the delay by one second within its bounds. At a bound it is
/// silent, and nothing changes. What one key did the other takes back.
pub proof fn law_the_delay_keys(s: EngineView, now: int, later: int)
    requires
        s.well_formed(),
        s.countdown is None,
    ensures
        ({
            let more = UnitView::Hotkey(Hotkey::DelayUp);
            let less = UnitView::Hotkey(Hotkey::DelayDown);
            let (up, up_actions) = s.acted(more, now);
            let (down, down_actions) = s.acted(less, now);
            &&& s.delay < 60 ==> up.delay == s.delay + 1 && up_actions == seq![
                up.status(now),
            ]
            &&& s.delay == 60 ==> up == s && up_actions.len() == 0
            &&& s.delay > 0 ==> down.delay == s.delay - 1 && down_actions == seq![down.status(now)]
            &&& s.delay == 0 ==> down == s && down_actions.len() == 0
            &&& s.delay < 60 ==> up.acted(less, later).0.delay == s.delay
            &&& s.delay > 0 ==> down.acted(more, later).0.delay == s.delay
        }),
{
}

proof fn lemma_with_parser(s: EngineView, parser: input::ParserView, units: Seq<UnitView>, now: int)
    ensures
        (EngineView { parser, ..s }).acted_on_all(units, now) == (
            EngineView { parser, ..s.acted_on_all(units, now).0 },
            s.acted_on_all(units, now).1,
        ),
    decreases units.len(),
{
    if units.len() > 0 {
        lemma_with_parser(s, parser, units.drop_last(), now);
        let before = s.acted_on_all(units.drop_last(), now).0;
        let other = EngineView { parser, ..before };
        assert(other.acted(units.last(), now) == (
            EngineView { parser, ..before.acted(units.last(), now).0 },
            before.acted(units.last(), now).1,
        ));
    }
}

proof fn lemma_units_in_parts(s: EngineView, a: Seq<UnitView>, b: Seq<UnitView>, now: int)
    ensures
        s.acted_on_all(a + b, now) == ({
            let (middle, first) = s.acted_on_all(a, now);
            let (end, second) = middle.acted_on_all(b, now);
            (end, first + second)
        }),
    decreases b.len(),
{
    if b.len() == 0 {
        assert(a + b =~= a);
        let first = s.acted_on_all(a, now).1;
        assert(first + Seq::<ActionView>::empty() =~= first);
    } else {
        lemma_units_in_parts(s, a, b.drop_last(), now);
        assert((a + b).drop_last() =~= a + b.drop_last());
        let (middle, first) = s.acted_on_all(a, now);
        let (before, second) = middle.acted_on_all(b.drop_last(), now);
        let third = before.acted(b.last(), now).1;
        assert((first + second) + third =~= first + (second + third));
    }
}

proof fn lemma_joining_twice(done: Seq<ActionView>, more: Seq<ActionView>)
    ensures
        model::coalesced(done, model::coalesced(Seq::empty(), more)) == model::coalesced(
            done,
            more,
        ),
    decreases more.len(),
{
    if more.len() > 0 {
        let fewer = more.drop_last();
        let last = more.last();
        lemma_joining_twice(done, fewer);
        let so_far = model::coalesced(Seq::empty(), fewer);
        let all = model::followed(so_far, last);
        if so_far.len() == 0 {
            assert(all.drop_last() =~= Seq::<ActionView>::empty());
            assert(so_far =~= Seq::<ActionView>::empty());
        } else if so_far.last() is Forward && last is Forward {
            let head = model::coalesced(done, so_far.drop_last());
            assert(all.drop_last() =~= so_far.drop_last());
            let a = so_far.last()->Forward_0;
            let b = last->Forward_0;
            let one = model::followed(head, so_far.last());
            assert(one == model::coalesced(done, fewer));
            if head.len() > 0 && head.last() is Forward {
                let c = head.last()->Forward_0;
                assert(one.drop_last() =~= head.drop_last());
                assert(c + (a + b) =~= (c + a) + b);
            } else {
                assert(one.drop_last() =~= head);
                assert(head.len() == 0 ==> head.push(ActionView::Forward(a + b)) =~= seq![
                    ActionView::Forward(a + b),
                ]);
            }
            assert(model::followed(one, last) =~= model::followed(head, all.last()));
        } else {
            assert(all.drop_last() =~= so_far);
        }
    }
}

/// A read boundary means nothing to the user's input: two reads one after the
/// other do what one read of both does, keystrokes joined.
pub proof fn law_input_chunks_do_not_matter(s: EngineView, a: Seq<u8>, b: Seq<u8>, now: int)
    ensures
        ({
            let (half, first) = s.handled(EventView::Input(a, now));
            let (end, second) = half.handled(EventView::Input(b, now));
            s.handled(EventView::Input(a + b, now)) == (end, model::coalesced(first, second))
        }),
{
    input::law_chunks_do_not_matter(s.parser, a, b);
    let (p, units) = input::fed(s.parser, a);
    let (q, more) = input::fed(p, b);
    lemma_with_parser(s, p, units, now);
    lemma_with_parser(s, q, units + more, now);
    let middle = s.acted_on_all(units, now).0;
    lemma_with_parser(middle, q, more, now);
    lemma_units_in_parts(s, units, more, now);
    let x = s.acted_on_all(units, now).1;
    let y = middle.acted_on_all(more, now).1;
    model::lemma_coalesced_in_parts(Seq::empty(), x, y);
    lemma_joining_twice(model::coalesced(Seq::empty(), x), y);
}

// ── the bar and the watchdog ─────────────────────────────────────────────────

/// Every tick redraws the bar, last of all.
pub proof fn law_a_tick_draws_the_bar(s: EngineView, now: int)
    ensures
        ({
            let (after, actions) = s.handled(EventView::Tick(now));
            actions.len() > 0 && actions.last() == after.status(now)
        }),
{
}

/// The countdown reads whole seconds, rounded up: the delay at its start, and 0
/// only once the deadline is reached.
pub proof fn law_the_countdown_rounds_up(ends_at: int, now: int, seconds: int)
    ensures
        seconds >= 1 && (seconds - 1) * 1_000_000_000 < ends_at - now <= seconds * 1_000_000_000
            ==> model::seconds_left(ends_at, now) == seconds,
        model::seconds_left(ends_at, now) == 0 <==> now >= ends_at,
        model::seconds_left(ends_at, now) >= 0,
{
}

/// A rescue comes only after two seconds of silence, only while listening with
/// no dialog in the buffer, and no sooner than three seconds after the last
/// one. It asks for a redraw and answers nothing.
pub proof fn law_rescues_are_rare(s: EngineView, now: int)
    requires
        !s.is_due(now),
        s.parser.pending.len() == 0,
    ensures
        ({
            let (after, actions) = s.handled(EventView::Tick(now));
            let rescued = s.listening() && !(s.buffer.len() > 0 && model::holds_dialog(s.buffer))
                && now - s.last_output >= 2_000_000_000 && (s.last_rescue matches Some(last) ==> now - last
                >= 3_000_000_000);
            &&& rescued ==> after.last_rescue == Some(now) && actions == seq![
                ActionView::ForceRedraw,
                after.status(now),
            ]
            &&& !rescued ==> after.last_rescue == s.last_rescue
        }),
{
    lemma_nothing_pending(s, now);
    let (after, actions) = s.handled(EventView::Tick(now));
    let none = Seq::<ActionView>::empty();
    let redraw: Seq<ActionView> = seq![ActionView::ForceRedraw];
    assert(none + none + redraw + seq![after.status(now)] =~= seq![
        ActionView::ForceRedraw,
        after.status(now),
    ]);
}

/// Only a fatal signal ends the session, with 128 and the signal's number.
pub proof fn law_only_a_signal_exits(s: EngineView, event: EventView, code: int)
    ensures
        s.handled(event).1.contains(ActionView::Exit(code)) ==> event is Terminate,
        event matches EventView::Terminate(signo) ==> (0 <= signo <= 127 ==> s.handled(event) == (
            s,
            seq![ActionView::Exit(128 + signo)],
        )),
{
    let exit = ActionView::Exit(code);
    match event {
        EventView::Input(bytes, now) => {
            let (parser, units) = input::fed(s.parser, bytes);
            let start = EngineView { parser, ..s };
            lemma_units_never_exit(start, units, now, code);
            if s.handled(event).1.contains(exit) {
                lemma_joined_contains(Seq::empty(), start.acted_on_all(units, now).1, exit);
            }
        },
        EventView::Tick(now) => {
            let start = EngineView { parser: input::at_ground(), ..s };
            lemma_units_never_exit(start, input::flushed(s.parser), now, code);
            let keys = s.resolved(now).1;
            let all = s.handled(event).1;
            if all.contains(exit) {
                let i = choose|i: int| 0 <= i < all.len() && all[i] == exit;
                if i < keys.len() {
                    assert(keys[i] == exit);
                }
            }
        },
        _ => {},
    }
}

proof fn lemma_units_never_exit(s: EngineView, units: Seq<UnitView>, now: int, code: int)
    ensures
        !s.acted_on_all(units, now).1.contains(ActionView::Exit(code)),
    decreases units.len(),
{
    if units.len() > 0 {
        let fewer = units.drop_last();
        lemma_units_never_exit(s, fewer, now, code);
        let (before, done) = s.acted_on_all(fewer, now);
        let more = before.acted(units.last(), now).1;
        let all = done + more;
        assert forall|i: int| 0 <= i < all.len() implies #[trigger] all[i] != ActionView::Exit(
            code,
        ) by {
            if i < done.len() {
                assert(done[i] == all[i]);
                assert(!(done[i] == ActionView::Exit(code)));
            }
        }
    }
}

}
