//! What one event does to the engine, and what the bar says of it.

use vstd::prelude::*;

use crate::detector;
use crate::engine_laws;
use crate::events;
use crate::events::EventView;
use crate::input;
use crate::input::{Hotkey, UnitView};
use crate::key_laws;
use crate::model;
use crate::model::{ActionView, CountdownView, EngineView, FlashView};
use crate::text;

verus! {

// ── the beginning ────────────────────────────────────────────────────────────

/// A new engine is on, with the delay it was given but no more than 60 seconds,
/// and with nothing read, counted, shown or pending.
pub proof fn law_a_new_engine(delay: int, started: int)
    ensures
        ({
            let s = EngineView::fresh(delay, started);
            &&& s.auto_approve
            &&& delay <= 60 ==> s.delay == delay
            &&& delay > 60 ==> s.delay == 60
            &&& s.buffer.len() == 0
            &&& s.countdown is None
            &&& s.approvals == 0
            &&& s.flash is None
            &&& s.last_output == started
            &&& s.last_rescue is None
            &&& s.detection is None
            &&& key_laws::between_sequences(s.parser)
        }),
{
}

/// What every state keeps to: a delay of 0 to 60 seconds, no more than 10 000
/// bytes of output and no more than 1024 of input held, a count that is not
/// negative, and a countdown only while auto-approve is on, over a part of the buffer.
pub proof fn law_what_every_state_keeps_to(s: EngineView)
    requires
        s.well_formed(),
    ensures
        0 <= s.delay <= 60,
        s.buffer.len() <= 10_000,
        s.parser.pending.len() <= 1024,
        s.approvals >= 0,
        s.countdown matches Some(c) ==> s.auto_approve && 0 <= c.watermark <= s.buffer.len(),
{
}

/// The engine goes by what the detector says of the text that the bytes are.
pub proof fn law_the_detector_decides(bytes: Seq<u8>)
    ensures
        model::holds_dialog(bytes) <==> detector::judged(
            detector::scored_tail(text::text_of(bytes)),
        ).detected,
        model::verdict_on(bytes) == detector::judged(detector::scored_tail(text::text_of(bytes))),
{
}

// ── the bar ──────────────────────────────────────────────────────────────────

/// A message stands on the bar until its time is up, whatever else there is.
pub proof fn law_a_message_outranks_the_rest(s: EngineView, now: int)
    requires
        s.flash is Some,
        now < s.flash->0.until,
    ensures
        s.status(now) == (ActionView::Status { line: s.flash->0.line, colour: s.flash->0.colour }),
{
}

/// No message is to be shown at `now`.
pub open spec fn has_no_message(s: EngineView, now: int) -> bool {
    s.flash matches Some(flash) ==> flash.until <= now
}

/// With no message, a countdown shows its seconds, a part of one counting whole,
/// and 0 once it is over.
pub proof fn law_the_bar_counts_down(s: EngineView, now: int, seconds: nat)
    requires
        has_no_message(s, now),
        s.countdown is Some,
        ({
            let left = s.countdown->0.ends_at - now;
            ||| left <= 0 && seconds == 0
            ||| seconds >= 1 && (seconds - 1) * 1_000_000_000 < left <= seconds * 1_000_000_000
        }),
    ensures
        s.status(now) == (ActionView::Status {
            line: "⏱  Auto-approving in "@ + text::decimal_text(seconds)
                + "s... (Enter=now, any key=cancel, Ctrl+A=off)"@,
            colour: "33"@,
        }),
{
}

/// With no message and no countdown, the bar says whether auto-approve is on,
/// how many answers there were, and the delay.
pub proof fn law_the_steady_bar(s: EngineView, now: int)
    requires
        has_no_message(s, now),
        s.countdown is None,
    ensures
        s.auto_approve ==> s.status(now) == (ActionView::Status {
            line: "auto-approve ON  "@ + text::decimal_text(s.approvals as nat)
                + " approved  delay "@ + text::decimal_text(s.delay as nat)
                + "s  [Ctrl+A=toggle, Ctrl+↑↓=delay]"@,
            colour: "2"@,
        }),
        !s.auto_approve ==> s.status(now) == (ActionView::Status {
            line: "auto-approve OFF  delay "@ + text::decimal_text(s.delay as nat)
                + "s  [Ctrl+A=toggle, Ctrl+↑↓=delay]"@,
            colour: "90"@,
        }),
{
}

// ── an answer ────────────────────────────────────────────────────────────────

/// What an answer makes of a state: one more is counted, the countdown is over,
/// the bar says so for 800 milliseconds, and of the buffer `kept` is left.
pub open spec fn after_answer(s: EngineView, kept: Seq<u8>, now: int) -> EngineView {
    EngineView {
        countdown: None,
        approvals: s.approvals + 1,
        buffer: kept,
        flash: Some(
            FlashView {
                line: "✓ Auto-approved (#"@ + text::decimal_text((s.approvals + 1) as nat) + ")"@,
                colour: "32"@,
                until: now + 800_000_000,
            },
        ),
        ..s
    }
}

/// What an answer has the caller do: the bytes go to the child, the bar says so,
/// and the child repaints.
pub open spec fn answer_actions(s: EngineView) -> Seq<ActionView> {
    seq![
        ActionView::Answer(model::answer_to(s.buffer)),
        ActionView::Status {
            line: "✓ Auto-approved (#"@ + text::decimal_text((s.approvals + 1) as nat) + ")"@,
            colour: "32"@,
        },
        ActionView::ForceRedraw,
    ]
}

proof fn lemma_answered(s: EngineView, now: int)
    requires
        s.countdown matches Some(c) ==> 0 <= c.watermark <= s.buffer.len(),
    ensures
        s.answered(now).1 == answer_actions(s),
        s.countdown matches Some(c) ==> s.answered(now).0 == after_answer(
            s,
            s.buffer.skip(c.watermark),
            now,
        ),
{
    if let Some(c) = s.countdown {
        assert(s.answered(now).0.buffer =~= s.buffer.skip(c.watermark));
    }
}

// ── output ───────────────────────────────────────────────────────────────────

/// `kept` is `all`, or its last 10 000 bytes where it is longer.
pub open spec fn is_newest_of(kept: Seq<u8>, all: Seq<u8>) -> bool {
    &&& all.len() <= 10_000 ==> kept == all
    &&& all.len() > 10_000 ==> kept.len() == 10_000 && forall|i: int|
        0 <= i < 10_000 ==> #[trigger] kept[i] == all[all.len() - 10_000 + i]
}

proof fn lemma_newest(kept: Seq<u8>, all: Seq<u8>)
    requires
        is_newest_of(kept, all),
    ensures
        kept == model::newest(all),
        all.len() - kept.len() == model::surplus(all.len() as int),
{
    assert(kept =~= model::newest(all));
}

/// Output while auto-approve is off or a countdown runs is kept, and that is
/// all. The countdown goes on to the same deadline, over the same bytes.
pub proof fn law_output_that_is_only_kept(s: EngineView, bytes: Seq<u8>, kept: Seq<u8>, now: int)
    requires
        !s.auto_approve || s.countdown is Some,
        is_newest_of(kept, s.buffer + bytes),
    ensures
        ({
            let (after, actions) = s.handled(EventView::Output(bytes, now));
            let dropped = s.buffer.len() + bytes.len() - kept.len();
            &&& actions == Seq::<ActionView>::empty()
            &&& after == EngineView {
                buffer: kept,
                last_output: now,
                countdown: after.countdown,
                ..s
            }
            &&& s.countdown is None ==> after.countdown is None
            &&& s.countdown matches Some(c) ==> after.countdown == Some(
                CountdownView {
                    ends_at: c.ends_at,
                    watermark: if c.watermark >= dropped {
                        c.watermark - dropped
                    } else {
                        0
                    },
                },
            )
        }),
{
    lemma_newest(kept, s.buffer + bytes);
}

/// Output that is listened to and leaves no dialog in the buffer is kept and
/// judged, and that is all.
pub proof fn law_output_without_a_dialog(s: EngineView, bytes: Seq<u8>, kept: Seq<u8>, now: int)
    requires
        s.auto_approve,
        s.countdown is None,
        is_newest_of(kept, s.buffer + bytes),
        !model::holds_dialog(kept),
    ensures
        s.handled(EventView::Output(bytes, now)) == (
            EngineView {
                buffer: kept,
                last_output: now,
                detection: Some(model::verdict_on(kept)),
                ..s
            },
            Seq::<ActionView>::empty(),
        ),
{
    lemma_newest(kept, s.buffer + bytes);
}

/// Output that is listened to and brings a dialog starts the countdown: it ends
/// the delay's seconds from now, not sooner and not later. Without a delay the
/// dialog is answered at once, and nothing is left in the buffer.
pub proof fn law_output_with_a_dialog(s: EngineView, bytes: Seq<u8>, kept: Seq<u8>, now: int)
    requires
        s.auto_approve,
        s.countdown is None,
        is_newest_of(kept, s.buffer + bytes),
        model::holds_dialog(kept),
    ensures
        ({
            let seen = EngineView {
                buffer: kept,
                last_output: now,
                detection: Some(model::verdict_on(kept)),
                ..s
            };
            &&& s.delay != 0 ==> s.handled(EventView::Output(bytes, now)) == (
                EngineView {
                    countdown: Some(
                        CountdownView {
                            ends_at: now + s.delay * 1_000_000_000,
                            watermark: kept.len() as int,
                        },
                    ),
                    ..seen
                },
                Seq::<ActionView>::empty(),
            )
            &&& s.delay == 0 ==> s.handled(EventView::Output(bytes, now)) == (
                after_answer(seen, Seq::empty(), now),
                answer_actions(seen),
            )
        }),
{
    lemma_newest(kept, s.buffer + bytes);
    let seen = s.absorbed(bytes, now).scanned();
    assert(seen.armed(now).buffer.skip(kept.len() as int) =~= Seq::<u8>::empty());
    lemma_answered(seen.armed(now), now);
}

// ── keys ─────────────────────────────────────────────────────────────────────

/// A byte that comes between sequences and is no `ESC` is acted on at once: 0x01
/// as the toggle, any other as a key of one byte.
pub proof fn law_one_byte_is_acted_on(s: EngineView, byte: u8, now: int)
    requires
        key_laws::between_sequences(s.parser),
        byte != 0x1B,
    ensures
        byte == 0x01 ==> s.handled(EventView::Input(seq![byte], now)) == s.acted(
            UnitView::Hotkey(Hotkey::Toggle),
            now,
        ),
        byte != 0x01 ==> s.handled(EventView::Input(seq![byte], now)) == s.acted(
            UnitView::Key(seq![byte]),
            now,
        ),
{
    key_laws::law_one_byte(s.parser, byte);
    let (parser, units) = input::fed(s.parser, seq![byte]);
    assert(parser == s.parser);
    let unit = if byte == 0x01 {
        UnitView::Hotkey(Hotkey::Toggle)
    } else {
        UnitView::Key(seq![byte])
    };
    assert(units =~= seq![unit]);
    model::lemma_one_unit_joins_nothing(s, units, now);
    assert(units.drop_last() =~= Seq::<UnitView>::empty());
    assert(s.acted_on_all(units.drop_last(), now) == (s, Seq::<ActionView>::empty()));
    assert(Seq::<ActionView>::empty() + s.acted(unit, now).1 =~= s.acted(unit, now).1);
}

/// What a countdown that was cancelled leaves: all but the countdown, and a
/// message for 500 milliseconds.
pub open spec fn after_cancel(s: EngineView, now: int) -> EngineView {
    EngineView {
        countdown: None,
        flash: Some(
            FlashView { line: "✗ Cancelled"@, colour: "90"@, until: now + 500_000_000 },
        ),
        ..s
    }
}

/// What cancelling has the caller do: the bar says so.
pub open spec fn cancel_actions() -> Seq<ActionView> {
    seq![ActionView::Status { line: "✗ Cancelled"@, colour: "90"@ }]
}

/// During a countdown, return and newline answer now. Every other byte but 0x01,
/// the toggle, and `ESC`, which may begin something longer, stops the countdown,
/// sends nothing to the child, and leaves the rest as it was.
pub proof fn law_a_byte_during_a_countdown(s: EngineView, byte: u8, now: int)
    requires
        key_laws::between_sequences(s.parser),
        s.countdown is Some,
        0 <= s.countdown->0.watermark <= s.buffer.len(),
        byte != 0x1B,
        byte != 0x01,
    ensures
        byte == 0x0D || byte == 0x0A ==> s.handled(EventView::Input(seq![byte], now)) == (
            after_answer(s, s.buffer.skip(s.countdown->0.watermark), now),
            answer_actions(s),
        ),
        byte != 0x0D && byte != 0x0A ==> s.handled(EventView::Input(seq![byte], now)) == (
            after_cancel(s, now),
            cancel_actions(),
        ),
{
    law_one_byte_is_acted_on(s, byte, now);
    key_laws::law_one_byte_enters(byte);
    lemma_answered(s, now);
}

/// During a countdown a key of any length answers now if it is `Enter`, in one of
/// its encodings, and cancels if not.
pub proof fn law_a_key_during_a_countdown(s: EngineView, key: Seq<u8>, now: int)
    requires
        s.countdown is Some,
        0 <= s.countdown->0.watermark <= s.buffer.len(),
    ensures
        ({
            let enter = key == seq![0x0Du8] || key == seq![0x0Au8] || key == seq![
                0x1Bu8,
                0x5B,
                0x31,
                0x33,
                0x75,
            ] || key == seq![0x1Bu8, 0x5B, 0x32, 0x37, 0x3B, 0x31, 0x3B, 0x31, 0x33, 0x7E] || key
                == seq![0x1Bu8, 0x5B, 0x32, 0x37, 0x3B, 0x35, 0x3B, 0x31, 0x33, 0x7E];
            &&& enter ==> s.acted(UnitView::Key(key), now) == (
                after_answer(s, s.buffer.skip(s.countdown->0.watermark), now),
                answer_actions(s),
            )
            &&& !enter ==> s.acted(UnitView::Key(key), now) == (
                after_cancel(s, now),
                cancel_actions(),
            )
        }),
{
    key_laws::law_the_enter_key(key);
    lemma_answered(s, now);
}

/// Without a countdown a key goes to the child as it is, and nothing changes.
pub proof fn law_a_key_without_a_countdown(s: EngineView, key: Seq<u8>, now: int)
    requires
        s.countdown is None,
    ensures
        s.acted(UnitView::Key(key), now) == (s, seq![ActionView::Forward(key)]),
{
}

/// What the toggle key leaves, message aside, with the message up for 800
/// milliseconds.
pub open spec fn with_message(
    s: EngineView,
    line: Seq<char>,
    colour: Seq<char>,
    now: int,
) -> EngineView {
    EngineView { flash: Some(FlashView { line, colour, until: now + 800_000_000 }), ..s }
}

/// The toggle key while auto-approve is on switches it off and stops a countdown
/// that runs. Nothing else changes, and nothing goes to the child.
pub proof fn law_switching_off(s: EngineView, now: int)
    requires
        s.auto_approve,
    ensures
        s.acted(UnitView::Hotkey(Hotkey::Toggle), now) == (
            with_message(
                EngineView { auto_approve: false, countdown: None, ..s },
                "✗ Auto-approve DISABLED"@,
                "31"@,
                now,
            ),
            seq![ActionView::Status { line: "✗ Auto-approve DISABLED"@, colour: "31"@ }],
        ),
{
}

/// The toggle key while auto-approve is off switches it on. With a dialog in the
/// buffer it starts a countdown over all of it, that ends the delay's seconds
/// from now; without one it starts none. Nothing goes to the child either way.
pub proof fn law_switching_on(s: EngineView, now: int)
    requires
        !s.auto_approve,
    ensures
        ({
            let line = "✓ Auto-approve ENABLED"@;
            let (on, actions) = s.acted(UnitView::Hotkey(Hotkey::Toggle), now);
            &&& actions == seq![ActionView::Status { line, colour: "32"@ }]
            &&& s.buffer.len() == 0 ==> on == with_message(
                EngineView { auto_approve: true, countdown: None, ..s },
                line,
                "32"@,
                now,
            )
            &&& s.buffer.len() > 0 && !model::holds_dialog(s.buffer) ==> on == with_message(
                EngineView {
                    auto_approve: true,
                    countdown: None,
                    detection: Some(model::verdict_on(s.buffer)),
                    ..s
                },
                line,
                "32"@,
                now,
            )
            &&& s.buffer.len() > 0 && model::holds_dialog(s.buffer) ==> on == with_message(
                EngineView {
                    auto_approve: true,
                    countdown: Some(
                        CountdownView {
                            ends_at: now + s.delay * 1_000_000_000,
                            watermark: s.buffer.len() as int,
                        },
                    ),
                    detection: Some(model::verdict_on(s.buffer)),
                    ..s
                },
                line,
                "32"@,
                now,
            )
        }),
{
}

/// Switched on with a dialog in the buffer, the engine waits for the whole delay:
/// no tick before the deadline sends anything but the bar, and the first one that
/// reaches it answers, once.
pub proof fn law_switching_on_waits_for_the_delay(s: EngineView, now: int, later: int)
    requires
        key_laws::between_sequences(s.parser),
        !s.auto_approve,
        s.buffer.len() > 0,
        model::holds_dialog(s.buffer),
    ensures
        ({
            let (on, _) = s.handled(EventView::Input(seq![0x01u8], now));
            let (after, actions) = on.handled(EventView::Tick(later));
            &&& on.countdown == Some(
                CountdownView {
                    ends_at: now + s.delay * 1_000_000_000,
                    watermark: s.buffer.len() as int,
                },
            )
            &&& on.approvals == s.approvals
            &&& later < now + s.delay * 1_000_000_000 ==> after == on && actions == seq![
                on.status(later),
            ] && engine_laws::answers(actions).len() == 0
            &&& later >= now + s.delay * 1_000_000_000 ==> engine_laws::answers(actions) == seq![
                model::answer_to(s.buffer),
            ] && after.countdown is None && after.buffer.len() == 0
        }),
{
    law_one_byte_is_acted_on(s, 0x01, now);
    law_switching_on(s, now);
    let on = s.handled(EventView::Input(seq![0x01u8], now)).0;
    if later < now + s.delay * 1_000_000_000 {
        law_a_tick_before_the_deadline(on, later);
    } else {
        law_a_tick_that_fires(on, later);
        let free = after_answer(on, on.buffer.skip(on.countdown->0.watermark), later);
        let rest = free.handled(EventView::Tick(later)).1;
        law_a_tick_with_nothing_found(free, later);
        engine_laws::lemma_answers_concat(answer_actions(on), rest);
        lemma_answer_actions(on);
        lemma_no_answer(rest);
        let sent = seq![model::answer_to(on.buffer)];
        assert(sent + Seq::<Seq<u8>>::empty() =~= sent);
    }
}

proof fn lemma_answer_actions(s: EngineView)
    ensures
        engine_laws::answers(answer_actions(s)) == seq![model::answer_to(s.buffer)],
{
    let actions = answer_actions(s);
    let first: Seq<ActionView> = seq![actions[0]];
    let rest: Seq<ActionView> = seq![actions[1], actions[2]];
    engine_laws::lemma_answers_one(actions[0]);
    lemma_no_answer(rest);
    engine_laws::lemma_answers_concat(first, rest);
    assert(actions =~= first + rest);
    let sent = seq![model::answer_to(s.buffer)];
    assert(sent + Seq::<Seq<u8>>::empty() =~= sent);
}

proof fn lemma_no_answer(actions: Seq<ActionView>)
    requires
        forall|i: int| 0 <= i < actions.len() ==> !(#[trigger] actions[i] is Answer),
    ensures
        engine_laws::answers(actions) == Seq::<Seq<u8>>::empty(),
    decreases actions.len(),
{
    if actions.len() > 0 {
        let fewer = actions.drop_last();
        assert(!(actions[actions.len() - 1] is Answer));
        assert forall|i: int| 0 <= i < fewer.len() implies !(#[trigger] fewer[i] is Answer) by {
            assert(fewer[i] == actions[i]);
        }
        lemma_no_answer(fewer);
    }
}

/// A delay key during a countdown cancels it, and moves nothing.
pub proof fn law_a_delay_key_during_a_countdown(s: EngineView, key: Hotkey, now: int)
    requires
        s.countdown is Some,
        key != Hotkey::Toggle,
    ensures
        s.acted(UnitView::Hotkey(key), now) == (after_cancel(s, now), cancel_actions()),
{
}

/// A delay key without a countdown moves the delay by one second, up to 60 and
/// down to 0, and the bar says from where to where. At the end of the range it
/// does nothing at all.
pub proof fn law_a_delay_key(s: EngineView, now: int)
    requires
        s.countdown is None,
        0 <= s.delay <= 60,
    ensures
        s.delay < 60 ==> s.acted(UnitView::Hotkey(Hotkey::DelayUp), now) == moved(
            s,
            s.delay + 1,
            now,
        ),
        s.delay == 60 ==> s.acted(UnitView::Hotkey(Hotkey::DelayUp), now) == (
            s,
            Seq::<ActionView>::empty(),
        ),
        s.delay > 0 ==> s.acted(UnitView::Hotkey(Hotkey::DelayDown), now) == moved(
            s,
            s.delay - 1,
            now,
        ),
        s.delay == 0 ==> s.acted(UnitView::Hotkey(Hotkey::DelayDown), now) == (
            s,
            Seq::<ActionView>::empty(),
        ),
{
}

/// The state and the bar after the delay was moved.
pub open spec fn moved(s: EngineView, delay: int, now: int) -> (EngineView, Seq<ActionView>) {
    let line = "⏱  Delay: "@ + text::decimal_text(s.delay as nat) + "s → "@
        + text::decimal_text(delay as nat) + "s"@;
    (
        with_message(EngineView { delay, ..s }, line, "36"@, now),
        seq![ActionView::Status { line, colour: "36"@ }],
    )
}

// ── ticks ────────────────────────────────────────────────────────────────────

/// A tick before a countdown's deadline draws the bar, and that is all.
pub proof fn law_a_tick_before_the_deadline(s: EngineView, now: int)
    requires
        key_laws::between_sequences(s.parser),
        s.countdown is Some,
        now < s.countdown->0.ends_at,
    ensures
        s.handled(EventView::Tick(now)) == (s, seq![s.status(now)]),
        engine_laws::answers(s.handled(EventView::Tick(now)).1).len() == 0,
{
    engine_laws::lemma_nothing_pending(s, now);
    let none = Seq::<ActionView>::empty();
    assert(none + none + none + seq![s.status(now)] =~= seq![s.status(now)]);
    lemma_no_answer(seq![s.status(now)]);
}

/// A tick at a countdown's deadline or after it answers, and then is a tick like
/// any other on what the answer left.
pub proof fn law_a_tick_that_fires(s: EngineView, now: int)
    requires
        key_laws::between_sequences(s.parser),
        s.countdown is Some,
        0 <= s.countdown->0.watermark <= s.buffer.len(),
        now >= s.countdown->0.ends_at,
    ensures
        ({
            let free = after_answer(s, s.buffer.skip(s.countdown->0.watermark), now);
            let (after, rest) = free.handled(EventView::Tick(now));
            s.handled(EventView::Tick(now)) == (after, answer_actions(s) + rest)
        }),
{
    engine_laws::lemma_nothing_pending(s, now);
    lemma_answered(s, now);
    let free = after_answer(s, s.buffer.skip(s.countdown->0.watermark), now);
    engine_laws::lemma_nothing_pending(free, now);
    let none = Seq::<ActionView>::empty();
    let found = free.watched(now).1;
    let bar = seq![free.watched(now).0.status(now)];
    assert(none + answer_actions(s) + found + bar =~= answer_actions(s) + (none + none + found
        + bar));
}

/// A tick while auto-approve is off draws the bar, and that is all.
pub proof fn law_a_tick_while_off(s: EngineView, now: int)
    requires
        key_laws::between_sequences(s.parser),
        !s.auto_approve,
        s.countdown is None,
    ensures
        s.handled(EventView::Tick(now)) == (s, seq![s.status(now)]),
{
    engine_laws::lemma_nothing_pending(s, now);
    let none = Seq::<ActionView>::empty();
    assert(none + none + none + seq![s.status(now)] =~= seq![s.status(now)]);
}

/// A tick that finds a dialog in the buffer starts the countdown, that ends the
/// delay's seconds from now. Without a delay it answers at once.
pub proof fn law_a_tick_that_finds_a_dialog(s: EngineView, now: int)
    requires
        key_laws::between_sequences(s.parser),
        s.auto_approve,
        s.countdown is None,
        s.buffer.len() > 0,
        model::holds_dialog(s.buffer),
    ensures
        ({
            let seen = EngineView { detection: Some(model::verdict_on(s.buffer)), ..s };
            let waiting = EngineView {
                countdown: Some(
                    CountdownView {
                        ends_at: now + s.delay * 1_000_000_000,
                        watermark: s.buffer.len() as int,
                    },
                ),
                ..seen
            };
            let done = after_answer(seen, Seq::empty(), now);
            &&& s.delay != 0 ==> s.handled(EventView::Tick(now)) == (
                waiting,
                seq![waiting.status(now)],
            )
            &&& s.delay == 0 ==> s.handled(EventView::Tick(now)) == (
                done,
                answer_actions(seen) + seq![done.status(now)],
            )
        }),
{
    engine_laws::lemma_nothing_pending(s, now);
    let none = Seq::<ActionView>::empty();
    let armed = s.scanned().armed(now);
    lemma_answered(armed, now);
    assert(armed.buffer.skip(armed.buffer.len() as int) =~= Seq::<u8>::empty());
    assert(none + none + none + seq![armed.status(now)] =~= seq![armed.status(now)]);
    let done = after_answer(s.scanned(), Seq::empty(), now);
    let sent = answer_actions(s.scanned());
    assert(none + none + sent + seq![done.status(now)] =~= sent + seq![done.status(now)]);
}

/// A tick that finds no dialog asks the child to repaint exactly when it has been
/// silent for two seconds and has not been asked in the last three. Then and
/// otherwise the bar is drawn, and nothing is sent.
pub proof fn law_a_tick_with_nothing_found(s: EngineView, now: int)
    requires
        key_laws::between_sequences(s.parser),
        s.auto_approve,
        s.countdown is None,
        s.buffer.len() == 0 || !model::holds_dialog(s.buffer),
    ensures
        ({
            let seen = EngineView {
                detection: if s.buffer.len() == 0 {
                    s.detection
                } else {
                    Some(model::verdict_on(s.buffer))
                },
                ..s
            };
            let asked = EngineView { last_rescue: Some(now), ..seen };
            let silent = now - s.last_output >= 2_000_000_000 && (s.last_rescue matches Some(last)
                ==> now - last >= 3_000_000_000);
            &&& silent ==> s.handled(EventView::Tick(now)) == (
                asked,
                seq![ActionView::ForceRedraw, asked.status(now)],
            )
            &&& !silent ==> s.handled(EventView::Tick(now)) == (seen, seq![seen.status(now)])
        }),
{
    engine_laws::lemma_nothing_pending(s, now);
    let none = Seq::<ActionView>::empty();
    let (after, found) = s.watched(now);
    let bar = seq![after.status(now)];
    assert(none + none + none + bar =~= bar);
    let redraw: Seq<ActionView> = seq![ActionView::ForceRedraw];
    assert(none + none + redraw + bar =~= seq![ActionView::ForceRedraw, after.status(now)]);
}

/// What is half read when a tick comes is a key: it is acted on first, and then
/// the tick is one like any other.
pub proof fn law_a_tick_with_a_key_half_read(s: EngineView, now: int)
    requires
        s.parser.pending.len() > 0,
    ensures
        ({
            let idle = EngineView { parser: input::at_ground(), ..s };
            let (ready, keys) = idle.acted(UnitView::Key(s.parser.pending), now);
            let (after, rest) = ready.handled(EventView::Tick(now));
            s.handled(EventView::Tick(now)) == (after, keys + rest)
        }),
{
    let idle = EngineView { parser: input::at_ground(), ..s };
    let unit = UnitView::Key(s.parser.pending);
    let units = input::flushed(s.parser);
    assert(units =~= seq![unit]);
    assert(units.drop_last() =~= Seq::<UnitView>::empty());
    let none = Seq::<ActionView>::empty();
    assert(idle.acted_on_all(units.drop_last(), now) == (idle, none));
    let (ready, keys) = idle.acted(unit, now);
    assert(none + keys =~= keys);
    assert(s.resolved(now) == (ready, keys));
    engine_laws::lemma_nothing_pending(ready, now);
    let (free, sent) = ready.fired(now);
    let (after, found) = free.watched(now);
    let bar = seq![after.status(now)];
    assert(keys + sent + found + bar =~= keys + (none + sent + found + bar));
}

// ── the rest ─────────────────────────────────────────────────────────────────

/// A failed answer puts a message up for a second. A resize draws the bar. The
/// end of the child does nothing. None of them changes anything else.
pub proof fn law_the_other_events(s: EngineView, now: int)
    ensures
        s.handled(EventView::AnswerFailed(now)) == (
            EngineView {
                flash: Some(
                    FlashView {
                        line: "✗ Failed to send approval"@,
                        colour: "31"@,
                        until: now + 1_000_000_000,
                    },
                ),
                ..s
            },
            seq![ActionView::Status { line: "✗ Failed to send approval"@, colour: "31"@ }],
        ),
        s.handled(EventView::Winch(now)) == (s, seq![s.status(now)]),
        s.handled(EventView::Eof) == (s, Seq::<ActionView>::empty()),
{
}

/// A fatal signal exits with 128 and its number, and with 1 where that is no
/// exit code.
pub proof fn law_a_signal_exits(s: EngineView, signo: int)
    ensures
        -128 <= signo <= 127 ==> s.handled(EventView::Terminate(signo)) == (
            s,
            seq![ActionView::Exit(128 + signo)],
        ),
        !(-128 <= signo <= 127) ==> s.handled(EventView::Terminate(signo)) == (
            s,
            seq![ActionView::Exit(1)],
        ),
{
}

/// An event says when it happened unless it is a signal or the end of the child,
/// and what it says is what it was stamped with.
pub proof fn law_which_events_say_when(event: EventView, bytes: Seq<u8>, now: int)
    ensures
        events::stamp_of(event) is None <==> event is Terminate || event is Eof,
        events::stamp_of(EventView::Output(bytes, now)) == Some(now),
        events::stamp_of(EventView::Input(bytes, now)) == Some(now),
        events::stamp_of(EventView::Tick(now)) == Some(now),
        events::stamp_of(EventView::AnswerFailed(now)) == Some(now),
        events::stamp_of(EventView::Winch(now)) == Some(now),
{
}

/// The event is no key, and it comes before `deadline`, if it says when.
pub open spec fn comes_before(event: EventView, deadline: int) -> bool {
    match event {
        EventView::Output(_, now) => now < deadline,
        EventView::Input(_, _) => false,
        EventView::Tick(now) => now < deadline,
        EventView::AnswerFailed(now) => now < deadline,
        EventView::Winch(now) => now < deadline,
        EventView::Terminate(_) => true,
        EventView::Eof => true,
    }
}

/// A countdown waits for its deadline: as long as no key is pressed, nothing that
/// happens before it, however much, sends an answer or moves the deadline.
pub proof fn law_nothing_is_answered_before_the_deadline(start: EngineView, events: Seq<EventView>)
    requires
        start.well_formed(),
        key_laws::between_sequences(start.parser),
        start.countdown is Some,
        forall|i: int|
            0 <= i < events.len() ==> comes_before(
                #[trigger] events[i],
                start.countdown->0.ends_at,
            ),
    ensures
        ({
            let (after, actions) = engine_laws::ran(start, events);
            &&& engine_laws::answers(actions).len() == 0
            &&& after.approvals == start.approvals
            &&& after.countdown is Some
            &&& after.countdown->0.ends_at == start.countdown->0.ends_at
            &&& after.parser == start.parser
        }),
    decreases events.len(),
{
    if events.len() > 0 {
        let fewer = events.drop_last();
        assert forall|i: int| 0 <= i < fewer.len() implies comes_before(
            #[trigger] fewer[i],
            start.countdown->0.ends_at,
        ) by {
            assert(fewer[i] == events[i]);
        }
        law_nothing_is_answered_before_the_deadline(start, fewer);
        engine_laws::law_every_state_is_well_formed(start, fewer);
        let (before, done) = engine_laws::ran(start, fewer);
        let event = events[events.len() - 1];
        assert(comes_before(event, start.countdown->0.ends_at));
        let actions = before.handled(event).1;
        engine_laws::lemma_answers_concat(done, actions);
        if let EventView::Tick(now) = event {
            law_a_tick_before_the_deadline(before, now);
        } else {
            lemma_no_answer(actions);
        }
    }
}

}
