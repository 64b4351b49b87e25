//! What is written to the terminal, byte by byte, and what destroys the scroll
//! region.

use vstd::prelude::*;

use crate::debug;
use crate::detector::DetectionView;
use crate::events::EventView;
use crate::key_laws;
use crate::model::ActionView;
use crate::session;
use crate::session::{EffectView, SessionView};
use crate::terminal;
use crate::terminal::{State, TerminalView, WatchView};
use crate::text;

verus! {

// ── the bytes ────────────────────────────────────────────────────────────────

/// The rows of the child's window: one less than the terminal has, and one where
/// the terminal has no more than that.
pub open spec fn rows_left(height: int) -> int {
    if height >= 2 {
        height - 1
    } else {
        1
    }
}

/// `ESC[1;<rows>r`.
pub open spec fn region(height: int) -> Seq<u8> {
    seq![0x1Bu8, 0x5B, 0x31, 0x3B] + text::decimal(rows_left(height) as nat) + seq![0x72u8]
}

/// `ESC[<row>;1H ESC[K`.
pub open spec fn cleared_row(row: int) -> Seq<u8> {
    seq![0x1Bu8, 0x5B] + text::decimal(row as nat) + seq![0x3Bu8, 0x31, 0x48, 0x1B, 0x5B, 0x4B]
}

/// The bar: the cursor is saved, the last row cleared, the character set put
/// right, the line written in its colour, and all that undone. Nothing where
/// there is no row.
pub open spec fn bar(height: int, line: Seq<char>, colour: Seq<char>) -> Seq<u8> {
    if height >= 1 {
        seq![0x1Bu8, 0x37] + cleared_row(height) + seq![0x1Bu8, 0x28, 0x42, 0x1B, 0x5B]
            + vstd::utf8::encode_utf8(colour) + seq![0x6Du8] + vstd::utf8::encode_utf8(line)
            + seq![0x1Bu8, 0x5B, 0x30, 0x6D, 0x1B, 0x38]
    } else {
        Seq::empty()
    }
}

/// The scroll region leaves out the last row, and putting it back keeps the
/// cursor where it is.
pub proof fn law_the_region_leaves_out_the_last_row(height: int)
    requires
        height >= 0,
    ensures
        terminal::child_rows(height) == rows_left(height),
        terminal::margin_bytes(height) == region(height),
        terminal::remargin_bytes(height) == seq![0x1Bu8, 0x37] + region(height) + seq![
            0x1Bu8,
            0x38,
        ],
{
    assert(terminal::REGION_FROM_TOP@ =~= seq![0x1Bu8, 0x5B, 0x31, 0x3B]);
    assert(terminal::SAVE_CURSOR@ =~= seq![0x1Bu8, 0x37]);
    assert(terminal::RESTORE_CURSOR@ =~= seq![0x1Bu8, 0x38]);
    assert('r' as u8 == 0x72);
}

/// Taking the terminal clears it and sets the region; handing it back takes the
/// region away and clears the last row.
pub proof fn law_the_terminal_is_taken_and_handed_back(height: int)
    requires
        height >= 0,
    ensures
        terminal::start_bytes(height) == seq![0x1Bu8, 0x5B, 0x32, 0x4A, 0x1B, 0x5B, 0x48] + region(
            height,
        ),
        height >= 1 ==> terminal::release_bytes(height) == seq![0x1Bu8, 0x5B, 0x72] + cleared_row(
            height,
        ),
        height == 0 ==> terminal::release_bytes(height) == seq![0x1Bu8, 0x5B, 0x72],
        terminal::clear_row_bytes(height) == cleared_row(height),
{
    law_the_region_leaves_out_the_last_row(height);
    assert(terminal::CLEAR_SCREEN@ =~= seq![0x1Bu8, 0x5B, 0x32, 0x4A, 0x1B, 0x5B, 0x48]);
    assert(terminal::RESET_MARGIN@ =~= seq![0x1Bu8, 0x5B, 0x72]);
    assert(terminal::CSI@ =~= seq![0x1Bu8, 0x5B]);
    assert(terminal::COLUMN_ONE_CLEAR@ =~= seq![0x3Bu8, 0x31, 0x48, 0x1B, 0x5B, 0x4B]);
}

/// The bar is drawn on the last row, in its colour, and the cursor is put back.
pub proof fn law_the_bar_is_drawn_on_the_last_row(height: int, line: Seq<char>, colour: Seq<char>)
    requires
        height >= 1,
    ensures
        terminal::bar_bytes(height, line, colour) == bar(height, line, colour),
{
    law_the_terminal_is_taken_and_handed_back(height);
    assert(terminal::SAVE_CURSOR@ =~= seq![0x1Bu8, 0x37]);
    assert(terminal::ASCII_CHARSET@ =~= seq![0x1Bu8, 0x28, 0x42]);
    assert(terminal::CSI@ =~= seq![0x1Bu8, 0x5B]);
    assert(terminal::PLAIN@ =~= seq![0x1Bu8, 0x5B, 0x30, 0x6D]);
    assert(terminal::RESTORE_CURSOR@ =~= seq![0x1Bu8, 0x38]);
    assert('m' as u8 == 0x6D);
    assert(terminal::bar_bytes(height, line, colour) =~= bar(height, line, colour));
}

// ── what destroys the region ─────────────────────────────────────────────────

/// `ESC [`, a `?` where the sequence is a private one, the parameters, the
/// intermediates and the last byte.
pub open spec fn sequence(
    private: bool,
    fields: Seq<Seq<u8>>,
    middles: Seq<u8>,
    last: u8,
) -> Seq<u8> {
    seq![0x1Bu8, 0x5B] + (if private {
        seq![0x3Fu8]
    } else {
        Seq::empty()
    }) + key_laws::strung(fields, 0x3Bu8) + middles + seq![last]
}

/// The parameter is one of 1049, 1047 and 47, the alternate screens.
pub open spec fn is_alternate_screen(field: Seq<u8>) -> bool {
    ||| field == seq![0x31u8, 0x30, 0x34, 0x39]
    ||| field == seq![0x31u8, 0x30, 0x34, 0x37]
    ||| field == seq![0x34u8, 0x37]
}

proof fn lemma_middles_read(w: WatchView, middles: Seq<u8>)
    requires
        w.state == State::Csi,
        !w.bang,
        !w.other_intermediate,
        forall|i: int| 0 <= i < middles.len() ==> 0x20 <= #[trigger] middles[i] <= 0x2F,
    ensures
        ({
            let (v, gone) = w.fed(middles);
            &&& !gone
            &&& v == WatchView { bang: v.bang, other_intermediate: v.other_intermediate, ..w }
            &&& v.bang <==> middles.contains(0x21)
            &&& middles.len() > 0 <==> v.bang || v.other_intermediate
        }),
    decreases middles.len(),
{
    if middles.len() > 0 {
        let fewer = middles.drop_last();
        let byte = middles[middles.len() - 1];
        assert forall|i: int| 0 <= i < fewer.len() implies 0x20 <= #[trigger] fewer[i] <= 0x2F by {
            assert(fewer[i] == middles[i]);
        }
        lemma_middles_read(w, fewer);
        if fewer.contains(0x21) {
            let k = choose|k: int| 0 <= k < fewer.len() && fewer[k] == 0x21;
            assert(middles[k] == 0x21);
        }
        if middles.contains(0x21) && byte != 0x21 {
            let k = choose|k: int| 0 <= k < middles.len() && middles[k] == 0x21;
            assert(fewer[k] == 0x21);
        }
    }
}

proof fn lemma_listed(fields: Seq<Seq<u8>>)
    requires
        key_laws::are_fields(fields, 0x3Bu8),
    ensures
        terminal::lists_alt_screen(key_laws::strung(fields, 0x3Bu8)) <==> exists|i: int|
            0 <= i < fields.len() && is_alternate_screen(#[trigger] fields[i]),
{
    key_laws::law_splitting_gives_the_fields(fields, 0x3Bu8);
    assert(terminal::ALT_SCREEN@ =~= seq![0x31u8, 0x30, 0x34, 0x39]);
    assert(terminal::ALT_SCREEN_1047@ =~= seq![0x31u8, 0x30, 0x34, 0x37]);
    assert(terminal::ALT_SCREEN_47@ =~= seq![0x34u8, 0x37]);
    if exists|i: int| 0 <= i < fields.len() && is_alternate_screen(#[trigger] fields[i]) {
        let i = choose|i: int|
            0 <= i < fields.len() && is_alternate_screen(#[trigger] fields[i]);
        assert(fields.contains(fields[i]));
    }
}

/// What destroys the scroll region, among all control sequences, whatever the
/// scanner was in the middle of: a region set, that is an `r` that is not
/// private and has no intermediate; an alternate screen switched on or off, that
/// is a private `h` or `l` with 1049, 1047 or 47 among its parameters; and a soft
/// reset, that is a `p` with a `!`. No other sequence does.
pub proof fn law_what_destroys_the_region(
    w: WatchView,
    private: bool,
    fields: Seq<Seq<u8>>,
    middles: Seq<u8>,
    last: u8,
)
    requires
        key_laws::are_fields(fields, 0x3Bu8),
        forall|i: int, k: int|
            0 <= i < fields.len() && 0 <= k < fields[i].len() ==> 0x30 <= #[trigger] fields[i][k]
                <= 0x3F,
        fields[0].len() > 0 ==> fields[0][0] != 0x3F,
        key_laws::strung(fields, 0x3Bu8).len() <= 64,
        forall|i: int| 0 <= i < middles.len() ==> 0x20 <= #[trigger] middles[i] <= 0x2F,
        0x40 <= last <= 0x7E,
    ensures
        ({
            let (v, gone) = w.fed(sequence(private, fields, middles, last));
            &&& v.state == State::Ground
            &&& gone <==> {
                ||| last == 0x72 && !private && middles.len() == 0
                ||| (last == 0x68 || last == 0x6C) && private && exists|i: int|
                    0 <= i < fields.len() && is_alternate_screen(#[trigger] fields[i])
                ||| last == 0x70 && middles.contains(0x21)
            }
        }),
{
    let body = key_laws::strung(fields, 0x3Bu8);
    let open = seq![0x1Bu8, 0x5B];
    let mark = if private {
        seq![0x3Fu8]
    } else {
        Seq::<u8>::empty()
    };
    assert(terminal::CSI@ =~= open);
    terminal::lemma_csi_opened(w);
    let opened = WatchView::fresh().in_state(State::Csi);
    let marked = WatchView { private, ..opened };
    reveal_with_fuel(WatchView::fed, 2);
    if private {
        assert(mark.drop_last() =~= Seq::<u8>::empty());
    }
    assert(opened.fed(mark) == (marked, false));
    lemma_strung_params(fields);
    terminal::lemma_params_read(marked, body);
    let read = marked.fed(body).0;
    lemma_middles_read(read, middles);
    lemma_listed(fields);
    terminal::law_watch_chunks_do_not_matter(w, open, mark);
    terminal::law_watch_chunks_do_not_matter(w, open + mark, body);
    terminal::law_watch_chunks_do_not_matter(w, open + mark + body, middles);
    let s = sequence(private, fields, middles, last);
    assert(s.drop_last() =~= open + mark + body + middles);
    assert(s.last() == last);
}

proof fn lemma_strung_params(fields: Seq<Seq<u8>>)
    requires
        fields.len() >= 1,
        forall|i: int, k: int|
            0 <= i < fields.len() && 0 <= k < fields[i].len() ==> 0x30 <= #[trigger] fields[i][k]
                <= 0x3F,
    ensures
        terminal::are_params(key_laws::strung(fields, 0x3Bu8)),
        fields[0].len() > 0 ==> key_laws::strung(fields, 0x3Bu8).len() > 0 && key_laws::strung(
            fields,
            0x3Bu8,
        )[0] == fields[0][0],
        fields[0].len() == 0 && key_laws::strung(fields, 0x3Bu8).len() > 0 ==> key_laws::strung(
            fields,
            0x3Bu8,
        )[0] == 0x3B,
    decreases fields.len(),
{
    let all = key_laws::strung(fields, 0x3Bu8);
    let last = fields[fields.len() - 1];
    if fields.len() >= 2 {
        let fewer = fields.drop_last();
        assert forall|i: int, k: int|
            0 <= i < fewer.len() && 0 <= k < fewer[i].len() implies 0x30 <= #[trigger] fewer[i][k]
            <= 0x3F by {
            assert(fewer[i][k] == fields[i][k]);
        }
        lemma_strung_params(fewer);
        let head = key_laws::strung(fewer, 0x3Bu8);
        assert forall|j: int| 0 <= j < all.len() implies 0x30 <= #[trigger] all[j] <= 0x3F by {
            if j < head.len() {
                assert(all[j] == head[j]);
            } else if j > head.len() {
                let k = j - head.len() - 1;
                assert(all[j] == fields[fields.len() - 1][k]);
            }
        }
    } else {
        assert forall|j: int| 0 <= j < all.len() implies 0x30 <= #[trigger] all[j] <= 0x3F by {
            assert(all[j] == fields[0][j]);
        }
    }
}

/// Of a control sequence with more than 64 bytes of parameters the first 64 are
/// read and the rest make no difference.
pub proof fn law_parameters_past_the_cap_make_no_difference(
    w: WatchView,
    params: Seq<u8>,
    rest: Seq<u8>,
)
    requires
        terminal::are_params(params),
        params.len() > 64,
        params[0] != 0x3F,
    ensures
        w.fed(seq![0x1Bu8, 0x5B] + params + rest) == w.fed(
            seq![0x1Bu8, 0x5B] + params.take(64) + rest,
        ),
{
    let open = seq![0x1Bu8, 0x5B];
    assert(terminal::CSI@ =~= open);
    terminal::lemma_csi_opened(w);
    let opened = WatchView::fresh().in_state(State::Csi);
    lemma_capped(opened, params);
    let short = params.take(64);
    assert forall|i: int| 0 <= i < short.len() implies 0x30 <= #[trigger] short[i] <= 0x3F by {
        assert(short[i] == params[i]);
    }
    lemma_capped(opened, short);
    assert(short.take(64) =~= short);
    terminal::law_watch_chunks_do_not_matter(w, open, params);
    terminal::law_watch_chunks_do_not_matter(w, open, short);
    terminal::law_watch_chunks_do_not_matter(w, open + params, rest);
    terminal::law_watch_chunks_do_not_matter(w, open + short, rest);
}

proof fn lemma_capped(w: WatchView, params: Seq<u8>)
    requires
        w.state == State::Csi,
        w.params.len() == 0,
        terminal::are_params(params),
        params.len() >= 64,
        params[0] != 0x3F,
    ensures
        w.fed(params) == (WatchView { params: params.take(64), ..w }, false),
    decreases params.len(),
{
    if params.len() == 64 {
        terminal::lemma_params_read(w, params);
        assert(params.take(64) =~= params);
    } else {
        let fewer = params.drop_last();
        assert forall|i: int| 0 <= i < fewer.len() implies 0x30 <= #[trigger] fewer[i] <= 0x3F by {
            assert(fewer[i] == params[i]);
        }
        lemma_capped(w, fewer);
        assert(fewer.take(64) =~= params.take(64));
        assert(0x30 <= params[params.len() - 1] <= 0x3F);
    }
}

/// Of the escapes of two bytes only `ESC c`, a hard reset, destroys the region.
/// All but `ESC [` and a second `ESC` are over with the second byte.
pub proof fn law_escapes_of_two_bytes(w: WatchView, byte: u8)
    ensures
        w.fed(seq![0x1Bu8, byte]).1 <==> byte == 0x63,
        w.fed(seq![0x1Bu8, byte]).0.state == State::Ground <==> byte != 0x5B && byte != 0x1B,
{
    let pair = seq![0x1Bu8, byte];
    reveal_with_fuel(WatchView::fed, 3);
    assert(pair.drop_last() =~= seq![0x1Bu8]);
    assert(seq![0x1Bu8].drop_last() =~= Seq::<u8>::empty());
}

/// A new scanner stands between sequences.
pub proof fn law_a_scanner_begins_between_sequences()
    ensures
        WatchView::fresh().state == State::Ground,
{
}

// ── the session ──────────────────────────────────────────────────────────────

/// What an action is on a terminal of this size: an answer and keystrokes are
/// their own bytes, a line is the bar on the last row, a repaint is one of the
/// child's window, an exit keeps its code.
pub open spec fn effect_of(action: ActionView, width: int, height: int) -> EffectView {
    match action {
        ActionView::Answer(bytes) => EffectView::Answer(bytes),
        ActionView::Forward(bytes) => EffectView::Forward(bytes),
        ActionView::Status { line, colour } => EffectView::Draw(bar(height, line, colour)),
        ActionView::ForceRedraw => EffectView::Redraw { rows: rows_left(height), cols: width },
        ActionView::Exit(code) => EffectView::Quit(code),
    }
}

proof fn lemma_performed(on: TerminalView, action: ActionView)
    requires
        on.height >= 0,
    ensures
        session::performed(on, action) == effect_of(action, on.width, on.height),
{
    law_the_region_leaves_out_the_last_row(on.height);
    if let ActionView::Status { line, colour } = action {
        if on.height >= 1 {
            law_the_bar_is_drawn_on_the_last_row(on.height, line, colour);
        }
    }
}

/// An event is the engine's: its actions are performed one by one and in order,
/// none left out and none added, and the terminal stays as it is. Only the end
/// of the child is not: it calls for the child to be reaped, and changes
/// nothing.
pub proof fn law_every_action_is_performed(s: SessionView, event: EventView)
    requires
        s.terminal.height >= 0,
    ensures
        ({
            let (engine, actions) = s.engine.handled(event);
            let (after, effects) = s.served(event);
            &&& event is Eof ==> after == s && effects == seq![EffectView::Reap]
            &&& !(event is Eof) ==> {
                &&& after == SessionView { engine, terminal: s.terminal }
                &&& effects.len() == actions.len()
                &&& forall|i: int|
                    0 <= i < actions.len() ==> #[trigger] effects[i] == effect_of(
                        actions[i],
                        s.terminal.width,
                        s.terminal.height,
                    )
            }
        }),
{
    let (engine, actions) = s.engine.handled(event);
    let (after, effects) = s.served(event);
    if !(event is Eof) {
        assert forall|i: int| 0 <= i < actions.len() implies #[trigger] effects[i] == effect_of(
            actions[i],
            s.terminal.width,
            s.terminal.height,
        ) by {
            lemma_performed(s.terminal, actions[i]);
        }
    }
}

/// The child's bytes are shown as they are, and where they destroyed the region
/// it is set again right after them, with the cursor kept. The engine is not
/// asked, and the terminal's size stays.
pub proof fn law_output_is_shown(s: SessionView, bytes: Seq<u8>)
    requires
        s.terminal.height >= 0,
    ensures
        ({
            let (watch, gone) = s.terminal.watch.fed(bytes);
            let (after, effects) = s.showed(bytes);
            &&& after == SessionView {
                engine: s.engine,
                terminal: TerminalView { watch, ..s.terminal },
            }
            &&& !gone ==> effects == seq![EffectView::Show(bytes)]
            &&& gone ==> effects == seq![
                EffectView::Show(bytes),
                EffectView::Draw(
                    seq![0x1Bu8, 0x37] + region(s.terminal.height) + seq![0x1Bu8, 0x38],
                ),
            ]
        }),
{
    law_the_region_leaves_out_the_last_row(s.terminal.height);
    let (watch, gone) = s.terminal.watch.fed(bytes);
    let effects = s.showed(bytes).1;
    if gone {
        assert(effects =~= seq![
            EffectView::Show(bytes),
            EffectView::Draw(seq![0x1Bu8, 0x37] + region(s.terminal.height) + seq![0x1Bu8, 0x38]),
        ]);
    } else {
        assert(effects =~= seq![EffectView::Show(bytes)]);
    }
}

/// A new size reaches the child first, then the region is set for it, then the
/// bar is drawn on the new last row. The engine stays as it is.
pub proof fn law_a_new_size(s: SessionView, width: int, height: int, now: int)
    requires
        height >= 0,
    ensures
        ({
            let (after, effects) = s.resized(width, height, now);
            &&& after == SessionView {
                engine: s.engine,
                terminal: TerminalView { width, height, watch: s.terminal.watch },
            }
            &&& effects == seq![
                EffectView::Resize { rows: rows_left(height), cols: width },
                EffectView::Draw(seq![0x1Bu8, 0x37] + region(height) + seq![0x1Bu8, 0x38]),
                effect_of(s.engine.status(now), width, height),
            ]
        }),
{
    law_the_region_leaves_out_the_last_row(height);
    let on = TerminalView { width, height, ..s.terminal };
    lemma_performed(on, s.engine.status(now));
}

/// The narrow window of a redraw is one column short, and there is none in a
/// window of one row or one column.
pub proof fn law_a_redraw_takes_one_column(rows: int, cols: int)
    ensures
        session::narrow_width(rows, cols) is Some <==> rows >= 2 && cols >= 2,
        session::narrow_width(rows, cols) matches Some(narrow) ==> narrow + 1 == cols,
{
}

// ── the log ──────────────────────────────────────────────────────────────────

proof fn lemma_listed_is_strung(names: Seq<Seq<char>>)
    ensures
        debug::listed(names) == key_laws::strung(names, ','),
    decreases names.len(),
{
    if names.len() >= 2 {
        lemma_listed_is_strung(names.drop_last());
        reveal_strlit(",");
        assert(","@ =~= seq![',']);
    }
}

/// The log says whether a dialog was detected, its score, and the names of what
/// was found with commas between them. It says nothing of a score of 0, and
/// something of every other.
pub proof fn law_what_the_log_says(d: DetectionView)
    ensures
        debug::line_of(d) is None <==> d.score == 0,
        d.score != 0 ==> debug::line_of(d) == Some(
            (if d.detected {
                "DETECTED score="@
            } else {
                "below    score="@
            }) + text::decimal_text(d.score as nat) + " hits=["@ + key_laws::strung(d.hits, ',')
                + "]"@,
        ),
{
    lemma_listed_is_strung(d.hits);
    reveal_strlit("DETECTED");
    reveal_strlit("below   ");
    reveal_strlit(" score=");
    reveal_strlit("DETECTED score=");
    reveal_strlit("below    score=");
    assert("DETECTED"@ + " score="@ =~= "DETECTED score="@);
    assert("below   "@ + " score="@ =~= "below    score="@);
}

/// Only a `1` turns the log on.
pub proof fn law_a_one_turns_the_log_on(value: Seq<char>)
    ensures
        value == debug::ON@ <==> value.len() == 1 && value[0] == '1',
{
    reveal_strlit("1");
    assert(debug::ON@ =~= seq!['1']);
    if value.len() == 1 && value[0] == '1' {
        assert(value =~= seq!['1']);
    }
}

}
