//! What the bytes from the terminal mean, key by key.

use vstd::prelude::*;

use crate::input;
use crate::input::{Hotkey, ParserView, State, UnitView};
use crate::text;

verus! {

// ── lists of numbers ─────────────────────────────────────────────────────────

/// The fields with one `sep` between neighbours.
pub open spec fn strung<T>(fields: Seq<Seq<T>>, sep: T) -> Seq<T>
    decreases fields.len(),
{
    if fields.len() == 0 {
        Seq::empty()
    } else if fields.len() == 1 {
        fields[0]
    } else {
        strung(fields.drop_last(), sep) + seq![sep] + fields.last()
    }
}

/// There is a field, and no field holds a `sep`.
pub open spec fn are_fields<T>(fields: Seq<Seq<T>>, sep: T) -> bool {
    &&& fields.len() >= 1
    &&& forall|i: int, k: int|
        0 <= i < fields.len() && 0 <= k < fields[i].len() ==> #[trigger] fields[i][k] != sep
}

proof fn lemma_fewer_fields<T>(fields: Seq<Seq<T>>, sep: T)
    requires
        are_fields(fields, sep),
        fields.len() >= 2,
    ensures
        are_fields(fields.drop_last(), sep),
{
    let fewer = fields.drop_last();
    assert forall|i: int, k: int|
        0 <= i < fewer.len() && 0 <= k < fewer[i].len() implies #[trigger] fewer[i][k] != sep by {
        assert(fewer[i][k] == fields[i][k]);
    }
}

proof fn lemma_one_more_field<T>(s: Seq<T>, sep: T, field: Seq<T>)
    requires
        forall|k: int| 0 <= k < field.len() ==> #[trigger] field[k] != sep,
    ensures
        text::split_on(s + seq![sep] + field, sep) == text::split_on(s, sep).push(field),
    decreases field.len(),
{
    let whole = s + seq![sep] + field;
    let before = text::split_on(s, sep);
    if field.len() == 0 {
        assert(whole.drop_last() =~= s);
        assert(field =~= Seq::<T>::empty());
    } else {
        let less = field.drop_last();
        lemma_one_more_field(s, sep, less);
        assert(whole.drop_last() =~= s + seq![sep] + less);
        assert(whole.last() == field[field.len() - 1]);
        assert(less.push(field.last()) =~= field);
        assert(before.push(less).update(before.len() as int, field) =~= before.push(field));
    }
}

proof fn lemma_one_field<T>(field: Seq<T>, sep: T)
    requires
        forall|k: int| 0 <= k < field.len() ==> #[trigger] field[k] != sep,
    ensures
        text::split_on(field, sep) == seq![field],
    decreases field.len(),
{
    if field.len() == 0 {
        assert(field =~= Seq::<T>::empty());
    } else {
        let less = field.drop_last();
        lemma_one_field(less, sep);
        assert(field.last() == field[field.len() - 1]);
        assert(less.push(field.last()) =~= field);
        assert(seq![less].update(0, field) =~= seq![field]);
    }
}

/// Splitting gives back the fields that were strung together, all of them, in
/// order, the empty ones too.
pub proof fn law_splitting_gives_the_fields<T>(fields: Seq<Seq<T>>, sep: T)
    requires
        are_fields(fields, sep),
    ensures
        text::split_on(strung(fields, sep), sep) == fields,
    decreases fields.len(),
{
    let last = fields[fields.len() - 1];
    assert forall|k: int| 0 <= k < last.len() implies #[trigger] last[k] != sep by {
        assert(fields[fields.len() - 1][k] != sep);
    }
    if fields.len() == 1 {
        lemma_one_field(last, sep);
        assert(seq![last] =~= fields);
    } else {
        let fewer = fields.drop_last();
        lemma_fewer_fields(fields, sep);
        law_splitting_gives_the_fields(fewer, sep);
        lemma_one_more_field(strung(fewer, sep), sep, last);
        assert(fewer.push(last) =~= fields);
    }
}

/// Whatever the text, it is fields strung together.
pub proof fn law_every_text_is_strung_together<T>(s: Seq<T>, sep: T) -> (fields: Seq<Seq<T>>)
    ensures
        are_fields(fields, sep),
        strung(fields, sep) == s,
    decreases s.len(),
{
    if s.len() == 0 {
        let none = Seq::<T>::empty();
        assert(s =~= none);
        seq![none]
    } else {
        let before = law_every_text_is_strung_together(s.drop_last(), sep);
        assert(s.drop_last().push(s.last()) =~= s);
        if s.last() == sep {
            let none = Seq::<T>::empty();
            let fields = before.push(none);
            assert(fields.drop_last() =~= before);
            assert(strung(before, sep) + seq![sep] + none =~= s);
            assert forall|i: int, k: int|
                0 <= i < fields.len() && 0 <= k < fields[i].len() implies #[trigger] fields[i][k]
                != sep by {
                assert(i < before.len());
                assert(before[i][k] == fields[i][k]);
            }
            fields
        } else {
            let n = before.len() - 1;
            let last = before[n].push(s.last());
            let fields = before.update(n, last);
            assert forall|i: int, k: int|
                0 <= i < fields.len() && 0 <= k < fields[i].len() implies #[trigger] fields[i][k]
                != sep by {
                if i < n || k < before[n].len() {
                    assert(before[i][k] == fields[i][k]);
                }
            }
            if n > 0 {
                assert(fields.drop_last() =~= before.drop_last());
                assert(strung(before.drop_last(), sep) + seq![sep] + last =~= (strung(
                    before.drop_last(),
                    sep,
                ) + seq![sep] + before[n]).push(s.last()));
            }
            fields
        }
    }
}

/// The number that the digits among the bytes spell, most significant first.
pub open spec fn number_in(bytes: Seq<u8>) -> nat
    decreases bytes.len(),
{
    if bytes.len() == 0 {
        0
    } else if 0x30 <= bytes.last() <= 0x39 {
        (10 * number_in(bytes.drop_last()) + (bytes.last() - 0x30)) as nat
    } else {
        number_in(bytes.drop_last())
    }
}

proof fn lemma_spelled(bytes: Seq<u8>)
    ensures
        input::spelled_number(bytes) == number_in(bytes),
    decreases bytes.len(),
{
    if bytes.len() > 0 {
        lemma_spelled(bytes.drop_last());
    }
}

/// A number written out in decimal is digits only, begins with no idle 0, and
/// reads back as the number it was.
pub proof fn law_a_number_reads_back(n: nat)
    ensures
        number_in(text::decimal(n)) == n,
        text::decimal(n).len() >= 1,
        forall|i: int|
            0 <= i < text::decimal(n).len() ==> 0x30 <= #[trigger] text::decimal(n)[i] <= 0x39,
        n >= 1 ==> text::decimal(n)[0] != 0x30,
    decreases n,
{
    let d = text::decimal(n);
    if n >= 10 {
        law_a_number_reads_back(n / 10);
        assert(d.drop_last() =~= text::decimal(n / 10));
    } else {
        assert(d.drop_last() =~= Seq::<u8>::empty());
        reveal_with_fuel(number_in, 2);
    }
}

/// A number written out as text is the same digits.
pub proof fn law_decimal_text_is_the_same_digits(n: nat)
    ensures
        text::decimal_text(n).len() == text::decimal(n).len(),
        forall|i: int|
            0 <= i < text::decimal(n).len() ==> #[trigger] text::decimal_text(n)[i]
                == text::decimal(n)[i] as char,
{
}

// ── one control sequence ─────────────────────────────────────────────────────

/// What a parameter is worth: the number it spells, held at 65535. An empty one
/// is 0.
pub open spec fn worth(field: Seq<u8>) -> int {
    if number_in(field) > 65535 {
        65535
    } else {
        number_in(field) as int
    }
}

/// The modifiers, written as one more than their sum, hold `Ctrl`, which counts
/// 4.
pub open spec fn with_control(modifiers: int) -> bool {
    modifiers >= 1 && ((modifiers - 1) / 4) % 2 == 1
}

/// The second parameter is there and holds `Ctrl`.
pub open spec fn pressed_with_control(fields: Seq<Seq<u8>>) -> bool {
    fields.len() >= 2 && with_control(worth(fields[1]))
}

/// `ESC[<97 or 65>;<modifiers with Ctrl>u`, or
/// `ESC[27;<modifiers with Ctrl>;<97 or 65>~`.
pub open spec fn is_control_a(fields: Seq<Seq<u8>>, last: u8) -> bool {
    &&& pressed_with_control(fields)
    &&& {
        ||| last == 0x75 && (worth(fields[0]) == 97 || worth(fields[0]) == 65)
        ||| last == 0x7E && worth(fields[0]) == 27 && fields.len() >= 3 && (worth(fields[2]) == 97
            || worth(fields[2]) == 65)
    }
}

/// Traffic of the terminal: it begins with `?`, `>` or `<`, or ends in `R`, `n`,
/// `I` or `O`, or is `ESC[200~` or `ESC[201~`.
pub open spec fn is_traffic(fields: Seq<Seq<u8>>, last: u8) -> bool {
    ||| fields[0].len() > 0 && (fields[0][0] == 0x3F || fields[0][0] == 0x3E || fields[0][0]
        == 0x3C)
    ||| last == 0x52 || last == 0x6E || last == 0x49 || last == 0x4F
    ||| last == 0x7E && (worth(fields[0]) == 200 || worth(fields[0]) == 201)
}

/// `ESC [`, the parameters, and the last byte.
pub open spec fn sequence(fields: Seq<Seq<u8>>, last: u8) -> Seq<u8> {
    seq![0x1Bu8, 0x5B] + strung(fields, 0x3Bu8) + seq![last]
}

proof fn lemma_strung_head(fields: Seq<Seq<u8>>)
    requires
        fields.len() >= 1,
    ensures
        fields[0].len() > 0 ==> strung(fields, 0x3Bu8).len() > 0 && strung(fields, 0x3Bu8)[0]
            == fields[0][0],
        fields[0].len() > 0 ==> strung(fields, 0x3Bu8).skip(1) == strung(
            fields.update(0, fields[0].skip(1)),
            0x3Bu8,
        ),
        fields[0].len() == 0 && fields.len() >= 2 ==> strung(fields, 0x3Bu8).len() > 0 && strung(
            fields,
            0x3Bu8,
        )[0] == 0x3B,
    decreases fields.len(),
{
    if fields.len() >= 2 {
        let fewer = fields.drop_last();
        lemma_strung_head(fewer);
        if fields[0].len() > 0 {
            let shorter = fields.update(0, fields[0].skip(1));
            assert(shorter.drop_last() =~= fewer.update(0, fields[0].skip(1)));
            let head = strung(fewer, 0x3Bu8);
            assert((head + seq![0x3Bu8] + fields.last()).skip(1) =~= head.skip(1) + seq![0x3Bu8]
                + fields.last());
        }
    }
}

proof fn lemma_first_byte_skipped(bytes: Seq<u8>)
    requires
        bytes.len() > 0,
        !(0x30 <= bytes[0] <= 0x39),
    ensures
        number_in(bytes.skip(1)) == number_in(bytes),
    decreases bytes.len(),
{
    if bytes.len() == 1 {
        reveal_with_fuel(number_in, 2);
        assert(bytes.skip(1) =~= Seq::<u8>::empty());
        assert(bytes.drop_last() =~= Seq::<u8>::empty());
    } else {
        lemma_first_byte_skipped(bytes.drop_last());
        assert(bytes.drop_last().skip(1) =~= bytes.skip(1).drop_last());
    }
}

proof fn lemma_values(fields: Seq<Seq<u8>>)
    requires
        are_fields(fields, 0x3Bu8),
    ensures
        ({
            let params = input::params_of(strung(fields, 0x3Bu8));
            &&& params.len() == fields.len()
            &&& forall|i: int| 0 <= i < fields.len() ==> #[trigger] params[i] == worth(fields[i])
        }),
{
    let body = strung(fields, 0x3Bu8);
    lemma_strung_head(fields);
    let params = input::params_of(body);
    if fields[0].len() > 0 && 0x3C <= fields[0][0] <= 0x3F {
        let shorter = fields.update(0, fields[0].skip(1));
        assert forall|i: int, k: int|
            0 <= i < shorter.len() && 0 <= k < shorter[i].len() implies #[trigger] shorter[i][k]
            != 0x3Bu8 by {
            if i == 0 {
                assert(shorter[i][k] == fields[i][k + 1]);
            } else {
                assert(shorter[i][k] == fields[i][k]);
            }
        }
        law_splitting_gives_the_fields(shorter, 0x3Bu8);
        lemma_first_byte_skipped(fields[0]);
        assert forall|i: int| 0 <= i < fields.len() implies #[trigger] params[i] == worth(
            fields[i],
        ) by {
            lemma_spelled(shorter[i]);
        }
    } else {
        law_splitting_gives_the_fields(fields, 0x3Bu8);
        assert forall|i: int| 0 <= i < fields.len() implies #[trigger] params[i] == worth(
            fields[i],
        ) by {
            lemma_spelled(fields[i]);
        }
    }
}

/// What a control sequence is. Traffic of the terminal is a report, with its own
/// bytes. Of the rest, `Ctrl+A` in either of its encodings is the toggle and no
/// other sequence is; a sequence that ends in `A` or `B` with `Ctrl` held is a
/// delay key and no other is. Every other sequence is a key, with its own bytes.
pub proof fn law_what_a_control_sequence_is(fields: Seq<Seq<u8>>, last: u8)
    requires
        are_fields(fields, 0x3Bu8),
    ensures
        ({
            let seq = sequence(fields, last);
            let unit = input::classified(seq);
            let control = pressed_with_control(fields);
            &&& is_traffic(fields, last) <==> unit == UnitView::Report(seq)
            &&& unit == UnitView::Hotkey(Hotkey::Toggle) <==> !is_traffic(fields, last)
                && is_control_a(fields, last)
            &&& unit == UnitView::Hotkey(Hotkey::DelayUp) <==> !is_traffic(fields, last) && last
                == 0x41 && control
            &&& unit == UnitView::Hotkey(Hotkey::DelayDown) <==> !is_traffic(fields, last) && last
                == 0x42 && control
            &&& unit == UnitView::Key(seq) <==> !is_traffic(fields, last) && !is_control_a(
                fields,
                last,
            ) && !((last == 0x41 || last == 0x42) && control)
        }),
{
    let body = strung(fields, 0x3Bu8);
    let seq = sequence(fields, last);
    assert(input::csi_body(seq) =~= body);
    assert(seq.last() == last);
    lemma_values(fields);
    lemma_strung_head(fields);
    let params = input::params_of(body);
    assert(params[0] == worth(fields[0]));
    if fields.len() >= 2 {
        assert(params[1] == worth(fields[1]));
    }
    if fields.len() >= 3 {
        assert(params[2] == worth(fields[2]));
    }
}

/// A letter and its modifiers, as Kitty's protocol writes them, are the toggle
/// exactly when the letter is `a` or `A` and `Ctrl` is held. Else they are a key,
/// with its own bytes.
pub proof fn law_a_letter_with_modifiers(letter: nat, modifiers: nat)
    requires
        letter <= 65535,
        modifiers <= 65535,
    ensures
        ({
            let seq = seq![0x1Bu8, 0x5B] + text::decimal(letter) + seq![0x3Bu8] + text::decimal(
                modifiers,
            ) + seq![0x75u8];
            let toggles = (letter == 97 || letter == 65) && with_control(modifiers as int);
            input::classified(seq) == (if toggles {
                UnitView::Hotkey(Hotkey::Toggle)
            } else {
                UnitView::Key(seq)
            })
        }),
{
    let fields = seq![text::decimal(letter), text::decimal(modifiers)];
    law_a_number_reads_back(letter);
    law_a_number_reads_back(modifiers);
    assert(are_fields(fields, 0x3Bu8));
    assert(fields.drop_last() =~= seq![text::decimal(letter)]);
    reveal_with_fuel(strung, 2);
    law_what_a_control_sequence_is(fields, 0x75);
    assert(sequence(fields, 0x75) =~= seq![0x1Bu8, 0x5B] + text::decimal(letter) + seq![0x3Bu8]
        + text::decimal(modifiers) + seq![0x75u8]);
}

/// An arrow with modifiers is a delay key exactly when it is the one up or the
/// one down and `Ctrl` is held. Else it is a key, with its own bytes.
pub proof fn law_an_arrow_with_modifiers(count: nat, modifiers: nat, arrow: u8)
    requires
        count <= 65535,
        modifiers <= 65535,
        0x41 <= arrow <= 0x44,
    ensures
        ({
            let seq = seq![0x1Bu8, 0x5B] + text::decimal(count) + seq![0x3Bu8] + text::decimal(
                modifiers,
            ) + seq![arrow];
            input::classified(seq) == (if arrow == 0x41 && with_control(modifiers as int) {
                UnitView::Hotkey(Hotkey::DelayUp)
            } else if arrow == 0x42 && with_control(modifiers as int) {
                UnitView::Hotkey(Hotkey::DelayDown)
            } else {
                UnitView::Key(seq)
            })
        }),
{
    let fields = seq![text::decimal(count), text::decimal(modifiers)];
    law_a_number_reads_back(count);
    law_a_number_reads_back(modifiers);
    assert(are_fields(fields, 0x3Bu8));
    assert(fields.drop_last() =~= seq![text::decimal(count)]);
    reveal_with_fuel(strung, 2);
    law_what_a_control_sequence_is(fields, arrow);
    assert(sequence(fields, arrow) =~= seq![0x1Bu8, 0x5B] + text::decimal(count) + seq![0x3Bu8]
        + text::decimal(modifiers) + seq![arrow]);
}

/// A key as `modifyOtherKeys` writes it, `ESC[27;<modifiers>;<letter>~`, is the
/// toggle exactly when the letter is `a` or `A` and `Ctrl` is held. Else it is a
/// key, with its own bytes.
pub proof fn law_another_key_with_modifiers(modifiers: nat, letter: nat)
    requires
        modifiers <= 65535,
        letter <= 65535,
    ensures
        ({
            let seq = seq![0x1Bu8, 0x5B, 0x32, 0x37, 0x3B] + text::decimal(modifiers) + seq![0x3Bu8]
                + text::decimal(letter) + seq![0x7Eu8];
            let toggles = (letter == 97 || letter == 65) && with_control(modifiers as int);
            input::classified(seq) == (if toggles {
                UnitView::Hotkey(Hotkey::Toggle)
            } else {
                UnitView::Key(seq)
            })
        }),
{
    let first = seq![0x32u8, 0x37];
    let fields = seq![first, text::decimal(modifiers), text::decimal(letter)];
    law_a_number_reads_back(modifiers);
    law_a_number_reads_back(letter);
    reveal_with_fuel(number_in, 3);
    assert(first.drop_last() =~= seq![0x32u8]);
    assert(seq![0x32u8].drop_last() =~= Seq::<u8>::empty());
    assert(number_in(first) == 27);
    assert(are_fields(fields, 0x3Bu8));
    assert(fields.drop_last() =~= seq![first, text::decimal(modifiers)]);
    assert(fields.drop_last().drop_last() =~= seq![first]);
    reveal_with_fuel(strung, 3);
    law_what_a_control_sequence_is(fields, 0x7E);
    assert(sequence(fields, 0x7E) =~= seq![0x1Bu8, 0x5B, 0x32, 0x37, 0x3B] + text::decimal(
        modifiers,
    ) + seq![0x3Bu8] + text::decimal(letter) + seq![0x7Eu8]);
}

// ── byte by byte ─────────────────────────────────────────────────────────────

/// The parser between sequences.
pub open spec fn between_sequences(p: ParserView) -> bool {
    p.state == State::Ground && p.pending == Seq::<u8>::empty()
}

/// The parser has handed out nothing and holds these bytes.
pub open spec fn holds(p: ParserView, bytes: Seq<u8>) -> bool {
    p.state != State::Ground && p.pending == bytes
}

/// A parser begins between sequences, and is there again after a flush.
pub proof fn law_a_parser_begins_between_sequences()
    ensures
        between_sequences(input::at_ground()),
{
}

proof fn lemma_fed_one(p: ParserView, byte: u8)
    ensures
        input::fed(p, seq![byte]) == input::stepped(p, byte),
{
    let one = seq![byte];
    reveal_with_fuel(input::fed, 2);
    assert(one.drop_last() =~= Seq::<u8>::empty());
    let units = input::stepped(p, byte).1;
    assert(Seq::<UnitView>::empty() + units =~= units);
}

proof fn lemma_fed_push(p: ParserView, bytes: Seq<u8>, byte: u8)
    ensures
        ({
            let (q, units) = input::fed(p, bytes);
            let (r, more) = input::stepped(q, byte);
            input::fed(p, bytes.push(byte)) == (r, units + more)
        }),
{
    assert(bytes.push(byte).drop_last() =~= bytes);
}

/// A byte between sequences: 0x01 is the toggle, `ESC` is held, every other byte
/// is a key of that one byte.
pub proof fn law_one_byte(p: ParserView, byte: u8)
    requires
        between_sequences(p),
    ensures
        ({
            let (q, units) = input::fed(p, seq![byte]);
            &&& byte == 0x1B ==> holds(q, seq![0x1Bu8]) && units == Seq::<UnitView>::empty()
            &&& byte != 0x1B ==> between_sequences(q)
            &&& byte == 0x01 ==> units == seq![UnitView::Hotkey(Hotkey::Toggle)]
            &&& byte != 0x1B && byte != 0x01 ==> units == seq![UnitView::Key(seq![byte])]
        }),
{
    lemma_fed_one(p, byte);
    assert(Seq::<u8>::empty().push(byte) =~= seq![byte]);
}

/// `[`, `O` or one of `P`, `]`, `X`, `^` and `_`, which after an `ESC` begin a
/// longer sequence.
pub open spec fn goes_on(byte: u8) -> bool {
    ||| byte == 0x5B
    ||| byte == 0x4F
    ||| begins_a_string(byte)
}

/// One of `P`, `]`, `X`, `^` and `_`, which after an `ESC` begin a string.
pub open spec fn begins_a_string(byte: u8) -> bool {
    byte == 0x50 || byte == 0x5D || byte == 0x58 || byte == 0x5E || byte == 0x5F
}

proof fn lemma_two_bytes(p: ParserView, byte: u8)
    requires
        between_sequences(p),
    ensures
        input::fed(p, seq![0x1Bu8, byte]) == input::stepped(
            input::holding(State::Escape, seq![0x1Bu8]),
            byte,
        ),
{
    lemma_fed_one(p, 0x1B);
    assert(Seq::<u8>::empty().push(0x1B) =~= seq![0x1Bu8]);
    let held = input::holding(State::Escape, seq![0x1Bu8]);
    lemma_fed_push(p, seq![0x1Bu8], byte);
    assert(seq![0x1Bu8].push(byte) =~= seq![0x1Bu8, byte]);
    let units = input::stepped(held, byte).1;
    assert(Seq::<UnitView>::empty() + units =~= units);
}

/// A byte after an `ESC`: a second `ESC` gives the first one back as a key, a
/// byte that begins a longer sequence is held, and any other makes a key of the
/// two, such as `Alt` and a letter.
pub proof fn law_an_escape_and_a_byte(p: ParserView, byte: u8)
    requires
        between_sequences(p),
    ensures
        ({
            let pair = seq![0x1Bu8, byte];
            let (q, units) = input::fed(p, pair);
            &&& byte == 0x1B ==> holds(q, seq![0x1Bu8]) && units == seq![
                UnitView::Key(seq![0x1Bu8]),
            ]
            &&& goes_on(byte) ==> holds(q, pair) && units == Seq::<UnitView>::empty()
            &&& byte != 0x1B && !goes_on(byte) ==> between_sequences(q) && units == seq![
                UnitView::Key(pair),
            ]
        }),
{
    lemma_two_bytes(p, byte);
    assert(seq![0x1Bu8].push(byte) =~= seq![0x1Bu8, byte]);
}

/// `ESC O` and any byte, an `ESC` too, are one key.
pub proof fn law_a_key_of_the_application_keypad(p: ParserView, byte: u8)
    requires
        between_sequences(p),
    ensures
        ({
            let key = seq![0x1Bu8, 0x4F, byte];
            let (q, units) = input::fed(p, key);
            between_sequences(q) && units == seq![UnitView::Key(key)]
        }),
{
    lemma_two_bytes(p, 0x4F);
    lemma_fed_push(p, seq![0x1Bu8, 0x4F], byte);
    assert(seq![0x1Bu8].push(0x4F) =~= seq![0x1Bu8, 0x4F]);
    assert(seq![0x1Bu8, 0x4F].push(byte) =~= seq![0x1Bu8, 0x4F, byte]);
    let units = seq![UnitView::Key(seq![0x1Bu8, 0x4F, byte])];
    assert(Seq::<UnitView>::empty() + units =~= units);
}

/// Neither an `ESC` nor one of `@` to `~`, which end a control sequence.
pub open spec fn is_inner(bytes: Seq<u8>) -> bool {
    forall|i: int|
        0 <= i < bytes.len() ==> #[trigger] bytes[i] != 0x1B && !(0x40 <= bytes[i] <= 0x7E)
}

proof fn lemma_inside(p: ParserView, inner: Seq<u8>)
    requires
        between_sequences(p),
        is_inner(inner),
        inner.len() <= 1022,
    ensures
        input::fed(p, seq![0x1Bu8, 0x5B] + inner) == (
            input::holding(State::Csi, seq![0x1Bu8, 0x5B] + inner),
            Seq::<UnitView>::empty(),
        ),
    decreases inner.len(),
{
    let open = seq![0x1Bu8, 0x5B];
    if inner.len() == 0 {
        lemma_two_bytes(p, 0x5B);
        assert(seq![0x1Bu8].push(0x5B) =~= open);
        assert(open + inner =~= open);
    } else {
        let less = inner.drop_last();
        assert forall|i: int| 0 <= i < less.len() implies #[trigger] less[i] != 0x1B && !(0x40
            <= less[i] <= 0x7E) by {
            assert(less[i] == inner[i]);
        }
        lemma_inside(p, less);
        assert(inner[inner.len() - 1] == inner.last());
        lemma_fed_push(p, open + less, inner.last());
        assert((open + less).push(inner.last()) =~= open + inner);
    }
}

/// The bytes of a control sequence: held until the one that ends it, which makes
/// one unit of them all. An `ESC` instead gives what is held back as a key.
pub proof fn law_a_control_sequence_byte_by_byte(p: ParserView, inner: Seq<u8>, byte: u8)
    requires
        between_sequences(p),
        is_inner(inner),
        inner.len() <= 1021,
    ensures
        ({
            let held = seq![0x1Bu8, 0x5B] + inner;
            let (q, units) = input::fed(p, held.push(byte));
            &&& holds(input::fed(p, held).0, held)
            &&& input::fed(p, held).1 == Seq::<UnitView>::empty()
            &&& 0x40 <= byte <= 0x7E ==> between_sequences(q) && units == seq![
                input::classified(held.push(byte)),
            ]
            &&& byte == 0x1B ==> holds(q, seq![0x1Bu8]) && units == seq![UnitView::Key(held)]
            &&& byte != 0x1B && !(0x40 <= byte <= 0x7E) ==> holds(q, held.push(byte)) && units
                == Seq::<UnitView>::empty()
        }),
{
    let held = seq![0x1Bu8, 0x5B] + inner;
    lemma_inside(p, inner);
    lemma_fed_push(p, held, byte);
    let more = input::stepped(input::holding(State::Csi, held), byte).1;
    assert(Seq::<UnitView>::empty() + more =~= more);
}

/// Parts of a string: no `BEL`, and an `ESC` only with a byte after it that is
/// not `\`.
pub open spec fn runs_on(bytes: Seq<u8>) -> bool
    decreases bytes.len(),
{
    if bytes.len() == 0 {
        true
    } else if bytes.len() >= 2 && bytes[bytes.len() - 2] == 0x1B && runs_on(
        bytes.take(bytes.len() - 2),
    ) {
        bytes.last() != 0x5C
    } else {
        bytes.last() != 0x07 && bytes.last() != 0x1B && runs_on(bytes.drop_last())
    }
}

/// The parser has read `bytes` and holds them all, in the middle of a string.
#[verifier::opaque]
spec fn is_in_string(p: ParserView, bytes: Seq<u8>, state: State) -> bool {
    input::fed(p, bytes) == (input::holding(state, bytes), Seq::<UnitView>::empty())
}

/// One byte inside a string that does not end it.
proof fn lemma_string_step(p: ParserView, held: Seq<u8>, byte: u8)
    requires
        is_in_string(p, held, State::StringSeq),
        held.len() < 1024,
        byte != 0x07,
    ensures
        byte == 0x1B ==> is_in_string(p, held.push(byte), State::StringSeqEsc),
        byte != 0x1B ==> is_in_string(p, held.push(byte), State::StringSeq),
{
    reveal(is_in_string);
    lemma_fed_push(p, held, byte);
    let none = Seq::<UnitView>::empty();
    assert(none + none =~= none);
}

/// One byte after an `ESC` inside a string that does not end it.
proof fn lemma_string_escape_step(p: ParserView, held: Seq<u8>, byte: u8)
    requires
        is_in_string(p, held, State::StringSeqEsc),
        held.len() < 1024,
        byte != 0x5C,
    ensures
        is_in_string(p, held.push(byte), State::StringSeq),
{
    reveal(is_in_string);
    lemma_fed_push(p, held, byte);
    let none = Seq::<UnitView>::empty();
    assert(none + none =~= none);
}

proof fn lemma_string_opened(p: ParserView, opener: u8)
    requires
        between_sequences(p),
        begins_a_string(opener),
    ensures
        is_in_string(p, seq![0x1Bu8, opener], State::StringSeq),
{
    reveal(is_in_string);
    lemma_two_bytes(p, opener);
    assert(seq![0x1Bu8].push(opener) =~= seq![0x1Bu8, opener]);
}

proof fn lemma_inside_a_string(p: ParserView, opener: u8, inner: Seq<u8>)
    requires
        between_sequences(p),
        begins_a_string(opener),
        runs_on(inner),
        inner.len() <= 1022,
    ensures
        is_in_string(p, seq![0x1Bu8, opener] + inner, State::StringSeq),
    decreases inner.len(),
{
    let open = seq![0x1Bu8, opener];
    if inner.len() == 0 {
        lemma_string_opened(p, opener);
        assert(open + inner =~= open);
    } else if inner.len() >= 2 && inner[inner.len() - 2] == 0x1B && runs_on(
        inner.take(inner.len() - 2),
    ) {
        let less = inner.take(inner.len() - 2);
        let middle = inner.drop_last();
        lemma_inside_a_string(p, opener, less);
        lemma_string_step(p, open + less, 0x1B);
        assert((open + less).push(0x1B) =~= open + middle);
        lemma_string_escape_step(p, open + middle, inner.last());
        assert((open + middle).push(inner.last()) =~= open + inner);
    } else {
        let less = inner.drop_last();
        lemma_inside_a_string(p, opener, less);
        lemma_string_step(p, open + less, inner.last());
        assert((open + less).push(inner.last()) =~= open + inner);
    }
}

/// A string sequence is held until a `BEL` or an `ESC \` ends it, and is a
/// report then, with all its bytes: never a key, whatever is in it.
pub proof fn law_a_string_byte_by_byte(p: ParserView, opener: u8, inner: Seq<u8>)
    requires
        between_sequences(p),
        begins_a_string(opener),
        runs_on(inner),
        inner.len() <= 1020,
    ensures
        ({
            let held = seq![0x1Bu8, opener] + inner;
            let bell = held.push(0x07);
            let st = held.push(0x1B).push(0x5C);
            &&& holds(input::fed(p, held).0, held)
            &&& input::fed(p, held).1 == Seq::<UnitView>::empty()
            &&& between_sequences(input::fed(p, bell).0)
            &&& input::fed(p, bell).1 == seq![UnitView::Report(bell)]
            &&& between_sequences(input::fed(p, st).0)
            &&& input::fed(p, st).1 == seq![UnitView::Report(st)]
        }),
{
    let held = seq![0x1Bu8, opener] + inner;
    let none = Seq::<UnitView>::empty();
    reveal(is_in_string);
    lemma_inside_a_string(p, opener, inner);
    lemma_fed_push(p, held, 0x07);
    lemma_fed_push(p, held, 0x1B);
    lemma_fed_push(p, held.push(0x1B), 0x5C);
    assert(none + none =~= none);
    let bell = seq![UnitView::Report(held.push(0x07))];
    let st = seq![UnitView::Report(held.push(0x1B).push(0x5C))];
    assert(none + bell =~= bell);
    assert(none + st =~= st);
}

/// What has grown to 1024 bytes without an end is no sequence: with the next
/// byte it is given back as one key, and that byte is read as the first of
/// something new. Below that nothing is given back.
pub proof fn law_what_does_not_end_is_given_back(p: ParserView, byte: u8)
    requires
        p.pending.len() >= 1024,
    ensures
        ({
            let (q, units) = input::fed(p, seq![byte]);
            let (r, more) = input::fed(input::at_ground(), seq![byte]);
            q == r && units == seq![UnitView::Key(p.pending)] + more
        }),
{
    lemma_fed_one(p, byte);
    lemma_fed_one(input::at_ground(), byte);
}

/// A flush gives what is held back as one key, and nothing where nothing is held.
pub proof fn law_a_flush_gives_one_key(p: ParserView)
    ensures
        p.pending.len() == 0 ==> input::flushed(p) == Seq::<UnitView>::empty(),
        p.pending.len() > 0 ==> input::flushed(p) == seq![UnitView::Key(p.pending)],
{
}

// ── the `Enter` key ──────────────────────────────────────────────────────────

/// `Enter` is return, newline, `ESC[13u`, `ESC[27;1;13~` or `ESC[27;5;13~`, and
/// nothing else is.
pub proof fn law_the_enter_key(key: Seq<u8>)
    ensures
        input::enters(key) <==> {
            ||| key == seq![0x0Du8]
            ||| key == seq![0x0Au8]
            ||| key == seq![0x1Bu8, 0x5B, 0x31, 0x33, 0x75]
            ||| key == seq![0x1Bu8, 0x5B, 0x32, 0x37, 0x3B, 0x31, 0x3B, 0x31, 0x33, 0x7E]
            ||| key == seq![0x1Bu8, 0x5B, 0x32, 0x37, 0x3B, 0x35, 0x3B, 0x31, 0x33, 0x7E]
        },
{
    assert(input::ENTER_KITTY@ =~= seq![0x1Bu8, 0x5B, 0x31, 0x33, 0x75]);
    assert(input::ENTER_MODIFIED@ =~= seq![
        0x1Bu8,
        0x5B,
        0x32,
        0x37,
        0x3B,
        0x31,
        0x3B,
        0x31,
        0x33,
        0x7E,
    ]);
    assert(input::ENTER_CTRL@ =~= seq![
        0x1Bu8,
        0x5B,
        0x32,
        0x37,
        0x3B,
        0x35,
        0x3B,
        0x31,
        0x33,
        0x7E,
    ]);
}

/// A key of one byte is `Enter` exactly when the byte is return or newline.
pub proof fn law_one_byte_enters(byte: u8)
    ensures
        input::enters(seq![byte]) <==> byte == 0x0D || byte == 0x0A,
{
    let key = seq![byte];
    law_the_enter_key(key);
    assert(key.len() == 1);
    assert(key[0] == byte);
    assert(seq![0x0Du8][0] == 0x0D);
    assert(seq![0x0Au8][0] == 0x0A);
    assert(seq![0x1Bu8, 0x5B, 0x31, 0x33, 0x75].len() == 5);
    assert(input::ENTER_MODIFIED@.len() == 10);
    assert(input::ENTER_CTRL@.len() == 10);
}

}
