//! Text helpers: splitting, searching, counting out decimals.

use vstd::prelude::*;

verus! {

/// The pieces of `s` between the occurrences of `sep`. Always at least one
/// piece: the empty sequence splits into one empty piece.
pub open spec fn split_on<T>(s: Seq<T>, sep: T) -> Seq<Seq<T>>
    decreases s.len(),
{
    if s.len() == 0 {
        seq![Seq::empty()]
    } else {
        let before = split_on(s.drop_last(), sep);
        if s.last() == sep {
            before.push(Seq::empty())
        } else {
            before.update(before.len() - 1, before.last().push(s.last()))
        }
    }
}

/// `parts` put back together with one `sep` between neighbours.
pub open spec fn joined<T>(parts: Seq<Seq<T>>, sep: T) -> Seq<T>
    decreases parts.len(),
{
    if parts.len() == 0 {
        Seq::empty()
    } else if parts.len() == 1 {
        parts[0]
    } else {
        joined(parts.drop_last(), sep).push(sep) + parts.last()
    }
}

/// The last `n` lines of `s`, rejoined; all of them when there are fewer.
pub open spec fn last_lines(s: Seq<char>, n: nat) -> Seq<char> {
    let lines = split_on(s, '\n');
    joined(lines.skip(if lines.len() > n { lines.len() - n } else { 0 }), '\n')
}

/// The word `w` stands in `s` at position `i`.
pub open spec fn occurs_at(s: Seq<char>, w: Seq<char>, i: int) -> bool {
    &&& 0 <= i
    &&& i + w.len() <= s.len()
    &&& s.subrange(i, i + w.len()) == w
}

/// The word `w` stands somewhere in `s`.
pub open spec fn occurs_in(s: Seq<char>, w: Seq<char>) -> bool {
    exists|i: int| occurs_at(s, w, i)
}

/// `n` in decimal, most significant digit first, as ASCII.
pub open spec fn decimal(n: nat) -> Seq<u8>
    decreases n,
{
    if n < 10 {
        seq![(48 + n) as u8]
    } else {
        decimal(n / 10).push((48 + n % 10) as u8)
    }
}

/// ASCII bytes read as characters.
pub open spec fn as_chars(bytes: Seq<u8>) -> Seq<char> {
    bytes.map_values(|b: u8| b as char)
}

/// `n` in decimal, as characters.
pub open spec fn decimal_text(n: nat) -> Seq<char> {
    as_chars(decimal(n))
}

pub proof fn lemma_split_nonempty<T>(s: Seq<T>, sep: T)
    ensures
        split_on(s, sep).len() >= 1,
    decreases s.len(),
{
    if s.len() > 0 {
        lemma_split_nonempty(s.drop_last(), sep);
    }
}

/// Appending one character either opens a new, empty last line or extends the
/// last one.
pub proof fn lemma_last_lines_step(s: Seq<char>, n: nat)
    requires
        s.len() > 0,
        n >= 1,
    ensures
        s.last() == '\n' && n == 1 ==> last_lines(s, n) == Seq::<char>::empty(),
        s.last() == '\n' && n > 1 ==> last_lines(s, n) == last_lines(
            s.drop_last(),
            (n - 1) as nat,
        ).push('\n'),
        s.last() != '\n' ==> last_lines(s, n) == last_lines(s.drop_last(), n).push(s.last()),
{
    let before = split_on(s.drop_last(), '\n');
    let lines = split_on(s, '\n');
    lemma_split_nonempty(s.drop_last(), '\n');
    let kept = lines.skip(if lines.len() > n { lines.len() - n } else { 0 });
    if s.last() == '\n' {
        if n == 1 {
            assert(kept =~= seq![Seq::<char>::empty()]);
        } else {
            let m = (n - 1) as nat;
            let kept_before = before.skip(if before.len() > m { before.len() - m } else { 0 });
            assert(kept.drop_last() =~= kept_before);
            assert(kept.len() >= 2);
            assert(kept.last() == Seq::<char>::empty());
            assert(last_lines(s, n) =~= joined(kept_before, '\n').push('\n'));
        }
    } else {
        let kept_before = before.skip(if before.len() > n { before.len() - n } else { 0 });
        assert(kept =~= kept_before.update(
            kept_before.len() - 1,
            kept_before.last().push(s.last()),
        ));
        if kept.len() > 1 {
            assert(kept.drop_last() =~= kept_before.drop_last());
        }
        assert(joined(kept, '\n') =~= joined(kept_before, '\n').push(s.last()));
    }
}

/// The characters of `text`, one by one.
pub fn chars_of(text: &str) -> (chars: Vec<char>)
    ensures
        chars@ == text@,
{
    let mut chars: Vec<char> = Vec::new();
    for c in it: text.chars()
        invariant
            it.seq() == text@,
            chars@ == text@.take(it.index() as int),
    {
        chars.push(c);
    }
    chars
}

/// The last `n` lines, rejoined. Fewer than `n` lines yields all of them.
pub fn tail_lines(text: &str, n: usize) -> (tail: String)
    ensures
        tail@ == last_lines(text@, n as nat),
{
    let chars: Vec<char> = chars_of(text);
    let mut start: usize = chars.len();
    proof {
        lemma_split_nonempty(text@, '\n');
    }
    if n > 0 {
        let mut left: usize = n;
        assert(text@.take(start as int) =~= text@);
        while start > 0 && !(chars[start - 1] == '\n' && left == 1)
            invariant
                n > 0,
                chars@ == text@,
                start <= chars.len(),
                1 <= left <= n,
                last_lines(text@, n as nat) == last_lines(
                    text@.take(start as int),
                    left as nat,
                ) + text@.skip(start as int),
            decreases start,
        {
            proof {
                let s = text@.take(start as int);
                lemma_last_lines_step(s, left as nat);
                assert(s.drop_last() =~= text@.take(start - 1));
                assert(seq![s.last()] + text@.skip(start as int) =~= text@.skip(start - 1));
                if s.last() == '\n' {
                    let head = last_lines(s.drop_last(), (left - 1) as nat);
                    assert(head.push('\n') + text@.skip(start as int) =~= head + text@.skip(
                        start - 1,
                    ));
                } else {
                    let head = last_lines(s.drop_last(), left as nat);
                    assert(head.push(s.last()) + text@.skip(start as int) =~= head + text@.skip(
                        start - 1,
                    ));
                }
            }
            if chars[start - 1] == '\n' {
                left = left - 1;
            }
            start = start - 1;
        }
        proof {
            if start > 0 {
                lemma_last_lines_step(text@.take(start as int), 1);
            } else {
                assert(text@.take(0) =~= Seq::<char>::empty());
                assert(split_on(text@.take(0), '\n').skip(0) =~= seq![Seq::<char>::empty()]);
            }
            assert(last_lines(text@, n as nat) =~= text@.skip(start as int));
        }
    } else {
        proof {
            let lines = split_on(text@, '\n');
            assert(lines.skip(lines.len() as int) =~= Seq::<Seq<char>>::empty());
            assert(text@.skip(start as int) =~= last_lines(text@, 0));
        }
    }
    assert(text@.skip(start as int) =~= text@.subrange(start as int, chars@.len() as int));
    text.substring_char(start, chars.len()).to_owned()
}

/// Does `word` stand somewhere in `chars`?
pub fn contains(chars: &Vec<char>, word: &str) -> (found: bool)
    ensures
        found == occurs_in(chars@, word@),
{
    let word_chars: Vec<char> = chars_of(word);
    let n: usize = word_chars.len();
    if n > chars.len() {
        return false;
    }
    let mut i: usize = 0;
    while i <= chars.len() - n
        invariant
            n == word_chars.len(),
            n <= chars.len(),
            i <= chars.len() - n + 1,
            word_chars@ == word@,
            forall|j: int| 0 <= j < i ==> !occurs_at(chars@, word@, j),
        decreases chars.len() - n + 1 - i,
    {
        let mut k: usize = 0;
        while k < n && chars[i + k] == word_chars[k]
            invariant
                k <= n,
                n == word_chars.len(),
                i + n <= chars.len(),
                word_chars@ == word@,
                forall|j: int| 0 <= j < k ==> chars@[i + j] == word@[j],
            decreases n - k,
        {
            k = k + 1;
        }
        if k == n {
            assert(chars@.subrange(i as int, i + n) =~= word@);
            assert(occurs_at(chars@, word@, i as int));
            return true;
        }
        proof {
            if occurs_at(chars@, word@, i as int) {
                assert(chars@.subrange(i as int, i + n)[k as int] == word@[k as int]);
            }
        }
        i = i + 1;
    }
    false
}

/// Appends `n` in decimal to `bytes`.
pub fn push_decimal(bytes: &mut Vec<u8>, n: u16)
    ensures
        final(bytes)@ == old(bytes)@ + decimal(n as nat),
    decreases n,
{
    if n >= 10 {
        push_decimal(bytes, n / 10);
    }
    bytes.push(48 + (n % 10) as u8);
    assert(bytes@ =~= old(bytes)@ + decimal(n as nat));
}

/// One decimal digit as text.
fn digit(d: u8) -> (text: &'static str)
    requires
        d < 10,
    ensures
        text@ == seq![(48 + d) as u8 as char],
{
    proof {
        reveal_strlit("0");
        reveal_strlit("1");
        reveal_strlit("2");
        reveal_strlit("3");
        reveal_strlit("4");
        reveal_strlit("5");
        reveal_strlit("6");
        reveal_strlit("7");
        reveal_strlit("8");
        reveal_strlit("9");
    }
    match d {
        0 => "0",
        1 => "1",
        2 => "2",
        3 => "3",
        4 => "4",
        5 => "5",
        6 => "6",
        7 => "7",
        8 => "8",
        _ => "9",
    }
}

/// Appends `n` in decimal to `text`.
pub fn append_decimal(text: &mut String, n: u128)
    ensures
        final(text)@ == old(text)@ + decimal_text(n as nat),
    decreases n,
{
    if n >= 10 {
        append_decimal(text, n / 10);
    }
    text.append(digit((n % 10) as u8));
    assert(text@ =~= old(text)@ + decimal_text(n as nat));
}

/// Are the two the same bytes?
pub fn same_bytes(a: &[u8], b: &[u8]) -> (equal: bool)
    ensures
        equal == (a@ == b@),
{
    if a.len() != b.len() {
        return false;
    }
    let mut i: usize = 0;
    while i < a.len()
        invariant
            a.len() == b.len(),
            i <= a.len(),
            forall|j: int| 0 <= j < i ==> a@[j] == b@[j],
        decreases a.len() - i,
    {
        if a[i] != b[i] {
            return false;
        }
        i = i + 1;
    }
    assert(a@ =~= b@);
    true
}

/// The pieces as plain values.
pub open spec fn piece_views(pieces: Seq<Vec<u8>>) -> Seq<Seq<u8>> {
    pieces.map_values(|piece: Vec<u8>| piece@)
}

/// The pieces of `bytes` between the occurrences of `sep`.
pub fn split_bytes(bytes: &Vec<u8>, sep: u8) -> (pieces: Vec<Vec<u8>>)
    ensures
        piece_views(pieces@) == split_on(bytes@, sep),
{
    let mut pieces: Vec<Vec<u8>> = Vec::new();
    let mut piece: Vec<u8> = Vec::new();
    let mut i: usize = 0;
    proof {
        assert(bytes@.take(0) =~= Seq::<u8>::empty());
        assert(piece_views(pieces@).push(piece@) =~= split_on(bytes@.take(0), sep));
    }
    while i < bytes.len()
        invariant
            i <= bytes.len(),
            piece_views(pieces@).push(piece@) == split_on(bytes@.take(i as int), sep),
        decreases bytes.len() - i,
    {
        let ghost done = piece_views(pieces@);
        let ghost current = piece@;
        let ghost more = bytes@.take(i + 1);
        assert(more.drop_last() =~= bytes@.take(i as int));
        assert(done.push(current).last() == current);
        if bytes[i] == sep {
            pieces.push(piece);
            piece = Vec::new();
            assert(piece_views(pieces@) =~= done.push(current));
            assert(piece@ =~= Seq::<u8>::empty());
        } else {
            piece.push(bytes[i]);
            assert(done.push(current).update(done.len() as int, piece@) =~= done.push(piece@));
        }
        i = i + 1;
    }
    assert(bytes@.take(i as int) =~= bytes@);
    let ghost done = piece_views(pieces@);
    let ghost current = piece@;
    pieces.push(piece);
    assert(piece_views(pieces@) =~= done.push(current));
    pieces
}

// ── raw bytes as text ────────────────────────────────────────────────────────

/// What `String::from_utf8_lossy` makes of bytes that are not UTF-8.
pub uninterp spec fn utf8_lossy(bytes: Seq<u8>) -> Seq<char>;

/// From where on the bytes are UTF-8 to their end: the first such position at or
/// after `from`.
pub open spec fn clean_from(bytes: Seq<u8>, from: int) -> int
    decreases bytes.len() - from,
{
    if 0 <= from < bytes.len() && !vstd::utf8::valid_utf8(bytes.skip(from)) {
        clean_from(bytes, from + 1)
    } else {
        from
    }
}

/// Raw bytes read as text: decoded from where on they are UTF-8, repaired before
/// that.
pub open spec fn text_of(bytes: Seq<u8>) -> Seq<char> {
    let clean = clean_from(bytes, 0);
    if clean == 0 {
        vstd::utf8::decode_utf8(bytes)
    } else {
        utf8_lossy(bytes.take(clean)) + vstd::utf8::decode_utf8(bytes.skip(clean))
    }
}

/// `String::from_utf8_lossy`.
///
/// Trusted: bytes that are UTF-8 are decoded as they stand. So is what is UTF-8
/// at the end of other bytes: it begins with a byte that no sequence begun
/// before it can take in, so what stands before it is repaired as if it stood
/// alone. Of those bytes only that their text is a function of them: each
/// invalid sequence is replaced by U+FFFD, and which bytes make up one such
/// sequence is left unsaid.
#[verifier::external_body]
pub(crate) fn lossy_text(bytes: &Vec<u8>) -> (text: String)
    ensures
        text@ == utf8_lossy(bytes@),
        vstd::utf8::valid_utf8(bytes@) ==> text@ == vstd::utf8::decode_utf8(bytes@),
        forall|k: int|
            0 <= k <= bytes@.len() && vstd::utf8::valid_utf8(#[trigger] bytes@.skip(k)) ==> text@
                == utf8_lossy(bytes@.take(k)) + vstd::utf8::decode_utf8(bytes@.skip(k)),
{
    String::from_utf8_lossy(bytes).into_owned()
}

proof fn lemma_clean_from(bytes: Seq<u8>, from: int)
    requires
        0 <= from <= bytes.len(),
    ensures
        from <= clean_from(bytes, from) <= bytes.len(),
        vstd::utf8::valid_utf8(bytes.skip(clean_from(bytes, from))),
    decreases bytes.len() - from,
{
    if from < bytes.len() && !vstd::utf8::valid_utf8(bytes.skip(from)) {
        lemma_clean_from(bytes, from + 1);
    }
}

/// Raw bytes as text.
pub fn read_text(bytes: &Vec<u8>) -> (text: String)
    ensures
        text@ == text_of(bytes@),
{
    proof {
        lemma_clean_from(bytes@, 0);
        assert(bytes@.skip(0) =~= bytes@);
    }
    lossy_text(bytes)
}

proof fn lemma_decode_concat(a: Seq<u8>, b: Seq<u8>)
    requires
        vstd::utf8::valid_utf8(a),
        vstd::utf8::valid_utf8(b),
    ensures
        vstd::utf8::valid_utf8(a + b),
        vstd::utf8::decode_utf8(a + b) == vstd::utf8::decode_utf8(a) + vstd::utf8::decode_utf8(b),
    decreases a.len(),
{
    vstd::utf8::valid_utf8_concat(a, b);
    if a.len() == 0 {
        assert(a + b =~= b);
        assert(vstd::utf8::decode_utf8(a) + vstd::utf8::decode_utf8(b)
            =~= vstd::utf8::decode_utf8(b));
    } else {
        let rest = vstd::utf8::pop_first_scalar(a);
        assert(vstd::utf8::pop_first_scalar(a + b) =~= rest + b);
        lemma_decode_concat(rest, b);
        assert(vstd::utf8::decode_utf8(a + b) =~= vstd::utf8::decode_utf8(a)
            + vstd::utf8::decode_utf8(b));
    }
}

proof fn lemma_valid_before(a: Seq<u8>, b: Seq<u8>)
    requires
        vstd::utf8::valid_utf8(a + b),
        vstd::utf8::valid_utf8(b),
    ensures
        vstd::utf8::valid_utf8(a),
{
    let whole = a + b;
    let at = a.len() as int;
    if b.len() == 0 {
        assert(whole =~= a);
    } else {
        assert(whole[at] == b[0]);
        assert(!vstd::utf8::is_continuation_byte(b[0]));
        vstd::utf8::is_char_boundary_iff_not_is_continuation_byte(whole, at);
        vstd::utf8::valid_utf8_split(whole, at);
        assert(whole.subrange(0, at) =~= a);
    }
}

proof fn lemma_clean_from_before(a: Seq<u8>, b: Seq<u8>, from: int)
    requires
        0 <= from <= a.len(),
        vstd::utf8::valid_utf8(b),
    ensures
        clean_from(a + b, from) == clean_from(a, from),
    decreases a.len() - from,
{
    assert((a + b).skip(from) =~= a.skip(from) + b);
    if vstd::utf8::valid_utf8(a.skip(from)) {
        lemma_decode_concat(a.skip(from), b);
    } else {
        if vstd::utf8::valid_utf8((a + b).skip(from)) {
            lemma_valid_before(a.skip(from), b);
        }
        if from < a.len() {
            lemma_clean_from_before(a, b, from + 1);
        }
    }
}

/// What is UTF-8 reads the same after any bytes, whatever they are.
pub proof fn law_clean_bytes_read_the_same(before: Seq<u8>, clean: Seq<u8>)
    requires
        vstd::utf8::valid_utf8(clean),
    ensures
        text_of(before + clean) == text_of(before) + text_of(clean),
{
    let k = clean_from(before, 0);
    lemma_clean_from(before, 0);
    lemma_clean_from_before(before, clean, 0);
    assert(clean.skip(0) =~= clean);
    assert(before.skip(0) =~= before);
    lemma_decode_concat(before.skip(k), clean);
    assert((before + clean).skip(k) =~= before.skip(k) + clean);
    assert((before + clean).take(k) =~= before.take(k));
    assert(text_of(before + clean) =~= text_of(before) + text_of(clean));
}

/// UTF-8 is read as what it says.
pub proof fn law_utf8_is_read_as_what_it_says(bytes: Seq<u8>)
    requires
        vstd::utf8::valid_utf8(bytes),
    ensures
        text_of(bytes) == vstd::utf8::decode_utf8(bytes),
{
    assert(bytes.skip(0) =~= bytes);
}

/// Bytes that end in a newline read as text that does.
pub proof fn law_a_line_end_is_read_as_one(bytes: Seq<u8>)
    requires
        bytes.len() > 0,
        bytes.last() == 0x0A,
    ensures
        text_of(bytes).len() > 0,
        text_of(bytes).last() == '\n',
{
    let end = seq![0x0Au8];
    assert(bytes =~= bytes.drop_last() + end);
    assert(0x0Au8 & 0x7F == 0x0A) by (bit_vector);
    reveal_with_fuel(vstd::utf8::valid_utf8, 2);
    reveal_with_fuel(vstd::utf8::decode_utf8, 2);
    assert(vstd::utf8::pop_first_scalar(end) =~= Seq::<u8>::empty());
    assert(vstd::utf8::valid_utf8(end));
    assert(end.skip(0) =~= end);
    assert(text_of(end) =~= seq!['\n']);
    law_clean_bytes_read_the_same(bytes.drop_last(), end);
}

}
