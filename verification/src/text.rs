//! Text: order, splitting and joining, decimal numbers, UTF-8.

use vstd::prelude::*;
use vstd::string::StringExecFns;
use vstd::utf8::{
    decode_utf8, encode_utf8, encode_utf8_decode_utf8, valid_utf8,
};

verus! {

/// The error that `std::str::from_utf8` gives for bytes that are not UTF-8.
pub uninterp spec fn utf8_error(bytes: Seq<u8>) -> core::str::Utf8Error;

/// `std::str::from_utf8`: succeeds on UTF-8 alone and then gives the text that
/// the bytes encode; the error depends on the bytes alone.
pub assume_specification<'a>[ core::str::from_utf8 ](v: &'a [u8]) -> (r: Result<
    &'a str,
    core::str::Utf8Error,
>)
    ensures
        r is Ok <==> valid_utf8(v@),
        r matches Ok(s) ==> s@ == decode_utf8(v@),
        r matches Err(e) ==> e == utf8_error(v@),
;

/// `String::push`: appends one character.
pub assume_specification[ String::push ](s: &mut String, c: char)
    ensures
        final(s)@ == old(s)@.push(c),
;

/// How one key stands to another.
#[derive(Debug, Clone, Copy, PartialEq, Eq, Structural)]
pub enum KeyOrder {
    Before,
    Same,
    After,
}

/// `a` comes before `b` in the lexicographic order of byte strings.
pub open spec fn bytes_before(a: Seq<u8>, b: Seq<u8>) -> bool
    decreases a.len(),
{
    if b.len() == 0 {
        false
    } else if a.len() == 0 {
        true
    } else if a[0] != b[0] {
        a[0] < b[0]
    } else {
        bytes_before(a.drop_first(), b.drop_first())
    }
}

pub proof fn lemma_bytes_before_irreflexive(a: Seq<u8>)
    ensures
        !bytes_before(a, a),
    decreases a.len(),
{
    if a.len() > 0 {
        lemma_bytes_before_irreflexive(a.drop_first());
    }
}

pub proof fn lemma_bytes_before_transitive(a: Seq<u8>, b: Seq<u8>, c: Seq<u8>)
    requires
        bytes_before(a, b),
        bytes_before(b, c),
    ensures
        bytes_before(a, c),
    decreases a.len(),
{
    if a.len() > 0 && a[0] == b[0] && b[0] == c[0] {
        lemma_bytes_before_transitive(a.drop_first(), b.drop_first(), c.drop_first());
    }
}

pub proof fn lemma_bytes_before_total(a: Seq<u8>, b: Seq<u8>)
    ensures
        a == b || bytes_before(a, b) || bytes_before(b, a),
    decreases a.len(),
{
    if a.len() > 0 && b.len() > 0 && a[0] == b[0] {
        lemma_bytes_before_total(a.drop_first(), b.drop_first());
        if a.drop_first() == b.drop_first() {
            assert(a =~= seq![a[0]] + a.drop_first());
            assert(b =~= seq![b[0]] + b.drop_first());
        }
    } else if a.len() == 0 && b.len() == 0 {
        assert(a =~= b);
    }
}

/// `a` comes before `b` in the order of strings, that of their UTF-8 bytes.
#[verifier::opaque]
pub open spec fn text_before(a: Seq<char>, b: Seq<char>) -> bool {
    bytes_before(encode_utf8(a), encode_utf8(b))
}

/// The order of strings is a strict total order.
pub proof fn lemma_text_order(a: Seq<char>, b: Seq<char>, c: Seq<char>)
    ensures
        !text_before(a, a),
        text_before(a, b) && text_before(b, c) ==> text_before(a, c),
        text_before(a, b) ==> !text_before(b, a),
        a == b || text_before(a, b) || text_before(b, a),
{
    reveal(text_before);
    lemma_bytes_before_irreflexive(encode_utf8(a));
    if text_before(a, b) && text_before(b, c) {
        lemma_bytes_before_transitive(encode_utf8(a), encode_utf8(b), encode_utf8(c));
    }
    if text_before(a, b) && text_before(b, a) {
        lemma_bytes_before_transitive(encode_utf8(a), encode_utf8(b), encode_utf8(a));
    }
    lemma_bytes_before_total(encode_utf8(a), encode_utf8(b));
    encode_utf8_decode_utf8(a);
    encode_utf8_decode_utf8(b);
}

/// Compares two byte strings.
pub fn compare_bytes(a: &[u8], b: &[u8]) -> (r: KeyOrder)
    ensures
        match r {
            KeyOrder::Before => bytes_before(a@, b@),
            KeyOrder::Same => a@ == b@,
            KeyOrder::After => bytes_before(b@, a@),
        },
{
    let mut i: usize = 0;
    proof {
        assert(a@.skip(0) =~= a@);
        assert(b@.skip(0) =~= b@);
    }
    while i < a.len() && i < b.len()
        invariant
            i <= a@.len(),
            i <= b@.len(),
            a@.take(i as int) == b@.take(i as int),
            bytes_before(a@, b@) == bytes_before(a@.skip(i as int), b@.skip(i as int)),
            bytes_before(b@, a@) == bytes_before(b@.skip(i as int), a@.skip(i as int)),
        decreases a@.len() - i,
    {
        if a[i] < b[i] {
            return KeyOrder::Before;
        }
        if b[i] < a[i] {
            return KeyOrder::After;
        }
        proof {
            assert(a@.skip(i as int).drop_first() =~= a@.skip(i + 1));
            assert(b@.skip(i as int).drop_first() =~= b@.skip(i + 1));
            assert(a@.take(i + 1) =~= a@.take(i as int).push(a@[i as int]));
            assert(b@.take(i + 1) =~= b@.take(i as int).push(b@[i as int]));
        }
        i = i + 1;
    }
    if i < b.len() {
        KeyOrder::Before
    } else if i < a.len() {
        KeyOrder::After
    } else {
        assert(a@.take(i as int) =~= a@);
        assert(b@.take(i as int) =~= b@);
        KeyOrder::Same
    }
}

/// Compares two strings.
pub fn compare_text(a: &str, b: &str) -> (r: KeyOrder)
    ensures
        match r {
            KeyOrder::Before => text_before(a@, b@),
            KeyOrder::Same => a@ == b@,
            KeyOrder::After => text_before(b@, a@),
        },
{
    let r = compare_bytes(a.as_bytes(), b.as_bytes());
    proof {
        reveal(text_before);
        encode_utf8_decode_utf8(a@);
        encode_utf8_decode_utf8(b@);
    }
    r
}

/// Whether two strings are equal.
pub fn same_text(a: &str, b: &str) -> (r: bool)
    ensures
        r == (a@ == b@),
{
    proof {
        lemma_text_order(a@, b@, a@);
        lemma_text_order(b@, a@, a@);
    }
    match compare_text(a, b) {
        KeyOrder::Same => true,
        _ => false,
    }
}

/// Whether two byte strings are equal.
pub fn same_bytes(a: &[u8], b: &[u8]) -> (r: bool)
    ensures
        r == (a@ == b@),
{
    proof {
        lemma_bytes_before_irreflexive(a@);
        lemma_bytes_before_irreflexive(b@);
    }
    match compare_bytes(a, b) {
        KeyOrder::Same => true,
        _ => false,
    }
}

/// A copy of a byte string.
pub fn copy_bytes(b: &[u8]) -> (r: Vec<u8>)
    ensures
        r@ == b@,
{
    let mut out: Vec<u8> = Vec::new();
    let mut i: usize = 0;
    while i < b.len()
        invariant
            i <= b@.len(),
            out@ == b@.take(i as int),
        decreases b@.len() - i,
    {
        out.push(b[i]);
        proof {
            assert(b@.take(i + 1) =~= b@.take(i as int).push(b@[i as int]));
        }
        i = i + 1;
    }
    assert(b@.take(i as int) =~= b@);
    out
}

/// The characters of a string.
pub fn chars_of(s: &str) -> (r: Vec<char>)
    ensures
        r@ == s@,
{
    let mut out: Vec<char> = Vec::new();
    for c in it: s.chars()
        invariant
            it.seq() == s@,
            out@ == s@.take(it.index() as int),
    {
        out.push(c);
    }
    out
}

/// Appends the characters of `chars[from..to]` to `out`.
pub fn push_chars(out: &mut String, chars: &Vec<char>, from: usize, to: usize)
    requires
        from <= to <= chars@.len(),
    ensures
        final(out)@ == old(out)@ + chars@.subrange(from as int, to as int),
{
    let ghost before = out@;
    let mut i: usize = from;
    proof {
        assert(before + chars@.subrange(from as int, from as int) =~= before);
    }
    while i < to
        invariant
            from <= i <= to <= chars@.len(),
            out@ == before + chars@.subrange(from as int, i as int),
        decreases to - i,
    {
        out.push(chars[i]);
        proof {
            assert(chars@.subrange(from as int, i + 1) =~= chars@.subrange(
                from as int,
                i as int,
            ).push(chars@[i as int]));
        }
        i = i + 1;
    }
}

/// The parts of `s` between the separators, in order; always at least one.
pub open spec fn split_on<A>(s: Seq<A>, sep: A) -> Seq<Seq<A>>
    decreases s.len(),
{
    if s.len() == 0 {
        seq![s]
    } else {
        let before = split_on(s.drop_last(), sep);
        if s.last() == sep {
            before.push(Seq::empty())
        } else {
            before.drop_last().push(before.last().push(s.last()))
        }
    }
}

/// The parts from number `from` on, put together again with the separator.
pub open spec fn join_from(parts: Seq<Seq<char>>, from: int, sep: char) -> Seq<char>
    decreases parts.len(),
{
    if parts.len() <= from || parts.len() == 0 {
        Seq::empty()
    } else if parts.len() == from + 1 {
        parts.last()
    } else {
        join_from(parts.drop_last(), from, sep).push(sep) + parts.last()
    }
}

/// A split never comes out empty.
pub proof fn lemma_split_nonempty<A>(s: Seq<A>, sep: A)
    ensures
        split_on(s, sep).len() >= 1,
    decreases s.len(),
{
    if s.len() > 0 {
        lemma_split_nonempty(s.drop_last(), sep);
    }
}

/// Putting the parts of a split together again gives the text that was split.
pub proof fn law_join_undoes_split(s: Seq<char>, sep: char)
    ensures
        join_from(split_on(s, sep), 0, sep) == s,
    decreases s.len(),
{
    lemma_split_nonempty(s, sep);
    if s.len() > 0 {
        let init = s.drop_last();
        let before = split_on(init, sep);
        lemma_split_nonempty(init, sep);
        law_join_undoes_split(init, sep);
        assert(s =~= init.push(s.last()));
        if s.last() == sep {
            assert(split_on(s, sep).drop_last() =~= before);
            assert(init.push(sep) + Seq::<char>::empty() =~= s);
        } else {
            let after = split_on(s, sep);
            assert(after.drop_last() =~= before.drop_last());
            if before.len() > 1 {
                let head = join_from(before.drop_last(), 0, sep).push(sep);
                assert(head + before.last().push(s.last()) =~= (head + before.last()).push(
                    s.last(),
                ));
            }
        }
    } else {
        assert(s =~= Seq::<char>::empty());
    }
}

/// A part without separators, put behind a separator, is one more part.
pub proof fn lemma_split_part<A>(head: Seq<A>, part: Seq<A>, sep: A)
    requires
        !part.contains(sep),
    ensures
        split_on(head.push(sep) + part, sep) == split_on(head, sep).push(part),
    decreases part.len(),
{
    let whole = head.push(sep) + part;
    if part.len() == 0 {
        assert(whole =~= head.push(sep));
        assert(whole.drop_last() =~= head);
        assert(part =~= Seq::<A>::empty());
    } else {
        let init = part.drop_last();
        assert(!init.contains(sep)) by {
            assert forall|i: int| 0 <= i < init.len() implies init[i] != sep by {
                assert(part[i] == init[i]);
                assert(part.contains(part[i]));
            }
        }
        lemma_split_part(head, init, sep);
        assert(whole.drop_last() =~= head.push(sep) + init);
        assert(part.contains(part[part.len() - 1]));
        let before = split_on(head, sep).push(init);
        assert(before.drop_last() =~= split_on(head, sep));
        assert(init.push(part.last()) =~= part);
    }
}

/// A text without separators is its only part.
pub proof fn lemma_split_whole<A>(text: Seq<A>, sep: A)
    requires
        !text.contains(sep),
    ensures
        split_on(text, sep) == seq![text],
    decreases text.len(),
{
    if text.len() > 0 {
        let init = text.drop_last();
        assert(!init.contains(sep)) by {
            assert forall|i: int| 0 <= i < init.len() implies init[i] != sep by {
                assert(text[i] == init[i]);
                assert(text.contains(text[i]));
            }
        }
        lemma_split_whole(init, sep);
        assert(text.contains(text[text.len() - 1]));
        assert(init.push(text.last()) =~= text);
        assert(split_on(text, sep) =~= seq![text]);
    }
}

/// The texts of a list of strings.
pub open spec fn texts(parts: Seq<String>) -> Seq<Seq<char>> {
    parts.map_values(|p: String| p@)
}

/// Splits a string at each separator.
pub fn split_text(s: &str, sep: char) -> (r: Vec<String>)
    ensures
        texts(r@) == split_on(s@, sep),
        r@.len() >= 1,
{
    let chars = chars_of(s);
    let mut parts: Vec<String> = Vec::new();
    let mut part: String = String::new();
    let mut i: usize = 0;
    proof {
        assert(chars@.take(0) =~= Seq::<char>::empty());
        assert(texts(parts@).push(part@) =~= split_on(chars@.take(0), sep));
    }
    while i < chars.len()
        invariant
            i <= chars@.len(),
            texts(parts@).push(part@) == split_on(chars@.take(i as int), sep),
        decreases chars@.len() - i,
    {
        let c = chars[i];
        let ghost done = texts(parts@);
        let ghost open = part@;
        proof {
            assert(chars@.take(i + 1).drop_last() =~= chars@.take(i as int));
            assert(done.push(open).drop_last() =~= done);
        }
        if c == sep {
            parts.push(part);
            part = String::new();
            assert(texts(parts@) =~= done.push(open));
        } else {
            part.push(c);
        }
        i = i + 1;
    }
    let ghost done = texts(parts@);
    let ghost open = part@;
    parts.push(part);
    proof {
        assert(texts(parts@) =~= done.push(open));
        assert(chars@.take(i as int) =~= s@);
    }
    parts
}

/// Joins the strings from number `from` on with a separator between them.
pub fn join_text(parts: &Vec<String>, from: usize, sep: char) -> (r: String)
    ensures
        r@ == join_from(texts(parts@), from as int, sep),
{
    let mut out: String = String::new();
    let mut i: usize = from;
    proof {
        assert(texts(parts@).len() == parts@.len());
        if from > parts@.len() {
            assert(join_from(texts(parts@), from as int, sep) =~= Seq::<char>::empty());
        }
    }
    while i < parts.len()
        invariant
            from <= i,
            texts(parts@).len() == parts@.len(),
            i <= parts@.len() || i == from,
            i <= parts@.len() ==> out@ == join_from(
                texts(parts@).take(i as int),
                from as int,
                sep,
            ),
            i > parts@.len() ==> out@ == Seq::<char>::empty(),
        decreases parts@.len() - i,
    {
        proof {
            let head = texts(parts@).take(i + 1);
            assert(head.drop_last() =~= texts(parts@).take(i as int));
            assert(head.last() == parts@[i as int]@);
            if i == from {
                assert(out@ =~= Seq::<char>::empty());
                assert(out@ + parts@[i as int]@ =~= parts@[i as int]@);
            }
        }
        if i > from {
            out.push(sep);
        }
        out.append(parts[i].as_str());
        i = i + 1;
    }
    proof {
        if i <= parts@.len() {
            assert(texts(parts@).take(i as int) =~= texts(parts@));
        }
    }
    out
}

/// A character with the property White_Space.
pub open spec fn is_space(c: char) -> bool {
    ||| '\u{9}' <= c && c <= '\u{d}'
    ||| c == ' '
    ||| c == '\u{85}'
    ||| c == '\u{a0}'
    ||| c == '\u{1680}'
    ||| '\u{2000}' <= c && c <= '\u{200a}'
    ||| c == '\u{2028}'
    ||| c == '\u{2029}'
    ||| c == '\u{202f}'
    ||| c == '\u{205f}'
    ||| c == '\u{3000}'
}

fn space(c: char) -> (r: bool)
    ensures
        r == is_space(c),
{
    ('\u{9}' <= c && c <= '\u{d}') || c == ' ' || c == '\u{85}' || c == '\u{a0}' || c
        == '\u{1680}' || ('\u{2000}' <= c && c <= '\u{200a}') || c == '\u{2028}' || c
        == '\u{2029}' || c == '\u{202f}' || c == '\u{205f}' || c == '\u{3000}'
}

/// A text without the white space at its ends.
pub open spec fn trimmed(s: Seq<char>) -> Seq<char>
    decreases s.len(),
{
    if s.len() > 0 && is_space(s.last()) {
        trimmed(s.drop_last())
    } else if s.len() > 0 && is_space(s[0]) {
        trimmed(s.drop_first())
    } else {
        s
    }
}

/// Leaves out the white space at the ends of a text.
pub fn trim_text(s: &str) -> (r: String)
    ensures
        r@ == trimmed(s@),
{
    let chars = chars_of(s);
    let mut end: usize = chars.len();
    assert(chars@.subrange(0, end as int) =~= s@);
    while end > 0 && space(chars[end - 1])
        invariant
            end <= chars@.len(),
            trimmed(s@) == trimmed(chars@.subrange(0, end as int)),
        decreases end,
    {
        assert(chars@.subrange(0, end as int).drop_last() =~= chars@.subrange(0, end - 1));
        end = end - 1;
    }
    let mut start: usize = 0;
    while start < end && space(chars[start])
        invariant
            start <= end <= chars@.len(),
            end > 0 ==> !is_space(chars@[end - 1]),
            trimmed(s@) == trimmed(chars@.subrange(start as int, end as int)),
        decreases end - start,
    {
        assert(chars@.subrange(start as int, end as int).drop_first() =~= chars@.subrange(
            start + 1,
            end as int,
        ));
        start = start + 1;
    }
    let mut out: String = String::new();
    push_chars(&mut out, &chars, start, end);
    assert(out@ =~= chars@.subrange(start as int, end as int));
    out
}

/// The character of a decimal digit.
pub open spec fn digit_char(d: int) -> char {
    (d + 0x30) as char
}

/// The decimal notation of a number.
pub open spec fn decimal(n: nat) -> Seq<char>
    decreases n,
{
    if n < 10 {
        seq![digit_char(n as int)]
    } else {
        decimal(n / 10).push(digit_char((n % 10) as int))
    }
}

/// The decimal notation of a number.
pub fn decimal_text(n: usize) -> (r: String)
    ensures
        r@ == decimal(n as nat),
    decreases n,
{
    let mut out: String = if n < 10 {
        String::new()
    } else {
        decimal_text(n / 10)
    };
    let digit: u8 = (n % 10) as u8 + 0x30;
    out.push(digit as char);
    assert(out@ =~= decimal(n as nat));
    out
}

/// One byte string comes before another exactly if it is a beginning of the other, or has
/// the lesser byte where the two first differ.
pub proof fn law_bytes_before(a: Seq<u8>, b: Seq<u8>)
    ensures
        bytes_before(a, b) <==> exists|i: int|
            0 <= i <= a.len() && i < b.len() && #[trigger] a.take(i) == b.take(i) && (i == a.len()
                || a[i] < b[i]),
    decreases a.len(),
{
    if b.len() > 0 && a.len() > 0 && a[0] == b[0] {
        let x = a.drop_first();
        let y = b.drop_first();
        law_bytes_before(x, y);
        if bytes_before(x, y) {
            let i = choose|i: int|
                0 <= i <= x.len() && i < y.len() && #[trigger] x.take(i) == y.take(i) && (i
                    == x.len() || x[i] < y[i]);
            assert(a.take(i + 1) =~= seq![a[0]] + x.take(i));
            assert(b.take(i + 1) =~= seq![b[0]] + y.take(i));
            assert(a.take(i + 1) == b.take(i + 1));
        }
        if exists|i: int|
            0 <= i <= a.len() && i < b.len() && #[trigger] a.take(i) == b.take(i) && (i == a.len()
                || a[i] < b[i]) {
            let i = choose|i: int|
                0 <= i <= a.len() && i < b.len() && #[trigger] a.take(i) == b.take(i) && (i
                    == a.len() || a[i] < b[i]);
            assert(i > 0);
            assert(x.take(i - 1) =~= a.take(i).drop_first());
            assert(y.take(i - 1) =~= b.take(i).drop_first());
            assert(x.take(i - 1) == y.take(i - 1));
        }
    } else {
        if bytes_before(a, b) {
            assert(a.take(0) =~= b.take(0));
        }
        if exists|i: int|
            0 <= i <= a.len() && i < b.len() && #[trigger] a.take(i) == b.take(i) && (i == a.len()
                || a[i] < b[i]) {
            let i = choose|i: int|
                0 <= i <= a.len() && i < b.len() && #[trigger] a.take(i) == b.take(i) && (i
                    == a.len() || a[i] < b[i]);
            if i > 0 {
                assert(a.take(i)[0] == a[0] && b.take(i)[0] == b[0]);
            }
        }
    }
}

/// Texts are ordered as their UTF-8 bytes are.
pub proof fn law_text_before(a: Seq<char>, b: Seq<char>)
    ensures
        ({
            let x = encode_utf8(a);
            let y = encode_utf8(b);
            text_before(a, b) <==> exists|i: int|
                0 <= i <= x.len() && i < y.len() && #[trigger] x.take(i) == y.take(i) && (i
                    == x.len() || x[i] < y[i])
        }),
{
    reveal(text_before);
    law_bytes_before(encode_utf8(a), encode_utf8(b));
}

/// A text is split at every separator: no part holds one, and put together with the
/// separator between them the parts are the text again.
pub proof fn law_split(s: Seq<char>, sep: char, i: int)
    ensures
        split_on(s, sep).len() >= 1,
        0 <= i < split_on(s, sep).len() ==> !split_on(s, sep)[i].contains(sep),
        join_from(split_on(s, sep), 0, sep) == s,
    decreases s.len(),
{
    law_join_undoes_split(s, sep);
    lemma_split_nonempty(s, sep);
    if s.len() > 0 {
        let init = s.drop_last();
        let before = split_on(init, sep);
        let after = split_on(s, sep);
        lemma_split_nonempty(init, sep);
        if 0 <= i < after.len() {
            if s.last() == sep {
                if i < before.len() {
                    law_split(init, sep, i);
                    assert(after[i] == before[i]);
                }
            } else {
                law_split(init, sep, i);
                if i == before.len() - 1 {
                    let part = before[i];
                    assert(after[i] == part.push(s.last()));
                    assert forall|k: int| 0 <= k < after[i].len() implies after[i][k] != sep by {
                        if k < part.len() {
                            assert(part.contains(part[k]));
                        }
                    }
                } else {
                    assert(after[i] == before[i]);
                }
            }
        }
    }
}

/// Parts put together: one part is itself, a further part follows behind the separator,
/// and parts that are left out at the beginning do not matter.
pub proof fn law_join(parts: Seq<Seq<char>>, part: Seq<char>, from: int, sep: char)
    requires
        0 <= from <= parts.len(),
    ensures
        join_from(parts, parts.len() as int, sep) == Seq::<char>::empty(),
        join_from(parts.push(part), parts.len() as int, sep) == part,
        from < parts.len() ==> join_from(parts.push(part), from, sep) == join_from(
            parts,
            from,
            sep,
        ) + seq![sep] + part,
        join_from(parts, from, sep) == join_from(parts.skip(from), 0, sep),
{
    assert(parts.push(part).drop_last() =~= parts);
    if from < parts.len() {
        assert(join_from(parts.push(part), from, sep) =~= join_from(parts, from, sep) + seq![sep]
            + part);
    }
    lemma_join_skip(parts, from, sep);
}

proof fn lemma_join_skip(parts: Seq<Seq<char>>, from: int, sep: char)
    requires
        0 <= from <= parts.len(),
    ensures
        join_from(parts, from, sep) == join_from(parts.skip(from), 0, sep),
    decreases parts.len(),
{
    if parts.len() > from + 1 {
        lemma_join_skip(parts.drop_last(), from, sep);
        assert(parts.skip(from).drop_last() =~= parts.drop_last().skip(from));
    }
}

/// White space at the ends of a text is left out, and nothing else: what stands between it
/// comes out whole, whatever white space is inside.
pub proof fn law_trimmed(before: Seq<char>, text: Seq<char>, behind: Seq<char>)
    requires
        forall|i: int| 0 <= i < before.len() ==> is_space(#[trigger] before[i]),
        forall|i: int| 0 <= i < behind.len() ==> is_space(#[trigger] behind[i]),
        text.len() > 0 ==> !is_space(text[0]) && !is_space(text.last()),
    ensures
        trimmed(before + text + behind) == text,
    decreases before.len() + behind.len(),
{
    let whole = before + text + behind;
    if behind.len() > 0 {
        let init = behind.drop_last();
        assert forall|i: int| 0 <= i < init.len() implies is_space(#[trigger] init[i]) by {
            assert(init[i] == behind[i]);
        }
        law_trimmed(before, text, init);
        assert(whole.drop_last() =~= before + text + init);
        assert(is_space(behind[behind.len() - 1]));
        assert(whole.last() == behind.last());
    } else if before.len() > 0 && text.len() > 0 {
        let rest = before.drop_first();
        assert forall|i: int| 0 <= i < rest.len() implies is_space(#[trigger] rest[i]) by {
            assert(rest[i] == before[i + 1]);
        }
        law_trimmed(rest, text, behind);
        assert(whole.drop_first() =~= rest + text + behind);
        assert(is_space(before[0]));
        assert(whole[0] == before[0]);
        assert(whole.last() == text.last());
    } else if before.len() > 0 {
        let init = before.drop_last();
        assert forall|i: int| 0 <= i < init.len() implies is_space(#[trigger] init[i]) by {
            assert(init[i] == before[i]);
        }
        law_trimmed(init, text, behind);
        assert(whole =~= before);
        assert(whole.drop_last() =~= init + text + behind);
        assert(is_space(before[before.len() - 1]));
    } else {
        assert(whole =~= text);
    }
}

/// A number in decimal is its digits, the last of which stands for the remainder by ten,
/// and starts with a zero only if it is zero.
pub proof fn law_decimal_digits(n: nat)
    ensures
        decimal(n).len() > 0,
        decimal(n).last() as int == 48 + n % 10,
        n >= 10 ==> decimal(n).drop_last() == decimal(n / 10),
        n < 10 ==> decimal(n).len() == 1,
        n > 0 ==> decimal(n)[0] as int != 48,
    decreases n,
{
    if n >= 10 {
        law_decimal_digits(n / 10);
        assert(decimal(n).drop_last() =~= decimal(n / 10));
        assert(decimal(n)[0] == decimal(n / 10)[0]);
    }
}

/// Texts one behind the other are encoded one behind the other.
pub(crate) proof fn lemma_encode_concat(a: Seq<char>, b: Seq<char>)
    ensures
        encode_utf8(a + b) == encode_utf8(a) + encode_utf8(b),
    decreases a.len(),
{
    if a.len() == 0 {
        assert(a + b =~= b);
        assert(encode_utf8(a) + encode_utf8(b) =~= encode_utf8(b));
    } else {
        lemma_encode_concat(a.drop_first(), b);
        assert((a + b).drop_first() =~= a.drop_first() + b);
        assert(encode_utf8(a + b) =~= encode_utf8(a) + encode_utf8(b));
    }
}

/// What is left out at the ends of a text: the characters of these numbers.
pub proof fn law_space(c: char)
    ensures
        is_space(c) <==> {
            let n = c as int;
            ||| n == 9 || n == 10 || n == 11 || n == 12 || n == 13
            ||| n == 32 || n == 133 || n == 160 || n == 5760
            ||| 8192 <= n <= 8202
            ||| n == 8232 || n == 8233 || n == 8239 || n == 8287 || n == 12288
        },
{
}

} // verus!
