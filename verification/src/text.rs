//! Building text: characters, ASCII bytes, decimal numbers and padding.

use crate::ascii;
use vstd::prelude::*;
use vstd::string::StringSliceAdditionalSpecFns;

verus! {

/// `String::push` of std: appends the character to the end.
pub assume_specification[ String::push ](s: &mut String, c: char)
    ensures
        final(s)@ == old(s)@.push(c),
;

/// The characters of ASCII bytes.
pub open spec fn chars_of(bytes: Seq<u8>) -> Seq<char> {
    Seq::new(bytes.len(), |i: int| bytes[i] as char)
}

/// Appends ASCII bytes.
pub fn push_bytes(out: &mut String, bytes: &[u8])
    ensures
        final(out)@ == old(out)@ + chars_of(bytes@),
{
    let mut i: usize = 0;
    while i < bytes.len()
        invariant
            i <= bytes.len(),
            out@ == old(out)@ + chars_of(bytes@.take(i as int)),
        decreases bytes.len() - i,
    {
        out.push(bytes[i] as char);
        assert(out@ =~= old(out)@ + chars_of(bytes@.take(i + 1)));
        i = i + 1;
    }
    assert(bytes@.take(i as int) =~= bytes@);
}

/// Decimal digits of `n` as ASCII, most significant first, at least `width` of them.
pub open spec fn digits(n: nat, width: nat) -> Seq<u8>
    decreases n, width,
{
    if n == 0 && width == 0 {
        Seq::empty()
    } else {
        digits(
            n / 10,
            if width == 0 {
                0
            } else {
                (width - 1) as nat
            },
        ).push((ascii::ZERO + n % 10) as u8)
    }
}

/// The error of `core::str::from_utf8`.
#[verifier::external_type_specification]
#[verifier::external_body]
pub struct ExUtf8Error(core::str::Utf8Error);

/// `core::str::from_utf8` of std: succeeds exactly on valid UTF-8, with the string of those
/// bytes.
pub assume_specification<'a>[ core::str::from_utf8 ](v: &'a [u8]) -> (r: Result<
    &'a str,
    core::str::Utf8Error,
>)
    ensures
        r is Ok <==> vstd::utf8::valid_utf8(v@),
        r matches Ok(s) ==> s.spec_bytes() == v@,
;

/// Whether every byte is ASCII.
pub open spec fn all_ascii(bytes: Seq<u8>) -> bool {
    forall|i: int| 0 <= i < bytes.len() ==> #[trigger] bytes[i] < 128
}

/// ASCII bytes are the UTF-8 of their characters.
pub proof fn lemma_ascii_bytes(bytes: Seq<u8>)
    requires
        all_ascii(bytes),
    ensures
        vstd::utf8::encode_utf8(chars_of(bytes)) == bytes,
        vstd::utf8::valid_utf8(bytes),
{
    let chars = chars_of(bytes);
    assert(vstd::utf8::is_ascii_chars(chars)) by {
        assert forall|i: int| 0 <= i < chars.len() implies 0 <= #[trigger] chars[i] as nat
            && (chars[i] as nat) < 128 by {
            assert(bytes[i] < 128);
        }
    }
    vstd::utf8::is_ascii_chars_encode_utf8(chars);
    vstd::utf8::encode_utf8_valid_utf8(chars);
    assert(vstd::utf8::encode_utf8(chars) =~= bytes);
}

/// Strings with the same bytes have the same characters.
pub proof fn lemma_same_bytes(a: Seq<char>, b: Seq<char>)
    requires
        vstd::utf8::encode_utf8(a) == vstd::utf8::encode_utf8(b),
    ensures
        a == b,
{
    vstd::utf8::encode_utf8_decode_utf8(a);
    vstd::utf8::encode_utf8_decode_utf8(b);
}

/// ASCII bytes as a string.
pub fn ascii_str(bytes: &[u8]) -> (r: &str)
    requires
        all_ascii(bytes@),
    ensures
        r@ == chars_of(bytes@),
        r.spec_bytes() == bytes@,
{
    proof {
        lemma_ascii_bytes(bytes@);
    }
    match core::str::from_utf8(bytes) {
        Ok(text) => {
            proof {
                lemma_same_bytes(text@, chars_of(bytes@));
            }
            text
        },
        Err(_) => "",
    }
}

/// Whether two byte slices hold the same bytes.
pub fn same_bytes(a: &[u8], b: &[u8]) -> (r: bool)
    ensures
        r == (a@ == b@),
{
    if a.len() != b.len() {
        return false;
    }
    let mut i: usize = 0;
    while i < a.len()
        invariant
            i <= a.len(),
            a.len() == b.len(),
            forall|k: int| 0 <= k < i ==> #[trigger] a@[k] == b@[k],
        decreases a.len() - i,
    {
        if a[i] != b[i] {
            return false;
        }
        i = i + 1;
    }
    assert(a@ =~= b@);
    true
}

/// Whether two strings are the same.
pub fn same_text(a: &str, b: &str) -> (r: bool)
    ensures
        r == (a@ == b@),
{
    let same: bool = same_bytes(a.as_bytes(), b.as_bytes());
    proof {
        if a.spec_bytes() == b.spec_bytes() {
            lemma_same_bytes(a@, b@);
        }
    }
    same
}

/// Appends `n` in decimal, padded with zeros to at least `width` digits.
pub fn push_number(out: &mut String, n: u64, width: usize)
    ensures
        final(out)@ == old(out)@ + chars_of(digits(n as nat, width as nat)),
{
    // Digits are produced least significant first.
    let mut rev: Vec<u8> = Vec::new();
    let mut rest: u64 = n;
    let mut left: usize = width;
    let ghost all = digits(n as nat, width as nat);
    assert(all =~= digits(rest as nat, left as nat) + rev@.reverse());
    while rest > 0 || left > 0
        invariant
            all == digits(rest as nat, left as nat) + rev@.reverse(),
        decreases rest, left,
    {
        let digit: u8 = ascii::ZERO + (rest % 10) as u8;
        let ghost before = rev@;
        rev.push(digit);
        let shorter: usize = if left == 0 {
            0
        } else {
            left - 1
        };
        proof {
            let head = digits((rest / 10) as nat, shorter as nat);
            assert(digits(rest as nat, left as nat) == head.push(digit));
            assert(rev@.reverse() =~= seq![digit] + before.reverse());
            assert(head.push(digit) + before.reverse() =~= head + rev@.reverse());
        }
        rest = rest / 10;
        left = shorter;
    }
    proof {
        assert(all =~= rev@.reverse());
    }
    let mut i: usize = rev.len();
    while i > 0
        invariant
            i <= rev@.len(),
            all == rev@.reverse(),
            out@ == old(out)@ + chars_of(all.take(rev@.len() - i)),
        decreases i,
    {
        let digit: u8 = rev[i - 1];
        out.push(digit as char);
        proof {
            let n = rev@.len() - i;
            assert(all[n] == digit);
            assert(out@ =~= old(out)@ + chars_of(all.take(n + 1)));
        }
        i = i - 1;
    }
    assert(all.take(rev@.len() as int) =~= all);
}

/// The number that decimal digits spell.
pub open spec fn decimal_value(digits: Seq<u8>) -> nat
    decreases digits.len(),
{
    if digits.len() == 0 {
        0
    } else {
        decimal_value(digits.drop_last()) * 10 + (digits.last() - ascii::ZERO) as nat
    }
}

/// The digits of a number's text: a leading plus sign is allowed.
pub open spec fn unsigned_part(text: Seq<u8>) -> Seq<u8> {
    if text.len() > 0 && text[0] == ascii::PLUS {
        text.skip(1)
    } else {
        text
    }
}

/// Whether a text is an unsigned decimal number: digits, optionally after a plus sign.
pub open spec fn is_number(text: Seq<u8>) -> bool {
    let digits = unsigned_part(text);
    digits.len() > 0 && forall|i: int|
        0 <= i < digits.len() ==> ascii::ZERO <= #[trigger] digits[i] <= ascii::NINE
}

/// The unsigned number of at most `max` that a text is, if it is one.
pub open spec fn number(text: Seq<u8>, max: nat) -> Option<nat> {
    if is_number(text) && decimal_value(unsigned_part(text)) <= max {
        Some(decimal_value(unsigned_part(text)))
    } else {
        None
    }
}

/// More digits never spell a smaller number.
proof fn lemma_decimal_grows(digits: Seq<u8>, n: int)
    requires
        0 <= n <= digits.len(),
        forall|i: int| 0 <= i < digits.len() ==> ascii::ZERO <= #[trigger] digits[i],
    ensures
        decimal_value(digits.take(n)) <= decimal_value(digits),
    decreases digits.len(),
{
    if n == digits.len() {
        assert(digits.take(n) =~= digits);
    } else {
        let head = digits.drop_last();
        assert(head.take(n) =~= digits.take(n));
        assert forall|i: int| 0 <= i < head.len() implies ascii::ZERO <= #[trigger] head[i] by {
            assert(head[i] == digits[i]);
        }
        lemma_decimal_grows(head, n);
        assert(digits[digits.len() - 1] >= ascii::ZERO);
    }
}

/// Padded digits are digits, and spell the number.
pub proof fn lemma_digits_spell(n: nat, width: nat)
    ensures
        decimal_value(digits(n, width)) == n,
        digits(n, width).len() >= width,
        forall|i: int|
            0 <= i < digits(n, width).len() ==> ascii::ZERO <= #[trigger] digits(n, width)[i]
                <= ascii::NINE,
    decreases n, width,
{
    if !(n == 0 && width == 0) {
        let shorter: nat = if width == 0 {
            0
        } else {
            (width - 1) as nat
        };
        lemma_digits_spell(n / 10, shorter);
        let head = digits(n / 10, shorter);
        let whole = digits(n, width);
        assert(whole == head.push((ascii::ZERO + n % 10) as u8));
        assert(whole.drop_last() =~= head);
    }
}

/// Reads an unsigned decimal number of at most `max`: digits, optionally after a plus sign.
pub fn parse_number(text: &[u8], max: u64) -> (r: Option<u64>)
    ensures
        match r {
            Some(value) => number(text@, max as nat) == Some(value as nat),
            None => number(text@, max as nat) is None,
        },
{
    let start: usize = if text.len() > 0 && text[0] == ascii::PLUS {
        1
    } else {
        0
    };
    let ghost digits = unsigned_part(text@);
    assert(digits =~= text@.skip(start as int));
    if start == text.len() {
        return None;
    }
    let mut value: u64 = 0;
    let mut i: usize = start;
    while i < text.len()
        invariant
            start <= i <= text.len(),
            start < text.len(),
            digits == unsigned_part(text@),
            digits == text@.skip(start as int),
            value <= max,
            value == decimal_value(digits.take(i - start)),
            forall|k: int| 0 <= k < i - start ==> ascii::ZERO <= #[trigger] digits[k] <= ascii::NINE,
        decreases text.len() - i,
    {
        let byte: u8 = text[i];
        assert(byte == digits[i - start]);
        if byte < ascii::ZERO || byte > ascii::NINE {
            return None;
        }
        proof {
            assert(digits.take(i - start + 1).drop_last() =~= digits.take(i - start));
        }
        let wide: u128 = value as u128 * 10 + (byte - ascii::ZERO) as u128;
        if wide > max as u128 {
            proof {
                if is_number(text@) {
                    lemma_decimal_grows(digits, i - start + 1);
                }
            }
            return None;
        }
        value = wide as u64;
        i = i + 1;
    }
    assert(digits.take(i - start) =~= digits);
    Some(value)
}

/// A number in decimal, with at least `width` digits.
pub open spec fn number_text(n: nat, width: nat) -> Seq<char> {
    chars_of(digits(n, width))
}

/// The characters of a string.
pub fn to_chars(text: &str) -> (r: Vec<char>)
    ensures
        r@ == text@,
{
    let mut out: Vec<char> = Vec::new();
    for c in chars: text.chars()
        invariant
            chars.seq() == text@,
            out@ == text@.take(chars.index()),
    {
        out.push(c);
        assert(out@ =~= text@.take(chars.index() + 1));
    }
    assert(out@ =~= text@);
    out
}

/// The pieces between the places where `at` stands.
pub open spec fn pieces<T>(bytes: Seq<T>, at: T) -> Seq<Seq<T>>
    decreases bytes.len(),
{
    if bytes.len() == 0 {
        seq![Seq::empty()]
    } else {
        let before = pieces(bytes.drop_last(), at);
        if bytes.last() == at {
            before.push(Seq::empty())
        } else {
            before.drop_last().push(before.last().push(bytes.last()))
        }
    }
}

/// Decimal text has zeros in front of a number only as far as they are needed to fill the width.
pub proof fn law_numbers_have_no_needless_zeros(n: nat, width: nat)
    ensures
        digits(n, width).len() >= width,
        digits(n, width).len() > width ==> digits(n, width)[0] != 0x30,
        n > 0 ==> digits(n, width).len() > 0,
    decreases n, width,
{
    lemma_digits_spell(n, width);
    if !(n == 0 && width == 0) {
        let shorter: nat = if width == 0 {
            0
        } else {
            (width - 1) as nat
        };
        law_numbers_have_no_needless_zeros(n / 10, shorter);
        let head = digits(n / 10, shorter);
        assert(digits(n, width) == head.push((ascii::ZERO + n % 10) as u8));
        if head.len() > 0 {
            assert(digits(n, width)[0] == head[0]);
        }
    }
}

/// Whether there are digits, and nothing else.
pub open spec fn only_digits(bytes: Seq<u8>) -> bool {
    bytes.len() > 0 && forall|i: int| 0 <= i < bytes.len() ==> 0x30 <= #[trigger] bytes[i] <= 0x39
}

/// An unsigned number is read from digits, after a plus sign or not, and nothing else, and is the
/// one that decimal text without that sign spells. One above the limit is not a number.
pub proof fn law_numbers_are_read_from_digits(bytes: Seq<u8>, max: nat)
    ensures
        ({
            let body = if bytes.len() > 0 && bytes[0] == 0x2b {
                bytes.skip(1)
            } else {
                bytes
            };
            let good = only_digits(body) && decimal_value(body) <= max;
            &&& good ==> number(bytes, max) == Some(decimal_value(body))
            &&& !good ==> number(bytes, max) is None
        }),
{
    let body = unsigned_part(bytes);
    assert(is_number(bytes) == only_digits(body)) by {
        if is_number(bytes) {
            assert forall|i: int| 0 <= i < body.len() implies 0x30 <= #[trigger] body[i] <= 0x39 by {
                assert(ascii::ZERO <= body[i] <= ascii::NINE);
            }
        }
    }
}

/// What is spelled grows by a factor of ten with each digit that is put behind it.
pub proof fn law_digits_count_by_tens(head: Seq<u8>, digit: u8)
    requires
        0x30 <= digit <= 0x39,
    ensures
        decimal_value(head.push(digit)) == 10 * decimal_value(head) + (digit - 0x30),
        decimal_value(Seq::empty()) == 0,
{
    assert(head.push(digit).drop_last() =~= head);
}

/// A number is never cut short or spread out: its text spells it.
pub proof fn law_text_spells_its_number(n: nat, width: nat)
    ensures
        decimal_value(digits(n, width)) == n,
        number_text(n, width).len() == digits(n, width).len(),
        forall|i: int|
            0 <= i < number_text(n, width).len() ==> '0' <= #[trigger] number_text(n, width)[i]
                <= '9' && number_text(n, width)[i] as u32 == digits(n, width)[i] as u32,
{
    lemma_digits_spell(n, width);
}

/// Padding puts spaces behind the text, aligning puts them in front of it, and neither adds more
/// than the width calls for or touches the text.
pub proof fn law_padding_fills_up_with_spaces(chars: Seq<char>, width: nat)
    ensures
        padded(chars, width).take(chars.len() as int) == chars,
        aligned(chars, width).skip(aligned(chars, width).len() - chars.len()) == chars,
        padded(chars, width).len() == if chars.len() < width {
            width
        } else {
            chars.len()
        },
        aligned(chars, width).len() == padded(chars, width).len(),
        forall|i: int|
            chars.len() <= i < padded(chars, width).len() ==> #[trigger] padded(chars, width)[i]
                == ' ',
        forall|i: int|
            0 <= i < aligned(chars, width).len() - chars.len() ==> #[trigger] aligned(
                chars,
                width,
            )[i] == ' ',
{
    assert(padded(chars, width).take(chars.len() as int) =~= chars);
    assert(aligned(chars, width).skip(aligned(chars, width).len() - chars.len()) =~= chars);
}

/// Ten to the power of `n`.
pub open spec fn tens(n: nat) -> int
    decreases n,
{
    if n == 0 {
        1
    } else {
        10 * tens((n - 1) as nat)
    }
}

/// The digits of a number are those of its front and its back.
pub(crate) proof fn lemma_digits_split(n: nat, width: nat, back: nat)
    requires
        width > 0,
    ensures
        tens(back) > 0,
        digits(n, width + back) == digits((n as int / tens(back)) as nat, width)
            + digits((n as int % tens(back)) as nat, back),
    decreases back,
{
    if back == 0 {
        assert(digits(0, 0) =~= Seq::<u8>::empty());
        assert(n as int / 1 == n && n as int % 1 == 0);
        assert(digits(n, width) + Seq::<u8>::empty() =~= digits(n, width));
    } else {
        let p = tens((back - 1) as nat);
        let less = n / 10;
        lemma_digits_split(less, width, (back - 1) as nat);
        let (q, r) = (n as int / (10 * p), n as int % (10 * p));
        vstd::arithmetic::div_mod::lemma_fundamental_div_mod(n as int, 10 * p);
        let x = p * q;
        assert(n == 10 * x + r) by (nonlinear_arith)
            requires
                n == (10 * p) * q + r,
                x == p * q,
        ;
        assert(less == x + r / 10);
        assert(q * p == x) by (nonlinear_arith)
            requires
                x == p * q,
        ;
        vstd::arithmetic::div_mod::lemma_fundamental_div_mod_converse(less as int, p, q, r / 10);
        assert(less as int / p == q && less as int % p == r / 10);
        assert(0 <= q) by (nonlinear_arith)
            requires
                n == (10 * p) * q + r,
                0 <= r < 10 * p,
                n >= 0,
        ;
        let front = digits(q as nat, width);
        assert(digits(r as nat, back) == digits((r / 10) as nat, (back - 1) as nat).push(
            (ascii::ZERO + r % 10) as u8,
        ));
        assert(digits(n, width + back) =~= front + digits(r as nat, back));
    }
}

/// A number below a power of ten has no more digits than the width that it is the power of.
pub(crate) proof fn lemma_digits_fit(n: nat, width: nat)
    requires
        n < tens(width),
    ensures
        digits(n, width).len() == width,
    decreases width,
{
    if width > 0 {
        lemma_digits_fit(n / 10, (width - 1) as nat);
    } else {
        assert(digits(0, 0) =~= Seq::<u8>::empty());
    }
}

/// There is always a piece.
pub proof fn lemma_pieces_len<T>(bytes: Seq<T>, at: T)
    ensures
        1 <= pieces(bytes, at).len() <= bytes.len() + 1,
    decreases bytes.len(),
{
    if bytes.len() > 0 {
        lemma_pieces_len(bytes.drop_last(), at);
    }
}

/// Text without a separator is one piece, and what follows a separator is split on its own.
pub proof fn lemma_pieces<T>(first: Seq<T>, at: T, rest: Seq<T>)
    requires
        !first.contains(at),
    ensures
        pieces(first, at) == seq![first],
        pieces(first.push(at) + rest, at) == seq![first] + pieces(rest, at),
    decreases rest.len(), first.len(),
{
    lemma_pieces_len(rest, at);
    if rest.len() == 0 {
        if first.len() == 0 {
            assert(first =~= Seq::<T>::empty());
            assert(pieces(first, at) =~= seq![first]);
        } else {
            let shorter = first.drop_last();
            assert forall|i: int| 0 <= i < shorter.len() implies shorter[i] != at by {
                assert(first[i] == shorter[i]);
            }
            lemma_pieces(shorter, at, Seq::empty());
            assert(first.last() != at);
            assert(shorter.push(first.last()) =~= first);
            assert(seq![shorter].drop_last().push(shorter.push(first.last())) =~= seq![first]);
        }
        assert(first.push(at) + rest =~= first.push(at));
        assert(first.push(at).drop_last() =~= first);
        assert(rest =~= Seq::<T>::empty());
        assert(pieces(first, at) =~= seq![first]);
        assert(pieces(first.push(at), at) == pieces(first, at).push(Seq::empty()));
        assert(pieces(first.push(at) + rest, at) =~= seq![first] + pieces(rest, at));
    } else {
        let whole = first.push(at) + rest;
        lemma_pieces(first, at, rest.drop_last());
        lemma_pieces_len(rest.drop_last(), at);
        assert(whole.drop_last() =~= first.push(at) + rest.drop_last());
        assert(pieces(whole, at) =~= seq![first] + pieces(rest, at));
    }
}

/// The pieces between the places where `at` stands.
pub fn split_on(bytes: &[u8], at: u8) -> (r: Vec<&[u8]>)
    ensures
        r@.len() == pieces(bytes@, at).len(),
        forall|i: int| 0 <= i < r@.len() ==> (#[trigger] r@[i])@ == pieces(bytes@, at)[i],
{
    let mut out: Vec<&[u8]> = Vec::new();
    let mut start: usize = 0;
    let mut i: usize = 0;
    assert(bytes@.take(0) =~= Seq::<u8>::empty());
    while i < bytes.len()
        invariant
            start <= i <= bytes.len(),
            pieces(bytes@.take(i as int), at).len() == out@.len() + 1,
            forall|k: int|
                0 <= k < out@.len() ==> (#[trigger] out@[k])@ == pieces(bytes@.take(i as int), at)[k],
            pieces(bytes@.take(i as int), at).last() == bytes@.subrange(start as int, i as int),
        decreases bytes.len() - i,
    {
        let ghost now = bytes@.take(i as int);
        let ghost next = bytes@.take(i + 1);
        assert(next.drop_last() =~= now);
        assert(next.last() == bytes@[i as int]);
        if bytes[i] == at {
            out.push(vstd::slice::slice_subrange(bytes, start, i));
            start = i + 1;
            assert(bytes@.subrange(start as int, i + 1) =~= Seq::<u8>::empty());
        } else {
            assert(bytes@.subrange(start as int, i + 1) =~= bytes@.subrange(
                start as int,
                i as int,
            ).push(bytes@[i as int]));
        }
        i = i + 1;
    }
    assert(bytes@.take(i as int) =~= bytes@);
    out.push(vstd::slice::slice_subrange(bytes, start, bytes.len()));
    out
}

/// That many spaces.
pub open spec fn spaces(n: int) -> Seq<char> {
    Seq::new(
        if n < 0 {
            0
        } else {
            n as nat
        },
        |i: int| ' ',
    )
}

/// Text padded on the right to at least `width` characters.
pub open spec fn padded(chars: Seq<char>, width: nat) -> Seq<char> {
    chars + spaces(width - chars.len())
}

/// Text padded on the left to at least `width` characters.
pub open spec fn aligned(chars: Seq<char>, width: nat) -> Seq<char> {
    spaces(width - chars.len()) + chars
}

/// Appends as many spaces as text of `len` characters lacks to `width`.
fn push_spaces(out: &mut String, len: usize, width: usize)
    ensures
        final(out)@ == old(out)@ + spaces(width - len),
{
    let mut i: usize = len;
    assert(out@ =~= old(out)@ + spaces(i - len));
    while i < width
        invariant
            len <= i,
            len < width ==> i <= width,
            len >= width ==> i == len,
            out@ == old(out)@ + spaces(i - len),
        decreases width - i,
    {
        out.push(' ');
        assert(out@ =~= old(out)@ + spaces(i + 1 - len));
        i = i + 1;
    }
    assert(spaces(i - len) =~= spaces(width - len));
}

/// Appends text padded on the right to at least `width` characters.
pub fn push_padded(out: &mut String, text: &str, width: usize)
    ensures
        final(out)@ == old(out)@ + padded(text@, width as nat),
{
    let len: usize = to_chars(text).len();
    out.append(text);
    push_spaces(out, len, width);
    assert(out@ =~= old(out)@ + padded(text@, width as nat));
}

/// Appends text padded on the left to at least `width` characters.
pub fn push_aligned(out: &mut String, text: &str, width: usize)
    ensures
        final(out)@ == old(out)@ + aligned(text@, width as nat),
{
    let len: usize = to_chars(text).len();
    push_spaces(out, len, width);
    out.append(text);
    assert(out@ =~= old(out)@ + aligned(text@, width as nat));
}

/// A number in decimal, with its sign if it is negative.
pub open spec fn signed_text(n: int) -> Seq<char> {
    if n < 0 {
        "-"@ + number_text((-n) as nat, 1)
    } else {
        number_text(n as nat, 1)
    }
}

/// A number in decimal, with its sign if it is negative.
pub fn signed(n: i64) -> (r: String)
    ensures
        r@ == signed_text(n as int),
{
    let mut out: String = String::new();
    if n < 0 {
        out.append("-");
        push_number(&mut out, -(n as i128) as u64, 1);
    } else {
        push_number(&mut out, n as u64, 1);
    }
    assert(out@ =~= signed_text(n as int));
    out
}

/// A number in decimal.
pub fn unsigned(n: u64) -> (r: String)
    ensures
        r@ == number_text(n as nat, 1),
{
    let mut out: String = String::new();
    push_number(&mut out, n, 1);
    assert(out@ =~= number_text(n as nat, 1));
    out
}

/// The pieces of text between the places where `at` stands.
pub fn split_text(text: &str, at: char) -> (r: Vec<String>)
    ensures
        r@.len() == pieces(text@, at).len(),
        forall|i: int| 0 <= i < r@.len() ==> (#[trigger] r@[i])@ == pieces(text@, at)[i],
{
    let chars: Vec<char> = to_chars(text);
    let mut out: Vec<String> = Vec::new();
    let mut current: String = String::new();
    let mut i: usize = 0;
    assert(text@.take(0) =~= Seq::<char>::empty());
    assert(current@ =~= Seq::<char>::empty());
    while i < chars.len()
        invariant
            i <= chars.len(),
            chars@ == text@,
            pieces(text@.take(i as int), at).len() == out@.len() + 1,
            forall|k: int|
                0 <= k < out@.len() ==> (#[trigger] out@[k])@ == pieces(text@.take(i as int), at)[k],
            pieces(text@.take(i as int), at).last() == current@,
        decreases chars.len() - i,
    {
        let ghost next = text@.take(i + 1);
        assert(next.drop_last() =~= text@.take(i as int));
        assert(next.last() == text@[i as int]);
        let c: char = chars[i];
        if c == at {
            out.push(current);
            current = String::new();
            assert(current@ =~= Seq::<char>::empty());
        } else {
            current.push(c);
        }
        i = i + 1;
    }
    assert(text@.take(i as int) =~= text@);
    out.push(current);
    out
}

/// Whether a text has a part somewhere in it.
pub open spec fn holds(chars: Seq<char>, part: Seq<char>) -> bool {
    exists|at: int|
        0 <= at <= at + part.len() <= chars.len() && #[trigger] chars.subrange(at, at + part.len())
            == part
}

/// Text that is put behind other text is a part of the whole.
pub broadcast proof fn lemma_holds_its_end(before: Seq<char>, label: Seq<char>, figure: Seq<char>)
    ensures
        #![trigger holds(before + label + figure, label + figure)]
        holds(before + label + figure, label + figure),
{
    let whole = before + label + figure;
    let at = before.len() as int;
    assert(whole.subrange(at, at + (label + figure).len()) =~= label + figure);
}

/// Text keeps its parts when more is put behind it.
pub broadcast proof fn lemma_holds_more(chars: Seq<char>, part: Seq<char>, more: Seq<char>)
    requires
        holds(chars, part),
    ensures
        #[trigger] holds(chars + more, part),
{
    let at = choose|at: int|
        0 <= at <= at + part.len() <= chars.len() && #[trigger] chars.subrange(at, at + part.len())
            == part;
    assert((chars + more).subrange(at, at + part.len()) =~= part);
}

/// Text is a part of itself.
pub broadcast proof fn lemma_holds_itself(chars: Seq<char>)
    ensures
        #[trigger] holds(chars, chars),
{
    let at: int = 0;
    assert(chars.subrange(at, at + chars.len()) =~= chars);
}

/// A signed number is written as its size, with a minus sign in front where it is negative.
pub proof fn law_signs_are_written_before_the_size(n: int)
    ensures
        n >= 0 ==> signed_text(n) == number_text(n as nat, 1),
        n < 0 ==> signed_text(n).len() == 1 + number_text((-n) as nat, 1).len(),
        n < 0 ==> signed_text(n)[0] == '-',
        n < 0 ==> signed_text(n).skip(1) == number_text((-n) as nat, 1),
{
    reveal_strlit("-");
    if n < 0 {
        assert(signed_text(n).skip(1) =~= number_text((-n) as nat, 1));
    }
}

} // verus!
