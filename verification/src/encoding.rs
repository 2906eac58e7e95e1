//! How integers and text are written down as bytes, and that reading gives back what was written.
use vstd::prelude::*;
use vstd::utf8::{
    char_is_scalar, char_u32_cast, decode_utf8, decode_utf8_encode_utf8, encode_utf8,
    encode_utf8_decode_utf8, encode_utf8_valid_utf8, valid_utf8,
};
use crate::bytes::{as_signed, le_u16, le_u32, le_u64};
use crate::mem::Error;
use crate::text::{
    decimal, text_at, text_model, text_size, units_at, utf16_chars, utf16_text, utf8_text,
};

verus! {

/// A value in `count` bytes, the lowest first.
pub open spec fn le_bytes(value: int, count: nat) -> Seq<u8>
    decreases count,
{
    if count == 0 {
        Seq::empty()
    } else {
        seq![(value % 256) as u8] + le_bytes(value / 256, (count - 1) as nat)
    }
}

/// A value in some bytes has that many, and their digits to the base of 256 make it up.
proof fn lemma_le_bytes(value: int)
    ensures
        le_bytes(value, 1) == seq![(value % 256) as u8],
        le_bytes(value, 2) == seq![(value % 256) as u8, (value / 256 % 256) as u8],
        le_bytes(value, 4) == le_bytes(value, 2) + le_bytes(value / 0x1_0000, 2),
        le_bytes(value, 8) == le_bytes(value, 4) + le_bytes(value / 0x1_0000_0000, 4),
        le_bytes(value, 2).len() == 2,
        le_bytes(value, 4).len() == 4,
        le_bytes(value, 8).len() == 8,
{
    reveal_with_fuel(le_bytes, 9);
    assert(value / 256 / 256 == value / 0x1_0000);
    assert(value / 0x1_0000 / 0x1_0000 == value / 0x1_0000_0000);
    let high = value / 0x1_0000_0000;
    assert(le_bytes(value, 2) =~= seq![(value % 256) as u8, (value / 256 % 256) as u8]);
    assert(le_bytes(value, 4) =~= le_bytes(value, 2) + le_bytes(value / 0x1_0000, 2));
    assert(le_bytes(value, 8) =~= le_bytes(value, 4) + le_bytes(high, 4));
}

/// A 16-bit integer is read where it was written, and only where it was written.
pub proof fn u16_reads_back(bytes: Seq<u8>, at: int, value: u16)
    requires
        0 <= at,
        at + 2 <= bytes.len(),
    ensures
        le_u16(bytes, at) == value <==> bytes.subrange(at, at + 2) == le_bytes(value as int, 2),
{
    lemma_le_bytes(value as int);
    let part = bytes.subrange(at, at + 2);
    assert(part[0] == bytes[at] && part[1] == bytes[at + 1]);
    if le_u16(bytes, at) == value {
        assert(part =~= le_bytes(value as int, 2));
    }
}

/// A 32-bit integer is read where it was written, and only where it was written.
pub proof fn u32_reads_back(bytes: Seq<u8>, at: int, value: u32)
    requires
        0 <= at,
        at + 4 <= bytes.len(),
    ensures
        le_u32(bytes, at) == value <==> bytes.subrange(at, at + 4) == le_bytes(value as int, 4),
{
    lemma_le_bytes(value as int);
    let part = bytes.subrange(at, at + 4);
    let low = (value % 0x1_0000) as u16;
    let high = (value / 0x1_0000) as u16;
    u16_reads_back(bytes, at, low);
    u16_reads_back(bytes, at + 2, high);
    lemma_le_bytes(low as int);
    lemma_le_bytes(high as int);
    assert(le_bytes(low as int, 2) =~= le_bytes(value as int, 2));
    assert(part =~= bytes.subrange(at, at + 2) + bytes.subrange(at + 2, at + 4));
    assert(part.subrange(0, 2) =~= bytes.subrange(at, at + 2));
    assert(part.subrange(2, 4) =~= bytes.subrange(at + 2, at + 4));
    let written = le_bytes(value as int, 4);
    assert(written.subrange(0, 2) =~= le_bytes(low as int, 2));
    assert(written.subrange(2, 4) =~= le_bytes(high as int, 2));
}

/// A 64-bit integer is read where it was written, and only where it was written.
pub proof fn u64_reads_back(bytes: Seq<u8>, at: int, value: u64)
    requires
        0 <= at,
        at + 8 <= bytes.len(),
    ensures
        le_u64(bytes, at) == value <==> bytes.subrange(at, at + 8) == le_bytes(value as int, 8),
{
    let low = (value % 0x1_0000_0000) as u32;
    let high = (value / 0x1_0000_0000) as u32;
    u32_reads_back(bytes, at, low);
    u32_reads_back(bytes, at + 4, high);
    lemma_low_bytes(value as int);
    lemma_le_bytes(value as int);
    lemma_le_bytes(low as int);
    lemma_le_bytes(high as int);
    assert(bytes.subrange(at, at + 8) =~= bytes.subrange(at, at + 4) + bytes.subrange(
        at + 4,
        at + 8,
    ));
    lemma_halves(
        bytes.subrange(at, at + 8),
        bytes.subrange(at, at + 4),
        bytes.subrange(at + 4, at + 8),
        le_bytes(low as int, 4),
        le_bytes(high as int, 4),
    );
}

/// Bytes are put together of two halves if and only if these are their halves.
proof fn lemma_halves(part: Seq<u8>, a: Seq<u8>, b: Seq<u8>, c: Seq<u8>, d: Seq<u8>)
    requires
        part == a + b,
        a.len() == c.len(),
        b.len() == d.len(),
    ensures
        part == c + d <==> a == c && b == d,
{
    let n = a.len() as int;
    if part == c + d {
        assert(a =~= (a + b).subrange(0, n));
        assert(c =~= (c + d).subrange(0, n));
        assert(b =~= (a + b).subrange(n, part.len() as int));
        assert(d =~= (c + d).subrange(n, part.len() as int));
    }
}

/// The lower four bytes of a value are those of its remainder.
proof fn lemma_low_bytes(value: int)
    requires
        0 <= value,
    ensures
        le_bytes(value % 0x1_0000_0000, 4) == le_bytes(value, 4),
{
    let rest = value / 0x1_0000_0000;
    let low = value % 0x1_0000_0000;
    assert(value == low + 256 * (256 * (256 * (256 * rest))));
    lemma_same_bytes(low, 256 * (256 * (256 * rest)), 4);
    lemma_same_bytes(low / 256, 256 * (256 * rest), 3);
    lemma_same_bytes(low / 256 / 256, 256 * rest, 2);
    lemma_same_bytes(low / 256 / 256 / 256, rest, 1);
    assert(le_bytes(low / 256 / 256 / 256 / 256, 0) =~= le_bytes(
        low / 256 / 256 / 256 / 256 + rest,
        0,
    ));
}

/// Values that differ in what is above the lowest byte share that byte.
proof fn lemma_same_bytes(value: int, above: int, count: nat)
    requires
        count > 0,
    ensures
        le_bytes(value / 256 + above, (count - 1) as nat) == le_bytes(
            value / 256,
            (count - 1) as nat,
        ) ==> le_bytes(value + 256 * above, count) == le_bytes(value, count),
{
    assert((value + 256 * above) / 256 == value / 256 + above);
    assert((value + 256 * above) % 256 == value % 256);
}

/// 32 bits stand for the signed integer that differs from them by nothing or by 2^32.
pub proof fn signed_differs_by_a_turn(raw: u32)
    ensures
        as_signed(raw) as int == raw || as_signed(raw) as int == raw - 0x1_0000_0000,
{
}

/// A character in UTF-16: one unit, or a surrogate pair for what is above 0xffff.
pub open spec fn char_units(character: char) -> Seq<u16> {
    let code = character as u32 as int;
    if code < 0x1_0000 {
        seq![code as u16]
    } else {
        seq![
            (0xd800 + (code - 0x1_0000) / 0x400) as u16,
            (0xdc00 + (code - 0x1_0000) % 0x400) as u16,
        ]
    }
}

/// A text in UTF-16.
pub open spec fn utf16_units(text: Seq<char>) -> Seq<u16>
    decreases text.len(),
{
    if text.len() == 0 {
        Seq::empty()
    } else {
        char_units(text[0]) + utf16_units(text.drop_first())
    }
}

/// Decoding a text in UTF-16 gives the text.
proof fn lemma_utf16_decodes(text: Seq<char>)
    ensures
        utf16_chars(utf16_units(text)) == Some(text),
    decreases text.len(),
{
    if text.len() > 0 {
        let units = utf16_units(text);
        let rest = text.drop_first();
        lemma_utf16_decodes(rest);
        char_is_scalar(text[0]);
        let code = text[0] as u32;
        char_u32_cast(text[0], code);
        let first = char_units(text[0]);
        if code >= 0x1_0000 {
            let over = code - 0x1_0000;
            assert(over == (over / 0x400) * 0x400 + over % 0x400);
            assert(0x1_0000 + (first[0] - 0xd800) * 0x400 + (first[1] - 0xdc00) == code);
        }
        assert(units.skip(first.len() as int) =~= utf16_units(rest));
        assert(units[0] == first[0]);
        if first.len() == 2 {
            assert(units[1] == first[1]);
        }
        assert(text =~= seq![text[0]] + rest);
    } else {
        assert(text =~= Seq::<char>::empty());
    }
}

/// What decodes to a text is that text in UTF-16.
proof fn lemma_utf16_encodes(units: Seq<u16>)
    ensures
        utf16_chars(units) matches Some(text) ==> units == utf16_units(text),
    decreases units.len(),
{
    if let Some(text) = utf16_chars(units) {
        if units.len() > 0 {
            let taken: int = if 0xd800 <= units[0] < 0xdc00 {
                2
            } else {
                1
            };
            lemma_utf16_encodes(units.skip(taken));
            assert(text.drop_first() =~= utf16_chars(units.skip(taken))->0);
            assert(char_units(text[0]) =~= units.take(taken));
            assert(units =~= units.take(taken) + units.skip(taken));
        }
    }
}

/// Units decode to a text if and only if they are that text in UTF-16; units that are no text in
/// UTF-16 are an error.
pub proof fn utf16_reads_back(units: Seq<u16>, text: Seq<char>)
    ensures
        utf16_text(units) == Ok::<Seq<char>, Error>(text) <==> units == utf16_units(text),
        utf16_text(units) is Ok || utf16_text(units) == Err::<Seq<char>, Error>(
            Error::InvalidUtf16,
        ),
{
    lemma_utf16_decodes(text);
    lemma_utf16_encodes(units);
}

/// Bytes decode to a text if and only if they are that text in UTF-8; bytes that are no text in
/// UTF-8 are an error.
pub proof fn utf8_reads_back(bytes: Seq<u8>, text: Seq<char>)
    ensures
        utf8_text(bytes) == Ok::<Seq<char>, Error>(text) <==> bytes == encode_utf8(text),
        utf8_text(bytes) is Ok || utf8_text(bytes) == Err::<Seq<char>, Error>(Error::InvalidUtf8),
{
    encode_utf8_valid_utf8(text);
    encode_utf8_decode_utf8(text);
    if valid_utf8(bytes) {
        decode_utf8_encode_utf8(bytes);
        assert(encode_utf8(decode_utf8(bytes)) == bytes);
    }
}

/// Units as bytes, the lower half of each first.
pub open spec fn units_bytes(units: Seq<u16>) -> Seq<u8> {
    Seq::new(
        2 * units.len(),
        |i: int|
            if i % 2 == 0 {
                (units[i / 2] % 256) as u8
            } else {
                (units[i / 2] / 256) as u8
            },
    )
}

/// A text as bytes: of UTF-16 where `wide`, else of UTF-8.
pub open spec fn text_bytes(text: Seq<char>, wide: bool) -> Seq<u8> {
    if wide {
        units_bytes(utf16_units(text))
    } else {
        encode_utf8(text)
    }
}

/// Units are read where they were written, and only where they were written.
pub proof fn units_read_back(bytes: Seq<u8>, start: int, units: Seq<u16>)
    requires
        0 <= start,
        start + 2 * units.len() <= bytes.len(),
    ensures
        units_at(bytes, start, units.len()) == units <==> bytes.subrange(
            start,
            start + 2 * units.len(),
        ) == units_bytes(units),
{
    let part = bytes.subrange(start, start + 2 * units.len());
    let read = units_at(bytes, start, units.len());
    if read == units {
        assert forall|i: int| 0 <= i < part.len() implies part[i] == units_bytes(units)[i] by {
            assert(read[i / 2] == units[i / 2]);
            assert(part[i] == bytes[start + i]);
        }
        assert(part =~= units_bytes(units));
    }
    if part == units_bytes(units) {
        assert forall|i: int| 0 <= i < units.len() implies read[i] == units[i] by {
            assert(part[2 * i] == bytes[start + 2 * i]);
            assert(part[2 * i + 1] == bytes[start + 2 * i + 1]);
            assert((2 * i + 1) / 2 == i);
        }
        assert(read =~= units);
    }
}

/// A text of `len` units is read where it was written, and only where it was written.
pub proof fn text_reads_back(bytes: Seq<u8>, start: int, len: nat, wide: bool, text: Seq<char>)
    requires
        0 <= start,
        start + (if wide { 2 * len } else { len }) <= bytes.len(),
    ensures
        text_at(bytes, start, len, wide) == Ok::<Seq<char>, Error>(text) <==> bytes.subrange(
            start,
            start + (if wide { 2 * len } else { len }),
        ) == text_bytes(text, wide),
        text_at(bytes, start, len, wide) is Ok || text_at(bytes, start, len, wide) == Err::<
            Seq<char>,
            Error,
        >(if wide { Error::InvalidUtf16 } else { Error::InvalidUtf8 }),
{
    if wide {
        let units = units_at(bytes, start, len);
        utf16_reads_back(units, text);
        units_read_back(bytes, start, units);
        if units_bytes(units) == text_bytes(text, wide) {
            lemma_units_bytes(units, utf16_units(text));
        }
    } else {
        utf8_reads_back(bytes.subrange(start, start + len), text);
    }
}

/// Different units are different bytes.
proof fn lemma_units_bytes(a: Seq<u16>, b: Seq<u16>)
    requires
        units_bytes(a) == units_bytes(b),
    ensures
        a == b,
{
    assert(units_bytes(a).len() == 2 * a.len());
    assert(units_bytes(b).len() == 2 * b.len());
    assert forall|i: int| 0 <= i < a.len() implies a[i] == b[i] by {
        let x = a[i];
        let y = b[i];
        assert(2 * i / 2 == i && (2 * i + 1) / 2 == i);
        assert(units_bytes(a)[2 * i] == (x % 256) as u8);
        assert(units_bytes(b)[2 * i] == (y % 256) as u8);
        assert(units_bytes(a)[2 * i + 1] == (x / 256) as u8);
        assert(units_bytes(b)[2 * i + 1] == (y / 256) as u8);
        assert(x == 256 * (x / 256) + x % 256);
        assert(y == 256 * (y / 256) + y % 256);
    }
    assert(a =~= b);
}

/// How many bytes a text of `len` units takes: two for each unit of UTF-16, one for each of UTF-8.
pub proof fn text_takes_its_bytes(len: nat)
    ensures
        text_size(len, true) == len + len,
        text_size(len, false) == len,
{
}

/// The number that decimal digits make up.
pub open spec fn number_of(digits: Seq<char>) -> int
    decreases digits.len(),
{
    if digits.len() == 0 {
        0
    } else {
        10 * number_of(digits.drop_last()) + (digits.last() as u32 - 48)
    }
}

/// Decimal notation consists of decimal digits that make up the number, without a zero in front
/// of other digits.
pub proof fn decimal_reads_back(value: nat)
    ensures
        number_of(decimal(value)) == value,
        forall|i: int|
            0 <= i < decimal(value).len() ==> '0' <= #[trigger] decimal(value)[i] <= '9',
        decimal(value).len() > 0,
        decimal(value)[0] == '0' ==> value == 0 && decimal(value) == seq!['0'],
    decreases value,
{
    reveal_with_fuel(number_of, 2);
    let digits = decimal(value);
    if value >= 10 {
        decimal_reads_back(value / 10);
        assert(digits.drop_last() =~= decimal(value / 10));
        assert(digits[0] == decimal(value / 10)[0]);
        assert forall|i: int| 0 <= i < digits.len() implies '0' <= #[trigger] digits[i] <= '9' by {
            if i < digits.len() - 1 {
                assert(digits[i] == decimal(value / 10)[i]);
            }
        }
    } else {
        assert(digits.drop_last() =~= Seq::<char>::empty());
    }
}

/// A string that is there stands for its characters, and an error for itself.
pub proof fn text_model_is_faithful(output: Result<String, Error>)
    ensures
        match output {
            Ok(text) => text_model(output) == Ok::<Seq<char>, Error>(text@),
            Err(error) => text_model(output) == Err::<Seq<char>, Error>(error),
        },
{
}

} // verus!
