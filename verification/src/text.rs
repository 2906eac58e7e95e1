//! Text as the target stores it.
use vstd::prelude::*;
use vstd::string::StringExecFns;
use vstd::utf8::{decode_utf8, valid_utf8};
use crate::bytes::{le_u16, read_le_u16};
use crate::mem::Error;

verus! {

/// Whether a unit is the first half of a surrogate pair.
pub open spec fn is_high_surrogate(unit: u16) -> bool {
    0xd800 <= unit < 0xdc00
}

/// Whether a unit is the second half of a surrogate pair.
pub open spec fn is_low_surrogate(unit: u16) -> bool {
    0xdc00 <= unit < 0xe000
}

/// The characters that `units` encode in UTF-16, or `None` where a surrogate stands alone.
pub open spec fn utf16_chars(units: Seq<u16>) -> Option<Seq<char>>
    decreases units.len(),
{
    if units.len() == 0 {
        Some(Seq::empty())
    } else if !is_high_surrogate(units[0]) && !is_low_surrogate(units[0]) {
        match utf16_chars(units.skip(1)) {
            Some(rest) => Some(seq![units[0] as char] + rest),
            None => None,
        }
    } else if units.len() >= 2 && is_high_surrogate(units[0]) && is_low_surrogate(units[1]) {
        match utf16_chars(units.skip(2)) {
            Some(rest) => Some(
                seq![(0x1_0000 + (units[0] - 0xd800) * 0x400 + (units[1] - 0xdc00)) as char] + rest,
            ),
            None => None,
        }
    } else {
        None
    }
}

/// The text that `units` encode in UTF-16.
pub open spec fn utf16_text(units: Seq<u16>) -> Result<Seq<char>, Error> {
    match utf16_chars(units) {
        Some(text) => Ok(text),
        None => Err(Error::InvalidUtf16),
    }
}

/// The text that `bytes` encode in UTF-8.
pub open spec fn utf8_text(bytes: Seq<u8>) -> Result<Seq<char>, Error> {
    if valid_utf8(bytes) {
        Ok(decode_utf8(bytes))
    } else {
        Err(Error::InvalidUtf8)
    }
}

/// The view of a string that may be missing.
pub open spec fn text_model(output: Result<String, Error>) -> Result<Seq<char>, Error> {
    match output {
        Ok(text) => Ok(text@),
        Err(error) => Err(error),
    }
}

/// Calls `String::from_utf16`, which decodes UTF-16 and fails exactly where the units are not
/// valid UTF-16, that is, where a surrogate lacks its other half.
#[verifier::external_body]
fn string_from_utf16(units: &Vec<u16>) -> (text: Option<String>)
    ensures
        match text {
            Some(text) => utf16_chars(units@) == Some(text@),
            None => utf16_chars(units@) is None,
        },
{
    String::from_utf16(units).ok()
}

/// Calls `String::from_utf8`, which decodes UTF-8 and fails exactly where the bytes are not
/// valid UTF-8.
#[verifier::external_body]
fn string_from_utf8(bytes: Vec<u8>) -> (text: Option<String>)
    ensures
        match text {
            Some(text) => valid_utf8(bytes@) && text@ == decode_utf8(bytes@),
            None => !valid_utf8(bytes@),
        },
{
    String::from_utf8(bytes).ok()
}

/// Decodes UTF-16.
pub fn decode_wide(units: &Vec<u16>) -> (text: Result<String, Error>)
    ensures
        text_model(text) == utf16_text(units@),
{
    match string_from_utf16(units) {
        Some(text) => Ok(text),
        None => Err(Error::InvalidUtf16),
    }
}

/// Decodes UTF-8.
pub fn decode_narrow(bytes: Vec<u8>) -> (text: Result<String, Error>)
    ensures
        text_model(text) == utf8_text(bytes@),
{
    match string_from_utf8(bytes) {
        Some(text) => Ok(text),
        None => Err(Error::InvalidUtf8),
    }
}

/// The `len` 16-bit units that stand one behind the other from `start` on.
pub open spec fn units_at(bytes: Seq<u8>, start: int, len: nat) -> Seq<u16> {
    Seq::new(len, |i: int| le_u16(bytes, start + 2 * i))
}

/// The text of `len` units from `start` on: 16-bit units of UTF-16 where `wide`, else bytes of
/// UTF-8.
pub open spec fn text_at(bytes: Seq<u8>, start: int, len: nat, wide: bool) -> Result<
    Seq<char>,
    Error,
> {
    if wide {
        utf16_text(units_at(bytes, start, len))
    } else {
        utf8_text(bytes.subrange(start, start + len))
    }
}

/// How many bytes the text of `len` units takes.
pub open spec fn text_size(len: nat, wide: bool) -> nat {
    if wide {
        2 * len
    } else {
        len
    }
}

/// Decodes the text of `len` units from `start` on.
pub fn decode_text(bytes: &Vec<u8>, start: usize, len: usize, wide: bool) -> (text: Result<
    String,
    Error,
>)
    requires
        start + text_size(len as nat, wide) <= bytes.len(),
    ensures
        text_model(text) == text_at(bytes@, start as int, len as nat, wide),
{
    if wide {
        let mut units: Vec<u16> = Vec::new();
        while units.len() < len
            invariant
                start + 2 * len <= bytes.len(),
                units@.len() <= len,
                units@ == units_at(bytes@, start as int, units@.len()),
            decreases len - units@.len(),
        {
            let at: usize = start + 2 * units.len();
            units.push(read_le_u16(bytes, at));
        }
        decode_wide(&units)
    } else {
        let mut narrow: Vec<u8> = Vec::new();
        while narrow.len() < len
            invariant
                start + len <= bytes.len(),
                narrow@.len() <= len,
                narrow@ == bytes@.subrange(start as int, start + narrow@.len()),
            decreases len - narrow@.len(),
        {
            let at: usize = start + narrow.len();
            narrow.push(bytes[at]);
        }
        decode_narrow(narrow)
    }
}

/// A decimal digit as a character.
pub open spec fn digit(value: nat) -> char {
    ('0' as u32 + value) as char
}

/// A number in decimal notation.
pub open spec fn decimal(value: nat) -> Seq<char>
    decreases value,
{
    if value < 10 {
        seq![digit(value)]
    } else {
        decimal(value / 10) + seq![digit(value % 10)]
    }
}

/// Numbers with the same decimal notation are the same.
pub proof fn decimal_is_injective(a: nat, b: nat)
    requires
        decimal(a) == decimal(b),
    ensures
        a == b,
    decreases a,
{
    assert(decimal(a).last() == digit(a % 10));
    assert(decimal(b).last() == digit(b % 10));
    assert(a % 10 == b % 10);
    if a < 10 {
        assert(b < 10) by {
            if b >= 10 {
                lemma_decimal_len(b / 10);
            }
        }
    } else {
        assert(b >= 10) by {
            lemma_decimal_len(a / 10);
        }
        assert(decimal(a).drop_last() =~= decimal(a / 10));
        assert(decimal(b).drop_last() =~= decimal(b / 10));
        decimal_is_injective(a / 10, b / 10);
    }
}

/// Decimal notation has at least one digit.
proof fn lemma_decimal_len(value: nat)
    ensures
        decimal(value).len() > 0,
{
}

/// Units none of which is zero encode a text without the zero character.
pub proof fn utf16_keeps_nul_out(units: Seq<u16>)
    requires
        forall|i: int| 0 <= i < units.len() ==> units[i] != 0,
    ensures
        utf16_chars(units) matches Some(text) ==> !text.contains('\0'),
    decreases units.len(),
{
    if units.len() > 0 {
        utf16_keeps_nul_out(units.skip(1));
        if units.len() > 1 {
            utf16_keeps_nul_out(units.skip(2));
        }
        if let Some(text) = utf16_chars(units) {
            let taken = if is_high_surrogate(units[0]) {
                2int
            } else {
                1int
            };
            if let Some(rest) = utf16_chars(units.skip(taken)) {
                assert forall|i: int| 0 <= i < text.len() implies text[i] != '\0' by {
                    if i > 0 {
                        assert(text[i] == rest[i - 1]);
                        assert(rest.contains(rest[i - 1]));
                    } else if taken == 2 {
                        let code = 0x1_0000 + (units[0] - 0xd800) * 0x400 + (units[1] - 0xdc00);
                        assert(0x1_0000 <= code <= 0x10_ffff);
                        assert(text[0] == code as char);
                    }
                }
            }
        }
    }
}

/// Writes a decimal digit behind `text`.
fn append_digit(text: &mut String, value: u32)
    requires
        value < 10,
    ensures
        final(text)@ == old(text)@ + seq![digit(value as nat)],
{
    proof {
        reveal_strlit("0");
        reveal_strlit("1");
        reveal_strlit("2");
        reveal_strlit("3");
        reveal_strlit("4");
        reveal_strlit("5");
        reveal_strlit("6");
        reveal_strlit("7");
        reveal_strlit("8");
        reveal_strlit("9");
    }
    let figure: &str = match value {
        0 => "0",
        1 => "1",
        2 => "2",
        3 => "3",
        4 => "4",
        5 => "5",
        6 => "6",
        7 => "7",
        8 => "8",
        _ => "9",
    };
    assert(figure@ =~= seq![digit(value as nat)]);
    text.append(figure);
}

/// Writes a number in decimal notation behind `text`.
pub fn append_decimal(text: &mut String, value: u32)
    ensures
        final(text)@ == old(text)@ + decimal(value as nat),
    decreases value,
{
    if value < 10 {
        append_digit(text, value);
    } else {
        append_decimal(text, value / 10);
        append_digit(text, value % 10);
        assert(text@ =~= old(text)@ + decimal(value as nat));
    }
}

} // verus!
