//! Identifiers as text.
//!
//! A 128-bit identifier is written as 32 hexadecimal digits in lower case.
//! It is read from an optional `+` and hexadecimal digits in either case,
//! as many as make a number of at most 128 bits.

use crate::helpers::system::push_char;
use vstd::prelude::*;

verus! {

/// The sixteen hexadecimal digits in lower case.
pub open spec fn hex_digits() -> Seq<char> {
    seq!['0', '1', '2', '3', '4', '5', '6', '7', '8', '9', 'a', 'b', 'c', 'd', 'e', 'f']
}

/// The four bits of `id` that its hexadecimal digit number `place` writes,
/// digit 0 being the first of 32.
pub open spec fn nibble(id: u128, place: int) -> u128 {
    (id >> ((4 * (31 - place)) as u128)) & 0xf
}

/// `id` as 32 lowercase hexadecimal digits.
pub open spec fn hex_text(id: u128) -> Seq<char> {
    Seq::new(32, |place: int| hex_digits()[nibble(id, place) as int])
}

/// What a character is worth as a hexadecimal digit, in either case.
pub open spec fn digit_value(c: char) -> Option<nat> {
    if '0' <= c <= '9' {
        Some((c as u32 - '0' as u32) as nat)
    } else if 'a' <= c <= 'f' {
        Some((c as u32 - 'a' as u32 + 10) as nat)
    } else if 'A' <= c <= 'F' {
        Some((c as u32 - 'A' as u32 + 10) as nat)
    } else {
        None
    }
}

/// Why a text is no identifier.
#[derive(Clone, Copy, Debug, PartialEq, Eq, Structural)]
pub enum ParseIdError {
    /// The text is empty.
    Empty,
    /// A character is no hexadecimal digit, or a sign stands alone.
    InvalidDigit,
    /// The number does not fit in 128 bits.
    Overflow,
}

/// Reads `digits` from the left as a hexadecimal number that continues
/// `so_far`. The first character that is no digit, or else the first digit
/// that takes the number out of 128 bits, ends the reading with its error.
pub open spec fn read_digits(digits: Seq<char>, so_far: nat) -> Result<nat, ParseIdError>
    decreases digits.len(),
{
    if digits.len() == 0 {
        Ok(so_far)
    } else {
        match digit_value(digits[0]) {
            None => Err(ParseIdError::InvalidDigit),
            Some(v) => if so_far * 16 + v > u128::MAX {
                Err(ParseIdError::Overflow)
            } else {
                read_digits(digits.skip(1), so_far * 16 + v)
            },
        }
    }
}

/// What a text says as an identifier: an optional `+` and then one
/// hexadecimal digit or more, in either case, that make a number of at most
/// 128 bits.
pub open spec fn parse_id(text: Seq<char>) -> Result<nat, ParseIdError> {
    if text.len() == 0 {
        Err(ParseIdError::Empty)
    } else {
        let digits = if text[0] == '+' {
            text.skip(1)
        } else {
            text
        };
        if digits.len() == 0 {
            Err(ParseIdError::InvalidDigit)
        } else {
            read_digits(digits, 0)
        }
    }
}

fn hex_char(value: u8) -> (c: char)
    requires
        value < 16,
    ensures
        c == hex_digits()[value as int],
{
    match value {
        0 => '0',
        1 => '1',
        2 => '2',
        3 => '3',
        4 => '4',
        5 => '5',
        6 => '6',
        7 => '7',
        8 => '8',
        9 => '9',
        10 => 'a',
        11 => 'b',
        12 => 'c',
        13 => 'd',
        14 => 'e',
        _ => 'f',
    }
}

fn hex_value(c: char) -> (value: Option<u8>)
    ensures
        match value {
            Some(v) => digit_value(c) == Some(v as nat) && v < 16,
            None => digit_value(c) is None,
        },
{
    if '0' <= c && c <= '9' {
        Some((c as u32 - '0' as u32) as u8)
    } else if 'a' <= c && c <= 'f' {
        Some((c as u32 - 'a' as u32 + 10) as u8)
    } else if 'A' <= c && c <= 'F' {
        Some((c as u32 - 'A' as u32 + 10) as u8)
    } else {
        None
    }
}

/// `id` as 32 lowercase hexadecimal digits.
pub fn format_id(id: u128) -> (text: String)
    ensures
        text@ == hex_text(id),
{
    let mut text = String::new();
    let mut place: u32 = 0;
    while place < 32
        invariant
            place <= 32,
            text@ == hex_text(id).take(place as int),
        decreases 32 - place,
    {
        let shift: u128 = (4 * (31 - place)) as u128;
        let bits: u128 = (id >> shift) & 0xf;
        assert(bits < 16) by (bit_vector)
            requires
                bits == (id >> shift) & 0xf,
        ;
        push_char(&mut text, hex_char(bits as u8));
        proof {
            assert(bits == nibble(id, place as int));
            assert(text@ =~= hex_text(id).take(place + 1));
        }
        place = place + 1;
    }
    proof {
        assert(hex_text(id).take(32) =~= hex_text(id));
    }
    text
}

/// Reads an identifier from `text`: an optional `+` and then hexadecimal
/// digits, in either case.
pub fn parse_id_text(text: &str) -> (parsed: Result<u128, ParseIdError>)
    ensures
        match parsed {
            Ok(id) => parse_id(text@) == Ok::<nat, ParseIdError>(id as nat),
            Err(e) => parse_id(text@) == Err::<nat, ParseIdError>(e),
        },
{
    let len = text.unicode_len();
    if len == 0 {
        return Err(ParseIdError::Empty);
    }
    let start: usize = if text.get_char(0) == '+' {
        1
    } else {
        0
    };
    if start == len {
        return Err(ParseIdError::InvalidDigit);
    }
    let ghost digits = text@.skip(start as int);
    let mut at: usize = start;
    let mut so_far: u128 = 0;
    proof {
        assert(digits.skip(0) =~= digits);
        assert(text@.skip(0) =~= text@);
        assert(parse_id(text@) == read_digits(digits, 0));
    }
    while at < len
        invariant
            start <= at <= len,
            len == text@.len(),
            digits == text@.skip(start as int),
            parse_id(text@) == read_digits(digits.skip(at - start), so_far as nat),
        decreases len - at,
    {
        let ghost rest = digits.skip(at - start);
        proof {
            assert(rest.len() > 0);
            assert(rest[0] == text@[at as int]);
            assert(rest.skip(1) =~= digits.skip(at + 1 - start));
            assert(read_digits(rest, so_far as nat) == match digit_value(rest[0]) {
                None => Err::<nat, ParseIdError>(ParseIdError::InvalidDigit),
                Some(v) => if so_far * 16 + v > u128::MAX {
                    Err(ParseIdError::Overflow)
                } else {
                    read_digits(rest.skip(1), so_far as nat * 16 + v)
                },
            });
        }
        let v = match hex_value(text.get_char(at)) {
            Some(v) => v,
            None => {
                return Err(ParseIdError::InvalidDigit);
            },
        };
        let next = match so_far.checked_mul(16) {
            Some(scaled) => scaled.checked_add(v as u128),
            None => None,
        };
        so_far =
        match next {
            Some(next) => next,
            None => {
                return Err(ParseIdError::Overflow);
            },
        };
        at = at + 1;
    }
    proof {
        assert(digits.skip(len - start).len() == 0);
        assert(read_digits(digits.skip(len - start), so_far as nat) == Ok::<nat, ParseIdError>(
            so_far as nat,
        ));
    }
    Ok(so_far)
}

} // verus!
