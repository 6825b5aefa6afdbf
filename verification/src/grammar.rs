//! What decoding means: the Bencode grammar as a function from bytes to a
//! result and the place where the unread input begins.

use crate::dict::upsert;
use crate::value::Value;
use vstd::prelude::*;

verus! {

/// Why an input could not be decoded.
#[derive(Debug, Clone, Copy, PartialEq, Eq, Structural)]
pub enum DecodeError {
    /// A byte that the grammar does not allow where it stands.
    UnexpectedToken,
    /// The text between `i` and `e` is no integer that fits in 64 bits.
    InvalidInteger,
    /// The length in front of a byte string does not fit in `usize`.
    InvalidLength,
    /// The input ends before the value is complete.
    TruncatedInput,
    /// A dictionary key that is not a byte string.
    InvalidKeyType,
    /// There is no input at all.
    EmptyInput,
    /// Lists and dictionaries are nested more deeply than the limit allows.
    NestingTooDeep,
}

/// The outcome of decoding one value: the value or the error, and the index
/// at which the unread rest of the input begins.
pub ghost struct Parsed {
    pub result: Result<Value, DecodeError>,
    pub next: int,
}

/// The outcome of a failure noticed at index `at`.
pub open spec fn failed(error: DecodeError, at: int) -> Parsed {
    Parsed { result: Err(error), next: at }
}

/// The outcome of a value that ends just before index `next`.
pub open spec fn parsed(value: Value, next: int) -> Parsed {
    Parsed { result: Ok(value), next }
}

/// The byte `0`.
pub const DIGIT_ZERO: u8 = 0x30;

/// The byte `9`.
pub const DIGIT_NINE: u8 = 0x39;

/// The byte `-`, the sign of a negative integer.
pub const MINUS: u8 = 0x2d;

/// The byte `:`, which parts a byte string's length from its content.
pub const COLON: u8 = 0x3a;

/// The byte `i`, which opens an integer.
pub const INTEGER_START: u8 = 0x69;

/// The byte `l`, which opens a list.
pub const LIST_START: u8 = 0x6c;

/// The byte `d`, which opens a dictionary.
pub const DICT_START: u8 = 0x64;

/// The byte `e`, which closes an integer, a list or a dictionary.
pub const END: u8 = 0x65;

/// True for the bytes `0` to `9`.
pub open spec fn is_digit(b: u8) -> bool {
    DIGIT_ZERO <= b <= DIGIT_NINE
}

/// The index of the first byte at or after `from` that is no decimal digit,
/// or the length of `s` if only digits follow.
pub open spec fn digits_end(s: Seq<u8>, from: int) -> int
    decreases s.len() - from,
{
    if 0 <= from < s.len() && is_digit(s[from]) {
        digits_end(s, from + 1)
    } else {
        from
    }
}

/// The number that a run of decimal digits denotes; leading zeros do not
/// change it, and the empty run denotes 0.
pub open spec fn decimal(digits: Seq<u8>) -> nat
    decreases digits.len(),
{
    if digits.len() == 0 {
        0
    } else {
        (10 * decimal(digits.drop_last()) + (digits.last() - DIGIT_ZERO)) as nat
    }
}

/// The integer production, `i<number>e`, for an input with `i` at `pos`.
///
/// The number is an optional `-` and then decimal digits. Any other byte
/// before the closing `e` is an unexpected token, noticed before the number
/// is looked at. The number must have a digit and fit in 64 bits; redundant
/// leading zeros and `-0` are accepted and denote what they denote in
/// ordinary decimal notation. A failure over the number as a whole leaves
/// the unread input at the number's first byte.
pub open spec fn parse_integer(s: Seq<u8>, pos: int) -> Parsed {
    let start = pos + 1;
    let negative = start < s.len() && s[start] == MINUS;
    let first = if negative {
        start + 1
    } else {
        start
    };
    let end = digits_end(s, first);
    if end >= s.len() {
        failed(DecodeError::TruncatedInput, s.len() as int)
    } else if s[end] != END {
        failed(DecodeError::UnexpectedToken, end)
    } else if end == first {
        failed(DecodeError::InvalidInteger, start)
    } else {
        let magnitude = decimal(s.subrange(first, end));
        let n = if negative {
            -magnitude
        } else {
            magnitude as int
        };
        if i64::MIN <= n <= i64::MAX {
            parsed(Value::Num(n), end + 1)
        } else {
            failed(DecodeError::InvalidInteger, start)
        }
    }
}

/// The byte-string production, `<length>:<bytes>`, for an input with a
/// digit at `pos`.
///
/// The length is the run of digits up to the `:`; exactly that many bytes
/// follow and are taken as they are. A length that does not fit in `usize`
/// is invalid and leaves the unread input at its first digit; an input that
/// ends before the `:` or before the last byte of the content is truncated.
pub open spec fn parse_string(s: Seq<u8>, pos: int) -> Parsed {
    let end = digits_end(s, pos);
    if end >= s.len() {
        failed(DecodeError::TruncatedInput, s.len() as int)
    } else if s[end] != COLON {
        failed(DecodeError::UnexpectedToken, end)
    } else {
        let length = decimal(s.subrange(pos, end));
        if length > usize::MAX {
            failed(DecodeError::InvalidLength, pos)
        } else if end + 1 + length > s.len() {
            failed(DecodeError::TruncatedInput, s.len() as int)
        } else {
            parsed(Value::Str(s.subrange(end + 1, end + 1 + length)), end + 1 + length)
        }
    }
}

/// The value that begins at index `pos` of `s`, decoded with at most
/// `depth` lists and dictionaries nested inside one another.
///
/// The first byte chooses the production: a digit a byte string, `i` an
/// integer, `l` a list, `d` a dictionary; any other byte is an unexpected
/// token. Where `pos` is the end of the input, the input is truncated.
pub open spec fn parse_value(s: Seq<u8>, pos: int, depth: nat) -> Parsed
    decreases depth, s.len() - pos, 0int,
{
    if pos < 0 || pos >= s.len() {
        failed(DecodeError::TruncatedInput, s.len() as int)
    } else if is_digit(s[pos]) {
        parse_string(s, pos)
    } else if s[pos] == INTEGER_START {
        parse_integer(s, pos)
    } else if s[pos] == LIST_START {
        if depth == 0 {
            failed(DecodeError::NestingTooDeep, pos)
        } else {
            parse_items(s, pos + 1, (depth - 1) as nat, Seq::empty())
        }
    } else if s[pos] == DICT_START {
        if depth == 0 {
            failed(DecodeError::NestingTooDeep, pos)
        } else {
            parse_entries(s, pos + 1, (depth - 1) as nat, Seq::empty())
        }
    } else {
        failed(DecodeError::UnexpectedToken, pos)
    }
}

/// The rest of a list whose items so far are `done`, read from index `pos`
/// on: an `e` closes the list, anything else must be one more item. The
/// first item that fails is the failure of the list.
///
/// The test that an item ends after it began only serves to show that the
/// definition is well-founded; `lemma_parse_bounds` shows that it always
/// holds.
pub open spec fn parse_items(s: Seq<u8>, pos: int, depth: nat, done: Seq<Value>) -> Parsed
    decreases depth, s.len() - pos, 1int,
{
    if 0 <= pos < s.len() && s[pos] == END {
        parsed(Value::List(done), pos + 1)
    } else {
        let item = parse_value(s, pos, depth);
        match item.result {
            Ok(value) => if pos < item.next <= s.len() {
                parse_items(s, item.next, depth, done.push(value))
            } else {
                failed(DecodeError::TruncatedInput, s.len() as int)
            },
            Err(error) => item,
        }
    }
}

/// The rest of a dictionary whose entries so far are `done`, read from
/// index `pos` on: an `e` closes the dictionary, anything else must be a
/// key, which has to be a byte string, and then its value. A key that was
/// there before gets the new value. A failure of a key or of a value is the
/// failure of the dictionary; a key of another kind leaves the unread input
/// at the key's first byte.
///
/// As in `parse_items`, the tests that a key and a value end after they
/// began only serve to show that the definition is well-founded.
pub open spec fn parse_entries(s: Seq<u8>, pos: int, depth: nat, done: Seq<(Seq<u8>, Value)>) -> Parsed
    decreases depth, s.len() - pos, 1int,
{
    if 0 <= pos < s.len() && s[pos] == END {
        parsed(Value::Dict(done), pos + 1)
    } else {
        let key = parse_value(s, pos, depth);
        match key.result {
            Ok(Value::Str(name)) => if pos < key.next <= s.len() {
                let item = parse_value(s, key.next, depth);
                match item.result {
                    Ok(value) => if key.next < item.next <= s.len() {
                        parse_entries(s, item.next, depth, upsert(done, name, value))
                    } else {
                        failed(DecodeError::TruncatedInput, s.len() as int)
                    },
                    Err(error) => item,
                }
            } else {
                failed(DecodeError::TruncatedInput, s.len() as int)
            },
            Ok(_) => failed(DecodeError::InvalidKeyType, pos),
            Err(error) => key,
        }
    }
}

/// The outcome of decoding the first value of `s`: an empty input is an
/// error of its own, any other input is read from its first byte.
pub open spec fn parse(s: Seq<u8>, depth: nat) -> Parsed {
    if s.len() == 0 {
        failed(DecodeError::EmptyInput, 0)
    } else {
        parse_value(s, 0, depth)
    }
}

} // verus!
