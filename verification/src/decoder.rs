//! The decoder: one pass over the input, recursing into lists and
//! dictionaries up to a depth limit.

use crate::dict::{dict_insert, unique_keys};
use crate::grammar::{
    decimal, digits_end, parse, parse_entries, parse_integer, parse_items, parse_string,
    parse_value, DecodeError, Parsed, COLON, DICT_START, DIGIT_NINE, DIGIT_ZERO, END,
    INTEGER_START, LIST_START, MINUS,
};
use crate::properties::lemma_parse_bounds;
use crate::value::{
    entries_model, items_model, lemma_dict_view, lemma_list_view, BencodeObj, Value,
};
use vstd::prelude::*;
use vstd::slice::{slice_subrange, slice_to_vec};

verus! {

/// The depth limit of [`decode`]: how many lists and dictionaries may be
/// nested inside one another.
pub const DEFAULT_MAX_DEPTH: usize = 128;

/// True when what the decoder returned, a result and the index at which
/// the unread input begins, is the outcome that the grammar gives.
pub open spec fn agrees(result: Result<BencodeObj, DecodeError>, next: usize, outcome: Parsed) -> bool {
    &&& next == outcome.next
    &&& match result {
        Ok(obj) => outcome.result == Ok::<Value, DecodeError>(obj@),
        Err(error) => outcome.result == Err::<Value, DecodeError>(error),
    }
}

/// Reads the run of digits that begins at `from` and works out the number
/// it denotes, as long as that number stays within `limit`.
fn scan_number(input: &[u8], from: usize, limit: u64) -> (out: (usize, Option<u64>))
    requires
        from <= input@.len(),
    ensures
        out.0 == digits_end(input@, from as int),
        from <= out.0 <= input@.len(),
        match out.1 {
            Some(n) => n <= limit && n == decimal(input@.subrange(from as int, out.0 as int)),
            None => decimal(input@.subrange(from as int, out.0 as int)) > limit,
        },
{
    let mut i: usize = from;
    let mut number: u64 = 0;
    let mut fits: bool = true;
    assert(input@.subrange(from as int, from as int) =~= Seq::<u8>::empty());
    while i < input.len() && DIGIT_ZERO <= input[i] && input[i] <= DIGIT_NINE
        invariant
            from <= i <= input@.len(),
            digits_end(input@, i as int) == digits_end(input@, from as int),
            fits ==> number <= limit && number == decimal(input@.subrange(from as int, i as int)),
            !fits ==> decimal(input@.subrange(from as int, i as int)) > limit,
        decreases input@.len() - i,
    {
        let digit: u64 = (input[i] - DIGIT_ZERO) as u64;
        proof {
            let longer = input@.subrange(from as int, i + 1);
            assert(longer.drop_last() =~= input@.subrange(from as int, i as int));
            assert(longer.last() == input@[i as int]);
        }
        if fits {
            if number > limit / 10 || (number == limit / 10 && digit > limit % 10) {
                fits = false;
            } else {
                number = number * 10 + digit;
            }
        }
        i = i + 1;
    }
    if fits {
        (i, Some(number))
    } else {
        (i, None)
    }
}

/// Decodes the integer whose `i` stands at `pos`.
fn decode_integer(input: &[u8], pos: usize) -> (out: (Result<BencodeObj, DecodeError>, usize))
    requires
        pos < input@.len(),
    ensures
        agrees(out.0, out.1, parse_integer(input@, pos as int)),
{
    let len: usize = input.len();
    let start: usize = pos + 1;
    let negative: bool = start < input.len() && input[start] == MINUS;
    let first: usize = if negative {
        start + 1
    } else {
        start
    };
    let limit: u64 = if negative {
        0x8000_0000_0000_0000
    } else {
        0x7fff_ffff_ffff_ffff
    };
    let (end, magnitude) = scan_number(input, first, limit);
    if end >= input.len() {
        return (Err(DecodeError::TruncatedInput), input.len());
    }
    if input[end] != END {
        return (Err(DecodeError::UnexpectedToken), end);
    }
    if end == first {
        return (Err(DecodeError::InvalidInteger), start);
    }
    match magnitude {
        None => (Err(DecodeError::InvalidInteger), start),
        Some(m) => {
            let n: i64 = if !negative {
                m as i64
            } else if m == 0x8000_0000_0000_0000 {
                i64::MIN
            } else {
                -(m as i64)
            };
            (Ok(BencodeObj::Num(n)), end + 1)
        },
    }
}

/// Decodes the byte string whose length begins at `pos`.
fn decode_string(input: &[u8], pos: usize) -> (out: (Result<BencodeObj, DecodeError>, usize))
    requires
        pos < input@.len(),
    ensures
        agrees(out.0, out.1, parse_string(input@, pos as int)),
{
    let (end, length) = scan_number(input, pos, usize::MAX as u64);
    if end >= input.len() {
        return (Err(DecodeError::TruncatedInput), input.len());
    }
    if input[end] != COLON {
        return (Err(DecodeError::UnexpectedToken), end);
    }
    match length {
        None => (Err(DecodeError::InvalidLength), pos),
        Some(n) => {
            let begin: usize = end + 1;
            if n > (input.len() - begin) as u64 {
                (Err(DecodeError::TruncatedInput), input.len())
            } else {
                let after: usize = begin + n as usize;
                let content = slice_to_vec(slice_subrange(input, begin, after));
                (Ok(BencodeObj::Str(content)), after)
            }
        },
    }
}

/// Decodes the value that begins at `pos`, with at most `depth` lists and
/// dictionaries nested inside one another.
fn decode_value(input: &[u8], pos: usize, depth: usize) -> (out: (
    Result<BencodeObj, DecodeError>,
    usize,
))
    requires
        pos <= input@.len(),
    ensures
        agrees(out.0, out.1, parse_value(input@, pos as int, depth as nat)),
    decreases depth, 0int,
{
    if pos >= input.len() {
        return (Err(DecodeError::TruncatedInput), input.len());
    }
    let lead: u8 = input[pos];
    if DIGIT_ZERO <= lead && lead <= DIGIT_NINE {
        decode_string(input, pos)
    } else if lead == INTEGER_START {
        decode_integer(input, pos)
    } else if lead == LIST_START {
        if depth == 0 {
            (Err(DecodeError::NestingTooDeep), pos)
        } else {
            decode_items(input, pos + 1, depth - 1)
        }
    } else if lead == DICT_START {
        if depth == 0 {
            (Err(DecodeError::NestingTooDeep), pos)
        } else {
            decode_entries(input, pos + 1, depth - 1)
        }
    } else {
        (Err(DecodeError::UnexpectedToken), pos)
    }
}

/// Decodes the items of a list from `pos`, just after its `l`, up to and
/// with its closing `e`.
fn decode_items(input: &[u8], pos: usize, depth: usize) -> (out: (
    Result<BencodeObj, DecodeError>,
    usize,
))
    requires
        pos <= input@.len(),
    ensures
        agrees(
            out.0,
            out.1,
            parse_items(input@, pos as int, depth as nat, Seq::<Value>::empty()),
        ),
    decreases depth, 1int,
{
    let mut items: Vec<BencodeObj> = Vec::new();
    let mut at: usize = pos;
    assert(items_model(items@) =~= Seq::<Value>::empty());
    loop
        invariant
            pos <= at <= input@.len(),
            parse_items(input@, at as int, depth as nat, items_model(items@)) == parse_items(
                input@,
                pos as int,
                depth as nat,
                Seq::<Value>::empty(),
            ),
        decreases input@.len() - at,
    {
        if at < input.len() && input[at] == END {
            proof {
                lemma_list_view(items);
            }
            return (Ok(BencodeObj::List(items)), at + 1);
        }
        let (result, next) = decode_value(input, at, depth);
        match result {
            Ok(item) => {
                proof {
                    lemma_parse_bounds(input@, at as int, depth as nat);
                    assert(items_model(items@.push(item)) =~= items_model(items@).push(item@));
                }
                items.push(item);
                at = next;
            },
            Err(error) => {
                return (Err(error), next);
            },
        }
    }
}

/// Decodes the entries of a dictionary from `pos`, just after its `d`, up
/// to and with its closing `e`.
fn decode_entries(input: &[u8], pos: usize, depth: usize) -> (out: (
    Result<BencodeObj, DecodeError>,
    usize,
))
    requires
        pos <= input@.len(),
    ensures
        agrees(
            out.0,
            out.1,
            parse_entries(input@, pos as int, depth as nat, Seq::<(Seq<u8>, Value)>::empty()),
        ),
    decreases depth, 1int,
{
    let mut entries: Vec<(Vec<u8>, BencodeObj)> = Vec::new();
    let mut at: usize = pos;
    assert(entries_model(entries@) =~= Seq::<(Seq<u8>, Value)>::empty());
    loop
        invariant
            pos <= at <= input@.len(),
            unique_keys(entries_model(entries@)),
            parse_entries(input@, at as int, depth as nat, entries_model(entries@))
                == parse_entries(
                input@,
                pos as int,
                depth as nat,
                Seq::<(Seq<u8>, Value)>::empty(),
            ),
        decreases input@.len() - at,
    {
        if at < input.len() && input[at] == END {
            proof {
                lemma_dict_view(entries);
            }
            return (Ok(BencodeObj::Dict(entries)), at + 1);
        }
        let (key, after_key) = decode_value(input, at, depth);
        proof {
            lemma_parse_bounds(input@, at as int, depth as nat);
        }
        match key {
            Ok(BencodeObj::Str(name)) => {
                let (result, next) = decode_value(input, after_key, depth);
                match result {
                    Ok(value) => {
                        proof {
                            lemma_parse_bounds(input@, after_key as int, depth as nat);
                        }
                        dict_insert(&mut entries, name, value);
                        at = next;
                    },
                    Err(error) => {
                        return (Err(error), next);
                    },
                }
            },
            Ok(_) => {
                return (Err(DecodeError::InvalidKeyType), at);
            },
            Err(error) => {
                return (Err(error), after_key);
            },
        }
    }
}

/// Decodes the first value of `encoded`, with at most `max_depth` lists and
/// dictionaries nested inside one another, and returns with it the input
/// that was not read.
///
/// The result is what the grammar gives, see [`parse`]: the value, or the
/// first error met. After a value the unread input begins just behind the
/// value's last byte. After a failure it begins at the byte at which the
/// failure was noticed, at the first byte of a number that is invalid as a
/// whole, or at the end of an input that is truncated.
pub fn decode_with_depth(encoded: &[u8], max_depth: usize) -> (out: (
    Result<BencodeObj, DecodeError>,
    &[u8],
))
    ensures
        out.1@ == encoded@.subrange(
            parse(encoded@, max_depth as nat).next,
            encoded@.len() as int,
        ),
        match out.0 {
            Ok(obj) => {
                &&& parse(encoded@, max_depth as nat).result == Ok::<Value, DecodeError>(obj@)
                &&& obj.wf()
                &&& obj@.within_depth(max_depth as nat)
            },
            Err(error) => parse(encoded@, max_depth as nat).result == Err::<Value, DecodeError>(
                error,
            ),
        },
{
    if encoded.len() == 0 {
        return (Err(DecodeError::EmptyInput), encoded);
    }
    let (result, next) = decode_value(encoded, 0, max_depth);
    proof {
        lemma_parse_bounds(encoded@, 0, max_depth as nat);
    }
    (result, slice_subrange(encoded, next, encoded.len()))
}

/// Decodes the first value of `encoded` under the default depth limit,
/// [`DEFAULT_MAX_DEPTH`], and returns with it the input that was not read.
/// See [`decode_with_depth`].
pub fn decode(encoded: &[u8]) -> (out: (Result<BencodeObj, DecodeError>, &[u8]))
    ensures
        out.1@ == encoded@.subrange(
            parse(encoded@, DEFAULT_MAX_DEPTH as nat).next,
            encoded@.len() as int,
        ),
        match out.0 {
            Ok(obj) => {
                &&& parse(encoded@, DEFAULT_MAX_DEPTH as nat).result == Ok::<Value, DecodeError>(
                    obj@,
                )
                &&& obj.wf()
                &&& obj@.within_depth(DEFAULT_MAX_DEPTH as nat)
            },
            Err(error) => parse(encoded@, DEFAULT_MAX_DEPTH as nat).result == Err::<
                Value,
                DecodeError,
            >(error),
        },
{
    decode_with_depth(encoded, DEFAULT_MAX_DEPTH)
}

} // verus!
