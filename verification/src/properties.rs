//! What holds of every decoding: where the unread input begins, and that a
//! decoded value is well-formed and within the depth limit.

use crate::dict::{lemma_upsert, unique_keys, upsert};
use crate::grammar::{
    decimal, digits_end, is_digit, parse, parse_entries, parse_integer, parse_items, parse_string,
    parse_value, Parsed, DICT_START, END, INTEGER_START, LIST_START, MINUS,
};
use crate::value::Value;
use vstd::prelude::*;

verus! {

/// A run of digits lies within the input, holds digits only, and ends at
/// the first byte that is no digit.
pub proof fn lemma_digits_end(s: Seq<u8>, from: int)
    requires
        0 <= from <= s.len(),
    ensures
        from <= digits_end(s, from) <= s.len(),
        forall|i: int| from <= i < digits_end(s, from) ==> is_digit(#[trigger] s[i]),
        digits_end(s, from) < s.len() ==> !is_digit(s[digits_end(s, from)]),
    decreases s.len() - from,
{
    if from < s.len() && is_digit(s[from]) {
        lemma_digits_end(s, from + 1);
    }
}

/// What holds of an outcome of decoding from `pos` under the limit `depth`:
/// a value ends after it began, is well-formed and within the limit; after
/// a failure the unread input begins at or after `pos`. Either way it
/// begins within the input.
pub open spec fn sound_outcome(s: Seq<u8>, pos: int, depth: nat, outcome: Parsed) -> bool {
    match outcome.result {
        Ok(value) => {
            &&& pos < outcome.next <= s.len()
            &&& value.wf()
            &&& value.within_depth(depth)
        },
        Err(_) => pos <= outcome.next <= s.len(),
    }
}

/// Every entry of `entries` holds a well-formed value within `depth`.
pub open spec fn sound_entries(entries: Seq<(Seq<u8>, Value)>, depth: nat) -> bool {
    forall|i: int|
        0 <= i < entries.len() ==> (#[trigger] entries[i]).1.wf() && entries[i].1.within_depth(
            depth,
        )
}

/// Every value of `items` is well-formed and within `depth`.
pub open spec fn sound_items(items: Seq<Value>, depth: nat) -> bool {
    forall|i: int|
        0 <= i < items.len() ==> (#[trigger] items[i]).wf() && items[i].within_depth(depth)
}

/// An integer that was decoded ends after its `i`; a failure leaves the
/// unread input at or after it.
proof fn lemma_parse_integer(s: Seq<u8>, pos: int, depth: nat)
    requires
        0 <= pos < s.len(),
    ensures
        sound_outcome(s, pos, depth, parse_integer(s, pos)),
{
    let start = pos + 1;
    let negative = start < s.len() && s[start] == MINUS;
    let first = if negative {
        start + 1
    } else {
        start
    };
    lemma_digits_end(s, first);
}

/// A byte string that was decoded ends after its first byte; a failure
/// leaves the unread input at or after it.
proof fn lemma_parse_string(s: Seq<u8>, pos: int, depth: nat)
    requires
        0 <= pos < s.len(),
        is_digit(s[pos]),
    ensures
        sound_outcome(s, pos, depth, parse_string(s, pos)),
{
    lemma_digits_end(s, pos);
}

/// Decoding a value consumes at least one byte and never more than the
/// input holds; the value is well-formed and within the depth limit. After
/// a failure the unread input begins at or after the value's first byte.
pub proof fn lemma_parse_bounds(s: Seq<u8>, pos: int, depth: nat)
    requires
        0 <= pos <= s.len(),
    ensures
        sound_outcome(s, pos, depth, parse_value(s, pos, depth)),
    decreases depth, s.len() - pos, 0int,
{
    if pos >= s.len() {
    } else if is_digit(s[pos]) {
        lemma_parse_string(s, pos, depth);
    } else if s[pos] == INTEGER_START {
        lemma_parse_integer(s, pos, depth);
    } else if s[pos] == LIST_START {
        if depth > 0 {
            lemma_parse_items_bounds(s, pos + 1, (depth - 1) as nat, Seq::empty());
        }
    } else if s[pos] == DICT_START {
        if depth > 0 {
            lemma_parse_entries_bounds(s, pos + 1, (depth - 1) as nat, Seq::empty());
        }
    }
}

/// The rest of a list ends after `pos`, within the input, and the list is
/// well-formed and within the limit if the items before it are.
pub proof fn lemma_parse_items_bounds(s: Seq<u8>, pos: int, depth: nat, done: Seq<Value>)
    requires
        0 <= pos <= s.len(),
        sound_items(done, depth),
    ensures
        sound_outcome(s, pos, depth + 1, parse_items(s, pos, depth, done)),
    decreases depth, s.len() - pos, 1int,
{
    if pos < s.len() && s[pos] == END {
    } else {
        lemma_parse_bounds(s, pos, depth);
        let item = parse_value(s, pos, depth);
        if let Ok(value) = item.result {
            lemma_parse_items_bounds(s, item.next, depth, done.push(value));
        }
    }
}

/// The rest of a dictionary ends after `pos`, within the input, and the
/// dictionary is well-formed and within the limit if the entries before it
/// are.
pub proof fn lemma_parse_entries_bounds(
    s: Seq<u8>,
    pos: int,
    depth: nat,
    done: Seq<(Seq<u8>, Value)>,
)
    requires
        0 <= pos <= s.len(),
        unique_keys(done),
        sound_entries(done, depth),
    ensures
        sound_outcome(s, pos, depth + 1, parse_entries(s, pos, depth, done)),
    decreases depth, s.len() - pos, 1int,
{
    if pos < s.len() && s[pos] == END {
    } else {
        lemma_parse_bounds(s, pos, depth);
        let key = parse_value(s, pos, depth);
        if let Ok(Value::Str(name)) = key.result {
            lemma_parse_bounds(s, key.next, depth);
            let item = parse_value(s, key.next, depth);
            if let Ok(value) = item.result {
                lemma_upsert(done, name, value);
                lemma_parse_entries_bounds(s, item.next, depth, upsert(done, name, value));
            }
        }
    }
}

/// Whatever the input, the unread rest begins within it; a decoded value is
/// well-formed, within the depth limit, and took at least one byte.
pub proof fn lemma_parse_sound(s: Seq<u8>, depth: nat)
    ensures
        0 <= parse(s, depth).next <= s.len(),
        parse(s, depth).result is Ok ==> sound_outcome(s, 0, depth, parse(s, depth)),
{
    if s.len() > 0 {
        lemma_parse_bounds(s, 0, depth);
    }
}

/// True when `s` and `t` begin with the same `n` bytes.
pub open spec fn same_prefix(s: Seq<u8>, t: Seq<u8>, n: int) -> bool {
    &&& 0 <= n <= s.len()
    &&& n <= t.len()
    &&& forall|i: int| 0 <= i < n ==> s[i] == t[i]
}

/// A run of digits that ends within the first `n` bytes ends at the same
/// place in every input that begins with those bytes.
proof fn lemma_digits_end_local(s: Seq<u8>, t: Seq<u8>, from: int, n: int)
    requires
        same_prefix(s, t, n),
        0 <= from,
        digits_end(s, from) < n,
    ensures
        digits_end(t, from) == digits_end(s, from),
    decreases s.len() - from,
{
    if from < s.len() {
        lemma_digits_end(s, from);
        if is_digit(s[from]) {
            lemma_digits_end_local(s, t, from + 1, n);
        }
    }
}

/// An integer that ends within the first `n` bytes is the same in every
/// input that begins with those bytes.
proof fn lemma_parse_integer_local(s: Seq<u8>, t: Seq<u8>, pos: int, n: int)
    requires
        same_prefix(s, t, n),
        0 <= pos < s.len(),
        parse_integer(s, pos).result is Ok,
        parse_integer(s, pos).next <= n,
    ensures
        parse_integer(t, pos) == parse_integer(s, pos),
{
    let start = pos + 1;
    let negative = start < s.len() && s[start] == MINUS;
    let first = if negative {
        start + 1
    } else {
        start
    };
    lemma_digits_end(s, first);
    lemma_digits_end_local(s, t, first, n);
    let end = digits_end(s, first);
    assert(s.subrange(first, end) =~= t.subrange(first, end));
}

/// A byte string that ends within the first `n` bytes is the same in
/// every input that begins with those bytes.
proof fn lemma_parse_string_local(s: Seq<u8>, t: Seq<u8>, pos: int, n: int)
    requires
        same_prefix(s, t, n),
        0 <= pos < s.len(),
        parse_string(s, pos).result is Ok,
        parse_string(s, pos).next <= n,
    ensures
        parse_string(t, pos) == parse_string(s, pos),
{
    lemma_digits_end(s, pos);
    lemma_digits_end_local(s, t, pos, n);
    let end = digits_end(s, pos);
    assert(s.subrange(pos, end) =~= t.subrange(pos, end));
    let length = decimal(s.subrange(pos, end));
    assert(s.subrange(end + 1, end + 1 + length) =~= t.subrange(end + 1, end + 1 + length));
}

/// A value that ends within the first `n` bytes is the same in every
/// input that begins with those bytes.
proof fn lemma_parse_value_local(s: Seq<u8>, t: Seq<u8>, pos: int, depth: nat, n: int)
    requires
        same_prefix(s, t, n),
        0 <= pos <= s.len(),
        parse_value(s, pos, depth).result is Ok,
        parse_value(s, pos, depth).next <= n,
    ensures
        parse_value(t, pos, depth) == parse_value(s, pos, depth),
    decreases depth, s.len() - pos, 0int,
{
    lemma_parse_bounds(s, pos, depth);
    if is_digit(s[pos]) {
        lemma_parse_string_local(s, t, pos, n);
    } else if s[pos] == INTEGER_START {
        lemma_parse_integer_local(s, t, pos, n);
    } else if s[pos] == LIST_START {
        lemma_parse_items_local(s, t, pos + 1, (depth - 1) as nat, Seq::empty(), n);
    } else if s[pos] == DICT_START {
        lemma_parse_entries_local(s, t, pos + 1, (depth - 1) as nat, Seq::empty(), n);
    }
}

/// The rest of a list that ends within the first `n` bytes is the same in
/// every input that begins with those bytes.
proof fn lemma_parse_items_local(
    s: Seq<u8>,
    t: Seq<u8>,
    pos: int,
    depth: nat,
    done: Seq<Value>,
    n: int,
)
    requires
        same_prefix(s, t, n),
        0 <= pos <= s.len(),
        sound_items(done, depth),
        parse_items(s, pos, depth, done).result is Ok,
        parse_items(s, pos, depth, done).next <= n,
    ensures
        parse_items(t, pos, depth, done) == parse_items(s, pos, depth, done),
    decreases depth, s.len() - pos, 1int,
{
    if pos < s.len() && s[pos] == END {
    } else {
        lemma_parse_bounds(s, pos, depth);
        let item = parse_value(s, pos, depth);
        let value = item.result->Ok_0;
        lemma_parse_items_bounds(s, item.next, depth, done.push(value));
        lemma_parse_value_local(s, t, pos, depth, n);
        lemma_parse_items_local(s, t, item.next, depth, done.push(value), n);
    }
}

/// The rest of a dictionary that ends within the first `n` bytes is the
/// same in every input that begins with those bytes.
proof fn lemma_parse_entries_local(
    s: Seq<u8>,
    t: Seq<u8>,
    pos: int,
    depth: nat,
    done: Seq<(Seq<u8>, Value)>,
    n: int,
)
    requires
        same_prefix(s, t, n),
        0 <= pos <= s.len(),
        unique_keys(done),
        sound_entries(done, depth),
        parse_entries(s, pos, depth, done).result is Ok,
        parse_entries(s, pos, depth, done).next <= n,
    ensures
        parse_entries(t, pos, depth, done) == parse_entries(s, pos, depth, done),
    decreases depth, s.len() - pos, 1int,
{
    if pos < s.len() && s[pos] == END {
    } else {
        lemma_parse_bounds(s, pos, depth);
        let key = parse_value(s, pos, depth);
        let name = key.result->Ok_0->Str_0;
        lemma_parse_bounds(s, key.next, depth);
        let item = parse_value(s, key.next, depth);
        let value = item.result->Ok_0;
        lemma_upsert(done, name, value);
        lemma_parse_entries_bounds(s, item.next, depth, upsert(done, name, value));
        lemma_parse_value_local(s, t, pos, depth, n);
        lemma_parse_value_local(s, t, key.next, depth, n);
        lemma_parse_entries_local(s, t, item.next, depth, upsert(done, name, value), n);
    }
}

/// Decoding reads no further than the value: where an input decodes to a
/// value, every input that begins with the bytes up to the unread rest
/// decodes to the same value and leaves its rest unread from the same
/// place. So the unread input begins just behind the value's last byte.
pub proof fn lemma_parse_local(s: Seq<u8>, t: Seq<u8>, depth: nat)
    requires
        parse(s, depth).result is Ok,
        same_prefix(s, t, parse(s, depth).next),
    ensures
        parse(t, depth) == parse(s, depth),
{
    lemma_parse_bounds(s, 0, depth);
    lemma_parse_value_local(s, t, 0, depth, parse(s, depth).next);
}

/// The bytes of a decoded value, taken alone, decode to the same value
/// and leave nothing unread.
pub proof fn lemma_parse_own_bytes(s: Seq<u8>, depth: nat)
    requires
        parse(s, depth).result is Ok,
    ensures
        0 < parse(s, depth).next <= s.len(),
        parse(s.take(parse(s, depth).next), depth) == parse(s, depth),
        parse(s, depth).next == s.take(parse(s, depth).next).len(),
{
    lemma_parse_bounds(s, 0, depth);
    lemma_parse_local(s, s.take(parse(s, depth).next), depth);
}

} // verus!
