//! The encoding of a value, and the law that decoding undoes it.

use crate::grammar::{
    decimal, digits_end, is_digit, parse, parse_entries, parse_integer, parse_items, parse_string,
    parse_value, parsed, COLON, DICT_START, DIGIT_ZERO, END, INTEGER_START, LIST_START, MINUS,
};
use crate::dict::{has_key, unique_keys, upsert};
use crate::value::{
    entries_model, items_model, lemma_dict_view, lemma_list_view, BencodeObj, Value,
};
use vstd::prelude::*;

verus! {

/// The decimal digits of `n`, without leading zeros.
pub open spec fn nat_text(n: nat) -> Seq<u8>
    decreases n,
{
    if n < 10 {
        seq![(DIGIT_ZERO + n) as u8]
    } else {
        nat_text(n / 10).push((DIGIT_ZERO + n % 10) as u8)
    }
}

/// The decimal notation of `n`: a `-` in front of a negative number, then
/// the digits of its magnitude.
pub open spec fn int_text(n: int) -> Seq<u8> {
    if n < 0 {
        seq![MINUS] + nat_text((-n) as nat)
    } else {
        nat_text(n as nat)
    }
}

/// The encoding of a byte string: its length in decimal, a `:`, and the
/// bytes as they are.
pub open spec fn string_encoding(bytes: Seq<u8>) -> Seq<u8> {
    nat_text(bytes.len()) + seq![COLON] + bytes
}

/// The Bencode encoding of a value: `i<number>e` for an integer,
/// `<length>:<bytes>` for a byte string, `l<items>e` for a list and
/// `d<key><value>...e` for a dictionary, with its entries in the order in
/// which the dictionary holds them.
pub open spec fn encoding(value: Value) -> Seq<u8>
    decreases value, 0nat,
{
    match value {
        Value::Num(n) => seq![INTEGER_START] + int_text(n) + seq![END],
        Value::Str(bytes) => string_encoding(bytes),
        Value::List(items) => seq![LIST_START] + items_encoding(items, 0) + seq![END],
        Value::Dict(entries) => seq![DICT_START] + entries_encoding(entries, 0) + seq![END],
    }
}

/// The encodings of the values of `items` from index `from` on, one after
/// another.
pub open spec fn items_encoding(items: Seq<Value>, from: nat) -> Seq<u8>
    decreases items, items.len() - from,
{
    if from >= items.len() {
        Seq::empty()
    } else {
        encoding(items[from as int]) + items_encoding(items, from + 1)
    }
}

/// The encodings of the entries from index `from` on, one after another:
/// each key as a byte string, then its value.
pub open spec fn entries_encoding(entries: Seq<(Seq<u8>, Value)>, from: nat) -> Seq<u8>
    decreases entries, entries.len() - from,
{
    if from >= entries.len() {
        Seq::empty()
    } else {
        string_encoding(entries[from as int].0) + encoding(entries[from as int].1)
            + entries_encoding(entries, from + 1)
    }
}

impl Value {
    /// True when the value can be held in memory: every integer fits in 64
    /// bits, and the length of every byte string and key fits in `usize`.
    pub open spec fn representable(self) -> bool
        decreases self,
    {
        match self {
            Value::Num(n) => i64::MIN <= n <= i64::MAX,
            Value::Str(bytes) => bytes.len() <= usize::MAX,
            Value::List(items) => forall|i: int|
                0 <= i < items.len() ==> (#[trigger] items[i]).representable(),
            Value::Dict(entries) => forall|i: int|
                0 <= i < entries.len() ==> (#[trigger] entries[i]).0.len() <= usize::MAX
                    && entries[i].1.representable(),
        }
    }
}

/// True when the bytes `text` stand in `s` from index `pos` on.
pub open spec fn holds_at(s: Seq<u8>, pos: int, text: Seq<u8>) -> bool {
    &&& 0 <= pos
    &&& pos + text.len() <= s.len()
    &&& s.subrange(pos, pos + text.len()) == text
}

/// Where `a + b` stands in `s`, `a` stands there and `b` follows it.
proof fn lemma_holds_at_split(s: Seq<u8>, pos: int, a: Seq<u8>, b: Seq<u8>)
    requires
        holds_at(s, pos, a + b),
    ensures
        holds_at(s, pos, a),
        holds_at(s, pos + a.len(), b),
{
    let whole = s.subrange(pos, pos + (a + b).len());
    assert(s.subrange(pos, pos + a.len()) =~= whole.subrange(0, a.len() as int));
    assert((a + b).subrange(0, a.len() as int) =~= a);
    assert(s.subrange(pos + a.len(), pos + a.len() + b.len()) =~= whole.subrange(
        a.len() as int,
        (a + b).len() as int,
    ));
    assert((a + b).subrange(a.len() as int, (a + b).len() as int) =~= b);
}

/// Where `text` stands in `s`, each of its bytes is the byte of `s` at its
/// place.
proof fn lemma_holds_at_index(s: Seq<u8>, pos: int, text: Seq<u8>)
    requires
        holds_at(s, pos, text),
    ensures
        forall|i: int| 0 <= i < text.len() ==> s[pos + i] == #[trigger] text[i],
{
    assert forall|i: int| 0 <= i < text.len() implies s[pos + i] == #[trigger] text[i] by {
        assert(s.subrange(pos, pos + text.len())[i] == s[pos + i]);
    }
}

/// The digits of a number are at least one, are digits, and denote the
/// number.
pub proof fn lemma_nat_text(n: nat)
    ensures
        nat_text(n).len() >= 1,
        forall|i: int| 0 <= i < nat_text(n).len() ==> is_digit(#[trigger] nat_text(n)[i]),
        decimal(nat_text(n)) == n,
    decreases n,
{
    if n < 10 {
        assert(nat_text(n).drop_last() =~= Seq::<u8>::empty());
        assert(decimal(nat_text(n).drop_last()) == 0);
    } else {
        lemma_nat_text(n / 10);
        assert(nat_text(n).drop_last() =~= nat_text(n / 10));
    }
}

/// A run of digits that ends at `to`, where the input ends or a byte
/// follows that is no digit, is the run that `digits_end` finds.
proof fn lemma_digit_run(s: Seq<u8>, from: int, to: int)
    requires
        0 <= from <= to <= s.len(),
        forall|i: int| from <= i < to ==> is_digit(#[trigger] s[i]),
        to == s.len() || !is_digit(s[to]),
    ensures
        digits_end(s, from) == to,
    decreases to - from,
{
    if from < to {
        assert(is_digit(s[from]));
        lemma_digit_run(s, from + 1, to);
    }
}

/// Decoding the encoding of a byte string gives the byte string.
proof fn lemma_parse_string_encoding(s: Seq<u8>, pos: int, bytes: Seq<u8>)
    requires
        bytes.len() <= usize::MAX,
        holds_at(s, pos, string_encoding(bytes)),
    ensures
        parse_string(s, pos) == parsed(
            Value::Str(bytes),
            pos + string_encoding(bytes).len(),
        ),
        is_digit(s[pos]),
{
    let length = nat_text(bytes.len());
    let run = length.len() as int;
    lemma_nat_text(bytes.len());
    lemma_holds_at_split(s, pos, length + seq![COLON], bytes);
    lemma_holds_at_split(s, pos, length, seq![COLON]);
    lemma_holds_at_index(s, pos, length);
    lemma_holds_at_index(s, pos + run, seq![COLON]);
    assert(s[pos + run] == seq![COLON][0]);
    assert forall|i: int| pos <= i < pos + run implies is_digit(#[trigger] s[i]) by {
        assert(s[pos + (i - pos)] == length[i - pos]);
    }
    lemma_digit_run(s, pos, pos + run);
    assert(s[pos + 0] == length[0]);
}

/// Decoding the encoding of an integer of 64 bits gives the integer.
proof fn lemma_parse_integer_encoding(s: Seq<u8>, pos: int, n: int)
    requires
        i64::MIN <= n <= i64::MAX,
        holds_at(s, pos, seq![INTEGER_START] + int_text(n) + seq![END]),
    ensures
        parse_integer(s, pos) == parsed(
            Value::Num(n),
            pos + (seq![INTEGER_START] + int_text(n) + seq![END]).len(),
        ),
        s[pos] == INTEGER_START,
{
    let number = int_text(n);
    lemma_holds_at_split(s, pos, seq![INTEGER_START] + number, seq![END]);
    lemma_holds_at_split(s, pos, seq![INTEGER_START], number);
    lemma_holds_at_index(s, pos, seq![INTEGER_START]);
    assert(s[pos + 0] == seq![INTEGER_START][0]);
    lemma_holds_at_index(s, pos + 1, number);
    lemma_holds_at_index(s, pos + 1 + number.len(), seq![END]);
    assert(s[pos + 1 + number.len() + 0] == seq![END][0]);
    let magnitude: nat = if n < 0 {
        (-n) as nat
    } else {
        n as nat
    };
    let digits = nat_text(magnitude);
    lemma_nat_text(magnitude);
    let first = if n < 0 {
        pos + 2
    } else {
        pos + 1
    };
    assert(s[pos + 1 + 0] == number[0]);
    if n < 0 {
        assert(number[0] == MINUS);
        assert forall|i: int| 0 <= i < digits.len() implies s[first + i] == #[trigger] digits[i] by {
            assert(s[pos + 1 + (i + 1)] == number[i + 1]);
        }
    } else {
        assert(number[0] == digits[0]);
        assert(is_digit(digits[0]));
        assert forall|i: int| 0 <= i < digits.len() implies s[first + i] == #[trigger] digits[i] by {
            assert(s[pos + 1 + i] == number[i]);
        }
    }
    let end = first + digits.len();
    assert(end == pos + 1 + number.len());
    assert forall|i: int| first <= i < end implies is_digit(#[trigger] s[i]) by {
        assert(s[first + (i - first)] == digits[i - first]);
    }
    lemma_digit_run(s, first, end);
    assert(s.subrange(first, end) =~= digits);
}

/// Decoding the encoding of a value gives the value and leaves what
/// follows the encoding unread: for every well-formed value that can be
/// held in memory and is within the depth limit, wherever its encoding
/// stands in the input.
pub proof fn lemma_parse_encoding(s: Seq<u8>, pos: int, depth: nat, value: Value)
    requires
        value.wf(),
        value.within_depth(depth),
        value.representable(),
        holds_at(s, pos, encoding(value)),
    ensures
        parse_value(s, pos, depth) == parsed(value, pos + encoding(value).len()),
        encoding(value).len() > 0,
        s[pos] != END,
    decreases value, 0nat,
{
    match value {
        Value::Num(n) => {
            lemma_parse_integer_encoding(s, pos, n);
        },
        Value::Str(bytes) => {
            lemma_parse_string_encoding(s, pos, bytes);
        },
        Value::List(items) => {
            let body = items_encoding(items, 0);
            assert(encoding(value) =~= seq![LIST_START] + (body + seq![END]));
            lemma_holds_at_split(s, pos, seq![LIST_START], body + seq![END]);
            lemma_holds_at_index(s, pos, seq![LIST_START]);
            assert(s[pos + 0] == seq![LIST_START][0]);
            assert forall|i: int| 0 <= i < items.len() implies (#[trigger] items[i]).wf()
                && items[i].within_depth((depth - 1) as nat) && items[i].representable() by {}
            lemma_parse_items_encoding(s, pos + 1, (depth - 1) as nat, items, 0);
            assert(items.take(0) =~= Seq::<Value>::empty());
        },
        Value::Dict(entries) => {
            let body = entries_encoding(entries, 0);
            assert(encoding(value) =~= seq![DICT_START] + (body + seq![END]));
            lemma_holds_at_split(s, pos, seq![DICT_START], body + seq![END]);
            lemma_holds_at_index(s, pos, seq![DICT_START]);
            assert(s[pos + 0] == seq![DICT_START][0]);
            assert forall|i: int| 0 <= i < entries.len() implies (#[trigger] entries[i]).1.wf()
                && entries[i].1.within_depth((depth - 1) as nat) && entries[i].1.representable()
                && entries[i].0.len() <= usize::MAX by {}
            lemma_parse_entries_encoding(s, pos + 1, (depth - 1) as nat, entries, 0);
            assert(entries.take(0) =~= Seq::<(Seq<u8>, Value)>::empty());
        },
    }
}

/// Decoding the encodings of the items of a list from index `from` on,
/// after the items before them, gives the whole list.
proof fn lemma_parse_items_encoding(s: Seq<u8>, pos: int, depth: nat, items: Seq<Value>, from: nat)
    requires
        from <= items.len(),
        forall|i: int|
            0 <= i < items.len() ==> (#[trigger] items[i]).wf() && items[i].within_depth(depth)
                && items[i].representable(),
        holds_at(s, pos, items_encoding(items, from) + seq![END]),
    ensures
        parse_items(s, pos, depth, items.take(from as int)) == parsed(
            Value::List(items),
            pos + items_encoding(items, from).len() + 1,
        ),
    decreases items, items.len() - from,
{
    if from == items.len() {
        lemma_holds_at_index(s, pos, items_encoding(items, from) + seq![END]);
        assert(s[pos + 0] == (items_encoding(items, from) + seq![END])[0]);
        assert(items.take(from as int) =~= items);
    } else {
        let item = items[from as int];
        let head = encoding(item);
        let tail = items_encoding(items, from + 1);
        assert(items_encoding(items, from) + seq![END] =~= head + (tail + seq![END]));
        lemma_holds_at_split(s, pos, head, tail + seq![END]);
        assert(item.wf() && item.within_depth(depth) && item.representable());
        lemma_parse_encoding(s, pos, depth, item);
        lemma_parse_items_encoding(s, pos + head.len(), depth, items, from + 1);
        assert(items.take(from as int).push(item) =~= items.take((from + 1) as int));
    }
}

/// Decoding the encodings of the entries of a dictionary from index `from`
/// on, after the entries before them, gives the whole dictionary.
proof fn lemma_parse_entries_encoding(
    s: Seq<u8>,
    pos: int,
    depth: nat,
    entries: Seq<(Seq<u8>, Value)>,
    from: nat,
)
    requires
        from <= entries.len(),
        unique_keys(entries),
        forall|i: int|
            0 <= i < entries.len() ==> (#[trigger] entries[i]).1.wf() && entries[i].1.within_depth(
                depth,
            ) && entries[i].1.representable() && entries[i].0.len() <= usize::MAX,
        holds_at(s, pos, entries_encoding(entries, from) + seq![END]),
    ensures
        parse_entries(s, pos, depth, entries.take(from as int)) == parsed(
            Value::Dict(entries),
            pos + entries_encoding(entries, from).len() + 1,
        ),
    decreases entries, entries.len() - from,
{
    if from == entries.len() {
        lemma_holds_at_index(s, pos, entries_encoding(entries, from) + seq![END]);
        assert(s[pos + 0] == (entries_encoding(entries, from) + seq![END])[0]);
        assert(entries.take(from as int) =~= entries);
    } else {
        let entry = entries[from as int];
        let key = string_encoding(entry.0);
        let head = encoding(entry.1);
        let tail = entries_encoding(entries, from + 1);
        assert(entries_encoding(entries, from) + seq![END] =~= key + (head + (tail + seq![END])));
        lemma_holds_at_split(s, pos, key, head + (tail + seq![END]));
        lemma_holds_at_split(s, pos + key.len(), head, tail + seq![END]);
        assert(entry.1.wf() && entry.1.within_depth(depth) && entry.1.representable());
        lemma_parse_string_encoding(s, pos, entry.0);
        assert(parse_value(s, pos, depth) == parsed(Value::Str(entry.0), pos + key.len()));
        lemma_parse_encoding(s, pos + key.len(), depth, entry.1);
        lemma_parse_entries_encoding(s, pos + key.len() + head.len(), depth, entries, from + 1);
        let done = entries.take(from as int);
        assert(!has_key(done, entry.0)) by {
            if has_key(done, entry.0) {
                let k = choose|k: int| 0 <= k < done.len() && (#[trigger] done[k]).0 == entry.0;
                assert(entries[k].0 != entries[from as int].0);
            }
        }
        assert(upsert(done, entry.0, entry.1) =~= entries.take((from + 1) as int));
    }
}

/// Every value in memory can be held in memory.
pub proof fn lemma_representable(obj: BencodeObj)
    ensures
        obj@.representable(),
    decreases obj,
{
    match obj {
        BencodeObj::Num(n) => {},
        BencodeObj::Str(bytes) => {
            assert(bytes@.len() == bytes.len());
        },
        BencodeObj::List(items) => {
            lemma_list_view(items);
            assert forall|i: int| 0 <= i < items@.len() implies (
            #[trigger] items_model(items@)[i]).representable() by {
                assert(items[i] == items@[i]);
                lemma_representable(items[i]);
            }
        },
        BencodeObj::Dict(entries) => {
            lemma_dict_view(entries);
            assert forall|i: int| 0 <= i < entries@.len() implies (
            #[trigger] entries_model(entries@)[i]).1.representable()
                && entries_model(entries@)[i].0.len() <= usize::MAX by {
                assert(entries[i] == entries@[i]);
                assert(entries[i].0@.len() == entries[i].0.len());
                lemma_representable(entries[i].1);
            }
        },
    }
}

/// Decoding undoes encoding: the encoding of a well-formed value within
/// the depth limit, with any bytes after it, decodes to that value, and
/// the unread input is what stands after the encoding.
pub proof fn lemma_decode_encoding(obj: BencodeObj, rest: Seq<u8>, max_depth: nat)
    requires
        obj.wf(),
        obj@.within_depth(max_depth),
    ensures
        parse(encoding(obj@) + rest, max_depth) == parsed(obj@, encoding(obj@).len() as int),
        (encoding(obj@) + rest).subrange(
            encoding(obj@).len() as int,
            (encoding(obj@) + rest).len() as int,
        ) == rest,
{
    let text = encoding(obj@);
    let s = text + rest;
    lemma_representable(obj);
    assert(s.subrange(0, text.len() as int) =~= text);
    lemma_parse_encoding(s, 0, max_depth, obj@);
    assert(s.subrange(text.len() as int, s.len() as int) =~= rest);
}

} // verus!
