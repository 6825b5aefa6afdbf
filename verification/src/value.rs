//! The decoded value tree and its mathematical model.

use crate::dict::unique_keys;
use vstd::prelude::*;

verus! {

/// The mathematical model of a Bencode value.
///
/// A dictionary is modelled by its entries in the order in which they are
/// stored; [`unique_keys`] says that no key occurs twice among them.
pub ghost enum Value {
    Num(int),
    Str(Seq<u8>),
    List(Seq<Value>),
    Dict(Seq<(Seq<u8>, Value)>),
}

/// A decoded Bencode value. Its model, [`Value`], is what the contracts of
/// this library speak of.
#[derive(Debug, PartialEq, Eq)]
pub enum BencodeObj {
    /// A signed integer.
    Num(i64),
    /// An arbitrary byte string.
    Str(Vec<u8>),
    /// An ordered sequence of values.
    List(Vec<BencodeObj>),
    /// A dictionary, held as its entries; a well-formed dictionary holds
    /// each key once.
    Dict(Vec<(Vec<u8>, BencodeObj)>),
}

impl View for BencodeObj {
    type V = Value;

    open spec fn view(&self) -> Value
        decreases self, 0nat,
    {
        match self {
            BencodeObj::Num(n) => Value::Num(*n as int),
            BencodeObj::Str(b) => Value::Str(b@),
            BencodeObj::List(l) => Value::List(first_items(l, l.len() as nat)),
            BencodeObj::Dict(d) => Value::Dict(first_entries(d, d.len() as nat)),
        }
    }
}

/// The models of the first `n` values of `items`, in their order.
pub open spec fn first_items(items: &Vec<BencodeObj>, n: nat) -> Seq<Value>
    decreases items, n,
{
    if n == 0 || n > items.len() {
        Seq::empty()
    } else {
        first_items(items, (n - 1) as nat).push(items[n - 1]@)
    }
}

/// The models of the first `n` entries of `entries`, in their order: each
/// key's bytes with the model of its value.
pub open spec fn first_entries(entries: &Vec<(Vec<u8>, BencodeObj)>, n: nat) -> Seq<
    (Seq<u8>, Value),
>
    decreases entries, n,
{
    if n == 0 || n > entries.len() {
        Seq::empty()
    } else {
        first_entries(entries, (n - 1) as nat).push((entries[n - 1].0@, entries[n - 1].1@))
    }
}

/// The models of the values of `items`, in their order.
pub open spec fn items_model(items: Seq<BencodeObj>) -> Seq<Value> {
    Seq::new(items.len(), |i: int| items[i]@)
}

/// The models of `entries`, in their order: each key's bytes with the model
/// of its value.
pub open spec fn entries_model(entries: Seq<(Vec<u8>, BencodeObj)>) -> Seq<(Seq<u8>, Value)> {
    Seq::new(entries.len(), |i: int| (entries[i].0@, entries[i].1@))
}

/// The models of the first `n` items, built one by one, are the models of
/// the list cut off after `n` items.
proof fn lemma_first_items(items: &Vec<BencodeObj>, n: nat)
    requires
        n <= items.len(),
    ensures
        first_items(items, n) == items_model(items@.take(n as int)),
    decreases n,
{
    if n > 0 {
        lemma_first_items(items, (n - 1) as nat);
        let shorter = items_model(items@.take(n - 1));
        assert(items[n - 1] == items@[n - 1]);
        assert(shorter.push(items@[n - 1]@) =~= items_model(items@.take(n as int)));
    } else {
        assert(first_items(items, n) =~= items_model(items@.take(n as int)));
    }
}

/// The models of the first `n` entries, built one by one, are the models
/// of the entries cut off after `n`.
proof fn lemma_first_entries(entries: &Vec<(Vec<u8>, BencodeObj)>, n: nat)
    requires
        n <= entries.len(),
    ensures
        first_entries(entries, n) == entries_model(entries@.take(n as int)),
    decreases n,
{
    if n > 0 {
        lemma_first_entries(entries, (n - 1) as nat);
        let shorter = entries_model(entries@.take(n - 1));
        let last = entries@[n - 1];
        assert(entries[n - 1] == last);
        assert(shorter.push((last.0@, last.1@)) =~= entries_model(entries@.take(n as int)));
    } else {
        assert(first_entries(entries, n) =~= entries_model(entries@.take(n as int)));
    }
}

/// The model of a list is the list of its items' models.
pub proof fn lemma_list_view(items: Vec<BencodeObj>)
    ensures
        BencodeObj::List(items)@ == Value::List(items_model(items@)),
{
    lemma_first_items(&items, items.len() as nat);
    assert(items@.take(items.len() as int) == items@);
}

/// The model of a dictionary is the dictionary of its entries' models.
pub proof fn lemma_dict_view(entries: Vec<(Vec<u8>, BencodeObj)>)
    ensures
        BencodeObj::Dict(entries)@ == Value::Dict(entries_model(entries@)),
{
    lemma_first_entries(&entries, entries.len() as nat);
    assert(entries@.take(entries.len() as int) == entries@);
}

impl BencodeObj {
    /// Well-formedness: every dictionary in the tree holds each key once.
    pub open spec fn wf(&self) -> bool {
        self@.wf()
    }
}

impl Value {
    /// Well-formedness: every dictionary in the tree holds each key once.
    pub open spec fn wf(self) -> bool
        decreases self,
    {
        match self {
            Value::Num(_) => true,
            Value::Str(_) => true,
            Value::List(items) => forall|i: int| 0 <= i < items.len() ==> (#[trigger] items[i]).wf(),
            Value::Dict(entries) => {
                &&& unique_keys(entries)
                &&& forall|i: int| 0 <= i < entries.len() ==> (#[trigger] entries[i]).1.wf()
            },
        }
    }

    /// True when no more than `limit` lists and dictionaries are nested
    /// inside one another anywhere in the tree. An integer or a byte
    /// string is within every limit.
    pub open spec fn within_depth(self, limit: nat) -> bool
        decreases self,
    {
        match self {
            Value::Num(_) => true,
            Value::Str(_) => true,
            Value::List(items) => {
                &&& limit > 0
                &&& forall|i: int|
                    0 <= i < items.len() ==> (#[trigger] items[i]).within_depth((limit - 1) as nat)
            },
            Value::Dict(entries) => {
                &&& limit > 0
                &&& forall|i: int|
                    0 <= i < entries.len() ==> (#[trigger] entries[i]).1.within_depth(
                        (limit - 1) as nat,
                    )
            },
        }
    }
}

} // verus!
