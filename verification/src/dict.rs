//! Dictionaries as entries in a fixed order with each key held once:
//! storing under a key and looking a key up.

use crate::value::{entries_model, BencodeObj, Value};
use vstd::prelude::*;

verus! {

/// True when some entry of `entries` is stored under `key`.
pub open spec fn has_key(entries: Seq<(Seq<u8>, Value)>, key: Seq<u8>) -> bool {
    exists|i: int| 0 <= i < entries.len() && (#[trigger] entries[i]).0 == key
}

/// True when no key occurs twice among `entries`.
pub open spec fn unique_keys(entries: Seq<(Seq<u8>, Value)>) -> bool {
    forall|i: int, j: int|
        0 <= i < j < entries.len() ==> (#[trigger] entries[i]).0 != (#[trigger] entries[j]).0
}

/// The entries after `value` has been stored under `key`: a key that is
/// already there keeps its place and gets the new value (the last write
/// wins), a new key goes to the end.
pub open spec fn upsert(entries: Seq<(Seq<u8>, Value)>, key: Seq<u8>, value: Value) -> Seq<
    (Seq<u8>, Value),
> {
    if has_key(entries, key) {
        Seq::new(
            entries.len(),
            |i: int|
                if entries[i].0 == key {
                    (key, value)
                } else {
                    entries[i]
                },
        )
    } else {
        entries.push((key, value))
    }
}

/// The value stored under `key`, if there is one. Among entries with
/// unique keys at most one entry answers.
pub open spec fn lookup(entries: Seq<(Seq<u8>, Value)>, key: Seq<u8>) -> Option<Value> {
    if has_key(entries, key) {
        Some(entries[choose|i: int| 0 <= i < entries.len() && (#[trigger] entries[i]).0 == key].1)
    } else {
        None
    }
}

/// Storing a value under a key keeps the keys unique, keeps the number of
/// entries or adds one, and leaves every entry either as it was or holding
/// the new value under the key.
pub proof fn lemma_upsert(entries: Seq<(Seq<u8>, Value)>, key: Seq<u8>, value: Value)
    requires
        unique_keys(entries),
    ensures
        unique_keys(upsert(entries, key, value)),
        has_key(upsert(entries, key, value), key),
        has_key(entries, key) ==> upsert(entries, key, value).len() == entries.len(),
        !has_key(entries, key) ==> upsert(entries, key, value) == entries.push((key, value)),
        forall|i: int|
            0 <= i < upsert(entries, key, value).len() ==> {
                let e = #[trigger] upsert(entries, key, value)[i];
                if e.0 == key {
                    e.1 == value
                } else {
                    i < entries.len() && e == entries[i]
                }
            },
{
    let after = upsert(entries, key, value);
    if has_key(entries, key) {
        let k = choose|k: int| 0 <= k < entries.len() && (#[trigger] entries[k]).0 == key;
        assert(after[k].0 == key);
        assert forall|i: int, j: int| 0 <= i < j < after.len() implies (#[trigger] after[i]).0 != (
        #[trigger] after[j]).0 by {
            assert(entries[i].0 != entries[j].0);
        }
    } else {
        assert(after[entries.len() as int].0 == key);
        assert forall|i: int, j: int| 0 <= i < j < after.len() implies (#[trigger] after[i]).0 != (
        #[trigger] after[j]).0 by {
            if j < entries.len() {
                assert(entries[i].0 != entries[j].0);
            } else {
                assert(entries[i].0 != key);
            }
        }
    }
}

/// After a value was stored under a key, that key leads to the value, and
/// every other key leads to what it led to before: the last write wins.
pub proof fn lemma_upsert_lookup(
    entries: Seq<(Seq<u8>, Value)>,
    key: Seq<u8>,
    value: Value,
    other: Seq<u8>,
)
    requires
        unique_keys(entries),
    ensures
        lookup(upsert(entries, key, value), key) == Some(value),
        other != key ==> lookup(upsert(entries, key, value), other) == lookup(entries, other),
{
    let after = upsert(entries, key, value);
    lemma_upsert(entries, key, value);
    let k = choose|k: int| 0 <= k < after.len() && (#[trigger] after[k]).0 == key;
    assert(after[k].1 == value);
    if other != key {
        if has_key(entries, other) {
            let j = choose|j: int| 0 <= j < entries.len() && (#[trigger] entries[j]).0 == other;
            assert(after[j] == entries[j]);
            assert(has_key(after, other));
            let i = choose|i: int| 0 <= i < after.len() && (#[trigger] after[i]).0 == other;
            assert(after[i] == entries[i]);
            if i != j {
                if i < j {
                    assert(entries[i].0 != entries[j].0);
                } else {
                    assert(entries[j].0 != entries[i].0);
                }
            }
        } else if has_key(after, other) {
            let i = choose|i: int| 0 <= i < after.len() && (#[trigger] after[i]).0 == other;
            assert(entries[i].0 == other);
        }
    }
}

/// True when `a` and `b` hold the same bytes.
fn same_bytes(a: &[u8], b: &[u8]) -> (same: bool)
    ensures
        same == (a@ == b@),
{
    if a.len() != b.len() {
        return false;
    }
    let mut i: usize = 0;
    while i < a.len()
        invariant
            a@.len() == b@.len(),
            i <= a@.len(),
            forall|j: int| 0 <= j < i ==> a@[j] == b@[j],
        decreases a@.len() - i,
    {
        if a[i] != b[i] {
            return false;
        }
        i = i + 1;
    }
    assert(a@ =~= b@);
    true
}

/// Stores `value` under `key` in the entries of a dictionary: a key that is
/// there already keeps its place and gets the new value, a new key goes to
/// the end. The keys stay unique.
pub fn dict_insert(entries: &mut Vec<(Vec<u8>, BencodeObj)>, key: Vec<u8>, value: BencodeObj)
    requires
        unique_keys(entries_model(old(entries)@)),
    ensures
        entries_model(final(entries)@) == upsert(entries_model(old(entries)@), key@, value@),
        unique_keys(entries_model(final(entries)@)),
{
    let ghost before = entries_model(entries@);
    proof {
        lemma_upsert(before, key@, value@);
    }
    let mut i: usize = 0;
    while i < entries.len()
        invariant
            i <= entries@.len(),
            entries@ == old(entries)@,
            before == entries_model(entries@),
            unique_keys(before),
            unique_keys(upsert(before, key@, value@)),
            forall|j: int| 0 <= j < i ==> (#[trigger] before[j]).0 != key@,
        decreases entries@.len() - i,
    {
        if same_bytes(entries[i].0.as_slice(), key.as_slice()) {
            assert(before[i as int].0 == key@);
            entries.set(i, (key, value));
            assert(entries_model(entries@) =~= upsert(before, key@, value@)) by {
                assert forall|j: int| 0 <= j < before.len() && j != i implies (
                #[trigger] before[j]).0 != key@ by {
                    if j < i {
                    } else {
                        assert(before[i as int].0 != before[j].0);
                    }
                }
            }
            return ;
        }
        i = i + 1;
    }
    entries.push((key, value));
    assert(entries_model(entries@) =~= upsert(before, key@, value@));
}

/// Looks `key` up in the entries of a dictionary that holds each key once:
/// the value stored under it, or nothing where the key is not there.
pub fn dict_get<'a>(entries: &'a Vec<(Vec<u8>, BencodeObj)>, key: &[u8]) -> (found: Option<
    &'a BencodeObj,
>)
    requires
        unique_keys(entries_model(entries@)),
    ensures
        match found {
            Some(value) => lookup(entries_model(entries@), key@) == Some(value@),
            None => lookup(entries_model(entries@), key@) == None::<Value>,
        },
{
    let ghost model = entries_model(entries@);
    let mut i: usize = 0;
    while i < entries.len()
        invariant
            i <= entries@.len(),
            model == entries_model(entries@),
            unique_keys(model),
            forall|j: int| 0 <= j < i ==> (#[trigger] model[j]).0 != key@,
        decreases entries@.len() - i,
    {
        if same_bytes(entries[i].0.as_slice(), key) {
            proof {
                assert(model[i as int].0 == key@);
                let k = choose|k: int| 0 <= k < model.len() && (#[trigger] model[k]).0 == key@;
                if k < i {
                    assert(model[k].0 != model[i as int].0);
                } else if i < k {
                    assert(model[i as int].0 != model[k].0);
                }
            }
            return Some(&entries[i].1);
        }
        i = i + 1;
    }
    None
}

} // verus!
