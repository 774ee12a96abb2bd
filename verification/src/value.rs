//! The mathematical model of bencode values and of their dictionaries.

use vstd::prelude::*;

verus! {

/// A bencode value as mathematics sees it.
///
/// A dictionary is the sequence of its entries in ascending key order.
pub enum Value {
    Bytes(Seq<u8>),
    Int(i64),
    List(Seq<Value>),
    Dict(Seq<(Seq<u8>, Value)>),
}

/// Lexicographic order on byte strings (the order of `Ord` on `[u8]`).
pub open spec fn bytes_lt(a: Seq<u8>, b: Seq<u8>) -> bool
    decreases a.len(),
{
    if a.len() == 0 {
        b.len() > 0
    } else if b.len() == 0 {
        false
    } else if a[0] != b[0] {
        a[0] < b[0]
    } else {
        bytes_lt(a.drop_first(), b.drop_first())
    }
}

/// No byte string is below itself.
pub proof fn lemma_bytes_lt_irreflexive(a: Seq<u8>)
    ensures
        !bytes_lt(a, a),
    decreases a.len(),
{
    if a.len() > 0 {
        lemma_bytes_lt_irreflexive(a.drop_first());
    }
}

/// Of two byte strings exactly one is below the other, or they are equal.
pub proof fn lemma_bytes_lt_trichotomy(a: Seq<u8>, b: Seq<u8>)
    ensures
        a == b || bytes_lt(a, b) || bytes_lt(b, a),
        !(bytes_lt(a, b) && bytes_lt(b, a)),
    decreases a.len(),
{
    if a.len() > 0 && b.len() > 0 && a[0] == b[0] {
        lemma_bytes_lt_trichotomy(a.drop_first(), b.drop_first());
        if a.drop_first() == b.drop_first() {
            assert(a =~= seq![a[0]] + a.drop_first());
            assert(b =~= seq![b[0]] + b.drop_first());
        }
    } else if a.len() == 0 && b.len() == 0 {
        assert(a =~= b);
    }
}

/// The order is transitive.
pub proof fn lemma_bytes_lt_transitive(a: Seq<u8>, b: Seq<u8>, c: Seq<u8>)
    requires
        bytes_lt(a, b),
        bytes_lt(b, c),
    ensures
        bytes_lt(a, c),
    decreases a.len(),
{
    if a.len() > 0 && b.len() > 0 && c.len() > 0 && a[0] == b[0] && b[0] == c[0] {
        lemma_bytes_lt_transitive(a.drop_first(), b.drop_first(), c.drop_first());
    }
}


/// The entries of a dictionary stand in strictly ascending key order.
pub open spec fn keys_sorted(entries: Seq<(Seq<u8>, Value)>) -> bool {
    forall|i: int, j: int| 0 <= i < j < entries.len() ==> bytes_lt(#[trigger] entries[i].0, #[trigger] entries[j].0)
}

/// The value stored under `key`, if any (the first entry with that key).
pub open spec fn dict_lookup(entries: Seq<(Seq<u8>, Value)>, key: Seq<u8>) -> Option<Value>
    decreases entries.len(),
{
    if entries.len() == 0 {
        None
    } else if entries[0].0 == key {
        Some(entries[0].1)
    } else {
        dict_lookup(entries.drop_first(), key)
    }
}

/// The entries after storing `value` under `key`: an entry with that key has
/// its value replaced, otherwise a new entry goes before the first larger key.
pub open spec fn dict_insert(entries: Seq<(Seq<u8>, Value)>, key: Seq<u8>, value: Value) -> Seq<
    (Seq<u8>, Value),
>
    decreases entries.len(),
{
    if entries.len() == 0 {
        seq![(key, value)]
    } else if entries[0].0 == key {
        seq![(key, value)] + entries.drop_first()
    } else if bytes_lt(key, entries[0].0) {
        seq![(key, value)] + entries
    } else {
        seq![entries[0]] + dict_insert(entries.drop_first(), key, value)
    }
}

impl Value {
    /// Every dictionary inside holds its keys in strictly ascending order, and
    /// every byte string is short enough that its length is an `i64`.
    pub open spec fn wf(self) -> bool
        decreases self,
    {
        match self {
            Value::Bytes(b) => b.len() <= i64::MAX,
            Value::Int(_) => true,
            Value::List(items) => forall|i: int| 0 <= i < items.len() ==> (#[trigger] items[i]).wf(),
            Value::Dict(entries) => {
                &&& keys_sorted(entries)
                &&& forall|i: int|
                    0 <= i < entries.len() ==> (#[trigger] entries[i]).0.len() <= i64::MAX
                        && entries[i].1.wf()
            },
        }
    }
}

/// Every dictionary inside holds its keys in strictly ascending order.
pub open spec fn keys_ordered(v: Value) -> bool
    decreases v,
{
    match v {
        Value::Bytes(_) => true,
        Value::Int(_) => true,
        Value::List(items) => forall|i: int| 0 <= i < items.len() ==> keys_ordered(#[trigger] items[i]),
        Value::Dict(entries) => {
            &&& keys_sorted(entries)
            &&& forall|i: int| 0 <= i < entries.len() ==> keys_ordered((#[trigger] entries[i]).1)
        },
    }
}

/// Every byte string inside, keys included, is short enough that its length
/// is an `i64`.
pub open spec fn lengths_fit(v: Value) -> bool
    decreases v,
{
    match v {
        Value::Bytes(b) => b.len() <= i64::MAX,
        Value::Int(_) => true,
        Value::List(items) => forall|i: int| 0 <= i < items.len() ==> lengths_fit(#[trigger] items[i]),
        Value::Dict(entries) => forall|i: int|
            0 <= i < entries.len() ==> (#[trigger] entries[i]).0.len() <= i64::MAX && lengths_fit(
                entries[i].1,
            ),
    }
}

/// A value is well-formed exactly when its keys are ordered and its byte
/// strings fit.
pub proof fn lemma_wf_parts(v: Value)
    requires
        keys_ordered(v),
        lengths_fit(v),
    ensures
        v.wf(),
    decreases v,
{
    match v {
        Value::List(items) => {
            assert forall|i: int| 0 <= i < items.len() implies (#[trigger] items[i]).wf() by {
                assert(keys_ordered(v->List_0[i]) && lengths_fit(v->List_0[i]));
                lemma_wf_parts(items[i]);
            }
        },
        Value::Dict(entries) => {
            assert forall|i: int| 0 <= i < entries.len() implies (#[trigger] entries[i]).0.len()
                <= i64::MAX && entries[i].1.wf() by {
                assert(keys_ordered(v->Dict_0[i].1) && lengths_fit(v->Dict_0[i].1));
                assert(v->Dict_0[i].0.len() <= i64::MAX);
                assert(decreases_to!(entries => entries[i]));
                lemma_wf_parts(entries[i].1);
            }
        },
        _ => {},
    }
}

/// Storing under a key and looking it up again gives the stored value; other
/// keys keep what they had.
pub proof fn lemma_dict_lookup_insert(
    entries: Seq<(Seq<u8>, Value)>,
    key: Seq<u8>,
    value: Value,
    other: Seq<u8>,
)
    ensures
        dict_lookup(dict_insert(entries, key, value), key) == Some(value),
        other != key ==> dict_lookup(dict_insert(entries, key, value), other) == dict_lookup(
            entries,
            other,
        ),
    decreases entries.len(),
{
    let r = dict_insert(entries, key, value);
    if entries.len() == 0 {
        assert(r.drop_first() =~= entries);
    } else if entries[0].0 == key {
        assert(r.drop_first() =~= entries.drop_first());
    } else if bytes_lt(key, entries[0].0) {
        assert(r.drop_first() =~= entries);
    } else {
        lemma_dict_lookup_insert(entries.drop_first(), key, value, other);
        assert(r.drop_first() =~= dict_insert(entries.drop_first(), key, value));
    }
}

/// Inserting a key above every present key appends the entry.
pub proof fn lemma_dict_insert_above(entries: Seq<(Seq<u8>, Value)>, key: Seq<u8>, value: Value)
    requires
        forall|i: int| 0 <= i < entries.len() ==> bytes_lt(#[trigger] entries[i].0, key),
    ensures
        dict_insert(entries, key, value) == entries.push((key, value)),
    decreases entries.len(),
{
    if entries.len() > 0 {
        lemma_bytes_lt_irreflexive(key);
        lemma_bytes_lt_trichotomy(entries[0].0, key);
        let tail = entries.drop_first();
        assert forall|i: int| 0 <= i < tail.len() implies bytes_lt(#[trigger] tail[i].0, key) by {
            assert(tail[i] == entries[i + 1]);
        }
        lemma_dict_insert_above(tail, key, value);
        assert(seq![entries[0]] + tail.push((key, value)) =~= entries.push((key, value)));
    } else {
        assert(seq![(key, value)] =~= entries.push((key, value)));
    }
}

/// On sorted entries, `dict_insert` is the replacement at, or the insertion
/// before, the first index whose key is not below `key`.
pub proof fn lemma_dict_insert_at(
    entries: Seq<(Seq<u8>, Value)>,
    key: Seq<u8>,
    value: Value,
    pos: int,
)
    requires
        0 <= pos <= entries.len(),
        forall|j: int| 0 <= j < pos ==> bytes_lt(#[trigger] entries[j].0, key),
        pos < entries.len() ==> !bytes_lt(entries[pos].0, key),
    ensures
        pos < entries.len() && entries[pos].0 == key ==> dict_insert(entries, key, value)
            == entries.update(pos, (key, value)),
        !(pos < entries.len() && entries[pos].0 == key) ==> dict_insert(entries, key, value)
            == entries.insert(pos, (key, value)),
    decreases entries.len(),
{
    lemma_bytes_lt_irreflexive(key);
    if entries.len() == 0 {
        assert(seq![(key, value)] =~= entries.insert(pos, (key, value)));
    } else if pos == 0 {
        lemma_bytes_lt_trichotomy(entries[0].0, key);
        if entries[0].0 == key {
            assert(seq![(key, value)] + entries.drop_first() =~= entries.update(0, (key, value)));
        } else {
            assert(seq![(key, value)] + entries =~= entries.insert(0, (key, value)));
        }
    } else {
        lemma_bytes_lt_trichotomy(entries[0].0, key);
        let tail = entries.drop_first();
        assert forall|j: int| 0 <= j < pos - 1 implies bytes_lt(#[trigger] tail[j].0, key) by {
            assert(tail[j] == entries[j + 1]);
        }
        lemma_dict_insert_at(tail, key, value, pos - 1);
        if pos < entries.len() && entries[pos].0 == key {
            assert(seq![entries[0]] + tail.update(pos - 1, (key, value)) =~= entries.update(
                pos,
                (key, value),
            ));
        } else {
            assert(seq![entries[0]] + tail.insert(pos - 1, (key, value)) =~= entries.insert(
                pos,
                (key, value),
            ));
        }
    }
}

/// Replacing the value of a present key, or inserting a key at its place in
/// the order, keeps the keys sorted.
pub proof fn lemma_sorted_insert_at(
    entries: Seq<(Seq<u8>, Value)>,
    key: Seq<u8>,
    value: Value,
    pos: int,
)
    requires
        keys_sorted(entries),
        0 <= pos <= entries.len(),
        forall|j: int| 0 <= j < pos ==> bytes_lt(#[trigger] entries[j].0, key),
        pos < entries.len() ==> !bytes_lt(entries[pos].0, key),
    ensures
        keys_sorted(dict_insert(entries, key, value)),
{
    lemma_dict_insert_at(entries, key, value, pos);
    let r = dict_insert(entries, key, value);
    if pos < entries.len() && entries[pos].0 == key {
        assert forall|i: int, j: int| 0 <= i < j < r.len() implies bytes_lt(
            #[trigger] r[i].0,
            #[trigger] r[j].0,
        ) by {
            assert(r[i].0 == entries[i].0);
            assert(r[j].0 == entries[j].0);
        }
    } else {
        if pos < entries.len() {
            lemma_bytes_lt_trichotomy(entries[pos].0, key);
        }
        assert forall|i: int, j: int| 0 <= i < j < r.len() implies bytes_lt(
            #[trigger] r[i].0,
            #[trigger] r[j].0,
        ) by {
            if j < pos {
                assert(r[i] == entries[i] && r[j] == entries[j]);
            } else if j == pos {
                assert(r[i] == entries[i]);
            } else if i == pos {
                assert(r[j] == entries[j - 1]);
                if j - 1 > pos {
                    lemma_bytes_lt_transitive(key, entries[pos].0, entries[j - 1].0);
                }
            } else if i < pos {
                assert(r[i] == entries[i] && r[j] == entries[j - 1]);
            } else {
                assert(r[i] == entries[i - 1] && r[j] == entries[j - 1]);
            }
        }
    }
}

/// The place where `key` belongs among sorted entries: every key before it is
/// below `key`, the key at it (if any) is not.
proof fn lemma_insert_position(entries: Seq<(Seq<u8>, Value)>, key: Seq<u8>, from: int) -> (pos:
    int)
    requires
        0 <= from <= entries.len(),
        forall|j: int| 0 <= j < from ==> bytes_lt(#[trigger] entries[j].0, key),
    ensures
        0 <= pos <= entries.len(),
        forall|j: int| 0 <= j < pos ==> bytes_lt(#[trigger] entries[j].0, key),
        pos < entries.len() ==> !bytes_lt(entries[pos].0, key),
    decreases entries.len() - from,
{
    if from == entries.len() || !bytes_lt(entries[from].0, key) {
        from
    } else {
        lemma_insert_position(entries, key, from + 1)
    }
}

/// Storing under a key keeps the keys of sorted entries sorted, and every
/// entry afterwards is the stored one or one that was there before.
pub proof fn lemma_dict_insert_sorted(entries: Seq<(Seq<u8>, Value)>, key: Seq<u8>, value: Value)
    requires
        keys_sorted(entries),
    ensures
        keys_sorted(dict_insert(entries, key, value)),
        forall|i: int|
            0 <= i < dict_insert(entries, key, value).len() ==> #[trigger] dict_insert(
                entries,
                key,
                value,
            )[i] == (key, value) || entries.contains(dict_insert(entries, key, value)[i]),
{
    let pos = lemma_insert_position(entries, key, 0);
    lemma_dict_insert_at(entries, key, value, pos);
    lemma_sorted_insert_at(entries, key, value, pos);
    let r = dict_insert(entries, key, value);
    assert forall|i: int| 0 <= i < r.len() implies #[trigger] r[i] == (key, value)
        || entries.contains(r[i]) by {
        if pos < entries.len() && entries[pos].0 == key {
            if i != pos {
                assert(r[i] == entries[i]);
            }
        } else {
            if i < pos {
                assert(r[i] == entries[i]);
            } else if i > pos {
                assert(r[i] == entries[i - 1]);
            }
        }
    }
}

} // verus!
