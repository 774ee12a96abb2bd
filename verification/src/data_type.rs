//! Bencode values as the program holds them.

use vstd::prelude::*;

use crate::bytes::{bytes_equal, bytes_less, copy_bytes};
use crate::value::{
    Value, bytes_lt, dict_insert, dict_lookup, keys_sorted, lemma_dict_insert_at,
    lemma_sorted_insert_at,
};

verus! {

/// A bencode value: a byte string, an integer, a list or a dictionary.
pub enum DataType {
    ByteString(Vec<u8>),
    Integer(i64),
    List(Vec<DataType>),
    Dictionary(Dict),
}

/// A dictionary from byte-string keys to values. Each key occurs once; the
/// entries are kept in ascending key order.
pub struct Dict {
    entries: Vec<(Vec<u8>, DataType)>,
}

/// The mathematical value that a `DataType` stands for.
pub open spec fn data_view(d: DataType) -> Value
    decreases d,
{
    match d {
        DataType::ByteString(b) => Value::Bytes(b@),
        DataType::Integer(i) => Value::Int(i),
        DataType::List(l) => Value::List(list_view(l@)),
        DataType::Dictionary(dict) => Value::Dict(dict_view(dict)),
    }
}

/// The values of a list, element by element.
pub open spec fn list_view(items: Seq<DataType>) -> Seq<Value>
    decreases items,
{
    Seq::new(
        items.len(),
        |i: int|
            if 0 <= i < items.len() {
                data_view(items[i])
            } else {
                Value::Int(0)
            },
    )
}

/// The entries of a dictionary, in its order.
pub closed spec fn dict_view(dict: Dict) -> Seq<(Seq<u8>, Value)>
    decreases dict,
{
    Seq::new(
        dict.entries@.len(),
        |i: int|
            if 0 <= i < dict.entries@.len() {
                (dict.entries@[i].0@, data_view(dict.entries@[i].1))
            } else {
                (Seq::empty(), Value::Int(0))
            },
    )
}

impl View for DataType {
    type V = Value;

    open spec fn view(&self) -> Value {
        data_view(*self)
    }
}

impl View for Dict {
    type V = Seq<(Seq<u8>, Value)>;

    open spec fn view(&self) -> Seq<(Seq<u8>, Value)> {
        dict_view(*self)
    }
}

/// The value that `key` is mapped to, when `v` is a dictionary.
pub open spec fn value_get(v: Value, key: Seq<u8>) -> Option<Value> {
    match v {
        Value::Dict(entries) => dict_lookup(entries, key),
        _ => None,
    }
}

/// An entry is found at the first index that holds its key.
pub proof fn lemma_dict_lookup_found(entries: Seq<(Seq<u8>, Value)>, key: Seq<u8>, i: int)
    requires
        0 <= i < entries.len(),
        entries[i].0 == key,
        forall|j: int| 0 <= j < i ==> (#[trigger] entries[j]).0 != key,
    ensures
        dict_lookup(entries, key) == Some(entries[i].1),
    decreases i,
{
    if i > 0 {
        let tail = entries.drop_first();
        assert forall|j: int| 0 <= j < i - 1 implies (#[trigger] tail[j]).0 != key by {
            assert(tail[j] == entries[j + 1]);
        }
        assert(entries[0].0 != key);
        lemma_dict_lookup_found(tail, key, i - 1);
    }
}

/// A key that no entry holds is not found.
pub proof fn lemma_dict_lookup_absent(entries: Seq<(Seq<u8>, Value)>, key: Seq<u8>)
    requires
        forall|j: int| 0 <= j < entries.len() ==> (#[trigger] entries[j]).0 != key,
    ensures
        dict_lookup(entries, key) is None,
    decreases entries.len(),
{
    if entries.len() > 0 {
        let tail = entries.drop_first();
        assert forall|j: int| 0 <= j < tail.len() implies (#[trigger] tail[j]).0 != key by {
            assert(tail[j] == entries[j + 1]);
        }
        assert(entries[0].0 != key);
        lemma_dict_lookup_absent(tail, key);
    }
}

impl Dict {
    #[verifier::type_invariant]
    spec fn keys_in_order(self) -> bool {
        keys_sorted(dict_view(self))
    }

    /// An empty dictionary.
    pub fn new() -> (res: Dict)
        ensures
            res@ == Seq::<(Seq<u8>, Value)>::empty(),
            keys_sorted(res@),
    {
        let res = Dict { entries: Vec::new() };
        assert(dict_view(res) =~= Seq::<(Seq<u8>, Value)>::empty());
        res
    }

    /// Number of entries; they stand in strictly ascending key order.
    pub fn len(&self) -> (res: usize)
        ensures
            res == self@.len(),
            keys_sorted(self@),
    {
        proof {
            use_type_invariant(self);
        }
        self.entries.len()
    }

    /// The key of the entry at `i`, in key order.
    pub fn key_at(&self, i: usize) -> (res: &Vec<u8>)
        requires
            i < self@.len(),
        ensures
            res@ == self@[i as int].0,
    {
        &self.entries[i].0
    }

    /// The value of the entry at `i`, in key order.
    pub fn value_at(&self, i: usize) -> (res: &DataType)
        requires
            i < self@.len(),
        ensures
            res@ == self@[i as int].1,
            decreases_to!(*self => *res),
    {
        &self.entries[i].1
    }

    /// The value stored under `key`, if any.
    pub fn get(&self, key: &[u8]) -> (res: Option<&DataType>)
        ensures
            res is Some <==> dict_lookup(self@, key@) is Some,
            res matches Some(r) ==> dict_lookup(self@, key@) == Some(r@),
    {
        let n = self.entries.len();
        let mut i: usize = 0;
        while i < n
            invariant
                i <= n,
                n == self@.len(),
                forall|j: int| 0 <= j < i ==> (#[trigger] self@[j]).0 != key@,
            decreases n - i,
        {
            if bytes_equal(self.entries[i].0.as_slice(), key) {
                proof {
                    lemma_dict_lookup_found(self@, key@, i as int);
                }
                return Some(&self.entries[i].1);
            }
            i = i + 1;
        }
        proof {
            lemma_dict_lookup_absent(self@, key@);
        }
        None
    }

    /// Stores `value` under `key`, replacing what the key held before.
    pub fn insert(&mut self, key: Vec<u8>, value: DataType)
        ensures
            final(self)@ == dict_insert(old(self)@, key@, value@),
            keys_sorted(final(self)@),
    {
        proof {
            use_type_invariant(&*self);
        }
        let n = self.entries.len();
        let mut i: usize = 0;
        while i < n && bytes_less(self.entries[i].0.as_slice(), key.as_slice())
            invariant
                i <= n,
                n == self@.len(),
                forall|j: int| 0 <= j < i ==> bytes_lt(#[trigger] self@[j].0, key@),
            decreases n - i,
        {
            i = i + 1;
        }
        let ghost old_view = self@;
        proof {
            lemma_dict_insert_at(old_view, key@, value@, i as int);
            lemma_sorted_insert_at(old_view, key@, value@, i as int);
        }
        let mut entries: Vec<(Vec<u8>, DataType)> = Vec::new();
        std::mem::swap(&mut entries, &mut self.entries);
        assert(dict_view(Dict { entries }) == old_view);
        if i < n && bytes_equal(entries[i].0.as_slice(), key.as_slice()) {
            let ghost new_view = old_view.update(i as int, (key@, value@));
            entries.set(i, (key, value));
            assert(dict_view(Dict { entries }) =~= new_view);
        } else {
            let ghost new_view = old_view.insert(i as int, (key@, value@));
            entries.insert(i, (key, value));
            assert(dict_view(Dict { entries }) =~= new_view);
        }
        self.entries = entries;
    }
}

impl DataType {
    /// The value stored under `key` when this is a dictionary.
    pub fn get_dict_value(&self, key: &[u8]) -> (res: Option<&DataType>)
        ensures
            res is Some <==> value_get(self@, key@) is Some,
            res matches Some(r) ==> value_get(self@, key@) == Some(r@),
    {
        match self {
            DataType::Dictionary(dict) => dict.get(key),
            _ => None,
        }
    }

    /// The bytes, when this is a byte string.
    pub fn get_string_value(&self) -> (res: Option<&Vec<u8>>)
        ensures
            res is Some <==> self@ is Bytes,
            res matches Some(r) ==> self@ == Value::Bytes(r@),
    {
        match self {
            DataType::ByteString(value) => Some(value),
            _ => None,
        }
    }

    /// The elements, when this is a list.
    pub fn get_list_value(&self) -> (res: Option<&Vec<DataType>>)
        ensures
            res is Some <==> self@ is List,
            res matches Some(r) ==> self@ == Value::List(list_view(r@)),
    {
        match self {
            DataType::List(value) => Some(value),
            _ => None,
        }
    }

    /// The number, when this is an integer.
    pub fn get_integer_value(&self) -> (res: Option<&i64>)
        ensures
            res is Some <==> self@ is Int,
            res matches Some(r) ==> self@ == Value::Int(*r),
    {
        match self {
            DataType::Integer(value) => Some(value),
            _ => None,
        }
    }
}

/// A deep copy of a value.
fn clone_data(d: &DataType) -> (res: DataType)
    ensures
        res@ == d@,
    decreases d,
{
    match d {
        DataType::ByteString(value) => DataType::ByteString(copy_bytes(value.as_slice())),
        DataType::Integer(value) => DataType::Integer(*value),
        DataType::List(value) => DataType::List(clone_list(value)),
        DataType::Dictionary(value) => DataType::Dictionary(value.clone_entries()),
    }
}

/// A deep copy of the elements of a list.
fn clone_list(items: &Vec<DataType>) -> (res: Vec<DataType>)
    ensures
        list_view(res@) == list_view(items@),
    decreases items,
{
    let mut res: Vec<DataType> = Vec::with_capacity(items.len());
    let mut i: usize = 0;
    while i < items.len()
        invariant
            i <= items.len(),
            res@.len() == i,
            forall|j: int| 0 <= j < i ==> (#[trigger] res@[j])@ == items@[j]@,
        decreases items.len() - i,
    {
        assert(decreases_to!(items => items@[i as int]));
        let c = clone_data(&items[i]);
        res.push(c);
        i = i + 1;
    }
    assert(list_view(res@) =~= list_view(items@));
    res
}

impl Dict {
    /// A deep copy of the dictionary.
    fn clone_entries(&self) -> (res: Dict)
        ensures
            res@ == self@,
        decreases self,
    {
        proof {
            use_type_invariant(self);
        }
        let n = self.entries.len();
        let mut entries: Vec<(Vec<u8>, DataType)> = Vec::with_capacity(n);
        let mut i: usize = 0;
        while i < n
            invariant
                i <= n,
                n == self.entries@.len(),
                entries@.len() == i,
                forall|j: int|
                    0 <= j < i ==> (#[trigger] entries@[j]).0@ == self.entries@[j].0@
                        && entries@[j].1@ == self.entries@[j].1@,
            decreases n - i,
        {
            assert(decreases_to!(self => self.entries@[i as int].1));
            let k = copy_bytes(self.entries[i].0.as_slice());
            let v = clone_data(&self.entries[i].1);
            entries.push((k, v));
            i = i + 1;
        }
        assert(dict_view(Dict { entries }) =~= dict_view(*self));
        Dict { entries }
    }
}

impl Clone for DataType {
    fn clone(&self) -> (res: DataType)
        ensures
            res@ == self@,
    {
        clone_data(self)
    }
}

impl Clone for Dict {
    fn clone(&self) -> (res: Dict)
        ensures
            res@ == self@,
    {
        self.clone_entries()
    }
}

} // verus!
