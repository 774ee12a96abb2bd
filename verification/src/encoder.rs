//! The bencode encoder.

use vstd::prelude::*;

use crate::data_type::{DataType, Dict, list_view};
use crate::number::{int_digits, integer_to_digits, nat_digits, nat_to_digits};
use crate::parser::{DATA_END, DICT_BEGIN, INTEGER_BEGIN, LIST_BEGIN, STRING_DELIMITER};
use crate::decoder::spec_decode;
use crate::laws::{lemma_decode_encode_followed, lemma_parse_encoded};
use crate::parser::parse_value_at;
use crate::value::{Value, keys_ordered, keys_sorted, lemma_wf_parts, lengths_fit};

verus! {

/// The encoding of a byte string: its length in decimal, `:`, its bytes.
pub open spec fn encode_bytes(b: Seq<u8>) -> Seq<u8> {
    nat_digits(b.len()) + seq![STRING_DELIMITER] + b
}

/// The encoding of a value.
pub open spec fn spec_encode(v: Value) -> Seq<u8>
    decreases v,
{
    match v {
        Value::Bytes(b) => encode_bytes(b),
        Value::Int(i) => seq![INTEGER_BEGIN] + int_digits(i as int) + seq![DATA_END],
        Value::List(items) => seq![LIST_BEGIN] + encode_items(items) + seq![DATA_END],
        Value::Dict(entries) => seq![DICT_BEGIN] + encode_entries(entries) + seq![DATA_END],
    }
}

/// The encodings of the elements of a list, one after the other.
pub open spec fn encode_items(items: Seq<Value>) -> Seq<u8>
    decreases items,
{
    if items.len() == 0 {
        Seq::empty()
    } else {
        spec_encode(items[0]) + encode_items(items.drop_first())
    }
}

/// The entries of a dictionary, each as its key's encoding then its value's.
pub open spec fn encode_entries(entries: Seq<(Seq<u8>, Value)>) -> Seq<u8>
    decreases entries,
{
    if entries.len() == 0 {
        Seq::empty()
    } else {
        encode_bytes(entries[0].0) + spec_encode(entries[0].1) + encode_entries(
            entries.drop_first(),
        )
    }
}

/// Encoding one more element appends its encoding.
pub proof fn lemma_encode_items_push(items: Seq<Value>, x: Value)
    ensures
        encode_items(items.push(x)) == encode_items(items) + spec_encode(x),
    decreases items.len(),
{
    if items.len() == 0 {
        assert(items.push(x).drop_first() =~= Seq::<Value>::empty());
        assert(encode_items(Seq::<Value>::empty()) == Seq::<u8>::empty());
        assert(items.push(x)[0] == x);
        assert(encode_items(items.push(x)) =~= spec_encode(x));
    } else {
        assert(items.push(x).drop_first() =~= items.drop_first().push(x));
        lemma_encode_items_push(items.drop_first(), x);
        assert(encode_items(items.push(x)) =~= encode_items(items) + spec_encode(x));
    }
}

/// Encoding one more entry appends its encoding.
pub proof fn lemma_encode_entries_push(entries: Seq<(Seq<u8>, Value)>, k: Seq<u8>, v: Value)
    ensures
        encode_entries(entries.push((k, v))) == encode_entries(entries) + encode_bytes(k)
            + spec_encode(v),
    decreases entries.len(),
{
    if entries.len() == 0 {
        assert(entries.push((k, v)).drop_first() =~= Seq::<(Seq<u8>, Value)>::empty());
        assert(encode_entries(Seq::<(Seq<u8>, Value)>::empty()) == Seq::<u8>::empty());
        assert(entries.push((k, v))[0] == (k, v));
        assert(encode_entries(entries.push((k, v))) =~= encode_bytes(k) + spec_encode(v));
    } else {
        assert(entries.push((k, v)).drop_first() =~= entries.drop_first().push((k, v)));
        lemma_encode_entries_push(entries.drop_first(), k, v);
        assert(encode_entries(entries.push((k, v))) =~= encode_entries(entries) + encode_bytes(k)
            + spec_encode(v));
    }
}

/// Appends `src` to `dst`.
fn push_all(dst: &mut Vec<u8>, src: &[u8])
    ensures
        final(dst)@ == old(dst)@ + src@,
{
    let mut i: usize = 0;
    while i < src.len()
        invariant
            i <= src.len(),
            dst@ == old(dst)@ + src@.take(i as int),
        decreases src.len() - i,
    {
        dst.push(src[i]);
        i = i + 1;
        assert(dst@ =~= old(dst)@ + src@.take(i as int));
    }
    assert(src@.take(src.len() as int) =~= src@);
}

/// Encodes a value. Every dictionary inside a value keeps its keys in
/// ascending order, so when its byte strings are no longer than `i64::MAX`
/// the encoding decodes back to the value, wherever it stands in the input
/// and whatever follows it.
pub fn encode(t: &DataType) -> (res: Vec<u8>)
    ensures
        res@ == spec_encode(t@),
        keys_ordered(t@),
        lengths_fit(t@) ==> spec_decode(res@) == Some(t@),
        lengths_fit(t@) ==> forall|rest: Seq<u8>| spec_decode(res@ + rest) == Some(t@),
        lengths_fit(t@) ==> forall|s: Seq<u8>, p: int|
            0 <= p && p + res@.len() <= s.len() && #[trigger] s.subrange(p, p + res@.len())
                == res@ ==> parse_value_at(s, p) == Some((t@, p + res@.len())),
    decreases t,
{
    let res = match t {
        DataType::ByteString(value) => encode_string(value.as_slice()),
        DataType::Integer(value) => encode_integer(*value),
        DataType::List(value) => {
            let res = encode_list(value);
            proof {
                let v = t@;
                assert forall|i: int| 0 <= i < v->List_0.len() implies keys_ordered(
                    #[trigger] v->List_0[i],
                ) by {
                    assert(list_view(value@)[i] == value@[i]@);
                }
            }
            res
        },
        DataType::Dictionary(value) => encode_dictionary(value),
    };
    proof {
        if lengths_fit(t@) {
            lemma_wf_parts(t@);
            assert forall|rest: Seq<u8>| spec_decode(res@ + rest) == Some(t@) by {
                lemma_decode_encode_followed(t@, rest);
            }
            assert(res@ + Seq::<u8>::empty() =~= res@);
            assert forall|s: Seq<u8>, p: int|
                0 <= p && p + res@.len() <= s.len() && #[trigger] s.subrange(p, p + res@.len())
                    == res@ implies parse_value_at(s, p) == Some((t@, p + res@.len())) by {
                lemma_parse_encoded(s, p, t@);
            }
        }
    }
    res
}

/// Encodes a byte string.
fn encode_string(s: &[u8]) -> (res: Vec<u8>)
    ensures
        res@ == encode_bytes(s@),
{
    let mut res = nat_to_digits(s.len() as u64);
    res.push(STRING_DELIMITER);
    push_all(&mut res, s);
    res
}

/// Encodes an integer.
fn encode_integer(i: i64) -> (res: Vec<u8>)
    ensures
        res@ == seq![INTEGER_BEGIN] + int_digits(i as int) + seq![DATA_END],
{
    let mut res: Vec<u8> = vec![INTEGER_BEGIN];
    let digits = integer_to_digits(i);
    push_all(&mut res, digits.as_slice());
    res.push(DATA_END);
    res
}

/// Encodes a list.
fn encode_list(list: &Vec<DataType>) -> (res: Vec<u8>)
    ensures
        res@ == seq![LIST_BEGIN] + encode_items(list_view(list@)) + seq![DATA_END],
        forall|j: int| 0 <= j < list@.len() ==> keys_ordered(#[trigger] list@[j]@),
    decreases list,
{
    let ghost items = list_view(list@);
    let mut res: Vec<u8> = vec![LIST_BEGIN];
    let mut i: usize = 0;
    while i < list.len()
        invariant
            i <= list.len(),
            items == list_view(list@),
            res@ == seq![LIST_BEGIN] + encode_items(items.take(i as int)),
            forall|j: int| 0 <= j < i ==> keys_ordered(#[trigger] list@[j]@),
        decreases list.len() - i,
    {
        assert(decreases_to!(list => list@[i as int]));
        let element = encode(&list[i]);
        proof {
            lemma_encode_items_push(items.take(i as int), items[i as int]);
            assert(items.take(i as int).push(items[i as int]) =~= items.take(i + 1));
        }
        push_all(&mut res, element.as_slice());
        i = i + 1;
    }
    assert(items.take(list.len() as int) =~= items);
    res.push(DATA_END);
    res
}

/// Encodes a dictionary, its entries in ascending key order.
fn encode_dictionary(dict: &Dict) -> (res: Vec<u8>)
    ensures
        res@ == seq![DICT_BEGIN] + encode_entries(dict@) + seq![DATA_END],
        keys_sorted(dict@),
        forall|j: int| 0 <= j < dict@.len() ==> keys_ordered((#[trigger] dict@[j]).1),
    decreases dict,
{
    let ghost entries = dict@;
    let mut res: Vec<u8> = vec![DICT_BEGIN];
    let mut i: usize = 0;
    let n = dict.len();
    while i < n
        invariant
            i <= n,
            n == entries.len(),
            entries == dict@,
            res@ == seq![DICT_BEGIN] + encode_entries(entries.take(i as int)),
            forall|j: int| 0 <= j < i ==> keys_ordered((#[trigger] entries[j]).1),
        decreases n - i,
    {
        let key = encode_string(dict.key_at(i).as_slice());
        let value = dict.value_at(i);
        let encoded = encode(value);
        proof {
            lemma_encode_entries_push(entries.take(i as int), entries[i as int].0, entries[i as int].1);
            assert(entries.take(i as int).push((entries[i as int].0, entries[i as int].1))
                =~= entries.take(i + 1));
        }
        push_all(&mut res, key.as_slice());
        push_all(&mut res, encoded.as_slice());
        i = i + 1;
    }
    assert(entries.take(n as int) =~= entries);
    res.push(DATA_END);
    res
}

} // verus!
