//! Human-readable text of values.

use vstd::prelude::*;
use vstd::string::StringExecFns;
use vstd::utf8::{decode_utf8, valid_utf8};

use crate::data_type::{DataType, Dict, list_view};
use crate::number::{int_digits, integer_to_digits, lemma_parse_int_digits, parse_i64};
use crate::text::{
    ascii_text, char_codes, lemma_char_codes_ascii_text, lossy_utf8, push_ascii, push_char,
    utf8_lossy, utf8_str,
};
use crate::value::Value;

verus! {

/// The text of a value: a byte string as (lossily decoded) UTF-8, an integer
/// in decimal, a list as `[` then each element followed by `, ` then `]`, a
/// dictionary as `{` then each key and value as `key: value` then `}`.
pub open spec fn display_text(v: Value) -> Seq<char>
    decreases v,
{
    match v {
        Value::Bytes(b) => if valid_utf8(b) {
            decode_utf8(b)
        } else {
            lossy_utf8(b)
        },
        Value::Int(i) => ascii_text(int_digits(i as int)),
        Value::List(items) => seq!['['] + display_items(items) + seq![']'],
        Value::Dict(entries) => seq!['{'] + display_entries(entries) + seq!['}'],
    }
}

/// The texts of list elements, each followed by `, `.
pub open spec fn display_items(items: Seq<Value>) -> Seq<char>
    decreases items,
{
    if items.len() == 0 {
        Seq::empty()
    } else {
        display_text(items[0]) + seq![',', ' '] + display_items(items.drop_first())
    }
}

/// The texts of dictionary entries, each as `key: value`.
pub open spec fn display_entries(entries: Seq<(Seq<u8>, Value)>) -> Seq<char>
    decreases entries,
{
    if entries.len() == 0 {
        Seq::empty()
    } else {
        decode_utf8(entries[0].0) + seq![':', ' '] + display_text(entries[0].1) + display_entries(
            entries.drop_first(),
        )
    }
}

/// Every dictionary key inside is valid UTF-8.
pub open spec fn keys_are_text(v: Value) -> bool
    decreases v,
{
    match v {
        Value::Bytes(_) => true,
        Value::Int(_) => true,
        Value::List(items) => forall|i: int|
            0 <= i < items.len() ==> keys_are_text(#[trigger] items[i]),
        Value::Dict(entries) => forall|i: int|
            0 <= i < entries.len() ==> valid_utf8((#[trigger] entries[i]).0) && keys_are_text(
                entries[i].1,
            ),
    }
}

/// A byte string shows as its UTF-8 decoding when it is valid UTF-8, and as
/// its lossy decoding otherwise; an integer shows as text that parses back
/// to it.
pub proof fn lemma_display_scalars(b: Seq<u8>, i: i64)
    ensures
        valid_utf8(b) ==> display_text(Value::Bytes(b)) == decode_utf8(b),
        !valid_utf8(b) ==> display_text(Value::Bytes(b)) == lossy_utf8(b),
        parse_i64(char_codes(display_text(Value::Int(i)))) == Some(i),
{
    lemma_char_codes_ascii_text(int_digits(i as int));
    lemma_parse_int_digits(i);
}

/// Showing one more element appends its text and `, `.
proof fn lemma_display_items_push(items: Seq<Value>, x: Value)
    ensures
        display_items(items.push(x)) == display_items(items) + display_text(x) + seq![',', ' '],
    decreases items.len(),
{
    if items.len() == 0 {
        assert(items.push(x).drop_first() =~= Seq::<Value>::empty());
        assert(display_items(Seq::<Value>::empty()) == Seq::<char>::empty());
        assert(items.push(x)[0] == x);
        assert(display_items(items.push(x)) =~= display_items(items) + display_text(x) + seq![
            ',',
            ' ',
        ]);
    } else {
        assert(items.push(x).drop_first() =~= items.drop_first().push(x));
        lemma_display_items_push(items.drop_first(), x);
        assert(display_items(items.push(x)) =~= display_items(items) + display_text(x) + seq![
            ',',
            ' ',
        ]);
    }
}

/// Showing one more entry appends its text.
proof fn lemma_display_entries_push(entries: Seq<(Seq<u8>, Value)>, k: Seq<u8>, v: Value)
    ensures
        display_entries(entries.push((k, v))) == display_entries(entries) + decode_utf8(k) + seq![
            ':',
            ' ',
        ] + display_text(v),
    decreases entries.len(),
{
    if entries.len() == 0 {
        assert(entries.push((k, v)).drop_first() =~= Seq::<(Seq<u8>, Value)>::empty());
        assert(display_entries(Seq::<(Seq<u8>, Value)>::empty()) == Seq::<char>::empty());
        assert(entries.push((k, v))[0] == (k, v));
        assert(display_entries(entries.push((k, v))) =~= display_entries(entries) + decode_utf8(k)
            + seq![':', ' '] + display_text(v));
    } else {
        assert(entries.push((k, v)).drop_first() =~= entries.drop_first().push((k, v)));
        lemma_display_entries_push(entries.drop_first(), k, v);
        assert(display_entries(entries.push((k, v))) =~= display_entries(entries) + decode_utf8(k)
            + seq![':', ' '] + display_text(v));
    }
}

/// Appends the text of `d` to `out`.
fn write_value(d: &DataType, out: &mut String)
    requires
        keys_are_text(d@),
    ensures
        final(out)@ == old(out)@ + display_text(d@),
        d@ matches Value::Bytes(b) ==> final(out)@ == old(out)@ + lossy_utf8(b),
    decreases d,
{
    match d {
        DataType::ByteString(value) => {
            let text = utf8_lossy(value.as_slice());
            out.append(text.as_str());
        },
        DataType::Integer(value) => {
            let digits = integer_to_digits(*value);
            push_ascii(out, digits.as_slice());
        },
        DataType::List(list) => {
            assert forall|i: int| 0 <= i < list@.len() implies keys_are_text(
                #[trigger] list@[i]@,
            ) by {
                let v = d@;
                assert(v->List_0 == list_view(list@));
                assert(list_view(list@)[i] == list@[i]@);
                assert(keys_are_text(v->List_0[i]));
            }
            write_list(list, out);
        },
        DataType::Dictionary(dict) => {
            assert forall|i: int| 0 <= i < dict@.len() implies valid_utf8(
                (#[trigger] dict@[i]).0,
            ) && keys_are_text(dict@[i].1) by {
                let v = d@;
                assert(v->Dict_0 == dict@);
                assert(valid_utf8(v->Dict_0[i].0));
                assert(keys_are_text(v->Dict_0[i].1));
            }
            write_dict(dict, out);
        },
    }
}

/// Appends the text of a list to `out`.
fn write_list(list: &Vec<DataType>, out: &mut String)
    requires
        forall|i: int| 0 <= i < list@.len() ==> keys_are_text(#[trigger] list@[i]@),
    ensures
        final(out)@ == old(out)@ + seq!['['] + display_items(list_view(list@)) + seq![']'],
    decreases list,
{
    let ghost items = list_view(list@);
    let ghost start = out@;
    push_char(out, '[');
    let mut i: usize = 0;
    while i < list.len()
        invariant
            i <= list.len(),
            items == list_view(list@),
            forall|j: int| 0 <= j < list@.len() ==> keys_are_text(#[trigger] list@[j]@),
            start == old(out)@,
            out@ == start + seq!['['] + display_items(items.take(i as int)),
        decreases list.len() - i,
    {
        assert(decreases_to!(list => list@[i as int]));
        write_value(&list[i], out);
        push_char(out, ',');
        push_char(out, ' ');
        proof {
            lemma_display_items_push(items.take(i as int), items[i as int]);
            assert(items.take(i as int).push(items[i as int]) =~= items.take(i + 1));
        }
        i = i + 1;
        assert(out@ =~= start + seq!['['] + display_items(items.take(i as int)));
    }
    assert(items.take(list.len() as int) =~= items);
    push_char(out, ']');
    assert(out@ =~= start + seq!['['] + display_items(items) + seq![']']);
}

/// Appends the text of a dictionary to `out`.
fn write_dict(dict: &Dict, out: &mut String)
    requires
        forall|i: int|
            0 <= i < dict@.len() ==> valid_utf8((#[trigger] dict@[i]).0) && keys_are_text(
                dict@[i].1,
            ),
    ensures
        final(out)@ == old(out)@ + seq!['{'] + display_entries(dict@) + seq!['}'],
    decreases dict,
{
    let ghost entries = dict@;
    let ghost start = out@;
    push_char(out, '{');
    let n = dict.len();
    let mut i: usize = 0;
    while i < n
        invariant
            i <= n,
            n == entries.len(),
            entries == dict@,
            forall|j: int|
                0 <= j < entries.len() ==> valid_utf8((#[trigger] entries[j]).0)
                    && keys_are_text(entries[j].1),
            start == old(out)@,
            out@ == start + seq!['{'] + display_entries(entries.take(i as int)),
        decreases n - i,
    {
        let key = dict.key_at(i);
        assert(valid_utf8(entries[i as int].0));
        match utf8_str(key.as_slice()) {
            Some(text) => {
                out.append(text);
            },
            None => {},
        }
        push_char(out, ':');
        push_char(out, ' ');
        let value = dict.value_at(i);
        write_value(value, out);
        proof {
            lemma_display_entries_push(
                entries.take(i as int),
                entries[i as int].0,
                entries[i as int].1,
            );
            assert(entries.take(i as int).push((entries[i as int].0, entries[i as int].1))
                =~= entries.take(i + 1));
        }
        i = i + 1;
        assert(out@ =~= start + seq!['{'] + display_entries(entries.take(i as int)));
    }
    assert(entries.take(n as int) =~= entries);
    push_char(out, '}');
    assert(out@ =~= start + seq!['{'] + display_entries(entries) + seq!['}']);
}

impl DataType {
    /// The text of the value: byte strings as UTF-8 (ill-formed sequences
    /// replaced), integers in decimal, `[a, b, ]` for lists and `{k: v}` for
    /// dictionaries, whose keys must be valid UTF-8.
    pub fn to_display_string(&self) -> (res: String)
        requires
            keys_are_text(self@),
        ensures
            res@ == display_text(self@),
            self@ matches Value::Bytes(b) ==> res@ == lossy_utf8(b),
    {
        let mut out = String::new();
        write_value(self, &mut out);
        assert(out@ =~= display_text(self@));
        out
    }
}

} // verus!
