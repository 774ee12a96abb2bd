//! What holds of decoding and encoding together.

use vstd::prelude::*;

use crate::decoder::spec_decode;
use crate::encoder::{encode_bytes, encode_entries, encode_items, spec_encode};
use crate::number::{is_digit, lemma_nat_digits, lemma_parse_int_digits, nat_digits};
use crate::parser::{
    DATA_END, STRING_DELIMITER, find_end, parse_dict_at, parse_list_at, parse_string_at,
    parse_value_at, skip_digits,
};
use crate::value::{Value, dict_insert, keys_sorted, lemma_dict_insert_above, lemma_dict_insert_sorted};

verus! {

/// `find_end` stops at the first `e`.
proof fn lemma_find_end_at(s: Seq<u8>, p: int, q: int)
    requires
        0 <= p <= q < s.len(),
        s[q] == DATA_END,
        forall|j: int| p <= j < q ==> s[j] != DATA_END,
    ensures
        find_end(s, p) == Some(q),
    decreases q - p,
{
    if p < q {
        lemma_find_end_at(s, p + 1, q);
    }
}

/// `skip_digits` stops at the first byte that is not a digit.
proof fn lemma_skip_digits_at(s: Seq<u8>, p: int, q: int)
    requires
        0 <= p <= q < s.len(),
        !is_digit(s[q]),
        forall|j: int| p <= j < q ==> is_digit(s[j]),
    ensures
        skip_digits(s, p) == Some(q),
    decreases q - p,
{
    if p < q {
        lemma_skip_digits_at(s, p + 1, q);
    }
}

/// The encoding of a byte string reads back as that byte string.
proof fn lemma_parse_bytes_encoded(s: Seq<u8>, p: int, b: Seq<u8>)
    requires
        0 <= p,
        b.len() <= i64::MAX,
        p + encode_bytes(b).len() <= s.len(),
        s.subrange(p, p + encode_bytes(b).len()) == encode_bytes(b),
    ensures
        parse_string_at(s, p) == Some((Value::Bytes(b), p + encode_bytes(b).len())),
        is_digit(s[p]),
{
    let d = nat_digits(b.len());
    let e = encode_bytes(b);
    lemma_nat_digits(b.len());
    let q = p + d.len();
    assert forall|j: int| p <= j < q implies is_digit(s[j]) by {
        assert(s[j] == s.subrange(p, p + e.len())[j - p]);
        assert(e[j - p] == d[j - p]);
    }
    assert(s[q] == s.subrange(p, p + e.len())[q - p]);
    assert(e[q - p] == STRING_DELIMITER);
    lemma_skip_digits_at(s, p, q);
    assert(s.subrange(p, q) =~= d) by {
        assert forall|j: int| 0 <= j < d.len() implies s.subrange(p, q)[j] == d[j] by {
            assert(s[p + j] == s.subrange(p, p + e.len())[j]);
            assert(e[j] == d[j]);
        }
    }
    lemma_parse_int_digits(b.len() as i64);
    assert(s.subrange(q + 1, q + 1 + b.len()) =~= b) by {
        assert forall|j: int| 0 <= j < b.len() implies s.subrange(q + 1, q + 1 + b.len())[j]
            == b[j] by {
            assert(s[q + 1 + j] == s.subrange(p, p + e.len())[q + 1 + j - p]);
            assert(e[q + 1 + j - p] == b[j]);
        }
    }
    assert(s[p] == s.subrange(p, p + e.len())[0]);
    assert(e[0] == d[0]);
}

/// The encoding of a well-formed value, found anywhere in the input, reads
/// back as that value and ends where the encoding ends.
pub proof fn lemma_parse_encoded(s: Seq<u8>, p: int, v: Value)
    requires
        v.wf(),
        0 <= p,
        p + spec_encode(v).len() <= s.len(),
        s.subrange(p, p + spec_encode(v).len()) == spec_encode(v),
    ensures
        parse_value_at(s, p) == Some((v, p + spec_encode(v).len())),
    decreases v,
{
    let e = spec_encode(v);
    assert(s[p] == s.subrange(p, p + e.len())[0]);
    match v {
        Value::Bytes(b) => {
            lemma_parse_bytes_encoded(s, p, b);
        },
        Value::Int(i) => {
            let d = crate::number::int_digits(i as int);
            let q = p + 1 + d.len();
            assert forall|j: int| p + 1 <= j < q implies s[j] != DATA_END by {
                assert(s[j] == s.subrange(p, p + e.len())[j - p]);
                assert(e[j - p] == d[j - p - 1]);
                if i < 0 {
                    lemma_nat_digits((-i) as nat);
                    if j > p + 1 {
                        assert(d[j - p - 1] == nat_digits((-i) as nat)[j - p - 2]);
                    }
                } else {
                    lemma_nat_digits(i as nat);
                }
            }
            assert(s[q] == s.subrange(p, p + e.len())[q - p]);
            lemma_find_end_at(s, p + 1, q);
            assert(s.subrange(p + 1, q) =~= d) by {
                assert forall|j: int| 0 <= j < d.len() implies s.subrange(p + 1, q)[j] == d[j] by {
                    assert(s[p + 1 + j] == s.subrange(p, p + e.len())[1 + j]);
                }
            }
            lemma_parse_int_digits(i);
        },
        Value::List(items) => {
            let ei = encode_items(items);
            assert(s.subrange(p + 1, p + 1 + ei.len()) =~= ei) by {
                assert forall|j: int| 0 <= j < ei.len() implies s.subrange(p + 1, p + 1 + ei.len())[j]
                    == ei[j] by {
                    assert(s[p + 1 + j] == s.subrange(p, p + e.len())[1 + j]);
                }
            }
            assert(s[p + 1 + ei.len()] == s.subrange(p, p + e.len())[1 + ei.len() as int]);
            lemma_parse_items_encoded(s, p + 1, Seq::empty(), items);
            assert(Seq::<Value>::empty() + items =~= items);
        },
        Value::Dict(entries) => {
            let ee = encode_entries(entries);
            assert(s.subrange(p + 1, p + 1 + ee.len()) =~= ee) by {
                assert forall|j: int| 0 <= j < ee.len() implies s.subrange(p + 1, p + 1 + ee.len())[j]
                    == ee[j] by {
                    assert(s[p + 1 + j] == s.subrange(p, p + e.len())[1 + j]);
                }
            }
            assert(s[p + 1 + ee.len()] == s.subrange(p, p + e.len())[1 + ee.len() as int]);
            assert(Seq::<(Seq<u8>, Value)>::empty() + entries =~= entries);
            lemma_parse_entries_encoded(s, p + 1, Seq::empty(), entries);
        },
    }
}

/// The encodings of list elements followed by `e` read back as the list.
proof fn lemma_parse_items_encoded(s: Seq<u8>, p: int, acc: Seq<Value>, items: Seq<Value>)
    requires
        forall|i: int| 0 <= i < items.len() ==> (#[trigger] items[i]).wf(),
        0 <= p,
        p + encode_items(items).len() < s.len(),
        s.subrange(p, p + encode_items(items).len()) == encode_items(items),
        s[p + encode_items(items).len()] == DATA_END,
    ensures
        parse_list_at(s, p, acc) == Some(
            (Value::List(acc + items), p + encode_items(items).len() + 1),
        ),
    decreases items,
{
    if items.len() == 0 {
        assert(acc + items =~= acc);
    } else {
        let x = items[0];
        let rest = items.drop_first();
        let ex = spec_encode(x);
        let er = encode_items(rest);
        let ei = encode_items(items);
        assert(ei == ex + er);
        assert(s.subrange(p, p + ex.len()) =~= ex) by {
            assert forall|j: int| 0 <= j < ex.len() implies s.subrange(p, p + ex.len())[j]
                == ex[j] by {
                assert(s[p + j] == s.subrange(p, p + ei.len())[j]);
            }
        }
        lemma_parse_encoded(s, p, x);
        assert(s[p] == s.subrange(p, p + ei.len())[0]);
        assert(ex[0] != DATA_END) by {
            match x {
                Value::Bytes(b) => {
                    lemma_nat_digits(b.len());
                    assert(ex[0] == nat_digits(b.len())[0]);
                },
                _ => {},
            }
        }
        let q = p + ex.len();
        assert(s.subrange(q, q + er.len()) =~= er) by {
            assert forall|j: int| 0 <= j < er.len() implies s.subrange(q, q + er.len())[j]
                == er[j] by {
                assert(s[q + j] == s.subrange(p, p + ei.len())[ex.len() + j]);
            }
        }
        assert forall|i: int| 0 <= i < rest.len() implies (#[trigger] rest[i]).wf() by {
            assert(rest[i] == items[i + 1]);
        }
        lemma_parse_items_encoded(s, q, acc.push(x), rest);
        assert(acc.push(x) + rest =~= acc + items);
    }
}

/// The encodings of sorted dictionary entries followed by `e` read back as
/// the dictionary.
proof fn lemma_parse_entries_encoded(
    s: Seq<u8>,
    p: int,
    acc: Seq<(Seq<u8>, Value)>,
    entries: Seq<(Seq<u8>, Value)>,
)
    requires
        keys_sorted(acc + entries),
        forall|i: int|
            0 <= i < entries.len() ==> (#[trigger] entries[i]).0.len() <= i64::MAX
                && entries[i].1.wf(),
        0 <= p,
        p + encode_entries(entries).len() < s.len(),
        s.subrange(p, p + encode_entries(entries).len()) == encode_entries(entries),
        s[p + encode_entries(entries).len()] == DATA_END,
    ensures
        parse_dict_at(s, p, acc) == Some(
            (Value::Dict(acc + entries), p + encode_entries(entries).len() + 1),
        ),
    decreases entries,
{
    if entries.len() == 0 {
        assert(acc + entries =~= acc);
    } else {
        let (k, v) = entries[0];
        let rest = entries.drop_first();
        let ek = encode_bytes(k);
        let ev = spec_encode(v);
        let er = encode_entries(rest);
        let ee = encode_entries(entries);
        assert(ee == ek + ev + er);
        assert(s.subrange(p, p + ek.len()) =~= ek) by {
            assert forall|j: int| 0 <= j < ek.len() implies s.subrange(p, p + ek.len())[j]
                == ek[j] by {
                assert(s[p + j] == s.subrange(p, p + ee.len())[j]);
            }
        }
        lemma_parse_bytes_encoded(s, p, k);
        let q = p + ek.len();
        assert(s.subrange(q, q + ev.len()) =~= ev) by {
            assert forall|j: int| 0 <= j < ev.len() implies s.subrange(q, q + ev.len())[j]
                == ev[j] by {
                assert(s[q + j] == s.subrange(p, p + ee.len())[ek.len() + j]);
            }
        }
        assert(decreases_to!(entries => entries[0]));
        lemma_parse_encoded(s, q, v);
        let r = q + ev.len();
        assert(s.subrange(r, r + er.len()) =~= er) by {
            assert forall|j: int| 0 <= j < er.len() implies s.subrange(r, r + er.len())[j]
                == er[j] by {
                assert(s[r + j] == s.subrange(p, p + ee.len())[ek.len() + ev.len() + j]);
            }
        }
        let all = acc + entries;
        assert forall|i: int| 0 <= i < acc.len() implies crate::value::bytes_lt(
            #[trigger] acc[i].0,
            k,
        ) by {
            assert(all[i] == acc[i]);
            assert(all[acc.len() as int] == entries[0]);
        }
        lemma_dict_insert_above(acc, k, v);
        assert(acc.push((k, v)) + rest =~= all);
        assert forall|i: int| 0 <= i < rest.len() implies (#[trigger] rest[i]).0.len() <= i64::MAX
            && rest[i].1.wf() by {
            assert(rest[i] == entries[i + 1]);
        }
        lemma_parse_entries_encoded(s, r, acc.push((k, v)), rest);
    }
}

/// Decoding the encoding of a well-formed value gives the value back.
pub proof fn lemma_decode_encode(v: Value)
    requires
        v.wf(),
    ensures
        spec_decode(spec_encode(v)) == Some(v),
{
    let e = spec_encode(v);
    assert(e.subrange(0, e.len() as int) =~= e);
    lemma_parse_encoded(e, 0, v);
}

/// Bytes after the encoding of a well-formed value are never read as part
/// of it: decoding the encoding followed by anything gives the value.
pub proof fn lemma_decode_encode_followed(v: Value, rest: Seq<u8>)
    requires
        v.wf(),
    ensures
        spec_decode(spec_encode(v) + rest) == Some(v),
{
    let e = spec_encode(v);
    let s = e + rest;
    assert(s.subrange(0, e.len() as int) =~= e);
    lemma_parse_encoded(s, 0, v);
}

/// Every value the parser reads is well-formed.
pub proof fn lemma_parse_value_wf(s: Seq<u8>, p: int)
    ensures
        parse_value_at(s, p) matches Some((v, _)) ==> v.wf(),
    decreases s.len() - p, 0int,
{
    if 0 <= p < s.len() {
        if s[p] == crate::parser::INTEGER_BEGIN {
        } else if is_digit(s[p]) {
            lemma_parse_string_wf(s, p);
        } else if s[p] == crate::parser::DICT_BEGIN {
            lemma_parse_dict_wf(s, p + 1, Seq::empty());
        } else if s[p] == crate::parser::LIST_BEGIN {
            lemma_parse_list_wf(s, p + 1, Seq::empty());
        }
    }
}

/// `skip_digits` stops inside the input, past digits only.
proof fn lemma_skip_digits_bounds(s: Seq<u8>, p: int)
    ensures
        skip_digits(s, p) matches Some(q) ==> 0 <= p <= q < s.len() && !is_digit(s[q]) && forall|
            j: int,
        | p <= j < q ==> is_digit(#[trigger] s[j]),
    decreases s.len() - p,
{
    if 0 <= p < s.len() && is_digit(s[p]) {
        lemma_skip_digits_bounds(s, p + 1);
    }
}

/// A byte string read by the parser is short enough for its length to be an
/// `i64`.
proof fn lemma_parse_string_wf(s: Seq<u8>, p: int)
    ensures
        parse_string_at(s, p) matches Some((v, _)) ==> v is Bytes && v.wf(),
{
    lemma_skip_digits_bounds(s, p);
    if let Some(q) = skip_digits(s, p) {
        if s[q] == STRING_DELIMITER {
            let t = s.subrange(p, q);
            if t.len() > 0 {
                assert(is_digit(s[p]));
                assert(t[0] == s[p]);
            }
            if let Some(n) = crate::number::parse_i64(t) {
                if q + 1 + n <= s.len() {
                    assert(s.subrange(q + 1, q + 1 + n).len() == n);
                }
            }
        } else {
            assert(Seq::<u8>::empty().len() == 0);
        }
    }
}

/// A list read after well-formed elements is well-formed.
proof fn lemma_parse_list_wf(s: Seq<u8>, p: int, acc: Seq<Value>)
    requires
        forall|i: int| 0 <= i < acc.len() ==> (#[trigger] acc[i]).wf(),
    ensures
        parse_list_at(s, p, acc) matches Some((v, _)) ==> v.wf(),
    decreases s.len() - p, 1int,
{
    if 0 <= p < s.len() && s[p] != DATA_END {
        lemma_parse_value_wf(s, p);
        if let Some((x, q)) = parse_value_at(s, p) {
            if p < q <= s.len() {
                assert forall|i: int| 0 <= i < acc.push(x).len() implies (#[trigger] acc.push(
                    x,
                )[i]).wf() by {
                    if i < acc.len() {
                        assert(acc.push(x)[i] == acc[i]);
                    }
                }
                lemma_parse_list_wf(s, q, acc.push(x));
            }
        }
    }
}

/// A dictionary read after well-formed sorted entries is well-formed.
proof fn lemma_parse_dict_wf(s: Seq<u8>, p: int, acc: Seq<(Seq<u8>, Value)>)
    requires
        keys_sorted(acc),
        forall|i: int|
            0 <= i < acc.len() ==> (#[trigger] acc[i]).0.len() <= i64::MAX && acc[i].1.wf(),
    ensures
        parse_dict_at(s, p, acc) matches Some((v, _)) ==> v.wf(),
    decreases s.len() - p, 1int,
{
    if 0 <= p < s.len() && s[p] != DATA_END {
        if let Some((Value::Bytes(k), q)) = parse_string_at(s, p) {
            if p <= q <= s.len() {
                lemma_parse_string_wf(s, p);
                lemma_parse_value_wf(s, q);
                if let Some((x, r)) = parse_value_at(s, q) {
                    if p < r <= s.len() {
                        let next = dict_insert(acc, k, x);
                        lemma_dict_insert_sorted(acc, k, x);
                        assert forall|i: int| 0 <= i < next.len() implies (#[trigger] next[i]).0.len()
                            <= i64::MAX && next[i].1.wf() by {
                            if next[i] != (k, x) {
                                let j = choose|j: int| 0 <= j < acc.len() && acc[j] == next[i];
                                assert(acc[j].0.len() <= i64::MAX);
                            }
                        }
                        lemma_parse_dict_wf(s, r, next);
                    }
                }
            }
        }
    }
}

/// Every value that decoding gives is well-formed, so it encodes to bytes
/// that decode back to it.
pub proof fn lemma_decode_wf(s: Seq<u8>)
    ensures
        spec_decode(s) matches Some(v) ==> v.wf() && spec_decode(spec_encode(v)) == Some(v),
{
    lemma_parse_value_wf(s, 0);
    if let Some(v) = spec_decode(s) {
        lemma_decode_encode(v);
    }
}

} // verus!
