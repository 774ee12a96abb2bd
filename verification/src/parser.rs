//! The bencode parser: a cursor over the input that reads one value at a time.

use vstd::prelude::*;

use crate::data_type::{DataType, Dict, list_view};
use crate::number::{chars_to_integer, is_digit, parse_i64};
use crate::value::{Value, dict_insert};

verus! {

/// Byte that opens an integer.
pub const INTEGER_BEGIN: u8 = 105;
/// Byte that opens a dictionary.
pub const DICT_BEGIN: u8 = 100;
/// Byte that opens a list.
pub const LIST_BEGIN: u8 = 108;
/// Byte that closes an integer, a list or a dictionary.
pub const DATA_END: u8 = 101;
/// Byte between the length of a byte string and its content.
pub const STRING_DELIMITER: u8 = 58;
/// The digit `0`.
pub const ZERO_BYTE: u8 = 48;
/// The digit `9`.
pub const NINE_BYTE: u8 = 57;

/// The first index from `p` on whose byte is not a digit; `None` when the
/// input ends first.
pub open spec fn skip_digits(s: Seq<u8>, p: int) -> Option<int>
    decreases s.len() - p,
{
    if p < 0 || p >= s.len() {
        None
    } else if is_digit(s[p]) {
        skip_digits(s, p + 1)
    } else {
        Some(p)
    }
}

/// The first index from `p` on that holds `DATA_END`; `None` when the input
/// ends first.
pub open spec fn find_end(s: Seq<u8>, p: int) -> Option<int>
    decreases s.len() - p,
{
    if p < 0 || p >= s.len() {
        None
    } else if s[p] == DATA_END {
        Some(p)
    } else {
        find_end(s, p + 1)
    }
}

/// An integer whose text starts at `p` (just past its `i`): every byte up to
/// the next `e`, read as `str::parse::<i64>` reads it.
pub open spec fn parse_integer_at(s: Seq<u8>, p: int) -> Option<(Value, int)> {
    match find_end(s, p) {
        Some(q) => match parse_i64(s.subrange(p, q)) {
            Some(n) => Some((Value::Int(n), q + 1)),
            None => None,
        },
        None => None,
    }
}

/// A byte string at `p`: digits, `:`, then that many bytes. When the digits
/// are followed by another byte than `:`, the result is the empty string and
/// the cursor stays on that byte.
pub open spec fn parse_string_at(s: Seq<u8>, p: int) -> Option<(Value, int)> {
    match skip_digits(s, p) {
        None => None,
        Some(q) => if s[q] == STRING_DELIMITER {
            match parse_i64(s.subrange(p, q)) {
                None => None,
                Some(n) => if q + 1 + n <= s.len() {
                    Some((Value::Bytes(s.subrange(q + 1, q + 1 + n)), q + 1 + n))
                } else {
                    None
                },
            }
        } else {
            Some((Value::Bytes(Seq::empty()), q))
        },
    }
}

/// The value that starts at `p` and the index just past it; `None` where the
/// input runs out, a number does not parse, or a list or dictionary would
/// never end because an element consumes nothing. A byte that opens no value
/// reads as the integer 0 and consumes nothing.
pub open spec fn parse_value_at(s: Seq<u8>, p: int) -> Option<(Value, int)>
    decreases s.len() - p, 0int,
{
    if p < 0 || p >= s.len() {
        None
    } else if s[p] == INTEGER_BEGIN {
        parse_integer_at(s, p + 1)
    } else if is_digit(s[p]) {
        parse_string_at(s, p)
    } else if s[p] == DICT_BEGIN {
        parse_dict_at(s, p + 1, Seq::empty())
    } else if s[p] == LIST_BEGIN {
        parse_list_at(s, p + 1, Seq::empty())
    } else {
        Some((Value::Int(0), p))
    }
}

/// The rest of a list from `p` on, after the elements `acc`.
pub open spec fn parse_list_at(s: Seq<u8>, p: int, acc: Seq<Value>) -> Option<(Value, int)>
    decreases s.len() - p, 1int,
{
    if p < 0 || p >= s.len() {
        None
    } else if s[p] == DATA_END {
        Some((Value::List(acc), p + 1))
    } else {
        match parse_value_at(s, p) {
            None => None,
            Some((v, q)) => if p < q <= s.len() {
                parse_list_at(s, q, acc.push(v))
            } else {
                None
            },
        }
    }
}

/// The rest of a dictionary from `p` on, after the entries `acc`; a key read
/// again replaces the value it had.
pub open spec fn parse_dict_at(s: Seq<u8>, p: int, acc: Seq<(Seq<u8>, Value)>) -> Option<
    (Value, int),
>
    decreases s.len() - p, 1int,
{
    if p < 0 || p >= s.len() {
        None
    } else if s[p] == DATA_END {
        Some((Value::Dict(acc), p + 1))
    } else {
        match parse_string_at(s, p) {
            Some((Value::Bytes(k), q)) => if p <= q <= s.len() {
                match parse_value_at(s, q) {
                    Some((v, r)) => if p < r <= s.len() {
                        parse_dict_at(s, r, dict_insert(acc, k, v))
                    } else {
                        None
                    },
                    None => None,
                }
            } else {
                None
            },
            _ => None,
        }
    }
}

/// A cursor over bencoded input.
pub struct Parser<'input> {
    pub position: usize,
    pub input: &'input [u8],
}

impl<'input> Parser<'input> {
    /// Reads the value at the cursor and moves past it.
    pub fn parse(&mut self) -> (res: DataType)
        requires
            parse_value_at(old(self).input@, old(self).position as int) is Some,
        ensures
            final(self).input == old(self).input,
            parse_value_at(old(self).input@, old(self).position as int) == Some(
                (res@, final(self).position as int),
            ),
    {
        match self.try_parse() {
            Some(v) => v,
            None => DataType::Integer(0),
        }
    }

    /// Reads the value at the cursor and moves past it; `None` where the input
    /// holds no complete value there.
    pub fn try_parse(&mut self) -> (res: Option<DataType>)
        ensures
            final(self).input == old(self).input,
            res is Some <==> parse_value_at(old(self).input@, old(self).position as int) is Some,
            res matches Some(v) ==> parse_value_at(old(self).input@, old(self).position as int)
                == Some((v@, final(self).position as int)),
            res is Some ==> final(self).position <= final(self).input.len(),
        decreases old(self).input.len() - old(self).position, 0int,
    {
        if self.position >= self.input.len() {
            return None;
        }
        let b = self.input[self.position];
        if b == INTEGER_BEGIN {
            self.position = self.position + 1;
            self.parse_integer()
        } else if ZERO_BYTE <= b && b <= NINE_BYTE {
            self.parse_string()
        } else if b == DICT_BEGIN {
            self.position = self.position + 1;
            self.parse_dict()
        } else if b == LIST_BEGIN {
            self.position = self.position + 1;
            self.parse_list()
        } else {
            Some(DataType::Integer(0))
        }
    }

    /// Reads the integer whose digits start at the cursor, up to its `e`.
    fn parse_integer(&mut self) -> (res: Option<DataType>)
        requires
            old(self).position <= old(self).input.len(),
        ensures
            final(self).input == old(self).input,
            res is Some <==> parse_integer_at(old(self).input@, old(self).position as int) is Some,
            res matches Some(v) ==> parse_integer_at(old(self).input@, old(self).position as int)
                == Some((v@, final(self).position as int)),
            res is Some ==> final(self).position <= final(self).input.len(),
    {
        let ghost s = self.input@;
        let ghost p0 = self.position as int;
        let mut res: Vec<u8> = Vec::new();
        loop
            invariant
                self.input@ == s,
                self.input == old(self).input,
                s == old(self).input@,
                p0 == old(self).position as int,
                p0 <= self.position <= s.len(),
                find_end(s, p0) == find_end(s, self.position as int),
                res@ == s.subrange(p0, self.position as int),
            decreases s.len() - self.position,
        {
            if self.position >= self.input.len() {
                return None;
            }
            let byte = self.input[self.position];
            if byte == DATA_END {
                self.position = self.position + 1;
                return match chars_to_integer(res.as_slice()) {
                    Some(n) => Some(DataType::Integer(n)),
                    None => None,
                };
            }
            self.position = self.position + 1;
            res.push(byte);
            assert(res@ =~= s.subrange(p0, self.position as int));
        }
    }

    /// Reads a byte string: its length in digits, `:`, then its bytes.
    fn parse_string(&mut self) -> (res: Option<DataType>)
        requires
            old(self).position <= old(self).input.len(),
        ensures
            final(self).input == old(self).input,
            res is Some <==> parse_string_at(old(self).input@, old(self).position as int) is Some,
            res matches Some(v) ==> parse_string_at(old(self).input@, old(self).position as int)
                == Some((v@, final(self).position as int)),
            res is Some ==> old(self).position <= final(self).position <= final(self).input.len(),
    {
        let ghost s = self.input@;
        let ghost p0 = self.position as int;
        let mut length: Vec<u8> = Vec::new();
        loop
            invariant
                self.input@ == s,
                self.input == old(self).input,
                s == old(self).input@,
                p0 == old(self).position as int,
                p0 <= self.position <= s.len(),
                skip_digits(s, p0) == skip_digits(s, self.position as int),
                length@ == s.subrange(p0, self.position as int),
            decreases s.len() - self.position,
        {
            if self.position >= self.input.len() {
                return None;
            }
            let byte = self.input[self.position];
            if ZERO_BYTE <= byte && byte <= NINE_BYTE {
                self.position = self.position + 1;
                length.push(byte);
                assert(length@ =~= s.subrange(p0, self.position as int));
            } else if byte == STRING_DELIMITER {
                self.position = self.position + 1;
                let n = match chars_to_integer(length.as_slice()) {
                    Some(n) => n,
                    None => return None,
                };
                let start = self.position;
                if (n as u64) > ((self.input.len() - start) as u64) {
                    return None;
                }
                let end = start + n as usize;
                let mut res: Vec<u8> = Vec::with_capacity(n as usize);
                while self.position < end
                    invariant
                        self.input@ == s,
                        start <= self.position <= end,
                        end <= s.len(),
                        res@ == s.subrange(start as int, self.position as int),
                    decreases end - self.position,
                {
                    res.push(self.input[self.position]);
                    self.position = self.position + 1;
                    assert(res@ =~= s.subrange(start as int, self.position as int));
                }
                return Some(DataType::ByteString(res));
            } else {
                let empty: Vec<u8> = Vec::new();
                assert(empty@ =~= Seq::<u8>::empty());
                return Some(DataType::ByteString(empty));
            }
        }
    }

    /// Reads list elements up to the closing `e`.
    fn parse_list(&mut self) -> (res: Option<DataType>)
        requires
            old(self).position <= old(self).input.len(),
        ensures
            final(self).input == old(self).input,
            res is Some <==> parse_list_at(old(self).input@, old(self).position as int, Seq::empty())
                is Some,
            res matches Some(v) ==> parse_list_at(
                old(self).input@,
                old(self).position as int,
                Seq::empty(),
            ) == Some((v@, final(self).position as int)),
            res is Some ==> final(self).position <= final(self).input.len(),
        decreases old(self).input.len() - old(self).position, 1int,
    {
        let ghost s = self.input@;
        let ghost p0 = self.position as int;
        let mut v: Vec<DataType> = Vec::new();
        assert(list_view(v@) =~= Seq::<Value>::empty());
        loop
            invariant
                self.input@ == s,
                self.input == old(self).input,
                s == old(self).input@,
                p0 == old(self).position as int,
                p0 <= self.position,
                parse_list_at(s, p0, Seq::empty()) == parse_list_at(
                    s,
                    self.position as int,
                    list_view(v@),
                ),
            decreases s.len() - self.position,
        {
            if self.position >= self.input.len() {
                return None;
            }
            if self.input[self.position] == DATA_END {
                self.position = self.position + 1;
                return Some(DataType::List(v));
            }
            let before = self.position;
            match self.try_parse() {
                None => {
                    return None;
                },
                Some(x) => {
                    if self.position <= before {
                        return None;
                    }
                    let ghost old_v = v@;
                    v.push(x);
                    assert(list_view(v@) =~= list_view(old_v).push(x@));
                },
            }
        }
    }

    /// Reads dictionary entries up to the closing `e`.
    fn parse_dict(&mut self) -> (res: Option<DataType>)
        requires
            old(self).position <= old(self).input.len(),
        ensures
            final(self).input == old(self).input,
            res is Some <==> parse_dict_at(old(self).input@, old(self).position as int, Seq::empty())
                is Some,
            res matches Some(v) ==> parse_dict_at(
                old(self).input@,
                old(self).position as int,
                Seq::empty(),
            ) == Some((v@, final(self).position as int)),
            res is Some ==> final(self).position <= final(self).input.len(),
        decreases old(self).input.len() - old(self).position, 1int,
    {
        let ghost s = self.input@;
        let ghost p0 = self.position as int;
        let mut map = Dict::new();
        loop
            invariant
                self.input@ == s,
                self.input == old(self).input,
                s == old(self).input@,
                p0 == old(self).position as int,
                p0 <= self.position,
                parse_dict_at(s, p0, Seq::empty()) == parse_dict_at(
                    s,
                    self.position as int,
                    map@,
                ),
            decreases s.len() - self.position,
        {
            if self.position >= self.input.len() {
                return None;
            }
            if self.input[self.position] == DATA_END {
                self.position = self.position + 1;
                return Some(DataType::Dictionary(map));
            }
            let before = self.position;
            match self.parse_string() {
                Some(DataType::ByteString(key)) => {
                    match self.try_parse() {
                        None => {
                            return None;
                        },
                        Some(value) => {
                            if self.position <= before {
                                return None;
                            }
                            map.insert(key, value);
                        },
                    }
                },
                _ => {
                    return None;
                },
            }
        }
    }
}

} // verus!
