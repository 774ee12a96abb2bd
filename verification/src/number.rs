//! Decimal digits: the text form of integers in bencode.

use vstd::prelude::*;

verus! {

/// The byte is an ASCII decimal digit.
pub open spec fn is_digit(b: u8) -> bool {
    48 <= b <= 57
}

/// Every byte is an ASCII decimal digit.
pub open spec fn all_digits(s: Seq<u8>) -> bool {
    forall|i: int| 0 <= i < s.len() ==> is_digit(#[trigger] s[i])
}

/// The number that a string of decimal digits spells.
pub open spec fn digits_value(s: Seq<u8>) -> nat
    decreases s.len(),
{
    if s.len() == 0 {
        0
    } else {
        digits_value(s.drop_last()) * 10 + (s.last() - 48) as nat
    }
}

/// What `str::parse::<i64>` makes of the text: an optional `+` or `-`, then
/// one or more decimal digits, whose value must fit in an `i64`.
pub open spec fn parse_i64(s: Seq<u8>) -> Option<i64> {
    let signed = s.len() > 0 && (s[0] == 45 || s[0] == 43);
    let body = if signed {
        s.drop_first()
    } else {
        s
    };
    let magnitude = digits_value(body) as int;
    let v = if s.len() > 0 && s[0] == 45 {
        -magnitude
    } else {
        magnitude
    };
    if body.len() == 0 || !all_digits(body) || v < i64::MIN || v > i64::MAX {
        None
    } else {
        Some(v as i64)
    }
}

/// The shortest decimal text of a natural number.
pub open spec fn nat_digits(n: nat) -> Seq<u8>
    decreases n,
{
    if n < 10 {
        seq![(48 + n) as u8]
    } else {
        nat_digits(n / 10).push((48 + n % 10) as u8)
    }
}

/// The decimal text of an integer, with a leading `-` when it is negative.
pub open spec fn int_digits(i: int) -> Seq<u8> {
    if i < 0 {
        seq![45u8] + nat_digits((-i) as nat)
    } else {
        nat_digits(i as nat)
    }
}

/// The decimal text of a number is made of digits, is not empty, and spells
/// the number back.
pub proof fn lemma_nat_digits(n: nat)
    ensures
        all_digits(nat_digits(n)),
        nat_digits(n).len() >= 1,
        digits_value(nat_digits(n)) == n,
    decreases n,
{
    let s = nat_digits(n);
    if n < 10 {
        assert(s.drop_last() =~= Seq::<u8>::empty());
        assert(digits_value(s.drop_last()) == 0);
        assert(s.last() == (48 + n) as u8);
    } else {
        lemma_nat_digits(n / 10);
        assert(s.drop_last() =~= nat_digits(n / 10));
        assert(s.last() == (48 + n % 10) as u8);
        assert(n == (n / 10) * 10 + n % 10);
        assert(digits_value(s) == digits_value(s.drop_last()) * 10 + (s.last() - 48) as nat);
        assert forall|i: int| 0 <= i < s.len() implies is_digit(#[trigger] s[i]) by {
            if i < s.len() - 1 {
                assert(s[i] == nat_digits(n / 10)[i]);
            }
        }
    }
}

/// Parsing the decimal text of an `i64` gives it back.
pub proof fn lemma_parse_int_digits(i: i64)
    ensures
        parse_i64(int_digits(i as int)) == Some(i),
{
    if i < 0 {
        let m = (-i) as nat;
        lemma_nat_digits(m);
        let s = int_digits(i as int);
        assert(s.drop_first() =~= nat_digits(m));
    } else {
        lemma_nat_digits(i as nat);
    }
}

/// A prefix of a digit string spells no more than the whole string.
pub proof fn lemma_digits_value_prefix(s: Seq<u8>, k: int)
    requires
        0 <= k <= s.len(),
    ensures
        digits_value(s.take(k)) <= digits_value(s),
    decreases s.len(),
{
    if k < s.len() {
        lemma_digits_value_prefix(s.drop_last(), k);
        assert(s.drop_last().take(k) =~= s.take(k));
    } else {
        assert(s.take(k) =~= s);
    }
}

/// The decimal text of a natural number below 2^64.
pub fn nat_to_digits(n: u64) -> (res: Vec<u8>)
    ensures
        res@ == nat_digits(n as nat),
    decreases n,
{
    if n < 10 {
        let d: u8 = (48 + n) as u8;
        vec![d]
    } else {
        let mut res = nat_to_digits(n / 10);
        let d: u8 = (48 + n % 10) as u8;
        res.push(d);
        res
    }
}

/// The decimal text of an `i64` (what `i64::to_string` gives).
pub fn integer_to_digits(i: i64) -> (res: Vec<u8>)
    ensures
        res@ == int_digits(i as int),
{
    if i < 0 {
        let magnitude: u64 = if i == i64::MIN {
            9223372036854775808u64
        } else {
            (-i) as u64
        };
        let mut res: Vec<u8> = vec![45u8];
        let mut digits = nat_to_digits(magnitude);
        res.append(&mut digits);
        res
    } else {
        nat_to_digits(i as u64)
    }
}

/// Parses an integer written as `str::parse::<i64>` accepts it.
pub fn chars_to_integer(chars: &[u8]) -> (res: Option<i64>)
    ensures
        res == parse_i64(chars@),
{
    let len = chars.len();
    if len == 0 {
        return None;
    }
    let negative = chars[0] == 45u8;
    let start: usize = if chars[0] == 45u8 || chars[0] == 43u8 {
        1
    } else {
        0
    };
    let ghost body = if start == 1 {
        chars@.drop_first()
    } else {
        chars@
    };
    assert(body =~= chars@.subrange(start as int, len as int));
    if start == len {
        return None;
    }
    let mut i: usize = start;
    let mut acc: u64 = 0;
    while i < len
        invariant
            start <= i <= len,
            len == chars@.len(),
            len > 0,
            start == 0 || start == 1,
            start == 1 <==> (chars@[0] == 45u8 || chars@[0] == 43u8),
            negative == (chars@[0] == 45u8),
            body == (if start == 1 {
                chars@.drop_first()
            } else {
                chars@
            }),
            body == chars@.subrange(start as int, len as int),
            acc == digits_value(body.take(i - start)),
            all_digits(body.take(i - start)),
            acc <= 9223372036854775808u64,
        decreases len - i,
    {
        let b = chars[i];
        let ghost k = i - start;
        assert(body[k] == b);
        if b < 48u8 || b > 57u8 {
            assert(!is_digit(body[k]));
            return None;
        }
        assert(body.take(k + 1).drop_last() =~= body.take(k));
        assert(body.take(k + 1).last() == b);
        if acc > 922337203685477580u64 {
            proof {
                assert(digits_value(body.take(k + 1)) == acc * 10 + (b - 48));
                if all_digits(body) {
                    lemma_digits_value_prefix(body, k + 1);
                    assert(digits_value(body) > 9223372036854775808);
                }
            }
            return None;
        }
        let next: u64 = acc * 10 + (b - 48u8) as u64;
        if next > 9223372036854775808u64 {
            proof {
                assert(digits_value(body.take(k + 1)) == acc * 10 + (b - 48));
                if all_digits(body) {
                    lemma_digits_value_prefix(body, k + 1);
                    assert(digits_value(body) > 9223372036854775808);
                }
            }
            return None;
        }
        acc = next;
        i = i + 1;
        assert(all_digits(body.take(i - start))) by {
            assert forall|j: int| 0 <= j < i - start implies is_digit(
                #[trigger] body.take(i - start)[j],
            ) by {
                if j < k {
                    assert(body.take(i - start)[j] == body.take(k)[j]);
                }
            }
        }
    }
    assert(body.take(len - start) =~= body);
    if negative {
        if acc == 9223372036854775808u64 {
            Some(i64::MIN)
        } else {
            Some(-(acc as i64))
        }
    } else {
        if acc > 9223372036854775807u64 {
            None
        } else {
            Some(acc as i64)
        }
    }
}

} // verus!
