//! Comparisons and copies of byte strings.

use vstd::prelude::*;

use crate::value::bytes_lt;

verus! {

/// Past a common prefix, the order of two byte strings is that of their rests.
pub proof fn lemma_bytes_lt_skip(a: Seq<u8>, b: Seq<u8>, i: int)
    requires
        0 <= i <= a.len(),
        i <= b.len(),
        a.take(i) == b.take(i),
    ensures
        bytes_lt(a, b) == bytes_lt(a.skip(i), b.skip(i)),
    decreases i,
{
    if i == 0 {
        assert(a.skip(0) =~= a);
        assert(b.skip(0) =~= b);
    } else {
        assert(a[0] == a.take(i)[0] && b[0] == b.take(i)[0]);
        assert(a.drop_first().take(i - 1) =~= b.drop_first().take(i - 1)) by {
            assert forall|j: int| 0 <= j < i - 1 implies #[trigger] a.drop_first().take(i - 1)[j]
                == b.drop_first().take(i - 1)[j] by {
                assert(a.take(i)[j + 1] == b.take(i)[j + 1]);
                assert(a.drop_first().take(i - 1)[j] == a.take(i)[j + 1]);
                assert(b.drop_first().take(i - 1)[j] == b.take(i)[j + 1]);
            }
        }
        lemma_bytes_lt_skip(a.drop_first(), b.drop_first(), i - 1);
        assert(a.drop_first().skip(i - 1) =~= a.skip(i));
        assert(b.drop_first().skip(i - 1) =~= b.skip(i));
    }
}

/// Length of the common prefix of two byte strings.
fn common_prefix_len(a: &[u8], b: &[u8]) -> (n: usize)
    ensures
        n <= a.len(),
        n <= b.len(),
        a@.take(n as int) == b@.take(n as int),
        n < a.len() && n < b.len() ==> a@[n as int] != b@[n as int],
{
    let mut i: usize = 0;
    while i < a.len() && i < b.len() && a[i] == b[i]
        invariant
            i <= a.len(),
            i <= b.len(),
            a@.take(i as int) == b@.take(i as int),
        decreases a.len() - i,
    {
        assert(a@.take(i + 1) =~= a@.take(i as int).push(a@[i as int]));
        assert(b@.take(i + 1) =~= b@.take(i as int).push(b@[i as int]));
        i = i + 1;
    }
    i
}

/// Whether `a` comes before `b` in lexicographic order.
pub fn bytes_less(a: &[u8], b: &[u8]) -> (res: bool)
    ensures
        res == bytes_lt(a@, b@),
{
    let n = common_prefix_len(a, b);
    proof {
        lemma_bytes_lt_skip(a@, b@, n as int);
        let sa = a@.skip(n as int);
        let sb = b@.skip(n as int);
        if sa.len() > 0 && sb.len() > 0 {
            assert(sa[0] == a@[n as int] && sb[0] == b@[n as int]);
        }
    }
    if n == a.len() {
        n < b.len()
    } else if n == b.len() {
        false
    } else {
        a[n] < b[n]
    }
}

/// Whether two byte strings are equal.
pub fn bytes_equal(a: &[u8], b: &[u8]) -> (res: bool)
    ensures
        res == (a@ == b@),
{
    if a.len() != b.len() {
        return false;
    }
    let n = common_prefix_len(a, b);
    if n == a.len() {
        assert(a@ =~= a@.take(n as int));
        assert(b@ =~= b@.take(n as int));
        true
    } else {
        assert(a@[n as int] != b@[n as int]);
        false
    }
}

/// A fresh vector holding the same bytes.
pub fn copy_bytes(a: &[u8]) -> (res: Vec<u8>)
    ensures
        res@ == a@,
{
    let mut res: Vec<u8> = Vec::with_capacity(a.len());
    let mut i: usize = 0;
    while i < a.len()
        invariant
            i <= a.len(),
            res@ == a@.take(i as int),
        decreases a.len() - i,
    {
        res.push(a[i]);
        i = i + 1;
        assert(res@ =~= a@.take(i as int));
    }
    assert(a@.take(a.len() as int) =~= a@);
    res
}

} // verus!
