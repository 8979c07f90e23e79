//! Byte-string helpers and facts about little-endian values.
use crate::primitives::{is_scalar, le_value};
use vstd::prelude::*;

verus! {

broadcast use crate::primitives::lemma_le_nonneg;

/// Two byte strings of equal length with equal little-endian values are equal.
pub proof fn lemma_le_injective(a: Seq<u8>, b: Seq<u8>)
    requires
        a.len() == b.len(),
        le_value(a) == le_value(b),
    ensures
        a == b,
    decreases a.len(),
{
    if a.len() > 0 {
        let ta = a.subrange(1, a.len() as int);
        let tb = b.subrange(1, b.len() as int);
        assert(a[0] as int - b[0] as int == 256 * (le_value(tb) - le_value(ta)));
        assert(le_value(tb) == le_value(ta));
        lemma_le_injective(ta, tb);
        assert(a =~= b) by {
            assert forall|i: int| 0 <= i < a.len() implies a[i] == b[i] by {
                if i > 0 {
                    assert(a[i] == ta[i - 1]);
                    assert(b[i] == tb[i - 1]);
                }
            }
        }
    } else {
        assert(a =~= b);
    }
}

/// A byte string whose bytes after the first are zero encodes its first byte.
pub proof fn lemma_le_low_byte(b: Seq<u8>)
    requires
        b.len() >= 1,
        forall|i: int| 1 <= i < b.len() ==> b[i] == 0,
    ensures
        le_value(b) == b[0] as int,
    decreases b.len(),
{
    let t = b.subrange(1, b.len() as int);
    if t.len() >= 1 {
        assert forall|i: int| 1 <= i < t.len() implies t[i] == 0 by {
            assert(t[i] == b[i + 1]);
        }
        lemma_le_low_byte(t);
        assert(t[0] == b[1]);
    }
    assert(le_value(t) == 0);
}

/// The canonical encoding of the scalar with value `v < 256`.
pub fn small_scalar(v: u8) -> (r: [u8; 32])
    ensures
        le_value(r@) == v as int,
        is_scalar(r@),
{
    let mut r = [0u8; 32];
    r[0] = v;
    proof {
        assert forall|i: int| 1 <= i < r@.len() implies r@[i] == 0 by {}
        lemma_le_low_byte(r@);
    }
    r
}

/// Appends the bytes of `b` to `buf`.
pub fn append(buf: &mut Vec<u8>, b: &[u8])
    ensures
        final(buf)@ == old(buf)@ + b@,
{
    let mut i: usize = 0;
    while i < b.len()
        invariant
            i <= b@.len(),
            buf@ == old(buf)@ + b@.subrange(0, i as int),
        decreases b@.len() - i,
    {
        buf.push(b[i]);
        i = i + 1;
        assert(buf@ =~= old(buf)@ + b@.subrange(0, i as int));
    }
    assert(b@.subrange(0, i as int) =~= b@);
}

/// Byte-wise equality of two 32-byte strings.
pub fn bytes_eq(a: &[u8; 32], b: &[u8; 32]) -> (r: bool)
    ensures
        r == (a@ == b@),
{
    let mut i: usize = 0;
    while i < 32
        invariant
            i <= 32,
            a@.len() == 32,
            b@.len() == 32,
            forall|k: int| 0 <= k < i ==> a@[k] == b@[k],
        decreases 32 - i,
    {
        if a[i] != b[i] {
            return false;
        }
        i = i + 1;
    }
    assert(a@ =~= b@);
    true
}

/// Whether two canonical scalar encodings stand for the same scalar.
pub fn scalar_eq(a: &[u8; 32], b: &[u8; 32]) -> (r: bool)
    ensures
        r == (le_value(a@) == le_value(b@)),
{
    let r = bytes_eq(a, b);
    proof {
        if le_value(a@) == le_value(b@) {
            lemma_le_injective(a@, b@);
        }
    }
    r
}

} // verus!
