//! A 256-bit unsigned value held as 32 big-endian bytes: the value type for
//! tree leaves and digests, with total order, zero test and byte access.

use vstd::prelude::*;
use vstd::arithmetic::power::pow;
use vstd::arithmetic::power::lemma_pow_positive;
use vstd::arithmetic::power::lemma_pow0;
use vstd::arithmetic::power::lemma_pow1;
use vstd::arithmetic::power::lemma_pow_adds;

verus! {

/// The numeric value of a big-endian byte string.
pub open spec fn be_val(s: Seq<u8>) -> nat
    decreases s.len(),
{
    if s.len() == 0 {
        0
    } else {
        be_val(s.drop_last()) * 256 + s.last() as nat
    }
}

/// The 32-byte all-zero string: the encoding of the value zero.
pub open spec fn zero_bytes() -> Seq<u8> {
    Seq::new(32, |i: int| 0u8)
}

/// A byte string encodes zero exactly when every byte is zero.
pub proof fn lemma_be_val_zero(s: Seq<u8>)
    ensures
        (be_val(s) == 0) <==> (forall|k: int| 0 <= k < s.len() ==> s[k] == 0),
    decreases s.len(),
{
    if s.len() == 0 {
    } else {
        lemma_be_val_zero(s.drop_last());
        if be_val(s) == 0 {
            assert(be_val(s.drop_last()) == 0);
            assert forall|k: int| 0 <= k < s.len() implies s[k] == 0 by {
                if k < s.len() - 1 {
                    assert(s[k] == s.drop_last()[k]);
                } else {
                    assert(s[k] == s.last());
                }
            }
        }
        if forall|k: int| 0 <= k < s.len() ==> s[k] == 0 {
            assert forall|k: int| 0 <= k < s.drop_last().len() implies s.drop_last()[k] == 0 by {
                assert(s.drop_last()[k] == s[k]);
            }
            assert(be_val(s.drop_last()) == 0);
            assert(s.last() == s[s.len() - 1]);
        }
    }
}

/// One unfolding of the power: 256^e == 256 * 256^(e-1).
proof fn lemma_pow256_unfold(e: nat)
    requires
        e >= 1,
    ensures
        pow(256, e) == 256 * pow(256, (e - 1) as nat),
{
    lemma_pow1(256);
    lemma_pow_adds(256, 1, (e - 1) as nat);
}

/// A byte string of length n encodes a value below 256^n.
pub proof fn lemma_be_val_bound(s: Seq<u8>)
    ensures
        be_val(s) < pow(256, s.len()),
    decreases s.len(),
{
    if s.len() == 0 {
        lemma_pow0(256);
    } else {
        lemma_be_val_bound(s.drop_last());
        let b = be_val(s.drop_last());
        let p = pow(256, (s.len() - 1) as nat);
        lemma_pow256_unfold(s.len());
        assert(b * 256 + s.last() < 256 * p) by (nonlinear_arith)
            requires
                b < p,
                s.last() < 256,
        ;
    }
}

/// Extending a byte string on the right shifts its value one byte up.
pub proof fn lemma_be_val_take_succ(s: Seq<u8>, i: int)
    requires
        0 <= i < s.len(),
    ensures
        be_val(s.take(i + 1)) == be_val(s.take(i)) * 256 + s[i],
{
    assert(s.take(i + 1).drop_last() =~= s.take(i));
    assert(s.take(i + 1).last() == s[i]);
}

/// The value of a concatenation: the left part is shifted past the right.
pub proof fn lemma_be_val_concat(a: Seq<u8>, b: Seq<u8>)
    ensures
        be_val(a + b) == be_val(a) * pow(256, b.len()) + be_val(b),
    decreases b.len(),
{
    if b.len() == 0 {
        assert(a + b =~= a);
        lemma_pow0(256);
    } else {
        lemma_be_val_concat(a, b.drop_last());
        assert((a + b).drop_last() =~= a + b.drop_last());
        assert((a + b).last() == b.last());
        let p1 = pow(256, (b.len() - 1) as nat);
        lemma_pow256_unfold(b.len());
        assert((be_val(a) * p1 + be_val(b.drop_last())) * 256 == be_val(a) * (256 * p1)
            + be_val(b.drop_last()) * 256) by (nonlinear_arith);
    }
}

/// For equal-length byte strings, the first differing byte decides the order.
pub proof fn lemma_be_val_lex(a: Seq<u8>, b: Seq<u8>, i: int)
    requires
        a.len() == b.len(),
        0 <= i < a.len(),
        forall|k: int| 0 <= k < i ==> a[k] == b[k],
        a[i] < b[i],
    ensures
        be_val(a) < be_val(b),
{
    let n = a.len() as int;
    let p = pow(256, (n - i - 1) as nat);
    assert(a =~= a.take(i + 1) + a.skip(i + 1));
    assert(b =~= b.take(i + 1) + b.skip(i + 1));
    lemma_be_val_concat(a.take(i + 1), a.skip(i + 1));
    lemma_be_val_concat(b.take(i + 1), b.skip(i + 1));
    lemma_be_val_take_succ(a, i);
    lemma_be_val_take_succ(b, i);
    assert(a.take(i) =~= b.take(i));
    lemma_be_val_bound(a.skip(i + 1));
    lemma_be_val_bound(b.skip(i + 1));
    lemma_pow_positive(256, (n - i - 1) as nat);
    let ta = be_val(a.take(i + 1));
    let tb = be_val(b.take(i + 1));
    let ra = be_val(a.skip(i + 1));
    let rb = be_val(b.skip(i + 1));
    assert(a.skip(i + 1).len() == n - i - 1);
    assert(b.skip(i + 1).len() == n - i - 1);
    assert(ta * p + ra < tb * p + rb) by (nonlinear_arith)
        requires
            ta + 1 <= tb,
            ra < p,
            0 < p,
    ;
    assert(be_val(a) == ta * p + ra);
    assert(be_val(b) == tb * p + rb);
}

/// A 256-bit unsigned integer, stored as its fixed 32-byte big-endian
/// serialization. The view is that byte string; `be_val` gives its number.
#[derive(Clone, Copy, PartialEq, Eq, Debug)]
pub struct Hash256 {
    pub bytes: [u8; 32],
}

impl View for Hash256 {
    type V = Seq<u8>;

    open spec fn view(&self) -> Seq<u8> {
        self.bytes@
    }
}

impl Hash256 {
    /// The value zero: all 32 bytes zero.
    pub fn zero() -> (r: Hash256)
        ensures
            r@ == zero_bytes(),
            be_val(r@) == 0,
    {
        let bytes = [0u8; 32];
        proof {
            assert(bytes@ =~= zero_bytes());
            lemma_be_val_zero(bytes@);
        }
        Hash256 { bytes }
    }

    /// Builds the value from a machine integer: 24 zero bytes, then the
    /// integer's 8 big-endian bytes.
    pub fn from_u64(x: u64) -> (r: Hash256)
        ensures
            be_val(r@) == x,
    {
        let mut bytes = [0u8; 32];
        let b0: u8 = ((x >> 56) & 0xff) as u8;
        let b1: u8 = ((x >> 48) & 0xff) as u8;
        let b2: u8 = ((x >> 40) & 0xff) as u8;
        let b3: u8 = ((x >> 32) & 0xff) as u8;
        let b4: u8 = ((x >> 24) & 0xff) as u8;
        let b5: u8 = ((x >> 16) & 0xff) as u8;
        let b6: u8 = ((x >> 8) & 0xff) as u8;
        let b7: u8 = (x & 0xff) as u8;
        bytes[24] = b0;
        bytes[25] = b1;
        bytes[26] = b2;
        bytes[27] = b3;
        bytes[28] = b4;
        bytes[29] = b5;
        bytes[30] = b6;
        bytes[31] = b7;
        proof {
            let s = bytes@;
            assert forall|k: int| 0 <= k < s.take(24).len() implies s.take(24)[k] == 0 by {
                assert(s.take(24)[k] == s[k]);
            }
            lemma_be_val_zero(s.take(24));
            lemma_be_val_take_succ(s, 24);
            lemma_be_val_take_succ(s, 25);
            lemma_be_val_take_succ(s, 26);
            lemma_be_val_take_succ(s, 27);
            lemma_be_val_take_succ(s, 28);
            lemma_be_val_take_succ(s, 29);
            lemma_be_val_take_succ(s, 30);
            lemma_be_val_take_succ(s, 31);
            assert(s.take(32) =~= s);
            assert(((((((((x >> 56) & 0xff) * 256 + ((x >> 48) & 0xff)) * 256 + ((x >> 40)
                & 0xff)) * 256 + ((x >> 32) & 0xff)) * 256 + ((x >> 24) & 0xff)) * 256 + ((x
                >> 16) & 0xff)) * 256 + ((x >> 8) & 0xff)) * 256 + (x & 0xff) == x)
                by (bit_vector);
            assert((x >> 56) & 0xff < 256 && (x >> 48) & 0xff < 256 && (x >> 40) & 0xff < 256
                && (x >> 32) & 0xff < 256 && (x >> 24) & 0xff < 256 && (x >> 16) & 0xff < 256
                && (x >> 8) & 0xff < 256 && x & 0xff < 256) by (bit_vector);
        }
        Hash256 { bytes }
    }

    /// True exactly when the value is zero.
    pub fn is_zero(&self) -> (r: bool)
        ensures
            r == (be_val(self@) == 0),
    {
        let mut i: usize = 0;
        while i < 32
            invariant
                i <= 32,
                forall|k: int| 0 <= k < i ==> self@[k] == 0,
            decreases 32 - i,
        {
            if self.bytes[i] != 0 {
                proof {
                    lemma_be_val_zero(self@);
                }
                return false;
            }
            i += 1;
        }
        proof {
            lemma_be_val_zero(self@);
        }
        true
    }

    /// Strict numeric order, decided by the first differing byte.
    pub fn lt(&self, other: &Hash256) -> (r: bool)
        ensures
            r == (be_val(self@) < be_val(other@)),
    {
        let mut i: usize = 0;
        while i < 32
            invariant
                i <= 32,
                forall|k: int| 0 <= k < i ==> self@[k] == other@[k],
            decreases 32 - i,
        {
            let a = self.bytes[i];
            let b = other.bytes[i];
            if a < b {
                proof {
                    lemma_be_val_lex(self@, other@, i as int);
                }
                return true;
            }
            if a > b {
                proof {
                    lemma_be_val_lex(other@, self@, i as int);
                }
                return false;
            }
            i += 1;
        }
        proof {
            assert(self@ =~= other@);
        }
        false
    }

    /// Numeric equality, decided byte by byte.
    pub fn eq_value(&self, other: &Hash256) -> (r: bool)
        ensures
            r == (be_val(self@) == be_val(other@)),
    {
        let mut i: usize = 0;
        while i < 32
            invariant
                i <= 32,
                forall|k: int| 0 <= k < i ==> self@[k] == other@[k],
            decreases 32 - i,
        {
            let a = self.bytes[i];
            let b = other.bytes[i];
            if a < b {
                proof {
                    lemma_be_val_lex(self@, other@, i as int);
                }
                return false;
            }
            if a > b {
                proof {
                    lemma_be_val_lex(other@, self@, i as int);
                }
                return false;
            }
            i += 1;
        }
        proof {
            assert(self@ =~= other@);
        }
        true
    }

    /// Appends the 32 serialization bytes to a buffer.
    pub fn append_to(&self, out: &mut Vec<u8>)
        ensures
            final(out)@ == old(out)@ + self@,
    {
        let ghost out0 = out@;
        let mut i: usize = 0;
        while i < 32
            invariant
                i <= 32,
                out@ == out0 + self@.take(i as int),
            decreases 32 - i,
        {
            out.push(self.bytes[i]);
            proof {
                assert(out@ =~= out0 + self@.take(i + 1));
            }
            i += 1;
        }
        proof {
            assert(self@.take(32) =~= self@);
        }
    }

    /// Rebuilds the value from its 32 serialization bytes.
    pub fn from_bytes(input: &Vec<u8>) -> (r: Hash256)
        requires
            input@.len() == 32,
        ensures
            r@ == input@,
    {
        let mut bytes = [0u8; 32];
        let mut i: usize = 0;
        while i < 32
            invariant
                i <= 32,
                input@.len() == 32,
                bytes@.len() == 32,
                forall|k: int| 0 <= k < i ==> bytes@[k] == input@[k],
            decreases 32 - i,
        {
            bytes[i] = input[i];
            i += 1;
        }
        proof {
            assert(bytes@ =~= input@);
        }
        Hash256 { bytes }
    }
}

} // verus!
