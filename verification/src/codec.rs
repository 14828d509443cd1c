//! Big-endian byte encoding and decoding of values, fixed-width encoding
//! with zero left-padding, and length-prefixed message fields.

use vstd::prelude::*;
use vstd::arithmetic::power2::{pow2, lemma_pow2_adds, lemma_pow2_pos, lemma2_to64,
    lemma_pow2_strictly_increases};
use vstd::arithmetic::div_mod::{lemma_fundamental_div_mod, lemma_basic_div,
    lemma_div_is_ordered_by_denominator};
use crate::limbs::{pb, limbs_value, lemma_lv_bound};
use crate::bigint::BigInt;
use crate::Error;

verus! {

/// Value of a big-endian byte sequence.
pub open spec fn be_bytes_value(s: Seq<u8>) -> nat
    decreases s.len(),
{
    if s.len() == 0 {
        0
    } else {
        be_bytes_value(s.drop_last()) * 256 + (s.last() as nat)
    }
}

/// Value of a little-endian byte sequence.
pub open spec fn le_bytes_value(s: Seq<u8>) -> nat
    decreases s.len(),
{
    if s.len() == 0 {
        0
    } else {
        s[0] as nat + 256 * le_bytes_value(s.skip(1))
    }
}

/// How many base-256 digits a value needs.
pub open spec fn byte_len(v: nat) -> nat
    decreases v,
{
    if v == 0 {
        0
    } else {
        1 + byte_len(v / 256)
    }
}

/// A byte sequence is worth less than 256 to its length.
pub proof fn lemma_be_bound(s: Seq<u8>)
    ensures
        be_bytes_value(s) < pow2(8 * s.len()),
    decreases s.len(),
{
    lemma2_to64();
    if s.len() > 0 {
        lemma_be_bound(s.drop_last());
        lemma_pow2_adds(8 * (s.len() - 1) as nat, 8);
        lemma2_to64();
        assert(be_bytes_value(s.drop_last()) * 256 + s.last() < pow2(8 * (s.len() - 1) as nat)
            * 256) by (nonlinear_arith)
            requires
                be_bytes_value(s.drop_last()) < pow2(8 * (s.len() - 1) as nat),
                s.last() < 256,
        ;
    }
}

/// Concatenation splits a big-endian value at the boundary.
pub proof fn lemma_be_concat(t: Seq<u8>, s: Seq<u8>)
    ensures
        be_bytes_value(t + s) == be_bytes_value(t) * pow2(8 * s.len()) + be_bytes_value(s),
    decreases s.len(),
{
    lemma2_to64();
    if s.len() == 0 {
        assert(t + s =~= t);
        assert(pow2(8 * s.len()) == 1);
        assert(be_bytes_value(t) * 1 == be_bytes_value(t));
    } else {
        assert((t + s).drop_last() =~= t + s.drop_last());
        assert((t + s).last() == s.last());
        lemma_be_concat(t, s.drop_last());
        lemma_pow2_adds(8 * (s.len() - 1) as nat, 8);
        lemma2_to64();
        let bt = be_bytes_value(t);
        let bd = be_bytes_value(s.drop_last());
        let p = pow2(8 * (s.len() - 1) as nat);
        assert((bt * p + bd) * 256 + s.last() == bt * (p * 256) + (bd * 256 + s.last()))
            by (nonlinear_arith);
    }
}

/// Reversing a little-endian sequence yields the big-endian reading.
pub proof fn lemma_be_of_reversed(s: Seq<u8>, t: Seq<u8>)
    requires
        t.len() == s.len(),
        forall|k: int| 0 <= k < s.len() ==> t[k] == s[s.len() - 1 - k],
    ensures
        be_bytes_value(t) == le_bytes_value(s),
    decreases s.len(),
{
    if s.len() > 0 {
        assert(t.last() == s[0]);
        lemma_be_of_reversed(s.skip(1), t.drop_last());
        assert(be_bytes_value(t) == be_bytes_value(t.drop_last()) * 256 + s[0]);
    }
}

/// Equal-length byte sequences with equal value are equal.
pub proof fn lemma_be_unique(s: Seq<u8>, t: Seq<u8>)
    requires
        s.len() == t.len(),
        be_bytes_value(s) == be_bytes_value(t),
    ensures
        s =~= t,
    decreases s.len(),
{
    if s.len() > 0 {
        let vs = be_bytes_value(s.drop_last());
        let vt = be_bytes_value(t.drop_last());
        assert(vs * 256 + s.last() == vt * 256 + t.last());
        assert(s.last() == t.last() && vs == vt) by (nonlinear_arith)
            requires
                vs * 256 + (s.last() as nat) == vt * 256 + (t.last() as nat),
                s.last() < 256,
                t.last() < 256,
        ;
        lemma_be_unique(s.drop_last(), t.drop_last());
        assert forall|k: int| 0 <= k < s.len() implies s[k] == t[k] by {
            if k < s.len() - 1 {
                assert(s.drop_last()[k] == t.drop_last()[k]);
            }
        }
    }
}

/// The byte count of a value in a given range.
pub proof fn lemma_byte_len_of_range(v: nat, k: nat)
    requires
        k >= 1,
        pow2(8 * (k - 1) as nat) <= v < pow2(8 * k),
    ensures
        byte_len(v) == k,
    decreases k,
{
    lemma_pow2_pos(8 * (k - 1) as nat);
    lemma_pow2_adds(8 * (k - 1) as nat, 8);
    lemma2_to64();
    if k == 1 {
        assert(v >= 1);
        assert(v < 256);
        lemma_basic_div(v as int, 256);
        assert(v / 256 == 0);
        assert(byte_len(0) == 0);
    } else {
        lemma_pow2_adds(8 * (k - 2) as nat, 8);
        let p2 = pow2(8 * (k - 2) as nat);
        let p1 = pow2(8 * (k - 1) as nat);
        assert(p1 == p2 * 256);
        assert(v / 256 >= p2) by (nonlinear_arith)
            requires
                v >= p2 * 256,
                p2 >= 0,
        ;
        assert(v / 256 < p1) by (nonlinear_arith)
            requires
                v < p1 * 256,
                p1 >= 1,
        ;
        assert(v != 0);
        lemma_byte_len_of_range(v / 256, (k - 1) as nat);
    }
}

/// A positive value sits between the powers of 256 its byte count names.
pub proof fn lemma_byte_len_range(v: nat)
    requires
        v >= 1,
    ensures
        byte_len(v) >= 1,
        pow2(8 * ((byte_len(v) - 1) as nat)) <= v < pow2(8 * byte_len(v)),
    decreases v,
{
    lemma2_to64();
    let q = v / 256;
    let k = byte_len(v);
    lemma_fundamental_div_mod(v as int, 256);
    vstd::arithmetic::div_mod::lemma_mod_bound(v as int, 256);
    if q == 0 {
        assert(byte_len(0) == 0);
        assert(k == 1);
        assert(pow2(0) == 1);
    } else {
        assert(q < v) by (nonlinear_arith)
            requires
                v == 256 * q + v % 256,
                q >= 1,
                v % 256 >= 0,
        ;
        lemma_byte_len_range(q);
        assert(k == byte_len(q) + 1);
        lemma_pow2_adds(8 * ((byte_len(q) - 1) as nat), 8);
        lemma_pow2_adds(8 * byte_len(q), 8);
        assert(v >= pow2(8 * ((byte_len(q) - 1) as nat)) * 256) by (nonlinear_arith)
            requires
                v == 256 * q + v % 256,
                q >= pow2(8 * ((byte_len(q) - 1) as nat)),
                v % 256 >= 0,
        ;
        assert(v < pow2(8 * byte_len(q)) * 256) by (nonlinear_arith)
            requires
                v == 256 * q + v % 256,
                q < pow2(8 * byte_len(q)),
                v % 256 < 256,
        ;
    }
}

impl BigInt {
    /// Decode a big-endian byte buffer.
    pub fn from_bytes_be(bytes: &[u8]) -> (r: BigInt)
        requires
            bytes@.len() <= usize::MAX / 64,
        ensures
            r.wf(),
            r@ == be_bytes_value(bytes@),
    {
        let mut acc = BigInt::zero();
        let mut i: usize = 0;
        proof {
            assert(bytes@.take(0) =~= Seq::<u8>::empty());
            lemma2_to64();
        }
        while i < bytes.len()
            invariant
                i <= bytes@.len(),
                bytes@.len() <= usize::MAX / 64,
                acc.wf(),
                acc@ == be_bytes_value(bytes@.take(i as int)),
                acc.word_count() <= i + 1,
            decreases bytes@.len() - i,
        {
            let b = bytes[i];
            let shifted = acc.shl(8);
            let acc2 = shifted.add(&BigInt::from_u64(b as u64));
            proof {
                lemma2_to64();
                assert(bytes@.take(i + 1).drop_last() =~= bytes@.take(i as int));
                assert(bytes@.take(i + 1).last() == bytes@[i as int]);
                assert(acc2@ == be_bytes_value(bytes@.take(i + 1)));
                // the new accumulator stays within i + 2 words
                lemma_be_bound(bytes@.take(i + 1));
                crate::limbs::lemma_pb_pos((i + 2) as nat);
                if 8 * (i + 1) < 64 * (i + 2) {
                    lemma_pow2_strictly_increases((8 * (i + 1)) as nat, (64 * (i + 2)) as nat);
                }
                if acc2.word_count() > i + 2 {
                    crate::limbs::lemma_lv_lower(acc2.limbs@);
                    crate::limbs::lemma_pb_increases((i + 2) as nat,
                        (acc2.word_count() - 1) as nat);
                    assert(false);
                }
            }
            acc = acc2;
            i = i + 1;
        }
        proof {
            assert(bytes@.take(bytes@.len() as int) =~= bytes@);
        }
        acc
    }

    /// Encode as the shortest big-endian byte buffer; the value zero encodes
    /// as a single zero byte.
    pub fn to_bytes_be(&self) -> (r: Vec<u8>)
        requires
            self.wf(),
            self.word_count() <= usize::MAX / 128,
        ensures
            be_bytes_value(r@) == self@,
            r@.len() >= 1,
            r@.len() > 1 ==> r@[0] != 0,
            self@ == 0 ==> r@.len() == 1,
            r@.len() == if self@ == 0 {
                1nat
            } else {
                byte_len(self@)
            },
    {
        if self.is_zero() {
            let mut out: Vec<u8> = Vec::new();
            out.push(0);
            proof {
                assert(out@ =~= seq![0u8]);
                assert(out@.drop_last() =~= Seq::<u8>::empty());
                assert(be_bytes_value(Seq::<u8>::empty()) == 0);
                assert(be_bytes_value(out@) == 0 * 256 + 0);
            }
            return out;
        }
        let mut temp = self.copy_value();
        let mut le: Vec<u8> = Vec::new();
        proof {
            lemma2_to64();
            assert(le_bytes_value(le@) == 0);
            assert(pow2(8 * le@.len()) == 1);
        }
        while !temp.is_zero()
            invariant
                temp.wf(),
                temp.word_count() <= usize::MAX / 128,
                self@ == temp@ * pow2(8 * le@.len()) + le_bytes_value(le@),
                le_bytes_value(le@) < pow2(8 * le@.len()),
                temp@ == 0 && le@.len() > 0 ==> le@.last() != 0,
            decreases temp@,
        {
            let qr = match temp.div_rem_u64(256) {
                Ok(qr) => qr,
                Err(_) => {
                    proof {
                        assert(false);
                    }
                    (BigInt::zero(), BigInt::zero())
                },
            };
            let q = qr.0;
            let rem = qr.1;
            let byte: u8;
            proof {
                crate::limbs::lemma_lv_singleton(rem.limbs@[0]);
                assert(rem.limbs@ =~= seq![rem.limbs@[0]]);
                vstd::arithmetic::div_mod::lemma_mod_bound(temp@ as int, 256);
                lemma_fundamental_div_mod(temp@ as int, 256);
            }
            byte = rem.limbs[0] as u8;
            let ghost le_old = le@;
            let ghost temp_old = temp@;
            le.push(byte);
            proof {
                assert(le@ =~= le_old.push(byte));
                // push appends at the low-order end of the little-endian list
                lemma_le_push(le_old, byte);
                lemma_pow2_adds(8 * le_old.len(), 8);
                lemma2_to64();
                let p = pow2(8 * le_old.len());
                assert(temp_old * p == (q@ * 256 + byte as nat) * p) by (nonlinear_arith)
                    requires
                        temp_old == 256 * q@ + (byte as nat),
                ;
                assert((q@ * 256 + byte as nat) * p == q@ * (p * 256) + (byte as nat) * p)
                    by (nonlinear_arith);
                assert(le_bytes_value(le@) < pow2(8 * le@.len())) by (nonlinear_arith)
                    requires
                        le_bytes_value(le@) == le_bytes_value(le_old) + (byte as nat) * p,
                        le_bytes_value(le_old) < p,
                        byte < 256,
                        pow2(8 * le@.len()) == p * 256,
                ;
                // when the quotient hits zero, the top byte is the old value
                if q@ == 0 {
                    assert(byte as nat == temp_old);
                    assert(byte != 0);
                }
                // the quotient strictly shrinks
                vstd::arithmetic::div_mod::lemma_div_is_strictly_smaller(temp@ as int, 256);
            }
            temp = q;
        }
        let n = le.len();
        let mut out: Vec<u8> = Vec::new();
        let mut k: usize = 0;
        proof {
            // a nonzero value leaves at least one byte
            if le@.len() == 0 {
                assert(self@ == temp@ * pow2(0) + le_bytes_value(le@));
                assert(false);
            }
        }
        while k < n
            invariant
                k <= n,
                n == le@.len(),
                out@.len() == k,
                forall|j: int| 0 <= j < k ==> out@[j] == le@[n - 1 - j],
            decreases n - k,
        {
            out.push(le[n - 1 - k]);
            k = k + 1;
        }
        proof {
            lemma_be_of_reversed(le@, out@);
            assert(out@[0] == le@.last());
            assert(out@[0] != 0);
            // the length is exactly the byte count of the value
            assert(out@ =~= seq![out@[0]] + out@.skip(1));
            lemma_be_concat(seq![out@[0]], out@.skip(1));
            assert(be_bytes_value(seq![out@[0]]) == out@[0]) by {
                assert(seq![out@[0]].len() == 1);
                assert(seq![out@[0]].drop_last() =~= Seq::<u8>::empty());
                assert(be_bytes_value(Seq::<u8>::empty()) == 0);
                assert(seq![out@[0]].last() == out@[0]);
            }
            lemma_be_bound(out@);
            let w = out@.len();
            assert(self@ >= pow2(8 * (w - 1) as nat)) by (nonlinear_arith)
                requires
                    self@ == (out@[0] as nat) * pow2(8 * (w - 1) as nat)
                        + be_bytes_value(out@.skip(1)),
                    out@[0] >= 1,
                    w >= 1,
                    out@.skip(1).len() == w - 1,
            ;
            lemma_byte_len_of_range(self@, w);
        }
        out
    }

    /// Encode as exactly `len` big-endian bytes with zero left-padding, or
    /// `EncodingTooNarrow` when the value does not fit that width.
    pub fn to_bytes_be_pad(&self, len: usize) -> (r: Result<Vec<u8>, Error>)
        requires
            self.wf(),
            self.word_count() <= usize::MAX / 128,
        ensures
            self@ < pow2(8 * (len as nat)) ==> (r matches Ok(out) && out@.len() == len
                && be_bytes_value(out@) == self@
                && forall|i: int| 0 <= i < len - byte_len(self@) ==> out@[i] == 0),
            self@ >= pow2(8 * (len as nat)) ==> r == Err::<Vec<u8>, Error>(Error::EncodingTooNarrow),
    {
        let raw = self.to_bytes_be();
        let zero_in = self.is_zero();
        let rl: usize = if zero_in {
            0
        } else {
            raw.len()
        };
        if rl > len {
            proof {
                // too many significant digits: the value tops the width
                assert(!zero_in);
                lemma_byte_len_range(self@);
                assert(self@ >= pow2(8 * (rl - 1) as nat));
                if 8 * (len as nat) < 8 * (rl - 1) as nat {
                    lemma_pow2_strictly_increases(8 * (len as nat), 8 * ((rl - 1) as nat));
                }
            }
            return Err(Error::EncodingTooNarrow);
        }
        proof {
            if !zero_in {
                lemma_be_bound(raw@);
                if 8 * (rl as nat) < 8 * (len as nat) {
                    lemma_pow2_strictly_increases(8 * (rl as nat), 8 * (len as nat));
                }
            } else {
                vstd::arithmetic::power2::lemma_pow2_pos(8 * (len as nat));
            }
            assert(self@ < pow2(8 * (len as nat)));
        }
        let mut out: Vec<u8> = Vec::new();
        let mut k: usize = 0;
        let pad = len - rl;
        while k < pad
            invariant
                k <= pad,
                out@.len() == k,
                forall|i: int| 0 <= i < k ==> out@[i] == 0,
            decreases pad - k,
        {
            out.push(0);
            k = k + 1;
        }
        let ghost zeros = out@;
        if !zero_in {
            let mut j: usize = 0;
            while j < raw.len()
                invariant
                    j <= raw@.len(),
                    out@ =~= zeros + raw@.take(j as int),
                decreases raw@.len() - j,
            {
                out.push(raw[j]);
                proof {
                    assert(out@ =~= zeros + raw@.take(j + 1));
                }
                j = j + 1;
            }
        }
        proof {
            lemma_be_zeros(zeros);
            if zero_in {
                assert(forall|i: int| 0 <= i < out@.len() ==> out@[i] == 0);
                lemma_be_zeros(out@);
            } else {
                assert(raw@.take(raw@.len() as int) =~= raw@);
                assert(out@ =~= zeros + raw@);
                lemma_be_concat(zeros, raw@);
                assert(be_bytes_value(out@) == 0 * pow2(8 * raw@.len()) + self@);
                assert(byte_len(self@) == rl);
                assert(forall|i: int| 0 <= i < pad ==> out@[i] == zeros[i]);
            }
        }
        Ok(out)
    }

    /// An owned copy holding the same value.
    pub fn copy_value(&self) -> (r: BigInt)
        requires
            self.wf(),
        ensures
            r.wf(),
            r@ == self@,
            r.word_count() == self.word_count(),
    {
        let mut limbs: Vec<u64> = Vec::new();
        let mut i: usize = 0;
        while i < self.limbs.len()
            invariant
                i <= self.limbs@.len(),
                limbs@ =~= self.limbs@.take(i as int),
            decreases self.limbs@.len() - i,
        {
            limbs.push(self.limbs[i]);
            proof {
                assert(limbs@ =~= self.limbs@.take(i + 1));
            }
            i = i + 1;
        }
        proof {
            assert(limbs@ =~= self.limbs@);
        }
        BigInt { limbs }
    }
}

/// A run of zero bytes is worth zero.
pub proof fn lemma_be_zeros(s: Seq<u8>)
    requires
        forall|i: int| 0 <= i < s.len() ==> s[i] == 0,
    ensures
        be_bytes_value(s) == 0,
    decreases s.len(),
{
    if s.len() > 0 {
        lemma_be_zeros(s.drop_last());
    }
}

/// The message length declared by a little-endian two-byte prefix.
pub open spec fn declared_len_le(s: Seq<u8>) -> nat {
    s[0] as nat + 256 * (s[1] as nat)
}

/// The message length declared by a big-endian two-byte prefix.
pub open spec fn declared_len_be(s: Seq<u8>) -> nat {
    (s[0] as nat) * 256 + s[1] as nat
}

/// Take `n` message bytes after a two-byte length prefix.
fn take_message(bytes: &[u8], n: usize) -> (r: Result<Vec<u8>, Error>)
    requires
        bytes@.len() >= 2,
    ensures
        bytes@.len() < 2 + n ==> r == Err::<Vec<u8>, Error>(Error::MalformedInput),
        bytes@.len() >= 2 + n ==> (r matches Ok(m) && m@ == bytes@.subrange(2, 2 + n)),
{
    if bytes.len() - 2 < n {
        return Err(Error::MalformedInput);
    }
    let mut out: Vec<u8> = Vec::new();
    let mut i: usize = 0;
    while i < n
        invariant
            i <= n,
            n <= usize::MAX - 2,
            bytes@.len() >= 2 + n,
            out@ =~= bytes@.subrange(2, 2 + i),
        decreases n - i,
    {
        out.push(bytes[2 + i]);
        proof {
            assert(out@ =~= bytes@.subrange(2, 2 + i + 1));
        }
        i = i + 1;
    }
    proof {
        assert(out@ =~= bytes@.subrange(2, 2 + n));
    }
    Ok(out)
}

/// Read a message framed as a little-endian two-byte length followed by that
/// many bytes; `MalformedInput` when the buffer is shorter than declared.
pub fn parse_message_field_le(bytes: &[u8]) -> (r: Result<Vec<u8>, Error>)
    ensures
        bytes@.len() < 2 ==> r == Err::<Vec<u8>, Error>(Error::MalformedInput),
        bytes@.len() >= 2 && bytes@.len() < 2 + declared_len_le(bytes@)
            ==> r == Err::<Vec<u8>, Error>(Error::MalformedInput),
        bytes@.len() >= 2 + declared_len_le(bytes@) ==> (r matches Ok(m)
            && m@ == bytes@.subrange(2, 2 + declared_len_le(bytes@) as int)),
{
    if bytes.len() < 2 {
        return Err(Error::MalformedInput);
    }
    let n: usize = bytes[0] as usize + 256 * (bytes[1] as usize);
    take_message(bytes, n)
}

/// Read a message framed as a big-endian two-byte length followed by that
/// many bytes; `MalformedInput` when the buffer is shorter than declared.
pub fn parse_message_field_be(bytes: &[u8]) -> (r: Result<Vec<u8>, Error>)
    ensures
        bytes@.len() < 2 ==> r == Err::<Vec<u8>, Error>(Error::MalformedInput),
        bytes@.len() >= 2 && bytes@.len() < 2 + declared_len_be(bytes@)
            ==> r == Err::<Vec<u8>, Error>(Error::MalformedInput),
        bytes@.len() >= 2 + declared_len_be(bytes@) ==> (r matches Ok(m)
            && m@ == bytes@.subrange(2, 2 + declared_len_be(bytes@) as int)),
{
    if bytes.len() < 2 {
        return Err(Error::MalformedInput);
    }
    let n: usize = (bytes[0] as usize) * 256 + bytes[1] as usize;
    take_message(bytes, n)
}

/// Appending a byte to a little-endian list adds it at the top weight.
pub proof fn lemma_le_push(s: Seq<u8>, x: u8)
    ensures
        le_bytes_value(s.push(x)) == le_bytes_value(s) + (x as nat) * pow2(8 * s.len()),
    decreases s.len(),
{
    lemma2_to64();
    if s.len() == 0 {
        assert(pow2(8 * s.len()) == 1);
        assert(s.push(x).skip(1) =~= Seq::<u8>::empty());
        assert(le_bytes_value(Seq::<u8>::empty()) == 0);
        assert(s.push(x)[0] == x);
    } else {
        assert(s.push(x).skip(1) =~= s.skip(1).push(x));
        assert(s.push(x)[0] == s[0]);
        lemma_le_push(s.skip(1), x);
        lemma_pow2_adds(8 * (s.len() - 1) as nat, 8);
        lemma2_to64();
        let p = pow2(8 * (s.len() - 1) as nat);
        assert(256 * (le_bytes_value(s.skip(1)) + (x as nat) * p)
            == 256 * le_bytes_value(s.skip(1)) + (x as nat) * (p * 256)) by (nonlinear_arith);
    }
}

} // verus!
