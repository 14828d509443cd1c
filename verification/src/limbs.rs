//! The mathematical model of a multi-word integer: a sequence of 64-bit
//! words, least significant first, valued in base 2^64.

use vstd::prelude::*;
use vstd::arithmetic::power2::{pow2, lemma_pow2_adds, lemma2_to64, lemma_pow2_pos,
    lemma_pow2_strictly_increases};
use vstd::arithmetic::mul::{lemma_mul_is_distributive_add, lemma_mul_is_commutative,
    lemma_mul_is_associative, lemma_mul_inequality};

verus! {

/// Numeric base of one 64-bit word.
pub open spec fn word_base() -> nat {
    0x1_0000_0000_0000_0000
}

/// Weight of the word at index `n`: `word_base()` to the `n`-th power.
pub open spec fn pb(n: nat) -> nat {
    pow2(64 * n)
}

/// Value of a word sequence, least significant word first.
pub open spec fn limbs_value(s: Seq<u64>) -> nat
    decreases s.len(),
{
    if s.len() == 0 {
        0
    } else {
        s[0] as nat + word_base() * limbs_value(s.skip(1))
    }
}

pub proof fn lemma_pb_zero()
    ensures
        pb(0) == 1,
{
    lemma2_to64();
}

pub proof fn lemma_pb_unfold(n: nat)
    ensures
        pb(n + 1) == pb(n) * word_base(),
{
    lemma_pow2_adds(64 * n, 64);
    lemma2_to64();
}

pub proof fn lemma_pb_pos(n: nat)
    ensures
        pb(n) >= 1,
{
    lemma_pow2_pos(64 * n);
}

pub proof fn lemma_pb_adds(m: nat, n: nat)
    ensures
        pb(m + n) == pb(m) * pb(n),
{
    lemma_pow2_adds(64 * m, 64 * n);
}

pub proof fn lemma_pb_increases(m: nat, n: nat)
    requires
        m < n,
    ensures
        pb(m) < pb(n),
{
    lemma_pow2_strictly_increases(64 * m, 64 * n);
}

/// Appending a word adds its weighted value.
pub proof fn lemma_lv_push(s: Seq<u64>, x: u64)
    ensures
        limbs_value(s.push(x)) == limbs_value(s) + (x as nat) * pb(s.len()),
    decreases s.len(),
{
    lemma_pb_zero();
    if s.len() == 0 {
        assert(s.push(x).skip(1) =~= Seq::<u64>::empty());
        assert(s.push(x)[0] == x);
        assert(limbs_value(Seq::<u64>::empty()) == 0);
        assert(limbs_value(s.push(x)) == x as nat + word_base() * 0);
    } else {
        assert(s.push(x).skip(1) =~= s.skip(1).push(x));
        lemma_lv_push(s.skip(1), x);
        lemma_pb_unfold((s.len() - 1) as nat);
        let b = word_base();
        let v1 = limbs_value(s.skip(1));
        let p = pb((s.len() - 1) as nat);
        assert(s.push(x)[0] == s[0]);
        assert(limbs_value(s.push(x)) == s[0] as nat + b * limbs_value(s.skip(1).push(x)));
        assert(limbs_value(s.skip(1).push(x)) == v1 + (x as nat) * p);
        assert(b * (v1 + (x as nat) * p) == b * v1 + (x as nat) * (p * b)) by (nonlinear_arith);
    }
}

/// A word sequence is worth less than the weight just past its end.
pub proof fn lemma_lv_bound(s: Seq<u64>)
    ensures
        limbs_value(s) < pb(s.len()),
    decreases s.len(),
{
    lemma_pb_zero();
    if s.len() > 0 {
        lemma_lv_bound(s.skip(1));
        lemma_pb_unfold((s.len() - 1) as nat);
        lemma_mul_inequality(limbs_value(s.skip(1)) as int + 1,
            pb((s.len() - 1) as nat) as int, word_base() as int);
        lemma_mul_is_distributive_add(word_base() as int, limbs_value(s.skip(1)) as int, 1);
        lemma_mul_is_commutative(word_base() as int, pb((s.len() - 1) as nat) as int);
        lemma_mul_is_commutative(word_base() as int, limbs_value(s.skip(1)) as int + 1);
    }
}

/// Splitting a word sequence splits its value at the matching weight.
pub proof fn lemma_lv_split(s: Seq<u64>, n: nat)
    requires
        n <= s.len(),
    ensures
        limbs_value(s) == limbs_value(s.take(n as int)) + pb(n) * limbs_value(s.skip(n as int)),
    decreases n,
{
    if n == 0 {
        assert(s.take(0) =~= Seq::<u64>::empty());
        assert(s.skip(0) =~= s);
        lemma_pb_zero();
    } else {
        lemma_lv_split(s.skip(1), (n - 1) as nat);
        assert(s.skip(1).take(n - 1) =~= s.take(n as int).skip(1));
        assert(s.skip(1).skip(n - 1) =~= s.skip(n as int));
        assert(s.take(n as int)[0] == s[0]);
        assert(limbs_value(s) == s[0] as nat + word_base() * (limbs_value(s.take(n as int).skip(1))
            + pb((n - 1) as nat) * limbs_value(s.skip(n as int))));
        lemma_mul_is_distributive_add(word_base() as int,
            limbs_value(s.take(n as int).skip(1)) as int,
            (pb((n - 1) as nat) * limbs_value(s.skip(n as int))) as int);
        assert(word_base() * (pb((n - 1) as nat) * limbs_value(s.skip(n as int)))
            == (pb((n - 1) as nat) * word_base()) * limbs_value(s.skip(n as int))) by {
            lemma_mul_is_associative(word_base() as int, pb((n - 1) as nat) as int,
                limbs_value(s.skip(n as int)) as int);
            lemma_mul_is_commutative(word_base() as int, pb((n - 1) as nat) as int);
        }
        lemma_pb_unfold((n - 1) as nat);
    }
}

/// Replacing one word shifts the value by the weighted difference.
pub proof fn lemma_lv_update(s: Seq<u64>, k: nat, x: u64)
    requires
        k < s.len(),
    ensures
        limbs_value(s.update(k as int, x)) + pb(k) * (s[k as int] as nat)
            == limbs_value(s) + pb(k) * (x as nat),
    decreases k,
{
    lemma_pb_zero();
    if k == 0 {
        assert(s.update(0, x).skip(1) =~= s.skip(1));
        assert(s.update(0, x)[0] == x);
    } else {
        assert(s.update(k as int, x).skip(1) =~= s.skip(1).update(k - 1, x));
        assert(s.update(k as int, x)[0] == s[0]);
        lemma_lv_update(s.skip(1), (k - 1) as nat, x);
        lemma_pb_unfold((k - 1) as nat);
        let su = s.skip(1).update(k - 1, x);
        let sk = s.skip(1);
        // multiply the inductive equation by word_base()
        assert(word_base() * (limbs_value(su) + pb((k - 1) as nat) * (sk[k - 1] as nat))
            == word_base() * (limbs_value(sk) + pb((k - 1) as nat) * (x as nat)));
        lemma_mul_is_distributive_add(word_base() as int, limbs_value(su) as int,
            (pb((k - 1) as nat) * (sk[k - 1] as nat)) as int);
        lemma_mul_is_distributive_add(word_base() as int, limbs_value(sk) as int,
            (pb((k - 1) as nat) * (x as nat)) as int);
        assert(word_base() * (pb((k - 1) as nat) * (sk[k - 1] as nat))
            == (pb((k - 1) as nat) * word_base()) * (sk[k - 1] as nat)) by {
            lemma_mul_is_associative(word_base() as int, pb((k - 1) as nat) as int,
                sk[k - 1] as int);
            lemma_mul_is_commutative(word_base() as int, pb((k - 1) as nat) as int);
        }
        assert(word_base() * (pb((k - 1) as nat) * (x as nat))
            == (pb((k - 1) as nat) * word_base()) * (x as nat)) by {
            lemma_mul_is_associative(word_base() as int, pb((k - 1) as nat) as int, x as int);
            lemma_mul_is_commutative(word_base() as int, pb((k - 1) as nat) as int);
        }
        assert(s[k as int] == sk[k - 1]);
    }
}

/// A sequence of zero words is worth zero.
pub proof fn lemma_lv_zeros(s: Seq<u64>)
    requires
        forall|i: int| 0 <= i < s.len() ==> s[i] == 0,
    ensures
        limbs_value(s) == 0,
    decreases s.len(),
{
    if s.len() > 0 {
        lemma_lv_zeros(s.skip(1));
    }
}

/// A sequence whose last word is nonzero is worth at least that word's weight.
pub proof fn lemma_lv_lower(s: Seq<u64>)
    requires
        s.len() > 0,
        s.last() != 0,
    ensures
        limbs_value(s) >= pb((s.len() - 1) as nat),
    decreases s.len(),
{
    lemma_pb_zero();
    if s.len() == 1 {
        assert(s[0] == s.last());
    } else {
        lemma_lv_lower(s.skip(1));
        lemma_pb_unfold((s.len() - 2) as nat);
        lemma_mul_inequality(pb((s.len() - 2) as nat) as int, limbs_value(s.skip(1)) as int,
            word_base() as int);
        lemma_mul_is_commutative(word_base() as int, limbs_value(s.skip(1)) as int);
        lemma_mul_is_commutative(word_base() as int, pb((s.len() - 2) as nat) as int);
    }
}

/// Dropping a trailing zero word keeps the value.
pub proof fn lemma_lv_drop_last_zero(s: Seq<u64>)
    requires
        s.len() > 0,
        s.last() == 0,
    ensures
        limbs_value(s) == limbs_value(s.drop_last()),
{
    assert(s =~= s.drop_last().push(0));
    lemma_lv_push(s.drop_last(), 0);
}

/// The word at an index, reading zero beyond the end.
pub open spec fn word_at(s: Seq<u64>, i: int) -> u64 {
    if 0 <= i < s.len() {
        s[i]
    } else {
        0
    }
}

/// Value of the first `i` words, the whole sequence once `i` passes the end.
pub open spec fn lv_take(s: Seq<u64>, i: int) -> nat {
    if 0 <= i <= s.len() {
        limbs_value(s.take(i))
    } else if i > s.len() {
        limbs_value(s)
    } else {
        0
    }
}

pub proof fn lemma_lv_take_zero(s: Seq<u64>)
    ensures
        lv_take(s, 0) == 0,
{
    assert(s.take(0) =~= Seq::<u64>::empty());
}

pub proof fn lemma_lv_take_all(s: Seq<u64>, i: int)
    requires
        i >= s.len(),
    ensures
        lv_take(s, i) == limbs_value(s),
{
    if i == s.len() {
        assert(s.take(i) =~= s);
    }
}

/// Extending the prefix by one adds the weighted word there.
pub proof fn lemma_lv_take_step(s: Seq<u64>, i: int)
    requires
        i >= 0,
    ensures
        lv_take(s, i + 1) == lv_take(s, i) + (word_at(s, i) as nat) * pb(i as nat),
{
    if i < s.len() {
        assert(s.take(i + 1) =~= s.take(i).push(s[i]));
        lemma_lv_push(s.take(i), s[i]);
    } else {
        lemma_lv_take_all(s, i);
        lemma_lv_take_all(s, i + 1);
    }
}

/// A word sequence's parity is its lowest word's parity.
pub proof fn lemma_lv_parity(s: Seq<u64>)
    requires
        s.len() >= 1,
    ensures
        limbs_value(s) % 2 == (s[0] as nat) % 2,
{
    let rest = limbs_value(s.skip(1));
    assert(limbs_value(s) == s[0] as nat + word_base() * rest);
    assert(word_base() * rest == 2 * (0x8000_0000_0000_0000 * rest)) by (nonlinear_arith);
    vstd::arithmetic::div_mod::lemma_mod_multiples_vanish(
        (0x8000_0000_0000_0000 as int) * (rest as int), s[0] as int, 2);
}

/// A one-word sequence is worth its word.
pub proof fn lemma_lv_singleton(x: u64)
    ensures
        limbs_value(seq![x]) == x as nat,
{
    let s = seq![x];
    assert(s.len() == 1);
    assert(s[0] == x);
    assert(s.skip(1) =~= Seq::<u64>::empty());
    assert(limbs_value(s) == x as nat + word_base() * limbs_value(s.skip(1)));
}

/// The higher of two differing words decides the order of equal-length sequences.
pub proof fn lemma_lv_lex(s: Seq<u64>, t: Seq<u64>, i: int)
    requires
        s.len() == t.len(),
        0 <= i < s.len(),
        s[i] < t[i],
        forall|j: int| i < j < s.len() ==> s[j] == t[j],
    ensures
        limbs_value(s) < limbs_value(t),
{
    lemma_lv_split(s, (i + 1) as nat);
    lemma_lv_split(t, (i + 1) as nat);
    assert(s.skip(i + 1) =~= t.skip(i + 1));
    lemma_lv_split(s.take(i + 1), i as nat);
    lemma_lv_split(t.take(i + 1), i as nat);
    // the top word of each (i+1)-long prefix stands alone
    assert(s.take(i + 1).skip(i) =~= seq![s[i]]);
    assert(t.take(i + 1).skip(i) =~= seq![t[i]]);
    lemma_lv_singleton(s[i]);
    lemma_lv_singleton(t[i]);
    assert(s.take(i + 1).take(i) =~= s.take(i));
    assert(t.take(i + 1).take(i) =~= t.take(i));
    lemma_lv_bound(s.take(i));
    let p = pb(i as nat);
    let lo_s = limbs_value(s.take(i));
    let lo_t = limbs_value(t.take(i));
    assert(limbs_value(s.take(i + 1)) == lo_s + p * (s[i] as nat));
    assert(limbs_value(t.take(i + 1)) == lo_t + p * (t[i] as nat));
    assert(lo_s + p * (s[i] as nat) < p * (t[i] as nat)) by (nonlinear_arith)
        requires
            lo_s < p,
            s[i] < t[i],
            0 <= s[i],
            0 <= lo_s,
    ;
    assert(limbs_value(s.take(i + 1)) < limbs_value(t.take(i + 1)));
}

} // verus!
