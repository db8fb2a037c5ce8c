//! Bit patterns and the numbers they encode.
//!
//! A row of a truth table is a sequence of booleans; reading it with index 0
//! as the most significant bit gives the row's position in enumeration order.
//! This module fixes that correspondence and proves it is a bijection between
//! the numbers below `2^n` and the bit patterns of length `n`.

use vstd::prelude::*;

verus! {

/// `2^n` as a mathematical natural number.
pub open spec fn spec_pow2(n: nat) -> nat
    decreases n,
{
    if n == 0 {
        1
    } else {
        2 * spec_pow2((n - 1) as nat)
    }
}

/// The number encoded by a bit pattern, most significant bit first
/// (the last index is the least significant bit).
pub open spec fn bits_to_nat(s: Seq<bool>) -> nat
    decreases s.len(),
{
    if s.len() == 0 {
        0
    } else {
        (2 * bits_to_nat(s.drop_last()) + (if s.last() {
            1nat
        } else {
            0nat
        })) as nat
    }
}

/// The bit pattern of length `n` that encodes `k` (modulo `2^n`),
/// most significant bit first.
pub open spec fn nat_to_bits(k: nat, n: nat) -> Seq<bool>
    decreases n,
{
    if n == 0 {
        Seq::empty()
    } else {
        nat_to_bits(k / 2, (n - 1) as nat).push(k % 2 == 1)
    }
}

pub proof fn lemma_pow2_pos(n: nat)
    ensures
        spec_pow2(n) >= 1,
    decreases n,
{
    if n > 0 {
        lemma_pow2_pos((n - 1) as nat);
    }
}

pub proof fn lemma_pow2_mono(m: nat, n: nat)
    requires
        m <= n,
    ensures
        spec_pow2(m) <= spec_pow2(n),
    decreases n,
{
    if m < n {
        lemma_pow2_mono(m, (n - 1) as nat);
        lemma_pow2_pos((n - 1) as nat);
    }
}

pub proof fn lemma_bits_to_nat_bound(s: Seq<bool>)
    ensures
        bits_to_nat(s) < spec_pow2(s.len()),
    decreases s.len(),
{
    if s.len() > 0 {
        lemma_bits_to_nat_bound(s.drop_last());
    }
}

pub proof fn lemma_nat_to_bits_len(k: nat, n: nat)
    ensures
        nat_to_bits(k, n).len() == n,
    decreases n,
{
    if n > 0 {
        lemma_nat_to_bits_len(k / 2, (n - 1) as nat);
    }
}

/// Encoding then decoding gives the number back, for numbers that fit.
pub proof fn lemma_bits_of_nat_inverse(k: nat, n: nat)
    requires
        k < spec_pow2(n),
    ensures
        nat_to_bits(k, n).len() == n,
        bits_to_nat(nat_to_bits(k, n)) == k,
    decreases n,
{
    lemma_nat_to_bits_len(k, n);
    if n > 0 {
        lemma_bits_of_nat_inverse(k / 2, (n - 1) as nat);
        assert(nat_to_bits(k, n).drop_last() =~= nat_to_bits(k / 2, (n - 1) as nat));
    }
}

/// Decoding then encoding gives the bit pattern back.
pub proof fn lemma_nat_of_bits_inverse(s: Seq<bool>)
    ensures
        nat_to_bits(bits_to_nat(s), s.len()) =~= s,
    decreases s.len(),
{
    if s.len() > 0 {
        lemma_nat_of_bits_inverse(s.drop_last());
        let k = bits_to_nat(s);
        assert(k / 2 == bits_to_nat(s.drop_last())) by {
            assert(k == 2 * bits_to_nat(s.drop_last()) + (if s.last() {
                1nat
            } else {
                0nat
            }));
        }
        assert(nat_to_bits(k, s.len()).drop_last() =~= nat_to_bits(k / 2, (s.len() - 1) as nat));
    }
}

/// Two bit patterns of the same length that encode the same number are equal.
pub proof fn lemma_bits_to_nat_injective(s: Seq<bool>, t: Seq<bool>)
    requires
        s.len() == t.len(),
        bits_to_nat(s) == bits_to_nat(t),
    ensures
        s =~= t,
{
    lemma_nat_of_bits_inverse(s);
    lemma_nat_of_bits_inverse(t);
}

/// The all-false pattern encodes zero.
pub proof fn lemma_bits_all_false(s: Seq<bool>)
    requires
        forall|i: int| 0 <= i < s.len() ==> !s[i],
    ensures
        bits_to_nat(s) == 0,
    decreases s.len(),
{
    if s.len() > 0 {
        lemma_bits_all_false(s.drop_last());
    }
}

/// The all-true pattern encodes `2^n - 1`.
pub proof fn lemma_bits_all_true(s: Seq<bool>)
    requires
        forall|i: int| 0 <= i < s.len() ==> s[i],
    ensures
        bits_to_nat(s) == spec_pow2(s.len()) - 1,
    decreases s.len(),
{
    if s.len() > 0 {
        lemma_bits_all_true(s.drop_last());
    }
}

/// The one power of two the library needs as a number: `2^31`, the overflow
/// bound when packing bits into a `u32`.
pub proof fn lemma_pow2_31()
    ensures
        spec_pow2(31) == 0x8000_0000,
{
    assert(spec_pow2(31) == 0x8000_0000) by {
        reveal_with_fuel(spec_pow2, 32);
    }
}

/// A binary increment: flipping a false bit to true and every later bit from
/// true to false adds exactly one.
pub proof fn lemma_bits_increment(a: Seq<bool>, b: Seq<bool>, i: int)
    requires
        a.len() == b.len(),
        0 <= i < a.len(),
        !a[i],
        b[i],
        forall|j: int| 0 <= j < i ==> a[j] == b[j],
        forall|j: int| i < j < a.len() ==> a[j] && !b[j],
    ensures
        bits_to_nat(b) == bits_to_nat(a) + 1,
{
    let len = a.len() as int;
    let m = (len - i - 1) as nat;
    let pre = a.subrange(0, i);
    let a_tail = a.subrange(i + 1, len);
    let b_tail = b.subrange(i + 1, len);
    assert(a =~= (pre + seq![false]) + a_tail);
    assert(b =~= (pre + seq![true]) + b_tail);
    lemma_bits_concat(pre + seq![false], a_tail);
    lemma_bits_concat(pre + seq![true], b_tail);
    lemma_bits_concat(pre, seq![false]);
    lemma_bits_concat(pre, seq![true]);
    assert(seq![false].drop_last() =~= Seq::<bool>::empty());
    assert(seq![true].drop_last() =~= Seq::<bool>::empty());
    assert(bits_to_nat(Seq::<bool>::empty()) == 0);
    assert(bits_to_nat(seq![false]) == 0 && bits_to_nat(seq![true]) == 1);
    assert(spec_pow2(0) == 1);
    assert(spec_pow2(1) == 2);
    let x = bits_to_nat(pre);
    let p = spec_pow2(m);
    assert(a_tail.len() == m && b_tail.len() == m);
    assert(forall|j: int| 0 <= j < m ==> #[trigger] a_tail[j] == a[i + 1 + j]);
    assert(forall|j: int| 0 <= j < m ==> #[trigger] b_tail[j] == b[i + 1 + j]);
    lemma_bits_all_true(a_tail);
    lemma_bits_all_false(b_tail);
    assert(bits_to_nat(pre + seq![false]) == x * spec_pow2(1) + 0);
    assert(bits_to_nat(pre + seq![true]) == x * spec_pow2(1) + 1);
    assert(bits_to_nat(a) == (x * 2) * p + (p - 1));
    assert(bits_to_nat(b) == (x * 2 + 1) * p);
    assert((x * 2 + 1) * p == (x * 2) * p + p) by (nonlinear_arith);
    lemma_pow2_pos(m);
}

/// Splitting a pattern in two splits its value by place value.
pub proof fn lemma_bits_concat(a: Seq<bool>, b: Seq<bool>)
    ensures
        bits_to_nat(a + b) == bits_to_nat(a) * spec_pow2(b.len()) + bits_to_nat(b),
    decreases b.len(),
{
    if b.len() == 0 {
        assert(a + b =~= a);
        assert(spec_pow2(b.len()) == 1);
        assert(bits_to_nat(a) * spec_pow2(b.len()) == bits_to_nat(a) * 1);
    } else {
        lemma_bits_concat(a, b.drop_last());
        assert((a + b).drop_last() =~= a + b.drop_last());
        assert((a + b).last() == b.last());
        let x = bits_to_nat(a);
        let p = spec_pow2((b.len() - 1) as nat);
        let y = bits_to_nat(b.drop_last());
        let bit: nat = if b.last() {
            1
        } else {
            0
        };
        assert(bits_to_nat(a + b) == 2 * bits_to_nat(a + b.drop_last()) + bit);
        assert(bits_to_nat(a + b.drop_last()) == x * p + y);
        assert(bits_to_nat(b) == 2 * y + bit);
        assert(spec_pow2(b.len()) == 2 * p);
        assert(2 * (x * p + y) + bit == x * (2 * p) + (2 * y + bit)) by (nonlinear_arith);
    }
}

} // verus!
