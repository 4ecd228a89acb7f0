//! Little-endian word sequences as natural numbers, and single-bit views of
//! those numbers.  All multi-precision reasoning in this crate goes through
//! the spec functions and lemmas of this module.

use vstd::prelude::*;
use vstd::arithmetic::power2::{pow2, lemma_pow2_adds, lemma_pow2_pos, lemma2_to64};
use vstd::arithmetic::div_mod::{
    lemma_basic_div, lemma_div_denominator, lemma_fundamental_div_mod,
    lemma_mod_multiples_vanish,
};
use vstd::arithmetic::mul::{lemma_mul_inequality, lemma_mul_is_distributive_add,
    lemma_mul_is_distributive_sub, lemma_mul_strict_inequality};
use vstd::bits::{lemma_u64_shr_is_div, lemma_u64_low_bits_mask_is_mod, low_bits_mask};

verus! {

/// Width in bits of the backing word type.
pub const WORD_BITS: usize = 64;

/// Number of words needed to back `bits` bits.
pub open spec fn words_for(bits: nat) -> nat {
    (bits + 63) / 64
}

/// The natural number denoted by a little-endian word sequence.
pub open spec fn wval(s: Seq<u64>) -> nat
    decreases s.len(),
{
    if s.len() == 0 {
        0
    } else {
        s[0] as nat + pow2(64) * wval(s.drop_first())
    }
}

/// Bit `i` of the natural number `v`.
pub open spec fn nbit(v: nat, i: nat) -> bool {
    v / pow2(i) % 2 == 1
}

pub proof fn lemma_wval_bound(s: Seq<u64>)
    ensures
        wval(s) < pow2(64 * s.len()),
    decreases s.len(),
{
    lemma2_to64();
    if s.len() == 0 {
        assert(pow2(0) == 1);
    } else {
        let rest = s.drop_first();
        let rl = 64 * rest.len();
        lemma_wval_bound(rest);
        lemma_pow2_adds(64, rl);
        lemma_pow2_pos(64);
        lemma_pow2_pos(rl);
        assert(64 * s.len() == 64 + rl) by {
            assert(s.len() == 1 + rest.len());
            lemma_mul_is_distributive_add(64, 1, rest.len() as int);
        }
        assert(pow2(64) * wval(rest) <= pow2(64) * (pow2(rl) - 1)) by {
            lemma_mul_inequality(wval(rest) as int, pow2(rl) - 1, pow2(64) as int);
            vstd::arithmetic::mul::lemma_mul_is_commutative(pow2(64) as int, wval(rest) as int);
            vstd::arithmetic::mul::lemma_mul_is_commutative(pow2(64) as int, pow2(rl) - 1);
        }
        assert(pow2(64) * (pow2(rl) - 1) == pow2(64) * pow2(rl) - pow2(64)) by {
            lemma_mul_is_distributive_sub(pow2(64) as int, pow2(rl) as int, 1);
        }
        assert(s[0] as nat <= pow2(64) - 1);
    }
}

pub proof fn lemma_wval_append(s: Seq<u64>, t: Seq<u64>)
    ensures
        wval(s + t) == wval(s) + pow2(64 * s.len()) * wval(t),
    decreases s.len(),
{
    if s.len() == 0 {
        assert(s + t =~= t);
        lemma2_to64();
        assert(pow2(0) == 1);
        assert(wval(s) == 0);
        assert(64 * s.len() == 0);
        assert(pow2(64 * s.len()) == 1);
        assert(pow2(64 * s.len()) * wval(t) == wval(t)) by {
            vstd::arithmetic::mul::lemma_mul_basics(wval(t) as int);
        }
    } else {
        let rest = s.drop_first();
        assert((s + t).drop_first() =~= rest + t);
        lemma_wval_append(rest, t);
        lemma_pow2_adds(64, 64 * rest.len());
        assert(64 * s.len() == 64 + 64 * rest.len()) by {
            lemma_mul_is_distributive_add(64, 1, rest.len() as int);
        }
        assert(wval(s + t) == s[0] as nat + pow2(64) * (wval(rest) + pow2(64 * rest.len()) * wval(
            t,
        )));
        assert(pow2(64) * (wval(rest) + pow2(64 * rest.len()) * wval(t)) == pow2(64) * wval(rest)
            + pow2(64) * (pow2(64 * rest.len()) * wval(t))) by {
            lemma_mul_is_distributive_add(
                pow2(64) as int,
                wval(rest) as int,
                (pow2(64 * rest.len()) * wval(t)) as int,
            );
        }
        assert(pow2(64) * (pow2(64 * rest.len()) * wval(t)) == (pow2(64) * pow2(64 * rest.len()))
            * wval(t)) by {
            vstd::arithmetic::mul::lemma_mul_is_associative(
                pow2(64) as int,
                pow2(64 * rest.len()) as int,
                wval(t) as int,
            );
        }
        assert(wval(s) == s[0] as nat + pow2(64) * wval(rest));
        assert(pow2(64 * s.len()) == pow2(64) * pow2(64 * rest.len()));
        assert(wval(s + t) == wval(s) + (pow2(64) * pow2(64 * rest.len())) * wval(t));
        assert(wval(s + t) == wval(s) + pow2(64 * s.len()) * wval(t));
    }
}

pub proof fn lemma_wval_split(s: Seq<u64>, k: int)
    requires
        0 <= k <= s.len(),
    ensures
        wval(s) == wval(s.take(k)) + pow2(64 * k as nat) * wval(s.skip(k)),
{
    assert(s =~= s.take(k) + s.skip(k));
    lemma_wval_append(s.take(k), s.skip(k));
}

pub proof fn lemma_wval_push(s: Seq<u64>, w: u64)
    ensures
        wval(s.push(w)) == wval(s) + pow2(64 * s.len()) * w as nat,
{
    let t = seq![w];
    assert(s.push(w) =~= s + t);
    lemma_wval_append(s, t);
    assert(t.drop_first() =~= Seq::<u64>::empty());
    assert(wval(Seq::<u64>::empty()) == 0);
    assert(wval(t) == w as nat + pow2(64) * 0);
}

pub proof fn lemma_wval_zero(s: Seq<u64>)
    ensures
        wval(s) == 0 <==> (forall|i: int| 0 <= i < s.len() ==> s[i] == 0),
    decreases s.len(),
{
    if s.len() > 0 {
        let rest = s.drop_first();
        lemma_wval_zero(rest);
        lemma_pow2_pos(64);
        if wval(rest) > 0 {
            lemma_mul_inequality(1, wval(rest) as int, pow2(64) as int);
        }
        if wval(rest) > 0 {
            assert(pow2(64) * 1 <= pow2(64) * wval(rest)) by {
                lemma_mul_inequality(1, wval(rest) as int, pow2(64) as int);
                vstd::arithmetic::mul::lemma_mul_is_commutative(pow2(64) as int, wval(rest) as int);
            }
            assert(wval(s) > 0);
        } else {
            assert(wval(s) == s[0] as nat + pow2(64) * 0);
        }
        if wval(s) == 0 {
            assert forall|i: int| 0 <= i < s.len() implies s[i] == 0 by {
                if i > 0 {
                    assert(rest[i - 1] == 0);
                }
            }
        }
        if forall|i: int| 0 <= i < s.len() ==> s[i] == 0 {
            assert forall|i: int| 0 <= i < rest.len() implies rest[i] == 0 by {
                assert(s[i + 1] == 0);
            }
            assert(wval(rest) == 0);
            assert(s[0] == 0);
        }
    }
}

/// Decomposing a number as `lo + pow2(m) * hi` with `lo < pow2(m)` splits its
/// bits: the low `m` bits come from `lo`, the rest from `hi`.
pub proof fn lemma_nbit_split(lo: nat, hi: nat, m: nat, i: nat)
    requires
        lo < pow2(m),
    ensures
        i < m ==> nbit(lo + pow2(m) * hi, i) == nbit(lo, i),
        i >= m ==> nbit(lo + pow2(m) * hi, i) == nbit(hi, (i - m) as nat),
{
    let v = lo + pow2(m) * hi;
    lemma_pow2_pos(m);
    lemma_pow2_pos(i);
    if i >= m {
        lemma_pow2_adds(m, (i - m) as nat);
        lemma_pow2_pos((i - m) as nat);
        // v / pow2(m) == hi
        assert(v as int / pow2(m) as int == hi) by {
            vstd::arithmetic::mul::lemma_mul_is_commutative(pow2(m) as int, hi as int);
            vstd::arithmetic::div_mod::lemma_hoist_over_denominator(lo as int, hi as int, pow2(m));
            lemma_basic_div(lo as int, pow2(m) as int);
        }
        assert(v as int / pow2(i) as int == hi as int / pow2((i - m) as nat) as int) by {
            lemma_div_denominator(v as int, pow2(m) as int, pow2((i - m) as nat) as int);
        }
    } else {
        // v / pow2(i) == lo / pow2(i) + pow2(m - i) * hi
        lemma_pow2_adds(i, (m - i) as nat);
        lemma_pow2_pos((m - i) as nat);
        assert(v as int / pow2(i) as int == lo as int / pow2(i) as int + (pow2((m - i) as nat)
            * hi)) by {
            assert(pow2(m) * hi == pow2(i) * (pow2((m - i) as nat) * hi)) by {
                vstd::arithmetic::mul::lemma_mul_is_associative(
                    pow2(i) as int,
                    pow2((m - i) as nat) as int,
                    hi as int,
                );
            }
            vstd::arithmetic::mul::lemma_mul_is_commutative(
                pow2(i) as int,
                (pow2((m - i) as nat) * hi) as int,
            );
            vstd::arithmetic::div_mod::lemma_hoist_over_denominator(
                lo as int,
                (pow2((m - i) as nat) * hi) as int,
                pow2(i),
            );
        }
        // (x + pow2(m-i) * hi) % 2 == x % 2 since m - i >= 1
        let x = lo as int / pow2(i) as int;
        assert(pow2((m - i) as nat) * hi == 2 * (pow2((m - i - 1) as nat) * hi)) by {
            vstd::arithmetic::power2::lemma_pow2_unfold((m - i) as nat);
            vstd::arithmetic::mul::lemma_mul_is_associative(
                2,
                pow2((m - i - 1) as nat) as int,
                hi as int,
            );
        }
        assert((x + 2 * (pow2((m - i - 1) as nat) * hi)) % 2 == x % 2) by {
            lemma_mod_multiples_vanish((pow2((m - i - 1) as nat) * hi) as int, x, 2);
        }
    }
}

/// Bit `i` of `wval(s)` is bit `i % 64` of word `i / 64`; bits past the end
/// are zero.
pub proof fn lemma_wval_bit(s: Seq<u64>, i: nat)
    ensures
        i < 64 * s.len() ==> nbit(wval(s), i) == nbit(s[i as int / 64] as nat, i % 64),
        i >= 64 * s.len() ==> !nbit(wval(s), i),
    decreases s.len(),
{
    assert(pow2(64) == 0x10000000000000000) by {
        lemma2_to64();
    }
    if s.len() == 0 {
        lemma_pow2_pos(i);
        lemma_basic_div(0, pow2(i) as int);
    } else {
        let rest = s.drop_first();
        if i < 64 {
            lemma_nbit_split(s[0] as nat, wval(rest), 64, i);
        } else {
            lemma_nbit_split(s[0] as nat, wval(rest), 64, i);
            lemma_wval_bit(rest, (i - 64) as nat);
            if i < 64 * s.len() {
                assert((i - 64) as int / 64 == i as int / 64 - 1);
                assert((i - 64) % 64 == i % 64) by {
                    lemma_mod_multiples_vanish(-1, i as int, 64);
                }
                assert(rest[(i - 64) as int / 64] == s[i as int / 64]);
            }
        }
    }
}

/// Two numbers below `pow2(n)` with the same low `n` bits are equal.
pub proof fn lemma_nbit_ext(v1: nat, v2: nat, n: nat)
    requires
        v1 < pow2(n),
        v2 < pow2(n),
        forall|i: nat| i < n ==> nbit(v1, i) == nbit(v2, i),
    ensures
        v1 == v2,
    decreases n,
{
    if n == 0 {
        lemma2_to64();
    } else {
        lemma2_to64();
        assert(pow2(0) == 1);
        assert(nbit(v1, 0) == nbit(v2, 0));
        assert(v1 / 1 == v1 && v2 / 1 == v2) by {
            vstd::arithmetic::div_mod::lemma_div_basics_1(v1 as int);
            vstd::arithmetic::div_mod::lemma_div_basics_1(v2 as int);
        }
        assert(v1 % 2 == v2 % 2);
        let h1 = v1 / 2;
        let h2 = v2 / 2;
        assert(h1 < pow2((n - 1) as nat) && h2 < pow2((n - 1) as nat)) by {
            vstd::arithmetic::power2::lemma_pow2_unfold(n);
            lemma_pow2_pos((n - 1) as nat);
            assert(v1 < 2 * pow2((n - 1) as nat));
        }
        assert forall|i: nat| i < (n - 1) as nat implies nbit(h1, i) == nbit(h2, i) by {
            lemma_nbit_shift_down(v1, i);
            lemma_nbit_shift_down(v2, i);
            assert(nbit(v1, i + 1) == nbit(v2, i + 1));
        }
        lemma_nbit_ext(h1, h2, (n - 1) as nat);
        lemma_fundamental_div_mod(v1 as int, 2);
        lemma_fundamental_div_mod(v2 as int, 2);
    }
}

pub proof fn lemma_nbit_shift_down(v: nat, i: nat)
    ensures
        nbit(v / 2, i) == nbit(v, i + 1),
{
    vstd::arithmetic::power2::lemma_pow2_unfold(i + 1);
    lemma_pow2_pos(i);
    lemma_div_denominator(v as int, 2, pow2(i) as int);
}

/// Zero has no set bits.
pub proof fn lemma_nbit_zero(i: nat)
    ensures
        !nbit(0, i),
{
    lemma_pow2_pos(i);
    lemma_basic_div(0, pow2(i) as int);
}

/// Bits of a remainder by a power of two.
pub proof fn lemma_nbit_mod(v: nat, n: nat, i: nat)
    ensures
        nbit(v % pow2(n), i) == (i < n && nbit(v, i)),
{
    lemma_pow2_pos(n);
    lemma_fundamental_div_mod(v as int, pow2(n) as int);
    let lo = v % pow2(n);
    let hi = v / pow2(n);
    vstd::arithmetic::div_mod::lemma_mod_division_less_than_divisor(v as int, pow2(n) as int);
    lemma_nbit_split(lo, hi, n, i);
    if i >= n {
        // bit of lo at i >= n is zero since lo < pow2(n) <= pow2(i)
        lemma_pow2_pos(i);
        if i > n {
            vstd::arithmetic::power2::lemma_pow2_strictly_increases(n, i);
        }
        lemma_basic_div(lo as int, pow2(i) as int);
        assert(!nbit(lo, i));
    }
}

/// Bits of a quotient by a power of two.
pub proof fn lemma_nbit_div(v: nat, n: nat, i: nat)
    ensures
        nbit(v / pow2(n), i) == nbit(v, n + i),
{
    lemma_pow2_pos(n);
    lemma_pow2_pos(i);
    lemma_pow2_adds(n, i);
    lemma_div_denominator(v as int, pow2(n) as int, pow2(i) as int);
}

/// Bits of a product with a power of two.
pub proof fn lemma_nbit_mul(v: nat, n: nat, i: nat)
    ensures
        i < n ==> !nbit(v * pow2(n), i),
        i >= n ==> nbit(v * pow2(n), i) == nbit(v, (i - n) as nat),
{
    lemma_pow2_pos(n);
    vstd::arithmetic::mul::lemma_mul_is_commutative(v as int, pow2(n) as int);
    lemma_nbit_split(0, v, n, i);
    if i < n {
        lemma_pow2_pos(i);
        lemma_basic_div(0, pow2(i) as int);
    }
}

/// `pow2(64 * k)` grows by a factor `pow2(64)` per word.
pub proof fn lemma_pow2_word_step(k: nat)
    ensures
        pow2(64 * (k + 1)) == pow2(64 * k) * pow2(64),
{
    assert(64 * (k + 1) == 64 * k + 64) by {
        lemma_mul_is_distributive_add(64, k as int, 1);
    }
    lemma_pow2_adds(64 * k, 64);
}

/// Appending one more sequence element to a prefix.
pub proof fn lemma_take_push<A>(s: Seq<A>, i: int)
    requires
        0 <= i < s.len(),
    ensures
        s.take(i + 1) == s.take(i).push(s[i]),
{
    assert(s.take(i + 1) =~= s.take(i).push(s[i]));
}

/// A vector of `n` zero words.
pub fn zero_words(n: usize) -> (r: Vec<u64>)
    ensures
        r@.len() == n,
        wval(r@) == 0,
        forall|i: int| 0 <= i < n ==> r@[i] == 0,
{
    let mut r: Vec<u64> = Vec::new();
    let mut k: usize = 0;
    while k < n
        invariant
            k <= n,
            r@.len() == k,
            forall|i: int| 0 <= i < k ==> r@[i] == 0,
        decreases n - k,
    {
        r.push(0);
        k += 1;
    }
    proof {
        lemma_wval_zero(r@);
    }
    r
}

/// A copy of `v` padded with zero words up to `n` words; the value is kept.
pub fn pad_words(v: &Vec<u64>, n: usize) -> (r: Vec<u64>)
    requires
        v@.len() <= n,
    ensures
        r@.len() == n,
        wval(r@) == wval(v@),
        r@.take(v@.len() as int) == v@,
        forall|i: int| v@.len() <= i < n ==> r@[i] == 0,
{
    let mut r: Vec<u64> = Vec::new();
    let mut k: usize = 0;
    while k < v.len()
        invariant
            k <= v@.len(),
            r@.len() == k,
            r@ == v@.take(k as int),
        decreases v@.len() - k,
    {
        let ghost old_r = r@;
        r.push(v[k]);
        proof {
            lemma_take_push(v@, k as int);
            assert(r@ =~= old_r.push(v@[k as int]));
        }
        k += 1;
    }
    assert(r@ == v@) by {
        assert(v@.take(v@.len() as int) =~= v@);
    }
    let ghost base = r@;
    while k < n
        invariant
            v@.len() <= k <= n,
            r@.len() == k,
            r@.take(v@.len() as int) == v@,
            wval(r@) == wval(v@),
            forall|i: int| v@.len() <= i < k ==> r@[i] == 0,
        decreases n - k,
    {
        let ghost old_r = r@;
        r.push(0);
        proof {
            lemma_wval_push(old_r, 0);
            assert(r@ =~= old_r.push(0));
            assert(r@.take(v@.len() as int) =~= old_r.take(v@.len() as int));
        }
        k += 1;
    }
    r
}

/// Word-wise addition with carry of two equally long vectors.
/// The result is exactly `wval(a) + wval(b)`, with the final carry weighted
/// one word past the end.
pub fn add_words(a: &Vec<u64>, b: &Vec<u64>) -> (r: (Vec<u64>, bool))
    requires
        a@.len() == b@.len(),
    ensures
        r.0@.len() == a@.len(),
        wval(r.0@) + pow2(64 * a@.len()) * (if r.1 { 1nat } else { 0nat }) == wval(a@) + wval(b@),
{
    let n = a.len();
    let mut out: Vec<u64> = Vec::new();
    let mut carry: bool = false;
    let mut i: usize = 0;
    proof {
        lemma2_to64();
        assert(a@.take(0) =~= Seq::<u64>::empty());
        assert(b@.take(0) =~= Seq::<u64>::empty());
    }
    while i < n
        invariant
            i <= n,
            n == a@.len() == b@.len(),
            out@.len() == i,
            pow2(64) == 0x10000000000000000,
            wval(out@) + pow2(64 * i as nat) * (if carry { 1nat } else { 0nat }) == wval(
                a@.take(i as int),
            ) + wval(b@.take(i as int)),
        decreases n - i,
    {
        let ghost c_in: nat = if carry { 1nat } else { 0nat };
        let ghost old_out = out@;
        let aw = a[i];
        let bw = b[i];
        let s1 = aw.wrapping_add(bw);
        let c1: bool = s1 < aw;
        let s2 = s1.wrapping_add(if carry { 1 } else { 0 });
        let c2: bool = s2 < s1;
        proof {
            assert(!(c1 && c2));
            assert(s2 as nat + pow2(64) * ((if c1 || c2 { 1nat } else { 0nat })) == aw as nat
                + bw as nat + c_in);
        }
        out.push(s2);
        proof {
            lemma_wval_push(old_out, s2);
            lemma_take_push(a@, i as int);
            lemma_take_push(b@, i as int);
            lemma_wval_push(a@.take(i as int), a@[i as int]);
            lemma_wval_push(b@.take(i as int), b@[i as int]);
            lemma_pow2_word_step(i as nat);
            let p = pow2(64 * i as nat);
            let c_out: nat = if c1 || c2 { 1nat } else { 0nat };
            assert(p * (s2 as nat + pow2(64) * c_out) == p * s2 as nat + (p * pow2(64)) * c_out)
                by {
                lemma_mul_is_distributive_add(p as int, s2 as int, (pow2(64) * c_out) as int);
                vstd::arithmetic::mul::lemma_mul_is_associative(
                    p as int,
                    pow2(64) as int,
                    c_out as int,
                );
            }
            assert(p * (aw as nat + bw as nat + c_in) == p * aw as nat + p * bw as nat + p * c_in)
                by {
                lemma_mul_is_distributive_add(p as int, aw as int + bw as int, c_in as int);
                lemma_mul_is_distributive_add(p as int, aw as int, bw as int);
            }
            assert(p * (s2 as nat + pow2(64) * c_out) == p * (aw as nat + bw as nat + c_in));
        }
        carry = c1 || c2;
        i += 1;
    }
    proof {
        assert(a@.take(n as int) =~= a@);
        assert(b@.take(n as int) =~= b@);
    }
    (out, carry)
}

/// Shifts a word vector left by one bit inside its own length; the bit pushed
/// out at the top is returned separately.
pub fn shl1_words(v: &Vec<u64>) -> (r: (Vec<u64>, bool))
    ensures
        r.0@.len() == v@.len(),
        wval(r.0@) + pow2(64 * v@.len()) * (if r.1 { 1nat } else { 0nat }) == 2 * wval(v@),
{
    let n = v.len();
    let mut out: Vec<u64> = Vec::new();
    let mut carry: bool = false;
    let mut i: usize = 0;
    proof {
        lemma2_to64();
        assert(v@.take(0) =~= Seq::<u64>::empty());
    }
    while i < n
        invariant
            i <= n,
            n == v@.len(),
            out@.len() == i,
            pow2(64) == 0x10000000000000000,
            wval(out@) + pow2(64 * i as nat) * (if carry { 1nat } else { 0nat }) == 2 * wval(
                v@.take(i as int),
            ),
        decreases n - i,
    {
        let ghost c_in: nat = if carry { 1nat } else { 0nat };
        let ghost old_out = out@;
        let w = v[i];
        let hi: bool = w >= 0x8000000000000000;
        let s1 = w.wrapping_mul(2);
        let s2 = s1.wrapping_add(if carry { 1 } else { 0 });
        proof {
            assert(s1 % 2 == 0);
            assert(s2 as nat + pow2(64) * (if hi { 1nat } else { 0nat }) == 2 * w as nat + c_in);
        }
        out.push(s2);
        proof {
            lemma_wval_push(old_out, s2);
            lemma_take_push(v@, i as int);
            lemma_wval_push(v@.take(i as int), v@[i as int]);
            lemma_pow2_word_step(i as nat);
            let p = pow2(64 * i as nat);
            let c_out: nat = if hi { 1nat } else { 0nat };
            assert(p * (s2 as nat + pow2(64) * c_out) == p * s2 as nat + (p * pow2(64)) * c_out)
                by {
                lemma_mul_is_distributive_add(p as int, s2 as int, (pow2(64) * c_out) as int);
                vstd::arithmetic::mul::lemma_mul_is_associative(
                    p as int,
                    pow2(64) as int,
                    c_out as int,
                );
            }
            assert(p * (2 * w as nat + c_in) == p * (2 * w as nat) + p * c_in) by {
                lemma_mul_is_distributive_add(p as int, 2 * w as int, c_in as int);
            }
            assert(p * (2 * w as nat) == 2 * (p * w as nat)) by {
                vstd::arithmetic::mul::lemma_mul_is_associative(p as int, 2, w as int);
                vstd::arithmetic::mul::lemma_mul_is_associative(2, p as int, w as int);
                vstd::arithmetic::mul::lemma_mul_is_commutative(p as int, 2);
            }
            assert(p * (s2 as nat + pow2(64) * c_out) == p * (2 * w as nat + c_in));
            assert(2 * wval(v@.take(i as int + 1)) == 2 * wval(v@.take(i as int)) + 2 * (p
                * w as nat));
        }
        carry = hi;
        i += 1;
    }
    proof {
        assert(v@.take(n as int) =~= v@);
    }
    (out, carry)
}

/// Shifts a word vector right by one bit; the vacated top bit is filled with
/// `top`.
pub fn shr1_words(v: &Vec<u64>, top: bool) -> (r: Vec<u64>)
    requires
        v@.len() >= 1,
    ensures
        r@.len() == v@.len(),
        2 * wval(r@) + wval(v@) % 2 == wval(v@) + pow2(64 * v@.len()) * (
        if top {
            1nat
        } else {
            0nat
        }),
{
    let n = v.len();
    let mut out: Vec<u64> = Vec::new();
    let mut i: usize = 0;
    proof {
        lemma2_to64();
        assert(v@.take(0) =~= Seq::<u64>::empty());
        assert(pow2(0) == 1);
        assert(wval(out@) == 0);
        assert(pow2(64 * 0) * (v@[0] as nat % 2) == v@[0] as nat % 2) by {
            vstd::arithmetic::mul::lemma_mul_basics((v@[0] as nat % 2) as int);
        }
    }
    while i < n
        invariant
            i <= n,
            1 <= n == v@.len(),
            out@.len() == i,
            pow2(64) == 0x10000000000000000,
            2 * wval(out@) + v@[0] as nat % 2 == wval(v@.take(i as int)) + pow2(64 * i as nat) * (
            if i < n {
                v@[i as int] as nat % 2
            } else if top {
                1nat
            } else {
                0nat
            }),
        decreases n - i,
    {
        let ghost old_out = out@;
        let w = v[i];
        let inj: u64 = if i + 1 < n {
            v[i + 1] % 2
        } else if top {
            1
        } else {
            0
        };
        let s = w / 2 + inj * 0x8000000000000000;
        out.push(s);
        proof {
            lemma_wval_push(old_out, s);
            lemma_take_push(v@, i as int);
            lemma_wval_push(v@.take(i as int), v@[i as int]);
            lemma_pow2_word_step(i as nat);
            let p = pow2(64 * i as nat);
            let inj_n: nat = inj as nat;
            lemma_fundamental_div_mod(w as int, 2);
            assert(inj_n * pow2(64) == inj_n * 0x10000000000000000);
            assert(2 * (s as nat) == w as nat - w as nat % 2 + inj_n * 0x10000000000000000);
            assert(out@ == old_out.push(s));
            assert(wval(out@) == wval(old_out) + p * s as nat);
            assert(2 * wval(out@) == 2 * wval(old_out) + 2 * (p * s as nat));
            assert(2 * (p * s as nat) == p * (2 * s as nat)) by {
                vstd::arithmetic::mul::lemma_mul_is_associative(p as int, 2, s as int);
                vstd::arithmetic::mul::lemma_mul_is_associative(2, p as int, s as int);
                vstd::arithmetic::mul::lemma_mul_is_commutative(p as int, 2);
            }
            assert(p * (2 * s as nat) == p * (w as nat - w as nat % 2) + (p * pow2(64)) * inj_n)
                by {
                lemma_mul_is_distributive_add(
                    p as int,
                    w as int - w as int % 2,
                    (inj_n * pow2(64)) as int,
                );
                vstd::arithmetic::mul::lemma_mul_is_associative(
                    p as int,
                    pow2(64) as int,
                    inj_n as int,
                );
                vstd::arithmetic::mul::lemma_mul_is_commutative(pow2(64) as int, inj_n as int);
            }
            assert(p * (w as nat - w as nat % 2) == p * w as nat - p * (w as nat % 2)) by {
                lemma_mul_is_distributive_sub(p as int, w as int, w as int % 2);
            }
        }
        i += 1;
    }
    proof {
        assert(v@.take(n as int) =~= v@);
        lemma_wval_parity(v@);
    }
    out
}

/// A word sequence is even or odd exactly as its first word.
pub proof fn lemma_wval_parity(s: Seq<u64>)
    requires
        s.len() >= 1,
    ensures
        wval(s) % 2 == s[0] as nat % 2,
{
    let rest = s.drop_first();
    lemma2_to64();
    assert(pow2(64) * wval(rest) == 2 * (0x8000000000000000 * wval(rest)));
    lemma_mod_multiples_vanish(
        (0x8000000000000000 * wval(rest)) as int,
        s[0] as int,
        2,
    );
}

/// Three-way lexicographic comparison of two equally long word vectors,
/// decided from the most significant word down: 0 for equal, 1 when
/// `a` is less, 2 when `a` is greater.
pub fn cmp_words(a: &Vec<u64>, b: &Vec<u64>) -> (r: u8)
    requires
        a@.len() == b@.len(),
    ensures
        r == 0 <==> wval(a@) == wval(b@),
        r == 1 <==> wval(a@) < wval(b@),
        r == 2 <==> wval(a@) > wval(b@),
{
    let n = a.len();
    let mut i: usize = n;
    proof {
        assert(a@.skip(n as int) =~= Seq::<u64>::empty());
        assert(b@.skip(n as int) =~= Seq::<u64>::empty());
    }
    while i > 0
        invariant
            i <= n,
            n == a@.len() == b@.len(),
            wval(a@.skip(i as int)) == wval(b@.skip(i as int)),
        decreases i,
    {
        i -= 1;
        proof {
            assert(a@.skip(i as int).drop_first() =~= a@.skip(i as int + 1));
            assert(b@.skip(i as int).drop_first() =~= b@.skip(i as int + 1));
        }
        if a[i] < b[i] {
            proof {
                lemma_cmp_at(a@, b@, i as int);
            }
            return 1;
        }
        if a[i] > b[i] {
            proof {
                lemma_cmp_at(b@, a@, i as int);
            }
            return 2;
        }
    }
    proof {
        assert(a@.skip(0) =~= a@);
        assert(b@.skip(0) =~= b@);
    }
    0
}

/// If two equally long vectors agree above index `i` and differ at `i` with
/// `a[i] < b[i]`, then `a` denotes the smaller number.
proof fn lemma_cmp_at(a: Seq<u64>, b: Seq<u64>, i: int)
    requires
        a.len() == b.len(),
        0 <= i < a.len(),
        a[i] < b[i],
        wval(a.skip(i + 1)) == wval(b.skip(i + 1)),
    ensures
        wval(a) < wval(b),
{
    lemma_wval_split(a, i);
    lemma_wval_split(b, i);
    let p = pow2(64 * i as nat);
    lemma_pow2_pos(64 * i as nat);
    lemma_wval_bound(a.take(i));
    lemma_wval_bound(b.take(i));
    assert(a.skip(i).drop_first() =~= a.skip(i + 1));
    assert(b.skip(i).drop_first() =~= b.skip(i + 1));
    let rest = wval(a.skip(i + 1));
    assert(wval(a.skip(i)) == a[i] as nat + pow2(64) * rest);
    assert(wval(b.skip(i)) == b[i] as nat + pow2(64) * rest);
    // a: take(i) + p * (a[i] + pow2(64) * rest) < p + p * (a[i] + pow2(64) * rest)
    //   <= p * (b[i] + pow2(64) * rest) <= wval(b)
    assert(wval(a) < p + p * (a[i] as nat + pow2(64) * rest));
    assert(p + p * (a[i] as nat + pow2(64) * rest) == p * (1 + a[i] as nat + pow2(64) * rest)) by {
        lemma_mul_is_distributive_add(p as int, 1, a[i] as int + pow2(64) * rest);
    }
    assert(p * (1 + a[i] as nat + pow2(64) * rest) <= p * (b[i] as nat + pow2(64) * rest)) by {
        lemma_mul_inequality(
            1 + a[i] as int + pow2(64) * rest,
            b[i] as int + pow2(64) * rest,
            p as int,
        );
        vstd::arithmetic::mul::lemma_mul_is_commutative(p as int, 1 + a[i] as int + pow2(64) * rest);
        vstd::arithmetic::mul::lemma_mul_is_commutative(p as int, b[i] as int + pow2(64) * rest);
    }
}

/// Backing-word count of a nonempty bit width, and the position of its top
/// word.
pub proof fn lemma_words_for(size: nat)
    requires
        size >= 1,
    ensures
        words_for(size) == (size - 1) / 64 + 1,
        64 * (words_for(size) - 1) < size,
        size <= 64 * words_for(size),
        64 * words_for(size) <= size + 63,
{
    let q = (size - 1) as int / 64;
    let r = (size - 1) as int % 64;
    lemma_fundamental_div_mod((size - 1) as int, 64);
    vstd::arithmetic::div_mod::lemma_mod_division_less_than_divisor((size - 1) as int, 64);
    vstd::arithmetic::div_mod::lemma_div_pos_is_pos((size - 1) as int, 64);
    assert((size + 63) as int == (q + 1) * 64 + r) by {
        lemma_mul_is_distributive_add(64, q, 1);
        vstd::arithmetic::mul::lemma_mul_is_commutative(64, q + 1);
        vstd::arithmetic::mul::lemma_mul_is_commutative(64, q);
    }
    vstd::arithmetic::div_mod::lemma_fundamental_div_mod_converse(
        (size + 63) as int,
        64,
        q + 1,
        r,
    );
    vstd::arithmetic::mul::lemma_mul_is_commutative(64, q);
}

/// Remainders by `pow2(bits)` only see the words that back those bits.
pub proof fn lemma_wval_mod_prefix(s: Seq<u64>, bits: nat, k: int)
    requires
        0 <= k <= s.len(),
        bits <= 64 * k,
    ensures
        wval(s) % pow2(bits) == wval(s.take(k)) % pow2(bits),
{
    lemma_wval_split(s, k);
    lemma_pow2_pos(bits);
    let d = (64 * k as nat - bits) as nat;
    lemma_pow2_adds(bits, d);
    assert(pow2(64 * k as nat) * wval(s.skip(k)) == pow2(bits) * (pow2(d) * wval(s.skip(k)))) by {
        vstd::arithmetic::mul::lemma_mul_is_associative(
            pow2(bits) as int,
            pow2(d) as int,
            wval(s.skip(k)) as int,
        );
    }
    lemma_mod_multiples_vanish(
        (pow2(d) * wval(s.skip(k))) as int,
        wval(s.take(k)) as int,
        pow2(bits) as int,
    );
    vstd::arithmetic::mul::lemma_mul_is_commutative(
        pow2(bits) as int,
        (pow2(d) * wval(s.skip(k))) as int,
    );
}

/// Truncates a word vector to the words backing `bits` bits and clears the
/// top word above bit `bits`; the value becomes `wval(v) % pow2(bits)`.
pub fn trunc_words(v: &Vec<u64>, bits: usize) -> (r: Vec<u64>)
    requires
        1 <= bits,
        words_for(bits as nat) <= v@.len(),
        bits <= usize::MAX - 63,
    ensures
        r@.len() == words_for(bits as nat),
        wval(r@) == wval(v@) % pow2(bits as nat),
{
    proof {
        lemma_words_for(bits as nat);
    }
    let nl: usize = (bits - 1) / 64 + 1;
    let mut out: Vec<u64> = Vec::new();
    let mut i: usize = 0;
    while i < nl - 1
        invariant
            i <= nl - 1,
            nl <= v@.len(),
            out@.len() == i,
            out@ == v@.take(i as int),
        decreases nl - 1 - i,
    {
        let ghost old_out = out@;
        out.push(v[i]);
        proof {
            lemma_take_push(v@, i as int);
            assert(out@ =~= old_out.push(v@[i as int]));
        }
        i += 1;
    }
    let r_bits: usize = bits - 64 * (nl - 1);
    let w = v[nl - 1];
    let masked: u64 = if r_bits == 64 {
        w
    } else {
        let m: u64 = 1u64 << (r_bits as u64);
        proof {
            vstd::bits::lemma_u64_pow2_no_overflow(r_bits as nat);
            vstd::bits::lemma_u64_shl_is_mul(1u64, r_bits as u64);
            lemma_pow2_pos(r_bits as nat);
        }
        w % m
    };
    proof {
        if r_bits != 64 {
            assert(masked as nat == w as nat % pow2(r_bits as nat));
        } else {
            lemma2_to64();
            assert((w as nat) < pow2(64)) by {
                vstd::arithmetic::power2::lemma_pow2_strictly_increases(63, 64);
            }
            vstd::arithmetic::div_mod::lemma_small_mod(w as nat, pow2(64));
            assert(masked as nat == w as nat % pow2(r_bits as nat));
        }
    }
    let ghost prefix = out@;
    out.push(masked);
    proof {
        let kk = nl - 1;
        assert(prefix == v@.take(kk as int));
        lemma_wval_push(prefix, masked);
        lemma_wval_bound(prefix);
        // value of the pushed form
        let p = pow2(64 * kk as nat);
        let pr = pow2(r_bits as nat);
        lemma_pow2_pos(64 * kk as nat);
        lemma_pow2_pos(r_bits as nat);
        // wval(v.take(nl)) = prefix + p * w
        lemma_take_push(v@, kk as int);
        lemma_wval_push(v@.take(kk as int), v@[kk as int]);
        assert(wval(v@.take(nl as int)) == wval(prefix) + p * w as nat);
        // breakdown: (prefix + p * w) % (p * pr) == p * (w % pr) + prefix
        vstd::arithmetic::div_mod::lemma_breakdown(
            (wval(prefix) + p * w as nat) as int,
            p as int,
            pr as int,
        );
        assert((wval(prefix) + p * w as nat) as int % p as int == wval(prefix)) by {
            vstd::arithmetic::mul::lemma_mul_is_commutative(p as int, w as int);
            vstd::arithmetic::div_mod::lemma_mod_multiples_vanish(
                w as int,
                wval(prefix) as int,
                p as int,
            );
            vstd::arithmetic::div_mod::lemma_small_mod(wval(prefix), p);
        }
        assert((wval(prefix) + p * w as nat) as int / p as int == w as nat) by {
            vstd::arithmetic::div_mod::lemma_hoist_over_denominator(
                wval(prefix) as int,
                w as int,
                p,
            );
            vstd::arithmetic::mul::lemma_mul_is_commutative(p as int, w as int);
            lemma_basic_div(wval(prefix) as int, p as int);
        }
        assert(p * pr == pow2(bits as nat)) by {
            lemma_pow2_adds(64 * kk as nat, r_bits as nat);
        }
        assert(wval(v@.take(nl as int)) % pow2(bits as nat) == p * (w as nat % pr) + wval(prefix));
        lemma_wval_mod_prefix(v@, bits as nat, nl as int);
        vstd::arithmetic::mul::lemma_mul_is_commutative(p as int, (w as nat % pr) as int);
    }
    out
}

/// The top-word bound determines the whole-vector bound, and conversely.
pub proof fn lemma_wval_top(s: Seq<u64>, r: nat)
    requires
        s.len() >= 1,
        r <= 64,
    ensures
        wval(s) < pow2(64 * (s.len() - 1) as nat + r) <==> (s[s.len() - 1] as nat) < pow2(r),
{
    let k = (s.len() - 1) as int;
    let p = pow2(64 * k as nat);
    let pr = pow2(r);
    lemma_pow2_pos(64 * k as nat);
    lemma_pow2_pos(r);
    lemma_pow2_adds(64 * k as nat, r);
    lemma_wval_split(s, k);
    assert(s.skip(k).drop_first() =~= Seq::<u64>::empty());
    assert(s.skip(k)[0] == s[k]);
    assert(wval(Seq::<u64>::empty()) == 0);
    assert(wval(s.skip(k)) == s[k] as nat + pow2(64) * 0);
    let w = s[k] as nat;
    let lo = wval(s.take(k));
    lemma_wval_bound(s.take(k));
    if w < pr {
        assert(p * w <= p * (pr - 1)) by {
            lemma_mul_inequality(w as int, pr - 1, p as int);
            vstd::arithmetic::mul::lemma_mul_is_commutative(p as int, w as int);
            vstd::arithmetic::mul::lemma_mul_is_commutative(p as int, pr - 1);
        }
        assert(p * (pr - 1) == p * pr - p) by {
            lemma_mul_is_distributive_sub(p as int, pr as int, 1);
        }
        assert(wval(s) < p + p * pr - p);
    } else {
        assert(p * pr <= p * w) by {
            lemma_mul_inequality(pr as int, w as int, p as int);
            vstd::arithmetic::mul::lemma_mul_is_commutative(p as int, w as int);
            vstd::arithmetic::mul::lemma_mul_is_commutative(p as int, pr as int);
        }
        assert(wval(s) >= p * pr);
    }
}

/// A vector whose value is below `pow2(64 * m)` is zero from word `m` on.
pub proof fn lemma_wval_high_zero(s: Seq<u64>, m: int)
    requires
        0 <= m <= s.len(),
        wval(s) < pow2(64 * m as nat),
    ensures
        forall|i: int| m <= i < s.len() ==> s[i] == 0,
        wval(s) == wval(s.take(m)),
{
    lemma_wval_split(s, m);
    lemma_pow2_pos(64 * m as nat);
    if wval(s.skip(m)) > 0 {
        assert(pow2(64 * m as nat) * 1 <= pow2(64 * m as nat) * wval(s.skip(m))) by {
            lemma_mul_inequality(1, wval(s.skip(m)) as int, pow2(64 * m as nat) as int);
            vstd::arithmetic::mul::lemma_mul_is_commutative(
                pow2(64 * m as nat) as int,
                wval(s.skip(m)) as int,
            );
        }
    }
    assert(wval(s.skip(m)) == 0);
    lemma_wval_zero(s.skip(m));
    assert forall|i: int| m <= i < s.len() implies s[i] == 0 by {
        assert(s.skip(m)[i - m] == 0);
    }
}

/// Sets every bit from `from_bits` up through the end of the vector (or
/// leaves the vector alone when `set` is false).  This is the replication
/// step of sign extension.
pub fn fill_high(v: &Vec<u64>, from_bits: usize, set: bool) -> (r: Vec<u64>)
    requires
        1 <= from_bits,
        from_bits <= usize::MAX - 63,
        words_for(from_bits as nat) <= v@.len(),
        wval(v@) < pow2(from_bits as nat),
    ensures
        r@.len() == v@.len(),
        set ==> wval(r@) == wval(v@) + pow2(64 * v@.len()) - pow2(from_bits as nat),
        !set ==> r@ == v@,
{
    if !set {
        return v.clone();
    }
    proof {
        lemma_words_for(from_bits as nat);
    }
    let n = v.len();
    let k: usize = (from_bits - 1) / 64;
    let r_bits: usize = from_bits - 64 * k;
    let mut out: Vec<u64> = Vec::new();
    let mut i: usize = 0;
    while i < k
        invariant
            i <= k,
            k < n == v@.len(),
            out@.len() == i,
            out@ == v@.take(i as int),
        decreases k - i,
    {
        let ghost old_out = out@;
        out.push(v[i]);
        proof {
            lemma_take_push(v@, i as int);
            assert(out@ =~= old_out.push(v@[i as int]));
        }
        i += 1;
    }
    let w = v[k];
    proof {
        lemma_pow2_pos(r_bits as nat);
        assert(pow2(from_bits as nat) <= pow2(64 * (k + 1) as nat)) by {
            if (from_bits as nat) < 64 * (k + 1) as nat {
                vstd::arithmetic::power2::lemma_pow2_strictly_increases(
                    from_bits as nat,
                    64 * (k + 1) as nat,
                );
            }
        }
        assert((w as nat) < pow2(r_bits as nat)) by {
            lemma_wval_high_zero(v@, k as int + 1);
            assert(v@.take(k as int + 1)[k as int] == v@[k as int]);
            assert(v@.take(k as int + 1).len() == k + 1);
            lemma_wval_top(v@.take(k as int + 1), r_bits as nat);
        }
        lemma2_to64();
        if r_bits < 64 {
            vstd::arithmetic::power2::lemma_pow2_strictly_increases(r_bits as nat, 64);
        }
    }
    let wtop: u64 = if r_bits == 64 {
        w
    } else {
        proof {
            vstd::bits::lemma_u64_pow2_no_overflow(r_bits as nat);
        }
        w + (u64::MAX - (sub_pow(r_bits) - 1))
    };
    let ghost prefix = out@;
    out.push(wtop);
    proof {
        lemma_wval_push(prefix, wtop);
        lemma_wval_split(v@, k as int);
        lemma_wval_high_zero(v@, k as int + 1);
        // wval(v) == wval(prefix) + pow2(64 k) * w
        lemma_take_push(v@, k as int);
        lemma_wval_push(v@.take(k as int), v@[k as int]);
        assert(wval(v@) == wval(v@.take(k as int + 1)));
        assert(wval(v@) == wval(prefix) + pow2(64 * k as nat) * w as nat);
        let p = pow2(64 * k as nat);
        assert(wtop as nat == w as nat + pow2(64) - pow2(r_bits as nat));
        assert(p * (w as nat + pow2(64) - pow2(r_bits as nat)) == p * w as nat + p * pow2(64) - p
            * pow2(r_bits as nat)) by {
            lemma_mul_is_distributive_add(p as int, w as int, pow2(64) - pow2(r_bits as nat));
            lemma_mul_is_distributive_sub(p as int, pow2(64) as int, pow2(r_bits as nat) as int);
        }
        lemma_pow2_word_step(k as nat);
        lemma_pow2_adds(64 * k as nat, r_bits as nat);
        assert(wval(out@) == wval(v@) + pow2(64 * (k + 1) as nat) - pow2(from_bits as nat));
    }
    i = k + 1;
    while i < n
        invariant
            k + 1 <= i <= n,
            n == v@.len(),
            out@.len() == i,
            wval(out@) == wval(v@) + pow2(64 * i as nat) - pow2(from_bits as nat),
        decreases n - i,
    {
        let ghost old_out = out@;
        out.push(u64::MAX);
        proof {
            lemma_wval_push(old_out, u64::MAX);
            lemma_pow2_word_step(i as nat);
            lemma2_to64();
            assert(pow2(64 * i as nat) * (u64::MAX as nat) == pow2(64 * i as nat) * pow2(64) - pow2(
                64 * i as nat,
            )) by {
                lemma_mul_is_distributive_sub(
                    pow2(64 * i as nat) as int,
                    pow2(64) as int,
                    1,
                );
            }
        }
        i += 1;
    }
    out
}

/// `pow2` of an exponent below 64, as a word.
pub fn sub_pow(e: usize) -> (r: u64)
    requires
        e < 64,
    ensures
        r as nat == pow2(e as nat),
{
    proof {
        vstd::bits::lemma_u64_pow2_no_overflow(e as nat);
        vstd::bits::lemma_u64_shl_is_mul(1u64, e as u64);
    }
    1u64 << (e as u64)
}

/// Replacing one word changes the value by the weighted difference of the
/// old and new word.
pub proof fn lemma_wval_update(s: Seq<u64>, k: int, w: u64)
    requires
        0 <= k < s.len(),
    ensures
        wval(s.update(k, w)) + pow2(64 * k as nat) * s[k] as nat == wval(s) + pow2(64 * k as nat)
            * w as nat,
{
    let u = s.update(k, w);
    lemma_wval_split(s, k);
    lemma_wval_split(u, k);
    assert(u.take(k) =~= s.take(k));
    assert(u.skip(k).drop_first() =~= s.skip(k).drop_first());
    assert(s.skip(k)[0] == s[k]);
    assert(u.skip(k)[0] == w);
    let rest = wval(s.skip(k).drop_first());
    assert(wval(s.skip(k)) == s[k] as nat + pow2(64) * rest);
    assert(wval(u.skip(k)) == w as nat + pow2(64) * rest);
    let p = pow2(64 * k as nat);
    assert(p * (s[k] as nat + pow2(64) * rest) == p * s[k] as nat + p * (pow2(64) * rest)) by {
        lemma_mul_is_distributive_add(p as int, s[k] as int, (pow2(64) * rest) as int);
    }
    assert(p * (w as nat + pow2(64) * rest) == p * w as nat + p * (pow2(64) * rest)) by {
        lemma_mul_is_distributive_add(p as int, w as int, (pow2(64) * rest) as int);
    }
}

/// Bits of an all-ones pattern.
pub proof fn lemma_ones_bits(k: nat, j: nat)
    ensures
        nbit((pow2(k) - 1) as nat, j) == (j < k),
{
    lemma_pow2_pos(k);
    lemma_pow2_pos(j);
    if j < k {
        lemma_pow2_adds(j, (k - j) as nat);
        lemma_pow2_pos((k - j) as nat);
        let q = (pow2((k - j) as nat) - 1) as nat;
        let r = (pow2(j) - 1) as nat;
        assert((pow2(k) - 1) as int == q * pow2(j) + r) by {
            lemma_mul_is_distributive_sub(pow2(j) as int, pow2((k - j) as nat) as int, 1);
            vstd::arithmetic::mul::lemma_mul_is_commutative(pow2(j) as int, q as int);
        }
        vstd::arithmetic::div_mod::lemma_fundamental_div_mod_converse(
            (pow2(k) - 1) as int,
            pow2(j) as int,
            q as int,
            r as int,
        );
        // q == pow2(k - j) - 1 is odd
        assert(q % 2 == 1) by {
            vstd::arithmetic::power2::lemma_pow2_unfold((k - j) as nat);
            lemma_pow2_pos((k - j - 1) as nat);
            vstd::arithmetic::div_mod::lemma_fundamental_div_mod_converse(
                q as int,
                2,
                (pow2((k - j - 1) as nat) - 1) as int,
                1,
            );
        }
    } else {
        if j > k {
            vstd::arithmetic::power2::lemma_pow2_strictly_increases(k, j);
        }
        lemma_basic_div((pow2(k) - 1) as int, pow2(j) as int);
    }
}

/// Below `pow2(k)`, a set bit at position `i` forces the value up to
/// `pow2(i)`.
pub proof fn lemma_nbit_lower_bound(v: nat, i: nat)
    requires
        nbit(v, i),
    ensures
        v >= pow2(i),
{
    lemma_pow2_pos(i);
    lemma_fundamental_div_mod(v as int, pow2(i) as int);
    assert(v / pow2(i) >= 1);
    lemma_mul_inequality(1, (v / pow2(i)) as int, pow2(i) as int);
    vstd::arithmetic::mul::lemma_mul_is_commutative(pow2(i) as int, (v / pow2(i)) as int);
}

/// A vector of `n` all-ones words, denoting `pow2(64 * n) - 1`.
pub fn ones_words(n: usize) -> (r: Vec<u64>)
    ensures
        r@.len() == n,
        wval(r@) == pow2(64 * n as nat) - 1,
{
    let mut r: Vec<u64> = Vec::new();
    let mut k: usize = 0;
    proof {
        lemma2_to64();
        assert(pow2(0) == 1);
    }
    while k < n
        invariant
            k <= n,
            r@.len() == k,
            pow2(64) == 0x10000000000000000,
            wval(r@) == pow2(64 * k as nat) - 1,
        decreases n - k,
    {
        let ghost pre = r@;
        r.push(u64::MAX);
        proof {
            lemma_wval_push(pre, u64::MAX);
            lemma_pow2_word_step(k as nat);
            assert(pow2(64 * k as nat) * (u64::MAX as nat) == pow2(64 * k as nat) * pow2(64)
                - pow2(64 * k as nat)) by {
                lemma_mul_is_distributive_sub(pow2(64 * k as nat) as int, pow2(64) as int, 1);
            }
        }
        k += 1;
    }
    r
}

/// Number of binary digits of a natural number; zero for zero.
pub open spec fn bitlen(v: nat) -> nat
    decreases v,
{
    if v == 0 {
        0
    } else {
        1 + bitlen(v / 2)
    }
}

/// `pow2` is monotone.
pub proof fn lemma_pow2_le(e1: nat, e2: nat)
    requires
        e1 <= e2,
    ensures
        pow2(e1) <= pow2(e2),
{
    if e1 < e2 {
        vstd::arithmetic::power2::lemma_pow2_strictly_increases(e1, e2);
    }
}

/// The digit count brackets the value between two powers of two.
pub proof fn lemma_bitlen_bounds(v: nat)
    ensures
        v < pow2(bitlen(v)),
        v > 0 ==> pow2((bitlen(v) - 1) as nat) <= v,
    decreases v,
{
    if v == 0 {
        lemma2_to64();
    } else {
        let h = v / 2;
        lemma_bitlen_bounds(h);
        vstd::arithmetic::power2::lemma_pow2_unfold(bitlen(v));
        lemma_fundamental_div_mod(v as int, 2);
        if h > 0 {
            vstd::arithmetic::power2::lemma_pow2_unfold((bitlen(v) - 1) as nat);
        } else {
            lemma2_to64();
        }
    }
}

/// A value between `pow2(k)` and `pow2(k + 1)` has exactly `k + 1` digits.
pub proof fn lemma_bitlen_is(v: nat, k: nat)
    requires
        pow2(k) <= v,
        v < pow2(k + 1),
    ensures
        bitlen(v) == k + 1,
{
    lemma_pow2_pos(k);
    lemma_bitlen_bounds(v);
    if bitlen(v) <= k {
        lemma_pow2_le(bitlen(v), k);
        assert(false);
    }
    if bitlen(v) >= k + 2 {
        lemma_pow2_le(k + 1, (bitlen(v) - 1) as nat);
        assert(false);
    }
}

/// A value below `pow2(k)` has at most `k` digits.
pub proof fn lemma_bitlen_le(v: nat, k: nat)
    requires
        v < pow2(k),
    ensures
        bitlen(v) <= k,
{
    lemma_bitlen_bounds(v);
    if v > 0 && bitlen(v) > k {
        lemma_pow2_le(k, (bitlen(v) - 1) as nat);
        assert(false);
    }
}

/// A positive value has its top digit set.
pub proof fn lemma_bitlen_top(v: nat)
    requires
        v > 0,
    ensures
        nbit(v, (bitlen(v) - 1) as nat),
{
    lemma_bitlen_bounds(v);
    let k = (bitlen(v) - 1) as nat;
    lemma_pow2_pos(k);
    vstd::arithmetic::power2::lemma_pow2_unfold(k + 1);
    assert(v / pow2(k) >= 1) by {
        vstd::arithmetic::div_mod::lemma_div_is_ordered(pow2(k) as int, v as int, pow2(k) as int);
        vstd::arithmetic::div_mod::lemma_div_by_self(pow2(k) as int);
    }
    assert(v / pow2(k) < 2) by {
        vstd::arithmetic::div_mod::lemma_div_by_multiple_is_strongly_ordered(
            v as int,
            pow2(k + 1) as int,
            2,
            pow2(k) as int,
        );
        vstd::arithmetic::div_mod::lemma_div_multiples_vanish(2, pow2(k) as int);
        vstd::arithmetic::mul::lemma_mul_is_commutative(2, pow2(k) as int);
    }
    vstd::arithmetic::div_mod::lemma_small_mod((v / pow2(k)) as nat, 2);
}

/// If every bit strictly above `m` is clear, the value stays below
/// `pow2(m + 1)`.
pub proof fn lemma_high_zero_bound(v: nat, m: nat, cap: nat)
    requires
        v < pow2(cap),
        m < cap,
        forall|i: nat| m < i < cap ==> !nbit(v, i),
    ensures
        v < pow2(m + 1),
{
    let h = v / pow2(m + 1);
    lemma_pow2_pos(m + 1);
    if h > 0 {
        lemma_bitlen_top(h);
        let t = (bitlen(h) - 1) as nat;
        lemma_nbit_div(v, m + 1, t);
        assert(nbit(v, m + 1 + t));
        assert(h < pow2((cap - m - 1) as nat)) by {
            lemma_pow2_adds(m + 1, (cap - m - 1) as nat);
            vstd::arithmetic::div_mod::lemma_div_by_multiple_is_strongly_ordered(
                v as int,
                pow2(cap) as int,
                pow2((cap - m - 1) as nat) as int,
                pow2(m + 1) as int,
            );
            vstd::arithmetic::div_mod::lemma_div_multiples_vanish(
                pow2((cap - m - 1) as nat) as int,
                pow2(m + 1) as int,
            );
            vstd::arithmetic::mul::lemma_mul_is_commutative(
                pow2((cap - m - 1) as nat) as int,
                pow2(m + 1) as int,
            );
        }
        lemma_bitlen_le(h, (cap - m - 1) as nat);
        assert(m + 1 + t < cap);
        assert(false);
    }
    vstd::arithmetic::div_mod::lemma_fundamental_div_mod(v as int, pow2(m + 1) as int);
    vstd::arithmetic::div_mod::lemma_mod_division_less_than_divisor(v as int, pow2(m + 1) as int);
    assert(pow2(m + 1) * 0 == 0);
}

/// Word-wise complement: the value becomes the distance to the all-ones
/// pattern of the full backing width.
pub fn not_words(v: &Vec<u64>) -> (r: Vec<u64>)
    ensures
        r@.len() == v@.len(),
        wval(r@) == pow2(64 * v@.len()) - 1 - wval(v@),
{
    let n = v.len();
    let mut out: Vec<u64> = Vec::new();
    let mut k: usize = 0;
    proof {
        lemma2_to64();
        assert(v@.take(0) =~= Seq::<u64>::empty());
        assert(pow2(0) == 1);
    }
    while k < n
        invariant
            k <= n,
            n == v@.len(),
            out@.len() == k,
            pow2(64) == 0x10000000000000000,
            wval(out@) == pow2(64 * k as nat) - 1 - wval(v@.take(k as int)),
        decreases n - k,
    {
        let ghost pre = out@;
        let w = v[k];
        out.push(!w);
        proof {
            lemma_wval_push(pre, !w);
            lemma_take_push(v@, k as int);
            lemma_wval_push(v@.take(k as int), v@[k as int]);
            lemma_pow2_word_step(k as nat);
            lemma_wval_bound(v@.take(k as int));
            assert((!w) as nat == u64::MAX - w) by (bit_vector);
            let p = pow2(64 * k as nat);
            assert(p * ((u64::MAX - w) as nat) == p * (u64::MAX as nat) - p * w as nat) by {
                lemma_mul_is_distributive_sub(p as int, u64::MAX as int, w as int);
            }
            assert(p * (u64::MAX as nat) == p * pow2(64) - p) by {
                lemma_mul_is_distributive_sub(p as int, pow2(64) as int, 1);
            }
        }
        k += 1;
    }
    proof {
        assert(v@.take(n as int) =~= v@);
    }
    out
}

/// Index of the most significant set bit, as the digit count of the value.
pub fn msb_index(v: &Vec<u64>) -> (r: Option<usize>)
    requires
        v@.len() <= usize::MAX / 64,
    ensures
        match r {
            None => wval(v@) == 0,
            Some(m) => m < 64 * v@.len() && bitlen(wval(v@)) == m + 1,
        },
{
    let n = v.len();
    let mut k: usize = n;
    while k > 0
        invariant
            k <= n,
            n == v@.len(),
            n <= usize::MAX / 64,
            forall|t: int| k <= t < n ==> v@[t] == 0,
        decreases k,
    {
        k -= 1;
        if v[k] != 0 {
            let w = v[k];
            let mut j: usize = 64;
            while j > 0
                invariant
                    j <= 64,
                    k < n == v@.len(),
                    n <= usize::MAX / 64,
                    w == v@[k as int],
                    w != 0,
                    forall|t: int| k < t < n ==> v@[t] == 0,
                    forall|t: nat| j <= t < 64 ==> !nbit(w as nat, t),
                decreases j,
            {
                j -= 1;
                if word_bit(w, j) {
                    let m = 64 * k + j;
                    proof {
                        lemma_wval_bit(v@, m as nat);
                        assert(m as int / 64 == k as int && m % 64 == j) by {
                            vstd::arithmetic::div_mod::lemma_fundamental_div_mod_converse(
                                m as int,
                                64,
                                k as int,
                                j as int,
                            );
                            vstd::arithmetic::mul::lemma_mul_is_commutative(64, k as int);
                        }
                        assert(nbit(wval(v@), m as nat));
                        lemma_nbit_lower_bound(wval(v@), m as nat);
                        lemma_wval_bound(v@);
                        assert forall|i: nat| m < i < 64 * v@.len() implies !nbit(wval(v@), i) by {
                            lemma_wval_bit(v@, i);
                            let ki = i as int / 64;
                            let ji = i % 64;
                            vstd::arithmetic::div_mod::lemma_fundamental_div_mod(i as int, 64);
                            vstd::arithmetic::div_mod::lemma_mod_division_less_than_divisor(
                                i as int,
                                64,
                            );
                            vstd::arithmetic::div_mod::lemma_div_pos_is_pos(i as int, 64);
                            assert(ki >= k) by {
                                vstd::arithmetic::div_mod::lemma_div_is_ordered(
                                    64 * k as int,
                                    i as int,
                                    64,
                                );
                                vstd::arithmetic::div_mod::lemma_div_multiples_vanish(k as int, 64);
                                vstd::arithmetic::mul::lemma_mul_is_commutative(64, k as int);
                            }
                            if ki > k {
                                assert(v@[ki] == 0);
                                lemma_nbit_zero(ji);
                            } else {
                                assert(ji > j);
                                assert(!nbit(w as nat, ji));
                            }
                        }
                        lemma_high_zero_bound(wval(v@), m as nat, 64 * v@.len());
                        lemma_bitlen_is(wval(v@), m as nat);
                    }
                    return Some(m);
                }
            }
            proof {
                lemma2_to64();
                assert forall|i: nat| i < 64 implies !nbit(w as nat, i) by {
                    assert(!nbit(w as nat, i));
                }
                assert forall|i: nat| i < 64 implies nbit(w as nat, i) == nbit(0, i) by {
                    lemma_nbit_zero(i);
                }
                lemma_nbit_ext(w as nat, 0, 64);
                assert(false);
            }
        }
    }
    proof {
        lemma_wval_zero(v@);
    }
    None
}

/// Per-bit description of the XNOR-style pattern used by four-state
/// inversion.
pub proof fn lemma_xnor_bit(a: u64, b: u64, j: u64)
    by (bit_vector)
    requires
        j < 64,
    ensures
        (((a ^ !b) >> j) & 1 == 1) == ((((a >> j) & 1 == 1)) == (((b >> j) & 1 == 1))),
{
}

/// Bit `j` of a word as a shift-and-mask, tied to the spec-level bit view.
pub proof fn lemma_word_nbit(w: u64, j: nat)
    requires
        j < 64,
    ensures
        nbit(w as nat, j) == ((w >> (j as u64)) & 1 == 1),
{
    lemma_u64_shr_is_div(w, j as u64);
    lemma_u64_low_bits_mask_is_mod(w >> (j as u64), 1);
    vstd::bits::lemma_low_bits_mask_values();
    lemma2_to64();
    assert(pow2(1) == 2);
}

/// Executable test of bit `j` of a word, tied to the spec-level bit view.
pub fn word_bit(w: u64, j: usize) -> (r: bool)
    requires
        j < 64,
    ensures
        r == nbit(w as nat, j as nat),
{
    proof {
        lemma_u64_shr_is_div(w, j as u64);
        lemma_u64_low_bits_mask_is_mod(w >> (j as u64), 1);
        vstd::bits::lemma_low_bits_mask_values();
        lemma2_to64();
        assert(pow2(1) == 2);
    }
    (w >> (j as u64)) & 1 == 1
}

} // verus!
