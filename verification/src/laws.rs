//! The general laws of the four-state integral engine, stated over the same
//! spec functions that the operators' contracts use and proved once and for
//! all.

use vstd::prelude::*;
use vstd::arithmetic::power2::pow2;
use crate::words::{bitlen, lemma_bitlen_bounds, lemma_bitlen_le, lemma_nbit_lower_bound,
    lemma_nbit_split, lemma_nbit_zero, lemma_pow2_le, nbit};
use crate::sv_primlit_integral::{gval, rot_left, rot_left1, rot_right, rot_right1,
    signed_min_bits, SvPrimaryLiteralIntegral};

verus! {

/// Canonicalisation is idempotent: a value already at its minimum width
/// canonicalises to itself.
pub proof fn lemma_minimum_width_idempotent(
    v: SvPrimaryLiteralIntegral,
    w: SvPrimaryLiteralIntegral,
)
    requires
        v.wf(),
        w.wf(),
        w.signed == v.signed,
        w.size == v.min_size(),
        w.v01() == v.v01() % pow2(v.min_size()),
        w.vxz() == v.vxz() % pow2(v.min_size()),
    ensures
        w.min_size() == w.size,
        w.v01() % pow2(w.min_size()) == w.v01(),
        w.vxz() % pow2(w.min_size()) == w.vxz(),
{
    let n = v.min_size();
    vstd::arithmetic::power2::lemma_pow2_pos(n);
    vstd::arithmetic::div_mod::lemma_mod_division_less_than_divisor(
        w.v01() as int,
        pow2(n) as int,
    );
    vstd::arithmetic::div_mod::lemma_small_mod(w.v01(), pow2(n));
    vstd::arithmetic::div_mod::lemma_small_mod(w.vxz(), pow2(n));
    let neg = v.signed && v.vxz() == 0 && v.msb01();
    if neg {
        let m = (pow2(v.size as nat) - v.v01()) as nat;
        lemma_nbit_lower_bound(v.v01(), (v.size - 1) as nat);
        vstd::arithmetic::power2::lemma_pow2_unfold(v.size as nat);
        if m > 1 {
            lemma_bitlen_bounds((m - 1) as nat);
        }
        lemma_bitlen_le((m - 1) as nat, (v.size - 1) as nat);
        vstd::arithmetic::power2::lemma_pow2_pos((n - 1) as nat);
        assert(m <= pow2((n - 1) as nat)) by {
            if m > 1 {
                lemma_bitlen_bounds((m - 1) as nat);
            }
        }
        lemma_pow2_le((n - 1) as nat, n);
        lemma_pow2_le(n, v.size as nat);
        crate::sv_primlit_integral::lemma_neg_mod(v.v01(), m, n, v.size as nat);
        // w holds pow2(n) - m with its sign bit set
        assert(w.v01() == (pow2(n) - m) as nat);
        assert(w.msb01()) by {
            vstd::arithmetic::power2::lemma_pow2_unfold(n);
            vstd::arithmetic::power2::lemma_pow2_pos((n - 1) as nat);
            vstd::arithmetic::div_mod::lemma_div_is_ordered(
                pow2((n - 1) as nat) as int,
                w.v01() as int,
                pow2((n - 1) as nat) as int,
            );
            vstd::arithmetic::div_mod::lemma_div_by_self(pow2((n - 1) as nat) as int);
            crate::sv_primlit_integral::lemma_msb_as_div(w.v01(), n);
        }
        assert(w.vxz() == 0) by {
            vstd::arithmetic::div_mod::lemma_small_mod(0, pow2(n));
        }
        // its own canonical width is n again
        assert((pow2(n) - w.v01()) as nat == m);
        assert(bitlen((m - 1) as nat) + 1 == n);
    } else {
        let p = v.v01();
        if p == 0 {
            vstd::arithmetic::div_mod::lemma_small_mod(0, pow2(n));
            assert(bitlen(0) == 0);
            if w.signed {
                lemma_nbit_zero((n - 1) as nat);
            }
        } else {
            lemma_bitlen_bounds(p);
            assert(p < pow2(n)) by {
                if v.signed {
                    lemma_pow2_le(bitlen(p), (n - 1) as nat);
                    lemma_pow2_le((n - 1) as nat, n);
                    vstd::arithmetic::power2::lemma_pow2_strictly_increases((n - 1) as nat, n);
                } else {
                    lemma_pow2_le(bitlen(p), n);
                }
            }
            vstd::arithmetic::div_mod::lemma_small_mod(p, pow2(n));
            assert(w.v01() == p);
            if w.signed {
                assert(!w.msb01()) by {
                    vstd::arithmetic::power2::lemma_pow2_unfold(n);
                    vstd::arithmetic::power2::lemma_pow2_pos((n - 1) as nat);
                    vstd::arithmetic::div_mod::lemma_basic_div(
                        p as int,
                        pow2((n - 1) as nat) as int,
                    );
                    crate::sv_primlit_integral::lemma_msb_as_div(p, n);
                }
            }
        }
    }
}

/// Two width-bounded patterns with the same signed reading are the same
/// pattern.
pub proof fn lemma_gval_unique(v1: nat, v2: nat, n: nat)
    requires
        n >= 1,
        v1 < pow2(n),
        v2 < pow2(n),
        gval(v1, n) == gval(v2, n),
    ensures
        v1 == v2,
{
    crate::sv_primlit_integral::lemma_g_bounds(v1, n);
    crate::sv_primlit_integral::lemma_g_bounds(v2, n);
}

/// Negation is an involution: negating twice canonicalises the value.
pub proof fn lemma_negate_involution(
    v: SvPrimaryLiteralIntegral,
    r1: SvPrimaryLiteralIntegral,
    r2: SvPrimaryLiteralIntegral,
)
    requires
        v.wf(),
        v.signed,
        v.vxz() == 0,
        v.v01() != 0,
        r1.wf(),
        r1.signed,
        r1.vxz() == 0,
        r1.sval() == -v.sval(),
        r1.size == signed_min_bits(-v.sval()),
        r2.wf(),
        r2.signed,
        r2.vxz() == 0,
        r2.sval() == -r1.sval(),
        r2.size == signed_min_bits(-r1.sval()),
    ensures
        r2.sval() == v.sval(),
        r2.size == v.min_size(),
        r2.v01() == v.v01() % pow2(v.min_size()),
{
    assert(r2.sval() == v.sval());
    // the canonical width of a signed X/Z-free value is its signed minimum
    assert(v.min_size() == signed_min_bits(v.sval())) by {
        if v.msb01() {
        } else if v.v01() == 0 {
            assert(bitlen(0) == 0);
        }
    }
    // the canonical pattern is the two's complement remainder
    let n = v.min_size();
    vstd::arithmetic::power2::lemma_pow2_pos(n);
    let c = (v.v01() % pow2(n)) as nat;
    vstd::arithmetic::div_mod::lemma_mod_division_less_than_divisor(
        v.v01() as int,
        pow2(n) as int,
    );
    assert(gval(c, n) == v.sval()) by {
        crate::sv_primlit_integral::lemma_canonical_gval(v);
    }
    lemma_gval_unique(r2.v01(), c, n);
}

/// A logical shift left then right by the same distance returns the original
/// patterns; only the declared width keeps the growth of the left shift.
pub proof fn lemma_lsl_lsr_round_trip(
    v: SvPrimaryLiteralIntegral,
    n: nat,
    r1: SvPrimaryLiteralIntegral,
    r2: SvPrimaryLiteralIntegral,
)
    requires
        v.wf(),
        r1.v01() == v.v01() * pow2(n),
        r1.vxz() == v.vxz() * pow2(n),
        r1.size == v.size + n,
        r2.v01() == r1.v01() / pow2(n),
        r2.vxz() == r1.vxz() / pow2(n),
        r2.size == r1.size,
    ensures
        r2.v01() == v.v01(),
        r2.vxz() == v.vxz(),
        r2.size == v.size + n,
{
    vstd::arithmetic::power2::lemma_pow2_pos(n);
    vstd::arithmetic::div_mod::lemma_div_multiples_vanish(v.v01() as int, pow2(n) as int);
    vstd::arithmetic::div_mod::lemma_div_multiples_vanish(v.vxz() as int, pow2(n) as int);
    vstd::arithmetic::mul::lemma_mul_is_commutative(v.v01() as int, pow2(n) as int);
    vstd::arithmetic::mul::lemma_mul_is_commutative(v.vxz() as int, pow2(n) as int);
}

/// The low bits of a concatenation are the right operand's and the high bits
/// are the left operand's, on both lanes.
pub proof fn lemma_cat_bits(
    a: SvPrimaryLiteralIntegral,
    b: SvPrimaryLiteralIntegral,
    r: SvPrimaryLiteralIntegral,
)
    requires
        a.wf(),
        b.wf(),
        r.v01() == a.v01() * pow2(b.size as nat) + b.v01(),
        r.vxz() == a.vxz() * pow2(b.size as nat) + b.vxz(),
        r.size == a.size + b.size,
    ensures
        forall|i: nat| i < b.size ==> #[trigger] nbit(r.v01(), i) == nbit(b.v01(), i),
        forall|i: nat|
            b.size <= i < r.size ==> #[trigger] nbit(r.v01(), i) == nbit(
                a.v01(),
                (i - b.size) as nat,
            ),
        forall|i: nat| i < b.size ==> #[trigger] nbit(r.vxz(), i) == nbit(b.vxz(), i),
        forall|i: nat|
            b.size <= i < r.size ==> #[trigger] nbit(r.vxz(), i) == nbit(
                a.vxz(),
                (i - b.size) as nat,
            ),
{
    assert forall|i: nat| i < b.size implies #[trigger] nbit(r.v01(), i) == nbit(b.v01(), i) by {
        vstd::arithmetic::mul::lemma_mul_is_commutative(a.v01() as int, pow2(b.size as nat) as int);
        lemma_nbit_split(b.v01(), a.v01(), b.size as nat, i);
    }
    assert forall|i: nat| b.size <= i < r.size implies #[trigger] nbit(r.v01(), i) == nbit(
        a.v01(),
        (i - b.size) as nat,
    ) by {
        vstd::arithmetic::mul::lemma_mul_is_commutative(a.v01() as int, pow2(b.size as nat) as int);
        lemma_nbit_split(b.v01(), a.v01(), b.size as nat, i);
    }
    assert forall|i: nat| i < b.size implies #[trigger] nbit(r.vxz(), i) == nbit(b.vxz(), i) by {
        vstd::arithmetic::mul::lemma_mul_is_commutative(a.vxz() as int, pow2(b.size as nat) as int);
        lemma_nbit_split(b.vxz(), a.vxz(), b.size as nat, i);
    }
    assert forall|i: nat| b.size <= i < r.size implies #[trigger] nbit(r.vxz(), i) == nbit(
        a.vxz(),
        (i - b.size) as nat,
    ) by {
        vstd::arithmetic::mul::lemma_mul_is_commutative(a.vxz() as int, pow2(b.size as nat) as int);
        lemma_nbit_split(b.vxz(), a.vxz(), b.size as nat, i);
    }
}

/// One right rotation stays within the width.
proof fn lemma_rot_right1_bound(v: nat, size: nat)
    requires
        size >= 1,
        v < pow2(size),
    ensures
        rot_right1(v, size) < pow2(size),
{
    vstd::arithmetic::power2::lemma_pow2_unfold(size);
    vstd::arithmetic::power2::lemma_pow2_pos((size - 1) as nat);
    vstd::arithmetic::div_mod::lemma_fundamental_div_mod(v as int, 2);
    vstd::arithmetic::mul::lemma_mul_basics(pow2((size - 1) as nat) as int);
    assert((v % 2) * pow2((size - 1) as nat) <= pow2((size - 1) as nat));
}

/// A left rotation undoes a right rotation.
proof fn lemma_rot_inverse1(v: nat, size: nat)
    requires
        size >= 1,
        v < pow2(size),
    ensures
        rot_left1(rot_right1(v, size), size) == v,
{
    let ph = pow2((size - 1) as nat);
    vstd::arithmetic::power2::lemma_pow2_unfold(size);
    vstd::arithmetic::power2::lemma_pow2_pos((size - 1) as nat);
    let w = rot_right1(v, size);
    let lsb = v % 2;
    vstd::arithmetic::div_mod::lemma_fundamental_div_mod(v as int, 2);
    assert(w == v / 2 + lsb * ph);
    // doubling w brings back all but the former bottom bit
    assert(2 * w == (v - lsb) + lsb * pow2(size)) by {
        vstd::arithmetic::mul::lemma_mul_is_associative(2, lsb as int, ph as int);
        vstd::arithmetic::mul::lemma_mul_is_commutative(2, lsb as int);
        vstd::arithmetic::mul::lemma_mul_is_associative(lsb as int, 2, ph as int);
    }
    assert((2 * w) % pow2(size) == (v - lsb) as nat) by {
        vstd::arithmetic::div_mod::lemma_mod_multiples_vanish(
            lsb as int,
            (v - lsb) as int,
            pow2(size) as int,
        );
        vstd::arithmetic::mul::lemma_mul_is_commutative(lsb as int, pow2(size) as int);
        vstd::arithmetic::div_mod::lemma_small_mod((v - lsb) as nat, pow2(size));
    }
    assert(w / ph == lsb) by {
        vstd::arithmetic::div_mod::lemma_hoist_over_denominator(
            (v / 2) as int,
            lsb as int,
            ph,
        );
        vstd::arithmetic::mul::lemma_mul_is_commutative(lsb as int, ph as int);
        vstd::arithmetic::div_mod::lemma_basic_div((v / 2) as int, ph as int);
    }
}

/// Rotating right preserves the width bound across any distance.
proof fn lemma_rot_right_bound(v: nat, size: nat, n: nat)
    requires
        size >= 1,
        v < pow2(size),
    ensures
        rot_right(v, size, n) < pow2(size),
    decreases n,
{
    if n > 0 {
        lemma_rot_right1_bound(v, size);
        lemma_rot_right_bound(rot_right1(v, size), size, (n - 1) as nat);
    }
}

/// The ring identity for rotations: rotating right then left by the same
/// distance is the identity on width-bounded patterns.
pub proof fn lemma_rot_ring(v: nat, size: nat, n: nat)
    requires
        size >= 1,
        v < pow2(size),
    ensures
        rot_left(rot_right(v, size, n), size, n) == v,
    decreases n,
{
    if n > 0 {
        lemma_rot_right1_bound(v, size);
        lemma_rot_ring(v, size, (n - 1) as nat);
        crate::sv_primlit_integral::lemma_rot_right_peel(v, size, (n - 1) as nat);
        // rot_right(v, n) == rot_right1(rot_right(v, n - 1)) and unwinding one
        // left rotation cancels it
        let u = rot_right(v, size, n);
        assert(u == rot_right1(rot_right(v, size, (n - 1) as nat), size));
        assert(rot_left(u, size, n) == rot_left(rot_left1(u, size), size, (n - 1) as nat));
        lemma_rot_right_bound(v, size, (n - 1) as nat);
        lemma_rot_inverse1(rot_right(v, size, (n - 1) as nat), size);
    }
}

/// The canonical zero: an X/Z-free value is zero exactly when it
/// canonicalises to a single cleared bit.
pub proof fn lemma_canonical_zero(v: SvPrimaryLiteralIntegral)
    requires
        v.wf(),
        !v.has_xz(),
    ensures
        (v.v01() == 0) <==> (v.min_size() == 1 && v.v01() % pow2(v.min_size()) == 0),
{
    vstd::arithmetic::power2::lemma2_to64();
    assert(pow2(1) == 2);
    if v.v01() == 0 {
        assert(bitlen(0) == 0);
        if v.signed {
            lemma_nbit_zero((v.size - 1) as nat);
        }
        vstd::arithmetic::div_mod::lemma_small_mod(0, pow2(v.min_size()));
    } else {
        let p = v.v01();
        lemma_bitlen_bounds(p);
        if v.min_size() == 1 && p % pow2(v.min_size()) == 0 {
            let neg = v.signed && v.msb01();
            if neg {
                lemma_nbit_lower_bound(p, (v.size - 1) as nat);
                vstd::arithmetic::power2::lemma_pow2_unfold(v.size as nat);
                let m = (pow2(v.size as nat) - p) as nat;
                // minimum width 1 forces the magnitude to be exactly one
                assert(bitlen((m - 1) as nat) == 0);
                assert(m == 1) by {
                    if m >= 2 {
                        lemma_bitlen_bounds((m - 1) as nat);
                        assert(pow2(0) == 1);
                        assert(bitlen((m - 1) as nat) >= 1);
                    }
                }
                crate::sv_primlit_integral::lemma_neg_mod(p, 1, 1, v.size as nat);
                assert(p % pow2(1) == 1);
            } else {
                // an unsigned or non-negative value of canonical width one is
                // the single bit itself
                assert(p == 1) by {
                    if v.signed {
                        assert(bitlen(p) == 0);
                        assert(p < pow2(0));
                        assert(pow2(0) == 1);
                    } else {
                        assert(bitlen(p) == 1);
                        assert(p < pow2(1) && p >= pow2(0));
                        assert(pow2(0) == 1);
                    }
                }
                vstd::arithmetic::div_mod::lemma_small_mod(1, 2);
            }
        }
    }
}

} // verus!
