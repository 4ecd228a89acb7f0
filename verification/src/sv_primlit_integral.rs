//! The four-state multi-precision integral value: an arbitrary-width bit
//! pattern over {0, 1, X, Z} with signed or unsigned interpretation.
//!
//! A value keeps its 0/1 pattern in `data_01`, little-endian by 64-bit word.
//! A four-state value additionally keeps `data_xz`: a set bit there marks the
//! position as non-binary, and the `data_01` bit at the same position picks X
//! (0) or Z (1).  `size` is the declared width in bits; bits at positions at
//! or above `size` are zero in both vectors.

use vstd::prelude::*;
use vstd::arithmetic::power2::pow2;
use crate::words::{nbit, wval, words_for};
use crate::words::{
    add_words, bitlen, cmp_words, fill_high, lemma_bitlen_bounds, lemma_bitlen_is, lemma_bitlen_le,
    lemma_nbit_lower_bound, lemma_nbit_mod, lemma_nbit_zero, lemma_pow2_le, lemma_word_nbit,
    lemma_wval_bound, lemma_wval_push, lemma_wval_bit, lemma_words_for, lemma_xnor_bit,
    msb_index, not_words, ones_words, pad_words, shl1_words, shr1_words, sub_pow, trunc_words,
    word_bit, zero_words,
};

verus! {

/// Hard cap on declared widths, so that word counts and bit positions stay
/// within the host word type.
pub const SIZE_MAX: usize = usize::MAX / 64;

/// One left rotation of a `size`-bit pattern: every bit moves up one
/// position and the former top bit re-enters at the bottom.
pub open spec fn rot_left1(v: nat, size: nat) -> nat {
    (2 * v) % pow2(size) + v / pow2((size - 1) as nat)
}

/// `n` left rotations of a `size`-bit pattern.
pub open spec fn rot_left(v: nat, size: nat, n: nat) -> nat
    decreases n,
{
    if n == 0 {
        v
    } else {
        rot_left(rot_left1(v, size), size, (n - 1) as nat)
    }
}

/// One right rotation of a `size`-bit pattern: every bit moves down one
/// position and the former bottom bit re-enters at the top.
pub open spec fn rot_right1(v: nat, size: nat) -> nat {
    v / 2 + (v % 2) * pow2((size - 1) as nat)
}

/// `n` right rotations of a `size`-bit pattern.
pub open spec fn rot_right(v: nat, size: nat, n: nat) -> nat
    decreases n,
{
    if n == 0 {
        v
    } else {
        rot_right(rot_right1(v, size), size, (n - 1) as nat)
    }
}

/// The signed (two's complement) reading of an arbitrary `size`-bit
/// pattern.
pub open spec fn gval(v: nat, size: nat) -> int {
    if nbit(v, (size - 1) as nat) {
        v - pow2(size)
    } else {
        v as int
    }
}

/// The fewest bits a signed two's complement representation of `z` can use.
pub open spec fn signed_min_bits(z: int) -> nat {
    if z >= 0 {
        bitlen(z as nat) + 1
    } else {
        bitlen((-z - 1) as nat) + 1
    }
}

/// The signed reading of a 64-bit word.
pub open spec fn w64_sval(w: nat) -> int {
    if nbit(w, 63) {
        w - pow2(64)
    } else {
        w as int
    }
}

/// The value a bit pattern of width `size` denotes after being replicated up
/// to `n` bits: the pattern itself when the replicated bit is clear, the
/// pattern with all bits from `size` to `n` set when it is set.
pub open spec fn ext_val(v: nat, size: nat, n: nat, repl: bool) -> nat {
    if repl {
        (v + pow2(n) - pow2(size)) as nat
    } else {
        v
    }
}

#[derive(Debug, Clone, PartialEq, Eq)]
pub struct SvPrimaryLiteralIntegral {
    pub data_01: Vec<u64>,
    pub data_xz: Option<Vec<u64>>,
    pub size: usize,
    pub signed: bool,
}

impl SvPrimaryLiteralIntegral {
    /// Structural invariant: at least one bit wide, exactly enough backing
    /// words, no stray bits at or above `size`, and a four-state value backs
    /// `data_xz` with the same word count.
    pub open spec fn wf(self) -> bool {
        &&& self.size >= 1
        &&& self.size <= SIZE_MAX
        &&& self.data_01@.len() == words_for(self.size as nat)
        &&& wval(self.data_01@) < pow2(self.size as nat)
        &&& match self.data_xz {
            Some(xz) => xz@.len() == self.data_01@.len() && wval(xz@) < pow2(self.size as nat),
            None => true,
        }
    }

    /// The 0/1 pattern as a natural number.
    pub open spec fn v01(self) -> nat {
        wval(self.data_01@)
    }

    /// The X/Z mask as a natural number (zero for a two-state value).
    pub open spec fn vxz(self) -> nat {
        match self.data_xz {
            Some(xz) => wval(xz@),
            None => 0,
        }
    }

    /// Whether the value is four-state (carries an X/Z mask at all).
    pub open spec fn is_4state_spec(self) -> bool {
        self.data_xz is Some
    }

    /// Whether any position inside the value is X or Z.
    pub open spec fn has_xz(self) -> bool {
        self.vxz() != 0
    }

    /// The signed (two's complement) reading of the 0/1 pattern at the
    /// declared width.
    pub open spec fn sval(self) -> int {
        if nbit(self.v01(), (self.size - 1) as nat) {
            self.v01() - pow2(self.size as nat)
        } else {
            self.v01() as int
        }
    }

    /// Deduces whether the primary literal is 4-state or not.
    pub fn is_4state(&self) -> (r: bool)
        ensures
            r == self.is_4state_spec(),
    {
        match &self.data_xz {
            None => false,
            Some(_) => true,
        }
    }

    /// Deduces whether the value contains any X or Z position.
    pub fn contains_xz(&self) -> (r: bool)
        ensures
            r == self.has_xz(),
    {
        match &self.data_xz {
            None => false,
            Some(xz) => {
                let mut k: usize = 0;
                let mut found: bool = false;
                while k < xz.len()
                    invariant
                        k <= xz@.len(),
                        found <==> exists|i: int| 0 <= i < k && xz@[i] != 0,
                    decreases xz@.len() - k,
                {
                    if xz[k] != 0 {
                        found = true;
                    }
                    k += 1;
                }
                proof {
                    crate::words::lemma_wval_zero(xz@);
                }
                found
            },
        }
    }
}

impl SvPrimaryLiteralIntegral {
    /// The 0/1 bit at the declared most significant position.
    pub open spec fn msb01(self) -> bool {
        nbit(self.v01(), (self.size - 1) as nat)
    }

    /// The X/Z bit at the declared most significant position.
    pub open spec fn msbxz(self) -> bool {
        nbit(self.vxz(), (self.size - 1) as nat)
    }

    /// The X/Z mask has the same word count as the 0/1 pattern.
    pub open spec fn lens_ok(self) -> bool {
        match self.data_xz {
            Some(xz) => xz@.len() == self.data_01@.len(),
            None => true,
        }
    }

    /// The canonical width of the value: the fewest bits that keep its
    /// numeric reading (signed values keep two's complement semantics; the
    /// width of values carrying X/Z is driven by the 0/1 pattern alone).
    pub open spec fn min_size(self) -> nat {
        if self.signed {
            if self.vxz() == 0 && self.msb01() {
                bitlen((pow2(self.size as nat) - self.v01() - 1) as nat) + 1
            } else if self.v01() == 0 {
                1
            } else {
                bitlen(self.v01()) + 1
            }
        } else {
            if self.v01() == 0 {
                1
            } else {
                bitlen(self.v01())
            }
        }
    }

    /// Every wf value reads, as a signed number, within the two's complement
    /// range of its width.
    pub proof fn lemma_sval_bounds(self)
        requires
            self.wf(),
        ensures
            -pow2((self.size - 1) as nat) <= self.sval() < pow2((self.size - 1) as nat),
            self.msb01() ==> self.v01() >= pow2((self.size - 1) as nat),
            !self.msb01() ==> self.v01() < pow2((self.size - 1) as nat),
    {
        vstd::arithmetic::power2::lemma_pow2_unfold(self.size as nat);
        vstd::arithmetic::power2::lemma_pow2_pos((self.size - 1) as nat);
        lemma_msb_as_div(self.v01(), self.size as nat);
        vstd::arithmetic::div_mod::lemma_fundamental_div_mod(
            self.v01() as int,
            pow2((self.size - 1) as nat) as int,
        );
        vstd::arithmetic::div_mod::lemma_mod_division_less_than_divisor(
            self.v01() as int,
            pow2((self.size - 1) as nat) as int,
        );
    }

    /// Returns whether the MSB of `data_01` is high.
    pub fn is_set_msb_01(&self) -> (r: bool)
        requires
            self.wf(),
        ensures
            r == self.msb01(),
    {
        proof {
            lemma_words_for(self.size as nat);
            lemma_wval_bit(self.data_01@, (self.size - 1) as nat);
        }
        let last = self.data_01.len() - 1;
        let j = (self.size - 1) % 64;
        word_bit(self.data_01[last], j)
    }

    /// Returns whether the MSB of `data_xz` is high; false on a two-state
    /// value.
    pub fn is_set_msb_xz(&self) -> (r: bool)
        requires
            self.wf(),
        ensures
            r == self.msbxz(),
    {
        match &self.data_xz {
            None => {
                proof {
                    lemma_nbit_zero((self.size - 1) as nat);
                }
                false
            },
            Some(xz) => {
                proof {
                    lemma_words_for(self.size as nat);
                    lemma_wval_bit(xz@, (self.size - 1) as nat);
                }
                let last = xz.len() - 1;
                let j = (self.size - 1) % 64;
                word_bit(xz[last], j)
            },
        }
    }

    /// Returns the same bit pattern as a four-state value whose X/Z mask is
    /// all zero.
    pub fn to_4state(&self) -> (r: SvPrimaryLiteralIntegral)
        requires
            self.wf(),
        ensures
            r.wf(),
            r.v01() == self.v01(),
            r.vxz() == 0,
            r.size == self.size,
            r.signed == self.signed,
            r.is_4state_spec(),
    {
        proof {
            vstd::arithmetic::power2::lemma_pow2_pos(self.size as nat);
        }
        SvPrimaryLiteralIntegral {
            data_01: pad_words(&self.data_01, self.data_01.len()),
            data_xz: Some(zero_words(self.data_01.len())),
            size: self.size,
            signed: self.signed,
        }
    }

    /// Pads the backing vectors with zero words up to `n` words, keeping the
    /// value.
    fn pad_backing(&mut self, n: usize)
        requires
            old(self).data_01@.len() <= n,
            old(self).lens_ok(),
        ensures
            final(self).data_01@.len() == n,
            final(self).lens_ok(),
            final(self).v01() == old(self).v01(),
            final(self).vxz() == old(self).vxz(),
            final(self).size == old(self).size,
            final(self).signed == old(self).signed,
            final(self).is_4state_spec() == old(self).is_4state_spec(),
    {
        self.data_01 = pad_words(&self.data_01, n);
        let xz_new = match &self.data_xz {
            Some(x) => Some(pad_words(x, n)),
            None => None,
        };
        self.data_xz = xz_new;
    }

    /// Ensures that both values back their patterns with the same number of
    /// words, padding the shorter with zero words.  Sizes are not updated.
    pub fn _primlit_vec_elmnt_match(&mut self, right_nu: &mut SvPrimaryLiteralIntegral)
        requires
            old(self).lens_ok(),
            old(right_nu).lens_ok(),
        ensures
            final(self).data_01@.len() == final(right_nu).data_01@.len(),
            final(self).data_01@.len() == vstd::math::max(
                old(self).data_01@.len() as int,
                old(right_nu).data_01@.len() as int,
            ),
            final(self).lens_ok(),
            final(right_nu).lens_ok(),
            final(self).v01() == old(self).v01(),
            final(self).vxz() == old(self).vxz(),
            final(self).size == old(self).size,
            final(self).signed == old(self).signed,
            final(self).is_4state_spec() == old(self).is_4state_spec(),
            final(right_nu).v01() == old(right_nu).v01(),
            final(right_nu).vxz() == old(right_nu).vxz(),
            final(right_nu).size == old(right_nu).size,
            final(right_nu).signed == old(right_nu).signed,
            final(right_nu).is_4state_spec() == old(right_nu).is_4state_spec(),
    {
        let n = if self.data_01.len() >= right_nu.data_01.len() {
            self.data_01.len()
        } else {
            right_nu.data_01.len()
        };
        self.pad_backing(n);
        right_nu.pad_backing(n);
    }

    /// Zero extends two unsigned values to a common word count and sets both
    /// sizes to the full backing width.
    pub fn _matched_zero_extend(&mut self, right_nu: &mut SvPrimaryLiteralIntegral)
        requires
            old(self).wf(),
            old(right_nu).wf(),
            !old(self).signed,
            !old(right_nu).signed,
            old(self).size + 127 <= SIZE_MAX,
            old(right_nu).size + 127 <= SIZE_MAX,
        ensures
            final(self).wf(),
            final(right_nu).wf(),
            final(self).size == final(right_nu).size,
            final(self).size == 64 * final(self).data_01@.len(),
            final(self).data_01@.len() == vstd::math::max(
                old(self).data_01@.len() as int,
                old(right_nu).data_01@.len() as int,
            ),
            final(self).v01() == old(self).v01(),
            final(self).vxz() == old(self).vxz(),
            final(self).signed == old(self).signed,
            final(self).is_4state_spec() == old(self).is_4state_spec(),
            final(right_nu).v01() == old(right_nu).v01(),
            final(right_nu).vxz() == old(right_nu).vxz(),
            final(right_nu).signed == old(right_nu).signed,
            final(right_nu).is_4state_spec() == old(right_nu).is_4state_spec(),
    {
        proof {
            lemma_words_for(old(self).size as nat);
            lemma_words_for(old(right_nu).size as nat);
        }
        self._primlit_vec_elmnt_match(right_nu);
        let n = self.data_01.len();
        self.size = 64 * n;
        right_nu.size = 64 * n;
        proof {
            lemma_wval_bound(self.data_01@);
            lemma_wval_bound(right_nu.data_01@);
            if self.data_xz is Some {
                lemma_wval_bound(self.data_xz->Some_0@);
            }
            if right_nu.data_xz is Some {
                lemma_wval_bound(right_nu.data_xz->Some_0@);
            }
            assert(words_for(64 * n as nat) == n) by {
                vstd::arithmetic::div_mod::lemma_fundamental_div_mod_converse(
                    (64 * n + 63) as int,
                    64,
                    n as int,
                    63,
                );
                vstd::arithmetic::mul::lemma_mul_is_commutative(64, n as int);
            }
        }
    }

    /// Sign extends the value across its whole backing width, replicating
    /// each vector's own most significant bit, and sets `size` to the full
    /// width.
    pub fn _sign_extend(&mut self)
        requires
            old(self).wf(),
            old(self).signed,
            old(self).size + 127 <= SIZE_MAX,
        ensures
            final(self).wf(),
            final(self).size == 64 * final(self).data_01@.len(),
            final(self).data_01@.len() == old(self).data_01@.len(),
            final(self).v01() == ext_val(
                old(self).v01(),
                old(self).size as nat,
                final(self).size as nat,
                old(self).msb01(),
            ),
            final(self).vxz() == ext_val(
                old(self).vxz(),
                old(self).size as nat,
                final(self).size as nat,
                old(self).msbxz(),
            ),
            final(self).signed == old(self).signed,
            final(self).is_4state_spec() == old(self).is_4state_spec(),
    {
        let n = self.data_01.len();
        self.extend_to(n)
    }

    /// Sign extension up to `n` backing words; shared by the single- and
    /// two-operand forms.
    fn extend_to(&mut self, n: usize)
        requires
            old(self).wf(),
            old(self).size + 127 <= SIZE_MAX,
            old(self).data_01@.len() <= n,
            64 * n <= SIZE_MAX,
        ensures
            final(self).wf(),
            final(self).size == 64 * n,
            final(self).data_01@.len() == n,
            final(self).v01() == ext_val(
                old(self).v01(),
                old(self).size as nat,
                64 * n as nat,
                old(self).msb01(),
            ),
            final(self).vxz() == ext_val(
                old(self).vxz(),
                old(self).size as nat,
                64 * n as nat,
                old(self).msbxz(),
            ),
            final(self).signed == old(self).signed,
            final(self).is_4state_spec() == old(self).is_4state_spec(),
    {
        proof {
            lemma_words_for(old(self).size as nat);
        }
        let rep01 = self.is_set_msb_01();
        let repxz = self.is_set_msb_xz();
        self.pad_backing(n);
        self.data_01 = fill_high(&self.data_01, self.size, rep01);
        let xz_new = match &self.data_xz {
            Some(x) => Some(fill_high(x, self.size, repxz)),
            None => None,
        };
        self.data_xz = xz_new;
        self.size = 64 * n;
        proof {
            lemma_wval_bound(self.data_01@);
            lemma_nbit_zero((old(self).size - 1) as nat);
            if self.data_xz is Some {
                lemma_wval_bound(self.data_xz->Some_0@);
            }
            assert(words_for(64 * n as nat) == n) by {
                vstd::arithmetic::div_mod::lemma_fundamental_div_mod_converse(
                    (64 * n + 63) as int,
                    64,
                    n as int,
                    63,
                );
                vstd::arithmetic::mul::lemma_mul_is_commutative(64, n as int);
            }
        }
    }

    /// Sign extends two signed values to a common full backing width.  The
    /// sign source of each value is its own pair of most significant bits,
    /// read before any padding.
    pub fn _matched_sign_extend(&mut self, right_nu: &mut SvPrimaryLiteralIntegral)
        requires
            old(self).wf(),
            old(right_nu).wf(),
            old(self).signed,
            old(right_nu).signed,
            old(self).size + 127 <= SIZE_MAX,
            old(right_nu).size + 127 <= SIZE_MAX,
        ensures
            final(self).wf(),
            final(right_nu).wf(),
            final(self).size == final(right_nu).size,
            final(self).size == 64 * final(self).data_01@.len(),
            final(self).data_01@.len() == vstd::math::max(
                old(self).data_01@.len() as int,
                old(right_nu).data_01@.len() as int,
            ),
            final(self).v01() == ext_val(
                old(self).v01(),
                old(self).size as nat,
                final(self).size as nat,
                old(self).msb01(),
            ),
            final(self).vxz() == ext_val(
                old(self).vxz(),
                old(self).size as nat,
                final(self).size as nat,
                old(self).msbxz(),
            ),
            final(right_nu).v01() == ext_val(
                old(right_nu).v01(),
                old(right_nu).size as nat,
                final(self).size as nat,
                old(right_nu).msb01(),
            ),
            final(right_nu).vxz() == ext_val(
                old(right_nu).vxz(),
                old(right_nu).size as nat,
                final(self).size as nat,
                old(right_nu).msbxz(),
            ),
            final(self).signed == old(self).signed,
            final(right_nu).signed == old(right_nu).signed,
            final(self).is_4state_spec() == old(self).is_4state_spec(),
            final(right_nu).is_4state_spec() == old(right_nu).is_4state_spec(),
    {
        proof {
            lemma_words_for(old(self).size as nat);
            lemma_words_for(old(right_nu).size as nat);
        }
        let n = if self.data_01.len() >= right_nu.data_01.len() {
            self.data_01.len()
        } else {
            right_nu.data_01.len()
        };
        self.extend_to(n);
        right_nu.extend_to(n);
    }

    /// Cuts the value down to `size` bits, clearing every position at or
    /// above the new width in both vectors.
    pub fn _truncate(&mut self, size: usize)
        requires
            old(self).wf(),
            1 <= size <= old(self).size,
        ensures
            final(self).wf(),
            final(self).size == size,
            final(self).v01() == old(self).v01() % pow2(size as nat),
            final(self).vxz() == old(self).vxz() % pow2(size as nat),
            final(self).signed == old(self).signed,
            final(self).is_4state_spec() == old(self).is_4state_spec(),
    {
        proof {
            lemma_words_for(old(self).size as nat);
            lemma_words_for(size as nat);
            vstd::arithmetic::power2::lemma_pow2_pos(size as nat);
            vstd::arithmetic::div_mod::lemma_div_is_ordered(
                (size - 1) as int,
                (old(self).size - 1) as int,
                64,
            );
            vstd::arithmetic::div_mod::lemma_mod_division_less_than_divisor(
                old(self).v01() as int,
                pow2(size as nat) as int,
            );
            vstd::arithmetic::div_mod::lemma_mod_division_less_than_divisor(
                old(self).vxz() as int,
                pow2(size as nat) as int,
            );
            vstd::arithmetic::div_mod::lemma_small_mod(0, pow2(size as nat));
        }
        self.data_01 = trunc_words(&self.data_01, size);
        let xz_new = match &self.data_xz {
            Some(x) => Some(trunc_words(x, size)),
            None => None,
        };
        self.data_xz = xz_new;
        self.size = size;
    }

    /// Unsigned addition: the receiver's 0/1 pattern becomes the full sum of
    /// both patterns.  The declared size is left alone; callers set it.
    pub fn _unsigned_primlit_add(&mut self, right_nu: SvPrimaryLiteralIntegral)
        requires
            old(self).lens_ok(),
            right_nu.lens_ok(),
        ensures
            final(self).v01() == old(self).v01() + right_nu.v01(),
            final(self).vxz() == old(self).vxz(),
            final(self).size == old(self).size,
            final(self).signed == old(self).signed,
            final(self).is_4state_spec() == old(self).is_4state_spec(),
            final(self).data_01@.len() >= vstd::math::max(
                old(self).data_01@.len() as int,
                right_nu.data_01@.len() as int,
            ),
            final(self).data_01@.len() <= vstd::math::max(
                old(self).data_01@.len() as int,
                right_nu.data_01@.len() as int,
            ) + 1,
            old(self).v01() + right_nu.v01() < pow2(
                64 * vstd::math::max(
                    old(self).data_01@.len() as int,
                    right_nu.data_01@.len() as int,
                ) as nat,
            ) ==> final(self).data_01@.len() == vstd::math::max(
                old(self).data_01@.len() as int,
                right_nu.data_01@.len() as int,
            ),
            final(self).lens_ok(),
    {
        let mut right_nu = right_nu;
        self._primlit_vec_elmnt_match(&mut right_nu);
        let (sum, carry) = add_words(&self.data_01, &right_nu.data_01);
        let mut sum = sum;
        if carry {
            let ghost pre = sum@;
            sum.push(1);
            proof {
                lemma_wval_push(pre, 1);
                crate::words::lemma_wval_bound(pre);
            }
            let xz_new = match &self.data_xz {
                Some(x) => Some(pad_words(x, sum.len())),
                None => None,
            };
            self.data_xz = xz_new;
        }
        self.data_01 = sum;
    }

    /// Spec-level equality of two values: same pattern, mask, width,
    /// signedness and state-ness.
    pub open spec fn eqv(self, other: SvPrimaryLiteralIntegral) -> bool {
        &&& self.data_01@ == other.data_01@
        &&& self.size == other.size
        &&& self.signed == other.signed
        &&& self.is_4state_spec() == other.is_4state_spec()
        &&& (self.is_4state_spec() ==> self.data_xz->Some_0@ == other.data_xz->Some_0@)
    }

    /// An explicit copy of the value.
    fn dup(&self) -> (r: SvPrimaryLiteralIntegral)
        ensures
            r.eqv(*self),
            r.v01() == self.v01(),
            r.vxz() == self.vxz(),
    {
        let d01 = pad_words(&self.data_01, self.data_01.len());
        proof {
            assert(d01@.take(self.data_01@.len() as int) =~= d01@);
        }
        let dxz = match &self.data_xz {
            Some(x) => {
                let c = pad_words(x, x.len());
                proof {
                    assert(c@.take(x@.len() as int) =~= c@);
                }
                Some(c)
            },
            None => None,
        };
        SvPrimaryLiteralIntegral { data_01: d01, data_xz: dxz, size: self.size, signed: self.signed }
    }

    /// Doubles the value, growing the declared width by one bit.
    fn shl1(&mut self)
        requires
            old(self).wf(),
            old(self).size + 1 <= SIZE_MAX,
        ensures
            final(self).wf(),
            final(self).size == old(self).size + 1,
            final(self).v01() == 2 * old(self).v01(),
            final(self).vxz() == 2 * old(self).vxz(),
            final(self).signed == old(self).signed,
            final(self).is_4state_spec() == old(self).is_4state_spec(),
    {
        proof {
            lemma_words_for(old(self).size as nat);
            lemma_words_for((old(self).size + 1) as nat);
            vstd::arithmetic::power2::lemma_pow2_unfold((old(self).size + 1) as nat);
        }
        let len = self.data_01.len();
        let grow = self.size == 64 * len;
        let ghost size0 = self.size as nat;
        proof {
            if !grow {
                vstd::arithmetic::power2::lemma_pow2_strictly_increases(size0, 64 * len as nat);
                if size0 + 1 < 64 * len as nat {
                    vstd::arithmetic::power2::lemma_pow2_strictly_increases(
                        size0 + 1,
                        64 * len as nat,
                    );
                }
            }
        }
        let (d01, c01) = shl1_words(&self.data_01);
        let mut d01 = d01;
        proof {
            if !grow && c01 {
                lemma_wval_bound(d01@);
                assert(false);
            }
        }
        if grow {
            let ghost pre = d01@;
            d01.push(if c01 { 1 } else { 0 });
            proof {
                lemma_wval_push(pre, if c01 { 1u64 } else { 0u64 });
            }
        }
        self.data_01 = d01;
        let xz_new = match &self.data_xz {
            Some(x) => {
                let (dxz, cxz) = shl1_words(x);
                let mut dxz = dxz;
                proof {
                    if !grow && cxz {
                        lemma_wval_bound(dxz@);
                        assert(false);
                    }
                }
                if grow {
                    let ghost pre = dxz@;
                    dxz.push(if cxz { 1 } else { 0 });
                    proof {
                        lemma_wval_push(pre, if cxz { 1u64 } else { 0u64 });
                    }
                }
                Some(dxz)
            },
            None => None,
        };
        self.data_xz = xz_new;
        self.size = self.size + 1;
        proof {
            if grow {
                assert(words_for(size0 + 1) == len + 1) by {
                    vstd::arithmetic::div_mod::lemma_fundamental_div_mod_converse(
                        (size0 + 1 + 63) as int,
                        64,
                        (len + 1) as int,
                        0,
                    );
                    vstd::arithmetic::mul::lemma_mul_is_commutative(64, (len + 1) as int);
                    vstd::arithmetic::mul::lemma_mul_is_distributive_add(64, len as int, 1);
                }
            }
        }
    }

    /// Logical shift left: `n` zero bits enter at the bottom and the declared
    /// width grows by `n`.
    pub fn lsl(&self, n: usize) -> (r: SvPrimaryLiteralIntegral)
        requires
            self.wf(),
            self.size + n <= SIZE_MAX,
        ensures
            r.wf(),
            r.size == self.size + n,
            r.v01() == self.v01() * pow2(n as nat),
            r.vxz() == self.vxz() * pow2(n as nat),
            r.signed == self.signed,
            r.is_4state_spec() == self.is_4state_spec(),
            n == 0 ==> r.eqv(*self),
    {
        let mut ret = self.dup();
        let mut i: usize = 0;
        proof {
            vstd::arithmetic::power2::lemma2_to64();
            assert(self.v01() * pow2(0) == self.v01() && self.vxz() * pow2(0) == self.vxz()) by {
                vstd::arithmetic::mul::lemma_mul_basics(self.v01() as int);
                vstd::arithmetic::mul::lemma_mul_basics(self.vxz() as int);
            }
        }
        while i < n
            invariant
                i <= n,
                self.wf(),
                self.size + n <= SIZE_MAX,
                ret.wf(),
                ret.size == self.size + i,
                ret.v01() == self.v01() * pow2(i as nat),
                ret.vxz() == self.vxz() * pow2(i as nat),
                ret.signed == self.signed,
                ret.is_4state_spec() == self.is_4state_spec(),
                n == 0 ==> ret.eqv(*self),
            decreases n - i,
        {
            ret.shl1();
            proof {
                vstd::arithmetic::power2::lemma_pow2_unfold((i + 1) as nat);
                assert(self.v01() * pow2((i + 1) as nat) == 2 * (self.v01() * pow2(i as nat))) by {
                    lemma_mul_shift(self.v01(), pow2(i as nat));
                }
                assert(self.vxz() * pow2((i + 1) as nat) == 2 * (self.vxz() * pow2(i as nat))) by {
                    lemma_mul_shift(self.vxz(), pow2(i as nat));
                }
            }
            i += 1;
        }
        ret
    }

    /// Logical shift right: `n` bits fall off at the bottom, zeros enter at
    /// the top, and the declared width is preserved.
    pub fn lsr(&self, n: usize) -> (r: SvPrimaryLiteralIntegral)
        requires
            self.wf(),
        ensures
            r.wf(),
            r.size == self.size,
            r.v01() == self.v01() / pow2(n as nat),
            r.vxz() == self.vxz() / pow2(n as nat),
            r.signed == self.signed,
            r.is_4state_spec() == self.is_4state_spec(),
    {
        let mut ret = self.dup();
        let mut i: usize = 0;
        proof {
            vstd::arithmetic::power2::lemma2_to64();
            vstd::arithmetic::div_mod::lemma_div_basics_1(self.v01() as int);
            vstd::arithmetic::div_mod::lemma_div_basics_1(self.vxz() as int);
        }
        while i < n
            invariant
                i <= n,
                self.wf(),
                ret.wf(),
                ret.size == self.size,
                ret.v01() == self.v01() / pow2(i as nat),
                ret.vxz() == self.vxz() / pow2(i as nat),
                ret.signed == self.signed,
                ret.is_4state_spec() == self.is_4state_spec(),
            decreases n - i,
        {
            ret.shr1();
            proof {
                vstd::arithmetic::power2::lemma_pow2_unfold((i + 1) as nat);
                vstd::arithmetic::power2::lemma_pow2_pos(i as nat);
                vstd::arithmetic::div_mod::lemma_div_denominator(
                    self.v01() as int,
                    pow2(i as nat) as int,
                    2,
                );
                vstd::arithmetic::div_mod::lemma_div_denominator(
                    self.vxz() as int,
                    pow2(i as nat) as int,
                    2,
                );
                assert(pow2(i as nat) * 2 == 2 * pow2(i as nat));
            }
            i += 1;
        }
        ret
    }

    /// Halves the value, keeping the declared width.
    fn shr1(&mut self)
        requires
            old(self).wf(),
        ensures
            final(self).wf(),
            final(self).size == old(self).size,
            final(self).v01() == old(self).v01() / 2,
            final(self).vxz() == old(self).vxz() / 2,
            final(self).signed == old(self).signed,
            final(self).is_4state_spec() == old(self).is_4state_spec(),
    {
        let d01 = shr1_words(&self.data_01, false);
        proof {
            lemma_halving(old(self).v01(), d01@);
            assert(old(self).v01() / 2 <= old(self).v01()) by {
                vstd::arithmetic::div_mod::lemma_div_is_ordered_by_denominator(
                    old(self).v01() as int,
                    1,
                    2,
                );
                vstd::arithmetic::div_mod::lemma_div_basics_1(old(self).v01() as int);
            }
        }
        self.data_01 = d01;
        let xz_new = match &self.data_xz {
            Some(x) => {
                let dxz = shr1_words(x, false);
                proof {
                    lemma_halving(old(self).vxz(), dxz@);
                    assert(old(self).vxz() / 2 <= old(self).vxz()) by {
                        vstd::arithmetic::div_mod::lemma_div_is_ordered_by_denominator(
                            old(self).vxz() as int,
                            1,
                            2,
                        );
                        vstd::arithmetic::div_mod::lemma_div_basics_1(old(self).vxz() as int);
                    }
                }
                Some(dxz)
            },
            None => None,
        };
        self.data_xz = xz_new;
    }

    /// Rotates the value left by `n` positions within its declared width.
    pub fn rol(&self, n: usize) -> (r: SvPrimaryLiteralIntegral)
        requires
            self.wf(),
        ensures
            r.wf(),
            r.size == self.size,
            r.v01() == rot_left(self.v01(), self.size as nat, n as nat),
            r.vxz() == rot_left(self.vxz(), self.size as nat, n as nat),
            r.signed == self.signed,
            r.is_4state_spec() == self.is_4state_spec(),
    {
        let mut ret = self.dup();
        let mut i: usize = 0;
        while i < n
            invariant
                i <= n,
                self.wf(),
                ret.wf(),
                ret.size == self.size,
                ret.v01() == rot_left(self.v01(), self.size as nat, i as nat),
                ret.vxz() == rot_left(self.vxz(), self.size as nat, i as nat),
                ret.signed == self.signed,
                ret.is_4state_spec() == self.is_4state_spec(),
            decreases n - i,
        {
            ret.rol1();
            proof {
                lemma_rot_left_peel(self.v01(), self.size as nat, i as nat);
                lemma_rot_left_peel(self.vxz(), self.size as nat, i as nat);
            }
            i += 1;
        }
        ret
    }

    /// One left rotation.
    fn rol1(&mut self)
        requires
            old(self).wf(),
        ensures
            final(self).wf(),
            final(self).size == old(self).size,
            final(self).v01() == rot_left1(old(self).v01(), old(self).size as nat),
            final(self).vxz() == rot_left1(old(self).vxz(), old(self).size as nat),
            final(self).signed == old(self).signed,
            final(self).is_4state_spec() == old(self).is_4state_spec(),
    {
        let size0 = self.size;
        let m01 = self.is_set_msb_01();
        let mxz = self.is_set_msb_xz();
        proof {
            lemma_words_for(size0 as nat);
            lemma_msb_as_div(old(self).v01(), size0 as nat);
            lemma_msb_as_div(old(self).vxz(), size0 as nat);
            vstd::arithmetic::power2::lemma_pow2_pos(size0 as nat);
            vstd::arithmetic::power2::lemma_pow2_unfold(size0 as nat);
            vstd::arithmetic::power2::lemma_pow2_pos((size0 - 1) as nat);
        }
        let (d01, _c01) = shl1_words(&self.data_01);
        let mut nd = trunc_words(&d01, size0);
        proof {
            lemma_shift_mod(old(self).v01(), d01@, size0 as nat, if _c01 { 1nat } else { 0nat });
            lemma_even_mod(old(self).v01(), size0 as nat);
            crate::words::lemma_wval_parity(nd@);
            vstd::arithmetic::div_mod::lemma_small_mod(0, pow2(size0 as nat));
        }
        if m01 {
            let w0 = nd[0];
            proof {
                lemma_wval_update_zero(nd@, (w0 + 1) as u64);
            }
            nd.set(0, w0 + 1);
        }
        self.data_01 = nd;
        let xz_new = match &self.data_xz {
            Some(x) => {
                let (dxz, _cxz) = shl1_words(x);
                let mut ndx = trunc_words(&dxz, size0);
                proof {
                    lemma_shift_mod(old(self).vxz(), dxz@, size0 as nat, if _cxz { 1nat } else { 0nat });
                    lemma_even_mod(old(self).vxz(), size0 as nat);
                    crate::words::lemma_wval_parity(ndx@);
                }
                if mxz {
                    let w0 = ndx[0];
                    proof {
                        lemma_wval_update_zero(ndx@, (w0 + 1) as u64);
                    }
                    ndx.set(0, w0 + 1);
                }
                Some(ndx)
            },
            None => None,
        };
        self.data_xz = xz_new;
    }

    /// Rotates the value right by `n` positions within its declared width.
    pub fn ror(&self, n: usize) -> (r: SvPrimaryLiteralIntegral)
        requires
            self.wf(),
        ensures
            r.wf(),
            r.size == self.size,
            r.v01() == rot_right(self.v01(), self.size as nat, n as nat),
            r.vxz() == rot_right(self.vxz(), self.size as nat, n as nat),
            r.signed == self.signed,
            r.is_4state_spec() == self.is_4state_spec(),
    {
        let mut ret = self.dup();
        let mut i: usize = 0;
        while i < n
            invariant
                i <= n,
                self.wf(),
                ret.wf(),
                ret.size == self.size,
                ret.v01() == rot_right(self.v01(), self.size as nat, i as nat),
                ret.vxz() == rot_right(self.vxz(), self.size as nat, i as nat),
                ret.signed == self.signed,
                ret.is_4state_spec() == self.is_4state_spec(),
            decreases n - i,
        {
            ret.ror1();
            proof {
                lemma_rot_right_peel(self.v01(), self.size as nat, i as nat);
                lemma_rot_right_peel(self.vxz(), self.size as nat, i as nat);
            }
            i += 1;
        }
        ret
    }

    /// One right rotation.
    fn ror1(&mut self)
        requires
            old(self).wf(),
        ensures
            final(self).wf(),
            final(self).size == old(self).size,
            final(self).v01() == rot_right1(old(self).v01(), old(self).size as nat),
            final(self).vxz() == rot_right1(old(self).vxz(), old(self).size as nat),
            final(self).signed == old(self).signed,
            final(self).is_4state_spec() == old(self).is_4state_spec(),
    {
        let l01 = self.data_01[0] % 2 == 1;
        let lxz = match &self.data_xz {
            Some(x) => x[0] % 2 == 1,
            None => false,
        };
        proof {
            crate::words::lemma_wval_parity(self.data_01@);
            if self.data_xz is Some {
                crate::words::lemma_wval_parity(self.data_xz->Some_0@);
            }
        }
        self.shr1();
        let j: usize = (self.size - 1) % 64;
        let last = self.data_01.len() - 1;
        proof {
            lemma_words_for(self.size as nat);
            vstd::arithmetic::div_mod::lemma_fundamental_div_mod((self.size - 1) as int, 64);
            lemma_half_stays_low(old(self).v01(), self.size as nat);
            lemma_half_stays_low(old(self).vxz(), self.size as nat);
            vstd::arithmetic::power2::lemma_pow2_unfold(self.size as nat);
            vstd::arithmetic::power2::lemma_pow2_pos((self.size - 1) as nat);
            vstd::arithmetic::div_mod::lemma_div_basics_2(2);
        }
        if l01 {
            let wt = self.data_01[last];
            let p = sub_pow(j);
            proof {
                crate::words::lemma_wval_top(self.data_01@, j as nat);
                lemma_fits_word(j as nat);
                lemma_top_set(self.data_01@, j as nat, self.size as nat, (wt + p) as u64);
            }
            self.data_01.set(last, wt + p);
        }
        if lxz {
            match &mut self.data_xz {
                Some(x) => {
                    let wt = x[last];
                    let p = sub_pow(j);
                    proof {
                        crate::words::lemma_wval_top(x@, j as nat);
                        lemma_fits_word(j as nat);
                        lemma_top_set(x@, j as nat, self.size as nat, (wt + p) as u64);
                    }
                    x.set(last, wt + p);
                },
                None => {
                    proof {
                        assert(false);
                    }
                },
            }
        }
        proof {
            vstd::arithmetic::power2::lemma_pow2_pos((self.size - 1) as nat);
            let psz = pow2((old(self).size - 1) as nat);
            vstd::arithmetic::mul::lemma_mul_basics(psz as int);
            assert(old(self).v01() % 2 == (if l01 { 1nat } else { 0nat }));
            assert((old(self).v01() % 2) * psz == (if l01 { psz } else { 0nat }));
            assert((old(self).vxz() % 2) * psz == (if lxz { psz } else { 0nat }));
        }
    }

    /// Redeclares the width as `bits`, reducing every lane modulo
    /// `pow2(bits)`; the backing vectors are resized to match.
    fn set_width(&mut self, bits: usize)
        requires
            1 <= bits <= SIZE_MAX,
            old(self).lens_ok(),
        ensures
            final(self).wf(),
            final(self).size == bits,
            final(self).v01() == old(self).v01() % pow2(bits as nat),
            final(self).vxz() == old(self).vxz() % pow2(bits as nat),
            final(self).signed == old(self).signed,
            final(self).is_4state_spec() == old(self).is_4state_spec(),
    {
        proof {
            lemma_words_for(bits as nat);
        }
        let nl: usize = (bits - 1) / 64 + 1;
        if nl <= self.data_01.len() {
            self.crop(bits);
        } else {
            proof {
                lemma_wval_bound(self.data_01@);
                if self.data_xz is Some {
                    lemma_wval_bound(self.data_xz->Some_0@);
                }
                assert((64 * old(self).data_01@.len() as nat) < bits as nat);
                lemma_pow2_le(64 * old(self).data_01@.len() as nat, bits as nat);
                vstd::arithmetic::power2::lemma_pow2_pos(bits as nat);
                vstd::arithmetic::div_mod::lemma_small_mod(old(self).v01(), pow2(bits as nat));
                vstd::arithmetic::div_mod::lemma_small_mod(old(self).vxz(), pow2(bits as nat));
            }
            self.pad_backing(nl);
            self.size = bits;
        }
    }

    /// Canonicalises the value to its minimum width, keeping the numeric
    /// reading.
    pub fn _minimum_width(&mut self)
        requires
            old(self).wf(),
            old(self).size + 1 <= SIZE_MAX,
        ensures
            final(self).wf(),
            final(self).size == old(self).min_size(),
            final(self).v01() == old(self).v01() % pow2(old(self).min_size()),
            final(self).vxz() == old(self).vxz() % pow2(old(self).min_size()),
            final(self).signed == old(self).signed,
            final(self).is_4state_spec() == old(self).is_4state_spec(),
            old(self).signed && old(self).vxz() == 0 ==> final(self).sval() == old(self).sval(),
    {
        proof {
            lemma_words_for(old(self).size as nat);
            vstd::arithmetic::power2::lemma_pow2_pos(old(self).size as nat);
        }
        let neg = self.signed && self.is_set_msb_01() && !self.contains_xz();
        if neg {
            let nw = not_words(&self.data_01);
            let cm = trunc_words(&nw, self.size);
            let ghost m1 = (pow2(old(self).size as nat) - old(self).v01() - 1) as nat;
            proof {
                // complement within the declared width
                let len = old(self).data_01@.len();
                let big = (pow2(64 * len) - 1 - old(self).v01()) as nat;
                lemma_diff_mod(old(self).v01(), old(self).size as nat, 64 * len);
                assert(wval(cm@) == m1);
                lemma_nbit_lower_bound(old(self).v01(), (old(self).size - 1) as nat);
                vstd::arithmetic::power2::lemma_pow2_unfold(old(self).size as nat);
                lemma_bitlen_le(m1, (old(self).size - 1) as nat);
                if m1 > 0 {
                    lemma_bitlen_bounds(m1);
                }
            }
            let n: usize = match msb_index(&cm) {
                None => 1,
                Some(mm) => mm + 2,
            };
            proof {
                lemma_words_for(n as nat);
                vstd::arithmetic::div_mod::lemma_div_is_ordered(
                    (n - 1) as int,
                    (old(self).size - 1) as int,
                    64,
                );
            }
            self.crop(n);
            proof {
                let n_ = n as nat;
                let sz = old(self).size as nat;
                let v = old(self).v01();
                let m = (pow2(sz) - v) as nat;
                lemma_pow2_le(n_, sz);
                // the reduced pattern keeps the most significant bit set
                assert(m <= pow2((n_ - 1) as nat)) by {
                    if m1 > 0 {
                        lemma_bitlen_bounds(m1);
                    } else {
                        vstd::arithmetic::power2::lemma2_to64();
                    }
                }
                vstd::arithmetic::power2::lemma_pow2_pos(n_);
                vstd::arithmetic::power2::lemma_pow2_pos((n_ - 1) as nat);
                lemma_pow2_le((n_ - 1) as nat, n_);
                lemma_neg_mod(v, m, n_, sz);
                // the top bit of the reduced form is set, so the signed
                // reading is unchanged
                assert(((pow2(n_) - m) as nat) / pow2((n_ - 1) as nat) >= 1) by {
                    vstd::arithmetic::power2::lemma_pow2_unfold(n_);
                    vstd::arithmetic::div_mod::lemma_div_is_ordered(
                        pow2((n_ - 1) as nat) as int,
                        (pow2(n_) - m) as int,
                        pow2((n_ - 1) as nat) as int,
                    );
                    vstd::arithmetic::div_mod::lemma_div_by_self(pow2((n_ - 1) as nat) as int);
                }
                lemma_msb_as_div((pow2(n_) - m) as nat, n_);
                vstd::arithmetic::power2::lemma_pow2_unfold(n_);
            }
        } else {
            let n0: usize = match msb_index(&self.data_01) {
                None => 0,
                Some(m) => m + 1,
            };
            proof {
                if old(self).v01() > 0 {
                    lemma_bitlen_bounds(old(self).v01());
                    lemma_bitlen_le(old(self).v01(), old(self).size as nat);
                }
            }
            let n: usize = if n0 == 0 {
                1
            } else if self.signed {
                n0 + 1
            } else {
                n0
            };
            self.set_width(n);
            proof {
                let n_ = n as nat;
                let v = old(self).v01();
                vstd::arithmetic::power2::lemma_pow2_pos(n_);
                if v == 0 {
                    vstd::arithmetic::div_mod::lemma_small_mod(0, pow2(n_));
                } else {
                    assert(v < pow2(n_)) by {
                        lemma_bitlen_bounds(v);
                        lemma_pow2_le(bitlen(v), n_);
                    }
                    vstd::arithmetic::div_mod::lemma_small_mod(v, pow2(n_));
                }
                if old(self).signed && old(self).vxz() == 0 {
                    // non-negative: the top bit of the reduced form is clear
                    lemma_nbit_zero((n_ - 1) as nat);
                    lemma_nbit_zero((old(self).size - 1) as nat);
                    if v > 0 {
                        lemma_bitlen_bounds(v);
                        vstd::arithmetic::power2::lemma_pow2_unfold(n_);
                        vstd::arithmetic::power2::lemma_pow2_pos((n_ - 1) as nat);
                        vstd::arithmetic::div_mod::lemma_basic_div(
                            v as int,
                            pow2((n_ - 1) as nat) as int,
                        );
                        lemma_msb_as_div(v, n_);
                    }
                    old(self).lemma_sval_bounds();
                }
            }
        }
    }

    /// Two's complement negation of a signed value without X/Z content; the
    /// result is canonicalised to its minimum signed width.
    pub fn negate(&self) -> (r: SvPrimaryLiteralIntegral)
        requires
            self.wf(),
            self.signed,
            self.vxz() == 0,
            self.size + 130 <= SIZE_MAX,
        ensures
            r.wf(),
            r.signed,
            r.is_4state_spec() == self.is_4state_spec(),
            r.vxz() == 0,
            self.v01() == 0 ==> r.eqv(*self),
            self.v01() != 0 ==> r.sval() == -self.sval() && r.size == signed_min_bits(
                -self.sval(),
            ),
    {
        proof {
            lemma_words_for(self.size as nat);
            vstd::arithmetic::power2::lemma_pow2_pos(self.size as nat);
        }
        match msb_index(&self.data_01) {
            None => {
                return self.dup();
            },
            Some(_) => {},
        }
        proof {
            assert(self.v01() > 0) by {
                if self.v01() == 0 {
                    assert(bitlen(0) == 0);
                }
            }
        }
        let fromneg = self.is_set_msb_01();
        let nw = not_words(&self.data_01);
        let cm = trunc_words(&nw, self.size);
        proof {
            lemma_diff_mod(self.v01(), self.size as nat, 64 * self.data_01@.len());
        }
        let mut t = SvPrimaryLiteralIntegral {
            data_01: cm,
            data_xz: None,
            size: self.size,
            signed: true,
        };
        proof {
            vstd::arithmetic::div_mod::lemma_mod_division_less_than_divisor(
                (pow2(64 * self.data_01@.len()) - 1 - self.v01()) as int,
                pow2(self.size as nat) as int,
            );
            lemma_one_word(1);
        }
        let one = SvPrimaryLiteralIntegral {
            data_01: one_word(1),
            data_xz: None,
            size: 1,
            signed: true,
        };
        let ghost m = (pow2(self.size as nat) - self.v01()) as nat;
        let ghost pre_len = t.data_01@.len();
        proof {
            lemma_pow2_le(self.size as nat, 64 * pre_len);
            assert(t.v01() + 1 == m);
        }
        t._unsigned_primlit_add(one);
        proof {
            assert(t.v01() == m);
            assert(t.data_01@.len() == pre_len);
            self.lemma_sval_bounds();
        }
        if fromneg {
            // the magnitude is positive: give it a clear sign bit
            let n: usize = match msb_index(&t.data_01) {
                None => {
                    proof {
                        assert(false);
                    }
                    1
                },
                Some(mm) => mm + 2,
            };
            t.set_width(n);
            proof {
                let n_ = n as nat;
                lemma_bitlen_bounds(m);
                lemma_pow2_le(bitlen(m), (n_ - 1) as nat);
                lemma_pow2_le((n_ - 1) as nat, n_);
                vstd::arithmetic::power2::lemma_pow2_pos(n_);
                assert(m < pow2(n_)) by {
                    vstd::arithmetic::power2::lemma_pow2_strictly_increases((n_ - 1) as nat, n_);
                }
                vstd::arithmetic::div_mod::lemma_small_mod(m, pow2(n_));
                vstd::arithmetic::power2::lemma_pow2_pos(n_);
                vstd::arithmetic::power2::lemma_pow2_pos((n_ - 1) as nat);
                vstd::arithmetic::div_mod::lemma_basic_div(m as int, pow2((n_ - 1) as nat) as int);
                lemma_msb_as_div(m, n_);
                vstd::arithmetic::power2::lemma_pow2_unfold(n_);
            }
        } else {
            proof {
                // the magnitude exceeds half the range: its sign bit is set
                assert(m >= pow2((self.size - 1) as nat) + 1) by {
                    vstd::arithmetic::power2::lemma_pow2_unfold(self.size as nat);
                }
                assert((m / pow2((self.size - 1) as nat)) >= 1) by {
                    vstd::arithmetic::div_mod::lemma_div_is_ordered(
                        pow2((self.size - 1) as nat) as int,
                        m as int,
                        pow2((self.size - 1) as nat) as int,
                    );
                    vstd::arithmetic::div_mod::lemma_div_by_self(
                        pow2((self.size - 1) as nat) as int,
                    );
                }
                lemma_msb_as_div(m, self.size as nat);
            }
            t._minimum_width();
        }
        let xz_new: Option<Vec<u64>> = if self.is_4state() {
            Some(zero_words(t.data_01.len()))
        } else {
            None
        };
        t.data_xz = xz_new;
        proof {
            vstd::arithmetic::power2::lemma_pow2_pos(t.size as nat);
        }
        t
    }

    /// The specified addition: the result is one bit wider than the wider
    /// operand; any X/Z content poisons every result bit to X; signedness
    /// follows the unsigned-wins rule.
    #[verifier::rlimit(80)]
    pub fn add_primlit(&self, right_nu: SvPrimaryLiteralIntegral) -> (r: SvPrimaryLiteralIntegral)
        requires
            self.wf(),
            right_nu.wf(),
            self.size + 130 <= SIZE_MAX,
            right_nu.size + 130 <= SIZE_MAX,
        ensures
            r.wf(),
            r.size == vstd::math::max(self.size as int, right_nu.size as int) + 1,
            r.signed == (self.signed && right_nu.signed),
            r.is_4state_spec() == (self.is_4state_spec() || right_nu.is_4state_spec()),
            self.has_xz() || right_nu.has_xz() ==> r.v01() == 0 && r.vxz() == pow2(
                r.size as nat,
            ) - 1,
            !(self.has_xz() || right_nu.has_xz()) ==> r.vxz() == 0,
            !(self.has_xz() || right_nu.has_xz()) && !(self.signed && right_nu.signed)
                ==> r.v01() == self.v01() + right_nu.v01(),
            !(self.has_xz() || right_nu.has_xz()) && self.signed && right_nu.signed ==> r.sval()
                == self.sval() + right_nu.sval(),
    {
        let fb: usize = if self.size >= right_nu.size {
            self.size + 1
        } else {
            right_nu.size + 1
        };
        let four = self.is_4state() || right_nu.is_4state();
        let clean = !self.contains_xz() && !right_nu.contains_xz();
        if !clean {
            return all_x(fb, self.signed && right_nu.signed);
        }
        proof {
            lemma_nbit_zero((self.size - 1) as nat);
            lemma_nbit_zero((right_nu.size - 1) as nat);
            lemma_words_for(self.size as nat);
            lemma_words_for(right_nu.size as nat);
        }
        if self.signed && right_nu.signed {
            let la = self.data_01.len();
            let lb = right_nu.data_01.len();
            let nl = if la >= lb {
                la + 1
            } else {
                lb + 1
            };
            let mut x = if !self.is_4state() && four {
                self.to_4state()
            } else {
                self.dup()
            };
            let mut y = right_nu.dup();
            x.extend_to(nl);
            y.extend_to(nl);
            let ghost bign = 64 * nl as nat;
            let ghost sa = self.sval();
            let ghost sb = right_nu.sval();
            let ghost ka: int = if self.msb01() { 1 } else { 0 };
            let ghost kb: int = if right_nu.msb01() { 1 } else { 0 };
            proof {
                vstd::arithmetic::mul::lemma_mul_basics(pow2(bign) as int);
                lemma_pow2_le(self.size as nat, bign);
                lemma_pow2_le(right_nu.size as nat, bign);
                assert(x.v01() as int == sa + ka * pow2(bign));
                assert(y.v01() as int == sb + kb * pow2(bign));
                lemma_pow2_le(fb as nat, bign);
                self.lemma_sval_bounds();
                right_nu.lemma_sval_bounds();
                lemma_pow2_le((self.size - 1) as nat, (fb - 2) as nat);
                lemma_pow2_le((right_nu.size - 1) as nat, (fb - 2) as nat);
                vstd::arithmetic::power2::lemma_pow2_unfold((fb - 1) as nat);
                assert(words_for(fb as nat) <= nl as nat) by {
                    lemma_words_for(fb as nat);
                    vstd::arithmetic::div_mod::lemma_div_is_ordered(
                        (fb - 1) as int,
                        64 * nl as int - 1,
                        64,
                    );
                    vstd::arithmetic::div_mod::lemma_fundamental_div_mod_converse(
                        64 * nl as int - 1,
                        64,
                        nl as int - 1,
                        63,
                    );
                    vstd::arithmetic::mul::lemma_mul_is_distributive_sub(64, nl as int, 1);
                    vstd::arithmetic::mul::lemma_mul_is_commutative(64, nl as int - 1);
                }
            }
            x._unsigned_primlit_add(y);
            x.crop(fb);
            proof {
                let z = sa + sb;
                let total = (sa + ka * pow2(bign)) + (sb + kb * pow2(bign));
                assert(x.v01() as int == total % pow2(fb as nat) as int) by {
                    vstd::arithmetic::power2::lemma_pow2_pos(fb as nat);
                }
                assert(total == z + (ka + kb) * pow2(bign)) by {
                    vstd::arithmetic::mul::lemma_mul_is_distributive_add_other_way(
                        pow2(bign) as int,
                        ka,
                        kb,
                    );
                }
                lemma_mod_drop_multiple(z, ka + kb, bign, fb as nat);
                lemma_twos_complement(z, fb as nat);
                vstd::arithmetic::div_mod::lemma_small_mod(0, pow2(fb as nat));
            }
            x
        } else {
            let mut x = if !self.is_4state() && four {
                self.to_4state()
            } else {
                self.dup()
            };
            proof {
                vstd::arithmetic::power2::lemma_pow2_unfold(fb as nat);
                lemma_pow2_le(self.size as nat, (fb - 1) as nat);
                lemma_pow2_le(right_nu.size as nat, (fb - 1) as nat);
            }
            x._unsigned_primlit_add(right_nu);
            x.signed = false;
            x.set_width(fb);
            proof {
                vstd::arithmetic::power2::lemma_pow2_pos(fb as nat);
                vstd::arithmetic::div_mod::lemma_small_mod(
                    self.v01() + right_nu.v01(),
                    pow2(fb as nat),
                );
                vstd::arithmetic::div_mod::lemma_small_mod(0, pow2(fb as nat));
            }
            x
        }
    }

    /// Shift-and-add product of the 0/1 patterns, ignoring signedness.
    pub fn mul_unsigned(&self, right_nu: SvPrimaryLiteralIntegral) -> (r:
        SvPrimaryLiteralIntegral)
        requires
            self.wf(),
            right_nu.wf(),
            self.vxz() == 0,
            right_nu.vxz() == 0,
            self.size + right_nu.size + 132 <= SIZE_MAX,
        ensures
            r.wf(),
            r.v01() == self.v01() * right_nu.v01(),
            r.vxz() == 0,
            !r.signed,
            r.size <= self.size + right_nu.size + 1,
    {
        let mut res = bit1b_0();
        let mut x = self.dup();
        let mut i: usize = 0;
        proof {
            vstd::arithmetic::power2::lemma2_to64();
            assert(pow2(0) == 1);
            vstd::arithmetic::mul::lemma_mul_basics(self.v01() as int);
            assert(right_nu.v01() % pow2(0) == 0) by {
                vstd::arithmetic::div_mod::lemma_small_mod(0, 1);
                vstd::arithmetic::div_mod::lemma_mod_multiples_basic(right_nu.v01() as int, 1);
            }
            assert(self.v01() * 0 == 0) by {
                vstd::arithmetic::mul::lemma_mul_basics(self.v01() as int);
            }
            lemma_words_for(right_nu.size as nat);
        }
        while i < right_nu.size
            invariant
                i <= right_nu.size,
                self.wf(),
                right_nu.wf(),
                self.vxz() == 0,
                right_nu.vxz() == 0,
                self.size + right_nu.size + 132 <= SIZE_MAX,
                x.wf(),
                x.v01() == self.v01() * pow2(i as nat),
                x.vxz() == 0,
                x.size == self.size + i,
                res.wf(),
                res.v01() == self.v01() * (right_nu.v01() % pow2(i as nat)),
                res.vxz() == 0,
                !res.signed,
                res.size <= self.size + i + 1,
            decreases right_nu.size - i,
        {
            proof {
                lemma_words_for(right_nu.size as nat);
                lemma_wval_bit(right_nu.data_01@, i as nat);
                vstd::arithmetic::div_mod::lemma_fundamental_div_mod(i as int, 64);
                vstd::arithmetic::div_mod::lemma_mod_division_less_than_divisor(i as int, 64);
                vstd::arithmetic::div_mod::lemma_div_pos_is_pos(i as int, 64);
                assert(i as int / 64 < right_nu.data_01@.len() as int) by {
                    vstd::arithmetic::div_mod::lemma_div_is_ordered(
                        i as int,
                        (right_nu.size - 1) as int,
                        64,
                    );
                    lemma_words_for(right_nu.size as nat);
                }
            }
            let bit = word_bit(right_nu.data_01[i / 64], i % 64);
            proof {
                lemma_mod_bit_step(right_nu.v01(), i as nat);
            }
            if bit {
                res = res.add_primlit(x.dup());
                proof {
                    lemma_mul_gather(
                        self.v01(),
                        right_nu.v01() % pow2(i as nat),
                        pow2(i as nat),
                    );
                }
            } else {
            }
            x = x.lsl(1);
            proof {
                vstd::arithmetic::power2::lemma2_to64();
                assert(pow2(1) == 2);
                vstd::arithmetic::power2::lemma_pow2_unfold((i + 1) as nat);
                lemma_mul_shift(self.v01(), pow2(i as nat));
                vstd::arithmetic::mul::lemma_mul_is_commutative(
                    (self.v01() * pow2(i as nat)) as int,
                    2,
                );
            }
            i += 1;
        }
        proof {
            vstd::arithmetic::power2::lemma_pow2_pos(right_nu.size as nat);
            vstd::arithmetic::div_mod::lemma_small_mod(
                right_nu.v01(),
                pow2(right_nu.size as nat),
            );
        }
        res
    }

    /// The specified multiplication: the result width is the sum of the
    /// operand widths; X/Z poisons everything; the result is signed only
    /// when both operands are.
    #[verifier::rlimit(60)]
    pub fn mult(&self, right_nu: SvPrimaryLiteralIntegral) -> (r: SvPrimaryLiteralIntegral)
        requires
            self.wf(),
            right_nu.wf(),
            self.size + right_nu.size <= SIZE_MAX / 4,
        ensures
            r.wf(),
            r.size == self.size + right_nu.size,
            r.signed == (self.signed && right_nu.signed),
            r.is_4state_spec() == (self.is_4state_spec() || right_nu.is_4state_spec()),
            self.has_xz() || right_nu.has_xz() ==> r.v01() == 0 && r.vxz() == pow2(
                r.size as nat,
            ) - 1,
            !(self.has_xz() || right_nu.has_xz()) ==> r.vxz() == 0,
            !(self.has_xz() || right_nu.has_xz()) && !(self.signed && right_nu.signed)
                ==> r.v01() == self.v01() * right_nu.v01(),
            !(self.has_xz() || right_nu.has_xz()) && self.signed && right_nu.signed ==> r.sval()
                == self.sval() * right_nu.sval(),
    {
        let fb = self.size + right_nu.size;
        let four = self.is_4state() || right_nu.is_4state();
        let clean = !self.contains_xz() && !right_nu.contains_xz();
        proof {
            lemma_words_for(self.size as nat);
            lemma_words_for(right_nu.size as nat);
        }
        if !clean {
            let mut r = all_x(fb, self.signed && right_nu.signed);
            return r;
        }
        if self.signed && right_nu.signed {
            let la = self.data_01.len();
            let lb = right_nu.data_01.len();
            let nl = la + lb;
            let mut x = if !self.is_4state() && four {
                self.to_4state()
            } else {
                self.dup()
            };
            let mut y = right_nu.dup();
            proof {
                lemma_nbit_zero((self.size - 1) as nat);
                lemma_nbit_zero((right_nu.size - 1) as nat);
            }
            x.extend_to(nl);
            y.extend_to(nl);
            let ghost bign = 64 * nl as nat;
            let ghost sa = self.sval();
            let ghost sb = right_nu.sval();
            let ghost ka: int = if self.msb01() { 1 } else { 0 };
            let ghost kb: int = if right_nu.msb01() { 1 } else { 0 };
            proof {
                vstd::arithmetic::mul::lemma_mul_basics(pow2(bign) as int);
                lemma_pow2_le(self.size as nat, bign);
                lemma_pow2_le(right_nu.size as nat, bign);
                assert(x.v01() as int == sa + ka * pow2(bign));
                assert(y.v01() as int == sb + kb * pow2(bign));
            }
            let mut p = x.mul_unsigned(y);
            p.set_width(fb);
            p.signed = true;
            let xz_new: Option<Vec<u64>> = if four {
                Some(zero_words(p.data_01.len()))
            } else {
                None
            };
            p.data_xz = xz_new;
            proof {
                let z = sa * sb;
                let xa: int = x.v01() as int;
                let yb: int = y.v01() as int;
                let pn: int = pow2(bign) as int;
                let t: int = ka * sb + kb * sa + ka * kb * pn;
                lemma_ring_expand(sa, sb, ka, kb, pn, xa, yb);
                assert(xa * yb == z + pn * t);
                assert(p.v01() == ((z + pn * t) % pow2(fb as nat) as int)) by {
                    vstd::arithmetic::power2::lemma_pow2_pos(fb as nat);
                    assert((x.v01() * y.v01()) as int == xa * yb);
                }
                lemma_pow2_le(fb as nat, bign);
                assert(pn * t == t * pn) by {
                    vstd::arithmetic::mul::lemma_mul_is_commutative(pn, t);
                }
                lemma_mod_drop_multiple(z, t, bign, fb as nat);
                self.lemma_sval_bounds();
                right_nu.lemma_sval_bounds();
                let pa = pow2((self.size - 1) as nat) as int;
                let pb = pow2((right_nu.size - 1) as nat) as int;
                lemma_abs_mul_bound(sa, sb, pa, pb);
                assert(pa * pb == pow2((fb - 2) as nat) as int) by {
                    vstd::arithmetic::power2::lemma_pow2_adds(
                        (self.size - 1) as nat,
                        (right_nu.size - 1) as nat,
                    );
                }
                vstd::arithmetic::power2::lemma_pow2_strictly_increases(
                    (fb - 2) as nat,
                    (fb - 1) as nat,
                );
                lemma_twos_complement(z, fb as nat);
                vstd::arithmetic::power2::lemma_pow2_pos(fb as nat);
                vstd::arithmetic::div_mod::lemma_small_mod(0, pow2(fb as nat));
            }
            p
        } else {
            let mut p = self.mul_unsigned(right_nu.dup());
            p.set_width(fb);
            p.signed = false;
            let xz_new: Option<Vec<u64>> = if four {
                Some(zero_words(p.data_01.len()))
            } else {
                None
            };
            p.data_xz = xz_new;
            proof {
                lemma_prod_bound(self.v01(), right_nu.v01(), self.size as nat,
                    right_nu.size as nat);
                vstd::arithmetic::power2::lemma_pow2_pos(fb as nat);
                vstd::arithmetic::div_mod::lemma_small_mod(
                    self.v01() * right_nu.v01(),
                    pow2(fb as nat),
                );
                vstd::arithmetic::div_mod::lemma_small_mod(0, pow2(fb as nat));
            }
            p
        }
    }

    /// The signed reading of the X/Z mask, replicated like `sval`.
    pub open spec fn sxz(self) -> int {
        gval(self.vxz(), self.size as nat)
    }

    /// What the less-than comparison decides on X/Z-free operands: a signed
    /// comparison when both operands are signed, a comparison of the raw
    /// patterns otherwise.
    pub open spec fn lt_holds(self, other: SvPrimaryLiteralIntegral) -> bool {
        if self.signed && other.signed {
            self.sval() < other.sval()
        } else {
            self.v01() < other.v01()
        }
    }

    /// What case equality decides: both operands carry X/Z or neither does,
    /// and the sign- or zero-extended patterns agree on both lanes.
    pub open spec fn case_eq_holds(self, other: SvPrimaryLiteralIntegral) -> bool {
        &&& self.has_xz() == other.has_xz()
        &&& if self.signed && other.signed {
            self.sval() == other.sval() && self.sxz() == other.sxz()
        } else {
            self.v01() == other.v01() && self.vxz() == other.vxz()
        }
    }

    /// Three-way comparison of two X/Z-free values under the common
    /// interpretation: 0 equal, 1 less, 2 greater.
    fn cmp3(&self, right_nu: &SvPrimaryLiteralIntegral) -> (r: u8)
        requires
            self.wf(),
            right_nu.wf(),
            self.vxz() == 0,
            right_nu.vxz() == 0,
            self.size + 130 <= SIZE_MAX,
            right_nu.size + 130 <= SIZE_MAX,
        ensures
            r <= 2,
            (r == 0) == (if self.signed && right_nu.signed {
                self.sval() == right_nu.sval()
            } else {
                self.v01() == right_nu.v01()
            }),
            (r == 1) == self.lt_holds(*right_nu),
    {
        proof {
            self.lemma_sval_bounds();
            right_nu.lemma_sval_bounds();
        }
        if self.signed && right_nu.signed {
            let na = self.is_set_msb_01();
            let nb = right_nu.is_set_msb_01();
            if na && !nb {
                return 1;
            }
            if !na && nb {
                return 2;
            }
            let mut x = self.dup();
            let mut y = right_nu.dup();
            let nl = if x.data_01.len() >= y.data_01.len() {
                x.data_01.len()
            } else {
                y.data_01.len()
            };
            proof {
                lemma_words_for(self.size as nat);
                lemma_words_for(right_nu.size as nat);
                vstd::arithmetic::mul::lemma_mul_basics(pow2(64 * nl as nat) as int);
                lemma_pow2_le(self.size as nat, 64 * nl as nat);
                lemma_pow2_le(right_nu.size as nat, 64 * nl as nat);
            }
            x.extend_to(nl);
            y.extend_to(nl);
            proof {
                assert(x.v01() as int == self.sval() + (if na {
                    pow2(64 * nl as nat) as int
                } else {
                    0
                }));
                assert(y.v01() as int == right_nu.sval() + (if nb {
                    pow2(64 * nl as nat) as int
                } else {
                    0
                }));
            }
            cmp_words(&x.data_01, &y.data_01)
        } else {
            let nl = if self.data_01.len() >= right_nu.data_01.len() {
                self.data_01.len()
            } else {
                right_nu.data_01.len()
            };
            let xa = pad_words(&self.data_01, nl);
            let yb = pad_words(&right_nu.data_01, nl);
            cmp_words(&xa, &yb)
        }
    }

    /// Emulates the relational less-than operator: X if either operand
    /// carries X/Z, else a one-bit four-state truth value.
    pub fn lt(&self, right_nu: SvPrimaryLiteralIntegral) -> (r: SvPrimaryLiteralIntegral)
        requires
            self.wf(),
            right_nu.wf(),
            self.size + 130 <= SIZE_MAX,
            right_nu.size + 130 <= SIZE_MAX,
        ensures
            r.wf(),
            r.size == 1,
            !r.signed,
            r.is_4state_spec(),
            self.has_xz() || right_nu.has_xz() ==> r.v01() == 0 && r.vxz() == 1,
            !(self.has_xz() || right_nu.has_xz()) ==> r.vxz() == 0 && r.v01() == (
            if self.lt_holds(right_nu) {
                1nat
            } else {
                0nat
            }),
    {
        if self.contains_xz() || right_nu.contains_xz() {
            logic1b_x()
        } else {
            if self.cmp3(&right_nu) == 1 {
                logic1b_1()
            } else {
                logic1b_0()
            }
        }
    }

    /// Emulates the relational less-than-or-equal operator.
    pub fn le(&self, right_nu: SvPrimaryLiteralIntegral) -> (r: SvPrimaryLiteralIntegral)
        requires
            self.wf(),
            right_nu.wf(),
            self.size + 130 <= SIZE_MAX,
            right_nu.size + 130 <= SIZE_MAX,
        ensures
            r.wf(),
            r.size == 1,
            !r.signed,
            r.is_4state_spec(),
            self.has_xz() || right_nu.has_xz() ==> r.v01() == 0 && r.vxz() == 1,
            !(self.has_xz() || right_nu.has_xz()) ==> r.vxz() == 0 && r.v01() == (
            if !right_nu.lt_holds(*self) {
                1nat
            } else {
                0nat
            }),
    {
        if self.contains_xz() || right_nu.contains_xz() {
            logic1b_x()
        } else {
            proof {
                self.lemma_sval_bounds();
                right_nu.lemma_sval_bounds();
            }
            if self.cmp3(&right_nu) != 2 {
                proof {
                    lemma_cmp3_flip(*self, right_nu);
                }
                logic1b_1()
            } else {
                proof {
                    lemma_cmp3_flip(*self, right_nu);
                }
                logic1b_0()
            }
        }
    }

    /// Emulates the relational greater-than operator.
    pub fn gt(&self, right_nu: SvPrimaryLiteralIntegral) -> (r: SvPrimaryLiteralIntegral)
        requires
            self.wf(),
            right_nu.wf(),
            self.size + 130 <= SIZE_MAX,
            right_nu.size + 130 <= SIZE_MAX,
        ensures
            r.wf(),
            r.size == 1,
            !r.signed,
            r.is_4state_spec(),
            self.has_xz() || right_nu.has_xz() ==> r.v01() == 0 && r.vxz() == 1,
            !(self.has_xz() || right_nu.has_xz()) ==> r.vxz() == 0 && r.v01() == (
            if right_nu.lt_holds(*self) {
                1nat
            } else {
                0nat
            }),
    {
        if self.contains_xz() || right_nu.contains_xz() {
            logic1b_x()
        } else {
            proof {
                lemma_cmp3_flip(*self, right_nu);
            }
            if self.cmp3(&right_nu) == 2 {
                logic1b_1()
            } else {
                logic1b_0()
            }
        }
    }

    /// Emulates the relational greater-than-or-equal operator.
    pub fn ge(&self, right_nu: SvPrimaryLiteralIntegral) -> (r: SvPrimaryLiteralIntegral)
        requires
            self.wf(),
            right_nu.wf(),
            self.size + 130 <= SIZE_MAX,
            right_nu.size + 130 <= SIZE_MAX,
        ensures
            r.wf(),
            r.size == 1,
            !r.signed,
            r.is_4state_spec(),
            self.has_xz() || right_nu.has_xz() ==> r.v01() == 0 && r.vxz() == 1,
            !(self.has_xz() || right_nu.has_xz()) ==> r.vxz() == 0 && r.v01() == (
            if !self.lt_holds(right_nu) {
                1nat
            } else {
                0nat
            }),
    {
        if self.contains_xz() || right_nu.contains_xz() {
            logic1b_x()
        } else {
            if self.cmp3(&right_nu) != 1 {
                logic1b_1()
            } else {
                logic1b_0()
            }
        }
    }

    /// Emulates the case equality operator: a two-state single-bit result,
    /// never X.
    pub fn case_eq(&self, right_nu: SvPrimaryLiteralIntegral) -> (r: SvPrimaryLiteralIntegral)
        requires
            self.wf(),
            right_nu.wf(),
            self.size + 130 <= SIZE_MAX,
            right_nu.size + 130 <= SIZE_MAX,
        ensures
            r.wf(),
            r.size == 1,
            !r.signed,
            !r.is_4state_spec(),
            r.vxz() == 0,
            r.v01() == (if self.case_eq_holds(right_nu) {
                1nat
            } else {
                0nat
            }),
    {
        if self.contains_xz() != right_nu.contains_xz() {
            return bit1b_0();
        }
        let sg = self.signed && right_nu.signed;
        let mut x = self.dup();
        let mut y = right_nu.dup();
        let nl = if x.data_01.len() >= y.data_01.len() {
            x.data_01.len()
        } else {
            y.data_01.len()
        };
        proof {
            lemma_words_for(self.size as nat);
            lemma_words_for(right_nu.size as nat);
        }
        let e01: bool;
        let exz: bool;
        if sg {
            x.extend_to(nl);
            y.extend_to(nl);
            proof {
                let bign = 64 * nl as nat;
                lemma_g_bounds(self.v01(), self.size as nat);
                lemma_g_bounds(right_nu.v01(), right_nu.size as nat);
                lemma_g_bounds(self.vxz(), self.size as nat);
                lemma_g_bounds(right_nu.vxz(), right_nu.size as nat);
                lemma_pow2_le((self.size - 1) as nat, (bign - 1) as nat);
                lemma_pow2_le((right_nu.size - 1) as nat, (bign - 1) as nat);
                vstd::arithmetic::power2::lemma_pow2_unfold(bign);
                vstd::arithmetic::mul::lemma_mul_basics(pow2(bign) as int);
            }
            e01 = cmp_words(&x.data_01, &y.data_01) == 0;
            exz = match (&x.data_xz, &y.data_xz) {
                (Some(p), Some(q)) => cmp_words(p, q) == 0,
                (Some(p), None) => {
                    let z = zero_words(p.len());
                    cmp_words(p, &z) == 0
                },
                (None, Some(q)) => {
                    let z = zero_words(q.len());
                    cmp_words(&z, q) == 0
                },
                (None, None) => true,
            };
        } else {
            let xa = pad_words(&x.data_01, nl);
            let yb = pad_words(&y.data_01, nl);
            e01 = cmp_words(&xa, &yb) == 0;
            exz = match (&x.data_xz, &y.data_xz) {
                (Some(p), Some(q)) => {
                    let pp = pad_words(p, nl);
                    let qq = pad_words(q, nl);
                    cmp_words(&pp, &qq) == 0
                },
                (Some(p), None) => {
                    let z = zero_words(p.len());
                    cmp_words(p, &z) == 0
                },
                (None, Some(q)) => {
                    let z = zero_words(q.len());
                    cmp_words(&z, q) == 0
                },
                (None, None) => true,
            };
        }
        if e01 && exz {
            bit1b_1()
        } else {
            bit1b_0()
        }
    }

    /// Emulates the logical equality operator: X when either operand
    /// carries X/Z, else case equality lifted to a four-state bit.
    pub fn logical_eq(&self, right_nu: SvPrimaryLiteralIntegral) -> (r:
        SvPrimaryLiteralIntegral)
        requires
            self.wf(),
            right_nu.wf(),
            self.size + 130 <= SIZE_MAX,
            right_nu.size + 130 <= SIZE_MAX,
        ensures
            r.wf(),
            r.size == 1,
            !r.signed,
            r.is_4state_spec(),
            self.has_xz() || right_nu.has_xz() ==> r.v01() == 0 && r.vxz() == 1,
            !(self.has_xz() || right_nu.has_xz()) ==> r.vxz() == 0 && r.v01() == (
            if self.case_eq_holds(right_nu) {
                1nat
            } else {
                0nat
            }),
    {
        if self.contains_xz() || right_nu.contains_xz() {
            logic1b_x()
        } else {
            let e = self.case_eq(right_nu);
            if e.is_set_msb_01() {
                proof {
                    vstd::arithmetic::power2::lemma2_to64();
                    assert(nbit(1, 0)) by {
                        assert(pow2(0) == 1);
                    }
                    lemma_nbit_zero(0);
                }
                logic1b_1()
            } else {
                proof {
                    vstd::arithmetic::power2::lemma2_to64();
                    assert(nbit(1, 0)) by {
                        assert(pow2(0) == 1);
                    }
                    lemma_nbit_zero(0);
                }
                logic1b_0()
            }
        }
    }

    /// Deduces whether the stored value is zero: case equality against a
    /// one-bit zero.
    pub fn is_zero(&self) -> (r: bool)
        requires
            self.wf(),
        ensures
            r == (!self.has_xz() && self.v01() == 0),
    {
        proof {
            lemma_words_for(self.size as nat);
        }
        if self.contains_xz() {
            return false;
        }
        match msb_index(&self.data_01) {
            None => true,
            Some(_) => {
                proof {
                    if self.v01() == 0 {
                        assert(bitlen(0) == 0);
                    }
                }
                false
            },
        }
    }

    /// Deduces whether the stored value is negative when read as signed:
    /// false for any value carrying X/Z.
    pub fn is_negative(&self) -> (r: bool)
        requires
            self.wf(),
        ensures
            r == (!self.has_xz() && self.msb01()),
    {
        !self.contains_xz() && self.is_set_msb_01()
    }

    /// Emulates the wildcard equality operator: X/Z positions of the right
    /// operand match anything; X/Z positions of the left operand outside
    /// those wildcards poison the result to X.
    pub fn wildcard_eq(&self, right_nu: SvPrimaryLiteralIntegral) -> (r:
        SvPrimaryLiteralIntegral)
        requires
            self.wf(),
            right_nu.wf(),
            self.size + 130 <= SIZE_MAX,
            right_nu.size + 130 <= SIZE_MAX,
        ensures
            r.wf(),
            r.size == 1,
            !r.signed,
            r.is_4state_spec(),
            !right_nu.has_xz() && self.has_xz() ==> r.v01() == 0 && r.vxz() == 1,
            !right_nu.has_xz() && !self.has_xz() ==> r.vxz() == 0 && r.v01() == (
            if self.case_eq_holds(right_nu) {
                1nat
            } else {
                0nat
            }),
            right_nu.has_xz() ==> wildcard_verdict(*self, right_nu, r),
    {
        if !right_nu.contains_xz() {
            return self.logical_eq(right_nu);
        }
        let sg = self.signed && right_nu.signed;
        let mut x = if self.is_4state() {
            self.dup()
        } else {
            self.to_4state()
        };
        let mut y = if right_nu.is_4state() {
            right_nu.dup()
        } else {
            right_nu.to_4state()
        };
        let nl = if x.data_01.len() >= y.data_01.len() {
            x.data_01.len()
        } else {
            y.data_01.len()
        };
        proof {
            lemma_words_for(self.size as nat);
            lemma_words_for(right_nu.size as nat);
            lemma_pow2_le(self.size as nat, 64 * nl as nat);
            lemma_pow2_le(right_nu.size as nat, 64 * nl as nat);
            lemma_nbit_zero((self.size - 1) as nat);
            lemma_nbit_zero((right_nu.size - 1) as nat);
        }
        if sg {
            x.extend_to(nl);
            y.extend_to(nl);
        } else {
            x.signed = false;
            y.signed = false;
            x._matched_zero_extend(&mut y);
        }
        let ghost n_ = 64 * nl as nat;
        let ghost ea01 = x.v01();
        let ghost eaxz = x.vxz();
        let ghost eb01 = y.v01();
        let ghost ebxz = y.vxz();
        proof {
            assert(n_ == common_bits(*self, right_nu));
            assert(ea01 == wc_a01(*self, right_nu));
            assert(eaxz == wc_axz(*self, right_nu));
            assert(eb01 == wc_b01(*self, right_nu));
            assert(ebxz == wc_bxz(*self, right_nu));
        }
        let total: usize = 64 * nl;
        let mut i: usize = 0;
        let mut poison: bool = false;
        let mut diff: bool = false;
        proof {
            lemma_wval_bound(x.data_01@);
        }
        while i < total
            invariant
                i <= total,
                total == 64 * nl,
                x.wf(),
                y.wf(),
                x.data_01@.len() == nl,
                y.data_01@.len() == nl,
                x.is_4state_spec(),
                y.is_4state_spec(),
                ea01 == x.v01(),
                eaxz == x.vxz(),
                eb01 == y.v01(),
                ebxz == y.vxz(),
                poison <==> exists|t: nat|
                    t < i && #[trigger] nbit(eaxz, t) && !nbit(ebxz, t),
                diff <==> exists|t: nat|
                    t < i && !nbit(ebxz, t) && !nbit(eaxz, t) && nbit(ea01, t) != nbit(eb01, t),
            decreases total - i,
        {
            proof {
                vstd::arithmetic::div_mod::lemma_fundamental_div_mod(i as int, 64);
                vstd::arithmetic::div_mod::lemma_mod_division_less_than_divisor(i as int, 64);
                vstd::arithmetic::div_mod::lemma_div_pos_is_pos(i as int, 64);
                assert(i as int / 64 < nl as int) by {
                    vstd::arithmetic::div_mod::lemma_div_is_ordered(
                        i as int,
                        64 * nl as int - 1,
                        64,
                    );
                    vstd::arithmetic::div_mod::lemma_fundamental_div_mod_converse(
                        64 * nl as int - 1,
                        64,
                        nl as int - 1,
                        63,
                    );
                    vstd::arithmetic::mul::lemma_mul_is_distributive_sub(64, nl as int, 1);
                    vstd::arithmetic::mul::lemma_mul_is_commutative(64, nl as int - 1);
                }
                lemma_wval_bit(x.data_01@, i as nat);
                lemma_wval_bit(y.data_01@, i as nat);
                if x.data_xz is Some {
                    lemma_wval_bit(x.data_xz->Some_0@, i as nat);
                }
                if y.data_xz is Some {
                    lemma_wval_bit(y.data_xz->Some_0@, i as nat);
                }
            }
            let k = i / 64;
            let j = i % 64;
            let a01 = word_bit(x.data_01[k], j);
            let b01 = word_bit(y.data_01[k], j);
            let axz = match &x.data_xz {
                Some(p) => word_bit(p[k], j),
                None => false,
            };
            let bxz = match &y.data_xz {
                Some(q) => word_bit(q[k], j),
                None => false,
            };
            if !bxz {
                if axz {
                    poison = true;
                } else if a01 != b01 {
                    diff = true;
                }
            }
            i += 1;
        }
        if poison {
            proof {
                assert(wc_poison(*self, right_nu));
            }
            logic1b_x()
        } else if diff {
            proof {
                assert(!wc_poison(*self, right_nu));
                let t = choose|t: nat|
                    t < total as nat && !nbit(ebxz, t) && !nbit(eaxz, t) && nbit(ea01, t) != nbit(
                        eb01,
                        t,
                    );
                assert(!wc_masked(*self, right_nu, t) && nbit(ea01, t) != nbit(eb01, t));
                assert(!wc_matches(*self, right_nu));
            }
            logic1b_0()
        } else {
            proof {
                assert(!wc_poison(*self, right_nu));
                assert forall|t: nat|
                    t < common_bits(*self, right_nu) && !wc_masked(*self, right_nu, t) implies
                    #[trigger] nbit(ea01, t) == nbit(eb01, t) by {
                    assert(!(nbit(eaxz, t) && !nbit(ebxz, t)));
                }
                assert(wc_matches(*self, right_nu));
            }
            logic1b_1()
        }
    }

    /// Cuts the backing vectors down to `size` bits without assuming the
    /// declared width was consistent beforehand.
    fn crop(&mut self, size: usize)
        requires
            1 <= size <= SIZE_MAX,
            words_for(size as nat) <= old(self).data_01@.len(),
            old(self).lens_ok(),
        ensures
            final(self).wf(),
            final(self).size == size,
            final(self).v01() == old(self).v01() % pow2(size as nat),
            final(self).vxz() == old(self).vxz() % pow2(size as nat),
            final(self).signed == old(self).signed,
            final(self).is_4state_spec() == old(self).is_4state_spec(),
    {
        proof {
            vstd::arithmetic::power2::lemma_pow2_pos(size as nat);
            vstd::arithmetic::div_mod::lemma_mod_division_less_than_divisor(
                old(self).v01() as int,
                pow2(size as nat) as int,
            );
            vstd::arithmetic::div_mod::lemma_mod_division_less_than_divisor(
                old(self).vxz() as int,
                pow2(size as nat) as int,
            );
            vstd::arithmetic::div_mod::lemma_small_mod(0, pow2(size as nat));
        }
        self.data_01 = trunc_words(&self.data_01, size);
        let xz_new = match &self.data_xz {
            Some(x) => Some(trunc_words(x, size)),
            None => None,
        };
        self.data_xz = xz_new;
        self.size = size;
    }

    /// Per-bit inversion of the 0/1 pattern at every two-state position;
    /// X/Z positions are left as they are.
    pub fn inv(&self) -> (r: SvPrimaryLiteralIntegral)
        requires
            self.wf(),
        ensures
            r.wf(),
            r.size == self.size,
            r.signed == self.signed,
            r.is_4state_spec() == self.is_4state_spec(),
            r.vxz() == self.vxz(),
            forall|i: nat|
                i < self.size ==> #[trigger] nbit(r.v01(), i) == (nbit(self.v01(), i) == nbit(
                    self.vxz(),
                    i,
                )),
    {
        let len = self.data_01.len();
        let mut nd: Vec<u64> = Vec::new();
        let mut k: usize = 0;
        while k < len
            invariant
                k <= len,
                len == self.data_01@.len(),
                self.wf(),
                nd@.len() == k,
                forall|t: int|
                    0 <= t < k ==> nd@[t] == (self.data_01@[t] ^ !(if self.data_xz is Some {
                        self.data_xz->Some_0@[t]
                    } else {
                        0u64
                    })),
            decreases len - k,
        {
            let b: u64 = match &self.data_xz {
                Some(x) => x[k],
                None => 0,
            };
            nd.push(self.data_01[k] ^ !b);
            k += 1;
        }
        proof {
            lemma_words_for(self.size as nat);
        }
        let cropped = trunc_words(&nd, self.size);
        let xz_new = match &self.data_xz {
            Some(x) => {
                let c = pad_words(x, x.len());
                proof {
                    assert(c@.take(x@.len() as int) =~= c@);
                }
                Some(c)
            },
            None => None,
        };
        let r = SvPrimaryLiteralIntegral {
            data_01: cropped,
            data_xz: xz_new,
            size: self.size,
            signed: self.signed,
        };
        proof {
            vstd::arithmetic::power2::lemma_pow2_pos(self.size as nat);
            vstd::arithmetic::div_mod::lemma_mod_division_less_than_divisor(
                wval(nd@) as int,
                pow2(self.size as nat) as int,
            );
            assert forall|i: nat|
                i < self.size implies #[trigger] nbit(r.v01(), i) == (nbit(self.v01(), i) == nbit(
                self.vxz(),
                i,
            )) by {
                lemma_nbit_mod(wval(nd@), self.size as nat, i);
                lemma_wval_bit(nd@, i);
                lemma_wval_bit(self.data_01@, i);
                let ki = i as int / 64;
                let j = i % 64;
                let a = self.data_01@[ki];
                let b: u64 = if self.data_xz is Some {
                    self.data_xz->Some_0@[ki]
                } else {
                    0u64
                };
                lemma_word_nbit((a ^ !b), j);
                lemma_word_nbit(a, j);
                lemma_word_nbit(b, j);
                lemma_xnor_bit(a, b, j as u64);
                if self.data_xz is Some {
                    lemma_wval_bit(self.data_xz->Some_0@, i);
                } else {
                    lemma_nbit_zero(i);
                    lemma_nbit_zero(j);
                }
            }
        }
        r
    }

    /// Concatenation: the receiver becomes the high part, `right_nu` the low
    /// part, and both the 0/1 and X/Z lanes compose independently.
    pub fn cat(&self, right_nu: SvPrimaryLiteralIntegral) -> (r: SvPrimaryLiteralIntegral)
        requires
            self.wf(),
            right_nu.wf(),
            self.size + right_nu.size <= SIZE_MAX,
        ensures
            r.wf(),
            r.size == self.size + right_nu.size,
            r.v01() == self.v01() * pow2(right_nu.size as nat) + right_nu.v01(),
            r.vxz() == self.vxz() * pow2(right_nu.size as nat) + right_nu.vxz(),
            r.signed == self.signed,
            r.is_4state_spec() == (self.is_4state_spec() || right_nu.is_4state_spec()),
    {
        let total = self.size + right_nu.size;
        proof {
            lemma_words_for(total as nat);
            lemma_words_for(self.size as nat);
            lemma_words_for(right_nu.size as nat);
            vstd::arithmetic::div_mod::lemma_div_is_ordered(
                (right_nu.size - 1) as int,
                (total - 1) as int,
                64,
            );
            lemma_cat_bound(self.v01(), right_nu.v01(), self.size as nat, right_nu.size as nat);
            lemma_cat_bound(self.vxz(), right_nu.vxz(), self.size as nat, right_nu.size as nat);
            if (total as nat) < 64 * words_for(total as nat) {
                vstd::arithmetic::power2::lemma_pow2_strictly_increases(
                    total as nat,
                    64 * words_for(total as nat),
                );
            }
        }
        let mut ret = self.lsl(right_nu.size);
        let four = self.is_4state() || right_nu.is_4state();
        let xz_new: Option<Vec<u64>> = if four {
            let axz: Vec<u64> = match &self.data_xz {
                Some(x) => {
                    let c = pad_words(x, x.len());
                    proof {
                        assert(c@.take(x@.len() as int) =~= c@);
                    }
                    c
                },
                None => zero_words(self.data_01.len()),
            };
            proof {
                vstd::arithmetic::power2::lemma_pow2_pos(self.size as nat);
            }
            let t = SvPrimaryLiteralIntegral {
                data_01: axz,
                data_xz: None,
                size: self.size,
                signed: false,
            };
            let mut t2 = t.lsl(right_nu.size);
            let bxz: Vec<u64> = match &right_nu.data_xz {
                Some(x) => {
                    let c = pad_words(x, x.len());
                    proof {
                        assert(c@.take(x@.len() as int) =~= c@);
                    }
                    c
                },
                None => zero_words(right_nu.data_01.len()),
            };
            proof {
                vstd::arithmetic::power2::lemma_pow2_pos(right_nu.size as nat);
            }
            let u = SvPrimaryLiteralIntegral {
                data_01: bxz,
                data_xz: None,
                size: right_nu.size,
                signed: false,
            };
            t2._unsigned_primlit_add(u);
            Some(t2.data_01)
        } else {
            None
        };
        ret._unsigned_primlit_add(right_nu);
        ret.data_xz = xz_new;
        ret
    }
}

/// `a * (2 * b) == 2 * (a * b)`.
proof fn lemma_mul_shift(a: nat, b: nat)
    ensures
        a * (2 * b) == 2 * (a * b),
{
    vstd::arithmetic::mul::lemma_mul_is_associative(a as int, 2, b as int);
    vstd::arithmetic::mul::lemma_mul_is_associative(2, a as int, b as int);
    vstd::arithmetic::mul::lemma_mul_is_commutative(a as int, 2);
}

/// Converts a host integer into a canonical two-state signed value, read as
/// a 64-bit two's complement word.
pub fn usize_to_primlit(value: usize) -> (r: SvPrimaryLiteralIntegral)
    ensures
        r.wf(),
        r.signed,
        !r.is_4state_spec(),
        r.vxz() == 0,
        r.sval() == w64_sval(value as nat),
        r.size == signed_min_bits(w64_sval(value as nat)),
{
    proof {
        lemma_one_word(value as u64);
        vstd::arithmetic::power2::lemma2_to64();
        assert(words_for(64) == 1);
        assert(SIZE_MAX >= 66) by {
            assert(usize::MAX >= 0xFFFF_FFFF);
        }
    }
    let mut t = SvPrimaryLiteralIntegral {
        data_01: one_word(value as u64),
        data_xz: None,
        size: 64,
        signed: true,
    };
    let ghost v = value as u64 as nat;
    proof {
        assert(t.sval() == w64_sval(v));
        assert(t.min_size() == signed_min_bits(w64_sval(v))) by {
            if t.msb01() {
                assert(w64_sval(v) == v - pow2(64));
            } else if v == 0 {
                assert(bitlen(0) == 0);
            }
        }
    }
    t._minimum_width();
    t
}

/// A value of the given width whose every position is X.
fn all_x(bits: usize, signed: bool) -> (r: SvPrimaryLiteralIntegral)
    requires
        1 <= bits <= SIZE_MAX,
    ensures
        r.wf(),
        r.size == bits,
        r.signed == signed,
        r.v01() == 0,
        r.vxz() == pow2(bits as nat) - 1,
        r.is_4state_spec(),
{
    proof {
        lemma_words_for(bits as nat);
    }
    let nl: usize = (bits - 1) / 64 + 1;
    proof {
        vstd::arithmetic::power2::lemma_pow2_pos(bits as nat);
    }
    let ones = ones_words(nl);
    let xz = trunc_words(&ones, bits);
    proof {
        lemma_diff_mod(0, bits as nat, 64 * nl as nat);
    }
    SvPrimaryLiteralIntegral { data_01: zero_words(nl), data_xz: Some(xz), size: bits, signed }
}

/// The extension width used when two values are compared position by
/// position: the full backing of the wider operand.
pub open spec fn common_bits(a: SvPrimaryLiteralIntegral, b: SvPrimaryLiteralIntegral) -> nat {
    64 * vstd::math::max(words_for(a.size as nat) as int, words_for(b.size as nat) as int) as nat
}

/// The extended 0/1 lane of the left operand of a wildcard comparison.
pub open spec fn wc_a01(a: SvPrimaryLiteralIntegral, b: SvPrimaryLiteralIntegral) -> nat {
    ext_val(a.v01(), a.size as nat, common_bits(a, b), (a.signed && b.signed) && a.msb01())
}

/// The extended X/Z lane of the left operand of a wildcard comparison.
pub open spec fn wc_axz(a: SvPrimaryLiteralIntegral, b: SvPrimaryLiteralIntegral) -> nat {
    ext_val(a.vxz(), a.size as nat, common_bits(a, b), (a.signed && b.signed) && a.msbxz())
}

/// The extended 0/1 lane of the right operand of a wildcard comparison.
pub open spec fn wc_b01(a: SvPrimaryLiteralIntegral, b: SvPrimaryLiteralIntegral) -> nat {
    ext_val(b.v01(), b.size as nat, common_bits(a, b), (a.signed && b.signed) && b.msb01())
}

/// The extended X/Z lane of the right operand of a wildcard comparison.
pub open spec fn wc_bxz(a: SvPrimaryLiteralIntegral, b: SvPrimaryLiteralIntegral) -> nat {
    ext_val(b.vxz(), b.size as nat, common_bits(a, b), (a.signed && b.signed) && b.msbxz())
}

/// A wildcard position: the right operand carries X or Z there.
pub open spec fn wc_masked(a: SvPrimaryLiteralIntegral, b: SvPrimaryLiteralIntegral, i: nat)
    -> bool {
    nbit(wc_bxz(a, b), i)
}

/// An unmasked X/Z position of the left operand: it poisons the comparison.
pub open spec fn wc_poison(a: SvPrimaryLiteralIntegral, b: SvPrimaryLiteralIntegral) -> bool {
    exists|i: nat|
        i < common_bits(a, b) && (#[trigger] nbit(wc_axz(a, b), i)) && !wc_masked(a, b, i)
}

/// The 0/1 patterns agree at every unmasked position.
pub open spec fn wc_matches(a: SvPrimaryLiteralIntegral, b: SvPrimaryLiteralIntegral) -> bool {
    forall|i: nat|
        i < common_bits(a, b) && !wc_masked(a, b, i) ==> (#[trigger] nbit(wc_a01(a, b), i))
            == nbit(wc_b01(a, b), i)
}

/// The three-way outcome of a wildcard comparison against a right operand
/// that carries X/Z.
pub open spec fn wildcard_verdict(
    a: SvPrimaryLiteralIntegral,
    b: SvPrimaryLiteralIntegral,
    r: SvPrimaryLiteralIntegral,
) -> bool {
    &&& wc_poison(a, b) ==> r.v01() == 0 && r.vxz() == 1
    &&& !wc_poison(a, b) && wc_matches(a, b) ==> r.vxz() == 0 && r.v01() == 1
    &&& !wc_poison(a, b) && !wc_matches(a, b) ==> r.vxz() == 0 && r.v01() == 0
}

/// Expanding a product of two shifted readings.
proof fn lemma_ring_expand(sa: int, sb: int, ka: int, kb: int, pn: int, xa: int, yb: int)
    requires
        xa == sa + ka * pn,
        yb == sb + kb * pn,
    ensures
        xa * yb == sa * sb + pn * (ka * sb + kb * sa + ka * kb * pn),
{
    assert(xa * yb == sa * sb + pn * (ka * sb + kb * sa + ka * kb * pn)) by (nonlinear_arith)
        requires
            xa == sa + ka * pn,
            yb == sb + kb * pn,
    ;
}

/// The canonical remainder of a signed X/Z-free value keeps its signed
/// reading.
pub proof fn lemma_canonical_gval(v: SvPrimaryLiteralIntegral)
    requires
        v.wf(),
        v.signed,
        v.vxz() == 0,
    ensures
        gval((v.v01() % pow2(v.min_size())) as nat, v.min_size()) == v.sval(),
{
    let n = v.min_size();
    let p = v.v01();
    vstd::arithmetic::power2::lemma_pow2_pos(n);
    vstd::arithmetic::power2::lemma_pow2_pos((n - 1) as nat);
    if v.msb01() {
        let m = (pow2(v.size as nat) - p) as nat;
        crate::words::lemma_nbit_lower_bound(p, (v.size - 1) as nat);
        vstd::arithmetic::power2::lemma_pow2_unfold(v.size as nat);
        if m > 1 {
            crate::words::lemma_bitlen_bounds((m - 1) as nat);
        }
        crate::words::lemma_bitlen_le((m - 1) as nat, (v.size - 1) as nat);
        crate::words::lemma_pow2_le(n, v.size as nat);
        assert(m <= pow2((n - 1) as nat)) by {
            if m > 1 {
                crate::words::lemma_bitlen_bounds((m - 1) as nat);
            }
        }
        crate::words::lemma_pow2_le((n - 1) as nat, n);
        lemma_neg_mod(p, m, n, v.size as nat);
        assert(((pow2(n) - m) as nat) / pow2((n - 1) as nat) >= 1) by {
            vstd::arithmetic::power2::lemma_pow2_unfold(n);
            vstd::arithmetic::div_mod::lemma_div_is_ordered(
                pow2((n - 1) as nat) as int,
                (pow2(n) - m) as int,
                pow2((n - 1) as nat) as int,
            );
            vstd::arithmetic::div_mod::lemma_div_by_self(pow2((n - 1) as nat) as int);
        }
        lemma_msb_as_div((pow2(n) - m) as nat, n);
        vstd::arithmetic::power2::lemma_pow2_unfold(n);
    } else {
        v.lemma_sval_bounds();
        if p == 0 {
            vstd::arithmetic::div_mod::lemma_small_mod(0, pow2(n));
            crate::words::lemma_nbit_zero((n - 1) as nat);
        } else {
            crate::words::lemma_bitlen_bounds(p);
            crate::words::lemma_pow2_le(bitlen(p), (n - 1) as nat);
            assert(p < pow2(n)) by {
                vstd::arithmetic::power2::lemma_pow2_strictly_increases((n - 1) as nat, n);
            }
            vstd::arithmetic::div_mod::lemma_small_mod(p, pow2(n));
            vstd::arithmetic::div_mod::lemma_basic_div(p as int, pow2((n - 1) as nat) as int);
            lemma_msb_as_div(p, n);
            vstd::arithmetic::power2::lemma_pow2_unfold(n);
        }
    }
}

/// The sign bit splits a width-bounded pattern into the two halves of the
/// two's complement range.
pub proof fn lemma_g_bounds(v: nat, size: nat)
    requires
        size >= 1,
        v < pow2(size),
    ensures
        nbit(v, (size - 1) as nat) ==> v >= pow2((size - 1) as nat),
        !nbit(v, (size - 1) as nat) ==> v < pow2((size - 1) as nat),
        -pow2((size - 1) as nat) <= gval(v, size) < pow2((size - 1) as nat),
{
    vstd::arithmetic::power2::lemma_pow2_unfold(size);
    vstd::arithmetic::power2::lemma_pow2_pos((size - 1) as nat);
    lemma_msb_as_div(v, size);
    vstd::arithmetic::div_mod::lemma_fundamental_div_mod(
        v as int,
        pow2((size - 1) as nat) as int,
    );
    vstd::arithmetic::div_mod::lemma_mod_division_less_than_divisor(
        v as int,
        pow2((size - 1) as nat) as int,
    );
}

/// Under the common interpretation the three comparison verdicts of the two
/// orders are mirror images.
proof fn lemma_cmp3_flip(a: SvPrimaryLiteralIntegral, b: SvPrimaryLiteralIntegral)
    ensures
        a.signed && b.signed ==> (!a.lt_holds(b) && !(a.sval() == b.sval())) == b.lt_holds(a),
        !(a.signed && b.signed) ==> (!a.lt_holds(b) && !(a.v01() == b.v01())) == b.lt_holds(a),
{
}

/// A signed value within the two's complement range of `n` bits survives the
/// round trip through a remainder by `pow2(n)`.
proof fn lemma_twos_complement(z: int, n: nat)
    requires
        n >= 1,
        -pow2((n - 1) as nat) <= z < pow2((n - 1) as nat),
    ensures
        ({
            let v = (z % (pow2(n) as int)) as nat;
            &&& v < pow2(n)
            &&& (if nbit(v, (n - 1) as nat) {
                v - pow2(n)
            } else {
                v as int
            }) == z
        }),
{
    vstd::arithmetic::power2::lemma_pow2_unfold(n);
    vstd::arithmetic::power2::lemma_pow2_pos((n - 1) as nat);
    vstd::arithmetic::power2::lemma_pow2_pos(n);
    let pn = pow2(n) as int;
    let ph = pow2((n - 1) as nat) as int;
    if z >= 0 {
        vstd::arithmetic::div_mod::lemma_small_mod(z as nat, pow2(n));
        let v = z as nat;
        vstd::arithmetic::div_mod::lemma_basic_div(v as int, ph);
        lemma_msb_as_div(v, n);
    } else {
        vstd::arithmetic::div_mod::lemma_fundamental_div_mod_converse(z, pn, -1, z + pn);
        let v = (z + pn) as nat;
        assert(v >= ph);
        assert((v as int) / ph >= 1) by {
            vstd::arithmetic::div_mod::lemma_div_is_ordered(ph, v as int, ph);
            vstd::arithmetic::div_mod::lemma_div_by_self(ph);
        }
        lemma_msb_as_div(v, n);
    }
}

/// Dropping a multiple of a larger power of two under a smaller one.
proof fn lemma_mod_drop_multiple(z: int, k: int, bign: nat, n: nat)
    requires
        n <= bign,
    ensures
        (z + k * pow2(bign)) % (pow2(n) as int) == z % (pow2(n) as int),
{
    vstd::arithmetic::power2::lemma_pow2_pos(n);
    vstd::arithmetic::power2::lemma_pow2_pos(bign);
    vstd::arithmetic::power2::lemma_pow2_adds(n, (bign - n) as nat);
    assert(k * pow2(bign) == pow2(n) * (k * pow2((bign - n) as nat))) by (nonlinear_arith)
        requires
            pow2(bign) == pow2(n) * pow2((bign - n) as nat),
    ;
    vstd::arithmetic::div_mod::lemma_mod_multiples_vanish(
        k * pow2((bign - n) as nat) as int,
        z,
        pow2(n) as int,
    );
}

/// One more low bit of the remainder.
proof fn lemma_mod_bit_step(v: nat, i: nat)
    ensures
        v % pow2(i + 1) == v % pow2(i) + pow2(i) * (if nbit(v, i) {
            1nat
        } else {
            0nat
        }),
{
    vstd::arithmetic::power2::lemma_pow2_pos(i);
    vstd::arithmetic::power2::lemma_pow2_unfold(i + 1);
    vstd::arithmetic::div_mod::lemma_breakdown(v as int, pow2(i) as int, 2);
    assert(pow2(i) as int * 2 == 2 * pow2(i) as int);
    assert(v % pow2(i + 1) == pow2(i) * ((v / pow2(i)) % 2) + v % pow2(i));
}

/// Distributing a product over a partial remainder and one more bit.
proof fn lemma_mul_gather(a: nat, u: nat, p: nat)
    ensures
        a * (u + p) == a * u + a * p,
{
    vstd::arithmetic::mul::lemma_mul_is_distributive_add(a as int, u as int, p as int);
}

/// The magnitude of a product is bounded by the product of the magnitudes.
proof fn lemma_abs_mul_bound(x: int, y: int, a: int, b: int)
    by (nonlinear_arith)
    requires
        -a <= x <= a,
        -b <= y <= b,
        a >= 0,
        b >= 0,
    ensures
        -(a * b) <= x * y <= a * b,
{
}

/// A product of width-bounded patterns stays below the combined width.
proof fn lemma_prod_bound(a: nat, b: nat, sa: nat, sb: nat)
    requires
        a < pow2(sa),
        b < pow2(sb),
    ensures
        a * b < pow2(sa + sb),
{
    vstd::arithmetic::power2::lemma_pow2_adds(sa, sb);
    vstd::arithmetic::power2::lemma_pow2_pos(sa);
    vstd::arithmetic::power2::lemma_pow2_pos(sb);
    assert(a * b < pow2(sa) * pow2(sb)) by (nonlinear_arith)
        requires
            a < pow2(sa),
            b < pow2(sb),
            pow2(sa) >= 1,
            pow2(sb) >= 1,
    ;
}

/// The complement within a wide backing reduces, modulo the declared width,
/// to the complement within that width.
proof fn lemma_diff_mod(v: nat, size: nat, cap: nat)
    requires
        v < pow2(size),
        size <= cap,
    ensures
        ((pow2(cap) - 1 - v) as nat) % pow2(size) == (pow2(size) - 1 - v) as nat,
{
    vstd::arithmetic::power2::lemma_pow2_pos(size);
    vstd::arithmetic::power2::lemma_pow2_pos(cap);
    lemma_pow2_le(size, cap);
    vstd::arithmetic::power2::lemma_pow2_adds(size, (cap - size) as nat);
    let q = (pow2((cap - size) as nat) - 1) as nat;
    assert(q == pow2((cap - size) as nat) - 1) by {
        vstd::arithmetic::power2::lemma_pow2_pos((cap - size) as nat);
    }
    assert((pow2(cap) - pow2(size)) as int == pow2(size) * q) by {
        vstd::arithmetic::mul::lemma_mul_is_distributive_sub(
            pow2(size) as int,
            pow2((cap - size) as nat) as int,
            1,
        );
        assert(pow2(size) * pow2((cap - size) as nat) == pow2(cap));
    }
    vstd::arithmetic::div_mod::lemma_mod_multiples_vanish(
        q as int,
        (pow2(size) - 1 - v) as int,
        pow2(size) as int,
    );
    vstd::arithmetic::div_mod::lemma_small_mod((pow2(size) - 1 - v) as nat, pow2(size));
}

/// A negative-pattern value reduces, modulo a narrower width, to the same
/// magnitude below the narrower power.
pub proof fn lemma_neg_mod(v: nat, m: nat, n: nat, sz: nat)
    requires
        n <= sz,
        1 <= m <= pow2(n),
        v + m == pow2(sz),
    ensures
        v % pow2(n) == (pow2(n) - m) as nat,
{
    vstd::arithmetic::power2::lemma_pow2_pos(n);
    vstd::arithmetic::power2::lemma_pow2_pos(sz);
    lemma_pow2_le(n, sz);
    vstd::arithmetic::power2::lemma_pow2_adds(n, (sz - n) as nat);
    let q = (pow2((sz - n) as nat) - 1) as nat;
    assert(q == pow2((sz - n) as nat) - 1) by {
        vstd::arithmetic::power2::lemma_pow2_pos((sz - n) as nat);
    }
    assert((pow2(sz) - pow2(n)) as int == pow2(n) * q) by {
        vstd::arithmetic::mul::lemma_mul_is_distributive_sub(
            pow2(n) as int,
            pow2((sz - n) as nat) as int,
            1,
        );
        assert(pow2(n) * pow2((sz - n) as nat) == pow2(sz));
    }
    assert(v as int == (pow2(n) - m) + pow2(n) * q);
    vstd::arithmetic::div_mod::lemma_mod_multiples_vanish(
        q as int,
        (pow2(n) - m) as int,
        pow2(n) as int,
    );
    vstd::arithmetic::div_mod::lemma_small_mod((pow2(n) - m) as nat, pow2(n));
}

/// A concatenated pattern stays below the combined width.
proof fn lemma_cat_bound(a: nat, b: nat, sa: nat, sb: nat)
    requires
        a < pow2(sa),
        b < pow2(sb),
    ensures
        a * pow2(sb) + b < pow2(sa + sb),
        pow2(sb) >= 1,
{
    vstd::arithmetic::power2::lemma_pow2_adds(sa, sb);
    vstd::arithmetic::power2::lemma_pow2_pos(sb);
    vstd::arithmetic::power2::lemma_pow2_pos(sa);
    assert(a * pow2(sb) <= (pow2(sa) - 1) * pow2(sb)) by {
        vstd::arithmetic::mul::lemma_mul_inequality(a as int, pow2(sa) - 1, pow2(sb) as int);
    }
    assert((pow2(sa) - 1) * pow2(sb) == pow2(sa) * pow2(sb) - pow2(sb)) by {
        vstd::arithmetic::mul::lemma_mul_is_distributive_sub(
            pow2(sb) as int,
            pow2(sa) as int,
            1,
        );
        vstd::arithmetic::mul::lemma_mul_is_commutative(pow2(sb) as int, pow2(sa) - 1);
        vstd::arithmetic::mul::lemma_mul_is_commutative(pow2(sb) as int, pow2(sa) as int);
    }
}

/// A halving step read back as division by two.
proof fn lemma_halving(v: nat, out: Seq<u64>)
    requires
        2 * wval(out) + v % 2 == v,
    ensures
        wval(out) == v / 2,
{
    vstd::arithmetic::div_mod::lemma_fundamental_div_mod_converse(
        v as int,
        2,
        wval(out) as int,
        (v % 2) as int,
    );
}

/// For a value below `pow2(size)`, the quotient by `pow2(size - 1)` is its
/// top bit.
pub proof fn lemma_msb_as_div(v: nat, size: nat)
    requires
        size >= 1,
        v < pow2(size),
    ensures
        v / pow2((size - 1) as nat) == (if nbit(v, (size - 1) as nat) { 1nat } else { 0nat }),
{
    vstd::arithmetic::power2::lemma_pow2_unfold(size);
    vstd::arithmetic::power2::lemma_pow2_pos((size - 1) as nat);
    assert(v / pow2((size - 1) as nat) < 2) by {
        vstd::arithmetic::div_mod::lemma_div_by_multiple_is_strongly_ordered(
            v as int,
            pow2(size) as int,
            2,
            pow2((size - 1) as nat) as int,
        );
        vstd::arithmetic::div_mod::lemma_div_multiples_vanish(2, pow2((size - 1) as nat) as int);
        vstd::arithmetic::mul::lemma_mul_is_commutative(2, pow2((size - 1) as nat) as int);
    }
    vstd::arithmetic::div_mod::lemma_small_mod(
        (v / pow2((size - 1) as nat)) as nat,
        2,
    );
}

/// Doubling then reducing by an even power of two keeps the bottom bit
/// clear.
proof fn lemma_even_mod(v: nat, size: nat)
    requires
        size >= 1,
    ensures
        (2 * v) % pow2(size) % 2 == 0,
{
    vstd::arithmetic::power2::lemma_pow2_unfold(size);
    vstd::arithmetic::power2::lemma_pow2_pos((size - 1) as nat);
    vstd::arithmetic::div_mod::lemma_mod_breakdown(
        2 * v as int,
        2,
        pow2((size - 1) as nat) as int,
    );
    vstd::arithmetic::div_mod::lemma_mod_multiples_basic(v as int, 2);
}

/// Setting the cleared bottom bit of a word vector adds one to its value.
proof fn lemma_wval_update_zero(s: Seq<u64>, w: u64)
    requires
        s.len() >= 1,
        w == s[0] + 1,
    ensures
        wval(s.update(0, w)) == wval(s) + 1,
{
    crate::words::lemma_wval_update(s, 0, w);
    vstd::arithmetic::power2::lemma2_to64();
    assert(pow2(0) == 1);
    assert(pow2(64 * 0) * s[0] as nat == s[0] as nat && pow2(64 * 0) * w as nat == w as nat) by {
        vstd::arithmetic::mul::lemma_mul_basics(s[0] as int);
        vstd::arithmetic::mul::lemma_mul_basics(w as int);
    }
}

/// Half of a width-bounded value fits one bit lower.
proof fn lemma_half_stays_low(v: nat, size: nat)
    requires
        size >= 1,
        v < pow2(size),
    ensures
        v / 2 < pow2((size - 1) as nat),
{
    vstd::arithmetic::power2::lemma_pow2_unfold(size);
    vstd::arithmetic::power2::lemma_pow2_pos((size - 1) as nat);
}

/// Setting the clear top bit of a width-bounded pattern adds `pow2(size-1)`.
proof fn lemma_top_set(s: Seq<u64>, j: nat, size: nat, w2: u64)
    requires
        s.len() >= 1,
        j < 64,
        size >= 1,
        size == 64 * (s.len() - 1) + j + 1,
        wval(s) < pow2((size - 1) as nat),
        (s[s.len() - 1] as nat) < pow2(j),
        w2 as nat == s[s.len() - 1] as nat + pow2(j),
    ensures
        wval(s.update(s.len() - 1, w2)) == wval(s) + pow2((size - 1) as nat),
{
    let last = (s.len() - 1) as int;
    vstd::arithmetic::power2::lemma_pow2_pos(j);
    crate::words::lemma_wval_update(s, last, w2);
    vstd::arithmetic::power2::lemma_pow2_adds(64 * last as nat, j);
    assert(pow2(64 * last as nat) * w2 as nat == pow2(64 * last as nat) * s[last] as nat + pow2(
        64 * last as nat,
    ) * pow2(j)) by {
        vstd::arithmetic::mul::lemma_mul_is_distributive_add(
            pow2(64 * last as nat) as int,
            s[last] as int,
            pow2(j) as int,
        );
    }
}

/// Reducing a one-bit word shift modulo the declared width drops the pushed
/// out carry word.
proof fn lemma_shift_mod(v: nat, d: Seq<u64>, size: nat, c: nat)
    requires
        size >= 1,
        size <= 64 * d.len(),
        c <= 1,
        wval(d) + pow2(64 * d.len()) * c == 2 * v,
    ensures
        wval(d) % pow2(size) == (2 * v) % pow2(size),
{
    vstd::arithmetic::power2::lemma_pow2_pos(size);
    let d_ = (64 * d.len() - size) as nat;
    vstd::arithmetic::power2::lemma_pow2_adds(size, d_);
    assert(pow2(64 * d.len()) * c == pow2(size) * (pow2(d_) * c)) by {
        vstd::arithmetic::mul::lemma_mul_is_associative(
            pow2(size) as int,
            pow2(d_) as int,
            c as int,
        );
    }
    vstd::arithmetic::div_mod::lemma_mod_multiples_vanish(
        (pow2(d_) * c) as int,
        wval(d) as int,
        pow2(size) as int,
    );
    vstd::arithmetic::mul::lemma_mul_is_commutative(pow2(size) as int, (pow2(d_) * c) as int);
}

/// Twice a power of two below the word width fits in a word.
proof fn lemma_fits_word(j: nat)
    requires
        j < 64,
    ensures
        pow2(j) + pow2(j) <= pow2(64),
        pow2(64) == 0x10000000000000000,
{
    vstd::arithmetic::power2::lemma_pow2_unfold(j + 1);
    if j + 1 < 64 {
        vstd::arithmetic::power2::lemma_pow2_strictly_increases(j + 1, 64);
    }
    vstd::arithmetic::power2::lemma2_to64();
}

/// Unrolling an iterated left rotation from the outside.
proof fn lemma_rot_left_peel(v: nat, size: nat, n: nat)
    ensures
        rot_left(v, size, n + 1) == rot_left1(rot_left(v, size, n), size),
    decreases n,
{
    assert(rot_left(v, size, 0) == v);
    assert(rot_left(rot_left1(v, size), size, 0) == rot_left1(v, size));
    assert(rot_left(v, size, 1) == rot_left(rot_left1(v, size), size, 0));
    if n > 0 {
        lemma_rot_left_peel(rot_left1(v, size), size, (n - 1) as nat);
    }
}

/// Unrolling an iterated right rotation from the outside.
pub proof fn lemma_rot_right_peel(v: nat, size: nat, n: nat)
    ensures
        rot_right(v, size, n + 1) == rot_right1(rot_right(v, size, n), size),
    decreases n,
{
    assert(rot_right(v, size, 0) == v);
    assert(rot_right(rot_right1(v, size), size, 0) == rot_right1(v, size));
    assert(rot_right(v, size, 1) == rot_right(rot_right1(v, size), size, 0));
    if n > 0 {
        lemma_rot_right_peel(rot_right1(v, size), size, (n - 1) as nat);
    }
}


/// The two-state single-bit value 0.
pub fn bit1b_0() -> (r: SvPrimaryLiteralIntegral)
    ensures
        r.wf(),
        r.v01() == 0,
        r.vxz() == 0,
        r.size == 1,
        !r.signed,
        !r.is_4state_spec(),
{
    proof {
        lemma_one_word(0);
    }
    SvPrimaryLiteralIntegral { data_01: one_word(0), data_xz: None, size: 1, signed: false }
}

/// The two-state single-bit value 1.
pub fn bit1b_1() -> (r: SvPrimaryLiteralIntegral)
    ensures
        r.wf(),
        r.v01() == 1,
        r.vxz() == 0,
        r.size == 1,
        !r.signed,
        !r.is_4state_spec(),
{
    proof {
        lemma_one_word(1);
    }
    SvPrimaryLiteralIntegral { data_01: one_word(1), data_xz: None, size: 1, signed: false }
}

/// The four-state single-bit value 0.
pub fn logic1b_0() -> (r: SvPrimaryLiteralIntegral)
    ensures
        r.wf(),
        r.v01() == 0,
        r.vxz() == 0,
        r.size == 1,
        !r.signed,
        r.is_4state_spec(),
{
    proof {
        lemma_one_word(0);
        lemma_one_word(0);
    }
    SvPrimaryLiteralIntegral {
        data_01: one_word(0),
        data_xz: Some(one_word(0)),
        size: 1,
        signed: false,
    }
}

/// The four-state single-bit value 1.
pub fn logic1b_1() -> (r: SvPrimaryLiteralIntegral)
    ensures
        r.wf(),
        r.v01() == 1,
        r.vxz() == 0,
        r.size == 1,
        !r.signed,
        r.is_4state_spec(),
{
    proof {
        lemma_one_word(1);
        lemma_one_word(0);
    }
    SvPrimaryLiteralIntegral {
        data_01: one_word(1),
        data_xz: Some(one_word(0)),
        size: 1,
        signed: false,
    }
}

/// The four-state single-bit value X.
pub fn logic1b_x() -> (r: SvPrimaryLiteralIntegral)
    ensures
        r.wf(),
        r.v01() == 0,
        r.vxz() == 1,
        r.size == 1,
        !r.signed,
        r.is_4state_spec(),
{
    proof {
        lemma_one_word(0);
        lemma_one_word(1);
    }
    SvPrimaryLiteralIntegral {
        data_01: one_word(0),
        data_xz: Some(one_word(1)),
        size: 1,
        signed: false,
    }
}

/// The four-state single-bit value Z.
pub fn _logic1b_z() -> (r: SvPrimaryLiteralIntegral)
    ensures
        r.wf(),
        r.v01() == 1,
        r.vxz() == 1,
        r.size == 1,
        !r.signed,
        r.is_4state_spec(),
{
    proof {
        lemma_one_word(1);
        lemma_one_word(1);
    }
    SvPrimaryLiteralIntegral {
        data_01: one_word(1),
        data_xz: Some(one_word(1)),
        size: 1,
        signed: false,
    }
}

/// Builds the one-element word vector `[w]`.
fn one_word(w: u64) -> (v: Vec<u64>)
    ensures
        v@ == seq![w],
        wval(v@) == w as nat,
{
    let mut v: Vec<u64> = Vec::new();
    v.push(w);
    proof {
        assert(v@ =~= seq![w]);
        lemma_one_word(w);
    }
    v
}

proof fn lemma_one_word(w: u64)
    ensures
        wval(seq![w]) == w as nat,
        pow2(1) == 2,
        words_for(1) == 1,
{
    assert(seq![w].drop_first() =~= Seq::<u64>::empty());
    assert(wval(Seq::<u64>::empty()) == 0);
    assert(wval(seq![w]) == w as nat + pow2(64) * 0);
    vstd::arithmetic::power2::lemma2_to64();
}

} // verus!
