use svdata::sv_primlit_integral::{
    bit1b_0, bit1b_1, logic1b_0, logic1b_1, logic1b_x, usize_to_primlit, SvPrimaryLiteralIntegral,
};

fn two_state(words: Vec<u64>, size: usize, signed: bool) -> SvPrimaryLiteralIntegral {
    SvPrimaryLiteralIntegral { data_01: words, data_xz: None, size, signed }
}

fn four_state(
    words: Vec<u64>,
    xz: Vec<u64>,
    size: usize,
    signed: bool,
) -> SvPrimaryLiteralIntegral {
    SvPrimaryLiteralIntegral { data_01: words, data_xz: Some(xz), size, signed }
}

#[test]
fn unsigned_add_overflow() {
    let a = two_state(vec![1u64 << 63], 64, false);
    let b = two_state(vec![1u64 << 63], 64, false);
    let r = a.add_primlit(b);
    assert_eq!(r.data_01, vec![0, 1]);
    assert_eq!(r.size, 65);
    assert!(!r.signed);
}

#[test]
fn signed_add_same_sign_growth() {
    let a = two_state(vec![1u64 << 62], 64, true);
    let b = two_state(vec![1u64 << 62], 64, true);
    let r = a.add_primlit(b);
    assert_eq!(r.data_01, vec![1u64 << 63, 0]);
    assert_eq!(r.size, 65);
    assert!(r.signed);
}

#[test]
fn signed_multiply_small() {
    let a = two_state(vec![3], 2, true);
    let b = two_state(vec![4], 3, true);
    let r = a.mult(b);
    assert_eq!(r.data_01, vec![4]);
    assert_eq!(r.size, 5);
    assert!(r.signed);
}

#[test]
fn concatenation_with_inner_x() {
    let a = four_state(vec![0], vec![1], 1, false);
    let b = four_state(vec![0], vec![1], 1, false);
    let r = a.cat(b);
    assert_eq!(r.data_01, vec![0]);
    assert_eq!(r.data_xz, Some(vec![3]));
    assert_eq!(r.size, 2);
    assert!(!r.signed);
}

#[test]
fn case_eq_same_pattern_mismatched_widths() {
    let a = two_state(vec![1u64 << 63], 63, false);
    let b = two_state(vec![1u64 << 63], 64, false);
    let r = a.case_eq(b);
    assert_eq!(r, bit1b_1());
}

#[test]
fn logical_eq_with_x_present() {
    let a = four_state(vec![0], vec![1], 1, false);
    let b = two_state(vec![0], 1, false);
    let r = a.logical_eq(b);
    assert_eq!(r, logic1b_x());
    let r2 = two_state(vec![5], 3, false).logical_eq(four_state(vec![5], vec![2], 3, false));
    assert_eq!(r2, logic1b_x());
}

#[test]
fn minimum_width_idempotent() {
    let mut v = two_state(vec![0b0101], 8, false);
    v._minimum_width();
    assert_eq!(v.size, 3);
    assert_eq!(v.data_01, vec![0b101]);
    let snapshot = v.clone();
    v._minimum_width();
    assert_eq!(v, snapshot);
}

#[test]
fn minimum_width_signed_negative() {
    // an eight-bit minus-two shrinks to two bits
    let mut v = two_state(vec![0b1111_1110], 8, true);
    v._minimum_width();
    assert_eq!(v.size, 2);
    assert_eq!(v.data_01, vec![0b10]);
    let snapshot = v.clone();
    v._minimum_width();
    assert_eq!(v, snapshot);
}

#[test]
fn minimum_width_zero_is_one_bit() {
    let mut v = two_state(vec![0, 0], 128, true);
    v._minimum_width();
    assert_eq!(v.size, 1);
    assert_eq!(v.data_01, vec![0]);
}

#[test]
fn to_4state_round_trip() {
    let v = two_state(vec![0xdead_beef], 32, false);
    let r = v.to_4state();
    assert_eq!(r.data_01, v.data_01);
    assert_eq!(r.size, v.size);
    assert_eq!(r.data_xz, Some(vec![0]));
}

#[test]
fn negate_involution() {
    let v = two_state(vec![23], 6, true);
    let once = v.negate();
    let twice = once.negate();
    let mut canon = v.clone();
    canon._minimum_width();
    assert_eq!(twice, canon);
}

#[test]
fn negate_most_negative_grows() {
    // minus eight in four bits becomes plus eight in five
    let v = two_state(vec![0b1000], 4, true);
    let r = v.negate();
    assert_eq!(r.data_01, vec![8]);
    assert_eq!(r.size, 5);
}

#[test]
fn lsl_zero_is_identity() {
    let v = two_state(vec![0b1011], 4, false);
    let r = v.lsl(0);
    assert_eq!(r, v);
}

#[test]
fn lsr_undoes_lsl_up_to_width() {
    let v = two_state(vec![0b1011], 4, false);
    let r = v.lsl(7).lsr(7);
    assert_eq!(r.data_01, v.data_01);
    assert_eq!(r.size, v.size + 7);
}

#[test]
fn lsl_grows_and_shifts() {
    let v = two_state(vec![1u64 << 63], 64, false);
    let r = v.lsl(1);
    assert_eq!(r.data_01, vec![0, 1]);
    assert_eq!(r.size, 65);
}

#[test]
fn rotation_ring_identity() {
    let v = SvPrimaryLiteralIntegral {
        data_01: vec![0b10110],
        data_xz: Some(vec![0b00010]),
        size: 5,
        signed: false,
    };
    let r = v.ror(3).rol(3);
    assert_eq!(r, v);
}

#[test]
fn rol_moves_top_bit_to_bottom() {
    let v = two_state(vec![0b100], 3, false);
    let r = v.rol(1);
    assert_eq!(r.data_01, vec![0b001]);
    assert_eq!(r.size, 3);
}

#[test]
fn ror_moves_bottom_bit_to_top() {
    let v = two_state(vec![0b001], 3, false);
    let r = v.ror(1);
    assert_eq!(r.data_01, vec![0b100]);
    assert_eq!(r.size, 3);
}

#[test]
fn add_and_mult_widths() {
    let a = two_state(vec![5], 5, false);
    let b = two_state(vec![2], 3, false);
    let s = a.add_primlit(b.clone());
    assert_eq!(s.size, 6);
    assert_eq!(s.data_01, vec![7]);
    let p = a.mult(b);
    assert_eq!(p.size, 8);
    assert_eq!(p.data_01, vec![10]);
}

#[test]
fn xz_poisons_add_and_mult() {
    let a = four_state(vec![1], vec![1], 2, false);
    let b = two_state(vec![1], 3, true);
    let s = a.add_primlit(b.clone());
    assert_eq!(s.size, 4);
    assert_eq!(s.data_01, vec![0]);
    assert_eq!(s.data_xz, Some(vec![0b1111]));
    assert!(!s.signed);
    let p = a.mult(b);
    assert_eq!(p.size, 5);
    assert_eq!(p.data_01, vec![0]);
    assert_eq!(p.data_xz, Some(vec![0b11111]));
    assert!(!p.signed);
}

#[test]
fn relational_x_propagation() {
    let a = four_state(vec![2], vec![1], 2, false);
    let b = two_state(vec![1], 2, false);
    assert_eq!(a.lt(b.clone()), logic1b_x());
    assert_eq!(a.le(b.clone()), logic1b_x());
    assert_eq!(a.gt(b.clone()), logic1b_x());
    assert_eq!(a.ge(b.clone()), logic1b_x());
    assert_eq!(a.logical_eq(b), logic1b_x());
}

#[test]
fn relational_results() {
    let a = two_state(vec![3], 3, false);
    let b = two_state(vec![5], 3, false);
    assert_eq!(a.lt(b.clone()), logic1b_1());
    assert_eq!(a.gt(b.clone()), logic1b_0());
    assert_eq!(a.le(b.clone()), logic1b_1());
    assert_eq!(a.ge(b), logic1b_0());
    let c = two_state(vec![4], 3, false);
    assert_eq!(c.le(two_state(vec![4], 3, false)), logic1b_1());
    assert_eq!(c.ge(two_state(vec![4], 3, false)), logic1b_1());
}

#[test]
fn signed_comparison() {
    // minus one against plus one, both three bits signed
    let a = two_state(vec![0b111], 3, true);
    let b = two_state(vec![0b001], 3, true);
    assert_eq!(a.lt(b.clone()), logic1b_1());
    assert_eq!(b.gt(a), logic1b_1());
}

#[test]
fn mixed_signedness_compares_unsigned() {
    // the minus-one pattern reads as seven once signedness differs
    let a = two_state(vec![0b111], 3, true);
    let b = two_state(vec![0b001], 3, false);
    assert_eq!(a.lt(b.clone()), logic1b_0());
    assert_eq!(a.gt(b), logic1b_1());
}

#[test]
fn case_eq_never_x_and_mismatched_xz() {
    let a = four_state(vec![1], vec![1], 2, false);
    let b = two_state(vec![1], 2, false);
    let r = a.case_eq(b);
    assert_eq!(r, bit1b_0());
    let c = four_state(vec![1], vec![1], 2, false);
    let d = four_state(vec![1], vec![1], 2, false);
    assert_eq!(c.case_eq(d), bit1b_1());
}

#[test]
fn wildcard_eq_masks_and_poisons() {
    // the right operand's X masks the differing bottom bit
    let a = two_state(vec![0b10], 2, false);
    let b = four_state(vec![0b10], vec![0b01], 2, false);
    assert_eq!(a.wildcard_eq(b), logic1b_1());
    // an unmasked X on the left poisons
    let c = four_state(vec![0b00], vec![0b10], 2, false);
    let d = four_state(vec![0b00], vec![0b01], 2, false);
    assert_eq!(c.wildcard_eq(d), logic1b_x());
    // a real mismatch at an unmasked position
    let e = two_state(vec![0b00], 2, false);
    let f = four_state(vec![0b11], vec![0b01], 2, false);
    assert_eq!(e.wildcard_eq(f), logic1b_0());
    // no wildcards at all falls back to logical equality
    let g = two_state(vec![0b01], 2, false);
    assert_eq!(g.wildcard_eq(two_state(vec![0b01], 2, false)), logic1b_1());
}

#[test]
fn inversion_flips_two_state_only() {
    let v = four_state(vec![0b1100], vec![0b1010], 4, false);
    let r = v.inv();
    // X and Z positions keep their pattern, the rest flips
    assert_eq!(r.data_xz, Some(vec![0b1010]));
    assert_eq!(r.data_01, vec![0b1001]);
    assert_eq!(r.size, 4);
    let w = two_state(vec![0b1100], 4, false);
    assert_eq!(w.inv().data_01, vec![0b0011]);
}

#[test]
fn canonical_zero_and_negativity() {
    let z = two_state(vec![0], 9, false);
    assert!(z.is_zero());
    assert!(!z.is_negative());
    let mut zz = z.clone();
    zz._minimum_width();
    assert_eq!(zz.size, 1);
    assert_eq!(zz.data_01, vec![0]);
    let n = two_state(vec![0b100], 3, true);
    assert!(!n.is_zero());
    assert!(n.is_negative());
    let x = four_state(vec![0], vec![1], 1, true);
    assert!(!x.is_zero());
    assert!(!x.is_negative());
}

#[test]
fn msb_and_state_queries() {
    let v = four_state(vec![0b10], vec![0b11], 2, false);
    assert!(v.is_4state());
    assert!(v.contains_xz());
    assert!(v.is_set_msb_01());
    assert!(v.is_set_msb_xz());
    let w = two_state(vec![0b01], 2, false);
    assert!(!w.is_4state());
    assert!(!w.contains_xz());
    assert!(!w.is_set_msb_01());
    assert!(!w.is_set_msb_xz());
}

#[test]
fn usize_conversion_is_canonical_signed() {
    let r = usize_to_primlit(5);
    assert!(r.signed);
    assert_eq!(r.size, 4);
    assert_eq!(r.data_01, vec![5]);
    let z = usize_to_primlit(0);
    assert_eq!(z.size, 1);
    assert_eq!(z.data_01, vec![0]);
}

#[test]
fn single_bit_constants() {
    assert_eq!(bit1b_0().data_01, vec![0]);
    assert_eq!(bit1b_1().data_01, vec![1]);
    assert!(bit1b_0().data_xz.is_none());
    assert_eq!(logic1b_0().data_xz, Some(vec![0]));
    assert_eq!(logic1b_1().data_01, vec![1]);
    assert_eq!(logic1b_x().data_xz, Some(vec![1]));
    assert_eq!(logic1b_x().data_01, vec![0]);
}

#[test]
fn extension_helpers() {
    let mut a = two_state(vec![1u64 << 63], 64, true);
    let mut b = two_state(vec![1], 2, true);
    a._matched_sign_extend(&mut b);
    assert_eq!(a.size, 64);
    assert_eq!(b.size, 64);
    assert_eq!(b.data_01, vec![1]);
    let mut c = two_state(vec![7], 3, false);
    let mut d = two_state(vec![1, 1], 65, false);
    c._matched_zero_extend(&mut d);
    assert_eq!(c.size, 128);
    assert_eq!(c.data_01, vec![7, 0]);
    assert_eq!(d.size, 128);
}

#[test]
fn truncate_masks_high_bits() {
    let mut v = four_state(vec![0b1111], vec![0b1010], 4, false);
    v._truncate(2);
    assert_eq!(v.size, 2);
    assert_eq!(v.data_01, vec![0b11]);
    assert_eq!(v.data_xz, Some(vec![0b10]));
}

#[test]
fn raw_add_keeps_size_field() {
    let mut a = two_state(vec![u64::MAX], 64, false);
    a._unsigned_primlit_add(two_state(vec![1], 1, false));
    assert_eq!(a.data_01, vec![0, 1]);
    assert_eq!(a.size, 64);
}
