use uint256_precompile::additive::{add_limbwise, AdditivePoint, LIMB_PRIME};
use uint256_precompile::utils::{
    words_all_zero, words_equal, words_negated, AffinePoint, MulAssignError,
    WeierstrassAffinePoint,
};

type Toy = AdditivePoint;

const PRIME: u64 = LIMB_PRIME;

const START: [u32; 4] = [1, 2, 3, 4_000_000_000];

fn generator() -> Toy {
    Toy::new(START)
}

fn repeated(p: &Toy, k: u32) -> Toy {
    let mut acc = p.clone();
    for _ in 1..k {
        acc.add_assign(p);
    }
    acc
}

fn times(p: &Toy, k: u128) -> Toy {
    let mut limbs = [0u32; 4];
    for i in 0..4 {
        limbs[i] = ((p.limbs[i] as u128 * k) % PRIME as u128) as u32;
    }
    Toy::new(limbs)
}

fn bits_of(k: u64, n: usize) -> Vec<bool> {
    (0..n).map(|i| (k >> i) & 1 == 1).collect()
}

#[test]
fn mul_assign_matches_repeated_addition() {
    for k in [1u32, 2, 3, 5, 17] {
        let mut p = generator();
        assert!(p.mul_assign(&[k, 0]).is_ok());
        assert_eq!(p, repeated(&generator(), k));
    }
}

#[test]
fn mul_assign_by_seventeen_exact() {
    let mut p = generator();
    assert!(p.mul_assign(&[17, 0]).is_ok());
    assert_eq!(p.limbs, [17, 34, 51, ((4_000_000_000u64 * 17) % PRIME) as u32]);
}

#[test]
fn mul_assign_uses_every_word_of_the_scalar() {
    let mut p = generator();
    assert!(p.mul_assign(&[5, 3]).is_ok());
    assert_eq!(p, times(&generator(), 5 + (3u128 << 32)));

    let mut q = generator();
    assert!(q.mul_assign(&[0, 0x8000_0000]).is_ok());
    assert_eq!(q, times(&generator(), 1u128 << 63));
}

#[test]
fn mul_assign_zero_scalar_is_refused() {
    let mut p = generator();
    let r = p.mul_assign(&[0, 0]);
    assert!(matches!(r, Err(MulAssignError::ScalarIsZero)));
    assert_eq!(p, generator());
}

#[test]
fn msm_matches_sum_of_products() {
    let a = generator();
    let b = Toy::new([9, 8, 7, 6]);
    for (ka, kb) in [(1u64, 1u64), (2, 3), (5, 17), (255, 254), (1 << 40, 12345)] {
        let got = Toy::multi_scalar_multiplication(
            &bits_of(ka, 64),
            a.clone(),
            &bits_of(kb, 64),
            b.clone(),
        );
        let mut pa = a.clone();
        assert!(pa.mul_assign(&[ka as u32, (ka >> 32) as u32]).is_ok());
        let mut pb = b.clone();
        assert!(pb.mul_assign(&[kb as u32, (kb >> 32) as u32]).is_ok());
        pa.add_assign(&pb);
        assert_eq!(got, Some(pa));
    }
}

#[test]
fn msm_exact_value() {
    let a = Toy::new([1, 0, 0, 0]);
    let b = Toy::new([0, 1, 0, 0]);
    let got = Toy::multi_scalar_multiplication(&bits_of(6, 4), a, &bits_of(9, 4), b);
    assert_eq!(got, Some(Toy::new([6, 9, 0, 0])));
}

#[test]
fn msm_all_zero_bits_is_absent() {
    let got = Toy::multi_scalar_multiplication(
        &[false; 16],
        generator(),
        &[false; 16],
        generator(),
    );
    assert_eq!(got, None);
    let empty = Toy::multi_scalar_multiplication(&[], generator(), &[], generator());
    assert_eq!(empty, None);
}

#[test]
fn msm_with_one_zero_scalar_is_the_other_product() {
    let got = Toy::multi_scalar_multiplication(
        &bits_of(0, 8),
        generator(),
        &bits_of(5, 8),
        Toy::new([9, 8, 7, 6]),
    );
    assert_eq!(got, Some(Toy::new([45, 40, 35, 30])));
}

#[test]
fn special_case_both_identity() {
    let mut p = Toy::new([0; 4]);
    assert!(p.weierstrass_add_assign_special_cases(&Toy::new([0; 4])));
    assert_eq!(p.limbs, [0; 4]);
}

#[test]
fn special_case_self_identity() {
    let mut p = Toy::new([0; 4]);
    assert!(p.weierstrass_add_assign_special_cases(&generator()));
    assert_eq!(p, generator());
}

#[test]
fn special_case_other_identity() {
    let mut p = generator();
    assert!(p.weierstrass_add_assign_special_cases(&Toy::new([0; 4])));
    assert_eq!(p, generator());
}

#[test]
fn special_case_equal_points_double() {
    let mut p = generator();
    assert!(p.weierstrass_add_assign_special_cases(&generator()));
    let mut doubled = generator();
    doubled.double();
    assert_eq!(p, doubled);
}

#[test]
fn special_case_negation_is_identity() {
    let mut p = Toy::new([5, 6, 7, 0]);
    let neg = Toy::new([5, 6, 7u32.wrapping_neg(), 0]);
    assert!(p.weierstrass_add_assign_special_cases(&neg));
    assert_eq!(p.limbs, [0; 4]);
}

#[test]
fn special_case_distinct_points_do_not_fire() {
    let mut p = generator();
    let q = Toy::new([9, 8, 7, 6]);
    assert!(!p.weierstrass_add_assign_special_cases(&q));
    assert_eq!(p, generator());

    // Same x-coordinate, but the y-coordinates are neither equal nor negated.
    let mut r = Toy::new([5, 6, 7, 8]);
    assert!(!r.weierstrass_add_assign_special_cases(&Toy::new([5, 6, 7, 9])));
    assert_eq!(r.limbs, [5, 6, 7, 8]);
}

#[test]
fn point_from_coordinates() {
    let x = [1u8, 0, 0, 0, 2, 0, 0, 0];
    let y = [3u8, 0, 0, 0, 0, 0, 0, 1];
    let p = <Toy as AffinePoint<4>>::from(&x, &y);
    assert_eq!(p.limbs, [1, 2, 3, 0x0100_0000]);
}

#[test]
fn point_bytes_round_trip() {
    let bytes: Vec<u8> = (0..16u8).map(|i| i.wrapping_mul(29).wrapping_add(3)).collect();
    let p = Toy::from_le_bytes(&bytes);
    assert_eq!(p.to_le_bytes(), bytes);
    assert_eq!(Toy::new([0; 4]).to_le_bytes(), vec![0u8; 16]);
}

#[test]
fn limb_helpers() {
    assert!(words_all_zero(&[0, 0]));
    assert!(!words_all_zero(&[0, 2]));
    assert!(words_equal(&[1, 2], &[1, 2]));
    assert!(!words_equal(&[1, 2], &[2, 1]));
    assert!(words_negated(&[4, 1], &[4, u32::MAX]));
    assert!(words_negated(&[4, 0], &[4, 0]));
    assert!(!words_negated(&[4, 1], &[5, u32::MAX]));
    assert!(!words_negated(&[4, 1], &[4, 1]));
}

#[test]
fn additive_point_adds_limb_by_limb() {
    assert_eq!(add_limbwise(&[1, 4_294_967_290], &[2, 3]), [3, 2]);
    assert_eq!(<Toy as AffinePoint<4>>::GENERATOR, [1, 1, 1, 1]);
    let mut p = Toy::new([1, 2, 3, 4]);
    p.limbs_mut()[0] = 9;
    assert_eq!(p.limbs_ref(), &[9, 2, 3, 4]);
    p.double();
    assert_eq!(p.limbs, [18, 4, 6, 8]);
}
