//! The simplest group that has the shape of an affine point: limbs that are added limb by
//! limb modulo a prime. It stands in for a curve wherever code that is generic over the
//! point capability is exercised without a curve's native arithmetic.

use crate::utils::{
    doubles_by_adding, is_commutative_on, AffinePoint, CurveLaw, Domain, WeierstrassAffinePoint,
};
use vstd::prelude::*;

verus! {

/// The prime `2^32 - 5`, modulo which the limbs are added.
pub const LIMB_PRIME: u64 = 4_294_967_291;

/// A point of four limbs under limb-wise addition modulo [`LIMB_PRIME`].
#[derive(Debug, Clone, Copy, PartialEq, Eq)]
pub struct AdditivePoint {
    pub limbs: [u32; 4],
}

/// The limb-wise sum of two limb sequences of one length modulo [`LIMB_PRIME`].
pub open spec fn limbwise_sum(a: Seq<u32>, b: Seq<u32>) -> Seq<u32> {
    Seq::new(a.len(), |i: int| ((a[i] + b[i]) % (LIMB_PRIME as int)) as u32)
}

/// The limb-wise sum of two arrays modulo [`LIMB_PRIME`].
pub fn add_limbwise<const N: usize>(a: &[u32; N], b: &[u32; N]) -> (sum: [u32; N])
    ensures
        sum@ == limbwise_sum(a@, b@),
{
    let mut sum: [u32; N] = [0u32; N];
    let mut i: usize = 0;
    while i < N
        invariant
            i <= N,
            forall|k: int| 0 <= k < i ==> sum@[k] == ((a@[k] + b@[k]) % (LIMB_PRIME as int)) as u32,
        decreases N - i,
    {
        let wide: u64 = (a[i] as u64 + b[i] as u64) % LIMB_PRIME;
        sum[i] = wide as u32;
        i += 1;
    }
    proof {
        assert(sum@ =~= limbwise_sum(a@, b@));
    }
    sum
}

impl AffinePoint<4> for AdditivePoint {
    const GENERATOR: [u32; 4] = [1, 1, 1, 1];

    open spec fn limbs(&self) -> Seq<u32> {
        self.limbs@
    }

    open spec fn law() -> CurveLaw {
        (|a: Seq<u32>, b: Seq<u32>| limbwise_sum(a, b), |a: Seq<u32>| limbwise_sum(a, a))
    }

    fn new(limbs: [u32; 4]) -> (p: Self) {
        AdditivePoint { limbs }
    }

    fn limbs_ref(&self) -> (r: &[u32; 4]) {
        &self.limbs
    }

    fn limbs_mut(&mut self) -> (r: &mut [u32; 4]) {
        &mut self.limbs
    }

    fn add_assign(&mut self, other: &Self) {
        self.limbs = add_limbwise(&self.limbs, &other.limbs);
    }

    fn double(&mut self) {
        self.limbs = add_limbwise(&self.limbs, &self.limbs);
    }
}

impl WeierstrassAffinePoint<4> for AdditivePoint {

}


/// The limb sequences of four limbs.
pub open spec fn four_limbs() -> Domain {
    |s: Seq<u32>| s.len() == 4
}

/// Limb-wise addition modulo the prime is the law of a commutative semigroup on the
/// sequences of four limbs, and in it doubling is adding a point to itself. So scalar
/// multiplication of an [`AdditivePoint`] is repeated addition, and its two-scalar
/// multiplication the sum of two scalar multiplications.
pub proof fn lemma_additive_law()
    ensures
        is_commutative_on(AdditivePoint::law(), four_limbs()),
        doubles_by_adding(AdditivePoint::law(), four_limbs()),
{
    let law = AdditivePoint::law();
    let domain = four_limbs();
    assert forall|u: Seq<u32>, v: Seq<u32>| #![trigger (law.0)(u, v)]
        domain(u) && domain(v) implies domain((law.0)(u, v)) && (law.0)(u, v) == (law.0)(v, u) by {
        assert(limbwise_sum(u, v) =~= limbwise_sum(v, u));
    }
    assert forall|u: Seq<u32>, v: Seq<u32>, w: Seq<u32>| #![trigger (law.0)((law.0)(u, v), w)]
        domain(u) && domain(v) && domain(w) implies (law.0)((law.0)(u, v), w) == (law.0)(
        u,
        (law.0)(v, w),
    ) by {
        let left = limbwise_sum(limbwise_sum(u, v), w);
        let right = limbwise_sum(u, limbwise_sum(v, w));
        assert forall|i: int| 0 <= i < 4 implies left[i] == right[i] by {
            let prime = LIMB_PRIME as int;
            let a = u[i] as int;
            let b = v[i] as int;
            let c = w[i] as int;
            assert(((a + b) % prime + c) % prime == (a + (b + c) % prime) % prime);
        }
        assert(left =~= right);
    }
}
} // verus!
