//! Measured distances: which places are sampled, which side counts, and which
//! sample is farthest.

use crate::scalar::Scalar;
use vstd::prelude::*;

verus! {

/// Which side of the mesh a distance is counted on.
#[derive(Clone, Copy, Debug, PartialEq, Eq, Structural)]
pub enum DistanceMode {
    /// Both sides.
    Absolute,
    /// The side that the faces look to.
    Outside,
}

/// A signed distance as it counts.
pub open spec fn counted(signed: Scalar, mode: DistanceMode) -> Scalar {
    match mode {
        DistanceMode::Absolute => signed.spec_abs(),
        DistanceMode::Outside => signed.spec_max(Scalar { bits: 0 }),
    }
}

/// Counts a signed distance, which is positive outside.
pub fn signed_distance_score(signed: Scalar, mode: DistanceMode) -> (d: Scalar)
    ensures
        d == counted(signed, mode),
{
    match mode {
        DistanceMode::Absolute => signed.abs(),
        DistanceMode::Outside => signed.max(Scalar::zero()),
    }
}

/// The first of the samples that are farthest; distances that are not finite
/// are passed over.
pub fn farthest(dists: &Vec<Scalar>) -> (worst: Option<usize>)
    ensures
        match worst {
            Some(i) => {
                &&& i < dists@.len()
                &&& dists@[i as int].spec_is_finite()
                &&& forall|j: int|
                    0 <= j < dists@.len() && (#[trigger] dists@[j]).spec_is_finite() ==> dists@[j].spec_le(
                        dists@[i as int],
                    )
                &&& forall|j: int|
                    0 <= j < i && (#[trigger] dists@[j]).spec_is_finite() ==> dists@[j].spec_lt(dists@[i as int])
            },
            None => forall|j: int| 0 <= j < dists@.len() ==> !(#[trigger] dists@[j]).spec_is_finite(),
        },
{
    let mut worst: Option<usize> = None;
    let mut k: usize = 0;
    while k < dists.len()
        invariant
            k <= dists@.len(),
            match worst {
                Some(i) => {
                    &&& i < k
                    &&& dists@[i as int].spec_is_finite()
                    &&& forall|j: int|
                        0 <= j < k && (#[trigger] dists@[j]).spec_is_finite() ==> dists@[j].spec_le(dists@[i as int])
                    &&& forall|j: int|
                        0 <= j < i && (#[trigger] dists@[j]).spec_is_finite() ==> dists@[j].spec_lt(dists@[i as int])
                },
                None => forall|j: int| 0 <= j < k ==> !(#[trigger] dists@[j]).spec_is_finite(),
            },
        decreases dists@.len() - k,
    {
        let d: Scalar = dists[k];
        if d.is_finite() {
            let farther: bool = match worst {
                Some(i) => d.gt(dists[i]),
                None => true,
            };
            if farther {
                worst = Some(k);
            }
        }
        k += 1;
    }
    worst
}

/// How far apart `k` samples of `n` places lie.
pub open spec fn stride(n: int, k: int) -> int {
    if n / k > 1 {
        n / k
    } else {
        1
    }
}

/// At most `k` of the places from 0 up to `n`, evenly apart from the first on.
pub fn sample_places(n: usize, k: usize) -> (places: Vec<usize>)
    requires
        k > 0,
    ensures
        places@.len() <= k,
        forall|i: int|
            0 <= i < places@.len() ==> #[trigger] places@[i] == i * stride(n as int, k as int) && places@[i] < n,
        places@.len() == k || places@.len() * stride(n as int, k as int) >= n,
{
    let step: usize = if n / k > 1 {
        n / k
    } else {
        1
    };
    let mut places: Vec<usize> = Vec::new();
    let mut at: usize = 0;
    assert(0 * step == 0) by (nonlinear_arith);
    while at < n && places.len() < k
        invariant
            step == stride(n as int, k as int),
            step >= 1,
            at == places@.len() * step || (at >= n && places@.len() * step >= n),
            places@.len() <= k,
            forall|i: int| 0 <= i < places@.len() ==> #[trigger] places@[i] == i * step && places@[i] < n,
        decreases k - places@.len(),
    {
        let ghost before = places@.len() as int;
        places.push(at);
        assert((before + 1) * step == before * step + step) by (nonlinear_arith);
        if n - at > step {
            at = at + step;
        } else {
            at = n;
        }
    }
    places
}

/// A distance counts the same on both sides, or on the outside alone: what is
/// inside or on the surface then counts nothing.
pub proof fn law_how_distances_count(signed: Scalar)
    requires
        !signed.spec_is_nan(),
    ensures
        counted(signed, DistanceMode::Absolute).spec_key() >= 0,
        counted(signed, DistanceMode::Absolute) == counted(signed.spec_neg(), DistanceMode::Absolute),
        signed.spec_key() >= 0 ==> counted(signed, DistanceMode::Absolute).spec_key() == signed.spec_key(),
        (Scalar { bits: 0 }).spec_lt(signed) ==> counted(signed, DistanceMode::Outside) == signed,
        signed.spec_le(Scalar { bits: 0 }) ==> counted(signed, DistanceMode::Outside).spec_key() == 0,
{
}

/// The places looked at are spread over all there are: no place is looked at
/// twice, and where there are more than asked for, less than one step is left
/// out per place.
pub proof fn law_places_are_spread(n: int, k: int)
    requires
        0 <= n,
        0 < k,
    ensures
        stride(n, k) >= 1,
        n < 2 * k ==> stride(n, k) == 1,
        k <= n ==> stride(n, k) * k <= n,
        n < (stride(n, k) + 1) * k,
{
    vstd::arithmetic::div_mod::lemma_fundamental_div_mod(n, k);
    let q = n / k;
    assert(n % k < k);
    assert(k * q == q * k) by (nonlinear_arith);
    assert((q + 1) * k == q * k + k) by (nonlinear_arith);
    if q >= 2 {
        assert(q * k >= 2 * k) by (nonlinear_arith)
            requires
                q >= 2,
                k > 0,
        ;
    }
    if q <= 0 {
        assert(q * k <= 0) by (nonlinear_arith)
            requires
                q <= 0,
                k > 0,
        ;
    }
}

} // verus!
