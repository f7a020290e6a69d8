//! Measuring a decomposition: sampling, counting, finding the worst primitive.

use crate::order::no_nan;
use crate::prim::{PrimKind, Vec3};
use crate::primitive::{PrimView, Primitive, views};
use crate::scalar::Scalar;
use crate::select::{best_score, pick_worst, worst_index};
use vstd::prelude::*;

verus! {

/// A linear congruential generator, for sampling.
#[derive(Clone, Copy, Debug, PartialEq, Eq, Structural)]
pub struct Lcg(pub u64);

/// The next state of the generator.
pub open spec fn lcg_next(s: u64) -> int {
    (s * 6364136223846793005 + 1442695040888963407) % 0x1_0000_0000_0000_0000
}

impl Lcg {
    /// A generator started from a seed.
    pub fn new(seed: u64) -> (r: Self)
        ensures
            r.0 == (seed * 6364136223846793005 + 1) % 0x1_0000_0000_0000_0000,
    {
        let m: u64 = seed.wrapping_mul(6364136223846793005);
        proof {
            lemma_wrapping_step(seed, 6364136223846793005, m as int, 1);
        }
        Lcg(m.wrapping_add(1))
    }

    /// Advances the generator; returns the upper half of its state.
    pub fn step(&mut self) -> (x: u32)
        ensures
            final(self).0 == lcg_next(old(self).0),
            x == final(self).0 as int / 0x1_0000_0000,
    {
        let s: u64 = self.0;
        let m: u64 = s.wrapping_mul(6364136223846793005);
        proof {
            lemma_wrapping_step(s, 6364136223846793005, m as int, 1442695040888963407);
        }
        self.0 = m.wrapping_add(1442695040888963407);
        let t: u64 = self.0;
        assert(t >> 32 == t / 0x1_0000_0000) by (bit_vector);
        assert(t >> 32 <= 0xffff_ffff) by (bit_vector);
        (t >> 32) as u32
    }
}

proof fn lemma_wrapping_step(s: u64, a: int, m: int, b: int)
    requires
        m == (s * a) % 0x1_0000_0000_0000_0000,
    ensures
        (m + b) % 0x1_0000_0000_0000_0000 == (s * a + b) % 0x1_0000_0000_0000_0000,
{
    vstd::arithmetic::div_mod::lemma_add_mod_noop(s * a, b, 0x1_0000_0000_0000_0000);
    vstd::arithmetic::div_mod::lemma_add_mod_noop(m, b, 0x1_0000_0000_0000_0000);
    vstd::arithmetic::div_mod::lemma_mod_twice(s * a, 0x1_0000_0000_0000_0000);
}

/// The low half of a product.
pub open spec fn low_product(a: u32, b: u64) -> u64 {
    ((a * b) % 0x1_0000_0000_0000_0000) as u64
}

/// The seed of a sampling: the same for the same first vertex.
pub open spec fn seed_of(v: Vec3) -> u64 {
    0xcafe_f00du64 ^ low_product(v[0].bits, 2654435761) ^ low_product(v[1].bits, 40503) ^ low_product(
        v[2].bits,
        67043,
    )
}

/// The state that a generator samples a surface from, by its first vertex.
pub fn sample_seed(v: Vec3) -> (r: Lcg)
    ensures
        r.0 == seed_of(v),
{
    let x: u64 = (v[0].bits as u64).wrapping_mul(2654435761);
    let y: u64 = (v[1].bits as u64).wrapping_mul(40503);
    let z: u64 = (v[2].bits as u64).wrapping_mul(67043);
    Lcg(0xcafe_f00d ^ x ^ y ^ z)
}

pub open spec fn non_decreasing(cum: Seq<Scalar>) -> bool {
    forall|i: int, j: int| 0 <= i <= j < cum.len() ==> (#[trigger] cum[i]).spec_key() <= (#[trigger] cum[j]).spec_key()
}

/// The smallest index whose entry is at least `x`; the length where there is
/// none.
pub fn upper_bound(cum: &Vec<Scalar>, x: Scalar) -> (i: usize)
    requires
        non_decreasing(cum@),
        no_nan(cum@),
    ensures
        i <= cum@.len(),
        forall|k: int| 0 <= k < i ==> !x.spec_le(#[trigger] cum@[k]),
        forall|k: int| i <= k < cum@.len() ==> x.spec_le(#[trigger] cum@[k]),
{
    let mut lo: usize = 0;
    let mut hi: usize = cum.len();
    while lo < hi
        invariant
            lo <= hi <= cum@.len(),
            non_decreasing(cum@),
            no_nan(cum@),
            forall|k: int| 0 <= k < lo ==> !x.spec_le(#[trigger] cum@[k]),
            forall|k: int| hi <= k < cum@.len() ==> x.spec_le(#[trigger] cum@[k]),
        decreases hi - lo,
    {
        let mid: usize = lo + (hi - lo) / 2;
        let ghost m = cum@[mid as int];
        if cum[mid].ge(x) {
            proof {
                assert forall|k: int| mid <= k < cum@.len() implies x.spec_le(#[trigger] cum@[k]) by {
                    assert(m.spec_key() <= cum@[k].spec_key());
                    assert(!cum@[k].spec_is_nan());
                }
            }
            hi = mid;
        } else {
            proof {
                assert(!m.spec_is_nan());
                assert forall|k: int| 0 <= k < mid + 1 implies !x.spec_le(#[trigger] cum@[k]) by {
                    assert(cum@[k].spec_key() <= m.spec_key());
                }
            }
            lo = mid + 1;
        }
    }
    lo
}

/// How many live primitives are of the given kind.
pub open spec fn count_kind(ps: Seq<PrimView>, kind: PrimKind) -> nat
    decreases ps.len(),
{
    if ps.len() == 0 {
        0
    } else {
        count_kind(ps.drop_last(), kind) + (if ps.last().alive && ps.last().prim.spec_kind() == kind {
            1nat
        } else {
            0nat
        })
    }
}

/// How many live primitives there are, in all and of each kind.
#[derive(Clone, Copy, Debug, PartialEq, Eq, Structural)]
pub struct Tally {
    pub obb: usize,
    pub sphere: usize,
    pub cylinder: usize,
    pub capsule: usize,
    pub frustum: usize,
    pub prism: usize,
    pub total: usize,
}

impl Tally {
    pub open spec fn counts(self, ps: Seq<PrimView>) -> bool {
        &&& self.obb == count_kind(ps, PrimKind::Obb)
        &&& self.sphere == count_kind(ps, PrimKind::Sphere)
        &&& self.cylinder == count_kind(ps, PrimKind::Cylinder)
        &&& self.capsule == count_kind(ps, PrimKind::Capsule)
        &&& self.frustum == count_kind(ps, PrimKind::Frustum)
        &&& self.prism == count_kind(ps, PrimKind::Prism)
        &&& self.total == crate::primitive::live_count(ps)
    }
}

/// The kinds add up to the live primitives.
pub proof fn law_kinds_add_up(ps: Seq<PrimView>)
    ensures
        count_kind(ps, PrimKind::Obb) + count_kind(ps, PrimKind::Sphere) + count_kind(ps, PrimKind::Cylinder)
            + count_kind(ps, PrimKind::Capsule) + count_kind(ps, PrimKind::Frustum) + count_kind(ps, PrimKind::Prism)
            == crate::primitive::live_count(ps),
    decreases ps.len(),
{
    if ps.len() > 0 {
        law_kinds_add_up(ps.drop_last());
    }
}

/// Counts the live primitives by kind.
pub fn tally(prims: &Vec<Primitive>) -> (t: Tally)
    ensures
        t.counts(views(prims@)),
{
    let mut t = Tally { obb: 0, sphere: 0, cylinder: 0, capsule: 0, frustum: 0, prism: 0, total: 0 };
    let mut i: usize = 0;
    assert(views(prims@).subrange(0, 0) =~= Seq::empty());
    while i < prims.len()
        invariant
            i <= prims@.len(),
            t.counts(views(prims@).subrange(0, i as int)),
            t.total <= i,
            t.obb + t.sphere + t.cylinder + t.capsule + t.frustum + t.prism == t.total,
        decreases prims@.len() - i,
    {
        proof {
            let longer = views(prims@).subrange(0, i + 1);
            assert(longer.drop_last() =~= views(prims@).subrange(0, i as int));
            assert(longer.last() == prims@[i as int]@);
        }
        if prims[i].alive {
            t.total = t.total + 1;
            match prims[i].prim.kind() {
                PrimKind::Obb => {
                    t.obb = t.obb + 1;
                },
                PrimKind::Sphere => {
                    t.sphere = t.sphere + 1;
                },
                PrimKind::Cylinder => {
                    t.cylinder = t.cylinder + 1;
                },
                PrimKind::Capsule => {
                    t.capsule = t.capsule + 1;
                },
                PrimKind::Frustum => {
                    t.frustum = t.frustum + 1;
                },
                PrimKind::Prism => {
                    t.prism = t.prism + 1;
                },
            }
        }
        i += 1;
    }
    assert(views(prims@).subrange(0, i as int) =~= views(prims@));
    t
}

/// The live primitive with the greatest distance, the first of them on a tie,
/// and the distance; the first live one where all distances are zero, and
/// primitive 0 where none is alive.
pub fn worst_primitive(live: &Vec<u32>, maxima: &Vec<Scalar>) -> (res: (u32, Scalar))
    requires
        live@.len() == maxima@.len(),
    ensures
        ({
            let all = Seq::new(maxima@.len(), |i: int| true);
            let worst = worst_index((Scalar { bits: 0 }), all, maxima@);
            &&& res.1 == best_score((Scalar { bits: 0 }), maxima@, worst)
            &&& res.0 == (match worst {
                Some(i) => live@[i],
                None => if live@.len() > 0 {
                    live@[0]
                } else {
                    0
                },
            })
        }),
{
    let mut all: Vec<bool> = Vec::new();
    let mut i: usize = 0;
    while i < maxima.len()
        invariant
            i <= maxima@.len(),
            all@.len() == i,
            forall|k: int| 0 <= k < i ==> #[trigger] all@[k],
        decreases maxima@.len() - i,
    {
        all.push(true);
        i += 1;
    }
    assert(all@ =~= Seq::new(maxima@.len(), |i: int| true));
    match pick_worst(Scalar::zero(), &all, maxima) {
        Some(i) => (live[i], maxima[i]),
        None => if live.len() > 0 {
            (live[0], Scalar::zero())
        } else {
            (0, Scalar::zero())
        },
    }
}

/// The triangle with its corners counted from `base`.
pub open spec fn offset_tri(t: [u32; 3], base: int) -> [u32; 3] {
    [(t[0] + base) as u32, (t[1] + base) as u32, (t[2] + base) as u32]
}

/// Adds the triangles of a part whose vertices were added at `base`.
pub fn append_part(tris: &mut Vec<[u32; 3]>, part: &Vec<[u32; 3]>, base: u32)
    requires
        forall|i: int, c: int| 0 <= i < part@.len() && 0 <= c < 3 ==> base + #[trigger] part@[i][c] <= u32::MAX,
    ensures
        final(tris)@ == old(tris)@ + Seq::new(part@.len(), |i: int| offset_tri(part@[i], base as int)),
{
    let ghost start = tris@;
    let mut i: usize = 0;
    while i < part.len()
        invariant
            forall|i: int, c: int| 0 <= i < part@.len() && 0 <= c < 3 ==> base + #[trigger] part@[i][c] <= u32::MAX,
            i <= part@.len(),
            tris@ == start + Seq::new(i as nat, |k: int| offset_tri(part@[k], base as int)),
        decreases part@.len() - i,
    {
        let t: [u32; 3] = part[i];
        assert(base + part@[i as int][0] <= u32::MAX && base + part@[i as int][1] <= u32::MAX && base
            + part@[i as int][2] <= u32::MAX);
        let u: [u32; 3] = [t[0] + base, t[1] + base, t[2] + base];
        assert(u =~= offset_tri(t, base as int));
        tris.push(u);
        assert(tris@ =~= start + Seq::new((i + 1) as nat, |k: int| offset_tri(part@[k], base as int)));
        i += 1;
    }
}

/// A primitive more counts one of its own kind where it is alive, and nothing
/// where it is dead.
pub proof fn law_primitive_counts_for_its_kind(ps: Seq<PrimView>, p: PrimView, kind: PrimKind)
    ensures
        count_kind(ps.push(p), kind) == count_kind(ps, kind) + (if p.alive && kind == p.prim.spec_kind() {
            1int
        } else {
            0int
        }),
        count_kind(Seq::empty(), kind) == 0,
{
    assert(ps.push(p).drop_last() =~= ps);
}

/// A triangle that is appended is the same triangle further on: each of its
/// corners moves by as much as the others.
pub proof fn law_appended_triangle_is_moved(t: [u32; 3], base: int, c: int)
    requires
        0 <= c < 3,
        0 <= base,
        t[0] + base <= u32::MAX,
        t[1] + base <= u32::MAX,
        t[2] + base <= u32::MAX,
    ensures
        offset_tri(t, base)[c] - base == t[c],
{
}

/// The worst primitive is the first that reaches the greatest of the maxima; no
/// maximum is beyond what is said of it.
pub proof fn law_worst_primitive_reaches_the_greatest(maxima: Seq<Scalar>, j: int)
    requires
        crate::order::no_nan(maxima),
        0 <= j < maxima.len(),
    ensures
        ({
            let worst = worst_index((Scalar { bits: 0 }), Seq::new(maxima.len(), |i: int| true), maxima);
            let top = best_score((Scalar { bits: 0 }), maxima, worst);
            &&& maxima[j].spec_le(top)
            &&& worst matches Some(i) ==> 0 <= i < maxima.len() && maxima[i] == top && (j < i ==> maxima[j].spec_lt(top))
            &&& worst is None ==> top == (Scalar { bits: 0 })
        }),
{
    let all = Seq::new(maxima.len(), |i: int| true);
    crate::select::law_worst_is_first_greatest(Scalar { bits: 0 }, all, maxima);
    assert(all[j]);
}

/// The generator is linear: states that differ by so much give states that
/// differ by a multiple of it, and zero gives the increment.
pub proof fn law_generator_is_linear(s: u64, t: u64)
    ensures
        lcg_next(0) == 1442695040888963407,
        (lcg_next(t) - lcg_next(s) - (t - s) * 6364136223846793005) % 0x1_0000_0000_0000_0000 == 0,
        0 <= lcg_next(s) < 0x1_0000_0000_0000_0000,
{
    let m: int = 0x1_0000_0000_0000_0000;
    let (x, y) = (s * 6364136223846793005 + 1442695040888963407, t * 6364136223846793005 + 1442695040888963407);
    vstd::arithmetic::div_mod::lemma_fundamental_div_mod(x, m);
    vstd::arithmetic::div_mod::lemma_fundamental_div_mod(y, m);
    let q = x / m - y / m;
    assert((t - s) * 6364136223846793005 == y - x);
    assert(lcg_next(t) - lcg_next(s) - (y - x) == q * m) by (nonlinear_arith)
        requires
            x == m * (x / m) + lcg_next(s),
            y == m * (y / m) + lcg_next(t),
            q == x / m - y / m,
    ;
    vstd::arithmetic::div_mod::lemma_mod_multiples_basic(q, m);
}

/// The seed is a constant where all coordinates are zero, and each coordinate
/// changes it by itself.
pub proof fn law_coordinates_seed_by_themselves(v: Vec3, w: Vec3)
    requires
        v[0] == w[0],
        v[1] == w[1],
        w[2].bits == 0,
    ensures
        seed_of(v) == seed_of(w) ^ low_product(v[2].bits, 67043),
        v[0].bits == 0 && v[1].bits == 0 ==> seed_of(w) == 0xcafe_f00d,
{
    let (a, b, c) = (low_product(v[0].bits, 2654435761), low_product(v[1].bits, 40503), low_product(v[2].bits, 67043));
    assert(low_product(0, 67043) == 0 && low_product(0, 40503) == 0 && low_product(0, 2654435761) == 0);
    assert(0xcafe_f00du64 ^ a ^ b ^ c == (0xcafe_f00du64 ^ a ^ b ^ 0u64) ^ c) by (bit_vector);
    assert(0xcafe_f00du64 ^ 0u64 ^ 0u64 ^ 0u64 == 0xcafe_f00du64) by (bit_vector);
}

/// A tally says of each kind how many of it are alive, and how many there are
/// in all.
pub proof fn law_tally_adds_up(t: Tally, ps: Seq<PrimView>)
    requires
        t.counts(ps),
    ensures
        t.obb == count_kind(ps, PrimKind::Obb),
        t.sphere == count_kind(ps, PrimKind::Sphere),
        t.cylinder == count_kind(ps, PrimKind::Cylinder),
        t.capsule == count_kind(ps, PrimKind::Capsule),
        t.frustum == count_kind(ps, PrimKind::Frustum),
        t.prism == count_kind(ps, PrimKind::Prism),
        t.total == t.obb + t.sphere + t.cylinder + t.capsule + t.frustum + t.prism,
{
    law_kinds_add_up(ps);
}

} // verus!
