//! Where a ray is inside a box.

use crate::prim::Vec3;
use crate::scalar::Scalar;
use vstd::prelude::*;

verus! {

/// Where along a ray it is inside the first `n` slabs of a box, from 0 up to
/// `max`; `t1` and `t2` are where it crosses the two planes of each slab. A ray
/// that lies in a plane of a slab crosses it nowhere in particular, which is
/// not a number: it is in the slab all along.
pub open spec fn span(t1: Vec3, t2: Vec3, max: Scalar, n: int) -> (Scalar, Scalar)
    decreases n,
{
    if n <= 0 {
        (Scalar { bits: 0 }, max)
    } else {
        let (from, to) = span(t1, t2, max, n - 1);
        let (a, b) = (t1[n - 1], t2[n - 1]);
        if a.spec_is_nan() || b.spec_is_nan() {
            (from, to)
        } else {
            let (near, far) = if a.spec_lt(b) {
                (a, b)
            } else {
                (b, a)
            };
            (
                if from.spec_lt(near) {
                    near
                } else {
                    from
                },
                if far.spec_lt(to) {
                    far
                } else {
                    to
                },
            )
        }
    }
}

/// Whether a ray is inside all three slabs of a box somewhere from 0 up to
/// `max`.
pub fn slabs_overlap(t1: Vec3, t2: Vec3, max: Scalar) -> (b: bool)
    ensures
        b == !span(t1, t2, max, 3).1.spec_lt(span(t1, t2, max, 3).0),
{
    let mut from: Scalar = Scalar::zero();
    let mut to: Scalar = max;
    let mut i: usize = 0;
    while i < 3
        invariant
            i <= 3,
            (from, to) == span(t1, t2, max, i as int),
        decreases 3 - i,
    {
        if !t1[i].is_nan() && !t2[i].is_nan() {
            let (near, far): (Scalar, Scalar) = if t1[i].lt(t2[i]) {
                (t1[i], t2[i])
            } else {
                (t2[i], t1[i])
            };
            if from.lt(near) {
                from = near;
            }
            if far.lt(to) {
                to = far;
            }
        }
        i += 1;
    }
    !to.lt(from)
}

/// The place `t` along a ray lies in slab `k`: between its crossings, or
/// anywhere where the ray lies in a plane of the slab.
pub open spec fn in_slab(t1: Vec3, t2: Vec3, t: Scalar, k: int) -> bool {
    ||| t1[k].spec_is_nan()
    ||| t2[k].spec_is_nan()
    ||| t1[k].spec_le(t) && t.spec_le(t2[k])
    ||| t2[k].spec_le(t) && t.spec_le(t1[k])
}

/// The place `t` lies in all slabs, from 0 up to `max`.
pub open spec fn in_box(t1: Vec3, t2: Vec3, max: Scalar, t: Scalar) -> bool {
    &&& (Scalar { bits: 0 }).spec_le(t)
    &&& t.spec_le(max)
    &&& in_slab(t1, t2, t, 0)
    &&& in_slab(t1, t2, t, 1)
    &&& in_slab(t1, t2, t, 2)
}

/// The slabs overlap exactly where some place from 0 up to the greatest
/// distance lies in all of them.
pub proof fn law_slabs_share_a_place(t1: Vec3, t2: Vec3, max: Scalar)
    requires
        !max.spec_is_nan(),
    ensures
        !span(t1, t2, max, 3).1.spec_lt(span(t1, t2, max, 3).0) <==> exists|t: Scalar| #[trigger]
            in_box(t1, t2, max, t),
{
    reveal_with_fuel(span, 4);
    let (from, to) = span(t1, t2, max, 3);
    if !to.spec_lt(from) {
        assert(in_box(t1, t2, max, from));
    }
    if exists|t: Scalar| #[trigger] in_box(t1, t2, max, t) {
        let t = choose|t: Scalar| #[trigger] in_box(t1, t2, max, t);
        assert(from.spec_le(t) && t.spec_le(to));
    }
}

} // verus!
