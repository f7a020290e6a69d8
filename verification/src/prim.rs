//! Convex primitives, their kinds, and what each kind weighs in a choice.

use crate::scalar::Scalar;
use vstd::prelude::*;

verus! {

/// A point or direction.
pub type Vec3 = [Scalar; 3];

/// A fitted convex primitive.
#[derive(Clone, Copy, Debug)]
pub enum Prim {
    Obb { center: Vec3, axes: [Vec3; 3], half_extents: Vec3 },
    Sphere { center: Vec3, r: Scalar },
    /// Capped cylinder; `h` is the full axial length.
    Cylinder { center: Vec3, axis: Vec3, h: Scalar, r: Scalar },
    /// `h` is the gap between the two hemisphere centers.
    Capsule { center: Vec3, axis: Vec3, h: Scalar, r: Scalar },
    Frustum { center: Vec3, axis: Vec3, h: Scalar, r_bot: Scalar, r_top: Scalar },
    /// Isosceles trapezoidal prism, extruded along the first axis.
    Prism { center: Vec3, axes: [Vec3; 3], hx: Scalar, hy: Scalar, hzt: Scalar, hzb: Scalar },
}

#[derive(Clone, Copy, Debug, PartialEq, Eq, Structural)]
pub enum PrimKind {
    Obb,
    Sphere,
    Cylinder,
    Capsule,
    Frustum,
    Prism,
}

impl Prim {
    pub open spec fn spec_kind(self) -> PrimKind {
        match self {
            Prim::Obb { .. } => PrimKind::Obb,
            Prim::Sphere { .. } => PrimKind::Sphere,
            Prim::Cylinder { .. } => PrimKind::Cylinder,
            Prim::Capsule { .. } => PrimKind::Capsule,
            Prim::Frustum { .. } => PrimKind::Frustum,
            Prim::Prism { .. } => PrimKind::Prism,
        }
    }

    pub fn kind(&self) -> (k: PrimKind)
        ensures
            k == self.spec_kind(),
    {
        match self {
            Prim::Obb { .. } => PrimKind::Obb,
            Prim::Sphere { .. } => PrimKind::Sphere,
            Prim::Cylinder { .. } => PrimKind::Cylinder,
            Prim::Capsule { .. } => PrimKind::Capsule,
            Prim::Frustum { .. } => PrimKind::Frustum,
            Prim::Prism { .. } => PrimKind::Prism,
        }
    }

    /// The center.
    pub open spec fn spec_center(self) -> Vec3 {
        match self {
            Prim::Obb { center, .. } => center,
            Prim::Sphere { center, .. } => center,
            Prim::Cylinder { center, .. } => center,
            Prim::Capsule { center, .. } => center,
            Prim::Frustum { center, .. } => center,
            Prim::Prism { center, .. } => center,
        }
    }

    pub fn center(&self) -> (c: Vec3)
        ensures
            c == self.spec_center(),
    {
        match *self {
            Prim::Obb { center, .. } => center,
            Prim::Sphere { center, .. } => center,
            Prim::Cylinder { center, .. } => center,
            Prim::Capsule { center, .. } => center,
            Prim::Frustum { center, .. } => center,
            Prim::Prism { center, .. } => center,
        }
    }

    /// The factor on the volume when a fit is chosen: 1 for boxes, spheres and
    /// capsules, 1.05 for cylinders, 1.4 for prisms, 2.1 for frustums.
    pub fn weight(&self) -> (w: Scalar)
        ensures
            w == weight_of(self.spec_kind()),
    {
        match *self {
            Prim::Obb { .. } => Scalar::one(),
            Prim::Sphere { .. } => Scalar::one(),
            Prim::Capsule { .. } => Scalar::one(),
            Prim::Cylinder { .. } => Scalar { bits: 0x3f86_6666 },
            Prim::Prism { .. } => Scalar { bits: 0x3fb3_3333 },
            Prim::Frustum { .. } => Scalar { bits: 0x4006_6666 },
        }
    }
}

/// What a kind weighs when a fit is chosen by its volume; less is preferred.
pub open spec fn weight_of(kind: PrimKind) -> Scalar {
    match kind {
        PrimKind::Obb | PrimKind::Sphere | PrimKind::Capsule => Scalar { bits: 0x3f80_0000 },
        PrimKind::Cylinder => Scalar { bits: 0x3f86_6666 },
        PrimKind::Prism => Scalar { bits: 0x3fb3_3333 },
        PrimKind::Frustum => Scalar { bits: 0x4006_6666 },
    }
}

/// What a kind weighs where clean colliders are preferred to tight ones.
pub open spec fn collision_weight_of(kind: PrimKind) -> Scalar {
    match kind {
        PrimKind::Cylinder => Scalar { bits: 0x3f38_51ec },
        PrimKind::Capsule => Scalar { bits: 0x3f51_eb85 },
        PrimKind::Frustum => Scalar { bits: 0x3f61_47ae },
        PrimKind::Sphere => Scalar { bits: 0x3f73_3333 },
        PrimKind::Obb => Scalar { bits: 0x3f80_0000 },
        PrimKind::Prism => Scalar { bits: 0x3f97_0a3d },
    }
}

/// The factor on the volume where clean colliders are preferred: 0.72 for
/// cylinders, 0.82 for capsules, 0.88 for frustums, 0.95 for spheres, 1 for
/// boxes, 1.18 for prisms.
pub fn collision_shape_weight(kind: PrimKind) -> (w: Scalar)
    ensures
        w == collision_weight_of(kind),
{
    match kind {
        PrimKind::Cylinder => Scalar { bits: 0x3f38_51ec },
        PrimKind::Capsule => Scalar { bits: 0x3f51_eb85 },
        PrimKind::Frustum => Scalar { bits: 0x3f61_47ae },
        PrimKind::Sphere => Scalar { bits: 0x3f73_3333 },
        PrimKind::Obb => Scalar::one(),
        PrimKind::Prism => Scalar { bits: 0x3f97_0a3d },
    }
}

/// The short name of a kind, as it stands in file names and object names.
pub open spec fn tag_of(kind: PrimKind) -> Seq<char> {
    match kind {
        PrimKind::Obb => "obb"@,
        PrimKind::Sphere => "sphere"@,
        PrimKind::Cylinder => "cyl"@,
        PrimKind::Capsule => "cap"@,
        PrimKind::Frustum => "frustum"@,
        PrimKind::Prism => "prism"@,
    }
}

/// The short name of the primitive's kind.
pub fn kind_tag(prim: &Prim) -> (tag: &'static str)
    ensures
        tag@ == tag_of(prim.spec_kind()),
{
    match prim {
        Prim::Obb { .. } => "obb",
        Prim::Sphere { .. } => "sphere",
        Prim::Cylinder { .. } => "cyl",
        Prim::Capsule { .. } => "cap",
        Prim::Frustum { .. } => "frustum",
        Prim::Prism { .. } => "prism",
    }
}

/// Which kinds a fit may return.
#[derive(Clone, Copy, Debug, PartialEq, Eq, Structural)]
pub struct PrimMask {
    pub obb: bool,
    pub sphere: bool,
    pub cylinder: bool,
    pub capsule: bool,
    pub frustum: bool,
    pub prism: bool,
}

impl PrimMask {
    pub open spec fn enables(self, kind: PrimKind) -> bool {
        match kind {
            PrimKind::Obb => self.obb,
            PrimKind::Sphere => self.sphere,
            PrimKind::Cylinder => self.cylinder,
            PrimKind::Capsule => self.capsule,
            PrimKind::Frustum => self.frustum,
            PrimKind::Prism => self.prism,
        }
    }

    /// Every kind.
    pub fn all() -> (m: Self)
        ensures
            forall|kind: PrimKind| #[trigger] m.enables(kind),
    {
        PrimMask { obb: true, sphere: true, cylinder: true, capsule: true, frustum: true, prism: true }
    }

    /// Oriented boxes and nothing else.
    pub fn obb_only() -> (m: Self)
        ensures
            forall|kind: PrimKind| #[trigger] m.enables(kind) <==> kind == PrimKind::Obb,
    {
        PrimMask { obb: true, sphere: false, cylinder: false, capsule: false, frustum: false, prism: false }
    }
}

/// The weights of shapes: boxes, spheres and capsules weigh one, then come
/// cylinders, prisms and frustums. For collisions cylinders weigh least, then
/// capsules, frustums and spheres; boxes weigh one and prisms most.
pub proof fn law_weights_are_ranked()
    ensures
        weight_of(PrimKind::Obb) == (Scalar { bits: 0x3f80_0000 }),
        weight_of(PrimKind::Sphere) == (Scalar { bits: 0x3f80_0000 }),
        weight_of(PrimKind::Capsule) == (Scalar { bits: 0x3f80_0000 }),
        weight_of(PrimKind::Obb).spec_lt(weight_of(PrimKind::Cylinder)),
        weight_of(PrimKind::Cylinder).spec_lt(weight_of(PrimKind::Prism)),
        weight_of(PrimKind::Prism).spec_lt(weight_of(PrimKind::Frustum)),
        collision_weight_of(PrimKind::Cylinder).spec_lt(collision_weight_of(PrimKind::Capsule)),
        collision_weight_of(PrimKind::Capsule).spec_lt(collision_weight_of(PrimKind::Frustum)),
        collision_weight_of(PrimKind::Frustum).spec_lt(collision_weight_of(PrimKind::Sphere)),
        collision_weight_of(PrimKind::Sphere).spec_lt(collision_weight_of(PrimKind::Obb)),
        collision_weight_of(PrimKind::Obb) == (Scalar { bits: 0x3f80_0000 }),
        collision_weight_of(PrimKind::Obb).spec_lt(collision_weight_of(PrimKind::Prism)),
{
}

/// Each kind of shape has its own tag.
pub proof fn law_tags_are_told_apart(a: PrimKind, b: PrimKind)
    requires
        tag_of(a) == tag_of(b),
    ensures
        a == b,
{
    reveal_strlit("obb");
    reveal_strlit("sphere");
    reveal_strlit("cyl");
    reveal_strlit("cap");
    reveal_strlit("frustum");
    reveal_strlit("prism");
    assert("obb"@[0] == 'o' && "cyl"@[1] == 'y' && "cap"@[1] == 'a' && "cyl"@[0] == 'c' && "cap"@[0] == 'c');
    assert("obb"@.len() == 3 && "cyl"@.len() == 3 && "cap"@.len() == 3 && "sphere"@.len() == 6 && "prism"@.len() == 5
        && "frustum"@.len() == 7);
}

/// Taking a kind out of a mask takes out that kind alone.
pub proof fn law_mask_switches_its_kind(m: PrimMask, kind: PrimKind)
    ensures
        (PrimMask { obb: false, ..m }).enables(kind) <==> m.enables(kind) && kind != PrimKind::Obb,
        (PrimMask { sphere: false, ..m }).enables(kind) <==> m.enables(kind) && kind != PrimKind::Sphere,
        (PrimMask { cylinder: false, ..m }).enables(kind) <==> m.enables(kind) && kind != PrimKind::Cylinder,
        (PrimMask { capsule: false, ..m }).enables(kind) <==> m.enables(kind) && kind != PrimKind::Capsule,
        (PrimMask { frustum: false, ..m }).enables(kind) <==> m.enables(kind) && kind != PrimKind::Frustum,
        (PrimMask { prism: false, ..m }).enables(kind) <==> m.enables(kind) && kind != PrimKind::Prism,
{
}

/// The kind and the centre of a shape are what it was made with.
pub proof fn law_kind_and_center(c: Vec3, axes: [Vec3; 3], axis: Vec3, h: Vec3, x: Scalar, y: Scalar, z: Scalar, w: Scalar)
    ensures
        ({
            let p = Prim::Obb { center: c, axes, half_extents: h };
            p.spec_kind() == PrimKind::Obb && p.spec_center() == c
        }),
        ({
            let p = Prim::Sphere { center: c, r: x };
            p.spec_kind() == PrimKind::Sphere && p.spec_center() == c
        }),
        ({
            let p = Prim::Cylinder { center: c, axis, h: x, r: y };
            p.spec_kind() == PrimKind::Cylinder && p.spec_center() == c
        }),
        ({
            let p = Prim::Capsule { center: c, axis, h: x, r: y };
            p.spec_kind() == PrimKind::Capsule && p.spec_center() == c
        }),
        ({
            let p = Prim::Frustum { center: c, axis, h: x, r_bot: y, r_top: z };
            p.spec_kind() == PrimKind::Frustum && p.spec_center() == c
        }),
        ({
            let p = Prim::Prism { center: c, axes, hx: x, hy: y, hzt: z, hzb: w };
            p.spec_kind() == PrimKind::Prism && p.spec_center() == c
        }),
{
}

} // verus!
