//! The command line.
//!
//! Each argument comes with the number that its text stands for, if any, as
//! floating-point text is read outside. Everything else is decided here: which
//! option an argument is, what value it takes, how options combine, and which
//! combinations are refused.

use crate::prim::PrimMask;
use crate::scalar::Scalar;
use crate::text::{digits_value, is_decimal, parse_decimal, same_text, unsigned_digits};
use vstd::prelude::*;

verus! {

/// A number read from an argument: as it stands, and, taken for degrees,
/// in radians.
#[derive(Clone, Copy, Debug, PartialEq, Eq, Structural)]
pub struct Number {
    pub value: Scalar,
    pub in_radians: Scalar,
}

/// One argument: its text, and the number that the text stands for.
pub struct Arg {
    pub text: String,
    pub number: Option<Number>,
}

/// What an [`Arg`] stands for.
pub struct ArgView {
    pub text: Seq<char>,
    pub number: Option<Number>,
}

impl View for Arg {
    type V = ArgView;

    open spec fn view(&self) -> ArgView {
        ArgView { text: self.text@, number: self.number }
    }
}

pub open spec fn arg_views(args: Seq<Arg>) -> Seq<ArgView> {
    Seq::new(args.len(), |i: int| args[i]@)
}

/// The options.
#[derive(Clone, Copy, Debug, PartialEq, Eq, Structural)]
pub enum Flag {
    Viewer,
    VolumeThreshold,
    ObbOnly,
    NoCull,
    NoRefine,
    Quality,
    Shell,
    WeightedCost,
    Rebalance,
    RejectPancakes,
    SubdivideBadFaces,
    SubdivideMaxDepth,
    StripThin,
    StripThinThreshold,
    Feasibility,
    OutsideSpace,
    OutsideFit,
    SplitWorst,
    SplitWorstMax,
    RepairBadSlabs,
    RepairBadSlabsMax,
    PostMergeBudget,
    PostMergeHausdorff,
    ShrinkHighError,
    SplitErrorRegion,
    DebugSplits,
    DebugPrimitive,
    CullOverlap,
    CollisionSimplify,
    CollisionTargetScale,
    CollisionIgnoreDetail,
    CollisionSupportPlanes,
    AxisAlign,
    WorldAxis,
    RefineSearch,
    RefineSearchIters,
    NoTangentEps,
    TangentEps,
    RebalancePasses,
    Proximity,
    ProximityR,
    ProximityK,
    ProximityAngle,
    Metrics,
    MetricsJson,
    EmptySpace,
    EmptySpaceFraction,
    EmptySpaceDistance,
    NoSphere,
    NoCylinder,
    NoCapsule,
    NoFrustum,
    NoPrism,
    Help,
}

/// The option that a text spells.
#[verifier::opaque]
pub open spec fn flag_spelled(text: Seq<char>) -> Option<Flag> {
    if text == "--viewer"@ {
        Some(Flag::Viewer)
    } else if text == "--volume-threshold"@ {
        Some(Flag::VolumeThreshold)
    } else if text == "--obb-only"@ {
        Some(Flag::ObbOnly)
    } else if text == "--no-cull"@ {
        Some(Flag::NoCull)
    } else if text == "--no-refine"@ {
        Some(Flag::NoRefine)
    } else if text == "--quality"@ {
        Some(Flag::Quality)
    } else if text == "--shell"@ {
        Some(Flag::Shell)
    } else if text == "--weighted-cost"@ {
        Some(Flag::WeightedCost)
    } else if text == "--rebalance"@ {
        Some(Flag::Rebalance)
    } else if text == "--reject-pancakes"@ {
        Some(Flag::RejectPancakes)
    } else if text == "--subdivide-bad-faces"@ {
        Some(Flag::SubdivideBadFaces)
    } else if text == "--subdivide-bad-faces-max-depth"@ {
        Some(Flag::SubdivideMaxDepth)
    } else if text == "--strip-thin"@ {
        Some(Flag::StripThin)
    } else if text == "--strip-thin-threshold"@ {
        Some(Flag::StripThinThreshold)
    } else if text == "--feasibility"@ {
        Some(Flag::Feasibility)
    } else if text == "--outside-space"@ {
        Some(Flag::OutsideSpace)
    } else if text == "--outside-fit"@ {
        Some(Flag::OutsideFit)
    } else if text == "--split-worst"@ {
        Some(Flag::SplitWorst)
    } else if text == "--split-worst-max"@ {
        Some(Flag::SplitWorstMax)
    } else if text == "--repair-bad-slabs"@ {
        Some(Flag::RepairBadSlabs)
    } else if text == "--repair-bad-slabs-max"@ {
        Some(Flag::RepairBadSlabsMax)
    } else if text == "--post-merge-budget"@ {
        Some(Flag::PostMergeBudget)
    } else if text == "--post-merge-hausdorff"@ {
        Some(Flag::PostMergeHausdorff)
    } else if text == "--shrink-high-error"@ {
        Some(Flag::ShrinkHighError)
    } else if text == "--split-error-region"@ {
        Some(Flag::SplitErrorRegion)
    } else if text == "--debug-splits"@ {
        Some(Flag::DebugSplits)
    } else if text == "--debug-primitive"@ {
        Some(Flag::DebugPrimitive)
    } else if text == "--cull-overlap"@ {
        Some(Flag::CullOverlap)
    } else if text == "--collision-simplify"@ {
        Some(Flag::CollisionSimplify)
    } else if text == "--collision-target-scale"@ {
        Some(Flag::CollisionTargetScale)
    } else if text == "--collision-ignore-detail"@ {
        Some(Flag::CollisionIgnoreDetail)
    } else if text == "--collision-support-planes"@ {
        Some(Flag::CollisionSupportPlanes)
    } else if text == "--axis-align"@ {
        Some(Flag::AxisAlign)
    } else if text == "--world-axis"@ {
        Some(Flag::WorldAxis)
    } else if text == "--refine-search"@ {
        Some(Flag::RefineSearch)
    } else if text == "--refine-search-iters"@ {
        Some(Flag::RefineSearchIters)
    } else if text == "--no-tangent-eps"@ {
        Some(Flag::NoTangentEps)
    } else if text == "--tangent-eps"@ {
        Some(Flag::TangentEps)
    } else if text == "--rebalance-passes"@ {
        Some(Flag::RebalancePasses)
    } else if text == "--proximity"@ {
        Some(Flag::Proximity)
    } else if text == "--proximity-r"@ {
        Some(Flag::ProximityR)
    } else if text == "--proximity-k"@ {
        Some(Flag::ProximityK)
    } else if text == "--proximity-angle"@ {
        Some(Flag::ProximityAngle)
    } else if text == "--metrics"@ {
        Some(Flag::Metrics)
    } else if text == "--metrics-json"@ {
        Some(Flag::MetricsJson)
    } else if text == "--empty-space"@ {
        Some(Flag::EmptySpace)
    } else if text == "--empty-space-fraction"@ {
        Some(Flag::EmptySpaceFraction)
    } else if text == "--empty-space-distance"@ {
        Some(Flag::EmptySpaceDistance)
    } else if text == "--no-sphere"@ {
        Some(Flag::NoSphere)
    } else if text == "--no-cylinder"@ {
        Some(Flag::NoCylinder)
    } else if text == "--no-capsule"@ {
        Some(Flag::NoCapsule)
    } else if text == "--no-frustum"@ {
        Some(Flag::NoFrustum)
    } else if text == "--no-prism"@ {
        Some(Flag::NoPrism)
    } else if text == "-h"@ {
        Some(Flag::Help)
    } else if text == "--help"@ {
        Some(Flag::Help)
    } else {
        None
    }
}

/// The option that an argument is, if it is one.
pub fn flag_of(text: &String) -> (flag: Option<Flag>)
    ensures
        flag == flag_spelled(text@),
{
    reveal(flag_spelled);
    if same_text(text, "--viewer") {
        Some(Flag::Viewer)
    } else if same_text(text, "--volume-threshold") {
        Some(Flag::VolumeThreshold)
    } else if same_text(text, "--obb-only") {
        Some(Flag::ObbOnly)
    } else if same_text(text, "--no-cull") {
        Some(Flag::NoCull)
    } else if same_text(text, "--no-refine") {
        Some(Flag::NoRefine)
    } else if same_text(text, "--quality") {
        Some(Flag::Quality)
    } else if same_text(text, "--shell") {
        Some(Flag::Shell)
    } else if same_text(text, "--weighted-cost") {
        Some(Flag::WeightedCost)
    } else if same_text(text, "--rebalance") {
        Some(Flag::Rebalance)
    } else if same_text(text, "--reject-pancakes") {
        Some(Flag::RejectPancakes)
    } else if same_text(text, "--subdivide-bad-faces") {
        Some(Flag::SubdivideBadFaces)
    } else if same_text(text, "--subdivide-bad-faces-max-depth") {
        Some(Flag::SubdivideMaxDepth)
    } else if same_text(text, "--strip-thin") {
        Some(Flag::StripThin)
    } else if same_text(text, "--strip-thin-threshold") {
        Some(Flag::StripThinThreshold)
    } else if same_text(text, "--feasibility") {
        Some(Flag::Feasibility)
    } else if same_text(text, "--outside-space") {
        Some(Flag::OutsideSpace)
    } else if same_text(text, "--outside-fit") {
        Some(Flag::OutsideFit)
    } else if same_text(text, "--split-worst") {
        Some(Flag::SplitWorst)
    } else if same_text(text, "--split-worst-max") {
        Some(Flag::SplitWorstMax)
    } else if same_text(text, "--repair-bad-slabs") {
        Some(Flag::RepairBadSlabs)
    } else if same_text(text, "--repair-bad-slabs-max") {
        Some(Flag::RepairBadSlabsMax)
    } else if same_text(text, "--post-merge-budget") {
        Some(Flag::PostMergeBudget)
    } else if same_text(text, "--post-merge-hausdorff") {
        Some(Flag::PostMergeHausdorff)
    } else if same_text(text, "--shrink-high-error") {
        Some(Flag::ShrinkHighError)
    } else if same_text(text, "--split-error-region") {
        Some(Flag::SplitErrorRegion)
    } else if same_text(text, "--debug-splits") {
        Some(Flag::DebugSplits)
    } else if same_text(text, "--debug-primitive") {
        Some(Flag::DebugPrimitive)
    } else if same_text(text, "--cull-overlap") {
        Some(Flag::CullOverlap)
    } else if same_text(text, "--collision-simplify") {
        Some(Flag::CollisionSimplify)
    } else if same_text(text, "--collision-target-scale") {
        Some(Flag::CollisionTargetScale)
    } else if same_text(text, "--collision-ignore-detail") {
        Some(Flag::CollisionIgnoreDetail)
    } else if same_text(text, "--collision-support-planes") {
        Some(Flag::CollisionSupportPlanes)
    } else if same_text(text, "--axis-align") {
        Some(Flag::AxisAlign)
    } else if same_text(text, "--world-axis") {
        Some(Flag::WorldAxis)
    } else if same_text(text, "--refine-search") {
        Some(Flag::RefineSearch)
    } else if same_text(text, "--refine-search-iters") {
        Some(Flag::RefineSearchIters)
    } else if same_text(text, "--no-tangent-eps") {
        Some(Flag::NoTangentEps)
    } else if same_text(text, "--tangent-eps") {
        Some(Flag::TangentEps)
    } else if same_text(text, "--rebalance-passes") {
        Some(Flag::RebalancePasses)
    } else if same_text(text, "--proximity") {
        Some(Flag::Proximity)
    } else if same_text(text, "--proximity-r") {
        Some(Flag::ProximityR)
    } else if same_text(text, "--proximity-k") {
        Some(Flag::ProximityK)
    } else if same_text(text, "--proximity-angle") {
        Some(Flag::ProximityAngle)
    } else if same_text(text, "--metrics") {
        Some(Flag::Metrics)
    } else if same_text(text, "--metrics-json") {
        Some(Flag::MetricsJson)
    } else if same_text(text, "--empty-space") {
        Some(Flag::EmptySpace)
    } else if same_text(text, "--empty-space-fraction") {
        Some(Flag::EmptySpaceFraction)
    } else if same_text(text, "--empty-space-distance") {
        Some(Flag::EmptySpaceDistance)
    } else if same_text(text, "--no-sphere") {
        Some(Flag::NoSphere)
    } else if same_text(text, "--no-cylinder") {
        Some(Flag::NoCylinder)
    } else if same_text(text, "--no-capsule") {
        Some(Flag::NoCapsule)
    } else if same_text(text, "--no-frustum") {
        Some(Flag::NoFrustum)
    } else if same_text(text, "--no-prism") {
        Some(Flag::NoPrism)
    } else if same_text(text, "-h") {
        Some(Flag::Help)
    } else if same_text(text, "--help") {
        Some(Flag::Help)
    } else {
        None
    }
}

/// What an option takes from the argument after it.
#[derive(Clone, Copy, Debug, PartialEq, Eq, Structural)]
pub enum Takes {
    Nothing,
    /// Any text.
    Path,
    /// A floating-point number.
    Number,
    /// A number of things.
    Count,
    /// The id of a primitive.
    Id,
}

impl Flag {
    pub open spec fn spec_takes(self) -> Takes {
        match self {
            Flag::Viewer | Flag::DebugSplits | Flag::MetricsJson => Takes::Path,
            Flag::VolumeThreshold | Flag::Quality | Flag::SubdivideBadFaces | Flag::StripThinThreshold | Flag::Feasibility | Flag::OutsideSpace | Flag::OutsideFit | Flag::SplitWorst | Flag::RepairBadSlabs | Flag::PostMergeHausdorff | Flag::ShrinkHighError | Flag::CullOverlap | Flag::CollisionSimplify | Flag::CollisionTargetScale | Flag::CollisionIgnoreDetail | Flag::CollisionSupportPlanes | Flag::RefineSearch | Flag::TangentEps | Flag::ProximityR | Flag::ProximityAngle | Flag::EmptySpaceFraction | Flag::EmptySpaceDistance => Takes::Number,
            Flag::SubdivideMaxDepth | Flag::SplitWorstMax | Flag::RepairBadSlabsMax | Flag::PostMergeBudget | Flag::RefineSearchIters | Flag::RebalancePasses | Flag::ProximityK => Takes::Count,
            Flag::DebugPrimitive => Takes::Id,
            Flag::ObbOnly | Flag::NoCull | Flag::NoRefine | Flag::Shell | Flag::WeightedCost | Flag::Rebalance | Flag::RejectPancakes | Flag::StripThin | Flag::SplitErrorRegion | Flag::AxisAlign | Flag::WorldAxis | Flag::NoTangentEps | Flag::Proximity | Flag::Metrics | Flag::EmptySpace | Flag::NoSphere | Flag::NoCylinder | Flag::NoCapsule | Flag::NoFrustum | Flag::NoPrism | Flag::Help => Takes::Nothing,
        }
    }

    pub fn takes(self) -> (t: Takes)
        ensures
            t == self.spec_takes(),
    {
        match self {
            Flag::Viewer | Flag::DebugSplits | Flag::MetricsJson => Takes::Path,
            Flag::VolumeThreshold | Flag::Quality | Flag::SubdivideBadFaces | Flag::StripThinThreshold | Flag::Feasibility | Flag::OutsideSpace | Flag::OutsideFit | Flag::SplitWorst | Flag::RepairBadSlabs | Flag::PostMergeHausdorff | Flag::ShrinkHighError | Flag::CullOverlap | Flag::CollisionSimplify | Flag::CollisionTargetScale | Flag::CollisionIgnoreDetail | Flag::CollisionSupportPlanes | Flag::RefineSearch | Flag::TangentEps | Flag::ProximityR | Flag::ProximityAngle | Flag::EmptySpaceFraction | Flag::EmptySpaceDistance => Takes::Number,
            Flag::SubdivideMaxDepth | Flag::SplitWorstMax | Flag::RepairBadSlabsMax | Flag::PostMergeBudget | Flag::RefineSearchIters | Flag::RebalancePasses | Flag::ProximityK => Takes::Count,
            Flag::DebugPrimitive => Takes::Id,
            Flag::ObbOnly | Flag::NoCull | Flag::NoRefine | Flag::Shell | Flag::WeightedCost | Flag::Rebalance | Flag::RejectPancakes | Flag::StripThin | Flag::SplitErrorRegion | Flag::AxisAlign | Flag::WorldAxis | Flag::NoTangentEps | Flag::Proximity | Flag::Metrics | Flag::EmptySpace | Flag::NoSphere | Flag::NoCylinder | Flag::NoCapsule | Flag::NoFrustum | Flag::NoPrism | Flag::Help => Takes::Nothing,
        }
    }

    /// What is said when the value of the option is missing.
    pub open spec fn spec_missing(self) -> Seq<char> {
        match self {
            Flag::Viewer => "--viewer needs a path"@,
            Flag::VolumeThreshold => "--volume-threshold needs f32"@,
            Flag::Quality => "--quality needs a beta value"@,
            Flag::SubdivideBadFaces => "--subdivide-bad-faces needs a threshold-frac-of-diag value"@,
            Flag::SubdivideMaxDepth => "--subdivide-bad-faces-max-depth needs an integer"@,
            Flag::StripThinThreshold => "--strip-thin-threshold needs f32"@,
            Flag::Feasibility => "--feasibility needs a max-frac-of-diag value"@,
            Flag::OutsideSpace => "--outside-space needs a max-frac-of-diag value"@,
            Flag::OutsideFit => "--outside-fit needs a beta value"@,
            Flag::SplitWorst => "--split-worst needs a threshold-frac-of-diag value"@,
            Flag::SplitWorstMax => "--split-worst-max needs an integer"@,
            Flag::RepairBadSlabs => "--repair-bad-slabs needs a threshold-frac-of-diag value"@,
            Flag::RepairBadSlabsMax => "--repair-bad-slabs-max needs an integer"@,
            Flag::PostMergeBudget => "--post-merge-budget needs a primitive count"@,
            Flag::PostMergeHausdorff => "--post-merge-hausdorff needs a threshold-frac-of-diag value"@,
            Flag::ShrinkHighError => "--shrink-high-error needs a threshold-frac-of-diag value"@,
            Flag::DebugSplits => "--debug-splits needs an output .jsonl path"@,
            Flag::DebugPrimitive => "--debug-primitive needs a primitive id"@,
            Flag::CullOverlap => "--cull-overlap needs a 0..1 fraction"@,
            Flag::CollisionSimplify => "--collision-simplify needs a tolerance-frac-of-diag value"@,
            Flag::CollisionTargetScale => "--collision-target-scale needs a positive scale"@,
            Flag::CollisionIgnoreDetail => "--collision-ignore-detail needs a feature-scale fraction"@,
            Flag::CollisionSupportPlanes => "--collision-support-planes needs a plane-distance fraction"@,
            Flag::RefineSearch => "--refine-search needs a threshold-frac-of-diag value"@,
            Flag::RefineSearchIters => "--refine-search-iters needs an integer"@,
            Flag::TangentEps => "--tangent-eps needs f32"@,
            Flag::RebalancePasses => "--rebalance-passes needs usize"@,
            Flag::ProximityR => "--proximity-r needs f32"@,
            Flag::ProximityK => "--proximity-k needs usize"@,
            Flag::ProximityAngle => "--proximity-angle needs degrees"@,
            Flag::MetricsJson => "--metrics-json needs a path"@,
            Flag::EmptySpaceFraction => "--empty-space-fraction needs f32"@,
            Flag::EmptySpaceDistance => "--empty-space-distance needs f32"@,
            _ => ""@,
        }
    }

    /// What is said when the value of the option is missing.
    pub fn missing(self) -> (m: &'static str)
        ensures
            m@ == self.spec_missing(),
    {
        match self {
            Flag::Viewer => "--viewer needs a path",
            Flag::VolumeThreshold => "--volume-threshold needs f32",
            Flag::Quality => "--quality needs a beta value",
            Flag::SubdivideBadFaces => "--subdivide-bad-faces needs a threshold-frac-of-diag value",
            Flag::SubdivideMaxDepth => "--subdivide-bad-faces-max-depth needs an integer",
            Flag::StripThinThreshold => "--strip-thin-threshold needs f32",
            Flag::Feasibility => "--feasibility needs a max-frac-of-diag value",
            Flag::OutsideSpace => "--outside-space needs a max-frac-of-diag value",
            Flag::OutsideFit => "--outside-fit needs a beta value",
            Flag::SplitWorst => "--split-worst needs a threshold-frac-of-diag value",
            Flag::SplitWorstMax => "--split-worst-max needs an integer",
            Flag::RepairBadSlabs => "--repair-bad-slabs needs a threshold-frac-of-diag value",
            Flag::RepairBadSlabsMax => "--repair-bad-slabs-max needs an integer",
            Flag::PostMergeBudget => "--post-merge-budget needs a primitive count",
            Flag::PostMergeHausdorff => "--post-merge-hausdorff needs a threshold-frac-of-diag value",
            Flag::ShrinkHighError => "--shrink-high-error needs a threshold-frac-of-diag value",
            Flag::DebugSplits => "--debug-splits needs an output .jsonl path",
            Flag::DebugPrimitive => "--debug-primitive needs a primitive id",
            Flag::CullOverlap => "--cull-overlap needs a 0..1 fraction",
            Flag::CollisionSimplify => "--collision-simplify needs a tolerance-frac-of-diag value",
            Flag::CollisionTargetScale => "--collision-target-scale needs a positive scale",
            Flag::CollisionIgnoreDetail => "--collision-ignore-detail needs a feature-scale fraction",
            Flag::CollisionSupportPlanes => "--collision-support-planes needs a plane-distance fraction",
            Flag::RefineSearch => "--refine-search needs a threshold-frac-of-diag value",
            Flag::RefineSearchIters => "--refine-search-iters needs an integer",
            Flag::TangentEps => "--tangent-eps needs f32",
            Flag::RebalancePasses => "--rebalance-passes needs usize",
            Flag::ProximityR => "--proximity-r needs f32",
            Flag::ProximityK => "--proximity-k needs usize",
            Flag::ProximityAngle => "--proximity-angle needs degrees",
            Flag::MetricsJson => "--metrics-json needs a path",
            Flag::EmptySpaceFraction => "--empty-space-fraction needs f32",
            Flag::EmptySpaceDistance => "--empty-space-distance needs f32",
            _ => "",
        }
    }

    /// What is said when the value of the option cannot be read.
    pub open spec fn spec_bad(self) -> Seq<char> {
        match self {
            Flag::VolumeThreshold | Flag::SubdivideBadFaces | Flag::StripThinThreshold | Flag::Feasibility | Flag::OutsideSpace | Flag::OutsideFit | Flag::SplitWorst | Flag::RepairBadSlabs | Flag::PostMergeHausdorff | Flag::ShrinkHighError | Flag::CullOverlap | Flag::CollisionSimplify | Flag::CollisionTargetScale | Flag::CollisionIgnoreDetail | Flag::CollisionSupportPlanes | Flag::RefineSearch | Flag::TangentEps | Flag::ProximityR | Flag::ProximityAngle | Flag::EmptySpaceFraction | Flag::EmptySpaceDistance => "not a float"@,
            Flag::Quality => "--quality beta must be f32"@,
            Flag::SubdivideMaxDepth | Flag::SplitWorstMax | Flag::RepairBadSlabsMax | Flag::PostMergeBudget | Flag::DebugPrimitive | Flag::RefineSearchIters | Flag::RebalancePasses | Flag::ProximityK => "not an integer"@,
            _ => ""@,
        }
    }

    /// What is said when the value of the option cannot be read.
    pub fn bad(self) -> (m: &'static str)
        ensures
            m@ == self.spec_bad(),
    {
        match self {
            Flag::VolumeThreshold | Flag::SubdivideBadFaces | Flag::StripThinThreshold | Flag::Feasibility | Flag::OutsideSpace | Flag::OutsideFit | Flag::SplitWorst | Flag::RepairBadSlabs | Flag::PostMergeHausdorff | Flag::ShrinkHighError | Flag::CullOverlap | Flag::CollisionSimplify | Flag::CollisionTargetScale | Flag::CollisionIgnoreDetail | Flag::CollisionSupportPlanes | Flag::RefineSearch | Flag::TangentEps | Flag::ProximityR | Flag::ProximityAngle | Flag::EmptySpaceFraction | Flag::EmptySpaceDistance => "not a float",
            Flag::Quality => "--quality beta must be f32",
            Flag::SubdivideMaxDepth | Flag::SplitWorstMax | Flag::RepairBadSlabsMax | Flag::PostMergeBudget | Flag::DebugPrimitive | Flag::RefineSearchIters | Flag::RebalancePasses | Flag::ProximityK => "not an integer",
            _ => "",
        }
    }

}

/// The value of an option. Of the fields, the one that the option takes
/// counts.
#[derive(Clone, Copy, Debug, PartialEq, Eq, Structural)]
pub struct Value {
    /// Which argument it is.
    pub pos: usize,
    pub number: Number,
    pub count: usize,
    pub id: u32,
}

/// The settings asked for.
#[derive(Clone, Copy, Debug)]
pub struct Settings {
    pub volume_threshold_frac: Scalar,
    pub mask: PrimMask,
    pub obb_only: bool,
    pub cull_redundant: bool,
    pub empty_space: Option<(Scalar, Scalar)>,
    pub refine_orient: bool,
    pub quality_beta: Scalar,
    pub shell_aware: bool,
    pub proximity: Option<(Scalar, usize, Scalar)>,
    pub weighted_cost: bool,
    pub rebalance: Option<usize>,
    pub reject_pancakes: bool,
    pub subdivide_bad_faces: Option<(Scalar, usize)>,
    pub strip_thin_obbs: Option<Scalar>,
    pub feasibility: Option<Scalar>,
    pub outside_space: Option<Scalar>,
    pub outside_fit_beta: Scalar,
    pub split_worst: Option<(Scalar, usize)>,
    pub repair_bad_slabs: Option<(Scalar, usize)>,
    pub post_merge_target: Option<usize>,
    pub post_merge_hausdorff: Option<Scalar>,
    pub shrink_high_error: Option<Scalar>,
    pub split_error_region: bool,
    pub split_debug_primitive: Option<u32>,
    pub cull_overlap: Option<Scalar>,
    pub collision_simplify: Option<Scalar>,
    pub collision_target_scale: Option<Scalar>,
    pub collision_ignore_detail: Option<Scalar>,
    pub collision_support_planes: Option<Scalar>,
    pub axis_align: bool,
    pub world_axis_align: bool,
    pub refine_search: Option<(Scalar, usize)>,
    pub tangent_eps: Scalar,
    pub metrics: bool,
}

impl Settings {
    /// The defaults.
    pub open spec fn spec_initial() -> Settings {
        Settings {
            volume_threshold_frac: Scalar { bits: 0x7f80_0000 },
            mask: PrimMask { obb: true, sphere: true, cylinder: true, capsule: true, frustum: true, prism: true },
            obb_only: false,
            cull_redundant: true,
            empty_space: None,
            refine_orient: true,
            quality_beta: Scalar { bits: 0 },
            shell_aware: false,
            proximity: None,
            weighted_cost: false,
            rebalance: None,
            reject_pancakes: false,
            subdivide_bad_faces: None,
            strip_thin_obbs: None,
            feasibility: None,
            outside_space: None,
            outside_fit_beta: Scalar { bits: 0 },
            split_worst: None,
            repair_bad_slabs: None,
            post_merge_target: None,
            post_merge_hausdorff: None,
            shrink_high_error: None,
            split_error_region: false,
            split_debug_primitive: None,
            cull_overlap: None,
            collision_simplify: None,
            collision_target_scale: None,
            collision_ignore_detail: None,
            collision_support_planes: None,
            axis_align: false,
            world_axis_align: false,
            refine_search: None,
            tangent_eps: Scalar { bits: 0x3c23_d70a },
            metrics: false,
        }
    }

    /// The defaults.
    pub fn initial() -> (d: Settings)
        ensures
            d == Settings::spec_initial(),
    {
        Settings {
            volume_threshold_frac: Scalar { bits: 0x7f80_0000 },
            mask: PrimMask { obb: true, sphere: true, cylinder: true, capsule: true, frustum: true, prism: true },
            obb_only: false,
            cull_redundant: true,
            empty_space: None,
            refine_orient: true,
            quality_beta: Scalar { bits: 0 },
            shell_aware: false,
            proximity: None,
            weighted_cost: false,
            rebalance: None,
            reject_pancakes: false,
            subdivide_bad_faces: None,
            strip_thin_obbs: None,
            feasibility: None,
            outside_space: None,
            outside_fit_beta: Scalar { bits: 0 },
            split_worst: None,
            repair_bad_slabs: None,
            post_merge_target: None,
            post_merge_hausdorff: None,
            shrink_high_error: None,
            split_error_region: false,
            split_debug_primitive: None,
            cull_overlap: None,
            collision_simplify: None,
            collision_target_scale: None,
            collision_ignore_detail: None,
            collision_support_planes: None,
            axis_align: false,
            world_axis_align: false,
            refine_search: None,
            tangent_eps: Scalar { bits: 0x3c23_d70a },
            metrics: false,
        }
    }

    /// The settings once an option with its value is added.
    #[verifier::opaque]
    pub open spec fn with(self, flag: Flag, v: Value) -> Settings {
        let d = self;
        match flag {
            Flag::VolumeThreshold => Settings { volume_threshold_frac: v.number.value, ..d },
            Flag::ObbOnly => Settings { obb_only: true, ..d },
            Flag::NoCull => Settings { cull_redundant: false, ..d },
            Flag::NoRefine => Settings { refine_orient: false, ..d },
            Flag::Quality => Settings { quality_beta: v.number.value, ..d },
            Flag::Shell => Settings { shell_aware: true, ..d },
            Flag::WeightedCost => Settings { weighted_cost: true, ..d },
            Flag::Rebalance => Settings { rebalance: Some(match d.rebalance { Some(n) => n, None => 5 }), ..d },
            Flag::RejectPancakes => Settings { reject_pancakes: true, ..d },
            Flag::SubdivideBadFaces => Settings { subdivide_bad_faces: Some((v.number.value, match d.subdivide_bad_faces { Some(p) => p.1, None => 1 })), ..d },
            Flag::SubdivideMaxDepth => Settings { subdivide_bad_faces: Some((match d.subdivide_bad_faces { Some(p) => p.0, None => Scalar { bits: 0x3d4c_cccd } }, v.count)), ..d },
            Flag::StripThin => Settings { strip_thin_obbs: Some(match d.strip_thin_obbs { Some(f) => f, None => Scalar { bits: 0x38d1_b717 } }), ..d },
            Flag::StripThinThreshold => Settings { strip_thin_obbs: Some(v.number.value), ..d },
            Flag::Feasibility => Settings { feasibility: Some(v.number.value), ..d },
            Flag::OutsideSpace => Settings { outside_space: Some(v.number.value), ..d },
            Flag::OutsideFit => Settings { outside_fit_beta: v.number.value, ..d },
            Flag::SplitWorst => Settings { split_worst: Some((v.number.value, match d.split_worst { Some(p) => p.1, None => 32 })), ..d },
            Flag::SplitWorstMax => Settings { split_worst: Some((match d.split_worst { Some(p) => p.0, None => Scalar { bits: 0x3d4c_cccd } }, v.count)), ..d },
            Flag::RepairBadSlabs => Settings { repair_bad_slabs: Some((v.number.value, match d.repair_bad_slabs { Some(p) => p.1, None => 32 })), ..d },
            Flag::RepairBadSlabsMax => Settings { repair_bad_slabs: Some((match d.repair_bad_slabs { Some(p) => p.0, None => Scalar { bits: 0x3cf5_c28f } }, v.count)), ..d },
            Flag::PostMergeBudget => Settings { post_merge_target: Some(v.count), ..d },
            Flag::PostMergeHausdorff => Settings { post_merge_hausdorff: Some(v.number.value), ..d },
            Flag::ShrinkHighError => Settings { shrink_high_error: Some(v.number.value), ..d },
            Flag::SplitErrorRegion => Settings { split_error_region: true, split_worst: Some(match d.split_worst { Some(p) => p, None => (Scalar { bits: 0x3d4c_cccd }, 32) }), ..d },
            Flag::DebugSplits => Settings { split_worst: Some(match d.split_worst { Some(p) => p, None => (Scalar { bits: 0x3d4c_cccd }, 32) }), ..d },
            Flag::DebugPrimitive => Settings { split_debug_primitive: Some(v.id), ..d },
            Flag::CullOverlap => Settings { cull_overlap: Some(v.number.value), ..d },
            Flag::CollisionSimplify => Settings { collision_simplify: Some(v.number.value), ..d },
            Flag::CollisionTargetScale => Settings { collision_target_scale: Some(v.number.value), ..d },
            Flag::CollisionIgnoreDetail => Settings { collision_ignore_detail: Some(v.number.value), ..d },
            Flag::CollisionSupportPlanes => Settings { collision_support_planes: Some(v.number.value), ..d },
            Flag::AxisAlign => Settings { axis_align: true, ..d },
            Flag::WorldAxis => Settings { world_axis_align: true, ..d },
            Flag::RefineSearch => Settings { refine_search: Some((v.number.value, match d.refine_search { Some(p) => p.1, None => 20 })), ..d },
            Flag::RefineSearchIters => Settings { refine_search: Some((match d.refine_search { Some(p) => p.0, None => Scalar { bits: 0x3d4c_cccd } }, v.count)), ..d },
            Flag::NoTangentEps => Settings { tangent_eps: Scalar { bits: 0 }, ..d },
            Flag::TangentEps => Settings { tangent_eps: v.number.value, ..d },
            Flag::RebalancePasses => Settings { rebalance: Some(v.count), ..d },
            Flag::Proximity => Settings { proximity: Some(match d.proximity { Some(p) => p, None => (Scalar { bits: 0x3d4c_cccd }, 2, Scalar { bits: 0x3f49_0fdb }) }), ..d },
            Flag::ProximityR => Settings { proximity: Some(match d.proximity { Some(p) => (v.number.value, p.1, p.2), None => (v.number.value, 2, Scalar { bits: 0x3f49_0fdb }) }), ..d },
            Flag::ProximityK => Settings { proximity: Some(match d.proximity { Some(p) => (p.0, v.count, p.2), None => (Scalar { bits: 0x3d4c_cccd }, v.count, Scalar { bits: 0x3f49_0fdb }) }), ..d },
            Flag::ProximityAngle => Settings { proximity: Some(match d.proximity { Some(p) => (p.0, p.1, v.number.in_radians), None => (Scalar { bits: 0x3d4c_cccd }, 2, v.number.in_radians) }), ..d },
            Flag::Metrics => Settings { metrics: true, ..d },
            Flag::MetricsJson => Settings { metrics: true, ..d },
            Flag::EmptySpace => Settings { empty_space: Some(match d.empty_space { Some(p) => p, None => (Scalar { bits: 0x3e80_0000 }, Scalar { bits: 0x3c23_d70a }) }), ..d },
            Flag::EmptySpaceFraction => Settings { empty_space: Some((v.number.value, match d.empty_space { Some(p) => p.1, None => Scalar { bits: 0x3c23_d70a } })), ..d },
            Flag::EmptySpaceDistance => Settings { empty_space: Some((match d.empty_space { Some(p) => p.0, None => Scalar { bits: 0x3e80_0000 } }, v.number.value)), ..d },
            Flag::NoSphere => Settings { mask: PrimMask { sphere: false, ..d.mask }, ..d },
            Flag::NoCylinder => Settings { mask: PrimMask { cylinder: false, ..d.mask }, ..d },
            Flag::NoCapsule => Settings { mask: PrimMask { capsule: false, ..d.mask }, ..d },
            Flag::NoFrustum => Settings { mask: PrimMask { frustum: false, ..d.mask }, ..d },
            Flag::NoPrism => Settings { mask: PrimMask { prism: false, ..d.mask }, ..d },
            Flag::Viewer | Flag::Help => d,
        }
    }

    /// The settings once an option with its value is added.
    pub fn set(self, flag: Flag, v: Value) -> (res: Settings)
        ensures
            res == self.with(flag, v),
    {
        reveal(Settings::with);
        let d: Settings = self;
        match flag {
            Flag::VolumeThreshold => Settings { volume_threshold_frac: v.number.value, ..d },
            Flag::ObbOnly => Settings { obb_only: true, ..d },
            Flag::NoCull => Settings { cull_redundant: false, ..d },
            Flag::NoRefine => Settings { refine_orient: false, ..d },
            Flag::Quality => Settings { quality_beta: v.number.value, ..d },
            Flag::Shell => Settings { shell_aware: true, ..d },
            Flag::WeightedCost => Settings { weighted_cost: true, ..d },
            Flag::Rebalance => Settings { rebalance: Some(match d.rebalance { Some(n) => n, None => 5 }), ..d },
            Flag::RejectPancakes => Settings { reject_pancakes: true, ..d },
            Flag::SubdivideBadFaces => Settings { subdivide_bad_faces: Some((v.number.value, match d.subdivide_bad_faces { Some(p) => p.1, None => 1 })), ..d },
            Flag::SubdivideMaxDepth => Settings { subdivide_bad_faces: Some((match d.subdivide_bad_faces { Some(p) => p.0, None => Scalar { bits: 0x3d4c_cccd } }, v.count)), ..d },
            Flag::StripThin => Settings { strip_thin_obbs: Some(match d.strip_thin_obbs { Some(f) => f, None => Scalar { bits: 0x38d1_b717 } }), ..d },
            Flag::StripThinThreshold => Settings { strip_thin_obbs: Some(v.number.value), ..d },
            Flag::Feasibility => Settings { feasibility: Some(v.number.value), ..d },
            Flag::OutsideSpace => Settings { outside_space: Some(v.number.value), ..d },
            Flag::OutsideFit => Settings { outside_fit_beta: v.number.value, ..d },
            Flag::SplitWorst => Settings { split_worst: Some((v.number.value, match d.split_worst { Some(p) => p.1, None => 32 })), ..d },
            Flag::SplitWorstMax => Settings { split_worst: Some((match d.split_worst { Some(p) => p.0, None => Scalar { bits: 0x3d4c_cccd } }, v.count)), ..d },
            Flag::RepairBadSlabs => Settings { repair_bad_slabs: Some((v.number.value, match d.repair_bad_slabs { Some(p) => p.1, None => 32 })), ..d },
            Flag::RepairBadSlabsMax => Settings { repair_bad_slabs: Some((match d.repair_bad_slabs { Some(p) => p.0, None => Scalar { bits: 0x3cf5_c28f } }, v.count)), ..d },
            Flag::PostMergeBudget => Settings { post_merge_target: Some(v.count), ..d },
            Flag::PostMergeHausdorff => Settings { post_merge_hausdorff: Some(v.number.value), ..d },
            Flag::ShrinkHighError => Settings { shrink_high_error: Some(v.number.value), ..d },
            Flag::SplitErrorRegion => Settings { split_error_region: true, split_worst: Some(match d.split_worst { Some(p) => p, None => (Scalar { bits: 0x3d4c_cccd }, 32) }), ..d },
            Flag::DebugSplits => Settings { split_worst: Some(match d.split_worst { Some(p) => p, None => (Scalar { bits: 0x3d4c_cccd }, 32) }), ..d },
            Flag::DebugPrimitive => Settings { split_debug_primitive: Some(v.id), ..d },
            Flag::CullOverlap => Settings { cull_overlap: Some(v.number.value), ..d },
            Flag::CollisionSimplify => Settings { collision_simplify: Some(v.number.value), ..d },
            Flag::CollisionTargetScale => Settings { collision_target_scale: Some(v.number.value), ..d },
            Flag::CollisionIgnoreDetail => Settings { collision_ignore_detail: Some(v.number.value), ..d },
            Flag::CollisionSupportPlanes => Settings { collision_support_planes: Some(v.number.value), ..d },
            Flag::AxisAlign => Settings { axis_align: true, ..d },
            Flag::WorldAxis => Settings { world_axis_align: true, ..d },
            Flag::RefineSearch => Settings { refine_search: Some((v.number.value, match d.refine_search { Some(p) => p.1, None => 20 })), ..d },
            Flag::RefineSearchIters => Settings { refine_search: Some((match d.refine_search { Some(p) => p.0, None => Scalar { bits: 0x3d4c_cccd } }, v.count)), ..d },
            Flag::NoTangentEps => Settings { tangent_eps: Scalar { bits: 0 }, ..d },
            Flag::TangentEps => Settings { tangent_eps: v.number.value, ..d },
            Flag::RebalancePasses => Settings { rebalance: Some(v.count), ..d },
            Flag::Proximity => Settings { proximity: Some(match d.proximity { Some(p) => p, None => (Scalar { bits: 0x3d4c_cccd }, 2, Scalar { bits: 0x3f49_0fdb }) }), ..d },
            Flag::ProximityR => Settings { proximity: Some(match d.proximity { Some(p) => (v.number.value, p.1, p.2), None => (v.number.value, 2, Scalar { bits: 0x3f49_0fdb }) }), ..d },
            Flag::ProximityK => Settings { proximity: Some(match d.proximity { Some(p) => (p.0, v.count, p.2), None => (Scalar { bits: 0x3d4c_cccd }, v.count, Scalar { bits: 0x3f49_0fdb }) }), ..d },
            Flag::ProximityAngle => Settings { proximity: Some(match d.proximity { Some(p) => (p.0, p.1, v.number.in_radians), None => (Scalar { bits: 0x3d4c_cccd }, 2, v.number.in_radians) }), ..d },
            Flag::Metrics => Settings { metrics: true, ..d },
            Flag::MetricsJson => Settings { metrics: true, ..d },
            Flag::EmptySpace => Settings { empty_space: Some(match d.empty_space { Some(p) => p, None => (Scalar { bits: 0x3e80_0000 }, Scalar { bits: 0x3c23_d70a }) }), ..d },
            Flag::EmptySpaceFraction => Settings { empty_space: Some((v.number.value, match d.empty_space { Some(p) => p.1, None => Scalar { bits: 0x3c23_d70a } })), ..d },
            Flag::EmptySpaceDistance => Settings { empty_space: Some((match d.empty_space { Some(p) => p.0, None => Scalar { bits: 0x3e80_0000 } }, v.number.value)), ..d },
            Flag::NoSphere => Settings { mask: PrimMask { sphere: false, ..d.mask }, ..d },
            Flag::NoCylinder => Settings { mask: PrimMask { cylinder: false, ..d.mask }, ..d },
            Flag::NoCapsule => Settings { mask: PrimMask { capsule: false, ..d.mask }, ..d },
            Flag::NoFrustum => Settings { mask: PrimMask { frustum: false, ..d.mask }, ..d },
            Flag::NoPrism => Settings { mask: PrimMask { prism: false, ..d.mask }, ..d },
            Flag::Viewer | Flag::Help => d,
        }
    }
}

/// The arguments that are texts, by their positions: those of options, and the
/// first three that are no options.
#[derive(Clone, Copy, Debug, PartialEq, Eq, Structural)]
pub struct Texts {
    pub viewer_html: Option<usize>,
    pub split_debug_json: Option<usize>,
    pub metrics_json: Option<usize>,
    pub first: Option<usize>,
    pub second: Option<usize>,
    pub third: Option<usize>,
}

impl Texts {
    pub open spec fn none() -> Texts {
        Texts {
            viewer_html: None,
            split_debug_json: None,
            metrics_json: None,
            first: None,
            second: None,
            third: None,
        }
    }

    /// The argument at `pos` is the value of an option.
    pub open spec fn with(self, flag: Flag, pos: usize) -> Texts {
        match flag {
            Flag::Viewer => Texts { viewer_html: Some(pos), ..self },
            Flag::DebugSplits => Texts { split_debug_json: Some(pos), ..self },
            Flag::MetricsJson => Texts { metrics_json: Some(pos), ..self },
            _ => self,
        }
    }

    /// The argument at `pos` is no option.
    pub open spec fn with_positional(self, pos: usize) -> Texts {
        if self.first is None {
            Texts { first: Some(pos), ..self }
        } else if self.second is None {
            Texts { second: Some(pos), ..self }
        } else if self.third is None {
            Texts { third: Some(pos), ..self }
        } else {
            self
        }
    }

    /// The positions are below `n`, and a second one comes after a first.
    pub open spec fn below(self, n: int) -> bool {
        &&& self.viewer_html matches Some(p) ==> p < n
        &&& self.split_debug_json matches Some(p) ==> p < n
        &&& self.metrics_json matches Some(p) ==> p < n
        &&& self.first matches Some(p) ==> p < n
        &&& self.second matches Some(p) ==> p < n
        &&& self.third matches Some(p) ==> p < n
        &&& self.second is Some ==> self.first is Some
    }

    fn add(&mut self, flag: Flag, pos: usize)
        ensures
            *final(self) == old(self).with(flag, pos),
    {
        match flag {
            Flag::Viewer => {
                self.viewer_html = Some(pos);
            },
            Flag::DebugSplits => {
                self.split_debug_json = Some(pos);
            },
            Flag::MetricsJson => {
                self.metrics_json = Some(pos);
            },
            _ => {},
        }
    }

    fn add_positional(&mut self, pos: usize)
        ensures
            *final(self) == old(self).with_positional(pos),
    {
        if self.first.is_none() {
            self.first = Some(pos);
        } else if self.second.is_none() {
            self.second = Some(pos);
        } else if self.third.is_none() {
            self.third = Some(pos);
        }
    }
}

/// Why a command line is refused.
#[derive(Clone, Copy, Debug, PartialEq, Eq, Structural)]
pub enum ArgError {
    /// The option stands last and takes a value.
    MissingValue(Flag),
    /// The value of the option cannot be read.
    BadValue(Flag),
    MissingPositional,
    DebugPrimitiveAlone,
    SubdivideFraction,
    SubdivideDepth,
    SimplifyFraction,
    OutsideFraction,
    RepairFraction,
    RepairCount,
    BudgetCount,
    HausdorffFraction,
    HausdorffAlone,
    ShrinkFraction,
    OutsideFitBeta,
    OutsideFitAlone,
    TargetScale,
    IgnoreDetailFraction,
    SupportPlanesFraction,
    BadTarget,
}

impl ArgError {
    pub open spec fn spec_message(self) -> Seq<char> {
        match self {
            ArgError::MissingValue(flag) => flag.spec_missing(),
            ArgError::BadValue(flag) => flag.spec_bad(),
            ArgError::MissingPositional => "missing positional args"@,
            ArgError::DebugPrimitiveAlone => "--debug-primitive requires --debug-splits <path>"@,
            ArgError::SubdivideFraction => "--subdivide-bad-faces must be a positive finite fraction"@,
            ArgError::SubdivideDepth => "--subdivide-bad-faces-max-depth must be at least 1"@,
            ArgError::SimplifyFraction => "--collision-simplify must be a positive finite fraction"@,
            ArgError::OutsideFraction => "--outside-space must be a positive finite fraction"@,
            ArgError::RepairFraction => "--repair-bad-slabs must be a positive finite fraction"@,
            ArgError::RepairCount => "--repair-bad-slabs-max must be at least 1"@,
            ArgError::BudgetCount => "--post-merge-budget must be at least 1"@,
            ArgError::HausdorffFraction => "--post-merge-hausdorff must be a positive finite fraction"@,
            ArgError::HausdorffAlone => "--post-merge-hausdorff requires --post-merge-budget <n>"@,
            ArgError::ShrinkFraction => "--shrink-high-error must be a positive finite fraction"@,
            ArgError::OutsideFitBeta => "--outside-fit must be a positive finite beta"@,
            ArgError::OutsideFitAlone => "--outside-fit requires --outside-space <f>"@,
            ArgError::TargetScale => "--collision-target-scale must be a positive finite scale"@,
            ArgError::IgnoreDetailFraction => "--collision-ignore-detail must be a positive finite fraction"@,
            ArgError::SupportPlanesFraction => "--collision-support-planes must be a positive finite fraction"@,
            ArgError::BadTarget => "target_n must be a positive integer"@,
        }
    }

    /// The message for the user.
    pub fn message(self) -> (m: &'static str)
        ensures
            m@ == self.spec_message(),
    {
        match self {
            ArgError::MissingValue(flag) => flag.missing(),
            ArgError::BadValue(flag) => flag.bad(),
            ArgError::MissingPositional => "missing positional args",
            ArgError::DebugPrimitiveAlone => "--debug-primitive requires --debug-splits <path>",
            ArgError::SubdivideFraction => "--subdivide-bad-faces must be a positive finite fraction",
            ArgError::SubdivideDepth => "--subdivide-bad-faces-max-depth must be at least 1",
            ArgError::SimplifyFraction => "--collision-simplify must be a positive finite fraction",
            ArgError::OutsideFraction => "--outside-space must be a positive finite fraction",
            ArgError::RepairFraction => "--repair-bad-slabs must be a positive finite fraction",
            ArgError::RepairCount => "--repair-bad-slabs-max must be at least 1",
            ArgError::BudgetCount => "--post-merge-budget must be at least 1",
            ArgError::HausdorffFraction => "--post-merge-hausdorff must be a positive finite fraction",
            ArgError::HausdorffAlone => "--post-merge-hausdorff requires --post-merge-budget <n>",
            ArgError::ShrinkFraction => "--shrink-high-error must be a positive finite fraction",
            ArgError::OutsideFitBeta => "--outside-fit must be a positive finite beta",
            ArgError::OutsideFitAlone => "--outside-fit requires --outside-space <f>",
            ArgError::TargetScale => "--collision-target-scale must be a positive finite scale",
            ArgError::IgnoreDetailFraction => "--collision-ignore-detail must be a positive finite fraction",
            ArgError::SupportPlanesFraction => "--collision-support-planes must be a positive finite fraction",
            ArgError::BadTarget => "target_n must be a positive integer",
        }
    }
}

/// Where the arguments lead.
pub enum Scan {
    /// They are refused.
    Refused(ArgError),
    /// They ask for the usage text.
    Help,
    /// They ask for a run.
    End(Settings, Texts),
}

pub open spec fn value_at(pos: int) -> Value {
    Value {
        pos: pos as usize,
        number: Number { value: Scalar { bits: 0 }, in_radians: Scalar { bits: 0 } },
        count: 0,
        id: 0,
    }
}

/// The text is a decimal number of at most `max`.
pub open spec fn is_count(text: Seq<char>, max: int) -> bool {
    is_decimal(text) && digits_value(unsigned_digits(text)) <= max
}

/// The value that the option takes from the argument at `pos`, if it can be
/// read.
pub open spec fn value_read(flag: Flag, args: Seq<ArgView>, pos: int) -> Option<Value> {
    let text = args[pos].text;
    match flag.spec_takes() {
        Takes::Nothing | Takes::Path => Some(value_at(pos)),
        Takes::Number => match args[pos].number {
            Some(number) => Some(Value { number, ..value_at(pos) }),
            None => None,
        },
        Takes::Count => if is_count(text, usize::MAX as int) {
            Some(Value { count: digits_value(unsigned_digits(text)) as usize, ..value_at(pos) })
        } else {
            None
        },
        Takes::Id => if is_count(text, u32::MAX as int) {
            Some(Value { id: digits_value(unsigned_digits(text)) as u32, ..value_at(pos) })
        } else {
            None
        },
    }
}

/// Reads the arguments from position `i` on. The first one that cannot be
/// read refuses them all; help ends the reading.
pub open spec fn scan(args: Seq<ArgView>, i: int, d: Settings, t: Texts) -> Scan
    decreases args.len() - i,
{
    if i < 0 || i >= args.len() {
        Scan::End(d, t)
    } else {
        match flag_spelled(args[i].text) {
            None => scan(args, i + 1, d, t.with_positional(i as usize)),
            Some(flag) => if flag == Flag::Help {
                Scan::Help
            } else if flag.spec_takes() == Takes::Nothing {
                scan(args, i + 1, d.with(flag, value_at(i)), t)
            } else if i + 1 >= args.len() {
                Scan::Refused(ArgError::MissingValue(flag))
            } else {
                match value_read(flag, args, i + 1) {
                    None => Scan::Refused(ArgError::BadValue(flag)),
                    Some(v) => scan(args, i + 2, d.with(flag, v), t.with(flag, (i + 1) as usize)),
                }
            },
        }
    }
}

pub open spec fn positive_finite(x: Scalar) -> bool {
    x.spec_is_finite() && (Scalar { bits: 0 }).spec_lt(x)
}

pub open spec fn absent_or_positive(x: Option<Scalar>) -> bool {
    match x {
        Some(x) => positive_finite(x),
        None => true,
    }
}

/// The first objection to the options, once all arguments have been read.
pub open spec fn objection(d: Settings, t: Texts) -> Option<ArgError> {
    if t.second is None {
        Some(ArgError::MissingPositional)
    } else if d.split_debug_primitive is Some && t.split_debug_json is None {
        Some(ArgError::DebugPrimitiveAlone)
    } else if d.subdivide_bad_faces matches Some(p) && !positive_finite(p.0) {
        Some(ArgError::SubdivideFraction)
    } else if d.subdivide_bad_faces matches Some(p) && p.1 == 0 {
        Some(ArgError::SubdivideDepth)
    } else if !absent_or_positive(d.collision_simplify) {
        Some(ArgError::SimplifyFraction)
    } else if !absent_or_positive(d.outside_space) {
        Some(ArgError::OutsideFraction)
    } else if d.repair_bad_slabs matches Some(p) && !positive_finite(p.0) {
        Some(ArgError::RepairFraction)
    } else if d.repair_bad_slabs matches Some(p) && p.1 == 0 {
        Some(ArgError::RepairCount)
    } else if d.post_merge_target == Some(0usize) {
        Some(ArgError::BudgetCount)
    } else if !absent_or_positive(d.post_merge_hausdorff) {
        Some(ArgError::HausdorffFraction)
    } else if d.post_merge_hausdorff is Some && d.post_merge_target is None {
        Some(ArgError::HausdorffAlone)
    } else if !absent_or_positive(d.shrink_high_error) {
        Some(ArgError::ShrinkFraction)
    } else if !is_zero(d.outside_fit_beta) && !positive_finite(d.outside_fit_beta) {
        Some(ArgError::OutsideFitBeta)
    } else if !is_zero(d.outside_fit_beta) && d.outside_space is None {
        Some(ArgError::OutsideFitAlone)
    } else if !absent_or_positive(d.collision_target_scale) {
        Some(ArgError::TargetScale)
    } else if !absent_or_positive(d.collision_ignore_detail) {
        Some(ArgError::IgnoreDetailFraction)
    } else if !absent_or_positive(d.collision_support_planes) {
        Some(ArgError::SupportPlanesFraction)
    } else {
        None
    }
}

/// The number is one of the two zeros.
pub open spec fn is_zero(x: Scalar) -> bool {
    !x.spec_is_nan() && x.spec_key() == 0
}

fn is_positive_finite(x: Scalar) -> (b: bool)
    ensures
        b == positive_finite(x),
{
    x.is_finite() && Scalar::zero().lt(x)
}

fn is_absent_or_positive(x: Option<Scalar>) -> (b: bool)
    ensures
        b == absent_or_positive(x),
{
    match x {
        Some(x) => is_positive_finite(x),
        None => true,
    }
}

impl Settings {
    /// The threshold of the final compression: the given one, else that of
    /// the slab repair, else that of the split pass, else 0.03.
    pub open spec fn budget(self) -> Option<(usize, Scalar)> {
        match self.post_merge_target {
            None => None,
            Some(target) => Some(
                (
                    target,
                    match (self.post_merge_hausdorff, self.repair_bad_slabs, self.split_worst) {
                        (Some(f), _, _) => f,
                        (None, Some(p), _) => p.0,
                        (None, None, Some(p)) => p.0,
                        (None, None, None) => Scalar { bits: 0x3cf5_c28f },
                    },
                ),
            ),
        }
    }

    /// The kinds of primitives asked for: boxes alone, or all that are not
    /// switched off.
    pub open spec fn kinds(self) -> PrimMask {
        if self.obb_only {
            PrimMask { obb: true, sphere: false, cylinder: false, capsule: false, frustum: false, prism: false }
        } else {
            self.mask
        }
    }

    fn check(self, t: &Texts) -> (e: Option<ArgError>)
        ensures
            e == objection(self, *t),
    {
        let d: Settings = self;
        if t.second.is_none() {
            return Some(ArgError::MissingPositional);
        }
        if d.split_debug_primitive.is_some() && t.split_debug_json.is_none() {
            return Some(ArgError::DebugPrimitiveAlone);
        }
        if let Some(p) = d.subdivide_bad_faces {
            if !is_positive_finite(p.0) {
                return Some(ArgError::SubdivideFraction);
            }
            if p.1 == 0 {
                return Some(ArgError::SubdivideDepth);
            }
        }
        if !is_absent_or_positive(d.collision_simplify) {
            return Some(ArgError::SimplifyFraction);
        }
        if !is_absent_or_positive(d.outside_space) {
            return Some(ArgError::OutsideFraction);
        }
        if let Some(p) = d.repair_bad_slabs {
            if !is_positive_finite(p.0) {
                return Some(ArgError::RepairFraction);
            }
            if p.1 == 0 {
                return Some(ArgError::RepairCount);
            }
        }
        if let Some(target) = d.post_merge_target {
            if target == 0 {
                return Some(ArgError::BudgetCount);
            }
        }
        if !is_absent_or_positive(d.post_merge_hausdorff) {
            return Some(ArgError::HausdorffFraction);
        }
        if d.post_merge_hausdorff.is_some() && d.post_merge_target.is_none() {
            return Some(ArgError::HausdorffAlone);
        }
        if !is_absent_or_positive(d.shrink_high_error) {
            return Some(ArgError::ShrinkFraction);
        }
        if d.outside_fit_beta.is_nan() || d.outside_fit_beta.key() != 0 {
            if !is_positive_finite(d.outside_fit_beta) {
                return Some(ArgError::OutsideFitBeta);
            }
            if d.outside_space.is_none() {
                return Some(ArgError::OutsideFitAlone);
            }
        }
        if !is_absent_or_positive(d.collision_target_scale) {
            return Some(ArgError::TargetScale);
        }
        if !is_absent_or_positive(d.collision_ignore_detail) {
            return Some(ArgError::IgnoreDetailFraction);
        }
        if !is_absent_or_positive(d.collision_support_planes) {
            return Some(ArgError::SupportPlanesFraction);
        }
        None
    }

    fn post_merge_budget(self) -> (b: Option<(usize, Scalar)>)
        ensures
            b == self.budget(),
    {
        match self.post_merge_target {
            None => None,
            Some(target) => {
                let threshold: Scalar = if let Some(f) = self.post_merge_hausdorff {
                    f
                } else if let Some(p) = self.repair_bad_slabs {
                    p.0
                } else if let Some(p) = self.split_worst {
                    p.0
                } else {
                    Scalar { bits: 0x3cf5_c28f }
                };
                Some((target, threshold))
            },
        }
    }
}

/// A command line that has been read.
pub struct CliArgs {
    pub mesh_path: String,
    pub target_n: usize,
    pub out_obj: String,
    pub viewer_html: Option<String>,
    pub split_debug_json: Option<String>,
    pub metrics_json: Option<String>,
    pub enable_mask: PrimMask,
    pub post_merge_budget: Option<(usize, Scalar)>,
    pub settings: Settings,
}

/// What a command line asks for.
pub enum Command {
    Help,
    Run(CliArgs),
}

pub open spec fn is_text_at(text: Option<String>, args: Seq<ArgView>, pos: Option<usize>) -> bool {
    match (text, pos) {
        (Some(t), Some(p)) => t@ == args[p as int].text,
        (None, None) => true,
        _ => false,
    }
}

impl CliArgs {
    /// The command line has these arguments, and they have been read as `d`
    /// and `t`.
    pub open spec fn reads(self, args: Seq<ArgView>, d: Settings, t: Texts) -> bool {
        &&& self.mesh_path@ == args[t.first->0 as int].text
        &&& self.target_n == digits_value(unsigned_digits(args[t.second->0 as int].text))
        &&& self.out_obj@ == (match t.third {
            Some(p) => args[p as int].text,
            None => "obbs.obj"@,
        })
        &&& is_text_at(self.viewer_html, args, t.viewer_html)
        &&& is_text_at(self.split_debug_json, args, t.split_debug_json)
        &&& is_text_at(self.metrics_json, args, t.metrics_json)
        &&& self.enable_mask == d.kinds()
        &&& self.post_merge_budget == d.budget()
        &&& self.settings == d
    }
}

fn text_at(args: &Vec<Arg>, pos: Option<usize>) -> (t: Option<String>)
    requires
        pos matches Some(p) ==> p < args@.len(),
    ensures
        is_text_at(t, arg_views(args@), pos),
{
    match pos {
        Some(p) => Some(args[p].text.clone()),
        None => None,
    }
}

fn read_value(flag: Flag, args: &Vec<Arg>, pos: usize) -> (v: Option<Value>)
    requires
        pos < args@.len(),
    ensures
        v == value_read(flag, arg_views(args@), pos as int),
{
    let zero = Number { value: Scalar { bits: 0 }, in_radians: Scalar { bits: 0 } };
    let bare = Value { pos, number: zero, count: 0, id: 0 };
    assert(bare == value_at(pos as int));
    match flag.takes() {
        Takes::Nothing => Some(bare),
        Takes::Path => Some(bare),
        Takes::Number => match args[pos].number {
            Some(number) => Some(Value { number, ..bare }),
            None => None,
        },
        Takes::Count => match parse_decimal(args[pos].text.as_str(), usize::MAX as u64) {
            Some(n) => Some(Value { count: n as usize, ..bare }),
            None => None,
        },
        Takes::Id => match parse_decimal(args[pos].text.as_str(), u32::MAX as u64) {
            Some(n) => Some(Value { id: n as u32, ..bare }),
            None => None,
        },
    }
}

/// The answer to a command line.
#[verifier::opaque]
pub open spec fn is_answer(args: Seq<ArgView>, res: Result<Command, ArgError>) -> bool {
    match scan(args, 0, Settings::spec_initial(), Texts::none()) {
        Scan::Refused(e) => res == Err::<Command, ArgError>(e),
        Scan::Help => res matches Ok(c) && c is Help,
        Scan::End(d, t) => match objection(d, t) {
            Some(e) => res == Err::<Command, ArgError>(e),
            None => if is_count(args[t.second->0 as int].text, usize::MAX as int) {
                res matches Ok(c) && c matches Command::Run(cli) && cli.reads(args, d, t)
            } else {
                res == Err::<Command, ArgError>(ArgError::BadTarget)
            },
        },
    }
}

/// Reads a command line.
pub fn parse_args(args: &Vec<Arg>) -> (res: Result<Command, ArgError>)
    ensures
        is_answer(arg_views(args@), res),
        match scan(arg_views(args@), 0, Settings::spec_initial(), Texts::none()) {
            Scan::Refused(e) => res == Err::<Command, ArgError>(e),
            Scan::Help => res matches Ok(c) && c is Help,
            Scan::End(d, t) => match objection(d, t) {
                Some(e) => res == Err::<Command, ArgError>(e),
                None => if is_count(args@[t.second->0 as int].text@, usize::MAX as int) {
                    res matches Ok(c) && c matches Command::Run(cli) && cli.reads(arg_views(args@), d, t)
                } else {
                    res == Err::<Command, ArgError>(ArgError::BadTarget)
                },
            },
        },
{
    reveal(is_answer);
    let mut d = Settings::initial();
    let mut t = Texts {
        viewer_html: None,
        split_debug_json: None,
        metrics_json: None,
        first: None,
        second: None,
        third: None,
    };
    let mut i: usize = 0;
    let ghost all = scan(arg_views(args@), 0, Settings::spec_initial(), Texts::none());
    while i < args.len()
        invariant
            i <= args@.len(),
            t.below(i as int),
            all == scan(arg_views(args@), 0, Settings::spec_initial(), Texts::none()),
            scan(arg_views(args@), i as int, d, t) == all,
        decreases args@.len() - i,
    {
        reveal(is_answer);
        assert(arg_views(args@)[i as int].text == args@[i as int].text@);
        match flag_of(&args[i].text) {
            None => {
                t.add_positional(i);
                i += 1;
            },
            Some(flag) => {
                match flag {
                    Flag::Help => {
                        return Ok(Command::Help);
                    },
                    _ => {},
                }
                match flag.takes() {
                    Takes::Nothing => {
                        match read_value(flag, args, i) {
                            Some(v) => {
                                d = d.set(flag, v);
                            },
                            None => {},
                        }
                        i += 1;
                    },
                    _ => {
                        if i + 1 >= args.len() {
                            return Err(ArgError::MissingValue(flag));
                        }
                        match read_value(flag, args, i + 1) {
                            None => {
                                return Err(ArgError::BadValue(flag));
                            },
                            Some(v) => {
                                d = d.set(flag, v);
                                t.add(flag, i + 1);
                            },
                        }
                        i += 2;
                    },
                }
            },
        }
    }
    if let Some(e) = d.check(&t) {
        return Err(e);
    }
    let (first, second): (usize, usize) = match (t.first, t.second) {
        (Some(first), Some(second)) => (first, second),
        _ => {
            return Err(ArgError::MissingPositional);
        },
    };
    let target_n: usize = match parse_decimal(args[second].text.as_str(), usize::MAX as u64) {
        Some(n) => n as usize,
        None => {
            return Err(ArgError::BadTarget);
        },
    };
    let out_obj: String = match t.third {
        Some(p) => args[p].text.clone(),
        None => "obbs.obj".to_owned(),
    };
    let enable_mask: PrimMask = if d.obb_only {
        PrimMask { obb: true, sphere: false, cylinder: false, capsule: false, frustum: false, prism: false }
    } else {
        d.mask
    };
    let cli = CliArgs {
        mesh_path: args[first].text.clone(),
        target_n,
        out_obj,
        viewer_html: text_at(args, t.viewer_html),
        split_debug_json: text_at(args, t.split_debug_json),
        metrics_json: text_at(args, t.metrics_json),
        enable_mask,
        post_merge_budget: d.post_merge_budget(),
        settings: d,
    };
    Ok(Command::Run(cli))
}

/// A text is a number of things where it is a number within the limit.
pub proof fn law_counts_are_within_the_limit(n: nat, max: int, text: Seq<char>)
    ensures
        is_count(crate::text::decimal(n), max) <==> n <= max,
        !is_decimal(text) ==> !is_count(text, max),
        is_count(text, max) ==> digits_value(unsigned_digits(text)) <= max,
{
    crate::text::law_decimal_reads_back(n);
}

} // verus!
