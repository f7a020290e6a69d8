//! What command lines come to.
//!
//! Each option has its own setting. What it does to a line that was read so
//! far, and what a line comes to that holds it alone, is said here field by
//! field.

use crate::cli::{
    ArgError, ArgView, CliArgs, Command, Flag, Number, Scan, Settings, Takes, Texts, flag_spelled, is_answer, is_count,
    objection, positive_finite, scan, value_at, value_read,
};
use crate::prim::PrimMask;
use crate::scalar::Scalar;
use crate::text::{digits_value, unsigned_digits};
use vstd::prelude::*;

verus! {

/// The settings of a line without options.
pub open spec fn defaults() -> Settings {
    Settings {
        volume_threshold_frac: Scalar { bits: 0x7f80_0000 },
        mask: PrimMask { obb: true, sphere: true, cylinder: true, capsule: true, frustum: true, prism: true },
        obb_only: false,
        cull_redundant: true,
        empty_space: None,
        refine_orient: true,
        quality_beta: Scalar { bits: 0 },
        shell_aware: false,
        proximity: None,
        weighted_cost: false,
        rebalance: None,
        reject_pancakes: false,
        subdivide_bad_faces: None,
        strip_thin_obbs: None,
        feasibility: None,
        outside_space: None,
        outside_fit_beta: Scalar { bits: 0 },
        split_worst: None,
        repair_bad_slabs: None,
        post_merge_target: None,
        post_merge_hausdorff: None,
        shrink_high_error: None,
        split_error_region: false,
        split_debug_primitive: None,
        cull_overlap: None,
        collision_simplify: None,
        collision_target_scale: None,
        collision_ignore_detail: None,
        collision_support_planes: None,
        axis_align: false,
        world_axis_align: false,
        refine_search: None,
        tangent_eps: Scalar { bits: 0x3c23_d70a },
        metrics: false,
    }
}

/// The arguments are read to their end, with these settings and texts.
#[verifier::opaque]
pub open spec fn reads_to(args: Seq<ArgView>, d: Settings, t: Texts) -> bool {
    scan(args, 0, Settings::spec_initial(), Texts::none()) == Scan::End(d, t)
}

/// The arguments are refused before their end.
#[verifier::opaque]
pub open spec fn is_refused(args: Seq<ArgView>, e: ArgError) -> bool {
    scan(args, 0, Settings::spec_initial(), Texts::none()) == Scan::Refused(e)
}

/// A line of a mesh and a target, without options.
pub open spec fn is_bare(m: Seq<ArgView>) -> bool {
    &&& m.len() == 2
    &&& flag_spelled(m[0].text) is None
    &&& flag_spelled(m[1].text) is None
    &&& is_count(m[1].text, usize::MAX as int)
}

/// The texts of such a line.
pub open spec fn bare_texts() -> Texts {
    Texts {
        viewer_html: None,
        split_debug_json: None,
        metrics_json: None,
        first: Some(0),
        second: Some(1),
        third: None,
    }
}

/// The mesh and the target are those of the line, and no file is named.
pub open spec fn is_placed(m: Seq<ArgView>, cli: CliArgs) -> bool {
    &&& cli.mesh_path@ == m[0].text
    &&& cli.target_n == digits_value(unsigned_digits(m[1].text))
    &&& cli.out_obj@ == "obbs.obj"@
    &&& cli.viewer_html is None
    &&& cli.split_debug_json is None
    &&& cli.metrics_json is None
}

pub open spec fn begins_with(text: Seq<char>, start: Seq<char>) -> bool {
    start.len() <= text.len() && text.subrange(0, start.len() as int) == start
}

/// Each option has its spelling.
proof fn lemma_spellings()
    ensures
        flag_spelled("--viewer"@) == Some(Flag::Viewer),
        flag_spelled("--volume-threshold"@) == Some(Flag::VolumeThreshold),
        flag_spelled("--obb-only"@) == Some(Flag::ObbOnly),
        flag_spelled("--no-cull"@) == Some(Flag::NoCull),
        flag_spelled("--no-refine"@) == Some(Flag::NoRefine),
        flag_spelled("--quality"@) == Some(Flag::Quality),
        flag_spelled("--shell"@) == Some(Flag::Shell),
        flag_spelled("--weighted-cost"@) == Some(Flag::WeightedCost),
        flag_spelled("--rebalance"@) == Some(Flag::Rebalance),
        flag_spelled("--reject-pancakes"@) == Some(Flag::RejectPancakes),
        flag_spelled("--subdivide-bad-faces"@) == Some(Flag::SubdivideBadFaces),
        flag_spelled("--subdivide-bad-faces-max-depth"@) == Some(Flag::SubdivideMaxDepth),
        flag_spelled("--strip-thin"@) == Some(Flag::StripThin),
        flag_spelled("--strip-thin-threshold"@) == Some(Flag::StripThinThreshold),
        flag_spelled("--feasibility"@) == Some(Flag::Feasibility),
        flag_spelled("--outside-space"@) == Some(Flag::OutsideSpace),
        flag_spelled("--outside-fit"@) == Some(Flag::OutsideFit),
        flag_spelled("--split-worst"@) == Some(Flag::SplitWorst),
        flag_spelled("--split-worst-max"@) == Some(Flag::SplitWorstMax),
        flag_spelled("--repair-bad-slabs"@) == Some(Flag::RepairBadSlabs),
        flag_spelled("--repair-bad-slabs-max"@) == Some(Flag::RepairBadSlabsMax),
        flag_spelled("--post-merge-budget"@) == Some(Flag::PostMergeBudget),
        flag_spelled("--post-merge-hausdorff"@) == Some(Flag::PostMergeHausdorff),
        flag_spelled("--shrink-high-error"@) == Some(Flag::ShrinkHighError),
        flag_spelled("--split-error-region"@) == Some(Flag::SplitErrorRegion),
        flag_spelled("--debug-splits"@) == Some(Flag::DebugSplits),
        flag_spelled("--debug-primitive"@) == Some(Flag::DebugPrimitive),
        flag_spelled("--cull-overlap"@) == Some(Flag::CullOverlap),
        flag_spelled("--collision-simplify"@) == Some(Flag::CollisionSimplify),
        flag_spelled("--collision-target-scale"@) == Some(Flag::CollisionTargetScale),
        flag_spelled("--collision-ignore-detail"@) == Some(Flag::CollisionIgnoreDetail),
        flag_spelled("--collision-support-planes"@) == Some(Flag::CollisionSupportPlanes),
        flag_spelled("--axis-align"@) == Some(Flag::AxisAlign),
        flag_spelled("--world-axis"@) == Some(Flag::WorldAxis),
        flag_spelled("--refine-search"@) == Some(Flag::RefineSearch),
        flag_spelled("--refine-search-iters"@) == Some(Flag::RefineSearchIters),
        flag_spelled("--no-tangent-eps"@) == Some(Flag::NoTangentEps),
        flag_spelled("--tangent-eps"@) == Some(Flag::TangentEps),
        flag_spelled("--rebalance-passes"@) == Some(Flag::RebalancePasses),
        flag_spelled("--proximity"@) == Some(Flag::Proximity),
        flag_spelled("--proximity-r"@) == Some(Flag::ProximityR),
        flag_spelled("--proximity-k"@) == Some(Flag::ProximityK),
        flag_spelled("--proximity-angle"@) == Some(Flag::ProximityAngle),
        flag_spelled("--metrics"@) == Some(Flag::Metrics),
        flag_spelled("--metrics-json"@) == Some(Flag::MetricsJson),
        flag_spelled("--empty-space"@) == Some(Flag::EmptySpace),
        flag_spelled("--empty-space-fraction"@) == Some(Flag::EmptySpaceFraction),
        flag_spelled("--empty-space-distance"@) == Some(Flag::EmptySpaceDistance),
        flag_spelled("--no-sphere"@) == Some(Flag::NoSphere),
        flag_spelled("--no-cylinder"@) == Some(Flag::NoCylinder),
        flag_spelled("--no-capsule"@) == Some(Flag::NoCapsule),
        flag_spelled("--no-frustum"@) == Some(Flag::NoFrustum),
        flag_spelled("--no-prism"@) == Some(Flag::NoPrism),
        flag_spelled("-h"@) == Some(Flag::Help),
        flag_spelled("--help"@) == Some(Flag::Help),
{
    reveal(flag_spelled);
    reveal_strlit("--viewer");
    reveal_strlit("--volume-threshold");
    reveal_strlit("--obb-only");
    reveal_strlit("--no-cull");
    reveal_strlit("--no-refine");
    reveal_strlit("--quality");
    reveal_strlit("--shell");
    reveal_strlit("--weighted-cost");
    reveal_strlit("--rebalance");
    reveal_strlit("--reject-pancakes");
    reveal_strlit("--subdivide-bad-faces");
    reveal_strlit("--subdivide-bad-faces-max-depth");
    reveal_strlit("--strip-thin");
    reveal_strlit("--strip-thin-threshold");
    reveal_strlit("--feasibility");
    reveal_strlit("--outside-space");
    reveal_strlit("--outside-fit");
    reveal_strlit("--split-worst");
    reveal_strlit("--split-worst-max");
    reveal_strlit("--repair-bad-slabs");
    reveal_strlit("--repair-bad-slabs-max");
    reveal_strlit("--post-merge-budget");
    reveal_strlit("--post-merge-hausdorff");
    reveal_strlit("--shrink-high-error");
    reveal_strlit("--split-error-region");
    reveal_strlit("--debug-splits");
    reveal_strlit("--debug-primitive");
    reveal_strlit("--cull-overlap");
    reveal_strlit("--collision-simplify");
    reveal_strlit("--collision-target-scale");
    reveal_strlit("--collision-ignore-detail");
    reveal_strlit("--collision-support-planes");
    reveal_strlit("--axis-align");
    reveal_strlit("--world-axis");
    reveal_strlit("--refine-search");
    reveal_strlit("--refine-search-iters");
    reveal_strlit("--no-tangent-eps");
    reveal_strlit("--tangent-eps");
    reveal_strlit("--rebalance-passes");
    reveal_strlit("--proximity");
    reveal_strlit("--proximity-r");
    reveal_strlit("--proximity-k");
    reveal_strlit("--proximity-angle");
    reveal_strlit("--metrics");
    reveal_strlit("--metrics-json");
    reveal_strlit("--empty-space");
    reveal_strlit("--empty-space-fraction");
    reveal_strlit("--empty-space-distance");
    reveal_strlit("--no-sphere");
    reveal_strlit("--no-cylinder");
    reveal_strlit("--no-capsule");
    reveal_strlit("--no-frustum");
    reveal_strlit("--no-prism");
    reveal_strlit("-h");
    reveal_strlit("--help");
    assert("-h"@.len() == 2);
    assert("--help"@.len() == 6);
    assert("--shell"@.len() == 7);
    assert("--viewer"@.len() == 8);
    assert("--no-cull"@.len() == 9 && "--no-cull"@[2] == 'n');
    assert("--quality"@.len() == 9 && "--quality"@[2] == 'q');
    assert("--metrics"@.len() == 9 && "--metrics"@[2] == 'm');
    assert("--obb-only"@.len() == 10 && "--obb-only"@[2] == 'o');
    assert("--no-prism"@.len() == 10 && "--no-prism"@[2] == 'n');
    assert("--no-refine"@.len() == 11 && "--no-refine"@[5] == 'r');
    assert("--rebalance"@.len() == 11 && "--rebalance"@[5] == 'a');
    assert("--proximity"@.len() == 11 && "--proximity"@[5] == 'x');
    assert("--no-sphere"@.len() == 11 && "--no-sphere"@[5] == 's');
    assert("--strip-thin"@.len() == 12 && "--strip-thin"@[5] == 'i');
    assert("--axis-align"@.len() == 12 && "--axis-align"@[5] == 's');
    assert("--world-axis"@.len() == 12 && "--world-axis"@[5] == 'l');
    assert("--no-capsule"@.len() == 12 && "--no-capsule"@[5] == 'c');
    assert("--no-frustum"@.len() == 12 && "--no-frustum"@[5] == 'f');
    assert("--feasibility"@.len() == 13 && "--feasibility"@[2] == 'f' && "--feasibility"@[12] == 'y');
    assert("--outside-fit"@.len() == 13 && "--outside-fit"@[2] == 'o' && "--outside-fit"@[12] == 't');
    assert("--split-worst"@.len() == 13 && "--split-worst"@[2] == 's' && "--split-worst"@[12] == 't');
    assert("--tangent-eps"@.len() == 13 && "--tangent-eps"@[2] == 't' && "--tangent-eps"@[12] == 's');
    assert("--proximity-r"@.len() == 13 && "--proximity-r"@[2] == 'p' && "--proximity-r"@[12] == 'r');
    assert("--proximity-k"@.len() == 13 && "--proximity-k"@[2] == 'p' && "--proximity-k"@[12] == 'k');
    assert("--empty-space"@.len() == 13 && "--empty-space"@[2] == 'e' && "--empty-space"@[12] == 'e');
    assert("--no-cylinder"@.len() == 13 && "--no-cylinder"@[2] == 'n' && "--no-cylinder"@[12] == 'r');
    assert("--debug-splits"@.len() == 14 && "--debug-splits"@[2] == 'd');
    assert("--cull-overlap"@.len() == 14 && "--cull-overlap"@[2] == 'c');
    assert("--metrics-json"@.len() == 14 && "--metrics-json"@[2] == 'm');
    assert("--weighted-cost"@.len() == 15 && "--weighted-cost"@[2] == 'w');
    assert("--outside-space"@.len() == 15 && "--outside-space"@[2] == 'o');
    assert("--refine-search"@.len() == 15 && "--refine-search"@[2] == 'r');
    assert("--no-tangent-eps"@.len() == 16);
    assert("--reject-pancakes"@.len() == 17 && "--reject-pancakes"@[2] == 'r');
    assert("--split-worst-max"@.len() == 17 && "--split-worst-max"@[2] == 's');
    assert("--debug-primitive"@.len() == 17 && "--debug-primitive"@[2] == 'd');
    assert("--proximity-angle"@.len() == 17 && "--proximity-angle"@[2] == 'p');
    assert("--volume-threshold"@.len() == 18 && "--volume-threshold"@[4] == 'l');
    assert("--repair-bad-slabs"@.len() == 18 && "--repair-bad-slabs"@[4] == 'p');
    assert("--rebalance-passes"@.len() == 18 && "--rebalance-passes"@[4] == 'b');
    assert("--post-merge-budget"@.len() == 19 && "--post-merge-budget"@[2] == 'p');
    assert("--shrink-high-error"@.len() == 19 && "--shrink-high-error"@[2] == 's');
    assert("--split-error-region"@.len() == 20 && "--split-error-region"@[2] == 's');
    assert("--collision-simplify"@.len() == 20 && "--collision-simplify"@[2] == 'c');
    assert("--subdivide-bad-faces"@.len() == 21 && "--subdivide-bad-faces"@[2] == 's');
    assert("--refine-search-iters"@.len() == 21 && "--refine-search-iters"@[2] == 'r');
    assert("--strip-thin-threshold"@.len() == 22 && "--strip-thin-threshold"@[14] == 'h');
    assert("--repair-bad-slabs-max"@.len() == 22 && "--repair-bad-slabs-max"@[14] == 'l');
    assert("--post-merge-hausdorff"@.len() == 22 && "--post-merge-hausdorff"@[14] == 'a');
    assert("--empty-space-fraction"@.len() == 22 && "--empty-space-fraction"@[14] == 'f');
    assert("--empty-space-distance"@.len() == 22 && "--empty-space-distance"@[14] == 'd');
    assert("--collision-target-scale"@.len() == 24);
    assert("--collision-ignore-detail"@.len() == 25);
    assert("--collision-support-planes"@.len() == 26);
    assert("--subdivide-bad-faces-max-depth"@.len() == 31);
}

/// What does not begin with a dash is no option.
pub proof fn law_options_begin_with_a_dash(text: Seq<char>)
    requires
        text.len() == 0 || text[0] != '-',
    ensures
        flag_spelled(text) is None,
{
    reveal(flag_spelled);
    reveal_strlit("--viewer");
    reveal_strlit("--volume-threshold");
    reveal_strlit("--obb-only");
    reveal_strlit("--no-cull");
    reveal_strlit("--no-refine");
    reveal_strlit("--quality");
    reveal_strlit("--shell");
    reveal_strlit("--weighted-cost");
    reveal_strlit("--rebalance");
    reveal_strlit("--reject-pancakes");
    reveal_strlit("--subdivide-bad-faces");
    reveal_strlit("--subdivide-bad-faces-max-depth");
    reveal_strlit("--strip-thin");
    reveal_strlit("--strip-thin-threshold");
    reveal_strlit("--feasibility");
    reveal_strlit("--outside-space");
    reveal_strlit("--outside-fit");
    reveal_strlit("--split-worst");
    reveal_strlit("--split-worst-max");
    reveal_strlit("--repair-bad-slabs");
    reveal_strlit("--repair-bad-slabs-max");
    reveal_strlit("--post-merge-budget");
    reveal_strlit("--post-merge-hausdorff");
    reveal_strlit("--shrink-high-error");
    reveal_strlit("--split-error-region");
    reveal_strlit("--debug-splits");
    reveal_strlit("--debug-primitive");
    reveal_strlit("--cull-overlap");
    reveal_strlit("--collision-simplify");
    reveal_strlit("--collision-target-scale");
    reveal_strlit("--collision-ignore-detail");
    reveal_strlit("--collision-support-planes");
    reveal_strlit("--axis-align");
    reveal_strlit("--world-axis");
    reveal_strlit("--refine-search");
    reveal_strlit("--refine-search-iters");
    reveal_strlit("--no-tangent-eps");
    reveal_strlit("--tangent-eps");
    reveal_strlit("--rebalance-passes");
    reveal_strlit("--proximity");
    reveal_strlit("--proximity-r");
    reveal_strlit("--proximity-k");
    reveal_strlit("--proximity-angle");
    reveal_strlit("--metrics");
    reveal_strlit("--metrics-json");
    reveal_strlit("--empty-space");
    reveal_strlit("--empty-space-fraction");
    reveal_strlit("--empty-space-distance");
    reveal_strlit("--no-sphere");
    reveal_strlit("--no-cylinder");
    reveal_strlit("--no-capsule");
    reveal_strlit("--no-frustum");
    reveal_strlit("--no-prism");
    reveal_strlit("-h");
    reveal_strlit("--help");
}

/// What is read of a line does not change when it goes on.
proof fn lemma_goes_on(args: Seq<ArgView>, more: Seq<ArgView>, i: int, d: Settings, t: Texts)
    requires
        0 <= i <= args.len(),
        scan(args, i, d, t) is End,
    ensures
        ({
            let s = scan(args, i, d, t);
            scan(args + more, i, d, t) == scan(args + more, args.len() as int, s->End_0, s->End_1)
        }),
    decreases args.len() - i,
{
    let all = args + more;
    if i < args.len() {
        assert(all[i] == args[i]);
        match flag_spelled(args[i].text) {
            None => {
                lemma_goes_on(args, more, i + 1, d, t.with_positional(i as usize));
            },
            Some(flag) => {
                if flag.spec_takes() == Takes::Nothing {
                    lemma_goes_on(args, more, i + 1, d.with(flag, value_at(i)), t);
                } else {
                    assert(all[i + 1] == args[i + 1]);
                    let v = value_read(flag, args, i + 1);
                    assert(v == value_read(flag, all, i + 1));
                    lemma_goes_on(args, more, i + 2, d.with(flag, v->0), t.with(flag, (i + 1) as usize));
                }
            },
        }
    }
}

proof fn lemma_bare(m: Seq<ArgView>)
    requires
        is_bare(m),
    ensures
        reads_to(m, defaults(), bare_texts()),
{
    reveal(reads_to);
    reveal(is_answer);
    reveal_with_fuel(scan, 3);
}

proof fn lemma_switch(args: Seq<ArgView>, d: Settings, t: Texts, opt: ArgView, flag: Flag)
    requires
        reads_to(args, d, t),
        flag_spelled(opt.text) == Some(flag),
        flag != Flag::Help,
        flag.spec_takes() == Takes::Nothing,
    ensures
        reads_to(args.push(opt), d.with(flag, value_at(args.len() as int)), t),
{
    reveal(reads_to);
    reveal(is_refused);
    reveal_with_fuel(scan, 2);
    let all = args.push(opt);
    assert(all =~= args + seq![opt]);
    lemma_goes_on(args, seq![opt], 0, Settings::spec_initial(), Texts::none());
}

proof fn lemma_valued(args: Seq<ArgView>, d: Settings, t: Texts, opt: ArgView, v: ArgView, flag: Flag)
    requires
        reads_to(args, d, t),
        flag_spelled(opt.text) == Some(flag),
        flag.spec_takes() != Takes::Nothing,
    ensures
        is_refused(args.push(opt), ArgError::MissingValue(flag)),
        match value_read(flag, args.push(opt).push(v), (args.len() + 1) as int) {
            Some(x) => reads_to(args.push(opt).push(v), d.with(flag, x), t.with(flag, (args.len() + 1) as usize)),
            None => is_refused(args.push(opt).push(v), ArgError::BadValue(flag)),
        },
{
    reveal(reads_to);
    reveal(is_refused);
    reveal_with_fuel(scan, 2);
    assert(args.push(opt) =~= args + seq![opt]);
    assert(args.push(opt).push(v) =~= args + seq![opt, v]);
    lemma_goes_on(args, seq![opt], 0, Settings::spec_initial(), Texts::none());
    lemma_goes_on(args, seq![opt, v], 0, Settings::spec_initial(), Texts::none());
}

/// What a line that was read and is not objected to is answered.
proof fn lemma_answered(args: Seq<ArgView>, d: Settings, t: Texts, res: Result<Command, ArgError>)
    requires
        reads_to(args, d, t),
        is_answer(args, res),
    ensures
        objection(d, t) matches Some(e) ==> res == Err::<Command, ArgError>(e),
        objection(d, t) is None && is_count(args[t.second->0 as int].text, usize::MAX as int) ==> (res matches Ok(
            Command::Run(cli),
        ) && cli.reads(args, d, t)),
        objection(d, t) is None && !is_count(args[t.second->0 as int].text, usize::MAX as int) ==> res == Err::<
            Command,
            ArgError,
        >(ArgError::BadTarget),
{
    reveal(reads_to);
    reveal(is_answer);
}

/// A mesh and a target alone: every setting is at its default, all kinds of
/// shapes are on, the output goes to `obbs.obj` and nothing else is written.
pub proof fn law_bare_line(m: Seq<ArgView>, res: Result<Command, ArgError>)
    requires
        is_bare(m),
        is_answer(m, res),
    ensures
        res matches Ok(Command::Run(cli)) && cli.settings == defaults() && is_placed(m, cli) && cli.post_merge_budget is None
            && cli.enable_mask == (PrimMask {
            obb: true,
            sphere: true,
            cylinder: true,
            capsule: true,
            frustum: true,
            prism: true,
        }),
{
    lemma_bare(m);
    lemma_answered(m, defaults(), bare_texts(), res);
}

/// A third argument that is no option names the output, and changes nothing
/// else; further ones are passed over.
pub proof fn law_third_argument_is_the_output(
    m: Seq<ArgView>,
    out: ArgView,
    more: ArgView,
    res: Result<Command, ArgError>,
    again: Result<Command, ArgError>,
)
    requires
        is_bare(m),
        flag_spelled(out.text) is None,
        flag_spelled(more.text) is None,
        is_answer(m.push(out), res),
        is_answer(m.push(out).push(more), again),
    ensures
        res matches Ok(Command::Run(cli)) && cli.settings == defaults() && cli.mesh_path@ == m[0].text && cli.target_n
            == digits_value(unsigned_digits(m[1].text)) && cli.out_obj@ == out.text,
        again matches Ok(Command::Run(cli)) && cli.settings == defaults() && cli.mesh_path@ == m[0].text && cli.target_n
            == digits_value(unsigned_digits(m[1].text)) && cli.out_obj@ == out.text,
{
    reveal(reads_to);
    reveal(is_answer);
    reveal_with_fuel(scan, 3);
    lemma_bare(m);
    assert(m.push(out) =~= m + seq![out]);
    assert(m.push(out).push(more) =~= m + seq![out, more]);
    lemma_goes_on(m, seq![out], 0, Settings::spec_initial(), Texts::none());
    lemma_goes_on(m, seq![out, more], 0, Settings::spec_initial(), Texts::none());
}

/// Asking for help gives help, whatever was read before and whatever follows.
pub proof fn law_help_is_given(
    args: Seq<ArgView>,
    d: Settings,
    t: Texts,
    opt: ArgView,
    more: Seq<ArgView>,
    res: Result<Command, ArgError>,
)
    requires
        reads_to(args, d, t),
        opt.text == "-h"@ || opt.text == "--help"@,
        is_answer(args + (seq![opt] + more), res),
    ensures
        res matches Ok(c) && c is Help,
{
    reveal(reads_to);
    reveal(is_answer);
    lemma_spellings();
    lemma_goes_on(args, seq![opt] + more, 0, Settings::spec_initial(), Texts::none());
    assert((args + (seq![opt] + more))[args.len() as int] == opt);
}

/// A value that is not what its option takes is refused: a number where the
/// option takes one, digits where it takes a count or an id. Any text will do
/// for a path.
pub proof fn law_bad_values_are_refused(args: Seq<ArgView>, d: Settings, t: Texts, opt: ArgView, v: ArgView, flag: Flag)
    requires
        reads_to(args, d, t),
        flag_spelled(opt.text) == Some(flag),
    ensures
        flag.spec_takes() == Takes::Number && v.number is None ==> is_refused(args.push(opt).push(v), ArgError::BadValue(flag)) && (flag.spec_bad() == "not a float"@ || flag == Flag::Quality),
        flag.spec_takes() == Takes::Count && !is_count(v.text, usize::MAX as int) ==> is_refused(args.push(opt).push(v), ArgError::BadValue(flag)) && flag.spec_bad() == "not an integer"@,
        flag.spec_takes() == Takes::Id && !is_count(v.text, u32::MAX as int) ==> is_refused(args.push(opt).push(v), ArgError::BadValue(flag)) && flag.spec_bad() == "not an integer"@,
        flag.spec_takes() == Takes::Path ==> exists|d2: Settings, t2: Texts| reads_to(args.push(opt).push(v), d2, t2),
{
    if flag.spec_takes() != Takes::Nothing {
        lemma_valued(args, d, t, opt, v, flag);
    }
}

/// What is wrong with a line that was read, by the error that says so.
pub open spec fn is_at_fault(d: Settings, t: Texts, e: ArgError) -> bool {
    let bad = |x: Option<Scalar>| x matches Some(f) && !(f.spec_is_finite() && (Scalar { bits: 0 }).spec_lt(f));
    let fits = !d.outside_fit_beta.spec_is_nan() && d.outside_fit_beta.spec_key() == 0;
    match e {
        ArgError::MissingPositional => t.second is None,
        ArgError::DebugPrimitiveAlone => d.split_debug_primitive is Some && t.split_debug_json is None,
        ArgError::SubdivideFraction => d.subdivide_bad_faces matches Some(p) && bad(Some(p.0)),
        ArgError::SubdivideDepth => d.subdivide_bad_faces matches Some(p) && p.1 == 0,
        ArgError::SimplifyFraction => bad(d.collision_simplify),
        ArgError::OutsideFraction => bad(d.outside_space),
        ArgError::RepairFraction => d.repair_bad_slabs matches Some(p) && bad(Some(p.0)),
        ArgError::RepairCount => d.repair_bad_slabs matches Some(p) && p.1 == 0,
        ArgError::BudgetCount => d.post_merge_target matches Some(n) && n == 0,
        ArgError::HausdorffFraction => bad(d.post_merge_hausdorff),
        ArgError::HausdorffAlone => d.post_merge_hausdorff is Some && d.post_merge_target is None,
        ArgError::ShrinkFraction => bad(d.shrink_high_error),
        ArgError::OutsideFitBeta => !fits && bad(Some(d.outside_fit_beta)),
        ArgError::OutsideFitAlone => !fits && d.outside_space is None,
        ArgError::TargetScale => bad(d.collision_target_scale),
        ArgError::IgnoreDetailFraction => bad(d.collision_ignore_detail),
        ArgError::SupportPlanesFraction => bad(d.collision_support_planes),
        _ => false,
    }
}

/// The order in which faults are looked for.
pub open spec fn turn_of(e: ArgError) -> int {
    match e {
        ArgError::MissingPositional => 1,
        ArgError::DebugPrimitiveAlone => 2,
        ArgError::SubdivideFraction => 3,
        ArgError::SubdivideDepth => 4,
        ArgError::SimplifyFraction => 5,
        ArgError::OutsideFraction => 6,
        ArgError::RepairFraction => 7,
        ArgError::RepairCount => 8,
        ArgError::BudgetCount => 9,
        ArgError::HausdorffFraction => 10,
        ArgError::HausdorffAlone => 11,
        ArgError::ShrinkFraction => 12,
        ArgError::OutsideFitBeta => 13,
        ArgError::OutsideFitAlone => 14,
        ArgError::TargetScale => 15,
        ArgError::IgnoreDetailFraction => 16,
        ArgError::SupportPlanesFraction => 17,
        _ => 18,
    }
}

/// A line that was read is refused exactly where something is wrong with it,
/// and the error says what: that which is looked for first.
pub proof fn law_faults_are_reported(d: Settings, t: Texts, e: ArgError)
    ensures
        objection(d, t) matches Some(f) ==> is_at_fault(d, t, f),
        is_at_fault(d, t, e) ==> (objection(d, t) matches Some(f) && turn_of(f) <= turn_of(e)),
{
}

/// The complaint about a setting begins with the option that it is about.
pub proof fn law_complaints_name_the_option()
    ensures
        begins_with(ArgError::DebugPrimitiveAlone.spec_message(), "--debug-primitive"@),
        begins_with(ArgError::SubdivideFraction.spec_message(), "--subdivide-bad-faces "@),
        begins_with(ArgError::SubdivideDepth.spec_message(), "--subdivide-bad-faces-max-depth"@),
        begins_with(ArgError::SimplifyFraction.spec_message(), "--collision-simplify"@),
        begins_with(ArgError::OutsideFraction.spec_message(), "--outside-space"@),
        begins_with(ArgError::RepairFraction.spec_message(), "--repair-bad-slabs "@),
        begins_with(ArgError::RepairCount.spec_message(), "--repair-bad-slabs-max"@),
        begins_with(ArgError::BudgetCount.spec_message(), "--post-merge-budget"@),
        begins_with(ArgError::HausdorffFraction.spec_message(), "--post-merge-hausdorff must"@),
        begins_with(ArgError::HausdorffAlone.spec_message(), "--post-merge-hausdorff requires --post-merge-budget"@),
        begins_with(ArgError::ShrinkFraction.spec_message(), "--shrink-high-error"@),
        begins_with(ArgError::OutsideFitBeta.spec_message(), "--outside-fit must"@),
        begins_with(ArgError::OutsideFitAlone.spec_message(), "--outside-fit requires --outside-space"@),
        begins_with(ArgError::TargetScale.spec_message(), "--collision-target-scale"@),
        begins_with(ArgError::IgnoreDetailFraction.spec_message(), "--collision-ignore-detail"@),
        begins_with(ArgError::SupportPlanesFraction.spec_message(), "--collision-support-planes"@),
        begins_with(ArgError::BadTarget.spec_message(), "target_n"@),
{
    reveal_strlit("--debug-primitive requires --debug-splits <path>");
    reveal_strlit("--debug-primitive");
    assert(ArgError::DebugPrimitiveAlone.spec_message().subrange(0, "--debug-primitive"@.len() as int) =~= "--debug-primitive"@);
    reveal_strlit("--subdivide-bad-faces must be a positive finite fraction");
    reveal_strlit("--subdivide-bad-faces ");
    assert(ArgError::SubdivideFraction.spec_message().subrange(0, "--subdivide-bad-faces "@.len() as int) =~= "--subdivide-bad-faces "@);
    reveal_strlit("--subdivide-bad-faces-max-depth must be at least 1");
    reveal_strlit("--subdivide-bad-faces-max-depth");
    assert(ArgError::SubdivideDepth.spec_message().subrange(0, "--subdivide-bad-faces-max-depth"@.len() as int) =~= "--subdivide-bad-faces-max-depth"@);
    reveal_strlit("--collision-simplify must be a positive finite fraction");
    reveal_strlit("--collision-simplify");
    assert(ArgError::SimplifyFraction.spec_message().subrange(0, "--collision-simplify"@.len() as int) =~= "--collision-simplify"@);
    reveal_strlit("--outside-space must be a positive finite fraction");
    reveal_strlit("--outside-space");
    assert(ArgError::OutsideFraction.spec_message().subrange(0, "--outside-space"@.len() as int) =~= "--outside-space"@);
    reveal_strlit("--repair-bad-slabs must be a positive finite fraction");
    reveal_strlit("--repair-bad-slabs ");
    assert(ArgError::RepairFraction.spec_message().subrange(0, "--repair-bad-slabs "@.len() as int) =~= "--repair-bad-slabs "@);
    reveal_strlit("--repair-bad-slabs-max must be at least 1");
    reveal_strlit("--repair-bad-slabs-max");
    assert(ArgError::RepairCount.spec_message().subrange(0, "--repair-bad-slabs-max"@.len() as int) =~= "--repair-bad-slabs-max"@);
    reveal_strlit("--post-merge-budget must be at least 1");
    reveal_strlit("--post-merge-budget");
    assert(ArgError::BudgetCount.spec_message().subrange(0, "--post-merge-budget"@.len() as int) =~= "--post-merge-budget"@);
    reveal_strlit("--post-merge-hausdorff must be a positive finite fraction");
    reveal_strlit("--post-merge-hausdorff must");
    assert(ArgError::HausdorffFraction.spec_message().subrange(0, "--post-merge-hausdorff must"@.len() as int) =~= "--post-merge-hausdorff must"@);
    reveal_strlit("--post-merge-hausdorff requires --post-merge-budget <n>");
    reveal_strlit("--post-merge-hausdorff requires --post-merge-budget");
    assert(ArgError::HausdorffAlone.spec_message().subrange(0, "--post-merge-hausdorff requires --post-merge-budget"@.len() as int) =~= "--post-merge-hausdorff requires --post-merge-budget"@);
    reveal_strlit("--shrink-high-error must be a positive finite fraction");
    reveal_strlit("--shrink-high-error");
    assert(ArgError::ShrinkFraction.spec_message().subrange(0, "--shrink-high-error"@.len() as int) =~= "--shrink-high-error"@);
    reveal_strlit("--outside-fit must be a positive finite beta");
    reveal_strlit("--outside-fit must");
    assert(ArgError::OutsideFitBeta.spec_message().subrange(0, "--outside-fit must"@.len() as int) =~= "--outside-fit must"@);
    reveal_strlit("--outside-fit requires --outside-space <f>");
    reveal_strlit("--outside-fit requires --outside-space");
    assert(ArgError::OutsideFitAlone.spec_message().subrange(0, "--outside-fit requires --outside-space"@.len() as int) =~= "--outside-fit requires --outside-space"@);
    reveal_strlit("--collision-target-scale must be a positive finite scale");
    reveal_strlit("--collision-target-scale");
    assert(ArgError::TargetScale.spec_message().subrange(0, "--collision-target-scale"@.len() as int) =~= "--collision-target-scale"@);
    reveal_strlit("--collision-ignore-detail must be a positive finite fraction");
    reveal_strlit("--collision-ignore-detail");
    assert(ArgError::IgnoreDetailFraction.spec_message().subrange(0, "--collision-ignore-detail"@.len() as int) =~= "--collision-ignore-detail"@);
    reveal_strlit("--collision-support-planes must be a positive finite fraction");
    reveal_strlit("--collision-support-planes");
    assert(ArgError::SupportPlanesFraction.spec_message().subrange(0, "--collision-support-planes"@.len() as int) =~= "--collision-support-planes"@);
    reveal_strlit("target_n must be a positive integer");
    reveal_strlit("target_n");
    assert(ArgError::BadTarget.spec_message().subrange(0, "target_n"@.len() as int) =~= "target_n"@);
}

/// A target that is no number of things is refused, and nothing else is said
/// of the line.
pub proof fn law_bad_target_is_refused(args: Seq<ArgView>, d: Settings, t: Texts, res: Result<Command, ArgError>)
    requires
        reads_to(args, d, t),
        is_answer(args, res),
        t.second is Some,
        forall|e: ArgError| !is_at_fault(d, t, e),
    ensures
        !is_count(args[t.second->0 as int].text, usize::MAX as int) ==> res == Err::<Command, ArgError>(ArgError::BadTarget),
        is_count(args[t.second->0 as int].text, usize::MAX as int) ==> (res matches Ok(Command::Run(cli))
            && cli.settings == d),
{
    lemma_answered(args, d, t, res);
    if let Some(e) = objection(d, t) {
        law_faults_are_reported(d, t, e);
        assert(is_at_fault(d, t, e));
    }
}

/// What is answered is what was read: the shapes that are on, the number to
/// merge down to, the settings, the mesh, the target and the files named.
pub proof fn law_answer_is_what_was_read(args: Seq<ArgView>, d: Settings, t: Texts, cli: CliArgs)
    requires
        reads_to(args, d, t),
        is_answer(args, Ok(Command::Run(cli))),
    ensures
        cli.settings == d,
        cli.enable_mask.obb == (d.obb_only || d.mask.obb),
        cli.enable_mask.sphere == (d.mask.sphere && !d.obb_only),
        cli.enable_mask.cylinder == (d.mask.cylinder && !d.obb_only),
        cli.enable_mask.capsule == (d.mask.capsule && !d.obb_only),
        cli.enable_mask.frustum == (d.mask.frustum && !d.obb_only),
        cli.enable_mask.prism == (d.mask.prism && !d.obb_only),
        d.post_merge_target is None ==> cli.post_merge_budget is None,
        d.post_merge_target matches Some(n) ==> (cli.post_merge_budget matches Some(b) && b.0 == n && (
        d.post_merge_hausdorff matches Some(f) ==> b.1 == f)),
        t.first is Some && cli.mesh_path@ == args[t.first->0 as int].text,
        t.second is Some && cli.target_n == digits_value(unsigned_digits(args[t.second->0 as int].text)),
        t.third matches Some(p) ==> cli.out_obj@ == args[p as int].text,
        t.third is None ==> cli.out_obj@ == "obbs.obj"@,
        t.viewer_html matches Some(p) ==> (cli.viewer_html matches Some(s) && s@ == args[p as int].text),
        t.viewer_html is None ==> cli.viewer_html is None,
        t.split_debug_json matches Some(p) ==> (cli.split_debug_json matches Some(s) && s@ == args[p as int].text),
        t.split_debug_json is None ==> cli.split_debug_json is None,
        t.metrics_json matches Some(p) ==> (cli.metrics_json matches Some(s) && s@ == args[p as int].text),
        t.metrics_json is None ==> cli.metrics_json is None,
{
    lemma_answered(args, d, t, Ok(Command::Run(cli)));
    law_faults_are_reported(d, t, ArgError::MissingPositional);
    reveal(reads_to);
    lemma_first_before_second(args, 0, Settings::spec_initial(), Texts::none());
}

proof fn lemma_first_before_second(args: Seq<ArgView>, i: int, d: Settings, t: Texts)
    requires
        0 <= i,
        t.second is Some ==> t.first is Some,
    ensures
        scan(args, i, d, t) is End ==> (scan(args, i, d, t)->End_1.second is Some ==> scan(args, i, d, t)->End_1.first is Some),
    decreases args.len() - i,
{
    if i < args.len() {
        match flag_spelled(args[i].text) {
            None => {
                lemma_first_before_second(args, i + 1, d, t.with_positional(i as usize));
            },
            Some(flag) => {
                if flag.spec_takes() == Takes::Nothing {
                    lemma_first_before_second(args, i + 1, d.with(flag, value_at(i)), t);
                } else if i + 1 < args.len() {
                    if let Some(v) = value_read(flag, args, i + 1) {
                        lemma_first_before_second(args, i + 2, d.with(flag, v), t.with(flag, (i + 1) as usize));
                    }
                }
            },
        }
    }
}

/// The shapes that are on: boxes alone where only boxes are asked for, else
/// those that were not taken out.
pub proof fn law_shapes_that_are_on(d: Settings)
    ensures
        d.obb_only ==> d.kinds().obb && !d.kinds().sphere && !d.kinds().cylinder && !d.kinds().capsule && !d.kinds().frustum
            && !d.kinds().prism,
        !d.obb_only ==> d.kinds().obb == d.mask.obb && d.kinds().sphere == d.mask.sphere && d.kinds().cylinder
            == d.mask.cylinder && d.kinds().capsule == d.mask.capsule && d.kinds().frustum == d.mask.frustum && d.kinds().prism
            == d.mask.prism,
{
}

/// Merging to a number of primitives is asked for with that number; the error
/// it may cause is its own where given, else that of the repairs, else that of
/// the splits, else three hundredths.
pub proof fn law_budget_and_its_error(d: Settings)
    ensures
        d.post_merge_target is None ==> d.budget() is None,
        d.post_merge_target matches Some(n) ==> (d.budget() matches Some(b) && b.0 == n && b.1 == (
        if d.post_merge_hausdorff is Some {
            d.post_merge_hausdorff->0
        } else if d.repair_bad_slabs is Some {
            (d.repair_bad_slabs->0).0
        } else if d.split_worst is Some {
            (d.split_worst->0).0
        } else {
            Scalar { bits: 0x3cf5_c28f }
        })),
{
}

/// A line none of whose arguments spells an option leaves every setting at its
/// default.
pub proof fn law_settings_change_by_options_alone(args: Seq<ArgView>)
    requires
        forall|i: int| 0 <= i < args.len() ==> flag_spelled((#[trigger] args[i]).text) is None,
    ensures
        ({
            let s = scan(args, 0, Settings::spec_initial(), Texts::none());
            s is End && s->End_0 == defaults()
        }),
{
    lemma_no_option(args, 0, defaults(), Texts::none());
}

proof fn lemma_no_option(args: Seq<ArgView>, i: int, d: Settings, t: Texts)
    requires
        0 <= i,
        forall|k: int| 0 <= k < args.len() ==> flag_spelled((#[trigger] args[k]).text) is None,
    ensures
        scan(args, i, d, t) is End,
        scan(args, i, d, t)->End_0 == d,
    decreases args.len() - i,
{
    if i < args.len() {
        assert(flag_spelled(args[i].text) is None);
        lemma_no_option(args, i + 1, d, t.with_positional(i as usize));
    }
}

/// `--obb-only` asks for boxes only, and
/// changes nothing else.
pub proof fn law_obb_only(
    args: Seq<ArgView>,
    d: Settings,
    t: Texts,
    m: Seq<ArgView>,
    opt: ArgView,
    res: Result<Command, ArgError>,
)
    requires
        opt.text == "--obb-only"@,
        reads_to(args, d, t),
        is_bare(m),
        is_answer(m.push(opt), res),
    ensures
        reads_to(args.push(opt), (Settings { obb_only: true, ..d }), t),
        res matches Ok(Command::Run(cli)) && cli.settings == (Settings { obb_only: true, ..defaults() }) && is_placed(m, cli),
{
    lemma_spellings();
    lemma_bare(m);
    lemma_switch(args, d, t, opt, Flag::ObbOnly);
    lemma_switch(m, defaults(), bare_texts(), opt, Flag::ObbOnly);
    reveal(Settings::with);
    lemma_answered(m.push(opt), (Settings { obb_only: true, ..defaults() }), bare_texts(), res);
}

/// `--no-cull` keeps redundant primitives, and
/// changes nothing else.
pub proof fn law_no_cull(
    args: Seq<ArgView>,
    d: Settings,
    t: Texts,
    m: Seq<ArgView>,
    opt: ArgView,
    res: Result<Command, ArgError>,
)
    requires
        opt.text == "--no-cull"@,
        reads_to(args, d, t),
        is_bare(m),
        is_answer(m.push(opt), res),
    ensures
        reads_to(args.push(opt), (Settings { cull_redundant: false, ..d }), t),
        res matches Ok(Command::Run(cli)) && cli.settings == (Settings { cull_redundant: false, ..defaults() }) && is_placed(m, cli),
{
    lemma_spellings();
    lemma_bare(m);
    lemma_switch(args, d, t, opt, Flag::NoCull);
    lemma_switch(m, defaults(), bare_texts(), opt, Flag::NoCull);
    reveal(Settings::with);
    lemma_answered(m.push(opt), (Settings { cull_redundant: false, ..defaults() }), bare_texts(), res);
}

/// `--no-refine` leaves orientations as they are, and
/// changes nothing else.
pub proof fn law_no_refine(
    args: Seq<ArgView>,
    d: Settings,
    t: Texts,
    m: Seq<ArgView>,
    opt: ArgView,
    res: Result<Command, ArgError>,
)
    requires
        opt.text == "--no-refine"@,
        reads_to(args, d, t),
        is_bare(m),
        is_answer(m.push(opt), res),
    ensures
        reads_to(args.push(opt), (Settings { refine_orient: false, ..d }), t),
        res matches Ok(Command::Run(cli)) && cli.settings == (Settings { refine_orient: false, ..defaults() }) && is_placed(m, cli),
{
    lemma_spellings();
    lemma_bare(m);
    lemma_switch(args, d, t, opt, Flag::NoRefine);
    lemma_switch(m, defaults(), bare_texts(), opt, Flag::NoRefine);
    reveal(Settings::with);
    lemma_answered(m.push(opt), (Settings { refine_orient: false, ..defaults() }), bare_texts(), res);
}

/// `--shell` asks for shells to be told apart, and
/// changes nothing else.
pub proof fn law_shell(
    args: Seq<ArgView>,
    d: Settings,
    t: Texts,
    m: Seq<ArgView>,
    opt: ArgView,
    res: Result<Command, ArgError>,
)
    requires
        opt.text == "--shell"@,
        reads_to(args, d, t),
        is_bare(m),
        is_answer(m.push(opt), res),
    ensures
        reads_to(args.push(opt), (Settings { shell_aware: true, ..d }), t),
        res matches Ok(Command::Run(cli)) && cli.settings == (Settings { shell_aware: true, ..defaults() }) && is_placed(m, cli),
{
    lemma_spellings();
    lemma_bare(m);
    lemma_switch(args, d, t, opt, Flag::Shell);
    lemma_switch(m, defaults(), bare_texts(), opt, Flag::Shell);
    reveal(Settings::with);
    lemma_answered(m.push(opt), (Settings { shell_aware: true, ..defaults() }), bare_texts(), res);
}

/// `--weighted-cost` asks for weighted volumes, and
/// changes nothing else.
pub proof fn law_weighted_cost(
    args: Seq<ArgView>,
    d: Settings,
    t: Texts,
    m: Seq<ArgView>,
    opt: ArgView,
    res: Result<Command, ArgError>,
)
    requires
        opt.text == "--weighted-cost"@,
        reads_to(args, d, t),
        is_bare(m),
        is_answer(m.push(opt), res),
    ensures
        reads_to(args.push(opt), (Settings { weighted_cost: true, ..d }), t),
        res matches Ok(Command::Run(cli)) && cli.settings == (Settings { weighted_cost: true, ..defaults() }) && is_placed(m, cli),
{
    lemma_spellings();
    lemma_bare(m);
    lemma_switch(args, d, t, opt, Flag::WeightedCost);
    lemma_switch(m, defaults(), bare_texts(), opt, Flag::WeightedCost);
    reveal(Settings::with);
    lemma_answered(m.push(opt), (Settings { weighted_cost: true, ..defaults() }), bare_texts(), res);
}

/// `--rebalance` asks for rebalancing, in five passes unless a number is given, and
/// changes nothing else.
pub proof fn law_rebalance(
    args: Seq<ArgView>,
    d: Settings,
    t: Texts,
    m: Seq<ArgView>,
    opt: ArgView,
    res: Result<Command, ArgError>,
)
    requires
        opt.text == "--rebalance"@,
        reads_to(args, d, t),
        is_bare(m),
        is_answer(m.push(opt), res),
    ensures
        reads_to(args.push(opt), (Settings { rebalance: Some(match d.rebalance { Some(n) => n, None => 5 }), ..d }), t),
        res matches Ok(Command::Run(cli)) && cli.settings == (Settings { rebalance: Some(5), ..defaults() }) && is_placed(m, cli),
{
    lemma_spellings();
    lemma_bare(m);
    lemma_switch(args, d, t, opt, Flag::Rebalance);
    lemma_switch(m, defaults(), bare_texts(), opt, Flag::Rebalance);
    reveal(Settings::with);
    lemma_answered(m.push(opt), (Settings { rebalance: Some(5), ..defaults() }), bare_texts(), res);
}

/// `--reject-pancakes` asks for flat fits to be rejected, and
/// changes nothing else.
pub proof fn law_reject_pancakes(
    args: Seq<ArgView>,
    d: Settings,
    t: Texts,
    m: Seq<ArgView>,
    opt: ArgView,
    res: Result<Command, ArgError>,
)
    requires
        opt.text == "--reject-pancakes"@,
        reads_to(args, d, t),
        is_bare(m),
        is_answer(m.push(opt), res),
    ensures
        reads_to(args.push(opt), (Settings { reject_pancakes: true, ..d }), t),
        res matches Ok(Command::Run(cli)) && cli.settings == (Settings { reject_pancakes: true, ..defaults() }) && is_placed(m, cli),
{
    lemma_spellings();
    lemma_bare(m);
    lemma_switch(args, d, t, opt, Flag::RejectPancakes);
    lemma_switch(m, defaults(), bare_texts(), opt, Flag::RejectPancakes);
    reveal(Settings::with);
    lemma_answered(m.push(opt), (Settings { reject_pancakes: true, ..defaults() }), bare_texts(), res);
}

/// `--strip-thin` asks for thin boxes to be stripped, at a ten-thousandth unless a threshold is given, and
/// changes nothing else.
pub proof fn law_strip_thin(
    args: Seq<ArgView>,
    d: Settings,
    t: Texts,
    m: Seq<ArgView>,
    opt: ArgView,
    res: Result<Command, ArgError>,
)
    requires
        opt.text == "--strip-thin"@,
        reads_to(args, d, t),
        is_bare(m),
        is_answer(m.push(opt), res),
    ensures
        reads_to(args.push(opt), (Settings { strip_thin_obbs: Some(match d.strip_thin_obbs { Some(f) => f, None => Scalar { bits: 0x38d1_b717 } }), ..d }), t),
        res matches Ok(Command::Run(cli)) && cli.settings == (Settings { strip_thin_obbs: Some(Scalar { bits: 0x38d1_b717 }), ..defaults() }) && is_placed(m, cli),
{
    lemma_spellings();
    lemma_bare(m);
    lemma_switch(args, d, t, opt, Flag::StripThin);
    lemma_switch(m, defaults(), bare_texts(), opt, Flag::StripThin);
    reveal(Settings::with);
    lemma_answered(m.push(opt), (Settings { strip_thin_obbs: Some(Scalar { bits: 0x38d1_b717 }), ..defaults() }), bare_texts(), res);
}

/// `--axis-align` asks for boxes along the axes of the mesh, and
/// changes nothing else.
pub proof fn law_axis_align(
    args: Seq<ArgView>,
    d: Settings,
    t: Texts,
    m: Seq<ArgView>,
    opt: ArgView,
    res: Result<Command, ArgError>,
)
    requires
        opt.text == "--axis-align"@,
        reads_to(args, d, t),
        is_bare(m),
        is_answer(m.push(opt), res),
    ensures
        reads_to(args.push(opt), (Settings { axis_align: true, ..d }), t),
        res matches Ok(Command::Run(cli)) && cli.settings == (Settings { axis_align: true, ..defaults() }) && is_placed(m, cli),
{
    lemma_spellings();
    lemma_bare(m);
    lemma_switch(args, d, t, opt, Flag::AxisAlign);
    lemma_switch(m, defaults(), bare_texts(), opt, Flag::AxisAlign);
    reveal(Settings::with);
    lemma_answered(m.push(opt), (Settings { axis_align: true, ..defaults() }), bare_texts(), res);
}

/// `--world-axis` asks for boxes along the axes of the world, and
/// changes nothing else.
pub proof fn law_world_axis(
    args: Seq<ArgView>,
    d: Settings,
    t: Texts,
    m: Seq<ArgView>,
    opt: ArgView,
    res: Result<Command, ArgError>,
)
    requires
        opt.text == "--world-axis"@,
        reads_to(args, d, t),
        is_bare(m),
        is_answer(m.push(opt), res),
    ensures
        reads_to(args.push(opt), (Settings { world_axis_align: true, ..d }), t),
        res matches Ok(Command::Run(cli)) && cli.settings == (Settings { world_axis_align: true, ..defaults() }) && is_placed(m, cli),
{
    lemma_spellings();
    lemma_bare(m);
    lemma_switch(args, d, t, opt, Flag::WorldAxis);
    lemma_switch(m, defaults(), bare_texts(), opt, Flag::WorldAxis);
    reveal(Settings::with);
    lemma_answered(m.push(opt), (Settings { world_axis_align: true, ..defaults() }), bare_texts(), res);
}

/// `--no-tangent-eps` takes the thickness out of planes, and
/// changes nothing else.
pub proof fn law_no_tangent_eps(
    args: Seq<ArgView>,
    d: Settings,
    t: Texts,
    m: Seq<ArgView>,
    opt: ArgView,
    res: Result<Command, ArgError>,
)
    requires
        opt.text == "--no-tangent-eps"@,
        reads_to(args, d, t),
        is_bare(m),
        is_answer(m.push(opt), res),
    ensures
        reads_to(args.push(opt), (Settings { tangent_eps: Scalar { bits: 0 }, ..d }), t),
        res matches Ok(Command::Run(cli)) && cli.settings == (Settings { tangent_eps: Scalar { bits: 0 }, ..defaults() }) && is_placed(m, cli),
{
    lemma_spellings();
    lemma_bare(m);
    lemma_switch(args, d, t, opt, Flag::NoTangentEps);
    lemma_switch(m, defaults(), bare_texts(), opt, Flag::NoTangentEps);
    reveal(Settings::with);
    lemma_answered(m.push(opt), (Settings { tangent_eps: Scalar { bits: 0 }, ..defaults() }), bare_texts(), res);
}

/// `--proximity` asks for near faces to be joined: within a twentieth, two at most, up to forty-five degrees, unless they are given, and
/// changes nothing else.
pub proof fn law_proximity(
    args: Seq<ArgView>,
    d: Settings,
    t: Texts,
    m: Seq<ArgView>,
    opt: ArgView,
    res: Result<Command, ArgError>,
)
    requires
        opt.text == "--proximity"@,
        reads_to(args, d, t),
        is_bare(m),
        is_answer(m.push(opt), res),
    ensures
        reads_to(args.push(opt), (Settings { proximity: Some(match d.proximity { Some(p) => p, None => (Scalar { bits: 0x3d4c_cccd }, 2, Scalar { bits: 0x3f49_0fdb }) }), ..d }), t),
        res matches Ok(Command::Run(cli)) && cli.settings == (Settings { proximity: Some((Scalar { bits: 0x3d4c_cccd }, 2, Scalar { bits: 0x3f49_0fdb })), ..defaults() }) && is_placed(m, cli),
{
    lemma_spellings();
    lemma_bare(m);
    lemma_switch(args, d, t, opt, Flag::Proximity);
    lemma_switch(m, defaults(), bare_texts(), opt, Flag::Proximity);
    reveal(Settings::with);
    lemma_answered(m.push(opt), (Settings { proximity: Some((Scalar { bits: 0x3d4c_cccd }, 2, Scalar { bits: 0x3f49_0fdb })), ..defaults() }), bare_texts(), res);
}

/// `--metrics` asks for the measures, and
/// changes nothing else.
pub proof fn law_metrics(
    args: Seq<ArgView>,
    d: Settings,
    t: Texts,
    m: Seq<ArgView>,
    opt: ArgView,
    res: Result<Command, ArgError>,
)
    requires
        opt.text == "--metrics"@,
        reads_to(args, d, t),
        is_bare(m),
        is_answer(m.push(opt), res),
    ensures
        reads_to(args.push(opt), (Settings { metrics: true, ..d }), t),
        res matches Ok(Command::Run(cli)) && cli.settings == (Settings { metrics: true, ..defaults() }) && is_placed(m, cli),
{
    lemma_spellings();
    lemma_bare(m);
    lemma_switch(args, d, t, opt, Flag::Metrics);
    lemma_switch(m, defaults(), bare_texts(), opt, Flag::Metrics);
    reveal(Settings::with);
    lemma_answered(m.push(opt), (Settings { metrics: true, ..defaults() }), bare_texts(), res);
}

/// `--empty-space` limits empty space: to a quarter at a hundredth, unless they are given, and
/// changes nothing else.
pub proof fn law_empty_space(
    args: Seq<ArgView>,
    d: Settings,
    t: Texts,
    m: Seq<ArgView>,
    opt: ArgView,
    res: Result<Command, ArgError>,
)
    requires
        opt.text == "--empty-space"@,
        reads_to(args, d, t),
        is_bare(m),
        is_answer(m.push(opt), res),
    ensures
        reads_to(args.push(opt), (Settings { empty_space: Some(match d.empty_space { Some(p) => p, None => (Scalar { bits: 0x3e80_0000 }, Scalar { bits: 0x3c23_d70a }) }), ..d }), t),
        res matches Ok(Command::Run(cli)) && cli.settings == (Settings { empty_space: Some((Scalar { bits: 0x3e80_0000 }, Scalar { bits: 0x3c23_d70a })), ..defaults() }) && is_placed(m, cli),
{
    lemma_spellings();
    lemma_bare(m);
    lemma_switch(args, d, t, opt, Flag::EmptySpace);
    lemma_switch(m, defaults(), bare_texts(), opt, Flag::EmptySpace);
    reveal(Settings::with);
    lemma_answered(m.push(opt), (Settings { empty_space: Some((Scalar { bits: 0x3e80_0000 }, Scalar { bits: 0x3c23_d70a })), ..defaults() }), bare_texts(), res);
}

/// `--no-sphere` takes the sphere out of the shapes, and
/// changes nothing else.
pub proof fn law_no_sphere(
    args: Seq<ArgView>,
    d: Settings,
    t: Texts,
    m: Seq<ArgView>,
    opt: ArgView,
    res: Result<Command, ArgError>,
)
    requires
        opt.text == "--no-sphere"@,
        reads_to(args, d, t),
        is_bare(m),
        is_answer(m.push(opt), res),
    ensures
        reads_to(args.push(opt), (Settings { mask: PrimMask { sphere: false, ..d.mask }, ..d }), t),
        res matches Ok(Command::Run(cli)) && cli.settings == (Settings { mask: PrimMask { sphere: false, ..defaults().mask }, ..defaults() }) && is_placed(m, cli),
{
    lemma_spellings();
    lemma_bare(m);
    lemma_switch(args, d, t, opt, Flag::NoSphere);
    lemma_switch(m, defaults(), bare_texts(), opt, Flag::NoSphere);
    reveal(Settings::with);
    lemma_answered(m.push(opt), (Settings { mask: PrimMask { sphere: false, ..defaults().mask }, ..defaults() }), bare_texts(), res);
}

/// `--no-cylinder` takes the cylinder out of the shapes, and
/// changes nothing else.
pub proof fn law_no_cylinder(
    args: Seq<ArgView>,
    d: Settings,
    t: Texts,
    m: Seq<ArgView>,
    opt: ArgView,
    res: Result<Command, ArgError>,
)
    requires
        opt.text == "--no-cylinder"@,
        reads_to(args, d, t),
        is_bare(m),
        is_answer(m.push(opt), res),
    ensures
        reads_to(args.push(opt), (Settings { mask: PrimMask { cylinder: false, ..d.mask }, ..d }), t),
        res matches Ok(Command::Run(cli)) && cli.settings == (Settings { mask: PrimMask { cylinder: false, ..defaults().mask }, ..defaults() }) && is_placed(m, cli),
{
    lemma_spellings();
    lemma_bare(m);
    lemma_switch(args, d, t, opt, Flag::NoCylinder);
    lemma_switch(m, defaults(), bare_texts(), opt, Flag::NoCylinder);
    reveal(Settings::with);
    lemma_answered(m.push(opt), (Settings { mask: PrimMask { cylinder: false, ..defaults().mask }, ..defaults() }), bare_texts(), res);
}

/// `--no-capsule` takes the capsule out of the shapes, and
/// changes nothing else.
pub proof fn law_no_capsule(
    args: Seq<ArgView>,
    d: Settings,
    t: Texts,
    m: Seq<ArgView>,
    opt: ArgView,
    res: Result<Command, ArgError>,
)
    requires
        opt.text == "--no-capsule"@,
        reads_to(args, d, t),
        is_bare(m),
        is_answer(m.push(opt), res),
    ensures
        reads_to(args.push(opt), (Settings { mask: PrimMask { capsule: false, ..d.mask }, ..d }), t),
        res matches Ok(Command::Run(cli)) && cli.settings == (Settings { mask: PrimMask { capsule: false, ..defaults().mask }, ..defaults() }) && is_placed(m, cli),
{
    lemma_spellings();
    lemma_bare(m);
    lemma_switch(args, d, t, opt, Flag::NoCapsule);
    lemma_switch(m, defaults(), bare_texts(), opt, Flag::NoCapsule);
    reveal(Settings::with);
    lemma_answered(m.push(opt), (Settings { mask: PrimMask { capsule: false, ..defaults().mask }, ..defaults() }), bare_texts(), res);
}

/// `--no-frustum` takes the frustum out of the shapes, and
/// changes nothing else.
pub proof fn law_no_frustum(
    args: Seq<ArgView>,
    d: Settings,
    t: Texts,
    m: Seq<ArgView>,
    opt: ArgView,
    res: Result<Command, ArgError>,
)
    requires
        opt.text == "--no-frustum"@,
        reads_to(args, d, t),
        is_bare(m),
        is_answer(m.push(opt), res),
    ensures
        reads_to(args.push(opt), (Settings { mask: PrimMask { frustum: false, ..d.mask }, ..d }), t),
        res matches Ok(Command::Run(cli)) && cli.settings == (Settings { mask: PrimMask { frustum: false, ..defaults().mask }, ..defaults() }) && is_placed(m, cli),
{
    lemma_spellings();
    lemma_bare(m);
    lemma_switch(args, d, t, opt, Flag::NoFrustum);
    lemma_switch(m, defaults(), bare_texts(), opt, Flag::NoFrustum);
    reveal(Settings::with);
    lemma_answered(m.push(opt), (Settings { mask: PrimMask { frustum: false, ..defaults().mask }, ..defaults() }), bare_texts(), res);
}

/// `--no-prism` takes the prism out of the shapes, and
/// changes nothing else.
pub proof fn law_no_prism(
    args: Seq<ArgView>,
    d: Settings,
    t: Texts,
    m: Seq<ArgView>,
    opt: ArgView,
    res: Result<Command, ArgError>,
)
    requires
        opt.text == "--no-prism"@,
        reads_to(args, d, t),
        is_bare(m),
        is_answer(m.push(opt), res),
    ensures
        reads_to(args.push(opt), (Settings { mask: PrimMask { prism: false, ..d.mask }, ..d }), t),
        res matches Ok(Command::Run(cli)) && cli.settings == (Settings { mask: PrimMask { prism: false, ..defaults().mask }, ..defaults() }) && is_placed(m, cli),
{
    lemma_spellings();
    lemma_bare(m);
    lemma_switch(args, d, t, opt, Flag::NoPrism);
    lemma_switch(m, defaults(), bare_texts(), opt, Flag::NoPrism);
    reveal(Settings::with);
    lemma_answered(m.push(opt), (Settings { mask: PrimMask { prism: false, ..defaults().mask }, ..defaults() }), bare_texts(), res);
}

/// `--split-error-region` asks for splits where the error is, and with it for splitting, and
/// changes nothing else.
pub proof fn law_split_error_region(
    args: Seq<ArgView>,
    d: Settings,
    t: Texts,
    m: Seq<ArgView>,
    opt: ArgView,
    res: Result<Command, ArgError>,
)
    requires
        opt.text == "--split-error-region"@,
        reads_to(args, d, t),
        is_bare(m),
        is_answer(m.push(opt), res),
    ensures
        reads_to(args.push(opt), (Settings { split_error_region: true, split_worst: Some(match d.split_worst { Some(p) => p, None => (Scalar { bits: 0x3d4c_cccd }, 32) }), ..d }), t),
        res matches Ok(Command::Run(cli)) && cli.settings == (Settings { split_error_region: true, split_worst: Some((Scalar { bits: 0x3d4c_cccd }, 32)), ..defaults() }) && is_placed(m, cli),
{
    lemma_spellings();
    lemma_bare(m);
    lemma_switch(args, d, t, opt, Flag::SplitErrorRegion);
    lemma_switch(m, defaults(), bare_texts(), opt, Flag::SplitErrorRegion);
    reveal(Settings::with);
    lemma_answered(m.push(opt), (Settings { split_error_region: true, split_worst: Some((Scalar { bits: 0x3d4c_cccd }, 32)), ..defaults() }), bare_texts(), res);
}

/// `--volume-threshold` sets the largest volume a merge may add, and
/// changes nothing else.
pub proof fn law_volume_threshold(
    args: Seq<ArgView>,
    d: Settings,
    t: Texts,
    m: Seq<ArgView>,
    opt: ArgView,
    v: ArgView,
    n: Number,
    res: Result<Command, ArgError>,
)
    requires
        opt.text == "--volume-threshold"@,
        reads_to(args, d, t),
        is_bare(m),
        v.number == Some(n),
        is_answer(m.push(opt).push(v), res),
    ensures
        reads_to(args.push(opt).push(v), (Settings { volume_threshold_frac: n.value, ..d }), t),
        res matches Ok(Command::Run(cli)) && cli.settings == (Settings { volume_threshold_frac: n.value, ..defaults() }) && is_placed(m, cli),
        is_refused(args.push(opt), ArgError::MissingValue(Flag::VolumeThreshold)),
        begins_with(Flag::VolumeThreshold.spec_missing(), opt.text),
{
    lemma_spellings();
    lemma_bare(m);
    lemma_valued(args, d, t, opt, v, Flag::VolumeThreshold);
    lemma_valued(m, defaults(), bare_texts(), opt, v, Flag::VolumeThreshold);
    reveal(Settings::with);
    lemma_answered(m.push(opt).push(v), (Settings { volume_threshold_frac: n.value, ..defaults() }), bare_texts(), res);
    reveal_strlit("--volume-threshold");
    reveal_strlit("--volume-threshold needs f32");
    assert(Flag::VolumeThreshold.spec_missing().subrange(0, opt.text.len() as int) =~= opt.text);
}

/// `--quality` sets the weight of the fit, and
/// changes nothing else.
pub proof fn law_quality(
    args: Seq<ArgView>,
    d: Settings,
    t: Texts,
    m: Seq<ArgView>,
    opt: ArgView,
    v: ArgView,
    n: Number,
    res: Result<Command, ArgError>,
)
    requires
        opt.text == "--quality"@,
        reads_to(args, d, t),
        is_bare(m),
        v.number == Some(n),
        is_answer(m.push(opt).push(v), res),
    ensures
        reads_to(args.push(opt).push(v), (Settings { quality_beta: n.value, ..d }), t),
        res matches Ok(Command::Run(cli)) && cli.settings == (Settings { quality_beta: n.value, ..defaults() }) && is_placed(m, cli),
        is_refused(args.push(opt), ArgError::MissingValue(Flag::Quality)),
        begins_with(Flag::Quality.spec_missing(), opt.text),
{
    lemma_spellings();
    lemma_bare(m);
    lemma_valued(args, d, t, opt, v, Flag::Quality);
    lemma_valued(m, defaults(), bare_texts(), opt, v, Flag::Quality);
    reveal(Settings::with);
    lemma_answered(m.push(opt).push(v), (Settings { quality_beta: n.value, ..defaults() }), bare_texts(), res);
    reveal_strlit("--quality");
    reveal_strlit("--quality needs a beta value");
    assert(Flag::Quality.spec_missing().subrange(0, opt.text.len() as int) =~= opt.text);
}

/// `--subdivide-bad-faces` asks for large faces to be divided from this size on, once unless a depth is given, and
/// changes nothing else.
pub proof fn law_subdivide_bad_faces(
    args: Seq<ArgView>,
    d: Settings,
    t: Texts,
    m: Seq<ArgView>,
    opt: ArgView,
    v: ArgView,
    n: Number,
    res: Result<Command, ArgError>,
)
    requires
        opt.text == "--subdivide-bad-faces"@,
        reads_to(args, d, t),
        is_bare(m),
        v.number == Some(n),
        positive_finite(n.value),
        is_answer(m.push(opt).push(v), res),
    ensures
        reads_to(args.push(opt).push(v), (Settings { subdivide_bad_faces: Some((n.value, match d.subdivide_bad_faces { Some(p) => p.1, None => 1 })), ..d }), t),
        res matches Ok(Command::Run(cli)) && cli.settings == (Settings { subdivide_bad_faces: Some((n.value, 1)), ..defaults() }) && is_placed(m, cli),
        is_refused(args.push(opt), ArgError::MissingValue(Flag::SubdivideBadFaces)),
        begins_with(Flag::SubdivideBadFaces.spec_missing(), opt.text),
{
    lemma_spellings();
    lemma_bare(m);
    lemma_valued(args, d, t, opt, v, Flag::SubdivideBadFaces);
    lemma_valued(m, defaults(), bare_texts(), opt, v, Flag::SubdivideBadFaces);
    reveal(Settings::with);
    lemma_answered(m.push(opt).push(v), (Settings { subdivide_bad_faces: Some((n.value, 1)), ..defaults() }), bare_texts(), res);
    reveal_strlit("--subdivide-bad-faces");
    reveal_strlit("--subdivide-bad-faces needs a threshold-frac-of-diag value");
    assert(Flag::SubdivideBadFaces.spec_missing().subrange(0, opt.text.len() as int) =~= opt.text);
}

/// `--strip-thin-threshold` asks for boxes thinner than this to be stripped, and
/// changes nothing else.
pub proof fn law_strip_thin_threshold(
    args: Seq<ArgView>,
    d: Settings,
    t: Texts,
    m: Seq<ArgView>,
    opt: ArgView,
    v: ArgView,
    n: Number,
    res: Result<Command, ArgError>,
)
    requires
        opt.text == "--strip-thin-threshold"@,
        reads_to(args, d, t),
        is_bare(m),
        v.number == Some(n),
        is_answer(m.push(opt).push(v), res),
    ensures
        reads_to(args.push(opt).push(v), (Settings { strip_thin_obbs: Some(n.value), ..d }), t),
        res matches Ok(Command::Run(cli)) && cli.settings == (Settings { strip_thin_obbs: Some(n.value), ..defaults() }) && is_placed(m, cli),
        is_refused(args.push(opt), ArgError::MissingValue(Flag::StripThinThreshold)),
        begins_with(Flag::StripThinThreshold.spec_missing(), opt.text),
{
    lemma_spellings();
    lemma_bare(m);
    lemma_valued(args, d, t, opt, v, Flag::StripThinThreshold);
    lemma_valued(m, defaults(), bare_texts(), opt, v, Flag::StripThinThreshold);
    reveal(Settings::with);
    lemma_answered(m.push(opt).push(v), (Settings { strip_thin_obbs: Some(n.value), ..defaults() }), bare_texts(), res);
    reveal_strlit("--strip-thin-threshold");
    reveal_strlit("--strip-thin-threshold needs f32");
    assert(Flag::StripThinThreshold.spec_missing().subrange(0, opt.text.len() as int) =~= opt.text);
}

/// `--feasibility` limits how far a primitive may reach, and
/// changes nothing else.
pub proof fn law_feasibility(
    args: Seq<ArgView>,
    d: Settings,
    t: Texts,
    m: Seq<ArgView>,
    opt: ArgView,
    v: ArgView,
    n: Number,
    res: Result<Command, ArgError>,
)
    requires
        opt.text == "--feasibility"@,
        reads_to(args, d, t),
        is_bare(m),
        v.number == Some(n),
        is_answer(m.push(opt).push(v), res),
    ensures
        reads_to(args.push(opt).push(v), (Settings { feasibility: Some(n.value), ..d }), t),
        res matches Ok(Command::Run(cli)) && cli.settings == (Settings { feasibility: Some(n.value), ..defaults() }) && is_placed(m, cli),
        is_refused(args.push(opt), ArgError::MissingValue(Flag::Feasibility)),
        begins_with(Flag::Feasibility.spec_missing(), opt.text),
{
    lemma_spellings();
    lemma_bare(m);
    lemma_valued(args, d, t, opt, v, Flag::Feasibility);
    lemma_valued(m, defaults(), bare_texts(), opt, v, Flag::Feasibility);
    reveal(Settings::with);
    lemma_answered(m.push(opt).push(v), (Settings { feasibility: Some(n.value), ..defaults() }), bare_texts(), res);
    reveal_strlit("--feasibility");
    reveal_strlit("--feasibility needs a max-frac-of-diag value");
    assert(Flag::Feasibility.spec_missing().subrange(0, opt.text.len() as int) =~= opt.text);
}

/// `--outside-space` limits how far a primitive may stand out, and
/// changes nothing else.
pub proof fn law_outside_space(
    args: Seq<ArgView>,
    d: Settings,
    t: Texts,
    m: Seq<ArgView>,
    opt: ArgView,
    v: ArgView,
    n: Number,
    res: Result<Command, ArgError>,
)
    requires
        opt.text == "--outside-space"@,
        reads_to(args, d, t),
        is_bare(m),
        v.number == Some(n),
        positive_finite(n.value),
        is_answer(m.push(opt).push(v), res),
    ensures
        reads_to(args.push(opt).push(v), (Settings { outside_space: Some(n.value), ..d }), t),
        res matches Ok(Command::Run(cli)) && cli.settings == (Settings { outside_space: Some(n.value), ..defaults() }) && is_placed(m, cli),
        is_refused(args.push(opt), ArgError::MissingValue(Flag::OutsideSpace)),
        begins_with(Flag::OutsideSpace.spec_missing(), opt.text),
{
    lemma_spellings();
    lemma_bare(m);
    lemma_valued(args, d, t, opt, v, Flag::OutsideSpace);
    lemma_valued(m, defaults(), bare_texts(), opt, v, Flag::OutsideSpace);
    reveal(Settings::with);
    lemma_answered(m.push(opt).push(v), (Settings { outside_space: Some(n.value), ..defaults() }), bare_texts(), res);
    reveal_strlit("--outside-space");
    reveal_strlit("--outside-space needs a max-frac-of-diag value");
    assert(Flag::OutsideSpace.spec_missing().subrange(0, opt.text.len() as int) =~= opt.text);
}

/// `--split-worst` asks for splits from this error on, thirty-two at most unless a number is given, and
/// changes nothing else.
pub proof fn law_split_worst(
    args: Seq<ArgView>,
    d: Settings,
    t: Texts,
    m: Seq<ArgView>,
    opt: ArgView,
    v: ArgView,
    n: Number,
    res: Result<Command, ArgError>,
)
    requires
        opt.text == "--split-worst"@,
        reads_to(args, d, t),
        is_bare(m),
        v.number == Some(n),
        is_answer(m.push(opt).push(v), res),
    ensures
        reads_to(args.push(opt).push(v), (Settings { split_worst: Some((n.value, match d.split_worst { Some(p) => p.1, None => 32 })), ..d }), t),
        res matches Ok(Command::Run(cli)) && cli.settings == (Settings { split_worst: Some((n.value, 32)), ..defaults() }) && is_placed(m, cli),
        is_refused(args.push(opt), ArgError::MissingValue(Flag::SplitWorst)),
        begins_with(Flag::SplitWorst.spec_missing(), opt.text),
{
    lemma_spellings();
    lemma_bare(m);
    lemma_valued(args, d, t, opt, v, Flag::SplitWorst);
    lemma_valued(m, defaults(), bare_texts(), opt, v, Flag::SplitWorst);
    reveal(Settings::with);
    lemma_answered(m.push(opt).push(v), (Settings { split_worst: Some((n.value, 32)), ..defaults() }), bare_texts(), res);
    reveal_strlit("--split-worst");
    reveal_strlit("--split-worst needs a threshold-frac-of-diag value");
    assert(Flag::SplitWorst.spec_missing().subrange(0, opt.text.len() as int) =~= opt.text);
}

/// `--repair-bad-slabs` asks for repairs from this error on, thirty-two at most unless a number is given, and
/// changes nothing else.
pub proof fn law_repair_bad_slabs(
    args: Seq<ArgView>,
    d: Settings,
    t: Texts,
    m: Seq<ArgView>,
    opt: ArgView,
    v: ArgView,
    n: Number,
    res: Result<Command, ArgError>,
)
    requires
        opt.text == "--repair-bad-slabs"@,
        reads_to(args, d, t),
        is_bare(m),
        v.number == Some(n),
        positive_finite(n.value),
        is_answer(m.push(opt).push(v), res),
    ensures
        reads_to(args.push(opt).push(v), (Settings { repair_bad_slabs: Some((n.value, match d.repair_bad_slabs { Some(p) => p.1, None => 32 })), ..d }), t),
        res matches Ok(Command::Run(cli)) && cli.settings == (Settings { repair_bad_slabs: Some((n.value, 32)), ..defaults() }) && is_placed(m, cli),
        is_refused(args.push(opt), ArgError::MissingValue(Flag::RepairBadSlabs)),
        begins_with(Flag::RepairBadSlabs.spec_missing(), opt.text),
{
    lemma_spellings();
    lemma_bare(m);
    lemma_valued(args, d, t, opt, v, Flag::RepairBadSlabs);
    lemma_valued(m, defaults(), bare_texts(), opt, v, Flag::RepairBadSlabs);
    reveal(Settings::with);
    lemma_answered(m.push(opt).push(v), (Settings { repair_bad_slabs: Some((n.value, 32)), ..defaults() }), bare_texts(), res);
    reveal_strlit("--repair-bad-slabs");
    reveal_strlit("--repair-bad-slabs needs a threshold-frac-of-diag value");
    assert(Flag::RepairBadSlabs.spec_missing().subrange(0, opt.text.len() as int) =~= opt.text);
}

/// `--shrink-high-error` asks for shrinking from this error on, and
/// changes nothing else.
pub proof fn law_shrink_high_error(
    args: Seq<ArgView>,
    d: Settings,
    t: Texts,
    m: Seq<ArgView>,
    opt: ArgView,
    v: ArgView,
    n: Number,
    res: Result<Command, ArgError>,
)
    requires
        opt.text == "--shrink-high-error"@,
        reads_to(args, d, t),
        is_bare(m),
        v.number == Some(n),
        positive_finite(n.value),
        is_answer(m.push(opt).push(v), res),
    ensures
        reads_to(args.push(opt).push(v), (Settings { shrink_high_error: Some(n.value), ..d }), t),
        res matches Ok(Command::Run(cli)) && cli.settings == (Settings { shrink_high_error: Some(n.value), ..defaults() }) && is_placed(m, cli),
        is_refused(args.push(opt), ArgError::MissingValue(Flag::ShrinkHighError)),
        begins_with(Flag::ShrinkHighError.spec_missing(), opt.text),
{
    lemma_spellings();
    lemma_bare(m);
    lemma_valued(args, d, t, opt, v, Flag::ShrinkHighError);
    lemma_valued(m, defaults(), bare_texts(), opt, v, Flag::ShrinkHighError);
    reveal(Settings::with);
    lemma_answered(m.push(opt).push(v), (Settings { shrink_high_error: Some(n.value), ..defaults() }), bare_texts(), res);
    reveal_strlit("--shrink-high-error");
    reveal_strlit("--shrink-high-error needs a threshold-frac-of-diag value");
    assert(Flag::ShrinkHighError.spec_missing().subrange(0, opt.text.len() as int) =~= opt.text);
}

/// `--cull-overlap` asks for primitives covered to this part to be culled, and
/// changes nothing else.
pub proof fn law_cull_overlap(
    args: Seq<ArgView>,
    d: Settings,
    t: Texts,
    m: Seq<ArgView>,
    opt: ArgView,
    v: ArgView,
    n: Number,
    res: Result<Command, ArgError>,
)
    requires
        opt.text == "--cull-overlap"@,
        reads_to(args, d, t),
        is_bare(m),
        v.number == Some(n),
        is_answer(m.push(opt).push(v), res),
    ensures
        reads_to(args.push(opt).push(v), (Settings { cull_overlap: Some(n.value), ..d }), t),
        res matches Ok(Command::Run(cli)) && cli.settings == (Settings { cull_overlap: Some(n.value), ..defaults() }) && is_placed(m, cli),
        is_refused(args.push(opt), ArgError::MissingValue(Flag::CullOverlap)),
        begins_with(Flag::CullOverlap.spec_missing(), opt.text),
{
    lemma_spellings();
    lemma_bare(m);
    lemma_valued(args, d, t, opt, v, Flag::CullOverlap);
    lemma_valued(m, defaults(), bare_texts(), opt, v, Flag::CullOverlap);
    reveal(Settings::with);
    lemma_answered(m.push(opt).push(v), (Settings { cull_overlap: Some(n.value), ..defaults() }), bare_texts(), res);
    reveal_strlit("--cull-overlap");
    reveal_strlit("--cull-overlap needs a 0..1 fraction");
    assert(Flag::CullOverlap.spec_missing().subrange(0, opt.text.len() as int) =~= opt.text);
}

/// `--collision-simplify` asks for details within this distance to be dropped, and
/// changes nothing else.
pub proof fn law_collision_simplify(
    args: Seq<ArgView>,
    d: Settings,
    t: Texts,
    m: Seq<ArgView>,
    opt: ArgView,
    v: ArgView,
    n: Number,
    res: Result<Command, ArgError>,
)
    requires
        opt.text == "--collision-simplify"@,
        reads_to(args, d, t),
        is_bare(m),
        v.number == Some(n),
        positive_finite(n.value),
        is_answer(m.push(opt).push(v), res),
    ensures
        reads_to(args.push(opt).push(v), (Settings { collision_simplify: Some(n.value), ..d }), t),
        res matches Ok(Command::Run(cli)) && cli.settings == (Settings { collision_simplify: Some(n.value), ..defaults() }) && is_placed(m, cli),
        is_refused(args.push(opt), ArgError::MissingValue(Flag::CollisionSimplify)),
        begins_with(Flag::CollisionSimplify.spec_missing(), opt.text),
{
    lemma_spellings();
    lemma_bare(m);
    lemma_valued(args, d, t, opt, v, Flag::CollisionSimplify);
    lemma_valued(m, defaults(), bare_texts(), opt, v, Flag::CollisionSimplify);
    reveal(Settings::with);
    lemma_answered(m.push(opt).push(v), (Settings { collision_simplify: Some(n.value), ..defaults() }), bare_texts(), res);
    reveal_strlit("--collision-simplify");
    reveal_strlit("--collision-simplify needs a tolerance-frac-of-diag value");
    assert(Flag::CollisionSimplify.spec_missing().subrange(0, opt.text.len() as int) =~= opt.text);
}

/// `--collision-target-scale` sets the scale of the target, and
/// changes nothing else.
pub proof fn law_collision_target_scale(
    args: Seq<ArgView>,
    d: Settings,
    t: Texts,
    m: Seq<ArgView>,
    opt: ArgView,
    v: ArgView,
    n: Number,
    res: Result<Command, ArgError>,
)
    requires
        opt.text == "--collision-target-scale"@,
        reads_to(args, d, t),
        is_bare(m),
        v.number == Some(n),
        positive_finite(n.value),
        is_answer(m.push(opt).push(v), res),
    ensures
        reads_to(args.push(opt).push(v), (Settings { collision_target_scale: Some(n.value), ..d }), t),
        res matches Ok(Command::Run(cli)) && cli.settings == (Settings { collision_target_scale: Some(n.value), ..defaults() }) && is_placed(m, cli),
        is_refused(args.push(opt), ArgError::MissingValue(Flag::CollisionTargetScale)),
        begins_with(Flag::CollisionTargetScale.spec_missing(), opt.text),
{
    lemma_spellings();
    lemma_bare(m);
    lemma_valued(args, d, t, opt, v, Flag::CollisionTargetScale);
    lemma_valued(m, defaults(), bare_texts(), opt, v, Flag::CollisionTargetScale);
    reveal(Settings::with);
    lemma_answered(m.push(opt).push(v), (Settings { collision_target_scale: Some(n.value), ..defaults() }), bare_texts(), res);
    reveal_strlit("--collision-target-scale");
    reveal_strlit("--collision-target-scale needs a positive scale");
    assert(Flag::CollisionTargetScale.spec_missing().subrange(0, opt.text.len() as int) =~= opt.text);
}

/// `--collision-ignore-detail` sets from what size on a detail counts, and
/// changes nothing else.
pub proof fn law_collision_ignore_detail(
    args: Seq<ArgView>,
    d: Settings,
    t: Texts,
    m: Seq<ArgView>,
    opt: ArgView,
    v: ArgView,
    n: Number,
    res: Result<Command, ArgError>,
)
    requires
        opt.text == "--collision-ignore-detail"@,
        reads_to(args, d, t),
        is_bare(m),
        v.number == Some(n),
        positive_finite(n.value),
        is_answer(m.push(opt).push(v), res),
    ensures
        reads_to(args.push(opt).push(v), (Settings { collision_ignore_detail: Some(n.value), ..d }), t),
        res matches Ok(Command::Run(cli)) && cli.settings == (Settings { collision_ignore_detail: Some(n.value), ..defaults() }) && is_placed(m, cli),
        is_refused(args.push(opt), ArgError::MissingValue(Flag::CollisionIgnoreDetail)),
        begins_with(Flag::CollisionIgnoreDetail.spec_missing(), opt.text),
{
    lemma_spellings();
    lemma_bare(m);
    lemma_valued(args, d, t, opt, v, Flag::CollisionIgnoreDetail);
    lemma_valued(m, defaults(), bare_texts(), opt, v, Flag::CollisionIgnoreDetail);
    reveal(Settings::with);
    lemma_answered(m.push(opt).push(v), (Settings { collision_ignore_detail: Some(n.value), ..defaults() }), bare_texts(), res);
    reveal_strlit("--collision-ignore-detail");
    reveal_strlit("--collision-ignore-detail needs a feature-scale fraction");
    assert(Flag::CollisionIgnoreDetail.spec_missing().subrange(0, opt.text.len() as int) =~= opt.text);
}

/// `--collision-support-planes` sets the distance of supporting planes, and
/// changes nothing else.
pub proof fn law_collision_support_planes(
    args: Seq<ArgView>,
    d: Settings,
    t: Texts,
    m: Seq<ArgView>,
    opt: ArgView,
    v: ArgView,
    n: Number,
    res: Result<Command, ArgError>,
)
    requires
        opt.text == "--collision-support-planes"@,
        reads_to(args, d, t),
        is_bare(m),
        v.number == Some(n),
        positive_finite(n.value),
        is_answer(m.push(opt).push(v), res),
    ensures
        reads_to(args.push(opt).push(v), (Settings { collision_support_planes: Some(n.value), ..d }), t),
        res matches Ok(Command::Run(cli)) && cli.settings == (Settings { collision_support_planes: Some(n.value), ..defaults() }) && is_placed(m, cli),
        is_refused(args.push(opt), ArgError::MissingValue(Flag::CollisionSupportPlanes)),
        begins_with(Flag::CollisionSupportPlanes.spec_missing(), opt.text),
{
    lemma_spellings();
    lemma_bare(m);
    lemma_valued(args, d, t, opt, v, Flag::CollisionSupportPlanes);
    lemma_valued(m, defaults(), bare_texts(), opt, v, Flag::CollisionSupportPlanes);
    reveal(Settings::with);
    lemma_answered(m.push(opt).push(v), (Settings { collision_support_planes: Some(n.value), ..defaults() }), bare_texts(), res);
    reveal_strlit("--collision-support-planes");
    reveal_strlit("--collision-support-planes needs a plane-distance fraction");
    assert(Flag::CollisionSupportPlanes.spec_missing().subrange(0, opt.text.len() as int) =~= opt.text);
}

/// `--refine-search` asks for a search for better fits from this error on, twenty rounds at most unless a number is given, and
/// changes nothing else.
pub proof fn law_refine_search(
    args: Seq<ArgView>,
    d: Settings,
    t: Texts,
    m: Seq<ArgView>,
    opt: ArgView,
    v: ArgView,
    n: Number,
    res: Result<Command, ArgError>,
)
    requires
        opt.text == "--refine-search"@,
        reads_to(args, d, t),
        is_bare(m),
        v.number == Some(n),
        is_answer(m.push(opt).push(v), res),
    ensures
        reads_to(args.push(opt).push(v), (Settings { refine_search: Some((n.value, match d.refine_search { Some(p) => p.1, None => 20 })), ..d }), t),
        res matches Ok(Command::Run(cli)) && cli.settings == (Settings { refine_search: Some((n.value, 20)), ..defaults() }) && is_placed(m, cli),
        is_refused(args.push(opt), ArgError::MissingValue(Flag::RefineSearch)),
        begins_with(Flag::RefineSearch.spec_missing(), opt.text),
{
    lemma_spellings();
    lemma_bare(m);
    lemma_valued(args, d, t, opt, v, Flag::RefineSearch);
    lemma_valued(m, defaults(), bare_texts(), opt, v, Flag::RefineSearch);
    reveal(Settings::with);
    lemma_answered(m.push(opt).push(v), (Settings { refine_search: Some((n.value, 20)), ..defaults() }), bare_texts(), res);
    reveal_strlit("--refine-search");
    reveal_strlit("--refine-search needs a threshold-frac-of-diag value");
    assert(Flag::RefineSearch.spec_missing().subrange(0, opt.text.len() as int) =~= opt.text);
}

/// `--tangent-eps` sets the thickness of planes, and
/// changes nothing else.
pub proof fn law_tangent_eps(
    args: Seq<ArgView>,
    d: Settings,
    t: Texts,
    m: Seq<ArgView>,
    opt: ArgView,
    v: ArgView,
    n: Number,
    res: Result<Command, ArgError>,
)
    requires
        opt.text == "--tangent-eps"@,
        reads_to(args, d, t),
        is_bare(m),
        v.number == Some(n),
        is_answer(m.push(opt).push(v), res),
    ensures
        reads_to(args.push(opt).push(v), (Settings { tangent_eps: n.value, ..d }), t),
        res matches Ok(Command::Run(cli)) && cli.settings == (Settings { tangent_eps: n.value, ..defaults() }) && is_placed(m, cli),
        is_refused(args.push(opt), ArgError::MissingValue(Flag::TangentEps)),
        begins_with(Flag::TangentEps.spec_missing(), opt.text),
{
    lemma_spellings();
    lemma_bare(m);
    lemma_valued(args, d, t, opt, v, Flag::TangentEps);
    lemma_valued(m, defaults(), bare_texts(), opt, v, Flag::TangentEps);
    reveal(Settings::with);
    lemma_answered(m.push(opt).push(v), (Settings { tangent_eps: n.value, ..defaults() }), bare_texts(), res);
    reveal_strlit("--tangent-eps");
    reveal_strlit("--tangent-eps needs f32");
    assert(Flag::TangentEps.spec_missing().subrange(0, opt.text.len() as int) =~= opt.text);
}

/// `--proximity-r` sets the distance of near faces, and
/// changes nothing else.
pub proof fn law_proximity_r(
    args: Seq<ArgView>,
    d: Settings,
    t: Texts,
    m: Seq<ArgView>,
    opt: ArgView,
    v: ArgView,
    n: Number,
    res: Result<Command, ArgError>,
)
    requires
        opt.text == "--proximity-r"@,
        reads_to(args, d, t),
        is_bare(m),
        v.number == Some(n),
        is_answer(m.push(opt).push(v), res),
    ensures
        reads_to(args.push(opt).push(v), (Settings { proximity: Some(match d.proximity { Some(p) => (n.value, p.1, p.2), None => (n.value, 2, Scalar { bits: 0x3f49_0fdb }) }), ..d }), t),
        res matches Ok(Command::Run(cli)) && cli.settings == (Settings { proximity: Some((n.value, 2, Scalar { bits: 0x3f49_0fdb })), ..defaults() }) && is_placed(m, cli),
        is_refused(args.push(opt), ArgError::MissingValue(Flag::ProximityR)),
        begins_with(Flag::ProximityR.spec_missing(), opt.text),
{
    lemma_spellings();
    lemma_bare(m);
    lemma_valued(args, d, t, opt, v, Flag::ProximityR);
    lemma_valued(m, defaults(), bare_texts(), opt, v, Flag::ProximityR);
    reveal(Settings::with);
    lemma_answered(m.push(opt).push(v), (Settings { proximity: Some((n.value, 2, Scalar { bits: 0x3f49_0fdb })), ..defaults() }), bare_texts(), res);
    reveal_strlit("--proximity-r");
    reveal_strlit("--proximity-r needs f32");
    assert(Flag::ProximityR.spec_missing().subrange(0, opt.text.len() as int) =~= opt.text);
}

/// `--proximity-angle` sets the angle between near faces, given in degrees, and
/// changes nothing else.
pub proof fn law_proximity_angle(
    args: Seq<ArgView>,
    d: Settings,
    t: Texts,
    m: Seq<ArgView>,
    opt: ArgView,
    v: ArgView,
    n: Number,
    res: Result<Command, ArgError>,
)
    requires
        opt.text == "--proximity-angle"@,
        reads_to(args, d, t),
        is_bare(m),
        v.number == Some(n),
        is_answer(m.push(opt).push(v), res),
    ensures
        reads_to(args.push(opt).push(v), (Settings { proximity: Some(match d.proximity { Some(p) => (p.0, p.1, n.in_radians), None => (Scalar { bits: 0x3d4c_cccd }, 2, n.in_radians) }), ..d }), t),
        res matches Ok(Command::Run(cli)) && cli.settings == (Settings { proximity: Some((Scalar { bits: 0x3d4c_cccd }, 2, n.in_radians)), ..defaults() }) && is_placed(m, cli),
        is_refused(args.push(opt), ArgError::MissingValue(Flag::ProximityAngle)),
        begins_with(Flag::ProximityAngle.spec_missing(), opt.text),
{
    lemma_spellings();
    lemma_bare(m);
    lemma_valued(args, d, t, opt, v, Flag::ProximityAngle);
    lemma_valued(m, defaults(), bare_texts(), opt, v, Flag::ProximityAngle);
    reveal(Settings::with);
    lemma_answered(m.push(opt).push(v), (Settings { proximity: Some((Scalar { bits: 0x3d4c_cccd }, 2, n.in_radians)), ..defaults() }), bare_texts(), res);
    reveal_strlit("--proximity-angle");
    reveal_strlit("--proximity-angle needs degrees");
    assert(Flag::ProximityAngle.spec_missing().subrange(0, opt.text.len() as int) =~= opt.text);
}

/// `--empty-space-fraction` sets the part of a primitive that may be empty, and
/// changes nothing else.
pub proof fn law_empty_space_fraction(
    args: Seq<ArgView>,
    d: Settings,
    t: Texts,
    m: Seq<ArgView>,
    opt: ArgView,
    v: ArgView,
    n: Number,
    res: Result<Command, ArgError>,
)
    requires
        opt.text == "--empty-space-fraction"@,
        reads_to(args, d, t),
        is_bare(m),
        v.number == Some(n),
        is_answer(m.push(opt).push(v), res),
    ensures
        reads_to(args.push(opt).push(v), (Settings { empty_space: Some((n.value, match d.empty_space { Some(p) => p.1, None => Scalar { bits: 0x3c23_d70a } })), ..d }), t),
        res matches Ok(Command::Run(cli)) && cli.settings == (Settings { empty_space: Some((n.value, Scalar { bits: 0x3c23_d70a })), ..defaults() }) && is_placed(m, cli),
        is_refused(args.push(opt), ArgError::MissingValue(Flag::EmptySpaceFraction)),
        begins_with(Flag::EmptySpaceFraction.spec_missing(), opt.text),
{
    lemma_spellings();
    lemma_bare(m);
    lemma_valued(args, d, t, opt, v, Flag::EmptySpaceFraction);
    lemma_valued(m, defaults(), bare_texts(), opt, v, Flag::EmptySpaceFraction);
    reveal(Settings::with);
    lemma_answered(m.push(opt).push(v), (Settings { empty_space: Some((n.value, Scalar { bits: 0x3c23_d70a })), ..defaults() }), bare_texts(), res);
    reveal_strlit("--empty-space-fraction");
    reveal_strlit("--empty-space-fraction needs f32");
    assert(Flag::EmptySpaceFraction.spec_missing().subrange(0, opt.text.len() as int) =~= opt.text);
}

/// `--empty-space-distance` sets from what distance on space is empty, and
/// changes nothing else.
pub proof fn law_empty_space_distance(
    args: Seq<ArgView>,
    d: Settings,
    t: Texts,
    m: Seq<ArgView>,
    opt: ArgView,
    v: ArgView,
    n: Number,
    res: Result<Command, ArgError>,
)
    requires
        opt.text == "--empty-space-distance"@,
        reads_to(args, d, t),
        is_bare(m),
        v.number == Some(n),
        is_answer(m.push(opt).push(v), res),
    ensures
        reads_to(args.push(opt).push(v), (Settings { empty_space: Some((match d.empty_space { Some(p) => p.0, None => Scalar { bits: 0x3e80_0000 } }, n.value)), ..d }), t),
        res matches Ok(Command::Run(cli)) && cli.settings == (Settings { empty_space: Some((Scalar { bits: 0x3e80_0000 }, n.value)), ..defaults() }) && is_placed(m, cli),
        is_refused(args.push(opt), ArgError::MissingValue(Flag::EmptySpaceDistance)),
        begins_with(Flag::EmptySpaceDistance.spec_missing(), opt.text),
{
    lemma_spellings();
    lemma_bare(m);
    lemma_valued(args, d, t, opt, v, Flag::EmptySpaceDistance);
    lemma_valued(m, defaults(), bare_texts(), opt, v, Flag::EmptySpaceDistance);
    reveal(Settings::with);
    lemma_answered(m.push(opt).push(v), (Settings { empty_space: Some((Scalar { bits: 0x3e80_0000 }, n.value)), ..defaults() }), bare_texts(), res);
    reveal_strlit("--empty-space-distance");
    reveal_strlit("--empty-space-distance needs f32");
    assert(Flag::EmptySpaceDistance.spec_missing().subrange(0, opt.text.len() as int) =~= opt.text);
}

/// `--subdivide-bad-faces-max-depth` sets how often a large face is divided, and
/// changes nothing else.
pub proof fn law_subdivide_bad_faces_max_depth(
    args: Seq<ArgView>,
    d: Settings,
    t: Texts,
    m: Seq<ArgView>,
    opt: ArgView,
    v: ArgView,
    res: Result<Command, ArgError>,
)
    requires
        opt.text == "--subdivide-bad-faces-max-depth"@,
        reads_to(args, d, t),
        is_bare(m),
        is_count(v.text, usize::MAX as int),
        digits_value(unsigned_digits(v.text)) > 0,
        is_answer(m.push(opt).push(v), res),
    ensures
        reads_to(args.push(opt).push(v), (Settings { subdivide_bad_faces: Some((match d.subdivide_bad_faces { Some(p) => p.0, None => Scalar { bits: 0x3d4c_cccd } }, digits_value(unsigned_digits(v.text)) as usize)), ..d }), t),
        res matches Ok(Command::Run(cli)) && cli.settings == (Settings { subdivide_bad_faces: Some((Scalar { bits: 0x3d4c_cccd }, digits_value(unsigned_digits(v.text)) as usize)), ..defaults() }) && is_placed(m, cli),
        is_refused(args.push(opt), ArgError::MissingValue(Flag::SubdivideMaxDepth)),
        begins_with(Flag::SubdivideMaxDepth.spec_missing(), opt.text),
{
    lemma_spellings();
    lemma_bare(m);
    lemma_valued(args, d, t, opt, v, Flag::SubdivideMaxDepth);
    lemma_valued(m, defaults(), bare_texts(), opt, v, Flag::SubdivideMaxDepth);
    reveal(Settings::with);
    lemma_answered(m.push(opt).push(v), (Settings { subdivide_bad_faces: Some((Scalar { bits: 0x3d4c_cccd }, digits_value(unsigned_digits(v.text)) as usize)), ..defaults() }), bare_texts(), res);
    reveal_strlit("--subdivide-bad-faces-max-depth");
    reveal_strlit("--subdivide-bad-faces-max-depth needs an integer");
    assert(Flag::SubdivideMaxDepth.spec_missing().subrange(0, opt.text.len() as int) =~= opt.text);
}

/// `--split-worst-max` sets how many splits there are at most, and
/// changes nothing else.
pub proof fn law_split_worst_max(
    args: Seq<ArgView>,
    d: Settings,
    t: Texts,
    m: Seq<ArgView>,
    opt: ArgView,
    v: ArgView,
    res: Result<Command, ArgError>,
)
    requires
        opt.text == "--split-worst-max"@,
        reads_to(args, d, t),
        is_bare(m),
        is_count(v.text, usize::MAX as int),
        is_answer(m.push(opt).push(v), res),
    ensures
        reads_to(args.push(opt).push(v), (Settings { split_worst: Some((match d.split_worst { Some(p) => p.0, None => Scalar { bits: 0x3d4c_cccd } }, digits_value(unsigned_digits(v.text)) as usize)), ..d }), t),
        res matches Ok(Command::Run(cli)) && cli.settings == (Settings { split_worst: Some((Scalar { bits: 0x3d4c_cccd }, digits_value(unsigned_digits(v.text)) as usize)), ..defaults() }) && is_placed(m, cli),
        is_refused(args.push(opt), ArgError::MissingValue(Flag::SplitWorstMax)),
        begins_with(Flag::SplitWorstMax.spec_missing(), opt.text),
{
    lemma_spellings();
    lemma_bare(m);
    lemma_valued(args, d, t, opt, v, Flag::SplitWorstMax);
    lemma_valued(m, defaults(), bare_texts(), opt, v, Flag::SplitWorstMax);
    reveal(Settings::with);
    lemma_answered(m.push(opt).push(v), (Settings { split_worst: Some((Scalar { bits: 0x3d4c_cccd }, digits_value(unsigned_digits(v.text)) as usize)), ..defaults() }), bare_texts(), res);
    reveal_strlit("--split-worst-max");
    reveal_strlit("--split-worst-max needs an integer");
    assert(Flag::SplitWorstMax.spec_missing().subrange(0, opt.text.len() as int) =~= opt.text);
}

/// `--repair-bad-slabs-max` sets how many repairs there are at most, and
/// changes nothing else.
pub proof fn law_repair_bad_slabs_max(
    args: Seq<ArgView>,
    d: Settings,
    t: Texts,
    m: Seq<ArgView>,
    opt: ArgView,
    v: ArgView,
    res: Result<Command, ArgError>,
)
    requires
        opt.text == "--repair-bad-slabs-max"@,
        reads_to(args, d, t),
        is_bare(m),
        is_count(v.text, usize::MAX as int),
        digits_value(unsigned_digits(v.text)) > 0,
        is_answer(m.push(opt).push(v), res),
    ensures
        reads_to(args.push(opt).push(v), (Settings { repair_bad_slabs: Some((match d.repair_bad_slabs { Some(p) => p.0, None => Scalar { bits: 0x3cf5_c28f } }, digits_value(unsigned_digits(v.text)) as usize)), ..d }), t),
        res matches Ok(Command::Run(cli)) && cli.settings == (Settings { repair_bad_slabs: Some((Scalar { bits: 0x3cf5_c28f }, digits_value(unsigned_digits(v.text)) as usize)), ..defaults() }) && is_placed(m, cli),
        is_refused(args.push(opt), ArgError::MissingValue(Flag::RepairBadSlabsMax)),
        begins_with(Flag::RepairBadSlabsMax.spec_missing(), opt.text),
{
    lemma_spellings();
    lemma_bare(m);
    lemma_valued(args, d, t, opt, v, Flag::RepairBadSlabsMax);
    lemma_valued(m, defaults(), bare_texts(), opt, v, Flag::RepairBadSlabsMax);
    reveal(Settings::with);
    lemma_answered(m.push(opt).push(v), (Settings { repair_bad_slabs: Some((Scalar { bits: 0x3cf5_c28f }, digits_value(unsigned_digits(v.text)) as usize)), ..defaults() }), bare_texts(), res);
    reveal_strlit("--repair-bad-slabs-max");
    reveal_strlit("--repair-bad-slabs-max needs an integer");
    assert(Flag::RepairBadSlabsMax.spec_missing().subrange(0, opt.text.len() as int) =~= opt.text);
}

/// `--post-merge-budget` asks for merging down to so many primitives, and
/// changes nothing else.
pub proof fn law_post_merge_budget(
    args: Seq<ArgView>,
    d: Settings,
    t: Texts,
    m: Seq<ArgView>,
    opt: ArgView,
    v: ArgView,
    res: Result<Command, ArgError>,
)
    requires
        opt.text == "--post-merge-budget"@,
        reads_to(args, d, t),
        is_bare(m),
        is_count(v.text, usize::MAX as int),
        digits_value(unsigned_digits(v.text)) > 0,
        is_answer(m.push(opt).push(v), res),
    ensures
        reads_to(args.push(opt).push(v), (Settings { post_merge_target: Some(digits_value(unsigned_digits(v.text)) as usize), ..d }), t),
        res matches Ok(Command::Run(cli)) && cli.settings == (Settings { post_merge_target: Some(digits_value(unsigned_digits(v.text)) as usize), ..defaults() }) && is_placed(m, cli),
        is_refused(args.push(opt), ArgError::MissingValue(Flag::PostMergeBudget)),
        begins_with(Flag::PostMergeBudget.spec_missing(), opt.text),
{
    lemma_spellings();
    lemma_bare(m);
    lemma_valued(args, d, t, opt, v, Flag::PostMergeBudget);
    lemma_valued(m, defaults(), bare_texts(), opt, v, Flag::PostMergeBudget);
    reveal(Settings::with);
    lemma_answered(m.push(opt).push(v), (Settings { post_merge_target: Some(digits_value(unsigned_digits(v.text)) as usize), ..defaults() }), bare_texts(), res);
    reveal_strlit("--post-merge-budget");
    reveal_strlit("--post-merge-budget needs a primitive count");
    assert(Flag::PostMergeBudget.spec_missing().subrange(0, opt.text.len() as int) =~= opt.text);
}

/// `--refine-search-iters` sets how many rounds the search has at most, and
/// changes nothing else.
pub proof fn law_refine_search_iters(
    args: Seq<ArgView>,
    d: Settings,
    t: Texts,
    m: Seq<ArgView>,
    opt: ArgView,
    v: ArgView,
    res: Result<Command, ArgError>,
)
    requires
        opt.text == "--refine-search-iters"@,
        reads_to(args, d, t),
        is_bare(m),
        is_count(v.text, usize::MAX as int),
        is_answer(m.push(opt).push(v), res),
    ensures
        reads_to(args.push(opt).push(v), (Settings { refine_search: Some((match d.refine_search { Some(p) => p.0, None => Scalar { bits: 0x3d4c_cccd } }, digits_value(unsigned_digits(v.text)) as usize)), ..d }), t),
        res matches Ok(Command::Run(cli)) && cli.settings == (Settings { refine_search: Some((Scalar { bits: 0x3d4c_cccd }, digits_value(unsigned_digits(v.text)) as usize)), ..defaults() }) && is_placed(m, cli),
        is_refused(args.push(opt), ArgError::MissingValue(Flag::RefineSearchIters)),
        begins_with(Flag::RefineSearchIters.spec_missing(), opt.text),
{
    lemma_spellings();
    lemma_bare(m);
    lemma_valued(args, d, t, opt, v, Flag::RefineSearchIters);
    lemma_valued(m, defaults(), bare_texts(), opt, v, Flag::RefineSearchIters);
    reveal(Settings::with);
    lemma_answered(m.push(opt).push(v), (Settings { refine_search: Some((Scalar { bits: 0x3d4c_cccd }, digits_value(unsigned_digits(v.text)) as usize)), ..defaults() }), bare_texts(), res);
    reveal_strlit("--refine-search-iters");
    reveal_strlit("--refine-search-iters needs an integer");
    assert(Flag::RefineSearchIters.spec_missing().subrange(0, opt.text.len() as int) =~= opt.text);
}

/// `--rebalance-passes` sets how often is rebalanced, and
/// changes nothing else.
pub proof fn law_rebalance_passes(
    args: Seq<ArgView>,
    d: Settings,
    t: Texts,
    m: Seq<ArgView>,
    opt: ArgView,
    v: ArgView,
    res: Result<Command, ArgError>,
)
    requires
        opt.text == "--rebalance-passes"@,
        reads_to(args, d, t),
        is_bare(m),
        is_count(v.text, usize::MAX as int),
        is_answer(m.push(opt).push(v), res),
    ensures
        reads_to(args.push(opt).push(v), (Settings { rebalance: Some(digits_value(unsigned_digits(v.text)) as usize), ..d }), t),
        res matches Ok(Command::Run(cli)) && cli.settings == (Settings { rebalance: Some(digits_value(unsigned_digits(v.text)) as usize), ..defaults() }) && is_placed(m, cli),
        is_refused(args.push(opt), ArgError::MissingValue(Flag::RebalancePasses)),
        begins_with(Flag::RebalancePasses.spec_missing(), opt.text),
{
    lemma_spellings();
    lemma_bare(m);
    lemma_valued(args, d, t, opt, v, Flag::RebalancePasses);
    lemma_valued(m, defaults(), bare_texts(), opt, v, Flag::RebalancePasses);
    reveal(Settings::with);
    lemma_answered(m.push(opt).push(v), (Settings { rebalance: Some(digits_value(unsigned_digits(v.text)) as usize), ..defaults() }), bare_texts(), res);
    reveal_strlit("--rebalance-passes");
    reveal_strlit("--rebalance-passes needs usize");
    assert(Flag::RebalancePasses.spec_missing().subrange(0, opt.text.len() as int) =~= opt.text);
}

/// `--proximity-k` sets how many near faces are joined, and
/// changes nothing else.
pub proof fn law_proximity_k(
    args: Seq<ArgView>,
    d: Settings,
    t: Texts,
    m: Seq<ArgView>,
    opt: ArgView,
    v: ArgView,
    res: Result<Command, ArgError>,
)
    requires
        opt.text == "--proximity-k"@,
        reads_to(args, d, t),
        is_bare(m),
        is_count(v.text, usize::MAX as int),
        is_answer(m.push(opt).push(v), res),
    ensures
        reads_to(args.push(opt).push(v), (Settings { proximity: Some(match d.proximity { Some(p) => (p.0, digits_value(unsigned_digits(v.text)) as usize, p.2), None => (Scalar { bits: 0x3d4c_cccd }, digits_value(unsigned_digits(v.text)) as usize, Scalar { bits: 0x3f49_0fdb }) }), ..d }), t),
        res matches Ok(Command::Run(cli)) && cli.settings == (Settings { proximity: Some((Scalar { bits: 0x3d4c_cccd }, digits_value(unsigned_digits(v.text)) as usize, Scalar { bits: 0x3f49_0fdb })), ..defaults() }) && is_placed(m, cli),
        is_refused(args.push(opt), ArgError::MissingValue(Flag::ProximityK)),
        begins_with(Flag::ProximityK.spec_missing(), opt.text),
{
    lemma_spellings();
    lemma_bare(m);
    lemma_valued(args, d, t, opt, v, Flag::ProximityK);
    lemma_valued(m, defaults(), bare_texts(), opt, v, Flag::ProximityK);
    reveal(Settings::with);
    lemma_answered(m.push(opt).push(v), (Settings { proximity: Some((Scalar { bits: 0x3d4c_cccd }, digits_value(unsigned_digits(v.text)) as usize, Scalar { bits: 0x3f49_0fdb })), ..defaults() }), bare_texts(), res);
    reveal_strlit("--proximity-k");
    reveal_strlit("--proximity-k needs usize");
    assert(Flag::ProximityK.spec_missing().subrange(0, opt.text.len() as int) =~= opt.text);
}

/// `--debug-primitive` asks for a report on this primitive; alone it is refused, and
/// changes nothing else.
pub proof fn law_debug_primitive(
    args: Seq<ArgView>,
    d: Settings,
    t: Texts,
    m: Seq<ArgView>,
    opt: ArgView,
    v: ArgView,
    res: Result<Command, ArgError>,
)
    requires
        opt.text == "--debug-primitive"@,
        reads_to(args, d, t),
        is_bare(m),
        is_count(v.text, u32::MAX as int),
        is_answer(m.push(opt).push(v), res),
    ensures
        reads_to(args.push(opt).push(v), (Settings { split_debug_primitive: Some(digits_value(unsigned_digits(v.text)) as u32), ..d }), t),
        res == Err::<Command, ArgError>(ArgError::DebugPrimitiveAlone),
        is_refused(args.push(opt), ArgError::MissingValue(Flag::DebugPrimitive)),
        begins_with(Flag::DebugPrimitive.spec_missing(), opt.text),
{
    lemma_spellings();
    lemma_bare(m);
    lemma_valued(args, d, t, opt, v, Flag::DebugPrimitive);
    lemma_valued(m, defaults(), bare_texts(), opt, v, Flag::DebugPrimitive);
    reveal(Settings::with);
    lemma_answered(m.push(opt).push(v), (Settings { split_debug_primitive: Some(digits_value(unsigned_digits(v.text)) as u32), ..defaults() }), bare_texts(), res);
    reveal_strlit("--debug-primitive");
    reveal_strlit("--debug-primitive needs a primitive id");
    assert(Flag::DebugPrimitive.spec_missing().subrange(0, opt.text.len() as int) =~= opt.text);
}

/// `--post-merge-hausdorff` sets the error that merging to a number may cause; alone it is refused, and
/// changes nothing else.
pub proof fn law_post_merge_hausdorff(
    args: Seq<ArgView>,
    d: Settings,
    t: Texts,
    m: Seq<ArgView>,
    opt: ArgView,
    v: ArgView,
    n: Number,
    res: Result<Command, ArgError>,
)
    requires
        opt.text == "--post-merge-hausdorff"@,
        reads_to(args, d, t),
        is_bare(m),
        v.number == Some(n),
        positive_finite(n.value),
        is_answer(m.push(opt).push(v), res),
    ensures
        reads_to(args.push(opt).push(v), (Settings { post_merge_hausdorff: Some(n.value), ..d }), t),
        res == Err::<Command, ArgError>(ArgError::HausdorffAlone),
        is_refused(args.push(opt), ArgError::MissingValue(Flag::PostMergeHausdorff)),
        begins_with(Flag::PostMergeHausdorff.spec_missing(), opt.text),
{
    lemma_spellings();
    lemma_bare(m);
    lemma_valued(args, d, t, opt, v, Flag::PostMergeHausdorff);
    lemma_valued(m, defaults(), bare_texts(), opt, v, Flag::PostMergeHausdorff);
    reveal(Settings::with);
    lemma_answered(m.push(opt).push(v), (Settings { post_merge_hausdorff: Some(n.value), ..defaults() }), bare_texts(), res);
    reveal_strlit("--post-merge-hausdorff");
    reveal_strlit("--post-merge-hausdorff needs a threshold-frac-of-diag value");
    assert(Flag::PostMergeHausdorff.spec_missing().subrange(0, opt.text.len() as int) =~= opt.text);
}

/// `--outside-fit` sets the weight of what stands out; alone it is refused, and
/// changes nothing else.
pub proof fn law_outside_fit(
    args: Seq<ArgView>,
    d: Settings,
    t: Texts,
    m: Seq<ArgView>,
    opt: ArgView,
    v: ArgView,
    n: Number,
    res: Result<Command, ArgError>,
)
    requires
        opt.text == "--outside-fit"@,
        reads_to(args, d, t),
        is_bare(m),
        v.number == Some(n),
        positive_finite(n.value),
        is_answer(m.push(opt).push(v), res),
    ensures
        reads_to(args.push(opt).push(v), (Settings { outside_fit_beta: n.value, ..d }), t),
        res == Err::<Command, ArgError>(ArgError::OutsideFitAlone),
        is_refused(args.push(opt), ArgError::MissingValue(Flag::OutsideFit)),
        begins_with(Flag::OutsideFit.spec_missing(), opt.text),
{
    lemma_spellings();
    lemma_bare(m);
    lemma_valued(args, d, t, opt, v, Flag::OutsideFit);
    lemma_valued(m, defaults(), bare_texts(), opt, v, Flag::OutsideFit);
    reveal(Settings::with);
    lemma_answered(m.push(opt).push(v), (Settings { outside_fit_beta: n.value, ..defaults() }), bare_texts(), res);
    reveal_strlit("--outside-fit");
    reveal_strlit("--outside-fit needs a beta value");
    assert(Flag::OutsideFit.spec_missing().subrange(0, opt.text.len() as int) =~= opt.text);
}

/// `--viewer` names the page to write, and
/// changes nothing else.
pub proof fn law_viewer(
    args: Seq<ArgView>,
    d: Settings,
    t: Texts,
    m: Seq<ArgView>,
    opt: ArgView,
    v: ArgView,
    res: Result<Command, ArgError>,
)
    requires
        opt.text == "--viewer"@,
        reads_to(args, d, t),
        is_bare(m),
        is_answer(m.push(opt).push(v), res),
    ensures
        reads_to(args.push(opt).push(v), d, (Texts { viewer_html: Some((args.len() + 1) as usize), ..t })),
        res matches Ok(Command::Run(cli)) && cli.settings == defaults() && (cli.viewer_html matches Some(s) && s@ == v.text),
        is_refused(args.push(opt), ArgError::MissingValue(Flag::Viewer)),
        begins_with(Flag::Viewer.spec_missing(), opt.text),
{
    lemma_spellings();
    lemma_bare(m);
    lemma_valued(args, d, t, opt, v, Flag::Viewer);
    lemma_valued(m, defaults(), bare_texts(), opt, v, Flag::Viewer);
    reveal(Settings::with);
    lemma_answered(m.push(opt).push(v), defaults(), (Texts { viewer_html: Some(3), ..bare_texts() }), res);
    reveal_strlit("--viewer");
    reveal_strlit("--viewer needs a path");
    assert(Flag::Viewer.spec_missing().subrange(0, opt.text.len() as int) =~= opt.text);
}

/// `--debug-splits` names the file for the splits, and asks for splitting, and
/// changes nothing else.
pub proof fn law_debug_splits(
    args: Seq<ArgView>,
    d: Settings,
    t: Texts,
    m: Seq<ArgView>,
    opt: ArgView,
    v: ArgView,
    res: Result<Command, ArgError>,
)
    requires
        opt.text == "--debug-splits"@,
        reads_to(args, d, t),
        is_bare(m),
        is_answer(m.push(opt).push(v), res),
    ensures
        reads_to(args.push(opt).push(v), (Settings { split_worst: Some(match d.split_worst { Some(p) => p, None => (Scalar { bits: 0x3d4c_cccd }, 32) }), ..d }), (Texts { split_debug_json: Some((args.len() + 1) as usize), ..t })),
        res matches Ok(Command::Run(cli)) && cli.settings == (Settings { split_worst: Some((Scalar { bits: 0x3d4c_cccd }, 32)), ..defaults() }) && (cli.split_debug_json matches Some(s) && s@ == v.text),
        is_refused(args.push(opt), ArgError::MissingValue(Flag::DebugSplits)),
        begins_with(Flag::DebugSplits.spec_missing(), opt.text),
{
    lemma_spellings();
    lemma_bare(m);
    lemma_valued(args, d, t, opt, v, Flag::DebugSplits);
    lemma_valued(m, defaults(), bare_texts(), opt, v, Flag::DebugSplits);
    reveal(Settings::with);
    lemma_answered(m.push(opt).push(v), (Settings { split_worst: Some((Scalar { bits: 0x3d4c_cccd }, 32)), ..defaults() }), (Texts { split_debug_json: Some(3), ..bare_texts() }), res);
    reveal_strlit("--debug-splits");
    reveal_strlit("--debug-splits needs an output .jsonl path");
    assert(Flag::DebugSplits.spec_missing().subrange(0, opt.text.len() as int) =~= opt.text);
}

/// `--metrics-json` names the file for the measures, and asks for them, and
/// changes nothing else.
pub proof fn law_metrics_json(
    args: Seq<ArgView>,
    d: Settings,
    t: Texts,
    m: Seq<ArgView>,
    opt: ArgView,
    v: ArgView,
    res: Result<Command, ArgError>,
)
    requires
        opt.text == "--metrics-json"@,
        reads_to(args, d, t),
        is_bare(m),
        is_answer(m.push(opt).push(v), res),
    ensures
        reads_to(args.push(opt).push(v), (Settings { metrics: true, ..d }), (Texts { metrics_json: Some((args.len() + 1) as usize), ..t })),
        res matches Ok(Command::Run(cli)) && cli.settings == (Settings { metrics: true, ..defaults() }) && (cli.metrics_json matches Some(s) && s@ == v.text),
        is_refused(args.push(opt), ArgError::MissingValue(Flag::MetricsJson)),
        begins_with(Flag::MetricsJson.spec_missing(), opt.text),
{
    lemma_spellings();
    lemma_bare(m);
    lemma_valued(args, d, t, opt, v, Flag::MetricsJson);
    lemma_valued(m, defaults(), bare_texts(), opt, v, Flag::MetricsJson);
    reveal(Settings::with);
    lemma_answered(m.push(opt).push(v), (Settings { metrics: true, ..defaults() }), (Texts { metrics_json: Some(3), ..bare_texts() }), res);
    reveal_strlit("--metrics-json");
    reveal_strlit("--metrics-json needs a path");
    assert(Flag::MetricsJson.spec_missing().subrange(0, opt.text.len() as int) =~= opt.text);
}

} // verus!
