//! What is written out: reports in JSON, counts, and the files for other
//! programs. Floating-point numbers come with their texts.

use crate::metrics::{Tally, tally};
use crate::prim::{Prim, PrimKind, kind_tag, tag_of};
use crate::primitive::{Primitive, views};
use crate::scalar::Scalar;
use crate::text::{decimal, escaped, joined, push_escaped, push_joined, push_number, texts};
use vstd::prelude::*;
use vstd::string::*;

verus! {

/// A number and how it is written.
pub struct NumberText {
    pub value: Scalar,
    pub text: String,
}

/// A value in a report.
pub enum JsonValue {
    /// Written as it stands.
    Raw(String),
    /// Written between quotes.
    Text(String),
    Count(u64),
    Flag(bool),
}

/// What a [`JsonValue`] stands for.
pub enum JsonView {
    Raw(Seq<char>),
    Text(Seq<char>),
    Count(nat),
    Flag(bool),
}

impl View for JsonValue {
    type V = JsonView;

    open spec fn view(&self) -> JsonView {
        match self {
            JsonValue::Raw(s) => JsonView::Raw(s@),
            JsonValue::Text(s) => JsonView::Text(s@),
            JsonValue::Count(n) => JsonView::Count(*n as nat),
            JsonValue::Flag(b) => JsonView::Flag(*b),
        }
    }
}

/// A named value.
pub struct Field {
    pub name: &'static str,
    pub value: JsonValue,
}

pub open spec fn field_views(fields: Seq<Field>) -> Seq<(Seq<char>, JsonView)> {
    Seq::new(fields.len(), |i: int| (fields[i].name@, fields[i].value@))
}

/// How a value is written.
pub open spec fn value_text(v: JsonView) -> Seq<char> {
    match v {
        JsonView::Raw(s) => s,
        JsonView::Text(s) => "\""@ + escaped(s) + "\""@,
        JsonView::Count(n) => decimal(n),
        JsonView::Flag(true) => "true"@,
        JsonView::Flag(false) => "false"@,
    }
}

/// How a named value is written.
pub open spec fn field_text(f: (Seq<char>, JsonView)) -> Seq<char> {
    "\""@ + f.0 + "\":"@ + value_text(f.1)
}

/// How named values are written as an object.
pub open spec fn object_text(fields: Seq<(Seq<char>, JsonView)>) -> Seq<char> {
    "{"@ + joined(Seq::new(fields.len(), |i: int| field_text(fields[i])), ","@) + "}"@
}

fn write_field(f: &Field) -> (s: String)
    ensures
        s@ == field_text((f.name@, f.value@)),
{
    let mut s: String = String::new();
    s.append("\"");
    s.append(f.name);
    s.append("\":");
    match &f.value {
        JsonValue::Raw(t) => {
            s.append(t.as_str());
        },
        JsonValue::Text(t) => {
            s.append("\"");
            push_escaped(&mut s, t.as_str());
            s.append("\"");
        },
        JsonValue::Count(n) => {
            push_number(&mut s, *n);
        },
        JsonValue::Flag(b) => {
            if *b {
                s.append("true");
            } else {
                s.append("false");
            }
        },
    }
    assert(s@ =~= field_text((f.name@, f.value@)));
    s
}

/// Writes named values as an object.
pub fn object(fields: &Vec<Field>) -> (s: String)
    ensures
        s@ == object_text(field_views(fields@)),
{
    let mut items: Vec<String> = Vec::new();
    let ghost fv = field_views(fields@);
    let ghost want = Seq::new(fv.len(), |i: int| field_text(fv[i]));
    let mut i: usize = 0;
    while i < fields.len()
        invariant
            i <= fields@.len(),
            fv == field_views(fields@),
            want == Seq::new(fv.len(), |i: int| field_text(fv[i])),
            texts(items@) == want.subrange(0, i as int),
        decreases fields@.len() - i,
    {
        let t = write_field(&fields[i]);
        let ghost before = items@;
        items.push(t);
        assert(texts(items@) =~= texts(before).push(t@));
        assert(want.subrange(0, i + 1) =~= want.subrange(0, i as int).push(want[i as int]));
        i += 1;
    }
    assert(want.subrange(0, i as int) =~= want);
    let mut s: String = String::new();
    s.append("{");
    push_joined(&mut s, &items, ",");
    s.append("}");
    assert(s@ =~= object_text(fv));
    s
}

/// The name of a kind in reports.
pub open spec fn kind_name(k: PrimKind) -> Seq<char> {
    match k {
        PrimKind::Obb => "obb"@,
        PrimKind::Sphere => "sphere"@,
        PrimKind::Cylinder => "cylinder"@,
        PrimKind::Capsule => "capsule"@,
        PrimKind::Frustum => "frustum"@,
        PrimKind::Prism => "prism"@,
    }
}

/// The name of a kind in reports.
pub fn name_of_kind(k: PrimKind) -> (s: &'static str)
    ensures
        s@ == kind_name(k),
{
    match k {
        PrimKind::Obb => "obb",
        PrimKind::Sphere => "sphere",
        PrimKind::Cylinder => "cylinder",
        PrimKind::Capsule => "capsule",
        PrimKind::Frustum => "frustum",
        PrimKind::Prism => "prism",
    }
}

/// The pass in which a split was looked at.
#[derive(Clone, Copy, Debug, PartialEq, Eq, Structural)]
pub enum SplitPhase {
    PreRefine,
    PostRefine,
    BadSlabRepair,
    DebugLive,
}

impl SplitPhase {
    pub open spec fn spec_name(self) -> Seq<char> {
        match self {
            SplitPhase::PreRefine => "pre_refine"@,
            SplitPhase::PostRefine => "post_refine"@,
            SplitPhase::BadSlabRepair => "bad_slab_repair"@,
            SplitPhase::DebugLive => "debug_live"@,
        }
    }

    pub fn name(self) -> (s: &'static str)
        ensures
            s@ == self.spec_name(),
    {
        match self {
            SplitPhase::PreRefine => "pre_refine",
            SplitPhase::PostRefine => "post_refine",
            SplitPhase::BadSlabRepair => "bad_slab_repair",
            SplitPhase::DebugLive => "debug_live",
        }
    }
}

/// A number as it is written where there is one and it is finite, else null.
pub open spec fn finite_text(n: Option<NumberText>) -> Seq<char> {
    match n {
        Some(x) => if x.value.spec_is_finite() {
            x.text@
        } else {
            "null"@
        },
        None => "null"@,
    }
}

/// Three numbers in brackets where they are there and finite, else null.
pub open spec fn finite_triple(n: Option<[NumberText; 3]>) -> Seq<char> {
    match n {
        Some(p) => if p[0].value.spec_is_finite() && p[1].value.spec_is_finite() && p[2].value.spec_is_finite() {
            "["@ + p[0].text@ + ","@ + p[1].text@ + ","@ + p[2].text@ + "]"@
        } else {
            "null"@
        },
        None => "null"@,
    }
}

fn number_or_null(n: &Option<NumberText>) -> (s: String)
    ensures
        s@ == finite_text(*n),
{
    match n {
        Some(x) => if x.value.is_finite() {
            x.text.clone()
        } else {
            "null".to_owned()
        },
        None => "null".to_owned(),
    }
}

fn triple_or_null(n: &Option<[NumberText; 3]>) -> (s: String)
    ensures
        s@ == finite_triple(*n),
{
    match n {
        Some(p) => if p[0].value.is_finite() && p[1].value.is_finite() && p[2].value.is_finite() {
            let mut s: String = "[".to_owned();
            s.append(p[0].text.as_str());
            s.append(",");
            s.append(p[1].text.as_str());
            s.append(",");
            s.append(p[2].text.as_str());
            s.append("]");
            s
        } else {
            "null".to_owned()
        },
        None => "null".to_owned(),
    }
}

/// One way to split a primitive, as the split diagnostics report it.
pub struct SplitDebugRow {
    pub pass: SplitPhase,
    pub split_attempt: usize,
    pub primitive_root: u32,
    pub compact_pid: usize,
    pub candidate_index: usize,
    pub source: String,
    pub original_kind: PrimKind,
    pub original_face_count: usize,
    pub original_hausdorff: NumberText,
    pub threshold: NumberText,
    pub faces_a: usize,
    pub faces_b: usize,
    pub kind_a: PrimKind,
    pub kind_b: PrimKind,
    pub hausdorff_a: NumberText,
    pub hausdorff_b: NumberText,
    pub hausdorff_max: NumberText,
    pub delta_hausdorff_max: NumberText,
    pub volume_a: NumberText,
    pub volume_b: NumberText,
    pub volume_sum: NumberText,
    pub delta_volume_sum: NumberText,
    pub would_improve: bool,
    pub accepted: bool,
    pub witness_dist: Option<NumberText>,
    pub witness_sample: Option<[NumberText; 3]>,
    pub witness_nearest: Option<[NumberText; 3]>,
    pub witness_normal: Option<[NumberText; 3]>,
}

impl SplitDebugRow {
    /// The fields of the report, in order.
    pub open spec fn fields(&self) -> Seq<(Seq<char>, JsonView)> {
        seq![
            ("pass"@, JsonView::Text(self.pass.spec_name())),
            ("split_attempt"@, JsonView::Count(self.split_attempt as nat)),
            ("primitive_root"@, JsonView::Count(self.primitive_root as nat)),
            ("compact_pid"@, JsonView::Count(self.compact_pid as nat)),
            ("candidate_index"@, JsonView::Count(self.candidate_index as nat)),
            ("source"@, JsonView::Text(self.source@)),
            ("original_kind"@, JsonView::Text(kind_name(self.original_kind))),
            ("original_face_count"@, JsonView::Count(self.original_face_count as nat)),
            ("original_hausdorff"@, JsonView::Raw(self.original_hausdorff.text@)),
            ("threshold"@, JsonView::Raw(self.threshold.text@)),
            ("faces_a"@, JsonView::Count(self.faces_a as nat)),
            ("faces_b"@, JsonView::Count(self.faces_b as nat)),
            ("kind_a"@, JsonView::Text(kind_name(self.kind_a))),
            ("kind_b"@, JsonView::Text(kind_name(self.kind_b))),
            ("hausdorff_a"@, JsonView::Raw(self.hausdorff_a.text@)),
            ("hausdorff_b"@, JsonView::Raw(self.hausdorff_b.text@)),
            ("hausdorff_max"@, JsonView::Raw(self.hausdorff_max.text@)),
            ("delta_hausdorff_max"@, JsonView::Raw(self.delta_hausdorff_max.text@)),
            ("volume_a"@, JsonView::Raw(self.volume_a.text@)),
            ("volume_b"@, JsonView::Raw(self.volume_b.text@)),
            ("volume_sum"@, JsonView::Raw(self.volume_sum.text@)),
            ("delta_volume_sum"@, JsonView::Raw(self.delta_volume_sum.text@)),
            ("would_improve"@, JsonView::Flag(self.would_improve)),
            ("accepted"@, JsonView::Flag(self.accepted)),
            ("witness_dist"@, JsonView::Raw(finite_text(self.witness_dist))),
            ("witness_sample"@, JsonView::Raw(finite_triple(self.witness_sample))),
            ("witness_nearest"@, JsonView::Raw(finite_triple(self.witness_nearest))),
            ("witness_normal"@, JsonView::Raw(finite_triple(self.witness_normal))),
        ]
    }

    /// The row as a line of JSON.
    pub fn json_line(&self) -> (line: String)
        ensures
            line@ == object_text(self.fields()),
    {
        let mut fields: Vec<Field> = Vec::new();
        fields.push(Field { name: "pass", value: JsonValue::Text(self.pass.name().to_owned()) });
        fields.push(Field { name: "split_attempt", value: JsonValue::Count(self.split_attempt as u64) });
        fields.push(Field { name: "primitive_root", value: JsonValue::Count(self.primitive_root as u64) });
        fields.push(Field { name: "compact_pid", value: JsonValue::Count(self.compact_pid as u64) });
        fields.push(Field { name: "candidate_index", value: JsonValue::Count(self.candidate_index as u64) });
        fields.push(Field { name: "source", value: JsonValue::Text(self.source.clone()) });
        fields.push(Field { name: "original_kind", value: JsonValue::Text(name_of_kind(self.original_kind).to_owned()) });
        fields.push(Field { name: "original_face_count", value: JsonValue::Count(self.original_face_count as u64) });
        fields.push(Field { name: "original_hausdorff", value: JsonValue::Raw(self.original_hausdorff.text.clone()) });
        fields.push(Field { name: "threshold", value: JsonValue::Raw(self.threshold.text.clone()) });
        fields.push(Field { name: "faces_a", value: JsonValue::Count(self.faces_a as u64) });
        fields.push(Field { name: "faces_b", value: JsonValue::Count(self.faces_b as u64) });
        fields.push(Field { name: "kind_a", value: JsonValue::Text(name_of_kind(self.kind_a).to_owned()) });
        fields.push(Field { name: "kind_b", value: JsonValue::Text(name_of_kind(self.kind_b).to_owned()) });
        fields.push(Field { name: "hausdorff_a", value: JsonValue::Raw(self.hausdorff_a.text.clone()) });
        fields.push(Field { name: "hausdorff_b", value: JsonValue::Raw(self.hausdorff_b.text.clone()) });
        fields.push(Field { name: "hausdorff_max", value: JsonValue::Raw(self.hausdorff_max.text.clone()) });
        fields.push(Field { name: "delta_hausdorff_max", value: JsonValue::Raw(self.delta_hausdorff_max.text.clone()) });
        fields.push(Field { name: "volume_a", value: JsonValue::Raw(self.volume_a.text.clone()) });
        fields.push(Field { name: "volume_b", value: JsonValue::Raw(self.volume_b.text.clone()) });
        fields.push(Field { name: "volume_sum", value: JsonValue::Raw(self.volume_sum.text.clone()) });
        fields.push(Field { name: "delta_volume_sum", value: JsonValue::Raw(self.delta_volume_sum.text.clone()) });
        fields.push(Field { name: "would_improve", value: JsonValue::Flag(self.would_improve) });
        fields.push(Field { name: "accepted", value: JsonValue::Flag(self.accepted) });
        fields.push(Field { name: "witness_dist", value: JsonValue::Raw(number_or_null(&self.witness_dist)) });
        fields.push(Field { name: "witness_sample", value: JsonValue::Raw(triple_or_null(&self.witness_sample)) });
        fields.push(Field { name: "witness_nearest", value: JsonValue::Raw(triple_or_null(&self.witness_nearest)) });
        fields.push(Field { name: "witness_normal", value: JsonValue::Raw(triple_or_null(&self.witness_normal)) });
        assert(field_views(fields@) =~= self.fields());
        object(&fields)
    }
}

/// The measures of a decomposition.
pub struct Metrics {
    pub samples: u32,
    pub counts: Tally,
    pub total_volume: NumberText,
    pub aabb_volume: NumberText,
    pub volume_ratio: NumberText,
    pub hausdorff: NumberText,
    pub hausdorff_norm: NumberText,
    pub chamfer: NumberText,
    pub chamfer_norm: NumberText,
    pub reverse_hausdorff: NumberText,
    pub reverse_hausdorff_norm: NumberText,
    pub reverse_chamfer: NumberText,
    pub reverse_chamfer_norm: NumberText,
    pub hausdorff_2way: NumberText,
    pub hausdorff_2way_norm: NumberText,
    pub chamfer_2way: NumberText,
    pub chamfer_2way_norm: NumberText,
    pub coverage_fraction: NumberText,
    /// The primitive that strays farthest.
    pub worst_prim_idx: u32,
    pub worst_prim_kind: PrimKind,
    /// How far it strays.
    pub worst_prim_max: NumberText,
    pub worst_prim_volume: NumberText,
}

impl Metrics {
    /// The counts by kind.
    pub open spec fn kind_fields(&self) -> Seq<(Seq<char>, JsonView)> {
        seq![
            ("obb"@, JsonView::Count(self.counts.obb as nat)),
            ("sphere"@, JsonView::Count(self.counts.sphere as nat)),
            ("cylinder"@, JsonView::Count(self.counts.cylinder as nat)),
            ("capsule"@, JsonView::Count(self.counts.capsule as nat)),
            ("frustum"@, JsonView::Count(self.counts.frustum as nat)),
            ("prism"@, JsonView::Count(self.counts.prism as nat)),
        ]
    }

    /// The fields of the report, in order.
    pub open spec fn fields(&self) -> Seq<(Seq<char>, JsonView)> {
        seq![
            ("primitives"@, JsonView::Count(self.counts.total as nat)),
            ("by_kind"@, JsonView::Raw(object_text(self.kind_fields()))),
            ("total_volume"@, JsonView::Raw(self.total_volume.text@)),
            ("aabb_volume"@, JsonView::Raw(self.aabb_volume.text@)),
            ("volume_ratio"@, JsonView::Raw(self.volume_ratio.text@)),
            ("hausdorff"@, JsonView::Raw(self.hausdorff.text@)),
            ("hausdorff_norm"@, JsonView::Raw(self.hausdorff_norm.text@)),
            ("chamfer"@, JsonView::Raw(self.chamfer.text@)),
            ("chamfer_norm"@, JsonView::Raw(self.chamfer_norm.text@)),
            ("reverse_hausdorff"@, JsonView::Raw(self.reverse_hausdorff.text@)),
            ("reverse_hausdorff_norm"@, JsonView::Raw(self.reverse_hausdorff_norm.text@)),
            ("reverse_chamfer"@, JsonView::Raw(self.reverse_chamfer.text@)),
            ("reverse_chamfer_norm"@, JsonView::Raw(self.reverse_chamfer_norm.text@)),
            ("hausdorff_2way"@, JsonView::Raw(self.hausdorff_2way.text@)),
            ("hausdorff_2way_norm"@, JsonView::Raw(self.hausdorff_2way_norm.text@)),
            ("chamfer_2way"@, JsonView::Raw(self.chamfer_2way.text@)),
            ("chamfer_2way_norm"@, JsonView::Raw(self.chamfer_2way_norm.text@)),
            ("coverage_fraction"@, JsonView::Raw(self.coverage_fraction.text@)),
            ("worst_prim_idx"@, JsonView::Count(self.worst_prim_idx as nat)),
            ("worst_prim_kind"@, JsonView::Text(kind_name(self.worst_prim_kind))),
            ("worst_prim_max"@, JsonView::Raw(self.worst_prim_max.text@)),
            ("worst_prim_volume"@, JsonView::Raw(self.worst_prim_volume.text@)),
            ("samples"@, JsonView::Count(self.samples as nat)),
        ]
    }

    /// The measures as JSON.
    pub fn json(&self) -> (text: String)
        ensures
            text@ == object_text(self.fields()),
    {
        let mut kinds: Vec<Field> = Vec::new();
        kinds.push(Field { name: "obb", value: JsonValue::Count(self.counts.obb as u64) });
        kinds.push(Field { name: "sphere", value: JsonValue::Count(self.counts.sphere as u64) });
        kinds.push(Field { name: "cylinder", value: JsonValue::Count(self.counts.cylinder as u64) });
        kinds.push(Field { name: "capsule", value: JsonValue::Count(self.counts.capsule as u64) });
        kinds.push(Field { name: "frustum", value: JsonValue::Count(self.counts.frustum as u64) });
        kinds.push(Field { name: "prism", value: JsonValue::Count(self.counts.prism as u64) });
        assert(field_views(kinds@) =~= self.kind_fields());
        let mut fields: Vec<Field> = Vec::new();
        fields.push(Field { name: "primitives", value: JsonValue::Count(self.counts.total as u64) });
        fields.push(Field { name: "by_kind", value: JsonValue::Raw(object(&kinds)) });
        fields.push(Field { name: "total_volume", value: JsonValue::Raw(self.total_volume.text.clone()) });
        fields.push(Field { name: "aabb_volume", value: JsonValue::Raw(self.aabb_volume.text.clone()) });
        fields.push(Field { name: "volume_ratio", value: JsonValue::Raw(self.volume_ratio.text.clone()) });
        fields.push(Field { name: "hausdorff", value: JsonValue::Raw(self.hausdorff.text.clone()) });
        fields.push(Field { name: "hausdorff_norm", value: JsonValue::Raw(self.hausdorff_norm.text.clone()) });
        fields.push(Field { name: "chamfer", value: JsonValue::Raw(self.chamfer.text.clone()) });
        fields.push(Field { name: "chamfer_norm", value: JsonValue::Raw(self.chamfer_norm.text.clone()) });
        fields.push(Field { name: "reverse_hausdorff", value: JsonValue::Raw(self.reverse_hausdorff.text.clone()) });
        fields.push(Field { name: "reverse_hausdorff_norm", value: JsonValue::Raw(self.reverse_hausdorff_norm.text.clone()) });
        fields.push(Field { name: "reverse_chamfer", value: JsonValue::Raw(self.reverse_chamfer.text.clone()) });
        fields.push(Field { name: "reverse_chamfer_norm", value: JsonValue::Raw(self.reverse_chamfer_norm.text.clone()) });
        fields.push(Field { name: "hausdorff_2way", value: JsonValue::Raw(self.hausdorff_2way.text.clone()) });
        fields.push(Field { name: "hausdorff_2way_norm", value: JsonValue::Raw(self.hausdorff_2way_norm.text.clone()) });
        fields.push(Field { name: "chamfer_2way", value: JsonValue::Raw(self.chamfer_2way.text.clone()) });
        fields.push(Field { name: "chamfer_2way_norm", value: JsonValue::Raw(self.chamfer_2way_norm.text.clone()) });
        fields.push(Field { name: "coverage_fraction", value: JsonValue::Raw(self.coverage_fraction.text.clone()) });
        fields.push(Field { name: "worst_prim_idx", value: JsonValue::Count(self.worst_prim_idx as u64) });
        fields.push(
            Field { name: "worst_prim_kind", value: JsonValue::Text(name_of_kind(self.worst_prim_kind).to_owned()) },
        );
        fields.push(Field { name: "worst_prim_max", value: JsonValue::Raw(self.worst_prim_max.text.clone()) });
        fields.push(Field { name: "worst_prim_volume", value: JsonValue::Raw(self.worst_prim_volume.text.clone()) });
        fields.push(Field { name: "samples", value: JsonValue::Count(self.samples as u64) });
        assert(field_views(fields@) =~= self.fields());
        object(&fields)
    }
}

/// How the counts by kind are written.
pub open spec fn counts_text(t: Tally) -> Seq<char> {
    "obb="@ + decimal(t.obb as nat) + " sphere="@ + decimal(t.sphere as nat) + " cyl="@ + decimal(t.cylinder as nat)
        + " cap="@ + decimal(t.capsule as nat) + " frustum="@ + decimal(t.frustum as nat) + " prism="@ + decimal(
        t.prism as nat,
    )
}

fn push_counts(s: &mut String, t: &Tally)
    ensures
        final(s)@ == old(s)@ + counts_text(*t),
{
    let ghost before = s@;
    s.append("obb=");
    push_number(s, t.obb as u64);
    s.append(" sphere=");
    push_number(s, t.sphere as u64);
    s.append(" cyl=");
    push_number(s, t.cylinder as u64);
    s.append(" cap=");
    push_number(s, t.capsule as u64);
    s.append(" frustum=");
    push_number(s, t.frustum as u64);
    s.append(" prism=");
    push_number(s, t.prism as u64);
    assert(s@ =~= before + counts_text(*t));
}

/// How many live primitives of each kind there are, in words.
pub fn count_by_kind(prims: &Vec<Primitive>) -> (s: String)
    ensures
        exists|t: Tally| #[trigger] t.counts(views(prims@)) && s@ == counts_text(t),
{
    let t = tally(prims);
    let mut s: String = String::new();
    push_counts(&mut s, &t);
    assert(s@ =~= counts_text(t));
    s
}

/// The name of a kind as a reader gets it.
pub open spec fn kind_title(k: PrimKind) -> Seq<char> {
    match k {
        PrimKind::Obb => "Obb"@,
        PrimKind::Sphere => "Sphere"@,
        PrimKind::Cylinder => "Cylinder"@,
        PrimKind::Capsule => "Capsule"@,
        PrimKind::Frustum => "Frustum"@,
        PrimKind::Prism => "Prism"@,
    }
}

fn title_of_kind(k: PrimKind) -> (s: &'static str)
    ensures
        s@ == kind_title(k),
{
    match k {
        PrimKind::Obb => "Obb",
        PrimKind::Sphere => "Sphere",
        PrimKind::Cylinder => "Cylinder",
        PrimKind::Capsule => "Capsule",
        PrimKind::Frustum => "Frustum",
        PrimKind::Prism => "Prism",
    }
}

/// A distance, rounded, and how many percent of the diagonal it is.
pub struct Share {
    pub text: String,
    pub percent: String,
}

/// The measures, rounded for a reader.
pub struct Rounded {
    pub total_volume: String,
    pub aabb_volume: String,
    /// In percent.
    pub volume_ratio: String,
    pub hausdorff: Share,
    pub chamfer: Share,
    pub reverse_hausdorff: Share,
    pub reverse_chamfer: Share,
    pub hausdorff_2way: Share,
    pub chamfer_2way: Share,
    pub coverage_fraction: String,
    pub worst_prim_max: String,
    pub worst_prim_volume: String,
}

/// A line of the report: what is measured, the distance and its share, and a
/// note.
pub open spec fn share_line(label: Seq<char>, d: Share, note: Seq<char>) -> Seq<char> {
    "\n  "@ + label + d.text@ + "  ("@ + d.percent@ + "% of diag)"@ + note
}

fn push_share(s: &mut String, label: &str, d: &Share, note: &str)
    ensures
        final(s)@ == old(s)@ + share_line(label@, *d, note@),
{
    let ghost before = s@;
    s.append("\n  ");
    s.append(label);
    s.append(d.text.as_str());
    s.append("  (");
    s.append(d.percent.as_str());
    s.append("% of diag)");
    s.append(note);
    assert(s@ =~= before + share_line(label@, *d, note@));
}

impl Metrics {
    /// How many primitives there are, and how much they enclose.
    pub open spec fn size_lines(&self, r: Rounded) -> Seq<char> {
        "metrics:\n  primitives:        "@ + decimal(self.counts.total as nat) + "  ("@ + counts_text(self.counts)
            + ")\n  total volume:      "@ + r.total_volume@ + "\n  aabb volume:       "@ + r.aabb_volume@ + "  ("@
            + r.volume_ratio@ + "% ratio)"@
    }

    /// How far the primitives and the input are apart, one way, the other way,
    /// and both.
    pub open spec fn distance_lines(&self, r: Rounded) -> Seq<char> {
        share_line("hausdorff fwd:     "@, r.hausdorff, "   [primitive→input, paper §4.4]"@) + share_line(
            "chamfer   fwd:     "@,
            r.chamfer,
            ""@,
        ) + share_line("hausdorff rev:     "@, r.reverse_hausdorff, "   [input→primitive surf, gap detector]"@)
            + share_line("chamfer   rev:     "@, r.reverse_chamfer, ""@) + share_line(
            "hausdorff 2-way:   "@,
            r.hausdorff_2way,
            "   [max of fwd/rev — honest number]"@,
        ) + share_line("chamfer   2-way:   "@, r.chamfer_2way, ""@)
    }

    /// How much of the input is covered, which primitive is worst, and how many
    /// samples this rests on.
    pub open spec fn coverage_lines(&self, r: Rounded) -> Seq<char> {
        "\n  coverage fraction: "@ + r.coverage_fraction@
            + "                       [frac of input pts inside any primitive]\n  worst primitive:   #"@ + decimal(
            self.worst_prim_idx as nat,
        ) + " "@ + kind_title(self.worst_prim_kind) + ", max-sample-dist "@ + r.worst_prim_max@ + ", vol "@
            + r.worst_prim_volume@ + "\n  samples used:      "@ + decimal(self.samples as nat)
    }

    /// The measures for a reader.
    pub fn human(&self, r: &Rounded) -> (text: String)
        ensures
            text@ == self.size_lines(*r) + self.distance_lines(*r) + self.coverage_lines(*r),
    {
        let mut s: String = String::new();
        s.append("metrics:\n  primitives:        ");
        push_number(&mut s, self.counts.total as u64);
        s.append("  (");
        push_counts(&mut s, &self.counts);
        s.append(")\n  total volume:      ");
        s.append(r.total_volume.as_str());
        s.append("\n  aabb volume:       ");
        s.append(r.aabb_volume.as_str());
        s.append("  (");
        s.append(r.volume_ratio.as_str());
        s.append("% ratio)");
        assert(s@ =~= self.size_lines(*r));
        let ghost first = s@;
        push_share(&mut s, "hausdorff fwd:     ", &r.hausdorff, "   [primitive→input, paper §4.4]");
        push_share(&mut s, "chamfer   fwd:     ", &r.chamfer, "");
        push_share(&mut s, "hausdorff rev:     ", &r.reverse_hausdorff, "   [input→primitive surf, gap detector]");
        push_share(&mut s, "chamfer   rev:     ", &r.reverse_chamfer, "");
        push_share(&mut s, "hausdorff 2-way:   ", &r.hausdorff_2way, "   [max of fwd/rev — honest number]");
        push_share(&mut s, "chamfer   2-way:   ", &r.chamfer_2way, "");
        assert(s@ =~= first + self.distance_lines(*r));
        let ghost second = s@;
        s.append("\n  coverage fraction: ");
        s.append(r.coverage_fraction.as_str());
        s.append("                       [frac of input pts inside any primitive]\n  worst primitive:   #");
        push_number(&mut s, self.worst_prim_idx as u64);
        s.append(" ");
        s.append(title_of_kind(self.worst_prim_kind));
        s.append(", max-sample-dist ");
        s.append(r.worst_prim_max.as_str());
        s.append(", vol ");
        s.append(r.worst_prim_volume.as_str());
        s.append("\n  samples used:      ");
        push_number(&mut s, self.samples as u64);
        assert(s@ =~= second + self.coverage_lines(*r));
        s
    }
}

/// A tessellated primitive to be written out. Each vertex is given as the text
/// of its coordinates.
pub struct MeshPart {
    pub prim: Prim,
    pub id: u32,
    pub volume: String,
    pub vertices: Vec<String>,
    pub tris: Vec<[u32; 3]>,
}

/// The lines of the vertices.
pub open spec fn vertex_lines(verts: Seq<Seq<char>>) -> Seq<char>
    decreases verts.len(),
{
    if verts.len() == 0 {
        Seq::empty()
    } else {
        vertex_lines(verts.drop_last()) + "v "@ + verts.last() + "\n"@
    }
}

/// The line of a triangle; vertices are numbered from 1, `base` of them came
/// before.
pub open spec fn face_line(t: [u32; 3], base: nat) -> Seq<char> {
    "f "@ + decimal(base + t[0] as nat + 1) + " "@ + decimal(base + t[1] as nat + 1) + " "@ + decimal(
        base + t[2] as nat + 1,
    ) + "\n"@
}

/// The lines of the triangles.
pub open spec fn face_lines(tris: Seq<[u32; 3]>, base: nat) -> Seq<char>
    decreases tris.len(),
{
    if tris.len() == 0 {
        Seq::empty()
    } else {
        face_lines(tris.drop_last(), base) + face_line(tris.last(), base)
    }
}

/// The lines of a part.
pub open spec fn part_lines(p: MeshPart, base: nat) -> Seq<char> {
    "g "@ + tag_of(p.prim.spec_kind()) + "_"@ + decimal(p.id as nat) + "\n"@ + vertex_lines(texts(p.vertices@))
        + face_lines(p.tris@, base)
}

/// How many vertices the parts have.
pub open spec fn vertex_total(parts: Seq<MeshPart>) -> nat
    decreases parts.len(),
{
    if parts.len() == 0 {
        0
    } else {
        vertex_total(parts.drop_last()) + parts.last().vertices@.len()
    }
}

/// The lines of the parts, one after the other.
pub open spec fn all_lines(parts: Seq<MeshPart>) -> Seq<char>
    decreases parts.len(),
{
    if parts.len() == 0 {
        Seq::empty()
    } else {
        all_lines(parts.drop_last()) + part_lines(parts.last(), vertex_total(parts.drop_last()))
    }
}

fn push_vertex_lines(out: &mut String, verts: &Vec<String>)
    ensures
        final(out)@ == old(out)@ + vertex_lines(texts(verts@)),
{
    let ghost start = out@;
    let ghost all = texts(verts@);
    let mut i: usize = 0;
    assert(all.subrange(0, 0) =~= Seq::empty());
    assert(start + Seq::<char>::empty() =~= start);
    while i < verts.len()
        invariant
            i <= verts@.len(),
            all == texts(verts@),
            out@ == start + vertex_lines(all.subrange(0, i as int)),
        decreases verts@.len() - i,
    {
        proof {
            assert(all.subrange(0, i + 1).drop_last() =~= all.subrange(0, i as int));
            assert(all.subrange(0, i + 1).last() == verts@[i as int]@);
        }
        out.append("v ");
        out.append(verts[i].as_str());
        out.append("\n");
        assert(out@ =~= start + vertex_lines(all.subrange(0, i + 1)));
        i += 1;
    }
    assert(all.subrange(0, i as int) =~= all);
}

fn push_face_lines(out: &mut String, tris: &Vec<[u32; 3]>, base: u64)
    requires
        base + 0x1_0000_0000 <= u64::MAX,
    ensures
        final(out)@ == old(out)@ + face_lines(tris@, base as nat),
{
    let ghost start = out@;
    let mut i: usize = 0;
    assert(tris@.subrange(0, 0) =~= Seq::empty());
    assert(start + Seq::<char>::empty() =~= start);
    while i < tris.len()
        invariant
            base + 0x1_0000_0000 <= u64::MAX,
            i <= tris@.len(),
            out@ == start + face_lines(tris@.subrange(0, i as int), base as nat),
        decreases tris@.len() - i,
    {
        proof {
            assert(tris@.subrange(0, i + 1).drop_last() =~= tris@.subrange(0, i as int));
            assert(tris@.subrange(0, i + 1).last() == tris@[i as int]);
        }
        let t: [u32; 3] = tris[i];
        out.append("f ");
        push_number(out, base + t[0] as u64 + 1);
        out.append(" ");
        push_number(out, base + t[1] as u64 + 1);
        out.append(" ");
        push_number(out, base + t[2] as u64 + 1);
        out.append("\n");
        assert(out@ =~= start + face_lines(tris@.subrange(0, i + 1), base as nat));
        i += 1;
    }
    assert(tris@.subrange(0, i as int) =~= tris@);
}

proof fn lemma_vertex_total_grows(parts: Seq<MeshPart>, i: int)
    requires
        0 <= i <= parts.len(),
    ensures
        vertex_total(parts.subrange(0, i)) <= vertex_total(parts),
    decreases parts.len() - i,
{
    if i < parts.len() {
        assert(parts.subrange(0, i + 1).drop_last() =~= parts.subrange(0, i));
        lemma_vertex_total_grows(parts, i + 1);
    } else {
        assert(parts.subrange(0, i) =~= parts);
    }
}

fn push_part(out: &mut String, p: &MeshPart, base: u64)
    requires
        base + 0x1_0000_0000 <= u64::MAX,
    ensures
        final(out)@ == old(out)@ + part_lines(*p, base as nat),
{
    let ghost start = out@;
    out.append("g ");
    out.append(kind_tag(&p.prim));
    out.append("_");
    push_number(out, p.id as u64);
    out.append("\n");
    push_vertex_lines(out, &p.vertices);
    push_face_lines(out, &p.tris, base);
    assert(out@ =~= start + part_lines(*p, base as nat));
}

/// The parts as a Wavefront OBJ file: one group per primitive, vertices
/// numbered through.
pub fn obj_text(parts: &Vec<MeshPart>) -> (text: String)
    requires
        vertex_total(parts@) + 0x1_0000_0000 <= u64::MAX,
    ensures
        text@ == "# convex primitive decomposition output\n"@ + all_lines(parts@),
{
    let mut out: String = "# convex primitive decomposition output\n".to_owned();
    let ghost start = out@;
    let mut base: u64 = 0;
    let mut i: usize = 0;
    assert(parts@.subrange(0, 0) =~= Seq::empty());
    assert(start + Seq::<char>::empty() =~= start);
    while i < parts.len()
        invariant
            vertex_total(parts@) + 0x1_0000_0000 <= u64::MAX,
            i <= parts@.len(),
            base == vertex_total(parts@.subrange(0, i as int)),
            out@ == start + all_lines(parts@.subrange(0, i as int)),
        decreases parts@.len() - i,
    {
        let p: &MeshPart = &parts[i];
        proof {
            assert(parts@.subrange(0, i + 1).drop_last() =~= parts@.subrange(0, i as int));
            assert(parts@.subrange(0, i + 1).last() == parts@[i as int]);
            lemma_vertex_total_grows(parts@, i as int);
            lemma_vertex_total_grows(parts@, i + 1);
        }
        let ghost before = all_lines(parts@.subrange(0, i as int));
        push_part(&mut out, p, base);
        assert(start + before + part_lines(*p, base as nat) =~= start + (before + part_lines(*p, base as nat)));
        base = base + p.vertices.len() as u64;
        i += 1;
    }
    assert(parts@.subrange(0, i as int) =~= parts@);
    out
}

/// Vertex numbers in the lines of a part are those of its own vertices: above
/// the vertices that came before, at most as many as have been written.
pub proof fn law_obj_faces_refer_to_own_vertices(parts: Seq<MeshPart>, i: int, f: int, c: int)
    requires
        0 <= i < parts.len(),
        0 <= f < parts[i].tris@.len(),
        0 <= c < 3,
        parts[i].tris@[f][c] < parts[i].vertices@.len(),
    ensures
        vertex_total(parts.subrange(0, i)) < vertex_total(parts.subrange(0, i)) + parts[i].tris@[f][c] + 1
            <= vertex_total(parts.subrange(0, i + 1)),
{
    assert(parts.subrange(0, i + 1).drop_last() =~= parts.subrange(0, i));
}

/// Three indices with commas between them.
pub open spec fn indices_text(t: [u32; 3]) -> Seq<char> {
    decimal(t[0] as nat) + ","@ + decimal(t[1] as nat) + ","@ + decimal(t[2] as nat)
}

pub open spec fn all_indices(tris: Seq<[u32; 3]>) -> Seq<Seq<char>> {
    Seq::new(tris.len(), |i: int| indices_text(tris[i]))
}

fn indices_of(tris: &Vec<[u32; 3]>) -> (items: Vec<String>)
    ensures
        texts(items@) == all_indices(tris@),
{
    let mut items: Vec<String> = Vec::new();
    let mut i: usize = 0;
    while i < tris.len()
        invariant
            i <= tris@.len(),
            texts(items@) == all_indices(tris@).subrange(0, i as int),
        decreases tris@.len() - i,
    {
        let t: [u32; 3] = tris[i];
        let mut s: String = String::new();
        push_number(&mut s, t[0] as u64);
        s.append(",");
        push_number(&mut s, t[1] as u64);
        s.append(",");
        push_number(&mut s, t[2] as u64);
        assert(s@ =~= indices_text(t));
        let ghost before = items@;
        items.push(s);
        assert(texts(items@) =~= texts(before).push(indices_text(t)));
        assert(all_indices(tris@).subrange(0, i + 1) =~= all_indices(tris@).subrange(0, i as int).push(
            indices_text(t),
        ));
        i += 1;
    }
    assert(all_indices(tris@).subrange(0, i as int) =~= all_indices(tris@));
    items
}

/// A part as the viewer reads it.
pub open spec fn viewer_part(p: MeshPart) -> Seq<char> {
    "    {\"id\":"@ + decimal(p.id as nat) + ",\"kind\":\""@ + kind_name(p.prim.spec_kind()) + "\",\"volume\":"@
        + p.volume@ + ",\"vertices\":["@ + joined(texts(p.vertices@), ","@) + "],\"indices\":["@ + joined(
        all_indices(p.tris@),
        ","@,
    ) + "]}"@
}

pub open spec fn viewer_parts(parts: Seq<MeshPart>) -> Seq<Seq<char>> {
    Seq::new(parts.len(), |i: int| viewer_part(parts[i]))
}

/// The mesh and the parts as the viewer reads them.
pub open spec fn viewer_text(verts: Seq<Seq<char>>, tris: Seq<[u32; 3]>, parts: Seq<MeshPart>) -> Seq<char> {
    "{\n  \"input\": {\n    \"vertices\": ["@ + joined(verts, ","@) + "],\n    \"indices\": ["@ + joined(
        all_indices(tris),
        ","@,
    ) + "]\n  },\n  \"primitives\": [\n"@ + joined(viewer_parts(parts), ",\n"@) + "\n  ]\n}\n"@
}

fn write_viewer_part(p: &MeshPart) -> (s: String)
    ensures
        s@ == viewer_part(*p),
{
    let mut s: String = "    {\"id\":".to_owned();
    push_number(&mut s, p.id as u64);
    s.append(",\"kind\":\"");
    s.append(name_of_kind(p.prim.kind()));
    s.append("\",\"volume\":");
    s.append(p.volume.as_str());
    s.append(",\"vertices\":[");
    push_joined(&mut s, &p.vertices, ",");
    s.append("],\"indices\":[");
    push_joined(&mut s, &indices_of(&p.tris), ",");
    s.append("]}");
    s
}

/// The data of the viewer: the mesh, and every primitive with its kind, its
/// volume and its triangles.
pub fn viewer_data(verts: &Vec<String>, tris: &Vec<[u32; 3]>, parts: &Vec<MeshPart>) -> (s: String)
    ensures
        s@ == viewer_text(texts(verts@), tris@, parts@),
{
    let mut items: Vec<String> = Vec::new();
    let mut i: usize = 0;
    while i < parts.len()
        invariant
            i <= parts@.len(),
            texts(items@) == viewer_parts(parts@).subrange(0, i as int),
        decreases parts@.len() - i,
    {
        let t = write_viewer_part(&parts[i]);
        let ghost before = items@;
        items.push(t);
        assert(texts(items@) =~= texts(before).push(t@));
        assert(viewer_parts(parts@).subrange(0, i + 1) =~= viewer_parts(parts@).subrange(0, i as int).push(t@));
        i += 1;
    }
    assert(viewer_parts(parts@).subrange(0, i as int) =~= viewer_parts(parts@));
    let mut s: String = "{\n  \"input\": {\n    \"vertices\": [".to_owned();
    push_joined(&mut s, verts, ",");
    s.append("],\n    \"indices\": [");
    push_joined(&mut s, &indices_of(tris), ",");
    s.append("]\n  },\n  \"primitives\": [\n");
    push_joined(&mut s, &items, ",\n");
    s.append("\n  ]\n}\n");
    s
}

/// The object has a field of this name with this value.
pub open spec fn has_field(fields: Seq<(Seq<char>, JsonView)>, name: Seq<char>, value: JsonView) -> bool {
    fields.contains((name, value))
}

/// A row of the splits says of each thing what it holds of that thing.
pub proof fn law_row_says_what_it_holds(r: SplitDebugRow)
    ensures
        r.fields().len() == 28,
        has_field(r.fields(), "pass"@, JsonView::Text(r.pass.spec_name())),
        has_field(r.fields(), "split_attempt"@, JsonView::Count(r.split_attempt as nat)),
        has_field(r.fields(), "primitive_root"@, JsonView::Count(r.primitive_root as nat)),
        has_field(r.fields(), "compact_pid"@, JsonView::Count(r.compact_pid as nat)),
        has_field(r.fields(), "candidate_index"@, JsonView::Count(r.candidate_index as nat)),
        has_field(r.fields(), "source"@, JsonView::Text(r.source@)),
        has_field(r.fields(), "original_kind"@, JsonView::Text(kind_name(r.original_kind))),
        has_field(r.fields(), "original_face_count"@, JsonView::Count(r.original_face_count as nat)),
        has_field(r.fields(), "original_hausdorff"@, JsonView::Raw(r.original_hausdorff.text@)),
        has_field(r.fields(), "threshold"@, JsonView::Raw(r.threshold.text@)),
        has_field(r.fields(), "faces_a"@, JsonView::Count(r.faces_a as nat)),
        has_field(r.fields(), "faces_b"@, JsonView::Count(r.faces_b as nat)),
        has_field(r.fields(), "kind_a"@, JsonView::Text(kind_name(r.kind_a))),
        has_field(r.fields(), "kind_b"@, JsonView::Text(kind_name(r.kind_b))),
        has_field(r.fields(), "hausdorff_a"@, JsonView::Raw(r.hausdorff_a.text@)),
        has_field(r.fields(), "hausdorff_b"@, JsonView::Raw(r.hausdorff_b.text@)),
        has_field(r.fields(), "hausdorff_max"@, JsonView::Raw(r.hausdorff_max.text@)),
        has_field(r.fields(), "delta_hausdorff_max"@, JsonView::Raw(r.delta_hausdorff_max.text@)),
        has_field(r.fields(), "volume_a"@, JsonView::Raw(r.volume_a.text@)),
        has_field(r.fields(), "volume_b"@, JsonView::Raw(r.volume_b.text@)),
        has_field(r.fields(), "volume_sum"@, JsonView::Raw(r.volume_sum.text@)),
        has_field(r.fields(), "delta_volume_sum"@, JsonView::Raw(r.delta_volume_sum.text@)),
        has_field(r.fields(), "would_improve"@, JsonView::Flag(r.would_improve)),
        has_field(r.fields(), "accepted"@, JsonView::Flag(r.accepted)),
        has_field(r.fields(), "witness_dist"@, JsonView::Raw(finite_text(r.witness_dist))),
        has_field(r.fields(), "witness_sample"@, JsonView::Raw(finite_triple(r.witness_sample))),
        has_field(r.fields(), "witness_nearest"@, JsonView::Raw(finite_triple(r.witness_nearest))),
        has_field(r.fields(), "witness_normal"@, JsonView::Raw(finite_triple(r.witness_normal))),
{
    assert(r.fields()[0] == ("pass"@, JsonView::Text(r.pass.spec_name())));
    assert(r.fields()[1] == ("split_attempt"@, JsonView::Count(r.split_attempt as nat)));
    assert(r.fields()[2] == ("primitive_root"@, JsonView::Count(r.primitive_root as nat)));
    assert(r.fields()[3] == ("compact_pid"@, JsonView::Count(r.compact_pid as nat)));
    assert(r.fields()[4] == ("candidate_index"@, JsonView::Count(r.candidate_index as nat)));
    assert(r.fields()[5] == ("source"@, JsonView::Text(r.source@)));
    assert(r.fields()[6] == ("original_kind"@, JsonView::Text(kind_name(r.original_kind))));
    assert(r.fields()[7] == ("original_face_count"@, JsonView::Count(r.original_face_count as nat)));
    assert(r.fields()[8] == ("original_hausdorff"@, JsonView::Raw(r.original_hausdorff.text@)));
    assert(r.fields()[9] == ("threshold"@, JsonView::Raw(r.threshold.text@)));
    assert(r.fields()[10] == ("faces_a"@, JsonView::Count(r.faces_a as nat)));
    assert(r.fields()[11] == ("faces_b"@, JsonView::Count(r.faces_b as nat)));
    assert(r.fields()[12] == ("kind_a"@, JsonView::Text(kind_name(r.kind_a))));
    assert(r.fields()[13] == ("kind_b"@, JsonView::Text(kind_name(r.kind_b))));
    assert(r.fields()[14] == ("hausdorff_a"@, JsonView::Raw(r.hausdorff_a.text@)));
    assert(r.fields()[15] == ("hausdorff_b"@, JsonView::Raw(r.hausdorff_b.text@)));
    assert(r.fields()[16] == ("hausdorff_max"@, JsonView::Raw(r.hausdorff_max.text@)));
    assert(r.fields()[17] == ("delta_hausdorff_max"@, JsonView::Raw(r.delta_hausdorff_max.text@)));
    assert(r.fields()[18] == ("volume_a"@, JsonView::Raw(r.volume_a.text@)));
    assert(r.fields()[19] == ("volume_b"@, JsonView::Raw(r.volume_b.text@)));
    assert(r.fields()[20] == ("volume_sum"@, JsonView::Raw(r.volume_sum.text@)));
    assert(r.fields()[21] == ("delta_volume_sum"@, JsonView::Raw(r.delta_volume_sum.text@)));
    assert(r.fields()[22] == ("would_improve"@, JsonView::Flag(r.would_improve)));
    assert(r.fields()[23] == ("accepted"@, JsonView::Flag(r.accepted)));
    assert(r.fields()[24] == ("witness_dist"@, JsonView::Raw(finite_text(r.witness_dist))));
    assert(r.fields()[25] == ("witness_sample"@, JsonView::Raw(finite_triple(r.witness_sample))));
    assert(r.fields()[26] == ("witness_nearest"@, JsonView::Raw(finite_triple(r.witness_nearest))));
    assert(r.fields()[27] == ("witness_normal"@, JsonView::Raw(finite_triple(r.witness_normal))));
}

/// The measures say of each thing what was measured of that thing.
pub proof fn law_measures_say_what_was_measured(m: Metrics)
    ensures
        m.fields().len() == 23,
        m.kind_fields().len() == 6,
        has_field(m.fields(), "primitives"@, JsonView::Count(m.counts.total as nat)),
        has_field(m.fields(), "by_kind"@, JsonView::Raw(object_text(m.kind_fields()))),
        has_field(m.fields(), "total_volume"@, JsonView::Raw(m.total_volume.text@)),
        has_field(m.fields(), "aabb_volume"@, JsonView::Raw(m.aabb_volume.text@)),
        has_field(m.fields(), "volume_ratio"@, JsonView::Raw(m.volume_ratio.text@)),
        has_field(m.fields(), "hausdorff"@, JsonView::Raw(m.hausdorff.text@)),
        has_field(m.fields(), "hausdorff_norm"@, JsonView::Raw(m.hausdorff_norm.text@)),
        has_field(m.fields(), "chamfer"@, JsonView::Raw(m.chamfer.text@)),
        has_field(m.fields(), "chamfer_norm"@, JsonView::Raw(m.chamfer_norm.text@)),
        has_field(m.fields(), "reverse_hausdorff"@, JsonView::Raw(m.reverse_hausdorff.text@)),
        has_field(m.fields(), "reverse_hausdorff_norm"@, JsonView::Raw(m.reverse_hausdorff_norm.text@)),
        has_field(m.fields(), "reverse_chamfer"@, JsonView::Raw(m.reverse_chamfer.text@)),
        has_field(m.fields(), "reverse_chamfer_norm"@, JsonView::Raw(m.reverse_chamfer_norm.text@)),
        has_field(m.fields(), "hausdorff_2way"@, JsonView::Raw(m.hausdorff_2way.text@)),
        has_field(m.fields(), "hausdorff_2way_norm"@, JsonView::Raw(m.hausdorff_2way_norm.text@)),
        has_field(m.fields(), "chamfer_2way"@, JsonView::Raw(m.chamfer_2way.text@)),
        has_field(m.fields(), "chamfer_2way_norm"@, JsonView::Raw(m.chamfer_2way_norm.text@)),
        has_field(m.fields(), "coverage_fraction"@, JsonView::Raw(m.coverage_fraction.text@)),
        has_field(m.fields(), "worst_prim_idx"@, JsonView::Count(m.worst_prim_idx as nat)),
        has_field(m.fields(), "worst_prim_kind"@, JsonView::Text(kind_name(m.worst_prim_kind))),
        has_field(m.fields(), "worst_prim_max"@, JsonView::Raw(m.worst_prim_max.text@)),
        has_field(m.fields(), "worst_prim_volume"@, JsonView::Raw(m.worst_prim_volume.text@)),
        has_field(m.fields(), "samples"@, JsonView::Count(m.samples as nat)),
        has_field(m.kind_fields(), "obb"@, JsonView::Count(m.counts.obb as nat)),
        has_field(m.kind_fields(), "sphere"@, JsonView::Count(m.counts.sphere as nat)),
        has_field(m.kind_fields(), "cylinder"@, JsonView::Count(m.counts.cylinder as nat)),
        has_field(m.kind_fields(), "capsule"@, JsonView::Count(m.counts.capsule as nat)),
        has_field(m.kind_fields(), "frustum"@, JsonView::Count(m.counts.frustum as nat)),
        has_field(m.kind_fields(), "prism"@, JsonView::Count(m.counts.prism as nat)),
{
    assert(m.fields()[0] == ("primitives"@, JsonView::Count(m.counts.total as nat)));
    assert(m.fields()[1] == ("by_kind"@, JsonView::Raw(object_text(m.kind_fields()))));
    assert(m.fields()[2] == ("total_volume"@, JsonView::Raw(m.total_volume.text@)));
    assert(m.fields()[3] == ("aabb_volume"@, JsonView::Raw(m.aabb_volume.text@)));
    assert(m.fields()[4] == ("volume_ratio"@, JsonView::Raw(m.volume_ratio.text@)));
    assert(m.fields()[5] == ("hausdorff"@, JsonView::Raw(m.hausdorff.text@)));
    assert(m.fields()[6] == ("hausdorff_norm"@, JsonView::Raw(m.hausdorff_norm.text@)));
    assert(m.fields()[7] == ("chamfer"@, JsonView::Raw(m.chamfer.text@)));
    assert(m.fields()[8] == ("chamfer_norm"@, JsonView::Raw(m.chamfer_norm.text@)));
    assert(m.fields()[9] == ("reverse_hausdorff"@, JsonView::Raw(m.reverse_hausdorff.text@)));
    assert(m.fields()[10] == ("reverse_hausdorff_norm"@, JsonView::Raw(m.reverse_hausdorff_norm.text@)));
    assert(m.fields()[11] == ("reverse_chamfer"@, JsonView::Raw(m.reverse_chamfer.text@)));
    assert(m.fields()[12] == ("reverse_chamfer_norm"@, JsonView::Raw(m.reverse_chamfer_norm.text@)));
    assert(m.fields()[13] == ("hausdorff_2way"@, JsonView::Raw(m.hausdorff_2way.text@)));
    assert(m.fields()[14] == ("hausdorff_2way_norm"@, JsonView::Raw(m.hausdorff_2way_norm.text@)));
    assert(m.fields()[15] == ("chamfer_2way"@, JsonView::Raw(m.chamfer_2way.text@)));
    assert(m.fields()[16] == ("chamfer_2way_norm"@, JsonView::Raw(m.chamfer_2way_norm.text@)));
    assert(m.fields()[17] == ("coverage_fraction"@, JsonView::Raw(m.coverage_fraction.text@)));
    assert(m.fields()[18] == ("worst_prim_idx"@, JsonView::Count(m.worst_prim_idx as nat)));
    assert(m.fields()[19] == ("worst_prim_kind"@, JsonView::Text(kind_name(m.worst_prim_kind))));
    assert(m.fields()[20] == ("worst_prim_max"@, JsonView::Raw(m.worst_prim_max.text@)));
    assert(m.fields()[21] == ("worst_prim_volume"@, JsonView::Raw(m.worst_prim_volume.text@)));
    assert(m.fields()[22] == ("samples"@, JsonView::Count(m.samples as nat)));
    assert(m.kind_fields()[0] == ("obb"@, JsonView::Count(m.counts.obb as nat)));
    assert(m.kind_fields()[1] == ("sphere"@, JsonView::Count(m.counts.sphere as nat)));
    assert(m.kind_fields()[2] == ("cylinder"@, JsonView::Count(m.counts.cylinder as nat)));
    assert(m.kind_fields()[3] == ("capsule"@, JsonView::Count(m.counts.capsule as nat)));
    assert(m.kind_fields()[4] == ("frustum"@, JsonView::Count(m.counts.frustum as nat)));
    assert(m.kind_fields()[5] == ("prism"@, JsonView::Count(m.counts.prism as nat)));
}

/// Each kind has a name and a title of its own, and each phase a name.
pub proof fn law_names_are_told_apart(a: PrimKind, b: PrimKind, p: SplitPhase, q: SplitPhase)
    ensures
        kind_name(a) == kind_name(b) ==> a == b,
        kind_title(a) == kind_title(b) ==> a == b,
        p.spec_name() == q.spec_name() ==> p == q,
{
    reveal_strlit("obb");
    reveal_strlit("sphere");
    reveal_strlit("cylinder");
    reveal_strlit("capsule");
    reveal_strlit("frustum");
    reveal_strlit("prism");
    reveal_strlit("Obb");
    reveal_strlit("Sphere");
    reveal_strlit("Cylinder");
    reveal_strlit("Capsule");
    reveal_strlit("Frustum");
    reveal_strlit("Prism");
    reveal_strlit("pre_refine");
    reveal_strlit("post_refine");
    reveal_strlit("bad_slab_repair");
    reveal_strlit("debug_live");
    assert("obb"@.len() == 3 && "sphere"@.len() == 6 && "cylinder"@.len() == 8 && "capsule"@.len() == 7 && "frustum"@.len()
        == 7 && "prism"@.len() == 5);
    assert("Obb"@.len() == 3 && "Sphere"@.len() == 6 && "Cylinder"@.len() == 8 && "Capsule"@.len() == 7 && "Frustum"@.len()
        == 7 && "Prism"@.len() == 5);
    assert("capsule"@[0] == 'c' && "frustum"@[0] == 'f' && "Capsule"@[0] == 'C' && "Frustum"@[0] == 'F');
    assert("pre_refine"@.len() == 10 && "post_refine"@.len() == 11 && "bad_slab_repair"@.len() == 15 && "debug_live"@.len()
        == 10);
    assert("pre_refine"@[0] == 'p' && "debug_live"@[0] == 'd');
}

/// A number is written as it stands where it is finite, and as `null` where it
/// is not or is missing; so are three of them, all or none.
pub proof fn law_only_finite_numbers_are_written(n: NumberText, p: [NumberText; 3])
    ensures
        n.value.spec_is_finite() ==> finite_text(Some(n)) == n.text@,
        !n.value.spec_is_finite() ==> finite_text(Some(n)) == "null"@,
        finite_text(None) == "null"@,
        finite_triple(None) == "null"@,
        !p[0].value.spec_is_finite() ==> finite_triple(Some(p)) == "null"@,
        !p[1].value.spec_is_finite() ==> finite_triple(Some(p)) == "null"@,
        !p[2].value.spec_is_finite() ==> finite_triple(Some(p)) == "null"@,
        p[0].value.spec_is_finite() && p[1].value.spec_is_finite() && p[2].value.spec_is_finite() ==> finite_triple(Some(p))
            == "["@ + p[0].text@ + ","@ + p[1].text@ + ","@ + p[2].text@ + "]"@,
{
}

/// A field is its name in quotes, a colon and its value; a text is in quotes
/// too, and reads back as it was.
pub proof fn law_fields_and_texts_are_quoted(name: Seq<char>, text: Seq<char>, n: nat, b: bool)
    ensures
        ({
            let k = name.len() as int;
            let f = field_text((name, JsonView::Text(text)));
            let v = value_text(JsonView::Text(text));
            &&& f.len() == k + 3 + v.len()
            &&& f[0] == '"' && f[k + 1] == '"' && f[k + 2] == ':'
            &&& f.subrange(1, k + 1) == name
            &&& f.subrange(k + 3, f.len() as int) == v
            &&& v[0] == '"' && v.last() == '"'
            &&& crate::text::unescaped(v.subrange(1, v.len() - 1)) == text
        }),
        value_text(JsonView::Count(n)) == decimal(n),
        value_text(JsonView::Flag(b)) == (if b {
            "true"@
        } else {
            "false"@
        }),
        value_text(JsonView::Raw(text)) == text,
{
    reveal_strlit("\"");
    reveal_strlit("\":");
    let k = name.len() as int;
    let f = field_text((name, JsonView::Text(text)));
    let v = value_text(JsonView::Text(text));
    assert(f.subrange(1, k + 1) =~= name);
    assert(f.subrange(k + 3, f.len() as int) =~= v);
    assert(v.subrange(1, v.len() - 1) =~= escaped(text));
    crate::text::law_escaped_reads_back(text);
}

/// Lines are written one after the other: those of two lists are those of the
/// first and then those of the second.
pub proof fn law_lines_follow_each_other(
    a: Seq<Seq<char>>,
    b: Seq<Seq<char>>,
    s: Seq<[u32; 3]>,
    t: Seq<[u32; 3]>,
    base: nat,
)
    ensures
        vertex_lines(a + b) == vertex_lines(a) + vertex_lines(b),
        face_lines(s + t, base) == face_lines(s, base) + face_lines(t, base),
        a.len() == 1 ==> vertex_lines(a) == "v "@ + a[0] + "\n"@,
        s.len() == 1 ==> face_lines(s, base) == face_line(s[0], base),
    decreases b.len() + t.len(),
{
    if a.len() == 1 {
        assert(vertex_lines(a.drop_last()) =~= Seq::empty());
        assert(vertex_lines(a) =~= "v "@ + a[0] + "\n"@);
    }
    if s.len() == 1 {
        assert(face_lines(s.drop_last(), base) =~= Seq::empty());
        assert(face_lines(s, base) =~= face_line(s[0], base));
    }
    if b.len() > 0 {
        law_lines_follow_each_other(a, b.drop_last(), s, t, base);
        assert((a + b).drop_last() =~= a + b.drop_last());
        assert(vertex_lines(a + b) =~= vertex_lines(a) + vertex_lines(b));
    } else {
        assert(a + b =~= a);
        assert(vertex_lines(a) + vertex_lines(b) =~= vertex_lines(a));
    }
    if t.len() > 0 {
        law_lines_follow_each_other(a, b, s, t.drop_last(), base);
        assert((s + t).drop_last() =~= s + t.drop_last());
        assert(face_lines(s + t, base) =~= face_lines(s, base) + face_lines(t, base));
    } else {
        assert(s + t =~= s);
        assert(face_lines(s, base) + face_lines(t, base) =~= face_lines(s, base));
    }
}

/// The corners of a face are written counting from one behind the vertices
/// that came before: a face further on is the face of the moved corners.
pub proof fn law_corners_count_from_one(t: [u32; 3], u: [u32; 3], base: nat, by: nat)
    requires
        u[0] == t[0] + by,
        u[1] == t[1] + by,
        u[2] == t[2] + by,
    ensures
        face_line(t, base + by) == face_line(u, base),
        face_line(t, base) == "f "@ + decimal((t[0] + base + 1) as nat) + " "@ + decimal((t[1] + base + 1) as nat) + " "@
            + decimal((t[2] + base + 1) as nat) + "\n"@,
{
}

/// The counts are listed by kind, each behind its own label, with a blank
/// between.
pub proof fn law_counts_are_listed_by_kind(t: Tally)
    ensures
        counts_text(t) == joined(
            seq![
                "obb="@ + decimal(t.obb as nat),
                "sphere="@ + decimal(t.sphere as nat),
                "cyl="@ + decimal(t.cylinder as nat),
                "cap="@ + decimal(t.capsule as nat),
                "frustum="@ + decimal(t.frustum as nat),
                "prism="@ + decimal(t.prism as nat),
            ],
            " "@,
        ),
{
    reveal_strlit(" ");
    reveal_strlit("sphere=");
    reveal_strlit("cyl=");
    reveal_strlit("cap=");
    reveal_strlit("frustum=");
    reveal_strlit("prism=");
    reveal_strlit(" sphere=");
    reveal_strlit(" cyl=");
    reveal_strlit(" cap=");
    reveal_strlit(" frustum=");
    reveal_strlit(" prism=");
    assert(" "@ + "sphere="@ =~= " sphere="@);
    assert(" "@ + "cyl="@ =~= " cyl="@);
    assert(" "@ + "cap="@ =~= " cap="@);
    assert(" "@ + "frustum="@ =~= " frustum="@);
    assert(" "@ + "prism="@ =~= " prism="@);
    let items = seq![
        "obb="@ + decimal(t.obb as nat),
        "sphere="@ + decimal(t.sphere as nat),
        "cyl="@ + decimal(t.cylinder as nat),
        "cap="@ + decimal(t.capsule as nat),
        "frustum="@ + decimal(t.frustum as nat),
        "prism="@ + decimal(t.prism as nat),
    ];
    let sep = " "@;
    let five = items.drop_last();
    let four = five.drop_last();
    let three = four.drop_last();
    let two = three.drop_last();
    assert(joined(two.drop_last(), sep) =~= items[0]);
    assert(joined(two, sep) =~= items[0] + sep + items[1]);
    assert(joined(three, sep) =~= joined(two, sep) + sep + items[2]);
    assert(joined(four, sep) =~= joined(three, sep) + sep + items[3]);
    assert(joined(five, sep) =~= joined(four, sep) + sep + items[4]);
    assert(joined(items, sep) =~= joined(five, sep) + sep + items[5]);
    assert(counts_text(t) =~= joined(items, sep));
}

/// The corners of a triangle are listed with commas between.
pub proof fn law_corners_are_listed(t: [u32; 3])
    ensures
        indices_text(t) == joined(seq![decimal(t[0] as nat), decimal(t[1] as nat), decimal(t[2] as nat)], ","@),
{
    let items = seq![decimal(t[0] as nat), decimal(t[1] as nat), decimal(t[2] as nat)];
    let two = items.drop_last();
    assert(joined(two.drop_last(), ","@) =~= items[0]);
    assert(joined(two, ","@) =~= items[0] + ","@ + items[1]);
    assert(joined(items, ","@) =~= joined(two, ","@) + ","@ + items[2]);
}

/// The vertices of a list of parts are those of all of them, so that a part
/// counts on from where the parts before it end.
pub proof fn law_parts_count_on(parts: Seq<MeshPart>, p: MeshPart)
    ensures
        vertex_total(parts.push(p)) == vertex_total(parts) + p.vertices@.len(),
        all_lines(parts.push(p)) == all_lines(parts) + ("g "@ + tag_of(p.prim.spec_kind()) + "_"@ + decimal(p.id as nat) + "\n"@
            + vertex_lines(texts(p.vertices@)) + face_lines(p.tris@, vertex_total(parts))),
        vertex_total(Seq::empty()) == 0,
        all_lines(Seq::empty()).len() == 0,
{
    assert(parts.push(p).drop_last() =~= parts);
}

/// An object with a field more has it behind a comma, before the end.
pub proof fn law_object_grows_by_a_field(fields: Seq<(Seq<char>, JsonView)>, f: (Seq<char>, JsonView))
    ensures
        fields.len() > 0 ==> object_text(fields.push(f)) == object_text(fields).drop_last() + ","@ + field_text(f) + "}"@,
        fields.len() == 0 ==> object_text(fields.push(f)) == "{"@ + field_text(f) + "}"@,
        fields.len() == 0 ==> object_text(fields) == "{"@ + "}"@,
{
    reveal_strlit("}");
    let items = Seq::new(fields.len(), |i: int| field_text(fields[i]));
    let more = Seq::new(fields.push(f).len(), |i: int| field_text(fields.push(f)[i]));
    assert(more.drop_last() =~= items);
    assert(more.last() == field_text(f));
    if fields.len() > 0 {
        assert(object_text(fields).drop_last() =~= "{"@ + joined(items, ","@));
        assert(object_text(fields.push(f)) =~= "{"@ + (joined(items, ","@) + ","@ + field_text(f)) + "}"@);
    } else {
        assert(joined(more, ","@) =~= field_text(f));
        assert(joined(items, ","@) =~= Seq::empty());
        assert(object_text(fields) =~= "{"@ + "}"@);
    }
}

} // verus!
