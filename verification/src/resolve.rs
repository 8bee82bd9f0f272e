//! Resolution of font requests against a [`FontIndex`](crate::index::FontIndex).
use crate::fonts::{FaceView, FontFace, FontName, NameKind, NameView, copy_face, copy_name, face_views, name_views};
use crate::index::{FaceKeys, FontIndex, keep, keys_match, normalize_each, record_name};
use crate::subtitle::{FontReference, RefView, copy_reference};
use crate::text::{chars_eq, chars_of, normalize, normalize_chars, views};
use vstd::prelude::*;

verus! {

/// Why no candidate could be selected under the requested options.
#[derive(Debug, Clone, Copy, PartialEq, Eq, Structural)]
pub enum MissingReason {
    /// No normalized internal alias matched the requested name.
    NameNotFound,
    /// The family exists, but no face satisfies the current weight/italic policy.
    StyleNotFound,
}

/// Selection path used for a candidate.
#[derive(Debug, Clone, Copy, PartialEq, Eq, Structural)]
pub enum SelectionMethod {
    /// Exact normalized PostScript alias, ahead of family and full-name matches.
    PostScriptName,
    /// Full name sufficiently distinct from generic family aliases.
    FullName,
    /// Legacy family alias belonging to a broader typographic family and one style.
    LegacyFamilyName,
    /// Family candidate with exact requested weight and italic state.
    FamilyExact,
    /// Family candidate at minimum weight distance in the selected slant tier.
    FamilyNearest,
    /// A permitted bold or italic fallback selected this face without weight approximation.
    FamilySynthesis,
    /// An alias without a more specific selection classification.
    InternalName,
}

/// Weight selection policy for generic families, not specific face names.
#[derive(Debug, Clone, Copy, PartialEq, Eq, Structural)]
#[non_exhaustive]
pub enum WeightMatching {
    /// Require numeric equality. Separate synthesis permission can still allow fallback.
    Exact,
    /// Minimum absolute weight difference among faces in the selected family/slant tier.
    /// All equally close faces are retained; there is no distance cutoff.
    Nearest,
}

impl Default for WeightMatching {
    fn default() -> (r: Self)
        ensures
            r == WeightMatching::Exact,
    {
        WeightMatching::Exact
    }
}

/// Permitted renderer-side synthesis, disabled by default.
#[derive(Debug, Clone, Copy, PartialEq, Eq, Structural)]
pub struct SynthesisPolicy {
    /// Permit weight 400 to satisfy weight 700. Can combine with italic synthesis.
    pub bold: bool,
    /// Permit an upright face for an italic request if no native-italic candidate
    /// satisfies the weight policy. Never substitutes italic for upright text.
    pub italic: bool,
}

impl Default for SynthesisPolicy {
    fn default() -> (r: Self)
        ensures
            !r.bold && !r.italic,
    {
        SynthesisPolicy { bold: false, italic: false }
    }
}

/// Independent controls for family weight selection and style synthesis.
#[derive(Debug, Clone, Copy, PartialEq, Eq, Structural)]
pub struct ResolveOptions {
    /// Exact or minimum-distance selection within a matching family.
    pub weight_matching: WeightMatching,
    /// Synthesis permission evaluated independently of weight selection.
    pub synthesis: SynthesisPolicy,
}

impl Default for ResolveOptions {
    fn default() -> (r: Self)
        ensures
            r.weight_matching == WeightMatching::Exact,
            !r.synthesis.bold && !r.synthesis.italic,
    {
        ResolveOptions { weight_matching: WeightMatching::Exact, synthesis: SynthesisPolicy::default() }
    }
}

/// Compatibility presets for `FontIndex::resolve_with_mode`.
#[derive(Debug, Clone, Copy, PartialEq, Eq, Structural)]
pub enum ResolveMode {
    /// Exact family matching with synthesis disabled.
    Strict,
    /// Allow both renderer-side bold (400→700) and italic (upright→italic) synthesis.
    AllowStyleSynthesis,
}

impl Default for ResolveMode {
    fn default() -> (r: Self)
        ensures
            r == ResolveMode::Strict,
    {
        ResolveMode::Strict
    }
}

/// Options of a preset: exact weights, and both syntheses exactly when allowed.
pub open spec fn mode_options(mode: ResolveMode) -> ResolveOptions {
    ResolveOptions {
        weight_matching: WeightMatching::Exact,
        synthesis: SynthesisPolicy {
            bold: mode == ResolveMode::AllowStyleSynthesis,
            italic: mode == ResolveMode::AllowStyleSynthesis,
        },
    }
}

impl From<ResolveMode> for ResolveOptions {
    fn from(mode: ResolveMode) -> (r: Self) {
        let allow = match mode {
            ResolveMode::AllowStyleSynthesis => true,
            ResolveMode::Strict => false,
        };
        ResolveOptions {
            weight_matching: WeightMatching::Exact,
            synthesis: SynthesisPolicy { bold: allow, italic: allow },
        }
    }
}

impl vstd::std_specs::convert::FromSpecImpl<ResolveMode> for ResolveOptions {
    open spec fn obeys_from_spec() -> bool {
        true
    }

    open spec fn from_spec(mode: ResolveMode) -> ResolveOptions {
        mode_options(mode)
    }
}

/// All name records that matched a candidate under the selected matching rule.
#[derive(Debug, Clone, PartialEq, Eq)]
pub struct MatchEvidence {
    /// Same path as the corresponding candidate.
    pub path: String,
    /// Same collection index as the corresponding candidate.
    pub face_index: u32,
    /// Matching name records that support the selected method, in sorted order.
    pub matched_names: Vec<FontName>,
    /// True only when bold synthesis was permitted and the 400→700 rule applies.
    pub synthetic_bold: bool,
    /// True when italic synthesis is permitted and an italic request selects an
    /// upright face.
    pub synthetic_italic: bool,
    /// How this candidate was selected, independently of the synthesis flag.
    pub selection_method: SelectionMethod,
}

pub struct EvidenceView {
    pub path: Seq<char>,
    pub face_index: u32,
    pub matched_names: Seq<NameView>,
    pub synthetic_bold: bool,
    pub synthetic_italic: bool,
    pub selection_method: SelectionMethod,
}

impl View for MatchEvidence {
    type V = EvidenceView;

    open spec fn view(&self) -> EvidenceView {
        EvidenceView {
            path: self.path@,
            face_index: self.face_index,
            matched_names: crate::fonts::name_views(self.matched_names@),
            synthetic_bold: self.synthetic_bold,
            synthetic_italic: self.synthetic_italic,
            selection_method: self.selection_method,
        }
    }
}

/// One input reference and its selection result.
#[derive(Debug, Clone, PartialEq, Eq)]
pub struct Resolution {
    /// The request, including its source lines and requested attributes.
    pub reference: FontReference,
    /// Selected native faces, in index order.
    pub candidates: Vec<FontFace>,
    /// Present only for missing entries.
    pub missing_reason: Option<MissingReason>,
    /// All faces of the matching family, only for `StyleNotFound`.
    pub available_variants: Vec<FontFace>,
    /// One entry per candidate, in the same order. Empty for missing entries.
    pub matches: Vec<MatchEvidence>,
}

pub struct ResolutionView {
    pub reference: RefView,
    pub candidates: Seq<FaceView>,
    pub missing_reason: Option<MissingReason>,
    pub available_variants: Seq<FaceView>,
    pub matches: Seq<EvidenceView>,
}

pub open spec fn evidence_views(v: Seq<MatchEvidence>) -> Seq<EvidenceView> {
    v.map_values(|e: MatchEvidence| e@)
}

impl View for Resolution {
    type V = ResolutionView;

    open spec fn view(&self) -> ResolutionView {
        ResolutionView {
            reference: self.reference@,
            candidates: crate::fonts::face_views(self.candidates@),
            missing_reason: self.missing_reason,
            available_variants: crate::fonts::face_views(self.available_variants@),
            matches: evidence_views(self.matches@),
        }
    }
}

pub open spec fn resolution_views(v: Seq<Resolution>) -> Seq<ResolutionView> {
    v.map_values(|r: Resolution| r@)
}

/// Requests partitioned by candidate count, preserving input order in each bucket.
#[derive(Debug, Clone, PartialEq, Eq)]
pub struct ResolveReport {
    /// Exactly one candidate per entry.
    pub resolved: Vec<Resolution>,
    /// No candidates; each entry contains a [`MissingReason`].
    pub missing: Vec<Resolution>,
    /// Two or more candidates, including equally close weights and duplicate files.
    pub ambiguous: Vec<Resolution>,
}

impl Default for ResolveReport {
    fn default() -> (r: Self)
        ensures
            r.resolved@.len() == 0,
            r.missing@.len() == 0,
            r.ambiguous@.len() == 0,
    {
        ResolveReport { resolved: Vec::new(), missing: Vec::new(), ambiguous: Vec::new() }
    }
}

/// `key` is the normalized form of one of `names` (empty keys match nothing).
pub open spec fn key_in(names: Seq<Seq<char>>, key: Seq<char>) -> bool {
    key.len() > 0 && exists|j: int| 0 <= j < names.len() && normalize(#[trigger] names[j]) == key
}

pub open spec fn in_names(f: FaceView, key: Seq<char>) -> bool {
    key_in(f.names, key)
}

pub open spec fn in_families(f: FaceView, key: Seq<char>) -> bool {
    key_in(f.family_names, key)
}

pub open spec fn record_with(f: FaceView, key: Seq<char>, kind: NameKind) -> bool {
    key.len() > 0 && exists|j: int|
        0 <= j < f.records.len() && (#[trigger] f.records[j]).kind == kind && normalize(
            f.records[j].name,
        ) == key
}

pub open spec fn in_full(f: FaceView, key: Seq<char>) -> bool {
    record_with(f, key, NameKind::FullName)
}

pub open spec fn in_postscript(f: FaceView, key: Seq<char>) -> bool {
    record_with(f, key, NameKind::PostScriptName)
}

/// The face records a typographic family name (ID 16).
pub open spec fn has_typographic(f: FaceView) -> bool {
    exists|j: int| 0 <= j < f.records.len() && (#[trigger] f.records[j]).name_id == Some(16u16)
}

/// `key` is a generic family of `f`: a typographic or WWS family, or a legacy family of
/// a face without a typographic family.
pub open spec fn generic_in(f: FaceView, key: Seq<char>) -> bool {
    key.len() > 0 && exists|j: int|
        0 <= j < f.records.len() && (#[trigger] f.records[j]).kind == NameKind::Family && (
        f.records[j].name_id == Some(16u16) || f.records[j].name_id == Some(21u16)
            || !has_typographic(f)) && normalize(f.records[j].name) == key
}

pub open spec fn is_generic(faces: Seq<FaceView>, key: Seq<char>) -> bool {
    exists|i: int| 0 <= i < faces.len() && generic_in(#[trigger] faces[i], key)
}

pub open spec fn any_family(faces: Seq<FaceView>, key: Seq<char>) -> bool {
    exists|i: int| 0 <= i < faces.len() && in_families(#[trigger] faces[i], key)
}

pub open spec fn any_full(faces: Seq<FaceView>, key: Seq<char>) -> bool {
    exists|i: int| 0 <= i < faces.len() && in_full(#[trigger] faces[i], key)
}

pub open spec fn any_postscript(faces: Seq<FaceView>, key: Seq<char>) -> bool {
    exists|i: int| 0 <= i < faces.len() && in_postscript(#[trigger] faces[i], key)
}

/// A full name locates faces when no family has that name, or when it is not a
/// generic family and every face of that family carries the full name.
pub open spec fn full_specific(faces: Seq<FaceView>, key: Seq<char>) -> bool {
    any_full(faces, key) && (!any_family(faces, key) || (!is_generic(faces, key) && forall|i: int|
        0 <= i < faces.len() && in_families(#[trigger] faces[i], key) ==> in_full(faces[i], key)))
}

/// All faces of the family share one weight and italic state.
pub open spec fn uniform_family(faces: Seq<FaceView>, key: Seq<char>) -> bool {
    forall|i: int, j: int|
        0 <= i < faces.len() && 0 <= j < faces.len() && in_families(#[trigger] faces[i], key)
            && in_families(#[trigger] faces[j], key) ==> faces[i].weight == faces[j].weight
            && faces[i].italic == faces[j].italic
}

/// How a normalized name selects faces, before weight and italic policy.
pub open spec fn method_of(faces: Seq<FaceView>, key: Seq<char>) -> SelectionMethod {
    if any_postscript(faces, key) {
        SelectionMethod::PostScriptName
    } else if full_specific(faces, key) {
        SelectionMethod::FullName
    } else if any_family(faces, key) && !is_generic(faces, key) && uniform_family(faces, key) {
        SelectionMethod::LegacyFamilyName
    } else if any_family(faces, key) {
        SelectionMethod::FamilyExact
    } else {
        SelectionMethod::InternalName
    }
}

pub open spec fn selected_by(m: SelectionMethod, f: FaceView, key: Seq<char>) -> bool {
    match m {
        SelectionMethod::PostScriptName => in_postscript(f, key),
        SelectionMethod::FullName => in_full(f, key),
        SelectionMethod::LegacyFamilyName => in_families(f, key),
        SelectionMethod::FamilyExact => in_families(f, key),
        _ => in_names(f, key),
    }
}

pub open spec fn dist(a: u16, b: u16) -> nat {
    if a >= b {
        (a - b) as nat
    } else {
        (b - a) as nat
    }
}

/// Smallest weight distance from `w` in a non-empty sequence.
pub open spec fn min_dist(s: Seq<FaceView>, w: u16) -> nat
    decreases s.len(),
{
    if s.len() <= 1 {
        if s.len() == 0 {
            0
        } else {
            dist(s[0].weight, w)
        }
    } else {
        let m = min_dist(s.drop_last(), w);
        let d = dist(s.last().weight, w);
        if d < m {
            d
        } else {
            m
        }
    }
}

/// Synthetic bold covers only a 700 request served by a 400 face.
pub open spec fn needs_bold(r: RefView, f: FaceView) -> bool {
    r.weight == 700 && f.weight == 400
}

pub open spec fn p_initial(m: SelectionMethod, key: Seq<char>, r: RefView) -> spec_fn(FaceView) -> bool {
    |f: FaceView|
        selected_by(m, f, key) && (m != SelectionMethod::FamilyExact || (f.weight == r.weight
            && f.italic == r.italic))
}

pub open spec fn p_same_slant(key: Seq<char>, r: RefView) -> spec_fn(FaceView) -> bool {
    |f: FaceView| in_families(f, key) && f.italic == r.italic
}

pub open spec fn p_same_slant_at(key: Seq<char>, r: RefView, d: nat) -> spec_fn(FaceView) -> bool {
    |f: FaceView| in_families(f, key) && f.italic == r.italic && dist(f.weight, r.weight) == d
}

pub open spec fn p_same_slant_bold(key: Seq<char>, r: RefView) -> spec_fn(FaceView) -> bool {
    |f: FaceView| in_families(f, key) && f.italic == r.italic && needs_bold(r, f)
}

pub open spec fn p_upright(key: Seq<char>) -> spec_fn(FaceView) -> bool {
    |f: FaceView| in_families(f, key) && !f.italic
}

pub open spec fn p_upright_exact(key: Seq<char>, r: RefView) -> spec_fn(FaceView) -> bool {
    |f: FaceView| in_families(f, key) && !f.italic && f.weight == r.weight
}

pub open spec fn p_upright_at(key: Seq<char>, r: RefView, d: nat) -> spec_fn(FaceView) -> bool {
    |f: FaceView| in_families(f, key) && !f.italic && dist(f.weight, r.weight) == d
}

pub open spec fn p_upright_bold(key: Seq<char>, r: RefView) -> spec_fn(FaceView) -> bool {
    |f: FaceView| in_families(f, key) && !f.italic && needs_bold(r, f)
}

pub open spec fn p_family(key: Seq<char>) -> spec_fn(FaceView) -> bool {
    |f: FaceView| in_families(f, key)
}

/// Candidates in index order and the method that selected them.
///
/// Specific names (PostScript, full, legacy variant, untyped alias) keep their faces.
/// A generic family takes the faces with the exact weight and italic state; failing
/// that, the nearest weights of the same slant (when permitted), then 400 faces of the
/// same slant for a 700 request (bold synthesis), then, for an italic request with
/// italic synthesis, upright faces of the exact weight, the nearest weight, or 400 for
/// 700.
pub open spec fn choose_faces(faces: Seq<FaceView>, r: RefView, o: ResolveOptions) -> (
    Seq<FaceView>,
    SelectionMethod,
) {
    let key = normalize(r.name);
    let m0 = method_of(faces, key);
    let fam = m0 == SelectionMethod::FamilyExact;
    let nearest = o.weight_matching == WeightMatching::Nearest;
    let c0 = keep(faces, p_initial(m0, key, r));
    let eligible = keep(faces, p_same_slant(key, r));
    let (c1, m1) = if c0.len() == 0 && fam && nearest && eligible.len() > 0 {
        (
            keep(faces, p_same_slant_at(key, r, min_dist(eligible, r.weight))),
            SelectionMethod::FamilyNearest,
        )
    } else {
        (c0, m0)
    };
    let bold = keep(faces, p_same_slant_bold(key, r));
    let (c2, m2) = if c1.len() == 0 && fam && o.synthesis.bold {
        (
            bold,
            if bold.len() > 0 {
                SelectionMethod::FamilySynthesis
            } else {
                m1
            },
        )
    } else {
        (c1, m1)
    };
    let upright = keep(faces, p_upright(key));
    let up_exact = keep(faces, p_upright_exact(key, r));
    let up_bold = keep(faces, p_upright_bold(key, r));
    if c2.len() == 0 && fam && o.synthesis.italic && r.italic {
        if up_exact.len() > 0 {
            (up_exact, SelectionMethod::FamilySynthesis)
        } else if nearest {
            if upright.len() > 0 {
                (
                    keep(faces, p_upright_at(key, r, min_dist(upright, r.weight))),
                    SelectionMethod::FamilyNearest,
                )
            } else {
                (up_exact, m2)
            }
        } else if o.synthesis.bold {
            (
                up_bold,
                if up_bold.len() > 0 {
                    SelectionMethod::FamilySynthesis
                } else {
                    m2
                },
            )
        } else {
            (up_exact, m2)
        }
    } else {
        (c2, m2)
    }
}

/// Name records of a candidate that support the selection method.
pub open spec fn kind_supports(m: SelectionMethod, rec: NameView) -> bool {
    match m {
        SelectionMethod::PostScriptName => rec.kind == NameKind::PostScriptName,
        SelectionMethod::FullName => rec.kind == NameKind::FullName,
        SelectionMethod::LegacyFamilyName => rec.kind == NameKind::Family && rec.name_id == Some(
            1u16,
        ),
        SelectionMethod::InternalName => true,
        _ => rec.kind == NameKind::Family,
    }
}

pub open spec fn p_matched(m: SelectionMethod, key: Seq<char>) -> spec_fn(NameView) -> bool {
    |rec: NameView| normalize(rec.name) == key && kind_supports(m, rec)
}

pub open spec fn synthetic_bold(r: RefView, f: FaceView, o: ResolveOptions) -> bool {
    o.synthesis.bold && needs_bold(r, f) && (f.italic == r.italic || (o.synthesis.italic
        && r.italic && !f.italic))
}

pub open spec fn synthetic_italic(r: RefView, f: FaceView, o: ResolveOptions) -> bool {
    o.synthesis.italic && r.italic && !f.italic
}

pub open spec fn evidence(f: FaceView, key: Seq<char>, m: SelectionMethod, r: RefView, o: ResolveOptions) -> EvidenceView {
    EvidenceView {
        path: f.path,
        face_index: f.face_index,
        matched_names: keep(f.records, p_matched(m, key)),
        synthetic_bold: synthetic_bold(r, f, o),
        synthetic_italic: synthetic_italic(r, f, o),
        selection_method: m,
    }
}

/// The resolution of one request against the index faces.
pub open spec fn resolution(faces: Seq<FaceView>, r: RefView, o: ResolveOptions) -> ResolutionView {
    let key = normalize(r.name);
    let chosen = choose_faces(faces, r, o);
    let c = chosen.0;
    let m = chosen.1;
    ResolutionView {
        reference: r,
        candidates: c,
        missing_reason: if c.len() == 0 {
            Some(
                if any_family(faces, key) {
                    MissingReason::StyleNotFound
                } else {
                    MissingReason::NameNotFound
                },
            )
        } else {
            None
        },
        available_variants: if c.len() == 0 && any_family(faces, key) {
            keep(faces, p_family(key))
        } else {
            seq![]
        },
        matches: c.map_values(|f: FaceView| evidence(f, key, m, r, o)),
    }
}

pub open spec fn p_resolved() -> spec_fn(ResolutionView) -> bool {
    |x: ResolutionView| x.candidates.len() == 1
}

pub open spec fn p_missing() -> spec_fn(ResolutionView) -> bool {
    |x: ResolutionView| x.candidates.len() == 0
}

pub open spec fn p_ambiguous() -> spec_fn(ResolutionView) -> bool {
    |x: ResolutionView| x.candidates.len() >= 2
}

pub open spec fn resolve_all(faces: Seq<FaceView>, refs: Seq<RefView>, o: ResolveOptions) -> Seq<
    ResolutionView,
> {
    refs.map_values(|r: RefView| resolution(faces, r, o))
}

/// Which of the per-face matches hold for a key.
pub struct Flags {
    pub postscript: bool,
    pub full: bool,
    pub family: bool,
    pub names: bool,
    pub generic: bool,
}

pub open spec fn flags_match(fl: Flags, f: FaceView, key: Seq<char>) -> bool {
    &&& fl.postscript == in_postscript(f, key)
    &&& fl.full == in_full(f, key)
    &&& fl.family == in_families(f, key)
    &&& fl.names == in_names(f, key)
    &&& fl.generic == generic_in(f, key)
}

fn key_among(keys: &Vec<Vec<char>>, key: &Vec<char>, Ghost(names): Ghost<Seq<Seq<char>>>) -> (r:
    bool)
    requires
        views(keys@) == normalize_each(names),
    ensures
        r == key_in(names, key@),
{
    if key.len() == 0 {
        return false;
    }
    let mut j: usize = 0;
    assert(views(keys@).len() == names.len());
    while j < keys.len()
        invariant
            j <= keys.len(),
            keys@.len() == names.len(),
            key@.len() > 0,
            views(keys@) == normalize_each(names),
            forall|i: int| 0 <= i < j ==> normalize(#[trigger] names[i]) != key@,
        decreases keys.len() - j,
    {
        assert(views(keys@)[j as int] == normalize(names[j as int]));
        if chars_eq(&keys[j], key) {
            assert(views(keys@)[j as int] == keys@[j as int]@);
            assert(normalize(names[j as int]) == key@);
            return true;
        }
        j = j + 1;
    }
    false
}

fn record_among(
    f: &FontFace,
    k: &FaceKeys,
    key: &Vec<char>,
    kind: NameKind,
) -> (r: bool)
    requires
        keys_match(f@, *k),
    ensures
        r == record_with(f@, key@, kind),
{
    if key.len() == 0 {
        return false;
    }
    let ghost rn = f@.records.map_values(|r: NameView| record_name(r));
    let mut j: usize = 0;
    assert(views(k.record_keys@).len() == rn.len());
    while j < f.name_records.len()
        invariant
            j <= f.name_records.len(),
            k.record_keys@.len() == f.name_records@.len(),
            key@.len() > 0,
            keys_match(f@, *k),
            rn == f@.records.map_values(|r: NameView| record_name(r)),
            forall|i: int|
                0 <= i < j ==> !((#[trigger] f@.records[i]).kind == kind && normalize(
                    f@.records[i].name,
                ) == key@),
        decreases f.name_records.len() - j,
    {
        assert(views(k.record_keys@)[j as int] == normalize(rn[j as int]));
        if f.name_records[j].kind == kind && chars_eq(&k.record_keys[j], key) {
            assert(views(k.record_keys@)[j as int] == k.record_keys@[j as int]@);
            assert(rn[j as int] == f@.records[j as int].name);
            assert(f@.records[j as int].kind == kind);
            return true;
        }
        j = j + 1;
    }
    false
}

fn generic_among(f: &FontFace, k: &FaceKeys, key: &Vec<char>) -> (r: bool)
    requires
        keys_match(f@, *k),
    ensures
        r == generic_in(f@, key@),
{
    let mut typographic = false;
    let mut j: usize = 0;
    while j < f.name_records.len()
        invariant
            j <= f.name_records.len(),
            typographic == exists|i: int|
                0 <= i < j && (#[trigger] f@.records[i]).name_id == Some(16u16),
        decreases f.name_records.len() - j,
    {
        if f.name_records[j].name_id == Some(16u16) {
            assert(f@.records[j as int].name_id == Some(16u16));
            typographic = true;
        }
        j = j + 1;
    }
    assert(typographic == has_typographic(f@));
    if key.len() == 0 {
        return false;
    }
    let ghost rn = f@.records.map_values(|r: NameView| record_name(r));
    let mut j: usize = 0;
    assert(views(k.record_keys@).len() == rn.len());
    while j < f.name_records.len()
        invariant
            j <= f.name_records.len(),
            k.record_keys@.len() == f.name_records@.len(),
            key@.len() > 0,
            keys_match(f@, *k),
            typographic == has_typographic(f@),
            rn == f@.records.map_values(|r: NameView| record_name(r)),
            forall|i: int|
                0 <= i < j ==> !((#[trigger] f@.records[i]).kind == NameKind::Family && (
                f@.records[i].name_id == Some(16u16) || f@.records[i].name_id == Some(21u16)
                    || !has_typographic(f@)) && normalize(f@.records[i].name) == key@),
        decreases f.name_records.len() - j,
    {
        assert(views(k.record_keys@)[j as int] == normalize(rn[j as int]));
        let rec = &f.name_records[j];
        if rec.kind == NameKind::Family && (rec.name_id == Some(16u16) || rec.name_id == Some(
            21u16,
        ) || !typographic) && chars_eq(&k.record_keys[j], key) {
            assert(views(k.record_keys@)[j as int] == k.record_keys@[j as int]@);
            assert(rn[j as int] == f@.records[j as int].name);
            assert(f@.records[j as int].kind == NameKind::Family);
            return true;
        }
        j = j + 1;
    }
    false
}

fn flags_of(f: &FontFace, k: &FaceKeys, key: &Vec<char>) -> (r: Flags)
    requires
        keys_match(f@, *k),
    ensures
        flags_match(r, f@, key@),
{
    Flags {
        postscript: record_among(f, k, key, NameKind::PostScriptName),
        full: record_among(f, k, key, NameKind::FullName),
        family: key_among(&k.family_keys, key, Ghost(f@.family_names)),
        names: key_among(&k.name_keys, key, Ghost(f@.names)),
        generic: generic_among(f, k, key),
    }
}

/// Candidate tiers of the selection, each a predicate on faces.
pub enum Tier {
    Initial(SelectionMethod),
    SameSlant,
    SameSlantAt(u16),
    SameSlantBold,
    Upright,
    UprightExact,
    UprightAt(u16),
    UprightBold,
    Family,
}

pub open spec fn tier_pred(t: Tier, key: Seq<char>, r: RefView) -> spec_fn(FaceView) -> bool {
    match t {
        Tier::Initial(m) => p_initial(m, key, r),
        Tier::SameSlant => p_same_slant(key, r),
        Tier::SameSlantAt(d) => p_same_slant_at(key, r, d as nat),
        Tier::SameSlantBold => p_same_slant_bold(key, r),
        Tier::Upright => p_upright(key),
        Tier::UprightExact => p_upright_exact(key, r),
        Tier::UprightAt(d) => p_upright_at(key, r, d as nat),
        Tier::UprightBold => p_upright_bold(key, r),
        Tier::Family => p_family(key),
    }
}

pub fn dist_of(a: u16, b: u16) -> (r: u16)
    ensures
        r as nat == dist(a, b),
{
    if a >= b {
        a - b
    } else {
        b - a
    }
}

fn in_tier(f: &FontFace, fl: &Flags, key: &Vec<char>, r: &FontReference, t: &Tier) -> (b: bool)
    requires
        flags_match(*fl, f@, key@),
    ensures
        b == (tier_pred(*t, key@, r@))(f@),
{
    match t {
        Tier::Initial(m) => {
            let sel = match m {
                SelectionMethod::PostScriptName => fl.postscript,
                SelectionMethod::FullName => fl.full,
                SelectionMethod::LegacyFamilyName => fl.family,
                SelectionMethod::FamilyExact => fl.family,
                _ => fl.names,
            };
            let fam = match m {
                SelectionMethod::FamilyExact => true,
                _ => false,
            };
            sel && (!fam || (f.weight == r.weight && f.italic == r.italic))
        },
        Tier::SameSlant => fl.family && f.italic == r.italic,
        Tier::SameSlantAt(d) => fl.family && f.italic == r.italic && dist_of(f.weight, r.weight)
            == *d,
        Tier::SameSlantBold => fl.family && f.italic == r.italic && r.weight == 700 && f.weight
            == 400,
        Tier::Upright => fl.family && !f.italic,
        Tier::UprightExact => fl.family && !f.italic && f.weight == r.weight,
        Tier::UprightAt(d) => fl.family && !f.italic && dist_of(f.weight, r.weight) == *d,
        Tier::UprightBold => fl.family && !f.italic && r.weight == 700 && f.weight == 400,
        Tier::Family => fl.family,
    }
}

/// Copies of the faces of a tier, in index order.
fn select(
    faces: &Vec<FontFace>,
    flags: &Vec<Flags>,
    key: &Vec<char>,
    r: &FontReference,
    t: Tier,
) -> (out: (Vec<FontFace>, Vec<usize>))
    requires
        flags@.len() == faces@.len(),
        forall|i: int| 0 <= i < faces@.len() ==> flags_match(#[trigger] flags@[i], faces@[i]@, key@),
    ensures
        face_views(out.0@) == keep(face_views(faces@), tier_pred(t, key@, r@)),
        out.1@.len() == out.0@.len(),
        forall|j: int| 0 <= j < out.1@.len() ==> #[trigger] out.1@[j] < faces@.len() && faces@[out.1@[j] as int]@ == out.0@[j]@,
{
    let ghost fs = face_views(faces@);
    let ghost p = tier_pred(t, key@, r@);
    let mut out: Vec<FontFace> = Vec::new();
    let mut ids: Vec<usize> = Vec::new();
    let mut i: usize = 0;
    assert(fs.take(0) =~= Seq::<FaceView>::empty());
    assert(face_views(out@) =~= keep(fs.take(0), p));
    while i < faces.len()
        invariant
            i <= faces.len(),
            fs == face_views(faces@),
            p == tier_pred(t, key@, r@),
            flags@.len() == faces@.len(),
            forall|k: int| 0 <= k < faces@.len() ==> flags_match(#[trigger] flags@[k], faces@[k]@, key@),
            face_views(out@) == keep(fs.take(i as int), p),
            ids@.len() == out@.len(),
            forall|j: int| 0 <= j < ids@.len() ==> #[trigger] ids@[j] < faces@.len() && faces@[ids@[j] as int]@ == out@[j]@,
        decreases faces.len() - i,
    {
        let ghost t1 = fs.take(i + 1);
        assert(t1.drop_last() =~= fs.take(i as int));
        assert(t1.last() == faces@[i as int]@);
        if in_tier(&faces[i], &flags[i], key, r, &t) {
            let ghost before = face_views(out@);
            out.push(copy_face(&faces[i]));
            ids.push(i);
            assert(face_views(out@) =~= before.push(faces@[i as int]@));
        }
        i = i + 1;
    }
    assert(fs.take(i as int) =~= fs);
    (out, ids)
}

fn min_dist_of(v: &Vec<FontFace>, w: u16) -> (r: u16)
    requires
        v@.len() > 0,
    ensures
        r as nat == min_dist(face_views(v@), w),
{
    let ghost s = face_views(v@);
    let mut m = dist_of(v[0].weight, w);
    let mut i: usize = 1;
    assert(s.take(1).len() == 1);
    while i < v.len()
        invariant
            1 <= i <= v.len(),
            s == face_views(v@),
            m as nat == min_dist(s.take(i as int), w),
        decreases v.len() - i,
    {
        let d = dist_of(v[i].weight, w);
        assert(s.take(i + 1).drop_last() =~= s.take(i as int));
        assert(s.take(i + 1).last() == v@[i as int]@);
        if d < m {
            m = d;
        }
        i = i + 1;
    }
    assert(s.take(i as int) =~= s);
    m
}

fn evidence_for(
    f: &FontFace,
    k: &FaceKeys,
    key: &Vec<char>,
    m: SelectionMethod,
    r: &FontReference,
    o: ResolveOptions,
) -> (e: MatchEvidence)
    requires
        keys_match(f@, *k),
    ensures
        e@ == evidence(f@, key@, m, r@, o),
{
    let ghost rn = f@.records.map_values(|x: NameView| record_name(x));
    let ghost p = p_matched(m, key@);
    let mut names: Vec<FontName> = Vec::new();
    let mut j: usize = 0;
    assert(views(k.record_keys@).len() == rn.len());
    assert(f@.records.take(0) =~= Seq::<NameView>::empty());
    while j < f.name_records.len()
        invariant
            j <= f.name_records.len(),
            k.record_keys@.len() == f.name_records@.len(),
            keys_match(f@, *k),
            rn == f@.records.map_values(|x: NameView| record_name(x)),
            p == p_matched(m, key@),
            name_views(names@) == keep(f@.records.take(j as int), p),
        decreases f.name_records.len() - j,
    {
        assert(views(k.record_keys@)[j as int] == k.record_keys@[j as int]@);
        assert(rn[j as int] == f@.records[j as int].name);
        let ghost t = f@.records.take(j + 1);
        assert(t.drop_last() =~= f@.records.take(j as int));
        assert(t.last() == f@.records[j as int]);
        let rec = &f.name_records[j];
        let supports = match m {
            SelectionMethod::PostScriptName => rec.kind == NameKind::PostScriptName,
            SelectionMethod::FullName => rec.kind == NameKind::FullName,
            SelectionMethod::LegacyFamilyName => rec.kind == NameKind::Family && rec.name_id == Some(
                1u16,
            ),
            SelectionMethod::InternalName => true,
            _ => rec.kind == NameKind::Family,
        };
        if supports && chars_eq(&k.record_keys[j], key) {
            let ghost before = name_views(names@);
            names.push(copy_name(rec));
            assert(name_views(names@) =~= before.push(rec@));
        }
        j = j + 1;
    }
    assert(f@.records.take(j as int) =~= f@.records);
    let needs_bold = r.weight == 700 && f.weight == 400;
    MatchEvidence {
        path: f.path.clone(),
        face_index: f.face_index,
        matched_names: names,
        synthetic_bold: o.synthesis.bold && needs_bold && (f.italic == r.italic || (
        o.synthesis.italic && r.italic && !f.italic)),
        synthetic_italic: o.synthesis.italic && r.italic && !f.italic,
        selection_method: m,
    }
}

/// Resolution of one request against the given faces and keys.
pub fn resolve_one(
    faces: &Vec<FontFace>,
    keys: &Vec<FaceKeys>,
    reference: &FontReference,
    o: ResolveOptions,
) -> (res: Resolution)
    requires
        keys@.len() == faces@.len(),
        forall|i: int| 0 <= i < faces@.len() ==> keys_match(faces@[i]@, #[trigger] keys@[i]),
    ensures
        res@ == resolution(face_views(faces@), reference@, o),
{
    let ghost fs = face_views(faces@);
    let ghost r = reference@;
    let name = chars_of(reference.name.as_str());
    let key = normalize_chars(&name);
    let ghost kv = key@;
    assert(kv == normalize(r.name));
    let mut flags: Vec<Flags> = Vec::new();
    let mut any_ps = false;
    let mut any_full = false;
    let mut any_fam = false;
    let mut generic = false;
    let mut fam_in_full = true;
    let mut first: Option<(u16, bool)> = None;
    let ghost mut g0: int = 0;
    let mut uniform = true;
    let mut i: usize = 0;
    while i < faces.len()
        invariant
            i <= faces.len(),
            fs == face_views(faces@),
            kv == key@,
            keys@.len() == faces@.len(),
            forall|k: int| 0 <= k < faces@.len() ==> keys_match(faces@[k]@, #[trigger] keys@[k]),
            flags@.len() == i,
            forall|k: int| 0 <= k < i ==> flags_match(#[trigger] flags@[k], faces@[k]@, kv),
            any_ps == exists|k: int| 0 <= k < i && in_postscript(#[trigger] fs[k], kv),
            any_full == exists|k: int| 0 <= k < i && in_full(#[trigger] fs[k], kv),
            any_fam == exists|k: int| 0 <= k < i && in_families(#[trigger] fs[k], kv),
            generic == exists|k: int| 0 <= k < i && generic_in(#[trigger] fs[k], kv),
            fam_in_full == forall|k: int|
                0 <= k < i && in_families(#[trigger] fs[k], kv) ==> in_full(fs[k], kv),
            first is Some <==> any_fam,
            first is None ==> uniform,
            first is Some ==> 0 <= g0 < i && in_families(fs[g0], kv) && first->0 == (
                fs[g0].weight,
                fs[g0].italic,
            ),
            first is Some ==> (uniform == forall|k: int|
                0 <= k < i && in_families(#[trigger] fs[k], kv) ==> fs[k].weight == fs[g0].weight
                    && fs[k].italic == fs[g0].italic),
        decreases faces.len() - i,
    {
        let fl = flags_of(&faces[i], &keys[i], &key);
        assert(fs[i as int] == faces@[i as int]@);
        if fl.postscript {
            any_ps = true;
        }
        if fl.full {
            any_full = true;
        }
        if fl.generic {
            generic = true;
        }
        if fl.family {
            any_fam = true;
            if !fl.full {
                fam_in_full = false;
            }
            match first {
                None => {
                    first = Some((faces[i].weight, faces[i].italic));
                    proof {
                        g0 = i as int;
                    }
                },
                Some((w, it)) => {
                    if faces[i].weight != w || faces[i].italic != it {
                        uniform = false;
                    }
                },
            }
        }
        flags.push(fl);
        i = i + 1;
    }
    proof {
        assert(any_ps == any_postscript(fs, kv));
        assert(any_full == crate::resolve::any_full(fs, kv));
        assert(any_fam == any_family(fs, kv));
        assert(generic == is_generic(fs, kv));
        if any_fam {
            if uniform {
                assert(uniform_family(fs, kv));
            } else {
                let k = choose|k: int|
                    0 <= k < i && in_families(#[trigger] fs[k], kv) && !(fs[k].weight
                        == fs[g0].weight && fs[k].italic == fs[g0].italic);
                assert(!uniform_family(fs, kv));
            }
        }
    }
    let full_ok = any_full && (!any_fam || (!generic && fam_in_full));
    assert(full_ok == full_specific(fs, kv));
    let m0 = if any_ps {
        SelectionMethod::PostScriptName
    } else if full_ok {
        SelectionMethod::FullName
    } else if any_fam && !generic && uniform {
        SelectionMethod::LegacyFamilyName
    } else if any_fam {
        SelectionMethod::FamilyExact
    } else {
        SelectionMethod::InternalName
    };
    assert(m0 == method_of(fs, kv));
    let fam = match m0 {
        SelectionMethod::FamilyExact => true,
        _ => false,
    };
    let nearest = match o.weight_matching {
        WeightMatching::Nearest => true,
        _ => false,
    };
    let (c0, ids0) = select(faces, &flags, &key, reference, Tier::Initial(m0));
    let mut cands = c0;
    let mut ids = ids0;
    let mut m = m0;
    let ghost eligible = keep(fs, p_same_slant(kv, r));
    if cands.len() == 0 && fam && nearest {
        let (elig, _) = select(faces, &flags, &key, reference, Tier::SameSlant);
        if elig.len() > 0 {
            let d = min_dist_of(&elig, reference.weight);
            let (c, ci) = select(faces, &flags, &key, reference, Tier::SameSlantAt(d));
            cands = c;
            ids = ci;
            m = SelectionMethod::FamilyNearest;
        }
    }
    let ghost c1 = face_views(cands@);
    let ghost m1 = m;
    if cands.len() == 0 && fam && o.synthesis.bold {
        let (c, ci) = select(faces, &flags, &key, reference, Tier::SameSlantBold);
        if c.len() > 0 {
            m = SelectionMethod::FamilySynthesis;
        }
        cands = c;
        ids = ci;
    }
    let ghost c2 = face_views(cands@);
    let ghost m2 = m;
    if cands.len() == 0 && fam && o.synthesis.italic && reference.italic {
        let (ue, uei) = select(faces, &flags, &key, reference, Tier::UprightExact);
        if ue.len() > 0 {
            cands = ue;
            ids = uei;
            m = SelectionMethod::FamilySynthesis;
        } else if nearest {
            let (up, _) = select(faces, &flags, &key, reference, Tier::Upright);
            if up.len() > 0 {
                let d = min_dist_of(&up, reference.weight);
                let (c, ci) = select(faces, &flags, &key, reference, Tier::UprightAt(d));
                cands = c;
                ids = ci;
                m = SelectionMethod::FamilyNearest;
            } else {
                cands = ue;
                ids = uei;
            }
        } else if o.synthesis.bold {
            let (c, ci) = select(faces, &flags, &key, reference, Tier::UprightBold);
            if c.len() > 0 {
                m = SelectionMethod::FamilySynthesis;
            }
            cands = c;
            ids = ci;
        } else {
            cands = ue;
            ids = uei;
        }
    }
    assert(choose_faces(fs, r, o) == (face_views(cands@), m));
    let missing_reason = if cands.len() == 0 {
        Some(
            if any_fam {
                MissingReason::StyleNotFound
            } else {
                MissingReason::NameNotFound
            },
        )
    } else {
        None
    };
    let available_variants = if cands.len() == 0 && any_fam {
        let (v, _) = select(faces, &flags, &key, reference, Tier::Family);
        v
    } else {
        Vec::new()
    };
    let mut matches: Vec<MatchEvidence> = Vec::new();
    let mut j: usize = 0;
    while j < cands.len()
        invariant
            j <= cands.len(),
            ids@.len() == cands@.len(),
            forall|t: int| 0 <= t < ids@.len() ==> #[trigger] ids@[t] < faces@.len() && faces@[ids@[t] as int]@ == cands@[t]@,
            keys@.len() == faces@.len(),
            forall|k: int| 0 <= k < faces@.len() ==> keys_match(faces@[k]@, #[trigger] keys@[k]),
            kv == key@,
            r == reference@,
            evidence_views(matches@) == face_views(cands@).take(j as int).map_values(
                |f: FaceView| evidence(f, kv, m, r, o),
            ),
        decreases cands.len() - j,
    {
        let id = ids[j];
        let e = evidence_for(&faces[id], &keys[id], &key, m, reference, o);
        let ghost before = evidence_views(matches@);
        matches.push(e);
        proof {
            assert(evidence_views(matches@) =~= before.push(e@));
            let ev = |f: FaceView| evidence(f, kv, m, r, o);
            assert(face_views(cands@).take(j + 1) =~= face_views(cands@).take(j as int).push(
                cands@[j as int]@,
            ));
            assert(face_views(cands@).take(j + 1).map_values(ev) =~= before.push(ev(cands@[j as int]@)));
        }
        j = j + 1;
    }
    assert(face_views(cands@).take(j as int) =~= face_views(cands@));
    let res = Resolution {
        reference: copy_reference(reference),
        candidates: cands,
        missing_reason,
        available_variants,
        matches,
    };
    let ghost want = resolution(fs, r, o);
    assert(res@.reference == want.reference);
    assert(res@.candidates == want.candidates);
    assert(res@.missing_reason == want.missing_reason);
    assert(res@.available_variants == want.available_variants);
    assert(res@.matches == want.matches);
    res
}

pub open spec fn ref_views_of(v: Seq<FontReference>) -> Seq<RefView> {
    v.map_values(|r: FontReference| r@)
}

impl FontIndex {
    /// PostScript names have priority. Full names override legacy family aliases only
    /// when name-table relationships distinguish them from generic families. With
    /// insufficient metadata, family interpretation is retained. Within each slant tier,
    /// nearest weight selection precedes bold fallback.
    ///
    /// Each request is resolved independently (`resolution`); the report keeps input
    /// order in each bucket: one candidate, none, or two or more.
    pub fn resolve_with_options(&self, references: &[FontReference], options: ResolveOptions) -> (r:
        ResolveReport)
        ensures
            resolution_views(r.resolved@) == keep(
                resolve_all(self@, ref_views_of(references@), options),
                p_resolved(),
            ),
            resolution_views(r.missing@) == keep(
                resolve_all(self@, ref_views_of(references@), options),
                p_missing(),
            ),
            resolution_views(r.ambiguous@) == keep(
                resolve_all(self@, ref_views_of(references@), options),
                p_ambiguous(),
            ),
    {
        let (faces, keys) = self.parts();
        let ghost fs = self@;
        let ghost all = resolve_all(fs, ref_views_of(references@), options);
        let mut report = ResolveReport::default();
        let mut i: usize = 0;
        assert(all.take(0) =~= Seq::<ResolutionView>::empty());
        assert(resolution_views(report.resolved@) =~= keep(all.take(0), p_resolved()));
        assert(resolution_views(report.missing@) =~= keep(all.take(0), p_missing()));
        assert(resolution_views(report.ambiguous@) =~= keep(all.take(0), p_ambiguous()));
        while i < references.len()
            invariant
                i <= references@.len(),
                face_views(faces@) == fs,
                keys@.len() == faces@.len(),
                forall|k: int| 0 <= k < faces@.len() ==> keys_match(faces@[k]@, #[trigger] keys@[k]),
                all == resolve_all(fs, ref_views_of(references@), options),
                all.len() == references@.len(),
                resolution_views(report.resolved@) == keep(all.take(i as int), p_resolved()),
                resolution_views(report.missing@) == keep(all.take(i as int), p_missing()),
                resolution_views(report.ambiguous@) == keep(all.take(i as int), p_ambiguous()),
            decreases references.len() - i,
        {
            let res = resolve_one(faces, keys, &references[i], options);
            let ghost rv = res@;
            proof {
                assert(all[i as int] == rv);
                assert(all.take(i + 1).drop_last() =~= all.take(i as int));
                assert(all.take(i + 1).last() == rv);
            }
            let n = res.candidates.len();
            let ghost r0 = resolution_views(report.resolved@);
            let ghost r1 = resolution_views(report.missing@);
            let ghost r2 = resolution_views(report.ambiguous@);
            if n == 0 {
                report.missing.push(res);
                assert(resolution_views(report.missing@) =~= r1.push(rv));
            } else if n == 1 {
                report.resolved.push(res);
                assert(resolution_views(report.resolved@) =~= r0.push(rv));
            } else {
                report.ambiguous.push(res);
                assert(resolution_views(report.ambiguous@) =~= r2.push(rv));
            }
            i = i + 1;
        }
        assert(all.take(i as int) =~= all);
        report
    }

    /// Resolve with a preset policy; equivalent to `resolve_with_options` with the
    /// preset's options (exact weights; both syntheses exactly when allowed).
    pub fn resolve_with_mode(&self, references: &[FontReference], mode: ResolveMode) -> (r:
        ResolveReport)
        ensures
            resolution_views(r.resolved@) == keep(
                resolve_all(self@, ref_views_of(references@), mode_options(mode)),
                p_resolved(),
            ),
            resolution_views(r.missing@) == keep(
                resolve_all(self@, ref_views_of(references@), mode_options(mode)),
                p_missing(),
            ),
            resolution_views(r.ambiguous@) == keep(
                resolve_all(self@, ref_views_of(references@), mode_options(mode)),
                p_ambiguous(),
            ),
    {
        let options = ResolveOptions::from(mode);
        self.resolve_with_options(references, options)
    }

    /// Resolve with exact family weight matching and no style synthesis.
    pub fn resolve(&self, references: &[FontReference]) -> (r: ResolveReport)
        ensures
            resolution_views(r.resolved@) == keep(
                resolve_all(self@, ref_views_of(references@), mode_options(ResolveMode::Strict)),
                p_resolved(),
            ),
            resolution_views(r.missing@) == keep(
                resolve_all(self@, ref_views_of(references@), mode_options(ResolveMode::Strict)),
                p_missing(),
            ),
            resolution_views(r.ambiguous@) == keep(
                resolve_all(self@, ref_views_of(references@), mode_options(ResolveMode::Strict)),
                p_ambiguous(),
            ),
    {
        self.resolve_with_mode(references, ResolveMode::Strict)
    }
}

} // verus!
