//! Font face metadata: faces, typed internal names, and their abstract views.
use vstd::prelude::*;

verus! {

/// Semantic role of an internal alias; related OpenType IDs share a role.
#[derive(Debug, Clone, Copy, PartialEq, Eq, PartialOrd, Ord, Structural)]
pub enum NameKind {
    /// Legacy, typographic, or WWS family (IDs 1, 16, 21).
    Family,
    /// Full or compatible full name (IDs 4, 18).
    FullName,
    /// PostScript name (ID 6).
    PostScriptName,
    /// Caller-supplied alias without known name-table provenance.
    InternalName,
}

/// Position of a kind in the declaration order of `NameKind`.
pub open spec fn kind_rank(k: NameKind) -> int {
    match k {
        NameKind::Family => 0,
        NameKind::FullName => 1,
        NameKind::PostScriptName => 2,
        NameKind::InternalName => 3,
    }
}

pub fn kind_rank_of(k: NameKind) -> (r: u8)
    ensures
        r as int == kind_rank(k),
{
    match k {
        NameKind::Family => 0,
        NameKind::FullName => 1,
        NameKind::PostScriptName => 2,
        NameKind::InternalName => 3,
    }
}

/// A decoded alias and its classification.
#[derive(Debug, Clone, PartialEq, Eq, PartialOrd, Ord)]
pub struct FontName {
    /// Decoded spelling, before matching normalization.
    pub name: String,
    /// Name role used for selection and evidence reporting.
    pub kind: NameKind,
    /// OpenType name ID; absent for caller-supplied aliases.
    pub name_id: Option<u16>,
}

pub struct NameView {
    pub name: Seq<char>,
    pub kind: NameKind,
    pub name_id: Option<u16>,
}

impl View for FontName {
    type V = NameView;

    open spec fn view(&self) -> NameView {
        NameView { name: self.name@, kind: self.kind, name_id: self.name_id }
    }
}

/// Owned metadata for one face in a font file or collection.
///
/// Identity is `(path, face_index)`, not the name or file contents.
#[derive(Debug, Clone, PartialEq, Eq)]
pub struct FontFace {
    /// File path of the font.
    pub path: String,
    /// Zero-based collection index; standalone TTF/OTF files use zero.
    pub face_index: u32,
    /// All decoded matching aliases.
    pub names: Vec<String>,
    /// Family aliases (name IDs 1/16/21), used for weight/italic filtering.
    pub family_names: Vec<String>,
    /// Typed internal names for reporting match provenance.
    pub name_records: Vec<FontName>,
    /// Native numeric weight (normally 1–1000).
    pub weight: u16,
    /// Includes fonts marked as oblique.
    pub italic: bool,
}

pub struct FaceView {
    pub path: Seq<char>,
    pub face_index: u32,
    pub names: Seq<Seq<char>>,
    pub family_names: Seq<Seq<char>>,
    pub records: Seq<NameView>,
    pub weight: u16,
    pub italic: bool,
}

pub open spec fn strings(v: Seq<String>) -> Seq<Seq<char>> {
    v.map_values(|s: String| s@)
}

pub open spec fn name_views(v: Seq<FontName>) -> Seq<NameView> {
    v.map_values(|n: FontName| n@)
}

impl View for FontFace {
    type V = FaceView;

    open spec fn view(&self) -> FaceView {
        FaceView {
            path: self.path@,
            face_index: self.face_index,
            names: strings(self.names@),
            family_names: strings(self.family_names@),
            records: name_views(self.name_records@),
            weight: self.weight,
            italic: self.italic,
        }
    }
}

pub open spec fn face_views(v: Seq<FontFace>) -> Seq<FaceView> {
    v.map_values(|f: FontFace| f@)
}

pub fn copy_strings(v: &Vec<String>) -> (r: Vec<String>)
    ensures
        strings(r@) == strings(v@),
{
    let mut r: Vec<String> = Vec::new();
    let mut i: usize = 0;
    while i < v.len()
        invariant
            i <= v.len(),
            strings(r@) == strings(v@).take(i as int),
        decreases v.len() - i,
    {
        let ghost prev = strings(r@);
        r.push(v[i].clone());
        assert(strings(r@) =~= prev.push(v@[i as int]@));
        i = i + 1;
        assert(strings(v@).take(i as int) =~= strings(v@).take(i - 1).push(v@[i - 1]@));
    }
    assert(strings(v@).take(i as int) =~= strings(v@));
    r
}

pub fn copy_name(n: &FontName) -> (r: FontName)
    ensures
        r@ == n@,
{
    FontName { name: n.name.clone(), kind: n.kind, name_id: n.name_id }
}

pub fn copy_names(v: &Vec<FontName>) -> (r: Vec<FontName>)
    ensures
        name_views(r@) == name_views(v@),
{
    let mut r: Vec<FontName> = Vec::new();
    let mut i: usize = 0;
    while i < v.len()
        invariant
            i <= v.len(),
            name_views(r@) == name_views(v@).take(i as int),
        decreases v.len() - i,
    {
        let ghost prev = name_views(r@);
        r.push(copy_name(&v[i]));
        assert(name_views(r@) =~= prev.push(v@[i as int]@));
        i = i + 1;
        assert(name_views(v@).take(i as int) =~= name_views(v@).take(i - 1).push(v@[i - 1]@));
    }
    assert(name_views(v@).take(i as int) =~= name_views(v@));
    r
}

pub fn copy_face(f: &FontFace) -> (r: FontFace)
    ensures
        r@ == f@,
{
    FontFace {
        path: f.path.clone(),
        face_index: f.face_index,
        names: copy_strings(&f.names),
        family_names: copy_strings(&f.family_names),
        name_records: copy_names(&f.name_records),
        weight: f.weight,
        italic: f.italic,
    }
}

} // verus!
