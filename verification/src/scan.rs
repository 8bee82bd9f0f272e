//! Font data scanning: every face of a font file or collection with the names it can be
//! requested by, its weight and slant, and the problems met on the way.
use crate::ass::message;
use crate::fonts::{FaceView, FontFace, FontName, NameKind, NameView, face_views, name_views, strings};
use crate::index::keep;
use crate::order::{records_sorted, sort_unique_records, sort_unique_strings, strictly_sorted};
use crate::text::{ascii_lower, chars_eq, chars_of, normalize, normalize_chars, to_ascii_lower};
use crate::ttf::{
    NameRecord, NameRecordView, be_u32, face_is_italic, face_is_oblique, face_name_count,
    face_name_record, face_parse_error, face_weight, fonts_in_collection, has_collection_tag,
    is_italic_face, is_oblique_face, name_at, name_count, opt_chars, parse_face,
    weight_of_face,
};
use crate::unicode::string_from_chars;
use vstd::prelude::*;

verus! {

/// A file or face parsing problem met while scanning.
#[derive(Debug, Clone)]
pub struct ScanIssue {
    /// Affected file or directory.
    pub path: String,
    /// Affected face, or `None` for a file or collection-level failure.
    pub face_index: Option<u32>,
    /// Human-readable error, not a stable machine-readable code.
    pub message: String,
}

pub struct IssueView {
    pub path: Seq<char>,
    pub face_index: Option<u32>,
    pub message: Seq<char>,
}

impl View for ScanIssue {
    type V = IssueView;

    open spec fn view(&self) -> IssueView {
        IssueView { path: self.path@, face_index: self.face_index, message: self.message@ }
    }
}

pub open spec fn issue_views(v: Seq<ScanIssue>) -> Seq<IssueView> {
    v.map_values(|i: ScanIssue| i@)
}

/// Parsed faces and non-fatal scan issues.
#[derive(Debug, Clone)]
pub struct ScanReport {
    /// Faces in scanning order.
    pub faces: Vec<FontFace>,
    /// Problems encountered; inspect even when matching reports no missing fonts.
    pub issues: Vec<ScanIssue>,
}

impl Default for ScanReport {
    fn default() -> (r: Self)
        ensures
            r.faces@.len() == 0,
            r.issues@.len() == 0,
    {
        ScanReport { faces: Vec::new(), issues: Vec::new() }
    }
}

/// Name IDs that make aliases: family (1), full (4), PostScript (6), typographic family
/// (16), compatible full (18) and WWS family (21).
pub open spec fn wanted_id(id: u16) -> bool {
    id == 1 || id == 4 || id == 6 || id == 16 || id == 18 || id == 21
}

/// Name IDs of family aliases.
pub open spec fn family_id(id: u16) -> bool {
    id == 1 || id == 16 || id == 21
}

pub open spec fn kind_of_id(id: u16) -> NameKind {
    if family_id(id) {
        NameKind::Family
    } else if id == 4 || id == 18 {
        NameKind::FullName
    } else {
        NameKind::PostScriptName
    }
}

pub open spec fn all_ascii(b: Seq<u8>) -> bool {
    forall|i: int| 0 <= i < b.len() ==> b[i] < 128
}

pub open spec fn ascii_text(b: Seq<u8>) -> Seq<char> {
    b.map_values(|x: u8| x as char)
}

/// The text of a name record: its Unicode text, or else the bytes of a Macintosh Roman
/// record that are all ASCII (legacy high bytes are not guessed at).
pub open spec fn decoded(r: NameRecordView) -> Option<Seq<char>> {
    match r.text {
        Some(t) => Some(t),
        None => if r.platform_id == 1 && r.encoding_id == 0 && all_ascii(r.bytes) {
            Some(ascii_text(r.bytes))
        } else {
            None
        },
    }
}

/// A record with a wanted ID whose text normalizes to something.
pub open spec fn usable(r: NameRecordView) -> bool {
    wanted_id(r.name_id) && decoded(r) is Some && normalize(decoded(r)->0).len() > 0
}

pub open spec fn typed_name(r: NameRecordView) -> NameView {
    NameView { name: decoded(r)->0, kind: kind_of_id(r.name_id), name_id: Some(r.name_id) }
}

/// The typed names of the usable records, in record order.
pub open spec fn usable_names(rs: Seq<NameRecordView>) -> Seq<NameView> {
    keep(rs, |r: NameRecordView| usable(r)).map_values(|r: NameRecordView| typed_name(r))
}

pub open spec fn name_texts(u: Seq<NameView>) -> Seq<Seq<char>> {
    u.map_values(|n: NameView| n.name)
}

pub open spec fn family_texts(u: Seq<NameView>) -> Seq<Seq<char>> {
    keep(u, |n: NameView| n.kind == NameKind::Family).map_values(|n: NameView| n.name)
}

/// `g` is the face at `index` of `path` with name records `rs`: its aliases, family
/// aliases and typed names are the sorted, duplicate-free texts of the usable records.
pub open spec fn scanned_face(
    g: FaceView,
    path: Seq<char>,
    index: u32,
    rs: Seq<NameRecordView>,
    weight: u16,
    italic: bool,
) -> bool {
    let u = usable_names(rs);
    &&& g.path == path
    &&& g.face_index == index
    &&& g.weight == weight
    &&& g.italic == italic
    &&& strictly_sorted(g.names)
    &&& forall|n: Seq<char>| g.names.contains(n) <==> name_texts(u).contains(n)
    &&& strictly_sorted(g.family_names)
    &&& forall|n: Seq<char>| g.family_names.contains(n) <==> family_texts(u).contains(n)
    &&& records_sorted(g.records)
    &&& forall|x: NameView| g.records.contains(x) <==> u.contains(x)
}

pub open spec fn record_views(v: Seq<NameRecord>) -> Seq<NameRecordView> {
    v.map_values(|r: NameRecord| r@)
}

/// A face's name records from `i` on: read in order up to the record count, stopping at
/// the first one that cannot be read.
pub open spec fn records_from(data: Seq<u8>, k: u32, i: int, n: u16) -> Seq<NameRecordView>
    decreases n - i,
{
    if i < 0 || i >= n {
        seq![]
    } else {
        match face_name_record(data, k, i as u16) {
            Some(r) => seq![r] + records_from(data, k, i + 1, n),
            None => seq![],
        }
    }
}

pub open spec fn face_records(data: Seq<u8>, k: u32) -> Seq<NameRecordView> {
    records_from(data, k, 0, face_name_count(data, k))
}

/// The italic state of a face: italic or oblique.
pub open spec fn face_slanted(data: Seq<u8>, k: u32) -> bool {
    face_is_italic(data, k) || face_is_oblique(data, k)
}

/// Number of faces: the count of a collection header, otherwise one.
pub open spec fn face_count(data: Seq<u8>) -> u32 {
    if data.len() >= 12 && has_collection_tag(data) {
        be_u32(data, 8)
    } else {
        1
    }
}

/// No face, or more faces than there is room for four-byte offsets after the header.
pub open spec fn count_invalid(data: Seq<u8>) -> bool {
    let c = face_count(data);
    c == 0 || (c > 1 && c > (if data.len() >= 12 {
        (data.len() - 12) as int
    } else {
        0
    }) / 4)
}

/// Indices below `k` of the faces that parse.
pub open spec fn parsed_indices(data: Seq<u8>, k: int) -> Seq<u32>
    decreases k,
{
    if k <= 0 {
        seq![]
    } else {
        let p = parsed_indices(data, k - 1);
        if face_parse_error(data, (k - 1) as u32) is None {
            p.push((k - 1) as u32)
        } else {
            p
        }
    }
}

/// Issues of the faces below `k`: a parse error, or a parsed face without usable names.
pub open spec fn face_issues(path: Seq<char>, data: Seq<u8>, k: int) -> Seq<IssueView>
    decreases k,
{
    if k <= 0 {
        seq![]
    } else {
        let is = face_issues(path, data, k - 1);
        let j = (k - 1) as u32;
        match face_parse_error(data, j) {
            Some(m) => is.push(IssueView { path, face_index: Some(j), message: m }),
            None => if usable_names(face_records(data, j)).len() == 0 {
                is.push(
                    IssueView {
                        path,
                        face_index: Some(j),
                        message: "no decodable matching names"@,
                    },
                )
            } else {
                is
            },
        }
    }
}

/// Issues of scanning `data` as the file `path`.
pub open spec fn data_issues(path: Seq<char>, data: Seq<u8>) -> Seq<IssueView> {
    if count_invalid(data) {
        seq![IssueView { path, face_index: None, message: "invalid collection face count"@ }]
    } else {
        face_issues(path, data, face_count(data) as int)
    }
}

/// Indices of the faces that scanning `data` yields.
pub open spec fn data_faces(data: Seq<u8>) -> Seq<u32> {
    if count_invalid(data) {
        seq![]
    } else {
        parsed_indices(data, face_count(data) as int)
    }
}

/// `fs` are the faces at the indices `idx` of `data` scanned as the file `path`.
pub open spec fn faces_at(path: Seq<char>, data: Seq<u8>, fs: Seq<FaceView>, idx: Seq<u32>) -> bool {
    &&& fs.len() == idx.len()
    &&& forall|j: int|
        0 <= j < idx.len() ==> scanned_face(
            #[trigger] fs[j],
            path,
            idx[j],
            face_records(data, idx[j]),
            face_weight(data, idx[j]),
            face_slanted(data, idx[j]),
        )
}

/// `fs` are the faces that scanning `data` as the file `path` yields, in index order.
pub open spec fn scanned_faces(path: Seq<char>, data: Seq<u8>, fs: Seq<FaceView>) -> bool {
    faces_at(path, data, fs, data_faces(data))
}

fn ascii_string(b: &Vec<u8>) -> (r: String)
    requires
        all_ascii(b@),
    ensures
        r@ == ascii_text(b@),
{
    let mut v: Vec<char> = Vec::new();
    let mut i: usize = 0;
    while i < b.len()
        invariant
            i <= b.len(),
            v@ == ascii_text(b@).take(i as int),
        decreases b.len() - i,
    {
        v.push(b[i] as char);
        i = i + 1;
        assert(v@ =~= ascii_text(b@).take(i as int));
    }
    assert(ascii_text(b@).take(i as int) =~= ascii_text(b@));
    string_from_chars(&v)
}

fn bytes_ascii(b: &Vec<u8>) -> (r: bool)
    ensures
        r == all_ascii(b@),
{
    let mut i: usize = 0;
    while i < b.len()
        invariant
            i <= b.len(),
            forall|j: int| 0 <= j < i ==> b@[j] < 128,
        decreases b.len() - i,
    {
        if b[i] >= 128 {
            return false;
        }
        i = i + 1;
    }
    true
}

/// The text of a name record (see `decoded`).
pub fn decoded_text(r: &NameRecord) -> (o: Option<String>)
    ensures
        opt_chars(o) == decoded(r@),
{
    match &r.text {
        Some(t) => Some(t.clone()),
        None => {
            if r.platform_id == 1 && r.encoding_id == 0 && bytes_ascii(&r.bytes) {
                Some(ascii_string(&r.bytes))
            } else {
                None
            }
        },
    }
}

fn wanted_id_of(id: u16) -> (r: bool)
    ensures
        r == wanted_id(id),
{
    id == 1 || id == 4 || id == 6 || id == 16 || id == 18 || id == 21
}

fn kind_of_id_exec(id: u16) -> (r: NameKind)
    ensures
        r == kind_of_id(id),
{
    if id == 1 || id == 16 || id == 21 {
        NameKind::Family
    } else if id == 4 || id == 18 {
        NameKind::FullName
    } else {
        NameKind::PostScriptName
    }
}

/// The face at `face_index` of `path` whose name table holds `records`, and whether it has
/// no usable name.
pub fn face_from_records(
    path: &str,
    face_index: u32,
    records: &Vec<NameRecord>,
    weight: u16,
    italic: bool,
) -> (r: (FontFace, bool))
    ensures
        scanned_face(r.0@, path@, face_index, record_views(records@), weight, italic),
        r.1 == (usable_names(record_views(records@)).len() == 0),
{
    let ghost rv = record_views(records@);
    let mut names: Vec<String> = Vec::new();
    let mut families: Vec<String> = Vec::new();
    let mut typed: Vec<FontName> = Vec::new();
    let mut i: usize = 0;
    while i < records.len()
        invariant
            i <= records.len(),
            rv == record_views(records@),
            name_views(typed@) == usable_names(rv.take(i as int)),
            strings(names@) == name_texts(usable_names(rv.take(i as int))),
            strings(families@) == family_texts(usable_names(rv.take(i as int))),
        decreases records.len() - i,
    {
        let r = &records[i];
        let ghost before = rv.take(i as int);
        let ghost u0 = usable_names(before);
        proof {
            assert(rv.take(i + 1).drop_last() =~= before);
            assert(rv.take(i + 1).last() == r@);
        }
        if wanted_id_of(r.name_id) {
            match decoded_text(r) {
                Some(text) => {
                    let tv = chars_of_string(&text);
                    let norm = normalize_chars(&tv);
                    if norm.len() > 0 {
                        let kind = kind_of_id_exec(r.name_id);
                        let ghost n = typed_name(r@);
                        proof {
                            assert(usable(r@));
                            assert(keep(rv.take(i + 1), |r: NameRecordView| usable(r)) =~= keep(
                                before,
                                |r: NameRecordView| usable(r),
                            ).push(r@));
                            assert(usable_names(rv.take(i + 1)) =~= u0.push(n));
                            assert(name_texts(u0.push(n)) =~= name_texts(u0).push(n.name));
                        }
                        proof {
                            assert(u0.push(n).drop_last() =~= u0);
                        }
                        if kind == NameKind::Family {
                            proof {
                                assert(keep(u0.push(n), |x: NameView| x.kind == NameKind::Family)
                                    =~= keep(u0, |x: NameView| x.kind == NameKind::Family).push(
                                    n,
                                ));
                                assert(family_texts(u0.push(n)) =~= family_texts(u0).push(
                                    n.name,
                                ));
                            }
                            families.push(text.clone());
                        } else {
                            proof {
                                assert(keep(u0.push(n), |x: NameView| x.kind == NameKind::Family)
                                    =~= keep(u0, |x: NameView| x.kind == NameKind::Family));
                            }
                        }
                        let ghost nv = strings(names@);
                        let ghost tv0 = name_views(typed@);
                        names.push(text.clone());
                        typed.push(FontName { name: text, kind, name_id: Some(r.name_id) });
                        proof {
                            assert(strings(names@) =~= nv.push(n.name));
                            assert(name_views(typed@) =~= tv0.push(n));
                            assert(strings(families@) == family_texts(u0.push(n)));
                        }
                    } else {
                        proof {
                            assert(!usable(r@));
                            assert(keep(rv.take(i + 1), |r: NameRecordView| usable(r)) =~= keep(
                                before,
                                |r: NameRecordView| usable(r),
                            ));
                        }
                    }
                },
                None => {
                    proof {
                        assert(keep(rv.take(i + 1), |r: NameRecordView| usable(r)) =~= keep(
                            before,
                            |r: NameRecordView| usable(r),
                        ));
                    }
                },
            }
        } else {
            proof {
                assert(keep(rv.take(i + 1), |r: NameRecordView| usable(r)) =~= keep(
                    before,
                    |r: NameRecordView| usable(r),
                ));
            }
        }
        i = i + 1;
    }
    proof {
        assert(rv.take(i as int) =~= rv);
    }
    let empty = names.len() == 0;
    let face = FontFace {
        path: String::from_str(path),
        face_index,
        names: sort_unique_strings(&names),
        family_names: sort_unique_strings(&families),
        name_records: sort_unique_records(&typed),
        weight,
        italic,
    };
    (face, empty)
}

fn chars_of_string(s: &String) -> (r: Vec<char>)
    ensures
        r@ == s@,
{
    crate::text::chars_of(s.as_str())
}

impl ScanReport {
    /// Records a problem with the file `path` or one of its faces.
    pub fn issue(&mut self, path: &str, face_index: Option<u32>, message: String)
        ensures
            final(self).faces@ == old(self).faces@,
            issue_views(final(self).issues@) == issue_views(old(self).issues@).push(
                IssueView { path: path@, face_index, message: message@ },
            ),
    {
        let ghost before = issue_views(self.issues@);
        self.issues.push(ScanIssue { path: String::from_str(path), face_index, message });
        assert(issue_views(self.issues@) =~= before.push(
            IssueView { path: path@, face_index, message: message@ },
        ));
    }

    /// Scans the faces of font data read from the file `path`. A collection whose face
    /// count cannot fit its data yields one issue and no face; a face that does not parse
    /// yields an issue and the next face is scanned; a parsed face is kept, with an issue
    /// when none of its names is usable.
    pub fn scan_data(&mut self, path: &str, data: &[u8])
        ensures
            issue_views(final(self).issues@) == issue_views(old(self).issues@) + data_issues(
                path@,
                data@,
            ),
            final(self).faces@.len() == old(self).faces@.len() + data_faces(data@).len(),
            face_views(final(self).faces@).take(old(self).faces@.len() as int) == face_views(
                old(self).faces@,
            ),
            scanned_faces(
                path@,
                data@,
                face_views(final(self).faces@).skip(old(self).faces@.len() as int),
            ),
    {
        let ghost old_faces = face_views(self.faces@);
        let ghost old_issues = issue_views(self.issues@);
        let count: u32 = match fonts_in_collection(data) {
            Some(c) => c,
            None => 1,
        };
        let room: usize = if data.len() >= 12 {
            data.len() - 12
        } else {
            0
        };
        if count == 0 || (count > 1 && count as usize > room / 4) {
            self.issue(path, None, message("invalid collection face count"));
            proof {
                assert(face_views(self.faces@).skip(old_faces.len() as int) =~= Seq::<
                    FaceView,
                >::empty());
                assert(face_views(self.faces@).take(old_faces.len() as int) =~= old_faces);
            }
            return;
        }
        let mut k: u32 = 0;
        proof {
            assert(face_views(self.faces@).skip(old_faces.len() as int) =~= Seq::<
                FaceView,
            >::empty());
            assert(face_views(self.faces@).take(old_faces.len() as int) =~= old_faces);
            assert(issue_views(self.issues@) =~= old_issues + Seq::<IssueView>::empty());
        }
        while k < count
            invariant
                k <= count,
                count == face_count(data@),
                !count_invalid(data@),
                issue_views(self.issues@) == old_issues + face_issues(path@, data@, k as int),
                self.faces@.len() == old_faces.len() + parsed_indices(data@, k as int).len(),
                face_views(self.faces@).take(old_faces.len() as int) == old_faces,
                faces_at(
                    path@,
                    data@,
                    face_views(self.faces@).skip(old_faces.len() as int),
                    parsed_indices(data@, k as int),
                ),
            decreases count - k,
        {
            let ghost fs0 = face_views(self.faces@);
            let ghost is0 = issue_views(self.issues@);
            match parse_face(data, k) {
                Err(m) => {
                    self.issue(path, Some(k), m);
                    proof {
                        let x = IssueView { path: path@, face_index: Some(k), message: m@ };
                        assert(face_issues(path@, data@, k + 1) == face_issues(
                            path@,
                            data@,
                            k as int,
                        ).push(x));
                        assert(is0.push(x) =~= old_issues + face_issues(path@, data@, k + 1));
                    }
                },
                Ok(face) => {
                    let n = name_count(&face);
                    let mut records: Vec<NameRecord> = Vec::new();
                    let mut i: u16 = 0;
                    let mut stop = false;
                    proof {
                        assert(record_views(records@) + records_from(data@, k, 0, n) =~= face_records(data@, k));
                    }
                    while i < n && !stop
                        invariant
                            i <= n,
                            n == face_name_count(data@, k),
                            face.data@ == data@,
                            face.index == k,
                            record_views(records@) + (if stop {
                                Seq::empty()
                            } else {
                                records_from(data@, k, i as int, n)
                            }) == face_records(data@, k),
                        decreases n - i,
                    {
                        let ghost rv0 = record_views(records@);
                        match name_at(&face, i) {
                            Some(r) => {
                                let ghost x = r@;
                                records.push(r);
                                proof {
                                    assert(record_views(records@) =~= rv0.push(x));
                                    assert(rv0.push(x) + records_from(data@, k, i + 1, n) =~= rv0
                                        + (seq![x] + records_from(data@, k, i + 1, n)));
                                }
                            },
                            None => {
                                stop = true;
                                proof {
                                    assert(rv0 + Seq::<NameRecordView>::empty() =~= rv0);
                                }
                            },
                        }
                        i = i + 1;
                    }
                    proof {
                        if !stop {
                            assert(record_views(records@) + Seq::<NameRecordView>::empty()
                                =~= record_views(records@));
                        } else {
                            assert(record_views(records@) + Seq::<NameRecordView>::empty()
                                =~= record_views(records@));
                        }
                    }
                    let weight = weight_of_face(&face);
                    let italic = is_italic_face(&face) || is_oblique_face(&face);
                    let (f, empty) = face_from_records(path, k, &records, weight, italic);
                    if empty {
                        self.issue(path, Some(k), message("no decodable matching names"));
                        proof {
                            let x = IssueView {
                                path: path@,
                                face_index: Some(k),
                                message: "no decodable matching names"@,
                            };
                            assert(face_issues(path@, data@, k + 1) == face_issues(
                                path@,
                                data@,
                                k as int,
                            ).push(x));
                            assert(is0.push(x) =~= old_issues + face_issues(path@, data@, k + 1));
                        }
                    } else {
                        assert(face_issues(path@, data@, k + 1) == face_issues(path@, data@, k as int));
                    }
                    let ghost fv = f@;
                    self.faces.push(f);
                    proof {
                        let idx = parsed_indices(data@, k as int);
                        assert(parsed_indices(data@, k + 1) == idx.push(k));
                        assert(face_views(self.faces@) =~= fs0.push(fv));
                        assert(face_views(self.faces@).take(old_faces.len() as int) =~= fs0.take(
                            old_faces.len() as int,
                        ));
                        let tail = face_views(self.faces@).skip(old_faces.len() as int);
                        assert(tail =~= fs0.skip(old_faces.len() as int).push(fv));
                        assert forall|j: int| 0 <= j < idx.push(k).len() implies scanned_face(
                            #[trigger] tail[j],
                            path@,
                            idx.push(k)[j],
                            face_records(data@, idx.push(k)[j]),
                            face_weight(data@, idx.push(k)[j]),
                            face_slanted(data@, idx.push(k)[j]),
                        ) by {
                            if j < idx.len() {
                                assert(tail[j] == fs0.skip(old_faces.len() as int)[j]);
                            }
                        }
                    }
                },
            }
            k = k + 1;
        }
    }
}

/// A file extension of a font format that is scanned (TTF, OTF, TTC or OTC), compared
/// ASCII case-insensitively.
pub open spec fn font_extension(ext: Seq<char>) -> bool {
    let l = ascii_lower(ext);
    l == "ttf"@ || l == "otf"@ || l == "ttc"@ || l == "otc"@
}

/// Whether files with this extension are scanned.
pub fn is_font_extension(ext: &str) -> (r: bool)
    ensures
        r == font_extension(ext@),
{
    let l = to_ascii_lower(&chars_of(ext));
    chars_eq(&l, &chars_of("ttf")) || chars_eq(&l, &chars_of("otf")) || chars_eq(
        &l,
        &chars_of("ttc"),
    ) || chars_eq(&l, &chars_of("otc"))
}

} // verus!
