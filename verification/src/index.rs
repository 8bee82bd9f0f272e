//! The font index: merged faces in path order with completed alias lists, plus the
//! normalized keys that resolution compares against.
use crate::fonts::{
    FaceView, FontFace, FontName, NameKind, NameView, copy_strings,
    face_views, name_views, strings,
};
use crate::order::{records_sorted, sort_unique_records, sort_unique_strings, strictly_sorted};
use crate::paths::{compare_paths, path_order};
use crate::text::{chars_of, normalize, normalize_chars, views};
use vstd::prelude::*;

verus! {

/// Order of face identities: path order, then collection index.
pub open spec fn face_key_less(a: FaceView, b: FaceView) -> bool {
    path_order(a.path, b.path) < 0 || (path_order(a.path, b.path) == 0 && a.face_index
        < b.face_index)
}

/// Same `(path, face_index)` identity.
pub open spec fn same_face(a: FaceView, b: FaceView) -> bool {
    path_order(a.path, b.path) == 0 && a.face_index == b.face_index
}

/// Number of leading faces whose identity is not greater than that of `f`.
pub open spec fn face_pos(acc: Seq<FaceView>, f: FaceView) -> int
    decreases acc.len(),
{
    if acc.len() == 0 || face_key_less(f, acc[0]) {
        0
    } else {
        1 + face_pos(acc.drop_first(), f)
    }
}

/// Aliases of a duplicate input added to the first input with the same identity, whose
/// weight and italic state are kept.
pub open spec fn absorb(a: FaceView, f: FaceView) -> FaceView {
    FaceView {
        names: a.names + f.names,
        family_names: a.family_names + f.family_names,
        records: a.records + f.records,
        ..a
    }
}

pub open spec fn merge_face(acc: Seq<FaceView>, f: FaceView) -> Seq<FaceView> {
    let j = face_pos(acc, f);
    if j > 0 && same_face(acc[j - 1], f) {
        acc.update(j - 1, absorb(acc[j - 1], f))
    } else {
        acc.insert(j, f)
    }
}

/// Inputs merged by identity, in identity order.
pub open spec fn merge_faces(fs: Seq<FaceView>) -> Seq<FaceView>
    decreases fs.len(),
{
    if fs.len() == 0 {
        seq![]
    } else {
        merge_face(merge_faces(fs.drop_last()), fs.last())
    }
}

pub open spec fn has_record_named(f: FaceView, n: Seq<char>) -> bool {
    exists|i: int| 0 <= i < f.records.len() && (#[trigger] f.records[i]).name == n
}

pub open spec fn has_family_record(f: FaceView, n: Seq<char>) -> bool {
    exists|i: int|
        0 <= i < f.records.len() && (#[trigger] f.records[i]).name == n && f.records[i].kind
            == NameKind::Family
}

/// Elements of `s` satisfying `p`, in order.
pub open spec fn keep<A>(s: Seq<A>, p: spec_fn(A) -> bool) -> Seq<A>
    decreases s.len(),
{
    if s.len() == 0 {
        seq![]
    } else {
        let k = keep(s.drop_last(), p);
        if p(s.last()) {
            k.push(s.last())
        } else {
            k
        }
    }
}

pub open spec fn record_name(r: NameView) -> Seq<char> {
    r.name
}

pub open spec fn untyped_family(n: Seq<char>) -> NameView {
    NameView { name: n, kind: NameKind::Family, name_id: None }
}

pub open spec fn untyped_internal(n: Seq<char>) -> NameView {
    NameView { name: n, kind: NameKind::InternalName, name_id: None }
}

/// Aliases of a completed face: its names, every record's name and its family names.
pub open spec fn alias_list(f: FaceView) -> Seq<Seq<char>> {
    f.names + f.records.map_values(|r: NameView| record_name(r)) + f.family_names
}

/// Family aliases of a completed face: its family names and the names of family records.
pub open spec fn family_list(f: FaceView) -> Seq<Seq<char>> {
    f.family_names + keep(f.records, |r: NameView| r.kind == NameKind::Family).map_values(
        |r: NameView| record_name(r),
    )
}

/// Records of a completed face: its records, an untyped family record for each family
/// name without a family record, and an internal-name record for each other name that
/// neither a record nor the family list carries.
pub open spec fn record_list(f: FaceView) -> Seq<NameView> {
    f.records + keep(f.family_names, |n: Seq<char>| !has_family_record(f, n)).map_values(
        |n: Seq<char>| untyped_family(n),
    ) + keep(
        f.names,
        |n: Seq<char>| !has_record_named(f, n) && !f.family_names.contains(n),
    ).map_values(|n: Seq<char>| untyped_internal(n))
}

/// `g` is the completed form of the merged face `f`: same identity and attributes, with
/// sorted duplicate-free alias lists and records.
pub open spec fn finalized(g: FaceView, f: FaceView) -> bool {
    &&& g.path == f.path
    &&& g.face_index == f.face_index
    &&& g.weight == f.weight
    &&& g.italic == f.italic
    &&& strictly_sorted(g.names)
    &&& forall|n: Seq<char>| g.names.contains(n) <==> alias_list(f).contains(n)
    &&& strictly_sorted(g.family_names)
    &&& forall|n: Seq<char>| g.family_names.contains(n) <==> family_list(f).contains(n)
    &&& records_sorted(g.records)
    &&& forall|r: NameView| g.records.contains(r) <==> record_list(f).contains(r)
}

pub fn same_face_of(a: &FontFace, b: &FontFace) -> (r: bool)
    ensures
        r == same_face(a@, b@),
{
    let o = compare_paths(a.path.as_str(), b.path.as_str());
    o == 0 && a.face_index == b.face_index
}

proof fn lemma_face_pos_step(s: Seq<FaceView>, f: FaceView, j: int)
    requires
        0 <= j < s.len(),
        !face_key_less(f, s[j]),
    ensures
        face_pos(s.skip(j), f) == 1 + face_pos(s.skip(j + 1), f),
{
    assert(s.skip(j).drop_first() =~= s.skip(j + 1));
}

/// A face with an empty path, index 0, no names, weight 0 and upright.
fn empty_face() -> (r: FontFace)
    ensures
        r@.path.len() == 0,
        r.face_index == 0,
        r@.names.len() == 0,
        r@.family_names.len() == 0,
        r@.records.len() == 0,
        r.weight == 0,
        !r.italic,
{
    FontFace {
        path: String::new(),
        face_index: 0,
        names: Vec::new(),
        family_names: Vec::new(),
        name_records: Vec::new(),
        weight: 0,
        italic: false,
    }
}

/// Faces in strictly ascending identity order.
pub open spec fn faces_sorted(s: Seq<FaceView>) -> bool {
    forall|i: int, j: int| 0 <= i < j < s.len() ==> face_key_less(#[trigger] s[i], #[trigger] s[j])
}

pub fn merge_face_into(acc: &mut Vec<FontFace>, f: FontFace)
    requires
        faces_sorted(face_views(old(acc)@)),
    ensures
        face_views(final(acc)@) == merge_face(face_views(old(acc)@), f@),
        faces_sorted(face_views(final(acc)@)),
{
    let ghost s = face_views(acc@);
    let mut j: usize = 0;
    assert(s.skip(0) =~= s);
    while j < acc.len()
        invariant
            j <= acc.len(),
            s == face_views(acc@),
            faces_sorted(s),
            face_pos(s, f@) == j + face_pos(s.skip(j as int), f@),
            forall|k: int| 0 <= k && k + 1 < j ==> face_key_less(#[trigger] s[k], f@),
            j > 0 ==> (face_key_less(s[j - 1], f@) || same_face(s[j - 1], f@)),
        ensures
            j <= acc.len(),
            face_pos(s.skip(j as int), f@) == 0,
            j < acc.len() ==> forall|k: int| j <= k < s.len() ==> face_key_less(f@, #[trigger] s[k]),
        decreases acc.len() - j,
    {
        let o = compare_paths(f.path.as_str(), acc[j].path.as_str());
        let ghost sj = s[j as int];
        assert(sj.path == acc@[j as int].path@);
        if o < 0 || (o == 0 && f.face_index < acc[j].face_index) {
            proof {
                assert(face_key_less(f@, sj));
                assert(s.skip(j as int)[0] == sj);
                assert forall|k: int| j <= k < s.len() implies face_key_less(f@, #[trigger] s[k]) by {
                    if k > j {
                        assert(face_key_less(sj, s[k]));
                        assert(path_order(sj.path, s[k].path) <= 0);
                    }
                }
            }
            break;
        }
        proof {
            assert(!face_key_less(f@, sj));
            assert(path_order(sj.path, f.path@) + o == 0);
            if j > 0 {
                let sp = s[j - 1];
                assert(face_key_less(sp, sj));
                assert(path_order(sp.path, sj.path) <= 0);
            }
            lemma_face_pos_step(s, f@, j as int);
        }
        j = j + 1;
    }
    if j > 0 && same_face_of(&acc[j - 1], &f) {
        let mut f = f;
        let mut cell = empty_face();
        acc.set_and_swap(j - 1, &mut cell);
        let ghost c0 = cell@;
        let ghost fv = f@;
        cell.names.append(&mut f.names);
        cell.family_names.append(&mut f.family_names);
        cell.name_records.append(&mut f.name_records);
        assert(strings(cell.names@) =~= c0.names + fv.names);
        assert(strings(cell.family_names@) =~= c0.family_names + fv.family_names);
        assert(name_views(cell.name_records@) =~= c0.records + fv.records);
        assert(cell@ == absorb(c0, fv));
        let ghost cv = cell@;
        acc.set(j - 1, cell);
        assert(face_views(acc@) =~= s.update(j - 1, cv));
        proof {
            let n = face_views(acc@);
            assert forall|a: int, b: int| 0 <= a < b < n.len() implies face_key_less(
                #[trigger] n[a],
                #[trigger] n[b],
            ) by {
                assert(face_key_less(s[a], s[b]));
            }
        }
    } else {
        let ghost fv = f@;
        acc.insert(j, f);
        assert(face_views(acc@) =~= s.insert(j as int, fv));
        proof {
            let n = face_views(acc@);
            assert forall|a: int, b: int| 0 <= a < b < n.len() implies face_key_less(
                #[trigger] n[a],
                #[trigger] n[b],
            ) by {
                if b < j {
                    assert(n[a] == s[a] && n[b] == s[b]);
                } else if b == j {
                    assert(n[a] == s[a]);
                } else if a < j {
                    assert(n[a] == s[a] && n[b] == s[b - 1]);
                    assert(face_key_less(s[a], s[b - 1]));
                } else if a == j {
                    assert(n[b] == s[b - 1]);
                } else {
                    assert(n[a] == s[a - 1] && n[b] == s[b - 1]);
                    assert(face_key_less(s[a - 1], s[b - 1]));
                }
            }
        }
    }
}

pub fn strings_contain(v: &Vec<String>, n: &String) -> (r: bool)
    ensures
        r == strings(v@).contains(n@),
{
    let mut i: usize = 0;
    while i < v.len()
        invariant
            i <= v.len(),
            forall|k: int| 0 <= k < i ==> strings(v@)[k] != n@,
        decreases v.len() - i,
    {
        if v[i] == *n {
            assert(strings(v@)[i as int] == n@);
            return true;
        }
        i = i + 1;
    }
    false
}

pub fn has_record_named_of(f: &FontFace, n: &String) -> (r: bool)
    ensures
        r == has_record_named(f@, n@),
{
    let mut i: usize = 0;
    while i < f.name_records.len()
        invariant
            i <= f.name_records.len(),
            forall|k: int| 0 <= k < i ==> (#[trigger] f@.records[k]).name != n@,
        decreases f.name_records.len() - i,
    {
        if f.name_records[i].name == *n {
            assert(f@.records[i as int].name == n@);
            return true;
        }
        i = i + 1;
    }
    false
}

pub fn has_family_record_of(f: &FontFace, n: &String) -> (r: bool)
    ensures
        r == has_family_record(f@, n@),
{
    let mut i: usize = 0;
    while i < f.name_records.len()
        invariant
            i <= f.name_records.len(),
            forall|k: int|
                0 <= k < i ==> !((#[trigger] f@.records[k]).name == n@ && f@.records[k].kind
                    == NameKind::Family),
        decreases f.name_records.len() - i,
    {
        if f.name_records[i].name == *n && f.name_records[i].kind == NameKind::Family {
            assert(f@.records[i as int].name == n@);
            return true;
        }
        i = i + 1;
    }
    false
}

/// The completed form of a merged face.
pub fn finalize_face(f: &FontFace) -> (r: FontFace)
    ensures
        finalized(r@, f@),
{
    let ghost fv = f@;
    let ghost rn = fv.records.map_values(|r: NameView| record_name(r));
    let mut all = copy_strings(&f.names);
    let mut k: usize = 0;
    assert(rn.take(0) =~= Seq::<Seq<char>>::empty());
    assert(strings(all@) =~= fv.names + rn.take(0));
    while k < f.name_records.len()
        invariant
            k <= f.name_records.len(),
            fv == f@,
            rn == fv.records.map_values(|r: NameView| record_name(r)),
            strings(all@) == fv.names + rn.take(k as int),
        decreases f.name_records.len() - k,
    {
        let ghost before = strings(all@);
        all.push(f.name_records[k].name.clone());
        assert(strings(all@) =~= before.push(fv.records[k as int].name));
        assert(rn.take(k + 1) =~= rn.take(k as int).push(rn[k as int]));
        assert(fv.names + rn.take(k + 1) =~= (fv.names + rn.take(k as int)).push(rn[k as int]));
        k = k + 1;
    }
    assert(rn.take(k as int) =~= rn);
    let mut k: usize = 0;
    assert(fv.family_names.take(0) =~= Seq::<Seq<char>>::empty());
    assert(strings(all@) =~= fv.names + rn + fv.family_names.take(0));
    while k < f.family_names.len()
        invariant
            k <= f.family_names.len(),
            fv == f@,
            rn == fv.records.map_values(|r: NameView| record_name(r)),
            strings(all@) == fv.names + rn + fv.family_names.take(k as int),
        decreases f.family_names.len() - k,
    {
        let ghost before = strings(all@);
        all.push(f.family_names[k].clone());
        assert(strings(all@) =~= before.push(fv.family_names[k as int]));
        assert(fv.names + rn + fv.family_names.take(k + 1) =~= (fv.names + rn
            + fv.family_names.take(k as int)).push(fv.family_names[k as int]));
        k = k + 1;
    }
    assert(fv.family_names.take(k as int) =~= fv.family_names);
    assert(strings(all@) == alias_list(fv));
    let names = sort_unique_strings(&all);
    let ghost is_family = |r: NameView| r.kind == NameKind::Family;
    let mut fam = copy_strings(&f.family_names);
    let mut k: usize = 0;
    assert(fv.records.take(0) =~= Seq::<NameView>::empty());
    assert(strings(fam@) =~= fv.family_names + keep(fv.records.take(0), is_family).map_values(
        |r: NameView| record_name(r),
    ));
    while k < f.name_records.len()
        invariant
            k <= f.name_records.len(),
            fv == f@,
            is_family == (|r: NameView| r.kind == NameKind::Family),
            strings(fam@) == fv.family_names + keep(fv.records.take(k as int), is_family).map_values(
                |r: NameView| record_name(r),
            ),
        decreases f.name_records.len() - k,
    {
        let ghost before = strings(fam@);
        let ghost t = fv.records.take(k + 1);
        assert(t.drop_last() =~= fv.records.take(k as int));
        assert(t.last() == fv.records[k as int]);
        if f.name_records[k].kind == NameKind::Family {
            fam.push(f.name_records[k].name.clone());
            assert(strings(fam@) =~= before.push(fv.records[k as int].name));
            assert(keep(t, is_family) == keep(fv.records.take(k as int), is_family).push(
                fv.records[k as int],
            ));
            assert(fv.family_names + keep(t, is_family).map_values(|r: NameView| record_name(r))
                =~= before.push(fv.records[k as int].name));
        } else {
            assert(keep(t, is_family) == keep(fv.records.take(k as int), is_family));
        }
        k = k + 1;
    }
    assert(fv.records.take(k as int) =~= fv.records);
    assert(strings(fam@) == family_list(fv));
    let family_names = sort_unique_strings(&fam);
    let ghost p_fam = |n: Seq<char>| !has_family_record(fv, n);
    let ghost p_int = |n: Seq<char>| !has_record_named(fv, n) && !fv.family_names.contains(n);
    let ghost fam_recs = |n: Seq<char>| untyped_family(n);
    let ghost int_recs = |n: Seq<char>| untyped_internal(n);
    let mut recs = crate::fonts::copy_names(&f.name_records);
    let mut k: usize = 0;
    assert(fv.family_names.take(0) =~= Seq::<Seq<char>>::empty());
    assert(name_views(recs@) =~= fv.records + keep(fv.family_names.take(0), p_fam).map_values(
        fam_recs,
    ));
    while k < f.family_names.len()
        invariant
            k <= f.family_names.len(),
            fv == f@,
            p_fam == (|n: Seq<char>| !has_family_record(fv, n)),
            fam_recs == (|n: Seq<char>| untyped_family(n)),
            name_views(recs@) == fv.records + keep(fv.family_names.take(k as int), p_fam).map_values(
                fam_recs,
            ),
        decreases f.family_names.len() - k,
    {
        let ghost before = name_views(recs@);
        let ghost t = fv.family_names.take(k + 1);
        assert(t.drop_last() =~= fv.family_names.take(k as int));
        assert(t.last() == fv.family_names[k as int]);
        let n = &f.family_names[k];
        if !has_family_record_of(f, n) {
            let rec = FontName { name: n.clone(), kind: NameKind::Family, name_id: None };
            let ghost rv = rec@;
            recs.push(rec);
            assert(name_views(recs@) =~= before.push(rv));
            assert(keep(t, p_fam) == keep(fv.family_names.take(k as int), p_fam).push(n@));
            assert(fv.records + keep(t, p_fam).map_values(fam_recs) =~= before.push(rv));
        } else {
            assert(keep(t, p_fam) == keep(fv.family_names.take(k as int), p_fam));
        }
        k = k + 1;
    }
    assert(fv.family_names.take(k as int) =~= fv.family_names);
    let ghost mid = name_views(recs@);
    let mut k: usize = 0;
    assert(fv.names.take(0) =~= Seq::<Seq<char>>::empty());
    assert(name_views(recs@) =~= mid + keep(fv.names.take(0), p_int).map_values(int_recs));
    while k < f.names.len()
        invariant
            k <= f.names.len(),
            fv == f@,
            p_int == (|n: Seq<char>| !has_record_named(fv, n) && !fv.family_names.contains(n)),
            int_recs == (|n: Seq<char>| untyped_internal(n)),
            name_views(recs@) == mid + keep(fv.names.take(k as int), p_int).map_values(int_recs),
        decreases f.names.len() - k,
    {
        let ghost before = name_views(recs@);
        let ghost t = fv.names.take(k + 1);
        assert(t.drop_last() =~= fv.names.take(k as int));
        assert(t.last() == fv.names[k as int]);
        let n = &f.names[k];
        if !has_record_named_of(f, n) && !strings_contain(&f.family_names, n) {
            let rec = FontName { name: n.clone(), kind: NameKind::InternalName, name_id: None };
            let ghost rv = rec@;
            recs.push(rec);
            assert(name_views(recs@) =~= before.push(rv));
            assert(keep(t, p_int) == keep(fv.names.take(k as int), p_int).push(n@));
            assert(mid + keep(t, p_int).map_values(int_recs) =~= before.push(rv));
        } else {
            assert(keep(t, p_int) == keep(fv.names.take(k as int), p_int));
        }
        k = k + 1;
    }
    assert(fv.names.take(k as int) =~= fv.names);
    assert(name_views(recs@) == record_list(fv));
    let name_records = sort_unique_records(&recs);
    FontFace {
        path: f.path.clone(),
        face_index: f.face_index,
        names,
        family_names,
        name_records,
        weight: f.weight,
        italic: f.italic,
    }
}

/// Normalized matching keys of a face, parallel to its names, family names and records.
pub struct FaceKeys {
    pub name_keys: Vec<Vec<char>>,
    pub family_keys: Vec<Vec<char>>,
    pub record_keys: Vec<Vec<char>>,
}

pub open spec fn normalize_each(s: Seq<Seq<char>>) -> Seq<Seq<char>> {
    s.map_values(|n: Seq<char>| normalize(n))
}

pub open spec fn keys_match(f: FaceView, k: FaceKeys) -> bool {
    &&& views(k.name_keys@) == normalize_each(f.names)
    &&& views(k.family_keys@) == normalize_each(f.family_names)
    &&& views(k.record_keys@) == normalize_each(f.records.map_values(|r: NameView| record_name(r)))
}

pub fn normalize_strings(v: &Vec<String>) -> (r: Vec<Vec<char>>)
    ensures
        views(r@) == normalize_each(strings(v@)),
{
    let mut r: Vec<Vec<char>> = Vec::new();
    let mut i: usize = 0;
    while i < v.len()
        invariant
            i <= v.len(),
            views(r@) == normalize_each(strings(v@).take(i as int)),
        decreases v.len() - i,
    {
        let c = chars_of(v[i].as_str());
        let n = normalize_chars(&c);
        let ghost before = views(r@);
        r.push(n);
        assert(views(r@) =~= before.push(n@));
        assert(strings(v@).take(i + 1) =~= strings(v@).take(i as int).push(v@[i as int]@));
        assert(normalize_each(strings(v@).take(i + 1)) =~= before.push(n@));
        i = i + 1;
    }
    assert(strings(v@).take(i as int) =~= strings(v@));
    r
}

pub fn keys_of(f: &FontFace) -> (r: FaceKeys)
    ensures
        keys_match(f@, r),
{
    let name_keys = normalize_strings(&f.names);
    let family_keys = normalize_strings(&f.family_names);
    let ghost rn = f@.records.map_values(|r: NameView| record_name(r));
    let mut record_keys: Vec<Vec<char>> = Vec::new();
    let mut i: usize = 0;
    while i < f.name_records.len()
        invariant
            i <= f.name_records.len(),
            rn == f@.records.map_values(|r: NameView| record_name(r)),
            views(record_keys@) == normalize_each(rn.take(i as int)),
        decreases f.name_records.len() - i,
    {
        let c = chars_of(f.name_records[i].name.as_str());
        let n = normalize_chars(&c);
        let ghost before = views(record_keys@);
        record_keys.push(n);
        assert(views(record_keys@) =~= before.push(n@));
        assert(rn.take(i + 1) =~= rn.take(i as int).push(rn[i as int]));
        assert(normalize_each(rn.take(i + 1)) =~= before.push(n@));
        i = i + 1;
    }
    assert(rn.take(i as int) =~= rn);
    FaceKeys { name_keys, family_keys, record_keys }
}

/// Reusable index of the supported internal names of a set of faces.
pub struct FontIndex {
    faces: Vec<FontFace>,
    keys: Vec<FaceKeys>,
}

impl FontIndex {
    #[verifier::type_invariant]
    spec fn keys_agree(self) -> bool {
        &&& self.keys@.len() == self.faces@.len()
        &&& forall|i: int| 0 <= i < self.faces@.len() ==> keys_match(self.faces@[i]@, #[trigger] self.keys@[i])
    }
}

impl View for FontIndex {
    type V = Seq<FaceView>;

    closed spec fn view(&self) -> Seq<FaceView> {
        face_views(self.faces@)
    }
}

impl FontIndex {
    /// The indexed faces with their matching keys.
    pub(crate) fn parts(&self) -> (r: (&Vec<FontFace>, &Vec<FaceKeys>))
        ensures
            face_views(r.0@) == self@,
            r.1@.len() == r.0@.len(),
            forall|i: int| 0 <= i < r.0@.len() ==> keys_match(r.0@[i]@, #[trigger] r.1@[i]),
    {
        proof {
            use_type_invariant(self);
        }
        (&self.faces, &self.keys)
    }
}

impl Default for FontIndex {
    fn default() -> (r: Self)
        ensures
            r@.len() == 0,
    {
        FontIndex { faces: Vec::new(), keys: Vec::new() }
    }
}

impl FontIndex {
    /// Build an in-memory index from owned face metadata; performs no filesystem I/O.
    ///
    /// Merges aliases for identical `(path, face_index)` pairs (paths compared as
    /// `std::path::Path` compares them). If duplicate inputs disagree on weight or italic
    /// state, the first input's attributes are retained. Typed records populate the alias
    /// lists, and untyped aliases receive [`NameKind::InternalName`] records. Faces are
    /// ordered by path and index.
    pub fn new(faces: Vec<FontFace>) -> (r: Self)
        ensures
            faces_sorted(r@),
            r@.len() == merge_faces(face_views(faces@)).len(),
            forall|i: int|
                0 <= i < r@.len() ==> finalized(#[trigger] r@[i], merge_faces(face_views(faces@))[i]),
    {
        let ghost input = face_views(faces@);
        let mut faces = faces;
        let mut merged: Vec<FontFace> = Vec::new();
        let mut i: usize = 0;
        assert(input.take(0) =~= Seq::<FaceView>::empty());
        assert(face_views(merged@) =~= Seq::<FaceView>::empty());
        while i < faces.len()
            invariant
                i <= faces.len(),
                input.len() == faces@.len(),
                forall|j: int| i <= j < faces@.len() ==> (#[trigger] faces@[j])@ == input[j],
                face_views(merged@) == merge_faces(input.take(i as int)),
                faces_sorted(face_views(merged@)),
            decreases faces.len() - i,
        {
            let mut f = empty_face();
            faces.set_and_swap(i, &mut f);
            assert(input.take(i + 1).drop_last() =~= input.take(i as int));
            assert(input.take(i + 1).last() == f@);
            merge_face_into(&mut merged, f);
            i = i + 1;
        }
        assert(input.take(i as int) =~= input);
        let ghost m = face_views(merged@);
        let mut done: Vec<FontFace> = Vec::new();
        let mut keys: Vec<FaceKeys> = Vec::new();
        let mut k: usize = 0;
        while k < merged.len()
            invariant
                k <= merged.len(),
                m == face_views(merged@),
                done@.len() == k,
                keys@.len() == k,
                forall|j: int| 0 <= j < k ==> finalized((#[trigger] done@[j])@, m[j]),
                forall|j: int| 0 <= j < k ==> keys_match(done@[j]@, #[trigger] keys@[j]),
                faces_sorted(m),
            decreases merged.len() - k,
        {
            let g = finalize_face(&merged[k]);
            let key = keys_of(&g);
            done.push(g);
            keys.push(key);
            k = k + 1;
        }
        proof {
            let d = face_views(done@);
            assert forall|a: int, b: int| 0 <= a < b < d.len() implies face_key_less(
                #[trigger] d[a],
                #[trigger] d[b],
            ) by {
                assert(finalized(done@[a]@, m[a]) && finalized(done@[b]@, m[b]));
                assert(face_key_less(m[a], m[b]));
            }
        }
        FontIndex { faces: done, keys }
    }
}

} // verus!
