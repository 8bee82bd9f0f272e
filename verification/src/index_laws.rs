//! What the index keeps of its inputs: one face per identity, with the attributes of the
//! first input of that identity; and that it depends on the set of its input faces alone,
//! so neither their order nor repeats among them change any resolution against it.
use crate::fonts::{FaceView, NameKind, NameView};
use crate::index::{
    absorb, alias_list, face_key_less, face_pos, faces_sorted, family_list, finalized, keep,
    has_family_record, has_record_named, merge_face, merge_faces, record_list, record_name,
    same_face, untyped_family, untyped_internal,
};
use crate::laws::{lemma_contains_concat, lemma_contains_map, lemma_keep_has, lemma_record_list_parts};
use crate::order::{
    lemma_record_less_transitive, lemma_seq_less_irreflexive, lemma_seq_less_transitive,
    record_less,
};
use crate::overrides::seq_less;
use crate::paths::path_order;
use crate::resolve::{ResolveOptions, resolve_all};
use crate::subtitle::RefView;
use vstd::prelude::*;

verus! {

/// On these paths, path order has the properties that `Ord` documents for a total order
/// (reversing the arguments negates it; it is transitive), and two of them compare equal
/// only when they are the same string.
#[verifier::opaque]
pub open spec fn paths_ordered(ps: Seq<Seq<char>>) -> bool {
    &&& forall|p: Seq<char>, q: Seq<char>|
        ps.contains(p) && ps.contains(q) ==> #[trigger] path_order(p, q) + path_order(q, p) == 0
            && (path_order(p, q) == 0 <==> p == q)
    &&& forall|p: Seq<char>, q: Seq<char>, r: Seq<char>|
        ps.contains(p) && ps.contains(q) && ps.contains(r) && #[trigger] path_order(p, q) < 0
            && #[trigger] path_order(q, r) < 0 ==> path_order(p, r) < 0
}

/// The same path string and collection index.
pub open spec fn same_id(a: FaceView, b: FaceView) -> bool {
    a.path == b.path && a.face_index == b.face_index
}

/// Faces of an identity agree on weight and italic state.
pub open spec fn identities_agree(fs: Seq<FaceView>) -> bool {
    forall|x: FaceView, y: FaceView|
        fs.contains(x) && fs.contains(y) && #[trigger] same_id(x, y) ==> x.weight == y.weight
            && x.italic == y.italic
}

/// Some face of `s` has the identity of `x`.
pub open spec fn has_entry(s: Seq<FaceView>, x: FaceView) -> bool {
    exists|k: int| 0 <= k < s.len() && same_id(#[trigger] s[k], x)
}

/// Input `i` is the first with the identity of `e`, and has its weight and italic state.
pub open spec fn first_with(fs: Seq<FaceView>, i: int, e: FaceView) -> bool {
    &&& 0 <= i < fs.len()
    &&& same_id(fs[i], e)
    &&& fs[i].weight == e.weight
    &&& fs[i].italic == e.italic
    &&& forall|l: int| 0 <= l < i ==> !same_id(#[trigger] fs[l], e)
}

/// `e` has the identity, weight and italic state of the first input with its identity.
pub open spec fn has_source(fs: Seq<FaceView>, e: FaceView) -> bool {
    exists|i: int| #[trigger] first_with(fs, i, e)
}

/// What `proj` gives of the inputs with the identity of `e`, concatenated in input order.
pub open spec fn class_of<A>(fs: Seq<FaceView>, e: FaceView, proj: spec_fn(FaceView) -> Seq<A>) -> Seq<A>
    decreases fs.len(),
{
    if fs.len() == 0 {
        seq![]
    } else {
        class_of(fs.drop_last(), e, proj) + if same_id(fs.last(), e) {
            proj(fs.last())
        } else {
            seq![]
        }
    }
}

pub open spec fn names_proj() -> spec_fn(FaceView) -> Seq<Seq<char>> {
    |x: FaceView| x.names
}

pub open spec fn families_proj() -> spec_fn(FaceView) -> Seq<Seq<char>> {
    |x: FaceView| x.family_names
}

pub open spec fn records_proj() -> spec_fn(FaceView) -> Seq<NameView> {
    |x: FaceView| x.records
}

/// `acc` is the merge of `fs`: sorted by identity, each face with the attributes of the
/// first input of its identity, each input represented, and each face's lists the
/// concatenation of those of the inputs of its identity.
#[verifier::opaque]
pub open spec fn merged_from(acc: Seq<FaceView>, fs: Seq<FaceView>, ps: Seq<Seq<char>>) -> bool {
    &&& faces_sorted(acc)
    &&& forall|k: int| 0 <= k < acc.len() ==> ps.contains(#[trigger] acc[k].path)
    &&& forall|k: int| 0 <= k < acc.len() ==> has_source(fs, #[trigger] acc[k])
    &&& forall|i: int| 0 <= i < fs.len() ==> has_entry(acc, #[trigger] fs[i])
    &&& forall|k: int|
        0 <= k < acc.len() ==> (#[trigger] acc[k]).names == class_of(fs, acc[k], names_proj())
            && acc[k].family_names == class_of(fs, acc[k], families_proj()) && acc[k].records
            == class_of(fs, acc[k], records_proj())
}

proof fn lemma_face_order(ps: Seq<Seq<char>>, a: FaceView, b: FaceView, c: FaceView)
    requires
        paths_ordered(ps),
        ps.contains(a.path),
        ps.contains(b.path),
        ps.contains(c.path),
    ensures
        !face_key_less(a, a),
        face_key_less(a, b) ==> !face_key_less(b, a),
        face_key_less(a, b) || face_key_less(b, a) || same_id(a, b),
        same_face(a, b) <==> same_id(a, b),
        face_key_less(a, b) && face_key_less(b, c) ==> face_key_less(a, c),
{
    reveal(paths_ordered);
    assert(path_order(a.path, a.path) + path_order(a.path, a.path) == 0);
    assert(path_order(a.path, b.path) + path_order(b.path, a.path) == 0);
    assert(path_order(b.path, c.path) + path_order(c.path, b.path) == 0);
    assert(path_order(a.path, c.path) + path_order(c.path, a.path) == 0);
    if path_order(a.path, b.path) < 0 && path_order(b.path, c.path) < 0 {
        assert(path_order(a.path, c.path) < 0);
    }
}

proof fn lemma_face_pos_split(ps: Seq<Seq<char>>, acc: Seq<FaceView>, f: FaceView)
    requires
        paths_ordered(ps),
        faces_sorted(acc),
        forall|k: int| 0 <= k < acc.len() ==> ps.contains(#[trigger] acc[k].path),
        ps.contains(f.path),
    ensures
        0 <= face_pos(acc, f) <= acc.len(),
        forall|k: int| 0 <= k < face_pos(acc, f) ==> !face_key_less(f, #[trigger] acc[k]),
        forall|k: int| face_pos(acc, f) <= k < acc.len() ==> face_key_less(f, #[trigger] acc[k]),
    decreases acc.len(),
{
    if acc.len() == 0 {
    } else if face_key_less(f, acc[0]) {
        assert forall|k: int| 0 <= k < acc.len() implies face_key_less(f, #[trigger] acc[k]) by {
            if k > 0 {
                assert(face_key_less(acc[0], acc[k]));
                lemma_face_order(ps, f, acc[0], acc[k]);
            }
        }
    } else {
        let t = acc.drop_first();
        assert forall|a: int, b: int| 0 <= a < b < t.len() implies face_key_less(
            #[trigger] t[a],
            #[trigger] t[b],
        ) by {
            assert(face_key_less(acc[a + 1], acc[b + 1]));
        }
        assert forall|k: int| 0 <= k < t.len() implies ps.contains(#[trigger] t[k].path) by {
            assert(t[k] == acc[k + 1]);
        }
        lemma_face_pos_split(ps, t, f);
        assert(face_pos(acc, f) == 1 + face_pos(t, f));
        assert forall|k: int| 0 <= k < face_pos(acc, f) implies !face_key_less(
            f,
            #[trigger] acc[k],
        ) by {
            if k > 0 {
                assert(acc[k] == t[k - 1]);
            }
        }
        assert forall|k: int| face_pos(acc, f) <= k < acc.len() implies face_key_less(
            f,
            #[trigger] acc[k],
        ) by {
            assert(acc[k] == t[k - 1]);
        }
    }
}

/// Two identity-sorted lists of faces with the same identities list them alike.
proof fn lemma_sorted_identities(ps: Seq<Seq<char>>, s: Seq<FaceView>, t: Seq<FaceView>)
    requires
        paths_ordered(ps),
        faces_sorted(s),
        faces_sorted(t),
        forall|k: int| 0 <= k < s.len() ==> ps.contains(#[trigger] s[k].path),
        forall|k: int| 0 <= k < t.len() ==> ps.contains(#[trigger] t[k].path),
        forall|k: int| 0 <= k < s.len() ==> has_entry(t, #[trigger] s[k]),
        forall|k: int| 0 <= k < t.len() ==> has_entry(s, #[trigger] t[k]),
    ensures
        s.len() == t.len(),
        forall|k: int| 0 <= k < s.len() ==> same_id(#[trigger] s[k], t[k]),
    decreases s.len(),
{
    if s.len() == 0 {
        if t.len() > 0 {
            assert(has_entry(s, t[0]));
        }
    } else {
        assert(has_entry(t, s[0]));
        let j = choose|j: int| 0 <= j < t.len() && same_id(#[trigger] t[j], s[0]);
        assert(has_entry(s, t[0]));
        let i = choose|i: int| 0 <= i < s.len() && same_id(#[trigger] s[i], t[0]);
        if i > 0 && j > 0 {
            assert(face_key_less(s[0], s[i]));
            assert(face_key_less(t[0], t[j]));
            lemma_face_order(ps, s[0], t[0], t[0]);
        }
        assert(same_id(s[0], t[0]));
        let s1 = s.drop_first();
        let t1 = t.drop_first();
        assert forall|a: int, b: int| 0 <= a < b < s1.len() implies face_key_less(
            #[trigger] s1[a],
            #[trigger] s1[b],
        ) by {
            assert(face_key_less(s[a + 1], s[b + 1]));
        }
        assert forall|a: int, b: int| 0 <= a < b < t1.len() implies face_key_less(
            #[trigger] t1[a],
            #[trigger] t1[b],
        ) by {
            assert(face_key_less(t[a + 1], t[b + 1]));
        }
        assert forall|k: int| 0 <= k < s1.len() implies ps.contains(#[trigger] s1[k].path) by {
            assert(s1[k] == s[k + 1]);
        }
        assert forall|k: int| 0 <= k < t1.len() implies ps.contains(#[trigger] t1[k].path) by {
            assert(t1[k] == t[k + 1]);
        }
        assert forall|k: int| 0 <= k < s1.len() implies has_entry(t1, #[trigger] s1[k]) by {
            assert(s1[k] == s[k + 1]);
            assert(has_entry(t, s[k + 1]));
            let l = choose|l: int| 0 <= l < t.len() && same_id(#[trigger] t[l], s[k + 1]);
            assert(face_key_less(s[0], s[k + 1]));
            lemma_face_order(ps, s[0], s[0], s[0]);
            assert(l != 0);
            assert(t1[l - 1] == t[l]);
        }
        assert forall|k: int| 0 <= k < t1.len() implies has_entry(s1, #[trigger] t1[k]) by {
            assert(t1[k] == t[k + 1]);
            assert(has_entry(s, t[k + 1]));
            let l = choose|l: int| 0 <= l < s.len() && same_id(#[trigger] s[l], t[k + 1]);
            assert(face_key_less(t[0], t[k + 1]));
            lemma_face_order(ps, t[0], t[0], t[0]);
            assert(l != 0);
            assert(s1[l - 1] == s[l]);
        }
        lemma_sorted_identities(ps, s1, t1);
        assert forall|k: int| 0 <= k < s.len() implies same_id(#[trigger] s[k], t[k]) by {
            if k > 0 {
                assert(s1[k - 1] == s[k] && t1[k - 1] == t[k]);
            }
        }
    }
}

proof fn lemma_class_same_id<A>(fs: Seq<FaceView>, a: FaceView, b: FaceView, proj: spec_fn(FaceView) -> Seq<A>)
    requires
        same_id(a, b),
    ensures
        class_of(fs, a, proj) == class_of(fs, b, proj),
    decreases fs.len(),
{
    if fs.len() > 0 {
        lemma_class_same_id(fs.drop_last(), a, b, proj);
    }
}

proof fn lemma_class_none<A>(fs: Seq<FaceView>, e: FaceView, proj: spec_fn(FaceView) -> Seq<A>)
    requires
        forall|i: int| 0 <= i < fs.len() ==> !same_id(#[trigger] fs[i], e),
    ensures
        class_of(fs, e, proj) == Seq::<A>::empty(),
    decreases fs.len(),
{
    if fs.len() > 0 {
        let init = fs.drop_last();
        assert forall|i: int| 0 <= i < init.len() implies !same_id(#[trigger] init[i], e) by {
            assert(init[i] == fs[i]);
        }
        lemma_class_none(init, e, proj);
        assert(!same_id(fs[fs.len() - 1], e));
        assert(class_of(fs, e, proj) =~= Seq::<A>::empty());
    }
}

proof fn lemma_class_members<A>(fs: Seq<FaceView>, e: FaceView, proj: spec_fn(FaceView) -> Seq<A>, y: A)
    ensures
        class_of(fs, e, proj).contains(y) <==> exists|i: int|
            0 <= i < fs.len() && same_id(#[trigger] fs[i], e) && proj(fs[i]).contains(y),
    decreases fs.len(),
{
    if fs.len() > 0 {
        let init = fs.drop_last();
        lemma_class_members(init, e, proj, y);
        let tail = if same_id(fs.last(), e) {
            proj(fs.last())
        } else {
            seq![]
        };
        lemma_contains_concat(class_of(init, e, proj), tail, y);
        if exists|i: int| 0 <= i < init.len() && same_id(#[trigger] init[i], e) && proj(init[i]).contains(y) {
            let i = choose|i: int| 0 <= i < init.len() && same_id(#[trigger] init[i], e) && proj(init[i]).contains(y);
            assert(fs[i] == init[i]);
        }
        if exists|i: int| 0 <= i < fs.len() && same_id(#[trigger] fs[i], e) && proj(fs[i]).contains(y) {
            let i = choose|i: int| 0 <= i < fs.len() && same_id(#[trigger] fs[i], e) && proj(fs[i]).contains(y);
            if i < init.len() {
                assert(fs[i] == init[i]);
            } else {
                assert(fs[i] == fs.last());
            }
        }
    }
}

#[verifier::spinoff_prover]
#[verifier::rlimit(50)]
proof fn lemma_merge_absorb(ps: Seq<Seq<char>>, acc: Seq<FaceView>, fs: Seq<FaceView>, f: FaceView)
    requires
        paths_ordered(ps),
        merged_from(acc, fs, ps),
        ps.contains(f.path),
        face_pos(acc, f) > 0 && same_face(acc[face_pos(acc, f) - 1], f),
    ensures
        merged_from(
            acc.update(face_pos(acc, f) - 1, absorb(acc[face_pos(acc, f) - 1], f)),
            fs.push(f),
            ps,
        ),
{
    reveal(merged_from);
    let j = face_pos(acc, f);
    let fs2 = fs.push(f);
    let m = acc.update(face_pos(acc, f) - 1, absorb(acc[face_pos(acc, f) - 1], f));
    lemma_face_pos_split(ps, acc, f);
    assert(fs2.drop_last() =~= fs);
    assert(fs2.last() == f);
    // Distinct faces of `acc` have distinct identities.
    assert forall|a: int, b: int| 0 <= a < acc.len() && 0 <= b < acc.len() && a != b implies !same_id(
        #[trigger] acc[a],
        #[trigger] acc[b],
    ) by {
        lemma_face_order(ps, acc[a], acc[a], acc[a]);
        if a < b {
            assert(face_key_less(acc[a], acc[b]));
        } else {
            assert(face_key_less(acc[b], acc[a]));
        }
    }
        lemma_face_order(ps, acc[j - 1], f, f);
        let g = absorb(acc[j - 1], f);
        assert(same_id(g, acc[j - 1]));
        assert forall|a: int, b: int| 0 <= a < b < m.len() implies face_key_less(
            #[trigger] m[a],
            #[trigger] m[b],
        ) by {
            assert(face_key_less(acc[a], acc[b]));
        }
        assert forall|k: int| 0 <= k < m.len() implies ps.contains(#[trigger] m[k].path) by {
            assert(ps.contains(acc[k].path));
        }
        assert forall|k: int| 0 <= k < m.len() implies has_source(fs2, #[trigger] m[k]) by {
            assert(has_source(fs, acc[k]));
            let i = choose|i: int| first_with(fs, i, acc[k]);
            assert(fs2[i] == fs[i]);
            assert forall|l: int| 0 <= l < i implies !same_id(#[trigger] fs2[l], m[k]) by {
                assert(fs2[l] == fs[l]);
                assert(!same_id(fs[l], acc[k]));
            }
            assert(first_with(fs2, i, m[k]));
        }
        assert forall|i: int| 0 <= i < fs2.len() implies has_entry(m, #[trigger] fs2[i]) by {
            if i < fs.len() {
                assert(fs2[i] == fs[i]);
                assert(has_entry(acc, fs[i]));
                let k = choose|k: int| 0 <= k < acc.len() && same_id(#[trigger] acc[k], fs[i]);
                assert(same_id(m[k], fs2[i]));
            } else {
                assert(same_id(m[j - 1], fs2[i]));
            }
        }
        assert forall|k: int| 0 <= k < m.len() implies (#[trigger] m[k]).names == class_of(
            fs2,
            m[k],
            names_proj(),
        ) && m[k].family_names == class_of(fs2, m[k], families_proj()) && m[k].records
            == class_of(fs2, m[k], records_proj()) by {
            if k == j - 1 {
                lemma_class_same_id(fs, g, acc[j - 1], names_proj());
                lemma_class_same_id(fs, g, acc[j - 1], families_proj());
                lemma_class_same_id(fs, g, acc[j - 1], records_proj());
                assert(same_id(f, g));
            } else {
                assert(m[k] == acc[k]);
                assert(!same_id(acc[k], acc[j - 1]));
                assert(!same_id(f, acc[k]));
                assert(class_of(fs2, m[k], names_proj()) =~= class_of(fs, acc[k], names_proj()));
                assert(class_of(fs2, m[k], families_proj()) =~= class_of(fs, acc[k], families_proj()));
                assert(class_of(fs2, m[k], records_proj()) =~= class_of(fs, acc[k], records_proj()));
            }
        }
}

/// Inserting a face of a new identity at its place keeps the list sorted.
proof fn lemma_insert_sorted(acc: Seq<FaceView>, f: FaceView, j: int)
    requires
        0 <= j <= acc.len(),
        faces_sorted(acc),
        forall|k: int| 0 <= k < j ==> face_key_less(#[trigger] acc[k], f),
        forall|k: int| j <= k < acc.len() ==> face_key_less(f, #[trigger] acc[k]),
    ensures
        faces_sorted(acc.insert(j, f)),
{
    let m = acc.insert(j, f);
    assert forall|a: int, b: int| 0 <= a < b < m.len() implies face_key_less(
        #[trigger] m[a],
        #[trigger] m[b],
    ) by {
        if b < j {
            assert(m[a] == acc[a] && m[b] == acc[b]);
            assert(face_key_less(acc[a], acc[b]));
        } else if b == j {
            assert(m[a] == acc[a]);
        } else if a < j {
            assert(m[a] == acc[a] && m[b] == acc[b - 1]);
            assert(face_key_less(acc[a], acc[b - 1]));
        } else if a == j {
            assert(m[b] == acc[b - 1]);
        } else {
            assert(m[a] == acc[a - 1] && m[b] == acc[b - 1]);
            assert(face_key_less(acc[a - 1], acc[b - 1]));
        }
    }
}

/// Inserting a face of a new identity keeps sources and entries.
proof fn lemma_insert_sources(acc: Seq<FaceView>, fs: Seq<FaceView>, f: FaceView, j: int)
    requires
        0 <= j <= acc.len(),
        forall|k: int| 0 <= k < acc.len() ==> has_source(fs, #[trigger] acc[k]),
        forall|i: int| 0 <= i < fs.len() ==> has_entry(acc, #[trigger] fs[i]),
        forall|i: int| 0 <= i < fs.len() ==> !same_id(#[trigger] fs[i], f),
    ensures
        forall|k: int| 0 <= k < acc.len() + 1 ==> has_source(fs.push(f), #[trigger] acc.insert(j, f)[k]),
        forall|i: int| 0 <= i < fs.len() + 1 ==> has_entry(acc.insert(j, f), #[trigger] fs.push(f)[i]),
{
    let m = acc.insert(j, f);
    let fs2 = fs.push(f);
    assert forall|k: int| 0 <= k < m.len() implies has_source(fs2, #[trigger] m[k]) by {
        if k == j {
            assert(fs2[fs.len() as int] == f);
            assert(same_id(fs2[fs.len() as int], m[k]));
            assert forall|l: int| 0 <= l < fs.len() implies !same_id(#[trigger] fs2[l], m[k]) by {
                assert(fs2[l] == fs[l]);
            }
            assert(first_with(fs2, fs.len() as int, m[k]));
        } else {
            let k0 = if k < j { k } else { k - 1 };
            assert(m[k] == acc[k0]);
            assert(has_source(fs, acc[k0]));
            let i = choose|i: int| first_with(fs, i, acc[k0]);
            assert(fs2[i] == fs[i]);
            assert forall|l: int| 0 <= l < i implies !same_id(#[trigger] fs2[l], m[k]) by {
                assert(fs2[l] == fs[l]);
                assert(!same_id(fs[l], acc[k0]));
            }
            assert(first_with(fs2, i, m[k]));
        }
    }
    assert forall|i: int| 0 <= i < fs2.len() implies has_entry(m, #[trigger] fs2[i]) by {
        if i < fs.len() {
            assert(fs2[i] == fs[i]);
            assert(has_entry(acc, fs[i]));
            let k = choose|k: int| 0 <= k < acc.len() && same_id(#[trigger] acc[k], fs[i]);
            if k < j {
                assert(m[k] == acc[k]);
            } else {
                assert(m[k + 1] == acc[k]);
            }
        } else {
            assert(same_id(m[j], fs2[i]));
        }
    }
}

/// Inserting a face of a new identity keeps each face's lists those of its inputs.
proof fn lemma_insert_classes(acc: Seq<FaceView>, fs: Seq<FaceView>, f: FaceView, j: int)
    requires
        0 <= j <= acc.len(),
        forall|k: int| 0 <= k < acc.len() ==> !same_id(#[trigger] acc[k], f),
        forall|i: int| 0 <= i < fs.len() ==> !same_id(#[trigger] fs[i], f),
        forall|k: int|
            0 <= k < acc.len() ==> (#[trigger] acc[k]).names == class_of(fs, acc[k], names_proj())
                && acc[k].family_names == class_of(fs, acc[k], families_proj()) && acc[k].records
                == class_of(fs, acc[k], records_proj()),
    ensures
        forall|k: int|
            0 <= k < acc.len() + 1 ==> (#[trigger] acc.insert(j, f)[k]).names == class_of(
                fs.push(f),
                acc.insert(j, f)[k],
                names_proj(),
            ) && acc.insert(j, f)[k].family_names == class_of(
                fs.push(f),
                acc.insert(j, f)[k],
                families_proj(),
            ) && acc.insert(j, f)[k].records == class_of(
                fs.push(f),
                acc.insert(j, f)[k],
                records_proj(),
            ),
{
    let m = acc.insert(j, f);
    let fs2 = fs.push(f);
    assert(fs2.drop_last() =~= fs);
    assert(fs2.last() == f);
    lemma_class_none(fs, f, names_proj());
    lemma_class_none(fs, f, families_proj());
    lemma_class_none(fs, f, records_proj());
    assert forall|k: int| 0 <= k < m.len() implies (#[trigger] m[k]).names == class_of(
        fs2,
        m[k],
        names_proj(),
    ) && m[k].family_names == class_of(fs2, m[k], families_proj()) && m[k].records
        == class_of(fs2, m[k], records_proj()) by {
        if k == j {
            assert(m[k] == f);
            assert(class_of(fs2, f, names_proj()) =~= f.names);
            assert(class_of(fs2, f, families_proj()) =~= f.family_names);
            assert(class_of(fs2, f, records_proj()) =~= f.records);
        } else {
            let k0 = if k < j { k } else { k - 1 };
            assert(m[k] == acc[k0]);
            assert(!same_id(f, acc[k0]));
            assert(class_of(fs2, m[k], names_proj()) =~= class_of(fs, acc[k0], names_proj()));
            assert(class_of(fs2, m[k], families_proj()) =~= class_of(fs, acc[k0], families_proj()));
            assert(class_of(fs2, m[k], records_proj()) =~= class_of(fs, acc[k0], records_proj()));
        }
    }
}

/// Where `f` is not merged into the face before its place, no face of `acc` and no input
/// has its identity, and it sits between the smaller and the greater faces.
proof fn lemma_insert_fresh(ps: Seq<Seq<char>>, acc: Seq<FaceView>, fs: Seq<FaceView>, f: FaceView)
    requires
        paths_ordered(ps),
        faces_sorted(acc),
        forall|k: int| 0 <= k < acc.len() ==> ps.contains(#[trigger] acc[k].path),
        forall|i: int| 0 <= i < fs.len() ==> has_entry(acc, #[trigger] fs[i]),
        ps.contains(f.path),
        !(face_pos(acc, f) > 0 && same_face(acc[face_pos(acc, f) - 1], f)),
    ensures
        0 <= face_pos(acc, f) <= acc.len(),
        forall|k: int| 0 <= k < acc.len() ==> !same_id(#[trigger] acc[k], f),
        forall|i: int| 0 <= i < fs.len() ==> !same_id(#[trigger] fs[i], f),
        forall|k: int| 0 <= k < face_pos(acc, f) ==> face_key_less(#[trigger] acc[k], f),
        forall|k: int| face_pos(acc, f) <= k < acc.len() ==> face_key_less(f, #[trigger] acc[k]),
{
    let j = face_pos(acc, f);
    lemma_face_pos_split(ps, acc, f);
    lemma_face_order(ps, f, f, f);
    // No face of `acc` has the identity of `f`.
    assert forall|k: int| 0 <= k < acc.len() implies !same_id(#[trigger] acc[k], f) by {
        if same_id(acc[k], f) {
            if k >= j {
                assert(face_key_less(f, acc[k]));
            } else if k < j - 1 {
                assert(face_key_less(acc[k], acc[j - 1]));
                assert(!face_key_less(f, acc[j - 1]));
            } else {
                lemma_face_order(ps, acc[k], f, f);
            }
        }
    }
    assert forall|i: int| 0 <= i < fs.len() implies !same_id(#[trigger] fs[i], f) by {
        assert(has_entry(acc, fs[i]));
        let k = choose|k: int| 0 <= k < acc.len() && same_id(#[trigger] acc[k], fs[i]);
        assert(!same_id(acc[k], f));
    }
    assert forall|k: int| 0 <= k < j implies face_key_less(#[trigger] acc[k], f) by {
        lemma_face_order(ps, acc[k], f, f);
    }
}

#[verifier::spinoff_prover]
#[verifier::rlimit(50)]
proof fn lemma_merge_insert(ps: Seq<Seq<char>>, acc: Seq<FaceView>, fs: Seq<FaceView>, f: FaceView)
    requires
        paths_ordered(ps),
        merged_from(acc, fs, ps),
        ps.contains(f.path),
        !(face_pos(acc, f) > 0 && same_face(acc[face_pos(acc, f) - 1], f)),
    ensures
        merged_from(acc.insert(face_pos(acc, f), f), fs.push(f), ps),
{
    let j = face_pos(acc, f);
    let m = acc.insert(j, f);
    lemma_merged_parts(acc, fs, ps);
    lemma_insert_fresh(ps, acc, fs, f);
    lemma_insert_sorted(acc, f, j);
    lemma_insert_sources(acc, fs, f, j);
    lemma_insert_classes(acc, fs, f, j);
    assert forall|k: int| 0 <= k < m.len() implies ps.contains(#[trigger] m[k].path) by {
        if k < j {
            assert(m[k] == acc[k]);
        } else if k > j {
            assert(m[k] == acc[k - 1]);
        }
    }
    lemma_merged_from_intro(m, fs.push(f), ps);
}

/// `merged_from` from its parts.
proof fn lemma_merged_from_intro(acc: Seq<FaceView>, fs: Seq<FaceView>, ps: Seq<Seq<char>>)
    requires
        faces_sorted(acc),
        forall|k: int| 0 <= k < acc.len() ==> ps.contains(#[trigger] acc[k].path),
        forall|k: int| 0 <= k < acc.len() ==> has_source(fs, #[trigger] acc[k]),
        forall|i: int| 0 <= i < fs.len() ==> has_entry(acc, #[trigger] fs[i]),
        forall|k: int|
            0 <= k < acc.len() ==> (#[trigger] acc[k]).names == class_of(fs, acc[k], names_proj())
                && acc[k].family_names == class_of(fs, acc[k], families_proj()) && acc[k].records
                == class_of(fs, acc[k], records_proj()),
    ensures
        merged_from(acc, fs, ps),
{
    reveal(merged_from);
}

/// The parts of `merged_from`.
proof fn lemma_merged_parts(acc: Seq<FaceView>, fs: Seq<FaceView>, ps: Seq<Seq<char>>)
    requires
        merged_from(acc, fs, ps),
    ensures
        faces_sorted(acc),
        forall|k: int| 0 <= k < acc.len() ==> ps.contains(#[trigger] acc[k].path),
        forall|k: int| 0 <= k < acc.len() ==> has_source(fs, #[trigger] acc[k]),
        forall|i: int| 0 <= i < fs.len() ==> has_entry(acc, #[trigger] fs[i]),
        forall|k: int|
            0 <= k < acc.len() ==> (#[trigger] acc[k]).names == class_of(fs, acc[k], names_proj())
                && acc[k].family_names == class_of(fs, acc[k], families_proj()) && acc[k].records
                == class_of(fs, acc[k], records_proj()),
{
    reveal(merged_from);
}

/// One merge step keeps `merged_from`.
proof fn lemma_merge_step(ps: Seq<Seq<char>>, acc: Seq<FaceView>, fs: Seq<FaceView>, f: FaceView)
    requires
        paths_ordered(ps),
        merged_from(acc, fs, ps),
        ps.contains(f.path),
    ensures
        merged_from(merge_face(acc, f), fs.push(f), ps),
{
    if face_pos(acc, f) > 0 && same_face(acc[face_pos(acc, f) - 1], f) {
        lemma_merge_absorb(ps, acc, fs, f);
        assert(merge_face(acc, f) == acc.update(
            face_pos(acc, f) - 1,
            absorb(acc[face_pos(acc, f) - 1], f),
        ));
    } else {
        lemma_merge_insert(ps, acc, fs, f);
        assert(merge_face(acc, f) == acc.insert(face_pos(acc, f), f));
    }
}

/// The merge of the first `n` inputs is `merged_from` them.
proof fn lemma_merged(ps: Seq<Seq<char>>, all: Seq<FaceView>, n: int)
    requires
        paths_ordered(ps),
        0 <= n <= all.len(),
        forall|i: int| 0 <= i < all.len() ==> ps.contains(#[trigger] all[i].path),
    ensures
        merged_from(merge_faces(all.take(n)), all.take(n), ps),
    decreases n,
{
    let fs = all.take(n);
    if n == 0 {
        reveal(merged_from);
        assert(merge_faces(fs) == Seq::<FaceView>::empty());
    } else {
        let init = all.take(n - 1);
        lemma_merged(ps, all, n - 1);
        assert(fs.drop_last() =~= init);
        assert(fs =~= init.push(all[n - 1]));
        let f = all[n - 1];
        lemma_merge_step(ps, merge_faces(init), init, f);
    }
}

/// Two lists sorted by an asymmetric order with the same elements are equal.
proof fn lemma_sorted_unique<A>(a: Seq<A>, b: Seq<A>, less: spec_fn(A, A) -> bool)
    requires
        forall|x: A, y: A| #[trigger] less(x, y) ==> !less(y, x),
        forall|i: int, j: int| 0 <= i < j < a.len() ==> less(a[i], a[j]),
        forall|i: int, j: int| 0 <= i < j < b.len() ==> less(b[i], b[j]),
        forall|x: A| a.contains(x) <==> b.contains(x),
    ensures
        a == b,
    decreases a.len(),
{
    if a.len() == 0 {
        if b.len() > 0 {
            assert(b.contains(b[0]));
        }
        assert(a =~= b);
    } else {
        assert(a.contains(a[0]));
        assert(b.contains(a[0]));
        let j = choose|j: int| 0 <= j < b.len() && b[j] == a[0];
        assert(b.contains(b[0]));
        let i = choose|i: int| 0 <= i < a.len() && a[i] == b[0];
        if i > 0 && j > 0 {
            assert(less(a[0], a[i]));
            assert(less(b[0], b[j]));
        }
        assert(a[0] == b[0]);
        let a1 = a.drop_first();
        let b1 = b.drop_first();
        assert forall|x: A| a1.contains(x) implies b1.contains(x) by {
            let k = choose|k: int| 0 <= k < a1.len() && a1[k] == x;
            assert(a[k + 1] == x);
            assert(less(a[0], a[k + 1]));
            assert(a.contains(x));
            let l = choose|l: int| 0 <= l < b.len() && b[l] == x;
            assert(l != 0);
            assert(b1[l - 1] == x);
        }
        assert forall|x: A| b1.contains(x) implies a1.contains(x) by {
            let k = choose|k: int| 0 <= k < b1.len() && b1[k] == x;
            assert(b[k + 1] == x);
            assert(less(b[0], b[k + 1]));
            assert(b.contains(x));
            let l = choose|l: int| 0 <= l < a.len() && a[l] == x;
            assert(l != 0);
            assert(a1[l - 1] == x);
        }
        assert forall|i: int, j: int| 0 <= i < j < a1.len() implies less(a1[i], a1[j]) by {
            assert(less(a[i + 1], a[j + 1]));
        }
        assert forall|i: int, j: int| 0 <= i < j < b1.len() implies less(b1[i], b1[j]) by {
            assert(less(b[i + 1], b[j + 1]));
        }
        lemma_sorted_unique(a1, b1, less);
        assert(a =~= b) by {
            assert forall|k: int| 0 <= k < a.len() implies a[k] == b[k] by {
                if k > 0 {
                    assert(a1[k - 1] == b1[k - 1]);
                }
            }
        }
    }
}

/// Membership in the completed lists of a merged face, by the parts it is made of.
proof fn lemma_list_parts(f: FaceView)
    ensures
        forall|n: Seq<char>| #[trigger] alias_list(f).contains(n) <==> (f.names.contains(n)
            || has_record_named(f, n) || f.family_names.contains(n)),
        forall|n: Seq<char>| #[trigger] family_list(f).contains(n) <==> (
        f.family_names.contains(n) || has_family_record(f, n)),
        forall|r: NameView| #[trigger] record_list(f).contains(r) <==> (f.records.contains(r)
            || (r == untyped_family(r.name) && f.family_names.contains(r.name)
            && !has_family_record(f, r.name)) || (r == untyped_internal(r.name)
            && f.names.contains(r.name) && !has_record_named(f, r.name)
            && !f.family_names.contains(r.name))),
{
    let rn = |r: NameView| record_name(r);
    let fam = |r: NameView| r.kind == NameKind::Family;
    let pf = |n: Seq<char>| !has_family_record(f, n);
    let pn = |n: Seq<char>| !has_record_named(f, n) && !f.family_names.contains(n);
    let uf = |n: Seq<char>| untyped_family(n);
    let ui = |n: Seq<char>| untyped_internal(n);
    lemma_keep_has(f.records, fam);
    lemma_keep_has(f.family_names, pf);
    lemma_keep_has(f.names, pn);
    assert forall|n: Seq<char>| #[trigger] alias_list(f).contains(n) <==> (f.names.contains(n)
        || has_record_named(f, n) || f.family_names.contains(n)) by {
        lemma_contains_concat(f.names + f.records.map_values(rn), f.family_names, n);
        lemma_contains_concat(f.names, f.records.map_values(rn), n);
        lemma_contains_map(f.records, rn, n);
        if has_record_named(f, n) {
            let i = choose|i: int| 0 <= i < f.records.len() && (#[trigger] f.records[i]).name == n;
            assert(rn(f.records[i]) == n);
        }
    }
    assert forall|n: Seq<char>| #[trigger] family_list(f).contains(n) <==> (
    f.family_names.contains(n) || has_family_record(f, n)) by {
        let kf = keep(f.records, fam);
        lemma_contains_concat(f.family_names, kf.map_values(rn), n);
        lemma_contains_map(kf, rn, n);
        if kf.map_values(rn).contains(n) {
            let k = choose|k: int| 0 <= k < kf.len() && #[trigger] rn(kf[k]) == n;
            let x = kf[k];
            assert(kf.contains(x));
            lemma_keep_has(f.records, fam);
            assert(f.records.contains(x));
            let i = choose|i: int| 0 <= i < f.records.len() && f.records[i] == x;
            assert(f.records[i].name == n);
        }
        if has_family_record(f, n) {
            let i = choose|i: int|
                0 <= i < f.records.len() && (#[trigger] f.records[i]).name == n && f.records[i].kind
                    == NameKind::Family;
            assert(fam(f.records[i]));
            assert(kf.contains(f.records[i]));
            let k = choose|k: int| 0 <= k < kf.len() && kf[k] == f.records[i];
            assert(rn(kf[k]) == n);
        }
    }
    assert forall|r: NameView| #[trigger] record_list(f).contains(r) <==> (f.records.contains(r)
        || (r == untyped_family(r.name) && f.family_names.contains(r.name)
        && !has_family_record(f, r.name)) || (r == untyped_internal(r.name)
        && f.names.contains(r.name) && !has_record_named(f, r.name)
        && !f.family_names.contains(r.name))) by {
        let kf = keep(f.family_names, pf);
        let kn = keep(f.names, pn);
        lemma_record_list_parts(f, r);
        lemma_contains_map(kf, uf, r);
        lemma_contains_map(kn, ui, r);
        if kf.map_values(uf).contains(r) {
            let k = choose|k: int| 0 <= k < kf.len() && #[trigger] uf(kf[k]) == r;
            assert(kf.contains(kf[k]));
        }
        if kn.map_values(ui).contains(r) {
            let k = choose|k: int| 0 <= k < kn.len() && #[trigger] ui(kn[k]) == r;
            assert(kn.contains(kn[k]));
        }
        if r == untyped_family(r.name) && f.family_names.contains(r.name) && !has_family_record(f, r.name) {
            let i = choose|i: int| 0 <= i < f.family_names.len() && f.family_names[i] == r.name;
            assert(pf(f.family_names[i]));
            assert(kf.contains(r.name));
            let k = choose|k: int| 0 <= k < kf.len() && kf[k] == r.name;
            assert(uf(kf[k]) == r);
        }
        if r == untyped_internal(r.name) && f.names.contains(r.name) && !has_record_named(f, r.name)
            && !f.family_names.contains(r.name) {
            let i = choose|i: int| 0 <= i < f.names.len() && f.names[i] == r.name;
            assert(pn(f.names[i]));
            assert(kn.contains(r.name));
            let k = choose|k: int| 0 <= k < kn.len() && kn[k] == r.name;
            assert(ui(kn[k]) == r);
        }
    }
}

/// Merged faces of one identity whose lists hold the same elements complete alike.
proof fn lemma_finalized_same(g1: FaceView, f1: FaceView, g2: FaceView, f2: FaceView)
    requires
        finalized(g1, f1),
        finalized(g2, f2),
        f1.path == f2.path,
        f1.face_index == f2.face_index,
        f1.weight == f2.weight,
        f1.italic == f2.italic,
        forall|n: Seq<char>| f1.names.contains(n) <==> f2.names.contains(n),
        forall|n: Seq<char>| f1.family_names.contains(n) <==> f2.family_names.contains(n),
        forall|r: NameView| f1.records.contains(r) <==> f2.records.contains(r),
    ensures
        g1 == g2,
{
    lemma_list_parts(f1);
    lemma_list_parts(f2);
    assert forall|n: Seq<char>| has_record_named(f1, n) <==> has_record_named(f2, n) by {
        if has_record_named(f1, n) {
            let i = choose|i: int| 0 <= i < f1.records.len() && (#[trigger] f1.records[i]).name == n;
            assert(f1.records.contains(f1.records[i]));
            let k = choose|k: int| 0 <= k < f2.records.len() && f2.records[k] == f1.records[i];
            assert(f2.records[k].name == n);
        }
        if has_record_named(f2, n) {
            let i = choose|i: int| 0 <= i < f2.records.len() && (#[trigger] f2.records[i]).name == n;
            assert(f2.records.contains(f2.records[i]));
            let k = choose|k: int| 0 <= k < f1.records.len() && f1.records[k] == f2.records[i];
            assert(f1.records[k].name == n);
        }
    }
    assert forall|n: Seq<char>| has_family_record(f1, n) <==> has_family_record(f2, n) by {
        if has_family_record(f1, n) {
            let i = choose|i: int|
                0 <= i < f1.records.len() && (#[trigger] f1.records[i]).name == n
                    && f1.records[i].kind == NameKind::Family;
            assert(f1.records.contains(f1.records[i]));
            let k = choose|k: int| 0 <= k < f2.records.len() && f2.records[k] == f1.records[i];
            assert(f2.records[k].name == n);
        }
        if has_family_record(f2, n) {
            let i = choose|i: int|
                0 <= i < f2.records.len() && (#[trigger] f2.records[i]).name == n
                    && f2.records[i].kind == NameKind::Family;
            assert(f2.records.contains(f2.records[i]));
            let k = choose|k: int| 0 <= k < f1.records.len() && f1.records[k] == f2.records[i];
            assert(f1.records[k].name == n);
        }
    }
    let sl = |a: Seq<char>, b: Seq<char>| seq_less(a, b);
    let rl = |a: NameView, b: NameView| record_less(a, b);
    assert forall|x: Seq<char>, y: Seq<char>| #[trigger] sl(x, y) implies !sl(y, x) by {
        if seq_less(y, x) {
            lemma_seq_less_transitive(x, y, x);
            lemma_seq_less_irreflexive(x);
        }
    }
    assert forall|x: NameView, y: NameView| #[trigger] rl(x, y) implies !rl(y, x) by {
        if record_less(y, x) {
            lemma_record_less_transitive(x, y, x);
            lemma_seq_less_irreflexive(x.name);
        }
    }
    assert forall|n: Seq<char>| g1.names.contains(n) <==> g2.names.contains(n) by {
        assert(alias_list(f1).contains(n) <==> alias_list(f2).contains(n));
    }
    assert forall|n: Seq<char>| g1.family_names.contains(n) <==> g2.family_names.contains(n) by {
        assert(family_list(f1).contains(n) <==> family_list(f2).contains(n));
    }
    assert forall|r: NameView| g1.records.contains(r) <==> g2.records.contains(r) by {
        assert(record_list(f1).contains(r) <==> record_list(f2).contains(r));
    }
    lemma_sorted_unique(g1.names, g2.names, sl);
    lemma_sorted_unique(g1.family_names, g2.family_names, sl);
    lemma_sorted_unique(g1.records, g2.records, rl);
}

/// Inputs with the same faces give the same class contents to faces of one identity.
proof fn lemma_classes_agree<A>(
    fa: Seq<FaceView>,
    fb: Seq<FaceView>,
    ea: FaceView,
    eb: FaceView,
    proj: spec_fn(FaceView) -> Seq<A>,
    y: A,
)
    requires
        forall|x: FaceView| fa.contains(x) <==> fb.contains(x),
        same_id(ea, eb),
    ensures
        class_of(fa, ea, proj).contains(y) <==> class_of(fb, eb, proj).contains(y),
{
    lemma_class_members(fa, ea, proj, y);
    lemma_class_members(fb, eb, proj, y);
    if class_of(fa, ea, proj).contains(y) {
        let i = choose|i: int| 0 <= i < fa.len() && same_id(#[trigger] fa[i], ea) && proj(fa[i]).contains(y);
        assert(fa.contains(fa[i]));
        let l = choose|l: int| 0 <= l < fb.len() && fb[l] == fa[i];
        assert(same_id(fb[l], eb) && proj(fb[l]).contains(y));
    }
    if class_of(fb, eb, proj).contains(y) {
        let i = choose|i: int| 0 <= i < fb.len() && same_id(#[trigger] fb[i], eb) && proj(fb[i]).contains(y);
        assert(fb.contains(fb[i]));
        let l = choose|l: int| 0 <= l < fa.len() && fa[l] == fb[i];
        assert(same_id(fa[l], ea) && proj(fa[l]).contains(y));
    }
}

/// Every face of the merge of `fa` has a face of the same identity in the merge of `fb`.
proof fn lemma_entries_agree(fa: Seq<FaceView>, fb: Seq<FaceView>, ma: Seq<FaceView>, mb: Seq<FaceView>)
    requires
        forall|x: FaceView| fa.contains(x) <==> fb.contains(x),
        forall|k: int| 0 <= k < ma.len() ==> has_source(fa, #[trigger] ma[k]),
        forall|i: int| 0 <= i < fb.len() ==> has_entry(mb, #[trigger] fb[i]),
    ensures
        forall|k: int| 0 <= k < ma.len() ==> has_entry(mb, #[trigger] ma[k]),
{
    assert forall|k: int| 0 <= k < ma.len() implies has_entry(mb, #[trigger] ma[k]) by {
        assert(has_source(fa, ma[k]));
        let i = choose|i: int| first_with(fa, i, ma[k]);
        assert(fa.contains(fa[i]));
        let l = choose|l: int| 0 <= l < fb.len() && fb[l] == fa[i];
        assert(has_entry(mb, fb[l]));
        let q = choose|q: int| 0 <= q < mb.len() && same_id(#[trigger] mb[q], fb[l]);
        assert(same_id(mb[q], ma[k]));
    }
}

/// Faces at one place of the two merges, of one identity, complete alike.
proof fn lemma_same_place(
    fa: Seq<FaceView>,
    fb: Seq<FaceView>,
    ea: FaceView,
    eb: FaceView,
    ga: FaceView,
    gb: FaceView,
)
    requires
        forall|x: FaceView| fa.contains(x) <==> fb.contains(x),
        identities_agree(fa),
        same_id(ea, eb),
        has_source(fa, ea),
        has_source(fb, eb),
        ea.names == class_of(fa, ea, names_proj()),
        ea.family_names == class_of(fa, ea, families_proj()),
        ea.records == class_of(fa, ea, records_proj()),
        eb.names == class_of(fb, eb, names_proj()),
        eb.family_names == class_of(fb, eb, families_proj()),
        eb.records == class_of(fb, eb, records_proj()),
        finalized(ga, ea),
        finalized(gb, eb),
    ensures
        ga == gb,
{
    assert(same_id(ea, eb));
    assert(has_source(fa, ea));
    let i = choose|i: int| first_with(fa, i, ea);
    assert(has_source(fb, eb));
    let l = choose|l: int| first_with(fb, l, eb);
    assert(fa.contains(fa[i]));
    assert(fb.contains(fb[l]));
    assert(fa.contains(fb[l]));
    assert(same_id(fa[i], fb[l]));
    assert forall|n: Seq<char>| ea.names.contains(n) <==> eb.names.contains(n) by {
        lemma_classes_agree(fa, fb, ea, eb, names_proj(), n);
    }
    assert forall|n: Seq<char>| ea.family_names.contains(n) <==> eb.family_names.contains(n) by {
        lemma_classes_agree(fa, fb, ea, eb, families_proj(), n);
    }
    assert forall|r: NameView| ea.records.contains(r) <==> eb.records.contains(r) by {
        lemma_classes_agree(fa, fb, ea, eb, records_proj(), r);
    }
    lemma_finalized_same(ga, ea, gb, eb);
}

/// The paths of inputs holding the same faces lie among the first list's paths, and the
/// second list's faces of one identity agree too.
proof fn lemma_inputs_ordered(fa: Seq<FaceView>, fb: Seq<FaceView>, ps: Seq<Seq<char>>)
    requires
        forall|x: FaceView| fa.contains(x) <==> fb.contains(x),
        identities_agree(fa),
        ps == fa.map_values(|x: FaceView| x.path),
    ensures
        forall|i: int| 0 <= i < fa.len() ==> ps.contains(#[trigger] fa[i].path),
        forall|i: int| 0 <= i < fb.len() ==> ps.contains(#[trigger] fb[i].path),
        identities_agree(fb),
{
    assert forall|i: int| 0 <= i < fa.len() implies ps.contains(#[trigger] fa[i].path) by {
        assert(ps[i] == fa[i].path);
    }
    assert forall|i: int| 0 <= i < fb.len() implies ps.contains(#[trigger] fb[i].path) by {
        assert(fb.contains(fb[i]));
        let j = choose|j: int| 0 <= j < fa.len() && fa[j] == fb[i];
        assert(ps[j] == fb[i].path);
    }
    assert forall|x: FaceView, y: FaceView|
        fb.contains(x) && fb.contains(y) && #[trigger] same_id(x, y) implies x.weight == y.weight
            && x.italic == y.italic by {
        assert(fa.contains(x) && fa.contains(y));
    }
}

proof fn lemma_merged_all(ps: Seq<Seq<char>>, all: Seq<FaceView>)
    requires
        paths_ordered(ps),
        forall|i: int| 0 <= i < all.len() ==> ps.contains(#[trigger] all[i].path),
    ensures
        merged_from(merge_faces(all), all, ps),
{
    lemma_merged(ps, all, all.len() as int);
    assert(all.take(all.len() as int) =~= all);
}

/// Merges of inputs that hold the same faces complete alike.
proof fn lemma_merges_agree(
    ps: Seq<Seq<char>>,
    fa: Seq<FaceView>,
    fb: Seq<FaceView>,
    ma: Seq<FaceView>,
    mb: Seq<FaceView>,
    ia: Seq<FaceView>,
    ib: Seq<FaceView>,
)
    requires
        paths_ordered(ps),
        forall|x: FaceView| fa.contains(x) <==> fb.contains(x),
        identities_agree(fa),
        merged_from(ma, fa, ps),
        merged_from(mb, fb, ps),
        ia.len() == ma.len(),
        forall|k: int| 0 <= k < ia.len() ==> finalized(#[trigger] ia[k], ma[k]),
        ib.len() == mb.len(),
        forall|k: int| 0 <= k < ib.len() ==> finalized(#[trigger] ib[k], mb[k]),
    ensures
        ia == ib,
{
    lemma_merged_parts(ma, fa, ps);
    lemma_merged_parts(mb, fb, ps);
    lemma_entries_agree(fa, fb, ma, mb);
    lemma_entries_agree(fb, fa, mb, ma);
    lemma_sorted_identities(ps, ma, mb);
    assert forall|k: int| 0 <= k < ia.len() implies ia[k] == ib[k] by {
        assert(same_id(ma[k], mb[k]));
        assert(has_source(fa, ma[k]));
        assert(has_source(fb, mb[k]));
        lemma_same_place(fa, fb, ma[k], mb[k], ia[k], ib[k]);
    }
    assert(ia =~= ib);
}

/// The index depends on the set of its input faces alone: two lists that hold the same
/// faces, in any order and with any repeats, give the same index, and so the same
/// resolution of every list of requests under every options. Faces of one path and
/// collection index must agree on weight and italic state (otherwise the first one's are
/// kept), and no two different path strings among the inputs may name the same path
/// (otherwise the first string is kept); path order on the inputs' paths is taken with the
/// total-order properties that `Ord` documents.
#[verifier::spinoff_prover]
pub proof fn law_index_ignores_input_order(
    fa: Seq<FaceView>,
    fb: Seq<FaceView>,
    ia: Seq<FaceView>,
    ib: Seq<FaceView>,
)
    requires
        forall|x: FaceView| fa.contains(x) <==> fb.contains(x),
        identities_agree(fa),
        paths_ordered(fa.map_values(|x: FaceView| x.path)),
        ia.len() == merge_faces(fa).len(),
        forall|k: int| 0 <= k < ia.len() ==> finalized(#[trigger] ia[k], merge_faces(fa)[k]),
        ib.len() == merge_faces(fb).len(),
        forall|k: int| 0 <= k < ib.len() ==> finalized(#[trigger] ib[k], merge_faces(fb)[k]),
    ensures
        ia == ib,
        forall|refs: Seq<RefView>, o: ResolveOptions| resolve_all(ia, refs, o) == resolve_all(ib, refs, o),
{
    let ps = fa.map_values(|x: FaceView| x.path);
    lemma_inputs_ordered(fa, fb, ps);
    lemma_merged_all(ps, fa);
    lemma_merged_all(ps, fb);
    lemma_merges_agree(ps, fa, fb, merge_faces(fa), merge_faces(fb), ia, ib);
}

/// The completed faces of a merge keep its identities and first attributes.
#[verifier::spinoff_prover]
proof fn lemma_first_attributes(ps: Seq<Seq<char>>, fs: Seq<FaceView>, m: Seq<FaceView>, idx: Seq<FaceView>)
    requires
        paths_ordered(ps),
        merged_from(m, fs, ps),
        idx.len() == m.len(),
        forall|k: int| 0 <= k < idx.len() ==> finalized(#[trigger] idx[k], m[k]),
    ensures
        faces_sorted(idx),
        forall|k: int, l: int| 0 <= k < idx.len() && 0 <= l < idx.len() && k != l ==> !same_id(
            #[trigger] idx[k],
            #[trigger] idx[l],
        ),
        forall|i: int| 0 <= i < fs.len() ==> has_entry(idx, #[trigger] fs[i]),
        forall|k: int| 0 <= k < idx.len() ==> has_source(fs, #[trigger] idx[k]),
{
    lemma_merged_parts(m, fs, ps);
    assert forall|a: int, b: int| 0 <= a < b < idx.len() implies face_key_less(
        #[trigger] idx[a],
        #[trigger] idx[b],
    ) by {
        assert(finalized(idx[a], m[a]) && finalized(idx[b], m[b]));
        assert(face_key_less(m[a], m[b]));
    }
    assert forall|k: int, l: int| 0 <= k < idx.len() && 0 <= l < idx.len() && k != l implies !same_id(
        #[trigger] idx[k],
        #[trigger] idx[l],
    ) by {
        assert(ps.contains(idx[k].path) && ps.contains(idx[l].path));
        lemma_face_order(ps, idx[k], idx[k], idx[k]);
        if k < l {
            assert(face_key_less(idx[k], idx[l]));
        } else {
            assert(face_key_less(idx[l], idx[k]));
        }
    }
    assert forall|i: int| 0 <= i < fs.len() implies has_entry(idx, #[trigger] fs[i]) by {
        assert(has_entry(m, fs[i]));
        let k = choose|k: int| 0 <= k < m.len() && same_id(#[trigger] m[k], fs[i]);
        assert(finalized(idx[k], m[k]));
        assert(same_id(idx[k], fs[i]));
    }
    assert forall|k: int| 0 <= k < idx.len() implies has_source(fs, #[trigger] idx[k]) by {
        assert(has_source(fs, m[k]));
        let i = choose|i: int| first_with(fs, i, m[k]);
        assert(finalized(idx[k], m[k]));
        assert(first_with(fs, i, idx[k]));
    }
}

/// One indexed face per identity: the faces are strictly ascending by path and collection
/// index, so no two share an identity; every input's identity has an indexed face; and
/// each indexed face has the weight and italic state of the first input with its path and
/// collection index. Stated for inputs on whose paths path order has the total-order
/// properties that `Ord` documents and where no two different strings name the same path
/// (otherwise the first of them is the one kept).
#[verifier::spinoff_prover]
pub proof fn law_index_keeps_first_attributes(fs: Seq<FaceView>, idx: Seq<FaceView>)
    requires
        paths_ordered(fs.map_values(|x: FaceView| x.path)),
        idx.len() == merge_faces(fs).len(),
        forall|k: int| 0 <= k < idx.len() ==> finalized(#[trigger] idx[k], merge_faces(fs)[k]),
    ensures
        faces_sorted(idx),
        forall|k: int, l: int| 0 <= k < idx.len() && 0 <= l < idx.len() && k != l ==> !same_id(
            #[trigger] idx[k],
            #[trigger] idx[l],
        ),
        forall|i: int| 0 <= i < fs.len() ==> has_entry(idx, #[trigger] fs[i]),
        forall|k: int| 0 <= k < idx.len() ==> has_source(fs, #[trigger] idx[k]),
{
    let ps = fs.map_values(|x: FaceView| x.path);
    assert forall|i: int| 0 <= i < fs.len() implies ps.contains(#[trigger] fs[i].path) by {
        assert(ps[i] == fs[i].path);
    }
    lemma_merged_all(ps, fs);
    lemma_first_attributes(ps, fs, merge_faces(fs), idx);
}

} // verus!
