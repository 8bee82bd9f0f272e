//! Properties that hold across the library's operations: how resolution partitions the
//! requests, what the evidence of a candidate says, when synthesis may be reported, and
//! how coverage accounts for every candidate.
use crate::coverage::{
    check_of, checked_uses, missing_of, CheckView, CoverageUnavailableReason, FileView, Outcome, UncheckView, buckets,
    candidate_pairs, coverage_of, no_candidate, outcomes,
};
use crate::fonts::{FaceView, NameKind, NameView};
use crate::index::{
    absorb, alias_list, face_key_less, face_pos, faces_sorted, family_list, finalized, keep,
    merge_face, merge_faces, record_list, same_face,
    untyped_family, untyped_internal,
};
use crate::resolve::{
    MissingReason,
    ResolutionView, ResolveMode, ResolveOptions, SelectionMethod, WeightMatching,
    choose_faces, method_of, mode_options, p_ambiguous, p_missing, p_resolved, resolution,
    resolve_all,
};
use crate::subtitle::{CharUse, RefView};
use crate::summary::{char_in, merged_usages, with_candidate, without_candidate};
use crate::text::normalize;
use vstd::prelude::*;

verus! {

/// Every kept element satisfies the filter and any property that all elements have.
pub proof fn lemma_keep_elements<A>(s: Seq<A>, p: spec_fn(A) -> bool, q: spec_fn(A) -> bool)
    requires
        forall|i: int| 0 <= i < s.len() ==> q(#[trigger] s[i]),
    ensures
        keep(s, p).len() <= s.len(),
        forall|i: int| 0 <= i < keep(s, p).len() ==> p(#[trigger] keep(s, p)[i]) && q(keep(s, p)[i]),
    decreases s.len(),
{
    if s.len() > 0 {
        assert forall|i: int| 0 <= i < s.drop_last().len() implies q(#[trigger] s.drop_last()[i]) by {
            assert(s.drop_last()[i] == s[i]);
        }
        lemma_keep_elements(s.drop_last(), p, q);
        assert(q(s[s.len() - 1]));
    }
}

/// Requests by candidate count: each request lands in exactly one of the resolved (one
/// candidate), missing (none, with a reason) and ambiguous (two or more) buckets.
pub proof fn law_resolution_partitions_requests(
    faces: Seq<FaceView>,
    refs: Seq<RefView>,
    o: ResolveOptions,
)
    ensures
        ({
            let all = resolve_all(faces, refs, o);
            &&& keep(all, p_resolved()).len() + keep(all, p_missing()).len() + keep(
                all,
                p_ambiguous(),
            ).len() == refs.len()
            &&& forall|i: int|
                0 <= i < keep(all, p_resolved()).len() ==> (#[trigger] keep(all, p_resolved())[i]).candidates.len()
                    == 1 && keep(all, p_resolved())[i].missing_reason is None
            &&& forall|i: int|
                0 <= i < keep(all, p_missing()).len() ==> (#[trigger] keep(all, p_missing())[i]).candidates.len()
                    == 0 && keep(all, p_missing())[i].missing_reason is Some
            &&& forall|i: int|
                0 <= i < keep(all, p_ambiguous()).len() ==> (#[trigger] keep(
                    all,
                    p_ambiguous(),
                )[i]).candidates.len() >= 2 && keep(all, p_ambiguous())[i].missing_reason is None
        }),
{
    let all = resolve_all(faces, refs, o);
    let q = |x: ResolutionView| (x.candidates.len() == 0) == (x.missing_reason is Some);
    assert forall|i: int| 0 <= i < all.len() implies q(#[trigger] all[i]) by {
        assert(all[i] == resolution(faces, refs[i], o));
    }
    lemma_keep_elements(all, p_resolved(), q);
    lemma_keep_elements(all, p_missing(), q);
    lemma_keep_elements(all, p_ambiguous(), q);
    lemma_keep_three(all);
}

proof fn lemma_keep_three(s: Seq<ResolutionView>)
    ensures
        keep(s, p_resolved()).len() + keep(s, p_missing()).len() + keep(s, p_ambiguous()).len()
            == s.len(),
    decreases s.len(),
{
    if s.len() > 0 {
        lemma_keep_three(s.drop_last());
    }
}

/// The evidence of a resolution follows its candidates one for one, with the same path
/// and collection index. Synthetic bold is reported only when bold synthesis is permitted,
/// for a 700 request served by a 400 face; synthetic italic only when italic synthesis is
/// permitted, for an italic request served by an upright face. Synthesis and nearest-weight
/// selection happen only when the options permit them.
pub proof fn law_evidence_follows_candidates(faces: Seq<FaceView>, r: RefView, o: ResolveOptions)
    ensures
        ({
            let x = resolution(faces, r, o);
            &&& x.matches.len() == x.candidates.len()
            &&& forall|i: int|
                0 <= i < x.matches.len() ==> {
                    let e = #[trigger] x.matches[i];
                    let c = x.candidates[i];
                    &&& e.path == c.path
                    &&& e.face_index == c.face_index
                    &&& e.synthetic_bold ==> o.synthesis.bold && r.weight == 700 && c.weight == 400
                    &&& e.synthetic_italic ==> o.synthesis.italic && r.italic && !c.italic
                    &&& e.selection_method == SelectionMethod::FamilySynthesis ==> (
                    o.synthesis.bold || o.synthesis.italic)
                    &&& e.selection_method == SelectionMethod::FamilyNearest ==> o.weight_matching
                        == WeightMatching::Nearest
                }
        }),
{
    let key = normalize(r.name);
    let m0 = method_of(faces, key);
    assert(m0 != SelectionMethod::FamilySynthesis && m0 != SelectionMethod::FamilyNearest);
}

/// A name that selects faces by something more specific than a generic family (a
/// PostScript or full name, a legacy variant family, an untyped alias) yields the same
/// candidates whatever weight and italic state is requested and whatever the options:
/// the faces keep their native design.
pub proof fn law_specific_names_keep_native_faces(
    faces: Seq<FaceView>,
    r1: RefView,
    r2: RefView,
    o1: ResolveOptions,
    o2: ResolveOptions,
)
    requires
        normalize(r1.name) == normalize(r2.name),
        method_of(faces, normalize(r1.name)) != SelectionMethod::FamilyExact,
    ensures
        choose_faces(faces, r1, o1) == choose_faces(faces, r2, o2),
{
    let key = normalize(r1.name);
    let m0 = method_of(faces, key);
    assert(crate::resolve::p_initial(m0, key, r1) =~= crate::resolve::p_initial(m0, key, r2));
}

/// The strict preset is the default options: exact weights and no synthesis.
pub proof fn law_strict_mode_is_default_options()
    ensures
        mode_options(ResolveMode::Strict).weight_matching == WeightMatching::Exact,
        !mode_options(ResolveMode::Strict).synthesis.bold,
        !mode_options(ResolveMode::Strict).synthesis.italic,
        mode_options(ResolveMode::AllowStyleSynthesis).synthesis.bold,
        mode_options(ResolveMode::AllowStyleSynthesis).synthesis.italic,
{
}

proof fn lemma_bucket_counts(os: Seq<Outcome>)
    ensures
        ({
            let b = buckets(os);
            &&& b.0.len() + b.1.len() + b.2.len() == os.len()
            &&& forall|i: int| 0 <= i < b.0.len() ==> (#[trigger] b.0[i]).missing.len() == 0
            &&& forall|i: int| 0 <= i < b.1.len() ==> (#[trigger] b.1[i]).missing.len() > 0
            &&& forall|i: int|
                0 <= i < b.2.len() ==> exists|k: int|
                    0 <= k < os.len() && os[k] == Outcome::Unchecked(#[trigger] b.2[i])
        }),
    decreases os.len(),
{
    if os.len() > 0 {
        let b0 = buckets(os.drop_last());
        lemma_bucket_counts(os.drop_last());
        let b = buckets(os);
        assert forall|i: int| 0 <= i < b.2.len() implies exists|k: int|
            0 <= k < os.len() && os[k] == Outcome::Unchecked(#[trigger] b.2[i]) by {
            if i < b0.2.len() {
                assert(b.2[i] == b0.2[i]);
                let k = choose|k: int|
                    0 <= k < os.drop_last().len() && os.drop_last()[k] == Outcome::Unchecked(
                        #[trigger] b0.2[i],
                    );
                assert(os[k] == os.drop_last()[k]);
            } else {
                assert(os[os.len() - 1] == Outcome::Unchecked(b.2[i]));
            }
        }
    }
}

/// Coverage accounts for every candidate exactly once: complete, incomplete and
/// candidate-bearing uncheckable entries together are as many as the candidates of the
/// resolved and ambiguous requests, and each missing request adds one candidate-less
/// entry. Complete checks miss nothing, incomplete ones miss something, and only
/// candidate-less entries have no candidate for a reason of their own.
pub proof fn law_coverage_accounts_for_candidates(
    resolved: Seq<ResolutionView>,
    ambiguous: Seq<ResolutionView>,
    missing: Seq<ResolutionView>,
    files: Seq<FileView>,
)
    ensures
        ({
            let cv = coverage_of(resolved, ambiguous, missing, files);
            &&& cv.complete.len() + cv.incomplete.len() + with_candidate(cv.uncheckable).len()
                == candidate_pairs(resolved + ambiguous).len()
            &&& without_candidate(cv.uncheckable).len() == missing.len()
            &&& forall|i: int| 0 <= i < cv.complete.len() ==> (#[trigger] cv.complete[i]).missing.len() == 0
            &&& forall|i: int|
                0 <= i < cv.incomplete.len() ==> (#[trigger] cv.incomplete[i]).missing.len() > 0
            &&& forall|i: int|
                0 <= i < cv.uncheckable.len() ==> ((#[trigger] cv.uncheckable[i]).candidate is None
                    <==> cv.uncheckable[i].reason == CoverageUnavailableReason::NoCandidate)
        }),
{
    let os = outcomes(resolved + ambiguous, files);
    let b = buckets(os);
    let tail = missing.map_values(|r: ResolutionView| no_candidate(r));
    let cv = coverage_of(resolved, ambiguous, missing, files);
    lemma_bucket_counts(os);
    assert forall|i: int| 0 <= i < b.2.len() implies (#[trigger] b.2[i]).candidate is Some
        && b.2[i].reason != CoverageUnavailableReason::NoCandidate by {
        let k = choose|k: int| 0 <= k < os.len() && os[k] == Outcome::Unchecked(#[trigger] b.2[i]);
        let p = candidate_pairs(resolved + ambiguous)[k];
        assert(os[k] == crate::coverage::candidate_outcome(p.0, p.1, files));
    }
    assert(cv.uncheckable == b.2 + tail);
    lemma_keep_concat(b.2, tail);
    assert(with_candidate(b.2) =~= b.2) by {
        lemma_keep_everything(b.2, |u: UncheckView| u.candidate is Some);
    }
    assert(without_candidate(tail) =~= tail) by {
        lemma_keep_everything(tail, |u: UncheckView| u.candidate is None);
    }
    assert(with_candidate(tail).len() == 0) by {
        lemma_keep_nothing(tail, |u: UncheckView| u.candidate is Some);
    }
    assert(without_candidate(b.2).len() == 0) by {
        lemma_keep_nothing(b.2, |u: UncheckView| u.candidate is None);
    }
    assert forall|i: int| 0 <= i < cv.uncheckable.len() implies ((
    #[trigger] cv.uncheckable[i]).candidate is None <==> cv.uncheckable[i].reason
        == CoverageUnavailableReason::NoCandidate) by {
        if i >= b.2.len() {
            assert(cv.uncheckable[i] == tail[i - b.2.len()]);
        }
    }
}

proof fn lemma_keep_concat(a: Seq<UncheckView>, b: Seq<UncheckView>)
    ensures
        with_candidate(a + b) == with_candidate(a) + with_candidate(b),
        without_candidate(a + b) == without_candidate(a) + without_candidate(b),
    decreases b.len(),
{
    if b.len() == 0 {
        assert(a + b =~= a);
        assert(with_candidate(a) + with_candidate(b) =~= with_candidate(a));
        assert(without_candidate(a) + without_candidate(b) =~= without_candidate(a));
    } else {
        lemma_keep_concat(a, b.drop_last());
        assert((a + b).drop_last() =~= a + b.drop_last());
        assert((a + b).last() == b.last());
        assert(with_candidate(a) + with_candidate(b.drop_last()).push(b.last()) =~= (
        with_candidate(a) + with_candidate(b.drop_last())).push(b.last()));
        assert(without_candidate(a) + without_candidate(b.drop_last()).push(b.last()) =~= (
        without_candidate(a) + without_candidate(b.drop_last())).push(b.last()));
    }
}

proof fn lemma_keep_everything<A>(s: Seq<A>, p: spec_fn(A) -> bool)
    requires
        forall|i: int| 0 <= i < s.len() ==> p(#[trigger] s[i]),
    ensures
        keep(s, p) == s,
    decreases s.len(),
{
    if s.len() > 0 {
        assert forall|i: int| 0 <= i < s.drop_last().len() implies p(#[trigger] s.drop_last()[i]) by {
            assert(s.drop_last()[i] == s[i]);
        }
        lemma_keep_everything(s.drop_last(), p);
        assert(p(s[s.len() - 1]));
        assert(s.drop_last().push(s.last()) =~= s);
    }
}

proof fn lemma_keep_nothing<A>(s: Seq<A>, p: spec_fn(A) -> bool)
    requires
        forall|i: int| 0 <= i < s.len() ==> !p(#[trigger] s[i]),
    ensures
        keep(s, p).len() == 0,
    decreases s.len(),
{
    if s.len() > 0 {
        assert forall|i: int| 0 <= i < s.drop_last().len() implies !p(#[trigger] s.drop_last()[i]) by {
            assert(s.drop_last()[i] == s[i]);
        }
        lemma_keep_nothing(s.drop_last(), p);
        assert(!p(s[s.len() - 1]));
    }
}

proof fn lemma_with_without(us: Seq<UncheckView>)
    ensures
        with_candidate(us).len() + without_candidate(us).len() == us.len(),
    decreases us.len(),
{
    if us.len() > 0 {
        lemma_with_without(us.drop_last());
    }
}

/// A report is complete exactly when its summary counts no incomplete, uncheckable or
/// unresolved entry.
pub proof fn law_complete_means_nothing_counted(incomplete: Seq<CheckView>, uncheckable: Seq<UncheckView>)
    ensures
        (incomplete.len() == 0 && uncheckable.len() == 0) <==> (incomplete.len() == 0
            && with_candidate(uncheckable).len() == 0 && without_candidate(uncheckable).len()
            == 0),
{
    lemma_with_without(uncheckable);
}

/// Usages merged by character hold one entry per distinct character, so there are as
/// many merged entries as the summary counts distinct missing characters.
pub proof fn law_merged_entries_are_distinct_characters(r: Seq<CharUse>, us: Seq<CharUse>)
    requires
        merged_usages(r, us),
    ensures
        r.len() == us.map_values(|u: CharUse| u.character).to_set().len(),
{
    let rc = r.map_values(|u: CharUse| u.character);
    let uc = us.map_values(|u: CharUse| u.character);
    assert(rc.no_duplicates()) by {
        assert forall|i: int, j: int| 0 <= i < rc.len() && 0 <= j < rc.len() && i != j implies rc[i]
            != rc[j] by {
            if i < j {
                assert((r[i].character as u32) < (r[j].character as u32));
            } else {
                assert((r[j].character as u32) < (r[i].character as u32));
            }
        }
    }
    assert(rc.to_set() =~= uc.to_set()) by {
        assert forall|c: char| rc.to_set().contains(c) <==> uc.to_set().contains(c) by {
            assert(char_in(r, c) <==> char_in(us, c));
            if rc.contains(c) {
                let i = choose|i: int| 0 <= i < rc.len() && rc[i] == c;
                assert(r[i].character == c);
                assert(char_in(r, c));
                let k = choose|k: int| 0 <= k < us.len() && (#[trigger] us[k]).character == c;
                assert(uc[k] == c);
            }
            if uc.contains(c) {
                let k = choose|k: int| 0 <= k < uc.len() && uc[k] == c;
                assert(us[k].character == c);
                assert(char_in(us, c));
                let i = choose|i: int| 0 <= i < r.len() && (#[trigger] r[i]).character == c;
                assert(rc[i] == c);
            }
        }
    }
    rc.unique_seq_to_set();
}

proof fn lemma_keep_sorted(s: Seq<FaceView>, p: spec_fn(FaceView) -> bool)
    requires
        faces_sorted(s),
    ensures
        faces_sorted(keep(s, p)),
    decreases s.len(),
{
    if s.len() > 0 {
        let init = s.drop_last();
        assert(faces_sorted(init)) by {
            assert forall|i: int, j: int| 0 <= i < j < init.len() implies face_key_less(
                #[trigger] init[i],
                #[trigger] init[j],
            ) by {
                assert(init[i] == s[i] && init[j] == s[j]);
            }
        }
        lemma_keep_sorted(init, p);
        let last = s.last();
        let q = |x: FaceView| face_key_less(x, last);
        assert forall|i: int| 0 <= i < init.len() implies q(#[trigger] init[i]) by {
            assert(init[i] == s[i]);
            assert(face_key_less(s[i], s[s.len() - 1]));
        }
        lemma_keep_elements(init, p, q);
        let k = keep(s, p);
        let k0 = keep(init, p);
        if p(last) {
            assert(k == k0.push(last));
            assert forall|i: int, j: int| 0 <= i < j < k.len() implies face_key_less(
                #[trigger] k[i],
                #[trigger] k[j],
            ) by {
                if j < k0.len() {
                    assert(k[i] == k0[i] && k[j] == k0[j]);
                } else {
                    assert(k[i] == k0[i]);
                    assert(q(k0[i]));
                }
            }
        }
    }
}

/// Candidates come in index order, which is strictly ascending by path and then
/// collection index.
pub proof fn law_candidates_in_index_order(faces: Seq<FaceView>, r: RefView, o: ResolveOptions)
    requires
        faces_sorted(faces),
    ensures
        faces_sorted(resolution(faces, r, o).candidates),
{
    let key = normalize(r.name);
    let m0 = method_of(faces, key);
    let eligible = keep(faces, crate::resolve::p_same_slant(key, r));
    let upright = keep(faces, crate::resolve::p_upright(key));
    lemma_keep_sorted(faces, crate::resolve::p_initial(m0, key, r));
    lemma_keep_sorted(
        faces,
        crate::resolve::p_same_slant_at(key, r, crate::resolve::min_dist(eligible, r.weight)),
    );
    lemma_keep_sorted(faces, crate::resolve::p_same_slant_bold(key, r));
    lemma_keep_sorted(faces, crate::resolve::p_upright_exact(key, r));
    lemma_keep_sorted(
        faces,
        crate::resolve::p_upright_at(key, r, crate::resolve::min_dist(upright, r.weight)),
    );
    lemma_keep_sorted(faces, crate::resolve::p_upright_bold(key, r));
}

pub(crate) proof fn lemma_kept<A>(s: Seq<A>, p: spec_fn(A) -> bool)
    ensures
        forall|i: int| 0 <= i < keep(s, p).len() ==> p(#[trigger] keep(s, p)[i]),
{
    lemma_keep_elements(s, p, |x: A| true);
}

/// A generic family keeps the weight and slant policy: every candidate belongs to the
/// family; it has the requested slant unless italic synthesis is permitted and an upright
/// face serves an italic request (an italic face never serves an upright request); with
/// exact weight matching it has the requested weight unless bold synthesis is permitted
/// and a 400 face serves a 700 request.
pub proof fn law_generic_family_policy(faces: Seq<FaceView>, r: RefView, o: ResolveOptions)
    requires
        method_of(faces, normalize(r.name)) == SelectionMethod::FamilyExact,
    ensures
        forall|i: int|
            0 <= i < resolution(faces, r, o).candidates.len() ==> {
                let c = #[trigger] resolution(faces, r, o).candidates[i];
                &&& crate::resolve::in_families(c, normalize(r.name))
                &&& c.italic == r.italic || (o.synthesis.italic && r.italic && !c.italic)
                &&& o.weight_matching == WeightMatching::Exact ==> (c.weight == r.weight || (
                o.synthesis.bold && r.weight == 700 && c.weight == 400))
            },
{
    let key = normalize(r.name);
    let m0 = method_of(faces, key);
    let eligible = keep(faces, crate::resolve::p_same_slant(key, r));
    let upright = keep(faces, crate::resolve::p_upright(key));
    lemma_kept(faces, crate::resolve::p_initial(m0, key, r));
    lemma_kept(
        faces,
        crate::resolve::p_same_slant_at(key, r, crate::resolve::min_dist(eligible, r.weight)),
    );
    lemma_kept(faces, crate::resolve::p_same_slant_bold(key, r));
    lemma_kept(faces, crate::resolve::p_upright_exact(key, r));
    lemma_kept(
        faces,
        crate::resolve::p_upright_at(key, r, crate::resolve::min_dist(upright, r.weight)),
    );
    lemma_kept(faces, crate::resolve::p_upright_bold(key, r));
}

pub open spec fn chars_ascending(s: Seq<CharUse>) -> bool {
    forall|i: int, j: int| 0 <= i < j < s.len() ==> (#[trigger] s[i]).character < (#[trigger] s[j]).character
}

proof fn lemma_missing_of_members(s: Seq<CharUse>, g: Seq<Option<u16>>)
    ensures
        forall|i: int| 0 <= i < missing_of(s, g).len() ==> s.contains(#[trigger] missing_of(s, g)[i]),
    decreases s.len(),
{
    if s.len() > 0 {
        let init = s.drop_last();
        let gi = g.take(s.len() - 1);
        lemma_missing_of_members(init, gi);
        let m = missing_of(s, g);
        let m0 = missing_of(init, gi);
        assert forall|i: int| 0 <= i < m.len() implies s.contains(#[trigger] m[i]) by {
            if i < m0.len() {
                assert(m[i] == m0[i]);
                assert(init.contains(m0[i]));
                let k = choose|k: int| 0 <= k < init.len() && init[k] == m0[i];
                assert(s[k] == init[k]);
            } else {
                assert(m[i] == s[s.len() - 1]);
            }
        }
    }
}

proof fn lemma_missing_of_ascending(s: Seq<CharUse>, g: Seq<Option<u16>>)
    requires
        chars_ascending(s),
    ensures
        chars_ascending(missing_of(s, g)),
    decreases s.len(),
{
    if s.len() > 0 {
        let init = s.drop_last();
        let gi = g.take(s.len() - 1);
        assert(chars_ascending(init)) by {
            assert forall|i: int, j: int| 0 <= i < j < init.len() implies (
            #[trigger] init[i]).character < (#[trigger] init[j]).character by {
                assert(init[i] == s[i] && init[j] == s[j]);
            }
        }
        lemma_missing_of_ascending(init, gi);
        lemma_missing_of_members(init, gi);
        let m = missing_of(s, g);
        let m0 = missing_of(init, gi);
        assert forall|i: int, j: int| 0 <= i < j < m.len() implies (#[trigger] m[i]).character
            < (#[trigger] m[j]).character by {
            if j < m0.len() {
                assert(m[i] == m0[i] && m[j] == m0[j]);
            } else {
                assert(m[i] == m0[i]);
                assert(init.contains(m0[i]));
                let k = choose|k: int| 0 <= k < init.len() && init[k] == m0[i];
                assert(s[k] == init[k]);
                assert(m[j] == s[s.len() - 1]);
            }
        }
    }
}

/// The missing characters of a check keep the order of the request's characters: for a
/// request whose characters ascend by code point, as extraction produces them, they
/// ascend by code point too.
pub proof fn law_missing_characters_ascend(r: RefView, c: FaceView, glyphs: Seq<Option<u16>>)
    requires
        chars_ascending(r.characters),
    ensures
        chars_ascending(check_of(r, c, glyphs).missing),
{
    let cu = checked_uses(r.characters);
    lemma_keep_ascending(r.characters, |u: CharUse| crate::coverage::requires_nominal_glyph(u.character));
    lemma_missing_of_ascending(cu, glyphs);
}

proof fn lemma_keep_ascending(s: Seq<CharUse>, p: spec_fn(CharUse) -> bool)
    requires
        chars_ascending(s),
    ensures
        chars_ascending(keep(s, p)),
    decreases s.len(),
{
    if s.len() > 0 {
        let init = s.drop_last();
        assert(chars_ascending(init)) by {
            assert forall|i: int, j: int| 0 <= i < j < init.len() implies (
            #[trigger] init[i]).character < (#[trigger] init[j]).character by {
                assert(init[i] == s[i] && init[j] == s[j]);
            }
        }
        lemma_keep_ascending(init, p);
        let last = s.last();
        let q = |x: CharUse| x.character < last.character;
        assert forall|i: int| 0 <= i < init.len() implies q(#[trigger] init[i]) by {
            assert(init[i] == s[i]);
        }
        lemma_keep_elements(init, p, q);
        let k = keep(s, p);
        let k0 = keep(init, p);
        if p(last) {
            assert(k == k0.push(last));
            assert forall|i: int, j: int| 0 <= i < j < k.len() implies (#[trigger] k[i]).character
                < (#[trigger] k[j]).character by {
                if j < k0.len() {
                    assert(k[i] == k0[i] && k[j] == k0[j]);
                } else {
                    assert(k[i] == k0[i]);
                    assert(q(k0[i]));
                }
            }
        }
    }
}

proof fn lemma_min_dist(s: Seq<FaceView>, w: u16)
    ensures
        forall|i: int| 0 <= i < s.len() ==> crate::resolve::min_dist(s, w) <= crate::resolve::dist(
            #[trigger] s[i].weight,
            w,
        ),
        s.len() > 0 ==> exists|i: int|
            0 <= i < s.len() && crate::resolve::dist(#[trigger] s[i].weight, w)
                == crate::resolve::min_dist(s, w),
    decreases s.len(),
{
    if s.len() > 1 {
        let init = s.drop_last();
        lemma_min_dist(init, w);
        assert forall|i: int| 0 <= i < s.len() implies crate::resolve::min_dist(s, w)
            <= crate::resolve::dist(#[trigger] s[i].weight, w) by {
            if i < init.len() {
                assert(init[i] == s[i]);
            }
        }
        let i0 = choose|i: int|
            0 <= i < init.len() && crate::resolve::dist(#[trigger] init[i].weight, w)
                == crate::resolve::min_dist(init, w);
        assert(init[i0] == s[i0]);
        if crate::resolve::dist(s.last().weight, w) < crate::resolve::min_dist(init, w) {
            assert(crate::resolve::dist(s[s.len() - 1].weight, w) == crate::resolve::min_dist(
                s,
                w,
            ));
        } else {
            assert(crate::resolve::dist(s[i0].weight, w) == crate::resolve::min_dist(s, w));
        }
    } else if s.len() == 1 {
        assert(crate::resolve::dist(s[0].weight, w) == crate::resolve::min_dist(s, w));
    }
}

pub(crate) proof fn lemma_keep_has<A>(s: Seq<A>, p: spec_fn(A) -> bool)
    ensures
        forall|i: int| 0 <= i < s.len() && p(#[trigger] s[i]) ==> keep(s, p).contains(s[i]),
        forall|x: A| #[trigger] keep(s, p).contains(x) ==> s.contains(x) && p(x),
    decreases s.len(),
{
    if s.len() > 0 {
        let init = s.drop_last();
        lemma_keep_has(init, p);
        assert forall|i: int| 0 <= i < s.len() && p(#[trigger] s[i]) implies keep(s, p).contains(
            s[i],
        ) by {
            if i < init.len() {
                assert(init[i] == s[i]);
                assert(keep(init, p).contains(s[i]));
                let k = choose|k: int| 0 <= k < keep(init, p).len() && keep(init, p)[k] == s[i];
                assert(keep(s, p)[k] == s[i]);
            } else {
                assert(keep(s, p)[keep(s, p).len() - 1] == s[i]);
            }
        }
        assert forall|x: A| keep(s, p).contains(x) implies s.contains(x) && p(x) by {
            let k = choose|k: int| 0 <= k < keep(s, p).len() && keep(s, p)[k] == x;
            if k < keep(init, p).len() {
                assert(keep(init, p)[k] == x);
                assert(keep(init, p).contains(x));
                assert(init.contains(x) && p(x));
                let j = choose|j: int| 0 <= j < init.len() && init[j] == x;
                assert(init[j] == s[j]);
                assert(s[j] == x);
            } else {
                assert(p(s.last()));
                assert(x == s[s.len() - 1]);
            }
        }
    }
}

/// Nearest-weight selection picks, within the family faces of the candidate's slant, those
/// at the smallest weight distance from the request, and all of them: equally near faces
/// stay together (and so ambiguous).
pub proof fn law_nearest_minimizes_weight_distance(
    faces: Seq<FaceView>,
    r: RefView,
    o: ResolveOptions,
)
    ensures
        forall|i: int|
            0 <= i < resolution(faces, r, o).candidates.len() && (#[trigger] resolution(
                faces,
                r,
                o,
            ).matches[i]).selection_method == SelectionMethod::FamilyNearest ==> {
                let cs = resolution(faces, r, o).candidates;
                let c = cs[i];
                let key = normalize(r.name);
                &&& crate::resolve::in_families(c, key)
                &&& forall|j: int|
                    0 <= j < faces.len() && crate::resolve::in_families(#[trigger] faces[j], key)
                        && faces[j].italic == c.italic ==> crate::resolve::dist(c.weight, r.weight)
                        <= crate::resolve::dist(faces[j].weight, r.weight) && (crate::resolve::dist(
                        faces[j].weight,
                        r.weight,
                    ) == crate::resolve::dist(c.weight, r.weight) ==> cs.contains(faces[j]))
            },
{
    let key = normalize(r.name);
    let x = resolution(faces, r, o);
    let eligible = keep(faces, crate::resolve::p_same_slant(key, r));
    let upright = keep(faces, crate::resolve::p_upright(key));
    let d1 = crate::resolve::min_dist(eligible, r.weight);
    let d2 = crate::resolve::min_dist(upright, r.weight);
    let near = keep(faces, crate::resolve::p_same_slant_at(key, r, d1));
    let up_near = keep(faces, crate::resolve::p_upright_at(key, r, d2));
    lemma_min_dist(eligible, r.weight);
    lemma_min_dist(upright, r.weight);
    lemma_keep_has(faces, crate::resolve::p_same_slant(key, r));
    lemma_keep_has(faces, crate::resolve::p_upright(key));
    lemma_keep_has(faces, crate::resolve::p_same_slant_at(key, r, d1));
    lemma_keep_has(faces, crate::resolve::p_upright_at(key, r, d2));
    lemma_kept(faces, crate::resolve::p_same_slant_at(key, r, d1));
    lemma_kept(faces, crate::resolve::p_upright_at(key, r, d2));
    if eligible.len() > 0 {
        let i0 = choose|i: int|
            0 <= i < eligible.len() && crate::resolve::dist(#[trigger] eligible[i].weight, r.weight)
                == d1;
        let e = eligible[i0];
        assert(eligible.contains(e));
        assert(faces.contains(e));
        assert(crate::resolve::p_same_slant(key, r)(e));
        let j = choose|j: int| 0 <= j < faces.len() && faces[j] == e;
        assert(crate::resolve::p_same_slant_at(key, r, d1)(faces[j]));
        assert(near.contains(faces[j]));
    }
    if upright.len() > 0 {
        let i0 = choose|i: int|
            0 <= i < upright.len() && crate::resolve::dist(#[trigger] upright[i].weight, r.weight)
                == d2;
        let e = upright[i0];
        assert(upright.contains(e));
        assert(faces.contains(e));
        assert(crate::resolve::p_upright(key)(e));
        let j = choose|j: int| 0 <= j < faces.len() && faces[j] == e;
        assert(crate::resolve::p_upright_at(key, r, d2)(faces[j]));
        assert(up_near.contains(faces[j]));
    }
    assert forall|i: int|
        0 <= i < x.candidates.len() && (#[trigger] x.matches[i]).selection_method
            == SelectionMethod::FamilyNearest implies {
        let cs = x.candidates;
        let c = cs[i];
        &&& crate::resolve::in_families(c, key)
        &&& forall|j: int|
            0 <= j < faces.len() && crate::resolve::in_families(#[trigger] faces[j], key)
                && faces[j].italic == c.italic ==> crate::resolve::dist(c.weight, r.weight)
                <= crate::resolve::dist(faces[j].weight, r.weight) && (crate::resolve::dist(
                faces[j].weight,
                r.weight,
            ) == crate::resolve::dist(c.weight, r.weight) ==> cs.contains(faces[j]))
    } by {
        let cs = x.candidates;
        let c = cs[i];
        if cs == near {
            assert(crate::resolve::p_same_slant_at(key, r, d1)(c));
            assert forall|j: int|
                0 <= j < faces.len() && crate::resolve::in_families(#[trigger] faces[j], key)
                    && faces[j].italic == c.italic implies crate::resolve::dist(c.weight, r.weight)
                <= crate::resolve::dist(faces[j].weight, r.weight) && (crate::resolve::dist(
                faces[j].weight,
                r.weight,
            ) == crate::resolve::dist(c.weight, r.weight) ==> cs.contains(faces[j])) by {
                assert(crate::resolve::p_same_slant(key, r)(faces[j]));
                assert(eligible.contains(faces[j]));
                let k = choose|k: int| 0 <= k < eligible.len() && eligible[k] == faces[j];
                assert(d1 <= crate::resolve::dist(eligible[k].weight, r.weight));
            }
        } else if cs == up_near {
            assert(crate::resolve::p_upright_at(key, r, d2)(c));
            assert forall|j: int|
                0 <= j < faces.len() && crate::resolve::in_families(#[trigger] faces[j], key)
                    && faces[j].italic == c.italic implies crate::resolve::dist(c.weight, r.weight)
                <= crate::resolve::dist(faces[j].weight, r.weight) && (crate::resolve::dist(
                faces[j].weight,
                r.weight,
            ) == crate::resolve::dist(c.weight, r.weight) ==> cs.contains(faces[j])) by {
                assert(crate::resolve::p_upright(key)(faces[j]));
                assert(upright.contains(faces[j]));
                let k = choose|k: int| 0 <= k < upright.len() && upright[k] == faces[j];
                assert(d2 <= crate::resolve::dist(upright[k].weight, r.weight));
            }
        } else {
            assert(false);
        }
    }
}

/// A request without candidates, and only such a request, has a missing reason and no
/// evidence: `StyleNotFound` when some indexed face has a family alias that normalizes to
/// the requested name (the family's faces are then listed as available variants, in index
/// order), `NameNotFound` otherwise (with no variants).
pub proof fn law_missing_reason(faces: Seq<FaceView>, r: RefView, o: ResolveOptions)
    ensures
        ({
            let x = resolution(faces, r, o);
            let key = normalize(r.name);
            &&& (x.missing_reason is Some) == (x.candidates.len() == 0)
            &&& x.matches.len() == x.candidates.len()
            &&& (x.missing_reason == Some(MissingReason::StyleNotFound)) == (x.candidates.len() == 0
                && crate::resolve::any_family(faces, key))
            &&& (x.missing_reason == Some(MissingReason::NameNotFound)) == (x.candidates.len() == 0
                && !crate::resolve::any_family(faces, key))
            &&& x.available_variants == (if x.missing_reason == Some(MissingReason::StyleNotFound) {
                keep(faces, crate::resolve::p_family(key))
            } else {
                Seq::<FaceView>::empty()
            })
        }),
{
}

/// When a generic family has faces of exactly the requested weight and slant, those faces
/// are the candidates, whatever the options, selected as `FamilyExact` with no synthesis.
pub proof fn law_exact_family_faces_win(faces: Seq<FaceView>, r: RefView, o: ResolveOptions)
    requires
        method_of(faces, normalize(r.name)) == SelectionMethod::FamilyExact,
        keep(
            faces,
            crate::resolve::p_initial(SelectionMethod::FamilyExact, normalize(r.name), r),
        ).len() > 0,
    ensures
        resolution(faces, r, o).candidates == keep(
            faces,
            crate::resolve::p_initial(SelectionMethod::FamilyExact, normalize(r.name), r),
        ),
        forall|i: int|
            0 <= i < resolution(faces, r, o).matches.len() ==> {
                let e = #[trigger] resolution(faces, r, o).matches[i];
                &&& e.selection_method == SelectionMethod::FamilyExact
                &&& !e.synthetic_bold
                &&& !e.synthetic_italic
            },
{
    let key = normalize(r.name);
    let ex = keep(faces, crate::resolve::p_initial(SelectionMethod::FamilyExact, key, r));
    lemma_kept(faces, crate::resolve::p_initial(SelectionMethod::FamilyExact, key, r));
    let x = resolution(faces, r, o);
    assert(x.candidates == ex);
    assert forall|i: int| 0 <= i < x.matches.len() implies {
        let e = #[trigger] x.matches[i];
        &&& e.selection_method == SelectionMethod::FamilyExact
        &&& !e.synthetic_bold
        &&& !e.synthetic_italic
    } by {
        assert(crate::resolve::p_initial(SelectionMethod::FamilyExact, key, r)(ex[i]));
    }
}

/// Every candidate is one of the indexed faces, unchanged: its native weight and slant are
/// kept even when synthesis is reported.
pub proof fn law_candidates_are_index_faces(faces: Seq<FaceView>, r: RefView, o: ResolveOptions)
    ensures
        forall|i: int|
            0 <= i < resolution(faces, r, o).candidates.len() ==> faces.contains(
                #[trigger] resolution(faces, r, o).candidates[i],
            ),
{
    let key = normalize(r.name);
    let m0 = method_of(faces, key);
    let eligible = keep(faces, crate::resolve::p_same_slant(key, r));
    let upright = keep(faces, crate::resolve::p_upright(key));
    let ps = seq![
        crate::resolve::p_initial(m0, key, r),
        crate::resolve::p_same_slant_at(key, r, crate::resolve::min_dist(eligible, r.weight)),
        crate::resolve::p_same_slant_bold(key, r),
        crate::resolve::p_upright_exact(key, r),
        crate::resolve::p_upright_at(key, r, crate::resolve::min_dist(upright, r.weight)),
        crate::resolve::p_upright_bold(key, r),
    ];
    lemma_keep_has(faces, ps[0]);
    lemma_keep_has(faces, ps[1]);
    lemma_keep_has(faces, ps[2]);
    lemma_keep_has(faces, ps[3]);
    lemma_keep_has(faces, ps[4]);
    lemma_keep_has(faces, ps[5]);
    let cs = resolution(faces, r, o).candidates;
    assert(exists|k: int| 0 <= k < 6 && cs == keep(faces, #[trigger] ps[k]));
    let k = choose|k: int| 0 <= k < 6 && cs == keep(faces, #[trigger] ps[k]);
    assert forall|i: int| 0 <= i < cs.len() implies faces.contains(#[trigger] cs[i]) by {
        assert(keep(faces, ps[k]).contains(cs[i]));
    }
}

/// The shape of every resolution against an index (whose faces are in identity order):
/// one piece of evidence per candidate, naming it; candidates strictly ascending by path
/// and collection index; and each candidate one of the indexed faces, unchanged.
pub proof fn law_resolution_shape(faces: Seq<FaceView>, r: RefView, o: ResolveOptions)
    requires
        faces_sorted(faces),
    ensures
        ({
            let x = resolution(faces, r, o);
            &&& x.matches.len() == x.candidates.len()
            &&& forall|i: int|
                0 <= i < x.matches.len() ==> (#[trigger] x.matches[i]).path == x.candidates[i].path
                    && x.matches[i].face_index == x.candidates[i].face_index
            &&& faces_sorted(x.candidates)
            &&& forall|i: int| 0 <= i < x.candidates.len() ==> faces.contains(#[trigger] x.candidates[i])
        }),
{
    law_evidence_follows_candidates(faces, r, o);
    law_candidates_in_index_order(faces, r, o);
    law_candidates_are_index_faces(faces, r, o);
}

/// Nearest weight selection precedes bold fallback: with nearest weight matching, a
/// match selected by synthesis is an upright face of exactly the requested weight serving
/// an italic request, and reports no synthetic bold; a 400 face is never taken as the
/// bold fallback for a 700 request.
pub proof fn law_nearest_precedes_bold_fallback(faces: Seq<FaceView>, r: RefView, o: ResolveOptions)
    requires
        o.weight_matching == WeightMatching::Nearest,
    ensures
        forall|i: int|
            0 <= i < resolution(faces, r, o).matches.len() && (#[trigger] resolution(
                faces,
                r,
                o,
            ).matches[i]).selection_method == SelectionMethod::FamilySynthesis ==> {
                let c = resolution(faces, r, o).candidates[i];
                &&& c.weight == r.weight
                &&& !c.italic
                &&& r.italic
                &&& !resolution(faces, r, o).matches[i].synthetic_bold
            },
{
    let key = normalize(r.name);
    let m0 = method_of(faces, key);
    assert(m0 != SelectionMethod::FamilySynthesis);
    let fam = m0 == SelectionMethod::FamilyExact;
    let c0 = keep(faces, crate::resolve::p_initial(m0, key, r));
    let eligible = keep(faces, crate::resolve::p_same_slant(key, r));
    let bold = keep(faces, crate::resolve::p_same_slant_bold(key, r));
    let d = crate::resolve::min_dist(eligible, r.weight);
    let near = keep(faces, crate::resolve::p_same_slant_at(key, r, d));
    // Whenever a same-slant 400 face exists for a 700 request, the same-slant tier is not
    // empty, so nearest selection (or an earlier one) has already chosen faces.
    if bold.len() > 0 && c0.len() == 0 && fam {
        lemma_kept(faces, crate::resolve::p_same_slant_bold(key, r));
        assert(bold.contains(bold[0]));
        lemma_keep_has(faces, crate::resolve::p_same_slant_bold(key, r));
        lemma_keep_has(faces, crate::resolve::p_same_slant(key, r));
        let j = choose|j: int| 0 <= j < faces.len() && faces[j] == bold[0];
        assert(crate::resolve::p_same_slant(key, r)(faces[j]));
        assert(eligible.contains(faces[j]));
        lemma_min_dist(eligible, r.weight);
        let k = choose|k: int|
            0 <= k < eligible.len() && crate::resolve::dist(#[trigger] eligible[k].weight, r.weight)
                == d;
        assert(eligible.contains(eligible[k]));
        let l = choose|l: int| 0 <= l < faces.len() && faces[l] == eligible[k];
        lemma_keep_has(faces, crate::resolve::p_same_slant_at(key, r, d));
        assert(crate::resolve::p_same_slant_at(key, r, d)(faces[l]));
        assert(near.contains(faces[l]));
    }
    let up_exact = keep(faces, crate::resolve::p_upright_exact(key, r));
    lemma_kept(faces, crate::resolve::p_upright_exact(key, r));
    let x = resolution(faces, r, o);
    assert forall|i: int|
        0 <= i < x.matches.len() && (#[trigger] x.matches[i]).selection_method
            == SelectionMethod::FamilySynthesis implies {
        let c = x.candidates[i];
        &&& c.weight == r.weight
        &&& !c.italic
        &&& r.italic
        &&& !x.matches[i].synthetic_bold
    } by {
        assert(x.candidates == up_exact);
        assert(crate::resolve::p_upright_exact(key, r)(up_exact[i]));
    }
}

pub(crate) proof fn lemma_contains_concat<A>(a: Seq<A>, b: Seq<A>, x: A)
    ensures
        (a + b).contains(x) <==> (a.contains(x) || b.contains(x)),
{
    if (a + b).contains(x) {
        let k = choose|k: int| 0 <= k < (a + b).len() && (a + b)[k] == x;
        if k < a.len() {
            assert(a[k] == x);
        } else {
            assert(b[k - a.len()] == x);
        }
    }
    if a.contains(x) {
        let k = choose|k: int| 0 <= k < a.len() && a[k] == x;
        assert((a + b)[k] == x);
    }
    if b.contains(x) {
        let k = choose|k: int| 0 <= k < b.len() && b[k] == x;
        assert((a + b)[k + a.len()] == x);
    }
}

pub(crate) proof fn lemma_contains_map<A, B>(s: Seq<A>, f: spec_fn(A) -> B, y: B)
    ensures
        s.map_values(f).contains(y) <==> exists|k: int| 0 <= k < s.len() && #[trigger] f(s[k]) == y,
{
    if s.map_values(f).contains(y) {
        let k = choose|k: int| 0 <= k < s.map_values(f).len() && s.map_values(f)[k] == y;
        assert(f(s[k]) == y);
    }
    if exists|k: int| 0 <= k < s.len() && #[trigger] f(s[k]) == y {
        let k = choose|k: int| 0 <= k < s.len() && #[trigger] f(s[k]) == y;
        assert(s.map_values(f)[k] == y);
    }
}

/// The alias lists of an indexed face agree with each other: every family name and the
/// name of every record is an alias; every family name has a family record; every
/// family record's name is a family name; and every alias has a record (untyped aliases
/// get `InternalName` records).
pub proof fn law_indexed_face_aliases_agree(g: FaceView, f: FaceView)
    requires
        finalized(g, f),
    ensures
        forall|n: Seq<char>| g.family_names.contains(n) ==> g.names.contains(n),
        forall|k: int| 0 <= k < g.records.len() ==> g.names.contains(#[trigger] g.records[k].name),
        forall|k: int|
            0 <= k < g.records.len() && (#[trigger] g.records[k]).kind == NameKind::Family
                ==> g.family_names.contains(g.records[k].name),
        forall|n: Seq<char>|
            g.family_names.contains(n) ==> exists|k: int|
                0 <= k < g.records.len() && (#[trigger] g.records[k]).name == n
                    && g.records[k].kind == NameKind::Family,
        forall|n: Seq<char>|
            g.names.contains(n) ==> exists|k: int|
                0 <= k < g.records.len() && (#[trigger] g.records[k]).name == n,
{
    let rn = |r: NameView| crate::index::record_name(r);
    let fam = |r: NameView| r.kind == NameKind::Family;
    let fk = keep(f.family_names, |n: Seq<char>| !crate::index::has_family_record(f, n));
    let nk = keep(
        f.names,
        |n: Seq<char>| !crate::index::has_record_named(f, n) && !f.family_names.contains(n),
    );
    lemma_keep_has(f.records, fam);
    lemma_keep_has(f.family_names, |n: Seq<char>| !crate::index::has_family_record(f, n));
    lemma_keep_has(
        f.names,
        |n: Seq<char>| !crate::index::has_record_named(f, n) && !f.family_names.contains(n),
    );
    // Membership in the three completed lists, by their parts.
    assert forall|n: Seq<char>| #[trigger] alias_list(f).contains(n) <==> (f.names.contains(n)
        || f.records.map_values(rn).contains(n) || f.family_names.contains(n)) by {
        lemma_contains_concat(f.names + f.records.map_values(rn), f.family_names, n);
        lemma_contains_concat(f.names, f.records.map_values(rn), n);
    }
    assert forall|n: Seq<char>| #[trigger] family_list(f).contains(n) <==> (
    f.family_names.contains(n) || keep(f.records, fam).map_values(rn).contains(n)) by {
        lemma_contains_concat(f.family_names, keep(f.records, fam).map_values(rn), n);
    }
    assert forall|r: NameView| #[trigger] record_list(f).contains(r) <==> (f.records.contains(r)
        || fk.map_values(|n: Seq<char>| untyped_family(n)).contains(r) || nk.map_values(
        |n: Seq<char>| untyped_internal(n),
    ).contains(r)) by {
        lemma_contains_concat(
            f.records + fk.map_values(|n: Seq<char>| untyped_family(n)),
            nk.map_values(|n: Seq<char>| untyped_internal(n)),
            r,
        );
        lemma_contains_concat(f.records, fk.map_values(|n: Seq<char>| untyped_family(n)), r);
    }
    // Family names are aliases.
    assert forall|n: Seq<char>| g.family_names.contains(n) implies g.names.contains(n) by {
        if keep(f.records, fam).map_values(rn).contains(n) {
            lemma_contains_map(keep(f.records, fam), rn, n);
            let k = choose|k: int| 0 <= k < keep(f.records, fam).len() && #[trigger] rn(keep(f.records, fam)[k]) == n;
            let x = keep(f.records, fam)[k];
            assert(keep(f.records, fam).contains(x));
            assert(f.records.contains(x));
            let j = choose|j: int| 0 <= j < f.records.len() && f.records[j] == x;
            lemma_contains_map(f.records, rn, n);
            assert(rn(f.records[j]) == n);
        }
    }
    // Record names are aliases, and family records name family names.
    assert forall|k: int| 0 <= k < g.records.len() implies g.names.contains(
        #[trigger] g.records[k].name,
    ) && (g.records[k].kind == NameKind::Family ==> g.family_names.contains(g.records[k].name)) by {
        let r = g.records[k];
        assert(g.records.contains(r));
        assert(record_list(f).contains(r));
        if f.records.contains(r) {
            let j = choose|j: int| 0 <= j < f.records.len() && f.records[j] == r;
            lemma_contains_map(f.records, rn, r.name);
            assert(rn(f.records[j]) == r.name);
            if r.kind == NameKind::Family {
                assert(fam(f.records[j]));
                let q = choose|q: int| 0 <= q < keep(f.records, fam).len() && keep(f.records, fam)[q] == r;
                assert(keep(f.records, fam).contains(r));
                lemma_contains_map(keep(f.records, fam), rn, r.name);
                assert(rn(keep(f.records, fam)[q]) == r.name);
            }
        } else if fk.map_values(|n: Seq<char>| untyped_family(n)).contains(r) {
            lemma_contains_map(fk, |n: Seq<char>| untyped_family(n), r);
            let q = choose|q: int| 0 <= q < fk.len() && #[trigger] untyped_family(fk[q]) == r;
            assert(fk.contains(fk[q]));
            assert(f.family_names.contains(fk[q]));
        } else {
            lemma_contains_map(nk, |n: Seq<char>| untyped_internal(n), r);
            let q = choose|q: int| 0 <= q < nk.len() && #[trigger] untyped_internal(nk[q]) == r;
            assert(nk.contains(nk[q]));
            assert(f.names.contains(nk[q]));
        }
    }
    // Every family name has a family record; every alias has a record.
    assert forall|n: Seq<char>| g.family_names.contains(n) implies exists|k: int|
        0 <= k < g.records.len() && (#[trigger] g.records[k]).name == n && g.records[k].kind
            == NameKind::Family by {
        let r = lemma_family_record(f, n);
        assert(g.records.contains(r));
        let k = choose|k: int| 0 <= k < g.records.len() && g.records[k] == r;
        assert(g.records[k].name == n);
    }
    assert forall|n: Seq<char>| g.names.contains(n) implies exists|k: int|
        0 <= k < g.records.len() && (#[trigger] g.records[k]).name == n by {
        let r = lemma_alias_record(f, n);
        assert(g.records.contains(r));
        let k = choose|k: int| 0 <= k < g.records.len() && g.records[k] == r;
        assert(g.records[k].name == n);
    }
}

pub(crate) proof fn lemma_record_list_parts(f: FaceView, r: NameView)
    ensures
        record_list(f).contains(r) <==> (f.records.contains(r) || keep(
            f.family_names,
            |n: Seq<char>| !crate::index::has_family_record(f, n),
        ).map_values(|n: Seq<char>| untyped_family(n)).contains(r) || keep(
            f.names,
            |n: Seq<char>| !crate::index::has_record_named(f, n) && !f.family_names.contains(n),
        ).map_values(|n: Seq<char>| untyped_internal(n)).contains(r)),
{
    let fk = keep(f.family_names, |n: Seq<char>| !crate::index::has_family_record(f, n));
    let nk = keep(
        f.names,
        |n: Seq<char>| !crate::index::has_record_named(f, n) && !f.family_names.contains(n),
    );
    lemma_contains_concat(
        f.records + fk.map_values(|n: Seq<char>| untyped_family(n)),
        nk.map_values(|n: Seq<char>| untyped_internal(n)),
        r,
    );
    lemma_contains_concat(f.records, fk.map_values(|n: Seq<char>| untyped_family(n)), r);
}

proof fn lemma_family_record(f: FaceView, n: Seq<char>) -> (r: NameView)
    requires
        family_list(f).contains(n),
    ensures
        record_list(f).contains(r),
        r.name == n,
        r.kind == NameKind::Family,
{
    let rn = |r: NameView| crate::index::record_name(r);
    let fam = |r: NameView| r.kind == NameKind::Family;
    let fk = keep(f.family_names, |n: Seq<char>| !crate::index::has_family_record(f, n));
    lemma_keep_has(f.records, fam);
    lemma_keep_has(f.family_names, |n: Seq<char>| !crate::index::has_family_record(f, n));
    lemma_contains_concat(f.family_names, keep(f.records, fam).map_values(rn), n);
    let r = if crate::index::has_family_record(f, n) {
        let j = choose|j: int|
            0 <= j < f.records.len() && (#[trigger] f.records[j]).name == n && f.records[j].kind
                == NameKind::Family;
        assert(f.records.contains(f.records[j]));
        f.records[j]
    } else if f.family_names.contains(n) {
        assert(fk.contains(n));
        let q = choose|q: int| 0 <= q < fk.len() && fk[q] == n;
        assert(fk.map_values(|n: Seq<char>| untyped_family(n))[q] == untyped_family(n));
        assert(fk.map_values(|n: Seq<char>| untyped_family(n)).contains(untyped_family(n)));
        untyped_family(n)
    } else {
        lemma_contains_map(keep(f.records, fam), rn, n);
        let k = choose|k: int|
            0 <= k < keep(f.records, fam).len() && #[trigger] rn(keep(f.records, fam)[k]) == n;
        assert(keep(f.records, fam).contains(keep(f.records, fam)[k]));
        keep(f.records, fam)[k]
    };
    lemma_record_list_parts(f, r);
    r
}

proof fn lemma_alias_record(f: FaceView, n: Seq<char>) -> (r: NameView)
    requires
        alias_list(f).contains(n),
    ensures
        record_list(f).contains(r),
        r.name == n,
{
    let rn = |r: NameView| crate::index::record_name(r);
    let nk = keep(
        f.names,
        |n: Seq<char>| !crate::index::has_record_named(f, n) && !f.family_names.contains(n),
    );
    lemma_keep_has(
        f.names,
        |n: Seq<char>| !crate::index::has_record_named(f, n) && !f.family_names.contains(n),
    );
    lemma_contains_concat(f.names + f.records.map_values(rn), f.family_names, n);
    lemma_contains_concat(f.names, f.records.map_values(rn), n);
    lemma_contains_map(f.records, rn, n);
    if crate::index::has_record_named(f, n) || f.records.map_values(rn).contains(n) {
        let j = if crate::index::has_record_named(f, n) {
            choose|j: int| 0 <= j < f.records.len() && (#[trigger] f.records[j]).name == n
        } else {
            choose|j: int| 0 <= j < f.records.len() && #[trigger] rn(f.records[j]) == n
        };
        assert(f.records.contains(f.records[j]));
        lemma_record_list_parts(f, f.records[j]);
        f.records[j]
    } else if f.family_names.contains(n) {
        lemma_contains_concat(f.family_names, keep(f.records, |r: NameView| r.kind == NameKind::Family).map_values(rn), n);
        lemma_family_record(f, n)
    } else {
        assert(nk.contains(n));
        let q = choose|q: int| 0 <= q < nk.len() && nk[q] == n;
        assert(nk.map_values(|n: Seq<char>| untyped_internal(n))[q] == untyped_internal(n));
        assert(nk.map_values(|n: Seq<char>| untyped_internal(n)).contains(untyped_internal(n)));
        lemma_record_list_parts(f, untyped_internal(n));
        untyped_internal(n)
    }
}

/// The same path (as a string or as a path) and collection index.
pub open spec fn same_identity(a: FaceView, b: FaceView) -> bool {
    (a.path == b.path || crate::paths::path_order(a.path, b.path) == 0) && a.face_index
        == b.face_index
}

/// `g` carries the identity of `f` and all of its aliases, family names and records.
pub open spec fn carries(g: FaceView, f: FaceView) -> bool {
    &&& same_identity(g, f)
    &&& forall|n: Seq<char>| f.names.contains(n) ==> g.names.contains(n)
    &&& forall|n: Seq<char>| f.family_names.contains(n) ==> g.family_names.contains(n)
    &&& forall|r: NameView| f.records.contains(r) ==> g.records.contains(r)
}

/// Some face of `s` carries `h`.
pub open spec fn kept_in(s: Seq<FaceView>, h: FaceView) -> bool {
    exists|j: int| 0 <= j < s.len() && carries(#[trigger] s[j], h)
}

proof fn lemma_absorb_carries(a: FaceView, f: FaceView, h: FaceView)
    requires
        carries(a, h),
    ensures
        carries(absorb(a, f), h),
{
    assert forall|n: Seq<char>| h.names.contains(n) implies absorb(a, f).names.contains(n) by {
        lemma_contains_concat(a.names, f.names, n);
    }
    assert forall|n: Seq<char>| h.family_names.contains(n) implies absorb(
        a,
        f,
    ).family_names.contains(n) by {
        lemma_contains_concat(a.family_names, f.family_names, n);
    }
    assert forall|r: NameView| h.records.contains(r) implies absorb(a, f).records.contains(r) by {
        lemma_contains_concat(a.records, f.records, r);
    }
}

proof fn lemma_merge_face_keeps(acc: Seq<FaceView>, f: FaceView, h: FaceView)
    requires
        kept_in(acc, h),
    ensures
        kept_in(merge_face(acc, f), h),
{
    let j = choose|j: int| 0 <= j < acc.len() && carries(#[trigger] acc[j], h);
    let p = face_pos(acc, f);
    let m = merge_face(acc, f);
    lemma_face_pos_range(acc, f);
    if p > 0 && same_face(acc[p - 1], f) {
        assert(m == acc.update(p - 1, absorb(acc[p - 1], f)));
        if j == p - 1 {
            lemma_absorb_carries(acc[j], f, h);
            assert(carries(m[j], h));
        } else {
            assert(m[j] == acc[j]);
        }
    } else {
        assert(m == acc.insert(p, f));
        if j < p {
            assert(m[j] == acc[j]);
        } else {
            assert(m[j + 1] == acc[j]);
        }
    }
}

proof fn lemma_face_pos_range(acc: Seq<FaceView>, f: FaceView)
    ensures
        0 <= face_pos(acc, f) <= acc.len(),
    decreases acc.len(),
{
    if acc.len() > 0 && !face_key_less(f, acc[0]) {
        lemma_face_pos_range(acc.drop_first(), f);
    }
}

proof fn lemma_merge_face_adds(acc: Seq<FaceView>, f: FaceView)
    ensures
        kept_in(merge_face(acc, f), f),
{
    let p = face_pos(acc, f);
    let m = merge_face(acc, f);
    lemma_face_pos_range(acc, f);
    if p > 0 && same_face(acc[p - 1], f) {
        let g = absorb(acc[p - 1], f);
        assert(m[p - 1] == g);
        assert forall|n: Seq<char>| f.names.contains(n) implies g.names.contains(n) by {
            lemma_contains_concat(acc[p - 1].names, f.names, n);
        }
        assert forall|n: Seq<char>| f.family_names.contains(n) implies g.family_names.contains(n) by {
            lemma_contains_concat(acc[p - 1].family_names, f.family_names, n);
        }
        assert forall|r: NameView| f.records.contains(r) implies g.records.contains(r) by {
            lemma_contains_concat(acc[p - 1].records, f.records, r);
        }
        assert(carries(m[p - 1], f));
    } else {
        assert(m[p] == f);
        assert(carries(m[p], f));
    }
}

proof fn lemma_merge_faces_keeps(fs: Seq<FaceView>)
    ensures
        forall|i: int| 0 <= i < fs.len() ==> kept_in(merge_faces(fs), #[trigger] fs[i]),
    decreases fs.len(),
{
    if fs.len() > 0 {
        let init = fs.drop_last();
        lemma_merge_faces_keeps(init);
        let acc = merge_faces(init);
        assert forall|i: int| 0 <= i < fs.len() implies kept_in(merge_faces(fs), #[trigger] fs[i]) by {
            if i < init.len() {
                assert(init[i] == fs[i]);
                assert(kept_in(acc, init[i]));
                lemma_merge_face_keeps(acc, fs.last(), fs[i]);
            } else {
                lemma_merge_face_adds(acc, fs.last());
            }
        }
    }
}

/// Every input face is in the index: some indexed face has its path and collection
/// index and carries all of its aliases, family names and typed records.
pub proof fn law_index_keeps_every_input(inputs: Seq<FaceView>, idx: Seq<FaceView>)
    requires
        idx.len() == merge_faces(inputs).len(),
        forall|j: int| 0 <= j < idx.len() ==> finalized(#[trigger] idx[j], merge_faces(inputs)[j]),
    ensures
        forall|i: int| 0 <= i < inputs.len() ==> kept_in(idx, #[trigger] inputs[i]),
{
    lemma_merge_faces_keeps(inputs);
    let m = merge_faces(inputs);
    assert forall|i: int| 0 <= i < inputs.len() implies kept_in(idx, #[trigger] inputs[i]) by {
        let h = inputs[i];
        assert(kept_in(m, h));
        let j = choose|j: int| 0 <= j < m.len() && carries(#[trigger] m[j], h);
        let g = idx[j];
        let f = m[j];
        assert(finalized(g, f));
        assert forall|n: Seq<char>| h.names.contains(n) implies g.names.contains(n) by {
            lemma_contains_concat(f.names + f.records.map_values(|r: NameView| crate::index::record_name(r)), f.family_names, n);
            lemma_contains_concat(f.names, f.records.map_values(|r: NameView| crate::index::record_name(r)), n);
        }
        assert forall|n: Seq<char>| h.family_names.contains(n) implies g.family_names.contains(n) by {
            lemma_contains_concat(
                f.family_names,
                keep(f.records, |r: NameView| r.kind == NameKind::Family).map_values(
                    |r: NameView| crate::index::record_name(r),
                ),
                n,
            );
        }
        assert forall|r: NameView| h.records.contains(r) implies g.records.contains(r) by {
            lemma_record_list_parts(f, r);
        }
        assert(carries(idx[j], h));
    }
}

/// The tier nearest-weight selection searches: the family faces of the requested slant
/// when there are any, none of which has the requested weight; otherwise (only for an
/// italic request with italic synthesis permitted) the upright family faces, none of
/// which has the requested weight.
pub proof fn law_nearest_tier(faces: Seq<FaceView>, r: RefView, o: ResolveOptions)
    ensures
        forall|i: int|
            0 <= i < resolution(faces, r, o).candidates.len() && (#[trigger] resolution(
                faces,
                r,
                o,
            ).matches[i]).selection_method == SelectionMethod::FamilyNearest ==> {
                let c = resolution(faces, r, o).candidates[i];
                let key = normalize(r.name);
                ||| (c.italic == r.italic && forall|j: int|
                    0 <= j < faces.len() && crate::resolve::in_families(#[trigger] faces[j], key)
                        && faces[j].italic == r.italic ==> faces[j].weight != r.weight)
                ||| (o.synthesis.italic && r.italic && !c.italic && (forall|j: int|
                    0 <= j < faces.len() && crate::resolve::in_families(#[trigger] faces[j], key)
                        ==> !faces[j].italic) && forall|j: int|
                    0 <= j < faces.len() && crate::resolve::in_families(#[trigger] faces[j], key)
                        && !faces[j].italic ==> faces[j].weight != r.weight)
            },
{
    let key = normalize(r.name);
    let m0 = method_of(faces, key);
    let fam = m0 == SelectionMethod::FamilyExact;
    let nearest = o.weight_matching == WeightMatching::Nearest;
    let c0 = keep(faces, crate::resolve::p_initial(m0, key, r));
    let eligible = keep(faces, crate::resolve::p_same_slant(key, r));
    let upright = keep(faces, crate::resolve::p_upright(key));
    let up_exact = keep(faces, crate::resolve::p_upright_exact(key, r));
    let d1 = crate::resolve::min_dist(eligible, r.weight);
    let d2 = crate::resolve::min_dist(upright, r.weight);
    let near = keep(faces, crate::resolve::p_same_slant_at(key, r, d1));
    let up_near = keep(faces, crate::resolve::p_upright_at(key, r, d2));
    lemma_keep_has(faces, crate::resolve::p_initial(m0, key, r));
    lemma_keep_has(faces, crate::resolve::p_same_slant(key, r));
    lemma_keep_has(faces, crate::resolve::p_upright(key));
    lemma_keep_has(faces, crate::resolve::p_upright_exact(key, r));
    lemma_keep_has(faces, crate::resolve::p_same_slant_at(key, r, d1));
    lemma_keep_has(faces, crate::resolve::p_upright_at(key, r, d2));
    lemma_kept(faces, crate::resolve::p_same_slant_at(key, r, d1));
    lemma_kept(faces, crate::resolve::p_upright_at(key, r, d2));
    lemma_min_dist(eligible, r.weight);
    lemma_min_dist(upright, r.weight);
    assert(m0 != SelectionMethod::FamilySynthesis && m0 != SelectionMethod::FamilyNearest);
    if eligible.len() > 0 {
        let i0 = choose|i: int|
            0 <= i < eligible.len() && crate::resolve::dist(#[trigger] eligible[i].weight, r.weight)
                == d1;
        let e = eligible[i0];
        assert(eligible.contains(e));
        assert(faces.contains(e));
        let j = choose|j: int| 0 <= j < faces.len() && faces[j] == e;
        assert(crate::resolve::p_same_slant_at(key, r, d1)(faces[j]));
        assert(near.contains(faces[j]));
    }
    if upright.len() > 0 {
        let i0 = choose|i: int|
            0 <= i < upright.len() && crate::resolve::dist(#[trigger] upright[i].weight, r.weight)
                == d2;
        let e = upright[i0];
        assert(upright.contains(e));
        assert(faces.contains(e));
        let j = choose|j: int| 0 <= j < faces.len() && faces[j] == e;
        assert(crate::resolve::p_upright_at(key, r, d2)(faces[j]));
        assert(up_near.contains(faces[j]));
    }
    let x = resolution(faces, r, o);
    assert forall|i: int|
        0 <= i < x.candidates.len() && (#[trigger] x.matches[i]).selection_method
            == SelectionMethod::FamilyNearest implies {
        let c = x.candidates[i];
        ||| (c.italic == r.italic && forall|j: int|
            0 <= j < faces.len() && crate::resolve::in_families(#[trigger] faces[j], key)
                && faces[j].italic == r.italic ==> faces[j].weight != r.weight)
        ||| (o.synthesis.italic && r.italic && !c.italic && (forall|j: int|
            0 <= j < faces.len() && crate::resolve::in_families(#[trigger] faces[j], key)
                ==> !faces[j].italic) && forall|j: int|
            0 <= j < faces.len() && crate::resolve::in_families(#[trigger] faces[j], key)
                && !faces[j].italic ==> faces[j].weight != r.weight)
    } by {
        let c = x.candidates[i];
        if c0.len() == 0 && fam && nearest && eligible.len() > 0 {
            assert(x.candidates == near);
            assert(crate::resolve::p_same_slant_at(key, r, d1)(c));
            assert forall|j: int|
                0 <= j < faces.len() && crate::resolve::in_families(#[trigger] faces[j], key)
                    && faces[j].italic == r.italic implies faces[j].weight != r.weight by {
                if faces[j].weight == r.weight {
                    assert(crate::resolve::p_initial(m0, key, r)(faces[j]));
                    assert(c0.contains(faces[j]));
                }
            }
        } else {
            assert(x.candidates == up_near);
            assert(crate::resolve::p_upright_at(key, r, d2)(c));
            assert forall|j: int|
                0 <= j < faces.len() && crate::resolve::in_families(#[trigger] faces[j], key)
                    implies !faces[j].italic by {
                if faces[j].italic {
                    assert(crate::resolve::p_same_slant(key, r)(faces[j]));
                    assert(eligible.contains(faces[j]));
                    if faces[j].weight == r.weight {
                        assert(crate::resolve::p_initial(m0, key, r)(faces[j]));
                        assert(c0.contains(faces[j]));
                    }
                }
            }
            assert forall|j: int|
                0 <= j < faces.len() && crate::resolve::in_families(#[trigger] faces[j], key)
                    && !faces[j].italic implies faces[j].weight != r.weight by {
                if faces[j].weight == r.weight {
                    assert(crate::resolve::p_upright_exact(key, r)(faces[j]));
                    assert(up_exact.contains(faces[j]));
                }
            }
        }
    }
}

} // verus!
