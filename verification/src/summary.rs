//! Compact views of a coverage report: counts, strict completeness, and the missing
//! characters of all candidates merged by character.
use crate::coverage::{CheckView, CoverageReport, UncheckView};
use crate::index::keep;
use crate::subtitle::{CharUse, CharacterUsage, char_uses};
use vstd::prelude::*;

verus! {

/// Candidate and missing-character counts of a coverage report.
#[derive(Debug, Clone, Copy, PartialEq, Eq, Structural)]
pub struct CoverageSummary {
    /// Selected candidates mapping every checked character.
    pub complete_candidates: usize,
    /// Selected candidates missing at least one checked character.
    pub incomplete_candidates: usize,
    /// Selected candidates whose files or faces could not be checked.
    pub uncheckable_candidates: usize,
    /// Font references for which matching selected no candidate.
    pub unresolved_references: usize,
    /// Sum of missing characters across incomplete candidates.
    pub missing_mappings: usize,
    /// Distinct missing Unicode scalar values across incomplete candidates.
    pub unique_missing_characters: usize,
}

impl Default for CoverageSummary {
    fn default() -> (r: Self)
        ensures
            r.complete_candidates == 0,
            r.incomplete_candidates == 0,
            r.uncheckable_candidates == 0,
            r.unresolved_references == 0,
            r.missing_mappings == 0,
            r.unique_missing_characters == 0,
    {
        CoverageSummary {
            complete_candidates: 0,
            incomplete_candidates: 0,
            uncheckable_candidates: 0,
            unresolved_references: 0,
            missing_mappings: 0,
            unique_missing_characters: 0,
        }
    }
}

/// The missing usages of the checks, check after check.
pub open spec fn all_missing(cs: Seq<CheckView>) -> Seq<CharUse>
    decreases cs.len(),
{
    if cs.len() == 0 {
        seq![]
    } else {
        all_missing(cs.drop_last()) + cs.last().missing
    }
}

/// The distinct missing characters of the checks.
pub open spec fn missing_char_set(cs: Seq<CheckView>) -> Set<char> {
    all_missing(cs).map_values(|u: CharUse| u.character).to_set()
}

pub open spec fn with_candidate(us: Seq<UncheckView>) -> Seq<UncheckView> {
    keep(us, |u: UncheckView| u.candidate is Some)
}

pub open spec fn without_candidate(us: Seq<UncheckView>) -> Seq<UncheckView> {
    keep(us, |u: UncheckView| u.candidate is None)
}

pub open spec fn increasing(s: Seq<usize>) -> bool {
    forall|i: int, j: int| 0 <= i < j < s.len() ==> s[i] < s[j]
}

pub open spec fn char_in(us: Seq<CharUse>, c: char) -> bool {
    exists|k: int| 0 <= k < us.len() && (#[trigger] us[k]).character == c
}

pub open spec fn line_in(us: Seq<CharUse>, c: char, l: usize) -> bool {
    exists|k: int| 0 <= k < us.len() && (#[trigger] us[k]).character == c && us[k].lines.contains(l)
}

/// `r` merges the usages `us` by character: one entry per character, in code point
/// order, each with the sorted, duplicate-free union of that character's lines.
pub open spec fn merged_usages(r: Seq<CharUse>, us: Seq<CharUse>) -> bool {
    &&& forall|i: int, j: int|
        0 <= i < j < r.len() ==> (#[trigger] r[i].character as u32) < (#[trigger] r[j].character as u32)
    &&& forall|c: char| char_in(r, c) <==> char_in(us, c)
    &&& forall|i: int|
        0 <= i < r.len() ==> increasing(#[trigger] r[i].lines) && forall|l: usize|
            r[i].lines.contains(l) <==> line_in(us, r[i].character, l)
}

fn insert_line(lines: &mut Vec<usize>, l: usize)
    requires
        increasing(old(lines)@),
    ensures
        increasing(final(lines)@),
        forall|x: usize| final(lines)@.contains(x) <==> (old(lines)@.contains(x) || x == l),
{
    let ghost o = lines@;
    let mut j: usize = 0;
    while j < lines.len() && lines[j] < l
        invariant
            j <= lines.len(),
            lines@ == o,
            forall|k: int| 0 <= k < j ==> lines@[k] < l,
        decreases lines.len() - j,
    {
        j = j + 1;
    }
    if j < lines.len() && lines[j] == l {
        return;
    }
    lines.insert(j, l);
    proof {
        let n = lines@;
        assert(forall|k: int| 0 <= k < j ==> n[k] == o[k]);
        assert(forall|k: int| j < k < n.len() ==> n[k] == o[k - 1]);
        assert(n[j as int] == l);
        assert forall|a: int, b: int| 0 <= a < b < n.len() implies n[a] < n[b] by {
            if b < j {
            } else if a < j && b == j {
            } else if a < j {
                assert(o[a] < o[b - 1]);
            } else if a == j {
                assert(o[j as int] > l);
                if b - 1 > j {
                    assert(o[j as int] < o[b - 1]);
                }
            } else {
                assert(o[a - 1] < o[b - 1]);
            }
        }
        assert forall|x: usize| n.contains(x) <==> (o.contains(x) || x == l) by {
            if n.contains(x) {
                let k = choose|k: int| 0 <= k < n.len() && #[trigger] n[k] == x;
                if k < j {
                    assert(o[k] == x);
                } else if k > j {
                    assert(o[k - 1] == x);
                }
            }
            if o.contains(x) {
                let k = choose|k: int| 0 <= k < o.len() && #[trigger] o[k] == x;
                if k < j {
                    assert(n[k] == x);
                } else {
                    assert(n[k + 1] == x);
                }
            }
            if x == l {
                assert(n[j as int] == x);
            }
        }
    }
}

/// `base` with the lines of `src` added, sorted and duplicate-free.
fn add_lines(base: Vec<usize>, src: &Vec<usize>) -> (r: Vec<usize>)
    requires
        increasing(base@),
    ensures
        increasing(r@),
        forall|x: usize| r@.contains(x) <==> (base@.contains(x) || src@.contains(x)),
{
    let mut r = base;
    let ghost b = r@;
    let mut i: usize = 0;
    while i < src.len()
        invariant
            i <= src.len(),
            increasing(r@),
            forall|x: usize|
                #![trigger r@.contains(x)]
                r@.contains(x) <==> (b.contains(x) || src@.take(i as int).contains(x)),
        decreases src.len() - i,
    {
        let ghost r0 = r@;
        assert(forall|x: usize| r0.contains(x) <==> (b.contains(x) || src@.take(i as int).contains(x)));
        insert_line(&mut r, src[i]);
        proof {
            assert forall|x: usize| r@.contains(x) <==> (b.contains(x) || src@.take(i + 1).contains(
                x,
            )) by {
                assert(r@.contains(x) <==> (r0.contains(x) || x == src@[i as int]));
                assert(r0.contains(x) <==> (b.contains(x) || src@.take(i as int).contains(x)));
                if src@.take(i + 1).contains(x) {
                    let k = choose|k: int| 0 <= k < i + 1 && #[trigger] src@.take(i + 1)[k] == x;
                    if k < i {
                        assert(src@.take(i as int)[k] == x);
                    }
                }
                if src@.take(i as int).contains(x) {
                    let k = choose|k: int| 0 <= k < i && #[trigger] src@.take(i as int)[k] == x;
                    assert(src@.take(i + 1)[k] == x);
                }
                if x == src@[i as int] {
                    assert(src@.take(i + 1)[i as int] == x);
                }
            }
        }
        i = i + 1;
    }
    assert(src@.take(i as int) =~= src@);
    r
}

proof fn lemma_in_push(us: Seq<CharUse>, u: CharUse, c: char, l: usize)
    ensures
        char_in(us.push(u), c) <==> (char_in(us, c) || u.character == c),
        line_in(us.push(u), c, l) <==> (line_in(us, c, l) || (u.character == c
            && u.lines.contains(l))),
{
    let v = us.push(u);
    if char_in(v, c) {
        let k = choose|k: int| 0 <= k < v.len() && (#[trigger] v[k]).character == c;
        if k < us.len() {
            assert(us[k] == v[k]);
        }
    }
    if char_in(us, c) {
        let k = choose|k: int| 0 <= k < us.len() && (#[trigger] us[k]).character == c;
        assert(v[k] == us[k]);
    }
    if u.character == c {
        assert(v[us.len() as int] == u);
    }
    if line_in(v, c, l) {
        let k = choose|k: int|
            0 <= k < v.len() && (#[trigger] v[k]).character == c && v[k].lines.contains(l);
        if k < us.len() {
            assert(us[k] == v[k]);
        }
    }
    if line_in(us, c, l) {
        let k = choose|k: int|
            0 <= k < us.len() && (#[trigger] us[k]).character == c && us[k].lines.contains(l);
        assert(v[k] == us[k]);
    }
    if u.character == c && u.lines.contains(l) {
        assert(v[us.len() as int] == u);
    }
}

/// Adds one usage to usages merged by character.
fn add_usage(out: &mut Vec<CharacterUsage>, u: &CharacterUsage, Ghost(us): Ghost<Seq<CharUse>>)
    requires
        merged_usages(char_uses(old(out)@), us),
    ensures
        merged_usages(char_uses(final(out)@), us.push(u@)),
{
    let ghost o = char_uses(out@);
    let ghost v = us.push(u@);
    let cu = u.character as u32;
    let mut j: usize = 0;
    while j < out.len() && (out[j].character as u32) < cu
        invariant
            j <= out.len(),
            o == char_uses(out@),
            cu == u.character as u32,
            forall|k: int| 0 <= k < j ==> (o[k].character as u32) < cu,
        decreases out.len() - j,
    {
        j = j + 1;
    }
    proof {
        assert forall|c: char| #[trigger] char_in(v, c) <==> (char_in(us, c) || u.character == c) by {
            lemma_in_push(us, u@, c, 0);
        }
        assert forall|c: char, l: usize|
            #[trigger] line_in(v, c, l) <==> (line_in(us, c, l) || (u.character == c
                && u@.lines.contains(l))) by {
            lemma_in_push(us, u@, c, l);
        }
    }
    if j < out.len() && out[j].character == u.character {
        proof {
            assert(o[j as int] == out@[j as int]@);
            assert(increasing(o[j as int].lines));
        }
        let lines = add_lines(crate::subtitle::copy_usize_vec(&out[j].lines), &u.lines);
        let entry = CharacterUsage { character: u.character, lines };
        out.set(j, entry);
        proof {
            let n = char_uses(out@);
            assert(n =~= o.update(j as int, entry@));
            assert(o[j as int].character == u.character);
            assert(n[j as int].character == u.character);
            assert forall|c: char| char_in(n, c) <==> char_in(v, c) by {
                assert(char_in(v, c) <==> (char_in(us, c) || u.character == c));
                assert(char_in(o, c) <==> char_in(us, c));
                if c == u.character {
                    assert(char_in(o, c));
                    assert(char_in(n, c));
                }
                if char_in(n, c) {
                    let k = choose|k: int| 0 <= k < n.len() && (#[trigger] n[k]).character == c;
                    assert(o[k].character == c);
                }
                if char_in(o, c) {
                    let k = choose|k: int| 0 <= k < o.len() && (#[trigger] o[k]).character == c;
                    assert(n[k].character == c);
                }
            }
            assert forall|i: int| 0 <= i < n.len() implies increasing(#[trigger] n[i].lines)
                && forall|l: usize| n[i].lines.contains(l) <==> line_in(v, n[i].character, l) by {
                if i != j {
                    assert(n[i] == o[i]);
                    assert(o[i].character != u.character) by {
                        if o[i].character == u.character {
                            if i < j {
                                assert((o[i].character as u32) < (o[j as int].character as u32));
                            } else {
                                assert((o[j as int].character as u32) < (o[i].character as u32));
                            }
                        }
                    }
                }
            }
        }
    } else {
        let lines = add_lines(Vec::new(), &u.lines);
        let entry = CharacterUsage { character: u.character, lines };
        out.insert(j, entry);
        proof {
            let n = char_uses(out@);
            assert(n =~= o.insert(j as int, entry@));
            assert(forall|k: int| 0 <= k < j ==> n[k] == o[k]);
            assert(forall|k: int| j < k < n.len() ==> n[k] == o[k - 1]);
            assert(n[j as int] == entry@);
            if j < o.len() {
                assert((o[j as int].character as u32) != cu) by {
                    if (o[j as int].character as u32) == cu {
                        assert(o[j as int].character == u.character);
                    }
                }
            }
            assert forall|a: int, b: int| 0 <= a < b < n.len() implies (
            #[trigger] n[a].character as u32) < (#[trigger] n[b].character as u32) by {
                if b < j {
                } else if a < j && b == j {
                } else if a < j {
                    assert((o[a].character as u32) < (o[b - 1].character as u32));
                } else if a == j {
                    if b - 1 > j {
                        assert((o[j as int].character as u32) < (o[b - 1].character as u32));
                    }
                } else {
                    assert((o[a - 1].character as u32) < (o[b - 1].character as u32));
                }
            }
            assert(!char_in(us, u.character)) by {
                if char_in(us, u.character) {
                    assert(char_in(o, u.character));
                    let k = choose|k: int|
                        0 <= k < o.len() && (#[trigger] o[k]).character == u.character;
                    if k < j {
                    } else if k == j {
                    } else {
                        assert((o[j as int].character as u32) < (o[k].character as u32));
                    }
                }
            }
            assert forall|c: char| char_in(n, c) <==> char_in(v, c) by {
                if char_in(n, c) {
                    let k = choose|k: int| 0 <= k < n.len() && (#[trigger] n[k]).character == c;
                    if k < j {
                        assert(o[k].character == c);
                    } else if k > j {
                        assert(o[k - 1].character == c);
                    }
                }
                if char_in(o, c) {
                    let k = choose|k: int| 0 <= k < o.len() && (#[trigger] o[k]).character == c;
                    if k < j {
                        assert(n[k].character == c);
                    } else {
                        assert(n[k + 1].character == c);
                    }
                }
                if c == u.character {
                    assert(n[j as int].character == c);
                }
            }
            assert forall|i: int| 0 <= i < n.len() implies increasing(#[trigger] n[i].lines)
                && forall|l: usize| n[i].lines.contains(l) <==> line_in(v, n[i].character, l) by {
                if i < j {
                    assert(n[i] == o[i]);
                    assert(o[i].character != u.character);
                } else if i > j {
                    assert(n[i] == o[i - 1]);
                    assert(o[i - 1].character != u.character);
                } else {
                    assert forall|l: usize| !line_in(us, u.character, l) by {
                        if line_in(us, u.character, l) {
                            let k = choose|k: int|
                                0 <= k < us.len() && (#[trigger] us[k]).character == u.character
                                    && us[k].lines.contains(l);
                            assert(char_in(us, u.character));
                        }
                    }
                }
            }
        }
    }
}

impl CoverageReport {
    /// Whether every selected candidate has complete nominal coverage: `false` when a
    /// reference is missing or a candidate is unreadable, invalid or incomplete; an empty
    /// report is complete.
    pub fn is_complete(&self) -> (r: bool)
        ensures
            r == (self@.incomplete.len() == 0 && self@.uncheckable.len() == 0),
    {
        self.incomplete.len() == 0 && self.uncheckable.len() == 0
    }

    /// Missing characters across all incomplete candidates, merged by character: sorted by
    /// code point, each with the sorted, duplicate-free union of its source lines.
    /// Candidate identity is not kept.
    pub fn missing_characters(&self) -> (r: Vec<CharacterUsage>)
        ensures
            merged_usages(char_uses(r@), all_missing(self@.incomplete)),
    {
        let ghost cs = self@.incomplete;
        let mut out: Vec<CharacterUsage> = Vec::new();
        let mut i: usize = 0;
        proof {
            assert(cs.take(0) =~= Seq::<CheckView>::empty());
            assert(char_uses(out@) =~= Seq::<CharUse>::empty());
        }
        while i < self.incomplete.len()
            invariant
                i <= self.incomplete.len(),
                cs == self@.incomplete,
                merged_usages(char_uses(out@), all_missing(cs.take(i as int))),
            decreases self.incomplete.len() - i,
        {
            let check = &self.incomplete[i];
            let ghost pre = all_missing(cs.take(i as int));
            let ghost mv = char_uses(check.missing_characters@);
            let mut j: usize = 0;
            proof {
                assert(pre + mv.take(0) =~= pre);
            }
            while j < check.missing_characters.len()
                invariant
                    j <= check.missing_characters.len(),
                    mv == char_uses(check.missing_characters@),
                    merged_usages(char_uses(out@), pre + mv.take(j as int)),
                decreases check.missing_characters.len() - j,
            {
                add_usage(&mut out, &check.missing_characters[j], Ghost(pre + mv.take(j as int)));
                proof {
                    assert((pre + mv.take(j as int)).push(mv[j as int]) =~= pre + mv.take(j + 1));
                }
                j = j + 1;
            }
            proof {
                assert(mv.take(j as int) =~= mv);
                assert(cs.take(i + 1).drop_last() =~= cs.take(i as int));
                assert(cs[i as int].missing == mv);
            }
            i = i + 1;
        }
        assert(cs.take(i as int) =~= cs);
        out
    }

    /// Candidate and missing-character counts of the report.
    pub fn summary(&self) -> (r: CoverageSummary)
        requires
            all_missing(self@.incomplete).len() <= usize::MAX,
        ensures
            r.complete_candidates == self@.complete.len(),
            r.incomplete_candidates == self@.incomplete.len(),
            r.uncheckable_candidates == with_candidate(self@.uncheckable).len(),
            r.unresolved_references == without_candidate(self@.uncheckable).len(),
            r.missing_mappings == all_missing(self@.incomplete).len(),
            r.unique_missing_characters == missing_char_set(self@.incomplete).len(),
    {
        let ghost us = self@.uncheckable;
        let mut with: usize = 0;
        let mut without: usize = 0;
        let mut i: usize = 0;
        while i < self.uncheckable.len()
            invariant
                i <= self.uncheckable.len(),
                us == self@.uncheckable,
                with == with_candidate(us.take(i as int)).len(),
                without == without_candidate(us.take(i as int)).len(),
                with + without == i,
            decreases self.uncheckable.len() - i,
        {
            proof {
                assert(us.take(i + 1).drop_last() =~= us.take(i as int));
                assert(us.take(i + 1).last() == us[i as int]);
            }
            if self.uncheckable[i].candidate.is_some() {
                with = with + 1;
            } else {
                without = without + 1;
            }
            i = i + 1;
        }
        assert(us.take(i as int) =~= us);
        let ghost cs = self@.incomplete;
        let mut mappings: usize = 0;
        let mut seen: Vec<char> = Vec::new();
        let mut k: usize = 0;
        proof {
            assert(cs.take(0) =~= Seq::<CheckView>::empty());
            assert(seen@.to_set() =~= Seq::<char>::empty().to_set());
        }
        while k < self.incomplete.len()
            invariant
                k <= self.incomplete.len(),
                cs == self@.incomplete,
                all_missing(cs).len() <= usize::MAX,
                mappings == all_missing(cs.take(k as int)).len(),
                seen@.no_duplicates(),
                seen@.to_set() == all_missing(cs.take(k as int)).map_values(
                    |u: CharUse| u.character,
                ).to_set(),
            decreases self.incomplete.len() - k,
        {
            let check = &self.incomplete[k];
            let ghost pre = all_missing(cs.take(k as int));
            let ghost mv = char_uses(check.missing_characters@);
            proof {
                assert(cs.take(k + 1).drop_last() =~= cs.take(k as int));
                assert(cs[k as int].missing == mv);
                lemma_all_missing_prefix(cs, k as int);
            }
            let mut j: usize = 0;
            proof {
                assert(pre + mv.take(0) =~= pre);
            }
            while j < check.missing_characters.len()
                invariant
                    j <= check.missing_characters.len(),
                    mv == char_uses(check.missing_characters@),
                    (pre + mv).len() <= usize::MAX,
                    mappings == (pre + mv.take(j as int)).len(),
                    seen@.no_duplicates(),
                    seen@.to_set() == (pre + mv.take(j as int)).map_values(
                        |u: CharUse| u.character,
                    ).to_set(),
                decreases check.missing_characters.len() - j,
            {
                let c = check.missing_characters[j].character;
                let ghost s0 = seen@;
                let ghost w0 = (pre + mv.take(j as int)).map_values(|u: CharUse| u.character);
                let ghost w1 = (pre + mv.take(j + 1)).map_values(|u: CharUse| u.character);
                proof {
                    assert(w1 =~= w0.push(c));
                }
                let mut t: usize = 0;
                let mut found = false;
                while t < seen.len()
                    invariant
                        t <= seen.len(),
                        seen@ == s0,
                        found == (exists|q: int| 0 <= q < t && seen@[q] == c),
                    decreases seen.len() - t,
                {
                    if seen[t] == c {
                        found = true;
                    }
                    t = t + 1;
                }
                if !found {
                    seen.push(c);
                    proof {
                        assert forall|a: int, b: int|
                            0 <= a < seen@.len() && 0 <= b < seen@.len() && a != b implies seen@[a]
                            != seen@[b] by {
                            if a < s0.len() && b < s0.len() {
                                assert(s0[a] != s0[b]);
                            }
                        }
                    }
                }
                proof {
                    assert(seen@.to_set() =~= w1.to_set()) by {
                        assert forall|x: char| seen@.to_set().contains(x) <==> w1.to_set().contains(x) by {
                            assert(w0.to_set().contains(x) <==> s0.to_set().contains(x));
                            if seen@.contains(x) {
                                let q = choose|q: int| 0 <= q < seen@.len() && seen@[q] == x;
                                if q < s0.len() {
                                    assert(s0[q] == x);
                                    assert(s0.contains(x));
                                    assert(w0.contains(x));
                                    let z = choose|z: int| 0 <= z < w0.len() && w0[z] == x;
                                    assert(w1[z] == x);
                                } else {
                                    assert(w1[w0.len() as int] == x);
                                }
                            }
                            if w1.contains(x) {
                                let z = choose|z: int| 0 <= z < w1.len() && w1[z] == x;
                                if z < w0.len() {
                                    assert(w0[z] == x);
                                    assert(w0.contains(x));
                                    assert(s0.contains(x));
                                    let q = choose|q: int| 0 <= q < s0.len() && s0[q] == x;
                                    assert(seen@[q] == x);
                                } else if found {
                                    let q = choose|q: int| 0 <= q < s0.len() && s0[q] == c;
                                    assert(seen@[q] == x);
                                } else {
                                    assert(seen@[s0.len() as int] == x);
                                }
                            }
                        }
                    }
                    assert((pre + mv.take(j + 1)).len() == (pre + mv.take(j as int)).len() + 1);
                    assert((pre + mv.take(j + 1)).len() <= (pre + mv).len());
                }
                mappings = mappings + 1;
                j = j + 1;
            }
            proof {
                assert(mv.take(j as int) =~= mv);
            }
            k = k + 1;
        }
        proof {
            assert(cs.take(k as int) =~= cs);
            seen@.unique_seq_to_set();
        }
        CoverageSummary {
            complete_candidates: self.complete.len(),
            incomplete_candidates: self.incomplete.len(),
            uncheckable_candidates: with,
            unresolved_references: without,
            missing_mappings: mappings,
            unique_missing_characters: seen.len(),
        }
    }
}

/// The missing usages of a prefix of the checks are no more than those of all of them.
proof fn lemma_all_missing_prefix(cs: Seq<CheckView>, k: int)
    requires
        0 <= k < cs.len(),
    ensures
        all_missing(cs.take(k + 1)).len() <= all_missing(cs).len(),
        all_missing(cs.take(k + 1)) == all_missing(cs.take(k)) + cs[k].missing,
    decreases cs.len() - k,
{
    assert(cs.take(k + 1).drop_last() =~= cs.take(k));
    if k + 1 < cs.len() {
        lemma_all_missing_prefix(cs, k + 1);
    } else {
        assert(cs.take(k + 1) =~= cs);
    }
}

} // verus!
