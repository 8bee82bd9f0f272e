//! Nominal cmap coverage of the selected faces: which extracted characters each candidate
//! maps to a glyph, with the candidates that cannot be checked.
use crate::ass::message;
use crate::fonts::{FaceView, FontFace, copy_face};
use crate::index::keep;
use crate::resolve::{MissingReason, Resolution, ResolutionView, ResolveReport, resolution_views};
use crate::subtitle::{CharUse, CharacterUsage, FontReference, RefView, char_uses, copy_reference};
use crate::ttf::{face_parse_error, glyph_index, glyph_of, parse_face};
use vstd::prelude::*;

verus! {

/// Nominal cmap coverage for one selected face.
///
/// Ambiguous resolutions produce one check per candidate. A complete check only means
/// that every checked Unicode scalar has a nominal cmap mapping; it does not validate
/// shaping, positioning, color layers or rendering quality.
#[derive(Debug, Clone, PartialEq, Eq)]
pub struct CoverageCheck {
    /// The font request and its extracted character usage.
    pub reference: FontReference,
    /// Selected face whose cmap was checked.
    pub candidate: FontFace,
    /// Number of distinct characters checked.
    pub checked_characters: usize,
    /// Characters without a nominal cmap mapping, in the order of the request's characters.
    pub missing_characters: Vec<CharacterUsage>,
}

pub struct CheckView {
    pub reference: RefView,
    pub candidate: FaceView,
    pub checked: int,
    pub missing: Seq<CharUse>,
}

impl View for CoverageCheck {
    type V = CheckView;

    open spec fn view(&self) -> CheckView {
        CheckView {
            reference: self.reference@,
            candidate: self.candidate@,
            checked: self.checked_characters as int,
            missing: char_uses(self.missing_characters@),
        }
    }
}

pub open spec fn check_views(v: Seq<CoverageCheck>) -> Seq<CheckView> {
    v.map_values(|c: CoverageCheck| c@)
}

/// Why nominal glyph coverage could not be checked.
#[derive(Debug, Clone, Copy, PartialEq, Eq, Structural)]
pub enum CoverageUnavailableReason {
    /// Font matching did not select a candidate.
    NoCandidate,
    /// The selected font file could not be read.
    FontReadError,
    /// The requested face could not be parsed from the selected file.
    FaceParseError,
}

/// A font request or candidate for which coverage is unavailable.
#[derive(Debug, Clone, PartialEq, Eq)]
pub struct UncheckableCoverage {
    /// The font request and its extracted character usage.
    pub reference: FontReference,
    /// Selected face, or `None` when font matching found no candidate.
    pub candidate: Option<FontFace>,
    /// The resolution's missing reason (present when `candidate` is absent).
    pub missing_reason: Option<MissingReason>,
    /// Stable category for the unavailable check.
    pub reason: CoverageUnavailableReason,
    /// Human-readable file or parser detail; wording is not stable.
    pub message: String,
}

pub struct UncheckView {
    pub reference: RefView,
    pub candidate: Option<FaceView>,
    pub missing_reason: Option<MissingReason>,
    pub reason: CoverageUnavailableReason,
    pub message: Seq<char>,
}

pub open spec fn opt_face(o: Option<FontFace>) -> Option<FaceView> {
    match o {
        Some(f) => Some(f@),
        None => None,
    }
}

impl View for UncheckableCoverage {
    type V = UncheckView;

    open spec fn view(&self) -> UncheckView {
        UncheckView {
            reference: self.reference@,
            candidate: opt_face(self.candidate),
            missing_reason: self.missing_reason,
            reason: self.reason,
            message: self.message@,
        }
    }
}

pub open spec fn uncheck_views(v: Seq<UncheckableCoverage>) -> Seq<UncheckView> {
    v.map_values(|u: UncheckableCoverage| u@)
}

/// Candidate-level nominal cmap results.
///
/// Each resolved candidate occurs exactly once in `complete`, `incomplete` or
/// `uncheckable`. A missing resolution contributes one candidate-less entry to
/// `uncheckable`. Entries keep resolution and candidate order within each bucket.
#[derive(Debug, Clone, PartialEq, Eq)]
pub struct CoverageReport {
    /// Candidates mapping every checked character.
    pub complete: Vec<CoverageCheck>,
    /// Candidates missing at least one checked character.
    pub incomplete: Vec<CoverageCheck>,
    /// Requests or candidates that could not be checked.
    pub uncheckable: Vec<UncheckableCoverage>,
}

pub struct CoverageView {
    pub complete: Seq<CheckView>,
    pub incomplete: Seq<CheckView>,
    pub uncheckable: Seq<UncheckView>,
}

impl View for CoverageReport {
    type V = CoverageView;

    open spec fn view(&self) -> CoverageView {
        CoverageView {
            complete: check_views(self.complete@),
            incomplete: check_views(self.incomplete@),
            uncheckable: uncheck_views(self.uncheckable@),
        }
    }
}

impl Default for CoverageReport {
    fn default() -> (r: Self)
        ensures
            r@.complete.len() == 0,
            r@.incomplete.len() == 0,
            r@.uncheckable.len() == 0,
    {
        CoverageReport { complete: Vec::new(), incomplete: Vec::new(), uncheckable: Vec::new() }
    }
}

/// The contents of one font file as read by the caller: its bytes, or the message of
/// why it could not be read.
#[derive(Debug)]
pub struct FontFile {
    pub path: String,
    pub contents: Result<Vec<u8>, String>,
}

pub struct FileView {
    pub path: Seq<char>,
    pub contents: Result<Seq<u8>, Seq<char>>,
}

impl View for FontFile {
    type V = FileView;

    open spec fn view(&self) -> FileView {
        FileView {
            path: self.path@,
            contents: match self.contents {
                Ok(b) => Ok(b@),
                Err(m) => Err(m@),
            },
        }
    }
}

pub open spec fn file_views(v: Seq<FontFile>) -> Seq<FileView> {
    v.map_values(|f: FontFile| f@)
}

/// The contents of the first file entry with this path.
pub open spec fn file_for(files: Seq<FileView>, path: Seq<char>) -> Option<
    Result<Seq<u8>, Seq<char>>,
>
    decreases files.len(),
{
    if files.len() == 0 {
        None
    } else if files[0].path == path {
        Some(files[0].contents)
    } else {
        file_for(files.drop_first(), path)
    }
}

/// Characters that need a glyph of their own: all but variation selectors, joiners,
/// directional and other format controls (soft hyphen, combining grapheme joiner, Arabic
/// letter mark, Mongolian selectors, zero-width and bidirectional controls, word joiner
/// and invisible operators, BMP selectors and byte-order mark, interlinear annotation
/// controls, tags and supplementary selectors).
pub open spec fn requires_nominal_glyph(c: char) -> bool {
    let v = c as u32;
    !(v == 0xad || v == 0x34f || v == 0x61c || (0x180b <= v && v <= 0x180f) || (0x200b <= v
        && v <= 0x200f) || (0x202a <= v && v <= 0x202e) || (0x2060 <= v && v <= 0x206f) || (
    0xfe00 <= v && v <= 0xfe0f) || v == 0xfeff || (0xfff9 <= v && v <= 0xfffb) || (0xe0000 <= v
        && v <= 0xe007f) || (0xe0100 <= v && v <= 0xe01ef))
}

/// The usages whose characters are checked.
pub open spec fn checked_uses(us: Seq<CharUse>) -> Seq<CharUse> {
    keep(us, |u: CharUse| requires_nominal_glyph(u.character))
}

/// No glyph, or glyph zero (`.notdef`).
pub open spec fn glyph_missing(g: Option<u16>) -> bool {
    match g {
        Some(id) => id == 0,
        None => true,
    }
}

/// The checked usages whose glyphs, given in the same order, are missing.
pub open spec fn missing_of(checked: Seq<CharUse>, glyphs: Seq<Option<u16>>) -> Seq<CharUse>
    decreases checked.len(),
{
    if checked.len() == 0 {
        seq![]
    } else {
        let rest = missing_of(checked.drop_last(), glyphs.take(checked.len() - 1));
        if glyph_missing(glyphs[checked.len() - 1]) {
            rest.push(checked.last())
        } else {
            rest
        }
    }
}

/// The glyphs of the face for the checked usages.
pub open spec fn face_glyphs(data: Seq<u8>, index: u32, checked: Seq<CharUse>) -> Seq<
    Option<u16>,
> {
    checked.map_values(|u: CharUse| glyph_index(data, index, u.character))
}

/// The check of a request against a face whose glyphs for its checked usages are `glyphs`.
pub open spec fn check_of(r: RefView, c: FaceView, glyphs: Seq<Option<u16>>) -> CheckView {
    let checked = checked_uses(r.characters);
    CheckView {
        reference: r,
        candidate: c,
        checked: checked.len() as int,
        missing: missing_of(checked, glyphs),
    }
}

/// The outcome for one candidate of a resolution.
pub enum Outcome {
    Checked(CheckView),
    Unchecked(UncheckView),
}

pub open spec fn unchecked(
    r: ResolutionView,
    c: FaceView,
    reason: CoverageUnavailableReason,
    m: Seq<char>,
) -> Outcome {
    Outcome::Unchecked(
        UncheckView {
            reference: r.reference,
            candidate: Some(c),
            missing_reason: r.missing_reason,
            reason,
            message: m,
        },
    )
}

/// A candidate whose file cannot be read, or whose face does not parse, cannot be
/// checked; otherwise each checked character is looked up in its cmap.
pub open spec fn candidate_outcome(r: ResolutionView, c: FaceView, files: Seq<FileView>) -> Outcome {
    match file_for(files, c.path) {
        Some(Ok(data)) => match face_parse_error(data, c.face_index) {
            Some(m) => unchecked(r, c, CoverageUnavailableReason::FaceParseError, m),
            None => Outcome::Checked(
                check_of(
                    r.reference,
                    c,
                    face_glyphs(data, c.face_index, checked_uses(r.reference.characters)),
                ),
            ),
        },
        Some(Err(m)) => unchecked(r, c, CoverageUnavailableReason::FontReadError, m),
        None => unchecked(r, c, CoverageUnavailableReason::FontReadError, seq![]),
    }
}

/// Every (resolution, candidate) pair, in resolution then candidate order.
pub open spec fn candidate_pairs(rs: Seq<ResolutionView>) -> Seq<(ResolutionView, FaceView)>
    decreases rs.len(),
{
    if rs.len() == 0 {
        seq![]
    } else {
        candidate_pairs(rs.drop_last()) + rs.last().candidates.map_values(
            |c: FaceView| (rs.last(), c),
        )
    }
}

pub open spec fn outcomes(rs: Seq<ResolutionView>, files: Seq<FileView>) -> Seq<Outcome> {
    candidate_pairs(rs).map_values(
        |p: (ResolutionView, FaceView)| candidate_outcome(p.0, p.1, files),
    )
}

/// Outcomes sorted into complete checks, incomplete checks and unchecked candidates,
/// each in outcome order.
pub open spec fn buckets(os: Seq<Outcome>) -> (Seq<CheckView>, Seq<CheckView>, Seq<UncheckView>)
    decreases os.len(),
{
    if os.len() == 0 {
        (seq![], seq![], seq![])
    } else {
        let b = buckets(os.drop_last());
        match os.last() {
            Outcome::Checked(v) => if v.missing.len() == 0 {
                (b.0.push(v), b.1, b.2)
            } else {
                (b.0, b.1.push(v), b.2)
            },
            Outcome::Unchecked(u) => (b.0, b.1, b.2.push(u)),
        }
    }
}

/// The entry of a resolution without candidates.
pub open spec fn no_candidate(r: ResolutionView) -> UncheckView {
    UncheckView {
        reference: r.reference,
        candidate: None,
        missing_reason: r.missing_reason,
        reason: CoverageUnavailableReason::NoCandidate,
        message: "font resolution has no candidate"@,
    }
}

/// Coverage of the resolved and then the ambiguous candidates, followed by one entry per
/// missing resolution.
pub open spec fn coverage_of(
    resolved: Seq<ResolutionView>,
    ambiguous: Seq<ResolutionView>,
    missing: Seq<ResolutionView>,
    files: Seq<FileView>,
) -> CoverageView {
    let b = buckets(outcomes(resolved + ambiguous, files));
    CoverageView {
        complete: b.0,
        incomplete: b.1,
        uncheckable: b.2 + missing.map_values(|r: ResolutionView| no_candidate(r)),
    }
}

/// Every candidate's file has an entry.
pub open spec fn files_cover(rs: Seq<ResolutionView>, files: Seq<FileView>) -> bool {
    forall|i: int, j: int|
        0 <= i < rs.len() && 0 <= j < rs[i].candidates.len() ==> (#[trigger] file_for(
            files,
            rs[i].candidates[j].path,
        )) is Some
}

pub fn needs_glyph(c: char) -> (r: bool)
    ensures
        r == requires_nominal_glyph(c),
{
    let v = c as u32;
    !(v == 0xad || v == 0x34f || v == 0x61c || (0x180b <= v && v <= 0x180f) || (0x200b <= v
        && v <= 0x200f) || (0x202a <= v && v <= 0x202e) || (0x2060 <= v && v <= 0x206f) || (
    0xfe00 <= v && v <= 0xfe0f) || v == 0xfeff || (0xfff9 <= v && v <= 0xfffb) || (0xe0000 <= v
        && v <= 0xe007f) || (0xe0100 <= v && v <= 0xe01ef))
}

pub fn copy_usage(u: &CharacterUsage) -> (r: CharacterUsage)
    ensures
        r@ == u@,
{
    CharacterUsage { character: u.character, lines: crate::subtitle::copy_usize_vec(&u.lines) }
}

/// The usages of a request whose characters are checked, in order.
pub fn checked_usages(r: &FontReference) -> (out: Vec<CharacterUsage>)
    ensures
        char_uses(out@) == checked_uses(r@.characters),
{
    let ghost us = r@.characters;
    let mut out: Vec<CharacterUsage> = Vec::new();
    let mut i: usize = 0;
    while i < r.characters.len()
        invariant
            i <= r.characters.len(),
            us == char_uses(r.characters@),
            char_uses(out@) == checked_uses(us.take(i as int)),
        decreases r.characters.len() - i,
    {
        let u = &r.characters[i];
        let ghost before = char_uses(out@);
        proof {
            assert(us.take(i + 1).drop_last() =~= us.take(i as int));
            assert(us.take(i + 1).last() == u@);
        }
        if needs_glyph(u.character) {
            out.push(copy_usage(u));
            assert(char_uses(out@) =~= before.push(u@));
        }
        i = i + 1;
    }
    assert(us.take(i as int) =~= us);
    out
}

/// The check of `reference` against `candidate`, given the glyph of each checked usage in
/// order (`glyphs[i]` for the i-th usage of `checked_uses`).
pub fn check_from_glyphs(
    reference: &FontReference,
    candidate: &FontFace,
    glyphs: &Vec<Option<u16>>,
) -> (r: CoverageCheck)
    requires
        glyphs@.len() == checked_uses(reference@.characters).len(),
    ensures
        r@ == check_of(reference@, candidate@, glyphs@),
{
    let checked = checked_usages(reference);
    let ghost cv = char_uses(checked@);
    let mut missing: Vec<CharacterUsage> = Vec::new();
    let mut i: usize = 0;
    while i < checked.len()
        invariant
            i <= checked.len(),
            cv == char_uses(checked@),
            glyphs@.len() == checked@.len(),
            char_uses(missing@) == missing_of(cv.take(i as int), glyphs@.take(i as int)),
        decreases checked.len() - i,
    {
        let ghost before = char_uses(missing@);
        proof {
            assert(cv.take(i + 1).drop_last() =~= cv.take(i as int));
            assert(glyphs@.take(i + 1).take(i as int) =~= glyphs@.take(i as int));
            assert(glyphs@.take(i + 1)[i as int] == glyphs@[i as int]);
        }
        let missing_glyph = match glyphs[i] {
            Some(id) => id == 0,
            None => true,
        };
        if missing_glyph {
            missing.push(copy_usage(&checked[i]));
            assert(char_uses(missing@) =~= before.push(cv[i as int]));
        }
        i = i + 1;
    }
    proof {
        assert(cv.take(i as int) =~= cv);
        assert(glyphs@.take(i as int) =~= glyphs@);
    }
    CoverageCheck {
        reference: copy_reference(reference),
        candidate: copy_face(candidate),
        checked_characters: checked.len(),
        missing_characters: missing,
    }
}

/// Checks one candidate against the font data of its file: an error message when the
/// face does not parse, otherwise the coverage of its cmap.
pub fn check_candidate(reference: &FontReference, candidate: &FontFace, data: &[u8]) -> (r: Result<
    CoverageCheck,
    String,
>)
    ensures
        match r {
            Ok(c) => face_parse_error(data@, candidate.face_index) is None && c@ == check_of(
                reference@,
                candidate@,
                face_glyphs(data@, candidate.face_index, checked_uses(reference@.characters)),
            ),
            Err(m) => face_parse_error(data@, candidate.face_index) == Some(m@),
        },
{
    let face = match parse_face(data, candidate.face_index) {
        Ok(f) => f,
        Err(m) => {
            return Err(m);
        },
    };
    let checked = checked_usages(reference);
    let ghost cv = char_uses(checked@);
    let mut glyphs: Vec<Option<u16>> = Vec::new();
    let mut i: usize = 0;
    while i < checked.len()
        invariant
            i <= checked.len(),
            cv == char_uses(checked@),
            face.data@ == data@,
            face.index == candidate.face_index,
            glyphs@ == face_glyphs(data@, candidate.face_index, cv.take(i as int)),
        decreases checked.len() - i,
    {
        let g = glyph_of(&face, checked[i].character);
        glyphs.push(g);
        i = i + 1;
        assert(glyphs@ =~= face_glyphs(data@, candidate.face_index, cv.take(i as int)));
    }
    assert(cv.take(i as int) =~= cv);
    Ok(check_from_glyphs(reference, candidate, &glyphs))
}

/// The index of the first file entry with this path.
pub fn find_file(files: &Vec<FontFile>, path: &String) -> (r: Option<usize>)
    ensures
        match r {
            Some(i) => i < files@.len() && file_for(file_views(files@), path@) == Some(
                file_views(files@)[i as int].contents,
            ),
            None => file_for(file_views(files@), path@) is None,
        },
{
    let ghost fv = file_views(files@);
    let mut i: usize = 0;
    assert(fv.skip(0) =~= fv);
    while i < files.len()
        invariant
            i <= files.len(),
            fv == file_views(files@),
            file_for(fv, path@) == file_for(fv.skip(i as int), path@),
        decreases files.len() - i,
    {
        proof {
            assert(fv.skip(i as int).drop_first() =~= fv.skip(i + 1));
            assert(fv.skip(i as int)[0] == fv[i as int]);
        }
        if files[i].path == *path {
            return Some(i);
        }
        i = i + 1;
    }
    None
}

fn unchecked_entry(
    res: &Resolution,
    candidate: Option<FontFace>,
    reason: CoverageUnavailableReason,
    message: String,
) -> (r: UncheckableCoverage)
    ensures
        r@ == (UncheckView {
            reference: res@.reference,
            candidate: opt_face(candidate),
            missing_reason: res.missing_reason,
            reason,
            message: message@,
        }),
{
    UncheckableCoverage {
        reference: copy_reference(&res.reference),
        candidate,
        missing_reason: res.missing_reason,
        reason,
        message,
    }
}

/// Adds the outcomes of the candidates of `list` to `report`, which holds those of the
/// resolutions `before`.
fn check_resolutions(
    report: &mut CoverageReport,
    list: &Vec<Resolution>,
    files: &Vec<FontFile>,
    Ghost(before): Ghost<Seq<ResolutionView>>,
)
    requires
        files_cover(before + resolution_views(list@), file_views(files@)),
        (old(report)@.complete, old(report)@.incomplete, old(report)@.uncheckable) == buckets(
            outcomes(before, file_views(files@)),
        ),
    ensures
        (final(report)@.complete, final(report)@.incomplete, final(report)@.uncheckable)
            == buckets(outcomes(before + resolution_views(list@), file_views(files@))),
{
    let ghost rs = before + resolution_views(list@);
    let ghost fv = file_views(files@);
    let mut k: usize = 0;
    proof {
        assert(rs.take(before.len() as int) =~= before);
    }
    while k < list.len()
        invariant
            k <= list.len(),
            rs == before + resolution_views(list@),
            fv == file_views(files@),
            files_cover(rs, fv),
            (report@.complete, report@.incomplete, report@.uncheckable) == buckets(
                outcomes(rs.take(before.len() + k), fv),
            ),
        decreases list.len() - k,
    {
        let res = &list[k];
        let ghost rv = res@;
        let ghost at = before.len() + k;
        assert(rv == rs[at]);
        let ghost pre = outcomes(rs.take(at), fv);
        let mut j: usize = 0;
        proof {
            assert(pre + Seq::<Outcome>::empty() =~= pre);
            assert(rv.candidates.take(0).map_values(|c: FaceView| candidate_outcome(rv, c, fv))
                =~= Seq::<Outcome>::empty());
        }
        while j < res.candidates.len()
            invariant
                j <= res.candidates.len(),
                rv == res@,
                0 <= at < rs.len(),
                rv == rs[at],
                fv == file_views(files@),
                files_cover(rs, fv),
                (report@.complete, report@.incomplete, report@.uncheckable) == buckets(
                    pre + rv.candidates.take(j as int).map_values(
                        |c: FaceView| candidate_outcome(rv, c, fv),
                    ),
                ),
            decreases res.candidates.len() - j,
        {
            let candidate = &res.candidates[j];
            let ghost cv = candidate@;
            let ghost os = pre + rv.candidates.take(j as int).map_values(
                |c: FaceView| candidate_outcome(rv, c, fv),
            );
            let ghost os1 = pre + rv.candidates.take(j + 1).map_values(
                |c: FaceView| candidate_outcome(rv, c, fv),
            );
            proof {
                assert(rv.candidates[j as int] == cv);
                assert(os1 =~= os.push(candidate_outcome(rv, cv, fv)));
                assert(os1.drop_last() =~= os);
                assert(file_for(fv, rs[at].candidates[j as int].path) is Some);
            }
            let ghost b0 = report@;
            match find_file(files, &candidate.path) {
                Some(fi) => {
                    match &files[fi].contents {
                        Err(m) => {
                            let e = unchecked_entry(
                                res,
                                Some(copy_face(candidate)),
                                CoverageUnavailableReason::FontReadError,
                                m.clone(),
                            );
                            report.uncheckable.push(e);
                            assert(report@.uncheckable =~= b0.uncheckable.push(e@));
                        },
                        Ok(data) => {
                            match check_candidate(&res.reference, candidate, data.as_slice()) {
                                Ok(check) => {
                                    let ghost chv = check@;
                                    if check.missing_characters.len() == 0 {
                                        report.complete.push(check);
                                        assert(report@.complete =~= b0.complete.push(chv));
                                    } else {
                                        report.incomplete.push(check);
                                        assert(report@.incomplete =~= b0.incomplete.push(chv));
                                    }
                                },
                                Err(m) => {
                                    let e = unchecked_entry(
                                        res,
                                        Some(copy_face(candidate)),
                                        CoverageUnavailableReason::FaceParseError,
                                        m,
                                    );
                                    report.uncheckable.push(e);
                                    assert(report@.uncheckable =~= b0.uncheckable.push(e@));
                                },
                            }
                        },
                    }
                },
                None => {},
            }
            j = j + 1;
        }
        proof {
            assert(rv.candidates.take(j as int) =~= rv.candidates);
            assert(rs.take(at + 1).drop_last() =~= rs.take(at));
            assert(rs.take(at + 1).last() == rv);
            assert(candidate_pairs(rs.take(at + 1)).map_values(
                |p: (ResolutionView, FaceView)| candidate_outcome(p.0, p.1, fv),
            ) =~= pre + rv.candidates.map_values(|c: FaceView| candidate_outcome(rv, c, fv)));
        }
        k = k + 1;
    }
    proof {
        assert(rs.take(before.len() + k) =~= rs);
    }
}

/// Checks the candidates of `resolutions` against the contents of their files, which
/// `files` supplies by path: the resolved candidates first, then the ambiguous ones, each
/// in order; then one entry per missing resolution.
///
/// Variation selectors, joiners and directional formatting controls are not checked, as
/// they need no glyph of their own. No font fallback is applied and no text is shaped,
/// so a complete check establishes nominal character mapping only.
pub fn check_coverage(resolutions: &ResolveReport, files: &Vec<FontFile>) -> (r: CoverageReport)
    requires
        files_cover(
            resolution_views(resolutions.resolved@) + resolution_views(resolutions.ambiguous@),
            file_views(files@),
        ),
    ensures
        r@ == coverage_of(
            resolution_views(resolutions.resolved@),
            resolution_views(resolutions.ambiguous@),
            resolution_views(resolutions.missing@),
            file_views(files@),
        ),
{
    let ghost rv = resolution_views(resolutions.resolved@);
    let ghost av = resolution_views(resolutions.ambiguous@);
    let ghost fv = file_views(files@);
    let mut report = CoverageReport::default();
    proof {
        assert(outcomes(Seq::<ResolutionView>::empty(), fv) =~= Seq::<Outcome>::empty());
        assert(report@.complete =~= Seq::<CheckView>::empty());
        assert(report@.incomplete =~= Seq::<CheckView>::empty());
        assert(report@.uncheckable =~= Seq::<UncheckView>::empty());
        assert(Seq::<ResolutionView>::empty() + rv =~= rv);
        assert forall|i: int, j: int|
            0 <= i < rv.len() && 0 <= j < rv[i].candidates.len() implies (#[trigger] file_for(
            fv,
            rv[i].candidates[j].path,
        )) is Some by {
            assert((rv + av)[i] == rv[i]);
        }
    }
    check_resolutions(&mut report, &resolutions.resolved, files, Ghost(Seq::empty()));
    check_resolutions(&mut report, &resolutions.ambiguous, files, Ghost(rv));
    let ghost b = report@;
    let mut m: usize = 0;
    while m < resolutions.missing.len()
        invariant
            m <= resolutions.missing.len(),
            report@.complete == b.complete,
            report@.incomplete == b.incomplete,
            report@.uncheckable == b.uncheckable + resolution_views(
                resolutions.missing@,
            ).take(m as int).map_values(|r: ResolutionView| no_candidate(r)),
        decreases resolutions.missing.len() - m,
    {
        let res = &resolutions.missing[m];
        let ghost u0 = report@.uncheckable;
        let e = unchecked_entry(
            res,
            None,
            CoverageUnavailableReason::NoCandidate,
            message("font resolution has no candidate"),
        );
        report.uncheckable.push(e);
        proof {
            assert(report@.uncheckable =~= u0.push(e@));
            assert(resolution_views(resolutions.missing@).take(m + 1) =~= resolution_views(
                resolutions.missing@,
            ).take(m as int).push(res@));
            assert(b.uncheckable + resolution_views(resolutions.missing@).take(m + 1).map_values(
                |r: ResolutionView| no_candidate(r),
            ) =~= u0.push(no_candidate(res@)));
        }
        m = m + 1;
    }
    assert(resolution_views(resolutions.missing@).take(m as int) =~= resolution_views(
        resolutions.missing@,
    ));
    report
}

impl ResolveReport {
    /// Checks nominal glyph coverage of every selected candidate; the same as
    /// [`check_coverage`].
    pub fn check_coverage(&self, files: &Vec<FontFile>) -> (r: CoverageReport)
        requires
            files_cover(
                resolution_views(self.resolved@) + resolution_views(self.ambiguous@),
                file_views(files@),
            ),
        ensures
            r@ == coverage_of(
                resolution_views(self.resolved@),
                resolution_views(self.ambiguous@),
                resolution_views(self.missing@),
                file_views(files@),
            ),
    {
        check_coverage(self, files)
    }
}

/// Some string of `v` is `p`.
pub open spec fn has_path(v: Seq<String>, p: Seq<char>) -> bool {
    exists|i: int| 0 <= i < v.len() && (#[trigger] v[i])@ == p
}

/// Some candidate of the first `n` resolutions of `rs` has the path `p`.
pub open spec fn candidate_path(rs: Seq<Resolution>, n: int, p: Seq<char>) -> bool {
    exists|i: int, j: int|
        0 <= i < n && i < rs.len() && 0 <= j < rs[i].candidates@.len() && (
        #[trigger] rs[i].candidates@[j]).path@ == p
}

/// Some of the first `n` candidates of `r` has the path `p`.
pub open spec fn path_among(r: Resolution, n: int, p: Seq<char>) -> bool {
    exists|j: int| 0 <= j < n && j < r.candidates@.len() && (#[trigger] r.candidates@[j]).path@ == p
}

pub open spec fn distinct_paths(v: Seq<String>) -> bool {
    forall|i: int, j: int| 0 <= i < j < v.len() ==> (#[trigger] v[i])@ != (#[trigger] v[j])@
}

/// Adds to `out` the paths of the candidates of `rs` that it lacks, in order.
fn add_candidate_paths(out: &mut Vec<String>, rs: &Vec<Resolution>)
    requires
        distinct_paths(old(out)@),
    ensures
        distinct_paths(final(out)@),
        forall|p: Seq<char>|
            #[trigger] has_path(final(out)@, p) <==> (has_path(old(out)@, p) || candidate_path(
                rs@,
                rs@.len() as int,
                p,
            )),
{
    let ghost o = out@;
    let mut i: usize = 0;
    while i < rs.len()
        invariant
            i <= rs.len(),
            distinct_paths(out@),
            forall|p: Seq<char>|
                #[trigger] has_path(out@, p) <==> (has_path(o, p) || candidate_path(
                    rs@,
                    i as int,
                    p,
                )),
        decreases rs.len() - i,
    {
        let mut j: usize = 0;
        let cands = &rs[i].candidates;
        while j < cands.len()
            invariant
                i < rs.len(),
                cands@ == rs@[i as int].candidates@,
                j <= cands.len(),
                distinct_paths(out@),
                forall|p: Seq<char>|
                    #[trigger] has_path(out@, p) <==> (has_path(o, p) || candidate_path(
                        rs@,
                        i as int,
                        p,
                    ) || path_among(rs@[i as int], j as int, p)),
            decreases cands.len() - j,
        {
            let path = &cands[j].path;
            let mut t: usize = 0;
            let mut found = false;
            while t < out.len()
                invariant
                    t <= out.len(),
                    found == (exists|q: int| 0 <= q < t && (#[trigger] out@[q])@ == path@),
                decreases out.len() - t,
            {
                if out[t] == *path {
                    found = true;
                }
                t = t + 1;
            }
            let ghost o1 = out@;
            if !found {
                out.push(path.clone());
                proof {
                    assert(out@[o1.len() as int]@ == path@);
                    assert forall|a: int, b: int| 0 <= a < b < out@.len() implies (
                    #[trigger] out@[a])@ != (#[trigger] out@[b])@ by {
                        if b < o1.len() {
                            assert(o1[a] == out@[a] && o1[b] == out@[b]);
                        } else {
                            assert(o1[a] == out@[a]);
                        }
                    }
                }
            }
            proof {
                assert forall|p: Seq<char>|
                    #[trigger] has_path(out@, p) <==> (has_path(o, p) || candidate_path(
                        rs@,
                        i as int,
                        p,
                    ) || path_among(rs@[i as int], j + 1, p)) by {
                    assert(has_path(o1, p) <==> (has_path(o, p) || candidate_path(
                        rs@,
                        i as int,
                        p,
                    ) || path_among(rs@[i as int], j as int, p)));
                    if has_path(out@, p) {
                        let a = choose|a: int| 0 <= a < out@.len() && (#[trigger] out@[a])@ == p;
                        if a < o1.len() {
                            assert(o1[a] == out@[a]);
                        } else {
                            assert(rs@[i as int].candidates@[j as int].path@ == p);
                        }
                    }
                    if path_among(rs@[i as int], j + 1, p) {
                        let b = choose|b: int|
                            0 <= b < j + 1 && b < rs@[i as int].candidates@.len() && (
                            #[trigger] rs@[i as int].candidates@[b]).path@ == p;
                        if b == j {
                            if found {
                                let q = choose|q: int| 0 <= q < o1.len() && (#[trigger] o1[q])@ == p;
                                assert(out@[q] == o1[q]);
                            } else {
                                assert(out@[o1.len() as int]@ == p);
                            }
                        } else {
                            assert(path_among(rs@[i as int], j as int, p));
                        }
                    }
                    if has_path(o1, p) {
                        let a = choose|a: int| 0 <= a < o1.len() && (#[trigger] o1[a])@ == p;
                        assert(out@[a] == o1[a]);
                    }
                }
            }
            j = j + 1;
        }
        proof {
            assert forall|p: Seq<char>|
                #[trigger] has_path(out@, p) <==> (has_path(o, p) || candidate_path(
                    rs@,
                    i + 1,
                    p,
                )) by {
                if candidate_path(rs@, i + 1, p) {
                    let (a, b) = choose|a: int, b: int|
                        0 <= a < i + 1 && a < rs@.len() && 0 <= b < rs@[a].candidates@.len() && (
                        #[trigger] rs@[a].candidates@[b]).path@ == p;
                    if a == i {
                        assert(path_among(rs@[i as int], j as int, p));
                    } else {
                        assert(candidate_path(rs@, i as int, p));
                    }
                }
                if path_among(rs@[i as int], j as int, p) {
                    let b = choose|b: int|
                        0 <= b < j && b < rs@[i as int].candidates@.len() && (
                        #[trigger] rs@[i as int].candidates@[b]).path@ == p;
                    assert(candidate_path(rs@, i + 1, p));
                }
                if candidate_path(rs@, i as int, p) {
                    let (a, b) = choose|a: int, b: int|
                        0 <= a < i && a < rs@.len() && 0 <= b < rs@[a].candidates@.len() && (
                        #[trigger] rs@[a].candidates@[b]).path@ == p;
                    assert(candidate_path(rs@, i + 1, p));
                }
            }
        }
        i = i + 1;
    }
}

/// The distinct paths of all candidates of a report (resolved, then ambiguous): the files
/// whose contents coverage checking needs.
pub fn candidate_paths(report: &ResolveReport) -> (r: Vec<String>)
    ensures
        distinct_paths(r@),
        forall|p: Seq<char>|
            #[trigger] has_path(r@, p) <==> (candidate_path(
                report.resolved@,
                report.resolved@.len() as int,
                p,
            ) || candidate_path(report.ambiguous@, report.ambiguous@.len() as int, p)),
{
    let mut out: Vec<String> = Vec::new();
    add_candidate_paths(&mut out, &report.resolved);
    add_candidate_paths(&mut out, &report.ambiguous);
    out
}

} // verus!
