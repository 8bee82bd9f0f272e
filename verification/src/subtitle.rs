//! Public subtitle types and their abstract views.
use crate::ass::{Script, script_state};
use crate::overrides::{RefEntry, entry_views, process_events, process_events_in, sort_by_line, sort_by_line_of};
use crate::text::{chars_of, lines, lines_chars, trim_start_char, trim_start_char_chars, views};
use vstd::prelude::*;

verus! {

/// One distinct dialogue character and the one-based lines on which it was drawn with a
/// font request.
#[derive(Debug, Clone, PartialEq, Eq)]
pub struct CharacterUsage {
    pub character: char,
    /// One-based source line numbers, sorted and unique.
    pub lines: Vec<usize>,
}

pub struct CharUse {
    pub character: char,
    pub lines: Seq<usize>,
}

impl View for CharacterUsage {
    type V = CharUse;

    open spec fn view(&self) -> CharUse {
        CharUse { character: self.character, lines: self.lines@ }
    }
}

/// A font request of the subtitle: a font name with a weight and italic state.
#[derive(Debug, Clone, PartialEq, Eq)]
pub struct FontReference {
    pub name: String,
    /// Requested weight: 400 for normal, 700 for bold, or an explicit ASS weight.
    pub weight: u16,
    pub italic: bool,
    /// One-based source line numbers, sorted and unique.
    pub lines: Vec<usize>,
    /// Distinct visible characters drawn with this request, sorted by character.
    pub characters: Vec<CharacterUsage>,
}

pub struct RefView {
    pub name: Seq<char>,
    pub weight: u16,
    pub italic: bool,
    pub lines: Seq<usize>,
    pub characters: Seq<CharUse>,
}

pub open spec fn char_uses(v: Seq<CharacterUsage>) -> Seq<CharUse> {
    v.map_values(|u: CharacterUsage| u@)
}

impl View for FontReference {
    type V = RefView;

    open spec fn view(&self) -> RefView {
        RefView {
            name: self.name@,
            weight: self.weight,
            italic: self.italic,
            lines: self.lines@,
            characters: char_uses(self.characters@),
        }
    }
}

pub open spec fn ref_views(v: Seq<FontReference>) -> Seq<RefView> {
    v.map_values(|r: FontReference| r@)
}

/// A skipped or partly applied subtitle record.
#[derive(Debug, Clone, PartialEq, Eq)]
pub struct Diagnostic {
    pub line: usize,
    pub message: String,
}

pub struct DiagView {
    pub line: usize,
    pub message: Seq<char>,
}

impl View for Diagnostic {
    type V = DiagView;

    open spec fn view(&self) -> DiagView {
        DiagView { line: self.line, message: self.message@ }
    }
}

pub open spec fn diag_views(v: Seq<Diagnostic>) -> Seq<DiagView> {
    v.map_values(|d: Diagnostic| d@)
}

pub fn copy_usize_vec(v: &Vec<usize>) -> (r: Vec<usize>)
    ensures
        r@ == v@,
{
    let mut r: Vec<usize> = Vec::new();
    let mut i: usize = 0;
    while i < v.len()
        invariant
            i <= v.len(),
            r@ == v@.take(i as int),
        decreases v.len() - i,
    {
        r.push(v[i]);
        i = i + 1;
        assert(r@ =~= v@.take(i as int));
    }
    assert(v@.take(i as int) =~= v@);
    r
}

pub fn copy_reference(f: &FontReference) -> (r: FontReference)
    ensures
        r@ == f@,
{
    let mut characters: Vec<CharacterUsage> = Vec::new();
    let mut i: usize = 0;
    while i < f.characters.len()
        invariant
            i <= f.characters.len(),
            char_uses(characters@) == char_uses(f.characters@).take(i as int),
        decreases f.characters.len() - i,
    {
        let u = CharacterUsage {
            character: f.characters[i].character,
            lines: copy_usize_vec(&f.characters[i].lines),
        };
        let ghost before = char_uses(characters@);
        characters.push(u);
        assert(char_uses(characters@) =~= before.push(f.characters@[i as int]@));
        i = i + 1;
        assert(char_uses(f.characters@).take(i as int) =~= before.push(f.characters@[i - 1]@));
    }
    assert(char_uses(f.characters@).take(i as int) =~= char_uses(f.characters@));
    FontReference {
        name: f.name.clone(),
        weight: f.weight,
        italic: f.italic,
        lines: copy_usize_vec(&f.lines),
        characters,
    }
}

/// Font requests and diagnostics of one subtitle.
#[derive(Debug, Clone, PartialEq, Eq)]
pub struct SubtitleFonts {
    pub references: Vec<FontReference>,
    pub diagnostics: Vec<Diagnostic>,
}

impl Default for SubtitleFonts {
    fn default() -> (r: Self)
        ensures
            r.references@.len() == 0,
            r.diagnostics@.len() == 0,
    {
        SubtitleFonts { references: Vec::new(), diagnostics: Vec::new() }
    }
}

/// Font requests and diagnostics of a script: the first pass reads sections, formats,
/// styles and dialogue records; the second reads each dialogue's text and override tags.
/// References come in ascending order of (normalized name, weight, italic); diagnostics
/// in ascending line order.
pub open spec fn extract(text: Seq<char>) -> (Seq<RefView>, Seq<DiagView>) {
    let st = script_state(lines(trim_start_char(text, '\u{feff}')));
    let done = process_events(st.styles, st.events, st.diags);
    (done.0.map_values(|e: (Seq<char>, RefView)| e.1), sort_by_line(done.1))
}

/// Parse ASS v4+ or SSA v4. Only fonts applied to non-whitespace dialogue text are
/// collected. Invalid records are diagnosed and skipped.
pub fn extract_fonts(text: &str) -> (r: SubtitleFonts)
    ensures
        ref_views(r.references@) == extract(text@).0,
        diag_views(r.diagnostics@) == extract(text@).1,
{
    let chars = chars_of(text);
    let body = trim_start_char_chars(&chars, '\u{feff}');
    let ls = lines_chars(&body);
    let ghost lv = views(ls@);
    let mut script = Script::new();
    let mut i: usize = 0;
    assert(lv.take(0) =~= Seq::<Seq<char>>::empty());
    while i < ls.len()
        invariant
            i <= ls.len(),
            lv == views(ls@),
            script@ == script_state(lv.take(i as int)),
        decreases ls.len() - i,
    {
        assert(lv.take(i + 1).drop_last() =~= lv.take(i as int));
        assert(lv.take(i + 1).last() == ls@[i as int]@);
        script.script_line(i + 1, &ls[i]);
        i = i + 1;
    }
    assert(lv.take(i as int) =~= lv);
    let mut diags = script.diags;
    let mut entries = process_events_in(&script.styles, &script.events, &mut diags);
    let ghost ev = entry_views(entries@);
    let mut references: Vec<FontReference> = Vec::new();
    let mut k: usize = 0;
    while k < entries.len()
        invariant
            k <= entries.len(),
            entries@.len() == ev.len(),
            forall|j: int| k <= j < ev.len() ==> (#[trigger] entries@[j]).reference@ == ev[j].1,
            ref_views(references@) == ev.take(k as int).map_values(
                |e: (Seq<char>, RefView)| e.1,
            ),
        decreases entries.len() - k,
    {
        let mut cell = RefEntry {
            key: Vec::new(),
            reference: FontReference {
                name: String::new(),
                weight: 0,
                italic: false,
                lines: Vec::new(),
                characters: Vec::new(),
            },
        };
        entries.set_and_swap(k, &mut cell);
        let ghost rv = cell.reference@;
        let ghost prev = ref_views(references@);
        references.push(cell.reference);
        proof {
            assert(ref_views(references@) =~= prev.push(rv));
            assert(ev.take(k + 1) =~= ev.take(k as int).push(ev[k as int]));
            assert(ev.take(k + 1).map_values(|e: (Seq<char>, RefView)| e.1) =~= ev.take(
                k as int,
            ).map_values(|e: (Seq<char>, RefView)| e.1).push(ev[k as int].1));
        }
        k = k + 1;
    }
    assert(ev.take(k as int) =~= ev);
    let diagnostics = sort_by_line_of(&diags);
    SubtitleFonts { references, diagnostics }
}

/// An uppercase hexadecimal digit.
pub open spec fn hex_digit(d: u8) -> char {
    if d < 10 {
        (48 + d) as u8 as char
    } else {
        (55 + d) as u8 as char
    }
}

/// Uppercase hexadecimal digits of a number, most significant first, without leading zeros.
pub open spec fn hex(v: u32) -> Seq<char>
    decreases v,
{
    if v < 16 {
        seq![hex_digit(v as u8)]
    } else {
        hex(v / 16).push(hex_digit((v % 16) as u8))
    }
}

/// `s` with zeros put in front up to `w` characters.
pub open spec fn zero_pad(s: Seq<char>, w: nat) -> Seq<char> {
    if s.len() >= w {
        s
    } else {
        Seq::new((w - s.len()) as nat, |i: int| '0') + s
    }
}

/// `U+` and at least four uppercase hexadecimal digits of the code point.
pub open spec fn codepoint_text(c: char) -> Seq<char> {
    seq!['U', '+'] + zero_pad(hex(c as u32), 4)
}

fn hex_digit_of(d: u8) -> (r: char)
    requires
        d < 16,
    ensures
        r == hex_digit(d),
{
    if d < 10 {
        (48 + d) as char
    } else {
        (55 + d) as char
    }
}

fn hex_of(v: u32) -> (r: Vec<char>)
    ensures
        r@ == hex(v),
        r@.len() >= 1,
    decreases v,
{
    if v < 16 {
        let mut r: Vec<char> = Vec::new();
        r.push(hex_digit_of(v as u8));
        assert(r@ =~= seq![hex_digit(v as u8)]);
        r
    } else {
        let mut r = hex_of(v / 16);
        r.push(hex_digit_of((v % 16) as u8));
        r
    }
}

impl CharacterUsage {
    /// The code point for display, such as `U+5B57`: `U+` and at least four uppercase
    /// hexadecimal digits.
    pub fn codepoint(&self) -> (r: String)
        ensures
            r@ == codepoint_text(self.character),
    {
        let digits = hex_of(self.character as u32);
        let mut out: Vec<char> = Vec::new();
        out.push('U');
        out.push('+');
        let mut pad: usize = 0;
        let need: usize = if digits.len() < 4 {
            4 - digits.len()
        } else {
            0
        };
        while pad < need
            invariant
                pad <= need,
                out@ == seq!['U', '+'] + Seq::new(pad as nat, |i: int| '0'),
            decreases need - pad,
        {
            out.push('0');
            pad = pad + 1;
            assert(out@ =~= seq!['U', '+'] + Seq::new(pad as nat, |i: int| '0'));
        }
        let mut k: usize = 0;
        let ghost base = out@;
        while k < digits.len()
            invariant
                k <= digits.len(),
                out@ == base + digits@.take(k as int),
            decreases digits.len() - k,
        {
            out.push(digits[k]);
            k = k + 1;
            assert(out@ =~= base + digits@.take(k as int));
        }
        proof {
            assert(digits@.take(k as int) =~= digits@);
            if digits@.len() >= 4 {
                assert(Seq::new(0nat, |i: int| '0') =~= Seq::<char>::empty());
                assert(out@ =~= codepoint_text(self.character));
            } else {
                assert(out@ =~= codepoint_text(self.character));
            }
        }
        crate::unicode::string_from_chars(&out)
    }
}

} // verus!
