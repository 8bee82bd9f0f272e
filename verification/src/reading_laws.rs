//! How single values are read: the Bold and Italic flags of styles and override tags,
//! the kinds of scanned name records, per-character case mapping, and the format
//! controls that coverage does not check.
use crate::ass::{
    ScriptState, StyleView, define_style, diag, field, lookup_style, msg_duplicate_style,
    msg_style_attributes,
    style_index, style_record, trimmed_fields,
};
use crate::coverage::{check_of, checked_uses, missing_of, requires_nominal_glyph};
use crate::extract_laws::lemma_trim_idempotent;
use crate::fonts::{FaceView, NameKind, NameView};
use crate::index::keep;
use crate::laws::{lemma_contains_map, lemma_keep_has};
use crate::overrides::{LineContext, TagState, apply_tag, msg_bad_bold, msg_bad_italic};
use crate::scan::{decoded, scanned_face, typed_name, usable, usable_names};
use crate::subtitle::{CharUse, DiagView, RefView};
use crate::text::{collapse_spaces, is_digit, lower_all, normalize, parse_i32, trim, trim_start_char};
use crate::unicode::nfkc;
use crate::ttf::NameRecordView;
use crate::unicode::char_lowercase;
use vstd::prelude::*;

verus! {

/// A value that parses as an integer starts with a sign or a digit, never a letter.
proof fn lemma_parsed_start(v: Seq<char>)
    requires
        parse_i32(v) is Some,
    ensures
        v.len() > 0,
        v[0] == '-' || v[0] == '+' || is_digit(v[0]),
{
}

/// The Bold and Italic override tags (`\b` and `\i` followed by an integer). For `\i`:
/// 1 and -1 turn italic on, 0 turns it off, any other integer is reported and ignored.
/// For `\b`: 1 and -1 select weight 700, 0 selects 400, 100 to 900 select that weight,
/// any other integer is reported and ignored. Nothing else changes, and no other
/// diagnostic is added.
pub proof fn law_flag_overrides(
    ctx: LineContext,
    st: TagState,
    diags: Seq<DiagView>,
    tag: Seq<char>,
    n: i32,
)
    requires
        tag.len() > 0,
        tag[0] == 'i' || tag[0] == 'b',
        parse_i32(trim(tag.drop_first())) == Some(n),
    ensures
        tag[0] == 'i' && (n == 1 || n == -1) ==> apply_tag(ctx, st, diags, tag) == (
        TagState { italic: true, ..st }, diags),
        tag[0] == 'i' && n == 0 ==> apply_tag(ctx, st, diags, tag) == (
        TagState { italic: false, ..st }, diags),
        tag[0] == 'i' && n != 0 && n != 1 && n != -1 ==> apply_tag(ctx, st, diags, tag) == (
        st, diags.push(diag(ctx.line, msg_bad_italic(tag)))),
        tag[0] == 'b' && (n == 1 || n == -1) ==> apply_tag(ctx, st, diags, tag) == (
        TagState { weight: 700u16, ..st }, diags),
        tag[0] == 'b' && n == 0 ==> apply_tag(ctx, st, diags, tag) == (
        TagState { weight: 400u16, ..st }, diags),
        tag[0] == 'b' && 100 <= n <= 900 ==> apply_tag(ctx, st, diags, tag) == (
        TagState { weight: n as u16, ..st }, diags),
        tag[0] == 'b' && n != 0 && n != 1 && n != -1 && !(100 <= n <= 900) ==> apply_tag(
            ctx,
            st,
            diags,
            tag,
        ) == (st, diags.push(diag(ctx.line, msg_bad_bold(tag)))),
{
    let v = trim(tag.drop_first());
    lemma_parsed_start(v);
    lemma_trim_idempotent(tag.drop_first());
    assert(trim(v) == v);
}

/// `define_style` then `lookup_style` of the same name gives the style defined.
proof fn lemma_define_lookup(styles: Seq<(Seq<char>, StyleView)>, name: Seq<char>, style: StyleView)
    ensures
        lookup_style(define_style(styles, name, style), name) == Some(style),
{
    crate::ass::lemma_style_index(styles, name);
    let d = define_style(styles, name, style);
    crate::ass::lemma_style_index(d, name);
    match style_index(styles, name) {
        Some(i) => {
            assert(d[i].0 == name);
            assert forall|j: int| 0 <= j < i implies d[j].0 != name by {
                assert(d[j] == styles[j]);
            }
            match style_index(d, name) {
                Some(k) => {
                    assert(k == i);
                },
                None => {
                    assert(d[i].0 == name);
                },
            }
        },
        None => {
            let l = styles.len() as int;
            assert(d[l].0 == name);
            assert forall|j: int| 0 <= j < l implies d[j].0 != name by {
                assert(d[j] == styles[j]);
            }
            match style_index(d, name) {
                Some(k) => {
                    assert(k == l);
                },
                None => {
                    assert(d[l].0 == name);
                },
            }
        },
    }
}

/// The weight that a Bold value `b` selects: 0 is 400, 1 and -1 are 700, 100 to 900 are
/// that weight; anything else is invalid and falls back to 400.
pub open spec fn bold_weight(b: i32) -> u16 {
    if b == 1 || b == -1 {
        700u16
    } else if 100 <= b <= 900 {
        b as u16
    } else {
        400u16
    }
}

pub open spec fn bold_valid(b: i32) -> bool {
    b == 0 || b == 1 || b == -1 || 100 <= b <= 900
}

/// A style line's Bold and Italic values: Bold 1 or -1 gives weight 700, 0 gives 400 and
/// 100 to 900 give that weight; Italic 1 or -1 gives an italic style and 0 an upright one.
/// An integer outside these is reported once as invalid and its default (400, upright)
/// is used. The line defines its style under its name with its font, and adds no other
/// diagnostic but the note of a duplicate name.
pub proof fn law_style_flags(
    st: ScriptState,
    line: usize,
    value: Seq<char>,
    name: Seq<char>,
    font: Seq<char>,
    bold: Seq<char>,
    italic: Seq<char>,
    b: i32,
    i: i32,
)
    requires
        trimmed_fields(value).len() == st.style_format.len(),
        field(st.style_format, trimmed_fields(value), "name"@) == Some(name),
        field(st.style_format, trimmed_fields(value), "fontname"@) == Some(font),
        name.len() > 0,
        normalize(font).len() > 0,
        field(st.style_format, trimmed_fields(value), "bold"@) == Some(bold),
        field(st.style_format, trimmed_fields(value), "italic"@) == Some(italic),
        parse_i32(trim(bold)) == Some(b),
        parse_i32(trim(italic)) == Some(i),
    ensures
        lookup_style(style_record(st, line, value).styles, name) == Some(
            StyleView { font, weight: bold_weight(b), italic: i == 1 || i == -1 },
        ),
        ({
            let base = if bold_valid(b) && (i == 0 || i == 1 || i == -1) {
                st.diags
            } else {
                st.diags.push(diag(line, msg_style_attributes()))
            };
            style_record(st, line, value).diags == base || style_record(st, line, value).diags
                == base.push(diag(line, msg_duplicate_style(name)))
        }),
{
    let style = StyleView { font, weight: bold_weight(b), italic: i == 1 || i == -1 };
    let st2 = if bold_valid(b) && (i == 0 || i == 1 || i == -1) {
        st
    } else {
        crate::ass::add_diag(st, line, msg_style_attributes())
    };
    let st3 = if lookup_style(st2.styles, name) is Some {
        crate::ass::add_diag(st2, line, msg_duplicate_style(name))
    } else {
        st2
    };
    lemma_define_lookup(st3.styles, name, style);
}

/// The typed names of a scanned face come from its name records: each carries the ID of
/// a record whose text it is, that ID is one of 1, 4, 6, 16, 18 and 21, and its kind
/// follows from the ID: `Family` exactly for 1, 16 and 21, `FullName` exactly for 4 and
/// 18, `PostScriptName` exactly for 6.
pub proof fn law_scanned_name_kinds(
    g: FaceView,
    path: Seq<char>,
    index: u32,
    rs: Seq<NameRecordView>,
    weight: u16,
    italic: bool,
)
    requires
        scanned_face(g, path, index, rs, weight, italic),
    ensures
        forall|k: int|
            0 <= k < g.records.len() ==> {
                let x = #[trigger] g.records[k];
                &&& x.name_id is Some
                &&& exists|j: int|
                    0 <= j < rs.len() && rs[j].name_id == x.name_id->0 && decoded(rs[j])
                        == Some(x.name)
                &&& (x.kind == NameKind::Family) == (x.name_id == Some(1u16) || x.name_id == Some(
                    16u16,
                ) || x.name_id == Some(21u16))
                &&& (x.kind == NameKind::FullName) == (x.name_id == Some(4u16) || x.name_id
                    == Some(18u16))
                &&& (x.kind == NameKind::PostScriptName) == (x.name_id == Some(6u16))
            },
{
    let kept = keep(rs, |r: NameRecordView| usable(r));
    let u = usable_names(rs);
    lemma_keep_has(rs, |r: NameRecordView| usable(r));
    assert forall|k: int| 0 <= k < g.records.len() implies {
        let x = #[trigger] g.records[k];
        &&& x.name_id is Some
        &&& exists|j: int|
            0 <= j < rs.len() && rs[j].name_id == x.name_id->0 && decoded(rs[j]) == Some(x.name)
        &&& (x.kind == NameKind::Family) == (x.name_id == Some(1u16) || x.name_id == Some(16u16)
            || x.name_id == Some(21u16))
        &&& (x.kind == NameKind::FullName) == (x.name_id == Some(4u16) || x.name_id == Some(
            18u16,
        ))
        &&& (x.kind == NameKind::PostScriptName) == (x.name_id == Some(6u16))
    } by {
        let x = g.records[k];
        assert(g.records.contains(x));
        assert(u.contains(x));
        lemma_contains_map(kept, |r: NameRecordView| typed_name(r), x);
        let q = choose|q: int| 0 <= q < kept.len() && typed_name(kept[q]) == x;
        let r = kept[q];
        assert(kept.contains(r));
        lemma_keep_has(rs, |r: NameRecordView| usable(r));
        assert(rs.contains(r));
        let j = choose|j: int| 0 <= j < rs.len() && rs[j] == r;
        assert(rs[j].name_id == x.name_id->0 && decoded(rs[j]) == Some(x.name));
    }
}

/// Case mapping is per character: the lowercase form of a text is the concatenation of
/// `char::to_lowercase` of each of its characters, so it maps concatenations to
/// concatenations; a normalized name is the NFKC form of its trimmed, `@`-stripped text
/// with every character mapped so, and whitespace runs collapsed.
pub proof fn law_lowercase_each_character(s: Seq<char>, t: Seq<char>)
    ensures
        lower_all(s) == s.map_values(|c: char| char_lowercase(c)).flatten(),
        lower_all(s + t) == lower_all(s) + lower_all(t),
        normalize(s) == collapse_spaces(
            nfkc(trim_start_char(trim(s), '@')).map_values(|c: char| char_lowercase(c)).flatten(),
        ),
    decreases s.len() + t.len(),
{
    lemma_lower_all_alt(s);
    let core = nfkc(trim_start_char(trim(s), '@'));
    lemma_lower_all_alt(core);
    core.map_values(|c: char| char_lowercase(c)).lemma_flatten_and_flatten_alt_are_equivalent();
    s.map_values(|c: char| char_lowercase(c)).lemma_flatten_and_flatten_alt_are_equivalent();
    if t.len() > 0 {
        law_lowercase_each_character(s, t.drop_last());
        assert((s + t).drop_last() =~= s + t.drop_last());
        assert((s + t).last() == t.last());
    } else {
        assert(s + t =~= s);
    }
}

proof fn lemma_lower_all_alt(s: Seq<char>)
    ensures
        lower_all(s) == s.map_values(|c: char| char_lowercase(c)).flatten_alt(),
    decreases s.len(),
{
    if s.len() > 0 {
        lemma_lower_all_alt(s.drop_last());
        assert(s.map_values(|c: char| char_lowercase(c)).drop_last() =~= s.drop_last().map_values(
            |c: char| char_lowercase(c),
        ));
    }
}

/// Format controls with no glyph of their own: soft hyphen, combining grapheme joiner,
/// Arabic letter mark, Mongolian variation selectors and vowel separator, zero-width
/// space, non-joiner and joiner, left-to-right and right-to-left marks, bidirectional
/// embeddings and overrides, word joiner and invisible operators, BMP variation
/// selectors, the byte-order mark, interlinear annotation controls, tags and
/// supplementary variation selectors.
pub open spec fn format_control(c: char) -> bool {
    let v = c as u32;
    ||| v == 0xad
    ||| v == 0x34f
    ||| v == 0x61c
    ||| 0x180b <= v <= 0x180f
    ||| 0x200b <= v <= 0x200f
    ||| 0x202a <= v <= 0x202e
    ||| 0x2060 <= v <= 0x206f
    ||| 0xfe00 <= v <= 0xfe0f
    ||| v == 0xfeff
    ||| 0xfff9 <= v <= 0xfffb
    ||| 0xe0000 <= v <= 0xe007f
    ||| 0xe0100 <= v <= 0xe01ef
}

/// Format controls are never checked for a glyph: a usage of one counts toward no
/// check and is never reported missing, and adding such a usage to a request leaves the
/// usages that are checked as they were.
pub proof fn law_format_controls_are_not_checked(
    r: RefView,
    c: FaceView,
    glyphs: Seq<Option<u16>>,
    us: Seq<CharUse>,
    u: CharUse,
)
    requires
        format_control(u.character),
    ensures
        !requires_nominal_glyph(u.character),
        forall|i: int|
            0 <= i < checked_uses(r.characters).len() ==> !format_control(
                #[trigger] checked_uses(r.characters)[i].character,
            ),
        forall|i: int|
            0 <= i < check_of(r, c, glyphs).missing.len() ==> !format_control(
                #[trigger] check_of(r, c, glyphs).missing[i].character,
            ),
        checked_uses(us.push(u)) == checked_uses(us),
{
    let cs = checked_uses(r.characters);
    assert forall|i: int| 0 <= i < cs.len() implies !format_control(#[trigger] cs[i].character) by {
        let q = |u: CharUse| requires_nominal_glyph(u.character);
        assert(cs == keep(r.characters, q));
        crate::laws::lemma_kept(r.characters, q);
        assert(q(cs[i]));
    }
    lemma_missing_within(cs, glyphs);
    let m = check_of(r, c, glyphs).missing;
    assert forall|i: int| 0 <= i < m.len() implies !format_control(#[trigger] m[i].character) by {
        assert(m.contains(m[i]));
        assert(cs.contains(m[i]));
        let j = choose|j: int| 0 <= j < cs.len() && cs[j] == m[i];
        assert(!format_control(cs[j].character));
    }
    assert(us.push(u).drop_last() =~= us);
}

proof fn lemma_missing_within(cs: Seq<CharUse>, glyphs: Seq<Option<u16>>)
    ensures
        forall|x: CharUse| missing_of(cs, glyphs).contains(x) ==> cs.contains(x),
    decreases cs.len(),
{
    if cs.len() > 0 {
        let init = cs.drop_last();
        lemma_missing_within(init, glyphs.take(cs.len() - 1));
        assert forall|x: CharUse| missing_of(cs, glyphs).contains(x) implies cs.contains(x) by {
            let rest = missing_of(init, glyphs.take(cs.len() - 1));
            if rest.contains(x) {
                assert(init.contains(x));
                let j = choose|j: int| 0 <= j < init.len() && init[j] == x;
                assert(cs[j] == x);
            } else {
                let m = missing_of(cs, glyphs);
                let k = choose|k: int| 0 <= k < m.len() && m[k] == x;
                if k < rest.len() {
                    assert(rest[k] == x);
                } else {
                    assert(x == cs.last());
                    assert(cs[cs.len() - 1] == x);
                }
            }
        }
    }
}

} // verus!
