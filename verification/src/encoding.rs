//! Subtitle file encodings: UTF-8 (an optional byte-order mark is kept as a character)
//! or UTF-16 marked little- or big-endian by its byte-order mark.
use crate::ass::message;
use crate::subtitle::{SubtitleFonts, diag_views, extract, extract_fonts, ref_views};
use crate::utf16::{be_units, decode_utf16, le_units, utf16_decode, units_of};
use vstd::prelude::*;
use vstd::utf8::{decode_utf8, valid_utf8};

verus! {

/// The `Display` text of the error that `String::from_utf8` gives for these bytes.
pub uninterp spec fn utf8_error_text(bytes: Seq<u8>) -> Seq<char>;

/// Calls `String::from_utf8`, turning its error into its `Display` text. Claimed, as its
/// documentation says: the decoded text exactly when the bytes are valid UTF-8, otherwise
/// an error whose text is `utf8_error_text` of the bytes.
#[verifier::external_body]
fn utf8_string(bytes: Vec<u8>) -> (r: Result<String, String>)
    ensures
        match r {
            Ok(s) => valid_utf8(bytes@) && s@ == decode_utf8(bytes@),
            Err(m) => !valid_utf8(bytes@) && m@ == utf8_error_text(bytes@),
        },
{
    String::from_utf8(bytes).map_err(|e| e.to_string())
}

/// The data starts with a UTF-16 byte-order mark, little-endian `FF FE` or big-endian
/// `FE FF`.
pub open spec fn utf16_marked(b: Seq<u8>) -> bool {
    b.len() >= 2 && ((b[0] == 0xffu8 && b[1] == 0xfeu8) || (b[0] == 0xfeu8 && b[1] == 0xffu8))
}

/// The text of subtitle data, or the message of why it cannot be decoded.
pub open spec fn decoded_subtitle(b: Seq<u8>) -> Result<Seq<char>, Seq<char>> {
    if utf16_marked(b) {
        if b.len() % 2 != 0 {
            Err("odd UTF-16 byte length"@)
        } else {
            let units = if b[0] == 0xffu8 {
                le_units(b.skip(2))
            } else {
                be_units(b.skip(2))
            };
            match utf16_decode(units) {
                Some(t) => Ok(t),
                None => Err("invalid utf-16: lone surrogate found"@),
            }
        }
    } else if valid_utf8(b) {
        Ok(decode_utf8(b))
    } else {
        Err(utf8_error_text(b))
    }
}

fn string_of(v: &Vec<char>) -> (r: String)
    ensures
        r@ == v@,
{
    crate::unicode::string_from_chars(v)
}

/// Decodes subtitle data: UTF-16 after a byte-order mark (little-endian after `FF FE`,
/// big-endian after `FE FF`; the mark is dropped), otherwise UTF-8.
pub fn decode_subtitle(bytes: &[u8]) -> (r: Result<String, String>)
    ensures
        match r {
            Ok(s) => decoded_subtitle(bytes@) == Ok::<Seq<char>, Seq<char>>(s@),
            Err(m) => decoded_subtitle(bytes@) == Err::<Seq<char>, Seq<char>>(m@),
        },
{
    if bytes.len() >= 2 && ((bytes[0] == 0xff && bytes[1] == 0xfe) || (bytes[0] == 0xfe
        && bytes[1] == 0xff)) {
        if bytes.len() % 2 != 0 {
            return Err(message("odd UTF-16 byte length"));
        }
        let little = bytes[0] == 0xff;
        let units = units_of(bytes, 2, little);
        match decode_utf16(&units) {
            Some(t) => Ok(string_of(&t)),
            None => Err(message("invalid utf-16: lone surrogate found")),
        }
    } else {
        let mut owned: Vec<u8> = Vec::new();
        let mut i: usize = 0;
        while i < bytes.len()
            invariant
                i <= bytes.len(),
                owned@ == bytes@.take(i as int),
            decreases bytes.len() - i,
        {
            owned.push(bytes[i]);
            i = i + 1;
            assert(owned@ =~= bytes@.take(i as int));
        }
        assert(bytes@.take(i as int) =~= bytes@);
        utf8_string(owned)
    }
}

/// Font requests of subtitle data: its decoded text parsed as by `extract_fonts`, or the
/// message of why the data cannot be decoded.
pub fn fonts_of_bytes(bytes: &[u8]) -> (r: Result<SubtitleFonts, String>)
    ensures
        match r {
            Ok(f) => decoded_subtitle(bytes@) is Ok && ref_views(f.references@) == extract(
                decoded_subtitle(bytes@)->Ok_0,
            ).0 && diag_views(f.diagnostics@) == extract(decoded_subtitle(bytes@)->Ok_0).1,
            Err(m) => decoded_subtitle(bytes@) == Err::<Seq<char>, Seq<char>>(m@),
        },
{
    match decode_subtitle(bytes) {
        Ok(text) => Ok(extract_fonts(text.as_str())),
        Err(m) => Err(m),
    }
}

/// The UTF-16 code units of one character: itself below U+10000, else a surrogate pair.
pub open spec fn char_units(c: char) -> Seq<u16> {
    let v = c as u32;
    if v < 0x10000 {
        seq![v as u16]
    } else {
        let w = v - 0x10000;
        seq![(0xD800 + w / 0x400) as u16, (0xDC00 + w % 0x400) as u16]
    }
}

/// The UTF-16 encoding of a text.
pub open spec fn utf16_units(t: Seq<char>) -> Seq<u16>
    decreases t.len(),
{
    if t.len() == 0 {
        seq![]
    } else {
        char_units(t[0]) + utf16_units(t.drop_first())
    }
}

/// Code units written as byte pairs, low byte first.
pub open spec fn le_bytes(u: Seq<u16>) -> Seq<u8> {
    Seq::new(2 * u.len(), |i: int| if i % 2 == 0 { (u[i / 2] % 0x100) as u8 } else { (u[i / 2] / 0x100) as u8 })
}

/// Code units written as byte pairs, high byte first.
pub open spec fn be_bytes(u: Seq<u16>) -> Seq<u8> {
    Seq::new(2 * u.len(), |i: int| if i % 2 == 0 { (u[i / 2] / 0x100) as u8 } else { (u[i / 2] % 0x100) as u8 })
}

proof fn lemma_utf16_round_trip(t: Seq<char>)
    ensures
        utf16_decode(utf16_units(t)) == Some(t),
    decreases t.len(),
{
    if t.len() > 0 {
        lemma_utf16_round_trip(t.drop_first());
        let c = t[0];
        let v = c as u32;
        let cu = char_units(c);
        let rest = utf16_units(t.drop_first());
        let u = cu + rest;
        assert(u == utf16_units(t));
        assert(t =~= seq![c] + t.drop_first());
        vstd::utf8::char_is_scalar(c);
        if v < 0x10000 {
            assert(u[0] == v as u16);
            assert(u[0] as u32 == v);
            assert(u.skip(1) =~= rest);
            vstd::utf8::char_u32_cast(c, u[0] as u32);
            assert((u[0] as char) == c);
        } else {
            let w = v - 0x10000;
            assert(w < 0x100000);
            assert(u[0] == (0xD800 + w / 0x400) as u16);
            assert(u[1] == (0xDC00 + w % 0x400) as u16);
            assert(u.skip(2) =~= rest);
            assert(crate::utf16::pair_value(u[0], u[1]) == v);
            vstd::utf8::char_u32_cast(c, v);
            let pv = crate::utf16::pair_value(u[0], u[1]);
            assert(pv == v as int);
            assert((pv as char) == (v as char));
            assert((crate::utf16::pair_value(u[0], u[1]) as char) == c);
        }
    }
}

proof fn lemma_le_round_trip(u: Seq<u16>)
    ensures
        le_units(le_bytes(u)) == u,
        be_units(be_bytes(u)) == u,
{
    assert(le_units(le_bytes(u)) =~= u) by {
        assert forall|i: int| 0 <= i < u.len() implies le_units(le_bytes(u))[i] == u[i] by {
            assert((2 * i) % 2 == 0 && (2 * i) / 2 == i);
            assert((2 * i + 1) % 2 == 1 && (2 * i + 1) / 2 == i);
        }
    }
    assert(be_units(be_bytes(u)) =~= u) by {
        assert forall|i: int| 0 <= i < u.len() implies be_units(be_bytes(u))[i] == u[i] by {
            assert((2 * i) % 2 == 0 && (2 * i) / 2 == i);
            assert((2 * i + 1) % 2 == 1 && (2 * i + 1) / 2 == i);
        }
    }
}

/// Subtitle data decodes to the same text whichever of the accepted encodings holds it:
/// UTF-8, UTF-8 after a byte-order mark (kept as a leading U+FEFF), and UTF-16
/// little- or big-endian after its byte-order mark; extraction gives the same requests and
/// diagnostics for all four.
pub proof fn law_encodings_agree(t: Seq<char>)
    ensures
        decoded_subtitle(vstd::utf8::encode_utf8(t)) == Ok::<Seq<char>, Seq<char>>(t),
        decoded_subtitle(vstd::utf8::encode_utf8(seq!['\u{feff}'] + t)) == Ok::<
            Seq<char>,
            Seq<char>,
        >(seq!['\u{feff}'] + t),
        decoded_subtitle(seq![0xffu8, 0xfeu8] + le_bytes(utf16_units(t))) == Ok::<
            Seq<char>,
            Seq<char>,
        >(t),
        decoded_subtitle(seq![0xfeu8, 0xffu8] + be_bytes(utf16_units(t))) == Ok::<
            Seq<char>,
            Seq<char>,
        >(t),
        extract(seq!['\u{feff}'] + t) == extract(t),
{
    broadcast use vstd::utf8::group_utf8_lib;

    let b = vstd::utf8::encode_utf8(t);
    let bm = vstd::utf8::encode_utf8(seq!['\u{feff}'] + t);
    assert(vstd::utf8::valid_utf8(b));
    assert(vstd::utf8::valid_utf8(bm));
    if b.len() > 0 {
        assert(vstd::utf8::valid_leading_and_continuation_bytes_first_codepoint(b));
    }
    assert(vstd::utf8::valid_leading_and_continuation_bytes_first_codepoint(bm));
    let u = utf16_units(t);
    lemma_utf16_round_trip(t);
    lemma_le_round_trip(u);
    let l = seq![0xffu8, 0xfeu8] + le_bytes(u);
    let g = seq![0xfeu8, 0xffu8] + be_bytes(u);
    assert(l.skip(2) =~= le_bytes(u));
    assert(g.skip(2) =~= be_bytes(u));
    assert(l.len() % 2 == 0 && g.len() % 2 == 0);
    let m = seq!['\u{feff}'] + t;
    assert(m.drop_first() =~= t);
    assert(crate::text::trim_start_char(m, '\u{feff}') == crate::text::trim_start_char(t, '\u{feff}'));
}

} // verus!
