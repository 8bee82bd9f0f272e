//! Font binary access through `ttf_parser`: collection size, face parsing, name
//! records, weight, slant and the character map.
use crate::utf16::{be_units, utf16_decode};
use ttf_parser::PlatformId;
use vstd::prelude::*;

verus! {

#[verifier::external_type_specification]
#[verifier::external_body]
pub struct ExFace<'a>(ttf_parser::Face<'a>);

/// A parsed face together with the bytes and collection index it was parsed from.
pub(crate) struct ParsedFace<'a> {
    pub(crate) data: &'a [u8],
    pub(crate) index: u32,
    pub(crate) face: ttf_parser::Face<'a>,
}

/// Big-endian unsigned 32-bit value at `at`.
pub open spec fn be_u32(data: Seq<u8>, at: int) -> u32 {
    ((data[at] as u32) * 0x1000000 + (data[at + 1] as u32) * 0x10000 + (data[at + 2] as u32)
        * 0x100 + (data[at + 3] as u32)) as u32
}

/// The data starts with the `ttcf` tag of a font collection.
pub open spec fn has_collection_tag(data: Seq<u8>) -> bool {
    data.len() >= 4 && data[0] == 0x74u8 && data[1] == 0x74u8 && data[2] == 0x63u8 && data[3]
        == 0x66u8
}

/// Calls `ttf_parser::fonts_in_collection`. Claimed, as its source shows: the face count
/// stored at byte 8 when the data is at least 12 bytes long and starts with `ttcf`,
/// otherwise `None`.
#[verifier::external_body]
pub(crate) fn fonts_in_collection(data: &[u8]) -> (r: Option<u32>)
    ensures
        r == (if data@.len() >= 12 && has_collection_tag(data@) {
            Some(be_u32(data@, 8))
        } else {
            None
        }),
{
    ttf_parser::fonts_in_collection(data)
}

/// The outcome of `ttf_parser::Face::parse` on the data and index: `None` when it
/// succeeds, otherwise the `Display` text of its error.
pub uninterp spec fn face_parse_error(data: Seq<u8>, index: u32) -> Option<Seq<char>>;

/// The glyph that `Face::glyph_index` gives for a character of the parsed face.
pub uninterp spec fn glyph_index(data: Seq<u8>, index: u32, c: char) -> Option<u16>;

/// `Face::weight().to_number()` of the parsed face.
pub uninterp spec fn face_weight(data: Seq<u8>, index: u32) -> u16;

/// `Face::is_italic()` of the parsed face.
pub uninterp spec fn face_is_italic(data: Seq<u8>, index: u32) -> bool;

/// `Face::is_oblique()` of the parsed face.
pub uninterp spec fn face_is_oblique(data: Seq<u8>, index: u32) -> bool;

/// `Face::names().len()` of the parsed face.
pub uninterp spec fn face_name_count(data: Seq<u8>, index: u32) -> u16;

/// A name record as plain values: platform ID, encoding ID, name ID, raw bytes, and the
/// text that `Name::to_string` decodes from them.
#[derive(Debug, Clone)]
pub struct NameRecord {
    pub platform_id: u16,
    pub encoding_id: u16,
    pub name_id: u16,
    pub bytes: Vec<u8>,
    pub text: Option<String>,
}

pub struct NameRecordView {
    pub platform_id: u16,
    pub encoding_id: u16,
    pub name_id: u16,
    pub bytes: Seq<u8>,
    pub text: Option<Seq<char>>,
}

impl View for NameRecord {
    type V = NameRecordView;

    open spec fn view(&self) -> NameRecordView {
        NameRecordView {
            platform_id: self.platform_id,
            encoding_id: self.encoding_id,
            name_id: self.name_id,
            bytes: self.bytes@,
            text: opt_chars(self.text),
        }
    }
}

/// An optional string taken by its characters.
pub open spec fn opt_chars(o: Option<String>) -> Option<Seq<char>> {
    match o {
        Some(s) => Some(s@),
        None => None,
    }
}

/// Unicode platform, or Windows platform with the Symbol or Unicode BMP encoding.
pub open spec fn is_unicode_name(platform_id: u16, encoding_id: u16) -> bool {
    platform_id == 0 || (platform_id == 3 && (encoding_id == 0 || encoding_id == 1))
}

/// What `Name::to_string` gives: the UTF-16BE text of a Unicode name, otherwise `None`.
pub open spec fn name_text(platform_id: u16, encoding_id: u16, bytes: Seq<u8>) -> Option<
    Seq<char>,
> {
    if is_unicode_name(platform_id, encoding_id) {
        utf16_decode(be_units(bytes))
    } else {
        None
    }
}

/// `Face::names().get(i)` of the parsed face, as plain values with its decoded text.
pub uninterp spec fn face_name_record(data: Seq<u8>, index: u32, i: u16) -> Option<NameRecordView>;

/// Calls `ttf_parser::Face::parse`. Claimed: it succeeds exactly when
/// `face_parse_error` is `None`, and an error carries that error's `Display` text; a
/// parsed face remembers the data and index it came from.
#[verifier::external_body]
pub(crate) fn parse_face<'a>(data: &'a [u8], index: u32) -> (r: Result<ParsedFace<'a>, String>)
    ensures
        match r {
            Ok(f) => face_parse_error(data@, index) is None && f.data@ == data@ && f.index == index,
            Err(m) => face_parse_error(data@, index) == Some(m@),
        },
{
    match ttf_parser::Face::parse(data, index) {
        Ok(face) => Ok(ParsedFace { data, index, face }),
        Err(error) => Err(error.to_string()),
    }
}

/// Calls `Face::glyph_index` and returns the glyph number. Claimed: the result is
/// `glyph_index` of the face's data, index and character.
#[verifier::external_body]
pub(crate) fn glyph_of(f: &ParsedFace, c: char) -> (r: Option<u16>)
    ensures
        r == glyph_index(f.data@, f.index, c),
{
    f.face.glyph_index(c).map(|g| g.0)
}

/// Calls `Face::weight` and `Weight::to_number`. Claimed: the result is `face_weight`.
#[verifier::external_body]
pub(crate) fn weight_of_face(f: &ParsedFace) -> (r: u16)
    ensures
        r == face_weight(f.data@, f.index),
{
    f.face.weight().to_number()
}

/// Calls `Face::is_italic`. Claimed: the result is `face_is_italic`.
#[verifier::external_body]
pub(crate) fn is_italic_face(f: &ParsedFace) -> (r: bool)
    ensures
        r == face_is_italic(f.data@, f.index),
{
    f.face.is_italic()
}

/// Calls `Face::is_oblique`. Claimed: the result is `face_is_oblique`.
#[verifier::external_body]
pub(crate) fn is_oblique_face(f: &ParsedFace) -> (r: bool)
    ensures
        r == face_is_oblique(f.data@, f.index),
{
    f.face.is_oblique()
}

/// Calls `Face::names` and `Names::len`. Claimed: the result is `face_name_count`.
#[verifier::external_body]
pub(crate) fn name_count(f: &ParsedFace) -> (r: u16)
    ensures
        r == face_name_count(f.data@, f.index),
{
    f.face.names().len()
}

/// Calls `Face::names`, `Names::get` and `Name::to_string`, converting the record to
/// plain values (the platform as its numeric ID). Claimed: the record is
/// `face_name_record`, and its text is what the source of `to_string` computes: the
/// UTF-16BE decoding of the bytes (an odd last byte unused) for a Unicode name, else `None`.
#[verifier::external_body]
pub(crate) fn name_at(f: &ParsedFace, i: u16) -> (r: Option<NameRecord>)
    ensures
        match r {
            Some(n) => face_name_record(f.data@, f.index, i) == Some(n@) && n@.text == name_text(
                n.platform_id,
                n.encoding_id,
                n.bytes@,
            ),
            None => face_name_record(f.data@, f.index, i) is None,
        },
{
    match f.face.names().get(i) {
        Some(n) => Some(NameRecord {
            platform_id: match n.platform_id {
                PlatformId::Unicode => 0, PlatformId::Macintosh => 1, PlatformId::Iso => 2,
                PlatformId::Windows => 3, PlatformId::Custom => 4,
            },
            encoding_id: n.encoding_id, name_id: n.name_id,
            bytes: n.name.to_vec(), text: n.to_string(),
        }),
        None => None,
    }
}

} // verus!
