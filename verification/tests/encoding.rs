use ass_fonts::{decode_subtitle, fonts_of_bytes};

const SCRIPT: &str = "[V4+ Styles]\nFormat: Name,Fontname\nStyle: Default,字体\n[Events]\nFormat: Style,Text\nDialogue: Default,文字\n";

fn utf16(text: &str, little: bool) -> Vec<u8> {
    let mut bytes = if little { vec![0xff, 0xfe] } else { vec![0xfe, 0xff] };
    for unit in text.encode_utf16() {
        if little {
            bytes.extend(unit.to_le_bytes());
        } else {
            bytes.extend(unit.to_be_bytes());
        }
    }
    bytes
}

#[test]
fn utf8_with_and_without_byte_order_mark() {
    assert_eq!(decode_subtitle(SCRIPT.as_bytes()).unwrap(), SCRIPT);
    let mut marked = vec![0xef, 0xbb, 0xbf];
    marked.extend(SCRIPT.as_bytes());
    assert_eq!(decode_subtitle(&marked).unwrap(), format!("\u{feff}{SCRIPT}"));
    let fonts = fonts_of_bytes(&marked).unwrap();
    assert_eq!(fonts.references.len(), 1);
    assert_eq!(fonts.references[0].name, "字体");
}

#[test]
fn utf16_in_both_byte_orders() {
    for little in [true, false] {
        let bytes = utf16("A\u{1F600}字", little);
        assert_eq!(decode_subtitle(&bytes).unwrap(), "A\u{1F600}字");
        let fonts = fonts_of_bytes(&utf16(SCRIPT, little)).unwrap();
        assert_eq!(fonts.references[0].name, "字体");
        assert_eq!(fonts.references[0].lines, [6]);
    }
}

#[test]
fn undecodable_data_is_rejected() {
    let mut odd = utf16("AB", true);
    odd.push(0);
    assert_eq!(decode_subtitle(&odd).unwrap_err(), "odd UTF-16 byte length");
    let lone = vec![0xff, 0xfe, 0x00, 0xd8, 0x41, 0x00];
    assert_eq!(
        decode_subtitle(&lone).unwrap_err(),
        "invalid utf-16: lone surrogate found"
    );
    let invalid = vec![b'a', 0xff, b'b'];
    assert_eq!(
        decode_subtitle(&invalid).unwrap_err(),
        "invalid utf-8 sequence of 1 bytes from index 1"
    );
    assert!(fonts_of_bytes(&invalid).is_err());
}
