use ass_fonts::{NameKind, ScanReport};

fn put16(bytes: &mut [u8], offset: usize, value: u16) {
    bytes[offset..offset + 2].copy_from_slice(&value.to_be_bytes());
}

fn put32(bytes: &mut [u8], offset: usize, value: u32) {
    bytes[offset..offset + 4].copy_from_slice(&value.to_be_bytes());
}

// A minimal synthetic TrueType font with a format 12 cmap, enough for metadata and cmap
// tests without installed fonts.
fn font(name: &str, characters: &[char]) -> Vec<u8> {
    let mut characters = characters.to_vec();
    characters.sort_unstable();
    characters.dedup();

    let utf16: Vec<u8> = name.encode_utf16().flat_map(u16::to_be_bytes).collect();
    let mut naming = vec![0; 18];
    put16(&mut naming, 2, 1);
    put16(&mut naming, 4, 18);
    put16(&mut naming, 6, 3);
    put16(&mut naming, 8, 1);
    put16(&mut naming, 10, 0x409);
    put16(&mut naming, 12, 1);
    put16(&mut naming, 14, utf16.len() as u16);
    naming.extend(utf16);

    let mut cmap = vec![0; 28 + 12 * characters.len()];
    put16(&mut cmap, 2, 1);
    put16(&mut cmap, 4, 3);
    put16(&mut cmap, 6, 10);
    put32(&mut cmap, 8, 12);
    put16(&mut cmap, 12, 12);
    put32(&mut cmap, 16, (16 + 12 * characters.len()) as u32);
    put32(&mut cmap, 24, characters.len() as u32);
    for (index, character) in characters.iter().enumerate() {
        let offset = 28 + index * 12;
        put32(&mut cmap, offset, *character as u32);
        put32(&mut cmap, offset + 4, *character as u32);
        put32(&mut cmap, offset + 8, (index + 1) as u32);
    }

    let mut head = vec![0; 54];
    put16(&mut head, 18, 1000);
    let mut hhea = vec![0; 36];
    put32(&mut hhea, 0, 0x10000);
    let mut maxp = vec![0; 6];
    put32(&mut maxp, 0, 0x5000);
    put16(&mut maxp, 4, (characters.len() + 1) as u16);
    let mut os2 = vec![0; 78];
    put16(&mut os2, 4, 400);
    put16(&mut os2, 6, 5);

    let tables = [
        (*b"OS/2", os2),
        (*b"cmap", cmap),
        (*b"head", head),
        (*b"hhea", hhea),
        (*b"maxp", maxp),
        (*b"name", naming),
    ];
    let mut bytes = vec![0; 12 + 16 * tables.len()];
    put32(&mut bytes, 0, 0x10000);
    put16(&mut bytes, 4, tables.len() as u16);
    for (index, (tag, table)) in tables.into_iter().enumerate() {
        while bytes.len() % 4 != 0 {
            bytes.push(0);
        }
        let offset = bytes.len();
        let record = 12 + index * 16;
        bytes[record..record + 4].copy_from_slice(&tag);
        put32(&mut bytes, record + 8, offset as u32);
        put32(&mut bytes, record + 12, table.len() as u32);
        bytes.extend(table);
    }
    bytes
}

fn collection(count: u32, extra: usize) -> Vec<u8> {
    let mut bytes = b"ttcf".to_vec();
    bytes.extend([0, 1, 0, 0]);
    bytes.extend(count.to_be_bytes());
    bytes.extend(vec![0; extra]);
    bytes
}

#[test]
fn scanned_face_carries_names_weight_and_slant() {
    let mut report = ScanReport::default();
    report.scan_data("/fonts/example.ttf", &font("Example Sans", &['A']));
    assert!(report.issues.is_empty());
    assert_eq!(report.faces.len(), 1);
    let face = &report.faces[0];
    assert_eq!(face.path, "/fonts/example.ttf");
    assert_eq!(face.face_index, 0);
    assert_eq!(face.names, ["Example Sans"]);
    assert_eq!(face.family_names, ["Example Sans"]);
    assert_eq!(face.name_records.len(), 1);
    assert_eq!(face.name_records[0].name, "Example Sans");
    assert_eq!(face.name_records[0].kind, NameKind::Family);
    assert_eq!(face.name_records[0].name_id, Some(1));
    assert_eq!(face.weight, 400);
    assert!(!face.italic);
}

#[test]
fn face_count_must_fit_the_collection() {
    let mut report = ScanReport::default();
    report.scan_data("/fonts/empty.ttc", &collection(0, 64));
    report.scan_data("/fonts/short.ttc", &collection(3, 8));
    assert!(report.faces.is_empty());
    assert_eq!(report.issues.len(), 2);
    for issue in &report.issues {
        assert_eq!(issue.face_index, None);
        assert_eq!(issue.message, "invalid collection face count");
    }
    assert_eq!(report.issues[0].path, "/fonts/empty.ttc");
    assert_eq!(report.issues[1].path, "/fonts/short.ttc");
}

#[test]
fn unparsable_faces_are_reported_and_scanning_goes_on() {
    let mut report = ScanReport::default();
    report.scan_data("/fonts/broken.ttf", b"not a font at all");
    report.scan_data("/fonts/good.ttf", &font("Good", &['A']));
    assert_eq!(report.faces.len(), 1);
    assert_eq!(report.faces[0].path, "/fonts/good.ttf");
    assert_eq!(report.issues.len(), 1);
    assert_eq!(report.issues[0].path, "/fonts/broken.ttf");
    assert_eq!(report.issues[0].face_index, Some(0));
    assert!(!report.issues[0].message.is_empty());
    // Each face of a collection is parsed on its own.
    let mut report = ScanReport::default();
    report.scan_data("/fonts/pair.ttc", &collection(2, 8));
    assert!(report.faces.is_empty());
    assert_eq!(
        report.issues.iter().map(|i| i.face_index).collect::<Vec<_>>(),
        [Some(0), Some(1)]
    );
}

#[test]
fn faces_without_usable_names_are_kept_with_an_issue() {
    let mut report = ScanReport::default();
    report.scan_data("/fonts/blank.ttf", &font(" @ ", &['A']));
    assert_eq!(report.faces.len(), 1);
    assert!(report.faces[0].names.is_empty());
    assert_eq!(report.issues.len(), 1);
    assert_eq!(report.issues[0].face_index, Some(0));
    assert_eq!(report.issues[0].message, "no decodable matching names");
}
