use ass_fonts::{
    CoverageUnavailableReason, FontFace, FontFile, FontIndex, FontReference, MissingReason,
    ResolveReport, ScanReport, candidate_paths, check_coverage, extract_fonts,
};

fn put16(bytes: &mut [u8], offset: usize, value: u16) {
    bytes[offset..offset + 2].copy_from_slice(&value.to_be_bytes());
}

fn put32(bytes: &mut [u8], offset: usize, value: u32) {
    bytes[offset..offset + 4].copy_from_slice(&value.to_be_bytes());
}

// A minimal synthetic TrueType font with a format 12 cmap, enough for metadata and cmap
// tests without installed fonts.
fn font(name: &str, characters: &[char]) -> Vec<u8> {
    let mut characters = characters.to_vec();
    characters.sort_unstable();
    characters.dedup();

    let utf16: Vec<u8> = name.encode_utf16().flat_map(u16::to_be_bytes).collect();
    let mut naming = vec![0; 18];
    put16(&mut naming, 2, 1);
    put16(&mut naming, 4, 18);
    put16(&mut naming, 6, 3);
    put16(&mut naming, 8, 1);
    put16(&mut naming, 10, 0x409);
    put16(&mut naming, 12, 1);
    put16(&mut naming, 14, utf16.len() as u16);
    naming.extend(utf16);

    let mut cmap = vec![0; 28 + 12 * characters.len()];
    put16(&mut cmap, 2, 1);
    put16(&mut cmap, 4, 3);
    put16(&mut cmap, 6, 10);
    put32(&mut cmap, 8, 12);
    put16(&mut cmap, 12, 12);
    put32(&mut cmap, 16, (16 + 12 * characters.len()) as u32);
    put32(&mut cmap, 24, characters.len() as u32);
    for (index, character) in characters.iter().enumerate() {
        let offset = 28 + index * 12;
        put32(&mut cmap, offset, *character as u32);
        put32(&mut cmap, offset + 4, *character as u32);
        put32(&mut cmap, offset + 8, (index + 1) as u32);
    }

    let mut head = vec![0; 54];
    put16(&mut head, 18, 1000);
    let mut hhea = vec![0; 36];
    put32(&mut hhea, 0, 0x10000);
    let mut maxp = vec![0; 6];
    put32(&mut maxp, 0, 0x5000);
    put16(&mut maxp, 4, (characters.len() + 1) as u16);
    let mut os2 = vec![0; 78];
    put16(&mut os2, 4, 400);
    put16(&mut os2, 6, 5);

    let tables = [
        (*b"OS/2", os2),
        (*b"cmap", cmap),
        (*b"head", head),
        (*b"hhea", hhea),
        (*b"maxp", maxp),
        (*b"name", naming),
    ];
    let mut bytes = vec![0; 12 + 16 * tables.len()];
    put32(&mut bytes, 0, 0x10000);
    put16(&mut bytes, 4, tables.len() as u16);
    for (index, (tag, table)) in tables.into_iter().enumerate() {
        while bytes.len() % 4 != 0 {
            bytes.push(0);
        }
        let offset = bytes.len();
        let record = 12 + index * 16;
        bytes[record..record + 4].copy_from_slice(&tag);
        put32(&mut bytes, record + 8, offset as u32);
        put32(&mut bytes, record + 12, table.len() as u32);
        bytes.extend(table);
    }
    bytes
}

fn subtitle(font: &str, first: &str, second: &str) -> String {
    format!(
        "[V4+ Styles]\nFormat: Name,Fontname\nStyle: Default,{font}\n[Events]\nFormat: Style,Text\nDialogue: Default,{first}\nDialogue: Default,{second}\n"
    )
}

fn scan(files: &[(&str, Vec<u8>)]) -> ScanReport {
    let mut report = ScanReport::default();
    for (path, data) in files {
        report.scan_data(path, data);
    }
    report
}

// What a caller that reads files supplies: the bytes of each candidate path, or why
// reading failed.
fn read(report: &ResolveReport, files: &[(&str, Vec<u8>)]) -> Vec<FontFile> {
    candidate_paths(report)
        .into_iter()
        .map(|path| {
            let contents = files
                .iter()
                .find(|(p, _)| *p == path)
                .map(|(_, data)| data.clone())
                .ok_or_else(|| "No such file or directory (os error 2)".to_string());
            FontFile { path, contents }
        })
        .collect()
}

#[test]
fn extraction_records_distinct_characters_and_source_lines() {
    let parsed = extract_fonts(&subtitle("Base", r"A中A\N {\fnAlt}B‍️", "中C"));
    let base = parsed
        .references
        .iter()
        .find(|reference| reference.name == "Base")
        .unwrap();
    assert_eq!(base.lines, [6, 7]);
    assert_eq!(
        base.characters
            .iter()
            .map(|usage| (usage.character, usage.lines.clone()))
            .collect::<Vec<_>>(),
        [('A', vec![6]), ('C', vec![7]), ('中', vec![6, 7])]
    );
    let alt = parsed
        .references
        .iter()
        .find(|reference| reference.name == "Alt")
        .unwrap();
    assert_eq!(
        alt.characters
            .iter()
            .map(|usage| usage.character)
            .collect::<Vec<_>>(),
        ['B', '\u{200d}', '\u{fe0f}']
    );
}

#[test]
fn ambiguous_candidates_are_checked_independently() {
    let files = [
        ("/fonts/complete.ttf", font("Example", &['A', '中'])),
        ("/fonts/incomplete.ttf", font("Example", &['A'])),
    ];
    let scan = scan(&files);
    assert!(scan.issues.is_empty());
    let parsed = extract_fonts(&subtitle("Example", "A中A", "中"));
    let resolved = FontIndex::new(scan.faces).resolve(&parsed.references);
    assert_eq!(resolved.ambiguous.len(), 1);

    let coverage = resolved.check_coverage(&read(&resolved, &files));
    assert_eq!(coverage.complete.len(), 1);
    assert_eq!(coverage.incomplete.len(), 1);
    assert!(coverage.uncheckable.is_empty());
    assert_eq!(coverage.complete[0].checked_characters, 2);
    assert_eq!(coverage.incomplete[0].checked_characters, 2);
    assert_eq!(coverage.incomplete[0].missing_characters[0].character, '中');
    assert_eq!(coverage.incomplete[0].missing_characters[0].lines, [6, 7]);
}

#[test]
fn format_controls_do_not_require_standalone_glyphs() {
    let files = [("/fonts/example.ttf", font("Example", &['A']))];
    let scan = scan(&files);
    let parsed = extract_fonts(&subtitle("Example", "A\u{200d}\u{fe0f}", ""));
    let resolved = FontIndex::new(scan.faces).resolve(&parsed.references);
    let coverage = resolved.check_coverage(&read(&resolved, &files));
    assert_eq!(coverage.complete.len(), 1);
    assert_eq!(coverage.complete[0].checked_characters, 1);
    assert!(coverage.incomplete.is_empty());
}

#[test]
fn missing_and_unreadable_fonts_are_uncheckable() {
    let parsed = extract_fonts(&subtitle("Absent", "A", ""));
    let missing = FontIndex::default().resolve(&parsed.references);
    let coverage = check_coverage(&missing, &read(&missing, &[]));
    assert_eq!(coverage.uncheckable.len(), 1);
    assert_eq!(
        coverage.uncheckable[0].reason,
        CoverageUnavailableReason::NoCandidate
    );
    assert_eq!(
        coverage.uncheckable[0].missing_reason,
        Some(MissingReason::NameNotFound)
    );
    assert!(coverage.uncheckable[0].candidate.is_none());
    assert_eq!(
        coverage.uncheckable[0].message,
        "font resolution has no candidate"
    );

    let scan = scan(&[("/tmp/gone.ttf", font("Gone", &['A']))]);
    let parsed = extract_fonts(&subtitle("Gone", "A", ""));
    let resolved = FontIndex::new(scan.faces).resolve(&parsed.references);
    // The file is gone by the time coverage is checked.
    let coverage = resolved.check_coverage(&read(&resolved, &[]));
    assert_eq!(coverage.uncheckable.len(), 1);
    assert_eq!(
        coverage.uncheckable[0].reason,
        CoverageUnavailableReason::FontReadError
    );
    assert_eq!(
        coverage.uncheckable[0].message,
        "No such file or directory (os error 2)"
    );
    assert!(coverage.uncheckable[0].candidate.is_some());
}

#[test]
fn invalid_face_index_is_reported_separately_from_read_errors() {
    let files = [("/fonts/single.ttf", font("Example", &['A']))];
    let face = FontFace {
        path: "/fonts/single.ttf".into(),
        face_index: 1,
        names: vec!["Example".into()],
        family_names: vec![],
        name_records: vec![],
        weight: 400,
        italic: false,
    };
    let reference = FontReference {
        name: "Example".into(),
        weight: 400,
        italic: false,
        lines: vec![1],
        characters: vec![],
    };
    let resolved = FontIndex::new(vec![face]).resolve(&[reference]);
    let coverage = resolved.check_coverage(&read(&resolved, &files));
    assert_eq!(coverage.uncheckable.len(), 1);
    assert_eq!(
        coverage.uncheckable[0].reason,
        CoverageUnavailableReason::FaceParseError
    );
    assert!(!coverage.uncheckable[0].message.is_empty());
}

#[test]
fn summary_counts_and_merged_missing_characters() {
    let files = [
        ("/fonts/a.ttf", font("Example", &['A'])),
        ("/fonts/b.ttf", font("Example", &['B'])),
    ];
    let scan = scan(&files);
    let parsed = extract_fonts(&subtitle("Example", "AB", "字B"));
    let resolved = FontIndex::new(scan.faces).resolve(&parsed.references);
    let coverage = resolved.check_coverage(&read(&resolved, &files));
    assert_eq!(coverage.incomplete.len(), 2);
    let summary = coverage.summary();
    assert_eq!(summary.complete_candidates, 0);
    assert_eq!(summary.incomplete_candidates, 2);
    assert_eq!(summary.uncheckable_candidates, 0);
    assert_eq!(summary.unresolved_references, 0);
    // a.ttf misses B and 字; b.ttf misses A and 字.
    assert_eq!(summary.missing_mappings, 4);
    assert_eq!(summary.unique_missing_characters, 3);
    assert!(!coverage.is_complete());
    let merged = coverage.missing_characters();
    assert_eq!(
        merged
            .iter()
            .map(|usage| (usage.character, usage.lines.clone()))
            .collect::<Vec<_>>(),
        [('A', vec![6]), ('B', vec![6, 7]), ('字', vec![7])]
    );
    assert_eq!(merged.len(), summary.unique_missing_characters);
    assert_eq!(merged[2].codepoint(), "U+5B57");
}

#[test]
fn empty_report_is_complete() {
    let report = ResolveReport::default();
    let coverage = check_coverage(&report, &Vec::new());
    assert!(coverage.is_complete());
    assert_eq!(coverage.summary().missing_mappings, 0);
    assert!(coverage.missing_characters().is_empty());
}

#[test]
fn codepoints_have_at_least_four_digits() {
    let parsed = extract_fonts(&subtitle("Example", "A\u{1F600}", ""));
    let characters = &parsed.references[0].characters;
    assert_eq!(characters[0].codepoint(), "U+0041");
    assert_eq!(characters[1].codepoint(), "U+1F600");
}
