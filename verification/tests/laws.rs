use ass_fonts::{
    FontFace, FontIndex, FontName, FontReference, NameKind, ResolveOptions, SynthesisPolicy,
    WeightMatching, extract_fonts, normalize_name,
};

fn record(name: &str, id: u16) -> FontName {
    FontName {
        name: name.into(),
        name_id: Some(id),
        kind: match id {
            1 | 16 | 21 => NameKind::Family,
            4 | 18 => NameKind::FullName,
            _ => NameKind::PostScriptName,
        },
    }
}

fn face(path: &str, index: u32, weight: u16, italic: bool, records: Vec<FontName>) -> FontFace {
    FontFace {
        path: path.into(),
        face_index: index,
        weight,
        italic,
        names: vec![],
        family_names: vec![],
        name_records: records,
    }
}

fn request(name: &str, weight: u16, italic: bool) -> FontReference {
    FontReference {
        name: name.into(),
        weight,
        italic,
        lines: vec![1],
        characters: vec![],
    }
}

#[test]
fn extraction_output_is_in_key_line_and_character_order() {
    let script = "[V4+ Styles]\nFormat: Name,Fontname,Bold,Italic\nStyle: Default,zeta,0,0\nStyle: B,Alpha,-1,0\n[Events]\nFormat: Style,Text\nDialogue: B,cba\nDialogue: Default,{\\fnalpha\\i1}x\nDialogue: Missing,y\nDialogue: Default,{\\fnAlpha}ba\nDialogue: B,{\\b1}a\n";
    let parsed = extract_fonts(script);
    let keys: Vec<(String, u16, bool)> = parsed
        .references
        .iter()
        .map(|r| (normalize_name(&r.name), r.weight, r.italic))
        .collect();
    let mut sorted = keys.clone();
    sorted.sort();
    sorted.dedup();
    assert_eq!(keys, sorted);
    for reference in &parsed.references {
        assert!(reference.lines.windows(2).all(|w| w[0] < w[1]));
        assert!(reference.characters.windows(2).all(|w| w[0].character < w[1].character));
        for usage in &reference.characters {
            assert!(usage.lines.windows(2).all(|w| w[0] < w[1]));
        }
    }
    let alpha = parsed
        .references
        .iter()
        .find(|r| normalize_name(&r.name) == "alpha" && r.weight == 700)
        .unwrap();
    assert_eq!(alpha.lines, [7, 11]);
    assert!(parsed.diagnostics.windows(2).all(|w| w[0].line <= w[1].line));
}

#[test]
fn index_orders_faces_and_candidates_by_path_then_index() {
    let family = || vec![record("Family", 16)];
    let index = FontIndex::new(vec![
        face("b/font.ttc", 1, 400, false, family()),
        face("a/font.ttc", 2, 400, false, family()),
        face("b/font.ttc", 0, 400, false, family()),
        face("a/font.ttc", 0, 400, false, family()),
    ]);
    let report = index.resolve(&[request("Family", 400, false)]);
    let order: Vec<(String, u32)> = report.ambiguous[0]
        .candidates
        .iter()
        .map(|c| (c.path.clone(), c.face_index))
        .collect();
    assert_eq!(
        order,
        [
            ("a/font.ttc".to_string(), 0),
            ("a/font.ttc".to_string(), 2),
            ("b/font.ttc".to_string(), 0),
            ("b/font.ttc".to_string(), 1),
        ]
    );
    let evidence: Vec<(String, u32)> = report.ambiguous[0]
        .matches
        .iter()
        .map(|m| (m.path.clone(), m.face_index))
        .collect();
    assert_eq!(evidence, order);
}

#[test]
fn every_request_lands_in_exactly_one_bucket() {
    let index = FontIndex::new(vec![
        face("one.ttf", 0, 400, false, vec![record("One", 1)]),
        face("two.ttf", 0, 400, false, vec![record("Two", 1)]),
        face("two-copy.ttf", 0, 400, false, vec![record("Two", 1)]),
    ]);
    let refs = [
        request("One", 400, false),
        request("Two", 400, false),
        request("Three", 400, false),
        request("One", 700, false),
    ];
    let report = index.resolve(&refs);
    assert_eq!(
        report.resolved.len() + report.missing.len() + report.ambiguous.len(),
        refs.len()
    );
    assert!(report.resolved.iter().all(|r| r.candidates.len() == 1 && r.missing_reason.is_none()));
    assert!(report.missing.iter().all(|r| r.candidates.is_empty() && r.missing_reason.is_some()));
    assert!(report.ambiguous.iter().all(|r| r.candidates.len() >= 2 && r.missing_reason.is_none()));
}

#[test]
fn generic_family_never_serves_upright_text_with_italic_faces() {
    let index = FontIndex::new(vec![
        face("italic.ttf", 0, 300, true, vec![record("Family", 16)]),
        face("bold.ttf", 0, 700, false, vec![record("Family", 16)]),
    ]);
    let options = ResolveOptions {
        weight_matching: WeightMatching::Exact,
        synthesis: SynthesisPolicy {
            bold: true,
            italic: true,
        },
    };
    let report = index.resolve_with_options(&[request("Family", 400, false)], options);
    assert_eq!(report.missing.len(), 1);
    // The upright 400 request may not take the italic face; a 700 face is not 400.
    let report = index.resolve_with_options(&[request("Family", 700, true)], options);
    let chosen = &report.resolved[0];
    assert!(!chosen.candidates[0].italic);
    assert_eq!(chosen.candidates[0].weight, 700);
    assert!(chosen.matches[0].synthetic_italic);
    assert!(!chosen.matches[0].synthetic_bold);
}

#[test]
fn specific_names_ignore_requested_style() {
    let index = FontIndex::new(vec![face(
        "light.ttf",
        0,
        300,
        false,
        vec![record("Family", 16), record("Family Light", 4)],
    )]);
    let a = index.resolve(&[request("Family Light", 700, true)]);
    let b = index.resolve(&[request("Family Light", 400, false)]);
    assert_eq!(a.resolved[0].candidates, b.resolved[0].candidates);
    assert_eq!(a.resolved[0].candidates[0].weight, 300);
    assert!(!a.resolved[0].matches[0].synthetic_bold);
    assert!(!a.resolved[0].matches[0].synthetic_italic);
}

#[test]
fn duplicate_identities_merge_aliases_and_keep_first_attributes() {
    let index = FontIndex::new(vec![
        face("same.ttf", 0, 400, false, vec![record("First", 4)]),
        face("same.ttf", 0, 700, true, vec![record("Second", 4)]),
    ]);
    let report = index.resolve(&[request("First", 400, false), request("Second", 400, false)]);
    assert_eq!(report.resolved.len(), 2);
    for resolution in &report.resolved {
        let candidate = &resolution.candidates[0];
        assert_eq!(candidate.weight, 400);
        assert!(!candidate.italic);
        assert_eq!(candidate.names, ["First", "Second"]);
    }
}

#[test]
fn missing_reasons_and_available_variants() {
    let index = FontIndex::new(vec![
        face("b.ttf", 0, 700, false, vec![record("Family", 16)]),
        face("a.ttf", 0, 300, false, vec![record("Family", 16)]),
    ]);
    let report = index.resolve(&[request("Family", 400, false), request("Other", 400, false)]);
    assert_eq!(report.missing.len(), 2);
    let style = &report.missing[0];
    assert_eq!(style.missing_reason, Some(ass_fonts::MissingReason::StyleNotFound));
    assert!(style.matches.is_empty());
    let variants: Vec<&str> = style.available_variants.iter().map(|f| f.path.as_str()).collect();
    assert_eq!(variants, ["a.ttf", "b.ttf"]);
    let name = &report.missing[1];
    assert_eq!(name.missing_reason, Some(ass_fonts::MissingReason::NameNotFound));
    assert!(name.available_variants.is_empty());
}

#[test]
fn normalized_names_are_single_spaced() {
    assert_eq!(normalize_name("  @@Example \t  Sans\n "), "example sans");
    assert_eq!(normalize_name(" @@@ "), "");
}

#[test]
fn index_ignores_input_order_and_repeats() {
    let mut bold = face("/fonts/b.otf", 0, 700, false, vec![record("Gamma", 1), record("Gamma-Bold", 6)]);
    bold.names = vec!["Gamma Heavy".into()];
    let regular = face("/fonts/a.ttc", 1, 400, false, vec![record("Gamma", 1), record("Gamma Regular", 4)]);
    let italic = face("/fonts/a.ttc", 0, 400, true, vec![record("Gamma", 1)]);
    let alias = face("/fonts/b.otf", 0, 700, false, vec![record("Gamma Black", 4)]);
    let first = FontIndex::new(vec![regular.clone(), bold.clone(), italic.clone(), alias.clone()]);
    let second = FontIndex::new(vec![
        alias.clone(),
        italic.clone(),
        bold.clone(),
        regular.clone(),
        bold.clone(),
        italic.clone(),
    ]);
    let requests = vec![
        request("Gamma", 400, false),
        request("gamma", 700, false),
        request("Gamma", 400, true),
        request("Gamma Black", 400, false),
        request("Gamma Heavy", 700, true),
        request("Gamma", 100, false),
        request("Delta", 400, false),
    ];
    let options = [
        ResolveOptions::default(),
        ResolveOptions {
            synthesis: SynthesisPolicy { bold: true, italic: true },
            weight_matching: WeightMatching::Nearest,
        },
    ];
    for o in options {
        let a = first.resolve_with_options(&requests, o);
        let b = second.resolve_with_options(&requests, o);
        assert_eq!(a, b);
    }
    assert_eq!(first.resolve(&requests), second.resolve(&requests));
    assert_eq!(first.resolve(&requests).missing.len(), 2);
}
