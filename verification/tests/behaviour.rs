use kiutils_kicad::json::find_insert_position;
use kiutils_kicad::{
    Error, FootprintFile, JsonNumber, JsonValue, KiCadSeries, ParseError, PcbFile, ProjectFile, SchematicFile, Severity,
    SymbolLibFile, VersionPolicy, WriteMode,
};

fn footprint_text(doc: &kiutils_kicad::FootprintDocument) -> String {
    doc.render(WriteMode::Lossless).expect("write")
}

#[test]
fn footprint_edits_keep_unknown_nodes() {
    let src = "(footprint \"R\" (version 20260101) (future_a 1 \"x\") (layer \"F.Cu\") (future_b (deep 2)) (property \"Reference\" \"R1\"))\n";
    let mut doc = FootprintFile::read_str(src).expect("read");
    doc.set_layer("B.Cu".to_string())
        .set_descr("d".to_string())
        .upsert_property("MPN".to_string(), "123".to_string())
        .remove_property("Reference")
        .set_lib_id("R2".to_string())
        .set_version(20260102);
    let text = footprint_text(&doc);
    assert!(text.contains(" (future_a 1 \"x\")"));
    assert!(text.contains(" (future_b (deep 2))"));
    let again = FootprintFile::read_str(&text).expect("reread");
    let heads: Vec<Option<String>> = again.ast().unknown_nodes.iter().map(|u| u.head.clone()).collect();
    assert_eq!(heads, vec![Some("future_a".to_string()), Some("future_b".to_string())]);
    assert_eq!(again.ast().layer.as_deref(), Some("B.Cu"));
    assert_eq!(again.ast().lib_id.as_deref(), Some("R2"));
    assert_eq!(again.ast().reference, None);
}

#[test]
fn footprint_setter_inserts_after_the_name_and_keeps_the_rest() {
    let src = "(footprint \"R\"\n  (layer \"F.Cu\")\n)\n";
    let mut doc = FootprintFile::read_str(src).expect("read");
    doc.set_tags("a b".to_string());
    assert_eq!(footprint_text(&doc), "(footprint \"R\" (tags \"a b\")\n  (layer \"F.Cu\")\n)\n");
    doc.set_layer("B.Cu".to_string());
    assert_eq!(footprint_text(&doc), "(footprint \"R\" (tags \"a b\")\n  (layer \"B.Cu\")\n)\n");
}

#[test]
fn quoted_values_are_escaped_and_read_back() {
    let src = "(footprint \"R\" (version 20260101))\n";
    let mut doc = FootprintFile::read_str(src).expect("read");
    let tricky = "say \"hi\"\\ now\nnext\tend";
    doc.set_descr(tricky.to_string());
    let text = footprint_text(&doc);
    assert!(text.contains("(descr \"say \\\"hi\\\"\\\\ now\\nnext\\tend\")"));
    let again = FootprintFile::read_str(&text).expect("reread");
    assert_eq!(again.ast().descr.as_deref(), Some(tricky));
    assert_eq!(doc.ast().descr.as_deref(), Some(tricky));
}

#[test]
fn setting_the_present_value_changes_no_byte() {
    let src = "(kicad_sch  (version 20250114)\n (generator \"eeschema\")\n (uuid \"u\"))\n";
    let mut doc = SchematicFile::read_str(src).expect("read");
    doc.set_version(20250114).set_generator("eeschema".to_string()).set_uuid("u".to_string());
    assert_eq!(doc.render(WriteMode::Lossless).expect("write"), src);
}

#[test]
fn version_diagnostics_cover_both_edges() {
    let at = |v: i32| {
        let src = format!("(footprint \"R\" (version {v}))");
        FootprintFile::read_str(&src).expect("read")
    };
    assert!(at(20240101).diagnostics().is_empty());
    assert!(at(20260101).diagnostics().is_empty());
    let old = at(20240100);
    assert_eq!(old.diagnostics().len(), 1);
    assert_eq!(old.diagnostics()[0].code, "legacy_format");
    assert_eq!(old.diagnostics()[0].severity, Severity::Warning);
    assert_eq!(
        old.diagnostics()[0].message,
        "format version 20240100 predates KiCad 9; parsing in compatibility mode"
    );
    let new = at(20260102);
    assert_eq!(new.diagnostics().len(), 1);
    assert_eq!(new.diagnostics()[0].code, "future_format");
    assert_eq!(
        new.diagnostics()[0].message,
        "format version 20260102 is newer than the KiCad 10 series; unknown tokens are kept as they are"
    );
    let negative = at(-5);
    assert_eq!(negative.diagnostics()[0].message, "format version -5 predates KiCad 9; parsing in compatibility mode");
}

#[test]
fn version_policy_edges() {
    let p = VersionPolicy::default();
    assert_eq!(p.target, KiCadSeries::V10);
    assert!(p.reject_older);
    assert!(p.accepts(VersionPolicy::V9_MIN));
    assert!(!p.accepts(VersionPolicy::V9_MIN - 1));
    assert!(!p.is_future_for_target(VersionPolicy::V10_BASE));
    assert!(p.is_future_for_target(VersionPolicy::V10_BASE + 1));
    let v9 = VersionPolicy { target: KiCadSeries::V9, reject_older: false };
    assert!(v9.is_future_for_target(VersionPolicy::V9_MIN + 1));
    assert!(!v9.is_future_for_target(VersionPolicy::V9_MIN));
    // a version newer than the KiCad 10 base is newer for the KiCad 9 target too
    assert!(v9.is_future_for_target(VersionPolicy::V10_BASE + 1));
    assert!(p.accepts(VersionPolicy::V10_BASE + 1));
}

#[test]
fn title_block_comments_are_ordered_by_number() {
    let src = "(kicad_sch (version 20250114) (title_block (comment 3 \"c\") (comment 1 \"a1\") (comment 2 \"b\") (comment 1 \"a2\") (comment x \"skip\")))\n";
    let doc = SchematicFile::read_str(src).expect("read");
    let tb = doc.ast().title_block.as_ref().expect("title block");
    assert_eq!(tb.comments, vec!["a1", "a2", "b", "c"]);
}

#[test]
fn paper_standard_and_title_fields() {
    let src = "(kicad_sch (version 20250114) (paper \"A4\"))\n";
    let mut doc = SchematicFile::read_str(src).expect("read");
    doc.set_paper_standard("A3".to_string(), Some("portrait".to_string())).set_title("T".to_string());
    let text = doc.render(WriteMode::Lossless).expect("write");
    assert_eq!(text, "(kicad_sch (title_block (title \"T\")) (version 20250114) (paper \"A3\" portrait))\n");
    let paper = doc.ast().paper.as_ref().expect("paper");
    assert_eq!(paper.kind.as_deref(), Some("A3"));
    assert_eq!(paper.orientation.as_deref(), Some("portrait"));
    assert!(paper.width.is_none());
}

#[test]
fn schematic_sheets_and_symbol_instances() {
    let src = "(kicad_sch (version 20250114)\n (symbol (lib_id \"Device:R\") (property \"Reference\" \"R1\") (property \"Value\" \"10k\"))\n (symbol (lib_id \"Device:C\") (property \"Reference\" \"C1\"))\n (sheet (property \"Sheetname\" \"A\") (property \"Sheetfile\" \"a.kicad_sch\"))\n (sheet (property \"Sheetname\" \"B\")))\n";
    let mut doc = SchematicFile::read_str(src).expect("read");
    assert_eq!(doc.sheet_filenames(), vec!["a.kicad_sch".to_string()]);
    let infos = doc.symbol_instances();
    assert_eq!(infos.len(), 2);
    assert_eq!(infos[0].reference.as_deref(), Some("R1"));
    assert_eq!(infos[0].value.as_deref(), Some("10k"));
    assert_eq!(infos[1].lib_id.as_deref(), Some("Device:C"));

    doc.upsert_symbol_instance_property("R1", "Value", "22k".to_string())
        .upsert_symbol_instance_property("C1", "MPN", "X7R".to_string())
        .remove_symbol_instance_property("R1", "Reference");
    let infos = doc.symbol_instances();
    assert_eq!(infos[0].value.as_deref(), Some("22k"));
    assert_eq!(infos[0].reference, None);
    assert!(infos[1].properties.contains(&("MPN".to_string(), "X7R".to_string())));
    assert_eq!(doc.sheet_filenames(), vec!["a.kicad_sch".to_string()]);
}

#[test]
fn symbol_rename_first_and_unknown_kept() {
    let src = "(kicad_symbol_lib (version 20260101) (future 1) (symbol \"A\" (property \"Value\" \"A\")) (symbol \"B\"))\n";
    let mut doc = SymbolLibFile::read_str(src).expect("read");
    doc.rename_first_symbol("Z".to_string()).upsert_symbol_property("B", "Value", "b".to_string());
    let text = doc.render(WriteMode::Lossless).expect("write");
    assert_eq!(
        text,
        "(kicad_symbol_lib (version 20260101) (future 1) (symbol \"Z\" (property \"Value\" \"A\")) (symbol \"B\" (property \"Value\" \"b\")))\n"
    );
    assert_eq!(doc.ast().unknown_nodes.len(), 1);
}

#[test]
fn footprint_pad_drill_and_net() {
    let src = "(footprint \"J\" (pad \"1\" thru_hole oval (at 1 2 90) (size 1.5 2) (drill oval 0.8 1.2 (offset 0.1 -0.2)) (layers \"*.Cu\" \"*.Mask\") (net 3 \"GND\") (pinfunction \"P\") locked))\n";
    let doc = FootprintFile::read_str(src).expect("read");
    let pad = &doc.ast().pads[0];
    assert_eq!(pad.number.as_deref(), Some("1"));
    assert_eq!(pad.pad_type.as_deref(), Some("thru_hole"));
    assert_eq!(pad.shape.as_deref(), Some("oval"));
    assert_eq!(pad.at.as_ref().map(|p| (p.x.text.clone(), p.y.text.clone())), Some(("1".to_string(), "2".to_string())));
    assert_eq!(pad.rotation.as_ref().map(|r| r.text.clone()), Some("90".to_string()));
    assert_eq!(pad.layers, vec!["*.Cu", "*.Mask"]);
    let net = pad.net.as_ref().expect("net");
    assert_eq!(net.code, Some(3));
    assert_eq!(net.name.as_deref(), Some("GND"));
    let drill = pad.drill.as_ref().expect("drill");
    assert_eq!(drill.shape.as_deref(), Some("oval"));
    assert_eq!(drill.diameter.as_ref().map(|r| r.text.clone()), Some("0.8".to_string()));
    assert_eq!(drill.width.as_ref().map(|r| r.text.clone()), Some("1.2".to_string()));
    assert_eq!(
        drill.offset.as_ref().map(|p| (p.x.text.clone(), p.y.text.clone())),
        Some(("0.1".to_string(), "-0.2".to_string()))
    );
    assert_eq!(pad.pin_function.as_deref(), Some("P"));
    assert!(pad.locked);
}

#[test]
fn read_errors_name_their_cause() {
    assert!(matches!(FootprintFile::read_str("  "), Err(Error::Parse(ParseError::EmptyInput))));
    assert!(matches!(FootprintFile::read_str("(footprint"), Err(Error::Parse(ParseError::UnexpectedEof { .. }))));
    match SchematicFile::read_str("(kicad_pcb (version 1))") {
        Err(Error::Validation(m)) => assert_eq!(m, "unexpected root token"),
        other => panic!("unexpected {other:?}"),
    }
    match SymbolLibFile::read_str("sym") {
        Err(Error::Validation(m)) => assert_eq!(m, "unexpected root token"),
        other => panic!("unexpected {other:?}"),
    }
}

#[test]
fn ast_mut_blocks_writing() {
    let mut doc = FootprintFile::read_str("(footprint \"R\")").expect("read");
    doc.ast_mut().locked = true;
    match doc.render(WriteMode::Lossless) {
        Err(Error::Validation(m)) => {
            assert_eq!(m, "ast_mut changes are not serializable; use document setter APIs")
        }
        other => panic!("unexpected {other:?}"),
    }
}

#[test]
fn canonical_footprint_write() {
    let doc = FootprintFile::read_str("(footprint  \"R\"\n\t(layer \"F.Cu\"))\n").expect("read");
    assert_eq!(doc.render(WriteMode::Canonical).expect("write"), "(footprint \"R\" (layer \"F.Cu\"))\n");
}

fn num(i: i64) -> JsonValue {
    JsonValue::Number(JsonNumber { text: i.to_string(), int: Some(i) })
}

fn project(fields: Vec<(&str, JsonValue)>) -> JsonValue {
    JsonValue::Object(fields.into_iter().map(|(k, v)| (k.to_string(), v)).collect())
}

fn strings(v: &[&str]) -> JsonValue {
    JsonValue::Array(v.iter().map(|s| JsonValue::String(s.to_string())).collect())
}

#[test]
fn project_setter_keeps_other_fields() {
    let json = project(vec![
        ("meta", project(vec![("version", num(3))])),
        ("libraries", project(vec![("pinned_footprint_libs", strings(&["fp"])), ("pinned_symbol_libs", strings(&[]))])),
        ("zzz_custom", JsonValue::Bool(true)),
    ]);
    let mut doc = ProjectFile::from_json("raw".to_string(), json).expect("project");
    assert_eq!(doc.ast().meta_version, Some(3));
    assert_eq!(doc.ast().unknown_fields.len(), 1);
    doc.set_pinned_symbol_libs(vec!["a".to_string(), "b".to_string()]);
    assert_eq!(doc.ast().pinned_symbol_libs, vec!["a", "b"]);
    assert_eq!(doc.ast().pinned_footprint_libs, vec!["fp"]);
    assert_eq!(doc.ast().unknown_fields.len(), 1);
    assert_eq!(doc.ast().unknown_fields[0].key, "zzz_custom");
    let expected = "{\n  \"libraries\": {\n    \"pinned_footprint_libs\": [\n      \"fp\"\n    ],\n    \"pinned_symbol_libs\": [\n      \"a\",\n      \"b\"\n    ]\n  },\n  \"meta\": {\n    \"version\": 3\n  },\n  \"zzz_custom\": true\n}\n";
    assert_eq!(doc.raw(), expected);
    assert_eq!(doc.render(WriteMode::Canonical).expect("canonical"), expected);
    assert_eq!(doc.render(WriteMode::Lossless).expect("lossless"), expected);
    doc.set_pinned_footprint_libs(vec![]);
    assert!(doc.ast().pinned_footprint_libs.is_empty());
    assert_eq!(doc.ast().pinned_symbol_libs, vec!["a", "b"]);
    let again = ProjectFile::read_str(doc.raw()).expect("reread");
    assert!(again.ast().pinned_footprint_libs.is_empty());
    assert_eq!(again.ast().pinned_symbol_libs, vec!["a", "b"]);
}

#[test]
fn project_setter_creates_libraries_in_key_order() {
    let json = project(vec![("board", project(vec![])), ("meta", project(vec![]))]);
    let mut doc = ProjectFile::from_json(String::new(), json).expect("project");
    doc.set_pinned_symbol_libs(vec!["s".to_string()]);
    match doc.json() {
        JsonValue::Object(fs) => {
            let keys: Vec<&str> = fs.iter().map(|(k, _)| k.as_str()).collect();
            assert_eq!(keys, vec!["board", "libraries", "meta"]);
        }
        other => panic!("unexpected {other:?}"),
    }
}

#[test]
fn project_meta_version_limits() {
    let ok = project(vec![("meta", project(vec![("version", num(i32::MAX as i64))]))]);
    assert_eq!(ProjectFile::from_json(String::new(), ok).expect("ok").ast().meta_version, Some(i32::MAX));
    let bad = project(vec![("meta", project(vec![("version", num(i32::MIN as i64 - 1))]))]);
    match ProjectFile::from_json(String::new(), bad) {
        Err(Error::Validation(m)) => assert_eq!(m, "meta.version is out of i32 range"),
        other => panic!("unexpected {other:?}"),
    }
}

#[test]
fn project_text_is_read_by_serde_json() {
    let doc = ProjectFile::read_str("{\"meta\": {\"version\": 7}, \"x\": [1, 2.5, null]}").expect("read");
    assert_eq!(doc.ast().meta_version, Some(7));
    assert_eq!(doc.raw(), "{\"meta\": {\"version\": 7}, \"x\": [1, 2.5, null]}");
    match ProjectFile::read_str("{ not json") {
        Err(Error::Validation(m)) => assert!(m.starts_with("invalid .kicad_pro json: ")),
        other => panic!("unexpected {other:?}"),
    }
}

#[test]
fn project_non_object_root_becomes_an_object() {
    let mut doc = ProjectFile::read_str("[]").expect("read");
    doc.set_pinned_symbol_libs(vec!["S".to_string()]);
    assert_eq!(doc.raw(), "{\n  \"libraries\": {\n    \"pinned_symbol_libs\": [\n      \"S\"\n    ]\n  }\n}\n");
    assert_eq!(doc.ast().pinned_symbol_libs, vec!["S"]);
    assert!(doc.ast().pinned_footprint_libs.is_empty());
    assert_eq!(doc.ast().meta_version, None);
}

#[test]
fn board_root_must_be_kicad_pcb() {
    match PcbFile::read_str("(kicad_sch (version 20250114))\n") {
        Err(Error::Validation(m)) => assert_eq!(m, "unexpected root token"),
        other => panic!("unexpected {other:?}"),
    }
    let doc = PcbFile::read_str("(kicad_pcb (version 20270101))").expect("read");
    assert_eq!(doc.diagnostics().len(), 1);
    assert_eq!(doc.diagnostics()[0].code, "future_format");
    assert!(PcbFile::read_str("(kicad_pcb (version 20260101))").expect("read").diagnostics().is_empty());
}

#[test]
fn special_float_words_are_numbers() {
    let src = "(footprint \"J\" (pad \"1\" thru_hole circle (drill -Inf) (size nan 1)))\n";
    let doc = FootprintFile::read_str(src).expect("read");
    let pad = &doc.ast().pads[0];
    let drill = pad.drill.as_ref().expect("drill");
    assert_eq!(drill.diameter.as_ref().map(|r| r.text.clone()), Some("-Inf".to_string()));
    assert_eq!(drill.shape, None);
    assert_eq!(pad.size.as_ref().map(|p| p.x.text.clone()), Some("nan".to_string()));
}

#[test]
fn json_insert_position_is_ordered() {
    let fs: Vec<(String, JsonValue)> =
        vec![("a".to_string(), JsonValue::Null), ("c".to_string(), JsonValue::Null), ("e".to_string(), JsonValue::Null)];
    assert_eq!(find_insert_position(&fs, "d"), 2);
    assert_eq!(find_insert_position(&fs, "0"), 0);
    assert_eq!(find_insert_position(&fs, "z"), 3);
}

#[test]
fn removing_a_property_keeps_bare_symbols_apart() {
    let src = "(footprint \"R\" a (property \"k\" \"v\")b)";
    let mut doc = FootprintFile::read_str(src).expect("read");
    doc.remove_property("k");
    let text = footprint_text(&doc);
    assert_eq!(text, "(footprint \"R\" a b)");
    let again = FootprintFile::read_str(&text).expect("reread");
    assert_eq!(again.cst().to_lossless_string(), text);
    assert_eq!(again.ast().property_count, 0);
}

#[test]
fn setting_a_scalar_next_to_a_tight_list_reads_back() {
    let src = "(kicad_symbol_lib(version 20231120)(generator\"x\"))";
    let mut doc = SymbolLibFile::read_str(src).expect("read");
    doc.set_generator("kiutils".to_string());
    let text = doc.render(WriteMode::Lossless).expect("write");
    assert_eq!(text, "(kicad_symbol_lib(version 20231120)(generator kiutils))");
    let again = SymbolLibFile::read_str(&text).expect("reread");
    assert_eq!(again.ast().generator.as_deref(), Some("kiutils"));
    assert_eq!(again.ast().version, Some(20231120));
}

#[test]
fn user_paper_is_written_with_separate_numbers() {
    let src = "(kicad_sch (version 20241229) (paper \"A4\"))\n";
    let mut doc = SchematicFile::read_str(src).expect("read");
    doc.set_paper_user(
        kiutils_kicad::Real { text: "297".to_string() },
        kiutils_kicad::Real { text: "210".to_string() },
        Some("landscape".to_string()),
    );
    let text = doc.render(WriteMode::Lossless).expect("write");
    assert_eq!(text, "(kicad_sch (version 20241229) (paper \"User\" 297 210 landscape))\n");
    let again = SchematicFile::read_str(&text).expect("reread");
    let paper = again.ast().paper.as_ref().expect("paper");
    assert_eq!(paper.kind.as_deref(), Some("User"));
    assert_eq!(paper.width.as_ref().map(|r| r.text.clone()), Some("297".to_string()));
    assert_eq!(paper.height.as_ref().map(|r| r.text.clone()), Some("210".to_string()));
    assert_eq!(paper.orientation.as_deref(), Some("landscape"));
}

#[test]
fn written_documents_read_back_as_themselves() {
    let mut fp = FootprintFile::read_str("(footprint \"R\" (layer \"F.Cu\") (x 1))\n").expect("read");
    fp.upsert_property("LCSC".to_string(), "C1234".to_string()).set_descr("d".to_string());
    let text = footprint_text(&fp);
    let again = FootprintFile::read_str(&text).expect("reread");
    assert_eq!(format!("{:?}", again.cst()), format!("{:?}", fp.cst()));
    assert!(text.contains("(property \"LCSC\" \"C1234\")"));

    let mut sym = SymbolLibFile::read_str("(kicad_symbol_lib (symbol \"A\" (property \"k\" \"v\") x y))").expect("read");
    sym.remove_symbol_property("A", "k").upsert_symbol_property("A", "n", "m\"q".to_string());
    let text = sym.render(WriteMode::Lossless).expect("write");
    let again = SymbolLibFile::read_str(&text).expect("reread");
    assert_eq!(format!("{:?}", again.cst()), format!("{:?}", sym.cst()));
    assert!(text.contains("(property \"n\" \"m\\\"q\")"));
}

#[test]
fn footprint_graphic_count_is_the_sum_of_its_kinds() {
    let src = "(footprint \"G\" (fp_line) (fp_rect) (fp_circle) (fp_arc) (fp_poly) (fp_curve) (fp_text) (fp_text_box) (fp_line) (locked) (property \"Reference\" \"R1\") (property \"odd\"))\n";
    let doc = FootprintFile::read_str(src).expect("read");
    let a = doc.ast();
    let kinds = a.fp_line_count + a.fp_rect_count + a.fp_circle_count + a.fp_arc_count + a.fp_poly_count
        + a.fp_curve_count + a.fp_text_count + a.fp_text_box_count;
    assert_eq!(a.graphic_count, 9);
    assert_eq!(kinds, 9);
    assert_eq!(a.graphics.len(), 9);
    assert_eq!(a.property_count, 2);
    assert_eq!(a.properties.len(), 1);
    assert!(a.locked && a.locked_present);
}

#[test]
fn symbol_instances_agree_with_the_typed_view() {
    let src = "(kicad_sch (lib_symbols (symbol \"L:R\")) (symbol (lib_id \"L:R\") (property \"Reference\" \"R1\") (property \"Value\" \"10k\")) (symbol (property \"Reference\" \"R2\")))\n";
    let doc = SchematicFile::read_str(src).expect("read");
    let inst = doc.symbol_instances();
    assert_eq!(inst.len(), doc.ast().symbol_count);
    for (i, s) in inst.iter().enumerate() {
        assert_eq!(s.reference, doc.ast().symbols[i].reference);
        assert_eq!(s.value, doc.ast().symbols[i].value);
        assert_eq!(s.properties, doc.ast().symbols[i].properties);
    }
    assert_eq!(inst[0].reference.as_deref(), Some("R1"));
    assert_eq!(inst[1].value, None);
}

#[test]
fn a_number_that_is_not_json_is_refused_when_printed() {
    let json = project(vec![("x", JsonValue::Number(JsonNumber { text: "1.2.3".to_string(), int: None }))]);
    let doc = ProjectFile::from_json("{}".to_string(), json).expect("doc");
    match doc.render(WriteMode::Canonical) {
        Err(Error::Validation(m)) => assert!(m.starts_with("json serialization failed: ")),
        other => panic!("unexpected {other:?}"),
    }
    assert_eq!(doc.render(WriteMode::Lossless).expect("lossless"), "{}");
}
