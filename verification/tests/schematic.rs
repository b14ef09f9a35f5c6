use kiutils_kicad::{Real, SchematicDocument, SchematicFile, WriteMode};

fn read(src: &str) -> SchematicDocument {
    SchematicFile::read_str(src).expect("read")
}

fn number(r: &Real) -> f64 {
    r.text.parse::<f64>().expect("number")
}

#[test]
fn read_schematic_and_preserve_lossless() {
    let src = "(kicad_sch (version 20250114) (generator \"eeschema\") (generator_version \"9.0\") (uuid \"u-1\") (paper \"A4\") (title_block (title \"Demo\") (date \"2026-02-25\") (comment 2 \"c2\") (comment 1 \"c1\")) (lib_symbols (symbol \"Lib:R\")) (symbol (lib_id \"Lib:R\")) (wire (pts (xy 0 0) (xy 1 1))) (sheet_instances (path \"/\" (page \"1\"))) (embedded_fonts no))\n";
    let doc = read(src);
    assert_eq!(doc.ast().version, Some(20250114));
    assert_eq!(doc.ast().generator.as_deref(), Some("eeschema"));
    assert_eq!(doc.ast().generator_version.as_deref(), Some("9.0"));
    assert_eq!(doc.ast().uuid.as_deref(), Some("u-1"));
    assert_eq!(
        doc.ast().paper.as_ref().and_then(|p| p.kind.clone()),
        Some("A4".to_string())
    );
    assert_eq!(doc.ast().lib_symbol_count, 1);
    assert_eq!(doc.ast().symbol_count, 1);
    assert_eq!(doc.ast().wire_count, 1);
    assert_eq!(doc.ast().sheet_instance_count, 1);
    assert_eq!(doc.ast().embedded_fonts, Some(false));
    assert_eq!(doc.cst().to_lossless_string(), src);
}

#[test]
fn schematic_captures_unknown_nodes_roundtrip() {
    let src = "(kicad_sch (version 20250114) (generator \"eeschema\") (future_block 1 2) (symbol (lib_id \"Device:R\")))\n";
    let doc = read(src);
    assert_eq!(doc.ast().unknown_nodes.len(), 1);
    let got = doc.render(WriteMode::Lossless).expect("write");
    assert_eq!(got, src);
}

#[test]
fn edit_roundtrip_updates_core_fields() {
    let src = "(kicad_sch (version 20241229) (generator \"eeschema\") (paper \"A4\") (title_block (title \"Old\") (date \"2025-01-01\") (rev \"A\") (company \"OldCo\")) (future_token 1 2))\n";
    let mut doc = read(src);
    doc.set_version(20260101)
        .set_generator("kiutils".to_string())
        .set_generator_version("dev".to_string())
        .set_uuid("uuid-new".to_string())
        .set_paper_user(
            Real { text: "297".to_string() },
            Real { text: "210".to_string() },
            Some("landscape".to_string()),
        )
        .set_title("New".to_string())
        .set_date("2026-02-25".to_string())
        .set_revision("B".to_string())
        .set_company("Lords".to_string())
        .set_embedded_fonts(true);

    let written = doc.render(WriteMode::Lossless).expect("write");
    let reread = read(&written);

    assert_eq!(reread.ast().version, Some(20260101));
    assert_eq!(reread.ast().generator.as_deref(), Some("kiutils"));
    assert_eq!(reread.ast().generator_version.as_deref(), Some("dev"));
    assert_eq!(reread.ast().uuid.as_deref(), Some("uuid-new"));
    assert_eq!(
        reread.ast().paper.as_ref().and_then(|p| p.kind.clone()),
        Some("User".to_string())
    );
    assert_eq!(reread.ast().paper.as_ref().and_then(|p| p.width.as_ref().map(number)), Some(297.0));
    assert_eq!(reread.ast().paper.as_ref().and_then(|p| p.height.as_ref().map(number)), Some(210.0));
    assert_eq!(reread.ast().embedded_fonts, Some(true));
    assert_eq!(reread.ast().unknown_nodes.len(), 1);
    assert_eq!(
        reread.ast().title_block.as_ref().and_then(|t| t.title.clone()),
        Some("New".to_string())
    );
}
