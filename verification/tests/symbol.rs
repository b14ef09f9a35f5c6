use kiutils_kicad::{SymbolLibDocument, SymbolLibFile, WriteMode};

fn read(src: &str) -> SymbolLibDocument {
    SymbolLibFile::read_str(src).expect("read")
}

#[test]
fn read_symbol_lib_and_preserve_lossless() {
    let src = "(kicad_symbol_lib (version 20260101) (generator kicad_symbol_editor) (symbol \"R\" (property \"Reference\" \"R\") (symbol \"R_0_0\" (pin passive line (at 0 0 0) (length 1)))))\n";
    let doc = read(src);
    assert_eq!(doc.ast().version, Some(20260101));
    assert_eq!(doc.ast().generator.as_deref(), Some("kicad_symbol_editor"));
    assert_eq!(doc.ast().symbol_count, 1);
    assert_eq!(doc.ast().total_property_count, 1);
    assert_eq!(doc.ast().total_pin_count, 1);
    assert_eq!(doc.cst().to_lossless_string(), src);
}

#[test]
fn symbol_captures_unknown_nodes_roundtrip() {
    let src = "(kicad_symbol_lib (version 20260101) (generator kicad_symbol_editor) (future_block 1 2) (symbol \"R\"))\n";
    let doc = read(src);
    assert_eq!(doc.ast().unknown_nodes.len(), 1);
    let got = doc.render(WriteMode::Lossless).expect("write");
    assert_eq!(got, src);
}

#[test]
fn edit_roundtrip_updates_symbol_metadata() {
    let src = "(kicad_symbol_lib (version 20241209) (generator kicad_symbol_editor)\n  (symbol \"Old\" (property \"Reference\" \"U\") (property \"Value\" \"Old\") (symbol \"Old_0_0\" (pin input line (at 0 0 0) (length 2))))\n)\n";
    let mut doc = read(src);
    doc.set_version(20260101)
        .set_generator("kiutils".to_string())
        .set_generator_version("dev".to_string())
        .rename_symbol("Old", "New".to_string())
        .upsert_symbol_property("New", "Value", "NewValue".to_string())
        .remove_symbol_property("New", "Reference");

    let written = doc.render(WriteMode::Lossless).expect("write");
    let reread = read(&written);

    assert_eq!(reread.ast().version, Some(20260101));
    assert_eq!(reread.ast().generator.as_deref(), Some("kiutils"));
    assert_eq!(reread.ast().generator_version.as_deref(), Some("dev"));
    assert_eq!(
        reread.ast().symbols.first().and_then(|s| s.name.clone()),
        Some("New".to_string())
    );
    assert_eq!(reread.ast().symbols.first().map(|s| s.property_count), Some(1));
    assert_eq!(reread.ast().total_pin_count, 1);
}
