use kiutils_kicad::{FootprintDocument, FootprintFile, WriteMode};

fn read(src: &str) -> FootprintDocument {
    FootprintFile::read_str(src).expect("read")
}

fn write(doc: &FootprintDocument) -> String {
    doc.render(WriteMode::Lossless).expect("write")
}

#[test]
fn read_footprint_and_preserve_lossless() {
    let src = "(footprint \"R_0603\" (version 20260101) (generator pcbnew))\n";
    let doc = read(src);
    assert_eq!(doc.ast().lib_id.as_deref(), Some("R_0603"));
    assert_eq!(doc.ast().version, Some(20260101));
    assert_eq!(doc.ast().generator.as_deref(), Some("pcbnew"));
    assert!(doc.ast().unknown_nodes.is_empty());
    assert_eq!(doc.cst().to_lossless_string(), src);
}

#[test]
fn read_footprint_warns_on_future_version() {
    let doc = read("(footprint \"R\" (version 20270101) (generator pcbnew))\n");
    assert_eq!(doc.diagnostics().len(), 1);
}

#[test]
fn read_footprint_warns_on_legacy_version() {
    let doc = read("(footprint \"R\" (version 20221018) (generator pcbnew))\n");
    assert_eq!(doc.diagnostics().len(), 1);
    assert_eq!(doc.diagnostics()[0].code, "legacy_format");
}

#[test]
fn read_footprint_accepts_legacy_module_root() {
    let src = "(module R_0603 (layer F.Cu) (tedit 5F0C7995) (attr smd))\n";
    let doc = read(src);
    assert_eq!(doc.ast().lib_id.as_deref(), Some("R_0603"));
    assert_eq!(doc.ast().tedit.as_deref(), Some("5F0C7995"));
    assert!(doc.ast().attr_present);
    assert_eq!(doc.diagnostics().len(), 1);
    assert_eq!(doc.diagnostics()[0].code, "legacy_root");
}

#[test]
fn read_footprint_captures_unknown_nodes() {
    let src = "(footprint \"R\" (version 20260101) (generator pcbnew) (future_shape foo bar))\n";
    let doc = read(src);
    assert_eq!(doc.ast().unknown_nodes.len(), 1);
    assert_eq!(doc.ast().unknown_nodes[0].head.as_deref(), Some("future_shape"));
}

#[test]
fn read_footprint_parses_top_level_counts() {
    let src = "(footprint \"X\" (version 20260101) (generator pcbnew) (generator_version \"10.0\") (layer \"F.Cu\")\n  (descr \"demo\")\n  (tags \"a b\")\n  (property \"Reference\" \"R?\")\n  (property \"Value\" \"X\")\n  (attr smd)\n  (private_layers \"In1.Cu\")\n  (net_tie_pad_groups \"1,2\")\n  (solder_mask_margin 0.02)\n  (solder_paste_margin -0.01)\n  (solder_paste_margin_ratio -0.2)\n  (duplicate_pad_numbers_are_jumpers yes)\n  (fp_text reference \"R1\" (at 0 0) (layer \"F.SilkS\"))\n  (fp_line (start 0 0) (end 1 1) (layer \"F.SilkS\"))\n  (pad \"1\" smd rect (at 0 0) (size 1 1) (layers \"F.Cu\" \"F.Mask\"))\n  (model \"foo.step\")\n  (zone)\n  (group (id \"g1\"))\n  (dimension)\n)\n";
    let doc = read(src);
    assert_eq!(doc.ast().lib_id.as_deref(), Some("X"));
    assert_eq!(doc.ast().generator_version.as_deref(), Some("10.0"));
    assert_eq!(doc.ast().layer.as_deref(), Some("F.Cu"));
    assert_eq!(doc.ast().property_count, 2);
    assert!(doc.ast().attr_present);
    assert!(!doc.ast().locked_present);
    assert!(doc.ast().private_layers_present);
    assert!(doc.ast().net_tie_pad_groups_present);
    assert!(!doc.ast().embedded_fonts_present);
    assert!(!doc.ast().has_embedded_files);
    assert_eq!(doc.ast().embedded_file_count, 0);
    assert_eq!(doc.ast().clearance, None);
    assert_eq!(doc.ast().solder_mask_margin.as_deref(), Some("0.02"));
    assert_eq!(doc.ast().solder_paste_margin.as_deref(), Some("-0.01"));
    assert_eq!(doc.ast().solder_paste_margin_ratio.as_deref(), Some("-0.2"));
    assert_eq!(doc.ast().duplicate_pad_numbers_are_jumpers, Some(true));
    assert_eq!(doc.ast().fp_text_count, 1);
    assert_eq!(doc.ast().fp_line_count, 1);
    assert_eq!(doc.ast().graphic_count, 2);
    assert_eq!(doc.ast().pad_count, 1);
    assert_eq!(doc.ast().model_count, 1);
    assert_eq!(doc.ast().zone_count, 1);
    assert_eq!(doc.ast().group_count, 1);
    assert_eq!(doc.ast().dimension_count, 1);
    assert!(doc.ast().unknown_nodes.is_empty());
}

#[test]
fn parses_embedded_fonts_regression() {
    let doc = read("(footprint \"X\" (version 20260101) (generator pcbnew) (embedded_fonts no))\n");
    assert!(doc.ast().embedded_fonts_present);
    assert!(doc.ast().unknown_nodes.is_empty());
}

#[test]
fn parses_locked_regression() {
    let doc = read("(footprint \"X\" (locked) (version 20260101) (generator pcbnew))\n");
    assert!(doc.ast().locked_present);
    assert!(doc.ast().unknown_nodes.is_empty());
}

#[test]
fn parses_solder_margins_and_jumpers_regression() {
    let src = "(footprint \"X\" (version 20260101) (generator pcbnew)\n  (clearance 0.15)\n  (solder_mask_margin 0.03)\n  (solder_paste_margin -0.02)\n  (solder_paste_margin_ratio -0.3)\n  (duplicate_pad_numbers_are_jumpers no)\n)\n";
    let doc = read(src);
    assert_eq!(doc.ast().clearance.as_deref(), Some("0.15"));
    assert_eq!(doc.ast().solder_mask_margin.as_deref(), Some("0.03"));
    assert_eq!(doc.ast().solder_paste_margin.as_deref(), Some("-0.02"));
    assert_eq!(doc.ast().solder_paste_margin_ratio.as_deref(), Some("-0.3"));
    assert_eq!(doc.ast().duplicate_pad_numbers_are_jumpers, Some(false));
    assert!(doc.ast().unknown_nodes.is_empty());
}

#[test]
fn parses_embedded_files_regression() {
    let src = "(footprint \"X\" (version 20260101) (generator pcbnew)\n  (embedded_files\n    (file \"A\" \"base64\")\n    (file \"B\" \"base64\")\n  )\n)\n";
    let doc = read(src);
    assert!(doc.ast().has_embedded_files);
    assert_eq!(doc.ast().embedded_file_count, 2);
    assert!(doc.ast().unknown_nodes.is_empty());
}

#[test]
fn edit_roundtrip_updates_core_fields_and_properties() {
    let src = "(footprint \"Old\" (version 20241229) (generator pcbnew) (layer \"F.Cu\")\n  (property \"Reference\" \"R1\")\n  (property \"Value\" \"10k\")\n  (future_shape foo bar)\n)\n";
    let mut doc = read(src);
    doc.set_lib_id("New_Footprint".to_string())
        .set_version(20260101)
        .set_generator("kiutils".to_string())
        .set_generator_version("dev".to_string())
        .set_layer("B.Cu".to_string())
        .set_descr("demo footprint".to_string())
        .set_tags("r c passives".to_string())
        .set_reference("R99".to_string())
        .set_value("22k".to_string())
        .upsert_property("LCSC".to_string(), "C1234".to_string())
        .remove_property("DoesNotExist");

    let written = write(&doc);
    assert!(written.contains("(future_shape foo bar)"));
    assert!(written.contains("(property \"LCSC\" \"C1234\")"));

    let reread = read(&written);
    assert_eq!(reread.ast().lib_id.as_deref(), Some("New_Footprint"));
    assert_eq!(reread.ast().version, Some(20260101));
    assert_eq!(reread.ast().generator.as_deref(), Some("kiutils"));
    assert_eq!(reread.ast().generator_version.as_deref(), Some("dev"));
    assert_eq!(reread.ast().layer.as_deref(), Some("B.Cu"));
    assert_eq!(reread.ast().descr.as_deref(), Some("demo footprint"));
    assert_eq!(reread.ast().tags.as_deref(), Some("r c passives"));
    assert_eq!(reread.ast().property_count, 3);
    assert_eq!(reread.ast().unknown_nodes.len(), 1);
}

#[test]
fn remove_property_roundtrip_removes_entry() {
    let src = "(footprint \"X\" (version 20260101) (generator pcbnew)\n  (property \"Reference\" \"R1\")\n  (property \"Value\" \"10k\")\n)\n";
    let mut doc = read(src);
    doc.remove_property("Value");
    let reread = read(&write(&doc));
    assert_eq!(reread.ast().property_count, 1);
}

#[test]
fn no_op_setter_keeps_lossless_raw_unchanged() {
    let src = "(footprint \"X\" (version   20260101) (generator pcbnew))\n";
    let mut doc = read(src);
    doc.set_version(20260101);
    assert_eq!(write(&doc), src);
}
