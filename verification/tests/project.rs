use kiutils_kicad::{Error, JsonValue, ProjectDocument, ProjectFile, WriteMode};

fn read(src: &str) -> Result<ProjectDocument, Error> {
    ProjectFile::read_str(src)
}

fn libs(v: &[&str]) -> Vec<String> {
    v.iter().map(|s| s.to_string()).collect()
}

fn pinned_len(doc: &ProjectDocument, key: &str) -> Option<usize> {
    match doc.json() {
        JsonValue::Object(fs) => fs.iter().find(|(k, _)| k == "libraries").and_then(|(_, l)| match l {
            JsonValue::Object(ls) => ls.iter().find(|(k, _)| k == key).and_then(|(_, a)| match a {
                JsonValue::Array(a) => Some(a.len()),
                _ => None,
            }),
            _ => None,
        }),
        _ => None,
    }
}

#[test]
fn read_project_json() {
    let src = r#"{
  "meta": { "version": 3 },
  "libraries": {
    "pinned_symbol_libs": ["S1", "S2"],
    "pinned_footprint_libs": ["A", "B"]
  },
  "board": { "foo": true }
}
"#;
    let doc = read(src).expect("read");
    assert_eq!(doc.ast().meta_version, Some(3));
    assert_eq!(doc.ast().pinned_symbol_libs, vec!["S1", "S2"]);
    assert_eq!(doc.ast().pinned_footprint_libs, vec!["A", "B"]);
    assert!(doc.ast().unknown_fields.is_empty());
    assert_eq!(doc.raw(), src);
}

#[test]
fn read_project_captures_unknown_top_level_fields() {
    let src = r#"{
  "meta": { "version": 3 },
  "libraries": { "pinned_footprint_libs": ["A"] },
  "custom_top": { "x": 1 }
}
"#;
    let doc = read(src).expect("read");
    assert_eq!(doc.ast().unknown_fields.len(), 1);
    assert_eq!(doc.ast().unknown_fields[0].key, "custom_top");
}

#[test]
fn setters_update_project_libraries_and_allow_write() {
    let src = r#"{
  "meta": { "version": 3 },
  "libraries": { "pinned_footprint_libs": ["A"] }
}
"#;
    let mut doc = read(src).expect("read");
    doc.set_pinned_symbol_libs(libs(&["SYM_A", "SYM_B"]))
        .set_pinned_footprint_libs(libs(&["FP_A", "FP_B"]));
    assert_eq!(doc.ast().pinned_symbol_libs, vec!["SYM_A", "SYM_B"]);
    assert_eq!(doc.ast().pinned_footprint_libs, vec!["FP_A", "FP_B"]);
    assert_eq!(pinned_len(&doc, "pinned_symbol_libs"), Some(2));

    let written = doc.render(WriteMode::Lossless).expect("write should work");
    let reread = read(&written).expect("reread");
    assert_eq!(reread.ast().pinned_symbol_libs, vec!["SYM_A", "SYM_B"]);
    assert_eq!(reread.ast().pinned_footprint_libs, vec!["FP_A", "FP_B"]);
}

#[test]
fn setters_do_not_clear_ast_mut_dirty_guard() {
    let src = r#"{
  "meta": { "version": 3 },
  "libraries": { "pinned_footprint_libs": ["A"] }
}
"#;
    let mut doc = read(src).expect("read");
    doc.ast_mut().meta_version = Some(4);
    doc.set_pinned_symbol_libs(libs(&["SYM_A"]));
    assert_eq!(doc.ast().meta_version, Some(3));

    let err = doc.render(WriteMode::Lossless).expect_err("write should fail");
    match err {
        Error::Validation(msg) => {
            assert!(msg.contains("ast_mut changes are not serializable"));
        }
        _ => panic!("expected validation error"),
    }
}

#[test]
fn ast_mut_write_returns_validation_error() {
    let src = r#"{
  "meta": { "version": 3 },
  "libraries": { "pinned_footprint_libs": ["A"] }
}
"#;
    let mut doc = read(src).expect("read");
    doc.ast_mut().meta_version = Some(4);

    let err = doc.render(WriteMode::Lossless).expect_err("write should fail");
    match err {
        Error::Validation(msg) => {
            assert!(msg.contains("ast_mut changes are not serializable"));
        }
        _ => panic!("expected validation error"),
    }
}

#[test]
fn read_project_rejects_out_of_range_meta_version() {
    let src = r#"{
  "meta": { "version": 9223372036854775807 },
  "libraries": { "pinned_footprint_libs": ["A"] }
}
"#;
    let err = read(src).expect_err("read should fail");
    match err {
        Error::Validation(msg) => assert!(msg.contains("meta.version is out of i32 range")),
        _ => panic!("expected validation error"),
    }
}
