use kiutils_kicad::{Error, PcbFile};

#[test]
fn read_parses_version_and_preserves_lossless() {
    let src = "(kicad_pcb (version 20260101) (generator pcbnew))\n";
    let doc = PcbFile::read_str(src).expect("read");
    assert_eq!(doc.ast().version, Some(20260101));
    assert_eq!(doc.cst().to_lossless_string(), src);
    assert_eq!(doc.render(), src);
}

#[test]
fn read_fails_on_invalid_root() {
    let err = PcbFile::read_str("(a)(b)").expect_err("must fail");
    match err {
        Error::Parse(_) => {}
        other => panic!("unexpected error: {other:?}"),
    }
}
