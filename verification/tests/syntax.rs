use kiutils_kicad::sexpr::parse_one;
use kiutils_kicad::{Atom, Node, ParseError, PcbFile};

#[test]
fn parse_keeps_every_character() {
    let src = "\n (a  \"b c\"\t(d))  \n";
    let doc = parse_one(src).expect("parse");
    assert_eq!(doc.nodes.len(), 1);
    assert_eq!(doc.to_lossless_string(), src);
    assert_eq!(doc.trailing, "  \n");
}

#[test]
fn parse_reads_atoms_and_lists() {
    let doc = parse_one("(head sym \"q\\\"x\\n\" (inner))").expect("parse");
    match &doc.nodes[0] {
        Node::List { items, .. } => {
            assert_eq!(items.len(), 4);
            match &items[2] {
                Node::Atom { atom: Atom::Quoted(v), raw, .. } => {
                    assert_eq!(v, "q\"x\n");
                    assert_eq!(raw, "\"q\\\"x\\n\"");
                }
                other => panic!("unexpected {other:?}"),
            }
            assert!(matches!(&items[3], Node::List { items, .. } if items.len() == 1));
        }
        other => panic!("unexpected {other:?}"),
    }
}

#[test]
fn parse_empty_input() {
    assert_eq!(parse_one("").unwrap_err(), ParseError::EmptyInput);
    assert_eq!(parse_one(" \t\r\n").unwrap_err(), ParseError::EmptyInput);
}

#[test]
fn parse_unexpected_eof() {
    assert_eq!(parse_one("(a (b)").unwrap_err(), ParseError::UnexpectedEof { offset: 6 });
}

#[test]
fn parse_unexpected_close() {
    assert_eq!(parse_one(")").unwrap_err(), ParseError::UnexpectedClose { offset: 0 });
}

#[test]
fn parse_unterminated_string() {
    assert_eq!(parse_one("(a \"b)").unwrap_err(), ParseError::UnterminatedString { offset: 3 });
    assert_eq!(parse_one("(a \"b\\").unwrap_err(), ParseError::UnterminatedString { offset: 3 });
}

#[test]
fn parse_trailing_input() {
    assert_eq!(parse_one("(a) (b)").unwrap_err(), ParseError::TrailingInput { offset: 4 });
    assert_eq!(parse_one("(a))").unwrap_err(), ParseError::TrailingInput { offset: 3 });
}

#[test]
fn parse_depth_limit() {
    let deep_ok = format!("{}{}", "(".repeat(256), ")".repeat(256));
    assert!(parse_one(&deep_ok).is_ok());
    let too_deep = format!("{}{}", "(".repeat(257), ")".repeat(257));
    assert_eq!(parse_one(&too_deep).unwrap_err(), ParseError::DepthLimit { offset: 256 });
}

#[test]
fn canonical_write_normalizes_whitespace_and_escapes() {
    let doc = parse_one("(kicad_pcb\n  (version   20260101)\n  (title \"a\\\"b\")\n)\n").expect("parse");
    assert_eq!(doc.to_canonical_string(), "(kicad_pcb (version 20260101) (title \"a\\\"b\"))\n");
    let again = parse_one(&doc.to_canonical_string()).expect("reparse");
    assert_eq!(again.to_canonical_string(), doc.to_canonical_string());
}

#[test]
fn pcb_render_is_lossless_and_canonical_differs() {
    let src = "(kicad_pcb   (version 20260101)\n)\n";
    let doc = PcbFile::read_str(src).expect("read");
    assert_eq!(doc.render(), src);
    assert_eq!(doc.cst().to_canonical_string(), "(kicad_pcb (version 20260101))\n");
}
