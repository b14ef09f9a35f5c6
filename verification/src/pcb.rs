//! Board documents (`.kicad_pcb`): read losslessly, with the format version.
use vstd::prelude::*;

use crate::diagnostic::{collect_version_diagnostics, version_diagnostics, Diagnostic};
use crate::document::{expect_root_head, root_message};
use crate::error::Error;
use crate::sexpr::{all_ws, doc_text, doc_wf, expression_head, is_one_expression, is_symbol_node, parse_one, Atom, CstDocument, Node, ParseError};
use crate::sexpr_utils::{atom_string, head_of, is_symbol, is_symbol_atom, list_items, nth_string};
use crate::text::{parse_i32, str_to_i32};

verus! {

/// The typed view of a board: its format version.
#[derive(Debug, PartialEq, Eq, Structural)]
pub struct PcbAst {
    pub version: Option<i32>,
}

/// A `(version N ...)` item: a list whose first two items are bare symbols,
/// the first one `version`.
pub open spec fn is_version_item(n: Node) -> bool {
    &&& list_items(n).len() >= 2
    &&& is_symbol_atom(list_items(n)[0], "version"@)
    &&& is_symbol_node(list_items(n)[1])
}

/// The first version item of `s`.
pub open spec fn first_version_item(s: Seq<Node>) -> Option<Node>
    decreases s.len(),
{
    if s.len() == 0 {
        None
    } else {
        match first_version_item(s.drop_last()) {
            Some(n) => Some(n),
            None => if is_version_item(s.last()) {
                Some(s.last())
            } else {
                None
            },
        }
    }
}

/// The version of a board: the number written in the first version item of
/// its root list (`None` when there is none, or when it is not an `i32`).
pub open spec fn pcb_version(d: CstDocument) -> Option<i32> {
    if d.nodes.len() == 0 {
        None
    } else {
        match first_version_item(list_items(d.nodes@[0])) {
            Some(n) => match atom_string(list_items(n)[1]) {
                Some(v) => parse_i32(v),
                None => None,
            },
            None => None,
        }
    }
}

proof fn lemma_first_version_extend(s: Seq<Node>, j: int)
    requires
        0 <= j <= s.len(),
        first_version_item(s.subrange(0, j)) is Some,
    ensures
        first_version_item(s) == first_version_item(s.subrange(0, j)),
    decreases s.len() - j,
{
    if j == s.len() {
        assert(s.subrange(0, j) =~= s);
    } else {
        assert(s.subrange(0, j + 1).drop_last() =~= s.subrange(0, j));
        lemma_first_version_extend(s, j + 1);
    }
}

fn is_version_item_exec(n: &Node) -> (r: bool)
    ensures
        r == is_version_item(*n),
{
    match n {
        Node::List { items, .. } => items.len() >= 2 && is_symbol(&items[0], "version") && match &items[1] {
            Node::Atom { atom: Atom::Symbol(_), .. } => true,
            _ => false,
        },
        Node::Atom { .. } => false,
    }
}

/// Reads the format version of a board (see `pcb_version`).
pub fn parse_version(cst: &CstDocument) -> (a: PcbAst)
    ensures
        a.version == pcb_version(*cst),
{
    if cst.nodes.len() == 0 {
        return PcbAst { version: None };
    }
    match &cst.nodes[0] {
        Node::List { items, .. } => {
            assert(list_items(cst.nodes@[0]) == items@);
            let mut i: usize = 0;
            while i < items.len()
                invariant
                    i <= items.len(),
                    cst.nodes.len() > 0,
                    list_items(cst.nodes@[0]) == items@,
                    first_version_item(items@.subrange(0, i as int)) is None,
                decreases items.len() - i,
            {
                let ghost sub = items@.subrange(0, i + 1);
                assert(sub.drop_last() =~= items@.subrange(0, i as int));
                if is_version_item_exec(&items[i]) {
                    proof {
                        lemma_first_version_extend(items@, i + 1);
                        let sub = items@.subrange(0, i + 1);
                        assert(sub.drop_last() =~= items@.subrange(0, i as int));
                        assert(first_version_item(sub) == Some(items@[i as int]));
                        assert(list_items(cst.nodes@[0]) == items@);
                    }
                    let version = match nth_string(&items[i], 1) {
                        Some(v) => str_to_i32(v.as_str()),
                        None => None,
                    };
                    return PcbAst { version };
                }
                i = i + 1;
            }
            assert(items@.subrange(0, items.len() as int) =~= items@);
            PcbAst { version: None }
        },
        Node::Atom { .. } => PcbAst { version: None },
    }
}

/// A board document: its text, kept losslessly, its format version, and the
/// diagnostics about that version.
#[derive(Debug)]
pub struct PcbDocument {
    ast: PcbAst,
    cst: CstDocument,
    diagnostics: Vec<Diagnostic>,
}

impl PcbDocument {
    pub closed spec fn spec_ast(&self) -> PcbAst {
        self.ast
    }

    pub closed spec fn spec_cst(&self) -> CstDocument {
        self.cst
    }

    pub closed spec fn spec_diagnostics(&self) -> Seq<Diagnostic> {
        self.diagnostics@
    }

    /// The diagnostics about the format version: a warning for a version older
    /// than KiCad 9 or newer than the KiCad 10 series.
    pub fn diagnostics(&self) -> (r: &Vec<Diagnostic>)
        ensures
            r@ == self.spec_diagnostics(),
    {
        &self.diagnostics
    }

    /// The typed view.
    pub fn ast(&self) -> (r: &PcbAst)
        ensures
            *r == self.spec_ast(),
    {
        &self.ast
    }

    /// The syntax tree.
    pub fn cst(&self) -> (r: &CstDocument)
        ensures
            *r == self.spec_cst(),
    {
        &self.cst
    }

    /// The text of the board, exactly as it was read.
    pub fn render(&self) -> (r: String)
        ensures
            r@ == doc_text(self.spec_cst()),
    {
        self.cst.to_lossless_string()
    }
}

/// Reads board documents.
pub struct PcbFile;

impl PcbFile {
    /// Reads a board from its text: one S-expression whose root token is
    /// `kicad_pcb` (boards have no legacy root token).
    pub fn read_str(text: &str) -> (r: Result<PcbDocument, Error>)
        ensures
            r matches Ok(d) ==> {
                &&& doc_text(d.spec_cst()) == text@
                &&& doc_wf(d.spec_cst())
                &&& d.spec_cst().nodes.len() == 1
                &&& head_of(d.spec_cst().nodes@[0]) == Some("kicad_pcb"@)
                &&& d.spec_ast().version == pcb_version(d.spec_cst())
                &&& version_diagnostics(d.spec_ast().version, d.spec_diagnostics())
            },
            r is Ok <==> is_one_expression(text@) && expression_head(text@) == Some("kicad_pcb"@),
            r matches Err(Error::Parse(_)) <==> !is_one_expression(text@),
            r matches Err(Error::Validation(m)) ==> m@ == root_message(),
            r matches Err(Error::Parse(e)) ==> (e == ParseError::EmptyInput <==> all_ws(text@)),
            all_ws(text@) ==> r matches Err(Error::Parse(ParseError::EmptyInput)),
            !(r matches Err(Error::Io(_))),
    {
        let cst = match parse_one(text) {
            Ok(c) => c,
            Err(e) => {
                return Err(Error::Parse(e));
            },
        };
        let roots = vec!["kicad_pcb"];
        assert(roots@ == seq!["kicad_pcb"]);
        match expect_root_head(&cst, &roots) {
            Ok(()) => {},
            Err(e) => {
                assert(head_of(cst.nodes@[0]) != Some("kicad_pcb"@)) by {
                    if head_of(cst.nodes@[0]) == Some("kicad_pcb"@) {
                        assert(head_of(cst.nodes@[0]) == Some(roots@[0]@));
                    }
                }
                return Err(e);
            },
        }
        assert(head_of(cst.nodes@[0]) == Some("kicad_pcb"@));
        let ast = parse_version(&cst);
        let diagnostics = collect_version_diagnostics(ast.version);
        Ok(PcbDocument { ast, cst, diagnostics })
    }
}

} // verus!
