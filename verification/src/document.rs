//! What every S-expression document shares: its root list, the check of its
//! root token, and how it is written out.
use vstd::prelude::*;

use crate::error::Error;
use crate::sexpr::{
    node_wf, all_ws, canonical_doc, doc_text, doc_wf, is_one_expression, items_depth, lead_of, node_depth, node_text, nodes_text,
    nodes_wf, Atom, CstDocument, Node, MAX_DEPTH, expression_head, lemma_one_reading, lemma_reads_as_itself, same_node,
    the_expression,
};
use crate::sexpr_utils::{head_in, head_in_exec, head_of, list_items};
use crate::text::owned;
use crate::write_mode::WriteMode;

verus! {

/// The items of the document's root list (none when the root is an atom).
pub open spec fn root_items(d: CstDocument) -> Seq<Node> {
    if d.nodes.len() > 0 {
        list_items(d.nodes@[0])
    } else {
        Seq::empty()
    }
}

/// The head symbol of the document's root list.
pub open spec fn root_head(d: CstDocument) -> Option<Seq<char>> {
    if d.nodes.len() > 0 {
        head_of(d.nodes@[0])
    } else {
        None
    }
}

/// The head symbol of a list with items `s`: its first item, where that is a
/// bare symbol.
pub open spec fn items_head(s: Seq<Node>) -> Option<Seq<char>> {
    if s.len() > 0 {
        match s[0] {
            Node::Atom { atom: Atom::Symbol(x), .. } => Some(x@),
            _ => None,
        }
    } else {
        None
    }
}

/// Whether the document's root is a list.
pub open spec fn root_is_list(d: CstDocument) -> bool {
    d.nodes.len() > 0 && d.nodes@[0] is List
}

/// `new` is `old` with only the root list's items changed, to `items`.
pub open spec fn root_replaced(old: CstDocument, new: CstDocument, items: Seq<Node>) -> bool {
    &&& new.trailing == old.trailing
    &&& new.nodes.len() == old.nodes.len()
    &&& forall|j: int| 1 <= j < old.nodes.len() ==> new.nodes@[j] == old.nodes@[j]
    &&& root_is_list(old) ==> {
        &&& root_is_list(new)
        &&& new.nodes@[0]->List_lead == old.nodes@[0]->List_lead
        &&& new.nodes@[0]->tail == old.nodes@[0]->tail
        &&& root_items(new) == items
    }
    &&& !root_is_list(old) ==> new.nodes@ == old.nodes@
}

/// The message of the error that refuses to write a document whose typed
/// view was changed directly.
pub open spec fn dirty_message() -> Seq<char> {
    "ast_mut changes are not serializable; use document setter APIs"@
}

pub fn dirty_error() -> (e: Error)
    ensures
        e matches Error::Validation(m) && m@ == dirty_message(),
{
    Error::Validation(owned("ast_mut changes are not serializable; use document setter APIs"))
}

/// `h` is one of the heads `hs`.
pub open spec fn head_among(h: Option<Seq<char>>, hs: Seq<&str>) -> bool {
    exists|i: int| 0 <= i < hs.len() && h == Some(#[trigger] hs[i]@)
}

/// The message of the error for a document whose root token is not one of
/// the expected ones.
pub open spec fn root_message() -> Seq<char> {
    "unexpected root token"@
}

/// Accepts a document whose root list's head is one of `heads`.
pub fn expect_root_head(cst: &CstDocument, heads: &Vec<&str>) -> (r: Result<(), Error>)
    ensures
        r is Ok <==> cst.nodes.len() > 0 && head_in(cst.nodes@[0], heads@),
        r matches Err(e) ==> e matches Error::Validation(m) && m@ == root_message(),
{
    if cst.nodes.len() > 0 && head_in_exec(&cst.nodes[0], heads) {
        Ok(())
    } else {
        Err(Error::Validation(owned("unexpected root token")))
    }
}

/// The text of a document in the given mode.
pub open spec fn rendered(d: CstDocument, mode: WriteMode) -> Seq<char> {
    match mode {
        WriteMode::Lossless => doc_text(d),
        WriteMode::Canonical => canonical_doc(d.nodes@),
    }
}

pub fn render_cst(cst: &CstDocument, mode: WriteMode) -> (r: String)
    ensures
        r@ == rendered(*cst, mode),
{
    match mode {
        WriteMode::Lossless => cst.to_lossless_string(),
        WriteMode::Canonical => cst.to_canonical_string(),
    }
}

/// Takes the items out of the root list, leaving it empty.
pub fn take_root_items(cst: CstDocument) -> (r: (CstDocument, Vec<Node>))
    ensures
        r.1@ == root_items(cst),
        root_replaced(cst, r.0, Seq::empty()),
{
    let CstDocument { mut nodes, trailing } = cst;
    if nodes.len() == 0 {
        return (CstDocument { nodes, trailing }, Vec::new());
    }
    let ghost before = nodes@;
    let root = nodes.remove(0);
    match root {
        Node::List { lead, items, tail } => {
            let n = Node::List { lead, items: Vec::new(), tail };
            nodes.insert(0, n);
            assert(nodes@ =~= before.update(0, n));
            let d = CstDocument { nodes, trailing };
            (d, items)
        },
        Node::Atom { lead, atom, raw } => {
            let n = Node::Atom { lead, atom, raw };
            nodes.insert(0, n);
            assert(nodes@ =~= before);
            (CstDocument { nodes, trailing }, Vec::new())
        },
    }
}

/// Puts `items` into the root list (nothing changes when the root is an
/// atom).
pub fn put_root_items(cst: CstDocument, items: Vec<Node>) -> (r: CstDocument)
    ensures
        root_replaced(cst, r, items@),
{
    let CstDocument { mut nodes, trailing } = cst;
    if nodes.len() == 0 {
        return CstDocument { nodes, trailing };
    }
    let ghost before = nodes@;
    let root = nodes.remove(0);
    match root {
        Node::List { lead, tail, .. } => {
            let n = Node::List { lead, items, tail };
            nodes.insert(0, n);
            assert(nodes@ =~= before.update(0, n));
            CstDocument { nodes, trailing }
        },
        Node::Atom { lead, atom, raw } => {
            let n = Node::Atom { lead, atom, raw };
            nodes.insert(0, n);
            assert(nodes@ =~= before);
            CstDocument { nodes, trailing }
        },
    }
}

/// An empty document, standing in while a document's text is rebuilt.
pub fn empty_cst() -> (d: CstDocument)
    ensures
        d.nodes@.len() == 0,
        d.trailing@.len() == 0,
{
    CstDocument { nodes: Vec::new(), trailing: String::new() }
}

/// Two root edits in a row are one root edit.
pub proof fn lemma_root_replaced_trans(a: CstDocument, b: CstDocument, c: CstDocument, x: Seq<Node>, y: Seq<Node>)
    requires
        root_replaced(a, b, x),
        root_replaced(b, c, y),
    ensures
        root_replaced(a, c, y),
{
}

proof fn lemma_nodes_text_pointwise(s: Seq<Node>, t: Seq<Node>)
    requires
        s.len() == t.len(),
        forall|j: int| 0 <= j < s.len() ==> node_text(#[trigger] s[j]) == node_text(t[j]),
    ensures
        nodes_text(s) == nodes_text(t),
    decreases s.len(),
{
    if s.len() > 0 {
        assert forall|j: int| 0 <= j < s.drop_last().len() implies node_text(#[trigger] s.drop_last()[j]) == node_text(
            t.drop_last()[j],
        ) by {
            assert(s.drop_last()[j] == s[j]);
            assert(t.drop_last()[j] == t[j]);
        }
        lemma_nodes_text_pointwise(s.drop_last(), t.drop_last());
        assert(node_text(s.last()) == node_text(t.last())) by {
            assert(s.last() == s[s.len() - 1]);
        }
    }
}

/// A root edit that leaves the root items as they were leaves the text as it
/// was.
pub proof fn lemma_root_same_text(old: CstDocument, new: CstDocument)
    requires
        root_replaced(old, new, root_items(old)),
    ensures
        doc_text(new) == doc_text(old),
{
    if root_is_list(old) {
        assert(node_text(new.nodes@[0]) == node_text(old.nodes@[0]));
    }
    assert forall|j: int| 0 <= j < old.nodes@.len() implies node_text(#[trigger] new.nodes@[j]) == node_text(old.nodes@[j]) by {
        if j == 0 && root_is_list(old) {
            assert(node_text(new.nodes@[0]) == node_text(old.nodes@[0]));
        }
    }
    lemma_nodes_text_pointwise(new.nodes@, old.nodes@);
}

/// Writing a document in lossless mode gives back, byte for byte, the text it
/// was read from.
pub proof fn lemma_lossless_roundtrip(d: CstDocument, text: Seq<char>)
    requires
        doc_text(d) == text,
    ensures
        rendered(d, WriteMode::Lossless) == text,
{
}

/// The parts of a one-list document around its items read back: the
/// whitespace before and after the root list, and inside it before `)`.
pub open spec fn shell_ok(d: CstDocument) -> bool {
    &&& d.nodes.len() == 1
    &&& root_is_list(d)
    &&& all_ws(lead_of(d.nodes@[0]))
    &&& all_ws(d.nodes@[0]->tail@)
    &&& all_ws(d.trailing@)
}

/// The document is one well-formed list whose items nest within the limit:
/// its text reads back as itself.
pub open spec fn tree_ok(d: CstDocument) -> bool {
    &&& shell_ok(d)
    &&& nodes_wf(root_items(d))
    &&& items_depth(root_items(d)) < MAX_DEPTH
}

/// A root edit keeps the parts around the items.
pub proof fn lemma_shell_kept(old: CstDocument, new: CstDocument, items: Seq<Node>)
    requires
        shell_ok(old),
        root_replaced(old, new, items),
    ensures
        shell_ok(new),
        root_items(new) == items,
{
}

/// A document read by the parser is a well-formed tree.
pub proof fn lemma_tree_ok_of_read(d: CstDocument)
    requires
        doc_wf(d),
        d.nodes.len() == 1,
        root_is_list(d),
        node_depth(d.nodes@[0]) <= MAX_DEPTH,
    ensures
        tree_ok(d),
{
    let n = d.nodes@[0];
    assert(d.nodes@.drop_last() =~= Seq::<Node>::empty());
    assert(d.nodes@.last() == n);
    assert(nodes_wf(d.nodes@));
    assert(node_wf(n));
    assert(root_items(d) == n->items@);
}

/// The text of a well-formed tree is one S-expression: writing the document
/// gives a text that reads back.
pub proof fn lemma_tree_text_reads(d: CstDocument)
    requires
        tree_ok(d),
    ensures
        doc_wf(d),
        node_depth(d.nodes@[0]) <= MAX_DEPTH,
        is_one_expression(doc_text(d)),
{
    let n = d.nodes@[0];
    assert(d.nodes@.drop_last() =~= Seq::<Node>::empty());
    assert(d.nodes@.last() == n);
    assert(nodes_wf(d.nodes@.drop_last()));
    assert(root_items(d) == n->items@);
    assert(node_wf(n));
    assert(nodes_wf(d.nodes@));
    assert(doc_wf(d));
    assert(doc_text(d) == doc_text(d));
}

/// The text of a well-formed document reads back as that document: it is one
/// S-expression whose root head is the document's, the tree read from it is
/// a copy of the document's tree, and so is the tree of any well-formed
/// document written with the same text.
pub proof fn lemma_text_reads_back(d: CstDocument, e: CstDocument)
    requires
        tree_ok(d),
        doc_wf(e),
        e.nodes.len() == 1,
        doc_text(e) == doc_text(d),
    ensures
        is_one_expression(doc_text(d)),
        expression_head(doc_text(d)) == head_of(d.nodes@[0]),
        same_node(the_expression(doc_text(d)).nodes@[0], d.nodes@[0]),
        same_node(d.nodes@[0], e.nodes@[0]),
        e.trailing@ == d.trailing@,
{
    lemma_tree_text_reads(d);
    lemma_reads_as_itself(d);
    lemma_one_reading(d, e);
}

} // verus!
