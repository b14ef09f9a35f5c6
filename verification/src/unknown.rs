//! Nodes that the typed readers do not recognize, kept for inspection.
use vstd::prelude::*;

use crate::sexpr::{is_symbol_node, node_text, nodes_text, same_node, same_nodes, Atom, Node};
use crate::sexpr_utils::{atom_string, head_of, head_text, ov};

verus! {

/// A list that no typed field describes: its head symbol, if it has one, and
/// a copy of the list itself.
#[derive(Debug)]
pub struct UnknownNode {
    pub head: Option<String>,
    pub node: Node,
}

/// `u` describes the list `n`.
pub open spec fn unknown_of(n: Node, u: UnknownNode) -> bool {
    &&& ov(u.head) == head_of(n)
    &&& same_node(n, u.node)
    &&& node_text(u.node) == node_text(n)
    &&& head_of(u.node) == head_of(n)
}

proof fn lemma_items_decrease(n: Node)
    requires
        n is List,
    ensures
        forall|j: int| 0 <= j < n->items@.len() ==> decreases_to!(n => n->items@[j]),
{
    assert forall|j: int| 0 <= j < n->items@.len() implies decreases_to!(n => n->items@[j]) by {
        assert(decreases_to!(n => n->items));
        assert(decreases_to!(n->items => n->items@));
        assert(decreases_to!(n->items@ => n->items@[j]));
    }
}

/// A copy of a node that reads the same.
pub fn copy_node(n: &Node) -> (r: Node)
    ensures
        same_node(*n, r),
        node_text(r) == node_text(*n),
        head_of(r) == head_of(*n),
        is_symbol_node(r) == is_symbol_node(*n),
        atom_string(r) == atom_string(*n),
    decreases n,
{
    match n {
        Node::Atom { lead, atom, raw } => {
            let a = match atom {
                Atom::Symbol(s) => Atom::Symbol(s.clone()),
                Atom::Quoted(s) => Atom::Quoted(s.clone()),
            };
            Node::Atom { lead: lead.clone(), atom: a, raw: raw.clone() }
        },
        Node::List { lead, items, tail } => {
            proof {
                lemma_items_decrease(*n);
            }
            let mut out: Vec<Node> = Vec::new();
            let mut i: usize = 0;
            while i < items.len()
                invariant
                    i <= items.len(),
                    *n is List,
                    *items == n->items,
                    forall|j: int| 0 <= j < items.len() ==> decreases_to!(*n => items@[j]),
                    out@.len() == i,
                    nodes_text(out@) == nodes_text(items@.subrange(0, i as int)),
                    same_nodes(items@.subrange(0, i as int), out@),
                    i > 0 ==> is_symbol_node(out@[0]) == is_symbol_node(items@[0]) && atom_string(out@[0])
                        == atom_string(items@[0]),
                decreases items.len() - i,
            {
                let c = copy_node(&items[i]);
                let ghost before = out@;
                out.push(c);
                assert(out@.drop_last() =~= before);
                assert(items@.subrange(0, i + 1).drop_last() =~= items@.subrange(0, i as int));
                i = i + 1;
            }
            assert(items@.subrange(0, items.len() as int) =~= items@);
            Node::List { lead: lead.clone(), items: out, tail: tail.clone() }
        },
    }
}

/// Describes any node (an atom has no head).
pub fn describe_node(n: &Node) -> (u: UnknownNode)
    ensures
        unknown_of(*n, u),
{
    UnknownNode { head: head_text(n), node: copy_node(n) }
}

impl UnknownNode {
    /// Describes a list node; an atom is not described.
    pub fn from_node(n: &Node) -> (r: Option<UnknownNode>)
        ensures
            r is Some <==> n is List,
            r matches Some(u) ==> unknown_of(*n, u),
    {
        match n {
            Node::List { .. } => Some(UnknownNode { head: head_text(n), node: copy_node(n) }),
            Node::Atom { .. } => None,
        }
    }
}

} // verus!
