//! A lossless S-expression syntax tree for KiCad files: parsing, lossless and
//! canonical rendering.
use vstd::prelude::*;

use crate::sexpr_utils::head_of;
use crate::text::{owned, push_char, string_of, to_chars};

verus! {

/// The value of an atom: a bare symbol or a (decoded) quoted string.
#[derive(Debug)]
pub enum Atom {
    Symbol(String),
    Quoted(String),
}

/// A node of the concrete syntax tree. Every node keeps the whitespace that
/// precedes it (`lead`); a list also keeps the whitespace before its closing
/// parenthesis (`tail`), and an atom keeps its token exactly as written (`raw`).
#[derive(Debug)]
pub enum Node {
    Atom { lead: String, atom: Atom, raw: String },
    List { lead: String, items: Vec<Node>, tail: String },
}

/// A parsed document: its top-level nodes and the whitespace after the last one.
#[derive(Debug)]
pub struct CstDocument {
    pub nodes: Vec<Node>,
    pub trailing: String,
}

/// Why a text is not a single S-expression. Offsets count characters.
#[derive(Debug, Clone, Copy, PartialEq, Eq, Structural)]
pub enum ParseError {
    /// The text holds no expression at all.
    EmptyInput,
    /// The text ends inside a list.
    UnexpectedEof { offset: usize },
    /// A `)` closes no list.
    UnexpectedClose { offset: usize },
    /// A quoted string is not closed.
    UnterminatedString { offset: usize },
    /// More text follows the first expression.
    TrailingInput { offset: usize },
    /// Lists are nested deeper than `MAX_DEPTH`.
    DepthLimit { offset: usize },
}

/// The deepest list nesting the parser accepts.
pub const MAX_DEPTH: usize = 256;

// ---------------------------------------------------------------------------
// Lexical classes

pub open spec fn is_ws(c: char) -> bool {
    c == ' ' || c == '\t' || c == '\n' || c == '\r'
}

pub open spec fn all_ws(s: Seq<char>) -> bool {
    forall|i: int| 0 <= i < s.len() ==> is_ws(#[trigger] s[i])
}

pub open spec fn is_symbol_char(c: char) -> bool {
    !is_ws(c) && c != '(' && c != ')' && c != '"'
}

pub open spec fn is_symbol_text(s: Seq<char>) -> bool {
    s.len() > 0 && forall|i: int| 0 <= i < s.len() ==> is_symbol_char(#[trigger] s[i])
}

/// The character that an escape `\c` inside a quoted string stands for.
pub open spec fn escaped_char(c: char) -> char {
    if c == 'n' {
        '\n'
    } else if c == 't' {
        '\t'
    } else if c == 'r' {
        '\r'
    } else {
        c
    }
}

/// A well-formed body of a quoted string: no bare `"`, every `\` followed by
/// one more character.
pub open spec fn body_ok(b: Seq<char>) -> bool
    decreases b.len(),
{
    if b.len() == 0 {
        true
    } else if b[0] == '"' {
        false
    } else if b[0] == '\\' {
        b.len() >= 2 && body_ok(b.subrange(2, b.len() as int))
    } else {
        body_ok(b.drop_first())
    }
}

/// The text that a quoted-string body stands for.
pub open spec fn unescape(b: Seq<char>) -> Seq<char>
    decreases b.len(),
{
    if b.len() == 0 {
        Seq::empty()
    } else if b[0] == '\\' && b.len() >= 2 {
        seq![escaped_char(b[1])] + unescape(b.subrange(2, b.len() as int))
    } else {
        seq![b[0]] + unescape(b.drop_first())
    }
}

/// The body that a quoted string is written with for a given text.
pub open spec fn escape(v: Seq<char>) -> Seq<char>
    decreases v.len(),
{
    if v.len() == 0 {
        Seq::empty()
    } else {
        escape_char(v[0]) + escape(v.drop_first())
    }
}

pub open spec fn escape_char(c: char) -> Seq<char> {
    if c == '"' {
        seq!['\\', '"']
    } else if c == '\\' {
        seq!['\\', '\\']
    } else if c == '\n' {
        seq!['\\', 'n']
    } else if c == '\t' {
        seq!['\\', 't']
    } else if c == '\r' {
        seq!['\\', 'r']
    } else {
        seq![c]
    }
}

/// The text of an atom's value.
pub open spec fn atom_value(a: Atom) -> Seq<char> {
    match a {
        Atom::Symbol(s) => s@,
        Atom::Quoted(s) => s@,
    }
}

/// An atom's raw token spells its value.
pub open spec fn atom_wf(a: Atom, raw: Seq<char>) -> bool {
    match a {
        Atom::Symbol(s) => is_symbol_text(raw) && s@ == raw,
        Atom::Quoted(s) => {
            &&& raw.len() >= 2
            &&& raw[0] == '"'
            &&& raw[raw.len() - 1] == '"'
            &&& body_ok(raw.subrange(1, raw.len() - 1))
            &&& s@ == unescape(raw.subrange(1, raw.len() - 1))
        },
    }
}

pub open spec fn is_symbol_node(n: Node) -> bool {
    n matches Node::Atom { atom: Atom::Symbol(_), .. }
}

pub open spec fn lead_of(n: Node) -> Seq<char> {
    match n {
        Node::Atom { lead, .. } => lead@,
        Node::List { lead, .. } => lead@,
    }
}

// ---------------------------------------------------------------------------
// Rendering

/// The exact text of a node: its leading whitespace, then its token or list.
pub open spec fn node_text(n: Node) -> Seq<char>
    decreases n,
{
    match n {
        Node::Atom { lead, raw, .. } => lead@ + raw@,
        Node::List { lead, items, tail } => lead@ + seq!['('] + nodes_text(items@) + tail@ + seq![')'],
    }
}

pub open spec fn nodes_text(s: Seq<Node>) -> Seq<char>
    decreases s,
{
    if s.len() == 0 {
        Seq::empty()
    } else {
        nodes_text(s.drop_last()) + node_text(s.last())
    }
}

/// The exact text of a document.
pub open spec fn doc_text(d: CstDocument) -> Seq<char> {
    nodes_text(d.nodes@) + d.trailing@
}

/// A node that reads back as itself: whitespace where whitespace is kept,
/// tokens that spell their values, and two symbols never run together.
pub open spec fn node_wf(n: Node) -> bool
    decreases n,
{
    match n {
        Node::Atom { lead, atom, raw } => all_ws(lead@) && atom_wf(atom, raw@),
        Node::List { lead, items, tail } => all_ws(lead@) && all_ws(tail@) && nodes_wf(items@),
    }
}

pub open spec fn nodes_wf(s: Seq<Node>) -> bool
    decreases s,
{
    if s.len() == 0 {
        true
    } else {
        &&& nodes_wf(s.drop_last())
        &&& node_wf(s.last())
        &&& (s.len() >= 2 && is_symbol_node(s[s.len() - 2]) && is_symbol_node(s.last()))
            ==> lead_of(s.last()).len() > 0
    }
}

pub open spec fn doc_wf(d: CstDocument) -> bool {
    nodes_wf(d.nodes@) && all_ws(d.trailing@)
}

/// The normalized text of an atom: symbols as they are, quoted strings
/// re-escaped.
pub open spec fn canonical_atom(a: Atom) -> Seq<char> {
    match a {
        Atom::Symbol(s) => s@,
        Atom::Quoted(s) => seq!['"'] + escape(s@) + seq!['"'],
    }
}

/// The normalized text of a node: no whitespace but one space between the
/// items of a list.
pub open spec fn canonical_node(n: Node) -> Seq<char>
    decreases n,
{
    match n {
        Node::Atom { atom, .. } => canonical_atom(atom),
        Node::List { items, .. } => seq!['('] + canonical_items(items@) + seq![')'],
    }
}

pub open spec fn canonical_items(s: Seq<Node>) -> Seq<char>
    decreases s,
{
    if s.len() == 0 {
        Seq::empty()
    } else if s.len() == 1 {
        canonical_node(s[0])
    } else {
        canonical_items(s.drop_last()) + seq![' '] + canonical_node(s.last())
    }
}

/// The normalized text of a document: each top-level node on a line of its own.
pub open spec fn canonical_doc(s: Seq<Node>) -> Seq<char>
    decreases s.len(),
{
    if s.len() == 0 {
        Seq::empty()
    } else {
        canonical_doc(s.drop_last()) + canonical_node(s.last()) + seq!['\n']
    }
}

proof fn lemma_items_decrease(n: Node)
    requires
        n is List,
    ensures
        forall|j: int| 0 <= j < n->items@.len() ==> decreases_to!(n => n->items@[j]),
{
    assert forall|j: int| 0 <= j < n->items@.len() implies decreases_to!(n => n->items@[j]) by {
        assert(decreases_to!(n => n->items));
        assert(decreases_to!(n->items => n->items@));
        assert(decreases_to!(n->items@ => n->items@[j]));
    }
}

pub(crate) fn write_node(n: &Node, out: &mut String)
    ensures
        final(out)@ == old(out)@ + node_text(*n),
    decreases n,
{
    let ghost start = out@;
    proof {
        reveal_strlit("(");
        reveal_strlit(")");
    }
    match n {
        Node::Atom { lead, raw, .. } => {
            out.append(lead.as_str());
            out.append(raw.as_str());
            assert(out@ =~= start + node_text(*n));
        },
        Node::List { lead, items, tail } => {
            out.append(lead.as_str());
            out.append("(");
            proof {
                lemma_items_decrease(*n);
            }
            let mut i: usize = 0;
            while i < items.len()
                invariant
                    i <= items.len(),
                    *n is List,
                    *items == n->items,
                    forall|j: int| 0 <= j < items.len() ==> decreases_to!(*n => items@[j]),
                    out@ == start + lead@ + seq!['('] + nodes_text(items@.subrange(0, i as int)),
                decreases items.len() - i,
            {
                write_node(&items[i], out);
                assert(items@.subrange(0, i + 1).drop_last() =~= items@.subrange(0, i as int));
                i = i + 1;
            }
            assert(items@.subrange(0, items.len() as int) =~= items@);
            out.append(tail.as_str());
            out.append(")");
            assert(out@ =~= start + node_text(*n));
        },
    }
}

fn write_escaped(v: &String, out: &mut String)
    ensures
        final(out)@ == old(out)@ + escape(v@),
{
    let cs = to_chars(v.as_str());
    let ghost start = out@;
    let mut k: usize = 0;
    while k < cs.len()
        invariant
            k <= cs.len(),
            cs@ == v@,
            out@ == start + escape_prefix(cs@, k as int),
        decreases cs.len() - k,
    {
        let c = cs[k];
        if c == '"' {
            push_char(out, '\\');
            push_char(out, '"');
        } else if c == '\\' {
            push_char(out, '\\');
            push_char(out, '\\');
        } else if c == '\n' {
            push_char(out, '\\');
            push_char(out, 'n');
        } else if c == '\t' {
            push_char(out, '\\');
            push_char(out, 't');
        } else if c == '\r' {
            push_char(out, '\\');
            push_char(out, 'r');
        } else {
            push_char(out, c);
        }
        assert(out@ =~= start + escape_prefix(cs@, k + 1));
        k = k + 1;
    }
    proof {
        lemma_escape_prefix_full(cs@);
    }
}

/// The escaped text of the first `k` characters.
pub open spec fn escape_prefix(v: Seq<char>, k: int) -> Seq<char>
    decreases k,
{
    if k <= 0 {
        Seq::empty()
    } else {
        escape_prefix(v, k - 1) + escape_char(v[k - 1])
    }
}

proof fn lemma_escape_split(v: Seq<char>, k: int)
    requires
        0 <= k <= v.len(),
    ensures
        escape(v) == escape_prefix(v, k) + escape(v.subrange(k, v.len() as int)),
    decreases k,
{
    if k == 0 {
        assert(v.subrange(0, v.len() as int) =~= v);
        assert(escape_prefix(v, 0) + escape(v) =~= escape(v));
    } else {
        lemma_escape_split(v, k - 1);
        let rest = v.subrange(k - 1, v.len() as int);
        assert(rest.drop_first() =~= v.subrange(k, v.len() as int));
        assert(rest[0] == v[k - 1]);
        assert(escape(rest) == escape_char(v[k - 1]) + escape(v.subrange(k, v.len() as int)));
        assert(escape(v) =~= escape_prefix(v, k) + escape(v.subrange(k, v.len() as int)));
    }
}

pub proof fn lemma_escape_prefix_full(v: Seq<char>)
    ensures
        escape_prefix(v, v.len() as int) == escape(v),
{
    lemma_escape_split(v, v.len() as int);
    assert(v.subrange(v.len() as int, v.len() as int) =~= Seq::<char>::empty());
    assert(escape_prefix(v, v.len() as int) + Seq::<char>::empty() =~= escape_prefix(v, v.len() as int));
}

fn write_canonical_atom(a: &Atom, out: &mut String)
    ensures
        final(out)@ == old(out)@ + canonical_atom(*a),
{
    let ghost start = out@;
    match a {
        Atom::Symbol(s) => {
            out.append(s.as_str());
        },
        Atom::Quoted(s) => {
            push_char(out, '"');
            write_escaped(s, out);
            push_char(out, '"');
            assert(out@ =~= start + canonical_atom(*a));
        },
    }
}

fn write_canonical_node(n: &Node, out: &mut String)
    ensures
        final(out)@ == old(out)@ + canonical_node(*n),
    decreases n,
{
    let ghost start = out@;
    match n {
        Node::Atom { atom, .. } => {
            write_canonical_atom(atom, out);
        },
        Node::List { items, .. } => {
            push_char(out, '(');
            proof {
                lemma_items_decrease(*n);
            }
            let mut i: usize = 0;
            while i < items.len()
                invariant
                    i <= items.len(),
                    *n is List,
                    *items == n->items,
                    forall|j: int| 0 <= j < items.len() ==> decreases_to!(*n => items@[j]),
                    out@ == start + seq!['('] + canonical_items(items@.subrange(0, i as int)),
                decreases items.len() - i,
            {
                let ghost before = out@;
                if i > 0 {
                    push_char(out, ' ');
                }
                write_canonical_node(&items[i], out);
                let ghost pre = items@.subrange(0, i as int);
                let ghost next = items@.subrange(0, i + 1);
                assert(next.drop_last() =~= pre);
                if i == 0 {
                    assert(canonical_items(next) == canonical_node(next[0]));
                    assert(out@ =~= start + seq!['('] + canonical_items(next));
                } else {
                    assert(out@ =~= start + seq!['('] + canonical_items(next));
                }
                i = i + 1;
            }
            assert(items@.subrange(0, items.len() as int) =~= items@);
            push_char(out, ')');
            assert(out@ =~= start + canonical_node(*n));
        },
    }
}

impl CstDocument {
    /// The document exactly as it was read, with every edit in place.
    pub fn to_lossless_string(&self) -> (r: String)
        ensures
            r@ == doc_text(*self),
    {
        let mut out = String::new();
        let mut i: usize = 0;
        while i < self.nodes.len()
            invariant
                i <= self.nodes.len(),
                out@ == nodes_text(self.nodes@.subrange(0, i as int)),
            decreases self.nodes.len() - i,
        {
            write_node(&self.nodes[i], &mut out);
            assert(self.nodes@.subrange(0, i + 1).drop_last() =~= self.nodes@.subrange(0, i as int));
            i = i + 1;
        }
        assert(self.nodes@.subrange(0, self.nodes.len() as int) =~= self.nodes@);
        out.append(self.trailing.as_str());
        out
    }

    /// The document in normalized form: one top-level node per line, single
    /// spaces inside lists, quoted strings re-escaped.
    pub fn to_canonical_string(&self) -> (r: String)
        ensures
            r@ == canonical_doc(self.nodes@),
    {
        let mut out = String::new();
        let mut i: usize = 0;
        while i < self.nodes.len()
            invariant
                i <= self.nodes.len(),
                out@ == canonical_doc(self.nodes@.subrange(0, i as int)),
            decreases self.nodes.len() - i,
        {
            write_canonical_node(&self.nodes[i], &mut out);
            push_char(&mut out, '\n');
            assert(self.nodes@.subrange(0, i + 1).drop_last() =~= self.nodes@.subrange(0, i as int));
            i = i + 1;
        }
        assert(self.nodes@.subrange(0, self.nodes.len() as int) =~= self.nodes@);
        out
    }
}


/// The two atoms are of one kind and hold the same value.
pub open spec fn same_atom(a: Atom, b: Atom) -> bool {
    match (a, b) {
        (Atom::Symbol(x), Atom::Symbol(y)) => x@ == y@,
        (Atom::Quoted(x), Atom::Quoted(y)) => x@ == y@,
        _ => false,
    }
}

/// `b` is a copy of `a`: the same tree, with the same text in every part.
pub open spec fn same_node(a: Node, b: Node) -> bool
    decreases a,
{
    match (a, b) {
        (Node::Atom { lead: l1, atom: a1, raw: r1 }, Node::Atom { lead: l2, atom: a2, raw: r2 }) => l1@ == l2@ && r1@
            == r2@ && same_atom(a1, a2),
        (Node::List { lead: l1, items: i1, tail: t1 }, Node::List { lead: l2, items: i2, tail: t2 }) => l1@ == l2@
            && t1@ == t2@ && same_nodes(i1@, i2@),
        _ => false,
    }
}

pub open spec fn same_nodes(s: Seq<Node>, t: Seq<Node>) -> bool
    decreases s,
{
    &&& s.len() == t.len()
    &&& s.len() > 0 ==> same_nodes(s.drop_last(), t.drop_last()) && same_node(s.last(), t.last())
}

proof fn lemma_same_node_sym(a: Node, b: Node)
    requires
        same_node(a, b),
    ensures
        same_node(b, a),
    decreases a,
{
    match (a, b) {
        (Node::List { items: i1, .. }, Node::List { items: i2, .. }) => {
            lemma_same_nodes_sym(i1@, i2@);
        },
        _ => {},
    }
}

proof fn lemma_same_nodes_sym(s: Seq<Node>, t: Seq<Node>)
    requires
        same_nodes(s, t),
    ensures
        same_nodes(t, s),
    decreases s,
{
    if s.len() > 0 {
        lemma_same_nodes_sym(s.drop_last(), t.drop_last());
        lemma_same_node_sym(s.last(), t.last());
    }
}

proof fn lemma_same_node_trans(a: Node, b: Node, c: Node)
    requires
        same_node(a, b),
        same_node(b, c),
    ensures
        same_node(a, c),
    decreases a,
{
    match (a, b, c) {
        (Node::List { items: i1, .. }, Node::List { items: i2, .. }, Node::List { items: i3, .. }) => {
            lemma_same_nodes_trans(i1@, i2@, i3@);
        },
        _ => {},
    }
}

proof fn lemma_same_nodes_trans(s: Seq<Node>, t: Seq<Node>, u: Seq<Node>)
    requires
        same_nodes(s, t),
        same_nodes(t, u),
    ensures
        same_nodes(s, u),
    decreases s,
{
    if s.len() > 0 {
        lemma_same_nodes_trans(s.drop_last(), t.drop_last(), u.drop_last());
        lemma_same_node_trans(s.last(), t.last(), u.last());
    }
}

proof fn lemma_same_node_text(a: Node, b: Node)
    requires
        same_node(a, b),
    ensures
        node_text(a) == node_text(b),
        head_of(a) == head_of(b),
    decreases a,
{
    match (a, b) {
        (Node::List { items: i1, .. }, Node::List { items: i2, .. }) => {
            lemma_same_nodes_text(i1@, i2@);
            if i1@.len() > 0 {
                lemma_same_nodes_first(i1@, i2@);
            }
        },
        _ => {},
    }
}

proof fn lemma_same_nodes_text(s: Seq<Node>, t: Seq<Node>)
    requires
        same_nodes(s, t),
    ensures
        nodes_text(s) == nodes_text(t),
    decreases s,
{
    if s.len() > 0 {
        lemma_same_nodes_text(s.drop_last(), t.drop_last());
        lemma_same_node_text(s.last(), t.last());
    }
}

proof fn lemma_same_nodes_first(s: Seq<Node>, t: Seq<Node>)
    requires
        same_nodes(s, t),
        s.len() > 0,
    ensures
        same_node(s[0], t[0]),
    decreases s.len(),
{
    if s.len() > 1 {
        lemma_same_nodes_first(s.drop_last(), t.drop_last());
        assert(s.drop_last()[0] == s[0]);
        assert(t.drop_last()[0] == t[0]);
    }
}

/// A text is read into one tree only: two trees read from one text are
/// copies of each other, with the same text and the same root head.
pub proof fn lemma_read_is_unique(text: Seq<char>, a: Node, b: Node)
    requires
        is_one_expression(text),
        same_node(the_expression(text).nodes@[0], a),
        same_node(the_expression(text).nodes@[0], b),
    ensures
        same_node(a, b),
        node_text(a) == node_text(b),
        head_of(a) == head_of(b),
{
    let x = the_expression(text).nodes@[0];
    lemma_same_node_sym(x, a);
    lemma_same_node_trans(a, x, b);
    lemma_same_node_text(a, b);
}


/// `t` stands in `s` at `at`: its text is there, it is well formed, and a
/// bare symbol is not followed by more symbol characters.
pub open spec fn stands_at(s: Seq<char>, at: int, t: Node) -> bool {
    let end = at + node_text(t).len();
    &&& node_wf(t)
    &&& text_at(s, at, node_text(t))
    &&& is_symbol_node(t) ==> (end == s.len() || !is_symbol_char(s[end]))
}

/// A quoted string's body ends at the first quote that no backslash escapes.
proof fn lemma_body_end_unique(s: Seq<char>, i: int, e1: int, e2: int)
    requires
        0 <= i <= e1,
        i <= e2,
        e1 < s.len(),
        e2 < s.len(),
        body_ok(s.subrange(i, e1)),
        s[e1] == '"',
        body_ok(s.subrange(i, e2)),
        s[e2] == '"',
    ensures
        e1 == e2,
    decreases e1 - i,
{
    let b1 = s.subrange(i, e1);
    let b2 = s.subrange(i, e2);
    if e1 == i {
        if e2 > i {
            assert(b2[0] == s[i]);
        }
    } else if e2 == i {
        assert(b1[0] == s[i]);
    } else {
        assert(b1[0] == s[i]);
        assert(b2[0] == s[i]);
        if s[i] == '\\' {
            assert(b1.subrange(2, b1.len() as int) =~= s.subrange(i + 2, e1));
            assert(b2.subrange(2, b2.len() as int) =~= s.subrange(i + 2, e2));
            lemma_body_end_unique(s, i + 2, e1, e2);
        } else {
            assert(b1.drop_first() =~= s.subrange(i + 1, e1));
            assert(b2.drop_first() =~= s.subrange(i + 1, e2));
            lemma_body_end_unique(s, i + 1, e1, e2);
        }
    }
}

/// The token of a well-formed node never starts with a closing parenthesis.
proof fn lemma_token_not_close(t: Node)
    requires
        node_wf(t),
    ensures
        node_text(t)[lead_of(t).len() as int] != ')',
{
    lemma_token_start(t);
    match t {
        Node::Atom { atom: Atom::Symbol(_), .. } => {},
        Node::Atom { atom: Atom::Quoted(_), .. } => {},
        Node::List { .. } => {},
    }
}

/// The item `k` of a list's items stands where the items before it end.
proof fn lemma_item_stands(s: Seq<char>, q: int, ia: Seq<Node>, ta: Seq<char>, k: int)
    requires
        nodes_wf(ia),
        all_ws(ta),
        text_at(s, q, nodes_text(ia)),
        text_at(s, q + nodes_text(ia).len(), ta),
        q + nodes_text(ia).len() + ta.len() < s.len(),
        s[q + nodes_text(ia).len() + ta.len()] == ')',
        0 <= k < ia.len(),
    ensures
        stands_at(s, q + nodes_text(ia.subrange(0, k)).len(), ia[k]),
        node_text(ia[k]).len() <= nodes_text(ia).len(),
{
    let x = q + nodes_text(ia.subrange(0, k)).len();
    let tk = ia[k];
    lemma_nodes_wf_each(ia, k);
    lemma_nodes_text_prefix(ia, k + 1);
    lemma_nodes_text_step(ia, k);
    lemma_text_at_split(s, q, nodes_text(ia.subrange(0, k + 1)), nodes_text(ia.subrange(k + 1, ia.len() as int)));
    lemma_text_at_split(s, q, nodes_text(ia.subrange(0, k)), node_text(tk));
    let b = x + node_text(tk).len();
    if is_symbol_node(tk) {
        if k + 1 < ia.len() {
            lemma_nodes_text_prefix(ia, k + 2);
            lemma_nodes_text_step(ia, k + 1);
            lemma_text_at_split(s, q, nodes_text(ia.subrange(0, k + 2)), nodes_text(ia.subrange(k + 2, ia.len() as int)));
            lemma_text_at_split(s, q, nodes_text(ia.subrange(0, k + 1)), node_text(ia[k + 1]));
            lemma_nodes_wf_each(ia, k + 1);
            lemma_token_start(ia[k + 1]);
            assert(s[b] == node_text(ia[k + 1])[0]);
        } else {
            assert(ia.subrange(0, k + 1) =~= ia);
            if ta.len() > 0 {
                assert(s[b] == ta[0]);
            }
        }
    }
}

/// Two well-formed trees that stand at one place in a text are copies of
/// each other.
proof fn lemma_stands_unique(s: Seq<char>, at: int, a: Node, b: Node)
    requires
        stands_at(s, at, a),
        stands_at(s, at, b),
    ensures
        same_node(a, b),
    decreases node_text(a).len() as int, 0int,
{
    lemma_token_start(a);
    lemma_token_start(b);
    let la = lead_of(a).len() as int;
    let lb = lead_of(b).len() as int;
    assert forall|x: int| at <= x < at + la implies is_ws(#[trigger] s[x]) by {
        assert(s[at + (x - at)] == node_text(a)[x - at]);
    }
    assert forall|x: int| at <= x < at + lb implies is_ws(#[trigger] s[x]) by {
        assert(s[at + (x - at)] == node_text(b)[x - at]);
    }
    assert(s[at + la] == node_text(a)[la]);
    assert(s[at + lb] == node_text(b)[lb]);
    lemma_run_end(s, at, at + la, at + lb, |c: char| is_ws(c));
    assert(lead_of(a) =~= lead_of(b)) by {
        assert forall|x: int| 0 <= x < la implies lead_of(a)[x] == lead_of(b)[x] by {
            assert(s[at + x] == node_text(a)[x]);
            assert(s[at + x] == node_text(b)[x]);
        }
    }
    let p = at + la;
    match (a, b) {
        (Node::Atom { lead: l1, atom: a1, raw: r1 }, Node::Atom { lead: l2, atom: a2, raw: r2 }) => {
            assert(node_text(a) == l1@ + r1@);
            assert(node_text(b) == l2@ + r2@);
            assert forall|y: int| 0 <= y < r1@.len() implies s[p + y] == r1@[y] by {
                assert(node_text(a)[la + y] == r1@[y]);
                assert(s[at + (la + y)] == node_text(a)[la + y]);
            }
            assert forall|y: int| 0 <= y < r2@.len() implies s[p + y] == r2@[y] by {
                assert(node_text(b)[la + y] == r2@[y]);
                assert(s[at + (la + y)] == node_text(b)[la + y]);
            }
            match (a1, a2) {
                (Atom::Symbol(v1), Atom::Symbol(v2)) => {
                    assert forall|x: int| p <= x < p + r1@.len() implies is_symbol_char(#[trigger] s[x]) by {
                        assert(s[p + (x - p)] == r1@[x - p]);
                    }
                    assert forall|x: int| p <= x < p + r2@.len() implies is_symbol_char(#[trigger] s[x]) by {
                        assert(s[p + (x - p)] == r2@[x - p]);
                    }
                    lemma_run_end(s, p, p + r1@.len(), p + r2@.len(), |c: char| is_symbol_char(c));
                    assert(r1@ =~= r2@) by {
                        assert forall|y: int| 0 <= y < r1@.len() implies r1@[y] == r2@[y] by {
                            assert(s[p + y] == r1@[y]);
                            assert(s[p + y] == r2@[y]);
                        }
                    }
                },
                (Atom::Quoted(v1), Atom::Quoted(v2)) => {
                    let n1 = r1@.len() as int;
                    let n2 = r2@.len() as int;
                    assert(s.subrange(p + 1, p + n1 - 1) =~= r1@.subrange(1, n1 - 1)) by {
                        assert forall|y: int| 0 <= y < n1 - 2 implies #[trigger] s.subrange(p + 1, p + n1 - 1)[y] == r1@.subrange(1, n1 - 1)[y] by {
                            assert(s[p + (1 + y)] == r1@[1 + y]);
                        }
                    }
                    assert(s.subrange(p + 1, p + n2 - 1) =~= r2@.subrange(1, n2 - 1)) by {
                        assert forall|y: int| 0 <= y < n2 - 2 implies #[trigger] s.subrange(p + 1, p + n2 - 1)[y] == r2@.subrange(1, n2 - 1)[y] by {
                            assert(s[p + (1 + y)] == r2@[1 + y]);
                        }
                    }
                    assert(s[p + (n1 - 1)] == r1@[n1 - 1]);
                    assert(s[p + (n2 - 1)] == r2@[n2 - 1]);
                    lemma_body_end_unique(s, p + 1, p + n1 - 1, p + n2 - 1);
                    assert(r1@ =~= r2@) by {
                        assert forall|y: int| 0 <= y < n1 implies r1@[y] == r2@[y] by {
                            assert(s[p + y] == r1@[y]);
                            assert(s[p + y] == r2@[y]);
                        }
                    }
                },
                (Atom::Symbol(_), Atom::Quoted(_)) => {
                    assert(s[p] == r1@[0]);
                    assert(s[p] == r2@[0]);
                },
                (Atom::Quoted(_), Atom::Symbol(_)) => {
                    assert(s[p] == r1@[0]);
                    assert(s[p] == r2@[0]);
                },
            }
        },
        (Node::List { lead: l1, items: i1, tail: t1 }, Node::List { lead: l2, items: i2, tail: t2 }) => {
            lemma_list_text_at(s, at, a);
            lemma_list_text_at(s, at, b);
            lemma_items_unique(s, p + 1, i1@, t1@, i2@, t2@, 0);
        },
        (Node::Atom { .. }, Node::List { .. }) => {},
        (Node::List { .. }, Node::Atom { .. }) => {},
    }
}

/// Two item lists, each followed by its closing whitespace and `)`, that
/// stand at one place and agree on their first `k` items, agree on all.
proof fn lemma_items_unique(s: Seq<char>, q: int, ia: Seq<Node>, ta: Seq<char>, ib: Seq<Node>, tb: Seq<char>, k: int)
    requires
        nodes_wf(ia),
        nodes_wf(ib),
        all_ws(ta),
        all_ws(tb),
        text_at(s, q, nodes_text(ia)),
        text_at(s, q + nodes_text(ia).len(), ta),
        q + nodes_text(ia).len() + ta.len() < s.len(),
        s[q + nodes_text(ia).len() + ta.len()] == ')',
        text_at(s, q, nodes_text(ib)),
        text_at(s, q + nodes_text(ib).len(), tb),
        q + nodes_text(ib).len() + tb.len() < s.len(),
        s[q + nodes_text(ib).len() + tb.len()] == ')',
        0 <= k <= ia.len(),
        k <= ib.len(),
        same_nodes(ia.subrange(0, k), ib.subrange(0, k)),
    ensures
        same_nodes(ia, ib),
        ta == tb,
    decreases nodes_text(ia).len() + 1, ia.len() - k,
{
    let pa = ia.subrange(0, k);
    let pb = ib.subrange(0, k);
    lemma_same_nodes_text(pa, pb);
    let x = q + nodes_text(pa).len();
    if k < ia.len() && k < ib.len() {
        lemma_item_stands(s, q, ia, ta, k);
        lemma_item_stands(s, q, ib, tb, k);
        lemma_stands_unique(s, x, ia[k], ib[k]);
        assert(ia.subrange(0, k + 1).drop_last() =~= pa);
        assert(ib.subrange(0, k + 1).drop_last() =~= pb);
        assert(ia.subrange(0, k + 1).last() == ia[k]);
        assert(ib.subrange(0, k + 1).last() == ib[k]);
        lemma_items_unique(s, q, ia, ta, ib, tb, k + 1);
    } else if k == ia.len() && k == ib.len() {
        assert(pa =~= ia);
        assert(pb =~= ib);
        assert forall|y: int| x <= y < x + ta.len() implies is_ws(#[trigger] s[y]) by {
            assert(s[x + (y - x)] == ta[y - x]);
        }
        assert forall|y: int| x <= y < x + tb.len() implies is_ws(#[trigger] s[y]) by {
            assert(s[x + (y - x)] == tb[y - x]);
        }
        lemma_run_end(s, x, x + ta.len(), x + tb.len(), |c: char| is_ws(c));
        assert(ta =~= tb) by {
            assert forall|y: int| 0 <= y < ta.len() implies ta[y] == tb[y] by {
                assert(s[x + y] == ta[y]);
                assert(s[x + y] == tb[y]);
            }
        }
    } else if k == ia.len() {
        assert(pa =~= ia);
        lemma_item_stands(s, q, ib, tb, k);
        let t = ib[k];
        lemma_token_start(t);
        lemma_token_not_close(t);
        let l = lead_of(t).len() as int;
        assert forall|y: int| x <= y < x + ta.len() implies is_ws(#[trigger] s[y]) by {
            assert(s[x + (y - x)] == ta[y - x]);
        }
        assert forall|y: int| x <= y < x + l implies is_ws(#[trigger] s[y]) by {
            assert(s[x + (y - x)] == node_text(t)[y - x]);
        }
        assert(s[x + l] == node_text(t)[l]);
        lemma_run_end(s, x, x + ta.len(), x + l, |c: char| is_ws(c));
    } else {
        assert(pb =~= ib);
        lemma_item_stands(s, q, ia, ta, k);
        let t = ia[k];
        lemma_token_start(t);
        lemma_token_not_close(t);
        let l = lead_of(t).len() as int;
        assert forall|y: int| x <= y < x + tb.len() implies is_ws(#[trigger] s[y]) by {
            assert(s[x + (y - x)] == tb[y - x]);
        }
        assert forall|y: int| x <= y < x + l implies is_ws(#[trigger] s[y]) by {
            assert(s[x + (y - x)] == node_text(t)[y - x]);
        }
        assert(s[x + l] == node_text(t)[l]);
        lemma_run_end(s, x, x + tb.len(), x + l, |c: char| is_ws(c));
    }
}

/// A text holds one reading only: two well-formed one-node documents with
/// the same text have copies of one tree and the same trailing whitespace.
pub proof fn lemma_one_reading(c1: CstDocument, c2: CstDocument)
    requires
        doc_text(c1) == doc_text(c2),
        doc_wf(c1),
        doc_wf(c2),
        c1.nodes.len() == 1,
        c2.nodes.len() == 1,
    ensures
        same_node(c1.nodes@[0], c2.nodes@[0]),
        c1.trailing@ == c2.trailing@,
{
    let s = doc_text(c1);
    let n1 = c1.nodes@[0];
    let n2 = c2.nodes@[0];
    assert(c1.nodes@.drop_last() =~= Seq::<Node>::empty());
    assert(c2.nodes@.drop_last() =~= Seq::<Node>::empty());
    assert(c1.nodes@.last() == n1);
    assert(c2.nodes@.last() == n2);
    assert(nodes_text(c1.nodes@.drop_last()) =~= Seq::<char>::empty());
    assert(nodes_text(c2.nodes@.drop_last()) =~= Seq::<char>::empty());
    assert(nodes_text(c1.nodes@) =~= node_text(n1));
    assert(nodes_text(c2.nodes@) =~= node_text(n2));
    assert(text_at(s, 0, node_text(n1))) by {
        assert forall|x: int| 0 <= x < node_text(n1).len() implies s[0 + x] == #[trigger] node_text(n1)[x] by {
            assert((node_text(n1) + c1.trailing@)[x] == node_text(n1)[x]);
        }
    }
    assert(text_at(s, 0, node_text(n2))) by {
        assert forall|x: int| 0 <= x < node_text(n2).len() implies s[0 + x] == #[trigger] node_text(n2)[x] by {
            assert((node_text(n2) + c2.trailing@)[x] == node_text(n2)[x]);
        }
    }
    let e1 = node_text(n1).len() as int;
    let e2 = node_text(n2).len() as int;
    if e1 < s.len() {
        assert(s[e1] == c1.trailing@[0]);
    }
    if e2 < s.len() {
        assert(s[e2] == c2.trailing@[0]);
    }
    lemma_stands_unique(s, 0, n1, n2);
    lemma_same_node_text(n1, n2);
    assert(c1.trailing@ =~= s.subrange(e1, s.len() as int));
    assert(c2.trailing@ =~= s.subrange(e2, s.len() as int));
}

/// A document that is one well-formed tree is read back as a copy of that
/// tree.
pub proof fn lemma_reads_as_itself(c: CstDocument)
    requires
        doc_wf(c),
        c.nodes.len() == 1,
        node_depth(c.nodes@[0]) <= MAX_DEPTH,
    ensures
        is_one_expression(doc_text(c)),
        same_node(the_expression(doc_text(c)).nodes@[0], c.nodes@[0]),
        the_expression(doc_text(c)).trailing@ == c.trailing@,
        expression_head(doc_text(c)) == head_of(c.nodes@[0]),
{
    let x = the_expression(doc_text(c));
    lemma_one_reading(x, c);
    lemma_same_node_text(x.nodes@[0], c.nodes@[0]);
}

// ---------------------------------------------------------------------------
// Which texts are one S-expression

/// How deeply lists nest in a node: 0 for an atom, one more than its deepest
/// item for a list.
pub open spec fn node_depth(n: Node) -> nat
    decreases n,
{
    match n {
        Node::Atom { .. } => 0,
        Node::List { items, .. } => 1 + items_depth(items@),
    }
}

pub open spec fn items_depth(s: Seq<Node>) -> nat
    decreases s,
{
    if s.len() == 0 {
        0
    } else {
        let a = items_depth(s.drop_last());
        let b = node_depth(s.last());
        if a >= b {
            a
        } else {
            b
        }
    }
}

/// The text holds exactly one S-expression, surrounded by whitespace only,
/// whose lists nest no deeper than `MAX_DEPTH`.
pub open spec fn is_one_expression(text: Seq<char>) -> bool {
    exists|c: CstDocument|
        #[trigger] doc_text(c) == text && doc_wf(c) && c.nodes.len() == 1 && node_depth(c.nodes@[0])
            <= MAX_DEPTH
}

/// The one S-expression of a text that holds one.
pub open spec fn the_expression(text: Seq<char>) -> CstDocument {
    choose|c: CstDocument|
        #[trigger] doc_text(c) == text && doc_wf(c) && c.nodes.len() == 1 && node_depth(c.nodes@[0]) <= MAX_DEPTH
}

/// The head symbol of the root list of a text that holds one S-expression.
pub open spec fn expression_head(text: Seq<char>) -> Option<Seq<char>> {
    head_of(the_expression(text).nodes@[0])
}

/// The value of a symbol atom.
pub open spec fn symbol_value(n: Node) -> Option<Seq<char>> {
    match n {
        Node::Atom { atom: Atom::Symbol(v), .. } => Some(v@),
        _ => None,
    }
}

/// `w` stands in `s` at `at`.
pub open spec fn text_at(s: Seq<char>, at: int, w: Seq<char>) -> bool {
    &&& 0 <= at
    &&& at + w.len() <= s.len()
    &&& forall|x: int| 0 <= x < w.len() ==> s[at + x] == #[trigger] w[x]
}

/// The node `t` can be read from `s` at `lead_start`, by a parser that is
/// `depth` lists deep: it stands there, it is well formed, it nests no
/// deeper than allowed, and a symbol is not followed by more symbol
/// characters.
pub open spec fn fits(s: Seq<char>, lead_start: int, t: Node, depth: int) -> bool {
    let end = lead_start + node_text(t).len();
    &&& node_wf(t)
    &&& text_at(s, lead_start, node_text(t))
    &&& depth + node_depth(t) <= MAX_DEPTH
    &&& is_symbol_node(t) ==> (end == s.len() || !is_symbol_char(s[end]))
}

proof fn lemma_text_at_split(s: Seq<char>, at: int, a: Seq<char>, b: Seq<char>)
    requires
        text_at(s, at, a + b),
    ensures
        text_at(s, at, a),
        text_at(s, at + a.len(), b),
{
    assert forall|x: int| 0 <= x < a.len() implies s[at + x] == #[trigger] a[x] by {
        assert((a + b)[x] == a[x]);
    }
    assert forall|x: int| 0 <= x < b.len() implies s[at + a.len() + x] == #[trigger] b[x] by {
        assert((a + b)[a.len() + x] == b[x]);
    }
}

proof fn lemma_nodes_text_prefix(s: Seq<Node>, j: int)
    requires
        0 <= j <= s.len(),
    ensures
        nodes_text(s) == nodes_text(s.subrange(0, j)) + nodes_text(s.subrange(j, s.len() as int)),
    decreases s.len(),
{
    if j == s.len() {
        assert(s.subrange(0, j) =~= s);
        assert(nodes_text(s.subrange(j, s.len() as int)) =~= Seq::<char>::empty());
        assert(nodes_text(s) + Seq::<char>::empty() =~= nodes_text(s));
    } else {
        lemma_nodes_text_prefix(s.drop_last(), j);
        assert(s.drop_last().subrange(0, j) =~= s.subrange(0, j));
        let r = s.subrange(j, s.len() as int);
        assert(r.drop_last() =~= s.drop_last().subrange(j, s.drop_last().len() as int));
        assert(r.last() == s.last());
        assert(nodes_text(s) =~= nodes_text(s.subrange(0, j)) + nodes_text(r));
    }
}

proof fn lemma_nodes_text_step(s: Seq<Node>, k: int)
    requires
        0 <= k < s.len(),
    ensures
        nodes_text(s.subrange(0, k + 1)) == nodes_text(s.subrange(0, k)) + node_text(s[k]),
{
    assert(s.subrange(0, k + 1).drop_last() =~= s.subrange(0, k));
}

proof fn lemma_nodes_wf_each(s: Seq<Node>, k: int)
    requires
        nodes_wf(s),
        0 <= k < s.len(),
    ensures
        node_wf(s[k]),
        k + 1 < s.len() && is_symbol_node(s[k]) && is_symbol_node(s[k + 1]) ==> lead_of(s[k + 1]).len() > 0,
    decreases s.len(),
{
    if k < s.len() - 1 {
        lemma_nodes_wf_each(s.drop_last(), k);
        assert(s.drop_last()[k] == s[k]);
        if k + 1 < s.len() - 1 {
            assert(s.drop_last()[k + 1] == s[k + 1]);
        }
    }
}

proof fn lemma_nodes_wf_each_all(s: Seq<Node>)
    requires
        nodes_wf(s),
    ensures
        forall|k: int| 0 <= k < s.len() ==> node_wf(#[trigger] s[k]),
{
    assert forall|k: int| 0 <= k < s.len() implies node_wf(#[trigger] s[k]) by {
        lemma_nodes_wf_each(s, k);
    }
}

proof fn lemma_items_depth_each(s: Seq<Node>, k: int)
    requires
        0 <= k < s.len(),
    ensures
        node_depth(s[k]) <= items_depth(s),
    decreases s.len(),
{
    if k < s.len() - 1 {
        lemma_items_depth_each(s.drop_last(), k);
        assert(s.drop_last()[k] == s[k]);
    }
}

/// A well-formed node is its whitespace, then a token that starts with `(`,
/// `"` or a symbol character.
proof fn lemma_token_start(t: Node)
    requires
        node_wf(t),
    ensures
        node_text(t).len() > lead_of(t).len(),
        forall|x: int| 0 <= x < lead_of(t).len() ==> node_text(t)[x] == lead_of(t)[x],
        all_ws(lead_of(t)),
        !is_ws(node_text(t)[lead_of(t).len() as int]),
        is_symbol_node(t) ==> is_symbol_char(node_text(t)[lead_of(t).len() as int]),
        t matches Node::Atom { atom: Atom::Quoted(_), .. } ==> node_text(t)[lead_of(t).len() as int] == '"',
        t is List ==> node_text(t)[lead_of(t).len() as int] == '(',
        (lead_of(t).len() > 0 || !is_symbol_node(t)) ==> !is_symbol_char(node_text(t)[0]),
{
    match t {
        Node::Atom { lead, atom, raw } => {
            assert(node_text(t)[lead@.len() as int] == raw@[0]);
            if lead@.len() > 0 {
                assert(is_ws(lead@[0]));
            }
        },
        Node::List { lead, items, tail } => {
            assert(node_text(t)[lead@.len() as int] == '(');
            if lead@.len() > 0 {
                assert(is_ws(lead@[0]));
            }
        },
    }
}

/// Two runs of characters of one class from `a`, each followed by a
/// character outside it (or the end), end at the same place.
proof fn lemma_run_end(s: Seq<char>, a: int, p: int, q: int, class: spec_fn(char) -> bool)
    requires
        0 <= a <= p <= s.len(),
        a <= q <= s.len(),
        forall|x: int| a <= x < p ==> class(#[trigger] s[x]),
        forall|x: int| a <= x < q ==> class(#[trigger] s[x]),
        p < s.len() ==> !class(s[p]),
        q < s.len() ==> !class(s[q]),
    ensures
        p == q,
{
    if p < q {
        assert(class(s[p]));
    } else if q < p {
        assert(class(s[q]));
    }
}

/// Where a list stands in `s` at `at`, so do its opening parenthesis, its
/// items, its closing whitespace and its closing parenthesis.
proof fn lemma_list_text_at(s: Seq<char>, at: int, t: Node)
    requires
        t is List,
        text_at(s, at, node_text(t)),
    ensures
        ({
            let p = at + lead_of(t).len();
            let nt = nodes_text(t->items@);
            &&& s[p] == '('
            &&& text_at(s, p + 1, nt)
            &&& text_at(s, p + 1 + nt.len(), t->tail@)
            &&& s[p + 1 + nt.len() + t->tail@.len()] == ')'
            &&& node_text(t).len() == lead_of(t).len() + 1 + nt.len() + t->tail@.len() + 1
        }),
{
    let lead = lead_of(t);
    let nt = nodes_text(t->items@);
    let tail = t->tail@;
    assert(node_text(t) == lead + seq!['('] + nt + tail + seq![')']);
    lemma_text_at_split(s, at, lead + seq!['('] + nt + tail, seq![')']);
    lemma_text_at_split(s, at, lead + seq!['('] + nt, tail);
    lemma_text_at_split(s, at, lead + seq!['('], nt);
    lemma_text_at_split(s, at, lead, seq!['(']);
    assert(seq!['('][0] == '(');
    assert(seq![')'][0] == ')');
}

/// Each item is well formed, and no bare symbol runs into the symbol before
/// it.
pub open spec fn items_ok(s: Seq<Node>) -> bool {
    &&& forall|j: int| 0 <= j < s.len() ==> node_wf(#[trigger] s[j])
    &&& forall|j: int|
        1 <= j < s.len() ==> !(is_symbol_node(s[j - 1]) && is_symbol_node(#[trigger] s[j]) && lead_of(s[j]).len() == 0)
}

/// `nodes_wf` says the same, item by item.
pub proof fn lemma_nodes_wf_items_ok(s: Seq<Node>)
    ensures
        nodes_wf(s) == items_ok(s),
    decreases s.len(),
{
    if s.len() > 0 {
        let t = s.drop_last();
        lemma_nodes_wf_items_ok(t);
        assert forall|j: int| 0 <= j < t.len() implies t[j] == s[j] by {}
        if items_ok(s) {
            assert(items_ok(t)) by {
                assert forall|j: int| 0 <= j < t.len() implies node_wf(#[trigger] t[j]) by {
                    assert(node_wf(s[j]));
                }
                assert forall|j: int| 1 <= j < t.len() implies !(is_symbol_node(t[j - 1]) && is_symbol_node(
                    #[trigger] t[j],
                ) && lead_of(t[j]).len() == 0) by {
                    assert(!(is_symbol_node(s[j - 1]) && is_symbol_node(s[j]) && lead_of(s[j]).len() == 0));
                }
            }
            assert(node_wf(s[s.len() - 1]));
            if s.len() >= 2 {
                assert(!(is_symbol_node(s[s.len() - 2]) && is_symbol_node(s[s.len() - 1]) && lead_of(s[s.len() - 1]).len() == 0));
            }
        }
        if nodes_wf(s) {
            assert forall|j: int| 0 <= j < s.len() implies node_wf(#[trigger] s[j]) by {
                if j < s.len() - 1 {
                    assert(node_wf(t[j]));
                }
            }
            assert forall|j: int| 1 <= j < s.len() implies !(is_symbol_node(s[j - 1]) && is_symbol_node(
                #[trigger] s[j],
            ) && lead_of(s[j]).len() == 0) by {
                if j < s.len() - 1 {
                    assert(!(is_symbol_node(t[j - 1]) && is_symbol_node(t[j]) && lead_of(t[j]).len() == 0));
                }
            }
        }
    }
}

/// The nesting of a list of items is at most `b` when that of each item is.
pub proof fn lemma_items_depth_bound(s: Seq<Node>, b: nat)
    requires
        forall|j: int| 0 <= j < s.len() ==> node_depth(#[trigger] s[j]) <= b,
    ensures
        items_depth(s) <= b,
    decreases s.len(),
{
    if s.len() > 0 {
        assert forall|j: int| 0 <= j < s.drop_last().len() implies node_depth(#[trigger] s.drop_last()[j]) <= b by {
            assert(s.drop_last()[j] == s[j]);
        }
        lemma_items_depth_bound(s.drop_last(), b);
        assert(node_depth(s[s.len() - 1]) <= b);
    }
}

/// Each item nests no deeper than the list of items.
pub proof fn lemma_items_depth_each_pub(s: Seq<Node>)
    ensures
        forall|j: int| 0 <= j < s.len() ==> node_depth(#[trigger] s[j]) <= items_depth(s),
{
    assert forall|j: int| 0 <= j < s.len() implies node_depth(#[trigger] s[j]) <= items_depth(s) by {
        lemma_items_depth_each(s, j);
    }
}

// ---------------------------------------------------------------------------
// Parsing

proof fn lemma_body_push_plain(x: Seq<char>, c: char)
    requires
        body_ok(x),
        c != '"',
        c != '\\',
    ensures
        body_ok(x.push(c)),
        unescape(x.push(c)) == unescape(x).push(c),
    decreases x.len(),
{
    let y = x.push(c);
    if x.len() == 0 {
        assert(y.drop_first() =~= Seq::<char>::empty());
        assert(body_ok(y.drop_first()));
        assert(unescape(y.drop_first()) =~= Seq::<char>::empty());
        assert(unescape(y) =~= unescape(x).push(c));
    } else if x[0] == '\\' {
        let xr = x.subrange(2, x.len() as int);
        lemma_body_push_plain(xr, c);
        assert(y.subrange(2, y.len() as int) =~= xr.push(c));
        assert(unescape(y) =~= unescape(x).push(c));
    } else {
        lemma_body_push_plain(x.drop_first(), c);
        assert(y.drop_first() =~= x.drop_first().push(c));
        assert(unescape(y) =~= unescape(x).push(c));
    }
}

proof fn lemma_body_push_escape(x: Seq<char>, c: char)
    requires
        body_ok(x),
    ensures
        body_ok(x + seq!['\\', c]),
        unescape(x + seq!['\\', c]) == unescape(x).push(escaped_char(c)),
    decreases x.len(),
{
    let y = x + seq!['\\', c];
    if x.len() == 0 {
        assert(y =~= seq!['\\', c]);
        assert(y.subrange(2, y.len() as int) =~= Seq::<char>::empty());
        assert(body_ok(y.subrange(2, y.len() as int)));
        assert(unescape(y.subrange(2, y.len() as int)) =~= Seq::<char>::empty());
        assert(unescape(y) =~= unescape(x).push(escaped_char(c)));
    } else if x[0] == '\\' {
        let xr = x.subrange(2, x.len() as int);
        lemma_body_push_escape(xr, c);
        assert(y.subrange(2, y.len() as int) =~= xr + seq!['\\', c]);
        assert(unescape(y) =~= unescape(x).push(escaped_char(c)));
    } else {
        lemma_body_push_escape(x.drop_first(), c);
        assert(y.drop_first() =~= x.drop_first() + seq!['\\', c]);
        assert(unescape(y) =~= unescape(x).push(escaped_char(c)));
    }
}

fn skip_ws(s: &Vec<char>, pos: usize) -> (end: usize)
    requires
        pos <= s.len(),
    ensures
        pos <= end <= s.len(),
        all_ws(s@.subrange(pos as int, end as int)),
        end == s.len() || !is_ws(s@[end as int]),
{
    let mut i = pos;
    while i < s.len() && (s[i] == ' ' || s[i] == '\t' || s[i] == '\n' || s[i] == '\r')
        invariant
            pos <= i <= s.len(),
            all_ws(s@.subrange(pos as int, i as int)),
        decreases s.len() - i,
    {
        assert forall|k: int| 0 <= k < i + 1 - pos implies is_ws(#[trigger] s@.subrange(pos as int, i + 1)[k]) by {
            if k < i - pos {
                assert(s@.subrange(pos as int, i + 1)[k] == s@.subrange(pos as int, i as int)[k]);
            }
        }
        i = i + 1;
    }
    i
}

fn is_symbol_char_exec(c: char) -> (r: bool)
    ensures
        r == is_symbol_char(c),
{
    !(c == ' ' || c == '\t' || c == '\n' || c == '\r' || c == '(' || c == ')' || c == '"')
}

fn read_symbol(s: &Vec<char>, pos: usize) -> (end: usize)
    requires
        pos < s.len(),
        is_symbol_char(s@[pos as int]),
    ensures
        pos < end <= s.len(),
        is_symbol_text(s@.subrange(pos as int, end as int)),
        end == s.len() || !is_symbol_char(s@[end as int]),
{
    let mut i = pos + 1;
    while i < s.len() && is_symbol_char_exec(s[i])
        invariant
            pos < i <= s.len(),
            is_symbol_text(s@.subrange(pos as int, i as int)),
        decreases s.len() - i,
    {
        assert forall|k: int| 0 <= k < i + 1 - pos implies is_symbol_char(#[trigger] s@.subrange(pos as int, i + 1)[k]) by {
            if k < i - pos {
                assert(s@.subrange(pos as int, i + 1)[k] == s@.subrange(pos as int, i as int)[k]);
            }
        }
        i = i + 1;
    }
    i
}

fn escaped_char_exec(c: char) -> (r: char)
    ensures
        r == escaped_char(c),
{
    if c == 'n' {
        '\n'
    } else if c == 't' {
        '\t'
    } else if c == 'r' {
        '\r'
    } else {
        c
    }
}

/// A quoted string that closes at `e` (its closing `"` at `e - 1`) is read
/// up to there.
pub open spec fn quoted_ends_at(s: Seq<char>, pos: int, e: int) -> bool {
    &&& pos + 2 <= e <= s.len()
    &&& s[e - 1] == '"'
    &&& body_ok(s.subrange(pos + 1, e - 1))
}

fn read_quoted(s: &Vec<char>, pos: usize, Ghost(e): Ghost<int>) -> (r: Result<(usize, String), ParseError>)
    requires
        pos < s.len(),
        s@[pos as int] == '"',
    ensures
        r matches Ok((end, v)) ==> {
            &&& pos + 2 <= end <= s.len()
            &&& s@[end - 1] == '"'
            &&& body_ok(s@.subrange(pos + 1, end - 1))
            &&& v@ == unescape(s@.subrange(pos + 1, end - 1))
        },
        !(r matches Err(ParseError::EmptyInput)),
        quoted_ends_at(s@, pos as int, e) ==> (r matches Ok((end, _)) && end == e),
{
    let mut v = String::new();
    let mut i = pos + 1;
    loop
        invariant
            pos < i <= s.len(),
            body_ok(s@.subrange(pos + 1, i as int)),
            v@ == unescape(s@.subrange(pos + 1, i as int)),
            quoted_ends_at(s@, pos as int, e) ==> i <= e - 1 && body_ok(s@.subrange(i as int, e - 1)),
        decreases s.len() - i,
    {
        let ghost b = s@.subrange(i as int, e - 1);
        if i >= s.len() {
            return Err(ParseError::UnterminatedString { offset: pos });
        }
        let c = s[i];
        if c == '"' {
            proof {
                if quoted_ends_at(s@, pos as int, e) && i < e - 1 {
                    assert(b[0] == '"');
                }
            }
            return Ok((i + 1, v));
        }
        let ghost prev = s@.subrange(pos + 1, i as int);
        if c == '\\' {
            if i + 1 >= s.len() {
                return Err(ParseError::UnterminatedString { offset: pos });
            }
            let d = s[i + 1];
            push_char(&mut v, escaped_char_exec(d));
            proof {
                lemma_body_push_escape(prev, d);
                assert(s@.subrange(pos + 1, i + 2) =~= prev + seq!['\\', d]);
                if quoted_ends_at(s@, pos as int, e) {
                    assert(b[0] == '\\');
                    assert(b.subrange(2, b.len() as int) =~= s@.subrange(i + 2, e - 1));
                }
            }
            i = i + 2;
        } else {
            push_char(&mut v, c);
            proof {
                lemma_body_push_plain(prev, c);
                assert(s@.subrange(pos + 1, i + 1) =~= prev.push(c));
                if quoted_ends_at(s@, pos as int, e) {
                    assert(i < e - 1);
                    assert(b[0] == c);
                    assert(b.drop_first() =~= s@.subrange(i + 1, e - 1));
                }
            }
            i = i + 1;
        }
    }
}

/// What the node parser guarantees about a node read from `s[lead_start..end]`
/// whose token starts at `pos`.
pub open spec fn parsed_node(s: Seq<char>, lead_start: int, pos: int, end: int, n: Node) -> bool {
    &&& pos < end <= s.len()
    &&& node_text(n) == s.subrange(lead_start, end)
    &&& lead_of(n) == s.subrange(lead_start, pos)
    &&& node_wf(n)
    &&& is_symbol_node(n) ==> is_symbol_char(s[pos]) && (end == s.len() || !is_symbol_char(s[end]))
}

#[verifier::rlimit(40)]
fn parse_node(s: &Vec<char>, lead_start: usize, pos: usize, depth: usize, Ghost(target): Ghost<Option<Node>>) -> (r:
    Result<(Node, usize), ParseError>)
    requires
        lead_start <= pos < s.len(),
        all_ws(s@.subrange(lead_start as int, pos as int)),
        !is_ws(s@[pos as int]),
        depth <= MAX_DEPTH,
    ensures
        r matches Ok((n, end)) ==> parsed_node(s@, lead_start as int, pos as int, end as int, n) && depth + node_depth(n)
            <= MAX_DEPTH,
        !(r matches Err(ParseError::EmptyInput)),
        target matches Some(t) ==> (fits(s@, lead_start as int, t, depth as int) ==> (r matches Ok((n, end)) && end
            == lead_start + node_text(t).len() && symbol_value(n) == symbol_value(t) && head_of(n) == head_of(t)
            && same_node(t, n))),
    decreases s.len() - pos,
{
    let ghost ok = target matches Some(t) && fits(s@, lead_start as int, t, depth as int);
    let ghost t = target->0;
    proof {
        if ok {
            lemma_token_start(t);
            let l = lead_of(t).len() as int;
            assert forall|x: int| lead_start <= x < lead_start + l implies is_ws(#[trigger] s@[x]) by {
                assert(node_text(t)[x - lead_start] == lead_of(t)[x - lead_start]);
                assert(s@[lead_start + (x - lead_start)] == node_text(t)[x - lead_start]);
            }
            assert forall|x: int| lead_start <= x < pos implies is_ws(#[trigger] s@[x]) by {
                assert(s@.subrange(lead_start as int, pos as int)[x - lead_start] == s@[x]);
            }
            assert(s@[lead_start + l] == node_text(t)[l]);
            lemma_run_end(s@, lead_start as int, pos as int, lead_start + l, |c: char| is_ws(c));
            assert(s@.subrange(lead_start as int, pos as int) =~= lead_of(t));
        }
    }
    let c = s[pos];
    let lead = string_of(s, lead_start, pos);
    if c == ')' {
        return Err(ParseError::UnexpectedClose { offset: pos });
    }
    if c == '"' {
        let ghost e = pos + (node_text(t).len() - lead_of(t).len());
        proof {
            if ok {
                let raw = t->raw@;
                assert(node_text(t) == lead_of(t) + raw);
                assert forall|y: int| 0 <= y < raw.len() implies s@[pos + y] == raw[y] by {
                    assert(node_text(t)[lead_of(t).len() + y] == raw[y]);
                    assert(s@[lead_start + (lead_of(t).len() + y)] == node_text(t)[lead_of(t).len() + y]);
                }
                assert(s@[e - 1] == raw[raw.len() - 1]);
                assert(s@.subrange(pos + 1, e - 1) =~= raw.subrange(1, raw.len() - 1));
                assert(s@.subrange(pos as int, e) =~= raw);
            }
        }
        let (end, value) = read_quoted(s, pos, Ghost(e))?;
        let raw = string_of(s, pos, end);
        let n = Node::Atom { lead, atom: Atom::Quoted(value), raw };
        assert(raw@.subrange(1, raw@.len() - 1) =~= s@.subrange(pos + 1, end - 1));
        assert(node_text(n) =~= s@.subrange(lead_start as int, end as int));
        proof {
            if ok {
                assert(t is Atom && t->atom is Quoted);
                assert(same_atom(t->atom, Atom::Quoted(value)));
                assert(same_node(t, n));
            }
        }
        return Ok((n, end));
    }
    if c != '(' {
        let end = read_symbol(s, pos);
        proof {
            if ok {
                let raw = t->raw@;
                let e = pos + raw.len();
                assert(node_text(t) == lead_of(t) + raw);
                assert forall|x: int| pos <= x < e implies is_symbol_char(#[trigger] s@[x]) by {
                    assert(node_text(t)[lead_of(t).len() + (x - pos)] == raw[x - pos]);
                    assert(s@[lead_start + (lead_of(t).len() + (x - pos))] == node_text(t)[lead_of(t).len() + (x - pos)]);
                }
                assert forall|x: int| pos <= x < end implies is_symbol_char(#[trigger] s@[x]) by {
                    assert(s@.subrange(pos as int, end as int)[x - pos] == s@[x]);
                }
                lemma_run_end(s@, pos as int, end as int, e, |c: char| is_symbol_char(c));
                assert forall|y: int| 0 <= y < raw.len() implies s@[pos + y] == raw[y] by {
                    assert(node_text(t)[lead_of(t).len() + y] == raw[y]);
                    assert(s@[lead_start + (lead_of(t).len() + y)] == node_text(t)[lead_of(t).len() + y]);
                }
                assert(s@.subrange(pos as int, end as int) =~= raw);
            }
        }
        let raw = string_of(s, pos, end);
        let value = string_of(s, pos, end);
        let n = Node::Atom { lead, atom: Atom::Symbol(value), raw };
        assert(node_text(n) =~= s@.subrange(lead_start as int, end as int));
        proof {
            if ok {
                assert(symbol_value(t) == Some(t->raw@));
            }
        }
        return Ok((n, end));
    }
    if depth >= MAX_DEPTH {
        return Err(ParseError::DepthLimit { offset: pos });
    }
    let ghost ti = t->items@;
    proof {
        if ok {
            lemma_list_text_at(s@, lead_start as int, t);
        }
    }
    let mut items: Vec<Node> = Vec::new();
    let mut i = pos + 1;
    loop
        invariant
            lead_start <= pos < i <= s.len(),
            depth < MAX_DEPTH,
            s@[pos as int] == '(',
            lead@ == s@.subrange(lead_start as int, pos as int),
            all_ws(lead@),
            nodes_text(items@) == s@.subrange(pos + 1, i as int),
            nodes_wf(items@),
            items.len() > 0 && is_symbol_node(items@.last()) ==> i == s.len() || !is_symbol_char(s@[i as int]),
            depth + 1 + items_depth(items@) <= MAX_DEPTH,
            ok == (target matches Some(tt) && fits(s@, lead_start as int, tt, depth as int)),
            t == target->0,
            ok ==> {
                &&& fits(s@, lead_start as int, t, depth as int)
                &&& t is List
                &&& ti == t->items@
                &&& pos == lead_start + lead_of(t).len()
                &&& text_at(s@, pos + 1, nodes_text(ti))
                &&& text_at(s@, pos + 1 + nodes_text(ti).len(), t->tail@)
                &&& s@[pos + 1 + nodes_text(ti).len() + t->tail@.len()] == ')'
                &&& node_text(t).len() == lead_of(t).len() + 1 + nodes_text(ti).len() + t->tail@.len() + 1
                &&& items.len() <= ti.len()
                &&& i == pos + 1 + nodes_text(ti.subrange(0, items.len() as int)).len()
                &&& items.len() > 0 ==> symbol_value(items@[0]) == symbol_value(ti[0])
                &&& lead@ == lead_of(t)
                &&& same_nodes(ti.subrange(0, items.len() as int), items@)
            },
        decreases s.len() - i,
    {
        let ws_end = skip_ws(s, i);
        let ghost k = items.len() as int;
        proof {
            assert forall|x: int| i <= x < ws_end implies is_ws(#[trigger] s@[x]) by {
                assert(s@.subrange(i as int, ws_end as int)[x - i] == s@[x]);
            }
            if ok {
                lemma_nodes_wf_each_all(ti);
                if k < ti.len() {
                    let tk = ti[k];
                    lemma_nodes_text_prefix(ti, k + 1);
                    lemma_nodes_text_step(ti, k);
                    lemma_text_at_split(s@, pos + 1, nodes_text(ti.subrange(0, k + 1)), nodes_text(ti.subrange(k + 1, ti.len() as int)));
                    lemma_text_at_split(s@, pos + 1, nodes_text(ti.subrange(0, k)), node_text(tk));
                    lemma_token_start(tk);
                    let l = lead_of(tk).len() as int;
                    assert forall|x: int| i <= x < i + l implies is_ws(#[trigger] s@[x]) by {
                        assert(node_text(tk)[x - i] == lead_of(tk)[x - i]);
                        assert(s@[i + (x - i)] == node_text(tk)[x - i]);
                    }
                    assert(s@[i + l] == node_text(tk)[l]);
                    lemma_run_end(s@, i as int, ws_end as int, i + l, |c: char| is_ws(c));
                    assert(ws_end < s.len());
                    assert(s@[ws_end as int] != ')');
                } else {
                    assert(ti.subrange(0, k) =~= ti);
                    let tl = t->tail@;
                    assert forall|x: int| i <= x < i + tl.len() implies is_ws(#[trigger] s@[x]) by {
                        assert(s@[i + (x - i)] == tl[x - i]);
                    }
                    assert(i + tl.len() < s.len());
                    if i + tl.len() < s.len() {
                        assert(!is_ws(s@[i + tl.len()]));
                    }
                    lemma_run_end(s@, i as int, ws_end as int, i + tl.len(), |c: char| is_ws(c));
                    assert(ws_end < s.len());
                    assert(s@[ws_end as int] == ')');
                    assert(ws_end + 1 == lead_start + node_text(t).len());
                }
            }
        }
        if ws_end >= s.len() {
            return Err(ParseError::UnexpectedEof { offset: ws_end });
        }
        if s[ws_end] == ')' {
            let tail = string_of(s, i, ws_end);
            let ghost gi = items@;
            let n = Node::List { lead, items, tail };
            assert(node_text(n) =~= s@.subrange(lead_start as int, ws_end + 1));
            proof {
                if ok && gi.len() > 0 {
                    assert(symbol_value(gi[0]) == symbol_value(ti[0]));
                }
                if ok {
                    let tl = t->tail@;
                    assert forall|x: int| 0 <= x < tl.len() implies s@.subrange(i as int, ws_end as int)[x] == tl[x] by {
                        assert(s@[i + x] == tl[x]);
                    }
                    assert(s@.subrange(i as int, ws_end as int) =~= tl);
                    assert(ti.subrange(0, gi.len() as int) =~= ti);
                    assert(same_node(t, n));
                }
            }
            return Ok((n, ws_end + 1));
        }
        let ghost sub = if ok && k < ti.len() { Some(ti[k]) } else { None };
        proof {
            if ok {
                let tk = ti[k];
                lemma_items_depth_each(ti, k);
                let b = i + node_text(tk).len();
                if is_symbol_node(tk) {
                    if k + 1 < ti.len() {
                        lemma_nodes_text_prefix(ti, k + 2);
                        lemma_nodes_text_step(ti, k + 1);
                        lemma_text_at_split(s@, pos + 1, nodes_text(ti.subrange(0, k + 2)), nodes_text(ti.subrange(k + 2, ti.len() as int)));
                        lemma_text_at_split(s@, pos + 1, nodes_text(ti.subrange(0, k + 1)), node_text(ti[k + 1]));
                        lemma_nodes_wf_each(ti, k);
                        lemma_token_start(ti[k + 1]);
                        assert(s@[b] == node_text(ti[k + 1])[0]);
                    } else {
                        assert(ti.subrange(0, k + 1) =~= ti);
                        if t->tail@.len() > 0 {
                            assert(s@[b] == t->tail@[0]);
                        }
                    }
                }
                assert(fits(s@, i as int, tk, depth + 1));
            }
        }
        let (item, e) = parse_node(s, i, ws_end, depth + 1, Ghost(sub))?;
        let ghost old_items = items@;
        items.push(item);
        proof {
            assert(items@.drop_last() =~= old_items);
            if old_items.len() > 0 {
                assert(items@[0] == old_items[0]);
            }
            if ok {
                assert(ti.subrange(0, k + 1).drop_last() =~= ti.subrange(0, k));
                assert(ti.subrange(0, k + 1).last() == ti[k]);
            }
            assert(nodes_text(items@) =~= s@.subrange(pos + 1, e as int));
            if old_items.len() > 0 && is_symbol_node(old_items.last()) && is_symbol_node(item) {
                assert(items@[items@.len() - 2] == old_items.last());
                if ws_end == i {
                    assert(is_symbol_char(s@[ws_end as int]));
                }
                assert(lead_of(item).len() > 0);
            }
        }
        i = e;
    }
}

/// Reads a text that holds exactly one S-expression, keeping every character
/// of it. It succeeds exactly on the texts that are one S-expression.
pub fn parse_one(text: &str) -> (r: Result<CstDocument, ParseError>)
    ensures
        r matches Ok(d) ==> doc_text(d) == text@ && doc_wf(d) && d.nodes.len() == 1 && node_depth(d.nodes@[0])
            <= MAX_DEPTH,
        r is Ok <==> is_one_expression(text@),
        r matches Ok(d) ==> head_of(d.nodes@[0]) == expression_head(text@),
        r matches Ok(d) ==> same_node(the_expression(text@).nodes@[0], d.nodes@[0]) && d.trailing@
            == the_expression(text@).trailing@,
        (r matches Err(ParseError::EmptyInput)) <==> all_ws(text@),
{
    let s = to_chars(text);
    let ghost one = is_one_expression(text@);
    let ghost c = the_expression(text@);
    let ghost n0 = c.nodes@[0];
    proof {
        if one {
            assert(c.nodes@.drop_last() =~= Seq::<Node>::empty());
            assert(c.nodes@.last() == n0);
            assert(nodes_text(c.nodes@.drop_last()) =~= Seq::<char>::empty());
            assert(nodes_text(c.nodes@) =~= node_text(n0));
            assert(doc_text(c) == node_text(n0) + c.trailing@);
            lemma_nodes_wf_each(c.nodes@, 0);
            lemma_token_start(n0);
            let w = node_text(n0);
            assert forall|x: int| 0 <= x < w.len() implies s@[0 + x] == #[trigger] w[x] by {
                assert((w + c.trailing@)[x] == w[x]);
            }
            assert(text_at(s@, 0, w));
            if is_symbol_node(n0) && w.len() < s@.len() {
                assert(s@[w.len() as int] == c.trailing@[0]);
            }
            assert(fits(s@, 0, n0, 0));
            assert(s@[lead_of(n0).len() as int] == w[lead_of(n0).len() as int]);
            assert(!all_ws(text@));
        }
    }
    let start = skip_ws(&s, 0);
    if start == s.len() {
        assert(s@.subrange(0, s.len() as int) =~= s@);
        return Err(ParseError::EmptyInput);
    }
    assert(!all_ws(text@)) by {
        assert(!is_ws(text@[start as int]));
    }
    let (node, end) = parse_node(&s, 0, start, 0, Ghost(if one { Some(n0) } else { None }))?;
    let rest = skip_ws(&s, end);
    proof {
        if one {
            let w = node_text(n0);
            assert(end == w.len());
            if rest < s.len() {
                assert(s@[rest as int] == c.trailing@[rest - w.len()]);
            }
        }
    }
    if rest < s.len() {
        return Err(ParseError::TrailingInput { offset: rest });
    }
    let trailing = string_of(&s, end, s.len());
    let mut nodes: Vec<Node> = Vec::new();
    nodes.push(node);
    let d = CstDocument { nodes, trailing };
    proof {
        assert(d.nodes@.drop_last() =~= Seq::<Node>::empty());
        assert(d.nodes@.last() == node);
        assert(nodes_text(d.nodes@.drop_last()) =~= Seq::<char>::empty());
        assert(nodes_wf(d.nodes@.drop_last()));
        assert(nodes_text(d.nodes@) =~= node_text(node));
        assert(nodes_wf(d.nodes@));
        assert(doc_text(d) =~= text@);
        assert(d.nodes@[0] == node);
        if one {
            let w = node_text(n0);
            assert(text@ == w + c.trailing@);
            assert(d.trailing@ =~= c.trailing@) by {
                assert forall|x: int| 0 <= x < c.trailing@.len() implies d.trailing@[x] == c.trailing@[x] by {
                    assert((w + c.trailing@)[w.len() + x] == c.trailing@[x]);
                }
            }
        }
    }
    Ok(d)
}

} // verus!
