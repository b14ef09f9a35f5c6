//! Building nodes and editing the items of a list in place.
use vstd::prelude::*;

use crate::sexpr::{
    same_atom,
    all_ws, body_ok, escape, escape_char, escape_prefix, is_symbol_char, is_symbol_text, lead_of,
    lemma_escape_prefix_full, node_wf, unescape, Atom, Node, items_ok, lemma_nodes_wf_items_ok, nodes_wf,
    node_depth, items_depth, is_symbol_node, lemma_items_depth_bound, lemma_items_depth_each_pub,
};
use crate::sexpr_utils::{
    any_with_head, atom_string, find_last, has_head, head_is, head_of, last_head_index, lemma_last_head_index,
    list_items, nth_atom_string, nth_string, ov, Real, count_head, last_second_string, last_with_head, head_in,
    unknown_lists,
};
use crate::text::{int_text, is_digit, lemma_int_text_digits, owned, push_char, str_eq, to_chars};

verus! {

/// Two nodes are atoms with the same value and kind.
pub open spec fn same_atom_node(a: Node, b: Node) -> bool {
    match (a, b) {
        (Node::Atom { atom: x, .. }, Node::Atom { atom: y, .. }) => same_atom(x, y),
        _ => false,
    }
}

/// `b` is `a` with its leading whitespace replaced by `lead`.
pub open spec fn relead(a: Node, b: Node, lead: Seq<char>) -> bool {
    match (a, b) {
        (Node::Atom { atom: a1, raw: r1, .. }, Node::Atom { lead: l2, atom: a2, raw: r2 }) =>
            a1 == a2 && r1 == r2 && l2@ == lead,
        (Node::List { items: i1, tail: t1, .. }, Node::List { lead: l2, items: i2, tail: t2 }) =>
            i1@ == i2@ && t1 == t2 && l2@ == lead,
        _ => false,
    }
}

/// The item at `j` is a bare symbol written right after another one, with no
/// whitespace between them: the two would read back as one symbol.
pub open spec fn needs_space(s: Seq<Node>, j: int) -> bool {
    &&& 1 <= j < s.len()
    &&& is_symbol_node(s[j - 1])
    &&& is_symbol_node(s[j])
    &&& lead_of(s[j]).len() == 0
}

/// `r` is `s` with one space written before each symbol that would otherwise
/// run into the symbol before it; nothing else changes.
pub open spec fn respaced(s: Seq<Node>, r: Seq<Node>) -> bool {
    &&& r.len() == s.len()
    &&& forall|j: int|
        0 <= j < s.len() ==> if needs_space(s, j) {
            relead(s[j], #[trigger] r[j], seq![' '])
        } else {
            r[j] == s[j]
        }
}

fn is_symbol_exec(n: &Node) -> (r: bool)
    ensures
        r == is_symbol_node(*n),
{
    match n {
        Node::Atom { atom: Atom::Symbol(_), .. } => true,
        _ => false,
    }
}

fn lead_is_empty(n: &Node) -> (r: bool)
    ensures
        r == (lead_of(*n).len() == 0),
{
    match n {
        Node::Atom { lead, .. } => to_chars(lead.as_str()).len() == 0,
        Node::List { lead, .. } => to_chars(lead.as_str()).len() == 0,
    }
}

/// Writes one space before each symbol that would run into the symbol before
/// it (see `respaced`).
pub fn respace(items: Vec<Node>) -> (r: Vec<Node>)
    ensures
        respaced(items@, r@),
{
    let mut items = items;
    let ghost orig = items@;
    let mut i: usize = 1;
    while i < items.len()
        invariant
            1 <= i,
            items@.len() == orig.len(),
            forall|j: int|
                0 <= j < orig.len() ==> if j < i && needs_space(orig, j) {
                    relead(orig[j], #[trigger] items@[j], seq![' '])
                } else {
                    items@[j] == orig[j]
                },
        decreases items.len() - i,
    {
        assert(items@[i as int] == orig[i as int]);
        let prev_sym = is_symbol_exec(&items[i - 1]);
        proof {
            if i - 1 >= 1 && needs_space(orig, i - 1) {
                assert(relead(orig[i - 1], items@[i - 1], seq![' ']));
            } else {
                assert(items@[i - 1] == orig[i - 1]);
            }
            assert(prev_sym == is_symbol_node(orig[i - 1]));
        }
        let ghost before_all = items@;
        if prev_sym && is_symbol_exec(&items[i]) && lead_is_empty(&items[i]) {
            let ghost before = items@;
            let old = items.remove(i);
            proof {
                reveal_strlit(" ");
            }
            let sp = owned(" ");
            assert(sp@ =~= seq![' ']);
            let w = set_lead(old, sp);
            items.insert(i, w);
            assert(items@ =~= before.update(i as int, w));
            assert(needs_space(orig, i as int));
            assert(relead(orig[i as int], items@[i as int], seq![' ']));
        } else {
            assert(!needs_space(orig, i as int));
        }
        assert forall|j: int| 0 <= j < orig.len() && j != i implies items@[j] == before_all[j] by {}
        i = i + 1;
    }
    items
}

/// Respacing keeps every list, and every atom's kind and value.
pub proof fn lemma_respaced_keeps(s: Seq<Node>, r: Seq<Node>)
    requires
        respaced(s, r),
    ensures
        forall|j: int|
            0 <= j < s.len() ==> {
                &&& head_of(#[trigger] r[j]) == head_of(s[j])
                &&& atom_string(r[j]) == atom_string(s[j])
                &&& is_symbol_node(r[j]) == is_symbol_node(s[j])
                &&& (s[j] is List ==> r[j] == s[j])
                &&& (r[j] is List <==> s[j] is List)
                &&& node_depth(r[j]) == node_depth(s[j])
                &&& (forall|i: int| nth_atom_string(r[j], i) == nth_atom_string(s[j], i))
            },
        s.len() > 0 ==> r[0] == s[0],
{
    assert forall|j: int| 0 <= j < s.len() implies {
        &&& head_of(#[trigger] r[j]) == head_of(s[j])
        &&& atom_string(r[j]) == atom_string(s[j])
        &&& is_symbol_node(r[j]) == is_symbol_node(s[j])
        &&& (s[j] is List ==> r[j] == s[j])
        &&& (r[j] is List <==> s[j] is List)
        &&& node_depth(r[j]) == node_depth(s[j])
        &&& (forall|i: int| nth_atom_string(r[j], i) == nth_atom_string(s[j], i))
    } by {
        if needs_space(s, j) {
            assert(relead(s[j], r[j], seq![' ']));
        }
    }
}

/// Respacing well-formed items gives items that read back one by one.
pub proof fn lemma_respaced_ok(s: Seq<Node>, r: Seq<Node>)
    requires
        respaced(s, r),
        forall|j: int| 0 <= j < s.len() ==> node_wf(#[trigger] s[j]),
    ensures
        items_ok(r),
        nodes_wf(r),
        items_depth(r) == items_depth(s),
{
    lemma_respaced_keeps(s, r);
    assert forall|j: int| 0 <= j < r.len() implies node_wf(#[trigger] r[j]) by {
        assert(node_wf(s[j]));
        if needs_space(s, j) {
            assert(relead(s[j], r[j], seq![' ']));
            assert(all_ws(seq![' ']));
        }
    }
    assert forall|j: int| 1 <= j < r.len() implies !(is_symbol_node(r[j - 1]) && is_symbol_node(#[trigger] r[j])
        && lead_of(r[j]).len() == 0) by {
        if needs_space(s, j) {
            assert(relead(s[j], r[j], seq![' ']));
        } else {
            assert(r[j] == s[j]);
            assert(is_symbol_node(r[j - 1]) == is_symbol_node(s[j - 1]));
        }
    }
    lemma_nodes_wf_items_ok(r);
    lemma_items_depth_same(s, r);
}

proof fn lemma_items_depth_same(s: Seq<Node>, r: Seq<Node>)
    requires
        s.len() == r.len(),
        forall|j: int| 0 <= j < s.len() ==> node_depth(#[trigger] r[j]) == node_depth(s[j]),
    ensures
        items_depth(r) == items_depth(s),
    decreases s.len(),
{
    if s.len() > 0 {
        assert forall|j: int| 0 <= j < s.drop_last().len() implies node_depth(#[trigger] r.drop_last()[j]) == node_depth(
            s.drop_last()[j],
        ) by {
            assert(r.drop_last()[j] == r[j]);
            assert(s.drop_last()[j] == s[j]);
        }
        lemma_items_depth_same(s.drop_last(), r.drop_last());
        assert(node_depth(r[r.len() - 1]) == node_depth(s[s.len() - 1]));
    }
}

/// `b` is the list `a` with its items replaced by `items`.
pub open spec fn with_items(a: Node, b: Node, items: Seq<Node>) -> bool {
    &&& a is List
    &&& b is List
    &&& a->List_lead == b->List_lead
    &&& a->tail == b->tail
    &&& b->items@ == items
}

/// `new` is the list `old` whose item at `k` now holds `v` (written with the
/// old item's leading whitespace, and respaced so that no two bare symbols
/// run together). Where that item already holds the same atom, nothing
/// changes; where the list is one item short, `v` is appended.
pub open spec fn slot_set(old: Node, new: Node, k: int, v: Node) -> bool {
    let items = list_items(old);
    if !(old is List) {
        new == old
    } else if items.len() > k {
        if same_atom_node(items[k], v) {
            new == old
        } else {
            exists|w: Node|
                #![trigger relead(v, w, lead_of(items[k]))]
                relead(v, w, lead_of(items[k])) && with_items(old, new, list_items(new)) && respaced(
                    items.update(k, w),
                    list_items(new),
                )
        }
    } else if items.len() == k {
        with_items(old, new, items.push(v))
    } else {
        new == old
    }
}

/// Escaping a string and reading the escaped text back gives the string:
/// every value written as a quoted atom reads as itself.
pub proof fn lemma_escape_roundtrip(v: Seq<char>)
    ensures
        body_ok(escape(v)),
        unescape(escape(v)) == v,
    decreases v.len(),
{
    if v.len() > 0 {
        let c = v[0];
        let rest = escape(v.drop_first());
        lemma_escape_roundtrip(v.drop_first());
        let e = escape_char(c) + rest;
        assert(escape(v) == e);
        if c == '"' || c == '\\' || c == '\n' || c == '\t' || c == '\r' {
            assert(e.subrange(2, e.len() as int) =~= rest);
            assert(e[0] == '\\');
        } else {
            assert(e.drop_first() =~= rest);
        }
        assert(unescape(e) =~= v);
    } else {
        assert(escape(v) =~= Seq::<char>::empty());
    }
}

fn text_is_symbol(s: &String) -> (r: bool)
    ensures
        r == is_symbol_text(s@),
{
    let cs = to_chars(s.as_str());
    if cs.len() == 0 {
        return false;
    }
    let mut i: usize = 0;
    while i < cs.len()
        invariant
            i <= cs.len(),
            cs@ == s@,
            forall|k: int| 0 <= k < i ==> is_symbol_char(#[trigger] cs@[k]),
        decreases cs.len() - i,
    {
        let c = cs[i];
        if c == ' ' || c == '\t' || c == '\n' || c == '\r' || c == '(' || c == ')' || c == '"' {
            return false;
        }
        i = i + 1;
    }
    true
}

fn escaped_text(v: &String) -> (r: String)
    ensures
        r@ == seq!['"'] + escape(v@) + seq!['"'],
{
    let cs = to_chars(v.as_str());
    let mut out = String::new();
    push_char(&mut out, '"');
    let mut k: usize = 0;
    while k < cs.len()
        invariant
            k <= cs.len(),
            cs@ == v@,
            out@ == seq!['"'] + escape_prefix(cs@, k as int),
        decreases cs.len() - k,
    {
        let c = cs[k];
        if c == '"' {
            push_char(&mut out, '\\');
            push_char(&mut out, '"');
        } else if c == '\\' {
            push_char(&mut out, '\\');
            push_char(&mut out, '\\');
        } else if c == '\n' {
            push_char(&mut out, '\\');
            push_char(&mut out, 'n');
        } else if c == '\t' {
            push_char(&mut out, '\\');
            push_char(&mut out, 't');
        } else if c == '\r' {
            push_char(&mut out, '\\');
            push_char(&mut out, 'r');
        } else {
            push_char(&mut out, c);
        }
        assert(out@ =~= seq!['"'] + escape_prefix(cs@, k + 1));
        k = k + 1;
    }
    proof {
        lemma_escape_prefix_full(cs@);
    }
    push_char(&mut out, '"');
    out
}

/// A quoted-string atom for `value`, preceded by `lead`.
fn quoted_node(value: String, lead: String) -> (n: Node)
    ensures
        n matches Node::Atom { lead: l, atom: Atom::Quoted(s), .. } && l@ == lead@ && s@ == value@,
        n->raw@ == seq!['"'] + escape(value@) + seq!['"'],
        atom_string(n) == Some(value@),
        all_ws(lead@) ==> node_wf(n),
{
    let raw = escaped_text(&value);
    proof {
        lemma_escape_roundtrip(value@);
        let r = raw@;
        assert(r.subrange(1, r.len() - 1) =~= escape(value@));
    }
    Node::Atom { lead, atom: Atom::Quoted(value), raw }
}

/// A new quoted-string atom for `value`, preceded by one space.
pub open spec fn quoted_atom(v: Node, value: Seq<char>) -> bool {
    &&& v is Atom
    &&& lead_of(v) == seq![' ']
    &&& atom_string(v) == Some(value)
    &&& v->atom is Quoted
    &&& v->raw@ == seq!['"'] + escape(value) + seq!['"']
    &&& node_wf(v)
}

/// A new atom for `value`, preceded by one space: a bare symbol where `value`
/// can stand as one, else a quoted string.
pub open spec fn symbol_atom(v: Node, value: Seq<char>) -> bool {
    &&& v is Atom
    &&& lead_of(v) == seq![' ']
    &&& atom_string(v) == Some(value)
    &&& (v->atom is Symbol <==> is_symbol_text(value))
    &&& v->raw@ == (if is_symbol_text(value) { value } else { seq!['"'] + escape(value) + seq!['"'] })
    &&& node_wf(v)
}

/// A quoted-string atom for `value`, preceded by one space.
pub fn atom_quoted(value: String) -> (n: Node)
    ensures
        n matches Node::Atom { lead, atom: Atom::Quoted(s), .. } && lead@ == seq![' '] && s@ == value@,
        atom_string(n) == Some(value@),
        node_wf(n),
        quoted_atom(n, value@),
{
    proof {
        reveal_strlit(" ");
    }
    let n = quoted_node(value, owned(" "));
    assert(lead_of(n) == seq![' ']);
    n
}

/// A bare-symbol atom for `value`, preceded by one space; a value that cannot
/// stand as a bare symbol is quoted instead.
pub fn atom_symbol(value: String) -> (n: Node)
    ensures
        n is Atom,
        lead_of(n) == seq![' '],
        atom_string(n) == Some(value@),
        is_symbol_text(value@) ==> n->atom == Atom::Symbol(value),
        !is_symbol_text(value@) ==> (n->atom matches Atom::Quoted(s) && s@ == value@),
        node_wf(n),
        symbol_atom(n, value@),
{
    if text_is_symbol(&value) {
        let raw = value.clone();
        proof {
            reveal_strlit(" ");
        }
        Node::Atom { lead: owned(" "), atom: Atom::Symbol(value), raw }
    } else {
        atom_quoted(value)
    }
}

fn same_atom_exec(a: &Node, b: &Node) -> (r: bool)
    ensures
        r == same_atom_node(*a, *b),
{
    match (a, b) {
        (Node::Atom { atom: x, .. }, Node::Atom { atom: y, .. }) => match (x, y) {
            (Atom::Symbol(p), Atom::Symbol(q)) => str_eq(p.as_str(), q.as_str()),
            (Atom::Quoted(p), Atom::Quoted(q)) => str_eq(p.as_str(), q.as_str()),
            _ => false,
        },
        _ => false,
    }
}

/// A copy of an atom node.
pub fn clone_atom(n: &Node) -> (r: Node)
    requires
        n is Atom,
    ensures
        r == *n,
{
    match n {
        Node::Atom { lead, atom, raw } => {
            let a = match atom {
                Atom::Symbol(s) => Atom::Symbol(s.clone()),
                Atom::Quoted(s) => Atom::Quoted(s.clone()),
            };
            Node::Atom { lead: lead.clone(), atom: a, raw: raw.clone() }
        },
        Node::List { .. } => {
            proof {
                assert(false);
            }
            Node::Atom { lead: String::new(), atom: Atom::Symbol(String::new()), raw: String::new() }
        },
    }
}

fn take_lead(n: Node) -> (r: String)
    ensures
        r@ == lead_of(n),
{
    match n {
        Node::Atom { lead, .. } => lead,
        Node::List { lead, .. } => lead,
    }
}

/// `v` written with another leading whitespace.
pub fn set_lead(v: Node, lead: String) -> (r: Node)
    ensures
        relead(v, r, lead@),
{
    match v {
        Node::Atom { atom, raw, .. } => Node::Atom { lead, atom, raw },
        Node::List { items, tail, .. } => Node::List { lead, items, tail },
    }
}

/// Puts `v` into slot `k` of the list `n` (see `slot_set`).
pub fn set_slot(n: Node, k: usize, v: Node) -> (r: Node)
    ensures
        slot_set(n, r, k as int, v),
{
    match n {
        Node::List { lead, mut items, tail } => {
            let ghost old_items = items@;
            let ghost old_n = Node::List { lead, items, tail };
            if items.len() > k {
                if same_atom_exec(&items[k], &v) {
                    return Node::List { lead, items, tail };
                }
                let old = items.remove(k);
                let w = set_lead(v, take_lead(old));
                items.insert(k, w);
                assert(items@ =~= old_items.update(k as int, w));
                let items = respace(items);
                let r = Node::List { lead, items, tail };
                assert(relead(v, w, lead_of(old_items[k as int])));
                assert(with_items(old_n, r, list_items(r)));
                r
            } else if items.len() == k {
                items.push(v);
                Node::List { lead, items, tail }
            } else {
                Node::List { lead, items, tail }
            }
        },
        Node::Atom { lead, atom, raw } => Node::Atom { lead, atom, raw },
    }
}

/// A new list `(h v)`, preceded by one space.
pub open spec fn scalar_node(m: Node, h: Seq<char>, v: Node) -> bool {
    &&& m is List
    &&& m->List_lead@ == seq![' ']
    &&& m->tail@ == Seq::<char>::empty()
    &&& m->items@.len() == 2
    &&& m->items@[0] matches Node::Atom { lead, atom: Atom::Symbol(s), raw } && lead@ == Seq::<char>::empty() && s@ == h && raw@ == h
    &&& m->items@[1] == v
}

/// A new list `(h v)`.
pub fn new_scalar(h: &str, v: Node) -> (m: Node)
    ensures
        scalar_node(m, h@, v),
{
    let mut items: Vec<Node> = Vec::new();
    let hd = Node::Atom { lead: String::new(), atom: Atom::Symbol(owned(h)), raw: owned(h) };
    items.push(hd);
    items.push(v);
    proof {
        reveal_strlit(" ");
    }
    let m = Node::List { lead: owned(" "), items, tail: String::new() };
    assert(m->items@[0] == hd);
    assert(m->items@[1] == v);
    assert(m->List_lead@ == seq![' ']);
    assert(m->tail@ == Seq::<char>::empty());
    assert(m->items@.len() == 2);
    assert(hd matches Node::Atom { lead, atom: Atom::Symbol(s), raw } && lead@ == Seq::<char>::empty() && s@ == h@ && raw@ == h@);
    m
}

/// Where a new item goes when it is inserted at `from`.
pub open spec fn insert_pos(len: int, from: int) -> int {
    if from <= len {
        from
    } else {
        len
    }
}

/// `new` is `old` where every item at `from` or later that `sel` selects is
/// changed as `step` says and every other item is kept.
pub open spec fn updated_where(
    old: Seq<Node>,
    new: Seq<Node>,
    from: int,
    sel: spec_fn(Node) -> bool,
    step: spec_fn(Node, Node) -> bool,
) -> bool {
    &&& new.len() == old.len()
    &&& forall|i: int|
        0 <= i < old.len() ==> if i >= from && sel(old[i]) {
            step(old[i], #[trigger] new[i])
        } else {
            new[i] == old[i]
        }
}

/// Sets the value of every scalar `(h ...)` at `from` or later to the atom `v`,
/// or inserts `(h v)` at `from` when there is none.
pub open spec fn scalar_upserted(old: Seq<Node>, new: Seq<Node>, from: int, h: Seq<char>, v: Node) -> bool {
    if has_head(old, from, h) {
        updated_where(old, new, from, |n: Node| head_of(n) == Some(h), |a: Node, b: Node| slot_set(a, b, 1, v))
    } else {
        exists|m: Node| #[trigger] scalar_node(m, h, v) && new == old.insert(insert_pos(old.len() as int, from), m)
    }
}

/// Gives every item at `from` or later whose head is `h` the atom `v` in
/// slot `k`.
fn set_slots_with_head(items: Vec<Node>, from: usize, h: &str, k: usize, v: &Node) -> (r: Vec<Node>)
    requires
        v is Atom,
    ensures
        updated_where(items@, r@, from as int, |n: Node| head_of(n) == Some(h@), |a: Node, b: Node| slot_set(a, b, k as int, *v)),
{
    let mut items = items;
    let ghost orig = items@;
    let mut i: usize = 0;
    while i < items.len()
        invariant
            i <= items.len(),
            v is Atom,
            items@.len() == orig.len(),
            forall|j: int| 0 <= j < orig.len() ==> if j < i && j >= from && head_of(orig[j]) == Some(h@) {
                slot_set(orig[j], #[trigger] items@[j], k as int, *v)
            } else {
                items@[j] == orig[j]
            },
        decreases items.len() - i,
    {
        if i >= from && head_is(&items[i], h) {
            let ghost before = items@;
            assert(before[i as int] == orig[i as int]);
            let old = items.remove(i);
            let nw = set_slot(old, k, clone_atom(v));
            items.insert(i, nw);
            assert(items@ =~= before.update(i as int, nw));
            assert(slot_set(orig[i as int], items@[i as int], k as int, *v));
        }
        assert forall|j: int| 0 <= j < orig.len() implies if j < i + 1 && j >= from && head_of(orig[j]) == Some(h@) {
            slot_set(orig[j], #[trigger] items@[j], k as int, *v)
        } else {
            items@[j] == orig[j]
        } by {
        }
        i = i + 1;
    }
    items
}

/// Sets the value of every `(h ...)` at `from` or later to the atom `v`, or
/// inserts `(h v)` at `from` when there is none.
pub fn upsert_scalar(items: Vec<Node>, from: usize, h: &str, v: Node) -> (r: Vec<Node>)
    requires
        v is Atom,
    ensures
        scalar_upserted(items@, r@, from as int, h@, v),
{
    if any_with_head(&items, from, h) {
        set_slots_with_head(items, from, h, 1, &v)
    } else {
        let mut items = items;
        let pos = if from <= items.len() { from } else { items.len() };
        let m = new_scalar(h, v);
        items.insert(pos, m);
        items
    }
}

/// A `(property "key" ...)` item.
pub open spec fn is_prop(n: Node, key: Seq<char>) -> bool {
    head_of(n) == Some("property"@) && nth_atom_string(n, 1) == Some(key)
}

pub open spec fn has_prop(s: Seq<Node>, from: int, key: Seq<char>) -> bool {
    exists|i: int| 0 <= i && from <= i < s.len() && is_prop(#[trigger] s[i], key)
}

/// The index of the first `(property "key" ...)` at `from` or later.
pub open spec fn first_prop(s: Seq<Node>, from: int, key: Seq<char>) -> Option<int>
    decreases s.len(),
{
    if s.len() == 0 {
        None
    } else {
        match first_prop(s.drop_last(), from, key) {
            Some(i) => Some(i),
            None => if s.len() - 1 >= from && is_prop(s.last(), key) {
                Some(s.len() - 1)
            } else {
                None
            },
        }
    }
}

/// The value of the first `(property "key" "value" ...)` at `from` or later.
pub open spec fn prop_value(s: Seq<Node>, from: int, key: Seq<char>) -> Option<Seq<char>> {
    match first_prop(s, from, key) {
        Some(i) => nth_atom_string(s[i], 2),
        None => None,
    }
}

/// A new `(property "key" v)`, preceded by one space.
pub open spec fn property_node(m: Node, key: Seq<char>, v: Node) -> bool {
    &&& m is List
    &&& m->List_lead@ == seq![' ']
    &&& m->tail@ == Seq::<char>::empty()
    &&& m->items@.len() == 3
    &&& m->items@[0] matches Node::Atom { lead, atom: Atom::Symbol(s), raw } && lead@ == Seq::<char>::empty() && s@ == "property"@ && raw@ == "property"@
    &&& m->items@[1] matches Node::Atom { atom: Atom::Quoted(k), .. } && k@ == key && node_wf(m->items@[1])
    &&& lead_of(m->items@[1]) == seq![' ']
    &&& m->items@[2] == v
}

/// Sets the value of every `(property "key" ...)` at `from` or later to `v`,
/// keeping what follows the value; appends `(property "key" v)` when there is
/// none.
pub open spec fn property_upserted(old: Seq<Node>, new: Seq<Node>, from: int, key: Seq<char>, v: Node) -> bool {
    if has_prop(old, from, key) {
        updated_where(old, new, from, |n: Node| is_prop(n, key), |a: Node, b: Node| slot_set(a, b, 2, v))
    } else {
        exists|m: Node| #[trigger] property_node(m, key, v) && new == old.push(m)
    }
}

/// `old` without the `(property "key" ...)` items at `from` or later.
pub open spec fn without_prop(s: Seq<Node>, from: int, key: Seq<char>) -> Seq<Node>
    decreases s.len(),
{
    if s.len() == 0 {
        s
    } else if s.len() - 1 >= from && is_prop(s.last(), key) {
        without_prop(s.drop_last(), from, key)
    } else {
        without_prop(s.drop_last(), from, key).push(s.last())
    }
}

pub fn is_prop_exec(n: &Node, key: &str) -> (r: bool)
    ensures
        r == is_prop(*n, key@),
{
    if !head_is(n, "property") {
        return false;
    }
    match nth_string(n, 1) {
        Some(k) => str_eq(k.as_str(), key),
        None => false,
    }
}

proof fn lemma_first_prop_extend(s: Seq<Node>, j: int, from: int, key: Seq<char>, i: int)
    requires
        0 <= j <= s.len(),
        first_prop(s.subrange(0, j), from, key) == Some(i),
    ensures
        first_prop(s, from, key) == Some(i),
    decreases s.len() - j,
{
    if j == s.len() {
        assert(s.subrange(0, j) =~= s);
    } else {
        assert(s.subrange(0, j + 1).drop_last() =~= s.subrange(0, j));
        lemma_first_prop_extend(s, j + 1, from, key, i);
    }
}

/// The index of the first `(property "key" ...)` at `from` or later.
pub fn find_property_index(items: &Vec<Node>, from: usize, key: &str) -> (r: Option<usize>)
    ensures
        match r {
            Some(i) => first_prop(items@, from as int, key@) == Some(i as int) && i < items.len(),
            None => first_prop(items@, from as int, key@) is None,
        },
{
    let mut i: usize = 0;
    while i < items.len()
        invariant
            i <= items.len(),
            first_prop(items@.subrange(0, i as int), from as int, key@) is None,
        decreases items.len() - i,
    {
        let ghost sub = items@.subrange(0, i + 1);
        assert(sub.drop_last() =~= items@.subrange(0, i as int));
        if i >= from && is_prop_exec(&items[i], key) {
            proof {
                lemma_first_prop_extend(items@, i + 1, from as int, key@, i as int);
            }
            return Some(i);
        }
        i = i + 1;
    }
    assert(items@.subrange(0, items.len() as int) =~= items@);
    None
}

/// The value of the first `(property "key" "value" ...)` at `from` or later.
pub fn get_property_value(items: &Vec<Node>, from: usize, key: &str) -> (r: Option<String>)
    ensures
        ov(r) == prop_value(items@, from as int, key@),
{
    match find_property_index(items, from, key) {
        Some(i) => nth_string(&items[i], 2),
        None => None,
    }
}

fn any_prop(items: &Vec<Node>, from: usize, key: &str) -> (r: bool)
    ensures
        r == has_prop(items@, from as int, key@),
{
    let mut i: usize = from;
    while i < items.len()
        invariant
            from <= i,
            forall|k: int| from <= k < i ==> !is_prop(#[trigger] items@[k], key@),
        decreases items.len() - i,
    {
        if is_prop_exec(&items[i], key) {
            return true;
        }
        i = i + 1;
    }
    false
}

/// Sets `(property "key" value)` among the items at `from` or later (see
/// `property_upserted`); `v` is the atom that holds the value.
pub fn upsert_property(items: Vec<Node>, from: usize, key: &str, v: Node) -> (r: Vec<Node>)
    requires
        v is Atom,
    ensures
        property_upserted(items@, r@, from as int, key@, v),
{
    let mut items = items;
    if any_prop(&items, from, key) {
        let ghost orig = items@;
        let mut i: usize = 0;
        while i < items.len()
            invariant
                i <= items.len(),
                v is Atom,
                items@.len() == orig.len(),
                forall|j: int| 0 <= j < orig.len() ==> if j < i && j >= from && is_prop(orig[j], key@) {
                    slot_set(orig[j], #[trigger] items@[j], 2, v)
                } else {
                    items@[j] == orig[j]
                },
            decreases items.len() - i,
        {
            if i >= from && is_prop_exec(&items[i], key) {
                let ghost before = items@;
                assert(before[i as int] == orig[i as int]);
                let old = items.remove(i);
                let nw = set_slot(old, 2, clone_atom(&v));
                items.insert(i, nw);
                assert(items@ =~= before.update(i as int, nw));
            }
            assert forall|j: int| 0 <= j < orig.len() implies if j < i + 1 && j >= from && is_prop(orig[j], key@) {
                slot_set(orig[j], #[trigger] items@[j], 2, v)
            } else {
                items@[j] == orig[j]
            } by {
            }
            i = i + 1;
        }
        items
    } else {
        let mut parts: Vec<Node> = Vec::new();
        let hd = Node::Atom { lead: String::new(), atom: Atom::Symbol(owned("property")), raw: owned("property") };
        proof {
            reveal_strlit(" ");
        }
        let k = quoted_node(owned(key), owned(" "));
        parts.push(hd);
        parts.push(k);
        parts.push(v);
        proof {
            reveal_strlit(" ");
        }
        let m = Node::List { lead: owned(" "), items: parts, tail: String::new() };
        assert(m->items@[0] == hd);
        assert(m->items@[1] == k);
        assert(hd matches Node::Atom { lead, atom: Atom::Symbol(s), raw } && lead@ == Seq::<char>::empty() && s@ == "property"@ && raw@ == "property"@);
        assert(m->items@.len() == 3);
        assert(m->List_lead@ == seq![' ']);
        assert(m->tail@ == Seq::<char>::empty());
        assert(m->items@[2] == v);
        assert(all_ws(seq![' ']));
        assert(node_wf(k));
        assert(m->items@[1] matches Node::Atom { atom: Atom::Quoted(kk), .. } && kk@ == key@);
        assert(property_node(m, key@, v));
        items.push(m);
        items
    }
}

/// Drops every `(property "key" ...)` at `from` or later.
fn remove_property_items(items: Vec<Node>, from: usize, key: &str) -> (r: Vec<Node>)
    ensures
        r@ == without_prop(items@, from as int, key@),
{
    let mut items = items;
    let ghost orig = items@;
    let mut i: usize = items.len();
    assert(orig.subrange(0, i as int) =~= orig);
    assert(without_prop(orig, from as int, key@) =~= without_prop(orig.subrange(0, i as int), from as int, key@) + items@.subrange(i as int, items@.len() as int));
    while i > 0
        invariant
            i <= items.len(),
            i <= orig.len(),
            items@.subrange(0, i as int) == orig.subrange(0, i as int),
            without_prop(orig, from as int, key@) == without_prop(orig.subrange(0, i as int), from as int, key@) + items@.subrange(i as int, items@.len() as int),
        decreases i,
    {
        let ghost pre = orig.subrange(0, i as int);
        let ghost rest = items@.subrange(i as int, items@.len() as int);
        assert(pre.drop_last() =~= orig.subrange(0, i - 1));
        assert(pre.last() == orig[i - 1]);
        assert(items@[i - 1] == orig[i - 1]) by {
            assert(items@.subrange(0, i as int)[i - 1] == items@[i - 1]);
        }
        if i - 1 >= from && is_prop_exec(&items[i - 1], key) {
            let ghost before = items@;
            items.remove(i - 1);
            assert(items@.subrange(0, i - 1) =~= before.subrange(0, i - 1));
            assert(items@.subrange(i - 1, items@.len() as int) =~= rest);
        } else {
            assert(items@.subrange(i - 1, items@.len() as int) =~= seq![orig[i - 1]] + rest);
            assert(without_prop(pre, from as int, key@) == without_prop(orig.subrange(0, i - 1), from as int, key@).push(orig[i - 1]));
            assert(without_prop(pre, from as int, key@) + rest =~= without_prop(orig.subrange(0, i - 1), from as int, key@) + (seq![orig[i - 1]] + rest));
        }
        assert(items@.subrange(0, i - 1) =~= orig.subrange(0, i - 1)) by {
            assert forall|k: int| 0 <= k < i - 1 implies items@[k] == orig[k] by {
                assert(items@.subrange(0, i - 1)[k] == items@[k]);
            }
        }
        i = i - 1;
    }
    assert(orig.subrange(0, 0) =~= Seq::<Node>::empty());
    assert(items@.subrange(0, items@.len() as int) =~= items@);
    items
}


/// Puts `node` in place of the last `(h ...)` at `from` or later, written with
/// that item's leading whitespace; inserts `node` at `from` when there is none.
pub open spec fn node_upserted(old: Seq<Node>, new: Seq<Node>, from: int, h: Seq<char>, node: Node) -> bool {
    match last_head_index(old, from, h) {
        Some(i) => {
            &&& new.len() == old.len()
            &&& forall|j: int| 0 <= j < old.len() && j != i ==> new[j] == old[j]
            &&& relead(node, new[i], lead_of(old[i]))
        },
        None => new == old.insert(insert_pos(old.len() as int, from), node),
    }
}

/// Replaces the last `(h ...)` at `from` or later by `node`, or inserts it
/// (see `node_upserted`).
pub fn upsert_node(items: Vec<Node>, from: usize, h: &str, node: Node) -> (r: Vec<Node>)
    ensures
        node_upserted(items@, r@, from as int, h@, node),
{
    let mut items = items;
    match find_last(&items, from, h) {
        Some(i) => {
            let ghost before = items@;
            let old = items.remove(i);
            let w = set_lead(node, take_lead(old));
            items.insert(i, w);
            assert(items@ =~= before.update(i as int, w));
            assert(relead(node, w, lead_of(before[i as int])));
            assert(node_upserted(before, items@, from as int, h@, node));
            items
        },
        None => {
            let ghost before = items@;
            let pos = if from <= items.len() { from } else { items.len() };
            items.insert(pos, node);
            assert(node_upserted(before, items@, from as int, h@, node));
            items
        },
    }
}

/// A new list `(sec (h v))`, preceded by one space.
pub open spec fn section_node(m: Node, sec: Seq<char>, h: Seq<char>, v: Node) -> bool {
    &&& m is List
    &&& m->List_lead@ == seq![' ']
    &&& m->tail@ == Seq::<char>::empty()
    &&& m->items@.len() == 2
    &&& m->items@[0] matches Node::Atom { lead, atom: Atom::Symbol(s), raw } && lead@ == Seq::<char>::empty() && s@
        == sec && raw@ == sec
    &&& scalar_node(m->items@[1], h, v)
}

/// Sets `(h v)` inside the last `(sec ...)` at `from` or later, as
/// `scalar_upserted` does from the section's second item on; inserts
/// `(sec (h v))` at `from` when there is no such section.
pub open spec fn section_scalar_upserted(
    old: Seq<Node>,
    new: Seq<Node>,
    from: int,
    sec: Seq<char>,
    h: Seq<char>,
    v: Node,
) -> bool {
    match last_head_index(old, from, sec) {
        Some(i) => {
            &&& new.len() == old.len()
            &&& forall|j: int| 0 <= j < old.len() && j != i ==> new[j] == old[j]
            &&& with_items(old[i], new[i], list_items(new[i]))
            &&& scalar_upserted(list_items(old[i]), list_items(new[i]), 1, h, v)
        },
        None => exists|m: Node|
            #[trigger] section_node(m, sec, h, v) && new == old.insert(insert_pos(old.len() as int, from), m),
    }
}

fn new_section(sec: &str, h: &str, v: Node) -> (m: Node)
    ensures
        section_node(m, sec@, h@, v),
{
    let child = new_scalar(h, v);
    let mut items: Vec<Node> = Vec::new();
    let hd = Node::Atom { lead: String::new(), atom: Atom::Symbol(owned(sec)), raw: owned(sec) };
    items.push(hd);
    items.push(child);
    proof {
        reveal_strlit(" ");
    }
    let m = Node::List { lead: owned(" "), items, tail: String::new() };
    assert(m->items@[0] == hd);
    assert(m->items@[1] == child);
    assert(m->items@.len() == 2);
    assert(m->List_lead@ == seq![' ']);
    assert(m->tail@ == Seq::<char>::empty());
    m
}

/// Sets `(h v)` inside the section `(sec ...)` (see
/// `section_scalar_upserted`).
pub fn upsert_section_child_scalar(items: Vec<Node>, from: usize, sec: &str, h: &str, v: Node) -> (r: Vec<Node>)
    requires
        v is Atom,
    ensures
        section_scalar_upserted(items@, r@, from as int, sec@, h@, v),
{
    let mut items = items;
    match find_last(&items, from, sec) {
        Some(i) => {
            proof {
                lemma_last_head_index(items@, from as int, sec@);
            }
            let ghost before = items@;
            let old = items.remove(i);
            match old {
                Node::List { lead, items: inner, tail } => {
                    let ghost old_inner = inner@;
                    let inner2 = upsert_scalar(inner, 1, h, v);
                    let n = Node::List { lead, items: inner2, tail };
                    items.insert(i, n);
                    assert(items@ =~= before.update(i as int, n));
                    assert(list_items(before[i as int]) == old_inner);
                    items
                },
                Node::Atom { .. } => {
                    proof {
                        assert(false);
                    }
                    items
                },
            }
        },
        None => {
            let pos = if from <= items.len() { from } else { items.len() };
            let m = new_section(sec, h, v);
            items.insert(pos, m);
            items
        },
    }
}

/// Every item after the head is written after one space.
pub open spec fn spaced_items(m: Node) -> bool {
    forall|j: int| 1 <= j < m->items@.len() ==> lead_of(#[trigger] m->items@[j]) == seq![' ']
}

/// `(paper "kind")`, or `(paper "kind" orientation)`: well formed, each item
/// after the head written after one space, the kind quoted, the orientation
/// as `symbol_atom` writes it.
pub open spec fn paper_standard_shape(m: Node, kind: Seq<char>, orientation: Option<Seq<char>>) -> bool {
    &&& node_wf(m)
    &&& node_depth(m) <= 1
    &&& spaced_items(m)
    &&& quoted_atom(m->items@[1], kind)
    &&& m is List
    &&& m->List_lead@ == seq![' ']
    &&& m->tail@ == Seq::<char>::empty()
    &&& head_of(m) == Some("paper"@)
    &&& m->items@[1] matches Node::Atom { atom: Atom::Quoted(k), .. } && k@ == kind
    &&& match orientation {
        Some(o) => m->items@.len() == 3 && symbol_atom(m->items@[2], o),
        None => m->items@.len() == 2,
    }
}

/// `(paper "User" width height)`, or with an orientation after the height:
/// well formed, each item after the head written after one space, each value
/// as `symbol_atom` writes it.
pub open spec fn paper_user_shape(m: Node, width: Seq<char>, height: Seq<char>, orientation: Option<Seq<char>>) -> bool {
    &&& node_wf(m)
    &&& node_depth(m) <= 1
    &&& spaced_items(m)
    &&& quoted_atom(m->items@[1], "User"@)
    &&& symbol_atom(m->items@[2], width)
    &&& symbol_atom(m->items@[3], height)
    &&& m is List
    &&& m->List_lead@ == seq![' ']
    &&& m->tail@ == Seq::<char>::empty()
    &&& head_of(m) == Some("paper"@)
    &&& m->items@[1] matches Node::Atom { atom: Atom::Quoted(k), .. } && k@ == "User"@
    &&& atom_string(m->items@[2]) == Some(width)
    &&& atom_string(m->items@[3]) == Some(height)
    &&& match orientation {
        Some(o) => m->items@.len() == 5 && symbol_atom(m->items@[4], o),
        None => m->items@.len() == 4,
    }
}

fn head_atom(h: &str) -> (n: Node)
    ensures
        n matches Node::Atom { lead, atom: Atom::Symbol(s), raw } && lead@ == Seq::<char>::empty() && s@ == h@ && raw@
            == h@,
{
    Node::Atom { lead: String::new(), atom: Atom::Symbol(owned(h)), raw: owned(h) }
}

fn list_node(items: Vec<Node>) -> (m: Node)
    ensures
        m is List,
        m->List_lead@ == seq![' '],
        m->tail@ == Seq::<char>::empty(),
        m->items@ == items@,
{
    proof {
        reveal_strlit(" ");
    }
    Node::List { lead: owned(" "), items, tail: String::new() }
}

/// The node for a standard paper size.
pub fn paper_standard_node(kind: String, orientation: Option<String>) -> (m: Node)
    ensures
        paper_standard_shape(m, kind@, ov(orientation)),
{
    let mut items: Vec<Node> = Vec::new();
    items.push(head_atom("paper"));
    items.push(atom_quoted(kind));
    match orientation {
        Some(o) => {
            items.push(atom_symbol(o));
        },
        None => {},
    }
    proof {
        lemma_paper_items_wf(items@);
    }
    list_node(items)
}

/// The node for a user-defined paper size.
pub fn paper_user_node(width: Real, height: Real, orientation: Option<String>) -> (m: Node)
    ensures
        paper_user_shape(m, width.text@, height.text@, ov(orientation)),
{
    let mut items: Vec<Node> = Vec::new();
    items.push(head_atom("paper"));
    items.push(atom_quoted(owned("User")));
    items.push(atom_symbol(width.text));
    items.push(atom_symbol(height.text));
    match orientation {
        Some(o) => {
            items.push(atom_symbol(o));
        },
        None => {},
    }
    proof {
        lemma_paper_items_wf(items@);
    }
    list_node(items)
}

/// Items `(paper a ...)` with well-formed atoms after the head, each written
/// after one space, are well formed and hold no list.
proof fn lemma_paper_items_wf(items: Seq<Node>)
    requires
        items.len() >= 1,
        items[0] matches Node::Atom { lead, atom: Atom::Symbol(s), raw } && lead@ == Seq::<char>::empty() && s@ == "paper"@
            && raw@ == "paper"@,
        forall|j: int| 1 <= j < items.len() ==> (#[trigger] items[j]) is Atom && node_wf(items[j]) && lead_of(items[j]) == seq![' '],
    ensures
        nodes_wf(items),
        items_depth(items) == 0,
{
    reveal_strlit("paper");
    lemma_head_atom_wf(items[0], "paper"@);
    assert(items_ok(items));
    lemma_nodes_wf_items_ok(items);
    assert forall|j: int| 0 <= j < items.len() implies node_depth(#[trigger] items[j]) <= 0 by {}
    lemma_items_depth_bound(items, 0);
}

/// `new` is `items` whose item at `k` now holds the atom `v` (written with the
/// old item's leading whitespace; nothing changes where it already holds the
/// same atom); `v` is appended where there is no item at `k`.
pub open spec fn item_set(items: Seq<Node>, new: Seq<Node>, k: int, v: Node) -> bool {
    if items.len() > k {
        if same_atom_node(items[k], v) {
            new == items
        } else {
            &&& new.len() == items.len()
            &&& forall|j: int| 0 <= j < items.len() && j != k ==> new[j] == items[j]
            &&& relead(v, new[k], lead_of(items[k]))
        }
    } else {
        new == items.push(v)
    }
}

/// Puts the atom `v` at index `k` (see `item_set`).
pub fn set_item(items: Vec<Node>, k: usize, v: Node) -> (r: Vec<Node>)
    ensures
        item_set(items@, r@, k as int, v),
{
    let mut items = items;
    if items.len() > k {
        if same_atom_exec(&items[k], &v) {
            return items;
        }
        let ghost before = items@;
        let old = items.remove(k);
        let w = set_lead(v, take_lead(old));
        items.insert(k, w);
        assert(items@ =~= before.update(k as int, w));
        items
    } else {
        items.push(v);
        items
    }
}

// ---------------------------------------------------------------------------
// What the edits keep and what they make readable

/// Two sequences of items whose items have the same heads, one for one.
pub open spec fn same_heads(s: Seq<Node>, t: Seq<Node>) -> bool {
    &&& s.len() == t.len()
    &&& forall|j: int| 0 <= j < s.len() ==> head_of(#[trigger] s[j]) == head_of(t[j])
}

pub proof fn lemma_same_heads_last(s: Seq<Node>, t: Seq<Node>, from: int, h: Seq<char>)
    requires
        same_heads(s, t),
    ensures
        last_head_index(s, from, h) == last_head_index(t, from, h),
        has_head(s, from, h) == has_head(t, from, h),
        count_head(s, from, h) == count_head(t, from, h),
    decreases s.len(),
{
    lemma_last_head_index(s, from, h);
    lemma_last_head_index(t, from, h);
    if s.len() > 0 {
        assert(s.last() == s[s.len() - 1]);
        assert(head_of(s[s.len() - 1]) == head_of(t[t.len() - 1]));
        assert(same_heads(s.drop_last(), t.drop_last())) by {
            assert forall|j: int| 0 <= j < s.drop_last().len() implies head_of(#[trigger] s.drop_last()[j])
                == head_of(t.drop_last()[j]) by {
                assert(s.drop_last()[j] == s[j]);
                assert(t.drop_last()[j] == t[j]);
            }
        }
        lemma_same_heads_last(s.drop_last(), t.drop_last(), from, h);
        lemma_last_head_index(s.drop_last(), from, h);
        lemma_last_head_index(t.drop_last(), from, h);
    }
}

/// Setting slot `k >= 1` of a list keeps its head and its other atoms, and
/// slot `k` then holds the atom `v`.
pub proof fn lemma_slot_set_reads(old: Node, new: Node, k: int, v: Node)
    requires
        slot_set(old, new, k, v),
        k >= 1,
        v is Atom,
    ensures
        head_of(new) == head_of(old),
        forall|j: int| 0 <= j < list_items(old).len() && j != k ==> nth_atom_string(new, j) == nth_atom_string(old, j),
        list_items(old).len() >= k && old is List ==> nth_atom_string(new, k) == atom_string(v),
        list_items(new).len() >= list_items(old).len(),
{
    let items = list_items(old);
    if old is List && items.len() > k && !same_atom_node(items[k], v) {
        let w = choose|w: Node|
            #![trigger relead(v, w, lead_of(items[k]))]
            relead(v, w, lead_of(items[k])) && with_items(old, new, list_items(new)) && respaced(
                items.update(k, w),
                list_items(new),
            );
        lemma_respaced_keeps(items.update(k, w), list_items(new));
        assert(list_items(new)[0] == items.update(k, w)[0]);
        assert forall|j: int| 0 <= j < list_items(old).len() && j != k implies nth_atom_string(new, j) == nth_atom_string(
            old,
            j,
        ) by {
            assert(atom_string(list_items(new)[j]) == atom_string(items.update(k, w)[j]));
        }
        assert(atom_string(list_items(new)[k]) == atom_string(items.update(k, w)[k]));
    }
    if old is List && items.len() > k && same_atom_node(items[k], v) {
        assert(atom_string(items[k]) == atom_string(v));
    }
}

/// Setting slot `k >= 1` of a well-formed list to a well-formed atom with
/// leading whitespace gives a well-formed list no deeper than before (or than
/// one level).
pub proof fn lemma_slot_set_wf(old: Node, new: Node, k: int, v: Node)
    requires
        slot_set(old, new, k, v),
        k >= 1,
        v is Atom,
        node_wf(old),
        node_wf(v),
        lead_of(v).len() > 0,
    ensures
        node_wf(new),
        node_depth(new) <= node_depth(old),
        new is List <==> old is List,
        head_of(new) == head_of(old),
{
    let items = list_items(old);
    lemma_slot_set_reads(old, new, k, v);
    if old is List {
        lemma_nodes_wf_items_ok(items);
        lemma_items_depth_each_pub(items);
        if items.len() > k && !same_atom_node(items[k], v) {
            let w = choose|w: Node|
                #![trigger relead(v, w, lead_of(items[k]))]
                relead(v, w, lead_of(items[k])) && with_items(old, new, list_items(new)) && respaced(
                    items.update(k, w),
                    list_items(new),
                );
            let u = items.update(k, w);
            assert forall|j: int| 0 <= j < u.len() implies node_wf(#[trigger] u[j]) by {
                if j == k {
                    assert(node_wf(items[k]));
                    assert(all_ws(lead_of(items[k])));
                } else {
                    assert(node_wf(items[j]));
                }
            }
            lemma_respaced_ok(u, list_items(new));
            assert forall|j: int| 0 <= j < u.len() implies node_depth(#[trigger] u[j]) <= items_depth(items) by {
                if j != k {
                    assert(node_depth(items[j]) <= items_depth(items));
                }
            }
            lemma_items_depth_bound(u, items_depth(items));
        } else if items.len() == k {
            let u = items.push(v);
            assert forall|j: int| 0 <= j < u.len() implies node_wf(#[trigger] u[j]) by {
                if j < items.len() {
                    assert(u[j] == items[j]);
                }
            }
            assert forall|j: int| 1 <= j < u.len() implies !(is_symbol_node(u[j - 1]) && is_symbol_node(#[trigger] u[j])
                && lead_of(u[j]).len() == 0) by {
                if j < items.len() {
                    assert(u[j] == items[j] && u[j - 1] == items[j - 1]);
                }
            }
            lemma_nodes_wf_items_ok(u);
            assert forall|j: int| 0 <= j < u.len() implies node_depth(#[trigger] u[j]) <= items_depth(items) by {
                if j < items.len() {
                    assert(u[j] == items[j]);
                }
            }
            lemma_items_depth_bound(u, items_depth(items));
            assert(list_items(new) == u);
        }
    }
}

/// After `scalar_upserted`, the last `(h ...)` at `from` or later holds the
/// value of `v`, when `from` is within the items.
pub proof fn lemma_scalar_upserted_reads(old: Seq<Node>, new: Seq<Node>, from: int, h: Seq<char>, v: Node)
    requires
        scalar_upserted(old, new, from, h, v),
        v is Atom,
        0 <= from <= old.len(),
    ensures
        last_second_string(new, from, h) == atom_string(v),
        has_head(new, from, h),
{
    lemma_last_head_index(old, from, h);
    lemma_last_head_index(new, from, h);
    if has_head(old, from, h) {
        assert(same_heads(old, new)) by {
            assert forall|j: int| 0 <= j < old.len() implies head_of(#[trigger] old[j]) == head_of(new[j]) by {
                if j >= from && head_of(old[j]) == Some(h) {
                    lemma_slot_set_reads(old[j], new[j], 1, v);
                }
            }
        }
        lemma_same_heads_last(old, new, from, h);
        let i = last_head_index(old, from, h)->0;
        lemma_slot_set_reads(old[i], new[i], 1, v);
        assert(list_items(old[i]).len() >= 1);
    } else {
        let m = choose|m: Node| #[trigger] scalar_node(m, h, v) && new == old.insert(insert_pos(old.len() as int, from), m);
        let p = insert_pos(old.len() as int, from);
        assert(p == from);
        assert(new[p] == m);
        assert(head_of(m) == Some(h));
        lemma_last_head_index(new, from, h);
        assert forall|j: int| #![trigger new[j]] p < j < new.len() implies head_of(new[j]) != Some(h) by {
            assert(new[j] == old[j - 1]);
            if head_of(old[j - 1]) == Some(h) {
                lemma_last_head_index(old, from, h);
                assert(last_with_head(old, from, h) is Some) by {
                    lemma_has_head_at(old, from, h, j - 1);
                }
            }
        }
        lemma_last_head_at(new, from, h, p);
    }
}

/// An item at `from` or later with head `h` means there is a last one.
pub proof fn lemma_has_head_at(s: Seq<Node>, from: int, h: Seq<char>, j: int)
    requires
        from <= j < s.len(),
        0 <= j,
        head_of(s[j]) == Some(h),
    ensures
        last_head_index(s, from, h) is Some,
        last_with_head(s, from, h) is Some,
    decreases s.len(),
{
    lemma_last_head_index(s, from, h);
    if head_of(s.last()) != Some(h) {
        assert(j < s.len() - 1);
        assert(s.drop_last()[j] == s[j]);
        lemma_has_head_at(s.drop_last(), from, h, j);
    }
}

/// The item at `p` is the last one with head `h` when none after it has
/// that head.
pub proof fn lemma_last_head_at(s: Seq<Node>, from: int, h: Seq<char>, p: int)
    requires
        0 <= from <= p < s.len(),
        head_of(s[p]) == Some(h),
        forall|j: int| #![trigger s[j]] p < j < s.len() ==> head_of(s[j]) != Some(h),
    ensures
        last_head_index(s, from, h) == Some(p),
        last_with_head(s, from, h) == Some(s[p]),
    decreases s.len(),
{
    if p < s.len() - 1 {
        assert(head_of(s[s.len() - 1]) != Some(h));
        assert(s.drop_last()[p] == s[p]);
        assert forall|j: int| #![trigger s.drop_last()[j]] p < j < s.drop_last().len() implies head_of(
            s.drop_last()[j],
        ) != Some(h) by {
            assert(s.drop_last()[j] == s[j]);
        }
        lemma_last_head_at(s.drop_last(), from, h, p);
    }
    lemma_last_head_index(s, from, h);
}

/// The value of the last `(property "key" "value" ...)` at `from` or later.
pub open spec fn last_prop_value(s: Seq<Node>, from: int, key: Seq<char>) -> Option<Seq<char>>
    decreases s.len(),
{
    if s.len() <= from || s.len() == 0 {
        None
    } else if is_prop(s.last(), key) {
        nth_atom_string(s.last(), 2)
    } else {
        last_prop_value(s.drop_last(), from, key)
    }
}

proof fn lemma_first_prop_some(s: Seq<Node>, from: int, key: Seq<char>)
    ensures
        first_prop(s, from, key) matches Some(i) ==> from <= i < s.len() && 0 <= i && is_prop(s[i], key),
        first_prop(s, from, key) is None <==> !has_prop(s, from, key),
    decreases s.len(),
{
    if s.len() > 0 {
        lemma_first_prop_some(s.drop_last(), from, key);
        if let Some(i) = first_prop(s.drop_last(), from, key) {
            assert(s.drop_last()[i] == s[i]);
        }
        if has_prop(s.drop_last(), from, key) {
            let j = choose|j: int| 0 <= j && from <= j < s.drop_last().len() && is_prop(#[trigger] s.drop_last()[j], key);
            assert(s.drop_last()[j] == s[j]);
        }
        if has_prop(s, from, key) && !has_prop(s.drop_last(), from, key) {
            let j = choose|j: int| 0 <= j && from <= j < s.len() && is_prop(#[trigger] s[j], key);
            if j < s.len() - 1 {
                assert(s.drop_last()[j] == s[j]);
            }
        }
    }
}

/// When every `(property "key" ...)` at `from` or later has the value `val`
/// and there is one, both the first and the last of them read `val`.
pub proof fn lemma_props_hold(s: Seq<Node>, from: int, key: Seq<char>, val: Seq<char>)
    requires
        forall|j: int| 0 <= j < s.len() && from <= j && is_prop(#[trigger] s[j], key) ==> nth_atom_string(s[j], 2) == Some(val),
    ensures
        has_prop(s, from, key) ==> last_prop_value(s, from, key) == Some(val) && prop_value(s, from, key) == Some(val),
        !has_prop(s, from, key) ==> last_prop_value(s, from, key) is None && prop_value(s, from, key) is None,
    decreases s.len(),
{
    lemma_first_prop_some(s, from, key);
    if s.len() > 0 {
        let t = s.drop_last();
        assert forall|j: int| 0 <= j < t.len() && from <= j && is_prop(#[trigger] t[j], key) implies nth_atom_string(t[j], 2) == Some(val) by {
            assert(t[j] == s[j]);
        }
        lemma_props_hold(t, from, key, val);
        if has_prop(t, from, key) {
            let j = choose|j: int| 0 <= j && from <= j < t.len() && is_prop(#[trigger] t[j], key);
            assert(t[j] == s[j]);
        }
        if has_prop(s, from, key) && !has_prop(t, from, key) {
            let j = choose|j: int| 0 <= j && from <= j < s.len() && is_prop(#[trigger] s[j], key);
            if j < s.len() - 1 {
                assert(t[j] == s[j]);
            }
            assert(is_prop(s.last(), key));
        }
        if !has_prop(s, from, key) {
            if s.len() - 1 >= from {
                assert(!is_prop(s[s.len() - 1], key));
            }
        }
    }
}

/// After `property_upserted`, the first and the last `(property "key" ...)`
/// at `from` or later both hold the value of `v`.
pub proof fn lemma_property_upserted_reads(old: Seq<Node>, new: Seq<Node>, from: int, key: Seq<char>, v: Node)
    requires
        property_upserted(old, new, from, key, v),
        v is Atom,
        0 <= from <= old.len(),
    ensures
        last_prop_value(new, from, key) == atom_string(v),
        prop_value(new, from, key) == atom_string(v),
        has_prop(new, from, key),
{
    let val = atom_string(v)->0;
    if has_prop(old, from, key) {
        assert forall|j: int| 0 <= j < new.len() && from <= j && is_prop(#[trigger] new[j], key) implies nth_atom_string(new[j], 2) == Some(val) by {
            if is_prop(old[j], key) {
                lemma_slot_set_reads(old[j], new[j], 2, v);
            } else {
                assert(new[j] == old[j]);
            }
        }
        let j = choose|j: int| 0 <= j && from <= j < old.len() && is_prop(#[trigger] old[j], key);
        lemma_slot_set_reads(old[j], new[j], 2, v);
        assert(is_prop(new[j], key));
        lemma_props_hold(new, from, key, val);
    } else {
        let m = choose|m: Node| #[trigger] property_node(m, key, v) && new == old.push(m);
        assert(new.last() == m);
        assert(is_prop(m, key));
        assert(nth_atom_string(m, 2) == atom_string(v));
        assert forall|j: int| 0 <= j < new.len() && from <= j && is_prop(#[trigger] new[j], key) implies nth_atom_string(new[j], 2) == Some(val) by {
            if j < old.len() {
                assert(new[j] == old[j]);
            }
        }
        assert(is_prop(new[old.len() as int], key));
        lemma_props_hold(new, from, key, val);
    }
}

/// After `without_prop`, no `(property "key" ...)` is left at `from` or
/// later.
pub proof fn lemma_without_prop_reads(s: Seq<Node>, from: int, key: Seq<char>)
    ensures
        forall|j: int| from <= j < without_prop(s, from, key).len() && 0 <= j ==> !is_prop(
            #[trigger] without_prop(s, from, key)[j],
            key,
        ),
        without_prop(s, from, key).len() <= s.len(),
        !has_prop(without_prop(s, from, key), from, key),
        last_prop_value(without_prop(s, from, key), from, key) is None,
        prop_value(without_prop(s, from, key), from, key) is None,
    decreases s.len(),
{
    let r = without_prop(s, from, key);
    if s.len() > 0 {
        lemma_without_prop_reads(s.drop_last(), from, key);
        let t = without_prop(s.drop_last(), from, key);
        if !(s.len() - 1 >= from && is_prop(s.last(), key)) {
            assert forall|j: int| from <= j < r.len() && 0 <= j implies !is_prop(#[trigger] r[j], key) by {
                if j < t.len() {
                    assert(r[j] == t[j]);
                }
            }
        }
    }
    assert forall|j: int| 0 <= j < r.len() && from <= j && is_prop(#[trigger] r[j], key) implies nth_atom_string(
        r[j],
        2,
    ) == Some(Seq::<char>::empty()) by {
    }
    lemma_props_hold(r, from, key, Seq::<char>::empty());
}

/// Every `(h ...)` at `from` or later already holds the atom `v` in slot 1.
pub open spec fn scalar_already(s: Seq<Node>, from: int, h: Seq<char>, v: Node) -> bool {
    &&& has_head(s, from, h)
    &&& forall|j: int|
        0 <= j < s.len() && from <= j && head_of(#[trigger] s[j]) == Some(h) ==> list_items(s[j]).len() > 1
            && same_atom_node(list_items(s[j])[1], v)
}

/// Setting a scalar to the value it already has changes nothing.
pub proof fn lemma_scalar_upserted_noop(old: Seq<Node>, new: Seq<Node>, from: int, h: Seq<char>, v: Node)
    requires
        scalar_upserted(old, new, from, h, v),
        scalar_already(old, from, h, v),
    ensures
        new == old,
{
    assert forall|j: int| 0 <= j < old.len() implies new[j] == old[j] by {
        if j >= from && head_of(old[j]) == Some(h) {
            assert(slot_set(old[j], new[j], 1, v));
        }
    }
    assert(new =~= old);
}

/// After `item_set` at `k`, the item at `k` holds the atom `v`.
pub proof fn lemma_item_set_reads(items: Seq<Node>, new: Seq<Node>, k: int, v: Node)
    requires
        item_set(items, new, k, v),
        v is Atom,
        0 <= k <= items.len(),
    ensures
        new.len() > k,
        atom_string(new[k]) == atom_string(v),
        forall|j: int| 0 <= j < items.len() && j != k ==> new[j] == items[j],
{
}

/// Every `(h ...)` at `from` or later (and there is one) already holds, as its
/// second item, a quoted string (`quoted`) or a bare symbol with the text
/// `value`.
pub open spec fn scalar_written(s: Seq<Node>, from: int, h: Seq<char>, value: Seq<char>, quoted: bool) -> bool {
    &&& has_head(s, from, h)
    &&& forall|j: int|
        0 <= j < s.len() && from <= j && head_of(#[trigger] s[j]) == Some(h) ==> list_items(s[j]).len() > 1
            && list_items(s[j])[1] is Atom && atom_string(list_items(s[j])[1]) == Some(value)
            && (list_items(s[j])[1]->atom is Quoted <==> quoted)
}

/// The decimal text of an integer can stand as a bare symbol.
pub proof fn lemma_int_text_symbol(i: i32)
    ensures
        is_symbol_text(int_text(i as int)),
{
    lemma_int_text_digits(i);
    let t = int_text(i as int);
    assert forall|k: int| 0 <= k < t.len() implies is_symbol_char(#[trigger] t[k]) by {
        assert(is_digit(t[k]) || t[k] == '-');
    }
}

/// A scalar already written with the atom's value and kind holds that atom.
pub proof fn lemma_scalar_written_already(s: Seq<Node>, from: int, h: Seq<char>, value: Seq<char>, v: Node, quoted: bool)
    requires
        scalar_written(s, from, h, value, quoted),
        v is Atom,
        atom_string(v) == Some(value),
        v->atom is Quoted <==> quoted,
    ensures
        scalar_already(s, from, h, v),
{
    assert forall|j: int| 0 <= j < s.len() && from <= j && head_of(#[trigger] s[j]) == Some(h) implies list_items(s[j]).len() > 1
        && same_atom_node(list_items(s[j])[1], v) by {
    }
}

/// `scalar_upserted` from index 1 or later keeps the first item.
pub proof fn lemma_scalar_upserted_keeps_head(old: Seq<Node>, new: Seq<Node>, from: int, h: Seq<char>, v: Node)
    requires
        scalar_upserted(old, new, from, h, v),
        1 <= from,
        old.len() >= 1,
    ensures
        new.len() >= 1,
        new[0] == old[0],
{
    if !has_head(old, from, h) {
        let m = choose|m: Node| #[trigger] scalar_node(m, h, v) && new == old.insert(insert_pos(old.len() as int, from), m);
        assert(new[0] == old[0]);
    }
}

/// After `section_scalar_upserted`, the last `(sec ...)` holds `(h v)` as its
/// last `h` item.
pub proof fn lemma_section_scalar_upserted_reads(
    old: Seq<Node>,
    new: Seq<Node>,
    from: int,
    sec: Seq<char>,
    h: Seq<char>,
    v: Node,
)
    requires
        section_scalar_upserted(old, new, from, sec, h, v),
        v is Atom,
        0 <= from <= old.len(),
    ensures
        last_with_head(new, from, sec) matches Some(t) && last_second_string(list_items(t), 1, h) == atom_string(v),
{
    lemma_last_head_index(old, from, sec);
    match last_head_index(old, from, sec) {
        Some(i) => {
            let oi = list_items(old[i]);
            let ni = list_items(new[i]);
            assert(oi.len() >= 1);
            lemma_scalar_upserted_reads(oi, ni, 1, h, v);
            lemma_scalar_upserted_keeps_head(oi, ni, 1, h, v);
            assert(head_of(new[i]) == head_of(old[i]));
            assert(same_heads(old, new)) by {
                assert forall|j: int| 0 <= j < old.len() implies head_of(#[trigger] old[j]) == head_of(new[j]) by {
                    if j != i {
                        assert(new[j] == old[j]);
                    }
                }
            }
            lemma_same_heads_last(old, new, from, sec);
            lemma_last_head_index(new, from, sec);
        },
        None => {
            let m = choose|m: Node|
                #[trigger] section_node(m, sec, h, v) && new == old.insert(insert_pos(old.len() as int, from), m);
            let p = insert_pos(old.len() as int, from);
            assert(new[p] == m);
            assert(head_of(m) == Some(sec));
            assert forall|j: int| #![trigger new[j]] p < j < new.len() implies head_of(new[j]) != Some(sec) by {
                assert(new[j] == old[j - 1]);
                if head_of(old[j - 1]) == Some(sec) {
                    lemma_has_head_at(old, from, sec, j - 1);
                }
            }
            lemma_last_head_at(new, from, sec, p);
            let mi = list_items(m);
            assert(head_of(mi[1]) == Some(h));
            lemma_last_head_at(mi, 1, h, 1);
        },
    }
}

/// After `node_upserted`, the last `(h ...)` holds the items of `node`.
pub proof fn lemma_node_upserted_reads(old: Seq<Node>, new: Seq<Node>, from: int, h: Seq<char>, node: Node)
    requires
        node_upserted(old, new, from, h, node),
        head_of(node) == Some(h),
        0 <= from <= old.len(),
    ensures
        last_with_head(new, from, h) matches Some(t) && list_items(t) == list_items(node),
{
    lemma_last_head_index(old, from, h);
    match last_head_index(old, from, h) {
        Some(i) => {
            assert(head_of(new[i]) == head_of(node));
            assert(list_items(new[i]) == list_items(node));
            assert(same_heads(old, new)) by {
                assert forall|j: int| 0 <= j < old.len() implies head_of(#[trigger] old[j]) == head_of(new[j]) by {
                    if j != i {
                        assert(new[j] == old[j]);
                    }
                }
            }
            lemma_same_heads_last(old, new, from, h);
            lemma_last_head_index(new, from, h);
        },
        None => {
            let p = insert_pos(old.len() as int, from);
            assert(new[p] == node);
            assert forall|j: int| #![trigger new[j]] p < j < new.len() implies head_of(new[j]) != Some(h) by {
                assert(new[j] == old[j - 1]);
                if head_of(old[j - 1]) == Some(h) {
                    lemma_has_head_at(old, from, h, j - 1);
                }
            }
            lemma_last_head_at(new, from, h, p);
        },
    }
}

// ---------------------------------------------------------------------------
// Edits keep the lists of unknown kinds

/// Changing, at `from` or later, only items whose head is one of `hs` (into
/// items whose head is also one of them) keeps the unknown lists.
pub proof fn lemma_unknown_kept_update(old: Seq<Node>, new: Seq<Node>, from: int, hs: Seq<&str>)
    requires
        old.len() == new.len(),
        forall|j: int|
            from <= j < old.len() && 0 <= j ==> new[j] == old[j] || (head_in(old[j], hs) && head_in(#[trigger] new[j], hs)),
    ensures
        unknown_lists(new, from, hs) == unknown_lists(old, from, hs),
    decreases old.len(),
{
    if old.len() > 0 {
        assert forall|j: int| from <= j < old.drop_last().len() && 0 <= j implies new.drop_last()[j] == old.drop_last()[j] || (
        head_in(old.drop_last()[j], hs) && head_in(#[trigger] new.drop_last()[j], hs)) by {
            assert(new.drop_last()[j] == new[j]);
            assert(old.drop_last()[j] == old[j]);
        }
        lemma_unknown_kept_update(old.drop_last(), new.drop_last(), from, hs);
        assert(new.last() == new[new.len() - 1]);
        assert(old.last() == old[old.len() - 1]);
    }
}

/// Inserting, at `from` or later, an item whose head is one of `hs` keeps the
/// unknown lists.
pub proof fn lemma_unknown_kept_insert(old: Seq<Node>, from: int, hs: Seq<&str>, p: int, m: Node)
    requires
        from <= p <= old.len(),
        0 <= p,
        head_in(m, hs),
    ensures
        unknown_lists(old.insert(p, m), from, hs) == unknown_lists(old, from, hs),
    decreases old.len(),
{
    let new = old.insert(p, m);
    if p == old.len() {
        assert(new.drop_last() =~= old);
        assert(new.last() == m);
    } else {
        assert(new.drop_last() =~= old.drop_last().insert(p, m));
        assert(new.last() == old.last());
        lemma_unknown_kept_insert(old.drop_last(), from, hs, p, m);
    }
}

proof fn lemma_without_prop_len(s: Seq<Node>, from: int, key: Seq<char>)
    ensures
        without_prop(s, from, key).len() >= if s.len() < from {
            s.len() as int
        } else {
            from
        },
        s.len() <= from ==> without_prop(s, from, key) == s,
    decreases s.len(),
{
    if s.len() > 0 {
        lemma_without_prop_len(s.drop_last(), from, key);
        if s.len() <= from {
            assert(s.drop_last().push(s.last()) =~= s);
        }
    }
}

/// Removing property items, whose head is one of `hs`, keeps the unknown
/// lists.
pub proof fn lemma_unknown_kept_without_prop(s: Seq<Node>, from: int, key: Seq<char>, hs: Seq<&str>)
    requires
        exists|i: int| 0 <= i < hs.len() && hs[i]@ == "property"@,
        0 <= from,
    ensures
        unknown_lists(without_prop(s, from, key), from, hs) == unknown_lists(s, from, hs),
    decreases s.len(),
{
    if s.len() > 0 {
        lemma_unknown_kept_without_prop(s.drop_last(), from, key, hs);
        lemma_without_prop_len(s.drop_last(), from, key);
        let t = without_prop(s.drop_last(), from, key);
        if s.len() - 1 >= from && is_prop(s.last(), key) {
            let i = choose|i: int| 0 <= i < hs.len() && hs[i]@ == "property"@;
            assert(head_of(s.last()) == Some(hs[i]@));
        } else {
            let r = t.push(s.last());
            assert(r.drop_last() =~= t);
            if s.len() - 1 < from {
                assert(t == s.drop_last());
            }
        }
    }
}

/// After `scalar_upserted`, with `h` one of `hs`, the unknown lists are as
/// they were.
pub proof fn lemma_scalar_upserted_unknown(old: Seq<Node>, new: Seq<Node>, from: int, h: Seq<char>, v: Node, hs: Seq<&str>)
    requires
        scalar_upserted(old, new, from, h, v),
        exists|i: int| 0 <= i < hs.len() && hs[i]@ == h,
        0 <= from,
        v is Atom,
    ensures
        unknown_lists(new, from, hs) == unknown_lists(old, from, hs),
{
    if old.len() < from {
        lemma_last_head_index(old, from, h);
        if !has_head(old, from, h) {
            let m = choose|m: Node| #[trigger] scalar_node(m, h, v) && new == old.insert(insert_pos(old.len() as int, from), m);
            assert(new.len() == old.len() + 1);
        }
        assert(unknown_lists(old, from, hs) =~= Seq::<Node>::empty());
        assert(unknown_lists(new, from, hs) =~= Seq::<Node>::empty());
    } else {
        let i = choose|i: int| 0 <= i < hs.len() && hs[i]@ == h;
        if has_head(old, from, h) {
            assert forall|j: int| 0 <= j < old.len() implies new[j] == old[j] || (head_in(old[j], hs) && head_in(
                #[trigger] new[j],
                hs,
            )) by {
                if j >= from && head_of(old[j]) == Some(h) {
                    lemma_slot_set_reads(old[j], new[j], 1, v);
                    assert(head_of(old[j]) == Some(hs[i]@));
                    assert(head_of(new[j]) == Some(hs[i]@));
                }
            }
            lemma_unknown_kept_update(old, new, from, hs);
        } else {
            let m = choose|m: Node| #[trigger] scalar_node(m, h, v) && new == old.insert(insert_pos(old.len() as int, from), m);
            assert(head_of(m) == Some(hs[i]@));
            lemma_unknown_kept_insert(old, from, hs, insert_pos(old.len() as int, from), m);
        }
    }
}

/// After `property_upserted`, with `property` one of `hs`, the unknown lists
/// are as they were.
pub proof fn lemma_property_upserted_unknown(
    old: Seq<Node>,
    new: Seq<Node>,
    from: int,
    key: Seq<char>,
    v: Node,
    hs: Seq<&str>,
)
    requires
        property_upserted(old, new, from, key, v),
        exists|i: int| 0 <= i < hs.len() && hs[i]@ == "property"@,
        0 <= from,
        v is Atom,
    ensures
        unknown_lists(new, from, hs) == unknown_lists(old, from, hs),
{
    if old.len() < from {
        if !has_prop(old, from, key) {
            let m = choose|m: Node| #[trigger] property_node(m, key, v) && new == old.push(m);
            assert(new.len() == old.len() + 1);
        }
        assert(unknown_lists(old, from, hs) =~= Seq::<Node>::empty());
        assert(unknown_lists(new, from, hs) =~= Seq::<Node>::empty());
    } else {
        let i = choose|i: int| 0 <= i < hs.len() && hs[i]@ == "property"@;
        if has_prop(old, from, key) {
            assert forall|j: int| 0 <= j < old.len() implies new[j] == old[j] || (head_in(old[j], hs) && head_in(
                #[trigger] new[j],
                hs,
            )) by {
                if j >= from && is_prop(old[j], key) {
                    lemma_slot_set_reads(old[j], new[j], 2, v);
                    assert(head_of(old[j]) == Some(hs[i]@));
                    assert(head_of(new[j]) == Some(hs[i]@));
                }
            }
            lemma_unknown_kept_update(old, new, from, hs);
        } else {
            let m = choose|m: Node| #[trigger] property_node(m, key, v) && new == old.push(m);
            assert(head_of(m) == Some(hs[i]@));
            assert(new == old.insert(old.len() as int, m));
            lemma_unknown_kept_insert(old, from, hs, old.len() as int, m);
        }
    }
}

/// After `node_upserted`, with `h` one of `hs` and `node` an `(h ...)` list,
/// the unknown lists are as they were.
pub proof fn lemma_node_upserted_unknown(old: Seq<Node>, new: Seq<Node>, from: int, h: Seq<char>, node: Node, hs: Seq<&str>)
    requires
        node_upserted(old, new, from, h, node),
        head_of(node) == Some(h),
        exists|i: int| 0 <= i < hs.len() && hs[i]@ == h,
        0 <= from,
    ensures
        unknown_lists(new, from, hs) == unknown_lists(old, from, hs),
{
    if old.len() < from {
        lemma_last_head_index(old, from, h);
        assert(unknown_lists(old, from, hs) =~= Seq::<Node>::empty());
        assert(unknown_lists(new, from, hs) =~= Seq::<Node>::empty());
    } else {
        let k = choose|i: int| 0 <= i < hs.len() && hs[i]@ == h;
        lemma_last_head_index(old, from, h);
        match last_head_index(old, from, h) {
            Some(i) => {
                assert(head_of(new[i]) == head_of(node));
                assert(head_of(old[i]) == Some(hs[k]@));
                assert(head_of(new[i]) == Some(hs[k]@));
                lemma_unknown_kept_update(old, new, from, hs);
            },
            None => {
                assert(head_of(node) == Some(hs[k]@));
                lemma_unknown_kept_insert(old, from, hs, insert_pos(old.len() as int, from), node);
            },
        }
    }
}

/// After `section_scalar_upserted`, with `sec` one of `hs`, the unknown
/// lists are as they were.
pub proof fn lemma_section_scalar_upserted_unknown(
    old: Seq<Node>,
    new: Seq<Node>,
    from: int,
    sec: Seq<char>,
    h: Seq<char>,
    v: Node,
    hs: Seq<&str>,
)
    requires
        section_scalar_upserted(old, new, from, sec, h, v),
        exists|i: int| 0 <= i < hs.len() && hs[i]@ == sec,
        0 <= from,
    ensures
        unknown_lists(new, from, hs) == unknown_lists(old, from, hs),
{
    if old.len() < from {
        lemma_last_head_index(old, from, sec);
        if last_head_index(old, from, sec) is None {
            let m = choose|m: Node|
                #[trigger] section_node(m, sec, h, v) && new == old.insert(insert_pos(old.len() as int, from), m);
            assert(new.len() == old.len() + 1);
        }
        assert(unknown_lists(old, from, hs) =~= Seq::<Node>::empty());
        assert(unknown_lists(new, from, hs) =~= Seq::<Node>::empty());
    } else {
        let k = choose|i: int| 0 <= i < hs.len() && hs[i]@ == sec;
        lemma_last_head_index(old, from, sec);
        match last_head_index(old, from, sec) {
            Some(i) => {
                lemma_scalar_upserted_keeps_head(list_items(old[i]), list_items(new[i]), 1, h, v);
                assert(head_of(old[i]) == Some(hs[k]@));
                assert(head_of(new[i]) == Some(hs[k]@));
                lemma_unknown_kept_update(old, new, from, hs);
            },
            None => {
                let m = choose|m: Node|
                    #[trigger] section_node(m, sec, h, v) && new == old.insert(insert_pos(old.len() as int, from), m);
                assert(head_of(m) == Some(hs[k]@));
                lemma_unknown_kept_insert(old, from, hs, insert_pos(old.len() as int, from), m);
            },
        }
    }
}

/// `property_upserted` from the second item on keeps the first item.
pub proof fn lemma_property_upserted_keeps_head(old: Seq<Node>, new: Seq<Node>, from: int, key: Seq<char>, v: Node)
    requires
        property_upserted(old, new, from, key, v),
        1 <= from,
        old.len() >= 1,
    ensures
        new.len() >= 1,
        new[0] == old[0],
{
    if !has_prop(old, from, key) {
        let m = choose|m: Node| #[trigger] property_node(m, key, v) && new == old.push(m);
        assert(new[0] == old[0]);
    }
}

/// Removing properties from the second item on keeps the first item.
pub proof fn lemma_without_prop_keeps_head(s: Seq<Node>, from: int, key: Seq<char>)
    requires
        1 <= from,
        s.len() >= 1,
    ensures
        without_prop(s, from, key).len() >= 1,
        without_prop(s, from, key)[0] == s[0],
    decreases s.len(),
{
    if s.len() == 1 {
        assert(without_prop(s.drop_last(), from, key) == s.drop_last());
    } else {
        lemma_without_prop_keeps_head(s.drop_last(), from, key);
    }
}

/// Removes every `(property "key" ...)` at `from` or later, then writes one
/// space before each bare symbol that would run into the symbol before it.
pub fn remove_property(items: Vec<Node>, from: usize, key: &str) -> (r: Vec<Node>)
    ensures
        respaced(without_prop(items@, from as int, key@), r@),
{
    respace(remove_property_items(items, from, key))
}

proof fn lemma_no_prop_reads(s: Seq<Node>, from: int, key: Seq<char>)
    requires
        !has_prop(s, from, key),
    ensures
        last_prop_value(s, from, key) is None,
        prop_value(s, from, key) is None,
    decreases s.len(),
{
    lemma_first_prop_some(s, from, key);
    if s.len() > from && s.len() > 0 {
        assert(!is_prop(s[s.len() - 1], key));
        assert(!has_prop(s.drop_last(), from, key)) by {
            if has_prop(s.drop_last(), from, key) {
                let i = choose|i: int| 0 <= i && from <= i < s.drop_last().len() && is_prop(#[trigger] s.drop_last()[i], key);
                assert(s[i] == s.drop_last()[i]);
            }
        }
        lemma_no_prop_reads(s.drop_last(), from, key);
    }
}

proof fn lemma_without_prop_each(s: Seq<Node>, from: int, key: Seq<char>, b: nat)
    requires
        forall|i: int| 0 <= i < s.len() ==> node_wf(#[trigger] s[i]) && node_depth(s[i]) <= b,
    ensures
        forall|j: int|
            0 <= j < without_prop(s, from, key).len() ==> node_wf(#[trigger] without_prop(s, from, key)[j])
                && node_depth(without_prop(s, from, key)[j]) <= b,
    decreases s.len(),
{
    if s.len() > 0 {
        assert forall|i: int| 0 <= i < s.drop_last().len() implies node_wf(#[trigger] s.drop_last()[i]) && node_depth(
            s.drop_last()[i],
        ) <= b by {
            assert(s.drop_last()[i] == s[i]);
        }
        lemma_without_prop_each(s.drop_last(), from, key, b);
        assert(node_wf(s[s.len() - 1]) && node_depth(s[s.len() - 1]) <= b);
        let t = without_prop(s.drop_last(), from, key);
        if !(s.len() - 1 >= from && is_prop(s.last(), key)) {
            assert(without_prop(s, from, key) == t.push(s.last()));
            assert forall|j: int| 0 <= j < t.push(s.last()).len() implies node_wf(#[trigger] t.push(s.last())[j])
                && node_depth(t.push(s.last())[j]) <= b by {
                if j < t.len() {
                    assert(t.push(s.last())[j] == t[j]);
                }
            }
        }
    }
}

/// Lists at the same places, atoms where atoms were: the unknown lists are
/// the same.
proof fn lemma_unknown_atoms_only(w: Seq<Node>, r: Seq<Node>, from: int, hs: Seq<&str>)
    requires
        r.len() == w.len(),
        forall|j: int| 0 <= j < w.len() ==> (w[j] is List ==> #[trigger] r[j] == w[j]) && (r[j] is List <==> w[j] is List),
    ensures
        unknown_lists(r, from, hs) == unknown_lists(w, from, hs),
    decreases w.len(),
{
    if w.len() > 0 {
        assert forall|j: int| 0 <= j < w.drop_last().len() implies (w.drop_last()[j] is List ==> #[trigger] r.drop_last()[j]
            == w.drop_last()[j]) && (r.drop_last()[j] is List <==> w.drop_last()[j] is List) by {
            assert(r.drop_last()[j] == r[j] && w.drop_last()[j] == w[j]);
        }
        lemma_unknown_atoms_only(w.drop_last(), r.drop_last(), from, hs);
        assert(w.last() == w[w.len() - 1] && r.last() == r[r.len() - 1]);
    }
}

/// After `remove_property`: no such property is left, the first item and the
/// unknown lists are as the removal left them, and well-formed items stay
/// well formed and no deeper.
pub proof fn lemma_removed(s: Seq<Node>, r: Seq<Node>, from: int, key: Seq<char>, hs: Seq<&str>)
    requires
        respaced(without_prop(s, from, key), r),
        0 <= from,
    ensures
        !has_prop(r, from, key),
        last_prop_value(r, from, key) is None,
        prop_value(r, from, key) is None,
        unknown_lists(r, from, hs) == unknown_lists(without_prop(s, from, key), from, hs),
        from >= 1 && s.len() >= 1 ==> r.len() >= 1 && r[0] == s[0],
        nodes_wf(s) ==> nodes_wf(r) && items_depth(r) <= items_depth(s),
{
    let w = without_prop(s, from, key);
    lemma_without_prop_reads(s, from, key);
    lemma_respaced_keeps(w, r);
    assert(!has_prop(r, from, key)) by {
        if has_prop(r, from, key) {
            let i = choose|i: int| 0 <= i && from <= i < r.len() && is_prop(#[trigger] r[i], key);
            assert(is_prop(w[i], key));
        }
    }
    lemma_no_prop_reads(r, from, key);
    lemma_unknown_atoms_only(w, r, from, hs);
    if from >= 1 && s.len() >= 1 {
        lemma_without_prop_keeps_head(s, from, key);
    }
    if nodes_wf(s) {
        lemma_nodes_wf_items_ok(s);
        lemma_items_depth_each_pub(s);
        lemma_without_prop_each(s, from, key, items_depth(s));
        lemma_respaced_ok(w, r);
        lemma_items_depth_bound(w, items_depth(s));
    }
}

// ---------------------------------------------------------------------------
// Edits keep the items well formed

/// Replacing lists by well-formed lists no deeper than `b` keeps well-formed
/// items well formed and no deeper than `b`.
pub proof fn lemma_lists_replaced_wf(old: Seq<Node>, new: Seq<Node>, b: nat)
    requires
        nodes_wf(old),
        items_depth(old) <= b,
        new.len() == old.len(),
        forall|j: int|
            0 <= j < old.len() ==> #[trigger] new[j] == old[j] || (old[j] is List && new[j] is List && node_wf(new[j])
                && node_depth(new[j]) <= b),
    ensures
        nodes_wf(new),
        items_depth(new) <= b,
{
    lemma_nodes_wf_items_ok(old);
    lemma_items_depth_each_pub(old);
    assert forall|j: int| 0 <= j < new.len() implies node_wf(#[trigger] new[j]) && node_depth(new[j]) <= b by {
        if new[j] == old[j] {
            assert(node_wf(old[j]));
            assert(node_depth(old[j]) <= items_depth(old));
        }
    }
    assert forall|j: int| 1 <= j < new.len() implies !(is_symbol_node(new[j - 1]) && is_symbol_node(#[trigger] new[j])
        && lead_of(new[j]).len() == 0) by {
        if new[j] == old[j] && new[j - 1] == old[j - 1] {
            assert(!(is_symbol_node(old[j - 1]) && is_symbol_node(old[j]) && lead_of(old[j]).len() == 0));
        } else if new[j] == old[j] {
            assert(new[j - 1] == old[j - 1] || new[j - 1] is List);
        }
    }
    lemma_nodes_wf_items_ok(new);
    lemma_items_depth_bound(new, b);
}

/// Inserting a well-formed list no deeper than `b` keeps well-formed items
/// well formed and no deeper than `b`.
pub proof fn lemma_list_inserted_wf(old: Seq<Node>, p: int, m: Node, b: nat)
    requires
        nodes_wf(old),
        items_depth(old) <= b,
        0 <= p <= old.len(),
        m is List,
        node_wf(m),
        node_depth(m) <= b,
    ensures
        nodes_wf(old.insert(p, m)),
        items_depth(old.insert(p, m)) <= b,
{
    let new = old.insert(p, m);
    lemma_nodes_wf_items_ok(old);
    lemma_items_depth_each_pub(old);
    assert forall|j: int| 0 <= j < new.len() implies node_wf(#[trigger] new[j]) && node_depth(new[j]) <= b by {
        if j < p {
            assert(new[j] == old[j]);
            assert(node_depth(old[j]) <= items_depth(old));
        } else if j > p {
            assert(new[j] == old[j - 1]);
            assert(node_depth(old[j - 1]) <= items_depth(old));
        }
    }
    assert forall|j: int| 1 <= j < new.len() implies !(is_symbol_node(new[j - 1]) && is_symbol_node(#[trigger] new[j])
        && lead_of(new[j]).len() == 0) by {
        if j < p {
            assert(new[j] == old[j] && new[j - 1] == old[j - 1]);
        } else if j > p + 1 {
            assert(new[j] == old[j - 1] && new[j - 1] == old[j - 2]);
        }
    }
    lemma_nodes_wf_items_ok(new);
    lemma_items_depth_bound(new, b);
}

/// A symbol atom for a head, written with no leading whitespace.
proof fn lemma_head_atom_wf(n: Node, h: Seq<char>)
    requires
        n matches Node::Atom { lead, atom: Atom::Symbol(s), raw } && lead@ == Seq::<char>::empty() && s@ == h && raw@ == h,
        is_symbol_text(h),
    ensures
        node_wf(n),
        is_symbol_node(n),
{
}

/// A new `(h v)` is well formed and one level deep.
pub proof fn lemma_scalar_node_wf(m: Node, h: Seq<char>, v: Node)
    requires
        scalar_node(m, h, v),
        is_symbol_text(h),
        v is Atom,
        node_wf(v),
        lead_of(v).len() > 0,
    ensures
        node_wf(m),
        node_depth(m) <= 1,
{
    let items = m->items@;
    lemma_head_atom_wf(items[0], h);
    assert(items_ok(items));
    lemma_nodes_wf_items_ok(items);
    assert(all_ws(seq![' ']));
    assert forall|j: int| 0 <= j < items.len() implies node_depth(#[trigger] items[j]) <= 0 by {}
    lemma_items_depth_bound(items, 0);
}

/// After `scalar_upserted` on well-formed items, with a well-formed atom for a
/// symbol head, the items are well formed and no deeper than `b`.
pub proof fn lemma_scalar_upserted_wf(old: Seq<Node>, new: Seq<Node>, from: int, h: Seq<char>, v: Node, b: nat)
    requires
        scalar_upserted(old, new, from, h, v),
        nodes_wf(old),
        items_depth(old) <= b,
        b >= 1,
        0 <= from,
        is_symbol_text(h),
        v is Atom,
        node_wf(v),
        lead_of(v).len() > 0,
    ensures
        nodes_wf(new),
        items_depth(new) <= b,
{
    lemma_items_depth_each_pub(old);
    lemma_nodes_wf_items_ok(old);
    if has_head(old, from, h) {
        assert forall|j: int| 0 <= j < old.len() implies #[trigger] new[j] == old[j] || (old[j] is List && new[j] is List
            && node_wf(new[j]) && node_depth(new[j]) <= b) by {
            if j >= from && head_of(old[j]) == Some(h) {
                assert(node_wf(old[j]));
                assert(node_depth(old[j]) <= items_depth(old));
                lemma_slot_set_wf(old[j], new[j], 1, v);
            }
        }
        lemma_lists_replaced_wf(old, new, b);
    } else {
        let m = choose|m: Node| #[trigger] scalar_node(m, h, v) && new == old.insert(insert_pos(old.len() as int, from), m);
        lemma_scalar_node_wf(m, h, v);
        lemma_list_inserted_wf(old, insert_pos(old.len() as int, from), m, b);
    }
}

/// A new `(property "key" v)` is well formed and one level deep.
pub proof fn lemma_property_node_wf(m: Node, key: Seq<char>, v: Node)
    requires
        property_node(m, key, v),
        v is Atom,
        node_wf(v),
        lead_of(v).len() > 0,
    ensures
        node_wf(m),
        node_depth(m) <= 1,
{
    let items = m->items@;
    reveal_strlit("property");
    lemma_head_atom_wf(items[0], "property"@);
    assert(items_ok(items));
    lemma_nodes_wf_items_ok(items);
    assert(all_ws(seq![' ']));
    assert forall|j: int| 0 <= j < items.len() implies node_depth(#[trigger] items[j]) <= 0 by {}
    lemma_items_depth_bound(items, 0);
}

/// After `property_upserted` on well-formed items, with a well-formed atom,
/// the items are well formed and no deeper than `b`.
pub proof fn lemma_property_upserted_wf(old: Seq<Node>, new: Seq<Node>, from: int, key: Seq<char>, v: Node, b: nat)
    requires
        property_upserted(old, new, from, key, v),
        nodes_wf(old),
        items_depth(old) <= b,
        b >= 1,
        0 <= from,
        v is Atom,
        node_wf(v),
        lead_of(v).len() > 0,
    ensures
        nodes_wf(new),
        items_depth(new) <= b,
{
    lemma_items_depth_each_pub(old);
    lemma_nodes_wf_items_ok(old);
    if has_prop(old, from, key) {
        assert forall|j: int| 0 <= j < old.len() implies #[trigger] new[j] == old[j] || (old[j] is List && new[j] is List
            && node_wf(new[j]) && node_depth(new[j]) <= b) by {
            if j >= from && is_prop(old[j], key) {
                assert(node_wf(old[j]));
                assert(node_depth(old[j]) <= items_depth(old));
                lemma_slot_set_wf(old[j], new[j], 2, v);
            }
        }
        lemma_lists_replaced_wf(old, new, b);
    } else {
        let m = choose|m: Node| #[trigger] property_node(m, key, v) && new == old.push(m);
        lemma_property_node_wf(m, key, v);
        assert(old.push(m) == old.insert(old.len() as int, m));
        lemma_list_inserted_wf(old, old.len() as int, m, b);
    }
}

/// After `node_upserted` with a well-formed list, the items are well formed
/// and no deeper than `b`.
pub proof fn lemma_node_upserted_wf(old: Seq<Node>, new: Seq<Node>, from: int, h: Seq<char>, node: Node, b: nat)
    requires
        node_upserted(old, new, from, h, node),
        nodes_wf(old),
        items_depth(old) <= b,
        0 <= from,
        node is List,
        node_wf(node),
        node_depth(node) <= b,
    ensures
        nodes_wf(new),
        items_depth(new) <= b,
{
    lemma_last_head_index(old, from, h);
    lemma_nodes_wf_items_ok(old);
    match last_head_index(old, from, h) {
        Some(i) => {
            assert(node_wf(old[i]));
            assert(all_ws(lead_of(old[i])));
            assert(node_wf(new[i]));
            assert(node_depth(new[i]) == node_depth(node)) by {
                assert(node->items@ == new[i]->items@);
            }
            assert forall|j: int| 0 <= j < old.len() implies #[trigger] new[j] == old[j] || (old[j] is List && new[j] is List
                && node_wf(new[j]) && node_depth(new[j]) <= b) by {}
            lemma_lists_replaced_wf(old, new, b);
        },
        None => {
            lemma_list_inserted_wf(old, insert_pos(old.len() as int, from), node, b);
        },
    }
}

/// After `section_scalar_upserted` with a well-formed atom, for symbol
/// heads, the items are well formed and no deeper than `b`.
pub proof fn lemma_section_scalar_upserted_wf(
    old: Seq<Node>,
    new: Seq<Node>,
    from: int,
    sec: Seq<char>,
    h: Seq<char>,
    v: Node,
    b: nat,
)
    requires
        section_scalar_upserted(old, new, from, sec, h, v),
        nodes_wf(old),
        items_depth(old) <= b,
        b >= 2,
        0 <= from,
        is_symbol_text(sec),
        is_symbol_text(h),
        v is Atom,
        node_wf(v),
        lead_of(v).len() > 0,
    ensures
        nodes_wf(new),
        items_depth(new) <= b,
{
    lemma_last_head_index(old, from, sec);
    lemma_nodes_wf_items_ok(old);
    lemma_items_depth_each_pub(old);
    match last_head_index(old, from, sec) {
        Some(i) => {
            let oi = list_items(old[i]);
            assert(node_wf(old[i]));
            assert(node_depth(old[i]) <= items_depth(old));
            assert(nodes_wf(oi));
            assert(items_depth(oi) <= (b - 1) as nat);
            lemma_scalar_upserted_wf(oi, list_items(new[i]), 1, h, v, (b - 1) as nat);
            assert(node_wf(new[i]));
            assert(node_depth(new[i]) <= b);
            assert forall|j: int| 0 <= j < old.len() implies #[trigger] new[j] == old[j] || (old[j] is List && new[j] is List
                && node_wf(new[j]) && node_depth(new[j]) <= b) by {}
            lemma_lists_replaced_wf(old, new, b);
        },
        None => {
            let m = choose|m: Node|
                #[trigger] section_node(m, sec, h, v) && new == old.insert(insert_pos(old.len() as int, from), m);
            let items = m->items@;
            lemma_head_atom_wf(items[0], sec);
            lemma_scalar_node_wf(items[1], h, v);
            assert(items_ok(items));
            lemma_nodes_wf_items_ok(items);
            assert(all_ws(seq![' ']));
            assert forall|j: int| 0 <= j < items.len() implies node_depth(#[trigger] items[j]) <= 1 by {}
            lemma_items_depth_bound(items, 1);
            lemma_list_inserted_wf(old, insert_pos(old.len() as int, from), m, b);
        },
    }
}

/// After `item_set` with a well-formed atom that is not a bare symbol, the
/// items are well formed and no deeper than `b`.
pub proof fn lemma_item_set_wf(old: Seq<Node>, new: Seq<Node>, k: int, v: Node, b: nat)
    requires
        item_set(old, new, k, v),
        nodes_wf(old),
        items_depth(old) <= b,
        0 <= k,
        v is Atom,
        !is_symbol_node(v),
        node_wf(v),
    ensures
        nodes_wf(new),
        items_depth(new) <= b,
{
    lemma_nodes_wf_items_ok(old);
    lemma_items_depth_each_pub(old);
    if old.len() > k && !same_atom_node(old[k], v) {
        assert(node_wf(old[k]));
        assert(all_ws(lead_of(old[k])));
        assert forall|j: int| 0 <= j < new.len() implies node_wf(#[trigger] new[j]) && node_depth(new[j]) <= b by {
            if j != k {
                assert(new[j] == old[j]);
                assert(node_depth(old[j]) <= items_depth(old));
            }
        }
        assert forall|j: int| 1 <= j < new.len() implies !(is_symbol_node(new[j - 1]) && is_symbol_node(#[trigger] new[j])
            && lead_of(new[j]).len() == 0) by {
            if j != k && j - 1 != k {
                assert(new[j] == old[j] && new[j - 1] == old[j - 1]);
            }
        }
        lemma_nodes_wf_items_ok(new);
        lemma_items_depth_bound(new, b);
    } else if old.len() <= k {
        assert forall|j: int| 0 <= j < new.len() implies node_wf(#[trigger] new[j]) && node_depth(new[j]) <= b by {
            if j < old.len() {
                assert(new[j] == old[j]);
                assert(node_depth(old[j]) <= items_depth(old));
            }
        }
        assert forall|j: int| 1 <= j < new.len() implies !(is_symbol_node(new[j - 1]) && is_symbol_node(#[trigger] new[j])
            && lead_of(new[j]).len() == 0) by {
            if j < old.len() {
                assert(new[j] == old[j] && new[j - 1] == old[j - 1]);
            }
        }
        lemma_nodes_wf_items_ok(new);
        lemma_items_depth_bound(new, b);
    }
}

} // verus!
