//! Symbol library documents (`.kicad_sym`): the typed view of a library and
//! the edits that keep its text lossless.
use vstd::prelude::*;

use crate::diagnostic::{collect_version_diagnostics, version_diagnostics, Diagnostic};
use crate::document::{
    items_head, root_head,
    lemma_shell_kept, lemma_tree_ok_of_read, shell_ok, tree_ok, lemma_text_reads_back, lemma_tree_text_reads,
    dirty_error, dirty_message, empty_cst, expect_root_head, lemma_root_replaced_trans, lemma_root_same_text,
    put_root_items, render_cst, rendered, root_is_list, root_items, root_message, root_replaced, take_root_items,
};
use crate::error::Error;
use crate::sexpr::{same_node, the_expression, lemma_reads_as_itself, items_depth, nodes_wf, MAX_DEPTH, lead_of, node_wf, node_depth, lemma_nodes_wf_items_ok, lemma_items_depth_each_pub, all_ws, doc_text, doc_wf, expression_head, is_one_expression, is_symbol_text, parse_one, Atom, CstDocument, Node, ParseError};
use crate::sexpr_edit::{
    atom_quoted, atom_symbol, lemma_int_text_symbol, lemma_property_upserted_reads, lemma_scalar_upserted_noop,
    lemma_scalar_upserted_reads, lemma_scalar_written_already, lemma_slot_set_reads,
    last_prop_value, property_upserted, quoted_atom, remove_property, scalar_already, scalar_upserted,
    scalar_written, set_slot, slot_set, symbol_atom, upsert_property, upsert_scalar, with_items, without_prop,
    lemma_scalar_upserted_unknown, lemma_unknown_kept_update, lemma_property_upserted_keeps_head,
    lemma_removed, lemma_scalar_upserted_wf, lemma_property_upserted_wf, lemma_lists_replaced_wf, lemma_slot_set_wf,
    respaced,
};
use crate::sexpr_utils::{
    any_symbol, any_with_head, atom_string, collect_unknown, collect_with_head, collect_with_heads, count_head,
    count_with_head, deep_second, deep_second_exec, each, filter_head, filter_heads, find_first, find_last,
    find_last_either, first_with_head, has_head, has_symbol, has_symbol_from, any_symbol_from, head_in, head_is,
    head_of, head_text, last_angle, last_angle_exec, last_bool, last_i32, last_real, last_second_bool,
    last_second_i32, last_second_real, last_second_string, last_string, last_with_either, last_with_head, last_xy,
    last_xy_exec, list_items, nth_atom_string, nth_string, ov, parse_xy, rv, second_atom_i32, second_atom_real,
    second_i32, second_real, second_string, string_to_real, text_real, unknown_lists, xy_of, xyv, Real, Xy,
    find_first_index, first_head_index,
};
use crate::text::{i32_to_string, int_text, lemma_parse_int_text, owned, str_eq};
use crate::unknown::{describe_node, unknown_of, UnknownNode};
use crate::write_mode::WriteMode;

verus! {

/// The first `(h N)` item of `s`, at index `from` or later, whose second atom
/// is an `i32`, read as that number.
pub open spec fn first_parsed_i32(s: Seq<Node>, from: int, h: Seq<char>) -> Option<i32>
    decreases s.len(),
{
    if s.len() == 0 {
        None
    } else {
        match first_parsed_i32(s.drop_last(), from, h) {
            Some(v) => Some(v),
            None => if s.len() - 1 >= from && head_of(s.last()) == Some(h) {
                second_atom_i32(s.last())
            } else {
                None
            },
        }
    }
}

/// The first `(h x)` item of `s`, at index `from` or later, whose second atom
/// is a number, read as that number.
pub open spec fn first_parsed_real(s: Seq<Node>, from: int, h: Seq<char>) -> Option<Seq<char>>
    decreases s.len(),
{
    if s.len() == 0 {
        None
    } else {
        match first_parsed_real(s.drop_last(), from, h) {
            Some(v) => Some(v),
            None => if s.len() - 1 >= from && head_of(s.last()) == Some(h) {
                second_atom_real(s.last())
            } else {
                None
            },
        }
    }
}

proof fn lemma_first_parsed_extend(s: Seq<Node>, j: int, from: int, h: Seq<char>)
    requires
        0 <= j <= s.len(),
    ensures
        first_parsed_i32(s.subrange(0, j), from, h) is Some ==> first_parsed_i32(s, from, h) == first_parsed_i32(
            s.subrange(0, j),
            from,
            h,
        ),
        first_parsed_real(s.subrange(0, j), from, h) is Some ==> first_parsed_real(s, from, h) == first_parsed_real(
            s.subrange(0, j),
            from,
            h,
        ),
    decreases s.len() - j,
{
    if j == s.len() {
        assert(s.subrange(0, j) =~= s);
    } else {
        assert(s.subrange(0, j + 1).drop_last() =~= s.subrange(0, j));
        lemma_first_parsed_extend(s, j + 1, from, h);
    }
}

fn first_parsed_i32_exec(items: &Vec<Node>, from: usize, h: &str) -> (r: Option<i32>)
    ensures
        r == first_parsed_i32(items@, from as int, h@),
{
    let mut i: usize = 0;
    while i < items.len()
        invariant
            i <= items.len(),
            first_parsed_i32(items@.subrange(0, i as int), from as int, h@) is None,
        decreases items.len() - i,
    {
        let ghost sub = items@.subrange(0, i + 1);
        assert(sub.drop_last() =~= items@.subrange(0, i as int));
        if i >= from && head_is(&items[i], h) {
            let v = second_i32(&items[i]);
            if v.is_some() {
                proof {
                    lemma_first_parsed_extend(items@, i + 1, from as int, h@);
                }
                return v;
            }
        }
        i = i + 1;
    }
    assert(items@.subrange(0, items.len() as int) =~= items@);
    None
}

fn first_parsed_real_exec(items: &Vec<Node>, from: usize, h: &str) -> (r: Option<Real>)
    ensures
        rv(r) == first_parsed_real(items@, from as int, h@),
{
    let mut i: usize = 0;
    while i < items.len()
        invariant
            i <= items.len(),
            first_parsed_real(items@.subrange(0, i as int), from as int, h@) is None,
        decreases items.len() - i,
    {
        let ghost sub = items@.subrange(0, i + 1);
        assert(sub.drop_last() =~= items@.subrange(0, i as int));
        if i >= from && head_is(&items[i], h) {
            let v = second_real(&items[i]);
            if v.is_some() {
                proof {
                    lemma_first_parsed_extend(items@, i + 1, from as int, h@);
                }
                return v;
            }
        }
        i = i + 1;
    }
    assert(items@.subrange(0, items.len() as int) =~= items@);
    None
}

/// A property of a library symbol: `(property "key" "value" (id N) ...)`.
#[derive(Debug, PartialEq, Eq)]
pub struct SymProperty {
    pub key: String,
    pub value: String,
    pub id: Option<i32>,
}

pub open spec fn or_empty(o: Option<Seq<char>>) -> Seq<char> {
    match o {
        Some(v) => v,
        None => Seq::empty(),
    }
}

pub open spec fn sym_property_of(n: Node, p: SymProperty) -> bool {
    &&& p.key@ == or_empty(nth_atom_string(n, 1))
    &&& p.value@ == or_empty(nth_atom_string(n, 2))
    &&& p.id == first_parsed_i32(list_items(n), 0, "id"@)
}

fn or_empty_exec(o: Option<String>) -> (r: String)
    ensures
        r@ == or_empty(ov(o)),
{
    match o {
        Some(v) => v,
        None => String::new(),
    }
}

fn parse_sym_property(n: &Node) -> (p: SymProperty)
    ensures
        sym_property_of(*n, p),
{
    let empty: Vec<Node> = Vec::new();
    let items = match n {
        Node::List { items, .. } => items,
        Node::Atom { .. } => &empty,
    };
    assert(items@ == list_items(*n));
    SymProperty {
        key: or_empty_exec(nth_string(n, 1)),
        value: or_empty_exec(nth_string(n, 2)),
        id: first_parsed_i32_exec(items, 0, "id"),
    }
}

/// A pin: `(pin type style (at x y angle) (length l) (name ..) (number ..))`.
#[derive(Debug)]
pub struct SymPin {
    pub electrical_type: Option<String>,
    pub graphic_style: Option<String>,
    pub at: Option<Xy>,
    pub angle: Option<Real>,
    pub length: Option<Real>,
    pub name: Option<String>,
    pub number: Option<String>,
    pub hide: bool,
}

pub open spec fn sym_pin_of(n: Node, p: SymPin) -> bool {
    let s = list_items(n);
    &&& ov(p.electrical_type) == nth_atom_string(n, 1)
    &&& ov(p.graphic_style) == nth_atom_string(n, 2)
    &&& xyv(p.at) == last_xy(s, 3, "at"@)
    &&& rv(p.angle) == last_angle(s, 3, "at"@)
    &&& rv(p.length) == last_second_real(s, 3, "length"@)
    &&& ov(p.name) == last_second_string(s, 3, "name"@)
    &&& ov(p.number) == last_second_string(s, 3, "number"@)
    &&& p.hide == (has_head(s, 3, "hide"@) || has_symbol_from(s, 3, "hide"@))
}

fn parse_sym_pin(n: &Node) -> (p: SymPin)
    ensures
        sym_pin_of(*n, p),
{
    let empty: Vec<Node> = Vec::new();
    let items = match n {
        Node::List { items, .. } => items,
        Node::Atom { .. } => &empty,
    };
    assert(items@ == list_items(*n));
    SymPin {
        electrical_type: nth_string(n, 1),
        graphic_style: nth_string(n, 2),
        at: last_xy_exec(items, 3, "at"),
        angle: last_angle_exec(items, 3, "at"),
        length: last_real(items, 3, "length"),
        name: last_string(items, 3, "name"),
        number: last_string(items, 3, "number"),
        hide: any_with_head(items, 3, "hide") || any_symbol_from(items, 3, "hide"),
    }
}

/// A graphic item of a library symbol (`polyline`, `rectangle`, `circle`,
/// `arc` or `text`).
#[derive(Debug)]
pub struct SymGraphic {
    pub token: String,
    pub start: Option<Xy>,
    pub end: Option<Xy>,
    pub center: Option<Xy>,
    pub radius: Option<Real>,
    pub stroke_width: Option<Real>,
    pub stroke_type: Option<String>,
    pub fill_type: Option<String>,
}

/// The point of the last `(center ..)` or `(mid ..)` item.
pub open spec fn center_of(s: Seq<Node>) -> Option<(Seq<char>, Seq<char>)> {
    match last_with_either(s, 1, "center"@, "mid"@) {
        Some(c) => xy_of(c),
        None => None,
    }
}

pub open spec fn sym_graphic_of(n: Node, g: SymGraphic) -> bool {
    let s = list_items(n);
    &&& (match head_of(n) {
        Some(h) => g.token@ == h,
        None => g.token@ == Seq::<char>::empty(),
    })
    &&& xyv(g.start) == last_xy(s, 1, "start"@)
    &&& xyv(g.end) == last_xy(s, 1, "end"@)
    &&& xyv(g.center) == center_of(s)
    &&& rv(g.radius) == last_second_real(s, 1, "radius"@)
    &&& rv(g.stroke_width) == text_real(deep_second(s, 1, seq!["stroke", "width"]))
    &&& ov(g.stroke_type) == deep_second(s, 1, seq!["stroke", "type"])
    &&& ov(g.fill_type) == deep_second(s, 1, seq!["fill", "type"])
}

fn parse_sym_graphic(n: &Node) -> (g: SymGraphic)
    ensures
        sym_graphic_of(*n, g),
{
    let empty: Vec<Node> = Vec::new();
    let items = match n {
        Node::List { items, .. } => items,
        Node::Atom { .. } => &empty,
    };
    assert(items@ == list_items(*n));
    let token = match head_text(n) {
        Some(t) => t,
        None => String::new(),
    };
    let stroke_width = vec!["stroke", "width"];
    let stroke_type = vec!["stroke", "type"];
    let fill_type = vec!["fill", "type"];
    assert(stroke_width@ == seq!["stroke", "width"]);
    assert(stroke_type@ == seq!["stroke", "type"]);
    assert(fill_type@ == seq!["fill", "type"]);
    let center = match find_last_either(items, 1, "center", "mid") {
        Some(c) => parse_xy(c),
        None => None,
    };
    SymGraphic {
        token,
        start: last_xy_exec(items, 1, "start"),
        end: last_xy_exec(items, 1, "end"),
        center,
        radius: last_real(items, 1, "radius"),
        stroke_width: string_to_real(deep_second_exec(items, 1, &stroke_width)),
        stroke_type: deep_second_exec(items, 1, &stroke_type),
        fill_type: deep_second_exec(items, 1, &fill_type),
    }
}

/// The heads of a library symbol's graphic items.
pub open spec fn sym_graphic_tokens() -> Seq<&'static str> {
    seq!["polyline", "rectangle", "circle", "arc", "text"]
}

/// A unit of a library symbol: `(symbol "Name_1_1" (pin ..) (polyline ..) ...)`.
#[derive(Debug)]
pub struct SymUnit {
    pub name: Option<String>,
    pub pin_count: usize,
    pub pins: Vec<SymPin>,
    pub graphic_count: usize,
    pub graphics: Vec<SymGraphic>,
}

pub open spec fn sym_unit_of(n: Node, u: SymUnit) -> bool {
    let s = list_items(n);
    &&& ov(u.name) == nth_atom_string(n, 1)
    &&& each(filter_head(s, 2, "pin"@), u.pins@, |m: Node, p: SymPin| sym_pin_of(m, p))
    &&& u.pin_count == u.pins@.len()
    &&& each(filter_heads(s, 2, sym_graphic_tokens()), u.graphics@, |m: Node, g: SymGraphic| sym_graphic_of(m, g))
    &&& u.graphic_count == u.graphics@.len()
}

fn parse_sym_unit(n: &Node) -> (u: SymUnit)
    ensures
        sym_unit_of(*n, u),
{
    let empty: Vec<Node> = Vec::new();
    let items = match n {
        Node::List { items, .. } => items,
        Node::Atom { .. } => &empty,
    };
    assert(items@ == list_items(*n));
    let tokens = vec!["polyline", "rectangle", "circle", "arc", "text"];
    assert(tokens@ == sym_graphic_tokens());
    let pins = collect_with_head(items, 2, "pin", parse_sym_pin, Ghost(|m: Node, p: SymPin| sym_pin_of(m, p)));
    let graphics = collect_with_heads(items, 2, &tokens, parse_sym_graphic, Ghost(|m: Node, g: SymGraphic| sym_graphic_of(m, g)));
    SymUnit { name: nth_string(n, 1), pin_count: pins.len(), pins, graphic_count: graphics.len(), graphics }
}

/// The number of lists with head `h` in the tree `n`, `n` itself included.
pub open spec fn count_tree(n: Node, h: Seq<char>) -> nat
    decreases n,
{
    match n {
        Node::Atom { .. } => 0,
        Node::List { items, .. } => (if head_of(n) == Some(h) {
            1nat
        } else {
            0nat
        }) + count_forest(items@, h),
    }
}

/// The number of lists with head `h` in the trees `s`.
pub open spec fn count_forest(s: Seq<Node>, h: Seq<char>) -> nat
    decreases s,
{
    if s.len() == 0 {
        0
    } else {
        count_forest(s.drop_last(), h) + count_tree(s.last(), h)
    }
}

/// A count that stops at `usize::MAX`.
pub open spec fn capped(n: nat) -> nat {
    if n > usize::MAX {
        usize::MAX as nat
    } else {
        n
    }
}

proof fn lemma_items_decrease(n: Node)
    requires
        n is List,
    ensures
        forall|j: int| 0 <= j < n->items@.len() ==> decreases_to!(n => n->items@[j]),
{
    assert forall|j: int| 0 <= j < n->items@.len() implies decreases_to!(n => n->items@[j]) by {
        assert(decreases_to!(n => n->items));
        assert(decreases_to!(n->items => n->items@));
        assert(decreases_to!(n->items@ => n->items@[j]));
    }
}

/// Counts the lists with head `h` in the tree `n` (see `count_tree`).
fn count_tree_exec(n: &Node, h: &str) -> (r: usize)
    ensures
        r == capped(count_tree(*n, h@)),
    decreases n,
{
    match n {
        Node::Atom { .. } => 0,
        Node::List { items, .. } => {
            proof {
                lemma_items_decrease(*n);
            }
            let mut count: usize = if head_is(n, h) { 1 } else { 0 };
            let ghost own: nat = if head_of(*n) == Some(h@) { 1nat } else { 0nat };
            let mut i: usize = 0;
            while i < items.len()
                invariant
                    i <= items.len(),
                    *n is List,
                    *items == n->items,
                    forall|j: int| 0 <= j < items.len() ==> decreases_to!(*n => items@[j]),
                    count == capped(own + count_forest(items@.subrange(0, i as int), h@)),
                decreases items.len() - i,
            {
                let c = count_tree_exec(&items[i], h);
                assert(items@.subrange(0, i + 1).drop_last() =~= items@.subrange(0, i as int));
                count = count.saturating_add(c);
                i = i + 1;
            }
            assert(items@.subrange(0, items.len() as int) =~= items@);
            count
        },
    }
}

/// A library symbol.
#[derive(Debug)]
pub struct Symbol {
    pub name: Option<String>,
    pub property_count: usize,
    pub pin_count: usize,
    pub unit_count: usize,
    pub has_embedded_fonts: bool,
    pub properties: Vec<SymProperty>,
    pub pins: Vec<SymPin>,
    pub units: Vec<SymUnit>,
    pub graphics: Vec<SymGraphic>,
    pub graphic_count: usize,
    pub extends: Option<String>,
    pub in_bom: Option<bool>,
    pub on_board: Option<bool>,
    pub pin_names_hide: bool,
    pub pin_names_offset: Option<Real>,
    pub pin_numbers_hide: bool,
    pub power: bool,
    pub exclude_from_sim: Option<bool>,
}

/// Whether the last `(h ...)` item holds a bare `hide` symbol.
pub open spec fn hides(s: Seq<Node>, h: Seq<char>) -> bool {
    match last_with_head(s, 2, h) {
        Some(p) => has_symbol(list_items(p), "hide"@),
        None => false,
    }
}

/// The first numeric `(offset x)` inside the last `(pin_names ...)` item.
pub open spec fn pin_names_offset(s: Seq<Node>) -> Option<Seq<char>> {
    match last_with_head(s, 2, "pin_names"@) {
        Some(p) => first_parsed_real(list_items(p), 0, "offset"@),
        None => None,
    }
}

/// What a library symbol holds, read from `(symbol "Name" ...)`: the
/// properties, pins, units and graphics in order, the last of each single
/// value, and the number of pins in the whole tree.
pub open spec fn symbol_of(n: Node, y: Symbol) -> bool {
    let s = list_items(n);
    &&& ov(y.name) == nth_atom_string(n, 1)
    &&& each(filter_head(s, 2, "property"@), y.properties@, |m: Node, p: SymProperty| sym_property_of(m, p))
    &&& y.property_count == y.properties@.len()
    &&& each(filter_head(s, 2, "pin"@), y.pins@, |m: Node, p: SymPin| sym_pin_of(m, p))
    &&& each(filter_head(s, 2, "symbol"@), y.units@, |m: Node, u: SymUnit| sym_unit_of(m, u))
    &&& y.unit_count == y.units@.len()
    &&& each(filter_heads(s, 2, sym_graphic_tokens()), y.graphics@, |m: Node, g: SymGraphic| sym_graphic_of(m, g))
    &&& y.graphic_count == y.graphics@.len()
    &&& y.pin_count == capped(count_tree(n, "pin"@))
    &&& y.has_embedded_fonts == has_head(s, 2, "embedded_fonts"@)
    &&& ov(y.extends) == last_second_string(s, 2, "extends"@)
    &&& y.in_bom == last_second_bool(s, 2, "in_bom"@)
    &&& y.on_board == last_second_bool(s, 2, "on_board"@)
    &&& y.pin_names_hide == hides(s, "pin_names"@)
    &&& rv(y.pin_names_offset) == pin_names_offset(s)
    &&& y.pin_numbers_hide == hides(s, "pin_numbers"@)
    &&& y.power == has_head(s, 2, "power"@)
    &&& y.exclude_from_sim == last_second_bool(s, 2, "exclude_from_sim"@)
}

fn hides_exec(items: &Vec<Node>, h: &str) -> (r: bool)
    ensures
        r == hides(items@, h@),
{
    match find_last(items, 2, h) {
        Some(i) => match &items[i] {
            Node::List { items: inner, .. } => any_symbol(inner, "hide"),
            Node::Atom { .. } => false,
        },
        None => false,
    }
}

fn pin_names_offset_exec(items: &Vec<Node>) -> (r: Option<Real>)
    ensures
        rv(r) == pin_names_offset(items@),
{
    match find_last(items, 2, "pin_names") {
        Some(i) => match &items[i] {
            Node::List { items: inner, .. } => first_parsed_real_exec(inner, 0, "offset"),
            Node::Atom { .. } => None,
        },
        None => None,
    }
}

fn parse_symbol(n: &Node) -> (y: Symbol)
    ensures
        symbol_of(*n, y),
{
    let empty: Vec<Node> = Vec::new();
    let items = match n {
        Node::List { items, .. } => items,
        Node::Atom { .. } => &empty,
    };
    assert(items@ == list_items(*n));
    let tokens = vec!["polyline", "rectangle", "circle", "arc", "text"];
    assert(tokens@ == sym_graphic_tokens());
    let properties = collect_with_head(items, 2, "property", parse_sym_property, Ghost(|m: Node, p: SymProperty| sym_property_of(m, p)));
    let pins = collect_with_head(items, 2, "pin", parse_sym_pin, Ghost(|m: Node, p: SymPin| sym_pin_of(m, p)));
    let units = collect_with_head(items, 2, "symbol", parse_sym_unit, Ghost(|m: Node, u: SymUnit| sym_unit_of(m, u)));
    let graphics = collect_with_heads(items, 2, &tokens, parse_sym_graphic, Ghost(|m: Node, g: SymGraphic| sym_graphic_of(m, g)));
    Symbol {
        name: nth_string(n, 1),
        property_count: properties.len(),
        pin_count: count_tree_exec(n, "pin"),
        unit_count: units.len(),
        has_embedded_fonts: any_with_head(items, 2, "embedded_fonts"),
        properties,
        pins,
        units,
        graphic_count: graphics.len(),
        graphics,
        extends: last_string(items, 2, "extends"),
        in_bom: last_bool(items, 2, "in_bom"),
        on_board: last_bool(items, 2, "on_board"),
        pin_names_hide: hides_exec(items, "pin_names"),
        pin_names_offset: pin_names_offset_exec(items),
        pin_numbers_hide: hides_exec(items, "pin_numbers"),
        power: any_with_head(items, 2, "power"),
        exclude_from_sim: last_bool(items, 2, "exclude_from_sim"),
    }
}

/// The typed view of a symbol library.
#[derive(Debug)]
pub struct SymbolLibAst {
    pub version: Option<i32>,
    pub generator: Option<String>,
    pub generator_version: Option<String>,
    pub symbol_count: usize,
    pub total_property_count: usize,
    pub total_pin_count: usize,
    pub symbols: Vec<Symbol>,
    pub unknown_nodes: Vec<UnknownNode>,
}

pub open spec fn total_properties(v: Seq<Symbol>) -> nat
    decreases v.len(),
{
    if v.len() == 0 {
        0
    } else {
        total_properties(v.drop_last()) + (v.last().property_count as nat)
    }
}

pub open spec fn total_pins(v: Seq<Symbol>) -> nat
    decreases v.len(),
{
    if v.len() == 0 {
        0
    } else {
        total_pins(v.drop_last()) + (v.last().pin_count as nat)
    }
}

/// The heads that the typed view of a symbol library reads.
pub open spec fn symbol_lib_known() -> Seq<&'static str> {
    seq!["version", "generator", "generator_version", "symbol"]
}

/// An edit from `old` to `new` root items keeps, in order, every list whose
/// head the typed view does not read.
pub open spec fn unknown_kept(old: Seq<Node>, new: Seq<Node>) -> bool {
    unknown_lists(new, 1, symbol_lib_known()) == unknown_lists(old, 1, symbol_lib_known())
}

/// What the typed view of a symbol library holds, read from the items of its
/// root list.
pub open spec fn symbol_lib_ast_of(s: Seq<Node>, a: SymbolLibAst) -> bool {
    &&& a.version == last_second_i32(s, 1, "version"@)
    &&& ov(a.generator) == last_second_string(s, 1, "generator"@)
    &&& ov(a.generator_version) == last_second_string(s, 1, "generator_version"@)
    &&& each(filter_head(s, 1, "symbol"@), a.symbols@, |m: Node, y: Symbol| symbol_of(m, y))
    &&& a.symbol_count == a.symbols@.len()
    &&& a.total_property_count == capped(total_properties(a.symbols@))
    &&& a.total_pin_count == capped(total_pins(a.symbols@))
    &&& each(unknown_lists(s, 1, symbol_lib_known()), a.unknown_nodes@, |m: Node, u: UnknownNode| unknown_of(m, u))
}

fn totals(symbols: &Vec<Symbol>) -> (r: (usize, usize))
    ensures
        r.0 == capped(total_properties(symbols@)),
        r.1 == capped(total_pins(symbols@)),
{
    let mut props: usize = 0;
    let mut pins: usize = 0;
    let mut i: usize = 0;
    while i < symbols.len()
        invariant
            i <= symbols.len(),
            props == capped(total_properties(symbols@.subrange(0, i as int))),
            pins == capped(total_pins(symbols@.subrange(0, i as int))),
        decreases symbols.len() - i,
    {
        assert(symbols@.subrange(0, i + 1).drop_last() =~= symbols@.subrange(0, i as int));
        props = props.saturating_add(symbols[i].property_count);
        pins = pins.saturating_add(symbols[i].pin_count);
        i = i + 1;
    }
    assert(symbols@.subrange(0, symbols.len() as int) =~= symbols@);
    (props, pins)
}

/// Reads the typed view of a symbol library from the items of its root list.
pub fn parse_symbol_lib_ast(items: &Vec<Node>) -> (a: SymbolLibAst)
    ensures
        symbol_lib_ast_of(items@, a),
{
    let known = vec!["version", "generator", "generator_version", "symbol"];
    assert(known@ == symbol_lib_known());
    let symbols = collect_with_head(items, 1, "symbol", parse_symbol, Ghost(|m: Node, y: Symbol| symbol_of(m, y)));
    let (total_property_count, total_pin_count) = totals(&symbols);
    SymbolLibAst {
        version: last_i32(items, 1, "version"),
        generator: last_string(items, 1, "generator"),
        generator_version: last_string(items, 1, "generator_version"),
        symbol_count: symbols.len(),
        total_property_count,
        total_pin_count,
        symbols,
        unknown_nodes: collect_unknown(items, 1, &known, describe_node, Ghost(|m: Node, u: UnknownNode| unknown_of(m, u))),
    }
}

/// A `(symbol "name" ...)` item.
pub open spec fn is_named_symbol(n: Node, name: Seq<char>) -> bool {
    head_of(n) == Some("symbol"@) && nth_atom_string(n, 1) == Some(name)
}

/// The index of the first `(symbol "name" ...)` at index 1 or later.
pub open spec fn first_named(s: Seq<Node>, name: Seq<char>) -> Option<int>
    decreases s.len(),
{
    if s.len() == 0 {
        None
    } else {
        match first_named(s.drop_last(), name) {
            Some(i) => Some(i),
            None => if s.len() - 1 >= 1 && is_named_symbol(s.last(), name) {
                Some(s.len() - 1)
            } else {
                None
            },
        }
    }
}

proof fn lemma_first_named_extend(s: Seq<Node>, j: int, name: Seq<char>)
    requires
        0 <= j <= s.len(),
        first_named(s.subrange(0, j), name) is Some,
    ensures
        first_named(s, name) == first_named(s.subrange(0, j), name),
    decreases s.len() - j,
{
    if j == s.len() {
        assert(s.subrange(0, j) =~= s);
    } else {
        assert(s.subrange(0, j + 1).drop_last() =~= s.subrange(0, j));
        lemma_first_named_extend(s, j + 1, name);
    }
}

fn find_symbol_index(items: &Vec<Node>, name: &str) -> (r: Option<usize>)
    ensures
        match r {
            Some(i) => first_named(items@, name@) == Some(i as int) && 1 <= i < items.len() && is_named_symbol(
                items@[i as int],
                name@,
            ),
            None => first_named(items@, name@) is None,
        },
{
    let mut i: usize = 0;
    while i < items.len()
        invariant
            i <= items.len(),
            first_named(items@.subrange(0, i as int), name@) is None,
        decreases items.len() - i,
    {
        let ghost sub = items@.subrange(0, i + 1);
        assert(sub.drop_last() =~= items@.subrange(0, i as int));
        if i >= 1 && head_is(&items[i], "symbol") {
            let named = match nth_string(&items[i], 1) {
                Some(v) => str_eq(v.as_str(), name),
                None => false,
            };
            if named {
                proof {
                    lemma_first_named_extend(items@, i + 1, name@);
                }
                return Some(i);
            }
        }
        i = i + 1;
    }
    assert(items@.subrange(0, items.len() as int) =~= items@);
    None
}

/// `new` is `old` with only the list at `i` changed, to hold `items`.
pub open spec fn list_edited(old: Seq<Node>, new: Seq<Node>, i: int, items: Seq<Node>) -> bool {
    &&& 0 <= i < old.len()
    &&& new.len() == old.len()
    &&& forall|j: int| 0 <= j < old.len() && j != i ==> new[j] == old[j]
    &&& with_items(old[i], new[i], items)
}

/// Takes the list at `i` apart: its items, and the rest of it.
fn take_list(items: &mut Vec<Node>, i: usize) -> (r: (String, Vec<Node>, String))
    requires
        i < old(items).len(),
        old(items)@[i as int] is List,
    ensures
        final(items)@ == old(items)@.remove(i as int),
        r.0 == old(items)@[i as int]->List_lead,
        r.1@ == list_items(old(items)@[i as int]),
        r.2 == old(items)@[i as int]->tail,
{
    let n = items.remove(i);
    match n {
        Node::List { lead, items: inner, tail } => (lead, inner, tail),
        Node::Atom { .. } => {
            proof {
                assert(false);
            }
            (String::new(), Vec::new(), String::new())
        },
    }
}

/// A symbol library document: its text, kept losslessly, and the typed view
/// read from it.
#[derive(Debug)]
pub struct SymbolLibDocument {
    ast: SymbolLibAst,
    cst: CstDocument,
    diagnostics: Vec<Diagnostic>,
    ast_dirty: bool,
}

impl SymbolLibDocument {
    pub closed spec fn spec_ast(&self) -> SymbolLibAst {
        self.ast
    }

    pub closed spec fn spec_cst(&self) -> CstDocument {
        self.cst
    }

    pub closed spec fn spec_diagnostics(&self) -> Seq<Diagnostic> {
        self.diagnostics@
    }

    /// Whether the typed view was changed directly (through `ast_mut`).
    pub closed spec fn spec_dirty(&self) -> bool {
        self.ast_dirty
    }

    /// The document's invariant: its root is a single list, its diagnostics
    /// are those of its format version, and its typed view is read from its
    /// text unless it was changed directly.
    pub open spec fn wf(&self) -> bool {
        &&& self.spec_cst().nodes.len() == 1
        &&& tree_ok(self.spec_cst())
        &&& root_head(self.spec_cst()) == Some("kicad_symbol_lib"@)
        &&& root_is_list(self.spec_cst())
        &&& version_diagnostics(last_second_i32(root_items(self.spec_cst()), 1, "version"@), self.spec_diagnostics())
        &&& !self.spec_dirty() ==> symbol_lib_ast_of(root_items(self.spec_cst()), self.spec_ast())
    }

    /// The document after an edit of its root items: the text holds `items`,
    /// and the typed view and diagnostics are read anew.
    pub open spec fn refreshed(old: Self, new: Self, items: Seq<Node>) -> bool {
        &&& root_replaced(old.spec_cst(), new.spec_cst(), items)
        &&& root_items(new.spec_cst()) == items
        &&& !new.spec_dirty()
        &&& new.wf()
    }

    fn from_cst(cst: CstDocument) -> (d: Self)
        requires
            tree_ok(cst),
            cst.nodes.len() == 1,
            root_is_list(cst),
            root_head(cst) == Some("kicad_symbol_lib"@),
        ensures
            d.spec_cst() == cst,
            !d.spec_dirty(),
            d.wf(),
    {
        let ast = match &cst.nodes[0] {
            Node::List { items, .. } => parse_symbol_lib_ast(items),
            Node::Atom { .. } => {
                let empty: Vec<Node> = Vec::new();
                parse_symbol_lib_ast(&empty)
            },
        };
        let diagnostics = collect_version_diagnostics(ast.version);
        SymbolLibDocument { ast, cst, diagnostics, ast_dirty: false }
    }

    fn take_items(&mut self) -> (items: Vec<Node>)
        requires
            old(self).wf(),
        ensures
            items@ == root_items(old(self).spec_cst()),
            root_replaced(old(self).spec_cst(), final(self).spec_cst(), Seq::empty()),
            final(self).spec_cst().nodes.len() == 1,
            root_is_list(final(self).spec_cst()),
            shell_ok(final(self).spec_cst()),
            nodes_wf(items@),
            items_depth(items@) < MAX_DEPTH,
            items_head(items@) == Some("kicad_symbol_lib"@),
    {
        let mut cst = empty_cst();
        std::mem::swap(&mut cst, &mut self.cst);
        let (cst, items) = take_root_items(cst);
        proof {
            lemma_shell_kept(old(self).spec_cst(), cst, Seq::empty());
        }
        self.cst = cst;
        items
    }

    fn finish(&mut self, items: Vec<Node>)
        requires
            old(self).spec_cst().nodes.len() == 1,
            root_is_list(old(self).spec_cst()),
            shell_ok(old(self).spec_cst()),
            nodes_wf(items@),
            items_depth(items@) < MAX_DEPTH,
            items_head(items@) == Some("kicad_symbol_lib"@),
        ensures
            root_replaced(old(self).spec_cst(), final(self).spec_cst(), items@),
            root_items(final(self).spec_cst()) == items@,
            !final(self).spec_dirty(),
            final(self).wf(),
    {
        let mut cst = empty_cst();
        std::mem::swap(&mut cst, &mut self.cst);
 let ghost gi = items@;
        let cst = put_root_items(cst, items);
        proof {
            lemma_shell_kept(old(self).spec_cst(), cst, gi);
        }
        *self = SymbolLibDocument::from_cst(cst);
    }

    /// The typed view.
    pub fn ast(&self) -> (r: &SymbolLibAst)
        ensures
            *r == self.spec_ast(),
    {
        &self.ast
    }

    /// The typed view, for changes that cannot be written back: after this
    /// call, writing the document fails.
    pub fn ast_mut(&mut self) -> (r: &mut SymbolLibAst)
        ensures
            *r == old(self).spec_ast(),
            final(self).spec_ast() == *final(r),
            final(self).spec_cst() == old(self).spec_cst(),
            final(self).spec_diagnostics() == old(self).spec_diagnostics(),
            final(self).spec_dirty(),
            old(self).wf() ==> final(self).wf(),
    {
        self.ast_dirty = true;
        &mut self.ast
    }

    /// The syntax tree.
    pub fn cst(&self) -> (r: &CstDocument)
        ensures
            *r == self.spec_cst(),
    {
        &self.cst
    }

    /// The diagnostics found when the document was read or last edited.
    pub fn diagnostics(&self) -> (r: &Vec<Diagnostic>)
        ensures
            r@ == self.spec_diagnostics(),
    {
        &self.diagnostics
    }

    /// The text of the document in the given mode; refused once the typed
    /// view was changed directly.
    pub fn render(&self, mode: WriteMode) -> (r: Result<String, Error>)
        ensures
            r is Err <==> self.spec_dirty(),
            r matches Ok(s) ==> s@ == rendered(self.spec_cst(), mode),
            r matches Err(e) ==> e matches Error::Validation(m) && m@ == dirty_message(),
    {
        if self.ast_dirty {
            return Err(dirty_error());
        }
        Ok(render_cst(&self.cst, mode))
    }

    fn set_scalar(&mut self, h: &str, v: Node)
        requires
            old(self).wf(),
            v is Atom,
            node_wf(v),
            lead_of(v).len() > 0,
            is_symbol_text(h@),
            exists|i: int| 0 <= i < symbol_lib_known().len() && symbol_lib_known()[i]@ == h@,
        ensures
            unknown_kept(root_items(old(self).spec_cst()), root_items(final(self).spec_cst())),
            scalar_upserted(root_items(old(self).spec_cst()), root_items(final(self).spec_cst()), 1, h@, v),
            Self::refreshed(*old(self), *final(self), root_items(final(self).spec_cst())),
            root_items(old(self).spec_cst()).len() >= 1 ==> last_second_string(root_items(final(self).spec_cst()), 1, h@)
                == atom_string(v),
            scalar_already(root_items(old(self).spec_cst()), 1, h@, v) ==> doc_text(final(self).spec_cst()) == doc_text(
                old(self).spec_cst(),
            ),
    {
        let items = self.take_items();
        let ghost old_items = items@;
        let ghost gv = v;
        let items = upsert_scalar(items, 1, h, v);
        proof {
            lemma_scalar_upserted_wf(old_items, items@, 1, h@, gv, (MAX_DEPTH - 1) as nat);
        }
        let ghost mid = self.spec_cst();
        self.finish(items);
        proof {
            lemma_root_replaced_trans(old(self).spec_cst(), mid, self.spec_cst(), Seq::empty(), items@);
            if old_items.len() >= 1 {
                lemma_scalar_upserted_reads(old_items, items@, 1, h@, v);
                lemma_scalar_upserted_unknown(old_items, items@, 1, h@, v, symbol_lib_known());
            }
            if scalar_already(old_items, 1, h@, v) {
                lemma_scalar_upserted_noop(old_items, items@, 1, h@, v);
                lemma_root_same_text(old(self).spec_cst(), self.spec_cst());
            }
        }
    }

    /// Sets the format version: `(version N)`.
    pub fn set_version(&mut self, version: i32) -> (r: &mut Self)
        requires
            old(self).wf(),
        ensures
            *final(self) == *final(r),
            exists|v: Node|
                #[trigger] symbol_atom(v, int_text(version as int)) && scalar_upserted(
                    root_items(old(self).spec_cst()),
                    root_items(r.spec_cst()),
                    1,
                    "version"@,
                    v,
                ),
            Self::refreshed(*old(self), *r, root_items(r.spec_cst())),
            unknown_kept(root_items(old(self).spec_cst()), root_items(r.spec_cst())),
            root_items(old(self).spec_cst()).len() >= 1 ==> r.spec_ast().version == Some(version),
            scalar_written(root_items(old(self).spec_cst()), 1, "version"@, int_text(version as int), false) ==> doc_text(
                r.spec_cst(),
            ) == doc_text(old(self).spec_cst()),
    {
        let v = atom_symbol(i32_to_string(version));
        let ghost gv = v;
        proof {
            lemma_int_text_symbol(version);
            lemma_parse_int_text(version);
            if scalar_written(root_items(old(self).spec_cst()), 1, "version"@, int_text(version as int), false) {
                lemma_scalar_written_already(root_items(old(self).spec_cst()), 1, "version"@, int_text(version as int), gv, false);
            }
        }
        proof {
            reveal_strlit("version");
        }
        assert(symbol_lib_known()[0]@ == "version"@);
        self.set_scalar("version", v);
        assert(symbol_atom(gv, int_text(version as int)));
        self
    }

    /// Sets the generator: `(generator name)`.
    pub fn set_generator(&mut self, generator: String) -> (r: &mut Self)
        requires
            old(self).wf(),
        ensures
            *final(self) == *final(r),
            exists|v: Node|
                #[trigger] symbol_atom(v, generator@) && scalar_upserted(
                    root_items(old(self).spec_cst()),
                    root_items(r.spec_cst()),
                    1,
                    "generator"@,
                    v,
                ),
            Self::refreshed(*old(self), *r, root_items(r.spec_cst())),
            unknown_kept(root_items(old(self).spec_cst()), root_items(r.spec_cst())),
            root_items(old(self).spec_cst()).len() >= 1 ==> ov(r.spec_ast().generator) == Some(generator@),
            scalar_written(root_items(old(self).spec_cst()), 1, "generator"@, generator@, !is_symbol_text(generator@))
                ==> doc_text(r.spec_cst()) == doc_text(old(self).spec_cst()),
    {
        let ghost g = generator@;
        let v = atom_symbol(generator);
        let ghost gv = v;
        proof {
            if scalar_written(root_items(old(self).spec_cst()), 1, "generator"@, g, !is_symbol_text(g)) {
                lemma_scalar_written_already(root_items(old(self).spec_cst()), 1, "generator"@, g, gv, !is_symbol_text(g));
            }
        }
        proof {
            reveal_strlit("generator");
        }
        assert(symbol_lib_known()[1]@ == "generator"@);
        self.set_scalar("generator", v);
        assert(symbol_atom(gv, g));
        self
    }

    /// Sets the generator version: `(generator_version "text")`.
    pub fn set_generator_version(&mut self, generator_version: String) -> (r: &mut Self)
        requires
            old(self).wf(),
        ensures
            *final(self) == *final(r),
            exists|v: Node|
                #[trigger] quoted_atom(v, generator_version@) && scalar_upserted(
                    root_items(old(self).spec_cst()),
                    root_items(r.spec_cst()),
                    1,
                    "generator_version"@,
                    v,
                ),
            Self::refreshed(*old(self), *r, root_items(r.spec_cst())),
            unknown_kept(root_items(old(self).spec_cst()), root_items(r.spec_cst())),
            root_items(old(self).spec_cst()).len() >= 1 ==> ov(r.spec_ast().generator_version) == Some(
                generator_version@,
            ),
            scalar_written(root_items(old(self).spec_cst()), 1, "generator_version"@, generator_version@, true)
                ==> doc_text(r.spec_cst()) == doc_text(old(self).spec_cst()),
    {
        let ghost g = generator_version@;
        let v = atom_quoted(generator_version);
        let ghost gv = v;
        proof {
            if scalar_written(root_items(old(self).spec_cst()), 1, "generator_version"@, g, true) {
                lemma_scalar_written_already(root_items(old(self).spec_cst()), 1, "generator_version"@, g, gv, true);
            }
        }
        proof {
            reveal_strlit("generator_version");
        }
        assert(symbol_lib_known()[2]@ == "generator_version"@);
        self.set_scalar("generator_version", v);
        assert(quoted_atom(gv, g));
        self
    }

    fn rename_at(&mut self, idx: Option<usize>, to: String)
        requires
            old(self).wf(),
            idx matches Some(i) ==> 1 <= i < root_items(old(self).spec_cst()).len() && root_items(
                old(self).spec_cst(),
            )[i as int] is List && head_of(root_items(old(self).spec_cst())[i as int]) == Some("symbol"@),
        ensures
            unknown_kept(root_items(old(self).spec_cst()), root_items(final(self).spec_cst())),
            Self::refreshed(*old(self), *final(self), root_items(final(self).spec_cst())),
            match idx {
                Some(i) => list_items(root_items(old(self).spec_cst())[i as int]).len() > 1 ==> {
                    &&& exists|v: Node|
                        #[trigger] quoted_atom(v, to@) && slot_set(
                            root_items(old(self).spec_cst())[i as int],
                            root_items(final(self).spec_cst())[i as int],
                            1,
                            v,
                        )
                    &&& root_items(final(self).spec_cst()).len() == root_items(old(self).spec_cst()).len()
                    &&& forall|j: int|
                        0 <= j < root_items(old(self).spec_cst()).len() && j != i ==> root_items(
                            final(self).spec_cst(),
                        )[j] == root_items(old(self).spec_cst())[j]
                    &&& nth_atom_string(root_items(final(self).spec_cst())[i as int], 1) == Some(to@)
                },
                None => true,
            },
            match idx {
                Some(i) => list_items(root_items(old(self).spec_cst())[i as int]).len() <= 1 ==> root_items(
                    final(self).spec_cst(),
                ) == root_items(old(self).spec_cst()),
                None => root_items(final(self).spec_cst()) == root_items(old(self).spec_cst()),
            },
    {
        let mut items = self.take_items();
        let ghost orig = items@;
        match idx {
            Some(i) => {
                let long = match &items[i] {
                    Node::List { items: inner, .. } => inner.len() > 1,
                    Node::Atom { .. } => false,
                };
                if long {
                    let ghost g = to@;
                    let n = items.remove(i);
                    let v = atom_quoted(to);
                    let ghost gv = v;
                    let ghost gn = n;
                    let n2 = set_slot(n, 1, v);
                    proof {
                        lemma_slot_set_reads(gn, n2, 1, gv);
                        lemma_nodes_wf_items_ok(orig);
                        lemma_items_depth_each_pub(orig);
                        assert(node_wf(orig[i as int]));
                        lemma_slot_set_wf(gn, n2, 1, gv);
                    }
                    items.insert(i, n2);
                    assert(items@ =~= orig.update(i as int, n2));
                    proof {
                        assert(node_depth(orig[i as int]) <= items_depth(orig));
                        lemma_lists_replaced_wf(orig, items@, (MAX_DEPTH - 1) as nat);
                    }
                    assert(quoted_atom(gv, g));
                    proof {
                        assert(symbol_lib_known()[3]@ == "symbol"@);
                        assert(head_of(n2) == Some(symbol_lib_known()[3]@));
                        lemma_unknown_kept_update(orig, items@, 1, symbol_lib_known());
                    }
                }
            },
            None => {},
        }
        let ghost mid = self.spec_cst();
        let ghost fin = items@;
        self.finish(items);
        proof {
            lemma_root_replaced_trans(old(self).spec_cst(), mid, self.spec_cst(), Seq::empty(), fin);
        }
    }

    /// Renames the first `(symbol "from" ...)` to `to`.
    pub fn rename_symbol(&mut self, from: &str, to: String) -> (r: &mut Self)
        requires
            old(self).wf(),
        ensures
            *final(self) == *final(r),
            Self::refreshed(*old(self), *r, root_items(r.spec_cst())),
            unknown_kept(root_items(old(self).spec_cst()), root_items(r.spec_cst())),
            match first_named(root_items(old(self).spec_cst()), from@) {
                Some(i) => {
                    &&& exists|v: Node|
                        #[trigger] quoted_atom(v, to@) && slot_set(
                            root_items(old(self).spec_cst())[i],
                            root_items(r.spec_cst())[i],
                            1,
                            v,
                        )
                    &&& root_items(r.spec_cst()).len() == root_items(old(self).spec_cst()).len()
                    &&& forall|j: int|
                        0 <= j < root_items(old(self).spec_cst()).len() && j != i ==> root_items(r.spec_cst())[j]
                            == root_items(old(self).spec_cst())[j]
                    &&& nth_atom_string(root_items(r.spec_cst())[i], 1) == Some(to@)
                },
                None => root_items(r.spec_cst()) == root_items(old(self).spec_cst()),
            },
    {
        let idx = {
            let items = match &self.cst.nodes[0] {
                Node::List { items, .. } => items,
                Node::Atom { .. } => {
                    proof {
                        assert(false);
                    }
                    return self;
                },
            };
            find_symbol_index(items, from)
        };
        self.rename_at(idx, to);
        self
    }

    /// Renames the first `(symbol ...)` of the library to `to`.
    pub fn rename_first_symbol(&mut self, to: String) -> (r: &mut Self)
        requires
            old(self).wf(),
        ensures
            *final(self) == *final(r),
            Self::refreshed(*old(self), *r, root_items(r.spec_cst())),
            unknown_kept(root_items(old(self).spec_cst()), root_items(r.spec_cst())),
            match first_head_index(root_items(old(self).spec_cst()), 1, "symbol"@) {
                Some(i) => list_items(root_items(old(self).spec_cst())[i]).len() > 1 ==> {
                    &&& exists|v: Node|
                        #[trigger] quoted_atom(v, to@) && slot_set(
                            root_items(old(self).spec_cst())[i],
                            root_items(r.spec_cst())[i],
                            1,
                            v,
                        )
                    &&& root_items(r.spec_cst()).len() == root_items(old(self).spec_cst()).len()
                    &&& forall|j: int|
                        0 <= j < root_items(old(self).spec_cst()).len() && j != i ==> root_items(r.spec_cst())[j]
                            == root_items(old(self).spec_cst())[j]
                    &&& nth_atom_string(root_items(r.spec_cst())[i], 1) == Some(to@)
                },
                None => root_items(r.spec_cst()) == root_items(old(self).spec_cst()),
            },
            match first_head_index(root_items(old(self).spec_cst()), 1, "symbol"@) {
                Some(i) => list_items(root_items(old(self).spec_cst())[i]).len() <= 1 ==> root_items(r.spec_cst())
                    == root_items(old(self).spec_cst()),
                None => true,
            },
    {
        let idx = {
            let items = match &self.cst.nodes[0] {
                Node::List { items, .. } => items,
                Node::Atom { .. } => {
                    proof {
                        assert(false);
                    }
                    return self;
                },
            };
            find_first_index(items, 1, "symbol")
        };
        self.rename_at(idx, to);
        self
    }

    /// Sets `(property "key" "value")` in the first `(symbol "name" ...)`,
    /// keeping what follows the value of an existing property.
    pub fn upsert_symbol_property(&mut self, symbol_name: &str, key: &str, value: String) -> (r: &mut Self)
        requires
            old(self).wf(),
        ensures
            *final(self) == *final(r),
            Self::refreshed(*old(self), *r, root_items(r.spec_cst())),
            unknown_kept(root_items(old(self).spec_cst()), root_items(r.spec_cst())),
            match first_named(root_items(old(self).spec_cst()), symbol_name@) {
                Some(i) => {
                    &&& list_edited(
                        root_items(old(self).spec_cst()),
                        root_items(r.spec_cst()),
                        i,
                        list_items(root_items(r.spec_cst())[i]),
                    )
                    &&& exists|v: Node|
                        #[trigger] quoted_atom(v, value@) && property_upserted(
                            list_items(root_items(old(self).spec_cst())[i]),
                            list_items(root_items(r.spec_cst())[i]),
                            2,
                            key@,
                            v,
                        )
                    &&& last_prop_value(list_items(root_items(r.spec_cst())[i]), 2, key@) == Some(value@)
                },
                None => root_items(r.spec_cst()) == root_items(old(self).spec_cst()),
            },
    {
        let mut items = self.take_items();
        let ghost orig = items@;
        match find_symbol_index(&items, symbol_name) {
            Some(i) => {
                let ghost g = value@;
                let (lead, inner, tail) = take_list(&mut items, i);
                let ghost oi = inner@;
                let v = atom_quoted(value);
                let ghost gv = v;
                let inner2 = upsert_property(inner, 2, key, v);
                proof {
                    lemma_property_upserted_reads(oi, inner2@, 2, key@, gv);
                    lemma_property_upserted_keeps_head(oi, inner2@, 2, key@, gv);
                    lemma_nodes_wf_items_ok(orig);
                    lemma_items_depth_each_pub(orig);
                    assert(node_wf(orig[i as int]));
                    assert(node_depth(orig[i as int]) <= items_depth(orig));
                    lemma_property_upserted_wf(oi, inner2@, 2, key@, gv, (MAX_DEPTH - 2) as nat);
                }
                let n = Node::List { lead, items: inner2, tail };
                items.insert(i, n);
                assert(items@ =~= orig.update(i as int, n));
                proof {
                    lemma_lists_replaced_wf(orig, items@, (MAX_DEPTH - 1) as nat);
                }
                assert(quoted_atom(gv, g));
                proof {
                    assert(symbol_lib_known()[3]@ == "symbol"@);
                    assert(head_of(n) == Some(symbol_lib_known()[3]@));
                    lemma_unknown_kept_update(orig, items@, 1, symbol_lib_known());
                }
            },
            None => {},
        }
        let ghost mid = self.spec_cst();
        let ghost fin = items@;
        self.finish(items);
        proof {
            lemma_root_replaced_trans(old(self).spec_cst(), mid, self.spec_cst(), Seq::empty(), fin);
        }
        self
    }

    /// Removes every `(property "key" ...)` from the first `(symbol "name" ...)`.
    pub fn remove_symbol_property(&mut self, symbol_name: &str, key: &str) -> (r: &mut Self)
        requires
            old(self).wf(),
        ensures
            *final(self) == *final(r),
            Self::refreshed(*old(self), *r, root_items(r.spec_cst())),
            unknown_kept(root_items(old(self).spec_cst()), root_items(r.spec_cst())),
            match first_named(root_items(old(self).spec_cst()), symbol_name@) {
                Some(i) => {
                    &&& list_edited(
                        root_items(old(self).spec_cst()),
                        root_items(r.spec_cst()),
                        i,
                        list_items(root_items(r.spec_cst())[i]),
                    )
                    &&& respaced(
                        without_prop(list_items(root_items(old(self).spec_cst())[i]), 2, key@),
                        list_items(root_items(r.spec_cst())[i]),
                    )
                    &&& last_prop_value(list_items(root_items(r.spec_cst())[i]), 2, key@) is None
                },
                None => root_items(r.spec_cst()) == root_items(old(self).spec_cst()),
            },
    {
        let mut items = self.take_items();
        let ghost orig = items@;
        match find_symbol_index(&items, symbol_name) {
            Some(i) => {
                let (lead, inner, tail) = take_list(&mut items, i);
                let ghost oi = inner@;
                let inner2 = remove_property(inner, 2, key);
                proof {
                    lemma_nodes_wf_items_ok(orig);
                    lemma_items_depth_each_pub(orig);
                    assert(node_wf(orig[i as int]));
                    assert(node_depth(orig[i as int]) <= items_depth(orig));
                    lemma_removed(oi, inner2@, 2, key@, symbol_lib_known());
                }
                let n = Node::List { lead, items: inner2, tail };
                items.insert(i, n);
                assert(items@ =~= orig.update(i as int, n));
                proof {
                    lemma_lists_replaced_wf(orig, items@, (MAX_DEPTH - 1) as nat);
                }
                proof {
                    assert(symbol_lib_known()[3]@ == "symbol"@);
                    assert(head_of(n) == Some(symbol_lib_known()[3]@));
                    lemma_unknown_kept_update(orig, items@, 1, symbol_lib_known());
                }
            },
            None => {},
        }
        let ghost mid = self.spec_cst();
        let ghost fin = items@;
        self.finish(items);
        proof {
            lemma_root_replaced_trans(old(self).spec_cst(), mid, self.spec_cst(), Seq::empty(), fin);
        }
        self
    }
}

/// Reads symbol library documents.
pub struct SymbolLibFile;

impl SymbolLibFile {
    /// Reads a symbol library from its text: one S-expression whose root token
    /// is `kicad_symbol_lib`.
    pub fn read_str(text: &str) -> (r: Result<SymbolLibDocument, Error>)
        ensures
            r matches Ok(d) ==> {
                &&& d.wf()
                &&& !d.spec_dirty()
                &&& doc_text(d.spec_cst()) == text@
                &&& doc_wf(d.spec_cst())
                &&& same_node(the_expression(text@).nodes@[0], d.spec_cst().nodes@[0])
                &&& head_of(d.spec_cst().nodes@[0]) == Some("kicad_symbol_lib"@)
            },
            r matches Err(Error::Parse(e)) ==> (e == ParseError::EmptyInput <==> all_ws(text@)),
            all_ws(text@) ==> r matches Err(Error::Parse(ParseError::EmptyInput)),
            r is Ok <==> is_one_expression(text@) && expression_head(text@) == Some("kicad_symbol_lib"@),
            r matches Err(Error::Parse(_)) <==> !is_one_expression(text@),
            r matches Err(Error::Validation(m)) ==> m@ == root_message(),
            !(r matches Err(Error::Io(_))),
    {
        let cst = match parse_one(text) {
            Ok(c) => c,
            Err(e) => {
                return Err(Error::Parse(e));
            },
        };
        let roots = vec!["kicad_symbol_lib"];
        assert(roots@ == seq!["kicad_symbol_lib"]);
        match expect_root_head(&cst, &roots) {
            Ok(()) => {},
            Err(e) => {
                assert(!head_in(cst.nodes@[0], roots@)) by {
                    if head_of(cst.nodes@[0]) == Some("kicad_symbol_lib"@) {
                        assert(head_of(cst.nodes@[0]) == Some(roots@[0]@));
                    }
                }
                return Err(e);
            },
        }
        assert(head_of(cst.nodes@[0]) == Some("kicad_symbol_lib"@));
        proof {
            lemma_tree_ok_of_read(cst);
        }
        Ok(SymbolLibDocument::from_cst(cst))
    }
}

/// Every setter leaves the syntax tree the source of truth: after it, the
/// typed view and the diagnostics are exactly those read from the edited
/// items, and the document can be written.
pub proof fn lemma_setter_rederives(old: SymbolLibDocument, new: SymbolLibDocument, items: Seq<Node>)
    requires
        SymbolLibDocument::refreshed(old, new, items),
    ensures
        root_items(new.spec_cst()) == items,
        symbol_lib_ast_of(items, new.spec_ast()),
        version_diagnostics(last_second_i32(items, 1, "version"@), new.spec_diagnostics()),
        !new.spec_dirty(),
        new.wf(),
{
}


/// The number of pins held directly by the units `v`.
pub open spec fn unit_pins(v: Seq<SymUnit>) -> nat
    decreases v.len(),
{
    if v.len() == 0 {
        0
    } else {
        unit_pins(v.drop_last()) + v.last().pins@.len()
    }
}

proof fn lemma_tree_counts_head(n: Node, h: Seq<char>)
    ensures
        head_of(n) == Some(h) ==> count_tree(n, h) >= 1,
        count_tree(n, h) >= count_forest(list_items(n), h),
{
    match n {
        Node::List { .. } => {},
        Node::Atom { .. } => {
            assert(list_items(n) =~= Seq::<Node>::empty());
        },
    }
}

proof fn lemma_forest_counts_items(s: Seq<Node>, from: int, h: Seq<char>)
    requires
        0 <= from,
    ensures
        count_forest(s, h) >= filter_head(s, from, h).len(),
    decreases s.len(),
{
    if s.len() > 0 {
        lemma_forest_counts_items(s.drop_last(), from, h);
        lemma_tree_counts_head(s.last(), h);
        assert(count_forest(s, h) == count_forest(s.drop_last(), h) + count_tree(s.last(), h));
    }
}

proof fn lemma_forest_splits(s: Seq<Node>, from: int)
    requires
        0 <= from,
    ensures
        count_forest(s, "pin"@) >= filter_head(s, from, "pin"@).len() + count_forest(
            filter_head(s, from, "symbol"@),
            "pin"@,
        ),
    decreases s.len(),
{
    reveal_strlit("pin");
    reveal_strlit("symbol");
    assert("pin"@.len() != "symbol"@.len());
    if s.len() > 0 {
        lemma_forest_splits(s.drop_last(), from);
        lemma_tree_counts_head(s.last(), "pin"@);
        assert(count_forest(s, "pin"@) == count_forest(s.drop_last(), "pin"@) + count_tree(s.last(), "pin"@));
        let f = filter_head(s, from, "symbol"@);
        let g = filter_head(s.drop_last(), from, "symbol"@);
        if s.len() > from && head_of(s.last()) == Some("symbol"@) {
            assert(f == g.push(s.last()));
            assert(f.drop_last() =~= g);
            assert(count_forest(f, "pin"@) == count_forest(g, "pin"@) + count_tree(s.last(), "pin"@));
            assert(filter_head(s, from, "pin"@) == filter_head(s.drop_last(), from, "pin"@));
        } else if s.len() > from && head_of(s.last()) == Some("pin"@) {
            assert(f == g);
        } else if s.len() > from {
            assert(f == g);
            assert(filter_head(s, from, "pin"@) == filter_head(s.drop_last(), from, "pin"@));
        } else {
            assert(f =~= Seq::<Node>::empty());
            assert(filter_head(s, from, "pin"@) =~= Seq::<Node>::empty());
            assert(count_forest(f, "pin"@) == 0);
        }
    }
}

proof fn lemma_units_pins(ms: Seq<Node>, us: Seq<SymUnit>)
    requires
        ms.len() == us.len(),
        forall|i: int| 0 <= i < ms.len() ==> sym_unit_of(#[trigger] ms[i], us[i]),
    ensures
        count_forest(ms, "pin"@) >= unit_pins(us),
    decreases ms.len(),
{
    if ms.len() > 0 {
        assert forall|i: int| 0 <= i < ms.drop_last().len() implies sym_unit_of(#[trigger] ms.drop_last()[i], us.drop_last()[i]) by {
            assert(sym_unit_of(ms[i], us[i]));
        }
        lemma_units_pins(ms.drop_last(), us.drop_last());
        let m = ms.last();
        assert(sym_unit_of(ms[ms.len() - 1], us[us.len() - 1]));
        lemma_forest_counts_items(list_items(m), 2, "pin"@);
        lemma_tree_counts_head(m, "pin"@);
        assert(count_forest(ms, "pin"@) == count_forest(ms.drop_last(), "pin"@) + count_tree(m, "pin"@));
    }
}

/// The counts of a read symbol library agree with what it holds: one symbol
/// per entry, the totals are the sums over the symbols (stopping at
/// `usize::MAX`), each symbol's counts are the lengths of its lists, and a
/// symbol counts at least its own pins and the pins of its units.
pub proof fn lemma_symbol_lib_counts(items: Seq<Node>, a: SymbolLibAst)
    requires
        symbol_lib_ast_of(items, a),
    ensures
        a.symbol_count == a.symbols@.len(),
        a.total_property_count == capped(total_properties(a.symbols@)),
        a.total_pin_count == capped(total_pins(a.symbols@)),
        forall|i: int|
            0 <= i < a.symbols@.len() ==> {
                let y = #[trigger] a.symbols@[i];
                &&& y.property_count == y.properties@.len()
                &&& y.unit_count == y.units@.len()
                &&& y.graphic_count == y.graphics@.len()
                &&& y.pin_count >= capped(y.pins@.len() + unit_pins(y.units@))
            },
{
    let ms = filter_head(items, 1, "symbol"@);
    assert forall|i: int| 0 <= i < a.symbols@.len() implies ({
        let y = #[trigger] a.symbols@[i];
        &&& y.property_count == y.properties@.len()
        &&& y.unit_count == y.units@.len()
        &&& y.graphic_count == y.graphics@.len()
        &&& y.pin_count >= capped(y.pins@.len() + unit_pins(y.units@))
    }) by {
        let y = a.symbols@[i];
        let n = ms[i];
        assert((|m: Node, z: Symbol| symbol_of(m, z))(ms[i], a.symbols@[i]));
        let s = list_items(n);
        lemma_forest_splits(s, 2);
        let us = filter_head(s, 2, "symbol"@);
        assert forall|k: int| 0 <= k < us.len() implies sym_unit_of(#[trigger] us[k], y.units@[k]) by {
            assert((|m: Node, u: SymUnit| sym_unit_of(m, u))(us[k], y.units@[k]));
        }
        lemma_units_pins(us, y.units@);
        match n {
            Node::List { .. } => {},
            Node::Atom { .. } => {
                assert(filter_head(s, 2, "pin"@) =~= Seq::<Node>::empty());
                assert(filter_head(s, 2, "symbol"@) =~= Seq::<Node>::empty());
            },
        }
    }
}


/// What a symbol library writes reads back as itself: the lossless text of a
/// well-formed document is one S-expression whose root head is the
/// document's, so `read_str` accepts it, and a document read from that text
/// holds a copy of the document's tree, with the same text around it.
pub proof fn lemma_written_symbol_lib_reads_back(d: SymbolLibDocument)
    requires
        d.wf(),
    ensures
        is_one_expression(rendered(d.spec_cst(), WriteMode::Lossless)),
        expression_head(rendered(d.spec_cst(), WriteMode::Lossless)) == head_of(d.spec_cst().nodes@[0]),
        expression_head(rendered(d.spec_cst(), WriteMode::Lossless)) == Some("kicad_symbol_lib"@),
        forall|e: SymbolLibDocument|
            e.wf() && doc_text(#[trigger] e.spec_cst()) == rendered(d.spec_cst(), WriteMode::Lossless) ==> same_node(
                d.spec_cst().nodes@[0],
                e.spec_cst().nodes@[0],
            ) && e.spec_cst().trailing@ == d.spec_cst().trailing@,
{
    lemma_tree_text_reads(d.spec_cst());
    lemma_reads_as_itself(d.spec_cst());
    assert forall|e: SymbolLibDocument|
        e.wf() && doc_text(#[trigger] e.spec_cst()) == rendered(d.spec_cst(), WriteMode::Lossless) implies same_node(
            d.spec_cst().nodes@[0],
            e.spec_cst().nodes@[0],
        ) && e.spec_cst().trailing@ == d.spec_cst().trailing@ by {
        lemma_tree_text_reads(e.spec_cst());
        lemma_text_reads_back(d.spec_cst(), e.spec_cst());
    }
}

/// Every list in the tree `n`: `n` itself first, then the lists of its items
/// in order.
pub open spec fn lists_in(n: Node) -> Seq<Node>
    decreases n,
{
    match n {
        Node::Atom { .. } => Seq::empty(),
        Node::List { items, .. } => seq![n] + lists_in_all(items@),
    }
}

/// Every list in the trees `s`, in order.
pub open spec fn lists_in_all(s: Seq<Node>) -> Seq<Node>
    decreases s,
{
    if s.len() == 0 {
        Seq::empty()
    } else {
        lists_in_all(s.drop_last()) + lists_in(s.last())
    }
}

/// Whether a node is a list whose head is exactly `h`.
pub open spec fn headed(h: Seq<char>) -> spec_fn(Node) -> bool {
    |m: Node| head_of(m) == Some(h)
}

proof fn lemma_count_tree_lists(n: Node, h: Seq<char>)
    ensures
        count_tree(n, h) == lists_in(n).filter(headed(h)).len(),
    decreases n,
{
    reveal(Seq::filter);
    match n {
        Node::Atom { .. } => {
            assert(lists_in(n).filter(headed(h)) =~= Seq::<Node>::empty());
        },
        Node::List { items, .. } => {
            lemma_count_forest_lists(items@, h);
            let a = seq![n];
            let b = lists_in_all(items@);
            Seq::filter_distributes_over_add(a, b, headed(h));
            assert(a.drop_last() =~= Seq::<Node>::empty());
            assert(a.drop_last().filter(headed(h)) =~= Seq::<Node>::empty());
            assert(a.last() == n);
            assert(a.filter(headed(h)).len() == if head_of(n) == Some(h) { 1nat } else { 0nat });
        },
    }
}

proof fn lemma_count_forest_lists(s: Seq<Node>, h: Seq<char>)
    ensures
        count_forest(s, h) == lists_in_all(s).filter(headed(h)).len(),
    decreases s,
{
    reveal(Seq::filter);
    if s.len() == 0 {
        assert(lists_in_all(s).filter(headed(h)) =~= Seq::<Node>::empty());
    } else {
        lemma_count_forest_lists(s.drop_last(), h);
        lemma_count_tree_lists(s.last(), h);
        Seq::filter_distributes_over_add(lists_in_all(s.drop_last()), lists_in(s.last()), headed(h));
    }
}

/// A symbol's pin count is the number of lists in its tree whose head is
/// exactly `pin`, up to `usize::MAX`: lists with any other head, such as
/// `pin_names` or `pin_numbers`, count for nothing.
pub proof fn lemma_symbol_pin_count(d: SymbolLibDocument, k: int)
    requires
        d.wf(),
        !d.spec_dirty(),
        0 <= k < d.spec_ast().symbols@.len(),
    ensures
        d.spec_ast().symbols@[k].pin_count == capped(
            lists_in(filter_head(root_items(d.spec_cst()), 1, "symbol"@)[k]).filter(headed("pin"@)).len(),
        ),
        forall|m: Node|
            lists_in(filter_head(root_items(d.spec_cst()), 1, "symbol"@)[k]).filter(headed("pin"@)).contains(m)
                ==> head_of(m) == Some("pin"@),
{
    let n = filter_head(root_items(d.spec_cst()), 1, "symbol"@)[k];
    let q = |m: Node, y: Symbol| symbol_of(m, y);
    assert(q(n, d.spec_ast().symbols@[k]));
    lemma_count_tree_lists(n, "pin"@);
    assert forall|m: Node| lists_in(n).filter(headed("pin"@)).contains(m) implies head_of(m) == Some("pin"@) by {
        let f = lists_in(n).filter(headed("pin"@));
        let i = choose|i: int| 0 <= i < f.len() && f[i] == m;
        lists_in(n).filter_lemma(headed("pin"@));
    }
}

} // verus!
