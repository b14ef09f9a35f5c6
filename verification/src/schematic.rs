//! Schematic documents (`.kicad_sch`): the typed view of a schematic and the
//! edits that keep its text lossless.
use vstd::prelude::*;

use crate::sections::{paper_of, parse_paper, parse_title_block, title_block_of, ParsedPaper, ParsedTitleBlock};
use crate::sexpr::{same_node, the_expression, lemma_reads_as_itself, lead_of, node_wf, node_depth, is_symbol_text, lemma_nodes_wf_items_ok, lemma_items_depth_each_pub, items_depth, nodes_wf, MAX_DEPTH, all_ws, doc_text, doc_wf, expression_head, is_one_expression, parse_one, Atom, CstDocument, Node, ParseError};
use crate::sexpr_edit::{
    lemma_property_upserted_wf, lemma_removed, lemma_scalar_upserted_wf, respaced, lemma_node_upserted_wf,
    lemma_section_scalar_upserted_wf, lemma_lists_replaced_wf,find_property_index, get_property_value, prop_value,
    first_prop, is_prop};
use crate::sexpr_utils::{
    lemma_last_head_index, is_last_head, lacks_head, lemma_last_with_head_at, lemma_lacks_head,
    is_first_head, lemma_first_with_head_at, lemma_no_first_head, lemma_filter_head_heads,
    any_symbol_from, any_with_head, atom_strings, atom_strings_from, collect_with_head, collect_with_heads,
    count_head, count_with_head, each, filter_head, filter_heads, find_first, find_last, first_with_head, has_head,
    has_symbol_from, head_in, head_is, head_of, head_text, last_angle, last_angle_exec, last_bool, last_i32,
    last_real, last_second_bool, last_second_i32, last_second_real, last_second_string, last_string, last_strings,
    last_strings_exec, last_with_head, last_xy, last_xy_exec, list_items, nth_atom_string, nth_string, ov, parse_xy,
    rv, second_atom_bool, second_atom_string, second_bool, second_string, sv, xy_of, xys, xyv, Real, Xy,
    collect_unknown, unknown_lists,
};
use crate::text::{owned, push_char, str_eq};
use crate::unknown::{describe_node, unknown_of, UnknownNode};
use crate::diagnostic::{collect_version_diagnostics, version_diagnostics, Diagnostic};
use crate::document::{
    items_head, root_head,
    lemma_shell_kept, lemma_tree_ok_of_read, shell_ok, tree_ok, lemma_text_reads_back, lemma_tree_text_reads,
    dirty_error, dirty_message, empty_cst, expect_root_head, lemma_root_replaced_trans, lemma_root_same_text,
    put_root_items, render_cst, rendered, root_is_list, root_items, root_message, root_replaced, take_root_items,
};
use crate::error::Error;
use crate::sexpr_edit::{
    atom_quoted, atom_symbol, lemma_int_text_symbol, lemma_node_upserted_reads, lemma_property_upserted_reads,
    lemma_scalar_upserted_noop, lemma_scalar_upserted_reads, lemma_scalar_written_already,
    lemma_section_scalar_upserted_reads, lemma_without_prop_reads, node_upserted, paper_standard_node,
    paper_standard_shape, paper_user_node, paper_user_shape, property_upserted, quoted_atom, remove_property,
    scalar_already, scalar_upserted, scalar_written, section_scalar_upserted, symbol_atom, upsert_node,
    upsert_property, upsert_scalar, upsert_section_child_scalar, with_items, without_prop,
    lemma_scalar_upserted_unknown, lemma_node_upserted_unknown, lemma_section_scalar_upserted_unknown,
    lemma_unknown_kept_update, lemma_property_upserted_keeps_head, lemma_without_prop_keeps_head,
};
use crate::sexpr_utils::{atom_string, is_decimal_text};
use crate::text::{i32_to_string, int_text, lemma_parse_int_text};
use crate::write_mode::WriteMode;

verus! {

/// The points of the `(xy x y)` items among `xs` that have both numbers.
pub open spec fn points_of(xs: Seq<Node>) -> Seq<(Seq<char>, Seq<char>)>
    decreases xs.len(),
{
    if xs.len() == 0 {
        Seq::empty()
    } else {
        match xy_of(xs.last()) {
            Some(p) => points_of(xs.drop_last()).push(p),
            None => points_of(xs.drop_last()),
        }
    }
}

/// The points of the last `(h (xy ..) ...)` item.
pub open spec fn last_points(s: Seq<Node>, from: int, h: Seq<char>) -> Seq<(Seq<char>, Seq<char>)> {
    match last_with_head(s, from, h) {
        Some(n) => points_of(filter_head(list_items(n), 1, "xy"@)),
        None => Seq::empty(),
    }
}

fn parse_pts(items: &Vec<Node>) -> (r: Vec<Xy>)
    ensures
        xys(r@) == points_of(filter_head(items@, 1, "xy"@)),
{
    let mut r: Vec<Xy> = Vec::new();
    let mut i: usize = 0;
    while i < items.len()
        invariant
            i <= items.len(),
            xys(r@) == points_of(filter_head(items@.subrange(0, i as int), 1, "xy"@)),
        decreases items.len() - i,
    {
        let ghost sub = items@.subrange(0, i + 1);
        assert(sub.drop_last() =~= items@.subrange(0, i as int));
        assert(sub.last() == items@[i as int]);
        if i >= 1 && head_is(&items[i], "xy") {
            let ghost fl = filter_head(sub, 1, "xy"@);
            assert(fl.drop_last() == filter_head(items@.subrange(0, i as int), 1, "xy"@));
            match parse_xy(&items[i]) {
                Some(p) => {
                    let ghost before = r@;
                    r.push(p);
                    assert(xys(r@) =~= xys(before).push((p.x.text@, p.y.text@)));
                },
                None => {},
            }
        }
        i = i + 1;
    }
    assert(items@.subrange(0, items.len() as int) =~= items@);
    r
}

fn last_points_exec(items: &Vec<Node>, from: usize, h: &str) -> (r: Vec<Xy>)
    ensures
        xys(r@) == last_points(items@, from as int, h@),
{
    match find_last(items, from, h) {
        Some(i) => match &items[i] {
            Node::List { items: inner, .. } => parse_pts(inner),
            Node::Atom { .. } => Vec::new(),
        },
        None => Vec::new(),
    }
}

/// The `(key, value)` pairs of the property items `ps` that have a key; a
/// missing value reads as empty.
pub open spec fn pair_entries(ps: Seq<Node>) -> Seq<(Seq<char>, Seq<char>)>
    decreases ps.len(),
{
    if ps.len() == 0 {
        Seq::empty()
    } else {
        match nth_atom_string(ps.last(), 1) {
            Some(k) => pair_entries(ps.drop_last()).push(
                (
                    k,
                    match nth_atom_string(ps.last(), 2) {
                        Some(v) => v,
                        None => Seq::empty(),
                    },
                ),
            ),
            None => pair_entries(ps.drop_last()),
        }
    }
}

pub open spec fn pairs_view(v: Seq<(String, String)>) -> Seq<(Seq<char>, Seq<char>)> {
    v.map_values(|p: (String, String)| (p.0@, p.1@))
}

/// The property pairs of a node's items from index 1 on.
pub open spec fn property_pairs_of(s: Seq<Node>) -> Seq<(Seq<char>, Seq<char>)> {
    pair_entries(filter_head(s, 1, "property"@))
}

fn parse_property_pairs(items: &Vec<Node>) -> (r: Vec<(String, String)>)
    ensures
        pairs_view(r@) == property_pairs_of(items@),
{
    let mut r: Vec<(String, String)> = Vec::new();
    let mut i: usize = 0;
    while i < items.len()
        invariant
            i <= items.len(),
            pairs_view(r@) == pair_entries(filter_head(items@.subrange(0, i as int), 1, "property"@)),
        decreases items.len() - i,
    {
        let ghost sub = items@.subrange(0, i + 1);
        assert(sub.drop_last() =~= items@.subrange(0, i as int));
        assert(sub.last() == items@[i as int]);
        if i >= 1 && head_is(&items[i], "property") {
            let ghost fl = filter_head(sub, 1, "property"@);
            assert(fl.drop_last() == filter_head(items@.subrange(0, i as int), 1, "property"@));
            match nth_string(&items[i], 1) {
                Some(k) => {
                    let v = match nth_string(&items[i], 2) {
                        Some(v) => v,
                        None => String::new(),
                    };
                    let ghost before = r@;
                    r.push((k, v));
                    assert(pairs_view(r@) =~= pairs_view(before).push((k@, v@)));
                },
                None => {},
            }
        }
        i = i + 1;
    }
    assert(items@.subrange(0, items.len() as int) =~= items@);
    r
}

/// The value of the first pair with key `key`.
pub open spec fn first_pair_value(ps: Seq<(Seq<char>, Seq<char>)>, key: Seq<char>) -> Option<Seq<char>>
    decreases ps.len(),
{
    if ps.len() == 0 {
        None
    } else {
        match first_pair_value(ps.drop_last(), key) {
            Some(v) => Some(v),
            None => if ps.last().0 == key {
                Some(ps.last().1)
            } else {
                None
            },
        }
    }
}

fn first_pair_value_exec(ps: &Vec<(String, String)>, key: &str) -> (r: Option<String>)
    ensures
        ov(r) == first_pair_value(pairs_view(ps@), key@),
{
    let mut i: usize = 0;
    while i < ps.len()
        invariant
            i <= ps.len(),
            first_pair_value(pairs_view(ps@).subrange(0, i as int), key@) is None,
        decreases ps.len() - i,
    {
        let ghost sub = pairs_view(ps@).subrange(0, i + 1);
        assert(sub.drop_last() =~= pairs_view(ps@).subrange(0, i as int));
        if str_eq(ps[i].0.as_str(), key) {
            proof {
                lemma_first_pair_extend(pairs_view(ps@), i + 1, key@);
            }
            return Some(ps[i].1.clone());
        }
        i = i + 1;
    }
    assert(pairs_view(ps@).subrange(0, ps.len() as int) =~= pairs_view(ps@));
    None
}

proof fn lemma_first_pair_extend(ps: Seq<(Seq<char>, Seq<char>)>, j: int, key: Seq<char>)
    requires
        0 <= j <= ps.len(),
        first_pair_value(ps.subrange(0, j), key) is Some,
    ensures
        first_pair_value(ps, key) == first_pair_value(ps.subrange(0, j), key),
    decreases ps.len() - j,
{
    if j == ps.len() {
        assert(ps.subrange(0, j) =~= ps);
    } else {
        assert(ps.subrange(0, j + 1).drop_last() =~= ps.subrange(0, j));
        lemma_first_pair_extend(ps, j + 1, key);
    }
}

/// Words joined by single spaces.
pub open spec fn join_words(ws: Seq<Seq<char>>) -> Seq<char>
    decreases ws.len(),
{
    if ws.len() == 0 {
        Seq::empty()
    } else if ws.len() == 1 {
        ws[0]
    } else {
        join_words(ws.drop_last()) + seq![' '] + ws.last()
    }
}

/// The words of the last `(color ...)` item that has any, joined by spaces.
pub open spec fn last_color(s: Seq<Node>, from: int) -> Option<Seq<char>>
    decreases s.len(),
{
    if s.len() <= from || s.len() == 0 {
        None
    } else if head_of(s.last()) == Some("color"@) && atom_strings(list_items(s.last()), 1).len() > 0 {
        Some(join_words(atom_strings(list_items(s.last()), 1)))
    } else {
        last_color(s.drop_last(), from)
    }
}

fn join_exec(ws: &Vec<String>) -> (r: String)
    ensures
        r@ == join_words(sv(ws@)),
{
    let mut r = String::new();
    let mut i: usize = 0;
    while i < ws.len()
        invariant
            i <= ws.len(),
            r@ == join_words(sv(ws@).subrange(0, i as int)),
        decreases ws.len() - i,
    {
        let ghost sub = sv(ws@).subrange(0, i + 1);
        assert(sub.drop_last() =~= sv(ws@).subrange(0, i as int));
        if i > 0 {
            push_char(&mut r, ' ');
        }
        r.append(ws[i].as_str());
        assert(r@ =~= join_words(sub));
        i = i + 1;
    }
    assert(sv(ws@).subrange(0, ws.len() as int) =~= sv(ws@));
    r
}

fn last_color_exec(items: &Vec<Node>, from: usize) -> (r: Option<String>)
    ensures
        ov(r) == last_color(items@, from as int),
{
    let mut i = items.len();
    assert(items@.subrange(0, i as int) =~= items@);
    while i > from
        invariant
            i <= items.len(),
            last_color(items@, from as int) == last_color(items@.subrange(0, i as int), from as int),
        decreases i,
    {
        let ghost sub = items@.subrange(0, i as int);
        assert(sub.last() == items@[i - 1]);
        if head_is(&items[i - 1], "color") {
            match &items[i - 1] {
                Node::List { items: inner, .. } => {
                    let parts = atom_strings_from(inner, 1);
                    if parts.len() > 0 {
                        return Some(join_exec(&parts));
                    }
                },
                Node::Atom { .. } => {},
            }
        }
        assert(sub.drop_last() =~= items@.subrange(0, i - 1));
        i = i - 1;
    }
    None
}

/// The line width written in the last `(stroke ...)` item.
pub open spec fn stroke_width(s: Seq<Node>) -> Option<Seq<char>> {
    match last_with_head(s, 1, "stroke"@) {
        Some(st) => last_second_real(list_items(st), 1, "width"@),
        None => None,
    }
}

/// The line type written in the last `(stroke ...)` item.
pub open spec fn stroke_type(s: Seq<Node>) -> Option<Seq<char>> {
    match last_with_head(s, 1, "stroke"@) {
        Some(st) => last_second_string(list_items(st), 1, "type"@),
        None => None,
    }
}

fn stroke_exec(items: &Vec<Node>) -> (r: (Option<Real>, Option<String>))
    ensures
        rv(r.0) == stroke_width(items@),
        ov(r.1) == stroke_type(items@),
{
    match find_last(items, 1, "stroke") {
        Some(i) => match &items[i] {
            Node::List { items: inner, .. } => (last_real(inner, 1, "width"), last_string(inner, 1, "type")),
            Node::Atom { .. } => (None, None),
        },
        None => (None, None),
    }
}

#[derive(Debug)]
pub struct SchematicJunction {
    pub at: Option<Xy>,
    pub diameter: Option<Real>,
    pub color: Option<String>,
    pub uuid: Option<String>,
}

pub open spec fn junction_of(n: Node, j: SchematicJunction) -> bool {
    let s = list_items(n);
    &&& xyv(j.at) == last_xy(s, 1, "at"@)
    &&& rv(j.diameter) == last_second_real(s, 1, "diameter"@)
    &&& ov(j.color) == last_color(s, 1)
    &&& ov(j.uuid) == last_second_string(s, 1, "uuid"@)
}

fn parse_junction(n: &Node) -> (j: SchematicJunction)
    ensures
        junction_of(*n, j),
{
    let empty: Vec<Node> = Vec::new();
    let items = match n {
        Node::List { items, .. } => items,
        Node::Atom { .. } => &empty,
    };
    assert(items@ == list_items(*n));
    SchematicJunction {
        at: last_xy_exec(items, 1, "at"),
        diameter: last_real(items, 1, "diameter"),
        color: last_color_exec(items, 1),
        uuid: last_string(items, 1, "uuid"),
    }
}

#[derive(Debug)]
pub struct SchematicNoConnect {
    pub at: Option<Xy>,
    pub uuid: Option<String>,
}

pub open spec fn no_connect_of(n: Node, c: SchematicNoConnect) -> bool {
    let s = list_items(n);
    &&& xyv(c.at) == last_xy(s, 1, "at"@)
    &&& ov(c.uuid) == last_second_string(s, 1, "uuid"@)
}

fn parse_no_connect(n: &Node) -> (c: SchematicNoConnect)
    ensures
        no_connect_of(*n, c),
{
    let empty: Vec<Node> = Vec::new();
    let items = match n {
        Node::List { items, .. } => items,
        Node::Atom { .. } => &empty,
    };
    assert(items@ == list_items(*n));
    SchematicNoConnect { at: last_xy_exec(items, 1, "at"), uuid: last_string(items, 1, "uuid") }
}

/// A wire: its points, uuid and stroke.
#[derive(Debug)]
pub struct SchematicWire {
    pub points: Vec<Xy>,
    pub uuid: Option<String>,
    pub stroke_width: Option<Real>,
    pub stroke_type: Option<String>,
}

pub open spec fn wire_of(n: Node, w: SchematicWire) -> bool {
    let s = list_items(n);
    &&& xys(w.points@) == last_points(s, 1, "pts"@)
    &&& ov(w.uuid) == last_second_string(s, 1, "uuid"@)
    &&& rv(w.stroke_width) == stroke_width(s)
    &&& ov(w.stroke_type) == stroke_type(s)
}

fn parse_wire(n: &Node) -> (w: SchematicWire)
    ensures
        wire_of(*n, w),
{
    let empty: Vec<Node> = Vec::new();
    let items = match n {
        Node::List { items, .. } => items,
        Node::Atom { .. } => &empty,
    };
    assert(items@ == list_items(*n));
    let (stroke_width, stroke_type) = stroke_exec(items);
    SchematicWire { points: last_points_exec(items, 1, "pts"), uuid: last_string(items, 1, "uuid"), stroke_width, stroke_type }
}

/// A bus: its points, uuid and stroke.
#[derive(Debug)]
pub struct SchematicBus {
    pub points: Vec<Xy>,
    pub uuid: Option<String>,
    pub stroke_width: Option<Real>,
    pub stroke_type: Option<String>,
}

pub open spec fn bus_of(n: Node, w: SchematicBus) -> bool {
    let s = list_items(n);
    &&& xys(w.points@) == last_points(s, 1, "pts"@)
    &&& ov(w.uuid) == last_second_string(s, 1, "uuid"@)
    &&& rv(w.stroke_width) == stroke_width(s)
    &&& ov(w.stroke_type) == stroke_type(s)
}

fn parse_bus(n: &Node) -> (w: SchematicBus)
    ensures
        bus_of(*n, w),
{
    let empty: Vec<Node> = Vec::new();
    let items = match n {
        Node::List { items, .. } => items,
        Node::Atom { .. } => &empty,
    };
    assert(items@ == list_items(*n));
    let (stroke_width, stroke_type) = stroke_exec(items);
    SchematicBus { points: last_points_exec(items, 1, "pts"), uuid: last_string(items, 1, "uuid"), stroke_width, stroke_type }
}

#[derive(Debug)]
pub struct SchematicBusEntry {
    pub at: Option<Xy>,
    pub size: Option<Xy>,
    pub uuid: Option<String>,
}

pub open spec fn bus_entry_of(n: Node, e: SchematicBusEntry) -> bool {
    let s = list_items(n);
    &&& xyv(e.at) == last_xy(s, 1, "at"@)
    &&& xyv(e.size) == last_xy(s, 1, "size"@)
    &&& ov(e.uuid) == last_second_string(s, 1, "uuid"@)
}

fn parse_bus_entry(n: &Node) -> (e: SchematicBusEntry)
    ensures
        bus_entry_of(*n, e),
{
    let empty: Vec<Node> = Vec::new();
    let items = match n {
        Node::List { items, .. } => items,
        Node::Atom { .. } => &empty,
    };
    assert(items@ == list_items(*n));
    SchematicBusEntry { at: last_xy_exec(items, 1, "at"), size: last_xy_exec(items, 1, "size"), uuid: last_string(items, 1, "uuid") }
}

/// A bus alias: `(bus_alias (name ..) (members a b ...))`.
#[derive(Debug)]
pub struct SchematicBusAlias {
    pub name: Option<String>,
    pub members: Vec<String>,
}

pub open spec fn bus_alias_of(n: Node, a: SchematicBusAlias) -> bool {
    let s = list_items(n);
    &&& ov(a.name) == last_second_string(s, 1, "name"@)
    &&& sv(a.members@) == last_strings(s, 1, "members"@)
}

fn parse_bus_alias(n: &Node) -> (a: SchematicBusAlias)
    ensures
        bus_alias_of(*n, a),
{
    let empty: Vec<Node> = Vec::new();
    let items = match n {
        Node::List { items, .. } => items,
        Node::Atom { .. } => &empty,
    };
    assert(items@ == list_items(*n));
    SchematicBusAlias { name: last_string(items, 1, "name"), members: last_strings_exec(items, 1, "members") }
}

#[derive(Debug)]
pub struct SchematicNetclassFlag {
    pub text: Option<String>,
    pub at: Option<Xy>,
    pub angle: Option<Real>,
    pub uuid: Option<String>,
}

pub open spec fn netclass_flag_of(n: Node, f: SchematicNetclassFlag) -> bool {
    let s = list_items(n);
    &&& ov(f.text) == nth_atom_string(n, 1)
    &&& xyv(f.at) == last_xy(s, 1, "at"@)
    &&& rv(f.angle) == last_angle(s, 1, "at"@)
    &&& ov(f.uuid) == last_second_string(s, 1, "uuid"@)
}

fn parse_netclass_flag(n: &Node) -> (f: SchematicNetclassFlag)
    ensures
        netclass_flag_of(*n, f),
{
    let empty: Vec<Node> = Vec::new();
    let items = match n {
        Node::List { items, .. } => items,
        Node::Atom { .. } => &empty,
    };
    assert(items@ == list_items(*n));
    SchematicNetclassFlag {
        text: nth_string(n, 1),
        at: last_xy_exec(items, 1, "at"),
        angle: last_angle_exec(items, 1, "at"),
        uuid: last_string(items, 1, "uuid"),
    }
}

#[derive(Debug)]
pub struct SchematicPolyline {
    pub points: Vec<Xy>,
    pub uuid: Option<String>,
}

pub open spec fn polyline_of(n: Node, p: SchematicPolyline) -> bool {
    let s = list_items(n);
    &&& xys(p.points@) == last_points(s, 1, "pts"@)
    &&& ov(p.uuid) == last_second_string(s, 1, "uuid"@)
}

fn parse_polyline(n: &Node) -> (p: SchematicPolyline)
    ensures
        polyline_of(*n, p),
{
    let empty: Vec<Node> = Vec::new();
    let items = match n {
        Node::List { items, .. } => items,
        Node::Atom { .. } => &empty,
    };
    assert(items@ == list_items(*n));
    SchematicPolyline { points: last_points_exec(items, 1, "pts"), uuid: last_string(items, 1, "uuid") }
}

#[derive(Debug)]
pub struct SchematicRectangle {
    pub start: Option<Xy>,
    pub end: Option<Xy>,
    pub uuid: Option<String>,
}

pub open spec fn rectangle_of(n: Node, r: SchematicRectangle) -> bool {
    let s = list_items(n);
    &&& xyv(r.start) == last_xy(s, 1, "start"@)
    &&& xyv(r.end) == last_xy(s, 1, "end"@)
    &&& ov(r.uuid) == last_second_string(s, 1, "uuid"@)
}

fn parse_rectangle(n: &Node) -> (r: SchematicRectangle)
    ensures
        rectangle_of(*n, r),
{
    let empty: Vec<Node> = Vec::new();
    let items = match n {
        Node::List { items, .. } => items,
        Node::Atom { .. } => &empty,
    };
    assert(items@ == list_items(*n));
    SchematicRectangle { start: last_xy_exec(items, 1, "start"), end: last_xy_exec(items, 1, "end"), uuid: last_string(items, 1, "uuid") }
}

#[derive(Debug)]
pub struct SchematicCircle {
    pub center: Option<Xy>,
    pub end: Option<Xy>,
    pub uuid: Option<String>,
}

pub open spec fn circle_of(n: Node, c: SchematicCircle) -> bool {
    let s = list_items(n);
    &&& xyv(c.center) == last_xy(s, 1, "center"@)
    &&& xyv(c.end) == last_xy(s, 1, "end"@)
    &&& ov(c.uuid) == last_second_string(s, 1, "uuid"@)
}

fn parse_circle(n: &Node) -> (c: SchematicCircle)
    ensures
        circle_of(*n, c),
{
    let empty: Vec<Node> = Vec::new();
    let items = match n {
        Node::List { items, .. } => items,
        Node::Atom { .. } => &empty,
    };
    assert(items@ == list_items(*n));
    SchematicCircle { center: last_xy_exec(items, 1, "center"), end: last_xy_exec(items, 1, "end"), uuid: last_string(items, 1, "uuid") }
}

#[derive(Debug)]
pub struct SchematicArc {
    pub start: Option<Xy>,
    pub mid: Option<Xy>,
    pub end: Option<Xy>,
    pub uuid: Option<String>,
}

pub open spec fn arc_of(n: Node, a: SchematicArc) -> bool {
    let s = list_items(n);
    &&& xyv(a.start) == last_xy(s, 1, "start"@)
    &&& xyv(a.mid) == last_xy(s, 1, "mid"@)
    &&& xyv(a.end) == last_xy(s, 1, "end"@)
    &&& ov(a.uuid) == last_second_string(s, 1, "uuid"@)
}

fn parse_arc(n: &Node) -> (a: SchematicArc)
    ensures
        arc_of(*n, a),
{
    let empty: Vec<Node> = Vec::new();
    let items = match n {
        Node::List { items, .. } => items,
        Node::Atom { .. } => &empty,
    };
    assert(items@ == list_items(*n));
    SchematicArc {
        start: last_xy_exec(items, 1, "start"),
        mid: last_xy_exec(items, 1, "mid"),
        end: last_xy_exec(items, 1, "end"),
        uuid: last_string(items, 1, "uuid"),
    }
}

#[derive(Debug)]
pub struct SchematicRuleArea {
    pub name: Option<String>,
    pub points: Vec<Xy>,
    pub uuid: Option<String>,
}

pub open spec fn rule_area_of(n: Node, r: SchematicRuleArea) -> bool {
    let s = list_items(n);
    &&& ov(r.name) == last_second_string(s, 1, "name"@)
    &&& xys(r.points@) == last_points(s, 1, "pts"@)
    &&& ov(r.uuid) == last_second_string(s, 1, "uuid"@)
}

fn parse_rule_area(n: &Node) -> (r: SchematicRuleArea)
    ensures
        rule_area_of(*n, r),
{
    let empty: Vec<Node> = Vec::new();
    let items = match n {
        Node::List { items, .. } => items,
        Node::Atom { .. } => &empty,
    };
    assert(items@ == list_items(*n));
    SchematicRuleArea { name: last_string(items, 1, "name"), points: last_points_exec(items, 1, "pts"), uuid: last_string(items, 1, "uuid") }
}

#[derive(Debug)]
pub struct SchematicText {
    pub text: Option<String>,
    pub at: Option<Xy>,
    pub angle: Option<Real>,
    pub uuid: Option<String>,
}

pub open spec fn text_of(n: Node, t: SchematicText) -> bool {
    let s = list_items(n);
    &&& ov(t.text) == nth_atom_string(n, 1)
    &&& xyv(t.at) == last_xy(s, 1, "at"@)
    &&& rv(t.angle) == last_angle(s, 1, "at"@)
    &&& ov(t.uuid) == last_second_string(s, 1, "uuid"@)
}

fn parse_text(n: &Node) -> (t: SchematicText)
    ensures
        text_of(*n, t),
{
    let empty: Vec<Node> = Vec::new();
    let items = match n {
        Node::List { items, .. } => items,
        Node::Atom { .. } => &empty,
    };
    assert(items@ == list_items(*n));
    SchematicText {
        text: nth_string(n, 1),
        at: last_xy_exec(items, 1, "at"),
        angle: last_angle_exec(items, 1, "at"),
        uuid: last_string(items, 1, "uuid"),
    }
}

/// A label; `label_type` is its head (`label`, `global_label` or
/// `hierarchical_label`).
#[derive(Debug)]
pub struct SchematicLabel {
    pub label_type: String,
    pub text: Option<String>,
    pub at: Option<Xy>,
    pub angle: Option<Real>,
    pub uuid: Option<String>,
    pub shape: Option<String>,
}

pub open spec fn label_of(n: Node, l: SchematicLabel) -> bool {
    let s = list_items(n);
    &&& (match head_of(n) {
        Some(h) => l.label_type@ == h,
        None => l.label_type@ == Seq::<char>::empty(),
    })
    &&& ov(l.text) == nth_atom_string(n, 1)
    &&& xyv(l.at) == last_xy(s, 1, "at"@)
    &&& rv(l.angle) == last_angle(s, 1, "at"@)
    &&& ov(l.uuid) == last_second_string(s, 1, "uuid"@)
    &&& ov(l.shape) == last_second_string(s, 1, "shape"@)
}

fn parse_label(n: &Node) -> (l: SchematicLabel)
    ensures
        label_of(*n, l),
{
    let empty: Vec<Node> = Vec::new();
    let items = match n {
        Node::List { items, .. } => items,
        Node::Atom { .. } => &empty,
    };
    assert(items@ == list_items(*n));
    let label_type = match head_text(n) {
        Some(t) => t,
        None => String::new(),
    };
    SchematicLabel {
        label_type,
        text: nth_string(n, 1),
        at: last_xy_exec(items, 1, "at"),
        angle: last_angle_exec(items, 1, "at"),
        uuid: last_string(items, 1, "uuid"),
        shape: last_string(items, 1, "shape"),
    }
}

/// A placed symbol of a schematic.
#[derive(Debug)]
pub struct SchematicSymbol {
    pub lib_id: Option<String>,
    pub at: Option<Xy>,
    pub angle: Option<Real>,
    pub mirror: Option<String>,
    pub unit: Option<i32>,
    pub uuid: Option<String>,
    pub in_bom: Option<bool>,
    pub on_board: Option<bool>,
    pub dnp: bool,
    pub fields_autoplaced: bool,
    pub properties: Vec<(String, String)>,
    pub pin_count: usize,
    pub reference: Option<String>,
    pub value: Option<String>,
}

/// `(dnp)` and `(dnp yes)` mark a symbol as not populated; `(dnp no)` does
/// not; the last such item decides.
pub open spec fn dnp_of(s: Seq<Node>) -> bool {
    match last_with_head(s, 1, "dnp"@) {
        Some(d) => match second_atom_bool(d) {
            Some(b) => b,
            None => true,
        },
        None => false,
    }
}

/// Fields are autoplaced where a `(fields_autoplaced ...)` item or a bare
/// `fields_autoplaced` symbol follows the head.
pub open spec fn autoplaced(s: Seq<Node>) -> bool {
    has_head(s, 1, "fields_autoplaced"@) || has_symbol_from(s, 1, "fields_autoplaced"@)
}

pub open spec fn schematic_symbol_of(n: Node, y: SchematicSymbol) -> bool {
    let s = list_items(n);
    &&& ov(y.lib_id) == last_second_string(s, 1, "lib_id"@)
    &&& xyv(y.at) == last_xy(s, 1, "at"@)
    &&& rv(y.angle) == last_angle(s, 1, "at"@)
    &&& ov(y.mirror) == last_second_string(s, 1, "mirror"@)
    &&& y.unit == last_second_i32(s, 1, "unit"@)
    &&& ov(y.uuid) == last_second_string(s, 1, "uuid"@)
    &&& y.in_bom == last_second_bool(s, 1, "in_bom"@)
    &&& y.on_board == last_second_bool(s, 1, "on_board"@)
    &&& y.dnp == dnp_of(s)
    &&& y.fields_autoplaced == autoplaced(s)
    &&& pairs_view(y.properties@) == property_pairs_of(s)
    &&& y.pin_count == count_head(s, 1, "pin"@)
    &&& ov(y.reference) == prop_value(s, 1, "Reference"@)
    &&& ov(y.value) == prop_value(s, 1, "Value"@)
}

fn dnp_exec(items: &Vec<Node>) -> (r: bool)
    ensures
        r == dnp_of(items@),
{
    match find_last(items, 1, "dnp") {
        Some(i) => match second_bool(&items[i]) {
            Some(b) => b,
            None => true,
        },
        None => false,
    }
}

fn parse_schematic_symbol(n: &Node) -> (y: SchematicSymbol)
    ensures
        schematic_symbol_of(*n, y),
{
    let empty: Vec<Node> = Vec::new();
    let items = match n {
        Node::List { items, .. } => items,
        Node::Atom { .. } => &empty,
    };
    assert(items@ == list_items(*n));
    SchematicSymbol {
        lib_id: last_string(items, 1, "lib_id"),
        at: last_xy_exec(items, 1, "at"),
        angle: last_angle_exec(items, 1, "at"),
        mirror: last_string(items, 1, "mirror"),
        unit: last_i32(items, 1, "unit"),
        uuid: last_string(items, 1, "uuid"),
        in_bom: last_bool(items, 1, "in_bom"),
        on_board: last_bool(items, 1, "on_board"),
        dnp: dnp_exec(items),
        fields_autoplaced: any_with_head(items, 1, "fields_autoplaced") || any_symbol_from(items, 1, "fields_autoplaced"),
        properties: parse_property_pairs(items),
        pin_count: count_with_head(items, 1, "pin"),
        reference: get_property_value(items, 1, "Reference"),
        value: get_property_value(items, 1, "Value"),
    }
}

/// A sheet of a hierarchical schematic.
#[derive(Debug)]
pub struct SchematicSheet {
    pub at: Option<Xy>,
    pub size: Option<Xy>,
    pub uuid: Option<String>,
    pub fields_autoplaced: bool,
    pub name: Option<String>,
    pub filename: Option<String>,
    pub pin_count: usize,
    pub properties: Vec<(String, String)>,
}

pub open spec fn sheet_of(n: Node, h: SchematicSheet) -> bool {
    let s = list_items(n);
    &&& xyv(h.at) == last_xy(s, 1, "at"@)
    &&& xyv(h.size) == last_xy(s, 1, "size"@)
    &&& ov(h.uuid) == last_second_string(s, 1, "uuid"@)
    &&& h.fields_autoplaced == autoplaced(s)
    &&& ov(h.name) == first_pair_value(property_pairs_of(s), "Sheetname"@)
    &&& ov(h.filename) == first_pair_value(property_pairs_of(s), "Sheetfile"@)
    &&& h.pin_count == count_head(s, 1, "pin"@)
    &&& pairs_view(h.properties@) == property_pairs_of(s)
}

fn parse_sheet(n: &Node) -> (h: SchematicSheet)
    ensures
        sheet_of(*n, h),
{
    let empty: Vec<Node> = Vec::new();
    let items = match n {
        Node::List { items, .. } => items,
        Node::Atom { .. } => &empty,
    };
    assert(items@ == list_items(*n));
    let properties = parse_property_pairs(items);
    SchematicSheet {
        at: last_xy_exec(items, 1, "at"),
        size: last_xy_exec(items, 1, "size"),
        uuid: last_string(items, 1, "uuid"),
        fields_autoplaced: any_with_head(items, 1, "fields_autoplaced") || any_symbol_from(items, 1, "fields_autoplaced"),
        name: first_pair_value_exec(&properties, "Sheetname"),
        filename: first_pair_value_exec(&properties, "Sheetfile"),
        pin_count: count_with_head(items, 1, "pin"),
        properties,
    }
}

#[derive(Debug)]
pub struct SchematicImage {
    pub at: Option<Xy>,
    pub scale: Option<Real>,
    pub uuid: Option<String>,
}

pub open spec fn image_of(n: Node, i: SchematicImage) -> bool {
    let s = list_items(n);
    &&& xyv(i.at) == last_xy(s, 1, "at"@)
    &&& rv(i.scale) == last_second_real(s, 1, "scale"@)
    &&& ov(i.uuid) == last_second_string(s, 1, "uuid"@)
}

fn parse_image(n: &Node) -> (i: SchematicImage)
    ensures
        image_of(*n, i),
{
    let empty: Vec<Node> = Vec::new();
    let items = match n {
        Node::List { items, .. } => items,
        Node::Atom { .. } => &empty,
    };
    assert(items@ == list_items(*n));
    SchematicImage { at: last_xy_exec(items, 1, "at"), scale: last_real(items, 1, "scale"), uuid: last_string(items, 1, "uuid") }
}

/// An entry of `(symbol_instances (path "/.." (reference ..) (unit ..) ...))`.
#[derive(Debug)]
pub struct SchematicSymbolInstance {
    pub path: Option<String>,
    pub reference: Option<String>,
    pub unit: Option<i32>,
    pub value: Option<String>,
    pub footprint: Option<String>,
}

pub open spec fn symbol_instance_of(n: Node, i: SchematicSymbolInstance) -> bool {
    let s = list_items(n);
    &&& ov(i.path) == nth_atom_string(n, 1)
    &&& ov(i.reference) == last_second_string(s, 2, "reference"@)
    &&& i.unit == last_second_i32(s, 2, "unit"@)
    &&& ov(i.value) == last_second_string(s, 2, "value"@)
    &&& ov(i.footprint) == last_second_string(s, 2, "footprint"@)
}

fn parse_symbol_instance(n: &Node) -> (i: SchematicSymbolInstance)
    ensures
        symbol_instance_of(*n, i),
{
    let empty: Vec<Node> = Vec::new();
    let items = match n {
        Node::List { items, .. } => items,
        Node::Atom { .. } => &empty,
    };
    assert(items@ == list_items(*n));
    SchematicSymbolInstance {
        path: nth_string(n, 1),
        reference: last_string(items, 2, "reference"),
        unit: last_i32(items, 2, "unit"),
        value: last_string(items, 2, "value"),
        footprint: last_string(items, 2, "footprint"),
    }
}

/// An entry of `(sheet_instances (path "/" (page "1")))`.
#[derive(Debug, PartialEq, Eq)]
pub struct SchematicSheetInstance {
    pub path: Option<String>,
    pub page: Option<String>,
}

pub open spec fn sheet_instance_of(n: Node, i: SchematicSheetInstance) -> bool {
    let s = list_items(n);
    &&& ov(i.path) == nth_atom_string(n, 1)
    &&& ov(i.page) == match first_with_head(s, 2, "page"@) {
        Some(p) => second_atom_string(p),
        None => None,
    }
}

fn parse_sheet_instance(n: &Node) -> (i: SchematicSheetInstance)
    ensures
        sheet_instance_of(*n, i),
{
    let empty: Vec<Node> = Vec::new();
    let items = match n {
        Node::List { items, .. } => items,
        Node::Atom { .. } => &empty,
    };
    assert(items@ == list_items(*n));
    let page = match find_first(items, 2, "page") {
        Some(k) => second_string(&items[k]),
        None => None,
    };
    SchematicSheetInstance { path: nth_string(n, 1), page }
}

/// What `symbol_instances` reports of a placed symbol.
#[derive(Debug, PartialEq, Eq)]
pub struct SchematicSymbolInfo {
    pub reference: Option<String>,
    pub lib_id: Option<String>,
    pub value: Option<String>,
    pub footprint: Option<String>,
    /// All properties as (key, value) pairs.
    pub properties: Vec<(String, String)>,
}

pub open spec fn symbol_info_of(n: Node, i: SchematicSymbolInfo) -> bool {
    let s = list_items(n);
    &&& ov(i.reference) == prop_value(s, 1, "Reference"@)
    &&& ov(i.lib_id) == match first_with_head(s, 1, "lib_id"@) {
        Some(l) => second_atom_string(l),
        None => None,
    }
    &&& ov(i.value) == prop_value(s, 1, "Value"@)
    &&& ov(i.footprint) == prop_value(s, 1, "Footprint"@)
    &&& pairs_view(i.properties@) == property_pairs_of(s)
}

fn parse_symbol_info(n: &Node) -> (i: SchematicSymbolInfo)
    ensures
        symbol_info_of(*n, i),
{
    let empty: Vec<Node> = Vec::new();
    let items = match n {
        Node::List { items, .. } => items,
        Node::Atom { .. } => &empty,
    };
    assert(items@ == list_items(*n));
    let lib_id = match find_first(items, 1, "lib_id") {
        Some(k) => second_string(&items[k]),
        None => None,
    };
    SchematicSymbolInfo {
        reference: get_property_value(items, 1, "Reference"),
        lib_id,
        value: get_property_value(items, 1, "Value"),
        footprint: get_property_value(items, 1, "Footprint"),
        properties: parse_property_pairs(items),
    }
}

/// The paper of a schematic (see `paper_of`).
#[derive(Debug)]
pub struct SchematicPaper {
    pub kind: Option<String>,
    pub width: Option<Real>,
    pub height: Option<Real>,
    pub orientation: Option<String>,
}

pub open spec fn schematic_paper_of(n: Node, p: SchematicPaper) -> bool {
    paper_of(n, ParsedPaper { kind: p.kind, width: p.width, height: p.height, orientation: p.orientation })
}

impl SchematicPaper {
    pub fn from_parsed(p: ParsedPaper) -> (r: Self)
        ensures
            r.kind == p.kind && r.width == p.width && r.height == p.height && r.orientation == p.orientation,
    {
        SchematicPaper { kind: p.kind, width: p.width, height: p.height, orientation: p.orientation }
    }
}

/// The title block of a schematic (see `title_block_of`).
#[derive(Debug, PartialEq, Eq)]
pub struct SchematicTitleBlock {
    pub title: Option<String>,
    pub date: Option<String>,
    pub revision: Option<String>,
    pub company: Option<String>,
    pub comments: Vec<String>,
}

pub open spec fn schematic_title_block_of(n: Node, t: SchematicTitleBlock) -> bool {
    title_block_of(
        n,
        ParsedTitleBlock {
            title: t.title,
            date: t.date,
            revision: t.revision,
            company: t.company,
            comments: t.comments,
        },
    )
}

impl SchematicTitleBlock {
    pub fn from_parsed(t: ParsedTitleBlock) -> (r: Self)
        ensures
            r.title == t.title && r.date == t.date && r.revision == t.revision && r.company == t.company
                && r.comments == t.comments,
    {
        SchematicTitleBlock {
            title: t.title,
            date: t.date,
            revision: t.revision,
            company: t.company,
            comments: t.comments,
        }
    }
}

/// The typed view of a schematic.
#[derive(Debug)]
pub struct SchematicAst {
    pub version: Option<i32>,
    pub generator: Option<String>,
    pub generator_version: Option<String>,
    pub uuid: Option<String>,
    pub has_paper: bool,
    pub paper: Option<SchematicPaper>,
    pub has_title_block: bool,
    pub title_block: Option<SchematicTitleBlock>,
    pub has_lib_symbols: bool,
    pub embedded_fonts: Option<bool>,
    pub lib_symbol_count: usize,
    pub symbol_count: usize,
    pub symbols: Vec<SchematicSymbol>,
    pub sheet_count: usize,
    pub sheets: Vec<SchematicSheet>,
    pub junction_count: usize,
    pub junctions: Vec<SchematicJunction>,
    pub no_connect_count: usize,
    pub no_connects: Vec<SchematicNoConnect>,
    pub bus_entry_count: usize,
    pub bus_entries: Vec<SchematicBusEntry>,
    pub bus_alias_count: usize,
    pub bus_aliases: Vec<SchematicBusAlias>,
    pub wire_count: usize,
    pub wires: Vec<SchematicWire>,
    pub bus_count: usize,
    pub buses: Vec<SchematicBus>,
    pub image_count: usize,
    pub images: Vec<SchematicImage>,
    pub text_count: usize,
    pub texts: Vec<SchematicText>,
    pub text_box_count: usize,
    pub label_count: usize,
    pub labels: Vec<SchematicLabel>,
    pub global_label_count: usize,
    pub hierarchical_label_count: usize,
    pub netclass_flag_count: usize,
    pub netclass_flags: Vec<SchematicNetclassFlag>,
    pub polyline_count: usize,
    pub polylines: Vec<SchematicPolyline>,
    pub rectangle_count: usize,
    pub rectangles: Vec<SchematicRectangle>,
    pub circle_count: usize,
    pub circles: Vec<SchematicCircle>,
    pub arc_count: usize,
    pub arcs: Vec<SchematicArc>,
    pub rule_area_count: usize,
    pub rule_areas: Vec<SchematicRuleArea>,
    pub sheet_instance_count: usize,
    pub sheet_instances: Vec<SchematicSheetInstance>,
    pub symbol_instance_count: usize,
    pub symbol_instances_parsed: Vec<SchematicSymbolInstance>,
    pub unknown_nodes: Vec<UnknownNode>,
}

pub open spec fn label_tokens() -> Seq<&'static str> {
    seq!["label", "global_label", "hierarchical_label"]
}

/// The heads that the typed view of a schematic reads.
pub open spec fn schematic_known() -> Seq<&'static str> {
    seq![
        "version", "generator", "generator_version", "uuid", "paper", "title_block", "lib_symbols", "symbol",
        "sheet", "junction", "no_connect", "bus_entry", "bus_alias", "wire", "bus", "image", "text", "text_box",
        "label", "global_label", "hierarchical_label", "netclass_flag", "polyline", "rectangle", "circle", "arc",
        "rule_area", "sheet_instances", "symbol_instances", "embedded_fonts",
    ]
}

/// An edit from `old` to `new` root items keeps, in order, every list whose
/// head the typed view does not read.
pub open spec fn unknown_kept(old: Seq<Node>, new: Seq<Node>) -> bool {
    unknown_lists(new, 1, schematic_known()) == unknown_lists(old, 1, schematic_known())
}

/// `h` is one of the heads that the typed view reads.
pub open spec fn is_known(h: Seq<char>) -> bool {
    exists|i: int| 0 <= i < schematic_known().len() && schematic_known()[i]@ == h
}

/// The number of `(symbol ...)` items in the last `(lib_symbols ...)`.
pub open spec fn lib_symbol_count(s: Seq<Node>) -> nat {
    match last_with_head(s, 1, "lib_symbols"@) {
        Some(l) => count_head(list_items(l), 1, "symbol"@),
        None => 0,
    }
}

pub open spec fn sheet_instances_of(s: Seq<Node>, count: usize, v: Seq<SchematicSheetInstance>) -> bool {
    match last_with_head(s, 1, "sheet_instances"@) {
        Some(x) => count == count_head(list_items(x), 1, "path"@) && each(
            filter_head(list_items(x), 1, "path"@),
            v,
            |n: Node, i: SchematicSheetInstance| sheet_instance_of(n, i),
        ),
        None => count == 0 && v.len() == 0,
    }
}

pub open spec fn symbol_instances_of(s: Seq<Node>, count: usize, v: Seq<SchematicSymbolInstance>) -> bool {
    match last_with_head(s, 1, "symbol_instances"@) {
        Some(x) => count == count_head(list_items(x), 1, "path"@) && each(
            filter_head(list_items(x), 1, "path"@),
            v,
            |n: Node, i: SchematicSymbolInstance| symbol_instance_of(n, i),
        ),
        None => count == 0 && v.len() == 0,
    }
}

/// What the typed view of a schematic holds, read from the items of its root
/// list: each item is read by its head, the last item of a kind wins for
/// single values, and every list with an unknown head is kept.
pub open spec fn schematic_ast_of(s: Seq<Node>, a: SchematicAst) -> bool {
    &&& a.version == last_second_i32(s, 1, "version"@)
    &&& ov(a.generator) == last_second_string(s, 1, "generator"@)
    &&& ov(a.generator_version) == last_second_string(s, 1, "generator_version"@)
    &&& ov(a.uuid) == last_second_string(s, 1, "uuid"@)
    &&& a.has_paper == has_head(s, 1, "paper"@)
    &&& match last_with_head(s, 1, "paper"@) {
        Some(p) => a.paper matches Some(x) && schematic_paper_of(p, x),
        None => a.paper is None,
    }
    &&& a.has_title_block == has_head(s, 1, "title_block"@)
    &&& match last_with_head(s, 1, "title_block"@) {
        Some(t) => a.title_block matches Some(x) && schematic_title_block_of(t, x),
        None => a.title_block is None,
    }
    &&& a.has_lib_symbols == has_head(s, 1, "lib_symbols"@)
    &&& a.embedded_fonts == last_second_bool(s, 1, "embedded_fonts"@)
    &&& a.lib_symbol_count == lib_symbol_count(s)
    &&& a.symbol_count == count_head(s, 1, "symbol"@)
    &&& each(filter_head(s, 1, "symbol"@), a.symbols@, |n: Node, y: SchematicSymbol| schematic_symbol_of(n, y))
    &&& a.sheet_count == count_head(s, 1, "sheet"@)
    &&& each(filter_head(s, 1, "sheet"@), a.sheets@, |n: Node, y: SchematicSheet| sheet_of(n, y))
    &&& a.junction_count == count_head(s, 1, "junction"@)
    &&& each(filter_head(s, 1, "junction"@), a.junctions@, |n: Node, y: SchematicJunction| junction_of(n, y))
    &&& a.no_connect_count == count_head(s, 1, "no_connect"@)
    &&& each(filter_head(s, 1, "no_connect"@), a.no_connects@, |n: Node, y: SchematicNoConnect| no_connect_of(n, y))
    &&& a.bus_entry_count == count_head(s, 1, "bus_entry"@)
    &&& each(filter_head(s, 1, "bus_entry"@), a.bus_entries@, |n: Node, y: SchematicBusEntry| bus_entry_of(n, y))
    &&& a.bus_alias_count == count_head(s, 1, "bus_alias"@)
    &&& each(filter_head(s, 1, "bus_alias"@), a.bus_aliases@, |n: Node, y: SchematicBusAlias| bus_alias_of(n, y))
    &&& a.wire_count == count_head(s, 1, "wire"@)
    &&& each(filter_head(s, 1, "wire"@), a.wires@, |n: Node, y: SchematicWire| wire_of(n, y))
    &&& a.bus_count == count_head(s, 1, "bus"@)
    &&& each(filter_head(s, 1, "bus"@), a.buses@, |n: Node, y: SchematicBus| bus_of(n, y))
    &&& a.image_count == count_head(s, 1, "image"@)
    &&& each(filter_head(s, 1, "image"@), a.images@, |n: Node, y: SchematicImage| image_of(n, y))
    &&& a.text_count == count_head(s, 1, "text"@)
    &&& each(filter_head(s, 1, "text"@), a.texts@, |n: Node, y: SchematicText| text_of(n, y))
    &&& a.text_box_count == count_head(s, 1, "text_box"@)
    &&& a.label_count == count_head(s, 1, "label"@)
    &&& a.global_label_count == count_head(s, 1, "global_label"@)
    &&& a.hierarchical_label_count == count_head(s, 1, "hierarchical_label"@)
    &&& each(filter_heads(s, 1, label_tokens()), a.labels@, |n: Node, y: SchematicLabel| label_of(n, y))
    &&& a.netclass_flag_count == count_head(s, 1, "netclass_flag"@)
    &&& each(
        filter_head(s, 1, "netclass_flag"@),
        a.netclass_flags@,
        |n: Node, y: SchematicNetclassFlag| netclass_flag_of(n, y),
    )
    &&& a.polyline_count == count_head(s, 1, "polyline"@)
    &&& each(filter_head(s, 1, "polyline"@), a.polylines@, |n: Node, y: SchematicPolyline| polyline_of(n, y))
    &&& a.rectangle_count == count_head(s, 1, "rectangle"@)
    &&& each(filter_head(s, 1, "rectangle"@), a.rectangles@, |n: Node, y: SchematicRectangle| rectangle_of(n, y))
    &&& a.circle_count == count_head(s, 1, "circle"@)
    &&& each(filter_head(s, 1, "circle"@), a.circles@, |n: Node, y: SchematicCircle| circle_of(n, y))
    &&& a.arc_count == count_head(s, 1, "arc"@)
    &&& each(filter_head(s, 1, "arc"@), a.arcs@, |n: Node, y: SchematicArc| arc_of(n, y))
    &&& a.rule_area_count == count_head(s, 1, "rule_area"@)
    &&& each(filter_head(s, 1, "rule_area"@), a.rule_areas@, |n: Node, y: SchematicRuleArea| rule_area_of(n, y))
    &&& sheet_instances_of(s, a.sheet_instance_count, a.sheet_instances@)
    &&& symbol_instances_of(s, a.symbol_instance_count, a.symbol_instances_parsed@)
    &&& each(unknown_lists(s, 1, schematic_known()), a.unknown_nodes@, |n: Node, u: UnknownNode| unknown_of(n, u))
}

fn lib_symbol_count_exec(items: &Vec<Node>) -> (r: usize)
    ensures
        r == lib_symbol_count(items@),
{
    match find_last(items, 1, "lib_symbols") {
        Some(i) => match &items[i] {
            Node::List { items: inner, .. } => count_with_head(inner, 1, "symbol"),
            Node::Atom { .. } => 0,
        },
        None => 0,
    }
}

fn sheet_instances_exec(items: &Vec<Node>) -> (r: (usize, Vec<SchematicSheetInstance>))
    ensures
        sheet_instances_of(items@, r.0, r.1@),
{
    match find_last(items, 1, "sheet_instances") {
        Some(i) => match &items[i] {
            Node::List { items: inner, .. } => (
                count_with_head(inner, 1, "path"),
                collect_with_head(
                    inner,
                    1,
                    "path",
                    parse_sheet_instance,
                    Ghost(|n: Node, x: SchematicSheetInstance| sheet_instance_of(n, x)),
                ),
            ),
            Node::Atom { .. } => (0, Vec::new()),
        },
        None => (0, Vec::new()),
    }
}

fn symbol_instances_exec(items: &Vec<Node>) -> (r: (usize, Vec<SchematicSymbolInstance>))
    ensures
        symbol_instances_of(items@, r.0, r.1@),
{
    match find_last(items, 1, "symbol_instances") {
        Some(i) => match &items[i] {
            Node::List { items: inner, .. } => (
                count_with_head(inner, 1, "path"),
                collect_with_head(
                    inner,
                    1,
                    "path",
                    parse_symbol_instance,
                    Ghost(|n: Node, x: SchematicSymbolInstance| symbol_instance_of(n, x)),
                ),
            ),
            Node::Atom { .. } => (0, Vec::new()),
        },
        None => (0, Vec::new()),
    }
}

/// Reads the typed view of a schematic from the items of its root list.
#[verifier::rlimit(60)]
pub fn parse_schematic_ast(items: &Vec<Node>) -> (a: SchematicAst)
    ensures
        schematic_ast_of(items@, a),
{
    let labels_heads = vec!["label", "global_label", "hierarchical_label"];
    assert(labels_heads@ == label_tokens());
    let known = vec![
        "version", "generator", "generator_version", "uuid", "paper", "title_block", "lib_symbols", "symbol",
        "sheet", "junction", "no_connect", "bus_entry", "bus_alias", "wire", "bus", "image", "text", "text_box",
        "label", "global_label", "hierarchical_label", "netclass_flag", "polyline", "rectangle", "circle", "arc",
        "rule_area", "sheet_instances", "symbol_instances", "embedded_fonts",
    ];
    assert(known@ == schematic_known());
    let paper = match find_last(items, 1, "paper") {
        Some(i) => Some(SchematicPaper::from_parsed(parse_paper(&items[i]))),
        None => None,
    };
    let title_block = match find_last(items, 1, "title_block") {
        Some(i) => Some(SchematicTitleBlock::from_parsed(parse_title_block(&items[i]))),
        None => None,
    };
    let (sheet_instance_count, sheet_instances) = sheet_instances_exec(items);
    let (symbol_instance_count, symbol_instances_parsed) = symbol_instances_exec(items);
    SchematicAst {
        version: last_i32(items, 1, "version"),
        generator: last_string(items, 1, "generator"),
        generator_version: last_string(items, 1, "generator_version"),
        uuid: last_string(items, 1, "uuid"),
        has_paper: any_with_head(items, 1, "paper"),
        paper,
        has_title_block: any_with_head(items, 1, "title_block"),
        title_block,
        has_lib_symbols: any_with_head(items, 1, "lib_symbols"),
        embedded_fonts: last_bool(items, 1, "embedded_fonts"),
        lib_symbol_count: lib_symbol_count_exec(items),
        symbol_count: count_with_head(items, 1, "symbol"),
        symbols: collect_with_head(items, 1, "symbol", parse_schematic_symbol, Ghost(|n: Node, y: SchematicSymbol| schematic_symbol_of(n, y))),
        sheet_count: count_with_head(items, 1, "sheet"),
        sheets: collect_with_head(items, 1, "sheet", parse_sheet, Ghost(|n: Node, y: SchematicSheet| sheet_of(n, y))),
        junction_count: count_with_head(items, 1, "junction"),
        junctions: collect_with_head(items, 1, "junction", parse_junction, Ghost(|n: Node, y: SchematicJunction| junction_of(n, y))),
        no_connect_count: count_with_head(items, 1, "no_connect"),
        no_connects: collect_with_head(items, 1, "no_connect", parse_no_connect, Ghost(|n: Node, y: SchematicNoConnect| no_connect_of(n, y))),
        bus_entry_count: count_with_head(items, 1, "bus_entry"),
        bus_entries: collect_with_head(items, 1, "bus_entry", parse_bus_entry, Ghost(|n: Node, y: SchematicBusEntry| bus_entry_of(n, y))),
        bus_alias_count: count_with_head(items, 1, "bus_alias"),
        bus_aliases: collect_with_head(items, 1, "bus_alias", parse_bus_alias, Ghost(|n: Node, y: SchematicBusAlias| bus_alias_of(n, y))),
        wire_count: count_with_head(items, 1, "wire"),
        wires: collect_with_head(items, 1, "wire", parse_wire, Ghost(|n: Node, y: SchematicWire| wire_of(n, y))),
        bus_count: count_with_head(items, 1, "bus"),
        buses: collect_with_head(items, 1, "bus", parse_bus, Ghost(|n: Node, y: SchematicBus| bus_of(n, y))),
        image_count: count_with_head(items, 1, "image"),
        images: collect_with_head(items, 1, "image", parse_image, Ghost(|n: Node, y: SchematicImage| image_of(n, y))),
        text_count: count_with_head(items, 1, "text"),
        texts: collect_with_head(items, 1, "text", parse_text, Ghost(|n: Node, y: SchematicText| text_of(n, y))),
        text_box_count: count_with_head(items, 1, "text_box"),
        label_count: count_with_head(items, 1, "label"),
        labels: collect_with_heads(items, 1, &labels_heads, parse_label, Ghost(|n: Node, y: SchematicLabel| label_of(n, y))),
        global_label_count: count_with_head(items, 1, "global_label"),
        hierarchical_label_count: count_with_head(items, 1, "hierarchical_label"),
        netclass_flag_count: count_with_head(items, 1, "netclass_flag"),
        netclass_flags: collect_with_head(items, 1, "netclass_flag", parse_netclass_flag, Ghost(|n: Node, y: SchematicNetclassFlag| netclass_flag_of(n, y))),
        polyline_count: count_with_head(items, 1, "polyline"),
        polylines: collect_with_head(items, 1, "polyline", parse_polyline, Ghost(|n: Node, y: SchematicPolyline| polyline_of(n, y))),
        rectangle_count: count_with_head(items, 1, "rectangle"),
        rectangles: collect_with_head(items, 1, "rectangle", parse_rectangle, Ghost(|n: Node, y: SchematicRectangle| rectangle_of(n, y))),
        circle_count: count_with_head(items, 1, "circle"),
        circles: collect_with_head(items, 1, "circle", parse_circle, Ghost(|n: Node, y: SchematicCircle| circle_of(n, y))),
        arc_count: count_with_head(items, 1, "arc"),
        arcs: collect_with_head(items, 1, "arc", parse_arc, Ghost(|n: Node, y: SchematicArc| arc_of(n, y))),
        rule_area_count: count_with_head(items, 1, "rule_area"),
        rule_areas: collect_with_head(items, 1, "rule_area", parse_rule_area, Ghost(|n: Node, y: SchematicRuleArea| rule_area_of(n, y))),
        sheet_instance_count,
        sheet_instances,
        symbol_instance_count,
        symbol_instances_parsed,
        unknown_nodes: collect_unknown(items, 1, &known, describe_node, Ghost(|n: Node, u: UnknownNode| unknown_of(n, u))),
    }
}

/// How a flag is written: `yes` or `no`.
pub open spec fn yes_no_text(b: bool) -> Seq<char> {
    if b {
        "yes"@
    } else {
        "no"@
    }
}

/// A schematic document: its text, kept losslessly, and the typed view read
/// from it.
#[derive(Debug)]
pub struct SchematicDocument {
    ast: SchematicAst,
    cst: CstDocument,
    diagnostics: Vec<Diagnostic>,
    ast_dirty: bool,
}

/// The root item `n` is a placed symbol whose first `Reference` property
/// reads `reference`.
pub open spec fn is_instance(n: Node, reference: Seq<char>) -> bool {
    head_of(n) == Some("symbol"@) && prop_value(list_items(n), 1, "Reference"@) == Some(reference)
}

/// `b` is the symbol `a` with `(property "key" "value")` set (see
/// `property_upserted`, from the second item on).
pub open spec fn instance_upserted(a: Node, b: Node, key: Seq<char>, value: Seq<char>) -> bool {
    &&& a is List
    &&& with_items(a, b, list_items(b))
    &&& exists|w: Node| #[trigger] quoted_atom(w, value) && property_upserted(list_items(a), list_items(b), 1, key, w)
}

/// `b` is the symbol `a` without its `(property "key" ...)` items.
pub open spec fn instance_removed(a: Node, b: Node, key: Seq<char>) -> bool {
    &&& a is List
    &&& with_items(a, b, list_items(b))
    &&& respaced(without_prop(list_items(a), 1, key), list_items(b))
}

/// The filenames of the sheets `ss`: the first `Sheetfile` property of each
/// sheet that has one.
pub open spec fn sheet_files(ss: Seq<Node>) -> Seq<Seq<char>>
    decreases ss.len(),
{
    if ss.len() == 0 {
        Seq::empty()
    } else {
        match prop_value(list_items(ss.last()), 1, "Sheetfile"@) {
            Some(f) => sheet_files(ss.drop_last()).push(f),
            None => sheet_files(ss.drop_last()),
        }
    }
}

fn is_instance_exec(n: &Node, reference: &str) -> (r: bool)
    ensures
        r == is_instance(*n, reference@),
{
    if !head_is(n, "symbol") {
        return false;
    }
    match n {
        Node::List { items, .. } => match get_property_value(items, 1, "Reference") {
            Some(v) => str_eq(v.as_str(), reference),
            None => false,
        },
        Node::Atom { .. } => false,
    }
}

impl SchematicDocument {
    pub closed spec fn spec_ast(&self) -> SchematicAst {
        self.ast
    }

    pub closed spec fn spec_cst(&self) -> CstDocument {
        self.cst
    }

    pub closed spec fn spec_diagnostics(&self) -> Seq<Diagnostic> {
        self.diagnostics@
    }

    /// Whether the typed view was changed directly (through `ast_mut`).
    pub closed spec fn spec_dirty(&self) -> bool {
        self.ast_dirty
    }

    /// The document's invariant: its root is a single list, its diagnostics
    /// are those of its format version, and its typed view is read from its
    /// text unless it was changed directly.
    pub open spec fn wf(&self) -> bool {
        &&& self.spec_cst().nodes.len() == 1
        &&& tree_ok(self.spec_cst())
        &&& root_head(self.spec_cst()) == Some("kicad_sch"@)
        &&& root_is_list(self.spec_cst())
        &&& version_diagnostics(last_second_i32(root_items(self.spec_cst()), 1, "version"@), self.spec_diagnostics())
        &&& !self.spec_dirty() ==> schematic_ast_of(root_items(self.spec_cst()), self.spec_ast())
    }

    /// The document after an edit of its root items: the text holds `items`,
    /// and the typed view and diagnostics are read anew.
    pub open spec fn refreshed(old: Self, new: Self, items: Seq<Node>) -> bool {
        &&& root_replaced(old.spec_cst(), new.spec_cst(), items)
        &&& root_items(new.spec_cst()) == items
        &&& !new.spec_dirty()
        &&& new.wf()
    }

    fn from_cst(cst: CstDocument) -> (d: Self)
        requires
            tree_ok(cst),
            cst.nodes.len() == 1,
            root_is_list(cst),
            root_head(cst) == Some("kicad_sch"@),
        ensures
            d.spec_cst() == cst,
            !d.spec_dirty(),
            d.wf(),
    {
        let ast = match &cst.nodes[0] {
            Node::List { items, .. } => parse_schematic_ast(items),
            Node::Atom { .. } => {
                let empty: Vec<Node> = Vec::new();
                parse_schematic_ast(&empty)
            },
        };
        let diagnostics = collect_version_diagnostics(ast.version);
        SchematicDocument { ast, cst, diagnostics, ast_dirty: false }
    }

    fn take_items(&mut self) -> (items: Vec<Node>)
        requires
            old(self).wf(),
        ensures
            items@ == root_items(old(self).spec_cst()),
            root_replaced(old(self).spec_cst(), final(self).spec_cst(), Seq::empty()),
            final(self).spec_cst().nodes.len() == 1,
            root_is_list(final(self).spec_cst()),
            shell_ok(final(self).spec_cst()),
            nodes_wf(items@),
            items_depth(items@) < MAX_DEPTH,
            items_head(items@) == Some("kicad_sch"@),
    {
        let mut cst = empty_cst();
        std::mem::swap(&mut cst, &mut self.cst);
        let (cst, items) = take_root_items(cst);
        proof {
            lemma_shell_kept(old(self).spec_cst(), cst, Seq::empty());
        }
        self.cst = cst;
        items
    }

    fn finish(&mut self, items: Vec<Node>)
        requires
            old(self).spec_cst().nodes.len() == 1,
            root_is_list(old(self).spec_cst()),
            shell_ok(old(self).spec_cst()),
            nodes_wf(items@),
            items_depth(items@) < MAX_DEPTH,
            items_head(items@) == Some("kicad_sch"@),
        ensures
            root_replaced(old(self).spec_cst(), final(self).spec_cst(), items@),
            root_items(final(self).spec_cst()) == items@,
            !final(self).spec_dirty(),
            final(self).wf(),
    {
        let mut cst = empty_cst();
        std::mem::swap(&mut cst, &mut self.cst);
 let ghost gi = items@;
        let cst = put_root_items(cst, items);
        proof {
            lemma_shell_kept(old(self).spec_cst(), cst, gi);
        }
        *self = SchematicDocument::from_cst(cst);
    }

    /// The typed view.
    pub fn ast(&self) -> (r: &SchematicAst)
        ensures
            *r == self.spec_ast(),
    {
        &self.ast
    }

    /// The typed view, for changes that cannot be written back: after this
    /// call, writing the document fails.
    pub fn ast_mut(&mut self) -> (r: &mut SchematicAst)
        ensures
            *r == old(self).spec_ast(),
            final(self).spec_ast() == *final(r),
            final(self).spec_cst() == old(self).spec_cst(),
            final(self).spec_diagnostics() == old(self).spec_diagnostics(),
            final(self).spec_dirty(),
            old(self).wf() ==> final(self).wf(),
    {
        self.ast_dirty = true;
        &mut self.ast
    }

    /// The syntax tree.
    pub fn cst(&self) -> (r: &CstDocument)
        ensures
            *r == self.spec_cst(),
    {
        &self.cst
    }

    /// The diagnostics found when the document was read or last edited.
    pub fn diagnostics(&self) -> (r: &Vec<Diagnostic>)
        ensures
            r@ == self.spec_diagnostics(),
    {
        &self.diagnostics
    }

    /// The text of the document in the given mode; refused once the typed
    /// view was changed directly.
    pub fn render(&self, mode: WriteMode) -> (r: Result<String, Error>)
        ensures
            r is Err <==> self.spec_dirty(),
            r matches Ok(s) ==> s@ == rendered(self.spec_cst(), mode),
            r matches Err(e) ==> e matches Error::Validation(m) && m@ == dirty_message(),
    {
        if self.ast_dirty {
            return Err(dirty_error());
        }
        Ok(render_cst(&self.cst, mode))
    }

    fn set_scalar(&mut self, h: &str, v: Node)
        requires
            old(self).wf(),
            v is Atom,
            node_wf(v),
            lead_of(v).len() > 0,
            is_known(h@),
            is_symbol_text(h@),
        ensures
            unknown_kept(root_items(old(self).spec_cst()), root_items(final(self).spec_cst())),
            scalar_upserted(root_items(old(self).spec_cst()), root_items(final(self).spec_cst()), 1, h@, v),
            Self::refreshed(*old(self), *final(self), root_items(final(self).spec_cst())),
            root_items(old(self).spec_cst()).len() >= 1 ==> last_second_string(root_items(final(self).spec_cst()), 1, h@)
                == atom_string(v),
            scalar_already(root_items(old(self).spec_cst()), 1, h@, v) ==> doc_text(final(self).spec_cst()) == doc_text(
                old(self).spec_cst(),
            ),
    {
        let items = self.take_items();
        let ghost old_items = items@;
        let ghost gv = v;
        let items = upsert_scalar(items, 1, h, v);
        proof {
            lemma_scalar_upserted_wf(old_items, items@, 1, h@, gv, (MAX_DEPTH - 1) as nat);
        }
        let ghost mid = self.spec_cst();
        self.finish(items);
        proof {
            lemma_root_replaced_trans(old(self).spec_cst(), mid, self.spec_cst(), Seq::empty(), items@);
            if old_items.len() >= 1 {
                lemma_scalar_upserted_reads(old_items, items@, 1, h@, v);
                lemma_scalar_upserted_unknown(old_items, items@, 1, h@, v, schematic_known());
            }
            if scalar_already(old_items, 1, h@, v) {
                lemma_scalar_upserted_noop(old_items, items@, 1, h@, v);
                lemma_root_same_text(old(self).spec_cst(), self.spec_cst());
            }
        }
    }

    fn set_quoted_scalar(&mut self, h: &str, value: String)
        requires
            old(self).wf(),
            is_known(h@),
            is_symbol_text(h@),
        ensures
            unknown_kept(root_items(old(self).spec_cst()), root_items(final(self).spec_cst())),
            exists|v: Node|
                #[trigger] quoted_atom(v, value@) && scalar_upserted(
                    root_items(old(self).spec_cst()),
                    root_items(final(self).spec_cst()),
                    1,
                    h@,
                    v,
                ),
            Self::refreshed(*old(self), *final(self), root_items(final(self).spec_cst())),
            root_items(old(self).spec_cst()).len() >= 1 ==> last_second_string(root_items(final(self).spec_cst()), 1, h@)
                == Some(value@),
            scalar_written(root_items(old(self).spec_cst()), 1, h@, value@, true) ==> doc_text(final(self).spec_cst())
                == doc_text(old(self).spec_cst()),
    {
        let ghost g = value@;
        let v = atom_quoted(value);
        let ghost gv = v;
        proof {
            if scalar_written(root_items(old(self).spec_cst()), 1, h@, g, true) {
                lemma_scalar_written_already(root_items(old(self).spec_cst()), 1, h@, g, gv, true);
            }
        }
        self.set_scalar(h, v);
        assert(quoted_atom(gv, g));
    }

    /// Sets the format version: `(version N)`.
    pub fn set_version(&mut self, version: i32) -> (r: &mut Self)
        requires
            old(self).wf(),
        ensures
            *final(self) == *final(r),
            exists|v: Node|
                #[trigger] symbol_atom(v, int_text(version as int)) && scalar_upserted(
                    root_items(old(self).spec_cst()),
                    root_items(r.spec_cst()),
                    1,
                    "version"@,
                    v,
                ),
            Self::refreshed(*old(self), *r, root_items(r.spec_cst())),
            unknown_kept(root_items(old(self).spec_cst()), root_items(r.spec_cst())),
            root_items(old(self).spec_cst()).len() >= 1 ==> r.spec_ast().version == Some(version),
            scalar_written(root_items(old(self).spec_cst()), 1, "version"@, int_text(version as int), false) ==> doc_text(
                r.spec_cst(),
            ) == doc_text(old(self).spec_cst()),
    {
        let v = atom_symbol(i32_to_string(version));
        let ghost gv = v;
        proof {
            lemma_int_text_symbol(version);
            lemma_parse_int_text(version);
            if scalar_written(root_items(old(self).spec_cst()), 1, "version"@, int_text(version as int), false) {
                lemma_scalar_written_already(root_items(old(self).spec_cst()), 1, "version"@, int_text(version as int), gv, false);
            }
        }
        assert(schematic_known()[0]@ == "version"@);
        proof {
            reveal_strlit("version");
        }
        self.set_scalar("version", v);
        assert(symbol_atom(gv, int_text(version as int)));
        self
    }

    /// Sets the generator: `(generator "name")`.
    pub fn set_generator(&mut self, generator: String) -> (r: &mut Self)
        requires
            old(self).wf(),
        ensures
            *final(self) == *final(r),
            exists|v: Node|
                #[trigger] quoted_atom(v, generator@) && scalar_upserted(
                    root_items(old(self).spec_cst()),
                    root_items(r.spec_cst()),
                    1,
                    "generator"@,
                    v,
                ),
            Self::refreshed(*old(self), *r, root_items(r.spec_cst())),
            unknown_kept(root_items(old(self).spec_cst()), root_items(r.spec_cst())),
            root_items(old(self).spec_cst()).len() >= 1 ==> ov(r.spec_ast().generator) == Some(generator@),
            scalar_written(root_items(old(self).spec_cst()), 1, "generator"@, generator@, true) ==> doc_text(r.spec_cst())
                == doc_text(old(self).spec_cst()),
    {
        assert(schematic_known()[1]@ == "generator"@);
        proof {
            reveal_strlit("generator");
        }
        self.set_quoted_scalar("generator", generator);
        self
    }

    /// Sets the generator version: `(generator_version "text")`.
    pub fn set_generator_version(&mut self, generator_version: String) -> (r: &mut Self)
        requires
            old(self).wf(),
        ensures
            *final(self) == *final(r),
            exists|v: Node|
                #[trigger] quoted_atom(v, generator_version@) && scalar_upserted(
                    root_items(old(self).spec_cst()),
                    root_items(r.spec_cst()),
                    1,
                    "generator_version"@,
                    v,
                ),
            Self::refreshed(*old(self), *r, root_items(r.spec_cst())),
            unknown_kept(root_items(old(self).spec_cst()), root_items(r.spec_cst())),
            root_items(old(self).spec_cst()).len() >= 1 ==> ov(r.spec_ast().generator_version) == Some(
                generator_version@,
            ),
            scalar_written(root_items(old(self).spec_cst()), 1, "generator_version"@, generator_version@, true)
                ==> doc_text(r.spec_cst()) == doc_text(old(self).spec_cst()),
    {
        assert(schematic_known()[2]@ == "generator_version"@);
        proof {
            reveal_strlit("generator_version");
        }
        self.set_quoted_scalar("generator_version", generator_version);
        self
    }

    /// Sets the schematic's uuid: `(uuid "...")`.
    pub fn set_uuid(&mut self, uuid: String) -> (r: &mut Self)
        requires
            old(self).wf(),
        ensures
            *final(self) == *final(r),
            exists|v: Node|
                #[trigger] quoted_atom(v, uuid@) && scalar_upserted(
                    root_items(old(self).spec_cst()),
                    root_items(r.spec_cst()),
                    1,
                    "uuid"@,
                    v,
                ),
            Self::refreshed(*old(self), *r, root_items(r.spec_cst())),
            unknown_kept(root_items(old(self).spec_cst()), root_items(r.spec_cst())),
            root_items(old(self).spec_cst()).len() >= 1 ==> ov(r.spec_ast().uuid) == Some(uuid@),
            scalar_written(root_items(old(self).spec_cst()), 1, "uuid"@, uuid@, true) ==> doc_text(r.spec_cst())
                == doc_text(old(self).spec_cst()),
    {
        assert(schematic_known()[3]@ == "uuid"@);
        proof {
            reveal_strlit("uuid");
        }
        self.set_quoted_scalar("uuid", uuid);
        self
    }

    /// Sets `(embedded_fonts yes)` or `(embedded_fonts no)`.
    pub fn set_embedded_fonts(&mut self, enabled: bool) -> (r: &mut Self)
        requires
            old(self).wf(),
        ensures
            *final(self) == *final(r),
            exists|v: Node|
                #[trigger] symbol_atom(v, yes_no_text(enabled)) && scalar_upserted(
                    root_items(old(self).spec_cst()),
                    root_items(r.spec_cst()),
                    1,
                    "embedded_fonts"@,
                    v,
                ),
            Self::refreshed(*old(self), *r, root_items(r.spec_cst())),
            unknown_kept(root_items(old(self).spec_cst()), root_items(r.spec_cst())),
            root_items(old(self).spec_cst()).len() >= 1 ==> r.spec_ast().embedded_fonts == Some(enabled),
    {
        let text = if enabled { owned("yes") } else { owned("no") };
        let ghost t = text@;
        let v = atom_symbol(text);
        let ghost gv = v;
        assert(schematic_known()[29]@ == "embedded_fonts"@);
        proof {
            reveal_strlit("embedded_fonts");
        }
        self.set_scalar("embedded_fonts", v);
        assert(t == yes_no_text(enabled));
        assert(symbol_atom(gv, yes_no_text(enabled)));
        proof {
            reveal_strlit("yes");
            reveal_strlit("no");
            reveal_strlit("true");
            reveal_strlit("false");
        }
        self
    }

    fn set_paper_node(&mut self, node: Node)
        requires
            old(self).wf(),
            head_of(node) == Some("paper"@),
            node is List,
            node_wf(node),
            node_depth(node) <= 1,
        ensures
            unknown_kept(root_items(old(self).spec_cst()), root_items(final(self).spec_cst())),
            node_upserted(root_items(old(self).spec_cst()), root_items(final(self).spec_cst()), 1, "paper"@, node),
            Self::refreshed(*old(self), *final(self), root_items(final(self).spec_cst())),
            root_items(old(self).spec_cst()).len() >= 1 ==> (last_with_head(root_items(final(self).spec_cst()), 1, "paper"@)
                matches Some(t) && list_items(t) == list_items(node)),
    {
        let items = self.take_items();
        let ghost old_items = items@;
        let ghost gn = node;
        let items = upsert_node(items, 1, "paper", node);
        proof {
            lemma_node_upserted_wf(old_items, items@, 1, "paper"@, gn, (MAX_DEPTH - 1) as nat);
            lemma_last_head_index(old_items, 1, "paper"@);
            assert(items@[0] == old_items[0]);
        }
        let ghost mid = self.spec_cst();
        self.finish(items);
        proof {
            lemma_root_replaced_trans(old(self).spec_cst(), mid, self.spec_cst(), Seq::empty(), items@);
            if old_items.len() >= 1 {
                lemma_node_upserted_reads(old_items, items@, 1, "paper"@, gn);
                assert(schematic_known()[4]@ == "paper"@);
                lemma_node_upserted_unknown(old_items, items@, 1, "paper"@, gn, schematic_known());
            }
        }
    }

    /// Sets a standard paper size, with an optional orientation.
    pub fn set_paper_standard(&mut self, kind: String, orientation: Option<String>) -> (r: &mut Self)
        requires
            old(self).wf(),
        ensures
            *final(self) == *final(r),
            exists|m: Node|
                #[trigger] paper_standard_shape(m, kind@, ov(orientation)) && node_upserted(
                    root_items(old(self).spec_cst()),
                    root_items(r.spec_cst()),
                    1,
                    "paper"@,
                    m,
                ),
            Self::refreshed(*old(self), *r, root_items(r.spec_cst())),
            unknown_kept(root_items(old(self).spec_cst()), root_items(r.spec_cst())),
            root_items(old(self).spec_cst()).len() >= 1 && !(ov(orientation) matches Some(o) && is_decimal_text(o))
                ==> (r.spec_ast().paper matches Some(p) && ov(p.kind) == Some(kind@) && p.width is None && p.height is None
                && ov(p.orientation) == ov(orientation)),
    {
        let ghost ko = (kind@, ov(orientation));
        let node = paper_standard_node(kind, orientation);
        let ghost gn = node;
        self.set_paper_node(node);
        assert(paper_standard_shape(gn, ko.0, ko.1));
        self
    }

    /// Sets a user-defined paper size, with an optional orientation.
    pub fn set_paper_user(&mut self, width: Real, height: Real, orientation: Option<String>) -> (r: &mut Self)
        requires
            old(self).wf(),
        ensures
            *final(self) == *final(r),
            exists|m: Node|
                #[trigger] paper_user_shape(m, width.text@, height.text@, ov(orientation)) && node_upserted(
                    root_items(old(self).spec_cst()),
                    root_items(r.spec_cst()),
                    1,
                    "paper"@,
                    m,
                ),
            Self::refreshed(*old(self), *r, root_items(r.spec_cst())),
            unknown_kept(root_items(old(self).spec_cst()), root_items(r.spec_cst())),
            root_items(old(self).spec_cst()).len() >= 1 && is_decimal_text(width.text@) && is_decimal_text(height.text@)
                ==> (r.spec_ast().paper matches Some(p) && ov(p.kind) == Some("User"@) && rv(p.width) == Some(width.text@)
                && rv(p.height) == Some(height.text@) && ov(p.orientation) == ov(orientation)),
    {
        let ghost wh = (width.text@, height.text@, ov(orientation));
        let node = paper_user_node(width, height, orientation);
        let ghost gn = node;
        self.set_paper_node(node);
        assert(paper_user_shape(gn, wh.0, wh.1, wh.2));
        self
    }

    fn set_title_block_field(&mut self, h: &str, value: String)
        requires
            old(self).wf(),
            is_symbol_text(h@),
        ensures
            unknown_kept(root_items(old(self).spec_cst()), root_items(final(self).spec_cst())),
            exists|v: Node|
                #[trigger] quoted_atom(v, value@) && section_scalar_upserted(
                    root_items(old(self).spec_cst()),
                    root_items(final(self).spec_cst()),
                    1,
                    "title_block"@,
                    h@,
                    v,
                ),
            Self::refreshed(*old(self), *final(self), root_items(final(self).spec_cst())),
            root_items(old(self).spec_cst()).len() >= 1 ==> (last_with_head(
                root_items(final(self).spec_cst()),
                1,
                "title_block"@,
            ) matches Some(t) && last_second_string(list_items(t), 1, h@) == Some(value@)),
    {
        let ghost g = value@;
        let items = self.take_items();
        let ghost old_items = items@;
        let v = atom_quoted(value);
        let ghost gv = v;
        let items = upsert_section_child_scalar(items, 1, "title_block", h, v);
        proof {
            reveal_strlit("title_block");
            lemma_section_scalar_upserted_wf(old_items, items@, 1, "title_block"@, h@, gv, (MAX_DEPTH - 1) as nat);
        }
        let ghost mid = self.spec_cst();
        self.finish(items);
        proof {
            lemma_root_replaced_trans(old(self).spec_cst(), mid, self.spec_cst(), Seq::empty(), items@);
            if old_items.len() >= 1 {
                lemma_section_scalar_upserted_reads(old_items, items@, 1, "title_block"@, h@, gv);
                assert(schematic_known()[5]@ == "title_block"@);
                lemma_section_scalar_upserted_unknown(old_items, items@, 1, "title_block"@, h@, gv, schematic_known());
            }
        }
        assert(quoted_atom(gv, g));
    }

    /// Sets the title in the title block.
    pub fn set_title(&mut self, title: String) -> (r: &mut Self)
        requires
            old(self).wf(),
        ensures
            *final(self) == *final(r),
            exists|v: Node|
                #[trigger] quoted_atom(v, title@) && section_scalar_upserted(
                    root_items(old(self).spec_cst()),
                    root_items(r.spec_cst()),
                    1,
                    "title_block"@,
                    "title"@,
                    v,
                ),
            Self::refreshed(*old(self), *r, root_items(r.spec_cst())),
            unknown_kept(root_items(old(self).spec_cst()), root_items(r.spec_cst())),
            root_items(old(self).spec_cst()).len() >= 1 ==> (r.spec_ast().title_block matches Some(t) && ov(t.title)
                == Some(title@)),
    {
        proof {
            reveal_strlit("title");
        }
        self.set_title_block_field("title", title);
        self
    }

    /// Sets the date in the title block.
    pub fn set_date(&mut self, date: String) -> (r: &mut Self)
        requires
            old(self).wf(),
        ensures
            *final(self) == *final(r),
            exists|v: Node|
                #[trigger] quoted_atom(v, date@) && section_scalar_upserted(
                    root_items(old(self).spec_cst()),
                    root_items(r.spec_cst()),
                    1,
                    "title_block"@,
                    "date"@,
                    v,
                ),
            Self::refreshed(*old(self), *r, root_items(r.spec_cst())),
            unknown_kept(root_items(old(self).spec_cst()), root_items(r.spec_cst())),
            root_items(old(self).spec_cst()).len() >= 1 ==> (r.spec_ast().title_block matches Some(t) && ov(t.date)
                == Some(date@)),
    {
        proof {
            reveal_strlit("date");
        }
        self.set_title_block_field("date", date);
        self
    }

    /// Sets the revision in the title block: `(rev "...")`.
    pub fn set_revision(&mut self, revision: String) -> (r: &mut Self)
        requires
            old(self).wf(),
        ensures
            *final(self) == *final(r),
            exists|v: Node|
                #[trigger] quoted_atom(v, revision@) && section_scalar_upserted(
                    root_items(old(self).spec_cst()),
                    root_items(r.spec_cst()),
                    1,
                    "title_block"@,
                    "rev"@,
                    v,
                ),
            Self::refreshed(*old(self), *r, root_items(r.spec_cst())),
            unknown_kept(root_items(old(self).spec_cst()), root_items(r.spec_cst())),
            root_items(old(self).spec_cst()).len() >= 1 ==> (r.spec_ast().title_block matches Some(t) && ov(t.revision)
                == Some(revision@)),
    {
        proof {
            reveal_strlit("rev");
        }
        self.set_title_block_field("rev", revision);
        self
    }

    /// Sets the company in the title block.
    pub fn set_company(&mut self, company: String) -> (r: &mut Self)
        requires
            old(self).wf(),
        ensures
            *final(self) == *final(r),
            exists|v: Node|
                #[trigger] quoted_atom(v, company@) && section_scalar_upserted(
                    root_items(old(self).spec_cst()),
                    root_items(r.spec_cst()),
                    1,
                    "title_block"@,
                    "company"@,
                    v,
                ),
            Self::refreshed(*old(self), *r, root_items(r.spec_cst())),
            unknown_kept(root_items(old(self).spec_cst()), root_items(r.spec_cst())),
            root_items(old(self).spec_cst()).len() >= 1 ==> (r.spec_ast().title_block matches Some(t) && ov(t.company)
                == Some(company@)),
    {
        proof {
            reveal_strlit("company");
        }
        self.set_title_block_field("company", company);
        self
    }

    /// The filenames of the sub-sheets: the first `Sheetfile` property of
    /// each `(sheet ...)` item that has one, in order.
    pub fn sheet_filenames(&self) -> (r: Vec<String>)
        ensures
            sv(r@) == sheet_files(filter_head(root_items(self.spec_cst()), 1, "sheet"@)),
    {
        if self.cst.nodes.len() == 0 {
            return Vec::new();
        }
        let empty: Vec<Node> = Vec::new();
        let items = match &self.cst.nodes[0] {
            Node::List { items, .. } => items,
            Node::Atom { .. } => &empty,
        };
        assert(items@ == root_items(self.spec_cst()));
        let mut r: Vec<String> = Vec::new();
        let mut i: usize = 0;
        while i < items.len()
            invariant
                i <= items.len(),
                sv(r@) == sheet_files(filter_head(items@.subrange(0, i as int), 1, "sheet"@)),
            decreases items.len() - i,
        {
            let ghost sub = items@.subrange(0, i + 1);
            assert(sub.drop_last() =~= items@.subrange(0, i as int));
            assert(sub.last() == items@[i as int]);
            if i >= 1 && head_is(&items[i], "sheet") {
                let ghost fl = filter_head(sub, 1, "sheet"@);
                assert(fl.drop_last() == filter_head(items@.subrange(0, i as int), 1, "sheet"@));
                match &items[i] {
                    Node::List { items: sheet_items, .. } => {
                        match get_property_value(sheet_items, 1, "Sheetfile") {
                            Some(f) => {
                                let ghost before = r@;
                                r.push(f);
                                assert(sv(r@) =~= sv(before).push(f@));
                            },
                            None => {},
                        }
                    },
                    Node::Atom { .. } => {},
                }
            }
            i = i + 1;
        }
        assert(items@.subrange(0, items.len() as int) =~= items@);
        r
    }

    /// What each placed `(symbol ...)` of the schematic holds, in order.
    pub fn symbol_instances(&self) -> (r: Vec<SchematicSymbolInfo>)
        ensures
            each(
                filter_head(root_items(self.spec_cst()), 1, "symbol"@),
                r@,
                |n: Node, i: SchematicSymbolInfo| symbol_info_of(n, i),
            ),
    {
        let empty: Vec<Node> = Vec::new();
        let items = if self.cst.nodes.len() == 0 {
            &empty
        } else {
            match &self.cst.nodes[0] {
                Node::List { items, .. } => items,
                Node::Atom { .. } => &empty,
            }
        };
        assert(items@ == root_items(self.spec_cst()));
        collect_with_head(items, 1, "symbol", parse_symbol_info, Ghost(|n: Node, i: SchematicSymbolInfo| symbol_info_of(n, i)))
    }

    /// Sets `(property "key" "value")` on every placed symbol whose
    /// `Reference` is `reference`.
    pub fn upsert_symbol_instance_property(&mut self, reference: &str, key: &str, value: String) -> (r: &mut Self)
        requires
            old(self).wf(),
        ensures
            *final(self) == *final(r),
            Self::refreshed(*old(self), *r, root_items(r.spec_cst())),
            unknown_kept(root_items(old(self).spec_cst()), root_items(r.spec_cst())),
            root_items(r.spec_cst()).len() == root_items(old(self).spec_cst()).len(),
            forall|j: int|
                #![trigger root_items(r.spec_cst())[j]]
                0 <= j < root_items(old(self).spec_cst()).len() ==> if j >= 1 && is_instance(
                    root_items(old(self).spec_cst())[j],
                    reference@,
                ) {
                    instance_upserted(root_items(old(self).spec_cst())[j], root_items(r.spec_cst())[j], key@, value@)
                        && prop_value(list_items(root_items(r.spec_cst())[j]), 1, key@) == Some(value@)
                } else {
                    root_items(r.spec_cst())[j] == root_items(old(self).spec_cst())[j]
                },
    {
        let mut items = self.take_items();
        let ghost orig = items@;
        let mut i: usize = 1;
        while i < items.len()
            invariant
                1 <= i,
                items@.len() == orig.len(),
                forall|j: int|
                    #![trigger items@[j]]
                    0 <= j < orig.len() ==> if j < i && j >= 1 && is_instance(orig[j], reference@) {
                        instance_upserted(orig[j], items@[j], key@, value@) && prop_value(list_items(items@[j]), 1, key@)
                            == Some(value@)
                    } else {
                        items@[j] == orig[j]
                    },
            decreases items.len() - i,
        {
            if is_instance_exec(&items[i], reference) {
                let ghost before = items@;
                assert(before[i as int] == orig[i as int]);
                let old = items.remove(i);
                match old {
                    Node::List { lead, items: inner, tail } => {
                        let ghost oi = inner@;
                        let ghost gv = value@;
                        let w = atom_quoted(value.clone());
                        let ghost gw = w;
                        let inner2 = upsert_property(inner, 1, key, w);
                        proof {
                            assert(oi.len() >= 1);
                            lemma_property_upserted_reads(oi, inner2@, 1, key@, gw);
                        }
                        let n = Node::List { lead, items: inner2, tail };
                        items.insert(i, n);
                        assert(items@ =~= before.update(i as int, n));
                        assert(quoted_atom(gw, value@));
                        assert(instance_upserted(orig[i as int], items@[i as int], key@, value@));
                    },
                    Node::Atom { lead, atom, raw } => {
                        proof {
                            assert(false);
                        }
                        items.insert(i, Node::Atom { lead, atom, raw });
                    },
                }
            }
            i = i + 1;
        }
        let ghost fin = items@;
        proof {
            lemma_nodes_wf_items_ok(orig);
            lemma_items_depth_each_pub(orig);
            assert forall|j: int| 0 <= j < orig.len() implies #[trigger] fin[j] == orig[j] || (orig[j] is List && fin[j] is List
                && node_wf(fin[j]) && node_depth(fin[j]) <= (MAX_DEPTH - 1) as nat) by {
                if j >= 1 && is_instance(orig[j], reference@) {
                    let w = choose|w: Node|
                        #[trigger] quoted_atom(w, value@) && property_upserted(list_items(orig[j]), list_items(fin[j]), 1, key@, w);
                    assert(node_wf(orig[j]));
                    assert(node_depth(orig[j]) <= items_depth(orig));
                    lemma_property_upserted_wf(list_items(orig[j]), list_items(fin[j]), 1, key@, w, (MAX_DEPTH - 2) as nat);
                }
            }
            lemma_lists_replaced_wf(orig, fin, (MAX_DEPTH - 1) as nat);
        }
        let ghost mid = self.spec_cst();
        self.finish(items);
        proof {
            lemma_root_replaced_trans(old(self).spec_cst(), mid, self.spec_cst(), Seq::empty(), fin);
            assert(schematic_known()[7]@ == "symbol"@);
            assert forall|j: int| 1 <= j < orig.len() && 0 <= j implies fin[j] == orig[j] || (head_in(
                orig[j],
                schematic_known(),
            ) && head_in(#[trigger] fin[j], schematic_known())) by {
                if is_instance(orig[j], reference@) {
                    let w = choose|w: Node|
                        #[trigger] quoted_atom(w, value@) && property_upserted(list_items(orig[j]), list_items(fin[j]), 1, key@, w);
                    lemma_property_upserted_keeps_head(list_items(orig[j]), list_items(fin[j]), 1, key@, w);
                    assert(head_of(fin[j]) == Some(schematic_known()[7]@));
                }
            }
            lemma_unknown_kept_update(orig, fin, 1, schematic_known());
        }
        self
    }

    /// Removes `(property "key" ...)` from every placed symbol whose
    /// `Reference` is `reference`.
    pub fn remove_symbol_instance_property(&mut self, reference: &str, key: &str) -> (r: &mut Self)
        requires
            old(self).wf(),
        ensures
            *final(self) == *final(r),
            Self::refreshed(*old(self), *r, root_items(r.spec_cst())),
            unknown_kept(root_items(old(self).spec_cst()), root_items(r.spec_cst())),
            root_items(r.spec_cst()).len() == root_items(old(self).spec_cst()).len(),
            forall|j: int|
                #![trigger root_items(r.spec_cst())[j]]
                0 <= j < root_items(old(self).spec_cst()).len() ==> if j >= 1 && is_instance(
                    root_items(old(self).spec_cst())[j],
                    reference@,
                ) {
                    instance_removed(root_items(old(self).spec_cst())[j], root_items(r.spec_cst())[j], key@)
                        && prop_value(list_items(root_items(r.spec_cst())[j]), 1, key@) is None
                } else {
                    root_items(r.spec_cst())[j] == root_items(old(self).spec_cst())[j]
                },
    {
        let mut items = self.take_items();
        let ghost orig = items@;
        let mut i: usize = 1;
        while i < items.len()
            invariant
                1 <= i,
                items@.len() == orig.len(),
                forall|j: int|
                    #![trigger items@[j]]
                    0 <= j < orig.len() ==> if j < i && j >= 1 && is_instance(orig[j], reference@) {
                        instance_removed(orig[j], items@[j], key@) && prop_value(list_items(items@[j]), 1, key@) is None
                    } else {
                        items@[j] == orig[j]
                    },
            decreases items.len() - i,
        {
            if is_instance_exec(&items[i], reference) {
                let ghost before = items@;
                assert(before[i as int] == orig[i as int]);
                let old = items.remove(i);
                match old {
                    Node::List { lead, items: inner, tail } => {
                        let ghost oi = inner@;
                        let inner2 = remove_property(inner, 1, key);
                        proof {
                            lemma_removed(oi, inner2@, 1, key@, schematic_known());
                        }
                        let n = Node::List { lead, items: inner2, tail };
                        items.insert(i, n);
                        assert(items@ =~= before.update(i as int, n));
                    },
                    Node::Atom { lead, atom, raw } => {
                        proof {
                            assert(false);
                        }
                        items.insert(i, Node::Atom { lead, atom, raw });
                    },
                }
            }
            i = i + 1;
        }
        let ghost fin = items@;
        proof {
            lemma_nodes_wf_items_ok(orig);
            lemma_items_depth_each_pub(orig);
            assert forall|j: int| 0 <= j < orig.len() implies #[trigger] fin[j] == orig[j] || (orig[j] is List && fin[j] is List
                && node_wf(fin[j]) && node_depth(fin[j]) <= (MAX_DEPTH - 1) as nat) by {
                if j >= 1 && is_instance(orig[j], reference@) {
                    assert(node_wf(orig[j]));
                    assert(node_depth(orig[j]) <= items_depth(orig));
                    lemma_removed(list_items(orig[j]), list_items(fin[j]), 1, key@, schematic_known());
                }
            }
            lemma_lists_replaced_wf(orig, fin, (MAX_DEPTH - 1) as nat);
        }
        let ghost mid = self.spec_cst();
        self.finish(items);
        proof {
            lemma_root_replaced_trans(old(self).spec_cst(), mid, self.spec_cst(), Seq::empty(), fin);
            assert(schematic_known()[7]@ == "symbol"@);
            assert forall|j: int| 1 <= j < orig.len() && 0 <= j implies fin[j] == orig[j] || (head_in(
                orig[j],
                schematic_known(),
            ) && head_in(#[trigger] fin[j], schematic_known())) by {
                if is_instance(orig[j], reference@) {
                    lemma_removed(list_items(orig[j]), list_items(fin[j]), 1, key@, schematic_known());
                    assert(head_of(fin[j]) == Some(schematic_known()[7]@));
                }
            }
            lemma_unknown_kept_update(orig, fin, 1, schematic_known());
        }
        self
    }
}

/// Reads schematic documents.
pub struct SchematicFile;

impl SchematicFile {
    /// Reads a schematic from its text: one S-expression whose root token is
    /// `kicad_sch`.
    pub fn read_str(text: &str) -> (r: Result<SchematicDocument, Error>)
        ensures
            r matches Ok(d) ==> {
                &&& d.wf()
                &&& !d.spec_dirty()
                &&& doc_text(d.spec_cst()) == text@
                &&& doc_wf(d.spec_cst())
                &&& same_node(the_expression(text@).nodes@[0], d.spec_cst().nodes@[0])
                &&& head_of(d.spec_cst().nodes@[0]) == Some("kicad_sch"@)
            },
            r matches Err(Error::Parse(e)) ==> (e == ParseError::EmptyInput <==> all_ws(text@)),
            all_ws(text@) ==> r matches Err(Error::Parse(ParseError::EmptyInput)),
            r is Ok <==> is_one_expression(text@) && expression_head(text@) == Some("kicad_sch"@),
            r matches Err(Error::Parse(_)) <==> !is_one_expression(text@),
            r matches Err(Error::Validation(m)) ==> m@ == root_message(),
            !(r matches Err(Error::Io(_))),
    {
        let cst = match parse_one(text) {
            Ok(c) => c,
            Err(e) => {
                return Err(Error::Parse(e));
            },
        };
        let roots = vec!["kicad_sch"];
        assert(roots@ == seq!["kicad_sch"]);
        match expect_root_head(&cst, &roots) {
            Ok(()) => {},
            Err(e) => {
                assert(!head_in(cst.nodes@[0], roots@)) by {
                    if head_of(cst.nodes@[0]) == Some("kicad_sch"@) {
                        assert(head_of(cst.nodes@[0]) == Some(roots@[0]@));
                    }
                }
                return Err(e);
            },
        }
        assert(head_of(cst.nodes@[0]) == Some("kicad_sch"@));
        proof {
            lemma_tree_ok_of_read(cst);
        }
        Ok(SchematicDocument::from_cst(cst))
    }
}

/// Every setter leaves the syntax tree the source of truth: after it, the
/// typed view and the diagnostics are exactly those read from the edited
/// items, and the document can be written.
pub proof fn lemma_setter_rederives(old: SchematicDocument, new: SchematicDocument, items: Seq<Node>)
    requires
        SchematicDocument::refreshed(old, new, items),
    ensures
        root_items(new.spec_cst()) == items,
        schematic_ast_of(items, new.spec_ast()),
        version_diagnostics(last_second_i32(items, 1, "version"@), new.spec_diagnostics()),
        !new.spec_dirty(),
        new.wf(),
{
}


/// What a schematic writes reads back as itself: the lossless text of a
/// well-formed document is one S-expression whose root head is the
/// document's, so `read_str` accepts it, and a document read from that text
/// holds a copy of the document's tree, with the same text around it.
pub proof fn lemma_written_schematic_reads_back(d: SchematicDocument)
    requires
        d.wf(),
    ensures
        is_one_expression(rendered(d.spec_cst(), WriteMode::Lossless)),
        expression_head(rendered(d.spec_cst(), WriteMode::Lossless)) == head_of(d.spec_cst().nodes@[0]),
        expression_head(rendered(d.spec_cst(), WriteMode::Lossless)) == Some("kicad_sch"@),
        forall|e: SchematicDocument|
            e.wf() && doc_text(#[trigger] e.spec_cst()) == rendered(d.spec_cst(), WriteMode::Lossless) ==> same_node(
                d.spec_cst().nodes@[0],
                e.spec_cst().nodes@[0],
            ) && e.spec_cst().trailing@ == d.spec_cst().trailing@,
{
    lemma_tree_text_reads(d.spec_cst());
    lemma_reads_as_itself(d.spec_cst());
    assert forall|e: SchematicDocument|
        e.wf() && doc_text(#[trigger] e.spec_cst()) == rendered(d.spec_cst(), WriteMode::Lossless) implies same_node(
            d.spec_cst().nodes@[0],
            e.spec_cst().nodes@[0],
        ) && e.spec_cst().trailing@ == d.spec_cst().trailing@ by {
        lemma_tree_text_reads(e.spec_cst());
        lemma_text_reads_back(d.spec_cst(), e.spec_cst());
    }
}

/// What `symbol_instances` lists agrees with the typed view: one entry per
/// placed symbol, in order, each with that symbol's reference, value and
/// properties.
pub proof fn lemma_symbol_instances_agree(d: SchematicDocument, r: Seq<SchematicSymbolInfo>)
    requires
        d.wf(),
        !d.spec_dirty(),
        each(
            filter_head(root_items(d.spec_cst()), 1, "symbol"@),
            r,
            |n: Node, i: SchematicSymbolInfo| symbol_info_of(n, i),
        ),
    ensures
        r.len() == d.spec_ast().symbol_count,
        r.len() == d.spec_ast().symbols@.len(),
        forall|i: int|
            0 <= i < r.len() ==> {
                &&& ov(#[trigger] r[i].reference) == ov(d.spec_ast().symbols@[i].reference)
                &&& ov(r[i].value) == ov(d.spec_ast().symbols@[i].value)
                &&& pairs_view(r[i].properties@) == pairs_view(d.spec_ast().symbols@[i].properties@)
            },
{
    let s = filter_head(root_items(d.spec_cst()), 1, "symbol"@);
    let a = d.spec_ast();
    let p = |n: Node, i: SchematicSymbolInfo| symbol_info_of(n, i);
    let q = |n: Node, y: SchematicSymbol| schematic_symbol_of(n, y);
    assert forall|i: int| 0 <= i < r.len() implies {
        &&& ov(#[trigger] r[i].reference) == ov(a.symbols@[i].reference)
        &&& ov(r[i].value) == ov(a.symbols@[i].value)
        &&& pairs_view(r[i].properties@) == pairs_view(a.symbols@[i].properties@)
    } by {
        assert(p(s[i], r[i]));
        assert(q(s[i], a.symbols@[i]));
    }
}

/// The `(xy x y)` lists of `items` whose two coordinates are numbers.
pub open spec fn point_items(items: Seq<Node>) -> Seq<Node> {
    items.filter(|x: Node| head_of(x) == Some("xy"@) && xy_of(x) is Some)
}

/// The points written in the `(xy x y)` items of `items`, in order.
pub open spec fn written_points(items: Seq<Node>) -> Seq<(Seq<char>, Seq<char>)> {
    point_items(items).map_values(|x: Node| xy_of(x)->0)
}

proof fn lemma_points_written(items: Seq<Node>)
    requires
        items.len() > 0 ==> items[0] is Atom,
    ensures
        points_of(filter_head(items, 1, "xy"@)) == written_points(items),
    decreases items.len(),
{
    reveal(Seq::filter);
    if items.len() > 0 {
        let t = items.drop_last();
        let x = items.last();
        if t.len() > 0 {
            assert(t[0] == items[0]);
        }
        lemma_points_written(t);
        let ok = head_of(x) == Some("xy"@) && xy_of(x) is Some;
        if items.len() == 1 {
            assert(x == items[0]);
            assert(!ok);
        }
        assert(point_items(items) == if ok { point_items(t).push(x) } else { point_items(t) });
        let l = filter_head(t, 1, "xy"@);
        assert(l.push(x).drop_last() =~= l);
        if ok {
            assert(written_points(items) =~= written_points(t).push(xy_of(x)->0));
        } else {
            assert(written_points(items) =~= written_points(t));
        }
    }
}

/// The points read from the last `(pts ...)` item are those written in it.
proof fn lemma_last_points_at(s: Seq<Node>, j: int)
    requires
        is_last_head(s, 1, "pts"@, j),
    ensures
        last_points(s, 1, "pts"@) == written_points(list_items(s[j])),
{
    lemma_last_with_head_at(s, 1, "pts"@, j);
    lemma_points_written(list_items(s[j]));
}

/// Without a `(pts ...)` item there are no points.
proof fn lemma_no_points(s: Seq<Node>)
    requires
        lacks_head(s, 1, "pts"@),
    ensures
        last_points(s, 1, "pts"@).len() == 0,
{
    lemma_lacks_head(s, 1, "pts"@);
}

/// The points of a line item are exactly those of its last `(pts ...)` list:
/// one for each `(xy x y)` item whose two coordinates are numbers, in order;
/// an item without a `(pts ...)` list has none.
proof fn lemma_points_read(s: Seq<Node>, pts: Seq<(Seq<char>, Seq<char>)>)
    requires
        pts == last_points(s, 1, "pts"@),
    ensures
        forall|j: int| #[trigger] is_last_head(s, 1, "pts"@, j) ==> pts == written_points(list_items(s[j])),
        lacks_head(s, 1, "pts"@) ==> pts.len() == 0,
{
    assert forall|j: int| #[trigger] is_last_head(s, 1, "pts"@, j) implies pts == written_points(list_items(s[j])) by {
        lemma_last_points_at(s, j);
    }
    if lacks_head(s, 1, "pts"@) {
        lemma_no_points(s);
    }
}

/// The points of a wire are those written in its last `(pts ...)` list: one
/// for each `(xy x y)` item whose two coordinates are numbers, in order; a
/// wire without a `(pts ...)` list has none.
pub proof fn lemma_wire_points(d: SchematicDocument, k: int)
    requires
        d.wf(),
        !d.spec_dirty(),
        0 <= k < d.spec_ast().wires@.len(),
    ensures
        ({
            let s = list_items(filter_head(root_items(d.spec_cst()), 1, "wire"@)[k]);
            let pts = xys(d.spec_ast().wires@[k].points@);
            &&& forall|j: int| #[trigger] is_last_head(s, 1, "pts"@, j) ==> pts == written_points(list_items(s[j]))
            &&& lacks_head(s, 1, "pts"@) ==> pts.len() == 0
        }),
{
    let n = filter_head(root_items(d.spec_cst()), 1, "wire"@)[k];
    let q = |n: Node, y: SchematicWire| wire_of(n, y);
    assert(q(n, d.spec_ast().wires@[k]));
    lemma_points_read(list_items(n), xys(d.spec_ast().wires@[k].points@));
}

/// The points of a bus are those written in its last `(pts ...)` list (see
/// `lemma_wire_points`).
pub proof fn lemma_bus_points(d: SchematicDocument, k: int)
    requires
        d.wf(),
        !d.spec_dirty(),
        0 <= k < d.spec_ast().buses@.len(),
    ensures
        ({
            let s = list_items(filter_head(root_items(d.spec_cst()), 1, "bus"@)[k]);
            let pts = xys(d.spec_ast().buses@[k].points@);
            &&& forall|j: int| #[trigger] is_last_head(s, 1, "pts"@, j) ==> pts == written_points(list_items(s[j]))
            &&& lacks_head(s, 1, "pts"@) ==> pts.len() == 0
        }),
{
    let n = filter_head(root_items(d.spec_cst()), 1, "bus"@)[k];
    let q = |n: Node, y: SchematicBus| bus_of(n, y);
    assert(q(n, d.spec_ast().buses@[k]));
    lemma_points_read(list_items(n), xys(d.spec_ast().buses@[k].points@));
}

/// The points of a polyline are those written in its last `(pts ...)` list
/// (see `lemma_wire_points`).
pub proof fn lemma_polyline_points(d: SchematicDocument, k: int)
    requires
        d.wf(),
        !d.spec_dirty(),
        0 <= k < d.spec_ast().polylines@.len(),
    ensures
        ({
            let s = list_items(filter_head(root_items(d.spec_cst()), 1, "polyline"@)[k]);
            let pts = xys(d.spec_ast().polylines@[k].points@);
            &&& forall|j: int| #[trigger] is_last_head(s, 1, "pts"@, j) ==> pts == written_points(list_items(s[j]))
            &&& lacks_head(s, 1, "pts"@) ==> pts.len() == 0
        }),
{
    let n = filter_head(root_items(d.spec_cst()), 1, "polyline"@)[k];
    let q = |n: Node, y: SchematicPolyline| polyline_of(n, y);
    assert(q(n, d.spec_ast().polylines@[k]));
    lemma_points_read(list_items(n), xys(d.spec_ast().polylines@[k].points@));
}

/// The points of a rule area are those written in its last `(pts ...)` list
/// (see `lemma_wire_points`).
pub proof fn lemma_rule_area_points(d: SchematicDocument, k: int)
    requires
        d.wf(),
        !d.spec_dirty(),
        0 <= k < d.spec_ast().rule_areas@.len(),
    ensures
        ({
            let s = list_items(filter_head(root_items(d.spec_cst()), 1, "rule_area"@)[k]);
            let pts = xys(d.spec_ast().rule_areas@[k].points@);
            &&& forall|j: int| #[trigger] is_last_head(s, 1, "pts"@, j) ==> pts == written_points(list_items(s[j]))
            &&& lacks_head(s, 1, "pts"@) ==> pts.len() == 0
        }),
{
    let n = filter_head(root_items(d.spec_cst()), 1, "rule_area"@)[k];
    let q = |n: Node, y: SchematicRuleArea| rule_area_of(n, y);
    assert(q(n, d.spec_ast().rule_areas@[k]));
    lemma_points_read(list_items(n), xys(d.spec_ast().rule_areas@[k].points@));
}

/// `j` is the first `(property "key" ...)` item of `s` after its head.
pub open spec fn is_first_prop(s: Seq<Node>, key: Seq<char>, j: int) -> bool {
    &&& 1 <= j < s.len()
    &&& is_prop(s[j], key)
    &&& forall|i: int| #![trigger s[i]] 1 <= i < j ==> !is_prop(s[i], key)
}

/// No item of `s` after its head is a `(property "key" ...)`.
pub open spec fn lacks_prop(s: Seq<Node>, key: Seq<char>) -> bool {
    forall|i: int| #![trigger s[i]] 1 <= i < s.len() ==> !is_prop(s[i], key)
}

proof fn lemma_first_prop_at(s: Seq<Node>, key: Seq<char>, j: int)
    requires
        is_first_prop(s, key, j),
    ensures
        first_prop(s, 1, key) == Some(j),
    decreases s.len(),
{
    let t = s.drop_last();
    if j < s.len() - 1 {
        assert(t[j] == s[j]);
        assert forall|i: int| #![trigger t[i]] 1 <= i < j implies !is_prop(t[i], key) by {
            assert(t[i] == s[i]);
        }
        lemma_first_prop_at(t, key, j);
    } else {
        assert forall|i: int| #![trigger t[i]] 1 <= i < t.len() implies !is_prop(t[i], key) by {
            assert(t[i] == s[i]);
        }
        lemma_no_prop(t, key);
    }
}

proof fn lemma_no_prop(s: Seq<Node>, key: Seq<char>)
    requires
        lacks_prop(s, key),
    ensures
        first_prop(s, 1, key) is None,
    decreases s.len(),
{
    if s.len() > 0 {
        let t = s.drop_last();
        assert forall|i: int| #![trigger t[i]] 1 <= i < t.len() implies !is_prop(t[i], key) by {
            assert(t[i] == s[i]);
        }
        lemma_no_prop(t, key);
        if s.len() - 1 >= 1 {
            assert(!is_prop(s[s.len() - 1], key));
        }
    }
}

/// A property value read by key is the value of the first property item with
/// that key, and there is none without such an item.
proof fn lemma_prop_value_read(s: Seq<Node>, key: Seq<char>, v: Option<Seq<char>>)
    requires
        v == prop_value(s, 1, key),
    ensures
        forall|j: int| #[trigger] is_first_prop(s, key, j) ==> v == nth_atom_string(s[j], 2),
        lacks_prop(s, key) ==> v is None,
{
    assert forall|j: int| #[trigger] is_first_prop(s, key, j) implies v == nth_atom_string(s[j], 2) by {
        lemma_first_prop_at(s, key, j);
    }
    if lacks_prop(s, key) {
        lemma_no_prop(s, key);
    }
}

/// Each placed symbol that `symbol_instances` lists gives the values of its
/// first `Reference`, `Value` and `Footprint` property items, and none for a
/// key that no property item has.
pub proof fn lemma_symbol_instance_properties(d: SchematicDocument, r: Seq<SchematicSymbolInfo>, k: int)
    requires
        each(
            filter_head(root_items(d.spec_cst()), 1, "symbol"@),
            r,
            |n: Node, i: SchematicSymbolInfo| symbol_info_of(n, i),
        ),
        0 <= k < r.len(),
    ensures
        ({
            let s = list_items(filter_head(root_items(d.spec_cst()), 1, "symbol"@)[k]);
            &&& forall|j: int| #[trigger] is_first_prop(s, "Footprint"@, j) ==> ov(r[k].footprint) == nth_atom_string(s[j], 2)
            &&& lacks_prop(s, "Footprint"@) ==> r[k].footprint is None
            &&& forall|j: int| #[trigger] is_first_prop(s, "Reference"@, j) ==> ov(r[k].reference) == nth_atom_string(s[j], 2)
            &&& lacks_prop(s, "Reference"@) ==> r[k].reference is None
            &&& forall|j: int| #[trigger] is_first_prop(s, "Value"@, j) ==> ov(r[k].value) == nth_atom_string(s[j], 2)
            &&& lacks_prop(s, "Value"@) ==> r[k].value is None
        }),
{
    let n = filter_head(root_items(d.spec_cst()), 1, "symbol"@)[k];
    let s = list_items(n);
    let p = |n: Node, i: SchematicSymbolInfo| symbol_info_of(n, i);
    assert(p(n, r[k]));
    lemma_prop_value_read(s, "Footprint"@, ov(r[k].footprint));
    lemma_prop_value_read(s, "Reference"@, ov(r[k].reference));
    lemma_prop_value_read(s, "Value"@, ov(r[k].value));
}

/// A placed symbol is marked not populated exactly when it has a `(dnp ...)`
/// item and the last one does not read `no` (or `false`): a bare `(dnp)`,
/// `(dnp yes)` and `(dnp true)` mark it, `(dnp no)` does not, and a symbol
/// without a `(dnp ...)` item is not marked.
pub proof fn lemma_symbol_dnp(d: SchematicDocument, k: int)
    requires
        d.wf(),
        !d.spec_dirty(),
        0 <= k < d.spec_ast().symbols@.len(),
    ensures
        ({
            let s = list_items(filter_head(root_items(d.spec_cst()), 1, "symbol"@)[k]);
            let dnp = d.spec_ast().symbols@[k].dnp;
            &&& forall|j: int| #[trigger] is_last_head(s, 1, "dnp"@, j) ==> (dnp <==> second_atom_bool(s[j]) != Some(false))
            &&& lacks_head(s, 1, "dnp"@) ==> !dnp
        }),
{
    let n = filter_head(root_items(d.spec_cst()), 1, "symbol"@)[k];
    let s = list_items(n);
    let q = |n: Node, y: SchematicSymbol| schematic_symbol_of(n, y);
    assert(q(n, d.spec_ast().symbols@[k]));
    assert forall|j: int| #[trigger] is_last_head(s, 1, "dnp"@, j) implies (d.spec_ast().symbols@[k].dnp
        <==> second_atom_bool(s[j]) != Some(false)) by {
        lemma_last_with_head_at(s, 1, "dnp"@, j);
    }
    if lacks_head(s, 1, "dnp"@) {
        lemma_lacks_head(s, 1, "dnp"@);
    }
}

/// The property items of `items` that have a key.
pub open spec fn keyed_props(items: Seq<Node>) -> Seq<Node> {
    items.filter(|x: Node| head_of(x) == Some("property"@) && nth_atom_string(x, 1) is Some)
}

/// The `(key, value)` written in each property item of `items` that has a
/// key, in order; a missing value reads as empty.
pub open spec fn written_pairs(items: Seq<Node>) -> Seq<(Seq<char>, Seq<char>)> {
    keyed_props(items).map_values(
        |x: Node|
            (
                nth_atom_string(x, 1)->0,
                match nth_atom_string(x, 2) {
                    Some(v) => v,
                    None => Seq::empty(),
                },
            ),
    )
}

proof fn lemma_pairs_written(items: Seq<Node>)
    requires
        items.len() > 0 ==> items[0] is Atom,
    ensures
        property_pairs_of(items) == written_pairs(items),
    decreases items.len(),
{
    reveal(Seq::filter);
    if items.len() > 0 {
        let t = items.drop_last();
        let x = items.last();
        if t.len() > 0 {
            assert(t[0] == items[0]);
        }
        lemma_pairs_written(t);
        let ok = head_of(x) == Some("property"@) && nth_atom_string(x, 1) is Some;
        if items.len() == 1 {
            assert(x == items[0]);
            assert(!ok);
        }
        assert(keyed_props(items) == if ok { keyed_props(t).push(x) } else { keyed_props(t) });
        let l = filter_head(t, 1, "property"@);
        assert(l.push(x).drop_last() =~= l);
        if ok {
            assert(written_pairs(items) =~= written_pairs(t).push(
                (
                    nth_atom_string(x, 1)->0,
                    match nth_atom_string(x, 2) {
                        Some(v) => v,
                        None => Seq::empty(),
                    },
                ),
            ));
        } else {
            assert(written_pairs(items) =~= written_pairs(t));
        }
    }
}

/// Each placed symbol that `symbol_instances` lists gives: the second atom
/// of its first `(lib_id ...)` item (none without one), and the key and value
/// of each of its property items that has a key, in order.
pub proof fn lemma_symbol_instance_fields(d: SchematicDocument, r: Seq<SchematicSymbolInfo>, k: int)
    requires
        each(
            filter_head(root_items(d.spec_cst()), 1, "symbol"@),
            r,
            |n: Node, i: SchematicSymbolInfo| symbol_info_of(n, i),
        ),
        0 <= k < r.len(),
    ensures
        ({
            let s = list_items(filter_head(root_items(d.spec_cst()), 1, "symbol"@)[k]);
            &&& forall|j: int| #[trigger] is_first_head(s, 1, "lib_id"@, j) ==> ov(r[k].lib_id) == nth_atom_string(s[j], 1)
            &&& lacks_head(s, 1, "lib_id"@) ==> r[k].lib_id is None
            &&& pairs_view(r[k].properties@) == written_pairs(s)
        }),
{
    let f = filter_head(root_items(d.spec_cst()), 1, "symbol"@);
    let n = f[k];
    let s = list_items(n);
    let p = |n: Node, i: SchematicSymbolInfo| symbol_info_of(n, i);
    assert(p(n, r[k]));
    assert forall|j: int| #[trigger] is_first_head(s, 1, "lib_id"@, j) implies ov(r[k].lib_id) == nth_atom_string(s[j], 1) by {
        lemma_first_with_head_at(s, 1, "lib_id"@, j);
    }
    if lacks_head(s, 1, "lib_id"@) {
        lemma_no_first_head(s, 1, "lib_id"@);
    }
    lemma_filter_head_heads(root_items(d.spec_cst()), 1, "symbol"@);
    assert(head_of(n) == Some("symbol"@));
    lemma_pairs_written(s);
}

/// Each placed symbol of the typed view gives: the second atom of its last
/// `(lib_id ...)` item (none without one), the values of its first
/// `Reference` and `Value` property items (none without one), and the key and
/// value of each of its property items that has a key, in order.
pub proof fn lemma_symbol_fields(d: SchematicDocument, k: int)
    requires
        d.wf(),
        !d.spec_dirty(),
        0 <= k < d.spec_ast().symbols@.len(),
    ensures
        ({
            let s = list_items(filter_head(root_items(d.spec_cst()), 1, "symbol"@)[k]);
            let y = d.spec_ast().symbols@[k];
            &&& forall|j: int| #[trigger] is_last_head(s, 1, "lib_id"@, j) ==> ov(y.lib_id) == nth_atom_string(s[j], 1)
            &&& lacks_head(s, 1, "lib_id"@) ==> y.lib_id is None
            &&& forall|j: int| #[trigger] is_first_prop(s, "Reference"@, j) ==> ov(y.reference) == nth_atom_string(s[j], 2)
            &&& lacks_prop(s, "Reference"@) ==> y.reference is None
            &&& forall|j: int| #[trigger] is_first_prop(s, "Value"@, j) ==> ov(y.value) == nth_atom_string(s[j], 2)
            &&& lacks_prop(s, "Value"@) ==> y.value is None
            &&& pairs_view(y.properties@) == written_pairs(s)
        }),
{
    let n = filter_head(root_items(d.spec_cst()), 1, "symbol"@)[k];
    let s = list_items(n);
    let y = d.spec_ast().symbols@[k];
    let q = |n: Node, y: SchematicSymbol| schematic_symbol_of(n, y);
    assert(q(n, y));
    assert forall|j: int| #[trigger] is_last_head(s, 1, "lib_id"@, j) implies ov(y.lib_id) == nth_atom_string(s[j], 1) by {
        lemma_last_with_head_at(s, 1, "lib_id"@, j);
    }
    if lacks_head(s, 1, "lib_id"@) {
        lemma_lacks_head(s, 1, "lib_id"@);
    }
    lemma_prop_value_read(s, "Reference"@, ov(y.reference));
    lemma_prop_value_read(s, "Value"@, ov(y.value));
    lemma_filter_head_heads(root_items(d.spec_cst()), 1, "symbol"@);
    assert(head_of(n) == Some("symbol"@));
    lemma_pairs_written(s);
}

} // verus!
