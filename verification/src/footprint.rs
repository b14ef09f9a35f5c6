//! Footprint documents (`.kicad_mod`): the typed view of a footprint and the
//! edits that keep its text lossless.
use vstd::prelude::*;

use crate::sexpr::{same_node, the_expression, lemma_reads_as_itself, lead_of, node_wf, items_depth, nodes_wf, MAX_DEPTH, all_ws, doc_text, doc_wf, expression_head, is_one_expression, is_symbol_text, parse_one, Atom, CstDocument, Node, ParseError};
use crate::sexpr_utils::{
    is_last_head, lemma_last_with_head_at, lemma_last_head_index,
    any_symbol, any_with_head, atom_as_string, atom_string, collect_with_head, collect_with_heads, count_head,
    count_with_head, decimal_text, deep_last, deep_last_exec, deep_second, deep_second_exec, each, filter_head,
    filter_heads, find_first, find_last, find_last_either, first_with_head, has_head, has_symbol, head_is, head_of,
    head_text, string_to_real,
    last_angle, last_angle_exec, last_bool, last_i32, last_real, last_second_bool, last_second_i32,
    last_second_real, last_second_string, last_string, last_strings, last_strings_exec, last_tail_len,
    last_tail_len_exec, last_with_either, last_with_head, last_xy, last_xy_exec, list_items, nth_atom_string,
    nth_string, ov, parse_xy, parse_xyz, rv, second_atom_real, second_real, string_to_i32, sv, text_i32,
    text_real, xy_of, xyv, xyz_of, xyzv, Real, Xy, Xyz, atom_strings, atom_strings_from, collect_unknown,
    unknown_lists, head_in,
};
use crate::text::{owned, str_eq};
use crate::unknown::{describe_node, unknown_of, UnknownNode};
use crate::diagnostic::{collect_version_diagnostics, is_warning, version_diagnostics, warning, Diagnostic};
use crate::document::{
    items_head,
    lemma_shell_kept, lemma_tree_ok_of_read, shell_ok, tree_ok, lemma_text_reads_back, lemma_tree_text_reads,
    head_among,
    dirty_error, dirty_message, empty_cst, expect_root_head, root_message, lemma_root_replaced_trans, put_root_items, render_cst, rendered,
    root_head, root_is_list, root_items, root_replaced, take_root_items, lemma_root_same_text,
};
use crate::error::Error;
use crate::sexpr_edit::{
    lemma_has_head_at,
    lemma_item_set_wf, lemma_property_upserted_wf, lemma_removed, lemma_scalar_upserted_wf, respaced,
    lemma_int_text_symbol, lemma_scalar_written_already, scalar_written, last_prop_value, lemma_item_set_reads, lemma_property_upserted_reads, lemma_scalar_upserted_noop,
    lemma_scalar_upserted_reads, lemma_without_prop_reads, scalar_already, atom_quoted, atom_symbol, item_set, property_upserted, quoted_atom, remove_property, scalar_upserted, set_item,
    symbol_atom, upsert_property, upsert_scalar, without_prop, lemma_scalar_upserted_unknown, lemma_property_upserted_unknown,
    lemma_unknown_kept_without_prop, lemma_unknown_kept_update,
};
use crate::text::{i32_to_string, int_text, lemma_parse_int_text};
use crate::write_mode::WriteMode;

verus! {

/// The net of a pad: `(net code "name")`.
#[derive(Debug)]
pub struct FpPadNet {
    pub code: Option<i32>,
    pub name: Option<String>,
}

pub open spec fn pad_net_of(n: Node, v: FpPadNet) -> bool {
    &&& v.code == text_i32(nth_atom_string(n, 1))
    &&& ov(v.name) == nth_atom_string(n, 2)
}

fn parse_fp_pad_net(n: &Node) -> (v: FpPadNet)
    ensures
        pad_net_of(*n, v),
{
    FpPadNet { code: string_to_i32(nth_string(n, 1)), name: nth_string(n, 2) }
}

/// The drill of a pad: `(drill [oval] diameter [width] [(offset x y)])`.
#[derive(Debug)]
pub struct FpPadDrill {
    pub shape: Option<String>,
    pub diameter: Option<Real>,
    pub width: Option<Real>,
    pub offset: Option<Xy>,
}

/// The numbers among the atoms of `s` from index `from` on, in order.
pub open spec fn atom_reals(s: Seq<Node>, from: int) -> Seq<Seq<char>>
    decreases s.len(),
{
    if s.len() <= from || s.len() == 0 {
        Seq::empty()
    } else {
        match text_real(atom_string(s.last())) {
            Some(v) => atom_reals(s.drop_last(), from).push(v),
            None => atom_reals(s.drop_last(), from),
        }
    }
}

/// The value of the last atom of `s`, from index `from` on, that is not a
/// number.
pub open spec fn last_word(s: Seq<Node>, from: int) -> Option<Seq<char>>
    decreases s.len(),
{
    if s.len() <= from || s.len() == 0 {
        None
    } else if atom_string(s.last()) is Some && text_real(atom_string(s.last())) is None {
        atom_string(s.last())
    } else {
        last_word(s.drop_last(), from)
    }
}

/// The `k`-th element of a sequence, if it has one.
pub open spec fn nth_of(s: Seq<Seq<char>>, k: int) -> Option<Seq<char>> {
    if 0 <= k < s.len() {
        Some(s[k])
    } else {
        None
    }
}

pub open spec fn drill_of(n: Node, d: FpPadDrill) -> bool {
    let s = list_items(n);
    &&& ov(d.shape) == last_word(s, 1)
    &&& rv(d.diameter) == nth_of(atom_reals(s, 1), 0)
    &&& rv(d.width) == nth_of(atom_reals(s, 1), 1)
    &&& xyv(d.offset) == last_xy(s, 1, "offset"@)
}

fn parse_fp_drill(n: &Node) -> (d: FpPadDrill)
    ensures
        drill_of(*n, d),
{
    let empty: Vec<Node> = Vec::new();
    let items = match n {
        Node::List { items, .. } => items,
        Node::Atom { .. } => &empty,
    };
    assert(items@ == list_items(*n));
    let mut shape: Option<String> = None;
    let mut diameter: Option<Real> = None;
    let mut width: Option<Real> = None;
    let mut i: usize = 0;
    while i < items.len()
        invariant
            i <= items.len(),
            ov(shape) == last_word(items@.subrange(0, i as int), 1),
            rv(diameter) == nth_of(atom_reals(items@.subrange(0, i as int), 1), 0),
            rv(width) == nth_of(atom_reals(items@.subrange(0, i as int), 1), 1),
            atom_reals(items@.subrange(0, i as int), 1).len() <= 1 ==> width is None,
            atom_reals(items@.subrange(0, i as int), 1).len() == 0 ==> diameter is None,
        decreases items.len() - i,
    {
        let ghost sub = items@.subrange(0, i + 1);
        assert(sub.drop_last() =~= items@.subrange(0, i as int));
        assert(sub.last() == items@[i as int]);
        if i >= 1 {
            match atom_as_string(&items[i]) {
                Some(v) => {
                    if decimal_text(v.as_str()) {
                        if diameter.is_none() {
                            diameter = Some(Real { text: v });
                        } else if width.is_none() {
                            width = Some(Real { text: v });
                        }
                    } else {
                        shape = Some(v);
                    }
                },
                None => {},
            }
        }
        i = i + 1;
    }
    assert(items@.subrange(0, items.len() as int) =~= items@);
    FpPadDrill { shape, diameter, width, offset: last_xy_exec(items, 1, "offset") }
}

/// A pad: `(pad "number" type shape (at ...) (size ...) (layers ...) ...)`.
#[derive(Debug)]
pub struct FpPad {
    pub number: Option<String>,
    pub pad_type: Option<String>,
    pub shape: Option<String>,
    pub at: Option<Xy>,
    pub rotation: Option<Real>,
    pub size: Option<Xy>,
    pub layers: Vec<String>,
    pub net: Option<FpPadNet>,
    pub drill: Option<FpPadDrill>,
    pub uuid: Option<String>,
    pub pin_function: Option<String>,
    pub pin_type: Option<String>,
    pub locked: bool,
    pub property: Option<String>,
    pub remove_unused_layers: bool,
    pub keep_end_layers: bool,
    pub roundrect_rratio: Option<Real>,
    pub chamfer_ratio: Option<Real>,
    pub chamfer: Vec<String>,
    pub die_length: Option<Real>,
    pub solder_mask_margin: Option<Real>,
    pub solder_paste_margin: Option<Real>,
    pub solder_paste_margin_ratio: Option<Real>,
    pub clearance: Option<Real>,
    pub zone_connect: Option<i32>,
    pub thermal_width: Option<Real>,
    pub thermal_gap: Option<Real>,
    pub custom_clearance: Option<String>,
    pub custom_anchor: Option<String>,
    pub custom_primitives: usize,
}

/// A pad's reading of the node `n`: three leading atoms, then the last of each
/// kind of child from the fifth item on.
pub open spec fn pad_of(n: Node, p: FpPad) -> bool {
    let s = list_items(n);
    &&& ov(p.number) == nth_atom_string(n, 1)
    &&& ov(p.pad_type) == nth_atom_string(n, 2)
    &&& ov(p.shape) == nth_atom_string(n, 3)
    &&& xyv(p.at) == last_xy(s, 4, "at"@)
    &&& rv(p.rotation) == last_angle(s, 4, "at"@)
    &&& xyv(p.size) == last_xy(s, 4, "size"@)
    &&& sv(p.layers@) == last_strings(s, 4, "layers"@)
    &&& match last_with_head(s, 4, "net"@) {
        Some(m) => p.net matches Some(x) && pad_net_of(m, x),
        None => p.net is None,
    }
    &&& match last_with_head(s, 4, "drill"@) {
        Some(m) => p.drill matches Some(x) && drill_of(m, x),
        None => p.drill is None,
    }
    &&& ov(p.uuid) == last_second_string(s, 4, "uuid"@)
    &&& ov(p.pin_function) == last_second_string(s, 4, "pinfunction"@)
    &&& ov(p.pin_type) == last_second_string(s, 4, "pintype"@)
    &&& p.locked == (has_symbol(s, "locked"@) || has_head(s, 4, "locked"@))
    &&& ov(p.property) == last_second_string(s, 4, "property"@)
    &&& p.remove_unused_layers == (has_head(s, 4, "remove_unused_layer"@) || has_head(s, 4, "remove_unused_layers"@))
    &&& p.keep_end_layers == has_head(s, 4, "keep_end_layers"@)
    &&& rv(p.roundrect_rratio) == last_second_real(s, 4, "roundrect_rratio"@)
    &&& rv(p.chamfer_ratio) == last_second_real(s, 4, "chamfer_ratio"@)
    &&& sv(p.chamfer@) == last_strings(s, 4, "chamfer"@)
    &&& rv(p.die_length) == last_second_real(s, 4, "die_length"@)
    &&& rv(p.solder_mask_margin) == last_second_real(s, 4, "solder_mask_margin"@)
    &&& rv(p.solder_paste_margin) == last_second_real(s, 4, "solder_paste_margin"@)
    &&& rv(p.solder_paste_margin_ratio) == last_second_real(s, 4, "solder_paste_margin_ratio"@)
    &&& rv(p.clearance) == last_second_real(s, 4, "clearance"@)
    &&& p.zone_connect == last_second_i32(s, 4, "zone_connect"@)
    &&& rv(p.thermal_width) == last_second_real(s, 4, "thermal_width"@)
    &&& rv(p.thermal_gap) == last_second_real(s, 4, "thermal_gap"@)
    &&& ov(p.custom_clearance) == deep_second(s, 4, seq!["options", "clearance"])
    &&& ov(p.custom_anchor) == deep_second(s, 4, seq!["options", "anchor"])
    &&& p.custom_primitives == last_tail_len(s, 4, "primitives"@)
}

fn parse_fp_pad(n: &Node) -> (p: FpPad)
    ensures
        pad_of(*n, p),
{
    let empty: Vec<Node> = Vec::new();
    let items = match n {
        Node::List { items, .. } => items,
        Node::Atom { .. } => &empty,
    };
    assert(items@ == list_items(*n));
    let net = match find_last(items, 4, "net") {
        Some(i) => Some(parse_fp_pad_net(&items[i])),
        None => None,
    };
    let drill = match find_last(items, 4, "drill") {
        Some(i) => Some(parse_fp_drill(&items[i])),
        None => None,
    };
    let options_clearance = vec!["options", "clearance"];
    let options_anchor = vec!["options", "anchor"];
    assert(options_clearance@ == seq!["options", "clearance"]);
    assert(options_anchor@ == seq!["options", "anchor"]);
    FpPad {
        number: nth_string(n, 1),
        pad_type: nth_string(n, 2),
        shape: nth_string(n, 3),
        at: last_xy_exec(items, 4, "at"),
        rotation: last_angle_exec(items, 4, "at"),
        size: last_xy_exec(items, 4, "size"),
        layers: last_strings_exec(items, 4, "layers"),
        net,
        drill,
        uuid: last_string(items, 4, "uuid"),
        pin_function: last_string(items, 4, "pinfunction"),
        pin_type: last_string(items, 4, "pintype"),
        locked: any_symbol(items, "locked") || any_with_head(items, 4, "locked"),
        property: last_string(items, 4, "property"),
        remove_unused_layers: any_with_head(items, 4, "remove_unused_layer") || any_with_head(
            items,
            4,
            "remove_unused_layers",
        ),
        keep_end_layers: any_with_head(items, 4, "keep_end_layers"),
        roundrect_rratio: last_real(items, 4, "roundrect_rratio"),
        chamfer_ratio: last_real(items, 4, "chamfer_ratio"),
        chamfer: last_strings_exec(items, 4, "chamfer"),
        die_length: last_real(items, 4, "die_length"),
        solder_mask_margin: last_real(items, 4, "solder_mask_margin"),
        solder_paste_margin: last_real(items, 4, "solder_paste_margin"),
        solder_paste_margin_ratio: last_real(items, 4, "solder_paste_margin_ratio"),
        clearance: last_real(items, 4, "clearance"),
        zone_connect: last_i32(items, 4, "zone_connect"),
        thermal_width: last_real(items, 4, "thermal_width"),
        thermal_gap: last_real(items, 4, "thermal_gap"),
        custom_clearance: deep_second_exec(items, 4, &options_clearance),
        custom_anchor: deep_second_exec(items, 4, &options_anchor),
        custom_primitives: last_tail_len_exec(items, 4, "primitives"),
    }
}

/// A line, shape or text of a footprint (`fp_line`, `fp_text`, ...).
#[derive(Debug)]
pub struct FpGraphic {
    pub token: String,
    pub layer: Option<String>,
    pub text: Option<String>,
    pub start: Option<Xy>,
    pub end: Option<Xy>,
    pub center: Option<Xy>,
    pub uuid: Option<String>,
    pub locked: bool,
    pub width: Option<Real>,
    pub stroke_type: Option<String>,
    pub fill_type: Option<String>,
    pub at: Option<Xy>,
    pub angle: Option<Real>,
    pub font_size: Option<Xy>,
    pub font_thickness: Option<Real>,
}

/// The line width of a graphic: the number of the last `(width w)` child, or
/// of the last `(width w)` inside the last `(stroke ...)` child that has one,
/// whichever comes later.
pub open spec fn graphic_width(s: Seq<Node>, from: int) -> Option<Seq<char>>
    decreases s.len(),
{
    if s.len() <= from || s.len() == 0 {
        None
    } else if head_of(s.last()) == Some("width"@) {
        second_atom_real(s.last())
    } else if head_of(s.last()) == Some("stroke"@) && has_head(list_items(s.last()), 1, "width"@) {
        last_second_real(list_items(s.last()), 1, "width"@)
    } else {
        graphic_width(s.drop_last(), from)
    }
}

fn graphic_width_exec(items: &Vec<Node>, from: usize) -> (r: Option<Real>)
    ensures
        rv(r) == graphic_width(items@, from as int),
{
    let mut i = items.len();
    assert(items@.subrange(0, i as int) =~= items@);
    while i > from
        invariant
            i <= items.len(),
            graphic_width(items@, from as int) == graphic_width(items@.subrange(0, i as int), from as int),
        decreases i,
    {
        let ghost sub = items@.subrange(0, i as int);
        assert(sub.last() == items@[i - 1]);
        if head_is(&items[i - 1], "width") {
            return second_real(&items[i - 1]);
        }
        if head_is(&items[i - 1], "stroke") {
            match &items[i - 1] {
                Node::List { items: inner, .. } => {
                    if any_with_head(inner, 1, "width") {
                        return last_real(inner, 1, "width");
                    }
                },
                Node::Atom { .. } => {},
            }
        }
        assert(sub.drop_last() =~= items@.subrange(0, i - 1));
        i = i - 1;
    }
    None
}

/// The point of the item that `path` leads to.
pub open spec fn deep_xy(s: Seq<Node>, from: int, path: Seq<&str>) -> Option<(Seq<char>, Seq<char>)> {
    match deep_last(s, from, path) {
        Some(m) => xy_of(m),
        None => None,
    }
}

pub open spec fn is_text_token(token: Seq<char>) -> bool {
    token == "fp_text"@ || token == "fp_text_box"@
}

pub open spec fn graphic_of(n: Node, g: FpGraphic) -> bool {
    let s = list_items(n);
    &&& (match head_of(n) {
        Some(h) => g.token@ == h,
        None => g.token@ == Seq::<char>::empty(),
    })
    &&& ov(g.text) == (if is_text_token(g.token@) { nth_atom_string(n, 1) } else { None })
    &&& ov(g.layer) == last_second_string(s, 1, "layer"@)
    &&& xyv(g.start) == last_xy(s, 1, "start"@)
    &&& xyv(g.end) == last_xy(s, 1, "end"@)
    &&& xyv(g.center) == last_xy(s, 1, "center"@)
    &&& ov(g.uuid) == last_second_string(s, 1, "uuid"@)
    &&& g.locked == (has_symbol(s, "locked"@) || has_head(s, 1, "locked"@))
    &&& rv(g.width) == graphic_width(s, 1)
    &&& ov(g.stroke_type) == deep_second(s, 1, seq!["stroke", "type"])
    &&& ov(g.fill_type) == deep_second(s, 1, seq!["fill", "type"])
    &&& xyv(g.at) == last_xy(s, 1, "at"@)
    &&& rv(g.angle) == last_angle(s, 1, "at"@)
    &&& xyv(g.font_size) == deep_xy(s, 1, seq!["effects", "font", "size"])
    &&& rv(g.font_thickness) == text_real(deep_second(s, 1, seq!["effects", "font", "thickness"]))
}

fn parse_fp_graphic(n: &Node) -> (g: FpGraphic)
    ensures
        graphic_of(*n, g),
{
    let token = match head_text(n) {
        Some(t) => t,
        None => String::new(),
    };
    let empty: Vec<Node> = Vec::new();
    let items = match n {
        Node::List { items, .. } => items,
        Node::Atom { .. } => &empty,
    };
    assert(items@ == list_items(*n));
    let text_token = str_eq(token.as_str(), "fp_text") || str_eq(token.as_str(), "fp_text_box");
    let stroke_type = vec!["stroke", "type"];
    let fill_type = vec!["fill", "type"];
    let font_size = vec!["effects", "font", "size"];
    let font_thickness = vec!["effects", "font", "thickness"];
    assert(stroke_type@ == seq!["stroke", "type"]);
    assert(fill_type@ == seq!["fill", "type"]);
    assert(font_size@ == seq!["effects", "font", "size"]);
    assert(font_thickness@ == seq!["effects", "font", "thickness"]);
    let size = match deep_last_exec(items, 1, &font_size) {
        Some(m) => parse_xy(m),
        None => None,
    };
    FpGraphic {
        token,
        layer: last_string(items, 1, "layer"),
        text: if text_token { nth_string(n, 1) } else { None },
        start: last_xy_exec(items, 1, "start"),
        end: last_xy_exec(items, 1, "end"),
        center: last_xy_exec(items, 1, "center"),
        uuid: last_string(items, 1, "uuid"),
        locked: any_symbol(items, "locked") || any_with_head(items, 1, "locked"),
        width: graphic_width_exec(items, 1),
        stroke_type: deep_second_exec(items, 1, &stroke_type),
        fill_type: deep_second_exec(items, 1, &fill_type),
        at: last_xy_exec(items, 1, "at"),
        angle: last_angle_exec(items, 1, "at"),
        font_size: size,
        font_thickness: string_to_real(deep_second_exec(items, 1, &font_thickness)),
    }
}

/// A 3D model of a footprint: `(model "path" (offset (xyz ...)) (scale ...) (rotate ...))`.
#[derive(Debug)]
pub struct FpModel {
    pub path: Option<String>,
    pub at: Option<Xyz>,
    pub scale: Option<Xyz>,
    pub rotate: Option<Xyz>,
    pub hide: bool,
}

/// The point of the first `(xyz x y z)` inside a model's `(at ...)`,
/// `(offset ...)`, `(scale ...)` or `(rotate ...)`.
pub open spec fn model_xyz(o: Option<Node>) -> Option<(Seq<char>, Seq<char>, Seq<char>)> {
    match o {
        Some(c) => match first_with_head(list_items(c), 1, "xyz"@) {
            Some(x) => xyz_of(x),
            None => None,
        },
        None => None,
    }
}

fn model_xyz_exec(o: Option<&Node>) -> (r: Option<Xyz>)
    ensures
        xyzv(r) == model_xyz(match o {
            Some(c) => Some(*c),
            None => None,
        }),
{
    match o {
        Some(c) => match c {
            Node::List { items, .. } => match find_first(items, 1, "xyz") {
                Some(i) => parse_xyz(&items[i]),
                None => None,
            },
            Node::Atom { .. } => None,
        },
        None => None,
    }
}

pub open spec fn model_of(n: Node, m: FpModel) -> bool {
    let s = list_items(n);
    &&& ov(m.path) == nth_atom_string(n, 1)
    &&& xyzv(m.at) == model_xyz(last_with_either(s, 2, "at"@, "offset"@))
    &&& xyzv(m.scale) == model_xyz(last_with_head(s, 2, "scale"@))
    &&& xyzv(m.rotate) == model_xyz(last_with_head(s, 2, "rotate"@))
    &&& m.hide == has_symbol(s, "hide"@)
}

fn parse_fp_model(n: &Node) -> (m: FpModel)
    ensures
        model_of(*n, m),
{
    let empty: Vec<Node> = Vec::new();
    let items = match n {
        Node::List { items, .. } => items,
        Node::Atom { .. } => &empty,
    };
    assert(items@ == list_items(*n));
    let scale = match find_last(items, 2, "scale") {
        Some(i) => model_xyz_exec(Some(&items[i])),
        None => None,
    };
    let rotate = match find_last(items, 2, "rotate") {
        Some(i) => model_xyz_exec(Some(&items[i])),
        None => None,
    };
    FpModel {
        path: nth_string(n, 1),
        at: model_xyz_exec(find_last_either(items, 2, "at", "offset")),
        scale,
        rotate,
        hide: any_symbol(items, "hide"),
    }
}

/// A zone of a footprint.
#[derive(Debug)]
pub struct FpZone {
    pub net: Option<i32>,
    pub net_name: Option<String>,
    pub name: Option<String>,
    pub layer: Option<String>,
    pub layers: Vec<String>,
    pub hatch: Option<String>,
    pub fill_enabled: Option<bool>,
    pub polygon_count: usize,
    pub filled_polygon_count: usize,
    pub has_keepout: bool,
}

pub open spec fn zone_of(n: Node, z: FpZone) -> bool {
    let s = list_items(n);
    &&& z.net == last_second_i32(s, 1, "net"@)
    &&& ov(z.net_name) == last_second_string(s, 1, "net_name"@)
    &&& ov(z.name) == last_second_string(s, 1, "name"@)
    &&& ov(z.layer) == last_second_string(s, 1, "layer"@)
    &&& sv(z.layers@) == last_strings(s, 1, "layers"@)
    &&& ov(z.hatch) == last_second_string(s, 1, "hatch"@)
    &&& z.fill_enabled == last_second_bool(s, 1, "fill"@)
    &&& z.polygon_count == count_head(s, 1, "polygon"@)
    &&& z.filled_polygon_count == count_head(s, 1, "filled_polygon"@)
    &&& z.has_keepout == has_head(s, 1, "keepout"@)
}

fn parse_fp_zone(n: &Node) -> (z: FpZone)
    ensures
        zone_of(*n, z),
{
    let empty: Vec<Node> = Vec::new();
    let items = match n {
        Node::List { items, .. } => items,
        Node::Atom { .. } => &empty,
    };
    assert(items@ == list_items(*n));
    FpZone {
        net: last_i32(items, 1, "net"),
        net_name: last_string(items, 1, "net_name"),
        name: last_string(items, 1, "name"),
        layer: last_string(items, 1, "layer"),
        layers: last_strings_exec(items, 1, "layers"),
        hatch: last_string(items, 1, "hatch"),
        fill_enabled: last_bool(items, 1, "fill"),
        polygon_count: count_with_head(items, 1, "polygon"),
        filled_polygon_count: count_with_head(items, 1, "filled_polygon"),
        has_keepout: any_with_head(items, 1, "keepout"),
    }
}

/// A group of footprint items.
#[derive(Debug, PartialEq, Eq)]
pub struct FpGroup {
    pub name: Option<String>,
    pub group_id: Option<String>,
    pub member_count: usize,
}

pub open spec fn group_of(n: Node, g: FpGroup) -> bool {
    let s = list_items(n);
    &&& ov(g.name) == last_second_string(s, 1, "name"@)
    &&& ov(g.group_id) == last_second_string(s, 1, "id"@)
    &&& g.member_count == last_tail_len(s, 1, "members"@)
}

fn parse_fp_group(n: &Node) -> (g: FpGroup)
    ensures
        group_of(*n, g),
{
    let empty: Vec<Node> = Vec::new();
    let items = match n {
        Node::List { items, .. } => items,
        Node::Atom { .. } => &empty,
    };
    assert(items@ == list_items(*n));
    FpGroup {
        name: last_string(items, 1, "name"),
        group_id: last_string(items, 1, "id"),
        member_count: last_tail_len_exec(items, 1, "members"),
    }
}

/// A `(property "key" "value")` of a footprint that has both.
#[derive(Debug, PartialEq, Eq)]
pub struct FpProperty {
    pub key: String,
    pub value: String,
}

/// The typed view of a footprint.
#[derive(Debug)]
pub struct FootprintAst {
    pub lib_id: Option<String>,
    pub version: Option<i32>,
    pub tedit: Option<String>,
    pub generator: Option<String>,
    pub generator_version: Option<String>,
    pub layer: Option<String>,
    pub descr: Option<String>,
    pub tags: Option<String>,
    pub property_count: usize,
    pub attr_present: bool,
    pub locked_present: bool,
    pub private_layers_present: bool,
    pub net_tie_pad_groups_present: bool,
    pub embedded_fonts_present: bool,
    pub has_embedded_files: bool,
    pub embedded_file_count: usize,
    pub clearance: Option<String>,
    pub solder_mask_margin: Option<String>,
    pub solder_paste_margin: Option<String>,
    pub solder_paste_margin_ratio: Option<String>,
    pub duplicate_pad_numbers_are_jumpers: Option<bool>,
    pub pad_count: usize,
    pub pads: Vec<FpPad>,
    pub model_count: usize,
    pub models: Vec<FpModel>,
    pub zone_count: usize,
    pub zones: Vec<FpZone>,
    pub group_count: usize,
    pub groups: Vec<FpGroup>,
    pub fp_line_count: usize,
    pub fp_rect_count: usize,
    pub fp_circle_count: usize,
    pub fp_arc_count: usize,
    pub fp_poly_count: usize,
    pub fp_curve_count: usize,
    pub fp_text_count: usize,
    pub fp_text_box_count: usize,
    pub dimension_count: usize,
    pub graphic_count: usize,
    pub graphics: Vec<FpGraphic>,
    pub attr: Vec<String>,
    pub locked: bool,
    pub placed: bool,
    pub private_layers: Vec<String>,
    pub net_tie_pad_groups: Vec<Vec<String>>,
    pub reference: Option<String>,
    pub value: Option<String>,
    pub properties: Vec<FpProperty>,
    pub unknown_nodes: Vec<UnknownNode>,
}

/// The heads of the graphic items of a footprint.
pub open spec fn graphic_tokens() -> Seq<&'static str> {
    seq!["fp_line", "fp_rect", "fp_circle", "fp_arc", "fp_poly", "fp_curve", "fp_text", "fp_text_box"]
}

/// The heads that the typed view of a footprint reads.
pub open spec fn footprint_known() -> Seq<&'static str> {
    seq![
        "version", "tedit", "generator", "generator_version", "layer", "descr", "tags", "property", "attr",
        "locked", "placed", "private_layers", "net_tie_pad_groups", "embedded_fonts", "embedded_files",
        "clearance", "solder_mask_margin", "solder_paste_margin", "solder_paste_margin_ratio",
        "duplicate_pad_numbers_are_jumpers", "pad", "model", "zone", "group", "fp_line", "fp_rect", "fp_circle",
        "fp_arc", "fp_poly", "fp_curve", "fp_text", "fp_text_box", "dimension",
    ]
}

/// The `(key, value)` pairs of the property items `ps` that have both.
pub open spec fn property_pairs(ps: Seq<Node>) -> Seq<(Seq<char>, Seq<char>)>
    decreases ps.len(),
{
    if ps.len() == 0 {
        Seq::empty()
    } else {
        match (nth_atom_string(ps.last(), 1), nth_atom_string(ps.last(), 2)) {
            (Some(k), Some(v)) => property_pairs(ps.drop_last()).push((k, v)),
            _ => property_pairs(ps.drop_last()),
        }
    }
}

pub open spec fn fp_property_pairs(v: Seq<FpProperty>) -> Seq<(Seq<char>, Seq<char>)> {
    v.map_values(|p: FpProperty| (p.key@, p.value@))
}

/// The non-empty groups written inside one `(net_tie_pad_groups ...)` item:
/// the atom values of each list among its items.
pub open spec fn pad_groups_in(s: Seq<Node>) -> Seq<Seq<Seq<char>>>
    decreases s.len(),
{
    if s.len() <= 1 {
        Seq::empty()
    } else {
        let g = atom_strings(list_items(s.last()), 0);
        if s.last() is List && g.len() > 0 {
            pad_groups_in(s.drop_last()).push(g)
        } else {
            pad_groups_in(s.drop_last())
        }
    }
}

/// The groups of all `(net_tie_pad_groups ...)` items of `items`, in order.
pub open spec fn pad_groups(items: Seq<Node>) -> Seq<Seq<Seq<char>>>
    decreases items.len(),
{
    if items.len() == 0 {
        Seq::empty()
    } else {
        pad_groups(items.drop_last()) + pad_groups_in(list_items(items.last()))
    }
}

pub open spec fn svv(v: Seq<Vec<String>>) -> Seq<Seq<Seq<char>>> {
    v.map_values(|g: Vec<String>| sv(g@))
}

/// `yes` is true and `no` is false.
pub open spec fn yes_no(o: Option<Seq<char>>) -> Option<bool> {
    match o {
        Some(s) => if s == "yes"@ {
            Some(true)
        } else if s == "no"@ {
            Some(false)
        } else {
            None
        },
        None => None,
    }
}

/// The number of `(file ...)` items in the last `(embedded_files ...)`.
pub open spec fn embedded_files(s: Seq<Node>) -> nat {
    match last_with_head(s, 2, "embedded_files"@) {
        Some(m) => count_head(list_items(m), 1, "file"@),
        None => 0,
    }
}

/// What the typed view of a footprint holds, read from the items of its root
/// list: the second item names it, each later item is read by its head, the
/// last item of a kind wins for single values, and every list with an unknown
/// head is kept.
pub open spec fn footprint_ast_of(s: Seq<Node>, a: FootprintAst) -> bool {
    let props = filter_head(s, 2, "property"@);
    &&& ov(a.lib_id) == (if s.len() > 1 { atom_string(s[1]) } else { None })
    &&& a.version == last_second_i32(s, 2, "version"@)
    &&& ov(a.tedit) == last_second_string(s, 2, "tedit"@)
    &&& ov(a.generator) == last_second_string(s, 2, "generator"@)
    &&& ov(a.generator_version) == last_second_string(s, 2, "generator_version"@)
    &&& ov(a.layer) == last_second_string(s, 2, "layer"@)
    &&& ov(a.descr) == last_second_string(s, 2, "descr"@)
    &&& ov(a.tags) == last_second_string(s, 2, "tags"@)
    &&& a.property_count == props.len()
    &&& a.attr_present == has_head(s, 2, "attr"@)
    &&& a.locked_present == has_head(s, 2, "locked"@)
    &&& a.private_layers_present == has_head(s, 2, "private_layers"@)
    &&& a.net_tie_pad_groups_present == has_head(s, 2, "net_tie_pad_groups"@)
    &&& a.embedded_fonts_present == has_head(s, 2, "embedded_fonts"@)
    &&& a.has_embedded_files == has_head(s, 2, "embedded_files"@)
    &&& a.embedded_file_count == embedded_files(s)
    &&& ov(a.clearance) == last_second_string(s, 2, "clearance"@)
    &&& ov(a.solder_mask_margin) == last_second_string(s, 2, "solder_mask_margin"@)
    &&& ov(a.solder_paste_margin) == last_second_string(s, 2, "solder_paste_margin"@)
    &&& ov(a.solder_paste_margin_ratio) == last_second_string(s, 2, "solder_paste_margin_ratio"@)
    &&& a.duplicate_pad_numbers_are_jumpers == yes_no(last_second_string(s, 2, "duplicate_pad_numbers_are_jumpers"@))
    &&& a.pad_count == count_head(s, 2, "pad"@)
    &&& each(filter_head(s, 2, "pad"@), a.pads@, |n: Node, p: FpPad| pad_of(n, p))
    &&& a.model_count == count_head(s, 2, "model"@)
    &&& each(filter_head(s, 2, "model"@), a.models@, |n: Node, m: FpModel| model_of(n, m))
    &&& a.zone_count == count_head(s, 2, "zone"@)
    &&& each(filter_head(s, 2, "zone"@), a.zones@, |n: Node, z: FpZone| zone_of(n, z))
    &&& a.group_count == count_head(s, 2, "group"@)
    &&& each(filter_head(s, 2, "group"@), a.groups@, |n: Node, g: FpGroup| group_of(n, g))
    &&& a.fp_line_count == count_head(s, 2, "fp_line"@)
    &&& a.fp_rect_count == count_head(s, 2, "fp_rect"@)
    &&& a.fp_circle_count == count_head(s, 2, "fp_circle"@)
    &&& a.fp_arc_count == count_head(s, 2, "fp_arc"@)
    &&& a.fp_poly_count == count_head(s, 2, "fp_poly"@)
    &&& a.fp_curve_count == count_head(s, 2, "fp_curve"@)
    &&& a.fp_text_count == count_head(s, 2, "fp_text"@)
    &&& a.fp_text_box_count == count_head(s, 2, "fp_text_box"@)
    &&& a.dimension_count == count_head(s, 2, "dimension"@)
    &&& a.graphic_count == filter_heads(s, 2, graphic_tokens()).len()
    &&& each(filter_heads(s, 2, graphic_tokens()), a.graphics@, |n: Node, g: FpGraphic| graphic_of(n, g))
    &&& sv(a.attr@) == last_strings(s, 2, "attr"@)
    &&& a.locked == has_head(s, 2, "locked"@)
    &&& a.placed == has_head(s, 2, "placed"@)
    &&& sv(a.private_layers@) == last_strings(s, 2, "private_layers"@)
    &&& svv(a.net_tie_pad_groups@) == pad_groups(filter_head(s, 2, "net_tie_pad_groups"@))
    &&& ov(a.reference) == last_prop_value(s, 2, "Reference"@)
    &&& ov(a.value) == last_prop_value(s, 2, "Value"@)
    &&& fp_property_pairs(a.properties@) == property_pairs(props)
    &&& each(unknown_lists(s, 2, footprint_known()), a.unknown_nodes@, |n: Node, u: UnknownNode| unknown_of(n, u))
}

fn footprint_properties(items: &Vec<Node>) -> (r: (Vec<FpProperty>, Option<String>, Option<String>))
    ensures
        fp_property_pairs(r.0@) == property_pairs(filter_head(items@, 2, "property"@)),
        ov(r.1) == last_prop_value(items@, 2, "Reference"@),
        ov(r.2) == last_prop_value(items@, 2, "Value"@),
{
    let mut props: Vec<FpProperty> = Vec::new();
    let mut reference: Option<String> = None;
    let mut value: Option<String> = None;
    let mut i: usize = 0;
    while i < items.len()
        invariant
            i <= items.len(),
            fp_property_pairs(props@) == property_pairs(filter_head(items@.subrange(0, i as int), 2, "property"@)),
            ov(reference) == last_prop_value(items@.subrange(0, i as int), 2, "Reference"@),
            ov(value) == last_prop_value(items@.subrange(0, i as int), 2, "Value"@),
        decreases items.len() - i,
    {
        let ghost sub = items@.subrange(0, i + 1);
        assert(sub.drop_last() =~= items@.subrange(0, i as int));
        assert(sub.last() == items@[i as int]);
        if i >= 2 && head_is(&items[i], "property") {
            let ghost fl = filter_head(sub, 2, "property"@);
            assert(fl.drop_last() == filter_head(items@.subrange(0, i as int), 2, "property"@));
            assert(fl.last() == items@[i as int]);
            let key = nth_string(&items[i], 1);
            let val = nth_string(&items[i], 2);
            let is_ref = match &key {
                Some(k) => str_eq(k.as_str(), "Reference"),
                None => false,
            };
            let is_val = match &key {
                Some(k) => str_eq(k.as_str(), "Value"),
                None => false,
            };
            if is_ref {
                reference = nth_string(&items[i], 2);
            }
            if is_val {
                value = nth_string(&items[i], 2);
            }
            match (key, val) {
                (Some(k), Some(v)) => {
                    let ghost before = props@;
                    props.push(FpProperty { key: k, value: v });
                    assert(fp_property_pairs(props@) =~= fp_property_pairs(before).push((k@, v@)));
                },
                _ => {},
            }
        }
        i = i + 1;
    }
    assert(items@.subrange(0, items.len() as int) =~= items@);
    (props, reference, value)
}

proof fn lemma_pad_groups_push(s: Seq<Node>, n: Node)
    ensures
        pad_groups(s.push(n)) == pad_groups(s) + pad_groups_in(list_items(n)),
{
    assert(s.push(n).drop_last() =~= s);
}

fn groups_in(inner: &Vec<Node>) -> (r: Vec<Vec<String>>)
    ensures
        svv(r@) == pad_groups_in(inner@),
{
    let mut r: Vec<Vec<String>> = Vec::new();
    let mut j: usize = 1;
    if inner.len() <= 1 {
        return r;
    }
    assert(pad_groups_in(inner@.subrange(0, 1)) == Seq::<Seq<Seq<char>>>::empty());
    while j < inner.len()
        invariant
            1 <= j <= inner.len(),
            svv(r@) == pad_groups_in(inner@.subrange(0, j as int)),
        decreases inner.len() - j,
    {
        let ghost sub = inner@.subrange(0, j + 1);
        assert(sub.drop_last() =~= inner@.subrange(0, j as int));
        assert(sub.last() == inner@[j as int]);
        match &inner[j] {
            Node::List { items: g, .. } => {
                let strings = atom_strings_from(g, 0);
                if strings.len() > 0 {
                    let ghost before = r@;
                    r.push(strings);
                    assert(svv(r@) =~= svv(before).push(sv(r@.last()@)));
                }
            },
            Node::Atom { .. } => {},
        }
        j = j + 1;
    }
    assert(inner@.subrange(0, inner.len() as int) =~= inner@);
    r
}

fn footprint_pad_groups(items: &Vec<Node>) -> (r: Vec<Vec<String>>)
    ensures
        svv(r@) == pad_groups(filter_head(items@, 2, "net_tie_pad_groups"@)),
{
    let mut r: Vec<Vec<String>> = Vec::new();
    let mut i: usize = 0;
    while i < items.len()
        invariant
            i <= items.len(),
            svv(r@) == pad_groups(filter_head(items@.subrange(0, i as int), 2, "net_tie_pad_groups"@)),
        decreases items.len() - i,
    {
        let ghost sub = items@.subrange(0, i + 1);
        assert(sub.drop_last() =~= items@.subrange(0, i as int));
        assert(sub.last() == items@[i as int]);
        if i >= 2 && head_is(&items[i], "net_tie_pad_groups") {
            let ghost prev = filter_head(items@.subrange(0, i as int), 2, "net_tie_pad_groups"@);
            proof {
                lemma_pad_groups_push(prev, items@[i as int]);
            }
            match &items[i] {
                Node::List { items: inner, .. } => {
                    let ghost before = r@;
                    let mut g = groups_in(inner);
                    r.append(&mut g);
                    assert(svv(r@) =~= svv(before) + pad_groups_in(inner@));
                },
                Node::Atom { .. } => {},
            }
        }
        i = i + 1;
    }
    assert(items@.subrange(0, items.len() as int) =~= items@);
    r
}

fn embedded_files_exec(items: &Vec<Node>) -> (r: usize)
    ensures
        r == embedded_files(items@),
{
    match find_last(items, 2, "embedded_files") {
        Some(i) => match &items[i] {
            Node::List { items: inner, .. } => count_with_head(inner, 1, "file"),
            Node::Atom { .. } => 0,
        },
        None => 0,
    }
}

fn yes_no_exec(o: Option<String>) -> (r: Option<bool>)
    ensures
        r == yes_no(ov(o)),
{
    match o {
        Some(s) => if str_eq(s.as_str(), "yes") {
            Some(true)
        } else if str_eq(s.as_str(), "no") {
            Some(false)
        } else {
            None
        },
        None => None,
    }
}

/// Reads the typed view of a footprint from the items of its root list.
#[verifier::rlimit(40)]
pub fn parse_footprint_ast(items: &Vec<Node>) -> (a: FootprintAst)
    ensures
        footprint_ast_of(items@, a),
{
    let tokens = vec!["fp_line", "fp_rect", "fp_circle", "fp_arc", "fp_poly", "fp_curve", "fp_text", "fp_text_box"];
    assert(tokens@ == graphic_tokens());
    let known = vec![
        "version", "tedit", "generator", "generator_version", "layer", "descr", "tags", "property", "attr",
        "locked", "placed", "private_layers", "net_tie_pad_groups", "embedded_fonts", "embedded_files",
        "clearance", "solder_mask_margin", "solder_paste_margin", "solder_paste_margin_ratio",
        "duplicate_pad_numbers_are_jumpers", "pad", "model", "zone", "group", "fp_line", "fp_rect", "fp_circle",
        "fp_arc", "fp_poly", "fp_curve", "fp_text", "fp_text_box", "dimension",
    ];
    assert(known@ == footprint_known());
    let lib_id = if items.len() > 1 { atom_as_string(&items[1]) } else { None };
    let (properties, reference, value) = footprint_properties(items);
    let pads = collect_with_head(items, 2, "pad", parse_fp_pad, Ghost(|n: Node, p: FpPad| pad_of(n, p)));
    let models = collect_with_head(items, 2, "model", parse_fp_model, Ghost(|n: Node, m: FpModel| model_of(n, m)));
    let zones = collect_with_head(items, 2, "zone", parse_fp_zone, Ghost(|n: Node, z: FpZone| zone_of(n, z)));
    let groups = collect_with_head(items, 2, "group", parse_fp_group, Ghost(|n: Node, g: FpGroup| group_of(n, g)));
    let graphics = collect_with_heads(
        items,
        2,
        &tokens,
        parse_fp_graphic,
        Ghost(|n: Node, g: FpGraphic| graphic_of(n, g)),
    );
    let unknown_nodes = collect_unknown(
        items,
        2,
        &known,
        describe_node,
        Ghost(|n: Node, u: UnknownNode| unknown_of(n, u)),
    );
    FootprintAst {
        lib_id,
        version: last_i32(items, 2, "version"),
        tedit: last_string(items, 2, "tedit"),
        generator: last_string(items, 2, "generator"),
        generator_version: last_string(items, 2, "generator_version"),
        layer: last_string(items, 2, "layer"),
        descr: last_string(items, 2, "descr"),
        tags: last_string(items, 2, "tags"),
        property_count: count_with_head(items, 2, "property"),
        attr_present: any_with_head(items, 2, "attr"),
        locked_present: any_with_head(items, 2, "locked"),
        private_layers_present: any_with_head(items, 2, "private_layers"),
        net_tie_pad_groups_present: any_with_head(items, 2, "net_tie_pad_groups"),
        embedded_fonts_present: any_with_head(items, 2, "embedded_fonts"),
        has_embedded_files: any_with_head(items, 2, "embedded_files"),
        embedded_file_count: embedded_files_exec(items),
        clearance: last_string(items, 2, "clearance"),
        solder_mask_margin: last_string(items, 2, "solder_mask_margin"),
        solder_paste_margin: last_string(items, 2, "solder_paste_margin"),
        solder_paste_margin_ratio: last_string(items, 2, "solder_paste_margin_ratio"),
        duplicate_pad_numbers_are_jumpers: yes_no_exec(last_string(items, 2, "duplicate_pad_numbers_are_jumpers")),
        pad_count: count_with_head(items, 2, "pad"),
        pads,
        model_count: count_with_head(items, 2, "model"),
        models,
        zone_count: count_with_head(items, 2, "zone"),
        zones,
        group_count: count_with_head(items, 2, "group"),
        groups,
        fp_line_count: count_with_head(items, 2, "fp_line"),
        fp_rect_count: count_with_head(items, 2, "fp_rect"),
        fp_circle_count: count_with_head(items, 2, "fp_circle"),
        fp_arc_count: count_with_head(items, 2, "fp_arc"),
        fp_poly_count: count_with_head(items, 2, "fp_poly"),
        fp_curve_count: count_with_head(items, 2, "fp_curve"),
        fp_text_count: count_with_head(items, 2, "fp_text"),
        fp_text_box_count: count_with_head(items, 2, "fp_text_box"),
        dimension_count: count_with_head(items, 2, "dimension"),
        graphic_count: graphics.len(),
        graphics,
        attr: last_strings_exec(items, 2, "attr"),
        locked: any_with_head(items, 2, "locked"),
        placed: any_with_head(items, 2, "placed"),
        private_layers: last_strings_exec(items, 2, "private_layers"),
        net_tie_pad_groups: footprint_pad_groups(items),
        reference,
        value,
        properties,
        unknown_nodes,
    }
}

pub open spec fn legacy_root_message() -> Seq<char> {
    "legacy root token `module` detected; parsing in compatibility mode"@
}

pub open spec fn legacy_root_hint() -> Seq<char> {
    "save from newer KiCad to normalize root token to `footprint`"@
}

/// The diagnostics of a footprint: those of its format version, then a
/// `legacy_root` warning when its root token is `module`.
pub open spec fn footprint_diagnostics(root: Option<Seq<char>>, version: Option<i32>, ds: Seq<Diagnostic>) -> bool {
    if root == Some("module"@) {
        &&& ds.len() >= 1
        &&& version_diagnostics(version, ds.drop_last())
        &&& is_warning(ds.last(), "legacy_root"@, legacy_root_message(), legacy_root_hint())
    } else {
        version_diagnostics(version, ds)
    }
}

fn collect_diagnostics(cst: &CstDocument, version: Option<i32>) -> (r: Vec<Diagnostic>)
    ensures
        footprint_diagnostics(root_head(*cst), version, r@),
{
    let mut r = collect_version_diagnostics(version);
    if cst.nodes.len() > 0 && head_is(&cst.nodes[0], "module") {
        let ghost before = r@;
        r.push(
            warning(
                "legacy_root",
                owned("legacy root token `module` detected; parsing in compatibility mode"),
                "save from newer KiCad to normalize root token to `footprint`",
            ),
        );
        assert(r@.drop_last() =~= before);
    }
    r
}

/// The root tokens of a footprint: `footprint`, and the legacy `module`.
pub open spec fn footprint_roots() -> Seq<&'static str> {
    seq!["footprint", "module"]
}

/// An edit from `old` to `new` root items keeps, in order, every list whose
/// head the typed view does not read.
pub open spec fn unknown_kept(old: Seq<Node>, new: Seq<Node>) -> bool {
    unknown_lists(new, 2, footprint_known()) == unknown_lists(old, 2, footprint_known())
}

/// `h` is one of the heads that the typed view reads.
pub open spec fn is_known(h: Seq<char>) -> bool {
    exists|i: int| 0 <= i < footprint_known().len() && footprint_known()[i]@ == h
}

/// A footprint document: its text, kept losslessly, and the typed view read
/// from it.
#[derive(Debug)]
pub struct FootprintDocument {
    ast: FootprintAst,
    cst: CstDocument,
    diagnostics: Vec<Diagnostic>,
    ast_dirty: bool,
}

impl FootprintDocument {
    pub closed spec fn spec_ast(&self) -> FootprintAst {
        self.ast
    }

    pub closed spec fn spec_cst(&self) -> CstDocument {
        self.cst
    }

    pub closed spec fn spec_diagnostics(&self) -> Seq<Diagnostic> {
        self.diagnostics@
    }

    /// Whether the typed view was changed directly (through `ast_mut`).
    pub closed spec fn spec_dirty(&self) -> bool {
        self.ast_dirty
    }

    /// The document's invariant: its root is a single list, its diagnostics
    /// are those of its text, and its typed view is read from its text unless
    /// it was changed directly.
    pub open spec fn wf(&self) -> bool {
        &&& self.spec_cst().nodes.len() == 1
        &&& tree_ok(self.spec_cst())
        &&& head_among(root_head(self.spec_cst()), footprint_roots())
        &&& root_is_list(self.spec_cst())
        &&& footprint_diagnostics(
            root_head(self.spec_cst()),
            last_second_i32(root_items(self.spec_cst()), 2, "version"@),
            self.spec_diagnostics(),
        )
        &&& !self.spec_dirty() ==> footprint_ast_of(root_items(self.spec_cst()), self.spec_ast())
    }

    /// The document after an edit of its root items: the text holds `items`,
    /// and the typed view and diagnostics are read anew.
    pub open spec fn refreshed(old: Self, new: Self, items: Seq<Node>) -> bool {
        &&& root_replaced(old.spec_cst(), new.spec_cst(), items)
        &&& root_items(new.spec_cst()) == items
        &&& !new.spec_dirty()
        &&& new.wf()
    }

    fn from_cst(cst: CstDocument) -> (d: Self)
        requires
            tree_ok(cst),
            cst.nodes.len() == 1,
            root_is_list(cst),
            head_among(root_head(cst), footprint_roots()),
        ensures
            d.spec_cst() == cst,
            !d.spec_dirty(),
            d.wf(),
    {
        let ast = match &cst.nodes[0] {
            Node::List { items, .. } => parse_footprint_ast(items),
            Node::Atom { .. } => {
                let empty: Vec<Node> = Vec::new();
                parse_footprint_ast(&empty)
            },
        };
        let diagnostics = collect_diagnostics(&cst, ast.version);
        FootprintDocument { ast, cst, diagnostics, ast_dirty: false }
    }

    fn take_items(&mut self) -> (items: Vec<Node>)
        requires
            old(self).wf(),
        ensures
            items@ == root_items(old(self).spec_cst()),
            root_replaced(old(self).spec_cst(), final(self).spec_cst(), Seq::empty()),
            final(self).spec_cst().nodes.len() == 1,
            root_is_list(final(self).spec_cst()),
            shell_ok(final(self).spec_cst()),
            nodes_wf(items@),
            items_depth(items@) < MAX_DEPTH,
            head_among(items_head(items@), footprint_roots()),
    {
        let mut cst = empty_cst();
        std::mem::swap(&mut cst, &mut self.cst);
        let (cst, items) = take_root_items(cst);
        proof {
            lemma_shell_kept(old(self).spec_cst(), cst, Seq::empty());
        }
        self.cst = cst;
        items
    }

    fn finish(&mut self, items: Vec<Node>)
        requires
            old(self).spec_cst().nodes.len() == 1,
            root_is_list(old(self).spec_cst()),
            shell_ok(old(self).spec_cst()),
            nodes_wf(items@),
            items_depth(items@) < MAX_DEPTH,
            head_among(items_head(items@), footprint_roots()),
        ensures
            root_replaced(old(self).spec_cst(), final(self).spec_cst(), items@),
            root_items(final(self).spec_cst()) == items@,
            !final(self).spec_dirty(),
            final(self).wf(),
    {
        let mut cst = empty_cst();
        std::mem::swap(&mut cst, &mut self.cst);
 let ghost gi = items@;
        let cst = put_root_items(cst, items);
        proof {
            lemma_shell_kept(old(self).spec_cst(), cst, gi);
        }
        *self = FootprintDocument::from_cst(cst);
    }

    /// The typed view.
    pub fn ast(&self) -> (r: &FootprintAst)
        ensures
            *r == self.spec_ast(),
    {
        &self.ast
    }

    /// The typed view, for changes that cannot be written back: after this
    /// call, writing the document fails.
    pub fn ast_mut(&mut self) -> (r: &mut FootprintAst)
        ensures
            *r == old(self).spec_ast(),
            final(self).spec_ast() == *final(r),
            final(self).spec_cst() == old(self).spec_cst(),
            final(self).spec_diagnostics() == old(self).spec_diagnostics(),
            final(self).spec_dirty(),
            old(self).wf() ==> final(self).wf(),
    {
        self.ast_dirty = true;
        &mut self.ast
    }

    /// The syntax tree.
    pub fn cst(&self) -> (r: &CstDocument)
        ensures
            *r == self.spec_cst(),
    {
        &self.cst
    }

    /// The diagnostics found when the document was read or last edited.
    pub fn diagnostics(&self) -> (r: &Vec<Diagnostic>)
        ensures
            r@ == self.spec_diagnostics(),
    {
        &self.diagnostics
    }

    /// The text of the document in the given mode; refused once the typed
    /// view was changed directly.
    pub fn render(&self, mode: WriteMode) -> (r: Result<String, Error>)
        ensures
            r is Err <==> self.spec_dirty(),
            r matches Ok(s) ==> s@ == rendered(self.spec_cst(), mode),
            r matches Err(e) ==> e matches Error::Validation(m) && m@ == dirty_message(),
    {
        if self.ast_dirty {
            return Err(dirty_error());
        }
        Ok(render_cst(&self.cst, mode))
    }

    fn set_scalar(&mut self, h: &str, v: Node)
        requires
            old(self).wf(),
            v is Atom,
            node_wf(v),
            lead_of(v).len() > 0,
            is_known(h@),
            is_symbol_text(h@),
        ensures
            unknown_kept(root_items(old(self).spec_cst()), root_items(final(self).spec_cst())),
            scalar_upserted(root_items(old(self).spec_cst()), root_items(final(self).spec_cst()), 2, h@, v),
            Self::refreshed(*old(self), *final(self), root_items(final(self).spec_cst())),
            root_items(old(self).spec_cst()).len() >= 2 ==> last_second_string(root_items(final(self).spec_cst()), 2, h@)
                == atom_string(v),
            scalar_already(root_items(old(self).spec_cst()), 2, h@, v) ==> doc_text(final(self).spec_cst()) == doc_text(
                old(self).spec_cst(),
            ),
    {
        let items = self.take_items();
        let ghost old_items = items@;
        let ghost gv = v;
        let items = upsert_scalar(items, 2, h, v);
        proof {
            lemma_scalar_upserted_wf(old_items, items@, 2, h@, gv, (MAX_DEPTH - 1) as nat);
        }
        let ghost mid = self.spec_cst();
        self.finish(items);
        proof {
            lemma_root_replaced_trans(old(self).spec_cst(), mid, self.spec_cst(), Seq::empty(), items@);
            if old_items.len() >= 2 {
                lemma_scalar_upserted_reads(old_items, items@, 2, h@, v);
                lemma_scalar_upserted_unknown(old_items, items@, 2, h@, v, footprint_known());
            }
            if scalar_already(old_items, 2, h@, v) {
                lemma_scalar_upserted_noop(old_items, items@, 2, h@, v);
                lemma_root_same_text(old(self).spec_cst(), self.spec_cst());
            }
        }
    }

    /// Sets the format version: `(version N)`.
    pub fn set_version(&mut self, version: i32) -> (r: &mut Self)
        requires
            old(self).wf(),
        ensures
            *final(self) == *final(r),
            exists|v: Node|
                #[trigger] symbol_atom(v, int_text(version as int)) && scalar_upserted(
                    root_items(old(self).spec_cst()),
                    root_items(r.spec_cst()),
                    2,
                    "version"@,
                    v,
                ),
            Self::refreshed(*old(self), *r, root_items(r.spec_cst())),
            unknown_kept(root_items(old(self).spec_cst()), root_items(r.spec_cst())),
            root_items(old(self).spec_cst()).len() >= 2 ==> r.spec_ast().version == Some(version),
            scalar_written(root_items(old(self).spec_cst()), 2, "version"@, int_text(version as int), false) ==> doc_text(
                r.spec_cst(),
            ) == doc_text(old(self).spec_cst()),
    {
        let v = atom_symbol(i32_to_string(version));
        let ghost gv = v;
        proof {
            lemma_int_text_symbol(version);
            lemma_parse_int_text(version);
            if scalar_written(root_items(old(self).spec_cst()), 2, "version"@, int_text(version as int), false) {
                lemma_scalar_written_already(root_items(old(self).spec_cst()), 2, "version"@, int_text(version as int), gv, false);
            }
        }
        assert(footprint_known()[0]@ == "version"@);
        proof {
            reveal_strlit("version");
        }
        self.set_scalar("version", v);
        assert(symbol_atom(gv, int_text(version as int)));
        self
    }

    /// Sets the generator: `(generator name)`.
    pub fn set_generator(&mut self, generator: String) -> (r: &mut Self)
        requires
            old(self).wf(),
        ensures
            *final(self) == *final(r),
            exists|v: Node|
                #[trigger] symbol_atom(v, generator@) && scalar_upserted(
                    root_items(old(self).spec_cst()),
                    root_items(r.spec_cst()),
                    2,
                    "generator"@,
                    v,
                ),
            Self::refreshed(*old(self), *r, root_items(r.spec_cst())),
            unknown_kept(root_items(old(self).spec_cst()), root_items(r.spec_cst())),
            root_items(old(self).spec_cst()).len() >= 2 ==> ov(r.spec_ast().generator) == Some(generator@),
            scalar_written(root_items(old(self).spec_cst()), 2, "generator"@, generator@, !is_symbol_text(generator@))
                ==> doc_text(r.spec_cst()) == doc_text(old(self).spec_cst()),
    {
        let ghost g = generator@;
        let v = atom_symbol(generator);
        let ghost gv = v;
        proof {
            if scalar_written(root_items(old(self).spec_cst()), 2, "generator"@, g, !is_symbol_text(g)) {
                lemma_scalar_written_already(root_items(old(self).spec_cst()), 2, "generator"@, g, gv, !is_symbol_text(g));
            }
        }
        assert(footprint_known()[2]@ == "generator"@);
        proof {
            reveal_strlit("generator");
        }
        self.set_scalar("generator", v);
        assert(symbol_atom(gv, g));
        self
    }

    fn set_quoted_scalar(&mut self, h: &str, value: String)
        requires
            old(self).wf(),
            is_known(h@),
            is_symbol_text(h@),
        ensures
            unknown_kept(root_items(old(self).spec_cst()), root_items(final(self).spec_cst())),
            exists|v: Node|
                #[trigger] quoted_atom(v, value@) && scalar_upserted(
                    root_items(old(self).spec_cst()),
                    root_items(final(self).spec_cst()),
                    2,
                    h@,
                    v,
                ),
            Self::refreshed(*old(self), *final(self), root_items(final(self).spec_cst())),
            root_items(old(self).spec_cst()).len() >= 2 ==> last_second_string(root_items(final(self).spec_cst()), 2, h@)
                == Some(value@),
            scalar_written(root_items(old(self).spec_cst()), 2, h@, value@, true) ==> doc_text(final(self).spec_cst())
                == doc_text(old(self).spec_cst()),
    {
        let ghost g = value@;
        let v = atom_quoted(value);
        let ghost gv = v;
        proof {
            if scalar_written(root_items(old(self).spec_cst()), 2, h@, g, true) {
                lemma_scalar_written_already(root_items(old(self).spec_cst()), 2, h@, g, gv, true);
            }
        }
        self.set_scalar(h, v);
        assert(quoted_atom(gv, g));
    }

    /// Sets the generator version: `(generator_version "text")`.
    pub fn set_generator_version(&mut self, generator_version: String) -> (r: &mut Self)
        requires
            old(self).wf(),
        ensures
            *final(self) == *final(r),
            exists|v: Node|
                #[trigger] quoted_atom(v, generator_version@) && scalar_upserted(
                    root_items(old(self).spec_cst()),
                    root_items(r.spec_cst()),
                    2,
                    "generator_version"@,
                    v,
                ),
            Self::refreshed(*old(self), *r, root_items(r.spec_cst())),
            unknown_kept(root_items(old(self).spec_cst()), root_items(r.spec_cst())),
            root_items(old(self).spec_cst()).len() >= 2 ==> ov(r.spec_ast().generator_version) == Some(
                generator_version@,
            ),
            scalar_written(root_items(old(self).spec_cst()), 2, "generator_version"@, generator_version@, true)
                ==> doc_text(r.spec_cst()) == doc_text(old(self).spec_cst()),
    {
        assert(footprint_known()[3]@ == "generator_version"@);
        proof {
            reveal_strlit("generator_version");
        }
        self.set_quoted_scalar("generator_version", generator_version);
        self
    }

    /// Sets the layer: `(layer "name")`.
    pub fn set_layer(&mut self, layer: String) -> (r: &mut Self)
        requires
            old(self).wf(),
        ensures
            *final(self) == *final(r),
            exists|v: Node|
                #[trigger] quoted_atom(v, layer@) && scalar_upserted(
                    root_items(old(self).spec_cst()),
                    root_items(r.spec_cst()),
                    2,
                    "layer"@,
                    v,
                ),
            Self::refreshed(*old(self), *r, root_items(r.spec_cst())),
            unknown_kept(root_items(old(self).spec_cst()), root_items(r.spec_cst())),
            root_items(old(self).spec_cst()).len() >= 2 ==> ov(r.spec_ast().layer) == Some(layer@),
            scalar_written(root_items(old(self).spec_cst()), 2, "layer"@, layer@, true) ==> doc_text(r.spec_cst())
                == doc_text(old(self).spec_cst()),
    {
        assert(footprint_known()[4]@ == "layer"@);
        proof {
            reveal_strlit("layer");
        }
        self.set_quoted_scalar("layer", layer);
        self
    }

    /// Sets the description: `(descr "text")`.
    pub fn set_descr(&mut self, descr: String) -> (r: &mut Self)
        requires
            old(self).wf(),
        ensures
            *final(self) == *final(r),
            exists|v: Node|
                #[trigger] quoted_atom(v, descr@) && scalar_upserted(
                    root_items(old(self).spec_cst()),
                    root_items(r.spec_cst()),
                    2,
                    "descr"@,
                    v,
                ),
            Self::refreshed(*old(self), *r, root_items(r.spec_cst())),
            unknown_kept(root_items(old(self).spec_cst()), root_items(r.spec_cst())),
            root_items(old(self).spec_cst()).len() >= 2 ==> ov(r.spec_ast().descr) == Some(descr@),
            scalar_written(root_items(old(self).spec_cst()), 2, "descr"@, descr@, true) ==> doc_text(r.spec_cst())
                == doc_text(old(self).spec_cst()),
    {
        assert(footprint_known()[5]@ == "descr"@);
        proof {
            reveal_strlit("descr");
        }
        self.set_quoted_scalar("descr", descr);
        self
    }

    /// Sets the keywords: `(tags "text")`.
    pub fn set_tags(&mut self, tags: String) -> (r: &mut Self)
        requires
            old(self).wf(),
        ensures
            *final(self) == *final(r),
            exists|v: Node|
                #[trigger] quoted_atom(v, tags@) && scalar_upserted(
                    root_items(old(self).spec_cst()),
                    root_items(r.spec_cst()),
                    2,
                    "tags"@,
                    v,
                ),
            Self::refreshed(*old(self), *r, root_items(r.spec_cst())),
            unknown_kept(root_items(old(self).spec_cst()), root_items(r.spec_cst())),
            root_items(old(self).spec_cst()).len() >= 2 ==> ov(r.spec_ast().tags) == Some(tags@),
            scalar_written(root_items(old(self).spec_cst()), 2, "tags"@, tags@, true) ==> doc_text(r.spec_cst())
                == doc_text(old(self).spec_cst()),
    {
        assert(footprint_known()[6]@ == "tags"@);
        proof {
            reveal_strlit("tags");
        }
        self.set_quoted_scalar("tags", tags);
        self
    }

    /// Sets `(property "key" "value")`, keeping what follows the value of an
    /// existing property (see `property_upserted`).
    pub fn upsert_property(&mut self, key: String, value: String) -> (r: &mut Self)
        requires
            old(self).wf(),
        ensures
            *final(self) == *final(r),
            exists|v: Node|
                #[trigger] quoted_atom(v, value@) && property_upserted(
                    root_items(old(self).spec_cst()),
                    root_items(r.spec_cst()),
                    2,
                    key@,
                    v,
                ),
            Self::refreshed(*old(self), *r, root_items(r.spec_cst())),
            unknown_kept(root_items(old(self).spec_cst()), root_items(r.spec_cst())),
            root_items(old(self).spec_cst()).len() >= 2 ==> {
                &&& last_prop_value(root_items(r.spec_cst()), 2, key@) == Some(value@)
                &&& key@ == "Reference"@ ==> ov(r.spec_ast().reference) == Some(value@)
                &&& key@ == "Value"@ ==> ov(r.spec_ast().value) == Some(value@)
            },
    {
        let ghost g = value@;
        let items = self.take_items();
        let ghost old_items = items@;
        let v = atom_quoted(value);
        let ghost gv = v;
        let items = upsert_property(items, 2, key.as_str(), v);
        proof {
            lemma_property_upserted_wf(old_items, items@, 2, key@, gv, (MAX_DEPTH - 1) as nat);
        }
        let ghost mid = self.spec_cst();
        self.finish(items);
        proof {
            lemma_root_replaced_trans(old(self).spec_cst(), mid, self.spec_cst(), Seq::empty(), items@);
            if old_items.len() >= 2 {
                lemma_property_upserted_reads(old_items, items@, 2, key@, gv);
                assert(footprint_known()[7]@ == "property"@);
                lemma_property_upserted_unknown(old_items, items@, 2, key@, gv, footprint_known());
            }
        }
        assert(quoted_atom(gv, g));
        self
    }

    /// Sets the `Reference` property.
    pub fn set_reference(&mut self, value: String) -> (r: &mut Self)
        requires
            old(self).wf(),
        ensures
            *final(self) == *final(r),
            exists|v: Node|
                #[trigger] quoted_atom(v, value@) && property_upserted(
                    root_items(old(self).spec_cst()),
                    root_items(r.spec_cst()),
                    2,
                    "Reference"@,
                    v,
                ),
            Self::refreshed(*old(self), *r, root_items(r.spec_cst())),
            unknown_kept(root_items(old(self).spec_cst()), root_items(r.spec_cst())),
            root_items(old(self).spec_cst()).len() >= 2 ==> ov(r.spec_ast().reference) == Some(value@),
    {
        self.upsert_property(owned("Reference"), value)
    }

    /// Sets the `Value` property.
    pub fn set_value(&mut self, value: String) -> (r: &mut Self)
        requires
            old(self).wf(),
        ensures
            *final(self) == *final(r),
            exists|v: Node|
                #[trigger] quoted_atom(v, value@) && property_upserted(
                    root_items(old(self).spec_cst()),
                    root_items(r.spec_cst()),
                    2,
                    "Value"@,
                    v,
                ),
            Self::refreshed(*old(self), *r, root_items(r.spec_cst())),
            unknown_kept(root_items(old(self).spec_cst()), root_items(r.spec_cst())),
            root_items(old(self).spec_cst()).len() >= 2 ==> ov(r.spec_ast().value) == Some(value@),
    {
        self.upsert_property(owned("Value"), value)
    }

    /// Removes every `(property "key" ...)`.
    pub fn remove_property(&mut self, key: &str) -> (r: &mut Self)
        requires
            old(self).wf(),
        ensures
            *final(self) == *final(r),
            respaced(without_prop(root_items(old(self).spec_cst()), 2, key@), root_items(r.spec_cst())),
            Self::refreshed(*old(self), *r, root_items(r.spec_cst())),
            unknown_kept(root_items(old(self).spec_cst()), root_items(r.spec_cst())),
            last_prop_value(root_items(r.spec_cst()), 2, key@) is None,
            key@ == "Reference"@ ==> r.spec_ast().reference is None,
            key@ == "Value"@ ==> r.spec_ast().value is None,
    {
        let items = self.take_items();
        let ghost old_items = items@;
        let items = remove_property(items, 2, key);
        proof {
            lemma_removed(old_items, items@, 2, key@, footprint_known());
        }
        let ghost mid = self.spec_cst();
        self.finish(items);
        proof {
            lemma_root_replaced_trans(old(self).spec_cst(), mid, self.spec_cst(), Seq::empty(), items@);
            assert(footprint_known()[7]@ == "property"@);
            lemma_unknown_kept_without_prop(old_items, 2, key@, footprint_known());
        }
        self
    }

    /// Sets the library identifier, the atom after the root token.
    pub fn set_lib_id(&mut self, lib_id: String) -> (r: &mut Self)
        requires
            old(self).wf(),
        ensures
            *final(self) == *final(r),
            exists|v: Node|
                #[trigger] quoted_atom(v, lib_id@) && item_set(root_items(old(self).spec_cst()), root_items(r.spec_cst()), 1, v),
            Self::refreshed(*old(self), *r, root_items(r.spec_cst())),
            unknown_kept(root_items(old(self).spec_cst()), root_items(r.spec_cst())),
            root_items(old(self).spec_cst()).len() >= 1 ==> ov(r.spec_ast().lib_id) == Some(lib_id@),
    {
        let ghost g = lib_id@;
        let items = self.take_items();
        let ghost old_items = items@;
        let v = atom_quoted(lib_id);
        let ghost gv = v;
        let items = set_item(items, 1, v);
        proof {
            lemma_item_set_wf(old_items, items@, 1, gv, (MAX_DEPTH - 1) as nat);
        }
        let ghost mid = self.spec_cst();
        self.finish(items);
        proof {
            lemma_root_replaced_trans(old(self).spec_cst(), mid, self.spec_cst(), Seq::empty(), items@);
            if old_items.len() >= 1 {
                lemma_item_set_reads(old_items, items@, 1, gv);
            }
            if old_items.len() >= 2 {
                lemma_unknown_kept_update(old_items, items@, 2, footprint_known());
            }
        }
        assert(quoted_atom(gv, g));
        self
    }
}

/// Reads footprint documents.
pub struct FootprintFile;

impl FootprintFile {
    /// Reads a footprint from its text: one S-expression whose root token is
    /// `footprint` or `module`.
    pub fn read_str(text: &str) -> (r: Result<FootprintDocument, Error>)
        ensures
            r matches Ok(d) ==> {
                &&& d.wf()
                &&& !d.spec_dirty()
                &&& doc_text(d.spec_cst()) == text@
                &&& doc_wf(d.spec_cst())
                &&& same_node(the_expression(text@).nodes@[0], d.spec_cst().nodes@[0])
                &&& head_in(d.spec_cst().nodes@[0], footprint_roots())
            },
            r matches Err(Error::Parse(e)) ==> (e == ParseError::EmptyInput <==> all_ws(text@)),
            all_ws(text@) ==> r matches Err(Error::Parse(ParseError::EmptyInput)),
            r is Ok <==> is_one_expression(text@) && head_among(expression_head(text@), footprint_roots()),
            r matches Err(Error::Parse(_)) <==> !is_one_expression(text@),
            r matches Err(Error::Validation(m)) ==> m@ == root_message(),
            !(r matches Err(Error::Io(_))),
    {
        let cst = match parse_one(text) {
            Ok(c) => c,
            Err(e) => {
                return Err(Error::Parse(e));
            },
        };
        let roots = vec!["footprint", "module"];
        assert(roots@ == footprint_roots());
        match expect_root_head(&cst, &roots) {
            Ok(()) => {},
            Err(e) => {
                return Err(e);
            },
        }
        proof {
            lemma_tree_ok_of_read(cst);
        }
        Ok(FootprintDocument::from_cst(cst))
    }
}

/// Every setter leaves the syntax tree the source of truth: after it, the
/// typed view and the diagnostics are exactly those read from the edited
/// items, and the document can be written.
pub proof fn lemma_setter_rederives(old: FootprintDocument, new: FootprintDocument, items: Seq<Node>)
    requires
        FootprintDocument::refreshed(old, new, items),
    ensures
        root_items(new.spec_cst()) == items,
        footprint_ast_of(items, new.spec_ast()),
        footprint_diagnostics(root_head(new.spec_cst()), last_second_i32(items, 2, "version"@), new.spec_diagnostics()),
        !new.spec_dirty(),
        new.wf(),
{
}


/// What a footprint writes reads back as itself: the lossless text of a
/// well-formed document is one S-expression whose root head is the
/// document's, so `read_str` accepts it, and a document read from that text
/// holds a copy of the document's tree, with the same text around it.
pub proof fn lemma_written_footprint_reads_back(d: FootprintDocument)
    requires
        d.wf(),
    ensures
        is_one_expression(rendered(d.spec_cst(), WriteMode::Lossless)),
        expression_head(rendered(d.spec_cst(), WriteMode::Lossless)) == head_of(d.spec_cst().nodes@[0]),
        head_among(expression_head(rendered(d.spec_cst(), WriteMode::Lossless)), footprint_roots()),
        forall|e: FootprintDocument|
            e.wf() && doc_text(#[trigger] e.spec_cst()) == rendered(d.spec_cst(), WriteMode::Lossless) ==> same_node(
                d.spec_cst().nodes@[0],
                e.spec_cst().nodes@[0],
            ) && e.spec_cst().trailing@ == d.spec_cst().trailing@,
{
    lemma_tree_text_reads(d.spec_cst());
    lemma_reads_as_itself(d.spec_cst());
    assert forall|e: FootprintDocument|
        e.wf() && doc_text(#[trigger] e.spec_cst()) == rendered(d.spec_cst(), WriteMode::Lossless) implies same_node(
            d.spec_cst().nodes@[0],
            e.spec_cst().nodes@[0],
        ) && e.spec_cst().trailing@ == d.spec_cst().trailing@ by {
        lemma_tree_text_reads(e.spec_cst());
        lemma_text_reads_back(d.spec_cst(), e.spec_cst());
    }
}

proof fn lemma_property_pairs_len(ps: Seq<Node>)
    ensures
        property_pairs(ps).len() <= ps.len(),
    decreases ps.len(),
{
    if ps.len() > 0 {
        lemma_property_pairs_len(ps.drop_last());
    }
}

/// The graphic items are the items of the eight graphic kinds together.
proof fn lemma_graphics_split(s: Seq<Node>, from: int)
    ensures
        filter_heads(s, from, graphic_tokens()).len() == count_head(s, from, "fp_line"@) + count_head(
            s,
            from,
            "fp_rect"@,
        ) + count_head(s, from, "fp_circle"@) + count_head(s, from, "fp_arc"@) + count_head(s, from, "fp_poly"@)
            + count_head(s, from, "fp_curve"@) + count_head(s, from, "fp_text"@) + count_head(s, from, "fp_text_box"@),
    decreases s.len(),
{
    if !(s.len() <= from || s.len() == 0) {
        lemma_graphics_split(s.drop_last(), from);
        reveal_strlit("fp_line");
        reveal_strlit("fp_rect");
        reveal_strlit("fp_circle");
        reveal_strlit("fp_arc");
        reveal_strlit("fp_poly");
        reveal_strlit("fp_curve");
        reveal_strlit("fp_text");
        reveal_strlit("fp_text_box");
        let hs = graphic_tokens();
        assert(hs[0]@ == "fp_line"@);
        assert(hs[1]@ == "fp_rect"@);
        assert(hs[2]@ == "fp_circle"@);
        assert(hs[3]@ == "fp_arc"@);
        assert(hs[4]@ == "fp_poly"@);
        assert(hs[5]@ == "fp_curve"@);
        assert(hs[6]@ == "fp_text"@);
        assert(hs[7]@ == "fp_text_box"@);
        assert("fp_line"@[3] == 'l');
        assert("fp_rect"@[3] == 'r');
        assert("fp_poly"@[3] == 'p');
        assert("fp_text"@[3] == 't');
        assert("fp_text_box"@[3] == 't');
        assert("fp_circle"@[3] == 'c');
        assert("fp_curve"@[3] == 'c');
        assert("fp_circle"@[4] == 'i');
        assert("fp_curve"@[4] == 'u');
        assert("fp_arc"@[3] == 'a');
        let x = s.last();
        let names = seq!["fp_line"@, "fp_rect"@, "fp_circle"@, "fp_arc"@, "fp_poly"@, "fp_curve"@, "fp_text"@, "fp_text_box"@];
        assert forall|i: int, j: int| 0 <= i < 8 && 0 <= j < 8 && i != j implies #[trigger] names[i] != #[trigger] names[j] by {
            if names[i] == names[j] {
                assert(names[i].len() == names[j].len());
                assert(names[i][3] == names[j][3]);
                assert(names[i][4] == names[j][4]);
            }
        }
        assert(head_in(x, hs) <==> exists|i: int| 0 <= i < 8 && head_of(x) == Some(#[trigger] names[i])) by {
            if exists|i: int| 0 <= i < 8 && head_of(x) == Some(#[trigger] names[i]) {
                let i = choose|i: int| 0 <= i < 8 && head_of(x) == Some(#[trigger] names[i]);
                assert(hs[i]@ == names[i]);
            }
        }
        if head_of(x) == Some(names[0]) {
            assert(head_in(x, hs));
        } else if head_of(x) == Some(names[1]) {
            assert(head_in(x, hs));
        } else if head_of(x) == Some(names[2]) {
            assert(head_in(x, hs));
        } else if head_of(x) == Some(names[3]) {
            assert(head_in(x, hs));
        } else if head_of(x) == Some(names[4]) {
            assert(head_in(x, hs));
        } else if head_of(x) == Some(names[5]) {
            assert(head_in(x, hs));
        } else if head_of(x) == Some(names[6]) {
            assert(head_in(x, hs));
        } else if head_of(x) == Some(names[7]) {
            assert(head_in(x, hs));
        } else {
            assert(!head_in(x, hs));
        }
    }
}

/// The counts of a footprint's typed view agree with its lists: each count
/// is the length of the list it counts, the graphics are the items of the
/// eight graphic kinds together, no more properties are listed than
/// counted, and `locked` says what `locked_present` says.
pub proof fn lemma_footprint_counts(d: FootprintDocument)
    requires
        d.wf(),
        !d.spec_dirty(),
    ensures
        d.spec_ast().graphic_count == d.spec_ast().graphics@.len(),
        d.spec_ast().graphic_count == d.spec_ast().fp_line_count + d.spec_ast().fp_rect_count
            + d.spec_ast().fp_circle_count + d.spec_ast().fp_arc_count + d.spec_ast().fp_poly_count
            + d.spec_ast().fp_curve_count + d.spec_ast().fp_text_count + d.spec_ast().fp_text_box_count,
        d.spec_ast().pad_count == d.spec_ast().pads@.len(),
        d.spec_ast().model_count == d.spec_ast().models@.len(),
        d.spec_ast().zone_count == d.spec_ast().zones@.len(),
        d.spec_ast().group_count == d.spec_ast().groups@.len(),
        d.spec_ast().properties@.len() <= d.spec_ast().property_count,
        d.spec_ast().locked == d.spec_ast().locked_present,
{
    let s = root_items(d.spec_cst());
    lemma_graphics_split(s, 2);
    lemma_property_pairs_len(filter_head(s, 2, "property"@));
    assert(fp_property_pairs(d.spec_ast().properties@).len() == d.spec_ast().properties@.len());
}

/// Whether a child of a graphic sets its width: a `(width w)` item, or a
/// `(stroke ...)` item that holds a `(width w)` item.
pub open spec fn sets_width(x: Node) -> bool {
    ||| head_of(x) == Some("width"@)
    ||| head_of(x) == Some("stroke"@) && exists|m: int|
        1 <= m < list_items(x).len() && head_of(#[trigger] list_items(x)[m]) == Some("width"@)
}

/// `j` is the last child of the graphic's items `s` that sets its width.
pub open spec fn is_last_width_setter(s: Seq<Node>, j: int) -> bool {
    &&& 1 <= j < s.len()
    &&& sets_width(s[j])
    &&& forall|i: int| #![trigger s[i]] j < i < s.len() ==> !sets_width(s[i])
}

proof fn lemma_stroke_width_is_set(x: Node)
    requires
        head_of(x) == Some("stroke"@),
    ensures
        has_head(list_items(x), 1, "width"@) == sets_width(x),
{
    let t = list_items(x);
    reveal_strlit("width");
    reveal_strlit("stroke");
    lemma_last_head_index(t, 1, "width"@);
    assert("width"@.len() == 5);
    assert("width"@ != "stroke"@);
    if sets_width(x) {
        assert(head_of(x) != Some("width"@));
        assert(exists|m: int| 1 <= m < list_items(x).len() && head_of(#[trigger] list_items(x)[m]) == Some("width"@));
        let m = choose|m: int| 1 <= m < list_items(x).len() && head_of(#[trigger] list_items(x)[m]) == Some("width"@);
        lemma_has_head_at(t, 1, "width"@, m);
    }
}

proof fn lemma_graphic_width_at(s: Seq<Node>, j: int)
    requires
        is_last_width_setter(s, j),
    ensures
        graphic_width(s, 1) == if head_of(s[j]) == Some("width"@) {
            second_atom_real(s[j])
        } else {
            last_second_real(list_items(s[j]), 1, "width"@)
        },
    decreases s.len(),
{
    let x = s.last();
    if head_of(x) == Some("stroke"@) {
        lemma_stroke_width_is_set(x);
    }
    if j < s.len() - 1 {
        let t = s.drop_last();
        assert(!sets_width(s[s.len() - 1]));
        assert(t[j] == s[j]);
        assert forall|i: int| #![trigger t[i]] j < i < t.len() implies !sets_width(t[i]) by {
            assert(t[i] == s[i]);
        }
        lemma_graphic_width_at(t, j);
    } else {
        assert(x == s[j]);
    }
}

proof fn lemma_graphic_width_none(s: Seq<Node>)
    requires
        forall|i: int| #![trigger s[i]] 1 <= i < s.len() ==> !sets_width(s[i]),
    ensures
        graphic_width(s, 1) is None,
    decreases s.len(),
{
    if s.len() > 1 {
        let x = s.last();
        let t = s.drop_last();
        assert(!sets_width(s[s.len() - 1]));
        if head_of(x) == Some("stroke"@) {
            lemma_stroke_width_is_set(x);
        }
        assert forall|i: int| #![trigger t[i]] 1 <= i < t.len() implies !sets_width(t[i]) by {
            assert(t[i] == s[i]);
        }
        lemma_graphic_width_none(t);
    }
}

/// The width of a graphic is set by its last child that sets one: a
/// `(width w)` child gives `w`, a `(stroke ...)` child gives the `w` of its
/// last `(width w)` item; a graphic with no such child has no width.
pub proof fn lemma_graphic_width_read(d: FootprintDocument, k: int)
    requires
        d.wf(),
        !d.spec_dirty(),
        0 <= k < d.spec_ast().graphics@.len(),
    ensures
        ({
            let s = list_items(filter_heads(root_items(d.spec_cst()), 2, graphic_tokens())[k]);
            let w = rv(d.spec_ast().graphics@[k].width);
            &&& forall|j: int|
                #[trigger] is_last_width_setter(s, j) && head_of(s[j]) == Some("width"@) ==> w == second_atom_real(s[j])
            &&& forall|j: int, m: int|
                #[trigger] is_last_width_setter(s, j) && head_of(s[j]) == Some("stroke"@) && #[trigger] is_last_head(
                    list_items(s[j]),
                    1,
                    "width"@,
                    m,
                ) ==> w == second_atom_real(list_items(s[j])[m])
            &&& (forall|j: int| 1 <= j < s.len() ==> !#[trigger] sets_width(s[j])) ==> w is None
        }),
{
    let n = filter_heads(root_items(d.spec_cst()), 2, graphic_tokens())[k];
    let s = list_items(n);
    let g = d.spec_ast().graphics@[k];
    let q = |n: Node, g: FpGraphic| graphic_of(n, g);
    assert(q(n, g));
    reveal_strlit("width");
    reveal_strlit("stroke");
    assert forall|j: int| #[trigger] is_last_width_setter(s, j) && head_of(s[j]) == Some("width"@) implies rv(g.width)
        == second_atom_real(s[j]) by {
        lemma_graphic_width_at(s, j);
    }
    assert forall|j: int, m: int|
        #[trigger] is_last_width_setter(s, j) && head_of(s[j]) == Some("stroke"@) && #[trigger] is_last_head(
            list_items(s[j]),
            1,
            "width"@,
            m,
        ) implies rv(g.width) == second_atom_real(list_items(s[j])[m]) by {
        assert("width"@.len() == 5);
        assert("width"@ != "stroke"@);
        assert(head_of(s[j]) != Some("width"@));
        lemma_graphic_width_at(s, j);
        lemma_last_with_head_at(list_items(s[j]), 1, "width"@, m);
        assert(last_second_real(list_items(s[j]), 1, "width"@) == second_atom_real(list_items(s[j])[m]));
    }
    if forall|j: int| 1 <= j < s.len() ==> !#[trigger] sets_width(s[j]) {
        lemma_graphic_width_none(s);
    }
}

} // verus!
