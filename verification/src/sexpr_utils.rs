//! Reading values out of syntax-tree nodes.
use vstd::prelude::*;

use crate::sexpr::{atom_value, Atom, Node};
use crate::text::{parse_i32, str_eq, str_to_i32, to_chars};

verus! {

/// A number as it is written in the file: a decimal token such as `1`, `-0.25`,
/// `.5` or `1e-3`, or `inf`, `infinity`, `nan` (see `is_decimal_text`).
#[derive(Debug)]
pub struct Real {
    pub text: String,
}

/// One step of the automaton that recognizes decimal numbers. States:
/// 0 start, 1 after a sign, 2 integer digits, 3 a point with no digit yet,
/// 4 digits after the point, 5 after `e`, 6 after the exponent's sign,
/// 7 exponent digits; -1 rejects.
pub open spec fn number_step(st: int, c: char) -> int {
    let digit = '0' <= c <= '9';
    let sign = c == '+' || c == '-';
    let exp = c == 'e' || c == 'E';
    if st == 0 || st == 1 {
        if digit { 2 } else if c == '.' { 3 } else if st == 0 && sign { 1 } else { -1 }
    } else if st == 2 {
        if digit { 2 } else if c == '.' { 4 } else if exp { 5 } else { -1 }
    } else if st == 3 {
        if digit { 4 } else { -1 }
    } else if st == 4 {
        if digit { 4 } else if exp { 5 } else { -1 }
    } else if st == 5 {
        if digit { 7 } else if sign { 6 } else { -1 }
    } else if st == 6 || st == 7 {
        if digit { 7 } else { -1 }
    } else {
        -1
    }
}

pub open spec fn number_run(s: Seq<char>) -> int
    decreases s.len(),
{
    if s.len() == 0 {
        0
    } else {
        number_step(number_run(s.drop_last()), s.last())
    }
}

/// A decimal number written with digits: an optional sign, digits with at
/// most one decimal point (at least one digit in all), and an optional
/// exponent `e`/`E`, optional sign, digits.
pub open spec fn is_digit_number(s: Seq<char>) -> bool {
    let st = number_run(s);
    st == 2 || st == 4 || st == 7
}

/// The letters of `inf`, `infinity` and `nan`, written in lower case.
pub open spec fn fold_letter(c: char) -> char {
    if c == 'I' {
        'i'
    } else if c == 'N' {
        'n'
    } else if c == 'F' {
        'f'
    } else if c == 'T' {
        't'
    } else if c == 'Y' {
        'y'
    } else if c == 'A' {
        'a'
    } else {
        c
    }
}

/// `s` spells `w` (a word in lower case), in any case.
pub open spec fn spells(s: Seq<char>, w: Seq<char>) -> bool {
    s.len() == w.len() && forall|i: int| 0 <= i < s.len() ==> fold_letter(#[trigger] s[i]) == w[i]
}

/// An optional sign, then `inf`, `infinity` or `nan` in any case.
pub open spec fn is_special_number(s: Seq<char>) -> bool {
    let t = if s.len() > 0 && (s[0] == '+' || s[0] == '-') {
        s.drop_first()
    } else {
        s
    };
    spells(t, seq!['i', 'n', 'f']) || spells(t, seq!['i', 'n', 'f', 'i', 'n', 'i', 't', 'y']) || spells(
        t,
        seq!['n', 'a', 'n'],
    )
}

/// A number as a float reader takes it: written with digits, or one of the
/// special values.
pub open spec fn is_decimal_text(s: Seq<char>) -> bool {
    is_digit_number(s) || is_special_number(s)
}

fn fold_letter_exec(c: char) -> (r: char)
    ensures
        r == fold_letter(c),
{
    if c == 'I' {
        'i'
    } else if c == 'N' {
        'n'
    } else if c == 'F' {
        'f'
    } else if c == 'T' {
        't'
    } else if c == 'Y' {
        'y'
    } else if c == 'A' {
        'a'
    } else {
        c
    }
}

/// Whether `s[start..]` spells `w`, in any case.
fn spells_from(s: &Vec<char>, start: usize, w: &Vec<char>) -> (r: bool)
    requires
        start <= s.len(),
    ensures
        r == spells(s@.subrange(start as int, s.len() as int), w@),
{
    let ghost t = s@.subrange(start as int, s.len() as int);
    if s.len() - start != w.len() {
        return false;
    }
    let mut i: usize = 0;
    while i < w.len()
        invariant
            start <= s.len(),
            t == s@.subrange(start as int, s.len() as int),
            t.len() == w.len(),
            i <= w.len(),
            forall|k: int| 0 <= k < i ==> fold_letter(#[trigger] t[k]) == w@[k],
        decreases w.len() - i,
    {
        if fold_letter_exec(s[start + i]) != w[i] {
            assert(t[i as int] == s@[start + i]);
            return false;
        }
        assert(t[i as int] == s@[start + i]);
        i = i + 1;
    }
    true
}

fn special_number(s: &Vec<char>) -> (r: bool)
    ensures
        r == is_special_number(s@),
{
    let start: usize = if s.len() > 0 && (s[0] == '+' || s[0] == '-') { 1 } else { 0 };
    assert(start == 1 ==> s@.subrange(1, s.len() as int) =~= s@.drop_first());
    assert(start == 0 ==> s@.subrange(0, s.len() as int) =~= s@);
    let inf = vec!['i', 'n', 'f'];
    let infinity = vec!['i', 'n', 'f', 'i', 'n', 'i', 't', 'y'];
    let nan = vec!['n', 'a', 'n'];
    assert(inf@ == seq!['i', 'n', 'f']);
    assert(infinity@ == seq!['i', 'n', 'f', 'i', 'n', 'i', 't', 'y']);
    assert(nan@ == seq!['n', 'a', 'n']);
    spells_from(s, start, &inf) || spells_from(s, start, &infinity) || spells_from(s, start, &nan)
}

fn number_step_exec(st: i8, c: char) -> (r: i8)
    requires
        -1 <= st <= 7,
    ensures
        r == number_step(st as int, c),
        -1 <= r <= 7,
{
    let digit = '0' <= c && c <= '9';
    let sign = c == '+' || c == '-';
    let exp = c == 'e' || c == 'E';
    if st == 0 || st == 1 {
        if digit { 2 } else if c == '.' { 3 } else if st == 0 && sign { 1 } else { -1 }
    } else if st == 2 {
        if digit { 2 } else if c == '.' { 4 } else if exp { 5 } else { -1 }
    } else if st == 3 {
        if digit { 4 } else { -1 }
    } else if st == 4 {
        if digit { 4 } else if exp { 5 } else { -1 }
    } else if st == 5 {
        if digit { 7 } else if sign { 6 } else { -1 }
    } else if st == 6 || st == 7 {
        if digit { 7 } else { -1 }
    } else {
        -1
    }
}

/// Whether a text is a decimal number.
pub fn decimal_text(text: &str) -> (r: bool)
    ensures
        r == is_decimal_text(text@),
{
    let s = to_chars(text);
    let mut st: i8 = 0;
    let mut i: usize = 0;
    while i < s.len()
        invariant
            i <= s.len(),
            -1 <= st <= 7,
            st == number_run(s@.subrange(0, i as int)),
        decreases s.len() - i,
    {
        let ghost sub = s@.subrange(0, i + 1);
        assert(sub.drop_last() =~= s@.subrange(0, i as int));
        st = number_step_exec(st, s[i]);
        i = i + 1;
    }
    assert(s@.subrange(0, s.len() as int) =~= s@);
    st == 2 || st == 4 || st == 7 || special_number(&s)
}

/// The text of an optional string.
pub open spec fn ov(o: Option<String>) -> Option<Seq<char>> {
    match o {
        Some(s) => Some(s@),
        None => None,
    }
}

/// The text of an optional number.
pub open spec fn rv(o: Option<Real>) -> Option<Seq<char>> {
    match o {
        Some(r) => Some(r.text@),
        None => None,
    }
}

/// The texts of a list of strings.
pub open spec fn sv(v: Seq<String>) -> Seq<Seq<char>> {
    v.map_values(|s: String| s@)
}

/// The items of a list node; an atom has none.
pub open spec fn list_items(n: Node) -> Seq<Node> {
    match n {
        Node::List { items, .. } => items@,
        Node::Atom { .. } => Seq::empty(),
    }
}

/// The head symbol of a list: its first item when that is a bare symbol.
pub open spec fn head_of(n: Node) -> Option<Seq<char>> {
    match n {
        Node::List { items, .. } => if items.len() > 0 {
            match items@[0] {
                Node::Atom { atom: Atom::Symbol(s), .. } => Some(s@),
                _ => None,
            }
        } else {
            None
        },
        Node::Atom { .. } => None,
    }
}

/// The value of an atom node (symbol or quoted string).
pub open spec fn atom_string(n: Node) -> Option<Seq<char>> {
    match n {
        Node::Atom { atom, .. } => Some(atom_value(atom)),
        Node::List { .. } => None,
    }
}

/// Whether a node is the bare symbol `text`.
pub open spec fn is_symbol_atom(n: Node, text: Seq<char>) -> bool {
    n matches Node::Atom { atom: Atom::Symbol(s), .. } && s@ == text
}

/// The item at index `i` of a list node, if there is one.
pub open spec fn item_at(n: Node, i: int) -> Option<Node> {
    if 0 <= i < list_items(n).len() {
        Some(list_items(n)[i])
    } else {
        None
    }
}

/// The value of the atom at index `i` of a list node.
pub open spec fn nth_atom_string(n: Node, i: int) -> Option<Seq<char>> {
    match item_at(n, i) {
        Some(c) => atom_string(c),
        None => None,
    }
}

pub open spec fn second_atom_string(n: Node) -> Option<Seq<char>> {
    nth_atom_string(n, 1)
}

pub open spec fn text_i32(o: Option<Seq<char>>) -> Option<i32> {
    match o {
        Some(s) => parse_i32(s),
        None => None,
    }
}

/// A text that names a boolean: `yes`/`true` or `no`/`false`.
pub open spec fn text_bool(o: Option<Seq<char>>) -> Option<bool> {
    match o {
        Some(s) => if s == "yes"@ || s == "true"@ {
            Some(true)
        } else if s == "no"@ || s == "false"@ {
            Some(false)
        } else {
            None
        },
        None => None,
    }
}

/// A text that is a number.
pub open spec fn text_real(o: Option<Seq<char>>) -> Option<Seq<char>> {
    match o {
        Some(s) => if is_decimal_text(s) {
            Some(s)
        } else {
            None
        },
        None => None,
    }
}

pub open spec fn second_atom_i32(n: Node) -> Option<i32> {
    text_i32(second_atom_string(n))
}

pub open spec fn second_atom_bool(n: Node) -> Option<bool> {
    text_bool(second_atom_string(n))
}

pub open spec fn second_atom_real(n: Node) -> Option<Seq<char>> {
    text_real(second_atom_string(n))
}

/// The last item of `s`, at index `from` or later, whose head is `h`.
pub open spec fn last_with_head(s: Seq<Node>, from: int, h: Seq<char>) -> Option<Node>
    decreases s.len(),
{
    if s.len() <= from || s.len() == 0 {
        None
    } else if head_of(s.last()) == Some(h) {
        Some(s.last())
    } else {
        last_with_head(s.drop_last(), from, h)
    }
}

/// The items of `s`, at index `from` or later, whose head is `h`, in order.
pub open spec fn filter_head(s: Seq<Node>, from: int, h: Seq<char>) -> Seq<Node>
    decreases s.len(),
{
    if s.len() <= from || s.len() == 0 {
        Seq::empty()
    } else if head_of(s.last()) == Some(h) {
        filter_head(s.drop_last(), from, h).push(s.last())
    } else {
        filter_head(s.drop_last(), from, h)
    }
}

/// How many items of `s`, at index `from` or later, have head `h`.
pub open spec fn count_head(s: Seq<Node>, from: int, h: Seq<char>) -> nat {
    filter_head(s, from, h).len()
}

/// The values of the atoms of `s` at index `from` or later, in order.
pub open spec fn atom_strings(s: Seq<Node>, from: int) -> Seq<Seq<char>>
    decreases s.len(),
{
    if s.len() <= from || s.len() == 0 {
        Seq::empty()
    } else {
        match atom_string(s.last()) {
            Some(v) => atom_strings(s.drop_last(), from).push(v),
            None => atom_strings(s.drop_last(), from),
        }
    }
}

/// Whether some item of `s` is the bare symbol `text`.
pub open spec fn has_symbol(s: Seq<Node>, text: Seq<char>) -> bool {
    exists|i: int| 0 <= i < s.len() && is_symbol_atom(#[trigger] s[i], text)
}

/// Whether some item of `s`, at index `from` or later, has head `h`.
pub open spec fn has_head(s: Seq<Node>, from: int, h: Seq<char>) -> bool {
    last_with_head(s, from, h) is Some
}

/// `second_atom_string` of the last item with head `h`.
pub open spec fn last_second_string(s: Seq<Node>, from: int, h: Seq<char>) -> Option<Seq<char>> {
    match last_with_head(s, from, h) {
        Some(n) => second_atom_string(n),
        None => None,
    }
}

pub open spec fn last_second_i32(s: Seq<Node>, from: int, h: Seq<char>) -> Option<i32> {
    match last_with_head(s, from, h) {
        Some(n) => second_atom_i32(n),
        None => None,
    }
}

pub open spec fn last_second_bool(s: Seq<Node>, from: int, h: Seq<char>) -> Option<bool> {
    match last_with_head(s, from, h) {
        Some(n) => second_atom_bool(n),
        None => None,
    }
}

pub open spec fn last_second_real(s: Seq<Node>, from: int, h: Seq<char>) -> Option<Seq<char>> {
    match last_with_head(s, from, h) {
        Some(n) => second_atom_real(n),
        None => None,
    }
}

// ---------------------------------------------------------------------------
// Executable readers

pub fn head_is(n: &Node, h: &str) -> (r: bool)
    ensures
        r == (head_of(*n) == Some(h@)),
{
    match n {
        Node::List { items, .. } => {
            if items.len() > 0 {
                match &items[0] {
                    Node::Atom { atom: Atom::Symbol(s), .. } => str_eq(s.as_str(), h),
                    _ => false,
                }
            } else {
                false
            }
        },
        Node::Atom { .. } => false,
    }
}

/// The head symbol of a list, as text.
pub fn head_text(n: &Node) -> (r: Option<String>)
    ensures
        ov(r) == head_of(*n),
{
    match n {
        Node::List { items, .. } => {
            if items.len() > 0 {
                match &items[0] {
                    Node::Atom { atom: Atom::Symbol(s), .. } => Some(s.clone()),
                    _ => None,
                }
            } else {
                None
            }
        },
        Node::Atom { .. } => None,
    }
}

pub fn atom_as_string(n: &Node) -> (r: Option<String>)
    ensures
        ov(r) == atom_string(*n),
{
    match n {
        Node::Atom { atom, .. } => match atom {
            Atom::Symbol(s) => Some(s.clone()),
            Atom::Quoted(s) => Some(s.clone()),
        },
        Node::List { .. } => None,
    }
}

pub fn is_symbol(n: &Node, text: &str) -> (r: bool)
    ensures
        r == is_symbol_atom(*n, text@),
{
    match n {
        Node::Atom { atom: Atom::Symbol(s), .. } => str_eq(s.as_str(), text),
        _ => false,
    }
}

pub fn nth_string(n: &Node, i: usize) -> (r: Option<String>)
    ensures
        ov(r) == nth_atom_string(*n, i as int),
{
    match n {
        Node::List { items, .. } => {
            if i < items.len() {
                atom_as_string(&items[i])
            } else {
                None
            }
        },
        Node::Atom { .. } => None,
    }
}

pub fn second_string(n: &Node) -> (r: Option<String>)
    ensures
        ov(r) == second_atom_string(*n),
{
    nth_string(n, 1)
}

pub fn string_to_i32(o: Option<String>) -> (r: Option<i32>)
    ensures
        r == text_i32(ov(o)),
{
    match o {
        Some(s) => str_to_i32(s.as_str()),
        None => None,
    }
}

pub fn string_to_bool(o: Option<String>) -> (r: Option<bool>)
    ensures
        r == text_bool(ov(o)),
{
    match o {
        Some(s) => {
            if str_eq(s.as_str(), "yes") || str_eq(s.as_str(), "true") {
                Some(true)
            } else if str_eq(s.as_str(), "no") || str_eq(s.as_str(), "false") {
                Some(false)
            } else {
                None
            }
        },
        None => None,
    }
}

pub fn string_to_real(o: Option<String>) -> (r: Option<Real>)
    ensures
        rv(r) == text_real(ov(o)),
{
    match o {
        Some(s) => {
            if decimal_text(s.as_str()) {
                Some(Real { text: s })
            } else {
                None
            }
        },
        None => None,
    }
}

pub fn second_i32(n: &Node) -> (r: Option<i32>)
    ensures
        r == second_atom_i32(*n),
{
    string_to_i32(second_string(n))
}

pub fn second_bool(n: &Node) -> (r: Option<bool>)
    ensures
        r == second_atom_bool(*n),
{
    string_to_bool(second_string(n))
}

pub fn second_real(n: &Node) -> (r: Option<Real>)
    ensures
        rv(r) == second_atom_real(*n),
{
    string_to_real(second_string(n))
}

/// The index of the last item of `s`, at index `from` or later, whose head
/// is `h`.
pub open spec fn last_head_index(s: Seq<Node>, from: int, h: Seq<char>) -> Option<int>
    decreases s.len(),
{
    if s.len() <= from || s.len() == 0 {
        None
    } else if head_of(s.last()) == Some(h) {
        Some(s.len() - 1)
    } else {
        last_head_index(s.drop_last(), from, h)
    }
}

/// The last item with head `h` is the one at `last_head_index`.
pub proof fn lemma_last_head_index(s: Seq<Node>, from: int, h: Seq<char>)
    ensures
        match last_head_index(s, from, h) {
            Some(i) => from <= i < s.len() && 0 <= i && last_with_head(s, from, h) == Some(s[i])
                && head_of(s[i]) == Some(h),
            None => last_with_head(s, from, h) is None,
        },
        forall|j: int| #![trigger s[j]]
            last_head_index(s, from, h) matches Some(i) && i < j < s.len() ==> head_of(s[j]) != Some(h),
    decreases s.len(),
{
    if s.len() > from && s.len() > 0 && head_of(s.last()) != Some(h) {
        lemma_last_head_index(s.drop_last(), from, h);
        assert forall|j: int| #![trigger s[j]]
            last_head_index(s, from, h) matches Some(i) && i < j < s.len() implies head_of(s[j]) != Some(h) by {
            if j < s.len() - 1 {
                assert(s[j] == s.drop_last()[j]);
            }
        }
        if let Some(i) = last_head_index(s, from, h) {
            assert(s[i] == s.drop_last()[i]);
        }
    }
}

/// The index of the last item at `from` or later with head `h`.
pub fn find_last(items: &Vec<Node>, from: usize, h: &str) -> (r: Option<usize>)
    ensures
        match r {
            Some(i) => from <= i < items.len() && last_with_head(items@, from as int, h@) == Some(items@[i as int])
                && last_head_index(items@, from as int, h@) == Some(i as int),
            None => last_with_head(items@, from as int, h@) is None && last_head_index(items@, from as int, h@) is None,
        },
{
    let mut i = items.len();
    assert(items@.subrange(0, i as int) =~= items@);
    while i > from
        invariant
            i <= items.len(),
            last_with_head(items@, from as int, h@) == last_with_head(items@.subrange(0, i as int), from as int, h@),
            last_head_index(items@, from as int, h@) == last_head_index(items@.subrange(0, i as int), from as int, h@),
        decreases i,
    {
        let ghost sub = items@.subrange(0, i as int);
        assert(sub.last() == items@[i - 1]);
        if head_is(&items[i - 1], h) {
            return Some(i - 1);
        }
        assert(sub.drop_last() =~= items@.subrange(0, i - 1));
        i = i - 1;
    }
    None
}

/// The items of `items` at the positions `idx`.
pub open spec fn pick(items: Seq<Node>, idx: Seq<usize>) -> Seq<Node> {
    idx.map_values(|j: usize| items[j as int])
}

/// The indices of the items at `from` or later whose head is `h`, in order.
pub fn indices_with_head(items: &Vec<Node>, from: usize, h: &str) -> (r: Vec<usize>)
    ensures
        pick(items@, r@) == filter_head(items@, from as int, h@),
        forall|k: int| 0 <= k < r@.len() ==> #[trigger] r@[k] < items.len(),
{
    let mut r: Vec<usize> = Vec::new();
    let mut i: usize = 0;
    while i < items.len()
        invariant
            i <= items.len(),
            pick(items@, r@) == filter_head(items@.subrange(0, i as int), from as int, h@),
            forall|k: int| 0 <= k < r@.len() ==> #[trigger] r@[k] < i,
        decreases items.len() - i,
    {
        let ghost sub = items@.subrange(0, i + 1);
        assert(sub.drop_last() =~= items@.subrange(0, i as int));
        assert(sub.last() == items@[i as int]);
        let ghost r0 = r@;
        if i >= from && head_is(&items[i], h) {
            r.push(i);
            assert(pick(items@, r@) =~= pick(items@, r0).push(items@[i as int]));
        }
        i = i + 1;
    }
    assert(items@.subrange(0, items.len() as int) =~= items@);
    r
}

/// How many items at `from` or later have head `h`.
pub fn count_with_head(items: &Vec<Node>, from: usize, h: &str) -> (r: usize)
    ensures
        r == count_head(items@, from as int, h@),
{
    indices_with_head(items, from, h).len()
}

/// Whether some item at `from` or later has head `h`.
pub fn any_with_head(items: &Vec<Node>, from: usize, h: &str) -> (r: bool)
    ensures
        r == has_head(items@, from as int, h@),
{
    find_last(items, from, h).is_some()
}

/// The values of the atoms at `from` or later, in order.
pub fn atom_strings_from(items: &Vec<Node>, from: usize) -> (r: Vec<String>)
    ensures
        sv(r@) == atom_strings(items@, from as int),
{
    let mut r: Vec<String> = Vec::new();
    let mut i: usize = 0;
    while i < items.len()
        invariant
            i <= items.len(),
            sv(r@) == atom_strings(items@.subrange(0, i as int), from as int),
        decreases items.len() - i,
    {
        let ghost sub = items@.subrange(0, i + 1);
        assert(sub.drop_last() =~= items@.subrange(0, i as int));
        assert(sub.last() == items@[i as int]);
        let ghost before = r@;
        if i >= from {
            match atom_as_string(&items[i]) {
                Some(v) => {
                    r.push(v);
                    assert(sv(r@) =~= sv(before).push(r@.last()@));
                },
                None => {},
            }
        }
        i = i + 1;
    }
    assert(items@.subrange(0, items.len() as int) =~= items@);
    r
}

/// Whether some item is the bare symbol `text`.
pub fn any_symbol(items: &Vec<Node>, text: &str) -> (r: bool)
    ensures
        r == has_symbol(items@, text@),
{
    let mut i: usize = 0;
    while i < items.len()
        invariant
            i <= items.len(),
            forall|k: int| 0 <= k < i ==> !is_symbol_atom(#[trigger] items@[k], text@),
        decreases items.len() - i,
    {
        if is_symbol(&items[i], text) {
            return true;
        }
        i = i + 1;
    }
    false
}

pub fn last_string(items: &Vec<Node>, from: usize, h: &str) -> (r: Option<String>)
    ensures
        ov(r) == last_second_string(items@, from as int, h@),
{
    match find_last(items, from, h) {
        Some(i) => second_string(&items[i]),
        None => None,
    }
}

pub fn last_i32(items: &Vec<Node>, from: usize, h: &str) -> (r: Option<i32>)
    ensures
        r == last_second_i32(items@, from as int, h@),
{
    match find_last(items, from, h) {
        Some(i) => second_i32(&items[i]),
        None => None,
    }
}

pub fn last_bool(items: &Vec<Node>, from: usize, h: &str) -> (r: Option<bool>)
    ensures
        r == last_second_bool(items@, from as int, h@),
{
    match find_last(items, from, h) {
        Some(i) => second_bool(&items[i]),
        None => None,
    }
}

pub fn last_real(items: &Vec<Node>, from: usize, h: &str) -> (r: Option<Real>)
    ensures
        rv(r) == last_second_real(items@, from as int, h@),
{
    match find_last(items, from, h) {
        Some(i) => second_real(&items[i]),
        None => None,
    }
}


// ---------------------------------------------------------------------------
// Coordinates and further readers

/// A point written as two numbers.
#[derive(Debug)]
pub struct Xy {
    pub x: Real,
    pub y: Real,
}

/// A point in space written as three numbers.
#[derive(Debug)]
pub struct Xyz {
    pub x: Real,
    pub y: Real,
    pub z: Real,
}

pub open spec fn xyv(o: Option<Xy>) -> Option<(Seq<char>, Seq<char>)> {
    match o {
        Some(p) => Some((p.x.text@, p.y.text@)),
        None => None,
    }
}

pub open spec fn xyzv(o: Option<Xyz>) -> Option<(Seq<char>, Seq<char>, Seq<char>)> {
    match o {
        Some(p) => Some((p.x.text@, p.y.text@, p.z.text@)),
        None => None,
    }
}

/// The points of a list of points.
pub open spec fn xys(v: Seq<Xy>) -> Seq<(Seq<char>, Seq<char>)> {
    v.map_values(|p: Xy| (p.x.text@, p.y.text@))
}

/// The number at index `i` of a list node.
pub open spec fn nth_real(n: Node, i: int) -> Option<Seq<char>> {
    text_real(nth_atom_string(n, i))
}

/// The point `(head x y ...)`: both numbers must be present.
pub open spec fn xy_of(n: Node) -> Option<(Seq<char>, Seq<char>)> {
    match (nth_real(n, 1), nth_real(n, 2)) {
        (Some(x), Some(y)) => Some((x, y)),
        _ => None,
    }
}

/// The point `(head x y z ...)`: all three numbers must be present.
pub open spec fn xyz_of(n: Node) -> Option<(Seq<char>, Seq<char>, Seq<char>)> {
    match (nth_real(n, 1), nth_real(n, 2), nth_real(n, 3)) {
        (Some(x), Some(y), Some(z)) => Some((x, y, z)),
        _ => None,
    }
}

/// `xy_of` of the last item with head `h`.
pub open spec fn last_xy(s: Seq<Node>, from: int, h: Seq<char>) -> Option<(Seq<char>, Seq<char>)> {
    match last_with_head(s, from, h) {
        Some(n) => xy_of(n),
        None => None,
    }
}

/// The third number (an angle) of the last item with head `h`.
pub open spec fn last_angle(s: Seq<Node>, from: int, h: Seq<char>) -> Option<Seq<char>> {
    match last_with_head(s, from, h) {
        Some(n) => nth_real(n, 3),
        None => None,
    }
}

/// The values of the atoms after the head of the last item with head `h`
/// (none when there is no such item).
pub open spec fn last_strings(s: Seq<Node>, from: int, h: Seq<char>) -> Seq<Seq<char>> {
    match last_with_head(s, from, h) {
        Some(n) => atom_strings(list_items(n), 1),
        None => Seq::empty(),
    }
}

/// The number of items after the head of the last item with head `h`.
pub open spec fn last_tail_len(s: Seq<Node>, from: int, h: Seq<char>) -> nat {
    match last_with_head(s, from, h) {
        Some(n) => if list_items(n).len() > 0 {
            (list_items(n).len() - 1) as nat
        } else {
            0
        },
        None => 0,
    }
}

/// The first item of `s`, at index `from` or later, whose head is `h`.
pub open spec fn first_with_head(s: Seq<Node>, from: int, h: Seq<char>) -> Option<Node>
    decreases s.len(),
{
    if s.len() == 0 {
        None
    } else {
        match first_with_head(s.drop_last(), from, h) {
            Some(n) => Some(n),
            None => if s.len() - 1 >= from && head_of(s.last()) == Some(h) {
                Some(s.last())
            } else {
                None
            },
        }
    }
}

pub fn nth_real_exec(n: &Node, i: usize) -> (r: Option<Real>)
    ensures
        rv(r) == nth_real(*n, i as int),
{
    string_to_real(nth_string(n, i))
}

pub fn parse_xy(n: &Node) -> (r: Option<Xy>)
    ensures
        xyv(r) == xy_of(*n),
{
    match (nth_real_exec(n, 1), nth_real_exec(n, 2)) {
        (Some(x), Some(y)) => Some(Xy { x, y }),
        _ => None,
    }
}

pub fn parse_xyz(n: &Node) -> (r: Option<Xyz>)
    ensures
        xyzv(r) == xyz_of(*n),
{
    match (nth_real_exec(n, 1), nth_real_exec(n, 2), nth_real_exec(n, 3)) {
        (Some(x), Some(y), Some(z)) => Some(Xyz { x, y, z }),
        _ => None,
    }
}

pub fn last_xy_exec(items: &Vec<Node>, from: usize, h: &str) -> (r: Option<Xy>)
    ensures
        xyv(r) == last_xy(items@, from as int, h@),
{
    match find_last(items, from, h) {
        Some(i) => parse_xy(&items[i]),
        None => None,
    }
}

pub fn last_angle_exec(items: &Vec<Node>, from: usize, h: &str) -> (r: Option<Real>)
    ensures
        rv(r) == last_angle(items@, from as int, h@),
{
    match find_last(items, from, h) {
        Some(i) => nth_real_exec(&items[i], 3),
        None => None,
    }
}

pub fn last_strings_exec(items: &Vec<Node>, from: usize, h: &str) -> (r: Vec<String>)
    ensures
        sv(r@) == last_strings(items@, from as int, h@),
{
    match find_last(items, from, h) {
        Some(i) => match &items[i] {
            Node::List { items: inner, .. } => atom_strings_from(inner, 1),
            Node::Atom { .. } => Vec::new(),
        },
        None => Vec::new(),
    }
}

pub fn last_tail_len_exec(items: &Vec<Node>, from: usize, h: &str) -> (r: usize)
    ensures
        r == last_tail_len(items@, from as int, h@),
{
    match find_last(items, from, h) {
        Some(i) => match &items[i] {
            Node::List { items: inner, .. } => if inner.len() > 0 {
                inner.len() - 1
            } else {
                0
            },
            Node::Atom { .. } => 0,
        },
        None => 0,
    }
}

proof fn lemma_first_with_head_extend(s: Seq<Node>, j: int, from: int, h: Seq<char>)
    requires
        0 <= j <= s.len(),
        first_with_head(s.subrange(0, j), from, h) is Some,
    ensures
        first_with_head(s, from, h) == first_with_head(s.subrange(0, j), from, h),
    decreases s.len() - j,
{
    if j == s.len() {
        assert(s.subrange(0, j) =~= s);
    } else {
        assert(s.subrange(0, j + 1).drop_last() =~= s.subrange(0, j));
        lemma_first_with_head_extend(s, j + 1, from, h);
    }
}

/// The index of the first item at `from` or later with head `h`.
pub fn find_first(items: &Vec<Node>, from: usize, h: &str) -> (r: Option<usize>)
    ensures
        match r {
            Some(i) => i < items.len() && first_with_head(items@, from as int, h@) == Some(items@[i as int]),
            None => first_with_head(items@, from as int, h@) is None,
        },
{
    let mut i: usize = 0;
    while i < items.len()
        invariant
            i <= items.len(),
            first_with_head(items@.subrange(0, i as int), from as int, h@) is None,
        decreases items.len() - i,
    {
        let ghost sub = items@.subrange(0, i + 1);
        assert(sub.drop_last() =~= items@.subrange(0, i as int));
        if i >= from && head_is(&items[i], h) {
            proof {
                lemma_first_with_head_extend(items@, i + 1, from as int, h@);
            }
            return Some(i);
        }
        i = i + 1;
    }
    assert(items@.subrange(0, items.len() as int) =~= items@);
    None
}

/// `vals` holds, in order, what `p` relates to each of `nodes`.
pub open spec fn each<T>(nodes: Seq<Node>, vals: Seq<T>, p: spec_fn(Node, T) -> bool) -> bool {
    &&& nodes.len() == vals.len()
    &&& forall|i: int| 0 <= i < nodes.len() ==> #[trigger] p(nodes[i], vals[i])
}

/// Reads each item at `from` or later whose head is `h`, in order.
pub fn collect_with_head<T, F: Fn(&Node) -> T>(
    items: &Vec<Node>,
    from: usize,
    h: &str,
    f: F,
    Ghost(p): Ghost<spec_fn(Node, T) -> bool>,
) -> (r: Vec<T>)
    requires
        forall|n: &Node| #[trigger] f.requires((n,)),
        forall|n: &Node, t: T| #[trigger] f.ensures((n,), t) ==> p(*n, t),
    ensures
        each(filter_head(items@, from as int, h@), r@, p),
{
    let mut r: Vec<T> = Vec::new();
    let mut i: usize = 0;
    while i < items.len()
        invariant
            i <= items.len(),
            forall|n: &Node| #[trigger] f.requires((n,)),
            forall|n: &Node, t: T| #[trigger] f.ensures((n,), t) ==> p(*n, t),
            each(filter_head(items@.subrange(0, i as int), from as int, h@), r@, p),
        decreases items.len() - i,
    {
        let ghost sub = items@.subrange(0, i + 1);
        assert(sub.drop_last() =~= items@.subrange(0, i as int));
        assert(sub.last() == items@[i as int]);
        if i >= from && head_is(&items[i], h) {
            let ghost before = r@;
            let t = f(&items[i]);
            r.push(t);
            let ghost fl = filter_head(sub, from as int, h@);
            assert(fl == filter_head(items@.subrange(0, i as int), from as int, h@).push(items@[i as int]));
            assert forall|k: int| 0 <= k < fl.len() implies #[trigger] p(fl[k], r@[k]) by {
                if k < fl.len() - 1 {
                    assert(r@[k] == before[k]);
                }
            }
        }
        i = i + 1;
    }
    assert(items@.subrange(0, items.len() as int) =~= items@);
    r
}

/// Whether the head of `n` is one of `hs`.
pub open spec fn head_in(n: Node, hs: Seq<&str>) -> bool {
    exists|i: int| 0 <= i < hs.len() && head_of(n) == Some(#[trigger] hs[i]@)
}

pub fn head_in_exec(n: &Node, hs: &Vec<&str>) -> (r: bool)
    ensures
        r == head_in(*n, hs@),
{
    let mut i: usize = 0;
    while i < hs.len()
        invariant
            i <= hs.len(),
            forall|k: int| 0 <= k < i ==> head_of(*n) != Some(#[trigger] hs@[k]@),
        decreases hs.len() - i,
    {
        if head_is(n, hs[i]) {
            return true;
        }
        i = i + 1;
    }
    false
}

/// The items of `s`, at index `from` or later, whose head is one of `hs`.
pub open spec fn filter_heads(s: Seq<Node>, from: int, hs: Seq<&str>) -> Seq<Node>
    decreases s.len(),
{
    if s.len() <= from || s.len() == 0 {
        Seq::empty()
    } else if head_in(s.last(), hs) {
        filter_heads(s.drop_last(), from, hs).push(s.last())
    } else {
        filter_heads(s.drop_last(), from, hs)
    }
}

/// The list items of `s`, at index `from` or later, whose head is none of
/// `hs` (a list without a head symbol among them).
pub open spec fn unknown_lists(s: Seq<Node>, from: int, hs: Seq<&str>) -> Seq<Node>
    decreases s.len(),
{
    if s.len() <= from || s.len() == 0 {
        Seq::empty()
    } else if s.last() is List && !head_in(s.last(), hs) {
        unknown_lists(s.drop_last(), from, hs).push(s.last())
    } else {
        unknown_lists(s.drop_last(), from, hs)
    }
}

/// Reads each item at `from` or later whose head is one of `hs`, in order.
pub fn collect_with_heads<T, F: Fn(&Node) -> T>(
    items: &Vec<Node>,
    from: usize,
    hs: &Vec<&str>,
    f: F,
    Ghost(p): Ghost<spec_fn(Node, T) -> bool>,
) -> (r: Vec<T>)
    requires
        forall|n: &Node| #[trigger] f.requires((n,)),
        forall|n: &Node, t: T| #[trigger] f.ensures((n,), t) ==> p(*n, t),
    ensures
        each(filter_heads(items@, from as int, hs@), r@, p),
{
    let mut r: Vec<T> = Vec::new();
    let mut i: usize = 0;
    while i < items.len()
        invariant
            i <= items.len(),
            forall|n: &Node| #[trigger] f.requires((n,)),
            forall|n: &Node, t: T| #[trigger] f.ensures((n,), t) ==> p(*n, t),
            each(filter_heads(items@.subrange(0, i as int), from as int, hs@), r@, p),
        decreases items.len() - i,
    {
        let ghost sub = items@.subrange(0, i + 1);
        assert(sub.drop_last() =~= items@.subrange(0, i as int));
        assert(sub.last() == items@[i as int]);
        if i >= from && head_in_exec(&items[i], hs) {
            let ghost before = r@;
            let t = f(&items[i]);
            r.push(t);
            let ghost fl = filter_heads(sub, from as int, hs@);
            assert forall|k: int| 0 <= k < fl.len() implies #[trigger] p(fl[k], r@[k]) by {
                if k < fl.len() - 1 {
                    assert(r@[k] == before[k]);
                }
            }
        }
        i = i + 1;
    }
    assert(items@.subrange(0, items.len() as int) =~= items@);
    r
}

/// Reads each list item at `from` or later whose head is none of `hs`, in
/// order.
pub fn collect_unknown<T, F: Fn(&Node) -> T>(
    items: &Vec<Node>,
    from: usize,
    hs: &Vec<&str>,
    f: F,
    Ghost(p): Ghost<spec_fn(Node, T) -> bool>,
) -> (r: Vec<T>)
    requires
        forall|n: &Node| #[trigger] f.requires((n,)),
        forall|n: &Node, t: T| #[trigger] f.ensures((n,), t) ==> p(*n, t),
    ensures
        each(unknown_lists(items@, from as int, hs@), r@, p),
{
    let mut r: Vec<T> = Vec::new();
    let mut i: usize = 0;
    while i < items.len()
        invariant
            i <= items.len(),
            forall|n: &Node| #[trigger] f.requires((n,)),
            forall|n: &Node, t: T| #[trigger] f.ensures((n,), t) ==> p(*n, t),
            each(unknown_lists(items@.subrange(0, i as int), from as int, hs@), r@, p),
        decreases items.len() - i,
    {
        let ghost sub = items@.subrange(0, i + 1);
        assert(sub.drop_last() =~= items@.subrange(0, i as int));
        assert(sub.last() == items@[i as int]);
        let is_list = match &items[i] {
            Node::List { .. } => true,
            Node::Atom { .. } => false,
        };
        if i >= from && is_list && !head_in_exec(&items[i], hs) {
            let ghost before = r@;
            let t = f(&items[i]);
            r.push(t);
            let ghost fl = unknown_lists(sub, from as int, hs@);
            assert forall|k: int| 0 <= k < fl.len() implies #[trigger] p(fl[k], r@[k]) by {
                if k < fl.len() - 1 {
                    assert(r@[k] == before[k]);
                }
            }
        }
        i = i + 1;
    }
    assert(items@.subrange(0, items.len() as int) =~= items@);
    r
}

/// The last item found by following `path` down from `s`: the last item with
/// head `path[k]` among the items (after the head) of the last list with head
/// `path[k - 1]` that holds one, and so on, starting at index `from` of `s`.
pub open spec fn deep_last(s: Seq<Node>, from: int, path: Seq<&str>) -> Option<Node>
    decreases path.len(), s.len(),
{
    if path.len() == 0 {
        None
    } else if path.len() == 1 {
        last_with_head(s, from, path[0]@)
    } else if s.len() <= from || s.len() == 0 {
        None
    } else if head_of(s.last()) == Some(path[0]@) && deep_last(list_items(s.last()), 1, path.drop_first()) is Some {
        deep_last(list_items(s.last()), 1, path.drop_first())
    } else {
        deep_last(s.drop_last(), from, path)
    }
}

/// The second atom of the item that `path` leads to.
pub open spec fn deep_second(s: Seq<Node>, from: int, path: Seq<&str>) -> Option<Seq<char>> {
    match deep_last(s, from, path) {
        Some(n) => second_atom_string(n),
        None => None,
    }
}

fn deep_last_from<'a>(items: &'a Vec<Node>, from: usize, path: &Vec<&str>, k: usize) -> (r: Option<&'a Node>)
    requires
        k <= path.len(),
    ensures
        match r {
            Some(n) => deep_last(items@, from as int, path@.subrange(k as int, path@.len() as int)) == Some(*n),
            None => deep_last(items@, from as int, path@.subrange(k as int, path@.len() as int)) is None,
        },
    decreases path.len() - k, items.len(),
{
    let ghost p = path@.subrange(k as int, path@.len() as int);
    if k == path.len() {
        return None;
    }
    if k + 1 == path.len() {
        return match find_last(items, from, path[k]) {
            Some(i) => Some(&items[i]),
            None => None,
        };
    }
    assert(p.drop_first() =~= path@.subrange(k + 1, path@.len() as int));
    let mut i = items.len();
    assert(items@.subrange(0, i as int) =~= items@);
    while i > from
        invariant
            i <= items.len(),
            k + 1 < path.len(),
            p == path@.subrange(k as int, path@.len() as int),
            p.drop_first() == path@.subrange(k + 1, path@.len() as int),
            deep_last(items@, from as int, p) == deep_last(items@.subrange(0, i as int), from as int, p),
        decreases i,
    {
        let ghost sub = items@.subrange(0, i as int);
        assert(sub.last() == items@[i - 1]);
        assert(sub.drop_last() =~= items@.subrange(0, i - 1));
        if head_is(&items[i - 1], path[k]) {
            match &items[i - 1] {
                Node::List { items: inner, .. } => {
                    let found = deep_last_from(inner, 1, path, k + 1);
                    if found.is_some() {
                        return found;
                    }
                },
                Node::Atom { .. } => {},
            }
        }
        i = i - 1;
    }
    None
}

/// The item that `path` leads to (see `deep_last`).
pub fn deep_last_exec<'a>(items: &'a Vec<Node>, from: usize, path: &Vec<&str>) -> (r: Option<&'a Node>)
    ensures
        match r {
            Some(n) => deep_last(items@, from as int, path@) == Some(*n),
            None => deep_last(items@, from as int, path@) is None,
        },
{
    assert(path@.subrange(0, path@.len() as int) =~= path@);
    deep_last_from(items, from, path, 0)
}

pub fn deep_second_exec(items: &Vec<Node>, from: usize, path: &Vec<&str>) -> (r: Option<String>)
    ensures
        ov(r) == deep_second(items@, from as int, path@),
{
    match deep_last_exec(items, from, path) {
        Some(n) => second_string(n),
        None => None,
    }
}

/// The last item of `s`, at index `from` or later, whose head is `h1` or `h2`.
pub open spec fn last_with_either(s: Seq<Node>, from: int, h1: Seq<char>, h2: Seq<char>) -> Option<Node>
    decreases s.len(),
{
    if s.len() <= from || s.len() == 0 {
        None
    } else if head_of(s.last()) == Some(h1) || head_of(s.last()) == Some(h2) {
        Some(s.last())
    } else {
        last_with_either(s.drop_last(), from, h1, h2)
    }
}

pub fn find_last_either<'a>(items: &'a Vec<Node>, from: usize, h1: &str, h2: &str) -> (r: Option<&'a Node>)
    ensures
        match r {
            Some(n) => last_with_either(items@, from as int, h1@, h2@) == Some(*n),
            None => last_with_either(items@, from as int, h1@, h2@) is None,
        },
{
    let mut i = items.len();
    assert(items@.subrange(0, i as int) =~= items@);
    while i > from
        invariant
            i <= items.len(),
            last_with_either(items@, from as int, h1@, h2@) == last_with_either(
                items@.subrange(0, i as int),
                from as int,
                h1@,
                h2@,
            ),
        decreases i,
    {
        let ghost sub = items@.subrange(0, i as int);
        assert(sub.last() == items@[i - 1]);
        if head_is(&items[i - 1], h1) || head_is(&items[i - 1], h2) {
            return Some(&items[i - 1]);
        }
        assert(sub.drop_last() =~= items@.subrange(0, i - 1));
        i = i - 1;
    }
    None
}

/// Whether some item of `s`, at index `from` or later, is the bare symbol
/// `text`.
pub open spec fn has_symbol_from(s: Seq<Node>, from: int, text: Seq<char>) -> bool {
    exists|i: int| 0 <= i < s.len() && from <= i && is_symbol_atom(#[trigger] s[i], text)
}

pub fn any_symbol_from(items: &Vec<Node>, from: usize, text: &str) -> (r: bool)
    ensures
        r == has_symbol_from(items@, from as int, text@),
{
    let mut i: usize = from;
    while i < items.len()
        invariant
            from <= i,
            forall|k: int| 0 <= k < i && from <= k ==> !is_symbol_atom(#[trigger] items@[k], text@),
        decreases items.len() - i,
    {
        if is_symbol(&items[i], text) {
            return true;
        }
        i = i + 1;
    }
    false
}

/// The index of the first item of `s`, at index `from` or later, whose head
/// is `h`.
pub open spec fn first_head_index(s: Seq<Node>, from: int, h: Seq<char>) -> Option<int>
    decreases s.len(),
{
    if s.len() == 0 {
        None
    } else {
        match first_head_index(s.drop_last(), from, h) {
            Some(i) => Some(i),
            None => if s.len() - 1 >= from && head_of(s.last()) == Some(h) {
                Some(s.len() - 1)
            } else {
                None
            },
        }
    }
}

proof fn lemma_first_head_index_extend(s: Seq<Node>, j: int, from: int, h: Seq<char>)
    requires
        0 <= j <= s.len(),
        first_head_index(s.subrange(0, j), from, h) is Some,
    ensures
        first_head_index(s, from, h) == first_head_index(s.subrange(0, j), from, h),
    decreases s.len() - j,
{
    if j == s.len() {
        assert(s.subrange(0, j) =~= s);
    } else {
        assert(s.subrange(0, j + 1).drop_last() =~= s.subrange(0, j));
        lemma_first_head_index_extend(s, j + 1, from, h);
    }
}

/// The first index at `from` or later with head `h`.
pub fn find_first_index(items: &Vec<Node>, from: usize, h: &str) -> (r: Option<usize>)
    ensures
        match r {
            Some(i) => first_head_index(items@, from as int, h@) == Some(i as int) && from <= i < items.len()
                && head_of(items@[i as int]) == Some(h@),
            None => first_head_index(items@, from as int, h@) is None,
        },
{
    let mut i: usize = 0;
    while i < items.len()
        invariant
            i <= items.len(),
            first_head_index(items@.subrange(0, i as int), from as int, h@) is None,
        decreases items.len() - i,
    {
        let ghost sub = items@.subrange(0, i + 1);
        assert(sub.drop_last() =~= items@.subrange(0, i as int));
        if i >= from && head_is(&items[i], h) {
            proof {
                lemma_first_head_index_extend(items@, i + 1, from as int, h@);
            }
            return Some(i);
        }
        i = i + 1;
    }
    assert(items@.subrange(0, items.len() as int) =~= items@);
    None
}

/// `j` is the index of the last item of `s`, at `from` or later, whose head
/// is `h`.
pub open spec fn is_last_head(s: Seq<Node>, from: int, h: Seq<char>, j: int) -> bool {
    &&& 0 <= from <= j < s.len()
    &&& head_of(s[j]) == Some(h)
    &&& forall|k: int| #![trigger s[k]] j < k < s.len() ==> head_of(s[k]) != Some(h)
}

/// No item of `s` at `from` or later has head `h`.
pub open spec fn lacks_head(s: Seq<Node>, from: int, h: Seq<char>) -> bool {
    forall|k: int| #![trigger s[k]] from <= k < s.len() ==> head_of(s[k]) != Some(h)
}

/// The last item with head `h` is the one at the last index that has it.
pub proof fn lemma_last_with_head_at(s: Seq<Node>, from: int, h: Seq<char>, j: int)
    requires
        is_last_head(s, from, h, j),
    ensures
        last_with_head(s, from, h) == Some(s[j]),
    decreases s.len(),
{
    if j < s.len() - 1 {
        assert(head_of(s[s.len() - 1]) != Some(h));
        assert(s.drop_last()[j] == s[j]);
        assert forall|k: int| #![trigger s.drop_last()[k]] j < k < s.drop_last().len() implies head_of(
            s.drop_last()[k],
        ) != Some(h) by {
            assert(s.drop_last()[k] == s[k]);
        }
        lemma_last_with_head_at(s.drop_last(), from, h, j);
    }
}

/// Where no item has head `h`, there is no last one.
pub proof fn lemma_lacks_head(s: Seq<Node>, from: int, h: Seq<char>)
    requires
        lacks_head(s, from, h),
        0 <= from,
    ensures
        last_with_head(s, from, h) is None,
    decreases s.len(),
{
    if s.len() > from && s.len() > 0 {
        assert(head_of(s[s.len() - 1]) != Some(h));
        assert forall|k: int| #![trigger s.drop_last()[k]] from <= k < s.drop_last().len() implies head_of(
            s.drop_last()[k],
        ) != Some(h) by {
            assert(s.drop_last()[k] == s[k]);
        }
        lemma_lacks_head(s.drop_last(), from, h);
    }
}

/// `j` is the index of the first item of `s`, at `from` or later, whose head
/// is `h`.
pub open spec fn is_first_head(s: Seq<Node>, from: int, h: Seq<char>, j: int) -> bool {
    &&& 0 <= from <= j < s.len()
    &&& head_of(s[j]) == Some(h)
    &&& forall|k: int| #![trigger s[k]] from <= k < j ==> head_of(s[k]) != Some(h)
}

/// The first item with head `h` is the one at the first index that has it.
pub proof fn lemma_first_with_head_at(s: Seq<Node>, from: int, h: Seq<char>, j: int)
    requires
        is_first_head(s, from, h, j),
    ensures
        first_with_head(s, from, h) == Some(s[j]),
    decreases s.len(),
{
    let t = s.drop_last();
    if j < s.len() - 1 {
        assert(t[j] == s[j]);
        assert forall|k: int| #![trigger t[k]] from <= k < j implies head_of(t[k]) != Some(h) by {
            assert(t[k] == s[k]);
        }
        lemma_first_with_head_at(t, from, h, j);
    } else {
        assert forall|k: int| #![trigger t[k]] from <= k < t.len() implies head_of(t[k]) != Some(h) by {
            assert(t[k] == s[k]);
        }
        lemma_no_first_head(t, from, h);
    }
}

/// Where no item has head `h`, there is no first one.
pub proof fn lemma_no_first_head(s: Seq<Node>, from: int, h: Seq<char>)
    requires
        lacks_head(s, from, h),
        0 <= from,
    ensures
        first_with_head(s, from, h) is None,
    decreases s.len(),
{
    if s.len() > 0 {
        let t = s.drop_last();
        assert forall|k: int| #![trigger t[k]] from <= k < t.len() implies head_of(t[k]) != Some(h) by {
            assert(t[k] == s[k]);
        }
        lemma_no_first_head(t, from, h);
        if s.len() - 1 >= from {
            assert(head_of(s[s.len() - 1]) != Some(h));
        }
    }
}

/// Every item that `filter_head` keeps has head `h`.
pub proof fn lemma_filter_head_heads(s: Seq<Node>, from: int, h: Seq<char>)
    ensures
        forall|i: int| 0 <= i < filter_head(s, from, h).len() ==> head_of(#[trigger] filter_head(s, from, h)[i]) == Some(h),
    decreases s.len(),
{
    if !(s.len() <= from || s.len() == 0) {
        lemma_filter_head_heads(s.drop_last(), from, h);
    }
}

} // verus!
