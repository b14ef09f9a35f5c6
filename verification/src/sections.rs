//! Sections shared by several document kinds: the paper size and the title
//! block.
use vstd::prelude::*;

use crate::sexpr::Node;
use crate::sexpr_utils::{
    filter_head, head_is, last_second_string, last_string, list_items, nth_atom_string, nth_real, nth_real_exec,
    nth_string, ov, rv, string_to_i32, sv, text_i32, Real,
};

verus! {

/// A paper size: `(paper "A4" [portrait])` or `(paper "User" w h [portrait])`.
#[derive(Debug)]
pub struct ParsedPaper {
    pub kind: Option<String>,
    pub width: Option<Real>,
    pub height: Option<Real>,
    pub orientation: Option<String>,
}

/// The paper read from `(paper kind [width height] [orientation])`: the
/// orientation follows the size when there is one.
pub open spec fn paper_of(n: Node, p: ParsedPaper) -> bool {
    &&& ov(p.kind) == nth_atom_string(n, 1)
    &&& rv(p.width) == nth_real(n, 2)
    &&& rv(p.height) == nth_real(n, 3)
    &&& ov(p.orientation) == (if nth_real(n, 2) is Some || nth_real(n, 3) is Some {
        nth_atom_string(n, 4)
    } else {
        nth_atom_string(n, 2)
    })
}

pub fn parse_paper(n: &Node) -> (p: ParsedPaper)
    ensures
        paper_of(*n, p),
{
    let kind = nth_string(n, 1);
    let width = nth_real_exec(n, 2);
    let height = nth_real_exec(n, 3);
    let orientation = if width.is_some() || height.is_some() {
        nth_string(n, 4)
    } else {
        nth_string(n, 2)
    };
    ParsedPaper { kind, width, height, orientation }
}

/// A title block: title, date, revision, company and numbered comments.
#[derive(Debug)]
pub struct ParsedTitleBlock {
    pub title: Option<String>,
    pub date: Option<String>,
    pub revision: Option<String>,
    pub company: Option<String>,
    pub comments: Vec<String>,
}

/// The `(comment N "text")` items of `cs` that have both a number and a text,
/// in order.
pub open spec fn comment_entries(cs: Seq<Node>) -> Seq<(i32, Seq<char>)>
    decreases cs.len(),
{
    if cs.len() == 0 {
        Seq::empty()
    } else {
        match (text_i32(nth_atom_string(cs.last(), 1)), nth_atom_string(cs.last(), 2)) {
            (Some(i), Some(t)) => comment_entries(cs.drop_last()).push((i, t)),
            _ => comment_entries(cs.drop_last()),
        }
    }
}

/// `sorted` with `x` put after the last entry whose number is not greater.
pub open spec fn insert_by_key(sorted: Seq<(i32, Seq<char>)>, x: (i32, Seq<char>)) -> Seq<(i32, Seq<char>)>
    decreases sorted.len(),
{
    if sorted.len() == 0 {
        seq![x]
    } else if sorted.last().0 <= x.0 {
        sorted.push(x)
    } else {
        insert_by_key(sorted.drop_last(), x).push(sorted.last())
    }
}

/// The entries ordered by number; entries with equal numbers keep their
/// order.
pub open spec fn sort_by_key(s: Seq<(i32, Seq<char>)>) -> Seq<(i32, Seq<char>)>
    decreases s.len(),
{
    if s.len() == 0 {
        Seq::empty()
    } else {
        insert_by_key(sort_by_key(s.drop_last()), s.last())
    }
}

pub open spec fn texts_of(s: Seq<(i32, Seq<char>)>) -> Seq<Seq<char>> {
    s.map_values(|e: (i32, Seq<char>)| e.1)
}

pub open spec fn entries_view(v: Seq<(i32, String)>) -> Seq<(i32, Seq<char>)> {
    v.map_values(|e: (i32, String)| (e.0, e.1@))
}

/// The title block read from `(title_block (title ..) (date ..) (rev ..)
/// (company ..) (comment N ..) ...)`: the last of each field, and the comments
/// ordered by number.
pub open spec fn title_block_of(n: Node, t: ParsedTitleBlock) -> bool {
    let s = list_items(n);
    &&& ov(t.title) == last_second_string(s, 1, "title"@)
    &&& ov(t.date) == last_second_string(s, 1, "date"@)
    &&& ov(t.revision) == last_second_string(s, 1, "rev"@)
    &&& ov(t.company) == last_second_string(s, 1, "company"@)
    &&& sv(t.comments@) == texts_of(sort_by_key(comment_entries(filter_head(s, 1, "comment"@))))
}

proof fn lemma_insert_at(sorted: Seq<(i32, Seq<char>)>, x: (i32, Seq<char>), j: int)
    requires
        0 <= j <= sorted.len(),
        forall|k: int| j <= k < sorted.len() ==> #[trigger] sorted[k].0 > x.0,
        j > 0 ==> sorted[j - 1].0 <= x.0,
    ensures
        insert_by_key(sorted, x) == sorted.subrange(0, j).push(x) + sorted.subrange(j, sorted.len() as int),
    decreases sorted.len(),
{
    if sorted.len() == 0 {
        assert(sorted.subrange(0, 0).push(x) + sorted.subrange(0, 0) =~= seq![x]);
    } else if j == sorted.len() {
        assert(sorted.subrange(0, j) =~= sorted);
        assert(sorted.subrange(j, j) =~= Seq::<(i32, Seq<char>)>::empty());
        assert(sorted.push(x) + Seq::<(i32, Seq<char>)>::empty() =~= sorted.push(x));
    } else {
        let t = sorted.drop_last();
        assert forall|k: int| j <= k < t.len() implies #[trigger] t[k].0 > x.0 by {
            assert(t[k] == sorted[k]);
        }
        if j > 0 {
            assert(t[j - 1] == sorted[j - 1]);
        }
        lemma_insert_at(t, x, j);
        assert(insert_by_key(sorted, x) == insert_by_key(t, x).push(sorted.last()));
        assert(t.subrange(0, j) =~= sorted.subrange(0, j));
        assert(t.subrange(j, t.len() as int).push(sorted.last()) =~= sorted.subrange(j, sorted.len() as int));
        assert((t.subrange(0, j).push(x) + t.subrange(j, t.len() as int)).push(sorted.last()) =~= sorted.subrange(
            0,
            j,
        ).push(x) + sorted.subrange(j, sorted.len() as int));
    }
}

fn insert_sorted(v: &mut Vec<(i32, String)>, x: (i32, String))
    ensures
        entries_view(final(v)@) == insert_by_key(entries_view(old(v)@), (x.0, x.1@)),
{
    let ghost sv = entries_view(v@);
    let mut j = v.len();
    while j > 0 && v[j - 1].0 > x.0
        invariant
            j <= v.len(),
            sv == entries_view(v@),
            forall|k: int| j <= k < v.len() ==> #[trigger] sv[k].0 > x.0,
        decreases j,
    {
        j = j - 1;
    }
    proof {
        lemma_insert_at(sv, (x.0, x.1@), j as int);
    }
    let ghost before = v@;
    v.insert(j, x);
    assert(entries_view(v@) =~= sv.subrange(0, j as int).push((x.0, x.1@)) + sv.subrange(j as int, sv.len() as int));
}

fn comment_entry(n: &Node) -> (r: Option<(i32, String)>)
    ensures
        match (text_i32(nth_atom_string(*n, 1)), nth_atom_string(*n, 2)) {
            (Some(i), Some(t)) => r matches Some(e) && e.0 == i && e.1@ == t,
            _ => r is None,
        },
{
    match (string_to_i32(nth_string(n, 1)), nth_string(n, 2)) {
        (Some(i), Some(t)) => Some((i, t)),
        _ => None,
    }
}

pub fn parse_title_block(n: &Node) -> (t: ParsedTitleBlock)
    ensures
        title_block_of(*n, t),
{
    let empty: Vec<Node> = Vec::new();
    let items = match n {
        Node::List { items, .. } => items,
        Node::Atom { .. } => &empty,
    };
    assert(items@ == list_items(*n));
    let mut entries: Vec<(i32, String)> = Vec::new();
    let mut i: usize = 0;
    while i < items.len()
        invariant
            i <= items.len(),
            entries_view(entries@) == sort_by_key(comment_entries(filter_head(items@.subrange(0, i as int), 1, "comment"@))),
        decreases items.len() - i,
    {
        let ghost sub = items@.subrange(0, i + 1);
        assert(sub.drop_last() =~= items@.subrange(0, i as int));
        assert(sub.last() == items@[i as int]);
        if i >= 1 && head_is(&items[i], "comment") {
            let ghost fl = filter_head(sub, 1, "comment"@);
            assert(fl.drop_last() == filter_head(items@.subrange(0, i as int), 1, "comment"@));
            assert(fl.last() == items@[i as int]);
            match comment_entry(&items[i]) {
                Some(e) => {
                    let ghost ev = (e.0, e.1@);
                    let ghost ce = comment_entries(fl);
                    assert(ce == comment_entries(fl.drop_last()).push(ev));
                    assert(ce.drop_last() =~= comment_entries(fl.drop_last()));
                    assert(sort_by_key(ce) == insert_by_key(sort_by_key(ce.drop_last()), ce.last()));
                    insert_sorted(&mut entries, e);
                },
                None => {},
            }
        }
        i = i + 1;
    }
    assert(items@.subrange(0, items.len() as int) =~= items@);
    let mut comments: Vec<String> = Vec::new();
    let mut k: usize = 0;
    while k < entries.len()
        invariant
            k <= entries.len(),
            sv(comments@) == texts_of(entries_view(entries@)).subrange(0, k as int),
        decreases entries.len() - k,
    {
        let ghost before = comments@;
        assert(texts_of(entries_view(entries@))[k as int] == entries@[k as int].1@);
        let c = entries[k].1.clone();
        assert(c@ == entries@[k as int].1@);
        comments.push(c);
        assert(sv(comments@) =~= sv(before).push(c@));
        assert(texts_of(entries_view(entries@)).subrange(0, k + 1) =~= texts_of(entries_view(entries@)).subrange(0, k as int).push(c@));
        assert(sv(comments@) =~= texts_of(entries_view(entries@)).subrange(0, k + 1));
        k = k + 1;
    }
    assert(texts_of(entries_view(entries@)).subrange(0, entries.len() as int) =~= texts_of(entries_view(entries@)));
    ParsedTitleBlock {
        title: last_string(items, 1, "title"),
        date: last_string(items, 1, "date"),
        revision: last_string(items, 1, "rev"),
        company: last_string(items, 1, "company"),
        comments,
    }
}

/// The entries are in order of their numbers.
pub open spec fn keys_sorted(s: Seq<(i32, Seq<char>)>) -> bool {
    forall|i: int, j: int| 0 <= i < j < s.len() ==> s[i].0 <= s[j].0
}

proof fn lemma_insert_by_key_sorted(sorted: Seq<(i32, Seq<char>)>, x: (i32, Seq<char>))
    requires
        keys_sorted(sorted),
    ensures
        keys_sorted(insert_by_key(sorted, x)),
        insert_by_key(sorted, x).to_multiset() == sorted.to_multiset().insert(x),
    decreases sorted.len(),
{
    broadcast use vstd::seq_lib::group_to_multiset_ensures;

    if sorted.len() == 0 {
        assert(seq![x] =~= Seq::<(i32, Seq<char>)>::empty().push(x));
    } else if sorted.last().0 <= x.0 {
    } else {
        let t = sorted.drop_last();
        assert forall|i: int, j: int| 0 <= i < j < t.len() implies t[i].0 <= t[j].0 by {
            assert(t[i] == sorted[i] && t[j] == sorted[j]);
        }
        lemma_insert_by_key_sorted(t, x);
        let u = insert_by_key(t, x);
        let r = u.push(sorted.last());
        assert forall|i: int, j: int| 0 <= i < j < r.len() implies r[i].0 <= r[j].0 by {
            if j == r.len() - 1 {
                assert(u.to_multiset().count(u[i]) > 0);
                assert(u.contains(u[i]));
                if u[i] != x {
                    assert(t.to_multiset().count(u[i]) > 0);
                    assert(t.contains(u[i]));
                    let k = choose|k: int| 0 <= k < t.len() && t[k] == u[i];
                    assert(sorted[k] == t[k]);
                    assert(sorted[k].0 <= sorted[sorted.len() - 1].0);
                }
            }
        }
        assert(sorted =~= t.push(sorted.last()));
    }
}

/// Ordering the comments by number yields them in order of their numbers,
/// each entry exactly as often as before.
pub proof fn lemma_sort_by_key_sorted(s: Seq<(i32, Seq<char>)>)
    ensures
        keys_sorted(sort_by_key(s)),
        sort_by_key(s).to_multiset() == s.to_multiset(),
    decreases s.len(),
{
    broadcast use vstd::seq_lib::group_to_multiset_ensures;

    if s.len() > 0 {
        lemma_sort_by_key_sorted(s.drop_last());
        lemma_insert_by_key_sorted(sort_by_key(s.drop_last()), s.last());
        assert(s =~= s.drop_last().push(s.last()));
    }
}

} // verus!
