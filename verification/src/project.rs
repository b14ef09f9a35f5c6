//! Project files (`.kicad_pro`): JSON, kept as read, with a typed view of the
//! fields the library knows.
use vstd::prelude::*;

use crate::document::{dirty_error, dirty_message};
use crate::error::Error;
use crate::json::{
    copy_json, field_index, field_set, field_value, find_insert_position, first_key, get, insert_position,
    json_eq, json_get, lemma_field_set_get, lemma_field_set_weaken, lemma_first_key, set_field, JsonNumber,
    lemma_field_set_other, lemma_insert_position_bound,
    JsonValue,
};
use crate::json_text::{json_text_value, parse_json_text, pretty_json, pretty_json_text};
use crate::sexpr_utils::sv;
use crate::text::{owned, push_char, str_eq};
use crate::write_mode::WriteMode;

verus! {

/// A top-level field of a project that the typed view does not read.
#[derive(Debug)]
pub struct UnknownField {
    pub key: String,
    pub value: JsonValue,
}

/// The typed view of a project.
#[derive(Debug)]
pub struct ProjectAst {
    pub meta_version: Option<i32>,
    pub pinned_symbol_libs: Vec<String>,
    pub pinned_footprint_libs: Vec<String>,
    pub unknown_fields: Vec<UnknownField>,
}

/// The integer written at `meta.version`, where it is one that fits in an
/// `i64`.
pub open spec fn meta_version_int(j: JsonValue) -> Option<i64> {
    match json_get(j, "meta"@) {
        Some(m) => match json_get(m, "version"@) {
            Some(JsonValue::Number(n)) => n.int,
            _ => None,
        },
        None => None,
    }
}

pub open spec fn fits_i32(i: i64) -> bool {
    i32::MIN <= i <= i32::MAX
}

/// `meta.version` as an `i32`, where it is one.
pub open spec fn meta_version(j: JsonValue) -> Option<i32> {
    match meta_version_int(j) {
        Some(i) => if fits_i32(i) {
            Some(i as i32)
        } else {
            None
        },
        None => None,
    }
}

/// The strings among the values `s`, in order.
pub open spec fn string_items(s: Seq<JsonValue>) -> Seq<Seq<char>>
    decreases s.len(),
{
    if s.len() == 0 {
        Seq::empty()
    } else {
        match s.last() {
            JsonValue::String(x) => string_items(s.drop_last()).push(x@),
            _ => string_items(s.drop_last()),
        }
    }
}

/// The strings of the array `libraries.<key>` (none when there is no such
/// array).
pub open spec fn pinned(j: JsonValue, key: Seq<char>) -> Seq<Seq<char>> {
    match json_get(j, "libraries"@) {
        Some(l) => match json_get(l, key) {
            Some(JsonValue::Array(a)) => string_items(a@),
            _ => Seq::empty(),
        },
        None => Seq::empty(),
    }
}

/// The top-level keys the typed view reads.
pub open spec fn project_known() -> Seq<&'static str> {
    seq!["meta", "libraries", "board", "sheets", "boards", "text_variables"]
}

pub open spec fn is_known_key(k: Seq<char>) -> bool {
    exists|i: int| 0 <= i < project_known().len() && k == #[trigger] project_known()[i]@
}

/// The fields among `fs` whose key is not a known one, in order.
pub open spec fn unknown_entries(fs: Seq<(String, JsonValue)>) -> Seq<(String, JsonValue)>
    decreases fs.len(),
{
    if fs.len() == 0 {
        Seq::empty()
    } else if is_known_key(fs.last().0@) {
        unknown_entries(fs.drop_last())
    } else {
        unknown_entries(fs.drop_last()).push(fs.last())
    }
}

/// The top-level fields of a project that the typed view does not read.
pub open spec fn top_unknown(j: JsonValue) -> Seq<(String, JsonValue)> {
    match j {
        JsonValue::Object(fs) => unknown_entries(fs@),
        _ => Seq::empty(),
    }
}

/// `u` describes the fields `fs`, one for one.
pub open spec fn fields_described(fs: Seq<(String, JsonValue)>, u: Seq<UnknownField>) -> bool {
    &&& u.len() == fs.len()
    &&& forall|i: int| 0 <= i < fs.len() ==> (#[trigger] u[i]).key@ == fs[i].0@ && json_eq(u[i].value, fs[i].1)
}

/// What the typed view of a project holds, read from its JSON.
pub open spec fn project_ast_of(j: JsonValue, a: ProjectAst) -> bool {
    &&& a.meta_version == meta_version(j)
    &&& sv(a.pinned_symbol_libs@) == pinned(j, "pinned_symbol_libs"@)
    &&& sv(a.pinned_footprint_libs@) == pinned(j, "pinned_footprint_libs"@)
    &&& fields_described(top_unknown(j), a.unknown_fields@)
}

fn meta_version_int_exec(j: &JsonValue) -> (r: Option<i64>)
    ensures
        r == meta_version_int(*j),
{
    match get(j, "meta") {
        Some(m) => match get(m, "version") {
            Some(JsonValue::Number(n)) => n.int,
            _ => None,
        },
        None => None,
    }
}

fn strings_of(a: &Vec<JsonValue>) -> (r: Vec<String>)
    ensures
        sv(r@) == string_items(a@),
{
    let mut r: Vec<String> = Vec::new();
    let mut i: usize = 0;
    while i < a.len()
        invariant
            i <= a.len(),
            sv(r@) == string_items(a@.subrange(0, i as int)),
        decreases a.len() - i,
    {
        let ghost sub = a@.subrange(0, i + 1);
        assert(sub.drop_last() =~= a@.subrange(0, i as int));
        assert(sub.last() == a@[i as int]);
        match &a[i] {
            JsonValue::String(x) => {
                let ghost before = r@;
                r.push(x.clone());
                assert(sv(r@) =~= sv(before).push(x@));
            },
            _ => {},
        }
        i = i + 1;
    }
    assert(a@.subrange(0, a.len() as int) =~= a@);
    r
}

fn pinned_exec(j: &JsonValue, key: &str) -> (r: Vec<String>)
    ensures
        sv(r@) == pinned(*j, key@),
{
    match get(j, "libraries") {
        Some(l) => match get(l, key) {
            Some(JsonValue::Array(a)) => strings_of(a),
            _ => Vec::new(),
        },
        None => Vec::new(),
    }
}

fn is_known_key_exec(k: &str) -> (r: bool)
    ensures
        r == is_known_key(k@),
{
    let known = vec!["meta", "libraries", "board", "sheets", "boards", "text_variables"];
    assert(known@ == project_known());
    let mut i: usize = 0;
    while i < known.len()
        invariant
            i <= known.len(),
            known@ == project_known(),
            forall|m: int| 0 <= m < i ==> k@ != #[trigger] project_known()[m]@,
        decreases known.len() - i,
    {
        if str_eq(k, known[i]) {
            return true;
        }
        i = i + 1;
    }
    false
}

fn unknown_fields_exec(j: &JsonValue) -> (r: Vec<UnknownField>)
    ensures
        fields_described(top_unknown(*j), r@),
{
    match j {
        JsonValue::Object(fs) => {
            let mut r: Vec<UnknownField> = Vec::new();
            let mut i: usize = 0;
            while i < fs.len()
                invariant
                    i <= fs.len(),
                    fields_described(unknown_entries(fs@.subrange(0, i as int)), r@),
                decreases fs.len() - i,
            {
                let ghost sub = fs@.subrange(0, i + 1);
                assert(sub.drop_last() =~= fs@.subrange(0, i as int));
                assert(sub.last() == fs@[i as int]);
                if !is_known_key_exec(fs[i].0.as_str()) {
                    let ghost before = r@;
                    let u = UnknownField { key: fs[i].0.clone(), value: copy_json(&fs[i].1) };
                    r.push(u);
                    let ghost ue = unknown_entries(sub);
                    assert forall|m: int| 0 <= m < ue.len() implies (#[trigger] r@[m]).key@ == ue[m].0@ && json_eq(
                        r@[m].value,
                        ue[m].1,
                    ) by {
                        if m < ue.len() - 1 {
                            assert(r@[m] == before[m]);
                        }
                    }
                }
                i = i + 1;
            }
            assert(fs@.subrange(0, fs.len() as int) =~= fs@);
            r
        },
        _ => Vec::new(),
    }
}

/// Reads the typed view of a project from its JSON (`meta.version` outside the
/// `i32` range reads as none).
pub fn project_ast(j: &JsonValue) -> (a: ProjectAst)
    ensures
        project_ast_of(*j, a),
{
    let meta_version = match meta_version_int_exec(j) {
        Some(i) => if i32::MIN as i64 <= i && i <= i32::MAX as i64 {
            Some(i as i32)
        } else {
            None
        },
        None => None,
    };
    ProjectAst {
        meta_version,
        pinned_symbol_libs: pinned_exec(j, "pinned_symbol_libs"),
        pinned_footprint_libs: pinned_exec(j, "pinned_footprint_libs"),
        unknown_fields: unknown_fields_exec(j),
    }
}

/// The value is an array holding exactly the strings `libs`.
pub open spec fn string_array(v: JsonValue, libs: Seq<Seq<char>>) -> bool {
    &&& v is Array
    &&& v->Array_0@.len() == libs.len()
    &&& forall|i: int|
        0 <= i < libs.len() ==> (#[trigger] v->Array_0@[i]) is String && v->Array_0@[i]->String_0@ == libs[i]
}

/// The fields of a JSON object (none for any other value).
pub open spec fn object_fields(j: JsonValue) -> Seq<(String, JsonValue)> {
    match j {
        JsonValue::Object(fs) => fs@,
        _ => Seq::empty(),
    }
}

/// The fields of `libraries` when it is an object (none otherwise).
pub open spec fn library_fields(j: JsonValue) -> Seq<(String, JsonValue)> {
    match json_get(j, "libraries"@) {
        Some(l) => object_fields(l),
        None => Seq::empty(),
    }
}

/// `new` is the project JSON `old` with `libraries.<key>` set to the array of
/// `libs`: a value that is not an object becomes an empty object first, and
/// so does `libraries`; every other field is kept.
pub open spec fn library_array_set(old: JsonValue, new: JsonValue, key: Seq<char>, libs: Seq<Seq<char>>) -> bool {
    &&& new is Object
    &&& field_set(
        object_fields(old),
        new->Object_0@,
        "libraries"@,
        |lv: JsonValue|
            lv is Object && field_set(
                library_fields(old),
                lv->Object_0@,
                key,
                |a: JsonValue| string_array(a, libs),
            ),
    )
}

fn string_array_exec(libs: Vec<String>) -> (r: JsonValue)
    ensures
        string_array(r, sv(libs@)),
{
    let mut out: Vec<JsonValue> = Vec::new();
    let mut libs = libs;
    let ghost orig = libs@;
    let n = libs.len();
    let mut i: usize = 0;
    while i < n
        invariant
            n == orig.len(),
            i <= orig.len(),
            out@.len() == i,
            libs@ == orig.subrange(i as int, orig.len() as int),
            forall|k: int| 0 <= k < i ==> (#[trigger] out@[k]) is String && out@[k]->String_0@ == orig[k]@,
        decreases orig.len() - i,
    {
        let s = libs.remove(0);
        out.push(JsonValue::String(s));
        assert(libs@ =~= orig.subrange(i + 1, orig.len() as int));
        i = i + 1;
    }
    JsonValue::Array(out)
}

/// Sets `libraries.<key>` to the array of `libs` (see `library_array_set`).
pub fn with_library_array(json: JsonValue, key: &str, libs: Vec<String>) -> (r: JsonValue)
    ensures
        library_array_set(json, r, key@, sv(libs@)),
{
    let ghost old = json;
    let ghost l = sv(libs@);
    let arr = string_array_exec(libs);
    let mut root = match json {
        JsonValue::Object(fs) => fs,
        _ => Vec::new(),
    };
    assert(root@ == object_fields(old));
    proof {
        lemma_first_key(root@, "libraries"@);
    }
    match field_index(&root, "libraries") {
        Some(i) => {
            let ghost before = root@;
            let (k, v) = root.remove(i);
            let lf = match v {
                JsonValue::Object(lf) => lf,
                _ => Vec::new(),
            };
            assert(lf@ == library_fields(old));
            let ghost ga = arr;
            let lf2 = set_field(lf, key, arr);
            proof {
                lemma_field_set_weaken(library_fields(old), lf2@, key@, |x: JsonValue| x == ga, |a: JsonValue| string_array(a, l));
            }
            let lv = JsonValue::Object(lf2);
            root.insert(i, (k, lv));
            assert(root@ =~= before.update(i as int, root@[i as int]));
        },
        None => {
            let lf: Vec<(String, JsonValue)> = Vec::new();
            assert(lf@ == library_fields(old));
            let ghost ga = arr;
            let lf2 = set_field(lf, key, arr);
            proof {
                lemma_field_set_weaken(library_fields(old), lf2@, key@, |x: JsonValue| x == ga, |a: JsonValue| string_array(a, l));
            }
            let pos = find_insert_position(&root, "libraries");
            root.insert(pos, (owned("libraries"), JsonValue::Object(lf2)));
        },
    }
    JsonValue::Object(root)
}

proof fn lemma_string_items_all(v: Seq<JsonValue>, libs: Seq<Seq<char>>)
    requires
        v.len() == libs.len(),
        forall|i: int| 0 <= i < libs.len() ==> (#[trigger] v[i]) is String && v[i]->String_0@ == libs[i],
    ensures
        string_items(v) == libs,
    decreases v.len(),
{
    if v.len() > 0 {
        assert forall|i: int| 0 <= i < libs.drop_last().len() implies (#[trigger] v.drop_last()[i]) is String
            && v.drop_last()[i]->String_0@ == libs.drop_last()[i] by {
            assert(v.drop_last()[i] == v[i]);
        }
        lemma_string_items_all(v.drop_last(), libs.drop_last());
        assert(v.last() == v[v.len() - 1]);
        assert(libs =~= libs.drop_last().push(libs.last()));
    }
}

/// After `library_array_set`, `libraries.<key>` reads as `libs`.
pub proof fn lemma_library_array_reads(old: JsonValue, new: JsonValue, key: Seq<char>, libs: Seq<Seq<char>>)
    requires
        library_array_set(old, new, key, libs),
    ensures
        pinned(new, key) == libs,
{
    let p = |lv: JsonValue|
        lv is Object && field_set(library_fields(old), lv->Object_0@, key, |a: JsonValue| string_array(a, libs));
    lemma_field_set_get(object_fields(old), new->Object_0@, "libraries"@, p);
    let lv = field_value(new->Object_0@, "libraries"@)->0;
    assert(p(lv));
    lemma_field_set_get(library_fields(old), lv->Object_0@, key, |a: JsonValue| string_array(a, libs));
    let a = field_value(lv->Object_0@, key)->0;
    assert(string_array(a, libs));
    lemma_string_items_all(a->Array_0@, libs);
}

proof fn lemma_unknown_entries_update(fs: Seq<(String, JsonValue)>, i: int, e: (String, JsonValue))
    requires
        0 <= i < fs.len(),
        is_known_key(fs[i].0@),
        is_known_key(e.0@),
    ensures
        unknown_entries(fs.update(i, e)) == unknown_entries(fs),
    decreases fs.len(),
{
    let gs = fs.update(i, e);
    if i == fs.len() - 1 {
        assert(gs.drop_last() =~= fs.drop_last());
    } else {
        assert(gs.drop_last() =~= fs.drop_last().update(i, e));
        lemma_unknown_entries_update(fs.drop_last(), i, e);
    }
}

proof fn lemma_unknown_entries_insert(fs: Seq<(String, JsonValue)>, k: int, e: (String, JsonValue))
    requires
        0 <= k <= fs.len(),
        is_known_key(e.0@),
    ensures
        unknown_entries(fs.insert(k, e)) == unknown_entries(fs),
    decreases fs.len(),
{
    let gs = fs.insert(k, e);
    if k == fs.len() {
        assert(gs.drop_last() =~= fs);
    } else {
        assert(gs.drop_last() =~= fs.drop_last().insert(k, e));
        lemma_unknown_entries_insert(fs.drop_last(), k, e);
    }
}

/// Setting `libraries.<key>` keeps every other top-level field, every other
/// field of `libraries`, every other pinned list, and the fields that the
/// typed view does not read.
pub proof fn lemma_library_array_keeps(old: JsonValue, new: JsonValue, key: Seq<char>, libs: Seq<Seq<char>>)
    requires
        library_array_set(old, new, key, libs),
    ensures
        forall|k: Seq<char>| k != "libraries"@ ==> #[trigger] json_get(new, k) == json_get(old, k),
        forall|k: Seq<char>|
            k != key ==> #[trigger] field_value(library_fields(new), k) == field_value(library_fields(old), k),
        forall|k: Seq<char>| k != key ==> #[trigger] pinned(new, k) == pinned(old, k),
        top_unknown(new) == top_unknown(old),
{
    let p = |lv: JsonValue|
        lv is Object && field_set(library_fields(old), lv->Object_0@, key, |a: JsonValue| string_array(a, libs));
    let q = |a: JsonValue| string_array(a, libs);
    let ofs = object_fields(old);
    let nfs = new->Object_0@;
    assert(first_key(Seq::<(String, JsonValue)>::empty(), key) is None);
    assert forall|k: Seq<char>| k != "libraries"@ implies #[trigger] json_get(new, k) == json_get(old, k) by {
        lemma_field_set_other(ofs, nfs, "libraries"@, p, k);
        assert(first_key(Seq::<(String, JsonValue)>::empty(), k) is None);
    }
    lemma_field_set_get(ofs, nfs, "libraries"@, p);
    let lv = field_value(nfs, "libraries"@)->0;
    assert(p(lv));
    assert(library_fields(new) == lv->Object_0@);
    assert forall|k: Seq<char>| k != key implies #[trigger] field_value(library_fields(new), k) == field_value(
        library_fields(old),
        k,
    ) by {
        lemma_field_set_other(library_fields(old), lv->Object_0@, key, q, k);
    }
    assert forall|k: Seq<char>| k != key implies #[trigger] pinned(new, k) == pinned(old, k) by {
        lemma_field_set_other(library_fields(old), lv->Object_0@, key, q, k);
        assert(first_key(Seq::<(String, JsonValue)>::empty(), k) is None);
    }
    assert(project_known()[1]@ == "libraries"@);
    assert(is_known_key("libraries"@));
    lemma_first_key(ofs, "libraries"@);
    match first_key(ofs, "libraries"@) {
        Some(i) => {
            assert(nfs =~= ofs.update(i, nfs[i]));
            lemma_unknown_entries_update(ofs, i, nfs[i]);
        },
        None => {
            let k = insert_position(ofs, "libraries"@);
            lemma_insert_position_bound(ofs, "libraries"@);
            assert(nfs =~= ofs.insert(k, nfs[k]));
            lemma_unknown_entries_insert(ofs, k, nfs[k]);
        },
    }
    assert(unknown_entries(Seq::<(String, JsonValue)>::empty()) == Seq::<(String, JsonValue)>::empty());
}

/// After an edit the project's text is its new JSON pretty-printed, with a
/// final newline; where the JSON cannot be printed the text stays `old`.
pub open spec fn raw_printed(old: Seq<char>, new: Seq<char>, j: JsonValue) -> bool {
    match pretty_json_text(j) {
        Ok(t) => new == t.push('\n'),
        Err(_) => new == old,
    }
}

/// The message of the error for a project text that is not JSON.
pub open spec fn invalid_json_message(m: Seq<char>) -> Seq<char> {
    "invalid .kicad_pro json: "@ + m
}

/// The message of the error for JSON that cannot be printed.
pub open spec fn serialize_message(m: Seq<char>) -> Seq<char> {
    "json serialization failed: "@ + m
}

pub open spec fn meta_message() -> Seq<char> {
    "meta.version is out of i32 range"@
}

/// A project document: its text as read, its JSON, and the typed view.
#[derive(Debug)]
pub struct ProjectDocument {
    ast: ProjectAst,
    raw: String,
    json: JsonValue,
    ast_dirty: bool,
}

impl ProjectDocument {
    pub closed spec fn spec_ast(&self) -> ProjectAst {
        self.ast
    }

    pub closed spec fn spec_raw(&self) -> Seq<char> {
        self.raw@
    }

    pub closed spec fn spec_json(&self) -> JsonValue {
        self.json
    }

    /// Whether the typed view was changed directly (through `ast_mut`).
    pub closed spec fn spec_dirty(&self) -> bool {
        self.ast_dirty
    }

    /// The document's invariant: its typed view is read from its JSON unless
    /// it was changed directly.
    pub open spec fn wf(&self) -> bool {
        !self.spec_dirty() ==> project_ast_of(self.spec_json(), self.spec_ast())
    }

    /// The typed view.
    pub fn ast(&self) -> (r: &ProjectAst)
        ensures
            *r == self.spec_ast(),
    {
        &self.ast
    }

    /// The typed view, for changes that cannot be written back: after this
    /// call, writing the document fails.
    pub fn ast_mut(&mut self) -> (r: &mut ProjectAst)
        ensures
            *r == old(self).spec_ast(),
            final(self).spec_ast() == *final(r),
            final(self).spec_raw() == old(self).spec_raw(),
            final(self).spec_json() == old(self).spec_json(),
            final(self).spec_dirty(),
            final(self).wf(),
    {
        self.ast_dirty = true;
        &mut self.ast
    }

    /// The text of the project.
    pub fn raw(&self) -> (r: &str)
        ensures
            r@ == self.spec_raw(),
    {
        self.raw.as_str()
    }

    /// The JSON of the project.
    pub fn json(&self) -> (r: &JsonValue)
        ensures
            *r == self.spec_json(),
    {
        &self.json
    }

    /// The text of the project in the given mode: as it stands (lossless), or
    /// its JSON pretty-printed with a final newline (canonical). Refused once
    /// the typed view was changed directly, and in canonical mode when the
    /// JSON cannot be printed.
    pub fn render(&self, mode: WriteMode) -> (r: Result<String, Error>)
        ensures
            self.spec_dirty() ==> (r matches Err(Error::Validation(m)) && m@ == dirty_message()),
            !self.spec_dirty() ==> match mode {
                WriteMode::Lossless => (r matches Ok(s) && s@ == self.spec_raw()),
                WriteMode::Canonical => match pretty_json_text(self.spec_json()) {
                    Ok(t) => (r matches Ok(s) && s@ == t.push('\n')),
                    Err(m) => (r matches Err(Error::Validation(e)) && e@ == serialize_message(m)),
                },
            },
    {
        if self.ast_dirty {
            return Err(dirty_error());
        }
        match mode {
            WriteMode::Lossless => Ok(self.raw.clone()),
            WriteMode::Canonical => match pretty_json(&self.json) {
                Ok(t) => {
                    let mut t = t;
                    push_char(&mut t, '\n');
                    Ok(t)
                },
                Err(m) => {
                    let mut e = owned("json serialization failed: ");
                    e.append(m.as_str());
                    Err(Error::Validation(e))
                },
            },
        }
    }

    fn set_library_array(&mut self, key: &str, libs: Vec<String>)
        ensures
            library_array_set(old(self).spec_json(), final(self).spec_json(), key@, sv(libs@)),
            project_ast_of(final(self).spec_json(), final(self).spec_ast()),
            final(self).spec_dirty() == old(self).spec_dirty(),
            raw_printed(old(self).spec_raw(), final(self).spec_raw(), final(self).spec_json()),
            final(self).wf(),
            sv(final(self).spec_ast().pinned_symbol_libs@) == pinned(final(self).spec_json(), "pinned_symbol_libs"@),
            pinned(final(self).spec_json(), key@) == sv(libs@),
            forall|k: Seq<char>| k != "libraries"@ ==> #[trigger] json_get(final(self).spec_json(), k) == json_get(old(self).spec_json(), k),
            forall|k: Seq<char>| k != key@ ==> #[trigger] pinned(final(self).spec_json(), k) == pinned(old(self).spec_json(), k),
            top_unknown(final(self).spec_json()) == top_unknown(old(self).spec_json()),
    {
        let mut json = JsonValue::Null;
        std::mem::swap(&mut json, &mut self.json);
        let ghost l = sv(libs@);
        let json = with_library_array(json, key, libs);
        proof {
            lemma_library_array_reads(old(self).spec_json(), json, key@, l);
            lemma_library_array_keeps(old(self).spec_json(), json, key@, l);
        }
        match pretty_json(&json) {
            Ok(t) => {
                let mut t = t;
                push_char(&mut t, '\n');
                self.raw = t;
            },
            Err(_) => {},
        }
        self.ast = project_ast(&json);
        self.json = json;
    }

    /// Sets `libraries.pinned_symbol_libs` (a value that is not an object
    /// becomes one first); the text becomes the new JSON pretty-printed, with
    /// a final newline (it stays as it was where the JSON cannot be printed).
    /// Whether the typed view was changed directly stays as it was.
    pub fn set_pinned_symbol_libs(&mut self, libs: Vec<String>) -> (r: &mut Self)
        ensures
            *final(self) == *final(r),
            library_array_set(old(self).spec_json(), r.spec_json(), "pinned_symbol_libs"@, sv(libs@)),
            project_ast_of(r.spec_json(), r.spec_ast()),
            r.spec_dirty() == old(self).spec_dirty(),
            r.wf(),
            raw_printed(old(self).spec_raw(), r.spec_raw(), r.spec_json()),
            sv(r.spec_ast().pinned_symbol_libs@) == sv(libs@),
            pinned(r.spec_json(), "pinned_footprint_libs"@) == pinned(old(self).spec_json(), "pinned_footprint_libs"@),
            forall|k: Seq<char>| k != "libraries"@ ==> #[trigger] json_get(r.spec_json(), k) == json_get(old(self).spec_json(), k),
            top_unknown(r.spec_json()) == top_unknown(old(self).spec_json()),
    {
        self.set_library_array("pinned_symbol_libs", libs);
        proof {
            reveal_strlit("pinned_symbol_libs");
            reveal_strlit("pinned_footprint_libs");
            assert("pinned_symbol_libs"@.len() != "pinned_footprint_libs"@.len());
        }
        self
    }

    /// Sets `libraries.pinned_footprint_libs` (see `set_pinned_symbol_libs`).
    pub fn set_pinned_footprint_libs(&mut self, libs: Vec<String>) -> (r: &mut Self)
        ensures
            *final(self) == *final(r),
            library_array_set(old(self).spec_json(), r.spec_json(), "pinned_footprint_libs"@, sv(libs@)),
            project_ast_of(r.spec_json(), r.spec_ast()),
            r.spec_dirty() == old(self).spec_dirty(),
            r.wf(),
            raw_printed(old(self).spec_raw(), r.spec_raw(), r.spec_json()),
            sv(r.spec_ast().pinned_footprint_libs@) == sv(libs@),
            pinned(r.spec_json(), "pinned_symbol_libs"@) == pinned(old(self).spec_json(), "pinned_symbol_libs"@),
            forall|k: Seq<char>| k != "libraries"@ ==> #[trigger] json_get(r.spec_json(), k) == json_get(old(self).spec_json(), k),
            top_unknown(r.spec_json()) == top_unknown(old(self).spec_json()),
    {
        self.set_library_array("pinned_footprint_libs", libs);
        proof {
            reveal_strlit("pinned_symbol_libs");
            reveal_strlit("pinned_footprint_libs");
            assert("pinned_symbol_libs"@.len() != "pinned_footprint_libs"@.len());
        }
        self
    }
}

/// Reads project documents.
pub struct ProjectFile;

impl ProjectFile {
    /// Makes a project document from its text and the JSON read from it.
    /// Refused when `meta.version` is an integer outside the `i32` range.
    pub fn from_json(raw: String, json: JsonValue) -> (r: Result<ProjectDocument, Error>)
        ensures
            r is Err <==> (meta_version_int(json) matches Some(i) && !fits_i32(i)),
            r matches Err(e) ==> e matches Error::Validation(m) && m@ == meta_message(),
            r matches Ok(d) ==> {
                &&& d.spec_raw() == raw@
                &&& d.spec_json() == json
                &&& !d.spec_dirty()
                &&& d.wf()
                &&& project_ast_of(json, d.spec_ast())
            },
    {
        match meta_version_int_exec(&json) {
            Some(i) => {
                if !(i32::MIN as i64 <= i && i <= i32::MAX as i64) {
                    return Err(Error::Validation(owned("meta.version is out of i32 range")));
                }
            },
            None => {},
        }
        let ast = project_ast(&json);
        Ok(ProjectDocument { ast, raw, json, ast_dirty: false })
    }

    /// Reads a project from its text: JSON, read by `serde_json`. Refused
    /// when the text is not JSON, and when `meta.version` is an integer
    /// outside the `i32` range.
    pub fn read_str(text: &str) -> (r: Result<ProjectDocument, Error>)
        ensures
            match json_text_value(text@) {
                Err(m) => (r matches Err(Error::Validation(e)) && e@ == invalid_json_message(m)),
                Ok(j) => {
                    &&& r is Err <==> (meta_version_int(j) matches Some(i) && !fits_i32(i))
                    &&& r matches Err(e) ==> e matches Error::Validation(m) && m@ == meta_message()
                    &&& r matches Ok(d) ==> {
                        &&& d.spec_raw() == text@
                        &&& d.spec_json() == j
                        &&& !d.spec_dirty()
                        &&& d.wf()
                        &&& project_ast_of(j, d.spec_ast())
                    }
                },
            },
    {
        match parse_json_text(text) {
            Ok(j) => ProjectFile::from_json(owned(text), j),
            Err(m) => {
                let mut e = owned("invalid .kicad_pro json: ");
                e.append(m.as_str());
                Err(Error::Validation(e))
            },
        }
    }
}

/// After a pinned-library setter whose JSON could be printed, the project's
/// text is that printed JSON with a final newline: writing it in lossless and
/// in canonical mode gives the same text.
pub proof fn lemma_modes_agree_after_edit(old_raw: Seq<char>, d: ProjectDocument)
    requires
        raw_printed(old_raw, d.spec_raw(), d.spec_json()),
        pretty_json_text(d.spec_json()) is Ok,
    ensures
        d.spec_raw() == pretty_json_text(d.spec_json())->Ok_0.push('\n'),
{
}


} // verus!
