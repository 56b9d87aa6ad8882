//! A collapsible JSON tree.
//!
//! Object and array nodes carry a chevron; the set of collapsed node paths
//! lives with the caller, so the tree can be rebuilt from the parsed document
//! on every frame without losing its open/closed state. The tree comes out as
//! a list of rows, one per line of the view.

use vstd::prelude::*;

use vstd::seq_lib::seq_to_set_distributes_over_add;

use crate::text::{concat, decimal, push_char, push_decimal, push_str, str_eq};

verus! {

/// Path of the document root; every other path is derived from it.
pub const ROOT: &'static str = "$";

/// Safety valve: a pathological document must not build millions of rows.
pub const MAX_ROWS: usize = 20000;

/// A parsed JSON document. Numbers keep the text JSON renders them with;
/// object members keep their order.
#[derive(Debug)]
pub enum JsonValue {
    Null,
    Bool(bool),
    Number(String),
    String(String),
    Array(Vec<JsonValue>),
    Object(Vec<(String, JsonValue)>),
}

// ─── JSON string literals (serde_json) ──────────────────────────────────────

/// Lowercase hexadecimal digit `d` (below 16).
pub open spec fn hex_digit(d: nat) -> char {
    seq!['0', '1', '2', '3', '4', '5', '6', '7', '8', '9', 'a', 'b', 'c', 'd', 'e', 'f'][d as int]
}

/// How JSON writes `c` inside a string literal: quote and backslash escaped
/// by a backslash, the usual short escapes for backspace, tab, line feed,
/// form feed and carriage return, `\u00XX` for the other control
/// characters, every other character as itself.
pub open spec fn json_escape(c: char) -> Seq<char> {
    if c == '"' {
        seq!['\\', '"']
    } else if c == '\\' {
        seq!['\\', '\\']
    } else if c == '\u{8}' {
        seq!['\\', 'b']
    } else if c == '\t' {
        seq!['\\', 't']
    } else if c == '\n' {
        seq!['\\', 'n']
    } else if c == '\u{c}' {
        seq!['\\', 'f']
    } else if c == '\r' {
        seq!['\\', 'r']
    } else if (c as nat) < 32 {
        seq!['\\', 'u', '0', '0', hex_digit((c as nat) / 16), hex_digit((c as nat) % 16)]
    } else {
        seq![c]
    }
}

/// `s` as a JSON string literal.
pub open spec fn json_quoted(s: Seq<char>) -> Seq<char> {
    seq!['"'] + concat(s.map_values(|c: char| json_escape(c))) + seq!['"']
}

/// `serde_json::to_string` on a string: the string as a JSON literal,
/// quoted and escaped. Serialising a string into memory cannot fail.
#[verifier::external_body]
fn quote_json(s: &str) -> (res: String)
    ensures
        res@ == json_quoted(s@),
{
    match serde_json::to_string(s) {
        Ok(t) => t,
        Err(_) => String::from("null"),
    }
}

// ─── Parsing (serde_json) ───────────────────────────────────────────────────

#[verifier::external_type_specification]
#[verifier::external_body]
pub struct ExJsonDocument(serde_json::Value);

/// What `serde_json::from_str` makes of `src`: the document, or the parser's
/// message. With the `preserve_order` feature, object members keep the order
/// they are written in, so the result depends on `src` alone.
pub uninterp spec fn json_parse(src: Seq<char>) -> Result<JsonValue, Seq<char>>;

/// A `serde_json::Value` as a [`JsonValue`], variant for variant; a number
/// keeps the text `serde_json` writes it with.
#[verifier::external_body]
fn from_value(value: serde_json::Value) -> JsonValue {
    match value {
        serde_json::Value::Null => JsonValue::Null,
        serde_json::Value::Bool(b) => JsonValue::Bool(b),
        serde_json::Value::Number(n) => JsonValue::Number(n.to_string()),
        serde_json::Value::String(s) => JsonValue::String(s),
        serde_json::Value::Array(items) => JsonValue::Array(items.into_iter().map(from_value).collect()),
        serde_json::Value::Object(map) => JsonValue::Object(map.into_iter().map(|(k, v)| (k, from_value(v))).collect()),
    }
}

/// `serde_json::from_str` on the buffer, its error turned into its message.
#[verifier::external_body]
fn json_from_str(src: &str) -> (res: Result<JsonValue, String>)
    ensures
        match res {
            Ok(v) => json_parse(src@) == Ok::<JsonValue, Seq<char>>(v),
            Err(e) => json_parse(src@) == Err::<JsonValue, Seq<char>>(e@),
        },
{
    serde_json::from_str::<serde_json::Value>(src).map(from_value).map_err(|e| e.to_string())
}

/// Parses the buffer as JSON, returning the parser's message on failure.
pub fn parse(src: &str) -> (res: Result<JsonValue, String>)
    ensures
        match res {
            Ok(v) => json_parse(src@) == Ok::<JsonValue, Seq<char>>(v),
            Err(e) => json_parse(src@) == Err::<JsonValue, Seq<char>>(e@),
        },
{
    json_from_str(src)
}

// ─── Nodes ──────────────────────────────────────────────────────────────────

/// The path of the document root.
pub open spec fn root_path() -> Seq<char> {
    seq!['$']
}

/// The path of item `i` of the array at `parent`: `parent[i]`.
pub open spec fn item_path(parent: Seq<char>, i: nat) -> Seq<char> {
    parent + seq!['['] + decimal(i) + seq![']']
}

/// The path of member `key` of the object at `parent`: `parent.key`.
pub open spec fn member_path(parent: Seq<char>, key: Seq<char>) -> Seq<char> {
    parent + seq!['.'] + key
}

/// Whether the node folds: a non-empty object or array.
pub open spec fn is_container_spec(v: JsonValue) -> bool {
    match v {
        JsonValue::Object(m) => m@.len() > 0,
        JsonValue::Array(a) => a@.len() > 0,
        _ => false,
    }
}

/// The delimiters and child count of a node (empty for a scalar).
pub open spec fn brackets_spec(v: JsonValue) -> (Seq<char>, Seq<char>, int) {
    match v {
        JsonValue::Object(m) => (seq!['{'], seq!['}'], m@.len() as int),
        JsonValue::Array(a) => (seq!['['], seq![']'], a@.len() as int),
        _ => (Seq::empty(), Seq::empty(), 0),
    }
}

/// The text of a node that does not fold: a scalar as JSON writes it, or
/// an empty object or array.
pub open spec fn leaf_text(v: JsonValue) -> Seq<char> {
    match v {
        JsonValue::Null => seq!['n', 'u', 'l', 'l'],
        JsonValue::Bool(b) => if b {
            seq!['t', 'r', 'u', 'e']
        } else {
            seq!['f', 'a', 'l', 's', 'e']
        },
        JsonValue::Number(n) => n@,
        JsonValue::String(s) => json_quoted(s@),
        JsonValue::Array(_) => seq!['[', ']'],
        JsonValue::Object(_) => seq!['{', '}'],
    }
}

/// The path of a child: item `index` when there is one, else member `key`.
pub fn child_path(parent: &str, key: &str, index: Option<usize>) -> (res: String)
    ensures
        res@ == match index {
            Some(i) => item_path(parent@, i as nat),
            None => member_path(parent@, key@),
        },
{
    let mut out = String::new();
    push_str(&mut out, parent);
    match index {
        Some(i) => {
            push_char(&mut out, '[');
            push_decimal(&mut out, i);
            push_char(&mut out, ']');
        },
        None => {
            push_char(&mut out, '.');
            push_str(&mut out, key);
        },
    }
    assert(out@ =~= match index {
        Some(i) => item_path(parent@, i as nat),
        None => member_path(parent@, key@),
    });
    out
}

pub fn is_container(value: &JsonValue) -> (res: bool)
    ensures
        res == is_container_spec(*value),
{
    match value {
        JsonValue::Object(map) => map.len() > 0,
        JsonValue::Array(items) => items.len() > 0,
        _ => false,
    }
}

/// The delimiters and child count of a container.
pub fn brackets(value: &JsonValue) -> (res: (&'static str, &'static str, usize))
    ensures
        (res.0@, res.1@, res.2 as int) == brackets_spec(*value),
{
    proof {
        reveal_strlit("{");
        reveal_strlit("}");
        reveal_strlit("[");
        reveal_strlit("]");
        reveal_strlit("");
    }
    match value {
        JsonValue::Object(map) => ("{", "}", map.len()),
        JsonValue::Array(items) => ("[", "]", items.len()),
        _ => ("", "", 0),
    }
}

/// A scalar rendered as JSON (quoted and escaped for strings).
pub fn scalar_text(value: &JsonValue) -> (res: String)
    requires
        !(value is Array) && !(value is Object),
    ensures
        res@ == leaf_text(*value),
{
    proof {
        reveal_strlit("null");
        reveal_strlit("true");
        reveal_strlit("false");
    }
    match value {
        JsonValue::Null => String::from_str("null"),
        JsonValue::Bool(b) => if *b {
            String::from_str("true")
        } else {
            String::from_str("false")
        },
        JsonValue::Number(n) => n.clone(),
        JsonValue::String(s) => quote_json(s.as_str()),
        _ => String::new(),
    }
}

// ─── Collapsible paths ──────────────────────────────────────────────────────

/// The paths of the containers at and under `v`, which sits at `path`, in
/// document order.
pub open spec fn paths_under(v: JsonValue, path: Seq<char>) -> Seq<Seq<char>>
    decreases v, 0int,
{
    match v {
        JsonValue::Object(m) => if m@.len() > 0 {
            seq![path] + member_paths(m@, path, 0)
        } else {
            Seq::empty()
        },
        JsonValue::Array(a) => if a@.len() > 0 {
            seq![path] + item_paths(a@, path, 0)
        } else {
            Seq::empty()
        },
        _ => Seq::empty(),
    }
}

/// The container paths under items `i..` of the array at `path`.
pub open spec fn item_paths(items: Seq<JsonValue>, path: Seq<char>, i: int) -> Seq<Seq<char>>
    decreases items, items.len() - i,
{
    if 0 <= i < items.len() {
        paths_under(items[i], item_path(path, i as nat)) + item_paths(items, path, i + 1)
    } else {
        Seq::empty()
    }
}

/// The container paths under members `i..` of the object at `path`.
pub open spec fn member_paths(members: Seq<(String, JsonValue)>, path: Seq<char>, i: int) -> Seq<
    Seq<char>,
>
    decreases members, members.len() - i,
{
    if 0 <= i < members.len() {
        paths_under(members[i].1, member_path(path, members[i].0@)) + member_paths(
            members,
            path,
            i + 1,
        )
    } else {
        Seq::empty()
    }
}

pub open spec fn strs_view(v: Seq<String>) -> Seq<Seq<char>> {
    v.map_values(|s: String| s@)
}

proof fn lemma_singleton_to_set(p: Seq<char>)
    ensures
        seq![p].to_set() == Set::<Seq<char>>::empty().insert(p),
{
    assert forall|x: Seq<char>| seq![p].to_set().contains(x) == Set::<Seq<char>>::empty().insert(
        p,
    ).contains(x) by {
        if x == p {
            assert(seq![p][0] == p);
        }
    }
    assert(seq![p].to_set() =~= Set::<Seq<char>>::empty().insert(p));
}

/// Adds `path` to `out` unless it is there already.
fn insert_path(out: &mut Vec<String>, path: String)
    ensures
        strs_view(final(out)@).to_set() == strs_view(old(out)@).to_set().insert(path@),
        strs_view(old(out)@).no_duplicates() ==> strs_view(final(out)@).no_duplicates(),
{
    let ghost sv = strs_view(out@);
    let mut i: usize = 0;
    while i < out.len()
        invariant
            i <= out@.len(),
            sv == strs_view(out@),
            forall|j: int| 0 <= j < i ==> sv[j] != path@,
        decreases out@.len() - i,
    {
        if str_eq(out[i].as_str(), path.as_str()) {
            assert(sv[i as int] == path@);
            assert(sv.to_set().insert(path@) =~= sv.to_set());
            return;
        }
        i = i + 1;
    }
    assert(!sv.contains(path@));
    out.push(path);
    assert(strs_view(out@) =~= sv.push(path@));
    proof {
        sv.lemma_push_to_set_commute(path@);
    }
}

/// Adds the container paths at and under `value` (at `path`) to `out`.
fn collect_paths(value: &JsonValue, path: &str, out: &mut Vec<String>)
    ensures
        strs_view(final(out)@).to_set() == strs_view(old(out)@).to_set() + paths_under(
            *value,
            path@,
        ).to_set(),
        strs_view(old(out)@).no_duplicates() ==> strs_view(final(out)@).no_duplicates(),
    decreases value,
{
    let ghost out0 = strs_view(out@);
    match value {
        JsonValue::Object(map) => {
            if map.len() == 0 {
                assert(paths_under(*value, path@).to_set() =~= Set::empty());
                assert(out0.to_set() + Set::empty() =~= out0.to_set());
                return;
            }
            insert_path(out, path.to_string());
            proof {
                lemma_singleton_to_set(path@);
                seq_to_set_distributes_over_add(seq![path@], member_paths(map@, path@, 0));
            }
            let mut i: usize = 0;
            while i < map.len()
                invariant
                    i <= map@.len(),
                    *value == JsonValue::Object(*map),
                    strs_view(out@).to_set() + member_paths(map@, path@, i as int).to_set()
                        == out0.to_set() + paths_under(*value, path@).to_set(),
                    out0.no_duplicates() ==> strs_view(out@).no_duplicates(),
                decreases map@.len() - i,
            {
                let child = child_path(path, map[i].0.as_str(), None);
                let ghost before = strs_view(out@);
                collect_paths(&map[i].1, child.as_str(), out);
                proof {
                    let here = paths_under(map@[i as int].1, member_path(path@, map@[i as int].0@));
                    let rest = member_paths(map@, path@, i + 1);
                    seq_to_set_distributes_over_add(here, rest);
                    assert(member_paths(map@, path@, i as int) == here + rest);
                    assert(strs_view(out@).to_set() + rest.to_set() =~= before.to_set() + (here
                        + rest).to_set());
                }
                i = i + 1;
            }
            assert(member_paths(map@, path@, i as int).to_set() =~= Set::empty());
            assert(strs_view(out@).to_set() =~= out0.to_set() + paths_under(*value, path@).to_set());
        },
        JsonValue::Array(items) => {
            if items.len() == 0 {
                assert(paths_under(*value, path@).to_set() =~= Set::empty());
                assert(out0.to_set() + Set::empty() =~= out0.to_set());
                return;
            }
            insert_path(out, path.to_string());
            proof {
                lemma_singleton_to_set(path@);
                seq_to_set_distributes_over_add(seq![path@], item_paths(items@, path@, 0));
            }
            let mut i: usize = 0;
            while i < items.len()
                invariant
                    i <= items@.len(),
                    *value == JsonValue::Array(*items),
                    strs_view(out@).to_set() + item_paths(items@, path@, i as int).to_set()
                        == out0.to_set() + paths_under(*value, path@).to_set(),
                    out0.no_duplicates() ==> strs_view(out@).no_duplicates(),
                decreases items@.len() - i,
            {
                let child = child_path(path, "", Some(i));
                let ghost before = strs_view(out@);
                collect_paths(&items[i], child.as_str(), out);
                proof {
                    let here = paths_under(items@[i as int], item_path(path@, i as nat));
                    let rest = item_paths(items@, path@, i + 1);
                    seq_to_set_distributes_over_add(here, rest);
                    assert(item_paths(items@, path@, i as int) == here + rest);
                    assert(strs_view(out@).to_set() + rest.to_set() =~= before.to_set() + (here
                        + rest).to_set());
                }
                i = i + 1;
            }
            assert(item_paths(items@, path@, i as int).to_set() =~= Set::empty());
            assert(strs_view(out@).to_set() =~= out0.to_set() + paths_under(*value, path@).to_set());
        },
        _ => {
            assert(paths_under(*value, path@).to_set() =~= Set::empty());
            assert(out0.to_set() + Set::empty() =~= out0.to_set());
        },
    }
}

/// Every collapsible path in the document (non-empty objects and arrays),
/// each once.
pub fn container_paths(value: &JsonValue) -> (res: Vec<String>)
    ensures
        strs_view(res@).to_set() == paths_under(*value, root_path()).to_set(),
        strs_view(res@).no_duplicates(),
{
    let mut paths: Vec<String> = Vec::new();
    proof {
        reveal_strlit("$");
    }
    assert(strs_view(paths@) =~= Seq::<Seq<char>>::empty());
    assert(strs_view(paths@).to_set() =~= Set::empty());
    assert(ROOT@ == root_path());
    collect_paths(value, ROOT, &mut paths);
    assert(Set::<Seq<char>>::empty() + paths_under(*value, root_path()).to_set() =~= paths_under(
        *value,
        root_path(),
    ).to_set());
    paths
}

// ─── Tree rows ──────────────────────────────────────────────────────────────

/// How a row's text is coloured: as a string, a number, another literal,
/// or muted (brackets and empty containers).
#[derive(Debug, Clone, Copy, PartialEq, Eq)]
pub enum Tone {
    Text,
    Number,
    Literal,
    Muted,
}

/// One line of the tree view.
#[derive(Debug, Clone, PartialEq, Eq)]
pub struct TreeRow {
    /// Nesting level, for the indent.
    pub depth: usize,
    /// For an object or array that folds: its path, and whether it is open.
    pub toggle: Option<(String, bool)>,
    /// The member name, as a JSON string followed by `: `.
    pub key: Option<String>,
    pub text: String,
    /// For a folded object or array, its number of children.
    pub count: Option<usize>,
    pub tone: Tone,
}

/// The model of a [`TreeRow`].
pub struct RowView {
    pub depth: int,
    pub toggle: Option<(Seq<char>, bool)>,
    pub key: Option<Seq<char>>,
    pub text: Seq<char>,
    pub count: Option<int>,
    pub tone: Tone,
}

impl View for TreeRow {
    type V = RowView;

    open spec fn view(&self) -> RowView {
        RowView {
            depth: self.depth as int,
            toggle: match self.toggle {
                Some((p, open)) => Some((p@, open)),
                None => None,
            },
            key: match self.key {
                Some(k) => Some(k@),
                None => None,
            },
            text: self.text@,
            count: match self.count {
                Some(n) => Some(n as int),
                None => None,
            },
            tone: self.tone,
        }
    }
}

pub open spec fn rows_view(rows: Seq<TreeRow>) -> Seq<RowView> {
    rows.map_values(|r: TreeRow| r@)
}

pub open spec fn tone_of(v: JsonValue) -> Tone {
    match v {
        JsonValue::String(_) => Tone::Text,
        JsonValue::Number(_) => Tone::Number,
        JsonValue::Array(_) => Tone::Muted,
        JsonValue::Object(_) => Tone::Muted,
        _ => Tone::Literal,
    }
}

/// The label of a member name.
pub open spec fn key_label(key: Option<Seq<char>>) -> Option<Seq<char>> {
    match key {
        Some(k) => Some(json_quoted(k) + seq![':', ' ']),
        None => None,
    }
}

pub open spec fn comma_tail(comma: bool) -> Seq<char> {
    if comma {
        seq![',']
    } else {
        Seq::empty()
    }
}

/// The rows of node `v`, at `path`, named `key` in its parent object, at
/// nesting `depth`, followed by a comma unless it is its parent's last
/// child; `collapsed` holds the paths folded shut. Each node takes one unit
/// of `budget`, and nothing is shown once it is spent (a container's closing
/// row only while some is left). Also the budget left over.
pub open spec fn node_rows(
    v: JsonValue,
    path: Seq<char>,
    key: Option<Seq<char>>,
    depth: int,
    comma: bool,
    collapsed: Seq<Seq<char>>,
    budget: nat,
) -> (Seq<RowView>, nat)
    decreases v, 0int,
{
    if budget == 0 {
        (Seq::empty(), 0)
    } else {
        let left = (budget - 1) as nat;
        let tail = comma_tail(comma);
        let label = key_label(key);
        if !is_container_spec(v) {
            (
                seq![
                    RowView {
                        depth,
                        toggle: None,
                        key: label,
                        text: leaf_text(v) + tail,
                        count: None,
                        tone: tone_of(v),
                    },
                ],
                left,
            )
        } else {
            let open = brackets_spec(v).0;
            let close = brackets_spec(v).1;
            if collapsed.contains(path) {
                (
                    seq![
                        RowView {
                            depth,
                            toggle: Some((path, false)),
                            key: label,
                            text: open + seq![' ', '\u{2026}', ' '] + close + tail,
                            count: Some(brackets_spec(v).2),
                            tone: Tone::Muted,
                        },
                    ],
                    left,
                )
            } else {
                let head = RowView {
                    depth,
                    toggle: Some((path, true)),
                    key: label,
                    text: open,
                    count: None,
                    tone: Tone::Muted,
                };
                let kids = match v {
                    JsonValue::Object(m) => member_rows(m@, path, depth + 1, collapsed, left, 0),
                    JsonValue::Array(a) => item_rows(a@, path, depth + 1, collapsed, left, 0),
                    _ => (Seq::empty(), left),
                };
                if kids.1 == 0 {
                    (seq![head] + kids.0, 0)
                } else {
                    (
                        seq![head] + kids.0 + seq![
                            RowView {
                                depth,
                                toggle: None,
                                key: None,
                                text: close + tail,
                                count: None,
                                tone: Tone::Muted,
                            },
                        ],
                        kids.1,
                    )
                }
            }
        }
    }
}

/// The rows of items `i..` of the array at `path`, and the budget left.
pub open spec fn item_rows(
    items: Seq<JsonValue>,
    path: Seq<char>,
    depth: int,
    collapsed: Seq<Seq<char>>,
    budget: nat,
    i: int,
) -> (Seq<RowView>, nat)
    decreases items, items.len() - i,
{
    if 0 <= i < items.len() {
        let first = node_rows(
            items[i],
            item_path(path, i as nat),
            None,
            depth,
            i != items.len() - 1,
            collapsed,
            budget,
        );
        let rest = item_rows(items, path, depth, collapsed, first.1, i + 1);
        (first.0 + rest.0, rest.1)
    } else {
        (Seq::empty(), budget)
    }
}

/// The rows of members `i..` of the object at `path`, and the budget left.
pub open spec fn member_rows(
    members: Seq<(String, JsonValue)>,
    path: Seq<char>,
    depth: int,
    collapsed: Seq<Seq<char>>,
    budget: nat,
    i: int,
) -> (Seq<RowView>, nat)
    decreases members, members.len() - i,
{
    if 0 <= i < members.len() {
        let first = node_rows(
            members[i].1,
            member_path(path, members[i].0@),
            Some(members[i].0@),
            depth,
            i != members.len() - 1,
            collapsed,
            budget,
        );
        let rest = member_rows(members, path, depth, collapsed, first.1, i + 1);
        (first.0 + rest.0, rest.1)
    } else {
        (Seq::empty(), budget)
    }
}

/// The rows of the children of `v`, at `path`.
pub open spec fn children_rows(
    v: JsonValue,
    path: Seq<char>,
    depth: int,
    collapsed: Seq<Seq<char>>,
    budget: nat,
) -> (Seq<RowView>, nat) {
    match v {
        JsonValue::Object(m) => member_rows(m@, path, depth, collapsed, budget, 0),
        JsonValue::Array(a) => item_rows(a@, path, depth, collapsed, budget, 0),
        _ => (Seq::empty(), budget),
    }
}

pub open spec fn opt_str(key: Option<&str>) -> Option<Seq<char>> {
    match key {
        Some(k) => Some(k@),
        None => None,
    }
}

fn tone(value: &JsonValue) -> (res: Tone)
    ensures
        res == tone_of(*value),
{
    match value {
        JsonValue::String(_) => Tone::Text,
        JsonValue::Number(_) => Tone::Number,
        JsonValue::Array(_) => Tone::Muted,
        JsonValue::Object(_) => Tone::Muted,
        _ => Tone::Literal,
    }
}

fn key_text(key: Option<&str>) -> (res: Option<String>)
    ensures
        match res {
            Some(t) => key_label(opt_str(key)) == Some(t@),
            None => key_label(opt_str(key)) is None,
        },
{
    match key {
        Some(k) => {
            let mut t = quote_json(k);
            push_str(&mut t, ": ");
            proof {
                reveal_strlit(": ");
            }
            assert(t@ =~= json_quoted(k@) + seq![':', ' ']);
            Some(t)
        },
        None => None,
    }
}

/// The text of a node that does not fold.
fn leaf_value_text(value: &JsonValue) -> (res: String)
    requires
        !is_container_spec(*value),
    ensures
        res@ == leaf_text(*value),
{
    proof {
        reveal_strlit("{}");
        reveal_strlit("[]");
    }
    match value {
        JsonValue::Object(_) => String::from_str("{}"),
        JsonValue::Array(_) => String::from_str("[]"),
        _ => scalar_text(value),
    }
}

fn push_tail(s: &mut String, comma: bool)
    ensures
        final(s)@ == old(s)@ + comma_tail(comma),
{
    if comma {
        push_char(s, ',');
    }
    assert(final(s)@ =~= old(s)@ + comma_tail(comma));
}

/// Whether `path` is among `collapsed`.
fn is_collapsed(collapsed: &Vec<String>, path: &str) -> (res: bool)
    ensures
        res == strs_view(collapsed@).contains(path@),
{
    let ghost sv = strs_view(collapsed@);
    let mut i: usize = 0;
    while i < collapsed.len()
        invariant
            i <= collapsed@.len(),
            sv == strs_view(collapsed@),
            forall|j: int| 0 <= j < i ==> sv[j] != path@,
        decreases collapsed@.len() - i,
    {
        if str_eq(collapsed[i].as_str(), path) {
            assert(sv[i as int] == path@);
            return true;
        }
        i = i + 1;
    }
    false
}

/// Appends the rows for one node (and its children when expanded).
fn push_node(
    rows: &mut Vec<TreeRow>,
    budget: &mut usize,
    value: &JsonValue,
    path: &str,
    key: Option<&str>,
    depth: usize,
    comma: bool,
    collapsed: &Vec<String>,
)
    requires
        depth + *old(budget) <= usize::MAX,
    ensures
        rows_view(final(rows)@) == rows_view(old(rows)@) + node_rows(
            *value,
            path@,
            opt_str(key),
            depth as int,
            comma,
            strs_view(collapsed@),
            *old(budget) as nat,
        ).0,
        *final(budget) as nat == node_rows(
            *value,
            path@,
            opt_str(key),
            depth as int,
            comma,
            strs_view(collapsed@),
            *old(budget) as nat,
        ).1,
    decreases value,
{
    let ghost coll = strs_view(collapsed@);
    let ghost rows0 = rows_view(rows@);
    let ghost b0 = *budget as nat;
    if *budget == 0 {
        assert(rows_view(rows@) =~= rows0 + Seq::<RowView>::empty());
        return;
    }
    *budget = *budget - 1;
    let label = key_text(key);
    if !is_container(value) {
        let mut text = leaf_value_text(value);
        push_tail(&mut text, comma);
        let row = TreeRow { depth, toggle: None, key: label, text, count: None, tone: tone(value) };
        rows.push(row);
        assert(rows_view(rows@) =~= rows0 + seq![row@]);
        return;
    }
    let (open, close, count) = brackets(value);
    if is_collapsed(collapsed, path) {
        let mut text = String::new();
        push_str(&mut text, open);
        push_str(&mut text, " \u{2026} ");
        push_str(&mut text, close);
        push_tail(&mut text, comma);
        proof {
            reveal_strlit(" \u{2026} ");
        }
        let row = TreeRow {
            depth,
            toggle: Some((path.to_string(), false)),
            key: label,
            text,
            count: Some(count),
            tone: Tone::Muted,
        };
        rows.push(row);
        assert(row@.text =~= open@ + seq![' ', '\u{2026}', ' '] + close@ + comma_tail(comma));
        assert(rows_view(rows@) =~= rows0 + seq![row@]);
        return;
    }
    let head = TreeRow {
        depth,
        toggle: Some((path.to_string(), true)),
        key: label,
        text: open.to_string(),
        count: None,
        tone: Tone::Muted,
    };
    rows.push(head);
    let ghost rows1 = rows_view(rows@);
    assert(rows1 =~= rows0 + seq![head@]);
    let ghost b1 = *budget as nat;
    let ghost kids = children_rows(*value, path@, depth + 1, coll, b1);
    match value {
        JsonValue::Object(map) => {
            let last = map.len() - 1;
            let mut i: usize = 0;
            while i < map.len()
                invariant
                    i <= map@.len(),
                    last == map@.len() - 1,
                    *value == JsonValue::Object(*map),
                    coll == strs_view(collapsed@),
                    *budget <= b1,
                    depth + 1 + b1 <= usize::MAX,
                    kids == member_rows(map@, path@, depth + 1, coll, b1, 0),
                    rows_view(rows@) + member_rows(
                        map@,
                        path@,
                        depth + 1,
                        coll,
                        *budget as nat,
                        i as int,
                    ).0 == rows1 + kids.0,
                    member_rows(map@, path@, depth + 1, coll, *budget as nat, i as int).1
                        == kids.1,
                decreases map@.len() - i,
            {
                let child = child_path(path, map[i].0.as_str(), None);
                let ghost before = rows_view(rows@);
                let ghost bb = *budget as nat;
                proof {
                    assert(decreases_to!(*value => (*value)->Object_0));
                    assert((*value)->Object_0 == *map);
                    assert(decreases_to!(*map => map@));
                    assert(decreases_to!(map@ => map@[i as int]));
                    assert(decreases_to!(map@[i as int] => map@[i as int].1));
                    assert(decreases_to!(*value => map@[i as int].1));
                }
                push_node(
                    rows,
                    budget,
                    &map[i].1,
                    child.as_str(),
                    Some(map[i].0.as_str()),
                    depth + 1,
                    i != last,
                    collapsed,
                );
                proof {
                    let first = node_rows(
                        map@[i as int].1,
                        member_path(path@, map@[i as int].0@),
                        Some(map@[i as int].0@),
                        depth + 1,
                        i != map@.len() - 1,
                        coll,
                        bb,
                    );
                    let rest = member_rows(map@, path@, depth + 1, coll, first.1, i + 1);
                    assert(member_rows(map@, path@, depth + 1, coll, bb, i as int) == (
                        first.0 + rest.0,
                        rest.1,
                    ));
                    assert(rows_view(rows@) + rest.0 =~= before + (first.0 + rest.0));
                    lemma_node_rows_budget(
                        map@[i as int].1,
                        member_path(path@, map@[i as int].0@),
                        Some(map@[i as int].0@),
                        depth + 1,
                        i != map@.len() - 1,
                        coll,
                        bb,
                    );
                }
                i = i + 1;
            }
        },
        JsonValue::Array(items) => {
            let last = items.len() - 1;
            let mut i: usize = 0;
            while i < items.len()
                invariant
                    i <= items@.len(),
                    last == items@.len() - 1,
                    *value == JsonValue::Array(*items),
                    coll == strs_view(collapsed@),
                    *budget <= b1,
                    depth + 1 + b1 <= usize::MAX,
                    kids == item_rows(items@, path@, depth + 1, coll, b1, 0),
                    rows_view(rows@) + item_rows(
                        items@,
                        path@,
                        depth + 1,
                        coll,
                        *budget as nat,
                        i as int,
                    ).0 == rows1 + kids.0,
                    item_rows(items@, path@, depth + 1, coll, *budget as nat, i as int).1
                        == kids.1,
                decreases items@.len() - i,
            {
                let child = child_path(path, "", Some(i));
                let ghost before = rows_view(rows@);
                let ghost bb = *budget as nat;
                proof {
                    assert(decreases_to!(*value => (*value)->Array_0));
                    assert((*value)->Array_0 == *items);
                    assert(decreases_to!(*items => items@));
                    assert(decreases_to!(items@ => items@[i as int]));
                    assert(decreases_to!(*value => items@[i as int]));
                }
                push_node(
                    rows,
                    budget,
                    &items[i],
                    child.as_str(),
                    None,
                    depth + 1,
                    i != last,
                    collapsed,
                );
                proof {
                    let first = node_rows(
                        items@[i as int],
                        item_path(path@, i as nat),
                        None,
                        depth + 1,
                        i != items@.len() - 1,
                        coll,
                        bb,
                    );
                    let rest = item_rows(items@, path@, depth + 1, coll, first.1, i + 1);
                    assert(item_rows(items@, path@, depth + 1, coll, bb, i as int) == (
                        first.0 + rest.0,
                        rest.1,
                    ));
                    assert(rows_view(rows@) + rest.0 =~= before + (first.0 + rest.0));
                    lemma_node_rows_budget(
                        items@[i as int],
                        item_path(path@, i as nat),
                        None,
                        depth + 1,
                        i != items@.len() - 1,
                        coll,
                        bb,
                    );
                }
                i = i + 1;
            }
        },
        _ => {},
    }
    assert(rows_view(rows@) == rows1 + kids.0);
    assert(*budget as nat == kids.1);
    if *budget == 0 {
        assert(rows_view(rows@) =~= rows0 + (seq![head@] + kids.0));
        return;
    }
    let mut text = close.to_string();
    push_tail(&mut text, comma);
    let row = TreeRow { depth, toggle: None, key: None, text, count: None, tone: Tone::Muted };
    let ghost before = rows_view(rows@);
    rows.push(row);
    assert(rows_view(rows@) =~= before.push(row@));
    assert(before.push(row@) =~= rows0 + (seq![head@] + kids.0 + seq![row@]));
}

/// A node's rows never leave more budget than they were given, and there
/// are at most two rows (one opening, one closing) per unit of budget spent.
proof fn lemma_node_rows_budget(
    v: JsonValue,
    path: Seq<char>,
    key: Option<Seq<char>>,
    depth: int,
    comma: bool,
    collapsed: Seq<Seq<char>>,
    budget: nat,
)
    ensures
        node_rows(v, path, key, depth, comma, collapsed, budget).1 <= budget,
        node_rows(v, path, key, depth, comma, collapsed, budget).0.len() <= 2 * (budget
            - node_rows(v, path, key, depth, comma, collapsed, budget).1),
    decreases v, 0int,
{
    if budget > 0 && is_container_spec(v) && !collapsed.contains(path) {
        let left = (budget - 1) as nat;
        match v {
            JsonValue::Object(m) => lemma_member_rows_budget(m@, path, depth + 1, collapsed, left, 0),
            JsonValue::Array(a) => lemma_item_rows_budget(a@, path, depth + 1, collapsed, left, 0),
            _ => {},
        }
    }
}

proof fn lemma_item_rows_budget(
    items: Seq<JsonValue>,
    path: Seq<char>,
    depth: int,
    collapsed: Seq<Seq<char>>,
    budget: nat,
    i: int,
)
    ensures
        item_rows(items, path, depth, collapsed, budget, i).1 <= budget,
        item_rows(items, path, depth, collapsed, budget, i).0.len() <= 2 * (budget - item_rows(
            items,
            path,
            depth,
            collapsed,
            budget,
            i,
        ).1),
    decreases items, items.len() - i,
{
    if 0 <= i < items.len() {
        let first = node_rows(
            items[i],
            item_path(path, i as nat),
            None,
            depth,
            i != items.len() - 1,
            collapsed,
            budget,
        );
        lemma_node_rows_budget(
            items[i],
            item_path(path, i as nat),
            None,
            depth,
            i != items.len() - 1,
            collapsed,
            budget,
        );
        lemma_item_rows_budget(items, path, depth, collapsed, first.1, i + 1);
    }
}

proof fn lemma_member_rows_budget(
    members: Seq<(String, JsonValue)>,
    path: Seq<char>,
    depth: int,
    collapsed: Seq<Seq<char>>,
    budget: nat,
    i: int,
)
    ensures
        member_rows(members, path, depth, collapsed, budget, i).1 <= budget,
        member_rows(members, path, depth, collapsed, budget, i).0.len() <= 2 * (budget
            - member_rows(members, path, depth, collapsed, budget, i).1),
    decreases members, members.len() - i,
{
    if 0 <= i < members.len() {
        let first = node_rows(
            members[i].1,
            member_path(path, members[i].0@),
            Some(members[i].0@),
            depth,
            i != members.len() - 1,
            collapsed,
            budget,
        );
        lemma_node_rows_budget(
            members[i].1,
            member_path(path, members[i].0@),
            Some(members[i].0@),
            depth,
            i != members.len() - 1,
            collapsed,
            budget,
        );
        lemma_member_rows_budget(members, path, depth, collapsed, first.1, i + 1);
    }
}

/// The rows of the whole document, at most [`MAX_ROWS`] nodes of it, and
/// whether that limit cut it short.
pub fn tree_rows(value: &JsonValue, collapsed: &Vec<String>) -> (res: (Vec<TreeRow>, bool))
    ensures
        rows_view(res.0@) == node_rows(
            *value,
            root_path(),
            None,
            0,
            false,
            strs_view(collapsed@),
            MAX_ROWS as nat,
        ).0,
        res.1 == (node_rows(
            *value,
            root_path(),
            None,
            0,
            false,
            strs_view(collapsed@),
            MAX_ROWS as nat,
        ).1 == 0),
{
    let mut rows: Vec<TreeRow> = Vec::new();
    let mut budget: usize = MAX_ROWS;
    proof {
        reveal_strlit("$");
    }
    assert(ROOT@ == root_path());
    push_node(&mut rows, &mut budget, value, ROOT, None, 0, false, collapsed);
    assert(rows_view(rows@) =~= Seq::<RowView>::empty() + node_rows(
        *value,
        root_path(),
        None,
        0,
        false,
        strs_view(collapsed@),
        MAX_ROWS as nat,
    ).0);
    (rows, budget == 0)
}

// ─── Laws ───────────────────────────────────────────────────────────────────

/// However large the document, the tree has at most two rows for each of
/// the [`MAX_ROWS`] nodes it shows.
pub proof fn tree_rows_are_bounded(value: JsonValue, collapsed: Seq<Seq<char>>)
    ensures
        node_rows(value, root_path(), None, 0, false, collapsed, MAX_ROWS as nat).0.len() <= 2
            * MAX_ROWS,
{
    lemma_node_rows_budget(value, root_path(), None, 0, false, collapsed, MAX_ROWS as nat);
}

/// Every chevron in `rows` toggles one of `paths`.
pub open spec fn toggles_within(rows: Seq<RowView>, paths: Seq<Seq<char>>) -> bool {
    forall|k: int|
        0 <= k < rows.len() ==> match (#[trigger] rows[k]).toggle {
            Some((p, _)) => paths.contains(p),
            None => true,
        }
}

proof fn lemma_toggles_widen(rows: Seq<RowView>, p: Seq<Seq<char>>, q: Seq<Seq<char>>)
    requires
        toggles_within(rows, p),
        forall|x: Seq<char>| p.contains(x) ==> q.contains(x),
    ensures
        toggles_within(rows, q),
{
    assert forall|k: int| 0 <= k < rows.len() implies match (#[trigger] rows[k]).toggle {
        Some((x, _)) => q.contains(x),
        None => true,
    } by {
        match rows[k].toggle {
            Some((x, _)) => assert(p.contains(x)),
            None => {},
        }
    }
}

proof fn lemma_toggles_concat(a: Seq<RowView>, b: Seq<RowView>, p: Seq<Seq<char>>)
    requires
        toggles_within(a, p),
        toggles_within(b, p),
    ensures
        toggles_within(a + b, p),
{
    assert forall|k: int| 0 <= k < (a + b).len() implies match (#[trigger] (a + b)[k]).toggle {
        Some((x, _)) => p.contains(x),
        None => true,
    } by {
        if k < a.len() {
            assert((a + b)[k] == a[k]);
        } else {
            assert((a + b)[k] == b[k - a.len()]);
        }
    }
}

proof fn lemma_contains_left(p: Seq<Seq<char>>, q: Seq<Seq<char>>)
    ensures
        forall|x: Seq<char>| p.contains(x) ==> (p + q).contains(x),
        forall|x: Seq<char>| q.contains(x) ==> (p + q).contains(x),
{
    assert forall|x: Seq<char>| p.contains(x) implies (p + q).contains(x) by {
        let i = choose|i: int| 0 <= i < p.len() && p[i] == x;
        assert((p + q)[i] == x);
    }
    assert forall|x: Seq<char>| q.contains(x) implies (p + q).contains(x) by {
        let i = choose|i: int| 0 <= i < q.len() && q[i] == x;
        assert((p + q)[p.len() + i] == x);
    }
}

proof fn lemma_node_toggles(
    v: JsonValue,
    path: Seq<char>,
    key: Option<Seq<char>>,
    depth: int,
    comma: bool,
    collapsed: Seq<Seq<char>>,
    budget: nat,
)
    ensures
        toggles_within(
            node_rows(v, path, key, depth, comma, collapsed, budget).0,
            paths_under(v, path),
        ),
    decreases v, 0int,
{
    let rows = node_rows(v, path, key, depth, comma, collapsed, budget).0;
    let paths = paths_under(v, path);
    if budget > 0 && is_container_spec(v) {
        let left = (budget - 1) as nat;
        let rest = match v {
            JsonValue::Object(m) => member_paths(m@, path, 0),
            JsonValue::Array(a) => item_paths(a@, path, 0),
            _ => Seq::empty(),
        };
        assert(paths == seq![path] + rest);
        assert(paths[0] == path);
        lemma_contains_left(seq![path], rest);
        if !collapsed.contains(path) {
            let kids = children_rows(v, path, depth + 1, collapsed, left);
            match v {
                JsonValue::Object(m) => lemma_member_toggles(m@, path, depth + 1, collapsed, left, 0),
                JsonValue::Array(a) => lemma_item_toggles(a@, path, depth + 1, collapsed, left, 0),
                _ => {},
            }
            lemma_toggles_widen(kids.0, rest, paths);
            let head = rows.take(1);
            assert(toggles_within(head, paths)) by {
                assert(head.len() == 1 && head[0].toggle == Some((path, true)));
            }
            lemma_toggles_concat(head, kids.0, paths);
            if kids.1 != 0 {
                let close = rows.skip(1 + kids.0.len() as int);
                assert(close.len() == 1 && close[0].toggle is None);
                assert(rows =~= head + kids.0 + close);
                lemma_toggles_concat(head + kids.0, close, paths);
            } else {
                assert(rows =~= head + kids.0);
            }
        } else {
            assert(rows.len() == 1 && rows[0].toggle == Some((path, false)));
        }
    }
}

proof fn lemma_item_toggles(
    items: Seq<JsonValue>,
    path: Seq<char>,
    depth: int,
    collapsed: Seq<Seq<char>>,
    budget: nat,
    i: int,
)
    ensures
        toggles_within(
            item_rows(items, path, depth, collapsed, budget, i).0,
            item_paths(items, path, i),
        ),
    decreases items, items.len() - i,
{
    if 0 <= i < items.len() {
        let here = paths_under(items[i], item_path(path, i as nat));
        let rest = item_paths(items, path, i + 1);
        let first = node_rows(
            items[i],
            item_path(path, i as nat),
            None,
            depth,
            i != items.len() - 1,
            collapsed,
            budget,
        );
        lemma_node_toggles(
            items[i],
            item_path(path, i as nat),
            None,
            depth,
            i != items.len() - 1,
            collapsed,
            budget,
        );
        lemma_item_toggles(items, path, depth, collapsed, first.1, i + 1);
        lemma_contains_left(here, rest);
        lemma_toggles_widen(first.0, here, here + rest);
        lemma_toggles_widen(
            item_rows(items, path, depth, collapsed, first.1, i + 1).0,
            rest,
            here + rest,
        );
        lemma_toggles_concat(
            first.0,
            item_rows(items, path, depth, collapsed, first.1, i + 1).0,
            here + rest,
        );
    }
}

proof fn lemma_member_toggles(
    members: Seq<(String, JsonValue)>,
    path: Seq<char>,
    depth: int,
    collapsed: Seq<Seq<char>>,
    budget: nat,
    i: int,
)
    ensures
        toggles_within(
            member_rows(members, path, depth, collapsed, budget, i).0,
            member_paths(members, path, i),
        ),
    decreases members, members.len() - i,
{
    if 0 <= i < members.len() {
        let here = paths_under(members[i].1, member_path(path, members[i].0@));
        let rest = member_paths(members, path, i + 1);
        let first = node_rows(
            members[i].1,
            member_path(path, members[i].0@),
            Some(members[i].0@),
            depth,
            i != members.len() - 1,
            collapsed,
            budget,
        );
        lemma_node_toggles(
            members[i].1,
            member_path(path, members[i].0@),
            Some(members[i].0@),
            depth,
            i != members.len() - 1,
            collapsed,
            budget,
        );
        lemma_member_toggles(members, path, depth, collapsed, first.1, i + 1);
        lemma_contains_left(here, rest);
        lemma_toggles_widen(first.0, here, here + rest);
        lemma_toggles_widen(
            member_rows(members, path, depth, collapsed, first.1, i + 1).0,
            rest,
            here + rest,
        );
        lemma_toggles_concat(
            first.0,
            member_rows(members, path, depth, collapsed, first.1, i + 1).0,
            here + rest,
        );
    }
}

/// Every chevron of the tree folds or unfolds a path that
/// [`container_paths`] lists.
pub proof fn chevrons_toggle_container_paths(value: JsonValue, collapsed: Seq<Seq<char>>)
    ensures
        toggles_within(
            node_rows(value, root_path(), None, 0, false, collapsed, MAX_ROWS as nat).0,
            paths_under(value, root_path()),
        ),
{
    lemma_node_toggles(value, root_path(), None, 0, false, collapsed, MAX_ROWS as nat);
}

/// The root is listed among the collapsible paths exactly when it folds.
pub proof fn root_listed_iff_it_folds(value: JsonValue)
    ensures
        paths_under(value, root_path()).contains(root_path()) == is_container_spec(value),
{
    if is_container_spec(value) {
        assert(paths_under(value, root_path())[0] == root_path());
    }
}

} // verus!
