//! JSON structural diff: a parsed JSON value becomes a `tate` tree, and two
//! trees are compared with `tate::tree::tree_diff`.
//!
//! JSON objects become one child per key, whose `kind` and identity are the
//! key; scalars (`null` included) become a node whose text and `value`
//! attribute hold the scalar as text; arrays become one child of kind
//! `[array]` per element, without identity, matched by position.

use vstd::prelude::*;

use tate::tree::{TreeDiff, TreeNode};

verus! {

#[verifier::external_type_specification]
#[verifier::external_body]
pub struct ExTreeNode(TreeNode);

#[verifier::external_type_specification]
#[verifier::external_body]
pub struct ExTreeDiff(TreeDiff);

#[verifier::external_type_specification]
#[verifier::external_body]
pub struct ExJsonValue(serde_json::Value);

/// A parsed JSON value: numbers keep the text that the parser writes for
/// them, objects their entries in the parser's key order.
#[derive(Debug)]
pub enum JsonValue {
    Null,
    Bool(bool),
    Number(String),
    Str(String),
    Array(Vec<JsonValue>),
    Object(Vec<(String, JsonValue)>),
}

/// The mathematical value of a [`JsonValue`].
pub enum JsonView {
    Null,
    Bool(bool),
    Number(Seq<char>),
    Str(Seq<char>),
    Array(Seq<JsonView>),
    Object(Seq<(Seq<char>, JsonView)>),
}

/// The view of a JSON value.
pub open spec fn json_view(v: JsonValue) -> JsonView
    decreases v,
{
    match v {
        JsonValue::Null => JsonView::Null,
        JsonValue::Bool(b) => JsonView::Bool(b),
        JsonValue::Number(n) => JsonView::Number(n@),
        JsonValue::Str(s) => JsonView::Str(s@),
        JsonValue::Array(items) => JsonView::Array(
            Seq::new(items@.len(), |i: int| if 0 <= i < items@.len() { json_view(items@[i]) } else { JsonView::Null }),
        ),
        JsonValue::Object(entries) => JsonView::Object(
            Seq::new(
                entries@.len(),
                |i: int| if 0 <= i < entries@.len() {
                    (entries@[i].0@, json_view(entries@[i].1))
                } else {
                    (Seq::empty(), JsonView::Null)
                },
            ),
        ),
    }
}

/// What a `tate` tree node holds: kind, identity, label, attributes, text
/// and children.
pub struct TreeView {
    pub kind: Seq<char>,
    pub identity: Option<Seq<char>>,
    pub label: Seq<char>,
    pub attributes: Seq<(Seq<char>, Seq<char>)>,
    pub text: Seq<char>,
    pub children: Seq<TreeView>,
}

/// What a `tate` tree node holds.
pub uninterp spec fn tree_contents(t: TreeNode) -> TreeView;

/// `TreeNode::new`: a node of the given kind and nothing else.
#[verifier::external_body]
fn tree_new(kind: &str) -> (r: TreeNode)
    ensures
        tree_contents(r) == (TreeView {
            kind: kind@,
            identity: None,
            label: Seq::empty(),
            attributes: Seq::empty(),
            text: Seq::empty(),
            children: Seq::empty(),
        }),
{
    TreeNode::new(kind)
}

/// `TreeNode::with_identity`: the node with its identity set.
#[verifier::external_body]
fn tree_with_identity(n: TreeNode, id: &str) -> (r: TreeNode)
    ensures
        tree_contents(r) == (TreeView { identity: Some(id@), ..tree_contents(n) }),
{
    n.with_identity(id)
}

/// `TreeNode::with_text`: the node with its text set.
#[verifier::external_body]
fn tree_with_text(n: TreeNode, text: &str) -> (r: TreeNode)
    ensures
        tree_contents(r) == (TreeView { text: text@, ..tree_contents(n) }),
{
    n.with_text(text)
}

/// `TreeNode::with_attr`: the node with one more attribute at the end.
#[verifier::external_body]
fn tree_with_attr(n: TreeNode, key: &str, val: &str) -> (r: TreeNode)
    ensures
        tree_contents(r) == (TreeView {
            attributes: tree_contents(n).attributes.push((key@, val@)),
            ..tree_contents(n)
        }),
{
    n.with_attr(key, val)
}

/// `TreeNode::with_child`: the node with one more child at the end.
#[verifier::external_body]
fn tree_with_child(n: TreeNode, child: TreeNode) -> (r: TreeNode)
    ensures
        tree_contents(r) == (TreeView {
            children: tree_contents(n).children.push(tree_contents(child)),
            ..tree_contents(n)
        }),
{
    n.with_child(child)
}

/// The node for a scalar given as text: that text and a `value` attribute.
pub open spec fn scalar_node(kind: Seq<char>, s: Seq<char>) -> TreeView {
    TreeView {
        kind: kind,
        identity: None,
        label: Seq::empty(),
        attributes: seq![("value"@, s)],
        text: s,
        children: Seq::empty(),
    }
}

/// The tree of a JSON value under the given kind.
pub open spec fn to_tree_spec(kind: Seq<char>, v: JsonView) -> TreeView
    decreases v,
{
    let base = TreeView {
        kind: kind,
        identity: None,
        label: Seq::empty(),
        attributes: Seq::empty(),
        text: Seq::empty(),
        children: Seq::empty(),
    };
    match v {
        JsonView::Object(entries) => TreeView {
            children: Seq::new(
                entries.len(),
                |i: int| if 0 <= i < entries.len() {
                    TreeView { identity: Some(entries[i].0), ..to_tree_spec(entries[i].0, entries[i].1) }
                } else {
                    base
                },
            ),
            ..base
        },
        JsonView::Array(items) => TreeView {
            children: Seq::new(
                items.len(),
                |i: int| if 0 <= i < items.len() { to_tree_spec("[array]"@, items[i]) } else { base },
            ),
            ..base
        },
        JsonView::Str(s) => scalar_node(kind, s),
        JsonView::Number(s) => scalar_node(kind, s),
        JsonView::Bool(b) => scalar_node(kind, if b { "true"@ } else { "false"@ }),
        JsonView::Null => scalar_node(kind, "null"@),
    }
}

/// Convert a JSON value into a `tate` tree node with the given kind.
pub fn to_tree_node(kind: &str, value: &JsonValue) -> (r: TreeNode)
    ensures
        tree_contents(r) == to_tree_spec(kind@, json_view(*value)),
    decreases value,
{
    let node = tree_new(kind);
    match value {
        JsonValue::Object(entries) => {
            let ghost jv = json_view(*value);
            let mut node = node;
            let mut i: usize = 0;
            while i < entries.len()
                invariant
                    jv == json_view(*value),
                    *value == JsonValue::Object(*entries),
                    i <= entries@.len(),
                    tree_contents(node).kind == kind@,
                    tree_contents(node).identity is None,
                    tree_contents(node).label == Seq::<char>::empty(),
                    tree_contents(node).attributes == Seq::<(Seq<char>, Seq<char>)>::empty(),
                    tree_contents(node).text == Seq::<char>::empty(),
                    tree_contents(node).children == to_tree_spec(kind@, jv).children.take(i as int),
                decreases entries@.len() - i,
            {
                let (key, val) = &entries[i];
                assert(decreases_to!(*value => entries@[i as int].1));
                let child = to_tree_node(key.as_str(), val);
                let child = tree_with_identity(child, key.as_str());
                let ghost before = tree_contents(node).children;
                node = tree_with_child(node, child);
                assert(tree_contents(node).children =~= to_tree_spec(kind@, jv).children.take(i as int + 1));
                i += 1;
            }
            assert(to_tree_spec(kind@, jv).children.take(i as int) =~= to_tree_spec(kind@, jv).children);
            node
        },
        JsonValue::Array(items) => {
            let ghost jv = json_view(*value);
            let mut node = node;
            let mut i: usize = 0;
            while i < items.len()
                invariant
                    jv == json_view(*value),
                    *value == JsonValue::Array(*items),
                    i <= items@.len(),
                    tree_contents(node).kind == kind@,
                    tree_contents(node).identity is None,
                    tree_contents(node).label == Seq::<char>::empty(),
                    tree_contents(node).attributes == Seq::<(Seq<char>, Seq<char>)>::empty(),
                    tree_contents(node).text == Seq::<char>::empty(),
                    tree_contents(node).children == to_tree_spec(kind@, jv).children.take(i as int),
                decreases items@.len() - i,
            {
                assert(decreases_to!(*value => items@[i as int]));
                let child = to_tree_node("[array]", &items[i]);
                node = tree_with_child(node, child);
                assert(tree_contents(node).children =~= to_tree_spec(kind@, jv).children.take(i as int + 1));
                i += 1;
            }
            assert(to_tree_spec(kind@, jv).children.take(i as int) =~= to_tree_spec(kind@, jv).children);
            node
        },
        JsonValue::Str(s) => {
            let node = tree_with_text(node, s.as_str());
            tree_with_attr(node, "value", s.as_str())
        },
        JsonValue::Number(n) => {
            let node = tree_with_text(node, n.as_str());
            tree_with_attr(node, "value", n.as_str())
        },
        JsonValue::Bool(b) => {
            let s = if *b { "true" } else { "false" };
            let node = tree_with_text(node, s);
            tree_with_attr(node, "value", s)
        },
        JsonValue::Null => {
            let node = tree_with_text(node, "null");
            tree_with_attr(node, "value", "null")
        },
    }
}

} // verus!

verus! {

/// Kind of a tree change.
pub enum ChangeKindView {
    Added,
    Removed,
    Modified,
}

/// One tree change: its kind, the changed node's element type, identity,
/// label and path, and its attribute changes (name, old, new).
pub struct ChangeView {
    pub kind: ChangeKindView,
    pub elem_type: Seq<char>,
    pub id: Seq<char>,
    pub label: Seq<char>,
    pub path: Seq<Seq<char>>,
    pub changed_attrs: Seq<(Seq<char>, Seq<char>, Seq<char>)>,
}

/// What a `tate` tree diff holds: its list of changes.
pub uninterp spec fn tree_diff_contents(d: TreeDiff) -> Seq<ChangeView>;

/// The changes that `tate::tree::tree_diff` reports between two trees.
pub uninterp spec fn tree_diff_spec(a: TreeView, b: TreeView) -> Seq<ChangeView>;

/// `tate::tree::tree_diff`: the structural changes between two trees, named.
/// What its source shows is stated beside the name: a tree compared with an
/// equal tree changes nowhere, so no change is reported.
#[verifier::external_body]
fn tate_tree_diff(a: &TreeNode, b: &TreeNode) -> (r: TreeDiff)
    ensures
        tree_diff_contents(r) == tree_diff_spec(tree_contents(*a), tree_contents(*b)),
        tree_contents(*a) == tree_contents(*b) ==> tree_diff_contents(r) == Seq::<ChangeView>::empty(),
{
    tate::tree::tree_diff(a, b)
}

/// The view of a parse outcome.
pub open spec fn parsed_view(p: Result<JsonValue, String>) -> Result<JsonView, Seq<char>> {
    match p {
        Ok(v) => Ok(json_view(v)),
        Err(e) => Err(e@),
    }
}

/// What `serde_json` makes of a JSON text: the value it parses, or the text
/// of the error it reports.
pub uninterp spec fn json_parse_spec(text: Seq<char>) -> Result<JsonView, Seq<char>>;

/// A `serde_json` value as this crate's JSON value, variant by variant:
/// numbers by the text that `serde_json` writes for them, objects in the
/// order of their map.
#[verifier::external_body]
fn from_serde(v: &serde_json::Value) -> JsonValue {
    match v {
        serde_json::Value::Null => JsonValue::Null,
        serde_json::Value::Bool(b) => JsonValue::Bool(*b),
        serde_json::Value::Number(n) => JsonValue::Number(n.to_string()),
        serde_json::Value::String(t) => JsonValue::Str(t.clone()),
        serde_json::Value::Array(items) => JsonValue::Array(items.iter().map(from_serde).collect()),
        serde_json::Value::Object(map) => JsonValue::Object(map.iter().map(|(k, x)| (k.clone(), from_serde(x))).collect()),
    }
}

/// `serde_json::from_str::<serde_json::Value>`: the parsed value, or the
/// error's message. The outcome is named; it depends on the text alone.
#[verifier::external_body]
fn parse_json(text: &str) -> (r: Result<JsonValue, String>)
    ensures
        parsed_view(r) == json_parse_spec(text@),
{
    match serde_json::from_str::<serde_json::Value>(text) {
        Ok(v) => Ok(from_serde(&v)),
        Err(e) => Err(e.to_string()),
    }
}

fn prefixed(prefix: &str, e: &String) -> (r: String)
    ensures
        r@ == prefix@ + e@,
{
    let mut r = String::from_str(prefix);
    r.append(e.as_str());
    r
}

/// Turn a parsed JSON document into a `tate` tree with kind `root`; a parse
/// error is reported as `parse: <error>`.
pub fn tree_of_parsed(parsed: Result<JsonValue, String>) -> (r: Result<TreeNode, String>)
    ensures
        match parsed_view(parsed) {
            Ok(v) => r matches Ok(t) && tree_contents(t) == to_tree_spec("root"@, v),
            Err(e) => r matches Err(m) && m@ == "parse: "@ + e,
        },
{
    match parsed {
        Ok(v) => Ok(to_tree_node("root", &v)),
        Err(e) => Err(prefixed("parse: ", &e)),
    }
}

/// Parse a JSON string into a `tate` tree with kind `root`; a parse error is
/// reported as `parse: <error>`.
pub fn json_to_tree(json: &str) -> (r: Result<TreeNode, String>)
    ensures
        match json_parse_spec(json@) {
            Ok(v) => r matches Ok(t) && tree_contents(t) == to_tree_spec("root"@, v),
            Err(e) => r matches Err(m) && m@ == "parse: "@ + e,
        },
{
    tree_of_parsed(parse_json(json))
}

/// Diff two parsed JSON documents and return the structural changes; a parse
/// error of either side is reported as `parse A: <error>` or
/// `parse B: <error>`, side A first. A document compared with an equal one
/// has no changes.
pub fn diff_parsed(a: Result<JsonValue, String>, b: Result<JsonValue, String>) -> (r: Result<TreeDiff, String>)
    ensures
        match (parsed_view(a), parsed_view(b)) {
            (Err(e), _) => r matches Err(m) && m@ == "parse A: "@ + e,
            (Ok(_), Err(e)) => r matches Err(m) && m@ == "parse B: "@ + e,
            (Ok(va), Ok(vb)) => r matches Ok(d) && tree_diff_contents(d) == tree_diff_spec(
                to_tree_spec("root"@, va),
                to_tree_spec("root"@, vb),
            ) && (va == vb ==> tree_diff_contents(d) == Seq::<ChangeView>::empty()),
        },
{
    let va = match a {
        Ok(v) => v,
        Err(e) => return Err(prefixed("parse A: ", &e)),
    };
    let vb = match b {
        Ok(v) => v,
        Err(e) => return Err(prefixed("parse B: ", &e)),
    };
    let ta = to_tree_node("root", &va);
    let tb = to_tree_node("root", &vb);
    Ok(tate_tree_diff(&ta, &tb))
}

/// Diff two JSON strings and return the structural changes; a parse error of
/// either side is reported as `parse A: <error>` or `parse B: <error>`, side
/// A first. A text compared with itself has no changes.
pub fn json_diff(a: &str, b: &str) -> (r: Result<TreeDiff, String>)
    ensures
        match (json_parse_spec(a@), json_parse_spec(b@)) {
            (Err(e), _) => r matches Err(m) && m@ == "parse A: "@ + e,
            (Ok(_), Err(e)) => r matches Err(m) && m@ == "parse B: "@ + e,
            (Ok(va), Ok(vb)) => r matches Ok(d) && tree_diff_contents(d) == tree_diff_spec(
                to_tree_spec("root"@, va),
                to_tree_spec("root"@, vb),
            ) && (va == vb ==> tree_diff_contents(d) == Seq::<ChangeView>::empty()),
        },
        a@ == b@ ==> (r is Ok <==> json_parse_spec(a@) is Ok),
        a@ == b@ ==> (r matches Ok(d) ==> tree_diff_contents(d) == Seq::<ChangeView>::empty()),
{
    let pa = parse_json(a);
    if pa.is_err() {
        return diff_parsed(pa, Ok(JsonValue::Null));
    }
    diff_parsed(pa, parse_json(b))
}

} // verus!
