//! A YAML document as a tree of plain values.

use serde_yaml::Value;
use vstd::prelude::*;

verus! {

/// One node of a parsed YAML document.
#[derive(Debug, PartialEq, Eq)]
pub enum YamlNode {
    Null,
    Bool(bool),
    /// A number, kept as the text it prints as.
    Number(String),
    Text(String),
    Sequence(Vec<YamlNode>),
    /// Key/value pairs in document order.
    Mapping(Vec<(YamlNode, YamlNode)>),
    /// A node carrying a `!tag`.
    Tagged(String, Box<YamlNode>),
}

/// The mathematical value of a [`YamlNode`].
pub ghost enum YamlTree {
    Null,
    Bool(bool),
    Number(Seq<char>),
    Text(Seq<char>),
    Sequence(Seq<YamlTree>),
    Mapping(Seq<(YamlTree, YamlTree)>),
    Tagged(Seq<char>, Box<YamlTree>),
}

impl YamlNode {
    /// The tree this node stands for.
    pub open spec fn tree(self) -> YamlTree
        decreases self,
    {
        match self {
            YamlNode::Null => YamlTree::Null,
            YamlNode::Bool(b) => YamlTree::Bool(b),
            YamlNode::Number(n) => YamlTree::Number(n@),
            YamlNode::Text(s) => YamlTree::Text(s@),
            YamlNode::Sequence(items) => YamlTree::Sequence(
                Seq::new(
                    items@.len(),
                    |i: int|
                        if 0 <= i < items@.len() {
                            items[i].tree()
                        } else {
                            YamlTree::Null
                        },
                ),
            ),
            YamlNode::Mapping(entries) => YamlTree::Mapping(
                Seq::new(
                    entries@.len(),
                    |i: int|
                        if 0 <= i < entries@.len() {
                            (entries[i].0.tree(), entries[i].1.tree())
                        } else {
                            (YamlTree::Null, YamlTree::Null)
                        },
                ),
            ),
            YamlNode::Tagged(tag, inner) => YamlTree::Tagged(tag@, Box::new(inner.tree())),
        }
    }
}

/// The trees of the key/value pairs `entries`.
pub open spec fn entry_trees(entries: Seq<(YamlNode, YamlNode)>) -> Seq<(YamlTree, YamlTree)> {
    Seq::new(entries.len(), |i: int| (entries[i].0@, entries[i].1@))
}

impl View for YamlNode {
    type V = YamlTree;

    open spec fn view(&self) -> YamlTree {
        self.tree()
    }
}

/// `t` with every tag around it taken off.
pub open spec fn untagged(t: YamlTree) -> YamlTree
    decreases t,
{
    match t {
        YamlTree::Tagged(_, inner) => untagged(*inner),
        _ => t,
    }
}

/// The string that `t` is, tags aside.
pub open spec fn text_of(t: YamlTree) -> Option<Seq<char>> {
    match untagged(t) {
        YamlTree::Text(s) => Some(s),
        _ => None,
    }
}

/// The entries of `t` where it is a mapping, tags aside; an empty node counts
/// as a mapping without entries.
pub open spec fn fields_of(t: YamlTree) -> Option<Seq<(YamlTree, YamlTree)>> {
    match untagged(t) {
        YamlTree::Mapping(entries) => Some(entries),
        YamlTree::Null => Some(Seq::empty()),
        _ => None,
    }
}

/// The node under `node`'s tags.
pub fn untag(node: &YamlNode) -> (inner: &YamlNode)
    ensures
        inner@ == untagged(node@),
        !(inner@ is Tagged),
    decreases node,
{
    match node {
        YamlNode::Tagged(_, boxed) => untag(boxed),
        _ => node,
    }
}

/// A mapping node's tree holds the trees of its entries.
pub proof fn lemma_mapping_tree(entries: Vec<(YamlNode, YamlNode)>)
    ensures
        YamlNode::Mapping(entries)@ == YamlTree::Mapping(entry_trees(entries@)),
{
    assert(YamlNode::Mapping(entries)@->Mapping_0 =~= entry_trees(entries@));
}

/// `serde_yaml::Value`, the parser's own tree; nothing inside it is seen here.
#[verifier::external_type_specification]
#[verifier::external_body]
pub struct ExValue(serde_yaml::Value);

/// `serde_yaml::Error`, what the parser says of a text it rejects.
#[verifier::external_type_specification]
#[verifier::external_body]
pub struct ExError(serde_yaml::Error);

/// The document that the YAML parser reads from `text`, or `None` where it
/// rejects the text.
pub uninterp spec fn yaml_document(text: Seq<char>) -> Option<YamlTree>;

/// The tree that a parsed YAML value holds.
pub uninterp spec fn value_tree(value: Value) -> YamlTree;

/// Calls `serde_yaml::from_str` for a `serde_yaml::Value`. The contract only
/// names the outcome: the parser succeeds exactly where [`yaml_document`] is
/// `Some`, and the value it returns then holds that document.
#[verifier::external_body]
fn parse_value(text: &str) -> (r: Result<Value, serde_yaml::Error>)
    ensures
        match r {
            Ok(value) => yaml_document(text@) == Some(value_tree(value)),
            Err(_) => yaml_document(text@) is None,
        },
{
    serde_yaml::from_str::<Value>(text)
}

/// Moves a `serde_yaml::Value` into a [`YamlNode`], variant by variant; a
/// number and a tag are kept as the text that `serde_yaml` prints for them.
/// The contract says that the node stands for the tree the value holds.
#[verifier::external_body]
fn lower(value: Value) -> (node: YamlNode)
    ensures
        node@ == value_tree(value),
{
    match value {
        Value::Null => YamlNode::Null,
        Value::Bool(b) => YamlNode::Bool(b),
        Value::Number(n) => YamlNode::Number(n.to_string()),
        Value::String(s) => YamlNode::Text(s),
        Value::Sequence(items) => YamlNode::Sequence(items.into_iter().map(lower).collect()),
        Value::Mapping(entries) => {
            YamlNode::Mapping(entries.into_iter().map(|(k, v)| (lower(k), lower(v))).collect())
        },
        Value::Tagged(t) => YamlNode::Tagged(t.tag.to_string(), Box::new(lower(t.value))),
    }
}

/// Calls `to_string` on a `serde_yaml::Error`: the parser's message, which
/// carries the position where it has one. Nothing is claimed of the text.
#[verifier::external_body]
fn error_message(error: &serde_yaml::Error) -> (message: String) {
    error.to_string()
}

/// Parses `text` as one YAML document.
///
/// Succeeds exactly on the texts that the parser accepts, with the node of the
/// document read; on every other text the error is the parser's message.
pub fn parse_document(text: &str) -> (r: Result<YamlNode, String>)
    ensures
        match r {
            Ok(node) => yaml_document(text@) == Some(node@),
            Err(_) => yaml_document(text@) is None,
        },
{
    match parse_value(text) {
        Ok(value) => Ok(lower(value)),
        Err(error) => Err(error_message(&error)),
    }
}

} // verus!
