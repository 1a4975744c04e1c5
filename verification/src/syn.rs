//! The trusted boundary to taplo's lossless syntax tree (built on rowan).
//!
//! Verus refuses rowan's generic node types (their `Language` bound cannot
//! be declared here), so the tree is held behind two opaque wrappers of this
//! crate's own: [`Node`] for a syntax node and [`El`] for one child element
//! (node or token).  What the verified code knows of them is captured by
//! uninterpreted names: the sequence of children a node currently holds
//! (`node_elems`), whether a node belongs to a mutable tree
//! (`node_mutable`), and three pure functions of one element — its
//! classified kind (`kind_of`), its children (`children_of`) and its
//! trimmed source text (`text_trimmed_of`) — plus the predicate
//! `elem_blank` for the canonical blank-line token the rewriter inserts.

use vstd::prelude::*;
use crate::elem::ElemKind;

verus! {

/// An opaque handle to one node of taplo's syntax tree.
#[verifier::external_body]
pub struct Node {
    inner: taplo::syntax::SyntaxNode,
}

/// An opaque handle to one child element (node or token) of taplo's syntax
/// tree.
#[verifier::external_body]
pub struct El {
    inner: taplo::syntax::SyntaxElement,
}

/// The children a node currently holds, in document order.
pub uninterp spec fn node_elems(n: Node) -> Seq<El>;

/// Whether the node belongs to a mutable tree (rowan refuses structural
/// edits on immutable trees).
pub uninterp spec fn node_mutable(n: Node) -> bool;

/// The classification of the element's syntax kind, as [`elem_kind`]
/// reads it; a pure function of the element.
pub uninterp spec fn kind_of(e: El) -> ElemKind;

/// The element's children, as [`elem_children`] reads them; a token has
/// none.  A pure function of the element.
pub uninterp spec fn children_of(e: El) -> Seq<El>;

/// The element's source text with surrounding whitespace removed, as
/// [`elem_text_trimmed`] reads it; a pure function of the element.
pub uninterp spec fn text_trimmed_of(e: El) -> Seq<char>;

/// A line-break token holding exactly one canonical blank line — the
/// separator element the rewriter inserts between sections.
pub uninterp spec fn elem_blank(e: El) -> bool;

/// Relies on taplo's `parser::parse` and rowan's `clone_for_update`: parses
/// source text into a full-fidelity syntax tree and returns its root,
/// which belongs to a mutable tree.
#[verifier::external_body]
pub fn parse_mutable(text: &str) -> (r: Node)
    ensures
        node_mutable(r),
{
    Node { inner: taplo::parser::parse(text).into_syntax().clone_for_update() }
}

/// Relies on rowan's `Display` for syntax nodes: the node's full source
/// text.
#[verifier::external_body]
pub fn node_text(root: &Node) -> (r: String)
{
    root.inner.to_string()
}

/// Relies on rowan's `SyntaxNode::children_with_tokens`: yields the node's
/// current children, nodes and tokens alike, in document order.  Distinct
/// children are distinct handles (each occupies its own slot under the
/// node), so the sequence holds no duplicates.
#[verifier::external_body]
pub fn node_children(root: &Node) -> (r: Vec<El>)
    ensures
        r@ == node_elems(*root),
        forall|i: int, j: int| 0 <= i < j < r@.len() ==> r@[i] != r@[j],
{
    root.inner.children_with_tokens().map(|e| El { inner: e }).collect()
}

/// Relies on rowan's `SyntaxElement::kind` and taplo's `SyntaxKind`: tells
/// the variants the logic cares about apart and folds the rest into
/// `Other`.
#[verifier::external_body]
pub fn elem_kind(e: &El) -> (k: ElemKind)
    ensures
        k == kind_of(*e),
{
    match e.inner.kind() {
        taplo::syntax::SyntaxKind::TABLE_HEADER => ElemKind::TableHeader,
        taplo::syntax::SyntaxKind::TABLE_ARRAY_HEADER => ElemKind::ArrayHeader,
        taplo::syntax::SyntaxKind::ENTRY => ElemKind::Entry,
        taplo::syntax::SyntaxKind::KEY => ElemKind::Key,
        taplo::syntax::SyntaxKind::VALUE => ElemKind::Value,
        taplo::syntax::SyntaxKind::NEWLINE => ElemKind::Newline,
        _ => ElemKind::Other,
    }
}

/// Relies on rowan's `NodeOrToken::as_node` and
/// `SyntaxNode::children_with_tokens`: the children of an element that is a
/// node; a token has none.
#[verifier::external_body]
pub fn elem_children(e: &El) -> (r: Vec<El>)
    ensures
        r@ == children_of(*e),
{
    match e.inner.as_node() {
        Some(n) => n.children_with_tokens().map(|c| El { inner: c }).collect(),
        None => Vec::new(),
    }
}

/// Relies on rowan's `text` accessors and `str::trim`: the element's source
/// text with surrounding whitespace removed.
#[verifier::external_body]
pub fn elem_text_trimmed(e: &El) -> (r: String)
    ensures
        r@ == text_trimmed_of(*e),
{
    match &e.inner {
        rowan::NodeOrToken::Node(n) => n.text().to_string().trim().to_string(),
        rowan::NodeOrToken::Token(t) => t.text().trim().to_string(),
    }
}

/// Relies on rowan's `SyntaxNode::splice_children` on a mutable tree, and
/// on taplo's parser for the blank lines: every current child is detached
/// and the node's children become, in order, the named current children
/// (`Some`) and freshly created canonical blank-line tokens (`None`).
/// rowan attaches an element only if it is mutable and, at that moment,
/// parentless: a child of this very node, named once, is detached by the
/// splice itself, and a fresh token is free-standing.  Naming the same
/// child twice would panic inside rowan, which the last `requires` clause
/// rules out; parsing a blank line yields a single line-break token, which
/// is detached from its temporary tree before it is attached here.
#[verifier::external_body]
pub fn replace_children(root: &mut Node, to_insert: Vec<Option<El>>)
    requires
        node_mutable(*old(root)),
        forall|i: int|
            0 <= i < to_insert@.len() ==> (#[trigger] to_insert@[i] matches Some(e) ==> node_elems(
                *old(root),
            ).contains(e)),
        forall|i: int, j: int|
            0 <= i < j < to_insert@.len() ==> !(to_insert@[i] is Some && to_insert@[j] is Some
                && to_insert@[i]->0 == to_insert@[j]->0),
    ensures
        node_mutable(*final(root)),
        node_elems(*final(root)).len() == to_insert@.len(),
        forall|i: int|
            0 <= i < to_insert@.len() ==> match #[trigger] to_insert@[i] {
                Some(e) => node_elems(*final(root))[i] == e,
                None => elem_blank(node_elems(*final(root))[i]),
            },
{
    let n = root.inner.children_with_tokens().count();
    let fresh = || {
        let t = taplo::parser::parse("\n\n").into_syntax().clone_for_update();
        match t.children_with_tokens().next() {
            Some(nl) => { nl.detach(); nl }
            None => rowan::NodeOrToken::Node(t),
        }
    };
    let elems: Vec<taplo::syntax::SyntaxElement> =
        to_insert.into_iter().map(|s| s.map(|e| e.inner).unwrap_or_else(&fresh)).collect();
    root.inner.splice_children(0..n, elems);
}

} // verus!
