//! The plain model of one child element of a document scope.

use vstd::prelude::*;
use crate::syn::El;

verus! {

/// The element kinds that the reordering logic distinguishes.  Everything
/// else (comments, whitespace other than line breaks, stray tokens) is
/// `Other` and is carried along untouched.
#[derive(Clone, Copy, PartialEq, Eq, Structural)]
pub enum ElemKind {
    /// `[table]`
    TableHeader,
    /// `[[table]]`
    ArrayHeader,
    /// `key = value`
    Entry,
    /// the key part of an entry or header
    Key,
    /// the value part of an entry
    Value,
    /// a run of line breaks
    Newline,
    /// anything else
    Other,
}

/// One child element of a scope: its classified kind, its extracted
/// (trimmed) name or key, and the underlying syntax element, which the
/// logic never looks inside of.
pub struct Elem {
    pub kind: ElemKind,
    pub name: String,
    pub node: El,
}

/// A section or array-of-sections header.
pub open spec fn is_header_elem(e: Elem) -> bool {
    e.kind == ElemKind::TableHeader || e.kind == ElemKind::ArrayHeader
}

/// A pure blank-line element.
pub open spec fn is_blank_elem(e: Elem) -> bool {
    e.kind == ElemKind::Newline
}

/// A canonical separator element, as the rewriter inserts it: a blank line
/// with no name of its own.
pub open spec fn blankish(e: Elem) -> bool {
    e.kind == ElemKind::Newline && e.name@ == Seq::<char>::empty()
}

} // verus!
