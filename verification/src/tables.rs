//! The table collection and the rewriter at section granularity.

use vstd::prelude::*;
use vstd::multiset::Multiset;
use crate::elem::{is_blank_elem, Elem, ElemKind};
use crate::keys::{get_key, group_key_of};
use crate::order::{calculate_order, find_last_str, is_calculated_order, last_index_of, lemma_last_index_of, views};
use crate::segment::{header_name_of, seg_shape, segment_headers, segs_view};
use crate::syn::{children_of, elem_blank, elem_children, elem_kind, elem_text_trimmed, kind_of,
    node_children, node_elems, node_mutable, replace_children, text_trimmed_of, El, Node};

verus! {

/// What can go wrong during a reorder: a name the computed order asks for
/// has no segment (possible only when the collection was tampered with, as
/// [`Tables::reorder`] promises success on a well-formed collection).
#[derive(Clone, Copy, PartialEq, Eq, Structural, Debug)]
pub enum TableError {
    NameNotFound,
}

/// The trimmed text of the first key among `kids`, or empty if none.
pub open spec fn first_key_text(kids: Seq<El>) -> Seq<char>
    decreases kids.len(),
{
    if kids.len() == 0 {
        Seq::<char>::empty()
    } else if kind_of(kids[0]) == ElemKind::Key {
        text_trimmed_of(kids[0])
    } else {
        first_key_text(kids.drop_first())
    }
}

/// The name a header element carries: the trimmed text of its first key
/// child when its kind is a section or array-of-sections header, else
/// empty.
pub open spec fn spec_table_name(e: El) -> Seq<char> {
    if kind_of(e) == ElemKind::TableHeader || kind_of(e) == ElemKind::ArrayHeader {
        first_key_text(children_of(e))
    } else {
        Seq::<char>::empty()
    }
}

/// The name [`classify`] extracts: the trimmed text of the first key child
/// for headers and entries, else empty.
pub open spec fn spec_elem_name(e: El) -> Seq<char> {
    if kind_of(e) == ElemKind::TableHeader || kind_of(e) == ElemKind::ArrayHeader || kind_of(e)
        == ElemKind::Entry {
        first_key_text(children_of(e))
    } else {
        Seq::<char>::empty()
    }
}

/// The text of the first key child of `e`, or empty if there is none.
fn key_child_text(e: &El) -> (r: String)
    ensures
        r@ == first_key_text(children_of(*e)),
{
    let kids = elem_children(e);
    let ghost all = children_of(*e);
    proof {
        assert(all.skip(0) =~= all);
    }
    let mut i: usize = 0;
    while i < kids.len()
        invariant
            i <= all.len(),
            kids@ == all,
            all == children_of(*e),
            first_key_text(all) == first_key_text(all.skip(i as int)),
        decreases kids@.len() - i,
    {
        if elem_kind(&kids[i]) == ElemKind::Key {
            proof {
                assert(all.skip(i as int)[0] == all[i as int]);
                assert(kind_of(all[i as int]) == ElemKind::Key);
                assert(first_key_text(all.skip(i as int)) == text_trimmed_of(all[i as int]));
                assert(first_key_text(children_of(*e)) == text_trimmed_of(all[i as int]));
            }
            let r = elem_text_trimmed(&kids[i]);
            proof {
                assert(r@ == text_trimmed_of(kids@[i as int]));
                assert(kids@[i as int] == all[i as int]);
                assert(r@ == first_key_text(children_of(*e)));
            }
            return r;
        }
        proof {
            assert(all.skip(i as int)[0] == all[i as int]);
            assert(kind_of(all[i as int]) != ElemKind::Key);
            assert(all.skip(i as int).drop_first() =~= all.skip(i as int + 1));
            assert(first_key_text(all.skip(i as int)) == first_key_text(all.skip(i as int + 1)));
        }
        i = i + 1;
    }
    proof {
        assert(all.skip(all.len() as int).len() == 0);
    }
    String::new()
}

/// The name of a section or array-of-sections header element, or an empty
/// string for any other element.
pub fn get_table_name(entry: &El) -> (r: String)
    ensures
        r@ == spec_table_name(*entry),
{
    let k = elem_kind(entry);
    if k == ElemKind::TableHeader || k == ElemKind::ArrayHeader {
        key_child_text(entry)
    } else {
        String::new()
    }
}

/// Classifies raw child elements into the plain model the logic works on;
/// the underlying elements are carried through unchanged, in order, each
/// tagged with its kind and its extracted name.
pub fn classify(children: Vec<El>) -> (r: Vec<Elem>)
    ensures
        r@.len() == children@.len(),
        forall|i: int| 0 <= i < r@.len() ==> (#[trigger] r@[i]).node == children@[i],
        forall|i: int| 0 <= i < r@.len() ==> (#[trigger] r@[i]).kind == kind_of(children@[i]),
        forall|i: int| 0 <= i < r@.len() ==> (#[trigger] r@[i]).name@ == spec_elem_name(children@[i]),
{
    let ghost all = children@;
    let mut out: Vec<Elem> = Vec::new();
    let mut rest = children;
    while rest.len() > 0
        invariant
            out@.len() + rest@.len() == all.len(),
            forall|i: int| 0 <= i < out@.len() ==> (#[trigger] out@[i]).node == all[i],
            forall|i: int| 0 <= i < out@.len() ==> (#[trigger] out@[i]).kind == kind_of(all[i]),
            forall|i: int| 0 <= i < out@.len() ==> (#[trigger] out@[i]).name@ == spec_elem_name(all[i]),
            rest@ == all.skip(out@.len() as int),
        decreases rest@.len(),
    {
        let ghost pre = rest@;
        let c = rest.remove(0);
        let k = elem_kind(&c);
        let nm = if k == ElemKind::TableHeader || k == ElemKind::ArrayHeader || k
            == ElemKind::Entry {
            key_child_text(&c)
        } else {
            String::new()
        };
        out.push(Elem { kind: k, name: nm, node: c });
        proof {
            assert(rest@ =~= all.skip(out@.len() as int));
        }
    }
    out
}

/// A scope partitioned into named, contiguous segments: `headers[i]` is the
/// name of segment `table_set[i]`.
pub struct Tables {
    pub headers: Vec<String>,
    pub table_set: Vec<Vec<Elem>>,
}

impl Tables {
    /// The stored segments, as sequences.
    pub open spec fn segs(self) -> Seq<Seq<Elem>> {
        segs_view(self.table_set@)
    }

    /// The stored names, as sequences.
    pub open spec fn names(self) -> Seq<Seq<char>> {
        views(self.headers@)
    }

    /// Every stored element, in stored order.
    pub open spec fn elems(self) -> Seq<Elem> {
        self.segs().flatten()
    }

    /// Well-formed: one name per segment, segments shaped as a
    /// header-granularity segmentation, each name that of its segment's
    /// leading header.
    pub open spec fn wf(self) -> bool {
        &&& self.headers@.len() == self.table_set@.len()
        &&& seg_shape(self.segs(), false)
        &&& forall|i: int|
            0 <= i < self.headers@.len() ==> (#[trigger] self.headers@[i])@ == header_name_of(
                self.segs()[i],
            )
    }

    /// Every stored element is a child of `root`.
    pub open spec fn from_tree(self, root: Node) -> bool {
        forall|i: int, j: int|
            0 <= i < self.segs().len() && 0 <= j < self.segs()[i].len() ==> node_elems(
                root,
            ).contains((#[trigger] self.segs()[i][j]).node)
    }

    /// Partitions already-classified children into named segments.
    pub fn from_elems(children: Vec<Elem>) -> (t: Tables)
        ensures
            t.wf(),
            t.elems() == children@,
    {
        let (names, segs) = segment_headers(children);
        Tables { headers: names, table_set: segs }
    }

    /// Reads a scope's children off the tree and partitions them into named
    /// segments; the tree itself is left untouched.
    pub fn from_ast(root_ast: &mut Node) -> (t: Tables)
        ensures
            *final(root_ast) == *old(root_ast),
            t.wf(),
            t.elems().map_values(|e: Elem| e.node) == node_elems(*old(root_ast)),
            t.from_tree(*old(root_ast)),
            t.distinct_nodes(),
    {
        let children = node_children(root_ast);
        let elems = classify(children);
        let t = Tables::from_elems(elems);
        proof {
            assert(t.elems().map_values(|e: Elem| e.node) =~= node_elems(*old(root_ast)));
            assert forall|a: int, b: int, c: int, d: int|
                0 <= a < t.segs().len() && 0 <= b < t.segs()[a].len() && 0 <= c < t.segs().len()
                    && 0 <= d < t.segs()[c].len() && (a != c || b != d) implies (
            #[trigger] t.segs()[a][b]).node != (#[trigger] t.segs()[c][d]).node by {
                lemma_flat_pos(t.segs(), a, b);
                lemma_flat_pos(t.segs(), c, d);
                if a < c || (a == c && b < d) {
                    lemma_flat_pos_lt(t.segs(), a, b, c, d);
                } else {
                    lemma_flat_pos_lt(t.segs(), c, d, a, b);
                }
                let x1 = flat_pos(t.segs(), a, b);
                let x2 = flat_pos(t.segs(), c, d);
                assert(t.elems().map_values(|e2: Elem| e2.node)[x1] == t.elems()[x1].node);
                assert(t.elems().map_values(|e2: Elem| e2.node)[x2] == t.elems()[x2].node);
                assert(node_elems(*old(root_ast))[x1] != node_elems(*old(root_ast))[x2]);
            }
            assert forall|i: int, j: int|
                0 <= i < t.segs().len() && 0 <= j < t.segs()[i].len() implies node_elems(
                *old(root_ast),
            ).contains((#[trigger] t.segs()[i][j]).node) by {
                lemma_flatten_contains(t.segs(), i, j);
                let e = t.segs()[i][j];
                let x = choose|x: int| 0 <= x < t.elems().len() && t.elems()[x] == e;
                assert(t.elems().map_values(|e2: Elem| e2.node)[x] == e.node);
            }
        }
        t
    }

    /// The segment stored under `key`, if any; when several segments share
    /// the name, the later one (the one a by-name lookup reaches).
    pub fn get(&self, key: &String) -> (r: Option<&Vec<Elem>>)
        ensures
            match r {
                Some(seg) => {
                    let j = last_index_of(self.names(), key@);
                    &&& 0 <= j < self.segs().len()
                    &&& seg@ == self.segs()[j]
                },
                None => !(0 <= last_index_of(self.names(), key@) < self.segs().len()),
            },
    {
        match find_last_str(&self.headers, key) {
            Some(j) => {
                if j < self.table_set.len() {
                    Some(&self.table_set[j])
                } else {
                    None
                }
            }
            None => None,
        }
    }
}

/// The blank-line substitution rule fires: the segment ends in a blank
/// line and the group keys of this segment's name and the next one differ.
pub open spec fn norm_fires(name: Seq<char>, next: Seq<char>, seg: Seq<Elem>) -> bool {
    seg.len() > 0 && is_blank_elem(seg.last()) && group_key_of(name) != group_key_of(next)
}

/// The leading-blank drop rule fires: an unnamed segment consisting of a
/// single blank line.
pub open spec fn drop_fires(name: Seq<char>, seg: Seq<Elem>) -> bool {
    name.len() == 0 && seg.len() == 1 && is_blank_elem(seg[0])
}

/// No two stored elements share an underlying syntax element: every
/// handle occurs at one place only.
pub open spec fn distinct_seg_nodes(segs: Seq<Seq<Elem>>) -> bool {
    forall|a: int, b: int, c: int, d: int|
        0 <= a < segs.len() && 0 <= b < segs[a].len() && 0 <= c < segs.len() && 0 <= d
            < segs[c].len() && (a != c || b != d) ==> (#[trigger] segs[a][b]).node != (
        #[trigger] segs[c][d]).node
}

/// `out` is the concatenation of the named segments in the order `ord`
/// asks for them, each name resolved to its last segment and consumed.  A
/// dropped leading blank contributes nothing; a fired substitution keeps
/// the segment's elements but replaces its trailing blank line by a blank
/// model element (same underlying handle, to be re-created as the one
/// canonical blank line).  `subs` marks, position for position of `out`,
/// exactly the substituted elements: everywhere else the output element is
/// the stored one, carried verbatim.
pub open spec fn is_assembly(
    names: Seq<Seq<char>>,
    segs: Seq<Seq<Elem>>,
    ord: Seq<Seq<char>>,
    out: Seq<Elem>,
    subs: Seq<bool>,
) -> bool
    decreases ord.len(),
{
    if ord.len() == 0 {
        out == Seq::<Elem>::empty() && subs == Seq::<bool>::empty()
    } else {
        let name = ord[0];
        let next = if ord.len() > 1 {
            ord[1]
        } else {
            Seq::<char>::empty()
        };
        let j = last_index_of(names, name);
        &&& 0 <= j < segs.len()
        &&& {
            let seg = segs[j];
            let names2 = names.remove(j);
            let segs2 = segs.remove(j);
            let ord2 = ord.drop_first();
            let l = seg.len() as int;
            if seg.len() == 0 || drop_fires(name, seg) {
                is_assembly(names2, segs2, ord2, out, subs)
            } else if norm_fires(name, next, seg) {
                &&& out.len() >= l
                &&& subs.len() >= l
                &&& out.take(l).drop_last() == seg.drop_last()
                &&& crate::elem::blankish(out[l - 1])
                &&& out[l - 1].node == seg.last().node
                &&& subs.take(l) == Seq::new(l as nat, |t: int| t == l - 1)
                &&& is_assembly(names2, segs2, ord2, out.skip(l), subs.skip(l))
            } else {
                &&& out.len() >= l
                &&& subs.len() >= l
                &&& out.take(l) == seg
                &&& subs.take(l) == Seq::new(l as nat, |t: int| false)
                &&& is_assembly(names2, segs2, ord2, out.skip(l), subs.skip(l))
            }
        }
    }
}

fn push_falses(subs: &mut Vec<bool>, n: usize)
    ensures
        final(subs)@ == old(subs)@ + Seq::new(n as nat, |t: int| false),
    decreases n,
{
    let ghost base = subs@;
    proof {
        assert(base + Seq::new(0, |x: int| false) =~= base);
    }
    let mut t: usize = 0;
    while t < n
        invariant
            t <= n,
            subs@ == base + Seq::new(t as nat, |x: int| false),
        decreases n - t,
    {
        subs.push(false);
        t = t + 1;
        proof {
            assert(subs@ =~= base + Seq::new(t as nat, |x: int| false));
        }
    }
}

/// Appends to `out` the segments named by `ord[k..]`, in that order,
/// applying the blank-line rules, marking the substituted positions in
/// `subs`, and consuming each picked segment.
#[verifier::rlimit(100)]
fn assemble(
    names: &mut Vec<String>,
    segs: &mut Vec<Vec<Elem>>,
    ord: &Vec<String>,
    k: usize,
    out: &mut Vec<Elem>,
    subs: &mut Vec<bool>,
) -> (res: Result<(), TableError>)
    requires
        k <= ord@.len(),
        old(out)@.len() == old(subs)@.len(),
        distinct_seg_nodes(segs_view(old(segs)@)),
    ensures
        final(out)@.len() >= old(out)@.len(),
        final(out)@.take(old(out)@.len() as int) == old(out)@,
        final(subs)@.len() == final(out)@.len(),
        final(subs)@.take(old(subs)@.len() as int) == old(subs)@,
        forall|i: int|
            old(out)@.len() <= i < final(out)@.len() ==> exists|a: int, b: int|
                0 <= a < old(segs)@.len() && 0 <= b < old(segs)@[a]@.len() && (
                #[trigger] final(out)@[i]).node == old(segs)@[a]@[b].node,
        forall|i: int, i2: int|
            old(out)@.len() <= i < i2 < final(out)@.len() ==> (#[trigger] final(out)@[i]).node != (
            #[trigger] final(out)@[i2]).node,
        res is Ok ==> is_assembly(
            views(old(names)@),
            segs_view(old(segs)@),
            views(ord@).skip(k as int),
            final(out)@.skip(old(out)@.len() as int),
            final(subs)@.skip(old(subs)@.len() as int),
        ),
        res is Ok ==> final(names)@.len() + (ord@.len() - k) == old(names)@.len(),
        res is Ok ==> final(segs)@.len() + (ord@.len() - k) == old(segs)@.len(),
        (views(old(names)@).to_multiset() == views(ord@).skip(k as int).to_multiset() && old(
            names,
        )@.len() == old(segs)@.len()) ==> res is Ok,
    decreases ord@.len() - k,
{
    broadcast use vstd::seq_lib::group_to_multiset_ensures;
    broadcast use vstd::seq_lib::to_multiset_remove;

    let ghost names0 = names@;
    let ghost segs0 = segs@;
    let ghost out0 = out@;
    let ghost subs0 = subs@;
    let ghost ordv = views(ord@);
    if k >= ord.len() {
        proof {
            assert(ordv.skip(k as int).len() == 0);
            assert(out@.skip(out@.len() as int) =~= Seq::<Elem>::empty());
            assert(subs@.skip(subs@.len() as int) =~= Seq::<bool>::empty());
            assert(out@.take(out@.len() as int) =~= out@);
            assert(subs@.take(subs@.len() as int) =~= subs@);
        }
        return Ok(());
    }
    proof {
        assert(ordv.skip(k as int)[0] == ord@[k as int]@);
    }
    let j = match find_last_str(names, &ord[k]) {
        Some(j) => j,
        None => {
            proof {
                lemma_last_index_of(views(names@), ord@[k as int]@);
                if views(names0).to_multiset() == ordv.skip(k as int).to_multiset() {
                    assert(ordv.skip(k as int).contains(ord@[k as int]@));
                    assert(views(names0).to_multiset().count(ord@[k as int]@) > 0);
                    assert(views(names0).contains(ord@[k as int]@));
                }
                assert(out@.take(out@.len() as int) =~= out@);
                assert(subs@.take(subs@.len() as int) =~= subs@);
            }
            return Err(TableError::NameNotFound);
        }
    };
    if j >= segs.len() {
        proof {
            assert(out@.take(out@.len() as int) =~= out@);
            assert(subs@.take(subs@.len() as int) =~= subs@);
            if names0.len() == segs0.len() {
                assert(false);
            }
        }
        return Err(TableError::NameNotFound);
    }
    let ghost jj = j as int;
    let nm = names.remove(j);
    let mut seg = segs.remove(j);
    proof {
        assert(views(names@) =~= views(names0).remove(jj));
        assert(segs_view(segs@) =~= segs_view(segs0).remove(jj));
        assert forall|a: int, b: int, c: int, d: int|
            0 <= a < segs_view(segs@).len() && 0 <= b < segs_view(segs@)[a].len() && 0 <= c
                < segs_view(segs@).len() && 0 <= d < segs_view(segs@)[c].len() && (a != c || b
                != d) implies (#[trigger] segs_view(segs@)[a][b]).node != (#[trigger] segs_view(
            segs@,
        )[c][d]).node by {
            let a0 = if a < jj {
                a
            } else {
                a + 1
            };
            let c0 = if c < jj {
                c
            } else {
                c + 1
            };
            assert(segs_view(segs@)[a] == segs_view(segs0)[a0]);
            assert(segs_view(segs@)[c] == segs_view(segs0)[c0]);
        }
    }
    let next_key = if k + 1 < ord.len() {
        get_key(ord[k + 1].as_str())
    } else {
        get_key("")
    };
    proof {
        reveal_strlit("");
        assert(""@ =~= Seq::<char>::empty());
    }
    let cur_key = get_key(nm.as_str());
    let nm_empty = nm.as_str().unicode_len() == 0;
    let seg_len = seg.len();
    let dropped = nm_empty && seg_len == 1 && seg[0].kind == ElemKind::Newline;
    let fires = seg_len > 0 && seg[seg_len - 1].kind == ElemKind::Newline && !(cur_key
        == next_key);
    let ghost segv = seg@;
    let ghost name_v = nm@;
    let ghost next_v: Seq<char> = if (k + 1) < ord@.len() {
        ord@[k as int + 1]@
    } else {
        Seq::<char>::empty()
    };
    let ghost mut piece: Seq<Elem> = Seq::<Elem>::empty();
    let ghost mut spiece: Seq<bool> = Seq::<bool>::empty();
    if seg_len == 0 || dropped {
        proof {
            assert(out@ =~= out0 + piece);
            assert(subs@ =~= subs0 + spiece);
        }
    } else if fires {
        let last = seg.pop();
        out.append(&mut seg);
        proof {
            let popped = segv.last();
            assert(last == Some(popped));
        }
        let blank = Elem {
            kind: ElemKind::Newline,
            name: String::new(),
            node: match last {
                Some(e) => e.node,
                None => return Err(TableError::NameNotFound),
            },
        };
        proof {
            assert(crate::elem::blankish(blank));
            assert(blank.node == segv.last().node);
            piece = segv.update(segv.len() - 1, blank);
            assert(piece =~= segv.drop_last().push(blank));
        }
        out.push(blank);
        push_falses(subs, seg_len - 1);
        subs.push(true);
        proof {
            spiece = Seq::new(segv.len(), |t: int| t == segv.len() - 1);
            assert(out@ =~= out0 + piece);
            assert(subs@ =~= subs0 + spiece);
        }
    } else {
        out.append(&mut seg);
        push_falses(subs, seg_len);
        proof {
            piece = segv;
            spiece = Seq::new(segv.len(), |t: int| false);
            assert(out@ =~= out0 + piece);
            assert(subs@ =~= subs0 + spiece);
        }
    }
    let ghost out1 = out@;
    let ghost subs1 = subs@;
    let ghost names1 = names@;
    let ghost segs1 = segs@;
    proof {
        assert(out1 =~= out0 + piece);
        assert(subs1 =~= subs0 + spiece);
        assert(piece.len() == spiece.len());
    }
    let res = assemble(names, segs, ord, k + 1, out, subs);
    proof {
        assert(out@.take(out1.len() as int) == out1);
        assert(out@.take(out0.len() as int) =~= out0);
        assert(subs@.take(subs1.len() as int) == subs1);
        assert(subs@.take(subs0.len() as int) =~= subs0);
        let suffix = out@.skip(out0.len() as int);
        let rest = out@.skip(out1.len() as int);
        let ssuffix = subs@.skip(subs0.len() as int);
        let srest = subs@.skip(subs1.len() as int);
        assert(out1.len() == out0.len() + piece.len());
        assert forall|t: int| 0 <= t < suffix.len() implies suffix[t] == (piece + rest)[t] by {
            assert(suffix[t] == out@[out0.len() + t]);
            if t < piece.len() {
                assert(out@.take(out1.len() as int)[out0.len() + t] == out1[out0.len() + t]);
                assert(out1[out0.len() + t] == piece[t]);
            } else {
                assert((piece + rest)[t] == rest[t - piece.len()]);
                assert(rest[t - piece.len()] == out@[out1.len() + t - piece.len()]);
            }
        }
        assert(suffix =~= piece + rest);
        assert forall|t: int| 0 <= t < ssuffix.len() implies ssuffix[t] == (spiece + srest)[t] by {
            assert(ssuffix[t] == subs@[subs0.len() + t]);
            if t < spiece.len() {
                assert(subs@.take(subs1.len() as int)[subs0.len() + t] == subs1[subs0.len() + t]);
                assert(subs1[subs0.len() + t] == spiece[t]);
            } else {
                assert((spiece + srest)[t] == srest[t - spiece.len()]);
                assert(srest[t - spiece.len()] == subs@[subs1.len() + t - spiece.len()]);
            }
        }
        assert(ssuffix =~= spiece + srest);
        assert forall|t: int| 0 <= t < piece.len() implies piece[t].node == segv[t].node by {
            if fires && t == segv.len() - 1 {
            } else {
            }
        }
        assert forall|i: int|
            out0.len() <= i < out@.len() implies exists|a: int, b: int|
                0 <= a < segs0.len() && 0 <= b < segs0[a]@.len() && (#[trigger] out@[i]).node
                    == segs0[a]@[b].node by {
            if i < out1.len() {
                let t = i - out0.len();
                assert(out@[i] == suffix[i - out0.len()]);
                assert(out@[i] == piece[t]);
                assert(piece[t].node == segv[t].node);
                assert(segv[t].node == segs0[jj]@[t].node);
            } else {
                let aw = choose|a: int, b: int|
                    0 <= a < segs1.len() && 0 <= b < segs1[a]@.len() && out@[i].node
                        == segs1[a]@[b].node;
                let (a, b) = aw;
                let a0 = if a < jj {
                    a
                } else {
                    a + 1
                };
                assert(segs1[a] == segs0[a0]);
            }
        }
        assert forall|i: int, i2: int|
            out0.len() <= i < i2 < out@.len() implies (#[trigger] out@[i]).node != (
        #[trigger] out@[i2]).node by {
            if i2 < out1.len() {
                let t = i - out0.len();
                let t2 = i2 - out0.len();
                assert(out@[i] == suffix[i - out0.len()]);
                assert(out@[i2] == suffix[i2 - out0.len()]);
                assert(out@[i] == piece[t] && out@[i2] == piece[t2]);
                assert(piece[t].node == segs0[jj]@[t].node);
                assert(piece[t2].node == segs0[jj]@[t2].node);
                assert(segs_view(segs0)[jj][t].node != segs_view(segs0)[jj][t2].node);
            } else if i >= out1.len() {
            } else {
                let t = i - out0.len();
                assert(out@[i] == suffix[i - out0.len()]);
                assert(out@[i] == piece[t]);
                assert(piece[t].node == segs0[jj]@[t].node);
                let aw = choose|a: int, b: int|
                    0 <= a < segs1.len() && 0 <= b < segs1[a]@.len() && out@[i2].node
                        == segs1[a]@[b].node;
                let (a, b) = aw;
                let a0 = if a < jj {
                    a
                } else {
                    a + 1
                };
                assert(segs1[a] == segs0[a0]);
                assert(a0 != jj);
                assert(segs_view(segs0)[jj][t].node != segs_view(segs0)[a0][b].node);
            }
        }
        assert(ordv.skip(k as int).drop_first() =~= ordv.skip(k as int + 1));
        lemma_last_index_of(views(names0), ordv.skip(k as int)[0]);
        assert(views(names0)[jj] == ordv.skip(k as int)[0]);
        assert(name_v == views(names0)[jj]);
        assert(ordv.skip(k as int).len() == ordv.len() - k);
        if k + 1 < ord@.len() {
            assert(ordv.skip(k as int)[1] == ord@[k as int + 1]@);
            assert(next_v == ordv.skip(k as int)[1]);
        }
        if res is Ok {
            assert(is_assembly(
                views(names1),
                segs_view(segs1),
                ordv.skip(k as int + 1),
                rest,
                srest,
            ));
            assert(last_index_of(views(names0), ordv.skip(k as int)[0]) == jj);
            assert(segs_view(segs0)[jj] == segv);
            let l = segv.len() as int;
            if seg_len == 0 || drop_fires(name_v, segv) {
                assert(is_assembly(
                    views(names0),
                    segs_view(segs0),
                    ordv.skip(k as int),
                    suffix,
                    ssuffix,
                ));
            } else if norm_fires(name_v, next_v, segv) {
                assert(fires);
                assert(suffix.take(l) =~= piece);
                assert(suffix.skip(l) =~= rest);
                assert(ssuffix.take(l) =~= spiece);
                assert(ssuffix.skip(l) =~= srest);
                assert(suffix.take(l).drop_last() =~= segv.drop_last());
                assert(crate::elem::blankish(suffix[l - 1]));
                assert(suffix[l - 1].node == segv.last().node);
                assert(spiece =~= Seq::new(l as nat, |t: int| t == l - 1));
                assert(is_assembly(
                    views(names0),
                    segs_view(segs0),
                    ordv.skip(k as int),
                    suffix,
                    ssuffix,
                ));
            } else {
                assert(!fires && !dropped);
                assert(piece == segv);
                assert(suffix.take(l) =~= segv);
                assert(suffix.skip(l) =~= rest);
                assert(ssuffix.take(l) =~= spiece);
                assert(ssuffix.skip(l) =~= srest);
                assert(spiece =~= Seq::new(l as nat, |t: int| false));
                assert(is_assembly(
                    views(names0),
                    segs_view(segs0),
                    ordv.skip(k as int),
                    suffix,
                    ssuffix,
                ));
            }
        }
        if views(names0).to_multiset() == ordv.skip(k as int).to_multiset() && names0.len()
            == segs0.len() {
            assert(views(names0).remove(jj).to_multiset() == views(names0).to_multiset().remove(
                views(names0)[jj],
            ));
            assert(ordv.skip(k as int) =~= seq![ordv.skip(k as int)[0]] + ordv.skip(k as int + 1));
            vstd::seq_lib::lemma_multiset_commutative(
                seq![ordv.skip(k as int)[0]],
                ordv.skip(k as int + 1),
            );
            assert(seq![ordv.skip(k as int)[0]].to_multiset() =~= Multiset::<
                Seq<char>,
            >::empty().insert(ordv.skip(k as int)[0]));
            assert(views(names1).to_multiset() == ordv.skip(k as int + 1).to_multiset());
            assert(res is Ok);
        }
    }
    res
}

impl Tables {
    /// No two stored elements share an underlying syntax element.
    pub open spec fn distinct_nodes(self) -> bool {
        distinct_seg_nodes(self.segs())
    }

    /// Rewrites the scope: computes the target order of the stored
    /// segments, concatenates them in that order with the blank-line rules
    /// applied, and replaces the scope's children with the result in one
    /// splice.  The stored segments are consumed: on success the
    /// collection is left empty, per the one-collection-per-rewrite
    /// lifecycle.  On a well-formed collection the rewrite always
    /// succeeds; a collection whose names and segments have fallen out of
    /// step can fail the lookup of a computed name, and the tree is then
    /// left untouched.  After a successful rewrite the tree's children
    /// are, position for position, the model's elements: the stored
    /// element itself everywhere `subs` is false, and the one canonical
    /// blank-line element at each substituted position.
    pub fn reorder(&mut self, root_ast: &mut Node, order: &Vec<String>) -> (res: Result<
        (),
        TableError,
    >)
        requires
            node_mutable(*old(root_ast)),
            old(self).from_tree(*old(root_ast)),
            old(self).distinct_nodes(),
        ensures
            old(self).wf() ==> res is Ok,
            res is Err ==> *final(root_ast) == *old(root_ast),
            res is Ok ==> node_mutable(*final(root_ast)),
            res is Ok ==> final(self).headers@.len() == 0,
            res is Ok && old(self).headers@.len() == old(self).table_set@.len()
                ==> final(self).table_set@.len() == 0,
            res is Ok ==> exists|ord2: Seq<Seq<char>>, out: Seq<Elem>, subs: Seq<bool>|
                {
                    &&& is_calculated_order(views(old(self).headers@), views(order@), ord2)
                    &&& ord2.to_multiset() == views(old(self).headers@).to_multiset()
                    &&& is_assembly(views(old(self).headers@), old(self).segs(), ord2, out, subs)
                    &&& node_elems(*final(root_ast)).len() == out.len()
                    &&& subs.len() == out.len()
                    &&& forall|i: int|
                        0 <= i < out.len() ==> (if subs[i] {
                            elem_blank(#[trigger] node_elems(*final(root_ast))[i])
                        } else {
                            node_elems(*final(root_ast))[i] == out[i].node
                        })
                },
    {
        let names_order = calculate_order(&self.headers, order);
        let mut out: Vec<Elem> = Vec::new();
        let mut subs: Vec<bool> = Vec::new();
        proof {
            assert(views(names_order@).skip(0) =~= views(names_order@));
        }
        let res = assemble(
            &mut self.headers,
            &mut self.table_set,
            &names_order,
            0,
            &mut out,
            &mut subs,
        );
        match res {
            Err(e) => Err(e),
            Ok(()) => {
                let ghost out_full = out@;
                let ghost subs_full = subs@;
                proof {
                    assert(out_full.skip(0) =~= out_full);
                    assert(subs_full.skip(0) =~= subs_full);
                }
                let mut slots: Vec<Option<El>> = Vec::new();
                let mut rest = out;
                while rest.len() > 0
                    invariant
                        slots@.len() + rest@.len() == out_full.len(),
                        subs_full.len() == out_full.len(),
                        subs@ == subs_full,
                        forall|x: int|
                            0 <= x < slots@.len() ==> #[trigger] slots@[x] == (if subs_full[x] {
                                Option::<El>::None
                            } else {
                                Option::Some(out_full[x].node)
                            }),
                        forall|x: int|
                            0 <= x < rest@.len() ==> #[trigger] rest@[x] == out_full[slots@.len()
                                + x],
                    decreases rest@.len(),
                {
                    let t = slots.len();
                    let e = rest.remove(0);
                    if subs[t] {
                        slots.push(None);
                    } else {
                        slots.push(Some(e.node));
                    }
                }
                proof {
                    assert(slots@.len() == out_full.len());
                    assert forall|i: int|
                        0 <= i < slots@.len() implies (#[trigger] slots@[i] matches Some(e)
                        ==> node_elems(*old(root_ast)).contains(e)) by {
                        if slots@[i] is Some {
                            assert(slots@[i]->0 == out_full[i].node);
                            let aw = choose|a: int, b: int|
                                0 <= a < old(self).table_set@.len() && 0 <= b < old(
                                    self,
                                ).table_set@[a]@.len() && out_full[i].node == old(
                                    self,
                                ).table_set@[a]@[b].node;
                            let (a, b) = aw;
                            assert(old(self).segs()[a][b] == old(self).table_set@[a]@[b]);
                        }
                    }
                    assert forall|i: int, j: int|
                        0 <= i < j < slots@.len() implies !(slots@[i] is Some && slots@[j] is Some
                        && slots@[i]->0 == slots@[j]->0) by {
                        if slots@[i] is Some && slots@[j] is Some {
                            assert(slots@[i]->0 == out_full[i].node);
                            assert(slots@[j]->0 == out_full[j].node);
                        }
                    }
                }
                let ghost slots_g = slots@;
                replace_children(root_ast, slots);
                proof {
                    let ord2 = views(names_order@);
                    assert(is_assembly(
                        views(old(self).headers@),
                        old(self).segs(),
                        ord2,
                        out_full,
                        subs_full,
                    ));
                    assert forall|i: int|
                        0 <= i < out_full.len() implies (if subs_full[i] {
                        elem_blank(#[trigger] node_elems(*root_ast)[i])
                    } else {
                        node_elems(*root_ast)[i] == out_full[i].node
                    }) by {
                        if subs_full[i] {
                            assert(slots_g[i] is None);
                        } else {
                            assert(slots_g[i] == Option::Some(out_full[i].node));
                        }
                    }
                }
                Ok(())
            }
        }
    }
}

/// The position of segment element `(i, j)` in the flattened sequence.
pub open spec fn flat_pos(segs: Seq<Seq<Elem>>, i: int, j: int) -> int
    decreases i,
{
    if i <= 0 {
        j
    } else {
        segs[0].len() + flat_pos(segs.drop_first(), i - 1, j)
    }
}

proof fn lemma_flat_pos(segs: Seq<Seq<Elem>>, i: int, j: int)
    requires
        0 <= i < segs.len(),
        0 <= j < segs[i].len(),
    ensures
        0 <= flat_pos(segs, i, j) < segs.flatten().len(),
        segs.flatten()[flat_pos(segs, i, j)] == segs[i][j],
    decreases i,
{
    if i == 0 {
        assert(segs.flatten() == segs[0] + segs.drop_first().flatten());
    } else {
        lemma_flat_pos(segs.drop_first(), i - 1, j);
        assert(segs.flatten() == segs[0] + segs.drop_first().flatten());
    }
}

proof fn lemma_flat_pos_lt(segs: Seq<Seq<Elem>>, i: int, j: int, c: int, d: int)
    requires
        0 <= i < segs.len(),
        0 <= j < segs[i].len(),
        0 <= c < segs.len(),
        0 <= d < segs[c].len(),
        i < c || (i == c && j < d),
    ensures
        flat_pos(segs, i, j) < flat_pos(segs, c, d),
    decreases i + c,
{
    if i == c {
        if i > 0 {
            lemma_flat_pos_lt(segs.drop_first(), i - 1, j, c - 1, d);
        }
    } else if i == 0 {
        lemma_flat_pos(segs.drop_first(), c - 1, d);
        assert(flat_pos(segs, i, j) == j);
        assert(j < segs[0].len());
    } else {
        lemma_flat_pos_lt(segs.drop_first(), i - 1, j, c - 1, d);
    }
}

proof fn lemma_flatten_remove_len(segs: Seq<Seq<Elem>>, j: int)
    requires
        0 <= j < segs.len(),
    ensures
        segs.remove(j).flatten().len() + segs[j].len() == segs.flatten().len(),
    decreases j,
{
    if j == 0 {
        assert(segs.remove(0) =~= segs.drop_first());
    } else {
        lemma_flatten_remove_len(segs.drop_first(), j - 1);
        assert(segs.remove(j).drop_first() =~= segs.drop_first().remove(j - 1));
        assert(segs.remove(j)[0] == segs[0]);
    }
}

proof fn lemma_assembly_multiset_step(names: Seq<Seq<char>>, ord: Seq<Seq<char>>, j: int)
    requires
        ord.len() > 0,
        0 <= j < names.len(),
        names[j] == ord[0],
        ord.to_multiset() == names.to_multiset(),
    ensures
        ord.drop_first().to_multiset() == names.remove(j).to_multiset(),
{
    broadcast use vstd::seq_lib::group_to_multiset_ensures;
    broadcast use vstd::seq_lib::to_multiset_remove;

    assert(ord =~= seq![ord[0]] + ord.drop_first());
    vstd::seq_lib::lemma_multiset_commutative(seq![ord[0]], ord.drop_first());
    assert(seq![ord[0]].to_multiset() =~= Multiset::<Seq<char>>::empty().insert(ord[0]));
    assert(names.remove(j).to_multiset() == names.to_multiset().remove(names[j]));
}

/// Conservation, with no blank-line drop possible: when every name is
/// non-empty (so no leading-blank segment exists), no segment is empty,
/// names are distinct, and the order names every segment exactly once, the
/// rewritten list has exactly as many elements as the original — a fired
/// substitution swaps one element for one.
pub proof fn lemma_conservation_exact(
    names: Seq<Seq<char>>,
    segs: Seq<Seq<Elem>>,
    ord: Seq<Seq<char>>,
    out: Seq<Elem>,
    subs: Seq<bool>,
)
    requires
        is_assembly(names, segs, ord, out, subs),
        names.len() == segs.len(),
        forall|i: int| 0 <= i < segs.len() ==> (#[trigger] segs[i]).len() > 0,
        forall|i: int| 0 <= i < names.len() ==> (#[trigger] names[i]).len() > 0,
        ord.to_multiset() == names.to_multiset(),
    ensures
        out.len() == segs.flatten().len(),
    decreases ord.len(),
{
    broadcast use vstd::seq_lib::group_to_multiset_ensures;

    if ord.len() == 0 {
        assert(names.to_multiset().len() == 0);
        if names.len() > 0 {
            assert(names.to_multiset().count(names[0]) > 0);
        }
        assert(segs.len() == 0);
        assert(segs.flatten().len() == 0);
    } else {
        let j = last_index_of(names, ord[0]);
        lemma_last_index_of(names, ord[0]);
        let seg = segs[j];
        assert(!drop_fires(ord[0], seg));
        lemma_assembly_multiset_step(names, ord, j);
        lemma_flatten_remove_len(segs, j);
        assert forall|i: int| 0 <= i < names.remove(j).len() implies (#[trigger] names.remove(
            j,
        )[i]).len() > 0 by {
            if i < j {
                assert(names.remove(j)[i] == names[i]);
            } else {
                assert(names.remove(j)[i] == names[i + 1]);
            }
        }
        assert forall|i: int| 0 <= i < segs.remove(j).len() implies (#[trigger] segs.remove(
            j,
        )[i]).len() > 0 by {
            if i < j {
                assert(segs.remove(j)[i] == segs[i]);
            } else {
                assert(segs.remove(j)[i] == segs[i + 1]);
            }
        }
        lemma_conservation_exact(
            names.remove(j),
            segs.remove(j),
            ord.drop_first(),
            out.skip(seg.len() as int),
            subs.skip(seg.len() as int),
        );
    }
}

/// Conservation: a successful rewrite of distinct, non-empty segments
/// whose order names every segment exactly once loses at most one element
/// (the dropped leading blank line) and never gains any; substitutions
/// replace one element by one.
pub proof fn lemma_conservation(
    names: Seq<Seq<char>>,
    segs: Seq<Seq<Elem>>,
    ord: Seq<Seq<char>>,
    out: Seq<Elem>,
    subs: Seq<bool>,
)
    requires
        is_assembly(names, segs, ord, out, subs),
        names.len() == segs.len(),
        forall|i: int, j: int| 0 <= i < j < names.len() ==> names[i] != names[j],
        forall|i: int| 0 <= i < segs.len() ==> (#[trigger] segs[i]).len() > 0,
        ord.to_multiset() == names.to_multiset(),
    ensures
        segs.flatten().len() - 1 <= out.len() <= segs.flatten().len(),
    decreases ord.len(),
{
    broadcast use vstd::seq_lib::group_to_multiset_ensures;

    if ord.len() == 0 {
        assert(names.to_multiset().len() == 0);
        if names.len() > 0 {
            assert(names.to_multiset().count(names[0]) > 0);
        }
        assert(segs.len() == 0);
        assert(segs.flatten().len() == 0);
    } else {
        let j = last_index_of(names, ord[0]);
        lemma_last_index_of(names, ord[0]);
        let seg = segs[j];
        lemma_assembly_multiset_step(names, ord, j);
        lemma_flatten_remove_len(segs, j);
        let names2 = names.remove(j);
        let segs2 = segs.remove(j);
        assert forall|a: int, b: int| 0 <= a < b < names2.len() implies names2[a] != names2[b] by {
            assert(names2[a] == (if a < j {
                names[a]
            } else {
                names[a + 1]
            }));
            assert(names2[b] == (if b < j {
                names[b]
            } else {
                names[b + 1]
            }));
        }
        assert forall|i: int| 0 <= i < segs2.len() implies (#[trigger] segs2[i]).len() > 0 by {
            if i < j {
                assert(segs2[i] == segs[i]);
            } else {
                assert(segs2[i] == segs[i + 1]);
            }
        }
        if drop_fires(ord[0], seg) {
            assert forall|i: int| 0 <= i < names2.len() implies (#[trigger] names2[i]).len()
                > 0 by {
                assert(names2[i] == (if i < j {
                    names[i]
                } else {
                    names[i + 1]
                }));
                if names2[i].len() == 0 {
                    assert(names2[i] == names[j]);
                }
            }
            lemma_conservation_exact(names2, segs2, ord.drop_first(), out, subs);
        } else {
            lemma_conservation(
                names2,
                segs2,
                ord.drop_first(),
                out.skip(seg.len() as int),
                subs.skip(seg.len() as int),
            );
        }
    }
}

/// Reordering in the discovered order itself is a faithful round trip:
/// when the names are distinct and no segment ends in a blank line (so
/// neither blank-line rule can fire), the rewrite emits exactly the
/// original element sequence.
pub proof fn lemma_noop_roundtrip(
    names: Seq<Seq<char>>,
    segs: Seq<Seq<Elem>>,
    out: Seq<Elem>,
    subs: Seq<bool>,
)
    requires
        is_assembly(names, segs, names, out, subs),
        names.len() == segs.len(),
        forall|i: int, j: int| 0 <= i < j < names.len() ==> names[i] != names[j],
        forall|i: int|
            0 <= i < segs.len() ==> (#[trigger] segs[i]).len() > 0 && !is_blank_elem(
                segs[i].last(),
            ),
    ensures
        out == segs.flatten(),
    decreases names.len(),
{
    if names.len() == 0 {
        assert(out =~= segs.flatten());
    } else {
        let j = last_index_of(names, names[0]);
        lemma_last_index_of(names, names[0]);
        assert(names.contains(names[0]));
        if j != 0 {
            assert(names[j] == names[0]);
        }
        assert(j == 0);
        let seg = segs[0];
        assert(!drop_fires(names[0], seg));
        assert(!norm_fires(names[0], if names.len() > 1 {
            names[1]
        } else {
            Seq::<char>::empty()
        }, seg));
        let names2 = names.remove(0);
        let segs2 = segs.remove(0);
        assert(names2 =~= names.drop_first());
        assert(segs2 =~= segs.drop_first());
        let rest = out.skip(seg.len() as int);
        let srest = subs.skip(seg.len() as int);
        assert(is_assembly(names2, segs2, names.drop_first(), rest, srest));
        assert forall|i: int|
            0 <= i < segs2.len() implies (#[trigger] segs2[i]).len() > 0 && !is_blank_elem(
            segs2[i].last(),
        ) by {
            assert(segs2[i] == segs[i + 1]);
        }
        lemma_noop_roundtrip(names2, segs2, rest, srest);
        assert(out =~= seg + rest);
        assert(segs.flatten() == seg + segs.drop_first().flatten());
        assert(out =~= segs.flatten());
    }
}

/// Round-trip stability on a no-op order, end to end: a priority list
/// equal to the discovered names leaves the document's elements exactly as
/// they were, provided the names are distinct, none is a nested form of
/// another (each is its own group key), and no segment ends in a blank
/// line.  Without those provisos the round trip can rewrite the document:
/// a nested name is pulled next to its exact match, and a trailing blank
/// line between differing group keys is replaced by a canonical one.
pub proof fn lemma_noop_reorder(
    names: Seq<Seq<char>>,
    segs: Seq<Seq<Elem>>,
    ord: Seq<Seq<char>>,
    out: Seq<Elem>,
    subs: Seq<bool>,
)
    requires
        crate::order::is_calculated_order(names, names, ord),
        is_assembly(names, segs, ord, out, subs),
        names.len() == segs.len(),
        forall|i: int, j: int| 0 <= i < j < names.len() ==> names[i] != names[j],
        forall|i: int| 0 <= i < names.len() ==> group_key_of(#[trigger] names[i]) == names[i],
        forall|i: int|
            0 <= i < segs.len() ==> (#[trigger] segs[i]).len() > 0 && !is_blank_elem(
                segs[i].last(),
            ),
    ensures
        out == segs.flatten(),
{
    let perm = choose|perm: Seq<int>| crate::order::is_order_perm(names, names, perm, ord);
    crate::order::lemma_self_priority_is_identity(names, perm, ord);
    lemma_noop_roundtrip(names, segs, out, subs);
}

pub proof fn lemma_flatten_contains(segs: Seq<Seq<Elem>>, i: int, j: int)
    requires
        0 <= i < segs.len(),
        0 <= j < segs[i].len(),
    ensures
        segs.flatten().contains(segs[i][j]),
    decreases i,
{
    if i == 0 {
        assert(segs.flatten()[j] == segs[0][j]);
    } else {
        lemma_flatten_contains(segs.drop_first(), i - 1, j);
        let e = segs[i][j];
        let x = choose|x: int|
            0 <= x < segs.drop_first().flatten().len() && segs.drop_first().flatten()[x] == e;
        assert(segs.flatten()[segs[0].len() + x] == e);
    }
}

} // verus!
