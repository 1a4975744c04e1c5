//! The segmenter: partitions a scope's flat child list into contiguous
//! segments, each starting at a boundary element.

use vstd::prelude::*;
use crate::elem::{is_header_elem, Elem, ElemKind};

verus! {

/// The view of every stored segment.
pub open spec fn segs_view(s: Seq<Vec<Elem>>) -> Seq<Seq<Elem>> {
    s.map_values(|v: Vec<Elem>| v@)
}

/// Whether `e` opens a new segment: section headers at document
/// granularity, entries at entry granularity.
pub open spec fn is_boundary(e: Elem, by_entries: bool) -> bool {
    if by_entries {
        e.kind == ElemKind::Entry
    } else {
        is_header_elem(e)
    }
}

/// The shape every segmentation has: segments are non-empty, every segment
/// but the first starts at a boundary, and no boundary stands anywhere but
/// at the start of a segment.  Together with the requirement that the
/// segments concatenate to the original child list, this determines the
/// segmentation uniquely.
pub open spec fn seg_shape(segs: Seq<Seq<Elem>>, by_entries: bool) -> bool {
    &&& forall|i: int| 0 <= i < segs.len() ==> (#[trigger] segs[i]).len() > 0
    &&& forall|i: int| 1 <= i < segs.len() ==> is_boundary((#[trigger] segs[i])[0], by_entries)
    &&& forall|i: int, j: int|
        0 <= i < segs.len() && 1 <= j < segs[i].len() ==> !is_boundary(
            #[trigger] segs[i][j],
            by_entries,
        )
}

/// The name of a header-granularity segment: the name of its leading
/// header, or empty for the implicit leading segment.
pub open spec fn header_name_of(seg: Seq<Elem>) -> Seq<char> {
    if seg.len() > 0 && is_header_elem(seg[0]) {
        seg[0].name@
    } else {
        Seq::<char>::empty()
    }
}

/// The key of entry-granularity segment `i`: the key of its leading entry,
/// or, for a leading entry without a key of its own, the key carried
/// forward from the previous segment; empty before any keyed entry.
pub open spec fn entry_name_at(segs: Seq<Seq<Elem>>, i: int) -> Seq<char>
    decreases i,
{
    if i < 0 || i >= segs.len() {
        Seq::<char>::empty()
    } else if segs[i].len() > 0 && segs[i][0].kind == ElemKind::Entry && segs[i][0].name@.len()
        > 0 {
        segs[i][0].name@
    } else if i <= 0 {
        Seq::<char>::empty()
    } else {
        entry_name_at(segs, i - 1)
    }
}

proof fn lemma_entry_name_push(segs: Seq<Seq<Elem>>, x: Seq<Elem>, i: int)
    requires
        i < segs.len(),
    ensures
        entry_name_at(segs.push(x), i) == entry_name_at(segs, i),
    decreases i,
{
    if 0 < i {
        lemma_entry_name_push(segs, x, i - 1);
    }
}

/// Partitions `children` into header-granularity segments and returns the
/// segment names next to the segments themselves.
pub fn segment_headers(children: Vec<Elem>) -> (r: (Vec<String>, Vec<Vec<Elem>>))
    ensures
        r.0@.len() == r.1@.len(),
        seg_shape(segs_view(r.1@), false),
        segs_view(r.1@).flatten() == children@,
        forall|i: int|
            0 <= i < r.0@.len() ==> (#[trigger] r.0@[i])@ == header_name_of(segs_view(r.1@)[i]),
{
    broadcast use Seq::lemma_flatten_push;

    let mut names: Vec<String> = Vec::new();
    let mut segs: Vec<Vec<Elem>> = Vec::new();
    let mut acc: Vec<Elem> = Vec::new();
    let mut rest = children;
    let ghost all = rest@;
    while rest.len() > 0
        invariant
            names@.len() == segs@.len(),
            seg_shape(segs_view(segs@), false),
            segs_view(segs@).flatten() + acc@ + rest@ == all,
            forall|i: int|
                0 <= i < names@.len() ==> (#[trigger] names@[i])@ == header_name_of(
                    segs_view(segs@)[i],
                ),
            forall|j: int| 1 <= j < acc@.len() ==> !is_boundary(#[trigger] acc@[j], false),
            segs@.len() > 0 && acc@.len() > 0 ==> is_boundary(acc@[0], false),
            segs@.len() > 0 ==> acc@.len() > 0,
        decreases rest@.len(),
    {
        let ghost pre_segs = segs@;
        let ghost pre_acc = acc@;
        let ghost pre_rest = rest@;
        let c = rest.remove(0);
        let c_is_boundary = c.kind == ElemKind::TableHeader || c.kind == ElemKind::ArrayHeader;
        if c_is_boundary && acc.len() > 0 {
            let nm = if acc[0].kind == ElemKind::TableHeader || acc[0].kind
                == ElemKind::ArrayHeader {
                acc[0].name.clone()
            } else {
                String::new()
            };
            proof {
                assert(segs_view(pre_segs.push(acc)) =~= segs_view(pre_segs).push(pre_acc));
            }
            names.push(nm);
            segs.push(acc);
            acc = Vec::new();
            proof {
                assert(segs_view(segs@) =~= segs_view(pre_segs).push(pre_acc));
                segs_view(pre_segs).lemma_flatten_push(pre_acc);
            }
        }
        acc.push(c);
        proof {
            assert(segs_view(segs@).flatten() + acc@ + rest@ =~= all);
        }
    }
    if acc.len() > 0 {
        let nm = if acc[0].kind == ElemKind::TableHeader || acc[0].kind == ElemKind::ArrayHeader {
            acc[0].name.clone()
        } else {
            String::new()
        };
        proof {
            assert(segs_view(segs@.push(acc)) =~= segs_view(segs@).push(acc@));
        }
        names.push(nm);
        segs.push(acc);
    }
    proof {
        assert(segs_view(segs@).flatten() =~= all);
    }
    (names, segs)
}

/// Partitions one section's `children` into entry-granularity segments,
/// keyed by the entry that starts each one; leading trivia is attached
/// under an empty key, and an entry without a key of its own continues the
/// previously seen key.
pub fn segment_entries(children: Vec<Elem>) -> (r: (Vec<String>, Vec<Vec<Elem>>))
    ensures
        r.0@.len() == r.1@.len(),
        seg_shape(segs_view(r.1@), true),
        segs_view(r.1@).flatten() == children@,
        forall|i: int|
            0 <= i < r.0@.len() ==> (#[trigger] r.0@[i])@ == entry_name_at(segs_view(r.1@), i),
{
    broadcast use Seq::lemma_flatten_push;

    let mut names: Vec<String> = Vec::new();
    let mut segs: Vec<Vec<Elem>> = Vec::new();
    let mut acc: Vec<Elem> = Vec::new();
    let mut cur_key = String::new();
    let mut rest = children;
    let ghost all = rest@;
    while rest.len() > 0
        invariant
            names@.len() == segs@.len(),
            seg_shape(segs_view(segs@), true),
            segs_view(segs@).flatten() + acc@ + rest@ == all,
            forall|i: int|
                0 <= i < names@.len() ==> (#[trigger] names@[i])@ == entry_name_at(
                    segs_view(segs@),
                    i,
                ),
            forall|j: int| 1 <= j < acc@.len() ==> !is_boundary(#[trigger] acc@[j], true),
            segs@.len() > 0 && acc@.len() > 0 ==> is_boundary(acc@[0], true),
            segs@.len() > 0 ==> acc@.len() > 0,
            (if acc@.len() > 0 && acc@[0].kind == ElemKind::Entry && acc@[0].name@.len() > 0 {
                cur_key@ == acc@[0].name@
            } else if segs@.len() > 0 {
                cur_key@ == names@[segs@.len() - 1]@
            } else {
                cur_key@ == Seq::<char>::empty()
            }),
        decreases rest@.len(),
    {
        let ghost pre_segs = segs@;
        let ghost pre_acc = acc@;
        let c = rest.remove(0);
        let c_is_boundary = c.kind == ElemKind::Entry;
        if c_is_boundary && acc.len() > 0 {
            let nm = cur_key.clone();
            proof {
                assert(segs_view(pre_segs.push(acc)) =~= segs_view(pre_segs).push(pre_acc));
                assert forall|i: int| 0 <= i < pre_segs.len() implies entry_name_at(
                    segs_view(pre_segs).push(pre_acc),
                    i,
                ) == entry_name_at(segs_view(pre_segs), i) by {
                    lemma_entry_name_push(segs_view(pre_segs), pre_acc, i);
                }
            }
            names.push(nm);
            segs.push(acc);
            acc = Vec::new();
            proof {
                assert(segs_view(segs@) =~= segs_view(pre_segs).push(pre_acc));
                segs_view(pre_segs).lemma_flatten_push(pre_acc);
            }
        }
        if c_is_boundary {
            if c.name.as_str().unicode_len() > 0 {
                cur_key = c.name.clone();
            }
        }
        acc.push(c);
        proof {
            assert(segs_view(segs@).flatten() + acc@ + rest@ =~= all);
        }
    }
    if acc.len() > 0 {
        let nm = cur_key.clone();
        proof {
            assert(segs_view(segs@.push(acc)) =~= segs_view(segs@).push(acc@));
            assert forall|i: int| 0 <= i < segs@.len() implies entry_name_at(
                segs_view(segs@).push(acc@),
                i,
            ) == entry_name_at(segs_view(segs@), i) by {
                lemma_entry_name_push(segs_view(segs@), acc@, i);
            }
        }
        names.push(nm);
        segs.push(acc);
    }
    proof {
        assert(segs_view(segs@).flatten() =~= all);
    }
    (names, segs)
}

} // verus!
