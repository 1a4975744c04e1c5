//! The rewriter at entry granularity, and the read-only entry traversal.

use vstd::prelude::*;
use crate::elem::{Elem, ElemKind};
use crate::order::{last_index_of, lemma_last_index_of, views};
use crate::segment::{entry_name_at, seg_shape, segment_entries, segs_view};
use crate::syn::{children_of, elem_children, elem_kind, elem_text_trimmed, kind_of, text_trimmed_of, El};

verus! {

/// `out` holds the entry groups named by `ord`, in that order (a key
/// resolved to its last group and consumed, a key without a group
/// skipped), followed by every remaining group in its original relative
/// order.
pub open spec fn is_key_reorder(
    names: Seq<Seq<char>>,
    segs: Seq<Seq<Elem>>,
    ord: Seq<Seq<char>>,
    out: Seq<Elem>,
) -> bool
    decreases ord.len(),
{
    if ord.len() == 0 {
        out == segs.flatten()
    } else {
        let j = last_index_of(names, ord[0]);
        if j < 0 {
            is_key_reorder(names, segs, ord.drop_first(), out)
        } else {
            let seg = segs[j];
            &&& j < segs.len()
            &&& out.len() >= seg.len()
            &&& out.take(seg.len() as int) == seg
            &&& is_key_reorder(
                names.remove(j),
                segs.remove(j),
                ord.drop_first(),
                out.skip(seg.len() as int),
            )
        }
    }
}

/// Appends to `out` the groups named by `ord[k..]` in that order, then
/// every group still left, in original relative order.
fn pick_entries(
    names: &mut Vec<String>,
    segs: &mut Vec<Vec<Elem>>,
    ord: &Vec<String>,
    k: usize,
    out: &mut Vec<Elem>,
)
    requires
        k <= ord@.len(),
        old(names)@.len() == old(segs)@.len(),
    ensures
        final(out)@.len() >= old(out)@.len(),
        final(out)@.take(old(out)@.len() as int) == old(out)@,
        is_key_reorder(
            views(old(names)@),
            segs_view(old(segs)@),
            views(ord@).skip(k as int),
            final(out)@.skip(old(out)@.len() as int),
        ),
    decreases ord@.len() - k,
{
    let ghost names0 = names@;
    let ghost segs0 = segs@;
    let ghost out0 = out@;
    let ghost ordv = views(ord@);
    if k >= ord.len() {
        let ghost remaining = segs_view(segs@);
        while segs.len() > 0
            invariant
                out@.len() >= out0.len(),
                out@.take(out0.len() as int) == out0,
                remaining.flatten() == out@.skip(out0.len() as int) + segs_view(segs@).flatten(),
            decreases segs@.len(),
        {
            let ghost pre = segs@;
            let mut s = segs.remove(0);
            proof {
                assert(segs_view(pre)[0] == s@);
                assert(segs_view(pre).drop_first() =~= segs_view(segs@));
                assert(segs_view(pre).flatten() == s@ + segs_view(segs@).flatten());
            }
            out.append(&mut s);
            proof {
                assert(out@.take(out0.len() as int) =~= out0);
                assert(remaining.flatten() =~= out@.skip(out0.len() as int) + segs_view(
                    segs@,
                ).flatten());
            }
        }
        proof {
            assert(segs_view(segs@).flatten() =~= Seq::<Elem>::empty());
            assert(remaining.flatten() =~= out@.skip(out0.len() as int));
            assert(ordv.skip(k as int).len() == 0);
        }
        return ;
    }
    proof {
        assert(ordv.skip(k as int)[0] == ord@[k as int]@);
        assert(ordv.skip(k as int).drop_first() =~= ordv.skip(k as int + 1));
    }
    match crate::order::find_last_str(names, &ord[k]) {
        None => {
            proof {
                lemma_last_index_of(views(names0), ordv.skip(k as int)[0]);
            }
            pick_entries(names, segs, ord, k + 1, out);
        }
        Some(j) => {
            let ghost jj = j as int;
            let _nm = names.remove(j);
            let mut seg = segs.remove(j);
            let ghost segv = seg@;
            proof {
                assert(views(names@) =~= views(names0).remove(jj));
                assert(segs_view(segs@) =~= segs_view(segs0).remove(jj));
                assert(segs_view(segs0)[jj] == segv);
            }
            out.append(&mut seg);
            let ghost out1 = out@;
            proof {
                assert(out1 =~= out0 + segv);
            }
            pick_entries(names, segs, ord, k + 1, out);
            proof {
                assert(out@.take(out1.len() as int) == out1);
                assert(out@.take(out0.len() as int) =~= out0);
                let suffix = out@.skip(out0.len() as int);
                let rest = out@.skip(out1.len() as int);
                assert forall|t: int| 0 <= t < suffix.len() implies suffix[t] == (segv + rest)[t]
                    by {
                    assert(suffix[t] == out@[out0.len() + t]);
                    if t < segv.len() {
                        assert(out@.take(out1.len() as int)[out0.len() + t] == out1[out0.len()
                            + t]);
                        assert(out1[out0.len() + t] == segv[t]);
                    } else {
                        assert((segv + rest)[t] == rest[t - segv.len()]);
                        assert(rest[t - segv.len()] == out@[out1.len() + t - segv.len()]);
                    }
                }
                assert(suffix =~= segv + rest);
                assert(suffix.take(segv.len() as int) =~= segv);
                assert(suffix.skip(segv.len() as int) =~= rest);
            }
        }
    }
}

/// Reorders one section's entry groups: the groups keyed by `order` first,
/// in that order, then every other group in its original relative order.
/// Unlike section reordering, no blank-line normalization happens here.
pub fn reorder_table_keys(table: &mut Vec<Elem>, order: &Vec<String>)
    ensures
        exists|names: Seq<Seq<char>>, segs: Seq<Seq<Elem>>|
            {
                &&& seg_shape(segs, true)
                &&& segs.flatten() == old(table)@
                &&& names.len() == segs.len()
                &&& (forall|i: int| 0 <= i < names.len() ==> names[i] == entry_name_at(segs, i))
                &&& is_key_reorder(names, segs, views(order@), final(table)@)
            },
{
    let mut owned: Vec<Elem> = Vec::new();
    core::mem::swap(table, &mut owned);
    let (mut names, mut segs) = segment_entries(owned);
    let mut out: Vec<Elem> = Vec::new();
    proof {
        assert(views(order@).skip(0) =~= views(order@));
    }
    pick_entries(&mut names, &mut segs, order, 0, &mut out);
    proof {
        assert(out@.skip(0) =~= out@);
    }
    *table = out;
}

/// The pairs one entry's children contribute, next to the key left behind
/// by the walk: a key child updates the current key, a value child is
/// reported under the current key, anything else is skipped.
pub open spec fn walk_children(kids: Seq<El>, key: Seq<char>) -> (Seq<(Seq<char>, El)>, Seq<char>)
    decreases kids.len(),
{
    if kids.len() == 0 {
        (Seq::<(Seq<char>, El)>::empty(), key)
    } else if kind_of(kids[0]) == ElemKind::Key {
        walk_children(kids.drop_first(), text_trimmed_of(kids[0]))
    } else if kind_of(kids[0]) == ElemKind::Value {
        let r = walk_children(kids.drop_first(), key);
        (seq![(key, kids[0])] + r.0, r.1)
    } else {
        walk_children(kids.drop_first(), key)
    }
}

/// Every (key, value) pair of the table's entries, in document order, the
/// key carried across entries: a value seen before any key — or in an
/// entry without one — is reported under the previously seen key.
pub open spec fn walk_table(t: Seq<Elem>, key: Seq<char>) -> Seq<(Seq<char>, El)>
    decreases t.len(),
{
    if t.len() == 0 {
        Seq::<(Seq<char>, El)>::empty()
    } else if t[0].kind == ElemKind::Entry {
        let r = walk_children(children_of(t[0].node), key);
        r.0 + walk_table(t.drop_first(), r.1)
    } else {
        walk_table(t.drop_first(), key)
    }
}

/// The view of a reported pair.
pub open spec fn pair_view(p: (String, El)) -> (Seq<char>, El) {
    (p.0@, p.1)
}

fn walk_children_exec(kids: Vec<El>, key: String, out: &mut Vec<(String, El)>) -> (ko: String)
    ensures
        final(out)@.len() >= old(out)@.len(),
        final(out)@.take(old(out)@.len() as int) == old(out)@,
        final(out)@.skip(old(out)@.len() as int).map_values(|p: (String, El)| pair_view(p))
            == walk_children(kids@, key@).0,
        ko@ == walk_children(kids@, key@).1,
    decreases kids@.len(),
{
    let ghost out0 = out@;
    let ghost kids0 = kids@;
    if kids.len() == 0 {
        proof {
            assert(out@.take(out@.len() as int) =~= out@);
            assert(out@.skip(out@.len() as int).map_values(|p: (String, El)| pair_view(p))
                =~= walk_children(kids0, key@).0);
        }
        return key;
    }
    let mut rest = kids;
    let e = rest.remove(0);
    proof {
        assert(rest@ =~= kids0.drop_first());
        assert(kids0[0] == e);
    }
    let kk = elem_kind(&e);
    if kk == ElemKind::Key {
        let key2 = elem_text_trimmed(&e);
        walk_children_exec(rest, key2, out)
    } else if kk == ElemKind::Value {
        out.push((key.clone(), e));
        let ghost out1 = out@;
        let ko = walk_children_exec(rest, key, out);
        proof {
            assert(out@.take(out1.len() as int) == out1);
            assert(out@.take(out0.len() as int) =~= out0);
            let suffix = out@.skip(out0.len() as int);
            let rec = walk_children(kids0.drop_first(), key@);
            assert(out@.skip(out1.len() as int).map_values(|p: (String, El)| pair_view(p))
                == rec.0);
            assert forall|x: int| 0 <= x < suffix.len() implies #[trigger] suffix[x] == (seq![
                (key, e),
            ] + out@.skip(out1.len() as int))[x] by {
                assert(suffix[x] == out@[out0.len() + x]);
                if x == 0 {
                    assert(out@.take(out1.len() as int)[out0.len() as int] == out1[out0.len() as int]);
                } else {
                    assert(out@[out0.len() + x] == out@.skip(out1.len() as int)[x - 1]);
                }
            }
            assert(suffix =~= seq![(key, e)] + out@.skip(out1.len() as int));
            assert(suffix.map_values(|p: (String, El)| pair_view(p)) =~= seq![(key@, e)] + rec.0);
            assert(walk_children(kids0, key@).0 == seq![(key@, e)] + rec.0);
        }
        ko
    } else {
        walk_children_exec(rest, key, out)
    }
}

/// Walks one section's elements and returns each entry's key next to its
/// value element, in document order, per [`walk_table`]; an entry showing
/// no key of its own continues the previously seen key.  The walk is
/// read-only: the table is handed back untouched.
pub fn for_entries(table: &Vec<Elem>) -> (r: Vec<(String, El)>)
    ensures
        r@.map_values(|p: (String, El)| pair_view(p)) == walk_table(
            table@,
            Seq::<char>::empty(),
        ),
{
    let mut out: Vec<(String, El)> = Vec::new();
    let first_key = String::new();
    walk_table_exec(table, 0, first_key, &mut out);
    proof {
        assert(table@.skip(0) =~= table@);
        assert(out@.skip(0) =~= out@);
    }
    out
}

fn walk_table_exec(table: &Vec<Elem>, i: usize, key: String, out: &mut Vec<(String, El)>)
    requires
        i <= table@.len(),
    ensures
        final(out)@.len() >= old(out)@.len(),
        final(out)@.take(old(out)@.len() as int) == old(out)@,
        final(out)@.skip(old(out)@.len() as int).map_values(|p: (String, El)| pair_view(p))
            == walk_table(table@.skip(i as int), key@),
    decreases table@.len() - i,
{
    let ghost out0 = out@;
    if i >= table.len() {
        proof {
            assert(out@.take(out@.len() as int) =~= out@);
            assert(out@.skip(out@.len() as int).map_values(|p: (String, El)| pair_view(p))
                =~= walk_table(table@.skip(i as int), key@));
        }
        return ;
    }
    proof {
        assert(table@.skip(i as int)[0] == table@[i as int]);
        assert(table@.skip(i as int).drop_first() =~= table@.skip(i as int + 1));
    }
    if table[i].kind == ElemKind::Entry {
        let kids = elem_children(&table[i].node);
        let key2 = walk_children_exec(kids, key, out);
        let ghost out1 = out@;
        let ghost rec = walk_children(children_of(table@[i as int].node), key@);
        walk_table_exec(table, i + 1, key2, out);
        proof {
            assert(out@.take(out1.len() as int) == out1);
            assert(out@.take(out0.len() as int) =~= out0);
            let suffix = out@.skip(out0.len() as int);
            let piece = out1.skip(out0.len() as int);
            let restp = out@.skip(out1.len() as int);
            assert forall|x: int| 0 <= x < suffix.len() implies #[trigger] suffix[x] == (piece
                + restp)[x] by {
                assert(suffix[x] == out@[out0.len() + x]);
                if x < piece.len() {
                    assert(out@.take(out1.len() as int)[out0.len() + x] == out1[out0.len() + x]);
                    assert(piece[x] == out1[out0.len() + x]);
                } else {
                    assert((piece + restp)[x] == restp[x - piece.len()]);
                    assert(restp[x - piece.len()] == out@[out1.len() + x - piece.len()]);
                }
            }
            assert(suffix =~= piece + restp);
            assert(suffix.map_values(|p: (String, El)| pair_view(p)) =~= piece.map_values(
                |p: (String, El)| pair_view(p),
            ) + restp.map_values(|p: (String, El)| pair_view(p)));
            assert(walk_table(table@.skip(i as int), key@) == rec.0 + walk_table(
                table@.skip(i as int + 1),
                rec.1,
            ));
        }
    } else {
        walk_table_exec(table, i + 1, key, out);
    }
}

} // verus!
