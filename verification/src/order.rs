//! The order calculator: a stable sort of discovered names by priority
//! weight.

use vstd::prelude::*;
use vstd::seq_lib::lemma_multiset_commutative;
use crate::keys::{get_key, group_key_of};

verus! {

/// Index of the last occurrence of `x` in `s`, or `-1` if there is none.
pub open spec fn last_index_of<A>(s: Seq<A>, x: A) -> int
    decreases s.len(),
{
    if s.len() == 0 {
        -1
    } else if s.last() == x {
        s.len() - 1
    } else {
        last_index_of(s.drop_last(), x)
    }
}

pub proof fn lemma_last_index_of<A>(s: Seq<A>, x: A)
    ensures
        -1 <= last_index_of(s, x) < s.len(),
        last_index_of(s, x) >= 0 ==> s[last_index_of(s, x)] == x,
        s.contains(x) <==> last_index_of(s, x) >= 0,
    decreases s.len(),
{
    if s.len() > 0 && s.last() != x {
        lemma_last_index_of(s.drop_last(), x);
        if s.contains(x) {
            let i = choose|i: int| 0 <= i < s.len() && s[i] == x;
            assert(s.drop_last()[i] == x);
        }
        if s.drop_last().contains(x) {
            let i = choose|i: int| 0 <= i < s.drop_last().len() && s.drop_last()[i] == x;
            assert(s[i] == x);
        }
    }
}

/// The views of a sequence of strings.
pub open spec fn views(v: Seq<String>) -> Seq<Seq<char>> {
    v.map_values(|s: String| s@)
}

/// The sort weight of a discovered name.  A name whose group key is listed
/// gets twice the key's position in the priority list, plus one when the
/// name is a nested form of the key rather than the key itself; a name
/// whose group key is unlisted follows every listed name, in discovery
/// order.
pub open spec fn spec_weight(ordering: Seq<Seq<char>>, name: Seq<char>, idx: int) -> int {
    let key = group_key_of(name);
    let p = last_index_of(ordering, key);
    if p >= 0 {
        2 * p + if key == name {
            0int
        } else {
            1int
        }
    } else {
        2 * ordering.len() + idx
    }
}

/// The strict target order on discovered names: ascending weight, ties
/// broken by discovery index.
pub open spec fn rank_before(
    ordering: Seq<Seq<char>>,
    a: Seq<char>,
    ai: int,
    b: Seq<char>,
    bi: int,
) -> bool {
    ||| spec_weight(ordering, a, ai) < spec_weight(ordering, b, bi)
    ||| (spec_weight(ordering, a, ai) == spec_weight(ordering, b, bi) && ai < bi)
}

/// `perm` witnesses that `r` is exactly `h` sorted by [`rank_before`]:
/// `r[i]` is `h[perm[i]]`, and the picked indices are strictly ascending in
/// rank, which makes the arrangement unique.
pub open spec fn is_order_perm(
    h: Seq<Seq<char>>,
    o: Seq<Seq<char>>,
    perm: Seq<int>,
    r: Seq<Seq<char>>,
) -> bool {
    &&& perm.len() == h.len()
    &&& r.len() == h.len()
    &&& forall|i: int| 0 <= i < perm.len() ==> 0 <= #[trigger] perm[i] < h.len()
    &&& forall|i: int, j: int|
        0 <= i < j < perm.len() ==> rank_before(o, h[perm[i]], perm[i], h[perm[j]], perm[j])
    &&& forall|i: int| 0 <= i < r.len() ==> r[i] == h[#[trigger] perm[i]]
}

/// `r` is the discovered names `h` in target order for priority list `o`.
pub open spec fn is_calculated_order(h: Seq<Seq<char>>, o: Seq<Seq<char>>, r: Seq<Seq<char>>) -> bool {
    exists|perm: Seq<int>| is_order_perm(h, o, perm, r)
}

/// Applying the order calculation to its own output changes nothing: a
/// name list that stands in calculated order for `o` is witnessed as its
/// own calculated order by the identity permutation.
pub proof fn lemma_order_fixed_point(
    h: Seq<Seq<char>>,
    o: Seq<Seq<char>>,
    perm: Seq<int>,
    r: Seq<Seq<char>>,
)
    requires
        is_order_perm(h, o, perm, r),
    ensures
        is_order_perm(r, o, Seq::new(r.len(), |i: int| i), r),
{
    let id = Seq::new(r.len(), |i: int| i);
    assert forall|i: int, j: int| 0 <= i < j < id.len() implies rank_before(
        o,
        r[id[i]],
        id[i],
        r[id[j]],
        id[j],
    ) by {
        let a = r[i];
        let b = r[j];
        assert(a == h[perm[i]] && b == h[perm[j]]);
        assert(rank_before(o, a, perm[i], b, perm[j]));
        let pa = last_index_of(o, crate::keys::group_key_of(a));
        let pb = last_index_of(o, crate::keys::group_key_of(b));
        lemma_last_index_of(o, crate::keys::group_key_of(a));
        lemma_last_index_of(o, crate::keys::group_key_of(b));
        if pa < 0 && pb >= 0 {
            assert(spec_weight(o, a, perm[i]) >= 2 * o.len());
            assert(spec_weight(o, b, perm[j]) < 2 * o.len());
            assert(false);
        }
    }
}

proof fn lemma_perm_incr_ge(perm: Seq<int>, i: int)
    requires
        forall|a: int, b: int| 0 <= a < b < perm.len() ==> perm[a] < perm[b],
        forall|a: int| 0 <= a < perm.len() ==> 0 <= #[trigger] perm[a],
        0 <= i < perm.len(),
    ensures
        perm[i] >= i,
    decreases i,
{
    if i > 0 {
        lemma_perm_incr_ge(perm, i - 1);
    }
}

proof fn lemma_perm_incr_le(perm: Seq<int>, i: int)
    requires
        forall|a: int, b: int| 0 <= a < b < perm.len() ==> perm[a] < perm[b],
        forall|a: int| 0 <= a < perm.len() ==> #[trigger] perm[a] < perm.len(),
        0 <= i < perm.len(),
    ensures
        perm[i] <= i,
    decreases perm.len() - i,
{
    if i < perm.len() - 1 {
        lemma_perm_incr_le(perm, i + 1);
    }
}

/// A priority list equal to the discovered names reproduces the discovered
/// order exactly, provided the names are distinct and none is a nested
/// form of another (each name is its own group key).  A nested name such
/// as one that extends a listed name's group key is moved next to its
/// exact match, so the restriction cannot be dropped.
pub proof fn lemma_self_priority_is_identity(h: Seq<Seq<char>>, perm: Seq<int>, r: Seq<Seq<char>>)
    requires
        is_order_perm(h, h, perm, r),
        forall|i: int| 0 <= i < h.len() ==> crate::keys::group_key_of(#[trigger] h[i]) == h[i],
        forall|i: int, j: int| 0 <= i < j < h.len() ==> h[i] != h[j],
    ensures
        r == h,
{
    assert forall|t: int| 0 <= t < h.len() implies last_index_of(h, #[trigger] h[t]) == t by {
        assert(h.contains(h[t]));
        lemma_last_index_of(h, h[t]);
        let l = last_index_of(h, h[t]);
        if l != t {
            assert(h[l] == h[t]);
        }
    }
    assert forall|t: int| 0 <= t < perm.len() implies spec_weight(h, h[#[trigger] perm[t]], perm[t])
        == 2 * perm[t] by {
        assert(crate::keys::group_key_of(h[perm[t]]) == h[perm[t]]);
    }
    assert forall|a: int, b: int| 0 <= a < b < perm.len() implies perm[a] < perm[b] by {
        assert(rank_before(h, h[perm[a]], perm[a], h[perm[b]], perm[b]));
    }
    assert forall|t: int| 0 <= t < perm.len() implies perm[t] == t by {
        lemma_perm_incr_ge(perm, t);
        lemma_perm_incr_le(perm, t);
    }
    assert forall|i: int| 0 <= i < r.len() implies r[i] == h[i] by {
        assert(r[i] == h[perm[i]]);
        assert(perm[i] == i);
    }
    assert(r =~= h);
}

proof fn lemma_insert_multiset<A>(s: Seq<A>, pos: int, v: A)
    requires
        0 <= pos <= s.len(),
    ensures
        s.insert(pos, v).to_multiset() == s.to_multiset().insert(v),
{
    broadcast use vstd::seq_lib::group_to_multiset_ensures;

    assert(s.insert(pos, v) =~= s.take(pos).push(v) + s.skip(pos));
    lemma_multiset_commutative(s.take(pos).push(v), s.skip(pos));
    lemma_multiset_commutative(s.take(pos), s.skip(pos));
    assert(s =~= s.take(pos) + s.skip(pos));
    assert(s.take(pos).push(v).to_multiset() == s.take(pos).to_multiset().insert(v));
    assert(s.take(pos).to_multiset().insert(v).add(s.skip(pos).to_multiset())
        =~= s.take(pos).to_multiset().add(s.skip(pos).to_multiset()).insert(v));
}

/// Index of the last string in `v` equal to `x`, if any.
pub(crate) fn find_last_str(v: &Vec<String>, x: &String) -> (r: Option<usize>)
    ensures
        match r {
            Some(j) => j < v@.len() && last_index_of(views(v@), x@) == j as int,
            None => last_index_of(views(v@), x@) == -1,
        },
{
    let ghost full = views(v@);
    proof {
        assert(full.take(v@.len() as int) =~= full);
    }
    let mut j = v.len();
    while j > 0
        invariant
            j <= v@.len(),
            full == views(v@),
            last_index_of(full, x@) == last_index_of(full.take(j as int), x@),
        decreases j,
    {
        j = j - 1;
        if v[j] == *x {
            proof {
                assert(full.take(j + 1).last() == x@);
            }
            return Some(j);
        }
        proof {
            assert(full.take(j + 1).last() == v@[j as int]@);
            assert(full.take(j + 1).last() != x@);
            assert(full.take(j + 1).drop_last() =~= full.take(j as int));
        }
    }
    proof {
        assert(full.take(0).len() == 0);
    }
    None
}

/// The weight of `name`, discovered at index `idx`, under priority list
/// `ordering`.
fn weight_of(ordering: &Vec<String>, name: &String, idx: usize) -> (w: u128)
    ensures
        w as int == spec_weight(views(ordering@), name@, idx as int),
{
    let key = get_key(name.as_str());
    match find_last_str(ordering, &key) {
        Some(p) => {
            let off: u128 = if key == *name {
                0
            } else {
                1
            };
            2u128 * (p as u128) + off
        }
        None => 2u128 * (ordering.len() as u128) + (idx as u128),
    }
}

/// The discovered names `headers`, reordered so that names whose group key
/// stands in `ordering` come first (in that order, an exact key before its
/// nested forms) and every other name follows in its original relative
/// order.
pub fn calculate_order(headers: &Vec<String>, ordering: &Vec<String>) -> (r: Vec<String>)
    ensures
        r@.len() == headers@.len(),
        is_calculated_order(views(headers@), views(ordering@), views(r@)),
        views(r@).to_multiset() == views(headers@).to_multiset(),
{
    let ghost hv = views(headers@);
    let ghost ov = views(ordering@);
    let mut items: Vec<(u128, usize, String)> = Vec::new();
    proof {
        assert(items@.map_values(|it: (u128, usize, String)| it.2@) =~= hv.take(0));
    }
    let mut i: usize = 0;
    while i < headers.len()
        invariant
            i <= headers@.len(),
            items@.len() == i as int,
            hv == views(headers@),
            ov == views(ordering@),
            forall|t: int|
                0 <= t < items@.len() ==> {
                    let it = #[trigger] items@[t];
                    &&& (it.1 as int) < i as int
                    &&& it.0 as int == spec_weight(ov, hv[it.1 as int], it.1 as int)
                    &&& it.2@ == hv[it.1 as int]
                },
            forall|t1: int, t2: int|
                0 <= t1 < t2 < items@.len() ==> rank_before(
                    ov,
                    hv[items@[t1].1 as int],
                    items@[t1].1 as int,
                    hv[items@[t2].1 as int],
                    items@[t2].1 as int,
                ),
            items@.map_values(|it: (u128, usize, String)| it.2@).to_multiset() == hv.take(
                i as int,
            ).to_multiset(),
        decreases headers@.len() - i,
    {
        let w = weight_of(ordering, &headers[i], i);
        let nm = headers[i].clone();
        let mut pos = items.len();
        while pos > 0 && items[pos - 1].0 > w
            invariant
                pos <= items@.len(),
                hv == views(headers@),
                ov == views(ordering@),
                w as int == spec_weight(ov, hv[i as int], i as int),
                i < headers@.len(),
                forall|t: int|
                    0 <= t < items@.len() ==> {
                        let it = #[trigger] items@[t];
                        &&& (it.1 as int) < i as int
                        &&& it.0 as int == spec_weight(ov, hv[it.1 as int], it.1 as int)
                    },
                forall|t: int|
                    pos <= t < items@.len() ==> rank_before(
                        ov,
                        hv[i as int],
                        i as int,
                        hv[items@[t].1 as int],
                        items@[t].1 as int,
                    ),
            decreases pos,
        {
            pos = pos - 1;
        }
        proof {
            if pos > 0 {
                let it = items@[pos as int - 1];
                assert(it.0 as int <= w as int);
            }
            lemma_insert_multiset(
                items@.map_values(|it: (u128, usize, String)| it.2@),
                pos as int,
                nm@,
            );
            broadcast use vstd::seq_lib::group_to_multiset_ensures;

            assert(hv.take(i + 1).drop_last() =~= hv.take(i as int));
            assert(hv.take(i + 1).to_multiset() == hv.take(i as int).to_multiset().insert(
                hv[i as int],
            )) by {
                assert(hv.take(i + 1) =~= hv.take(i as int).push(hv[i as int]));
            }
        }
        let ghost old_items = items@;
        items.insert(pos, (w, i, nm));
        proof {
            assert(items@.map_values(|it: (u128, usize, String)| it.2@) =~= old_items.map_values(
                |it: (u128, usize, String)| it.2@,
            ).insert(pos as int, hv[i as int]));
            assert forall|t1: int, t2: int| 0 <= t1 < t2 < items@.len() implies rank_before(
                ov,
                hv[items@[t1].1 as int],
                items@[t1].1 as int,
                hv[items@[t2].1 as int],
                items@[t2].1 as int,
            ) by {
                assert(items@ =~= old_items.insert(pos as int, (w, i, nm)));
                if t1 < pos && t2 > pos {
                    assert(items@[t1] == old_items[t1]);
                    assert(items@[t2] == old_items[t2 - 1]);
                } else if t1 < pos && t2 == pos {
                    let it = old_items[t1];
                    let prev = old_items[pos as int - 1];
                    if t1 < pos as int - 1 {
                        assert(rank_before(
                            ov,
                            hv[it.1 as int],
                            it.1 as int,
                            hv[prev.1 as int],
                            prev.1 as int,
                        ));
                    }
                    assert(it.0 as int <= prev.0 as int);
                    assert(it.0 as int <= w as int);
                } else if t1 == pos {
                    assert(items@[t2] == old_items[t2 - 1]);
                }
            }
        }
        i = i + 1;
    }
    proof {
        assert(hv.take(headers@.len() as int) =~= hv);
    }
    let ghost final_items = items@;
    let mut r: Vec<String> = Vec::new();
    while items.len() > 0
        invariant
            r@.len() + items@.len() == final_items.len(),
            forall|t: int|
                0 <= t < items@.len() ==> items@[t] == final_items[r@.len() + t],
            forall|t: int| 0 <= t < r@.len() ==> r@[t] == final_items[t].2,
        decreases items@.len(),
    {
        let it = items.remove(0);
        r.push(it.2);
    }
    proof {
        let perm = Seq::new(final_items.len() as nat, |t: int| final_items[t].1 as int);
        assert(views(r@) =~= final_items.map_values(|it: (u128, usize, String)| it.2@));
        assert(perm.len() == hv.len());
        assert(views(r@).len() == hv.len());
        assert(forall|t: int| 0 <= t < perm.len() ==> 0 <= #[trigger] perm[t] < hv.len());
        assert forall|t: int| 0 <= t < perm.len() implies views(r@)[t] == hv[#[trigger] perm[t]] by {
            assert(views(r@)[t] == final_items[t].2@);
        }
        assert(is_order_perm(hv, ov, perm, views(r@)));
    }
    r
}

} // verus!
