//! Ranking hits by tolerance value, then position.
use vstd::prelude::*;
use vstd::relations::{sorted_by, total_ordering};

use crate::model::{hit_of, hit_order, hit_order_fn, hits_of, Hit};
use crate::Point;

verus! {

/// The ranking order is a total order.
pub proof fn lemma_hit_order_total()
    ensures
        total_ordering(hit_order_fn()),
{
    let f = hit_order_fn();
    assert forall|a: Hit, b: Hit| #[trigger] f(a, b) && #[trigger] f(b, a) implies a == b by {}
    assert forall|a: Hit, b: Hit, c: Hit| #[trigger] f(a, b) && #[trigger] f(b, c) implies f(
        a,
        c,
    ) by {}
}

/// `a` ranks before or equal to `b`.
fn hit_le(a: (u8, Point), b: (u8, Point)) -> (r: bool)
    ensures
        r == hit_order(hit_of(a), hit_of(b)),
{
    a.0 < b.0 || (a.0 == b.0 && (a.1[0] < b.1[0] || (a.1[0] == b.1[0] && a.1[1] <= b.1[1])))
}

/// Sorts hits by tolerance value, then x, then y.
pub fn rank(v: &Vec<(u8, Point)>) -> (r: Vec<(u8, Point)>)
    ensures
        hits_of(r@) == hits_of(v@).sort_by(hit_order_fn()),
{
    let ghost leq = hit_order_fn();
    let ghost src = hits_of(v@);
    proof {
        lemma_hit_order_total();
    }
    let mut out: Vec<(u8, Point)> = Vec::new();
    let mut i: usize = 0;
    assert(hits_of(out@) =~= src.take(0));
    while i < v.len()
        invariant
            leq == hit_order_fn(),
            src == hits_of(v@),
            total_ordering(leq),
            0 <= i <= v.len(),
            sorted_by(hits_of(out@), leq),
            hits_of(out@).to_multiset() == src.take(i as int).to_multiset(),
        decreases v.len() - i,
    {
        let e = v[i];
        let ghost he = hit_of(e);
        let ghost ov = hits_of(out@);
        let mut p: usize = 0;
        while p < out.len() && hit_le(out[p], e)
            invariant
                ov == hits_of(out@),
                he == hit_of(e),
                0 <= p <= out.len(),
                forall|j: int| 0 <= j < p ==> leq(#[trigger] ov[j], he),
                leq == hit_order_fn(),
            decreases out.len() - p,
        {
            p = p + 1;
        }
        proof {
            if p < ov.len() {
                assert(!leq(ov[p as int], he));
            }
            assert forall|j: int| p <= j < ov.len() implies leq(he, #[trigger] ov[j]) by {
                assert(leq(ov[p as int], ov[j]) || p == j);
            }
        }
        out.insert(p, e);
        proof {
            let nv = hits_of(out@);
            assert(nv =~= ov.insert(p as int, he));
            assert forall|a: int, b: int| 0 <= a < b < nv.len() implies leq(
                #[trigger] nv[a],
                #[trigger] nv[b],
            ) by {
                if b < p {
                    assert(nv[a] == ov[a] && nv[b] == ov[b]);
                } else if b == p {
                    assert(nv[a] == ov[a]);
                } else if a < p {
                    assert(nv[a] == ov[a] && nv[b] == ov[b - 1]);
                    assert(leq(ov[a], he));
                    assert(leq(he, ov[b - 1]));
                } else if a == p {
                    assert(nv[b] == ov[b - 1]);
                } else {
                    assert(nv[a] == ov[a - 1] && nv[b] == ov[b - 1]);
                }
            }
            vstd::seq_lib::to_multiset_insert(ov, p as int, he);
            vstd::seq_lib::to_multiset_build(src.take(i as int), he);
            assert(src.take(i + 1) =~= src.take(i as int).push(he));
        }
        i = i + 1;
    }
    proof {
        assert(src.take(v.len() as int) =~= src);
        src.lemma_sort_by_ensures(leq);
        vstd::seq_lib::lemma_sorted_unique(hits_of(out@), src.sort_by(leq), leq);
    }
    out
}

} // verus!
