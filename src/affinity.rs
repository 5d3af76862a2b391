use vstd::prelude::*;
use std::collections::HashMap;
use crate::model::{ArticleId, ArticleLocation, Warehouse};

verus! {

broadcast use vstd::std_specs::hash::group_hash_axioms;

/// Number of entries of `arts` whose article is stored in warehouse `w`.
pub open spec fn line_count(arts: Seq<ArticleId>, locs: Map<ArticleId, ArticleLocation>, w: Warehouse) -> nat
    decreases arts.len(),
{
    if arts.len() == 0 {
        0
    } else {
        line_count(arts.drop_last(), locs, w) + if locs[arts.last()].warehouse == w {
            1nat
        } else {
            0nat
        }
    }
}

/// Ranking order on (warehouse, count) pairs: higher count first, then lower warehouse.
pub open spec fn ranks_before(a: (Warehouse, usize), b: (Warehouse, usize)) -> bool {
    a.1 > b.1 || (a.1 == b.1 && a.0 < b.0)
}

pub open spec fn in_ranking(r: Seq<(Warehouse, usize)>, w: Warehouse) -> bool {
    exists|i: int| 0 <= i < r.len() && (#[trigger] r[i]).0 == w
}

/// `r` is the list of the (at most three) best warehouses of the lines `arts`,
/// each with its line count, best first.
pub open spec fn is_ranking(
    arts: Seq<ArticleId>,
    locs: Map<ArticleId, ArticleLocation>,
    r: Seq<(Warehouse, usize)>,
) -> bool {
    &&& r.len() <= 3
    &&& forall|i: int|
        0 <= i < r.len() ==> (#[trigger] r[i]).1 == line_count(arts, locs, r[i].0) && r[i].1 > 0
    &&& forall|i: int, j: int| 0 <= i < j < r.len() ==> ranks_before(#[trigger] r[i], #[trigger] r[j])
    &&& forall|w: Warehouse|
        line_count(arts, locs, w) > 0 && !in_ranking(r, w) ==> r.len() == 3 && forall|i: int|
            0 <= i < r.len() ==> ranks_before(#[trigger] r[i], (w, line_count(arts, locs, w) as usize))
}

proof fn lemma_line_count_bound(arts: Seq<ArticleId>, locs: Map<ArticleId, ArticleLocation>, w: Warehouse)
    ensures
        line_count(arts, locs, w) <= arts.len(),
    decreases arts.len(),
{
    if arts.len() > 0 {
        lemma_line_count_bound(arts.drop_last(), locs, w);
    }
}

/// Per-warehouse line counts of `arts`, one entry per warehouse drawn from.
fn count_lines(arts: &Vec<ArticleId>, locs: &HashMap<ArticleId, ArticleLocation>) -> (cs: Vec<(Warehouse, usize)>)
    requires
        forall|j: int| 0 <= j < arts@.len() ==> locs@.contains_key(#[trigger] arts@[j]),
    ensures
        forall|k: int| 0 <= k < cs@.len() ==>
            (#[trigger] cs@[k]).1 == line_count(arts@, locs@, cs@[k].0) && cs@[k].1 > 0,
        forall|k1: int, k2: int| 0 <= k1 < k2 < cs@.len() ==> (#[trigger] cs@[k1]).0 != (#[trigger] cs@[k2]).0,
        forall|w: Warehouse| line_count(arts@, locs@, w) > 0 ==> exists|k: int| 0 <= k < cs@.len() && (#[trigger] cs@[k]).0 == w,
{
    let mut cs: Vec<(Warehouse, usize)> = Vec::new();
    let mut i: usize = 0;
    while i < arts.len()
        invariant
            i <= arts@.len(),
            forall|j: int| 0 <= j < arts@.len() ==> locs@.contains_key(#[trigger] arts@[j]),
            forall|k: int| 0 <= k < cs@.len() ==>
                (#[trigger] cs@[k]).1 == line_count(arts@.subrange(0, i as int), locs@, cs@[k].0) && cs@[k].1 > 0,
            forall|k1: int, k2: int| 0 <= k1 < k2 < cs@.len() ==> (#[trigger] cs@[k1]).0 != (#[trigger] cs@[k2]).0,
            forall|w: Warehouse| line_count(arts@.subrange(0, i as int), locs@, w) > 0 ==>
                exists|k: int| 0 <= k < cs@.len() && (#[trigger] cs@[k]).0 == w,
        decreases arts@.len() - i,
    {
        let w = match locs.get(&arts[i]) {
            Some(l) => l.warehouse,
            None => 0,
        };
        let ghost pre = arts@.subrange(0, i as int);
        let ghost post = arts@.subrange(0, i + 1);
        assert(post.drop_last() == pre);
        assert(post.last() == arts@[i as int]);
        proof {
            lemma_line_count_bound(pre, locs@, w);
        }
        let mut k: usize = 0;
        while k < cs.len() && cs[k].0 != w
            invariant
                k <= cs@.len(),
                forall|j: int| 0 <= j < k ==> (#[trigger] cs@[j]).0 != w,
            decreases cs@.len() - k,
        {
            k += 1;
        }
        let found = k < cs.len();
        let ghost cs0 = cs@;
        if found {
            let c = cs[k].1;
            cs.set(k, (w, c + 1));
        } else {
            cs.push((w, 1));
            assert(cs@[cs@.len() - 1].0 == w);
        }
        i += 1;
        assert forall|w2: Warehouse| line_count(post, locs@, w2) > 0 implies
            exists|k: int| 0 <= k < cs@.len() && (#[trigger] cs@[k]).0 == w2 by {
            if w2 != w {
                assert(line_count(pre, locs@, w2) > 0);
                let kk = choose|kk: int| 0 <= kk < cs0.len() && (#[trigger] cs0[kk]).0 == w2;
                assert(cs@[kk].0 == w2);
            } else if found {
                assert(cs@[k as int].0 == w2);
            } else {
                assert(cs@[cs@.len() - 1].0 == w2);
            }
        }
    }
    assert(arts@.subrange(0, i as int) == arts@);
    cs
}

fn ranking_holds(r: &Vec<(Warehouse, usize)>, w: Warehouse) -> (b: bool)
    ensures
        b == in_ranking(r@, w),
{
    let mut i: usize = 0;
    while i < r.len()
        invariant
            i <= r@.len(),
            forall|j: int| 0 <= j < i ==> (#[trigger] r@[j]).0 != w,
        decreases r@.len() - i,
    {
        if r[i].0 == w {
            assert(r@[i as int].0 == w);
            return true;
        }
        i += 1;
    }
    false
}

/// The warehouses that the lines `arts` draw from, best three first: more lines
/// first, and of two with as many lines, the lower identifier first.
pub fn rank_order(arts: &Vec<ArticleId>, locs: &HashMap<ArticleId, ArticleLocation>) -> (r: Vec<(Warehouse, usize)>)
    requires
        forall|j: int| 0 <= j < arts@.len() ==> locs@.contains_key(#[trigger] arts@[j]),
    ensures
        is_ranking(arts@, locs@, r@),
{
    let cs = count_lines(arts, locs);
    let mut r: Vec<(Warehouse, usize)> = Vec::new();
    let mut done = false;
    while r.len() < 3 && !done
        invariant
            r@.len() <= 3,
            forall|k: int| 0 <= k < cs@.len() ==>
                (#[trigger] cs@[k]).1 == line_count(arts@, locs@, cs@[k].0) && cs@[k].1 > 0,
            forall|k1: int, k2: int| 0 <= k1 < k2 < cs@.len() ==> (#[trigger] cs@[k1]).0 != (#[trigger] cs@[k2]).0,
            forall|i: int| 0 <= i < r@.len() ==> cs@.contains(#[trigger] r@[i]),
            forall|i: int, j: int| 0 <= i < j < r@.len() ==> ranks_before(#[trigger] r@[i], #[trigger] r@[j]),
            forall|k: int| 0 <= k < cs@.len() && !in_ranking(r@, (#[trigger] cs@[k]).0) ==>
                forall|i: int| 0 <= i < r@.len() ==> ranks_before(#[trigger] r@[i], cs@[k]),
            done ==> forall|k: int| 0 <= k < cs@.len() ==> in_ranking(r@, (#[trigger] cs@[k]).0),
        decreases 4 - r@.len() - (if done { 1int } else { 0int }),
    {
        let mut best: usize = 0;
        let mut has_best = false;
        let mut k: usize = 0;
        while k < cs.len()
            invariant
                k <= cs@.len(),
                forall|k1: int, k2: int| 0 <= k1 < k2 < cs@.len() ==> (#[trigger] cs@[k1]).0 != (#[trigger] cs@[k2]).0,
                forall|i: int| 0 <= i < r@.len() ==> cs@.contains(#[trigger] r@[i]),
                has_best ==> best < k && !in_ranking(r@, cs@[best as int].0),
                has_best ==> forall|j: int| 0 <= j < k && !in_ranking(r@, (#[trigger] cs@[j]).0) ==>
                    j == best || ranks_before(cs@[best as int], cs@[j]),
                !has_best ==> forall|j: int| 0 <= j < k ==> in_ranking(r@, (#[trigger] cs@[j]).0),
            decreases cs@.len() - k,
        {
            let cand = cs[k];
            if !ranking_holds(&r, cand.0) {
                if !has_best || cand.1 > cs[best].1 || (cand.1 == cs[best].1 && cand.0 < cs[best].0) {
                    best = k;
                    has_best = true;
                }
            }
            k += 1;
        }
        if has_best {
            let ghost r0 = r@;
            let chosen = cs[best];
            r.push(chosen);
            assert(r@ == r0.push(chosen));
            assert forall|kk: int| 0 <= kk < cs@.len() && !in_ranking(r@, (#[trigger] cs@[kk]).0) implies
                forall|i: int| 0 <= i < r@.len() ==> ranks_before(#[trigger] r@[i], cs@[kk]) by {
                assert(!in_ranking(r0, cs@[kk].0)) by {
                    if in_ranking(r0, cs@[kk].0) {
                        let i = choose|i: int| 0 <= i < r0.len() && (#[trigger] r0[i]).0 == cs@[kk].0;
                        assert(r@[i].0 == cs@[kk].0);
                    }
                }
                assert(r@[r@.len() - 1].0 == chosen.0);
                assert(kk != best);
            }
            assert forall|kk: int| 0 <= kk < cs@.len() && !in_ranking(r0, (#[trigger] cs@[kk]).0) implies
                !in_ranking(r@, cs@[kk].0) || kk == best by {
                if in_ranking(r@, cs@[kk].0) {
                    let i = choose|i: int| 0 <= i < r@.len() && (#[trigger] r@[i]).0 == cs@[kk].0;
                    if i < r0.len() {
                        assert(r0[i].0 == cs@[kk].0);
                    }
                }
            }
            assert forall|i: int| 0 <= i < r@.len() implies cs@.contains(#[trigger] r@[i]) by {
                if i == r0.len() {
                    assert(cs@[best as int] == r@[i]);
                } else {
                    assert(r@[i] == r0[i]);
                    assert(cs@.contains(r0[i]));
                }
            }
            assert forall|kk: int| 0 <= kk < cs@.len() && in_ranking(r0, (#[trigger] cs@[kk]).0) implies
                in_ranking(r@, cs@[kk].0) by {
                let i = choose|i: int| 0 <= i < r0.len() && (#[trigger] r0[i]).0 == cs@[kk].0;
                assert(r@[i] == r0[i]);
            }
        } else {
            done = true;
        }
    }
    assert forall|w: Warehouse| line_count(arts@, locs@, w) > 0 && !in_ranking(r@, w) implies r@.len() == 3
        && forall|i: int| 0 <= i < r@.len() ==> ranks_before(#[trigger] r@[i], (w, line_count(arts@, locs@, w) as usize)) by {
        let k = choose|k: int| 0 <= k < cs@.len() && (#[trigger] cs@[k]).0 == w;
        assert(cs@[k] == (w, line_count(arts@, locs@, w) as usize));
    }
    assert forall|i: int| 0 <= i < r@.len() implies (#[trigger] r@[i]).1 == line_count(arts@, locs@, r@[i].0) && r@[i].1 > 0 by {
        assert(cs@.contains(r@[i]));
    }
    r
}

} // verus!
