use vstd::prelude::*;
use crate::affinity::{in_ranking, is_ranking, line_count};
use crate::model::{tier_list, ArticleId, BatchView, ArticleLocation, Model, Size, Volume, Warehouse};
use crate::solution::{
    batch_pass, batch_pass_lines, batch_pass_orders, batch_step, first_tier, plan, wave_pass, wave_pass_list,
    wave_step, SolutionView,
};

verus! {

/// How often `o` occurs in `s`.
pub open spec fn count_in(s: Seq<usize>, o: usize) -> nat
    decreases s.len(),
{
    if s.len() == 0 {
        0
    } else {
        count_in(s.drop_last(), o) + if s.last() == o {
            1nat
        } else {
            0nat
        }
    }
}

/// How often `o` occurs over all the lists of `mem`.
pub open spec fn total_count(mem: Seq<Seq<usize>>, o: usize) -> nat
    decreases mem.len(),
{
    if mem.len() == 0 {
        0
    } else {
        total_count(mem.drop_last(), o) + count_in(mem.last(), o)
    }
}

/// How often `o` occurs over the order lists of the tier `ws`.
pub open spec fn tier_count(ws: Seq<(Warehouse, Seq<usize>)>, o: usize) -> nat
    decreases ws.len(),
{
    if ws.len() == 0 {
        0
    } else {
        tier_count(ws.drop_last(), o) + count_in(ws.last().1, o)
    }
}

/// The wave indices that the wave planner relies on.
pub open spec fn wave_indices_ok(v: SolutionView) -> bool {
    &&& v.members.len() == v.waves.len()
    &&& forall|w: Warehouse| #[trigger] v.open_wave.contains_key(w) ==> v.open_wave[w] < v.waves.len()
    &&& batch_indices_ok(v)
}

/// The batch indices that the batch packer relies on.
pub open spec fn batch_indices_ok(v: SolutionView) -> bool {
    &&& v.open_batches.len() == v.waves.len()
    &&& forall|i: int, w: Warehouse| 0 <= i < v.open_batches.len() && #[trigger] v.open_batches[i].contains_key(w)
        ==> v.open_batches[i][w] < v.batches.len()
}

/// Number of lines placed over the batches `bs`.
pub open spec fn items_total(bs: Seq<BatchView>) -> nat
    decreases bs.len(),
{
    if bs.len() == 0 {
        0
    } else {
        items_total(bs.drop_last()) + bs.last().items.len()
    }
}

/// Number of lines of the orders at positions `os`.
pub open spec fn member_lines(m: Model, os: Seq<usize>) -> nat
    decreases os.len(),
{
    if os.len() == 0 {
        0
    } else {
        member_lines(m, os.drop_last()) + m.orders@[os.last() as int].article_ids@.len()
    }
}

/// Number of lines of the orders of the first `n` lists of `mem`.
pub open spec fn wave_lines(m: Model, mem: Seq<Seq<usize>>, n: nat) -> nat
    decreases n,
{
    if n == 0 {
        0
    } else {
        wave_lines(m, mem, (n - 1) as nat) + member_lines(m, mem[n - 1])
    }
}

/// Number of lines of the first `n` orders.
pub open spec fn order_lines(m: Model, n: nat) -> nat
    decreases n,
{
    if n == 0 {
        0
    } else {
        order_lines(m, (n - 1) as nat) + m.orders@[n - 1].article_ids@.len()
    }
}

/// Lines of the first `n` orders, each counted as often as it occurs in `mem`.
pub open spec fn weighted_lines(m: Model, mem: Seq<Seq<usize>>, n: nat) -> nat
    decreases n,
{
    if n == 0 {
        0
    } else {
        weighted_lines(m, mem, (n - 1) as nat) + m.orders@[n - 1].article_ids@.len() * total_count(mem, (n - 1) as usize)
    }
}

proof fn lemma_total_count_push(mem: Seq<Seq<usize>>, x: usize, o: usize)
    ensures
        total_count(mem.push(seq![x]), o) == total_count(mem, o) + if x == o { 1nat } else { 0nat },
{
    assert(mem.push(seq![x]).drop_last() == mem);
    assert(seq![x].drop_last() == Seq::<usize>::empty());
    assert(count_in(Seq::<usize>::empty(), o) == 0);
    assert(count_in(seq![x], o) == if x == o { 1nat } else { 0nat });
}

proof fn lemma_total_count_update(mem: Seq<Seq<usize>>, i: int, x: usize, o: usize)
    requires
        0 <= i < mem.len(),
    ensures
        total_count(mem.update(i, mem[i].push(x)), o) == total_count(mem, o) + if x == o { 1nat } else { 0nat },
    decreases mem.len(),
{
    let m2 = mem.update(i, mem[i].push(x));
    assert(mem[i].push(x).drop_last() == mem[i]);
    if i == mem.len() - 1 {
        assert(m2.drop_last() == mem.drop_last());
    } else {
        lemma_total_count_update(mem.drop_last(), i, x, o);
        assert(m2.drop_last() == mem.drop_last().update(i, mem[i].push(x)));
    }
}

proof fn lemma_wave_step_count(v: SolutionView, m: Model, o: int, w: Warehouse, cap: Size, x: usize)
    requires
        wave_indices_ok(v),
    ensures
        wave_indices_ok(wave_step(v, m, o, w, cap)),
        wave_step(v, m, o, w, cap).batches == v.batches,
        total_count(wave_step(v, m, o, w, cap).members, x) == total_count(v.members, x)
            + if o as usize == x { 1nat } else { 0nat },
{
    let v2 = wave_step(v, m, o, w, cap);
    let len = m.orders@[o].article_ids@.len();
    if v.open_wave.contains_key(w) && v.waves[v.open_wave[w] as int].size + len <= cap {
        lemma_total_count_update(v.members, v.open_wave[w] as int, o as usize, x);
    } else {
        lemma_total_count_push(v.members, o as usize, x);
        assert forall|w2: Warehouse| #[trigger] v2.open_wave.contains_key(w2) implies v2.open_wave[w2] < v2.waves.len() by {
            if w2 != w {
                assert(v.open_wave.contains_key(w2));
            }
        }
        assert forall|i: int, w2: Warehouse| 0 <= i < v2.open_batches.len() && #[trigger] v2.open_batches[i].contains_key(w2)
            implies v2.open_batches[i][w2] < v2.batches.len() by {
            if i < v.open_batches.len() {
                assert(v2.open_batches[i] == v.open_batches[i]);
            }
        }
    }
}

proof fn lemma_wave_pass_list_count(v: SolutionView, m: Model, cap: Size, w: Warehouse, l: Seq<usize>, x: usize)
    requires
        wave_indices_ok(v),
    ensures
        wave_indices_ok(wave_pass_list(v, m, cap, w, l)),
        wave_pass_list(v, m, cap, w, l).batches == v.batches,
        total_count(wave_pass_list(v, m, cap, w, l).members, x) == total_count(v.members, x) + count_in(l, x),
    decreases l.len(),
{
    if l.len() > 0 {
        lemma_wave_pass_list_count(v, m, cap, w, l.drop_last(), x);
        lemma_wave_step_count(wave_pass_list(v, m, cap, w, l.drop_last()), m, l.last() as int, w, cap, x);
    }
}

proof fn lemma_wave_pass_count(v: SolutionView, m: Model, cap: Size, ws: Seq<(Warehouse, Seq<usize>)>, x: usize)
    requires
        wave_indices_ok(v),
    ensures
        wave_indices_ok(wave_pass(v, m, cap, ws)),
        wave_pass(v, m, cap, ws).batches == v.batches,
        total_count(wave_pass(v, m, cap, ws).members, x) == total_count(v.members, x) + tier_count(ws, x),
    decreases ws.len(),
{
    if ws.len() > 0 {
        lemma_wave_pass_count(v, m, cap, ws.drop_last(), x);
        lemma_wave_pass_list_count(wave_pass(v, m, cap, ws.drop_last()), m, cap, ws.last().0, ws.last().1, x);
    }
}

proof fn lemma_tier_list_count(rankings: Seq<Seq<(Warehouse, usize)>>, w: Warehouse, x: usize)
    requires
        rankings.len() <= usize::MAX,
    ensures
        count_in(tier_list(rankings, 0, w), x) == if x < rankings.len() && rankings[x as int].len() > 0
            && rankings[x as int][0].0 == w {
            1nat
        } else {
            0nat
        },
    decreases rankings.len(),
{
    if rankings.len() > 0 {
        let rest = rankings.drop_last();
        lemma_tier_list_count(rest, w, x);
        let t = tier_list(rankings, 0, w);
        let last = rankings.last();
        if last.len() > 0 && last[0].0 == w {
            assert(t == tier_list(rest, 0, w).push((rankings.len() - 1) as usize));
            assert(t.drop_last() == tier_list(rest, 0, w));
            assert(t.last() == (rankings.len() - 1) as usize);
        } else {
            assert(t == tier_list(rest, 0, w));
        }
        if x < rest.len() {
            assert(rest[x as int] == rankings[x as int]);
        }
    }
}

/// Over a prefix of the first tier: `x` occurs once if its first warehouse is
/// among the first `k` warehouses.
proof fn lemma_first_tier_count(m: Model, k: int, x: usize)
    requires
        m.wf(),
        0 <= k <= m.warehouses@.len(),
    ensures
        tier_count(first_tier(m).subrange(0, k), x) == if x < m.orders@.len() && m.rankings@[x as int]@.len() > 0
            && exists|j: int| 0 <= j < k && m.warehouses@[j] == m.rankings@[x as int]@[0].0 {
            1nat
        } else {
            0nat
        },
    decreases k,
{
    let ws = first_tier(m);
    let rv = m.rankings_view();
    if k > 0 {
        lemma_first_tier_count(m, k - 1, x);
        assert(ws.subrange(0, k).drop_last() == ws.subrange(0, k - 1));
        let wk = m.warehouses@[k - 1];
        assert(ws.subrange(0, k).last() == ws[k - 1]);
        assert(m.warehouse_orders@[0]@[k - 1].0 == wk);
        assert(ws[k - 1].1 == tier_list(rv, 0, wk));
        lemma_tier_list_count(rv, wk, x);
        if x < m.orders@.len() {
            assert(rv[x as int] == m.rankings@[x as int]@);
            if m.rankings@[x as int]@.len() > 0 {
                let f = m.rankings@[x as int]@[0].0;
                if exists|j: int| 0 <= j < k - 1 && m.warehouses@[j] == f {
                    let j = choose|j: int| 0 <= j < k - 1 && m.warehouses@[j] == f;
                    assert(m.warehouses@[j] < m.warehouses@[k - 1]);
                } else if wk == f {
                    assert(exists|j: int| 0 <= j < k && m.warehouses@[j] == f) by {
                        assert(m.warehouses@[k - 1] == f);
                    }
                } else {
                    assert forall|j: int| 0 <= j < k implies m.warehouses@[j] != f by {
                        if j < k - 1 {
                            assert(!(0 <= j < k - 1 && m.warehouses@[j] == f));
                        }
                    }
                }
            }
        }
    } else {
        assert(ws.subrange(0, 0).len() == 0);
    }
}

proof fn lemma_line_count_witness(arts: Seq<ArticleId>, locs: Map<ArticleId, ArticleLocation>, w: Warehouse)
    requires
        line_count(arts, locs, w) > 0,
    ensures
        exists|j: int| 0 <= j < arts.len() && locs[#[trigger] arts[j]].warehouse == w,
    decreases arts.len(),
{
    if locs[arts.last()].warehouse != w {
        lemma_line_count_witness(arts.drop_last(), locs, w);
        let j = choose|j: int| 0 <= j < arts.drop_last().len() && locs[#[trigger] arts.drop_last()[j]].warehouse == w;
        assert(arts[j] == arts.drop_last()[j]);
    } else {
        assert(locs[arts[arts.len() - 1]].warehouse == w);
    }
}

proof fn lemma_line_count_positive(arts: Seq<ArticleId>, locs: Map<ArticleId, ArticleLocation>, j: int)
    requires
        0 <= j < arts.len(),
    ensures
        line_count(arts, locs, locs[arts[j]].warehouse) > 0,
    decreases arts.len(),
{
    if j < arts.len() - 1 {
        lemma_line_count_positive(arts.drop_last(), locs, j);
        assert(arts.drop_last()[j] == arts[j]);
    }
}

proof fn lemma_batch_pass_lines_members(v: SolutionView, m: Model, cap: Volume, o: int, arts: Seq<ArticleId>, wave: int)
    ensures
        batch_pass_lines(v, m, cap, o, arts, wave).members == v.members,
    decreases arts.len(),
{
    if arts.len() > 0 {
        lemma_batch_pass_lines_members(v, m, cap, o, arts.drop_last(), wave);
    }
}

proof fn lemma_batch_pass_orders_members(v: SolutionView, m: Model, cap: Volume, os: Seq<usize>, wave: int)
    ensures
        batch_pass_orders(v, m, cap, os, wave).members == v.members,
    decreases os.len(),
{
    if os.len() > 0 {
        lemma_batch_pass_orders_members(v, m, cap, os.drop_last(), wave);
        let o = os.last() as int;
        lemma_batch_pass_lines_members(batch_pass_orders(v, m, cap, os.drop_last(), wave), m, cap, o, m.orders@[o].article_ids@, wave);
    }
}

proof fn lemma_batch_pass_members(v: SolutionView, m: Model, cap: Volume, mem: Seq<Seq<usize>>, n: nat)
    ensures
        batch_pass(v, m, cap, mem, n).members == v.members,
    decreases n,
{
    if n > 0 {
        lemma_batch_pass_members(v, m, cap, mem, (n - 1) as nat);
        lemma_batch_pass_orders_members(batch_pass(v, m, cap, mem, (n - 1) as nat), m, cap, mem[n - 1], n - 1);
    }
}

proof fn lemma_items_total_push(bs: Seq<BatchView>, b: BatchView)
    ensures
        items_total(bs.push(b)) == items_total(bs) + b.items.len(),
{
    assert(bs.push(b).drop_last() == bs);
}

proof fn lemma_items_total_update(bs: Seq<BatchView>, i: int, b: BatchView)
    requires
        0 <= i < bs.len(),
    ensures
        items_total(bs.update(i, b)) + bs[i].items.len() == items_total(bs) + b.items.len(),
    decreases bs.len(),
{
    let b2 = bs.update(i, b);
    if i == bs.len() - 1 {
        assert(b2.drop_last() == bs.drop_last());
    } else {
        lemma_items_total_update(bs.drop_last(), i, b);
        assert(b2.drop_last() == bs.drop_last().update(i, b));
    }
}

proof fn lemma_batch_step_items(v: SolutionView, m: Model, o: usize, a: ArticleId, wave: int, cap: Volume)
    requires
        batch_indices_ok(v),
        0 <= wave < v.waves.len(),
    ensures
        batch_indices_ok(batch_step(v, m, o, a, wave, cap)),
        batch_step(v, m, o, a, wave, cap).waves.len() == v.waves.len(),
        items_total(batch_step(v, m, o, a, wave, cap).batches) == items_total(v.batches) + 1,
        v.batches.len() <= batch_step(v, m, o, a, wave, cap).batches.len(),
{
    let v2 = batch_step(v, m, o, a, wave, cap);
    let loc = m.article_locations@[a];
    let vol = m.article_volumes@[a];
    let w = loc.warehouse;
    if crate::solution::joins_open(v, wave, w, vol, cap) {
        let b = v.open_batches[wave][w] as int;
        lemma_items_total_update(v.batches, b, crate::solution::place(v.batches[b], o, a, vol, loc));
        assert forall|i: int, w2: Warehouse| 0 <= i < v2.open_batches.len() && #[trigger] v2.open_batches[i].contains_key(w2)
            implies v2.open_batches[i][w2] < v2.batches.len() by {
            if i != wave || w2 != w {
                assert(v.open_batches[i].contains_key(w2));
            }
        }
    } else {
        let n = v.batches.len() as usize;
        lemma_items_total_push(v.batches, crate::solution::place(crate::solution::empty_batch(n), o, a, vol, loc));
        assert forall|i: int, w2: Warehouse| 0 <= i < v2.open_batches.len() && #[trigger] v2.open_batches[i].contains_key(w2)
            implies v2.open_batches[i][w2] < v2.batches.len() by {
            if i != wave || w2 != w {
                assert(v.open_batches[i].contains_key(w2));
            }
        }
    }
}

proof fn lemma_batch_pass_lines_items(v: SolutionView, m: Model, cap: Volume, o: int, arts: Seq<ArticleId>, wave: int)
    requires
        batch_indices_ok(v),
        0 <= wave < v.waves.len(),
    ensures
        batch_indices_ok(batch_pass_lines(v, m, cap, o, arts, wave)),
        batch_pass_lines(v, m, cap, o, arts, wave).waves.len() == v.waves.len(),
        items_total(batch_pass_lines(v, m, cap, o, arts, wave).batches) == items_total(v.batches) + arts.len(),
        v.batches.len() <= batch_pass_lines(v, m, cap, o, arts, wave).batches.len(),
    decreases arts.len(),
{
    if arts.len() > 0 {
        lemma_batch_pass_lines_items(v, m, cap, o, arts.drop_last(), wave);
        lemma_batch_step_items(batch_pass_lines(v, m, cap, o, arts.drop_last(), wave), m, m.orders@[o].id, arts.last(), wave, cap);
    }
}

proof fn lemma_batch_pass_orders_items(v: SolutionView, m: Model, cap: Volume, os: Seq<usize>, wave: int)
    requires
        batch_indices_ok(v),
        0 <= wave < v.waves.len(),
    ensures
        batch_indices_ok(batch_pass_orders(v, m, cap, os, wave)),
        batch_pass_orders(v, m, cap, os, wave).waves.len() == v.waves.len(),
        items_total(batch_pass_orders(v, m, cap, os, wave).batches) == items_total(v.batches) + member_lines(m, os),
        v.batches.len() <= batch_pass_orders(v, m, cap, os, wave).batches.len(),
    decreases os.len(),
{
    if os.len() > 0 {
        lemma_batch_pass_orders_items(v, m, cap, os.drop_last(), wave);
        let o = os.last() as int;
        lemma_batch_pass_lines_items(batch_pass_orders(v, m, cap, os.drop_last(), wave), m, cap, o, m.orders@[o].article_ids@, wave);
    }
}

proof fn lemma_batch_pass_items(v: SolutionView, m: Model, cap: Volume, mem: Seq<Seq<usize>>, n: nat)
    requires
        batch_indices_ok(v),
        n <= v.waves.len(),
    ensures
        batch_indices_ok(batch_pass(v, m, cap, mem, n)),
        batch_pass(v, m, cap, mem, n).waves.len() == v.waves.len(),
        items_total(batch_pass(v, m, cap, mem, n).batches) == items_total(v.batches) + wave_lines(m, mem, n),
        v.batches.len() <= batch_pass(v, m, cap, mem, n).batches.len(),
    decreases n,
{
    if n > 0 {
        lemma_batch_pass_items(v, m, cap, mem, (n - 1) as nat);
        lemma_batch_pass_orders_items(batch_pass(v, m, cap, mem, (n - 1) as nat), m, cap, mem[n - 1], n - 1);
    }
}

/// Two occurrence counts that differ by one occurrence of `x` give weighted
/// sums that differ by the lines of `x`.
proof fn lemma_weighted_shift(m: Model, mem1: Seq<Seq<usize>>, mem2: Seq<Seq<usize>>, x: usize, n: nat)
    requires
        n <= usize::MAX,
        forall|p: usize| #[trigger] total_count(mem1, p) == total_count(mem2, p) + if p == x { 1nat } else { 0nat },
    ensures
        weighted_lines(m, mem1, n) == weighted_lines(m, mem2, n) + if x < n { m.orders@[x as int].article_ids@.len() } else { 0nat },
    decreases n,
{
    if n > 0 {
        lemma_weighted_shift(m, mem1, mem2, x, (n - 1) as nat);
        let p = (n - 1) as usize;
        let l = m.orders@[n - 1].article_ids@.len();
        let c2 = total_count(mem2, p);
        assert(total_count(mem1, p) == c2 + if p == x { 1nat } else { 0nat });
        assert(l * (c2 + 1) == l * c2 + l) by (nonlinear_arith);
    }
}

proof fn lemma_weighted_empty(m: Model, mem: Seq<Seq<usize>>, n: nat)
    requires
        n <= usize::MAX,
        forall|p: usize| #[trigger] total_count(mem, p) == 0,
    ensures
        weighted_lines(m, mem, n) == 0,
    decreases n,
{
    if n > 0 {
        lemma_weighted_empty(m, mem, (n - 1) as nat);
        assert(total_count(mem, (n - 1) as usize) == 0);
    }
}

proof fn lemma_count_in_last(s: Seq<usize>, p: usize)
    requires
        s.len() > 0,
    ensures
        count_in(s, p) == count_in(s.drop_last(), p) + if p == s.last() { 1nat } else { 0nat },
{
}

/// The lines of the orders of the first `n` lists of `mem`, counted list by
/// list, equal their lines weighted by occurrences.
proof fn lemma_wave_lines_weighted(m: Model, mem: Seq<Seq<usize>>, n: nat)
    requires
        n <= mem.len(),
        m.orders@.len() <= usize::MAX,
        forall|i: int, j: int| 0 <= i < mem.len() && 0 <= j < mem[i].len() ==> (#[trigger] mem[i][j]) < m.orders@.len(),
    ensures
        wave_lines(m, mem, n) == weighted_lines(m, mem.subrange(0, n as int), m.orders@.len()),
    decreases n, 0nat,
{
    if n == 0 {
        assert forall|p: usize| #[trigger] total_count(mem.subrange(0, 0), p) == 0 by {}
        lemma_weighted_empty(m, mem.subrange(0, 0), m.orders@.len());
    } else {
        lemma_wave_lines_weighted(m, mem, (n - 1) as nat);
        let pre = mem.subrange(0, n - 1);
        let os = mem[n - 1];
        lemma_list_weighted(m, pre, os, os.len());
        assert(os.subrange(0, os.len() as int) == os);
        assert(pre.push(os) == mem.subrange(0, n as int));
        assert(mem.subrange(0, n as int).drop_last() == pre);
    }
}

/// Adding the list `os` (its first `j` entries) after `pre` adds its lines to the weighted sum.
proof fn lemma_list_weighted(m: Model, pre: Seq<Seq<usize>>, os: Seq<usize>, j: nat)
    requires
        j <= os.len(),
        m.orders@.len() <= usize::MAX,
        forall|jj: int| 0 <= jj < os.len() ==> (#[trigger] os[jj]) < m.orders@.len(),
    ensures
        weighted_lines(m, pre.push(os.subrange(0, j as int)), m.orders@.len())
            == weighted_lines(m, pre, m.orders@.len()) + member_lines(m, os.subrange(0, j as int)),
    decreases j,
{
    let n = m.orders@.len();
    if j == 0 {
        let e = Seq::<usize>::empty();
        assert(os.subrange(0, 0) == e);
        assert forall|p: usize| #[trigger] total_count(pre.push(e), p) == total_count(pre, p) by {
            assert(pre.push(e).drop_last() == pre);
            assert(count_in(e, p) == 0);
        }
        lemma_weighted_same(m, pre.push(e), pre, n);
    } else {
        lemma_list_weighted(m, pre, os, (j - 1) as nat);
        let s1 = os.subrange(0, j as int);
        let s0 = os.subrange(0, j - 1);
        let x = os[j - 1];
        assert(s1.drop_last() == s0);
        assert(s1.last() == x);
        assert forall|p: usize| #[trigger] total_count(pre.push(s1), p) == total_count(pre.push(s0), p) + if p == x { 1nat } else { 0nat } by {
            assert(pre.push(s1).drop_last() == pre);
            assert(pre.push(s0).drop_last() == pre);
            lemma_count_in_last(s1, p);
        }
        lemma_weighted_shift(m, pre.push(s1), pre.push(s0), x, n);
    }
}

proof fn lemma_weighted_same(m: Model, mem1: Seq<Seq<usize>>, mem2: Seq<Seq<usize>>, n: nat)
    requires
        n <= usize::MAX,
        forall|p: usize| #[trigger] total_count(mem1, p) == total_count(mem2, p),
    ensures
        weighted_lines(m, mem1, n) == weighted_lines(m, mem2, n),
    decreases n,
{
    if n > 0 {
        lemma_weighted_same(m, mem1, mem2, (n - 1) as nat);
        assert(total_count(mem1, (n - 1) as usize) == total_count(mem2, (n - 1) as usize));
    }
}

/// Order coverage: planning from an empty state puts every order that has at
/// least one line into exactly one wave, exactly once (orders are named by
/// their position in the order list).
pub proof fn lemma_order_coverage(v: SolutionView, m: Model, wave_cap: Size, batch_cap: Volume, o: usize)
    requires
        m.wf(),
        v.waves.len() == 0,
        v.members.len() == 0,
        v.open_wave == Map::<Warehouse, usize>::empty(),
        v.open_batches.len() == 0,
        o < m.orders@.len(),
        m.orders@[o as int].article_ids@.len() > 0,
    ensures
        total_count(plan(v, m, wave_cap, batch_cap).members, o) == 1,
{
    let ws = first_tier(m);
    lemma_wave_pass_count(v, m, wave_cap, ws, o);
    let after = wave_pass(v, m, wave_cap, ws);
    lemma_batch_pass_members(after, m, batch_cap, after.members, after.waves.len());
    assert(ws.len() == m.warehouses@.len());
    assert(ws.subrange(0, ws.len() as int) == ws);
    lemma_first_tier_count(m, ws.len() as int, o);
    let arts = m.orders@[o as int].article_ids@;
    let locs = m.article_locations@;
    let r = m.rankings@[o as int]@;
    assert(is_ranking(arts, locs, r));
    assert(locs.contains_key(arts[0]));
    lemma_line_count_positive(arts, locs, 0);
    if r.len() == 0 {
        assert(!in_ranking(r, locs[arts[0]].warehouse));
    }
    assert(r[0].1 > 0);
    lemma_line_count_witness(arts, locs, r[0].0);
    let j = choose|j: int| 0 <= j < arts.len() && locs[#[trigger] arts[j]].warehouse == r[0].0;
    assert(locs.contains_key(arts[j]));
    let k = choose|k: int| 0 <= k < m.warehouses@.len() && m.warehouses@[k] == r[0].0;
    assert(total_count(v.members, o) == 0);
}

/// Every wave member is the position of an order.
pub open spec fn members_bounded(v: SolutionView, n: nat) -> bool {
    forall|i: int, j: int| 0 <= i < v.members.len() && 0 <= j < v.members[i].len() ==> (#[trigger] v.members[i][j]) < n
}

proof fn lemma_wave_pass_list_bounded(v: SolutionView, m: Model, cap: Size, w: Warehouse, l: Seq<usize>)
    requires
        wave_indices_ok(v),
        members_bounded(v, m.orders@.len()),
        forall|j: int| 0 <= j < l.len() ==> (#[trigger] l[j]) < m.orders@.len(),
    ensures
        members_bounded(wave_pass_list(v, m, cap, w, l), m.orders@.len()),
    decreases l.len(),
{
    if l.len() > 0 {
        lemma_wave_pass_list_bounded(v, m, cap, w, l.drop_last());
        let v1 = wave_pass_list(v, m, cap, w, l.drop_last());
        lemma_wave_pass_list_count(v, m, cap, w, l.drop_last(), 0);
        let v2 = wave_step(v1, m, l.last() as int, w, cap);
        let len = m.orders@[l.last() as int].article_ids@.len();
        assert forall|i: int, j: int| 0 <= i < v2.members.len() && 0 <= j < v2.members[i].len()
            implies (#[trigger] v2.members[i][j]) < m.orders@.len() by {
            if v1.open_wave.contains_key(w) && v1.waves[v1.open_wave[w] as int].size + len <= cap {
                let k = v1.open_wave[w] as int;
                if i == k && j == v1.members[k].len() {
                } else if i == k {
                    assert(v2.members[i][j] == v1.members[i][j]);
                }
            } else if i < v1.members.len() {
                assert(v2.members[i] == v1.members[i]);
            }
        }
    }
}

proof fn lemma_wave_pass_bounded(v: SolutionView, m: Model, cap: Size, ws: Seq<(Warehouse, Seq<usize>)>)
    requires
        wave_indices_ok(v),
        members_bounded(v, m.orders@.len()),
        forall|k: int, j: int| 0 <= k < ws.len() && 0 <= j < ws[k].1.len() ==> (#[trigger] ws[k].1[j]) < m.orders@.len(),
    ensures
        members_bounded(wave_pass(v, m, cap, ws), m.orders@.len()),
    decreases ws.len(),
{
    if ws.len() > 0 {
        lemma_wave_pass_bounded(v, m, cap, ws.drop_last());
        lemma_wave_pass_count(v, m, cap, ws.drop_last(), 0);
        let last = ws.last();
        assert forall|j: int| 0 <= j < last.1.len() implies (#[trigger] last.1[j]) < m.orders@.len() by {
            assert(ws[ws.len() - 1].1[j] == last.1[j]);
        }
        lemma_wave_pass_list_bounded(wave_pass(v, m, cap, ws.drop_last()), m, cap, last.0, last.1);
    }
}

proof fn lemma_weighted_is_order_lines(v: SolutionView, m: Model, wave_cap: Size, batch_cap: Volume, k: nat)
    requires
        m.wf(),
        v.waves.len() == 0,
        v.members.len() == 0,
        v.open_wave == Map::<Warehouse, usize>::empty(),
        v.open_batches.len() == 0,
        k <= m.orders@.len(),
    ensures
        weighted_lines(m, plan(v, m, wave_cap, batch_cap).members, k) == order_lines(m, k),
    decreases k,
{
    if k > 0 {
        lemma_weighted_is_order_lines(v, m, wave_cap, batch_cap, (k - 1) as nat);
        let p = (k - 1) as usize;
        let l = m.orders@[k - 1].article_ids@.len();
        let c = total_count(plan(v, m, wave_cap, batch_cap).members, p);
        if l > 0 {
            lemma_order_coverage(v, m, wave_cap, batch_cap, p);
        } else {
            assert(0 * c == 0) by (nonlinear_arith);
        }
    }
}

/// Line coverage, in count: planning from an empty state places as many lines
/// over all batches as the orders have lines.
pub proof fn lemma_line_total(v: SolutionView, m: Model, wave_cap: Size, batch_cap: Volume)
    requires
        m.wf(),
        v.waves.len() == 0,
        v.batches.len() == 0,
        v.members.len() == 0,
        v.open_wave == Map::<Warehouse, usize>::empty(),
        v.open_batches.len() == 0,
    ensures
        items_total(plan(v, m, wave_cap, batch_cap).batches) == order_lines(m, m.orders@.len()),
{
    let ws = first_tier(m);
    lemma_wave_pass_count(v, m, wave_cap, ws, 0);
    let rv = m.rankings_view();
    assert forall|k: int, j: int| 0 <= k < ws.len() && 0 <= j < ws[k].1.len() implies (#[trigger] ws[k].1[j]) < m.orders@.len() by {
        crate::solution::lemma_tier_list_bound(rv, 0, m.warehouses@[k]);
        assert(ws[k].1 == tier_list(rv, 0, m.warehouses@[k]));
    }
    lemma_wave_pass_bounded(v, m, wave_cap, ws);
    let after = wave_pass(v, m, wave_cap, ws);
    let mem = after.members;
    let n = after.waves.len();
    assert(items_total(after.batches) == 0);
    lemma_batch_pass_items(after, m, batch_cap, mem, n);
    lemma_batch_pass_members(after, m, batch_cap, mem, n);
    lemma_wave_lines_weighted(m, mem, n);
    assert(mem.subrange(0, n as int) == mem);
    lemma_weighted_is_order_lines(v, m, wave_cap, batch_cap, m.orders@.len());
}

/// Each wave's order list holds the identities of the orders at its member positions.
pub open spec fn ids_match(v: SolutionView, m: Model) -> bool {
    &&& v.members.len() == v.waves.len()
    &&& forall|i: int| 0 <= i < v.waves.len() ==> (#[trigger] v.waves[i]).order_ids
        == v.members[i].map_values(|p: usize| m.orders@[p as int].id)
}

proof fn lemma_wave_step_ids(v: SolutionView, m: Model, o: int, w: Warehouse, cap: Size)
    requires
        wave_indices_ok(v),
        ids_match(v, m),
        0 <= o <= usize::MAX,
    ensures
        ids_match(wave_step(v, m, o, w, cap), m),
{
    let v2 = wave_step(v, m, o, w, cap);
    let len = m.orders@[o].article_ids@.len();
    assert forall|i: int| 0 <= i < v2.waves.len() implies (#[trigger] v2.waves[i]).order_ids
        == v2.members[i].map_values(|p: usize| m.orders@[p as int].id) by {
        if v.open_wave.contains_key(w) && v.waves[v.open_wave[w] as int].size + len <= cap {
            let k = v.open_wave[w] as int;
            if i == k {
                assert(v2.members[i].map_values(|p: usize| m.orders@[p as int].id)
                    =~= v.members[i].map_values(|p: usize| m.orders@[p as int].id).push(m.orders@[o].id));
            } else {
                assert(v2.waves[i] == v.waves[i]);
            }
        } else if i < v.waves.len() {
            assert(v2.waves[i] == v.waves[i]);
        } else {
            assert(v2.members[i].map_values(|p: usize| m.orders@[p as int].id) =~= seq![m.orders@[o].id]);
        }
    }
}

proof fn lemma_wave_pass_list_ids(v: SolutionView, m: Model, cap: Size, w: Warehouse, l: Seq<usize>)
    requires
        wave_indices_ok(v),
        ids_match(v, m),
    ensures
        ids_match(wave_pass_list(v, m, cap, w, l), m),
    decreases l.len(),
{
    if l.len() > 0 {
        lemma_wave_pass_list_ids(v, m, cap, w, l.drop_last());
        lemma_wave_pass_list_count(v, m, cap, w, l.drop_last(), 0);
        lemma_wave_step_ids(wave_pass_list(v, m, cap, w, l.drop_last()), m, l.last() as int, w, cap);
    }
}

proof fn lemma_wave_pass_ids(v: SolutionView, m: Model, cap: Size, ws: Seq<(Warehouse, Seq<usize>)>)
    requires
        wave_indices_ok(v),
        ids_match(v, m),
    ensures
        ids_match(wave_pass(v, m, cap, ws), m),
    decreases ws.len(),
{
    if ws.len() > 0 {
        lemma_wave_pass_ids(v, m, cap, ws.drop_last());
        lemma_wave_pass_count(v, m, cap, ws.drop_last(), 0);
        lemma_wave_pass_list_ids(wave_pass(v, m, cap, ws.drop_last()), m, cap, ws.last().0, ws.last().1);
    }
}

proof fn lemma_batch_step_ids(v: SolutionView, m: Model, o: usize, a: ArticleId, wave: int, cap: Volume)
    requires
        ids_match(v, m),
        0 <= wave < v.waves.len(),
    ensures
        ids_match(batch_step(v, m, o, a, wave, cap), m),
{
    let v2 = batch_step(v, m, o, a, wave, cap);
    assert forall|i: int| 0 <= i < v2.waves.len() implies (#[trigger] v2.waves[i]).order_ids
        == v2.members[i].map_values(|p: usize| m.orders@[p as int].id) by {
        assert(v2.waves[i].order_ids == v.waves[i].order_ids);
    }
}

proof fn lemma_batch_pass_lines_ids(v: SolutionView, m: Model, cap: Volume, o: int, arts: Seq<ArticleId>, wave: int)
    requires
        ids_match(v, m),
        batch_indices_ok(v),
        0 <= wave < v.waves.len(),
    ensures
        ids_match(batch_pass_lines(v, m, cap, o, arts, wave), m),
    decreases arts.len(),
{
    if arts.len() > 0 {
        lemma_batch_pass_lines_ids(v, m, cap, o, arts.drop_last(), wave);
        lemma_batch_pass_lines_items(v, m, cap, o, arts.drop_last(), wave);
        lemma_batch_step_ids(batch_pass_lines(v, m, cap, o, arts.drop_last(), wave), m, m.orders@[o].id, arts.last(), wave, cap);
    }
}

proof fn lemma_batch_pass_orders_ids(v: SolutionView, m: Model, cap: Volume, os: Seq<usize>, wave: int)
    requires
        ids_match(v, m),
        batch_indices_ok(v),
        0 <= wave < v.waves.len(),
    ensures
        ids_match(batch_pass_orders(v, m, cap, os, wave), m),
    decreases os.len(),
{
    if os.len() > 0 {
        lemma_batch_pass_orders_ids(v, m, cap, os.drop_last(), wave);
        lemma_batch_pass_orders_items(v, m, cap, os.drop_last(), wave);
        let o = os.last() as int;
        lemma_batch_pass_lines_ids(batch_pass_orders(v, m, cap, os.drop_last(), wave), m, cap, o, m.orders@[o].article_ids@, wave);
    }
}

proof fn lemma_batch_pass_ids(v: SolutionView, m: Model, cap: Volume, mem: Seq<Seq<usize>>, n: nat)
    requires
        ids_match(v, m),
        batch_indices_ok(v),
        n <= v.waves.len(),
    ensures
        ids_match(batch_pass(v, m, cap, mem, n), m),
    decreases n,
{
    if n > 0 {
        lemma_batch_pass_ids(v, m, cap, mem, (n - 1) as nat);
        lemma_batch_pass_items(v, m, cap, mem, (n - 1) as nat);
        lemma_batch_pass_orders_ids(batch_pass(v, m, cap, mem, (n - 1) as nat), m, cap, mem[n - 1], n - 1);
    }
}

/// Order lists: planning from an empty state leaves in each wave's order list
/// the identities of the orders at its member positions.
pub proof fn lemma_order_ids_follow_members(v: SolutionView, m: Model, wave_cap: Size, batch_cap: Volume)
    requires
        v.waves.len() == 0,
        v.members.len() == 0,
        v.open_wave == Map::<Warehouse, usize>::empty(),
        v.open_batches.len() == 0,
    ensures
        ids_match(plan(v, m, wave_cap, batch_cap), m),
{
    let ws = first_tier(m);
    lemma_wave_pass_ids(v, m, wave_cap, ws);
    lemma_wave_pass_count(v, m, wave_cap, ws, 0);
    let after = wave_pass(v, m, wave_cap, ws);
    lemma_batch_pass_ids(after, m, batch_cap, after.members, after.waves.len());
}

/// Each batch is listed under one wave at most, every open batch of a wave is
/// listed under it, and every line of a batch listed under a wave belongs to an
/// order of that wave.
pub open spec fn batches_in_waves(v: SolutionView) -> bool {
    &&& forall|i: int, k: int| 0 <= i < v.waves.len() && 0 <= k < v.waves[i].batch_ids.len()
        ==> (#[trigger] v.waves[i].batch_ids[k]) < v.batches.len()
    &&& forall|i1: int, k1: int, i2: int, k2: int|
        0 <= i1 < v.waves.len() && 0 <= k1 < v.waves[i1].batch_ids.len() && 0 <= i2 < v.waves.len() && 0 <= k2
            < v.waves[i2].batch_ids.len() && #[trigger] v.waves[i1].batch_ids[k1] == #[trigger] v.waves[i2].batch_ids[k2]
            ==> i1 == i2
    &&& forall|i: int, k: int, t: int|
        0 <= i < v.waves.len() && 0 <= k < v.waves[i].batch_ids.len() && 0 <= t
            < v.batches[v.waves[i].batch_ids[k] as int].items.len()
            ==> v.waves[i].order_ids.contains(#[trigger] v.batches[v.waves[i].batch_ids[k] as int].items[t].order_id)
    &&& forall|i: int, w: Warehouse| 0 <= i < v.open_batches.len() && #[trigger] v.open_batches[i].contains_key(w)
        ==> v.waves[i].batch_ids.contains(v.open_batches[i][w])
}

proof fn lemma_wave_step_in_waves(v: SolutionView, m: Model, o: int, w: Warehouse, cap: Size)
    requires
        wave_indices_ok(v),
        batches_in_waves(v),
    ensures
        batches_in_waves(wave_step(v, m, o, w, cap)),
{
    let v2 = wave_step(v, m, o, w, cap);
    let len = m.orders@[o].article_ids@.len();
    if v.open_wave.contains_key(w) && v.waves[v.open_wave[w] as int].size + len <= cap {
        let q = v.open_wave[w] as int;
        assert forall|i: int, k: int, t: int|
            0 <= i < v2.waves.len() && 0 <= k < v2.waves[i].batch_ids.len() && 0 <= t
                < v2.batches[v2.waves[i].batch_ids[k] as int].items.len() implies
                v2.waves[i].order_ids.contains(#[trigger] v2.batches[v2.waves[i].batch_ids[k] as int].items[t].order_id) by {
            let x = v.batches[v.waves[i].batch_ids[k] as int].items[t].order_id;
            assert(v.waves[i].order_ids.contains(x));
            if i == q {
                let j = choose|j: int| 0 <= j < v.waves[i].order_ids.len() && v.waves[i].order_ids[j] == x;
                assert(v2.waves[i].order_ids[j] == x);
            }
        }
    } else {
        assert forall|i: int, w2: Warehouse| 0 <= i < v2.open_batches.len() && #[trigger] v2.open_batches[i].contains_key(w2)
            implies v2.waves[i].batch_ids.contains(v2.open_batches[i][w2]) by {
            assert(i < v.open_batches.len());
        }
    }
}

proof fn lemma_wave_pass_list_in_waves(v: SolutionView, m: Model, cap: Size, w: Warehouse, l: Seq<usize>)
    requires
        wave_indices_ok(v),
        batches_in_waves(v),
    ensures
        batches_in_waves(wave_pass_list(v, m, cap, w, l)),
    decreases l.len(),
{
    if l.len() > 0 {
        lemma_wave_pass_list_in_waves(v, m, cap, w, l.drop_last());
        lemma_wave_pass_list_count(v, m, cap, w, l.drop_last(), 0);
        lemma_wave_step_in_waves(wave_pass_list(v, m, cap, w, l.drop_last()), m, l.last() as int, w, cap);
    }
}

proof fn lemma_wave_pass_in_waves(v: SolutionView, m: Model, cap: Size, ws: Seq<(Warehouse, Seq<usize>)>)
    requires
        wave_indices_ok(v),
        batches_in_waves(v),
    ensures
        batches_in_waves(wave_pass(v, m, cap, ws)),
    decreases ws.len(),
{
    if ws.len() > 0 {
        lemma_wave_pass_in_waves(v, m, cap, ws.drop_last());
        lemma_wave_pass_count(v, m, cap, ws.drop_last(), 0);
        lemma_wave_pass_list_in_waves(wave_pass(v, m, cap, ws.drop_last()), m, cap, ws.last().0, ws.last().1);
    }
}

proof fn lemma_batch_step_in_waves(v: SolutionView, m: Model, o: usize, a: ArticleId, wave: int, cap: Volume)
    requires
        batch_indices_ok(v),
        batches_in_waves(v),
        0 <= wave < v.waves.len(),
        v.waves[wave].order_ids.contains(o),
        batch_step(v, m, o, a, wave, cap).batches.len() <= usize::MAX,
    ensures
        batches_in_waves(batch_step(v, m, o, a, wave, cap)),
        forall|i: int| 0 <= i < v.waves.len() ==> (#[trigger] batch_step(v, m, o, a, wave, cap).waves[i]).order_ids
            == v.waves[i].order_ids,
{
    let v2 = batch_step(v, m, o, a, wave, cap);
    let loc = m.article_locations@[a];
    let vol = m.article_volumes@[a];
    let w = loc.warehouse;
    if crate::solution::joins_open(v, wave, w, vol, cap) {
        let b = v.open_batches[wave][w];
        assert(v.waves[wave].batch_ids.contains(b));
        let k0 = choose|k0: int| 0 <= k0 < v.waves[wave].batch_ids.len() && v.waves[wave].batch_ids[k0] == b;
        assert forall|i: int, k: int, t: int|
            0 <= i < v2.waves.len() && 0 <= k < v2.waves[i].batch_ids.len() && 0 <= t
                < v2.batches[v2.waves[i].batch_ids[k] as int].items.len() implies
                v2.waves[i].order_ids.contains(#[trigger] v2.batches[v2.waves[i].batch_ids[k] as int].items[t].order_id) by {
            let bb = v.waves[i].batch_ids[k];
            if bb == b {
                assert(v.waves[wave].batch_ids[k0] == v.waves[i].batch_ids[k]);
                assert(i == wave);
                if t < v.batches[b as int].items.len() {
                    assert(v2.batches[b as int].items[t] == v.batches[b as int].items[t]);
                }
            } else {
                assert(v2.batches[bb as int] == v.batches[bb as int]);
            }
        }
        assert forall|i: int, w2: Warehouse| 0 <= i < v2.open_batches.len() && #[trigger] v2.open_batches[i].contains_key(w2)
            implies v2.waves[i].batch_ids.contains(v2.open_batches[i][w2]) by {
            if i != wave || w2 != w {
                assert(v.open_batches[i].contains_key(w2));
            }
        }
    } else {
        let n = v.batches.len() as usize;
        let ids = v.waves[wave].batch_ids;
        assert(v2.waves[wave].batch_ids == ids.push(n));
        assert forall|i: int, k: int| 0 <= i < v2.waves.len() && 0 <= k < v2.waves[i].batch_ids.len()
            implies (#[trigger] v2.waves[i].batch_ids[k]) < v2.batches.len() by {
            if i == wave && k == ids.len() {
            } else {
                assert(v2.waves[i].batch_ids[k] == v.waves[i].batch_ids[k]);
            }
        }
        assert forall|i1: int, k1: int, i2: int, k2: int|
            0 <= i1 < v2.waves.len() && 0 <= k1 < v2.waves[i1].batch_ids.len() && 0 <= i2 < v2.waves.len() && 0 <= k2
                < v2.waves[i2].batch_ids.len() && #[trigger] v2.waves[i1].batch_ids[k1] == #[trigger] v2.waves[i2].batch_ids[k2]
                implies i1 == i2 by {
            let new1 = i1 == wave && k1 == ids.len();
            let new2 = i2 == wave && k2 == ids.len();
            if !new1 {
                if i1 != wave {
                    assert(v2.waves[i1] == v.waves[i1]);
                }
                assert(k1 < v.waves[i1].batch_ids.len());
                assert(v2.waves[i1].batch_ids[k1] == v.waves[i1].batch_ids[k1]);
                assert(v.waves[i1].batch_ids[k1] < n);
            }
            if !new2 {
                if i2 != wave {
                    assert(v2.waves[i2] == v.waves[i2]);
                }
                assert(k2 < v.waves[i2].batch_ids.len());
                assert(v2.waves[i2].batch_ids[k2] == v.waves[i2].batch_ids[k2]);
                assert(v.waves[i2].batch_ids[k2] < n);
            }
            if !new1 && !new2 {
                assert(v.waves[i1].batch_ids[k1] == v.waves[i2].batch_ids[k2]);
            }
        }
        assert forall|i: int, k: int, t: int|
            0 <= i < v2.waves.len() && 0 <= k < v2.waves[i].batch_ids.len() && 0 <= t
                < v2.batches[v2.waves[i].batch_ids[k] as int].items.len() implies
                v2.waves[i].order_ids.contains(#[trigger] v2.batches[v2.waves[i].batch_ids[k] as int].items[t].order_id) by {
            if i == wave && k == ids.len() {
                let nb = crate::solution::place(crate::solution::empty_batch(n), o, a, vol, loc);
                assert(v2.batches[n as int] == nb);
                assert(nb.items =~= seq![crate::model::Item { order_id: o, article_id: a }]);
                assert(v2.batches[n as int].items[t].order_id == o);
            } else {
                let bb = v.waves[i].batch_ids[k];
                assert(v2.waves[i].batch_ids[k] == bb);
                assert(v2.batches[bb as int] == v.batches[bb as int]);
            }
        }
        assert forall|i: int, w2: Warehouse| 0 <= i < v2.open_batches.len() && #[trigger] v2.open_batches[i].contains_key(w2)
            implies v2.waves[i].batch_ids.contains(v2.open_batches[i][w2]) by {
            if i == wave && w2 == w {
                assert(v2.waves[i].batch_ids[ids.len() as int] == n);
            } else {
                assert(v.open_batches[i].contains_key(w2));
                let x = v.open_batches[i][w2];
                let j = choose|j: int| 0 <= j < v.waves[i].batch_ids.len() && v.waves[i].batch_ids[j] == x;
                assert(v2.waves[i].batch_ids[j] == x);
            }
        }
    }
}

proof fn lemma_batch_pass_lines_in_waves(v: SolutionView, m: Model, cap: Volume, o: int, arts: Seq<ArticleId>, wave: int)
    requires
        batch_indices_ok(v),
        batches_in_waves(v),
        0 <= wave < v.waves.len(),
        v.waves[wave].order_ids.contains(m.orders@[o].id),
        batch_pass_lines(v, m, cap, o, arts, wave).batches.len() <= usize::MAX,
    ensures
        batches_in_waves(batch_pass_lines(v, m, cap, o, arts, wave)),
        forall|i: int| 0 <= i < v.waves.len() ==> (#[trigger] batch_pass_lines(v, m, cap, o, arts, wave).waves[i]).order_ids
            == v.waves[i].order_ids,
    decreases arts.len(),
{
    if arts.len() > 0 {
        lemma_batch_pass_lines_items(v, m, cap, o, arts.drop_last(), wave);
        let v1 = batch_pass_lines(v, m, cap, o, arts.drop_last(), wave);
        lemma_batch_step_items(v1, m, m.orders@[o].id, arts.last(), wave, cap);
        lemma_batch_pass_lines_in_waves(v, m, cap, o, arts.drop_last(), wave);
        assert(v1.waves[wave].order_ids == v.waves[wave].order_ids);
        lemma_batch_step_in_waves(v1, m, m.orders@[o].id, arts.last(), wave, cap);
        let v2 = batch_step(v1, m, m.orders@[o].id, arts.last(), wave, cap);
        assert forall|i: int| 0 <= i < v.waves.len() implies (#[trigger] v2.waves[i]).order_ids == v.waves[i].order_ids by {
            assert(v1.waves[i].order_ids == v.waves[i].order_ids);
        }
    }
}

proof fn lemma_batch_pass_orders_in_waves(v: SolutionView, m: Model, cap: Volume, os: Seq<usize>, wave: int)
    requires
        batch_indices_ok(v),
        batches_in_waves(v),
        0 <= wave < v.waves.len(),
        forall|j: int| 0 <= j < os.len() ==> v.waves[wave].order_ids.contains(m.orders@[#[trigger] os[j] as int].id),
        batch_pass_orders(v, m, cap, os, wave).batches.len() <= usize::MAX,
    ensures
        batches_in_waves(batch_pass_orders(v, m, cap, os, wave)),
        forall|i: int| 0 <= i < v.waves.len() ==> (#[trigger] batch_pass_orders(v, m, cap, os, wave).waves[i]).order_ids
            == v.waves[i].order_ids,
    decreases os.len(),
{
    if os.len() > 0 {
        let os0 = os.drop_last();
        assert forall|j: int| 0 <= j < os0.len() implies v.waves[wave].order_ids.contains(m.orders@[#[trigger] os0[j] as int].id) by {
            assert(os0[j] == os[j]);
        }
        lemma_batch_pass_orders_items(v, m, cap, os0, wave);
        let o = os.last() as int;
        let v1 = batch_pass_orders(v, m, cap, os0, wave);
        lemma_batch_pass_lines_items(v1, m, cap, o, m.orders@[o].article_ids@, wave);
        lemma_batch_pass_orders_in_waves(v, m, cap, os0, wave);
        assert(v1.waves[wave].order_ids == v.waves[wave].order_ids);
        assert(os[os.len() - 1] == os.last());
        lemma_batch_pass_lines_in_waves(v1, m, cap, o, m.orders@[o].article_ids@, wave);
        let v2 = batch_pass_lines(v1, m, cap, o, m.orders@[o].article_ids@, wave);
        assert forall|i: int| 0 <= i < v.waves.len() implies (#[trigger] v2.waves[i]).order_ids == v.waves[i].order_ids by {
            assert(v1.waves[i].order_ids == v.waves[i].order_ids);
        }
    }
}

proof fn lemma_batch_pass_in_waves(v: SolutionView, m: Model, cap: Volume, n: nat)
    requires
        batch_indices_ok(v),
        batches_in_waves(v),
        ids_match(v, m),
        n <= v.waves.len(),
        batch_pass(v, m, cap, v.members, n).batches.len() <= usize::MAX,
    ensures
        batches_in_waves(batch_pass(v, m, cap, v.members, n)),
        forall|i: int| 0 <= i < v.waves.len() ==> (#[trigger] batch_pass(v, m, cap, v.members, n).waves[i]).order_ids
            == v.waves[i].order_ids,
    decreases n,
{
    if n > 0 {
        lemma_batch_pass_items(v, m, cap, v.members, (n - 1) as nat);
        let v1 = batch_pass(v, m, cap, v.members, (n - 1) as nat);
        let wave = n - 1;
        let os = v.members[wave];
        lemma_batch_pass_orders_items(v1, m, cap, os, wave);
        lemma_batch_pass_in_waves(v, m, cap, (n - 1) as nat);
        assert forall|j: int| 0 <= j < os.len() implies v1.waves[wave].order_ids.contains(m.orders@[#[trigger] os[j] as int].id) by {
            assert(v1.waves[wave].order_ids == v.waves[wave].order_ids);
            assert(v.waves[wave].order_ids[j] == m.orders@[os[j] as int].id);
        }
        lemma_batch_pass_orders_in_waves(v1, m, cap, os, wave);
        let v2 = batch_pass_orders(v1, m, cap, os, wave);
        assert forall|i: int| 0 <= i < v.waves.len() implies (#[trigger] v2.waves[i]).order_ids == v.waves[i].order_ids by {
            assert(v1.waves[i].order_ids == v.waves[i].order_ids);
        }
    }
}

/// Lines stay in their wave: planning from an empty state lists each batch
/// under one wave at most, and every line of a batch listed under a wave
/// belongs to an order of that wave.
pub proof fn lemma_lines_stay_in_their_wave(v: SolutionView, m: Model, wave_cap: Size, batch_cap: Volume)
    requires
        v.waves.len() == 0,
        v.batches.len() == 0,
        v.members.len() == 0,
        v.open_wave == Map::<Warehouse, usize>::empty(),
        v.open_batches.len() == 0,
        plan(v, m, wave_cap, batch_cap).batches.len() <= usize::MAX,
    ensures
        batches_in_waves(plan(v, m, wave_cap, batch_cap)),
{
    let ws = first_tier(m);
    lemma_wave_pass_in_waves(v, m, wave_cap, ws);
    lemma_wave_pass_ids(v, m, wave_cap, ws);
    lemma_wave_pass_count(v, m, wave_cap, ws, 0);
    let after = wave_pass(v, m, wave_cap, ws);
    lemma_batch_pass_in_waves(after, m, batch_cap, after.waves.len());
}

/// Each wave's size is the number of lines of its orders.
pub open spec fn sizes_match(v: SolutionView, m: Model) -> bool {
    &&& v.members.len() == v.waves.len()
    &&& forall|i: int| 0 <= i < v.waves.len() ==> (#[trigger] v.waves[i]).size == member_lines(m, v.members[i])
}

proof fn lemma_wave_step_sizes(v: SolutionView, m: Model, o: int, w: Warehouse, cap: Size)
    requires
        wave_indices_ok(v),
        sizes_match(v, m),
        0 <= o <= usize::MAX,
        m.orders@[o].article_ids@.len() <= usize::MAX,
    ensures
        sizes_match(wave_step(v, m, o, w, cap), m),
{
    let v2 = wave_step(v, m, o, w, cap);
    let len = m.orders@[o].article_ids@.len();
    assert forall|i: int| 0 <= i < v2.waves.len() implies (#[trigger] v2.waves[i]).size == member_lines(m, v2.members[i]) by {
        if v.open_wave.contains_key(w) && v.waves[v.open_wave[w] as int].size + len <= cap {
            let k = v.open_wave[w] as int;
            if i == k {
                assert(v2.members[i].drop_last() == v.members[i]);
                assert(v2.members[i].last() == o as usize);
                assert(member_lines(m, v2.members[i]) == member_lines(m, v.members[i]) + len);
                assert(v.waves[i].size == member_lines(m, v.members[i]));
            } else {
                assert(v2.waves[i] == v.waves[i]);
            }
        } else if i < v.waves.len() {
            assert(v2.waves[i] == v.waves[i]);
        } else {
            assert(v2.members[i].drop_last() == Seq::<usize>::empty());
            assert(v2.members[i].last() == o as usize);
            assert(member_lines(m, Seq::<usize>::empty()) == 0);
            assert(member_lines(m, v2.members[i]) == len);
        }
    }
}

proof fn lemma_wave_pass_list_sizes(v: SolutionView, m: Model, cap: Size, w: Warehouse, l: Seq<usize>)
    requires
        wave_indices_ok(v),
        sizes_match(v, m),
        forall|o: int| 0 <= o < m.orders@.len() ==> (#[trigger] m.orders@[o]).article_ids@.len() <= usize::MAX,
        forall|j: int| 0 <= j < l.len() ==> (#[trigger] l[j]) < m.orders@.len(),
    ensures
        sizes_match(wave_pass_list(v, m, cap, w, l), m),
    decreases l.len(),
{
    if l.len() > 0 {
        lemma_wave_pass_list_sizes(v, m, cap, w, l.drop_last());
        lemma_wave_pass_list_count(v, m, cap, w, l.drop_last(), 0);
        assert(l[l.len() - 1] < m.orders@.len());
        lemma_wave_step_sizes(wave_pass_list(v, m, cap, w, l.drop_last()), m, l.last() as int, w, cap);
    }
}

proof fn lemma_wave_pass_sizes(v: SolutionView, m: Model, cap: Size, ws: Seq<(Warehouse, Seq<usize>)>)
    requires
        wave_indices_ok(v),
        sizes_match(v, m),
        forall|o: int| 0 <= o < m.orders@.len() ==> (#[trigger] m.orders@[o]).article_ids@.len() <= usize::MAX,
        forall|k: int, j: int| 0 <= k < ws.len() && 0 <= j < ws[k].1.len() ==> (#[trigger] ws[k].1[j]) < m.orders@.len(),
    ensures
        sizes_match(wave_pass(v, m, cap, ws), m),
    decreases ws.len(),
{
    if ws.len() > 0 {
        lemma_wave_pass_sizes(v, m, cap, ws.drop_last());
        lemma_wave_pass_count(v, m, cap, ws.drop_last(), 0);
        let last = ws.last();
        assert forall|j: int| 0 <= j < last.1.len() implies (#[trigger] last.1[j]) < m.orders@.len() by {
            assert(ws[ws.len() - 1].1[j] == last.1[j]);
        }
        lemma_wave_pass_list_sizes(wave_pass(v, m, cap, ws.drop_last()), m, cap, last.0, last.1);
    }
}

proof fn lemma_batch_pass_waves_kept(v: SolutionView, m: Model, cap: Volume, n: nat)
    requires
        batch_indices_ok(v),
        n <= v.waves.len(),
    ensures
        forall|i: int| 0 <= i < v.waves.len() ==> (#[trigger] batch_pass(v, m, cap, v.members, n).waves[i]).size
            == v.waves[i].size,
    decreases n,
{
    if n > 0 {
        lemma_batch_pass_waves_kept(v, m, cap, (n - 1) as nat);
        lemma_batch_pass_items(v, m, cap, v.members, (n - 1) as nat);
        lemma_batch_pass_sizes_orders(batch_pass(v, m, cap, v.members, (n - 1) as nat), m, cap, v.members[n - 1], n - 1);
    }
}

proof fn lemma_batch_pass_sizes_lines(v: SolutionView, m: Model, cap: Volume, o: int, arts: Seq<ArticleId>, wave: int)
    requires
        batch_indices_ok(v),
        0 <= wave < v.waves.len(),
    ensures
        batch_pass_lines(v, m, cap, o, arts, wave).waves.len() == v.waves.len(),
        forall|i: int| 0 <= i < v.waves.len() ==> (#[trigger] batch_pass_lines(v, m, cap, o, arts, wave).waves[i]).size
            == v.waves[i].size,
    decreases arts.len(),
{
    if arts.len() > 0 {
        lemma_batch_pass_sizes_lines(v, m, cap, o, arts.drop_last(), wave);
        lemma_batch_pass_lines_items(v, m, cap, o, arts.drop_last(), wave);
        let v1 = batch_pass_lines(v, m, cap, o, arts.drop_last(), wave);
        let v2 = batch_step(v1, m, m.orders@[o].id, arts.last(), wave, cap);
        assert forall|i: int| 0 <= i < v.waves.len() implies (#[trigger] v2.waves[i]).size == v.waves[i].size by {
            assert(v1.waves[i].size == v.waves[i].size);
        }
    }
}

proof fn lemma_batch_pass_sizes_orders(v: SolutionView, m: Model, cap: Volume, os: Seq<usize>, wave: int)
    requires
        batch_indices_ok(v),
        0 <= wave < v.waves.len(),
    ensures
        forall|i: int| 0 <= i < v.waves.len() ==> (#[trigger] batch_pass_orders(v, m, cap, os, wave).waves[i]).size
            == v.waves[i].size,
    decreases os.len(),
{
    if os.len() > 0 {
        lemma_batch_pass_sizes_orders(v, m, cap, os.drop_last(), wave);
        lemma_batch_pass_orders_items(v, m, cap, os.drop_last(), wave);
        let o = os.last() as int;
        let v1 = batch_pass_orders(v, m, cap, os.drop_last(), wave);
        lemma_batch_pass_sizes_lines(v1, m, cap, o, m.orders@[o].article_ids@, wave);
        let v2 = batch_pass_lines(v1, m, cap, o, m.orders@[o].article_ids@, wave);
        assert forall|i: int| 0 <= i < v.waves.len() implies (#[trigger] v2.waves[i]).size == v.waves[i].size by {
            assert(v1.waves[i].size == v.waves[i].size);
        }
    }
}

/// Wave sizes: planning from an empty state leaves each wave's size equal to
/// the number of lines of its orders, so a wave over the size cap holds one
/// order whose own lines exceed the cap.
pub proof fn lemma_wave_sizes(v: SolutionView, m: Model, wave_cap: Size, batch_cap: Volume)
    requires
        m.wf(),
        forall|o: int| 0 <= o < m.orders@.len() ==> (#[trigger] m.orders@[o]).article_ids@.len() <= usize::MAX,
        v.waves.len() == 0,
        v.batches.len() == 0,
        v.members.len() == 0,
        v.open_wave == Map::<Warehouse, usize>::empty(),
        v.open_batches.len() == 0,
    ensures
        sizes_match(plan(v, m, wave_cap, batch_cap), m),
{
    let ws = first_tier(m);
    let rv = m.rankings_view();
    assert forall|k: int, j: int| 0 <= k < ws.len() && 0 <= j < ws[k].1.len() implies (#[trigger] ws[k].1[j]) < m.orders@.len() by {
        crate::solution::lemma_tier_list_bound(rv, 0, m.warehouses@[k]);
        assert(ws[k].1 == tier_list(rv, 0, m.warehouses@[k]));
    }
    lemma_wave_pass_sizes(v, m, wave_cap, ws);
    lemma_wave_pass_count(v, m, wave_cap, ws, 0);
    let after = wave_pass(v, m, wave_cap, ws);
    lemma_batch_pass_waves_kept(after, m, batch_cap, after.waves.len());
    lemma_batch_pass_items(after, m, batch_cap, after.members, after.waves.len());
    lemma_batch_pass_members(after, m, batch_cap, after.members, after.waves.len());
    let fin = plan(v, m, wave_cap, batch_cap);
    assert forall|i: int| 0 <= i < fin.waves.len() implies (#[trigger] fin.waves[i]).size == member_lines(m, fin.members[i]) by {
        assert(fin.waves[i].size == after.waves[i].size);
    }
}

/// Sum of the article volumes of the lines `items`.
pub open spec fn items_volume(m: Model, items: Seq<crate::model::Item>) -> nat
    decreases items.len(),
{
    if items.len() == 0 {
        0
    } else {
        items_volume(m, items.drop_last()) + m.article_volumes@[items.last().article_id] as nat
    }
}

/// Each batch's volume is the sum of the article volumes of its lines.
pub open spec fn volumes_match(v: SolutionView, m: Model) -> bool {
    forall|j: int| 0 <= j < v.batches.len() ==> (#[trigger] v.batches[j]).volume == items_volume(m, v.batches[j].items)
}

proof fn lemma_batch_step_volumes(v: SolutionView, m: Model, o: usize, a: ArticleId, wave: int, cap: Volume)
    requires
        batch_indices_ok(v),
        volumes_match(v, m),
        0 <= wave < v.waves.len(),
    ensures
        volumes_match(batch_step(v, m, o, a, wave, cap), m),
{
    let v2 = batch_step(v, m, o, a, wave, cap);
    let loc = m.article_locations@[a];
    let vol = m.article_volumes@[a];
    let w = loc.warehouse;
    let it = crate::model::Item { order_id: o, article_id: a };
    if crate::solution::joins_open(v, wave, w, vol, cap) {
        let b = v.open_batches[wave][w] as int;
        assert forall|j: int| 0 <= j < v2.batches.len() implies (#[trigger] v2.batches[j]).volume == items_volume(m, v2.batches[j].items) by {
            if j == b {
                assert(v2.batches[j].items.drop_last() == v.batches[j].items);
                assert(v2.batches[j].items.last() == it);
            } else {
                assert(v2.batches[j] == v.batches[j]);
            }
        }
    } else {
        let n = v.batches.len() as usize;
        assert forall|j: int| 0 <= j < v2.batches.len() implies (#[trigger] v2.batches[j]).volume == items_volume(m, v2.batches[j].items) by {
            if j < v.batches.len() {
                assert(v2.batches[j] == v.batches[j]);
            } else {
                assert(v2.batches[j].items.drop_last() == Seq::<crate::model::Item>::empty());
                assert(v2.batches[j].items.last() == it);
                assert(items_volume(m, Seq::<crate::model::Item>::empty()) == 0);
            }
        }
    }
}

proof fn lemma_batch_pass_lines_volumes(v: SolutionView, m: Model, cap: Volume, o: int, arts: Seq<ArticleId>, wave: int)
    requires
        batch_indices_ok(v),
        volumes_match(v, m),
        0 <= wave < v.waves.len(),
    ensures
        volumes_match(batch_pass_lines(v, m, cap, o, arts, wave), m),
    decreases arts.len(),
{
    if arts.len() > 0 {
        lemma_batch_pass_lines_volumes(v, m, cap, o, arts.drop_last(), wave);
        lemma_batch_pass_lines_items(v, m, cap, o, arts.drop_last(), wave);
        lemma_batch_step_volumes(batch_pass_lines(v, m, cap, o, arts.drop_last(), wave), m, m.orders@[o].id, arts.last(), wave, cap);
    }
}

proof fn lemma_batch_pass_orders_volumes(v: SolutionView, m: Model, cap: Volume, os: Seq<usize>, wave: int)
    requires
        batch_indices_ok(v),
        volumes_match(v, m),
        0 <= wave < v.waves.len(),
    ensures
        volumes_match(batch_pass_orders(v, m, cap, os, wave), m),
    decreases os.len(),
{
    if os.len() > 0 {
        lemma_batch_pass_orders_volumes(v, m, cap, os.drop_last(), wave);
        lemma_batch_pass_orders_items(v, m, cap, os.drop_last(), wave);
        let o = os.last() as int;
        lemma_batch_pass_lines_volumes(batch_pass_orders(v, m, cap, os.drop_last(), wave), m, cap, o, m.orders@[o].article_ids@, wave);
    }
}

proof fn lemma_batch_pass_volumes(v: SolutionView, m: Model, cap: Volume, mem: Seq<Seq<usize>>, n: nat)
    requires
        batch_indices_ok(v),
        volumes_match(v, m),
        n <= v.waves.len(),
    ensures
        volumes_match(batch_pass(v, m, cap, mem, n), m),
    decreases n,
{
    if n > 0 {
        lemma_batch_pass_volumes(v, m, cap, mem, (n - 1) as nat);
        lemma_batch_pass_items(v, m, cap, mem, (n - 1) as nat);
        lemma_batch_pass_orders_volumes(batch_pass(v, m, cap, mem, (n - 1) as nat), m, cap, mem[n - 1], n - 1);
    }
}

/// Batch volumes: planning from an empty state leaves each batch's volume equal
/// to the sum of the article volumes of its lines, so a batch over the volume
/// cap holds one line whose own article exceeds the cap.
pub proof fn lemma_batch_volumes(v: SolutionView, m: Model, wave_cap: Size, batch_cap: Volume)
    requires
        v.waves.len() == 0,
        v.batches.len() == 0,
        v.members.len() == 0,
        v.open_wave == Map::<Warehouse, usize>::empty(),
        v.open_batches.len() == 0,
    ensures
        volumes_match(plan(v, m, wave_cap, batch_cap), m),
{
    let ws = first_tier(m);
    lemma_wave_pass_count(v, m, wave_cap, ws, 0);
    let after = wave_pass(v, m, wave_cap, ws);
    lemma_batch_pass_volumes(after, m, batch_cap, after.members, after.waves.len());
}

/// Determinism: the plan depends on the starting state, the model and the caps alone.
pub proof fn lemma_plan_deterministic(
    v1: SolutionView,
    v2: SolutionView,
    m1: Model,
    m2: Model,
    wave_cap: Size,
    batch_cap: Volume,
)
    requires
        v1 == v2,
        m1 == m2,
    ensures
        plan(v1, m1, wave_cap, batch_cap) == plan(v2, m2, wave_cap, batch_cap),
{
}

} // verus!
