use vstd::prelude::*;
use std::collections::HashMap;
use crate::config::{MAX_BATCH_VOLUME, MAX_WAVE_SIZE};
use crate::model::{
    tier_list,
    add_distinct, ArticleId, ArticleLocation, Batch, BatchView, Cost, Item, Model, OrderId, Size,
    Volume, Warehouse, Wave, WaveId, WaveView,
};

verus! {

broadcast use vstd::std_specs::hash::group_hash_axioms;

/// Waves and batches under construction, with the planning indices.
///
/// `warehouse_wave` maps each warehouse to its open wave, `wave_warehouse_batch[i]`
/// maps each warehouse to the open batch of wave `i`, and `wave_members[i]` holds
/// the positions in `model.orders` of the orders of wave `i`.
pub struct Solution {
    pub waves: Vec<Wave>,
    pub batches: Vec<Batch>,
    pub model: Model,
    pub wave_warehouse_batch: Vec<HashMap<Warehouse, usize>>,
    pub warehouse_wave: HashMap<Warehouse, WaveId>,
    pub wave_members: Vec<Vec<usize>>,
    pub max_wave_size: Size,
    pub max_batch_volume: Volume,
}

pub struct SolutionView {
    pub waves: Seq<WaveView>,
    pub batches: Seq<BatchView>,
    pub open_batches: Seq<Map<Warehouse, usize>>,
    pub open_wave: Map<Warehouse, WaveId>,
    pub members: Seq<Seq<usize>>,
}

impl View for Solution {
    type V = SolutionView;

    open spec fn view(&self) -> SolutionView {
        SolutionView {
            waves: self.waves@.map_values(|w: Wave| w@),
            batches: self.batches@.map_values(|b: Batch| b@),
            open_batches: self.wave_warehouse_batch@.map_values(|m: HashMap<Warehouse, usize>| m@),
            open_wave: self.warehouse_wave@,
            members: self.wave_members@.map_values(|m: Vec<usize>| m@),
        }
    }
}

/// Why a planner cannot be configured.
#[derive(Clone, Copy, Debug, PartialEq, Eq, Structural)]
pub enum ConfigError {
    ZeroWaveSize,
    ZeroBatchVolume,
}

/// The planning indices point at existing waves and batches, identities are
/// positions, and wave members are positions of orders.
pub open spec fn indices_ok(v: SolutionView, n_orders: nat) -> bool {
    &&& v.open_batches.len() == v.waves.len()
    &&& v.members.len() == v.waves.len()
    &&& forall|i: int| 0 <= i < v.waves.len() ==> (#[trigger] v.waves[i]).id == i
    &&& forall|j: int| 0 <= j < v.batches.len() ==> (#[trigger] v.batches[j]).id == j
    &&& forall|w: Warehouse| #[trigger] v.open_wave.contains_key(w) ==> v.open_wave[w] < v.waves.len()
    &&& forall|i: int, w: Warehouse| 0 <= i < v.open_batches.len() && #[trigger] v.open_batches[i].contains_key(w)
        ==> v.open_batches[i][w] < v.batches.len()
    &&& forall|i: int, j: int| 0 <= i < v.members.len() && 0 <= j < v.members[i].len()
        ==> (#[trigger] v.members[i][j]) < n_orders
}

/// The state after placing order `o` (a position in the orders) for warehouse `w`.
pub open spec fn wave_step(v: SolutionView, m: Model, o: int, w: Warehouse, cap: Size) -> SolutionView {
    let order = m.orders@[o];
    let len = order.article_ids@.len();
    let n = v.waves.len();
    if v.open_wave.contains_key(w) && v.waves[v.open_wave[w] as int].size + len <= cap {
        let i = v.open_wave[w] as int;
        SolutionView {
            waves: v.waves.update(
                i,
                WaveView {
                    order_ids: v.waves[i].order_ids.push(order.id),
                    size: (v.waves[i].size + len) as usize,
                    ..v.waves[i]
                },
            ),
            members: v.members.update(i, v.members[i].push(o as usize)),
            ..v
        }
    } else {
        SolutionView {
            waves: v.waves.push(
                WaveView { id: n as usize, batch_ids: seq![], order_ids: seq![order.id], size: len as usize },
            ),
            open_batches: v.open_batches.push(Map::empty()),
            open_wave: v.open_wave.insert(w, n as usize),
            members: v.members.push(seq![o as usize]),
            ..v
        }
    }
}

/// `b` with the line (o, a) of volume `vol`, stored at `loc`, placed in it.
pub open spec fn place(b: BatchView, o: OrderId, a: ArticleId, vol: Volume, loc: ArticleLocation) -> BatchView {
    BatchView {
        items: b.items.push(Item { order_id: o, article_id: a }),
        volume: (b.volume + vol) as usize,
        warehouses: add_distinct(b.warehouses, loc.warehouse),
        warehouse_aisles: add_distinct(b.warehouse_aisles, (loc.warehouse, loc.aisle)),
        ..b
    }
}

pub open spec fn empty_batch(id: usize) -> BatchView {
    BatchView { id, items: seq![], volume: 0, warehouses: seq![], warehouse_aisles: seq![] }
}

/// Whether a line of volume `vol` from warehouse `w` goes to the open batch of
/// (wave, w): some batch exists, one is open for the pair, and the line fits.
pub open spec fn joins_open(v: SolutionView, wave: int, w: Warehouse, vol: Volume, cap: Volume) -> bool {
    &&& v.batches.len() > 0
    &&& v.open_batches[wave].contains_key(w)
    &&& v.batches[v.open_batches[wave][w] as int].volume + vol <= cap
}

/// The state after placing the line (o, a) of wave `wave`.
pub open spec fn batch_step(v: SolutionView, m: Model, o: OrderId, a: ArticleId, wave: int, cap: Volume) -> SolutionView {
    let loc = m.article_locations@[a];
    let vol = m.article_volumes@[a];
    let w = loc.warehouse;
    if joins_open(v, wave, w, vol, cap) {
        let b = v.open_batches[wave][w];
        SolutionView {
            batches: v.batches.update(b as int, place(v.batches[b as int], o, a, vol, loc)),
            open_batches: v.open_batches.update(wave, v.open_batches[wave].insert(w, b)),
            ..v
        }
    } else {
        let n = v.batches.len() as usize;
        SolutionView {
            batches: v.batches.push(place(empty_batch(n), o, a, vol, loc)),
            waves: v.waves.update(wave, WaveView { batch_ids: v.waves[wave].batch_ids.push(n), ..v.waves[wave] }),
            open_batches: v.open_batches.update(wave, v.open_batches[wave].insert(w, n)),
            ..v
        }
    }
}

/// Each wave keeps to the size cap, or holds one order alone.
pub open spec fn waves_capped(v: SolutionView, cap: Size) -> bool {
    forall|i: int| 0 <= i < v.waves.len() ==> (#[trigger] v.waves[i]).size <= cap || v.waves[i].order_ids.len() == 1
}

/// Each batch keeps to the volume cap, or holds one line alone.
pub open spec fn batches_capped(v: SolutionView, cap: Volume) -> bool {
    forall|j: int| 0 <= j < v.batches.len() ==> (#[trigger] v.batches[j]).volume <= cap || v.batches[j].items.len() == 1
}

/// The orders of `l` placed in turn for warehouse `w`.
pub open spec fn wave_pass_list(v: SolutionView, m: Model, cap: Size, w: Warehouse, l: Seq<usize>) -> SolutionView
    decreases l.len(),
{
    if l.len() == 0 {
        v
    } else {
        wave_step(wave_pass_list(v, m, cap, w, l.drop_last()), m, l.last() as int, w, cap)
    }
}

/// The tier lists `ws` placed in turn, warehouse by warehouse.
pub open spec fn wave_pass(v: SolutionView, m: Model, cap: Size, ws: Seq<(Warehouse, Seq<usize>)>) -> SolutionView
    decreases ws.len(),
{
    if ws.len() == 0 {
        v
    } else {
        wave_pass_list(wave_pass(v, m, cap, ws.drop_last()), m, cap, ws.last().0, ws.last().1)
    }
}

/// The lines `arts` of order `o` (a position in the orders) placed in turn in wave `wave`.
pub open spec fn batch_pass_lines(v: SolutionView, m: Model, cap: Volume, o: int, arts: Seq<ArticleId>, wave: int) -> SolutionView
    decreases arts.len(),
{
    if arts.len() == 0 {
        v
    } else {
        batch_step(batch_pass_lines(v, m, cap, o, arts.drop_last(), wave), m, m.orders@[o].id, arts.last(), wave, cap)
    }
}

/// The lines of the orders `os` placed in turn in wave `wave`.
pub open spec fn batch_pass_orders(v: SolutionView, m: Model, cap: Volume, os: Seq<usize>, wave: int) -> SolutionView
    decreases os.len(),
{
    if os.len() == 0 {
        v
    } else {
        let o = os.last() as int;
        batch_pass_lines(batch_pass_orders(v, m, cap, os.drop_last(), wave), m, cap, o, m.orders@[o].article_ids@, wave)
    }
}

/// The lines of the first `n` waves placed in turn, the members of wave `i` being `mem[i]`.
pub open spec fn batch_pass(v: SolutionView, m: Model, cap: Volume, mem: Seq<Seq<usize>>, n: nat) -> SolutionView
    decreases n,
{
    if n == 0 {
        v
    } else {
        batch_pass_orders(batch_pass(v, m, cap, mem, (n - 1) as nat), m, cap, mem[n - 1], n - 1)
    }
}

/// The first tier of `m`: each warehouse with the orders that rank it first.
pub open spec fn first_tier(m: Model) -> Seq<(Warehouse, Seq<usize>)> {
    m.warehouse_orders@[0]@.map_values(|e: (Warehouse, Vec<OrderId>)| (e.0, e.1@))
}

/// The whole plan: waves from the first tier, then batches wave by wave.
pub open spec fn plan(v: SolutionView, m: Model, wave_cap: Size, batch_cap: Volume) -> SolutionView {
    let after_waves = wave_pass(v, m, wave_cap, first_tier(m));
    batch_pass(after_waves, m, batch_cap, after_waves.members, after_waves.waves.len())
}

pub(crate) proof fn lemma_tier_list_bound(rankings: Seq<Seq<(Warehouse, usize)>>, p: int, w: Warehouse)
    ensures
        forall|j: int| 0 <= j < tier_list(rankings, p, w).len() ==> #[trigger] tier_list(rankings, p, w)[j] < rankings.len(),
    decreases rankings.len(),
{
    if rankings.len() > 0 {
        lemma_tier_list_bound(rankings.drop_last(), p, w);
        let rest = tier_list(rankings.drop_last(), p, w);
        let t = tier_list(rankings, p, w);
        assert forall|j: int| 0 <= j < t.len() implies #[trigger] t[j] < rankings.len() by {
            if j < rest.len() {
                assert(t[j] == rest[j]);
            }
        }
    }
}

/// 10 per warehouse and 5 per (warehouse, aisle) pair that each batch touches.
pub open spec fn tour_sum(bs: Seq<BatchView>) -> nat
    decreases bs.len(),
{
    if bs.len() == 0 {
        0
    } else {
        tour_sum(bs.drop_last()) + 10 * bs.last().warehouses.len() + 5 * bs.last().warehouse_aisles.len()
    }
}

/// 10 per wave and 5 per batch.
pub open spec fn rest_sum(v: SolutionView) -> nat {
    10 * v.waves.len() + 5 * v.batches.len()
}

proof fn lemma_tour_sum_prefix(bs: Seq<BatchView>, i: int)
    requires
        0 <= i <= bs.len(),
    ensures
        tour_sum(bs.subrange(0, i)) <= tour_sum(bs),
    decreases bs.len() - i,
{
    if i < bs.len() {
        lemma_tour_sum_prefix(bs, i + 1);
        assert(bs.subrange(0, i + 1).drop_last() == bs.subrange(0, i));
    } else {
        assert(bs.subrange(0, i) == bs);
    }
}

impl Solution {
    pub open spec fn wf(&self) -> bool {
        &&& self.model.wf()
        &&& indices_ok(self@, self.model.orders@.len())
    }

    /// An empty planner over `model`, with the default caps.
    pub fn new(model: Model) -> (s: Solution)
        ensures
            s@.waves.len() == 0,
            s@.batches.len() == 0,
            s@.open_batches.len() == 0,
            s@.open_wave == Map::<Warehouse, WaveId>::empty(),
            s@.members.len() == 0,
            s.model == model,
            s.max_wave_size == MAX_WAVE_SIZE,
            s.max_batch_volume == MAX_BATCH_VOLUME,
    {
        Solution {
            waves: Vec::new(),
            batches: Vec::new(),
            model,
            wave_warehouse_batch: Vec::new(),
            warehouse_wave: HashMap::new(),
            wave_members: Vec::new(),
            max_wave_size: MAX_WAVE_SIZE,
            max_batch_volume: MAX_BATCH_VOLUME,
        }
    }

    /// An empty planner over `model` with the given caps, which must be positive.
    pub fn with_caps(model: Model, max_wave_size: Size, max_batch_volume: Volume) -> (r: Result<Solution, ConfigError>)
        ensures
            max_wave_size == 0 ==> r == Err::<Solution, ConfigError>(ConfigError::ZeroWaveSize),
            max_wave_size > 0 && max_batch_volume == 0 ==> r == Err::<Solution, ConfigError>(ConfigError::ZeroBatchVolume),
            max_wave_size > 0 && max_batch_volume > 0 ==> (r matches Ok(s) && {
                &&& s@.waves.len() == 0
                &&& s@.batches.len() == 0
                &&& s@.open_batches.len() == 0
                &&& s@.open_wave == Map::<Warehouse, WaveId>::empty()
                &&& s@.members.len() == 0
                &&& s.model == model
                &&& s.max_wave_size == max_wave_size
                &&& s.max_batch_volume == max_batch_volume
            }),
    {
        if max_wave_size == 0 {
            return Err(ConfigError::ZeroWaveSize);
        }
        if max_batch_volume == 0 {
            return Err(ConfigError::ZeroBatchVolume);
        }
        let mut s = Solution::new(model);
        s.max_wave_size = max_wave_size;
        s.max_batch_volume = max_batch_volume;
        Ok(s)
    }

    pub fn tour_cost(&self) -> (r: Cost)
        requires
            tour_sum(self@.batches) <= usize::MAX,
        ensures
            r == tour_sum(self@.batches),
    {
        let ghost bs = self@.batches;
        let mut total: Cost = 0;
        let mut i: usize = 0;
        while i < self.batches.len()
            invariant
                i <= self.batches@.len(),
                bs == self@.batches,
                tour_sum(bs) <= usize::MAX,
                total == tour_sum(bs.subrange(0, i as int)),
            decreases self.batches@.len() - i,
        {
            proof {
                lemma_tour_sum_prefix(bs, i + 1);
                assert(bs.subrange(0, i + 1).drop_last() == bs.subrange(0, i as int));
            }
            let b = &self.batches[i];
            total = total + 10 * b.warehouses.len() + 5 * b.warehouse_aisles.len();
            i += 1;
        }
        assert(bs.subrange(0, i as int) == bs);
        total
    }

    pub fn rest_cost(&self) -> (r: Cost)
        requires
            rest_sum(self@) <= usize::MAX,
        ensures
            r == rest_sum(self@),
    {
        self.waves.len() * 10 + self.batches.len() * 5
    }

    /// The tour cost plus the rest cost.
    pub fn total_cost(&self) -> (r: Cost)
        requires
            tour_sum(self@.batches) + rest_sum(self@) <= usize::MAX,
        ensures
            r == tour_sum(self@.batches) + rest_sum(self@),
    {
        self.tour_cost() + self.rest_cost()
    }

    pub(crate) fn next_wave_id(&self) -> (r: WaveId)
        ensures
            r == self.waves@.len(),
    {
        self.waves.len()
    }

    /// Puts order `order_id` (its position in the orders) into the open wave
    /// of `warehouse`, or, when none is open or the order would push it over
    /// the size cap, into a new wave that becomes the open one.
    pub fn make_wave_for(&mut self, order_id: OrderId, warehouse: Warehouse)
        requires
            old(self).wf(),
            order_id < old(self).model.orders@.len(),
        ensures
            final(self).wf(),
            final(self).model == old(self).model,
            final(self).max_wave_size == old(self).max_wave_size,
            final(self).max_batch_volume == old(self).max_batch_volume,
            final(self)@ == wave_step(old(self)@, old(self).model, order_id as int, warehouse, old(self).max_wave_size),
            waves_capped(old(self)@, old(self).max_wave_size) ==> waves_capped(final(self)@, old(self).max_wave_size),
            batches_capped(old(self)@, old(self).max_batch_volume) ==> batches_capped(final(self)@, old(self).max_batch_volume),
    {
        let ghost v0 = self@;
        let wave_id = self.waves.len();
        let cap = self.max_wave_size;
        let len = self.model.orders[order_id].article_ids.len();
        let open = match self.warehouse_wave.get(&warehouse) {
            Some(wid) => {
                let wid = *wid;
                assert(self@.open_wave.contains_key(warehouse));
                assert(self.waves@.len() == self@.waves.len());
                let size = self.waves[wid].size;
                if len <= cap && size <= cap - len {
                    Some(wid)
                } else {
                    None
                }
            },
            None => None,
        };
        match open {
            Some(wid) => {
                let order = &self.model.orders[order_id];
                self.waves[wid].push_order(order);
                self.wave_members[wid].push(order_id);
                proof {
                    let v = self@;
                    let e = wave_step(v0, self.model, order_id as int, warehouse, cap);
                    assert(v.waves =~= e.waves);
                    assert(v.members =~= e.members);
                    assert(v.batches =~= e.batches);
                    assert(v.open_batches =~= e.open_batches);
                }
            },
            None => {
                let order = &self.model.orders[order_id];
                let mut new_wave = Wave::new(wave_id);
                new_wave.push_order(order);
                self.waves.push(new_wave);
                self.wave_warehouse_batch.push(HashMap::new());
                self.warehouse_wave.insert(warehouse, wave_id);
                let mut members: Vec<usize> = Vec::new();
                members.push(order_id);
                assert(members@ =~= seq![order_id]);
                self.wave_members.push(members);
                proof {
                    let v = self@;
                    let e = wave_step(v0, self.model, order_id as int, warehouse, cap);
                    assert(v.waves =~= e.waves);
                    assert(v.members =~= e.members);
                    assert(v.batches =~= e.batches);
                    assert(v.open_batches =~= e.open_batches);
                }
            },
        }
    }

    /// Places the line (order_id, article_id) of wave `wave_id` in a batch.
    ///
    /// The very first batch of all is made for the first line. After that the
    /// line goes to the open batch of (wave, warehouse of the article) when one
    /// is open and the line fits under the volume cap; else to a new batch of
    /// the wave, which becomes the open one of that pair.
    pub fn make_batch_for(&mut self, order_id: OrderId, article_id: ArticleId, wave_id: &WaveId)
        requires
            old(self).wf(),
            *wave_id < old(self).waves@.len(),
            old(self).model.article_locations@.contains_key(article_id),
            old(self).model.article_volumes@.contains_key(article_id),
        ensures
            final(self).wf(),
            final(self).model == old(self).model,
            final(self).max_wave_size == old(self).max_wave_size,
            final(self).max_batch_volume == old(self).max_batch_volume,
            final(self)@ == batch_step(old(self)@, old(self).model, order_id, article_id, *wave_id as int, old(self).max_batch_volume),
            waves_capped(old(self)@, old(self).max_wave_size) ==> waves_capped(final(self)@, old(self).max_wave_size),
            batches_capped(old(self)@, old(self).max_batch_volume) ==> batches_capped(final(self)@, old(self).max_batch_volume),
    {
        let ghost v0 = self@;
        let wid = *wave_id;
        let cap = self.max_batch_volume;
        let loc = match self.model.article_locations.get(&article_id) {
            Some(l) => *l,
            None => {
                return;
            },
        };
        let vol = match self.model.article_volumes.get(&article_id) {
            Some(v) => *v,
            None => {
                return;
            },
        };
        let warehouse = loc.warehouse;
        let batch_id = self.batches.len();
        let target: usize;
        if batch_id == 0 {
            self.batches.push(Batch::new(0));
            self.waves[wid].batch_ids.push(batch_id);
            target = batch_id;
        } else {
            let open = match self.wave_warehouse_batch[wid].get(&warehouse) {
                Some(bid) => {
                    let bid = *bid;
                    assert(self@.open_batches[wid as int].contains_key(warehouse));
                    assert(self.batches@.len() == self@.batches.len());
                    let current = self.batches[bid].volume;
                    if vol <= cap && current <= cap - vol {
                        Some(bid)
                    } else {
                        None
                    }
                },
                None => None,
            };
            match open {
                Some(bid) => {
                    target = bid;
                },
                None => {
                    self.batches.push(Batch::new(batch_id));
                    self.waves[wid].batch_ids.push(batch_id);
                    target = batch_id;
                },
            }
        }
        assert(target < self.batches@.len());
        assert(self.batches@[target as int].volume + vol <= usize::MAX);
        self.batches[target].push(order_id, article_id, vol);
        self.batches[target].touch(warehouse, loc.aisle);
        self.wave_warehouse_batch[wid].insert(warehouse, target);
        proof {
            let v = self@;
            let e = batch_step(v0, self.model, order_id, article_id, wid as int, cap);
            assert(v.waves =~= e.waves);
            assert(v.members =~= e.members);
            assert(v.batches =~= e.batches);
            assert(v.open_batches =~= e.open_batches);
        }
    }
}

/// Assigns the orders to waves, then the lines of each wave to batches.
///
/// Waves: warehouse by warehouse in ascending order, each order that ranks the
/// warehouse first, in the order of the orders, goes through `make_wave_for`.
/// Batches: wave by wave, order by order within the wave, line by line within
/// the order, each line goes through `make_batch_for`.
pub fn search(solution: &mut Solution, model: &Model)
    requires
        old(solution).model == *model,
        model.wf(),
        old(solution)@.waves.len() == 0,
        old(solution)@.batches.len() == 0,
        old(solution)@.open_batches.len() == 0,
        old(solution)@.open_wave == Map::<Warehouse, WaveId>::empty(),
        old(solution)@.members.len() == 0,
    ensures
        final(solution).wf(),
        final(solution).model == *model,
        final(solution).max_wave_size == old(solution).max_wave_size,
        final(solution).max_batch_volume == old(solution).max_batch_volume,
        final(solution)@ == plan(old(solution)@, *model, old(solution).max_wave_size, old(solution).max_batch_volume),
        waves_capped(final(solution)@, old(solution).max_wave_size),
        batches_capped(final(solution)@, old(solution).max_batch_volume),
{
    let ghost v0 = solution@;
    let ghost wcap = solution.max_wave_size;
    let ghost bcap = solution.max_batch_volume;
    let ghost ws = first_tier(*model);
    let tier = &model.warehouse_orders[0];
    let mut k: usize = 0;
    while k < tier.len()
        invariant
            k <= tier@.len(),
            *tier == model.warehouse_orders@[0],
            model.wf(),
            ws == first_tier(*model),
            solution.wf(),
            solution.model == *model,
            solution.max_wave_size == wcap,
            solution.max_batch_volume == bcap,
            solution@ == wave_pass(v0, *model, wcap, ws.subrange(0, k as int)),
            waves_capped(solution@, wcap),
            batches_capped(solution@, bcap),
        decreases tier@.len() - k,
    {
        let w = tier[k].0;
        let list = &tier[k].1;
        let ghost before = solution@;
        proof {
            lemma_tier_list_bound(model.rankings_view(), 0, model.warehouses@[k as int]);
        }
        let mut j: usize = 0;
        while j < list.len()
            invariant
                j <= list@.len(),
                k < tier@.len(),
                *tier == model.warehouse_orders@[0],
                *list == tier@[k as int].1,
                model.wf(),
                solution.wf(),
                solution.model == *model,
                solution.max_wave_size == wcap,
                solution.max_batch_volume == bcap,
                forall|jj: int| 0 <= jj < list@.len() ==> #[trigger] list@[jj] < model.orders@.len(),
                solution@ == wave_pass_list(before, *model, wcap, w, list@.subrange(0, j as int)),
                waves_capped(solution@, wcap),
                batches_capped(solution@, bcap),
            decreases list@.len() - j,
        {
            solution.make_wave_for(list[j], w);
            assert(list@.subrange(0, j + 1).drop_last() == list@.subrange(0, j as int));
            j += 1;
        }
        assert(list@.subrange(0, j as int) == list@);
        assert(ws.subrange(0, k + 1).drop_last() == ws.subrange(0, k as int));
        assert(ws.subrange(0, k + 1).last() == (w, list@));
        k += 1;
    }
    assert(ws.subrange(0, k as int) == ws);
    let ghost after_waves = solution@;
    let ghost mem = after_waves.members;
    let n = solution.waves.len();
    let mut i: usize = 0;
    while i < n
        invariant
            i <= n,
            n == after_waves.waves.len(),
            model.wf(),
            solution.wf(),
            solution.model == *model,
            solution.max_wave_size == wcap,
            solution.max_batch_volume == bcap,
            solution@.waves.len() == n,
            solution@.members == mem,
            solution@ == batch_pass(after_waves, *model, bcap, mem, i as nat),
            waves_capped(solution@, wcap),
            batches_capped(solution@, bcap),
        decreases n - i,
    {
        let ghost before_wave = solution@;
        let count = solution.wave_members[i].len();
        let mut j: usize = 0;
        while j < count
            invariant
                j <= count,
                i < n,
                count == mem[i as int].len(),
                model.wf(),
                solution.wf(),
                solution.model == *model,
                solution.max_wave_size == wcap,
                solution.max_batch_volume == bcap,
                solution@.waves.len() == n,
                solution@.members == mem,
                solution@ == batch_pass_orders(before_wave, *model, bcap, mem[i as int].subrange(0, j as int), i as int),
                waves_capped(solution@, wcap),
                batches_capped(solution@, bcap),
            decreases count - j,
        {
            let o = solution.wave_members[i][j];
            assert(o == mem[i as int][j as int]);
            let order = &model.orders[o];
            let ghost before_order = solution@;
            let mut l: usize = 0;
            while l < order.article_ids.len()
                invariant
                    l <= order.article_ids@.len(),
                    i < n,
                    o < model.orders@.len(),
                    *order == model.orders@[o as int],
                    model.wf(),
                    solution.wf(),
                    solution.model == *model,
                    solution.max_wave_size == wcap,
                    solution.max_batch_volume == bcap,
                    solution@.waves.len() == n,
                    solution@.members == mem,
                    solution@ == batch_pass_lines(before_order, *model, bcap, o as int, order.article_ids@.subrange(0, l as int), i as int),
                    waves_capped(solution@, wcap),
                    batches_capped(solution@, bcap),
                decreases order.article_ids@.len() - l,
            {
                let a = order.article_ids[l];
                assert(model.article_locations@.contains_key(model.orders@[o as int].article_ids@[l as int]));
                solution.make_batch_for(order.id, a, &i);
                assert(order.article_ids@.subrange(0, l + 1).drop_last() == order.article_ids@.subrange(0, l as int));
                l += 1;
            }
            assert(order.article_ids@.subrange(0, l as int) == order.article_ids@);
            assert(mem[i as int].subrange(0, j + 1).drop_last() == mem[i as int].subrange(0, j as int));
            j += 1;
        }
        assert(mem[i as int].subrange(0, j as int) == mem[i as int]);
        i += 1;
    }
}

} // verus!
