use vstd::prelude::*;
use std::collections::HashMap;
use crate::affinity::{is_ranking, rank_order};

verus! {

pub type OrderId = usize;
pub type WaveId = usize;
pub type BatchId = usize;
pub type ArticleId = usize;
pub type Warehouse = usize;
pub type Aisle = usize;
pub type Position = usize;
pub type Size = usize;
pub type Volume = usize;
pub type Cost = usize;

/// Where an article is stored.
#[derive(Clone, Copy, Debug, PartialEq, Eq, Structural)]
pub struct ArticleLocation {
    pub warehouse: Warehouse,
    pub aisle: Aisle,
    pub position: Position,
    pub article_id: ArticleId,
}

/// A customer order: each entry of `article_ids` is one line to place.
#[derive(Clone, Debug)]
pub struct Order {
    pub id: OrderId,
    pub article_ids: Vec<ArticleId>,
}

/// An article and its volume.
#[derive(Clone, Copy, Debug, PartialEq, Eq, Structural)]
pub struct Article {
    pub id: ArticleId,
    pub volume: Volume,
}

/// A group of orders picked together.
#[derive(Clone, Debug)]
pub struct Wave {
    pub id: WaveId,
    pub batch_ids: Vec<BatchId>,
    pub order_ids: Vec<OrderId>,
    pub size: Size,
}

pub struct WaveView {
    pub id: WaveId,
    pub batch_ids: Seq<BatchId>,
    pub order_ids: Seq<OrderId>,
    pub size: Size,
}

impl View for Wave {
    type V = WaveView;

    open spec fn view(&self) -> WaveView {
        WaveView {
            id: self.id,
            batch_ids: self.batch_ids@,
            order_ids: self.order_ids@,
            size: self.size,
        }
    }
}

impl Wave {
    pub fn new(id: WaveId) -> (w: Self)
        ensures
            w@ == (WaveView { id, batch_ids: seq![], order_ids: seq![], size: 0 }),
    {
        Wave { id: id, batch_ids: Vec::new(), order_ids: Vec::new(), size: 0 }
    }

    /// Appends the order and adds its number of lines to the size.
    pub fn push_order(&mut self, order: &Order)
        requires
            old(self).size + order.article_ids@.len() <= usize::MAX,
        ensures
            final(self)@ == (WaveView {
                order_ids: old(self)@.order_ids.push(order.id),
                size: (old(self).size + order.article_ids@.len()) as usize,
                ..old(self)@
            }),
    {
        self.order_ids.push(order.id);
        self.size = self.size + order.article_ids.len();
    }
}

/// One placed line: an article of an order.
#[derive(Clone, Copy, Debug, PartialEq, Eq, Structural, Hash)]
pub struct Item {
    pub order_id: OrderId,
    pub article_id: ArticleId,
}

/// A container of placed lines.
///
/// `warehouses` holds each warehouse touched once, and `warehouse_aisles` each
/// touched (warehouse, aisle) pair once.
#[derive(Clone, Debug)]
pub struct Batch {
    pub id: BatchId,
    pub items: Vec<Item>,
    pub volume: Volume,
    pub warehouses: Vec<Warehouse>,
    pub warehouse_aisles: Vec<(Warehouse, Aisle)>,
}

pub struct BatchView {
    pub id: BatchId,
    pub items: Seq<Item>,
    pub volume: Volume,
    pub warehouses: Seq<Warehouse>,
    pub warehouse_aisles: Seq<(Warehouse, Aisle)>,
}

impl View for Batch {
    type V = BatchView;

    open spec fn view(&self) -> BatchView {
        BatchView {
            id: self.id,
            items: self.items@,
            volume: self.volume,
            warehouses: self.warehouses@,
            warehouse_aisles: self.warehouse_aisles@,
        }
    }
}

/// `s` extended by `x` unless it already holds it.
pub open spec fn add_distinct<T>(s: Seq<T>, x: T) -> Seq<T> {
    if s.contains(x) {
        s
    } else {
        s.push(x)
    }
}

fn contains_usize(s: &Vec<usize>, x: usize) -> (r: bool)
    ensures
        r == s@.contains(x),
{
    let mut i: usize = 0;
    while i < s.len()
        invariant
            i <= s.len(),
            forall|j: int| 0 <= j < i ==> s@[j] != x,
        decreases s.len() - i,
    {
        if s[i] == x {
            return true;
        }
        i += 1;
    }
    false
}

fn contains_pair(s: &Vec<(usize, usize)>, x: (usize, usize)) -> (r: bool)
    ensures
        r == s@.contains(x),
{
    let mut i: usize = 0;
    while i < s.len()
        invariant
            i <= s.len(),
            forall|j: int| 0 <= j < i ==> s@[j] != x,
        decreases s.len() - i,
    {
        if s[i].0 == x.0 && s[i].1 == x.1 {
            return true;
        }
        i += 1;
    }
    false
}

impl Batch {
    pub fn new(id: BatchId) -> (b: Self)
        ensures
            b@ == (BatchView {
                id,
                items: seq![],
                volume: 0,
                warehouses: seq![],
                warehouse_aisles: seq![],
            }),
    {
        Batch {
            id: id,
            items: vec![],
            volume: 0,
            warehouses: Vec::new(),
            warehouse_aisles: Vec::new(),
        }
    }

    /// Appends the line and adds its volume.
    pub fn push(&mut self, order_id: OrderId, article_id: ArticleId, volume: Volume)
        requires
            old(self).volume + volume <= usize::MAX,
        ensures
            final(self)@ == (BatchView {
                items: old(self)@.items.push(Item { order_id, article_id }),
                volume: (old(self).volume + volume) as usize,
                ..old(self)@
            }),
    {
        self.items.push(Item { order_id, article_id });
        self.volume = self.volume + volume;
    }

    /// Records that the batch touches `aisle` of `warehouse`.
    pub fn touch(&mut self, warehouse: Warehouse, aisle: Aisle)
        ensures
            final(self)@ == (BatchView {
                warehouses: add_distinct(old(self)@.warehouses, warehouse),
                warehouse_aisles: add_distinct(old(self)@.warehouse_aisles, (warehouse, aisle)),
                ..old(self)@
            }),
    {
        if !contains_usize(&self.warehouses, warehouse) {
            self.warehouses.push(warehouse);
        }
        if !contains_pair(&self.warehouse_aisles, (warehouse, aisle)) {
            self.warehouse_aisles.push((warehouse, aisle));
        }
    }

    /// The order of each placed line, in placement order.
    pub fn get_order_ids(&self) -> (r: Vec<OrderId>)
        ensures
            r@ == self.items@.map_values(|it: Item| it.order_id),
    {
        let mut r: Vec<OrderId> = Vec::new();
        let mut i: usize = 0;
        while i < self.items.len()
            invariant
                i <= self.items.len(),
                r@ == self.items@.subrange(0, i as int).map_values(|it: Item| it.order_id),
            decreases self.items.len() - i,
        {
            r.push(self.items[i].order_id);
            i += 1;
            assert(self.items@.subrange(0, i as int) == self.items@.subrange(0, i - 1).push(self.items@[i - 1]));
        }
        assert(self.items@.subrange(0, i as int) == self.items@);
        r
    }
}

/// The three input lists.
#[derive(Clone, Debug)]
pub struct Input {
    pub article_locations: Vec<ArticleLocation>,
    pub articles: Vec<Article>,
    pub orders: Vec<Order>,
}

/// Why an input cannot be planned.
#[derive(Clone, Copy, Debug, PartialEq, Eq, Structural)]
pub enum ModelError {
    /// A line of an order names an article without a location or a volume.
    UnknownArticle { order_id: OrderId, article_id: ArticleId },
}

/// The catalog, the orders, and the affinity of each order for warehouses.
///
/// `warehouses` lists every warehouse of the locations once, in ascending order.
/// `rankings[i]` is the ranking of order `i` (its position in `orders`), and
/// `warehouse_orders[p]` pairs each warehouse of `warehouses` with the positions
/// of the orders that rank it `p`-th.
#[derive(Clone, Debug)]
pub struct Model {
    pub article_locations: HashMap<ArticleId, ArticleLocation>,
    pub article_volumes: HashMap<ArticleId, Volume>,
    pub orders: Vec<Order>,
    pub warehouses: Vec<Warehouse>,
    pub rankings: Vec<Vec<(Warehouse, usize)>>,
    pub warehouse_orders: Vec<Vec<(Warehouse, Vec<OrderId>)>>,
}

/// Article locations by article; of two locations of one article the later counts.
pub open spec fn location_map(s: Seq<ArticleLocation>) -> Map<ArticleId, ArticleLocation>
    decreases s.len(),
{
    if s.len() == 0 {
        Map::empty()
    } else {
        location_map(s.drop_last()).insert(s.last().article_id, s.last())
    }
}

/// Article volumes by article; of two entries for one article the later counts.
pub open spec fn volume_map(s: Seq<Article>) -> Map<ArticleId, Volume>
    decreases s.len(),
{
    if s.len() == 0 {
        Map::empty()
    } else {
        volume_map(s.drop_last()).insert(s.last().id, s.last().volume)
    }
}

/// Every line of every order has a location and a volume.
pub open spec fn orders_known(
    orders: Seq<Order>,
    locs: Map<ArticleId, ArticleLocation>,
    vols: Map<ArticleId, Volume>,
) -> bool {
    forall|i: int, j: int|
        0 <= i < orders.len() && 0 <= j < orders[i].article_ids@.len() ==> {
            &&& locs.contains_key(#[trigger] orders[i].article_ids@[j])
            &&& vols.contains_key(orders[i].article_ids@[j])
        }
}

/// Line `j` of order `i` lacks a location or a volume, and every line before
/// it, in order and line order, has both.
pub open spec fn first_unknown(
    orders: Seq<Order>,
    locs: Map<ArticleId, ArticleLocation>,
    vols: Map<ArticleId, Volume>,
    i: int,
    j: int,
) -> bool {
    &&& 0 <= i < orders.len()
    &&& 0 <= j < orders[i].article_ids@.len()
    &&& !(locs.contains_key(orders[i].article_ids@[j]) && vols.contains_key(orders[i].article_ids@[j]))
    &&& orders_known(orders.subrange(0, i), locs, vols)
    &&& forall|jj: int| 0 <= jj < j ==> {
        &&& locs.contains_key(#[trigger] orders[i].article_ids@[jj])
        &&& vols.contains_key(orders[i].article_ids@[jj])
    }
}

pub open spec fn strictly_ascending(s: Seq<usize>) -> bool {
    forall|i: int, j: int| 0 <= i < j < s.len() ==> s[i] < s[j]
}

/// Positions of the orders whose ranking holds warehouse `w` at place `p`, ascending.
pub open spec fn tier_list(rankings: Seq<Seq<(Warehouse, usize)>>, p: int, w: Warehouse) -> Seq<OrderId>
    decreases rankings.len(),
{
    if rankings.len() == 0 {
        seq![]
    } else {
        let rest = tier_list(rankings.drop_last(), p, w);
        let last = rankings.last();
        if last.len() > p && last[p].0 == w {
            rest.push((rankings.len() - 1) as usize)
        } else {
            rest
        }
    }
}

impl Model {
    pub open spec fn rankings_view(&self) -> Seq<Seq<(Warehouse, usize)>> {
        self.rankings@.map_values(|r: Vec<(Warehouse, usize)>| r@)
    }

    /// The orders' lines are all in the catalog, each ranking is the ranking of
    /// its order, and the tiers are drawn from the rankings.
    pub open spec fn wf(&self) -> bool {
        &&& orders_known(self.orders@, self.article_locations@, self.article_volumes@)
        &&& strictly_ascending(self.warehouses@)
        &&& forall|a: ArticleId| #[trigger] self.article_locations@.contains_key(a)
            ==> self.warehouses@.contains(self.article_locations@[a].warehouse)
        &&& self.orders@.len() <= usize::MAX
        &&& self.rankings@.len() == self.orders@.len()
        &&& forall|i: int| 0 <= i < self.orders@.len() ==> is_ranking(
            (#[trigger] self.orders@[i]).article_ids@,
            self.article_locations@,
            self.rankings@[i]@,
        )
        &&& self.warehouse_orders@.len() == 3
        &&& forall|p: int| 0 <= p < 3 ==> (#[trigger] self.warehouse_orders@[p])@.len() == self.warehouses@.len()
        &&& forall|p: int, k: int| 0 <= p < 3 && 0 <= k < self.warehouses@.len() ==> {
            &&& (#[trigger] self.warehouse_orders@[p]@[k]).0 == self.warehouses@[k]
            &&& self.warehouse_orders@[p]@[k].1@ == tier_list(self.rankings_view(), p, self.warehouses@[k])
        }
    }
}

fn build_locations(s: &Vec<ArticleLocation>) -> (m: HashMap<ArticleId, ArticleLocation>)
    ensures
        m@ == location_map(s@),
{
    let mut m: HashMap<ArticleId, ArticleLocation> = HashMap::new();
    let mut i: usize = 0;
    while i < s.len()
        invariant
            i <= s@.len(),
            m@ == location_map(s@.subrange(0, i as int)),
        decreases s@.len() - i,
    {
        let l = s[i];
        m.insert(l.article_id, l);
        assert(s@.subrange(0, i + 1).drop_last() == s@.subrange(0, i as int));
        i += 1;
    }
    assert(s@.subrange(0, i as int) == s@);
    m
}

fn build_volumes(s: &Vec<Article>) -> (m: HashMap<ArticleId, Volume>)
    ensures
        m@ == volume_map(s@),
{
    let mut m: HashMap<ArticleId, Volume> = HashMap::new();
    let mut i: usize = 0;
    while i < s.len()
        invariant
            i <= s@.len(),
            m@ == volume_map(s@.subrange(0, i as int)),
        decreases s@.len() - i,
    {
        let a = s[i];
        m.insert(a.id, a.volume);
        assert(s@.subrange(0, i + 1).drop_last() == s@.subrange(0, i as int));
        i += 1;
    }
    assert(s@.subrange(0, i as int) == s@);
    m
}

/// Adds `x` to the ascending list `v` unless it is there.
fn insert_sorted(v: &mut Vec<usize>, x: usize)
    requires
        strictly_ascending(old(v)@),
    ensures
        strictly_ascending(final(v)@),
        forall|y: usize| #[trigger] final(v)@.contains(y) <==> (old(v)@.contains(y) || y == x),
{
    let mut i: usize = 0;
    while i < v.len() && v[i] < x
        invariant
            i <= v@.len(),
            v@ == old(v)@,
            forall|j: int| 0 <= j < i ==> v@[j] < x,
        decreases v@.len() - i,
    {
        i += 1;
    }
    if i < v.len() && v[i] == x {
        assert forall|y: usize| v@.contains(y) <==> (v@.contains(y) || y == x) by {
            if y == x {
                assert(v@[i as int] == y);
            }
        }
        return;
    }
    let ghost v0 = v@;
    assert(v0 == old(v)@);
    v.insert(i, x);
    assert(v@ == v0.insert(i as int, x));
    assert forall|y: usize| #[trigger] v@.contains(y) <==> (v0.contains(y) || y == x) by {
        if v@.contains(y) {
            let j = choose|j: int| 0 <= j < v@.len() && v@[j] == y;
            if j < i {
                assert(v0[j] == y);
            } else if j > i {
                assert(v0[j - 1] == y);
            }
        }
        if v0.contains(y) {
            let j = choose|j: int| 0 <= j < v0.len() && v0[j] == y;
            if j < i {
                assert(v@[j] == y);
            } else {
                assert(v@[j + 1] == y);
            }
        }
        if y == x {
            assert(v@[i as int] == y);
        }
    }
}

/// The warehouses of `s`, each once, ascending.
fn collect_warehouses(s: &Vec<ArticleLocation>) -> (v: Vec<Warehouse>)
    ensures
        strictly_ascending(v@),
        forall|w: Warehouse| v@.contains(w) <==> exists|j: int| 0 <= j < s@.len() && (#[trigger] s@[j]).warehouse == w,
{
    let mut v: Vec<Warehouse> = Vec::new();
    let mut i: usize = 0;
    while i < s.len()
        invariant
            i <= s@.len(),
            strictly_ascending(v@),
            forall|w: Warehouse| v@.contains(w) <==> exists|j: int| 0 <= j < i && (#[trigger] s@[j]).warehouse == w,
        decreases s@.len() - i,
    {
        insert_sorted(&mut v, s[i].warehouse);
        assert forall|w: Warehouse| v@.contains(w) <==> exists|j: int| 0 <= j < i + 1 && (#[trigger] s@[j]).warehouse == w by {
            if w == s@[i as int].warehouse {
                assert(s@[i as int].warehouse == w);
            }
        }
        i += 1;
    }
    v
}

proof fn lemma_location_map_warehouse(s: Seq<ArticleLocation>, a: ArticleId)
    requires
        location_map(s).contains_key(a),
    ensures
        exists|j: int| 0 <= j < s.len() && (#[trigger] s[j]).warehouse == location_map(s)[a].warehouse,
    decreases s.len(),
{
    if s.last().article_id != a {
        lemma_location_map_warehouse(s.drop_last(), a);
        let j = choose|j: int| 0 <= j < s.drop_last().len() && (#[trigger] s.drop_last()[j]).warehouse == location_map(s)[a].warehouse;
        assert(s[j] == s.drop_last()[j]);
    } else {
        assert(s[s.len() - 1].warehouse == location_map(s)[a].warehouse);
    }
}

/// The first line, in order and line order, whose article lacks a location or a volume.
fn check_orders(
    orders: &Vec<Order>,
    locs: &HashMap<ArticleId, ArticleLocation>,
    vols: &HashMap<ArticleId, Volume>,
) -> (r: Result<(), ModelError>)
    ensures
        r.is_ok() <==> orders_known(orders@, locs@, vols@),
        r matches Err(ModelError::UnknownArticle { order_id, article_id }) ==> exists|i: int, j: int|
            first_unknown(orders@, locs@, vols@, i, j) && orders@[i].id == order_id
                && (#[trigger] orders@[i].article_ids@[j]) == article_id,
{
    let mut i: usize = 0;
    while i < orders.len()
        invariant
            i <= orders@.len(),
            orders_known(orders@.subrange(0, i as int), locs@, vols@),
        decreases orders@.len() - i,
    {
        let order = &orders[i];
        let mut j: usize = 0;
        while j < order.article_ids.len()
            invariant
                i < orders@.len(),
                *order == orders@[i as int],
                orders_known(orders@.subrange(0, i as int), locs@, vols@),
                j <= order.article_ids@.len(),
                forall|jj: int| 0 <= jj < j ==> {
                    &&& locs@.contains_key(#[trigger] order.article_ids@[jj])
                    &&& vols@.contains_key(order.article_ids@[jj])
                },
            decreases order.article_ids@.len() - j,
        {
            let a = order.article_ids[j];
            if !locs.contains_key(&a) || !vols.contains_key(&a) {
                assert(orders@[i as int].article_ids@[j as int] == a);
                assert(!orders_known(orders@, locs@, vols@));
                assert(first_unknown(orders@, locs@, vols@, i as int, j as int));
                return Err(ModelError::UnknownArticle { order_id: order.id, article_id: a });
            }
            j += 1;
        }
        assert forall|ii: int, jj: int|
            0 <= ii < i + 1 && 0 <= jj < orders@.subrange(0, i + 1)[ii].article_ids@.len() implies {
                &&& locs@.contains_key(#[trigger] orders@.subrange(0, i + 1)[ii].article_ids@[jj])
                &&& vols@.contains_key(orders@.subrange(0, i + 1)[ii].article_ids@[jj])
            } by {
            if ii < i {
                assert(orders@.subrange(0, i + 1)[ii] == orders@.subrange(0, i as int)[ii]);
            }
        }
        i += 1;
    }
    assert(orders@.subrange(0, i as int) == orders@);
    Ok(())
}

fn build_tier(rankings: &Vec<Vec<(Warehouse, usize)>>, p: usize, w: Warehouse) -> (t: Vec<OrderId>)
    ensures
        t@ == tier_list(rankings@.map_values(|r: Vec<(Warehouse, usize)>| r@), p as int, w),
{
    let ghost rv = rankings@.map_values(|r: Vec<(Warehouse, usize)>| r@);
    let mut t: Vec<OrderId> = Vec::new();
    let mut i: usize = 0;
    while i < rankings.len()
        invariant
            i <= rankings@.len(),
            rv == rankings@.map_values(|r: Vec<(Warehouse, usize)>| r@),
            t@ == tier_list(rv.subrange(0, i as int), p as int, w),
        decreases rankings@.len() - i,
    {
        assert(rv.subrange(0, i + 1).drop_last() == rv.subrange(0, i as int));
        assert(rv.subrange(0, i + 1).last() == rankings@[i as int]@);
        if p < rankings[i].len() && rankings[i][p].0 == w {
            t.push(i);
        }
        i += 1;
    }
    assert(rv.subrange(0, i as int) == rv);
    t
}

impl Model {
    /// Builds the catalog and the affinity tiers of the orders.
    ///
    /// Fails on the first line, in order and line order, whose article has no
    /// location or no volume.
    pub fn from_input(input: Input) -> (r: Result<Model, ModelError>)
        ensures
            r.is_ok() <==> orders_known(
                input.orders@,
                location_map(input.article_locations@),
                volume_map(input.articles@),
            ),
            r matches Ok(m) ==> {
                &&& m.wf()
                &&& m.article_locations@ == location_map(input.article_locations@)
                &&& m.article_volumes@ == volume_map(input.articles@)
                &&& m.orders == input.orders
                &&& forall|w: Warehouse| m.warehouses@.contains(w) <==> exists|j: int|
                    0 <= j < input.article_locations@.len() && (#[trigger] input.article_locations@[j]).warehouse == w
            },
            r matches Err(ModelError::UnknownArticle { order_id, article_id }) ==> exists|i: int, j: int|
                first_unknown(input.orders@, location_map(input.article_locations@), volume_map(input.articles@), i, j)
                    && input.orders@[i].id == order_id && (#[trigger] input.orders@[i].article_ids@[j]) == article_id,
    {
        let article_locations = build_locations(&input.article_locations);
        let article_volumes = build_volumes(&input.articles);
        let warehouses = collect_warehouses(&input.article_locations);
        match check_orders(&input.orders, &article_locations, &article_volumes) {
            Ok(()) => {},
            Err(e) => {
                return Err(e);
            },
        }
        let orders = input.orders;
        let mut rankings: Vec<Vec<(Warehouse, usize)>> = Vec::new();
        let mut i: usize = 0;
        while i < orders.len()
            invariant
                i <= orders@.len(),
                orders_known(orders@, article_locations@, article_volumes@),
                rankings@.len() == i,
                forall|ii: int| 0 <= ii < i ==> is_ranking(
                    (#[trigger] orders@[ii]).article_ids@,
                    article_locations@,
                    rankings@[ii]@,
                ),
            decreases orders@.len() - i,
        {
            assert forall|j: int| 0 <= j < orders@[i as int].article_ids@.len() implies
                article_locations@.contains_key(#[trigger] orders@[i as int].article_ids@[j]) by {}
            let r = rank_order(&orders[i].article_ids, &article_locations);
            rankings.push(r);
            i += 1;
        }
        let ghost rv = rankings@.map_values(|r: Vec<(Warehouse, usize)>| r@);
        let mut warehouse_orders: Vec<Vec<(Warehouse, Vec<OrderId>)>> = Vec::new();
        let mut p: usize = 0;
        while p < 3
            invariant
                p <= 3,
                warehouse_orders@.len() == p,
                rv == rankings@.map_values(|r: Vec<(Warehouse, usize)>| r@),
                forall|pp: int| 0 <= pp < p ==> (#[trigger] warehouse_orders@[pp])@.len() == warehouses@.len(),
                forall|pp: int, k: int| 0 <= pp < p && 0 <= k < warehouses@.len() ==> {
                    &&& (#[trigger] warehouse_orders@[pp]@[k]).0 == warehouses@[k]
                    &&& warehouse_orders@[pp]@[k].1@ == tier_list(rv, pp, warehouses@[k])
                },
            decreases 3 - p,
        {
            let mut tier: Vec<(Warehouse, Vec<OrderId>)> = Vec::new();
            let mut k: usize = 0;
            while k < warehouses.len()
                invariant
                    k <= warehouses@.len(),
                    p < 3,
                    tier@.len() == k,
                    rv == rankings@.map_values(|r: Vec<(Warehouse, usize)>| r@),
                    forall|kk: int| 0 <= kk < k ==> {
                        &&& (#[trigger] tier@[kk]).0 == warehouses@[kk]
                        &&& tier@[kk].1@ == tier_list(rv, p as int, warehouses@[kk])
                    },
                decreases warehouses@.len() - k,
            {
                let w = warehouses[k];
                let t = build_tier(&rankings, p, w);
                tier.push((w, t));
                k += 1;
            }
            warehouse_orders.push(tier);
            p += 1;
        }
        let m = Model { article_locations, article_volumes, orders, warehouses, rankings, warehouse_orders };
        assert forall|a: ArticleId| #[trigger] m.article_locations@.contains_key(a)
            implies m.warehouses@.contains(m.article_locations@[a].warehouse) by {
            lemma_location_map_warehouse(input.article_locations@, a);
        }
        Ok(m)
    }
}

} // verus!
