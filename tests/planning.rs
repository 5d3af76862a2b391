use ob::model::{Article, ArticleLocation, Batch, Input, Item, Model, ModelError, Order, Wave};
use ob::solution::{search, ConfigError, Solution};
use ob::affinity::rank_order;
use std::collections::HashMap;

fn loc(article_id: usize, warehouse: usize, aisle: usize) -> ArticleLocation {
    ArticleLocation { warehouse, aisle, position: 0, article_id }
}

fn scenario_input() -> Input {
    let mut article_locations = Vec::new();
    let mut articles = Vec::new();
    for a in 1..=10 {
        article_locations.push(loc(a, 1, 1));
        articles.push(Article { id: a, volume: 3 });
    }
    for a in 11..=12 {
        article_locations.push(loc(a, 2, 1));
        articles.push(Article { id: a, volume: 5 });
    }
    let orders = vec![
        Order { id: 0, article_ids: vec![1, 2, 3, 4, 5, 6] },
        Order { id: 1, article_ids: vec![7, 8, 9, 10, 11, 12] },
    ];
    Input { article_locations, articles, orders }
}

fn plan_with(input: Input, wave_cap: usize, batch_cap: usize) -> Solution {
    let model = Model::from_input(input).unwrap();
    let mut solution = Solution::with_caps(model.clone(), wave_cap, batch_cap).unwrap();
    search(&mut solution, &model);
    solution
}

fn items(b: &Batch) -> Vec<(usize, usize)> {
    b.items.iter().map(|i| (i.order_id, i.article_id)).collect()
}

#[test]
fn scenario_two_warehouses() {
    let model = Model::from_input(scenario_input()).unwrap();
    assert_eq!(model.rankings[0], vec![(1, 6)]);
    assert_eq!(model.rankings[1], vec![(1, 4), (2, 2)]);
    let s = plan_with(scenario_input(), 10, 20);
    assert_eq!(s.waves.len(), 2);
    assert_eq!(s.waves[0].order_ids, vec![0]);
    assert_eq!(s.waves[0].size, 6);
    assert_eq!(s.waves[0].batch_ids, vec![0]);
    assert_eq!(s.waves[1].order_ids, vec![1]);
    assert_eq!(s.waves[1].size, 6);
    assert_eq!(s.waves[1].batch_ids, vec![1, 2]);
    assert_eq!(s.batches.len(), 3);
    assert_eq!(s.batches[0].volume, 18);
    assert_eq!(s.batches[0].items.len(), 6);
    assert_eq!(items(&s.batches[1]), vec![(1, 7), (1, 8), (1, 9), (1, 10)]);
    assert_eq!(s.batches[1].volume, 12);
    assert_eq!(items(&s.batches[2]), vec![(1, 11), (1, 12)]);
    assert_eq!(s.batches[2].volume, 10);
    assert_eq!(s.rest_cost(), 35);
    assert_eq!(s.tour_cost(), 45);
    assert_eq!(s.total_cost(), 80);
}

#[test]
fn empty_solution_costs_nothing() {
    let input = Input { article_locations: vec![], articles: vec![], orders: vec![] };
    let s = plan_with(input, 10, 20);
    assert_eq!(s.waves.len(), 0);
    assert_eq!(s.batches.len(), 0);
    assert_eq!(s.tour_cost(), 0);
    assert_eq!(s.rest_cost(), 0);
    assert_eq!(s.total_cost(), 0);
}

#[test]
fn total_is_tour_plus_rest() {
    let s = plan_with(scenario_input(), 250, 10000);
    assert_eq!(s.total_cost(), s.tour_cost() + s.rest_cost());
    // one wave, batch 0 holds both orders' W1 lines, batch 1 the W2 lines
    assert_eq!(s.waves.len(), 1);
    assert_eq!(s.batches.len(), 2);
    assert_eq!(s.rest_cost(), 20);
    assert_eq!(s.tour_cost(), 30);
}

#[test]
fn tour_cost_counts_warehouses_and_aisles() {
    let input = Input {
        article_locations: vec![loc(1, 1, 1), loc(2, 1, 2), loc(3, 1, 2)],
        articles: vec![Article { id: 1, volume: 1 }, Article { id: 2, volume: 1 }, Article { id: 3, volume: 1 }],
        orders: vec![Order { id: 0, article_ids: vec![1, 2, 3] }],
    };
    let s = plan_with(input, 10, 20);
    assert_eq!(s.batches.len(), 1);
    assert_eq!(s.batches[0].warehouses, vec![1]);
    assert_eq!(s.batches[0].warehouse_aisles, vec![(1, 1), (1, 2)]);
    assert_eq!(s.tour_cost(), 10 + 2 * 5);
}

#[test]
fn every_order_in_one_wave_and_every_line_in_one_batch() {
    let s = plan_with(scenario_input(), 4, 7);
    let mut seen: HashMap<usize, usize> = HashMap::new();
    for w in s.waves.iter() {
        for o in w.order_ids.iter() {
            *seen.entry(*o).or_insert(0) += 1;
        }
    }
    assert_eq!(seen.get(&0), Some(&1));
    assert_eq!(seen.get(&1), Some(&1));
    let placed: usize = s.batches.iter().map(|b| b.items.len()).sum();
    assert_eq!(placed, 12);
    for w in s.waves.iter() {
        for b in w.batch_ids.iter() {
            for it in s.batches[*b].items.iter() {
                assert!(w.order_ids.contains(&it.order_id));
            }
        }
    }
}

#[test]
fn oversized_order_gets_a_wave_alone() {
    let s = plan_with(scenario_input(), 3, 100);
    assert_eq!(s.waves.len(), 2);
    for w in s.waves.iter() {
        assert!(w.size <= 3 || w.order_ids.len() == 1);
    }
    assert_eq!(s.waves[0].size, 6);
}

#[test]
fn oversized_article_gets_a_batch_alone() {
    let s = plan_with(scenario_input(), 100, 4);
    for b in s.batches.iter() {
        assert!(b.volume <= 4 || b.items.len() == 1);
    }
    // lines of volume 5 exceed the cap and each sits alone
    let alone: Vec<&Batch> = s.batches.iter().filter(|b| b.volume == 5).collect();
    assert_eq!(alone.len(), 2);
    assert_eq!(s.batches.len(), 12);
}

#[test]
fn planning_twice_gives_the_same_result() {
    let a = plan_with(scenario_input(), 5, 7);
    let b = plan_with(scenario_input(), 5, 7);
    assert_eq!(a.waves.len(), b.waves.len());
    assert_eq!(a.batches.len(), b.batches.len());
    for (x, y) in a.waves.iter().zip(b.waves.iter()) {
        assert_eq!(x.id, y.id);
        assert_eq!(x.order_ids, y.order_ids);
        assert_eq!(x.batch_ids, y.batch_ids);
        assert_eq!(x.size, y.size);
    }
    for (x, y) in a.batches.iter().zip(b.batches.iter()) {
        assert_eq!(x.id, y.id);
        assert_eq!(items(x), items(y));
        assert_eq!(x.volume, y.volume);
    }
}

#[test]
fn unknown_article_is_reported() {
    let mut input = scenario_input();
    input.orders[1].article_ids.push(99);
    match Model::from_input(input) {
        Err(e) => assert_eq!(e, ModelError::UnknownArticle { order_id: 1, article_id: 99 }),
        Ok(_) => panic!("expected an error"),
    }
}

#[test]
fn article_without_volume_is_reported() {
    let mut input = scenario_input();
    input.articles.retain(|a| a.id != 3);
    match Model::from_input(input) {
        Err(e) => assert_eq!(e, ModelError::UnknownArticle { order_id: 0, article_id: 3 }),
        Ok(_) => panic!("expected an error"),
    }
}

#[test]
fn zero_caps_are_refused() {
    let model = Model::from_input(scenario_input()).unwrap();
    assert!(matches!(Solution::with_caps(model.clone(), 0, 5), Err(ConfigError::ZeroWaveSize)));
    assert!(matches!(Solution::with_caps(model, 5, 0), Err(ConfigError::ZeroBatchVolume)));
}

#[test]
fn default_caps() {
    let model = Model::from_input(scenario_input()).unwrap();
    let s = Solution::new(model);
    assert_eq!(s.max_wave_size, 250);
    assert_eq!(s.max_batch_volume, 10000);
}

#[test]
fn ranking_breaks_ties_by_lower_warehouse_and_keeps_three() {
    let mut locs = HashMap::new();
    locs.insert(1, loc(1, 5, 0));
    locs.insert(2, loc(2, 3, 0));
    locs.insert(3, loc(3, 9, 0));
    locs.insert(4, loc(4, 7, 0));
    let r = rank_order(&vec![1, 1, 2, 2, 3, 4, 4, 4], &locs);
    assert_eq!(r, vec![(7, 3), (3, 2), (5, 2)]);
    let r = rank_order(&vec![], &locs);
    assert_eq!(r, vec![]);
}

#[test]
fn tiers_follow_rankings_and_warehouses_ascend() {
    let input = Input {
        article_locations: vec![loc(1, 8, 0), loc(2, 2, 0), loc(3, 5, 0)],
        articles: vec![Article { id: 1, volume: 1 }, Article { id: 2, volume: 1 }, Article { id: 3, volume: 1 }],
        orders: vec![
            Order { id: 0, article_ids: vec![1, 1, 2] },
            Order { id: 1, article_ids: vec![2, 3, 1] },
            Order { id: 2, article_ids: vec![] },
        ],
    };
    let m = Model::from_input(input).unwrap();
    assert_eq!(m.warehouses, vec![2, 5, 8]);
    assert_eq!(m.rankings[0], vec![(8, 2), (2, 1)]);
    assert_eq!(m.rankings[1], vec![(2, 1), (5, 1), (8, 1)]);
    assert_eq!(m.rankings[2], vec![]);
    let t0: Vec<(usize, Vec<usize>)> = m.warehouse_orders[0].clone();
    assert_eq!(t0, vec![(2, vec![1]), (5, vec![]), (8, vec![0])]);
    assert_eq!(m.warehouse_orders[1], vec![(2, vec![0]), (5, vec![1]), (8, vec![])]);
    assert_eq!(m.warehouse_orders[2], vec![(2, vec![]), (5, vec![]), (8, vec![1])]);
}

#[test]
fn later_location_of_an_article_counts() {
    let input = Input {
        article_locations: vec![loc(1, 4, 0), loc(1, 6, 2)],
        articles: vec![Article { id: 1, volume: 2 }, Article { id: 1, volume: 9 }],
        orders: vec![Order { id: 0, article_ids: vec![1] }],
    };
    let m = Model::from_input(input).unwrap();
    assert_eq!(m.article_locations.get(&1).unwrap().warehouse, 6);
    assert_eq!(m.article_volumes.get(&1), Some(&9));
    assert_eq!(m.warehouses, vec![4, 6]);
}

#[test]
fn wave_and_batch_building_blocks() {
    let mut w = Wave::new(3);
    assert_eq!(w.size, 0);
    w.push_order(&Order { id: 7, article_ids: vec![1, 2] });
    assert_eq!(w.order_ids, vec![7]);
    assert_eq!(w.size, 2);
    let mut b = Batch::new(4);
    b.push(7, 1, 5);
    b.push(8, 2, 6);
    assert_eq!(b.volume, 11);
    assert_eq!(b.items[1], Item { order_id: 8, article_id: 2 });
    assert_eq!(b.get_order_ids(), vec![7, 8]);
    b.touch(1, 2);
    b.touch(1, 2);
    b.touch(1, 3);
    assert_eq!(b.warehouses, vec![1]);
    assert_eq!(b.warehouse_aisles, vec![(1, 2), (1, 3)]);
}
