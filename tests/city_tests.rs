use citybuilder::city::{
    batch_revenue, blacklist_for, distribute_pool, earnings_of_day, migration_in, unit_goods_revenue, City, DayReport,
    MAX_POOL,
};
use citybuilder::grid::{Selection, TileGrid};
use citybuilder::random::{RandomSource, XorShift};
use citybuilder::tile::{Tile, TileAtlas, TileType};

struct Zero;

impl RandomSource for Zero {
    fn next_u32(&mut self) -> u32 {
        0
    }
}

fn grid_of(width: usize, height: usize, tiles: Vec<Tile>) -> TileGrid {
    let tiles = tiles.into_iter().map(|t| (t, 255u8, Selection::Deselected)).collect();
    TileGrid { width, height, tiles, num_selected: 0, num_regions: vec![0] }
}

#[test]
fn distribute_moves_at_most_four_residents() {
    assert_eq!(distribute_pool(10_000, 0, 50_000, 0), (6_000, 4_000));
    assert_eq!(distribute_pool(1_500, 0, 50_000, 0), (0, 1_500));
    assert_eq!(distribute_pool(10_000, 49_000, 50_000, 0), (9_000, 50_000));
}

#[test]
fn distribute_conserves_without_growth() {
    for (pool, pop, max) in [(10_000u64, 0u64, 50_000u64), (123, 45_000, 50_000), (0, 7, 9), (999_999, 50_000, 50_000), (5, 49_999, 50_000)] {
        let (p, q) = distribute_pool(pool, pop, max, 0);
        assert_eq!(p + q, pool + pop);
        assert!(q <= max);
    }
}

#[test]
fn distribute_applies_growth() {
    assert_eq!(distribute_pool(0, 10_000, 50_000, 320), (0, 10_003));
}

#[test]
fn distribute_returns_overflow_to_pool() {
    assert_eq!(distribute_pool(0, 50_000, 50_000, 1_000_000), (50_000, 50_000));
    assert_eq!(distribute_pool(1_000, 40_000, 50_000, 500_000), (11_500, 50_000));
    assert_eq!(distribute_pool(MAX_POOL, 50_000, 50_000, 1_000_000), (MAX_POOL, 50_000));
}

#[test]
fn goods_revenue_per_unit() {
    assert_eq!(unit_goods_revenue(50_000), 95_000_000);
    assert_eq!(unit_goods_revenue(0), 100_000_000);
}

#[test]
fn store_revenue_formula() {
    // 95 dollars for one unit, 100 customers, 20 workers: 95 * 100 * 20 / 100 dollars
    assert_eq!(batch_revenue(1, 0, 50_000, 100_000, 20_000), 1_900_000_000);
    assert_eq!(batch_revenue(0, 10_000_000, 0, 1_000, 1_000), 100_000);
    assert_eq!(batch_revenue(3, 5, 50_000, 0, 1_000), 0);
}

#[test]
fn immigration_formula() {
    assert_eq!(migration_in(100_000, 0, 100_000, 0, 50_000), (1_950, 95_000));
    assert_eq!(migration_in(100_000, 200_000, 100_000, 0, 50_000), (1_000, 0));
    assert_eq!(migration_in(100_000, 0, 100_000, 100_000, 50_000), (1_000, 0));
}

#[test]
fn earnings_formula() {
    assert_eq!(earnings_of_day(10_000, 50_000, 0, 50_000, 95_000_000, 50_000), 12_250_000);
    assert_eq!(earnings_of_day(0, 50_000, 2_000_000, 500_000, 0, 50_000), 1_000_000);
}

#[test]
fn new_city_defaults() {
    let c = City::new(grid_of(1, 1, vec![Tile::new(TileType::Grass, 50)]));
    assert_eq!(c.day, 0);
    assert_eq!(c.get_homeless(), 0);
    assert_eq!(c.get_unemployed(), 0);
    assert_eq!(c.residential_tax, 50_000);
    assert_eq!(c.birth_rate, 550);
    assert_eq!(c.death_rate, 230);
    assert_eq!(c.time_per_day, 1000);
}

#[test]
fn short_steps_only_accumulate_time() {
    let mut c = City::new(grid_of(1, 1, vec![Tile::new(TileType::Grass, 50)]));
    assert!(c.update(400, &mut Zero).is_none());
    assert!(c.update(599, &mut Zero).is_none());
    assert_eq!(c.current_time, 999);
    assert_eq!(c.day, 0);
    let mut rng = XorShift::new(77);
    assert!(c.update(0, &mut rng).is_none());
    assert_eq!(rng.state, XorShift::new(77).state);
    assert!(c.update(1, &mut Zero).is_some());
    assert_eq!(c.current_time, 0);
    assert_eq!(c.day, 1);
}

#[test]
fn earnings_settle_every_thirty_days() {
    let mut c = City::new(grid_of(1, 1, vec![Tile::new(TileType::Grass, 50)]));
    c.day = 29;
    c.earnings = 7;
    c.funds = 100;
    c.update(1000, &mut Zero);
    assert_eq!(c.day, 30);
    assert_eq!(c.funds, 107);
    assert_eq!(c.earnings, 0);
}

#[test]
fn industry_trades_with_store_in_one_district() {
    let atlas = TileAtlas::standard();
    let mut factory = atlas.industrial.duplicate();
    factory.set_population(10_000);
    let shop = atlas.commercial.duplicate();
    let road = atlas.road.duplicate();
    let mut grid = grid_of(3, 1, vec![factory, road, shop]);
    grid.tiles[0].1 = 10;
    let mut c = City::new(grid);
    c.tiles_changed();
    let labels: Vec<u32> = c.map.tiles.iter().map(|t| t.0.regions[0]).collect();
    assert_eq!(labels, vec![1, 1, 1]);
    let report = c.update(1000, &mut Zero).unwrap();
    // one unit produced from raw resources
    assert_eq!(c.map.tiles[0].1, 9);
    // manufactured into one unit of goods, then sold to the store
    match c.map.tiles[0].0.tile_type {
        TileType::Industrial { production, stored_goods, .. } => {
            assert_eq!(production, 0);
            assert_eq!(stored_goods, 0);
        }
        _ => panic!("the factory changed kind"),
    }
    assert_eq!(report.industrial_revenue, 95_000_000);
    // no homes: only the industrial tax on the one unit sold
    assert_eq!(c.earnings, 4_750_000);
    assert_eq!(report.stores, 1);
    assert_eq!(report.industries, 1);
}

#[test]
fn zones_stay_within_capacity_over_many_days() {
    let atlas = TileAtlas::standard();
    let mut tiles = Vec::new();
    for i in 0..36 {
        let t = match i % 6 {
            0 | 1 => atlas.residential.duplicate(),
            2 => atlas.commercial.duplicate(),
            3 => atlas.industrial.duplicate(),
            _ => atlas.road.duplicate(),
        };
        tiles.push(t);
    }
    let mut c = City::new(grid_of(6, 6, tiles));
    c.population_pool = 500_000;
    c.unemployed_pool = 300_000;
    c.tiles_changed();
    let mut rng = XorShift::new(2024);
    for _ in 0..300 {
        c.update(1000, &mut rng);
        for (t, _, _) in c.map.tiles.iter() {
            match t.tile_type {
                TileType::Residential { population, max_pop_per_level, max_levels }
                | TileType::Commercial { population, max_pop_per_level, max_levels }
                | TileType::Industrial { population, max_pop_per_level, max_levels, .. } => {
                    assert!(t.variant <= max_levels);
                    assert!(population <= max_pop_per_level as u64 * (t.variant as u64 + 1) * 1000);
                }
                _ => {}
            }
        }
    }
    assert_eq!(c.day, 300);
}

#[test]
fn bulldoze_returns_people_to_pools() {
    let atlas = TileAtlas::standard();
    let mut home = atlas.residential.duplicate();
    home.set_population(5_000);
    let mut shop = atlas.commercial.duplicate();
    shop.set_population(2_000);
    let mut c = City::new(grid_of(3, 1, vec![home, shop, atlas.grass.duplicate()]));
    c.map.tiles[0].1 = 17;
    c.map.select((0, 0), (1, 0), &Vec::new());
    c.bulldoze(&atlas.road);
    assert_eq!(c.population_pool, 5_000);
    assert_eq!(c.unemployed_pool, 2_000);
    assert_eq!(c.map.tiles[0].0.tile_type, TileType::Road);
    assert_eq!(c.map.tiles[1].0.tile_type, TileType::Road);
    assert_eq!(c.map.tiles[2].0.tile_type, TileType::Grass);
    assert_eq!(c.map.tiles[0].1, 17);
}

#[test]
fn tool_needs_funds() {
    let atlas = TileAtlas::standard();
    let mut c = City::new(grid_of(2, 1, vec![atlas.grass.duplicate(), atlas.grass.duplicate()]));
    c.funds = 199_000_000;
    c.map.select((0, 0), (1, 0), &Vec::new());
    assert!(!c.apply_tool(&atlas.road));
    assert_eq!(c.funds, 199_000_000);
    assert_eq!(c.map.num_selected, 0);
    assert_eq!(c.map.tiles[0].0.tile_type, TileType::Grass);
    c.funds = 250_000_000;
    c.map.select((0, 0), (1, 0), &Vec::new());
    assert!(c.apply_tool(&atlas.road));
    assert_eq!(c.funds, 50_000_000);
    assert_eq!(c.map.tiles[1].0.tile_type, TileType::Road);
    assert_eq!(c.map.tiles[0].0.regions, vec![1]);
    assert_eq!(c.map.tiles[0].0.variant, 0);
    assert!(c.map.tiles.iter().all(|t| t.2 == Selection::Deselected));
}

fn industry(production: u32, stored_goods: u32, level: u32) -> Tile {
    let mut t = TileAtlas::standard().industrial.duplicate();
    t.set_production(production);
    t.set_stored_goods(stored_goods);
    t.variant = level;
    t
}

#[test]
fn manufacture_pulls_one_unit_per_donor() {
    let mut c = City::new(grid_of(
        4,
        1,
        vec![industry(2, 0, 1), industry(0, 0, 0), industry(5, 0, 0), Tile::new(TileType::Water, 0)],
    ));
    c.tiles_changed();
    c.manufacture_cell(0);
    let goods: Vec<(u32, u32)> = c
        .map
        .tiles
        .iter()
        .map(|t| match t.0.tile_type {
            TileType::Industrial { production, stored_goods, .. } => (production, stored_goods),
            _ => (0, 0),
        })
        .collect();
    // demand 2: one unit from cell 0, none from the idle cell 1, one from cell 2;
    // then (2 received + 1 left) * 2 stored
    assert_eq!(goods, vec![(1, 6), (0, 0), (4, 0), (0, 0)]);
}

#[test]
fn manufacture_ignores_other_kinds() {
    let mut c = City::new(grid_of(2, 1, vec![Tile::new(TileType::Road, 0), industry(3, 0, 0)]));
    c.tiles_changed();
    c.manufacture_cell(0);
    assert_eq!(c.map.tiles[1].0.tile_type, industry(3, 0, 0).tile_type);
}

#[test]
fn store_drains_goods_and_counts_customers() {
    let atlas = TileAtlas::standard();
    let mut shop = atlas.commercial.duplicate();
    shop.set_population(2_000);
    let mut home = atlas.residential.duplicate();
    home.set_population(3_000);
    let mut c = City::new(grid_of(4, 1, vec![industry(0, 1, 0), industry(0, 5, 0), shop, home]));
    c.tiles_changed();
    let mut acc = DayReport::new();
    c.trade_cell(2, &mut Zero, &mut acc);
    match (c.map.tiles[0].0.tile_type, c.map.tiles[1].0.tile_type) {
        (TileType::Industrial { stored_goods: a, .. }, TileType::Industrial { stored_goods: b, .. }) => {
            assert_eq!((a, b), (0, 5));
        }
        _ => panic!("industries changed kind"),
    }
    assert_eq!(acc.industrial_revenue, 95_000_000);
    // 95 dollars for the unit, 3 customers, 2 workers, over 100
    assert_eq!(acc.commercial_revenue, 5_700_000);
}

#[test]
fn home_takes_in_homeless_and_grows() {
    let atlas = TileAtlas::standard();
    let mut c = City::new(grid_of(1, 1, vec![atlas.residential.duplicate()]));
    c.population_pool = 10_000;
    let mut acc = DayReport::new();
    c.grow_cell(0, &mut Zero, &mut acc);
    // four residents move in, then grow by 0.032%
    assert_eq!(c.map.tiles[0].0.tile_type.get_population(), 4_001);
    assert_eq!(c.population_pool, 6_000);
    assert_eq!(acc.pop_total, 4_001);
    assert_eq!(acc.empty_homes, 45_999);
}

#[test]
fn day_end_sends_the_idle_away() {
    let mut c = City::new(grid_of(1, 1, vec![Tile::new(TileType::Grass, 50)]));
    c.population_pool = 1_000_000;
    c.settle_day(&DayReport::new(), &mut Zero);
    // grows to 1_000_320, then 5% plus one resident leave
    assert_eq!(c.population_pool, 949_304);
    assert_eq!(c.population, 949_304);
    assert_eq!(c.unemployed_pool, 474_652);
    assert_eq!(c.employable, 474_652);
    assert_eq!(c.earnings, 0);
}

#[test]
fn tool_blacklists() {
    assert_eq!(blacklist_for(&TileType::Grass), vec![TileType::Water]);
    let road = blacklist_for(&TileType::Road);
    assert_eq!(road.len(), 7);
    assert!(road.contains(&TileType::Forest));
    assert!(road.contains(&TileType::industrial(0, 0)));
}
