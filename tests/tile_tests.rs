use citybuilder::random::{chance, RandomSource, XorShift, PPM};
use citybuilder::tile::{is_listed, Tile, TileAtlas, TileType};

struct Zero;

impl RandomSource for Zero {
    fn next_u32(&mut self) -> u32 {
        0
    }
}

#[test]
fn similar_to_ignores_state() {
    let a = TileType::Residential { population: 5, max_pop_per_level: 50, max_levels: 6 };
    let b = TileType::residential(10, 2);
    assert!(a.similar_to(&b));
    assert!(!a.similar_to(&TileType::commercial(50, 6)));
    assert!(TileType::Road.similar_to(&TileType::Road));
    assert!(!TileType::Grass.similar_to(&TileType::Forest));
}

#[test]
fn constructors_start_empty() {
    assert_eq!(
        TileType::industrial(50, 4),
        TileType::Industrial {
            population: 0,
            max_pop_per_level: 50,
            production: 0,
            stored_goods: 0,
            max_levels: 4
        }
    );
    assert_eq!(TileType::commercial(7, 3).get_population(), 0);
}

#[test]
fn kind_codes_and_names() {
    assert_eq!(TileType::Void.kind_code(), 0);
    assert_eq!(TileType::Water.kind_code(), 3);
    assert_eq!(TileType::industrial(1, 1).kind_code(), 6);
    assert_eq!(TileType::Road.kind_code(), 7);
    assert_eq!(TileType::residential(1, 1).name(), "Residential Zone");
    assert_eq!(TileType::Forest.name(), "Forest");
}

#[test]
fn listed_kinds() {
    let list = vec![TileType::Water, TileType::residential(0, 0)];
    assert!(is_listed(&list, &TileType::Residential { population: 9, max_pop_per_level: 50, max_levels: 6 }));
    assert!(is_listed(&list, &TileType::Water));
    assert!(!is_listed(&list, &TileType::Road));
    assert!(!is_listed(&Vec::new(), &TileType::Road));
}

#[test]
fn new_tile_and_copy() {
    let t = Tile::new(TileType::Road, 100);
    assert_eq!(t.variant, 0);
    assert_eq!(t.regions, vec![0]);
    assert_eq!(t.cost, 100);
    let mut u = Tile::new(TileType::residential(50, 6), 300);
    u.variant = 2;
    u.regions = vec![4, 5];
    let c = u.duplicate();
    assert_eq!(c.tile_type, u.tile_type);
    assert_eq!(c.variant, 2);
    assert_eq!(c.regions, vec![4, 5]);
    assert_eq!(c.cost, 300);
}

#[test]
fn capacity_grows_with_level() {
    let mut t = Tile::new(TileType::commercial(50, 4), 300);
    assert_eq!(t.get_capacity(), 50_000);
    t.variant = 3;
    assert_eq!(t.get_capacity(), 200_000);
}

#[test]
fn setters_touch_only_their_kind() {
    let mut t = Tile::new(TileType::industrial(50, 4), 300);
    t.set_population(1234);
    t.set_production(3);
    t.set_stored_goods(9);
    assert_eq!(
        t.tile_type,
        TileType::Industrial {
            population: 1234,
            max_pop_per_level: 50,
            production: 3,
            stored_goods: 9,
            max_levels: 4
        }
    );
    let mut r = Tile::new(TileType::Road, 100);
    r.set_population(5);
    r.set_production(5);
    assert_eq!(r.tile_type, TileType::Road);
}

#[test]
fn full_zone_levels_up() {
    let mut t = Tile::new(TileType::residential(50, 6), 300);
    t.set_population(50_000);
    t.update(&mut Zero);
    assert_eq!(t.variant, 1);
    // not full at the new level
    t.update(&mut Zero);
    assert_eq!(t.variant, 1);
}

#[test]
fn zone_at_top_level_stays() {
    let mut t = Tile::new(TileType::commercial(50, 1), 300);
    t.variant = 1;
    t.set_population(100_000);
    t.update(&mut Zero);
    assert_eq!(t.variant, 1);
}

#[test]
fn standard_atlas() {
    let a = TileAtlas::standard();
    assert_eq!(a.grass.cost, 50);
    assert_eq!(a.forest.cost, 100);
    assert_eq!(a.water.cost, 0);
    assert_eq!(a.road.cost, 100);
    assert_eq!(a.residential.tile_type, TileType::residential(50, 6));
    assert_eq!(a.commercial.tile_type, TileType::commercial(50, 4));
    assert_eq!(a.industrial.tile_type, TileType::industrial(50, 4));
}

#[test]
fn xorshift_is_reproducible() {
    let mut a = XorShift::new(42);
    let mut b = XorShift::new(42);
    let xs: Vec<u32> = (0..5).map(|_| a.next_u32()).collect();
    let ys: Vec<u32> = (0..5).map(|_| b.next_u32()).collect();
    assert_eq!(xs, ys);
    assert_ne!(xs[0], xs[1]);
    assert_ne!(XorShift::new(0).state, 0);
}

#[test]
fn chance_extremes() {
    let mut rng = XorShift::new(9);
    for _ in 0..100 {
        assert!(!chance(&mut rng, 0));
        assert!(chance(&mut rng, PPM));
    }
}
