use citybuilder::codec::PersistenceError;
use citybuilder::grid::{Selection, TileGrid};
use citybuilder::random::XorShift;
use citybuilder::tile::{Tile, TileAtlas, TileType};

fn grid_of(width: usize, height: usize, tiles: Vec<Tile>) -> TileGrid {
    let tiles = tiles.into_iter().map(|t| (t, 255u8, Selection::Deselected)).collect();
    TileGrid { width, height, tiles, num_selected: 0, num_regions: vec![0] }
}

fn sample_grid() -> TileGrid {
    let atlas = TileAtlas::standard();
    let mut home = atlas.residential.duplicate();
    home.set_population(12_345);
    home.variant = 1;
    home.regions = vec![1];
    let mut factory = atlas.industrial.duplicate();
    factory.set_population(7_000);
    factory.set_production(3);
    factory.set_stored_goods(7);
    factory.regions = vec![1];
    let mut shop = atlas.commercial.duplicate();
    shop.set_population(500);
    shop.regions = vec![2];
    let mut road = atlas.road.duplicate();
    road.variant = 5;
    road.regions = vec![1];
    let void = Tile::new(TileType::Void, 0);
    let water = atlas.water.duplicate();
    grid_of(3, 2, vec![home, factory, shop, road, void, water])
}

fn fresh() -> TileGrid {
    TileGrid::new_generated(2, 2, &TileAtlas::standard(), &mut XorShift::new(1))
}

#[test]
fn save_writes_big_endian_records() {
    let mut road = Tile::new(TileType::Road, 100);
    road.variant = 3;
    road.regions = vec![2];
    let g = grid_of(1, 1, vec![road]);
    assert_eq!(g.save(), vec![0, 0, 0, 1, 0, 0, 0, 1, 7, 0, 0, 0, 3, 0, 0, 0, 1, 0, 0, 0, 2]);
}

#[test]
fn save_writes_zone_fields() {
    let mut shop = Tile::new(TileType::commercial(50, 4), 300);
    shop.set_population(0x0102);
    let g = grid_of(1, 1, vec![shop]);
    assert_eq!(
        g.save(),
        vec![0, 0, 0, 1, 0, 0, 0, 1, 5, 0, 0, 0, 0, 0, 0, 1, 2, 0, 0, 0, 0, 0, 0, 0, 1, 0, 0, 0, 0]
    );
    let mut factory = Tile::new(TileType::industrial(50, 4), 300);
    factory.set_production(4);
    factory.set_stored_goods(0x01000000);
    let bytes = grid_of(1, 1, vec![factory]).save();
    assert_eq!(bytes[8], 6);
    assert_eq!(&bytes[17..25], &[0, 0, 0, 4, 1, 0, 0, 0]);
}

#[test]
fn save_then_load_round_trips() {
    let g = sample_grid();
    let bytes = g.save();
    let mut h = fresh();
    assert_eq!(h.load(&bytes, &TileAtlas::standard()), Ok(()));
    assert_eq!(h.size(), (3, 2));
    for i in 0..6 {
        assert_eq!(h.tiles[i].0.tile_type, g.tiles[i].0.tile_type);
        assert_eq!(h.tiles[i].0.variant, g.tiles[i].0.variant);
        assert_eq!(h.tiles[i].0.regions, g.tiles[i].0.regions);
        assert_eq!(h.tiles[i].1, 255);
        assert_eq!(h.tiles[i].2, Selection::Deselected);
    }
    assert_eq!(h.save(), bytes);
}

#[test]
fn load_takes_costs_from_the_atlas() {
    let bytes = sample_grid().save();
    let mut h = fresh();
    h.load(&bytes, &TileAtlas::standard()).unwrap();
    assert_eq!(h.tiles[0].0.cost, 300);
    assert_eq!(h.tiles[3].0.cost, 100);
    assert_eq!(h.tiles[4].0.cost, 0);
    assert_eq!(h.tiles[4].0.tile_type, TileType::Void);
}

#[test]
fn load_rejects_unknown_kind() {
    let bytes = vec![0, 0, 0, 1, 0, 0, 0, 1, 9, 0, 0, 0, 0, 0, 0, 0, 1, 0, 0, 0, 0];
    let mut h = fresh();
    let before = h.save();
    assert_eq!(
        h.load(&bytes, &TileAtlas::standard()),
        Err(PersistenceError::InvalidFormat { offset: 8, value: 9 })
    );
    assert_eq!(h.save(), before);
}

#[test]
fn load_rejects_short_data() {
    let mut h = fresh();
    assert_eq!(h.load(&[0, 0, 0], &TileAtlas::standard()), Err(PersistenceError::IoFailure));
    let cut = vec![0, 0, 0, 1, 0, 0, 0, 1, 7, 0, 0, 0];
    assert_eq!(h.load(&cut, &TileAtlas::standard()), Err(PersistenceError::IoFailure));
    let no_labels = vec![0, 0, 0, 1, 0, 0, 0, 1, 7, 0, 0, 0, 0, 0, 0, 0, 1, 0, 0];
    assert_eq!(h.load(&no_labels, &TileAtlas::standard()), Err(PersistenceError::IoFailure));
    assert_eq!(h.size(), (2, 2));
}

#[test]
fn load_rejects_overfull_zone() {
    // a level-0 home holds at most 50 residents (50_000 units)
    let mut bytes = vec![0, 0, 0, 1, 0, 0, 0, 1, 4];
    bytes.extend_from_slice(&60_000u64.to_be_bytes());
    bytes.extend_from_slice(&[0, 0, 0, 0, 0, 0, 0, 1, 0, 0, 0, 0]);
    let mut h = fresh();
    assert_eq!(h.load(&bytes, &TileAtlas::standard()), Err(PersistenceError::InvalidTile { index: 0 }));
}

#[test]
fn load_rejects_wrong_channel_count() {
    let bytes = vec![0, 0, 0, 2, 0, 0, 0, 1, 7, 0, 0, 0, 0, 0, 0, 0, 1, 0, 0, 0, 0, 1, 0, 0, 0, 0, 0, 0, 0, 2, 0, 0, 0, 0, 0, 0, 0, 0];
    let mut h = fresh();
    assert_eq!(h.load(&bytes, &TileAtlas::standard()), Err(PersistenceError::InvalidTile { index: 1 }));
}

#[test]
fn load_rejects_level_above_top() {
    let mut bytes = vec![0, 0, 0, 1, 0, 0, 0, 1, 5];
    bytes.extend_from_slice(&0u64.to_be_bytes());
    bytes.extend_from_slice(&[0, 0, 0, 9, 0, 0, 0, 1, 0, 0, 0, 0]);
    let mut h = fresh();
    assert_eq!(h.load(&bytes, &TileAtlas::standard()), Err(PersistenceError::InvalidTile { index: 0 }));
}
