use citybuilder::grid::{Selection, ShuffledItems, TileGrid};
use citybuilder::random::{RandomSource, XorShift};
use citybuilder::tile::{Tile, TileAtlas, TileType};

const G: TileType = TileType::Grass;
const R: TileType = TileType::Road;

fn grid_of(width: usize, height: usize, kinds: &[TileType]) -> TileGrid {
    let tiles = kinds.iter().map(|t| (Tile::new(*t, 0), 255u8, Selection::Deselected)).collect();
    TileGrid { width, height, tiles, num_selected: 0, num_regions: vec![0] }
}

fn marks(g: &TileGrid) -> Vec<Selection> {
    g.tiles.iter().map(|c| c.2).collect()
}

#[test]
fn generated_grid_has_natural_tiles() {
    let atlas = TileAtlas::standard();
    let g = TileGrid::new_generated(20, 10, &atlas, &mut XorShift::new(3));
    assert_eq!(g.size(), (20, 10));
    assert_eq!(g.tiles.len(), 200);
    assert_eq!(g.num_selected, 0);
    for (t, res, sel) in g.tiles.iter() {
        assert!(matches!(t.tile_type, TileType::Grass | TileType::Forest | TileType::Water));
        assert_eq!(*res, 255);
        assert_eq!(*sel, Selection::Deselected);
    }
    assert!(g.tiles.iter().any(|c| c.0.tile_type == TileType::Grass));
    assert!(g.tiles.iter().any(|c| c.0.tile_type == TileType::Forest));
}

#[test]
fn select_clips_to_grid() {
    let mut g = grid_of(4, 3, &[TileType::Grass; 12]);
    g.select((-5, -5), (10, 1), &Vec::new());
    let m = marks(&g);
    for i in 0..12 {
        let expected = if i < 8 { Selection::Selected } else { Selection::Deselected };
        assert_eq!(m[i], expected);
    }
    assert_eq!(g.num_selected, 8);
}

#[test]
fn select_corner_order_does_not_matter() {
    let mut a = grid_of(4, 3, &[TileType::Grass; 12]);
    let mut b = grid_of(4, 3, &[TileType::Grass; 12]);
    a.select((1, 0), (2, 2), &Vec::new());
    b.select((2, 2), (1, 0), &Vec::new());
    assert_eq!(marks(&a), marks(&b));
    let mut c = grid_of(4, 3, &[TileType::Grass; 12]);
    c.select((2, 0), (1, 2), &Vec::new());
    assert_eq!(marks(&a), marks(&c));
    assert_eq!(a.num_selected, 6);
}

#[test]
fn select_marks_blacklisted_invalid() {
    let mut kinds = [TileType::Grass; 12];
    kinds[5] = TileType::Water;
    let mut g = grid_of(4, 3, &kinds);
    g.select((0, 0), (3, 2), &vec![TileType::Water]);
    assert_eq!(g.tiles[5].2, Selection::Invalid);
    assert_eq!(g.tiles[4].2, Selection::Selected);
    assert_eq!(g.num_selected, 11);
    assert_eq!(g.selected().len(), 11);
    assert!(!g.selected().contains(&5));
}

#[test]
fn select_outside_grid_selects_nothing() {
    let mut g = grid_of(3, 3, &[TileType::Grass; 9]);
    g.select((-4, -4), (-1, -2), &Vec::new());
    assert!(g.selected().is_empty());
    assert_eq!(g.num_selected, 0);
    g.select((5, 0), (3, 2), &Vec::new());
    assert!(marks(&g).iter().all(|s| *s == Selection::Deselected));
    g.select((1, -3), (1, 7), &Vec::new());
    assert_eq!(g.selected(), vec![1, 4, 7]);
}

#[test]
fn select_on_empty_grid_changes_nothing() {
    let mut g = grid_of(0, 0, &[]);
    g.select((0, 0), (3, 3), &Vec::new());
    assert_eq!(g.num_selected, 0);
}

#[test]
fn clear_selected_resets() {
    let mut g = grid_of(3, 2, &[TileType::Grass; 6]);
    g.select((0, 0), (2, 1), &Vec::new());
    g.clear_selected();
    assert_eq!(g.num_selected, 0);
    assert!(marks(&g).iter().all(|s| *s == Selection::Deselected));
    assert!(g.selected().is_empty());
}

#[test]
fn tile_at_checks_bounds() {
    let mut kinds = [TileType::Grass; 6];
    kinds[4] = TileType::Road;
    let g = grid_of(3, 2, &kinds);
    assert_eq!(g.tile_at(1, 1).unwrap().0.tile_type, TileType::Road);
    assert!(g.tile_at(3, 0).is_none());
    assert!(g.tile_at(-1, 0).is_none());
    assert!(g.tile_at(0, 2).is_none());
    assert_eq!(g.tile(4).0.tile_type, TileType::Road);
}

#[test]
fn mut_tile_changes_one_cell() {
    let mut g = grid_of(2, 1, &[TileType::Grass; 2]);
    g.mut_tile(1).1 = 7;
    assert_eq!(g.tiles[1].1, 7);
    assert_eq!(g.tiles[0].1, 255);
}

#[test]
fn road_pictures_follow_neighbours() {
    let kinds = [
        G, R, G, G,
        R, R, R, G,
        G, R, G, R,
    ];
    let mut g = grid_of(4, 3, &kinds);
    g.tiles[11].0.variant = 9;
    g.update_direction(TileType::Road);
    let v: Vec<u32> = g.tiles.iter().map(|c| c.0.variant).collect();
    assert_eq!(v[5], 2); // all four neighbours
    assert_eq!(v[1], 1); // only below
    assert_eq!(v[4], 0); // only right
    assert_eq!(v[6], 0); // only left
    assert_eq!(v[9], 1); // only above
    assert_eq!(v[11], 9); // alone: unchanged
    assert_eq!(v[0], 0); // grass untouched
}

#[test]
fn road_corner_and_tee_pictures() {
    let kinds = [
        R, R, R,
        R, G, G,
        G, G, G,
    ];
    let mut g = grid_of(3, 3, &kinds);
    g.update_direction(TileType::Road);
    assert_eq!(g.tiles[0].0.variant, 6); // right and down
    assert_eq!(g.tiles[1].0.variant, 0); // left and right
    assert_eq!(g.tiles[3].0.variant, 1); // up only
}

#[test]
fn shuffled_order_is_a_permutation() {
    let items: Vec<u8> = vec![0; 10];
    let s = ShuffledItems::new(&items, &mut XorShift::new(11));
    let mut idx = s.into_indices();
    idx.sort();
    assert_eq!(idx, (0..10).collect::<Vec<usize>>());
}

#[test]
fn shuffled_order_walks_once() {
    let g = grid_of(3, 1, &[TileType::Grass; 3]);
    let mut s = g.shuffled(&mut XorShift::new(5));
    let first = s.indices.clone();
    let mut seen = Vec::new();
    while let Some(i) = s.next_index() {
        seen.push(i);
    }
    assert_eq!(seen, first);
    assert_eq!(s.next_index(), None);
}

struct Zero;

impl RandomSource for Zero {
    fn next_u32(&mut self) -> u32 {
        0
    }
}

#[test]
fn shuffled_order_with_zero_draws() {
    let items: Vec<u8> = vec![0; 3];
    let s = ShuffledItems::new(&items, &mut Zero);
    assert_eq!(s.into_indices(), vec![1, 2, 0]);
}
