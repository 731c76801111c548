use citybuilder::grid::{Selection, TileGrid};
use citybuilder::tile::{Tile, TileType};

const G: TileType = TileType::Grass;
const R: TileType = TileType::Road;

fn grid_of(width: usize, height: usize, kinds: &[TileType]) -> TileGrid {
    let tiles = kinds.iter().map(|t| (Tile::new(*t, 0), 255u8, Selection::Deselected)).collect();
    TileGrid { width, height, tiles, num_selected: 0, num_regions: vec![0] }
}

fn labels(g: &TileGrid) -> Vec<u32> {
    g.tiles.iter().map(|c| c.0.regions[0]).collect()
}

fn two_l_shapes() -> TileGrid {
    let kinds = [
        R, R, G, G, G, G, G, //
        R, G, G, G, G, R, G, //
        G, G, G, G, G, R, G, //
        G, G, G, G, R, R, G, //
        G, G, G, G, G, G, G, //
    ];
    grid_of(7, 5, &kinds)
}

#[test]
fn two_clusters_get_distinct_labels() {
    let mut g = two_l_shapes();
    g.find_connected_regions(&vec![TileType::Road], 0);
    let l = labels(&g);
    for i in [0, 1, 7] {
        assert_eq!(l[i], 1);
    }
    for i in [12, 19, 25, 26] {
        assert_eq!(l[i], 2);
    }
    for (i, v) in l.iter().enumerate() {
        if g.tiles[i].0.tile_type != TileType::Road {
            assert_eq!(*v, 0);
        }
    }
    assert_eq!(g.num_regions[0], 3);
}

#[test]
fn relabelling_reproduces_labels() {
    let mut g = two_l_shapes();
    g.find_connected_regions(&vec![TileType::Road], 0);
    let first = labels(&g);
    g.find_connected_regions(&vec![TileType::Road], 0);
    assert_eq!(labels(&g), first);
}

#[test]
fn stale_labels_are_reset() {
    let mut g = grid_of(3, 1, &[TileType::Road, TileType::Grass, TileType::Road]);
    g.tiles[1].0.regions[0] = 9;
    g.find_connected_regions(&vec![TileType::Road], 0);
    assert_eq!(labels(&g), vec![1, 0, 2]);
}

#[test]
fn diagonal_cells_are_not_connected() {
    let mut g = grid_of(2, 2, &[R, G, G, R]);
    g.find_connected_regions(&vec![TileType::Road], 0);
    assert_eq!(labels(&g), vec![1, 0, 0, 2]);
}

#[test]
fn wrapping_rows_are_not_connected() {
    // the last cell of a row and the first of the next are not neighbours
    let mut g = grid_of(3, 2, &[G, G, R, R, G, G]);
    g.find_connected_regions(&vec![TileType::Road], 0);
    assert_eq!(labels(&g), vec![0, 0, 1, 2, 0, 0]);
}

#[test]
fn zones_and_roads_share_a_district() {
    let mut g = grid_of(
        4,
        1,
        &[TileType::residential(50, 6), TileType::Road, TileType::industrial(50, 4), TileType::Water],
    );
    let districts = vec![
        TileType::Road,
        TileType::residential(0, 0),
        TileType::commercial(0, 0),
        TileType::industrial(0, 0),
    ];
    g.find_connected_regions(&districts, 0);
    assert_eq!(labels(&g), vec![1, 1, 1, 0]);
}

#[test]
fn spiral_is_one_region() {
    let kinds = [
        R, R, R, R, R, //
        G, G, G, G, R, //
        R, R, R, G, R, //
        R, G, G, G, R, //
        R, R, R, R, R, //
    ];
    let mut g = grid_of(5, 5, &kinds);
    g.find_connected_regions(&vec![TileType::Road], 0);
    for (i, v) in labels(&g).iter().enumerate() {
        let expected = if kinds[i] == R { 1 } else { 0 };
        assert_eq!(*v, expected);
    }
    assert_eq!(g.num_regions[0], 2);
}

#[test]
fn empty_grid_has_no_regions() {
    let mut g = grid_of(0, 0, &[]);
    g.find_connected_regions(&vec![TileType::Road], 0);
    assert_eq!(g.num_regions[0], 1);
}
