//! The grid of parcels: generation, rectangular selection, road pictures,
//! flood-fill region labelling and shuffled visiting orders.

use vstd::prelude::*;
use crate::random::{RandomSource, chance, below};
use crate::tile::{Tile, TileType, TileAtlas, kind_listed, is_listed};

verus! {

/// Whether a cell is part of the current selection.
#[derive(Clone, Copy, PartialEq, Eq, Structural, Debug)]
pub enum Selection {
    Deselected,
    Selected,
    /// Inside the selected rectangle but of a kind the current tool refuses.
    Invalid,
}

/// A width × height grid of cells in row-major order. Each cell holds its
/// tile, its raw-resource counter and its selection mark.
pub struct TileGrid {
    pub width: usize,
    pub height: usize,
    pub tiles: Vec<(Tile, u8, Selection)>,
    /// Cells marked `Selected` since the selection was last cleared.
    pub num_selected: usize,
    /// For each region channel, the next unused region label.
    pub num_regions: Vec<u32>,
}

/// The lesser of two.
pub open spec fn min_of(a: int, b: int) -> int {
    if a <= b {
        a
    } else {
        b
    }
}

/// The greater of two.
pub open spec fn max_of(a: int, b: int) -> int {
    if a <= b {
        b
    } else {
        a
    }
}

/// Whether column `x`, row `y` lies inside a grid of `w` columns and `h`
/// rows and between the corners `start` and `end`, taken in either order:
/// the selected rectangle is clipped to the grid.
pub open spec fn in_rect(x: int, y: int, start: (i32, i32), end: (i32, i32), w: int, h: int) -> bool {
    &&& 0 <= x < w
    &&& 0 <= y < h
    &&& min_of(start.0 as int, end.0 as int) <= x <= max_of(start.0 as int, end.0 as int)
    &&& min_of(start.1 as int, end.1 as int) <= y <= max_of(start.1 as int, end.1 as int)
}

/// A rectangle that misses the grid selects nothing.
pub proof fn lemma_select_outside_is_empty(start: (i32, i32), end: (i32, i32), w: int, h: int, x: int, y: int)
    requires
        max_of(start.0 as int, end.0 as int) < 0 || min_of(start.0 as int, end.0 as int) >= w
            || max_of(start.1 as int, end.1 as int) < 0 || min_of(start.1 as int, end.1 as int) >= h,
    ensures
        !in_rect(x, y, start, end, w, h),
{
}

/// The order of the corners does not matter: swapping the corners, or only
/// their columns or only their rows, selects the same cells.
pub proof fn lemma_select_corner_order(start: (i32, i32), end: (i32, i32), w: int, h: int, x: int, y: int)
    ensures
        in_rect(x, y, start, end, w, h) == in_rect(x, y, end, start, w, h),
        in_rect(x, y, start, end, w, h) == in_rect(x, y, (end.0, start.1), (start.0, end.1), w, h),
        in_rect(x, y, start, end, w, h) == in_rect(x, y, (start.0, end.1), (end.0, start.1), w, h),
{
}

/// Number of cells with index below `n` that a selection of the rectangle
/// marks `Selected` (inside it and of a kind not in `blacklist`).
pub open spec fn count_selectable(
    tiles: Seq<(Tile, u8, Selection)>,
    n: int,
    start: (i32, i32),
    end: (i32, i32),
    w: int,
    h: int,
    blacklist: Seq<TileType>,
) -> nat
    decreases n,
{
    if n <= 0 {
        0
    } else {
        let i = n - 1;
        count_selectable(tiles, i, start, end, w, h, blacklist) + if in_rect(
            i % w,
            i / w,
            start,
            end,
            w,
            h,
        ) && !kind_listed(blacklist, tiles[i].0.tile_type) {
            1nat
        } else {
            0nat
        }
    }
}

/// `y * w + x` lies in a grid of `w` columns and `h` rows.
pub proof fn lemma_cell_index(x: int, y: int, w: int, h: int)
    requires
        0 <= x < w,
        0 <= y < h,
    ensures
        0 <= y * w + x < w * h,
{
    assert(y * w + x < w * h) by (nonlinear_arith)
        requires
            0 <= x < w,
            0 <= y < h,
    ;
    assert(0 <= y * w) by (nonlinear_arith)
        requires
            0 <= y,
            0 <= w,
    ;
}

/// The picture variant of a road-like tile given which of its left, right,
/// upper and lower neighbours are of the same kind; `current` when none is.
pub open spec fn road_variant(left: bool, right: bool, up: bool, down: bool, current: u32) -> u32 {
    if left && right && up && down {
        2
    } else if left && right && up {
        7
    } else if left && right && down {
        8
    } else if up && down && left {
        9
    } else if up && down && right {
        10
    } else if left && right {
        0
    } else if up && down {
        1
    } else if down && left {
        3
    } else if up && right {
        4
    } else if left && up {
        5
    } else if down && right {
        6
    } else if left || right {
        0
    } else if up || down {
        1
    } else {
        current
    }
}

/// The cell left of cell `i` (same row) exists and is of kind `k`.
pub open spec fn left_is(tiles: Seq<(Tile, u8, Selection)>, w: int, i: int, k: u8) -> bool {
    i % w > 0 && tiles[i - 1].0.tile_type.kind() == k
}

/// The cell right of cell `i` (same row) exists and is of kind `k`.
pub open spec fn right_is(tiles: Seq<(Tile, u8, Selection)>, w: int, i: int, k: u8) -> bool {
    i % w + 1 < w && tiles[i + 1].0.tile_type.kind() == k
}

/// The cell above cell `i` exists and is of kind `k`.
pub open spec fn up_is(tiles: Seq<(Tile, u8, Selection)>, w: int, i: int, k: u8) -> bool {
    i >= w && tiles[i - w].0.tile_type.kind() == k
}

/// The cell below cell `i` exists and is of kind `k`.
pub open spec fn down_is(tiles: Seq<(Tile, u8, Selection)>, w: int, i: int, k: u8) -> bool {
    i + w < tiles.len() && tiles[i + w].0.tile_type.kind() == k
}

/// The variant that the picture pass gives cell `i` for kind `k`.
pub open spec fn direction_of(tiles: Seq<(Tile, u8, Selection)>, w: int, i: int, k: u8) -> u32 {
    if tiles[i].0.tile_type.kind() == k {
        road_variant(
            left_is(tiles, w, i, k),
            right_is(tiles, w, i, k),
            up_is(tiles, w, i, k),
            down_is(tiles, w, i, k),
            tiles[i].0.variant,
        )
    } else {
        tiles[i].0.variant
    }
}

/// `road_variant` computed.
fn road_variant_exec(left: bool, right: bool, up: bool, down: bool, current: u32) -> (r: u32)
    ensures
        r == road_variant(left, right, up, down, current),
{
    if left && right && up && down {
        2
    } else if left && right && up {
        7
    } else if left && right && down {
        8
    } else if up && down && left {
        9
    } else if up && down && right {
        10
    } else if left && right {
        0
    } else if up && down {
        1
    } else if down && left {
        3
    } else if up && right {
        4
    } else if left && up {
        5
    } else if down && right {
        6
    } else if left || right {
        0
    } else if up || down {
        1
    } else {
        current
    }
}

/// Row and column arithmetic for cell `i` of a grid of `w` columns, `h` rows.
pub proof fn lemma_row_col(i: int, w: int, h: int)
    requires
        0 <= i < w * h,
        w >= 0,
        h >= 0,
    ensures
        w >= 1,
        0 <= i % w < w,
        i % w <= i,
        i == (i / w) * w + i % w,
        0 <= i / w < h,
        i - i % w + w <= w * h,
{
    assert(w >= 1) by (nonlinear_arith)
        requires
            0 <= i < w * h,
            w >= 0,
            h >= 0,
    ;
    assert(i == (i / w) * w + i % w) by (nonlinear_arith)
        requires
            w >= 1,
    ;
    assert(0 <= i / w) by (nonlinear_arith)
        requires
            w >= 1,
            i >= 0,
    ;
    assert(i / w < h) by (nonlinear_arith)
        requires
            w >= 1,
            0 <= i < w * h,
    ;
    assert((i / w) * w + w <= w * h) by (nonlinear_arith)
        requires
            w >= 1,
            i / w < h,
    ;
}

impl TileGrid {
    /// The grid has `width * height` cells, at least one region channel, and
    /// every tile is consistent with the channels.
    pub open spec fn wf(&self) -> bool {
        &&& self.tiles@.len() == self.width * self.height
        &&& self.num_regions@.len() >= 1
        &&& forall|i: int|
            0 <= i < self.tiles@.len() ==> (#[trigger] self.tiles@[i]).0.wf(
                self.num_regions@.len(),
            )
    }

    /// A grid of the given size filled by weighted draws: forest with
    /// probability 20%, otherwise water with probability 2%, otherwise grass.
    /// Every cell starts with 255 raw resources and deselected.
    pub fn new_generated<R: RandomSource>(
        width: usize,
        height: usize,
        tile_atlas: &TileAtlas,
        rng: &mut R,
    ) -> (r: TileGrid)
        requires
            tile_atlas.wf(),
            width * height <= usize::MAX,
        ensures
            r.wf(),
            r.width == width,
            r.height == height,
            r.num_selected == 0,
            r.num_regions@ == seq![0u32],
            forall|i: int|
                0 <= i < r.tiles@.len() ==> {
                    let c = #[trigger] r.tiles@[i];
                    let a = if c.0.tile_type.kind() == 2 {
                        tile_atlas.forest
                    } else if c.0.tile_type.kind() == 3 {
                        tile_atlas.water
                    } else {
                        tile_atlas.grass
                    };
                    &&& 1 <= c.0.tile_type.kind() <= 3
                    &&& c.0.tile_type == a.tile_type
                    &&& c.0.variant == a.variant
                    &&& c.0.regions@ == a.regions@
                    &&& c.0.cost == a.cost
                    &&& c.1 == 255
                    &&& c.2 == Selection::Deselected
                },
    {
        let n = width * height;
        let mut tiles: Vec<(Tile, u8, Selection)> = Vec::new();
        let mut i: usize = 0;
        while i < n
            invariant
                i <= n,
                n == width * height,
                tile_atlas.wf(),
                tiles@.len() == i,
                forall|k: int|
                    0 <= k < i ==> {
                        let c = #[trigger] tiles@[k];
                        let a = if c.0.tile_type.kind() == 2 {
                            tile_atlas.forest
                        } else if c.0.tile_type.kind() == 3 {
                            tile_atlas.water
                        } else {
                            tile_atlas.grass
                        };
                        &&& 1 <= c.0.tile_type.kind() <= 3
                        &&& c.0.tile_type == a.tile_type
                        &&& c.0.variant == a.variant
                        &&& c.0.regions@ == a.regions@
                        &&& c.0.cost == a.cost
                        &&& c.0.wf(1)
                        &&& c.1 == 255
                        &&& c.2 == Selection::Deselected
                    },
            decreases n - i,
        {
            let tile = if chance(rng, 200_000) {
                tile_atlas.forest.duplicate()
            } else if chance(rng, 20_000) {
                tile_atlas.water.duplicate()
            } else {
                tile_atlas.grass.duplicate()
            };
            tiles.push((tile, 255u8, Selection::Deselected));
            i = i + 1;
        }
        TileGrid { width, height, tiles, num_selected: 0, num_regions: vec![0u32] }
    }

    /// The grid's width and height.
    pub fn size(&self) -> (r: (usize, usize))
        ensures
            r == (self.width, self.height),
    {
        (self.width, self.height)
    }

    /// Deselects every cell and resets the selection count.
    pub fn clear_selected(&mut self)
        ensures
            final(self).width == old(self).width,
            final(self).height == old(self).height,
            final(self).num_regions == old(self).num_regions,
            final(self).num_selected == 0,
            final(self).tiles@.len() == old(self).tiles@.len(),
            forall|i: int|
                0 <= i < old(self).tiles@.len() ==> {
                    &&& (#[trigger] final(self).tiles@[i]).0 == old(self).tiles@[i].0
                    &&& final(self).tiles@[i].1 == old(self).tiles@[i].1
                    &&& final(self).tiles@[i].2 == Selection::Deselected
                },
    {
        let mut i: usize = 0;
        while i < self.tiles.len()
            invariant
                i <= self.tiles@.len(),
                self.tiles@.len() == old(self).tiles@.len(),
                self.width == old(self).width,
                self.height == old(self).height,
                self.num_regions == old(self).num_regions,
                forall|k: int|
                    0 <= k < old(self).tiles@.len() ==> {
                        &&& (#[trigger] self.tiles@[k]).0 == old(self).tiles@[k].0
                        &&& self.tiles@[k].1 == old(self).tiles@[k].1
                        &&& self.tiles@[k].2 == if k < i {
                            Selection::Deselected
                        } else {
                            old(self).tiles@[k].2
                        }
                    },
            decreases self.tiles@.len() - i,
        {
            self.tiles[i].2 = Selection::Deselected;
            i = i + 1;
        }
        self.num_selected = 0;
    }

    /// The cell at `index`.
    pub fn tile(&self, index: usize) -> (r: &(Tile, u8, Selection))
        requires
            index < self.tiles@.len(),
        ensures
            *r == self.tiles@[index as int],
    {
        &self.tiles[index]
    }

    /// The cell at `index`, for changing it.
    pub fn mut_tile(&mut self, index: usize) -> (r: &mut (Tile, u8, Selection))
        requires
            index < old(self).tiles@.len(),
        ensures
            *r == old(self).tiles@[index as int],
            final(self).tiles@ == old(self).tiles@.update(index as int, *final(r)),
            final(self).width == old(self).width,
            final(self).height == old(self).height,
            final(self).num_selected == old(self).num_selected,
            final(self).num_regions == old(self).num_regions,
    {
        &mut self.tiles[index]
    }

    /// The cell at column `x`, row `y`, if that lies inside the grid.
    pub fn tile_at(&self, x: i32, y: i32) -> (r: Option<&(Tile, u8, Selection)>)
        requires
            self.wf(),
        ensures
            (0 <= x < self.width && 0 <= y < self.height) ==> r == Some(
                &self.tiles@[y * self.width + x],
            ),
            !(0 <= x < self.width && 0 <= y < self.height) ==> r.is_none(),
    {
        if x >= 0 && (x as usize) < self.width && y >= 0 && (y as usize) < self.height {
            let (xu, yu) = (x as usize, y as usize);
            let n = self.tiles.len();
            proof {
                lemma_cell_index(xu as int, yu as int, self.width as int, self.height as int);
                assert(yu * self.width <= yu * self.width + xu);
            }
            Some(&self.tiles[yu * self.width + xu])
        } else {
            None
        }
    }

    /// All cells, in row-major order.
    pub fn tiles(&self) -> (r: &Vec<(Tile, u8, Selection)>)
        ensures
            r == &self.tiles,
    {
        &self.tiles
    }
    /// Marks the rectangle spanned by `start` and `end` (columns, rows), in
    /// either order and clipped to the grid (see `in_rect`). Each cell inside is
    /// marked `Invalid` if its kind is in `blacklist` and `Selected`
    /// otherwise; the selection count grows by the number of cells marked
    /// `Selected` (saturating).
    pub fn select(&mut self, start: (i32, i32), end: (i32, i32), blacklist: &Vec<TileType>)
        requires
            old(self).wf(),
        ensures
            final(self).width == old(self).width,
            final(self).height == old(self).height,
            final(self).num_regions == old(self).num_regions,
            final(self).tiles@.len() == old(self).tiles@.len(),
            forall|i: int|
                0 <= i < old(self).tiles@.len() ==> {
                    let c = old(self).tiles@[i];
                    let w = old(self).width as int;
                    &&& (#[trigger] final(self).tiles@[i]).0 == c.0
                    &&& final(self).tiles@[i].1 == c.1
                    &&& final(self).tiles@[i].2 == if in_rect(
                        i % w,
                        i / w,
                        start,
                        end,
                        w,
                        old(self).height as int,
                    ) {
                        if kind_listed(blacklist@, c.0.tile_type) {
                            Selection::Invalid
                        } else {
                            Selection::Selected
                        }
                    } else {
                        c.2
                    }
                },
            final(self).num_selected == min_of(
                old(self).num_selected + count_selectable(
                    old(self).tiles@,
                    old(self).tiles@.len() as int,
                    start,
                    end,
                    old(self).width as int,
                    old(self).height as int,
                    blacklist@,
                ),
                usize::MAX as int,
            ),
    {
        let ghost old_tiles = self.tiles@;
        let ghost wi = self.width as int;
        let ghost hi = self.height as int;
        let n = self.tiles.len();
        let mut count: usize = 0;
        let mut i: usize = 0;
        while i < n
            invariant
                i <= n,
                n == old_tiles.len(),
                wi == self.width,
                hi == self.height,
                n == wi * hi,
                wi >= 0,
                hi >= 0,
                self.width == old(self).width,
                self.height == old(self).height,
                self.num_regions == old(self).num_regions,
                self.num_selected == old(self).num_selected,
                old_tiles == old(self).tiles@,
                self.tiles@.len() == n,
                count == count_selectable(old_tiles, i as int, start, end, wi, hi, blacklist@),
                count <= i,
                forall|k: int|
                    0 <= k < n ==> {
                        let c = old_tiles[k];
                        &&& (#[trigger] self.tiles@[k]).0 == c.0
                        &&& self.tiles@[k].1 == c.1
                        &&& self.tiles@[k].2 == if k < i && in_rect(
                            k % wi,
                            k / wi,
                            start,
                            end,
                            wi,
                            hi,
                        ) {
                            if kind_listed(blacklist@, c.0.tile_type) {
                                Selection::Invalid
                            } else {
                                Selection::Selected
                            }
                        } else {
                            c.2
                        }
                    },
            decreases n - i,
        {
            proof {
                lemma_row_col(i as int, wi, hi);
            }
            let x = i % self.width;
            let y = i / self.width;
            if between(x, start.0, end.0) && between(y, start.1, end.1) {
                if is_listed(blacklist, &self.tiles[i].0.tile_type) {
                    self.tiles[i].2 = Selection::Invalid;
                } else {
                    self.tiles[i].2 = Selection::Selected;
                    count = count + 1;
                }
            }
            i = i + 1;
        }
        self.num_selected = self.num_selected.saturating_add(count);
    }

    /// The picture pass: every tile of the kind of `tile_type` gets the
    /// variant that matches which of its four neighbours share that kind.
    /// Only variants of that kind change; zones keep their levels.
    pub fn update_direction(&mut self, tile_type: TileType)
        requires
            old(self).wf(),
            !tile_type.is_zoned(),
        ensures
            final(self).wf(),
            final(self).width == old(self).width,
            final(self).height == old(self).height,
            final(self).num_regions == old(self).num_regions,
            final(self).num_selected == old(self).num_selected,
            final(self).tiles@.len() == old(self).tiles@.len(),
            forall|i: int|
                0 <= i < old(self).tiles@.len() ==> {
                    let c = old(self).tiles@[i];
                    let d = #[trigger] final(self).tiles@[i];
                    &&& d.0.tile_type == c.0.tile_type
                    &&& d.0.regions == c.0.regions
                    &&& d.0.cost == c.0.cost
                    &&& d.1 == c.1
                    &&& d.2 == c.2
                    &&& d.0.variant == direction_of(
                        old(self).tiles@,
                        old(self).width as int,
                        i,
                        tile_type.kind(),
                    )
                },
    {
        let ghost old_tiles = self.tiles@;
        let ghost wi = self.width as int;
        let w = self.width;
        let n = self.tiles.len();
        let mut i: usize = 0;
        while i < n
            invariant
                i <= n,
                n == old_tiles.len(),
                old_tiles == old(self).tiles@,
                wi == w,
                w == self.width,
                !tile_type.is_zoned(),
                old(self).wf(),
                self.wf(),
                self.width == old(self).width,
                self.height == old(self).height,
                self.num_regions == old(self).num_regions,
                self.num_selected == old(self).num_selected,
                self.tiles@.len() == n,
                forall|k: int|
                    0 <= k < n ==> {
                        let c = old_tiles[k];
                        let d = #[trigger] self.tiles@[k];
                        &&& d.0.tile_type == c.0.tile_type
                        &&& d.0.regions == c.0.regions
                        &&& d.0.cost == c.0.cost
                        &&& d.1 == c.1
                        &&& d.2 == c.2
                        &&& d.0.variant == if k < i {
                            direction_of(old_tiles, wi, k, tile_type.kind())
                        } else {
                            c.0.variant
                        }
                    },
            decreases n - i,
        {
            if self.tiles[i].0.tile_type.similar_to(&tile_type) {
                proof {
                    lemma_row_col(i as int, wi, self.height as int);
                }
                let x = i % w;
                let left = x > 0 && self.tiles[i - 1].0.tile_type.similar_to(&tile_type);
                let right = x + 1 < w && self.tiles[i + 1].0.tile_type.similar_to(&tile_type);
                let up = i >= w && self.tiles[i - w].0.tile_type.similar_to(&tile_type);
                let down = i < n - w && self.tiles[i + w].0.tile_type.similar_to(&tile_type);
                let v = road_variant_exec(left, right, up, down, self.tiles[i].0.variant);
                proof {
                    assert(left == left_is(old_tiles, wi, i as int, tile_type.kind()));
                    assert(right == right_is(old_tiles, wi, i as int, tile_type.kind()));
                    assert(up == up_is(old_tiles, wi, i as int, tile_type.kind()));
                    assert(down == down_is(old_tiles, wi, i as int, tile_type.kind()));
                }
                self.tiles[i].0.variant = v;
                proof {
                    assert forall|k: int| 0 <= k < n implies (#[trigger] self.tiles@[k]).0.wf(
                        self.num_regions@.len(),
                    ) by {
                        assert(old_tiles[k].0.wf(self.num_regions@.len()));
                    }
                }
            }
            i = i + 1;
        }
    }

    /// Indices of the cells marked `Selected`, in increasing order.
    pub fn selected(&self) -> (r: Vec<usize>)
        ensures
            forall|k: int|
                0 <= k < r@.len() ==> #[trigger] r@[k] < self.tiles@.len()
                    && self.tiles@[r@[k] as int].2 == Selection::Selected,
            forall|k: int, l: int| 0 <= k < l < r@.len() ==> #[trigger] r@[k] < #[trigger] r@[l],
            forall|i: int|
                0 <= i < self.tiles@.len() && (#[trigger] self.tiles@[i]).2 == Selection::Selected
                    ==> r@.contains(i as usize),
    {
        let mut r: Vec<usize> = Vec::new();
        let mut i: usize = 0;
        while i < self.tiles.len()
            invariant
                i <= self.tiles@.len(),
                forall|k: int|
                    0 <= k < r@.len() ==> #[trigger] r@[k] < i && self.tiles@[r@[k] as int].2
                        == Selection::Selected,
                forall|k: int, l: int|
                    0 <= k < l < r@.len() ==> #[trigger] r@[k] < #[trigger] r@[l],
                forall|j: int|
                    0 <= j < i && (#[trigger] self.tiles@[j]).2 == Selection::Selected
                        ==> r@.contains(j as usize),
            decreases self.tiles@.len() - i,
        {
            if self.tiles[i].2 == Selection::Selected {
                let ghost old_r = r@;
                r.push(i);
                proof {
                    assert forall|j: int|
                        0 <= j < i + 1 && (#[trigger] self.tiles@[j]).2 == Selection::Selected
                        implies r@.contains(j as usize) by {
                        if j < i {
                            let k = choose|k: int| 0 <= k < old_r.len() && old_r[k] == j as usize;
                            assert(r@[k] == j as usize);
                        } else {
                            assert(r@[r@.len() - 1] == i);
                        }
                    }
                }
            }
            i = i + 1;
        }
        r
    }
}

/// `s` lists every index below `n` exactly once.
pub open spec fn is_permutation_of_range(s: Seq<usize>, n: int) -> bool {
    &&& s.len() == n
    &&& forall|k: int| 0 <= k < n ==> #[trigger] s[k] < n
    &&& forall|k: int, l: int| 0 <= k < l < n ==> #[trigger] s[k] != #[trigger] s[l]
    &&& forall|v: usize| v < n ==> #[trigger] s.contains(v)
}

/// A random order in which to visit the items of a collection, with a
/// cursor into it.
pub struct ShuffledItems {
    pub indices: Vec<usize>,
    pub counter: usize,
}

impl ShuffledItems {
    /// A uniformly shuffled order of the indices of `items` (Fisher-Yates),
    /// with the cursor at its start.
    pub fn new<T, R: RandomSource>(items: &Vec<T>, rng: &mut R) -> (r: ShuffledItems)
        ensures
            is_permutation_of_range(r.indices@, items@.len() as int),
            r.counter == 0,
    {
        let n = items.len();
        let mut indices: Vec<usize> = Vec::new();
        let mut i: usize = 0;
        while i < n
            invariant
                i <= n,
                n == items@.len(),
                indices@.len() == i,
                forall|k: int| 0 <= k < i ==> #[trigger] indices@[k] == k,
            decreases n - i,
        {
            indices.push(i);
            i = i + 1;
        }
        proof {
            assert forall|v: usize| v < n implies #[trigger] indices@.contains(v) by {
                assert(indices@[v as int] == v);
            }
        }
        let mut m: usize = n;
        while m > 1
            invariant
                m <= n,
                n == items@.len(),
                is_permutation_of_range(indices@, n as int),
            decreases m,
        {
            let j = below(rng, m as u64) as usize;
            m = m - 1;
            let a = indices[m];
            let b = indices[j];
            let ghost before = indices@;
            indices[m] = b;
            indices[j] = a;
            proof {
                assert(indices@ == before.update(m as int, b).update(j as int, a));
                assert forall|k: int, l: int| 0 <= k < l < n implies #[trigger] indices@[k]
                    != #[trigger] indices@[l] by {
                    let pk = if k == m {
                        j as int
                    } else if k == j {
                        m as int
                    } else {
                        k
                    };
                    let pl = if l == m {
                        j as int
                    } else if l == j {
                        m as int
                    } else {
                        l
                    };
                    assert(indices@[k] == before[pk]);
                    assert(indices@[l] == before[pl]);
                    if pk < pl {
                        assert(before[pk] != before[pl]);
                    } else {
                        assert(before[pl] != before[pk]);
                    }
                }
                assert forall|v: usize| v < n implies #[trigger] indices@.contains(v) by {
                    assert(before.contains(v));
                    let k = choose|k: int| 0 <= k < before.len() && before[k] == v;
                    let pk = if k == m {
                        j as int
                    } else if k == j {
                        m as int
                    } else {
                        k
                    };
                    assert(indices@[pk] == v);
                }
            }
        }
        ShuffledItems { indices, counter: 0 }
    }

    /// The shuffled order.
    pub fn into_indices(self) -> (r: Vec<usize>)
        ensures
            r@ == self.indices@,
    {
        self.indices
    }

    /// The next index of the order, advancing the cursor; `None` once the
    /// order is exhausted.
    pub fn next_index(&mut self) -> (r: Option<usize>)
        ensures
            final(self).indices@ == old(self).indices@,
            old(self).counter < old(self).indices@.len() ==> r == Some(
                old(self).indices@[old(self).counter as int],
            ) && final(self).counter == old(self).counter + 1,
            old(self).counter >= old(self).indices@.len() ==> r.is_none() && final(self).counter
                == old(self).counter,
    {
        if self.counter < self.indices.len() {
            let index = self.indices[self.counter];
            self.counter = self.counter + 1;
            Some(index)
        } else {
            None
        }
    }
}

impl TileGrid {
    /// A shuffled visiting order of the grid's cells.
    pub fn shuffled<R: RandomSource>(&self, rng: &mut R) -> (r: ShuffledItems)
        ensures
            is_permutation_of_range(r.indices@, self.tiles@.len() as int),
            r.counter == 0,
    {
        ShuffledItems::new(&self.tiles, rng)
    }
}

/// Whether `v` lies between `a` and `b`, taken in either order.
fn between(v: usize, a: i32, b: i32) -> (r: bool)
    ensures
        r == (min_of(a as int, b as int) <= v <= max_of(a as int, b as int)),
{
    let (lo, hi) = if a <= b {
        (a, b)
    } else {
        (b, a)
    };
    hi >= 0 && (lo <= 0 || v >= lo as usize) && v <= hi as usize
}

} // verus!
