//! The city: pooled residents and workers, taxes and funds, and the daily
//! economic tick over the grid.

use vstd::prelude::*;
use crate::grid::{Selection, TileGrid, direction_of, is_permutation_of_range, min_of};
use crate::random::{PPM, RandomSource, below, chance};
use crate::regions::{frame_ok, is_region_labelling, labels_of, types_of};
use crate::tile::{Tile, TileType, UNITS_PER_RESIDENT, capacity_units};

verus! {

/// Milliseconds in one simulated day.
pub const TIME_PER_DAY_MS: u64 = 1000;

/// Days between two settlements of earnings into funds.
pub const DAYS_PER_MONTH: u64 = 30;

/// Millionths of a dollar per dollar.
pub const MICROS_PER_DOLLAR: u64 = 1_000_000;

/// Population units squared per resident squared, times 100: the divisor
/// of a store's revenue.
pub const STORE_SCALE: u128 = 100_000_000;

/// Divisor turning the excess of homes times jobs into arriving population
/// units (thousandths of residents squared, parts per million, 0.01%).
pub const ARRIVAL_SCALE: u128 = 10_000_000_000_000;

/// Divisor turning the same excess into a chance in parts per million.
pub const ODDS_SCALE: u128 = 100_000_000_000;

/// At most this many population units move from a pool into one cell a day.
pub const MOVE_LIMIT: u64 = 4 * UNITS_PER_RESIDENT;

/// Pools are clamped to this many population units.
pub const MAX_POOL: u64 = 1_000_000_000_000_000;

/// The least of three.
pub open spec fn min3(a: int, b: int, c: int) -> int {
    if a <= b && a <= c {
        a
    } else if b <= c {
        b
    } else {
        c
    }
}

/// The amount moved from `pool` into a cell of population `pop` and
/// capacity `max_pop` (at least `pop`): limited by the free room, the daily
/// limit and the pool.
pub open spec fn moved(pool: int, pop: int, max_pop: int) -> int {
    min3(max_pop - pop, MOVE_LIMIT as int, pool)
}

/// `distribute_pool`'s result, before the pool is clamped to `MAX_POOL`:
/// move into the cell what `moved` allows, grow the population by
/// `growth_ppm` parts per million (rounded down), and push any excess over
/// `max_pop` back into the pool.
pub open spec fn distribution(pool: int, pop: int, max_pop: int, growth_ppm: int) -> (int, int) {
    let m = moved(pool, pop, max_pop);
    let pop1 = pop + m;
    let pool1 = pool - m;
    let pop2 = pop1 + pop1 * growth_ppm / PPM as int;
    if pop2 > max_pop {
        (pool1 + pop2 - max_pop, max_pop)
    } else {
        (pool1, pop2)
    }
}

/// `v` capped at `MAX_POOL`.
pub open spec fn clamp_pool(v: int) -> int {
    if v > MAX_POOL {
        MAX_POOL as int
    } else {
        v
    }
}

/// Moves residents (or workers) from `pool` into a cell holding `population`
/// of at most `max_pop`, then applies organic growth at `change_rate` parts
/// per million; returns the new pool and population. The population never
/// exceeds `max_pop`; with no growth, pool plus population is conserved.
pub fn distribute_pool(pool: u64, population: u64, max_pop: u64, change_rate: u64) -> (r: (u64, u64))
    requires
        pool <= MAX_POOL,
        population <= max_pop,
        max_pop <= MAX_POOL,
        change_rate <= PPM,
    ensures
        r.0 == clamp_pool(distribution(pool as int, population as int, max_pop as int, change_rate as int).0),
        r.1 == distribution(pool as int, population as int, max_pop as int, change_rate as int).1,
        r.0 <= MAX_POOL,
        r.1 <= max_pop,
{
    let room = max_pop - population;
    let moving = if room <= MOVE_LIMIT && room <= pool {
        room
    } else if MOVE_LIMIT <= pool {
        MOVE_LIMIT
    } else {
        pool
    };
    let pop1 = population + moving;
    let pool1 = pool - moving;
    proof {
        assert(pop1 as int * change_rate as int / PPM as int <= pop1) by (nonlinear_arith)
            requires
                change_rate <= PPM,
                pop1 >= 0,
        ;
        assert(pop1 as int * change_rate as int <= pop1 as int * PPM as int) by (nonlinear_arith)
            requires
                change_rate <= PPM,
                pop1 >= 0,
        ;
    }
    let growth = ((pop1 as u128 * change_rate as u128) / PPM as u128) as u64;
    let pop2 = pop1 + growth;
    if pop2 > max_pop {
        let pool2 = pool1 + (pop2 - max_pop);
        (if pool2 > MAX_POOL {
            MAX_POOL
        } else {
            pool2
        }, max_pop)
    } else {
        (pool1, pop2)
    }
}

/// With no growth, distributing a pool conserves pool plus population
/// exactly (for sums within the pool limit, where no clamping occurs).
pub proof fn lemma_distribute_pool_conserves(pool: u64, population: u64, max_pop: u64)
    requires
        population <= max_pop,
        max_pop <= MAX_POOL,
        pool + population <= MAX_POOL,
    ensures
        clamp_pool(distribution(pool as int, population as int, max_pop as int, 0).0) + distribution(
            pool as int,
            population as int,
            max_pop as int,
            0,
        ).1 == pool + population,
{
    let m = moved(pool as int, population as int, max_pop as int);
    let pop1 = population + m;
    assert(pop1 * 0 / PPM as int == 0);
}

/// The population of the selected cells of kind `k` among the first `n`.
pub open spec fn selected_population(tiles: Seq<(Tile, u8, Selection)>, n: int, k: u8) -> int
    decreases n,
{
    if n <= 0 {
        0
    } else {
        selected_population(tiles, n - 1, k) + if tiles[n - 1].2 == Selection::Selected
            && tiles[n - 1].0.tile_type.kind() == k {
            tiles[n - 1].0.tile_type.population() as int
        } else {
            0
        }
    }
}

/// The kinds that make up districts: roads and the three zones.
pub open spec fn district_kinds() -> Seq<TileType> {
    seq![
        TileType::Road,
        TileType::residential_spec(0, 0),
        TileType::commercial_spec(0, 0),
        TileType::industrial_spec(0, 0),
    ]
}

/// A zone's population is at most its top-level capacity, which is at most
/// `u32::MAX` residents.
pub proof fn lemma_zone_population_bound(t: TileType, level: u32)
    requires
        t.zone_ok(level),
    ensures
        t.population() <= u32::MAX as int * UNITS_PER_RESIDENT,
        capacity_units(t.per_level(), level) <= u32::MAX as int * UNITS_PER_RESIDENT || !t.is_zoned(),
{
    if t.is_zoned() {
        let p = t.per_level() as int;
        let top = t.top_level() as int;
        assert(p * (level + 1) <= p * (top + 1)) by (nonlinear_arith)
            requires
                level <= top,
                p >= 0,
        ;
        assert(p * (level + 1) * UNITS_PER_RESIDENT <= u32::MAX as int * UNITS_PER_RESIDENT) by (
        nonlinear_arith)
            requires
                p * (level + 1) <= u32::MAX,
        ;
    }
}

/// Every zone of the grid holds between zero and its level's capacity and
/// is at most at its top level.
pub open spec fn zones_within_capacity(g: &TileGrid) -> bool {
    forall|i: int|
        0 <= i < g.tiles@.len() && (#[trigger] g.tiles@[i]).0.tile_type.is_zoned() ==> {
            let t = g.tiles@[i].0;
            &&& 0 <= t.tile_type.population() <= capacity_units(t.tile_type.per_level(), t.variant)
            &&& t.variant <= t.tile_type.top_level()
        }
}

/// A consistent city has every zone within capacity. Creating a city,
/// bulldozing, relabelling and every `update` keep the city consistent, so
/// the bound holds after any sequence of days.
pub proof fn lemma_capacity_invariant(c: &City)
    requires
        c.wf(),
    ensures
        zones_within_capacity(&c.map),
{
    assert forall|i: int|
        0 <= i < c.map.tiles@.len() && (#[trigger] c.map.tiles@[i]).0.tile_type.is_zoned() implies {
        let t = c.map.tiles@[i].0;
        &&& 0 <= t.tile_type.population() <= capacity_units(t.tile_type.per_level(), t.variant)
        &&& t.variant <= t.tile_type.top_level()
    } by {
        assert(c.map.tiles@[i].0.wf(c.map.num_regions@.len()));
    }
}

/// The kinds a tool may not be built over: clearing to grass refuses only
/// water; any other tool refuses its own kind, water, forest, roads and
/// zones.
pub open spec fn tool_blacklist(tool: TileType) -> Seq<TileType> {
    if tool.kind() == 1 {
        seq![TileType::Water]
    } else {
        seq![
            tool,
            TileType::Water,
            TileType::Forest,
            TileType::Road,
            TileType::residential_spec(0, 0),
            TileType::commercial_spec(0, 0),
            TileType::industrial_spec(0, 0),
        ]
    }
}

/// `tool_blacklist` built.
pub fn blacklist_for(tool: &TileType) -> (r: Vec<TileType>)
    ensures
        r@ == tool_blacklist(*tool),
{
    if tool.kind_code() == 1 {
        let r = vec![TileType::Water];
        proof {
            assert(r@ =~= tool_blacklist(*tool));
        }
        r
    } else {
        let r = vec![
            *tool,
            TileType::Water,
            TileType::Forest,
            TileType::Road,
            TileType::residential(0, 0),
            TileType::commercial(0, 0),
            TileType::industrial(0, 0),
        ];
        proof {
            assert(r@ =~= tool_blacklist(*tool));
        }
        r
    }
}

/// The city's state. Populations and pools are in population units
/// (thousandths of a resident), rates and taxes in parts per million, money
/// in millionths of a dollar and time in milliseconds.
pub struct City {
    /// Time accumulated towards the next day.
    pub current_time: u64,
    pub time_per_day: u64,
    /// Residents without a home.
    pub population_pool: u64,
    /// Workers without a job.
    pub unemployed_pool: u64,
    /// Share of newly counted residents who can work.
    pub prop_can_work: u64,
    pub birth_rate: u64,
    pub death_rate: u64,
    pub map: TileGrid,
    pub population: u64,
    pub employable: u64,
    pub residential_tax: u64,
    pub commercial_tax: u64,
    pub industrial_tax: u64,
    pub earnings: u64,
    pub funds: u64,
    pub day: u64,
}

impl City {
    /// The grid is consistent (so every zone lies within its capacity and
    /// top level), pools are within bounds, and rates and taxes are shares.
    pub open spec fn wf(&self) -> bool {
        &&& self.map.wf()
        &&& self.population_pool <= MAX_POOL
        &&& self.unemployed_pool <= MAX_POOL
        &&& self.prop_can_work <= PPM
        &&& self.death_rate <= self.birth_rate
        &&& self.birth_rate - self.death_rate <= PPM
        &&& self.residential_tax <= PPM
        &&& self.commercial_tax <= PPM
        &&& self.industrial_tax <= PPM
        &&& self.time_per_day >= 1
    }

    /// A new city on `map`: empty pools, 5% taxes, a birth rate of 0.055% and
    /// a death rate of 0.023% a day, half of the residents able to work.
    pub fn new(map: TileGrid) -> (r: City)
        requires
            map.wf(),
        ensures
            r.wf(),
            r.map == map,
            r.current_time == 0,
            r.time_per_day == TIME_PER_DAY_MS,
            r.population_pool == 0,
            r.unemployed_pool == 0,
            r.prop_can_work == 500_000,
            r.birth_rate == 550,
            r.death_rate == 230,
            r.population == 0,
            r.employable == 0,
            r.residential_tax == 50_000,
            r.commercial_tax == 50_000,
            r.industrial_tax == 50_000,
            r.earnings == 0,
            r.funds == 0,
            r.day == 0,
    {
        City {
            current_time: 0,
            time_per_day: TIME_PER_DAY_MS,
            population_pool: 0,
            unemployed_pool: 0,
            prop_can_work: 500_000,
            birth_rate: 550,
            death_rate: 230,
            map,
            population: 0,
            employable: 0,
            residential_tax: 50_000,
            commercial_tax: 50_000,
            industrial_tax: 50_000,
            earnings: 0,
            funds: 0,
            day: 0,
        }
    }

    /// Residents without a home.
    pub fn get_homeless(&self) -> (r: u64)
        ensures
            r == self.population_pool,
    {
        self.population_pool
    }

    /// Workers without a job.
    pub fn get_unemployed(&self) -> (r: u64)
        ensures
            r == self.unemployed_pool,
    {
        self.unemployed_pool
    }
}

impl City {
    /// Replaces every selected cell's tile by a copy of `new_tile`, first
    /// returning a residential zone's residents to the homeless pool and a
    /// commercial or industrial zone's workers to the unemployed pool (both
    /// clamped to `MAX_POOL`). Raw resources and selection marks stay.
    pub fn bulldoze(&mut self, new_tile: &Tile)
        requires
            old(self).wf(),
            new_tile.wf(old(self).map.num_regions@.len()),
        ensures
            final(self).wf(),
            final(self).population_pool == clamp_pool(
                old(self).population_pool + selected_population(
                    old(self).map.tiles@,
                    old(self).map.tiles@.len() as int,
                    4,
                ),
            ),
            final(self).unemployed_pool == clamp_pool(
                old(self).unemployed_pool + selected_population(
                    old(self).map.tiles@,
                    old(self).map.tiles@.len() as int,
                    5,
                ) + selected_population(old(self).map.tiles@, old(self).map.tiles@.len() as int, 6),
            ),
            final(self).map.width == old(self).map.width,
            final(self).map.height == old(self).map.height,
            final(self).map.num_selected == old(self).map.num_selected,
            final(self).map.num_regions == old(self).map.num_regions,
            final(self).map.tiles@.len() == old(self).map.tiles@.len(),
            forall|i: int|
                0 <= i < old(self).map.tiles@.len() ==> {
                    let c = old(self).map.tiles@[i];
                    let d = #[trigger] final(self).map.tiles@[i];
                    &&& d.1 == c.1
                    &&& d.2 == c.2
                    &&& c.2 == Selection::Selected ==> d.0.tile_type == new_tile.tile_type
                        && d.0.variant == new_tile.variant && d.0.regions@ == new_tile.regions@
                        && d.0.cost == new_tile.cost
                    &&& c.2 != Selection::Selected ==> d.0 == c.0
                },
            final(self).current_time == old(self).current_time,
            final(self).day == old(self).day,
            final(self).funds == old(self).funds,
            final(self).earnings == old(self).earnings,
            final(self).population == old(self).population,
            final(self).employable == old(self).employable,
    {
        let ghost old_tiles = self.map.tiles@;
        let ghost channels = self.map.num_regions@.len();
        let ghost homeless0 = self.population_pool as int;
        let ghost jobless0 = self.unemployed_pool as int;
        let n = self.map.tiles.len();
        let mut i: usize = 0;
        while i < n
            invariant
                i <= n,
                n == old_tiles.len(),
                old_tiles == old(self).map.tiles@,
                old(self).wf(),
                channels == self.map.num_regions@.len(),
                new_tile.wf(channels),
                self.wf(),
                self.map.width == old(self).map.width,
                self.map.height == old(self).map.height,
                self.map.num_selected == old(self).map.num_selected,
                self.map.num_regions == old(self).map.num_regions,
                self.map.tiles@.len() == n,
                homeless0 == old(self).population_pool,
                jobless0 == old(self).unemployed_pool,
                self.population_pool == clamp_pool(homeless0 + selected_population(old_tiles, i as int, 4)),
                self.unemployed_pool == clamp_pool(
                    jobless0 + selected_population(old_tiles, i as int, 5) + selected_population(
                        old_tiles,
                        i as int,
                        6,
                    ),
                ),
                forall|k: int|
                    0 <= k < n ==> {
                        let c = old_tiles[k];
                        let d = #[trigger] self.map.tiles@[k];
                        &&& d.1 == c.1
                        &&& d.2 == c.2
                        &&& (k < i && c.2 == Selection::Selected) ==> d.0.tile_type
                            == new_tile.tile_type && d.0.variant == new_tile.variant
                            && d.0.regions@ == new_tile.regions@ && d.0.cost == new_tile.cost
                        &&& !(k < i && c.2 == Selection::Selected) ==> d.0 == c.0
                    },
                self.current_time == old(self).current_time,
                self.day == old(self).day,
                self.funds == old(self).funds,
                self.earnings == old(self).earnings,
                self.population == old(self).population,
                self.employable == old(self).employable,
                self.prop_can_work == old(self).prop_can_work,
            decreases n - i,
        {
            if self.map.tiles[i].2 == Selection::Selected {
                let t = self.map.tiles[i].0.tile_type;
                proof {
                    assert(old_tiles[i as int].0.wf(channels));
                    lemma_zone_population_bound(t, old_tiles[i as int].0.variant);
                }
                match t {
                    TileType::Residential { population, .. } => {
                        let v = self.population_pool + population;
                        self.population_pool = if v > MAX_POOL {
                            MAX_POOL
                        } else {
                            v
                        };
                    },
                    TileType::Commercial { population, .. } | TileType::Industrial {
                        population,
                        ..
                    } => {
                        let v = self.unemployed_pool + population;
                        self.unemployed_pool = if v > MAX_POOL {
                            MAX_POOL
                        } else {
                            v
                        };
                    },
                    _ => {},
                }
                self.map.tiles[i].0 = new_tile.duplicate();
            }
            proof {
                assert forall|k: int| 0 <= k < n implies (#[trigger] self.map.tiles@[k]).0.wf(
                    channels,
                ) by {
                    assert(old_tiles[k].0.wf(channels));
                }
            }
            i = i + 1;
        }
    }

    /// Recomputes road pictures and relabels the districts: region channel 0
    /// numbers the connected groups of roads and zones.
    pub fn tiles_changed(&mut self)
        requires
            old(self).wf(),
            old(self).map.tiles@.len() < u32::MAX,
        ensures
            final(self).wf(),
            final(self).map.width == old(self).map.width,
            final(self).map.height == old(self).map.height,
            final(self).map.num_selected == old(self).map.num_selected,
            types_of(final(self).map.tiles@) == types_of(old(self).map.tiles@),
            is_region_labelling(
                types_of(old(self).map.tiles@),
                old(self).map.width as int,
                district_kinds(),
                labels_of(final(self).map.tiles@, 0),
            ),
            forall|i: int|
                0 <= i < old(self).map.tiles@.len() ==> {
                    let c = old(self).map.tiles@[i];
                    let d = #[trigger] final(self).map.tiles@[i];
                    &&& d.1 == c.1
                    &&& d.2 == c.2
                    &&& d.0.cost == c.0.cost
                    &&& d.0.variant == direction_of(old(self).map.tiles@, old(self).map.width as int, i, 7)
                },
            final(self).population_pool == old(self).population_pool,
            final(self).unemployed_pool == old(self).unemployed_pool,
            final(self).current_time == old(self).current_time,
            final(self).day == old(self).day,
            final(self).funds == old(self).funds,
            final(self).earnings == old(self).earnings,
            final(self).population == old(self).population,
            final(self).employable == old(self).employable,
    {
        let ghost t0 = self.map.tiles@;
        self.map.update_direction(TileType::Road);
        let ghost t1 = self.map.tiles@;
        proof {
            assert(types_of(t1) =~= types_of(t0));
        }
        let districts = vec![
            TileType::Road,
            TileType::residential(0, 0),
            TileType::commercial(0, 0),
            TileType::industrial(0, 0),
        ];
        proof {
            assert(districts@ =~= district_kinds());
        }
        self.map.find_connected_regions(&districts, 0);
        proof {
            let t2 = self.map.tiles@;
            assert(frame_ok(t1, t2, 0));
            assert(types_of(t2) =~= types_of(t0));
            assert forall|i: int| 0 <= i < t0.len() implies {
                let c = t0[i];
                let d = #[trigger] t2[i];
                &&& d.1 == c.1
                &&& d.2 == c.2
                &&& d.0.cost == c.0.cost
                &&& d.0.variant == direction_of(t0, self.map.width as int, i, 7)
            } by {
                assert(crate::regions::same_but_label(t1[i], t2[i], 0));
            }
        }
    }

    /// Builds the current tool over the selection when the funds cover its
    /// cost (the tool's cost per selected cell): bulldozes the selection to
    /// the tool's tile, pays, and relabels the districts. The selection is
    /// cleared either way. Returns whether it was built.
    pub fn apply_tool(&mut self, tool: &Tile) -> (r: bool)
        requires
            old(self).wf(),
            tool.wf(old(self).map.num_regions@.len()),
            old(self).map.tiles@.len() < u32::MAX,
        ensures
            final(self).wf(),
            r == (old(self).funds >= tool.cost as int * MICROS_PER_DOLLAR as int
                * old(self).map.num_selected as int),
            r ==> final(self).funds == old(self).funds - tool.cost as int * MICROS_PER_DOLLAR as int
                * old(self).map.num_selected as int,
            !r ==> final(self).funds == old(self).funds && final(self).map.tiles@.len()
                == old(self).map.tiles@.len(),
            final(self).map.num_selected == 0,
            final(self).map.tiles@.len() == old(self).map.tiles@.len(),
            forall|i: int|
                0 <= i < final(self).map.tiles@.len() ==> (#[trigger] final(self).map.tiles@[i]).2
                    == Selection::Deselected,
            forall|i: int|
                0 <= i < old(self).map.tiles@.len() ==> (#[trigger] final(self).map.tiles@[i]).0.tile_type
                    == if r && old(self).map.tiles@[i].2 == Selection::Selected {
                    tool.tile_type
                } else {
                    old(self).map.tiles@[i].0.tile_type
                },
            forall|i: int|
                0 <= i < old(self).map.tiles@.len() ==> (#[trigger] final(self).map.tiles@[i]).1
                    == old(self).map.tiles@[i].1,
            !r ==> forall|i: int|
                0 <= i < old(self).map.tiles@.len() ==> (#[trigger] final(self).map.tiles@[i]).0
                    == old(self).map.tiles@[i].0,
            !r ==> final(self).population_pool == old(self).population_pool
                && final(self).unemployed_pool == old(self).unemployed_pool,
            r ==> forall|i: int|
                0 <= i < old(self).map.tiles@.len() && old(self).map.tiles@[i].2 == Selection::Selected
                    ==> (#[trigger] final(self).map.tiles@[i]).0.cost == tool.cost && (
                tool.tile_type.kind() != 7 ==> final(self).map.tiles@[i].0.variant == tool.variant),
            r ==> is_region_labelling(
                types_of(final(self).map.tiles@),
                final(self).map.width as int,
                district_kinds(),
                labels_of(final(self).map.tiles@, 0),
            ),
            r ==> final(self).population_pool == clamp_pool(
                old(self).population_pool + selected_population(
                    old(self).map.tiles@,
                    old(self).map.tiles@.len() as int,
                    4,
                ),
            ),
            r ==> final(self).unemployed_pool == clamp_pool(
                old(self).unemployed_pool + selected_population(
                    old(self).map.tiles@,
                    old(self).map.tiles@.len() as int,
                    5,
                ) + selected_population(old(self).map.tiles@, old(self).map.tiles@.len() as int, 6),
            ),
    {
        let ghost t0 = self.map.tiles@;
        let ghost mut t2 = self.map.tiles@;
        proof {
            assert(tool.cost as int * MICROS_PER_DOLLAR as int * self.map.num_selected as int
                <= u128::MAX) by (nonlinear_arith)
                requires
                    tool.cost <= u32::MAX,
                    self.map.num_selected <= u64::MAX,
            ;
        }
        let total: u128 = tool.cost as u128 * MICROS_PER_DOLLAR as u128 * self.map.num_selected as u128;
        let built = if (self.funds as u128) >= total {
            self.bulldoze(tool);
            let ghost t1 = self.map.tiles@;
            self.funds = self.funds - total as u64;
            self.tiles_changed();
            proof {
                assert forall|i: int| 0 <= i < t0.len() implies self.map.tiles@[i].0.tile_type
                    == t1[i].0.tile_type by {
                    assert(types_of(self.map.tiles@)[i] == types_of(t1)[i]);
                }
                t2 = self.map.tiles@;
            }
            true
        } else {
            false
        };
        self.map.clear_selected();
        proof {
            assert forall|i: int| 0 <= i < self.map.tiles@.len() implies (
            #[trigger] self.map.tiles@[i]).0.wf(self.map.num_regions@.len()) by {}
            if built {
                assert(labels_of(self.map.tiles@, 0) =~= labels_of(t2, 0));
                assert(types_of(self.map.tiles@) =~= types_of(t2));
            }
        }
        built
    }
}

/// `a * b`, or `u128::MAX` when that does not fit.
pub fn saturating_mul_u128(a: u128, b: u128) -> (r: u128)
    ensures
        r == if a * b > u128::MAX {
            u128::MAX as int
        } else {
            a * b
        },
{
    if a == 0 {
        0
    } else if b > u128::MAX / a {
        proof {
            assert(a * b > u128::MAX) by (nonlinear_arith)
                requires
                    a >= 1,
                    b > u128::MAX / a,
            ;
        }
        u128::MAX
    } else {
        proof {
            assert(a * b <= u128::MAX) by (nonlinear_arith)
                requires
                    a >= 1,
                    b <= u128::MAX / a,
            ;
        }
        a * b
    }
}

/// `v` capped at `u128::MAX`.
pub open spec fn sat_u128(v: int) -> int {
    if v > u128::MAX {
        u128::MAX as int
    } else {
        v
    }
}

/// `v` capped at `u64::MAX`.
pub open spec fn sat_u64(v: int) -> int {
    if v > u64::MAX {
        u64::MAX as int
    } else {
        v
    }
}

/// Revenue, in millionths of a dollar, that one unit of goods brings its
/// industry: 100 dollars less industrial tax.
pub fn unit_goods_revenue(industrial_tax: u64) -> (r: u64)
    requires
        industrial_tax <= PPM,
    ensures
        r == 100 * (PPM - industrial_tax),
{
    100 * (PPM - industrial_tax)
}

/// A store's revenue for a day, in millionths of a dollar: its batch of
/// `received` units at 100 dollars each plus `noise` (millionths of a
/// dollar), less commercial tax, times its customers and its workers (both
/// in population units) over 100 residents squared; saturating.
pub open spec fn store_revenue(received: int, noise: int, commercial_tax: int, customers: int, workers: int) -> int {
    let batch = (received * 100 * MICROS_PER_DOLLAR + noise) * (PPM - commercial_tax) / PPM as int;
    sat_u128(sat_u128(sat_u128(batch) * customers) * workers) / STORE_SCALE as int
}

/// `store_revenue` computed.
pub fn batch_revenue(received: u64, noise: u64, commercial_tax: u64, customers: u64, workers: u64) -> (r: u128)
    requires
        commercial_tax <= PPM,
    ensures
        r == store_revenue(
            received as int,
            noise as int,
            commercial_tax as int,
            customers as int,
            workers as int,
        ),
{
    proof {
        assert(received as int * 100 * MICROS_PER_DOLLAR <= u64::MAX as int * 100 * MICROS_PER_DOLLAR)
            by (nonlinear_arith)
            requires
                received <= u64::MAX,
        ;
    }
    let value: u128 = received as u128 * 100 * MICROS_PER_DOLLAR as u128 + noise as u128;
    proof {
        let v = value as int;
        assert(v * (PPM - commercial_tax) / PPM as int <= v) by (nonlinear_arith)
            requires
                v >= 0,
                commercial_tax <= PPM,
        ;
        assert(v * (PPM - commercial_tax) <= v * PPM) by (nonlinear_arith)
            requires
                v >= 0,
                commercial_tax <= PPM,
        ;
        assert(v * PPM <= u128::MAX) by (nonlinear_arith)
            requires
                v <= u64::MAX * 100 * MICROS_PER_DOLLAR + u64::MAX,
        ;
    }
    let batch: u128 = value * (PPM - commercial_tax) as u128 / PPM as u128;
    let a = saturating_mul_u128(batch, customers as u128);
    let b = saturating_mul_u128(a, workers as u128);
    b / STORE_SCALE
}

/// People arriving in the city in a day, and the chance (in parts per
/// million) that they come: with `excess` the product of free homes beyond
/// the homeless and free jobs beyond the unemployed (population units each)
/// times the share left by residential tax, the arrivals are one resident
/// plus 0.01% of `excess` residents squared, and the chance 0.001% of it.
pub open spec fn immigration(
    empty_homes: int,
    homeless: int,
    free_jobs: int,
    unemployed: int,
    residential_tax: int,
) -> (int, int) {
    let homes = if empty_homes > homeless {
        empty_homes - homeless
    } else {
        0
    };
    let jobs = if free_jobs > unemployed {
        free_jobs - unemployed
    } else {
        0
    };
    let excess = sat_u128(sat_u128(homes * jobs) * (PPM - residential_tax));
    (
        sat_u64(UNITS_PER_RESIDENT + excess / ARRIVAL_SCALE as int),
        sat_u64(excess / ODDS_SCALE as int),
    )
}

/// `immigration` computed.
pub fn migration_in(
    empty_homes: u64,
    homeless: u64,
    free_jobs: u64,
    unemployed: u64,
    residential_tax: u64,
) -> (r: (u64, u64))
    requires
        residential_tax <= PPM,
    ensures
        r.0 == immigration(
            empty_homes as int,
            homeless as int,
            free_jobs as int,
            unemployed as int,
            residential_tax as int,
        ).0,
        r.1 == immigration(
            empty_homes as int,
            homeless as int,
            free_jobs as int,
            unemployed as int,
            residential_tax as int,
        ).1,
{
    let homes = if empty_homes > homeless {
        empty_homes - homeless
    } else {
        0
    };
    let jobs = if free_jobs > unemployed {
        free_jobs - unemployed
    } else {
        0
    };
    let excess = saturating_mul_u128(
        saturating_mul_u128(homes as u128, jobs as u128),
        (PPM - residential_tax) as u128,
    );
    let share = excess / ARRIVAL_SCALE;
    proof {
        assert(share <= u128::MAX as int / 10_000_000_000_000) by (nonlinear_arith)
            requires
                share == excess as int / 10_000_000_000_000,
                excess <= u128::MAX,
        ;
    }
    let arrivals = UNITS_PER_RESIDENT as u128 + share;
    let odds = excess / ODDS_SCALE;
    (
        if arrivals > u64::MAX as u128 {
            u64::MAX
        } else {
            arrivals as u64
        },
        if odds > u64::MAX as u128 {
            u64::MAX
        } else {
            odds as u64
        },
    )
}

/// Residents who leave in a day when they do: 5% of the homeless and
/// unemployed together, plus one resident.
pub open spec fn emigration(homeless: int, unemployed: int) -> int {
    (homeless + unemployed) / 20 + UNITS_PER_RESIDENT
}

/// Newly counted workers: the share that can work of the change in
/// population.
pub open spec fn worker_change(pop_total: int, population: int, prop_can_work: int) -> int {
    let d = if pop_total >= population {
        pop_total - population
    } else {
        population - pop_total
    };
    d * prop_can_work / PPM as int
}

/// A day's earnings in millionths of a dollar: residential tax of 15
/// dollars per housed resident, plus commercial and industrial tax on the
/// day's revenues; saturating.
pub open spec fn day_earnings(
    housed: int,
    residential_tax: int,
    commercial_revenue: int,
    commercial_tax: int,
    industrial_revenue: int,
    industrial_tax: int,
) -> int {
    sat_u64(
        sat_u64(housed * 15 * residential_tax / UNITS_PER_RESIDENT as int) + sat_u64(
            sat_u128(commercial_revenue * commercial_tax) / PPM as int,
        ) + sat_u64(sat_u128(industrial_revenue * industrial_tax) / PPM as int),
    )
}

/// `day_earnings` computed.
pub fn earnings_of_day(
    housed: u64,
    residential_tax: u64,
    commercial_revenue: u128,
    commercial_tax: u64,
    industrial_revenue: u128,
    industrial_tax: u64,
) -> (r: u64)
    requires
        residential_tax <= PPM,
        commercial_tax <= PPM,
        industrial_tax <= PPM,
    ensures
        r == day_earnings(
            housed as int,
            residential_tax as int,
            commercial_revenue as int,
            commercial_tax as int,
            industrial_revenue as int,
            industrial_tax as int,
        ),
{
    proof {
        assert(housed as int * 15 * residential_tax <= u128::MAX) by (nonlinear_arith)
            requires
                housed <= u64::MAX,
                residential_tax <= PPM,
        ;
    }
    let a: u128 = housed as u128 * 15 * residential_tax as u128 / UNITS_PER_RESIDENT as u128;
    let b: u128 = saturating_mul_u128(commercial_revenue, commercial_tax as u128) / PPM as u128;
    let c: u128 = saturating_mul_u128(industrial_revenue, industrial_tax as u128) / PPM as u128;
    let a64 = if a > u64::MAX as u128 {
        u64::MAX
    } else {
        a as u64
    };
    let b64 = if b > u64::MAX as u128 {
        u64::MAX
    } else {
        b as u64
    };
    let c64 = if c > u64::MAX as u128 {
        u64::MAX
    } else {
        c as u64
    };
    a64.saturating_add(b64).saturating_add(c64)
}

/// Totals gathered over a day's passes.
#[derive(Clone, Copy, Debug)]
pub struct DayReport {
    /// Free room in homes, in population units.
    pub empty_homes: u64,
    /// Free jobs, in population units.
    pub free_jobs: u64,
    pub stores: u64,
    pub industries: u64,
    /// Residents counted, homeless included, in population units.
    pub pop_total: u64,
    /// Revenues of the day, in millionths of a dollar.
    pub commercial_revenue: u128,
    pub industrial_revenue: u128,
}

impl DayReport {
    /// All tallies at zero.
    pub fn new() -> (r: DayReport)
        ensures
            r.empty_homes == 0 && r.free_jobs == 0 && r.stores == 0 && r.industries == 0
                && r.pop_total == 0 && r.commercial_revenue == 0 && r.industrial_revenue == 0,
    {
        DayReport {
            empty_homes: 0,
            free_jobs: 0,
            stores: 0,
            industries: 0,
            pop_total: 0,
            commercial_revenue: 0,
            industrial_revenue: 0,
        }
    }
}

/// Cell `b` is cell `a` after some of a day's work: same kind, zone
/// configuration, regions, cost and selection, no more raw resources and
/// no lower level.
pub open spec fn same_layout(a: (Tile, u8, Selection), b: (Tile, u8, Selection)) -> bool {
    &&& b.0.tile_type.kind() == a.0.tile_type.kind()
    &&& b.0.tile_type.per_level() == a.0.tile_type.per_level()
    &&& b.0.tile_type.top_level() == a.0.tile_type.top_level()
    &&& b.0.regions@ == a.0.regions@
    &&& b.0.cost == a.0.cost
    &&& b.2 == a.2
    &&& b.1 <= a.1
    &&& a.0.variant <= b.0.variant
}

/// Grid `g1` is grid `g0` after some of a day's work.
pub open spec fn layout_kept(g0: TileGrid, g1: TileGrid) -> bool {
    &&& g1.width == g0.width
    &&& g1.height == g0.height
    &&& g1.num_regions == g0.num_regions
    &&& g1.num_selected == g0.num_selected
    &&& g1.tiles@.len() == g0.tiles@.len()
    &&& forall|i: int| 0 <= i < g0.tiles@.len() ==> same_layout(g0.tiles@[i], #[trigger] g1.tiles@[i])
}

/// Everything but the grid, the pools and the clock stays.
pub open spec fn settings_kept(a: &City, b: &City) -> bool {
    &&& b.time_per_day == a.time_per_day
    &&& b.prop_can_work == a.prop_can_work
    &&& b.birth_rate == a.birth_rate
    &&& b.death_rate == a.death_rate
    &&& b.residential_tax == a.residential_tax
    &&& b.commercial_tax == a.commercial_tax
    &&& b.industrial_tax == a.industrial_tax
}

/// Only the tallies and pools may differ.
pub open spec fn books_kept(a: &City, b: &City) -> bool {
    &&& settings_kept(a, b)
    &&& b.current_time == a.current_time
    &&& b.population == a.population
    &&& b.employable == a.employable
    &&& b.earnings == a.earnings
    &&& b.funds == a.funds
    &&& b.day == a.day
}

proof fn lemma_layout_trans(g0: TileGrid, g1: TileGrid, g2: TileGrid)
    requires
        layout_kept(g0, g1),
        layout_kept(g1, g2),
    ensures
        layout_kept(g0, g2),
{
    assert forall|i: int| 0 <= i < g0.tiles@.len() implies same_layout(
        g0.tiles@[i],
        #[trigger] g2.tiles@[i],
    ) by {
        assert(same_layout(g0.tiles@[i], g1.tiles@[i]));
        assert(same_layout(g1.tiles@[i], g2.tiles@[i]));
    }
}

proof fn lemma_layout_refl(g: TileGrid)
    ensures
        layout_kept(g, g),
{
}

/// After changing only cell `i` of a consistent grid into a consistent
/// tile of the same layout, the grid is still consistent and keeps its
/// layout.
proof fn lemma_one_cell_changed(g0: TileGrid, g1: TileGrid, i: int)
    requires
        g0.wf(),
        0 <= i < g0.tiles@.len(),
        g1.width == g0.width,
        g1.height == g0.height,
        g1.num_regions == g0.num_regions,
        g1.num_selected == g0.num_selected,
        g1.tiles@ == g0.tiles@.update(i, g1.tiles@[i]),
        g1.tiles@[i].0.wf(g0.num_regions@.len()),
        same_layout(g0.tiles@[i], g1.tiles@[i]),
    ensures
        g1.wf(),
        layout_kept(g0, g1),
{
    assert forall|k: int| 0 <= k < g1.tiles@.len() implies (#[trigger] g1.tiles@[k]).0.wf(
        g1.num_regions@.len(),
    ) by {
        if k != i {
            assert(g1.tiles@[k] == g0.tiles@[k]);
        }
    }
    assert forall|k: int| 0 <= k < g0.tiles@.len() implies same_layout(
        g0.tiles@[k],
        #[trigger] g1.tiles@[k],
    ) by {
        if k != i {
            assert(g1.tiles@[k] == g0.tiles@[k]);
        }
    }
}

/// Cell `i`'s growth step took city `a` with tallies `ra` to `b` with `rb`
/// (see `City::grow_cell`).
pub open spec fn grows(a: City, ra: DayReport, i: int, b: City, rb: DayReport) -> bool {
    &&& b.wf()
    &&& layout_kept(a.map, b.map)
    &&& books_kept(&a, &b)
    &&& forall|k: int|
        0 <= k < a.map.tiles@.len() && k != i ==> #[trigger] b.map.tiles@[k]
            == a.map.tiles@[k]
    &&& b.map.tiles@[i].0.variant == a.map.tiles@[i].0.variant
        || b.map.tiles@[i].0.variant == a.map.tiles@[i].0.variant
        + 1
    &&& rb.commercial_revenue == ra.commercial_revenue
    &&& rb.industrial_revenue == ra.industrial_revenue
    &&& b.map.tiles@[i].0.variant == a.map.tiles@[i].0.variant + 1 ==> {
        let t = a.map.tiles@[i].0.tile_type;
        &&& t.is_zoned()
        &&& a.map.tiles@[i].0.variant < t.top_level()
        &&& b.map.tiles@[i].0.tile_type.population() == capacity_units(
            t.per_level(),
            a.map.tiles@[i].0.variant,
        )
    }
    &&& ({
        let c = a.map.tiles@[i];
        let t = c.0.tile_type;
        let cap = capacity_units(t.per_level(), c.0.variant);
        let f = b.map.tiles@[i].0.tile_type;
        let d = distribution(
            a.population_pool as int,
            t.population() as int,
            cap,
            a.birth_rate - a.death_rate,
        );
        t.kind() == 4 ==> {
            &&& b.population_pool == clamp_pool(d.0)
            &&& b.unemployed_pool == a.unemployed_pool
            &&& f == t.with_population(d.1 as u64)
            &&& b.map.tiles@[i].1 == c.1
            &&& rb.empty_homes == sat_u64(ra.empty_homes + cap - d.1)
            &&& rb.pop_total == sat_u64(ra.pop_total + d.1)
            &&& rb.free_jobs == ra.free_jobs
            &&& rb.stores == ra.stores
            &&& rb.industries == ra.industries
        }
    })
    &&& ({
        let c = a.map.tiles@[i];
        let t = c.0.tile_type;
        let cap = capacity_units(t.per_level(), c.0.variant);
        let f = b.map.tiles@[i].0.tile_type;
        let d = distribution(a.unemployed_pool as int, t.population() as int, cap, 0);
        (t.kind() == 5 || t.kind() == 6) ==> {
            &&& b.population_pool == a.population_pool
            &&& (b.unemployed_pool == a.unemployed_pool && f.population()
                == t.population()) || (b.unemployed_pool == clamp_pool(d.0)
                && f.population() == d.1)
            &&& f == t.with_population(f.population()).with_goods(
                f.production(),
                t.stored_goods(),
            )
            &&& rb.free_jobs == sat_u64(ra.free_jobs + cap - f.population())
            &&& rb.empty_homes == ra.empty_homes
            &&& rb.pop_total == ra.pop_total
            &&& t.kind() == 5 ==> rb.stores == sat_u64(ra.stores + 1)
                && rb.industries == ra.industries
                && b.map.tiles@[i].1 == c.1
            &&& t.kind() == 6 ==> rb.industries == sat_u64(ra.industries + 1)
                && rb.stores == ra.stores && ((f.production() == t.production()
                && b.map.tiles@[i].1 == c.1) || (f.production()
                == t.production() + 1 && c.1 > 0 && t.population() > 0
                && b.map.tiles@[i].1 == c.1 - 1))
        }
    })
    &&& !a.map.tiles@[i].0.tile_type.is_zoned() ==> b.map == a.map && b.population_pool
        == a.population_pool && b.unemployed_pool == a.unemployed_pool && rb == ra
}

/// Cell `i`'s manufacture step took city `a` to `b` (see
/// `City::manufacture_cell`).
pub open spec fn manufactures(a: City, i: int, b: City) -> bool {
    &&& b.wf()
    &&& layout_kept(a.map, b.map)
    &&& books_kept(&a, &b)
    &&& b.population_pool == a.population_pool
    &&& b.unemployed_pool == a.unemployed_pool
    &&& a.map.tiles@[i].0.tile_type.kind() == 6 ==> b.map.tiles@
        == manufactured(a.map.tiles@, i)
    &&& a.map.tiles@[i].0.tile_type.kind() != 6 ==> b.map
        == a.map
}

/// Cell `i`'s goods step took city `a` with tallies `ra` to `b` with `rb`
/// (see `City::trade_cell`).
pub open spec fn trades(a: City, ra: DayReport, i: int, b: City, rb: DayReport) -> bool {
    &&& b.wf()
    &&& layout_kept(a.map, b.map)
    &&& books_kept(&a, &b)
    &&& b.population_pool == a.population_pool
    &&& b.unemployed_pool == a.unemployed_pool
    &&& a.map.tiles@[i].0.tile_type.kind() != 5 ==> b.map
        == a.map && rb == ra
    &&& a.map.tiles@[i].0.tile_type.kind() == 5 ==> {
        let t0 = a.map.tiles@;
        let region = t0[i].0.regions@[0];
        let demand = t0[i].0.variant + 1;
        let n = t0.len() as int;
        let received = min_of(demand, goods_before(t0, region, n));
        &&& b.map.tiles@ == Seq::new(
            t0.len(),
            |k: int| after_drain(t0, region, demand, k),
        )
        &&& rb.industrial_revenue == sat_u128(
            ra.industrial_revenue + received * 100 * (PPM - a.industrial_tax),
        )
        &&& exists|noise: int|
            0 <= noise < 20 * MICROS_PER_DOLLAR && rb.commercial_revenue == sat_u128(
                ra.commercial_revenue + store_revenue(
                    received,
                    noise,
                    a.commercial_tax as int,
                    customers_before(t0, region, n),
                    t0[i].0.tile_type.population() as int,
                ),
            )
        &&& rb.empty_homes == ra.empty_homes
        &&& rb.free_jobs == ra.free_jobs
        &&& rb.stores == ra.stores
        &&& rb.industries == ra.industries
        &&& rb.pop_total == ra.pop_total
    }
}

/// The end-of-day step took city `a` with the day's tallies `acc` to `b`
/// (see `City::settle_day`).
pub open spec fn settles(a: City, acc: DayReport, b: City) -> bool {
    &&& b.wf()
    &&& ({
        let grown = clamp_pool(
            a.population_pool + a.population_pool * (a.birth_rate
                - a.death_rate) / PPM as int,
        );
        let arrivals = immigration(
            acc.empty_homes as int,
            grown,
            acc.free_jobs as int,
            a.unemployed_pool as int,
            a.residential_tax as int,
        ).0;
        exists|after_arrivals: int|
            (after_arrivals == grown || (acc.stores > 0 && acc.industries > 0 && after_arrivals
                == clamp_pool(grown + arrivals))) && (b.population_pool
                == after_arrivals || ((after_arrivals > acc.empty_homes
                || a.unemployed_pool > acc.free_jobs) && b.population_pool
                == if after_arrivals >= emigration(after_arrivals, a.unemployed_pool as int) {
                after_arrivals - emigration(after_arrivals, a.unemployed_pool as int)
            } else {
                0
            }))
    })
    &&& b.map == a.map
    &&& settings_kept(&a, &b)
    &&& b.current_time == a.current_time
    &&& b.funds == a.funds
    &&& b.day == a.day
    &&& b.population == sat_u64(acc.pop_total + b.population_pool)
    &&& b.unemployed_pool == clamp_pool(
        a.unemployed_pool + worker_change(
            b.population as int,
            a.population as int,
            a.prop_can_work as int,
        )
    )
    &&& b.employable == sat_u64(
        a.employable + worker_change(
            b.population as int,
            a.population as int,
            a.prop_can_work as int,
        )
    )
    &&& b.earnings == sat_u64(
        a.earnings + day_earnings(
            if b.population >= b.population_pool {
                b.population - b.population_pool
            } else {
                0
            },
            a.residential_tax as int,
            acc.commercial_revenue as int,
            a.commercial_tax as int,
            acc.industrial_revenue as int,
            a.industrial_tax as int,
        )
    )
}

impl City {
    /// The distribution and growth step for cell `i`: a home takes in
    /// homeless residents and grows (`distribution` at the net birth rate);
    /// a store or industry, with a chance of 15% less its tax, takes in
    /// unemployed workers (`distribution` without growth); an industry with
    /// raw resources left, with a chance of 1% per worker, turns one of them
    /// into a unit of production; free homes, free jobs, stores, industries
    /// and residents are tallied; then a zone may level up. Other cells are
    /// left alone.
    pub fn grow_cell<R: RandomSource>(&mut self, i: usize, rng: &mut R, acc: &mut DayReport)
        requires
            old(self).wf(),
            i < old(self).map.tiles@.len(),
        ensures
            grows(*old(self), *old(acc), i as int, *final(self), *final(acc)),
    {
        let ghost g0 = self.map;
        let ghost channels = self.map.num_regions@.len();
        let t = self.map.tiles[i].0.tile_type;
        let res = self.map.tiles[i].1;
        proof {
            assert(g0.tiles@[i as int].0.wf(channels));
            lemma_zone_population_bound(t, g0.tiles@[i as int].0.variant);
        }
        match t {
            TileType::Residential { population, max_pop_per_level, max_levels } => {
                let cap = self.map.tiles[i].0.get_capacity();
                let (pool, np) = distribute_pool(
                    self.population_pool,
                    population,
                    cap,
                    self.birth_rate - self.death_rate,
                );
                self.population_pool = pool;
                self.map.tiles[i].0.tile_type = TileType::Residential {
                    population: np,
                    max_pop_per_level,
                    max_levels,
                };
                acc.empty_homes = acc.empty_homes.saturating_add(cap - np);
                acc.pop_total = acc.pop_total.saturating_add(np);
            },
            TileType::Commercial { population, max_pop_per_level, max_levels } => {
                let cap = self.map.tiles[i].0.get_capacity();
                let mut np = population;
                if chance(rng, (PPM - self.commercial_tax) * 15 / 100) {
                    let (pool, pop2) = distribute_pool(self.unemployed_pool, population, cap, 0);
                    self.unemployed_pool = pool;
                    np = pop2;
                }
                self.map.tiles[i].0.tile_type = TileType::Commercial {
                    population: np,
                    max_pop_per_level,
                    max_levels,
                };
                acc.stores = acc.stores.saturating_add(1);
                acc.free_jobs = acc.free_jobs.saturating_add(if cap > np {
                    cap - np
                } else {
                    0
                });
            },
            TileType::Industrial {
                population,
                max_pop_per_level,
                production,
                stored_goods,
                max_levels,
            } => {
                let cap = self.map.tiles[i].0.get_capacity();
                let mut prod = production;
                let mut left = res;
                if left > 0 && prod < u32::MAX && chance(rng, population * 10) {
                    prod = prod + 1;
                    left = left - 1;
                }
                let mut np = population;
                if chance(rng, (PPM - self.industrial_tax) * 15 / 100) {
                    let (pool, pop2) = distribute_pool(self.unemployed_pool, population, cap, 0);
                    self.unemployed_pool = pool;
                    np = pop2;
                }
                self.map.tiles[i].0.tile_type = TileType::Industrial {
                    population: np,
                    max_pop_per_level,
                    production: prod,
                    stored_goods,
                    max_levels,
                };
                self.map.tiles[i].1 = left;
                acc.industries = acc.industries.saturating_add(1);
                acc.free_jobs = acc.free_jobs.saturating_add(if cap > np {
                    cap - np
                } else {
                    0
                });
            },
            _ => {},
        }
        proof {
            assert(self.map.tiles@ =~= g0.tiles@.update(i as int, self.map.tiles@[i as int]));
            lemma_one_cell_changed(g0, self.map, i as int);
        }
        let ghost g1 = self.map;
        if t.is_zoned_exec() {
            self.map.tiles[i].0.update(rng);
            proof {
                assert(self.map.tiles@ =~= g1.tiles@.update(i as int, self.map.tiles@[i as int]));
                lemma_one_cell_changed(g1, self.map, i as int);
                lemma_layout_trans(g0, g1, self.map);
            }
        } else {
            proof {
                assert(self.map.tiles@ =~= g0.tiles@);
            }
        }
    }
}

/// Cell `c` with kind state `tt`.
pub open spec fn with_type(c: (Tile, u8, Selection), tt: TileType) -> (Tile, u8, Selection) {
    (Tile { tile_type: tt, variant: c.0.variant, regions: c.0.regions, cost: c.0.cost }, c.1, c.2)
}

/// `v` capped at `u32::MAX`.
pub open spec fn sat_u32(v: int) -> int {
    if v > u32::MAX {
        u32::MAX as int
    } else {
        v
    }
}

/// Cell `j` is an industry of district `region` with production to give.
pub open spec fn is_donor(tiles: Seq<(Tile, u8, Selection)>, region: u32, j: int) -> bool {
    &&& tiles[j].0.regions@[0] == region
    &&& tiles[j].0.tile_type.kind() == 6
    &&& tiles[j].0.tile_type.production() > 0
}

/// Number of donors among the first `j` cells.
pub open spec fn donors_before(tiles: Seq<(Tile, u8, Selection)>, region: u32, j: int) -> int
    decreases j,
{
    if j <= 0 {
        0
    } else {
        donors_before(tiles, region, j - 1) + if is_donor(tiles, region, j - 1) {
            1int
        } else {
            0int
        }
    }
}

/// Cell `j` is among the first `demand` donors, and gives one unit.
pub open spec fn gives(tiles: Seq<(Tile, u8, Selection)>, region: u32, demand: int, j: int) -> bool {
    is_donor(tiles, region, j) && donors_before(tiles, region, j) < demand
}

/// Cell `j` after the donors have given.
pub open spec fn after_pulls(tiles: Seq<(Tile, u8, Selection)>, region: u32, demand: int, j: int) -> (
    Tile,
    u8,
    Selection,
) {
    let t = tiles[j].0.tile_type;
    if gives(tiles, region, demand, j) {
        with_type(tiles[j], t.with_goods((t.production() - 1) as u32, t.stored_goods()))
    } else {
        tiles[j]
    }
}

/// The cells after the manufacture step of industry `i`: the first
/// `level + 1` donors of its district, in raster order, give one unit of
/// production each; then `i` stores `(received + own production) *
/// (level + 1)` more goods, capped at `u32::MAX`.
pub open spec fn manufactured(tiles: Seq<(Tile, u8, Selection)>, i: int) -> Seq<(Tile, u8, Selection)> {
    let region = tiles[i].0.regions@[0];
    let demand = tiles[i].0.variant + 1;
    let n = tiles.len() as int;
    let pulled = Seq::new(tiles.len(), |k: int| after_pulls(tiles, region, demand, k));
    let received = min_of(demand, donors_before(tiles, region, n));
    let own = pulled[i].0.tile_type;
    pulled.update(
        i,
        with_type(
            pulled[i],
            own.with_goods(
                own.production(),
                sat_u32(own.stored_goods() + (received + own.production()) * demand) as u32,
            ),
        ),
    )
}

proof fn lemma_donors_monotone(tiles: Seq<(Tile, u8, Selection)>, region: u32, j: int, k: int)
    requires
        0 <= j <= k,
    ensures
        donors_before(tiles, region, j) <= donors_before(tiles, region, k),
        donors_before(tiles, region, j) >= 0,
    decreases k - j,
{
    if j < k {
        lemma_donors_monotone(tiles, region, j, k - 1);
    } else {
        lemma_donors_nonneg(tiles, region, j);
    }
}

proof fn lemma_donors_nonneg(tiles: Seq<(Tile, u8, Selection)>, region: u32, j: int)
    ensures
        donors_before(tiles, region, j) >= 0,
    decreases j,
{
    if j > 0 {
        lemma_donors_nonneg(tiles, region, j - 1);
    }
}

/// Cell `j` is an industry of district `region`.
pub open spec fn is_supplier(tiles: Seq<(Tile, u8, Selection)>, region: u32, j: int) -> bool {
    tiles[j].0.regions@[0] == region && tiles[j].0.tile_type.kind() == 6
}

/// Goods stored by the suppliers among the first `j` cells.
pub open spec fn goods_before(tiles: Seq<(Tile, u8, Selection)>, region: u32, j: int) -> int
    decreases j,
{
    if j <= 0 {
        0
    } else {
        goods_before(tiles, region, j - 1) + if is_supplier(tiles, region, j - 1) {
            tiles[j - 1].0.tile_type.stored_goods() as int
        } else {
            0int
        }
    }
}

/// Units that cell `j` hands over to a store wanting `demand`: what it
/// stores, up to what the earlier suppliers left unmet.
pub open spec fn drained(tiles: Seq<(Tile, u8, Selection)>, region: u32, demand: int, j: int) -> int {
    if is_supplier(tiles, region, j) {
        min_of(
            tiles[j].0.tile_type.stored_goods() as int,
            demand - min_of(demand, goods_before(tiles, region, j)),
        )
    } else {
        0
    }
}

/// Cell `j` after a store wanting `demand` has drained the district.
pub open spec fn after_drain(tiles: Seq<(Tile, u8, Selection)>, region: u32, demand: int, j: int) -> (
    Tile,
    u8,
    Selection,
) {
    let t = tiles[j].0.tile_type;
    if drained(tiles, region, demand, j) > 0 {
        with_type(
            tiles[j],
            t.with_goods(t.production(), (t.stored_goods() - drained(tiles, region, demand, j)) as u32),
        )
    } else {
        tiles[j]
    }
}

/// Residents of the district's homes among the first `j` cells (saturating).
pub open spec fn customers_before(tiles: Seq<(Tile, u8, Selection)>, region: u32, j: int) -> int
    decreases j,
{
    if j <= 0 {
        0
    } else {
        sat_u64(
            customers_before(tiles, region, j - 1) + if tiles[j - 1].0.regions@[0] == region
                && tiles[j - 1].0.tile_type.kind() == 4 {
                tiles[j - 1].0.tile_type.population() as int
            } else {
                0int
            },
        )
    }
}

proof fn lemma_goods_monotone(tiles: Seq<(Tile, u8, Selection)>, region: u32, j: int, k: int)
    requires
        0 <= j <= k,
    ensures
        goods_before(tiles, region, j) <= goods_before(tiles, region, k),
        goods_before(tiles, region, j) >= 0,
    decreases k - j,
{
    if j < k {
        lemma_goods_monotone(tiles, region, j, k - 1);
    } else {
        lemma_goods_nonneg(tiles, region, j);
    }
}

proof fn lemma_goods_nonneg(tiles: Seq<(Tile, u8, Selection)>, region: u32, j: int)
    ensures
        goods_before(tiles, region, j) >= 0,
    decreases j,
{
    if j > 0 {
        lemma_goods_nonneg(tiles, region, j - 1);
    }
}

impl City {
    /// Gives cell `j` the kind state `tt`, of the same kind and configuration
    /// and within the cell's capacity.
    fn set_tile_type(&mut self, j: usize, tt: TileType)
        requires
            old(self).wf(),
            j < old(self).map.tiles@.len(),
            tt.kind() == old(self).map.tiles@[j as int].0.tile_type.kind(),
            tt.per_level() == old(self).map.tiles@[j as int].0.tile_type.per_level(),
            tt.top_level() == old(self).map.tiles@[j as int].0.tile_type.top_level(),
            tt.zone_ok(old(self).map.tiles@[j as int].0.variant),
        ensures
            final(self).wf(),
            layout_kept(old(self).map, final(self).map),
            books_kept(old(self), final(self)),
            final(self).population_pool == old(self).population_pool,
            final(self).unemployed_pool == old(self).unemployed_pool,
            final(self).map.tiles@ == old(self).map.tiles@.update(
                j as int,
                with_type(old(self).map.tiles@[j as int], tt),
            ),
    {
        let ghost g0 = self.map;
        self.map.tiles[j].0.tile_type = tt;
        proof {
            assert(self.map.tiles@[j as int] == with_type(g0.tiles@[j as int], tt));
            assert(g0.tiles@[j as int].0.wf(g0.num_regions@.len()));
            assert(self.map.tiles@ =~= g0.tiles@.update(j as int, self.map.tiles@[j as int]));
            lemma_one_cell_changed(g0, self.map, j as int);
        }
    }

    /// The manufacture step for cell `i`: an industry takes one unit of
    /// production from each of the first `level + 1` industries of its
    /// district with production left (itself included), in raster order,
    /// and stores `(units taken + its own production) * (level + 1)` more
    /// goods (see `manufactured`). Other cells are left alone.
    pub fn manufacture_cell(&mut self, i: usize)
        requires
            old(self).wf(),
            i < old(self).map.tiles@.len(),
        ensures
            manufactures(*old(self), i as int, *final(self)),
    {
        let ghost g0 = self.map;
        let ghost t0 = self.map.tiles@;
        proof {
            lemma_layout_refl(g0);
            assert(g0.tiles@[i as int].0.wf(g0.num_regions@.len()));
        }
        if self.map.tiles[i].0.tile_type.kind_code() != 6 {
            return;
        }
        let region = self.map.tiles[i].0.regions[0];
        let demand: u64 = self.map.tiles[i].0.variant as u64 + 1;
        let n = self.map.tiles.len();
        let mut received: u64 = 0;
        let mut j: usize = 0;
        while j < n && received < demand
            invariant
                j <= n,
                n == t0.len(),
                n == self.map.tiles@.len(),
                i < n,
                t0 == g0.tiles@,
                region == t0[i as int].0.regions@[0],
                demand == t0[i as int].0.variant + 1,
                received == min_of(demand as int, donors_before(t0, region, j as int)),
                self.wf(),
                layout_kept(g0, self.map),
                books_kept(old(self), self),
                self.population_pool == old(self).population_pool,
                self.unemployed_pool == old(self).unemployed_pool,
                g0 == old(self).map,
                forall|k: int|
                    0 <= k < n ==> #[trigger] self.map.tiles@[k] == if k < j {
                        after_pulls(t0, region, demand as int, k)
                    } else {
                        t0[k]
                    },
            decreases n - j,
        {
            proof {
                assert(self.map.tiles@[j as int].0.wf(self.map.num_regions@.len()));
                lemma_donors_nonneg(t0, region, j as int);
            }
            let ghost before = self.map.tiles@;
            if self.map.tiles[j].0.regions[0] == region {
                match self.map.tiles[j].0.tile_type {
                    TileType::Industrial {
                        population,
                        max_pop_per_level,
                        production,
                        stored_goods,
                        max_levels,
                    } => {
                        if production > 0 {
                            let ghost g1 = self.map;
                            self.set_tile_type(
                                j,
                                TileType::Industrial {
                                    population,
                                    max_pop_per_level,
                                    production: production - 1,
                                    stored_goods,
                                    max_levels,
                                },
                            );
                            proof {
                                lemma_layout_trans(g0, g1, self.map);
                            }
                            received = received + 1;
                        }
                    },
                    _ => {},
                }
            }
            proof {
                assert(gives(t0, region, demand as int, j as int) == (is_donor(t0, region, j as int)
                    && received <= demand));
                assert forall|k: int| 0 <= k < n implies #[trigger] self.map.tiles@[k] == if k < j
                    + 1 {
                    after_pulls(t0, region, demand as int, k)
                } else {
                    t0[k]
                } by {
                    if k != j {
                        assert(self.map.tiles@[k] == before[k]);
                    }
                }
            }
            j = j + 1;
        }
        proof {
            lemma_donors_monotone(t0, region, j as int, n as int);
            assert forall|k: int| 0 <= k < n implies #[trigger] self.map.tiles@[k] == after_pulls(
                t0,
                region,
                demand as int,
                k,
            ) by {
                if k >= j {
                    lemma_donors_monotone(t0, region, j as int, k);
                }
            }
            assert(self.map.tiles@ =~= Seq::new(
                t0.len(),
                |k: int| after_pulls(t0, region, demand as int, k),
            ));
            assert(received == min_of(demand as int, donors_before(t0, region, n as int)));
            assert(self.map.tiles@[i as int].0.wf(self.map.num_regions@.len()));
            assert(same_layout(g0.tiles@[i as int], self.map.tiles@[i as int]));
        }
        match self.map.tiles[i].0.tile_type {
            TileType::Industrial { population, max_pop_per_level, production, stored_goods, max_levels } => {
                proof {
                    assert((received as int + production as int) * demand as int <= 0x2_0000_0000 * 0x1_0000_0000int)
                        by (nonlinear_arith)
                        requires
                            received <= demand,
                            production <= u32::MAX,
                            demand <= 0x1_0000_0000int,
                    ;
                }
                let add: u128 = (received as u128 + production as u128) * demand as u128;
                let total: u128 = stored_goods as u128 + add;
                let stored = if total > u32::MAX as u128 {
                    u32::MAX
                } else {
                    total as u32
                };
                let ghost g1 = self.map;
                self.set_tile_type(
                    i,
                    TileType::Industrial {
                        population,
                        max_pop_per_level,
                        production,
                        stored_goods: stored,
                        max_levels,
                    },
                );
                proof {
                    lemma_layout_trans(g0, g1, self.map);
                    assert(self.map.tiles@ =~= manufactured(t0, i as int));
                }
            },
            _ => {},
        }
    }

    /// The goods step for cell `i`: a store drains up to `level + 1` units of
    /// stored goods from the industries of its district in raster order (see
    /// `after_drain`), each unit earning `unit_goods_revenue` for industry;
    /// the residents of the district's homes are its customers; and its
    /// `store_revenue`, with a noise below 20 dollars, is added to commercial
    /// revenue. Other cells and kinds are left alone.
    pub fn trade_cell<R: RandomSource>(&mut self, i: usize, rng: &mut R, acc: &mut DayReport)
        requires
            old(self).wf(),
            i < old(self).map.tiles@.len(),
        ensures
            trades(*old(self), *old(acc), i as int, *final(self), *final(acc)),
    {
        let ghost g0 = self.map;
        let ghost t0 = self.map.tiles@;
        proof {
            lemma_layout_refl(g0);
            assert(g0.tiles@[i as int].0.wf(g0.num_regions@.len()));
        }
        let workers = match self.map.tiles[i].0.tile_type {
            TileType::Commercial { population, .. } => population,
            _ => {
                return;
            },
        };
        let region = self.map.tiles[i].0.regions[0];
        let demand: u64 = self.map.tiles[i].0.variant as u64 + 1;
        let unit = unit_goods_revenue(self.industrial_tax);
        let n = self.map.tiles.len();
        let mut received: u64 = 0;
        let mut customers: u64 = 0;
        let mut j: usize = 0;
        while j < n
            invariant
                j <= n,
                n == t0.len(),
                n == self.map.tiles@.len(),
                i < n,
                t0 == g0.tiles@,
                region == t0[i as int].0.regions@[0],
                demand == t0[i as int].0.variant + 1,
                received == min_of(demand as int, goods_before(t0, region, j as int)),
                customers == customers_before(t0, region, j as int),
                self.wf(),
                layout_kept(g0, self.map),
                books_kept(old(self), self),
                self.population_pool == old(self).population_pool,
                self.unemployed_pool == old(self).unemployed_pool,
                g0 == old(self).map,
                forall|k: int|
                    0 <= k < n ==> #[trigger] self.map.tiles@[k] == if k < j {
                        after_drain(t0, region, demand as int, k)
                    } else {
                        t0[k]
                    },
            decreases n - j,
        {
            proof {
                assert(self.map.tiles@[j as int].0.wf(self.map.num_regions@.len()));
                lemma_goods_nonneg(t0, region, j as int);
            }
            let ghost before = self.map.tiles@;
            if self.map.tiles[j].0.regions[0] == region {
                match self.map.tiles[j].0.tile_type {
                    TileType::Industrial {
                        population,
                        max_pop_per_level,
                        production,
                        stored_goods,
                        max_levels,
                    } => {
                        let want = demand - received;
                        let take: u32 = if (stored_goods as u64) < want {
                            stored_goods
                        } else {
                            want as u32
                        };
                        if take > 0 {
                            let ghost g1 = self.map;
                            self.set_tile_type(
                                j,
                                TileType::Industrial {
                                    population,
                                    max_pop_per_level,
                                    production,
                                    stored_goods: stored_goods - take,
                                    max_levels,
                                },
                            );
                            proof {
                                lemma_layout_trans(g0, g1, self.map);
                            }
                        }
                        received = received + take as u64;
                    },
                    TileType::Residential { population, .. } => {
                        customers = customers.saturating_add(population);
                    },
                    _ => {},
                }
            }
            proof {
                assert forall|k: int| 0 <= k < n implies #[trigger] self.map.tiles@[k] == if k < j
                    + 1 {
                    after_drain(t0, region, demand as int, k)
                } else {
                    t0[k]
                } by {
                    if k != j {
                        assert(self.map.tiles@[k] == before[k]);
                    }
                }
            }
            j = j + 1;
        }
        proof {
            assert(self.map.tiles@ =~= Seq::new(
                t0.len(),
                |k: int| after_drain(t0, region, demand as int, k),
            ));
            assert(received as int * unit as int <= 0x1_0000_0000int * 100_000_000) by (
            nonlinear_arith)
                requires
                    received <= demand,
                    demand <= 0x1_0000_0000int,
                    unit <= 100_000_000,
            ;
            let tax = self.industrial_tax as int;
            assert(received as int * unit as int == received as int * 100 * (PPM - tax)) by (
            nonlinear_arith)
                requires
                    unit == 100 * (PPM - tax),
            ;
        }
        acc.industrial_revenue = acc.industrial_revenue.saturating_add(
            received as u128 * unit as u128,
        );
        let noise = below(rng, 20 * MICROS_PER_DOLLAR);
        let revenue = batch_revenue(received, noise, self.commercial_tax, customers, workers);
        acc.commercial_revenue = acc.commercial_revenue.saturating_add(revenue);
        proof {
            assert(0 <= noise < 20 * MICROS_PER_DOLLAR && acc.commercial_revenue == sat_u128(
                old(acc).commercial_revenue + store_revenue(
                    received as int,
                    noise as int,
                    old(self).commercial_tax as int,
                    customers_before(t0, region, n as int),
                    t0[i as int].0.tile_type.population() as int,
                ),
            ));
        }
    }
}

/// Over a day cell `a` became `b` as far as levels and raw resources go: a
/// level rises by at most one, and only for a zone below its top level that
/// is filled to that level's capacity; raw resources drop by at most one, and
/// only in an industry that had some.
pub open spec fn level_and_resources_step(a: (Tile, u8, Selection), b: (Tile, u8, Selection)) -> bool {
    &&& b.0.variant == a.0.variant || (b.0.variant == a.0.variant + 1 && a.0.tile_type.is_zoned()
        && a.0.variant < a.0.tile_type.top_level() && b.0.tile_type.population() == capacity_units(
        a.0.tile_type.per_level(),
        a.0.variant,
    ))
    &&& b.1 == a.1 || (a.0.tile_type.kind() == 6 && a.1 > 0 && b.1 == a.1 - 1)
}

/// Cell `b` has the level, raw resources and population of `a`.
pub open spec fn keeps_level(a: (Tile, u8, Selection), b: (Tile, u8, Selection)) -> bool {
    &&& b.0.variant == a.0.variant
    &&& b.1 == a.1
    &&& b.0.tile_type.population() == a.0.tile_type.population()
}

proof fn lemma_manufactured_keeps_levels(tiles: Seq<(Tile, u8, Selection)>, i: int)
    requires
        0 <= i < tiles.len(),
    ensures
        manufactured(tiles, i).len() == tiles.len(),
        forall|k: int| 0 <= k < tiles.len() ==> keeps_level(tiles[k], #[trigger] manufactured(tiles, i)[k]),
{
}

proof fn lemma_drained_keeps_levels(tiles: Seq<(Tile, u8, Selection)>, region: u32, demand: int)
    ensures
        forall|k: int|
            0 <= k < tiles.len() ==> keeps_level(
                tiles[k],
                #[trigger] after_drain(tiles, region, demand, k),
            ),
{
}

/// Tallies before a day's passes.
pub open spec fn empty_report() -> DayReport {
    DayReport {
        empty_homes: 0,
        free_jobs: 0,
        stores: 0,
        industries: 0,
        pop_total: 0,
        commercial_revenue: 0,
        industrial_revenue: 0,
    }
}

/// City `a` as a day begins: the clock restarts, the day is counted, and
/// every thirtieth day the earnings are settled into the funds.
pub open spec fn day_opened(a: City) -> City {
    let day = sat_u64(a.day + 1);
    let settle = day % DAYS_PER_MONTH as int == 0;
    City {
        current_time: 0,
        day: day as u64,
        funds: if settle {
            sat_u64(a.funds + a.earnings) as u64
        } else {
            a.funds
        },
        earnings: if settle {
            0
        } else {
            a.earnings
        },
        ..a
    }
}

/// `cs` and `rs` are the cities and tallies of a growth pass over `order`.
pub open spec fn grow_pass(cs: Seq<City>, rs: Seq<DayReport>, order: Seq<usize>) -> bool {
    &&& cs.len() == order.len() + 1
    &&& rs.len() == order.len() + 1
    &&& forall|k: int|
        0 <= k < order.len() ==> #[trigger] grows(cs[k], rs[k], order[k] as int, cs[k + 1], rs[k + 1])
}

/// `cs` are the cities of a manufacture pass over `order`.
pub open spec fn manufacture_pass(cs: Seq<City>, order: Seq<usize>) -> bool {
    &&& cs.len() == order.len() + 1
    &&& forall|k: int|
        0 <= k < order.len() ==> #[trigger] manufactures(cs[k], order[k] as int, cs[k + 1])
}

/// `cs` and `rs` are the cities and tallies of a goods pass over `order`.
pub open spec fn trade_pass(cs: Seq<City>, rs: Seq<DayReport>, order: Seq<usize>) -> bool {
    &&& cs.len() == order.len() + 1
    &&& rs.len() == order.len() + 1
    &&& forall|k: int|
        0 <= k < order.len() ==> #[trigger] trades(cs[k], rs[k], order[k] as int, cs[k + 1], rs[k + 1])
}

/// City `a` becomes `b` in one day with tallies `r`: the day opens, then,
/// in one random order of all cells, the growth pass, the manufacture pass
/// and the goods pass run, and the end-of-day step closes it.
pub open spec fn day_step(a: City, b: City, r: DayReport) -> bool {
    exists|order: Seq<usize>, g: Seq<City>, gr: Seq<DayReport>, m: Seq<City>, t: Seq<City>, tr: Seq<DayReport>|
        #![trigger grow_pass(g, gr, order), manufacture_pass(m, order), trade_pass(t, tr, order)]
        {
            &&& is_permutation_of_range(order, a.map.tiles@.len() as int)
            &&& g[0] == day_opened(a)
            &&& gr[0] == empty_report()
            &&& grow_pass(g, gr, order)
            &&& m[0] == g.last()
            &&& manufacture_pass(m, order)
            &&& t[0] == m.last()
            &&& tr[0] == gr.last()
            &&& trade_pass(t, tr, order)
            &&& r == tr.last()
            &&& settles(t.last(), r, b)
        }
}

impl City {
    /// The end of a day: the homeless pool grows; people may arrive (when
    /// there are stores and industries) or leave (when homes or jobs run
    /// short); the population is recounted, newly counted workers join the
    /// unemployed and the employable; and the day's taxes are earned.
    pub fn settle_day<R: RandomSource>(&mut self, acc: &DayReport, rng: &mut R)
        requires
            old(self).wf(),
        ensures
            settles(*old(self), *acc, *final(self)),
    {
        let rate = self.birth_rate - self.death_rate;
        proof {
            assert(self.population_pool as int * rate / PPM as int <= self.population_pool) by (
            nonlinear_arith)
                requires
                    rate <= PPM,
                    self.population_pool >= 0,
            ;
            assert(self.population_pool as int * rate <= u128::MAX) by (nonlinear_arith)
                requires
                    rate <= PPM,
                    self.population_pool <= MAX_POOL,
            ;
        }
        let growth = (self.population_pool as u128 * rate as u128 / PPM as u128) as u64;
        let grown = self.population_pool + growth;
        self.population_pool = if grown > MAX_POOL {
            MAX_POOL
        } else {
            grown
        };
        let ghost grown = self.population_pool as int;
        let (arrivals, odds) = migration_in(
            acc.empty_homes,
            self.population_pool,
            acc.free_jobs,
            self.unemployed_pool,
            self.residential_tax,
        );
        if acc.stores > 0 && acc.industries > 0 && chance(rng, odds) {
            let v = self.population_pool as u128 + arrivals as u128;
            self.population_pool = if v > MAX_POOL as u128 {
                MAX_POOL
            } else {
                v as u64
            };
        }
        let ghost after_arrivals = self.population_pool as int;
        let idle = self.population_pool + self.unemployed_pool;
        let leave_odds = if idle > u64::MAX / 10 {
            u64::MAX
        } else {
            idle * 10
        };
        if (self.population_pool > acc.empty_homes || self.unemployed_pool > acc.free_jobs)
            && chance(rng, leave_odds) {
            self.population_pool = self.population_pool.saturating_sub(
                idle / 20 + UNITS_PER_RESIDENT,
            );
        }
        proof {
            assert(grown == clamp_pool(
                old(self).population_pool + old(self).population_pool * (old(self).birth_rate
                    - old(self).death_rate) / PPM as int,
            ));
            assert(after_arrivals == grown || (acc.stores > 0 && acc.industries > 0 && after_arrivals
                == clamp_pool(grown + arrivals)));
            let e = emigration(after_arrivals, old(self).unemployed_pool as int);
            assert(self.population_pool == after_arrivals || ((after_arrivals > acc.empty_homes
                || old(self).unemployed_pool > acc.free_jobs) && self.population_pool == if after_arrivals
                >= e {
                after_arrivals - e
            } else {
                0
            }));
        }
        let total = acc.pop_total.saturating_add(self.population_pool);
        let change = if total >= self.population {
            total - self.population
        } else {
            self.population - total
        };
        proof {
            assert(change as int * self.prop_can_work / PPM as int <= change) by (nonlinear_arith)
                requires
                    self.prop_can_work <= PPM,
                    change >= 0,
            ;
            assert(change as int * self.prop_can_work <= u128::MAX) by (nonlinear_arith)
                requires
                    self.prop_can_work <= PPM,
                    change <= u64::MAX,
            ;
        }
        let workers = (change as u128 * self.prop_can_work as u128 / PPM as u128) as u64;
        let jobless = self.unemployed_pool as u128 + workers as u128;
        self.unemployed_pool = if jobless > MAX_POOL as u128 {
            MAX_POOL
        } else {
            jobless as u64
        };
        self.employable = self.employable.saturating_add(workers);
        self.population = total;
        let housed = self.population.saturating_sub(self.population_pool);
        let day = earnings_of_day(
            housed,
            self.residential_tax,
            acc.commercial_revenue,
            self.commercial_tax,
            acc.industrial_revenue,
            self.industrial_tax,
        );
        self.earnings = self.earnings.saturating_add(day);
        proof {
            let e = emigration(after_arrivals, old(self).unemployed_pool as int);
            assert((after_arrivals == grown || (acc.stores > 0 && acc.industries > 0 && after_arrivals
                == clamp_pool(grown + arrivals))) && (self.population_pool == after_arrivals || ((
            after_arrivals > acc.empty_homes || old(self).unemployed_pool > acc.free_jobs)
                && self.population_pool == if after_arrivals >= e {
                after_arrivals - e
            } else {
                0
            })));
        }
    }

    /// Advances the clock by `dt` milliseconds. While less than a day has
    /// accumulated nothing else happens and `None` is returned. Otherwise one
    /// day passes: the day count grows, the clock restarts, every thirtieth
    /// day the earnings are settled into the funds, and the grid is worked in
    /// a fresh random order by the growth, manufacture and goods passes and
    /// the end-of-day step; the day's totals are returned. Every zone stays
    /// within its capacity and top level, and keeps its kind, configuration,
    /// regions and selection; raw resources never grow and levels never drop.
    /// A passing day is exactly a `day_step`: the per-cell steps
    /// (`grow_cell`, `manufacture_cell`, `trade_cell`) over one random
    /// permutation of the cells, then `settle_day`. A call on which no day
    /// passes draws nothing from `rng`.
    /// Districts are read from region channel 0 as the last `tiles_changed`
    /// left it: after changing tiles, call it before the next day (as
    /// `apply_tool` does), or trade follows the old districts.
    pub fn update<R: RandomSource>(&mut self, dt: u64, rng: &mut R) -> (r: Option<DayReport>)
        requires
            old(self).wf(),
        ensures
            final(self).wf(),
            zones_within_capacity(&final(self).map),
            settings_kept(old(self), final(self)),
            old(self).current_time + dt < old(self).time_per_day ==> {
                &&& r.is_none()
                &&& final(self).current_time == old(self).current_time + dt
                &&& final(self).map == old(self).map
                &&& final(self).population_pool == old(self).population_pool
                &&& final(self).unemployed_pool == old(self).unemployed_pool
                &&& final(self).population == old(self).population
                &&& final(self).employable == old(self).employable
                &&& final(self).earnings == old(self).earnings
                &&& final(self).funds == old(self).funds
                &&& final(self).day == old(self).day
                &&& *final(rng) == *old(rng)
            },
            old(self).current_time + dt >= old(self).time_per_day ==> {
                &&& r.is_some()
                &&& day_step(*old(self), *final(self), r.unwrap())
                &&& forall|i: int|
                    0 <= i < old(self).map.tiles@.len() ==> level_and_resources_step(
                        old(self).map.tiles@[i],
                        #[trigger] final(self).map.tiles@[i],
                    )
                &&& final(self).earnings == sat_u64(
                    day_opened(*old(self)).earnings + day_earnings(
                        if final(self).population >= final(self).population_pool {
                            final(self).population - final(self).population_pool
                        } else {
                            0
                        },
                        old(self).residential_tax as int,
                        r.unwrap().commercial_revenue as int,
                        old(self).commercial_tax as int,
                        r.unwrap().industrial_revenue as int,
                        old(self).industrial_tax as int,
                    ),
                )
                &&& final(self).population == sat_u64(
                    r.unwrap().pop_total + final(self).population_pool,
                )
                &&& final(self).current_time == 0
                &&& final(self).day == sat_u64(old(self).day + 1)
                &&& layout_kept(old(self).map, final(self).map)
                &&& final(self).day % DAYS_PER_MONTH == 0 ==> final(self).funds == sat_u64(
                    old(self).funds + old(self).earnings,
                )
                &&& final(self).day % DAYS_PER_MONTH != 0 ==> final(self).funds == old(
                    self,
                ).funds
            },
    {
        proof {
            lemma_capacity_invariant(old(self));
        }
        self.current_time = self.current_time.saturating_add(dt);
        if self.current_time < self.time_per_day {
            return None;
        }
        self.day = self.day.saturating_add(1);
        self.current_time = 0;
        if self.day % DAYS_PER_MONTH == 0 {
            self.funds = self.funds.saturating_add(self.earnings);
            self.earnings = 0;
        }
        let ghost start = *self;
        proof {
            assert(start == day_opened(*old(self)));
        }
        let order = self.map.shuffled(rng).into_indices();
        let mut acc = DayReport::new();
        proof {
            lemma_layout_refl(self.map);
        }
        let ghost mut gs: Seq<City> = seq![*self];
        let ghost mut grs: Seq<DayReport> = seq![acc];
        let mut k: usize = 0;
        while k < order.len()
            invariant
                k <= order@.len(),
                order@.len() == start.map.tiles@.len(),
                forall|m: int| 0 <= m < order@.len() ==> #[trigger] order@[m] < start.map.tiles@.len(),
                self.wf(),
                layout_kept(start.map, self.map),
                books_kept(&start, self),
                gs.len() == k + 1,
                grs.len() == k + 1,
                gs[0] == start,
                grs[0] == empty_report(),
                gs[k as int] == *self,
                grs[k as int] == acc,
                forall|j: int|
                    0 <= j < k ==> #[trigger] grows(gs[j], grs[j], order@[j] as int, gs[j + 1], grs[j + 1]),
                is_permutation_of_range(order@, start.map.tiles@.len() as int),
                forall|c: int|
                    0 <= c < start.map.tiles@.len() ==> if order@.subrange(0, k as int).contains(
                        c as usize,
                    ) {
                        level_and_resources_step(start.map.tiles@[c], #[trigger] self.map.tiles@[c])
                    } else {
                        self.map.tiles@[c] == start.map.tiles@[c]
                    },
            decreases order@.len() - k,
        {
            let ghost g = self.map;
            let ghost before = order@.subrange(0, k as int);
            let ghost after = order@.subrange(0, k + 1);
            proof {
                assert(!before.contains(order@[k as int])) by {
                    if before.contains(order@[k as int]) {
                        let m = choose|m: int| 0 <= m < before.len() && before[m] == order@[k as int];
                        assert(order@[m] == order@[k as int]);
                    }
                }
            }
            self.grow_cell(order[k], rng, &mut acc);
            proof {
                lemma_layout_trans(start.map, g, self.map);
                gs = gs.push(*self);
                grs = grs.push(acc);
                let oi = order@[k as int] as int;
                assert forall|c: int| 0 <= c < start.map.tiles@.len() implies if after.contains(
                    c as usize,
                ) {
                    level_and_resources_step(start.map.tiles@[c], #[trigger] self.map.tiles@[c])
                } else {
                    self.map.tiles@[c] == start.map.tiles@[c]
                } by {
                    if c == oi {
                        assert(after[k as int] == c as usize);
                        assert(g.tiles@[c] == start.map.tiles@[c]);
                    } else {
                        assert(self.map.tiles@[c] == g.tiles@[c]);
                        if before.contains(c as usize) {
                            let m = choose|m: int| 0 <= m < before.len() && before[m] == c as usize;
                            assert(after[m] == c as usize);
                        }
                        if after.contains(c as usize) {
                            let m = choose|m: int| 0 <= m < after.len() && after[m] == c as usize;
                            assert(m != k);
                            assert(before[m] == c as usize);
                        }
                    }
                }
            }
            k = k + 1;
        }
        let ghost grown = self.map;
        proof {
            assert(grow_pass(gs, grs, order@));
            assert(order@.subrange(0, k as int) =~= order@);
            assert forall|c: int| 0 <= c < start.map.tiles@.len() implies level_and_resources_step(
                start.map.tiles@[c],
                #[trigger] self.map.tiles@[c],
            ) by {
                assert(order@.contains(c as usize));
            }
        }
        let ghost mut ms: Seq<City> = seq![*self];
        let mut k: usize = 0;
        while k < order.len()
            invariant
                k <= order@.len(),
                order@.len() == start.map.tiles@.len(),
                forall|m: int| 0 <= m < order@.len() ==> #[trigger] order@[m] < start.map.tiles@.len(),
                self.wf(),
                layout_kept(start.map, self.map),
                books_kept(&start, self),
                ms.len() == k + 1,
                ms[0] == gs.last(),
                ms[k as int] == *self,
                forall|j: int|
                    0 <= j < k ==> #[trigger] manufactures(ms[j], order@[j] as int, ms[j + 1]),
                self.map.tiles@.len() == grown.tiles@.len(),
                forall|c: int|
                    0 <= c < grown.tiles@.len() ==> keeps_level(grown.tiles@[c], #[trigger] self.map.tiles@[c]),
            decreases order@.len() - k,
        {
            let ghost g = self.map;
            self.manufacture_cell(order[k]);
            proof {
                lemma_layout_trans(start.map, g, self.map);
                ms = ms.push(*self);
                lemma_manufactured_keeps_levels(g.tiles@, order@[k as int] as int);
                assert forall|c: int| 0 <= c < grown.tiles@.len() implies keeps_level(
                    grown.tiles@[c],
                    #[trigger] self.map.tiles@[c],
                ) by {
                    assert(keeps_level(grown.tiles@[c], g.tiles@[c]));
                }
            }
            k = k + 1;
        }
        proof {
            assert(manufacture_pass(ms, order@));
        }
        let ghost mut ts: Seq<City> = seq![*self];
        let ghost mut trs: Seq<DayReport> = seq![acc];
        let mut k: usize = 0;
        while k < order.len()
            invariant
                k <= order@.len(),
                order@.len() == start.map.tiles@.len(),
                forall|m: int| 0 <= m < order@.len() ==> #[trigger] order@[m] < start.map.tiles@.len(),
                self.wf(),
                layout_kept(start.map, self.map),
                books_kept(&start, self),
                ts.len() == k + 1,
                trs.len() == k + 1,
                ts[0] == ms.last(),
                trs[0] == grs.last(),
                ts[k as int] == *self,
                trs[k as int] == acc,
                forall|j: int|
                    0 <= j < k ==> #[trigger] trades(ts[j], trs[j], order@[j] as int, ts[j + 1], trs[j + 1]),
                self.map.tiles@.len() == grown.tiles@.len(),
                forall|c: int|
                    0 <= c < grown.tiles@.len() ==> keeps_level(grown.tiles@[c], #[trigger] self.map.tiles@[c]),
            decreases order@.len() - k,
        {
            let ghost g = self.map;
            self.trade_cell(order[k], rng, &mut acc);
            proof {
                lemma_layout_trans(start.map, g, self.map);
                ts = ts.push(*self);
                trs = trs.push(acc);
                let t0 = g.tiles@;
                let oi = order@[k as int] as int;
                lemma_drained_keeps_levels(t0, t0[oi].0.regions@[0], t0[oi].0.variant + 1);
                assert forall|c: int| 0 <= c < grown.tiles@.len() implies keeps_level(
                    grown.tiles@[c],
                    #[trigger] self.map.tiles@[c],
                ) by {
                    assert(keeps_level(grown.tiles@[c], g.tiles@[c]));
                    if t0[oi].0.tile_type.kind() == 5 {
                        assert(self.map.tiles@[c] == after_drain(
                            t0,
                            t0[oi].0.regions@[0],
                            t0[oi].0.variant + 1,
                            c,
                        ));
                    }
                }
            }
            k = k + 1;
        }
        proof {
            assert(trade_pass(ts, trs, order@));
        }
        let ghost closing = *self;
        self.settle_day(&acc, rng);
        proof {
            lemma_capacity_invariant(self);
            assert(settles(closing, acc, *self));
            assert(grow_pass(gs, grs, order@) && manufacture_pass(ms, order@) && trade_pass(ts, trs, order@));
            assert(day_step(*old(self), *self, acc));
            assert forall|c: int| 0 <= c < old(self).map.tiles@.len() implies level_and_resources_step(
                old(self).map.tiles@[c],
                #[trigger] self.map.tiles@[c],
            ) by {
                assert(keeps_level(grown.tiles@[c], closing.map.tiles@[c]));
            }
        }
        Some(acc)
    }
}

} // verus!
