//! Land-use values and the per-parcel state that goes with them.

use vstd::prelude::*;
use crate::random::{RandomSource, chance};

verus! {

/// Populations are counted in thousandths of a resident (or of a worker).
pub const UNITS_PER_RESIDENT: u64 = 1000;

/// The kind of a parcel, with the state that zoned kinds carry.
/// `population` is in thousandths of a resident; a zone holds at most
/// `max_pop_per_level * (level + 1)` residents at a given level.
#[derive(Clone, Copy, PartialEq, Eq, Structural, Debug)]
pub enum TileType {
    Void,
    Grass,
    Forest,
    Water,
    Residential { population: u64, max_pop_per_level: u32, max_levels: u32 },
    Commercial { population: u64, max_pop_per_level: u32, max_levels: u32 },
    Industrial {
        population: u64,
        max_pop_per_level: u32,
        production: u32,
        stored_goods: u32,
        max_levels: u32,
    },
    Road,
}

/// Capacity, in population units, of a zone with `per_level` residents per
/// level at the given level.
pub open spec fn capacity_units(per_level: u32, level: u32) -> int {
    per_level * (level + 1) * UNITS_PER_RESIDENT
}

impl TileType {
    /// The number that identifies the kind, ignoring its state.
    pub open spec fn kind(self) -> u8 {
        match self {
            TileType::Void => 0,
            TileType::Grass => 1,
            TileType::Forest => 2,
            TileType::Water => 3,
            TileType::Residential { .. } => 4,
            TileType::Commercial { .. } => 5,
            TileType::Industrial { .. } => 6,
            TileType::Road => 7,
        }
    }

    /// A residential, commercial or industrial zone.
    pub open spec fn is_zoned(self) -> bool {
        4 <= self.kind() <= 6
    }

    /// A zone's population (0 for other kinds).
    pub open spec fn population(self) -> u64 {
        match self {
            TileType::Residential { population, .. } => population,
            TileType::Commercial { population, .. } => population,
            TileType::Industrial { population, .. } => population,
            _ => 0,
        }
    }

    /// A zone's capacity per level, in residents (0 for other kinds).
    pub open spec fn per_level(self) -> u32 {
        match self {
            TileType::Residential { max_pop_per_level, .. } => max_pop_per_level,
            TileType::Commercial { max_pop_per_level, .. } => max_pop_per_level,
            TileType::Industrial { max_pop_per_level, .. } => max_pop_per_level,
            _ => 0,
        }
    }

    /// A zone's highest level (0 for other kinds).
    pub open spec fn top_level(self) -> u32 {
        match self {
            TileType::Residential { max_levels, .. } => max_levels,
            TileType::Commercial { max_levels, .. } => max_levels,
            TileType::Industrial { max_levels, .. } => max_levels,
            _ => 0,
        }
    }

    /// An industry's production (0 for other kinds).
    pub open spec fn production(self) -> u32 {
        match self {
            TileType::Industrial { production, .. } => production,
            _ => 0,
        }
    }

    /// An industry's stored goods (0 for other kinds).
    pub open spec fn stored_goods(self) -> u32 {
        match self {
            TileType::Industrial { stored_goods, .. } => stored_goods,
            _ => 0,
        }
    }

    /// The same kind and configuration with the population replaced.
    pub open spec fn with_population(self, p: u64) -> TileType {
        match self {
            TileType::Residential { max_pop_per_level, max_levels, .. } => TileType::Residential {
                population: p,
                max_pop_per_level,
                max_levels,
            },
            TileType::Commercial { max_pop_per_level, max_levels, .. } => TileType::Commercial {
                population: p,
                max_pop_per_level,
                max_levels,
            },
            TileType::Industrial { max_pop_per_level, production, stored_goods, max_levels, .. } =>
                TileType::Industrial {
                population: p,
                max_pop_per_level,
                production,
                stored_goods,
                max_levels,
            },
            _ => self,
        }
    }

    /// The same kind with production and stored goods replaced (industry only).
    pub open spec fn with_goods(self, production: u32, stored_goods: u32) -> TileType {
        match self {
            TileType::Industrial { population, max_pop_per_level, max_levels, .. } =>
                TileType::Industrial {
                population,
                max_pop_per_level,
                production,
                stored_goods,
                max_levels,
            },
            _ => self,
        }
    }

    /// A zone's configuration fits the machine: its top-level capacity in
    /// residents fits in 32 bits.
    pub open spec fn config_ok(self) -> bool {
        self.is_zoned() ==> self.per_level() * (self.top_level() + 1) <= u32::MAX
    }

    /// The zone invariant at a level: the level is at most the top level and
    /// the population lies within the level's capacity.
    pub open spec fn zone_ok(self, level: u32) -> bool {
        self.config_ok() && (self.is_zoned() ==> (level <= self.top_level() && self.population()
            <= capacity_units(self.per_level(), level)))
    }

    /// An empty residential zone.
    pub open spec fn residential_spec(max_pop_per_level: u32, max_levels: u32) -> TileType {
        TileType::Residential { population: 0, max_pop_per_level, max_levels }
    }

    /// An empty commercial zone.
    pub open spec fn commercial_spec(max_pop_per_level: u32, max_levels: u32) -> TileType {
        TileType::Commercial { population: 0, max_pop_per_level, max_levels }
    }

    /// An empty industrial zone with no production and no stock.
    pub open spec fn industrial_spec(max_pop_per_level: u32, max_levels: u32) -> TileType {
        TileType::Industrial {
            population: 0,
            max_pop_per_level,
            production: 0,
            stored_goods: 0,
            max_levels,
        }
    }

    /// An empty residential zone.
    pub fn residential(max_pop_per_level: u32, max_levels: u32) -> (r: TileType)
        ensures
            r == Self::residential_spec(max_pop_per_level, max_levels),
    {
        TileType::Residential { population: 0, max_pop_per_level, max_levels }
    }

    /// An empty commercial zone.
    pub fn commercial(max_pop_per_level: u32, max_levels: u32) -> (r: TileType)
        ensures
            r == Self::commercial_spec(max_pop_per_level, max_levels),
    {
        TileType::Commercial { population: 0, max_pop_per_level, max_levels }
    }

    /// An empty industrial zone.
    pub fn industrial(max_pop_per_level: u32, max_levels: u32) -> (r: TileType)
        ensures
            r == Self::industrial_spec(max_pop_per_level, max_levels),
    {
        TileType::Industrial {
            population: 0,
            max_pop_per_level,
            production: 0,
            stored_goods: 0,
            max_levels,
        }
    }

    /// Whether both values are of the same kind, whatever their state.
    pub fn similar_to(&self, other: &TileType) -> (r: bool)
        ensures
            r == (self.kind() == other.kind()),
    {
        self.kind_code() == other.kind_code()
    }

    /// The number that identifies the kind.
    pub fn kind_code(&self) -> (r: u8)
        ensures
            r == self.kind(),
    {
        match self {
            TileType::Void => 0,
            TileType::Grass => 1,
            TileType::Forest => 2,
            TileType::Water => 3,
            TileType::Residential { .. } => 4,
            TileType::Commercial { .. } => 5,
            TileType::Industrial { .. } => 6,
            TileType::Road => 7,
        }
    }

    /// The name shown to players for the kind.
    pub fn name(&self) -> &'static str {
        match self {
            TileType::Void => "Void",
            TileType::Grass => "Grass",
            TileType::Forest => "Forest",
            TileType::Water => "Water",
            TileType::Residential { .. } => "Residential Zone",
            TileType::Commercial { .. } => "Commercial Zone",
            TileType::Industrial { .. } => "Industrial Zone",
            TileType::Road => "Road",
        }
    }

    /// The population of a zone (zero for other kinds).
    pub fn get_population(&self) -> (r: u64)
        ensures
            r == self.population(),
    {
        match self {
            TileType::Residential { population, .. } => *population,
            TileType::Commercial { population, .. } => *population,
            TileType::Industrial { population, .. } => *population,
            _ => 0,
        }
    }
}

/// Whether `t` is of one of the kinds listed in `kinds`.
pub open spec fn kind_listed(kinds: Seq<TileType>, t: TileType) -> bool {
    exists|k: int| 0 <= k < kinds.len() && #[trigger] kinds[k].kind() == t.kind()
}

/// Whether `t` is of one of the kinds listed in `kinds`.
pub fn is_listed(kinds: &Vec<TileType>, t: &TileType) -> (r: bool)
    ensures
        r == kind_listed(kinds@, *t),
{
    let mut i: usize = 0;
    while i < kinds.len()
        invariant
            i <= kinds.len(),
            forall|k: int| 0 <= k < i ==> #[trigger] kinds@[k].kind() != t.kind(),
        decreases kinds.len() - i,
    {
        if kinds[i].similar_to(t) {
            return true;
        }
        i = i + 1;
    }
    false
}

/// A parcel: its kind, its level (or, for roads, its picture variant), the
/// region it belongs to in each region channel (0: none) and its build cost.
pub struct Tile {
    pub tile_type: TileType,
    pub variant: u32,
    pub regions: Vec<u32>,
    pub cost: u32,
}

impl Tile {
    /// The tile is consistent with `channels` region channels.
    pub open spec fn wf(&self, channels: nat) -> bool {
        self.regions@.len() == channels && self.tile_type.zone_ok(self.variant)
    }

    /// Capacity of the tile at its current level, in population units.
    pub open spec fn capacity(&self) -> int {
        capacity_units(self.tile_type.per_level(), self.variant)
    }

    /// A fresh tile of the given kind, at level 0, in no region.
    pub fn new(tile_type: TileType, cost: u32) -> (r: Tile)
        ensures
            r.tile_type == tile_type,
            r.variant == 0,
            r.regions@ == seq![0u32],
            r.cost == cost,
    {
        Tile { tile_type, variant: 0, regions: vec![0u32], cost }
    }

    /// A copy of the tile.
    pub fn duplicate(&self) -> (r: Tile)
        ensures
            r.tile_type == self.tile_type,
            r.variant == self.variant,
            r.regions@ == self.regions@,
            r.cost == self.cost,
    {
        let mut regions: Vec<u32> = Vec::new();
        let mut i: usize = 0;
        while i < self.regions.len()
            invariant
                i <= self.regions.len(),
                regions@ == self.regions@.subrange(0, i as int),
            decreases self.regions.len() - i,
        {
            regions.push(self.regions[i]);
            i = i + 1;
            proof {
                assert(regions@ =~= self.regions@.subrange(0, i as int));
            }
        }
        proof {
            assert(regions@ =~= self.regions@);
        }
        Tile { tile_type: self.tile_type, variant: self.variant, regions, cost: self.cost }
    }

    /// Capacity of the tile at its current level, in population units.
    pub fn get_capacity(&self) -> (r: u64)
        requires
            self.tile_type.config_ok(),
            self.variant <= self.tile_type.top_level(),
        ensures
            r == self.capacity(),
    {
        let per_level = match self.tile_type {
            TileType::Residential { max_pop_per_level, .. } => max_pop_per_level,
            TileType::Commercial { max_pop_per_level, .. } => max_pop_per_level,
            TileType::Industrial { max_pop_per_level, .. } => max_pop_per_level,
            _ => 0,
        };
        proof {
            let tl = self.tile_type.top_level();
            assert(per_level * (self.variant + 1) <= per_level * (tl + 1)) by (nonlinear_arith)
                requires
                    self.variant <= tl,
            ;
        }
        per_level as u64 * (self.variant as u64 + 1) * UNITS_PER_RESIDENT
    }

    /// Sets the population of a zone; other kinds are left alone.
    pub fn set_population(&mut self, new_population: u64)
        ensures
            final(self).tile_type == old(self).tile_type.with_population(new_population),
            final(self).variant == old(self).variant,
            final(self).regions@ == old(self).regions@,
            final(self).cost == old(self).cost,
    {
        self.tile_type = match self.tile_type {
            TileType::Residential { max_pop_per_level, max_levels, .. } => TileType::Residential {
                population: new_population,
                max_pop_per_level,
                max_levels,
            },
            TileType::Commercial { max_pop_per_level, max_levels, .. } => TileType::Commercial {
                population: new_population,
                max_pop_per_level,
                max_levels,
            },
            TileType::Industrial { max_pop_per_level, production, stored_goods, max_levels, .. } =>
                TileType::Industrial {
                population: new_population,
                max_pop_per_level,
                production,
                stored_goods,
                max_levels,
            },
            other => other,
        };
    }

    /// Sets the production of an industry; other kinds are left alone.
    pub fn set_production(&mut self, new_production: u32)
        ensures
            final(self).tile_type == old(self).tile_type.with_goods(
                new_production,
                old(self).tile_type.stored_goods(),
            ),
            final(self).variant == old(self).variant,
            final(self).regions@ == old(self).regions@,
            final(self).cost == old(self).cost,
    {
        self.tile_type = match self.tile_type {
            TileType::Industrial { population, max_pop_per_level, stored_goods, max_levels, .. } =>
                TileType::Industrial {
                population,
                max_pop_per_level,
                production: new_production,
                stored_goods,
                max_levels,
            },
            other => other,
        };
    }

    /// Sets the stored goods of an industry; other kinds are left alone.
    pub fn set_stored_goods(&mut self, new_stored_goods: u32)
        ensures
            final(self).tile_type == old(self).tile_type.with_goods(
                old(self).tile_type.production(),
                new_stored_goods,
            ),
            final(self).variant == old(self).variant,
            final(self).regions@ == old(self).regions@,
            final(self).cost == old(self).cost,
    {
        self.tile_type = match self.tile_type {
            TileType::Industrial { population, max_pop_per_level, production, max_levels, .. } =>
                TileType::Industrial {
                population,
                max_pop_per_level,
                production,
                stored_goods: new_stored_goods,
                max_levels,
            },
            other => other,
        };
    }

    /// The level-up roll: a zone filled exactly to its level's capacity and
    /// below its top level moves up one level with probability
    /// `1% / (level + 1)`. Nothing else changes.
    pub fn update<R: RandomSource>(&mut self, rng: &mut R)
        requires
            old(self).tile_type.zone_ok(old(self).variant),
        ensures
            final(self).tile_type == old(self).tile_type,
            final(self).regions@ == old(self).regions@,
            final(self).cost == old(self).cost,
            final(self).variant == old(self).variant || (final(self).variant == old(
                self,
            ).variant + 1 && old(self).tile_type.is_zoned() && old(self).tile_type.population()
                == old(self).capacity() && old(self).variant < old(self).tile_type.top_level()),
            final(self).tile_type.zone_ok(final(self).variant),
    {
        if self.tile_type.is_zoned_exec() {
            let cap = self.get_capacity();
            let top = self.tile_type.top_level_exec();
            if self.tile_type.get_population() == cap && self.variant < top {
                let p: u64 = 10_000 / (self.variant as u64 + 1);
                if chance(rng, p) {
                    proof {
                        let t = self.tile_type;
                        let v = self.variant;
                        assert(t.per_level() * (v + 1) * UNITS_PER_RESIDENT <= t.per_level() * (v
                            + 2) * UNITS_PER_RESIDENT) by (nonlinear_arith);
                    }
                    self.variant = self.variant + 1;
                }
            }
        }
    }
}

impl TileType {
    /// Whether the kind is a zone.
    pub fn is_zoned_exec(&self) -> (r: bool)
        ensures
            r == self.is_zoned(),
    {
        match self {
            TileType::Residential { .. } | TileType::Commercial { .. } | TileType::Industrial {
                ..
            } => true,
            _ => false,
        }
    }

    /// A zone's highest level (0 for other kinds).
    pub fn top_level_exec(&self) -> (r: u32)
        ensures
            r == self.top_level(),
    {
        match self {
            TileType::Residential { max_levels, .. } => *max_levels,
            TileType::Commercial { max_levels, .. } => *max_levels,
            TileType::Industrial { max_levels, .. } => *max_levels,
            _ => 0,
        }
    }
}

/// The catalogue of tiles a player can place, with their configuration.
pub struct TileAtlas {
    pub grass: Tile,
    pub forest: Tile,
    pub water: Tile,
    pub residential: Tile,
    pub commercial: Tile,
    pub industrial: Tile,
    pub road: Tile,
}

impl TileAtlas {
    /// Every entry is a consistent tile of its own kind with one region channel.
    pub open spec fn wf(&self) -> bool {
        &&& self.grass.wf(1) && self.grass.tile_type.kind() == 1
        &&& self.forest.wf(1) && self.forest.tile_type.kind() == 2
        &&& self.water.wf(1) && self.water.tile_type.kind() == 3
        &&& self.residential.wf(1) && self.residential.tile_type.kind() == 4
        &&& self.commercial.wf(1) && self.commercial.tile_type.kind() == 5
        &&& self.industrial.wf(1) && self.industrial.tile_type.kind() == 6
        &&& self.road.wf(1) && self.road.tile_type.kind() == 7
    }

    /// The standard catalogue: zones of 50 residents or jobs per level, six
    /// residential and four commercial and industrial levels.
    pub fn standard() -> (r: TileAtlas)
        ensures
            r.wf(),
            r.grass.cost == 50,
            r.forest.cost == 100,
            r.water.cost == 0,
            r.residential.cost == 300,
            r.commercial.cost == 300,
            r.industrial.cost == 300,
            r.road.cost == 100,
            r.residential.tile_type == TileType::residential_spec(50, 6),
            r.commercial.tile_type == TileType::commercial_spec(50, 4),
            r.industrial.tile_type == TileType::industrial_spec(50, 4),
    {
        let atlas = TileAtlas {
            grass: Tile::new(TileType::Grass, 50),
            forest: Tile::new(TileType::Forest, 100),
            water: Tile::new(TileType::Water, 0),
            residential: Tile::new(TileType::residential(50, 6), 300),
            commercial: Tile::new(TileType::commercial(50, 4), 300),
            industrial: Tile::new(TileType::industrial(50, 4), 300),
            road: Tile::new(TileType::Road, 100),
        };
        proof {
            assert(capacity_units(50, 0) == 50000);
            assert(atlas.residential.tile_type.per_level() == 50);
            assert(atlas.residential.tile_type.top_level() == 6);
            assert(atlas.commercial.tile_type.top_level() == 4);
            assert(atlas.industrial.tile_type.top_level() == 4);
        }
        atlas
    }
}

} // verus!
