//! The grid's binary file format, big-endian:
//!
//! ```text
//! u32 width, u32 height, then for each cell in row-major order:
//!   u8 kind      0 void, 1 grass, 2 forest, 3 water,
//!                4 residential, 5 commercial, 6 industrial, 7 road
//!   u64 population        zones only, in thousandths of a resident
//!   u32 production, u32 stored goods      industry only
//!   u32 level, u32 channel count, one u32 region label per channel
//! ```
//!
//! A file is refused with `InvalidFormat` at a byte that is not a tile
//! kind, with `IoFailure` when it ends early, and with `InvalidTile` when a
//! tile would break the grid's invariant: a zone above its catalogue top
//! level or over its level's capacity, or another number of region channels
//! than the grid has.
//!
//! Raw-resource counters and selection marks are not stored; a loaded grid
//! starts with 255 resources per cell and nothing selected. Zone capacities,
//! top levels and build costs come from the tile catalogue.

use vstd::prelude::*;
use crate::grid::{Selection, TileGrid};
use crate::tile::{Tile, TileType, TileAtlas, capacity_units};

verus! {

/// Why a grid could not be read.
#[derive(Clone, Copy, PartialEq, Eq, Structural, Debug)]
pub enum PersistenceError {
    /// Reading or writing failed, or the data ended early.
    IoFailure,
    /// The byte at `offset` is not a tile kind.
    InvalidFormat { offset: usize, value: u8 },
    /// Tile `index` does not fit the catalogue or the grid's region channels:
    /// a zone above its top level or over its capacity, or another number of
    /// region channels.
    InvalidTile { index: usize },
}

/// What the file stores of a tile: kind, population, production, stored
/// goods, level and region labels.
pub type Record = (u8, u64, u32, u32, u32, Seq<u32>);

/// The big-endian bytes of `v`.
pub open spec fn be32(v: u32) -> Seq<u8> {
    seq![(v >> 24u32) as u8, (v >> 16u32) as u8, (v >> 8u32) as u8, v as u8]
}

/// The big-endian bytes of `v`.
pub open spec fn be64(v: u64) -> Seq<u8> {
    seq![
        (v >> 56u64) as u8,
        (v >> 48u64) as u8,
        (v >> 40u64) as u8,
        (v >> 32u64) as u8,
        (v >> 24u64) as u8,
        (v >> 16u64) as u8,
        (v >> 8u64) as u8,
        v as u8,
    ]
}

/// The big-endian `u32` at `p`.
pub open spec fn u32_at(b: Seq<u8>, p: int) -> u32 {
    ((b[p] as u32) << 24u32) | ((b[p + 1] as u32) << 16u32) | ((b[p + 2] as u32) << 8u32) | (b[p
        + 3] as u32)
}

/// The big-endian `u64` at `p`.
pub open spec fn u64_at(b: Seq<u8>, p: int) -> u64 {
    ((u32_at(b, p) as u64) << 32u64) | (u32_at(b, p + 4) as u64)
}

/// The big-endian bytes of each value in turn.
pub open spec fn encode_u32s(s: Seq<u32>) -> Seq<u8>
    decreases s.len(),
{
    if s.len() == 0 {
        seq![]
    } else {
        encode_u32s(s.drop_last()) + be32(s.last())
    }
}

/// Kinds that store a population.
pub open spec fn has_population(k: u8) -> bool {
    4 <= k <= 6
}

/// The bytes of one tile record.
pub open spec fn encode_record(r: Record) -> Seq<u8> {
    seq![r.0] + (if has_population(r.0) {
        be64(r.1)
    } else {
        seq![]
    }) + (if r.0 == 6 {
        be32(r.2) + be32(r.3)
    } else {
        seq![]
    }) + be32(r.4) + be32(r.5.len() as u32) + encode_u32s(r.5)
}

/// The bytes of the records in turn.
pub open spec fn encode_records(rs: Seq<Record>) -> Seq<u8>
    decreases rs.len(),
{
    if rs.len() == 0 {
        seq![]
    } else {
        encode_records(rs.drop_last()) + encode_record(rs.last())
    }
}

/// What the file stores of tile `t`.
pub open spec fn record_of(t: Tile) -> Record {
    (
        t.tile_type.kind(),
        t.tile_type.population(),
        t.tile_type.production(),
        t.tile_type.stored_goods(),
        t.variant,
        t.regions@,
    )
}

/// What the file stores of each cell.
pub open spec fn records_of(tiles: Seq<(Tile, u8, Selection)>) -> Seq<Record> {
    Seq::new(tiles.len(), |i: int| record_of(tiles[i].0))
}

/// The file that holds a grid of `w` columns and `h` rows with these cells.
pub open spec fn encode_grid(w: u32, h: u32, tiles: Seq<(Tile, u8, Selection)>) -> Seq<u8> {
    be32(w) + be32(h) + encode_records(records_of(tiles))
}

/// Reads `count` big-endian `u32`s from `p` on.
pub open spec fn decode_u32s(b: Seq<u8>, p: int, count: nat) -> Result<(Seq<u32>, int), PersistenceError>
    decreases count,
{
    if count == 0 {
        Ok((seq![], p))
    } else {
        match decode_u32s(b, p, (count - 1) as nat) {
            Ok((s, q)) => if q + 4 <= b.len() {
                Ok((s.push(u32_at(b, q)), q + 4))
            } else {
                Err(PersistenceError::IoFailure)
            },
            Err(e) => Err(e),
        }
    }
}

/// Reads one tile record at `p`, returning it and the position after it.
pub open spec fn decode_record(b: Seq<u8>, p: int) -> Result<(Record, int), PersistenceError> {
    if p < 0 || p >= b.len() {
        Err(PersistenceError::IoFailure)
    } else {
        let k = b[p];
        if k > 7 {
            Err(PersistenceError::InvalidFormat { offset: p as usize, value: k })
        } else {
            let q1 = p + 1;
            let pop: u64 = if has_population(k) {
                u64_at(b, q1)
            } else {
                0
            };
            let q2 = if has_population(k) {
                q1 + 8
            } else {
                q1
            };
            let prod: u32 = if k == 6 {
                u32_at(b, q2)
            } else {
                0
            };
            let stored: u32 = if k == 6 {
                u32_at(b, q2 + 4)
            } else {
                0
            };
            let q3 = if k == 6 {
                q2 + 8
            } else {
                q2
            };
            if q3 + 8 > b.len() {
                Err(PersistenceError::IoFailure)
            } else {
                match decode_u32s(b, q3 + 8, u32_at(b, q3 + 4) as nat) {
                    Ok((regions, q4)) => Ok(((k, pop, prod, stored, u32_at(b, q3), regions), q4)),
                    Err(e) => Err(e),
                }
            }
        }
    }
}

/// Reads `count` tile records from `p` on.
pub open spec fn decode_records(b: Seq<u8>, p: int, count: nat) -> Result<(Seq<Record>, int), PersistenceError>
    decreases count,
{
    if count == 0 {
        Ok((seq![], p))
    } else {
        match decode_records(b, p, (count - 1) as nat) {
            Ok((rs, q)) => match decode_record(b, q) {
                Ok((r, q2)) => Ok((rs.push(r), q2)),
                Err(e) => Err(e),
            },
            Err(e) => Err(e),
        }
    }
}

/// Reads a whole grid file: width, height and the records of its cells.
pub open spec fn decode_grid(b: Seq<u8>) -> Result<(u32, u32, Seq<Record>), PersistenceError> {
    if b.len() < 8 {
        Err(PersistenceError::IoFailure)
    } else {
        let w = u32_at(b, 0);
        let h = u32_at(b, 4);
        match decode_records(b, 8, (w * h) as nat) {
            Ok((rs, q)) => Ok((w, h, rs)),
            Err(e) => Err(e),
        }
    }
}

proof fn lemma_be32_round_trip(v: u32, b: Seq<u8>, p: int)
    requires
        0 <= p,
        p + 4 <= b.len(),
        b.subrange(p, p + 4) == be32(v),
    ensures
        u32_at(b, p) == v,
{
    assert(b[p] == be32(v)[0]);
    assert(b[p + 1] == be32(v)[1]);
    assert(b[p + 2] == be32(v)[2]);
    assert(b[p + 3] == be32(v)[3]);
    let (b0, b1, b2, b3) = (b[p], b[p + 1], b[p + 2], b[p + 3]);
    assert(b0 == (v >> 24u32) as u8 && b1 == (v >> 16u32) as u8 && b2 == (v >> 8u32) as u8 && b3
        == v as u8 ==> ((b0 as u32) << 24u32) | ((b1 as u32) << 16u32) | ((b2 as u32) << 8u32) | (
    b3 as u32) == v) by (bit_vector);
}

proof fn lemma_be64_round_trip(v: u64, b: Seq<u8>, p: int)
    requires
        0 <= p,
        p + 8 <= b.len(),
        b.subrange(p, p + 8) == be64(v),
    ensures
        u64_at(b, p) == v,
{
    let hi = (v >> 32u64) as u32;
    let lo = v as u32;
    assert(be64(v) =~= be32(hi) + be32(lo)) by {
        assert((v >> 56u64) as u8 == (hi >> 24u32) as u8) by (bit_vector)
            requires
                hi == (v >> 32u64) as u32,
        ;
        assert((v >> 48u64) as u8 == (hi >> 16u32) as u8) by (bit_vector)
            requires
                hi == (v >> 32u64) as u32,
        ;
        assert((v >> 40u64) as u8 == (hi >> 8u32) as u8) by (bit_vector)
            requires
                hi == (v >> 32u64) as u32,
        ;
        assert((v >> 32u64) as u8 == hi as u8) by (bit_vector)
            requires
                hi == (v >> 32u64) as u32,
        ;
        assert((v >> 24u64) as u8 == (lo >> 24u32) as u8) by (bit_vector)
            requires
                lo == v as u32,
        ;
        assert((v >> 16u64) as u8 == (lo >> 16u32) as u8) by (bit_vector)
            requires
                lo == v as u32,
        ;
        assert((v >> 8u64) as u8 == (lo >> 8u32) as u8) by (bit_vector)
            requires
                lo == v as u32,
        ;
        assert(v as u8 == lo as u8) by (bit_vector)
            requires
                lo == v as u32,
        ;
    }
    assert(b.subrange(p, p + 4) =~= be32(hi));
    assert(b.subrange(p + 4, p + 8) =~= be32(lo));
    lemma_be32_round_trip(hi, b, p);
    lemma_be32_round_trip(lo, b, p + 4);
    assert(((hi as u64) << 32u64) | (lo as u64) == v) by (bit_vector)
        requires
            hi == (v >> 32u64) as u32,
            lo == v as u32,
    ;
}

proof fn lemma_encode_u32s_len(s: Seq<u32>)
    ensures
        encode_u32s(s).len() == 4 * s.len(),
    decreases s.len(),
{
    if s.len() > 0 {
        lemma_encode_u32s_len(s.drop_last());
    }
}

proof fn lemma_decode_u32s(s: Seq<u32>, b: Seq<u8>, p: int)
    requires
        0 <= p,
        p + 4 * s.len() <= b.len(),
        b.subrange(p, p + 4 * s.len()) == encode_u32s(s),
    ensures
        decode_u32s(b, p, s.len()) == Ok::<(Seq<u32>, int), PersistenceError>((s, p + 4 * s.len())),
    decreases s.len(),
{
    if s.len() > 0 {
        let t = s.drop_last();
        lemma_encode_u32s_len(t);
        let tl = 4 * t.len() as int;
        let sl = 4 * s.len() as int;
        let q = p + tl;
        assert(b.subrange(p, q) =~= encode_u32s(s).subrange(0, tl));
        assert(encode_u32s(s).subrange(0, tl) =~= encode_u32s(t));
        lemma_decode_u32s(t, b, p);
        assert(b.subrange(q, q + 4) =~= encode_u32s(s).subrange(tl, sl));
        assert(encode_u32s(s).subrange(tl, sl) =~= be32(s.last()));
        lemma_be32_round_trip(s.last(), b, q);
        assert(t.push(s.last()) =~= s);
        assert(decode_u32s(b, p, s.len()) == Ok::<(Seq<u32>, int), PersistenceError>(
            (t.push(s.last()), q + 4),
        ));
    } else {
        assert(s =~= seq![]);
    }
}

/// Splitting a matched concatenation.
proof fn lemma_split(b: Seq<u8>, p: int, e1: Seq<u8>, e2: Seq<u8>)
    requires
        0 <= p,
        p + e1.len() + e2.len() <= b.len(),
        b.subrange(p, p + e1.len() + e2.len()) == e1 + e2,
    ensures
        b.subrange(p, p + e1.len()) == e1,
        b.subrange(p + e1.len(), p + e1.len() + e2.len()) == e2,
{
    assert(b.subrange(p, p + e1.len()) =~= (e1 + e2).subrange(0, e1.len() as int));
    assert((e1 + e2).subrange(0, e1.len() as int) =~= e1);
    assert(b.subrange(p + e1.len(), p + e1.len() + e2.len()) =~= (e1 + e2).subrange(
        e1.len() as int,
        (e1.len() + e2.len()) as int,
    ));
    assert((e1 + e2).subrange(e1.len() as int, (e1.len() + e2.len()) as int) =~= e2);
}

/// A record the file can hold: a known kind, at most `u32::MAX` region
/// channels, and no population or goods on kinds that store none.
pub open spec fn storable(r: Record) -> bool {
    &&& r.0 <= 7
    &&& r.5.len() <= u32::MAX
    &&& !has_population(r.0) ==> r.1 == 0
    &&& r.0 != 6 ==> r.2 == 0 && r.3 == 0
}

proof fn lemma_decode_record(r: Record, b: Seq<u8>, p: int)
    requires
        storable(r),
        0 <= p,
        p + encode_record(r).len() <= b.len(),
        b.subrange(p, p + encode_record(r).len()) == encode_record(r),
    ensures
        decode_record(b, p) == Ok::<(Record, int), PersistenceError>(
            (r, p + encode_record(r).len()),
        ),
{
    let k = r.0;
    let popb: Seq<u8> = if has_population(k) {
        be64(r.1)
    } else {
        seq![]
    };
    let goodsb: Seq<u8> = if k == 6 {
        be32(r.2) + be32(r.3)
    } else {
        seq![]
    };
    let tail = be32(r.4) + be32(r.5.len() as u32) + encode_u32s(r.5);
    assert(encode_record(r) =~= seq![k] + popb + goodsb + tail);
    lemma_encode_u32s_len(r.5);
    let e = encode_record(r);
    lemma_split(b, p, seq![k] + popb + goodsb, tail);
    lemma_split(b, p, seq![k] + popb, goodsb);
    lemma_split(b, p, seq![k], popb);
    assert(b[p] == b.subrange(p, p + 1)[0]);
    let q1 = p + 1;
    let q2 = q1 + popb.len();
    let q3 = q2 + goodsb.len();
    if has_population(k) {
        lemma_be64_round_trip(r.1, b, q1);
    }
    if k == 6 {
        lemma_split(b, q2, be32(r.2), be32(r.3));
        lemma_be32_round_trip(r.2, b, q2);
        lemma_be32_round_trip(r.3, b, q2 + 4);
    }
    lemma_split(b, q3, be32(r.4) + be32(r.5.len() as u32), encode_u32s(r.5));
    lemma_split(b, q3, be32(r.4), be32(r.5.len() as u32));
    lemma_be32_round_trip(r.4, b, q3);
    lemma_be32_round_trip(r.5.len() as u32, b, q3 + 4);
    lemma_decode_u32s(r.5, b, q3 + 8);
}

proof fn lemma_decode_records(rs: Seq<Record>, b: Seq<u8>, p: int)
    requires
        forall|k: int| 0 <= k < rs.len() ==> storable(#[trigger] rs[k]),
        0 <= p,
        p + encode_records(rs).len() <= b.len(),
        b.subrange(p, p + encode_records(rs).len()) == encode_records(rs),
    ensures
        decode_records(b, p, rs.len()) == Ok::<(Seq<Record>, int), PersistenceError>(
            (rs, p + encode_records(rs).len()),
        ),
    decreases rs.len(),
{
    if rs.len() > 0 {
        let t = rs.drop_last();
        let et = encode_records(t);
        let er = encode_record(rs.last());
        assert(encode_records(rs) == et + er);
        lemma_split(b, p, et, er);
        lemma_decode_records(t, b, p);
        assert(storable(rs[rs.len() - 1]));
        lemma_decode_record(rs.last(), b, p + et.len());
        assert(t.push(rs.last()) =~= rs);
    } else {
        assert(rs =~= seq![]);
    }
}

/// A grid whose file can be written: its size and every tile's channel
/// count fit in 32 bits.
pub open spec fn saveable(g: &TileGrid) -> bool {
    &&& g.width <= u32::MAX
    &&& g.height <= u32::MAX
    &&& g.tiles@.len() == g.width * g.height
    &&& forall|i: int| 0 <= i < g.tiles@.len() ==> (#[trigger] g.tiles@[i]).0.regions@.len() <= u32::MAX
}

/// Reading back a saved grid gives its size and, cell by cell, its kind,
/// population, production, stored goods, level and region labels; and when
/// the grid is consistent and its zones have the catalogue's configuration,
/// every record fits, so loading it into a grid with as many region
/// channels succeeds.
pub proof fn lemma_save_load_round_trip(g: &TileGrid, atlas: &TileAtlas)
    requires
        saveable(g),
    ensures
        decode_grid(encode_grid(g.width as u32, g.height as u32, g.tiles@)) == Ok::<
            (u32, u32, Seq<Record>),
            PersistenceError,
        >((g.width as u32, g.height as u32, records_of(g.tiles@))),
        g.wf() && zones_match_atlas(g, atlas) ==> forall|i: int|
            0 <= i < g.tiles@.len() ==> record_fits(
                #[trigger] records_of(g.tiles@)[i],
                atlas,
                g.num_regions@.len(),
            ),
{
    if g.wf() && zones_match_atlas(g, atlas) {
        lemma_records_fit(g, atlas);
    }
    lemma_decode_saved(g);
}

proof fn lemma_records_fit(g: &TileGrid, atlas: &TileAtlas)
    requires
        g.wf(),
        zones_match_atlas(g, atlas),
    ensures
        forall|i: int|
            0 <= i < g.tiles@.len() ==> record_fits(
                #[trigger] records_of(g.tiles@)[i],
                atlas,
                g.num_regions@.len(),
            ),
{
    assert forall|i: int| 0 <= i < g.tiles@.len() implies record_fits(
        #[trigger] records_of(g.tiles@)[i],
        atlas,
        g.num_regions@.len(),
    ) by {
        assert(g.tiles@[i].0.wf(g.num_regions@.len()));
    }
}

proof fn lemma_decode_saved(g: &TileGrid)
    requires
        saveable(g),
    ensures
        decode_grid(encode_grid(g.width as u32, g.height as u32, g.tiles@)) == Ok::<
            (u32, u32, Seq<Record>),
            PersistenceError,
        >((g.width as u32, g.height as u32, records_of(g.tiles@))),
{
    let w = g.width as u32;
    let h = g.height as u32;
    let rs = records_of(g.tiles@);
    let b = encode_grid(w, h, g.tiles@);
    let er = encode_records(rs);
    assert forall|k: int| 0 <= k < rs.len() implies storable(#[trigger] rs[k]) by {
        assert(g.tiles@[k].0.regions@.len() <= u32::MAX);
    }
    assert(b == be32(w) + be32(h) + er);
    assert(b.subrange(0, b.len() as int) =~= b);
    lemma_split(b, 0, be32(w) + be32(h), er);
    lemma_split(b, 0, be32(w), be32(h));
    lemma_be32_round_trip(w, b, 0);
    lemma_be32_round_trip(h, b, 4);
    assert(b.subrange(8, 8 + er.len() as int) == er);
    assert(rs.len() == (w * h) as nat);
    lemma_decode_records(rs, b, 8);
}

/// The catalogue's kind for kind number `k` (void for 0).
pub open spec fn atlas_type(atlas: &TileAtlas, k: u8) -> TileType {
    if k == 1 {
        atlas.grass.tile_type
    } else if k == 2 {
        atlas.forest.tile_type
    } else if k == 3 {
        atlas.water.tile_type
    } else if k == 4 {
        atlas.residential.tile_type
    } else if k == 5 {
        atlas.commercial.tile_type
    } else if k == 6 {
        atlas.industrial.tile_type
    } else if k == 7 {
        atlas.road.tile_type
    } else {
        TileType::Void
    }
}

/// The catalogue's build cost for kind number `k` (0 for void).
pub open spec fn atlas_cost(atlas: &TileAtlas, k: u8) -> u32 {
    if k == 1 {
        atlas.grass.cost
    } else if k == 2 {
        atlas.forest.cost
    } else if k == 3 {
        atlas.water.cost
    } else if k == 4 {
        atlas.residential.cost
    } else if k == 5 {
        atlas.commercial.cost
    } else if k == 6 {
        atlas.industrial.cost
    } else if k == 7 {
        atlas.road.cost
    } else {
        0
    }
}

/// The kind, with its state, that a loaded record gives.
pub open spec fn type_from_record(r: Record, atlas: &TileAtlas) -> TileType {
    atlas_type(atlas, r.0).with_population(r.1).with_goods(r.2, r.3)
}

/// A record fits the catalogue and `channels` region channels: it has that
/// many labels, and a zone is at most at its top level and within capacity.
pub open spec fn record_fits(r: Record, atlas: &TileAtlas, channels: nat) -> bool {
    let t = atlas_type(atlas, r.0);
    &&& r.5.len() == channels
    &&& has_population(r.0) ==> r.4 <= t.top_level() && r.1 <= capacity_units(t.per_level(), r.4)
}

/// Every zone of the grid has the catalogue's capacity and top level.
pub open spec fn zones_match_atlas(g: &TileGrid, atlas: &TileAtlas) -> bool {
    forall|i: int|
        0 <= i < g.tiles@.len() && (#[trigger] g.tiles@[i]).0.tile_type.is_zoned() ==> {
            let t = g.tiles@[i].0.tile_type;
            let a = atlas_type(atlas, t.kind());
            t.per_level() == a.per_level() && t.top_level() == a.top_level()
        }
}

/// What a successful load leaves: the decoded size and cells, with the
/// catalogue's configuration, 255 raw resources and nothing selected.
pub open spec fn loaded_from(g: &TileGrid, w: u32, h: u32, rs: Seq<Record>, atlas: &TileAtlas) -> bool {
    &&& g.width == w
    &&& g.height == h
    &&& g.tiles@.len() == rs.len()
    &&& g.num_selected == 0
    &&& records_of(g.tiles@) == rs
    &&& forall|i: int|
        0 <= i < rs.len() ==> {
            let c = #[trigger] g.tiles@[i];
            &&& c.0.tile_type == type_from_record(rs[i], atlas)
            &&& c.0.cost == atlas_cost(atlas, rs[i].0)
            &&& c.1 == 255
            &&& c.2 == Selection::Deselected
        }
}

proof fn lemma_u32s_err(b: Seq<u8>, p: int, k: nat, m: nat)
    requires
        k <= m,
        decode_u32s(b, p, k).is_err(),
    ensures
        decode_u32s(b, p, m) == decode_u32s(b, p, k),
    decreases m - k,
{
    if k < m {
        lemma_u32s_err(b, p, k, (m - 1) as nat);
    }
}

proof fn lemma_records_err(b: Seq<u8>, p: int, k: nat, m: nat)
    requires
        k <= m,
        decode_records(b, p, k).is_err(),
    ensures
        decode_records(b, p, m) == decode_records(b, p, k),
    decreases m - k,
{
    if k < m {
        lemma_records_err(b, p, k, (m - 1) as nat);
    }
}

fn put_u32(out: &mut Vec<u8>, v: u32)
    ensures
        final(out)@ == old(out)@ + be32(v),
{
    out.push((v >> 24u32) as u8);
    out.push((v >> 16u32) as u8);
    out.push((v >> 8u32) as u8);
    out.push(v as u8);
    proof {
        assert(out@ =~= old(out)@ + be32(v));
    }
}

fn put_u64(out: &mut Vec<u8>, v: u64)
    ensures
        final(out)@ == old(out)@ + be64(v),
{
    out.push((v >> 56u64) as u8);
    out.push((v >> 48u64) as u8);
    out.push((v >> 40u64) as u8);
    out.push((v >> 32u64) as u8);
    out.push((v >> 24u64) as u8);
    out.push((v >> 16u64) as u8);
    out.push((v >> 8u64) as u8);
    out.push(v as u8);
    proof {
        assert(out@ =~= old(out)@ + be64(v));
    }
}

fn get_u32(b: &[u8], p: usize) -> (r: u32)
    requires
        p + 4 <= b@.len(),
    ensures
        r == u32_at(b@, p as int),
{
    ((b[p] as u32) << 24u32) | ((b[p + 1] as u32) << 16u32) | ((b[p + 2] as u32) << 8u32) | (b[p
        + 3] as u32)
}

fn get_u64(b: &[u8], p: usize) -> (r: u64)
    requires
        p + 8 <= b@.len(),
    ensures
        r == u64_at(b@, p as int),
{
    let n = b.len();
    ((get_u32(b, p) as u64) << 32u64) | (get_u32(b, p + 4) as u64)
}

/// Appends the record of `t`.
fn put_record(out: &mut Vec<u8>, t: &Tile)
    requires
        t.regions@.len() <= u32::MAX,
    ensures
        final(out)@ == old(out)@ + encode_record(record_of(*t)),
{
    let ghost start = out@;
    let k = t.tile_type.kind_code();
    out.push(k);
    let ghost s1 = out@;
    match t.tile_type {
        TileType::Residential { population, .. } => put_u64(out, population),
        TileType::Commercial { population, .. } => put_u64(out, population),
        TileType::Industrial { population, production, stored_goods, .. } => {
            put_u64(out, population);
            put_u32(out, production);
            put_u32(out, stored_goods);
        },
        _ => {},
    }
    let ghost s2 = out@;
    put_u32(out, t.variant);
    put_u32(out, t.regions.len() as u32);
    let ghost s3 = out@;
    let mut i: usize = 0;
    while i < t.regions.len()
        invariant
            i <= t.regions@.len(),
            out@ == s3 + encode_u32s(t.regions@.subrange(0, i as int)),
        decreases t.regions@.len() - i,
    {
        put_u32(out, t.regions[i]);
        proof {
            assert(t.regions@.subrange(0, i + 1).drop_last() =~= t.regions@.subrange(0, i as int));
        }
        i = i + 1;
    }
    proof {
        assert(t.regions@.subrange(0, i as int) =~= t.regions@);
        let r = record_of(*t);
        let popb: Seq<u8> = if has_population(r.0) {
            be64(r.1)
        } else {
            seq![]
        };
        let goodsb: Seq<u8> = if r.0 == 6 {
            be32(r.2) + be32(r.3)
        } else {
            seq![]
        };
        assert(s2 =~= start + seq![k] + popb + goodsb);
        assert(out@ =~= start + encode_record(r));
    }
}

/// Reads `count` big-endian `u32`s from `p` on.
fn read_u32s(b: &[u8], p: usize, count: u32) -> (r: Result<(Vec<u32>, usize), PersistenceError>)
    ensures
        match r {
            Ok((v, q)) => decode_u32s(b@, p as int, count as nat) == Ok::<
                (Seq<u32>, int),
                PersistenceError,
            >((v@, q as int)),
            Err(e) => decode_u32s(b@, p as int, count as nat) == Err::<
                (Seq<u32>, int),
                PersistenceError,
            >(e),
        },
{
    let mut v: Vec<u32> = Vec::new();
    let mut q = p;
    let mut k: u32 = 0;
    while k < count
        invariant
            k <= count,
            decode_u32s(b@, p as int, k as nat) == Ok::<(Seq<u32>, int), PersistenceError>(
                (v@, q as int),
            ),
            q <= b@.len() || k == 0,
        decreases count - k,
    {
        if q > b.len() || b.len() - q < 4 {
            proof {
                assert(decode_u32s(b@, p as int, (k + 1) as nat) == Err::<
                    (Seq<u32>, int),
                    PersistenceError,
                >(PersistenceError::IoFailure));
                lemma_u32s_err(b@, p as int, (k + 1) as nat, count as nat);
            }
            return Err(PersistenceError::IoFailure);
        }
        let x = get_u32(b, q);
        v.push(x);
        q = q + 4;
        k = k + 1;
    }
    Ok((v, q))
}

/// Reads the tile record at `p`: kind, population, production, stored
/// goods, level, region labels and the position after it.
fn read_record(b: &[u8], p: usize) -> (r: Result<(u8, u64, u32, u32, u32, Vec<u32>, usize), PersistenceError>)
    ensures
        match r {
            Ok((k, pop, prod, st, var, regs, q)) => {
                &&& decode_record(b@, p as int) == Ok::<(Record, int), PersistenceError>(
                    ((k, pop, prod, st, var, regs@), q as int),
                )
                &&& k <= 7
                &&& !has_population(k) ==> pop == 0
                &&& k != 6 ==> prod == 0 && st == 0
            },
            Err(e) => decode_record(b@, p as int) == Err::<(Record, int), PersistenceError>(e),
        },
{
    if p >= b.len() {
        return Err(PersistenceError::IoFailure);
    }
    let k = b[p];
    if k > 7 {
        return Err(PersistenceError::InvalidFormat { offset: p, value: k });
    }
    let mut q = p + 1;
    let mut pop: u64 = 0;
    if k >= 4 && k <= 6 {
        if b.len() - q < 8 {
            return Err(PersistenceError::IoFailure);
        }
        pop = get_u64(b, q);
        q = q + 8;
    }
    let mut prod: u32 = 0;
    let mut st: u32 = 0;
    if k == 6 {
        if b.len() - q < 8 {
            return Err(PersistenceError::IoFailure);
        }
        prod = get_u32(b, q);
        st = get_u32(b, q + 4);
        q = q + 8;
    }
    if b.len() - q < 8 {
        return Err(PersistenceError::IoFailure);
    }
    let var = get_u32(b, q);
    let count = get_u32(b, q + 4);
    match read_u32s(b, q + 8, count) {
        Ok((regs, q4)) => Ok((k, pop, prod, st, var, regs, q4)),
        Err(e) => Err(e),
    }
}

/// The tile that a record gives, with the catalogue's configuration.
fn tile_from_record(
    k: u8,
    pop: u64,
    prod: u32,
    st: u32,
    var: u32,
    regs: Vec<u32>,
    atlas: &TileAtlas,
) -> (t: Tile)
    requires
        k <= 7,
        !has_population(k) ==> pop == 0,
        k != 6 ==> prod == 0 && st == 0,
        atlas.wf(),
    ensures
        t.tile_type == type_from_record((k, pop, prod, st, var, regs@), atlas),
        t.cost == atlas_cost(atlas, k),
        t.variant == var,
        t.regions@ == regs@,
        record_of(t) == (k, pop, prod, st, var, regs@),
        t.tile_type.per_level() == atlas_type(atlas, k).per_level(),
        t.tile_type.top_level() == atlas_type(atlas, k).top_level(),
        t.tile_type.config_ok(),
{
    let (base, cost) = if k == 1 {
        (atlas.grass.tile_type, atlas.grass.cost)
    } else if k == 2 {
        (atlas.forest.tile_type, atlas.forest.cost)
    } else if k == 3 {
        (atlas.water.tile_type, atlas.water.cost)
    } else if k == 4 {
        (atlas.residential.tile_type, atlas.residential.cost)
    } else if k == 5 {
        (atlas.commercial.tile_type, atlas.commercial.cost)
    } else if k == 6 {
        (atlas.industrial.tile_type, atlas.industrial.cost)
    } else if k == 7 {
        (atlas.road.tile_type, atlas.road.cost)
    } else {
        (TileType::Void, 0u32)
    };
    let tile_type = match base {
        TileType::Residential { max_pop_per_level, max_levels, .. } => TileType::Residential {
            population: pop,
            max_pop_per_level,
            max_levels,
        },
        TileType::Commercial { max_pop_per_level, max_levels, .. } => TileType::Commercial {
            population: pop,
            max_pop_per_level,
            max_levels,
        },
        TileType::Industrial { max_pop_per_level, max_levels, .. } => TileType::Industrial {
            population: pop,
            max_pop_per_level,
            production: prod,
            stored_goods: st,
            max_levels,
        },
        other => other,
    };
    Tile { tile_type, variant: var, regions: regs, cost }
}

impl TileGrid {
    /// The grid's file.
    pub fn save(&self) -> (r: Vec<u8>)
        requires
            saveable(self),
        ensures
            r@ == encode_grid(self.width as u32, self.height as u32, self.tiles@),
    {
        let mut out: Vec<u8> = Vec::new();
        put_u32(&mut out, self.width as u32);
        put_u32(&mut out, self.height as u32);
        let ghost head = out@;
        let ghost rs = records_of(self.tiles@);
        let mut i: usize = 0;
        while i < self.tiles.len()
            invariant
                i <= self.tiles@.len(),
                saveable(self),
                rs == records_of(self.tiles@),
                out@ == head + encode_records(rs.subrange(0, i as int)),
            decreases self.tiles@.len() - i,
        {
            proof {
                assert(self.tiles@[i as int].0.regions@.len() <= u32::MAX);
            }
            put_record(&mut out, &self.tiles[i].0);
            proof {
                assert(rs.subrange(0, i + 1).drop_last() =~= rs.subrange(0, i as int));
                assert(rs.subrange(0, i + 1).last() == rs[i as int]);
            }
            i = i + 1;
        }
        proof {
            assert(rs.subrange(0, i as int) =~= rs);
        }
        out
    }

    /// Replaces the grid by the one in `bytes` (see the module's format). On
    /// any error the grid is left as it was: a format error as the decoder
    /// finds it, else the first tile that does not fit the catalogue or the
    /// grid's region channels.
    pub fn load(&mut self, bytes: &[u8], tile_atlas: &TileAtlas) -> (r: Result<(), PersistenceError>)
        requires
            old(self).wf(),
            tile_atlas.wf(),
        ensures
            r.is_err() ==> *final(self) == *old(self),
            match decode_grid(bytes@) {
                Err(e) => r == Err::<(), PersistenceError>(e),
                Ok((w, h, rs)) => match r {
                    Ok(()) => {
                        &&& forall|i: int|
                            0 <= i < rs.len() ==> record_fits(
                                #[trigger] rs[i],
                                tile_atlas,
                                old(self).num_regions@.len(),
                            )
                        &&& loaded_from(final(self), w, h, rs, tile_atlas)
                        &&& final(self).wf()
                        &&& final(self).num_regions == old(self).num_regions
                    },
                    Err(PersistenceError::InvalidTile { index }) => {
                        &&& index < rs.len()
                        &&& !record_fits(rs[index as int], tile_atlas, old(self).num_regions@.len())
                        &&& forall|j: int|
                            0 <= j < index ==> record_fits(
                                #[trigger] rs[j],
                                tile_atlas,
                                old(self).num_regions@.len(),
                            )
                    },
                    Err(_) => false,
                },
            },
    {
        let n = bytes.len();
        if n < 8 {
            return Err(PersistenceError::IoFailure);
        }
        let w = get_u32(bytes, 0);
        let h = get_u32(bytes, 4);
        proof {
            assert((w as u64) * (h as u64) <= u64::MAX) by (nonlinear_arith)
                requires
                    w <= u32::MAX,
                    h <= u32::MAX,
            ;
        }
        let count: u64 = w as u64 * h as u64;
        let mut tiles: Vec<(Tile, u8, Selection)> = Vec::new();
        let ghost mut recs: Seq<Record> = seq![];
        let mut pos: usize = 8;
        let mut k: u64 = 0;
        while k < count
            invariant
                k <= count,
                count == w * h,
                bytes@.len() >= 8,
                w == u32_at(bytes@, 0),
                h == u32_at(bytes@, 4),
                tile_atlas.wf(),
                decode_records(bytes@, 8, k as nat) == Ok::<(Seq<Record>, int), PersistenceError>(
                    (recs, pos as int),
                ),
                tiles@.len() == k,
                recs.len() == k,
                forall|i: int|
                    0 <= i < k ==> {
                        let c = #[trigger] tiles@[i];
                        &&& c.0.tile_type == type_from_record(recs[i], tile_atlas)
                        &&& c.0.cost == atlas_cost(tile_atlas, recs[i].0)
                        &&& record_of(c.0) == recs[i]
                        &&& c.0.tile_type.per_level() == atlas_type(tile_atlas, recs[i].0).per_level()
                        &&& c.0.tile_type.top_level() == atlas_type(tile_atlas, recs[i].0).top_level()
                        &&& c.0.tile_type.config_ok()
                        &&& c.1 == 255
                        &&& c.2 == Selection::Deselected
                    },
            decreases count - k,
        {
            match read_record(bytes, pos) {
                Ok((kind, pop, prod, st, var, regs, q)) => {
                    let ghost rec = (kind, pop, prod, st, var, regs@);
                    let t = tile_from_record(kind, pop, prod, st, var, regs, tile_atlas);
                    tiles.push((t, 255u8, Selection::Deselected));
                    proof {
                        recs = recs.push(rec);
                    }
                    pos = q;
                    k = k + 1;
                },
                Err(e) => {
                    proof {
                        assert(decode_records(bytes@, 8, (k + 1) as nat) == Err::<
                            (Seq<Record>, int),
                            PersistenceError,
                        >(e));
                        lemma_records_err(bytes@, 8, (k + 1) as nat, count as nat);
                        assert(u32_at(bytes@, 0) == w && u32_at(bytes@, 4) == h);
                        assert(count as nat == (w * h) as nat);
                        assert(decode_grid(bytes@) == Err::<(u32, u32, Seq<Record>), PersistenceError>(e));
                    }
                    return Err(e);
                },
            }
        }
        let channels = self.num_regions.len();
        proof {
            assert(decode_grid(bytes@) == Ok::<(u32, u32, Seq<Record>), PersistenceError>((w, h, recs)));
        }
        let mut i: usize = 0;
        while i < tiles.len()
            invariant
                decode_grid(bytes@) == Ok::<(u32, u32, Seq<Record>), PersistenceError>((w, h, recs)),
                i <= tiles@.len(),
                tiles@.len() == recs.len(),
                channels == old(self).num_regions@.len(),
                *self == *old(self),
                forall|j: int| 0 <= j < i ==> record_fits(#[trigger] recs[j], tile_atlas, channels as nat),
                forall|j: int|
                    0 <= j < recs.len() ==> {
                        let c = #[trigger] tiles@[j];
                        &&& record_of(c.0) == recs[j]
                        &&& c.0.tile_type.per_level() == atlas_type(tile_atlas, recs[j].0).per_level()
                        &&& c.0.tile_type.top_level() == atlas_type(tile_atlas, recs[j].0).top_level()
                        &&& c.0.tile_type.config_ok()
                    },
            decreases tiles@.len() - i,
        {
            let t = &tiles[i].0;
            let fits = if t.regions.len() != channels {
                false
            } else if t.tile_type.is_zoned_exec() {
                if t.variant > t.tile_type.top_level_exec() {
                    false
                } else {
                    t.tile_type.get_population() <= t.get_capacity()
                }
            } else {
                true
            };
            proof {
                let rec = recs[i as int];
                assert(record_of(tiles@[i as int].0) == rec);
                assert(t.tile_type.is_zoned() == has_population(rec.0));
                assert(fits == record_fits(rec, tile_atlas, channels as nat));
            }
            if !fits {
                proof {
                    let rr = Err::<(), PersistenceError>(PersistenceError::InvalidTile { index: i });
                    assert(rr == Err::<(), PersistenceError>(PersistenceError::InvalidTile { index: i })
                        && i < recs.len() && !record_fits(recs[i as int], tile_atlas, channels as nat)
                        && forall|j: int|
                        0 <= j < i ==> record_fits(#[trigger] recs[j], tile_atlas, channels as nat));
                }
                return Err(PersistenceError::InvalidTile { index: i });
            }
            i = i + 1;
        }
        proof {
            assert(records_of(tiles@) =~= recs);
            assert(count == w * h);
            assert(tiles@.len() == (w as usize) * (h as usize));
            assert forall|j: int| 0 <= j < tiles@.len() implies (#[trigger] tiles@[j]).0.wf(
                channels as nat,
            ) by {
                assert(record_fits(recs[j], tile_atlas, channels as nat));
                assert(record_of(tiles@[j].0) == recs[j]);
            }
        }
        self.width = w as usize;
        self.height = h as usize;
        self.tiles = tiles;
        self.num_selected = 0;
        Ok(())
    }
}

} // verus!
