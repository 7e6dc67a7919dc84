use vstd::prelude::*;
use crate::tile_id::{
    MAX_TILE_ID, spec_tile_id, tiles_on_level, zoom_of_tile_id, lemma_tile_id_in_level, lemma_zoom_of_tile_id,
};

verus! {

/// A tile's IPC stream does not continue where the shared schema message
/// ends, so dropping the schema bytes would cut the tile's data wrongly.
#[derive(Clone, Copy, Debug, PartialEq, Eq, Structural)]
pub enum FramingError {
    SchemaSizeMismatch,
}

/// The continuation marker that starts every message of an Arrow IPC stream.
pub open spec fn continuation_marker() -> Seq<u8> {
    seq![0xFFu8, 0xFFu8, 0xFFu8, 0xFFu8]
}

/// The stream of one tile continues with a new message right after the
/// first `schema_size` bytes (or has nothing after them).
pub open spec fn framing_intact(stream: Seq<u8>, schema_size: nat) -> bool {
    stream.len() == schema_size || stream.subrange(schema_size as int, schema_size + 4int) == continuation_marker()
}

/// Law: a stream's framing is intact exactly when it ends with the schema,
/// or each of the four bytes right after the schema is `0xFF`.
pub proof fn lemma_framing_checks_marker_bytes(stream: Seq<u8>, schema_size: nat)
    requires
        schema_size <= stream.len(),
        stream.len() > schema_size ==> stream.len() >= schema_size + 4,
    ensures
        framing_intact(stream, schema_size) <==> (stream.len() == schema_size || ({
            &&& stream[schema_size as int] == 0xFF
            &&& stream[schema_size + 1int] == 0xFF
            &&& stream[schema_size + 2int] == 0xFF
            &&& stream[schema_size + 3int] == 0xFF
        })),
{
    if stream.len() > schema_size {
        let sub = stream.subrange(schema_size as int, schema_size + 4int);
        assert(sub[0] == stream[schema_size as int]);
        assert(sub[1] == stream[schema_size + 1int]);
        assert(sub[2] == stream[schema_size + 2int]);
        assert(sub[3] == stream[schema_size + 3int]);
        if stream[schema_size as int] == 0xFF && stream[schema_size + 1int] == 0xFF && stream[schema_size + 2int] == 0xFF
            && stream[schema_size + 3int] == 0xFF {
            assert(sub =~= continuation_marker());
        }
    }
}

/// The bytes of a tile's IPC stream after the schema message shared by all
/// tiles (and stored once, in the archive metadata). Fails when the stream
/// does not continue with a message marker right after the schema.
pub fn strip_schema_prefix(stream: &Vec<u8>, schema_size: usize) -> (payload: Result<Vec<u8>, FramingError>)
    requires
        schema_size <= stream.len(),
        stream.len() > schema_size ==> stream.len() >= schema_size + 4,
    ensures
        payload is Ok <==> framing_intact(stream@, schema_size as nat),
        payload matches Ok(p) ==> p@ == stream@.skip(schema_size as int),
        stream.len() == schema_size ==> payload is Ok,
        stream.len() > schema_size ==> (payload is Ok <==> ({
            &&& stream@[schema_size as int] == 0xFF
            &&& stream@[schema_size + 1] == 0xFF
            &&& stream@[schema_size + 2] == 0xFF
            &&& stream@[schema_size + 3] == 0xFF
        })),
{
    proof {
        lemma_framing_checks_marker_bytes(stream@, schema_size as nat);
    }
    let n = stream.len();
    if n > schema_size {
        let intact = stream[schema_size] == 0xFF && stream[schema_size + 1] == 0xFF
            && stream[schema_size + 2] == 0xFF && stream[schema_size + 3] == 0xFF;
        if !intact {
            proof {
                let sub = stream@.subrange(schema_size as int, schema_size + 4);
                if sub == continuation_marker() {
                    assert(sub[0] == stream@[schema_size as int]);
                    assert(sub[1] == stream@[schema_size + 1]);
                    assert(sub[2] == stream@[schema_size + 2]);
                    assert(sub[3] == stream@[schema_size + 3]);
                }
            }
            return Err(FramingError::SchemaSizeMismatch);
        }
        assert(stream@.subrange(schema_size as int, schema_size + 4) =~= continuation_marker());
    }
    let mut payload: Vec<u8> = Vec::new();
    let mut i = schema_size;
    while i < n
        invariant
            schema_size <= i <= n,
            n == stream.len(),
            payload@ == stream@.subrange(schema_size as int, i as int),
        decreases n - i,
    {
        payload.push(stream[i]);
        i = i + 1;
        assert(payload@ =~= stream@.subrange(schema_size as int, i as int));
    }
    assert(payload@ =~= stream@.skip(schema_size as int));
    Ok(payload)
}

/// The x and y of the tile that `pmtiles` derives from a tile id.
pub uninterp spec fn pmtiles_tile_xy(tid: u64) -> (u32, u32);

/// Calls `pmtiles::TileId::new` and converts the id into a
/// `pmtiles::TileCoord`. Trusted: ids above `MAX_TILE_ID` are refused;
/// otherwise the zoom is the highest level whose first id is at most `tid`
/// (the crate scans its pyramid-size table for it), level 0 has the single
/// tile (0, 0), and x and y are named by `pmtiles_tile_xy` (the crate maps
/// the index on the level back onto its Hilbert curve).
#[verifier::external_body]
fn pmtiles_coord_of_id(tid: u64) -> (coord: Option<(u8, u32, u32)>)
    ensures
        coord is Some <==> tid <= MAX_TILE_ID,
        coord matches Some(c) ==> {
            &&& c.0 as nat == zoom_of_tile_id(tid as nat)
            &&& (c.1, c.2) == pmtiles_tile_xy(tid)
            &&& c.0 == 0 ==> c.1 == 0 && c.2 == 0
        },
{
    match pmtiles::TileId::new(tid) {
        Ok(id) => {
            let coord: pmtiles::TileCoord = id.into();
            Some((coord.z(), coord.x(), coord.y()))
        },
        Err(_) => None,
    }
}

/// A tile position in a PMTiles archive.
#[derive(Clone, Copy, Debug, PartialEq, Eq, Structural)]
pub struct TileCoordinate {
    pub z: u8,
    pub x: u32,
    pub y: u32,
}

/// The archive position of the tile with id `tid`, or `None` when the id is
/// beyond the PMTiles id space.
pub fn tile_coordinate(tid: u64) -> (coord: Option<TileCoordinate>)
    ensures
        coord is Some <==> tid <= MAX_TILE_ID,
        coord matches Some(c) ==> {
            &&& c.z as nat == zoom_of_tile_id(tid as nat)
            &&& (c.x, c.y) == pmtiles_tile_xy(tid)
            &&& c.z == 0 ==> c.x == 0 && c.y == 0
        },
{
    match pmtiles_coord_of_id(tid) {
        Some((z, x, y)) => Some(TileCoordinate { z, x, y }),
        None => None,
    }
}

/// Law: a tile id made from a level and an index on it (as the bucketer
/// makes them) is accepted by `tile_coordinate`, which reads back that level.
pub proof fn lemma_tile_coordinate_reads_back_level(z: nat, h: nat)
    requires
        z <= 31,
        h < tiles_on_level(z),
    ensures
        spec_tile_id(z, h) <= MAX_TILE_ID,
        zoom_of_tile_id(spec_tile_id(z, h)) == z,
{
    lemma_tile_id_in_level(z, h);
    lemma_zoom_of_tile_id(z, h);
}

} // verus!
