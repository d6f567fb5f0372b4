//! The global land mask: a 15-arc-second raster held as a set of pixel indices.
use vstd::prelude::*;

use roaring::RoaringTreemap;

use crate::fixed::{clamp, floor_div, floor_div_i128, MICRO, WIDE_LIMIT};
use crate::models::Coordinate;

verus! {

/// Pixels per row of the raster (360° at 240 pixels per degree).
pub const NX: u64 = 86400;

/// Rows of the raster (180° at 240 pixels per degree).
pub const NY: u64 = 43200;

/// Pixels per degree.
pub const PIXELS_PER_DEGREE: i64 = 240;

#[verifier::external_type_specification]
#[verifier::external_body]
pub struct ExRoaringTreemap(RoaringTreemap);

#[verifier::external_type_specification]
#[verifier::external_body]
pub struct ExIoError(std::io::Error);

/// The values that a treemap holds.
pub uninterp spec fn treemap_values(t: RoaringTreemap) -> Set<u64>;

/// The values held by the treemap that an xz-compressed serialized treemap describes.
pub uninterp spec fn xz_treemap_values(bytes: Seq<u8>) -> Set<u64>;

/// Whether bytes are an xz stream of a well-formed serialized treemap.
pub uninterp spec fn xz_treemap_decodes(bytes: Seq<u8>) -> bool;

/// Relies on `RoaringTreemap::new`: the treemap it makes is empty.
#[verifier::external_body]
fn treemap_new() -> (t: RoaringTreemap)
    ensures
        treemap_values(t) == Set::<u64>::empty(),
{
    RoaringTreemap::new()
}

/// Relies on `RoaringTreemap::insert`: adds the value, and returns whether it was absent.
#[verifier::external_body]
fn treemap_insert(t: &mut RoaringTreemap, v: u64) -> (r: bool)
    ensures
        treemap_values(*final(t)) == treemap_values(*old(t)).insert(v),
        r == !treemap_values(*old(t)).contains(v),
{
    t.insert(v)
}

/// Relies on `RoaringTreemap::contains`: whether the value is held.
#[verifier::external_body]
fn treemap_contains(t: &RoaringTreemap, v: u64) -> (r: bool)
    ensures
        r == treemap_values(*t).contains(v),
{
    t.contains(v)
}

/// Relies on `xz2::read::XzDecoder` streaming the decompressed bytes into
/// `RoaringTreemap::deserialize_from`: on success the treemap is the one the
/// bytes describe. Whether it succeeds depends on the bytes alone (the
/// decoder is built without a memory limit).
#[verifier::external_body]
fn treemap_from_xz(bytes: &[u8]) -> (r: Result<RoaringTreemap, std::io::Error>)
    ensures
        r is Ok <==> xz_treemap_decodes(bytes@),
        r matches Ok(t) ==> treemap_values(t) == xz_treemap_values(bytes@),
{
    RoaringTreemap::deserialize_from(xz2::read::XzDecoder::new(bytes))
}

/// Why a land mask could not be loaded.
#[derive(Debug, Clone, Copy, PartialEq, Eq, Structural)]
pub enum MaskError {
    /// The bytes are not an xz stream of a serialized treemap.
    Corrupt,
}

/// The raster column of a longitude: `floor(lon·240 + 43200)`, clamped to the grid.
pub open spec fn pixel_x(lon: int) -> int {
    clamp(floor_div(lon * PIXELS_PER_DEGREE + 43200 * MICRO, MICRO as int), 0, NX - 1)
}

/// The raster row of a latitude: `floor(lat·240 + 21600)`, clamped to the grid.
pub open spec fn pixel_y(lat: int) -> int {
    clamp(floor_div(lat * PIXELS_PER_DEGREE + 21600 * MICRO, MICRO as int), 0, NY - 1)
}

/// The linear raster index of a position.
pub open spec fn pixel_index(c: Coordinate) -> int {
    pixel_y(c.lat as int) * NX + pixel_x(c.lon as int)
}

/// Whether pixel `v` lies in the block of columns `[x0, x1]` and rows `[y0, y1]`.
pub open spec fn in_block(v: int, x0: int, x1: int, y0: int, y1: int) -> bool {
    y0 <= v / (NX as int) <= y1 && x0 <= v % (NX as int) <= x1
}

fn grid_index(v: i64, offset: i64, bound: u64) -> (r: u64)
    requires
        offset == 43200 * MICRO || offset == 21600 * MICRO,
        bound == NX || bound == NY,
    ensures
        r == clamp(
            floor_div(v * PIXELS_PER_DEGREE + offset, MICRO as int),
            0,
            bound - 1,
        ),
{
    let w = v as i128;
    assert(-WIDE_LIMIT <= w * 240 + offset <= WIDE_LIMIT);
    let n = w * (PIXELS_PER_DEGREE as i128) + (offset as i128);
    let f = floor_div_i128(n, MICRO as i128);
    if f < 0 {
        0
    } else if f > (bound - 1) as i128 {
        bound - 1
    } else {
        f as u64
    }
}

proof fn lemma_index_parts(y: int, x: int)
    requires
        0 <= x < NX,
        0 <= y,
    ensures
        (y * NX + x) / (NX as int) == y,
        (y * NX + x) % (NX as int) == x,
{
    vstd::arithmetic::div_mod::lemma_fundamental_div_mod_converse(y * NX + x, NX as int, y, x);
}

/// Land/sea membership over the global 86400 × 43200 raster.
pub struct LandMask {
    pub mask: RoaringTreemap,
}

impl LandMask {
    /// The pixel indices marked as land.
    pub open spec fn land(&self) -> Set<u64> {
        treemap_values(self.mask)
    }

    /// Whether a position falls on a land pixel.
    pub open spec fn land_at(&self, c: Coordinate) -> bool {
        self.land().contains(pixel_index(c) as u64)
    }

    /// A mask with no land.
    pub fn new() -> (r: LandMask)
        ensures
            r.land() == Set::<u64>::empty(),
    {
        LandMask { mask: treemap_new() }
    }

    /// Loads a mask from an xz-compressed serialized treemap of pixel indices.
    pub fn load(compressed: &[u8]) -> (r: Result<LandMask, MaskError>)
        ensures
            r is Ok <==> xz_treemap_decodes(compressed@),
            r matches Ok(m) ==> m.land() == xz_treemap_values(compressed@),
    {
        match treemap_from_xz(compressed) {
            Ok(t) => Ok(LandMask { mask: t }),
            Err(_) => Err(MaskError::Corrupt),
        }
    }

    fn coords_to_indices(&self, lon: i64, lat: i64) -> (r: (u64, u64))
        ensures
            r.0 == pixel_x(lon as int),
            r.1 == pixel_y(lat as int),
            r.0 < NX,
            r.1 < NY,
    {
        (grid_index(lon, 43200 * MICRO, NX), grid_index(lat, 21600 * MICRO, NY))
    }

    /// Marks as land every pixel that the rectangle touches, corners given in micro-degrees.
    pub fn add_land_box(&mut self, min_lon: i64, max_lon: i64, min_lat: i64, max_lat: i64)
        ensures
            forall|v: u64|
                #[trigger] final(self).land().contains(v) <==> (old(self).land().contains(v)
                    || in_block(
                    v as int,
                    pixel_x(min_lon as int),
                    pixel_x(max_lon as int),
                    pixel_y(min_lat as int),
                    pixel_y(max_lat as int),
                )),
    {
        let (min_x, min_y) = self.coords_to_indices(min_lon, min_lat);
        let (max_x, max_y) = self.coords_to_indices(max_lon, max_lat);
        let ghost before = self.land();
        let mut y = min_y;
        while y <= max_y
            invariant
                min_y <= y <= NY,
                y <= max_y + 1 || y == min_y,
                max_y < NY,
                min_x < NX,
                max_x < NX,
                forall|v: u64|
                    #[trigger] self.land().contains(v) <==> (before.contains(v) || in_block(
                        v as int,
                        min_x as int,
                        max_x as int,
                        min_y as int,
                        y - 1,
                    )),
            decreases NY - y,
        {
            let mut x = min_x;
            while x <= max_x
                invariant
                    min_y <= y <= max_y,
                    max_y < NY,
                    min_x <= x,
                    x <= max_x + 1 || x == min_x,
                    min_x < NX,
                    max_x < NX,
                    forall|v: u64|
                        #[trigger] self.land().contains(v) <==> (before.contains(v) || in_block(
                            v as int,
                            min_x as int,
                            max_x as int,
                            min_y as int,
                            y - 1,
                        ) || (v / NX == y && min_x <= v % NX < x)),
                decreases NX - x,
            {
                proof {
                    lemma_index_parts(y as int, x as int);
                }
                let ghost prev = self.land();
                treemap_insert(&mut self.mask, y * NX + x);
                assert forall|v: u64|
                    #[trigger] self.land().contains(v) <==> (before.contains(v) || in_block(
                        v as int,
                        min_x as int,
                        max_x as int,
                        min_y as int,
                        y - 1,
                    ) || (v / NX == y && min_x <= v % NX < x + 1)) by {
                    vstd::arithmetic::div_mod::lemma_fundamental_div_mod(v as int, NX as int);
                }
                x += 1;
            }
            assert forall|v: u64|
                in_block(v as int, min_x as int, max_x as int, min_y as int, y as int) <==> (
                in_block(v as int, min_x as int, max_x as int, min_y as int, y - 1) || (v / NX
                    == y && min_x <= v % NX < x)) by {}
            y += 1;
        }
    }

    /// Whether a position is over land.
    pub fn is_land(&self, coord: &Coordinate) -> (r: bool)
        ensures
            r == self.land_at(*coord),
    {
        let (x, y) = self.coords_to_indices(coord.lon, coord.lat);
        treemap_contains(&self.mask, y * NX + x)
    }
}

} // verus!
