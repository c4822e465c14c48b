//! Sector addressing: conversions between screen coordinates, world
//! coordinates and integer tile indices ("sectors").
//!
//! All coordinates are fixed-point numbers: one world unit, one screen pixel
//! and a zoom multiplier of 1.0 are each `FIXED_ONE` steps. Screen
//! coordinates put the origin at the top-left corner; the camera offset is the
//! world point shown at the centre of the screen.
use vstd::prelude::*;
use vstd::arithmetic::power2::{pow2, lemma_pow2_unfold, lemma_pow2_strictly_increases, lemma2_to64};
use vstd::arithmetic::div_mod::{
    lemma_fundamental_div_mod, lemma_fundamental_div_mod_converse, lemma_div_is_ordered_by_denominator,
};

verus! {

/// Number of fixed-point steps in one world unit, one pixel, or a zoom of 1.0.
pub const FIXED_ONE: i64 = 1_000_000;

/// Half of `FIXED_ONE`: the offset of the screen centre per pixel of extent.
pub const FIXED_HALF: i64 = 500_000;

/// The coarsest level of detail whose tile size the sector arithmetic handles.
pub const MAX_SUPPORTED_LOD: usize = 31;

/// What the library reads of the camera and the window each frame.
#[derive(Clone, Copy, Debug, PartialEq, Eq)]
pub struct CameraSettings {
    /// World x coordinate shown at the screen centre, in fixed-point steps.
    pub x_offset: i64,
    /// World y coordinate shown at the screen centre, in fixed-point steps.
    pub y_offset: i64,
    /// Screen pixels per world unit, in fixed-point steps; positive.
    pub zoom_multiplier: u32,
    /// Screen width in whole pixels.
    pub screen_width: u32,
    /// Screen height in whole pixels.
    pub screen_height: u32,
}

impl CameraSettings {
    pub open spec fn valid(&self) -> bool {
        self.zoom_multiplier > 0
    }
}

/// The world coordinate (rounded down to a fixed-point step) shown at screen
/// coordinate `p` along an axis of `extent` pixels.
pub open spec fn world_coord(p: int, offset: int, zoom: int, extent: int) -> int {
    offset + ((p - extent * FIXED_HALF as int) * FIXED_ONE as int) / zoom
}

/// The screen coordinate (rounded down to a fixed-point step) of world
/// coordinate `w` along an axis of `extent` pixels.
pub open spec fn screen_coord(w: int, offset: int, zoom: int, extent: int) -> int {
    extent * FIXED_HALF as int + ((w - offset) * zoom) / FIXED_ONE as int
}

pub open spec fn fits_i64(v: int) -> bool {
    i64::MIN <= v <= i64::MAX
}

pub open spec fn clamp_i32(v: int) -> int {
    if v < i32::MIN {
        i32::MIN as int
    } else if v > i32::MAX {
        i32::MAX as int
    } else {
        v
    }
}

/// Side length, in fixed-point world steps, of a tile of `dim` pixels at `lod`.
pub open spec fn tile_world_size(dim: int, lod: nat) -> int {
    dim * pow2(lod) * FIXED_ONE as int
}

/// Index of the tile of side `size` that holds world coordinate `coord`:
/// the quotient truncated toward zero, one less for a negative coordinate.
pub open spec fn sector_index(coord: int, size: int) -> int {
    if coord < 0 {
        -((-coord) / size) - 1
    } else {
        coord / size
    }
}

pub open spec fn valid_tile_dims(dims: (u32, u32)) -> bool {
    dims.0 > 0 && dims.1 > 0
}

/// The sector pair that holds screen point `(x, y)` at `lod`.
pub open spec fn sector_at(camera: CameraSettings, x: int, y: int, dims: (u32, u32), lod: nat) -> (int, int) {
    (
        clamp_i32(sector_index(
            world_coord(x, camera.x_offset as int, camera.zoom_multiplier as int, camera.screen_width as int),
            tile_world_size(dims.0 as int, lod),
        )),
        clamp_i32(sector_index(
            world_coord(y, camera.y_offset as int, camera.zoom_multiplier as int, camera.screen_height as int),
            tile_world_size(dims.1 as int, lod),
        )),
    )
}

/// The world coordinates of screen point `(x, y)` fit in 64 bits.
pub open spec fn world_fits(camera: CameraSettings, x: int, y: int) -> bool {
    &&& fits_i64(world_coord(x, camera.x_offset as int, camera.zoom_multiplier as int, camera.screen_width as int))
    &&& fits_i64(world_coord(y, camera.y_offset as int, camera.zoom_multiplier as int, camera.screen_height as int))
}

/// Screen coordinates of the bottom-right corner of the screen.
pub open spec fn screen_corner(camera: CameraSettings) -> (int, int) {
    (camera.screen_width * FIXED_ONE as int, camera.screen_height * FIXED_ONE as int)
}

/// The camera is usable for sector arithmetic: positive zoom, and both screen
/// corners have world coordinates that fit in 64 bits.
pub open spec fn view_fits(camera: CameraSettings) -> bool {
    &&& camera.valid()
    &&& world_fits(camera, 0, 0)
    &&& world_fits(camera, screen_corner(camera).0, screen_corner(camera).1)
}

/// Inclusive (top-left, bottom-right) sector range that covers the screen at `lod`.
pub open spec fn screen_sectors(camera: CameraSettings, dims: (u32, u32), lod: nat) -> ((int, int), (int, int)) {
    (sector_at(camera, 0, 0, dims, lod), sector_at(camera, screen_corner(camera).0, screen_corner(camera).1, dims, lod))
}

pub open spec fn in_range(x: int, y: int, range: ((int, int), (int, int))) -> bool {
    &&& range.0.0 <= x <= range.1.0
    &&& range.0.1 <= y <= range.1.1
}

/// Computes `2^e`.
pub fn pow2_u64(e: usize) -> (r: u64)
    requires
        e <= MAX_SUPPORTED_LOD,
    ensures
        r as nat == pow2(e as nat),
        1 <= r <= 0x8000_0000,
{
    proof {
        lemma2_to64();
    }
    let mut r: u64 = 1;
    let mut i: usize = 0;
    while i < e
        invariant
            i <= e <= MAX_SUPPORTED_LOD,
            r as nat == pow2(i as nat),
            1 <= r <= 0x8000_0000,
        decreases e - i,
    {
        proof {
            lemma_pow2_unfold((i + 1) as nat);
            lemma_pow2_strictly_increases(i as nat, 31);
            lemma2_to64();
        }
        r = r * 2;
        i = i + 1;
    }
    r
}

/// Division rounded toward negative infinity.
pub(crate) fn floor_div(n: i128, d: i128) -> (r: i128)
    requires
        0 < d,
        n > i128::MIN,
    ensures
        r == n / d,
{
    if n >= 0 {
        let q = (n as u128) / (d as u128);
        proof {
            lemma_div_is_ordered_by_denominator(n as int, 1, d as int);
        }
        q as i128
    } else {
        let m: u128 = (-n) as u128;
        let t: u128 = m + (d as u128 - 1);
        let q: u128 = t / (d as u128);
        proof {
            lemma_fundamental_div_mod(t as int, d as int);
            lemma_div_is_ordered_by_denominator(t as int, 1, d as int);
            let ti = t as int;
            let di = d as int;
            let qi = q as int;
            let rem = n + qi * di;
            assert(ti == qi * di + ti % di) by (nonlinear_arith)
                requires ti == di * (ti / di) + ti % di, qi == ti / di;
            assert(0 <= ti % di < di);
            assert(rem == di - 1 - ti % di);
            assert(qi <= m) by (nonlinear_arith)
                requires qi * di <= ti, ti == m + di - 1, di >= 1, m >= 1, qi >= 0;
            assert(n == (-(q as int)) * d + rem) by (nonlinear_arith)
                requires rem == n + q * d;
            lemma_fundamental_div_mod_converse(n as int, d as int, -(q as int), rem as int);
        }
        -(q as i128)
    }
}

/// Converts a world coordinate to a screen coordinate.
pub fn world_pos_to_screen_pos(x: i64, y: i64, camera: &CameraSettings) -> (r: (i64, i64))
    requires
        camera.valid(),
        fits_i64(screen_coord(x as int, camera.x_offset as int, camera.zoom_multiplier as int, camera.screen_width as int)),
        fits_i64(screen_coord(y as int, camera.y_offset as int, camera.zoom_multiplier as int, camera.screen_height as int)),
    ensures
        r.0 == screen_coord(x as int, camera.x_offset as int, camera.zoom_multiplier as int, camera.screen_width as int),
        r.1 == screen_coord(y as int, camera.y_offset as int, camera.zoom_multiplier as int, camera.screen_height as int),
{
    let out_x = axis_world_to_screen(x, camera.x_offset, camera.zoom_multiplier, camera.screen_width);
    let out_y = axis_world_to_screen(y, camera.y_offset, camera.zoom_multiplier, camera.screen_height);
    (out_x, out_y)
}

fn axis_world_to_screen(w: i64, offset: i64, zoom: u32, extent: u32) -> (r: i64)
    requires
        zoom > 0,
        fits_i64(screen_coord(w as int, offset as int, zoom as int, extent as int)),
    ensures
        r == screen_coord(w as int, offset as int, zoom as int, extent as int),
{
    let scaled: i128 = (w as i128 - offset as i128) * (zoom as i128);
    let centre: i128 = extent as i128 * FIXED_HALF as i128;
    (centre + floor_div(scaled, FIXED_ONE as i128)) as i64
}

fn axis_screen_to_world(p: i64, offset: i64, zoom: u32, extent: u32) -> (r: i64)
    requires
        zoom > 0,
        fits_i64(world_coord(p as int, offset as int, zoom as int, extent as int)),
    ensures
        r == world_coord(p as int, offset as int, zoom as int, extent as int),
{
    let centre: i128 = extent as i128 * FIXED_HALF as i128;
    let scaled: i128 = (p as i128 - centre) * (FIXED_ONE as i128);
    (offset as i128 + floor_div(scaled, zoom as i128)) as i64
}

/// Converts a screen coordinate to a world coordinate.
pub fn screen_pos_to_world_pos(x: i64, y: i64, camera: &CameraSettings) -> (r: (i64, i64))
    requires
        camera.valid(),
        world_fits(*camera, x as int, y as int),
    ensures
        r.0 == world_coord(x as int, camera.x_offset as int, camera.zoom_multiplier as int, camera.screen_width as int),
        r.1 == world_coord(y as int, camera.y_offset as int, camera.zoom_multiplier as int, camera.screen_height as int),
{
    let x_out = axis_screen_to_world(x, camera.x_offset, camera.zoom_multiplier, camera.screen_width);
    let y_out = axis_screen_to_world(y, camera.y_offset, camera.zoom_multiplier, camera.screen_height);
    (x_out, y_out)
}

/// A tile's identity: its sector at its level of detail.
#[derive(Clone, Copy, Debug, PartialEq, Eq, Hash, Structural)]
pub struct TileKey {
    pub x: i32,
    pub y: i32,
    pub lod: usize,
}

/// The tile lies inside the range that covers the screen at its own level of detail.
pub open spec fn on_screen(camera: CameraSettings, dims: (u32, u32), key: TileKey) -> bool {
    in_range(key.x as int, key.y as int, screen_sectors(camera, dims, key.lod as nat))
}

/// Index of the tile, `dim` pixels wide at level of detail 0, that holds
/// world coordinate `coord` at `lod`. Indices beyond 32 bits saturate.
pub fn sector_of_world(coord: i64, dim: u32, lod: usize) -> (r: i32)
    requires
        dim > 0,
        lod <= MAX_SUPPORTED_LOD,
    ensures
        r == clamp_i32(sector_index(coord as int, tile_world_size(dim as int, lod as nat))),
{
    let p = pow2_u64(lod);
    assert((dim as u128) * (p as u128) <= 0x8000_0000_0000_0000u128) by (nonlinear_arith)
        requires dim < 0x1_0000_0000u128, p <= 0x8000_0000u128;
    let span: u128 = (dim as u128) * (p as u128);
    assert(span >= 1) by (nonlinear_arith)
        requires span == (dim as u128) * (p as u128), dim >= 1, p >= 1;
    assert(span <= 0x8000_0000_0000_0000u128);
    assert(span * 1_000_000u128 <= 0x8000_0000_0000_0000u128 * 1_000_000u128) by (nonlinear_arith)
        requires span <= 0x8000_0000_0000_0000u128;
    let size: u128 = span * (FIXED_ONE as u128);
    assert(size as int == tile_world_size(dim as int, lod as nat));
    let raw: i64 = if coord < 0 {
        let m: u128 = (-(coord as i128)) as u128;
        let q: u128 = m / size;
        proof {
            lemma_div_is_ordered_by_denominator(m as int, 2, size as int);
        }
        -(q as i64) - 1
    } else {
        let m: u128 = coord as u128;
        let q: u128 = m / size;
        proof {
            lemma_div_is_ordered_by_denominator(m as int, 2, size as int);
        }
        q as i64
    };
    if raw < i32::MIN as i64 {
        i32::MIN
    } else if raw > i32::MAX as i64 {
        i32::MAX
    } else {
        raw as i32
    }
}

/// The sector that holds the given screen point at `lod`.
pub fn sector_at_screen_pos(x: i64, y: i64, camera: &CameraSettings, tile_dimensions: (u32, u32), lod: usize) -> (r: (i32, i32))
    requires
        camera.valid(),
        world_fits(*camera, x as int, y as int),
        valid_tile_dims(tile_dimensions),
        lod <= MAX_SUPPORTED_LOD,
    ensures
        (r.0 as int, r.1 as int) == sector_at(*camera, x as int, y as int, tile_dimensions, lod as nat),
{
    let world = screen_pos_to_world_pos(x, y, camera);
    let sector_x = sector_of_world(world.0, tile_dimensions.0, lod);
    let sector_y = sector_of_world(world.1, tile_dimensions.1, lod);
    (sector_x, sector_y)
}

/// The (top-left, bottom-right) sectors of the range that covers the screen at `lod`.
pub fn get_screen_sectors(camera: &CameraSettings, tile_dimensions: (u32, u32), lod: usize) -> (r: ((i32, i32), (i32, i32)))
    requires
        view_fits(*camera),
        valid_tile_dims(tile_dimensions),
        lod <= MAX_SUPPORTED_LOD,
    ensures
        ((r.0.0 as int, r.0.1 as int), (r.1.0 as int, r.1.1 as int)) == screen_sectors(*camera, tile_dimensions, lod as nat),
{
    let top_left = sector_at_screen_pos(0, 0, camera, tile_dimensions, lod);
    let right: i64 = camera.screen_width as i64 * FIXED_ONE;
    let bottom: i64 = camera.screen_height as i64 * FIXED_ONE;
    let bottom_right = sector_at_screen_pos(right, bottom, camera, tile_dimensions, lod);
    (top_left, bottom_right)
}

/// Whether the tile lies in the range that covers the screen at its own level of detail.
pub fn tile_on_screen(tile: TileKey, camera: &CameraSettings, tile_dimensions: (u32, u32)) -> (r: bool)
    requires
        view_fits(*camera),
        valid_tile_dims(tile_dimensions),
        tile.lod <= MAX_SUPPORTED_LOD,
    ensures
        r == on_screen(*camera, tile_dimensions, tile),
{
    let (top_left, bottom_right) = get_screen_sectors(camera, tile_dimensions, tile.lod);
    tile.x >= top_left.0 && tile.y >= top_left.1 && tile.x <= bottom_right.0 && tile.y <= bottom_right.1
}

proof fn lemma_axis_round_trip(p: int, offset: int, zoom: int, extent: int)
    requires
        zoom > 0,
    ensures
        screen_coord(world_coord(p, offset, zoom, extent), offset, zoom, extent) <= p,
        (p - screen_coord(world_coord(p, offset, zoom, extent), offset, zoom, extent)) * FIXED_ONE
            < FIXED_ONE + zoom,
{
    let s = FIXED_ONE as int;
    let c = extent * FIXED_HALF as int;
    let q = p - c;
    let a = (q * s) / zoom;
    let b = (a * zoom) / s;
    lemma_fundamental_div_mod(q * s, zoom);
    lemma_fundamental_div_mod(a * zoom, s);
    let r1 = (q * s) % zoom;
    let r2 = (a * zoom) % s;
    assert(world_coord(p, offset, zoom, extent) - offset == a);
    assert(screen_coord(world_coord(p, offset, zoom, extent), offset, zoom, extent) == c + b);
    assert(q * s == a * zoom + r1) by (nonlinear_arith)
        requires q * s == zoom * ((q * s) / zoom) + r1, a == (q * s) / zoom;
    assert(a * zoom == b * s + r2) by (nonlinear_arith)
        requires a * zoom == s * ((a * zoom) / s) + r2, b == (a * zoom) / s;
}

/// Mapping a screen point into the world and back returns the same point up
/// to the rounding of the two fixed-point divisions: never beyond it, and on
/// each axis less than one step plus the zoom (in steps) short of it.
pub proof fn lemma_screen_world_round_trip(camera: CameraSettings, x: int, y: int)
    requires
        camera.valid(),
    ensures
        ({
            let ox = camera.x_offset as int;
            let oy = camera.y_offset as int;
            let z = camera.zoom_multiplier as int;
            let w = camera.screen_width as int;
            let h = camera.screen_height as int;
            let sx = screen_coord(world_coord(x, ox, z, w), ox, z, w);
            let sy = screen_coord(world_coord(y, oy, z, h), oy, z, h);
            &&& sx <= x
            &&& (x - sx) * FIXED_ONE < FIXED_ONE + z
            &&& sy <= y
            &&& (y - sy) * FIXED_ONE < FIXED_ONE + z
        }),
{
    let z = camera.zoom_multiplier as int;
    lemma_axis_round_trip(x, camera.x_offset as int, z, camera.screen_width as int);
    lemma_axis_round_trip(y, camera.y_offset as int, z, camera.screen_height as int);
}

/// Whether the camera is usable for sector arithmetic (`view_fits`): a
/// positive zoom, and screen corners whose world coordinates fit in 64 bits.
pub fn camera_in_range(camera: &CameraSettings) -> (r: bool)
    ensures
        r == view_fits(*camera),
{
    if camera.zoom_multiplier == 0 {
        return false;
    }
    let right: i64 = camera.screen_width as i64 * FIXED_ONE;
    let bottom: i64 = camera.screen_height as i64 * FIXED_ONE;
    axis_fits(0, camera.x_offset, camera.zoom_multiplier, camera.screen_width)
        && axis_fits(0, camera.y_offset, camera.zoom_multiplier, camera.screen_height)
        && axis_fits(right, camera.x_offset, camera.zoom_multiplier, camera.screen_width)
        && axis_fits(bottom, camera.y_offset, camera.zoom_multiplier, camera.screen_height)
}

fn axis_fits(p: i64, offset: i64, zoom: u32, extent: u32) -> (r: bool)
    requires
        zoom > 0,
    ensures
        r == fits_i64(world_coord(p as int, offset as int, zoom as int, extent as int)),
{
    assert(extent * 500_000 <= 0x1_0000_0000 * 500_000);
    let centre: i128 = extent as i128 * FIXED_HALF as i128;
    assert(centre == extent * 500_000);
    assert(-0x1_0000_0000_0000_0000_0000_0000 <= (p - centre) * 1_000_000 <= 0x1_0000_0000_0000_0000_0000_0000) by (nonlinear_arith)
        requires i64::MIN <= p <= i64::MAX, 0 <= centre <= 0x1_0000_0000 * 500_000;
    let scaled: i128 = (p as i128 - centre) * (FIXED_ONE as i128);
    proof {
        let n = scaled as int;
        let d = zoom as int;
        lemma_fundamental_div_mod(n, d);
        let q = n / d;
        let rem = n % d;
        assert(-0x1_0000_0001_0000_0000_0000_0000 <= q <= 0x1_0000_0000_0000_0000_0000_0000) by (nonlinear_arith)
            requires n == d * q + rem, 0 <= rem < d, 1 <= d <= 0xFFFF_FFFF,
                -0x1_0000_0000_0000_0000_0000_0000 <= n <= 0x1_0000_0000_0000_0000_0000_0000;
    }
    let world: i128 = offset as i128 + floor_div(scaled, zoom as i128);
    i64::MIN as i128 <= world && world <= i64::MAX as i128
}

/// A world coordinate half a tile left of (or above) the origin lies in
/// sector -1, not 0, at every level of detail.
pub proof fn lemma_half_tile_before_origin(dim: int, lod: nat)
    requires
        dim > 0,
    ensures
        sector_index(-(tile_world_size(dim, lod) / 2), tile_world_size(dim, lod)) == -1,
        clamp_i32(sector_index(-(tile_world_size(dim, lod) / 2), tile_world_size(dim, lod))) == -1,
{
    let p = pow2(lod) as int;
    vstd::arithmetic::power2::lemma_pow2_pos(lod);
    let size = tile_world_size(dim, lod);
    assert(size >= 1_000_000) by (nonlinear_arith)
        requires size == dim * p * 1_000_000, dim >= 1, p >= 1;
    let half = size / 2;
    assert(0 < half < size);
    lemma_fundamental_div_mod_converse(half, size, 0, half);
}

/// The same through the screen: a screen point whose world coordinate is half
/// a tile before the origin on an axis has sector -1 on that axis.
pub proof fn lemma_sector_at_half_tile_before_origin(
    camera: CameraSettings,
    x: int,
    y: int,
    dims: (u32, u32),
    lod: nat,
)
    requires
        valid_tile_dims(dims),
    ensures
        world_coord(x, camera.x_offset as int, camera.zoom_multiplier as int, camera.screen_width as int)
            == -(tile_world_size(dims.0 as int, lod) / 2) ==> sector_at(camera, x, y, dims, lod).0 == -1,
        world_coord(y, camera.y_offset as int, camera.zoom_multiplier as int, camera.screen_height as int)
            == -(tile_world_size(dims.1 as int, lod) / 2) ==> sector_at(camera, x, y, dims, lod).1 == -1,
{
    lemma_half_tile_before_origin(dims.0 as int, lod);
    lemma_half_tile_before_origin(dims.1 as int, lod);
}

} // verus!
