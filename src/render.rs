//! The draw list: every cached image on screen with its destination
//! rectangle, coarsest level of detail first, so that finer tiles drawn later
//! cover the coarser ones beneath them.
use vstd::prelude::*;
use vstd::arithmetic::power2::pow2;
use vstd::arithmetic::div_mod::lemma_hoist_over_denominator;
use crate::camera::{
    TileKey, CameraSettings, FIXED_ONE, FIXED_HALF, MAX_SUPPORTED_LOD, view_fits, valid_tile_dims,
    in_range, screen_sectors, screen_coord, tile_world_size, get_screen_sectors, pow2_u64, floor_div,
};
use crate::cache::TileCache;

verus! {

/// One image to draw: its tile and its destination rectangle on screen, in
/// fixed-point steps of a pixel.
#[derive(Clone, Copy, Debug, PartialEq, Eq)]
pub struct DrawTile {
    pub key: TileKey,
    pub x: i128,
    pub y: i128,
    pub width: i128,
    pub height: i128,
}

/// On an axis of the range from `start` to `end`: with more than two
/// sectors, strictly inside; otherwise one of the two ends.
pub open spec fn within_culled(coord: int, start: int, end: int) -> bool {
    if end - start > 1 {
        start < coord && coord < end
    } else {
        coord == start || coord == end
    }
}

/// The tile is drawn when its level's range is `range`: inside it, or,
/// with culling shown, inside it away from its border.
pub open spec fn tile_visible(key: TileKey, range: ((int, int), (int, int)), show_culling: bool) -> bool {
    if show_culling {
        within_culled(key.x as int, range.0.0, range.1.0) && within_culled(key.y as int, range.0.1, range.1.1)
    } else {
        in_range(key.x as int, key.y as int, range)
    }
}

/// Where the tile lands on screen: its world corner mapped to the screen,
/// and its world size scaled by the zoom.
pub open spec fn draw_rect(key: TileKey, camera: CameraSettings, dims: (u32, u32)) -> DrawTile {
    let lod = key.lod as nat;
    DrawTile {
        key,
        x: screen_coord(
            key.x * tile_world_size(dims.0 as int, lod),
            camera.x_offset as int,
            camera.zoom_multiplier as int,
            camera.screen_width as int,
        ) as i128,
        y: screen_coord(
            key.y * tile_world_size(dims.1 as int, lod),
            camera.y_offset as int,
            camera.zoom_multiplier as int,
            camera.screen_height as int,
        ) as i128,
        width: (dims.0 * pow2(lod) * camera.zoom_multiplier) as i128,
        height: (dims.1 * pow2(lod) * camera.zoom_multiplier) as i128,
    }
}

/// The draws at one level, in the order of `entries`.
pub open spec fn draws_at<I>(
    entries: Seq<(TileKey, Option<I>)>,
    lod: nat,
    camera: CameraSettings,
    dims: (u32, u32),
    show_culling: bool,
) -> Seq<DrawTile>
    decreases entries.len(),
{
    if entries.len() == 0 {
        Seq::empty()
    } else {
        let rest = draws_at(entries.drop_last(), lod, camera, dims, show_culling);
        let (key, image) = entries.last();
        if key.lod == lod && image.is_some() && tile_visible(key, screen_sectors(camera, dims, lod), show_culling) {
            rest.push(draw_rect(key, camera, dims))
        } else {
            rest
        }
    }
}

/// The draws at levels `max_lod` down to `lod`, coarsest first.
pub open spec fn draws_down_to<I>(
    entries: Seq<(TileKey, Option<I>)>,
    camera: CameraSettings,
    dims: (u32, u32),
    show_culling: bool,
    max_lod: int,
    lod: int,
) -> Seq<DrawTile>
    decreases max_lod + 1 - lod,
{
    if lod > max_lod || lod < 0 {
        Seq::empty()
    } else {
        draws_down_to(entries, camera, dims, show_culling, max_lod, lod + 1) + draws_at(
            entries,
            lod as nat,
            camera,
            dims,
            show_culling,
        )
    }
}

/// The destination rectangle of a tile.
pub fn tile_draw_rect(key: TileKey, camera: &CameraSettings, tile_dimensions: (u32, u32)) -> (r: DrawTile)
    requires
        camera.valid(),
        valid_tile_dims(tile_dimensions),
        key.lod <= MAX_SUPPORTED_LOD,
    ensures
        r == draw_rect(key, *camera, tile_dimensions),
{
    let scale = pow2_u64(key.lod);
    let zoom = camera.zoom_multiplier as i128;
    let (x, width) = axis_rect(key.x, tile_dimensions.0, scale, camera.x_offset, zoom, camera.screen_width);
    let (y, height) = axis_rect(key.y, tile_dimensions.1, scale, camera.y_offset, zoom, camera.screen_height);
    DrawTile { key, x, y, width, height }
}

fn axis_rect(sector: i32, dim: u32, scale: u64, offset: i64, zoom: i128, extent: u32) -> (r: (i128, i128))
    requires
        0 < zoom <= u32::MAX,
        1 <= scale <= 0x8000_0000,
    ensures
        r.0 == screen_coord(sector * (dim * scale * FIXED_ONE), offset as int, zoom as int, extent as int),
        r.1 == dim * scale * zoom,
{
    let ghost s = FIXED_ONE as int;
    assert(0 <= dim * scale <= 0x8000_0000_0000_0000) by (nonlinear_arith)
        requires dim <= u32::MAX, 1 <= scale <= 0x8000_0000;
    let span: i128 = dim as i128 * scale as i128;
    assert(-0x4000_0000_0000_0000_0000_0000 <= sector * span <= 0x4000_0000_0000_0000_0000_0000) by (nonlinear_arith)
        requires 0 <= span <= 0x8000_0000_0000_0000, i32::MIN <= sector <= i32::MAX;
    let corner: i128 = sector as i128 * span;
    assert(-0x4000_0000_0000_0000_0000_0000_0000_0000 <= corner * zoom <= 0x4000_0000_0000_0000_0000_0000_0000_0000) by (nonlinear_arith)
        requires -0x4000_0000_0000_0000_0000_0000 <= corner <= 0x4000_0000_0000_0000_0000_0000, 0 < zoom <= u32::MAX;
    assert(-0x8000_0000_0000_0000_0000_0000 <= -(offset as int) * zoom <= 0x8000_0000_0000_0000_0000_0000) by (nonlinear_arith)
        requires i64::MIN <= offset <= i64::MAX, 0 < zoom <= u32::MAX;
    assert(span * zoom <= 0x8000_0000_0000_0000 * 0x1_0000_0000) by (nonlinear_arith)
        requires 0 <= span <= 0x8000_0000_0000_0000, 0 < zoom <= u32::MAX;
    let shift: i128 = floor_div(-(offset as i128) * zoom, FIXED_ONE as i128);
    proof {
        let a = -(offset as int) * zoom;
        lemma_hoist_over_denominator(a, corner * zoom, s as nat);
        assert((sector * (dim * scale * s) - offset) * zoom == a + (corner * zoom) * s) by (nonlinear_arith)
            requires a == -(offset as int) * zoom, corner == sector * span, span == dim * scale;
        vstd::arithmetic::div_mod::lemma_div_is_ordered(a, 0x8000_0000_0000_0000_0000_0000, s);
        vstd::arithmetic::div_mod::lemma_div_is_ordered(-0x8000_0000_0000_0000_0000_0000, a, s);
    }
    assert(extent * 500_000 <= 0x1_0000_0000 * 500_000);
    let centre: i128 = extent as i128 * FIXED_HALF as i128;
    (centre + corner * zoom + shift, span * zoom)
}

/// Every cached image on screen at its own level, coarsest level first, with
/// its destination rectangle.
pub fn draw_list<I>(cache: &TileCache<I>, camera: &CameraSettings, tile_dimensions: (u32, u32), max_lod: usize, show_culling: bool) -> (r: Vec<DrawTile>)
    requires
        cache.wf(),
        view_fits(*camera),
        valid_tile_dims(tile_dimensions),
        max_lod <= MAX_SUPPORTED_LOD,
    ensures
        r@ == draws_down_to(cache.entry_seq(), *camera, tile_dimensions, show_culling, max_lod as int, 0),
{
    let ghost entries = cache.entry_seq();
    let n = cache.len();
    let mut draws: Vec<DrawTile> = Vec::new();
    let mut level: usize = max_lod + 1;
    while level > 0
        invariant
            entries == cache.entry_seq(),
            n == entries.len(),
            cache.wf(),
            view_fits(*camera),
            valid_tile_dims(tile_dimensions),
            max_lod <= MAX_SUPPORTED_LOD,
            level <= max_lod + 1,
            draws@ == draws_down_to(entries, *camera, tile_dimensions, show_culling, max_lod as int, level as int),
        decreases level,
    {
        let render_lod = level - 1;
        let (top_left, bottom_right) = get_screen_sectors(camera, tile_dimensions, render_lod);
        let ghost range = screen_sectors(*camera, tile_dimensions, render_lod as nat);
        let ghost done = draws@;
        let mut i: usize = 0;
        while i < n
            invariant
                entries == cache.entry_seq(),
                n == entries.len(),
                camera.valid(),
                valid_tile_dims(tile_dimensions),
                render_lod <= MAX_SUPPORTED_LOD,
                range == screen_sectors(*camera, tile_dimensions, render_lod as nat),
                range == ((top_left.0 as int, top_left.1 as int), (bottom_right.0 as int, bottom_right.1 as int)),
                i <= n,
                draws@ == done + draws_at(entries.take(i as int), render_lod as nat, *camera, tile_dimensions, show_culling),
            decreases n - i,
        {
            let entry = cache.entry_at(i);
            let key = entry.0;
            proof {
                assert(entries.take(i as int + 1).drop_last() =~= entries.take(i as int));
                assert(entries.take(i as int + 1).last() == entries[i as int]);
            }
            let visible = if show_culling {
                within_culled_exec(key.x, top_left.0, bottom_right.0) && within_culled_exec(key.y, top_left.1, bottom_right.1)
            } else {
                key.x >= top_left.0 && key.y >= top_left.1 && key.x <= bottom_right.0 && key.y <= bottom_right.1
            };
            assert(visible == tile_visible(key, range, show_culling));
            if key.lod == render_lod && entry.1.is_some() && visible {
                let ghost prev = draws@;
                draws.push(tile_draw_rect(key, camera, tile_dimensions));
                proof {
                    assert(draws@ =~= done + draws_at(entries.take(i as int + 1), render_lod as nat, *camera, tile_dimensions, show_culling));
                }
            }
            i = i + 1;
        }
        proof {
            assert(entries.take(n as int) =~= entries);
        }
        level = level - 1;
    }
    draws
}

fn within_culled_exec(coord: i32, start: i32, end: i32) -> (r: bool)
    ensures
        r == within_culled(coord as int, start as int, end as int),
{
    if end as i64 - start as i64 > 1 {
        coord > start && coord < end
    } else {
        coord == start || coord == end
    }
}

/// A lone cached image at level 0, inside the range that covers the screen,
/// gives exactly one draw: its tile's rectangle, the tile's pixel size times
/// the zoom, placed where the tile's world corner lands on screen.
pub proof fn lemma_single_tile_draw<I>(entries: Seq<(TileKey, Option<I>)>, camera: CameraSettings, dims: (u32, u32))
    requires
        entries.len() == 1,
        entries[0].0.lod == 0,
        entries[0].1.is_some(),
        in_range(entries[0].0.x as int, entries[0].0.y as int, screen_sectors(camera, dims, 0)),
    ensures
        draws_down_to(entries, camera, dims, false, 0, 0) == seq![draw_rect(entries[0].0, camera, dims)],
        draw_rect(entries[0].0, camera, dims).width == dims.0 * camera.zoom_multiplier,
        draw_rect(entries[0].0, camera, dims).height == dims.1 * camera.zoom_multiplier,
{
    vstd::arithmetic::power2::lemma2_to64();
    assert(entries.drop_last() =~= Seq::<(TileKey, Option<I>)>::empty());
    assert(entries.last() == entries[0]);
    assert(draws_at(entries.drop_last(), 0, camera, dims, false) == Seq::<DrawTile>::empty());
    assert(draws_down_to(entries, camera, dims, false, 0, 1) == Seq::<DrawTile>::empty());
    assert(draws_at(entries, 0, camera, dims, false) =~= seq![draw_rect(entries[0].0, camera, dims)]);
    assert(0 <= dims.0 * camera.zoom_multiplier <= 0x1_0000_0000 * 0x1_0000_0000) by (nonlinear_arith)
        requires dims.0 <= u32::MAX, camera.zoom_multiplier <= u32::MAX;
    assert(0 <= dims.1 * camera.zoom_multiplier <= 0x1_0000_0000 * 0x1_0000_0000) by (nonlinear_arith)
        requires dims.1 <= u32::MAX, camera.zoom_multiplier <= u32::MAX;
    assert(draws_down_to(entries, camera, dims, false, 0, 0) =~= seq![draw_rect(entries[0].0, camera, dims)]);
}

} // verus!
