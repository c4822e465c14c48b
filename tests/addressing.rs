use tileview::camera::{
    camera_in_range, get_screen_sectors, pow2_u64, screen_pos_to_world_pos, sector_at_screen_pos, sector_of_world,
    tile_on_screen, world_pos_to_screen_pos, CameraSettings, TileKey, FIXED_ONE,
};
use tileview::lod::lod_from_zoom;
use tileview::path::tile_path;
use tileview::render::tile_draw_rect;

fn camera(x: i64, y: i64, zoom: u32, w: u32, h: u32) -> CameraSettings {
    CameraSettings {
        x_offset: x,
        y_offset: y,
        zoom_multiplier: zoom,
        screen_width: w,
        screen_height: h,
    }
}

#[test]
fn screen_centre_is_camera_offset() {
    let cam = camera(5 * FIXED_ONE, -7 * FIXED_ONE, 2_000_000, 800, 600);
    assert_eq!(
        screen_pos_to_world_pos(400 * FIXED_ONE, 300 * FIXED_ONE, &cam),
        (5 * FIXED_ONE, -7 * FIXED_ONE)
    );
    assert_eq!(
        world_pos_to_screen_pos(5 * FIXED_ONE, -7 * FIXED_ONE, &cam),
        (400 * FIXED_ONE, 300 * FIXED_ONE)
    );
}

#[test]
fn screen_to_world_scales_by_zoom() {
    // zoom 2.0: 100 pixels right of centre are 50 world units right of the offset
    let cam = camera(0, 0, 2_000_000, 800, 600);
    assert_eq!(
        screen_pos_to_world_pos(500 * FIXED_ONE, 200 * FIXED_ONE, &cam),
        (50 * FIXED_ONE, -50 * FIXED_ONE)
    );
    assert_eq!(
        world_pos_to_screen_pos(50 * FIXED_ONE, -50 * FIXED_ONE, &cam),
        (500 * FIXED_ONE, 200 * FIXED_ONE)
    );
}

#[test]
fn round_trip_stays_within_rounding() {
    let cam = camera(123_456_789, -987_654_321, 3_000_000, 1024, 768);
    for &(x, y) in &[(0i64, 0i64), (1, 1), (123_456_789, 5), (-3_333_333, 999_999_999)] {
        let world = screen_pos_to_world_pos(x, y, &cam);
        let back = world_pos_to_screen_pos(world.0, world.1, &cam);
        assert!(back.0 <= x && (x - back.0) * FIXED_ONE < FIXED_ONE + 3_000_000);
        assert!(back.1 <= y && (y - back.1) * FIXED_ONE < FIXED_ONE + 3_000_000);
    }
}

#[test]
fn negative_half_tile_floors_to_minus_one() {
    let tile = 256i64;
    assert_eq!(sector_of_world(-(tile * FIXED_ONE) / 2, 256, 0), -1);
    assert_eq!(sector_of_world((tile * FIXED_ONE) / 2, 256, 0), 0);
    assert_eq!(sector_of_world(0, 256, 0), 0);
    assert_eq!(sector_of_world(-1, 256, 0), -1);
}

#[test]
fn negative_tile_boundary_subtracts_after_truncation() {
    assert_eq!(sector_of_world(-256 * FIXED_ONE, 256, 0), -2);
    assert_eq!(sector_of_world(256 * FIXED_ONE, 256, 0), 1);
    assert_eq!(sector_of_world(-600 * FIXED_ONE, 256, 1), -2);
    assert_eq!(sector_of_world(1500 * FIXED_ONE, 256, 2), 1);
}

#[test]
fn sector_index_saturates() {
    assert_eq!(sector_of_world(i64::MAX, 1, 0), i32::MAX);
    assert_eq!(sector_of_world(i64::MIN, 1, 0), i32::MIN);
}

#[test]
fn sector_at_screen_point_left_of_origin() {
    // zoom 1.0, screen centre at world 0: pixel 272 is world -128, half a tile left
    let cam = camera(0, 0, 1_000_000, 800, 600);
    assert_eq!(
        sector_at_screen_pos(272 * FIXED_ONE, 300 * FIXED_ONE, &cam, (256, 256), 0),
        (-1, 0)
    );
}

#[test]
fn screen_sectors_cover_view() {
    let cam = camera(100 * FIXED_ONE, 100 * FIXED_ONE, 1_000_000, 200, 200);
    assert_eq!(get_screen_sectors(&cam, (256, 256), 0), ((0, 0), (0, 0)));
    let wide = camera(0, 0, 1_000_000, 1024, 512);
    assert_eq!(get_screen_sectors(&wide, (256, 256), 0), ((-3, -2), (2, 1)));
    assert_eq!(get_screen_sectors(&wide, (256, 256), 1), ((-2, -1), (1, 0)));
}

#[test]
fn tile_visibility_uses_own_level() {
    let cam = camera(0, 0, 1_000_000, 1024, 512);
    assert!(tile_on_screen(TileKey { x: 2, y: 1, lod: 0 }, &cam, (256, 256)));
    assert!(!tile_on_screen(TileKey { x: 2, y: 1, lod: 1 }, &cam, (256, 256)));
    assert!(tile_on_screen(TileKey { x: -2, y: -1, lod: 1 }, &cam, (256, 256)));
    assert!(!tile_on_screen(TileKey { x: 3, y: 0, lod: 0 }, &cam, (256, 256)));
}

#[test]
fn powers_of_two() {
    assert_eq!(pow2_u64(0), 1);
    assert_eq!(pow2_u64(10), 1024);
    assert_eq!(pow2_u64(31), 0x8000_0000);
}

#[test]
fn lod_thresholds() {
    assert_eq!(lod_from_zoom(990_000, 5), 0);
    assert_eq!(lod_from_zoom(490_000, 5), 1);
    assert_eq!(lod_from_zoom(500_000, 5), 0);
    assert_eq!(lod_from_zoom(249_999, 5), 2);
    assert_eq!(lod_from_zoom(20_000_000, 5), 0);
    assert_eq!(lod_from_zoom(1, 3), 3);
    assert_eq!(lod_from_zoom(1, 0), 0);
}

#[test]
fn lod_non_increasing_in_zoom() {
    let mut previous = usize::MAX;
    let mut zoom: u32 = 1;
    while zoom < 4_000_000 {
        let lod = lod_from_zoom(zoom, 6);
        assert!(lod <= previous);
        previous = lod;
        zoom += 7_919;
    }
}

#[test]
fn draw_rect_scales_with_zoom_and_level() {
    let cam = camera(100 * FIXED_ONE, 100 * FIXED_ONE, 1_000_000, 200, 200);
    let rect = tile_draw_rect(TileKey { x: 0, y: 0, lod: 0 }, &cam, (256, 256));
    assert_eq!((rect.x, rect.y), (0, 0));
    assert_eq!((rect.width, rect.height), (256 * 1_000_000, 256 * 1_000_000));
    let rect = tile_draw_rect(TileKey { x: 1, y: -1, lod: 2 }, &cam, (256, 128));
    assert_eq!(rect.width, 1024 * 1_000_000);
    assert_eq!(rect.height, 512 * 1_000_000);
    assert_eq!(rect.x, (1024 - 100) as i128 * 1_000_000 + 100 * 1_000_000);
    assert_eq!(rect.y, (-512 - 100) as i128 * 1_000_000 + 100 * 1_000_000);
}

#[test]
fn camera_range_check() {
    assert!(camera_in_range(&camera(0, 0, 1_000_000, 800, 600)));
    assert!(!camera_in_range(&camera(0, 0, 0, 800, 600)));
    assert!(!camera_in_range(&camera(i64::MAX, 0, 1_000_000, 800, 600)));
    assert!(!camera_in_range(&camera(i64::MIN, 0, 1, 800, 600)));
    assert!(camera_in_range(&camera(i64::MAX - 400 * FIXED_ONE, 0, 1_000_000, 800, 600)));
}

#[test]
fn tile_paths_follow_directory_layout() {
    assert_eq!(tile_path(&TileKey { x: 0, y: 0, lod: 0 }), "0/0,0.png");
    assert_eq!(tile_path(&TileKey { x: -3, y: 12, lod: 2 }), "2/-3,12.png");
    assert_eq!(tile_path(&TileKey { x: 1907, y: -10, lod: 11 }), "11/1907,-10.png");
    assert_eq!(
        tile_path(&TileKey { x: i32::MIN, y: i32::MAX, lod: 31 }),
        "31/-2147483648,2147483647.png"
    );
}
