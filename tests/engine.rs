use tileview::cache::TileCache;
use tileview::camera::{CameraSettings, TileKey, FIXED_ONE};
use tileview::fps::{frame_budget_micros, median};
use tileview::options::Args;
use tileview::rolling::{average, new_rolling_average, ROLLING_WINDOW};
use tileview::viewer::{current_view_cached, RetrievalRound, TileState, TileViewer};
use std::collections::VecDeque;

fn camera(x: i64, y: i64, zoom: u32, w: u32, h: u32) -> CameraSettings {
    CameraSettings {
        x_offset: x,
        y_offset: y,
        zoom_multiplier: zoom,
        screen_width: w,
        screen_height: h,
    }
}

fn key(x: i32, y: i32, lod: usize) -> TileKey {
    TileKey { x, y, lod }
}

/// Runs one budgeted round in which every load finishes at once, the image
/// for each key coming from `image_for`.
fn finish_all(
    viewer: &mut TileViewer<u32>,
    cam: &CameraSettings,
    image_for: &dyn Fn(TileKey) -> Option<u32>,
) -> Vec<TileKey> {
    let (mut round, _cancelled) = viewer.begin_retrieval(cam, 0, u64::MAX / 16);
    let mut done = Vec::new();
    while let Some(k) = viewer.next_retrieval(&round, 0) {
        viewer.finish_retrieval(&mut round, Some(image_for(k)), 10);
        done.push(k);
    }
    done
}

#[test]
fn cache_three_states() {
    let mut cache: TileCache<u32> = TileCache::new();
    let a = key(0, 0, 0);
    let b = key(1, 0, 0);
    assert!(!cache.contains_key(&a));
    assert_eq!(cache.insert(a, Some(7)), None);
    assert_eq!(cache.insert(b, None), None);
    assert_eq!(cache.get(&a), Some(&Some(7)));
    assert_eq!(cache.get(&b), Some(&None));
    assert_eq!(cache.get(&key(2, 0, 0)), None);
    assert_eq!(cache.insert(b, Some(9)), Some(None));
    assert_eq!(cache.len(), 2);
    assert_eq!(cache.remove(&a), Some(Some(7)));
    assert_eq!(cache.remove(&a), None);
    assert!(!cache.contains_key(&a));
    assert_eq!(cache.len(), 1);
}

#[test]
fn rolling_average_of_three() {
    let mut buffer: VecDeque<u64> = VecDeque::new();
    assert_eq!(new_rolling_average(1, &mut buffer), 1);
    assert_eq!(new_rolling_average(2, &mut buffer), 1);
    assert_eq!(new_rolling_average(3, &mut buffer), 2);
    assert_eq!(average(&buffer), 2);
    assert_eq!(buffer.len(), 3);
}

#[test]
fn rolling_window_drops_oldest() {
    let mut buffer: VecDeque<u64> = VecDeque::new();
    for v in 1..=100u64 {
        new_rolling_average(v, &mut buffer);
    }
    assert_eq!(buffer.len(), ROLLING_WINDOW);
    let mean = new_rolling_average(101, &mut buffer);
    assert_eq!(buffer.len(), 100);
    assert_eq!(buffer.front(), Some(&2));
    assert_eq!(buffer.back(), Some(&101));
    assert_eq!(mean, (2..=101u64).sum::<u64>() / 100);
}

#[test]
fn average_of_empty_is_zero() {
    let buffer: VecDeque<u64> = VecDeque::new();
    assert_eq!(average(&buffer), 0);
}

#[test]
fn median_picks_middle() {
    let mut v = vec![5, 1, 3];
    assert_eq!(median(&mut v), 3);
    assert_eq!(v, vec![1, 3, 5]);
    let mut even = vec![60, 144, 30, 59];
    assert_eq!(median(&mut even), 60);
}

#[test]
fn frame_budget_from_rate() {
    assert_eq!(frame_budget_micros(60), 16_666);
    assert_eq!(frame_budget_micros(144), 6_944);
    assert_eq!(frame_budget_micros(0), u64::MAX);
}

#[test]
fn args_hold_options() {
    let args = Args {
        stats: true,
        tiles: false,
        show_culling: true,
        image_path: String::from("tiles"),
    };
    assert!(args.stats && args.show_culling && !args.tiles);
    assert_eq!(args.image_path, "tiles");
}

#[test]
fn queue_skips_cached_and_pending() {
    let cam = camera(100 * FIXED_ONE, 100 * FIXED_ONE, 1_000_000, 600, 200);
    let mut viewer: TileViewer<u32> = TileViewer::new((256, 256), 0);
    // world x from -200 to 400, y from 0 to 200
    let queued = viewer.queue_desired_textures(&cam);
    assert_eq!(queued, vec![key(-1, 0, 0), key(0, 0, 0), key(1, 0, 0)]);
    assert_eq!(viewer.queue_desired_textures(&cam), Vec::<TileKey>::new());
    assert_eq!(viewer.in_flight_keys().len(), 3);
    assert_eq!(viewer.tile_state(&key(0, 0, 0)), TileState::Pending);
    assert_eq!(viewer.tile_state(&key(5, 0, 0)), TileState::Unrequested);
    finish_all(&mut viewer, &cam, &|k| if k.x == 0 { None } else { Some(1) });
    assert_eq!(viewer.tile_state(&key(0, 0, 0)), TileState::ConfirmedMissing);
    assert_eq!(viewer.tile_state(&key(1, 0, 0)), TileState::Present);
    assert_eq!(viewer.image(&key(1, 0, 0)), Some(&1));
    assert_eq!(viewer.image(&key(0, 0, 0)), None);
    // a confirmed-missing tile is never asked for again
    assert_eq!(viewer.queue_desired_textures(&cam), Vec::<TileKey>::new());
}

#[test]
fn eviction_waits_for_full_view() {
    let fine = camera(1280 * FIXED_ONE, 1280 * FIXED_ONE, 400_000, 512, 512);
    let coarse = camera(1280 * FIXED_ONE, 1280 * FIXED_ONE, 200_000, 512, 512);
    let mut viewer: TileViewer<u32> = TileViewer::new((256, 256), 2);

    // a full screen of level-1 tiles
    let queued = viewer.queue_desired_textures(&fine);
    assert_eq!(queued.len(), 9);
    assert!(queued.iter().all(|k| k.lod == 1));
    finish_all(&mut viewer, &fine, &|_| Some(1));
    assert_eq!(viewer.texture_cache().len(), 9);

    // zoomed out to level 2: nothing of level 2 is cached yet
    let removed = viewer.clean_tile_texture_cache(&coarse);
    assert!(removed.is_empty());
    let wanted = viewer.queue_desired_textures(&coarse);
    assert_eq!(wanted.len(), 9);
    assert!(wanted.iter().all(|k| k.lod == 2));

    // all level-2 tiles but one arrive: level 1 stays
    let (mut round, cancelled) = viewer.begin_retrieval(&coarse, 0, u64::MAX / 16);
    assert!(cancelled.is_empty());
    for _ in 0..8 {
        viewer.next_retrieval(&round, 0).unwrap();
        viewer.finish_retrieval(&mut round, Some(Some(2)), 10);
    }
    let removed = viewer.clean_tile_texture_cache(&coarse);
    assert!(removed.is_empty());
    assert!(!current_view_cached(viewer.texture_cache(), 2, &coarse, (256, 256)));
    assert_eq!(viewer.texture_cache().len(), 17);

    // the last one is confirmed missing: the view is complete, level 1 goes
    let last = viewer.next_retrieval(&round, 0).unwrap();
    viewer.finish_retrieval(&mut round, Some(None), 10);
    assert!(current_view_cached(viewer.texture_cache(), 2, &coarse, (256, 256)));
    let removed = viewer.clean_tile_texture_cache(&coarse);
    assert_eq!(removed.len(), 9);
    assert!(removed.iter().all(|(k, image)| k.lod == 1 && *image == Some(1)));
    assert_eq!(viewer.texture_cache().len(), 9);
    assert_eq!(viewer.tile_state(&last), TileState::ConfirmedMissing);
}

#[test]
fn eviction_removes_off_screen_tiles() {
    let here = camera(100 * FIXED_ONE, 100 * FIXED_ONE, 1_000_000, 200, 200);
    let away = camera(5000 * FIXED_ONE, 100 * FIXED_ONE, 1_000_000, 200, 200);
    let mut viewer: TileViewer<u32> = TileViewer::new((256, 256), 0);
    viewer.queue_desired_textures(&here);
    finish_all(&mut viewer, &here, &|_| Some(3));
    assert_eq!(viewer.tile_state(&key(0, 0, 0)), TileState::Present);
    let removed = viewer.clean_tile_texture_cache(&away);
    assert_eq!(removed, vec![(key(0, 0, 0), Some(3))]);
    assert_eq!(viewer.tile_state(&key(0, 0, 0)), TileState::Unrequested);
}

#[test]
fn first_load_advances_despite_budget() {
    let cam = camera(100 * FIXED_ONE, 100 * FIXED_ONE, 1_000_000, 600, 200);
    let mut viewer: TileViewer<u32> = TileViewer::new((256, 256), 0);
    let queued = viewer.queue_desired_textures(&cam);
    assert_eq!(queued.len(), 3);
    // a budget of zero: the first load still runs
    let (mut round, _) = viewer.begin_retrieval(&cam, 1_000, 0);
    let first = viewer.next_retrieval(&round, 1_000);
    assert_eq!(first, Some(queued[0]));
    viewer.finish_retrieval(&mut round, Some(Some(5)), 40_000);
    assert_eq!(round.tiles_completed, 1);
    assert_eq!(viewer.rolling_average_decode_time(), 40_000);
    // after one decode the budget check applies
    assert_eq!(viewer.next_retrieval(&round, 1_000), None);
    assert_eq!(viewer.in_flight_keys().len(), 2);
    assert_eq!(viewer.tile_state(&queued[0]), TileState::Present);
}

#[test]
fn missing_tile_counts_as_completed_for_budget() {
    let cam = camera(100 * FIXED_ONE, 100 * FIXED_ONE, 1_000_000, 600, 200);
    let mut viewer: TileViewer<u32> = TileViewer::new((256, 256), 0);
    let queued = viewer.queue_desired_textures(&cam);
    assert_eq!(queued.len(), 3);
    // budget already spent: the first load runs, finishes with no image
    let (mut round, _) = viewer.begin_retrieval(&cam, 0, 0);
    assert_eq!(viewer.next_retrieval(&round, 5_000), Some(queued[0]));
    viewer.finish_retrieval(&mut round, Some(None), 4_000);
    assert_eq!(round.tiles_completed, 1);
    assert_eq!(viewer.tile_state(&queued[0]), TileState::ConfirmedMissing);
    // the estimate has no sample, but the elapsed time alone is over budget
    assert_eq!(viewer.rolling_average_decode_time(), 0);
    assert_eq!(viewer.next_retrieval(&round, 5_000), None);
    assert_eq!(viewer.in_flight_keys().len(), 2);
}

#[test]
fn budget_allows_more_when_time_remains() {
    let cam = camera(100 * FIXED_ONE, 100 * FIXED_ONE, 1_000_000, 600, 200);
    let mut viewer: TileViewer<u32> = TileViewer::new((256, 256), 0);
    viewer.queue_desired_textures(&cam);
    let (mut round, _) = viewer.begin_retrieval(&cam, 0, 16_666);
    viewer.next_retrieval(&round, 0).unwrap();
    viewer.finish_retrieval(&mut round, Some(Some(1)), 1_000);
    // 2000 elapsed + 1000 average = 3000 <= 0.7 * 16666
    assert!(viewer.next_retrieval(&round, 2_000).is_some());
    // 11000 elapsed + 1000 average = 12000 > 11666.2
    assert!(viewer.next_retrieval(&round, 11_000).is_none());
}

#[test]
fn pending_load_moves_on_to_next() {
    let cam = camera(100 * FIXED_ONE, 100 * FIXED_ONE, 1_000_000, 600, 200);
    let mut viewer: TileViewer<u32> = TileViewer::new((256, 256), 0);
    let queued = viewer.queue_desired_textures(&cam);
    let (mut round, _) = viewer.begin_retrieval(&cam, 0, 16_666);
    assert_eq!(viewer.next_retrieval(&round, 0), Some(queued[0]));
    viewer.finish_retrieval(&mut round, None, 0);
    assert_eq!(round.position, 1);
    assert_eq!(viewer.next_retrieval(&round, 0), Some(queued[1]));
    viewer.finish_retrieval(&mut round, None, 0);
    viewer.finish_retrieval(&mut round, None, 0);
    assert_eq!(viewer.next_retrieval(&round, 0), None);
    assert_eq!(viewer.in_flight_keys().len(), 3);
}

#[test]
fn level_change_cancels_loads() {
    let coarse = camera(1280 * FIXED_ONE, 1280 * FIXED_ONE, 200_000, 512, 512);
    let fine = camera(1280 * FIXED_ONE, 1280 * FIXED_ONE, 400_000, 512, 512);
    let mut viewer: TileViewer<u32> = TileViewer::new((256, 256), 2);
    let queued = viewer.queue_desired_textures(&coarse);
    assert!(queued.iter().all(|k| k.lod == 2));
    let (round, cancelled) = viewer.begin_retrieval(&fine, 0, 16_666);
    assert_eq!(round.lod, 1);
    assert_eq!(cancelled, queued);
    assert!(viewer.in_flight_keys().is_empty());
    assert_eq!(viewer.next_retrieval(&round, 0), None);
    for k in &queued {
        assert_eq!(viewer.tile_state(k), TileState::Unrequested);
    }
    assert_eq!(viewer.texture_cache().len(), 0);
}

#[test]
fn single_tile_frame_end_to_end() {
    let cam = camera(100 * FIXED_ONE, 100 * FIXED_ONE, 1_000_000, 200, 200);
    let mut viewer: TileViewer<u32> = TileViewer::new((256, 256), 0);
    let removed = viewer.clean_tile_texture_cache(&cam);
    assert!(removed.is_empty());
    assert_eq!(viewer.queue_desired_textures(&cam), vec![key(0, 0, 0)]);
    assert!(viewer.render_screen_tiles(&cam, false).is_empty());
    let (mut round, _) = viewer.begin_retrieval(&cam, 0, 16_666);
    let k = viewer.next_retrieval(&round, 0).unwrap();
    viewer.finish_retrieval(&mut round, Some(Some(42)), 3_000);
    assert_eq!(k, key(0, 0, 0));
    assert_eq!(viewer.texture_cache().len(), 1);
    assert_eq!(viewer.texture_cache().get(&k), Some(&Some(42)));
    let draws = viewer.render_screen_tiles(&cam, false);
    assert_eq!(draws.len(), 1);
    assert_eq!(draws[0].key, k);
    assert_eq!(draws[0].width, 256 * 1_000_000);
    assert_eq!(draws[0].height, 256 * 1_000_000);
    assert_eq!((draws[0].x, draws[0].y), (0, 0));
}

#[test]
fn draw_list_coarse_first_and_culling() {
    let fine = camera(1280 * FIXED_ONE, 1280 * FIXED_ONE, 400_000, 512, 512);
    let coarse = camera(1280 * FIXED_ONE, 1280 * FIXED_ONE, 200_000, 512, 512);
    let mut viewer: TileViewer<u32> = TileViewer::new((256, 256), 2);
    viewer.queue_desired_textures(&fine);
    finish_all(&mut viewer, &fine, &|_| Some(1));
    viewer.queue_desired_textures(&coarse);
    finish_all(&mut viewer, &coarse, &|k| if k.x == 0 && k.y == 0 { None } else { Some(2) });
    let draws = viewer.render_screen_tiles(&coarse, false);
    // 8 level-2 images, then the 9 level-1 images
    assert_eq!(draws.len(), 17);
    assert!(draws[..8].iter().all(|d| d.key.lod == 2));
    assert!(draws[8..].iter().all(|d| d.key.lod == 1));
    // level 2 covers sectors 0..=2, level 1 covers 0..=5: culling keeps the
    // inside, sector (1, 1) of level 2 and all nine level-1 tiles
    let culled = viewer.render_screen_tiles(&coarse, true);
    assert_eq!(culled.len(), 1 + 9);
    assert!(culled.iter().any(|d| d.key == key(1, 1, 2)));
    assert!(culled.iter().all(|d| d.key.x > 0 && d.key.y > 0));
}
