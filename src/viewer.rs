//! The per-frame engine: eviction, scheduling of tile loads, the draw list,
//! and the time-budgeted advance of loads in flight.
//!
//! Loading a tile is outside work. The viewer decides which keys to load,
//! which loads to abandon and which to advance next; the caller runs each load
//! and reports its outcome.
use vstd::prelude::*;
use std::collections::VecDeque;
use crate::camera::{
    TileKey, CameraSettings, MAX_SUPPORTED_LOD, view_fits, valid_tile_dims, on_screen, in_range,
    screen_sectors, get_screen_sectors, tile_on_screen,
};
use crate::cache::{TileCache, keys_unique, entries_view, has_key, lemma_entries_view_at};
use crate::lod::{lod_for_zoom, lod_from_zoom};
use crate::render::{DrawTile, draws_down_to, draw_list};
use crate::rolling::{ROLLING_WINDOW, seq_mean, window_after_push, new_rolling_average};

verus! {

/// Every sector of `range` at `lod` has an entry in `cache`.
pub open spec fn view_cached<I>(cache: Map<TileKey, Option<I>>, lod: nat, range: ((int, int), (int, int))) -> bool {
    forall|x: int, y: int|
        #![trigger in_range(x, y, range)]
        in_range(x, y, range) ==> exists|k: TileKey|
            #[trigger] cache.contains_key(k) && k.x == x && k.y == y && k.lod == lod
}

/// The level of detail that the camera asks for.
pub open spec fn desired_lod(camera: CameraSettings, max_lod: nat) -> nat {
    lod_for_zoom(camera.zoom_multiplier as int, max_lod)
}

/// The key is at `lod` and inside `range`.
pub open spec fn wanted_at(key: TileKey, lod: nat, range: ((int, int), (int, int))) -> bool {
    key.lod == lod && in_range(key.x as int, key.y as int, range)
}

/// The cache after the eviction pass: tiles off screen at their own level
/// go; then, only if the desired range at the desired level is fully cached,
/// everything outside that range or at another level goes too.
pub open spec fn cleaned_cache<I>(cache: Map<TileKey, Option<I>>, camera: CameraSettings, dims: (u32, u32), max_lod: nat) -> Map<
    TileKey,
    Option<I>,
> {
    let lod = desired_lod(camera, max_lod);
    let range = screen_sectors(camera, dims, lod);
    let swept = cache.filter_keys(|k: TileKey| on_screen(camera, dims, k));
    if view_cached(swept, lod, range) {
        swept.filter_keys(|k: TileKey| wanted_at(k, lod, range))
    } else {
        swept
    }
}

/// Eviction is gated on the desired view: a tile on screen at its own level,
/// but at a level other than the desired one, stays in the cache as long as
/// some sector of the desired range at the desired level has no entry, and
/// goes once every one of them has an entry (present or confirmed missing).
pub proof fn lemma_eviction_gated<I>(
    cache: Map<TileKey, Option<I>>,
    camera: CameraSettings,
    dims: (u32, u32),
    max_lod: nat,
    stale: TileKey,
)
    requires
        cache.contains_key(stale),
        on_screen(camera, dims, stale),
        stale.lod != desired_lod(camera, max_lod),
    ensures
        cleaned_cache(cache, camera, dims, max_lod).contains_key(stale) <==> !view_cached(
            cache,
            desired_lod(camera, max_lod),
            screen_sectors(camera, dims, desired_lod(camera, max_lod)),
        ),
{
    let lod = desired_lod(camera, max_lod);
    let range = screen_sectors(camera, dims, lod);
    let swept = cache.filter_keys(|k: TileKey| on_screen(camera, dims, k));
    if view_cached(cache, lod, range) {
        assert forall|x: int, y: int| #![trigger in_range(x, y, range)] in_range(x, y, range) implies exists|k: TileKey|
            #[trigger] swept.contains_key(k) && k.x == x && k.y == y && k.lod == lod by {
            let k = choose|k: TileKey| #[trigger] cache.contains_key(k) && k.x == x && k.y == y && k.lod == lod;
            assert(on_screen(camera, dims, k));
            assert(swept.contains_key(k));
        }
    }
    if view_cached(swept, lod, range) {
        assert forall|x: int, y: int| #![trigger in_range(x, y, range)] in_range(x, y, range) implies exists|k: TileKey|
            #[trigger] cache.contains_key(k) && k.x == x && k.y == y && k.lod == lod by {
            let k = choose|k: TileKey| #[trigger] swept.contains_key(k) && k.x == x && k.y == y && k.lod == lod;
            assert(cache.contains_key(k));
        }
    }
    assert(swept.contains_key(stale));
}

/// Whether every sector of the range that covers the screen at `render_lod`
/// has a cache entry, present or confirmed missing.
pub fn current_view_cached<I>(
    texture_cache: &TileCache<I>,
    render_lod: usize,
    camera: &CameraSettings,
    tile_dimensions: (u32, u32),
) -> (r: bool)
    requires
        texture_cache.wf(),
        view_fits(*camera),
        valid_tile_dims(tile_dimensions),
        render_lod <= MAX_SUPPORTED_LOD,
    ensures
        r == view_cached(texture_cache@, render_lod as nat, screen_sectors(*camera, tile_dimensions, render_lod as nat)),
{
    let (top_left, bottom_right) = get_screen_sectors(camera, tile_dimensions, render_lod);
    let ghost range = screen_sectors(*camera, tile_dimensions, render_lod as nat);
    let mut sector_y: i64 = top_left.1 as i64;
    while sector_y <= bottom_right.1 as i64
        invariant
            range == ((top_left.0 as int, top_left.1 as int), (bottom_right.0 as int, bottom_right.1 as int)),
            range == screen_sectors(*camera, tile_dimensions, render_lod as nat),
            texture_cache.wf(),
            top_left.1 <= sector_y,
            sector_y <= bottom_right.1 + 1 || sector_y == top_left.1,
            forall|x: int, y: int|
                #![trigger in_range(x, y, range)]
                in_range(x, y, range) && y < sector_y ==> exists|k: TileKey|
                    #[trigger] texture_cache@.contains_key(k) && k.x == x && k.y == y && k.lod == render_lod,
        decreases bottom_right.1 + 1 - sector_y,
    {
        let mut sector_x: i64 = top_left.0 as i64;
        while sector_x <= bottom_right.0 as i64
            invariant
                range == ((top_left.0 as int, top_left.1 as int), (bottom_right.0 as int, bottom_right.1 as int)),
                range == screen_sectors(*camera, tile_dimensions, render_lod as nat),
                texture_cache.wf(),
                top_left.1 <= sector_y <= bottom_right.1,
                top_left.0 <= sector_x,
                sector_x <= bottom_right.0 + 1 || sector_x == top_left.0,
                forall|x: int, y: int|
                    #![trigger in_range(x, y, range)]
                    in_range(x, y, range) && (y < sector_y || (y == sector_y && x < sector_x)) ==> exists|k: TileKey|
                        #[trigger] texture_cache@.contains_key(k) && k.x == x && k.y == y && k.lod == render_lod,
            decreases bottom_right.0 + 1 - sector_x,
        {
            let key = TileKey { x: sector_x as i32, y: sector_y as i32, lod: render_lod };
            if !texture_cache.contains_key(&key) {
                proof {
                    assert(in_range(sector_x as int, sector_y as int, range));
                    assert forall|k: TileKey| #[trigger] texture_cache@.contains_key(k) implies !(k.x == sector_x
                        && k.y == sector_y && k.lod == render_lod) by {
                        if k.x == sector_x && k.y == sector_y && k.lod == render_lod {
                            assert(k == key);
                        }
                    }
                    assert(!view_cached(texture_cache@, render_lod as nat, range));
                }
                return false;
            }
            sector_x = sector_x + 1;
        }
        sector_y = sector_y + 1;
    }
    true
}

/// A tile's state given the cache and the loads in flight.
pub open spec fn tile_state_of<I>(cache: Map<TileKey, Option<I>>, in_flight: Seq<TileKey>, key: TileKey) -> TileState {
    if in_flight.contains(key) {
        TileState::Pending
    } else if !cache.contains_key(key) {
        TileState::Unrequested
    } else if cache[key].is_some() {
        TileState::Present
    } else {
        TileState::ConfirmedMissing
    }
}

/// Tile state as the rest of the program sees it.
#[derive(Clone, Copy, Debug, PartialEq, Eq, Structural)]
pub enum TileState {
    /// Never requested, or evicted since.
    Unrequested,
    /// A load is in flight.
    Pending,
    /// Loaded, with no image available.
    ConfirmedMissing,
    /// Loaded, with its image in the cache.
    Present,
}

/// The cache, the loads in flight and the decode-time estimate of one view.
pub struct TileViewer<I> {
    texture_cache: TileCache<I>,
    retrieving: Vec<TileKey>,
    tile_dimensions: (u32, u32),
    max_lod: usize,
    rolling_decode_buffer: VecDeque<u64>,
    rolling_average_decode_time: u64,
}

impl<I> TileViewer<I> {
    /// The cache's contents.
    pub closed spec fn cache(&self) -> Map<TileKey, Option<I>> {
        self.texture_cache@
    }

    /// Keys with a load in flight, in the order they are advanced.
    pub closed spec fn in_flight(&self) -> Seq<TileKey> {
        self.retrieving@
    }

    pub closed spec fn dims(&self) -> (u32, u32) {
        self.tile_dimensions
    }

    pub closed spec fn top_lod(&self) -> nat {
        self.max_lod as nat
    }

    /// The most recent decode durations, oldest first.
    pub closed spec fn decode_times(&self) -> Seq<u64> {
        self.rolling_decode_buffer@
    }

    pub closed spec fn average_decode_time(&self) -> u64 {
        self.rolling_average_decode_time
    }

    pub closed spec fn wf(&self) -> bool {
        &&& self.texture_cache.wf()
        &&& self.retrieving@.no_duplicates()
        &&& valid_tile_dims(self.tile_dimensions)
        &&& self.max_lod <= MAX_SUPPORTED_LOD
        &&& forall|k: TileKey| #[trigger] self.texture_cache@.contains_key(k) ==> k.lod <= self.max_lod
        &&& forall|k: TileKey| #[trigger] self.retrieving@.contains(k) ==> k.lod <= self.max_lod
        &&& forall|k: TileKey|
            #[trigger] self.retrieving@.contains(k) ==> !self.texture_cache@.contains_key(k)
        &&& self.rolling_decode_buffer@.len() <= ROLLING_WINDOW
        &&& self.rolling_average_decode_time == seq_mean(self.rolling_decode_buffer@)
    }

    /// An empty viewer for tiles of `tile_dimensions` pixels at level of
    /// detail 0 and levels `0..=max_lod`.
    pub fn new(tile_dimensions: (u32, u32), max_lod: usize) -> (r: Self)
        requires
            valid_tile_dims(tile_dimensions),
            max_lod <= MAX_SUPPORTED_LOD,
        ensures
            r.wf(),
            r.cache() == Map::<TileKey, Option<I>>::empty(),
            r.in_flight() == Seq::<TileKey>::empty(),
            r.dims() == tile_dimensions,
            r.top_lod() == max_lod,
            r.decode_times() == Seq::<u64>::empty(),
            r.average_decode_time() == 0,
    {
        TileViewer {
            texture_cache: TileCache::new(),
            retrieving: Vec::new(),
            tile_dimensions,
            max_lod,
            rolling_decode_buffer: VecDeque::new(),
            rolling_average_decode_time: 0,
        }
    }

    /// What the viewer keeps true between calls: each key is in flight at
    /// most once, a key in flight has no cache entry, and every key, cached or
    /// in flight, is at a level from 0 to the highest one.
    pub proof fn lemma_wf_parts(&self)
        requires
            self.wf(),
        ensures
            self.in_flight().no_duplicates(),
            forall|k: TileKey| #[trigger] self.in_flight().contains(k) ==> !self.cache().contains_key(k),
            forall|k: TileKey| #[trigger] self.in_flight().contains(k) ==> k.lod <= self.top_lod(),
            forall|k: TileKey| #[trigger] self.cache().contains_key(k) ==> k.lod <= self.top_lod(),
            valid_tile_dims(self.dims()),
            self.top_lod() <= MAX_SUPPORTED_LOD,
            self.decode_times().len() <= ROLLING_WINDOW,
            self.average_decode_time() == seq_mean(self.decode_times()),
    {
    }

    /// The cache's entries in iteration order.
    pub closed spec fn cache_order(&self) -> Seq<(TileKey, Option<I>)> {
        self.texture_cache.entry_seq()
    }

    pub proof fn lemma_cache_order(&self)
        requires
            self.wf(),
        ensures
            keys_unique(self.cache_order()),
            self.cache() == entries_view(self.cache_order()),
    {
        self.texture_cache.lemma_entry_seq();
    }

    /// Highest level of detail on disk.
    pub fn max_lod(&self) -> (r: usize)
        ensures
            r == self.top_lod(),
    {
        self.max_lod
    }

    /// Pixel size of a tile at level of detail 0.
    pub fn tile_dimensions(&self) -> (r: (u32, u32))
        ensures
            r == self.dims(),
    {
        self.tile_dimensions
    }

    /// Mean of the recent decode durations, rounded down.
    pub fn rolling_average_decode_time(&self) -> (r: u64)
        ensures
            r == self.average_decode_time(),
    {
        self.rolling_average_decode_time
    }

    /// The recent decode durations, oldest first.
    pub fn decode_buffer(&self) -> (r: &VecDeque<u64>)
        ensures
            r@ == self.decode_times(),
    {
        &self.rolling_decode_buffer
    }

    /// Keys with a load in flight, in the order they are advanced.
    pub fn in_flight_keys(&self) -> (r: &Vec<TileKey>)
        ensures
            r@ == self.in_flight(),
    {
        &self.retrieving
    }

    /// The cache itself, for reading.
    pub fn texture_cache(&self) -> (r: &TileCache<I>)
        requires
            self.wf(),
        ensures
            r.wf(),
            r@ == self.cache(),
            r.entry_seq() == self.cache_order(),
    {
        &self.texture_cache
    }

    /// Where the tile stands: unrequested, pending, confirmed missing or present.
    pub fn tile_state(&self, key: &TileKey) -> (r: TileState)
        requires
            self.wf(),
        ensures
            r == tile_state_of(self.cache(), self.in_flight(), *key),
    {
        if vec_contains(&self.retrieving, key) {
            return TileState::Pending;
        }
        match self.texture_cache.get(key) {
            None => TileState::Unrequested,
            Some(entry) => {
                if entry.is_some() {
                    TileState::Present
                } else {
                    TileState::ConfirmedMissing
                }
            },
        }
    }

    /// The cached image of the tile, if there is one.
    pub fn image(&self, key: &TileKey) -> (r: Option<&I>)
        requires
            self.wf(),
        ensures
            r.is_some() == (self.cache().contains_key(*key) && self.cache()[*key].is_some()),
            r.is_some() ==> Some(*r.unwrap()) == self.cache()[*key],
    {
        match self.texture_cache.get(key) {
            None => None,
            Some(entry) => entry.as_ref(),
        }
    }

    /// Every cached image on screen at its own level of detail, coarsest level
    /// first, with its destination rectangle.
    pub fn render_screen_tiles(&self, camera: &CameraSettings, show_culling: bool) -> (r: Vec<DrawTile>)
        requires
            self.wf(),
            view_fits(*camera),
        ensures
            r@ == draws_down_to(self.cache_order(), *camera, self.dims(), show_culling, self.top_lod() as int, 0),
    {
        draw_list(&self.texture_cache, camera, self.tile_dimensions, self.max_lod, show_culling)
    }

    /// Removes unused tiles from the cache and hands them back for release.
    ///
    /// First every tile outside the range that covers the screen at its own
    /// level of detail goes. Then, only once every sector of the desired range
    /// at the desired level has an entry, every tile not in that range at that
    /// level goes too.
    pub fn clean_tile_texture_cache(&mut self, camera: &CameraSettings) -> (removed: Vec<(TileKey, Option<I>)>)
        requires
            old(self).wf(),
            view_fits(*camera),
        ensures
            final(self).wf(),
            final(self).cache() == cleaned_cache(old(self).cache(), *camera, old(self).dims(), old(self).top_lod()),
            keys_unique(removed@),
            entries_view(removed@) == old(self).cache().remove_keys(final(self).cache().dom()),
            final(self).in_flight() == old(self).in_flight(),
            final(self).dims() == old(self).dims(),
            final(self).top_lod() == old(self).top_lod(),
            final(self).decode_times() == old(self).decode_times(),
            final(self).average_decode_time() == old(self).average_decode_time(),
    {
        let lod = lod_from_zoom(camera.zoom_multiplier, self.max_lod);
        let (top_left, bottom_right) = get_screen_sectors(camera, self.tile_dimensions, lod);
        let ghost range = screen_sectors(*camera, self.tile_dimensions, lod as nat);
        let ghost dims = self.tile_dimensions;
        let ghost initial = self.texture_cache@;

        // tiles out of view at their own level of detail
        let ghost keep_visible = |k: TileKey| on_screen(*camera, dims, k);
        let mut flags: Vec<bool> = Vec::new();
        let n = self.texture_cache.len();
        let mut i: usize = 0;
        proof {
            self.texture_cache.lemma_entry_seq();
        }
        while i < n
            invariant
                self.wf(),
                view_fits(*camera),
                dims == self.tile_dimensions,
                n == self.texture_cache.entry_seq().len(),
                i <= n,
                flags@.len() == i,
                forall|t: int| 0 <= t < i ==> #[trigger] flags@[t] == on_screen(*camera, dims, self.texture_cache.entry_seq()[t].0),
            decreases n - i,
        {
            let key = self.texture_cache.entry_at(i).0;
            proof {
                self.texture_cache.lemma_entry_seq();
                lemma_entries_view_at(self.texture_cache.entry_seq(), i as int);
            }
            let visible = tile_on_screen(key, camera, self.tile_dimensions);

            flags.push(visible);
            i = i + 1;
        }
        let mut removed = self.texture_cache.retain_flagged(Ghost(keep_visible), &flags);
        let ghost swept = self.texture_cache@;
        proof {
            assert forall|k: TileKey| #[trigger] self.texture_cache@.contains_key(k) implies k.lod <= self.max_lod by {
                assert(initial.contains_key(k));
            }
            assert forall|k: TileKey| #[trigger] self.retrieving@.contains(k) implies !self.texture_cache@.contains_key(k) by {
                assert(!initial.contains_key(k));
            }
        }

        // tiles of the wrong level or range, once the desired view is complete
        let fully_rendered = current_view_cached(&self.texture_cache, lod, camera, self.tile_dimensions);
        if fully_rendered {
            let ghost keep_wanted = |k: TileKey| wanted_at(k, lod as nat, range);
            let mut flags: Vec<bool> = Vec::new();
            let n = self.texture_cache.len();
            let mut i: usize = 0;
            while i < n
                invariant
                    self.wf(),
                    range == ((top_left.0 as int, top_left.1 as int), (bottom_right.0 as int, bottom_right.1 as int)),
                    n == self.texture_cache.entry_seq().len(),
                    i <= n,
                    flags@.len() == i,
                    forall|t: int| 0 <= t < i ==> #[trigger] flags@[t] == wanted_at(self.texture_cache.entry_seq()[t].0, lod as nat, range),
                decreases n - i,
            {
                let key = self.texture_cache.entry_at(i).0;
                let wanted = key.lod == lod && key.x >= top_left.0 && key.y >= top_left.1 && key.x
                    <= bottom_right.0 && key.y <= bottom_right.1;
                assert(wanted == wanted_at(key, lod as nat, range));
                flags.push(wanted);
                i = i + 1;
            }
            let mut more = self.texture_cache.retain_flagged(Ghost(keep_wanted), &flags);
            proof {
                assert forall|k: TileKey| #[trigger] has_key(removed@, k) implies !has_key(more@, k) by {
                    assert(entries_view(removed@).contains_key(k));
                    if has_key(more@, k) {
                        assert(entries_view(more@).contains_key(k));
                        assert(swept.contains_key(k));
                    }
                }
                lemma_append_entries(removed@, more@);
                assert forall|k: TileKey| #[trigger] self.texture_cache@.contains_key(k) implies k.lod <= self.max_lod by {
                    assert(initial.contains_key(k));
                }
                assert forall|k: TileKey| #[trigger] self.retrieving@.contains(k) implies !self.texture_cache@.contains_key(k) by {
                    assert(!initial.contains_key(k));
                }
            }
            removed.append(&mut more);
            proof {
                assert(entries_view(removed@) =~= initial.remove_keys(self.texture_cache@.dom()));
            }
        } else {
            proof {
                assert(entries_view(removed@) =~= initial.remove_keys(self.texture_cache@.dom()));
            }
        }
        removed
    }

    /// Starts a load for every sector of the desired range at the desired
    /// level that has no cache entry and no load in flight, and returns the
    /// keys it started, which join the end of the in-flight order.
    pub fn queue_desired_textures(&mut self, camera: &CameraSettings) -> (queued: Vec<TileKey>)
        requires
            old(self).wf(),
            view_fits(*camera),
        ensures
            final(self).wf(),
            final(self).in_flight() == old(self).in_flight() + queued@,
            queued@.no_duplicates(),
            forall|k: TileKey| #[trigger] queued@.contains(k) <==> needs_load(
                old(self).cache(),
                old(self).in_flight(),
                *camera,
                old(self).dims(),
                old(self).top_lod(),
                k,
            ),
            final(self).cache() == old(self).cache(),
            final(self).dims() == old(self).dims(),
            final(self).top_lod() == old(self).top_lod(),
            final(self).decode_times() == old(self).decode_times(),
            final(self).average_decode_time() == old(self).average_decode_time(),
    {
        let lod = lod_from_zoom(camera.zoom_multiplier, self.max_lod);
        let (top_left, bottom_right) = get_screen_sectors(camera, self.tile_dimensions, lod);
        let ghost range = screen_sectors(*camera, self.tile_dimensions, lod as nat);
        let ghost before = self.retrieving@;
        let ghost old_self = *self;
        let ghost wanted = |k: TileKey| needs_load(old_self.cache(), before, *camera, old_self.dims(), old_self.top_lod(), k);
        let mut queued: Vec<TileKey> = Vec::new();
        let mut sector_y: i64 = top_left.1 as i64;
        while sector_y <= bottom_right.1 as i64
            invariant
                self.wf(),
                self.texture_cache@ == old_self.texture_cache@,
                self.tile_dimensions == old_self.tile_dimensions,
                self.max_lod == old_self.max_lod,
                self.rolling_decode_buffer@ == old_self.rolling_decode_buffer@,
                self.rolling_average_decode_time == old_self.rolling_average_decode_time,
                before == old_self.retrieving@,
                lod == desired_lod(*camera, old_self.max_lod as nat),
                lod <= old_self.max_lod,
                range == screen_sectors(*camera, old_self.tile_dimensions, lod as nat),
                range == ((top_left.0 as int, top_left.1 as int), (bottom_right.0 as int, bottom_right.1 as int)),
                wanted == (|k: TileKey| needs_load(old_self.cache(), before, *camera, old_self.dims(), old_self.top_lod(), k)),
                top_left.1 <= sector_y,
                sector_y <= bottom_right.1 + 1 || sector_y == top_left.1,
                self.retrieving@ == before + queued@,
                forall|k: TileKey| #[trigger] queued@.contains(k) ==> wanted(k) && k.y < sector_y,
                forall|k: TileKey| #[trigger] wanted(k) && k.y < sector_y ==> queued@.contains(k),
            decreases bottom_right.1 + 1 - sector_y,
        {
            let mut sector_x: i64 = top_left.0 as i64;
            while sector_x <= bottom_right.0 as i64
                invariant
                    self.wf(),
                    self.texture_cache@ == old_self.texture_cache@,
                    self.tile_dimensions == old_self.tile_dimensions,
                    self.max_lod == old_self.max_lod,
                    self.rolling_decode_buffer@ == old_self.rolling_decode_buffer@,
                    self.rolling_average_decode_time == old_self.rolling_average_decode_time,
                    before == old_self.retrieving@,
                    lod == desired_lod(*camera, old_self.max_lod as nat),
                    lod <= old_self.max_lod,
                    range == screen_sectors(*camera, old_self.tile_dimensions, lod as nat),
                    range == ((top_left.0 as int, top_left.1 as int), (bottom_right.0 as int, bottom_right.1 as int)),
                    wanted == (|k: TileKey| needs_load(old_self.cache(), before, *camera, old_self.dims(), old_self.top_lod(), k)),
                    top_left.1 <= sector_y <= bottom_right.1,
                    top_left.0 <= sector_x,
                    sector_x <= bottom_right.0 + 1 || sector_x == top_left.0,
                    self.retrieving@ == before + queued@,
                    forall|k: TileKey| #[trigger] queued@.contains(k) ==> wanted(k) && (k.y < sector_y || (k.y == sector_y && k.x < sector_x)),
                    forall|k: TileKey| #[trigger] wanted(k) && (k.y < sector_y || (k.y == sector_y && k.x < sector_x)) ==> queued@.contains(k),
                decreases bottom_right.0 + 1 - sector_x,
            {
                let key = TileKey { x: sector_x as i32, y: sector_y as i32, lod };
                let cached = self.texture_cache.contains_key(&key);
                let pending = vec_contains(&self.retrieving, &key);
                proof {
                    assert(before + queued@ == self.retrieving@);
                    if self.retrieving@.contains(key) {
                        let j = choose|j: int| 0 <= j < self.retrieving@.len() && self.retrieving@[j] == key;
                        if j >= before.len() {
                            assert(queued@[j - before.len()] == key);
                            assert(queued@.contains(key));
                        } else {
                            assert(before[j] == key);
                            assert(before.contains(key));
                        }
                    }
                    if before.contains(key) {
                        let j = choose|j: int| 0 <= j < before.len() && before[j] == key;
                        assert(self.retrieving@[j] == key);
                    }
                }
                if !cached && !pending {
                    let ghost prev = queued@;
                    let ghost prev_r = self.retrieving@;
                    queued.push(key);
                    self.retrieving.push(key);
                    proof {
                        assert(wanted(key));
                        assert(self.retrieving@ =~= before + queued@);
                        assert forall|k: TileKey| #[trigger] queued@.contains(k) implies wanted(k) && (k.y < sector_y || (k.y == sector_y && k.x < sector_x + 1)) by {
                            if k != key {
                                let j = choose|j: int| 0 <= j < queued@.len() && queued@[j] == k;
                                assert(prev[j] == k);
                                assert(prev.contains(k));
                            }
                        }
                        assert forall|k: TileKey| #[trigger] wanted(k) && (k.y < sector_y || (k.y == sector_y && k.x < sector_x + 1)) implies queued@.contains(k) by {
                            if k == key {
                                assert(queued@[queued@.len() - 1] == key);
                            } else {
                                assert(prev.contains(k));
                                let j = choose|j: int| 0 <= j < prev.len() && prev[j] == k;
                                assert(queued@[j] == k);
                            }
                        }
                        assert forall|k: TileKey| #[trigger] self.retrieving@.contains(k) implies k.lod <= self.max_lod && !self.texture_cache@.contains_key(k) by {
                            if k != key {
                                let j = choose|j: int| 0 <= j < self.retrieving@.len() && self.retrieving@[j] == k;
                                assert(j < self.retrieving@.len() - 1);
                                assert(prev_r[j] == k);
                                assert(prev_r.contains(k));
                            }
                        }
                    }
                } else {
                    proof {
                        assert(!wanted(key));
                        assert forall|k: TileKey| #[trigger] wanted(k) && (k.y < sector_y || (k.y == sector_y && k.x < sector_x + 1)) implies queued@.contains(k) by {
                            if k.y == sector_y && k.x == sector_x {
                                assert(k == key);
                            }
                        }
                    }
                }
                sector_x = sector_x + 1;
            }
            sector_y = sector_y + 1;
        }
        proof {
            assert forall|a: int, b: int| 0 <= a < queued@.len() && 0 <= b < queued@.len() && a != b implies queued@[a] != queued@[b] by {
                assert(queued@[a] == self.retrieving@[before.len() + a]);
                assert(queued@[b] == self.retrieving@[before.len() + b]);
            }
            assert forall|k: TileKey| #[trigger] queued@.contains(k) <==> wanted(k) by {
                if wanted(k) {
                    assert(in_range(k.x as int, k.y as int, range));
                }
            }
        }
        queued
    }

    /// Starts one budgeted advance of the loads in flight: every load whose
    /// level is no longer the desired one is abandoned, and its key handed
    /// back so that the caller can drop the work.
    pub fn begin_retrieval(&mut self, camera: &CameraSettings, frame_start_time: u64, frame_time_limit: u64) -> (r: (
        RetrievalRound,
        Vec<TileKey>,
    ))
        requires
            old(self).wf(),
        ensures
            final(self).wf(),
            r.0 == (RetrievalRound {
                lod: desired_lod(*camera, old(self).top_lod()) as usize,
                frame_start_time,
                frame_time_limit,
                position: 0,
                tiles_completed: 0,
            }),
            final(self).in_flight() == kept_in_flight(old(self).in_flight(), desired_lod(*camera, old(self).top_lod())),
            r.1@ == old(self).in_flight().filter(|k: TileKey| k.lod != desired_lod(*camera, old(self).top_lod())),
            final(self).cache() == old(self).cache(),
            final(self).dims() == old(self).dims(),
            final(self).top_lod() == old(self).top_lod(),
            final(self).decode_times() == old(self).decode_times(),
            final(self).average_decode_time() == old(self).average_decode_time(),
    {
        let lod = lod_from_zoom(camera.zoom_multiplier, self.max_lod);
        let mut rest: Vec<TileKey> = Vec::new();
        std::mem::swap(&mut self.retrieving, &mut rest);
        let ghost before = rest@;
        let ghost old_self = *old(self);
        let ghost keep = |k: TileKey| k.lod == lod;
        let ghost drop = |k: TileKey| k.lod != lod;
        let mut cancelled: Vec<TileKey> = Vec::new();
        let n = rest.len();
        let mut i: usize = 0;
        while i < n
            invariant
                n == before.len(),
                i <= n,
                rest@ == before,
                before == old_self.retrieving@,
                old_self.wf(),
                lod <= old_self.max_lod,
                lod == desired_lod(*camera, old_self.max_lod as nat),
                self.texture_cache == old_self.texture_cache,
                self.tile_dimensions == old_self.tile_dimensions,
                self.max_lod == old_self.max_lod,
                self.rolling_decode_buffer == old_self.rolling_decode_buffer,
                self.rolling_average_decode_time == old_self.rolling_average_decode_time,
                before.no_duplicates(),
                keep == (|k: TileKey| k.lod == lod),
                drop == (|k: TileKey| k.lod != lod),
                self.retrieving@ == before.take(i as int).filter(keep),
                cancelled@ == before.take(i as int).filter(drop),
                self.retrieving@.no_duplicates(),
                forall|k: TileKey| #[trigger] self.retrieving@.contains(k) ==> before.take(i as int).contains(k),
            decreases n - i,
        {
            let key = rest[i];
            proof {
                reveal(Seq::filter);
                assert(before.take(i as int + 1).drop_last() =~= before.take(i as int));
                assert(before.take(i as int + 1).last() == key);
            }
            if key.lod == lod {
                proof {
                    if self.retrieving@.contains(key) {
                        let j = choose|j: int| 0 <= j < i && before.take(i as int)[j] == key;
                        assert(before[j] == before[i as int]);
                    }
                }
                let ghost prev = self.retrieving@;
                self.retrieving.push(key);
                proof {
                    assert forall|k: TileKey| #[trigger] self.retrieving@.contains(k) implies before.take(i as int + 1).contains(k) by {
                        let j = choose|j: int| 0 <= j < self.retrieving@.len() && self.retrieving@[j] == k;
                        if j < prev.len() {
                            assert(prev[j] == k);
                            assert(prev.contains(k));
                            let t = choose|t: int| 0 <= t < i && before.take(i as int)[t] == k;
                            assert(before.take(i as int + 1)[t] == k);
                        } else {
                            assert(before.take(i as int + 1)[i as int] == k);
                        }
                    }
                }
            } else {
                cancelled.push(key);
                proof {
                    assert forall|k: TileKey| #[trigger] self.retrieving@.contains(k) implies before.take(i as int + 1).contains(k) by {
                        let t = choose|t: int| 0 <= t < i && before.take(i as int)[t] == k;
                        assert(before.take(i as int + 1)[t] == k);
                    }
                }
            }
            i = i + 1;
        }
        proof {
            assert(before.take(n as int) =~= before);
            assert forall|k: TileKey| #[trigger] self.retrieving@.contains(k) implies before.contains(k) by {
                let t = choose|t: int| 0 <= t < n && before.take(n as int)[t] == k;
                assert(before[t] == k);
            }
        }
        let round = RetrievalRound {
            lod,
            frame_start_time,
            frame_time_limit,
            position: 0,
            tiles_completed: 0,
        };
        (round, cancelled)
    }

    /// The next load to advance in this round, or `None` once there is none
    /// left or, after at least one load completed in this round, once the
    /// time spent plus the average decode time passes 70% of the frame budget.
    pub fn next_retrieval(&self, round: &RetrievalRound, now: u64) -> (r: Option<TileKey>)
        requires
            self.wf(),
            round.position <= self.in_flight().len(),
        ensures
            r == next_step(self.in_flight(), *round, self.average_decode_time() as int, now as int),
    {
        if round.position >= self.retrieving.len() {
            return None;
        }
        if round.tiles_completed != 0 {
            let elapsed: u64 = if now >= round.frame_start_time {
                now - round.frame_start_time
            } else {
                0
            };
            let spent: u128 = elapsed as u128 + self.rolling_average_decode_time as u128;
            if 10 * spent > 7 * (round.frame_time_limit as u128) {
                return None;
            }
        }
        Some(self.retrieving[round.position])
    }

    /// Reports how the load chosen by `next_retrieval` went: `None` if it is
    /// still running, `Some(image)` once it finished, with the image or
    /// `None` where none could be had. A finished load counts as completed in
    /// the round, leaves the in-flight order, and its outcome enters the
    /// cache; a decoded image also enters the rolling decode-time estimate
    /// with `decode_time`.
    pub fn finish_retrieval(&mut self, round: &mut RetrievalRound, outcome: Option<Option<I>>, decode_time: u64)
        requires
            old(self).wf(),
            old(round).position < old(self).in_flight().len(),
            old(round).tiles_completed < u64::MAX,
        ensures
            final(self).wf(),
            final(self).dims() == old(self).dims(),
            final(self).top_lod() == old(self).top_lod(),
            final(round).lod == old(round).lod,
            final(round).frame_start_time == old(round).frame_start_time,
            final(round).frame_time_limit == old(round).frame_time_limit,
            match outcome {
                None => {
                    &&& final(round).position == old(round).position + 1
                    &&& final(round).tiles_completed == old(round).tiles_completed
                    &&& final(self).cache() == old(self).cache()
                    &&& final(self).in_flight() == old(self).in_flight()
                    &&& final(self).decode_times() == old(self).decode_times()
                    &&& final(self).average_decode_time() == old(self).average_decode_time()
                },
                Some(image) => {
                    let key = old(self).in_flight()[old(round).position as int];
                    &&& final(round).position == old(round).position
                    &&& final(self).in_flight() == old(self).in_flight().remove(old(round).position as int)
                    &&& final(self).cache() == old(self).cache().insert(key, image)
                    &&& final(round).tiles_completed == old(round).tiles_completed + 1
                    &&& if image.is_some() {
                        &&& final(self).decode_times() == window_after_push(old(self).decode_times(), decode_time)
                        &&& final(self).average_decode_time() == seq_mean(final(self).decode_times())
                    } else {
                        &&& final(self).decode_times() == old(self).decode_times()
                        &&& final(self).average_decode_time() == old(self).average_decode_time()
                    }
                },
            },
    {
        match outcome {
            None => {
                let len = self.retrieving.len();
                assert(round.position < len);
                round.position = round.position + 1;
            },
            Some(image) => {
                let ghost before = self.retrieving@;
                let ghost old_cache = self.texture_cache@;
                let key = self.retrieving.remove(round.position);
                let decoded = image.is_some();
                self.texture_cache.insert(key, image);
                round.tiles_completed = round.tiles_completed + 1;
                if decoded {
                    self.rolling_average_decode_time = new_rolling_average(decode_time, &mut self.rolling_decode_buffer);
                }
                proof {
                    let p = old(round).position as int;
                    assert(self.retrieving@ == before.remove(p));
                    assert forall|k: TileKey| #[trigger] self.retrieving@.contains(k) implies before.contains(k) && k != key by {
                        let j = choose|j: int| 0 <= j < self.retrieving@.len() && self.retrieving@[j] == k;
                        if j < p {
                            assert(before[j] == k);
                        } else {
                            assert(before[j + 1] == k);
                        }
                    }
                    assert forall|a: int, b: int| 0 <= a < self.retrieving@.len() && 0 <= b < self.retrieving@.len() && a != b implies self.retrieving@[a] != self.retrieving@[b] by {
                        let a0 = if a < p { a } else { a + 1 };
                        let b0 = if b < p { b } else { b + 1 };
                        assert(self.retrieving@[a] == before[a0]);
                        assert(self.retrieving@[b] == before[b0]);
                    }
                    assert(before.contains(key));
                    assert forall|k: TileKey| #[trigger] self.texture_cache@.contains_key(k) implies k.lod <= self.max_lod by {
                        if k != key {
                            assert(old_cache.contains_key(k));
                        }
                    }
                }
            },
        }
    }
}

/// The state of one budgeted advance of the loads in flight.
#[derive(Clone, Copy, Debug, PartialEq, Eq)]
pub struct RetrievalRound {
    /// The desired level of detail when the round began.
    pub lod: usize,
    /// When the frame began, in microseconds.
    pub frame_start_time: u64,
    /// The frame's time budget, in microseconds.
    pub frame_time_limit: u64,
    /// Position in the in-flight order of the next load to consider.
    pub position: usize,
    /// Loads completed so far in this round, with or without an image.
    pub tiles_completed: u64,
}

/// The loads that stay in flight when the desired level is `lod`.
pub open spec fn kept_in_flight(in_flight: Seq<TileKey>, lod: nat) -> Seq<TileKey> {
    in_flight.filter(|k: TileKey| k.lod == lod)
}

/// Time since the frame began; a clock reading before the start counts as none.
pub open spec fn elapsed_since(now: int, start: int) -> int {
    if now >= start {
        now - start
    } else {
        0
    }
}

/// The time spent plus the average decode time exceeds 70% of the budget.
pub open spec fn over_budget(elapsed: int, average: int, limit: int) -> bool {
    10 * (elapsed + average) > 7 * limit
}

/// The load that the round advances next, if any.
pub open spec fn next_step(in_flight: Seq<TileKey>, round: RetrievalRound, average: int, now: int) -> Option<TileKey> {
    if round.position >= in_flight.len() {
        None
    } else if round.tiles_completed != 0 && over_budget(
        elapsed_since(now, round.frame_start_time as int),
        average,
        round.frame_time_limit as int,
    ) {
        None
    } else {
        Some(in_flight[round.position as int])
    }
}

/// Forward progress: while no load has completed in a round, the round
/// advances the next load in flight whatever the clock and the estimate say.
pub proof fn lemma_forward_progress(in_flight: Seq<TileKey>, round: RetrievalRound, average: int, now: int)
    requires
        round.tiles_completed == 0,
        round.position < in_flight.len(),
    ensures
        next_step(in_flight, round, average, now) == Some(in_flight[round.position as int]),
{
}

/// Deferral: once a load has completed in a round, with or without an image,
/// a round whose time spent plus average decode time passes 70% of the budget
/// advances nothing more; the loads left stay in flight for the next frame.
pub proof fn lemma_budget_defers(in_flight: Seq<TileKey>, round: RetrievalRound, average: int, now: int)
    requires
        round.tiles_completed != 0,
        over_budget(elapsed_since(now, round.frame_start_time as int), average, round.frame_time_limit as int),
    ensures
        next_step(in_flight, round, average, now) == None::<TileKey>,
{
}

/// Cancellation: a load in flight at a level other than the desired one is
/// dropped when a round begins, and its tile is not in the cache.
pub proof fn lemma_cancelled_load_dropped<I>(viewer: TileViewer<I>, camera: CameraSettings, key: TileKey)
    requires
        viewer.wf(),
        viewer.in_flight().contains(key),
        key.lod != desired_lod(camera, viewer.top_lod()),
    ensures
        !kept_in_flight(viewer.in_flight(), desired_lod(camera, viewer.top_lod())).contains(key),
        !viewer.cache().contains_key(key),
{
    let lod = desired_lod(camera, viewer.top_lod());
    let kept = kept_in_flight(viewer.in_flight(), lod);
    broadcast use vstd::seq_lib::group_filter_ensures;
    if kept.contains(key) {
        let j = choose|j: int| 0 <= j < kept.len() && kept[j] == key;
        assert((|k: TileKey| k.lod == lod)(kept[j]));
    }
}

/// The key is in the desired range at the desired level, with no cache entry
/// and no load in flight.
pub open spec fn needs_load<I>(
    cache: Map<TileKey, Option<I>>,
    in_flight: Seq<TileKey>,
    camera: CameraSettings,
    dims: (u32, u32),
    max_lod: nat,
    key: TileKey,
) -> bool {
    let lod = desired_lod(camera, max_lod);
    &&& wanted_at(key, lod, screen_sectors(camera, dims, lod))
    &&& !cache.contains_key(key)
    &&& !in_flight.contains(key)
}

fn vec_contains(v: &Vec<TileKey>, key: &TileKey) -> (r: bool)
    ensures
        r == v@.contains(*key),
{
    let mut i: usize = 0;
    while i < v.len()
        invariant
            i <= v@.len(),
            forall|j: int| 0 <= j < i ==> v@[j] != *key,
        decreases v@.len() - i,
    {
        if v[i] == *key {
            return true;
        }
        i = i + 1;
    }
    false
}

/// Joining two entry lists with no key in common.
proof fn lemma_append_entries<V>(a: Seq<(TileKey, V)>, b: Seq<(TileKey, V)>)
    requires
        keys_unique(a),
        keys_unique(b),
        forall|k: TileKey| #[trigger] has_key(a, k) ==> !has_key(b, k),
    ensures
        keys_unique(a + b),
        entries_view(a + b) == entries_view(a).union_prefer_right(entries_view(b)),
{
    let s = a + b;
    assert forall|i: int, j: int| 0 <= i < s.len() && 0 <= j < s.len() && i != j implies #[trigger] s[i].0
        != #[trigger] s[j].0 by {
        if i < a.len() && j >= a.len() {
            assert(has_key(a, s[i].0));
            assert(b[j - a.len()].0 == s[j].0);
        } else if j < a.len() && i >= a.len() {
            assert(has_key(a, s[j].0));
            assert(b[i - a.len()].0 == s[i].0);
        } else if i < a.len() {
            assert(a[i] == s[i] && a[j] == s[j]);
        } else {
            assert(b[i - a.len()] == s[i] && b[j - a.len()] == s[j]);
        }
    }
    assert forall|k: TileKey| #[trigger] entries_view(s).contains_key(k) == entries_view(a).union_prefer_right(
        entries_view(b),
    ).contains_key(k) by {
        if has_key(s, k) {
            let i = choose|i: int| 0 <= i < s.len() && #[trigger] s[i].0 == k;
            if i < a.len() {
                assert(a[i].0 == k);
            } else {
                assert(b[i - a.len()].0 == k);
            }
        }
        if has_key(a, k) {
            let i = choose|i: int| 0 <= i < a.len() && #[trigger] a[i].0 == k;
            assert(s[i].0 == k);
        }
        if has_key(b, k) {
            let i = choose|i: int| 0 <= i < b.len() && #[trigger] b[i].0 == k;
            assert(s[i + a.len()].0 == k);
        }
    }
    assert forall|k: TileKey| #[trigger] entries_view(s).contains_key(k) implies entries_view(s)[k]
        == entries_view(a).union_prefer_right(entries_view(b))[k] by {
        let i = choose|i: int| 0 <= i < s.len() && #[trigger] s[i].0 == k;
        lemma_entries_view_at(s, i);
        if i < a.len() {
            assert(a[i] == s[i]);
            lemma_entries_view_at(a, i);
            assert(!has_key(b, k));
        } else {
            assert(b[i - a.len()] == s[i]);
            lemma_entries_view_at(b, i - a.len());
        }
    }
    assert(entries_view(s) =~= entries_view(a).union_prefer_right(entries_view(b)));
}

} // verus!