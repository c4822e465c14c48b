//! Level-of-detail selection from the camera's zoom multiplier.
use vstd::prelude::*;
use vstd::arithmetic::power2::pow2;
use vstd::arithmetic::mul::lemma_mul_inequality;
use crate::camera::{pow2_u64, MAX_SUPPORTED_LOD};

verus! {

/// The fuzziness constant 1.0, in fixed-point steps: level `l` is reached
/// once the zoom drops below `LOD_FUZZINESS / 2^l`.
pub const LOD_FUZZINESS: u64 = 1_000_000;

/// Level `level` is fine enough for `zoom`: `zoom < LOD_FUZZINESS / 2^level`.
pub open spec fn level_reached(zoom: int, level: nat) -> bool {
    zoom * pow2(level) < LOD_FUZZINESS
}

/// The largest level in `0..=max_lod` reached by `zoom`, or 0 where none is.
pub open spec fn lod_for_zoom(zoom: int, max_lod: nat) -> nat
    decreases max_lod,
{
    if max_lod == 0 {
        0
    } else if level_reached(zoom, max_lod) {
        max_lod
    } else {
        lod_for_zoom(zoom, (max_lod - 1) as nat)
    }
}

/// Selects the level of detail to render at for a zoom multiplier.
pub fn lod_from_zoom(zoom_multiplier: u32, max_lod: usize) -> (r: usize)
    requires
        max_lod <= MAX_SUPPORTED_LOD,
    ensures
        r == lod_for_zoom(zoom_multiplier as int, max_lod as nat),
        r <= max_lod,
{
    let mut level: usize = max_lod;
    while level > 0
        invariant
            level <= max_lod <= MAX_SUPPORTED_LOD,
            lod_for_zoom(zoom_multiplier as int, max_lod as nat) == lod_for_zoom(zoom_multiplier as int, level as nat),
        decreases level,
    {
        let step = pow2_u64(level);
        assert((zoom_multiplier as u64) * step <= 0xFFFF_FFFFu64 * 0x8000_0000u64) by (nonlinear_arith)
            requires zoom_multiplier <= 0xFFFF_FFFFu64, step <= 0x8000_0000u64;
        if (zoom_multiplier as u64) * step < LOD_FUZZINESS {
            return level;
        }
        level = level - 1;
    }
    0
}

proof fn lemma_lod_at_most(zoom: int, max_lod: nat)
    ensures
        lod_for_zoom(zoom, max_lod) <= max_lod,
    decreases max_lod,
{
    if max_lod > 0 {
        lemma_lod_at_most(zoom, (max_lod - 1) as nat);
    }
}

/// Zooming in never selects a coarser level: for a fixed maximum level, the
/// selected level does not increase as the zoom multiplier increases.
pub proof fn lemma_lod_monotonic(zoom_low: int, zoom_high: int, max_lod: nat)
    requires
        0 <= zoom_low <= zoom_high,
    ensures
        lod_for_zoom(zoom_high, max_lod) <= lod_for_zoom(zoom_low, max_lod),
    decreases max_lod,
{
    lemma_lod_at_most(zoom_high, max_lod);
    if max_lod > 0 {
        lemma_mul_inequality(zoom_low, zoom_high, pow2(max_lod) as int);
        lemma_lod_monotonic(zoom_low, zoom_high, (max_lod - 1) as nat);
        lemma_lod_at_most(zoom_high, (max_lod - 1) as nat);
    }
}

} // verus!
