//! The whole conversion from a black/white grid to heightmap pixels.
use crate::error::ValleyError;
use crate::field::{
    get_maxmin_sqdist,
    is_distance_field,
    is_field_entry,
    is_max_min_sqdist,
    some_pixel_overflows,
};
use crate::geometry::{lemma_distinct_cells_apart, sq_dist};
use crate::height::{colorize, color_of, gray, height_level, lemma_height_in_range, Rgba8};
use crate::nearest::{has_black, has_white, is_black, is_nearest_white, is_white};
use vstd::prelude::*;

verus! {

/// Output pixel `p` of pixel `k` when the largest nearest-white squared
/// distance is `m`: pure white for a white pixel, and for a black one the gray
/// level `255 - round(d / m * 255)`, with `d` its own squared distance.
pub open spec fn is_heightmap_pixel(g: Seq<bool>, w: int, k: int, m: int, p: Rgba8) -> bool {
    if g[k] {
        exists|d: int| #[trigger]
            is_nearest_white(g, w, k, d) && p == gray((255 - height_level(d, m)) as u8)
    } else {
        p == gray(255)
    }
}

/// `out` is the heightmap of grid `g` of width `w`.
pub open spec fn is_heightmap(g: Seq<bool>, w: int, out: Seq<Rgba8>) -> bool {
    &&& out.len() == g.len()
    &&& exists|m: int|
        #[trigger] is_max_min_sqdist(g, w, m) && forall|k: int|
            0 <= k < g.len() ==> is_heightmap_pixel(g, w, k, m, #[trigger] out[k])
}

/// What converting grid `g` of width `w` returns.
pub open spec fn is_conversion_result(
    g: Seq<bool>,
    w: int,
    r: Result<Seq<Rgba8>, ValleyError>,
) -> bool {
    if !has_black(g) {
        r == Err::<Seq<Rgba8>, ValleyError>(ValleyError::NoBlackPixel)
    } else if !has_white(g) {
        r == Err::<Seq<Rgba8>, ValleyError>(ValleyError::NoWhitePixel)
    } else if some_pixel_overflows(g, w) {
        r == Err::<Seq<Rgba8>, ValleyError>(ValleyError::Overflow)
    } else {
        r matches Ok(out) && is_heightmap(g, w, out)
    }
}

/// The result of a conversion with the pixels as a sequence.
pub open spec fn pixels_view(r: Result<Vec<Rgba8>, ValleyError>) -> Result<Seq<Rgba8>, ValleyError> {
    match r {
        Ok(v) => Ok(v@),
        Err(e) => Err(e),
    }
}

/// The largest nearest-white squared distance of a grid is positive.
proof fn lemma_max_positive(g: Seq<bool>, w: int, m: int)
    requires
        0 < w,
        is_max_min_sqdist(g, w, m),
    ensures
        m >= 1,
{
    let k = choose|k: int| is_black(g, k) && #[trigger] is_nearest_white(g, w, k, m);
    let j = choose|j: int| is_white(g, j) && sq_dist(k, j, w) == m;
    lemma_distinct_cells_apart(k, j, w);
}

/// Converts a row-major grid (`true` for black) of the given width into
/// heightmap pixels.
pub fn heightmap_from_grid(is_black_vec: &[bool], width: usize) -> (r: Result<
    Vec<Rgba8>,
    ValleyError,
>)
    requires
        width > 0,
    ensures
        is_conversion_result(is_black_vec@, width as int, pixels_view(r)),
        r matches Ok(out) ==> forall|k: int|
            0 <= k < is_black_vec@.len() && !is_black_vec@[k] ==> #[trigger] out@[k] == gray(255),
{
    let ghost g = is_black_vec@;
    let ghost w = width as int;
    let (maxmin_sqdist, min_sqdist_vec) = match get_maxmin_sqdist(is_black_vec, width) {
        Ok(p) => p,
        Err(e) => {
            return Err(e);
        },
    };
    let ghost v = min_sqdist_vec@;
    let ghost m = maxmin_sqdist as int;
    proof {
        lemma_max_positive(g, w, m);
        assert forall|k: int| 0 <= k < v.len() implies !(#[trigger] color_of(v[k], m) is Err) by {
            assert(is_field_entry(g, w, k, v[k]));
            if let Some(d) = v[k] {
                assert(is_black(g, k));
                lemma_height_in_range(d as int, m);
            }
        }
    }
    let buffer = colorize(&min_sqdist_vec, maxmin_sqdist);
    match buffer {
        Ok(out) => {
            proof {
                assert forall|k: int|
                    0 <= k < g.len() implies is_heightmap_pixel(g, w, k, m, #[trigger] out@[k]) by {
                    assert(is_field_entry(g, w, k, v[k]));
                    assert(Ok::<Rgba8, ValleyError>(out@[k]) == color_of(v[k], m));
                    if let Some(d) = v[k] {
                        assert(is_nearest_white(g, w, k, d as int));
                    }
                }
                assert(is_max_min_sqdist(g, w, m));
            }
            Ok(out)
        },
        Err(e) => {
            assert(false);
            Err(e)
        },
    }
}

/// Converting the same grid twice gives the same result.
pub proof fn lemma_conversion_deterministic(
    g: Seq<bool>,
    w: int,
    r1: Result<Seq<Rgba8>, ValleyError>,
    r2: Result<Seq<Rgba8>, ValleyError>,
)
    requires
        0 < w,
        is_conversion_result(g, w, r1),
        is_conversion_result(g, w, r2),
    ensures
        r1 == r2,
{
    if has_black(g) && has_white(g) && !some_pixel_overflows(g, w) {
        let out1 = r1->Ok_0;
        let out2 = r2->Ok_0;
        let m1 = choose|m: int|
            #[trigger] is_max_min_sqdist(g, w, m) && forall|k: int|
                0 <= k < g.len() ==> is_heightmap_pixel(g, w, k, m, #[trigger] out1[k]);
        let m2 = choose|m: int|
            #[trigger] is_max_min_sqdist(g, w, m) && forall|k: int|
                0 <= k < g.len() ==> is_heightmap_pixel(g, w, k, m, #[trigger] out2[k]);
        lemma_nearest_unique_max(g, w, m1, m2);
        assert forall|k: int| 0 <= k < g.len() implies out1[k] == out2[k] by {
            assert(is_heightmap_pixel(g, w, k, m1, out1[k]));
            assert(is_heightmap_pixel(g, w, k, m2, out2[k]));
            if g[k] {
                let d1 = choose|d: int| #[trigger]
                    is_nearest_white(g, w, k, d)
                        && out1[k] == gray((255 - height_level(d, m1)) as u8);
                let d2 = choose|d: int| #[trigger]
                    is_nearest_white(g, w, k, d)
                        && out2[k] == gray((255 - height_level(d, m2)) as u8);
                lemma_nearest_unique(g, w, k, d1, d2);
            }
        }
        assert(out1 =~= out2);
    }
}

/// A pixel has only one nearest-white squared distance.
pub proof fn lemma_nearest_unique(g: Seq<bool>, w: int, k: int, d1: int, d2: int)
    requires
        is_nearest_white(g, w, k, d1),
        is_nearest_white(g, w, k, d2),
    ensures
        d1 == d2,
{
    let j1 = choose|j: int| is_white(g, j) && sq_dist(k, j, w) == d1;
    let j2 = choose|j: int| is_white(g, j) && sq_dist(k, j, w) == d2;
    assert(d1 <= sq_dist(k, j2, w));
    assert(d2 <= sq_dist(k, j1, w));
}

/// A grid has only one largest nearest-white squared distance.
pub proof fn lemma_nearest_unique_max(g: Seq<bool>, w: int, m1: int, m2: int)
    requires
        is_max_min_sqdist(g, w, m1),
        is_max_min_sqdist(g, w, m2),
    ensures
        m1 == m2,
{
    let k1 = choose|k: int| is_black(g, k) && #[trigger] is_nearest_white(g, w, k, m1);
    let k2 = choose|k: int| is_black(g, k) && #[trigger] is_nearest_white(g, w, k, m2);
    assert(m1 <= m2);
    assert(m2 <= m1);
}

} // verus!
