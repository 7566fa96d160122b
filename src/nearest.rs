//! Squared distance from a pixel to its nearest white pixel: a search inside a
//! disc around the pixel, and a scan of the whole grid when the disc holds no
//! white pixel.
use crate::error::ValleyError;
use crate::geometry::{
    col,
    delta_x,
    delta_y,
    dist_sq,
    integer_sqrt,
    lemma_coords,
    lemma_index_of_coords,
    row,
    sq_dist,
    Point,
};
use vstd::prelude::*;

verus! {

/// Radius of the disc searched before falling back to a full scan.
pub const SEARCH_RADIUS: isize = 70;

/// Pixel `j` of the grid is white.
pub open spec fn is_white(g: Seq<bool>, j: int) -> bool {
    0 <= j < g.len() && !g[j]
}

/// Pixel `j` of the grid is black.
pub open spec fn is_black(g: Seq<bool>, j: int) -> bool {
    0 <= j < g.len() && g[j]
}

/// Pixel `j` is white and lies within the search disc around pixel `i`.
pub open spec fn white_in_disc(g: Seq<bool>, w: int, i: int, j: int) -> bool {
    is_white(g, j) && sq_dist(i, j, w) <= SEARCH_RADIUS * SEARCH_RADIUS
}

/// The grid holds a white pixel.
pub open spec fn has_white(g: Seq<bool>) -> bool {
    exists|j: int| is_white(g, j)
}

/// The grid holds a black pixel.
pub open spec fn has_black(g: Seq<bool>) -> bool {
    exists|j: int| is_black(g, j)
}

/// The search disc around pixel `i` holds a white pixel.
pub open spec fn has_white_in_disc(g: Seq<bool>, w: int, i: int) -> bool {
    exists|j: int| white_in_disc(g, w, i, j)
}

/// Some white pixel lies too far from `i` for the squared distance to fit in `usize`.
pub open spec fn scan_overflows(g: Seq<bool>, w: int, i: int) -> bool {
    exists|j: int| is_white(g, j) && sq_dist(i, j, w) > usize::MAX
}

/// `d` is the squared distance from pixel `i` to its nearest white pixel.
pub open spec fn is_nearest_white(g: Seq<bool>, w: int, i: int, d: int) -> bool {
    &&& exists|j: int| is_white(g, j) && sq_dist(i, j, w) == d
    &&& forall|j: int| is_white(g, j) ==> d <= #[trigger] sq_dist(i, j, w)
}

/// `d` is the squared distance from pixel `i` to its nearest white pixel among
/// those inside the search disc.
pub open spec fn is_nearest_white_in_disc(g: Seq<bool>, w: int, i: int, d: int) -> bool {
    &&& exists|j: int| white_in_disc(g, w, i, j) && sq_dist(i, j, w) == d
    &&& forall|j: int| white_in_disc(g, w, i, j) ==> d <= #[trigger] sq_dist(i, j, w)
}

/// Pixel `j` is white, inside the disc around `i`, and comes before offset
/// `(dx, dy)` in the order in which the disc is enumerated (by column offset,
/// then by row offset).
pub open spec fn visited(g: Seq<bool>, w: int, i: int, j: int, dx: int, dy: int) -> bool {
    white_in_disc(g, w, i, j) && (delta_x(i, j, w) < dx || (delta_x(i, j, w) == dx && delta_y(
        i,
        j,
        w,
    ) < dy))
}

/// `best` is the smallest squared distance from `i` over the visited white
/// pixels, and `None` when none was visited.
pub open spec fn disc_min_so_far(
    g: Seq<bool>,
    w: int,
    i: int,
    best: Option<usize>,
    dx: int,
    dy: int,
) -> bool {
    &&& best is None ==> forall|j: int| !#[trigger] visited(g, w, i, j, dx, dy)
    &&& best is Some ==> exists|j: int| #[trigger]
        visited(g, w, i, j, dx, dy) && sq_dist(i, j, w) == best->0
    &&& forall|j: int| #[trigger]
        visited(g, w, i, j, dx, dy) ==> best is Some && best->0 <= sq_dist(i, j, w)
}

/// Two enumeration positions that visit the same pixels give the same running minimum.
proof fn lemma_same_visited(
    g: Seq<bool>,
    w: int,
    i: int,
    best: Option<usize>,
    dx1: int,
    dy1: int,
    dx2: int,
    dy2: int,
)
    requires
        disc_min_so_far(g, w, i, best, dx1, dy1),
        forall|j: int| visited(g, w, i, j, dx1, dy1) <==> visited(g, w, i, j, dx2, dy2),
    ensures
        disc_min_so_far(g, w, i, best, dx2, dy2),
{
    assert forall|j: int| #[trigger] visited(g, w, i, j, dx2, dy2) implies best is Some && best->0
        <= sq_dist(i, j, w) by {
        assert(visited(g, w, i, j, dx1, dy1));
    }
    if best is Some {
        let k = choose|j: int| #[trigger] visited(g, w, i, j, dx1, dy1)
            && sq_dist(i, j, w) == best->0;
        assert(visited(g, w, i, k, dx2, dy2));
    } else {
        assert forall|j: int| !#[trigger] visited(g, w, i, j, dx2, dy2) by {
            if visited(g, w, i, j, dx2, dy2) {
                assert(visited(g, w, i, j, dx1, dy1));
            }
        }
    }
}

/// Offsets of a pixel inside the disc stay within the radius.
proof fn lemma_disc_bounds(g: Seq<bool>, w: int, i: int, j: int)
    requires
        white_in_disc(g, w, i, j),
    ensures
        -SEARCH_RADIUS <= delta_x(i, j, w) <= SEARCH_RADIUS,
        -SEARCH_RADIUS <= delta_y(i, j, w) <= SEARCH_RADIUS,
{
    let a = delta_x(i, j, w);
    let b = delta_y(i, j, w);
    lemma_square_nonneg(a);
    lemma_square_nonneg(b);
    if a < -SEARCH_RADIUS || a > SEARCH_RADIUS {
        lemma_beyond_root(a, SEARCH_RADIUS as int, SEARCH_RADIUS * SEARCH_RADIUS);
    }
    if b < -SEARCH_RADIUS || b > SEARCH_RADIUS {
        lemma_beyond_root(b, SEARCH_RADIUS as int, SEARCH_RADIUS * SEARCH_RADIUS);
    }
}

/// Within the search radius, the disc search finds the true nearest white pixel.
pub proof fn lemma_disc_search_exact(g: Seq<bool>, w: int, i: int, d: int)
    requires
        0 < w,
        0 <= i < g.len(),
        has_white_in_disc(g, w, i),
    ensures
        is_nearest_white_in_disc(g, w, i, d) <==> is_nearest_white(g, w, i, d),
{
    let j0 = choose|j: int| white_in_disc(g, w, i, j);
    if is_nearest_white_in_disc(g, w, i, d) {
        assert forall|j: int| is_white(g, j) implies d <= #[trigger] sq_dist(i, j, w) by {
            if !white_in_disc(g, w, i, j) {
                assert(d <= sq_dist(i, j0, w));
            }
        }
    }
    if is_nearest_white(g, w, i, d) {
        assert(d <= sq_dist(i, j0, w));
        let j1 = choose|j: int| is_white(g, j) && sq_dist(i, j, w) == d;
        assert(white_in_disc(g, w, i, j1));
    }
}

proof fn lemma_square_nonneg(a: int)
    ensures
        0 <= a * a,
{
    assert(0 <= a * a) by (nonlinear_arith);
}

/// A row offset beyond `r` squares to more than `x` when `x < (r + 1)^2`.
proof fn lemma_beyond_root(a: int, r: int, x: int)
    requires
        0 <= r,
        x < (r + 1) * (r + 1),
        a < -r || a > r,
    ensures
        a * a > x,
{
    assert(a * a >= (r + 1) * (r + 1)) by (nonlinear_arith)
        requires 0 <= r, a < -r || a > r;
}

/// A row offset within `r` squares to at most `r^2`.
proof fn lemma_within_root(a: int, r: int)
    requires
        -r <= a <= r,
    ensures
        a * a <= r * r,
{
    assert(a * a <= r * r) by (nonlinear_arith)
        requires -r <= a <= r;
}

/// Smallest squared distance from pixel `i` to a white pixel inside the disc
/// of radius `SEARCH_RADIUS` around it, or `None` when the disc holds none.
pub fn nearest_in_disc(i: usize, is_black_vec: &[bool], width: usize) -> (r: Option<usize>)
    requires
        width > 0,
        i < is_black_vec@.len(),
    ensures
        r is None <==> !has_white_in_disc(is_black_vec@, width as int, i as int),
        r is Some ==> is_nearest_white_in_disc(is_black_vec@, width as int, i as int, r->0 as int),
{
    let ghost g = is_black_vec@;
    let ghost w = width as int;
    let ghost ii = i as int;
    let ghost xi = col(ii, w);
    let ghost yi = row(ii, w);
    let radius: isize = SEARCH_RADIUS;
    let here = Point { index: i, width: width, area: is_black_vec.len() };
    let mut minimum_sqdist: Option<usize> = None;
    let mut dx: isize = -radius;
    proof {
        assert forall|j: int| !#[trigger] visited(g, w, ii, j, dx as int, -radius - 1) by {
            if white_in_disc(g, w, ii, j) {
                lemma_disc_bounds(g, w, ii, j);
            }
        }
    }
    while dx <= radius
        invariant
            -radius <= dx <= radius + 1,
            radius == SEARCH_RADIUS,
            here.index == i && here.width == width && here.area == g.len(),
            g == is_black_vec@,
            w == width as int,
            ii == i as int,
            xi == col(ii, w),
            yi == row(ii, w),
            width > 0,
            i < g.len(),
            disc_min_so_far(g, w, ii, minimum_sqdist, dx as int, -radius - 1),
        decreases radius + 1 - dx,
    {
        proof {
            assert(dx * dx <= radius * radius) by (nonlinear_arith)
                requires -radius <= dx <= radius;
            lemma_square_nonneg(dx as int);
        }
        let ghost rest = radius * radius - dx * dx;
        let max_y_u: usize = integer_sqrt((radius * radius - dx * dx) as usize);
        proof {
            assert(max_y_u <= radius) by (nonlinear_arith)
                requires max_y_u * max_y_u <= rest, rest <= radius * radius, radius == 70, max_y_u >= 0;
        }
        let max_y: isize = max_y_u as isize;
        let mut dy: isize = -max_y;
        proof {
            assert forall|j: int|
                visited(g, w, ii, j, dx as int, -radius - 1)
                    <==> visited(g, w, ii, j, dx as int, dy as int) by {
                if white_in_disc(g, w, ii, j) {
                    lemma_disc_bounds(g, w, ii, j);
                    if delta_x(ii, j, w) == dx && delta_y(ii, j, w) < -max_y {
                        lemma_beyond_root(delta_y(ii, j, w), max_y as int, rest);
                    }
                }
            }
            lemma_same_visited(g, w, ii, minimum_sqdist, dx as int, -radius - 1, dx as int, dy as int);
        }
        while dy <= max_y
            invariant
                -radius <= dx <= radius,
                radius == SEARCH_RADIUS,
                max_y * max_y <= rest < (max_y + 1) * (max_y + 1),
                rest == radius * radius - dx * dx,
                0 <= max_y <= radius,
                -max_y <= dy <= max_y + 1,
                here.index == i && here.width == width && here.area == g.len(),
                g == is_black_vec@,
                w == width as int,
                ii == i as int,
                xi == col(ii, w),
                yi == row(ii, w),
                width > 0,
                i < g.len(),
                disc_min_so_far(g, w, ii, minimum_sqdist, dx as int, dy as int),
            decreases max_y + 1 - dy,
        {
            let ghost old_min = minimum_sqdist;
            let ghost nx = xi + dx;
            let ghost ny = yi + dy;
            proof {
                lemma_within_root(dy as int, max_y as int);
                lemma_square_nonneg(dx as int);
            }
            let found = here.displace(dx, dy);
            let ghost mut hit = false;
            if let Some(point) = found {
                let j = point.index;
                proof {
                    lemma_index_of_coords(nx, ny, w);
                }
                if !is_black_vec[j] {
                    proof {
                        assert(sq_dist(ii, j as int, w) == dx * dx + dy * dy);
                        assert(dy * dy <= max_y * max_y);
                        assert(sq_dist(ii, j as int, w) <= radius * radius);
                    }
                    let measured = dist_sq(i, j, width);
                    proof {
                        lemma_square_nonneg(dy as int);
                    }
                    let sqdist = match measured {
                        Some(d) => d,
                        None => {
                            assert(false);
                            return None;
                        },
                    };
                    minimum_sqdist = crate::extrema::min(minimum_sqdist, sqdist);
                    proof {
                        hit = true;
                        assert(sqdist == sq_dist(ii, j as int, w));
                        assert(visited(g, w, ii, j as int, dx as int, dy + 1));
                        assert forall|k: int| #[trigger]
                            visited(g, w, ii, k, dx as int, dy + 1) implies minimum_sqdist is Some
                            && minimum_sqdist->0 <= sq_dist(ii, k, w) by {
                            if !visited(g, w, ii, k, dx as int, dy as int) {
                                lemma_coords(k, w);
                                assert(k == j);
                                assert(sq_dist(ii, k, w) == sqdist);
                            } else {
                                assert(old_min is Some && old_min->0 <= sq_dist(ii, k, w));
                            }
                        }
                        if minimum_sqdist != old_min {
                            assert(visited(g, w, ii, j as int, dx as int, dy + 1)
                                && sq_dist(ii, j as int, w) == minimum_sqdist->0);
                        } else {
                            let k0 = choose|k: int| #[trigger] visited(g, w, ii, k, dx as int, dy as int) && sq_dist(ii, k, w) == old_min->0;
                            assert(visited(g, w, ii, k0, dx as int, dy + 1));
                        }
                    }
                }
            }
            proof {
                if !hit {
                    assert forall|k: int|
                        visited(g, w, ii, k, dx as int, dy as int)
                            <==> visited(g, w, ii, k, dx as int, dy + 1) by {
                        if visited(g, w, ii, k, dx as int, dy + 1)
                            && !visited(g, w, ii, k, dx as int, dy as int) {
                            lemma_coords(k, w);
                            if let Some(p) = found {
                                lemma_index_of_coords(nx, ny, w);
                                assert(k == p.index);
                            }
                        }
                    }
                    lemma_same_visited(g, w, ii, minimum_sqdist, dx as int, dy as int, dx as int, dy + 1);
                }
            }
            dy = dy + 1;
        }
        proof {
            assert forall|j: int|
                visited(g, w, ii, j, dx as int, dy as int)
                    <==> visited(g, w, ii, j, dx + 1, -radius - 1) by {
                if white_in_disc(g, w, ii, j) {
                    lemma_disc_bounds(g, w, ii, j);
                    if delta_x(ii, j, w) == dx && delta_y(ii, j, w) > max_y {
                        lemma_beyond_root(delta_y(ii, j, w), max_y as int, rest);
                    }
                }
            }
            lemma_same_visited(g, w, ii, minimum_sqdist, dx as int, dy as int, dx + 1, -radius - 1);
        }
        dx = dx + 1;
    }
    proof {
        assert forall|j: int| white_in_disc(g, w, ii, j)
            implies #[trigger] visited(g, w, ii, j, dx as int, -radius - 1) by {
            lemma_disc_bounds(g, w, ii, j);
        }
        if minimum_sqdist is Some {
            let k0 = choose|k: int| #[trigger] visited(g, w, ii, k, dx as int, -radius - 1)
                && sq_dist(ii, k, w) == minimum_sqdist->0;
            assert(white_in_disc(g, w, ii, k0));
            assert forall|k: int| white_in_disc(g, w, ii, k)
                implies minimum_sqdist->0 <= #[trigger] sq_dist(ii, k, w) by {
                assert(visited(g, w, ii, k, dx as int, -radius - 1));
            }
        } else {
            assert forall|k: int| !white_in_disc(g, w, ii, k) by {
                if white_in_disc(g, w, ii, k) {
                    assert(visited(g, w, ii, k, dx as int, -radius - 1));
                }
            }
        }
    }
    minimum_sqdist
}

/// Smallest squared distance from pixel `i` to any white pixel of the grid,
/// found by scanning every pixel; `None` when the grid holds no white pixel.
pub fn nearest_by_full_scan(i: usize, is_black_vec: &[bool], width: usize) -> (r: Result<
    Option<usize>,
    ValleyError,
>)
    requires
        width > 0,
    ensures
        r is Err <==> scan_overflows(is_black_vec@, width as int, i as int),
        r is Err ==> r == Err::<Option<usize>, ValleyError>(ValleyError::Overflow),
        r == Ok::<Option<usize>, ValleyError>(None) <==> !has_white(is_black_vec@),
        r matches Ok(Some(d)) ==> is_nearest_white(is_black_vec@, width as int, i as int, d as int),
{
    let ghost g = is_black_vec@;
    let ghost w = width as int;
    let mut minimum_sqdist: Option<usize> = None;
    let mut j: usize = 0;
    while j < is_black_vec.len()
        invariant
            0 <= j <= g.len(),
            g == is_black_vec@,
            w == width as int,
            width > 0,
            forall|k: int|
                0 <= k < j && is_white(g, k) ==> #[trigger] sq_dist(i as int, k, w) <= usize::MAX
                    && minimum_sqdist is Some && minimum_sqdist->0 <= sq_dist(i as int, k, w),
            minimum_sqdist is Some ==> exists|k: int|
                0 <= k < j && is_white(g, k) && #[trigger] sq_dist(i as int, k, w)
                    == minimum_sqdist->0,
            minimum_sqdist is None ==> forall|k: int| 0 <= k < j ==> !#[trigger] is_white(g, k),
        decreases g.len() - j,
    {
        if !is_black_vec[j] {
            let sqdist = match dist_sq(i, j, width) {
                Some(d) => d,
                None => {
                    assert(is_white(g, j as int));
                    return Err(ValleyError::Overflow);
                },
            };
            let ghost old_min = minimum_sqdist;
            minimum_sqdist = crate::extrema::min(minimum_sqdist, sqdist);
            proof {
                if minimum_sqdist != old_min {
                    assert(sq_dist(i as int, j as int, w) == minimum_sqdist->0);
                }
            }
        }
        j = j + 1;
    }
    proof {
        if scan_overflows(g, w, i as int) {
            let k = choose|k: int| is_white(g, k) && sq_dist(i as int, k, w) > usize::MAX;
            assert(sq_dist(i as int, k, w) <= usize::MAX);
        }
        if minimum_sqdist is Some {
            assert forall|k: int| is_white(g, k) implies minimum_sqdist->0 <= #[trigger] sq_dist(
                i as int,
                k,
                w,
            ) by {}
        } else {
            assert forall|k: int| !#[trigger] is_white(g, k) by {
                if 0 <= k < g.len() {
                    assert(!is_white(g, k));
                }
            }
        }
    }
    Ok(minimum_sqdist)
}

/// Squared distance from pixel `i` to its nearest white pixel: the disc
/// around `i` is searched first, and only when it holds no white pixel is the
/// whole grid scanned. `Ok(None)` when the grid holds no white pixel, and
/// `Overflow` when the scan meets a distance that does not fit in `usize`.
pub fn get_min_sqdist_from(i: usize, is_black_vec: &[bool], width: usize) -> (r: Result<
    Option<usize>,
    ValleyError,
>)
    requires
        width > 0,
        i < is_black_vec@.len(),
    ensures
        r is Err <==> !has_white_in_disc(is_black_vec@, width as int, i as int) && scan_overflows(
            is_black_vec@,
            width as int,
            i as int,
        ),
        r is Err ==> r == Err::<Option<usize>, ValleyError>(ValleyError::Overflow),
        r == Ok::<Option<usize>, ValleyError>(None) <==> !has_white(is_black_vec@),
        r matches Ok(Some(d)) ==> is_nearest_white(is_black_vec@, width as int, i as int, d as int),
{
    let minimum_sqdist = nearest_in_disc(i, is_black_vec, width);
    if let Some(d) = minimum_sqdist {
        proof {
            lemma_disc_search_exact(is_black_vec@, width as int, i as int, d as int);
            let j = choose|j: int| white_in_disc(is_black_vec@, width as int, i as int, j);
            assert(is_white(is_black_vec@, j));
        }
        return Ok(minimum_sqdist);
    }
    nearest_by_full_scan(i, is_black_vec, width)
}

} // verus!
