//! The distance field of a grid: for each black pixel the squared distance to
//! its nearest white pixel, and the largest of those distances.
use crate::error::ValleyError;
use crate::nearest::{
    get_min_sqdist_from,
    has_black,
    has_white,
    has_white_in_disc,
    is_black,
    is_nearest_white,
    is_white,
    scan_overflows,
};
use crate::geometry::sq_dist;
use vstd::prelude::*;

verus! {

/// The distance to the nearest white pixel of black pixel `k` does not fit in
/// `usize`, as the full scan finds it (the disc around `k` holds no white pixel).
pub open spec fn pixel_overflows(g: Seq<bool>, w: int, k: int) -> bool {
    is_black(g, k) && !has_white_in_disc(g, w, k) && scan_overflows(g, w, k)
}

/// The error that processing pixel `k` raises, if any.
pub open spec fn pixel_error(g: Seq<bool>, w: int, k: int) -> Option<ValleyError> {
    if !is_black(g, k) {
        None
    } else if pixel_overflows(g, w, k) {
        Some(ValleyError::Overflow)
    } else if !has_white(g) {
        Some(ValleyError::NoWhitePixel)
    } else {
        None
    }
}

/// `e` is the distance-field entry of pixel `k`: none for a white pixel, and
/// the squared distance to the nearest white pixel for a black one.
pub open spec fn is_field_entry(g: Seq<bool>, w: int, k: int, e: Option<usize>) -> bool {
    match e {
        None => !g[k],
        Some(d) => g[k] && is_nearest_white(g, w, k, d as int),
    }
}

/// `v` is the distance field of the whole grid.
pub open spec fn is_distance_field(g: Seq<bool>, w: int, v: Seq<Option<usize>>) -> bool {
    &&& v.len() == g.len()
    &&& forall|k: int| 0 <= k < g.len() ==> is_field_entry(g, w, k, #[trigger] v[k])
}

/// `m` is the largest entry among the first `upto` of `v`, and `None` when
/// they are all empty.
pub open spec fn is_max_entry(v: Seq<Option<usize>>, upto: int, m: Option<usize>) -> bool {
    &&& m is None ==> forall|k: int| 0 <= k < upto ==> #[trigger] v[k] is None
    &&& m is Some ==> exists|k: int| 0 <= k < upto && #[trigger] v[k] == m
    &&& forall|k: int| 0 <= k < upto && #[trigger] v[k] is Some ==> m is Some && v[k]->0 <= m->0
}

/// Where a step of `count` pixels from `next` stops on a grid of `len` pixels.
pub open spec fn advance_end(next: int, count: int, len: int) -> int {
    if next + count < len {
        next + count
    } else {
        len
    }
}

/// No pixel in `start..end` raises an error.
pub open spec fn no_error_between(g: Seq<bool>, w: int, start: int, end: int) -> bool {
    forall|k: int| start <= k < end ==> #[trigger] pixel_error(g, w, k) is None
}

/// `e` is the error of the first pixel in `start..end` that raises one.
pub open spec fn is_first_error(g: Seq<bool>, w: int, start: int, end: int, e: ValleyError) -> bool {
    exists|k: int|
        start <= k < end && #[trigger] pixel_error(g, w, k) == Some(e) && no_error_between(
            g,
            w,
            start,
            k,
        )
}

/// The pixels before `next` have been processed into their distance-field entries.
pub struct DistanceField {
    pub next: usize,
    pub max_min_sqdist: Option<usize>,
    pub min_sqdist_vec: Vec<Option<usize>>,
}

impl DistanceField {
    /// Well-formed for grid `g` of width `w`.
    pub open spec fn wf(&self, g: Seq<bool>, w: int) -> bool {
        &&& self.min_sqdist_vec@.len() == g.len()
        &&& self.next <= g.len()
        &&& forall|k: int|
            self.next <= k < g.len() ==> #[trigger] self.min_sqdist_vec@[k] is None
        &&& forall|k: int|
            0 <= k < self.next ==> is_field_entry(g, w, k, #[trigger] self.min_sqdist_vec@[k])
        &&& is_max_entry(self.min_sqdist_vec@, self.next as int, self.max_min_sqdist)
    }

    /// A field over `len` pixels with none of them processed yet.
    pub fn new(len: usize) -> (r: DistanceField)
        ensures
            r.next == 0,
            r.max_min_sqdist is None,
            r.min_sqdist_vec@ == Seq::new(len as nat, |k: int| None::<usize>),
    {
        let mut v: Vec<Option<usize>> = Vec::new();
        let mut k: usize = 0;
        while k < len
            invariant
                k <= len,
                v@ == Seq::new(k as nat, |j: int| None::<usize>),
            decreases len - k,
        {
            v.push(None);
            k = k + 1;
        }
        DistanceField { next: 0, max_min_sqdist: None, min_sqdist_vec: v }
    }

    /// Every pixel has been processed.
    pub fn is_done(&self) -> (r: bool)
        ensures
            r == (self.next == self.min_sqdist_vec@.len()),
    {
        self.next == self.min_sqdist_vec.len()
    }

    /// Processes the next `count` pixels (fewer at the end of the grid), and
    /// stops at the first one that raises an error.
    pub fn advance(self, is_black_vec: &[bool], width: usize, count: usize) -> (r: Result<
        DistanceField,
        ValleyError,
    >)
        requires
            width > 0,
            self.wf(is_black_vec@, width as int),
        ensures
            r is Ok <==> no_error_between(
                is_black_vec@,
                width as int,
                self.next as int,
                advance_end(self.next as int, count as int, is_black_vec@.len() as int),
            ),
            r matches Ok(f) ==> f.wf(is_black_vec@, width as int) && f.next == advance_end(
                self.next as int,
                count as int,
                is_black_vec@.len() as int,
            ),
            r matches Err(e) ==> is_first_error(
                is_black_vec@,
                width as int,
                self.next as int,
                advance_end(self.next as int, count as int, is_black_vec@.len() as int),
                e,
            ),
    {
        let ghost g = is_black_vec@;
        let ghost w = width as int;
        let ghost start = self.next as int;
        let len = is_black_vec.len();
        let end: usize = if count < len - self.next {
            self.next + count
        } else {
            len
        };
        let mut f = self;
        while f.next < end
            invariant
                f.wf(g, w),
                g == is_black_vec@,
                w == width as int,
                width > 0,
                start <= f.next <= end <= g.len(),
                end == advance_end(start, count as int, g.len() as int),
                start == self.next,
                len == g.len(),
                no_error_between(g, w, start, f.next as int),
            decreases end - f.next,
        {
            let i = f.next;
            if is_black_vec[i] {
                let found = get_min_sqdist_from(i, is_black_vec, width);
                let minimum_sqdist = match found {
                    Err(e) => {
                        assert(pixel_error(g, w, i as int) == Some(e));
                        assert(start <= i < end && no_error_between(g, w, start, i as int));

                        return Err(e);
                    },
                    Ok(None) => {
                        assert(pixel_error(g, w, i as int) == Some(ValleyError::NoWhitePixel));
                        assert(start <= i < end && no_error_between(g, w, start, i as int));

                        return Err(ValleyError::NoWhitePixel);
                    },
                    Ok(Some(d)) => d,
                };
                let ghost old_v = f.min_sqdist_vec@;
                let ghost old_max = f.max_min_sqdist;
                f.min_sqdist_vec[i] = Some(minimum_sqdist);
                f.max_min_sqdist = crate::extrema::max(f.max_min_sqdist, minimum_sqdist);
                proof {
                    let v = f.min_sqdist_vec@;
                    assert(v == old_v.update(i as int, Some(minimum_sqdist)));
                    if f.max_min_sqdist == Some(minimum_sqdist) {
                        assert(v[i as int] == f.max_min_sqdist);
                    } else {
                        let k0 = choose|k: int| 0 <= k < i && #[trigger] old_v[k] == old_max;
                        assert(v[k0] == f.max_min_sqdist);
                    }
                    assert forall|k: int| 0 <= k < i + 1 && #[trigger] v[k] is Some
                        implies f.max_min_sqdist is Some
                        && v[k]->0 <= f.max_min_sqdist->0 by {
                        if k < i {
                            assert(old_v[k] == v[k]);
                        }
                    }
                }
            } else {
                proof {
                    let v = f.min_sqdist_vec@;
                    assert(v[i as int] is None);
                }
            }
            f.next = f.next + 1;
        }
        Ok(f)
    }

    /// The largest squared distance and the whole field, or `NoBlackPixel`
    /// when no black pixel was met.
    pub fn finish(self) -> (r: Result<(usize, Vec<Option<usize>>), ValleyError>)
        ensures
            self.max_min_sqdist is None ==> r == Err::<(usize, Vec<Option<usize>>), ValleyError>(
                ValleyError::NoBlackPixel,
            ),
            self.max_min_sqdist matches Some(m) ==> r matches Ok(p) && p.0 == m && p.1@
                == self.min_sqdist_vec@,
    {
        match self.max_min_sqdist {
            None => Err(ValleyError::NoBlackPixel),
            Some(m) => Ok((m, self.min_sqdist_vec)),
        }
    }
}

/// Some black pixel's nearest-white distance overflows `usize` in the full scan.
pub open spec fn some_pixel_overflows(g: Seq<bool>, w: int) -> bool {
    exists|k: int| #[trigger] pixel_overflows(g, w, k)
}

/// `m` is the largest nearest-white squared distance over the black pixels.
pub open spec fn is_max_min_sqdist(g: Seq<bool>, w: int, m: int) -> bool {
    &&& exists|k: int| is_black(g, k) && #[trigger] is_nearest_white(g, w, k, m)
    &&& forall|k: int, d: int| is_black(g, k) && #[trigger] is_nearest_white(g, w, k, d) ==> d <= m
}

/// What computing the distance field of grid `g` of width `w` returns.
pub open spec fn is_field_result(
    g: Seq<bool>,
    w: int,
    r: Result<(usize, Seq<Option<usize>>), ValleyError>,
) -> bool {
    if !has_black(g) {
        r == Err::<(usize, Seq<Option<usize>>), ValleyError>(ValleyError::NoBlackPixel)
    } else if !has_white(g) {
        r == Err::<(usize, Seq<Option<usize>>), ValleyError>(ValleyError::NoWhitePixel)
    } else if some_pixel_overflows(g, w) {
        r == Err::<(usize, Seq<Option<usize>>), ValleyError>(ValleyError::Overflow)
    } else {
        r matches Ok(p) && is_distance_field(g, w, p.1) && is_max_min_sqdist(g, w, p.0 as int)
    }
}

/// The result of a distance-field computation with the field as a sequence.
pub open spec fn field_view(r: Result<(usize, Vec<Option<usize>>), ValleyError>) -> Result<
    (usize, Seq<Option<usize>>),
    ValleyError,
> {
    match r {
        Ok(p) => Ok((p.0, p.1@)),
        Err(e) => Err(e),
    }
}

/// The squared distance from every black pixel to its nearest white pixel,
/// and the largest of them.
pub fn get_maxmin_sqdist(is_black_vec: &[bool], width: usize) -> (r: Result<
    (usize, Vec<Option<usize>>),
    ValleyError,
>)
    requires
        width > 0,
    ensures
        is_field_result(is_black_vec@, width as int, field_view(r)),
{
    let ghost g = is_black_vec@;
    let ghost w = width as int;
    let len = is_black_vec.len();
    let start = DistanceField::new(len);
    let advanced = start.advance(is_black_vec, width, len);
    match advanced {
        Err(e) => {
            proof {
                let k = choose|k: int|
                    0 <= k < len && #[trigger] pixel_error(g, w, k) == Some(e) && no_error_between(
                        g,
                        w,
                        0,
                        k,
                    );
                assert(is_black(g, k));
                if has_white(g) {
                    assert(pixel_overflows(g, w, k));
                } else {
                    if pixel_overflows(g, w, k) {
                        let j = choose|j: int| is_white(g, j) && sq_dist(k, j, w) > usize::MAX;
                        assert(is_white(g, j));
                    }
                    assert(e == ValleyError::NoWhitePixel);
                }
            }
            Err(e)
        },
        Ok(f) => {
            let ghost v = f.min_sqdist_vec@;
            let ghost max_found = f.max_min_sqdist;
            proof {
                if has_black(g) && !has_white(g) {
                    let k = choose|k: int| is_black(g, k);
                    assert(pixel_error(g, w, k) is Some);
                }
                if some_pixel_overflows(g, w) {
                    let k = choose|k: int| #[trigger] pixel_overflows(g, w, k);
                    assert(pixel_error(g, w, k) is Some);
                }
                if has_black(g) {
                    let k = choose|k: int| is_black(g, k);
                    assert(is_field_entry(g, w, k, v[k]));
                    assert(v[k] is Some);
                }
                if let Some(m) = f.max_min_sqdist {
                    let k = choose|k: int| 0 <= k < len && #[trigger] v[k] == Some(m);
                    assert(is_field_entry(g, w, k, v[k]));
                    assert forall|k: int, d: int| is_black(g, k) && #[trigger] is_nearest_white(
                        g,
                        w,
                        k,
                        d,
                    ) implies d <= m by {
                        assert(is_field_entry(g, w, k, v[k]));
                        let d0 = v[k]->0 as int;
                        let j0 = choose|j: int| is_white(g, j) && sq_dist(k, j, w) == d0;
                        let j1 = choose|j: int| is_white(g, j) && sq_dist(k, j, w) == d;
                        assert(d0 <= sq_dist(k, j1, w));
                        assert(d <= sq_dist(k, j0, w));
                    }
                    assert(is_distance_field(g, w, v));
                }
            }
            let res = f.finish();
            proof {
                if !has_black(g) {
                    if let Some(m) = max_found {
                        let k = choose|k: int| 0 <= k < len && #[trigger] v[k] == Some(m);
                        assert(is_field_entry(g, w, k, v[k]));
                        assert(is_black(g, k));
                    }
                } else {
                    assert(max_found is Some);
                }
            }
            res
        },
    }
}

} // verus!
