//! Maps distance-field entries to grayscale pixels: white pixels stay white,
//! and a black pixel darkens with its distance from the nearest white pixel,
//! down to pure black for the farthest one.
use crate::error::ValleyError;
use vstd::arithmetic::div_mod::lemma_fundamental_div_mod;
use vstd::prelude::*;

verus! {

/// An 8-bit RGBA pixel.
#[derive(Debug, Clone, Copy, PartialEq, Eq, Structural)]
pub struct Rgba8 {
    pub r: u8,
    pub g: u8,
    pub b: u8,
    pub a: u8,
}

/// The opaque gray pixel of intensity `v`.
pub open spec fn gray(v: u8) -> Rgba8 {
    Rgba8 { r: v, g: v, b: v, a: 255 }
}

/// `d / m * 255` rounded to the nearest integer, halves rounded up.
pub open spec fn height_level(d: int, m: int) -> int {
    (510 * d + m) / (2 * m)
}

/// The output pixel for distance-field entry `e` when the largest squared
/// distance is `m`.
pub open spec fn color_of(e: Option<usize>, m: int) -> Result<Rgba8, ValleyError> {
    match e {
        None => Ok(gray(255)),
        Some(d) => if m <= 0 || height_level(d as int, m) > 255 {
            Err(ValleyError::InvalidHeight)
        } else {
            Ok(gray((255 - height_level(d as int, m)) as u8))
        },
    }
}

/// A squared distance no larger than the maximum maps into `0..=255`.
pub proof fn lemma_height_in_range(d: int, m: int)
    requires
        0 <= d <= m,
        0 < m,
    ensures
        0 <= height_level(d, m) <= 255,
        d == m ==> height_level(d, m) == 255,
{
    let x = 510 * d + m;
    let q = 2 * m;
    lemma_fundamental_div_mod(x, q);
    let h = x / q;
    let rem = x % q;
    assert(0 <= rem < q) by {
        vstd::arithmetic::div_mod::lemma_mod_bound(x, q);
    }
    assert(0 <= h <= 255) by (nonlinear_arith)
        requires
            x == q * h + rem,
            0 <= rem < q,
            q == 2 * m,
            x == 510 * d + m,
            0 <= d <= m,
            0 < m,
    ;
    if d == m {
        assert(h == 255) by (nonlinear_arith)
            requires
                x == q * h + rem,
                0 <= rem < q,
                q == 2 * m,
                x == 511 * m,
                0 < m,
        ;
    }
}

/// The output pixel for one distance-field entry.
pub fn get_color_from_min_sqdist(min_sqdist: Option<usize>, maxmin_sqdist: usize) -> (r: Result<
    Rgba8,
    ValleyError,
>)
    ensures
        r == color_of(min_sqdist, maxmin_sqdist as int),
{
    match min_sqdist {
        None => Ok(Rgba8 { r: 255, g: 255, b: 255, a: 255 }),
        Some(sqdist) => {
            if maxmin_sqdist == 0 {
                return Err(ValleyError::InvalidHeight);
            }
            let numerator: u128 = 510 * (sqdist as u128) + maxmin_sqdist as u128;
            let denominator: u128 = 2 * (maxmin_sqdist as u128);
            let height255: u128 = numerator / denominator;
            if height255 > 255 {
                return Err(ValleyError::InvalidHeight);
            }
            let res: u8 = 255 - (height255 as u8);
            Ok(Rgba8 { r: res, g: res, b: res, a: 255 })
        },
    }
}

/// The output pixels for a whole distance field, or the first error.
pub fn colorize(min_sqdist_vec: &[Option<usize>], maxmin_sqdist: usize) -> (r: Result<
    Vec<Rgba8>,
    ValleyError,
>)
    ensures
        r is Err <==> exists|k: int|
            0 <= k < min_sqdist_vec@.len() && #[trigger] color_of(
                min_sqdist_vec@[k],
                maxmin_sqdist as int,
            ) is Err,
        r is Err ==> r == Err::<Vec<Rgba8>, ValleyError>(ValleyError::InvalidHeight),
        r matches Ok(out) ==> out@.len() == min_sqdist_vec@.len() && forall|k: int|
            0 <= k < out@.len() ==> Ok::<Rgba8, ValleyError>(#[trigger] out@[k]) == color_of(
                min_sqdist_vec@[k],
                maxmin_sqdist as int,
            ),
{
    let mut buffer: Vec<Rgba8> = Vec::new();
    let mut k: usize = 0;
    while k < min_sqdist_vec.len()
        invariant
            k <= min_sqdist_vec@.len(),
            buffer@.len() == k,
            forall|j: int|
                0 <= j < k ==> Ok::<Rgba8, ValleyError>(#[trigger] buffer@[j]) == color_of(
                    min_sqdist_vec@[j],
                    maxmin_sqdist as int,
                ),
        decreases min_sqdist_vec@.len() - k,
    {
        let color = get_color_from_min_sqdist(min_sqdist_vec[k], maxmin_sqdist);
        match color {
            Ok(c) => buffer.push(c),
            Err(e) => {
                return Err(e);
            },
        }
        k = k + 1;
    }
    proof {
        assert forall|j: int|
            0 <= j < min_sqdist_vec@.len() implies !(#[trigger] color_of(
                min_sqdist_vec@[j],
                maxmin_sqdist as int,
            ) is Err) by {
            assert(Ok::<Rgba8, ValleyError>(buffer@[j]) == color_of(
                min_sqdist_vec@[j],
                maxmin_sqdist as int,
            ));
        }
    }
    Ok(buffer)
}

} // verus!
