//! Running minimum and maximum over optional values.
use vstd::prelude::*;

verus! {

/// The smaller of `op_a` and `b`, or `b` when there is no `op_a`.
pub fn min(op_a: Option<usize>, b: usize) -> (r: Option<usize>)
    ensures
        r == Some(
            match op_a {
                Some(a) => if a > b { b } else { a },
                None => b,
            },
        ),
{
    if let Some(c) = op_a {
        if c > b {
            return Some(b);
        }
    } else {
        return Some(b);
    }
    op_a
}

/// The larger of `op_a` and `b`, or `b` when there is no `op_a`.
pub fn max(op_a: Option<usize>, b: usize) -> (r: Option<usize>)
    ensures
        r == Some(
            match op_a {
                Some(a) => if a < b { b } else { a },
                None => b,
            },
        ),
{
    if let Some(a) = op_a {
        if a < b {
            return Some(b);
        }
    } else {
        return Some(b);
    }
    op_a
}

} // verus!
