//! Shared dimensions of the transform and the 128×128 weight mask.
use vstd::prelude::*;

verus! {

/// Width and height of the resampled image.
pub const NUM_PIXELS: usize = 128;

/// Number of positions of a channel plane.
pub const NUM_PIXELS_SQUARED: usize = 16384;

/// Coefficients kept per channel.
pub const NUM_COEFS: usize = 40;

/// Colour channels (Y, I, Q).
pub const N_COLORS: usize = 3;

/// Coefficient signs (positive, negative).
pub const N_SIGNS: usize = 2;

/// Highest weight row that a coefficient position can select.
pub const MAX_BIN: usize = 5;

pub open spec fn spec_max(a: int, b: int) -> int {
    if a >= b { a } else { b }
}

pub open spec fn spec_min(a: int, b: int) -> int {
    if a <= b { a } else { b }
}

/// Weight row of the linear position `p = y * 128 + x`: `min(max(x, y), 5)`.
pub open spec fn bin_of(p: int) -> int {
    spec_min(spec_max(p % 128, p / 128), 5)
}

/// The larger of two values.
pub fn max(v1: usize, v2: usize) -> (r: usize)
    ensures
        r == spec_max(v1 as int, v2 as int),
{
    if v1 >= v2 {
        v1
    } else {
        v2
    }
}

/// The smaller of two values.
pub fn min(v1: usize, v2: usize) -> (r: usize)
    ensures
        r == spec_min(v1 as int, v2 as int),
{
    if v1 <= v2 {
        v1
    } else {
        v2
    }
}

/// Builds the weight mask: entry `y * 128 + x` is `min(max(x, y), 5)`.
pub fn initialize_imgbin() -> (bin: Vec<usize>)
    ensures
        bin@.len() == NUM_PIXELS_SQUARED,
        forall|p: int| 0 <= p < NUM_PIXELS_SQUARED ==> #[trigger] bin@[p] == bin_of(p),
{
    let mut bin: Vec<usize> = Vec::with_capacity(NUM_PIXELS_SQUARED);
    let mut i: usize = 0;
    while i < NUM_PIXELS
        invariant
            i <= NUM_PIXELS,
            bin@.len() == i * NUM_PIXELS,
            forall|p: int| 0 <= p < bin@.len() ==> #[trigger] bin@[p] == bin_of(p),
        decreases NUM_PIXELS - i,
    {
        let mut j: usize = 0;
        while j < NUM_PIXELS
            invariant
                i < NUM_PIXELS,
                j <= NUM_PIXELS,
                bin@.len() == i * NUM_PIXELS + j,
                forall|p: int| 0 <= p < bin@.len() ==> #[trigger] bin@[p] == bin_of(p),
            decreases NUM_PIXELS - j,
        {
            let v = min(max(i, j), MAX_BIN);
            proof {
                let p = i * NUM_PIXELS + j;
                assert(p / 128 == i && p % 128 == j) by (nonlinear_arith)
                    requires
                        p == i * 128 + j,
                        0 <= j < 128,
                        0 <= i,
                ;
            }
            bin.push(v);
            j = j + 1;
        }
        i = i + 1;
    }
    bin
}

} // verus!
