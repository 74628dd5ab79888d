//! The signature computation on a 128×128 RGB raster: conversion to YIQ,
//! the standard two-dimensional Haar transform, and the choice of the
//! forty strongest coefficients per channel.
//!
//! All of it runs in exact integer arithmetic. Channel values are kept in
//! thousandths (the YIQ matrix has three decimals), and the transform keeps
//! plain sums and differences: the `1/√2` factor of each halving is left
//! out and accounted for where coefficients are compared and where the
//! averages are scaled.
use vstd::prelude::*;
use crate::imglib::{NUM_COEFS, NUM_PIXELS, NUM_PIXELS_SQUARED};
use crate::signature::{abs, HaarSignature, Lumin, SigT, SignatureT};
use crate::topk::{lemma_step_insert, lemma_step_skip, ranks_prefix, transitive};

verus! {

/// Y of a pixel, in thousandths.
pub open spec fn yiq_y(r: int, g: int, b: int) -> int {
    299 * r + 587 * g + 114 * b
}

/// I of a pixel, in thousandths.
pub open spec fn yiq_i(r: int, g: int, b: int) -> int {
    596 * r - 275 * g - 321 * b
}

/// Q of a pixel, in thousandths.
pub open spec fn yiq_q(r: int, g: int, b: int) -> int {
    212 * r - 523 * g + 311 * b
}

/// Largest magnitude of a channel value in thousandths.
pub const CHANNEL_LIMIT: i64 = 255_000;

pub open spec fn ints(v: Seq<i64>) -> Seq<int> {
    Seq::new(v.len(), |i: int| v[i] as int)
}

/// Channel planes of an RGB raster of 128×128 pixels, row-major, three
/// bytes per pixel.
pub fn rgb_to_yiq_conversion(rgb: &Vec<u8>) -> (r: (Vec<i64>, Vec<i64>, Vec<i64>))
    requires
        rgb@.len() == 3 * NUM_PIXELS_SQUARED,
    ensures
        r.0@.len() == NUM_PIXELS_SQUARED,
        r.1@.len() == NUM_PIXELS_SQUARED,
        r.2@.len() == NUM_PIXELS_SQUARED,
        forall|p: int|
            0 <= p < NUM_PIXELS_SQUARED ==> {
                &&& #[trigger] r.0@[p] == yiq_y(rgb@[3 * p] as int, rgb@[3 * p + 1] as int, rgb@[3 * p + 2] as int)
                &&& r.1@[p] == yiq_i(rgb@[3 * p] as int, rgb@[3 * p + 1] as int, rgb@[3 * p + 2] as int)
                &&& r.2@[p] == yiq_q(rgb@[3 * p] as int, rgb@[3 * p + 1] as int, rgb@[3 * p + 2] as int)
            },
{
    let mut cdata1: Vec<i64> = Vec::with_capacity(NUM_PIXELS_SQUARED);
    let mut cdata2: Vec<i64> = Vec::with_capacity(NUM_PIXELS_SQUARED);
    let mut cdata3: Vec<i64> = Vec::with_capacity(NUM_PIXELS_SQUARED);
    let mut p: usize = 0;
    while p < NUM_PIXELS_SQUARED
        invariant
            rgb@.len() == 3 * NUM_PIXELS_SQUARED,
            p <= NUM_PIXELS_SQUARED,
            cdata1@.len() == p,
            cdata2@.len() == p,
            cdata3@.len() == p,
            forall|p2: int|
                0 <= p2 < p ==> {
                    &&& #[trigger] cdata1@[p2] == yiq_y(rgb@[3 * p2] as int, rgb@[3 * p2 + 1] as int, rgb@[3 * p2 + 2] as int)
                    &&& cdata2@[p2] == yiq_i(rgb@[3 * p2] as int, rgb@[3 * p2 + 1] as int, rgb@[3 * p2 + 2] as int)
                    &&& cdata3@[p2] == yiq_q(rgb@[3 * p2] as int, rgb@[3 * p2 + 1] as int, rgb@[3 * p2 + 2] as int)
                },
        decreases NUM_PIXELS_SQUARED - p,
    {
        let r = rgb[3 * p] as i64;
        let g = rgb[3 * p + 1] as i64;
        let b = rgb[3 * p + 2] as i64;
        cdata1.push(299 * r + 587 * g + 114 * b);
        cdata2.push(596 * r - 275 * g - 321 * b);
        cdata3.push(212 * r - 523 * g + 311 * b);
        p = p + 1;
    }
    (cdata1, cdata2, cdata3)
}

/// Sums of neighbouring pairs.
pub open spec fn pair_sums(v: Seq<int>) -> Seq<int> {
    Seq::new(v.len() / 2, |k: int| v[2 * k] + v[2 * k + 1])
}

/// Differences of neighbouring pairs.
pub open spec fn pair_diffs(v: Seq<int>) -> Seq<int> {
    Seq::new(v.len() / 2, |k: int| v[2 * k] - v[2 * k + 1])
}

/// The one-dimensional Haar transform without its `1/√2` factors: the
/// transform of the pair sums, followed by the pair differences.
pub open spec fn haar_1d(v: Seq<int>) -> Seq<int>
    decreases v.len(),
{
    if v.len() <= 1 {
        v
    } else {
        haar_1d(pair_sums(v)) + pair_diffs(v)
    }
}

/// A length of 1, 2, 4, ...
pub open spec fn is_pow2(n: nat) -> bool
    decreases n,
{
    if n <= 1 {
        n == 1
    } else {
        n % 2 == 0 && is_pow2(n / 2)
    }
}

pub proof fn lemma_haar_len(v: Seq<int>)
    requires
        is_pow2(v.len()),
    ensures
        haar_1d(v).len() == v.len(),
    decreases v.len(),
{
    if v.len() > 1 {
        lemma_haar_len(pair_sums(v));
    }
}

/// The transform of one line of at most 128 values bounded by `bound`.
fn haar_line(v: &Vec<i64>, bound: Ghost<int>) -> (r: Vec<i64>)
    requires
        v@.len() <= NUM_PIXELS,
        0 <= bound@ <= 0x1_0000_0000,
        forall|i: int| 0 <= i < v@.len() ==> -bound@ <= #[trigger] v@[i] <= bound@,
    ensures
        ints(r@) == haar_1d(ints(v@)),
        forall|i: int| 0 <= i < r@.len() ==> -(v@.len() * bound@) <= #[trigger] r@[i] <= v@.len() * bound@,
{
    let n = Ghost(v@.len() as int);
    let mut cur: Vec<i64> = v.clone();
    let mut tail: Vec<i64> = Vec::new();
    let mut mult = Ghost(1int);
    assert(ints(cur@) =~= ints(v@));
    assert(ints(tail@) =~= Seq::<int>::empty());
    while cur.len() > 1
        invariant
            n@ == v@.len(),
            n@ <= 128,
            cur@.len() <= 128,
            0 <= bound@ <= 0x1_0000_0000,
            1 <= mult@,
            mult@ * cur@.len() <= n@,
            forall|i: int| 0 <= i < cur@.len() ==> -(mult@ * bound@) <= #[trigger] cur@[i] <= mult@ * bound@,
            forall|i: int| 0 <= i < tail@.len() ==> -(n@ * bound@) <= #[trigger] tail@[i] <= n@ * bound@,
            haar_1d(ints(cur@)) + ints(tail@) == haar_1d(ints(v@)),
        decreases cur@.len(),
    {
        let h1 = cur.len() / 2;
        proof {
            assert(mult@ * 2 <= n@) by (nonlinear_arith)
                requires
                    mult@ * cur@.len() <= n@,
                    cur@.len() >= 2,
                    mult@ >= 1,
            ;
            assert((2 * mult@) * h1 <= n@) by (nonlinear_arith)
                requires
                    mult@ * cur@.len() <= n@,
                    h1 == cur@.len() / 2,
                    mult@ >= 1,
            ;
            assert(mult@ * bound@ <= 128 * 0x1_0000_0000) by (nonlinear_arith)
                requires
                    mult@ <= n@,
                    n@ <= 128,
                    0 <= bound@ <= 0x1_0000_0000,
            ;
            assert(2 * (mult@ * bound@) <= n@ * bound@) by (nonlinear_arith)
                requires
                    mult@ * 2 <= n@,
                    0 <= bound@,
            ;
            assert((2 * mult@) * bound@ == 2 * (mult@ * bound@)) by (nonlinear_arith);
        }
        let mut sums: Vec<i64> = Vec::with_capacity(h1);
        let mut diffs: Vec<i64> = Vec::with_capacity(h1);
        let mut k: usize = 0;
        while k < h1
            invariant
                h1 == cur@.len() / 2,
                cur@.len() <= 128,
                k <= h1,
                sums@.len() == k,
                diffs@.len() == k,
                mult@ * bound@ <= 128 * 0x1_0000_0000,
                2 * (mult@ * bound@) <= n@ * bound@,
                forall|i: int| 0 <= i < cur@.len() ==> -(mult@ * bound@) <= #[trigger] cur@[i] <= mult@ * bound@,
                forall|i: int| 0 <= i < k ==> #[trigger] sums@[i] == cur@[2 * i] + cur@[2 * i + 1],
                forall|i: int| 0 <= i < k ==> #[trigger] diffs@[i] == cur@[2 * i] - cur@[2 * i + 1],
                forall|i: int| 0 <= i < k ==> -(2 * (mult@ * bound@)) <= #[trigger] sums@[i] <= 2 * (mult@ * bound@),
                forall|i: int| 0 <= i < k ==> -(n@ * bound@) <= #[trigger] diffs@[i] <= n@ * bound@,
            decreases h1 - k,
        {
            let a = cur[2 * k];
            let b = cur[2 * k + 1];
            sums.push(a + b);
            diffs.push(a - b);
            k = k + 1;
        }
        let ghost old_cur = cur@;
        let ghost old_tail = tail@;
        let mut next_tail: Vec<i64> = diffs;
        let mut t: usize = 0;
        while t < tail.len()
            invariant
                next_tail@.len() == h1 + t,
                old_cur.len() / 2 == h1,
                t <= tail@.len(),
                tail@ == old_tail,
                forall|i: int| 0 <= i < h1 ==> #[trigger] next_tail@[i] == old_cur[2 * i] - old_cur[2 * i + 1],
                forall|i: int| 0 <= i < t ==> #[trigger] next_tail@[h1 + i] == old_tail[i],
                forall|i: int| 0 <= i < next_tail@.len() ==> -(n@ * bound@) <= #[trigger] next_tail@[i] <= n@ * bound@,
                forall|i: int| 0 <= i < tail@.len() ==> -(n@ * bound@) <= #[trigger] tail@[i] <= n@ * bound@,
            decreases tail@.len() - t,
        {
            next_tail.push(tail[t]);
            t = t + 1;
        }
        proof {
            assert(ints(sums@) =~= pair_sums(ints(old_cur)));
            assert forall|i: int| 0 <= i < next_tail@.len() implies #[trigger] ints(next_tail@)[i] == (pair_diffs(
                ints(old_cur),
            ) + ints(old_tail))[i] by {
                if i < h1 {
                    assert(next_tail@[i] == old_cur[2 * i] - old_cur[2 * i + 1]);
                } else {
                    assert(next_tail@[h1 + (i - h1)] == old_tail[i - h1]);
                }
            }
            assert(ints(next_tail@) =~= pair_diffs(ints(old_cur)) + ints(old_tail));
            assert(haar_1d(ints(old_cur)) == haar_1d(pair_sums(ints(old_cur))) + pair_diffs(ints(old_cur)));
            assert(haar_1d(ints(sums@)) + ints(next_tail@) =~= haar_1d(ints(old_cur)) + ints(old_tail));
            assert((2 * mult@) * sums@.len() <= n@);
        }
        cur = sums;
        tail = next_tail;
        mult = Ghost(2 * mult@);
    }
    proof {
        assert(haar_1d(ints(cur@)) == ints(cur@));
        if cur@.len() == 1 {
            assert(mult@ * bound@ <= n@ * bound@) by (nonlinear_arith)
                requires
                    mult@ * 1 <= n@,
                    0 <= bound@,
            ;
        }
    }
    let mut r: Vec<i64> = cur;
    let ghost head = r@;
    let mut t: usize = 0;
    while t < tail.len()
        invariant
            r@.len() == head.len() + t,
            t <= tail@.len(),
            head.len() <= 1,
            forall|i: int| 0 <= i < head.len() ==> #[trigger] r@[i] == head[i],
            forall|i: int| 0 <= i < t ==> #[trigger] r@[head.len() + i] == tail@[i],
            forall|i: int| 0 <= i < r@.len() ==> -(n@ * bound@) <= #[trigger] r@[i] <= n@ * bound@,
            forall|i: int| 0 <= i < tail@.len() ==> -(n@ * bound@) <= #[trigger] tail@[i] <= n@ * bound@,
        decreases tail@.len() - t,
    {
        r.push(tail[t]);
        t = t + 1;
    }
    proof {
        assert forall|i: int| 0 <= i < r@.len() implies #[trigger] ints(r@)[i] == (ints(head) + ints(tail@))[i] by {
            if i < head.len() {
                assert(r@[i] == head[i]);
            } else {
                assert(r@[head.len() + (i - head.len())] == tail@[i - head.len()]);
            }
        }
        assert(ints(r@) =~= ints(head) + ints(tail@));
    }
    r
}

/// Row `y` of a plane.
pub open spec fn row_of(a: Seq<int>, y: int) -> Seq<int> {
    Seq::new(NUM_PIXELS as nat, |x: int| a[y * 128 + x])
}

/// Column `x` of a plane.
pub open spec fn col_of(a: Seq<int>, x: int) -> Seq<int> {
    Seq::new(NUM_PIXELS as nat, |y: int| a[y * 128 + x])
}

/// Every row transformed.
pub open spec fn haar_rows(a: Seq<int>) -> Seq<int> {
    Seq::new(NUM_PIXELS_SQUARED as nat, |p: int| haar_1d(row_of(a, p / 128))[p % 128])
}

/// Every column transformed.
pub open spec fn haar_columns(a: Seq<int>) -> Seq<int> {
    Seq::new(NUM_PIXELS_SQUARED as nat, |p: int| haar_1d(col_of(a, p % 128))[p / 128])
}

/// The standard two-dimensional transform: rows, then columns.
pub open spec fn haar_2d(a: Seq<int>) -> Seq<int> {
    haar_columns(haar_rows(a))
}

proof fn lemma_pow2_128()
    ensures
        is_pow2(128),
{
    assert(is_pow2(1));
    assert(is_pow2(2));
    assert(is_pow2(4));
    assert(is_pow2(8));
    assert(is_pow2(16));
    assert(is_pow2(32));
    assert(is_pow2(64));
    assert(is_pow2(128));
}

proof fn lemma_div_mod_128(y: int, x: int)
    requires
        0 <= y,
        0 <= x < 128,
    ensures
        (y * 128 + x) / 128 == y,
        (y * 128 + x) % 128 == x,
{
    assert((y * 128 + x) / 128 == y && (y * 128 + x) % 128 == x) by (nonlinear_arith)
        requires
            0 <= y,
            0 <= x < 128,
    ;
}

/// Transforms every row of a plane whose values lie within `bound`.
fn haar_rows_of(a: &Vec<i64>, bound: Ghost<int>) -> (r: Vec<i64>)
    requires
        a@.len() == NUM_PIXELS_SQUARED,
        0 <= bound@ <= 0x1_0000_0000,
        forall|i: int| 0 <= i < a@.len() ==> -bound@ <= #[trigger] a@[i] <= bound@,
    ensures
        ints(r@) == haar_rows(ints(a@)),
        forall|i: int| 0 <= i < r@.len() ==> -(128 * bound@) <= #[trigger] r@[i] <= 128 * bound@,
{
    let mut out: Vec<i64> = Vec::with_capacity(NUM_PIXELS_SQUARED);
    let mut y: usize = 0;
    while y < NUM_PIXELS
        invariant
            a@.len() == NUM_PIXELS_SQUARED,
            0 <= bound@ <= 0x1_0000_0000,
            forall|i: int| 0 <= i < a@.len() ==> -bound@ <= #[trigger] a@[i] <= bound@,
            y <= NUM_PIXELS,
            out@.len() == y * 128,
            forall|p: int| 0 <= p < out@.len() ==> #[trigger] out@[p] == haar_rows(ints(a@))[p],
            forall|p: int| 0 <= p < out@.len() ==> -(128 * bound@) <= #[trigger] out@[p] <= 128 * bound@,
        decreases NUM_PIXELS - y,
    {
        let mut line: Vec<i64> = Vec::with_capacity(NUM_PIXELS);
        let mut x: usize = 0;
        while x < NUM_PIXELS
            invariant
                a@.len() == NUM_PIXELS_SQUARED,
                y < NUM_PIXELS,
                x <= NUM_PIXELS,
                line@.len() == x,
                forall|i: int| 0 <= i < x ==> #[trigger] line@[i] == a@[y * 128 + i],
            decreases NUM_PIXELS - x,
        {
            line.push(a[y * NUM_PIXELS + x]);
            x = x + 1;
        }
        assert(ints(line@) =~= row_of(ints(a@), y as int));
        let h = haar_line(&line, bound);
        proof {
            lemma_pow2_128();
            lemma_haar_len(ints(line@));
        }
        let mut x: usize = 0;
        while x < NUM_PIXELS
            invariant
                y < NUM_PIXELS,
                x <= NUM_PIXELS,
                out@.len() == y * 128 + x,
                ints(h@) == haar_1d(row_of(ints(a@), y as int)),
                h@.len() == NUM_PIXELS,
                forall|p: int| 0 <= p < out@.len() ==> #[trigger] out@[p] == haar_rows(ints(a@))[p],
                forall|i: int| 0 <= i < h@.len() ==> -(128 * bound@) <= #[trigger] h@[i] <= 128 * bound@,
                forall|p: int| 0 <= p < out@.len() ==> -(128 * bound@) <= #[trigger] out@[p] <= 128 * bound@,
            decreases NUM_PIXELS - x,
        {
            proof {
                lemma_div_mod_128(y as int, x as int);
                assert(ints(h@)[x as int] == h@[x as int]);
            }
            out.push(h[x]);
            x = x + 1;
        }
        y = y + 1;
    }
    assert(ints(out@) =~= haar_rows(ints(a@)));
    out
}

/// Transforms every column of a plane whose values lie within `bound`.
fn haar_columns_of(a: &Vec<i64>, bound: Ghost<int>) -> (r: Vec<i64>)
    requires
        a@.len() == NUM_PIXELS_SQUARED,
        0 <= bound@ <= 0x1_0000_0000,
        forall|i: int| 0 <= i < a@.len() ==> -bound@ <= #[trigger] a@[i] <= bound@,
    ensures
        ints(r@) == haar_columns(ints(a@)),
        forall|i: int| 0 <= i < r@.len() ==> -(128 * bound@) <= #[trigger] r@[i] <= 128 * bound@,
{
    let mut cols: Vec<Vec<i64>> = Vec::with_capacity(NUM_PIXELS);
    let mut x: usize = 0;
    while x < NUM_PIXELS
        invariant
            a@.len() == NUM_PIXELS_SQUARED,
            0 <= bound@ <= 0x1_0000_0000,
            forall|i: int| 0 <= i < a@.len() ==> -bound@ <= #[trigger] a@[i] <= bound@,
            x <= NUM_PIXELS,
            cols@.len() == x,
            forall|c: int| 0 <= c < x ==> ints(#[trigger] cols@[c]@) == haar_1d(col_of(ints(a@), c)),
            forall|c: int| 0 <= c < x ==> (#[trigger] cols@[c])@.len() == NUM_PIXELS,
            forall|c: int, i: int| 0 <= c < x && 0 <= i < NUM_PIXELS ==> -(128 * bound@) <= #[trigger] cols@[c]@[i] <= 128 * bound@,
        decreases NUM_PIXELS - x,
    {
        let mut line: Vec<i64> = Vec::with_capacity(NUM_PIXELS);
        let mut y: usize = 0;
        while y < NUM_PIXELS
            invariant
                a@.len() == NUM_PIXELS_SQUARED,
                x < NUM_PIXELS,
                y <= NUM_PIXELS,
                line@.len() == y,
                forall|i: int| 0 <= i < y ==> #[trigger] line@[i] == a@[i * 128 + x],
            decreases NUM_PIXELS - y,
        {
            line.push(a[y * NUM_PIXELS + x]);
            y = y + 1;
        }
        assert(ints(line@) =~= col_of(ints(a@), x as int));
        let h = haar_line(&line, bound);
        proof {
            lemma_pow2_128();
            lemma_haar_len(ints(line@));
        }
        cols.push(h);
        x = x + 1;
    }
    let mut out: Vec<i64> = Vec::with_capacity(NUM_PIXELS_SQUARED);
    let mut y: usize = 0;
    while y < NUM_PIXELS
        invariant
            cols@.len() == NUM_PIXELS,
            forall|c: int| 0 <= c < NUM_PIXELS ==> ints(#[trigger] cols@[c]@) == haar_1d(col_of(ints(a@), c)),
            forall|c: int| 0 <= c < NUM_PIXELS ==> (#[trigger] cols@[c])@.len() == NUM_PIXELS,
            forall|c: int, i: int| 0 <= c < NUM_PIXELS && 0 <= i < NUM_PIXELS ==> -(128 * bound@) <= #[trigger] cols@[c]@[i] <= 128 * bound@,
            y <= NUM_PIXELS,
            out@.len() == y * 128,
            forall|p: int| 0 <= p < out@.len() ==> #[trigger] out@[p] == haar_columns(ints(a@))[p],
            forall|p: int| 0 <= p < out@.len() ==> -(128 * bound@) <= #[trigger] out@[p] <= 128 * bound@,
        decreases NUM_PIXELS - y,
    {
        let mut x: usize = 0;
        while x < NUM_PIXELS
            invariant
                cols@.len() == NUM_PIXELS,
                forall|c: int| 0 <= c < NUM_PIXELS ==> ints(#[trigger] cols@[c]@) == haar_1d(col_of(ints(a@), c)),
                forall|c: int| 0 <= c < NUM_PIXELS ==> (#[trigger] cols@[c])@.len() == NUM_PIXELS,
                forall|c: int, i: int| 0 <= c < NUM_PIXELS && 0 <= i < NUM_PIXELS ==> -(128 * bound@) <= #[trigger] cols@[c]@[i] <= 128 * bound@,
                y < NUM_PIXELS,
                x <= NUM_PIXELS,
                out@.len() == y * 128 + x,
                forall|p: int| 0 <= p < out@.len() ==> #[trigger] out@[p] == haar_columns(ints(a@))[p],
                forall|p: int| 0 <= p < out@.len() ==> -(128 * bound@) <= #[trigger] out@[p] <= 128 * bound@,
            decreases NUM_PIXELS - x,
        {
            proof {
                lemma_div_mod_128(y as int, x as int);
                assert(ints(cols@[x as int]@)[y as int] == cols@[x as int]@[y as int]);
            }
            let v = cols[x][y];
            assert(-(128 * bound@) <= cols@[x as int]@[y as int] <= 128 * bound@);
            out.push(v);
            x = x + 1;
        }
        y = y + 1;
    }
    assert(ints(out@) =~= haar_columns(ints(a@)));
    out
}

/// The two-dimensional transform of a channel plane.
pub fn haar_2d_of(a: &Vec<i64>) -> (r: Vec<i64>)
    requires
        a@.len() == NUM_PIXELS_SQUARED,
        forall|i: int| 0 <= i < a@.len() ==> -CHANNEL_LIMIT <= #[trigger] a@[i] <= CHANNEL_LIMIT,
    ensures
        ints(r@) == haar_2d(ints(a@)),
        r@.len() == NUM_PIXELS_SQUARED,
        forall|i: int| 0 <= i < r@.len() ==> -(16384 * CHANNEL_LIMIT) <= #[trigger] r@[i] <= 16384 * CHANNEL_LIMIT,
{
    let rows = haar_rows_of(a, Ghost(CHANNEL_LIMIT as int));
    assert(rows@.len() == NUM_PIXELS_SQUARED) by {
        assert(ints(rows@).len() == NUM_PIXELS_SQUARED);
    }
    let r = haar_columns_of(&rows, Ghost(128 * CHANNEL_LIMIT as int));
    assert(ints(r@).len() == NUM_PIXELS_SQUARED);
    r
}

/// The largest power of two not above `x` (1 for `x` ≤ 1).
pub open spec fn top_pow2(x: int) -> int
    decreases x,
{
    if x <= 1 {
        1
    } else {
        2 * top_pow2(x / 2)
    }
}

/// Comparison key of the transformed value `c` at position `p = y * 128 + x`:
/// `c² · top_pow2(x) · top_pow2(y)`. The normalised coefficient is
/// `c · 2^((lg x + lg y − 14) / 2)`, so the key is its square times a
/// constant and orders positions by the coefficient's magnitude.
pub open spec fn strength(c: int, p: int) -> int {
    c * c * top_pow2(p % 128) * top_pow2(p / 128)
}

/// Position `a` holds a stronger coefficient than `b`; equal strengths go
/// to the lower position.
pub open spec fn stronger(raw: Seq<int>, a: int, b: int) -> bool {
    let sa = strength(raw[a], a);
    let sb = strength(raw[b], b);
    sa > sb || (sa == sb && a < b)
}

/// A coefficient position other than the average's.
pub open spec fn is_position(p: int) -> bool {
    1 <= p < NUM_PIXELS_SQUARED
}

/// `sig` holds the forty strongest positions of the transformed plane
/// `raw`, strongest first, each signed as its coefficient.
pub open spec fn selects(raw: Seq<int>, sig: Seq<i16>) -> bool {
    let pos = Seq::new(sig.len(), |t: int| abs(sig[t] as int));
    &&& sig.len() == NUM_COEFS
    &&& forall|t: int| 0 <= t < sig.len() ==> is_position(#[trigger] pos[t]) && (sig[t] < 0 <==> raw[pos[t]] < 0)
    &&& forall|t: int, u: int| 0 <= t < u < sig.len() ==> stronger(raw, #[trigger] pos[t], #[trigger] pos[u])
    &&& forall|p: int|
        is_position(p) && !pos.contains(p) ==> forall|t: int| 0 <= t < sig.len() ==> stronger(raw, #[trigger] pos[t], p)
}

/// The largest power of two not above `x`.
fn top_pow2_of(x: usize) -> (r: u128)
    requires
        x < NUM_PIXELS,
    ensures
        r == top_pow2(x as int),
        1 <= r < 128,
{
    let mut r: u128 = 1;
    let mut v: usize = x;
    while v > 1
        invariant
            x < 128,
            1 <= r,
            r * top_pow2(v as int) == top_pow2(x as int),
            r * v <= x,
            x >= 1 ==> v >= 1,
        decreases v,
    {
        proof {
            assert((2 * r) * (v / 2) <= r * v) by (nonlinear_arith)
                requires
                    r >= 1,
                    v >= 2,
            ;
            assert(r * (2 * top_pow2(v as int / 2)) == (2 * r) * top_pow2(v as int / 2)) by (nonlinear_arith);
            assert(r < 128) by (nonlinear_arith)
                requires
                    r * v <= x,
                    x < 128,
                    v >= 2,
            ;
        }
        v = v / 2;
        r = r * 2;
    }
    proof {
        if x >= 1 {
            assert(r < 128) by (nonlinear_arith)
                requires
                    r * v <= x,
                    x < 128,
                    v >= 1,
            ;
        }
    }
    r
}

/// The comparison key of every position of a transformed plane.
fn strengths(raw: &Vec<i64>) -> (r: Vec<u128>)
    requires
        raw@.len() == NUM_PIXELS_SQUARED,
        forall|i: int| 0 <= i < raw@.len() ==> -(16384 * CHANNEL_LIMIT) <= #[trigger] raw@[i] <= 16384 * CHANNEL_LIMIT,
    ensures
        r@.len() == NUM_PIXELS_SQUARED,
        forall|p: int| 0 <= p < NUM_PIXELS_SQUARED ==> #[trigger] r@[p] == strength(raw@[p] as int, p),
{
    let mut r: Vec<u128> = Vec::with_capacity(NUM_PIXELS_SQUARED);
    let mut p: usize = 0;
    while p < NUM_PIXELS_SQUARED
        invariant
            raw@.len() == NUM_PIXELS_SQUARED,
            forall|i: int| 0 <= i < raw@.len() ==> -(16384 * CHANNEL_LIMIT) <= #[trigger] raw@[i] <= 16384 * CHANNEL_LIMIT,
            p <= NUM_PIXELS_SQUARED,
            r@.len() == p,
            forall|p2: int| 0 <= p2 < p ==> #[trigger] r@[p2] == strength(raw@[p2] as int, p2),
        decreases NUM_PIXELS_SQUARED - p,
    {
        let c = raw[p];
        let a: u128 = if c < 0 { (-c) as u128 } else { c as u128 };
        let fx = top_pow2_of(p % NUM_PIXELS);
        let fy = top_pow2_of(p / NUM_PIXELS);
        proof {
            assert(a * a <= 4_177_920_000u128 * 4_177_920_000u128) by (nonlinear_arith)
                requires
                    a <= 4_177_920_000u128,
            ;
            assert(a * a * fx <= 4_177_920_000u128 * 4_177_920_000u128 * 128) by (nonlinear_arith)
                requires
                    a * a <= 4_177_920_000u128 * 4_177_920_000u128,
                    fx < 128,
            ;
            assert(a * a * fx * fy <= 4_177_920_000u128 * 4_177_920_000u128 * 128 * 128) by (nonlinear_arith)
                requires
                    a * a * fx <= 4_177_920_000u128 * 4_177_920_000u128 * 128,
                    fy < 128,
            ;
            assert((c as int) * (c as int) == a * a) by (nonlinear_arith)
                requires
                    a == abs(c as int),
            ;
        }
        r.push(a * a * fx * fy);
        p = p + 1;
    }
    r
}

/// The forty strongest positions of a transformed plane, strongest first,
/// each with the sign of its coefficient.
pub fn get_m_largest(cdata: &Vec<i64>) -> (r: SigT)
    requires
        cdata@.len() == NUM_PIXELS_SQUARED,
        forall|i: int| 0 <= i < cdata@.len() ==> -(16384 * CHANNEL_LIMIT) <= #[trigger] cdata@[i] <= 16384 * CHANNEL_LIMIT,
    ensures
        selects(ints(cdata@), r@),
{
    let keys = strengths(cdata);
    let ghost raw = ints(cdata@);
    let ghost lt = |a: int, b: int| stronger(raw, a, b);
    let ghost ok = |j: int| is_position(j);
    assert(transitive(lt));
    let mut top: Vec<usize> = Vec::with_capacity(NUM_COEFS + 1);
    let mut i: usize = 1;
    while i < NUM_PIXELS_SQUARED
        invariant
            raw == ints(cdata@),
            lt == (|a: int, b: int| stronger(raw, a, b)),
            ok == (|j: int| is_position(j)),
            transitive(lt),
            keys@.len() == NUM_PIXELS_SQUARED,
            forall|p: int| 0 <= p < NUM_PIXELS_SQUARED ==> #[trigger] keys@[p] == strength(raw[p], p),
            1 <= i <= NUM_PIXELS_SQUARED,
            top@.len() == if i - 1 < NUM_COEFS { i - 1 } else { NUM_COEFS as int },
            ranks_prefix(lt, ok, NUM_COEFS as int, top@, i as int),
        decreases NUM_PIXELS_SQUARED - i,
    {
        let mut p: usize = 0;
        while p < top.len() && (keys[top[p]] > keys[i] || (keys[top[p]] == keys[i] && top[p] < i))
            invariant
                lt == (|a: int, b: int| stronger(raw, a, b)),
                keys@.len() == NUM_PIXELS_SQUARED,
                forall|p: int| 0 <= p < NUM_PIXELS_SQUARED ==> #[trigger] keys@[p] == strength(raw[p], p),
                1 <= i < NUM_PIXELS_SQUARED,
                p <= top@.len(),
                ranks_prefix(lt, ok, NUM_COEFS as int, top@, i as int),
                forall|t: int| 0 <= t < p ==> lt(#[trigger] top@[t] as int, i as int),
            decreases top@.len() - p,
        {
            p = p + 1;
        }
        let ghost old_top = top@;
        if p < top.len() {
            assert(top@[p as int] < i);
            assert(lt(i as int, top@[p as int] as int));
        }
        if top.len() < NUM_COEFS || p < top.len() {
            top.insert(p, i);
            if top.len() > NUM_COEFS {
                let _ = top.pop();
                assert(top@ =~= old_top.insert(p as int, i).take(NUM_COEFS as int));
            }
            proof {
                lemma_step_insert(lt, ok, NUM_COEFS as int, old_top, p as int, i, top@);
            }
        } else {
            proof {
                lemma_step_skip(lt, ok, NUM_COEFS as int, top@, i as int);
            }
        }
        i = i + 1;
    }
    let mut sig: SigT = [0; 40];
    let mut t: usize = 0;
    while t < NUM_COEFS
        invariant
            top@.len() == NUM_COEFS,
            raw == ints(cdata@),
            cdata@.len() == NUM_PIXELS_SQUARED,
            ok == (|j: int| is_position(j)),
            forall|t2: int| 0 <= t2 < top@.len() ==> #[trigger] top@[t2] < NUM_PIXELS_SQUARED && ok(top@[t2] as int),
            t <= NUM_COEFS,
            forall|t2: int| 0 <= t2 < t ==> abs(#[trigger] sig@[t2] as int) == top@[t2] as int && (sig@[t2] < 0 <==> raw[top@[t2] as int] < 0),
        decreases NUM_COEFS - t,
    {
        let pos = top[t];
        assert(ok(top@[t as int] as int));
        let v: i16 = if cdata[pos] < 0 { -(pos as i16) } else { pos as i16 };
        sig[t] = v;
        t = t + 1;
    }
    proof {
        let pos = Seq::new(sig@.len(), |t: int| abs(sig@[t] as int));
        assert forall|t: int| 0 <= t < NUM_COEFS implies #[trigger] pos[t] == top@[t] as int by {}
        assert forall|t: int, u: int| 0 <= t < u < NUM_COEFS implies stronger(raw, #[trigger] pos[t], #[trigger] pos[u]) by {
            assert(lt(top@[t] as int, top@[u] as int));
        }
        assert forall|p: int| is_position(p) && !pos.contains(p) implies forall|t: int| 0 <= t < NUM_COEFS ==> stronger(raw, #[trigger] pos[t], p) by {
            assert(ok(p));
            if top@.contains(p as usize) {
                let u = choose|u: int| 0 <= u < top@.len() && top@[u] == p as usize;
                assert(pos[u] == p);
            }
            assert forall|t: int| 0 <= t < NUM_COEFS implies stronger(raw, #[trigger] pos[t], p) by {
                assert(lt(top@[t] as int, p));
            }
        }
    }
    sig
}

/// Value of channel `c` (0 = Y, 1 = I, 2 = Q) of pixel `p` of an RGB raster.
pub open spec fn channel_value(rgb: Seq<u8>, c: int, p: int) -> int {
    let (r, g, b) = (rgb[3 * p] as int, rgb[3 * p + 1] as int, rgb[3 * p + 2] as int);
    if c == 0 {
        yiq_y(r, g, b)
    } else if c == 1 {
        yiq_i(r, g, b)
    } else {
        yiq_q(r, g, b)
    }
}

/// Channel plane `c` of an RGB raster of 128×128 pixels, in thousandths.
pub open spec fn plane(rgb: Seq<u8>, c: int) -> Seq<int> {
    Seq::new(NUM_PIXELS_SQUARED as nat, |p: int| channel_value(rgb, c, p))
}

/// Luminance average, in millionths and rounded to the nearest, of a plane
/// whose transform has `dc` at position 0: the plane's mean over 256, as
/// the unnormalised sum `dc` is `16384 · 1000` times the mean.
pub open spec fn lumin_of(dc: int) -> int {
    (dc * 1000 + 2_097_152) / 4_194_304
}

/// `s` is the signature of the RGB raster `rgb` of 128×128 pixels.
pub open spec fn is_signature_of(rgb: Seq<u8>, s: HaarSignature) -> bool {
    forall|c: int|
        0 <= c < 3 ==> {
            &&& s.lumin(c) == lumin_of(haar_2d(#[trigger] plane(rgb, c))[0])
            &&& selects(haar_2d(plane(rgb, c)), s.coefs(c))
        }
}

/// The luminance average of a transformed plane from its value at 0.
fn lumin_from_dc(dc: i64) -> (r: i32)
    requires
        -(16384 * CHANNEL_LIMIT) <= dc <= 16384 * CHANNEL_LIMIT,
    ensures
        r == lumin_of(dc as int),
{
    let n: i64 = dc * 1000 + 2_097_152;
    let d: i64 = 4_194_304;
    if n >= 0 {
        (n / d) as i32
    } else {
        let m: i64 = -n;
        let q: i64 = (m + d - 1) / d;
        assert(-q == (n as int) / 4_194_304) by (nonlinear_arith)
            requires
                m == -n,
                n < 0,
                q == (m + 4_194_303) / 4_194_304,
        ;
        (-q) as i32
    }
}

/// The three transformed channel planes of an RGB raster of 128×128
/// pixels.
pub fn transform_char(rgb: &Vec<u8>) -> (r: (Vec<i64>, Vec<i64>, Vec<i64>))
    requires
        rgb@.len() == 3 * NUM_PIXELS_SQUARED,
    ensures
        ints(r.0@) == haar_2d(plane(rgb@, 0)),
        ints(r.1@) == haar_2d(plane(rgb@, 1)),
        ints(r.2@) == haar_2d(plane(rgb@, 2)),
        r.0@.len() == NUM_PIXELS_SQUARED,
        r.1@.len() == NUM_PIXELS_SQUARED,
        r.2@.len() == NUM_PIXELS_SQUARED,
        forall|i: int| 0 <= i < NUM_PIXELS_SQUARED ==> -(16384 * CHANNEL_LIMIT) <= #[trigger] r.0@[i] <= 16384 * CHANNEL_LIMIT,
        forall|i: int| 0 <= i < NUM_PIXELS_SQUARED ==> -(16384 * CHANNEL_LIMIT) <= #[trigger] r.1@[i] <= 16384 * CHANNEL_LIMIT,
        forall|i: int| 0 <= i < NUM_PIXELS_SQUARED ==> -(16384 * CHANNEL_LIMIT) <= #[trigger] r.2@[i] <= 16384 * CHANNEL_LIMIT,
{
    let (a, b, c) = rgb_to_yiq_conversion(rgb);
    assert forall|p: int| 0 <= p < NUM_PIXELS_SQUARED implies ints(a@)[p] == plane(rgb@, 0)[p] && -CHANNEL_LIMIT
        <= #[trigger] a@[p] <= CHANNEL_LIMIT by {}
    assert forall|p: int| 0 <= p < NUM_PIXELS_SQUARED implies ints(b@)[p] == plane(rgb@, 1)[p] && -CHANNEL_LIMIT
        <= #[trigger] b@[p] <= CHANNEL_LIMIT by {
        assert(a@[p] == yiq_y(rgb@[3 * p] as int, rgb@[3 * p + 1] as int, rgb@[3 * p + 2] as int));
    }
    assert forall|p: int| 0 <= p < NUM_PIXELS_SQUARED implies ints(c@)[p] == plane(rgb@, 2)[p] && -CHANNEL_LIMIT
        <= #[trigger] c@[p] <= CHANNEL_LIMIT by {
        assert(a@[p] == yiq_y(rgb@[3 * p] as int, rgb@[3 * p + 1] as int, rgb@[3 * p + 2] as int));
    }
    assert(ints(a@) =~= plane(rgb@, 0));
    assert(ints(b@) =~= plane(rgb@, 1));
    assert(ints(c@) =~= plane(rgb@, 2));
    (haar_2d_of(&a), haar_2d_of(&b), haar_2d_of(&c))
}

/// The luminance averages from position 0 of the three transformed
/// planes, and the forty strongest other positions of each.
pub fn calc_haar(cdata1: &Vec<i64>, cdata2: &Vec<i64>, cdata3: &Vec<i64>) -> (r: (Lumin, SignatureT))
    requires
        cdata1@.len() == NUM_PIXELS_SQUARED,
        cdata2@.len() == NUM_PIXELS_SQUARED,
        cdata3@.len() == NUM_PIXELS_SQUARED,
        forall|i: int| 0 <= i < NUM_PIXELS_SQUARED ==> -(16384 * CHANNEL_LIMIT) <= #[trigger] cdata1@[i] <= 16384 * CHANNEL_LIMIT,
        forall|i: int| 0 <= i < NUM_PIXELS_SQUARED ==> -(16384 * CHANNEL_LIMIT) <= #[trigger] cdata2@[i] <= 16384 * CHANNEL_LIMIT,
        forall|i: int| 0 <= i < NUM_PIXELS_SQUARED ==> -(16384 * CHANNEL_LIMIT) <= #[trigger] cdata3@[i] <= 16384 * CHANNEL_LIMIT,
    ensures
        r.0@[0] == lumin_of(cdata1@[0] as int),
        r.0@[1] == lumin_of(cdata2@[0] as int),
        r.0@[2] == lumin_of(cdata3@[0] as int),
        selects(ints(cdata1@), r.1.sig@[0]@),
        selects(ints(cdata2@), r.1.sig@[1]@),
        selects(ints(cdata3@), r.1.sig@[2]@),
        forall|c: int, i: int|
            0 <= c < 3 && 0 <= i < NUM_COEFS ==> crate::signature::valid_coef(#[trigger] r.1.sig@[c]@[i]),
{
    let avglf = [lumin_from_dc(cdata1[0]), lumin_from_dc(cdata2[0]), lumin_from_dc(cdata3[0])];
    let sig1 = get_m_largest(cdata1);
    let sig2 = get_m_largest(cdata2);
    let sig3 = get_m_largest(cdata3);
    let coefs = SignatureT { sig: [sig1, sig2, sig3] };
    proof {
        lemma_selection_valid(ints(cdata1@), sig1@);
        lemma_selection_valid(ints(cdata2@), sig2@);
        lemma_selection_valid(ints(cdata3@), sig3@);
        assert(coefs.sig@[0] == sig1 && coefs.sig@[1] == sig2 && coefs.sig@[2] == sig3);
    }
    (avglf, coefs)
}

/// A selection names forty distinct positions, so a computed signature
/// has the shape that `HaarSignature::wf` describes.
pub proof fn lemma_selection_valid(raw: Seq<int>, sig: Seq<i16>)
    requires
        selects(raw, sig),
    ensures
        forall|i: int| 0 <= i < NUM_COEFS ==> crate::signature::valid_coef(#[trigger] sig[i]),
        forall|i: int, j: int|
            0 <= i < NUM_COEFS && 0 <= j < NUM_COEFS && i != j ==> abs(#[trigger] sig[i] as int) != abs(#[trigger] sig[j] as int),
{
    let pos = Seq::new(sig.len(), |t: int| abs(sig[t] as int));
    assert forall|i: int| 0 <= i < NUM_COEFS implies crate::signature::valid_coef(#[trigger] sig[i]) by {
        assert(is_position(pos[i]));
    }
    assert forall|i: int, j: int|
        0 <= i < NUM_COEFS && 0 <= j < NUM_COEFS && i != j implies abs(#[trigger] sig[i] as int) != abs(#[trigger] sig[j] as int) by {
        if i < j {
            assert(stronger(raw, pos[i], pos[j]));
        } else {
            assert(stronger(raw, pos[j], pos[i]));
        }
    }
}

/// The signature of an RGB raster of 128×128 pixels, three bytes per
/// pixel, row-major.
pub fn signature_of_rgb(rgb: &Vec<u8>) -> (r: HaarSignature)
    requires
        rgb@.len() == 3 * NUM_PIXELS_SQUARED,
    ensures
        is_signature_of(rgb@, r),
        r.wf(),
{
    let (a, b, c) = transform_char(rgb);
    let (avglf, coefs) = calc_haar(&a, &b, &c);
    let r = HaarSignature { avglf, sig0: coefs.sig[0], sig1: coefs.sig[1], sig2: coefs.sig[2] };
    proof {
        lemma_selection_valid(ints(a@), r.coefs(0));
        lemma_selection_valid(ints(b@), r.coefs(1));
        lemma_selection_valid(ints(c@), r.coefs(2));
        assert(ints(a@)[0] == a@[0]);
        assert(ints(b@)[0] == b@[0]);
        assert(ints(c@)[0] == c@[0]);
        assert forall|c2: int| 0 <= c2 < 3 implies {
            &&& r.lumin(c2) == lumin_of(haar_2d(#[trigger] plane(rgb@, c2))[0])
            &&& selects(haar_2d(plane(rgb@, c2)), r.coefs(c2))
        } by {
            if c2 == 0 {
            } else if c2 == 1 {
            } else {
            }
        }
    }
    r
}

} // verus!
