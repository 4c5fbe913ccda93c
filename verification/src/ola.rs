//! Overlap-add reconstruction: the meaning of the engine's streamed output.
//!
//! The input stream is cut into consecutive analysis windows of `w` samples.
//! Each completed window is convolved with the impulse response that was
//! current when the window was processed, and the window outputs, each
//! `w + f - 1` samples long, are summed at their natural offsets.  The
//! central result here is that when every window used the same impulse
//! response, this reconstruction equals the direct linear convolution of the
//! whole input stream.

use vstd::prelude::*;
use crate::conv::{bounded, conv_at, conv_partial, sample_at};
use vstd::arithmetic::div_mod::lemma_fundamental_div_mod;
use vstd::arithmetic::div_mod::lemma_mod_division_less_than_divisor;

verus! {

/// Analysis window `k` of the input stream: samples `k*w .. k*w + w`.
pub open spec fn window_of(x: Seq<int>, w: nat, k: int) -> Seq<int> {
    x.subrange(k * w, k * w + w)
}

/// Every filter in the history has length `f`.
pub open spec fn filters_wf(hs: Seq<Seq<int>>, f: nat) -> bool {
    forall|k: int| 0 <= k < hs.len() ==> (#[trigger] hs[k]).len() == f
}

/// Every coefficient of every filter in the history has magnitude at most `b`.
pub open spec fn filters_bounded(hs: Seq<Seq<int>>, b: int) -> bool {
    forall|k: int| 0 <= k < hs.len() ==> bounded(#[trigger] hs[k], b)
}

/// Every filter in the history equals `h`.
pub open spec fn filters_all(hs: Seq<Seq<int>>, h: Seq<int>) -> bool {
    forall|k: int| 0 <= k < hs.len() ==> #[trigger] hs[k] == h
}

/// Contribution of processed window `k` to overlap-add output index `j`,
/// where `h` is the filter that was current when the window was processed.
pub open spec fn window_out(x: Seq<int>, h: Seq<int>, w: nat, k: int, j: int) -> int {
    conv_at(window_of(x, w, k), h, j - k * w)
}

/// Overlap-add sum of the first `n` processed windows at output index `j`.
pub open spec fn ola_prefix(x: Seq<int>, hs: Seq<Seq<int>>, w: nat, n: int, j: int) -> int
    decreases n,
{
    if n <= 0 {
        0
    } else {
        ola_prefix(x, hs, w, n - 1, j) + window_out(x, hs[n - 1], w, n - 1, j)
    }
}

/// Overlap-add output at index `j` once all windows in `hs` are processed.
pub open spec fn ola_at(x: Seq<int>, hs: Seq<Seq<int>>, w: nat, j: int) -> int {
    ola_prefix(x, hs, w, hs.len() as int, j)
}

/// The engine's emitted stream: one analysis window of buffering delay,
/// then the overlap-add reconstruction.
pub open spec fn stream_out(x: Seq<int>, hs: Seq<Seq<int>>, w: nat, t: int) -> int {
    if t < w {
        0
    } else {
        ola_at(x, hs, w, t - w)
    }
}

/// One tap of the tap-major form of the overlap-add sum: the coefficient is
/// taken from the filter in effect for the window holding sample `j - m`.
pub open spec fn mixed_term(x: Seq<int>, hs: Seq<Seq<int>>, w: nat, n: int, j: int, m: int) -> int {
    let p = j - m;
    if 0 <= p < n * w {
        hs[p / (w as int)][m] * x[p]
    } else {
        0
    }
}

/// Tap-major form of the overlap-add sum: the first `m` taps, over the first
/// `n` windows of input.
pub open spec fn mixed_partial(x: Seq<int>, hs: Seq<Seq<int>>, w: nat, n: int, j: int, m: int) -> int
    decreases m,
{
    if m <= 0 {
        0
    } else {
        mixed_partial(x, hs, w, n, j, m - 1) + mixed_term(x, hs, w, n, j, m - 1)
    }
}

/// The sample index `p` inside window `k` divides down to `k`.
proof fn lemma_window_index(p: int, w: nat, k: int)
    requires
        w >= 1,
        k * w <= p < (k + 1) * w,
    ensures
        p / (w as int) == k,
{
    let wi = w as int;
    lemma_fundamental_div_mod(p, wi);
    lemma_mod_division_less_than_divisor(p, wi);
    let q = p / wi;
    assert(p == wi * q + p % wi);
    assert(k * wi <= wi * q + p % wi < (k + 1) * wi);
    if q < k {
        assert(wi * q + p % wi < wi * q + wi <= k * wi) by (nonlinear_arith)
            requires
                q < k,
                wi >= 1,
                p % wi < wi,
        ;
    }
    if q > k {
        assert(wi * q + p % wi >= wi * q >= (k + 1) * wi) by (nonlinear_arith)
            requires
                q > k,
                wi >= 1,
                p % wi >= 0,
        ;
    }
}

/// The convolution of window `k` with `h`, tap for tap, reads the whole
/// input stream through the band `k*w <= j - m < (k+1)*w`.
proof fn lemma_window_band(x: Seq<int>, h: Seq<int>, w: nat, k: int, j: int, m: int)
    requires
        w >= 1,
        0 <= k,
        (k + 1) * w <= x.len(),
        0 <= m,
    ensures
        conv_partial(window_of(x, w, k), h, j - k * w, m) == band_partial(x, h, w, k, j, m),
    decreases m,
{
    if m > 0 {
        lemma_window_band(x, h, w, k, j, m - 1);
        let win = window_of(x, w, k);
        let q = (j - k * w) - (m - 1);
        assert(0 <= k * w && k * w + w == (k + 1) * w) by (nonlinear_arith)
            requires
                k >= 0,
                w >= 0,
        ;
        assert(win.len() == w);
        if 0 <= q < w {
            assert(win[q] == x[k * w + q]);
            assert(sample_at(win, q) == x[j - (m - 1)]);
        } else {
            assert(sample_at(win, q) == 0);
            assert(h[m - 1] * 0 == 0);
        }
    }
}

/// One tap of the band-restricted convolution of window `k`.
pub open spec fn band_term(x: Seq<int>, h: Seq<int>, w: nat, k: int, j: int, m: int) -> int {
    let p = j - m;
    if k * w <= p < (k + 1) * w {
        h[m] * x[p]
    } else {
        0
    }
}

/// The first `m` taps of the band-restricted convolution of window `k`.
pub open spec fn band_partial(x: Seq<int>, h: Seq<int>, w: nat, k: int, j: int, m: int) -> int
    decreases m,
{
    if m <= 0 {
        0
    } else {
        band_partial(x, h, w, k, j, m - 1) + band_term(x, h, w, k, j, m - 1)
    }
}

/// With no window processed, the tap-major sum is zero.
proof fn lemma_mixed_partial_empty(x: Seq<int>, hs: Seq<Seq<int>>, w: nat, j: int, m: int)
    ensures
        mixed_partial(x, hs, w, 0, j, m) == 0,
    decreases m,
{
    if m > 0 {
        lemma_mixed_partial_empty(x, hs, w, j, m - 1);
    }
}

/// Extending the tap-major sum from `n - 1` to `n` windows adds exactly the
/// band of window `n - 1`.
proof fn lemma_mixed_partial_step(x: Seq<int>, hs: Seq<Seq<int>>, w: nat, n: int, j: int, m: int)
    requires
        w >= 1,
        1 <= n,
        0 <= m,
    ensures
        mixed_partial(x, hs, w, n, j, m) == mixed_partial(x, hs, w, n - 1, j, m)
            + band_partial(x, hs[n - 1], w, n - 1, j, m),
    decreases m,
{
    if m > 0 {
        lemma_mixed_partial_step(x, hs, w, n, j, m - 1);
        let p = j - (m - 1);
        if 0 <= p < n * w {
            if p < (n - 1) * w {
                assert(mixed_term(x, hs, w, n, j, m - 1) == mixed_term(x, hs, w, n - 1, j, m - 1));
                assert(band_term(x, hs[n - 1], w, n - 1, j, m - 1) == 0);
            } else {
                lemma_window_index(p, w, n - 1);
                assert(mixed_term(x, hs, w, n, j, m - 1) == hs[n - 1][m - 1] * x[p]);
                assert(mixed_term(x, hs, w, n - 1, j, m - 1) == 0);
                assert(band_term(x, hs[n - 1], w, n - 1, j, m - 1) == hs[n - 1][m - 1] * x[p]);
            }
        } else {
            assert((n - 1) * w == n * w - w) by (nonlinear_arith);
            assert(mixed_term(x, hs, w, n, j, m - 1) == 0);
            assert(mixed_term(x, hs, w, n - 1, j, m - 1) == 0);
            assert(band_term(x, hs[n - 1], w, n - 1, j, m - 1) == 0) by {
                assert(!((n - 1) * w <= p < n * w));
            }
        }
    }
}

/// The overlap-add sum over windows equals the tap-major sum over taps.
///
/// Window by window the two sums bite off the same products `h[m] * x[p]`,
/// merely grouped differently; this is the accounting at the heart of
/// overlap-add processing.
pub proof fn lemma_ola_is_mixed(x: Seq<int>, hs: Seq<Seq<int>>, w: nat, f: nat, n: int, j: int)
    requires
        w >= 1,
        filters_wf(hs, f),
        0 <= n <= hs.len(),
        n * w <= x.len(),
    ensures
        ola_prefix(x, hs, w, n, j) == mixed_partial(x, hs, w, n, j, f as int),
    decreases n,
{
    if n == 0 {
        lemma_mixed_partial_empty(x, hs, w, j, f as int);
    } else {
        assert((n - 1) * w <= n * w) by (nonlinear_arith)
            requires
                w >= 0,
        ;
        lemma_ola_is_mixed(x, hs, w, f, n - 1, j);
        assert(hs[n - 1].len() == f);
        lemma_window_band(x, hs[n - 1], w, n - 1, j, f as int);
        lemma_mixed_partial_step(x, hs, w, n, j, f as int);
    }
}

/// When every window used the same filter `h` and `j` lies inside the
/// processed region, the tap-major sum is the direct convolution of the
/// whole input stream with `h`.
proof fn lemma_mixed_const(x: Seq<int>, hs: Seq<Seq<int>>, h: Seq<int>, w: nat, n: int, j: int, m: int)
    requires
        w >= 1,
        filters_all(hs, h),
        0 <= n <= hs.len(),
        n * w <= x.len(),
        j < n * w,
        0 <= m,
    ensures
        mixed_partial(x, hs, w, n, j, m) == conv_partial(x, h, j, m),
    decreases m,
{
    if m > 0 {
        lemma_mixed_const(x, hs, h, w, n, j, m - 1);
        let p = j - (m - 1);
        if 0 <= p {
            assert(p < n * w);
            lemma_window_index_range(p, w, n);
            assert(hs[p / (w as int)] == h);
            assert(p < x.len());
            assert(sample_at(x, p) == x[p]);
        } else {
            assert(sample_at(x, p) == 0);
            assert(h[m - 1] * 0 == 0);
        }
    }
}

/// A sample index below `n*w` lies in one of the first `n` windows.
proof fn lemma_window_index_range(p: int, w: nat, n: int)
    requires
        w >= 1,
        0 <= p < n * w,
    ensures
        0 <= p / (w as int) < n,
{
    let wi = w as int;
    lemma_fundamental_div_mod(p, wi);
    lemma_mod_division_less_than_divisor(p, wi);
    let q = p / wi;
    assert(p == wi * q + p % wi);
    if q < 0 {
        assert(wi * q + p % wi < 0) by (nonlinear_arith)
            requires
                q < 0,
                wi >= 1,
                p % wi < wi,
        ;
    }
    if q >= n {
        assert(wi * q + p % wi >= n * wi) by (nonlinear_arith)
            requires
                q >= n,
                wi >= 1,
                p % wi >= 0,
        ;
    }
}

/// The streamed overlap-add reconstruction with one fixed filter equals
/// direct linear convolution on the whole processed region.
pub proof fn lemma_ola_const_filter(x: Seq<int>, hs: Seq<Seq<int>>, h: Seq<int>, w: nat, j: int)
    requires
        w >= 1,
        h.len() >= 1,
        filters_wf(hs, h.len()),
        filters_all(hs, h),
        hs.len() * w <= x.len(),
        j < hs.len() * w,
    ensures
        ola_at(x, hs, w, j) == conv_at(x, h, j),
{
    let n = hs.len() as int;
    lemma_ola_is_mixed(x, hs, w, h.len(), n, j);
    if j < 0 {
        lemma_mixed_outside(x, hs, w, n, j, h.len() as int);
        crate::conv::lemma_conv_outside(x, h, j);
    } else {
        lemma_mixed_const(x, hs, h, w, n, j, h.len() as int);
    }
}

/// Left of the stream start every tap-major term vanishes.
proof fn lemma_mixed_outside(x: Seq<int>, hs: Seq<Seq<int>>, w: nat, n: int, j: int, m: int)
    requires
        j < 0,
        0 <= m,
    ensures
        mixed_partial(x, hs, w, n, j, m) == 0,
    decreases m,
{
    if m > 0 {
        lemma_mixed_outside(x, hs, w, n, j, m - 1);
    }
}

/// The overlap-add sum only ever reads the filters of windows that were
/// actually processed: histories that agree on their first `n` windows give
/// the same sum over those windows.
pub proof fn lemma_ola_prefix_only(x: Seq<int>, hs1: Seq<Seq<int>>, hs2: Seq<Seq<int>>, w: nat, n: int, j: int)
    requires
        0 <= n <= hs1.len(),
        n <= hs2.len(),
        forall|k: int| 0 <= k < n ==> hs1[k] == hs2[k],
    ensures
        ola_prefix(x, hs1, w, n, j) == ola_prefix(x, hs2, w, n, j),
    decreases n,
{
    if n > 0 {
        lemma_ola_prefix_only(x, hs1, hs2, w, n - 1, j);
    }
}

/// Windows processed later than `n` start past `n*w` and touch no output
/// index below that: the sum over all windows agrees with the sum over the
/// first `n` on that region.
pub proof fn lemma_ola_stable(x: Seq<int>, hs: Seq<Seq<int>>, w: nat, n: int, n2: int, j: int)
    requires
        w >= 1,
        0 <= n <= n2 <= hs.len(),
        j < n * w,
    ensures
        ola_prefix(x, hs, w, n2, j) == ola_prefix(x, hs, w, n, j),
    decreases n2 - n,
{
    if n2 > n {
        lemma_ola_stable(x, hs, w, n, n2 - 1, j);
        assert(j - (n2 - 1) * w < 0) by (nonlinear_arith)
            requires
                j < n * w,
                n <= n2 - 1,
                w >= 1,
        ;
        crate::conv::lemma_conv_outside(window_of(x, w, n2 - 1), hs[n2 - 1], j - (n2 - 1) * w);
    }
}

/// No window among the first `n` reaches output index `n*w + f - 1` or
/// beyond: there the overlap-add sum is still zero.
pub proof fn lemma_ola_beyond(x: Seq<int>, hs: Seq<Seq<int>>, w: nat, f: nat, n: int, j: int)
    requires
        w >= 1,
        f >= 1,
        filters_wf(hs, f),
        0 <= n <= hs.len(),
        n * w <= x.len(),
        j >= n * w + f - 1,
    ensures
        ola_prefix(x, hs, w, n, j) == 0,
    decreases n,
{
    if n > 0 {
        assert((n - 1) * w + f - 1 <= n * w + f - 1 - w && (n - 1) * w >= 0 && (n - 1) * w + w
            == n * w) by (nonlinear_arith)
            requires
                w >= 1,
                n >= 1,
        ;
        lemma_ola_beyond(x, hs, w, f, n - 1, j);
        let win = window_of(x, w, n - 1);
        assert(win.len() == w);
        assert(hs[n - 1].len() == f);
        assert(j - (n - 1) * w >= w + f - 1) by (nonlinear_arith)
            requires
                j >= n * w + f - 1,
                w >= 1,
        ;
        crate::conv::lemma_conv_outside(win, hs[n - 1], j - (n - 1) * w);
    }
}

/// The first `n` windows read only the first `n*w` samples: two input
/// streams that agree there give the same overlap-add sum over those
/// windows.
pub proof fn lemma_ola_input_prefix(x1: Seq<int>, x2: Seq<int>, hs: Seq<Seq<int>>, w: nat, n: int, j: int)
    requires
        w >= 1,
        0 <= n <= hs.len(),
        n * w <= x1.len(),
        n * w <= x2.len(),
        forall|i: int| 0 <= i < n * w ==> x1[i] == x2[i],
    ensures
        ola_prefix(x1, hs, w, n, j) == ola_prefix(x2, hs, w, n, j),
    decreases n,
{
    if n > 0 {
        assert((n - 1) * w <= n * w && 0 <= (n - 1) * w && (n - 1) * w + w == n * w)
            by (nonlinear_arith)
            requires
                w >= 1,
                n >= 1,
        ;
        lemma_ola_input_prefix(x1, x2, hs, w, n - 1, j);
        assert(window_of(x1, w, n - 1) =~= window_of(x2, w, n - 1));
    }
}

/// Processing one more window adds exactly that window's output to the
/// overlap-add reconstruction.
pub proof fn lemma_ola_push(x: Seq<int>, hs: Seq<Seq<int>>, h: Seq<int>, w: nat, j: int)
    ensures
        ola_at(x, hs.push(h), w, j) == ola_at(x, hs, w, j)
            + window_out(x, h, w, hs.len() as int, j),
{
    let n = hs.len() as int;
    assert(hs.push(h)[n] == h);
    assert(ola_prefix(x, hs.push(h), w, n + 1, j) == ola_prefix(x, hs.push(h), w, n, j)
        + window_out(x, h, w, n, j));
    lemma_ola_prefix_only(x, hs.push(h), hs, w, n, j);
}

/// Once emitted, an output sample never changes: consuming further input and
/// processing further windows leaves the stream at index `t` as it was.
pub proof fn lemma_stream_out_mono(x1: Seq<int>, x2: Seq<int>, hs1: Seq<Seq<int>>, hs2: Seq<Seq<int>>, w: nat, t: int)
    requires
        w >= 1,
        hs1.len() <= hs2.len(),
        forall|k: int| 0 <= k < hs1.len() ==> hs1[k] == hs2[k],
        hs1.len() * w <= x1.len(),
        x1.len() <= x2.len(),
        forall|i: int| 0 <= i < x1.len() ==> x1[i] == x2[i],
        t < hs1.len() * w + w,
    ensures
        stream_out(x2, hs2, w, t) == stream_out(x1, hs1, w, t),
{
    if t >= w {
        let j = t - w;
        let n = hs1.len() as int;
        lemma_ola_stable(x2, hs2, w, n, hs2.len() as int, j);
        lemma_ola_prefix_only(x2, hs2, hs1, w, n, j);
        lemma_ola_input_prefix(x1, x2, hs1, w, n, j);
    }
}

/// The tap-major sum of `m` taps is bounded by `m` times the largest
/// possible magnitude of one product.
proof fn lemma_mixed_partial_bound(x: Seq<int>, hs: Seq<Seq<int>>, w: nat, f: nat, n: int, j: int, m: int, bx: int, bh: int)
    requires
        w >= 1,
        bounded(x, bx),
        filters_wf(hs, f),
        filters_bounded(hs, bh),
        0 <= n <= hs.len(),
        n * w <= x.len(),
        bx >= 0,
        bh >= 0,
        0 <= m <= f,
    ensures
        -(m * bh * bx) <= mixed_partial(x, hs, w, n, j, m) <= m * bh * bx,
    decreases m,
{
    if m > 0 {
        lemma_mixed_partial_bound(x, hs, w, f, n, j, m - 1, bx, bh);
        let t = mixed_term(x, hs, w, n, j, m - 1);
        let p = j - (m - 1);
        if 0 <= p < n * w {
            lemma_window_index_range(p, w, n);
            assert(p < x.len());
            let c = hs[p / (w as int)][m - 1];
            let s = x[p];
            assert(bounded(hs[p / (w as int)], bh));
            assert(hs[p / (w as int)].len() == f);
            assert(-bh <= c <= bh);
            assert(-bx <= s <= bx);
            assert(-(bh * bx) <= c * s <= bh * bx) by (nonlinear_arith)
                requires
                    -bh <= c <= bh,
                    -bx <= s <= bx,
                    bh >= 0,
                    bx >= 0,
            ;
        } else {
            assert(t == 0);
            assert(-(bh * bx) <= t <= bh * bx) by (nonlinear_arith)
                requires
                    t == 0,
                    bh >= 0,
                    bx >= 0,
            ;
        }
        assert((m - 1) * bh * bx + bh * bx == m * bh * bx) by (nonlinear_arith);
    }
}

/// The overlap-add output is bounded by the filter length times the largest
/// possible magnitude of one product: overlapping windows never make the
/// reconstruction louder than the direct convolution could be.
pub proof fn lemma_ola_bound(x: Seq<int>, hs: Seq<Seq<int>>, w: nat, f: nat, n: int, j: int, bx: int, bh: int)
    requires
        w >= 1,
        bounded(x, bx),
        filters_wf(hs, f),
        filters_bounded(hs, bh),
        0 <= n <= hs.len(),
        n * w <= x.len(),
        bx >= 0,
        bh >= 0,
    ensures
        -(f * bh * bx) <= ola_prefix(x, hs, w, n, j) <= f * bh * bx,
{
    lemma_ola_is_mixed(x, hs, w, f, n, j);
    lemma_mixed_partial_bound(x, hs, w, f, n, j, f as int, bx, bh);
}

} // verus!
