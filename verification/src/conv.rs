//! Linear convolution of one analysis window with an impulse response:
//! the mathematical definition, exact bounds, and the verified kernel that
//! computes it.

use vstd::prelude::*;
use crate::{COEFF_LIMIT, FILTER_LEN_LIMIT, SAMPLE_LIMIT, WINDOW_LIMIT, value_bound};

verus! {

/// The sequence of samples as mathematical integers.
pub open spec fn int_seq(v: Seq<i64>) -> Seq<int> {
    v.map_values(|s: i64| s as int)
}

/// Sample of `x` at index `i`, with zero extension outside the range.
pub open spec fn sample_at(x: Seq<int>, i: int) -> int {
    if 0 <= i < x.len() {
        x[i]
    } else {
        0
    }
}

/// Every element of `x` has magnitude at most `b`.
pub open spec fn bounded(x: Seq<int>, b: int) -> bool {
    forall|i: int| 0 <= i < x.len() ==> -b <= #[trigger] x[i] <= b
}

/// Every element of the sample vector `x` has magnitude at most `b`.
pub open spec fn vec_bounded(x: Seq<i64>, b: int) -> bool {
    forall|i: int| 0 <= i < x.len() ==> -b <= (#[trigger] x[i]) as int <= b
}

/// The two bound predicates agree: bounding the samples is the same as
/// bounding their integer images.
pub proof fn lemma_vec_bounded(x: Seq<i64>, b: int)
    ensures
        vec_bounded(x, b) <==> bounded(int_seq(x), b),
{
    assert(int_seq(x).len() == x.len());
    if vec_bounded(x, b) {
        assert forall|i: int| 0 <= i < int_seq(x).len() implies -b <= #[trigger] int_seq(x)[i] <= b by {
            assert(-b <= x[i] as int <= b);
        }
    }
    if bounded(int_seq(x), b) {
        assert forall|i: int| 0 <= i < x.len() implies -b <= (#[trigger] x[i]) as int <= b by {
            assert(int_seq(x)[i] == x[i] as int);
        }
    }
}

/// Sum of the first `m` taps of the convolution of `x` with `h` at output
/// index `j`: the partial sum of `h[k] * x[j - k]` for `k < m`.
pub open spec fn conv_partial(x: Seq<int>, h: Seq<int>, j: int, m: int) -> int
    decreases m,
{
    if m <= 0 {
        0
    } else {
        conv_partial(x, h, j, m - 1) + h[m - 1] * sample_at(x, j - (m - 1))
    }
}

/// Linear convolution of `x` with `h` at output index `j`.
pub open spec fn conv_at(x: Seq<int>, h: Seq<int>, j: int) -> int {
    conv_partial(x, h, j, h.len() as int)
}

/// A partial convolution sum of `m` taps is bounded by `m` times the largest
/// possible magnitude of one product.
pub proof fn lemma_conv_partial_bound(x: Seq<int>, h: Seq<int>, j: int, m: int, bx: int, bh: int)
    requires
        bounded(x, bx),
        bounded(h, bh),
        0 <= m <= h.len(),
        bx >= 0,
        bh >= 0,
    ensures
        -(m * bh * bx) <= conv_partial(x, h, j, m) <= m * bh * bx,
    decreases m,
{
    if m > 0 {
        lemma_conv_partial_bound(x, h, j, m - 1, bx, bh);
        let c = h[m - 1];
        let s = sample_at(x, j - (m - 1));
        assert(-bh <= c <= bh);
        assert(-bx <= s <= bx);
        assert(-(bh * bx) <= c * s <= bh * bx) by (nonlinear_arith)
            requires
                -bh <= c <= bh,
                -bx <= s <= bx,
                bh >= 0,
                bx >= 0,
        ;
        assert((m - 1) * bh * bx + bh * bx == m * bh * bx) by (nonlinear_arith);
    }
}

/// Outside the support of the convolution the sum vanishes: every tap reads
/// a zero-extended sample.
pub proof fn lemma_conv_partial_outside(x: Seq<int>, h: Seq<int>, j: int, m: int)
    requires
        j < 0 || j >= x.len() + m - 1,
        0 <= m,
    ensures
        conv_partial(x, h, j, m) == 0,
    decreases m,
{
    if m > 0 {
        lemma_conv_partial_outside(x, h, j, m - 1);
        assert(sample_at(x, j - (m - 1)) == 0);
        assert(h[m - 1] * 0 == 0) by (nonlinear_arith);
    }
}

/// The convolution is zero before index `0` and at or after index
/// `x.len() + h.len() - 1`.
pub proof fn lemma_conv_outside(x: Seq<int>, h: Seq<int>, j: int)
    requires
        j < 0 || j >= x.len() + h.len() - 1,
    ensures
        conv_at(x, h, j) == 0,
{
    lemma_conv_partial_outside(x, h, j, h.len() as int);
}

/// Convolution with the one-tap identity filter `[1]` returns the input
/// itself (zero-extended).
pub proof fn lemma_conv_identity(x: Seq<int>, h: Seq<int>, j: int)
    requires
        h.len() == 1,
        h[0] == 1,
    ensures
        conv_at(x, h, j) == sample_at(x, j),
{
    assert(conv_at(x, h, j) == conv_partial(x, h, j, 0) + h[0] * sample_at(x, j));
    assert(1 * sample_at(x, j) == sample_at(x, j)) by (nonlinear_arith);
}

/// Computes the linear convolution of one analysis window with the impulse
/// response coefficients: output index `j` is the exact integer sum of
/// `coefs[m] * window[j - m]` over all valid taps.
pub fn convolve_window(window: &Vec<i64>, coefs: &Vec<i64>) -> (out: Vec<i64>)
    requires
        1 <= coefs.len() <= FILTER_LEN_LIMIT,
        1 <= window.len() <= WINDOW_LIMIT,
        vec_bounded(window@, SAMPLE_LIMIT as int),
        vec_bounded(coefs@, COEFF_LIMIT as int),
    ensures
        out.len() == window.len() + coefs.len() - 1,
        forall|j: int| 0 <= j < out.len()
            ==> int_seq(out@)[j] == conv_at(int_seq(window@), int_seq(coefs@), j),
        vec_bounded(out@, value_bound()),
{
    let ghost x = int_seq(window@);
    let ghost h = int_seq(coefs@);
    proof {
        lemma_vec_bounded(window@, SAMPLE_LIMIT as int);
        lemma_vec_bounded(coefs@, COEFF_LIMIT as int);
    }
    let out_len: usize = window.len() + coefs.len() - 1;
    let mut out: Vec<i64> = Vec::new();
    let mut j: usize = 0;
    while j < out_len
        invariant
            out_len == window.len() + coefs.len() - 1,
            1 <= coefs.len() <= FILTER_LEN_LIMIT,
            1 <= window.len() <= WINDOW_LIMIT,
            x == int_seq(window@),
            h == int_seq(coefs@),
            bounded(x, SAMPLE_LIMIT as int),
            bounded(h, COEFF_LIMIT as int),
            out.len() == j,
            j <= out_len,
            forall|k: int| 0 <= k < j ==> int_seq(out@)[k] == conv_at(x, h, k),
            vec_bounded(out@, value_bound()),
        decreases out_len - j,
    {
        let mut acc: i64 = 0;
        let mut m: usize = 0;
        while m < coefs.len()
            invariant
                1 <= coefs.len() <= FILTER_LEN_LIMIT,
                1 <= window.len() <= WINDOW_LIMIT,
                x == int_seq(window@),
                h == int_seq(coefs@),
                bounded(x, SAMPLE_LIMIT as int),
                bounded(h, COEFF_LIMIT as int),
                m <= coefs.len(),
                acc as int == conv_partial(x, h, j as int, m as int),
            decreases coefs.len() - m,
        {
            proof {
                lemma_conv_partial_bound(x, h, j as int, m as int, SAMPLE_LIMIT as int, COEFF_LIMIT as int);
                lemma_conv_partial_bound(x, h, j as int, (m + 1) as int, SAMPLE_LIMIT as int, COEFF_LIMIT as int);
                assert((m + 1) * (COEFF_LIMIT as int) * (SAMPLE_LIMIT as int) <= value_bound()) by (nonlinear_arith)
                    requires
                        0 <= m,
                        m + 1 <= FILTER_LEN_LIMIT as int,
                ;
            }
            if m <= j && j - m < window.len() {
                let c: i64 = coefs[m];
                let s: i64 = window[j - m];
                proof {
                    assert(sample_at(x, j as int - m as int) == s as int);
                    assert(-(COEFF_LIMIT as int) * (SAMPLE_LIMIT as int) <= (c as int) * (s as int)
                        <= (COEFF_LIMIT as int) * (SAMPLE_LIMIT as int)) by (nonlinear_arith)
                        requires
                            -(COEFF_LIMIT as int) <= c as int <= COEFF_LIMIT as int,
                            -(SAMPLE_LIMIT as int) <= s as int <= SAMPLE_LIMIT as int,
                    ;
                }
                acc = acc + c * s;
            } else {
                proof {
                    assert(sample_at(x, j as int - m as int) == 0);
                    assert(h[m as int] * 0 == 0) by (nonlinear_arith);
                }
            }
            m = m + 1;
        }
        proof {
            lemma_conv_partial_bound(x, h, j as int, h.len() as int, SAMPLE_LIMIT as int, COEFF_LIMIT as int);
            assert(h.len() * (COEFF_LIMIT as int) * (SAMPLE_LIMIT as int) <= value_bound()) by (nonlinear_arith)
                requires
                    0 <= h.len() <= FILTER_LEN_LIMIT as int,
            ;
        }
        out.push(acc);
        j = j + 1;
    }
    out
}

} // verus!
