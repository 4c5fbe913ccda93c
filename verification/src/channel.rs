//! The window scheduler for one audio channel.
//!
//! Host blocks of any size are absorbed sample by sample: each sample is
//! stored in the input ring, and the sample the same position held one
//! window earlier is emitted in its place.  Whenever the input ring fills,
//! the completed window is convolved with the current impulse response and
//! the result is folded into the output ring and the overlap tail.  The
//! emitted stream therefore equals the overlap-add reconstruction of
//! everything consumed, delayed by exactly one analysis window.

use vstd::prelude::*;
use crate::{COEFF_LIMIT, FILTER_LEN_LIMIT, SAMPLE_LIMIT, WINDOW_LIMIT, value_bound};
use crate::conv::{bounded, conv_at, convolve_window, int_seq, lemma_vec_bounded, vec_bounded};
use crate::ola::{
    filters_bounded, filters_wf, lemma_ola_beyond, lemma_ola_bound, lemma_ola_push,
    lemma_stream_out_mono, ola_at, stream_out, window_of, window_out,
};

verus! {

/// Streaming overlap-add state for one channel.
pub struct Channel {
    /// Analysis window length.
    pub window_size: usize,
    /// Impulse-response length this channel was configured for.
    pub filter_len: usize,
    /// Input ring: the window currently being gathered.
    pub in_ring: Vec<i64>,
    /// Output ring: the `window_size` output samples produced when the last
    /// window was processed, emitted one per consumed sample.
    pub out_ring: Vec<i64>,
    /// Overlap tail: what processed windows still owe to output indices
    /// beyond the last window's end.
    pub carry: Vec<i64>,
    /// Fill position inside the current window.
    pub pos: usize,
    /// Every sample this channel ever consumed.
    pub consumed: Ghost<Seq<int>>,
    /// For every processed window, the impulse response it was convolved
    /// with.
    pub hist: Ghost<Seq<Seq<int>>>,
}

impl Channel {
    /// The window size as a mathematical integer.
    pub open spec fn w_int(&self) -> int {
        self.window_size as int
    }

    /// The window size as a natural number.
    pub open spec fn w_nat(&self) -> nat {
        self.window_size as nat
    }

    /// The filter length as a mathematical integer.
    pub open spec fn f_int(&self) -> int {
        self.filter_len as int
    }

    /// How many windows have been processed.
    pub open spec fn n_windows(&self) -> int {
        self.hist@.len() as int
    }

    /// How many samples have been consumed.
    pub open spec fn total_in(&self) -> int {
        self.consumed@.len() as int
    }

    /// The channel's invariant: the rings have their configured sizes, the
    /// consumed count splits into processed windows plus the partial window,
    /// the input ring holds the partial window, the output ring holds the
    /// emitted stream for the positions of the current window, and the
    /// overlap tail holds what processed windows owe beyond them.
    pub open spec fn wf(&self) -> bool {
        &&& 1 <= self.window_size <= WINDOW_LIMIT
        &&& 1 <= self.filter_len <= FILTER_LEN_LIMIT
        &&& self.in_ring.len() == self.window_size
        &&& self.out_ring.len() == self.window_size
        &&& self.carry.len() == self.filter_len - 1
        &&& self.pos < self.window_size
        &&& self.total_in() == self.n_windows() * self.w_int() + self.pos
        &&& filters_wf(self.hist@, self.filter_len as nat)
        &&& filters_bounded(self.hist@, COEFF_LIMIT as int)
        &&& bounded(self.consumed@, SAMPLE_LIMIT as int)
        &&& forall|i: int| 0 <= i < self.pos ==> (#[trigger] self.in_ring@[i]) as int
            == self.consumed@[self.n_windows() * self.w_int() + i]
        &&& forall|i: int| 0 <= i < self.window_size ==> (#[trigger] self.out_ring@[i]) as int
            == stream_out(self.consumed@, self.hist@, self.w_nat(),
                self.n_windows() * self.w_int() + i)
        &&& forall|i: int| 0 <= i < self.carry.len() ==> (#[trigger] self.carry@[i]) as int
            == ola_at(self.consumed@, self.hist@, self.w_nat(),
                self.n_windows() * self.w_int() + i)
    }

    /// A fresh channel: nothing consumed, nothing processed, all buffers
    /// zero.
    pub fn new(window_size: usize, filter_len: usize) -> (c: Channel)
        requires
            1 <= window_size <= WINDOW_LIMIT,
            1 <= filter_len <= FILTER_LEN_LIMIT,
        ensures
            c.wf(),
            c.window_size == window_size,
            c.filter_len == filter_len,
            c.consumed@ == Seq::<int>::empty(),
            c.hist@ == Seq::<Seq<int>>::empty(),
    {
        let c = Channel {
            window_size,
            filter_len,
            in_ring: zero_vec(window_size),
            out_ring: zero_vec(window_size),
            carry: zero_vec(filter_len - 1),
            pos: 0,
            consumed: Ghost(Seq::empty()),
            hist: Ghost(Seq::empty()),
        };
        proof {
            lemma_fresh_wf(c);
        }
        c
    }

    /// Forgets all buffered audio: every buffer is zeroed and the stream
    /// starts afresh.  The configuration is kept.
    pub fn reset(&mut self)
        requires
            old(self).wf(),
        ensures
            final(self).wf(),
            final(self).window_size == old(self).window_size,
            final(self).filter_len == old(self).filter_len,
            final(self).consumed@ == Seq::<int>::empty(),
            final(self).hist@ == Seq::<Seq<int>>::empty(),
    {
        let w = self.window_size;
        let f = self.filter_len;
        self.in_ring = zero_vec(w);
        self.out_ring = zero_vec(w);
        self.carry = zero_vec(f - 1);
        self.pos = 0;
        self.consumed = Ghost(Seq::empty());
        self.hist = Ghost(Seq::empty());
        proof {
            lemma_fresh_wf(*self);
        }
    }

    /// Convolves the completed window in the input ring with `coefs` and
    /// folds the result into the output ring and the overlap tail.
    fn process_window(&mut self, coefs: &Vec<i64>)
        requires
            1 <= old(self).window_size <= WINDOW_LIMIT,
            1 <= old(self).filter_len <= FILTER_LEN_LIMIT,
            old(self).in_ring.len() == old(self).window_size,
            old(self).out_ring.len() == old(self).window_size,
            old(self).carry.len() == old(self).filter_len - 1,
            old(self).pos == 0,
            coefs.len() == old(self).filter_len,
            vec_bounded(coefs@, COEFF_LIMIT as int),
            bounded(old(self).consumed@, SAMPLE_LIMIT as int),
            filters_wf(old(self).hist@, old(self).filter_len as nat),
            filters_bounded(old(self).hist@, COEFF_LIMIT as int),
            old(self).total_in() == (old(self).n_windows() + 1) * old(self).w_int(),
            forall|i: int| 0 <= i < old(self).window_size
                ==> (#[trigger] old(self).in_ring@[i]) as int
                    == old(self).consumed@[old(self).n_windows() * old(self).w_int() + i],
            forall|i: int| 0 <= i < old(self).carry.len()
                ==> (#[trigger] old(self).carry@[i]) as int
                    == ola_at(old(self).consumed@, old(self).hist@, old(self).w_nat(),
                        old(self).n_windows() * old(self).w_int() + i),
        ensures
            final(self).wf(),
            final(self).window_size == old(self).window_size,
            final(self).filter_len == old(self).filter_len,
            final(self).pos == 0,
            final(self).consumed@ == old(self).consumed@,
            final(self).hist@ == old(self).hist@.push(int_seq(coefs@)),
    {
        let w = self.window_size;
        let f = self.filter_len;
        let ghost wi: int = self.w_int();
        let ghost x = self.consumed@;
        let ghost hs = self.hist@;
        let ghost h = int_seq(coefs@);
        let ghost n = self.hist@.len() as int;
        proof {
            lemma_vec_bounded(coefs@, COEFF_LIMIT as int);
            assert(0 <= n * wi && n * wi + wi == (n + 1) * wi) by (nonlinear_arith)
                requires
                    n >= 0,
                    wi >= 1,
            ;
            assert(int_seq(self.in_ring@) =~= window_of(x, w as nat, n)) by {
                assert(window_of(x, w as nat, n).len() == w);
                assert forall|q: int| 0 <= q < w implies int_seq(self.in_ring@)[q] == window_of(
                    x,
                    w as nat,
                    n,
                )[q] by {
                    assert(int_seq(self.in_ring@)[q] == self.in_ring@[q] as int);
                    assert(window_of(x, w as nat, n)[q] == x[n * wi + q]);
                }
            }
            assert forall|q: int| 0 <= q < w implies -(SAMPLE_LIMIT as int) <= (
            #[trigger] self.in_ring@[q]) as int <= SAMPLE_LIMIT as int by {
                assert(self.in_ring@[q] as int == x[n * wi + q]);
            }
        }
        let y = convolve_window(&self.in_ring, coefs);
        proof {
            assert forall|j: int| 0 <= j < y.len() implies (#[trigger] y@[j]) as int == window_out(
                x,
                h,
                w as nat,
                n,
                n * wi + j,
            ) by {
                assert(int_seq(y@)[j] == y@[j] as int);
                assert(int_seq(y@)[j] == conv_at(int_seq(self.in_ring@), h, j));
                assert(window_out(x, h, w as nat, n, n * wi + j) == conv_at(
                    window_of(x, w as nat, n),
                    h,
                    (n * wi + j) - n * wi,
                ));
            }
            assert(filters_wf(hs.push(h), f as nat) && filters_bounded(hs.push(h),
                COEFF_LIMIT as int)) by {
                assert forall|k: int| 0 <= k < hs.push(h).len() implies (#[trigger] hs.push(
                    h,
                )[k]).len() == f as nat && bounded(hs.push(h)[k], COEFF_LIMIT as int) by {
                    if k < hs.len() {
                        assert(hs.push(h)[k] == hs[k]);
                    } else {
                        assert(hs.push(h)[k] == h);
                    }
                }
            }
        }
        let mut i: usize = 0;
        while i < w
            invariant
                1 <= w <= WINDOW_LIMIT,
                1 <= f <= FILTER_LEN_LIMIT,
                wi == w as int,
                self.window_size == w,
                self.filter_len == f,
                self.in_ring.len() == w,
                self.out_ring.len() == w,
                self.carry.len() == f - 1,
                self.pos == 0,
                self.consumed@ == x,
                self.hist@ == hs,
                n == hs.len(),
                h == int_seq(coefs@),
                h.len() == f,
                x.len() == (n + 1) * wi,
                n * wi + wi == (n + 1) * wi,
                0 <= n * wi,
                bounded(x, SAMPLE_LIMIT as int),
                bounded(h, COEFF_LIMIT as int),
                filters_wf(hs, f as nat),
                filters_bounded(hs, COEFF_LIMIT as int),
                filters_wf(hs.push(h), f as nat),
                filters_bounded(hs.push(h), COEFF_LIMIT as int),
                y.len() == w + f - 1,
                forall|j: int| 0 <= j < y.len() ==> (#[trigger] y@[j]) as int == window_out(
                    x, h, w as nat, n, n * wi + j),
                forall|k: int| 0 <= k < f - 1 ==> (#[trigger] self.carry@[k]) as int == ola_at(
                    x, hs, w as nat, n * wi + k),
                i <= w,
                forall|k: int| 0 <= k < i ==> (#[trigger] self.out_ring@[k]) as int == ola_at(
                    x, hs.push(h), w as nat, n * wi + k),
            decreases w - i,
        {
            let ghost j = n * wi + i as int;
            let c: i64 = if i < f - 1 {
                self.carry[i]
            } else {
                0
            };
            proof {
                lemma_ola_push(x, hs, h, w as nat, j);
                if i >= f - 1 {
                    lemma_ola_beyond(x, hs, w as nat, f as nat, n, j);
                }
                assert(c as int == ola_at(x, hs, w as nat, j));
                assert((y@[i as int]) as int == window_out(x, h, w as nat, n, j));
                lemma_ola_bound(x, hs.push(h), w as nat, f as nat, n + 1, j, SAMPLE_LIMIT as int,
                    COEFF_LIMIT as int);
                assert(ola_at(x, hs.push(h), w as nat, j) == crate::ola::ola_prefix(x, hs.push(h),
                    w as nat, n + 1, j));
                assert((FILTER_LEN_LIMIT as int) * (COEFF_LIMIT as int) * (SAMPLE_LIMIT as int)
                    >= (f as int) * (COEFF_LIMIT as int) * (SAMPLE_LIMIT as int)
                    >= 0) by (nonlinear_arith)
                    requires
                        1 <= f <= FILTER_LEN_LIMIT,
                ;
            }
            let v: i64 = c + y[i];
            self.out_ring.set(i, v);
            i = i + 1;
        }
        let mut i: usize = 0;
        while i < f - 1
            invariant
                1 <= w <= WINDOW_LIMIT,
                1 <= f <= FILTER_LEN_LIMIT,
                wi == w as int,
                self.window_size == w,
                self.filter_len == f,
                self.in_ring.len() == w,
                self.out_ring.len() == w,
                self.carry.len() == f - 1,
                self.pos == 0,
                self.consumed@ == x,
                self.hist@ == hs,
                n == hs.len(),
                h == int_seq(coefs@),
                h.len() == f,
                x.len() == (n + 1) * wi,
                n * wi + wi == (n + 1) * wi,
                0 <= n * wi,
                bounded(x, SAMPLE_LIMIT as int),
                bounded(h, COEFF_LIMIT as int),
                filters_wf(hs, f as nat),
                filters_bounded(hs, COEFF_LIMIT as int),
                filters_wf(hs.push(h), f as nat),
                filters_bounded(hs.push(h), COEFF_LIMIT as int),
                y.len() == w + f - 1,
                forall|j: int| 0 <= j < y.len() ==> (#[trigger] y@[j]) as int == window_out(
                    x, h, w as nat, n, n * wi + j),
                forall|k: int| 0 <= k < w ==> (#[trigger] self.out_ring@[k]) as int == ola_at(
                    x, hs.push(h), w as nat, n * wi + k),
                i <= f - 1,
                forall|k: int| 0 <= k < i ==> (#[trigger] self.carry@[k]) as int == ola_at(
                    x, hs.push(h), w as nat, (n + 1) * wi + k),
                forall|k: int| i <= k < f - 1 ==> (#[trigger] self.carry@[k]) as int == ola_at(
                    x, hs, w as nat, n * wi + k),
            decreases f - 1 - i,
        {
            let ghost j = (n + 1) * wi + i as int;
            let c: i64 = if w + i < f - 1 {
                self.carry[w + i]
            } else {
                0
            };
            proof {
                lemma_ola_push(x, hs, h, w as nat, j);
                if w + i < f - 1 {
                    assert(w + i >= i + 1);
                    assert(c as int == ola_at(x, hs, w as nat, n * wi + (w + i as int)));
                    assert(n * wi + (w + i as int) == j);
                } else {
                    assert(j >= n * wi + f - 1);
                    lemma_ola_beyond(x, hs, w as nat, f as nat, n, j);
                }
                assert(c as int == ola_at(x, hs, w as nat, j));
                assert((y@[w + i as int]) as int == window_out(x, h, w as nat, n, j));
                lemma_ola_bound(x, hs.push(h), w as nat, f as nat, n + 1, j, SAMPLE_LIMIT as int,
                    COEFF_LIMIT as int);
                assert(ola_at(x, hs.push(h), w as nat, j) == crate::ola::ola_prefix(x, hs.push(h),
                    w as nat, n + 1, j));
                assert((FILTER_LEN_LIMIT as int) * (COEFF_LIMIT as int) * (SAMPLE_LIMIT as int)
                    >= (f as int) * (COEFF_LIMIT as int) * (SAMPLE_LIMIT as int)
                    >= 0) by (nonlinear_arith)
                    requires
                        1 <= f <= FILTER_LEN_LIMIT,
                ;
            }
            let v: i64 = c + y[w + i];
            self.carry.set(i, v);
            i = i + 1;
        }
        self.hist = Ghost(hs.push(h));
        proof {
            assert forall|k: int| 0 <= k < w implies (#[trigger] self.out_ring@[k]) as int
                == stream_out(self.consumed@, self.hist@, self.w_nat(), self.n_windows() * self.w_int()
                + k) by {
                assert((n + 1) * wi + k - wi == n * wi + k);
                assert(stream_out(x, hs.push(h), w as nat, (n + 1) * wi + k) == ola_at(x, hs.push(h),
                    w as nat, n * wi + k));
            }
        }
    }

    /// Feeds one host block through the channel, in place.  Every input
    /// sample is consumed; every position is overwritten with the next
    /// sample of the emitted stream, which is the overlap-add
    /// reconstruction of everything consumed so far, delayed by one
    /// analysis window.  Windows completed during this call are convolved
    /// with `coefs`.
    pub fn process_block(&mut self, block: &mut Vec<i64>, coefs: &Vec<i64>)
        requires
            old(self).wf(),
            coefs.len() == old(self).filter_len,
            vec_bounded(coefs@, COEFF_LIMIT as int),
            vec_bounded(old(block)@, SAMPLE_LIMIT as int),
        ensures
            final(self).wf(),
            final(self).window_size == old(self).window_size,
            final(self).filter_len == old(self).filter_len,
            final(self).consumed@ == old(self).consumed@ + int_seq(old(block)@),
            old(self).hist@.is_prefix_of(final(self).hist@),
            forall|k: int| old(self).hist@.len() <= k < final(self).hist@.len()
                ==> final(self).hist@[k] == int_seq(coefs@),
            final(block).len() == old(block).len(),
            forall|i: int| 0 <= i < old(block).len() ==> (#[trigger] final(block)@[i]) as int
                == stream_out(final(self).consumed@, final(self).hist@, old(self).w_nat(),
                    old(self).total_in() + i),
            vec_bounded(final(block)@, value_bound()),
    {
        let w = self.window_size;
        let f = self.filter_len;
        let ghost wi: int = w as int;
        let ghost x0 = self.consumed@;
        let ghost hs0 = self.hist@;
        let ghost in0 = block@;
        let len = block.len();
        let mut i: usize = 0;
        while i < len
            invariant
                self.wf(),
                self.window_size == w,
                self.filter_len == f,
                wi == w as int,
                coefs.len() == f,
                vec_bounded(coefs@, COEFF_LIMIT as int),
                block.len() == len,
                in0.len() == len,
                vec_bounded(in0, SAMPLE_LIMIT as int),
                i <= len,
                forall|k: int| i <= k < len ==> #[trigger] block@[k] == in0[k],
                self.consumed@.len() == x0.len() + i,
                forall|k: int| 0 <= k < x0.len() ==> #[trigger] self.consumed@[k] == x0[k],
                forall|k: int| 0 <= k < i ==> #[trigger] self.consumed@[x0.len() + k]
                    == in0[k] as int,
                hs0.len() <= self.hist@.len(),
                forall|k: int| 0 <= k < hs0.len() ==> #[trigger] self.hist@[k] == hs0[k],
                forall|k: int| hs0.len() <= k < self.hist@.len() ==> #[trigger] self.hist@[k]
                    == int_seq(coefs@),
                forall|k: int| 0 <= k < i ==> (#[trigger] block@[k]) as int == stream_out(
                    self.consumed@, self.hist@, w as nat, x0.len() + k),
                forall|k: int| 0 <= k < i ==> -value_bound() <= (#[trigger] block@[k]) as int
                    <= value_bound(),
            decreases len - i,
        {
            let ghost xprev = self.consumed@;
            let ghost hsprev = self.hist@;
            let ghost nprev = self.hist@.len() as int;
            let ghost t = x0.len() as int + i as int;
            let p = self.pos;
            let xin: i64 = block[i];
            let yout: i64 = self.out_ring[p];
            proof {
                assert(xprev.len() == nprev * wi + p);
                assert(yout as int == stream_out(xprev, hsprev, w as nat, nprev * wi + p));
                assert(nprev * wi + p == t);
                assert((FILTER_LEN_LIMIT as int) * (COEFF_LIMIT as int) * (SAMPLE_LIMIT as int)
                    >= (f as int) * (COEFF_LIMIT as int) * (SAMPLE_LIMIT as int) >= 0)
                    by (nonlinear_arith)
                    requires
                        1 <= f <= FILTER_LEN_LIMIT,
                ;
                if t >= w {
                    lemma_ola_bound(xprev, hsprev, w as nat, f as nat, nprev, t - wi,
                        SAMPLE_LIMIT as int, COEFF_LIMIT as int);
                    assert(ola_at(xprev, hsprev, w as nat, t - wi) == crate::ola::ola_prefix(xprev,
                        hsprev, w as nat, nprev, t - wi));
                }
                assert(-value_bound() <= yout as int <= value_bound());
            }
            self.in_ring.set(p, xin);
            block.set(i, yout);
            self.consumed = Ghost(xprev.push(xin as int));
            proof {
                assert(in0[i as int] == xin);
                assert(-(SAMPLE_LIMIT as int) <= xin as int <= SAMPLE_LIMIT as int);
                assert forall|q: int| 0 <= q < self.consumed@.len() implies -(SAMPLE_LIMIT as int)
                    <= #[trigger] self.consumed@[q] <= SAMPLE_LIMIT as int by {
                    if q < xprev.len() {
                        assert(self.consumed@[q] == xprev[q]);
                    } else {
                        assert(self.consumed@[q] == xin as int);
                    }
                }
            }
            if p + 1 == w {
                self.pos = 0;
                proof {
                    assert((nprev + 1) * wi == nprev * wi + wi) by (nonlinear_arith);
                    assert(self.consumed@.len() == (nprev + 1) * wi);
                    assert forall|q: int| 0 <= q < w implies (#[trigger] self.in_ring@[q]) as int
                        == self.consumed@[nprev * wi + q] by {
                        if q < w - 1 {
                            assert(self.in_ring@[q] as int == xprev[nprev * wi + q]);
                            assert(self.consumed@[nprev * wi + q] == xprev[nprev * wi + q]);
                        } else {
                            assert(self.in_ring@[q] == xin);
                            assert(self.consumed@[nprev * wi + q] == xin as int);
                        }
                    }
                    assert forall|q: int| 0 <= q < self.carry.len() implies (
                    #[trigger] self.carry@[q]) as int == ola_at(self.consumed@, hsprev, w as nat,
                        nprev * wi + q) by {
                        assert(self.carry@[q] as int == ola_at(xprev, hsprev, w as nat,
                            nprev * wi + q));
                        crate::ola::lemma_ola_input_prefix(xprev, self.consumed@, hsprev, w as nat,
                            nprev, nprev * wi + q);
                    }
                }
                self.process_window(coefs);
            } else {
                self.pos = p + 1;
                proof {
                    assert forall|q: int| 0 <= q < w implies (#[trigger] self.out_ring@[q]) as int
                        == stream_out(self.consumed@, self.hist@, w as nat, nprev * wi + q) by {
                        assert(self.out_ring@[q] as int == stream_out(xprev, hsprev, w as nat,
                            nprev * wi + q));
                        lemma_stream_out_mono(xprev, self.consumed@, hsprev, self.hist@, w as nat,
                            nprev * wi + q);
                    }
                    assert forall|q: int| 0 <= q < self.carry.len() implies (
                    #[trigger] self.carry@[q]) as int == ola_at(self.consumed@, self.hist@, w as nat,
                        nprev * wi + q) by {
                        assert(self.carry@[q] as int == ola_at(xprev, hsprev, w as nat,
                            nprev * wi + q));
                        crate::ola::lemma_ola_input_prefix(xprev, self.consumed@, hsprev, w as nat,
                            nprev, nprev * wi + q);
                    }
                    assert forall|q: int| 0 <= q < self.pos implies (
                    #[trigger] self.in_ring@[q]) as int == self.consumed@[nprev * wi + q] by {
                        if q < p {
                            assert(self.in_ring@[q] as int == xprev[nprev * wi + q]);
                            assert(self.consumed@[nprev * wi + q] == xprev[nprev * wi + q]);
                        } else {
                            assert(self.in_ring@[q] == xin);
                            assert(self.consumed@[nprev * wi + q] == xin as int);
                        }
                    }
                    assert(self.wf());
                }
            }
            proof {
                let xcur = self.consumed@;
                let hscur = self.hist@;
                assert forall|k: int| 0 <= k < i + 1 implies (#[trigger] block@[k]) as int
                    == stream_out(xcur, hscur, w as nat, x0.len() + k) by {
                    let tk = x0.len() as int + k;
                    assert(tk <= t);
                    assert(tk < hsprev.len() * wi + wi);
                    assert(hsprev.len() * wi <= xprev.len());
                    if k < i {
                        assert(block@[k] as int == stream_out(xprev, hsprev, w as nat, tk));
                    } else {
                        assert(block@[k] == yout);
                        assert(yout as int == stream_out(xprev, hsprev, w as nat, tk));
                    }
                    lemma_stream_out_mono(xprev, xcur, hsprev, hscur, w as nat, tk);
                }
            }
            i = i + 1;
        }
        proof {
            assert forall|q: int| 0 <= q < self.consumed@.len() implies #[trigger] self.consumed@[q]
                == (x0 + int_seq(in0))[q] by {
                if q < x0.len() {
                    assert(self.consumed@[q] == x0[q]);
                } else {
                    let k = q - x0.len();
                    assert(self.consumed@[x0.len() + k] == in0[k] as int);
                    assert(int_seq(in0)[k] == in0[k] as int);
                }
            }
            assert(self.consumed@ =~= x0 + int_seq(in0));
            assert(hs0.is_prefix_of(self.hist@)) by {
                assert(hs0 =~= self.hist@.subrange(0, hs0.len() as int));
            }
        }
    }
}

/// A channel whose buffers are all zero and whose stream is empty satisfies
/// the invariant: with no window processed, the overlap-add reconstruction
/// is zero everywhere.
proof fn lemma_fresh_wf(c: Channel)
    requires
        1 <= c.window_size <= WINDOW_LIMIT,
        1 <= c.filter_len <= FILTER_LEN_LIMIT,
        c.in_ring.len() == c.window_size,
        c.out_ring.len() == c.window_size,
        c.carry.len() == c.filter_len - 1,
        c.pos == 0,
        c.consumed@ == Seq::<int>::empty(),
        c.hist@ == Seq::<Seq<int>>::empty(),
        forall|i: int| 0 <= i < c.out_ring.len() ==> c.out_ring@[i] == 0i64,
        forall|i: int| 0 <= i < c.carry.len() ==> c.carry@[i] == 0i64,
    ensures
        c.wf(),
{
    assert(c.n_windows() == 0);
    assert(c.total_in() == 0);
    assert forall|i: int| 0 <= i < c.window_size implies (#[trigger] c.out_ring@[i]) as int
        == stream_out(c.consumed@, c.hist@, c.w_nat(), c.n_windows() * c.w_int() + i) by {
        assert(c.n_windows() * c.w_int() == 0);
        assert(stream_out(c.consumed@, c.hist@, c.w_nat(), i) == 0);
    }
    assert forall|i: int| 0 <= i < c.carry.len() implies (#[trigger] c.carry@[i]) as int == ola_at(
        c.consumed@,
        c.hist@,
        c.w_nat(),
        c.n_windows() * c.w_int() + i,
    ) by {
        assert(c.n_windows() * c.w_int() == 0);
        assert(ola_at(c.consumed@, c.hist@, c.w_nat(), i) == 0);
    }
}

/// A vector of `n` zero samples.
fn zero_vec(n: usize) -> (v: Vec<i64>)
    ensures
        v.len() == n,
        forall|i: int| 0 <= i < n ==> v@[i] == 0i64,
{
    let mut v: Vec<i64> = Vec::new();
    let mut i: usize = 0;
    while i < n
        invariant
            v.len() == i,
            i <= n,
            forall|k: int| 0 <= k < i ==> v@[k] == 0i64,
        decreases n - i,
    {
        v.push(0);
        i = i + 1;
    }
    v
}

} // verus!
