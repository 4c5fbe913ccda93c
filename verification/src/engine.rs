//! The binaural convolution engine: two window schedulers sharing one
//! committed impulse-response pair.
//!
//! The left block is convolved with the left-ear impulse response and the
//! right block with the right-ear one.  The committed pair is read only when
//! a window completes, so every window is convolved against one consistent
//! impulse response; `update` replaces the pair wholesale between blocks.

use vstd::prelude::*;
use crate::{COEFF_LIMIT, SAMPLE_LIMIT, WINDOW_LIMIT, value_bound};
use crate::channel::Channel;
use crate::conv::{int_seq, vec_bounded};
use crate::filter::{ConfigError, ImpulseResponse};
use crate::ola::stream_out;

verus! {

/// The streaming convolution engine.
pub struct Engine {
    /// Left-ear window scheduler.
    pub left: Channel,
    /// Right-ear window scheduler.
    pub right: Channel,
    /// The committed impulse-response pair, replaced wholesale by `update`.
    pub filter: ImpulseResponse,
}

impl Engine {
    /// Both channels are well formed, share one configuration, run in
    /// lockstep, and the committed filter has the configured length.
    pub open spec fn wf(&self) -> bool {
        &&& self.left.wf()
        &&& self.right.wf()
        &&& self.filter.wf()
        &&& self.left.window_size == self.right.window_size
        &&& self.left.filter_len == self.filter.spec_len()
        &&& self.right.filter_len == self.filter.spec_len()
        &&& self.left.pos == self.right.pos
        &&& self.left.total_in() == self.right.total_in()
        &&& self.left.n_windows() == self.right.n_windows()
    }

    /// Nothing has been consumed yet.
    pub open spec fn is_fresh(&self) -> bool {
        &&& self.left.consumed@ == Seq::<int>::empty()
        &&& self.left.hist@ == Seq::<Seq<int>>::empty()
        &&& self.right.consumed@ == Seq::<int>::empty()
        &&& self.right.hist@ == Seq::<Seq<int>>::empty()
    }

    /// Builds an engine for the given analysis window size with an initial
    /// impulse response.  Succeeds exactly when the window size is positive
    /// and at most `WINDOW_LIMIT`; the filter length is fixed for the
    /// engine's lifetime.
    pub fn new(window_size: usize, ir: ImpulseResponse) -> (r: Result<Engine, ConfigError>)
        requires
            ir.wf(),
        ensures
            r matches Ok(e) ==> {
                &&& e.wf()
                &&& e.is_fresh()
                &&& e.left.window_size == window_size
                &&& e.filter.left@ == ir.left@
                &&& e.filter.right@ == ir.right@
            },
            r matches Err(err) ==> {
                &&& (err == ConfigError::ZeroWindow <==> window_size == 0)
                &&& (err == ConfigError::WindowTooLarge <==> window_size > WINDOW_LIMIT)
            },
            r is Ok <==> 1 <= window_size <= WINDOW_LIMIT,
    {
        if window_size == 0 {
            return Err(ConfigError::ZeroWindow);
        }
        if window_size > WINDOW_LIMIT {
            return Err(ConfigError::WindowTooLarge);
        }
        let filter_len = ir.filter_len();
        Ok(Engine {
            left: Channel::new(window_size, filter_len),
            right: Channel::new(window_size, filter_len),
            filter: ir,
        })
    }

    /// Commits a new impulse-response pair, replacing the previous one for
    /// all windows processed from now on.  Succeeds exactly when the new
    /// pair has the length the engine was built for; on failure the engine
    /// is unchanged.
    pub fn update(&mut self, ir: ImpulseResponse) -> (r: Result<(), ConfigError>)
        requires
            old(self).wf(),
            ir.wf(),
        ensures
            final(self).wf(),
            final(self).left == old(self).left,
            final(self).right == old(self).right,
            r is Ok <==> ir.spec_len() == old(self).filter.spec_len(),
            r matches Err(err) ==> err == ConfigError::FilterLengthChanged && final(self).filter
                == old(self).filter,
            r is Ok ==> final(self).filter.left@ == ir.left@ && final(self).filter.right@
                == ir.right@,
    {
        if ir.filter_len() != self.filter.filter_len() {
            return Err(ConfigError::FilterLengthChanged);
        }
        self.filter = ir;
        Ok(())
    }

    /// Processes one stereo block in place.  Each channel consumes its
    /// input samples and is left holding, position for position, the next
    /// samples of its emitted stream: the overlap-add reconstruction of
    /// everything that channel has consumed, convolved window by window
    /// with the filter committed when the window completed, delayed by one
    /// analysis window.  Windows completed during this call use the
    /// currently committed pair.
    pub fn process(&mut self, left: &mut Vec<i64>, right: &mut Vec<i64>)
        requires
            old(self).wf(),
            old(left).len() == old(right).len(),
            vec_bounded(old(left)@, SAMPLE_LIMIT as int),
            vec_bounded(old(right)@, SAMPLE_LIMIT as int),
        ensures
            final(self).wf(),
            final(self).left.window_size == old(self).left.window_size,
            final(self).filter == old(self).filter,
            final(self).left.filter_len == old(self).left.filter_len,
            final(self).left.consumed@ == old(self).left.consumed@ + int_seq(old(left)@),
            final(self).right.consumed@ == old(self).right.consumed@ + int_seq(old(right)@),
            old(self).left.hist@.is_prefix_of(final(self).left.hist@),
            old(self).right.hist@.is_prefix_of(final(self).right.hist@),
            forall|k: int| old(self).left.hist@.len() <= k < final(self).left.hist@.len()
                ==> final(self).left.hist@[k] == old(self).filter.left_view(),
            forall|k: int| old(self).right.hist@.len() <= k < final(self).right.hist@.len()
                ==> final(self).right.hist@[k] == old(self).filter.right_view(),
            final(left).len() == old(left).len(),
            final(right).len() == old(right).len(),
            forall|i: int| 0 <= i < old(left).len() ==> (#[trigger] final(left)@[i]) as int
                == stream_out(final(self).left.consumed@, final(self).left.hist@,
                    old(self).left.w_nat(), old(self).left.total_in() + i),
            forall|i: int| 0 <= i < old(right).len() ==> (#[trigger] final(right)@[i]) as int
                == stream_out(final(self).right.consumed@, final(self).right.hist@,
                    old(self).right.w_nat(), old(self).right.total_in() + i),
            vec_bounded(final(left)@, value_bound()),
            vec_bounded(final(right)@, value_bound()),
    {
        proof {
            crate::conv::lemma_vec_bounded(self.filter.left@, COEFF_LIMIT as int);
            crate::conv::lemma_vec_bounded(self.filter.right@, COEFF_LIMIT as int);
        }
        self.left.process_block(left, &self.filter.left);
        self.right.process_block(right, &self.filter.right);
        proof {
            let wi = self.left.window_size as int;
            let n1 = self.left.n_windows();
            let n2 = self.right.n_windows();
            let p1 = self.left.pos as int;
            let p2 = self.right.pos as int;
            assert(self.left.total_in() == self.right.total_in());
            assert(n1 == n2 && p1 == p2) by (nonlinear_arith)
                requires
                    n1 * wi + p1 == n2 * wi + p2,
                    0 <= p1 < wi,
                    0 <= p2 < wi,
            ;
        }
    }

    /// Forgets all buffered audio on both channels without changing the
    /// configuration, the committed filter, or the reported latency: after
    /// a transport discontinuity the engine starts a fresh stream.
    pub fn reset(&mut self)
        requires
            old(self).wf(),
        ensures
            final(self).wf(),
            final(self).is_fresh(),
            final(self).left.window_size == old(self).left.window_size,
            final(self).left.filter_len == old(self).left.filter_len,
            final(self).filter == old(self).filter,
    {
        self.left.reset();
        self.right.reset();
    }

    /// The analysis window length.
    pub fn window_size(&self) -> (r: usize)
        ensures
            r == self.left.window_size,
    {
        self.left.window_size
    }

    /// The impulse-response length the engine was built for.
    pub fn filter_len(&self) -> (r: usize)
        requires
            self.wf(),
        ensures
            r == self.filter.spec_len(),
    {
        self.filter.filter_len()
    }

    /// The window scheduler's advance per analysis window.  Windows do not
    /// overlap: the scheduler advances a full window each time.
    pub fn hop(&self) -> (r: usize)
        ensures
            r == self.left.window_size,
    {
        self.left.window_size
    }

    /// The length of the per-window transform region: a window plus the
    /// filter tail, the smallest size on which per-window convolution is
    /// free of wrap-around.
    pub fn transform_size(&self) -> (r: usize)
        requires
            self.wf(),
        ensures
            r == self.left.window_size + self.filter.spec_len() - 1,
    {
        self.left.window_size + self.filter.filter_len() - 1
    }

    /// The engine's reported latency in samples: the window advance deficit
    /// `window_size - hop` — zero here, because analysis windows do not
    /// overlap — plus the impulse response's nominal group delay,
    /// `filter_len / 2`.
    pub fn latency_samples(&self) -> (r: usize)
        requires
            self.wf(),
        ensures
            r == (self.left.window_size - self.left.window_size) + self.filter.spec_len() / 2,
    {
        (self.window_size() - self.hop()) + self.filter.filter_len() / 2
    }

    /// Renders one mono block to binaural stereo: the same input is fed to
    /// both ears, each convolved with its own impulse response.  The input
    /// block is untouched; the returned pair holds the two emitted streams
    /// for the block's positions.
    pub fn render_block(&mut self, mono: &Vec<i64>) -> (r: (Vec<i64>, Vec<i64>))
        requires
            old(self).wf(),
            vec_bounded(mono@, SAMPLE_LIMIT as int),
        ensures
            final(self).wf(),
            final(self).left.window_size == old(self).left.window_size,
            final(self).filter == old(self).filter,
            final(self).left.filter_len == old(self).left.filter_len,
            final(self).left.consumed@ == old(self).left.consumed@ + int_seq(mono@),
            final(self).right.consumed@ == old(self).right.consumed@ + int_seq(mono@),
            old(self).left.hist@.is_prefix_of(final(self).left.hist@),
            old(self).right.hist@.is_prefix_of(final(self).right.hist@),
            forall|k: int| old(self).left.hist@.len() <= k < final(self).left.hist@.len()
                ==> final(self).left.hist@[k] == old(self).filter.left_view(),
            forall|k: int| old(self).right.hist@.len() <= k < final(self).right.hist@.len()
                ==> final(self).right.hist@[k] == old(self).filter.right_view(),
            r.0.len() == mono.len(),
            r.1.len() == mono.len(),
            forall|i: int| 0 <= i < mono.len() ==> (#[trigger] r.0@[i]) as int == stream_out(
                final(self).left.consumed@, final(self).left.hist@, old(self).left.w_nat(),
                old(self).left.total_in() + i),
            forall|i: int| 0 <= i < mono.len() ==> (#[trigger] r.1@[i]) as int == stream_out(
                final(self).right.consumed@, final(self).right.hist@, old(self).right.w_nat(),
                old(self).right.total_in() + i),
            vec_bounded(r.0@, value_bound()),
            vec_bounded(r.1@, value_bound()),
    {
        let mut l = copy_vec(mono);
        let mut rr = copy_vec(mono);
        self.process(&mut l, &mut rr);
        (l, rr)
    }
}

/// Renders a whole mono stream to binaural stereo, block by block, as a
/// file converter does: the stream is cut into blocks of `block_len`
/// samples, each is rendered through the engine, and the rendered blocks
/// are concatenated.  Trailing samples that do not fill a block are not
/// processed.
#[verifier::loop_isolation(false)]
pub fn render_stream(engine: &mut Engine, mono: &Vec<i64>, block_len: usize) -> (r: (Vec<i64>, Vec<i64>))
    requires
        old(engine).wf(),
        1 <= block_len,
        vec_bounded(mono@, SAMPLE_LIMIT as int),
    ensures
        final(engine).wf(),
        final(engine).left.window_size == old(engine).left.window_size,
        final(engine).filter == old(engine).filter,
        r.0.len() == ((mono.len() as int) / (block_len as int)) * (block_len as int),
        r.1.len() == r.0.len(),
        final(engine).left.consumed@ == old(engine).left.consumed@ + int_seq(mono@).subrange(0,
            r.0.len() as int),
        final(engine).right.consumed@ == old(engine).right.consumed@ + int_seq(mono@).subrange(0,
            r.0.len() as int),
        old(engine).left.hist@.is_prefix_of(final(engine).left.hist@),
        old(engine).right.hist@.is_prefix_of(final(engine).right.hist@),
        forall|k: int| old(engine).left.hist@.len() <= k < final(engine).left.hist@.len()
            ==> final(engine).left.hist@[k] == old(engine).filter.left_view(),
        forall|k: int| old(engine).right.hist@.len() <= k < final(engine).right.hist@.len()
            ==> final(engine).right.hist@[k] == old(engine).filter.right_view(),
        forall|i: int| 0 <= i < r.0.len() ==> (#[trigger] r.0@[i]) as int == stream_out(
            final(engine).left.consumed@, final(engine).left.hist@, old(engine).left.w_nat(),
            old(engine).left.total_in() + i),
        forall|i: int| 0 <= i < r.1.len() ==> (#[trigger] r.1@[i]) as int == stream_out(
            final(engine).right.consumed@, final(engine).right.hist@, old(engine).right.w_nat(),
            old(engine).right.total_in() + i),
        vec_bounded(r.0@, value_bound()),
        vec_bounded(r.1@, value_bound()),
{
    let ghost l0 = engine.left.consumed@;
    let ghost r0 = engine.right.consumed@;
    let ghost hl0 = engine.left.hist@;
    let ghost hr0 = engine.right.hist@;
    let ghost filter0 = engine.filter;
    let w = engine.left.window_size;
    let f = engine.left.filter_len;
    let n_blocks: usize = mono.len() / block_len;
    let mut out_l: Vec<i64> = Vec::new();
    let mut out_r: Vec<i64> = Vec::new();
    let mut b: usize = 0;
    proof {
        vstd::arithmetic::div_mod::lemma_fundamental_div_mod(mono.len() as int, block_len as int);
        vstd::arithmetic::div_mod::lemma_mod_division_less_than_divisor(mono.len() as int,
            block_len as int);
        assert(n_blocks * block_len <= mono.len());
    }
    while b < n_blocks
        invariant
            engine.wf(),
            engine.left.window_size == w,
            engine.left.filter_len == f,
            engine.filter == filter0,
            b <= n_blocks,
            out_l.len() == b * block_len,
            out_r.len() == b * block_len,
            engine.left.consumed@.len() == l0.len() + b * block_len,
            engine.right.consumed@.len() == r0.len() + b * block_len,
            forall|k: int| 0 <= k < l0.len() ==> #[trigger] engine.left.consumed@[k] == l0[k],
            forall|k: int| 0 <= k < r0.len() ==> #[trigger] engine.right.consumed@[k] == r0[k],
            forall|k: int| 0 <= k < b * block_len ==> #[trigger] engine.left.consumed@[l0.len()
                + k] == mono@[k] as int,
            forall|k: int| 0 <= k < b * block_len ==> #[trigger] engine.right.consumed@[r0.len()
                + k] == mono@[k] as int,
            hl0.len() <= engine.left.hist@.len(),
            hr0.len() <= engine.right.hist@.len(),
            forall|k: int| 0 <= k < hl0.len() ==> #[trigger] engine.left.hist@[k] == hl0[k],
            forall|k: int| 0 <= k < hr0.len() ==> #[trigger] engine.right.hist@[k] == hr0[k],
            forall|k: int| hl0.len() <= k < engine.left.hist@.len()
                ==> #[trigger] engine.left.hist@[k] == filter0.left_view(),
            forall|k: int| hr0.len() <= k < engine.right.hist@.len()
                ==> #[trigger] engine.right.hist@[k] == filter0.right_view(),
            forall|i: int| 0 <= i < out_l.len() ==> (#[trigger] out_l@[i]) as int == stream_out(
                engine.left.consumed@, engine.left.hist@, w as nat, l0.len() + i),
            forall|i: int| 0 <= i < out_r.len() ==> (#[trigger] out_r@[i]) as int == stream_out(
                engine.right.consumed@, engine.right.hist@, w as nat, r0.len() + i),
            vec_bounded(out_l@, value_bound()),
            vec_bounded(out_r@, value_bound()),
        decreases n_blocks - b,
    {
        proof {
            assert((b + 1) * block_len == b * block_len + block_len && b * block_len >= 0)
                by (nonlinear_arith)
                requires
                    b >= 0,
                    block_len >= 1,
            ;
            assert((b + 1) * block_len <= n_blocks * block_len) by (nonlinear_arith)
                requires
                    b + 1 <= n_blocks,
                    block_len >= 1,
            ;
        }
        let mut block: Vec<i64> = Vec::new();
        let mut k: usize = 0;
        while k < block_len
            invariant
                block.len() == k,
                k <= block_len,
                forall|q: int| 0 <= q < k ==> #[trigger] block@[q] == mono@[b * block_len + q],
            decreases block_len - k,
        {
            block.push(mono[b * block_len + k]);
            k = k + 1;
        }
        proof {
            assert(vec_bounded(block@, SAMPLE_LIMIT as int)) by {
                assert forall|q: int| 0 <= q < block@.len() implies -(SAMPLE_LIMIT as int) <= (
                #[trigger] block@[q]) as int <= SAMPLE_LIMIT as int by {
                    assert(block@[q] == mono@[b * block_len + q]);
                }
            }
        }
        let ghost lprev = engine.left.consumed@;
        let ghost rprev = engine.right.consumed@;
        let ghost hlprev = engine.left.hist@;
        let ghost hrprev = engine.right.hist@;
        let (bl, br) = engine.render_block(&block);
        proof {
            assert forall|k: int| 0 <= k < hlprev.len() implies #[trigger] engine.left.hist@[k]
                == hlprev[k] by {
                assert(engine.left.hist@.subrange(0, hlprev.len() as int)[k]
                    == engine.left.hist@[k]);
            }
            assert forall|k: int| 0 <= k < hrprev.len() implies #[trigger] engine.right.hist@[k]
                == hrprev[k] by {
                assert(engine.right.hist@.subrange(0, hrprev.len() as int)[k]
                    == engine.right.hist@[k]);
            }
            assert forall|i: int| 0 <= i < out_l.len() implies (#[trigger] out_l@[i]) as int
                == stream_out(engine.left.consumed@, engine.left.hist@, w as nat, l0.len() + i) by {
                assert(out_l@[i] as int == stream_out(lprev, hlprev, w as nat, l0.len() + i));
                crate::ola::lemma_stream_out_mono(lprev, engine.left.consumed@, hlprev,
                    engine.left.hist@, w as nat, l0.len() + i);
            }
            assert forall|i: int| 0 <= i < out_r.len() implies (#[trigger] out_r@[i]) as int
                == stream_out(engine.right.consumed@, engine.right.hist@, w as nat, r0.len() + i) by {
                assert(out_r@[i] as int == stream_out(rprev, hrprev, w as nat, r0.len() + i));
                crate::ola::lemma_stream_out_mono(rprev, engine.right.consumed@, hrprev,
                    engine.right.hist@, w as nat, r0.len() + i);
            }
            assert forall|q: int| 0 <= q < block_len implies (#[trigger] bl@[q]) as int
                == stream_out(engine.left.consumed@, engine.left.hist@, w as nat, l0.len()
                + b * block_len + q) by {
                assert(bl@[q] as int == stream_out(engine.left.consumed@, engine.left.hist@,
                    w as nat, lprev.len() + q));
            }
            assert forall|q: int| 0 <= q < block_len implies (#[trigger] br@[q]) as int
                == stream_out(engine.right.consumed@, engine.right.hist@, w as nat, r0.len()
                + b * block_len + q) by {
                assert(br@[q] as int == stream_out(engine.right.consumed@, engine.right.hist@,
                    w as nat, rprev.len() + q));
            }
        }
        let mut k: usize = 0;
        while k < block_len
            invariant
                out_l.len() == b * block_len + k,
                out_r.len() == b * block_len + k,
                k <= block_len,
                forall|i: int| 0 <= i < out_l.len() ==> (#[trigger] out_l@[i]) as int == stream_out(
                    engine.left.consumed@, engine.left.hist@, w as nat, l0.len() + i),
                forall|i: int| 0 <= i < out_r.len() ==> (#[trigger] out_r@[i]) as int == stream_out(
                    engine.right.consumed@, engine.right.hist@, w as nat, r0.len() + i),
                vec_bounded(out_l@, value_bound()),
                vec_bounded(out_r@, value_bound()),
            decreases block_len - k,
        {
            out_l.push(bl[k]);
            out_r.push(br[k]);
            k = k + 1;
        }
        b = b + 1;
    }
    proof {
        let total = (n_blocks * block_len) as int;
        assert forall|q: int| 0 <= q < engine.left.consumed@.len()
            implies #[trigger] engine.left.consumed@[q] == (l0 + int_seq(mono@).subrange(0,
            total))[q] by {
            if q >= l0.len() {
                let k = q - l0.len();
                assert(engine.left.consumed@[l0.len() + k] == mono@[k] as int);
                assert(int_seq(mono@)[k] == mono@[k] as int);
            }
        }
        assert(engine.left.consumed@ =~= l0 + int_seq(mono@).subrange(0, total));
        assert forall|q: int| 0 <= q < engine.right.consumed@.len()
            implies #[trigger] engine.right.consumed@[q] == (r0 + int_seq(mono@).subrange(0,
            total))[q] by {
            if q >= r0.len() {
                let k = q - r0.len();
                assert(engine.right.consumed@[r0.len() + k] == mono@[k] as int);
                assert(int_seq(mono@)[k] == mono@[k] as int);
            }
        }
        assert(engine.right.consumed@ =~= r0 + int_seq(mono@).subrange(0, total));
        assert(hl0.is_prefix_of(engine.left.hist@)) by {
            assert(hl0 =~= engine.left.hist@.subrange(0, hl0.len() as int));
        }
        assert(hr0.is_prefix_of(engine.right.hist@)) by {
            assert(hr0 =~= engine.right.hist@.subrange(0, hr0.len() as int));
        }
    }
    (out_l, out_r)
}

/// Folds a stereo pair down to one mono stream, averaging the two channels
/// sample by sample; an odd sum is rounded toward zero.
pub fn mix_to_mono(a: &Vec<i64>, b: &Vec<i64>) -> (r: Vec<i64>)
    requires
        a.len() == b.len(),
        vec_bounded(a@, SAMPLE_LIMIT as int),
        vec_bounded(b@, SAMPLE_LIMIT as int),
    ensures
        r.len() == a.len(),
        forall|i: int| 0 <= i < r.len() ==> (#[trigger] r@[i]) as int == mono_mix(a@[i] as int,
            b@[i] as int),
        vec_bounded(r@, SAMPLE_LIMIT as int),
{
    let mut r: Vec<i64> = Vec::new();
    let mut i: usize = 0;
    while i < a.len()
        invariant
            a.len() == b.len(),
            vec_bounded(a@, SAMPLE_LIMIT as int),
            vec_bounded(b@, SAMPLE_LIMIT as int),
            r.len() == i,
            i <= a.len(),
            forall|k: int| 0 <= k < i ==> (#[trigger] r@[k]) as int == mono_mix(a@[k] as int,
                b@[k] as int),
            vec_bounded(r@, SAMPLE_LIMIT as int),
        decreases a.len() - i,
    {
        let s: i64 = a[i] + b[i];
        let v: i64 = s / 2;
        proof {
            assert(v as int == mono_mix(a@[i as int] as int, b@[i as int] as int));
            assert(-(SAMPLE_LIMIT as int) <= v as int <= SAMPLE_LIMIT as int);
        }
        r.push(v);
        i = i + 1;
    }
    r
}

/// The average of two samples, rounded toward zero, as the mono mixdown
/// computes it.
pub open spec fn mono_mix(a: int, b: int) -> int {
    if a + b >= 0 {
        (a + b) / 2
    } else {
        -((-(a + b)) / 2)
    }
}

/// A fresh vector with the same samples.
fn copy_vec(v: &Vec<i64>) -> (r: Vec<i64>)
    ensures
        r@ == v@,
{
    let mut r: Vec<i64> = Vec::new();
    let mut i: usize = 0;
    while i < v.len()
        invariant
            r.len() == i,
            i <= v.len(),
            forall|k: int| 0 <= k < i ==> #[trigger] r@[k] == v@[k],
        decreases v.len() - i,
    {
        r.push(v[i]);
        i = i + 1;
    }
    proof {
        assert(r@ =~= v@);
    }
    r
}

} // verus!
