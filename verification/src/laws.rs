//! The engine's global guarantees, stated and proved once over the stream
//! model that `Channel::process_block` and `Engine::process` promise in
//! their contracts.

use vstd::prelude::*;
use crate::conv::{conv_at, lemma_conv_identity, sample_at};
use crate::ola::{
    filters_all, filters_wf, lemma_ola_const_filter, lemma_ola_prefix_only, lemma_ola_stable,
    lemma_ola_input_prefix, ola_at, stream_out,
};

verus! {

/// The one-tap identity impulse response.
pub open spec fn unit_filter() -> Seq<int> {
    seq![1int]
}

/// Streaming equals direct convolution: when every processed window used
/// one and the same impulse response `h`, the engine's emitted stream is
/// the direct linear convolution of the whole consumed input with `h`,
/// delayed by exactly one analysis window — for every emitted index, and
/// therefore for every division of the input into host blocks.
pub proof fn lemma_stream_is_convolution(x: Seq<int>, hs: Seq<Seq<int>>, h: Seq<int>, w: nat, t: int)
    requires
        w >= 1,
        h.len() >= 1,
        filters_wf(hs, h.len()),
        filters_all(hs, h),
        hs.len() * w <= x.len(),
        t < hs.len() * w + w,
    ensures
        stream_out(x, hs, w, t) == conv_at(x, h, t - w),
{
    if t < w {
        crate::conv::lemma_conv_outside(x, h, t - w);
    } else {
        lemma_ola_const_filter(x, hs, h, w, t - w);
    }
}

/// The identity impulse response passes the signal through unchanged: the
/// emitted stream is the input itself, delayed by exactly one analysis
/// window, whatever the block sizes were.
pub proof fn lemma_identity_filter_delays_by_window(x: Seq<int>, hs: Seq<Seq<int>>, w: nat, t: int)
    requires
        w >= 1,
        filters_all(hs, unit_filter()),
        hs.len() * w <= x.len(),
        t < hs.len() * w + w,
    ensures
        stream_out(x, hs, w, t) == sample_at(x, t - w),
{
    assert(filters_wf(hs, 1)) by {
        assert forall|k: int| 0 <= k < hs.len() implies (#[trigger] hs[k]).len() == 1nat by {
            assert(hs[k] == unit_filter());
        }
    }
    lemma_stream_is_convolution(x, hs, unit_filter(), w, t);
    lemma_conv_identity(x, unit_filter(), t - w);
}

/// Determinism: the emitted stream is a function of the consumed input and
/// the per-window filter history alone.  Two engines that consumed the same
/// samples and committed the same filters emit bit-identical output,
/// because `Engine::process` pins every emitted sample to this one value.
pub proof fn lemma_deterministic(x1: Seq<int>, hs1: Seq<Seq<int>>, x2: Seq<int>, hs2: Seq<Seq<int>>, w: nat, t: int)
    requires
        x1 == x2,
        hs1 == hs2,
    ensures
        stream_out(x1, hs1, w, t) == stream_out(x2, hs2, w, t),
{
}

/// Replacing the impulse response is local: an output sample emitted from
/// the first `n` windows is unaffected by what any later window was
/// convolved with, and by any input sample past those windows.  Committing
/// a new filter changes nothing that was already determined.
pub proof fn lemma_filter_change_is_local(x1: Seq<int>, hs1: Seq<Seq<int>>, x2: Seq<int>, hs2: Seq<Seq<int>>, w: nat, n: int, t: int)
    requires
        w >= 1,
        0 <= n <= hs1.len(),
        n <= hs2.len(),
        forall|k: int| 0 <= k < n ==> hs1[k] == hs2[k],
        n * w <= x1.len(),
        n * w <= x2.len(),
        forall|i: int| 0 <= i < n * w ==> x1[i] == x2[i],
        t < n * w + w,
    ensures
        stream_out(x1, hs1, w, t) == stream_out(x2, hs2, w, t),
{
    if t >= w {
        let j = t - w;
        lemma_ola_stable(x1, hs1, w, n, hs1.len() as int, j);
        lemma_ola_stable(x2, hs2, w, n, hs2.len() as int, j);
        lemma_ola_prefix_only(x1, hs1, hs2, w, n, j);
        lemma_ola_input_prefix(x1, x2, hs2, w, n, j);
    }
}

} // verus!
