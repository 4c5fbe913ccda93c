use spatializer::engine::{mix_to_mono, Engine};
use spatializer::{COEFF_LIMIT, SAMPLE_LIMIT};
use spatializer::filter::ImpulseResponse;

/// Direct time-domain linear convolution, the reference the streamed engine
/// is held against.
fn conv_ref(x: &[i64], h: &[i64]) -> Vec<i64> {
    let mut out = vec![0i64; x.len() + h.len() - 1];
    for (j, o) in out.iter_mut().enumerate() {
        let mut acc: i64 = 0;
        for (m, c) in h.iter().enumerate() {
            if m <= j && j - m < x.len() {
                acc += c * x[j - m];
            }
        }
        *o = acc;
    }
    out
}

fn make_engine(window: usize, left: Vec<i64>, right: Vec<i64>) -> Engine {
    let ir = ImpulseResponse::new(left, right).unwrap();
    Engine::new(window, ir).unwrap()
}

/// Feeds `input` to both ears in blocks of the given sizes and returns the
/// two emitted streams.
fn run_blocks(engine: &mut Engine, input: &[i64], sizes: &[usize]) -> (Vec<i64>, Vec<i64>) {
    let mut out_l = Vec::new();
    let mut out_r = Vec::new();
    let mut at = 0;
    for &sz in sizes {
        let block: Vec<i64> = input[at..at + sz].to_vec();
        let mut l = block.clone();
        let mut r = block;
        engine.process(&mut l, &mut r);
        out_l.extend_from_slice(&l);
        out_r.extend_from_slice(&r);
        at += sz;
    }
    assert_eq!(at, input.len());
    (out_l, out_r)
}

#[test]
fn identity_filter_delays_by_one_window() {
    // One-tap identity impulse response: the output is the input, delayed
    // by exactly the window size, whatever the block sizes.
    let w = 8;
    let input: Vec<i64> = (0..30).map(|t| (t * 37 % 101) - 50).collect();
    let mut engine = make_engine(w, vec![1], vec![1]);
    let (out_l, out_r) = run_blocks(&mut engine, &input, &[3, 5, 7, 9, 6]);
    for t in 0..input.len() {
        let expect = if t < w { 0 } else { input[t - w] };
        assert_eq!(out_l[t], expect, "left sample {t}");
        assert_eq!(out_r[t], expect, "right sample {t}");
    }
}

#[test]
fn streamed_output_matches_direct_convolution_small_blocks() {
    // Host blocks smaller than the analysis window: the emitted stream is
    // the direct convolution, delayed by one window.
    let w = 16;
    let hl: Vec<i64> = vec![3, -1, 4, 1, -5];
    let hr: Vec<i64> = vec![2, 7, -1, -8, 2];
    let input: Vec<i64> = (0..48).map(|t| (t * 13 % 29) - 14).collect();
    let mut engine = make_engine(w, hl.clone(), hr.clone());
    let (out_l, out_r) = run_blocks(&mut engine, &input, &[4; 12]);
    let ref_l = conv_ref(&input, &hl);
    let ref_r = conv_ref(&input, &hr);
    for t in 0..input.len() {
        let el = if t < w { 0 } else { ref_l[t - w] };
        let er = if t < w { 0 } else { ref_r[t - w] };
        assert_eq!(out_l[t], el, "left sample {t}");
        assert_eq!(out_r[t], er, "right sample {t}");
    }
}

#[test]
fn streamed_output_matches_direct_convolution_large_blocks() {
    // Host blocks larger than the analysis window: several windows complete
    // within one call; the stream is unchanged.
    let w = 16;
    let hl: Vec<i64> = vec![1, 2, 3];
    let hr: Vec<i64> = vec![-2, 0, 5];
    let input: Vec<i64> = (0..80).map(|t| ((t * t) % 23) - 11).collect();
    let mut engine = make_engine(w, hl.clone(), hr.clone());
    let (out_l, out_r) = run_blocks(&mut engine, &input, &[40, 40]);
    let ref_l = conv_ref(&input, &hl);
    let ref_r = conv_ref(&input, &hr);
    for t in 0..input.len() {
        let el = if t < w { 0 } else { ref_l[t - w] };
        let er = if t < w { 0 } else { ref_r[t - w] };
        assert_eq!(out_l[t], el, "left sample {t}");
        assert_eq!(out_r[t], er, "right sample {t}");
    }
}

#[test]
fn block_division_does_not_change_the_stream() {
    // The same input cut into different block patterns gives the same
    // emitted stream.
    let w = 8;
    let hl: Vec<i64> = vec![5, 0, -3, 2];
    let hr: Vec<i64> = vec![1, 1, 1, 1];
    let input: Vec<i64> = (0..32).map(|t| (t * 7 % 17) - 8).collect();
    let mut a = make_engine(w, hl.clone(), hr.clone());
    let mut b = make_engine(w, hl, hr);
    let out_a = run_blocks(&mut a, &input, &[32]);
    let out_b = run_blocks(&mut b, &input, &[1, 2, 3, 4, 5, 6, 7, 4]);
    assert_eq!(out_a, out_b);
}

#[test]
fn latency_formula_on_three_configurations() {
    // latency_samples() == (window - hop) + filter_len / 2, with hop equal
    // to the window size.
    let configs = [(64usize, 33usize, 16usize), (128, 65, 32), (32, 17, 8)];
    for &(w, f, expect) in &configs {
        let engine = make_engine(w, vec![1; f], vec![1; f]);
        assert_eq!(engine.hop(), w);
        assert_eq!(engine.latency_samples(), expect);
    }
}

#[test]
fn unit_impulse_reproduces_the_impulse_response() {
    // Window 64, filter 33, transform region 96: a unit impulse on the
    // left ear reproduces the left impulse response's own values once the
    // window delay has passed; the silent right ear stays silent.
    let w = 64;
    let hl: Vec<i64> = (0..33).map(|k| 100 - 3 * k).collect();
    let hr: Vec<i64> = (0..33).map(|k| k - 16).collect();
    let mut engine = make_engine(w, hl.clone(), hr);
    assert_eq!(engine.transform_size(), 96);
    let n = 256;
    let mut left = vec![0i64; n];
    left[0] = 1;
    let mut right = vec![0i64; n];
    engine.process(&mut left, &mut right);
    for t in 0..n {
        let expect = if t >= w && t - w < 33 { hl[t - w] } else { 0 };
        assert_eq!(left[t], expect, "left sample {t}");
        assert_eq!(right[t], 0, "right sample {t}");
    }
}

#[test]
fn identical_runs_are_bit_identical() {
    // Two fresh engines fed the same blocks and the same filter sequence
    // emit exactly the same samples.
    let w = 16;
    let h1 = (vec![9, -2, 7, 0, 1], vec![3, 3, -3, 1, 0]);
    let h2 = (vec![-1, 5, 0, 2, 2], vec![0, 0, 4, -4, 6]);
    let input: Vec<i64> = (0..64).map(|t| ((t * 31) % 61) - 30).collect();
    let mut outs = Vec::new();
    for _ in 0..2 {
        let mut engine = make_engine(w, h1.0.clone(), h1.1.clone());
        let first = run_blocks(&mut engine, &input[..32], &[10, 10, 12]);
        engine
            .update(ImpulseResponse::new(h2.0.clone(), h2.1.clone()).unwrap())
            .unwrap();
        let second = run_blocks(&mut engine, &input[32..], &[16, 16]);
        outs.push((first, second));
    }
    assert_eq!(outs[0], outs[1]);
}

#[test]
fn filter_change_affects_only_later_windows() {
    // Committing a new impulse response after three windows leaves every
    // sample emitted from those windows untouched; the first sample that
    // may differ is the first one emitted from a window convolved with the
    // new filter.
    let w = 8;
    let h1 = vec![1, 0, 0];
    let h2 = vec![0, 0, 9];
    let input: Vec<i64> = (0..64).map(|t| if t % 5 == 0 { 10 } else { -1 }).collect();
    let mut steady = make_engine(w, h1.clone(), h1.clone());
    let mut switched = make_engine(w, h1.clone(), h1.clone());
    let out_a = run_blocks(&mut steady, &input, &[24, 40]);
    let first_b = run_blocks(&mut switched, &input[..24], &[24]);
    switched
        .update(ImpulseResponse::new(h2.clone(), h2).unwrap())
        .unwrap();
    let second_b = run_blocks(&mut switched, &input[24..], &[40]);
    let mut out_b = first_b.0.clone();
    out_b.extend_from_slice(&second_b.0);
    // windows 0..3 were processed before the change; their outputs reach
    // up to stream index 3*8 + 8 - 1.
    for t in 0..32 {
        assert_eq!(out_a.0[t], out_b[t], "sample {t} changed retroactively");
    }
    // the streams do diverge once windows convolved with the new filter
    // start emitting.
    assert_ne!(&out_a.0[32..], &out_b[32..]);
}

#[test]
fn reset_starts_a_fresh_stream() {
    let w = 8;
    let hl = vec![2, -1];
    let hr = vec![1, 4];
    let input: Vec<i64> = (0..24).map(|t| (t % 7) - 3).collect();
    let mut engine = make_engine(w, hl.clone(), hr.clone());
    let before = run_blocks(&mut engine, &input, &[24]);
    assert_eq!(engine.latency_samples(), 1);
    engine.reset();
    assert_eq!(engine.latency_samples(), 1);
    let after = run_blocks(&mut engine, &input, &[24]);
    assert_eq!(before, after);
}

#[test]
fn render_block_feeds_both_ears() {
    let w = 4;
    let mut engine = make_engine(w, vec![1], vec![-2]);
    let mono: Vec<i64> = vec![5, 0, -7, 9, 1, 1, 2, 3];
    let (l, r) = engine.render_block(&mono);
    for t in 0..mono.len() {
        let expect = if t < w { 0 } else { mono[t - w] };
        assert_eq!(l[t], expect, "left sample {t}");
        assert_eq!(r[t], -2 * expect, "right sample {t}");
    }
}

#[test]
fn render_stream_matches_blockwise_processing() {
    // The offline driver cuts the stream into equal blocks and drops a
    // trailing partial block; what it renders equals feeding the same
    // blocks one by one.
    let w = 8;
    let hl = vec![4, -4, 1];
    let hr = vec![0, 2, 2];
    let mono: Vec<i64> = (0..35).map(|t| (t * 11 % 19) - 9).collect();
    let mut a = make_engine(w, hl.clone(), hr.clone());
    let (sl, sr) = spatializer::engine::render_stream(&mut a, &mono, 10);
    assert_eq!(sl.len(), 30);
    assert_eq!(sr.len(), 30);
    let mut b = make_engine(w, hl, hr);
    let expected = run_blocks(&mut b, &mono[..30], &[10, 10, 10]);
    assert_eq!((sl, sr), expected);
}

#[test]
fn filter_tail_longer_than_window_at_extreme_values() {
    // A filter whose tail spans more than one window, with samples and
    // coefficients at the fixed-point limits: the arithmetic stays exact.
    let w = 4;
    let hl: Vec<i64> = vec![COEFF_LIMIT; 11];
    let hr: Vec<i64> = vec![-COEFF_LIMIT; 11];
    let input: Vec<i64> = (0..24)
        .map(|t| if t % 2 == 0 { SAMPLE_LIMIT } else { -SAMPLE_LIMIT })
        .collect();
    let mut engine = make_engine(w, hl.clone(), hr.clone());
    let (out_l, out_r) = run_blocks(&mut engine, &input, &[5, 3, 4, 4, 8]);
    let ref_l = conv_ref(&input, &hl);
    let ref_r = conv_ref(&input, &hr);
    for t in 0..input.len() {
        let el = if t < w { 0 } else { ref_l[t - w] };
        let er = if t < w { 0 } else { ref_r[t - w] };
        assert_eq!(out_l[t], el, "left sample {t}");
        assert_eq!(out_r[t], er, "right sample {t}");
    }
}

#[test]
fn mix_to_mono_averages_toward_zero() {
    let a: Vec<i64> = vec![2, 3, -3, -4, 7];
    let b: Vec<i64> = vec![4, 0, 0, -1, -7];
    let m = mix_to_mono(&a, &b);
    assert_eq!(m, vec![3, 1, -1, -2, 0]);
}
