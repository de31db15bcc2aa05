//! Conversion of captured audio: many channels to one, and one rate to another.
//!
//! The arithmetic on samples is given by functions; here stands which samples
//! they are applied to, and in what order.

use vstd::prelude::*;

verus! {

/// Whether `mono` is what `mix` makes of the frames of `raw`, each of `channels`
/// samples. A frame that is cut off at the end is left out; a single channel is
/// not mixed.
pub open spec fn mixes<S, M: Fn(&[S]) -> S>(
    mix: M,
    raw: Seq<S>,
    channels: int,
    mono: Seq<S>,
) -> bool {
    if channels == 1 {
        mono == raw
    } else {
        &&& mono.len() == raw.len() as int / channels
        &&& forall|i: int| 0 <= i < mono.len() ==> frame_mixes(mix, raw, channels, i, #[trigger] mono[i])
    }
}

/// Whether `mix` may make `out` of the frame of `raw` with number `i`.
pub open spec fn frame_mixes<S, M: Fn(&[S]) -> S>(
    mix: M,
    raw: Seq<S>,
    channels: int,
    i: int,
    out: S,
) -> bool {
    exists|frame: &[S]|
        frame@ == raw.subrange(i * channels, i * channels + channels) && #[trigger] call_ensures(
            mix,
            (frame,),
            out,
        )
}

/// The audio as one channel.
pub fn mixdown<S: Copy, M: Fn(&[S]) -> S>(raw: Vec<S>, channels: usize, mix: &M) -> (mono: Vec<S>)
    requires
        channels > 0,
        forall|frame: &[S]| call_requires(*mix, (frame,)),
    ensures
        mixes(*mix, raw@, channels as int, mono@),
        channels == 1 ==> mono@ == raw@,
        channels > 1 ==> mono@.len() == raw@.len() as int / channels as int,
{
    if channels == 1 {
        return raw;
    }
    let len: usize = raw.len();
    let n: usize = len / channels;
    proof {
        vstd::arithmetic::div_mod::lemma_fundamental_div_mod(raw@.len() as int, channels as int);
        vstd::arithmetic::div_mod::lemma_mod_bound(raw@.len() as int, channels as int);
        vstd::arithmetic::mul::lemma_mul_is_commutative(n as int, channels as int);
    }
    let mut mono: Vec<S> = Vec::new();
    let mut i: usize = 0;
    let mut at: usize = 0;
    while i < n
        invariant
            forall|frame: &[S]| call_requires(*mix, (frame,)),
            channels > 0,
            len == raw@.len(),
            n * channels <= len,
            i <= n,
            at == i * channels,
            mono@.len() == i,
            forall|k: int|
                0 <= k < i ==> frame_mixes(*mix, raw@, channels as int, k, #[trigger] mono@[k]),
        decreases n - i,
    {
        proof {
            vstd::arithmetic::mul::lemma_mul_inequality(i + 1, n as int, channels as int);
            vstd::arithmetic::mul::lemma_mul_is_distributive_add_other_way(
                channels as int,
                i as int,
                1,
            );
        }
        let frame: &[S] = vstd::slice::slice_subrange(raw.as_slice(), at, at + channels);
        let out: S = mix(frame);
        proof {
            assert(call_ensures(*mix, (frame,), out));
            assert(frame_mixes(*mix, raw@, channels as int, i as int, out));
        }
        mono.push(out);
        i += 1;
        at += channels;
    }
    mono
}

/// Whether `out` may come of converting the single channel `mono` from one rate
/// to the other: by `resample`, or by `fallback` where that fails.
pub open spec fn resamples<
    S,
    R: FnOnce(&Vec<S>, u32, u32) -> Option<Vec<S>>,
    L: FnOnce(&Vec<S>, u32, u32) -> Vec<S>,
>(resample: R, fallback: L, mono: Vec<S>, native: u32, target: u32, out: Vec<S>) -> bool {
    ||| call_ensures(resample, (&mono, native, target), Some(out))
    ||| call_ensures(resample, (&mono, native, target), None) && call_ensures(
        fallback,
        (&mono, native, target),
        out,
    )
}

/// Whether `out` may come of converting captured audio to one channel at the
/// target rate. Audio that is at that rate already is not converted further.
pub open spec fn processes<
    S,
    M: Fn(&[S]) -> S,
    R: FnOnce(&Vec<S>, u32, u32) -> Option<Vec<S>>,
    L: FnOnce(&Vec<S>, u32, u32) -> Vec<S>,
>(
    mix: M,
    resample: R,
    fallback: L,
    raw: Seq<S>,
    channels: int,
    native: u32,
    target: u32,
    out: Vec<S>,
) -> bool {
    exists|mono: Vec<S>| #[trigger]
        mixes(mix, raw, channels, mono@) && if native == target {
            out@ == mono@
        } else {
            resamples(resample, fallback, mono, native, target, out)
        }
}

/// Converts captured audio to one channel at the target rate.
pub fn process_audio<S: Copy, M, R, L>(
    raw: Vec<S>,
    channels: u16,
    native_rate: u32,
    target_rate: u32,
    mix: &M,
    resample: R,
    fallback: L,
) -> (out: Vec<S>) where
    M: Fn(&[S]) -> S,
    R: FnOnce(&Vec<S>, u32, u32) -> Option<Vec<S>>,
    L: FnOnce(&Vec<S>, u32, u32) -> Vec<S>,

    requires
        channels > 0,
        forall|frame: &[S]| call_requires(*mix, (frame,)),
        forall|v: &Vec<S>| call_requires(resample, (v, native_rate, target_rate)),
        forall|v: &Vec<S>| call_requires(fallback, (v, native_rate, target_rate)),
    ensures
        processes(
            *mix,
            resample,
            fallback,
            raw@,
            channels as int,
            native_rate,
            target_rate,
            out,
        ),
        native_rate == target_rate ==> exists|mono: Vec<S>|
            #![trigger call_ensures(mixdown::<S, M>, (raw, channels as usize, mix), mono)]
            call_ensures(mixdown::<S, M>, (raw, channels as usize, mix), mono) && out@ == mono@,
        native_rate != target_rate ==> exists|mono: Vec<S>|
            #![trigger call_ensures(mixdown::<S, M>, (raw, channels as usize, mix), mono)]
            call_ensures(mixdown::<S, M>, (raw, channels as usize, mix), mono) && (call_ensures(
                resample,
                (&mono, native_rate, target_rate),
                Some(out),
            ) || call_ensures(resample, (&mono, native_rate, target_rate), None) && call_ensures(
                fallback,
                (&mono, native_rate, target_rate),
                out,
            )),
{
    let mono: Vec<S> = mixdown(raw, channels as usize, mix);
    if native_rate == target_rate {
        return mono;
    }
    let attempt: Option<Vec<S>> = resample(&mono, native_rate, target_rate);
    match attempt {
        Some(out) => out,
        None => fallback(&mono, native_rate, target_rate),
    }
}

// ---------------------------------------------------------------------------
// Laws
// ---------------------------------------------------------------------------

/// Each sample of the single channel is what `mix` makes of the samples of all
/// channels at that time, and there is one for every whole frame; a single
/// channel stays as it is.
pub proof fn law_frames_are_mixed<S, M: Fn(&[S]) -> S>(
    mix: M,
    raw: Seq<S>,
    channels: int,
    mono: Seq<S>,
    i: int,
)
    requires
        channels > 0,
        mixes(mix, raw, channels, mono),
        0 <= i < mono.len(),
    ensures
        channels == 1 ==> mono == raw,
        channels > 1 ==> mono.len() * channels <= raw.len() < mono.len() * channels + channels,
        channels > 1 ==> exists|frame: &[S]| #[trigger]
            call_ensures(mix, (frame,), mono[i]) && frame@.len() == channels && forall|k: int|
                0 <= k < channels ==> #[trigger] frame@[k] == raw[i * channels + k],
{
    if channels > 1 {
        let n = raw.len() as int / channels;
        vstd::arithmetic::div_mod::lemma_fundamental_div_mod(raw.len() as int, channels);
        vstd::arithmetic::div_mod::lemma_mod_bound(raw.len() as int, channels);
        vstd::arithmetic::mul::lemma_mul_is_commutative(n, channels);
        vstd::arithmetic::mul::lemma_mul_inequality(i + 1, n, channels);
        vstd::arithmetic::mul::lemma_mul_is_distributive_add_other_way(channels, i, 1);
        assert(0 <= i * channels) by (nonlinear_arith)
            requires
                0 <= i,
                channels > 0,
        ;
        assert(frame_mixes(mix, raw, channels, i, mono[i]));
        let frame = choose|frame: &[S]|
            frame@ == raw.subrange(i * channels, i * channels + channels)
                && #[trigger] call_ensures(mix, (frame,), mono[i]);
        assert(call_ensures(mix, (frame,), mono[i]));
    }
}

/// Audio at another rate is always converted, whatever the two rates are: what
/// comes of it is what `resample` makes of the single channel with these rates,
/// or what `fallback` does where that makes nothing. Audio at the wanted rate is
/// that channel as it is.
pub proof fn law_other_rates_are_resampled<
    S,
    M: Fn(&[S]) -> S,
    R: FnOnce(&Vec<S>, u32, u32) -> Option<Vec<S>>,
    L: FnOnce(&Vec<S>, u32, u32) -> Vec<S>,
>(
    mix: M,
    resample: R,
    fallback: L,
    raw: Seq<S>,
    channels: int,
    native: u32,
    target: u32,
    out: Vec<S>,
) -> (mono: Vec<S>)
    requires
        processes(mix, resample, fallback, raw, channels, native, target, out),
    ensures
        mixes(mix, raw, channels, mono@),
        native != target ==> call_ensures(resample, (&mono, native, target), Some(out)) || (
        call_ensures(resample, (&mono, native, target), None) && call_ensures(
            fallback,
            (&mono, native, target),
            out,
        )),
        native == target ==> out@ == mono@,
{
    choose|mono: Vec<S>| #[trigger]
        mixes(mix, raw, channels, mono@) && if native == target {
            out@ == mono@
        } else {
            resamples(resample, fallback, mono, native, target, out)
        }
}

} // verus!
