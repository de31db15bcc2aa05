//! Audio capture: what is captured is cut into chunks of equal length, for as
//! long as the recording lasts.

use vstd::prelude::*;

pub mod device;
pub mod dsp;
pub mod stream;

verus! {

/// The number of samples in a chunk: those of `step_ms` milliseconds.
pub open spec fn chunk_len(rate: u32, step_ms: u32) -> int {
    (rate * step_ms) as int / 1000
}

/// The number of samples in a chunk. There is none where the product of rate and
/// step cannot be counted in 32 bits.
pub fn step_samples(rate: u32, step_ms: u32) -> (r: Option<usize>)
    ensures
        match r {
            Some(n) => rate * step_ms <= u32::MAX && n == chunk_len(rate, step_ms),
            None => rate * step_ms > u32::MAX,
        },
{
    match rate.checked_mul(step_ms) {
        Some(n) => Some((n / 1000) as usize),
        None => None,
    }
}

/// The whole chunks of `step` samples that `s` begins with.
pub open spec fn chunks_of<S>(s: Seq<S>, step: int) -> Seq<Seq<S>> {
    Seq::new((s.len() as int / step) as nat, |i: int| s.subrange(i * step, i * step + step))
}

/// What `s` holds behind its whole chunks.
pub open spec fn rest_of<S>(s: Seq<S>, step: int) -> Seq<S> {
    s.skip((s.len() as int / step) * step)
}

/// The chunks one after the other.
pub open spec fn flat<S>(chunks: Seq<Seq<S>>) -> Seq<S>
    decreases chunks.len(),
{
    if chunks.len() == 0 {
        Seq::empty()
    } else {
        flat(chunks.drop_last()) + chunks.last()
    }
}

/// The chunks of a list, mathematically.
pub open spec fn chunk_views<S>(v: Seq<Vec<S>>) -> Seq<Seq<S>> {
    Seq::new(v.len(), |i: int| v[i]@)
}

/// Whether `processed` may be what captured audio is converted to. Where nothing
/// was captured, there is nothing to convert.
pub open spec fn converts<
    S,
    M: Fn(&[S]) -> S,
    R: FnOnce(&Vec<S>, u32, u32) -> Option<Vec<S>>,
    L: FnOnce(&Vec<S>, u32, u32) -> Vec<S>,
>(
    mix: M,
    resample: R,
    fallback: L,
    source: Source,
    raw: Seq<S>,
    processed: Seq<S>,
) -> bool {
    if raw.len() == 0 {
        processed.len() == 0
    } else {
        exists|out: Vec<S>|
            out@ == processed && #[trigger] dsp::processes(
                mix,
                resample,
                fallback,
                raw,
                source.channels as int,
                source.native_rate,
                source.target_rate,
                out,
            )
    }
}

/// What a device delivers, and at which rate the transcription wants it.
#[derive(Debug, Clone, Copy, PartialEq, Eq, Structural)]
pub struct Source {
    pub channels: u16,
    pub native_rate: u32,
    pub target_rate: u32,
}

/// Audio on its way from the microphone to the transcription.
pub struct AudioCapture<S> {
    accumulator: Vec<S>,
    source: Source,
    step: usize,
}

impl<S: Copy> AudioCapture<S> {
    /// The samples that do not fill a chunk yet.
    pub closed spec fn view(&self) -> Seq<S> {
        self.accumulator@
    }

    /// The number of samples in a chunk.
    pub closed spec fn step(&self) -> int {
        self.step as int
    }

    /// What the device delivers.
    pub closed spec fn source(&self) -> Source {
        self.source
    }

    /// A capture that has no audio yet.
    pub fn new(source: Source, step: usize) -> (c: Self)
        ensures
            c@ == Seq::<S>::empty(),
            c.source() == source,
            c.step() == step,
    {
        AudioCapture { accumulator: Vec::new(), source, step }
    }

    /// Converts captured audio, takes it in, and gives the chunks that are full.
    pub fn record_stream<M, R, L>(
        &mut self,
        raw: Vec<S>,
        mix: &M,
        resample: R,
        fallback: L,
    ) -> (chunks: Vec<Vec<S>>) where
        M: Fn(&[S]) -> S,
        R: FnOnce(&Vec<S>, u32, u32) -> Option<Vec<S>>,
        L: FnOnce(&Vec<S>, u32, u32) -> Vec<S>,

        requires
            old(self).step() > 0,
            old(self).source().channels > 0,
            forall|frame: &[S]| call_requires(*mix, (frame,)),
            forall|v: &Vec<S>, a: u32, b: u32| call_requires(resample, (v, a, b)),
            forall|v: &Vec<S>, a: u32, b: u32| call_requires(fallback, (v, a, b)),
        ensures
            final(self).step() == old(self).step(),
            final(self).source() == old(self).source(),
            exists|processed: Seq<S>| #[trigger]
                converts(*mix, resample, fallback, old(self).source(), raw@, processed)
                    && chunk_views(chunks@) == chunks_of(old(self)@ + processed, old(self).step())
                    && final(self)@ == rest_of(old(self)@ + processed, old(self).step()),
    {
        let ghost before = *self;
        let processed: Vec<S> = if raw.len() == 0 {
            Vec::new()
        } else {
            dsp::process_audio(
                raw,
                self.source.channels,
                self.source.native_rate,
                self.source.target_rate,
                mix,
                resample,
                fallback,
            )
        };
        proof {
            assert(converts(*mix, resample, fallback, before.source(), raw@, processed@));
        }
        self.take_in(&processed)
    }

    /// Takes in converted audio, and gives the chunks that are full.
    pub fn take_in(&mut self, processed: &Vec<S>) -> (chunks: Vec<Vec<S>>)
        requires
            old(self).step() > 0,
        ensures
            final(self).step() == old(self).step(),
            final(self).source() == old(self).source(),
            chunk_views(chunks@) == chunks_of(old(self)@ + processed@, old(self).step()),
            final(self)@ == rest_of(old(self)@ + processed@, old(self).step()),
    {
        self.extend(processed);
        let step: usize = self.step;
        let ghost all = self@;
        let total: usize = self.accumulator.len();
        let n: usize = total / step;
        proof {
            vstd::arithmetic::div_mod::lemma_fundamental_div_mod(total as int, step as int);
            vstd::arithmetic::div_mod::lemma_mod_bound(total as int, step as int);
            vstd::arithmetic::mul::lemma_mul_is_commutative(n as int, step as int);
        }
        let mut chunks: Vec<Vec<S>> = Vec::new();
        let mut i: usize = 0;
        let mut at: usize = 0;
        while i < n
            invariant
                step > 0,
                self.step == step,
                self.accumulator@ == all,
                total == all.len(),
                n * step <= total,
                i <= n,
                at == i * step,
                chunks@.len() == i,
                forall|j: int|
                    0 <= j < i ==> (#[trigger] chunks@[j])@ == all.subrange(
                        j * step,
                        j * step + step,
                    ),
            decreases n - i,
        {
            proof {
                vstd::arithmetic::mul::lemma_mul_inequality(i + 1, n as int, step as int);
                vstd::arithmetic::mul::lemma_mul_is_distributive_add_other_way(
                    step as int,
                    i as int,
                    1,
                );
            }
            chunks.push(copy_range(&self.accumulator, at, at + step));
            i += 1;
            at += step;
        }
        let rest: Vec<S> = copy_range(&self.accumulator, at, total);
        self.accumulator = rest;
        proof {
            assert(self@ =~= rest_of(all, step as int));
            assert(chunk_views(chunks@) =~= chunks_of(all, step as int));
        }
        chunks
    }

    /// Ends the capture with what was captured last. All that is left is the last
    /// chunk, however long, if there is anything.
    pub fn finish<M, R, L>(self, raw: Vec<S>, mix: &M, resample: R, fallback: L) -> (last: Option<
        Vec<S>,
    >) where
        M: Fn(&[S]) -> S,
        R: FnOnce(&Vec<S>, u32, u32) -> Option<Vec<S>>,
        L: FnOnce(&Vec<S>, u32, u32) -> Vec<S>,

        requires
            self.source().channels > 0,
            forall|frame: &[S]| call_requires(*mix, (frame,)),
            forall|v: &Vec<S>, a: u32, b: u32| call_requires(resample, (v, a, b)),
            forall|v: &Vec<S>, a: u32, b: u32| call_requires(fallback, (v, a, b)),
        ensures
            exists|processed: Seq<S>| #[trigger]
                converts(*mix, resample, fallback, self.source(), raw@, processed) && match last {
                    Some(v) => v@ == self@ + processed && v@.len() > 0,
                    None => self@.len() == 0 && processed.len() == 0,
                },
    {
        let mut capture = self;
        if raw.len() == 0 {
            proof {
                assert(converts(
                    *mix,
                    resample,
                    fallback,
                    self.source(),
                    raw@,
                    Seq::<S>::empty(),
                ));
                assert(self@ + Seq::<S>::empty() =~= self@);
            }
        } else {
            let processed: Vec<S> = dsp::process_audio(
                raw,
                capture.source.channels,
                capture.source.native_rate,
                capture.source.target_rate,
                mix,
                resample,
                fallback,
            );
            proof {
                assert(converts(*mix, resample, fallback, self.source(), raw@, processed@));
            }
            capture.extend(&processed);
        }
        if capture.accumulator.len() == 0 {
            None
        } else {
            Some(capture.accumulator)
        }
    }

    fn extend(&mut self, processed: &Vec<S>)
        ensures
            final(self).step() == old(self).step(),
            final(self).source() == old(self).source(),
            final(self)@ == old(self)@ + processed@,
    {
        let mut k: usize = 0;
        while k < processed.len()
            invariant
                k <= processed@.len(),
                self.step == old(self).step,
                self.source == old(self).source,
                self@ == old(self)@ + processed@.take(k as int),
            decreases processed@.len() - k,
        {
            self.accumulator.push(processed[k]);
            k += 1;
            proof {
                assert(self@ =~= old(self)@ + processed@.take(k as int));
            }
        }
        proof {
            assert(processed@.take(processed@.len() as int) =~= processed@);
        }
    }

    /// The names of the input devices, of those that tell it.
    pub fn list_devices(descriptions: &Vec<Option<String>>) -> (names: Vec<String>)
        ensures
            crate::text::views(names@) == device::known_names(descriptions@),
    {
        let mut names: Vec<String> = Vec::new();
        let mut i: usize = 0;
        proof {
            assert(descriptions@.take(0) =~= Seq::<Option<String>>::empty());
            assert(crate::text::views(names@) =~= Seq::<Seq<char>>::empty());
        }
        while i < descriptions.len()
            invariant
                i <= descriptions@.len(),
                crate::text::views(names@) == device::known_names(descriptions@.take(i as int)),
            decreases descriptions@.len() - i,
        {
            proof {
                assert(descriptions@.take(i + 1).drop_last() =~= descriptions@.take(i as int));
                assert(descriptions@.take(i + 1).last() == descriptions@[i as int]);
            }
            let ghost before = crate::text::views(names@);
            if let Some(name) = &descriptions[i] {
                names.push(name.clone());
                proof {
                    assert(crate::text::views(names@) =~= before.push(name@));
                }
            }
            i += 1;
        }
        proof {
            assert(descriptions@.take(descriptions@.len() as int) =~= descriptions@);
        }
        names
    }
}

fn copy_range<S: Copy>(v: &Vec<S>, from: usize, to: usize) -> (r: Vec<S>)
    requires
        from <= to <= v@.len(),
    ensures
        r@ == v@.subrange(from as int, to as int),
{
    let mut r: Vec<S> = Vec::new();
    let mut i: usize = from;
    while i < to
        invariant
            from <= i <= to <= v@.len(),
            r@ == v@.subrange(from as int, i as int),
        decreases to - i,
    {
        r.push(v[i]);
        i += 1;
    }
    r
}

// ---------------------------------------------------------------------------
// How long a recording lasts
// ---------------------------------------------------------------------------

/// Milliseconds between two looks at the ring.
pub const POLL_INTERVAL_MS: u64 = 50;

/// Whether a recording goes on.
#[derive(Debug, Clone, Copy, PartialEq, Eq, Structural)]
pub enum PollOutcome {
    Continue,
    /// It was stopped, or nobody takes its chunks any more.
    Stopped,
    /// It is as long as a recording may be.
    TimedOut,
}

/// Whether a recording goes on, `elapsed_ns` nanoseconds after its start. That
/// it was stopped, or that nobody takes its chunks any more, counts first.
pub fn poll_outcome(stopped: bool, unheard: bool, elapsed_ns: u128, max_secs: u64) -> (r:
    PollOutcome)
    ensures
        r == (if stopped || unheard {
            PollOutcome::Stopped
        } else if elapsed_ns >= max_secs * 1_000_000_000 {
            PollOutcome::TimedOut
        } else {
            PollOutcome::Continue
        }),
{
    if stopped || unheard {
        return PollOutcome::Stopped;
    }
    let limit: u128 = max_secs as u128 * 1_000_000_000;
    if elapsed_ns >= limit {
        PollOutcome::TimedOut
    } else {
        PollOutcome::Continue
    }
}

// ---------------------------------------------------------------------------
// Laws
// ---------------------------------------------------------------------------

proof fn lemma_div_bounds(n: int, step: int)
    requires
        step > 0,
        n >= 0,
    ensures
        0 <= n / step,
        0 <= (n / step) * step <= n,
        n - (n / step) * step < step,
{
    vstd::arithmetic::div_mod::lemma_fundamental_div_mod(n, step);
    vstd::arithmetic::div_mod::lemma_mod_bound(n, step);
    vstd::arithmetic::div_mod::lemma_div_pos_is_pos(n, step);
    vstd::arithmetic::mul::lemma_mul_is_commutative(n / step, step);
    assert((n / step) * step >= 0) by (nonlinear_arith)
        requires
            n / step >= 0,
            step > 0,
    ;
}

/// Nothing is lost and nothing is added: the chunks and the rest, one after the
/// other, are the audio. Every chunk has the length of a step, and the rest is
/// shorter.
pub proof fn law_chunks_keep_audio<S>(s: Seq<S>, step: int)
    requires
        step > 0,
    ensures
        flat(chunks_of(s, step)) + rest_of(s, step) == s,
        forall|i: int|
            0 <= i < chunks_of(s, step).len() ==> (#[trigger] chunks_of(s, step)[i]).len() == step,
        rest_of(s, step).len() < step,
{
    let n = s.len() as int / step;
    lemma_div_bounds(s.len() as int, step);
    lemma_flat_chunks(s, step, n);
    assert(chunks_of(s, step).take(n) =~= chunks_of(s, step));
    assert(flat(chunks_of(s, step)) + rest_of(s, step) =~= s);
    assert forall|i: int| 0 <= i < chunks_of(s, step).len() implies (#[trigger] chunks_of(
        s,
        step,
    )[i]).len() == step by {
        lemma_chunk_in_range(s.len() as int, step, i);
    }
}

proof fn lemma_chunk_in_range(n: int, step: int, i: int)
    requires
        step > 0,
        n >= 0,
        0 <= i < n / step,
    ensures
        0 <= i * step,
        i * step + step <= n,
        (i + 1) * step == i * step + step,
{
    lemma_div_bounds(n, step);
    assert((i + 1) * step == i * step + step) by (nonlinear_arith);
    vstd::arithmetic::mul::lemma_mul_inequality(i + 1, n / step, step);
    assert(0 <= i * step) by (nonlinear_arith)
        requires
            0 <= i,
            step > 0,
    ;
}

proof fn lemma_flat_chunks<S>(s: Seq<S>, step: int, k: int)
    requires
        step > 0,
        0 <= k <= s.len() as int / step,
    ensures
        0 <= k * step <= s.len(),
        flat(chunks_of(s, step).take(k)) == s.take(k * step),
    decreases k,
{
    let chunks = chunks_of(s, step);
    if k == 0 {
        assert(0 * step == 0);
        assert(flat(chunks.take(0)) =~= s.take(0));
    } else {
        lemma_flat_chunks(s, step, k - 1);
        lemma_chunk_in_range(s.len() as int, step, k - 1);
        assert(chunks.take(k).drop_last() =~= chunks.take(k - 1));
        assert(chunks.take(k).last() == s.subrange((k - 1) * step, k * step));
        assert(s.take((k - 1) * step) + s.subrange((k - 1) * step, k * step) =~= s.take(k * step));
    }
}

/// It does not matter at which moments audio is taken in: the chunks of two
/// portions, taken in one after the other, are the chunks of both at once.
pub proof fn law_portions_do_not_matter<S>(a: Seq<S>, b: Seq<S>, step: int)
    requires
        step > 0,
    ensures
        chunks_of(a + b, step) == chunks_of(a, step) + chunks_of(rest_of(a, step) + b, step),
        rest_of(a + b, step) == rest_of(rest_of(a, step) + b, step),
{
    let n = a.len() as int / step;
    let later = rest_of(a, step) + b;
    lemma_div_bounds(a.len() as int, step);
    lemma_div_bounds(later.len() as int, step);
    assert(later.len() == a.len() + b.len() - n * step);
    let m = later.len() as int / step;
    assert((a + b).len() as int / step == n + m) by {
        assert((n + m) * step == n * step + m * step) by (nonlinear_arith);
        lemma_quotient((a + b).len() as int, step, n + m);
    }
    assert((n + m) * step == n * step + m * step) by (nonlinear_arith);
    let whole = chunks_of(a + b, step);
    let split = chunks_of(a, step) + chunks_of(later, step);
    assert(whole.len() == split.len());
    assert forall|i: int| 0 <= i < whole.len() implies whole[i] == split[i] by {
        lemma_chunk_in_range((a + b).len() as int, step, i);
        if i < n {
            lemma_chunk_in_range(a.len() as int, step, i);
            assert(whole[i] =~= split[i]);
        } else {
            let j = i - n;
            lemma_chunk_in_range(later.len() as int, step, j);
            assert(i * step == n * step + j * step) by (nonlinear_arith)
                requires
                    j == i - n,
            ;
            assert((a + b).skip(n * step) =~= later);
            assert(whole[i] =~= later.subrange(j * step, j * step + step));
            assert(split[i] == chunks_of(later, step)[j]);
        }
    }
    assert(whole =~= split);
    assert(rest_of(a + b, step) =~= rest_of(later, step));
}

proof fn lemma_quotient(n: int, step: int, q: int)
    requires
        step > 0,
        q * step <= n < q * step + step,
    ensures
        n / step == q,
{
    vstd::arithmetic::div_mod::lemma_fundamental_div_mod_converse(n, step, q, n - q * step);
}

/// A chunk is as long as `step_ms` milliseconds at the given rate, a sample that
/// is not whole aside.
pub proof fn law_chunk_lasts_a_step(rate: u32, step_ms: u32)
    ensures
        chunk_len(rate, step_ms) * 1000 <= rate * step_ms < chunk_len(rate, step_ms) * 1000 + 1000,
{
    assert(0 <= rate * step_ms) by (nonlinear_arith)
        requires
            0 <= rate,
            0 <= step_ms,
    ;
}

/// Chunks are taken from the start of the audio, one behind the other, as many as
/// are full.
pub proof fn law_chunks_follow_each_other<S>(s: Seq<S>, step: int, i: int, k: int)
    requires
        step > 0,
        0 <= i < chunks_of(s, step).len(),
        0 <= k < step,
    ensures
        0 <= i * step + k < s.len(),
        chunks_of(s, step)[i].len() == step,
        chunks_of(s, step)[i][k] == s[i * step + k],
        chunks_of(s, step).len() * step <= s.len() < chunks_of(s, step).len() * step + step,
{
    lemma_div_bounds(s.len() as int, step);
    lemma_chunk_in_range(s.len() as int, step, i);
}

/// What is captured at another rate than wanted is converted, whatever the two
/// rates are: by `resample`, with these rates, or by `fallback` where that makes
/// nothing. What is captured at the wanted rate is only made one channel.
pub proof fn law_captured_audio_is_converted<
    S,
    M: Fn(&[S]) -> S,
    R: FnOnce(&Vec<S>, u32, u32) -> Option<Vec<S>>,
    L: FnOnce(&Vec<S>, u32, u32) -> Vec<S>,
>(mix: M, resample: R, fallback: L, source: Source, raw: Seq<S>, processed: Seq<S>) -> (r: (
    Vec<S>,
    Vec<S>,
))
    requires
        raw.len() > 0,
        converts(mix, resample, fallback, source, raw, processed),
    ensures
        dsp::mixes(mix, raw, source.channels as int, r.0@),
        r.1@ == processed,
        source.native_rate == source.target_rate ==> processed == r.0@,
        source.native_rate != source.target_rate ==> call_ensures(
            resample,
            (&r.0, source.native_rate, source.target_rate),
            Some(r.1),
        ) || (call_ensures(resample, (&r.0, source.native_rate, source.target_rate), None)
            && call_ensures(fallback, (&r.0, source.native_rate, source.target_rate), r.1)),
{
    let out = choose|out: Vec<S>|
        out@ == processed && #[trigger] dsp::processes(
            mix,
            resample,
            fallback,
            raw,
            source.channels as int,
            source.native_rate,
            source.target_rate,
            out,
        );
    let mono = dsp::law_other_rates_are_resampled(
        mix,
        resample,
        fallback,
        raw,
        source.channels as int,
        source.native_rate,
        source.target_rate,
        out,
    );
    (mono, out)
}

/// A recording that nobody stops goes on for exactly as long as it may: it ends
/// by time once that many seconds have passed, not a nanosecond before, and at
/// every later moment.
pub proof fn law_recording_lasts_as_long_as_it_may(
    elapsed_ns: u128,
    max_secs: u64,
    later_ns: u128,
    now: PollOutcome,
    later: PollOutcome,
    stopped: PollOutcome,
    unheard: bool,
)
    requires
        call_ensures(poll_outcome, (false, false, elapsed_ns, max_secs), now),
        call_ensures(poll_outcome, (false, false, later_ns, max_secs), later),
        call_ensures(poll_outcome, (true, unheard, elapsed_ns, max_secs), stopped),
        elapsed_ns <= later_ns,
    ensures
        now == PollOutcome::Continue || now == PollOutcome::TimedOut,
        now == PollOutcome::TimedOut ==> later == PollOutcome::TimedOut,
        now == PollOutcome::Continue <==> elapsed_ns < max_secs * 1_000_000_000,
        stopped == PollOutcome::Stopped,
{
}

/// Of nothing that was captured nothing comes.
pub proof fn law_nothing_comes_of_nothing<
    S,
    M: Fn(&[S]) -> S,
    R: FnOnce(&Vec<S>, u32, u32) -> Option<Vec<S>>,
    L: FnOnce(&Vec<S>, u32, u32) -> Vec<S>,
>(mix: M, resample: R, fallback: L, source: Source, processed: Seq<S>)
    requires
        converts(mix, resample, fallback, source, Seq::empty(), processed),
    ensures
        processed == Seq::<S>::empty(),
{
    assert(processed =~= Seq::<S>::empty());
}

} // verus!
