//! Transcribing a long recording in overlapping segments.

use vstd::prelude::*;
use crate::daemon::transcriber::params;
use crate::daemon::transcriber::params::InferenceParams;
use crate::daemon::transcriber::params::SegmentError;
use crate::daemon::transcriber::params::SegmentText;
use crate::daemon::transcriber::postprocess;
use crate::daemon::transcriber::word_laws;
use crate::text;

verus! {

/// How a long recording is transcribed.
#[derive(Debug, Clone)]
pub struct SegmentRunOptions {
    /// The number of samples in a segment.
    pub segment_samples: usize,
    /// The number of samples that two neighbouring segments share.
    pub overlap_samples: usize,
    pub prompt: Option<String>,
    pub language: Option<String>,
    pub n_past_tokens: i32,
    pub n_threads: i32,
}

/// How far apart two neighbouring segments begin: one sample at least.
pub open spec fn step_of(segment: int, overlap: int) -> int {
    if segment - overlap >= 1 {
        segment - overlap
    } else {
        1
    }
}

/// The end of the segment that begins at `pos`.
pub open spec fn end_of(total: int, segment: int, pos: int) -> int {
    if pos + segment < total {
        pos + segment
    } else {
        total
    }
}

/// The segments of a recording of `total` samples from position `pos` on, each
/// by its begin and its end. The first that reaches the end is the last.
pub open spec fn segments_from(total: int, segment: int, step: int, pos: int) -> Seq<(int, int)>
    decreases
            (if total > pos {
                total - pos
            } else {
                0
            }),
{
    if pos >= total || step < 1 {
        Seq::empty()
    } else {
        let end = end_of(total, segment, pos);
        seq![(pos, end)] + (if end >= total {
            Seq::empty()
        } else {
            segments_from(total, segment, step, pos + step)
        })
    }
}

/// The segments of a recording of `total` samples.
pub open spec fn segments_of(total: int, segment: int, overlap: int) -> Seq<(int, int)> {
    segments_from(total, segment, step_of(segment, overlap), 0)
}

/// The parts of the transcription once the answer for the next segment is known.
/// A blank answer adds nothing. The words of an answer that repeat what came
/// before are removed where segments overlap.
pub open spec fn accepted(
    parts: Seq<Seq<char>>,
    answer: Seq<char>,
    first: bool,
    overlap: int,
) -> Seq<Seq<char>> {
    let t = text::trimmed(answer);
    if t.len() == 0 {
        parts
    } else if !first && parts.len() > 0 && overlap > 0 {
        parts.push(postprocess::without_repeat(parts, t))
    } else {
        parts.push(t)
    }
}

/// The parts of the transcription after all the answers.
pub open spec fn merged(answers: Seq<Seq<char>>, overlap: int) -> Seq<Seq<char>>
    decreases answers.len(),
{
    if answers.len() == 0 {
        Seq::empty()
    } else {
        accepted(
            merged(answers.drop_last(), overlap),
            answers.last(),
            answers.len() == 1,
            overlap,
        )
    }
}

/// Adds the answer for the next segment to the parts of the transcription.
pub fn accept_answer(parts: &mut Vec<String>, answer: &str, first: bool, overlap_samples: usize)
    ensures
        text::views(final(parts)@) == accepted(
            text::views(old(parts)@),
            answer@,
            first,
            overlap_samples as int,
        ),
{
    let t: String = text::trim(answer);
    if t.as_str().is_empty() {
        return;
    }
    let ghost before = text::views(parts@);
    let cleaned: String = if !first && parts.len() > 0 && overlap_samples > 0 {
        postprocess::remove_overlap_prefix(parts, t.as_str())
    } else {
        t
    };
    parts.push(cleaned);
    proof {
        assert(text::views(parts@) =~= before.push(cleaned@));
    }
}

/// Whether `run` may answer `out` for the samples `chunk`, asked as the options
/// say.
pub open spec fn answers<S, F: Fn(&[S], &InferenceParams) -> Result<Vec<SegmentText>, String>>(
    run: F,
    chunk: Seq<S>,
    opts: SegmentRunOptions,
    out: Result<Vec<SegmentText>, String>,
) -> bool {
    exists|samples: &[S], p: InferenceParams|
        samples@ == chunk && params::asks(
            p,
            params::opt_view(opts.language),
            opts.language is None,
            params::opt_view(opts.prompt),
            Some(if opts.n_past_tokens >= 1 { opts.n_past_tokens } else { 1i32 }),
            opts.n_threads,
        ) && #[trigger] call_ensures(run, (samples, &p), out)
}

/// Whether the transcription of `chunk` by `run` may be the text `t`.
pub open spec fn heard_as<S, F: Fn(&[S], &InferenceParams) -> Result<Vec<SegmentText>, String>>(
    run: F,
    chunk: Seq<S>,
    opts: SegmentRunOptions,
    t: Seq<char>,
) -> bool {
    exists|segments: Vec<SegmentText>| #[trigger]
        answers(run, chunk, opts, Ok(segments)) && params::first_bad(segments@) is None && t
            == params::answer(segments@)
}

/// Whether the transcription of `chunk` by `run` may fail with `e`.
pub open spec fn fails_with<S, F: Fn(&[S], &InferenceParams) -> Result<Vec<SegmentText>, String>>(
    run: F,
    chunk: Seq<S>,
    opts: SegmentRunOptions,
    e: SegmentError,
) -> bool {
    ||| e matches SegmentError::Inference(cause) && answers(run, chunk, opts, Err(cause))
    ||| exists|segments: Vec<SegmentText>|
        {
            &&& #[trigger] answers(run, chunk, opts, Ok(segments))
            &&& params::first_bad(segments@) matches Some(i)
            &&& params::reports(e, segments@[i], i)
        }
}

/// The text that `run` hears in one segment.
pub fn run_segment<S: Copy, F>(run: &F, audio: &[S], opts: &SegmentRunOptions) -> (r: Result<
    String,
    SegmentError,
>) where F: Fn(&[S], &InferenceParams) -> Result<Vec<SegmentText>, String>
    requires
        forall|samples: &[S], p: &InferenceParams| call_requires(*run, (samples, p)),
    ensures
        match r {
            Ok(t) => heard_as(*run, audio@, *opts, t@),
            Err(e) => fails_with(*run, audio@, *opts, e),
        },
{
    let p: InferenceParams = params::segment_params(
        &opts.language,
        &opts.prompt,
        opts.n_past_tokens,
        opts.n_threads,
    );
    let out: Result<Vec<SegmentText>, String> = run(audio, &p);
    proof {
        assert(call_ensures(*run, (audio, &p), out));
        assert(answers(*run, audio@, *opts, out));
    }
    match out {
        Err(cause) => Err(SegmentError::Inference(cause)),
        Ok(segments) => params::collect_answer(&segments),
    }
}

/// Whether `run` may hear the texts `heard` in the first segments of the audio.
pub open spec fn heard_so_far<
    S,
    F: Fn(&[S], &InferenceParams) -> Result<Vec<SegmentText>, String>,
>(run: F, audio: Seq<S>, opts: SegmentRunOptions, heard: Seq<Seq<char>>) -> bool {
    let plan = segments_of(
        audio.len() as int,
        opts.segment_samples as int,
        opts.overlap_samples as int,
    );
    &&& heard.len() <= plan.len()
    &&& forall|k: int|
        0 <= k < heard.len() ==> heard_as(
            run,
            audio.subrange(plan[k].0, plan[k].1),
            opts,
            #[trigger] heard[k],
        )
}

/// Whether the segment after those that were heard makes the transcription fail
/// with `e`.
pub open spec fn stops_with<
    S,
    F: Fn(&[S], &InferenceParams) -> Result<Vec<SegmentText>, String>,
>(run: F, audio: Seq<S>, opts: SegmentRunOptions, heard: Seq<Seq<char>>, e: SegmentError) -> bool {
    let plan = segments_of(
        audio.len() as int,
        opts.segment_samples as int,
        opts.overlap_samples as int,
    );
    let k = heard.len() as int;
    &&& k < plan.len()
    &&& fails_with(run, audio.subrange(plan[k].0, plan[k].1), opts, e)
}

/// Transcribes a long recording: `run` is applied to one segment after the
/// other, and what it hears is merged.
pub fn transcribe_long<S: Copy, F>(run: &F, audio: &[S], opts: &SegmentRunOptions) -> (r: Result<
    String,
    SegmentError,
>) where F: Fn(&[S], &InferenceParams) -> Result<Vec<SegmentText>, String>
    requires
        forall|samples: &[S], p: &InferenceParams| call_requires(*run, (samples, p)),
    ensures
        match r {
            Ok(t) => exists|heard: Seq<Seq<char>>|
                {
                    &&& #[trigger] heard_so_far(*run, audio@, *opts, heard)
                    &&& heard.len() == segments_of(
                        audio@.len() as int,
                        opts.segment_samples as int,
                        opts.overlap_samples as int,
                    ).len()
                    &&& t@ == text::joined(merged(heard, opts.overlap_samples as int), " "@)
                },
            Err(e) => exists|heard: Seq<Seq<char>>| #[trigger]
                heard_so_far(*run, audio@, *opts, heard) && stops_with(
                    *run,
                    audio@,
                    *opts,
                    heard,
                    e,
                ),
        },
{
    let total: usize = audio.len();
    let segment: usize = opts.segment_samples;
    let overlap: usize = opts.overlap_samples;
    let step: usize = if segment > overlap {
        segment - overlap
    } else {
        1
    };
    let ghost plan = segments_of(total as int, segment as int, overlap as int);
    let ghost mut heard: Seq<Seq<char>> = Seq::empty();
    let mut parts: Vec<String> = Vec::new();
    let mut pos: usize = 0;
    proof {
        assert(text::views(parts@) =~= merged(heard, overlap as int));
        assert(plan.skip(0) =~= plan);
    }
    while pos < total
        invariant
            forall|samples: &[S], p: &InferenceParams| call_requires(*run, (samples, p)),
            total == audio@.len(),
            segment == opts.segment_samples,
            overlap == opts.overlap_samples,
            step == step_of(segment as int, overlap as int),
            plan == segments_of(total as int, segment as int, overlap as int),
            heard.len() <= plan.len(),
            heard_so_far(*run, audio@, *opts, heard),
            (heard.len() == 0) == (pos == 0),
            plan.skip(heard.len() as int) == segments_from(
                total as int,
                segment as int,
                step as int,
                pos as int,
            ),
            text::views(parts@) == merged(heard, overlap as int),
        decreases total - pos,
    {
        let end: usize = if segment < total - pos {
            pos + segment
        } else {
            total
        };
        let ghost k = heard.len() as int;
        proof {
            let rest = plan.skip(k);
            assert(rest == segments_from(total as int, segment as int, step as int, pos as int));
            assert(rest.len() > 0);
            assert(rest[0] == (pos as int, end as int));
            assert(plan[k] == rest[0]);
        }
        let chunk: &[S] = vstd::slice::slice_subrange(audio, pos, end);
        let t: String = match run_segment(run, chunk, opts) {
            Ok(t) => t,
            Err(e) => {
                proof {
                    assert(stops_with(*run, audio@, *opts, heard, e));
                }
                return Err(e);
            },
        };
        accept_answer(&mut parts, t.as_str(), pos == 0, overlap);
        proof {
            let next = heard.push(t@);
            assert(next.drop_last() =~= heard);
            assert(heard_so_far(*run, audio@, *opts, next)) by {
                assert forall|j: int| 0 <= j < next.len() implies heard_as(
                    *run,
                    audio@.subrange(plan[j].0, plan[j].1),
                    *opts,
                    #[trigger] next[j],
                ) by {
                    if j < k {
                        assert(next[j] == heard[j]);
                    }
                }
            }
            heard = next;
            assert(plan.skip(k + 1) =~= plan.skip(k).drop_first());
        }
        if end >= total {
            proof {
                assert(plan.skip(k + 1).len() == 0);
            }
            return Ok(text::join(&parts, " "));
        }
        proof {
            assert(plan.skip(k).drop_first() =~= segments_from(
                total as int,
                segment as int,
                step as int,
                pos + step,
            ));
        }
        pos = pos + step;
    }
    proof {
        assert(plan.skip(heard.len() as int).len() == 0);
    }
    Ok(text::join(&parts, " "))
}

// ---------------------------------------------------------------------------
// Laws
// ---------------------------------------------------------------------------

/// The segments of a recording follow each other at equal distances, begin
/// inside the recording, end inside it and are no longer than asked.
proof fn lemma_segments(total: int, segment: int, step: int, pos: int, k: int)
    requires
        0 <= pos,
        segment >= 0,
        step >= 1,
        0 <= k < segments_from(total, segment, step, pos).len(),
    ensures
        ({
            let s = segments_from(total, segment, step, pos)[k];
            &&& s.0 == pos + k * step
            &&& 0 <= s.0 < total
            &&& s.1 == end_of(total, segment, s.0)
            &&& k < segments_from(total, segment, step, pos).len() - 1 ==> s.1 < total
        }),
    decreases k,
{
    if k > 0 {
        lemma_segments(total, segment, step, pos + step, k - 1);
        assert((k - 1) * step + step == k * step) by (nonlinear_arith);
        assert(segments_from(total, segment, step, pos)[k] == segments_from(
            total,
            segment,
            step,
            pos + step,
        )[k - 1]);
    } else {
        assert(0 * step == 0);
    }
}

/// The segment with number `k` begins `k` steps into the recording and is as
/// long as asked, or reaches the end.
pub proof fn law_segments_are_even(total: int, segment: int, overlap: int, k: int)
    requires
        segment >= 0,
        overlap >= 0,
        0 <= k < segments_of(total, segment, overlap).len(),
    ensures
        segments_of(total, segment, overlap)[k].0 == k * step_of(segment, overlap),
        segments_of(total, segment, overlap)[k].1 == end_of(
            total,
            segment,
            segments_of(total, segment, overlap)[k].0,
        ),
{
    lemma_segments(total, segment, step_of(segment, overlap), 0, k);
}

/// A recording that fits into a segment is one segment.
pub proof fn law_short_recording_is_one_segment(total: int, segment: int, overlap: int)
    requires
        0 < total <= segment,
        overlap >= 0,
    ensures
        segments_of(total, segment, overlap) == seq![(0int, total)],
{
    reveal_with_fuel(segments_from, 2);
}

/// Two neighbouring segments share exactly the overlap, where it is shorter than
/// a segment.
pub proof fn law_neighbours_share_overlap(total: int, segment: int, overlap: int, k: int)
    requires
        0 <= overlap < segment,
        0 <= k < segments_of(total, segment, overlap).len() - 1,
    ensures
        segments_of(total, segment, overlap)[k].1 - segments_of(total, segment, overlap)[k + 1].0
            == overlap,
{
    let step = step_of(segment, overlap);
    lemma_segments(total, segment, step, 0, k);
    lemma_segments(total, segment, step, 0, k + 1);
    assert((k + 1) * step == k * step + step) by (nonlinear_arith);
}

/// Every sample of the recording lies in a segment.
pub proof fn law_segments_cover_recording(total: int, segment: int, overlap: int, i: int)
    requires
        segment >= 1,
        overlap >= 0,
        0 <= i < total,
    ensures
        exists|k: int|
            0 <= k < segments_of(total, segment, overlap).len() && #[trigger] segments_of(
                total,
                segment,
                overlap,
            )[k].0 <= i < segments_of(total, segment, overlap)[k].1,
{
    let k = lemma_covered(total, segment, step_of(segment, overlap), 0, i);
    assert(segments_of(total, segment, overlap)[k].0 <= i);
}

proof fn lemma_covered(total: int, segment: int, step: int, pos: int, i: int) -> (k: int)
    requires
        1 <= step <= segment,
        0 <= pos <= i < total,
    ensures
        0 <= k < segments_from(total, segment, step, pos).len(),
        segments_from(total, segment, step, pos)[k].0 <= i < segments_from(
            total,
            segment,
            step,
            pos,
        )[k].1,
    decreases total - pos,
{
    let s = segments_from(total, segment, step, pos);
    let end = end_of(total, segment, pos);
    if i < end {
        assert(s[0] == (pos, end));
        0
    } else {
        let j = lemma_covered(total, segment, step, pos + step, i);
        assert(s[j + 1] == segments_from(total, segment, step, pos + step)[j]);
        j + 1
    }
}

/// The first segment begins the recording. Each begins so much behind the one
/// before that they share the overlap, one sample behind it at least, and is as
/// long as asked, or shorter where the recording ends. Each but the last ends
/// inside the recording; the last reaches its end.
pub proof fn law_segments_follow_each_other(total: int, segment: int, overlap: int, k: int)
    requires
        segment >= 0,
        overlap >= 0,
        0 <= k < segments_of(total, segment, overlap).len(),
    ensures
        ({
            let s = segments_of(total, segment, overlap);
            &&& s[0].0 == 0
            &&& 0 <= s[k].0 < total
            &&& k > 0 && overlap < segment ==> s[k].0 == s[k - 1].0 + segment - overlap
            &&& k > 0 && overlap >= segment ==> s[k].0 == s[k - 1].0 + 1
            &&& s[k].0 + segment <= total ==> s[k].1 == s[k].0 + segment
            &&& s[k].0 + segment >= total ==> s[k].1 == total
            &&& k < s.len() - 1 ==> s[k].1 < total
            &&& segment > 0 ==> s.last().1 == total
        }),
{
    let step = step_of(segment, overlap);
    let s = segments_of(total, segment, overlap);
    lemma_segments(total, segment, step, 0, k);
    lemma_segments(total, segment, step, 0, 0);
    assert(0 * step == 0) by (nonlinear_arith);
    if k > 0 {
        lemma_segments(total, segment, step, 0, k - 1);
        assert((k - 1) * step + step == k * step) by (nonlinear_arith);
    }
    lemma_last_segment(total, segment, step, 0);
}

proof fn lemma_last_segment(total: int, segment: int, step: int, pos: int)
    requires
        0 <= pos,
        segment >= 0,
        1 <= step,
        segment > 0 ==> step <= segment,
    ensures
        segment > 0 && pos < total ==> segments_from(total, segment, step, pos).len() > 0
            && segments_from(total, segment, step, pos).last().1 == total,
    decreases
            (if total > pos {
                total - pos
            } else {
                0
            }),
{
    if pos < total && segment > 0 {
        let end = end_of(total, segment, pos);
        if end < total {
            lemma_last_segment(total, segment, step, pos + step);
            let later = segments_from(total, segment, step, pos + step);
            assert((seq![(pos, end)] + later).last() == later.last());
        }
    }
}

/// A blank answer adds nothing. Every other answer adds one part, which is not
/// empty, behind those that were there, which stay as they are: the answer,
/// trimmed, for the first segment, where nothing was said before, and where
/// segments do not overlap; at every later boundary of segments that overlap,
/// however many parts there are, the answer without its repeat of the end of all
/// of them.
pub proof fn law_answer_adds_one_part(
    parts: Seq<Seq<char>>,
    answer: Seq<char>,
    first: bool,
    overlap: int,
)
    ensures
        ({
            let t = text::trimmed(answer);
            let after = accepted(parts, answer, first, overlap);
            &&& t.len() == 0 ==> after == parts
            &&& t.len() > 0 ==> {
                &&& after.len() == parts.len() + 1
                &&& after.drop_last() == parts
                &&& after.last().len() > 0
                &&& first ==> after.last() == t
                &&& overlap <= 0 ==> after.last() == t
                &&& parts.len() == 0 ==> after.last() == t
                &&& !first && overlap > 0 && parts.len() >= 1 ==> after.last()
                    == postprocess::without_repeat(parts, t)
            }
        }),
{
    let t = text::trimmed(answer);
    let after = accepted(parts, answer, first, overlap);
    if t.len() > 0 {
        postprocess::law_something_is_left(parts, t);
        assert(after.drop_last() =~= parts);
    }
}

/// At every boundary of segments that overlap, however many parts there are
/// before it, an answer that repeats the last eight, four or two of all the words
/// that were said so far, and goes on, adds only what it goes on with.
pub proof fn law_repeats_are_removed_at_every_boundary(
    parts: Seq<Seq<char>>,
    answer: Seq<char>,
    overlap: int,
    n: nat,
    a: Seq<char>,
    repeat: Seq<char>,
    rest: Seq<char>,
)
    requires
        parts.len() >= 1,
        overlap > 0,
        text::trimmed(answer) == a + repeat + rest,
        n == 8 || n == 4 || n == 2,
        word_laws::words_repeat_at(
            parts,
            a + repeat + rest,
            n,
            vstd::utf8::encode_utf8(a).len() as int,
        ),
        vstd::utf8::encode_utf8(repeat).len() == vstd::utf8::encode_utf8(
            postprocess::last_words(parts, n),
        ).len(),
        n < 8 ==> word_laws::words_are_new(parts, a + repeat + rest, 8),
        n < 4 ==> word_laws::words_are_new(parts, a + repeat + rest, 4),
        text::trimmed(rest).len() > 0,
    ensures
        accepted(parts, answer, false, overlap) == parts.push(text::trimmed(rest)),
{
    word_laws::law_repeated_words_are_removed(parts, n, a, repeat, rest);
    if text::trimmed(answer).len() == 0 {
        assert(rest.len() == 0);
        assert(text::trimmed(rest).len() == 0);
    }
}

/// The answers are taken in one after the other; only that of the first segment
/// has no boundary before it.
pub proof fn law_answers_are_merged_in_turn(
    answers: Seq<Seq<char>>,
    answer: Seq<char>,
    overlap: int,
)
    ensures
        merged(Seq::empty(), overlap) == Seq::<Seq<char>>::empty(),
        merged(answers.push(answer), overlap) == accepted(
            merged(answers, overlap),
            answer,
            answers.len() == 0,
            overlap,
        ),
        merged(answers, overlap).is_prefix_of(merged(answers.push(answer), overlap)),
        merged(answers.push(answer), overlap).len() == merged(answers, overlap).len() + (
        if text::trimmed(answer).len() > 0 {
            1int
        } else {
            0
        }),
{
    assert(answers.push(answer).drop_last() =~= answers);
    law_answer_adds_one_part(merged(answers, overlap), answer, answers.len() == 0, overlap);
}

/// Where segments do not overlap, nothing that was heard is removed: the parts
/// are the answers that are not blank, trimmed.
pub proof fn law_nothing_is_removed_without_overlap(answers: Seq<Seq<char>>)
    ensures
        merged(answers, 0) == Seq::new(
            answers.len(),
            |i: int| text::trimmed(answers[i]),
        ).filter(|t: Seq<char>| t.len() > 0),
    decreases answers.len(),
{
    reveal(Seq::filter);
    let all = Seq::new(answers.len(), |i: int| text::trimmed(answers[i]));
    if answers.len() == 0 {
        assert(merged(answers, 0) =~= all);
    } else {
        let init = answers.drop_last();
        law_nothing_is_removed_without_overlap(init);
        assert(all.drop_last() =~= Seq::new(init.len(), |i: int| text::trimmed(init[i])));
        assert(all.last() == text::trimmed(answers.last()));
    }
}

/// What `run` is asked for a segment: the audio of the segment, the language and
/// the prompt as given, detection where no language is, and context from a token
/// at least.
pub proof fn law_segment_is_asked_as_given<
    S,
    F: Fn(&[S], &InferenceParams) -> Result<Vec<SegmentText>, String>,
>(run: F, chunk: Seq<S>, opts: SegmentRunOptions, out: Result<Vec<SegmentText>, String>)
    requires
        answers(run, chunk, opts, out),
    ensures
        exists|samples: &[S], p: InferenceParams|
            {
                &&& #[trigger] call_ensures(run, (samples, &p), out)
                &&& samples@ == chunk
                &&& match (opts.language, p.language) {
                    (Some(a), Some(b)) => a@ == b@ && !p.detect_language,
                    (None, None) => p.detect_language,
                    _ => false,
                }
                &&& match (opts.prompt, p.initial_prompt) {
                    (Some(a), Some(b)) => a@ == b@,
                    (None, None) => true,
                    _ => false,
                }
                &&& p.n_max_text_ctx matches Some(limit) && limit >= 1 && limit
                    >= opts.n_past_tokens && (limit == 1 || limit == opts.n_past_tokens)
                &&& p.n_threads == opts.n_threads
                &&& !p.token_timestamps
                &&& p.suppress_blank
                &&& p.suppress_non_speech
                &&& !p.translate
            },
{
    let (samples, p) = choose|samples: &[S], p: InferenceParams|
        samples@ == chunk && params::asks(
            p,
            params::opt_view(opts.language),
            opts.language is None,
            params::opt_view(opts.prompt),
            Some(if opts.n_past_tokens >= 1 { opts.n_past_tokens } else { 1i32 }),
            opts.n_threads,
        ) && #[trigger] call_ensures(run, (samples, &p), out);
    assert(call_ensures(run, (samples, &p), out));
}

/// What is heard in a segment comes of an answer to it all of whose parts are
/// text.
pub proof fn law_heard_text_is_answered<
    S,
    F: Fn(&[S], &InferenceParams) -> Result<Vec<SegmentText>, String>,
>(run: F, chunk: Seq<S>, opts: SegmentRunOptions, t: Seq<char>)
    requires
        heard_as(run, chunk, opts, t),
    ensures
        exists|segments: Vec<SegmentText>|
            {
                &&& #[trigger] answers(run, chunk, opts, Ok(segments))
                &&& t == params::answer(segments@)
                &&& forall|j: int| 0 <= j < segments@.len() ==> #[trigger] segments@[j] is Text
            },
{
    let segments = choose|segments: Vec<SegmentText>| #[trigger]
        answers(run, chunk, opts, Ok(segments)) && params::first_bad(segments@) is None && t
            == params::answer(segments@);
    word_laws::law_first_bad_segment_is_found(segments@);
}

/// The text with number `k` is heard in the segment with that number; a failure
/// comes of the segment behind those that were heard.
pub proof fn law_each_segment_is_heard<
    S,
    F: Fn(&[S], &InferenceParams) -> Result<Vec<SegmentText>, String>,
>(
    run: F,
    audio: Seq<S>,
    opts: SegmentRunOptions,
    heard: Seq<Seq<char>>,
    k: int,
    e: SegmentError,
)
    requires
        heard_so_far(run, audio, opts, heard),
        0 <= k < heard.len() || stops_with(run, audio, opts, heard, e) && k == heard.len(),
    ensures
        ({
            let s = segments_of(
                audio.len() as int,
                opts.segment_samples as int,
                opts.overlap_samples as int,
            );
            &&& k < s.len()
            &&& k < heard.len() ==> heard_as(run, audio.subrange(s[k].0, s[k].1), opts, heard[k])
            &&& k == heard.len() ==> fails_with(run, audio.subrange(s[k].0, s[k].1), opts, e)
        }),
{
}

/// A segment fails with the model's own message, or with the number of the first
/// part of the answer that is missing or no text.
pub proof fn law_failures_are_told<
    S,
    F: Fn(&[S], &InferenceParams) -> Result<Vec<SegmentText>, String>,
>(run: F, chunk: Seq<S>, opts: SegmentRunOptions, e: SegmentError)
    requires
        fails_with(run, chunk, opts, e),
    ensures
        match e {
            SegmentError::Inference(cause) => answers(run, chunk, opts, Err(cause)),
            SegmentError::Missing(i) => exists|segments: Vec<SegmentText>|
                {
                    &&& #[trigger] answers(run, chunk, opts, Ok(segments))
                    &&& i < segments@.len()
                    &&& segments@[i as int] is Missing
                    &&& forall|j: int| 0 <= j < i ==> #[trigger] segments@[j] is Text
                },
            SegmentError::Invalid(i, cause) => exists|segments: Vec<SegmentText>|
                {
                    &&& #[trigger] answers(run, chunk, opts, Ok(segments))
                    &&& i < segments@.len()
                    &&& segments@[i as int] matches SegmentText::Invalid(c) && c@ == cause@
                    &&& forall|j: int| 0 <= j < i ==> #[trigger] segments@[j] is Text
                },
        },
{
    if !(e matches SegmentError::Inference(cause) && answers(run, chunk, opts, Err(cause))) {
        let segments = choose|segments: Vec<SegmentText>|
            {
                &&& #[trigger] answers(run, chunk, opts, Ok(segments))
                &&& params::first_bad(segments@) matches Some(i)
                &&& params::reports(e, segments@[i], i)
            };
        word_laws::law_first_bad_segment_is_found(segments@);
    }
}

} // verus!
