//! What the model is asked, and what its answer amounts to.

use vstd::prelude::*;
use crate::daemon::transcriber;
use crate::text;

verus! {

/// What a run of the model is asked. Sampling is greedy with one candidate, and
/// nothing is printed.
#[derive(Debug, Clone)]
pub struct InferenceParams {
    /// The language spoken; none where the model detects it.
    pub language: Option<String>,
    /// Whether language detection is asked for explicitly.
    pub detect_language: bool,
    /// Text that sets the context.
    pub initial_prompt: Option<String>,
    /// The limit on context from earlier text, where one is set.
    pub n_max_text_ctx: Option<i32>,
    pub n_threads: i32,
    pub token_timestamps: bool,
    pub suppress_blank: bool,
    pub suppress_non_speech: bool,
    pub translate: bool,
}

/// The text of an optional string.
pub open spec fn opt_view(s: Option<String>) -> Option<Seq<char>> {
    match s {
        Some(t) => Some(t@),
        None => None,
    }
}

/// One segment of the model's answer.
#[derive(Debug, Clone)]
pub enum SegmentText {
    /// The model has no such segment.
    Missing,
    /// The segment is no valid text; the cause is given.
    Invalid(String),
    Text(String),
}

/// Whether a run is asked as every run is, with the given language, prompt,
/// context limit and number of threads.
pub open spec fn asks(
    p: InferenceParams,
    language: Option<Seq<char>>,
    detect_language: bool,
    prompt: Option<Seq<char>>,
    n_max_text_ctx: Option<i32>,
    n_threads: i32,
) -> bool {
    &&& opt_view(p.language) == language
    &&& p.detect_language == detect_language
    &&& opt_view(p.initial_prompt) == prompt
    &&& p.n_max_text_ctx == n_max_text_ctx
    &&& p.n_threads == n_threads
    &&& !p.token_timestamps
    &&& p.suppress_blank
    &&& p.suppress_non_speech
    &&& !p.translate
}

/// What a run over one segment of a long recording is asked: detection is asked
/// for where no language is given, and the context limit is one at least.
pub fn segment_params(
    language: &Option<String>,
    prompt: &Option<String>,
    n_past_tokens: i32,
    n_threads: i32,
) -> (p: InferenceParams)
    ensures
        asks(
            p,
            opt_view(*language),
            language is None,
            opt_view(*prompt),
            Some(if n_past_tokens >= 1 { n_past_tokens } else { 1i32 }),
            n_threads,
        ),
        match (*language, p.language) {
            (Some(a), Some(b)) => a@ == b@ && !p.detect_language,
            (None, None) => p.detect_language,
            _ => false,
        },
        match (*prompt, p.initial_prompt) {
            (Some(a), Some(b)) => a@ == b@,
            (None, None) => true,
            _ => false,
        },
        p.n_max_text_ctx matches Some(limit) && limit >= 1 && limit >= n_past_tokens && (limit == 1
            || limit == n_past_tokens),
        p.n_threads == n_threads,
        !p.token_timestamps && p.suppress_blank && p.suppress_non_speech && !p.translate,
{
    let limit: i32 = if n_past_tokens >= 1 {
        n_past_tokens
    } else {
        1
    };
    InferenceParams {
        language: match language {
            Some(l) => Some(l.clone()),
            None => None,
        },
        detect_language: language.is_none(),
        initial_prompt: match prompt {
            Some(t) => Some(t.clone()),
            None => None,
        },
        n_max_text_ctx: Some(limit),
        n_threads,
        token_timestamps: false,
        suppress_blank: true,
        suppress_non_speech: true,
        translate: false,
    }
}

/// Why the answer for a segment of a long recording cannot be used.
#[derive(Debug, Clone)]
pub enum SegmentError {
    /// The model failed; the cause is given.
    Inference(String),
    /// The segment with this number is missing.
    Missing(usize),
    /// The segment with this number is no valid text; the cause is given.
    Invalid(usize, String),
}

impl SegmentError {
    /// The message for the user.
    pub open spec fn message_of(self) -> Seq<char> {
        match self {
            SegmentError::Inference(cause) => "Erro na inferência Whisper: "@ + cause@,
            SegmentError::Missing(i) => "Segmento "@ + text::numeral(i as nat, 10)
                + " fora do range"@,
            SegmentError::Invalid(i, cause) => "Erro ao obter texto do segmento "@ + text::numeral(
                i as nat,
                10,
            ) + ": "@ + cause@,
        }
    }

    /// The message for the user.
    pub fn message(&self) -> (s: String)
        ensures
            s@ == self.message_of(),
    {
        match self {
            SegmentError::Inference(cause) => {
                let mut s: String = "Erro na inferência Whisper: ".to_owned();
                s.append(cause.as_str());
                s
            },
            SegmentError::Missing(i) => {
                let mut s: String = "Segmento ".to_owned();
                s.append(text::to_numeral(*i as u64, 10).as_str());
                s.append(" fora do range");
                s
            },
            SegmentError::Invalid(i, cause) => {
                let mut s: String = "Erro ao obter texto do segmento ".to_owned();
                s.append(text::to_numeral(*i as u64, 10).as_str());
                s.append(": ");
                s.append(cause.as_str());
                s
            },
        }
    }
}

/// The first segment that is not text.
pub open spec fn first_bad(segments: Seq<SegmentText>) -> Option<int>
    decreases segments.len(),
{
    if segments.len() == 0 {
        None
    } else {
        match first_bad(segments.drop_last()) {
            Some(i) => Some(i),
            None => if segments.last() is Text {
                None
            } else {
                Some(segments.len() - 1)
            },
        }
    }
}

/// The texts of the segments, each trimmed, without those that stand for no
/// speech, with a blank between two.
pub open spec fn answer(segments: Seq<SegmentText>) -> Seq<char>
    decreases segments.len(),
{
    if segments.len() == 0 {
        Seq::empty()
    } else {
        let before = answer(segments.drop_last());
        match segments.last() {
            SegmentText::Text(t) => {
                let s = text::trimmed(t@);
                if transcriber::artifact(text::trimmed(s)) {
                    before
                } else if before.len() == 0 {
                    s
                } else {
                    before.push(' ') + s
                }
            },
            _ => before,
        }
    }
}

/// Whether `e` reports that `s`, the segment with number `i`, is not text.
pub open spec fn reports(e: SegmentError, s: SegmentText, i: int) -> bool {
    match s {
        SegmentText::Missing => e matches SegmentError::Missing(n) && n == i,
        SegmentText::Invalid(cause) => e matches SegmentError::Invalid(n, c) && n == i && c@
            == cause@,
        SegmentText::Text(_) => false,
    }
}

/// The text of the model's answer for one segment of a long recording. Every
/// part of the answer must be text.
pub fn collect_answer(segments: &Vec<SegmentText>) -> (r: Result<String, SegmentError>)
    ensures
        match (first_bad(segments@), r) {
            (None, Ok(t)) => t@ == answer(segments@),
            (Some(i), Err(e)) => reports(e, segments@[i], i),
            _ => false,
        },
{
    let n: usize = segments.len();
    let mut output: String = String::new();
    let mut i: usize = 0;
    proof {
        assert(segments@.take(0) =~= Seq::<SegmentText>::empty());
    }
    while i < n
        invariant
            n == segments@.len(),
            i <= n,
            first_bad(segments@.take(i as int)) is None,
            output@ == answer(segments@.take(i as int)),
        decreases n - i,
    {
        proof {
            assert(segments@.take(i + 1).drop_last() =~= segments@.take(i as int));
            assert(segments@.take(i + 1).last() == segments@[i as int]);
        }
        match &segments[i] {
            SegmentText::Missing => {
                proof {
                    lemma_first_bad(segments@, i as int);
                }
                return Err(SegmentError::Missing(i));
            },
            SegmentText::Invalid(cause) => {
                proof {
                    lemma_first_bad(segments@, i as int);
                }
                return Err(SegmentError::Invalid(i, cause.clone()));
            },
            SegmentText::Text(t) => {
                let s: String = text::trim(t.as_str());
                if !transcriber::postprocess::should_skip_segment(s.as_str()) {
                    if !output.as_str().is_empty() {
                        output.push(' ');
                    } else {
                        proof {
                            assert(output@ + s@ =~= s@);
                        }
                    }
                    output.append(s.as_str());
                }
            },
        }
        i += 1;
    }
    proof {
        assert(segments@.take(n as int) =~= segments@);
    }
    Ok(output)
}

/// The first segment that is not text, found in a beginning of the list, is the
/// first of the whole list.
proof fn lemma_first_bad(segments: Seq<SegmentText>, i: int)
    requires
        0 <= i < segments.len(),
        first_bad(segments.take(i + 1)) == Some(i),
    ensures
        first_bad(segments) == Some(i),
    decreases segments.len(),
{
    if i + 1 == segments.len() {
        assert(segments.take(i + 1) =~= segments);
    } else {
        assert(segments.drop_last().take(i + 1) =~= segments.take(i + 1));
        lemma_first_bad(segments.drop_last(), i);
    }
}

/// A message about a failure tells its cause, and the number of the segment where
/// it is about one.
pub proof fn law_messages_tell_causes(i: usize, cause: String) -> (r: (
    Seq<char>,
    (Seq<char>, Seq<char>),
    (Seq<char>, Seq<char>),
))
    ensures
        SegmentError::Inference(cause).message_of() == r.0 + cause@,
        SegmentError::Missing(i).message_of() == r.1.0 + text::numeral(i as nat, 10) + r.1.1,
        SegmentError::Invalid(i, cause).message_of() == r.2.0 + text::numeral(i as nat, 10) + r.2.1
            + cause@,
{
    (
        "Erro na inferência Whisper: "@,
        ("Segmento "@, " fora do range"@),
        ("Erro ao obter texto do segmento "@, ": "@),
    )
}

} // verus!
