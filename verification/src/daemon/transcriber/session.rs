//! The streaming session: one recording, transcribed while it grows.

use vstd::prelude::*;
use crate::config::InferenceConfig;
use crate::config::ModelConfig;
use crate::daemon::transcriber;
use crate::daemon::transcriber::params;
use crate::daemon::transcriber::params::InferenceParams;
use crate::daemon::transcriber::params::SegmentText;
use crate::text;

verus! {

/// The number of samples in a second of audio, as the model takes it.
pub const SAMPLES_PER_SEC: usize = 16000;

/// The number of samples that stay when the window slides: two seconds.
pub const OVERLAP_SAMPLES: usize = 32000;

/// The number of bytes of earlier text that is kept as context.
pub const MAX_PROMPT_BYTES: usize = 1000;

/// A streaming session over samples of type `S`.
pub struct StreamingSession<S> {
    config: InferenceConfig,
    model_config: ModelConfig,
    audio_buffer: Vec<S>,
    prompt_text: String,
    last_words: Vec<String>,
    committed_cursor: usize,
    window_samples: usize,
    overlap_samples: usize,
    previous_window_tail: Vec<String>,
    is_first_chunk_after_slide: bool,
}

/// What a streaming session is, mathematically.
#[verifier::ext_equal]
pub ghost struct SessionView<S> {
    /// The audio of the window.
    pub audio: Seq<S>,
    /// The text of earlier windows that is kept as context.
    pub context: Seq<char>,
    /// The last hypothesis for the window.
    pub last_words: Seq<Seq<char>>,
    /// How many words of the window are committed.
    pub cursor: nat,
    /// The number of samples at which the window slides.
    pub window: nat,
    /// The number of samples that stay when the window slides.
    pub overlap: nat,
    /// The words that were committed in the window before.
    pub tail: Seq<Seq<char>>,
    /// Whether the window has just slid.
    pub after_slide: bool,
    /// The language spoken, or `auto`.
    pub language: Seq<char>,
    /// The configured prompt.
    pub prompt: Option<Seq<char>>,
    /// The number of threads that the model may use.
    pub n_threads: i32,
}

/// The length of the longest common beginning of two hypotheses.
pub open spec fn agreed(a: Seq<Seq<char>>, b: Seq<Seq<char>>) -> nat
    decreases a.len(),
{
    if a.len() > 0 && b.len() > 0 && transcriber::same_word(a[0], b[0]) {
        1 + agreed(a.drop_first(), b.drop_first())
    } else {
        0
    }
}

/// How many words two hypotheses settle: those that they agree on but the last,
/// whose sound may be cut off at the end of the audio.
pub open spec fn settled(a: Seq<Seq<char>>, b: Seq<Seq<char>>) -> nat {
    if agreed(a, b) > 0 {
        (agreed(a, b) - 1) as nat
    } else {
        0
    }
}

/// The longest end of `s` that takes no more than `n` bytes: it begins at the
/// first character at or behind its last `n` bytes.
pub open spec fn last_bytes(s: Seq<char>, n: nat) -> Seq<char>
    decreases s.len(),
{
    if s.len() == 0 || vstd::utf8::encode_utf8(s).len() <= n {
        s
    } else {
        last_bytes(s.drop_first(), n)
    }
}

/// The position of the first blank.
pub open spec fn first_blank(s: Seq<char>) -> Option<int>
    decreases s.len(),
{
    if s.len() == 0 {
        None
    } else {
        match first_blank(s.drop_last()) {
            Some(i) => Some(i),
            None => if s.last() == ' ' {
                Some(s.len() - 1)
            } else {
                None
            },
        }
    }
}

/// The end of `s` that is kept as context: all of it where it is short; else
/// what its last `MAX_PROMPT_BYTES` bytes hold, from the first blank on if there
/// is one.
pub open spec fn shortened(s: Seq<char>) -> Seq<char> {
    if vstd::utf8::encode_utf8(s).len() > MAX_PROMPT_BYTES {
        let end = last_bytes(s, MAX_PROMPT_BYTES as nat);
        match first_blank(end) {
            Some(i) => end.skip(i),
            None => end,
        }
    } else {
        s
    }
}

impl<S> SessionView<S> {
    /// The session before any audio.
    pub open spec fn initial(config: InferenceConfig, model_config: ModelConfig) -> SessionView<
        S,
    > {
        SessionView {
            audio: Seq::empty(),
            context: Seq::empty(),
            last_words: Seq::empty(),
            cursor: 0,
            window: (config.stream_window_secs * SAMPLES_PER_SEC) as nat,
            overlap: OVERLAP_SAMPLES as nat,
            tail: Seq::empty(),
            after_slide: false,
            language: model_config.language@,
            prompt: crate::config::prompt_of(config.system_prompt@, config.initial_prompt@),
            n_threads: model_config.n_threads,
        }
    }

    /// The words of the window that are committed: all of the last hypothesis
    /// where it is shorter than what was committed before.
    pub open spec fn committed(self) -> Seq<Seq<char>> {
        if self.cursor <= self.last_words.len() {
            self.last_words.take(self.cursor as int)
        } else {
            self.last_words
        }
    }

    /// The context with the committed words of the window added.
    pub open spec fn grown_context(self) -> Seq<char> {
        self.context + text::concat(self.committed())
    }

    /// The session after its window has slid: the committed words have become
    /// context, and only the end of the audio stays.
    pub open spec fn slid(self) -> SessionView<S> {
        SessionView {
            audio: if self.audio.len() > self.overlap {
                self.audio.skip(self.audio.len() - self.overlap)
            } else {
                self.audio
            },
            context: shortened(self.grown_context()),
            last_words: Seq::empty(),
            cursor: 0,
            tail: self.committed(),
            after_slide: true,
            ..self
        }
    }

    /// The session with more audio.
    pub open spec fn heard(self, chunk: Seq<S>) -> SessionView<S> {
        SessionView { audio: self.audio + chunk, ..self }
    }

    /// The session once it knows the next hypothesis, before the window slides.
    /// Right after a slide, the words that repeat the window before count as
    /// committed. Otherwise, the words that two hypotheses settle do.
    pub open spec fn told(self, words: Seq<Seq<char>>) -> SessionView<S> {
        if self.after_slide {
            SessionView {
                last_words: words,
                cursor: transcriber::overlap_len(self.tail, words),
                after_slide: false,
                ..self
            }
        } else {
            let safe = settled(self.last_words, words);
            SessionView {
                last_words: words,
                cursor: if safe > self.cursor {
                    safe
                } else {
                    self.cursor
                },
                ..self
            }
        }
    }

    /// Whether the window slides after the next hypothesis.
    pub open spec fn must_slide(self) -> bool {
        !self.after_slide && self.audio.len() >= self.window
    }

    /// The session after it has taken in the next hypothesis.
    pub open spec fn advanced(self, words: Seq<Seq<char>>) -> SessionView<S> {
        if self.must_slide() {
            self.told(words).slid()
        } else {
            self.told(words)
        }
    }

    /// The text to be typed once the next hypothesis is known: the words that
    /// become committed by agreement.
    pub open spec fn delta(self, words: Seq<Seq<char>>) -> Seq<char> {
        let safe = settled(self.last_words, words);
        if !self.after_slide && safe > self.cursor {
            text::concat(words.subrange(self.cursor as int, safe as int))
        } else {
            Seq::empty()
        }
    }

    /// Whether the session takes in the hypothesis `words`, gives `delta` to be
    /// typed and becomes `after`.
    pub open spec fn takes_in(
        self,
        words: Seq<Seq<char>>,
        delta: Seq<char>,
        after: SessionView<S>,
    ) -> bool {
        &&& delta == self.delta(words)
        &&& after == self.advanced(words)
    }

    /// The text to be typed when the recording ends.
    pub open spec fn rest(self) -> Seq<char> {
        if self.last_words.len() > self.cursor {
            text::concat(
                self.last_words.subrange(self.cursor as int, self.last_words.len() as int),
            )
        } else {
            Seq::empty()
        }
    }

    /// The session after the recording has ended.
    pub open spec fn flushed(self) -> SessionView<S> {
        SessionView {
            cursor: if self.last_words.len() > self.cursor {
                self.last_words.len()
            } else {
                self.cursor
            },
            ..self
        }
    }

    /// The prompt for the next run: the configured one, then the context.
    pub open spec fn full_prompt(self) -> Option<Seq<char>> {
        let p = (match self.prompt {
            Some(t) => t.push(' '),
            None => Seq::empty(),
        }) + self.context;
        if p.len() == 0 {
            None
        } else {
            Some(p)
        }
    }

    /// The language for the next run.
    pub open spec fn asked_language(self) -> Option<Seq<char>> {
        if self.language == "auto"@ {
            None
        } else {
            Some(self.language)
        }
    }

    /// Whether `p` is what the next run is asked.
    pub open spec fn next_run(self, p: InferenceParams) -> bool {
        params::asks(p, self.asked_language(), false, self.full_prompt(), None, self.n_threads)
    }
}

/// The text of a segment in a streaming session: what is missing or is no valid
/// text counts as empty.
pub open spec fn lenient_text(s: SegmentText) -> Seq<char> {
    match s {
        SegmentText::Text(t) => t@,
        _ => Seq::empty(),
    }
}

/// The texts of the segments, one after the other, without those that stand for
/// no speech.
pub open spec fn heard_text(segments: Seq<SegmentText>) -> Seq<char>
    decreases segments.len(),
{
    if segments.len() == 0 {
        Seq::empty()
    } else {
        let before = heard_text(segments.drop_last());
        let t = lenient_text(segments.last());
        if transcriber::artifact(text::trimmed(t)) {
            before
        } else {
            before + t
        }
    }
}

/// The text that a streaming session makes of the model's answer.
pub fn collect_text(segments: &Vec<SegmentText>) -> (r: String)
    ensures
        r@ == heard_text(segments@),
{
    let n: usize = segments.len();
    let mut full: String = String::new();
    let mut i: usize = 0;
    proof {
        assert(segments@.take(0) =~= Seq::<SegmentText>::empty());
    }
    while i < n
        invariant
            n == segments@.len(),
            i <= n,
            full@ == heard_text(segments@.take(i as int)),
        decreases n - i,
    {
        proof {
            assert(segments@.take(i + 1).drop_last() =~= segments@.take(i as int));
            assert(segments@.take(i + 1).last() == segments@[i as int]);
            assert(text::trimmed(Seq::<char>::empty()) =~= Seq::<char>::empty());
        }
        if let SegmentText::Text(t) = &segments[i] {
            let s: String = text::trim(t.as_str());
            if !transcriber::is_artifact(s.as_str()) {
                full.append(t.as_str());
            }
        }
        i += 1;
    }
    proof {
        assert(segments@.take(n as int) =~= segments@);
    }
    full
}

/// Whether `infer` may answer `out` when it is given the audio of the session
/// and what the next run is asked.
pub open spec fn answers<S, F: FnOnce(&Vec<S>, &InferenceParams) -> Result<Vec<SegmentText>, String>>(
    v: SessionView<S>,
    infer: F,
    out: Result<Vec<SegmentText>, String>,
) -> bool {
    exists|audio: Vec<S>, p: InferenceParams|
        audio@ == v.audio && v.next_run(p) && #[trigger] call_ensures(infer, (&audio, &p), out)
}

/// Two hypotheses agree on no more words than either holds.
pub proof fn lemma_agreed_bound(a: Seq<Seq<char>>, b: Seq<Seq<char>>)
    ensures
        agreed(a, b) <= a.len(),
        agreed(a, b) <= b.len(),
    decreases a.len(),
{
    if a.len() > 0 && b.len() > 0 && transcriber::same_word(a[0], b[0]) {
        lemma_agreed_bound(a.drop_first(), b.drop_first());
    }
}

/// How many words are committed once the next hypothesis is known.
fn next_cursor(last: &Vec<String>, words: &Vec<String>, cursor: usize) -> (r: usize)
    ensures
        r == (if settled(text::views(last@), text::views(words@)) > cursor {
            settled(text::views(last@), text::views(words@))
        } else {
            cursor as nat
        }),
{
    let ghost a = text::views(last@);
    let ghost b = text::views(words@);
    let mut n: usize = 0;
    proof {
        assert(a.skip(0) =~= a);
        assert(b.skip(0) =~= b);
    }
    while n < last.len() && n < words.len() && transcriber::words_agree(&last[n], &words[n])
        invariant
            a == text::views(last@),
            b == text::views(words@),
            n <= last@.len(),
            n <= words@.len(),
            agreed(a, b) == n + agreed(a.skip(n as int), b.skip(n as int)),
        decreases last@.len() - n,
    {
        proof {
            assert(a.skip(n as int)[0] == last@[n as int]@);
            assert(b.skip(n as int)[0] == words@[n as int]@);
            assert(a.skip(n as int).drop_first() =~= a.skip(n + 1));
            assert(b.skip(n as int).drop_first() =~= b.skip(n + 1));
        }
        n += 1;
    }
    proof {
        if n < last@.len() && n < words@.len() {
            assert(a.skip(n as int)[0] == last@[n as int]@);
            assert(b.skip(n as int)[0] == words@[n as int]@);
        }
        assert(agreed(a.skip(n as int), b.skip(n as int)) == 0);
    }
    let safe: usize = if n > 0 {
        n - 1
    } else {
        0
    };
    if safe > cursor {
        safe
    } else {
        cursor
    }
}

/// The first `n` words.
fn first_words(words: &Vec<String>, n: usize) -> (r: Vec<String>)
    requires
        n <= words@.len(),
    ensures
        text::views(r@) == text::views(words@).take(n as int),
{
    let mut r: Vec<String> = Vec::new();
    let mut i: usize = 0;
    while i < n
        invariant
            i <= n <= words@.len(),
            r@.len() == i,
            forall|k: int| 0 <= k < i ==> (#[trigger] r@[k])@ == words@[k]@,
        decreases n - i,
    {
        r.push(words[i].clone());
        i += 1;
    }
    proof {
        assert(text::views(r@) =~= text::views(words@).take(n as int));
    }
    r
}

/// The end of a text that is kept as context.
fn shorten(s: &str) -> (r: String)
    ensures
        r@ == shortened(s@),
{
    let mut bytes: usize = s.as_bytes().len();
    if bytes <= MAX_PROMPT_BYTES {
        return s.to_owned();
    }
    let v: Vec<char> = text::to_chars(s);
    let len: usize = v.len();
    let mut start: usize = 0;
    proof {
        assert(s@.skip(0) =~= s@);
    }
    while bytes > MAX_PROMPT_BYTES
        invariant
            v@ == s@,
            len == v@.len(),
            start <= len,
            bytes == vstd::utf8::encode_utf8(s@.skip(start as int)).len(),
            last_bytes(s@, MAX_PROMPT_BYTES as nat) == last_bytes(
                s@.skip(start as int),
                MAX_PROMPT_BYTES as nat,
            ),
        decreases v@.len() - start,
    {
        proof {
            let rest = s@.skip(start as int);
            assert(rest.len() > 0);
            assert(rest[0] == v@[start as int]);
            assert(rest.drop_first() =~= s@.skip(start + 1));
        }
        bytes -= text::width(v[start]);
        start += 1;
    }
    let ghost end = s@.skip(start as int);
    let mut i: usize = start;
    proof {
        assert(end == last_bytes(s@, MAX_PROMPT_BYTES as nat));
        assert(end.take(0) =~= Seq::<char>::empty());
    }
    while i < v.len()
        invariant
            v@ == s@,
            start <= i <= v@.len(),
            end == s@.skip(start as int),
            end == last_bytes(s@, MAX_PROMPT_BYTES as nat),
            first_blank(end.take(i - start)) is None,
            vstd::utf8::encode_utf8(s@).len() > MAX_PROMPT_BYTES,
        decreases v@.len() - i,
    {
        proof {
            assert(end.take(i - start + 1).drop_last() =~= end.take(i - start));
            assert(end.take(i - start + 1).last() == v@[i as int]);
        }
        if v[i] == ' ' {
            proof {
                lemma_first_blank(end, i - start);
                assert(end.skip(i - start) =~= s@.subrange(i as int, s@.len() as int));
            }
            return text::from_chars(&v, i, v.len());
        }
        i += 1;
    }
    proof {
        assert(end.take(end.len() as int) =~= end);
        assert(end =~= s@.subrange(start as int, s@.len() as int));
    }
    text::from_chars(&v, start, v.len())
}

/// The first blank of a beginning of a text is the first of the whole text.
proof fn lemma_first_blank(s: Seq<char>, i: int)
    requires
        0 <= i < s.len(),
        first_blank(s.take(i + 1)) == Some(i),
    ensures
        first_blank(s) == Some(i),
    decreases s.len(),
{
    if i + 1 == s.len() {
        assert(s.take(i + 1) =~= s);
    } else {
        assert(s.drop_last().take(i + 1) =~= s.take(i + 1));
        lemma_first_blank(s.drop_last(), i);
    }
}

impl<S: Copy> StreamingSession<S> {
    pub closed spec fn view(&self) -> SessionView<S> {
        SessionView {
            audio: self.audio_buffer@,
            context: self.prompt_text@,
            last_words: text::views(self.last_words@),
            cursor: self.committed_cursor as nat,
            window: self.window_samples as nat,
            overlap: self.overlap_samples as nat,
            tail: text::views(self.previous_window_tail@),
            after_slide: self.is_first_chunk_after_slide,
            language: self.model_config.language@,
            prompt: crate::config::prompt_of(
                self.config.system_prompt@,
                self.config.initial_prompt@,
            ),
            n_threads: self.model_config.n_threads,
        }
    }

    /// An empty session.
    pub fn new(config: InferenceConfig, model_config: ModelConfig) -> (s: Self)
        requires
            config.stream_window_secs * SAMPLES_PER_SEC <= usize::MAX,
        ensures
            s@ == SessionView::<S>::initial(config, model_config),
    {
        let window_samples: usize = config.stream_window_secs as usize * SAMPLES_PER_SEC;
        let s = StreamingSession {
            config,
            model_config,
            audio_buffer: Vec::new(),
            prompt_text: String::new(),
            last_words: Vec::new(),
            committed_cursor: 0,
            window_samples,
            overlap_samples: OVERLAP_SAMPLES,
            previous_window_tail: Vec::new(),
            is_first_chunk_after_slide: false,
        };
        proof {
            assert(text::views(s.last_words@) =~= Seq::<Seq<char>>::empty());
            assert(text::views(s.previous_window_tail@) =~= Seq::<Seq<char>>::empty());
        }
        s
    }

    /// The words that `infer` hears in the audio of the session.
    fn run_inference<F>(&self, infer: F) -> (r: Result<Vec<String>, String>) where
        F: FnOnce(&Vec<S>, &InferenceParams) -> Result<Vec<SegmentText>, String>,

        requires
            forall|audio: &Vec<S>, p: &InferenceParams| call_requires(infer, (audio, p)),
        ensures
            match r {
                Ok(words) => exists|segments: Vec<SegmentText>|
                    #[trigger] answers(self@, infer, Ok(segments)) && text::views(words@)
                        == transcriber::words_of(heard_text(segments@)),
                Err(message) => exists|cause: String|
                    #[trigger] answers(self@, infer, Err(cause)) && message@
                        == "Erro na inferência: "@ + cause@,
            },
    {
        let language: Option<String> = if text::same_text(
            self.model_config.language.as_str(),
            "auto",
        ) {
            None
        } else {
            Some(self.model_config.language.clone())
        };
        let mut full_prompt: String = String::new();
        if let Some(p) = self.config.effective_prompt() {
            full_prompt.append(p.as_str());
            full_prompt.append(" ");
            proof {
                reveal_strlit(" ");
                assert(full_prompt@ =~= p@.push(' '));
            }
        }
        if !self.prompt_text.as_str().is_empty() {
            full_prompt.append(self.prompt_text.as_str());
        } else {
            proof {
                assert(full_prompt@ + self.prompt_text@ =~= full_prompt@);
            }
        }
        let initial_prompt: Option<String> = if full_prompt.as_str().is_empty() {
            None
        } else {
            Some(full_prompt)
        };
        let p = InferenceParams {
            language,
            detect_language: false,
            initial_prompt,
            n_max_text_ctx: None,
            n_threads: self.model_config.n_threads,
            token_timestamps: false,
            suppress_blank: true,
            suppress_non_speech: true,
            translate: false,
        };
        proof {
            assert(self@.next_run(p));
        }
        let out: Result<Vec<SegmentText>, String> = infer(&self.audio_buffer, &p);
        proof {
            assert(call_ensures(infer, (&self.audio_buffer, &p), out));
            assert(answers(self@, infer, out));
        }
        match out {
            Ok(segments) => {
                let full: String = collect_text(&segments);
                Ok(transcriber::split_words(full.as_str()))
            },
            Err(cause) => {
                let mut message: String = "Erro na inferência: ".to_owned();
                message.append(cause.as_str());
                Err(message)
            },
        }
    }

    /// Adds audio to the window.
    pub fn hear(&mut self, chunk: &[S])
        ensures
            final(self)@ == old(self)@.heard(chunk@),
    {
        let mut i: usize = 0;
        while i < chunk.len()
            invariant
                i <= chunk@.len(),
                self@ == old(self)@.heard(chunk@.take(i as int)),
            decreases chunk@.len() - i,
        {
            self.audio_buffer.push(chunk[i]);
            i += 1;
            proof {
                assert(self@ =~= old(self)@.heard(chunk@.take(i as int)));
            }
        }
        proof {
            assert(chunk@.take(chunk@.len() as int) =~= chunk@);
        }
    }

    /// Takes in the hypothesis `words` for the audio of the window, and gives the
    /// text to be typed.
    pub fn advance(&mut self, words: Vec<String>) -> (delta: String)
        ensures
            delta@ == old(self)@.delta(text::views(words@)),
            final(self)@ == old(self)@.advanced(text::views(words@)),
    {
        if self.is_first_chunk_after_slide {
            let n: usize = transcriber::find_overlap(&self.previous_window_tail, &words);
            self.committed_cursor = n;
            self.last_words = words;
            self.is_first_chunk_after_slide = false;
            proof {
                assert(self@ =~= old(self)@.advanced(text::views(words@)));
            }
            return String::new();
        }
        let cursor: usize = next_cursor(&self.last_words, &words, self.committed_cursor);
        let mut delta: String = String::new();
        if cursor > self.committed_cursor {
            proof {
                lemma_agreed_bound(text::views(self.last_words@), text::views(words@));
            }
            delta = text::concat_range(&words, self.committed_cursor, cursor);
            self.committed_cursor = cursor;
        }
        self.last_words = words;
        proof {
            assert(self@ =~= old(self)@.told(text::views(words@)));
        }
        if self.audio_buffer.len() >= self.window_samples {
            self.slide();
        }
        delta
    }

    /// Slides the window.
    fn slide(&mut self)
        ensures
            final(self)@ == old(self)@.slid(),
    {
        let ghost v = self@;
        let cursor: usize = if self.committed_cursor <= self.last_words.len() {
            self.committed_cursor
        } else {
            self.last_words.len()
        };
        proof {
            assert(v.last_words.take(cursor as int) =~= v.committed());
        }
        let tail: Vec<String> = first_words(&self.last_words, cursor);
        let committed: String = text::concat_range(&self.last_words, 0, cursor);
        proof {
            assert(v.last_words.subrange(0, cursor as int) =~= v.committed());
        }
        self.previous_window_tail = tail;
        let mut context: String = self.prompt_text.clone();
        context.append(committed.as_str());
        self.prompt_text = shorten(context.as_str());

        let n: usize = self.audio_buffer.len();
        let keep_start: usize = if n > self.overlap_samples {
            n - self.overlap_samples
        } else {
            0
        };
        let mut kept: Vec<S> = Vec::new();
        let mut i: usize = keep_start;
        while i < n
            invariant
                n == self.audio_buffer@.len(),
                keep_start <= i <= n,
                kept@ == self.audio_buffer@.subrange(keep_start as int, i as int),
            decreases n - i,
        {
            kept.push(self.audio_buffer[i]);
            i += 1;
        }
        self.audio_buffer = kept;
        self.last_words = Vec::new();
        self.committed_cursor = 0;
        self.is_first_chunk_after_slide = true;
        proof {
            assert(text::views(self.last_words@) =~= Seq::<Seq<char>>::empty());
            assert(self@.audio =~= v.slid().audio);
            assert(self@ =~= v.slid());
        }
    }

    /// Processes the next chunk of audio: `infer` is run on the audio of the
    /// window with the chunk added, and its answer is taken in. The result is the
    /// text to be typed. Where there is no answer, the result is a message, and
    /// the session has only heard the chunk.
    pub fn process_chunk<F>(&mut self, chunk: &[S], infer: F) -> (r: Result<String, String>) where
        F: FnOnce(&Vec<S>, &InferenceParams) -> Result<Vec<SegmentText>, String>,

        requires
            forall|audio: &Vec<S>, p: &InferenceParams| call_requires(infer, (audio, p)),
        ensures
            match r {
                Ok(delta) => exists|segments: Vec<SegmentText>|
                    #[trigger] answers(old(self)@.heard(chunk@), infer, Ok(segments))
                        && old(self)@.heard(chunk@).takes_in(
                        transcriber::words_of(heard_text(segments@)),
                        delta@,
                        final(self)@,
                    ),
                Err(message) => final(self)@ == old(self)@.heard(chunk@) && exists|cause: String|
                    #[trigger] answers(old(self)@.heard(chunk@), infer, Err(cause)) && message@
                        == "Erro na inferência: "@ + cause@,
            },
    {
        self.hear(chunk);
        match self.run_inference(infer) {
            Err(message) => Err(message),
            Ok(words) => Ok(self.advance(words)),
        }
    }

    /// Ends the recording: the words of the last hypothesis that are not
    /// committed are given without delay.
    pub fn flush(&mut self) -> (delta: String)
        ensures
            delta@ == old(self)@.rest(),
            final(self)@ == old(self)@.flushed(),
    {
        let mut delta: String = String::new();
        let n: usize = self.last_words.len();
        if n > self.committed_cursor {
            delta = text::concat_range(&self.last_words, self.committed_cursor, n);
            self.committed_cursor = n;
        }
        proof {
            assert(self@ =~= old(self)@.flushed());
        }
        delta
    }
}

} // verus!
