//! What holds of every streaming session.

use vstd::prelude::*;
use crate::daemon::transcriber;
use crate::daemon::transcriber::params;
use crate::daemon::transcriber::params::SegmentText;
use crate::daemon::transcriber::session;
use crate::daemon::transcriber::session::SessionView;
use crate::text;

verus! {

/// Two hypotheses agree on each word of their common beginning.
proof fn lemma_agreed_words(a: Seq<Seq<char>>, b: Seq<Seq<char>>, i: int)
    requires
        0 <= i < session::agreed(a, b),
    ensures
        i < a.len(),
        i < b.len(),
        transcriber::same_word(a[i], b[i]),
    decreases a.len(),
{
    if i > 0 {
        lemma_agreed_words(a.drop_first(), b.drop_first(), i - 1);
    }
}

/// A word is typed by agreement only where two successive hypotheses agree on it
/// and on a word after it: the last word that was heard is never typed before
/// the recording ends.
pub proof fn law_typed_words_are_settled<S>(v: SessionView<S>, words: Seq<Seq<char>>, i: int)
    requires
        !v.after_slide,
        v.cursor <= i < v.told(words).cursor,
    ensures
        i + 1 < words.len(),
        i + 1 < v.last_words.len(),
        transcriber::same_word(v.last_words[i], words[i]),
        transcriber::same_word(v.last_words[i + 1], words[i + 1]),
{
    lemma_agreed_words(v.last_words, words, i);
    lemma_agreed_words(v.last_words, words, i + 1);
}

/// Outside a slide, what is typed is exactly the words that become committed,
/// and no committed word is taken back: every word of a window is typed at most
/// once.
pub proof fn law_typed_is_newly_committed<S>(v: SessionView<S>, words: Seq<Seq<char>>)
    requires
        !v.after_slide,
    ensures
        v.cursor <= v.told(words).cursor,
        v.delta(words) == (if v.cursor < v.told(words).cursor {
            text::concat(words.subrange(v.cursor as int, v.told(words).cursor as int))
        } else {
            Seq::empty()
        }),
{
}

/// The first hypothesis after a slide types nothing, and the words at its start
/// that repeat the end of the window before are committed already.
pub proof fn law_repeated_words_are_not_typed<S>(v: SessionView<S>, words: Seq<Seq<char>>)
    requires
        v.after_slide,
    ensures
        v.delta(words) == Seq::<char>::empty(),
        !v.advanced(words).after_slide,
        transcriber::overlaps(v.tail, words, v.advanced(words).cursor as int),
        forall|n: int| #[trigger]
            transcriber::overlaps(v.tail, words, n) ==> n <= v.advanced(words).cursor,
{
    transcriber::law_overlap_is_longest(v.tail, words);
}

/// Ending a recording gives every word that is left: ending it again gives none.
pub proof fn law_flush_leaves_nothing<S>(v: SessionView<S>)
    ensures
        v.flushed().rest() == Seq::<char>::empty(),
        v.flushed().flushed() == v.flushed(),
{
    assert(v.flushed().flushed() =~= v.flushed());
}

/// A slide keeps the last samples, two seconds at most, and forgets the others.
pub proof fn law_slide_keeps_last_samples<S>(v: SessionView<S>)
    requires
        v.overlap == session::OVERLAP_SAMPLES,
    ensures
        v.slid().audio.len() <= session::OVERLAP_SAMPLES,
        v.slid().audio.is_suffix_of(v.audio),
        v.audio.len() >= session::OVERLAP_SAMPLES ==> v.slid().audio.len()
            == session::OVERLAP_SAMPLES,
{
    assert(v.slid().audio =~= v.audio.skip(v.audio.len() - v.slid().audio.len()));
}

/// Once the audio fills the window, taking in a hypothesis slides it: two seconds
/// of audio at most stay, and no word of the window.
pub proof fn law_full_window_slides<S>(v: SessionView<S>, words: Seq<Seq<char>>)
    requires
        !v.after_slide,
        v.audio.len() >= v.window,
        v.overlap == session::OVERLAP_SAMPLES,
    ensures
        v.advanced(words).after_slide,
        v.advanced(words).audio.len() <= session::OVERLAP_SAMPLES,
        v.advanced(words).last_words.len() == 0,
        v.advanced(words).cursor == 0,
{
}

/// A full window slides even where the hypothesis is shorter than what is
/// committed; nothing is typed then.
pub proof fn law_short_hypothesis_slides<S>(v: SessionView<S>, words: Seq<Seq<char>>)
    requires
        !v.after_slide,
        v.audio.len() >= v.window,
        words.len() < v.cursor,
    ensures
        v.delta(words) == Seq::<char>::empty(),
        v.advanced(words) == v.told(words).slid(),
        v.advanced(words).tail == words,
{
    session::lemma_agreed_bound(v.last_words, words);
}

/// The parts of a concatenation, taken from two ranges that meet, are the
/// concatenation of both.
proof fn lemma_concat_ranges(w: Seq<Seq<char>>, i: int, j: int, k: int)
    requires
        0 <= i <= j <= k <= w.len(),
    ensures
        text::concat(w.subrange(i, j)) + text::concat(w.subrange(j, k)) == text::concat(
            w.subrange(i, k),
        ),
{
    text::lemma_concat_append(w.subrange(i, j), w.subrange(j, k));
    assert(w.subrange(i, j) + w.subrange(j, k) =~= w.subrange(i, k));
}

proof fn lemma_agreed_self(w: Seq<Seq<char>>)
    ensures
        session::agreed(w, w) == w.len(),
    decreases w.len(),
{
    if w.len() > 0 {
        lemma_agreed_self(w.drop_first());
    }
}

/// Where a hypothesis is heard twice in a fresh window that does not slide, and
/// the recording then ends, exactly its text is typed.
pub proof fn law_stable_text_is_typed<S>(
    v: SessionView<S>,
    chunk: Seq<S>,
    heard_text: Seq<char>,
)
    requires
        v.last_words.len() == 0,
        v.cursor == 0,
        !v.after_slide,
        v.audio.len() + chunk.len() < v.window,
    ensures
        ({
            let words = transcriber::words_of(heard_text);
            let first = v.advanced(words);
            let second = first.heard(chunk);
            let third = second.advanced(words);
            v.delta(words) + second.delta(words) + third.rest() == heard_text
        }),
{
    let words = transcriber::words_of(heard_text);
    let first = v.advanced(words);
    let second = first.heard(chunk);
    let third = second.advanced(words);
    transcriber::law_words_keep_text(heard_text);
    lemma_agreed_self(words);
    assert(session::agreed(v.last_words, words) == 0);
    assert(first.last_words == words && first.cursor == 0);
    let n = words.len() as int;
    if n == 0 {
        assert(v.delta(words) + second.delta(words) + third.rest() =~= Seq::<char>::empty());
        assert(text::concat(words) == heard_text);
    } else {
        assert(third.cursor == n - 1);
        lemma_concat_ranges(words, 0, n - 1, n);
        assert(words.subrange(0, n) =~= words);
        if n == 1 {
            assert(words.subrange(0, 0) =~= Seq::<Seq<char>>::empty());
        }
        assert(second.delta(words) == text::concat(words.subrange(0, n - 1)));
        assert(third.rest() == text::concat(words.subrange(n - 1, n)));
        assert(v.delta(words) =~= Seq::<char>::empty());
        assert(v.delta(words) + second.delta(words) + third.rest() =~= text::concat(words));
    }
}

/// The bytes of a text, from a character on, are no more than the bytes of the
/// text.
proof fn lemma_suffix_bytes(s: Seq<char>, i: int)
    requires
        0 <= i <= s.len(),
    ensures
        vstd::utf8::encode_utf8(s.skip(i)).len() <= vstd::utf8::encode_utf8(s).len(),
    decreases i,
{
    if i == 0 {
        assert(s.skip(0) =~= s);
    } else {
        lemma_suffix_bytes(s.drop_first(), i - 1);
        assert(s.drop_first().skip(i - 1) =~= s.skip(i));
    }
}

proof fn lemma_first_blank_range(s: Seq<char>)
    ensures
        session::first_blank(s) matches Some(i) ==> 0 <= i < s.len() && s[i] == ' ',
    decreases s.len(),
{
    if s.len() > 0 {
        lemma_first_blank_range(s.drop_last());
    }
}

/// The end that is kept fits, and is an end of the text.
proof fn lemma_last_bytes(s: Seq<char>, n: nat)
    ensures
        vstd::utf8::encode_utf8(session::last_bytes(s, n)).len() <= n,
        session::last_bytes(s, n).is_suffix_of(s),
    decreases s.len(),
{
    if s.len() > 0 && vstd::utf8::encode_utf8(s).len() > n {
        lemma_last_bytes(s.drop_first(), n);
        let end = session::last_bytes(s, n);
        assert(end =~= s.skip(s.len() - end.len()));
    } else {
        assert(s =~= s.skip(0));
    }
}

/// What is kept as context is an end of the text, never longer than
/// `MAX_PROMPT_BYTES` bytes, and all of a text that is no longer.
pub proof fn law_context_is_short(s: Seq<char>)
    ensures
        vstd::utf8::encode_utf8(session::shortened(s)).len() <= session::MAX_PROMPT_BYTES,
        session::shortened(s).is_suffix_of(s),
        vstd::utf8::encode_utf8(s).len() <= session::MAX_PROMPT_BYTES ==> session::shortened(s)
            == s,
{
    if vstd::utf8::encode_utf8(s).len() > session::MAX_PROMPT_BYTES {
        let end = session::last_bytes(s, session::MAX_PROMPT_BYTES as nat);
        lemma_last_bytes(s, session::MAX_PROMPT_BYTES as nat);
        lemma_first_blank_range(end);
        match session::first_blank(end) {
            Some(i) => {
                lemma_suffix_bytes(end, i);
                assert(end.skip(i) =~= s.skip(s.len() - (end.len() - i)));
            },
            None => {},
        }
    } else {
        assert(s =~= s.skip(0));
    }
}

/// The context stays within `MAX_PROMPT_BYTES` bytes whatever is heard.
pub proof fn law_context_stays_short<S>(v: SessionView<S>, words: Seq<Seq<char>>)
    requires
        vstd::utf8::encode_utf8(v.context).len() <= session::MAX_PROMPT_BYTES,
    ensures
        vstd::utf8::encode_utf8(v.advanced(words).context).len() <= session::MAX_PROMPT_BYTES,
{
    if v.must_slide() {
        law_context_is_short(v.told(words).grown_context());
    }
}

/// What a session was made with stays the same whatever it hears.
pub proof fn law_settings_stay<S>(v: SessionView<S>, chunk: Seq<S>, words: Seq<Seq<char>>)
    ensures
        ({
            let after = v.heard(chunk).advanced(words).flushed();
            &&& after.window == v.window
            &&& after.overlap == v.overlap
            &&& after.language == v.language
            &&& after.prompt == v.prompt
            &&& after.n_threads == v.n_threads
        }),
{
}

/// The session after the hypotheses `hyps` for one window, in order.
pub open spec fn told_all<S>(v: SessionView<S>, hyps: Seq<Seq<Seq<char>>>) -> SessionView<S>
    decreases hyps.len(),
{
    if hyps.len() == 0 {
        v
    } else {
        told_all(v, hyps.drop_last()).told(hyps.last())
    }
}

/// What is typed for the hypotheses `hyps` for one window.
pub open spec fn typed_all<S>(v: SessionView<S>, hyps: Seq<Seq<Seq<char>>>) -> Seq<char>
    decreases hyps.len(),
{
    if hyps.len() == 0 {
        Seq::empty()
    } else {
        typed_all(v, hyps.drop_last()) + told_all(v, hyps.drop_last()).delta(hyps.last())
    }
}

/// Whether `words` are typed for the hypotheses `hyps`: the word at each position
/// stands at the same position of one of them.
pub open spec fn come_from(words: Seq<Seq<char>>, hyps: Seq<Seq<Seq<char>>>) -> bool {
    forall|i: int| 0 <= i < words.len() ==> stands_in(#[trigger] words[i], i, hyps)
}

/// Whether `word` stands at position `i` of one of the hypotheses.
pub open spec fn stands_in(word: Seq<char>, i: int, hyps: Seq<Seq<Seq<char>>>) -> bool {
    exists|k: int|
        0 <= k < hyps.len() && i < (#[trigger] hyps[k]).len() && hyps[k][i] == word
}

/// However often a window is heard, each of its committed positions is typed
/// exactly once, in order, by the word that a hypothesis has there.
pub proof fn law_each_position_is_typed_once<S>(v: SessionView<S>, hyps: Seq<Seq<Seq<char>>>)
    requires
        !v.after_slide,
        v.cursor == 0,
    ensures
        exists|words: Seq<Seq<char>>| #[trigger]
            come_from(words, hyps) && words.len() == told_all(v, hyps).cursor && text::concat(words)
                == typed_all(v, hyps),
{
    let words = lemma_typed_words(v, hyps);
    assert(come_from(words, hyps));
}

proof fn lemma_typed_words<S>(v: SessionView<S>, hyps: Seq<Seq<Seq<char>>>) -> (words: Seq<
    Seq<char>,
>)
    requires
        !v.after_slide,
        v.cursor == 0,
    ensures
        !told_all(v, hyps).after_slide,
        come_from(words, hyps),
        words.len() == told_all(v, hyps).cursor,
        text::concat(words) == typed_all(v, hyps),
    decreases hyps.len(),
{
    if hyps.len() == 0 {
        let none = Seq::<Seq<char>>::empty();
        assert(text::concat(none) =~= Seq::<char>::empty());
        none
    } else {
        let init = hyps.drop_last();
        let last = hyps.last();
        let before = lemma_typed_words(v, init);
        let at = told_all(v, init);
        let after = at.told(last);
        session::lemma_agreed_bound(at.last_words, last);
        let fresh = if after.cursor > at.cursor {
            last.subrange(at.cursor as int, after.cursor as int)
        } else {
            Seq::empty()
        };
        let words = before + fresh;
        assert forall|i: int| 0 <= i < words.len() implies stands_in(
            #[trigger] words[i],
            i,
            hyps,
        ) by {
            if i < before.len() {
                assert(stands_in(before[i], i, init));
                let k = choose|k: int|
                    0 <= k < init.len() && i < (#[trigger] init[k]).len() && init[k][i]
                        == before[i];
                assert(hyps[k] == init[k]);
            } else {
                assert(hyps[hyps.len() - 1][i] == words[i]);
            }
        }
        text::lemma_concat_append(before, fresh);
        assert(text::concat(Seq::<Seq<char>>::empty()) =~= Seq::<char>::empty());
        words
    }
}

/// Whether the audio that a session holds is within bounds, its chunks being no
/// longer than `max_chunk`.
pub open spec fn audio_is_bounded<S>(v: SessionView<S>, max_chunk: int) -> bool {
    if v.after_slide {
        v.audio.len() <= v.overlap
    } else {
        v.audio.len() < v.window || v.audio.len() <= v.overlap + max_chunk
    }
}

/// However long a recording is, the audio that is held stays within bounds: it
/// is shorter than the window, or no longer than what a slide keeps and a chunk.
pub proof fn law_audio_stays_bounded<S>(
    v: SessionView<S>,
    chunk: Seq<S>,
    words: Seq<Seq<char>>,
    max_chunk: int,
)
    requires
        audio_is_bounded(v, max_chunk),
        chunk.len() <= max_chunk,
    ensures
        audio_is_bounded(v.heard(chunk).advanced(words), max_chunk),
{
}

/// A round of a session: a chunk of audio, and the hypothesis that is heard with
/// it.
pub ghost struct Round<S> {
    pub chunk: Seq<S>,
    pub words: Seq<Seq<char>>,
}

/// The session after the rounds.
pub open spec fn after_rounds<S>(v: SessionView<S>, rounds: Seq<Round<S>>) -> SessionView<S>
    decreases rounds.len(),
{
    if rounds.len() == 0 {
        v
    } else {
        after_rounds(v, rounds.drop_last()).heard(rounds.last().chunk).advanced(
            rounds.last().words,
        )
    }
}

/// What is typed in the rounds.
pub open spec fn typed_in_rounds<S>(v: SessionView<S>, rounds: Seq<Round<S>>) -> Seq<char>
    decreases rounds.len(),
{
    if rounds.len() == 0 {
        Seq::empty()
    } else {
        typed_in_rounds(v, rounds.drop_last()) + after_rounds(v, rounds.drop_last()).heard(
            rounds.last().chunk,
        ).delta(rounds.last().words)
    }
}

/// The number of samples in the rounds.
pub open spec fn samples_in<S>(rounds: Seq<Round<S>>) -> nat
    decreases rounds.len(),
{
    if rounds.len() == 0 {
        0
    } else {
        samples_in(rounds.drop_last()) + rounds.last().chunk.len()
    }
}

/// Whether each hypothesis begins with the one before.
pub open spec fn grow<S>(rounds: Seq<Round<S>>) -> bool {
    forall|i: int|
        0 < i < rounds.len() ==> rounds[i - 1].words.is_prefix_of(#[trigger] rounds[i].words)
}

proof fn lemma_agreed_prefix(a: Seq<Seq<char>>, b: Seq<Seq<char>>)
    requires
        a.is_prefix_of(b),
    ensures
        session::agreed(a, b) == a.len(),
    decreases a.len(),
{
    if a.len() > 0 {
        assert(b[0] == a[0]);
        assert(a.drop_first() =~= b.drop_first().take(a.len() - 1));
        lemma_agreed_prefix(a.drop_first(), b.drop_first());
    }
}

proof fn lemma_growing<S>(v: SessionView<S>, rounds: Seq<Round<S>>)
    requires
        v.last_words.len() == 0,
        v.cursor == 0,
        !v.after_slide,
        v.audio.len() + samples_in(rounds) < v.window,
        grow(rounds),
    ensures
        ({
            let w = after_rounds(v, rounds);
            &&& !w.after_slide
            &&& w.window == v.window
            &&& w.audio.len() == v.audio.len() + samples_in(rounds)
            &&& w.cursor <= w.last_words.len()
            &&& rounds.len() > 0 ==> w.last_words == rounds.last().words
            &&& rounds.len() == 0 ==> w.last_words.len() == 0
            &&& typed_in_rounds(v, rounds) == text::concat(w.committed())
        }),
    decreases rounds.len(),
{
    if rounds.len() == 0 {
        assert(v.committed() =~= Seq::<Seq<char>>::empty());
        assert(text::concat(Seq::<Seq<char>>::empty()) =~= Seq::<char>::empty());
    } else {
        let init = rounds.drop_last();
        let last = rounds.last();
        assert(grow(init)) by {
            assert forall|i: int| 0 < i < init.len() implies init[i - 1].words.is_prefix_of(
                #[trigger] init[i].words,
            ) by {
                assert(rounds[i - 1].words.is_prefix_of(rounds[i].words));
            }
        }
        lemma_growing(v, init);
        let at = after_rounds(v, init).heard(last.chunk);
        let w = after_rounds(v, rounds);
        if init.len() > 0 {
            assert(rounds[rounds.len() - 2].words.is_prefix_of(rounds[rounds.len() - 1].words));
        }
        assert(at.last_words.is_prefix_of(last.words));
        lemma_agreed_prefix(at.last_words, last.words);
        let c = at.cursor as int;
        assert(last.words.take(c) =~= at.committed());
        if w.cursor > c {
            lemma_concat_ranges(last.words, 0, c, w.cursor as int);
            assert(last.words.subrange(0, c) =~= last.words.take(c));
            assert(last.words.subrange(0, w.cursor as int) =~= w.committed());
        } else {
            assert(w.committed() =~= last.words.take(c));
            assert(typed_in_rounds(v, rounds) =~= typed_in_rounds(v, init));
        }
    }
}

/// Where each hypothesis begins with the one before and the window does not
/// slide, all that is typed and the rest that is typed in the end are the last
/// hypothesis: no word of it is lost or typed twice.
pub proof fn law_growing_text_is_typed<S>(v: SessionView<S>, rounds: Seq<Round<S>>)
    requires
        v.last_words.len() == 0,
        v.cursor == 0,
        !v.after_slide,
        v.audio.len() + samples_in(rounds) < v.window,
        rounds.len() > 0,
        grow(rounds),
    ensures
        typed_in_rounds(v, rounds) + after_rounds(v, rounds).rest() == text::concat(
            rounds.last().words,
        ),
{
    lemma_growing(v, rounds);
    let w = after_rounds(v, rounds);
    let n = w.last_words.len() as int;
    let c = w.cursor as int;
    lemma_concat_ranges(w.last_words, 0, c, n);
    assert(w.last_words.subrange(0, c) =~= w.committed());
    assert(w.last_words.subrange(0, n) =~= w.last_words);
    if n == c {
        assert(w.last_words.subrange(c, n) =~= Seq::<Seq<char>>::empty());
    }
}

// ---------------------------------------------------------------------------
// What is typed, and when
// ---------------------------------------------------------------------------

/// Whether each of the first `n` words of one hypothesis is the same as that of
/// the other.
pub open spec fn agree_on(a: Seq<Seq<char>>, b: Seq<Seq<char>>, n: int) -> bool {
    &&& 0 <= n <= a.len()
    &&& n <= b.len()
    &&& forall|i: int|
        0 <= i < n ==> transcriber::normalized(#[trigger] a[i]) == transcriber::normalized(b[i])
}

/// The beginning on which two hypotheses agree is the longest: it is no shorter
/// than any on which they do, whatever follows in either, and they agree on all
/// of it.
pub proof fn law_agreement_is_longest(a: Seq<Seq<char>>, b: Seq<Seq<char>>, n: int)
    requires
        agree_on(a, b, n),
    ensures
        session::agreed(a, b) >= n,
        agree_on(a, b, session::agreed(a, b) as int),
    decreases a.len(),
{
    if n > 0 {
        let ra = a.drop_first();
        let rb = b.drop_first();
        assert(transcriber::normalized(a[0]) == transcriber::normalized(b[0]));
        assert forall|i: int| 0 <= i < n - 1 implies transcriber::normalized(#[trigger] ra[i])
            == transcriber::normalized(rb[i]) by {
            assert(ra[i] == a[i + 1]);
            assert(rb[i] == b[i + 1]);
        }
        law_agreement_is_longest(ra, rb, n - 1);
    }
    session::lemma_agreed_bound(a, b);
    assert forall|i: int| 0 <= i < session::agreed(a, b) implies transcriber::normalized(
        #[trigger] a[i],
    ) == transcriber::normalized(b[i]) by {
        lemma_agreed_words(a, b, i);
    }
}

/// Outside a slide, where two successive hypotheses agree on their first `n`
/// words, all of them but the last are committed afterwards, whatever follows in
/// either: those that were not committed before are typed, in order, and where
/// the hypotheses do not agree on one word more, nothing else is.
pub proof fn law_agreed_words_are_typed<S>(v: SessionView<S>, words: Seq<Seq<char>>, n: int)
    requires
        !v.after_slide,
        agree_on(v.last_words, words, n),
    ensures
        v.told(words).cursor >= n - 1,
        v.told(words).cursor >= v.cursor,
        v.told(words).last_words == words,
        v.cursor < n - 1 ==> text::concat(words.subrange(v.cursor as int, n - 1)).is_prefix_of(
            v.delta(words),
        ),
        !agree_on(v.last_words, words, n + 1) ==> {
            &&& v.cursor < n - 1 ==> v.told(words).cursor == n - 1
            &&& v.cursor < n - 1 ==> v.delta(words) == text::concat(
                words.subrange(v.cursor as int, n - 1),
            )
            &&& v.cursor >= n - 1 ==> v.told(words).cursor == v.cursor
            &&& v.cursor >= n - 1 ==> v.delta(words) == Seq::<char>::empty()
        },
{
    let a = v.last_words;
    law_agreement_is_longest(a, words, n);
    let m = session::agreed(a, words) as int;
    if m > n {
        assert(agree_on(a, words, n + 1));
    }
    if v.cursor < n - 1 {
        let c = v.cursor as int;
        lemma_concat_ranges(words, c, n - 1, m - 1);
        assert(text::concat(words.subrange(c, n - 1)).is_prefix_of(v.delta(words))) by {
            let x = text::concat(words.subrange(c, n - 1));
            let y = text::concat(words.subrange(n - 1, m - 1));
            assert((x + y).take(x.len() as int) =~= x);
            assert(v.delta(words) == x + y);
        }
    }
}

/// The last word on which two hypotheses agree waits, since its sound may be cut
/// off; so does a word on which they do not agree. Nothing is typed for a first
/// hypothesis.
pub proof fn law_last_word_waits<S>(v: SessionView<S>, words: Seq<Seq<char>>)
    requires
        !v.after_slide,
    ensures
        v.told(words).cursor > v.cursor ==> v.told(words).cursor < words.len()
            && v.told(words).cursor < v.last_words.len() && agree_on(
            v.last_words,
            words,
            v.told(words).cursor as int + 1,
        ),
        v.told(words).cursor == v.cursor ==> v.delta(words) == Seq::<char>::empty(),
        v.last_words.len() == 0 ==> v.delta(words) == Seq::<char>::empty(),
{
    law_agreement_is_longest(v.last_words, words, 0);
}

/// What a session takes in changes nothing of the audio, the context and the tail
/// before the window slides, and the window slides exactly where it is full.
pub proof fn law_window_slides_only_when_full<S>(v: SessionView<S>, words: Seq<Seq<char>>)
    ensures
        v.told(words).audio == v.audio,
        v.told(words).context == v.context,
        v.told(words).tail == v.tail,
        v.told(words).last_words == words,
        !v.told(words).after_slide,
        !v.after_slide && v.audio.len() >= v.window ==> v.advanced(words) == v.told(words).slid(),
        v.after_slide || v.audio.len() < v.window ==> v.advanced(words) == v.told(words),
{
}

/// All that is heard is kept until the window slides.
pub proof fn law_audio_is_kept<S>(v: SessionView<S>, chunk: Seq<S>)
    ensures
        v.heard(chunk).audio == v.audio + chunk,
        v.heard(chunk) == (SessionView { audio: v.heard(chunk).audio, ..v }),
{
    assert(v.heard(chunk) =~= (SessionView { audio: v.heard(chunk).audio, ..v }));
}

/// Where a session takes in a hypothesis, what is typed and what it becomes are
/// those that the laws speak of.
pub proof fn law_taking_in_is_telling<S>(
    v: SessionView<S>,
    words: Seq<Seq<char>>,
    delta: Seq<char>,
    after: SessionView<S>,
)
    ensures
        v.takes_in(words, delta, after) == (delta == v.delta(words) && after == v.advanced(words)),
{
}

// ---------------------------------------------------------------------------
// Over a slide
// ---------------------------------------------------------------------------

/// A slide remembers every committed word of the window, in order, and puts them
/// all behind the context; nothing of the hypothesis stays.
pub proof fn law_slide_remembers_committed_words<S>(v: SessionView<S>)
    ensures
        v.cursor <= v.last_words.len() ==> v.slid().tail == v.last_words.take(v.cursor as int),
        v.cursor > v.last_words.len() ==> v.slid().tail == v.last_words,
        v.slid().context == session::shortened(v.context + text::concat(v.slid().tail)),
        vstd::utf8::encode_utf8(v.context + text::concat(v.slid().tail)).len() <= 1000
            ==> v.slid().context == v.context + text::concat(v.slid().tail),
        v.slid().last_words.len() == 0,
        v.slid().cursor == 0,
        v.slid().after_slide,
{
}

/// A slide keeps exactly the last two seconds of audio, or all where there is
/// less.
pub proof fn law_two_seconds_stay<S>(v: SessionView<S>)
    requires
        v.overlap == session::OVERLAP_SAMPLES,
    ensures
        session::OVERLAP_SAMPLES == 2 * 16000,
        v.audio.len() <= 32000 ==> v.slid().audio == v.audio,
        v.audio.len() > 32000 ==> v.slid().audio == v.audio.skip(v.audio.len() - 32000),
{
}

/// Right after a slide, the words at the start of the hypothesis that repeat the
/// end of the window before count as committed: as many as there are, and no
/// others. Nothing is typed.
pub proof fn law_repeat_is_longest<S>(v: SessionView<S>, words: Seq<Seq<char>>, n: int)
    requires
        v.after_slide,
        0 <= n <= v.tail.len(),
        n <= words.len(),
        forall|i: int|
            0 <= i < n ==> transcriber::normalized(v.tail[v.tail.len() - n + i])
                == transcriber::normalized(#[trigger] words[i]),
    ensures
        v.advanced(words).cursor >= n,
        v.advanced(words).cursor <= words.len(),
        v.advanced(words).cursor <= v.tail.len(),
        forall|i: int|
            0 <= i < v.advanced(words).cursor ==> transcriber::normalized(
                v.tail[v.tail.len() - v.advanced(words).cursor + i],
            ) == transcriber::normalized(#[trigger] words[i]),
        v.delta(words) == Seq::<char>::empty(),
        v.advanced(words).last_words == words,
{
    transcriber::law_overlap_is_longest(v.tail, words);
    assert(transcriber::overlaps(v.tail, words, n));
}

/// Words are not typed again over a slide. Where the window slides and the next
/// hypothesis begins with the last `n` of the words that were committed in it,
/// these are not typed with it, nor with any later hypothesis: what is typed next
/// begins behind them.
pub proof fn law_words_are_not_typed_twice_over_a_slide<S>(
    v: SessionView<S>,
    words: Seq<Seq<char>>,
    chunk: Seq<S>,
    first: Seq<Seq<char>>,
    later: Seq<S>,
    second: Seq<Seq<char>>,
    n: int,
)
    requires
        !v.after_slide,
        v.audio.len() >= v.window,
        0 <= n <= v.told(words).cursor <= words.len(),
        n <= first.len(),
        forall|i: int|
            0 <= i < n ==> transcriber::normalized(words[v.told(words).cursor - n + i])
                == transcriber::normalized(#[trigger] first[i]),
    ensures
        ({
            let a = v.advanced(words).heard(chunk);
            let b = a.advanced(first).heard(later);
            &&& a.delta(first) == Seq::<char>::empty()
            &&& b.cursor >= n
            &&& b.last_words == first
            &&& b.delta(second) == (if b.cursor < b.told(second).cursor {
                text::concat(second.subrange(b.cursor as int, b.told(second).cursor as int))
            } else {
                Seq::empty()
            })
        }),
{
    let a = v.advanced(words).heard(chunk);
    let c = v.told(words).cursor as int;
    law_slide_remembers_committed_words(v.told(words));
    assert(a.tail == words.take(c));
    assert forall|i: int| 0 <= i < n implies transcriber::normalized(a.tail[a.tail.len() - n + i])
        == transcriber::normalized(#[trigger] first[i]) by {
        assert(a.tail[a.tail.len() - n + i] == words[c - n + i]);
    }
    law_repeat_is_longest(a, first, n);
}

/// Over a slide, the words of a hypothesis that is heard twice are typed but for
/// those that repeat the end of the window before, and for the last, which waits:
/// no other word is lost. (`n` words are repeated, and no more.)
pub proof fn law_new_words_are_typed_after_a_slide<S>(
    v: SessionView<S>,
    words: Seq<Seq<char>>,
    chunk: Seq<S>,
    n: int,
)
    requires
        v.after_slide,
        words.len() > n,
        v.advanced(words).cursor == n,
    ensures
        v.advanced(words).heard(chunk).delta(words) == text::concat(
            words.subrange(n, words.len() - 1),
        ),
{
    lemma_agreed_self(words);
    let w = v.advanced(words).heard(chunk);
    assert(w.last_words == words);
    if n == words.len() - 1 {
        assert(words.subrange(n, n) =~= Seq::<Seq<char>>::empty());
    }
}

/// The end of a recording types every word of the last hypothesis that is not
/// committed, in order, the last one too.
pub proof fn law_end_types_the_rest<S>(v: SessionView<S>)
    ensures
        v.cursor <= v.last_words.len() ==> v.rest() == text::concat(
            v.last_words.skip(v.cursor as int),
        ),
        v.cursor <= v.last_words.len() ==> v.flushed().cursor == v.last_words.len(),
        v.cursor > v.last_words.len() ==> v.rest() == Seq::<char>::empty() && v.flushed() == v,
        v.flushed() == (SessionView { cursor: v.flushed().cursor, ..v }),
{
    if v.cursor <= v.last_words.len() {
        assert(v.last_words.skip(v.cursor as int) =~= v.last_words.subrange(
            v.cursor as int,
            v.last_words.len() as int,
        ));
        if v.cursor == v.last_words.len() {
            assert(v.last_words.skip(v.cursor as int) =~= Seq::<Seq<char>>::empty());
        }
    }
    assert(v.flushed() =~= (SessionView { cursor: v.flushed().cursor, ..v }));
}

// ---------------------------------------------------------------------------
// What the model is asked, and what it hears
// ---------------------------------------------------------------------------

/// A session starts without audio, words and context; its window is as many
/// seconds long as configured.
pub proof fn law_session_starts_empty<S>(
    config: crate::config::InferenceConfig,
    model_config: crate::config::ModelConfig,
)
    ensures
        ({
            let v = SessionView::<S>::initial(config, model_config);
            &&& v.audio.len() == 0
            &&& v.context.len() == 0
            &&& v.last_words.len() == 0
            &&& v.tail.len() == 0
            &&& v.cursor == 0
            &&& !v.after_slide
            &&& v.window == config.stream_window_secs * 16000
            &&& v.overlap == 2 * 16000
            &&& v.language == model_config.language@
            &&& v.n_threads == model_config.n_threads
            &&& v.prompt == crate::config::prompt_of(
                config.system_prompt@,
                config.initial_prompt@,
            )
        }),
{
}

/// What the next run is asked: the configured language, or none where it is to be
/// detected; as prompt the configured one, a blank and the context, as far as
/// there are any; no translation, no time stamps, and no text for silence.
pub proof fn law_model_is_asked_as_configured<S>(v: SessionView<S>, p: params::InferenceParams)
    requires
        v.next_run(p),
    ensures
        match p.language {
            Some(l) => l@ == v.language && v.language != "auto"@,
            None => v.language == "auto"@,
        },
        !p.detect_language,
        match (p.initial_prompt, v.prompt) {
            (Some(t), Some(q)) => t@ == q + seq![' '] + v.context,
            (Some(t), None) => t@ == v.context && v.context.len() > 0,
            (None, Some(_)) => false,
            (None, None) => v.context.len() == 0,
        },
        p.n_max_text_ctx is None,
        p.n_threads == v.n_threads,
        !p.token_timestamps,
        p.suppress_blank,
        p.suppress_non_speech,
        !p.translate,
{
    match v.prompt {
        Some(q) => {
            assert(q.push(' ') =~= q + seq![' ']);
            assert((q.push(' ') + v.context).len() > 0);
        },
        None => {
            assert(Seq::<char>::empty() + v.context =~= v.context);
        },
    }
}

/// An answer is one to all the audio of the window, asked as the next run is.
pub proof fn law_whole_window_is_heard<
    S,
    F: FnOnce(&Vec<S>, &params::InferenceParams) -> Result<Vec<SegmentText>, String>,
>(v: SessionView<S>, infer: F, out: Result<Vec<SegmentText>, String>)
    requires
        session::answers(v, infer, out),
    ensures
        exists|audio: Vec<S>, p: params::InferenceParams|
            {
                &&& #[trigger] call_ensures(infer, (&audio, &p), out)
                &&& audio@ == v.audio
                &&& v.next_run(p)
            },
{
    let (audio, p) = choose|audio: Vec<S>, p: params::InferenceParams|
        audio@ == v.audio && v.next_run(p) && #[trigger] call_ensures(infer, (&audio, &p), out);
    assert(call_ensures(infer, (&audio, &p), out));
}

/// What is heard in the parts of an answer is heard in order: what is heard in
/// two lists of parts is heard in one after the other.
pub proof fn law_parts_are_heard_in_order(a: Seq<SegmentText>, b: Seq<SegmentText>)
    ensures
        session::heard_text(a + b) == session::heard_text(a) + session::heard_text(b),
        session::heard_text(Seq::empty()) == Seq::<char>::empty(),
    decreases b.len(),
{
    if b.len() == 0 {
        assert(a + b =~= a);
        assert(session::heard_text(a) + session::heard_text(b) =~= session::heard_text(a));
    } else {
        law_parts_are_heard_in_order(a, b.drop_last());
        assert((a + b).drop_last() =~= a + b.drop_last());
        assert((a + b).last() == b.last());
        assert(session::heard_text(a + b) =~= session::heard_text(a) + session::heard_text(b));
    }
}

/// Of one part of an answer, all is heard, white space at its ends too, unless it
/// stands for no speech or is no text.
pub proof fn law_speech_is_heard(part: SegmentText)
    ensures
        session::heard_text(seq![part]) == (match part {
            SegmentText::Text(t) => if transcriber::artifact(text::trimmed(t@)) {
                Seq::empty()
            } else {
                t@
            },
            _ => Seq::empty(),
        }),
{
    let one = seq![part];
    assert(one.drop_last() =~= Seq::<SegmentText>::empty());
    assert(one.last() == part);
    assert(session::heard_text(one.drop_last()) == Seq::<char>::empty());
    let t = session::lenient_text(part);
    assert(Seq::<char>::empty() + t =~= t);
}

// ---------------------------------------------------------------------------
// The context
// ---------------------------------------------------------------------------

proof fn lemma_last_bytes_longest(s: Seq<char>, n: nat) -> (i: int)
    ensures
        0 <= i <= s.len(),
        session::last_bytes(s, n) == s.skip(i),
        vstd::utf8::encode_utf8(s.skip(i)).len() <= n,
        i > 0 ==> vstd::utf8::encode_utf8(s.skip(i - 1)).len() > n,
    decreases s.len(),
{
    if s.len() == 0 || vstd::utf8::encode_utf8(s).len() <= n {
        assert(s.skip(0) =~= s);
        0
    } else {
        let rest = s.drop_first();
        let j = lemma_last_bytes_longest(rest, n);
        assert(rest.skip(j) =~= s.skip(j + 1));
        if j > 0 {
            assert(rest.skip(j - 1) =~= s.skip(j));
        } else {
            assert(s.skip(0) =~= s);
        }
        j + 1
    }
}

proof fn lemma_first_blank_is_first(s: Seq<char>)
    ensures
        match session::first_blank(s) {
            Some(i) => {
                &&& 0 <= i < s.len()
                &&& s[i] == ' '
                &&& forall|j: int| 0 <= j < i ==> #[trigger] s[j] != ' '
            },
            None => forall|j: int| 0 <= j < s.len() ==> #[trigger] s[j] != ' ',
        },
    decreases s.len(),
{
    if s.len() > 0 {
        let init = s.drop_last();
        lemma_first_blank_is_first(init);
        assert forall|j: int| 0 <= j < init.len() implies #[trigger] s[j] == init[j] by {}
    }
}

/// A text that is too long to be kept as context is cut where it must be, and
/// then at a word: of the longest end that takes no more than 1000 bytes, what
/// stands before its first blank is dropped too; where it has no blank, it is kept
/// whole.
pub proof fn law_context_is_cut_at_a_word(s: Seq<char>) -> (cut: (int, int))
    requires
        vstd::utf8::encode_utf8(s).len() > 1000,
    ensures
        0 < cut.0 <= cut.1 <= s.len(),
        vstd::utf8::encode_utf8(s.skip(cut.0)).len() <= 1000,
        vstd::utf8::encode_utf8(s.skip(cut.0 - 1)).len() > 1000,
        session::shortened(s) == s.skip(cut.1),
        cut.0 < cut.1 ==> cut.1 < s.len() && s[cut.1] == ' ' && forall|j: int|
            cut.0 <= j < cut.1 ==> #[trigger] s[j] != ' ',
        cut.0 == cut.1 ==> (s.len() > cut.0 && s[cut.0] == ' ') || forall|j: int|
            cut.0 <= j < s.len() ==> #[trigger] s[j] != ' ',
{
    let i = lemma_last_bytes_longest(s, 1000);
    let end = s.skip(i);
    assert(s.skip(0) =~= s);
    lemma_first_blank_is_first(end);
    assert forall|j: int| i <= j < s.len() implies #[trigger] s[j] == end[j - i] by {}
    match session::first_blank(end) {
        Some(k) => {
            assert(end.skip(k) =~= s.skip(i + k));
            (i, i + k)
        },
        None => (i, i),
    }
}

} // verus!
