//! What holds of the words of every text, and of every answer of the model.

use vstd::prelude::*;
use vstd::utf8::*;
use crate::daemon::transcriber;
use crate::daemon::transcriber::params;
use crate::daemon::transcriber::params::SegmentText;
use crate::daemon::transcriber::postprocess;
use crate::daemon::transcriber::postprocess::Cut;
use crate::text;
use crate::text_laws;

verus! {

// ---------------------------------------------------------------------------
// Words
// ---------------------------------------------------------------------------

/// A text is cut where white space follows something else: the words on the two
/// sides of such a place are those of the two sides.
pub proof fn law_text_is_cut_before_white_space(a: Seq<char>, b: Seq<char>)
    requires
        a.len() > 0,
        !text::is_white_space(a.last()),
        b.len() > 0,
        text::is_white_space(b[0]),
    ensures
        transcriber::words_of(a + b) == transcriber::words_of(a) + transcriber::words_of(b),
    decreases b.len(),
{
    let s = a + b;
    let init = b.drop_last();
    let c = b.last();
    assert(s.drop_last() =~= a + init);
    assert(s.last() == c);
    transcriber::lemma_words_nonempty(init);
    if b.len() == 1 {
        assert(a + init =~= a);
        assert(s[s.len() - 2] == a.last());
        assert(transcriber::words_of(init) =~= Seq::<Seq<char>>::empty());
        assert(transcriber::words_of(s) =~= transcriber::words_of(a) + transcriber::words_of(b));
    } else {
        law_text_is_cut_before_white_space(a, init);
        assert(s[s.len() - 2] == b[b.len() - 2]);
        let wa = transcriber::words_of(a);
        let wi = transcriber::words_of(init);
        assert((wa + wi).last() == wi.last());
        assert(transcriber::words_of(s) =~= wa + transcriber::words_of(b));
    }
}

/// A text is cut nowhere else: one in which white space never follows something
/// else is one word, white space in front of it and all.
pub proof fn law_word_is_not_cut(s: Seq<char>)
    requires
        s.len() > 0,
        forall|k: int|
            0 < k < s.len() && text::is_white_space(#[trigger] s[k]) ==> text::is_white_space(
                s[k - 1],
            ),
    ensures
        transcriber::words_of(s) == seq![s],
    decreases s.len(),
{
    let init = s.drop_last();
    if s.len() == 1 {
        assert(transcriber::words_of(init) =~= Seq::<Seq<char>>::empty());
        assert(s =~= seq![s.last()]);
        assert(transcriber::words_of(s) =~= seq![s]);
    } else {
        assert forall|k: int|
            0 < k < init.len() && text::is_white_space(#[trigger] init[k]) implies text::is_white_space(
            init[k - 1],
        ) by {
            assert(s[k] == init[k]);
        }
        law_word_is_not_cut(init);
        assert(s.last() == s[s.len() - 1]);
        assert(init.push(s.last()) =~= s);
        assert(transcriber::words_of(s) =~= seq![s]);
    }
}

/// The letters and digits of a text are those of its characters that are one, in
/// order.
pub proof fn law_letters_and_digits_are_kept(s: Seq<char>)
    ensures
        transcriber::alphanumeric_only(s) == s.filter(|c: char| text::is_alphanumeric(c)),
    decreases s.len(),
{
    reveal(Seq::filter);
    if s.len() > 0 {
        law_letters_and_digits_are_kept(s.drop_last());
    } else {
        assert(transcriber::alphanumeric_only(s) =~= s);
    }
}

/// Two words that hold letters or digits are the same exactly where their lower
/// cases hold the same ones in the same order: case, punctuation and white space
/// do not matter. Two words without any are the same exactly where they are equal,
/// white space at their ends aside.
pub proof fn law_words_are_compared_by_letters_and_digits(a: Seq<char>, b: Seq<char>)
    ensures
        ({
            let x = text::lowercase(a).filter(|c: char| text::is_alphanumeric(c));
            let y = text::lowercase(b).filter(|c: char| text::is_alphanumeric(c));
            &&& x.len() > 0 && x == y ==> transcriber::same_word(a, b)
            &&& x.len() > 0 && y.len() > 0 && x != y ==> !transcriber::same_word(a, b)
            &&& x.len() == 0 && y.len() == 0 ==> transcriber::same_word(a, b) == (text::trimmed(a)
                == text::trimmed(b))
            &&& transcriber::same_word(a, b) == (transcriber::normalized(a)
                == transcriber::normalized(b))
        }),
{
    law_letters_and_digits_are_kept(text::lowercase(a));
    law_letters_and_digits_are_kept(text::lowercase(b));
}

/// What a word is compared by are the letters and digits of its lower case, in
/// order; where there are none, the word itself, white space at its ends aside.
pub proof fn law_normal_form_is_letters_and_digits(s: Seq<char>, lower: Seq<char>)
    ensures
        ({
            let kept = lower.filter(|c: char| text::is_alphanumeric(c));
            &&& kept.len() > 0 ==> transcriber::normal_form(s, lower) == kept
            &&& kept.len() == 0 ==> transcriber::normal_form(s, lower) == text::trimmed(s)
            &&& transcriber::normalized(s) == transcriber::normal_form(s, text::lowercase(s))
        }),
{
    law_letters_and_digits_are_kept(lower);
}

/// How many words are repeated is the largest number of words at the end of the
/// one list that stand at the start of the other, one for one.
pub proof fn law_longest_repeat_is_found(w1: Seq<Seq<char>>, w2: Seq<Seq<char>>, n: int)
    requires
        0 <= n <= w1.len(),
        n <= w2.len(),
        forall|i: int|
            0 <= i < n ==> transcriber::normalized(w1[w1.len() - n + i])
                == transcriber::normalized(#[trigger] w2[i]),
    ensures
        n <= transcriber::overlap_len(w1, w2),
        transcriber::overlap_len(w1, w2) <= w1.len(),
        transcriber::overlap_len(w1, w2) <= w2.len(),
        forall|i: int|
            0 <= i < transcriber::overlap_len(w1, w2) ==> transcriber::normalized(
                w1[w1.len() - transcriber::overlap_len(w1, w2) + i],
            ) == transcriber::normalized(#[trigger] w2[i]),
{
    transcriber::law_overlap_is_longest(w1, w2);
    assert(transcriber::overlaps(w1, w2, n));
}

/// What the model answers to silence and noise.
pub open spec fn silence_markers() -> Seq<Seq<char>> {
    seq![
        "[BLANK_AUDIO]"@,
        "[blank_audio]"@,
        "(silêncio)"@,
        "(Silêncio)"@,
        "[Music]"@,
        "[music]"@,
        "[Música]"@,
        "[música]"@,
        "[Applause]"@,
        "[applause]"@,
        "(música)"@,
        "(Música)"@,
        "..."@,
    ]
}

/// A text stands for no speech exactly where it holds no letter and no digit, or
/// is one of the markers: all else was said.
pub proof fn law_all_else_was_said(s: Seq<char>)
    ensures
        transcriber::artifact(s) == (silence_markers().contains(s) || !(exists|i: int|
            0 <= i < s.len() && text::is_alphanumeric(#[trigger] s[i]))),
{
    let m = silence_markers();
    if transcriber::is_marker(s) {
        assert(m[0] == s || m[1] == s || m[2] == s || m[3] == s || m[4] == s || m[5] == s || m[6]
            == s || m[7] == s || m[8] == s || m[9] == s || m[10] == s || m[11] == s || m[12] == s);
        assert(m.contains(s));
    }
    if m.contains(s) {
        let k = choose|k: int| 0 <= k < m.len() && m[k] == s;
        assert(transcriber::is_marker(s));
    }
}

// ---------------------------------------------------------------------------
// Answers
// ---------------------------------------------------------------------------

/// The segment that is reported is the first that is not text; there is none
/// exactly where all are.
pub proof fn law_first_bad_segment_is_found(segments: Seq<SegmentText>)
    ensures
        match params::first_bad(segments) {
            Some(i) => {
                &&& 0 <= i < segments.len()
                &&& segments[i] !is Text
                &&& forall|j: int| 0 <= j < i ==> #[trigger] segments[j] is Text
            },
            None => forall|j: int| 0 <= j < segments.len() ==> #[trigger] segments[j] is Text,
        },
    decreases segments.len(),
{
    if segments.len() > 0 {
        let init = segments.drop_last();
        law_first_bad_segment_is_found(init);
        assert forall|j: int| 0 <= j < init.len() implies #[trigger] segments[j] == init[j] by {}
    }
}

/// The texts of an answer are put in order with a blank between two: the text of
/// two lists of segments is that of the one, a blank, and that of the other, or
/// one of them where the other is empty.
pub proof fn law_answer_is_in_order(a: Seq<SegmentText>, b: Seq<SegmentText>)
    ensures
        ({
            let x = params::answer(a);
            let y = params::answer(b);
            params::answer(a + b) == (if x.len() == 0 {
                y
            } else if y.len() == 0 {
                x
            } else {
                x + seq![' '] + y
            })
        }),
        params::answer(Seq::empty()) == Seq::<char>::empty(),
    decreases b.len(),
{
    let x = params::answer(a);
    let y = params::answer(b);
    if b.len() == 0 {
        assert(a + b =~= a);
        if x.len() == 0 {
            assert(x =~= y);
        }
    } else {
        let init = b.drop_last();
        law_answer_is_in_order(a, init);
        assert((a + b).drop_last() =~= a + init);
        assert((a + b).last() == b.last());
        let z = params::answer(init);
        match b.last() {
            SegmentText::Text(t) => {
                let s = text::trimmed(t@);
                text::lemma_trimmed_twice(t@);
                if !transcriber::artifact(s) {
                    assert(s.len() > 0);
                    if x.len() > 0 && z.len() > 0 {
                        assert(params::answer(a + b) =~= x + seq![' '] + y);
                    } else if x.len() > 0 {
                        assert(params::answer(a + b) =~= x + seq![' '] + y);
                    }
                }
            },
            _ => {},
        }
    }
}

/// Of one segment, the text is all of it but the white space at its ends, or
/// nothing where it stands for no speech.
pub proof fn law_speech_is_answered(t: String)
    ensures
        params::answer(seq![SegmentText::Text(t)]) == (if transcriber::artifact(
            text::trimmed(t@),
        ) {
            Seq::empty()
        } else {
            text::trimmed(t@)
        }),
{
    let one = seq![SegmentText::Text(t)];
    assert(one.drop_last() =~= Seq::<SegmentText>::empty());
    assert(one.last() == SegmentText::Text(t));
    assert(params::answer(one.drop_last()) == Seq::<char>::empty());
    text::lemma_trimmed_twice(t@);
}

// ---------------------------------------------------------------------------
// Repeated words
// ---------------------------------------------------------------------------

/// The last words are those of all that was said, whichever parts it was said in.
pub proof fn law_last_words_come_from_all_parts(parts: Seq<Seq<char>>, n: nat)
    ensures
        ({
            let said = text::fields(text::joined(parts, seq![' ']));
            &&& said.len() >= n ==> text::fields(postprocess::last_words(parts, n)) == said.skip(
                said.len() - n,
            )
            &&& said.len() >= n ==> postprocess::last_words(parts, n) == text::joined(
                said.skip(said.len() - n),
                seq![' '],
            )
            &&& said.len() < n ==> postprocess::last_words(parts, n) == text::joined(
                parts,
                seq![' '],
            )
        }),
{
    reveal_strlit(" ");
    assert(" "@ =~= seq![' ']);
    let combined = text::joined(parts, seq![' ']);
    let said = text::fields(combined);
    if said.len() >= n {
        let kept = said.skip(said.len() - n);
        text_laws::lemma_fields_are_words(combined);
        assert forall|k: int| 0 <= k < kept.len() implies {
            &&& (#[trigger] kept[k]).len() > 0
            &&& forall|i: int|
                0 <= i < kept[k].len() ==> !text::is_white_space(#[trigger] kept[k][i])
        } by {
            assert(kept[k] == said[said.len() - n + k]);
        }
        text_laws::law_joined_words_are_found_again(kept);
    }
}

/// Whether `suffix` is repeated in `current`, in lower case, at byte `p`, within
/// its first third.
pub open spec fn repeats_at(
    current: Seq<char>,
    current_lower: Seq<char>,
    suffix_lower: Seq<char>,
    p: int,
) -> bool {
    let h = encode_utf8(current_lower);
    let n = encode_utf8(suffix_lower);
    &&& 0 <= p < encode_utf8(current).len() as int / 3
    &&& p + n.len() <= h.len()
    &&& h.subrange(p, p + n.len()) == n
}

proof fn lemma_not_repeated(
    current: Seq<char>,
    current_lower: Seq<char>,
    suffix: Seq<char>,
    suffix_lower: Seq<char>,
)
    requires
        suffix.len() > 0 ==> forall|p: int| !repeats_at(current, current_lower, suffix_lower, p),
    ensures
        postprocess::cut_suffix(current, current_lower, suffix, suffix_lower) == Cut::Nothing,
{
    text_laws::law_first_place_is_found(current_lower, suffix_lower);
    if suffix.len() > 0 {
        match text::find_text(current_lower, suffix_lower) {
            Some(p) => {
                assert(!repeats_at(current, current_lower, suffix_lower, p));
            },
            None => {},
        }
    }
}

/// What repeats `suffix` is cut off, with all that stands before it: where the
/// first place at which it is repeated is behind `a`, what is left is what stands
/// behind that and behind as many bytes as `suffix` takes. Where nothing stands
/// there, nothing is cut.
pub proof fn law_repeat_is_cut_off(
    a: Seq<char>,
    repeat: Seq<char>,
    rest: Seq<char>,
    current_lower: Seq<char>,
    suffix: Seq<char>,
    suffix_lower: Seq<char>,
)
    requires
        suffix.len() > 0,
        encode_utf8(repeat).len() == encode_utf8(suffix).len(),
        repeats_at(a + repeat + rest, current_lower, suffix_lower, encode_utf8(a).len() as int),
        forall|p: int|
            p < encode_utf8(a).len() ==> !repeats_at(
                a + repeat + rest,
                current_lower,
                suffix_lower,
                p,
            ),
    ensures
        postprocess::cut_suffix(a + repeat + rest, current_lower, suffix, suffix_lower) == (
        if text::trimmed(rest).len() == 0 {
            Cut::Nothing
        } else {
            Cut::Rest(text::trimmed(rest))
        }),
{
    let current = a + repeat + rest;
    let at = encode_utf8(a).len() as int;
    let h = encode_utf8(current_lower);
    let n = encode_utf8(suffix_lower);
    text_laws::law_first_place_is_found(current_lower, suffix_lower);
    assert(h.subrange(at, at + n.len()) == n);
    match text::find_text(current_lower, suffix_lower) {
        Some(p) => {
            if p < at {
                assert(repeats_at(current, current_lower, suffix_lower, p));
            }
            assert(p == at);
        },
        None => {},
    }
    text_laws::lemma_bytes_append(a, repeat);
    text_laws::lemma_characters_begin(a + repeat, rest);
    text_laws::law_bytes_count_characters(a + repeat, rest);
}

/// Whether the last `n` words that were said are repeated in the first third of
/// `current`, first at byte `p`.
pub open spec fn words_repeat_at(
    previous: Seq<Seq<char>>,
    current: Seq<char>,
    n: nat,
    p: int,
) -> bool {
    let suffix = postprocess::last_words(previous, n);
    &&& suffix.len() > 0
    &&& repeats_at(current, text::lowercase(current), text::lowercase(suffix), p)
    &&& forall|q: int|
        q < p ==> !repeats_at(current, text::lowercase(current), text::lowercase(suffix), q)
}

/// Whether the last `n` words that were said are repeated nowhere in the first
/// third of `current`.
pub open spec fn words_are_new(previous: Seq<Seq<char>>, current: Seq<char>, n: nat) -> bool {
    let suffix = postprocess::last_words(previous, n);
    suffix.len() > 0 ==> forall|q: int|
        !repeats_at(current, text::lowercase(current), text::lowercase(suffix), q)
}

/// Repeated words are removed: where an answer repeats the last eight words that
/// were said, in whatever case, and goes on, only what it goes on with is left.
/// The same holds of the last four words where no eight are repeated, and of the
/// last two where no four are.
pub proof fn law_repeated_words_are_removed(
    previous: Seq<Seq<char>>,
    n: nat,
    a: Seq<char>,
    repeat: Seq<char>,
    rest: Seq<char>,
)
    requires
        n == 8 || n == 4 || n == 2,
        words_repeat_at(previous, a + repeat + rest, n, encode_utf8(a).len() as int),
        encode_utf8(repeat).len() == encode_utf8(postprocess::last_words(previous, n)).len(),
        n < 8 ==> words_are_new(previous, a + repeat + rest, 8),
        n < 4 ==> words_are_new(previous, a + repeat + rest, 4),
        text::trimmed(rest).len() > 0,
    ensures
        postprocess::without_repeat(previous, a + repeat + rest) == text::trimmed(rest),
{
    let current = a + repeat + rest;
    let lower = text::lowercase(current);
    let suffix = postprocess::last_words(previous, n);
    law_repeat_is_cut_off(a, repeat, rest, lower, suffix, text::lowercase(suffix));
    if n < 8 {
        let s8 = postprocess::last_words(previous, 8);
        lemma_not_repeated(current, lower, s8, text::lowercase(s8));
    }
    if n < 4 {
        let s4 = postprocess::last_words(previous, 4);
        lemma_not_repeated(current, lower, s4, text::lowercase(s4));
    }
}

/// An answer that begins with the last eight words that were said and goes on is
/// left with what it goes on with; so is one that begins with the last four, where
/// no eight are repeated, and one that begins with the last two, where no four
/// are. (Lower case is made of both; it must not join what it is made of.)
pub proof fn law_repeat_at_the_start_is_removed(
    previous: Seq<Seq<char>>,
    n: nat,
    rest: Seq<char>,
)
    requires
        n == 8 || n == 4 || n == 2,
        postprocess::last_words(previous, n).len() > 0,
        text::lowercase(postprocess::last_words(previous, n)).is_prefix_of(
            text::lowercase(postprocess::last_words(previous, n) + rest),
        ),
        encode_utf8(postprocess::last_words(previous, n) + rest).len() >= 3,
        n < 8 ==> words_are_new(previous, postprocess::last_words(previous, n) + rest, 8),
        n < 4 ==> words_are_new(previous, postprocess::last_words(previous, n) + rest, 4),
        text::trimmed(rest).len() > 0,
    ensures
        postprocess::without_repeat(previous, postprocess::last_words(previous, n) + rest)
            == text::trimmed(rest),
{
    let none = Seq::<char>::empty();
    let suffix = postprocess::last_words(previous, n);
    let current = suffix + rest;
    let low = text::lowercase(suffix);
    let all = text::lowercase(current);
    assert(none + suffix + rest =~= current);
    assert(all =~= low + all.skip(low.len() as int));
    text_laws::lemma_bytes_append(low, all.skip(low.len() as int));
    assert(encode_utf8(all).subrange(0, encode_utf8(low).len() as int) =~= encode_utf8(low));
    assert(encode_utf8(none).len() == 0);
    assert(repeats_at(current, all, low, 0));
    assert(words_repeat_at(previous, current, n, 0));
    law_repeated_words_are_removed(previous, n, none, suffix, rest);
}

/// No character is cut in two: where the words that are found again end inside
/// one, as counted in lower case, nothing is removed.
pub proof fn law_characters_are_not_cut(
    previous: Seq<Seq<char>>,
    current: Seq<char>,
    n: nat,
    p: int,
)
    requires
        n == 8 || n == 4 || n == 2,
        words_repeat_at(previous, current, n, p),
        !is_char_boundary(
            encode_utf8(current),
            p + encode_utf8(postprocess::last_words(previous, n)).len(),
        ),
        n < 8 ==> words_are_new(previous, current, 8),
        n < 4 ==> words_are_new(previous, current, 4),
    ensures
        postprocess::without_repeat(previous, current) == current,
{
    let lower = text::lowercase(current);
    let suffix = postprocess::last_words(previous, n);
    let h = encode_utf8(lower);
    let needle = encode_utf8(text::lowercase(suffix));
    text_laws::law_first_place_is_found(lower, text::lowercase(suffix));
    assert(h.subrange(p, p + needle.len()) == needle);
    match text::find_text(lower, text::lowercase(suffix)) {
        Some(q) => {
            if q < p {
                assert(repeats_at(current, lower, text::lowercase(suffix), q));
            }
            assert(q == p);
        },
        None => {},
    }
    if n < 8 {
        let s8 = postprocess::last_words(previous, 8);
        lemma_not_repeated(current, lower, s8, text::lowercase(s8));
    }
    if n < 4 {
        let s4 = postprocess::last_words(previous, 4);
        lemma_not_repeated(current, lower, s4, text::lowercase(s4));
    }
}

/// Nothing is removed of an answer in which no words are repeated.
pub proof fn law_new_words_stay(previous: Seq<Seq<char>>, current: Seq<char>)
    requires
        words_are_new(previous, current, 8),
        words_are_new(previous, current, 4),
        words_are_new(previous, current, 2),
    ensures
        postprocess::without_repeat(previous, current) == current,
{
    let lower = text::lowercase(current);
    let s8 = postprocess::last_words(previous, 8);
    let s4 = postprocess::last_words(previous, 4);
    let s2 = postprocess::last_words(previous, 2);
    lemma_not_repeated(current, lower, s8, text::lowercase(s8));
    lemma_not_repeated(current, lower, s4, text::lowercase(s4));
    lemma_not_repeated(current, lower, s2, text::lowercase(s2));
}

/// Only a beginning is ever removed: what is left is the answer, or an end of it,
/// white space aside.
pub proof fn law_only_a_beginning_is_removed(previous: Seq<Seq<char>>, current: Seq<char>)
    ensures
        postprocess::without_repeat(previous, current) == current || exists|i: int|
            0 <= i <= current.len() && postprocess::without_repeat(previous, current)
                == #[trigger] text::trimmed(current.skip(i)),
{
    lemma_rest_is_an_end(previous, current, 8);
    lemma_rest_is_an_end(previous, current, 4);
    lemma_rest_is_an_end(previous, current, 2);
}

proof fn lemma_rest_is_an_end(previous: Seq<Seq<char>>, current: Seq<char>, n: nat)
    ensures
        postprocess::cut_words(previous, current, n) matches Cut::Rest(r) ==> exists|i: int|
            0 <= i <= current.len() && r == #[trigger] text::trimmed(current.skip(i)),
{
    let suffix = postprocess::last_words(previous, n);
    let lower = text::lowercase(current);
    if let Cut::Rest(r) = postprocess::cut_words(previous, current, n) {
        let b = postprocess::repeat_end(current, lower, suffix, text::lowercase(suffix))->Some_0;
        text_laws::lemma_end_from_byte(current, b);
        let end = text::from_byte(current, b);
        let i = current.len() - end.len();
        assert(current.skip(i) == end);
    }
}

} // verus!
