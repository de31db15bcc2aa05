//! Streaming transcription.
//!
//! A recording is transcribed again and again while it grows. What two
//! successive hypotheses agree on is committed and typed; the rest waits. When
//! the audio window is full it slides, keeping two seconds of audio.

use vstd::prelude::*;
use crate::text;

pub mod params;
pub mod postprocess;
pub mod segmentation;
pub mod session;
pub mod session_laws;
pub mod word_laws;

verus! {

// ---------------------------------------------------------------------------
// Words
// ---------------------------------------------------------------------------

/// The text cut before every white space character that follows a character
/// which is none: each word carries the white space in front of it.
pub open spec fn words_of(s: Seq<char>) -> Seq<Seq<char>>
    decreases s.len(),
{
    if s.len() == 0 {
        Seq::empty()
    } else {
        let before = words_of(s.drop_last());
        let c = s.last();
        if s.len() == 1 || (text::is_white_space(c) && !text::is_white_space(s[s.len() - 2])) {
            before.push(seq![c])
        } else {
            before.update(before.len() - 1, before.last().push(c))
        }
    }
}

/// No word is empty, and a text that holds a character has a word.
pub proof fn lemma_words_nonempty(s: Seq<char>)
    ensures
        s.len() > 0 ==> words_of(s).len() > 0,
        forall|i: int| 0 <= i < words_of(s).len() ==> (#[trigger] words_of(s)[i]).len() > 0,
    decreases s.len(),
{
    if s.len() > 0 {
        lemma_words_nonempty(s.drop_last());
    }
}

/// The words of a text, one after the other, are the text again.
pub proof fn law_words_keep_text(s: Seq<char>)
    ensures
        text::concat(words_of(s)) == s,
    decreases s.len(),
{
    if s.len() > 0 {
        let before = words_of(s.drop_last());
        let c = s.last();
        law_words_keep_text(s.drop_last());
        if s.len() == 1 || (text::is_white_space(c) && !text::is_white_space(s[s.len() - 2])) {
            assert(words_of(s).drop_last() =~= before);
            assert(text::concat(words_of(s)) =~= s.drop_last().push(c));
        } else {
            lemma_words_nonempty(s.drop_last());
            assert(words_of(s).drop_last() =~= before.drop_last());
            assert(text::concat(words_of(s)) =~= text::concat(before.drop_last()) + before.last().push(c));
            assert(text::concat(words_of(s)) =~= text::concat(before).push(c));
        }
        assert(s =~= s.drop_last().push(c));
    } else {
        assert(text::concat(words_of(s)) =~= s);
    }
}

/// Cuts a text into words that carry the white space in front of them.
pub fn split_words(text: &str) -> (words: Vec<String>)
    ensures
        text::views(words@) == words_of(text@),
{
    let v: Vec<char> = text::to_chars(text);
    let n: usize = v.len();
    let mut words: Vec<String> = Vec::new();
    let mut current: String = String::new();
    let mut i: usize = 0;
    proof {
        assert(text@.take(0) =~= Seq::<char>::empty());
        assert(text::views(words@) =~= words_of(text@.take(0)));
    }
    while i < n
        invariant
            n == v@.len(),
            v@ == text@,
            i <= n,
            i == 0 ==> current@.len() == 0 && words@.len() == 0,
            i > 0 ==> current@.len() > 0 && words_of(text@.take(i as int)) == text::views(words@).push(
                current@,
            ),
        decreases n - i,
    {
        let c: char = v[i];
        let ghost upto = text@.take(i as int);
        let ghost next = text@.take(i + 1);
        proof {
            assert(next.drop_last() =~= upto);
            assert(next.last() == c);
        }
        if i > 0 && text::white_space(c) && !text::white_space(v[i - 1]) {
            proof {
                assert(next[next.len() - 2] == v@[i - 1]);
            }
            words.push(current);
            current = String::new();
            proof {
                assert(text::views(words@) =~= words_of(upto));
            }
        } else {
            proof {
                if i > 0 {
                    assert(next[next.len() - 2] == v@[i - 1]);
                }
            }
        }
        let ghost prior = current@;
        current.push(c);
        proof {
            if prior.len() == 0 {
                assert(current@ =~= seq![c]);
                assert(text::views(words@) =~= words_of(upto));
                assert(words_of(next) =~= text::views(words@).push(current@));
            } else {
                let before = words_of(upto);
                assert(before =~= text::views(words@).push(prior));
                assert(words_of(next) =~= text::views(words@).push(current@));
            }
        }
        i += 1;
    }
    proof {
        assert(text@.take(n as int) =~= text@);
    }
    if n > 0 {
        words.push(current);
        proof {
            assert(text::views(words@) =~= words_of(text@));
        }
    } else {
        proof {
            assert(text::views(words@) =~= words_of(text@));
        }
    }
    words
}

/// The letters and digits of `s`.
pub open spec fn alphanumeric_only(s: Seq<char>) -> Seq<char>
    decreases s.len(),
{
    if s.len() == 0 {
        Seq::empty()
    } else {
        let before = alphanumeric_only(s.drop_last());
        if text::is_alphanumeric(s.last()) {
            before.push(s.last())
        } else {
            before
        }
    }
}

/// The form in which two words are compared, the lower case of `s` being `lower`:
/// its letters and digits; a word without any is compared as it stands, trimmed.
pub open spec fn normal_form(s: Seq<char>, lower: Seq<char>) -> Seq<char> {
    let n = alphanumeric_only(lower);
    if n.len() == 0 {
        text::trimmed(s)
    } else {
        n
    }
}

/// The form in which two words are compared.
pub open spec fn normalized(s: Seq<char>) -> Seq<char> {
    normal_form(s, text::lowercase(s))
}

/// The form in which two words are compared, the lower case of `s` being `lower`.
pub fn normalize_lower(s: &str, lower: &str) -> (r: String)
    ensures
        r@ == normal_form(s@, lower@),
{
    let v: Vec<char> = text::to_chars(lower);
    let n: usize = v.len();
    let mut kept: String = String::new();
    let mut i: usize = 0;
    proof {
        assert(lower@.take(0) =~= Seq::<char>::empty());
    }
    while i < n
        invariant
            n == v@.len(),
            v@ == lower@,
            i <= n,
            kept@ == alphanumeric_only(lower@.take(i as int)),
        decreases n - i,
    {
        proof {
            assert(lower@.take(i + 1).drop_last() =~= lower@.take(i as int));
        }
        if v[i].is_alphanumeric() {
            kept.push(v[i]);
        }
        i += 1;
    }
    proof {
        assert(lower@.take(n as int) =~= lower@);
    }
    if kept.as_str().is_empty() {
        text::trim(s)
    } else {
        kept
    }
}

/// The form in which two words are compared.
pub fn normalize(s: &str) -> (r: String)
    ensures
        r@ == normalized(s@),
{
    let lower: String = s.to_lowercase();
    normalize_lower(s, lower.as_str())
}

/// Whether two words count as the same.
pub open spec fn same_word(a: Seq<char>, b: Seq<char>) -> bool {
    normalized(a) == normalized(b)
}

/// Whether two words count as the same.
pub fn words_agree(a: &String, b: &String) -> (r: bool)
    ensures
        r == same_word(a@, b@),
{
    normalize(a.as_str()) == normalize(b.as_str())
}

/// A word vanishes in comparison exactly where it is blank and its lower case
/// holds no letter or digit: one of punctuation alone does not.
pub proof fn law_only_blank_words_vanish(s: Seq<char>, lower: Seq<char>)
    ensures
        (normal_form(s, lower).len() == 0) == (text::trimmed(s).len() == 0 && alphanumeric_only(
            lower,
        ).len() == 0),
        normalized(s).len() == 0 ==> text::trimmed(s).len() == 0,
{
}

/// The normal form is its own normal form, where its lower case holds the same
/// letters and digits as that of the word.
pub proof fn law_normal_form_is_stable(s: Seq<char>, lower: Seq<char>, again: Seq<char>)
    requires
        alphanumeric_only(again) == alphanumeric_only(lower),
    ensures
        normal_form(normal_form(s, lower), again) == normal_form(s, lower),
{
    if alphanumeric_only(lower).len() == 0 {
        text::lemma_trimmed_twice(s);
    }
}

/// A blank in front of a word does not change its normal form, where the lower
/// case holds the same letters and digits.
pub proof fn law_blank_in_front_is_ignored(s: Seq<char>, lower: Seq<char>, with_blank: Seq<char>)
    requires
        alphanumeric_only(with_blank) == alphanumeric_only(lower),
    ensures
        normal_form(seq![' '] + s, with_blank) == normal_form(s, lower),
{
    assert((seq![' '] + s).drop_first() =~= s);
}

/// Whether the last `n` words of `w1` are the first `n` words of `w2`.
pub open spec fn overlaps(w1: Seq<Seq<char>>, w2: Seq<Seq<char>>, n: int) -> bool {
    &&& 0 <= n <= w1.len()
    &&& n <= w2.len()
    &&& forall|i: int| 0 <= i < n ==> same_word(w1[w1.len() - n + i], #[trigger] w2[i])
}

/// The largest overlap of `w1` and `w2` that is no longer than `k`.
pub open spec fn largest_overlap(w1: Seq<Seq<char>>, w2: Seq<Seq<char>>, k: nat) -> nat
    decreases k,
{
    if k == 0 || overlaps(w1, w2, k as int) {
        k
    } else {
        largest_overlap(w1, w2, (k - 1) as nat)
    }
}

/// How many words at the end of `w1` are repeated at the start of `w2`.
pub open spec fn overlap_len(w1: Seq<Seq<char>>, w2: Seq<Seq<char>>) -> nat {
    largest_overlap(w1, w2, vstd::math::min(w1.len() as int, w2.len() as int) as nat)
}

/// The overlap found is one, and no longer one exists.
pub proof fn law_overlap_is_longest(w1: Seq<Seq<char>>, w2: Seq<Seq<char>>)
    ensures
        overlaps(w1, w2, overlap_len(w1, w2) as int),
        forall|n: int| #[trigger] overlaps(w1, w2, n) ==> n <= overlap_len(w1, w2),
{
    lemma_largest_overlap(
        w1,
        w2,
        vstd::math::min(w1.len() as int, w2.len() as int) as nat,
    );
}

proof fn lemma_largest_overlap(w1: Seq<Seq<char>>, w2: Seq<Seq<char>>, k: nat)
    requires
        k <= w1.len(),
        k <= w2.len(),
    ensures
        overlaps(w1, w2, largest_overlap(w1, w2, k) as int),
        forall|n: int| n <= k && #[trigger] overlaps(w1, w2, n) ==> n <= largest_overlap(w1, w2, k),
    decreases k,
{
    if k > 0 && !overlaps(w1, w2, k as int) {
        lemma_largest_overlap(w1, w2, (k - 1) as nat);
    }
}

/// How many words at the end of `w1` are repeated at the start of `w2`.
pub fn find_overlap(w1: &Vec<String>, w2: &Vec<String>) -> (n: usize)
    ensures
        n == overlap_len(text::views(w1@), text::views(w2@)),
        n <= w1@.len(),
        n <= w2@.len(),
{
    let n1: usize = w1.len();
    let n2: usize = w2.len();
    let mut len: usize = if n1 < n2 {
        n1
    } else {
        n2
    };
    while len > 0
        invariant
            n1 == w1@.len(),
            n2 == w2@.len(),
            len <= n1,
            len <= n2,
            overlap_len(text::views(w1@), text::views(w2@)) == largest_overlap(
                text::views(w1@),
                text::views(w2@),
                len as nat,
            ),
        decreases len,
    {
        let mut i: usize = 0;
        while i < len && words_agree(&w1[n1 - len + i], &w2[i])
            invariant
                n1 == w1@.len(),
                n2 == w2@.len(),
                i <= len <= n1,
                len <= n2,
                forall|k: int|
                    0 <= k < i ==> same_word(
                        text::views(w1@)[n1 - len + k],
                        #[trigger] text::views(w2@)[k],
                    ),
            decreases len - i,
        {
            i += 1;
        }
        if i == len {
            proof {
                assert(overlaps(text::views(w1@), text::views(w2@), len as int));
            }
            return len;
        }
        proof {
            assert(!same_word(text::views(w1@)[n1 - len + i], text::views(w2@)[i as int]));
            assert(!overlaps(text::views(w1@), text::views(w2@), len as int));
        }
        len -= 1;
    }
    0
}

// ---------------------------------------------------------------------------
// Artifacts
// ---------------------------------------------------------------------------

/// The markers that stand for silence and noise.
pub open spec fn is_marker(s: Seq<char>) -> bool {
    ||| s == "[BLANK_AUDIO]"@
    ||| s == "[blank_audio]"@
    ||| s == "(silêncio)"@
    ||| s == "(Silêncio)"@
    ||| s == "[Music]"@
    ||| s == "[music]"@
    ||| s == "[Música]"@
    ||| s == "[música]"@
    ||| s == "[Applause]"@
    ||| s == "[applause]"@
    ||| s == "(música)"@
    ||| s == "(Música)"@
    ||| s == "..."@
}

/// Text that stands for no speech: empty, a marker, or without any letter or
/// digit.
pub open spec fn artifact(s: Seq<char>) -> bool {
    ||| s.len() == 0
    ||| is_marker(s)
    ||| forall|i: int| 0 <= i < s.len() ==> !text::is_alphanumeric(#[trigger] s[i])
}

/// Whether a text stands for no speech.
pub fn is_artifact(text: &str) -> (r: bool)
    ensures
        r == artifact(text@),
{
    if text.is_empty() {
        return true;
    }
    if text::same_text(text, "[BLANK_AUDIO]") || text::same_text(text, "[blank_audio]") || text::same_text(
        text,
        "(silêncio)",
    ) || text::same_text(text, "(Silêncio)") || text::same_text(text, "[Music]") || text::same_text(text, "[music]")
        || text::same_text(text, "[Música]") || text::same_text(text, "[música]") || text::same_text(
        text,
        "[Applause]",
    ) || text::same_text(text, "[applause]") || text::same_text(text, "(música)") || text::same_text(text, "(Música)")
        || text::same_text(text, "...") {
        return true;
    }
    let v: Vec<char> = text::to_chars(text);
    let mut i: usize = 0;
    while i < v.len()
        invariant
            v@ == text@,
            i <= v@.len(),
            forall|k: int| 0 <= k < i ==> !text::is_alphanumeric(#[trigger] text@[k]),
            text@.len() != 0,
            !is_marker(text@),
        decreases v@.len() - i,
    {
        if v[i].is_alphanumeric() {
            proof {
                assert(text::is_alphanumeric(text@[i as int]));
            }
            return false;
        }
        i += 1;
    }
    true
}

} // verus!
