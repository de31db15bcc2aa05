//! Cleaning up what the model answers.

use vstd::prelude::*;
use crate::daemon::transcriber;
use crate::text;

verus! {

/// Whether a segment stands for no speech, white space around it aside.
pub fn should_skip_segment(t: &str) -> (r: bool)
    ensures
        r == transcriber::artifact(text::trimmed(t@)),
{
    let s: String = text::trim(t);
    transcriber::is_artifact(s.as_str())
}

/// The last `n` words of the parts, with a blank between two; all of the parts
/// where they hold fewer.
pub open spec fn last_words(parts: Seq<Seq<char>>, n: nat) -> Seq<char> {
    let combined = text::joined(parts, " "@);
    let words = text::fields(combined);
    if words.len() < n {
        combined
    } else {
        text::joined(words.skip(words.len() - n), " "@)
    }
}

/// The last `n` words of the parts.
pub fn last_n_words_of_parts(parts: &Vec<String>, n: usize) -> (r: String)
    ensures
        r@ == last_words(text::views(parts@), n as nat),
{
    let combined: String = text::join(parts, " ");
    let words: Vec<String> = text::split_white_space(combined.as_str());
    proof {
        assert(text::views(words@).len() == words@.len());
    }
    if words.len() < n {
        return combined;
    }
    let start: usize = words.len() - n;
    let mut kept: Vec<String> = Vec::new();
    let mut i: usize = start;
    while i < words.len()
        invariant
            start <= i <= words@.len(),
            kept@.len() == i - start,
            forall|k: int| 0 <= k < i - start ==> (#[trigger] kept@[k])@ == words@[start + k]@,
        decreases words@.len() - i,
    {
        kept.push(words[i].clone());
        i += 1;
    }
    proof {
        assert(text::views(kept@) =~= text::views(words@).skip(start as int));
    }
    text::join(&kept, " ")
}

/// Where `suffix` is found again in `current`: the byte position behind it, if it
/// begins in its first third. It is sought as text, so that it may be found, and
/// end, inside a word. It is sought in the lower case of both; the position found
/// there is used in `current` itself.
pub open spec fn repeat_end(
    current: Seq<char>,
    current_lower: Seq<char>,
    suffix: Seq<char>,
    suffix_lower: Seq<char>,
) -> Option<int> {
    match text::find_text(current_lower, suffix_lower) {
        Some(pos) if suffix.len() > 0 && pos < vstd::utf8::encode_utf8(current).len() as int
            / 3 => Some(pos + vstd::utf8::encode_utf8(suffix).len()),
        _ => None,
    }
}

/// What comes of looking for repeated words, mathematically.
pub ghost enum Cut {
    /// Nothing is repeated, or nothing else is said.
    Nothing,
    /// The repeated words end inside a character, as counted in lower case.
    InsideCharacter,
    /// What is left behind the repeated words.
    Rest(Seq<char>),
}

/// What comes of looking for `suffix` in `current`, the lower case of both being
/// given.
pub open spec fn cut_suffix(
    current: Seq<char>,
    current_lower: Seq<char>,
    suffix: Seq<char>,
    suffix_lower: Seq<char>,
) -> Cut {
    match repeat_end(current, current_lower, suffix, suffix_lower) {
        None => Cut::Nothing,
        Some(b) => if !vstd::utf8::is_char_boundary(vstd::utf8::encode_utf8(current), b) {
            Cut::InsideCharacter
        } else {
            let rest = text::trimmed(text::from_byte(current, b));
            if rest.len() == 0 {
                Cut::Nothing
            } else {
                Cut::Rest(rest)
            }
        },
    }
}

/// What comes of looking for the last `n` words of what came before.
pub open spec fn cut_words(previous: Seq<Seq<char>>, current: Seq<char>, n: nat) -> Cut {
    let suffix = last_words(previous, n);
    cut_suffix(current, text::lowercase(current), suffix, text::lowercase(suffix))
}

/// What comes of looking for repeated words: eight, then four, then two.
pub open spec fn cut(previous: Seq<Seq<char>>, current: Seq<char>) -> Cut {
    match cut_words(previous, current, 8) {
        Cut::Nothing => match cut_words(previous, current, 4) {
            Cut::Nothing => cut_words(previous, current, 2),
            c => c,
        },
        c => c,
    }
}

/// `current` without the words at its start that repeat the end of what came
/// before. They are sought as text: a repeat may end inside a word, whose end is
/// then what is left of it. Where it ends inside a character, nothing is removed.
pub open spec fn without_repeat(previous: Seq<Seq<char>>, current: Seq<char>) -> Seq<char> {
    match cut(previous, current) {
        Cut::Rest(rest) => rest,
        _ => current,
    }
}

/// What comes of looking for repeated words.
#[derive(Debug)]
pub enum Repeat {
    /// Nothing is repeated, or nothing else is said.
    Nothing,
    /// The repeated words end inside a character, as counted in lower case.
    InsideCharacter,
    /// What is left behind the repeated words.
    Rest(String),
}

impl Repeat {
    pub open spec fn view(&self) -> Cut {
        match self {
            Repeat::Nothing => Cut::Nothing,
            Repeat::InsideCharacter => Cut::InsideCharacter,
            Repeat::Rest(r) => Cut::Rest(r@),
        }
    }
}

/// Looks for `suffix` in `current`, the lower case of both being given.
pub fn find_suffix(
    current: &str,
    current_lower: &str,
    suffix: &str,
    suffix_lower: &str,
) -> (r: Repeat)
    ensures
        r@ == cut_suffix(current@, current_lower@, suffix@, suffix_lower@),
{
    if suffix.is_empty() {
        return Repeat::Nothing;
    }
    match text::find(current_lower, suffix_lower) {
        None => Repeat::Nothing,
        Some(pos) => {
            let len: usize = current.as_bytes().len();
            if pos >= len / 3 {
                return Repeat::Nothing;
            }
            let width: usize = suffix.as_bytes().len();
            proof {
                vstd::utf8::encode_utf8_valid_utf8(current@);
            }
            if width > len - pos || !current.is_char_boundary(pos + width) {
                return Repeat::InsideCharacter;
            }
            let tail: String = text::text_from_byte(current, pos + width);
            let rest: String = text::trim(tail.as_str());
            if rest.as_str().is_empty() {
                Repeat::Nothing
            } else {
                Repeat::Rest(rest)
            }
        },
    }
}

fn find_repeat(previous: &Vec<String>, current: &str, n: usize) -> (r: Repeat)
    ensures
        r@ == cut_words(text::views(previous@), current@, n as nat),
{
    let suffix: String = last_n_words_of_parts(previous, n);
    let current_lower: String = current.to_lowercase();
    let suffix_lower: String = suffix.as_str().to_lowercase();
    find_suffix(current, current_lower.as_str(), suffix.as_str(), suffix_lower.as_str())
}

fn find_any_repeat(previous: &Vec<String>, current: &str) -> (r: Repeat)
    ensures
        r@ == cut(text::views(previous@), current@),
{
    match find_repeat(previous, current, 8) {
        Repeat::Nothing => match find_repeat(previous, current, 4) {
            Repeat::Nothing => find_repeat(previous, current, 2),
            f => f,
        },
        f => f,
    }
}

/// Removes from the start of `current` what already stands at the end of
/// `previous`. A repeat may end inside a word.
pub fn remove_overlap_prefix(previous: &Vec<String>, current: &str) -> (r: String)
    ensures
        r@ == without_repeat(text::views(previous@), current@),
{
    match find_any_repeat(previous, current) {
        Repeat::Rest(rest) => rest,
        _ => current.to_owned(),
    }
}

/// Where nothing came before, nothing is removed.
pub proof fn law_nothing_before_nothing_removed(current: Seq<char>)
    ensures
        without_repeat(Seq::empty(), current) == current,
{
    let none = Seq::<Seq<char>>::empty();
    assert(text::joined(none, " "@) =~= Seq::<char>::empty());
    assert(text::fields(Seq::<char>::empty()).len() == 0);
    assert(last_words(none, 8).len() == 0);
    assert(last_words(none, 4).len() == 0);
    assert(last_words(none, 2).len() == 0);
}

/// Removing repeated words never leaves an empty text of one that was not.
pub proof fn law_something_is_left(previous: Seq<Seq<char>>, current: Seq<char>)
    requires
        current.len() > 0,
    ensures
        without_repeat(previous, current).len() > 0,
{
}

} // verus!
