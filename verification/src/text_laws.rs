//! What holds of all texts.

use vstd::prelude::*;
use vstd::utf8::*;
use crate::text;

verus! {

// ---------------------------------------------------------------------------
// White space and trimming
// ---------------------------------------------------------------------------

/// White space is the tab, the ends of lines, the blank and the blanks of other
/// widths, and nothing else.
pub proof fn law_white_space_is_that_of_unicode(c: char)
    ensures
        text::is_white_space(c) == ({
            ||| c == '\t' || c == '\n' || c == '\u{b}' || c == '\u{c}' || c == '\r'
            ||| c == ' ' || c == '\u{85}' || c == '\u{a0}' || c == '\u{1680}'
            ||| c == '\u{2000}' || c == '\u{2001}' || c == '\u{2002}' || c == '\u{2003}'
            ||| c == '\u{2004}' || c == '\u{2005}' || c == '\u{2006}' || c == '\u{2007}'
            ||| c == '\u{2008}' || c == '\u{2009}' || c == '\u{200a}'
            ||| c == '\u{2028}' || c == '\u{2029}' || c == '\u{202f}' || c == '\u{205f}'
            ||| c == '\u{3000}'
        }),
{
}

proof fn lemma_trim_start_at(s: Seq<char>) -> (i: int)
    ensures
        0 <= i <= s.len(),
        text::trim_start(s) == s.skip(i),
        forall|j: int| 0 <= j < i ==> text::is_white_space(#[trigger] s[j]),
        i < s.len() ==> !text::is_white_space(s[i]),
    decreases s.len(),
{
    if s.len() > 0 && text::is_white_space(s[0]) {
        let rest = s.drop_first();
        let k = lemma_trim_start_at(rest);
        assert(rest.skip(k) =~= s.skip(k + 1));
        assert forall|j: int| 0 <= j < k + 1 implies text::is_white_space(#[trigger] s[j]) by {
            if j > 0 {
                assert(rest[j - 1] == s[j]);
            }
        }
        if k < rest.len() {
            assert(rest[k] == s[k + 1]);
        }
        k + 1
    } else {
        assert(s.skip(0) =~= s);
        0
    }
}

proof fn lemma_trim_end_at(s: Seq<char>) -> (n: int)
    ensures
        0 <= n <= s.len(),
        text::trim_end(s) == s.take(n),
        forall|j: int| n <= j < s.len() ==> text::is_white_space(#[trigger] s[j]),
        n > 0 ==> !text::is_white_space(s[n - 1]),
    decreases s.len(),
{
    if s.len() > 0 && text::is_white_space(s.last()) {
        let init = s.drop_last();
        let n = lemma_trim_end_at(init);
        assert(init.take(n) =~= s.take(n));
        assert forall|j: int| n <= j < s.len() implies text::is_white_space(#[trigger] s[j]) by {
            if j < s.len() - 1 {
                assert(init[j] == s[j]);
            }
        }
        n
    } else {
        assert(s.take(s.len() as int) =~= s);
        s.len() as int
    }
}

/// Trimming takes away white space at both ends, all of it and nothing else: what
/// is left is the text between the two positions that are given.
pub proof fn law_trimming_takes_white_space_alone(s: Seq<char>) -> (r: (int, int))
    ensures
        0 <= r.0 <= r.1 <= s.len(),
        text::trimmed(s) == s.subrange(r.0, r.1),
        forall|j: int| 0 <= j < r.0 ==> text::is_white_space(#[trigger] s[j]),
        forall|j: int| r.1 <= j < s.len() ==> text::is_white_space(#[trigger] s[j]),
        r.0 < r.1 ==> !text::is_white_space(s[r.0]) && !text::is_white_space(s[r.1 - 1]),
{
    let i = lemma_trim_start_at(s);
    let rest = s.skip(i);
    let n = lemma_trim_end_at(rest);
    assert(rest.take(n) =~= s.subrange(i, i + n));
    assert forall|j: int| i + n <= j < s.len() implies text::is_white_space(#[trigger] s[j]) by {
        assert(rest[j - i] == s[j]);
    }
    if n > 0 {
        assert(rest[n - 1] == s[i + n - 1]);
    }
    (i, i + n)
}

/// White space in front of a text and behind it does not matter.
pub proof fn law_white_space_around_does_not_matter(a: Seq<char>, s: Seq<char>, b: Seq<char>)
    requires
        forall|j: int| 0 <= j < a.len() ==> text::is_white_space(#[trigger] a[j]),
        forall|j: int| 0 <= j < b.len() ==> text::is_white_space(#[trigger] b[j]),
        s.len() > 0 ==> !text::is_white_space(s[0]) && !text::is_white_space(s.last()),
    ensures
        text::trimmed(a + s + b) == s,
{
    let t = a + s + b;
    let r = law_trimming_takes_white_space_alone(t);
    assert forall|j: int| 0 <= j < a.len() implies text::is_white_space(#[trigger] t[j]) by {
        assert(t[j] == a[j]);
    }
    assert forall|j: int| a.len() + s.len() <= j < t.len() implies text::is_white_space(
        #[trigger] t[j],
    ) by {
        assert(t[j] == b[j - a.len() - s.len()]);
    }
    if s.len() > 0 {
        assert(t[a.len() as int] == s[0]);
        assert(t[a.len() + s.len() - 1] == s.last());
        assert(r.0 == a.len());
        assert(r.1 == a.len() + s.len());
        assert(t.subrange(r.0, r.1) =~= s);
    } else {
        if r.0 < r.1 {
            assert(text::is_white_space(t[r.0]));
        }
        assert(t.subrange(r.0, r.1) =~= s);
    }
}

// ---------------------------------------------------------------------------
// Joining and splitting
// ---------------------------------------------------------------------------

/// Texts are put one after the other: of none comes none, of one comes itself,
/// and of two lists what comes of the one, then what comes of the other.
pub proof fn law_texts_are_put_in_order(a: Seq<Seq<char>>, b: Seq<Seq<char>>, s: Seq<char>)
    ensures
        text::concat(Seq::empty()) == Seq::<char>::empty(),
        text::concat(seq![s]) == s,
        text::concat(a + b) == text::concat(a) + text::concat(b),
{
    text::lemma_concat_append(a, b);
    assert(seq![s].drop_last() =~= Seq::<Seq<char>>::empty());
    assert(text::concat(Seq::<Seq<char>>::empty()) =~= Seq::<char>::empty());
    assert(text::concat(seq![s]) =~= Seq::<char>::empty() + s);
}

/// Joining puts the separator between two texts and nowhere else: of none comes
/// none, of one comes itself, and of two lists what comes of the one, the
/// separator, and what comes of the other.
pub proof fn law_separator_stands_between(
    a: Seq<Seq<char>>,
    b: Seq<Seq<char>>,
    s: Seq<char>,
    sep: Seq<char>,
)
    ensures
        text::joined(Seq::empty(), sep) == Seq::<char>::empty(),
        text::joined(seq![s], sep) == s,
        a.len() > 0 && b.len() > 0 ==> text::joined(a + b, sep) == text::joined(a, sep) + sep
            + text::joined(b, sep),
    decreases b.len(),
{
    if a.len() > 0 && b.len() > 0 {
        assert((a + b).drop_last() =~= a + b.drop_last());
        assert((a + b).last() == b.last());
        if b.len() == 1 {
            assert(a + b.drop_last() =~= a);
        } else {
            law_separator_stands_between(a, b.drop_last(), s, sep);
            assert(text::joined(a + b, sep) =~= text::joined(a, sep) + sep + text::joined(b, sep));
        }
    }
}

proof fn lemma_field_len_before(a: Seq<char>, c: char, b: Seq<char>)
    requires
        text::is_white_space(c),
    ensures
        text::field_len(a + seq![c] + b) == text::field_len(a),
    decreases a.len(),
{
    let t = a + seq![c] + b;
    if a.len() > 0 && !text::is_white_space(a[0]) {
        lemma_field_len_before(a.drop_first(), c, b);
        assert(t[0] == a[0]);
        assert(t.drop_first() =~= a.drop_first() + seq![c] + b);
    } else if a.len() > 0 {
        assert(t[0] == a[0]);
    } else {
        assert(t[0] == c);
    }
}

/// A text is cut at white space, and nowhere else: one without any is a field of
/// its own, and the fields on the two sides of white space are those of the two
/// sides.
pub proof fn law_fields_lie_between_white_space(
    a: Seq<char>,
    c: char,
    b: Seq<char>,
    w: Seq<char>,
)
    requires
        text::is_white_space(c),
        w.len() > 0,
        forall|i: int| 0 <= i < w.len() ==> !text::is_white_space(#[trigger] w[i]),
    ensures
        text::fields(Seq::empty()) == Seq::<Seq<char>>::empty(),
        text::fields(w) == seq![w],
        text::fields(a + seq![c] + b) == text::fields(a) + text::fields(b),
    decreases a.len(),
{
    text::lemma_field_len(w);
    assert(text::field_len(w) == w.len());
    assert(w.take(w.len() as int) =~= w);
    assert(w.skip(w.len() as int) =~= Seq::<char>::empty());
    assert(!text::is_white_space(w[0]));
    assert(text::fields(Seq::<char>::empty()) =~= Seq::<Seq<char>>::empty());
    assert(text::fields(w) =~= seq![w]);
    let t = a + seq![c] + b;
    if a.len() == 0 {
        assert(t[0] == c);
        assert(t.drop_first() =~= b);
        assert(text::fields(a) + text::fields(b) =~= text::fields(b));
    } else if text::is_white_space(a[0]) {
        law_fields_lie_between_white_space(a.drop_first(), c, b, w);
        assert(t[0] == a[0]);
        assert(t.drop_first() =~= a.drop_first() + seq![c] + b);
    } else {
        let n = text::field_len(a) as int;
        text::lemma_field_len(a);
        lemma_field_len_before(a, c, b);
        assert(t[0] == a[0]);
        law_fields_lie_between_white_space(a.skip(n), c, b, w);
        assert(t.take(n) =~= a.take(n));
        assert(t.skip(n) =~= a.skip(n) + seq![c] + b);
        assert(text::fields(t) =~= text::fields(a) + text::fields(b));
    }
}

/// A field is not empty and holds no white space.
pub proof fn lemma_fields_are_words(s: Seq<char>)
    ensures
        forall|k: int|
            0 <= k < text::fields(s).len() ==> {
                &&& (#[trigger] text::fields(s)[k]).len() > 0
                &&& forall|i: int|
                    0 <= i < text::fields(s)[k].len() ==> !text::is_white_space(
                        #[trigger] text::fields(s)[k][i],
                    )
            },
    decreases s.len(),
{
    if s.len() == 0 {
        assert(text::fields(s).len() == 0);
    } else {
        if text::is_white_space(s[0]) {
            lemma_fields_are_words(s.drop_first());
            assert(text::fields(s) == text::fields(s.drop_first()));
        } else {
            let n = text::field_len(s) as int;
            text::lemma_field_len(s);
            lemma_fields_are_words(s.skip(n));
            let all = text::fields(s);
            let later = text::fields(s.skip(n));
            assert forall|k: int| 0 <= k < all.len() implies {
                &&& (#[trigger] all[k]).len() > 0
                &&& forall|i: int|
                    0 <= i < all[k].len() ==> !text::is_white_space(#[trigger] all[k][i])
            } by {
                if k == 0 {
                    assert(all[0] == s.take(n));
                } else {
                    assert(all[k] == later[k - 1]);
                }
            }
        }
    }
}

/// Words that were joined with blanks are found again.
pub proof fn law_joined_words_are_found_again(words: Seq<Seq<char>>)
    requires
        forall|k: int|
            0 <= k < words.len() ==> {
                &&& (#[trigger] words[k]).len() > 0
                &&& forall|i: int|
                    0 <= i < words[k].len() ==> !text::is_white_space(#[trigger] words[k][i])
            },
    ensures
        text::fields(text::joined(words, seq![' '])) == words,
    decreases words.len(),
{
    let blank = seq![' '];
    if words.len() == 0 {
        assert(text::fields(text::joined(words, blank)) =~= words);
    } else {
        let init = words.drop_last();
        let w = words.last();
        assert(w == words[words.len() - 1]);
        assert forall|k: int| 0 <= k < init.len() implies {
            &&& (#[trigger] init[k]).len() > 0
            &&& forall|i: int|
                0 <= i < init[k].len() ==> !text::is_white_space(#[trigger] init[k][i])
        } by {
            assert(init[k] == words[k]);
        }
        law_fields_lie_between_white_space(text::joined(init, blank), ' ', w, w);
        if words.len() == 1 {
            assert(words =~= seq![w]);
        } else {
            law_joined_words_are_found_again(init);
            assert(words =~= init + seq![w]);
        }
    }
}

/// A text begins with another exactly where it is that and something behind it.
pub proof fn law_beginning_stands_in_front(p: Seq<char>, rest: Seq<char>, s: Seq<char>)
    ensures
        text::begins_with(p + rest, p),
        text::begins_with(s, p) ==> s == p + s.skip(p.len() as int),
{
    assert((p + rest).take(p.len() as int) =~= p);
    if text::begins_with(s, p) {
        assert(s =~= s.take(p.len() as int) + s.skip(p.len() as int));
    }
}

// ---------------------------------------------------------------------------
// Numerals
// ---------------------------------------------------------------------------

/// What a digit is worth: a lower case letter counts from ten on.
pub open spec fn digit_value(c: char) -> int {
    if '0' <= c && c <= '9' {
        c as int - '0' as int
    } else {
        c as int - 'a' as int + 10
    }
}

/// What a numeral is worth.
pub open spec fn numeral_value(s: Seq<char>, base: int) -> int
    decreases s.len(),
{
    if s.len() == 0 {
        0
    } else {
        numeral_value(s.drop_last(), base) * base + digit_value(s.last())
    }
}

/// A numeral is worth the number that it was made of, and has no zero in front,
/// unless it is that of zero.
pub proof fn law_numerals_tell_numbers(n: nat, base: nat)
    requires
        2 <= base <= 16,
    ensures
        numeral_value(text::numeral(n, base), base as int) == n,
        text::numeral(n, base).len() > 0,
        n > 0 ==> text::numeral(n, base)[0] != '0',
        n == 0 ==> text::numeral(n, base) == seq!['0'],
    decreases n,
{
    let s = text::numeral(n, base);
    if n < base {
        assert(s.drop_last() =~= Seq::<char>::empty());
        assert(s.last() == text::digit(n));
        assert(numeral_value(s.drop_last(), base as int) == 0);
        assert(0 * base == 0) by (nonlinear_arith);
    } else {
        vstd::arithmetic::div_mod::lemma_div_decreases(n as int, base as int);
        vstd::arithmetic::div_mod::lemma_mod_bound(n as int, base as int);
        vstd::arithmetic::div_mod::lemma_fundamental_div_mod(n as int, base as int);
        vstd::arithmetic::mul::lemma_mul_is_commutative(base as int, n as int / base as int);
        vstd::arithmetic::div_mod::lemma_div_non_zero(n as int, base as int);
        law_numerals_tell_numbers(n / base, base);
        assert(s.drop_last() =~= text::numeral(n / base, base));
        assert(s.last() == text::digit(n % base));
        assert(s[0] == text::numeral(n / base, base)[0]);
    }
}

proof fn lemma_zeros_in_front(s: Seq<char>, k: nat, base: int)
    ensures
        numeral_value(Seq::new(k, |i: int| '0') + s, base) == numeral_value(s, base),
    decreases k + s.len(),
{
    let zeros = Seq::new(k, |i: int| '0');
    if s.len() > 0 {
        lemma_zeros_in_front(s.drop_last(), k, base);
        assert((zeros + s).drop_last() =~= zeros + s.drop_last());
        assert((zeros + s).last() == s.last());
    } else if k > 0 {
        let fewer = Seq::new((k - 1) as nat, |i: int| '0');
        lemma_zeros_in_front(s, (k - 1) as nat, base);
        assert((zeros + s).drop_last() =~= fewer + s);
        assert((zeros + s).last() == '0');
        assert(fewer + s =~= fewer);
        assert(numeral_value(fewer + s, base) == 0);
        assert(0 * base == 0) by (nonlinear_arith);
    } else {
        assert(zeros + s =~= s);
    }
}

/// Zeros in front do not change what a numeral is worth, and bring it to the
/// width that is asked, unless it is wider already.
pub proof fn law_zeros_in_front_change_nothing(s: Seq<char>, width: nat, base: int)
    ensures
        numeral_value(text::zero_padded(s, width), base) == numeral_value(s, base),
        s.len() <= width ==> text::zero_padded(s, width).len() == width,
        s.len() >= width ==> text::zero_padded(s, width) == s,
        s.is_suffix_of(text::zero_padded(s, width)),
{
    let r = text::zero_padded(s, width);
    if s.len() < width {
        lemma_zeros_in_front(s, (width - s.len()) as nat, base);
    }
    assert(r.skip(r.len() - s.len()) =~= s);
}

// ---------------------------------------------------------------------------
// Bytes
// ---------------------------------------------------------------------------

/// The bytes of two texts, one behind the other, are those of both.
pub proof fn lemma_bytes_append(a: Seq<char>, b: Seq<char>)
    ensures
        encode_utf8(a + b) == encode_utf8(a) + encode_utf8(b),
    decreases a.len(),
{
    if a.len() == 0 {
        assert(a + b =~= b);
        assert(encode_utf8(a) + encode_utf8(b) =~= encode_utf8(b));
    } else {
        lemma_bytes_append(a.drop_first(), b);
        assert((a + b).drop_first() =~= a.drop_first() + b);
        assert((a + b)[0] == a[0]);
        assert(encode_utf8(a + b) =~= encode_utf8(a) + encode_utf8(b));
    }
}

/// From the byte on at which the bytes of a beginning end, the characters are
/// those behind that beginning.
pub proof fn law_bytes_count_characters(a: Seq<char>, b: Seq<char>)
    ensures
        text::from_byte(a + b, encode_utf8(a).len() as int) == b,
{
    lemma_bytes_append(a, b);
    let all = encode_utf8(a + b);
    assert(all.subrange(encode_utf8(a).len() as int, all.len() as int) =~= encode_utf8(b));
    encode_utf8_decode_utf8(b);
}

/// Where the bytes of a beginning end, a character begins, or the text ends.
pub proof fn lemma_characters_begin(a: Seq<char>, b: Seq<char>)
    ensures
        is_char_boundary(encode_utf8(a + b), encode_utf8(a).len() as int),
    decreases a.len(),
{
    encode_utf8_valid_utf8(a + b);
    if a.len() > 0 {
        let all = a + b;
        let rest = a.drop_first() + b;
        lemma_characters_begin(a.drop_first(), b);
        lemma_bytes_append(a, b);
        encode_utf8_first_scalar(all);
        encode_utf8_valid_utf8(rest);
        assert(all.drop_first() =~= rest);
        assert(all[0] == a[0]);
        assert(pop_first_scalar(encode_utf8(all)) =~= encode_utf8(rest));
    }
}

/// What is read from a byte on at which a character begins is an end of the text.
pub proof fn lemma_end_from_byte(s: Seq<char>, b: int)
    requires
        is_char_boundary(encode_utf8(s), b),
    ensures
        text::from_byte(s, b).is_suffix_of(s),
{
    encode_utf8_valid_utf8(s);
    decode_utf8_split(encode_utf8(s), b);
    encode_utf8_decode_utf8(s);
    let r = text::from_byte(s, b);
    assert(s.skip(s.len() - r.len()) =~= r);
}

/// A beginning that takes no more than `n` bytes is the longest one: a character
/// more takes more.
pub proof fn law_beginning_is_longest(s: Seq<char>, n: int)
    requires
        0 <= n,
    ensures
        ({
            let r = text::first_bytes(s, n);
            &&& r.is_prefix_of(s)
            &&& encode_utf8(r).len() <= n
            &&& r.len() < s.len() ==> encode_utf8(s.take(r.len() as int + 1)).len() > n
        }),
    decreases s.len(),
{
    text::lemma_first_bytes(s, n);
    let r = text::first_bytes(s, n);
    if r.len() < s.len() {
        let w = encode_scalar(s[0] as u32).len() as int;
        let more = s.take(r.len() as int + 1);
        assert(more[0] == s[0]);
        if w <= n {
            let rest = s.drop_first();
            let tail = text::first_bytes(rest, n - w);
            law_beginning_is_longest(rest, n - w);
            assert(r.len() == tail.len() + 1);
            assert(more.drop_first() =~= rest.take(tail.len() as int + 1));
        }
    }
}

proof fn lemma_find_from(hay: Seq<u8>, needle: Seq<u8>, i: int)
    requires
        0 <= i,
    ensures
        match text::find_from(hay, needle, i) {
            Some(p) => {
                &&& i <= p
                &&& p + needle.len() <= hay.len()
                &&& hay.subrange(p, p + needle.len()) == needle
                &&& forall|j: int|
                    i <= j < p ==> #[trigger] hay.subrange(j, j + needle.len()) != needle
            },
            None => forall|j: int|
                i <= j <= hay.len() - needle.len() ==> #[trigger] hay.subrange(
                    j,
                    j + needle.len(),
                ) != needle,
        },
    decreases hay.len() + 1 - i,
{
    if i + needle.len() <= hay.len() && hay.subrange(i, i + needle.len()) != needle {
        lemma_find_from(hay, needle, i + 1);
    }
}

/// A text is found where its bytes first stand, and it is found wherever they
/// do.
pub proof fn law_first_place_is_found(hay: Seq<char>, needle: Seq<char>)
    ensures
        ({
            let h = encode_utf8(hay);
            let n = encode_utf8(needle);
            match text::find_text(hay, needle) {
                Some(p) => {
                    &&& 0 <= p
                    &&& p + n.len() <= h.len()
                    &&& h.subrange(p, p + n.len()) == n
                    &&& forall|j: int|
                        0 <= j < p ==> #[trigger] h.subrange(j, j + n.len()) != n
                },
                None => forall|j: int|
                    0 <= j <= h.len() - n.len() ==> #[trigger] h.subrange(j, j + n.len()) != n,
            }
        }),
{
    lemma_find_from(encode_utf8(hay), encode_utf8(needle), 0);
}

} // verus!
