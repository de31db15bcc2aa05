//! Text as sequences of characters: white space, trimming, splitting, joining,
//! numerals and UTF-8 byte positions.

use vstd::prelude::*;
use vstd::utf8::*;

verus! {

// ---------------------------------------------------------------------------
// Characters
// ---------------------------------------------------------------------------

/// The Unicode property `White_Space`.
pub open spec fn is_white_space(c: char) -> bool {
    let v = c as u32;
    ||| 0x09 <= v <= 0x0d
    ||| v == 0x20
    ||| v == 0x85
    ||| v == 0xa0
    ||| v == 0x1680
    ||| 0x2000 <= v <= 0x200a
    ||| v == 0x2028
    ||| v == 0x2029
    ||| v == 0x202f
    ||| v == 0x205f
    ||| v == 0x3000
}

/// Whether `c` is white space.
pub fn white_space(c: char) -> (b: bool)
    ensures
        b == is_white_space(c),
{
    let v: u32 = c as u32;
    (0x09 <= v && v <= 0x0d) || v == 0x20 || v == 0x85 || v == 0xa0 || v == 0x1680 || (0x2000 <= v
        && v <= 0x200a) || v == 0x2028 || v == 0x2029 || v == 0x202f || v == 0x205f || v == 0x3000
}

/// What `char::is_alphanumeric` answers for a character.
pub uninterp spec fn is_alphanumeric(c: char) -> bool;

/// `char::is_alphanumeric` reads the Unicode tables: its answer depends on the
/// character alone. Nothing more is claimed of it.
pub assume_specification[ char::is_alphanumeric ](c: char) -> (b: bool)
    ensures
        b == is_alphanumeric(c),
;

/// What `str::to_lowercase` returns for a text.
pub uninterp spec fn lowercase(s: Seq<char>) -> Seq<char>;

/// `str::to_lowercase` maps a text through the Unicode tables: what it returns
/// depends on the text alone. Nothing more is claimed of it.
pub assume_specification[ str::to_lowercase ](s: &str) -> (r: String)
    ensures
        r@ == lowercase(s@),
;

/// `String::push` appends one character.
pub assume_specification[ String::push ](s: &mut String, c: char)
    ensures
        final(s)@ == old(s)@.push(c),
;

// ---------------------------------------------------------------------------
// Texts and lists of characters
// ---------------------------------------------------------------------------

/// The characters of a text.
pub fn to_chars(s: &str) -> (v: Vec<char>)
    ensures
        v@ == s@,
{
    let mut v: Vec<char> = Vec::new();
    for c in it: s.chars()
        invariant
            it.seq() == s@,
            v@ == s@.take(it.index() as int),
    {
        v.push(c);
    }
    v
}

/// The characters of `v` from `from` up to `to`, as a text.
pub fn from_chars(v: &Vec<char>, from: usize, to: usize) -> (s: String)
    requires
        from <= to <= v@.len(),
    ensures
        s@ == v@.subrange(from as int, to as int),
{
    let mut s: String = String::new();
    let mut i: usize = from;
    while i < to
        invariant
            from <= i <= to <= v@.len(),
            s@ == v@.subrange(from as int, i as int),
        decreases to - i,
    {
        s.push(v[i]);
        i += 1;
    }
    s
}

/// Whether two texts hold the same characters.
pub fn same_text(a: &str, b: &str) -> (r: bool)
    ensures
        r == (a@ == b@),
{
    a.to_owned() == b.to_owned()
}

/// The views of a list of texts.
pub open spec fn views(v: Seq<String>) -> Seq<Seq<char>> {
    Seq::new(v.len(), |i: int| v[i]@)
}

// ---------------------------------------------------------------------------
// Trimming
// ---------------------------------------------------------------------------

/// `s` without its leading white space.
pub open spec fn trim_start(s: Seq<char>) -> Seq<char>
    decreases s.len(),
{
    if s.len() > 0 && is_white_space(s[0]) {
        trim_start(s.drop_first())
    } else {
        s
    }
}

/// `s` without its trailing white space.
pub open spec fn trim_end(s: Seq<char>) -> Seq<char>
    decreases s.len(),
{
    if s.len() > 0 && is_white_space(s.last()) {
        trim_end(s.drop_last())
    } else {
        s
    }
}

/// `s` without white space at either end.
pub open spec fn trimmed(s: Seq<char>) -> Seq<char> {
    trim_end(trim_start(s))
}

/// Trimming a text twice is trimming it once.
pub proof fn lemma_trimmed_twice(s: Seq<char>)
    ensures
        trimmed(trimmed(s)) == trimmed(s),
{
    lemma_trim_start(s);
    let t = trim_start(s);
    lemma_trim_end(t);
    let r = trim_end(t);
    if r.len() > 0 {
        assert(r[0] == t[0]);
    }
    assert(trim_start(r) == r);
}

proof fn lemma_trim_start(s: Seq<char>)
    ensures
        trim_start(s).len() > 0 ==> !is_white_space(trim_start(s)[0]),
    decreases s.len(),
{
    if s.len() > 0 && is_white_space(s[0]) {
        lemma_trim_start(s.drop_first());
    }
}

proof fn lemma_trim_end(s: Seq<char>)
    ensures
        trim_end(s).len() <= s.len(),
        forall|i: int| 0 <= i < trim_end(s).len() ==> #[trigger] trim_end(s)[i] == s[i],
        trim_end(s).len() > 0 ==> !is_white_space(trim_end(s).last()),
    decreases s.len(),
{
    if s.len() > 0 && is_white_space(s.last()) {
        let init = s.drop_last();
        lemma_trim_end(init);
        assert forall|i: int| 0 <= i < trim_end(s).len() implies #[trigger] trim_end(s)[i]
            == s[i] by {
            assert(trim_end(init)[i] == init[i]);
        }
    }
}

/// The text without white space at either end.
pub fn trim(s: &str) -> (r: String)
    ensures
        r@ == trimmed(s@),
{
    let v: Vec<char> = to_chars(s);
    let n: usize = v.len();
    let mut i: usize = 0;
    proof {
        assert(s@.skip(0) =~= s@);
    }
    while i < n && white_space(v[i])
        invariant
            n == v@.len(),
            v@ == s@,
            i <= n,
            trim_start(s@) == trim_start(s@.skip(i as int)),
        decreases n - i,
    {
        proof {
            assert(s@.skip(i as int).drop_first() =~= s@.skip(i + 1));
            assert(s@.skip(i as int)[0] == s@[i as int]);
        }
        i += 1;
    }
    let ghost rest = s@.skip(i as int);
    proof {
        if i < n {
            assert(rest[0] == s@[i as int]);
        }
        assert(trim_start(s@) == rest);
        assert(rest =~= s@.subrange(i as int, n as int));
    }
    let mut j: usize = n;
    while j > i && white_space(v[j - 1])
        invariant
            n == v@.len(),
            v@ == s@,
            i <= j <= n,
            trim_end(rest) == trim_end(s@.subrange(i as int, j as int)),
        decreases j,
    {
        proof {
            let cur = s@.subrange(i as int, j as int);
            assert(cur.last() == s@[j - 1]);
            assert(cur.drop_last() =~= s@.subrange(i as int, j - 1));
        }
        j -= 1;
    }
    proof {
        let cur = s@.subrange(i as int, j as int);
        if j > i {
            assert(cur.last() == s@[j - 1]);
        }
        assert(trim_end(cur) == cur);
    }
    from_chars(&v, i, j)
}

// ---------------------------------------------------------------------------
// Joining
// ---------------------------------------------------------------------------

/// The texts one after the other.
pub open spec fn concat(parts: Seq<Seq<char>>) -> Seq<char>
    decreases parts.len(),
{
    if parts.len() == 0 {
        Seq::empty()
    } else {
        concat(parts.drop_last()) + parts.last()
    }
}

/// The texts one after the other, with `sep` between two neighbours.
pub open spec fn joined(parts: Seq<Seq<char>>, sep: Seq<char>) -> Seq<char>
    decreases parts.len(),
{
    if parts.len() == 0 {
        Seq::empty()
    } else if parts.len() == 1 {
        parts[0]
    } else {
        joined(parts.drop_last(), sep) + sep + parts.last()
    }
}

/// Joining two lists of texts is joining one, then the other.
pub proof fn lemma_concat_append(a: Seq<Seq<char>>, b: Seq<Seq<char>>)
    ensures
        concat(a + b) == concat(a) + concat(b),
    decreases b.len(),
{
    if b.len() == 0 {
        assert(a + b =~= a);
        assert(concat(a) + concat(b) =~= concat(a));
    } else {
        lemma_concat_append(a, b.drop_last());
        assert((a + b).drop_last() =~= a + b.drop_last());
        assert((a + b).last() == b.last());
        assert(concat(a + b) =~= concat(a) + concat(b));
    }
}

/// The texts of `v` from `from` up to `to`, one after the other.
pub fn concat_range(v: &Vec<String>, from: usize, to: usize) -> (r: String)
    requires
        from <= to <= v@.len(),
    ensures
        r@ == concat(views(v@).subrange(from as int, to as int)),
{
    let mut r: String = String::new();
    let mut i: usize = from;
    while i < to
        invariant
            from <= i <= to <= v@.len(),
            r@ == concat(views(v@).subrange(from as int, i as int)),
        decreases to - i,
    {
        proof {
            let next = views(v@).subrange(from as int, i + 1);
            assert(next.drop_last() =~= views(v@).subrange(from as int, i as int));
            assert(next.last() == v@[i as int]@);
        }
        r.append(v[i].as_str());
        i += 1;
    }
    r
}

/// The texts of `v`, with `sep` between two neighbours.
pub fn join(v: &Vec<String>, sep: &str) -> (r: String)
    ensures
        r@ == joined(views(v@), sep@),
{
    let n: usize = v.len();
    let mut r: String = String::new();
    let mut i: usize = 0;
    while i < n
        invariant
            n == v@.len(),
            i <= n,
            r@ == joined(views(v@).take(i as int), sep@),
        decreases n - i,
    {
        proof {
            let next = views(v@).take(i + 1);
            assert(next.drop_last() =~= views(v@).take(i as int));
            assert(next.last() == v@[i as int]@);
            assert(next.len() == 1 ==> next[0] == v@[i as int]@);
        }
        if i > 0 {
            r.append(sep);
        }
        r.append(v[i].as_str());
        i += 1;
    }
    proof {
        assert(views(v@).take(n as int) =~= views(v@));
    }
    r
}

// ---------------------------------------------------------------------------
// Fields between white space
// ---------------------------------------------------------------------------

/// The length of the run without white space that `s` begins with.
pub open spec fn field_len(s: Seq<char>) -> nat
    decreases s.len(),
{
    if s.len() > 0 && !is_white_space(s[0]) {
        1 + field_len(s.drop_first())
    } else {
        0
    }
}

/// A run lies within the text, holds no white space and cannot be extended.
pub proof fn lemma_field_len(s: Seq<char>)
    ensures
        field_len(s) <= s.len(),
        forall|i: int| 0 <= i < field_len(s) ==> !is_white_space(#[trigger] s[i]),
        field_len(s) < s.len() ==> is_white_space(s[field_len(s) as int]),
    decreases s.len(),
{
    if s.len() > 0 && !is_white_space(s[0]) {
        lemma_field_len(s.drop_first());
        assert forall|i: int| 0 <= i < field_len(s) implies !is_white_space(#[trigger] s[i]) by {
            if i > 0 {
                assert(s[i] == s.drop_first()[i - 1]);
            }
        }
        if field_len(s) < s.len() {
            assert(s[field_len(s) as int] == s.drop_first()[field_len(s) - 1]);
        }
    }
}

/// The maximal runs of characters that are not white space, in order.
pub open spec fn fields(s: Seq<char>) -> Seq<Seq<char>>
    decreases s.len(),
{
    if s.len() == 0 {
        Seq::empty()
    } else if is_white_space(s[0]) {
        fields(s.drop_first())
    } else {
        proof {
            lemma_field_len(s);
        }
        seq![s.take(field_len(s) as int)] + fields(s.skip(field_len(s) as int))
    }
}

/// The maximal runs of characters that are not white space, in order.
pub fn split_white_space(s: &str) -> (r: Vec<String>)
    ensures
        views(r@) == fields(s@),
{
    let v: Vec<char> = to_chars(s);
    let n: usize = v.len();
    let mut r: Vec<String> = Vec::new();
    let mut i: usize = 0;
    proof {
        assert(s@.skip(0) =~= s@);
        assert(views(r@) + fields(s@) =~= fields(s@));
    }
    while i < n
        invariant
            n == v@.len(),
            v@ == s@,
            i <= n,
            views(r@) + fields(s@.skip(i as int)) == fields(s@),
        decreases n - i,
    {
        let ghost rest = s@.skip(i as int);
        proof {
            assert(rest[0] == s@[i as int]);
        }
        if white_space(v[i]) {
            proof {
                assert(rest.drop_first() =~= s@.skip(i + 1));
            }
            i += 1;
        } else {
            let start: usize = i;
            proof {
                lemma_field_len(rest);
            }
            while i < n && !white_space(v[i])
                invariant
                    n == v@.len(),
                    v@ == s@,
                    rest == s@.skip(start as int),
                    start <= i <= n,
                    i - start <= field_len(rest) <= rest.len(),
                    forall|k: int| 0 <= k < field_len(rest) ==> !is_white_space(#[trigger] rest[k]),
                    field_len(rest) < rest.len() ==> is_white_space(rest[field_len(rest) as int]),
                decreases n - i,
            {
                proof {
                    assert(rest[i - start] == s@[i as int]);
                }
                i += 1;
            }
            proof {
                if i < n {
                    assert(rest[i - start] == s@[i as int]);
                }
                assert(i - start == field_len(rest));
                assert(rest.take(i - start) =~= s@.subrange(start as int, i as int));
                assert(rest.skip(i - start) =~= s@.skip(i as int));
            }
            let ghost before = r@;
            r.push(from_chars(&v, start, i));
            proof {
                assert(views(r@) =~= views(before).push(rest.take(i - start)));
                assert(views(before) + fields(rest) =~= views(r@) + fields(s@.skip(i as int)));
            }
        }
    }
    proof {
        assert(s@.skip(n as int) =~= Seq::<char>::empty());
        assert(views(r@) + fields(s@.skip(n as int)) =~= views(r@));
    }
    r
}

// ---------------------------------------------------------------------------
// Prefixes
// ---------------------------------------------------------------------------

/// Whether `s` begins with `p`.
pub open spec fn begins_with(s: Seq<char>, p: Seq<char>) -> bool {
    p.len() <= s.len() && s.take(p.len() as int) == p
}

/// Whether `s` begins with `p`.
pub fn starts_with(s: &str, p: &str) -> (r: bool)
    ensures
        r == begins_with(s@, p@),
{
    let a: Vec<char> = to_chars(s);
    let b: Vec<char> = to_chars(p);
    if b.len() > a.len() {
        return false;
    }
    let mut i: usize = 0;
    while i < b.len()
        invariant
            a@ == s@,
            b@ == p@,
            i <= b@.len() <= a@.len(),
            forall|k: int| 0 <= k < i ==> a@[k] == b@[k],
        decreases b@.len() - i,
    {
        if a[i] != b[i] {
            proof {
                assert(s@.take(p@.len() as int)[i as int] != p@[i as int]);
            }
            return false;
        }
        i += 1;
    }
    proof {
        assert(s@.take(p@.len() as int) =~= p@);
    }
    true
}

// ---------------------------------------------------------------------------
// Numerals
// ---------------------------------------------------------------------------

/// The digit for `d` in base sixteen, with lower case letters.
pub open spec fn digit(d: nat) -> char {
    if d < 10 {
        (48 + d) as char
    } else {
        (87 + d) as char
    }
}

/// The numeral of `n` in base `base`, without leading zeros.
pub open spec fn numeral(n: nat, base: nat) -> Seq<char>
    decreases n,
{
    if base < 2 || n < base {
        seq![digit(n)]
    } else {
        proof {
            vstd::arithmetic::div_mod::lemma_div_decreases(n as int, base as int);
        }
        numeral(n / base, base).push(digit(n % base))
    }
}

/// `s` with zeros in front of it, `width` characters long at least.
pub open spec fn zero_padded(s: Seq<char>, width: nat) -> Seq<char> {
    if s.len() >= width {
        s
    } else {
        Seq::new((width - s.len()) as nat, |i: int| '0') + s
    }
}

fn digit_char(d: u64) -> (c: char)
    requires
        d < 16,
    ensures
        c == digit(d as nat),
{
    let b: u8 = d as u8;
    if b < 10 {
        (48 + b) as char
    } else {
        (87 + b) as char
    }
}

/// The numeral of `n` in base `base`.
pub fn to_numeral(n: u64, base: u64) -> (s: String)
    requires
        2 <= base <= 16,
    ensures
        s@ == numeral(n as nat, base as nat),
    decreases n,
{
    if n < base {
        let mut s: String = String::new();
        s.push(digit_char(n));
        proof {
            assert(s@ =~= seq![digit(n as nat)]);
        }
        s
    } else {
        proof {
            vstd::arithmetic::div_mod::lemma_div_decreases(n as int, base as int);
            vstd::arithmetic::div_mod::lemma_mod_bound(n as int, base as int);
        }
        let mut s: String = to_numeral(n / base, base);
        s.push(digit_char(n % base));
        s
    }
}

/// The numeral of `n` in base `base`, with zeros in front up to `width`.
pub fn to_padded_numeral(n: u64, base: u64, width: usize) -> (s: String)
    requires
        2 <= base <= 16,
    ensures
        s@ == zero_padded(numeral(n as nat, base as nat), width as nat),
{
    let plain: String = to_numeral(n, base);
    let len: usize = plain.as_str().unicode_len();
    if len >= width {
        return plain;
    }
    let mut s: String = String::new();
    let mut i: usize = 0;
    while i < width - len
        invariant
            len < width,
            i <= width - len,
            s@ == Seq::new(i as nat, |k: int| '0'),
        decreases width - len - i,
    {
        s.push('0');
        i += 1;
        proof {
            assert(s@ =~= Seq::new(i as nat, |k: int| '0'));
        }
    }
    s.append(plain.as_str());
    s
}

// ---------------------------------------------------------------------------
// UTF-8 byte positions
// ---------------------------------------------------------------------------

/// The characters of `s` from byte `b` on.
pub open spec fn from_byte(s: Seq<char>, b: int) -> Seq<char> {
    decode_utf8(encode_utf8(s).subrange(b, encode_utf8(s).len() as int))
}

/// The characters of the text from byte `b` on.
pub fn text_from_byte(s: &str, b: usize) -> (r: String)
    requires
        is_char_boundary(encode_utf8(s@), b as int),
    ensures
        r@ == from_byte(s@, b as int),
{
    let (_head, tail) = s.split_at(b);
    proof {
        encode_utf8_decode_utf8(tail@);
    }
    tail.to_owned()
}

/// The number of bytes that a character takes.
pub fn width(c: char) -> (n: usize)
    ensures
        n == encode_scalar(c as u32).len(),
        1 <= n <= 4,
{
    let v: u32 = c as u32;
    if v <= 0x7f {
        1
    } else if v <= 0x7ff {
        2
    } else if v <= 0xffff {
        3
    } else {
        4
    }
}

/// The longest beginning of `s` that takes no more than `n` bytes.
pub open spec fn first_bytes(s: Seq<char>, n: int) -> Seq<char>
    decreases s.len(),
{
    if s.len() == 0 || encode_scalar(s[0] as u32).len() > n {
        Seq::empty()
    } else {
        seq![s[0]] + first_bytes(s.drop_first(), n - encode_scalar(s[0] as u32).len())
    }
}

/// The longest beginning of a text that takes no more than `n` bytes.
pub fn text_up_to_byte(s: &str, n: usize) -> (r: String)
    ensures
        r@ == first_bytes(s@, n as int),
{
    let v: Vec<char> = to_chars(s);
    let mut left: usize = n;
    let mut i: usize = 0;
    proof {
        assert(s@.skip(0) =~= s@);
        assert(s@.take(0) + first_bytes(s@, n as int) =~= first_bytes(s@, n as int));
    }
    while i < v.len() && width(v[i]) <= left
        invariant
            v@ == s@,
            i <= v@.len(),
            first_bytes(s@, n as int) == s@.take(i as int) + first_bytes(
                s@.skip(i as int),
                left as int,
            ),
        decreases v@.len() - i,
    {
        proof {
            let rest = s@.skip(i as int);
            assert(rest[0] == v@[i as int]);
            assert(rest.drop_first() =~= s@.skip(i + 1));
            let w = encode_scalar(v@[i as int] as u32).len() as int;
            assert(s@.take(i as int) + first_bytes(rest, left as int) =~= s@.take(i + 1)
                + first_bytes(s@.skip(i + 1), left - w));
        }
        left -= width(v[i]);
        i += 1;
    }
    proof {
        if i < v@.len() {
            assert(s@.skip(i as int)[0] == v@[i as int]);
        }
        assert(first_bytes(s@.skip(i as int), left as int) =~= Seq::<char>::empty());
        assert(s@.take(i as int) =~= s@.subrange(0, i as int));
        assert(first_bytes(s@, n as int) =~= s@.take(i as int));
    }
    from_chars(&v, 0, i)
}

/// The beginning is one of the text, takes no more bytes than asked, and where a
/// character begins at byte `n`, or the text ends there, it is all that stands
/// before.
pub proof fn lemma_first_bytes(s: Seq<char>, n: int)
    requires
        0 <= n,
    ensures
        first_bytes(s, n).is_prefix_of(s),
        encode_utf8(first_bytes(s, n)).len() <= n,
        is_char_boundary(encode_utf8(s), n) ==> encode_utf8(first_bytes(s, n)) == encode_utf8(
            s,
        ).subrange(0, n),
    decreases s.len(),
{
    let r = first_bytes(s, n);
    let bytes = encode_utf8(s);
    encode_utf8_valid_utf8(s);
    if s.len() == 0 {
        assert(r =~= s.take(0));
        assert(bytes.len() == 0);
        assert(is_char_boundary(bytes, n) ==> n == 0);
        assert(bytes.subrange(0, 0) =~= encode_utf8(r));
    } else {
        let w = encode_scalar(s[0] as u32).len() as int;
        let rest = s.drop_first();
        encode_utf8_first_scalar(s);
        encode_utf8_valid_utf8(rest);
        assert(pop_first_scalar(bytes) =~= encode_utf8(rest));
        if w > n {
            assert(r =~= s.take(0));
            assert(n == 0 || !is_char_boundary(encode_utf8(rest), n - w));
            assert(bytes.subrange(0, 0) =~= Seq::<u8>::empty());
        } else {
            lemma_first_bytes(rest, n - w);
            let tail = first_bytes(rest, n - w);
            assert(r =~= s.take(r.len() as int));
            assert(r.drop_first() =~= tail);
            assert(r[0] == s[0]);
            if is_char_boundary(bytes, n) {
                assert(n <= bytes.len());
                assert(encode_utf8(r) =~= bytes.subrange(0, n));
            }
        }
    }
}

/// Whether `needle` stands in `hay` at position `i`.
pub open spec fn occurs_at(hay: Seq<u8>, needle: Seq<u8>, i: int) -> bool {
    0 <= i && i + needle.len() <= hay.len() && hay.subrange(i, i + needle.len()) == needle
}

/// The first position of `needle` in `hay`, from `i` on.
pub open spec fn find_from(hay: Seq<u8>, needle: Seq<u8>, i: int) -> Option<int>
    decreases hay.len() + 1 - i,
{
    if i + needle.len() > hay.len() {
        None
    } else if occurs_at(hay, needle, i) {
        Some(i)
    } else {
        find_from(hay, needle, i + 1)
    }
}

/// The byte position at which `needle` first stands in `hay`.
pub open spec fn find_text(hay: Seq<char>, needle: Seq<char>) -> Option<int> {
    find_from(encode_utf8(hay), encode_utf8(needle), 0)
}

fn bytes_at(hay: &[u8], needle: &[u8], i: usize) -> (r: bool)
    requires
        i + needle@.len() <= hay@.len(),
    ensures
        r == occurs_at(hay@, needle@, i as int),
{
    let end: usize = hay.len();
    let mut k: usize = 0;
    while k < needle.len()
        invariant
            end == hay@.len(),
            i + needle@.len() <= end,
            k <= needle@.len(),
            forall|j: int| 0 <= j < k ==> hay@[i + j] == needle@[j],
        decreases needle@.len() - k,
    {
        if hay[i + k] != needle[k] {
            proof {
                assert(hay@.subrange(i as int, i + needle@.len())[k as int] != needle@[k as int]);
            }
            return false;
        }
        k += 1;
    }
    proof {
        assert(hay@.subrange(i as int, i + needle@.len()) =~= needle@);
    }
    true
}

/// The byte position at which `needle` first stands in `hay`.
pub fn find(hay: &str, needle: &str) -> (r: Option<usize>)
    ensures
        match r {
            Some(i) => find_text(hay@, needle@) == Some(i as int),
            None => find_text(hay@, needle@) is None,
        },
{
    let h: &[u8] = hay.as_bytes();
    let n: &[u8] = needle.as_bytes();
    if n.len() > h.len() {
        return None;
    }
    let last: usize = h.len() - n.len();
    let mut i: usize = 0;
    loop
        invariant
            h@ == encode_utf8(hay@),
            n@ == encode_utf8(needle@),
            last == h@.len() - n@.len(),
            i <= last,
            find_text(hay@, needle@) == find_from(h@, n@, i as int),
        decreases last - i,
    {
        if bytes_at(h, n, i) {
            return Some(i);
        }
        if i == last {
            proof {
                assert(find_from(h@, n@, i + 1) is None);
            }
            return None;
        }
        i += 1;
    }
}

} // verus!
