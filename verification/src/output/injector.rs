//! The virtual keyboard: which key types which character, and which keys are
//! struck for a text.
//!
//! A key has a code, from 8 to 255. Common characters have keys from the start,
//! others get one when they first occur. A text is typed in parts: where the keys
//! run out a part ends, and the next one starts over with the common characters.

use std::collections::HashMap;
use vstd::prelude::*;
use crate::text;

pub mod keymap;
pub mod typing_laws;

verus! {

broadcast use vstd::std_specs::hash::group_hash_axioms;

/// The code of the first key.
pub const FIRST_KEYCODE: u32 = 8;

/// The code of the last key.
pub const LAST_KEYCODE: u32 = 255;

/// The time stamp of the first key stroke.
pub const KEY_RELEASE_TIME: u32 = 200;

/// How long a key is held down, in milliseconds.
pub const KEY_HOLD_MS: u32 = 10;

/// After how many characters the compositor is given time to follow.
pub const SYNC_INTERVAL: usize = 64;

// ---------------------------------------------------------------------------
// Keys
// ---------------------------------------------------------------------------

/// Which characters have keys, and the code of the next free key.
#[verifier::ext_equal]
pub ghost struct KeyTable {
    /// From the code point of a character to the code of its key.
    pub keys: Map<u32, u32>,
    pub next: int,
}

/// The letters of Portuguese that are not ASCII.
pub open spec fn portuguese_letters() -> Seq<char> {
    seq![
        'á', 'à', 'â', 'ã', 'é', 'ê', 'í', 'ó', 'ô', 'õ', 'ú', 'ç', 'Á', 'À', 'Â', 'Ã', 'É', 'Ê',
        'Í', 'Ó', 'Ô', 'Õ', 'Ú', 'Ç',
    ]
}

/// The code points of the common characters: printable ASCII, the line break,
/// the tab and the letters of Portuguese.
pub open spec fn standard_codes() -> Seq<u32> {
    Seq::new(95, |i: int| (32 + i) as u32) + seq![10u32, 9u32] + Seq::new(
        portuguese_letters().len(),
        |i: int| portuguese_letters()[i] as u32,
    )
}

/// One key for each of the characters, in order, the first with code `first`.
pub open spec fn keys_in_order(codes: Seq<u32>, first: int) -> Map<u32, u32>
    decreases codes.len(),
{
    if codes.len() == 0 {
        Map::empty()
    } else {
        keys_in_order(codes.drop_last(), first).insert(
            codes.last(),
            (first + codes.len() - 1) as u32,
        )
    }
}

/// Keys for the common characters alone.
pub open spec fn standard_table() -> KeyTable {
    KeyTable {
        keys: keys_in_order(standard_codes(), FIRST_KEYCODE as int),
        next: FIRST_KEYCODE + standard_codes().len(),
    }
}

impl KeyTable {
    /// No two characters share a key, the keys are exactly those up to the next
    /// free one, and the common characters have theirs.
    pub open spec fn wf(self) -> bool {
        &&& standard_table().next <= self.next <= LAST_KEYCODE + 1
        &&& forall|c: u32| #[trigger]
            self.keys.contains_key(c) ==> c <= 0x10_ffff && FIRST_KEYCODE <= self.keys[c]
                < self.next
        &&& forall|a: u32, b: u32|
            self.keys.contains_key(a) && self.keys.contains_key(b) && #[trigger] self.keys[a]
                == #[trigger] self.keys[b] ==> a == b
        &&& forall|k: int| FIRST_KEYCODE <= k < self.next ==> #[trigger] self.in_use(k)
        &&& forall|i: int|
            0 <= i < standard_codes().len() ==> self.keys.contains_key(
                #[trigger] standard_codes()[i],
            ) && self.keys[standard_codes()[i]] == FIRST_KEYCODE + i
    }

    /// Whether the key with code `k` types some character.
    pub open spec fn in_use(self, k: int) -> bool {
        exists|c: u32| #[trigger] self.keys.contains_key(c) && self.keys[c] == k
    }

    /// Whether a character has a key.
    pub open spec fn has(self, c: char) -> bool {
        self.keys.contains_key(c as u32)
    }

    /// Whether a character has a key or can get one.
    pub open spec fn can_type(self, c: char) -> bool {
        self.has(c) || self.next <= LAST_KEYCODE
    }

    /// The table with a key for `c`: the one it has, or the next free one.
    pub open spec fn with(self, c: char) -> KeyTable {
        if self.has(c) {
            self
        } else {
            KeyTable { keys: self.keys.insert(c as u32, self.next as u32), next: self.next + 1 }
        }
    }

    /// The table with keys for all characters of `s`, sought in order.
    pub open spec fn with_all(self, s: Seq<char>) -> KeyTable
        decreases s.len(),
    {
        if s.len() == 0 {
            self
        } else {
            self.with_all(s.drop_last()).with(s.last())
        }
    }

    /// For how many characters of `s`, from the first on, the keys last.
    pub open spec fn reach(self, s: Seq<char>) -> nat
        decreases s.len(),
    {
        if s.len() > 0 && self.can_type(s[0]) {
            1 + self.with(s[0]).reach(s.drop_first())
        } else {
            0
        }
    }

    /// The table from which a part that begins with `c` is typed: this one, or
    /// that of the common characters where `c` has no key and none is free.
    pub open spec fn ready_for(self, c: char) -> KeyTable {
        if self.can_type(c) {
            self
        } else {
            standard_table()
        }
    }
}

/// A part of a text that is typed with one keymap.
pub ghost struct Part {
    pub text: Seq<char>,
    /// The keys with which it is typed.
    pub table: KeyTable,
    /// Whether a new keymap is needed for it.
    pub renewed: bool,
}

/// Whether some character of `s` has no key.
pub open spec fn lacks(t: KeyTable, s: Seq<char>) -> bool {
    exists|i: int| 0 <= i < s.len() && !t.has(#[trigger] s[i])
}

/// The first part of a text that is not empty, on a keyboard with the table `t`:
/// as much of it as the keys last for. A new keymap is needed exactly where a
/// character of the part had no key.
pub open spec fn first_part(t: KeyTable, s: Seq<char>) -> Part {
    let base = t.ready_for(s[0]);
    let text = s.take(base.reach(s) as int);
    Part { text, table: base.with_all(text), renewed: lacks(t, text) }
}

/// The parts in which a text is typed.
pub open spec fn parts(t: KeyTable, s: Seq<char>) -> Seq<Part>
    decreases s.len(),
{
    if s.len() == 0 {
        Seq::empty()
    } else {
        proof {
            lemma_first_part_len(t, s);
        }
        seq![first_part(t, s)] + parts(
            first_part(t, s).table,
            s.skip(first_part(t, s).text.len() as int),
        )
    }
}

/// The table once a text is typed.
pub open spec fn table_after(t: KeyTable, s: Seq<char>) -> KeyTable
    decreases s.len(),
{
    if s.len() == 0 {
        t
    } else {
        proof {
            lemma_first_part_len(t, s);
        }
        table_after(first_part(t, s).table, s.skip(first_part(t, s).text.len() as int))
    }
}

proof fn lemma_reach_bound(t: KeyTable, s: Seq<char>)
    ensures
        t.reach(s) <= s.len(),
    decreases s.len(),
{
    if s.len() > 0 && t.can_type(s[0]) {
        lemma_reach_bound(t.with(s[0]), s.drop_first());
    }
}

/// The first part holds a character at least, and is no longer than the text.
pub proof fn lemma_first_part_len(t: KeyTable, s: Seq<char>)
    requires
        s.len() > 0,
    ensures
        0 < first_part(t, s).text.len() <= s.len(),
{
    lemma_standard_codes();
    lemma_reach_bound(t.ready_for(s[0]), s);
}

proof fn lemma_keys_in_order(codes: Seq<u32>, first: int)
    requires
        codes.no_duplicates(),
        0 <= first,
        first + codes.len() <= u32::MAX,
    ensures
        forall|c: u32| #[trigger]
            keys_in_order(codes, first).contains_key(c) ==> exists|i: int|
                0 <= i < codes.len() && #[trigger] codes[i] == c,
        forall|i: int|
            0 <= i < codes.len() ==> keys_in_order(codes, first).contains_key(#[trigger] codes[i])
                && keys_in_order(codes, first)[codes[i]] == first + i,
    decreases codes.len(),
{
    if codes.len() > 0 {
        let init = codes.drop_last();
        lemma_keys_in_order(init, first);
        assert forall|c: u32| #[trigger] keys_in_order(codes, first).contains_key(c) implies exists|
            i: int,
        |
            0 <= i < codes.len() && #[trigger] codes[i] == c by {
            if c == codes.last() {
                assert(codes[codes.len() - 1] == c);
            } else {
                assert(keys_in_order(init, first).contains_key(c));
                let i = choose|i: int| 0 <= i < init.len() && #[trigger] init[i] == c;
                assert(codes[i] == c);
            }
        }
        assert forall|i: int| 0 <= i < codes.len() implies keys_in_order(codes, first).contains_key(
            #[trigger] codes[i],
        ) && keys_in_order(codes, first)[codes[i]] == first + i by {
            if i < codes.len() - 1 {
                assert(init[i] == codes[i]);
                assert(codes[i] != codes[codes.len() - 1]);
            }
        }
    }
}

proof fn lemma_standard_codes()
    ensures
        standard_codes().len() == 121,
        standard_codes().no_duplicates(),
        forall|i: int| 0 <= i < standard_codes().len() ==> #[trigger] standard_codes()[i] <= 0x10_ffff,
{
    let letters = portuguese_letters();
    assert(letters.len() == 24);
    assert forall|i: int| 0 <= i < 24 implies 0xc0 <= #[trigger] letters[i] as u32 <= 0xff by {}
    assert forall|i: int, j: int| 0 <= i < j < 24 implies letters[i] != letters[j] by {}
    let codes = standard_codes();
    assert forall|i: int| 97 <= i < 121 implies #[trigger] codes[i] == letters[i - 97] as u32 by {}
    assert forall|i: int, j: int| 0 <= i < j < codes.len() implies codes[i] != codes[j] by {
        if i >= 97 {
            assert(letters[i - 97] != letters[j - 97]);
        } else if j >= 97 {
            assert(codes[j] == letters[j - 97] as u32);
        }
    }
}

// ---------------------------------------------------------------------------
// Laws of the keys
// ---------------------------------------------------------------------------

/// The keyboard starts out sound, with 121 keys in use.
pub proof fn law_standard_table_is_sound()
    ensures
        standard_table().wf(),
        standard_table().next == 129,
{
    lemma_standard_codes();
    lemma_keys_in_order(standard_codes(), FIRST_KEYCODE as int);
    let t = standard_table();
    assert forall|c: u32| #[trigger] t.keys.contains_key(c) implies c <= 0x10_ffff && FIRST_KEYCODE
        <= t.keys[c] < t.next by {
        let i = choose|i: int|
            0 <= i < standard_codes().len() && #[trigger] standard_codes()[i] == c;
        assert(t.keys[standard_codes()[i]] == FIRST_KEYCODE + i);
    }
    assert forall|a: u32, b: u32|
        t.keys.contains_key(a) && t.keys.contains_key(b) && #[trigger] t.keys[a]
            == #[trigger] t.keys[b] implies a == b by {
        let i = choose|i: int|
            0 <= i < standard_codes().len() && #[trigger] standard_codes()[i] == a;
        let j = choose|j: int|
            0 <= j < standard_codes().len() && #[trigger] standard_codes()[j] == b;
        assert(t.keys[standard_codes()[i]] == FIRST_KEYCODE + i);
        assert(t.keys[standard_codes()[j]] == FIRST_KEYCODE + j);
    }
    assert forall|k: int| FIRST_KEYCODE <= k < t.next implies #[trigger] t.in_use(k) by {
        assert(t.keys.contains_key(standard_codes()[k - FIRST_KEYCODE]));
    }
}

/// Giving a character a key keeps the keyboard sound, where one is free.
pub proof fn law_new_key_keeps_sound(t: KeyTable, c: char)
    requires
        t.wf(),
        t.can_type(c),
    ensures
        t.with(c).wf(),
        t.with(c).has(c),
        forall|k: u32| #[trigger]
            t.keys.contains_key(k) ==> t.with(c).keys.contains_key(k) && t.with(c).keys[k]
                == t.keys[k],
{
    lemma_standard_codes();
    let r = t.with(c);
    if !t.has(c) {
        assert forall|i: int| 0 <= i < standard_codes().len() implies r.keys.contains_key(
            #[trigger] standard_codes()[i],
        ) && r.keys[standard_codes()[i]] == FIRST_KEYCODE + i by {
            assert(t.keys.contains_key(standard_codes()[i]));
        }
        assert forall|k: int| FIRST_KEYCODE <= k < r.next implies #[trigger] r.in_use(k) by {
            if k == t.next {
                assert(r.keys.contains_key(c as u32));
            } else {
                assert(t.in_use(k));
                let d = choose|d: u32| #[trigger] t.keys.contains_key(d) && t.keys[d] == k;
                assert(r.keys.contains_key(d));
            }
        }
    }
}

/// Taking the first character of a text first makes no difference.
pub proof fn lemma_with_all_front(t: KeyTable, s: Seq<char>)
    requires
        s.len() > 0,
    ensures
        t.with_all(s) == t.with(s[0]).with_all(s.drop_first()),
    decreases s.len(),
{
    if s.len() == 1 {
        assert(s.drop_last() =~= Seq::<char>::empty());
        assert(s.drop_first() =~= Seq::<char>::empty());
        assert(t.with_all(s.drop_last()) == t);
    } else {
        lemma_with_all_front(t, s.drop_last());
        assert(s.drop_last().drop_first() =~= s.drop_first().drop_last());
    }
}

/// As far as the keys last, every character has a key, and none is taken back.
pub proof fn lemma_reached(t: KeyTable, s: Seq<char>, n: int)
    requires
        t.wf(),
        0 <= n <= t.reach(s),
    ensures
        n <= s.len(),
        t.with_all(s.take(n)).wf(),
        forall|i: int| 0 <= i < n ==> t.with_all(s.take(n)).has(#[trigger] s[i]),
        forall|k: u32| #[trigger]
            t.keys.contains_key(k) ==> t.with_all(s.take(n)).keys.contains_key(k) && t.with_all(
                s.take(n),
            ).keys[k] == t.keys[k],
        !lacks(t, s.take(n)) ==> t.with_all(s.take(n)) == t,
    decreases n,
{
    lemma_reach_bound(t, s);
    if n == 0 {
        assert(s.take(0) =~= Seq::<char>::empty());
    } else {
        let u = t.with(s[0]);
        let rest = s.drop_first();
        law_new_key_keeps_sound(t, s[0]);
        lemma_reached(u, rest, n - 1);
        lemma_with_all_front(t, s.take(n));
        assert(s.take(n).drop_first() =~= rest.take(n - 1));
        assert(s.take(n)[0] == s[0]);
        let r = t.with_all(s.take(n));
        assert(r == u.with_all(rest.take(n - 1)));
        assert forall|i: int| 0 <= i < n implies r.has(#[trigger] s[i]) by {
            if i == 0 {
                assert(u.keys.contains_key(s[0] as u32));
            } else {
                assert(rest[i - 1] == s[i]);
            }
        }
        if !lacks(t, s.take(n)) {
            assert(t.has(s.take(n)[0]));
            assert forall|i: int| 0 <= i < n - 1 implies u.has(#[trigger] rest.take(n - 1)[i]) by {
                assert(s.take(n)[i + 1] == rest.take(n - 1)[i]);
            }
            assert(!lacks(u, rest.take(n - 1)));
        }
    }
}

/// Every part of a text is typed on a sound keyboard on which each of its
/// characters has a key. Where no new keymap is needed, the keyboard is the same
/// as before.
pub proof fn law_part_is_typed(t: KeyTable, s: Seq<char>)
    requires
        t.wf(),
        s.len() > 0,
    ensures
        first_part(t, s).table.wf(),
        forall|i: int|
            0 <= i < first_part(t, s).text.len() ==> first_part(t, s).table.has(
                #[trigger] first_part(t, s).text[i],
            ),
        first_part(t, s).text.is_prefix_of(s),
        !first_part(t, s).renewed ==> first_part(t, s).table == t,
{
    let base = t.ready_for(s[0]);
    let n = base.reach(s) as int;
    law_standard_table_is_sound();
    lemma_first_part_len(t, s);
    lemma_reached(base, s, n);
    let p = first_part(t, s);
    assert forall|i: int| 0 <= i < p.text.len() implies p.table.has(#[trigger] p.text[i]) by {
        assert(p.text[i] == s[i]);
    }
    if !t.can_type(s[0]) {
        assert(!t.has(p.text[0]));
    }
}

/// The texts of the parts, one after the other.
pub open spec fn joined_text(ps: Seq<Part>) -> Seq<char>
    decreases ps.len(),
{
    if ps.len() == 0 {
        Seq::empty()
    } else {
        ps[0].text + joined_text(ps.drop_first())
    }
}

/// The parts of a text make up the text, no character of it is left out, and the
/// keyboard is sound whatever is typed.
pub proof fn law_parts_make_up_text(t: KeyTable, s: Seq<char>)
    requires
        t.wf(),
    ensures
        joined_text(parts(t, s)) == s,
        forall|k: int, i: int|
            0 <= k < parts(t, s).len() && 0 <= i < parts(t, s)[k].text.len() ==> parts(
                t,
                s,
            )[k].table.has(#[trigger] parts(t, s)[k].text[i]),
        forall|k: int| 0 <= k < parts(t, s).len() ==> (#[trigger] parts(t, s)[k]).table.wf(),
        table_after(t, s).wf(),
    decreases s.len(),
{
    if s.len() > 0 {
        let p = first_part(t, s);
        let n = p.text.len() as int;
        lemma_first_part_len(t, s);
        law_part_is_typed(t, s);
        law_parts_make_up_text(p.table, s.skip(n));
        let later = parts(p.table, s.skip(n));
        let all = parts(t, s);
        assert(all.drop_first() =~= later);
        assert(p.text + s.skip(n) =~= s);
        assert forall|k: int, i: int|
            0 <= k < all.len() && 0 <= i < all[k].text.len() implies all[k].table.has(
            #[trigger] all[k].text[i],
        ) by {
            if k > 0 {
                assert(all[k] == later[k - 1]);
                assert(later[k - 1].table.has(later[k - 1].text[i]));
            }
        }
        assert forall|k: int| 0 <= k < all.len() implies (#[trigger] all[k]).table.wf() by {
            if k > 0 {
                assert(all[k] == later[k - 1]);
            }
        }
    } else {
        assert(joined_text(parts(t, s)) =~= s);
    }
}

/// Whether a new keymap is needed for one of the parts.
pub open spec fn any_renewed(ps: Seq<Part>) -> bool {
    exists|k: int| 0 <= k < ps.len() && (#[trigger] ps[k]).renewed
}

/// A new keymap is needed exactly where a character of the text has no key.
pub proof fn law_keymap_is_sent_for_new_characters(t: KeyTable, s: Seq<char>)
    requires
        t.wf(),
    ensures
        any_renewed(parts(t, s)) == lacks(t, s),
        !lacks(t, s) ==> table_after(t, s) == t,
    decreases s.len(),
{
    if s.len() > 0 {
        let p = first_part(t, s);
        let n = p.text.len() as int;
        let all = parts(t, s);
        let later = parts(p.table, s.skip(n));
        lemma_first_part_len(t, s);
        law_part_is_typed(t, s);
        law_keymap_is_sent_for_new_characters(p.table, s.skip(n));
        if p.renewed {
            let i = choose|i: int| 0 <= i < p.text.len() && !t.has(#[trigger] p.text[i]);
            assert(!t.has(s[i]));
            assert(all[0].renewed);
        } else {
            if lacks(t, s) {
                let i = choose|i: int| 0 <= i < s.len() && !t.has(#[trigger] s[i]);
                if i < n {
                    assert(!t.has(p.text[i]));
                }
                assert(!t.has(s.skip(n)[i - n]));
                let k = choose|k: int| 0 <= k < later.len() && (#[trigger] later[k]).renewed;
                assert(all[k + 1].renewed);
            } else {
                assert forall|i: int| 0 <= i < s.skip(n).len() implies t.has(
                    #[trigger] s.skip(n)[i],
                ) by {
                    assert(t.has(s[i + n]));
                }
                assert(!lacks(p.table, s.skip(n)));
                assert forall|k: int| 0 <= k < all.len() implies !(#[trigger] all[k]).renewed by {
                    if k > 0 {
                        assert(all[k] == later[k - 1]);
                    }
                }
            }
        }
    }
}

/// The keys of the last keymap that was sent by the time part `k` is typed, `t`
/// being the table whose keymap was sent before.
pub open spec fn keymap_in_force(t: KeyTable, ps: Seq<Part>, k: int) -> Map<u32, u32>
    decreases k + 1,
{
    if k < 0 {
        t.keys
    } else if ps[k].renewed {
        ps[k].table.keys
    } else {
        keymap_in_force(t, ps, k - 1)
    }
}

/// Every part is typed with the keymap that was sent last.
pub proof fn law_keymap_in_force_is_that_of_part(t: KeyTable, s: Seq<char>, k: int)
    requires
        t.wf(),
        0 <= k < parts(t, s).len(),
    ensures
        keymap_in_force(t, parts(t, s), k) == parts(t, s)[k].table.keys,
    decreases s.len(),
{
    let p = first_part(t, s);
    let n = p.text.len() as int;
    let all = parts(t, s);
    let later = parts(p.table, s.skip(n));
    lemma_first_part_len(t, s);
    law_part_is_typed(t, s);
    assert(all.drop_first() =~= later);
    if k > 0 {
        law_keymap_in_force_is_that_of_part(p.table, s.skip(n), k - 1);
        lemma_in_force_shift(t, p, later, k - 1);
        assert(all =~= seq![p] + later);
    } else {
        assert(keymap_in_force(t, all, -1) == t.keys);
    }
}

proof fn lemma_in_force_shift(t: KeyTable, p: Part, later: Seq<Part>, k: int)
    requires
        -1 <= k < later.len(),
        !p.renewed ==> p.table == t,
    ensures
        keymap_in_force(t, seq![p] + later, k + 1) == keymap_in_force(p.table, later, k),
    decreases k + 1,
{
    if k >= 0 {
        lemma_in_force_shift(t, p, later, k - 1);
        assert((seq![p] + later)[k + 1] == later[k]);
    } else {
        assert(keymap_in_force(t, seq![p] + later, -1) == t.keys);
        assert((seq![p] + later)[0] == p);
    }
}

/// A text with no more characters than there are free keys is typed as one part.
pub proof fn law_free_keys_last(t: KeyTable, s: Seq<char>)
    requires
        s.len() > 0,
        t.next + s.len() <= LAST_KEYCODE + 1,
    ensures
        parts(t, s).len() == 1,
        parts(t, s)[0].text == s,
{
    lemma_free_keys(t, s);
    let p = first_part(t, s);
    assert(s.take(s.len() as int) =~= s);
    assert(p.text == s);
    assert(s.skip(s.len() as int) =~= Seq::<char>::empty());
    assert(parts(p.table, Seq::<char>::empty()) =~= Seq::<Part>::empty());
}

proof fn lemma_free_keys(t: KeyTable, s: Seq<char>)
    requires
        t.next + s.len() <= LAST_KEYCODE + 1,
    ensures
        t.reach(s) == s.len(),
    decreases s.len(),
{
    if s.len() > 0 {
        lemma_free_keys(t.with(s[0]), s.drop_first());
    }
}

/// A text of common characters needs no new keymap, and the keyboard stays the
/// same.
pub proof fn law_common_text_needs_no_key(t: KeyTable, s: Seq<char>)
    requires
        t.wf(),
        forall|i: int| 0 <= i < s.len() ==> standard_codes().contains(#[trigger] s[i] as u32),
    ensures
        !any_renewed(parts(t, s)),
        table_after(t, s) == t,
{
    assert forall|i: int| 0 <= i < s.len() implies t.has(#[trigger] s[i]) by {
        assert(standard_codes().contains(s[i] as u32));
        let k = choose|k: int| 0 <= k < standard_codes().len() && standard_codes()[k] == s[i] as u32;
        assert(t.keys.contains_key(standard_codes()[k]));
    }
    law_keymap_is_sent_for_new_characters(t, s);
}

// ---------------------------------------------------------------------------
// Key strokes
// ---------------------------------------------------------------------------

/// One key pressed and released.
#[derive(Debug, Clone, Copy, PartialEq, Eq, Structural)]
pub struct KeyStroke {
    pub press_time: u32,
    pub release_time: u32,
    /// The code of the key as the kernel counts, 8 less than its code here.
    pub evdev_keycode: u32,
    /// Whether the compositor is given time to follow afterwards.
    pub sync: bool,
}

/// What is sent to the compositor next.
#[derive(Debug)]
pub enum Step {
    /// A new keymap.
    Keymap(String),
    /// A key stroke.
    Stroke(KeyStroke),
}

/// What is sent to the compositor, mathematically: of a keymap, its keys.
pub ghost enum StepView {
    Keymap(Map<u32, u32>),
    Stroke(KeyStroke),
}

/// Whether `m` is a keymap for `keys`.
pub open spec fn is_keymap(m: Seq<char>, keys: Map<u32, u32>) -> bool {
    exists|entries: Seq<(u32, u32)>|
        #![trigger keymap::lists(entries, keys)]
        keymap::lists(entries, keys) && m == keymap::keymap_text(entries)
}

/// Whether a step is what `v` says.
pub open spec fn shows(step: Step, v: StepView) -> bool {
    match (step, v) {
        (Step::Keymap(m), StepView::Keymap(keys)) => is_keymap(m@, keys),
        (Step::Stroke(k), StepView::Stroke(w)) => k == w,
        _ => false,
    }
}

/// Whether the steps are those that `vs` says, one for one.
pub open spec fn show(steps: Seq<Step>, vs: Seq<StepView>) -> bool {
    &&& steps.len() == vs.len()
    &&& forall|i: int| 0 <= i < steps.len() ==> shows(#[trigger] steps[i], vs[i])
}

/// A time stamp: it starts over when 32 bits are full.
pub open spec fn wrapped(t: int) -> u32 {
    (t % 0x1_0000_0000) as u32
}

/// The stroke for the character at position `i` of a text that is typed from
/// `start` on.
pub open spec fn stroke(keycode: u32, i: int, start: int, delay_ms: u32) -> KeyStroke {
    KeyStroke {
        press_time: wrapped(start + i * delay_ms),
        release_time: wrapped(start + i * delay_ms + KEY_HOLD_MS),
        evdev_keycode: (keycode - FIRST_KEYCODE) as u32,
        sync: i > 0 && i % (SYNC_INTERVAL as int) == 0,
    }
}

/// The strokes that type `s` with the keys of `t`: one for each character, in
/// order. The first character has position `i` in the whole text.
pub open spec fn strokes(
    t: KeyTable,
    s: Seq<char>,
    i: int,
    start: int,
    delay_ms: u32,
) -> Seq<StepView> {
    Seq::new(
        s.len(),
        |k: int| StepView::Stroke(stroke(t.keys[s[k] as u32], i + k, start, delay_ms)),
    )
}

/// What is sent for a part: a new keymap where one is needed, then the strokes.
pub open spec fn part_steps(p: Part, i: int, start: int, delay_ms: u32) -> Seq<StepView> {
    (if p.renewed {
        seq![StepView::Keymap(p.table.keys)]
    } else {
        Seq::empty()
    }) + strokes(p.table, p.text, i, start, delay_ms)
}

/// What is sent for the parts, one after the other.
pub open spec fn all_steps(ps: Seq<Part>, i: int, start: int, delay_ms: u32) -> Seq<StepView>
    decreases ps.len(),
{
    if ps.len() == 0 {
        Seq::empty()
    } else {
        part_steps(ps[0], i, start, delay_ms) + all_steps(
            ps.drop_first(),
            i + ps[0].text.len(),
            start,
            delay_ms,
        )
    }
}

/// Whether the steps type `s` on a compositor that has a keymap for `keys`: each
/// stroke is of the key that types the next character by the keymap sent last.
pub open spec fn arrives(keys: Map<u32, u32>, steps: Seq<StepView>, s: Seq<char>) -> bool
    decreases steps.len(),
{
    if steps.len() == 0 {
        s.len() == 0
    } else {
        match steps[0] {
            StepView::Keymap(k) => arrives(k, steps.drop_first(), s),
            StepView::Stroke(k) => {
                &&& s.len() > 0
                &&& keys.contains_key(s[0] as u32)
                &&& keys[s[0] as u32] == k.evdev_keycode + FIRST_KEYCODE
                &&& arrives(keys, steps.drop_first(), s.drop_first())
            },
        }
    }
}

proof fn lemma_strokes_arrive(
    t: KeyTable,
    s: Seq<char>,
    i: int,
    start: int,
    delay_ms: u32,
    later: Seq<StepView>,
    rest: Seq<char>,
)
    requires
        t.wf(),
        forall|k: int| 0 <= k < s.len() ==> t.has(#[trigger] s[k]),
        arrives(t.keys, later, rest),
    ensures
        arrives(t.keys, strokes(t, s, i, start, delay_ms) + later, s + rest),
    decreases s.len(),
{
    let now = strokes(t, s, i, start, delay_ms);
    if s.len() == 0 {
        assert(now + later =~= later);
        assert(s + rest =~= rest);
    } else {
        let tail = s.drop_first();
        assert forall|k: int| 0 <= k < tail.len() implies t.has(#[trigger] tail[k]) by {
            assert(tail[k] == s[k + 1]);
        }
        lemma_strokes_arrive(t, tail, i + 1, start, delay_ms, later, rest);
        assert((now + later).drop_first() =~= strokes(t, tail, i + 1, start, delay_ms) + later);
        assert((s + rest).drop_first() =~= tail + rest);
        assert(t.has(s[0]));
        assert(t.keys.contains_key(s[0] as u32));
    }
}

/// Every text is typed whole: for each of its characters, in order, there is one
/// stroke, of the key that types it by the keymap sent last, and no other.
pub proof fn law_text_arrives(t: KeyTable, s: Seq<char>, i: int, start: int, delay_ms: u32)
    requires
        t.wf(),
    ensures
        arrives(t.keys, all_steps(parts(t, s), i, start, delay_ms), s),
    decreases s.len(),
{
    if s.len() > 0 {
        let p = first_part(t, s);
        let n = p.text.len() as int;
        let rest = s.skip(n);
        let ps = parts(t, s);
        lemma_first_part_len(t, s);
        law_part_is_typed(t, s);
        law_text_arrives(p.table, rest, i + n, start, delay_ms);
        assert(ps.drop_first() =~= parts(p.table, rest));
        assert(ps[0] == p);
        let later = all_steps(parts(p.table, rest), i + n, start, delay_ms);
        let now = strokes(p.table, p.text, i, start, delay_ms);
        lemma_strokes_arrive(p.table, p.text, i, start, delay_ms, later, rest);
        assert(p.text + rest =~= s);
        let all = all_steps(ps, i, start, delay_ms);
        if p.renewed {
            assert(all =~= seq![StepView::Keymap(p.table.keys)] + (now + later));
            assert(all.drop_first() =~= now + later);
        } else {
            assert(all =~= now + later);
        }
    }
}

/// No two characters are typed by the same key.
pub proof fn law_strokes_tell_characters_apart(
    t: KeyTable,
    a: char,
    b: char,
    i: int,
    j: int,
    start: int,
    delay_ms: u32,
)
    requires
        t.wf(),
        t.has(a),
        t.has(b),
        stroke(t.keys[a as u32], i, start, delay_ms).evdev_keycode == stroke(
            t.keys[b as u32],
            j,
            start,
            delay_ms,
        ).evdev_keycode,
    ensures
        a == b,
{
    assert(t.keys[a as u32] == t.keys[b as u32]);
}

proof fn lemma_wrapped(t: int, d: int)
    requires
        0 <= d,
    ensures
        wrapped(wrapped(t) + d) == wrapped(t + d),
{
    vstd::arithmetic::div_mod::lemma_add_mod_noop(t, d, 0x1_0000_0000);
    vstd::arithmetic::div_mod::lemma_add_mod_noop(t % 0x1_0000_0000, d, 0x1_0000_0000);
    vstd::arithmetic::div_mod::lemma_mod_twice(t, 0x1_0000_0000);
    vstd::arithmetic::div_mod::lemma_mod_bound(t, 0x1_0000_0000);
}

// ---------------------------------------------------------------------------
// The keyboard
// ---------------------------------------------------------------------------

/// The virtual keyboard, and the text that it is typing.
pub struct TextInjector {
    char_to_keycode: HashMap<u32, u32>,
    next_keycode: u32,
    time_counter: u32,
    text: Vec<char>,
    at: usize,
    part_end: usize,
    delay_ms: u32,
}

/// The virtual keyboard, mathematically.
#[verifier::ext_equal]
pub ghost struct InjectorView {
    /// Which characters have keys.
    pub table: KeyTable,
    /// The time stamp of the next stroke.
    pub time: u32,
    /// What is left of the text.
    pub rest: Seq<char>,
    /// How many characters of the text are typed.
    pub index: int,
    /// How many characters of the rest belong to the part that is being typed.
    pub ready: int,
    pub delay_ms: u32,
}

impl InjectorView {
    /// The keyboard is sound, and the part that is being typed has its keys.
    pub open spec fn wf(self) -> bool {
        &&& self.table.wf()
        &&& 0 <= self.index
        &&& 0 <= self.ready <= self.rest.len()
        &&& forall|i: int| 0 <= i < self.ready ==> self.table.has(#[trigger] self.rest[i])
    }

    /// The keyboard at the start of a text.
    pub open spec fn begun(self, s: Seq<char>, delay_ms: u32) -> InjectorView {
        InjectorView { rest: s, index: 0, ready: 0, delay_ms, ..self }
    }

    /// Whether the next step begins a part.
    pub open spec fn at_part(self) -> bool {
        self.rest.len() > 0 && self.ready == 0
    }

    /// The keyboard with keys for the part that begins.
    pub open spec fn prepared(self) -> InjectorView {
        if self.at_part() {
            InjectorView {
                table: first_part(self.table, self.rest).table,
                ready: first_part(self.table, self.rest).text.len() as int,
                ..self
            }
        } else {
            self
        }
    }

    /// The stroke for the next character.
    pub open spec fn next_stroke(self) -> KeyStroke {
        KeyStroke {
            press_time: self.time,
            release_time: wrapped(self.time + KEY_HOLD_MS),
            evdev_keycode: (self.table.keys[self.rest[0] as u32] - FIRST_KEYCODE) as u32,
            sync: self.index > 0 && self.index % (SYNC_INTERVAL as int) == 0,
        }
    }

    /// The keyboard after that stroke.
    pub open spec fn struck(self) -> InjectorView {
        InjectorView {
            time: wrapped(self.time + self.delay_ms),
            rest: self.rest.drop_first(),
            index: self.index + 1,
            ready: self.ready - 1,
            ..self
        }
    }

    /// What is sent next, if anything is left.
    pub open spec fn step(self) -> Option<StepView> {
        if self.rest.len() == 0 {
            None
        } else if self.at_part() && first_part(self.table, self.rest).renewed {
            Some(StepView::Keymap(first_part(self.table, self.rest).table.keys))
        } else {
            Some(StepView::Stroke(self.prepared().next_stroke()))
        }
    }

    /// The keyboard after that step.
    pub open spec fn stepped(self) -> InjectorView {
        if self.rest.len() == 0 {
            self
        } else if self.at_part() && first_part(self.table, self.rest).renewed {
            self.prepared()
        } else {
            self.prepared().struck()
        }
    }

    /// What is sent from here on, for a text that was begun at `start`.
    spec fn steps_left(self, start: int) -> Seq<StepView> {
        strokes(self.table, self.rest.take(self.ready), self.index, start, self.delay_ms)
            + all_steps(
            parts(self.table, self.rest.skip(self.ready)),
            self.index + self.ready,
            start,
            self.delay_ms,
        )
    }

    spec fn steps_bound(self) -> int {
        2 * self.rest.len() + (if self.ready == 0 {
            1int
        } else {
            0
        })
    }
}

proof fn lemma_struck(v: InjectorView, start: int)
    requires
        v.wf(),
        v.ready > 0,
        v.time == wrapped(start + v.index * v.delay_ms),
    ensures
        v.struck().wf(),
        v.struck().time == wrapped(start + v.struck().index * v.delay_ms),
        v.steps_left(start) == seq![StepView::Stroke(v.next_stroke())] + v.struck().steps_left(
            start,
        ),
        v.struck().steps_bound() < v.steps_bound(),
{
    let w = v.struck();
    let t0 = start + v.index * v.delay_ms;
    lemma_wrapped(t0, v.delay_ms as int);
    lemma_wrapped(t0, KEY_HOLD_MS as int);
    assert((v.index + 1) * v.delay_ms == v.index * v.delay_ms + v.delay_ms) by (nonlinear_arith);
    assert forall|i: int| 0 <= i < w.ready implies w.table.has(#[trigger] w.rest[i]) by {
        assert(w.rest[i] == v.rest[i + 1]);
    }
    assert(w.rest.skip(w.ready) =~= v.rest.skip(v.ready));
    let now = strokes(v.table, v.rest.take(v.ready), v.index, start, v.delay_ms);
    let later = strokes(w.table, w.rest.take(w.ready), w.index, start, w.delay_ms);
    assert(now[0] == StepView::Stroke(v.next_stroke()));
    assert(now =~= seq![StepView::Stroke(v.next_stroke())] + later) by {
        assert forall|k: int| 1 <= k < now.len() implies now[k] == later[k - 1] by {
            assert(v.rest.take(v.ready)[k] == w.rest.take(w.ready)[k - 1]);
        }
    }
    assert(v.steps_left(start) =~= seq![StepView::Stroke(v.next_stroke())] + w.steps_left(start));
}

proof fn lemma_step(v: InjectorView, start: int)
    requires
        v.wf(),
        v.rest.len() > 0,
        v.time == wrapped(start + v.index * v.delay_ms),
    ensures
        v.stepped().wf(),
        v.stepped().time == wrapped(start + v.stepped().index * v.delay_ms),
        v.stepped().index + v.stepped().rest.len() == v.index + v.rest.len(),
        v.step() matches Some(x) && v.steps_left(start) == seq![x] + v.stepped().steps_left(start),
        v.stepped().steps_bound() < v.steps_bound(),
        table_after(v.stepped().table, v.stepped().rest.skip(v.stepped().ready)) == table_after(
            v.table,
            v.rest.skip(v.ready),
        ),
{
    if v.ready > 0 {
        lemma_struck(v, start);
        assert(v.struck().rest.skip(v.struck().ready) =~= v.rest.skip(v.ready));
    } else {
        let p = first_part(v.table, v.rest);
        let n = p.text.len() as int;
        let w = v.prepared();
        lemma_first_part_len(v.table, v.rest);
        law_part_is_typed(v.table, v.rest);
        assert(p.text =~= v.rest.take(n));
        assert forall|i: int| 0 <= i < w.ready implies w.table.has(#[trigger] w.rest[i]) by {
            assert(p.text[i] == w.rest[i]);
        }
        assert(v.rest.skip(0) =~= v.rest);
        let ps = parts(v.table, v.rest);
        assert(ps.drop_first() =~= parts(p.table, v.rest.skip(n)));
        assert(ps[0] == p);
        assert(strokes(v.table, v.rest.take(0), v.index, start, v.delay_ms) =~= Seq::<
            StepView,
        >::empty());
        let key = if p.renewed {
            seq![StepView::Keymap(p.table.keys)]
        } else {
            Seq::empty()
        };
        assert(v.steps_left(start) =~= key + w.steps_left(start));
        if !p.renewed {
            lemma_struck(w, start);
            assert(w.struck().rest.skip(w.struck().ready) =~= w.rest.skip(w.ready));
            assert(key + w.steps_left(start) =~= w.steps_left(start));
        }
    }
}

/// The keyboard after `k` steps.
pub open spec fn after_steps(v: InjectorView, k: int) -> InjectorView
    decreases k,
{
    if k <= 0 {
        v
    } else {
        after_steps(v.stepped(), k - 1)
    }
}

proof fn lemma_steps(v: InjectorView, start: int, k: int)
    requires
        v.wf(),
        v.time == wrapped(start + v.index * v.delay_ms),
        0 <= k <= v.steps_left(start).len(),
    ensures
        ({
            let all = v.steps_left(start);
            let w = after_steps(v, k);
            &&& w.wf()
            &&& k < all.len() ==> w.step() == Some(all[k])
            &&& k == all.len() ==> w.step() is None && w.rest.len() == 0 && w.table == table_after(
                v.table,
                v.rest.skip(v.ready),
            ) && w.time == wrapped(start + (v.index + v.rest.len()) * v.delay_ms)
        }),
    decreases k,
{
    let all = v.steps_left(start);
    if v.rest.len() > 0 {
        lemma_step(v, start);
        let next = v.stepped();
        assert(all[0] == v.step()->Some_0);
        if k > 0 {
            assert(next.steps_left(start) =~= all.skip(1));
            lemma_steps(next, start, k - 1);
        }
    } else {
        assert(v.rest.take(v.ready) =~= Seq::<char>::empty());
        assert(v.rest.skip(v.ready) =~= Seq::<char>::empty());
        assert(all =~= Seq::<StepView>::empty());
    }
}

/// The steps of a text, taken one by one from its beginning, are all that is sent
/// for its parts, in order; after the last of them the text is typed.
pub proof fn law_steps_make_up_text(v: InjectorView, s: Seq<char>, delay_ms: u32, k: int)
    requires
        v.wf(),
        0 <= k <= all_steps(parts(v.table, s), 0, v.time as int, delay_ms).len(),
    ensures
        ({
            let all = all_steps(parts(v.table, s), 0, v.time as int, delay_ms);
            let w = after_steps(v.begun(s, delay_ms), k);
            &&& w.wf()
            &&& k < all.len() ==> w.step() == Some(all[k])
            &&& k == all.len() ==> w.step() is None && w.rest.len() == 0 && w.table == table_after(
                v.table,
                s,
            ) && w.time == wrapped(v.time + s.len() * delay_ms)
        }),
{
    let b = v.begun(s, delay_ms);
    let start = v.time as int;
    assert(0 * delay_ms == 0) by (nonlinear_arith);
    assert(b.rest.skip(0) =~= s);
    assert(strokes(b.table, b.rest.take(0), 0, start, delay_ms) =~= Seq::<StepView>::empty());
    assert(b.steps_left(start) =~= all_steps(parts(v.table, s), 0, start, delay_ms));
    lemma_steps(b, start, k);
}

impl TextInjector {
    pub closed spec fn view(&self) -> InjectorView {
        InjectorView {
            table: KeyTable { keys: self.char_to_keycode@, next: self.next_keycode as int },
            time: self.time_counter,
            rest: self.text@.skip(self.at as int),
            index: self.at as int,
            ready: self.part_end - self.at,
            delay_ms: self.delay_ms,
        }
    }

    /// Whether the keyboard is sound.
    pub closed spec fn wf(&self) -> bool {
        &&& self@.wf()
        &&& self.at <= self.part_end <= self.text@.len()
    }

    /// What is sound here is sound mathematically.
    pub proof fn lemma_wf(&self)
        requires
            self.wf(),
        ensures
            self@.wf(),
    {
    }

    /// A keyboard with keys for the common characters, and its keymap.
    pub fn new() -> (r: (Self, String))
        ensures
            r.0.wf(),
            r.0@ == (InjectorView {
                table: standard_table(),
                time: KEY_RELEASE_TIME,
                rest: Seq::empty(),
                index: 0,
                ready: 0,
                delay_ms: 0,
            }),
            is_keymap(r.1@, standard_table().keys),
    {
        let mut injector: TextInjector = TextInjector {
            char_to_keycode: HashMap::new(),
            next_keycode: FIRST_KEYCODE,
            time_counter: KEY_RELEASE_TIME,
            text: Vec::new(),
            at: 0,
            part_end: 0,
            delay_ms: 0,
        };
        injector.populate_standard_keymap();
        proof {
            law_standard_table_is_sound();
            assert(injector@.rest =~= Seq::<char>::empty());
        }
        let m: String = injector.update_keymap();
        (injector, m)
    }

    fn populate_standard_keymap(&mut self)
        requires
            old(self)@.table == (KeyTable {
                keys: Map::empty(),
                next: FIRST_KEYCODE as int,
            }),
        ensures
            final(self)@.table == standard_table(),
            final(self).time_counter == old(self).time_counter,
            final(self).text == old(self).text,
            final(self).at == old(self).at,
            final(self).part_end == old(self).part_end,
            final(self).delay_ms == old(self).delay_ms,
    {
        let ghost codes = standard_codes();
        proof {
            lemma_standard_codes();
            assert(codes.take(0) =~= Seq::<u32>::empty());
        }
        let mut c: u32 = 32;
        while c <= 126
            invariant
                codes == standard_codes(),
                codes.len() == 121,
                32 <= c <= 127,
                self.next_keycode == FIRST_KEYCODE + (c - 32),
                self.char_to_keycode@ == keys_in_order(codes.take(c - 32), FIRST_KEYCODE as int),
                self.time_counter == old(self).time_counter,
                self.text == old(self).text,
                self.at == old(self).at,
                self.part_end == old(self).part_end,
                self.delay_ms == old(self).delay_ms,
            decreases 127 - c,
        {
            proof {
                assert(codes.take(c - 31).drop_last() =~= codes.take(c - 32));
                assert(codes[c - 32] == c);
            }
            self.char_to_keycode.insert(c, self.next_keycode);
            self.next_keycode += 1;
            c += 1;
        }
        self.char_to_keycode.insert(10, self.next_keycode);
        self.next_keycode += 1;
        proof {
            assert(codes.take(96).drop_last() =~= codes.take(95));
            assert(codes.take(96).last() == 10);
            assert(self.char_to_keycode@ == keys_in_order(codes.take(96), FIRST_KEYCODE as int));
        }
        self.char_to_keycode.insert(9, self.next_keycode);
        self.next_keycode += 1;
        proof {
            assert(codes.take(97).drop_last() =~= codes.take(96));
            assert(codes.take(97).last() == 9);
            assert(self.char_to_keycode@ == keys_in_order(codes.take(97), FIRST_KEYCODE as int));
        }
        let letters: Vec<char> = vec![
            'á', 'à', 'â', 'ã', 'é', 'ê', 'í', 'ó', 'ô', 'õ', 'ú', 'ç', 'Á', 'À', 'Â', 'Ã', 'É',
            'Ê', 'Í', 'Ó', 'Ô', 'Õ', 'Ú', 'Ç',
        ];
        proof {
            assert(letters@ =~= portuguese_letters());
        }
        let mut i: usize = 0;
        while i < letters.len()
            invariant
                letters@ == portuguese_letters(),
                letters@.len() == 24,
                codes == standard_codes(),
                codes.len() == 121,
                codes.no_duplicates(),
                i <= 24,
                self.next_keycode == FIRST_KEYCODE + 97 + i,
                self.char_to_keycode@ == keys_in_order(codes.take(97 + i), FIRST_KEYCODE as int),
                self.time_counter == old(self).time_counter,
                self.text == old(self).text,
                self.at == old(self).at,
                self.part_end == old(self).part_end,
                self.delay_ms == old(self).delay_ms,
            decreases 24 - i,
        {
            let code: u32 = letters[i] as u32;
            proof {
                assert(codes[97 + i] == code);
                let done = codes.take(97 + i);
                lemma_keys_in_order(done, FIRST_KEYCODE as int);
                if self.char_to_keycode@.contains_key(code) {
                    let k = choose|k: int| 0 <= k < done.len() && #[trigger] done[k] == code;
                    assert(codes[k] == codes[97 + i]);
                }
                assert(codes.take(98 + i).drop_last() =~= done);
            }
            if !self.char_to_keycode.contains_key(&code) {
                self.char_to_keycode.insert(code, self.next_keycode);
                self.next_keycode += 1;
            }
            i += 1;
        }
        proof {
            assert(codes.take(121) =~= codes);
        }
    }

    fn update_keymap(&self) -> (m: String)
        requires
            self@.table.wf(),
        ensures
            is_keymap(m@, self@.table.keys),
    {
        proof {
            assert forall|code: u32| #[trigger]
                self.char_to_keycode@.contains_key(code) implies code <= 0x10_ffff by {
                assert(self@.table.keys.contains_key(code));
            }
        }
        keymap::build_xkb_string(&self.char_to_keycode)
    }

    /// Begins a text. Whatever was left of another one is dropped.
    pub fn begin(&mut self, text: &str, delay_ms: u32)
        requires
            old(self).wf(),
        ensures
            final(self).wf(),
            final(self)@ == old(self)@.begun(text@, delay_ms),
    {
        self.text = text::to_chars(text);
        self.at = 0;
        self.part_end = 0;
        self.delay_ms = delay_ms;
        proof {
            assert(self@.rest =~= text@);
        }
    }

    fn find_keys(&mut self) -> (renewed: bool)
        requires
            old(self).wf(),
            old(self)@.at_part(),
        ensures
            final(self).wf(),
            final(self)@ == old(self)@.prepared(),
            renewed == first_part(old(self)@.table, old(self)@.rest).renewed,
    {
        let ghost t = self@.table;
        let ghost rest = self@.rest;
        let ghost base = t.ready_for(rest[0]);
        let ghost time = self.time_counter;
        proof {
            law_standard_table_is_sound();
            lemma_first_part_len(t, rest);
            law_part_is_typed(t, rest);
            assert(rest[0] == self.text@[self.at as int]);
        }
        let first: u32 = self.text[self.at] as u32;
        let mut renewed: bool = false;
        if self.next_keycode > LAST_KEYCODE && !self.char_to_keycode.contains_key(&first) {
            self.char_to_keycode.clear();
            self.next_keycode = FIRST_KEYCODE;
            self.populate_standard_keymap();
            renewed = true;
        }
        let ghost over = renewed;
        let mut end: usize = self.at;
        proof {
            assert(rest.take(0) =~= Seq::<char>::empty());
            assert(rest.skip(0) =~= rest);
        }
        while end < self.text.len() && (self.next_keycode <= LAST_KEYCODE
            || self.char_to_keycode.contains_key(&(self.text[end] as u32)))
            invariant
                self.at == old(self).at,
                self.part_end == old(self).part_end,
                self.text == old(self).text,
                self.delay_ms == old(self).delay_ms,
                self.time_counter == old(self).time_counter,
                self.at <= end <= self.text@.len(),
                rest == self.text@.skip(self.at as int),
                base.wf(),
                base == t.ready_for(rest[0]),
                over == !t.can_type(rest[0]),
                self@.table == base.with_all(rest.take(end - self.at)),
                self@.table.wf(),
                base.reach(rest) == (end - self.at) + self@.table.reach(rest.skip(end - self.at)),
                renewed == (over || lacks(base, rest.take(end - self.at))),
            decreases self.text@.len() - end,
        {
            let ghost k = end - self.at;
            let ghost before = self@.table;
            let c: char = self.text[end];
            let code: u32 = c as u32;
            proof {
                assert(rest.skip(k)[0] == c);
                assert(rest[k] == c);
                assert(rest.take(k + 1).drop_last() =~= rest.take(k));
                assert(rest.take(k + 1).last() == c);
                assert(rest.skip(k).drop_first() =~= rest.skip(k + 1));
                assert(before.can_type(c));
                law_new_key_keeps_sound(before, c);
                lemma_reach_bound(before, rest.skip(k));
                lemma_reached(base, rest, k);
                assert(!lacks(base, rest.take(k)) ==> before == base);
                if lacks(base, rest.take(k)) {
                    let i = choose|i: int|
                        0 <= i < k && !base.has(#[trigger] rest.take(k)[i]);
                    assert(!base.has(rest.take(k + 1)[i]));
                    assert(lacks(base, rest.take(k + 1)));
                } else if !base.has(c) {
                    assert(!base.has(rest.take(k + 1)[k]));
                    assert(lacks(base, rest.take(k + 1)));
                } else {
                    assert forall|i: int| 0 <= i < k + 1 implies base.has(
                        #[trigger] rest.take(k + 1)[i],
                    ) by {
                        if i < k {
                            assert(base.has(rest.take(k)[i]));
                        }
                    }
                    assert(!lacks(base, rest.take(k + 1)));
                }
            }
            if !self.char_to_keycode.contains_key(&code) {
                self.char_to_keycode.insert(code, self.next_keycode);
                self.next_keycode += 1;
                renewed = true;
            }
            proof {
                assert(self@.table == before.with(c));
                if before.has(c) && !base.has(c) {
                    assert(before != base);
                }
            }
            end += 1;
        }
        proof {
            let k = end - self.at;
            if end < self.text@.len() {
                assert(rest.skip(k)[0] == self.text@[end as int]);
            }
            assert(self@.table.reach(rest.skip(k)) == 0);
            assert(rest.take(k) =~= first_part(t, rest).text);
            if over {
                assert(!t.has(first_part(t, rest).text[0]));
            }
        }
        self.part_end = end;
        proof {
            assert(self@ =~= old(self)@.prepared());
            lemma_prepared_wf(old(self)@);
        }
        renewed
    }

    fn press(&mut self) -> (k: KeyStroke)
        requires
            old(self).wf(),
            old(self)@.ready > 0,
        ensures
            final(self).wf(),
            k == old(self)@.next_stroke(),
            final(self)@ == old(self)@.struck(),
    {
        let ghost v = self@;
        let code: u32 = self.text[self.at] as u32;
        proof {
            assert(v.rest[0] == self.text@[self.at as int]);
            assert(v.table.has(v.rest[0]));
            assert(self.char_to_keycode@.contains_key(code));
        }
        let keycode: u32 = match self.char_to_keycode.get(&code) {
            Some(keycode) => *keycode,
            None => FIRST_KEYCODE,
        };
        proof {
            assert(v.table.keys.contains_key(code));
        }
        let k: KeyStroke = KeyStroke {
            press_time: self.time_counter,
            release_time: self.time_counter.wrapping_add(KEY_HOLD_MS),
            evdev_keycode: keycode - FIRST_KEYCODE,
            sync: self.at > 0 && self.at % SYNC_INTERVAL == 0,
        };
        self.time_counter = self.time_counter.wrapping_add(self.delay_ms);
        self.at += 1;
        proof {
            assert(self@.rest =~= v.rest.drop_first());
            assert(self@ =~= v.struck());
            assert forall|i: int| 0 <= i < self@.ready implies self@.table.has(
                #[trigger] self@.rest[i],
            ) by {
                assert(self@.rest[i] == v.rest[i + 1]);
            }
        }
        k
    }

    /// The next step of the text that was begun: a new keymap, where a part needs
    /// one, or a stroke. There is none once the text is typed.
    pub fn next_step(&mut self) -> (r: Option<Step>)
        requires
            old(self).wf(),
        ensures
            final(self).wf(),
            final(self)@ == old(self)@.stepped(),
            match (r, old(self)@.step()) {
                (Some(step), Some(v)) => shows(step, v),
                (None, None) => true,
                _ => false,
            },
    {
        if self.at == self.text.len() {
            return None;
        }
        if self.at == self.part_end {
            let renewed: bool = self.find_keys();
            if renewed {
                let m: String = self.update_keymap();
                return Some(Step::Keymap(m));
            }
            proof {
                lemma_first_part_len(old(self)@.table, old(self)@.rest);
            }
        }
        Some(Step::Stroke(self.press()))
    }

    /// Types a text: gives all that is sent for it, in order. Its parts are typed
    /// one after the other, with one stroke for each character.
    pub fn type_text(&mut self, text: &str, delay_ms: u32) -> (steps: Vec<Step>)
        requires
            old(self).wf(),
        ensures
            final(self).wf(),
            show(
                steps@,
                all_steps(
                    parts(old(self)@.table, text@),
                    0,
                    old(self)@.time as int,
                    delay_ms,
                ),
            ),
            final(self)@.table == table_after(old(self)@.table, text@),
            final(self)@.time == wrapped(old(self)@.time + text@.len() * delay_ms),
            final(self)@.rest.len() == 0,
    {
        let ghost start = self@.time as int;
        let ghost t = self@.table;
        let ghost all = all_steps(parts(t, text@), 0, start, delay_ms);
        let mut steps: Vec<Step> = Vec::new();
        self.begin(text, delay_ms);
        let ghost mut done: Seq<StepView> = Seq::empty();
        proof {
            assert(self@.rest.skip(0) =~= text@);
            assert(strokes(t, self@.rest.take(0), 0, start, delay_ms) =~= Seq::<StepView>::empty());
            assert(done + self@.steps_left(start) =~= all);
            assert(0 * delay_ms == 0) by (nonlinear_arith);
        }
        loop
            invariant
                self.wf(),
                self@.delay_ms == delay_ms,
                self@.time == wrapped(start + self@.index * delay_ms),
                self@.index + self@.rest.len() == text@.len(),
                done + self@.steps_left(start) == all,
                show(steps@, done),
                table_after(self@.table, self@.rest.skip(self@.ready)) == table_after(t, text@),
                all == all_steps(parts(t, text@), 0, start, delay_ms),
                start == old(self)@.time,
                t == old(self)@.table,
            decreases self@.steps_bound(),
        {
            let ghost v = self@;
            proof {
                if v.rest.len() > 0 {
                    lemma_step(v, start);
                } else {
                    assert(v.rest.skip(v.ready) =~= Seq::<char>::empty());
                    assert(v.rest.take(v.ready) =~= Seq::<char>::empty());
                    assert(v.steps_left(start) =~= Seq::<StepView>::empty());
                    assert(done =~= all);
                }
            }
            match self.next_step() {
                None => {
                    return steps;
                },
                Some(step) => {
                    let ghost x = v.step()->Some_0;
                    let ghost before = steps@;
                    steps.push(step);
                    proof {
                        let next = done.push(x);
                        assert(next + self@.steps_left(start) =~= done + (seq![x]
                            + self@.steps_left(start)));
                        assert forall|i: int| 0 <= i < steps@.len() implies shows(
                            #[trigger] steps@[i],
                            next[i],
                        ) by {
                            if i < before.len() {
                                assert(shows(before[i], done[i]));
                            }
                        }
                        done = next;
                    }
                },
            }
        }
    }
}

proof fn lemma_prepared_wf(v: InjectorView)
    requires
        v.wf(),
        v.at_part(),
    ensures
        v.prepared().wf(),
        v.prepared().ready > 0,
{
    let p = first_part(v.table, v.rest);
    let w = v.prepared();
    lemma_first_part_len(v.table, v.rest);
    law_part_is_typed(v.table, v.rest);
    assert forall|i: int| 0 <= i < w.ready implies w.table.has(#[trigger] w.rest[i]) by {
        assert(p.text[i] == w.rest[i]);
    }
}

// ---------------------------------------------------------------------------
// Sending
// ---------------------------------------------------------------------------

/// What to do when sending to the compositor failed.
#[derive(Debug, Clone, Copy, PartialEq, Eq, Structural)]
pub enum FlushAction {
    /// Wait for so many milliseconds, and send again.
    Retry(u64),
    Fail,
}

/// The error number of a connection that cannot take more for the moment.
pub const BUSY_ERRNO: i32 = 109;

/// What to do when sending failed: for an I/O error `io`, which is whether
/// sending would block and the error number, if there is one, or for an error of
/// another kind.
pub fn after_flush_error(io: Option<(bool, Option<i32>)>) -> (r: FlushAction)
    ensures
        r == (match io {
            Some((true, _)) => FlushAction::Retry(5),
            Some((false, Some(n))) if n == BUSY_ERRNO => FlushAction::Retry(15),
            _ => FlushAction::Fail,
        }),
{
    match io {
        Some((would_block, errno)) => {
            if would_block {
                return FlushAction::Retry(5);
            }
            match errno {
                Some(n) => {
                    if n == BUSY_ERRNO {
                        FlushAction::Retry(15)
                    } else {
                        FlushAction::Fail
                    }
                },
                None => FlushAction::Fail,
            }
        },
        None => FlushAction::Fail,
    }
}

/// A keymap as it is handed over: its bytes and a zero byte.
pub fn keymap_bytes(keymap: &str) -> (r: Vec<u8>)
    ensures
        r@ == vstd::utf8::encode_utf8(keymap@).push(0),
{
    let mut r: Vec<u8> = keymap.as_bytes_vec();
    r.push(0);
    r
}

/// What a keyboard needs of the compositor and does not find.
#[derive(Debug, Clone, Copy, PartialEq, Eq, Structural)]
pub enum MissingGlobal {
    KeyboardManager,
    Seat,
}

/// What is missing for a keyboard: the manager counts first.
pub fn missing_global(has_manager: bool, has_seat: bool) -> (r: Option<MissingGlobal>)
    ensures
        r == (if !has_manager {
            Some(MissingGlobal::KeyboardManager)
        } else if !has_seat {
            Some(MissingGlobal::Seat)
        } else {
            None
        }),
{
    if !has_manager {
        Some(MissingGlobal::KeyboardManager)
    } else if !has_seat {
        Some(MissingGlobal::Seat)
    } else {
        None
    }
}

} // verus!
