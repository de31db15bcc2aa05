//! What holds of every text that is typed.

use vstd::prelude::*;
use crate::output::injector;
use crate::output::injector::keymap;
use crate::output::injector::KeyStroke;
use crate::output::injector::KeyTable;
use crate::output::injector::Part;
use crate::output::injector::Step;
use crate::output::injector::StepView;

verus! {

// ---------------------------------------------------------------------------
// What appears
// ---------------------------------------------------------------------------

/// The code point that a compositor with a keymap for `keys` takes a stroke for:
/// the keysym of the key that is struck says it.
pub open spec fn appears(keys: Map<u32, u32>, k: KeyStroke) -> nat {
    let code = choose|code: u32| #[trigger]
        keys.contains_key(code) && keys[code] == k.evdev_keycode + 8;
    keymap::character_of(keymap::keysym_of(code as nat))
}

/// The code points that appear on a compositor that has a keymap for `keys` and
/// is sent the steps: each stroke counts by the keymap sent last.
pub open spec fn appear(keys: Map<u32, u32>, steps: Seq<StepView>) -> Seq<nat>
    decreases steps.len(),
{
    if steps.len() == 0 {
        Seq::empty()
    } else {
        match steps[0] {
            StepView::Keymap(k) => appear(k, steps.drop_first()),
            StepView::Stroke(k) => seq![appears(keys, k)] + appear(keys, steps.drop_first()),
        }
    }
}

/// The code points of a text as they appear: a carriage return as a line break.
pub open spec fn appearance(s: Seq<char>) -> Seq<nat> {
    Seq::new(s.len(), |i: int| keymap::appearing(s[i] as nat))
}

proof fn lemma_stroke_appears(t: KeyTable, c: char, i: int, start: int, delay_ms: u32)
    requires
        t.wf(),
        t.has(c),
    ensures
        appears(t.keys, injector::stroke(t.keys[c as u32], i, start, delay_ms))
            == keymap::appearing(c as nat),
{
    let k = injector::stroke(t.keys[c as u32], i, start, delay_ms);
    assert(t.keys.contains_key(c as u32));
    assert(t.keys[c as u32] == k.evdev_keycode + 8);
    let code = choose|code: u32| #[trigger]
        t.keys.contains_key(code) && t.keys[code] == k.evdev_keycode + 8;
    assert(t.keys[code] == t.keys[c as u32]);
    assert(code == c as u32);
    keymap::law_keysym_types_its_character(c);
}

proof fn lemma_strokes_appear(
    t: KeyTable,
    s: Seq<char>,
    i: int,
    start: int,
    delay_ms: u32,
    later: Seq<StepView>,
)
    requires
        t.wf(),
        forall|k: int| 0 <= k < s.len() ==> t.has(#[trigger] s[k]),
    ensures
        appear(t.keys, injector::strokes(t, s, i, start, delay_ms) + later) == appearance(s)
            + appear(t.keys, later),
    decreases s.len(),
{
    let now = injector::strokes(t, s, i, start, delay_ms);
    if s.len() == 0 {
        assert(now + later =~= later);
        assert(appearance(s) + appear(t.keys, later) =~= appear(t.keys, later));
    } else {
        let tail = s.drop_first();
        assert forall|k: int| 0 <= k < tail.len() implies t.has(#[trigger] tail[k]) by {
            assert(tail[k] == s[k + 1]);
        }
        lemma_strokes_appear(t, tail, i + 1, start, delay_ms, later);
        assert(t.has(s[0]));
        lemma_stroke_appears(t, s[0], i, start, delay_ms);
        assert((now + later).drop_first() =~= injector::strokes(t, tail, i + 1, start, delay_ms)
            + later);
        assert((now + later)[0] == StepView::Stroke(
            injector::stroke(t.keys[s[0] as u32], i, start, delay_ms),
        ));
        assert(appear(t.keys, now + later) =~= appearance(s) + appear(t.keys, later));
    }
}

/// What appears is the text: read back from the strokes by the keysyms of the
/// keymap sent last, each text that is typed is the text, character by character.
pub proof fn law_text_appears(t: KeyTable, s: Seq<char>, i: int, start: int, delay_ms: u32)
    requires
        t.wf(),
    ensures
        appear(t.keys, injector::all_steps(injector::parts(t, s), i, start, delay_ms))
            == appearance(s),
    decreases s.len(),
{
    let ps = injector::parts(t, s);
    if s.len() == 0 {
        assert(appear(t.keys, injector::all_steps(ps, i, start, delay_ms)) =~= appearance(s));
    } else {
        let p = injector::first_part(t, s);
        let n = p.text.len() as int;
        let rest = s.skip(n);
        injector::lemma_first_part_len(t, s);
        injector::law_part_is_typed(t, s);
        law_text_appears(p.table, rest, i + n, start, delay_ms);
        assert(ps.drop_first() =~= injector::parts(p.table, rest));
        assert(ps[0] == p);
        let later = injector::all_steps(
            injector::parts(p.table, rest),
            i + n,
            start,
            delay_ms,
        );
        let now = injector::strokes(p.table, p.text, i, start, delay_ms);
        lemma_strokes_appear(p.table, p.text, i, start, delay_ms, later);
        assert(appearance(p.text) + appearance(rest) =~= appearance(s)) by {
            assert(p.text + rest =~= s);
        }
        let all = injector::all_steps(ps, i, start, delay_ms);
        if p.renewed {
            assert(all =~= seq![StepView::Keymap(p.table.keys)] + (now + later));
            assert(all.drop_first() =~= now + later);
        } else {
            assert(all =~= now + later);
        }
    }
}

// ---------------------------------------------------------------------------
// When it appears
// ---------------------------------------------------------------------------

/// The strokes among the steps, in order.
pub open spec fn struck(steps: Seq<StepView>) -> Seq<KeyStroke>
    decreases steps.len(),
{
    if steps.len() == 0 {
        Seq::empty()
    } else {
        match steps[0] {
            StepView::Keymap(_) => struck(steps.drop_first()),
            StepView::Stroke(k) => seq![k] + struck(steps.drop_first()),
        }
    }
}

proof fn lemma_struck_strokes(
    t: KeyTable,
    s: Seq<char>,
    i: int,
    start: int,
    delay_ms: u32,
    later: Seq<StepView>,
)
    ensures
        struck(injector::strokes(t, s, i, start, delay_ms) + later) == Seq::new(
            s.len(),
            |k: int| injector::stroke(t.keys[s[k] as u32], i + k, start, delay_ms),
        ) + struck(later),
    decreases s.len(),
{
    let now = injector::strokes(t, s, i, start, delay_ms);
    let ks = Seq::new(
        s.len(),
        |k: int| injector::stroke(t.keys[s[k] as u32], i + k, start, delay_ms),
    );
    if s.len() == 0 {
        assert(now + later =~= later);
        assert(ks + struck(later) =~= struck(later));
    } else {
        let tail = s.drop_first();
        let rest = Seq::new(
            tail.len(),
            |k: int| injector::stroke(t.keys[tail[k] as u32], i + 1 + k, start, delay_ms),
        );
        lemma_struck_strokes(t, tail, i + 1, start, delay_ms, later);
        assert((now + later).drop_first() =~= injector::strokes(t, tail, i + 1, start, delay_ms)
            + later);
        assert((now + later)[0] == StepView::Stroke(ks[0]));
        assert(ks.drop_first() =~= rest);
        assert(ks =~= seq![ks[0]] + rest);
        assert(struck(now + later) =~= ks + struck(later));
    }
}

/// There is one stroke for each character. The strokes follow each other at the
/// delay that is asked, each key is held down for ten milliseconds, and the
/// compositor is given time after every sixty-fourth character; time stamps start
/// over when 32 bits are full.
pub proof fn law_strokes_are_evenly_timed(
    t: KeyTable,
    s: Seq<char>,
    i: int,
    start: int,
    delay_ms: u32,
    k: int,
)
    requires
        0 <= i,
        0 <= start,
    ensures
        ({
            let ks = struck(injector::all_steps(injector::parts(t, s), i, start, delay_ms));
            &&& ks.len() == s.len()
            &&& 0 <= k < s.len() ==> {
                &&& ks[k].press_time == (start + (i + k) * delay_ms) % 0x1_0000_0000
                &&& ks[k].release_time == (start + (i + k) * delay_ms + 10) % 0x1_0000_0000
                &&& ks[k].sync == (i + k > 0 && (i + k) % 64 == 0)
            }
        }),
    decreases s.len(),
{
    let ps = injector::parts(t, s);
    if s.len() > 0 {
        let p = injector::first_part(t, s);
        let n = p.text.len() as int;
        let rest = s.skip(n);
        injector::lemma_first_part_len(t, s);
        law_strokes_are_evenly_timed(p.table, rest, i + n, start, delay_ms, k - n);
        assert(ps.drop_first() =~= injector::parts(p.table, rest));
        assert(ps[0] == p);
        let later = injector::all_steps(
            injector::parts(p.table, rest),
            i + n,
            start,
            delay_ms,
        );
        let now = injector::strokes(p.table, p.text, i, start, delay_ms);
        lemma_struck_strokes(p.table, p.text, i, start, delay_ms, later);
        let all = injector::all_steps(ps, i, start, delay_ms);
        if p.renewed {
            assert(all =~= seq![StepView::Keymap(p.table.keys)] + (now + later));
            assert(all.drop_first() =~= now + later);
        } else {
            assert(all =~= now + later);
        }
        assert(struck(all) == struck(now + later));
        if 0 <= k < s.len() {
            let at = start + (i + k) * delay_ms;
            assert(at >= 0) by {
                assert((i + k) * delay_ms >= 0) by (nonlinear_arith)
                    requires
                        0 <= i,
                        0 <= k,
                        0 <= delay_ms,
                ;
            }
            if k >= n {
                assert(struck(all)[k] == struck(later)[k - n]);
            }
        }
    }
}

// ---------------------------------------------------------------------------
// Keys
// ---------------------------------------------------------------------------

/// Printable ASCII, the line break, the tab and the letters of Portuguese always
/// have keys.
pub proof fn law_common_characters_have_keys(t: KeyTable, c: char)
    requires
        t.wf(),
        ({
            ||| ' ' <= c <= '~'
            ||| c == '\n' || c == '\t'
            ||| c == 'á' || c == 'à' || c == 'â' || c == 'ã' || c == 'é' || c == 'ê' || c == 'í'
            ||| c == 'ó' || c == 'ô' || c == 'õ' || c == 'ú' || c == 'ç'
            ||| c == 'Á' || c == 'À' || c == 'Â' || c == 'Ã' || c == 'É' || c == 'Ê' || c == 'Í'
            ||| c == 'Ó' || c == 'Ô' || c == 'Õ' || c == 'Ú' || c == 'Ç'
        }),
    ensures
        t.has(c),
        ' ' <= c <= '~' ==> t.keys[c as u32] == 8 + (c as int - ' ' as int),
{
    let codes = injector::standard_codes();
    let letters = injector::portuguese_letters();
    assert(codes.len() == 95 + 2 + letters.len());
    if ' ' <= c <= '~' {
        let i = c as int - 32;
        assert(codes[i] == c as u32);
    } else if c == '\n' {
        assert(codes[95] == c as u32);
    } else if c == '\t' {
        assert(codes[96] == c as u32);
    } else {
        assert(letters.contains(c)) by {
            let l = letters;
            assert(l[0] == c || l[1] == c || l[2] == c || l[3] == c || l[4] == c || l[5] == c
                || l[6] == c || l[7] == c || l[8] == c || l[9] == c || l[10] == c || l[11] == c
                || l[12] == c || l[13] == c || l[14] == c || l[15] == c || l[16] == c || l[17] == c
                || l[18] == c || l[19] == c || l[20] == c || l[21] == c || l[22] == c || l[23]
                == c);
        }
        let j = choose|j: int| 0 <= j < letters.len() && letters[j] == c;
        assert(codes[97 + j] == c as u32);
    }
}

/// The codes of all keys lie between 8 and 255, and no two characters have the
/// same.
pub proof fn law_keys_lie_in_range(t: KeyTable, a: char, b: char)
    requires
        t.wf(),
        t.has(a),
        t.has(b),
    ensures
        8 <= t.keys[a as u32] <= 255,
        t.keys[a as u32] == t.keys[b as u32] ==> a == b,
{
    assert(t.keys.contains_key(a as u32));
    assert(t.keys.contains_key(b as u32));
}

proof fn lemma_reach_is_longest(t: KeyTable, s: Seq<char>)
    ensures
        t.reach(s) <= s.len(),
        t.reach(s) < s.len() ==> !t.with_all(s.take(t.reach(s) as int)).can_type(
            s[t.reach(s) as int],
        ),
    decreases s.len(),
{
    if s.len() > 0 && t.can_type(s[0]) {
        let u = t.with(s[0]);
        let rest = s.drop_first();
        lemma_reach_is_longest(u, rest);
        let n = t.reach(s) as int;
        if n < s.len() {
            injector::lemma_with_all_front(t, s.take(n));
            assert(s.take(n).drop_first() =~= rest.take(n - 1));
            assert(s.take(n)[0] == s[0]);
            assert(rest[n - 1] == s[n]);
        }
    } else {
        assert(s.take(0) =~= Seq::<char>::empty());
    }
}

/// A part ends only where the keys have run out: it is all of the text, or the
/// next character has no key and none is free.
pub proof fn law_part_is_longest(t: KeyTable, s: Seq<char>)
    requires
        s.len() > 0,
    ensures
        ({
            let p = injector::first_part(t, s);
            let n = p.text.len() as int;
            n < s.len() ==> !p.table.has(s[n]) && p.table.next > 255
        }),
{
    lemma_reach_is_longest(t.ready_for(s[0]), s);
}

proof fn lemma_only_needed_keys(t: KeyTable, s: Seq<char>, code: u32)
    ensures
        t.with_all(s).keys.contains_key(code) ==> t.keys.contains_key(code) || exists|i: int|
            0 <= i < s.len() && (#[trigger] s[i]) as u32 == code,
    decreases s.len(),
{
    if s.len() > 0 {
        let init = s.drop_last();
        lemma_only_needed_keys(t, init, code);
        if t.with_all(s).keys.contains_key(code) && !t.keys.contains_key(code) {
            if t.with_all(init).keys.contains_key(code) {
                let i = choose|i: int| 0 <= i < init.len() && (#[trigger] init[i]) as u32 == code;
                assert(s[i] as u32 == code);
            } else {
                assert(s[s.len() - 1] as u32 == code);
            }
        }
    }
}

/// While keys last none is taken back: every character that had a key keeps it.
/// Only where the first character has no key and none is free, the keyboard starts
/// over. Keys are given to the characters of the part alone.
pub proof fn law_keys_are_kept(t: KeyTable, s: Seq<char>, code: u32)
    requires
        t.wf(),
        s.len() > 0,
    ensures
        ({
            let p = injector::first_part(t, s);
            let kept = t.has(s[0]) || t.next <= 255;
            &&& kept && t.keys.contains_key(code) ==> p.table.keys.contains_key(code)
                && p.table.keys[code] == t.keys[code]
            &&& !kept && injector::standard_table().keys.contains_key(code)
                ==> p.table.keys.contains_key(code) && p.table.keys[code]
                == injector::standard_table().keys[code]
            &&& p.table.keys.contains_key(code) ==> {
                ||| kept && t.keys.contains_key(code)
                ||| !kept && injector::standard_table().keys.contains_key(code)
                ||| exists|i: int| 0 <= i < p.text.len() && (#[trigger] p.text[i]) as u32 == code
            }
        }),
{
    let base = t.ready_for(s[0]);
    injector::law_standard_table_is_sound();
    injector::lemma_reached(base, s, base.reach(s) as int);
    lemma_only_needed_keys(base, s.take(base.reach(s) as int), code);
    assert(injector::first_part(t, s).text == s.take(base.reach(s) as int));
}

/// A new keymap is sent before a part exactly where one of its characters had no
/// key, and it is sent before the strokes of that part.
pub proof fn law_keymap_comes_before_its_strokes(p: Part, i: int, start: int, delay_ms: u32)
    ensures
        ({
            let steps = injector::part_steps(p, i, start, delay_ms);
            &&& p.renewed ==> steps.len() == p.text.len() + 1 && steps[0] == StepView::Keymap(
                p.table.keys,
            )
            &&& !p.renewed ==> steps.len() == p.text.len()
            &&& forall|k: int|
                (if p.renewed {
                    1int
                } else {
                    0
                }) <= k < steps.len() ==> (#[trigger] steps[k]) is Stroke
        }),
{
}

/// What is sent is what is said of it, one for one: a stroke itself, and for a
/// keymap its text, which lists every key of it once.
pub proof fn law_steps_are_sent_as_said(steps: Seq<Step>, vs: Seq<StepView>, i: int)
    requires
        injector::show(steps, vs),
        0 <= i < steps.len() || 0 <= i < vs.len(),
    ensures
        steps.len() == vs.len(),
        match (steps[i], vs[i]) {
            (Step::Stroke(a), StepView::Stroke(b)) => a == b,
            (Step::Keymap(m), StepView::Keymap(keys)) => exists|entries: Seq<(u32, u32)>|
                {
                    &&& m@ == #[trigger] keymap::keymap_text(entries)
                    &&& entries.no_duplicates()
                    &&& entries.to_set() == keys.kv_pairs()
                },
            _ => false,
        },
{
    assert(injector::shows(steps[i], vs[i]));
    if let (Step::Keymap(m), StepView::Keymap(keys)) = (steps[i], vs[i]) {
        let entries = choose|entries: Seq<(u32, u32)>|
            #![trigger keymap::lists(entries, keys)]
            keymap::lists(entries, keys) && m@ == keymap::keymap_text(entries);
        assert(m@ == keymap::keymap_text(entries));
    }
}

/// The keys of the keymap that a compositor has once it was sent the steps.
pub open spec fn keys_sent(keys: Map<u32, u32>, steps: Seq<StepView>) -> Map<u32, u32>
    decreases steps.len(),
{
    if steps.len() == 0 {
        keys
    } else {
        match steps[0] {
            StepView::Keymap(k) => keys_sent(k, steps.drop_first()),
            StepView::Stroke(_) => keys_sent(keys, steps.drop_first()),
        }
    }
}

proof fn lemma_appear_append(keys: Map<u32, u32>, a: Seq<StepView>, b: Seq<StepView>)
    ensures
        appear(keys, a + b) == appear(keys, a) + appear(keys_sent(keys, a), b),
        keys_sent(keys, a + b) == keys_sent(keys_sent(keys, a), b),
    decreases a.len(),
{
    if a.len() == 0 {
        assert(a + b =~= b);
        assert(appear(keys, a) + appear(keys, b) =~= appear(keys, b));
    } else {
        assert((a + b)[0] == a[0]);
        assert((a + b).drop_first() =~= a.drop_first() + b);
        match a[0] {
            StepView::Keymap(k) => {
                lemma_appear_append(k, a.drop_first(), b);
            },
            StepView::Stroke(_) => {
                lemma_appear_append(keys, a.drop_first(), b);
            },
        }
        assert(appear(keys, a + b) =~= appear(keys, a) + appear(keys_sent(keys, a), b));
    }
}

proof fn lemma_strokes_send_no_keys(
    t: KeyTable,
    s: Seq<char>,
    i: int,
    start: int,
    delay_ms: u32,
    keys: Map<u32, u32>,
)
    ensures
        keys_sent(keys, injector::strokes(t, s, i, start, delay_ms)) == keys,
    decreases s.len(),
{
    if s.len() > 0 {
        let tail = s.drop_first();
        lemma_strokes_send_no_keys(t, tail, i + 1, start, delay_ms, keys);
        assert(injector::strokes(t, s, i, start, delay_ms).drop_first() =~= injector::strokes(
            t,
            tail,
            i + 1,
            start,
            delay_ms,
        ));
    }
}

/// Once a text is typed, the compositor has the keymap of the keyboard as it is
/// then: the keys with which the last part was typed.
pub proof fn law_compositor_has_the_keymap(
    t: KeyTable,
    s: Seq<char>,
    i: int,
    start: int,
    delay_ms: u32,
)
    requires
        t.wf(),
    ensures
        ({
            let ps = injector::parts(t, s);
            let after = injector::table_after(t, s);
            &&& keys_sent(t.keys, injector::all_steps(ps, i, start, delay_ms)) == after.keys
            &&& s.len() > 0 ==> ps.len() > 0 && after == ps.last().table
            &&& s.len() == 0 ==> after == t
        }),
    decreases s.len(),
{
    let ps = injector::parts(t, s);
    if s.len() > 0 {
        let p = injector::first_part(t, s);
        let n = p.text.len() as int;
        let rest = s.skip(n);
        injector::lemma_first_part_len(t, s);
        injector::law_part_is_typed(t, s);
        law_compositor_has_the_keymap(p.table, rest, i + n, start, delay_ms);
        let more = injector::parts(p.table, rest);
        assert(ps.drop_first() =~= more);
        assert(ps[0] == p);
        if rest.len() > 0 {
            assert(ps.last() == more.last());
        } else {
            assert(more =~= Seq::<Part>::empty());
        }
        let later = injector::all_steps(more, i + n, start, delay_ms);
        let now = injector::part_steps(p, i, start, delay_ms);
        let strokes = injector::strokes(p.table, p.text, i, start, delay_ms);
        lemma_strokes_send_no_keys(p.table, p.text, i, start, delay_ms, p.table.keys);
        if p.renewed {
            assert(now.drop_first() =~= strokes);
            assert(now[0] == StepView::Keymap(p.table.keys));
        } else {
            assert(now =~= strokes);
        }
        assert(keys_sent(t.keys, now) == p.table.keys);
        lemma_appear_append(t.keys, now, later);
    }
}

/// Texts that are typed one after the other appear one after the other: what was
/// typed before does not matter.
pub proof fn law_texts_appear_in_turn(
    t: KeyTable,
    a: Seq<char>,
    b: Seq<char>,
    start: int,
    next_start: int,
    delay_ms: u32,
    next_delay_ms: u32,
)
    requires
        t.wf(),
    ensures
        ({
            let first = injector::all_steps(injector::parts(t, a), 0, start, delay_ms);
            let second = injector::all_steps(
                injector::parts(injector::table_after(t, a), b),
                0,
                next_start,
                next_delay_ms,
            );
            appear(t.keys, first + second) == appearance(a + b)
        }),
{
    let after = injector::table_after(t, a);
    let first = injector::all_steps(injector::parts(t, a), 0, start, delay_ms);
    let second = injector::all_steps(injector::parts(after, b), 0, next_start, next_delay_ms);
    injector::law_parts_make_up_text(t, a);
    law_compositor_has_the_keymap(t, a, 0, start, delay_ms);
    law_text_appears(t, a, 0, start, delay_ms);
    law_text_appears(after, b, 0, next_start, next_delay_ms);
    lemma_appear_append(t.keys, first, second);
    assert(appearance(a) + appearance(b) =~= appearance(a + b));
}

/// A keymap for keys lists each of them once, and no other.
pub proof fn law_keymap_is_that_of_its_keys(m: Seq<char>, keys: Map<u32, u32>) -> (entries: Seq<
    (u32, u32),
>)
    requires
        injector::is_keymap(m, keys),
    ensures
        m == keymap::keymap_text(entries),
        entries.no_duplicates(),
        forall|code: u32, keycode: u32| #[trigger]
            entries.contains((code, keycode)) <==> keys.contains_key(code) && keys[code] == keycode,
{
    let entries = choose|entries: Seq<(u32, u32)>|
        #![trigger keymap::lists(entries, keys)]
        keymap::lists(entries, keys) && m == keymap::keymap_text(entries);
    assert forall|code: u32, keycode: u32| #[trigger]
        entries.contains((code, keycode)) <==> keys.contains_key(code) && keys[code] == keycode by {
        assert(entries.to_set().contains((code, keycode)) == keys.kv_pairs().contains(
            (code, keycode),
        ));
    }
    entries
}

/// A time stamp is the time itself until 32 bits are full.
pub proof fn law_time_starts_over(time: int)
    requires
        0 <= time,
    ensures
        injector::wrapped(time) == time % 0x1_0000_0000,
        time < 0x1_0000_0000 ==> injector::wrapped(time) == time,
        injector::wrapped(time + 0x1_0000_0000) == injector::wrapped(time),
{
}

} // verus!
