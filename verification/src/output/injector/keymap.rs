//! The keymap of the virtual keyboard, in the text format of XKB.
//!
//! A character is carried by its code point.

use std::collections::HashMap;
use vstd::prelude::*;
use vstd::std_specs::iter::IteratorSpec;
use crate::text;
use crate::text_laws;

verus! {

broadcast use vstd::std_specs::hash::group_hash_axioms;

/// The keysym that types the character with the given code point: Return for a
/// line break, Tab for a tab, the code point itself in Latin-1, and the code
/// point in the Unicode block of keysyms elsewhere.
pub open spec fn keysym_of(code: nat) -> nat {
    if code == 0x0a || code == 0x0d {
        0xff0d
    } else if code == 0x09 {
        0xff09
    } else if code <= 0xff {
        code
    } else {
        0x0100_0000 + code
    }
}

/// The keysym that types `c`.
pub fn char_to_keysym(c: char) -> (r: u32)
    ensures
        r == keysym_of(c as nat),
{
    code_to_keysym(c as u32)
}

fn code_to_keysym(code: u32) -> (r: u32)
    requires
        code <= 0x10_ffff,
    ensures
        r == keysym_of(code as nat),
{
    if code == 0x0a || code == 0x0d {
        0xff0d
    } else if code == 0x09 {
        0xff09
    } else if code <= 0xff {
        code
    } else {
        0x0100_0000 + code
    }
}

/// Two characters are typed by the same keysym only where both are line breaks.
pub proof fn law_keysyms_tell_characters_apart(a: char, b: char)
    requires
        keysym_of(a as nat) == keysym_of(b as nat),
    ensures
        a == b || (a == '\n' && b == '\r') || (a == '\r' && b == '\n'),
{
}

/// The line that declares the key with code `keycode`.
pub open spec fn keycode_line(keycode: nat) -> Seq<char> {
    "        <K"@ + text::zero_padded(text::numeral(keycode, 10), 3) + "> = "@ + text::numeral(
        keycode,
        10,
    ) + ";\n"@
}

/// The line that makes the key with code `keycode` type a character.
pub open spec fn symbol_line(code: nat, keycode: nat) -> Seq<char> {
    "        key <K"@ + text::zero_padded(text::numeral(keycode, 10), 3) + "> { [ 0x"@
        + text::zero_padded(text::numeral(keysym_of(code), 16), 8) + " ] };\n"@
}

/// The lines that declare the keys of `entries`, each a code point and the code
/// of its key.
pub open spec fn keycode_lines(entries: Seq<(u32, u32)>) -> Seq<char>
    decreases entries.len(),
{
    if entries.len() == 0 {
        Seq::empty()
    } else {
        keycode_lines(entries.drop_last()) + keycode_line(entries.last().1 as nat)
    }
}

/// The lines that say what the keys of `entries` type.
pub open spec fn symbol_lines(entries: Seq<(u32, u32)>) -> Seq<char>
    decreases entries.len(),
{
    if entries.len() == 0 {
        Seq::empty()
    } else {
        symbol_lines(entries.drop_last()) + symbol_line(
            entries.last().0 as nat,
            entries.last().1 as nat,
        )
    }
}

/// The whole keymap for the entries, in their order.
pub open spec fn keymap_text(entries: Seq<(u32, u32)>) -> Seq<char> {
    "xkb_keymap {\n    xkb_keycodes \"inject\" {\n        minimum = 8;\n        maximum = 255;\n"@
        + keycode_lines(entries)
        + "    };\n    xkb_types \"inject\" {\n        include \"complete\"\n    };\n    xkb_compatibility \"inject\" {\n        include \"complete\"\n    };\n    xkb_symbols \"inject\" {\n"@
        + symbol_lines(entries) + "    };\n};"@
}

/// Whether `entries` are those of the map, each once, in some order.
pub open spec fn lists(entries: Seq<(u32, u32)>, map: Map<u32, u32>) -> bool {
    &&& entries.no_duplicates()
    &&& entries.to_set() == map.kv_pairs()
}

fn write_keycode_line(out: &mut String, keycode: u32)
    ensures
        final(out)@ == old(out)@ + keycode_line(keycode as nat),
{
    let padded: String = text::to_padded_numeral(keycode as u64, 10, 3);
    let plain: String = text::to_numeral(keycode as u64, 10);
    out.append("        <K");
    out.append(padded.as_str());
    out.append("> = ");
    out.append(plain.as_str());
    out.append(";\n");
    proof {
        assert(out@ =~= old(out)@ + keycode_line(keycode as nat));
    }
}

fn write_symbol_line(out: &mut String, code: u32, keycode: u32)
    requires
        code <= 0x10_ffff,
    ensures
        final(out)@ == old(out)@ + symbol_line(code as nat, keycode as nat),
{
    let padded: String = text::to_padded_numeral(keycode as u64, 10, 3);
    let keysym: String = text::to_padded_numeral(code_to_keysym(code) as u64, 16, 8);
    out.append("        key <K");
    out.append(padded.as_str());
    out.append("> { [ 0x");
    out.append(keysym.as_str());
    out.append(" ] };\n");
    proof {
        assert(out@ =~= old(out)@ + symbol_line(code as nat, keycode as nat));
    }
}

/// The keymap for a map from code points to the codes of their keys. The order
/// of its lines is the one in which the map is walked.
pub fn build_xkb_string(map: &HashMap<u32, u32>) -> (r: String)
    requires
        forall|code: u32| #[trigger] map@.contains_key(code) ==> code <= 0x10_ffff,
    ensures
        exists|entries: Seq<(u32, u32)>|
            #![trigger lists(entries, map@)]
            lists(entries, map@) && r@ == keymap_text(entries),
{
    let mut keycodes: String = String::new();
    let mut symbols: String = String::new();
    let ghost mut entries: Seq<(u32, u32)> = Seq::empty();
    let ghost all: Seq<(u32, u32)> = map.iter().remaining().unref();
    for (code, keycode) in it: map.iter()
        invariant
            forall|code: u32| #[trigger] map@.contains_key(code) ==> code <= 0x10_ffff,
            it.seq().no_duplicates(),
            it.seq().unref() == all,
            all.to_set() == map@.kv_pairs(),
            forall|i: int|
                #![trigger it.seq()[i]]
                0 <= i < it.seq().len() ==> map@.contains_key(*it.seq()[i].0),
            entries == it.seq().unref().take(it.index() as int),
            entries.no_duplicates(),
            keycodes@ == keycode_lines(entries),
            symbols@ == symbol_lines(entries),
    {
        write_keycode_line(&mut keycodes, *keycode);
        write_symbol_line(&mut symbols, *code, *keycode);
        proof {
            let next = entries.push((*code, *keycode));
            assert forall|i: int| 0 <= i < entries.len() implies entries[i] != (
                *code,
                *keycode,
            ) by {
                assert(it.seq()[i] != it.seq()[it.index() as int]);
                assert(entries[i] == it.seq().unref()[i]);
            }
            assert(next.drop_last() =~= entries);
            entries = next;
            assert(entries.no_duplicates());
            assert(entries =~= it.seq().unref().take(it.index() as int + 1));
        }
    }
    let mut r: String = String::new();
    r.append(
        "xkb_keymap {\n    xkb_keycodes \"inject\" {\n        minimum = 8;\n        maximum = 255;\n",
    );
    r.append(keycodes.as_str());
    r.append(
        "    };\n    xkb_types \"inject\" {\n        include \"complete\"\n    };\n    xkb_compatibility \"inject\" {\n        include \"complete\"\n    };\n    xkb_symbols \"inject\" {\n",
    );
    r.append(symbols.as_str());
    r.append("    };\n};");
    proof {
        assert(r@ =~= keymap_text(entries));
        assert(all.take(all.len() as int) =~= all);
        assert(entries == all);
        assert(lists(entries, map@));
    }
    r
}

// ---------------------------------------------------------------------------
// Laws
// ---------------------------------------------------------------------------

/// The code point of the character that a compositor takes a keysym for: a
/// keysym of Latin-1 is the code point itself, one of the Unicode block counts
/// from there, and Return and Tab are the line break and the tab.
pub open spec fn character_of(keysym: nat) -> nat {
    if keysym == 0xff0d {
        0x0a
    } else if keysym == 0xff09 {
        0x09
    } else if keysym >= 0x0100_0100 {
        (keysym - 0x0100_0000) as nat
    } else {
        keysym
    }
}

/// The code point that appears where a character is typed: itself, and a line
/// break for a carriage return.
pub open spec fn appearing(code: nat) -> nat {
    if code == 0x0d {
        0x0a
    } else {
        code
    }
}

/// A keysym types the character that it was made for; a carriage return comes as
/// a line break. It is one that is defined: of Latin-1, Return, Tab, or of the
/// Unicode block.
pub proof fn law_keysym_types_its_character(c: char)
    ensures
        character_of(keysym_of(c as nat)) == appearing(c as nat),
        c != '\r' ==> character_of(keysym_of(c as nat)) == c as nat,
        keysym_of(c as nat) <= 0xff || keysym_of(c as nat) == 0xff0d || keysym_of(c as nat)
            == 0xff09 || 0x0100_0100 <= keysym_of(c as nat) <= 0x0110_ffff,
{
}

/// The line that declares a key gives it a name and a code, and both tell the
/// code of the key.
pub proof fn law_key_is_declared(keycode: nat) -> (r: (Seq<char>, Seq<char>))
    ensures
        keycode_line(keycode) == "        <K"@ + r.0 + "> = "@ + r.1 + ";\n"@,
        text_laws::numeral_value(r.0, 10) == keycode,
        text_laws::numeral_value(r.1, 10) == keycode,
        r.0.len() >= 3,
        r.1.len() > 0 && (keycode > 0 ==> r.1[0] != '0'),
{
    let n = text::numeral(keycode, 10);
    text_laws::law_numerals_tell_numbers(keycode, 10);
    text_laws::law_zeros_in_front_change_nothing(n, 3, 10);
    (text::zero_padded(n, 3), n)
}

/// The line that says what a key types names the key as its declaration does, and
/// gives in base sixteen a keysym that types the character.
pub proof fn law_key_types_its_character(c: char, keycode: nat) -> (r: (Seq<char>, Seq<char>))
    ensures
        symbol_line(c as nat, keycode) == "        key <K"@ + r.0 + "> { [ 0x"@ + r.1
            + " ] };\n"@,
        keycode_line(keycode) == "        <K"@ + r.0 + "> = "@ + text::numeral(keycode, 10)
            + ";\n"@,
        text_laws::numeral_value(r.0, 10) == keycode,
        character_of(text_laws::numeral_value(r.1, 16) as nat) == appearing(c as nat),
        r.1.len() >= 8,
{
    let k = text::numeral(keycode, 10);
    let sym = text::numeral(keysym_of(c as nat), 16);
    text_laws::law_numerals_tell_numbers(keycode, 10);
    text_laws::law_zeros_in_front_change_nothing(k, 3, 10);
    text_laws::law_numerals_tell_numbers(keysym_of(c as nat), 16);
    text_laws::law_zeros_in_front_change_nothing(sym, 8, 16);
    law_keysym_types_its_character(c);
    (text::zero_padded(k, 3), text::zero_padded(sym, 8))
}

proof fn lemma_lines(entries: Seq<(u32, u32)>)
    ensures
        keycode_lines(entries) == text::concat(
            Seq::new(entries.len(), |i: int| keycode_line(entries[i].1 as nat)),
        ),
        symbol_lines(entries) == text::concat(
            Seq::new(
                entries.len(),
                |i: int| symbol_line(entries[i].0 as nat, entries[i].1 as nat),
            ),
        ),
    decreases entries.len(),
{
    let a = Seq::new(entries.len(), |i: int| keycode_line(entries[i].1 as nat));
    let b = Seq::new(
        entries.len(),
        |i: int| symbol_line(entries[i].0 as nat, entries[i].1 as nat),
    );
    if entries.len() > 0 {
        let init = entries.drop_last();
        lemma_lines(init);
        assert(a.drop_last() =~= Seq::new(init.len(), |i: int| keycode_line(init[i].1 as nat)));
        assert(b.drop_last() =~= Seq::new(
            init.len(),
            |i: int| symbol_line(init[i].0 as nat, init[i].1 as nat),
        ));
    }
}

/// The keys are declared one by one, each with a line of its own, and so is what
/// they type.
pub proof fn law_each_key_has_its_lines(entries: Seq<(u32, u32)>)
    ensures
        keycode_lines(entries) == text::concat(
            Seq::new(entries.len(), |i: int| keycode_line(entries[i].1 as nat)),
        ),
        symbol_lines(entries) == text::concat(
            Seq::new(
                entries.len(),
                |i: int| symbol_line(entries[i].0 as nat, entries[i].1 as nat),
            ),
        ),
{
    lemma_lines(entries);
}

proof fn lemma_line_stands_in(lines: Seq<Seq<char>>, i: int) -> (r: (Seq<char>, Seq<char>))
    requires
        0 <= i < lines.len(),
    ensures
        text::concat(lines) == r.0 + lines[i] + r.1,
{
    let a = lines.take(i);
    let b = lines.skip(i + 1);
    text_laws::law_texts_are_put_in_order(a, seq![lines[i]], lines[i]);
    text_laws::law_texts_are_put_in_order(a + seq![lines[i]], b, lines[i]);
    assert(a + seq![lines[i]] + b =~= lines);
    (text::concat(a), text::concat(b))
}

/// Every character that has a key is in the keymap: a line of it declares the
/// key, and a later one makes it type the character.
pub proof fn law_keymap_holds_every_key(
    entries: Seq<(u32, u32)>,
    map: Map<u32, u32>,
    code: u32,
) -> (r: (Seq<char>, Seq<char>, Seq<char>))
    requires
        lists(entries, map),
        map.contains_key(code),
    ensures
        keymap_text(entries) == r.0 + keycode_line(map[code] as nat) + r.1 + symbol_line(
            code as nat,
            map[code] as nat,
        ) + r.2,
{
    let pair = (code, map[code]);
    assert(map.kv_pairs().contains(pair));
    assert(entries.to_set().contains(pair));
    let i = choose|i: int| 0 <= i < entries.len() && entries[i] == pair;
    let a = Seq::new(entries.len(), |i: int| keycode_line(entries[i].1 as nat));
    let b = Seq::new(
        entries.len(),
        |i: int| symbol_line(entries[i].0 as nat, entries[i].1 as nat),
    );
    lemma_lines(entries);
    let x = lemma_line_stands_in(a, i);
    let y = lemma_line_stands_in(b, i);
    let head =
        "xkb_keymap {\n    xkb_keycodes \"inject\" {\n        minimum = 8;\n        maximum = 255;\n"@;
    let middle =
        "    };\n    xkb_types \"inject\" {\n        include \"complete\"\n    };\n    xkb_compatibility \"inject\" {\n        include \"complete\"\n    };\n    xkb_symbols \"inject\" {\n"@;
    let tail = "    };\n};"@;
    let r = (head + x.0, x.1 + middle + y.0, y.1 + tail);
    assert(keymap_text(entries) =~= r.0 + keycode_line(map[code] as nat) + r.1 + symbol_line(
        code as nat,
        map[code] as nat,
    ) + r.2);
    r
}

} // verus!
