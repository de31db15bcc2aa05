use amanuense::output::clipboard::{
    bind_global, missing_global as missing_for_selection, offered_types, set_primary_selection,
    Global, MissingGlobal as MissingForSelection, SourceEvent,
};
use amanuense::output::injector::keymap::{build_xkb_string, char_to_keysym};
use amanuense::output::injector::{
    after_flush_error, keymap_bytes, missing_global, FlushAction, KeyStroke, MissingGlobal, Step,
    TextInjector,
};
use std::collections::HashMap;

fn ready_injector() -> TextInjector {
    TextInjector::new().0
}

fn types(injector: &mut TextInjector, text: &str, delay_ms: u32) -> (Option<String>, Vec<KeyStroke>) {
    let mut keymap = None;
    let mut strokes = Vec::new();
    for step in injector.type_text(text, delay_ms) {
        match step {
            Step::Keymap(m) => {
                assert!(keymap.is_none() && strokes.is_empty());
                keymap = Some(m);
            }
            Step::Stroke(k) => strokes.push(k),
        }
    }
    (keymap, strokes)
}

fn codes(strokes: &[KeyStroke]) -> Vec<u32> {
    strokes.iter().map(|k| k.evdev_keycode).collect()
}

#[test]
fn characters_have_keysyms() {
    assert_eq!(char_to_keysym('\n'), 0xff0d);
    assert_eq!(char_to_keysym('\r'), 0xff0d);
    assert_eq!(char_to_keysym('\t'), 0xff09);
    assert_eq!(char_to_keysym('a'), 0x61);
    assert_eq!(char_to_keysym('ç'), 0xe7);
    assert_eq!(char_to_keysym('ÿ'), 0xff);
    assert_eq!(char_to_keysym('Ā'), 0x0100_0100);
    assert_eq!(char_to_keysym('🎙'), 0x0101_f399);
}

#[test]
fn keymaps_are_written_out() {
    let mut map = HashMap::new();
    map.insert('é' as u32, 9u32);
    let expected = "xkb_keymap {
    xkb_keycodes \"inject\" {
        minimum = 8;
        maximum = 255;
        <K009> = 9;
    };
    xkb_types \"inject\" {
        include \"complete\"
    };
    xkb_compatibility \"inject\" {
        include \"complete\"
    };
    xkb_symbols \"inject\" {
        key <K009> { [ 0x000000e9 ] };
    };
};";
    assert_eq!(build_xkb_string(&map), expected);
    map.insert('a' as u32, 130u32);
    let both = build_xkb_string(&map);
    for line in [
        "        <K009> = 9;\n",
        "        <K130> = 130;\n",
        "        key <K009> { [ 0x000000e9 ] };\n",
        "        key <K130> { [ 0x00000061 ] };\n",
    ] {
        assert_eq!(both.matches(line).count(), 1);
    }
    assert_eq!(both.lines().count(), expected.lines().count() + 2);
}

#[test]
fn a_keyboard_starts_with_common_characters() {
    let (mut injector, m) = TextInjector::new();
    assert_eq!(m.matches(" = ").count(), 123);
    assert!(m.contains("        <K008> = 8;\n"));
    assert!(m.contains("        key <K008> { [ 0x00000020 ] };\n"));
    assert!(m.contains("        key <K102> { [ 0x0000007e ] };\n"));
    assert!(m.contains("        key <K103> { [ 0x0000ff0d ] };\n"));
    assert!(m.contains("        key <K104> { [ 0x0000ff09 ] };\n"));
    assert!(m.contains("        key <K105> { [ 0x000000e1 ] };\n"));
    assert!(m.contains("        key <K128> { [ 0x000000c7 ] };\n"));
    let (again, strokes) = types(&mut injector, " ~\n\táÇ", 2);
    assert_eq!(again, None);
    assert_eq!(codes(&strokes), vec![0, 94, 95, 96, 97, 120]);
}

#[test]
fn strokes_are_stamped() {
    let mut injector = ready_injector();
    let (_, strokes) = types(&mut injector, "ab", 7);
    assert_eq!(
        strokes,
        vec![
            KeyStroke { press_time: 200, release_time: 210, evdev_keycode: 65, sync: false },
            KeyStroke { press_time: 207, release_time: 217, evdev_keycode: 66, sync: false },
        ]
    );
    let (_, strokes) = types(&mut injector, "c", u32::MAX);
    assert_eq!(strokes[0].press_time, 214);
    let (_, strokes) = types(&mut injector, "d", 0);
    assert_eq!(strokes[0].press_time, 213);
}

#[test]
fn time_stamps_start_over() {
    let mut injector = ready_injector();
    types(&mut injector, "a", u32::MAX - 205);
    let (_, strokes) = types(&mut injector, "ab", 9);
    assert_eq!(strokes[0].press_time, u32::MAX - 5);
    assert_eq!(strokes[0].release_time, 4);
    assert_eq!(strokes[1].press_time, 3);
}

#[test]
fn the_compositor_is_waited_for() {
    let mut injector = ready_injector();
    let (_, strokes) = types(&mut injector, &"x".repeat(130), 1);
    let waits: Vec<usize> =
        strokes.iter().enumerate().filter(|(_, k)| k.sync).map(|(i, _)| i).collect();
    assert_eq!(waits, vec![64, 128]);
}

#[test]
fn new_characters_get_keys() {
    let mut injector = ready_injector();
    let (keymap, strokes) = types(&mut injector, "ñaßñ", 1);
    let keymap = keymap.unwrap();
    assert!(keymap.contains("        key <K129> { [ 0x000000f1 ] };\n"));
    assert!(keymap.contains("        key <K130> { [ 0x000000df ] };\n"));
    assert_eq!(codes(&strokes), vec![121, 65, 122, 121]);
    let (keymap, strokes) = types(&mut injector, "ß", 1);
    assert_eq!(keymap, None);
    assert_eq!(codes(&strokes), vec![122]);
}

/// The character that is typed by the key with this code.
fn character_of(keymap: &str, code: u32) -> char {
    let head = format!("        key <K{:03}> {{ [ 0x", code);
    let at = keymap.find(&head).unwrap() + head.len();
    let keysym = u32::from_str_radix(&keymap[at..at + 8], 16).unwrap();
    match keysym {
        0xff0d => '\n',
        0xff09 => '\t',
        k if k <= 0xff => char::from_u32(k).unwrap(),
        k => char::from_u32(k - 0x0100_0000).unwrap(),
    }
}

/// What the compositor makes of the steps, and how many keymaps it was sent.
fn arrives(keymap: &mut String, steps: Vec<Step>) -> (String, usize) {
    let mut text = String::new();
    let mut keymaps = 0;
    for step in steps {
        match step {
            Step::Keymap(m) => {
                *keymap = m;
                keymaps += 1;
            }
            Step::Stroke(k) => text.push(character_of(keymap, k.evdev_keycode + 8)),
        }
    }
    (text, keymaps)
}

#[test]
fn every_text_is_typed_whole() {
    let (mut injector, mut keymap) = TextInjector::new();
    // 127 keys are free on a fresh keyboard.
    let fits: String = (0..127u32).map(|i| char::from_u32(0x4e00 + i).unwrap()).collect();
    let more: String = (0..300u32).map(|i| char::from_u32(0x5e00 + i).unwrap()).collect();
    let texts = [
        ("Olá, mundo!\n\tÇa", 0),
        (fits.as_str(), 1),
        ("a\u{4e00}b", 0),
        ("a\u{4e00}ж\u{4e00}", 1),
        (more.as_str(), 3),
        ("", 0),
    ];
    for (text, expected) in texts {
        let steps = injector.type_text(text, 1);
        assert_eq!(arrives(&mut keymap, steps), (text.to_string(), expected));
    }
}

#[test]
fn one_character_too_many_starts_over() {
    let mut injector = ready_injector();
    let text: String = (0..128u32).map(|i| char::from_u32(0x4e00 + i).unwrap()).collect();
    let steps = injector.type_text(&text, 1);
    assert_eq!(steps.len(), 130);
    assert!(matches!(&steps[0], Step::Keymap(m) if m.contains("<K255> = 255;")));
    assert!(matches!(&steps[127], Step::Stroke(k) if k.evdev_keycode == 247));
    assert!(matches!(&steps[128], Step::Keymap(m) if m.contains("<K129>") && !m.contains("<K130>")));
    assert!(matches!(
        &steps[129],
        Step::Stroke(k) if k.evdev_keycode == 121 && k.press_time == 327 && !k.sync
    ));
}

#[test]
fn a_text_can_be_typed_step_by_step() {
    let mut whole = ready_injector();
    let mut stepwise = ready_injector();
    let expected = whole.type_text("aña", 5);
    stepwise.begin("aña", 5);
    for step in expected {
        match (step, stepwise.next_step().unwrap()) {
            (Step::Stroke(a), Step::Stroke(b)) => assert_eq!(a, b),
            (Step::Keymap(a), Step::Keymap(b)) => assert_eq!(a.len(), b.len()),
            _ => panic!("the steps differ"),
        }
    }
    assert!(stepwise.next_step().is_none());
    assert!(stepwise.next_step().is_none());
}

#[test]
fn a_text_can_be_given_up() {
    let mut injector = ready_injector();
    injector.begin("abc", 5);
    injector.next_step();
    injector.next_step();
    let (_, strokes) = types(&mut injector, "d", 1);
    assert_eq!(codes(&strokes), vec![68]);
    assert_eq!(strokes[0].press_time, 210);
}

#[test]
fn sending_is_tried_again() {
    assert_eq!(after_flush_error(Some((true, Some(11)))), FlushAction::Retry(5));
    assert_eq!(after_flush_error(Some((false, Some(109)))), FlushAction::Retry(15));
    assert_eq!(after_flush_error(Some((false, Some(32)))), FlushAction::Fail);
    assert_eq!(after_flush_error(Some((false, None))), FlushAction::Fail);
    assert_eq!(after_flush_error(None), FlushAction::Fail);
}

#[test]
fn keymaps_end_in_a_zero_byte() {
    assert_eq!(keymap_bytes("aç"), vec![0x61, 0xc3, 0xa7, 0]);
}

#[test]
fn missing_globals_are_told() {
    assert_eq!(missing_global(false, false), Some(MissingGlobal::KeyboardManager));
    assert_eq!(missing_global(true, false), Some(MissingGlobal::Seat));
    assert_eq!(missing_global(true, true), None);
    assert_eq!(missing_for_selection(false, false), Some(MissingForSelection::SelectionManager));
    assert_eq!(missing_for_selection(true, false), Some(MissingForSelection::Seat));
    assert_eq!(missing_for_selection(true, true), None);
}

#[test]
fn needed_globals_are_bound() {
    assert_eq!(bind_global("wl_seat", 9), Some(Global::Seat(7)));
    assert_eq!(bind_global("wl_seat", 5), Some(Global::Seat(5)));
    assert_eq!(
        bind_global("zwp_primary_selection_device_manager_v1", 3),
        Some(Global::SelectionManager(1))
    );
    assert_eq!(bind_global("wl_output", 4), None);
}

#[test]
fn the_selection_is_handed_over() {
    assert_eq!(
        offered_types(),
        vec!["text/plain;charset=utf-8".to_string(), "text/plain".to_string()]
    );
    let mut s = set_primary_selection("olá");
    assert_eq!(s.on_event(SourceEvent::Other), None);
    assert_eq!(s.on_event(SourceEvent::Send), Some("olá".as_bytes().to_vec()));
    assert!(!s.is_done());
    assert_eq!(s.on_event(SourceEvent::Cancelled), None);
    assert!(s.is_done());
    assert_eq!(s.on_event(SourceEvent::Send), Some("olá".as_bytes().to_vec()));
    assert!(s.is_done());
}
