use amanuense::daemon::transcriber::params::{
    collect_answer, segment_params, SegmentError, SegmentText,
};
use amanuense::daemon::transcriber::postprocess::{
    find_suffix, last_n_words_of_parts, remove_overlap_prefix, should_skip_segment, Repeat,
};
use amanuense::daemon::transcriber::{
    find_overlap, is_artifact, normalize, normalize_lower, split_words, words_agree,
};

fn list(parts: &[&str]) -> Vec<String> {
    parts.iter().map(|p| p.to_string()).collect()
}

fn said(t: &str) -> SegmentText {
    SegmentText::Text(t.to_string())
}

#[test]
fn words_carry_the_white_space_before_them() {
    assert_eq!(split_words(""), list(&[]));
    assert_eq!(split_words(" Olá mundo"), list(&[" Olá", " mundo"]));
    assert_eq!(split_words("a  b "), list(&["a", "  b", " "]));
    assert_eq!(split_words("  "), list(&["  "]));
    assert_eq!(split_words("um\ndois"), list(&["um", "\ndois"]));
}

#[test]
fn words_keep_the_text() {
    for s in ["", " ", "a b", " Passando  por aqui,\tsim. ", "—  –"] {
        assert_eq!(split_words(s).concat(), s);
    }
}

#[test]
fn words_are_compared_by_letters_and_digits() {
    assert_eq!(normalize(" Passando"), "passando");
    assert_eq!(normalize(" passando,"), "passando");
    assert_eq!(normalize(" ÁGUA-2!"), "água2");
    assert_eq!(normalize(" -- "), "--");
    assert_eq!(normalize(""), "");
    assert!(words_agree(&" Olá,".to_string(), &"olá".to_string()));
    assert!(!words_agree(&"ola".to_string(), &"olá".to_string()));
}

#[test]
fn the_longest_overlap_is_found() {
    assert_eq!(find_overlap(&list(&["a", "b", "c"]), &list(&[" B", " c.", " d"])), 2);
    assert_eq!(find_overlap(&list(&["x", "x", "x"]), &list(&["x", "x"])), 2);
    assert_eq!(find_overlap(&list(&["a", "b"]), &list(&["a", "b", "c"])), 2);
    assert_eq!(find_overlap(&list(&["a", "b"]), &list(&["c"])), 0);
    assert_eq!(find_overlap(&list(&[]), &list(&["c"])), 0);
}

#[test]
fn artifacts_stand_for_no_speech() {
    for s in ["", "[BLANK_AUDIO]", "(silêncio)", "[Música]", "(Música)", "...", "?!", "—"] {
        assert!(is_artifact(s), "{}", s);
    }
    for s in ["[BLANK_AUDIO] olá", "[Blank_Audio]", "sim", "3", "é"] {
        assert!(!is_artifact(s), "{}", s);
    }
    assert!(should_skip_segment("  [music]\n"));
    assert!(should_skip_segment(" \t"));
    assert!(!should_skip_segment(" música "));
}

#[test]
fn last_words_come_from_all_parts() {
    let parts = list(&["um dois", "três  quatro", "cinco"]);
    assert_eq!(last_n_words_of_parts(&parts, 2), "quatro cinco");
    assert_eq!(last_n_words_of_parts(&parts, 4), "dois três quatro cinco");
    assert_eq!(last_n_words_of_parts(&parts, 5), "um dois três quatro cinco");
    assert_eq!(last_n_words_of_parts(&parts, 8), "um dois três  quatro cinco");
    assert_eq!(last_n_words_of_parts(&list(&[]), 2), "");
}

#[test]
fn repeated_words_are_removed() {
    let before = list(&["o modelo foi carregado na placa"]);
    assert_eq!(
        remove_overlap_prefix(&before, "Na Placa e agora responde bem depressa"),
        "e agora responde bem depressa"
    );
    assert_eq!(
        remove_overlap_prefix(&before, "foi carregado na placa de vídeo nova que chegou ontem"),
        "de vídeo nova que chegou ontem"
    );
    let nothing_new = "na placa";
    assert_eq!(remove_overlap_prefix(&before, nothing_new), nothing_new);
    let late = "isto foi dito depois de muito tempo na placa";
    assert_eq!(remove_overlap_prefix(&before, late), late);
    assert_eq!(remove_overlap_prefix(&list(&[]), "tudo fica"), "tudo fica");
}

#[test]
fn nothing_is_removed_where_a_character_would_be_cut() {
    // The lower case of İ is longer than İ itself, so that the position found in
    // lower case lies elsewhere in the text.
    let before = list(&["a b"]);
    let current = "İa bééééééééééééééé";
    assert_eq!(current.to_lowercase().find("a b"), Some(3));
    assert_eq!(remove_overlap_prefix(&before, current), current);
    let fine = "a b e mais alguma coisa";
    assert_eq!(remove_overlap_prefix(&before, fine), "e mais alguma coisa");
}

#[test]
fn a_repeat_may_end_inside_a_word() {
    let before = list(&["o gato"]);
    assert_eq!(remove_overlap_prefix(&before, "o gatos correm"), "s correm");
}

#[test]
fn suffixes_are_found_in_given_lower_case() {
    let r = find_suffix("Na Placa e mais", "na placa e mais", "Na placa", "na placa");
    assert!(matches!(r, Repeat::Rest(t) if t == "e mais"));
    let r = find_suffix("Na Placa", "na placa", "Na placa", "na placa");
    assert!(matches!(r, Repeat::Nothing));
    let r = find_suffix("abc", "xyz", "abc", "abc");
    assert!(matches!(r, Repeat::Nothing));
    let r = find_suffix("abc", "abc", "", "");
    assert!(matches!(r, Repeat::Nothing));
    let r = find_suffix("éééé", "aéééé", "a", "a");
    assert!(matches!(r, Repeat::InsideCharacter));
}

#[test]
fn words_are_normal_by_given_lower_case() {
    assert_eq!(normalize_lower(" Olá,", " olá,"), "olá");
    assert_eq!(normalize_lower(" -- ", " -- "), "--");
    assert_eq!(normalize_lower("x", "YZ 9"), "YZ9");
}

#[test]
fn normal_forms_are_stable() {
    for s in [" Passando", " ÁGUA-2!", " -- ", "", "ΑΣ"] {
        assert_eq!(normalize(&normalize(s)), normalize(s));
        assert_eq!(normalize(&format!(" {}", s)), normalize(s));
        assert_eq!(normalize(s).is_empty(), s.trim().is_empty());
    }
}

#[test]
fn answers_are_cleaned_and_joined() {
    let segments = vec![said(" Olá,"), said("[BLANK_AUDIO]"), said(" mundo. "), said("...")];
    assert_eq!(collect_answer(&segments).unwrap(), "Olá, mundo.");
    assert_eq!(collect_answer(&vec![]).unwrap(), "");
}

#[test]
fn the_first_bad_segment_is_reported() {
    let segments = vec![said("a"), SegmentText::Missing, SegmentText::Invalid("x".to_string())];
    let e = collect_answer(&segments).unwrap_err();
    assert!(matches!(e, SegmentError::Missing(1)));
    assert_eq!(e.message(), "Segmento 1 fora do range");
    let segments = vec![SegmentText::Invalid("utf8".to_string()), said("a")];
    let e = collect_answer(&segments).unwrap_err();
    assert!(matches!(&e, SegmentError::Invalid(0, cause) if cause == "utf8"));
    assert_eq!(e.message(), "Erro ao obter texto do segmento 0: utf8");
    assert_eq!(
        SegmentError::Inference("falta memória".to_string()).message(),
        "Erro na inferência Whisper: falta memória"
    );
}

#[test]
fn segments_are_asked_as_configured() {
    let p = segment_params(&None, &None, 0, 4);
    assert!(p.language.is_none());
    assert!(p.detect_language);
    assert!(p.initial_prompt.is_none());
    assert_eq!(p.n_max_text_ctx, Some(1));
    assert_eq!(p.n_threads, 4);
    assert!(p.suppress_blank && p.suppress_non_speech);
    assert!(!p.token_timestamps && !p.translate);
    let p = segment_params(&Some("pt".to_string()), &Some("Rust".to_string()), 64, 8);
    assert_eq!(p.language, Some("pt".to_string()));
    assert!(!p.detect_language);
    assert_eq!(p.initial_prompt, Some("Rust".to_string()));
    assert_eq!(p.n_max_text_ctx, Some(64));
}
