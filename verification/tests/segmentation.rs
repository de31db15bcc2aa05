use amanuense::daemon::transcriber::params::{InferenceParams, SegmentError, SegmentText};
use amanuense::daemon::transcriber::segmentation::{
    accept_answer, run_segment, transcribe_long, SegmentRunOptions,
};
use std::cell::RefCell;

fn options(segment_samples: usize, overlap_samples: usize) -> SegmentRunOptions {
    SegmentRunOptions {
        segment_samples,
        overlap_samples,
        prompt: Some("Rust".to_string()),
        language: Some("pt".to_string()),
        n_past_tokens: 64,
        n_threads: 4,
    }
}

fn ranges(total: usize, segment: usize, overlap: usize) -> Vec<(u32, usize)> {
    let audio: Vec<u32> = (0..total as u32).collect();
    let seen = RefCell::new(Vec::new());
    let run = |samples: &[u32], _: &InferenceParams| {
        seen.borrow_mut().push((samples.first().copied().unwrap_or(u32::MAX), samples.len()));
        Ok(vec![])
    };
    assert_eq!(transcribe_long(&run, &audio, &options(segment, overlap)).unwrap(), "");
    seen.into_inner()
}

#[test]
fn segments_overlap_and_cover_the_recording() {
    assert_eq!(ranges(100, 28, 2), vec![(0, 28), (26, 28), (52, 28), (78, 22)]);
    assert_eq!(ranges(28, 28, 2), vec![(0, 28)]);
    assert_eq!(ranges(0, 28, 2), vec![]);
    assert_eq!(ranges(5, 3, 3), vec![(0, 3), (1, 3), (2, 3)]);
    assert_eq!(ranges(4, 3, 9), vec![(0, 3), (1, 3)]);
}

#[test]
fn a_long_recording_is_merged() {
    let audio = vec![0u8; 60];
    let turn = RefCell::new(0);
    let run = |_: &[u8], p: &InferenceParams| {
        assert_eq!(p.initial_prompt, Some("Rust".to_string()));
        assert_eq!(p.n_max_text_ctx, Some(64));
        let i = *turn.borrow();
        *turn.borrow_mut() += 1;
        let t = ["o modelo foi carregado", "Foi Carregado sem erro nenhum hoje", " ... "];
        Ok(vec![SegmentText::Text(t[i].to_string())])
    };
    assert_eq!(
        transcribe_long(&run, &audio, &options(28, 2)).unwrap(),
        "o modelo foi carregado sem erro nenhum hoje"
    );
    assert_eq!(*turn.borrow(), 3);
}

#[test]
fn without_overlap_nothing_is_removed() {
    let audio = vec![0u8; 40];
    let run =
        |_: &[u8], _: &InferenceParams| Ok(vec![SegmentText::Text("sim senhor agora".to_string())]);
    assert_eq!(
        transcribe_long(&run, &audio, &options(20, 0)).unwrap(),
        "sim senhor agora sim senhor agora"
    );
}

#[test]
fn the_first_failure_ends_the_transcription() {
    let audio = vec![0u8; 60];
    let turn = RefCell::new(0);
    let run = |_: &[u8], _: &InferenceParams| {
        *turn.borrow_mut() += 1;
        if *turn.borrow() == 2 {
            Err("sem memória".to_string())
        } else {
            Ok(vec![SegmentText::Text("olá".to_string())])
        }
    };
    let e = transcribe_long(&run, &audio, &options(28, 2)).unwrap_err();
    assert!(matches!(&e, SegmentError::Inference(cause) if cause == "sem memória"));
    assert_eq!(*turn.borrow(), 2);
}

#[test]
fn a_segment_without_text_fails() {
    let run = |_: &[u8], _: &InferenceParams| Ok(vec![SegmentText::Missing]);
    let e = run_segment(&run, &[0u8; 3], &options(28, 2)).unwrap_err();
    assert!(matches!(e, SegmentError::Missing(0)));
    let run = |_: &[u8], _: &InferenceParams| Ok(vec![SegmentText::Text(" Oi ".to_string())]);
    assert_eq!(run_segment(&run, &[0u8; 3], &options(28, 2)).unwrap(), "Oi");
}

#[test]
fn answers_are_accepted_in_turn() {
    let mut parts = Vec::new();
    accept_answer(&mut parts, " bom dia ", true, 2);
    accept_answer(&mut parts, "   ", false, 2);
    accept_answer(&mut parts, "bom dia a todos os presentes", false, 2);
    assert_eq!(parts, vec!["bom dia".to_string(), "a todos os presentes".to_string()]);
    let mut parts = vec!["a b".to_string()];
    accept_answer(&mut parts, "İa bééééééééééééééé", false, 2);
    assert_eq!(parts, vec!["a b".to_string(), "İa bééééééééééééééé".to_string()]);
}
