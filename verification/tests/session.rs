use amanuense::config::{InferenceConfig, ModelConfig};
use amanuense::daemon::transcriber::params::{InferenceParams, SegmentText};
use amanuense::daemon::transcriber::session::{collect_text, StreamingSession};
use std::cell::RefCell;

fn inference_config(window_secs: u32) -> InferenceConfig {
    InferenceConfig {
        stream_step_ms: 500,
        stream_window_secs: window_secs,
        initial_prompt: "".to_string(),
        system_prompt: "".to_string(),
    }
}

fn model_config(language: &str) -> ModelConfig {
    ModelConfig {
        path: "m.bin".to_string(),
        language: language.to_string(),
        use_gpu: true,
        gpu_device: 0,
        n_threads: 6,
    }
}

fn fresh_session(window_secs: u32) -> StreamingSession<f32> {
    StreamingSession::new(inference_config(window_secs), model_config("pt"))
}

fn hears(
    session: &mut StreamingSession<f32>,
    samples: usize,
    answer: &str,
) -> Result<String, String> {
    let chunk = vec![0.5f32; samples];
    session.process_chunk(&chunk, |_: &Vec<f32>, _: &InferenceParams| {
        Ok(vec![SegmentText::Text(answer.to_string())])
    })
}

#[test]
fn nothing_is_typed_on_the_first_hypothesis() {
    let mut s = fresh_session(30);
    assert_eq!(hears(&mut s, 8000, " Bom dia a todos").unwrap(), "");
}

#[test]
fn agreed_words_are_typed_but_the_last() {
    let mut s = fresh_session(30);
    hears(&mut s, 8000, " Bom dia a").unwrap();
    assert_eq!(hears(&mut s, 8000, " bom dia a todos").unwrap(), " bom dia");
    assert_eq!(hears(&mut s, 8000, " Bom dia a todos vocês").unwrap(), " a");
    assert_eq!(s.flush(), " todos vocês");
    assert_eq!(s.flush(), "");
}

#[test]
fn typed_words_are_not_taken_back() {
    let mut s = fresh_session(30);
    hears(&mut s, 8000, "um dois três quatro").unwrap();
    assert_eq!(hears(&mut s, 8000, "um dois três quatro").unwrap(), "um dois três");
    assert_eq!(hears(&mut s, 8000, "um").unwrap(), "");
    assert_eq!(s.flush(), "");
}

#[test]
fn a_stable_text_is_typed_whole() {
    let text = " Isto é um teste.";
    let mut s = fresh_session(30);
    let mut typed = String::new();
    typed.push_str(&hears(&mut s, 8000, text).unwrap());
    typed.push_str(&hears(&mut s, 8000, text).unwrap());
    typed.push_str(&s.flush());
    assert_eq!(typed, text);
}

#[test]
fn a_full_window_slides() {
    let mut s = fresh_session(3);
    hears(&mut s, 24000, " um dois três").unwrap();
    // The window of 48000 samples is full: it slides after this hypothesis.
    assert_eq!(hears(&mut s, 24000, " um dois três quatro").unwrap(), " um dois");
    // The words that repeat the window before are not typed again.
    let lengths = RefCell::new(Vec::new());
    let prompts = RefCell::new(Vec::new());
    let typed = s
        .process_chunk(&[0.0f32; 100], |audio: &Vec<f32>, p: &InferenceParams| {
            lengths.borrow_mut().push(audio.len());
            prompts.borrow_mut().push(p.initial_prompt.clone());
            Ok(vec![SegmentText::Text(" dois três quatro".to_string())])
        })
        .unwrap();
    assert_eq!(typed, "");
    assert_eq!(*lengths.borrow(), vec![32100]);
    assert_eq!(*prompts.borrow(), vec![Some(" um dois".to_string())]);
    assert_eq!(hears(&mut s, 100, " dois três quatro").unwrap(), " três");
    assert_eq!(s.flush(), " quatro");
}

#[test]
fn the_context_stays_short() {
    let mut s = fresh_session(0);
    let mut longest = 0;
    for _ in 0..60 {
        let words = " palavra1 palavra2 palavra3 palavra4 palavra5 palavra6 palavra7";
        // A window of no length slides after every hypothesis but the one that
        // follows a slide.
        for _ in 0..3 {
            let seen = RefCell::new(0);
            s.process_chunk(&[0.0f32; 10], |_: &Vec<f32>, p: &InferenceParams| {
                *seen.borrow_mut() = p.initial_prompt.as_ref().map_or(0, |t| t.len());
                Ok(vec![SegmentText::Text(words.to_string())])
            })
            .unwrap();
            longest = longest.max(*seen.borrow());
        }
    }
    assert!(longest > 900 && longest <= 1000, "{}", longest);
}

#[test]
fn a_shorter_hypothesis_slides() {
    let mut s = fresh_session(3);
    hears(&mut s, 8000, "um dois três quatro").unwrap();
    assert_eq!(hears(&mut s, 8000, "um dois três quatro").unwrap(), "um dois três");
    assert_eq!(hears(&mut s, 40000, "um dois").unwrap(), "");
    // The window has slid: two seconds of audio stay, and the words heard last
    // are the context.
    let seen = RefCell::new((0, None));
    let typed = s
        .process_chunk(&[0.0f32; 100], |audio: &Vec<f32>, p: &InferenceParams| {
            *seen.borrow_mut() = (audio.len(), p.initial_prompt.clone());
            Ok(vec![SegmentText::Text(" dois três".to_string())])
        })
        .unwrap();
    assert_eq!(typed, "");
    assert_eq!(seen.into_inner(), (32100, Some("um dois".to_string())));
}

#[test]
fn the_context_begins_at_a_character() {
    for (n, kept) in [(501, "é".repeat(498)), (500, "é".repeat(498))] {
        let mut s = fresh_session(1);
        let long = format!("{}xyz w", "é".repeat(n));
        let committed = format!("{}xyz", "é".repeat(n));
        hears(&mut s, 8000, &long).unwrap();
        assert_eq!(hears(&mut s, 8000, &long).unwrap(), committed);
        let seen = RefCell::new(None);
        s.process_chunk(&[0.0f32; 10], |_: &Vec<f32>, p: &InferenceParams| {
            *seen.borrow_mut() = p.initial_prompt.clone();
            Ok(vec![])
        })
        .unwrap();
        assert_eq!(seen.into_inner(), Some(format!("{}xyz", kept)));
    }
}

#[test]
fn a_long_context_begins_at_a_blank() {
    let mut s = fresh_session(1);
    let long = format!("{} ção {} w", "é".repeat(300), "a".repeat(700));
    hears(&mut s, 8000, &long).unwrap();
    hears(&mut s, 8000, &long).unwrap();
    let seen = RefCell::new(None);
    s.process_chunk(&[0.0f32; 10], |_: &Vec<f32>, p: &InferenceParams| {
        *seen.borrow_mut() = p.initial_prompt.clone();
        Ok(vec![])
    })
    .unwrap();
    assert_eq!(seen.into_inner(), Some(format!(" ção {}", "a".repeat(700))));
}

#[test]
fn a_growing_text_is_typed_whole() {
    let mut s = fresh_session(30);
    let mut typed = String::new();
    for t in [" um", " um", " um dois três", " um dois três quatro cinco"] {
        typed.push_str(&hears(&mut s, 100, t).unwrap());
    }
    assert_eq!(typed, " um dois");
    typed.push_str(&s.flush());
    assert_eq!(typed, " um dois três quatro cinco");
}

#[test]
fn a_failing_model_is_reported() {
    let mut s = fresh_session(30);
    let r = s.process_chunk(&[0.0f32; 10], |_: &Vec<f32>, _: &InferenceParams| {
        Err::<Vec<SegmentText>, String>("sem GPU".to_string())
    });
    assert!(matches!(r, Err(m) if m == "Erro na inferência: sem GPU"));
    // The chunk was heard all the same.
    let seen = RefCell::new(0);
    s.process_chunk(&[0.0f32; 5], |audio: &Vec<f32>, _: &InferenceParams| {
        *seen.borrow_mut() = audio.len();
        Ok(vec![])
    })
    .unwrap();
    assert_eq!(*seen.borrow(), 15);
}

#[test]
fn the_model_is_asked_as_configured() {
    let mut config = inference_config(30);
    config.system_prompt = " Formal. ".to_string();
    let mut s: StreamingSession<f32> = StreamingSession::new(config, model_config("auto"));
    let asked = RefCell::new(None);
    s.process_chunk(&[0.0f32; 10], |_: &Vec<f32>, p: &InferenceParams| {
        *asked.borrow_mut() = Some(p.clone());
        Ok(vec![])
    })
    .unwrap();
    let p = asked.into_inner().unwrap();
    assert_eq!(p.language, None);
    assert!(!p.detect_language);
    assert_eq!(p.initial_prompt, Some("Formal. ".to_string()));
    assert_eq!(p.n_max_text_ctx, None);
    assert_eq!(p.n_threads, 6);
    assert!(p.suppress_blank && p.suppress_non_speech);
    assert!(!p.token_timestamps && !p.translate);
}

#[test]
fn what_is_no_speech_is_left_out() {
    let segments = vec![
        SegmentText::Text(" Olá".to_string()),
        SegmentText::Missing,
        SegmentText::Text(" [BLANK_AUDIO]".to_string()),
        SegmentText::Invalid("x".to_string()),
        SegmentText::Text(" mundo.".to_string()),
        SegmentText::Text(" ...".to_string()),
    ];
    assert_eq!(collect_text(&segments), " Olá mundo.");
}

#[test]
fn hypotheses_can_be_taken_in_one_by_one() {
    let mut s = fresh_session(30);
    s.hear(&[0.0f32; 10]);
    let words = vec!["um".to_string(), " dois".to_string(), " três".to_string()];
    assert_eq!(s.advance(words.clone()), "");
    assert_eq!(s.advance(words), "um dois");
}

#[test]
fn the_audio_stays_bounded() {
    let mut s = fresh_session(3);
    let longest = RefCell::new(0);
    for _ in 0..100 {
        s.process_chunk(&[0.0f32; 7000], |audio: &Vec<f32>, _: &InferenceParams| {
            let n = audio.len();
            if n > *longest.borrow() {
                *longest.borrow_mut() = n;
            }
            Ok(vec![SegmentText::Text(" um dois".to_string())])
        })
        .unwrap();
    }
    // Before a chunk, the audio is shorter than the window of 48000 samples.
    assert_eq!(*longest.borrow(), 53000);
}

#[test]
fn each_position_is_typed_once() {
    let mut s = fresh_session(30);
    let mut typed = String::new();
    for t in ["a b", "a b c", "A b c d", "a b x d e", "a b x d e f"] {
        typed.push_str(&hears(&mut s, 100, t).unwrap());
    }
    assert_eq!(typed, "a b x d");
    typed.push_str(&s.flush());
    assert_eq!(typed, "a b x d e f");
}
