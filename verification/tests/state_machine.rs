use amanuense::config::{NotificationConfig, OutputConfig};
use amanuense::daemon::ipc::{DaemonState, IpcCommand};
use amanuense::daemon::notifications::{
    notify_error, notify_finish, notify_start, notify_whole, preview, whole_preview, NoticeTimeout,
};
use amanuense::daemon::state_machine::{
    decide, event_effects, on_recording_started, whole_effects, CommandAction, Daemon, Transcript,
    TranscriptionEvent,
};

fn notification_config(start_timeout_ms: u32) -> NotificationConfig {
    NotificationConfig {
        notify_on_start: true,
        start_message: "🎙️ Gravando...".to_string(),
        notify_on_finish: true,
        finish_message: "Transcrição concluída".to_string(),
        start_timeout_ms,
        finish_timeout_ms: 3000,
    }
}

fn output_config(primary_selection: bool, newline_on_finish: bool) -> OutputConfig {
    OutputConfig { primary_selection, newline_on_finish, typing_delay_ms: 2 }
}

#[test]
fn commands_are_decided() {
    assert_eq!(
        decide(IpcCommand::Toggle, DaemonState::Idle),
        (DaemonState::Recording, CommandAction::StartRecording)
    );
    assert_eq!(
        decide(IpcCommand::Toggle, DaemonState::Recording),
        (DaemonState::Processing, CommandAction::StopRecording)
    );
    assert_eq!(
        decide(IpcCommand::Stop, DaemonState::Recording),
        (DaemonState::Processing, CommandAction::StopRecording)
    );
    assert_eq!(
        decide(IpcCommand::Toggle, DaemonState::Processing),
        (DaemonState::Processing, CommandAction::Ignore)
    );
    assert_eq!(
        decide(IpcCommand::Stop, DaemonState::Processing),
        (DaemonState::Idle, CommandAction::AbandonTranscription)
    );
    assert_eq!(
        decide(IpcCommand::Stop, DaemonState::Idle),
        (DaemonState::Idle, CommandAction::Ignore)
    );
}

#[test]
fn text_on_the_way_is_typed() {
    let e = TranscriptionEvent::Delta(" olá".to_string());
    let r = event_effects(e, &output_config(true, true), &notification_config(0));
    assert_eq!(r.typed, vec![" olá".to_string()]);
    assert!(r.selection.is_none() && r.notice.is_none() && r.next.is_none());
    let e = TranscriptionEvent::Delta("".to_string());
    let r = event_effects(e, &output_config(true, true), &notification_config(0));
    assert!(r.typed.is_empty());
}

#[test]
fn the_end_of_a_recording_is_delivered() {
    let e = TranscriptionEvent::Finished(" mundo".to_string(), " olá mundo".to_string());
    let r = event_effects(e, &output_config(true, true), &notification_config(0));
    assert_eq!(r.typed, vec![" mundo".to_string(), "\n".to_string()]);
    assert_eq!(r.selection, Some(" olá mundo".to_string()));
    assert_eq!(r.next, Some(DaemonState::Idle));
    let notice = r.notice.unwrap();
    assert_eq!(notice.summary, "Transcrição concluída");
    assert_eq!(notice.body, Some(" olá mundo".to_string()));
    assert_eq!(notice.timeout, NoticeTimeout::Milliseconds(3000));

    let e = TranscriptionEvent::Finished("".to_string(), "  ".to_string());
    let mut quiet = notification_config(0);
    quiet.notify_on_finish = false;
    let r = event_effects(e, &output_config(true, false), &quiet);
    assert!(r.typed.is_empty() && r.selection.is_none() && r.notice.is_none());
    assert_eq!(r.next, Some(DaemonState::Idle));

    let e = TranscriptionEvent::Finished("x".to_string(), "x".to_string());
    let r = event_effects(e, &output_config(false, false), &quiet);
    assert!(r.selection.is_none());
}

#[test]
fn errors_are_shown() {
    let e = TranscriptionEvent::Error("sem GPU".to_string());
    let r = event_effects(e, &output_config(true, true), &notification_config(0));
    assert!(r.typed.is_empty() && r.selection.is_none());
    assert_eq!(r.next, Some(DaemonState::Idle));
    let notice = r.notice.unwrap();
    assert_eq!(notice.summary, "Erro na captura de áudio");
    assert_eq!(notice.body, Some("sem GPU".to_string()));
    assert_eq!(notice.timeout, NoticeTimeout::Milliseconds(5000));
}

#[test]
fn a_whole_recording_is_delivered_at_once() {
    let r = whole_effects(
        Some("bom dia".to_string()),
        &output_config(true, true),
        &notification_config(0),
    );
    assert_eq!(r.typed, vec!["bom dia\n".to_string()]);
    assert_eq!(r.selection, Some("bom dia\n".to_string()));
    assert_eq!(r.notice.unwrap().body, Some("bom dia".to_string()));
    assert_eq!(r.next, Some(DaemonState::Idle));
    for nothing in [Some(" \n".to_string()), None] {
        let r = whole_effects(nothing, &output_config(true, true), &notification_config(0));
        assert!(r.typed.is_empty() && r.selection.is_none() && r.notice.is_none());
        assert_eq!(r.next, Some(DaemonState::Idle));
    }
}

fn processing(daemon: &mut Daemon) -> u64 {
    assert_eq!(daemon.on_command(IpcCommand::Toggle), CommandAction::StartRecording);
    let number = daemon.current().unwrap();
    assert_eq!(daemon.on_command(IpcCommand::Toggle), CommandAction::StopRecording);
    assert_eq!(daemon.state(), DaemonState::Processing);
    number
}

fn delta(text: &str) -> TranscriptionEvent {
    TranscriptionEvent::Delta(text.to_string())
}

#[test]
fn what_is_typed_is_the_whole_text() {
    let output = output_config(true, true);
    let notification = notification_config(0);
    let mut daemon = Daemon::new();
    let number = processing(&mut daemon);
    let mut transcript = Transcript::new();
    let mut typed = String::new();
    for d in ["", " um", " dois", ""] {
        let (e, next) = transcript.on_chunk(Ok(d.to_string()));
        transcript = next.unwrap();
        typed.push_str(&daemon.on_event(number, e, &output, &notification).typed.concat());
    }
    let last = transcript.on_flush(" três".to_string());
    let r = daemon.on_event(number, last, &output, &notification);
    typed.push_str(&r.typed.concat());
    assert_eq!(typed, " um dois três\n");
    assert_eq!(r.selection, Some(" um dois três".to_string()));
    assert_eq!(daemon.state(), DaemonState::Idle);
    assert_eq!(daemon.current(), None);
}

#[test]
fn an_error_ends_the_transcript() {
    let (_, next) = Transcript::new().on_chunk(Ok("um".to_string()));
    let (e, next) = next.unwrap().on_chunk(Err("sem GPU".to_string()));
    assert!(matches!(e, TranscriptionEvent::Error(m) if m == "sem GPU"));
    assert!(next.is_none());
}

#[test]
fn recordings_are_numbered() {
    let mut daemon = Daemon::new();
    assert_eq!(daemon.state(), DaemonState::Idle);
    assert_eq!(daemon.current(), None);
    let first = processing(&mut daemon);
    let r = daemon.on_event(
        first,
        TranscriptionEvent::Error("x".to_string()),
        &output_config(true, true),
        &notification_config(0),
    );
    assert_eq!(r.next, Some(DaemonState::Idle));
    assert_eq!(daemon.current(), None);
    let second = processing(&mut daemon);
    assert_ne!(first, second);
    assert_eq!(daemon.current(), Some(second));
}

#[test]
fn a_dropped_recording_is_never_typed() {
    let output = output_config(true, true);
    let notification = notification_config(0);
    let mut daemon = Daemon::new();
    let number = processing(&mut daemon);
    assert_eq!(daemon.on_command(IpcCommand::Stop), CommandAction::AbandonTranscription);
    assert_eq!(daemon.state(), DaemonState::Idle);
    let late = vec![
        delta(" tarde"),
        TranscriptionEvent::Finished(" demais".to_string(), " tarde demais".to_string()),
        TranscriptionEvent::Error("x".to_string()),
    ];
    for event in late {
        let r = daemon.on_event(number, event, &output, &notification);
        assert!(r.typed.is_empty() && r.selection.is_none());
        assert!(r.notice.is_none() && r.next.is_none());
        assert_eq!(daemon.state(), DaemonState::Idle);
    }
    let r = daemon.on_transcribed(number, Some("tarde".to_string()), &output, &notification);
    assert!(r.typed.is_empty() && r.next.is_none());

    let next = processing(&mut daemon);
    let r = daemon.on_event(number, delta(" tarde"), &output, &notification);
    assert!(r.typed.is_empty());
    let r = daemon.on_event(next, delta(" agora"), &output, &notification);
    assert_eq!(r.typed, vec![" agora".to_string()]);
    let r = daemon.on_transcribed(next, Some("tudo".to_string()), &output, &notification);
    assert_eq!(r.typed, vec!["tudo\n".to_string()]);
    assert_eq!(daemon.state(), DaemonState::Idle);
}

#[test]
fn commands_move_the_daemon() {
    let mut daemon = Daemon::new();
    assert_eq!(daemon.on_command(IpcCommand::Stop), CommandAction::Ignore);
    assert_eq!(daemon.on_command(IpcCommand::Toggle), CommandAction::StartRecording);
    assert_eq!(daemon.state(), DaemonState::Recording);
    assert_eq!(daemon.on_command(IpcCommand::Stop), CommandAction::StopRecording);
    assert_eq!(daemon.on_command(IpcCommand::Toggle), CommandAction::Ignore);
    assert_eq!(daemon.state(), DaemonState::Processing);
}

#[test]
fn recordings_are_announced() {
    let notice = on_recording_started(&notification_config(0)).unwrap();
    assert_eq!(notice.summary, "🎙️ Gravando...");
    assert_eq!(notice.body, None);
    assert_eq!(notice.timeout, NoticeTimeout::Never);
    assert_eq!(notify_start(&notification_config(7)).timeout, NoticeTimeout::Milliseconds(7));
    let mut quiet = notification_config(0);
    quiet.notify_on_start = false;
    assert!(on_recording_started(&quiet).is_none());
}

#[test]
fn previews_are_short() {
    let long = "é".repeat(121);
    assert_eq!(preview(&long), format!("{}…", "é".repeat(120)));
    let fits = "é".repeat(120);
    assert_eq!(preview(&fits), fits);
    assert_eq!(preview(""), "");
    let notice = notify_finish(&notification_config(0), &long);
    assert_eq!(notice.body.unwrap().chars().count(), 121);
    assert_eq!(notify_error("x").body, Some("x".to_string()));
}

#[test]
fn previews_of_whole_recordings_count_bytes() {
    let fits = "é".repeat(60);
    assert_eq!(whole_preview(&fits), fits);
    let long = "é".repeat(61);
    assert_eq!(whole_preview(&long), format!("{}…", &long[..120]));
    let ascii = "a".repeat(200);
    assert_eq!(whole_preview(&ascii), format!("{}…", &ascii[..120]));
    let odd = format!("a{}", "é".repeat(60));
    assert_eq!(whole_preview(&odd), format!("a{}…", "é".repeat(59)));
    assert_eq!(whole_preview(""), "");
    let notice = notify_whole(&notification_config(0), &long);
    assert_eq!(notice.body, Some(format!("{}…", fits)));
    assert_eq!(notice.summary, "Transcrição concluída");
    assert_eq!(notice.timeout, NoticeTimeout::Milliseconds(3000));
    let r = whole_effects(Some(long), &output_config(false, false), &notification_config(0));
    assert_eq!(r.notice.unwrap().body, Some(format!("{}…", fits)));
}
