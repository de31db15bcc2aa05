use amanuense::daemon::ipc::{
    client_outcome, from_line, handle_connection, parse_request, reply, socket_action, to_line,
    ClientOutcome, DaemonState, IpcCommand, LineRead, Request, SocketAction, READ_TIMEOUT_SECS,
};

#[test]
fn commands_are_understood() {
    assert!(matches!(parse_request("toggle\n"), Request::Command(IpcCommand::Toggle)));
    assert!(matches!(parse_request(" stop \r\n"), Request::Command(IpcCommand::Stop)));
    assert!(matches!(parse_request("status"), Request::Status));
    assert!(matches!(parse_request("Toggle\n"), Request::Unknown(w) if w == "Toggle"));
    assert!(matches!(parse_request("\n"), Request::Unknown(w) if w.is_empty()));
}

#[test]
fn only_a_line_makes_a_request() {
    assert!(handle_connection(LineRead::Closed).is_none());
    assert!(handle_connection(LineRead::Failed).is_none());
    assert!(handle_connection(LineRead::TimedOut).is_none());
    let q = handle_connection(LineRead::Line("status\n".to_string()));
    assert!(matches!(q, Some(Request::Status)));
    assert_eq!(READ_TIMEOUT_SECS, 5);
}

#[test]
fn requests_are_answered() {
    let toggle = Request::Command(IpcCommand::Toggle);
    assert_eq!(reply(&toggle, true, DaemonState::Idle), "ok");
    assert_eq!(reply(&toggle, false, DaemonState::Idle), "err: daemon não está respondendo");
    assert_eq!(reply(&Request::Status, true, DaemonState::Idle), "idle");
    assert_eq!(reply(&Request::Status, false, DaemonState::Recording), "recording");
    assert_eq!(reply(&Request::Status, true, DaemonState::Processing), "processing");
    assert_eq!(
        reply(&Request::Unknown("abrir".to_string()), true, DaemonState::Idle),
        "err: comando desconhecido 'abrir'"
    );
}

#[test]
fn lines_carry_messages() {
    assert_eq!(to_line("toggle"), "toggle\n");
    assert_eq!(from_line("recording\n"), "recording");
    for message in ["ok", "err: x y", ""] {
        assert_eq!(from_line(&to_line(message)), message);
    }
}

#[test]
fn clients_report_errors_to_commands() {
    let r = client_outcome("toggle", "err: x".to_string());
    assert!(matches!(r, ClientOutcome::Fail(m) if m == "Daemon reportou erro: err: x"));
    assert!(matches!(client_outcome("stop", "ok".to_string()), ClientOutcome::Done));
    let r = client_outcome("status", "err: x".to_string());
    assert!(matches!(r, ClientOutcome::Print(s) if s == "err: x"));
}

#[test]
fn a_second_daemon_is_refused() {
    assert_eq!(socket_action(false, false), SocketAction::Bind);
    assert_eq!(socket_action(true, false), SocketAction::RemoveAndBind);
    assert_eq!(socket_action(true, true), SocketAction::Refuse);
}

#[test]
fn states_have_names() {
    assert_eq!(DaemonState::Idle.as_str(), "idle");
    assert_eq!(DaemonState::Recording.as_str(), "recording");
    assert_eq!(DaemonState::Processing.as_str(), "processing");
}
