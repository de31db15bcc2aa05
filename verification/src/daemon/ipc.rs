//! The protocol between the daemon and its clients: one line of text each way.

use vstd::prelude::*;
use crate::text;

verus! {

/// A command that changes what the daemon does.
#[derive(Debug, Clone, Copy, PartialEq, Eq, Structural)]
pub enum IpcCommand {
    Toggle,
    Stop,
}

/// What the daemon is doing.
#[derive(Debug, Clone, Copy, PartialEq, Eq, Structural)]
pub enum DaemonState {
    Idle,
    Recording,
    Processing,
}

impl DaemonState {
    /// The name by which clients know the state.
    pub open spec fn name(self) -> Seq<char> {
        match self {
            DaemonState::Idle => "idle"@,
            DaemonState::Recording => "recording"@,
            DaemonState::Processing => "processing"@,
        }
    }

    /// The name by which clients know the state.
    pub fn as_str(&self) -> (s: &'static str)
        ensures
            s@ == self.name(),
    {
        match self {
            DaemonState::Idle => "idle",
            DaemonState::Recording => "recording",
            DaemonState::Processing => "processing",
        }
    }
}

// ---------------------------------------------------------------------------
// The server
// ---------------------------------------------------------------------------

/// What to do about the place where the socket is to be.
#[derive(Debug, Clone, Copy, PartialEq, Eq, Structural)]
pub enum SocketAction {
    /// Nothing is there: the socket can be made.
    Bind,
    /// A socket is there that nobody answers: it is removed first.
    RemoveAndBind,
    /// Another daemon answers there: this one must not start.
    Refuse,
}

/// What to do about the place where the socket is to be. Whether somebody
/// answers there matters only where something exists.
pub fn socket_action(exists: bool, answered: bool) -> (a: SocketAction)
    ensures
        a == (if !exists {
            SocketAction::Bind
        } else if answered {
            SocketAction::Refuse
        } else {
            SocketAction::RemoveAndBind
        }),
{
    if exists {
        if answered {
            SocketAction::Refuse
        } else {
            SocketAction::RemoveAndBind
        }
    } else {
        SocketAction::Bind
    }
}

/// What came of waiting for a client's line.
#[derive(Debug)]
pub enum LineRead {
    /// The client closed the connection without a word.
    Closed,
    /// A line, with its end if the client sent one.
    Line(String),
    /// Reading failed.
    Failed,
    /// Nothing came in time.
    TimedOut,
}

/// How many seconds a client has to send its line.
pub const READ_TIMEOUT_SECS: u64 = 5;

/// What a client asks.
#[derive(Debug)]
pub enum Request {
    /// A command for the daemon.
    Command(IpcCommand),
    /// What the daemon is doing.
    Status,
    /// Something that is not understood.
    Unknown(String),
}

/// A request, mathematically.
pub ghost enum RequestView {
    Command(IpcCommand),
    Status,
    Unknown(Seq<char>),
}

impl Request {
    pub open spec fn view(&self) -> RequestView {
        match self {
            Request::Command(c) => RequestView::Command(*c),
            Request::Status => RequestView::Status,
            Request::Unknown(s) => RequestView::Unknown(s@),
        }
    }
}

/// What a line asks, white space around it aside.
pub open spec fn request_of(line: Seq<char>) -> RequestView {
    let word = text::trimmed(line);
    if word == "toggle"@ {
        RequestView::Command(IpcCommand::Toggle)
    } else if word == "stop"@ {
        RequestView::Command(IpcCommand::Stop)
    } else if word == "status"@ {
        RequestView::Status
    } else {
        RequestView::Unknown(word)
    }
}

/// What a line asks.
pub fn parse_request(line: &str) -> (r: Request)
    ensures
        r@ == request_of(line@),
{
    let word: String = text::trim(line);
    if text::same_text(word.as_str(), "toggle") {
        Request::Command(IpcCommand::Toggle)
    } else if text::same_text(word.as_str(), "stop") {
        Request::Command(IpcCommand::Stop)
    } else if text::same_text(word.as_str(), "status") {
        Request::Status
    } else {
        Request::Unknown(word)
    }
}

/// What a client asks by what was read from it: nothing, unless a line came.
pub fn handle_connection(read: LineRead) -> (r: Option<Request>)
    ensures
        match (read, r) {
            (LineRead::Line(line), Some(q)) => q@ == request_of(line@),
            (LineRead::Line(_), None) => false,
            (_, Some(_)) => false,
            (_, None) => true,
        },
{
    match read {
        LineRead::Line(line) => Some(parse_request(line.as_str())),
        _ => None,
    }
}

/// The answer to a request. A command is answered by whether the daemon took it
/// (`delivered`), the question for the state by the state.
pub open spec fn reply_of(q: RequestView, delivered: bool, state: DaemonState) -> Seq<char> {
    match q {
        RequestView::Command(_) => if delivered {
            "ok"@
        } else {
            "err: daemon não está respondendo"@
        },
        RequestView::Status => state.name(),
        RequestView::Unknown(word) => "err: comando desconhecido '"@ + word + "'"@,
    }
}

/// The answer to a request.
pub fn reply(q: &Request, delivered: bool, state: DaemonState) -> (r: String)
    ensures
        r@ == reply_of(q@, delivered, state),
{
    match q {
        Request::Command(_) => if delivered {
            "ok".to_owned()
        } else {
            "err: daemon não está respondendo".to_owned()
        },
        Request::Status => state.as_str().to_owned(),
        Request::Unknown(word) => {
            let mut r: String = "err: comando desconhecido '".to_owned();
            r.append(word.as_str());
            r.append("'");
            r
        },
    }
}

// ---------------------------------------------------------------------------
// Lines
// ---------------------------------------------------------------------------

/// A message as it travels: with the end of a line behind it.
pub fn to_line(message: &str) -> (line: String)
    ensures
        line@ == message@.push('\n'),
{
    let mut line: String = message.to_owned();
    line.push('\n');
    line
}

/// The message of a line that was received: white space around it aside.
pub fn from_line(line: &str) -> (message: String)
    ensures
        message@ == text::trimmed(line@),
{
    text::trim(line)
}

// ---------------------------------------------------------------------------
// The client
// ---------------------------------------------------------------------------

/// What a client does with the daemon's answer.
#[derive(Debug)]
pub enum ClientOutcome {
    /// Prints it.
    Print(String),
    /// Ends well, without a word.
    Done,
    /// Ends badly, with this message.
    Fail(String),
}

/// What a client does with the daemon's answer: the state is printed; an answer
/// to a command matters only where it reports an error.
pub fn client_outcome(command: &str, response: String) -> (r: ClientOutcome)
    ensures
        command@ == "status"@ ==> (r matches ClientOutcome::Print(s) && s@ == response@),
        command@ != "status"@ && text::begins_with(response@, "err"@) ==> (
        r matches ClientOutcome::Fail(m) && m@ == "Daemon reportou erro: "@ + response@),
        command@ != "status"@ && !text::begins_with(response@, "err"@) ==> r is Done,
{
    if text::same_text(command, "status") {
        ClientOutcome::Print(response)
    } else if text::starts_with(response.as_str(), "err") {
        let mut m: String = "Daemon reportou erro: ".to_owned();
        m.append(response.as_str());
        ClientOutcome::Fail(m)
    } else {
        ClientOutcome::Done
    }
}

// ---------------------------------------------------------------------------
// Laws
// ---------------------------------------------------------------------------

/// Whether white space stands at neither end of `s`.
pub open spec fn is_bare(s: Seq<char>) -> bool {
    s.len() > 0 ==> !text::is_white_space(s[0]) && !text::is_white_space(s.last())
}

/// A message without white space at its ends comes back from the line that
/// carries it.
pub proof fn law_line_round_trip(message: Seq<char>)
    requires
        is_bare(message),
    ensures
        text::trimmed(message.push('\n')) == message,
{
    let line = message.push('\n');
    if message.len() == 0 {
        assert(line.drop_first() =~= message);
        assert(line[0] == '\n');
        assert(text::trim_start(message) == message);
        assert(text::trim_end(message) == message);
        assert(text::trim_start(line) == message);
    } else {
        assert(line[0] == message[0]);
        assert(line.last() == '\n');
        assert(line.drop_last() =~= message);
        assert(text::trim_start(line) == line);
        assert(text::trim_end(message) == message);
    }
}

/// The line that a client sends for a command is understood as that command.
pub proof fn law_commands_are_understood()
    ensures
        request_of("toggle"@.push('\n')) == RequestView::Command(IpcCommand::Toggle),
        request_of("stop"@.push('\n')) == RequestView::Command(IpcCommand::Stop),
        request_of("status"@.push('\n')) == RequestView::Status,
{
    reveal_strlit("toggle");
    reveal_strlit("stop");
    reveal_strlit("status");
    law_line_round_trip("toggle"@);
    law_line_round_trip("stop"@);
    law_line_round_trip("status"@);
    assert("stop"@.len() != "toggle"@.len());
    assert("status"@.len() != "stop"@.len());
    assert("status"@[0] != "toggle"@[0]);
}

/// A client that asks for the state is told its name, and the name tells the
/// states apart.
pub proof fn law_status_tells_state(a: DaemonState, b: DaemonState, delivered: bool)
    ensures
        text::trimmed(reply_of(RequestView::Status, delivered, a).push('\n')) == a.name(),
        a.name() == b.name() ==> a == b,
{
    reveal_strlit("idle");
    reveal_strlit("recording");
    reveal_strlit("processing");
    law_line_round_trip(a.name());
    assert("idle"@.len() == 4);
    assert("recording"@.len() == 9);
    assert("processing"@.len() == 10);
}

/// A client ends badly exactly where its command was not understood or the
/// daemon did not take it.
pub proof fn law_errors_are_reported(q: RequestView, delivered: bool, state: DaemonState)
    ensures
        text::begins_with(reply_of(q, delivered, state), "err"@) == match q {
            RequestView::Command(_) => !delivered,
            RequestView::Status => false,
            RequestView::Unknown(_) => true,
        },
{
    reveal_strlit("err");
    reveal_strlit("ok");
    reveal_strlit("err: daemon não está respondendo");
    reveal_strlit("err: comando desconhecido '");
    reveal_strlit("idle");
    reveal_strlit("recording");
    reveal_strlit("processing");
    let r = reply_of(q, delivered, state);
    match q {
        RequestView::Command(_) => {
            if !delivered {
                assert(r.take(3) =~= "err"@);
            }
        },
        RequestView::Status => {
            assert(r[0] != 'e');
            assert(r.take(3)[0] == r[0]);
        },
        RequestView::Unknown(word) => {
            assert(r.take(3) =~= "err"@);
        },
    }
}

/// A line asks what the word in it says, white space around it aside: each
/// command by its name, and nothing else.
pub proof fn law_line_asks_what_it_says(line: Seq<char>)
    ensures
        (request_of(line) == RequestView::Command(IpcCommand::Toggle)) == (text::trimmed(line)
            == "toggle"@),
        (request_of(line) == RequestView::Command(IpcCommand::Stop)) == (text::trimmed(line)
            == "stop"@),
        (request_of(line) is Status) == (text::trimmed(line) == "status"@),
        request_of(line) matches RequestView::Unknown(word) ==> word == text::trimmed(line),
{
    reveal_strlit("toggle");
    reveal_strlit("stop");
    reveal_strlit("status");
    assert("stop"@.len() != "toggle"@.len());
    assert("status"@.len() != "stop"@.len());
    assert("status"@[0] != "toggle"@[0]);
}

/// A command that the daemon took is answered with `ok` and one that it did not
/// with an error; the question for the state with the state; and a word that is
/// not understood is named in the answer.
pub proof fn law_requests_are_answered(c: IpcCommand, word: Seq<char>, state: DaemonState)
    ensures
        reply_of(RequestView::Command(c), true, state) == "ok"@,
        reply_of(RequestView::Command(c), false, state) == "err: daemon não está respondendo"@,
        reply_of(RequestView::Status, true, state) == state.name(),
        reply_of(RequestView::Status, false, state) == state.name(),
        reply_of(RequestView::Unknown(word), true, state) == reply_of(
            RequestView::Unknown(word),
            false,
            state,
        ),
        reply_of(RequestView::Unknown(word), true, state) == "err: comando desconhecido '"@ + word
            + "'"@,
        DaemonState::Idle.name() == "idle"@,
        DaemonState::Recording.name() == "recording"@,
        DaemonState::Processing.name() == "processing"@,
{
}

} // verus!
