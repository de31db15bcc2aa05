//! The daemon's states: what commands and events do in each.

use vstd::prelude::*;
use crate::config::NotificationConfig;
use crate::config::OutputConfig;
use crate::daemon::ipc::DaemonState;
use crate::daemon::ipc::IpcCommand;
use crate::daemon::notifications;
use crate::daemon::notifications::Notice;
use crate::daemon::notifications::NoticeView;
use crate::text;

verus! {

// ---------------------------------------------------------------------------
// Commands
// ---------------------------------------------------------------------------

/// What a command makes the daemon do.
#[derive(Debug, Clone, Copy, PartialEq, Eq, Structural)]
pub enum CommandAction {
    /// Nothing.
    Ignore,
    /// The microphone is opened and the transcription starts.
    StartRecording,
    /// The microphone is closed; what was heard is still transcribed.
    StopRecording,
    /// What is being transcribed is dropped; nothing more of it is typed.
    AbandonTranscription,
}

/// The state after a command.
pub open spec fn state_after(command: IpcCommand, state: DaemonState) -> DaemonState {
    match (command, state) {
        (IpcCommand::Toggle, DaemonState::Idle) => DaemonState::Recording,
        (IpcCommand::Stop, DaemonState::Idle) => DaemonState::Idle,
        (_, DaemonState::Recording) => DaemonState::Processing,
        (IpcCommand::Toggle, DaemonState::Processing) => DaemonState::Processing,
        (IpcCommand::Stop, DaemonState::Processing) => DaemonState::Idle,
    }
}

/// What a command makes the daemon do in a state.
pub open spec fn action_of(command: IpcCommand, state: DaemonState) -> CommandAction {
    match (command, state) {
        (IpcCommand::Toggle, DaemonState::Idle) => CommandAction::StartRecording,
        (IpcCommand::Stop, DaemonState::Idle) => CommandAction::Ignore,
        (_, DaemonState::Recording) => CommandAction::StopRecording,
        (IpcCommand::Toggle, DaemonState::Processing) => CommandAction::Ignore,
        (IpcCommand::Stop, DaemonState::Processing) => CommandAction::AbandonTranscription,
    }
}

/// The next state after a command, and what has to be done.
pub fn decide(command: IpcCommand, state: DaemonState) -> (r: (DaemonState, CommandAction))
    ensures
        r.0 == state_after(command, state),
        r.1 == action_of(command, state),
{
    match (command, state) {
        (IpcCommand::Toggle, DaemonState::Idle) => (
            DaemonState::Recording,
            CommandAction::StartRecording,
        ),
        (IpcCommand::Toggle, DaemonState::Recording) | (
            IpcCommand::Stop,
            DaemonState::Recording,
        ) => (DaemonState::Processing, CommandAction::StopRecording),
        (IpcCommand::Stop, DaemonState::Processing) => (
            DaemonState::Idle,
            CommandAction::AbandonTranscription,
        ),
        (IpcCommand::Toggle, DaemonState::Processing) => (
            DaemonState::Processing,
            CommandAction::Ignore,
        ),
        (IpcCommand::Stop, DaemonState::Idle) => (DaemonState::Idle, CommandAction::Ignore),
    }
}

/// The notification that a recording starts with, if one is wanted.
pub fn on_recording_started(notification: &NotificationConfig) -> (n: Option<Notice>)
    ensures
        match n {
            Some(n) => notification.notify_on_start && n@ == notifications::start_notice(
                *notification,
            ),
            None => !notification.notify_on_start,
        },
{
    if notification.notify_on_start {
        Some(notifications::notify_start(notification))
    } else {
        None
    }
}

// ---------------------------------------------------------------------------
// Events
// ---------------------------------------------------------------------------

/// What the transcription of a recording reports.
#[derive(Debug)]
pub enum TranscriptionEvent {
    /// Text to be typed while the recording goes on.
    Delta(String),
    /// The recording is transcribed: the last text to be typed, and the whole.
    Finished(String, String),
    /// The transcription failed, with this message.
    Error(String),
}

/// An event, mathematically.
pub ghost enum EventView {
    Delta(Seq<char>),
    Finished(Seq<char>, Seq<char>),
    Error(Seq<char>),
}

impl TranscriptionEvent {
    pub open spec fn view(&self) -> EventView {
        match self {
            TranscriptionEvent::Delta(d) => EventView::Delta(d@),
            TranscriptionEvent::Finished(d, full) => EventView::Finished(d@, full@),
            TranscriptionEvent::Error(e) => EventView::Error(e@),
        }
    }
}

/// What has to be done about an event.
#[derive(Debug)]
pub struct Effects {
    /// The texts to be typed, in order; none is empty.
    pub typed: Vec<String>,
    /// The text for the primary selection.
    pub selection: Option<String>,
    /// The notification to be shown.
    pub notice: Option<Notice>,
    /// The next state, where it changes.
    pub next: Option<DaemonState>,
}

/// What has to be done about an event, mathematically.
#[verifier::ext_equal]
pub ghost struct EffectsView {
    pub typed: Seq<Seq<char>>,
    pub selection: Option<Seq<char>>,
    pub notice: Option<NoticeView>,
    pub next: Option<DaemonState>,
}

impl Effects {
    pub open spec fn view(&self) -> EffectsView {
        EffectsView {
            typed: text::views(self.typed@),
            selection: match self.selection {
                Some(s) => Some(s@),
                None => None,
            },
            notice: match self.notice {
                Some(n) => Some(n@),
                None => None,
            },
            next: self.next,
        }
    }
}

/// The text as a list of texts to be typed: an empty one is left out.
pub open spec fn unless_empty(s: Seq<char>) -> Seq<Seq<char>> {
    if s.len() == 0 {
        Seq::empty()
    } else {
        seq![s]
    }
}

/// What has to be done about an event.
pub open spec fn effects_of(
    event: EventView,
    output: OutputConfig,
    notification: NotificationConfig,
) -> EffectsView {
    match event {
        EventView::Delta(d) => EffectsView {
            typed: unless_empty(d),
            selection: None,
            notice: None,
            next: None,
        },
        EventView::Finished(d, full) => EffectsView {
            typed: unless_empty(d) + (if output.newline_on_finish {
                seq!["\n"@]
            } else {
                Seq::empty()
            }),
            selection: if output.primary_selection && text::trimmed(full).len() > 0 {
                Some(full)
            } else {
                None
            },
            notice: if notification.notify_on_finish {
                Some(notifications::finish_notice(notification, full))
            } else {
                None
            },
            next: Some(DaemonState::Idle),
        },
        EventView::Error(e) => EffectsView {
            typed: Seq::empty(),
            selection: None,
            notice: Some(notifications::error_notice(e)),
            next: Some(DaemonState::Idle),
        },
    }
}

/// What has to be done about an event of the current recording.
pub fn event_effects(
    event: TranscriptionEvent,
    output: &OutputConfig,
    notification: &NotificationConfig,
) -> (r: Effects)
    ensures
        r@ == effects_of(event@, *output, *notification),
{
    let mut typed: Vec<String> = Vec::new();
    match event {
        TranscriptionEvent::Delta(d) => {
            if !d.as_str().is_empty() {
                typed.push(d);
            }
            let r = Effects { typed, selection: None, notice: None, next: None };
            proof {
                assert(r@ =~= effects_of(event@, *output, *notification));
            }
            r
        },
        TranscriptionEvent::Finished(d, full) => {
            if !d.as_str().is_empty() {
                typed.push(d);
            }
            if output.newline_on_finish {
                typed.push("\n".to_owned());
            }
            let notice: Option<Notice> = if notification.notify_on_finish {
                Some(notifications::notify_finish(notification, full.as_str()))
            } else {
                None
            };
            let blank: bool = text::trim(full.as_str()).as_str().is_empty();
            let selection: Option<String> = if output.primary_selection && !blank {
                Some(full)
            } else {
                None
            };
            let r = Effects { typed, selection, notice, next: Some(DaemonState::Idle) };
            proof {
                assert(r@.typed =~= effects_of(event@, *output, *notification).typed);
            }
            r
        },
        TranscriptionEvent::Error(e) => {
            let r = Effects {
                typed,
                selection: None,
                notice: Some(notifications::notify_error(e.as_str())),
                next: Some(DaemonState::Idle),
            };
            proof {
                assert(r@.typed =~= Seq::<Seq<char>>::empty());
            }
            r
        },
    }
}

/// What has to be done once a whole recording is transcribed at once: a text
/// that is not blank is delivered, with the end of a line behind it if wanted;
/// a failure is not. The daemon is idle then.
pub open spec fn effects_of_whole(
    transcribed: Option<Seq<char>>,
    output: OutputConfig,
    notification: NotificationConfig,
) -> EffectsView {
    match transcribed {
        Some(t) if text::trimmed(t).len() > 0 => {
            let delivered = if output.newline_on_finish {
                t + "\n"@
            } else {
                t
            };
            EffectsView {
                typed: seq![delivered],
                selection: if output.primary_selection {
                    Some(delivered)
                } else {
                    None
                },
                notice: if notification.notify_on_finish {
                    Some(notifications::whole_notice(notification, t))
                } else {
                    None
                },
                next: Some(DaemonState::Idle),
            }
        },
        _ => EffectsView {
            typed: Seq::empty(),
            selection: None,
            notice: None,
            next: Some(DaemonState::Idle),
        },
    }
}

/// What has to be done once the current recording is transcribed at once. A
/// failed transcription is given as none.
pub fn whole_effects(
    transcribed: Option<String>,
    output: &OutputConfig,
    notification: &NotificationConfig,
) -> (r: Effects)
    ensures
        r@ == effects_of_whole(
            match transcribed {
                Some(t) => Some(t@),
                None => None,
            },
            *output,
            *notification,
        ),
{
    let mut typed: Vec<String> = Vec::new();
    let mut selection: Option<String> = None;
    let mut notice: Option<Notice> = None;
    if let Some(t) = transcribed {
        if !text::trim(t.as_str()).as_str().is_empty() {
            if notification.notify_on_finish {
                notice = Some(notifications::notify_whole(notification, t.as_str()));
            }
            let mut delivered: String = t;
            if output.newline_on_finish {
                delivered.append("\n");
            }
            if output.primary_selection {
                selection = Some(delivered.clone());
            }
            typed.push(delivered);
        }
    }
    let r = Effects { typed, selection, notice, next: Some(DaemonState::Idle) };
    proof {
        assert(r@.typed =~= effects_of_whole(
            match transcribed {
                Some(t) => Some(t@),
                None => None,
            },
            *output,
            *notification,
        ).typed);
    }
    r
}

/// Nothing has to be done.
pub open spec fn no_effects() -> EffectsView {
    EffectsView { typed: Seq::empty(), selection: None, notice: None, next: None }
}

fn nothing() -> (r: Effects)
    ensures
        r@ == no_effects(),
{
    let r = Effects { typed: Vec::new(), selection: None, notice: None, next: None };
    proof {
        assert(r@ =~= no_effects());
    }
    r
}

// ---------------------------------------------------------------------------
// The daemon
// ---------------------------------------------------------------------------

/// What the daemon is doing, and which recording it is about. Recordings are
/// numbered; an event of another recording than the current one counts for
/// nothing.
pub struct Daemon {
    state: DaemonState,
    current: Option<u64>,
    count: u64,
}

/// The daemon, mathematically.
#[verifier::ext_equal]
pub ghost struct DaemonView {
    pub state: DaemonState,
    /// The number of the current recording, from its start until it is
    /// transcribed or dropped.
    pub current: Option<u64>,
    /// The number of the last recording.
    pub count: u64,
}

/// The number after `n`: numbers start over when 64 bits are full.
pub open spec fn next_number(n: u64) -> u64 {
    ((n + 1) % 0x1_0000_0000_0000_0000) as u64
}

impl DaemonView {
    /// The daemon at its start.
    pub open spec fn initial() -> DaemonView {
        DaemonView { state: DaemonState::Idle, current: None, count: 0 }
    }

    /// The current recording, if there is one, is the last.
    pub open spec fn wf(self) -> bool {
        self.current matches Some(n) ==> n == self.count
    }

    /// The daemon after a command. A recording that starts gets the next number,
    /// and one whose transcription is dropped is no longer current.
    pub open spec fn commanded(self, command: IpcCommand) -> DaemonView {
        let state = state_after(command, self.state);
        match action_of(command, self.state) {
            CommandAction::StartRecording => DaemonView {
                state,
                current: Some(next_number(self.count)),
                count: next_number(self.count),
            },
            CommandAction::AbandonTranscription => DaemonView { state, current: None, ..self },
            _ => DaemonView { state, ..self },
        }
    }

    /// The effects of something that `recording` reports: `effects` where it is
    /// the current one, and nothing elsewhere.
    pub open spec fn effects(self, recording: u64, effects: EffectsView) -> EffectsView {
        if self.current == Some(recording) {
            effects
        } else {
            no_effects()
        }
    }

    /// The daemon after those effects: a recording that brings it to another
    /// state has come to its end.
    pub open spec fn affected(self, effects: EffectsView) -> DaemonView {
        match effects.next {
            Some(state) => DaemonView { state, current: None, ..self },
            None => self,
        }
    }
}

impl Daemon {
    pub closed spec fn view(&self) -> DaemonView {
        DaemonView { state: self.state, current: self.current, count: self.count }
    }

    /// The daemon at its start.
    pub fn new() -> (d: Self)
        ensures
            d@ == DaemonView::initial(),
    {
        Daemon { state: DaemonState::Idle, current: None, count: 0 }
    }

    /// What the daemon is doing.
    pub fn state(&self) -> (s: DaemonState)
        ensures
            s == self@.state,
    {
        self.state
    }

    /// The number of the current recording.
    pub fn current(&self) -> (n: Option<u64>)
        ensures
            n == self@.current,
    {
        self.current
    }

    /// Takes a command, and says what has to be done.
    pub fn on_command(&mut self, command: IpcCommand) -> (action: CommandAction)
        ensures
            final(self)@ == old(self)@.commanded(command),
            action == action_of(command, old(self)@.state),
    {
        let (state, action) = decide(command, self.state);
        self.state = state;
        match action {
            CommandAction::StartRecording => {
                self.count = self.count.wrapping_add(1);
                self.current = Some(self.count);
            },
            CommandAction::AbandonTranscription => {
                self.current = None;
            },
            _ => {},
        }
        action
    }

    fn is_current(&self, recording: u64) -> (r: bool)
        ensures
            r == (self@.current == Some(recording)),
    {
        match self.current {
            Some(n) => n == recording,
            None => false,
        }
    }

    fn affect(&mut self, effects: &Effects)
        ensures
            final(self)@ == old(self)@.affected(effects@),
    {
        if let Some(state) = effects.next {
            self.state = state;
            self.current = None;
        }
    }

    /// Takes an event of a recording, and says what has to be done. An event of
    /// another recording than the current one types, selects, shows and changes
    /// nothing.
    pub fn on_event(
        &mut self,
        recording: u64,
        event: TranscriptionEvent,
        output: &OutputConfig,
        notification: &NotificationConfig,
    ) -> (r: Effects)
        ensures
            r@ == old(self)@.effects(recording, effects_of(event@, *output, *notification)),
            final(self)@ == old(self)@.affected(r@),
    {
        if !self.is_current(recording) {
            return nothing();
        }
        let r: Effects = event_effects(event, output, notification);
        self.affect(&r);
        r
    }

    /// Takes the text of a recording that was transcribed at once, or none where
    /// that failed, and says what has to be done. The text of another recording
    /// than the current one counts for nothing.
    pub fn on_transcribed(
        &mut self,
        recording: u64,
        transcribed: Option<String>,
        output: &OutputConfig,
        notification: &NotificationConfig,
    ) -> (r: Effects)
        ensures
            r@ == old(self)@.effects(
                recording,
                effects_of_whole(
                    match transcribed {
                        Some(t) => Some(t@),
                        None => None,
                    },
                    *output,
                    *notification,
                ),
            ),
            final(self)@ == old(self)@.affected(r@),
    {
        if !self.is_current(recording) {
            return nothing();
        }
        let r: Effects = whole_effects(transcribed, output, notification);
        self.affect(&r);
        r
    }
}

// ---------------------------------------------------------------------------
// The transcript of a recording
// ---------------------------------------------------------------------------

/// The text of a recording so far, from which its events are made.
pub struct Transcript {
    full_text: String,
}

/// The event for a chunk of audio, by the text it gave or the message of its
/// failure, and the transcript after it, `full` being the one before. After a
/// failure there is none.
pub open spec fn chunk_event(full: Seq<char>, result: Result<Seq<char>, Seq<char>>) -> (
    EventView,
    Option<Seq<char>>,
) {
    match result {
        Ok(d) => (EventView::Delta(d), Some(full + d)),
        Err(m) => (EventView::Error(m), None),
    }
}

impl Transcript {
    pub closed spec fn view(&self) -> Seq<char> {
        self.full_text@
    }

    /// The empty transcript.
    pub fn new() -> (t: Self)
        ensures
            t@ == Seq::<char>::empty(),
    {
        Transcript { full_text: String::new() }
    }

    /// The event for a chunk of audio, by the text it gave or the message of its
    /// failure. The text joins the transcript; a failure ends it.
    pub fn on_chunk(self, result: Result<String, String>) -> (r: (
        TranscriptionEvent,
        Option<Transcript>,
    ))
        ensures
            ({
                let e = chunk_event(
                    self@,
                    match result {
                        Ok(d) => Ok(d@),
                        Err(m) => Err(m@),
                    },
                );
                &&& r.0@ == e.0
                &&& match r.1 {
                    Some(t) => e.1 == Some(t@),
                    None => e.1 is None,
                }
            }),
    {
        match result {
            Ok(d) => {
                let mut full: String = self.full_text;
                full.append(d.as_str());
                (TranscriptionEvent::Delta(d), Some(Transcript { full_text: full }))
            },
            Err(m) => (TranscriptionEvent::Error(m), None),
        }
    }

    /// The event for the end of the recording, by the text that was left.
    pub fn on_flush(self, d: String) -> (e: TranscriptionEvent)
        ensures
            e@ == EventView::Finished(d@, self@ + d@),
    {
        let mut full: String = self.full_text;
        full.append(d.as_str());
        TranscriptionEvent::Finished(d, full)
    }
}

// ---------------------------------------------------------------------------
// Laws
// ---------------------------------------------------------------------------

/// A recording starts only from idle, and only by a toggle.
pub proof fn law_only_toggle_starts(command: IpcCommand, state: DaemonState)
    ensures
        (action_of(command, state) is StartRecording) == (command == IpcCommand::Toggle && state
            == DaemonState::Idle),
        (state_after(command, state) == DaemonState::Recording) == (action_of(command, state) is StartRecording),
{
}

/// Either command ends a recording, and what was heard is still transcribed.
pub proof fn law_any_command_ends_recording(command: IpcCommand)
    ensures
        action_of(command, DaemonState::Recording) is StopRecording,
        state_after(command, DaemonState::Recording) == DaemonState::Processing,
{
}

/// A toggle while a transcription is being finished changes nothing.
pub proof fn law_toggle_waits_for_transcription()
    ensures
        action_of(IpcCommand::Toggle, DaemonState::Processing) is Ignore,
        state_after(IpcCommand::Toggle, DaemonState::Processing) == DaemonState::Processing,
{
}

/// Two stops bring the daemon to rest, whatever it was doing, and a stop at rest
/// does nothing.
pub proof fn law_two_stops_rest(state: DaemonState)
    ensures
        state_after(IpcCommand::Stop, state_after(IpcCommand::Stop, state)) == DaemonState::Idle,
        action_of(IpcCommand::Stop, DaemonState::Idle) is Ignore,
{
}

/// A command that is ignored leaves the state as it is, and every other command
/// changes it.
pub proof fn law_state_changes_with_action(command: IpcCommand, state: DaemonState)
    ensures
        (action_of(command, state) is Ignore) == (state_after(command, state) == state),
{
}

/// Every end of a transcription brings the daemon to rest, and text on the way
/// does not.
pub proof fn law_end_brings_rest(
    event: EventView,
    output: OutputConfig,
    notification: NotificationConfig,
)
    ensures
        effects_of(event, output, notification).next == (if event is Delta {
            None
        } else {
            Some(DaemonState::Idle)
        }),
{
}

/// The texts that are typed for the deltas of a recording.
pub open spec fn typed_for(
    deltas: Seq<Seq<char>>,
    output: OutputConfig,
    notification: NotificationConfig,
) -> Seq<Seq<char>>
    decreases deltas.len(),
{
    if deltas.len() == 0 {
        Seq::empty()
    } else {
        typed_for(deltas.drop_last(), output, notification) + effects_of(
            EventView::Delta(deltas.last()),
            output,
            notification,
        ).typed
    }
}

/// What a recording types is its whole text, and the end of a line where one is
/// wanted. The whole text is also what goes to the primary selection.
pub proof fn law_whole_text_is_typed(
    deltas: Seq<Seq<char>>,
    last: Seq<char>,
    output: OutputConfig,
    notification: NotificationConfig,
)
    ensures
        ({
            let full = text::concat(deltas) + last;
            let end = effects_of(EventView::Finished(last, full), output, notification);
            &&& text::concat(typed_for(deltas, output, notification) + end.typed) == full + (
            if output.newline_on_finish {
                "\n"@
            } else {
                Seq::empty()
            })
            &&& end.selection matches Some(s) ==> s == full
        }),
{
    let full = text::concat(deltas) + last;
    let end = effects_of(EventView::Finished(last, full), output, notification);
    lemma_typed_for(deltas, output, notification);
    lemma_concat_unless_empty(last);
    let line: Seq<Seq<char>> = if output.newline_on_finish {
        seq!["\n"@]
    } else {
        Seq::empty()
    };
    if output.newline_on_finish {
        lemma_concat_one("\n"@);
    }
    text::lemma_concat_append(unless_empty(last), line);
    text::lemma_concat_append(typed_for(deltas, output, notification), end.typed);
    assert(text::concat(line) =~= (if output.newline_on_finish {
        "\n"@
    } else {
        Seq::empty()
    }));
    assert(text::concat(typed_for(deltas, output, notification) + end.typed) =~= full
        + text::concat(line));
}

proof fn lemma_concat_one(s: Seq<char>)
    ensures
        text::concat(seq![s]) == s,
{
    assert(seq![s].drop_last() =~= Seq::<Seq<char>>::empty());
    assert(text::concat(Seq::<Seq<char>>::empty()) =~= Seq::<char>::empty());
    assert(seq![s].last() == s);
    assert(text::concat(seq![s]) =~= Seq::<char>::empty() + s);
}

proof fn lemma_concat_unless_empty(s: Seq<char>)
    ensures
        text::concat(unless_empty(s)) == s,
{
    if s.len() == 0 {
        assert(text::concat(unless_empty(s)) =~= s);
    } else {
        lemma_concat_one(s);
    }
}

proof fn lemma_typed_for(
    deltas: Seq<Seq<char>>,
    output: OutputConfig,
    notification: NotificationConfig,
)
    ensures
        text::concat(typed_for(deltas, output, notification)) == text::concat(deltas),
    decreases deltas.len(),
{
    if deltas.len() > 0 {
        lemma_typed_for(deltas.drop_last(), output, notification);
        lemma_concat_unless_empty(deltas.last());
        text::lemma_concat_append(
            typed_for(deltas.drop_last(), output, notification),
            unless_empty(deltas.last()),
        );
    }
}

/// The events of a recording whose chunks give `results` and whose end gives
/// `last`, `full` being its transcript before.
pub open spec fn events_of(
    full: Seq<char>,
    results: Seq<Result<Seq<char>, Seq<char>>>,
    last: Seq<char>,
) -> Seq<EventView>
    decreases results.len(),
{
    if results.len() == 0 {
        seq![EventView::Finished(last, full + last)]
    } else {
        let e = chunk_event(full, results[0]);
        match e.1 {
            Some(t) => seq![e.0] + events_of(t, results.drop_first(), last),
            None => seq![e.0],
        }
    }
}

/// A recording reports text on the way, and ends once: with an error where a
/// chunk fails, and then no end that was reached is ever reported; else with its
/// end.
pub proof fn law_recording_ends_once(
    full: Seq<char>,
    results: Seq<Result<Seq<char>, Seq<char>>>,
    last: Seq<char>,
)
    ensures
        ({
            let events = events_of(full, results, last);
            &&& events.len() > 0
            &&& forall|i: int| 0 <= i < events.len() - 1 ==> (#[trigger] events[i]) is Delta
            &&& events.last() !is Delta
            &&& (events.last() is Finished) == (forall|i: int|
                0 <= i < results.len() ==> (#[trigger] results[i]) is Ok)
        }),
    decreases results.len(),
{
    let events = events_of(full, results, last);
    if results.len() > 0 && results[0] is Ok {
        let t = chunk_event(full, results[0]).1->Some_0;
        let rest = results.drop_first();
        law_recording_ends_once(t, rest, last);
        let later = events_of(t, rest, last);
        assert(events =~= seq![chunk_event(full, results[0]).0] + later);
        assert forall|i: int| 0 <= i < events.len() - 1 implies (#[trigger] events[i]) is Delta by {
            if i > 0 {
                assert(events[i] == later[i - 1]);
            }
        }
        assert(events.last() == later.last());
        if forall|i: int| 0 <= i < rest.len() ==> (#[trigger] rest[i]) is Ok {
            assert forall|i: int| 0 <= i < results.len() implies (#[trigger] results[i]) is Ok by {
                if i > 0 {
                    assert(rest[i - 1] is Ok);
                }
            }
        } else {
            let i = choose|i: int| 0 <= i < rest.len() && (#[trigger] rest[i]) !is Ok;
            assert(results[i + 1] !is Ok);
        }
    }
}

/// Where every chunk gives text, the events are that text, chunk by chunk, and
/// then the end, with the whole text.
pub proof fn law_events_tell_whole_text(full: Seq<char>, deltas: Seq<Seq<char>>, last: Seq<char>)
    ensures
        events_of(
            full,
            Seq::new(deltas.len(), |i: int| Ok::<Seq<char>, Seq<char>>(deltas[i])),
            last,
        ) == Seq::new(deltas.len(), |i: int| EventView::Delta(deltas[i])).push(
            EventView::Finished(last, full + text::concat(deltas) + last),
        ),
    decreases deltas.len(),
{
    let results = Seq::new(deltas.len(), |i: int| Ok::<Seq<char>, Seq<char>>(deltas[i]));
    let events = Seq::new(deltas.len(), |i: int| EventView::Delta(deltas[i])).push(
        EventView::Finished(last, full + text::concat(deltas) + last),
    );
    if deltas.len() == 0 {
        assert(full + text::concat(deltas) =~= full);
        assert(events_of(full, results, last) =~= events);
    } else {
        let rest = deltas.drop_first();
        law_events_tell_whole_text(full + deltas[0], rest, last);
        assert(results.drop_first() =~= Seq::new(
            rest.len(),
            |i: int| Ok::<Seq<char>, Seq<char>>(rest[i]),
        ));
        lemma_concat_one(deltas[0]);
        text::lemma_concat_append(seq![deltas[0]], rest);
        assert(seq![deltas[0]] + rest =~= deltas);
        assert(full + deltas[0] + text::concat(rest) + last =~= full + text::concat(deltas) + last);
        assert(events_of(full, results, last) =~= events);
    }
}

/// What reaches the daemon.
pub ghost enum Input {
    Command(IpcCommand),
    /// An event of the recording with this number.
    Event(u64, EventView),
    /// The text of the recording with this number, transcribed at once.
    Transcribed(u64, Option<Seq<char>>),
}

/// The daemon after all that reached it.
pub open spec fn after_all(
    d: DaemonView,
    inputs: Seq<Input>,
    output: OutputConfig,
    notification: NotificationConfig,
) -> DaemonView
    decreases inputs.len(),
{
    if inputs.len() == 0 {
        d
    } else {
        let before = after_all(d, inputs.drop_last(), output, notification);
        match inputs.last() {
            Input::Command(c) => before.commanded(c),
            Input::Event(n, e) => before.affected(
                before.effects(n, effects_of(e, output, notification)),
            ),
            Input::Transcribed(n, t) => before.affected(
                before.effects(n, effects_of_whole(t, output, notification)),
            ),
        }
    }
}

proof fn lemma_numbers(
    d: DaemonView,
    inputs: Seq<Input>,
    output: OutputConfig,
    notification: NotificationConfig,
) -> (started: int)
    requires
        d.current is None,
    ensures
        0 <= started <= inputs.len(),
        after_all(d, inputs, output, notification).count == (d.count + started)
            % 0x1_0000_0000_0000_0000,
        after_all(d, inputs, output, notification).wf(),
        after_all(d, inputs, output, notification).current is Some ==> started > 0,
    decreases inputs.len(),
{
    if inputs.len() == 0 {
        0
    } else {
        let k = lemma_numbers(d, inputs.drop_last(), output, notification);
        let before = after_all(d, inputs.drop_last(), output, notification);
        let starts = inputs.last() matches Input::Command(c) && action_of(c, before.state)
            is StartRecording;
        if starts {
            assert(next_number(before.count) == (d.count + k + 1) % 0x1_0000_0000_0000_0000);
            k + 1
        } else {
            k
        }
    }
}

/// The current recording is always the last one that started.
pub proof fn law_current_recording_is_last(
    inputs: Seq<Input>,
    output: OutputConfig,
    notification: NotificationConfig,
)
    ensures
        after_all(DaemonView::initial(), inputs, output, notification).wf(),
{
    lemma_numbers(DaemonView::initial(), inputs, output, notification);
}

/// A stop while a recording is being transcribed drops it: the daemon is at rest
/// then, and whatever reaches it later, nothing of that recording is typed,
/// selected or shown, and it changes nothing. (The number of a recording is used
/// again after all others were.)
pub proof fn law_dropped_recording_is_never_typed(
    d: DaemonView,
    recording: u64,
    inputs: Seq<Input>,
    effects: EffectsView,
    output: OutputConfig,
    notification: NotificationConfig,
)
    requires
        d.wf(),
        d.state == DaemonState::Processing,
        d.current == Some(recording),
        inputs.len() < 0x1_0000_0000_0000_0000,
    ensures
        d.commanded(IpcCommand::Stop).state == DaemonState::Idle,
        ({
            let later = after_all(d.commanded(IpcCommand::Stop), inputs, output, notification);
            &&& later.effects(recording, effects) == no_effects()
            &&& later.affected(later.effects(recording, effects)) == later
        }),
{
    let dropped = d.commanded(IpcCommand::Stop);
    let k = lemma_numbers(dropped, inputs, output, notification);
    let later = after_all(dropped, inputs, output, notification);
    if later.current == Some(recording) {
        assert((recording + k) % 0x1_0000_0000_0000_0000 != recording);
    }
}

/// What is heard on the way is typed and nothing else is done. When a recording
/// has come to its end, its last text is typed, the end of a line where one is
/// wanted; the whole text goes to the primary selection exactly where that is
/// wanted and it is not blank; and its end is told exactly where that is wanted.
/// An error types and selects nothing, and is told.
pub proof fn law_events_have_their_effects(
    d: Seq<char>,
    full: Seq<char>,
    output: OutputConfig,
    notification: NotificationConfig,
)
    ensures
        ({
            let e = effects_of(EventView::Delta(d), output, notification);
            &&& text::concat(e.typed) == d
            &&& e.selection is None
            &&& e.notice is None
            &&& e.next is None
        }),
        ({
            let e = effects_of(EventView::Finished(d, full), output, notification);
            &&& !output.newline_on_finish ==> text::concat(e.typed) == d
            &&& output.newline_on_finish ==> text::concat(e.typed) == d + "\n"@
            &&& e.selection == (if output.primary_selection && text::trimmed(full).len() > 0 {
                Some(full)
            } else {
                None
            })
            &&& (e.notice is Some) == notification.notify_on_finish
            &&& e.notice matches Some(n) ==> n == notifications::finish_notice(notification, full)
            &&& e.next == Some(DaemonState::Idle)
        }),
        ({
            let e = effects_of(EventView::Error(d), output, notification);
            &&& e.typed.len() == 0
            &&& e.selection is None
            &&& e.notice == Some(notifications::error_notice(d))
            &&& e.next == Some(DaemonState::Idle)
        }),
{
    lemma_concat_unless_empty(d);
    if output.newline_on_finish {
        lemma_concat_one("\n"@);
        text::lemma_concat_append(unless_empty(d), seq!["\n"@]);
    } else {
        assert(unless_empty(d) + Seq::<Seq<char>>::empty() =~= unless_empty(d));
    }
}

/// No text that is typed is empty.
pub proof fn law_typed_texts_are_not_empty(
    event: EventView,
    output: OutputConfig,
    notification: NotificationConfig,
    i: int,
)
    requires
        0 <= i < effects_of(event, output, notification).typed.len(),
    ensures
        effects_of(event, output, notification).typed[i].len() > 0,
{
    reveal_strlit("\n");
}

/// A recording that is transcribed at once is delivered where its text is not
/// blank: it is typed, with the end of a line behind it where one is wanted; what
/// is typed is also selected, where that is wanted; and its end is told, where that
/// is wanted. A blank text and a failure are not delivered. The daemon is at rest
/// in any case.
pub proof fn law_whole_recording_is_delivered(
    t: Seq<char>,
    output: OutputConfig,
    notification: NotificationConfig,
)
    ensures
        ({
            let e = effects_of_whole(Some(t), output, notification);
            let said = text::trimmed(t).len() > 0;
            &&& said ==> e.typed.len() == 1
            &&& said && output.newline_on_finish ==> e.typed[0] == t + "\n"@
            &&& said && !output.newline_on_finish ==> e.typed[0] == t
            &&& e.selection == (if said && output.primary_selection {
                Some(e.typed[0])
            } else {
                None
            })
            &&& e.notice == (if said && notification.notify_on_finish {
                Some(notifications::whole_notice(notification, t))
            } else {
                None
            })
            &&& !said ==> e.typed.len() == 0
            &&& e.next == Some(DaemonState::Idle)
        }),
        ({
            let e = effects_of_whole(None, output, notification);
            &&& e.typed.len() == 0
            &&& e.selection is None
            &&& e.notice is None
            &&& e.next == Some(DaemonState::Idle)
        }),
{
}

/// A recording that starts is the current one, under a number that the one before
/// did not have, and stays current while it is recorded and transcribed, until
/// its end or until it is dropped; what it reports has its effects all that time.
pub proof fn law_current_recording_is_heard(
    d: DaemonView,
    recording: u64,
    effects: EffectsView,
    command: IpcCommand,
)
    ensures
        d.state == DaemonState::Idle ==> {
            let r = d.commanded(IpcCommand::Toggle);
            &&& r.state == DaemonState::Recording
            &&& r.current matches Some(n) && n == r.count && n != d.count
            &&& d.commanded(IpcCommand::Stop) == d
        },
        d.state == DaemonState::Recording ==> d.commanded(command).current == d.current
            && d.commanded(command).state == DaemonState::Processing,
        d.state == DaemonState::Processing ==> d.commanded(IpcCommand::Toggle) == d,
        d.current == Some(recording) ==> d.effects(recording, effects) == effects,
        d.current != Some(recording) ==> d.effects(recording, effects) == no_effects(),
        effects.next is None ==> d.affected(effects) == d,
        effects.next matches Some(s) ==> d.affected(effects).state == s && d.affected(
            effects,
        ).current is None && d.affected(effects).count == d.count,
{
}

/// Every command does one of three things: a toggle at rest starts a recording,
/// either command ends one, and a stop drops what is being transcribed. A toggle
/// then, and a stop at rest, are ignored.
pub proof fn law_commands_do_what_they_say(command: IpcCommand, state: DaemonState)
    ensures
        (action_of(command, state) is StartRecording) == (state_after(command, state)
            == DaemonState::Recording),
        (action_of(command, state) is StopRecording) == (state == DaemonState::Recording),
        (action_of(command, state) is AbandonTranscription) == (command == IpcCommand::Stop && state
            == DaemonState::Processing),
        action_of(command, state) is AbandonTranscription ==> state_after(command, state)
            == DaemonState::Idle,
{
}

} // verus!
