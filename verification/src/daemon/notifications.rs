//! What the user is notified of.

use vstd::prelude::*;
use crate::config::NotificationConfig;
use crate::text;
use crate::text_laws;

verus! {

/// How long a notification stays.
#[derive(Debug, Clone, Copy, PartialEq, Eq, Structural)]
pub enum NoticeTimeout {
    /// Until it is closed.
    Never,
    Milliseconds(u32),
}

/// A notification.
#[derive(Debug)]
pub struct Notice {
    pub summary: String,
    pub body: Option<String>,
    pub timeout: NoticeTimeout,
}

/// A notification, mathematically.
pub ghost struct NoticeView {
    pub summary: Seq<char>,
    pub body: Option<Seq<char>>,
    pub timeout: NoticeTimeout,
}

impl Notice {
    pub open spec fn view(&self) -> NoticeView {
        NoticeView {
            summary: self.summary@,
            body: match self.body {
                Some(b) => Some(b@),
                None => None,
            },
            timeout: self.timeout,
        }
    }
}

/// The number of characters of a text that a notification shows.
pub const PREVIEW_CHARS: usize = 120;

/// The number of bytes of a recording transcribed at once that a notification
/// shows.
pub const PREVIEW_BYTES: usize = 120;

/// How long, in milliseconds, an error is shown.
pub const ERROR_TIMEOUT_MS: u32 = 5000;

/// What a notification shows of a text: all of it, or its beginning and an
/// ellipsis.
pub open spec fn preview_of(s: Seq<char>) -> Seq<char> {
    if s.len() > PREVIEW_CHARS {
        s.take(PREVIEW_CHARS as int).push('…')
    } else {
        s
    }
}

/// What a notification shows of a text.
pub fn preview(s: &str) -> (r: String)
    ensures
        r@ == preview_of(s@),
{
    let v: Vec<char> = text::to_chars(s);
    if v.len() > PREVIEW_CHARS {
        let mut r: String = text::from_chars(&v, 0, PREVIEW_CHARS);
        proof {
            assert(r@ =~= s@.take(PREVIEW_CHARS as int));
        }
        r.push('…');
        r
    } else {
        s.to_owned()
    }
}

/// What a notification shows of the text of a recording transcribed at once: all
/// of it, or as many of its first characters as take `PREVIEW_BYTES` bytes at
/// most, and an ellipsis.
pub open spec fn whole_preview_of(s: Seq<char>) -> Seq<char> {
    if vstd::utf8::encode_utf8(s).len() > PREVIEW_BYTES {
        text::first_bytes(s, PREVIEW_BYTES as int).push('…')
    } else {
        s
    }
}

/// What a notification shows of the text of a recording transcribed at once.
pub fn whole_preview(s: &str) -> (r: String)
    ensures
        r@ == whole_preview_of(s@),
{
    if s.as_bytes().len() > PREVIEW_BYTES {
        let mut r: String = text::text_up_to_byte(s, PREVIEW_BYTES);
        r.push('…');
        r
    } else {
        s.to_owned()
    }
}

/// The notification for the start of a recording. A timeout of zero means that
/// it stays.
pub open spec fn start_notice(cfg: NotificationConfig) -> NoticeView {
    NoticeView {
        summary: cfg.start_message@,
        body: None,
        timeout: if cfg.start_timeout_ms == 0 {
            NoticeTimeout::Never
        } else {
            NoticeTimeout::Milliseconds(cfg.start_timeout_ms)
        },
    }
}

/// The notification for the start of a recording.
pub fn notify_start(cfg: &NotificationConfig) -> (n: Notice)
    ensures
        n@ == start_notice(*cfg),
{
    Notice {
        summary: cfg.start_message.clone(),
        body: None,
        timeout: if cfg.start_timeout_ms == 0 {
            NoticeTimeout::Never
        } else {
            NoticeTimeout::Milliseconds(cfg.start_timeout_ms)
        },
    }
}

/// The notification for a finished transcription.
pub open spec fn finish_notice(cfg: NotificationConfig, transcribed: Seq<char>) -> NoticeView {
    NoticeView {
        summary: cfg.finish_message@,
        body: Some(preview_of(transcribed)),
        timeout: NoticeTimeout::Milliseconds(cfg.finish_timeout_ms),
    }
}

/// The notification for a finished transcription.
pub fn notify_finish(cfg: &NotificationConfig, transcribed: &str) -> (n: Notice)
    ensures
        n@ == finish_notice(*cfg, transcribed@),
{
    Notice {
        summary: cfg.finish_message.clone(),
        body: Some(preview(transcribed)),
        timeout: NoticeTimeout::Milliseconds(cfg.finish_timeout_ms),
    }
}

/// The notification for a recording that was transcribed at once.
pub open spec fn whole_notice(cfg: NotificationConfig, transcribed: Seq<char>) -> NoticeView {
    NoticeView {
        summary: cfg.finish_message@,
        body: Some(whole_preview_of(transcribed)),
        timeout: NoticeTimeout::Milliseconds(cfg.finish_timeout_ms),
    }
}

/// The notification for a recording that was transcribed at once.
pub fn notify_whole(cfg: &NotificationConfig, transcribed: &str) -> (n: Notice)
    ensures
        n@ == whole_notice(*cfg, transcribed@),
{
    Notice {
        summary: cfg.finish_message.clone(),
        body: Some(whole_preview(transcribed)),
        timeout: NoticeTimeout::Milliseconds(cfg.finish_timeout_ms),
    }
}

/// The notification for an error.
pub open spec fn error_notice(message: Seq<char>) -> NoticeView {
    NoticeView {
        summary: "Erro na captura de áudio"@,
        body: Some(message),
        timeout: NoticeTimeout::Milliseconds(ERROR_TIMEOUT_MS),
    }
}

/// The notification for an error.
pub fn notify_error(message: &str) -> (n: Notice)
    ensures
        n@ == error_notice(message@),
{
    Notice {
        summary: "Erro na captura de áudio".to_owned(),
        body: Some(message.to_owned()),
        timeout: NoticeTimeout::Milliseconds(ERROR_TIMEOUT_MS),
    }
}

/// What is shown of a text is never longer than the limit and an ellipsis, and a
/// text within the limit is shown whole.
pub proof fn law_preview_is_short(s: Seq<char>)
    ensures
        preview_of(s).len() <= PREVIEW_CHARS + 1,
        s.len() <= PREVIEW_CHARS ==> preview_of(s) == s,
        s.len() > PREVIEW_CHARS ==> preview_of(s).drop_last().is_prefix_of(s),
{
    if s.len() > PREVIEW_CHARS {
        assert(preview_of(s).drop_last() =~= s.take(PREVIEW_CHARS as int));
    }
}

/// What is shown of a recording transcribed at once is never longer than the
/// limit and an ellipsis. Where a character begins at the limit, what is shown is
/// exactly what stands before it.
pub proof fn law_whole_preview_is_short(s: Seq<char>)
    ensures
        ({
            let bytes = vstd::utf8::encode_utf8(s);
            let shown = whole_preview_of(s);
            &&& bytes.len() <= PREVIEW_BYTES ==> shown == s
            &&& bytes.len() > PREVIEW_BYTES ==> {
                &&& shown.last() == '…'
                &&& shown.drop_last().is_prefix_of(s)
                &&& vstd::utf8::encode_utf8(shown.drop_last()).len() <= PREVIEW_BYTES
                &&& vstd::utf8::is_char_boundary(bytes, PREVIEW_BYTES as int)
                    ==> vstd::utf8::encode_utf8(shown.drop_last()) == bytes.subrange(
                    0,
                    PREVIEW_BYTES as int,
                )
            }
        }),
{
    text::lemma_first_bytes(s, PREVIEW_BYTES as int);
    let beginning = text::first_bytes(s, PREVIEW_BYTES as int);
    assert(beginning.push('…').drop_last() =~= beginning);
}

/// What is shown of a long text is exactly its first hundred and twenty
/// characters and an ellipsis.
pub proof fn law_preview_is_the_beginning(s: Seq<char>)
    requires
        s.len() > 120,
    ensures
        preview_of(s).len() == 121,
        preview_of(s).last() == '…',
        forall|i: int| 0 <= i < 120 ==> #[trigger] preview_of(s)[i] == s[i],
{
}

/// What is shown of a long recording transcribed at once is as much of its
/// beginning as fits into a hundred and twenty bytes: one character more does
/// not.
pub proof fn law_whole_preview_is_longest(s: Seq<char>)
    requires
        vstd::utf8::encode_utf8(s).len() > 120,
    ensures
        ({
            let shown = whole_preview_of(s).drop_last();
            &&& whole_preview_of(s).last() == '…'
            &&& shown.is_prefix_of(s)
            &&& vstd::utf8::encode_utf8(shown).len() <= 120
            &&& shown.len() < s.len() ==> vstd::utf8::encode_utf8(
                s.take(shown.len() as int + 1),
            ).len() > 120
        }),
{
    text_laws::law_beginning_is_longest(s, 120);
    let beginning = text::first_bytes(s, 120);
    assert(beginning.push('…').drop_last() =~= beginning);
}

/// A notification says what is configured and stays as long as is configured; a
/// timeout of zero at the start of a recording means that it stays. An error is
/// shown whole, for five seconds.
pub proof fn law_notices_are_as_configured(cfg: NotificationConfig, s: Seq<char>)
    ensures
        start_notice(cfg).summary == cfg.start_message@,
        start_notice(cfg).body is None,
        match start_notice(cfg).timeout {
            NoticeTimeout::Never => cfg.start_timeout_ms == 0,
            NoticeTimeout::Milliseconds(ms) => ms > 0 && ms == cfg.start_timeout_ms,
        },
        finish_notice(cfg, s).summary == cfg.finish_message@,
        finish_notice(cfg, s).timeout == NoticeTimeout::Milliseconds(cfg.finish_timeout_ms),
        whole_notice(cfg, s).summary == cfg.finish_message@,
        whole_notice(cfg, s).timeout == NoticeTimeout::Milliseconds(cfg.finish_timeout_ms),
        s.len() <= 120 ==> finish_notice(cfg, s).body == Some(s),
        s.len() > 120 ==> finish_notice(cfg, s).body == Some(s.take(120).push('…')),
        whole_notice(cfg, s).body == Some(whole_preview_of(s)),
        error_notice(s).body == Some(s),
        error_notice(s).timeout == NoticeTimeout::Milliseconds(5000),
{
}

} // verus!
