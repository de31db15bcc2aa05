//! The primary selection: what a click of the middle button pastes.

use vstd::prelude::*;
use crate::text;

verus! {

/// A global of the compositor that the selection needs, with the version of its
/// protocol to speak.
#[derive(Debug, Clone, Copy, PartialEq, Eq, Structural)]
pub enum Global {
    Seat(u32),
    SelectionManager(u32),
}

/// The lesser of two versions.
pub open spec fn lesser(a: u32, b: u32) -> u32 {
    if a < b {
        a
    } else {
        b
    }
}

/// What a global that the compositor offers is bound as, if it is needed: the
/// seat with version 7 at most, the manager of selections with version 1 at
/// most.
pub open spec fn binding_of(interface: Seq<char>, version: u32) -> Option<Global> {
    if interface == "wl_seat"@ {
        Some(Global::Seat(lesser(version, 7)))
    } else if interface == "zwp_primary_selection_device_manager_v1"@ {
        Some(Global::SelectionManager(lesser(version, 1)))
    } else {
        None
    }
}

/// What a global that the compositor offers is bound as, if it is needed.
pub fn bind_global(interface: &str, version: u32) -> (r: Option<Global>)
    ensures
        r == binding_of(interface@, version),
{
    if text::same_text(interface, "wl_seat") {
        let v: u32 = if version < 7 {
            version
        } else {
            7
        };
        Some(Global::Seat(v))
    } else if text::same_text(interface, "zwp_primary_selection_device_manager_v1") {
        let v: u32 = if version < 1 {
            version
        } else {
            1
        };
        Some(Global::SelectionManager(v))
    } else {
        None
    }
}

/// What a selection needs of the compositor and does not find.
#[derive(Debug, Clone, Copy, PartialEq, Eq, Structural)]
pub enum MissingGlobal {
    SelectionManager,
    Seat,
}

/// What is missing for a selection: the manager counts first.
pub fn missing_global(has_manager: bool, has_seat: bool) -> (r: Option<MissingGlobal>)
    ensures
        r == (if !has_manager {
            Some(MissingGlobal::SelectionManager)
        } else if !has_seat {
            Some(MissingGlobal::Seat)
        } else {
            None
        }),
{
    if !has_manager {
        Some(MissingGlobal::SelectionManager)
    } else if !has_seat {
        Some(MissingGlobal::Seat)
    } else {
        None
    }
}

/// The types under which the selection is offered, the best one first.
pub fn offered_types() -> (v: Vec<String>)
    ensures
        text::views(v@) == seq!["text/plain;charset=utf-8"@, "text/plain"@],
{
    let mut v: Vec<String> = Vec::new();
    v.push("text/plain;charset=utf-8".to_owned());
    v.push("text/plain".to_owned());
    proof {
        assert(text::views(v@) =~= seq!["text/plain;charset=utf-8"@, "text/plain"@]);
    }
    v
}

/// What the compositor wants of the owner of the selection.
#[derive(Debug, Clone, Copy, PartialEq, Eq, Structural)]
pub enum SourceEvent {
    /// To hand over the text.
    Send,
    /// Nothing more: the selection is another's now.
    Cancelled,
    Other,
}

/// The owner of the selection.
pub struct Selection {
    text: String,
    done: bool,
}

impl Selection {
    /// The selected text.
    pub closed spec fn view(&self) -> Seq<char> {
        self.text@
    }

    /// Whether the selection was given up.
    pub closed spec fn done(&self) -> bool {
        self.done
    }

    /// Whether the selection was given up.
    pub fn is_done(&self) -> (r: bool)
        ensures
            r == self.done(),
    {
        self.done
    }

    /// Answers the compositor: with the bytes of the text where it wants them.
    /// The text stays the same, and a selection that was given up stays so.
    pub fn on_event(&mut self, event: SourceEvent) -> (r: Option<Vec<u8>>)
        ensures
            final(self)@ == old(self)@,
            final(self).done() == (old(self).done() || event == SourceEvent::Cancelled),
            match r {
                Some(bytes) => event == SourceEvent::Send && bytes@ == vstd::utf8::encode_utf8(
                    old(self)@,
                ),
                None => event != SourceEvent::Send,
            },
    {
        match event {
            SourceEvent::Send => Some(self.text.as_str().as_bytes_vec()),
            SourceEvent::Cancelled => {
                self.done = true;
                None
            },
            SourceEvent::Other => None,
        }
    }
}

/// Takes the selection for a text.
pub fn set_primary_selection(text: &str) -> (s: Selection)
    ensures
        s@ == text@,
        !s.done(),
{
    Selection { text: text.to_owned(), done: false }
}

/// A global is bound where it is needed, in no later version than the compositor
/// offers and than is spoken here, and in no earlier one than both.
pub proof fn law_globals_are_bound_in_common_version(interface: Seq<char>, version: u32)
    ensures
        match binding_of(interface, version) {
            Some(Global::Seat(v)) => interface == "wl_seat"@ && v <= version && v <= 7 && (v
                == version || v == 7),
            Some(Global::SelectionManager(v)) => interface
                == "zwp_primary_selection_device_manager_v1"@ && v <= version && v <= 1 && (v
                == version || v == 1),
            None => interface != "wl_seat"@ && interface
                != "zwp_primary_selection_device_manager_v1"@,
        },
{
}

} // verus!
