//! Server-side drag-and-drop offer decisions.
//!
//! The protocol plumbing around a drag — creating offer objects, sending
//! enter/leave/motion events — is a compositor concern and lives outside
//! this crate.  What is verified here are the decisions an offer makes:
//! which mime types it accepts, when a receive is honoured, when finishing
//! the offer is an error, and which actions remain on the table.

use vstd::prelude::*;
use vstd::string::StrSliceExecFns;

verus! {

/// The "copy" drag-and-drop action bit.
pub const DND_ACTION_COPY: u32 = 1;

/// The "move" drag-and-drop action bit.
pub const DND_ACTION_MOVE: u32 = 2;

/// The "ask" drag-and-drop action bit.
pub const DND_ACTION_ASK: u32 = 4;

/// The state of one server-side drag-and-drop offer.
#[derive(Clone, Copy, Debug, PartialEq, Eq, Structural)]
pub struct ServerDndOfferData {
    /// The offer still stands.
    pub active: bool,
    /// The payload was dropped onto the target.
    pub dropped: bool,
    /// The target accepted one of the offered mime types.
    pub accepted: bool,
    /// The single action agreed upon, or zero while none is.
    pub chosen_action: u32,
}

/// What the dragged source offers: its mime types and the actions it allows.
pub struct SourceMetadata {
    /// The offered mime types.
    pub mime_types: Vec<String>,
    /// Mask of allowed drag-and-drop actions.
    pub dnd_action: u32,
}

/// The list holds this string.
pub open spec fn mimes_contain_spec(mimes: Seq<String>, mime: Seq<char>) -> bool {
    exists|i: int| 0 <= i < mimes.len() && (#[trigger] mimes[i])@ == mime
}

/// Whether two strings hold the same characters.
fn str_eq(a: &str, b: &str) -> (r: bool)
    ensures
        r == (a@ == b@),
{
    let na = a.unicode_len();
    let nb = b.unicode_len();
    if na != nb {
        return false;
    }
    let mut k: usize = 0;
    while k < na
        invariant
            na == a@.len(),
            nb == b@.len(),
            na == nb,
            k <= na,
            forall|i: int| 0 <= i < k ==> a@[i] == b@[i],
        decreases na - k,
    {
        if a.get_char(k) != b.get_char(k) {
            return false;
        }
        k = k + 1;
    }
    proof {
        assert(a@ =~= b@);
    }
    true
}

/// Whether the list holds this mime type.
fn mimes_contain(mimes: &Vec<String>, mime: &str) -> (r: bool)
    ensures
        r == mimes_contain_spec(mimes@, mime@),
{
    let n = mimes.len();
    for k in 0..n
        invariant
            n == mimes@.len(),
            forall|i: int| 0 <= i < k ==> (#[trigger] mimes@[i])@ != mime@,
    {
        if str_eq(mimes[k].as_str(), mime) {
            return true;
        }
    }
    false
}

/// A fresh offer, as handed to a target the pointer just entered: standing,
/// not yet dropped, tentatively accepted, no action agreed.
pub fn new_offer() -> (r: ServerDndOfferData)
    ensures
        r == (ServerDndOfferData { active: true, dropped: false, accepted: true, chosen_action: 0 }),
{
    ServerDndOfferData { active: true, dropped: false, accepted: true, chosen_action: 0 }
}

/// The target accepted (or declined) a mime type: the offer counts as
/// accepted exactly when the named type is one the source offers.
pub fn accept_mime(
    offer: &mut ServerDndOfferData,
    metadata: &SourceMetadata,
    mime_type: &Option<String>,
)
    ensures
        final(offer).accepted == match mime_type {
            Some(m) => mimes_contain_spec(metadata.mime_types@, m@),
            None => false,
        },
        final(offer).active == old(offer).active,
        final(offer).dropped == old(offer).dropped,
        final(offer).chosen_action == old(offer).chosen_action,
{
    match mime_type {
        Some(m) => {
            offer.accepted = mimes_contain(&metadata.mime_types, m.as_str());
        },
        None => {
            offer.accepted = false;
        },
    }
}

/// Whether a receive request is honoured: only for a mime type the source
/// offers, and only while the offer stands.
pub fn receive_allowed(
    offer: &ServerDndOfferData,
    metadata: &SourceMetadata,
    mime_type: &String,
) -> (r: bool)
    ensures
        r == (mimes_contain_spec(metadata.mime_types@, mime_type@) && offer.active),
{
    mimes_contain(&metadata.mime_types, mime_type.as_str()) && offer.active
}

/// Why finishing an offer is refused.
#[derive(Clone, Copy, Debug, PartialEq, Eq, Structural)]
pub enum InvalidFinish {
    /// The offer is no longer active.
    NotActive,
    /// The offer was never accepted.
    NotAccepted,
    /// Nothing was dropped yet.
    NotDropped,
    /// No action was agreed upon.
    NoAction,
}

impl InvalidFinish {
    /// The protocol error message for this refusal.
    pub fn message(&self) -> (r: &'static str)
        ensures
            r@ == match self {
                InvalidFinish::NotActive => "Cannot finish a data offer that is no longer active."@,
                InvalidFinish::NotAccepted =>
                    "Cannot finish a data offer that has not been accepted."@,
                InvalidFinish::NotDropped =>
                    "Cannot finish a data offer that has not been dropped."@,
                InvalidFinish::NoAction => "Cannot finish a data offer with no valid action."@,
            },
    {
        match self {
            InvalidFinish::NotActive => "Cannot finish a data offer that is no longer active.",
            InvalidFinish::NotAccepted => "Cannot finish a data offer that has not been accepted.",
            InvalidFinish::NotDropped => "Cannot finish a data offer that has not been dropped.",
            InvalidFinish::NoAction => "Cannot finish a data offer with no valid action.",
        }
    }
}

/// Finish an offer: allowed only once it stands, was accepted, the payload
/// was dropped, and an action was agreed; the offer then ends.  On refusal
/// the offer is unchanged, and the first failing condition names the error.
pub fn finish_offer(offer: &mut ServerDndOfferData) -> (r: Result<(), InvalidFinish>)
    ensures
        match r {
            Ok(()) => old(offer).active && old(offer).accepted && old(offer).dropped && old(
                offer,
            ).chosen_action != 0 && *final(offer) == (ServerDndOfferData {
                active: false,
                ..*old(offer)
            }),
            Err(e) => *final(offer) == *old(offer) && e == (if !old(offer).active {
                InvalidFinish::NotActive
            } else if !old(offer).accepted {
                InvalidFinish::NotAccepted
            } else if !old(offer).dropped {
                InvalidFinish::NotDropped
            } else {
                InvalidFinish::NoAction
            }) && !(old(offer).active && old(offer).accepted && old(offer).dropped && old(
                offer,
            ).chosen_action != 0),
        },
{
    if !offer.active {
        return Err(InvalidFinish::NotActive);
    }
    if !offer.accepted {
        return Err(InvalidFinish::NotAccepted);
    }
    if !offer.dropped {
        return Err(InvalidFinish::NotDropped);
    }
    if offer.chosen_action == 0 {
        return Err(InvalidFinish::NoAction);
    }
    offer.active = false;
    Ok(())
}

/// A preferred action must be exactly one action, or none.
pub fn is_single_action(action: u32) -> (r: bool)
    ensures
        r == (action == 0 || action == DND_ACTION_COPY || action == DND_ACTION_MOVE || action
            == DND_ACTION_ASK),
{
    action == 0 || action == DND_ACTION_COPY || action == DND_ACTION_MOVE || action
        == DND_ACTION_ASK
}

/// The preferred action was not a single action.
#[derive(Clone, Copy, Debug, PartialEq, Eq, Structural)]
pub struct InvalidAction;

/// A target asked for actions: refuse a preferred action that is not a
/// single one; otherwise the actions on the table are those both the source
/// and the target allow.
pub fn set_actions_choice(metadata_action: u32, dnd_actions: u32, preferred_action: u32) -> (r:
    Result<u32, InvalidAction>)
    ensures
        match r {
            Ok(possible) => possible == (metadata_action & dnd_actions) && (preferred_action == 0
                || preferred_action == DND_ACTION_COPY || preferred_action == DND_ACTION_MOVE
                || preferred_action == DND_ACTION_ASK),
            Err(_) => !(preferred_action == 0 || preferred_action == DND_ACTION_COPY
                || preferred_action == DND_ACTION_MOVE || preferred_action == DND_ACTION_ASK),
        },
{
    if !is_single_action(preferred_action) {
        return Err(InvalidAction);
    }
    Ok(metadata_action & dnd_actions)
}

/// Remember the action the compositor chose for this offer.
pub fn record_chosen_action(offer: &mut ServerDndOfferData, chosen: u32)
    ensures
        *final(offer) == (ServerDndOfferData { chosen_action: chosen, ..*old(offer) }),
{
    offer.chosen_action = chosen;
}

/// Whether releasing the pointer counts as a drop: the target accepted the
/// offer and an action was agreed.
pub fn drop_validated(offer: &ServerDndOfferData) -> (r: bool)
    ensures
        r == (offer.accepted && offer.chosen_action != 0),
{
    offer.accepted && offer.chosen_action != 0
}

/// Record the release of the pointer: a validated drop marks the offer
/// dropped, anything else deactivates it.
pub fn record_drop(offer: &mut ServerDndOfferData, validated: bool)
    ensures
        validated ==> *final(offer) == (ServerDndOfferData { dropped: true, ..*old(offer) }),
        !validated ==> *final(offer) == (ServerDndOfferData { active: false, ..*old(offer) }),
{
    if validated {
        offer.dropped = true;
    } else {
        offer.active = false;
    }
}

} // verus!
