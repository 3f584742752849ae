//! What a watch session does on a file event.
//!
//! The session waits for events on the watched paths. Each event is answered
//! by one reaction; after a removal the paths are watched anew, and what
//! follows depends on whether the document is still there.

use vstd::prelude::*;

verus! {

/// The kinds of event that the watcher reports.
#[derive(Clone, Copy, Debug, PartialEq, Eq, Structural)]
pub enum FileEvent {
    /// The file was read.
    Access,
    /// A file was created.
    Create,
    /// The file was changed.
    Modify,
    /// The file was removed.
    Remove,
    /// Any other event.
    Other,
}

/// What is reported to the user.
#[derive(Clone, Copy, Debug, PartialEq, Eq, Structural)]
pub enum Notice {
    /// A file was created that should have existed before.
    Created,
    /// The document was removed.
    Removed,
    /// The watcher reported an event of unknown kind.
    Unknown,
}

/// What the session does next.
#[derive(Clone, Copy, Debug, PartialEq, Eq, Structural)]
pub enum Reaction {
    /// Nothing.
    Nothing,
    /// Report to the user.
    Report(Notice),
    /// Run a pass over the document.
    Update,
    /// Watch the paths anew, then ask `after_rewatch`.
    Rewatch,
}

/// The reaction to an event.
pub open spec fn reaction(event: FileEvent) -> Reaction {
    match event {
        FileEvent::Access => Reaction::Nothing,
        FileEvent::Create => Reaction::Report(Notice::Created),
        FileEvent::Modify => Reaction::Update,
        FileEvent::Remove => Reaction::Rewatch,
        FileEvent::Other => Reaction::Report(Notice::Unknown),
    }
}

/// The reaction to an event.
pub fn react(event: FileEvent) -> (r: Reaction)
    ensures
        r == reaction(event),
{
    match event {
        FileEvent::Access => Reaction::Nothing,
        FileEvent::Create => Reaction::Report(Notice::Created),
        FileEvent::Modify => Reaction::Update,
        FileEvent::Remove => Reaction::Rewatch,
        FileEvent::Other => Reaction::Report(Notice::Unknown),
    }
}

/// What follows once the paths are watched anew after a removal: a pass
/// where the document is a file again, a report where it is gone.
pub fn after_rewatch(document_is_file: bool) -> (r: Reaction)
    ensures
        r == if document_is_file {
            Reaction::Update
        } else {
            Reaction::Report(Notice::Removed)
        },
{
    if document_is_file {
        Reaction::Update
    } else {
        Reaction::Report(Notice::Removed)
    }
}

/// Only a change of the document, or its return after a removal, starts a
/// pass.
pub proof fn law_pass_only_on_change(event: FileEvent)
    ensures
        reaction(event) == Reaction::Update <==> event == FileEvent::Modify,
        reaction(event) == Reaction::Rewatch <==> event == FileEvent::Remove,
{
}

} // verus!
