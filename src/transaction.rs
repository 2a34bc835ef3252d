use crate::record::FileMeta;
use vstd::prelude::*;

verus! {

/// How a hardlink transaction ended.
#[derive(Clone, Copy, Debug, PartialEq, Eq, Structural)]
pub enum LinkEnd {
    /// The path is now a hardlink to the kept file; its new metadata.
    Merged(FileMeta),
    /// The path could not be removed; it is untouched.
    RemoveFailed,
    /// The link failed after removal; the kept file's bytes were copied to
    /// the path instead, so it still holds the same content.
    CopiedInstead,
    /// Both the link and the copy failed: the path is left missing.
    LinkAndCopyFailed,
    /// The link was made but the path's metadata could not be read again.
    RefreshFailed,
}

/// Where a hardlink transaction stands: the next filesystem operation to
/// perform on the replaced path, or how it ended.
#[derive(Clone, Copy, Debug, PartialEq, Eq, Structural)]
pub enum LinkStep {
    /// Remove the path.
    Remove,
    /// Create the path as a hardlink to the kept file.
    Link,
    /// Copy the kept file's bytes to the path.
    Copy,
    /// Read the path's metadata again.
    Refresh,
    Finished(LinkEnd),
}

/// What came of the operation of a `LinkStep`.
#[derive(Clone, Copy, Debug, PartialEq, Eq, Structural)]
pub enum LinkEvent {
    /// The removal, link or copy succeeded or failed.
    Done(bool),
    /// The metadata read again, if it could be read.
    Read(Option<FileMeta>),
}

/// The transaction: remove, then link; if the link fails, copy, so the path
/// is never left missing while a copy can be made; after a link, refresh
/// the metadata.
pub open spec fn link_transition(step: LinkStep, event: LinkEvent) -> LinkStep {
    match (step, event) {
        (LinkStep::Remove, LinkEvent::Done(true)) => LinkStep::Link,
        (LinkStep::Remove, LinkEvent::Done(false)) => LinkStep::Finished(LinkEnd::RemoveFailed),
        (LinkStep::Link, LinkEvent::Done(true)) => LinkStep::Refresh,
        (LinkStep::Link, LinkEvent::Done(false)) => LinkStep::Copy,
        (LinkStep::Copy, LinkEvent::Done(true)) => LinkStep::Finished(LinkEnd::CopiedInstead),
        (LinkStep::Copy, LinkEvent::Done(false)) => LinkStep::Finished(LinkEnd::LinkAndCopyFailed),
        (LinkStep::Refresh, LinkEvent::Read(Some(md))) => LinkStep::Finished(LinkEnd::Merged(md)),
        (LinkStep::Refresh, LinkEvent::Read(None)) => LinkStep::Finished(LinkEnd::RefreshFailed),
        _ => step,
    }
}

/// The event kinds that answer `step`.
pub open spec fn answers(step: LinkStep, event: LinkEvent) -> bool {
    match step {
        LinkStep::Remove | LinkStep::Link | LinkStep::Copy => event is Done,
        LinkStep::Refresh => event is Read,
        LinkStep::Finished(_) => false,
    }
}

/// Moves a hardlink transaction on by what came of its current operation.
pub fn next_link_step(step: LinkStep, event: LinkEvent) -> (r: LinkStep)
    requires
        answers(step, event),
    ensures
        r == link_transition(step, event),
{
    match (step, event) {
        (LinkStep::Remove, LinkEvent::Done(ok)) => {
            if ok {
                LinkStep::Link
            } else {
                LinkStep::Finished(LinkEnd::RemoveFailed)
            }
        },
        (LinkStep::Link, LinkEvent::Done(ok)) => {
            if ok {
                LinkStep::Refresh
            } else {
                LinkStep::Copy
            }
        },
        (LinkStep::Copy, LinkEvent::Done(ok)) => {
            if ok {
                LinkStep::Finished(LinkEnd::CopiedInstead)
            } else {
                LinkStep::Finished(LinkEnd::LinkAndCopyFailed)
            }
        },
        (LinkStep::Refresh, LinkEvent::Read(md)) => match md {
            Some(md) => LinkStep::Finished(LinkEnd::Merged(md)),
            None => LinkStep::Finished(LinkEnd::RefreshFailed),
        },
        _ => step,
    }
}

/// A transaction ends with the path missing only when, after its removal,
/// both the link and the fallback copy failed; a failed link is always
/// followed by a copy.
pub proof fn lemma_missing_only_after_both_fail(step: LinkStep, event: LinkEvent)
    requires
        answers(step, event),
    ensures
        link_transition(step, event) == LinkStep::Finished(LinkEnd::LinkAndCopyFailed) ==> step
            == LinkStep::Copy && event == LinkEvent::Done(false),
        link_transition(step, event) == LinkStep::Copy ==> step == LinkStep::Link && event
            == LinkEvent::Done(false),
        step == LinkStep::Link && event == LinkEvent::Done(false) ==> link_transition(step, event)
            == LinkStep::Copy,
{
}

} // verus!
