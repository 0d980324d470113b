//! Which events a persistent memory device answers, and how.

use vstd::prelude::*;

verus! {

/// What an event calls for.
#[derive(Clone, Copy, Debug, Eq, PartialEq, Structural)]
pub enum PmemAction {
    /// The device was activated: its request queue is watched from now on, and activation no
    /// longer.
    Activate,
    /// The guest has put requests on the queue.
    Requests,
    /// The event comes from nothing that is watched.
    Unexpected,
    /// The event comes before activation.
    Spurious,
}

/// What an event of a source calls for: activation first, requests only once the device is active.
pub open spec fn event_action(source: i32, activate: i32, activated: bool, request_queue: i32) -> PmemAction {
    if source == activate {
        PmemAction::Activate
    } else if !activated {
        PmemAction::Spurious
    } else if source == request_queue {
        PmemAction::Requests
    } else {
        PmemAction::Unexpected
    }
}

/// What an event of a source calls for.
pub fn process(source: i32, activate: i32, activated: bool, request_queue: i32) -> (action: PmemAction)
    ensures
        action == event_action(source, activate, activated, request_queue),
{
    if source == activate {
        PmemAction::Activate
    } else if activated {
        if source == request_queue {
            PmemAction::Requests
        } else {
            PmemAction::Unexpected
        }
    } else {
        PmemAction::Spurious
    }
}

/// How far the requests on the queue were dealt with.
#[derive(Clone, Copy, Debug, Eq, PartialEq, Structural)]
pub enum RequestStage {
    /// Takes the notification.
    ReadEvent,
    /// Deals with the requests.
    ProcessRequests,
    /// Interrupts the guest.
    Signal,
    Done,
}

/// The operation after one.
pub open spec fn request_next(stage: RequestStage, ok: bool) -> RequestStage {
    match stage {
        RequestStage::ReadEvent => if ok { RequestStage::ProcessRequests } else { RequestStage::Done },
        RequestStage::ProcessRequests => if ok { RequestStage::Signal } else { RequestStage::Done },
        RequestStage::Signal => RequestStage::Done,
        RequestStage::Done => RequestStage::Done,
    }
}

impl RequestStage {
    /// Begins to answer a notification; only one that something can be read is answered.
    pub fn handle_req_event(readable: bool) -> (stage: RequestStage)
        ensures
            stage == (if readable { RequestStage::ReadEvent } else { RequestStage::Done }),
    {
        if readable {
            RequestStage::ReadEvent
        } else {
            RequestStage::Done
        }
    }

    /// The operation after one; `ok` says whether the notification could be taken, or whether a
    /// request was answered.
    pub fn next(self, ok: bool) -> (stage: RequestStage)
        ensures
            stage == request_next(self, ok),
    {
        match self {
            RequestStage::ReadEvent => if ok { RequestStage::ProcessRequests } else { RequestStage::Done },
            RequestStage::ProcessRequests => if ok { RequestStage::Signal } else { RequestStage::Done },
            RequestStage::Signal => RequestStage::Done,
            RequestStage::Done => RequestStage::Done,
        }
    }
}

} // verus!
