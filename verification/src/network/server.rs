//! How the dispatcher goes about the connections that it accepts.
use vstd::prelude::*;
use vstd::string::*;

verus! {

/// How far a connection has got.
#[derive(Debug, Clone, Copy, PartialEq, Eq, Structural)]
pub enum Admission {
    /// It waits for a permit.
    Waiting,
    /// Its request is being parsed.
    Parsing,
    /// It is being handed to the orchestrator.
    Queueing,
    /// The client is being told that the limit is reached.
    Bouncing,
    /// It has been handed over.
    Accepted,
    /// It has been dropped.
    Dropped,
}

/// What came of a step with a connection.
#[derive(Debug, Clone, Copy, PartialEq, Eq, Structural)]
pub enum AdmissionEvent {
    /// There is a permit for it.
    Permitted,
    /// There are no permits any more.
    Refused,
    /// The step succeeded.
    Succeeded,
    /// The step failed.
    Failed,
}

impl Admission {
    /// Whether a permit is held for the connection.
    pub open spec fn holds_permit(self) -> bool {
        self == Admission::Parsing || self == Admission::Queueing
    }

    /// The state that an event leads to; `None` for one that cannot come.
    pub open spec fn after(self, event: AdmissionEvent) -> Option<Admission> {
        match (self, event) {
            (Admission::Waiting, AdmissionEvent::Permitted) => Some(Admission::Parsing),
            (Admission::Waiting, AdmissionEvent::Refused) => Some(Admission::Bouncing),
            (Admission::Parsing, AdmissionEvent::Succeeded) => Some(Admission::Queueing),
            (Admission::Parsing, AdmissionEvent::Failed) => Some(Admission::Dropped),
            (Admission::Queueing, AdmissionEvent::Succeeded) => Some(Admission::Accepted),
            (Admission::Queueing, AdmissionEvent::Failed) => Some(Admission::Dropped),
            (Admission::Bouncing, AdmissionEvent::Succeeded) => Some(Admission::Dropped),
            (Admission::Bouncing, AdmissionEvent::Failed) => Some(Admission::Dropped),
            _ => None,
        }
    }
}

/// Accepts connections.
pub struct Server;

impl Server {
    /// The next state of a connection; `None` for an event that cannot come of
    /// what is done in the state.
    pub fn handle_connection(state: Admission, event: AdmissionEvent) -> (r: Option<Admission>)
        ensures
            r == state.after(event),
    {
        match (state, event) {
            (Admission::Waiting, AdmissionEvent::Permitted) => Some(Admission::Parsing),
            (Admission::Waiting, AdmissionEvent::Refused) => Some(Admission::Bouncing),
            (Admission::Parsing, AdmissionEvent::Succeeded) => Some(Admission::Queueing),
            (Admission::Parsing, AdmissionEvent::Failed) => Some(Admission::Dropped),
            (Admission::Queueing, AdmissionEvent::Succeeded) => Some(Admission::Accepted),
            (Admission::Queueing, AdmissionEvent::Failed) => Some(Admission::Dropped),
            (Admission::Bouncing, AdmissionEvent::Succeeded) => Some(Admission::Dropped),
            (Admission::Bouncing, AdmissionEvent::Failed) => Some(Admission::Dropped),
            _ => None,
        }
    }

    /// What a client is told whose connection is not served.
    pub fn limit_reached() -> (message: String)
        ensures
            message@ == "server connection limit reached"@,
    {
        "server connection limit reached".to_owned()
    }
}

/// Only a connection that has been permitted and whose request was recognised is
/// handed over, and a client is turned away only for want of a permit. A permit is
/// held for a connection from when it is granted until the connection is done
/// with, and then for none.
pub proof fn law_admission(state: Admission, event: AdmissionEvent)
    ensures
        state.after(event) == Some(Admission::Accepted) ==> state == Admission::Queueing,
        state.after(event) == Some(Admission::Queueing) ==> state == Admission::Parsing && event
            == AdmissionEvent::Succeeded,
        state.after(event) == Some(Admission::Parsing) ==> event == AdmissionEvent::Permitted,
        state.after(event) == Some(Admission::Bouncing) ==> event == AdmissionEvent::Refused,
        state.after(event) matches Some(next) ==> {
            &&& !state.holds_permit() && next.holds_permit() <==> event
                == AdmissionEvent::Permitted
            &&& state.holds_permit() && !next.holds_permit() ==> next == Admission::Accepted || next
                == Admission::Dropped
        },
{
}

/// Where events lead with a connection; `None` from the first on that cannot come.
pub open spec fn admission_after(state: Admission, events: Seq<AdmissionEvent>) -> Option<Admission>
    decreases events.len(),
{
    if events.len() == 0 {
        Some(state)
    } else {
        match state.after(events[0]) {
            None => None,
            Some(next) => admission_after(next, events.drop_first()),
        }
    }
}

/// The courses that a connection can take. It is handed over exactly where it was
/// permitted and both its request was parsed and the handing over went well; it is
/// dropped exactly where one of these failed, or where it was not permitted, whether
/// the client could be told so or not.
pub proof fn law_courses_of_a_connection(events: Seq<AdmissionEvent>)
    ensures
        admission_after(Admission::Waiting, events) == Some(Admission::Accepted) <==> events =~= seq![
            AdmissionEvent::Permitted,
            AdmissionEvent::Succeeded,
            AdmissionEvent::Succeeded,
        ],
        admission_after(Admission::Waiting, events) == Some(Admission::Dropped) <==> {
            ||| events =~= seq![AdmissionEvent::Permitted, AdmissionEvent::Failed]
            ||| events =~= seq![
                AdmissionEvent::Permitted,
                AdmissionEvent::Succeeded,
                AdmissionEvent::Failed,
            ]
            ||| events =~= seq![AdmissionEvent::Refused, AdmissionEvent::Succeeded]
            ||| events =~= seq![AdmissionEvent::Refused, AdmissionEvent::Failed]
        },
        admission_after(Admission::Waiting, events) == Some(Admission::Bouncing) <==> events =~= seq![
            AdmissionEvent::Refused,
        ],
        admission_after(Admission::Waiting, events) == Some(Admission::Parsing) <==> events =~= seq![
            AdmissionEvent::Permitted,
        ],
        admission_after(Admission::Waiting, events) == Some(Admission::Queueing) <==> events =~= seq![
            AdmissionEvent::Permitted,
            AdmissionEvent::Succeeded,
        ],
{
    reveal_with_fuel(admission_after, 5);
}

} // verus!
