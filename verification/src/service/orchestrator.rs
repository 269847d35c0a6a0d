//! How the dispatcher goes about the requests that it has accepted.
use vstd::prelude::*;
use vstd::string::*;
use vstd::utf8::*;

use crate::network::http_connection;
use crate::network::http_connection::{HttpConnection, RequestKind};
use crate::runner::request;
use crate::text;
use crate::wasm::fetcher;

verus! {

/// What the orchestrator hears of next.
#[derive(Debug, Clone, Copy, PartialEq, Eq, Structural)]
pub enum Arrival {
    /// The dispatcher is shutting down.
    Cancelled,
    /// No request will come in any more.
    ChannelClosed,
    /// A request.
    Request(RequestKind),
}

/// What is in the orchestrator's queue of requests.
#[derive(Debug, Clone, Copy, PartialEq, Eq, Structural)]
pub enum Inbox {
    /// Nothing at present.
    Empty,
    /// Nothing, nor will anything come any more.
    Closed,
    /// A request, which is the oldest.
    Waiting(RequestKind),
}

/// What the orchestrator does next.
#[derive(Debug, Clone, Copy, PartialEq, Eq, Structural)]
pub enum Duty {
    Stop,
    HandleInvocation,
    HandleMetadata,
}

/// Where the orchestrator's loop stands.
#[derive(Debug, Clone, Copy, PartialEq, Eq, Structural)]
pub enum LoopState {
    /// It listens for what comes in.
    Listening,
    /// It handles a request.
    Busy(RequestKind),
    /// It has ended.
    Stopped,
}

/// What happens in the orchestrator's loop.
#[derive(Debug, Clone, Copy, PartialEq, Eq, Structural)]
pub enum LoopEvent {
    /// It has looked whether the dispatcher is shutting down, and into its queue.
    Looked { cancelled: bool, inbox: Inbox },
    /// A request has been handled, well or not.
    Handled { well: bool },
}

/// What the orchestrator hears of: that the dispatcher is shutting down goes
/// before anything that is in the queue.
pub open spec fn heard(cancelled: bool, inbox: Inbox) -> Option<Arrival> {
    if cancelled {
        Some(Arrival::Cancelled)
    } else {
        match inbox {
            Inbox::Empty => None,
            Inbox::Closed => Some(Arrival::ChannelClosed),
            Inbox::Waiting(kind) => Some(Arrival::Request(kind)),
        }
    }
}

/// What is to be done about what has come in.
pub open spec fn duty_of(arrival: Arrival) -> Duty {
    match arrival {
        Arrival::Cancelled => Duty::Stop,
        Arrival::ChannelClosed => Duty::Stop,
        Arrival::Request(RequestKind::Invocation) => Duty::HandleInvocation,
        Arrival::Request(RequestKind::Metadata) => Duty::HandleMetadata,
    }
}

impl LoopState {
    /// The state that an event leads to; `None` for one that cannot come.
    pub open spec fn after(self, event: LoopEvent) -> Option<LoopState> {
        match (self, event) {
            (LoopState::Listening, LoopEvent::Looked { cancelled, inbox }) => match heard(
                cancelled,
                inbox,
            ) {
                None => Some(LoopState::Listening),
                Some(arrival) => match duty_of(arrival) {
                    Duty::Stop => Some(LoopState::Stopped),
                    Duty::HandleInvocation => Some(LoopState::Busy(RequestKind::Invocation)),
                    Duty::HandleMetadata => Some(LoopState::Busy(RequestKind::Metadata)),
                },
            },
            (LoopState::Busy(_), LoopEvent::Handled { .. }) => Some(LoopState::Listening),
            _ => None,
        }
    }
}

/// The loop ends here: the dispatcher is shutting down, or the queue is closed.
pub open spec fn ends_loop(event: LoopEvent) -> bool {
    event matches LoopEvent::Looked { cancelled, inbox } && (cancelled || inbox == Inbox::Closed)
}

/// Where events lead; `None` from the first on that cannot come.
pub open spec fn loop_after(state: LoopState, events: Seq<LoopEvent>) -> Option<LoopState>
    decreases events.len(),
{
    if events.len() == 0 {
        Some(state)
    } else {
        match state.after(events[0]) {
            None => None,
            Some(next) => loop_after(next, events.drop_first()),
        }
    }
}

/// The requests that are taken up in the course of events, in their order.
pub open spec fn taken_up(state: LoopState, events: Seq<LoopEvent>) -> Seq<RequestKind>
    decreases events.len(),
{
    if events.len() == 0 {
        Seq::empty()
    } else {
        match state.after(events[0]) {
            None => Seq::empty(),
            Some(next) => {
                let rest = taken_up(next, events.drop_first());
                match next {
                    LoopState::Busy(kind) => seq![kind] + rest,
                    _ => rest,
                }
            },
        }
    }
}

/// The requests that are found in the queue in the course of events.
pub open spec fn found(events: Seq<LoopEvent>) -> Seq<RequestKind>
    decreases events.len(),
{
    if events.len() == 0 {
        Seq::empty()
    } else {
        let rest = found(events.drop_first());
        match events[0] {
            LoopEvent::Looked { inbox: Inbox::Waiting(kind), .. } => seq![kind] + rest,
            _ => rest,
        }
    }
}

/// How far the handling of an invocation has got.
#[derive(Debug, Clone, Copy, PartialEq, Eq, Structural)]
pub enum Handling {
    /// The module is being fetched.
    Fetching,
    /// The client is being told that there is no such service.
    Answering,
    /// The connection is being turned into a descriptor.
    Detaching,
    /// A process is being chosen.
    Scheduling,
    /// A process is being spawned.
    Spawning,
    /// The invocation is being handed to a process that is at hand.
    Sending,
    /// The invocation is being handed to a process that was spawned for it.
    SendingFirst,
    /// The descriptor is being closed.
    Closing,
    /// The process that was spawned is being adopted.
    Adopting,
    /// The request has been handled.
    Done,
    /// The request could not be handled.
    Failed,
}

/// What came of a step in handling an invocation.
#[derive(Debug, Clone, Copy, PartialEq, Eq, Structural)]
pub enum HandlingEvent {
    /// The module has been fetched.
    Found,
    /// There is no such module.
    NotFound,
    /// The descriptor is at hand.
    Detached,
    /// A process at hand has been chosen.
    Placed,
    /// A process is to be spawned.
    MustSpawn,
    /// There is no process to take the invocation.
    NoRoom,
    /// A process has been spawned.
    Spawned,
    /// What was to be sent has been sent.
    Sent,
    /// The descriptor has been closed.
    Closed,
    /// The process has been adopted.
    Adopted,
    /// What was attempted has failed.
    Error,
}

impl Handling {
    /// Whether the dispatcher answers for the descriptor of the connection.
    pub open spec fn owns_descriptor(self) -> bool {
        match self {
            Handling::Scheduling
            | Handling::Spawning
            | Handling::Sending
            | Handling::SendingFirst
            | Handling::Closing => true,
            _ => false,
        }
    }

    pub open spec fn ended(self) -> bool {
        self == Handling::Done || self == Handling::Failed
    }

    /// How many steps there are at most to the end.
    pub open spec fn steps_left(self) -> nat {
        match self {
            Handling::Fetching => 6,
            Handling::Detaching => 5,
            Handling::Scheduling => 4,
            Handling::Spawning => 3,
            Handling::Sending | Handling::SendingFirst => 2,
            Handling::Answering | Handling::Closing | Handling::Adopting => 1,
            Handling::Done | Handling::Failed => 0,
        }
    }

    /// The state that an event leads to; `None` for one that cannot come.
    pub open spec fn after(self, event: HandlingEvent) -> Option<Handling> {
        match (self, event) {
            (Handling::Fetching, HandlingEvent::Found) => Some(Handling::Detaching),
            (Handling::Fetching, HandlingEvent::NotFound) => Some(Handling::Answering),
            (Handling::Fetching, HandlingEvent::Error) => Some(Handling::Failed),
            (Handling::Answering, HandlingEvent::Sent) => Some(Handling::Done),
            (Handling::Answering, HandlingEvent::Error) => Some(Handling::Failed),
            (Handling::Detaching, HandlingEvent::Detached) => Some(Handling::Scheduling),
            (Handling::Detaching, HandlingEvent::Error) => Some(Handling::Failed),
            (Handling::Scheduling, HandlingEvent::Placed) => Some(Handling::Sending),
            (Handling::Scheduling, HandlingEvent::MustSpawn) => Some(Handling::Spawning),
            (Handling::Scheduling, HandlingEvent::NoRoom) => Some(Handling::Closing),
            (Handling::Spawning, HandlingEvent::Spawned) => Some(Handling::SendingFirst),
            (Handling::Spawning, HandlingEvent::Error) => Some(Handling::Closing),
            (Handling::Sending, HandlingEvent::Sent) => Some(Handling::Done),
            (Handling::Sending, HandlingEvent::Error) => Some(Handling::Closing),
            (Handling::SendingFirst, HandlingEvent::Sent) => Some(Handling::Adopting),
            (Handling::SendingFirst, HandlingEvent::Error) => Some(Handling::Closing),
            (Handling::Adopting, HandlingEvent::Adopted) => Some(Handling::Done),
            (Handling::Closing, HandlingEvent::Closed) => Some(Handling::Failed),
            _ => None,
        }
    }
}

/// The answer to a request for a service that there is none of.
pub open spec fn not_found_answer() -> Seq<char> {
    "HTTP/1.1 404 Not Found\r\nContent-Length: 0\r\n\r\n"@
}

/// Receives requests and dispatches invocations.
pub struct Orchestrator;

impl Orchestrator {
    /// What the orchestrator hears of, if anything.
    pub fn listen(cancelled: bool, inbox: Inbox) -> (r: Option<Arrival>)
        ensures
            r == heard(cancelled, inbox),
    {
        if cancelled {
            return Some(Arrival::Cancelled);
        }
        match inbox {
            Inbox::Empty => None,
            Inbox::Closed => Some(Arrival::ChannelClosed),
            Inbox::Waiting(kind) => Some(Arrival::Request(kind)),
        }
    }

    /// What is to be done about what has come in.
    pub fn duty(arrival: Arrival) -> (duty: Duty)
        ensures
            duty == duty_of(arrival),
    {
        match arrival {
            Arrival::Cancelled => Duty::Stop,
            Arrival::ChannelClosed => Duty::Stop,
            Arrival::Request(RequestKind::Invocation) => Duty::HandleInvocation,
            Arrival::Request(RequestKind::Metadata) => Duty::HandleMetadata,
        }
    }

    /// The next state of the orchestrator's loop; `None` for an event that cannot
    /// come in the state.
    pub fn run(state: LoopState, event: LoopEvent) -> (r: Option<LoopState>)
        ensures
            r == state.after(event),
    {
        match (state, event) {
            (LoopState::Listening, LoopEvent::Looked { cancelled, inbox }) => {
                match Self::listen(cancelled, inbox) {
                    None => Some(LoopState::Listening),
                    Some(arrival) => match Self::duty(arrival) {
                        Duty::Stop => Some(LoopState::Stopped),
                        Duty::HandleInvocation => Some(LoopState::Busy(RequestKind::Invocation)),
                        Duty::HandleMetadata => Some(LoopState::Busy(RequestKind::Metadata)),
                    },
                }
            },
            (LoopState::Busy(_), LoopEvent::Handled { .. }) => Some(LoopState::Listening),
            _ => None,
        }
    }

    /// The id of the service that a request is for.
    pub fn service_id(connection: &HttpConnection) -> (id: String)
        ensures
            id@ == fetcher::module_name(connection@.version, connection@.service),
    {
        fetcher::service_id(connection.version.as_str(), connection.service.as_str())
    }

    /// The answer to a request for a service that there is none of.
    pub fn not_found() -> (answer: String)
        ensures
            answer@ == not_found_answer(),
    {
        "HTTP/1.1 404 Not Found\r\nContent-Length: 0\r\n\r\n".to_owned()
    }

    /// The next state in handling an invocation; `None` for an event that cannot
    /// come of what is done in the state.
    pub fn handle_invocation(state: Handling, event: HandlingEvent) -> (r: Option<Handling>)
        ensures
            r == state.after(event),
    {
        match (state, event) {
            (Handling::Fetching, HandlingEvent::Found) => Some(Handling::Detaching),
            (Handling::Fetching, HandlingEvent::NotFound) => Some(Handling::Answering),
            (Handling::Fetching, HandlingEvent::Error) => Some(Handling::Failed),
            (Handling::Answering, HandlingEvent::Sent) => Some(Handling::Done),
            (Handling::Answering, HandlingEvent::Error) => Some(Handling::Failed),
            (Handling::Detaching, HandlingEvent::Detached) => Some(Handling::Scheduling),
            (Handling::Detaching, HandlingEvent::Error) => Some(Handling::Failed),
            (Handling::Scheduling, HandlingEvent::Placed) => Some(Handling::Sending),
            (Handling::Scheduling, HandlingEvent::MustSpawn) => Some(Handling::Spawning),
            (Handling::Scheduling, HandlingEvent::NoRoom) => Some(Handling::Closing),
            (Handling::Spawning, HandlingEvent::Spawned) => Some(Handling::SendingFirst),
            (Handling::Spawning, HandlingEvent::Error) => Some(Handling::Closing),
            (Handling::Sending, HandlingEvent::Sent) => Some(Handling::Done),
            (Handling::Sending, HandlingEvent::Error) => Some(Handling::Closing),
            (Handling::SendingFirst, HandlingEvent::Sent) => Some(Handling::Adopting),
            (Handling::SendingFirst, HandlingEvent::Error) => Some(Handling::Closing),
            (Handling::Adopting, HandlingEvent::Adopted) => Some(Handling::Done),
            (Handling::Closing, HandlingEvent::Closed) => Some(Handling::Failed),
            _ => None,
        }
    }
}

/// The loop ends only where the dispatcher is shutting down or the queue is closed,
/// and always does where it is shutting down, whatever is in the queue. How a
/// request was handled makes no difference to it.
pub proof fn law_what_ends_the_loop(state: LoopState, event: LoopEvent, inbox: Inbox, well: bool)
    ensures
        state.after(event) == Some(LoopState::Stopped) <==> state == LoopState::Listening
            && ends_loop(event),
        LoopState::Listening.after(LoopEvent::Looked { cancelled: true, inbox }) == Some(
            LoopState::Stopped,
        ),
        state is Busy ==> state.after(LoopEvent::Handled { well }) == Some(LoopState::Listening),
        LoopState::Stopped.after(event) is None,
{
}

/// As long as nothing ends the loop, every request that is found in the queue is
/// taken up, one at a time and in the order of the queue, whether those before it
/// were handled well or not.
pub proof fn law_requests_taken_up_in_order(state: LoopState, events: Seq<LoopEvent>)
    requires
        loop_after(state, events) is Some,
        forall|i: int| 0 <= i < events.len() ==> !ends_loop(#[trigger] events[i]),
    ensures
        taken_up(state, events) == found(events),
    decreases events.len(),
{
    if events.len() > 0 {
        let next = state.after(events[0])->0;
        let more = events.drop_first();
        assert(!ends_loop(events[0]));
        assert forall|i: int| 0 <= i < more.len() implies !ends_loop(#[trigger] more[i]) by {
            assert(more[i] == events[i + 1]);
        }
        law_requests_taken_up_in_order(next, more);
    }
}

/// A descriptor that the dispatcher answers for is handed to a runner or closed,
/// and nothing else happens to it; every step leads nearer to the end.
pub proof fn law_descriptor_is_accounted_for(state: Handling, event: HandlingEvent)
    requires
        state.after(event) is Some,
    ensures
        ({
            let next = state.after(event)->0;
            &&& state.owns_descriptor() && !next.owns_descriptor() ==> event == HandlingEvent::Sent
                || event == HandlingEvent::Closed
            &&& state.owns_descriptor() && next == Handling::Failed ==> event
                == HandlingEvent::Closed
            &&& !state.owns_descriptor() && next.owns_descriptor() ==> event
                == HandlingEvent::Detached
            &&& next.steps_left() < state.steps_left()
        }),
{
}

/// The id of the service that an invocation is for is the beginning of its path,
/// up to the route; and neither the version nor the service holds a slash.
pub proof fn law_service_id_begins_path(path: Seq<char>)
    requires
        http_connection::path_segments(path) is Ok,
    ensures
        ({
            let (version, service, route) = http_connection::path_segments(path)->Ok_0;
            &&& path == fetcher::module_name(version, service) + "/"@ + route
            &&& !version.contains('/')
            &&& !service.contains('/')
        }),
{
    reveal_strlit("/");
    text::lemma_position(path, '/');
    let i = text::position(path, '/')->0;
    let rest = path.skip(i + 1);
    text::lemma_position(rest, '/');
    let j = text::position(rest, '/')->0;
    let (version, service, route) = http_connection::path_segments(path)->Ok_0;
    assert(path =~= fetcher::module_name(version, service) + "/"@ + route);
}

/// What is heard. Nothing is heard only where the dispatcher is not shutting down
/// and the queue is empty; a request is heard where it waits and the dispatcher is
/// not shutting down, and it is the one that waits. Only a request gives the
/// orchestrator something to handle, and each kind is handled as what it is.
pub proof fn law_what_is_heard(cancelled: bool, inbox: Inbox, kind: RequestKind)
    ensures
        heard(cancelled, inbox) is None <==> !cancelled && inbox == Inbox::Empty,
        heard(cancelled, inbox) == Some(Arrival::Request(kind)) <==> !cancelled && inbox
            == Inbox::Waiting(kind),
        heard(cancelled, inbox) == Some(Arrival::ChannelClosed) <==> !cancelled && inbox
            == Inbox::Closed,
        heard(cancelled, inbox) is Some ==> (duty_of(heard(cancelled, inbox)->0) == Duty::Stop
            <==> cancelled || inbox == Inbox::Closed),
        duty_of(Arrival::Request(kind)) == Duty::HandleInvocation <==> kind
            == RequestKind::Invocation,
        duty_of(Arrival::Request(kind)) == Duty::HandleMetadata <==> kind == RequestKind::Metadata,
{
}

/// The loop goes on: while it listens it takes whatever it finds, and it listens on
/// where it finds nothing; a request that waits makes it busy with that request;
/// and while it is busy it takes no other.
pub proof fn law_loop_goes_on(cancelled: bool, inbox: Inbox, kind: RequestKind, well: bool)
    ensures
        LoopState::Listening.after(LoopEvent::Looked { cancelled, inbox }) is Some,
        LoopState::Listening.after(LoopEvent::Looked { cancelled, inbox }) == Some(
            LoopState::Listening,
        ) <==> !cancelled && inbox == Inbox::Empty,
        LoopState::Listening.after(LoopEvent::Looked { cancelled, inbox }) == Some(
            LoopState::Busy(kind),
        ) <==> !cancelled && inbox == Inbox::Waiting(kind),
        LoopState::Busy(kind).after(LoopEvent::Looked { cancelled, inbox }) is None,
        LoopState::Listening.after(LoopEvent::Handled { well }) is None,
{
}

/// Where events lead in handling an invocation; `None` from the first on that
/// cannot come.
pub open spec fn handling_after(state: Handling, events: Seq<HandlingEvent>) -> Option<Handling>
    decreases events.len(),
{
    if events.len() == 0 {
        Some(state)
    } else {
        match state.after(events[0]) {
            None => None,
            Some(next) => handling_after(next, events.drop_first()),
        }
    }
}

/// Each event can come where it is awaited and nowhere else, and whatever may fail
/// may fail.
pub proof fn law_when_events_can_come(state: Handling)
    ensures
        state.after(HandlingEvent::Found) is Some <==> state == Handling::Fetching,
        state.after(HandlingEvent::NotFound) is Some <==> state == Handling::Fetching,
        state.after(HandlingEvent::Detached) is Some <==> state == Handling::Detaching,
        state.after(HandlingEvent::Placed) is Some <==> state == Handling::Scheduling,
        state.after(HandlingEvent::MustSpawn) is Some <==> state == Handling::Scheduling,
        state.after(HandlingEvent::NoRoom) is Some <==> state == Handling::Scheduling,
        state.after(HandlingEvent::Spawned) is Some <==> state == Handling::Spawning,
        state.after(HandlingEvent::Sent) is Some <==> state == Handling::Answering || state
            == Handling::Sending || state == Handling::SendingFirst,
        state.after(HandlingEvent::Closed) is Some <==> state == Handling::Closing,
        state.after(HandlingEvent::Adopted) is Some <==> state == Handling::Adopting,
        state.after(HandlingEvent::Error) is Some <==> state == Handling::Fetching || state
            == Handling::Answering || state == Handling::Detaching || state == Handling::Spawning
            || state == Handling::Sending || state == Handling::SendingFirst,
{
}

/// A failure makes the dispatcher close the descriptor where it answers for it, and
/// ends the handling where it does not. The descriptor is closed only after a
/// failure or where there is no room: never after a process has been chosen, spawned
/// or handed the invocation.
pub proof fn law_closing_follows_failure(state: Handling, event: HandlingEvent)
    requires
        state.after(event) is Some,
    ensures
        state.after(event) == Some(Handling::Closing) <==> event == HandlingEvent::NoRoom || (event
            == HandlingEvent::Error && (state == Handling::Spawning || state == Handling::Sending
            || state == Handling::SendingFirst)),
        state.after(event) == Some(Handling::Failed) <==> event == HandlingEvent::Closed || (event
            == HandlingEvent::Error && (state == Handling::Fetching || state == Handling::Answering
            || state == Handling::Detaching)),
{
}

/// A request that is handled to its end is handled well exactly where nothing
/// failed and there was room. Handled well, the invocation went to a runner after
/// the module was found, or the client was told that there is none such; where the
/// runner was spawned for it, it was adopted as well. Handled badly, a descriptor
/// that had been taken over has been closed, as the last thing.
pub proof fn law_outcome_of_handling(events: Seq<HandlingEvent>)
    requires
        handling_after(Handling::Fetching, events) is Some,
        (handling_after(Handling::Fetching, events)->0).ended(),
    ensures
        ({
            let end = handling_after(Handling::Fetching, events)->0;
            let went_wrong = events.contains(HandlingEvent::Error) || events.contains(
                HandlingEvent::NoRoom,
            );
            &&& end == Handling::Done <==> !went_wrong
            &&& events.contains(HandlingEvent::Closed) <==> went_wrong && events.contains(
                HandlingEvent::Detached,
            )
            &&& events.contains(HandlingEvent::Closed) ==> events.last() == HandlingEvent::Closed
            &&& !went_wrong ==> events.contains(HandlingEvent::Sent)
            &&& !went_wrong ==> (events.contains(HandlingEvent::NotFound) <==> !events.contains(
                HandlingEvent::Detached,
            ))
            &&& !went_wrong && events.contains(HandlingEvent::Detached) ==> (events.contains(
                HandlingEvent::Placed,
            ) <==> !events.contains(HandlingEvent::MustSpawn))
            &&& !went_wrong ==> (events.contains(HandlingEvent::MustSpawn) <==> events.contains(
                HandlingEvent::Adopted,
            ))
            &&& events.contains(HandlingEvent::Adopted) ==> events.contains(HandlingEvent::Spawned)
                && events.contains(HandlingEvent::Sent)
        }),
{
    law_courses_of_handling(events);
    let end = handling_after(Handling::Fetching, events)->0;
    assert(events.len() > 0 && events.len() <= 6);
    assert forall|e: HandlingEvent| #[trigger] events.contains(e) <==> (events[0] == e || (
    events.len() > 1 && events[1] == e) || (events.len() > 2 && events[2] == e) || (events.len() > 3
        && events[3] == e) || (events.len() > 4 && events[4] == e) || (events.len() > 5
        && events[5] == e)) by {
        if events.contains(e) {
            let i = choose|i: int| 0 <= i < events.len() && events[i] == e;
            assert(events[i] == e);
        }
    }
}

/// The courses that the handling of an invocation can take, from the fetching of
/// the module to the end.
pub proof fn law_courses_of_handling(events: Seq<HandlingEvent>)
    ensures
        handling_after(Handling::Fetching, events) == Some(Handling::Done) <==> {
            ||| events =~= seq![HandlingEvent::NotFound, HandlingEvent::Sent]
            ||| events =~= seq![
                HandlingEvent::Found,
                HandlingEvent::Detached,
                HandlingEvent::Placed,
                HandlingEvent::Sent,
            ]
            ||| events =~= seq![
                HandlingEvent::Found,
                HandlingEvent::Detached,
                HandlingEvent::MustSpawn,
                HandlingEvent::Spawned,
                HandlingEvent::Sent,
                HandlingEvent::Adopted,
            ]
        },
        handling_after(Handling::Fetching, events) == Some(Handling::Failed) <==> {
            ||| events =~= seq![HandlingEvent::Error]
            ||| events =~= seq![HandlingEvent::NotFound, HandlingEvent::Error]
            ||| events =~= seq![HandlingEvent::Found, HandlingEvent::Error]
            ||| events =~= seq![
                HandlingEvent::Found,
                HandlingEvent::Detached,
                HandlingEvent::NoRoom,
                HandlingEvent::Closed,
            ]
            ||| events =~= seq![
                HandlingEvent::Found,
                HandlingEvent::Detached,
                HandlingEvent::Placed,
                HandlingEvent::Error,
                HandlingEvent::Closed,
            ]
            ||| events =~= seq![
                HandlingEvent::Found,
                HandlingEvent::Detached,
                HandlingEvent::MustSpawn,
                HandlingEvent::Error,
                HandlingEvent::Closed,
            ]
            ||| events =~= seq![
                HandlingEvent::Found,
                HandlingEvent::Detached,
                HandlingEvent::MustSpawn,
                HandlingEvent::Spawned,
                HandlingEvent::Error,
                HandlingEvent::Closed,
            ]
        },
{
    reveal_with_fuel(handling_after, 8);
}

/// A client that asks for a service that there is none of reads status 404 and a
/// body of no bytes, and that is all that it is sent.
pub proof fn law_not_found_is_read_as_such()
    ensures
        "HTTP/1.1 404 Not Found\r\n"@.is_prefix_of(not_found_answer()),
        ({
            let bytes = encode_utf8(not_found_answer());
            let end = bytes.len() - 4;
            &&& http_connection::header_end(bytes) == Some(end)
            &&& request::headers_length(decode_utf8(bytes.take(end))) == Some(0nat)
        }),
{
    reveal_strlit("HTTP/1.1 404 Not Found\r\n");
    reveal_strlit("HTTP/1.1 404 Not Found\r\nContent-Length: 0\r\n\r\n");
    reveal_strlit("HTTP/1.1 404 Not Found\r\nContent-Length: 0");
    let answer = not_found_answer();
    let head = "HTTP/1.1 404 Not Found\r\nContent-Length: 0"@;
    assert(answer.take(24) =~= "HTTP/1.1 404 Not Found\r\n"@);
    assert(is_ascii_chars(answer));
    is_ascii_chars_encode_utf8(answer);
    let bytes = encode_utf8(answer);
    assert(bytes.len() == 45);
    assert forall|i: int| 0 <= i < 45 implies #[trigger] bytes[i] == answer[i] as u8 by {}
    assert(http_connection::terminator_at(bytes, 41)) by {
        assert(answer[41] == '\r' && answer[42] == '\n' && answer[43] == '\r' && answer[44] == '\n');
    }
    assert forall|k: int| 0 <= k < 41 implies !http_connection::terminator_at(bytes, k) by {
        if http_connection::terminator_at(bytes, k) {
            assert(bytes[k + 2] == answer[k + 2] as u8);
            assert(bytes[k] == answer[k] as u8);
            assert(answer[k] == '\r' && answer[k + 2] == '\r');
        }
    }
    http_connection::lemma_header_end(bytes);
    assert(answer.take(41) =~= head);
    assert(bytes.take(41) =~= encode_utf8(head)) by {
        assert(is_ascii_chars(head));
        is_ascii_chars_encode_utf8(head);
    }
    encode_utf8_decode_utf8(head);
    lemma_not_found_head();
}

proof fn lemma_not_found_head()
    ensures
        request::headers_length("HTTP/1.1 404 Not Found\r\nContent-Length: 0"@) == Some(0nat),
{
    reveal_strlit("HTTP/1.1 404 Not Found\r\nContent-Length: 0");
    reveal_strlit("HTTP/1.1 404 Not Found\r");
    reveal_strlit("Content-Length");
    reveal_strlit("content-length");
    reveal_strlit("CONTENT-LENGTH");
    reveal_strlit("0123456789");
    let head = "HTTP/1.1 404 Not Found\r\nContent-Length: 0"@;
    let status = "HTTP/1.1 404 Not Found\r"@;
    let key = "Content-Length"@;
    let none = Seq::<char>::empty();
    let line = request::header_line(key, seq!['0'], (none, none, seq![' '], none));
    assert(head =~= status + seq!['\n'] + line);
    request::law_line_without_colon(status, line);
    assert(seq!["0123456789"@[0]] =~= seq!['0']);
    text::law_numeral(none, '0', 0);
    assert(request::is_length_name(key));
    request::law_length_is_announced(key, seq!['0'], (none, none, seq![' '], none), none);
}

} // verus!
