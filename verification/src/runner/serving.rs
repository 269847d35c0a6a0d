//! What a runner does with the invocations that it receives, and what it signals
//! to the dispatcher.
use vstd::prelude::*;

use crate::service::process;
use crate::text;
use crate::wire;

verus! {

/// Where the runner's loop stands.
#[derive(Debug, Clone, Copy, PartialEq, Eq, Structural)]
pub enum ServerState {
    /// It waits for the next invocation.
    Receiving,
    /// It starts a task for an invocation.
    Starting,
    /// It signals a fatal error.
    Reporting,
    /// It has ended.
    Ended,
}

/// What happens in the runner's loop.
#[derive(Debug, Clone, Copy, PartialEq, Eq, Structural)]
pub enum ServerEvent {
    /// An invocation has been received.
    Received,
    /// The dispatcher has closed the control socket.
    Closed,
    /// The control socket could not be read.
    Unreadable,
    /// What was to be done has been done.
    Done,
}

impl ServerState {
    /// The state that an event leads to; `None` for one that cannot come.
    pub open spec fn after(self, event: ServerEvent) -> Option<ServerState> {
        match (self, event) {
            (ServerState::Receiving, ServerEvent::Received) => Some(ServerState::Starting),
            (ServerState::Receiving, ServerEvent::Closed) => Some(ServerState::Ended),
            (ServerState::Receiving, ServerEvent::Unreadable) => Some(ServerState::Reporting),
            (ServerState::Starting, ServerEvent::Done) => Some(ServerState::Receiving),
            (ServerState::Reporting, ServerEvent::Done) => Some(ServerState::Ended),
            _ => None,
        }
    }

    /// The byte that is signalled in a state, if any.
    pub open spec fn signalled(self) -> Option<u8> {
        if self == ServerState::Reporting {
            Some(wire::SIGNAL_ERROR)
        } else {
            None
        }
    }

    /// The next state of the runner's loop; `None` for an event that cannot come of
    /// what is done in the state.
    pub fn next(self, event: ServerEvent) -> (r: Option<ServerState>)
        ensures
            r == self.after(event),
    {
        match (self, event) {
            (ServerState::Receiving, ServerEvent::Received) => Some(ServerState::Starting),
            (ServerState::Receiving, ServerEvent::Closed) => Some(ServerState::Ended),
            (ServerState::Receiving, ServerEvent::Unreadable) => Some(ServerState::Reporting),
            (ServerState::Starting, ServerEvent::Done) => Some(ServerState::Receiving),
            (ServerState::Reporting, ServerEvent::Done) => Some(ServerState::Ended),
            _ => None,
        }
    }

    /// The byte to signal in a state, if any.
    pub fn signal(self) -> (r: Option<u8>)
        ensures
            r == self.signalled(),
    {
        match self {
            ServerState::Reporting => Some(wire::SIGNAL_ERROR),
            _ => None,
        }
    }
}

/// Where the task for an invocation stands.
#[derive(Debug, Clone, Copy, PartialEq, Eq, Structural)]
pub enum TaskState {
    /// The invocation is being created.
    Creating,
    /// It is being executed.
    Executing,
    /// Its completion is being signalled.
    Signalling,
    /// The task is over.
    Over,
}

impl TaskState {
    /// The state that follows one that went well or did not. An invocation that
    /// could not be created is not executed, but complete all the same.
    pub open spec fn after(self, well: bool) -> Option<TaskState> {
        match self {
            TaskState::Creating => Some(
                if well {
                    TaskState::Executing
                } else {
                    TaskState::Signalling
                },
            ),
            TaskState::Executing => Some(TaskState::Signalling),
            TaskState::Signalling => Some(TaskState::Over),
            TaskState::Over => None,
        }
    }

    /// The byte that is signalled in a state, if any.
    pub open spec fn signalled(self) -> Option<u8> {
        if self == TaskState::Signalling {
            Some(wire::SIGNAL_COMPLETE)
        } else {
            None
        }
    }

    /// The next state of a task; `None` when it is over.
    pub fn next(self, well: bool) -> (r: Option<TaskState>)
        ensures
            r == self.after(well),
    {
        match self {
            TaskState::Creating => if well {
                Some(TaskState::Executing)
            } else {
                Some(TaskState::Signalling)
            },
            TaskState::Executing => Some(TaskState::Signalling),
            TaskState::Signalling => Some(TaskState::Over),
            TaskState::Over => None,
        }
    }

    /// The byte to signal in a state, if any.
    pub fn signal(self) -> (r: Option<u8>)
        ensures
            r == self.signalled(),
    {
        match self {
            TaskState::Signalling => Some(wire::SIGNAL_COMPLETE),
            _ => None,
        }
    }
}

/// The bytes that are signalled in a state, none or one.
pub open spec fn signal_bytes(signal: Option<u8>) -> Seq<u8> {
    match signal {
        Some(b) => seq![b],
        None => Seq::empty(),
    }
}

/// The bytes that the runner's loop signals in the course of events.
pub open spec fn loop_signals(state: ServerState, events: Seq<ServerEvent>) -> Seq<u8>
    decreases events.len(),
{
    if events.len() == 0 {
        Seq::empty()
    } else {
        match state.after(events[0]) {
            Some(next) => signal_bytes(state.signalled()) + loop_signals(next, events.drop_first()),
            None => Seq::empty(),
        }
    }
}

/// Where events lead the runner's loop; `None` from the first on that cannot come.
pub open spec fn loop_after(state: ServerState, events: Seq<ServerEvent>) -> Option<ServerState>
    decreases events.len(),
{
    if events.len() == 0 {
        Some(state)
    } else {
        match state.after(events[0]) {
            Some(next) => loop_after(next, events.drop_first()),
            None => None,
        }
    }
}

/// The bytes that a task signals from a state on until it is over, given how the
/// creation and the execution of its invocation go.
pub open spec fn task_signals(state: TaskState, created: bool, executed: bool) -> Seq<u8>
    decreases state.steps_left(),
{
    let well = if state == TaskState::Creating {
        created
    } else {
        executed
    };
    match state.after(well) {
        Some(next) => signal_bytes(state.signalled()) + task_signals(next, created, executed),
        None => Seq::empty(),
    }
}

impl TaskState {
    /// How many steps there are at most until the task is over.
    pub open spec fn steps_left(self) -> nat {
        match self {
            TaskState::Creating => 3,
            TaskState::Executing => 2,
            TaskState::Signalling => 1,
            TaskState::Over => 0,
        }
    }
}

/// A task signals the completion of its invocation once and nothing else, also
/// where the invocation could not be created or failed.
pub proof fn law_task_signals_completion_once(created: bool, executed: bool)
    ensures
        task_signals(TaskState::Creating, created, executed) == seq![wire::SIGNAL_COMPLETE],
{
    reveal_with_fuel(task_signals, 5);
    assert(task_signals(TaskState::Signalling, created, executed) =~= seq![wire::SIGNAL_COMPLETE]);
    assert(task_signals(TaskState::Executing, created, executed) =~= seq![wire::SIGNAL_COMPLETE]);
    assert(task_signals(TaskState::Creating, created, executed) =~= seq![wire::SIGNAL_COMPLETE]);
}

/// Where the control socket turns out unreadable.
pub open spec fn meets_unreadable(events: Seq<ServerEvent>) -> bool {
    exists|i: int| 0 <= i < events.len() && #[trigger] events[i] == ServerEvent::Unreadable
}

/// A loop that has ended has signalled one fatal error if the control socket was
/// found unreadable, and otherwise nothing.
pub proof fn law_loop_signals_one_error(events: Seq<ServerEvent>)
    requires
        loop_after(ServerState::Receiving, events) == Some(ServerState::Ended),
    ensures
        loop_signals(ServerState::Receiving, events) == if meets_unreadable(events) {
            seq![wire::SIGNAL_ERROR]
        } else {
            Seq::empty()
        },
{
    lemma_loop_signals(ServerState::Receiving, events);
}

proof fn lemma_loop_signals(state: ServerState, events: Seq<ServerEvent>)
    requires
        loop_after(state, events) == Some(ServerState::Ended),
    ensures
        loop_signals(state, events) == if meets_unreadable(events) || state
            == ServerState::Reporting {
            seq![wire::SIGNAL_ERROR]
        } else {
            Seq::empty()
        },
        state == ServerState::Ended || state == ServerState::Reporting ==> !meets_unreadable(events),
    decreases events.len(),
{
    if events.len() > 0 {
        let next = state.after(events[0])->0;
        let more = events.drop_first();
        lemma_loop_signals(next, more);
        assert(meets_unreadable(events) <==> events[0] == ServerEvent::Unreadable
            || meets_unreadable(more)) by {
            if meets_unreadable(more) {
                let i = choose|i: int|
                    0 <= i < more.len() && #[trigger] more[i] == ServerEvent::Unreadable;
                assert(events[i + 1] == ServerEvent::Unreadable);
            }
            if meets_unreadable(events) {
                let i = choose|i: int|
                    0 <= i < events.len() && #[trigger] events[i] == ServerEvent::Unreadable;
                assert(i > 0 ==> more[i - 1] == events[i]);
            }
        }
        assert(loop_signals(state, events) =~= signal_bytes(state.signalled()) + loop_signals(
            next,
            more,
        ));
        assert(loop_signals(state, events) =~= if meets_unreadable(events) || state
            == ServerState::Reporting {
            seq![wire::SIGNAL_ERROR]
        } else {
            Seq::empty()
        });
    }
}

/// The completions of `n` invocations.
pub open spec fn all_complete(n: nat) -> Seq<u8> {
    Seq::new(n, |i: int| wire::SIGNAL_COMPLETE)
}

/// Once `n` tasks have signalled, the dispatcher counts `n` invocations less on the
/// process, and goes on with it.
pub proof fn law_dispatcher_counts_tasks_off(running: usize, n: nat)
    requires
        1 <= n <= running,
    ensures
        process::drained(running as nat, all_complete(n)) == (
            (running - n) as nat,
            process::DrainVerdict::Continue,
        ),
{
    let signals = all_complete(n);
    text::lemma_position(signals, wire::SIGNAL_ERROR);
    lemma_all_complete(n);
    process::law_completions_count_off(running, n);
}

proof fn lemma_all_complete(n: nat)
    ensures
        process::completions(all_complete(n)) == n,
    decreases n,
{
    if n > 0 {
        lemma_all_complete((n - 1) as nat);
        assert(all_complete(n).drop_last() =~= all_complete((n - 1) as nat));
    }
}

/// Each event can come where it is awaited and nowhere else.
pub proof fn law_when_server_events_can_come(state: ServerState)
    ensures
        state.after(ServerEvent::Received) is Some <==> state == ServerState::Receiving,
        state.after(ServerEvent::Closed) is Some <==> state == ServerState::Receiving,
        state.after(ServerEvent::Unreadable) is Some <==> state == ServerState::Receiving,
        state.after(ServerEvent::Done) is Some <==> state == ServerState::Starting || state
            == ServerState::Reporting,
{
}

/// A task is started exactly where an invocation has been received, and once it is,
/// the runner goes on as if it had just begun. It ends where the control socket is
/// closed, or once it has reported that it cannot be read.
pub proof fn law_every_invocation_is_started(state: ServerState, events: Seq<ServerEvent>)
    ensures
        state.after(ServerEvent::Received) is Some ==> state.after(ServerEvent::Received) == Some(
            ServerState::Starting,
        ),
        loop_after(
            ServerState::Receiving,
            seq![ServerEvent::Received, ServerEvent::Done] + events,
        ) == loop_after(ServerState::Receiving, events),
        loop_after(ServerState::Receiving, seq![ServerEvent::Closed] + events) == loop_after(
            ServerState::Ended,
            events,
        ),
        loop_after(
            ServerState::Receiving,
            seq![ServerEvent::Unreadable, ServerEvent::Done] + events,
        ) == loop_after(ServerState::Ended, events),
        events.len() > 0 ==> loop_after(ServerState::Ended, events) is None,
{
    reveal_with_fuel(loop_after, 3);
    let round = seq![ServerEvent::Received, ServerEvent::Done] + events;
    assert(round.drop_first().drop_first() =~= events);
    let closed = seq![ServerEvent::Closed] + events;
    assert(closed.drop_first() =~= events);
    let lost = seq![ServerEvent::Unreadable, ServerEvent::Done] + events;
    assert(lost.drop_first().drop_first() =~= events);
}

/// The runner's loop signals a byte of value one, and only where it reports; a task
/// signals a byte of value zero, and only where it signals completion.
pub proof fn law_what_is_signalled(server: ServerState, task: TaskState)
    ensures
        server.signalled() == Some(0x01u8) <==> server == ServerState::Reporting,
        server.signalled() is Some ==> server.signalled() == Some(0x01u8),
        task.signalled() == Some(0x00u8) <==> task == TaskState::Signalling,
        task.signalled() is Some ==> task.signalled() == Some(0x00u8),
{
}

/// An invocation is executed exactly where it could be created; after that, or
/// where it could not, its completion is signalled, and then the task is over.
pub proof fn law_course_of_a_task(created: bool, executed: bool, signalled: bool)
    ensures
        TaskState::Creating.after(created) == Some(TaskState::Executing) <==> created,
        TaskState::Creating.after(created) == Some(TaskState::Signalling) <==> !created,
        TaskState::Executing.after(executed) == Some(TaskState::Signalling),
        TaskState::Signalling.after(signalled) == Some(TaskState::Over),
        TaskState::Over.after(signalled) is None,
{
}

} // verus!
