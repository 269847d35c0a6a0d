//! A runner process as the dispatcher knows it: what runs on it, which modules
//! it holds, and how invocations are handed to it and reported back.
use std::collections::VecDeque;

use vstd::prelude::*;
use vstd::slice::slice_to_vec;
use vstd::string::*;
use vstd::utf8::*;

use crate::module_queue;
use crate::text;
use crate::wire;

verus! {

/// A command to a running process, sent over its control socket.
#[derive(Debug)]
pub enum ControlMessage {
    /// Invoke a service with the given module. The descriptor is that of the
    /// HTTP connection that originated the request; it is passed along.
    Invocation { service_id: String, wasm_bytes: Vec<u8>, tcp_fd: i32 },
}

impl ControlMessage {
    pub open spec fn id(&self) -> Seq<char> {
        self->service_id@
    }

    pub open spec fn wasm(&self) -> Seq<u8> {
        self->wasm_bytes@
    }

    /// The first four bytes of the message, which carry the descriptor.
    pub fn header(&self) -> (bytes: Vec<u8>)
        ensures
            bytes@ == wire::frame_header(self.id()),
    {
        match self {
            ControlMessage::Invocation { service_id, .. } => {
                let id_len = service_id.as_str().as_bytes().len();
                wire::encode_le(id_len as u64, 4)
            },
        }
    }

    /// The bytes of the service id.
    pub fn id_bytes(&self) -> (bytes: Vec<u8>)
        ensures
            bytes@ == encode_utf8(self.id()),
    {
        match self {
            ControlMessage::Invocation { service_id, .. } => slice_to_vec(
                service_id.as_str().as_bytes(),
            ),
        }
    }

    /// The length of the module, in eight bytes.
    pub fn wasm_len_bytes(&self) -> (bytes: Vec<u8>)
        ensures
            bytes@ == wire::frame_wasm_len(self.wasm()),
    {
        match self {
            ControlMessage::Invocation { wasm_bytes, .. } => wire::encode_le(
                wasm_bytes.len() as u64,
                8,
            ),
        }
    }
}

/// What is known of a process.
pub struct ProcessState {
    pub pid: i32,
    pub control_fd: i32,
    pub modules: Seq<Seq<char>>,
    pub max_loaded_modules: nat,
    pub max_invocation_capacity: nat,
    pub running: nat,
}

impl ProcessState {
    pub open spec fn has_capacity(self) -> bool {
        self.running < self.max_invocation_capacity
    }

    pub open spec fn has_loaded(self, service_id: Seq<char>) -> bool {
        self.modules.contains(service_id)
    }

    /// The process runs no more than its capacity, and holds no more modules than
    /// allowed and none twice.
    pub open spec fn in_order(self) -> bool {
        &&& self.running <= self.max_invocation_capacity <= usize::MAX
        &&& module_queue::distinct(self.modules)
        &&& self.modules.len() <= self.max_loaded_modules
    }

    /// The process after an invocation of a service has been assigned to it.
    pub open spec fn assigned(self, service_id: Seq<char>) -> ProcessState {
        ProcessState {
            running: counted_up(self.running),
            modules: module_queue::after_use(self.modules, self.max_loaded_modules, service_id),
            ..self
        }
    }
}

/// Assigning an invocation to a process that has capacity keeps it in order.
pub proof fn lemma_assigned_in_order(process: ProcessState, service_id: Seq<char>)
    requires
        process.in_order(),
    ensures
        process.has_capacity() ==> process.assigned(service_id).in_order(),
{
    module_queue::law_after_use(process.modules, process.max_loaded_modules, service_id);
    module_queue::law_queue_bounded(process.modules, process.max_loaded_modules, service_id);
}

/// A counter of machine size after one more; it wraps around.
pub open spec fn counted_up(running: nat) -> nat {
    if running == usize::MAX {
        0
    } else {
        running + 1
    }
}

/// A counter of machine size after `n` less; it wraps around.
pub open spec fn counted_down(running: nat, n: nat) -> nat {
    ((running - n) % (usize::MAX + 1)) as nat
}

/// A running unix process.
pub struct Process {
    /// PID of the process.
    pub pid: i32,
    /// The descriptor of the unix socket used to communicate with the process.
    pub control_fd: i32,
    /// A bounded FIFO queue of the services whose modules are warm.
    loaded_modules: VecDeque<String>,
    /// The maximum number of modules on this process.
    max_loaded_modules: usize,
    /// The maximum number of invocations allowed on this process.
    pub max_invocation_capacity: usize,
    /// The number of invocations that are running.
    running_invocations: usize,
}

impl View for Process {
    type V = ProcessState;

    closed spec fn view(&self) -> ProcessState {
        ProcessState {
            pid: self.pid,
            control_fd: self.control_fd,
            modules: module_queue::names(self.loaded_modules@),
            max_loaded_modules: self.max_loaded_modules as nat,
            max_invocation_capacity: self.max_invocation_capacity as nat,
            running: self.running_invocations as nat,
        }
    }
}

impl Process {
    /// The record of a runner that has just been spawned: nothing runs on it and
    /// no module is loaded.
    pub fn run(
        pid: i32,
        control_fd: i32,
        max_invocation_capacity: usize,
        max_loaded_modules: usize,
    ) -> (process: Self)
        ensures
            process@ == (ProcessState {
                pid,
                control_fd,
                modules: Seq::empty(),
                max_loaded_modules: max_loaded_modules as nat,
                max_invocation_capacity: max_invocation_capacity as nat,
                running: 0,
            }),
    {
        let process = Process {
            pid,
            control_fd,
            loaded_modules: VecDeque::new(),
            max_loaded_modules,
            max_invocation_capacity,
            running_invocations: 0,
        };
        assert(process@.modules =~= Seq::empty());
        process
    }

    /// The counts that are kept of a process fit in the machine.
    pub proof fn law_counts_fit(&self)
        ensures
            self@.running <= usize::MAX,
            self@.max_invocation_capacity <= usize::MAX,
            self@.max_loaded_modules <= usize::MAX,
    {
    }

    /// Whether another invocation may be assigned to the process.
    pub fn has_capacity(&self) -> (r: bool)
        ensures
            r == self@.has_capacity(),
    {
        self.running_invocations < self.max_invocation_capacity
    }

    /// The number of invocations that are running.
    pub fn running_invocations(&self) -> (n: usize)
        ensures
            n == self@.running,
    {
        self.running_invocations
    }

    /// Counts one more running invocation.
    pub fn increment_invocations(&mut self)
        ensures
            final(self)@ == (ProcessState { running: counted_up(old(self)@.running), ..old(self)@ }),
    {
        self.running_invocations = self.running_invocations.wrapping_add(1);
    }

    /// Takes over the number of running invocations from the counter that is
    /// shared with the thread that hears from the runner.
    pub fn observe_running(&mut self, running: usize)
        ensures
            final(self)@ == (ProcessState { running: running as nat, ..old(self)@ }),
    {
        self.running_invocations = running;
    }

    /// Whether the module of a service is loaded on the process.
    pub fn has_runtime_loaded(&self, service_id: &str) -> (r: bool)
        ensures
            r == self@.has_loaded(service_id@),
    {
        proof {
            text::lemma_position(self@.modules, service_id@);
        }
        match module_queue::find(&self.loaded_modules, service_id) {
            Some(i) => {
                assert(self@.modules[i as int] == service_id@);
                true
            },
            None => false,
        }
    }

    /// Tracks a module as loaded on this process. If the module is already
    /// present it is moved to the back (most recent). When the queue is full the
    /// oldest entry is evicted first. Where no module may be loaded none is
    /// tracked.
    pub fn track_module(&mut self, service_id: String)
        ensures
            final(self)@ == (ProcessState {
                modules: module_queue::after_use(
                    old(self)@.modules,
                    old(self)@.max_loaded_modules,
                    service_id@,
                ),
                ..old(self)@
            }),
    {
        module_queue::track(&mut self.loaded_modules, self.max_loaded_modules, service_id);
    }
}

/// The number of completions among signal bytes.
pub open spec fn completions(signals: Seq<u8>) -> nat
    decreases signals.len(),
{
    if signals.len() == 0 {
        0
    } else {
        completions(signals.drop_last()) + (if signals.last() == wire::SIGNAL_COMPLETE {
            1nat
        } else {
            0nat
        })
    }
}

/// The signal bytes that count: those before a fatal error.
pub open spec fn heeded(signals: Seq<u8>) -> Seq<u8> {
    match text::position(signals, wire::SIGNAL_ERROR) {
        Some(i) => signals.take(i),
        None => signals,
    }
}

/// What came of reading from a runner's socket without blocking.
#[derive(Debug, Clone, Copy)]
pub enum SocketRead<'a> {
    /// Bytes; none at all when the runner has closed its end.
    Received(&'a [u8]),
    /// Nothing is there at present.
    WouldBlock,
    /// The read failed.
    Failed,
}

/// What to do after reading from a runner's socket.
#[derive(Debug, Clone, Copy, PartialEq, Eq, Structural)]
pub enum DrainVerdict {
    /// Read again: there may be more.
    Continue,
    /// Everything has been read.
    Done,
    /// The process is of no further use and is to be killed.
    Kill,
}

/// The number of running invocations after signal bytes have been read, and what
/// to do next.
pub open spec fn drained(running: nat, signals: Seq<u8>) -> (nat, DrainVerdict) {
    (
        counted_down(running, completions(heeded(signals))),
        if signals.len() == 0 || signals.contains(wire::SIGNAL_ERROR) {
            DrainVerdict::Kill
        } else {
            DrainVerdict::Continue
        },
    )
}

/// Takes in what a runner has signalled. Completions are counted off the number
/// of running invocations, up to a fatal error, after which nothing counts; bytes
/// of no meaning are passed over. Returns the number of running invocations and
/// what to do next.
pub fn drain_signals(running: usize, read: SocketRead) -> (r: (usize, DrainVerdict))
    ensures
        match read {
            SocketRead::Received(signals) => (r.0 as nat, r.1) == drained(running as nat, signals@),
            SocketRead::WouldBlock => r == (running, DrainVerdict::Done),
            SocketRead::Failed => r == (running, DrainVerdict::Kill),
        },
{
    match read {
        SocketRead::Received(signals) => {
            let mut left: usize = running;
            let mut i: usize = 0;
            proof {
                text::lemma_position(signals@, wire::SIGNAL_ERROR);
                assert(signals@.take(0) =~= Seq::<u8>::empty());
                lemma_counted_down_zero(running);
            }
            while i < signals.len()
                invariant
                    read == SocketRead::Received(signals),
                    i <= signals@.len(),
                    forall|k: int| 0 <= k < i ==> signals@[k] != wire::SIGNAL_ERROR,
                    left == counted_down(running as nat, completions(signals@.take(i as int))),
                decreases signals@.len() - i,
            {
                let b = signals[i];
                if b == wire::SIGNAL_ERROR {
                    proof {
                        text::lemma_position_is(signals@, wire::SIGNAL_ERROR, i as int);
                        assert(signals@.contains(signals@[i as int]));
                    }
                    return (left, DrainVerdict::Kill);
                }
                proof {
                    assert(signals@.take(i as int + 1).drop_last() =~= signals@.take(i as int));
                    lemma_counted_down_step(running, completions(signals@.take(i as int)));
                }
                if b == wire::SIGNAL_COMPLETE {
                    left = left.wrapping_sub(1);
                }
                i = i + 1;
            }
            proof {
                text::lemma_position(signals@, wire::SIGNAL_ERROR);
                assert(signals@.take(i as int) =~= signals@);
            }
            if signals.len() == 0 {
                return (left, DrainVerdict::Kill);
            }
            (left, DrainVerdict::Continue)
        },
        SocketRead::WouldBlock => (running, DrainVerdict::Done),
        SocketRead::Failed => (running, DrainVerdict::Kill),
    }
}

proof fn lemma_counted_down_zero(running: usize)
    ensures
        counted_down(running as nat, 0) == running,
{
    vstd::arithmetic::div_mod::lemma_small_mod(running as nat, (usize::MAX + 1) as nat);
}

proof fn lemma_counted_down_step(running: usize, n: nat)
    ensures
        counted_down(running as nat, n) <= usize::MAX,
        counted_down(running as nat, n + 1) == if counted_down(running as nat, n) == 0 {
            usize::MAX as nat
        } else {
            (counted_down(running as nat, n) - 1) as nat
        },
{
    let m: int = usize::MAX + 1;
    let a: int = running - n;
    assert(m > 0);
    vstd::arithmetic::div_mod::lemma_mod_bound(a, m);
    if a % m == 0 {
        vstd::arithmetic::div_mod::lemma_fundamental_div_mod(a, m);
        assert(a - 1 == (a / m - 1) * m + (m - 1)) by (nonlinear_arith)
            requires
                a == m * (a / m),
        ;
        vstd::arithmetic::div_mod::lemma_fundamental_div_mod_converse(
            a - 1,
            m,
            a / m - 1,
            m - 1,
        );
    } else {
        vstd::arithmetic::div_mod::lemma_fundamental_div_mod(a, m);
        assert(a - 1 == (a / m) * m + (a % m - 1)) by (nonlinear_arith)
            requires
                a == m * (a / m) + a % m,
        ;
        vstd::arithmetic::div_mod::lemma_fundamental_div_mod_converse(
            a - 1,
            m,
            a / m,
            a % m - 1,
        );
    }
}

/// As long as no more completions arrive than invocations run, each one counts
/// one off.
pub proof fn law_completions_count_off(running: usize, n: nat)
    requires
        n <= running,
    ensures
        counted_down(running as nat, n) == running - n,
{
    vstd::arithmetic::div_mod::lemma_small_mod((running - n) as nat, (usize::MAX + 1) as nat);
}

proof fn lemma_counted_down_on(running: usize, n: nat, m: nat)
    ensures
        counted_down(running as nat, n) <= usize::MAX,
        counted_down(counted_down(running as nat, n), m) == counted_down(running as nat, n + m),
    decreases m,
{
    lemma_counted_down_step(running, n);
    let left = counted_down(running as nat, n) as usize;
    if m == 0 {
        lemma_counted_down_zero(left);
    } else {
        let k = (m - 1) as nat;
        lemma_counted_down_on(running, n, k);
        lemma_counted_down_step(left, k);
        lemma_counted_down_step(running, n + k);
    }
}

proof fn lemma_completions_concat(a: Seq<u8>, b: Seq<u8>)
    ensures
        completions(a + b) == completions(a) + completions(b),
    decreases b.len(),
{
    if b.len() == 0 {
        assert(a + b =~= a);
    } else {
        assert((a + b).drop_last() =~= a + b.drop_last());
        lemma_completions_concat(a, b.drop_last());
    }
}

/// Signals that come in two reads count as those that come in one, and lead to
/// the same: after the first read there is more to read, unless it brought a fatal
/// error, after which nothing is read.
pub proof fn law_reads_make_no_difference(running: usize, a: Seq<u8>, b: Seq<u8>)
    requires
        a.len() > 0,
        b.len() > 0,
        drained(running as nat, a).1 == DrainVerdict::Continue,
    ensures
        drained(drained(running as nat, a).0, b) == drained(running as nat, a + b),
{
    let e = wire::SIGNAL_ERROR;
    text::lemma_position(a, e);
    text::lemma_position(b, e);
    text::lemma_position(a + b, e);
    match text::position(a, e) {
        Some(i) => assert(a.contains(a[i])),
        None => {},
    }
    match text::position(b, e) {
        Some(i) => {
            assert((a + b)[a.len() + i] == e);
            assert(b.contains(b[i]));
            assert((a + b).contains((a + b)[a.len() + i]));
            text::lemma_position_is(a + b, e, a.len() + i);
            assert((a + b).take(a.len() + i) =~= a + b.take(i));
            lemma_completions_concat(a, b.take(i));
        },
        None => {
            assert forall|k: int| 0 <= k < (a + b).len() implies (a + b)[k] != e by {
                if k < a.len() {
                    assert((a + b)[k] == a[k]);
                } else {
                    assert((a + b)[k] == b[k - a.len()]);
                }
            }
            lemma_completions_concat(a, b);
        },
    }
    lemma_counted_down_on(running, completions(a), completions(heeded(b)));
}

/// Where the thread that writes to a runner stands.
#[derive(Debug, Clone, Copy, PartialEq, Eq, Structural)]
pub enum WriterState {
    /// About to look whether the dispatcher is shutting down.
    Polling,
    /// Waiting for the next message.
    Waiting,
    /// Sending the first bytes of a message and the descriptor with them.
    SendingHeader,
    /// Closing the dispatcher's copy of the descriptor, which has been sent.
    ClosingSent,
    /// Closing the descriptor, which could not be sent.
    ClosingUnsent,
    /// Writing the service id.
    WritingId,
    /// Writing the length of the module.
    WritingWasmLen,
    /// Writing the module.
    WritingWasm,
    /// Taking in what the runner has signalled.
    Draining,
    /// Killing the runner.
    Killing,
    /// The thread ends.
    Stopped,
}

/// What the thread that writes to a runner is to do.
#[derive(Debug, Clone, Copy, PartialEq, Eq, Structural)]
pub enum WriterAction {
    PollCancel,
    Receive,
    SendHeader,
    CloseFd,
    WriteId,
    WriteWasmLen,
    WriteWasm,
    DrainSignals,
    KillChild,
    Stop,
}

/// What came of an action of the thread that writes to a runner.
#[derive(Debug, Clone, Copy, PartialEq, Eq, Structural)]
pub enum WriterEvent {
    /// The dispatcher is shutting down.
    Cancelled,
    /// The dispatcher goes on.
    NotCancelled,
    /// A message has come in.
    Received,
    /// No message will come in any more.
    ChannelClosed,
    /// What was to be sent has been sent.
    Sent,
    /// What was to be sent could not be sent.
    SendFailed,
    /// The descriptor has been closed.
    FdClosed,
    /// All signals have been taken in.
    Drained,
    /// The runner was found gone or broken.
    RunnerLost,
    /// The runner has been killed.
    ChildKilled,
}

impl WriterState {
    pub open spec fn spec_action(self) -> WriterAction {
        match self {
            WriterState::Polling => WriterAction::PollCancel,
            WriterState::Waiting => WriterAction::Receive,
            WriterState::SendingHeader => WriterAction::SendHeader,
            WriterState::ClosingSent => WriterAction::CloseFd,
            WriterState::ClosingUnsent => WriterAction::CloseFd,
            WriterState::WritingId => WriterAction::WriteId,
            WriterState::WritingWasmLen => WriterAction::WriteWasmLen,
            WriterState::WritingWasm => WriterAction::WriteWasm,
            WriterState::Draining => WriterAction::DrainSignals,
            WriterState::Killing => WriterAction::KillChild,
            WriterState::Stopped => WriterAction::Stop,
        }
    }

    /// What is to be done in a state.
    pub fn action(self) -> (r: WriterAction)
        ensures
            r == self.spec_action(),
    {
        match self {
            WriterState::Polling => WriterAction::PollCancel,
            WriterState::Waiting => WriterAction::Receive,
            WriterState::SendingHeader => WriterAction::SendHeader,
            WriterState::ClosingSent => WriterAction::CloseFd,
            WriterState::ClosingUnsent => WriterAction::CloseFd,
            WriterState::WritingId => WriterAction::WriteId,
            WriterState::WritingWasmLen => WriterAction::WriteWasmLen,
            WriterState::WritingWasm => WriterAction::WriteWasm,
            WriterState::Draining => WriterAction::DrainSignals,
            WriterState::Killing => WriterAction::KillChild,
            WriterState::Stopped => WriterAction::Stop,
        }
    }

    /// The state that an event leads to; `None` for an event that cannot come of
    /// what is done in the state.
    pub open spec fn spec_next(self, event: WriterEvent) -> Option<WriterState> {
        match (self, event) {
            (WriterState::Polling, WriterEvent::Cancelled) => Some(WriterState::Killing),
            (WriterState::Polling, WriterEvent::NotCancelled) => Some(WriterState::Waiting),
            (WriterState::Waiting, WriterEvent::Received) => Some(WriterState::SendingHeader),
            (WriterState::Waiting, WriterEvent::ChannelClosed) => Some(WriterState::Killing),
            (WriterState::SendingHeader, WriterEvent::Sent) => Some(WriterState::ClosingSent),
            (WriterState::SendingHeader, WriterEvent::SendFailed) => Some(
                WriterState::ClosingUnsent,
            ),
            (WriterState::ClosingSent, WriterEvent::FdClosed) => Some(WriterState::WritingId),
            (WriterState::ClosingUnsent, WriterEvent::FdClosed) => Some(WriterState::Killing),
            (WriterState::WritingId, WriterEvent::Sent) => Some(WriterState::WritingWasmLen),
            (WriterState::WritingId, WriterEvent::SendFailed) => Some(WriterState::Killing),
            (WriterState::WritingWasmLen, WriterEvent::Sent) => Some(WriterState::WritingWasm),
            (WriterState::WritingWasmLen, WriterEvent::SendFailed) => Some(WriterState::Killing),
            (WriterState::WritingWasm, WriterEvent::Sent) => Some(WriterState::Draining),
            (WriterState::WritingWasm, WriterEvent::SendFailed) => Some(WriterState::Killing),
            (WriterState::Draining, WriterEvent::Drained) => Some(WriterState::Polling),
            (WriterState::Draining, WriterEvent::RunnerLost) => Some(WriterState::Killing),
            (WriterState::Killing, WriterEvent::ChildKilled) => Some(WriterState::Stopped),
            _ => None,
        }
    }

    /// The state that an event leads to; `None` for an event that cannot come of
    /// what is done in the state.
    pub fn next(self, event: WriterEvent) -> (r: Option<WriterState>)
        ensures
            r == self.spec_next(event),
    {
        match (self, event) {
            (WriterState::Polling, WriterEvent::Cancelled) => Some(WriterState::Killing),
            (WriterState::Polling, WriterEvent::NotCancelled) => Some(WriterState::Waiting),
            (WriterState::Waiting, WriterEvent::Received) => Some(WriterState::SendingHeader),
            (WriterState::Waiting, WriterEvent::ChannelClosed) => Some(WriterState::Killing),
            (WriterState::SendingHeader, WriterEvent::Sent) => Some(WriterState::ClosingSent),
            (WriterState::SendingHeader, WriterEvent::SendFailed) => Some(
                WriterState::ClosingUnsent,
            ),
            (WriterState::ClosingSent, WriterEvent::FdClosed) => Some(WriterState::WritingId),
            (WriterState::ClosingUnsent, WriterEvent::FdClosed) => Some(WriterState::Killing),
            (WriterState::WritingId, WriterEvent::Sent) => Some(WriterState::WritingWasmLen),
            (WriterState::WritingId, WriterEvent::SendFailed) => Some(WriterState::Killing),
            (WriterState::WritingWasmLen, WriterEvent::Sent) => Some(WriterState::WritingWasm),
            (WriterState::WritingWasmLen, WriterEvent::SendFailed) => Some(WriterState::Killing),
            (WriterState::WritingWasm, WriterEvent::Sent) => Some(WriterState::Draining),
            (WriterState::WritingWasm, WriterEvent::SendFailed) => Some(WriterState::Killing),
            (WriterState::Draining, WriterEvent::Drained) => Some(WriterState::Polling),
            (WriterState::Draining, WriterEvent::RunnerLost) => Some(WriterState::Killing),
            (WriterState::Killing, WriterEvent::ChildKilled) => Some(WriterState::Stopped),
            _ => None,
        }
    }
}

/// The bytes that an action puts on the control socket for a message.
pub open spec fn written(action: WriterAction, service_id: Seq<char>, wasm: Seq<u8>) -> Seq<u8> {
    match action {
        WriterAction::SendHeader => wire::frame_header(service_id),
        WriterAction::WriteId => encode_utf8(service_id),
        WriterAction::WriteWasmLen => wire::frame_wasm_len(wasm),
        WriterAction::WriteWasm => wasm,
        _ => Seq::empty(),
    }
}

/// A run of the writer from one state: after each event the next state. It is
/// undefined from the first event on that cannot come.
pub open spec fn run_of(start: WriterState, events: Seq<WriterEvent>) -> Option<Seq<WriterState>>
    decreases events.len(),
{
    if events.len() == 0 {
        Some(seq![start])
    } else {
        match start.spec_next(events[0]) {
            None => None,
            Some(next) => match run_of(next, events.drop_first()) {
                None => None,
                Some(rest) => Some(seq![start] + rest),
            },
        }
    }
}

/// The bytes that a run puts on the control socket for a message.
pub open spec fn written_by(run: Seq<WriterState>, service_id: Seq<char>, wasm: Seq<u8>) -> Seq<u8>
    decreases run.len(),
{
    if run.len() == 0 {
        Seq::empty()
    } else {
        written(run[0].spec_action(), service_id, wasm) + written_by(
            run.drop_first(),
            service_id,
            wasm,
        )
    }
}

/// What is still to be written of a message in a state.
spec fn unwritten(state: WriterState, service_id: Seq<char>, wasm: Seq<u8>) -> Seq<u8> {
    let tail = wire::frame_wasm_len(wasm) + wasm;
    match state {
        WriterState::SendingHeader => wire::frame_header(service_id) + encode_utf8(service_id)
            + tail,
        WriterState::ClosingSent => encode_utf8(service_id) + tail,
        WriterState::WritingId => encode_utf8(service_id) + tail,
        WriterState::WritingWasmLen => tail,
        WriterState::WritingWasm => wasm,
        _ => Seq::empty(),
    }
}

/// The runner is to be killed, or has been.
spec fn doomed(state: WriterState) -> bool {
    state == WriterState::ClosingUnsent || state == WriterState::Killing || state
        == WriterState::Stopped
}

/// The first state in which a run drains signals is its last.
pub open spec fn ends_in_draining(run: Seq<WriterState>) -> bool {
    &&& run.last() == WriterState::Draining
    &&& forall|k: int| 0 <= k < run.len() - 1 ==> #[trigger] run[k] != WriterState::Draining
}

proof fn lemma_doomed(state: WriterState, events: Seq<WriterEvent>)
    requires
        doomed(state),
    ensures
        run_of(state, events) matches Some(run) ==> doomed(run.last()),
    decreases events.len(),
{
    if events.len() > 0 {
        if let Some(next) = state.spec_next(events[0]) {
            lemma_doomed(next, events.drop_first());
            if let Some(rest) = run_of(next, events.drop_first()) {
                lemma_run_not_empty(next, events.drop_first());
                assert((seq![state] + rest).last() == rest.last());
            }
        }
    }
}

proof fn lemma_run_not_empty(state: WriterState, events: Seq<WriterEvent>)
    ensures
        run_of(state, events) matches Some(run) ==> run.len() > 0 && run[0] == state,
    decreases events.len(),
{
    if events.len() > 0 {
        if let Some(next) = state.spec_next(events[0]) {
            lemma_run_not_empty(next, events.drop_first());
        }
    }
}

proof fn lemma_writes_what_is_unwritten(
    state: WriterState,
    events: Seq<WriterEvent>,
    service_id: Seq<char>,
    wasm: Seq<u8>,
)
    requires
        state != WriterState::Polling,
        state != WriterState::Waiting,
        run_of(state, events) matches Some(run) && ends_in_draining(run),
    ensures
        written_by(run_of(state, events)->0, service_id, wasm) == unwritten(
            state,
            service_id,
            wasm,
        ),
    decreases events.len(),
{
    let run = run_of(state, events)->0;
    lemma_run_not_empty(state, events);
    if events.len() == 0 {
        assert(run.drop_first() =~= Seq::<WriterState>::empty());
        assert(written_by(run.drop_first(), service_id, wasm) =~= Seq::<u8>::empty());
        assert(written_by(run, service_id, wasm) =~= Seq::<u8>::empty());
    } else {
        let next = state.spec_next(events[0])->0;
        let more = events.drop_first();
        let rest = run_of(next, more)->0;
        lemma_run_not_empty(next, more);
        assert(run.drop_first() =~= rest);
        assert(run.last() == rest.last());
        assert(run[0] != WriterState::Draining);
        assert forall|k: int| 0 <= k < rest.len() - 1 implies #[trigger] rest[k]
            != WriterState::Draining by {
            assert(run[k + 1] == rest[k]);
        }
        if doomed(next) {
            lemma_doomed(next, more);
        } else {
            lemma_writes_what_is_unwritten(next, more, service_id, wasm);
            assert(written_by(run, service_id, wasm) =~= unwritten(state, service_id, wasm));
        }
    }
}

/// By the time a message has gone through and the runner's signals are drained,
/// exactly the frame of the message has been put on the control socket, whatever
/// course the writer took.
pub proof fn law_message_is_framed(
    events: Seq<WriterEvent>,
    service_id: Seq<char>,
    wasm: Seq<u8>,
)
    requires
        run_of(WriterState::SendingHeader, events) matches Some(run) && ends_in_draining(run),
    ensures
        written_by(run_of(WriterState::SendingHeader, events)->0, service_id, wasm) == wire::frame(
            service_id,
            wasm,
        ),
{
    lemma_writes_what_is_unwritten(WriterState::SendingHeader, events, service_id, wasm);
    assert(unwritten(WriterState::SendingHeader, service_id, wasm) =~= wire::frame(
        service_id,
        wasm,
    ));
}

/// The bytes that the writer puts on the control socket from a state on, given the
/// messages that come in, the first of which may be under way. A message is done
/// with when the runner's signals have been drained after it.
pub open spec fn put_on_socket(
    state: WriterState,
    events: Seq<WriterEvent>,
    messages: Seq<(Seq<char>, Seq<u8>)>,
) -> Seq<u8>
    decreases events.len(),
{
    if events.len() == 0 {
        Seq::empty()
    } else {
        match state.spec_next(events[0]) {
            None => Seq::empty(),
            Some(next) => {
                let now = if events[0] == WriterEvent::Sent {
                    written(state.spec_action(), messages[0].0, messages[0].1)
                } else {
                    Seq::empty()
                };
                let left = if events[0] == WriterEvent::Drained {
                    messages.drop_first()
                } else {
                    messages
                };
                now + put_on_socket(next, events.drop_first(), left)
            },
        }
    }
}

/// The number of messages that are done with in the course of events.
pub open spec fn messages_done(events: Seq<WriterEvent>) -> nat
    decreases events.len(),
{
    if events.len() == 0 {
        0
    } else {
        messages_done(events.drop_first()) + (if events[0] == WriterEvent::Drained {
            1nat
        } else {
            0nat
        })
    }
}

/// The frames of messages, one after the other.
pub open spec fn frames(messages: Seq<(Seq<char>, Seq<u8>)>) -> Seq<u8>
    decreases messages.len(),
{
    if messages.len() == 0 {
        Seq::empty()
    } else {
        wire::frame(messages[0].0, messages[0].1) + frames(messages.drop_first())
    }
}

/// The writer is between two messages.
pub open spec fn is_idle(state: WriterState) -> bool {
    state == WriterState::Polling || state == WriterState::Waiting
}

proof fn lemma_puts_frames(
    state: WriterState,
    events: Seq<WriterEvent>,
    messages: Seq<(Seq<char>, Seq<u8>)>,
)
    requires
        run_of(state, events) matches Some(run) && is_idle(run.last()),
        messages_done(events) <= messages.len(),
    ensures
        ({
            let done = messages_done(events) as int;
            let bytes = put_on_socket(state, events, messages);
            if is_idle(state) {
                bytes == frames(messages.take(done))
            } else {
                &&& done > 0
                &&& bytes == unwritten(state, messages[0].0, messages[0].1) + frames(
                    messages.drop_first().take(done - 1),
                )
            }
        }),
    decreases events.len(),
{
    let done = messages_done(events) as int;
    let bytes = put_on_socket(state, events, messages);
    if events.len() == 0 {
        assert(frames(messages.take(0)) =~= Seq::<u8>::empty());
    } else {
        let event = events[0];
        let more = events.drop_first();
        let next = state.spec_next(event)->0;
        let rest = run_of(next, more)->0;
        lemma_run_not_empty(next, more);
        assert((seq![state] + rest).last() == rest.last());
        if doomed(next) {
            lemma_doomed(next, more);
        }
        if event == WriterEvent::Drained {
            lemma_puts_frames(next, more, messages.drop_first());
            assert(bytes =~= frames(messages.drop_first().take(done - 1)));
        } else {
            lemma_puts_frames(next, more, messages);
            if is_idle(state) {
                if !is_idle(next) {
                    let m = messages[0];
                    assert(messages.take(done).drop_first() =~= messages.drop_first().take(
                        done - 1,
                    ));
                    assert(unwritten(WriterState::SendingHeader, m.0, m.1) =~= wire::frame(
                        m.0,
                        m.1,
                    ));
                }
                assert(bytes =~= frames(messages.take(done)));
            } else {
                assert(bytes =~= unwritten(state, messages[0].0, messages[0].1) + frames(
                    messages.drop_first().take(done - 1),
                ));
            }
        }
    }
}

/// Messages go over the control socket in the order in which they come in: by the
/// time the writer is between two messages, it has put there the frames of those
/// that are done with, one after the other, and nothing else.
pub proof fn law_messages_are_framed_in_order(
    events: Seq<WriterEvent>,
    messages: Seq<(Seq<char>, Seq<u8>)>,
)
    requires
        run_of(WriterState::Polling, events) matches Some(run) && is_idle(run.last()),
        messages_done(events) <= messages.len(),
    ensures
        put_on_socket(WriterState::Polling, events, messages) == frames(
            messages.take(messages_done(events) as int),
        ),
{
    lemma_puts_frames(WriterState::Polling, events, messages);
}

/// How often an action is called for in a run.
pub open spec fn times(run: Seq<WriterState>, action: WriterAction) -> nat
    decreases run.len(),
{
    if run.len() == 0 {
        0
    } else {
        times(run.drop_first(), action) + (if run[0].spec_action() == action {
            1nat
        } else {
            0nat
        })
    }
}

proof fn lemma_closings(state: WriterState, events: Seq<WriterEvent>)
    requires
        run_of(state, events) is Some,
    ensures
        ({
            let run = run_of(state, events)->0;
            let sends = times(run, WriterAction::SendHeader);
            let closings = times(run, WriterAction::CloseFd);
            let open: nat = if run.last() == WriterState::SendingHeader {
                1
            } else {
                0
            };
            let owed: nat = if state.spec_action() == WriterAction::CloseFd {
                1
            } else {
                0
            };
            sends + owed == closings + open
        }),
    decreases events.len(),
{
    let run = run_of(state, events)->0;
    reveal_with_fuel(times, 2);
    if events.len() > 0 {
        let next = state.spec_next(events[0])->0;
        let more = events.drop_first();
        let rest = run_of(next, more)->0;
        lemma_run_not_empty(next, more);
        assert(run.drop_first() =~= rest);
        assert(run.last() == rest.last());
        lemma_closings(next, more);
    } else {
        assert(run.drop_first() =~= Seq::<WriterState>::empty());
    }
}

/// Over any course of the writer, the descriptor of each message is closed once
/// for each attempt to send it, save for an attempt that is still under way.
pub proof fn law_each_descriptor_closed_once(events: Seq<WriterEvent>)
    requires
        run_of(WriterState::Polling, events) is Some,
    ensures
        ({
            let run = run_of(WriterState::Polling, events)->0;
            times(run, WriterAction::SendHeader) == times(run, WriterAction::CloseFd) + (
            if run.last() == WriterState::SendingHeader {
                1nat
            } else {
                0nat
            })
        }),
{
    lemma_closings(WriterState::Polling, events);
}

/// The descriptor of a message is closed once, right after the attempt to send
/// it, whatever came of the attempt, and at no other time.
pub proof fn law_descriptor_closed_once(state: WriterState, event: WriterEvent)
    ensures
        state.spec_next(event) matches Some(next) ==> ((next.spec_action() == WriterAction::CloseFd)
            == (state == WriterState::SendingHeader)),
        state == WriterState::SendingHeader && (event == WriterEvent::Sent || event
            == WriterEvent::SendFailed) ==> state.spec_next(event) is Some,
{
}

/// The writer ends only once the runner has been killed, and never leaves a
/// message half sent without killing it.
pub proof fn law_runner_killed_before_stop(state: WriterState, event: WriterEvent)
    ensures
        state.spec_next(event) == Some(WriterState::Stopped) <==> state == WriterState::Killing
            && event == WriterEvent::ChildKilled,
        event == WriterEvent::SendFailed && state != WriterState::SendingHeader ==> (
        state.spec_next(event) matches Some(next) ==> next == WriterState::Killing),
        WriterState::ClosingUnsent.spec_next(event) matches Some(next) ==> next
            == WriterState::Killing,
        WriterState::Draining.spec_next(WriterEvent::RunnerLost) == Some(WriterState::Killing),
        WriterState::Stopped.spec_next(event) is None,
{
}

/// Each zero byte among the signals is one completion, wherever it stands, and no
/// other byte is.
pub proof fn law_zero_bytes_are_completions(a: Seq<u8>, signal: u8, b: Seq<u8>)
    ensures
        completions(Seq::empty()) == 0,
        completions(a + seq![signal] + b) == completions(a + b) + (if signal == 0x00 {
            1nat
        } else {
            0nat
        }),
{
    let one = seq![signal];
    assert(one.drop_last() =~= Seq::<u8>::empty());
    assert(completions(one.drop_last()) == 0);
    lemma_completions_concat(a + one, b);
    lemma_completions_concat(a, one);
    lemma_completions_concat(a, b);
}

/// Signals without a byte of value one are all heeded and there may be more; where
/// there is such a byte, those before it count and the process is to be killed,
/// whatever follows. Where a runner has closed its end nothing counts, and the
/// process is to be killed too.
pub proof fn law_error_cuts_off(running: usize, signals: Seq<u8>, rest: Seq<u8>)
    requires
        !signals.contains(0x01),
        completions(signals) <= running,
    ensures
        signals.len() > 0 ==> drained(running as nat, signals) == (
            (running - completions(signals)) as nat,
            DrainVerdict::Continue,
        ),
        drained(running as nat, signals + seq![0x01u8] + rest) == (
            (running - completions(signals)) as nat,
            DrainVerdict::Kill,
        ),
        drained(running as nat, Seq::empty()) == (running as nat, DrainVerdict::Kill),
{
    law_completions_count_off(running, completions(signals));
    lemma_counted_down_zero(running);
    text::lemma_position(signals, 0x01u8);
    if text::position(signals, 0x01u8) is Some {
        assert(signals.contains(signals[text::position(signals, 0x01u8)->0]));
    }
    let all = signals + seq![0x01u8] + rest;
    let n = signals.len() as int;
    assert forall|k: int| 0 <= k < n implies all[k] != 0x01 by {
        assert(all[k] == signals[k]);
        assert(signals.contains(signals[k]));
    }
    text::lemma_position_is(all, 0x01u8, n);
    assert(all.take(n) =~= signals);
    assert(all.contains(all[n]));
}

/// A process that an invocation has been assigned to runs one more and is otherwise
/// the same, save for the modules that it holds.
pub proof fn law_assigned_counts_one_more(process: ProcessState, service_id: Seq<char>)
    requires
        process.running < usize::MAX,
    ensures
        ({
            let after = process.assigned(service_id);
            &&& after.running == process.running + 1
            &&& after.pid == process.pid
            &&& after.control_fd == process.control_fd
            &&& after.max_loaded_modules == process.max_loaded_modules
            &&& after.max_invocation_capacity == process.max_invocation_capacity
            &&& process.has_capacity() <==> after.running <= process.max_invocation_capacity
            &&& after.modules.len() <= process.modules.len() + 1
        }),
{
    text::lemma_position(process.modules, service_id);
}

/// Each action belongs to one state, but for closing the descriptor, which belongs
/// to two.
pub proof fn law_what_the_writer_does(state: WriterState)
    ensures
        state.spec_action() == WriterAction::PollCancel <==> state == WriterState::Polling,
        state.spec_action() == WriterAction::Receive <==> state == WriterState::Waiting,
        state.spec_action() == WriterAction::SendHeader <==> state == WriterState::SendingHeader,
        state.spec_action() == WriterAction::CloseFd <==> state == WriterState::ClosingSent || state
            == WriterState::ClosingUnsent,
        state.spec_action() == WriterAction::WriteId <==> state == WriterState::WritingId,
        state.spec_action() == WriterAction::WriteWasmLen <==> state == WriterState::WritingWasmLen,
        state.spec_action() == WriterAction::WriteWasm <==> state == WriterState::WritingWasm,
        state.spec_action() == WriterAction::DrainSignals <==> state == WriterState::Draining,
        state.spec_action() == WriterAction::KillChild <==> state == WriterState::Killing,
        state.spec_action() == WriterAction::Stop <==> state == WriterState::Stopped,
{
}

/// Each event can come of the action that it belongs to, and of no other.
pub proof fn law_when_writer_events_can_come(state: WriterState)
    ensures
        state.spec_next(WriterEvent::Cancelled) is Some <==> state.spec_action()
            == WriterAction::PollCancel,
        state.spec_next(WriterEvent::NotCancelled) is Some <==> state.spec_action()
            == WriterAction::PollCancel,
        state.spec_next(WriterEvent::Received) is Some <==> state.spec_action()
            == WriterAction::Receive,
        state.spec_next(WriterEvent::ChannelClosed) is Some <==> state.spec_action()
            == WriterAction::Receive,
        state.spec_next(WriterEvent::Sent) is Some <==> state.spec_action()
            == WriterAction::SendHeader || state.spec_action() == WriterAction::WriteId
            || state.spec_action() == WriterAction::WriteWasmLen || state.spec_action()
            == WriterAction::WriteWasm,
        state.spec_next(WriterEvent::SendFailed) is Some <==> state.spec_next(
            WriterEvent::Sent,
        ) is Some,
        state.spec_next(WriterEvent::FdClosed) is Some <==> state.spec_action()
            == WriterAction::CloseFd,
        state.spec_next(WriterEvent::Drained) is Some <==> state.spec_action()
            == WriterAction::DrainSignals,
        state.spec_next(WriterEvent::RunnerLost) is Some <==> state.spec_action()
            == WriterAction::DrainSignals,
        state.spec_next(WriterEvent::ChildKilled) is Some <==> state.spec_action()
            == WriterAction::KillChild,
{
}

/// The runner is killed exactly where the dispatcher is shutting down, no message
/// will come any more, the runner is lost, or something could not be sent: at once,
/// or, where it is the header, once the descriptor has been closed.
pub proof fn law_what_gets_the_runner_killed(state: WriterState, event: WriterEvent)
    requires
        state.spec_next(event) is Some,
    ensures
        state.spec_next(event) == Some(WriterState::Killing) <==> {
            ||| event == WriterEvent::Cancelled
            ||| event == WriterEvent::ChannelClosed
            ||| event == WriterEvent::RunnerLost
            ||| event == WriterEvent::SendFailed && state != WriterState::SendingHeader
            ||| event == WriterEvent::FdClosed && state == WriterState::ClosingUnsent
        },
        state.spec_next(event) == Some(WriterState::ClosingUnsent) <==> event
            == WriterEvent::SendFailed && state == WriterState::SendingHeader,
{
}

/// One message after the other: where nothing goes wrong, a message takes the writer
/// through the header, the closing of the descriptor, the id, the length of the
/// module, the module and the draining of signals, and back to where it was; from
/// there it goes on as if it had just begun.
pub proof fn law_round_of_a_message(events: Seq<WriterEvent>)
    ensures
        ({
            let round = seq![
                WriterEvent::NotCancelled,
                WriterEvent::Received,
                WriterEvent::Sent,
                WriterEvent::FdClosed,
                WriterEvent::Sent,
                WriterEvent::Sent,
                WriterEvent::Sent,
                WriterEvent::Drained,
            ];
            let actions = seq![
                WriterAction::PollCancel,
                WriterAction::Receive,
                WriterAction::SendHeader,
                WriterAction::CloseFd,
                WriterAction::WriteId,
                WriterAction::WriteWasmLen,
                WriterAction::WriteWasm,
                WriterAction::DrainSignals,
            ];
            let run = run_of(WriterState::Polling, round + events);
            &&& run is Some <==> run_of(WriterState::Polling, events) is Some
            &&& run matches Some(states) ==> {
                &&& states.len() == events.len() + 9
                &&& states.skip(8) == run_of(WriterState::Polling, events)->0
                &&& forall|k: int| 0 <= k < 8 ==> (#[trigger] states[k]).spec_action() == actions[k]
            }
        }),
{
    let e0 = seq![
        WriterEvent::NotCancelled,
        WriterEvent::Received,
        WriterEvent::Sent,
        WriterEvent::FdClosed,
        WriterEvent::Sent,
        WriterEvent::Sent,
        WriterEvent::Sent,
        WriterEvent::Drained,
    ] + events;
    let e1 = e0.drop_first();
    let e2 = e1.drop_first();
    let e3 = e2.drop_first();
    let e4 = e3.drop_first();
    let e5 = e4.drop_first();
    let e6 = e5.drop_first();
    let e7 = e6.drop_first();
    assert(e7.drop_first() =~= events);
    reveal_with_fuel(run_of, 2);
    let r8 = run_of(WriterState::Polling, events);
    let r7 = run_of(WriterState::Draining, e7);
    let r6 = run_of(WriterState::WritingWasm, e6);
    let r5 = run_of(WriterState::WritingWasmLen, e5);
    let r4 = run_of(WriterState::WritingId, e4);
    let r3 = run_of(WriterState::ClosingSent, e3);
    let r2 = run_of(WriterState::SendingHeader, e2);
    let r1 = run_of(WriterState::Waiting, e1);
    let r0 = run_of(WriterState::Polling, e0);
    if r8 is Some {
        lemma_run_len(WriterState::Polling, events);
        assert((r0->0).skip(8) =~= r8->0);
    }
}

proof fn lemma_run_len(start: WriterState, events: Seq<WriterEvent>)
    requires
        run_of(start, events) is Some,
    ensures
        (run_of(start, events)->0).len() == events.len() + 1,
    decreases events.len(),
{
    if events.len() > 0 {
        lemma_run_len(start.spec_next(events[0])->0, events.drop_first());
    }
}

/// One completion more leaves one invocation less; where none is left the count
/// wraps around to the largest.
pub proof fn law_count_wraps_around(running: usize, n: nat)
    ensures
        counted_down(running as nat, n) > 0 ==> counted_down(running as nat, n + 1) == counted_down(
            running as nat,
            n,
        ) - 1,
        counted_down(running as nat, n) == 0 ==> counted_down(running as nat, n + 1) == usize::MAX,
        counted_up(usize::MAX as nat) == 0,
{
    lemma_counted_down_step(running, n);
}

} // verus!
