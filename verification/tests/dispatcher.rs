use std::collections::VecDeque;

use vortex::module_queue;
use vortex::network::http_connection::{HttpConnection, RequestKind};
use vortex::network::server::{Admission, AdmissionEvent, Server};
use vortex::service::controller::{Controller, Placement};
use vortex::service::invocation::RunningInvocation;
use vortex::service::orchestrator::{
    Arrival, Duty, Handling, HandlingEvent, Inbox, LoopEvent, LoopState, Orchestrator,
};
use vortex::service::process::{
    drain_signals, ControlMessage, DrainVerdict, Process, SocketRead, WriterAction, WriterEvent,
    WriterState,
};
use vortex::wasm::fetcher::{service_id, Fetcher};
use vortex::wire::{decode_le, encode_le, SIGNAL_COMPLETE, SIGNAL_ERROR};

fn id(s: &str) -> String {
    s.to_string()
}

fn queue(names: &[&str]) -> VecDeque<String> {
    names.iter().map(|s| s.to_string()).collect()
}

// -- the queue of loaded modules -------------------------------------------

#[test]
fn queue_evicts_the_oldest() {
    let mut q = queue(&[]);
    for name in ["a", "b", "c"] {
        module_queue::track(&mut q, 2, id(name));
    }
    assert_eq!(q, queue(&["b", "c"]));
}

#[test]
fn queue_moves_what_is_used_to_the_back() {
    let mut q = queue(&["a", "b", "c"]);
    module_queue::track(&mut q, 3, id("a"));
    assert_eq!(q, queue(&["b", "c", "a"]));
    assert_eq!(module_queue::find(&q, "c"), Some(1));
    assert_eq!(module_queue::find(&q, "x"), None);
    module_queue::take_out(&mut q, "c");
    assert_eq!(q, queue(&["b", "a"]));
}

#[test]
fn queue_without_room_stays_empty() {
    let mut q = queue(&[]);
    module_queue::track(&mut q, 0, id("a"));
    module_queue::track(&mut q, 0, id("b"));
    assert_eq!(q, queue(&[]));
}

#[test]
fn queue_stays_bounded() {
    for limit in 0..4 {
        let mut q = queue(&[]);
        for name in ["a", "b", "a", "c", "d", "d", "a", "e"] {
            module_queue::track(&mut q, limit, id(name));
            assert!(q.len() <= limit);
            for (i, x) in q.iter().enumerate() {
                assert_eq!(module_queue::find(&q, x), Some(i));
            }
        }
    }
}

// -- process ---------------------------------------------------------------

#[test]
fn process_capacity() {
    let mut process = Process::run(42, 7, 2, 4);
    assert_eq!((process.pid, process.control_fd), (42, 7));
    assert_eq!(process.max_invocation_capacity, 2);
    assert!(process.has_capacity());
    process.increment_invocations();
    assert!(process.has_capacity());
    process.increment_invocations();
    assert!(!process.has_capacity());
    assert_eq!(process.running_invocations(), 2);
    process.observe_running(1);
    assert!(process.has_capacity());
}

#[test]
fn process_modules() {
    let mut process = Process::run(1, 3, 1, 2);
    assert!(!process.has_runtime_loaded("v1/a"));
    process.track_module(id("v1/a"));
    process.track_module(id("v1/b"));
    process.track_module(id("v1/a"));
    process.track_module(id("v1/c"));
    assert!(process.has_runtime_loaded("v1/a"));
    assert!(!process.has_runtime_loaded("v1/b"));
    assert!(process.has_runtime_loaded("v1/c"));
}

#[test]
fn process_that_may_hold_no_module() {
    let mut process = Process::run(1, 3, 1, 0);
    process.track_module(id("v1/a"));
    assert!(!process.has_runtime_loaded("v1/a"));
}

#[test]
fn signals_are_counted_off() {
    let signals = [SIGNAL_COMPLETE, 0x07, SIGNAL_COMPLETE];
    assert_eq!(drain_signals(3, SocketRead::Received(&signals)), (1, DrainVerdict::Continue));
    assert_eq!(drain_signals(3, SocketRead::WouldBlock), (3, DrainVerdict::Done));
    assert_eq!(drain_signals(3, SocketRead::Failed), (3, DrainVerdict::Kill));
    assert_eq!(drain_signals(3, SocketRead::Received(&[])), (3, DrainVerdict::Kill));
}

#[test]
fn signals_after_a_fatal_error_do_not_count() {
    let signals = [SIGNAL_COMPLETE, SIGNAL_ERROR, SIGNAL_COMPLETE];
    assert_eq!(drain_signals(3, SocketRead::Received(&signals)), (2, DrainVerdict::Kill));
}

#[test]
fn signals_beyond_zero_wrap_around() {
    let signals = [SIGNAL_COMPLETE];
    assert_eq!(
        drain_signals(0, SocketRead::Received(&signals)),
        (usize::MAX, DrainVerdict::Continue),
    );
}

#[test]
fn signals_in_two_reads_count_as_in_one() {
    let signals =
        [SIGNAL_COMPLETE, 7, SIGNAL_COMPLETE, SIGNAL_COMPLETE, SIGNAL_ERROR, SIGNAL_COMPLETE];
    for len in 2..signals.len() + 1 {
        let (whole, verdict) = drain_signals(9, SocketRead::Received(&signals[..len]));
        for cut in 1..len {
            let (left, first) = drain_signals(9, SocketRead::Received(&signals[..cut]));
            if first == DrainVerdict::Continue {
                let read = SocketRead::Received(&signals[cut..len]);
                assert_eq!(drain_signals(left, read), (whole, verdict));
            }
        }
    }
}

#[test]
fn message_on_the_wire() {
    let message = ControlMessage::Invocation {
        service_id: id("v1/é"),
        wasm_bytes: vec![9, 8, 7],
        tcp_fd: 5,
    };
    assert_eq!(message.header(), vec![5, 0, 0, 0]);
    assert_eq!(message.id_bytes(), "v1/é".as_bytes());
    assert_eq!(message.wasm_len_bytes(), vec![3, 0, 0, 0, 0, 0, 0, 0]);
}

#[test]
fn little_endian_numbers() {
    assert_eq!(encode_le(0x1234, 4), vec![0x34, 0x12, 0, 0]);
    assert_eq!(encode_le(0x1_0000_0002, 4), vec![2, 0, 0, 0]);
    assert_eq!(decode_le(&[0x34, 0x12, 0, 0]), 0x1234);
    assert_eq!(decode_le(&[0xff; 8]), u64::MAX);
    assert_eq!(encode_le(u64::MAX - 1, 8), (u64::MAX - 1).to_le_bytes().to_vec());
}

#[test]
fn writer_sends_a_message() {
    let events = [
        (WriterAction::PollCancel, WriterEvent::NotCancelled),
        (WriterAction::Receive, WriterEvent::Received),
        (WriterAction::SendHeader, WriterEvent::Sent),
        (WriterAction::CloseFd, WriterEvent::FdClosed),
        (WriterAction::WriteId, WriterEvent::Sent),
        (WriterAction::WriteWasmLen, WriterEvent::Sent),
        (WriterAction::WriteWasm, WriterEvent::Sent),
        (WriterAction::DrainSignals, WriterEvent::Drained),
    ];
    let mut state = WriterState::Polling;
    for (action, event) in events {
        assert_eq!(state.action(), action);
        state = state.next(event).unwrap();
    }
    assert_eq!(state, WriterState::Polling);
}

#[test]
fn writer_sends_messages_in_order() {
    let messages: Vec<ControlMessage> = ["v1/a", "v1/bc"]
        .iter()
        .map(|s| ControlMessage::Invocation {
            service_id: id(s),
            wasm_bytes: s.as_bytes().to_vec(),
            tcp_fd: 1,
        })
        .collect();
    let mut incoming = messages.iter();
    let mut current: Option<&ControlMessage> = None;
    let mut socket = Vec::new();
    let mut closed = 0;
    let mut state = WriterState::Polling;
    while state != WriterState::Stopped {
        let event = match (state.action(), current) {
            (WriterAction::PollCancel, _) => WriterEvent::NotCancelled,
            (WriterAction::Receive, _) => {
                current = incoming.next();
                if current.is_some() { WriterEvent::Received } else { WriterEvent::ChannelClosed }
            }
            (WriterAction::SendHeader, Some(m)) => {
                socket.extend(m.header());
                WriterEvent::Sent
            }
            (WriterAction::CloseFd, _) => {
                closed += 1;
                WriterEvent::FdClosed
            }
            (WriterAction::WriteId, Some(m)) => {
                socket.extend(m.id_bytes());
                WriterEvent::Sent
            }
            (WriterAction::WriteWasmLen, Some(m)) => {
                socket.extend(m.wasm_len_bytes());
                WriterEvent::Sent
            }
            (WriterAction::WriteWasm, Some(ControlMessage::Invocation { wasm_bytes, .. })) => {
                socket.extend_from_slice(wasm_bytes);
                WriterEvent::Sent
            }
            (WriterAction::DrainSignals, _) => WriterEvent::Drained,
            _ => WriterEvent::ChildKilled,
        };
        state = state.next(event).unwrap();
    }
    let expected = b"\x04\0\0\0v1/a\x04\0\0\0\0\0\0\0v1/a\x05\0\0\0v1/bc\x05\0\0\0\0\0\0\0v1/bc";
    assert_eq!(socket, expected);
    assert_eq!(closed, 2);
}

#[test]
fn writer_closes_what_it_could_not_send() {
    let state = WriterState::SendingHeader.next(WriterEvent::SendFailed).unwrap();
    assert_eq!(state.action(), WriterAction::CloseFd);
    let state = state.next(WriterEvent::FdClosed).unwrap();
    assert_eq!(state.action(), WriterAction::KillChild);
    let state = state.next(WriterEvent::ChildKilled).unwrap();
    assert_eq!(state.action(), WriterAction::Stop);
    assert_eq!(state.next(WriterEvent::NotCancelled), None);
}

#[test]
fn writer_kills_before_it_stops() {
    let killing = Some(WriterState::Killing);
    assert_eq!(WriterState::Polling.next(WriterEvent::Cancelled), killing);
    assert_eq!(WriterState::Waiting.next(WriterEvent::ChannelClosed), killing);
    assert_eq!(WriterState::WritingId.next(WriterEvent::SendFailed), killing);
    assert_eq!(WriterState::WritingWasmLen.next(WriterEvent::SendFailed), killing);
    assert_eq!(WriterState::WritingWasm.next(WriterEvent::SendFailed), killing);
    assert_eq!(WriterState::Draining.next(WriterEvent::RunnerLost), killing);
}

// -- controller ------------------------------------------------------------

fn place(controller: &mut Controller, service: &str) -> Result<Placement, String> {
    let assignment = controller.schedule_invocation(id(service), vec![1, 2], 9)?;
    let ControlMessage::Invocation { service_id, wasm_bytes, tcp_fd } = assignment.message;
    assert_eq!((service_id.as_str(), wasm_bytes, tcp_fd), (service, vec![1, 2], 9));
    if assignment.placement == Placement::Spawn {
        let n = controller.num_services() as i32;
        let process = controller.launch(100 + n, 10 + n, id(service));
        controller.adopt(process);
    }
    Ok(assignment.placement)
}

#[test]
fn controller_spawns_when_there_is_no_process() {
    let mut controller = Controller::new(2, 3, 4, id("./runner"));
    assert_eq!(controller.runner_bin(), "./runner");
    assert_eq!(controller.num_services(), 0);
    assert_eq!(place(&mut controller, "v1/a"), Ok(Placement::Spawn));
    let process = controller.service(0);
    assert_eq!((process.pid, process.control_fd), (100, 10));
    assert_eq!(process.running_invocations(), 1);
    assert_eq!(process.max_invocation_capacity, 3);
    assert!(process.has_runtime_loaded("v1/a"));
}

#[test]
fn controller_prefers_a_warm_process() {
    let mut controller = Controller::new(2, 2, 4, id("r"));
    assert_eq!(place(&mut controller, "v1/a"), Ok(Placement::Spawn));
    assert_eq!(place(&mut controller, "v1/a"), Ok(Placement::Warm(0)));
    // The first process is full, so a second one is spawned for another service.
    assert_eq!(place(&mut controller, "v1/b"), Ok(Placement::Spawn));
    controller.observe_running(0, 1);
    // Both have capacity: the warm one comes before the first.
    assert_eq!(place(&mut controller, "v1/b"), Ok(Placement::Warm(1)));
    assert_eq!(place(&mut controller, "v1/b"), Ok(Placement::Available(0)));
    assert!(controller.service(0).has_runtime_loaded("v1/b"));
}

#[test]
fn controller_refuses_when_all_is_full() {
    let mut controller = Controller::new(1, 1, 4, id("r"));
    assert_eq!(place(&mut controller, "v1/a"), Ok(Placement::Spawn));
    assert_eq!(
        place(&mut controller, "v1/a"),
        Err("can not create any more processes".to_string()),
    );
    assert_eq!(controller.num_services(), 1);
    assert_eq!(controller.service(0).running_invocations(), 1);
}

#[test]
fn controller_without_capacity_refuses() {
    let mut controller = Controller::new(2, 0, 4, id("r"));
    assert_eq!(
        place(&mut controller, "v1/a"),
        Err("can not create any more processes".to_string()),
    );
    assert_eq!(controller.num_services(), 0);
}

// -- orchestrator ----------------------------------------------------------

#[test]
fn orchestrator_duties() {
    assert_eq!(Orchestrator::duty(Arrival::Cancelled), Duty::Stop);
    assert_eq!(Orchestrator::duty(Arrival::ChannelClosed), Duty::Stop);
    assert_eq!(
        Orchestrator::duty(Arrival::Request(RequestKind::Invocation)),
        Duty::HandleInvocation,
    );
    assert_eq!(
        Orchestrator::duty(Arrival::Request(RequestKind::Metadata)),
        Duty::HandleMetadata,
    );
}

#[test]
fn orchestrator_hears_of_a_shutdown_first() {
    let waiting = Inbox::Waiting(RequestKind::Invocation);
    for inbox in [Inbox::Empty, Inbox::Closed, waiting] {
        assert_eq!(Orchestrator::listen(true, inbox), Some(Arrival::Cancelled));
        let looked = LoopEvent::Looked { cancelled: true, inbox };
        assert_eq!(Orchestrator::run(LoopState::Listening, looked), Some(LoopState::Stopped));
    }
    assert_eq!(Orchestrator::listen(false, Inbox::Empty), None);
    assert_eq!(Orchestrator::listen(false, Inbox::Closed), Some(Arrival::ChannelClosed));
    assert_eq!(
        Orchestrator::listen(false, waiting),
        Some(Arrival::Request(RequestKind::Invocation)),
    );
}

#[test]
fn orchestrator_goes_on_after_a_failure() {
    let kinds = [RequestKind::Invocation, RequestKind::Metadata, RequestKind::Invocation];
    let mut state = LoopState::Listening;
    let mut taken = Vec::new();
    for kind in kinds {
        for inbox in [Inbox::Empty, Inbox::Waiting(kind)] {
            let looked = LoopEvent::Looked { cancelled: false, inbox };
            state = Orchestrator::run(state, looked).unwrap();
        }
        match state {
            LoopState::Busy(kind) => taken.push(kind),
            _ => panic!("the request is not taken up"),
        }
        state = Orchestrator::run(state, LoopEvent::Handled { well: false }).unwrap();
        assert_eq!(state, LoopState::Listening);
    }
    assert_eq!(taken, kinds);
    let closed = LoopEvent::Looked { cancelled: false, inbox: Inbox::Closed };
    state = Orchestrator::run(state, closed).unwrap();
    assert_eq!(state, LoopState::Stopped);
    assert_eq!(Orchestrator::run(state, closed), None);
}

#[test]
fn orchestrator_answers_for_a_missing_service() {
    let state = Orchestrator::handle_invocation(Handling::Fetching, HandlingEvent::NotFound);
    assert_eq!(state, Some(Handling::Answering));
    assert_eq!(
        Orchestrator::not_found(),
        "HTTP/1.1 404 Not Found\r\nContent-Length: 0\r\n\r\n",
    );
    let state = Orchestrator::handle_invocation(Handling::Answering, HandlingEvent::Sent);
    assert_eq!(state, Some(Handling::Done));
}

#[test]
fn orchestrator_closes_what_it_cannot_place() {
    for (state, event) in [
        (Handling::Scheduling, HandlingEvent::NoRoom),
        (Handling::Spawning, HandlingEvent::Error),
        (Handling::Sending, HandlingEvent::Error),
        (Handling::SendingFirst, HandlingEvent::Error),
    ] {
        assert_eq!(Orchestrator::handle_invocation(state, event), Some(Handling::Closing));
    }
    let state = Orchestrator::handle_invocation(Handling::Closing, HandlingEvent::Closed);
    assert_eq!(state, Some(Handling::Failed));
    assert_eq!(
        Orchestrator::handle_invocation(Handling::Done, HandlingEvent::Closed),
        None,
    );
}

#[test]
fn orchestrator_adopts_a_spawned_process_after_sending() {
    let mut state = Handling::Fetching;
    for event in [
        HandlingEvent::Found,
        HandlingEvent::Detached,
        HandlingEvent::MustSpawn,
        HandlingEvent::Spawned,
        HandlingEvent::Sent,
        HandlingEvent::Adopted,
    ] {
        state = Orchestrator::handle_invocation(state, event).unwrap();
    }
    assert_eq!(state, Handling::Done);
}

#[test]
fn service_ids_and_paths() {
    let req = b"POST /v1/svc/op HTTP/1.1\r\n\r\nSGVsbG8=";
    let connection = HttpConnection::from_tcp_stream(req).unwrap().unwrap();
    assert_eq!(Orchestrator::service_id(&connection), "v1/svc");
    assert_eq!(service_id("v1", "svc"), "v1/svc");
    assert_eq!(Fetcher::fetch_path("v1", "svc"), "v1/svc");
    assert_eq!(Fetcher::fetch_path("..", "a b%"), "%2E%2E/a b%25");
    assert_eq!(Fetcher::fetch_path("v1", "caf\u{e9}"), "v1/caf%C3%A9");
}

#[test]
fn paths_of_every_ascii_character() {
    let encoded = "\"#%*<>?[\\]^`{|}~";
    for b in 0..128u8 {
        let c = b as char;
        if c == '/' {
            continue;
        }
        let path = Fetcher::fetch_path("v", &format!("x{c}"));
        if c.is_ascii_control() || encoded.contains(c) {
            assert_eq!(path, format!("v/x%{b:02X}"));
        } else {
            assert_eq!(path, format!("v/x{c}"));
        }
    }
    assert_eq!(Fetcher::fetch_path("/v//", "."), "v/%2E");
    assert_eq!(Fetcher::fetch_path("", ""), "");
}

#[test]
fn running_invocation_record() {
    let running = RunningInvocation { invocation_id: 1, name: id("svc"), pid: 2 };
    assert_eq!((running.invocation_id, running.name.as_str(), running.pid), (1, "svc", 2));
}

// -- server ----------------------------------------------------------------

#[test]
fn connection_is_handed_over() {
    let mut state = Admission::Waiting;
    for event in
        [AdmissionEvent::Permitted, AdmissionEvent::Succeeded, AdmissionEvent::Succeeded]
    {
        state = Server::handle_connection(state, event).unwrap();
    }
    assert_eq!(state, Admission::Accepted);
    assert_eq!(Server::handle_connection(state, AdmissionEvent::Succeeded), None);
}

#[test]
fn connection_is_turned_away() {
    let state = Server::handle_connection(Admission::Waiting, AdmissionEvent::Refused);
    assert_eq!(state, Some(Admission::Bouncing));
    assert_eq!(Server::limit_reached(), "server connection limit reached");
    for event in [AdmissionEvent::Succeeded, AdmissionEvent::Failed] {
        let state = Server::handle_connection(Admission::Bouncing, event);
        assert_eq!(state, Some(Admission::Dropped));
    }
    assert_eq!(
        Server::handle_connection(Admission::Parsing, AdmissionEvent::Failed),
        Some(Admission::Dropped),
    );
}

// -- what holds of all inputs ----------------------------------------------

#[test]
fn processes_never_run_more_than_their_capacity() {
    let mut controller = Controller::new(3, 2, 2, id("r"));
    let mut placed = 0;
    for service in ["a", "b", "a", "c", "d", "a", "b", "b"] {
        if place(&mut controller, service).is_ok() {
            placed += 1;
        }
        assert!(controller.num_services() <= 3);
        for i in 0..controller.num_services() {
            assert!(controller.service(i).running_invocations() <= 2);
        }
    }
    assert_eq!(placed, 6);
}

#[test]
fn services_are_told_apart() {
    assert_ne!(service_id("v1", "a"), service_id("v1", "b"));
    assert_ne!(service_id("v1", "a"), service_id("v2", "a"));
    let req = b"POST /v1/svc/op/x HTTP/1.1\r\n\r\nSGVsbG8=";
    let connection = HttpConnection::from_tcp_stream(req).unwrap().unwrap();
    let path = format!("{}/{}", Orchestrator::service_id(&connection), connection.route);
    assert_eq!(path, connection.raw_path);
}

#[test]
fn descriptor_is_handed_over_or_closed() {
    let states = [
        Handling::Scheduling,
        Handling::Spawning,
        Handling::Sending,
        Handling::SendingFirst,
        Handling::Closing,
    ];
    for state in states {
        for event in [
            HandlingEvent::Placed,
            HandlingEvent::MustSpawn,
            HandlingEvent::NoRoom,
            HandlingEvent::Spawned,
            HandlingEvent::Sent,
            HandlingEvent::Closed,
            HandlingEvent::Error,
        ] {
            if let Some(next) = Orchestrator::handle_invocation(state, event) {
                let kept = states.contains(&next);
                let gone = event == HandlingEvent::Sent || event == HandlingEvent::Closed;
                assert_eq!(kept, !gone);
            }
        }
    }
}
