use std::collections::VecDeque;

use vortex::module_queue;
use vortex::network::http_connection::{validate_base64, HttpConnection};
use vortex::runner::control::{
    extract_fd, recv_invocation, Ancillary, FirstRead, InvocationRequest, Received, Receiver,
    RecvError,
};
use vortex::runner::invocation::{
    make_response, push_section, ExecutionPhase, Invocation, InvocationError, Takeover,
};
use vortex::runner::module_cache::{CompileError, ModuleCache};
use vortex::runner::request::{content_length, read_body, ReadStep, RequestReader};
use vortex::runner::serving::{ServerEvent, ServerState, TaskState};
use vortex::runner::wasm_run::{RunStep, StageOutcome, WasmStage};
use vortex::service::process::{drain_signals, ControlMessage, DrainVerdict, SocketRead};
use vortex::text::{parse_usize, push_decimal};
use wasmtime::component::Component;
use wasmtime::Engine;

// -- control socket --------------------------------------------------------

fn frame(service_id: &str, wasm: &[u8]) -> Vec<u8> {
    let message = ControlMessage::Invocation {
        service_id: service_id.to_string(),
        wasm_bytes: wasm.to_vec(),
        tcp_fd: 0,
    };
    let mut bytes = message.header();
    bytes.extend(message.id_bytes());
    bytes.extend(message.wasm_len_bytes());
    bytes.extend_from_slice(wasm);
    bytes
}

fn start(bytes: &[u8], fd: i32) -> Receiver {
    let ancillary = [Ancillary::Rights(fd)];
    let first = FirstRead::Received { bytes, ancillary: &ancillary };
    recv_invocation(first).unwrap().unwrap()
}

fn receive(bytes: &[u8], first: usize, fd: i32) -> Result<(InvocationRequest, usize), RecvError> {
    let mut receiver = start(&bytes[..first], fd);
    let mut at = first;
    loop {
        let n = receiver.needed();
        let piece = bytes[at..at + n].to_vec();
        at += n;
        match receiver.feed(piece)? {
            Received::More(next) => receiver = next,
            Received::Done(request) => return Ok((request, at)),
        }
    }
}

#[test]
fn frame_is_received_however_it_begins() {
    let mut bytes = frame("v1/své", &[1, 2, 3, 4]);
    let len = bytes.len();
    bytes.extend_from_slice(b"more");
    for first in 1..5 {
        let (request, read) = receive(&bytes, first, 11).unwrap();
        assert_eq!(request.service_id, "v1/své");
        assert_eq!(request.wasm_bytes, vec![1, 2, 3, 4]);
        assert_eq!(request.tcp_fd, 11);
        assert_eq!(read, len);
    }
}

#[test]
fn empty_frame_is_received() {
    let bytes = frame("", &[]);
    let (request, read) = receive(&bytes, 4, 3).unwrap();
    assert_eq!((request.service_id.as_str(), request.wasm_bytes.len(), read), ("", 0, 12));
}

#[test]
fn receiver_says_what_it_needs() {
    let receiver = start(&[5, 0], 1);
    assert_eq!(receiver.needed(), 2);
    let receiver = match receiver.feed(vec![0, 0]) {
        Ok(Received::More(next)) => next,
        _ => panic!("more is needed"),
    };
    assert_eq!(receiver.needed(), 5);
}

#[test]
fn first_read_without_a_message() {
    assert!(recv_invocation(FirstRead::Closed).unwrap().is_none());
    assert!(matches!(recv_invocation(FirstRead::Failed), Err(RecvError::Read)));
    let first = FirstRead::Received { bytes: &[1], ancillary: &[Ancillary::Other] };
    assert!(matches!(recv_invocation(first), Err(RecvError::NoDescriptor)));
    let first = FirstRead::Received { bytes: &[], ancillary: &[] };
    assert!(recv_invocation(first).unwrap().is_none());
}

#[test]
fn first_descriptor_counts() {
    let ancillary = [Ancillary::Other, Ancillary::Rights(4), Ancillary::Rights(5)];
    assert_eq!(extract_fd(&ancillary), Some(4));
    assert_eq!(extract_fd(&[]), None);
}

#[test]
fn service_id_must_be_text() {
    let bytes = [2, 0, 0, 0, 0xff, 0x41];
    match receive(&bytes, 4, 1) {
        Err(RecvError::ServiceIdNotUtf8 { bytes }) => assert_eq!(bytes, vec![0xff, 0x41]),
        _ => panic!("the service id is not text"),
    }
}

// -- request ---------------------------------------------------------------

fn read_in_pieces(pieces: &[&[u8]]) -> Result<ReadStep, String> {
    let mut reader = RequestReader::new();
    for piece in pieces {
        if let Some(n) = reader.needed() {
            assert_eq!(piece.len(), n);
        }
        match reader.read_request_body(piece)? {
            ReadStep::More(next) => reader = next,
            done => return Ok(done),
        }
    }
    Ok(ReadStep::More(reader))
}

fn data_of(step: ReadStep) -> (Vec<u8>, usize) {
    match step {
        ReadStep::Done(body) => (body.data, body.read),
        ReadStep::More(_) => panic!("more is needed"),
    }
}

#[test]
fn request_is_read_in_one_piece() {
    let req = b"POST /v1/s/r HTTP/1.1\r\nContent-Length: 8\r\n\r\nSGVsbG8=next";
    let (data, read) = data_of(read_in_pieces(&[req]).unwrap());
    assert_eq!(data, b"Hello");
    assert_eq!(read, 8);
}

#[test]
fn request_is_read_in_many_pieces() {
    let pieces: [&[u8]; 4] =
        [b"POST /v1/s/r HTTP/1.1\r\ncontent-LENGTH", b": 8\r\n\r", b"\nSGV", b"sbG8="];
    assert_eq!(data_of(read_in_pieces(&pieces).unwrap()), (b"Hello".to_vec(), 8));
}

#[test]
fn request_without_body() {
    let req = b"POST / HTTP/1.1\r\nContent-Length: 0\r\n\r\n";
    assert_eq!(data_of(read_in_pieces(&[req]).unwrap()), (Vec::new(), 0));
}

#[test]
fn request_log_line() {
    match read_body(b"SGVsbG8=") {
        Ok(ReadStep::Done(body)) => {
            assert_eq!(body.log_line(), "read 8 body bytes (5 decoded)\n");
        }
        _ => panic!("the body is base64"),
    }
}

#[test]
fn request_refused() {
    let refused = |piece: &[u8]| read_in_pieces(&[piece]).err().unwrap();
    assert_eq!(refused(b""), "connection closed before headers received");
    assert_eq!(refused(b"\xff\r\n\r\n"), "headers are not valid UTF-8");
    assert_eq!(refused(b"Host: x\r\n\r\n"), "missing Content-Length header");
    assert_eq!(
        refused(b"Content-Length: 1\r\n\r\n\xff"),
        "request body is not valid UTF-8",
    );
    assert_eq!(
        refused(b"Content-Length: 4\r\n\r\nSG!="),
        "invalid base64 body: Invalid symbol 33, offset 2.",
    );
    assert_eq!(
        refused(b"Content-Length: 3\r\n\r\nSG8"),
        "invalid base64 body: Invalid padding",
    );
    // Bits are left over in the last symbol.
    assert!(refused(b"Content-Length: 4\r\n\r\nSG9=").starts_with("invalid base64 body: "));
}

#[test]
fn base64_of_every_length() {
    let cases: [(&[u8], &[u8]); 5] = [
        (b"", b""),
        (b"Zg==", b"f"),
        (b"Zm8=", b"fo"),
        (b"Zm9v", b"foo"),
        (b"Zm9vYmFy", b"foobar"),
    ];
    for (text, data) in cases {
        assert_eq!(data_of(read_body(text).unwrap()), (data.to_vec(), text.len()));
    }
    assert_eq!(data_of(read_body(b"+/+/").unwrap()).0, vec![0xfb, 0xff, 0xbf]);
    assert!(read_body(b"-_-_").is_err());
}

#[test]
fn content_length_of_headers() {
    assert_eq!(content_length("a: b\r\nContent-Length: 42\r\nc: d"), Some(42));
    assert_eq!(content_length("  CONTENT-length\t:\u{3000} +7 \n"), Some(7));
    // A line that gives no length is passed over.
    assert_eq!(content_length("Content-Length: x\nContent-Length: 3"), Some(3));
    assert_eq!(content_length("Content-Length: 1\nContent-Length: 3"), Some(1));
    assert_eq!(content_length("Content-Length: -1"), None);
    assert_eq!(content_length("Content-Length: 99999999999999999999999"), None);
    assert_eq!(content_length("Content-Length:"), None);
    assert_eq!(content_length("Content-Length 5"), None);
    assert_eq!(content_length(""), None);
}

#[test]
fn numerals_as_std_reads_them() {
    for text in
        ["0", "+0", "007", "+", "", "-0", "1 2", "18446744073709551615", "18446744073709551616"]
    {
        let header = format!("Content-Length: {text}");
        assert_eq!(content_length(&header), text.trim().parse::<usize>().ok());
    }
}

#[test]
fn white_space_as_std_has_it() {
    for n in 0..0x11_0000u32 {
        if let Some(c) = char::from_u32(n) {
            assert_eq!(vortex::text::is_whitespace(c), c.is_whitespace());
        }
    }
}

// -- module cache ----------------------------------------------------------

/// The smallest component there is.
const COMPONENT: &[u8] = b"\0asm\x0d\0\x01\0";

fn cached(cache: &mut ModuleCache, id: &str) -> bool {
    cache.get(id).is_some()
}

#[test]
fn cache_compiles_once() {
    let mut cache = ModuleCache::new(Engine::default(), 2);
    assert!(!cached(&mut cache, "a"));
    assert!(cache.get_or_compile("a", COMPONENT).is_ok());
    // What is cached is not compiled again.
    assert!(cache.get_or_compile("a", b"no component").is_ok());
    let error = cache.get_or_compile("b", b"no component").err().unwrap();
    assert!(!error.cause.to_string().is_empty());
    assert!(!cached(&mut cache, "b"));
}

#[test]
fn cache_compiles_with_its_engine() {
    let engine = Engine::default();
    let mut cache = ModuleCache::new(engine.clone(), 2);
    let component = cache.get_or_compile("a", COMPONENT).ok().unwrap();
    assert!(Engine::same(component.engine(), &engine));
    assert!(Engine::same(cache.engine(), &engine));
    // The error is that of the compiler on the same bytes.
    let error = cache.get_or_compile("b", b"no component").err().unwrap();
    let expected = Component::new(&engine, b"no component").err().unwrap();
    assert_eq!(error.cause.to_string(), expected.to_string());
}

#[test]
fn cache_settles_what_was_compiled() {
    let engine = Engine::default();
    let mut cache = ModuleCache::new(engine.clone(), 2);
    let cause = Component::new(&engine, b"no component").err().unwrap();
    let text = cause.to_string();
    let error = cache.settle("a", Err(cause)).err().unwrap();
    assert_eq!(error.cause.to_string(), text);
    assert!(!cached(&mut cache, "a"));
    assert!(cache.settle("a", Component::new(&engine, COMPONENT)).is_ok());
    assert!(cached(&mut cache, "a"));
}

#[test]
fn cache_without_capacity_keeps_nothing() {
    let mut cache = ModuleCache::new(Engine::default(), 0);
    for id in ["a", "b", "a"] {
        assert!(cache.get_or_compile(id, COMPONENT).is_ok());
        assert!(!cached(&mut cache, id));
    }
    assert!(cache.get_or_compile("a", b"no component").is_err());
}

#[test]
fn cache_evicts_the_least_recently_used() {
    let engine = Engine::default();
    let component = Component::new(&engine, COMPONENT).unwrap();
    let mut cache = ModuleCache::new(engine, 2);
    cache.insert("a", component.clone());
    cache.insert("b", component.clone());
    assert!(cached(&mut cache, "a"));
    cache.insert("c", component);
    assert!(cached(&mut cache, "a"));
    assert!(!cached(&mut cache, "b"));
    assert!(cached(&mut cache, "c"));
    assert!(Component::new(cache.engine(), COMPONENT).is_ok());
}

// -- invocation ------------------------------------------------------------

fn invocation(id: u128) -> Invocation {
    let engine = Engine::default();
    let component = Component::new(&engine, COMPONENT).unwrap();
    Invocation { invocation_id: id, service_id: "v1/svc".to_string(), component }
}

const ID: u128 = 0x0123_4567_89ab_4cde_8f01_2345_6789_abcd;
const ID_TEXT: &str = "01234567-89ab-4cde-8f01-23456789abcd";

#[test]
fn invocation_gets_an_id() {
    let mut cache = ModuleCache::new(Engine::default(), 2);
    let create = |id: &str, wasm: &[u8], cache: &mut ModuleCache| {
        Invocation::new(id.to_string(), wasm, Takeover::Taken, cache)
    };
    let a = create("v1/svc", COMPONENT, &mut cache).ok().unwrap();
    let b = create("v1/svc", COMPONENT, &mut cache).ok().unwrap();
    assert_eq!(a.service_id, "v1/svc");
    assert_ne!(a.invocation_id, b.invocation_id);
    for inv in [&a, &b] {
        assert_eq!((inv.invocation_id >> 76) & 0xf, 4);
        assert_eq!((inv.invocation_id >> 62) & 3, 2);
        assert_eq!(inv.id_text().len(), 36);
    }
    assert!(matches!(create("v1/x", b"", &mut cache), Err(InvocationError::Compile(_))));
    assert!(!cached(&mut cache, "v1/x"));
}

#[test]
fn invocation_without_a_connection() {
    let mut cache = ModuleCache::new(Engine::default(), 2);
    for (takeover, message) in [
        (
            Takeover::Invalid { tcp_fd: -7, cause: "Bad file descriptor".to_string() },
            "tcp_fd=-7 is not a valid fd: Bad file descriptor",
        ),
        (
            Takeover::Invalid { tcp_fd: i32::MIN, cause: "x".to_string() },
            "tcp_fd=-2147483648 is not a valid fd: x",
        ),
        (Takeover::Invalid { tcp_fd: 42, cause: "x".to_string() }, "tcp_fd=42 is not a valid fd: x"),
        (Takeover::Failed("not a socket".to_string()), "not a socket"),
    ] {
        match Invocation::new("v1/svc".to_string(), COMPONENT, takeover, &mut cache) {
            Err(InvocationError::Descriptor(e)) => assert_eq!(e, message),
            _ => panic!("there is no connection"),
        }
        assert!(!cached(&mut cache, "v1/svc"));
    }
}

#[test]
fn invocation_fails_as_the_lookup_did() {
    let engine = Engine::default();
    let component = Component::new(&engine, COMPONENT).unwrap();
    let invocation = Invocation::of_lookup("v1/a".to_string(), Ok(component)).ok().unwrap();
    assert_eq!(invocation.service_id, "v1/a");
    let cause = Component::new(&engine, b"no component").err().unwrap();
    let text = cause.to_string();
    match Invocation::of_lookup("v1/a".to_string(), Err(CompileError { cause })) {
        Err(InvocationError::Compile(e)) => assert_eq!(e.cause.to_string(), text),
        _ => panic!("there is no component"),
    }
}

#[test]
fn invocation_log_begins() {
    let inv = invocation(ID);
    assert_eq!(inv.id_text(), ID_TEXT);
    assert_eq!(inv.open_log(), format!("invocation_id={ID_TEXT} service=v1/svc\n"));
    assert_eq!(inv.log_path(), format!("logs/v1/svc/{ID_TEXT}.log"));
}

#[test]
fn invocation_succeeds() {
    let inv = invocation(ID);
    let done = inv.execute("log\n".to_string(), None, b"out", b"err\n");
    assert_eq!(
        done.log,
        "log\n--- stdout ---\nout\n--- stderr ---\nerr\nstatus=ok\n",
    );
    assert_eq!(
        done.response,
        format!(
            "HTTP/1.1 200 OK\r\nContent-Type: application/json\r\nContent-Length: 56\r\n\r\n\
             {{\"invocation_id\":\"{ID_TEXT}\"}}"
        ),
    );
    assert_eq!(done.log_path, format!("logs/v1/svc/{ID_TEXT}.log"));
    assert_eq!(done.result, Ok(()));
}

#[test]
fn invocation_fails() {
    let inv = invocation(ID);
    let error = Some("call_run: é".to_string());
    let done = inv.execute(String::new(), error, b"", b"\xff");
    assert_eq!(
        done.log,
        "--- stderr ---\n\u{fffd}\nstatus=error error=call_run: é\n",
    );
    assert_eq!(done.result, Err("call_run: é".to_string()));
    let body = format!("{{\"invocation_id\":\"{ID_TEXT}\",\"error\":\"call_run: é\"}}");
    assert_eq!(
        done.response,
        format!(
            "HTTP/1.1 500 Internal Server Error\r\nContent-Type: application/json\r\n\
             Content-Length: {}\r\n\r\n{body}",
            body.len()
        ),
    );
}

#[test]
fn execution_without_a_request_ends() {
    assert_eq!(ExecutionPhase::Reading.next(false), Some(ExecutionPhase::Ended));
    assert_eq!(ExecutionPhase::Ended.next(true), None);
}

#[test]
fn execution_goes_through_its_phases() {
    for ran_well in [true, false] {
        let mut phase = ExecutionPhase::Reading;
        let mut course = Vec::new();
        while phase != ExecutionPhase::Ended {
            course.push(phase);
            let well = phase != ExecutionPhase::Running || ran_well;
            phase = phase.next(well).unwrap();
        }
        assert_eq!(
            course,
            vec![
                ExecutionPhase::Reading,
                ExecutionPhase::Running,
                ExecutionPhase::Answering,
                ExecutionPhase::Closing,
                ExecutionPhase::Storing,
            ],
        );
    }
    assert_eq!(ExecutionPhase::Answering.next(false), Some(ExecutionPhase::Ended));
    assert_eq!(ExecutionPhase::Closing.next(false), Some(ExecutionPhase::Ended));
}

#[test]
fn response_announces_its_body() {
    let body = "{\"é\":1}";
    let response = make_response("200 OK", body);
    let (head, rest) = response.split_once("\r\n\r\n").unwrap();
    assert_eq!(rest, body);
    assert_eq!(content_length(head), Some(body.len()));
}

#[test]
fn log_sections() {
    let mut log = String::from("x");
    push_section(&mut log, "T\n", b"", "ignored");
    assert_eq!(log, "x");
    push_section(&mut log, "T\n", b"a", "a");
    push_section(&mut log, "T\n", b"b\n", "b\n");
    assert_eq!(log, "xT\na\nT\nb\n");
}

// -- serving ---------------------------------------------------------------

fn task(created: bool, executed: bool) -> (Vec<u8>, Vec<TaskState>) {
    let mut signals = Vec::new();
    let mut states = Vec::new();
    let mut state = Some(TaskState::Creating);
    while let Some(s) = state {
        states.push(s);
        signals.extend(s.signal());
        state = s.next(if s == TaskState::Creating { created } else { executed });
    }
    (signals, states)
}

#[test]
fn task_signals_completion_once() {
    for created in [true, false] {
        for executed in [true, false] {
            let (signals, states) = task(created, executed);
            assert_eq!(signals, vec![0]);
            assert_eq!(states.contains(&TaskState::Executing), created);
        }
    }
}

#[test]
fn tasks_are_counted_off() {
    let signals: Vec<u8> =
        [(true, true), (false, true), (true, false)].iter().flat_map(|t| task(t.0, t.1).0).collect();
    assert_eq!(
        drain_signals(4, SocketRead::Received(&signals)),
        (1, DrainVerdict::Continue),
    );
}

#[test]
fn runner_reports_an_unreadable_socket_once() {
    for (last, expected) in [(ServerEvent::Closed, vec![]), (ServerEvent::Unreadable, vec![1])] {
        let mut signals = Vec::new();
        let mut state = ServerState::Receiving;
        for event in [ServerEvent::Received, ServerEvent::Done, last, ServerEvent::Done] {
            signals.extend(state.signal());
            match state.next(event) {
                Some(next) => state = next,
                None => break,
            }
        }
        assert_eq!(state, ServerState::Ended);
        assert_eq!(signals, expected);
        assert_eq!(state.next(ServerEvent::Received), None);
    }
}

// -- running a component ---------------------------------------------------

#[test]
fn run_passes_through_its_stages() {
    let stages = [
        WasmStage::LinkWasi,
        WasmStage::LinkHttp,
        WasmStage::PreInstantiate,
        WasmStage::PrepareCommand,
        WasmStage::Instantiate,
        WasmStage::CallRun,
    ];
    let mut log = String::new();
    for (i, stage) in stages.iter().enumerate() {
        let step = stage.advance(StageOutcome::Succeeded, &mut log);
        match stages.get(i + 1) {
            Some(next) => assert_eq!(step, RunStep::Next(*next)),
            None => assert_eq!(step, RunStep::Completed),
        }
    }
    assert_eq!(log, "component instantiating\ncalling wasi:cli/run\nrun returned ok\n");
}

#[test]
fn run_names_the_stage_that_fails() {
    let mut log = String::new();
    for (stage, error) in [
        (WasmStage::LinkWasi, "add wasi to linker: x"),
        (WasmStage::LinkHttp, "add http to linker: x"),
        (WasmStage::PreInstantiate, "instantiate_pre: x"),
        (WasmStage::PrepareCommand, "CommandPre::new: x"),
        (WasmStage::Instantiate, "instantiate: x"),
        (WasmStage::CallRun, "call_run: x"),
    ] {
        let step = stage.advance(StageOutcome::Failed("x".to_string()), &mut log);
        assert_eq!(step, RunStep::Failed(error.to_string()));
    }
    let step = WasmStage::CallRun.advance(StageOutcome::Reported, &mut log);
    let error = "wasm component returned error from wasi:cli/run".to_string();
    assert_eq!(step, RunStep::Failed(error));
    assert_eq!(log, "");
}

// -- what holds of all inputs ----------------------------------------------

#[test]
fn dispatcher_lets_base64_through() {
    let text = b"Zm9vYg==";
    for len in 1..text.len() + 1 {
        assert_eq!(validate_base64(&text[..len]), Ok(()));
    }
    assert!(read_body(text).is_ok());
}

#[test]
fn posted_data_arrives() {
    let req = b"POST /v1/svc/op HTTP/1.1\r\nContent-Length: 8\r\n\r\nSGVsbG8=";
    let head = req.len() - 8;
    for peeked in head + 1..req.len() + 1 {
        let connection = HttpConnection::from_tcp_stream(&req[..peeked]).unwrap().unwrap();
        assert_eq!(connection.service, "svc");
    }
    assert_eq!(data_of(read_in_pieces(&[req]).unwrap()), (b"Hello".to_vec(), 8));
}

#[test]
fn cache_mirrors_the_dispatcher() {
    let engine = Engine::default();
    let component = Component::new(&engine, COMPONENT).unwrap();
    let uses = ["a", "b", "c", "a", "d", "b", "b", "a", "e"];
    for n in 0..4 * (uses.len() + 1) {
        let limit = n % 4;
        let mut cache = ModuleCache::new(engine.clone(), limit);
        let mut queue = VecDeque::new();
        for id in &uses[..n / 4] {
            module_queue::track(&mut queue, limit, id.to_string());
            if cache.get(id).is_none() {
                cache.insert(id, component.clone());
            }
        }
        for id in ["a", "b", "c", "d", "e"] {
            assert_eq!(cached(&mut cache, id), queue.contains(&id.to_string()));
        }
    }
}

#[test]
fn ids_and_logs_are_told_apart() {
    let a = invocation(ID);
    let b = invocation(ID + 1);
    assert_ne!(a.id_text(), b.id_text());
    assert_ne!(a.log_path(), b.log_path());
    let mut c = invocation(ID);
    c.service_id = "v1/other".to_string();
    assert_ne!(a.log_path(), c.log_path());
    c.service_id = "v1//.".to_string();
    assert_eq!(c.log_path(), format!("logs/v1/%2E/{ID_TEXT}.log"));
}

#[test]
fn decimal_numerals_are_read_back() {
    for n in [0, 9, 10, 99, 100, 4096, usize::MAX] {
        let mut text = String::new();
        push_decimal(&mut text, n);
        assert_eq!(text, n.to_string());
        let digits: Vec<char> = text.chars().collect();
        assert_eq!(parse_usize(&digits), Some(n));
    }
}
