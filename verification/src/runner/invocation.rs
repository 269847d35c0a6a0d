//! An invocation on a runner: its identity, its log, and the response that the
//! client gets.
use vstd::arithmetic::div_mod::{lemma_div_denominator, lemma_div_pos_is_pos};
use vstd::arithmetic::power::{lemma_pow0, lemma_pow1, lemma_pow_adds, lemma_pow_positive, pow};
use vstd::prelude::*;
use vstd::string::*;
use vstd::utf8::*;
use wasmtime::component::Component;

use crate::network::http_connection;
use crate::runner::module_cache;
use crate::runner::module_cache::{CompileError, ModuleCache};
use crate::runner::request;
use crate::storage::object_path;
use crate::text;

verus! {

/// The `n` low hexadecimal digits of a number, in lower case.
pub open spec fn hex_digits(v: nat, n: nat) -> Seq<char>
    decreases n,
{
    if n == 0 {
        Seq::empty()
    } else {
        hex_digits(v / 16, (n - 1) as nat).push(text::digit(v % 16))
    }
}

/// The text of a UUID: 32 hexadecimal digits in groups of 8, 4, 4, 4 and 12.
pub open spec fn hyphenated(id: u128) -> Seq<char> {
    let d = hex_digits(id as nat, 32);
    let dash = seq!['-'];
    d.subrange(0, 8) + dash + d.subrange(8, 12) + dash + d.subrange(12, 16) + dash + d.subrange(
        16,
        20,
    ) + dash + d.subrange(20, 32)
}

/// A UUID of version 4 and of the variant of RFC 4122.
pub open spec fn is_random_uuid(id: u128) -> bool {
    (id >> 76) & 0xf == 4 && (id >> 62) & 3 == 2
}

/// `uuid::Uuid::new_v4`: a random UUID. Only its version and variant are fixed.
#[verifier::external_body]
fn new_uuid() -> (id: u128)
    ensures
        is_random_uuid(id),
{
    uuid::Uuid::new_v4().as_u128()
}

/// `<uuid::Uuid as Display>::fmt`: the hyphenated text of a UUID, in lower case.
#[verifier::external_body]
fn uuid_text(id: u128) -> (s: String)
    ensures
        s@ == hyphenated(id),
{
    uuid::Uuid::from_u128(id).to_string()
}

/// The section of a log for what a component has written, given as bytes and as
/// text. Nothing written makes no section, and a section ends in a line end.
pub open spec fn section(title: Seq<char>, bytes: Seq<u8>, text: Seq<char>) -> Seq<char> {
    if bytes.len() == 0 {
        Seq::empty()
    } else if bytes.last() == 0x0a {
        title + text
    } else {
        title + text + "\n"@
    }
}

/// Appends the section for what a component has written.
pub fn push_section(log: &mut String, title: &str, bytes: &[u8], text: &str)
    ensures
        final(log)@ == old(log)@ + section(title@, bytes@, text@),
{
    let ghost before = log@;
    let len = bytes.len();
    if len > 0 {
        log.append(title);
        log.append(text);
        if bytes[len - 1] != 0x0a {
            log.append("\n");
        }
    }
    assert(log@ =~= before + section(title@, bytes@, text@));
}

/// What the client is told of an invocation that succeeded.
pub open spec fn success_body(id: u128) -> Seq<char> {
    "{\"invocation_id\":\""@ + hyphenated(id) + "\"}"@
}

/// What the client is told of an invocation that failed.
pub open spec fn failure_body(id: u128, error: Seq<char>) -> Seq<char> {
    "{\"invocation_id\":\""@ + hyphenated(id) + "\",\"error\":\""@ + error + "\"}"@
}

/// A response with a JSON body.
pub open spec fn json_response(status: Seq<char>, body: Seq<char>) -> Seq<char> {
    "HTTP/1.1 "@ + status + "\r\nContent-Type: application/json\r\nContent-Length: "@
        + text::decimal(encode_utf8(body).len()) + "\r\n\r\n"@ + body
}

/// Makes a response with a JSON body.
pub fn make_response(status: &str, body: &str) -> (response: String)
    ensures
        response@ == json_response(status@, body@),
{
    let mut response = "HTTP/1.1 ".to_owned();
    response.append(status);
    response.append("\r\nContent-Type: application/json\r\nContent-Length: ");
    text::push_decimal(&mut response, body.as_bytes().len());
    response.append("\r\n\r\n");
    response.append(body);
    response
}

/// An invocation.
pub struct Invocation {
    pub invocation_id: u128,
    pub service_id: String,
    /// The component that is run.
    pub component: Component,
}

/// What came of taking over the connection that an invocation originates from.
#[derive(Debug)]
pub enum Takeover {
    /// The connection is at hand.
    Taken,
    /// The descriptor is not one.
    Invalid { tcp_fd: i32, cause: String },
    /// The connection could not be made ready.
    Failed(String),
}

impl Takeover {
    /// The error for a connection that is not at hand.
    pub open spec fn spec_refusal(self) -> Option<Seq<char>> {
        match self {
            Takeover::Taken => None,
            Takeover::Invalid { tcp_fd, cause } => Some(
                "tcp_fd="@ + text::signed_decimal(tcp_fd as int) + " is not a valid fd: "@ + cause@,
            ),
            Takeover::Failed(cause) => Some(cause@),
        }
    }

    /// The error for a connection that is not at hand.
    pub fn refusal(&self) -> (r: Option<String>)
        ensures
            match self.spec_refusal() {
                None => r is None,
                Some(message) => r matches Some(m) && m@ == message,
            },
    {
        match self {
            Takeover::Taken => None,
            Takeover::Invalid { tcp_fd, cause } => {
                let mut message = "tcp_fd=".to_owned();
                text::push_signed_decimal(&mut message, *tcp_fd);
                message.append(" is not a valid fd: ");
                message.append(cause.as_str());
                Some(message)
            },
            Takeover::Failed(cause) => Some(cause.clone()),
        }
    }
}

/// Why an invocation could not be created.
#[derive(Debug)]
pub enum InvocationError {
    /// The connection could not be taken over.
    Descriptor(String),
    /// The component could not be had.
    Compile(CompileError),
}

/// What comes of an invocation.
pub struct Execution {
    /// The response for the client.
    pub response: String,
    /// The log, complete.
    pub log: String,
    /// The path under which the log is stored.
    pub log_path: String,
    /// How the invocation ends: with the error of the component, if it failed.
    pub result: Result<(), String>,
}

/// Where the execution of an invocation stands.
#[derive(Debug, Clone, Copy, PartialEq, Eq, Structural)]
pub enum ExecutionPhase {
    /// The request is being read.
    Reading,
    /// The component is being run.
    Running,
    /// The response is being sent.
    Answering,
    /// The connection is being shut down.
    Closing,
    /// The log is being stored.
    Storing,
    /// The execution has ended.
    Ended,
}

impl ExecutionPhase {
    /// The phase that follows one that went well or did not. A component that
    /// fails is answered for as well as one that succeeds; whatever else fails
    /// ends the execution.
    pub open spec fn following(self, well: bool) -> Option<ExecutionPhase> {
        match self {
            ExecutionPhase::Reading => Some(
                if well {
                    ExecutionPhase::Running
                } else {
                    ExecutionPhase::Ended
                },
            ),
            ExecutionPhase::Running => Some(ExecutionPhase::Answering),
            ExecutionPhase::Answering => Some(
                if well {
                    ExecutionPhase::Closing
                } else {
                    ExecutionPhase::Ended
                },
            ),
            ExecutionPhase::Closing => Some(
                if well {
                    ExecutionPhase::Storing
                } else {
                    ExecutionPhase::Ended
                },
            ),
            ExecutionPhase::Storing => Some(ExecutionPhase::Ended),
            ExecutionPhase::Ended => None,
        }
    }

    /// The phases that an execution goes through from one on, given how each goes.
    pub open spec fn course(self, well: Seq<bool>) -> Seq<ExecutionPhase>
        decreases well.len(),
    {
        if well.len() == 0 {
            seq![self]
        } else {
            match self.following(well[0]) {
                Some(next) => seq![self] + next.course(well.drop_first()),
                None => seq![self],
            }
        }
    }

    /// How far along a phase is.
    pub open spec fn rank(self) -> int {
        match self {
            ExecutionPhase::Reading => 0,
            ExecutionPhase::Running => 1,
            ExecutionPhase::Answering => 2,
            ExecutionPhase::Closing => 3,
            ExecutionPhase::Storing => 4,
            ExecutionPhase::Ended => 5,
        }
    }

    /// The phase that follows one that went well or did not; `None` after the end.
    pub fn next(self, well: bool) -> (r: Option<ExecutionPhase>)
        ensures
            r == self.following(well),
    {
        match self {
            ExecutionPhase::Running => Some(ExecutionPhase::Answering),
            ExecutionPhase::Ended => None,
            ExecutionPhase::Storing => Some(ExecutionPhase::Ended),
            _ if !well => Some(ExecutionPhase::Ended),
            ExecutionPhase::Reading => Some(ExecutionPhase::Running),
            ExecutionPhase::Answering => Some(ExecutionPhase::Closing),
            ExecutionPhase::Closing => Some(ExecutionPhase::Storing),
        }
    }
}

/// The response to an invocation, given the error where it failed.
pub open spec fn response_of(id: u128, error: Option<Seq<char>>) -> Seq<char> {
    match error {
        None => json_response("200 OK"@, success_body(id)),
        Some(e) => json_response("500 Internal Server Error"@, failure_body(id, e)),
    }
}

/// The first line of a log.
pub open spec fn first_line(id: u128, service_id: Seq<char>) -> Seq<char> {
    "invocation_id="@ + hyphenated(id) + " service="@ + service_id + "\n"@
}

/// The last line of a log.
pub open spec fn status_line(error: Option<Seq<char>>) -> Seq<char> {
    match error {
        None => "status=ok\n"@,
        Some(e) => "status=error error="@ + e + "\n"@,
    }
}

/// The log of an invocation that has been concluded: what it held, what the
/// component has written, and how it ended.
pub open spec fn log_of(
    log: Seq<char>,
    stdout: Seq<u8>,
    stderr: Seq<u8>,
    error: Option<Seq<char>>,
) -> Seq<char> {
    log + section("--- stdout ---\n"@, stdout, text::lossy(stdout)) + section(
        "--- stderr ---\n"@,
        stderr,
        text::lossy(stderr),
    ) + status_line(error)
}

/// Where the log of an invocation belongs.
pub open spec fn log_name(id: u128, service_id: Seq<char>) -> Seq<char> {
    "logs/"@ + service_id + "/"@ + hyphenated(id) + ".log"@
}

impl Invocation {
    /// An invocation of a service whose component is at hand, under a new id.
    pub fn of_component(service_id: String, component: Component) -> (invocation: Self)
        ensures
            is_random_uuid(invocation.invocation_id),
            invocation.service_id@ == service_id@,
            invocation.component == component,
    {
        Invocation { invocation_id: new_uuid(), service_id, component }
    }

    /// An invocation of a service by what looking for its component has given: one
    /// where there is a component, and the error where there is none.
    pub fn of_lookup(service_id: String, found: Result<Component, CompileError>) -> (r: Result<
        Self,
        InvocationError,
    >)
        ensures
            match found {
                Ok(component) => {
                    &&& r matches Ok(invocation)
                    &&& is_random_uuid(invocation.invocation_id)
                    &&& invocation.service_id@ == service_id@
                    &&& invocation.component == component
                },
                Err(e) => r == Err::<Self, InvocationError>(InvocationError::Compile(e)),
            },
    {
        match found {
            Ok(component) => Ok(Invocation::of_component(service_id, component)),
            Err(e) => Err(InvocationError::Compile(e)),
        }
    }

    /// Creates a new invocation, given what came of taking over the connection that
    /// it originates from. Compiles the component (or retrieves it from the cache).
    /// Without the connection the cache is not asked.
    pub fn new(
        service_id: String,
        wasm_bytes: &[u8],
        takeover: Takeover,
        module_cache: &mut ModuleCache,
    ) -> (r: Result<Self, InvocationError>)
        ensures
            final(module_cache).spec_engine() == old(module_cache).spec_engine(),
            old(module_cache)@.well_formed() ==> final(module_cache)@.well_formed(),
            r matches Ok(invocation) ==> {
                &&& is_random_uuid(invocation.invocation_id)
                &&& invocation.service_id@ == service_id@
            },
            takeover.spec_refusal() matches Some(message) ==> {
                &&& r matches Err(InvocationError::Descriptor(e))
                &&& e@ == message
                &&& final(module_cache)@ == old(module_cache)@
            },
            takeover is Taken && old(module_cache)@.components.contains_key(service_id@) ==> {
                &&& r matches Ok(invocation)
                &&& invocation.component == old(module_cache)@.components[service_id@]
                &&& final(module_cache)@ == old(module_cache)@.used(service_id@)
            },
            takeover is Taken && !old(module_cache)@.components.contains_key(service_id@) ==> {
                let engine = old(module_cache).spec_engine();
                match r {
                    Ok(invocation) => {
                        let component = invocation.component;
                        &&& module_cache::compiled_from(component) == wasm_bytes@
                        &&& module_cache::engine_of(component) == engine
                        &&& final(module_cache)@ == old(module_cache)@.admitted(
                            service_id@,
                            component,
                        )
                    },
                    Err(e) => {
                        &&& e matches InvocationError::Compile(failed)
                        &&& module_cache::attempt_of(failed.cause) == (engine, wasm_bytes@)
                        &&& final(module_cache)@ == old(module_cache)@
                    },
                }
            },
    {
        if let Some(message) = takeover.refusal() {
            return Err(InvocationError::Descriptor(message));
        }
        let found = module_cache.get_or_compile(service_id.as_str(), wasm_bytes);
        Invocation::of_lookup(service_id, found)
    }

    /// The id as text.
    pub fn id_text(&self) -> (id: String)
        ensures
            id@ == hyphenated(self.invocation_id),
    {
        uuid_text(self.invocation_id)
    }

    /// The first line of the log.
    pub fn open_log(&self) -> (log: String)
        ensures
            log@ == "invocation_id="@ + hyphenated(self.invocation_id) + " service="@
                + self.service_id@ + "\n"@,
            log@ == first_line(self.invocation_id, self.service_id@),
    {
        let mut log = "invocation_id=".to_owned();
        log.append(uuid_text(self.invocation_id).as_str());
        log.append(" service=");
        log.append(self.service_id.as_str());
        log.append("\n");
        log
    }

    fn status(&self, error: &Option<String>) -> (r: (String, String))
        ensures
            r.0@ == response_of(
                self.invocation_id,
                match *error {
                    None => None,
                    Some(e) => Some(e@),
                },
            ),
            r.1@ == status_line(
                match *error {
                    None => None,
                    Some(e) => Some(e@),
                },
            ),
    {
        let id = uuid_text(self.invocation_id);
        let mut body = "{\"invocation_id\":\"".to_owned();
        body.append(id.as_str());
        match error {
            None => {
                body.append("\"}");
                (make_response("200 OK", body.as_str()), "status=ok\n".to_owned())
            },
            Some(e) => {
                body.append("\",\"error\":\"");
                body.append(e.as_str());
                body.append("\"}");
                let mut line = "status=error error=".to_owned();
                line.append(e.as_str());
                line.append("\n");
                (make_response("500 Internal Server Error", body.as_str()), line)
            },
        }
    }

    /// Where the log is stored.
    pub fn log_path(&self) -> (path: String)
        ensures
            path@ == object_path::object_path(log_name(self.invocation_id, self.service_id@)),
    {
        let mut name = "logs/".to_owned();
        name.append(self.service_id.as_str());
        name.append("/");
        name.append(uuid_text(self.invocation_id).as_str());
        name.append(".log");
        object_path::path_of(name.as_str())
    }

    /// Concludes an invocation whose component has been run: appends what the
    /// component has written and how it ended to the log, and makes the response.
    /// The invocation ends as the component did.
    pub fn execute(
        &self,
        log: String,
        error: Option<String>,
        stdout: &[u8],
        stderr: &[u8],
    ) -> (r: Execution)
        ensures
            ({
                let why = match error {
                    None => None,
                    Some(e) => Some(e@),
                };
                &&& r.log@ == log@ + section("--- stdout ---\n"@, stdout@, text::lossy(stdout@))
                    + section("--- stderr ---\n"@, stderr@, text::lossy(stderr@)) + status_line(why)
                &&& r.log@ == log_of(log@, stdout@, stderr@, why)
                &&& log@.is_prefix_of(r.log@)
                &&& stdout@.len() > 0 ==> (log@ + "--- stdout ---\n"@ + text::lossy(
                    stdout@,
                )).is_prefix_of(r.log@)
                &&& stderr@.len() > 0 && stdout@.len() == 0 ==> (log@ + "--- stderr ---\n"@
                    + text::lossy(stderr@)).is_prefix_of(r.log@)
                &&& error is None ==> "status=ok\n"@.is_suffix_of(r.log@)
                &&& error matches Some(e) ==> ("status=error error="@ + e@
                    + "\n"@).is_suffix_of(r.log@)
                &&& r.response@ == response_of(self.invocation_id, why)
            }),
            match (error, r.result) {
                (None, Ok(())) => true,
                (Some(e), Err(f)) => f@ == e@,
                _ => false,
            },
            r.log_path@ == object_path::object_path(
                log_name(self.invocation_id, self.service_id@),
            ),
    {
        let ghost start = log@;
        let mut log = log;
        push_section(&mut log, "--- stdout ---\n", stdout, text::text_lossy(stdout).as_str());
        push_section(&mut log, "--- stderr ---\n", stderr, text::text_lossy(stderr).as_str());
        let (response, line) = self.status(&error);
        log.append(line.as_str());
        proof {
            let why = if error is None {
                None
            } else {
                Some((error->0)@)
            };
            law_log_begins_and_ends(start, stdout@, stderr@, why);
            assert(log@ =~= log_of(start, stdout@, stderr@, why));
        }
        let result = match error {
            None => Ok(()),
            Some(e) => Err(e),
        };
        Execution { response, log, log_path: self.log_path(), result }
    }
}

/// An execution goes through its phases in their order and through none twice, so
/// that one response is sent and one log stored at most.
pub proof fn law_phases_in_order(start: ExecutionPhase, well: Seq<bool>)
    ensures
        ({
            let course = start.course(well);
            &&& course.len() > 0
            &&& course[0] == start
            &&& forall|i: int, j: int|
                0 <= i < j < course.len() ==> (#[trigger] course[i]).rank() < (
                #[trigger] course[j]).rank()
        }),
    decreases well.len(),
{
    if well.len() > 0 {
        if let Some(next) = start.following(well[0]) {
            law_phases_in_order(next, well.drop_first());
            let rest = next.course(well.drop_first());
            let course = start.course(well);
            assert forall|i: int, j: int| 0 <= i < j < course.len() implies (
            #[trigger] course[i]).rank() < (#[trigger] course[j]).rank() by {
                assert(course[j] == rest[j - 1]);
                if i > 0 {
                    assert(course[i] == rest[i - 1]);
                } else if j > 1 {
                    assert(rest[0].rank() < rest[j - 1].rank());
                }
            }
        }
    }
}

/// Where the request cannot be read, nothing is run, answered or stored; where it
/// can, the component is run and the client answered, whatever comes of the run.
pub proof fn law_nothing_without_a_request(well: Seq<bool>)
    requires
        well.len() >= 2,
    ensures
        !well[0] ==> ExecutionPhase::Reading.course(well) == seq![
            ExecutionPhase::Reading,
            ExecutionPhase::Ended,
        ],
        well[0] ==> ExecutionPhase::Reading.course(well)[1] == ExecutionPhase::Running
            && ExecutionPhase::Reading.course(well)[2] == ExecutionPhase::Answering,
{
    reveal_with_fuel(ExecutionPhase::course, 3);
    law_phases_in_order(ExecutionPhase::Answering, well.drop_first().drop_first());
    assert(well.drop_first()[0] == well[1]);
    assert(!well[0] ==> ExecutionPhase::Reading.course(well) =~= seq![
        ExecutionPhase::Reading,
        ExecutionPhase::Ended,
    ]);
}

/// `16^n`.
spec fn hex_limit(n: nat) -> nat
    decreases n,
{
    if n == 0 {
        1
    } else {
        16 * hex_limit((n - 1) as nat)
    }
}

proof fn lemma_hex_limit()
    ensures
        hex_limit(32) == u128::MAX + 1,
{
    reveal_with_fuel(hex_limit, 33);
}

proof fn lemma_hex_digits_len(v: nat, n: nat)
    ensures
        hex_digits(v, n).len() == n,
    decreases n,
{
    if n > 0 {
        lemma_hex_digits_len(v / 16, (n - 1) as nat);
    }
}

proof fn lemma_hex_digits_apart(v: nat, w: nat, n: nat)
    requires
        v < hex_limit(n),
        w < hex_limit(n),
        hex_digits(v, n) == hex_digits(w, n),
    ensures
        v == w,
    decreases n,
{
    if n > 0 {
        let m = (n - 1) as nat;
        assert(hex_digits(v, n).last() == text::digit(v % 16));
        assert(hex_digits(w, n).last() == text::digit(w % 16));
        assert(v % 16 == w % 16);
        assert(hex_digits(v, n).drop_last() =~= hex_digits(v / 16, m));
        assert(hex_digits(w, n).drop_last() =~= hex_digits(w / 16, m));
        lemma_hex_digits_apart(v / 16, w / 16, m);
    }
}

/// No two ids have the same text.
pub proof fn law_one_text_per_id(a: u128, b: u128)
    requires
        hyphenated(a) == hyphenated(b),
    ensures
        a == b,
{
    let s = hyphenated(a);
    let c = hex_digits(a as nat, 32);
    let d = hex_digits(b as nat, 32);
    lemma_hex_digits_len(a as nat, 32);
    lemma_hex_digits_len(b as nat, 32);
    lemma_hyphenated(a);
    lemma_hyphenated(b);
    assert forall|i: int| 0 <= i < 32 implies c[i] == d[i] by {
        let k = if i < 8 {
            i
        } else if i < 12 {
            i + 1
        } else if i < 16 {
            i + 2
        } else if i < 20 {
            i + 3
        } else {
            i + 4
        };
        assert(s[k] == c[i]);
        assert(s[k] == d[i]);
    }
    assert(c =~= d);
    lemma_hex_limit();
    lemma_hex_digits_apart(a as nat, b as nat, 32);
}

/// The text of an id has 36 characters.
proof fn lemma_hyphenated(id: u128)
    ensures
        hyphenated(id).len() == 36,
{
    lemma_hex_digits_len(id as nat, 32);
}

/// No two invocations have a log of the same name, not even where they are of
/// different services.
pub proof fn law_one_log_per_invocation(a: u128, b: u128, s: Seq<char>, t: Seq<char>)
    requires
        log_name(a, s) == log_name(b, t),
    ensures
        a == b,
        s == t,
{
    reveal_strlit("logs/");
    reveal_strlit("/");
    reveal_strlit(".log");
    lemma_hyphenated(a);
    lemma_hyphenated(b);
    let n = log_name(a, s).len();
    assert(log_name(a, s).subrange(5, 5 + s.len() as int) =~= s);
    assert(log_name(b, t).subrange(5, 5 + t.len() as int) =~= t);
    assert(log_name(a, s).subrange(n - 40, n - 4) =~= hyphenated(a));
    assert(log_name(b, t).subrange(n - 40, n - 4) =~= hyphenated(b));
    law_one_text_per_id(a, b);
}

/// A status that may stand in a response: printable ASCII without a colon.
pub open spec fn is_status(status: Seq<char>) -> bool {
    forall|i: int|
        0 <= i < status.len() ==> ' ' <= #[trigger] status[i] <= '~' && status[i] != ':'
}

/// The head of a response, without its terminator.
spec fn response_head(status: Seq<char>, len: nat) -> Seq<char> {
    "HTTP/1.1 "@ + status + "\r\nContent-Type: application/json\r\nContent-Length: "@
        + text::decimal(len)
}

/// A response is read as it was meant: its headers end where the body begins, and
/// the length that they announce is the number of bytes that follow.
pub proof fn law_response_announces_its_body(status: Seq<char>, body: Seq<char>)
    requires
        is_status(status),
        encode_utf8(body).len() <= usize::MAX,
    ensures
        ({
            let bytes = encode_utf8(json_response(status, body));
            &&& http_connection::header_end(bytes) matches Some(end)
            &&& request::headers_length(decode_utf8(bytes.take(end))) == Some(
                encode_utf8(body).len(),
            )
            &&& bytes.skip(end + 4) == encode_utf8(body)
        }),
{
    let len = encode_utf8(body).len();
    let head = response_head(status, len);
    let h = head.len() as int;
    let bytes = encode_utf8(json_response(status, body));
    lemma_head(status, len);
    let gap = "\r\n\r\n"@;
    reveal_strlit("\r\n\r\n");
    assert(json_response(status, body) =~= head + gap + body);
    assert(is_ascii_chars(head + gap));
    text::lemma_encode_concat(head + gap, body);
    is_ascii_chars_encode_utf8(head + gap);
    is_ascii_chars_encode_utf8(head);
    let front = encode_utf8(head + gap);
    assert(forall|i: int| 0 <= i < h ==> front[i] == #[trigger] (head + gap)[i] as u8);
    assert(bytes == front + encode_utf8(body));
    assert(bytes.skip(h + 4) =~= encode_utf8(body));
    assert(bytes.take(h) =~= encode_utf8(head)) by {
        assert forall|i: int| 0 <= i < h implies #[trigger] bytes[i] == encode_utf8(head)[i] by {
            assert((head + gap)[i] == head[i]);
        }
    }
    encode_utf8_decode_utf8(head);
    assert((head + gap)[h] == '\r' && (head + gap)[h + 1] == '\n' && (head + gap)[h + 2] == '\r' && (
    head + gap)[h + 3] == '\n');
    assert(http_connection::terminator_at(bytes, h));
    assert forall|k: int| 0 <= k < h implies !http_connection::terminator_at(bytes, k) by {
        if http_connection::terminator_at(bytes, k) {
            assert((head + gap)[k] as u8 == bytes[k]);
            assert(head[k] == '\r');
            assert((head + gap)[k + 2] as u8 == bytes[k + 2]);
            assert(head[k + 2] == '\r');
        }
    }
    http_connection::lemma_header_end(bytes);
}

/// The body that the client is sent.
pub open spec fn body_of(id: u128, error: Option<Seq<char>>) -> Seq<char> {
    match error {
        None => success_body(id),
        Some(e) => failure_body(id, e),
    }
}

/// A client that reads the response to an invocation finds the whole body and
/// nothing else, whether the invocation succeeded or failed.
pub proof fn law_client_finds_body(id: u128, error: Option<Seq<char>>)
    requires
        encode_utf8(body_of(id, error)).len() <= usize::MAX,
    ensures
        ({
            let bytes = encode_utf8(response_of(id, error));
            &&& http_connection::header_end(bytes) matches Some(end)
            &&& request::headers_length(decode_utf8(bytes.take(end))) == Some(
                encode_utf8(body_of(id, error)).len(),
            )
            &&& bytes.skip(end + 4) == encode_utf8(body_of(id, error))
        }),
{
    reveal_strlit("200 OK");
    reveal_strlit("500 Internal Server Error");
    assert(is_status("200 OK"@));
    assert(is_status("500 Internal Server Error"@));
    law_response_announces_its_body(
        match error {
            None => "200 OK"@,
            Some(e) => "500 Internal Server Error"@,
        },
        body_of(id, error),
    );
}

/// The head of a response: plain ASCII, in which no carriage return stands two
/// places after another or at the end, and which announces the length.
proof fn lemma_head(status: Seq<char>, len: nat)
    requires
        is_status(status),
        len <= usize::MAX,
    ensures
        ({
            let head = response_head(status, len);
            &&& is_ascii_chars(head)
            &&& forall|k: int|
                0 <= k < head.len() && #[trigger] head[k] == '\r' ==> k + 2 < head.len() && head[k
                    + 2] != '\r'
            &&& request::headers_length(head) == Some(len)
        }),
{
    let head = response_head(status, len);
    let s = status.len() as int;
    let start = "HTTP/1.1 "@;
    let middle = "\r\nContent-Type: application/json\r\nContent-Length: "@;
    let digits = text::decimal(len);
    reveal_strlit("HTTP/1.1 ");
    reveal_strlit("\r\nContent-Type: application/json\r\nContent-Length: ");
    reveal_strlit("content-length");
    text::lemma_decimal(len);
    text::law_decimal_read_back(len as usize);
    assert(start.len() == 9 && middle.len() == 50);
    assert forall|k: int| 0 <= k < head.len() implies #[trigger] head[k] == (if k < 9 {
        start[k]
    } else if k < 9 + s {
        status[k - 9]
    } else if k < 59 + s {
        middle[k - 9 - s]
    } else {
        digits[k - 59 - s]
    }) by {}
    assert forall|k: int| 0 <= k < head.len() && #[trigger] head[k] == '\r' implies k + 2
        < head.len() && head[k + 2] != '\r' by {
        assert(k == 9 + s || k == 41 + s);
        assert(head[k + 2] == middle[k + 2 - 9 - s]);
    }
    assert forall|k: int| 0 <= k < head.len() implies '\0' <= #[trigger] head[k] <= '\u{7f}' by {
        if k >= 59 + s {
            text::lemma_digit_char(digits[k - 59 - s]);
        }
    }
    // The request line has no colon.
    let first = 9 + s + 1;
    assert(head[first] == '\n') by {
        assert(head[first] == middle[1]);
    }
    text::lemma_position_is(head, '\n', first);
    let line = head.take(first);
    assert(forall|k: int| 0 <= k < line.len() ==> #[trigger] line[k] != ':');
    text::lemma_position(line, ':');
    assert(request::line_length(line) is None);
    // The next line has another name.
    let rest = head.skip(first + 1);
    assert forall|k: int| 0 <= k < 48 implies #[trigger] rest[k] == middle[k + 2] by {
        assert(rest[k] == head[k + first + 1]);
    }
    text::lemma_position_is(rest, '\n', 31);
    let second = rest.take(31);
    text::lemma_position_is(second, ':', 12);
    text::lemma_trimmed(second.take(12));
    assert(request::line_length(second) is None);
    // The last line announces the length.
    let last = rest.skip(32);
    assert forall|k: int| 0 <= k < 16 implies #[trigger] last[k] == middle[k + 34] by {
        assert(last[k] == rest[k + 32]);
    }
    assert(last.skip(16) =~= digits);
    assert forall|k: int| 0 <= k < last.len() implies #[trigger] last[k] != '\n' by {
        if k >= 16 {
            assert(last[k] == digits[k - 16]);
        }
    }
    text::lemma_position(last, '\n');
    text::lemma_position_is(last, ':', 14);
    let key = last.take(14);
    text::lemma_trimmed(key);
    assert(text::same_but_case(key, "content-length"@));
    let value = last.skip(15);
    assert(value.drop_first() =~= digits);
    text::lemma_trimmed(digits);
    assert(value[0] == ' ');
    assert(text::trimmed_start(value) == text::trimmed_start(digits));
    assert(request::line_length(last) == Some(len));
    assert(request::headers_length(last) == Some(len));
    assert(request::headers_length(rest) == Some(len));
}

/// Whatever a component has written, however long, stands whole behind its title;
/// one line end is added where it does not end in one, and nothing else. Nothing
/// written leaves no trace.
pub proof fn law_section_holds_output(
    title: Seq<char>,
    before: Seq<u8>,
    last: u8,
    text: Seq<char>,
)
    ensures
        last == 0x0a ==> section(title, before.push(last), text) == title + text,
        last != 0x0a ==> section(title, before.push(last), text) == (title + text).push('\n'),
        section(title, Seq::empty(), text).len() == 0,
{
    reveal_strlit("\n");
    assert((title + text).push('\n') =~= title + text + "\n"@);
}

/// A log begins with what it held before; then comes all that the component has
/// written to its output, then all that it has written to its error output, each
/// behind its title, and last how it ended.
pub proof fn law_log_begins_and_ends(
    log: Seq<char>,
    stdout: Seq<u8>,
    stderr: Seq<u8>,
    error: Option<Seq<char>>,
)
    ensures
        ({
            let whole = log_of(log, stdout, stderr, error);
            &&& log.is_prefix_of(whole)
            &&& stdout.len() > 0 ==> (log + "--- stdout ---\n"@ + text::lossy(stdout)).is_prefix_of(
                whole,
            )
            &&& stderr.len() > 0 && stdout.len() == 0 ==> (log + "--- stderr ---\n"@ + text::lossy(
                stderr,
            )).is_prefix_of(whole)
            &&& error is None ==> "status=ok\n"@.is_suffix_of(whole)
            &&& error matches Some(e) ==> ("status=error error="@ + e + "\n"@).is_suffix_of(whole)
        }),
{
    let whole = log_of(log, stdout, stderr, error);
    let end = status_line(error);
    assert(whole.skip(whole.len() - end.len()) =~= end);
    assert(end.is_suffix_of(whole));
    assert(whole.take(log.len() as int) =~= log);
    if stdout.len() > 0 {
        let begun = log + "--- stdout ---\n"@ + text::lossy(stdout);
        assert(whole.take(begun.len() as int) =~= begun);
    } else if stderr.len() > 0 {
        let begun = log + "--- stderr ---\n"@ + text::lossy(stderr);
        assert(whole.take(begun.len() as int) =~= begun);
    }
}

/// What follows a text in a log so that it ends in a line end.
pub open spec fn line_end_after(bytes: Seq<u8>) -> Seq<char> {
    if bytes.len() > 0 && bytes.last() == 0x0a {
        Seq::empty()
    } else {
        seq!['\n']
    }
}

/// The two outputs do not mix: each stands in the log as it would alone, the error
/// output after the output, and nothing is added but their titles, the line ends
/// that they lack, and how the component ended.
pub proof fn law_outputs_follow_each_other(
    log: Seq<char>,
    stdout: Seq<u8>,
    stderr: Seq<u8>,
    error: Option<Seq<char>>,
)
    ensures
        ({
            let whole = log_of(log, stdout, stderr, error);
            let out = "--- stdout ---\n"@ + text::lossy(stdout) + line_end_after(stdout);
            let err = "--- stderr ---\n"@ + text::lossy(stderr) + line_end_after(stderr);
            let end = match error {
                None => "status=ok\n"@,
                Some(e) => "status=error error="@ + e + "\n"@,
            };
            &&& stdout.len() == 0 && stderr.len() == 0 ==> whole == log + end
            &&& stdout.len() > 0 && stderr.len() == 0 ==> whole == log + out + end
            &&& stdout.len() == 0 && stderr.len() > 0 ==> whole == log + err + end
            &&& stdout.len() > 0 && stderr.len() > 0 ==> whole == log + out + err + end
        }),
{
    reveal_strlit("\n");
    assert("\n"@ =~= seq!['\n']);
    let whole = log_of(log, stdout, stderr, error);
    let out = "--- stdout ---\n"@ + text::lossy(stdout) + line_end_after(stdout);
    let err = "--- stderr ---\n"@ + text::lossy(stderr) + line_end_after(stderr);
    let end = status_line(error);
    lemma_section("--- stdout ---\n"@, stdout);
    lemma_section("--- stderr ---\n"@, stderr);
    let none = Seq::<char>::empty();
    assert(log + none =~= log);
    assert(log + out + none =~= log + out);
}

proof fn lemma_section(title: Seq<char>, bytes: Seq<u8>)
    ensures
        bytes.len() == 0 ==> section(title, bytes, text::lossy(bytes)) == Seq::<char>::empty(),
        bytes.len() > 0 ==> section(title, bytes, text::lossy(bytes)) == title + text::lossy(bytes)
            + line_end_after(bytes),
{
    reveal_strlit("\n");
    assert("\n"@ =~= seq!['\n']);
    let text = title + text::lossy(bytes);
    assert(text + Seq::<char>::empty() =~= text);
}

/// What the client is told begins with the status, names the invocation, and holds
/// the error, whole, exactly where it failed.
pub proof fn law_response_tells_the_outcome(id: u128, error: Seq<char>)
    ensures
        "HTTP/1.1 200 OK\r\n"@.is_prefix_of(response_of(id, None)),
        "HTTP/1.1 500 Internal Server Error\r\n"@.is_prefix_of(response_of(id, Some(error))),
        body_of(id, None).is_suffix_of(response_of(id, None)),
        body_of(id, Some(error)).is_suffix_of(response_of(id, Some(error))),
        response_of(id, None)
            == "HTTP/1.1 200 OK\r\nContent-Type: application/json\r\nContent-Length: "@
            + text::decimal(encode_utf8(body_of(id, None)).len()) + "\r\n\r\n"@ + body_of(id, None),
        response_of(id, Some(error))
            == "HTTP/1.1 500 Internal Server Error\r\nContent-Type: application/json\r\nContent-Length: "@
            + text::decimal(encode_utf8(body_of(id, Some(error))).len()) + "\r\n\r\n"@ + body_of(
            id,
            Some(error),
        ),
        body_of(id, None) == "{\"invocation_id\":\""@ + hyphenated(id) + "\"}"@,
        body_of(id, Some(error)) == body_of(id, None).take(54) + "\",\"error\":\""@ + error
            + "\"}"@,
{
    reveal_strlit("HTTP/1.1 ");
    reveal_strlit("200 OK");
    reveal_strlit("500 Internal Server Error");
    reveal_strlit("HTTP/1.1 200 OK\r\n");
    reveal_strlit("HTTP/1.1 500 Internal Server Error\r\n");
    reveal_strlit("\r\nContent-Type: application/json\r\nContent-Length: ");
    reveal_strlit("{\"invocation_id\":\"");
    reveal_strlit("HTTP/1.1 200 OK\r\nContent-Type: application/json\r\nContent-Length: ");
    reveal_strlit(
        "HTTP/1.1 500 Internal Server Error\r\nContent-Type: application/json\r\nContent-Length: ",
    );
    lemma_hyphenated(id);
    let between = "\r\nContent-Type: application/json\r\nContent-Length: "@;
    assert("HTTP/1.1 "@ + "200 OK"@ + between
        =~= "HTTP/1.1 200 OK\r\nContent-Type: application/json\r\nContent-Length: "@);
    assert("HTTP/1.1 "@ + "500 Internal Server Error"@ + between
        =~= "HTTP/1.1 500 Internal Server Error\r\nContent-Type: application/json\r\nContent-Length: "@);
    let good = response_of(id, None);
    let bad = response_of(id, Some(error));
    assert(good.take(17) =~= "HTTP/1.1 200 OK\r\n"@);
    assert(bad.take(36) =~= "HTTP/1.1 500 Internal Server Error\r\n"@);
    assert(good.skip(good.len() - success_body(id).len()) =~= success_body(id));
    assert(bad.skip(bad.len() - failure_body(id, error).len()) =~= failure_body(id, error));
    assert(body_of(id, None).take(54) =~= "{\"invocation_id\":\""@ + hyphenated(id));
}

/// How a log ends: in one line that tells whether the component failed, and holds
/// its error whole.
pub proof fn law_last_line(error: Seq<char>)
    ensures
        status_line(None) == "status=ok\n"@,
        status_line(Some(error)) == "status=error error="@ + error + seq!['\n'],
{
    reveal_strlit("\n");
    assert("\n"@ =~= seq!['\n']);
}

/// The log of an invocation lies below `logs/` and the service, and is named after
/// the invocation.
pub proof fn law_log_name(id: u128, service_id: Seq<char>)
    ensures
        ("logs/"@ + service_id + "/"@).is_prefix_of(log_name(id, service_id)),
        (hyphenated(id) + ".log"@).is_suffix_of(log_name(id, service_id)),
        log_name(id, service_id).len() == service_id.len() + 46,
{
    reveal_strlit("logs/");
    reveal_strlit("/");
    reveal_strlit(".log");
    lemma_hyphenated(id);
    let name = log_name(id, service_id);
    let front = "logs/"@ + service_id + "/"@;
    let back = hyphenated(id) + ".log"@;
    assert(name.take(front.len() as int) =~= front);
    assert(name.skip(name.len() - back.len()) =~= back);
}

/// Why a connection that is not at hand is refused: for a descriptor that is none,
/// its number and the cause; else the cause alone. One that is at hand is not
/// refused.
pub proof fn law_refusal_tells_the_cause(tcp_fd: i32, cause: String)
    ensures
        Takeover::Taken.spec_refusal() is None,
        (Takeover::Failed(cause)).spec_refusal() == Some(cause@),
        (Takeover::Invalid { tcp_fd, cause }).spec_refusal() is Some,
        ({
            let message = (Takeover::Invalid { tcp_fd, cause }).spec_refusal()->0;
            &&& ("tcp_fd="@ + text::signed_decimal(tcp_fd as int) + " is not a valid fd: "@).is_prefix_of(
                message,
            )
            &&& cause@.is_suffix_of(message)
            &&& message.len() == "tcp_fd="@.len() + text::signed_decimal(tcp_fd as int).len()
                + " is not a valid fd: "@.len() + cause@.len()
        }),
{
    let message = (Takeover::Invalid { tcp_fd, cause }).spec_refusal()->0;
    let front = "tcp_fd="@ + text::signed_decimal(tcp_fd as int) + " is not a valid fd: "@;
    assert(message.take(front.len() as int) =~= front);
    assert(message.skip(message.len() - cause@.len()) =~= cause@);
}

/// Which phases an execution reaches: the component is run, and its client
/// answered, exactly where the request was read; the connection is shut down
/// exactly where the answer was sent as well; and the log is stored exactly where
/// that went well too. Whether the component itself did well has no say in it.
pub proof fn law_which_phases_are_reached(well: Seq<bool>)
    requires
        well.len() >= 5,
    ensures
        ({
            let course = ExecutionPhase::Reading.course(well);
            &&& course.last() == ExecutionPhase::Ended
            &&& course.contains(ExecutionPhase::Running) <==> well[0]
            &&& course.contains(ExecutionPhase::Answering) <==> well[0]
            &&& course.contains(ExecutionPhase::Closing) <==> well[0] && well[2]
            &&& course.contains(ExecutionPhase::Storing) <==> well[0] && well[2] && well[3]
        }),
{
    reveal_with_fuel(ExecutionPhase::course, 7);
    let course = ExecutionPhase::Reading.course(well);
    if !well[0] {
        assert(course =~= seq![ExecutionPhase::Reading, ExecutionPhase::Ended]);
    } else if !well[2] {
        assert(course =~= seq![
            ExecutionPhase::Reading,
            ExecutionPhase::Running,
            ExecutionPhase::Answering,
            ExecutionPhase::Ended,
        ]);
    } else if !well[3] {
        assert(course =~= seq![
            ExecutionPhase::Reading,
            ExecutionPhase::Running,
            ExecutionPhase::Answering,
            ExecutionPhase::Closing,
            ExecutionPhase::Ended,
        ]);
    } else {
        assert(course =~= seq![
            ExecutionPhase::Reading,
            ExecutionPhase::Running,
            ExecutionPhase::Answering,
            ExecutionPhase::Closing,
            ExecutionPhase::Storing,
            ExecutionPhase::Ended,
        ]);
    }
    assert(course[1] == if well[0] {
        ExecutionPhase::Running
    } else {
        ExecutionPhase::Ended
    });
    assert(well[0] ==> course[2] == ExecutionPhase::Answering);
    assert(well[0] && well[2] ==> course[3] == ExecutionPhase::Closing);
    assert(well[0] && well[2] && well[3] ==> course[4] == ExecutionPhase::Storing);
}

/// The place of the `i`-th digit in the text of an id, which has dashes after 8, 12,
/// 16 and 20 digits.
pub open spec fn place_of_digit(i: int) -> int {
    i + (if i < 8 {
        0int
    } else if i < 12 {
        1
    } else if i < 16 {
        2
    } else if i < 20 {
        3
    } else {
        4
    })
}

/// The text of an id holds its 32 hexadecimal digits, the highest first, in lower
/// case, with dashes in the places 8, 13, 18 and 23.
pub proof fn law_text_of_an_id(id: u128, i: int)
    requires
        0 <= i < 32,
    ensures
        hyphenated(id).len() == 36,
        hyphenated(id)[8] == '-',
        hyphenated(id)[13] == '-',
        hyphenated(id)[18] == '-',
        hyphenated(id)[23] == '-',
        hyphenated(id)[place_of_digit(i)] == "0123456789abcdef"@[(id as int / pow(
            16,
            (31 - i) as nat,
        )) % 16],
{
    lemma_hex_digits_len(id as nat, 32);
    lemma_hex_digit_at(id as nat, 32, i);
    text::law_digit((id as int / pow(16, (31 - i) as nat)) % 16);
    assert(hyphenated(id)[place_of_digit(i)] == hex_digits(id as nat, 32)[i]);
}

proof fn lemma_hex_digit_at(v: nat, n: nat, i: int)
    requires
        0 <= i < n,
    ensures
        hex_digits(v, n).len() == n,
        v as int / pow(16, (n - 1 - i) as nat) >= 0,
        hex_digits(v, n)[i] == text::digit(((v as int / pow(16, (n - 1 - i) as nat)) % 16) as nat),
    decreases n,
{
    lemma_hex_digits_len(v, n);
    lemma_pow_positive(16, (n - 1 - i) as nat);
    lemma_div_pos_is_pos(v as int, pow(16, (n - 1 - i) as nat));
    if i == n - 1 {
        lemma_pow0(16);
    } else {
        let m = (n - 1) as nat;
        lemma_hex_digit_at(v / 16, m, i);
        let e = (m - 1 - i) as nat;
        lemma_pow_positive(16, e);
        lemma_pow_adds(16, 1, e);
        lemma_pow1(16);
        lemma_div_denominator(v as int, 16, pow(16, e));
        assert(pow(16, (n - 1 - i) as nat) == 16 * pow(16, e));
    }
}

/// A log begins with a line of its own that names the invocation and the service;
/// no two invocations, and no two services, have the same.
pub proof fn law_first_line_names_the_invocation(
    id: u128,
    service_id: Seq<char>,
    other: u128,
    another: Seq<char>,
)
    ensures
        ("invocation_id="@ + hyphenated(id)).is_prefix_of(first_line(id, service_id)),
        (" service="@ + service_id).push('\n').is_suffix_of(first_line(id, service_id)),
        first_line(id, service_id).len() == service_id.len() + 60,
        first_line(id, service_id) == first_line(other, another) ==> id == other && service_id
            == another,
{
    reveal_strlit("invocation_id=");
    reveal_strlit(" service=");
    reveal_strlit("\n");
    lemma_hyphenated(id);
    lemma_hyphenated(other);
    let line = first_line(id, service_id);
    let front = "invocation_id="@ + hyphenated(id);
    let back = (" service="@ + service_id).push('\n');
    assert(line.take(50) =~= front);
    assert(line.skip(50) =~= back);
    assert(back.is_suffix_of(line));
    if line == first_line(other, another) {
        assert(line.subrange(14, 50) =~= hyphenated(id));
        assert(first_line(other, another).subrange(14, 50) =~= hyphenated(other));
        law_one_text_per_id(id, other);
        assert(line.subrange(59, line.len() - 1) =~= service_id);
        assert(first_line(other, another).subrange(59, line.len() - 1) =~= another);
    }
}

/// The text of a random id shows its version, which is 4, and its variant, which is
/// one of four.
pub proof fn law_text_of_a_random_id(id: u128)
    requires
        is_random_uuid(id),
    ensures
        hyphenated(id)[14] == '4',
        "89ab"@.contains(hyphenated(id)[19]),
{
    reveal_strlit("0123456789abcdef");
    reveal_strlit("89ab");
    law_text_of_an_id(id, 12);
    law_text_of_an_id(id, 16);
    lemma_shifted(id, 76, 19);
    lemma_shifted(id, 60, 15);
    let version = id >> 76;
    let variant = id >> 60;
    assert(version & 0xf == version % 16) by (bit_vector);
    assert(id >> 62 == variant >> 2) by (bit_vector)
        requires
            variant == id >> 60,
    ;
    assert((variant >> 2) & 3 == 2 ==> 8 <= variant % 16 <= 11) by (bit_vector);
    let d = variant as int % 16;
    assert("89ab"@[d - 8] == "0123456789abcdef"@[d]);
}

proof fn lemma_shifted(id: u128, shift: u128, digits: nat)
    requires
        shift == 4 * digits,
        shift < 128,
    ensures
        (id >> shift) as int == id as int / pow(16, digits),
{
    vstd::bits::lemma_u128_shr_is_div(id, shift);
    vstd::arithmetic::power2::lemma_pow2(shift as nat);
    vstd::arithmetic::power::lemma_pow_multiplies(2, 4, digits);
    assert(pow(2, 4) == 16) by {
        reveal(pow);
        reveal_with_fuel(pow, 5);
    }
}

} // verus!
