//! HTTP/1.1 requests as the dispatcher sees them: parsed from the bytes that can
//! be peeked at on an accepted connection, without consuming any.
use vstd::prelude::*;
use vstd::slice::slice_subrange;
use vstd::string::*;
use vstd::utf8::*;

use crate::text;

verus! {

/// What a request asks for.
#[derive(Debug, Clone, Copy, PartialEq, Eq, Structural)]
pub enum RequestKind {
    /// POST with a base64-encoded body; the path is /version/service/route.
    Invocation,
    /// GET for service metadata; the path is /metadata or lies below it.
    Metadata,
}

/// A request that was recognised on a connection.
#[derive(Debug)]
pub struct HttpConnection {
    pub kind: RequestKind,
    pub version: String,
    pub service: String,
    pub route: String,
    pub raw_path: String,
}

/// The contents of an `HttpConnection`.
pub struct Request {
    pub kind: RequestKind,
    pub version: Seq<char>,
    pub service: Seq<char>,
    pub route: Seq<char>,
    pub raw_path: Seq<char>,
}

impl View for HttpConnection {
    type V = Request;

    open spec fn view(&self) -> Request {
        Request {
            kind: self.kind,
            version: self.version@,
            service: self.service@,
            route: self.route@,
            raw_path: self.raw_path@,
        }
    }
}

/// The fewest bytes that are worth parsing: "GET / HTTP/1.1" and a line end.
pub const MIN_REQUEST: usize = 16;

/// The request-target of an HTTP/1.1 request line, which stands between the
/// first two spaces, without its leading `/`.
pub open spec fn request_path(buf: Seq<u8>) -> Result<Seq<char>, Seq<char>> {
    match text::position(buf, 0x20u8) {
        None => Err("invalid HTTP/1.1 request line"@),
        Some(i) => {
            let rest = buf.skip(i + 1);
            match text::position(rest, 0x20u8) {
                None => Err("invalid HTTP/1.1 request line"@),
                Some(j) => {
                    let target = decode_utf8(rest.take(j));
                    if !valid_utf8(rest.take(j)) {
                        Err("request-target is not valid UTF-8"@)
                    } else if target.len() > 0 && target[0] == '/' {
                        Ok(target.skip(1))
                    } else {
                        Err("expected request-target to start with /"@)
                    }
                },
            }
        },
    }
}

/// The version, the service and the route that a path names: the first two
/// slashes part them, and none of them is empty.
pub open spec fn path_segments(path: Seq<char>) -> Result<
    (Seq<char>, Seq<char>, Seq<char>),
    Seq<char>,
> {
    let malformed = "invalid path '/"@ + path + "': expected format /version/service/route"@;
    match text::position(path, '/') {
        None => Err(malformed),
        Some(i) => {
            let rest = path.skip(i + 1);
            match text::position(rest, '/') {
                None => Err(malformed),
                Some(j) => if i > 0 && j > 0 && rest.skip(j + 1).len() > 0 {
                    Ok((path.take(i), rest.take(j), rest.skip(j + 1)))
                } else {
                    Err(malformed)
                },
            }
        },
    }
}

/// A header terminator, `\r\n\r\n`, stands at place `i`.
pub open spec fn terminator_at(buf: Seq<u8>, i: int) -> bool {
    &&& 0 <= i
    &&& i + 4 <= buf.len()
    &&& buf[i] == 0x0d
    &&& buf[i + 1] == 0x0a
    &&& buf[i + 2] == 0x0d
    &&& buf[i + 3] == 0x0a
}

/// Where the headers of a request end: the place of the first terminator.
pub open spec fn header_end(buf: Seq<u8>) -> Option<int>
    decreases buf.len(),
{
    if buf.len() < 4 {
        None
    } else if terminator_at(buf, 0) {
        Some(0)
    } else {
        match header_end(buf.drop_first()) {
            Some(i) => Some(i + 1),
            None => None,
        }
    }
}

/// The body of a request: everything after the header terminator.
pub open spec fn request_body(buf: Seq<u8>) -> Result<Seq<u8>, Seq<char>> {
    match header_end(buf) {
        Some(i) => Ok(buf.skip(i + 4)),
        None => Err("incomplete HTTP headers in peek buffer"@),
    }
}

/// A byte of the standard base64 alphabet: a letter, a digit, `+` or `/`.
pub open spec fn in_alphabet(b: u8) -> bool {
    ||| 0x41 <= b <= 0x5a
    ||| 0x61 <= b <= 0x7a
    ||| 0x30 <= b <= 0x39
    ||| b == 0x2b
    ||| b == 0x2f
}

/// The number of bytes of the alphabet that `data` begins with.
pub open spec fn alphabet_len(data: Seq<u8>) -> int
    decreases data.len(),
{
    if data.len() == 0 || !in_alphabet(data[0]) {
        0
    } else {
        1 + alphabet_len(data.drop_first())
    }
}

/// Base64 as it is accepted in a body: bytes of the alphabet, then padding of
/// any length, and not nothing.
pub open spec fn base64_verdict(data: Seq<u8>) -> Result<(), Seq<char>> {
    let n = alphabet_len(data);
    if data.len() == 0 {
        Err("POST body must not be empty"@)
    } else if n < data.len() && data[n] != 0x3d {
        Err("invalid base64 byte: 0x"@ + text::hex_byte(data[n]))
    } else if exists|k: int| n <= k < data.len() && #[trigger] data[k] != 0x3d {
        Err("invalid base64: data after padding"@)
    } else {
        Ok(())
    }
}

/// A POST request as an invocation: the path must be /version/service/route and
/// the body base64.
pub open spec fn invocation_request(buf: Seq<u8>) -> Result<Request, Seq<char>> {
    match request_path(buf) {
        Err(e) => Err(e),
        Ok(path) => match path_segments(path) {
            Err(e) => Err(e),
            Ok((version, service, route)) => match request_body(buf) {
                Err(e) => Err(e),
                Ok(body) => match base64_verdict(body) {
                    Err(e) => Err(e),
                    Ok(()) => Ok(
                        Request {
                            kind: RequestKind::Invocation,
                            version,
                            service,
                            route,
                            raw_path: path,
                        },
                    ),
                },
            },
        },
    }
}

/// A path that a GET request may target.
pub open spec fn is_metadata_path(path: Seq<char>) -> bool {
    path == "metadata"@ || "metadata/"@.is_prefix_of(path)
}

/// A GET request as a metadata lookup: the path must be /metadata or lie below.
pub open spec fn metadata_request(buf: Seq<u8>) -> Result<Request, Seq<char>> {
    match request_path(buf) {
        Err(e) => Err(e),
        Ok(path) => if is_metadata_path(path) {
            Ok(
                Request {
                    kind: RequestKind::Metadata,
                    version: Seq::empty(),
                    service: Seq::empty(),
                    route: Seq::empty(),
                    raw_path: path,
                },
            )
        } else {
            Err("GET requests must target /metadata"@)
        },
    }
}

/// "POST ".
pub open spec fn is_post(buf: Seq<u8>) -> bool {
    seq![0x50u8, 0x4f, 0x53, 0x54, 0x20].is_prefix_of(buf)
}

/// "GET ".
pub open spec fn is_get(buf: Seq<u8>) -> bool {
    seq![0x47u8, 0x45, 0x54, 0x20].is_prefix_of(buf)
}

/// What the bytes peeked at so far amount to: a request, a reason to refuse the
/// connection, or nothing yet.
pub open spec fn peeked_request(buf: Seq<u8>) -> Result<Option<Request>, Seq<char>> {
    if buf.len() == 0 {
        Err("connection closed"@)
    } else if buf.len() < MIN_REQUEST {
        Ok(None)
    } else {
        let parsed = if is_post(buf) {
            invocation_request(buf)
        } else if is_get(buf) {
            metadata_request(buf)
        } else {
            Err("unsupported HTTP method: only GET and POST are accepted"@)
        };
        match parsed {
            Ok(request) => Ok(Some(request)),
            Err(e) => Err(e),
        }
    }
}

/// Extracts the request-target from an HTTP/1.1 request line, stripping the
/// leading `/`.
pub fn extract_request_path(buf: &[u8]) -> (r: Result<&str, String>)
    ensures
        match r {
            Ok(path) => request_path(buf@) == Ok::<Seq<char>, Seq<char>>(path@),
            Err(e) => request_path(buf@) == Err::<Seq<char>, Seq<char>>(e@),
        },
{
    let len = buf.len();
    let first = match text::find_byte(buf, 0x20) {
        Some(i) => i,
        None => {
            return Err("invalid HTTP/1.1 request line".to_owned());
        },
    };
    let rest = slice_subrange(buf, first + 1, len);
    assert(rest@ =~= buf@.skip(first + 1));
    let second = match text::find_byte(rest, 0x20) {
        Some(j) => j,
        None => {
            return Err("invalid HTTP/1.1 request line".to_owned());
        },
    };
    let raw = slice_subrange(rest, 0, second);
    assert(raw@ =~= rest@.take(second as int));
    let target = match text::str_from_utf8(raw) {
        Some(target) => target,
        None => {
            return Err("request-target is not valid UTF-8".to_owned());
        },
    };
    let chars = target.unicode_len();
    if chars > 0 && target.get_char(0) == '/' {
        let path = target.substring_char(1, chars);
        assert(path@ =~= target@.skip(1));
        Ok(path)
    } else {
        Err("expected request-target to start with /".to_owned())
    }
}

fn invalid_path(path: &str) -> (e: String)
    ensures
        e@ == "invalid path '/"@ + path@ + "': expected format /version/service/route"@,
{
    let mut e = "invalid path '/".to_owned();
    e.append(path);
    e.append("': expected format /version/service/route");
    e
}

/// Parses a POST path of the form `version/service/route`, whose leading `/` is
/// already stripped.
pub fn parse_invocation_path(path: &str) -> (r: Result<(&str, &str, &str), String>)
    ensures
        match r {
            Ok((version, service, route)) => path_segments(path@) == Ok::<
                (Seq<char>, Seq<char>, Seq<char>),
                Seq<char>,
            >((version@, service@, route@)),
            Err(e) => path_segments(path@) == Err::<(Seq<char>, Seq<char>, Seq<char>), Seq<char>>(
                e@,
            ),
        },
{
    let len = path.unicode_len();
    let first = match text::find_char(path, '/') {
        Some(i) => i,
        None => {
            return Err(invalid_path(path));
        },
    };
    let version = path.substring_char(0, first);
    let rest = path.substring_char(first + 1, len);
    assert(version@ =~= path@.take(first as int));
    assert(rest@ =~= path@.skip(first + 1));
    let second = match text::find_char(rest, '/') {
        Some(j) => j,
        None => {
            return Err(invalid_path(path));
        },
    };
    let service = rest.substring_char(0, second);
    let route = rest.substring_char(second + 1, len - first - 1);
    assert(service@ =~= rest@.take(second as int));
    assert(route@ =~= rest@.skip(second + 1));
    if first == 0 || second == 0 || route.unicode_len() == 0 {
        return Err(invalid_path(path));
    }
    Ok((version, service, route))
}

/// The headers end at a terminator before which there is none.
pub proof fn lemma_header_end(buf: Seq<u8>)
    ensures
        match header_end(buf) {
            Some(i) => terminator_at(buf, i) && forall|k: int| 0 <= k < i ==> !terminator_at(buf, k),
            None => forall|k: int| !terminator_at(buf, k),
        },
    decreases buf.len(),
{
    if buf.len() >= 4 && !terminator_at(buf, 0) {
        let rest = buf.drop_first();
        lemma_header_end(rest);
        assert forall|k: int| k > 0 implies terminator_at(buf, k) == terminator_at(rest, k - 1) by {}
        assert(forall|k: int| k < 0 ==> !terminator_at(buf, k));
        match header_end(rest) {
            Some(i) => {
                assert(terminator_at(buf, i + 1));
                assert forall|k: int| 0 <= k < i + 1 implies !terminator_at(buf, k) by {
                    if k > 0 {
                        assert(!terminator_at(rest, k - 1));
                    }
                }
            },
            None => {
                assert forall|k: int| !terminator_at(buf, k) by {
                    if k > 0 {
                        assert(!terminator_at(rest, k - 1));
                    }
                }
            },
        }
    }
}

/// What follows the headers has no say in where they end.
pub proof fn lemma_header_end_prefix(buf: Seq<u8>, more: Seq<u8>)
    requires
        header_end(buf) is Some,
    ensures
        header_end(buf + more) == header_end(buf),
    decreases buf.len(),
{
    assert(terminator_at(buf + more, 0) == terminator_at(buf, 0));
    if !terminator_at(buf, 0) {
        lemma_header_end_prefix(buf.drop_first(), more);
        assert((buf + more).drop_first() =~= buf.drop_first() + more);
    }
}

/// What follows the request line has no say in the path.
pub proof fn lemma_request_path_prefix(buf: Seq<u8>, more: Seq<u8>)
    requires
        request_path(buf) is Ok,
    ensures
        request_path(buf + more) == request_path(buf),
{
    text::lemma_position(buf, 0x20u8);
    text::lemma_position_prefix(buf, more, 0x20u8);
    let i = text::position(buf, 0x20u8)->0;
    let rest = buf.skip(i + 1);
    text::lemma_position(rest, 0x20u8);
    text::lemma_position_prefix(rest, more, 0x20u8);
    let j = text::position(rest, 0x20u8)->0;
    assert((buf + more).skip(i + 1) =~= rest + more);
    assert((rest + more).take(j) =~= rest.take(j));
}

/// Finds the header terminator of a request.
pub fn find_header_end(buf: &[u8]) -> (r: Option<usize>)
    ensures
        match r {
            Some(i) => header_end(buf@) == Some(i as int) && i + 4 <= buf@.len(),
            None => header_end(buf@) is None,
        },
{
    proof {
        lemma_header_end(buf@);
    }
    let mut i: usize = 0;
    while i < buf.len() && buf.len() - i >= 4
        invariant
            i <= buf@.len(),
            forall|k: int| 0 <= k < i ==> !terminator_at(buf@, k),
        decreases buf@.len() - i,
    {
        if buf[i] == 0x0d && buf[i + 1] == 0x0a && buf[i + 2] == 0x0d && buf[i + 3] == 0x0a {
            assert(terminator_at(buf@, i as int));
            proof {
                lemma_header_end(buf@);
            }
            return Some(i);
        }
        i = i + 1;
    }
    None
}

/// Locates the body in a raw HTTP/1.1 request: everything after the header
/// terminator.
pub fn extract_body(buf: &[u8]) -> (r: Result<&[u8], String>)
    ensures
        match r {
            Ok(body) => request_body(buf@) == Ok::<Seq<u8>, Seq<char>>(body@),
            Err(e) => request_body(buf@) == Err::<Seq<u8>, Seq<char>>(e@),
        },
{
    let len = buf.len();
    match find_header_end(buf) {
        Some(i) => {
            let body = slice_subrange(buf, i + 4, len);
            assert(body@ =~= buf@.skip(i + 4));
            Ok(body)
        },
        None => Err("incomplete HTTP headers in peek buffer".to_owned()),
    }
}

fn is_alphabet_byte(b: u8) -> (r: bool)
    ensures
        r == in_alphabet(b),
{
    (0x41 <= b && b <= 0x5a) || (0x61 <= b && b <= 0x7a) || (0x30 <= b && b <= 0x39) || b == 0x2b
        || b == 0x2f
}

proof fn lemma_alphabet_len(data: Seq<u8>, n: int)
    requires
        0 <= n <= data.len(),
        forall|k: int| 0 <= k < n ==> in_alphabet(#[trigger] data[k]),
        n == data.len() || !in_alphabet(data[n]),
    ensures
        alphabet_len(data) == n,
    decreases data.len(),
{
    if n > 0 {
        let rest = data.drop_first();
        assert(in_alphabet(data[0]));
        assert forall|k: int| 0 <= k < n - 1 implies in_alphabet(#[trigger] rest[k]) by {
            assert(in_alphabet(data[k + 1]));
        }
        lemma_alphabet_len(rest, n - 1);
    }
}

/// Validates that `data` is base64 of the standard alphabet: letters, digits,
/// `+` and `/`, and trailing `=` padding. Rejects an empty body.
pub fn validate_base64(data: &[u8]) -> (r: Result<(), String>)
    ensures
        match r {
            Ok(()) => base64_verdict(data@) == Ok::<(), Seq<char>>(()),
            Err(e) => base64_verdict(data@) == Err::<(), Seq<char>>(e@),
        },
{
    if data.len() == 0 {
        return Err("POST body must not be empty".to_owned());
    }
    let mut n: usize = 0;
    let mut i: usize = 0;
    let mut padding_started = false;
    while i < data.len()
        invariant
            i <= data@.len(),
            n <= i,
            !padding_started ==> n == i,
            padding_started ==> n < i,
            forall|k: int| 0 <= k < n ==> in_alphabet(#[trigger] data@[k]),
            forall|k: int| n <= k < i ==> #[trigger] data@[k] == 0x3d,
        decreases data@.len() - i,
    {
        let b = data[i];
        if b == 0x3d {
            padding_started = true;
        } else if padding_started {
            proof {
                assert(data@[n as int] == 0x3d);
                lemma_alphabet_len(data@, n as int);
            }
            return Err("invalid base64: data after padding".to_owned());
        } else if is_alphabet_byte(b) {
            n = n + 1;
        } else {
            proof {
                lemma_alphabet_len(data@, n as int);
            }
            let mut e = "invalid base64 byte: 0x".to_owned();
            text::push_hex_byte(&mut e, b);
            return Err(e);
        }
        i = i + 1;
    }
    proof {
        if n < data@.len() {
            assert(data@[n as int] == 0x3d);
        }
        lemma_alphabet_len(data@, n as int);
    }
    Ok(())
}

fn has_prefix(buf: &[u8], prefix: &[u8]) -> (r: bool)
    ensures
        r == prefix@.is_prefix_of(buf@),
{
    if buf.len() < prefix.len() {
        return false;
    }
    let mut i: usize = 0;
    while i < prefix.len()
        invariant
            i <= prefix@.len() <= buf@.len(),
            forall|k: int| 0 <= k < i ==> buf@[k] == prefix@[k],
        decreases prefix@.len() - i,
    {
        if buf[i] != prefix[i] {
            return false;
        }
        i = i + 1;
    }
    assert(buf@.take(prefix@.len() as int) =~= prefix@);
    true
}

impl HttpConnection {
    /// Recognises the request on a connection from the bytes that can be peeked
    /// at. `None` asks for another peek, when more bytes may have arrived.
    pub fn from_tcp_stream(peeked: &[u8]) -> (r: Result<Option<Self>, String>)
        ensures
            match r {
                Ok(Some(connection)) => peeked_request(peeked@) == Ok::<
                    Option<Request>,
                    Seq<char>,
                >(Some(connection@)),
                Ok(None) => peeked_request(peeked@) == Ok::<Option<Request>, Seq<char>>(None),
                Err(e) => peeked_request(peeked@) == Err::<Option<Request>, Seq<char>>(e@),
            },
    {
        if peeked.len() == 0 {
            return Err("connection closed".to_owned());
        }
        if peeked.len() < MIN_REQUEST {
            return Ok(None);
        }
        let post: [u8; 5] = [0x50, 0x4f, 0x53, 0x54, 0x20];
        let get: [u8; 4] = [0x47, 0x45, 0x54, 0x20];
        assert(post@ =~= seq![0x50u8, 0x4f, 0x53, 0x54, 0x20]);
        assert(get@ =~= seq![0x47u8, 0x45, 0x54, 0x20]);
        let parsed = if has_prefix(peeked, post.as_slice()) {
            Self::parse_invocation(peeked)
        } else if has_prefix(peeked, get.as_slice()) {
            Self::parse_metadata(peeked)
        } else {
            Err("unsupported HTTP method: only GET and POST are accepted".to_owned())
        };
        match parsed {
            Ok(connection) => Ok(Some(connection)),
            Err(e) => Err(e),
        }
    }

    /// Parses a POST request as an invocation. The path must be
    /// /version/service/route and the body must be base64.
    pub fn parse_invocation(buf: &[u8]) -> (r: Result<Self, String>)
        ensures
            match r {
                Ok(connection) => invocation_request(buf@) == Ok::<Request, Seq<char>>(
                    connection@,
                ),
                Err(e) => invocation_request(buf@) == Err::<Request, Seq<char>>(e@),
            },
    {
        let path = match extract_request_path(buf) {
            Ok(path) => path,
            Err(e) => {
                return Err(e);
            },
        };
        let (version, service, route) = match parse_invocation_path(path) {
            Ok(segments) => segments,
            Err(e) => {
                return Err(e);
            },
        };
        let body = match extract_body(buf) {
            Ok(body) => body,
            Err(e) => {
                return Err(e);
            },
        };
        match validate_base64(body) {
            Ok(()) => Ok(
                HttpConnection {
                    kind: RequestKind::Invocation,
                    version: version.to_owned(),
                    service: service.to_owned(),
                    route: route.to_owned(),
                    raw_path: path.to_owned(),
                },
            ),
            Err(e) => Err(e),
        }
    }

    /// Parses a GET request as a metadata lookup. The path must be /metadata or
    /// lie below it.
    pub fn parse_metadata(buf: &[u8]) -> (r: Result<Self, String>)
        ensures
            match r {
                Ok(connection) => metadata_request(buf@) == Ok::<Request, Seq<char>>(connection@),
                Err(e) => metadata_request(buf@) == Err::<Request, Seq<char>>(e@),
            },
    {
        let path = match extract_request_path(buf) {
            Ok(path) => path,
            Err(e) => {
                return Err(e);
            },
        };
        if !text::starts_with(path, "metadata/") && !text::same(path, "metadata") {
            return Err("GET requests must target /metadata".to_owned());
        }
        Ok(
            HttpConnection {
                kind: RequestKind::Metadata,
                version: String::new(),
                service: String::new(),
                route: String::new(),
                raw_path: path.to_owned(),
            },
        )
    }
}

/// The segments of an invocation path make up the path again, and the version
/// and the service hold no slash.
pub proof fn law_segments_make_up_path(path: Seq<char>)
    ensures
        path_segments(path) matches Ok((version, service, route)) ==> {
            &&& path == version + seq!['/'] + service + seq!['/'] + route
            &&& version.len() > 0 && service.len() > 0 && route.len() > 0
            &&& !version.contains('/')
            &&& !service.contains('/')
        },
{
    text::lemma_position(path, '/');
    match text::position(path, '/') {
        Some(i) => {
            let rest = path.skip(i + 1);
            text::lemma_position(rest, '/');
            match text::position(rest, '/') {
                Some(j) => {
                    assert(path =~= path.take(i) + seq!['/'] + rest.take(j) + seq!['/']
                        + rest.skip(j + 1));
                },
                None => {},
            }
        },
        None => {},
    }
}

/// Three segments that are not empty, the first two without a slash, are what
/// their path is parsed into.
pub proof fn law_path_of_segments(version: Seq<char>, service: Seq<char>, route: Seq<char>)
    requires
        version.len() > 0,
        service.len() > 0,
        route.len() > 0,
        !version.contains('/'),
        !service.contains('/'),
    ensures
        path_segments(version + seq!['/'] + service + seq!['/'] + route) == Ok::<
            (Seq<char>, Seq<char>, Seq<char>),
            Seq<char>,
        >((version, service, route)),
{
    let path = version + seq!['/'] + service + seq!['/'] + route;
    let i = version.len() as int;
    assert forall|k: int| 0 <= k < i implies path[k] != '/' by {
        assert(version[k] == path[k]);
        assert(version.contains(version[k]));
    }
    text::lemma_position_is(path, '/', i);
    let rest = path.skip(i + 1);
    assert(rest =~= service + seq!['/'] + route);
    let j = service.len() as int;
    assert forall|k: int| 0 <= k < j implies rest[k] != '/' by {
        assert(service[k] == rest[k]);
        assert(service.contains(service[k]));
    }
    text::lemma_position_is(rest, '/', j);
    assert(path.take(i) =~= version);
    assert(rest.take(j) =~= service);
    assert(rest.skip(j + 1) =~= route);
}

/// `data` is `n` bytes of the alphabet followed by padding.
pub open spec fn padded_after(data: Seq<u8>, n: int) -> bool {
    &&& 0 <= n <= data.len()
    &&& forall|k: int| 0 <= k < n ==> in_alphabet(#[trigger] data[k])
    &&& forall|k: int| n <= k < data.len() ==> #[trigger] data[k] == 0x3d
}

/// A body is accepted exactly when it is not empty and consists of bytes of the
/// alphabet followed by padding.
pub proof fn law_base64_accepted(data: Seq<u8>)
    ensures
        base64_verdict(data) is Ok <==> data.len() > 0 && exists|n: int| padded_after(data, n),
{
    lemma_alphabet_run(data);
    if base64_verdict(data) is Ok {
        assert(padded_after(data, alphabet_len(data)));
    }
    if exists|n: int| padded_after(data, n) {
        let n = choose|n: int| padded_after(data, n);
        lemma_alphabet_len(data, n);
    }
}

proof fn lemma_alphabet_run(data: Seq<u8>)
    ensures
        0 <= alphabet_len(data) <= data.len(),
        forall|k: int| 0 <= k < alphabet_len(data) ==> in_alphabet(#[trigger] data[k]),
    decreases data.len(),
{
    if data.len() > 0 && in_alphabet(data[0]) {
        let rest = data.drop_first();
        lemma_alphabet_run(rest);
        assert forall|k: int| 0 <= k < alphabet_len(data) implies in_alphabet(
            #[trigger] data[k],
        ) by {
            if k > 0 {
                assert(in_alphabet(rest[k - 1]));
            }
        }
    }
}

/// A request line and what follows it: a method, a space, the bytes of a target,
/// a space, and the rest.
pub open spec fn request_of(method: Seq<u8>, target: Seq<u8>, rest: Seq<u8>) -> Seq<u8> {
    method + seq![0x20u8] + target + seq![0x20u8] + rest
}

/// The path of a request is the text of its target behind the slash that it begins
/// with. A target that is no text, or that begins otherwise, is refused.
pub proof fn law_path_of_request_line(
    method: Seq<u8>,
    target: Seq<u8>,
    path: Seq<char>,
    rest: Seq<u8>,
)
    requires
        !method.contains(0x20),
        !target.contains(0x20),
    ensures
        ({
            let found = request_path(request_of(method, target, rest));
            &&& valid_utf8(target) && decode_utf8(target) == seq!['/'] + path ==> found == Ok::<
                Seq<char>,
                Seq<char>,
            >(path)
            &&& valid_utf8(target) && (decode_utf8(target).len() == 0 || decode_utf8(target)[0]
                != '/') ==> found == Err::<Seq<char>, Seq<char>>(
                "expected request-target to start with /"@,
            )
            &&& !valid_utf8(target) ==> found == Err::<Seq<char>, Seq<char>>(
                "request-target is not valid UTF-8"@,
            )
        }),
{
    let buf = request_of(method, target, rest);
    let i = method.len() as int;
    assert forall|k: int| 0 <= k < i implies buf[k] != 0x20 by {
        assert(buf[k] == method[k]);
        assert(method.contains(method[k]));
    }
    text::lemma_position_is(buf, 0x20u8, i);
    let more = buf.skip(i + 1);
    assert(more =~= target + seq![0x20u8] + rest);
    let j = target.len() as int;
    assert forall|k: int| 0 <= k < j implies more[k] != 0x20 by {
        assert(more[k] == target[k]);
        assert(target.contains(target[k]));
    }
    text::lemma_position_is(more, 0x20u8, j);
    assert(more.take(j) =~= target);
    if valid_utf8(target) && decode_utf8(target) == seq!['/'] + path {
        assert(decode_utf8(target).skip(1) =~= path);
    }
}

/// Bytes with fewer than two spaces hold no request line.
pub proof fn law_line_needs_two_spaces(method: Seq<u8>, target: Seq<u8>)
    requires
        !method.contains(0x20),
        !target.contains(0x20),
    ensures
        request_path(method) == Err::<Seq<char>, Seq<char>>("invalid HTTP/1.1 request line"@),
        request_path(method + seq![0x20u8] + target) == Err::<Seq<char>, Seq<char>>(
            "invalid HTTP/1.1 request line"@,
        ),
{
    text::lemma_position(method, 0x20u8);
    if text::position(method, 0x20u8) is Some {
        assert(method.contains(method[text::position(method, 0x20u8)->0]));
    }
    let buf = method + seq![0x20u8] + target;
    let i = method.len() as int;
    assert forall|k: int| 0 <= k < i implies buf[k] != 0x20 by {
        assert(buf[k] == method[k]);
        assert(method.contains(method[k]));
    }
    text::lemma_position_is(buf, 0x20u8, i);
    assert(buf.skip(i + 1) =~= target);
    text::lemma_position(target, 0x20u8);
    if text::position(target, 0x20u8) is Some {
        assert(target.contains(target[text::position(target, 0x20u8)->0]));
    }
}

/// A GET request for `/metadata`, or for any target below it, is recognised as one
/// for metadata, with its path. A GET request for anything else is refused.
pub proof fn law_get_targets_metadata(target: Seq<u8>, below: Seq<char>, rest: Seq<u8>)
    requires
        !target.contains(0x20),
        valid_utf8(target),
        request_of(seq![0x47u8, 0x45, 0x54], target, rest).len() >= 16,
    ensures
        ({
            let buf = request_of(seq![0x47u8, 0x45, 0x54], target, rest);
            let path = decode_utf8(target);
            &&& path == "/metadata"@ ==> peeked_request(buf) == Ok::<Option<Request>, Seq<char>>(
                Some(
                    Request {
                        kind: RequestKind::Metadata,
                        version: Seq::empty(),
                        service: Seq::empty(),
                        route: Seq::empty(),
                        raw_path: "metadata"@,
                    },
                ),
            )
            &&& path == "/metadata/"@ + below ==> peeked_request(buf) == Ok::<
                Option<Request>,
                Seq<char>,
            >(
                Some(
                    Request {
                        kind: RequestKind::Metadata,
                        version: Seq::empty(),
                        service: Seq::empty(),
                        route: Seq::empty(),
                        raw_path: "metadata/"@ + below,
                    },
                ),
            )
            &&& path.len() > 0 && path[0] == '/' && path != "/metadata"@ && !"/metadata/"@.is_prefix_of(
                path,
            ) ==> peeked_request(buf) == Err::<Option<Request>, Seq<char>>(
                "GET requests must target /metadata"@,
            )
        }),
{
    reveal_strlit("/metadata");
    reveal_strlit("metadata");
    reveal_strlit("/metadata/");
    reveal_strlit("metadata/");
    let method = seq![0x47u8, 0x45, 0x54];
    let buf = request_of(method, target, rest);
    let path = decode_utf8(target);
    assert(buf.take(4) =~= seq![0x47u8, 0x45, 0x54, 0x20]);
    assert(is_get(buf));
    assert(!is_post(buf)) by {
        assert(buf[0] == 0x47);
        if is_post(buf) {
            assert(buf.take(5)[0] == buf[0]);
            assert(buf[0] == 0x50);
        }
    }
    if path == "/metadata"@ {
        assert(path =~= seq!['/'] + "metadata"@);
        law_path_of_request_line(method, target, "metadata"@, rest);
    }
    if path == "/metadata/"@ + below {
        let named = "metadata/"@ + below;
        assert(path =~= seq!['/'] + named);
        law_path_of_request_line(method, target, named, rest);
        assert(named.take(9) =~= "metadata/"@);
        assert("metadata/"@.is_prefix_of(named));
    }
    if path.len() > 0 && path[0] == '/' && path != "/metadata"@ && !"/metadata/"@.is_prefix_of(path) {
        let named = path.skip(1);
        assert(path =~= seq!['/'] + named);
        law_path_of_request_line(method, target, named, rest);
        if named == "metadata"@ {
            assert(path =~= "/metadata"@);
        }
        if "metadata/"@.is_prefix_of(named) {
            assert(path.take(10) =~= "/metadata/"@) by {
                assert(named.take(9) =~= "metadata/"@);
                assert forall|k: int| 0 <= k < 10 implies path.take(10)[k] == "/metadata/"@[k] by {
                    if k > 0 {
                        assert(path[k] == named[k - 1]);
                        assert(named.take(9)[k - 1] == "metadata/"@[k - 1]);
                    }
                }
            }
        }
    }
}

/// A POST request whose target is `/version/service/route`, whose headers end and
/// whose body is base64 is recognised as an invocation of that service.
pub proof fn law_post_is_an_invocation(
    target: Seq<u8>,
    version: Seq<char>,
    service: Seq<char>,
    route: Seq<char>,
    headers: Seq<u8>,
    data: Seq<u8>,
    padding: Seq<u8>,
)
    requires
        !target.contains(0x20),
        valid_utf8(target),
        decode_utf8(target) == seq!['/'] + version + seq!['/'] + service + seq!['/'] + route,
        version.len() > 0 && service.len() > 0 && route.len() > 0,
        !version.contains('/') && !service.contains('/'),
        data.len() + padding.len() > 0,
        forall|k: int| 0 <= k < data.len() ==> is_base64_char(#[trigger] data[k] as char),
        forall|k: int| 0 <= k < padding.len() ==> #[trigger] padding[k] == 0x3d,
        ({
            let head = request_of(seq![0x50u8, 0x4f, 0x53, 0x54], target, headers);
            let buf = head + seq![0x0du8, 0x0a, 0x0d, 0x0a] + data + padding;
            &&& buf.len() >= 16
            &&& forall|k: int| 0 <= k < head.len() ==> !terminator_at(buf, k)
        }),
    ensures
        peeked_request(
            request_of(seq![0x50u8, 0x4f, 0x53, 0x54], target, headers) + seq![
                0x0du8,
                0x0a,
                0x0d,
                0x0a,
            ] + data + padding,
        ) == Ok::<Option<Request>, Seq<char>>(
            Some(
                Request {
                    kind: RequestKind::Invocation,
                    version,
                    service,
                    route,
                    raw_path: version + seq!['/'] + service + seq!['/'] + route,
                },
            ),
        ),
{
    let method = seq![0x50u8, 0x4f, 0x53, 0x54];
    let head = request_of(method, target, headers);
    let ending = seq![0x0du8, 0x0a, 0x0d, 0x0a];
    let buf = head + ending + data + padding;
    let path = version + seq!['/'] + service + seq!['/'] + route;
    assert(buf.take(5) =~= seq![0x50u8, 0x4f, 0x53, 0x54, 0x20]);
    assert(is_post(buf));
    assert(decode_utf8(target) =~= seq!['/'] + path);
    let rest = headers + ending + data + padding;
    assert(buf =~= request_of(method, target, rest));
    law_path_of_request_line(method, target, path, rest);
    law_path_of_segments(version, service, route);
    let n = head.len() as int;
    assert(terminator_at(buf, n));
    lemma_header_end(buf);
    assert(header_end(buf) == Some(n));
    let body = buf.skip(n + 4);
    assert(body =~= data + padding);
    assert(padded_after(body, data.len() as int)) by {
        assert forall|k: int| 0 <= k < data.len() implies in_alphabet(#[trigger] body[k]) by {
            assert(body[k] == data[k]);
            law_base64_alphabet(data[k]);
        }
        assert forall|k: int| data.len() <= k < body.len() implies #[trigger] body[k] == 0x3d by {
            assert(body[k] == padding[k - data.len()]);
        }
    }
    law_base64_accepted(body);
}

/// What a POST request is refused for, in this order: its request line, its path,
/// its headers, its body.
pub proof fn law_why_a_post_is_refused(more: Seq<u8>)
    requires
        more.len() >= 11,
    ensures
        ({
            let buf = seq![0x50u8, 0x4f, 0x53, 0x54, 0x20] + more;
            let outcome = peeked_request(buf);
            let path = request_path(buf);
            &&& path matches Err(e) ==> outcome == Err::<Option<Request>, Seq<char>>(e)
            &&& path matches Ok(p) ==> (path_segments(p) is Err ==> outcome == Err::<
                Option<Request>,
                Seq<char>,
            >("invalid path '/"@ + p + "': expected format /version/service/route"@))
            &&& path is Ok && path_segments(path->Ok_0) is Ok ==> {
                &&& (forall|k: int| !terminator_at(buf, k)) ==> outcome == Err::<
                    Option<Request>,
                    Seq<char>,
                >("incomplete HTTP headers in peek buffer"@)
                &&& forall|k: int| #[trigger]
                    terminator_at(buf, k) && (forall|j: int| 0 <= j < k ==> !terminator_at(buf, j))
                        ==> match base64_verdict(buf.skip(k + 4)) {
                        Err(e) => outcome == Err::<Option<Request>, Seq<char>>(e),
                        Ok(()) => outcome is Ok,
                    }
            }
        }),
{
    let buf = seq![0x50u8, 0x4f, 0x53, 0x54, 0x20] + more;
    assert(buf.take(5) =~= seq![0x50u8, 0x4f, 0x53, 0x54, 0x20]);
    assert(is_post(buf));
    lemma_header_end(buf);
    assert forall|k: int| #[trigger]
        terminator_at(buf, k) && (forall|j: int| 0 <= j < k ==> !terminator_at(
            buf,
            j,
        )) implies header_end(buf) == Some(k) by {
        assert(header_end(buf) is Some);
        let i = header_end(buf)->0;
        assert(terminator_at(buf, i));
    }
}

/// Fewer bytes than the shortest request takes decide nothing, none at all mean
/// that the connection is closed, and sixteen are always enough to decide. A
/// request that begins neither with `POST ` nor with `GET ` is refused.
pub proof fn law_when_a_peek_decides(buf: Seq<u8>)
    ensures
        buf.len() == 0 ==> peeked_request(buf) == Err::<Option<Request>, Seq<char>>(
            "connection closed"@,
        ),
        0 < buf.len() < 16 ==> peeked_request(buf) == Ok::<Option<Request>, Seq<char>>(None),
        buf.len() >= 16 ==> peeked_request(buf) != Ok::<Option<Request>, Seq<char>>(None),
        buf.len() >= 16 && buf.take(5) != seq![0x50u8, 0x4f, 0x53, 0x54, 0x20] && buf.take(4)
            != seq![0x47u8, 0x45, 0x54, 0x20] ==> peeked_request(buf) == Err::<
            Option<Request>,
            Seq<char>,
        >("unsupported HTTP method: only GET and POST are accepted"@),
{
    if buf.len() >= 16 {
        if is_post(buf) {
            assert(buf.take(5) =~= seq![0x50u8, 0x4f, 0x53, 0x54, 0x20]);
        }
        if is_get(buf) {
            assert(buf.take(4) =~= seq![0x47u8, 0x45, 0x54, 0x20]);
        }
    }
}

/// What is recognised on a connection is an invocation only where the bytes begin
/// with `POST `, and a request for metadata only where they begin with `GET `.
pub proof fn law_kind_follows_method(buf: Seq<u8>)
    requires
        peeked_request(buf) matches Ok(Some(_)),
    ensures
        ({
            let request = (peeked_request(buf)->Ok_0)->0;
            &&& request.kind == RequestKind::Invocation <==> buf.take(5) == seq![
                0x50u8,
                0x4f,
                0x53,
                0x54,
                0x20,
            ]
            &&& request.kind == RequestKind::Metadata <==> buf.take(4) == seq![
                0x47u8,
                0x45,
                0x54,
                0x20,
            ]
        }),
{
    let request = (peeked_request(buf)->Ok_0)->0;
    if is_post(buf) {
        assert(buf.take(5) =~= seq![0x50u8, 0x4f, 0x53, 0x54, 0x20]);
        assert(buf[0] == buf.take(5)[0]);
        assert(buf.take(4)[0] == buf[0]);
    } else {
        assert(is_get(buf));
        assert(buf.take(4) =~= seq![0x47u8, 0x45, 0x54, 0x20]);
        assert(buf[0] == buf.take(4)[0]);
        assert(buf.take(5)[0] == buf[0]);
    }
}

/// A character of the standard base64 alphabet.
pub open spec fn is_base64_char(c: char) -> bool {
    "ABCDEFGHIJKLMNOPQRSTUVWXYZabcdefghijklmnopqrstuvwxyz0123456789+/"@.contains(c)
}

/// The bytes of the alphabet are the letters, the digits, `+` and `/`.
pub proof fn law_base64_alphabet(b: u8)
    ensures
        in_alphabet(b) <==> is_base64_char(b as char),
{
    reveal_strlit("ABCDEFGHIJKLMNOPQRSTUVWXYZabcdefghijklmnopqrstuvwxyz0123456789+/");
    let alphabet = "ABCDEFGHIJKLMNOPQRSTUVWXYZabcdefghijklmnopqrstuvwxyz0123456789+/"@;
    assert(alphabet.len() == 64);
    if 0x41 <= b <= 0x5a {
        assert(alphabet[b - 0x41] == b as char);
    }
    if 0x61 <= b <= 0x7a {
        assert(alphabet[b - 0x61 + 26] == b as char);
    }
    if 0x30 <= b <= 0x39 {
        assert(alphabet[b - 0x30 + 52] == b as char);
    }
    if b == 0x2b {
        assert(alphabet[62] == b as char);
    }
    if b == 0x2f {
        assert(alphabet[63] == b as char);
    }
    if alphabet.contains(b as char) {
        let i = choose|i: int| 0 <= i < 64 && alphabet[i] == b as char;
        assert(alphabet[i] == b as char);
    }
}

/// What a body is refused for: that there is none; its first byte that is neither
/// of the alphabet nor padding, as long as no padding comes before it; anything but
/// padding after padding.
pub proof fn law_why_a_body_is_refused(data: Seq<u8>, padding: Seq<u8>, b: u8, rest: Seq<u8>)
    requires
        forall|k: int| 0 <= k < data.len() ==> is_base64_char(#[trigger] data[k] as char),
        forall|k: int| 0 <= k < padding.len() ==> #[trigger] padding[k] == 0x3d,
        b != 0x3d,
    ensures
        base64_verdict(Seq::empty()) == Err::<(), Seq<char>>("POST body must not be empty"@),
        !is_base64_char(b as char) ==> base64_verdict(data + seq![b] + rest) == Err::<
            (),
            Seq<char>,
        >("invalid base64 byte: 0x"@ + text::hex_byte(b)),
        padding.len() > 0 ==> base64_verdict(data + padding + seq![b] + rest) == Err::<
            (),
            Seq<char>,
        >("invalid base64: data after padding"@),
{
    let n = data.len() as int;
    law_base64_alphabet(b);
    if !is_base64_char(b as char) {
        let bad = data + seq![b] + rest;
        assert forall|k: int| 0 <= k < n implies in_alphabet(#[trigger] bad[k]) by {
            assert(bad[k] == data[k]);
            law_base64_alphabet(data[k]);
        }
        assert(bad[n] == b);
        lemma_alphabet_len(bad, n);
    }
    if padding.len() > 0 {
        let bad = data + padding + seq![b] + rest;
        assert forall|k: int| 0 <= k < n implies in_alphabet(#[trigger] bad[k]) by {
            assert(bad[k] == data[k]);
            law_base64_alphabet(data[k]);
        }
        assert(bad[n] == padding[0]);
        lemma_alphabet_len(bad, n);
        assert(bad[n + padding.len()] == b);
    }
}

/// The headers end at the first place where two line ends, each a carriage return
/// and a line feed, stand one after the other; the body is what follows them.
pub proof fn law_where_headers_end(buf: Seq<u8>, i: int)
    ensures
        header_end(buf) == Some(i) <==> {
            &&& 0 <= i <= buf.len() - 4
            &&& buf.subrange(i, i + 4) == seq![0x0du8, 0x0a, 0x0d, 0x0a]
            &&& forall|k: int|
                0 <= k < i ==> #[trigger] buf.subrange(k, k + 4) != seq![0x0du8, 0x0a, 0x0d, 0x0a]
        },
        header_end(buf) == Some(i) ==> request_body(buf) == Ok::<Seq<u8>, Seq<char>>(
            buf.subrange(i + 4, buf.len() as int),
        ),
        header_end(buf) is None ==> request_body(buf) == Err::<Seq<u8>, Seq<char>>(
            "incomplete HTTP headers in peek buffer"@,
        ),
{
    lemma_header_end(buf);
    assert forall|k: int| 0 <= k <= buf.len() - 4 implies terminator_at(buf, k) == (#[trigger]
    buf.subrange(k, k + 4) == seq![0x0du8, 0x0a, 0x0d, 0x0a]) by {
        let four = buf.subrange(k, k + 4);
        assert(four[0] == buf[k] && four[1] == buf[k + 1] && four[2] == buf[k + 2] && four[3]
            == buf[k + 3]);
        if terminator_at(buf, k) {
            assert(four =~= seq![0x0du8, 0x0a, 0x0d, 0x0a]);
        }
    }
    if header_end(buf) == Some(i) {
        assert(buf.skip(i + 4) =~= buf.subrange(i + 4, buf.len() as int));
        assert(terminator_at(buf, i));
        assert forall|k: int| 0 <= k < i implies #[trigger] buf.subrange(k, k + 4) != seq![
            0x0du8,
            0x0a,
            0x0d,
            0x0a,
        ] by {
            assert(!terminator_at(buf, k));
        }
    } else if 0 <= i <= buf.len() - 4 && buf.subrange(i, i + 4) == seq![0x0du8, 0x0a, 0x0d, 0x0a] {
        assert(terminator_at(buf, i));
        let k = header_end(buf)->0;
        assert(terminator_at(buf, k));
        assert(k < i);
        assert(buf.subrange(k, k + 4) == seq![0x0du8, 0x0a, 0x0d, 0x0a]);
    }
}

} // verus!
