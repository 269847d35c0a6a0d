//! How a runner reads the request of a client: the headers up to their
//! terminator, then the body, which is base64.
use base64::Engine;
use vstd::prelude::*;
use vstd::slice::slice_subrange;
use vstd::string::*;
use vstd::utf8::*;

use crate::network::http_connection;
use crate::text;

verus! {

/// The symbol of a six-bit value in the standard base64 alphabet.
pub open spec fn base64_symbol(v: int) -> char {
    if v < 26 {
        (v + 65) as char
    } else if v < 52 {
        (v + 71) as char
    } else if v < 62 {
        (v - 4) as char
    } else if v == 62 {
        '+'
    } else {
        '/'
    }
}

/// The standard base64 text of a byte string, with padding.
pub open spec fn base64_text(data: Seq<u8>) -> Seq<char>
    decreases data.len(),
{
    if data.len() == 0 {
        Seq::empty()
    } else if data.len() == 1 {
        let a = data[0] as int;
        seq![base64_symbol(a / 4), base64_symbol(a % 4 * 16), '=', '=']
    } else if data.len() == 2 {
        let a = data[0] as int;
        let b = data[1] as int;
        seq![
            base64_symbol(a / 4),
            base64_symbol(a % 4 * 16 + b / 16),
            base64_symbol(b % 16 * 4),
            '=',
        ]
    } else {
        let a = data[0] as int;
        let b = data[1] as int;
        let c = data[2] as int;
        seq![
            base64_symbol(a / 4),
            base64_symbol(a % 4 * 16 + b / 16),
            base64_symbol(b % 16 * 4 + c / 64),
            base64_symbol(c % 64),
        ] + base64_text(data.skip(3))
    }
}

/// What the base64 crate says of a text that is not base64.
pub uninterp spec fn base64_complaint(text: Seq<char>) -> Seq<char>;

/// `base64::engine::general_purpose::STANDARD.decode`: undoes the standard base64
/// encoding with padding. A text that is the encoding of no byte string, be it
/// for a foreign symbol, for its length, for missing or misplaced padding or for
/// bits left over in the last symbol, is refused; the error is rendered as text.
#[verifier::external_body]
fn decode_base64(text: &str) -> (r: Result<Vec<u8>, String>)
    ensures
        match r {
            Ok(data) => text@ == base64_text(data@),
            Err(complaint) => {
                &&& forall|data: Seq<u8>| text@ != #[trigger] base64_text(data)
                &&& complaint@ == base64_complaint(text@)
            },
        },
{
    base64::engine::general_purpose::STANDARD.decode(text).map_err(|e| format!("{e}"))
}

/// The length that a header line gives for the body, if it is a line that gives
/// one: `Content-Length` in any case, a colon, and a numeral.
pub open spec fn line_length(line: Seq<char>) -> Option<nat> {
    match text::position(line, ':') {
        None => None,
        Some(i) => if text::same_but_case(text::trimmed(line.take(i)), "content-length"@) {
            text::numeral(text::trimmed(line.skip(i + 1)))
        } else {
            None
        },
    }
}

/// The length that headers give for the body: that of the first line which gives
/// one.
pub open spec fn headers_length(headers: Seq<char>) -> Option<nat>
    decreases headers.len(),
    via headers_length_decreases
{
    match text::position(headers, '\n') {
        None => line_length(headers),
        Some(i) => match line_length(headers.take(i)) {
            Some(n) => Some(n),
            None => headers_length(headers.skip(i + 1)),
        },
    }
}

#[via_fn]
proof fn headers_length_decreases(headers: Seq<char>) {
    text::lemma_position(headers, '\n');
}

fn parse_line(line: &[char]) -> (r: Option<usize>)
    ensures
        match r {
            Some(n) => line_length(line@) == Some(n as nat),
            None => line_length(line@) is None,
        },
{
    let len = line.len();
    match text::find_among(line, ':') {
        None => None,
        Some(i) => {
            let key = slice_subrange(line, 0, i);
            let value = slice_subrange(line, i + 1, len);
            assert(key@ =~= line@.take(i as int));
            assert(value@ =~= line@.skip(i + 1));
            let name = text::chars("content-length");
            if text::eq_ignore_ascii_case(text::trim(key), name.as_slice()) {
                text::parse_usize(text::trim(value))
            } else {
                None
            }
        },
    }
}

/// The length that headers give for the body.
pub fn content_length(headers: &str) -> (r: Option<usize>)
    ensures
        match r {
            Some(n) => headers_length(headers@) == Some(n as nat),
            None => headers_length(headers@) is None,
        },
{
    let chars = text::chars(headers);
    let len = chars.len();
    let mut from: usize = 0;
    assert(chars@.skip(0) =~= headers@);
    loop
        invariant
            from <= len == chars@.len(),
            headers_length(chars@.skip(from as int)) == headers_length(headers@),
        decreases len - from,
    {
        let rest = slice_subrange(chars.as_slice(), from, len);
        assert(rest@ =~= chars@.skip(from as int));
        match text::find_among(rest, '\n') {
            None => {
                return parse_line(rest);
            },
            Some(i) => {
                let line = slice_subrange(rest, 0, i);
                assert(line@ =~= rest@.take(i as int));
                let found = parse_line(line);
                if found.is_some() {
                    return found;
                }
                assert(rest@.skip(i + 1) =~= chars@.skip(from + i + 1));
                from = from + i + 1;
            },
        }
    }
}

/// The body of a request as far as it has been read.
#[verifier::ext_equal]
pub ghost enum Reading {
    /// The headers are not complete.
    Head { buf: Seq<u8> },
    /// The headers are complete, the body is not.
    Body { buf: Seq<u8>, start: int, length: nat },
    /// The body has been read and decoded.
    Done { data: Seq<u8>, read: nat },
    /// The request is refused.
    Refused { reason: Seq<char> },
}

/// The byte string that a body stands for.
pub open spec fn body_of(body: Seq<u8>) -> Reading {
    if !valid_utf8(body) {
        Reading::Refused { reason: "request body is not valid UTF-8"@ }
    } else if exists|data: Seq<u8>| decode_utf8(body) == #[trigger] base64_text(data) {
        Reading::Done {
            data: choose|data: Seq<u8>| decode_utf8(body) == #[trigger] base64_text(data),
            read: body.len(),
        }
    } else {
        Reading::Refused {
            reason: "invalid base64 body: "@ + base64_complaint(decode_utf8(body)),
        }
    }
}

/// What comes of the bytes of a request.
pub open spec fn request_of(buf: Seq<u8>) -> Reading {
    match http_connection::header_end(buf) {
        None => Reading::Head { buf },
        Some(i) => if !valid_utf8(buf.take(i)) {
            Reading::Refused { reason: "headers are not valid UTF-8"@ }
        } else {
            match headers_length(decode_utf8(buf.take(i))) {
                None => Reading::Refused { reason: "missing Content-Length header"@ },
                Some(length) => if buf.len() < i + 4 + length {
                    Reading::Body { buf, start: i + 4, length }
                } else {
                    body_of(buf.subrange(i + 4, i + 4 + length))
                },
            }
        },
    }
}

impl Reading {
    /// How many bytes are needed: any number, or exactly this many.
    pub open spec fn needed(self) -> Option<int> {
        match self {
            Reading::Body { buf, start, length } => Some(start + length - buf.len()),
            _ => None,
        }
    }

    /// After bytes have come in. No bytes at all mean that the client has closed
    /// the connection.
    pub open spec fn fed(self, bytes: Seq<u8>) -> Reading {
        match self {
            Reading::Head { buf } => if bytes.len() == 0 {
                Reading::Refused { reason: "connection closed before headers received"@ }
            } else {
                request_of(buf + bytes)
            },
            Reading::Body { buf, start, length } => body_of(
                (buf + bytes).subrange(start, start + length),
            ),
            _ => self,
        }
    }
}

enum Phase {
    Head,
    Body { start: usize, length: usize, remaining: usize },
}

/// A request that is being read.
pub struct RequestReader {
    buf: Vec<u8>,
    phase: Phase,
}

/// The decoded body of a request.
#[derive(Debug)]
pub struct RequestBody {
    pub data: Vec<u8>,
    /// The number of bytes that the body took up.
    pub read: usize,
}

/// A request after it has been fed.
pub enum ReadStep {
    /// More bytes are needed.
    More(RequestReader),
    /// The body is complete.
    Done(RequestBody),
}

/// That a step is what a reading says.
pub open spec fn step_is(r: Result<ReadStep, String>, reading: Reading) -> bool {
    match reading {
        Reading::Done { data, read } => {
            &&& r matches Ok(ReadStep::Done(body))
            &&& body.data@ == data
            &&& body.read == read
        },
        Reading::Refused { reason } => {
            &&& r matches Err(e)
            &&& e@ == reason
        },
        more => {
            &&& r matches Ok(ReadStep::More(reader))
            &&& reader@ == more
        },
    }
}

impl View for RequestReader {
    type V = Reading;

    closed spec fn view(&self) -> Reading {
        match self.phase {
            Phase::Head => Reading::Head { buf: self.buf@ },
            Phase::Body { start, length, .. } => Reading::Body {
                buf: self.buf@,
                start: start as int,
                length: length as nat,
            },
        }
    }
}

impl RequestReader {
    #[verifier::type_invariant]
    spec fn remaining_counted(&self) -> bool {
        self.phase matches Phase::Body { start, length, remaining } ==> {
            &&& start <= self.buf@.len()
            &&& remaining == start + length - self.buf@.len()
        }
    }

    pub fn new() -> (reader: Self)
        ensures
            reader@ == (Reading::Head { buf: Seq::empty() }),
    {
        RequestReader { buf: Vec::new(), phase: Phase::Head }
    }

    /// How many bytes are needed: any number, or exactly this many.
    pub fn needed(&self) -> (r: Option<usize>)
        ensures
            match r {
                Some(n) => self@.needed() == Some(n as int),
                None => self@.needed() is None,
            },
    {
        proof {
            use_type_invariant(self);
        }
        match &self.phase {
            Phase::Head => None,
            Phase::Body { remaining, .. } => Some(*remaining),
        }
    }

    /// Takes in bytes of the request.
    pub fn read_request_body(self, bytes: &[u8]) -> (r: Result<ReadStep, String>)
        requires
            self@.needed() matches Some(n) ==> bytes@.len() == n,
        ensures
            step_is(r, self@.fed(bytes@)),
    {
        proof {
            use_type_invariant(&self);
        }
        let RequestReader { buf: before, phase } = self;
        let mut buf = before;
        let mut more = vstd::slice::slice_to_vec(bytes);
        buf.append(&mut more);
        let len = buf.len();
        match phase {
            Phase::Body { start, length, .. } => {
                assert(len == start + length);
                read_body(slice_subrange(buf.as_slice(), start, start + length))
            },
            Phase::Head => {
                if bytes.len() == 0 {
                    return Err("connection closed before headers received".to_owned());
                }
                let end = match http_connection::find_header_end(buf.as_slice()) {
                    Some(i) => i,
                    None => {
                        return Ok(ReadStep::More(RequestReader { buf, phase: Phase::Head }));
                    },
                };
                let head = slice_subrange(buf.as_slice(), 0, end);
                assert(head@ =~= buf@.take(end as int));
                let headers = match text::str_from_utf8(head) {
                    Some(headers) => headers,
                    None => return Err("headers are not valid UTF-8".to_owned()),
                };
                let length = match content_length(headers) {
                    Some(length) => length,
                    None => return Err("missing Content-Length header".to_owned()),
                };
                let start = end + 4;
                let already_read = len - start;
                if already_read < length {
                    let remaining = length - already_read;
                    return Ok(
                        ReadStep::More(
                            RequestReader { buf, phase: Phase::Body { start, length, remaining } },
                        ),
                    );
                }
                read_body(slice_subrange(buf.as_slice(), start, start + length))
            },
        }
    }
}

/// Reads the body of a request.
pub fn read_body(body: &[u8]) -> (r: Result<ReadStep, String>)
    ensures
        step_is(r, body_of(body@)),
{
    let text = match text::str_from_utf8(body) {
        Some(text) => text,
        None => return Err("request body is not valid UTF-8".to_owned()),
    };
    match decode_base64(text) {
        Ok(data) => {
            proof {
                law_base64_one_reading(
                    data@,
                    choose|data: Seq<u8>| decode_utf8(body@) == #[trigger] base64_text(data),
                );
            }
            Ok(ReadStep::Done(RequestBody { data, read: body.len() }))
        },
        Err(complaint) => {
            let mut reason = "invalid base64 body: ".to_owned();
            reason.append(complaint.as_str());
            Err(reason)
        },
    }
}

/// The log line for a body of so many bytes that holds so many.
pub open spec fn body_line(read: nat, decoded: nat) -> Seq<char> {
    "read "@ + text::decimal(read) + " body bytes ("@ + text::decimal(decoded) + " decoded)\n"@
}

impl RequestBody {
    /// The log line for a body that has been read.
    pub fn log_line(&self) -> (line: String)
        ensures
            line@ == "read "@ + text::decimal(self.read as nat) + " body bytes ("@ + text::decimal(
                self.data@.len(),
            ) + " decoded)\n"@,
            line@ == body_line(self.read as nat, self.data@.len()),
    {
        let mut line = "read ".to_owned();
        text::push_decimal(&mut line, self.read);
        line.append(" body bytes (");
        text::push_decimal(&mut line, self.data.len());
        line.append(" decoded)\n");
        line
    }
}

/// No two byte strings have the same base64 text.
pub proof fn law_base64_one_reading(a: Seq<u8>, b: Seq<u8>)
    requires
        base64_text(a) == base64_text(b),
    ensures
        a == b,
    decreases a.len(),
{
    lemma_base64_text(a);
    lemma_base64_text(b);
    let t = base64_text(a);
    if a.len() > 0 && b.len() > 0 {
        lemma_symbols();
        let s = base64_text(b);
        assert(t[0] == s[0] && t[1] == s[1] && t[2] == s[2] && t[3] == s[3]);
        if a.len() >= 3 && b.len() >= 3 {
            assert(t.skip(4) =~= base64_text(a.skip(3)));
            assert(s.skip(4) =~= base64_text(b.skip(3)));
            law_base64_one_reading(a.skip(3), b.skip(3));
            assert(a =~= seq![a[0], a[1], a[2]] + a.skip(3));
            assert(b =~= seq![b[0], b[1], b[2]] + b.skip(3));
        } else {
            assert(a.len() == b.len());
            assert(a =~= b);
        }
    } else {
        assert(a =~= b);
    }
}

/// The symbols of different values are different, and none is the padding.
proof fn lemma_symbols()
    ensures
        forall|v: int, w: int|
            0 <= v < 64 && 0 <= w < 64 && v != w ==> #[trigger] base64_symbol(v)
                != #[trigger] base64_symbol(w),
        forall|v: int| 0 <= v < 64 ==> #[trigger] base64_symbol(v) != '=',
{
}

proof fn lemma_base64_text(data: Seq<u8>)
    ensures
        data.len() == 0 <==> base64_text(data).len() == 0,
        data.len() > 0 ==> base64_text(data).len() >= 4,
{
}

/// What follows a request has no say in what comes of it.
pub proof fn law_rest_is_left_alone(buf: Seq<u8>, more: Seq<u8>)
    requires
        request_of(buf) is Done || request_of(buf) is Refused,
    ensures
        request_of(buf + more) == request_of(buf),
{
    http_connection::lemma_header_end(buf);
    http_connection::lemma_header_end_prefix(buf, more);
    let i = http_connection::header_end(buf)->0;
    assert((buf + more).take(i) =~= buf.take(i));
    if valid_utf8(buf.take(i)) {
        if let Some(length) = headers_length(decode_utf8(buf.take(i))) {
            assert((buf + more).subrange(i + 4, i + 4 + length) =~= buf.subrange(
                i + 4,
                i + 4 + length,
            ));
        }
    }
}

/// Whether bytes come in one piece or in two makes no difference.
pub proof fn law_pieces_make_no_difference(buf: Seq<u8>, a: Seq<u8>, b: Seq<u8>)
    requires
        a.len() > 0,
        b.len() > 0,
        ({
            let half = (Reading::Head { buf }).fed(a);
            half is Head || (half is Body && half.needed() == Some(b.len() as int))
        }),
    ensures
        (Reading::Head { buf }).fed(a).fed(b) == (Reading::Head { buf }).fed(a + b),
{
    let all = buf + a;
    assert(all + b =~= buf + (a + b));
    if request_of(all) is Body {
        http_connection::lemma_header_end(all);
        http_connection::lemma_header_end_prefix(all, b);
        let i = http_connection::header_end(all)->0;
        assert((all + b).take(i) =~= all.take(i));
    }
}

/// What a client sends as base64 is what the runner reads: given headers that end
/// in their terminator and announce the length of the base64 text of some data,
/// followed by that text, the data comes out.
pub proof fn law_request_read_back(head: Seq<u8>, data: Seq<u8>, more: Seq<u8>)
    requires
        http_connection::header_end(head) == Some(head.len() - 4),
        valid_utf8(head.take(head.len() - 4)),
        headers_length(decode_utf8(head.take(head.len() - 4))) == Some(base64_text(data).len()),
    ensures
        request_of(head + encode_utf8(base64_text(data)) + more) == (Reading::Done {
            data,
            read: base64_text(data).len(),
        }),
{
    let text = base64_text(data);
    let body = encode_utf8(text);
    let buf = head + body + more;
    let i = head.len() - 4;
    http_connection::lemma_header_end(head);
    http_connection::lemma_header_end_prefix(head, body + more);
    assert(buf =~= head + (body + more));
    assert(buf.take(i) =~= head.take(i));
    lemma_base64_ascii(data);
    is_ascii_chars_encode_utf8(text);
    encode_utf8_valid_utf8(text);
    encode_utf8_decode_utf8(text);
    assert(buf.subrange(i + 4, i + 4 + text.len() as int) =~= body);
    assert(decode_utf8(body) == base64_text(data));
    law_base64_one_reading(
        data,
        choose|data: Seq<u8>| decode_utf8(body) == #[trigger] base64_text(data),
    );
}

proof fn lemma_base64_ascii(data: Seq<u8>)
    ensures
        is_ascii_chars(base64_text(data)),
    decreases data.len(),
{
    assert forall|v: int| 0 <= v < 64 implies (#[trigger] base64_symbol(v) as u32) < 128 by {}
    if data.len() >= 3 {
        lemma_base64_ascii(data.skip(3));
    }
}

/// The base64 text of data, cut off anywhere, is a body that the dispatcher lets
/// through.
pub proof fn law_dispatcher_lets_base64_through(data: Seq<u8>, len: int)
    requires
        1 <= len <= base64_text(data).len(),
    ensures
        http_connection::base64_verdict(encode_utf8(base64_text(data)).take(len)) is Ok,
{
    let text = base64_text(data);
    let n = lemma_symbols_then_padding(data);
    lemma_base64_ascii(data);
    is_ascii_chars_encode_utf8(text);
    let body = encode_utf8(text).take(len);
    let m = if n < len {
        n
    } else {
        len
    };
    assert forall|k: int| 0 <= k < len implies #[trigger] body[k] as char == text[k] by {}
    assert forall|k: int| 0 <= k < m implies http_connection::in_alphabet(#[trigger] body[k]) by {
        assert(is_symbol(text[k]));
    }
    assert forall|k: int| m <= k < body.len() implies #[trigger] body[k] == 0x3d by {
        assert(text[k] == '=');
    }
    assert(http_connection::padded_after(body, m));
    http_connection::law_base64_accepted(body);
}

spec fn is_symbol(c: char) -> bool {
    http_connection::in_alphabet(c as u8)
}

proof fn lemma_symbols_then_padding(data: Seq<u8>) -> (n: int)
    ensures
        0 <= n <= base64_text(data).len(),
        forall|k: int| 0 <= k < n ==> is_symbol(#[trigger] base64_text(data)[k]),
        forall|k: int| n <= k < base64_text(data).len() ==> #[trigger] base64_text(data)[k] == '=',
    decreases data.len(),
{
    assert forall|v: int| 0 <= v < 64 implies is_symbol(#[trigger] base64_symbol(v)) by {}
    let text = base64_text(data);
    if data.len() == 0 {
        0
    } else if data.len() == 1 {
        2
    } else if data.len() == 2 {
        3
    } else {
        let rest = base64_text(data.skip(3));
        let n = lemma_symbols_then_padding(data.skip(3));
        assert forall|k: int| 4 <= k < text.len() implies #[trigger] text[k] == rest[k - 4] by {}
        n + 4
    }
}

/// What a client posts to a service is what the service is given: given a head
/// that is a POST request for a path of version, service and route, ends in its
/// terminator and announces the length of the base64 text of some data, followed
/// by that text, the dispatcher recognises the invocation as soon as it can peek
/// at some of the text, and the runner decodes the data.
pub proof fn law_posted_data_arrives(head: Seq<u8>, path: Seq<char>, data: Seq<u8>, peeked: int)
    requires
        head.len() < peeked <= head.len() + base64_text(data).len(),
        head.len() >= http_connection::MIN_REQUEST,
        http_connection::is_post(head),
        http_connection::request_path(head) == Ok::<Seq<char>, Seq<char>>(path),
        http_connection::path_segments(path) is Ok,
        http_connection::header_end(head) == Some(head.len() - 4),
        valid_utf8(head.take(head.len() - 4)),
        headers_length(decode_utf8(head.take(head.len() - 4))) == Some(base64_text(data).len()),
    ensures
        ({
            let sent = head + encode_utf8(base64_text(data));
            let (version, service, route) = http_connection::path_segments(path)->Ok_0;
            &&& http_connection::peeked_request(sent.take(peeked)) == Ok::<
                Option<http_connection::Request>,
                Seq<char>,
            >(
                Some(
                    http_connection::Request {
                        kind: http_connection::RequestKind::Invocation,
                        version,
                        service,
                        route,
                        raw_path: path,
                    },
                ),
            )
            &&& request_of(sent) == (Reading::Done { data, read: base64_text(data).len() })
        }),
{
    let body = encode_utf8(base64_text(data));
    let sent = head + body;
    law_request_read_back(head, data, Seq::empty());
    assert(sent + Seq::<u8>::empty() =~= sent);
    lemma_base64_ascii(data);
    is_ascii_chars_encode_utf8(base64_text(data));
    let seen = body.take(peeked - head.len());
    assert(sent.take(peeked) =~= head + seen);
    http_connection::lemma_request_path_prefix(head, seen);
    http_connection::lemma_header_end_prefix(head, seen);
    assert((head + seen).skip(head.len() as int) =~= seen);
    law_dispatcher_lets_base64_through(data, peeked - head.len());
    let post = seq![0x50u8, 0x4f, 0x53, 0x54, 0x20];
    assert(post.is_prefix_of(head + seen)) by {
        assert((head + seen).take(5) =~= head.take(5));
    }
}

/// A character of the name of the header that gives the length of the body, in
/// either case.
pub open spec fn is_length_name(key: Seq<char>) -> bool {
    &&& key.len() == 14
    &&& forall|i: int|
        0 <= i < 14 ==> #[trigger] key[i] == "content-length"@[i] || key[i] == "CONTENT-LENGTH"@[i]
}

/// White space within one line.
pub open spec fn is_blank(s: Seq<char>) -> bool {
    forall|i: int| 0 <= i < s.len() ==> text::is_white(#[trigger] s[i]) && s[i] != '\n'
}

/// A text within one line that does not begin or end with white space.
pub open spec fn is_plain(s: Seq<char>) -> bool {
    &&& !s.contains('\n')
    &&& s.len() > 0 ==> !text::is_white(s[0]) && !text::is_white(s.last())
}

/// A header line: a name, a colon and a value, with white space about both.
pub open spec fn header_line(
    key: Seq<char>,
    value: Seq<char>,
    blanks: (Seq<char>, Seq<char>, Seq<char>, Seq<char>),
) -> Seq<char> {
    blanks.0 + key + blanks.1 + seq![':'] + blanks.2 + value + blanks.3
}

/// A header line named `Content-Length`, in whatever case, gives its value as the
/// length where that is a numeral, whatever follows. A line of another name, or with
/// another value, gives none and leaves it to the lines that follow.
pub proof fn law_length_is_announced(
    key: Seq<char>,
    value: Seq<char>,
    blanks: (Seq<char>, Seq<char>, Seq<char>, Seq<char>),
    rest: Seq<char>,
)
    requires
        is_blank(blanks.0) && is_blank(blanks.1) && is_blank(blanks.2) && is_blank(blanks.3),
        is_plain(key) && is_plain(value),
        !key.contains(':'),
    ensures
        ({
            let line = header_line(key, value, blanks);
            &&& is_length_name(key) && text::numeral(value) is Some ==> headers_length(line)
                == text::numeral(value) && headers_length(line + seq!['\n'] + rest)
                == text::numeral(value)
            &&& !is_length_name(key) || text::numeral(value) is None ==> headers_length(line) is None
                && headers_length(line + seq!['\n'] + rest) == headers_length(rest)
        }),
{
    let line = header_line(key, value, blanks);
    let front = blanks.0 + key + blanks.1;
    let back = blanks.2 + value + blanks.3;
    let i = front.len() as int;
    lemma_within_line(key, value, blanks);
    text::lemma_position_is(line, ':', i);
    assert(line.take(i) =~= front);
    assert(line.skip(i + 1) =~= back);
    text::law_trimmed(blanks.0, key, blanks.1);
    text::law_trimmed(blanks.2, value, blanks.3);
    lemma_length_name(key);
    assert(line_length(line) == if is_length_name(key) {
        text::numeral(value)
    } else {
        None
    });
    lemma_line_then_rest(line, rest);
}

/// A line without a colon gives no length.
pub proof fn law_line_without_colon(line: Seq<char>, rest: Seq<char>)
    requires
        !line.contains('\n'),
        !line.contains(':'),
    ensures
        headers_length(line) is None,
        headers_length(line + seq!['\n'] + rest) == headers_length(rest),
{
    text::lemma_position(line, ':');
    if text::position(line, ':') is Some {
        assert(line.contains(line[text::position(line, ':')->0]));
    }
    assert(line_length(line) is None);
    lemma_line_then_rest(line, rest);
}

proof fn lemma_line_then_rest(line: Seq<char>, rest: Seq<char>)
    requires
        !line.contains('\n'),
    ensures
        headers_length(line) == line_length(line),
        line_length(line) is Some ==> headers_length(line + seq!['\n'] + rest) == line_length(line),
        line_length(line) is None ==> headers_length(line + seq!['\n'] + rest) == headers_length(rest),
{
    text::lemma_position(line, '\n');
    if text::position(line, '\n') is Some {
        assert(line.contains(line[text::position(line, '\n')->0]));
    }
    let all = line + seq!['\n'] + rest;
    let n = line.len() as int;
    assert forall|k: int| 0 <= k < n implies all[k] != '\n' by {
        assert(all[k] == line[k]);
        assert(line.contains(line[k]));
    }
    text::lemma_position_is(all, '\n', n);
    assert(all.take(n) =~= line);
    assert(all.skip(n + 1) =~= rest);
}

proof fn lemma_within_line(
    key: Seq<char>,
    value: Seq<char>,
    blanks: (Seq<char>, Seq<char>, Seq<char>, Seq<char>),
)
    requires
        is_blank(blanks.0) && is_blank(blanks.1) && is_blank(blanks.2) && is_blank(blanks.3),
        is_plain(key) && is_plain(value),
        !key.contains(':'),
    ensures
        ({
            let line = header_line(key, value, blanks);
            let i = blanks.0.len() + key.len() + blanks.1.len();
            &&& !line.contains('\n')
            &&& line[i as int] == ':'
            &&& forall|k: int| 0 <= k < i ==> line[k] != ':'
        }),
{
    let line = header_line(key, value, blanks);
    let a = blanks.0.len() as int;
    let b = a + key.len();
    let c = b + blanks.1.len();
    let d = c + 1 + blanks.2.len();
    let e = d + value.len();
    assert forall|k: int| 0 <= k < line.len() implies line[k] != '\n' by {
        if k < a {
            assert(line[k] == blanks.0[k]);
        } else if k < b {
            assert(line[k] == key[k - a]);
            assert(key.contains(key[k - a]));
        } else if k < c {
            assert(line[k] == blanks.1[k - b]);
        } else if k == c {
            assert(line[k] == ':');
        } else if k < d {
            assert(line[k] == blanks.2[k - c - 1]);
        } else if k < e {
            assert(line[k] == value[k - d]);
            assert(value.contains(value[k - d]));
        } else {
            assert(line[k] == blanks.3[k - e]);
        }
    }
    assert forall|k: int| 0 <= k < c implies line[k] != ':' by {
        if k < a {
            assert(line[k] == blanks.0[k]);
            assert(text::is_white(blanks.0[k]));
        } else if k < b {
            assert(line[k] == key[k - a]);
            assert(key.contains(key[k - a]));
        } else {
            assert(line[k] == blanks.1[k - b]);
            assert(text::is_white(blanks.1[k - b]));
        }
    }
}

proof fn lemma_length_name(key: Seq<char>)
    ensures
        text::same_but_case(key, "content-length"@) <==> is_length_name(key),
{
    reveal_strlit("content-length");
    reveal_strlit("CONTENT-LENGTH");
    let name = "content-length"@;
    let capital = "CONTENT-LENGTH"@;
    if key.len() == 14 {
        assert forall|i: int| 0 <= i < 14 implies (text::lower(#[trigger] key[i]) == text::lower(
            name[i],
        ) <==> key[i] == name[i] || key[i] == capital[i]) by {
            lemma_same_letter(key[i], name[i], capital[i]);
        }
        if text::same_but_case(key, name) {
            assert forall|i: int| 0 <= i < 14 implies #[trigger] key[i] == name[i] || key[i]
                == capital[i] by {
                assert(text::lower(key[i]) == text::lower(name[i]));
            }
        }
        if is_length_name(key) {
            assert forall|i: int| 0 <= i < 14 implies text::lower(key[i]) == text::lower(
                #[trigger] name[i],
            ) by {
                assert(key[i] == name[i] || key[i] == capital[i]);
            }
        }
    }
}

proof fn lemma_same_letter(c: char, small: char, capital: char)
    requires
        ('a' <= small <= 'z' && capital as u32 + 32 == small as u32) || (small == '-' && capital
            == '-'),
    ensures
        text::lower(c) == text::lower(small) <==> c == small || c == capital,
{
}

/// What comes of a request whose headers are complete: they must be text and give
/// the length of the body; as long as fewer bytes follow than that, exactly the
/// missing ones are needed, and with them the body is read; where as many follow, or
/// more, the body is the first of them.
pub proof fn law_request_with_headers(head: Seq<u8>, rest: Seq<u8>, more: Seq<u8>)
    requires
        http_connection::header_end(head + seq![0x0du8, 0x0a, 0x0d, 0x0a]) == Some(
            head.len() as int,
        ),
    ensures
        ({
            let buf = head + seq![0x0du8, 0x0a, 0x0d, 0x0a] + rest;
            let length = headers_length(decode_utf8(head));
            &&& !valid_utf8(head) ==> request_of(buf) == (Reading::Refused {
                reason: "headers are not valid UTF-8"@,
            })
            &&& valid_utf8(head) && length is None ==> request_of(buf) == (Reading::Refused {
                reason: "missing Content-Length header"@,
            })
            &&& valid_utf8(head) && length is Some && rest.len() < length->0 ==> {
                &&& request_of(buf) is Body
                &&& request_of(buf).needed() == Some(length->0 - rest.len())
                &&& more.len() == length->0 - rest.len() ==> request_of(buf).fed(more) == body_of(
                    rest + more,
                )
            }
            &&& valid_utf8(head) && length is Some && rest.len() >= length->0 ==> request_of(buf)
                == body_of(rest.take(length->0 as int))
        }),
{
    let front = head + seq![0x0du8, 0x0a, 0x0d, 0x0a];
    let buf = front + rest;
    let i = head.len() as int;
    http_connection::lemma_header_end(front);
    http_connection::lemma_header_end_prefix(front, rest);
    assert(buf.take(i) =~= head);
    if valid_utf8(head) {
        if let Some(length) = headers_length(decode_utf8(head)) {
            if rest.len() < length {
                if more.len() == length - rest.len() {
                    assert((buf + more).subrange(i + 4, i + 4 + length) =~= rest + more);
                }
            } else {
                assert(buf.subrange(i + 4, i + 4 + length) =~= rest.take(length as int));
            }
        }
    }
}

/// As long as its headers are not complete a request needs bytes, of whatever
/// number; where none come it is refused.
pub proof fn law_request_without_headers(buf: Seq<u8>, bytes: Seq<u8>)
    ensures
        (Reading::Head { buf }).needed() is None,
        (Reading::Head { buf }).fed(Seq::empty()) == (Reading::Refused {
            reason: "connection closed before headers received"@,
        }),
        bytes.len() > 0 && http_connection::header_end(buf + bytes) is None ==> (Reading::Head {
            buf,
        }).fed(bytes) == (Reading::Head { buf: buf + bytes }),
        bytes.len() > 0 ==> (Reading::Head { buf }).fed(bytes) == (Reading::Head {
            buf: Seq::empty(),
        }).fed(buf + bytes),
{
    assert(Seq::<u8>::empty() + (buf + bytes) =~= buf + bytes);
}

/// A body is the base64 text of the data that is read, of which all bytes count; or
/// it is refused for not being text, or for not being the base64 text of anything.
pub proof fn law_body_is_base64(body: Seq<u8>, data: Seq<u8>)
    ensures
        valid_utf8(body) && decode_utf8(body) == base64_text(data) ==> body_of(body)
            == (Reading::Done { data, read: body.len() }),
        !valid_utf8(body) ==> body_of(body) == (Reading::Refused {
            reason: "request body is not valid UTF-8"@,
        }),
        valid_utf8(body) && (forall|d: Seq<u8>| decode_utf8(body) != #[trigger] base64_text(d))
            ==> body_of(body) == (Reading::Refused {
            reason: "invalid base64 body: "@ + base64_complaint(decode_utf8(body)),
        }),
{
    if valid_utf8(body) && decode_utf8(body) == base64_text(data) {
        law_base64_one_reading(
            data,
            choose|data: Seq<u8>| decode_utf8(body) == #[trigger] base64_text(data),
        );
    }
}

/// The symbols are those of the standard alphabet in its order.
pub proof fn law_base64_symbol(v: int)
    requires
        0 <= v < 64,
    ensures
        base64_symbol(v) == "ABCDEFGHIJKLMNOPQRSTUVWXYZabcdefghijklmnopqrstuvwxyz0123456789+/"@[v],
{
    reveal_strlit("ABCDEFGHIJKLMNOPQRSTUVWXYZabcdefghijklmnopqrstuvwxyz0123456789+/");
}

/// Three bytes make four symbols, which hold the number that the bytes hold, six
/// bits each; one or two bytes at the end are filled up with zero bits, and with
/// padding to four symbols.
pub proof fn law_base64_groups(a: u8, b: u8, c: u8, rest: Seq<u8>)
    ensures
        ({
            let n = a * 65536 + b * 256 + c;
            base64_text(seq![a, b, c] + rest) == seq![
                base64_symbol(n / 262144),
                base64_symbol(n / 4096 % 64),
                base64_symbol(n / 64 % 64),
                base64_symbol(n % 64),
            ] + base64_text(rest)
        }),
        base64_text(seq![a, b]) == base64_text(seq![a, b, 0u8]).update(3, '='),
        base64_text(seq![a]) == base64_text(seq![a, 0u8, 0u8]).update(2, '=').update(3, '='),
        base64_text(Seq::empty()) == Seq::<char>::empty(),
{
    lemma_six_bits(a as int, b as int, c as int);
    lemma_six_bits(a as int, b as int, 0);
    lemma_six_bits(a as int, 0, 0);
    lemma_whole_group(a, b, c, rest);
    let none = Seq::<u8>::empty();
    assert(base64_text(none) =~= Seq::<char>::empty());
    lemma_whole_group(a, b, 0u8, none);
    lemma_whole_group(a, 0u8, 0u8, none);
    assert(seq![a, b, 0u8] + none =~= seq![a, b, 0u8]);
    assert(seq![a, 0u8, 0u8] + none =~= seq![a, 0u8, 0u8]);
    assert(base64_text(seq![a, b]) =~= base64_text(seq![a, b, 0u8]).update(3, '='));
    assert(base64_text(seq![a]) =~= base64_text(seq![a, 0u8, 0u8]).update(2, '=').update(3, '='));
}

proof fn lemma_six_bits(a: int, b: int, c: int)
    requires
        0 <= a < 256,
        0 <= b < 256,
        0 <= c < 256,
    ensures
        ({
            let n = a * 65536 + b * 256 + c;
            &&& n / 262144 == a / 4
            &&& n / 4096 % 64 == a % 4 * 16 + b / 16
            &&& n / 64 % 64 == b % 16 * 4 + c / 64
            &&& n % 64 == c % 64
        }),
{
    let n = a * 65536 + b * 256 + c;
    assert(n / 4096 == a * 16 + b / 16);
    assert(n / 64 == a * 1024 + b * 4 + c / 64);
}

proof fn lemma_whole_group(a: u8, b: u8, c: u8, rest: Seq<u8>)
    ensures
        base64_text(seq![a, b, c] + rest) == seq![
            base64_symbol(a as int / 4),
            base64_symbol(a as int % 4 * 16 + b as int / 16),
            base64_symbol(b as int % 16 * 4 + c as int / 64),
            base64_symbol(c as int % 64),
        ] + base64_text(rest),
{
    assert((seq![a, b, c] + rest).skip(3) =~= rest);
}

/// The log line for a body gives first the bytes that it took up and then those
/// that it holds.
pub proof fn law_body_line_gives_both_lengths(read: nat, decoded: nat)
    ensures
        ("read "@ + text::decimal(read) + " body bytes ("@).is_prefix_of(body_line(read, decoded)),
        (text::decimal(decoded) + " decoded)\n"@).is_suffix_of(body_line(read, decoded)),
        body_line(read, decoded).len() == 28 + text::decimal(read).len() + text::decimal(
            decoded,
        ).len(),
{
    reveal_strlit("read ");
    reveal_strlit(" body bytes (");
    reveal_strlit(" decoded)\n");
    let line = body_line(read, decoded);
    let front = "read "@ + text::decimal(read) + " body bytes ("@;
    let back = text::decimal(decoded) + " decoded)\n"@;
    assert(line.take(front.len() as int) =~= front);
    assert(line.skip(front.len() as int) =~= back);
    assert(back.is_suffix_of(line));
}

/// What a step gives is what has been read: the decoded body and its length where
/// the reading is done, the reason where it is refused, and else the reader, as far
/// as it has got.
pub proof fn law_what_a_step_gives(r: Result<ReadStep, String>, reading: Reading)
    requires
        step_is(r, reading),
    ensures
        match r {
            Ok(ReadStep::Done(body)) => reading == (Reading::Done {
                data: body.data@,
                read: body.read as nat,
            }),
            Ok(ReadStep::More(reader)) => reading == reader@ && !(reading is Done) && !(
            reading is Refused),
            Err(e) => reading == (Reading::Refused { reason: e@ }),
        },
{
}

} // verus!
