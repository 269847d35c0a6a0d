//! How a runner takes invocations off its control socket.
//!
//! A message arrives in pieces: first up to four bytes together with the
//! descriptor of the client's connection, then what is left of the length of the
//! service id, the id, the length of the module, and the module. A [`Receiver`]
//! says how many bytes it needs next and is fed exactly those.
use vstd::prelude::*;
use vstd::string::*;
use vstd::utf8::*;

use crate::text;
use crate::wire;

verus! {

/// A message received over the control socket from the dispatcher.
#[derive(Debug)]
pub struct InvocationRequest {
    pub service_id: String,
    pub wasm_bytes: Vec<u8>,
    /// The descriptor of the TCP connection that originated this request.
    pub tcp_fd: i32,
}

/// A piece of ancillary data.
#[derive(Debug, Clone, Copy, PartialEq, Eq, Structural)]
pub enum Ancillary {
    /// A descriptor that was passed along.
    Rights(i32),
    /// Anything else.
    Other,
}

/// What came of the first read of a message.
pub enum FirstRead<'a> {
    /// The dispatcher has closed its end.
    Closed,
    /// The read failed.
    Failed,
    /// Bytes, at most four, with ancillary data; none at all when the dispatcher
    /// has closed its end.
    Received { bytes: &'a [u8], ancillary: &'a [Ancillary] },
}

/// Why an invocation could not be received.
#[derive(Debug)]
pub enum RecvError {
    /// The socket could not be read.
    Read,
    /// No descriptor came with the message.
    NoDescriptor,
    /// The service id is not text.
    ServiceIdNotUtf8 { bytes: Vec<u8> },
}

/// The place of the first descriptor among ancillary data.
pub open spec fn first_rights(ancillary: Seq<Ancillary>) -> Option<i32>
    decreases ancillary.len(),
{
    if ancillary.len() == 0 {
        None
    } else {
        match ancillary[0] {
            Ancillary::Rights(fd) => Some(fd),
            Ancillary::Other => first_rights(ancillary.drop_first()),
        }
    }
}

/// The descriptor that was passed along; the first where there are several.
pub fn extract_fd(ancillary: &[Ancillary]) -> (r: Option<i32>)
    ensures
        r == first_rights(ancillary@),
{
    let mut i: usize = 0;
    assert(ancillary@.skip(0) =~= ancillary@);
    while i < ancillary.len()
        invariant
            i <= ancillary@.len(),
            first_rights(ancillary@.skip(i as int)) == first_rights(ancillary@),
        decreases ancillary@.len() - i,
    {
        if let Ancillary::Rights(fd) = ancillary[i] {
            return Some(fd);
        }
        assert(ancillary@.skip(i as int).drop_first() =~= ancillary@.skip(i as int + 1));
        i = i + 1;
    }
    None
}

/// How much of a message has been received.
#[verifier::ext_equal]
pub ghost enum Progress {
    /// Part of the length of the service id.
    Header { got: Seq<u8> },
    /// The length of the service id.
    Id { len: nat },
    /// The service id.
    WasmLen { id: Seq<char> },
    /// The service id and the length of the module.
    Wasm { id: Seq<char>, len: nat },
    /// The whole message.
    Done { id: Seq<char>, wasm: Seq<u8> },
    /// A service id that is not text.
    NotUtf8 { bytes: Seq<u8> },
}

/// A length of eight bytes as a length in memory.
pub open spec fn memory_len(bytes: Seq<u8>) -> nat {
    wire::le_value(bytes) % (usize::MAX + 1) as nat
}

impl Progress {
    pub open spec fn started(got: Seq<u8>) -> Progress {
        if got.len() < 4 {
            Progress::Header { got }
        } else {
            Progress::Id { len: wire::le_value(got) }
        }
    }

    /// How many bytes are needed next.
    pub open spec fn needed(self) -> nat {
        match self {
            Progress::Header { got } => (4 - got.len()) as nat,
            Progress::Id { len } => len,
            Progress::WasmLen { .. } => 8,
            Progress::Wasm { len, .. } => len,
            _ => 0,
        }
    }

    pub open spec fn finished(self) -> bool {
        self is Done || self is NotUtf8
    }

    /// After the bytes that were needed have come in.
    pub open spec fn fed(self, bytes: Seq<u8>) -> Progress {
        match self {
            Progress::Header { got } => Progress::Id { len: wire::le_value(got + bytes) },
            Progress::Id { .. } => if valid_utf8(bytes) {
                Progress::WasmLen { id: decode_utf8(bytes) }
            } else {
                Progress::NotUtf8 { bytes }
            },
            Progress::WasmLen { id } => Progress::Wasm { id, len: memory_len(bytes) },
            Progress::Wasm { id, .. } => Progress::Done { id, wasm: bytes },
            _ => self,
        }
    }

    /// How many more pieces there are at most.
    pub open spec fn steps_left(self) -> nat {
        match self {
            Progress::Header { .. } => 4,
            Progress::Id { .. } => 3,
            Progress::WasmLen { .. } => 2,
            Progress::Wasm { .. } => 1,
            _ => 0,
        }
    }

    /// What comes of a byte stream that is read piece by piece as needed, and
    /// what is left of the stream; `None` where it ends too early.
    pub open spec fn drawn_from(self, stream: Seq<u8>) -> Option<(Progress, Seq<u8>)>
        decreases self.steps_left(),
    {
        if self.finished() {
            Some((self, stream))
        } else if stream.len() < self.needed() {
            None
        } else {
            self.fed(stream.take(self.needed() as int)).drawn_from(
                stream.skip(self.needed() as int),
            )
        }
    }
}

enum Stage {
    Header { got: Vec<u8> },
    Id { len: usize },
    WasmLen { id: String },
    Wasm { id: String, len: usize },
}

/// A message that is being received.
pub struct Receiver {
    stage: Stage,
    tcp_fd: i32,
}

impl View for Receiver {
    type V = Progress;

    closed spec fn view(&self) -> Progress {
        match self.stage {
            Stage::Header { got } => Progress::Header { got: got@ },
            Stage::Id { len } => Progress::Id { len: len as nat },
            Stage::WasmLen { id } => Progress::WasmLen { id: id@ },
            Stage::Wasm { id, len } => Progress::Wasm { id: id@, len: len as nat },
        }
    }
}

/// A message after it has been fed.
pub enum Received {
    /// More bytes are needed.
    More(Receiver),
    /// The message is complete.
    Done(InvocationRequest),
}

/// Begins to receive the next invocation. Returns `None` when the dispatcher has
/// closed its end of the socket.
pub fn recv_invocation(first: FirstRead) -> (r: Result<Option<Receiver>, RecvError>)
    requires
        first matches FirstRead::Received { bytes, .. } ==> bytes@.len() <= 4,
    ensures
        match first {
            FirstRead::Closed => r matches Ok(None),
            FirstRead::Failed => r matches Err(RecvError::Read),
            FirstRead::Received { bytes, ancillary } => if bytes@.len() == 0 {
                r matches Ok(None)
            } else {
                match first_rights(ancillary@) {
                    None => r matches Err(RecvError::NoDescriptor),
                    Some(fd) => {
                        &&& r matches Ok(Some(receiver))
                        &&& receiver.fd() == fd
                        &&& receiver@ == Progress::started(bytes@)
                    },
                }
            },
        },
{
    match first {
        FirstRead::Closed => Ok(None),
        FirstRead::Failed => Err(RecvError::Read),
        FirstRead::Received { bytes, ancillary } => {
            if bytes.len() == 0 {
                return Ok(None);
            }
            match extract_fd(ancillary) {
                None => Err(RecvError::NoDescriptor),
                Some(tcp_fd) => {
                    let stage = if bytes.len() < 4 {
                        Stage::Header { got: vstd::slice::slice_to_vec(bytes) }
                    } else {
                        Stage::Id { len: id_len(bytes) }
                    };
                    Ok(Some(Receiver { stage, tcp_fd }))
                },
            }
        },
    }
}

fn id_len(bytes: &[u8]) -> (len: usize)
    requires
        bytes@.len() == 4,
    ensures
        len == wire::le_value(bytes@),
{
    proof {
        wire::lemma_le_value_bound(bytes@);
        wire::lemma_le_limits();
    }
    wire::decode_le(bytes) as usize
}

fn wasm_len(bytes: &[u8]) -> (len: usize)
    requires
        bytes@.len() == 8,
    ensures
        len == memory_len(bytes@),
{
    let len: u64 = wire::decode_le(bytes);
    if len <= usize::MAX as u64 {
        proof {
            vstd::arithmetic::div_mod::lemma_small_mod(len as nat, (usize::MAX + 1) as nat);
        }
        len as usize
    } else {
        (len % (usize::MAX as u64 + 1)) as usize
    }
}

impl Receiver {
    /// The descriptor that came with the message.
    pub closed spec fn fd(&self) -> i32 {
        self.tcp_fd
    }

    #[verifier::type_invariant]
    spec fn header_open(&self) -> bool {
        self.stage matches Stage::Header { got } ==> got@.len() < 4
    }

    /// How many bytes are needed next.
    pub fn needed(&self) -> (n: usize)
        ensures
            n == self@.needed(),
    {
        proof {
            use_type_invariant(self);
        }
        match &self.stage {
            Stage::Header { got } => 4 - got.len(),
            Stage::Id { len } => *len,
            Stage::WasmLen { .. } => 8,
            Stage::Wasm { len, .. } => *len,
        }
    }

    /// Takes in the bytes that were needed.
    pub fn feed(self, bytes: Vec<u8>) -> (r: Result<Received, RecvError>)
        requires
            bytes@.len() == self@.needed(),
        ensures
            match self@.fed(bytes@) {
                Progress::Done { id, wasm } => {
                    &&& r matches Ok(Received::Done(request))
                    &&& request.service_id@ == id
                    &&& request.wasm_bytes@ == wasm
                    &&& request.tcp_fd == self.fd()
                },
                Progress::NotUtf8 { bytes } => {
                    &&& r matches Err(RecvError::ServiceIdNotUtf8 { bytes: refused })
                    &&& refused@ == bytes
                },
                more => {
                    &&& r matches Ok(Received::More(receiver))
                    &&& receiver@ == more
                    &&& receiver.fd() == self.fd()
                },
            },
    {
        proof {
            use_type_invariant(&self);
        }
        let tcp_fd = self.tcp_fd;
        let next = match self.stage {
            Stage::Header { got } => {
                let mut header = got;
                let mut rest = bytes;
                header.append(&mut rest);
                Stage::Id { len: id_len(header.as_slice()) }
            },
            Stage::Id { .. } => {
                let id = match text::str_from_utf8(bytes.as_slice()) {
                    Some(id) => id.to_owned(),
                    None => return Err(RecvError::ServiceIdNotUtf8 { bytes }),
                };
                Stage::WasmLen { id }
            },
            Stage::WasmLen { id } => Stage::Wasm { id, len: wasm_len(bytes.as_slice()) },
            Stage::Wasm { id, .. } => {
                return Ok(
                    Received::Done(
                        InvocationRequest { service_id: id, wasm_bytes: bytes, tcp_fd },
                    ),
                );
            },
        };
        Ok(Received::More(Receiver { stage: next, tcp_fd }))
    }
}

/// What a dispatcher sends for an invocation is what a runner receives, however
/// much of the first four bytes the first read brings, and what follows on the
/// socket is left untouched.
pub proof fn law_frame_received(id: Seq<char>, wasm: Seq<u8>, first: int, more: Seq<u8>)
    requires
        encode_utf8(id).len() <= u32::MAX,
        wasm.len() <= usize::MAX,
        1 <= first <= 4,
    ensures
        ({
            let frame = wire::frame(id, wasm);
            Progress::started(frame.take(first)).drawn_from(frame.skip(first) + more)
        }) == Some((Progress::Done { id, wasm }, more)),
{
    let frame = wire::frame(id, wasm);
    let header = wire::frame_header(id);
    let wasm_len = wire::frame_wasm_len(wasm);
    let id_bytes = encode_utf8(id);
    wire::lemma_le_limits();
    wire::lemma_le_bytes_len(id_bytes.len(), 4);
    wire::lemma_le_bytes_len(wasm.len(), 8);
    wire::lemma_le_round_trip(id_bytes.len(), 4);
    wire::lemma_le_round_trip(wasm.len(), 8);
    encode_utf8_valid_utf8(id);
    encode_utf8_decode_utf8(id);
    vstd::arithmetic::div_mod::lemma_small_mod(wasm.len(), (usize::MAX + 1) as nat);
    // From the end of the message back to its beginning.
    let s3 = wasm + more;
    let s2 = wasm_len + s3;
    let s1 = id_bytes + s2;
    assert(s3.take(wasm.len() as int) =~= wasm);
    assert(s3.skip(wasm.len() as int) =~= more);
    let done = Progress::Done { id, wasm };
    assert(done.drawn_from(more) == Some((done, more)));
    assert((Progress::Wasm { id, len: wasm.len() }).drawn_from(s3) == Some((done, more)));
    assert(s2.take(8) =~= wasm_len);
    assert(s2.skip(8) =~= s3);
    assert((Progress::WasmLen { id }).drawn_from(s2) == Some((done, more)));
    assert(s1.take(id_bytes.len() as int) =~= id_bytes);
    assert(s1.skip(id_bytes.len() as int) =~= s2);
    assert((Progress::Id { len: id_bytes.len() }).drawn_from(s1) == Some((done, more)));
    if first < 4 {
        let got = frame.take(first);
        let s0 = frame.skip(first) + more;
        assert(s0.take(4 - first) =~= header.skip(first));
        assert(s0.skip(4 - first) =~= s1);
        assert(got + header.skip(first) =~= header);
    } else {
        assert(frame.take(4) =~= header);
        assert(frame.skip(4) + more =~= s1);
    }
}

/// The descriptor of a message is the first that is passed along, whatever stands
/// before it and whatever follows; without one there is none.
pub proof fn law_first_descriptor_counts(others: Seq<Ancillary>, fd: i32, rest: Seq<Ancillary>)
    requires
        forall|i: int| 0 <= i < others.len() ==> #[trigger] others[i] == Ancillary::Other,
    ensures
        first_rights(others) is None,
        first_rights(others + seq![Ancillary::Rights(fd)] + rest) == Some(fd),
    decreases others.len(),
{
    let all = others + seq![Ancillary::Rights(fd)] + rest;
    if others.len() > 0 {
        let fewer = others.drop_first();
        assert(others[0] == Ancillary::Other);
        assert forall|i: int| 0 <= i < fewer.len() implies #[trigger] fewer[i]
            == Ancillary::Other by {
            assert(fewer[i] == others[i + 1]);
        }
        law_first_descriptor_counts(fewer, fd, rest);
        assert(all[0] == Ancillary::Other);
        assert(all.drop_first() =~= fewer + seq![Ancillary::Rights(fd)] + rest);
    } else {
        assert(all[0] == Ancillary::Rights(fd));
    }
}

/// A service id that is not text is refused, with its bytes, as soon as they have
/// come in, and nothing that follows is touched.
pub proof fn law_id_must_be_text(bytes: Seq<u8>, more: Seq<u8>)
    requires
        bytes.len() <= u32::MAX,
        !valid_utf8(bytes),
    ensures
        Progress::started(wire::le_bytes(bytes.len(), 4)).drawn_from(bytes + more) == Some(
            (Progress::NotUtf8 { bytes }, more),
        ),
{
    wire::lemma_le_limits();
    wire::lemma_le_bytes_len(bytes.len(), 4);
    wire::lemma_le_round_trip(bytes.len(), 4);
    let stream = bytes + more;
    assert(stream.take(bytes.len() as int) =~= bytes);
    assert(stream.skip(bytes.len() as int) =~= more);
    let refused = Progress::NotUtf8 { bytes };
    assert(refused.drawn_from(more) == Some((refused, more)));
}

/// As long as anything of a message is missing, nothing comes of it.
pub proof fn law_cut_frame_is_not_received(id: Seq<char>, wasm: Seq<u8>, first: int, len: int)
    requires
        encode_utf8(id).len() <= u32::MAX,
        wasm.len() <= usize::MAX,
        1 <= first <= 4,
        first <= len < wire::frame(id, wasm).len(),
    ensures
        ({
            let frame = wire::frame(id, wasm);
            Progress::started(frame.take(first)).drawn_from(frame.subrange(first, len))
        }) is None,
{
    let frame = wire::frame(id, wasm);
    let header = wire::frame_header(id);
    let wasm_len = wire::frame_wasm_len(wasm);
    let id_bytes = encode_utf8(id);
    let n = id_bytes.len() as int;
    wire::lemma_le_limits();
    wire::lemma_le_bytes_len(id_bytes.len(), 4);
    wire::lemma_le_bytes_len(wasm.len(), 8);
    wire::lemma_le_round_trip(id_bytes.len(), 4);
    wire::lemma_le_round_trip(wasm.len(), 8);
    encode_utf8_valid_utf8(id);
    encode_utf8_decode_utf8(id);
    vstd::arithmetic::div_mod::lemma_small_mod(wasm.len(), (usize::MAX + 1) as nat);
    if len >= 12 + n {
        let s3 = frame.subrange(12 + n, len);
        assert((Progress::Wasm { id, len: wasm.len() }).drawn_from(s3) is None);
    }
    if len >= 4 + n {
        let s2 = frame.subrange(4 + n, len);
        if len >= 12 + n {
            assert(s2.take(8) =~= wasm_len);
            assert(s2.skip(8) =~= frame.subrange(12 + n, len));
        }
        assert((Progress::WasmLen { id }).drawn_from(s2) is None);
    }
    if len >= 4 {
        let s1 = frame.subrange(4, len);
        if len >= 4 + n {
            assert(s1.take(n) =~= id_bytes);
            assert(s1.skip(n) =~= frame.subrange(4 + n, len));
        }
        assert((Progress::Id { len: id_bytes.len() }).drawn_from(s1) is None);
    }
    if first < 4 {
        let got = frame.take(first);
        let s0 = frame.subrange(first, len);
        if len >= 4 {
            assert(s0.take(4 - first) =~= header.skip(first));
            assert(s0.skip(4 - first) =~= frame.subrange(4, len));
            assert(got + header.skip(first) =~= header);
        }
    } else {
        assert(frame.take(4) =~= header);
    }
}

} // verus!
