//! What travels over the control socket between the dispatcher and a runner.
//!
//! The dispatcher sends invocations, each as
//! `[service_id_len: u32 LE][service_id][wasm_len: u64 LE][wasm]`, where the
//! first four bytes carry the descriptor of the client's connection. The runner
//! answers with single signal bytes.
use vstd::arithmetic::div_mod::{lemma_div_denominator, lemma_div_pos_is_pos};
use vstd::arithmetic::power::{lemma_pow0, lemma_pow1, lemma_pow_adds, lemma_pow_positive, pow};
use vstd::prelude::*;
use vstd::utf8::*;

verus! {

/// The runner has completed an invocation.
pub const SIGNAL_COMPLETE: u8 = 0x00;

/// The runner has met a fatal error.
pub const SIGNAL_ERROR: u8 = 0x01;

/// The `n` low bytes of `v`, least significant first.
pub open spec fn le_bytes(v: nat, n: nat) -> Seq<u8>
    decreases n,
{
    if n == 0 {
        Seq::empty()
    } else {
        seq![(v % 256) as u8] + le_bytes(v / 256, (n - 1) as nat)
    }
}

/// The number that a byte string denotes, least significant byte first.
pub open spec fn le_value(bytes: Seq<u8>) -> nat
    decreases bytes.len(),
{
    if bytes.len() == 0 {
        0
    } else {
        bytes[0] as nat + 256 * le_value(bytes.drop_first())
    }
}

/// `256^n`.
pub open spec fn le_limit(n: nat) -> nat
    decreases n,
{
    if n == 0 {
        1
    } else {
        256 * le_limit((n - 1) as nat)
    }
}

/// The bytes of an invocation on the control socket.
pub open spec fn frame(service_id: Seq<char>, wasm: Seq<u8>) -> Seq<u8> {
    frame_header(service_id) + encode_utf8(service_id) + frame_wasm_len(wasm) + wasm
}

/// The length of the service id, in four bytes.
pub open spec fn frame_header(service_id: Seq<char>) -> Seq<u8> {
    le_bytes(encode_utf8(service_id).len(), 4)
}

/// The length of the module, in eight bytes.
pub open spec fn frame_wasm_len(wasm: Seq<u8>) -> Seq<u8> {
    le_bytes(wasm.len(), 8)
}

pub proof fn lemma_le_bytes_len(v: nat, n: nat)
    ensures
        le_bytes(v, n).len() == n,
    decreases n,
{
    if n > 0 {
        lemma_le_bytes_len(v / 256, (n - 1) as nat);
    }
}

/// A number below `256^n` comes back from its `n` bytes.
pub proof fn lemma_le_round_trip(v: nat, n: nat)
    requires
        v < le_limit(n),
    ensures
        le_value(le_bytes(v, n)) == v,
    decreases n,
{
    if n > 0 {
        lemma_le_round_trip(v / 256, (n - 1) as nat);
        assert(le_bytes(v, n).drop_first() =~= le_bytes(v / 256, (n - 1) as nat));
    }
}

/// The number that `n` bytes denote is below `256^n`.
pub proof fn lemma_le_value_bound(bytes: Seq<u8>)
    ensures
        le_value(bytes) < le_limit(bytes.len()),
    decreases bytes.len(),
{
    if bytes.len() > 0 {
        lemma_le_value_bound(bytes.drop_first());
    }
}

pub proof fn lemma_le_limits()
    ensures
        le_limit(4) == 0x1_0000_0000,
        le_limit(8) == 0x1_0000_0000_0000_0000,
{
    reveal_with_fuel(le_limit, 9);
}

/// Encodes the `n` low bytes of a number, least significant first.
pub fn encode_le(v: u64, n: usize) -> (bytes: Vec<u8>)
    ensures
        bytes@ == le_bytes(v as nat, n as nat),
{
    let mut bytes: Vec<u8> = Vec::new();
    let mut rest: u64 = v;
    let mut left: usize = n;
    assert(bytes@ + le_bytes(rest as nat, left as nat) =~= le_bytes(v as nat, n as nat));
    while left > 0
        invariant
            bytes@ + le_bytes(rest as nat, left as nat) == le_bytes(v as nat, n as nat),
        decreases left,
    {
        let low: u8 = (rest % 256) as u8;
        let ghost before = bytes@;
        bytes.push(low);
        proof {
            assert(before + (seq![low] + le_bytes(rest as nat / 256, (left - 1) as nat)) =~= bytes@
                + le_bytes(rest as nat / 256, (left - 1) as nat));
        }
        rest = rest / 256;
        left = left - 1;
    }
    assert(bytes@ + le_bytes(rest as nat, 0) =~= bytes@);
    bytes
}

/// Decodes a number of at most eight bytes, least significant first.
pub fn decode_le(bytes: &[u8]) -> (v: u64)
    requires
        bytes@.len() <= 8,
    ensures
        v == le_value(bytes@),
{
    let mut v: u64 = 0;
    let mut i: usize = bytes.len();
    assert(bytes@.skip(i as int) =~= Seq::<u8>::empty());
    while i > 0
        invariant
            i <= bytes@.len() <= 8,
            v == le_value(bytes@.skip(i as int)),
        decreases i,
    {
        let ghost rest = bytes@.skip(i as int);
        i = i - 1;
        proof {
            let here = bytes@.skip(i as int);
            assert(here.drop_first() =~= rest);
            lemma_le_value_bound(here);
            lemma_le_limit_grows(here.len(), 8);
            lemma_le_limits();
        }
        v = bytes[i] as u64 + 256 * v;
    }
    assert(bytes@.skip(0) =~= bytes@);
    v
}

proof fn lemma_le_limit_grows(n: nat, m: nat)
    requires
        n <= m,
    ensures
        le_limit(n) <= le_limit(m),
    decreases m,
{
    if n < m {
        lemma_le_limit_grows(n, (m - 1) as nat);
    }
}

/// The byte in place `i` holds the digit of `256^i`.
pub proof fn law_le_digit(v: nat, n: nat, i: int)
    requires
        0 <= i < n,
    ensures
        le_bytes(v, n).len() == n,
        le_bytes(v, n)[i] == (v as int / pow(256, i as nat)) % 256,
    decreases n,
{
    lemma_le_bytes_len(v, n);
    lemma_pow_positive(256, i as nat);
    lemma_div_pos_is_pos(v as int, pow(256, i as nat));
    if i == 0 {
        lemma_pow0(256);
    } else {
        law_le_digit(v / 256, (n - 1) as nat, i - 1);
        let e = (i - 1) as nat;
        lemma_pow_positive(256, e);
        lemma_pow_adds(256, 1, e);
        lemma_pow1(256);
        lemma_div_denominator(v as int, 256, pow(256, e));
        assert(le_bytes(v, n)[i] == le_bytes(v / 256, (n - 1) as nat)[i - 1]);
    }
}

/// A byte behind others counts for itself times the power of 256 of its place.
pub proof fn law_le_value(bytes: Seq<u8>, last: u8)
    ensures
        le_value(Seq::empty()) == 0,
        le_value(bytes.push(last)) == le_value(bytes) + last * pow(256, bytes.len()),
    decreases bytes.len(),
{
    let all = bytes.push(last);
    lemma_pow0(256);
    if bytes.len() == 0 {
        assert(all.drop_first() =~= Seq::<u8>::empty());
    } else {
        let rest = bytes.drop_first();
        law_le_value(rest, last);
        assert(all.drop_first() =~= rest.push(last));
        lemma_pow1(256);
        lemma_pow_adds(256, 1, rest.len());
        assert(256 * (last * pow(256, rest.len())) == last * (256 * pow(256, rest.len())))
            by (nonlinear_arith);
    }
}

/// An invocation on the control socket: four bytes with the length of the service
/// id, the id, eight bytes with the length of the module, and the module.
pub proof fn law_frame_layout(service_id: Seq<char>, wasm: Seq<u8>, i: int)
    ensures
        ({
            let whole = frame(service_id, wasm);
            let id = encode_utf8(service_id);
            let n = id.len() as int;
            &&& whole.len() == 12 + id.len() + wasm.len()
            &&& 0 <= i < 4 ==> whole[i] == (n / pow(256, i as nat)) % 256
            &&& whole.subrange(4, 4 + n) == id
            &&& 0 <= i < 8 ==> whole[4 + n + i] == (wasm.len() as int / pow(256, i as nat)) % 256
            &&& whole.skip(12 + n) == wasm
        }),
{
    let id = encode_utf8(service_id);
    let n = id.len() as int;
    lemma_le_bytes_len(id.len(), 4);
    lemma_le_bytes_len(wasm.len(), 8);
    if 0 <= i < 4 {
        law_le_digit(id.len(), 4, i);
    }
    if 0 <= i < 8 {
        law_le_digit(wasm.len(), 8, i);
    }
    assert(frame(service_id, wasm).subrange(4, 4 + n) =~= id);
    assert(frame(service_id, wasm).skip(12 + n) =~= wasm);
}

} // verus!
