//! A minimal HPACK decoder that extracts `:path` from the header block of an
//! HTTP/2 HEADERS frame.
//!
//! It implements enough of HPACK to locate the `:path` pseudo-header on a fresh
//! connection, whose dynamic table is empty. It keeps no dynamic table.
use vstd::arithmetic::power2::*;
use vstd::prelude::*;
use vstd::slice::{slice_subrange, slice_to_vec};
use vstd::utf8::*;

use crate::network::bits;
use crate::network::huffman;
use crate::text;

verus! {

/// The index of `:path` in the static table, where its value is `/`.
pub const PATH_INDEX: usize = 4;

/// The other index of `:path` in the static table, where its value is
/// `/index.html`.
pub const INDEX_HTML_PATH_INDEX: usize = 5;

/// The continuation of an integer: seven bits from each byte, least significant
/// first, up to the first byte below 0x80, and at most five bytes in all, of
/// which `read` came before. Gives the value and the number of bytes.
pub open spec fn continuation(buf: Seq<u8>, read: nat) -> Result<(nat, nat), Seq<char>>
    decreases buf.len(),
{
    if buf.len() == 0 {
        Err("truncated hpack integer"@)
    } else if buf[0] < 0x80 {
        Ok((buf[0] as nat, 1))
    } else if read >= 4 {
        Err("hpack integer overflow"@)
    } else {
        match continuation(buf.drop_first(), read + 1) {
            Ok((value, n)) => Ok(((buf[0] - 0x80 + 128 * value) as nat, n + 1)),
            Err(e) => Err(e),
        }
    }
}

/// The integer at the front of `buf` whose prefix is the `prefix_bits` low bits
/// of the first byte: the prefix itself, or, where all its bits are set, the
/// prefix plus a continuation. Gives the value and the number of bytes.
pub open spec fn integer(buf: Seq<u8>, prefix_bits: nat) -> Result<(nat, nat), Seq<char>> {
    let limit = pow2(prefix_bits);
    if buf.len() == 0 {
        Err("empty buffer for integer decode"@)
    } else if buf[0] as nat % limit < limit - 1 {
        Ok((buf[0] as nat % limit, 1))
    } else {
        match continuation(buf.drop_first(), 0) {
            Ok((value, n)) => if limit - 1 + value <= usize::MAX {
                Ok(((limit - 1 + value) as nat, n + 1))
            } else {
                Err("hpack integer overflow"@)
            },
            Err(e) => Err(e),
        }
    }
}

/// Where the octets of the string literal at the front of `buf` begin and end.
pub open spec fn string_span(buf: Seq<u8>) -> Result<(nat, nat), Seq<char>> {
    match integer(buf, 7) {
        Ok((length, start)) => if start + length <= buf.len() {
            Ok((start, start + length))
        } else {
            Err("truncated hpack string"@)
        },
        Err(e) => Err(e),
    }
}

/// The string literal at the front of `buf`, decoded, and the number of bytes it
/// takes.
pub open spec fn string_literal(buf: Seq<u8>) -> Result<(Seq<u8>, nat), Seq<char>> {
    if buf.len() == 0 {
        Err("empty buffer for string decode"@)
    } else {
        match string_span(buf) {
            Ok((start, end)) => {
                let raw = buf.subrange(start as int, end as int);
                if buf[0] >= 0x80 {
                    match huffman::decoded(bits::bits_of(raw)) {
                        Ok(text) => Ok((text, end)),
                        Err(e) => Err(e),
                    }
                } else {
                    Ok((raw, end))
                }
            },
            Err(e) => Err(e),
        }
    }
}

/// The number of bytes that the string literal at the front of `buf` takes.
pub open spec fn string_len(buf: Seq<u8>) -> Result<nat, Seq<char>> {
    if buf.len() == 0 {
        Err("empty buffer for string skip"@)
    } else {
        match string_span(buf) {
            Ok((start, end)) => Ok(end),
            Err(e) => Err(e),
        }
    }
}

/// What a header field at the front of a block says of `:path`.
pub enum Field {
    /// The field is `:path` with this value.
    Path(Seq<char>),
    /// The field is another one and takes this many bytes.
    Other(nat),
    /// The field cannot be read.
    Malformed(Seq<char>),
}

/// A field that stands in the static table as a whole.
pub open spec fn indexed_field(block: Seq<u8>) -> Field {
    match integer(block, 7) {
        Err(e) => Field::Malformed(e),
        Ok((index, n)) => if index == PATH_INDEX {
            Field::Path("/"@)
        } else if index == INDEX_HTML_PATH_INDEX {
            Field::Path("/index.html"@)
        } else {
            Field::Other(n)
        },
    }
}

/// `:path` as octets.
pub open spec fn path_name() -> Seq<u8> {
    seq![0x3au8, 0x70, 0x61, 0x74, 0x68]
}

/// The string literal at the front of `buf` spells out `:path`.
pub open spec fn spells_path(buf: Seq<u8>) -> bool {
    string_literal(buf) matches Ok((name, _)) && name == path_name()
}

/// The name of a field with a literal value: an index of `prefix_bits` bits or,
/// where the index is 0, a literal too. Gives whether the name is `:path`, and
/// where the value begins.
pub open spec fn literal_name(block: Seq<u8>, prefix_bits: nat) -> Result<
    (bool, nat),
    Seq<char>,
> {
    match integer(block, prefix_bits) {
        Err(e) => Err(e),
        Ok((name_index, n)) => if name_index == 0 {
            match string_len(block.skip(n as int)) {
                Err(e) => Err(e),
                Ok(name_len) => Ok((spells_path(block.skip(n as int)), n + name_len)),
            }
        } else {
            Ok((name_index == PATH_INDEX || name_index == INDEX_HTML_PATH_INDEX, n))
        },
    }
}

/// A field with a literal value, whose name is given with `prefix_bits` bits.
pub open spec fn literal_field(block: Seq<u8>, prefix_bits: nat) -> Field {
    match literal_name(block, prefix_bits) {
        Err(e) => Field::Malformed(e),
        Ok((is_path, at)) => if is_path {
            path_value(block.skip(at as int))
        } else {
            other_value(block, at)
        },
    }
}

/// The `:path` field whose value is the string literal at the front of `buf`.
pub open spec fn path_value(buf: Seq<u8>) -> Field {
    match string_literal(buf) {
        Err(e) => Field::Malformed(e),
        Ok((value, _)) => if valid_utf8(value) {
            Field::Path(decode_utf8(value))
        } else {
            Field::Malformed("path is not valid utf-8"@)
        },
    }
}

/// A field whose value, which begins at `at`, is of no interest.
pub open spec fn other_value(block: Seq<u8>, at: nat) -> Field {
    match string_len(block.skip(at as int)) {
        Err(e) => Field::Malformed(e),
        Ok(value_len) => Field::Other(at + value_len),
    }
}

/// A change of the size of the dynamic table.
pub open spec fn size_update(block: Seq<u8>) -> Field {
    match integer(block, 5) {
        Err(e) => Field::Malformed(e),
        Ok((_, n)) => Field::Other(n),
    }
}

/// The field at the front of a block that is not empty: its first bits tell the
/// kinds apart.
pub open spec fn first_field(block: Seq<u8>) -> Field {
    if block[0] >= 0x80 {
        indexed_field(block)
    } else if block[0] >= 0x40 {
        literal_field(block, 6)
    } else if block[0] >= 0x20 {
        size_update(block)
    } else {
        literal_field(block, 4)
    }
}

/// The value of the first `:path` field of a header block.
pub open spec fn path_of(block: Seq<u8>) -> Result<Seq<char>, Seq<char>>
    decreases block.len(),
{
    if block.len() == 0 {
        Err(":path header not found in header block"@)
    } else {
        match first_field(block) {
            Field::Path(path) => Ok(path),
            Field::Malformed(e) => Err(e),
            Field::Other(n) => if 0 < n <= block.len() {
                path_of(block.skip(n as int))
            } else {
                Err(":path header not found in header block"@)
            },
        }
    }
}

/// A continuation takes between one and five bytes and is below `2^35`.
pub proof fn lemma_continuation(buf: Seq<u8>, read: nat)
    ensures
        continuation(buf, read) matches Ok((value, n)) ==> {
            &&& 1 <= n <= buf.len()
            &&& read <= 4 ==> n + read <= 5
            &&& read == 4 ==> value < 0x80
            &&& read == 3 ==> value < 0x4000
            &&& read == 2 ==> value < 0x20_0000
            &&& read == 1 ==> value < 0x1000_0000
            &&& read == 0 ==> value < 0x8_0000_0000
        },
    decreases buf.len(),
{
    if buf.len() > 0 && buf[0] >= 0x80 && read < 4 {
        lemma_continuation(buf.drop_first(), read + 1);
    }
}

/// An integer takes at least one byte, at most six, and never more than there
/// are.
pub proof fn law_integer_len(buf: Seq<u8>, prefix_bits: nat)
    ensures
        integer(buf, prefix_bits) matches Ok((value, n)) ==> 1 <= n <= 6 && n <= buf.len(),
{
    if buf.len() > 0 {
        lemma_continuation(buf.drop_first(), 0);
    }
}

/// The views of a result that holds a number pair or a message.
pub open spec fn pair_view(r: Result<(usize, usize), &'static str>) -> Result<
    (nat, nat),
    Seq<char>,
> {
    match r {
        Ok((a, b)) => Ok((a as nat, b as nat)),
        Err(e) => Err(e@),
    }
}

/// Decodes an HPACK integer with the given prefix width. Returns the value and
/// the number of bytes consumed.
pub fn decode_integer(buf: &[u8], prefix_bits: u8) -> (r: Result<(usize, usize), &'static str>)
    requires
        prefix_bits < 16,
    ensures
        pair_view(r) == integer(buf@, prefix_bits as nat),
{
    if buf.len() == 0 {
        return Err("empty buffer for integer decode");
    }
    let limit: u16 = 1u16 << prefix_bits;
    proof {
        lemma_limit(prefix_bits);
    }
    let first: u16 = buf[0] as u16 % limit;
    if first < limit - 1 {
        return Ok((first as usize, 1));
    }
    let ghost tail = buf@.drop_first();
    let mut value: u64 = 0;
    let mut scale: u64 = 1;
    let mut read: usize = 0;
    proof {
        lemma2_to64();
        assert(tail.skip(0) =~= tail);
    }
    loop
        invariant
            read <= 4,
            read < buf@.len(),
            tail == buf@.drop_first(),
            scale == pow2((7 * read) as nat),
            scale <= 0x1000_0000,
            read == 4 <==> scale == 0x1000_0000,
            value < scale,
            match continuation(tail.skip(read as int), read as nat) {
                Ok((rest, n)) => continuation(tail, 0) == Ok::<(nat, nat), Seq<char>>(
                    ((value + scale * rest) as nat, n + read as nat),
                ),
                Err(e) => continuation(tail, 0) == Err::<(nat, nat), Seq<char>>(e),
            },
            limit >= 1,
            limit == pow2(prefix_bits as nat),
            buf@.len() > 0,
            buf@[0] as nat % limit as nat >= limit - 1,
        decreases 5 - read,
    {
        let ghost here = tail.skip(read as int);
        if read + 1 >= buf.len() {
            assert(here.len() == 0);
            return Err("truncated hpack integer");
        }
        let b = buf[read + 1];
        assert(here[0] == b);
        assert(here.drop_first() =~= tail.skip(read as int + 1));
        let low: u64 = if b < 0x80 {
            b as u64
        } else {
            (b - 0x80) as u64
        };
        assert(low * scale <= 127 * scale) by (nonlinear_arith)
            requires
                low <= 127,
        ;
        let ghost old_value = value;
        let ghost old_scale = scale;
        value = value + low * scale;
        if b < 0x80 {
            proof {
                assert(scale * low == low * scale) by (nonlinear_arith);
                lemma_continuation(tail, 0);
            }
            let total: u64 = value + (limit - 1) as u64;
            if total > usize::MAX as u64 {
                return Err("hpack integer overflow");
            }
            return Ok((total as usize, read + 2));
        }
        if read == 4 {
            return Err("hpack integer overflow");
        }
        scale = scale * 128;
        proof {
            lemma_pow2_adds((7 * read) as nat, 7);
            lemma2_to64();
            match continuation(here.drop_first(), read as nat + 1) {
                Ok((rest, n)) => {
                    assert(old_value + old_scale * (low + 128 * rest) == (old_value + low
                        * old_scale) + (old_scale * 128) * rest) by (nonlinear_arith);
                },
                Err(e) => {},
            }
        }
        read = read + 1;
    }
}

proof fn lemma_limit(prefix_bits: u8)
    requires
        prefix_bits < 16,
    ensures
        1u16 << prefix_bits == pow2(prefix_bits as nat),
        1u16 << prefix_bits >= 1,
{
    lemma2_to64();
    lemma_pow2_pos(prefix_bits as nat);
    let p = prefix_bits;
    assert(1u16 << 0u8 == 1u16 && 1u16 << 1u8 == 2u16 && 1u16 << 2u8 == 4u16 && 1u16 << 3u8 == 8u16
        && 1u16 << 4u8 == 16u16 && 1u16 << 5u8 == 32u16 && 1u16 << 6u8 == 64u16 && 1u16 << 7u8
        == 128u16 && 1u16 << 8u8 == 256u16 && 1u16 << 9u8 == 512u16 && 1u16 << 10u8 == 1024u16
        && 1u16 << 11u8 == 2048u16 && 1u16 << 12u8 == 4096u16 && 1u16 << 13u8 == 8192u16 && 1u16
        << 14u8 == 16384u16 && 1u16 << 15u8 == 32768u16) by (bit_vector);
}

/// Decodes an HPACK string literal. Returns the octets and the number of bytes
/// consumed.
pub fn decode_string(buf: &[u8]) -> (r: Result<(Vec<u8>, usize), &'static str>)
    ensures
        match r {
            Ok((text, n)) => string_literal(buf@) == Ok::<(Seq<u8>, nat), Seq<char>>(
                (text@, n as nat),
            ),
            Err(e) => string_literal(buf@) == Err::<(Seq<u8>, nat), Seq<char>>(e@),
        },
{
    if buf.len() == 0 {
        return Err("empty buffer for string decode");
    }
    let is_huffman = buf[0] >= 0x80;
    let (length, start) = match decode_integer(buf, 7) {
        Ok(pair) => pair,
        Err(e) => {
            return Err(e);
        },
    };
    proof {
        law_integer_len(buf@, 7);
    }
    if length > buf.len() - start {
        return Err("truncated hpack string");
    }
    let end = start + length;
    let raw = slice_subrange(buf, start, end);
    if is_huffman {
        match huffman::huffman_decode(raw) {
            Ok(text) => Ok((text, end)),
            Err(e) => Err(e),
        }
    } else {
        Ok((slice_to_vec(raw), end))
    }
}

/// Skips an HPACK string literal without decoding its value. Returns the number
/// of bytes consumed.
pub fn skip_string(buf: &[u8]) -> (r: Result<usize, &'static str>)
    ensures
        match r {
            Ok(n) => string_len(buf@) == Ok::<nat, Seq<char>>(n as nat),
            Err(e) => string_len(buf@) == Err::<nat, Seq<char>>(e@),
        },
{
    if buf.len() == 0 {
        return Err("empty buffer for string skip");
    }
    let (length, start) = match decode_integer(buf, 7) {
        Ok(pair) => pair,
        Err(e) => {
            return Err(e);
        },
    };
    proof {
        law_integer_len(buf@, 7);
    }
    if length > buf.len() - start {
        return Err("truncated hpack string");
    }
    Ok(start + length)
}

/// A header field as far as the search for `:path` needs it.
enum FieldRead {
    /// The value of `:path`.
    Path(String),
    /// Another field of this many bytes.
    Other(usize),
}

spec fn field_view(r: Result<FieldRead, &'static str>) -> Field {
    match r {
        Ok(FieldRead::Path(path)) => Field::Path(path@),
        Ok(FieldRead::Other(n)) => Field::Other(n as nat),
        Err(e) => Field::Malformed(e@),
    }
}

/// Reads an indexed field.
fn read_indexed(block: &[u8]) -> (r: Result<FieldRead, &'static str>)
    ensures
        field_view(r) == indexed_field(block@),
{
    let (index, consumed) = match decode_integer(block, 7) {
        Ok(pair) => pair,
        Err(e) => {
            return Err(e);
        },
    };
    if index == PATH_INDEX {
        return Ok(FieldRead::Path("/".to_owned()));
    }
    if index == INDEX_HTML_PATH_INDEX {
        return Ok(FieldRead::Path("/index.html".to_owned()));
    }
    Ok(FieldRead::Other(consumed))
}

/// Whether the string literal at the front of `buf` spells out `:path`.
fn reads_path_name(buf: &[u8]) -> (r: bool)
    ensures
        r == spells_path(buf@),
{
    match decode_string(buf) {
        Ok((name, _)) => {
            let is_path = name.len() == 5 && name[0] == 0x3a && name[1] == 0x70 && name[2] == 0x61
                && name[3] == 0x74 && name[4] == 0x68;
            assert(is_path ==> name@ =~= path_name());
            is_path
        },
        Err(_) => false,
    }
}

/// Reads the name of a field with a literal value. Gives whether it is `:path`,
/// and where the value begins.
fn read_literal_name(block: &[u8], prefix_bits: u8) -> (r: Result<(bool, usize), &'static str>)
    requires
        prefix_bits < 16,
    ensures
        match r {
            Ok((is_path, at)) => literal_name(block@, prefix_bits as nat) == Ok::<
                (bool, nat),
                Seq<char>,
            >((is_path, at as nat)) && at <= block@.len(),
            Err(e) => literal_name(block@, prefix_bits as nat) == Err::<(bool, nat), Seq<char>>(
                e@,
            ),
        },
{
    let (name_index, consumed) = match decode_integer(block, prefix_bits) {
        Ok(pair) => pair,
        Err(e) => {
            return Err(e);
        },
    };
    proof {
        law_integer_len(block@, prefix_bits as nat);
    }
    if name_index != 0 {
        let is_path = name_index == PATH_INDEX || name_index == INDEX_HTML_PATH_INDEX;
        return Ok((is_path, consumed));
    }
    let rest = slice_subrange(block, consumed, block.len());
    assert(rest@ =~= block@.skip(consumed as int));
    match skip_string(rest) {
        Ok(n) => {
            proof {
                lemma_string_len(rest@);
            }
            Ok((reads_path_name(rest), consumed + n))
        },
        Err(e) => Err(e),
    }
}

/// Reads a field with a literal value.
fn read_literal(block: &[u8], prefix_bits: u8) -> (r: Result<FieldRead, &'static str>)
    requires
        prefix_bits < 16,
    ensures
        field_view(r) == literal_field(block@, prefix_bits as nat),
{
    let (is_path, at) = match read_literal_name(block, prefix_bits) {
        Ok(name) => name,
        Err(e) => {
            return Err(e);
        },
    };
    let rest = slice_subrange(block, at, block.len());
    assert(rest@ =~= block@.skip(at as int));
    if is_path {
        let value = match decode_string(rest) {
            Ok((value, _)) => value,
            Err(e) => {
                return Err(e);
            },
        };
        return match text::string_from_utf8(value) {
            Some(path) => Ok(FieldRead::Path(path)),
            None => Err("path is not valid utf-8"),
        };
    }
    match skip_string(rest) {
        Ok(n) => {
            proof {
                lemma_string_len(rest@);
            }
            Ok(FieldRead::Other(at + n))
        },
        Err(e) => Err(e),
    }
}

/// Reads a change of the size of the dynamic table.
fn read_size_update(block: &[u8]) -> (r: Result<FieldRead, &'static str>)
    ensures
        field_view(r) == size_update(block@),
{
    match decode_integer(block, 5) {
        Ok((_, consumed)) => Ok(FieldRead::Other(consumed)),
        Err(e) => Err(e),
    }
}

proof fn lemma_string_len(buf: Seq<u8>)
    ensures
        string_len(buf) matches Ok(n) ==> 1 <= n <= buf.len(),
{
    law_integer_len(buf, 7);
}

/// A field takes at least one byte and never more than there are.
pub proof fn law_field_len(block: Seq<u8>)
    requires
        block.len() > 0,
    ensures
        first_field(block) matches Field::Other(n) ==> 1 <= n <= block.len(),
{
    law_integer_len(block, 7);
    law_integer_len(block, 5);
    lemma_literal_len(block, 6);
    lemma_literal_len(block, 4);
}

proof fn lemma_literal_len(block: Seq<u8>, prefix_bits: nat)
    ensures
        literal_field(block, prefix_bits) matches Field::Other(n) ==> 1 <= n <= block.len(),
{
    law_integer_len(block, prefix_bits);
    match integer(block, prefix_bits) {
        Ok((name_index, n)) => {
            lemma_string_len(block.skip(n as int));
            match string_len(block.skip(n as int)) {
                Ok(name_len) => {
                    lemma_string_len(block.skip((n + name_len) as int));
                },
                Err(_) => {},
            }
        },
        Err(_) => {},
    }
}

/// Scans a header block and returns the value of the `:path` pseudo-header.
///
/// Only the static table is known: on the first HEADERS frame of a fresh
/// connection, the only one that is inspected, the dynamic table is empty.
pub fn find_path_header(header_block: &[u8]) -> (r: Result<String, &'static str>)
    ensures
        match r {
            Ok(path) => path_of(header_block@) == Ok::<Seq<char>, Seq<char>>(path@),
            Err(e) => path_of(header_block@) == Err::<Seq<char>, Seq<char>>(e@),
        },
{
    let mut pos: usize = 0;
    assert(header_block@.skip(0) =~= header_block@);
    while pos < header_block.len()
        invariant
            pos <= header_block@.len(),
            path_of(header_block@) == path_of(header_block@.skip(pos as int)),
        decreases header_block@.len() - pos,
    {
        let block = slice_subrange(header_block, pos, header_block.len());
        proof {
            assert(block@ =~= header_block@.skip(pos as int));
            law_field_len(block@);
        }
        let byte = block[0];
        let field = if byte >= 0x80 {
            read_indexed(block)
        } else if byte >= 0x40 {
            read_literal(block, 6)
        } else if byte >= 0x20 {
            read_size_update(block)
        } else {
            read_literal(block, 4)
        };
        match field {
            Ok(FieldRead::Path(path)) => {
                return Ok(path);
            },
            Ok(FieldRead::Other(n)) => {
                proof {
                    assert(block@.skip(n as int) =~= header_block@.skip(pos + n));
                }
                pos = pos + n;
            },
            Err(e) => {
                return Err(e);
            },
        }
    }
    Err(":path header not found in header block")
}

/// Skipping a string literal consumes what decoding it consumes; where decoding
/// fails and skipping does not, the fault is in the Huffman code.
pub proof fn law_skip_agrees_with_decode(buf: Seq<u8>)
    ensures
        string_literal(buf) matches Ok((_, n)) ==> string_len(buf) == Ok::<nat, Seq<char>>(n),
        string_literal(buf) is Err && string_len(buf) is Ok ==> buf[0] >= 0x80,
{
}

/// What follows an integer does not change it.
pub proof fn law_integer_prefix(buf: Seq<u8>, more: Seq<u8>, prefix_bits: nat)
    requires
        integer(buf, prefix_bits) is Ok,
    ensures
        integer(buf + more, prefix_bits) == integer(buf, prefix_bits),
{
    if buf.len() > 0 {
        if continuation(buf.drop_first(), 0) is Ok {
            lemma_continuation_prefix(buf.drop_first(), more, 0);
        }
        assert((buf + more).drop_first() =~= buf.drop_first() + more);
    }
}

proof fn lemma_continuation_prefix(buf: Seq<u8>, more: Seq<u8>, read: nat)
    requires
        continuation(buf, read) is Ok,
    ensures
        continuation(buf + more, read) == continuation(buf, read),
    decreases buf.len(),
{
    if buf.len() > 0 && buf[0] >= 0x80 && read < 4 {
        lemma_continuation_prefix(buf.drop_first(), more, read + 1);
        assert((buf + more).drop_first() =~= buf.drop_first() + more);
    }
}

/// Where addresses have 64 bits, an integer that is complete and takes at most
/// five continuation bytes is always accepted.
pub proof fn law_integer_fits(buf: Seq<u8>, prefix_bits: nat)
    requires
        usize::MAX >= 0xffff_ffff_ffff_ffff,
        prefix_bits < 16,
        buf.len() > 0,
        continuation(buf.drop_first(), 0) is Ok,
    ensures
        integer(buf, prefix_bits) is Ok,
{
    lemma_continuation(buf.drop_first(), 0);
    lemma_limit(prefix_bits as u8);
}

/// The continuation bytes of a number: seven bits each, least significant first,
/// the top bit set on all but the last.
pub open spec fn continuation_of(value: nat) -> Seq<u8>
    decreases value,
{
    if value < 0x80 {
        seq![value as u8]
    } else {
        seq![(value % 0x80 + 0x80) as u8] + continuation_of(value / 0x80)
    }
}

/// The encoding of a number whose prefix shares its byte with the bits `high`.
pub open spec fn integer_of(value: nat, prefix_bits: nat, high: nat) -> Seq<u8> {
    let limit = pow2(prefix_bits);
    if value < limit - 1 {
        seq![(high * limit + value) as u8]
    } else {
        seq![(high * limit + limit - 1) as u8] + continuation_of((value - (limit - 1)) as nat)
    }
}

proof fn lemma_continuation_of(value: nat, read: nat)
    requires
        read <= 4,
        read == 4 ==> value < 0x80,
        read == 3 ==> value < 0x4000,
        read == 2 ==> value < 0x20_0000,
        read == 1 ==> value < 0x1000_0000,
        read == 0 ==> value < 0x8_0000_0000,
    ensures
        continuation(continuation_of(value), read) == Ok::<(nat, nat), Seq<char>>(
            (value, continuation_of(value).len()),
        ),
    decreases value,
{
    if value >= 0x80 {
        lemma_continuation_of(value / 0x80, read + 1);
        assert(continuation_of(value).drop_first() =~= continuation_of(value / 0x80));
    }
}

/// Decoding undoes encoding: a number of at most 35 bits beyond its prefix comes
/// back, together with the length of its encoding, whatever bits share its first
/// byte.
pub proof fn law_integer_round_trip(value: nat, prefix_bits: nat, high: nat)
    requires
        1 <= prefix_bits <= 8,
        high * pow2(prefix_bits) + pow2(prefix_bits) <= 256,
        value - (pow2(prefix_bits) - 1) < 0x8_0000_0000,
        value <= usize::MAX,
    ensures
        integer(integer_of(value, prefix_bits, high), prefix_bits) == Ok::<(nat, nat), Seq<char>>(
            (value, integer_of(value, prefix_bits, high).len()),
        ),
{
    let limit = pow2(prefix_bits);
    lemma_pow2_pos(prefix_bits);
    let low: nat = if value < limit - 1 {
        value
    } else {
        (limit - 1) as nat
    };
    vstd::arithmetic::div_mod::lemma_fundamental_div_mod_converse(
        (high * limit + low) as int,
        limit as int,
        high as int,
        low as int,
    );
    if value >= limit - 1 {
        let rest = (value - (limit - 1)) as nat;
        lemma_continuation_of(rest, 0);
        assert(integer_of(value, prefix_bits, high).drop_first() =~= continuation_of(rest));
    }
}

/// What follows a string literal changes neither its length nor what it decodes
/// to.
proof fn lemma_string_prefix(buf: Seq<u8>, more: Seq<u8>)
    requires
        string_len(buf) is Ok,
    ensures
        string_len(buf + more) == string_len(buf),
        string_literal(buf + more) == string_literal(buf),
{
    law_integer_prefix(buf, more, 7);
    law_integer_len(buf, 7);
    let (start, end) = string_span(buf)->Ok_0;
    assert((buf + more).subrange(start as int, end as int) =~= buf.subrange(
        start as int,
        end as int,
    ));
}

/// The number of bytes that the field at the front of a block takes, whatever its
/// name.
pub open spec fn field_len(block: Seq<u8>) -> Result<nat, Seq<char>> {
    if block.len() == 0 {
        Err(":path header not found in header block"@)
    } else if block[0] >= 0x80 {
        integer_len(block, 7)
    } else if 0x20 <= block[0] < 0x40 {
        integer_len(block, 5)
    } else {
        let prefix_bits: nat = if block[0] >= 0x40 {
            6
        } else {
            4
        };
        match literal_name(block, prefix_bits) {
            Err(e) => Err(e),
            Ok((_, at)) => match string_len(block.skip(at as int)) {
                Err(e) => Err(e),
                Ok(n) => Ok(at + n),
            },
        }
    }
}

/// The number of bytes that the integer at the front of `buf` takes.
pub open spec fn integer_len(buf: Seq<u8>, prefix_bits: nat) -> Result<nat, Seq<char>> {
    match integer(buf, prefix_bits) {
        Err(e) => Err(e),
        Ok((_, n)) => Ok(n),
    }
}

/// The field at the front of a block is named `:path`.
pub open spec fn is_path_field(block: Seq<u8>) -> bool {
    if block[0] >= 0x80 {
        integer(block, 7) matches Ok((index, _)) && (index == PATH_INDEX || index
            == INDEX_HTML_PATH_INDEX)
    } else if 0x20 <= block[0] < 0x40 {
        false
    } else {
        let prefix_bits: nat = if block[0] >= 0x40 {
            6
        } else {
            4
        };
        literal_name(block, prefix_bits) matches Ok((is_path, _)) && is_path
    }
}

/// The fields of a header block, one after the other.
pub open spec fn block_of(fields: Seq<Seq<u8>>) -> Seq<u8>
    decreases fields.len(),
{
    if fields.len() == 0 {
        Seq::empty()
    } else {
        fields[0] + block_of(fields.drop_first())
    }
}

/// The value of the first field named `:path`, or why it has none.
pub open spec fn first_path(fields: Seq<Seq<u8>>) -> Result<Seq<char>, Seq<char>>
    decreases fields.len(),
{
    if fields.len() == 0 {
        Err(":path header not found in header block"@)
    } else if is_path_field(fields[0]) {
        path_of(fields[0])
    } else {
        first_path(fields.drop_first())
    }
}

proof fn lemma_literal_prefix(block: Seq<u8>, more: Seq<u8>, prefix_bits: nat)
    requires
        literal_name(block, prefix_bits) is Ok,
    ensures
        literal_name(block + more, prefix_bits) == literal_name(block, prefix_bits),
        literal_name(block, prefix_bits)->Ok_0.1 <= block.len(),
{
    law_integer_prefix(block, more, prefix_bits);
    law_integer_len(block, prefix_bits);
    let (name_index, n) = integer(block, prefix_bits)->Ok_0;
    if name_index == 0 {
        let rest = block.skip(n as int);
        assert((block + more).skip(n as int) =~= rest + more);
        lemma_string_prefix(rest, more);
        lemma_string_len(rest);
    }
}

/// A field that is complete is read alike whatever follows.
proof fn lemma_field_prefix(field: Seq<u8>, more: Seq<u8>)
    requires
        field.len() > 0,
        field_len(field) == Ok::<nat, Seq<char>>(field.len()),
    ensures
        first_field(field + more) == first_field(field),
        is_path_field(field) <==> !(first_field(field) is Other),
        !is_path_field(field) ==> first_field(field) == Field::Other(field.len()),
{
    assert((field + more)[0] == field[0]);
    if field[0] >= 0x80 {
        law_integer_prefix(field, more, 7);
    } else if 0x20 <= field[0] < 0x40 {
        law_integer_prefix(field, more, 5);
    } else {
        let prefix_bits: nat = if field[0] >= 0x40 {
            6
        } else {
            4
        };
        lemma_literal_prefix(field, more, prefix_bits);
        let (is_path, at) = literal_name(field, prefix_bits)->Ok_0;
        let value = field.skip(at as int);
        assert((field + more).skip(at as int) =~= value + more);
        lemma_string_prefix(value, more);
    }
}

/// In a block of complete fields the first one named `:path`, be it by an index
/// of the static table or spelled out, alone decides what is found; where there is
/// none, nothing is.
pub proof fn law_first_path_decides(fields: Seq<Seq<u8>>)
    requires
        forall|i: int|
            0 <= i < fields.len() ==> (#[trigger] fields[i]).len() > 0 && field_len(fields[i])
                == Ok::<nat, Seq<char>>(fields[i].len()),
    ensures
        path_of(block_of(fields)) == first_path(fields),
    decreases fields.len(),
{
    if fields.len() > 0 {
        let field = fields[0];
        let rest = block_of(fields.drop_first());
        lemma_field_prefix(field, rest);
        lemma_field_prefix(field, Seq::empty());
        if !is_path_field(field) {
            law_first_path_decides(fields.drop_first());
            assert(block_of(fields).skip(field.len() as int) =~= rest);
        }
    }
}

/// A continuation that is cut off is refused.
proof fn lemma_continuation_cut(value: nat, read: nat, len: int)
    requires
        0 <= len < continuation_of(value).len(),
    ensures
        continuation(continuation_of(value).take(len), read) is Err,
    decreases value,
{
    let all = continuation_of(value);
    if len > 0 && value >= 0x80 {
        let rest = continuation_of(value / 0x80);
        assert(all.drop_first() =~= rest);
        assert(all.take(len).drop_first() =~= rest.take(len - 1));
        lemma_continuation_cut(value / 0x80, read + 1, len - 1);
    }
}

/// An integer that is cut off is refused.
proof fn lemma_integer_cut(value: nat, high: nat, len: int)
    requires
        high <= 1,
        0 <= len < integer_of(value, 7, high).len(),
    ensures
        integer(integer_of(value, 7, high).take(len), 7) is Err,
{
    lemma2_to64();
    let all = integer_of(value, 7, high);
    if len > 0 {
        let rest = continuation_of((value - 127) as nat);
        assert(all.drop_first() =~= rest);
        assert(all.take(len).drop_first() =~= rest.take(len - 1));
        lemma_continuation_cut((value - 127) as nat, 0, len - 1);
        assert(all[0] as nat % 128 == 127);
    }
}

/// The string literal that holds `raw`, which is Huffman-coded or not.
pub open spec fn literal_of(raw: Seq<u8>, huffman: bool) -> Seq<u8> {
    integer_of(
        raw.len(),
        7,
        if huffman {
            1
        } else {
            0
        },
    ) + raw
}

/// A string literal decodes to the octets that it holds, or to what they are the
/// Huffman code of, whatever follows it.
pub proof fn law_string_literal_read_back(raw: Seq<u8>, huffman: bool, more: Seq<u8>)
    requires
        raw.len() < 0x8_0000_0000,
        raw.len() <= usize::MAX,
    ensures
        string_literal(literal_of(raw, huffman) + more) == if huffman {
            match huffman::decoded(bits::bits_of(raw)) {
                Ok(text) => Ok((text, literal_of(raw, huffman).len())),
                Err(e) => Err(e),
            }
        } else {
            Ok((raw, literal_of(raw, huffman).len()))
        },
{
    let high: nat = if huffman {
        1
    } else {
        0
    };
    let prefix = integer_of(raw.len(), 7, high);
    let all = literal_of(raw, huffman) + more;
    lemma2_to64();
    law_integer_round_trip(raw.len(), 7, high);
    law_integer_prefix(prefix, raw + more, 7);
    assert(all =~= prefix + (raw + more));
    assert(all[0] == prefix[0]);
    assert(prefix[0] >= 0x80 <==> huffman);
    let start = prefix.len() as int;
    assert(all.subrange(start, start + raw.len() as int) =~= raw);
}

/// A string literal that is cut off anywhere is refused.
pub proof fn law_string_literal_cut(raw: Seq<u8>, huffman: bool, len: int)
    requires
        raw.len() < 0x8_0000_0000,
        raw.len() <= usize::MAX,
        0 <= len < literal_of(raw, huffman).len(),
    ensures
        string_literal(literal_of(raw, huffman).take(len)) is Err,
{
    let high: nat = if huffman {
        1
    } else {
        0
    };
    let prefix = integer_of(raw.len(), 7, high);
    let cut = literal_of(raw, huffman).take(len);
    lemma2_to64();
    if len < prefix.len() {
        assert(cut =~= prefix.take(len));
        lemma_integer_cut(raw.len(), high, len);
    } else {
        assert(cut =~= prefix + raw.take(len - prefix.len()));
        law_integer_round_trip(raw.len(), 7, high);
        law_integer_prefix(prefix, raw.take(len - prefix.len()), 7);
    }
}

/// The length of a string literal, whatever follows it.
proof fn lemma_literal_skipped(raw: Seq<u8>, huffman: bool, more: Seq<u8>)
    requires
        raw.len() < 0x8_0000_0000,
        raw.len() <= usize::MAX,
    ensures
        string_len(literal_of(raw, huffman) + more) == Ok::<nat, Seq<char>>(
            literal_of(raw, huffman).len(),
        ),
        literal_of(raw, huffman).len() > 0,
{
    let high: nat = if huffman {
        1
    } else {
        0
    };
    let prefix = integer_of(raw.len(), 7, high);
    lemma2_to64();
    law_integer_round_trip(raw.len(), 7, high);
    law_integer_prefix(prefix, raw + more, 7);
    assert(literal_of(raw, huffman) + more =~= prefix + (raw + more));
}

/// The octets that a string literal stands for.
pub open spec fn octets_of(raw: Seq<u8>, huffman: bool) -> Result<Seq<u8>, Seq<char>> {
    if huffman {
        huffman::decoded(bits::bits_of(raw))
    } else {
        Ok(raw)
    }
}

/// Octets as the text that is given back for `:path`.
pub open spec fn text_of(octets: Result<Seq<u8>, Seq<char>>) -> Result<Seq<char>, Seq<char>> {
    match octets {
        Ok(text) => if valid_utf8(text) {
            Ok(decode_utf8(text))
        } else {
            Err("path is not valid utf-8"@)
        },
        Err(e) => Err(e),
    }
}

/// The three ways in which the index of a literal field shares its first byte:
/// with incremental indexing, without indexing, and never indexed.
pub open spec fn is_literal_form(prefix_bits: nat, high: nat) -> bool {
    ||| prefix_bits == 6 && high == 1
    ||| prefix_bits == 4 && high == 0
    ||| prefix_bits == 4 && high == 1
}

/// Nothing is found in an empty block.
pub proof fn law_empty_block()
    ensures
        path_of(Seq::empty()) == Err::<Seq<char>, Seq<char>>(
            ":path header not found in header block"@,
        ),
{
}

/// An indexed field is the path `/` for index 4, the path `/index.html` for index
/// 5, and for every other index no path: what follows it decides.
pub proof fn law_indexed_field(index: nat, rest: Seq<u8>)
    requires
        index < 0x8_0000_0000,
        index <= usize::MAX,
    ensures
        path_of(integer_of(index, 7, 1) + rest) == if index == 4 {
            Ok("/"@)
        } else if index == 5 {
            Ok("/index.html"@)
        } else {
            path_of(rest)
        },
{
    let field = integer_of(index, 7, 1);
    lemma2_to64();
    law_integer_round_trip(index, 7, 1);
    law_integer_prefix(field, rest, 7);
    assert((field + rest)[0] == field[0]);
    assert((field + rest).skip(field.len() as int) =~= rest);
}

/// A change of the size of the dynamic table is no path: what follows it decides.
pub proof fn law_size_update(size: nat, rest: Seq<u8>)
    requires
        size < 0x8_0000_0000,
        size <= usize::MAX,
    ensures
        path_of(integer_of(size, 5, 1) + rest) == path_of(rest),
{
    let field = integer_of(size, 5, 1);
    lemma2_to64();
    law_integer_round_trip(size, 5, 1);
    law_integer_prefix(field, rest, 5);
    assert((field + rest)[0] == field[0]);
    assert((field + rest).skip(field.len() as int) =~= rest);
}

proof fn lemma_literal_form(prefix_bits: nat, high: nat, index: nat, more: Seq<u8>)
    requires
        is_literal_form(prefix_bits, high),
        index < 0x8_0000_0000,
        index <= usize::MAX,
    ensures
        ({
            let front = integer_of(index, prefix_bits, high);
            &&& front.len() > 0
            &&& integer(front + more, prefix_bits) == Ok::<(nat, nat), Seq<char>>(
                (index, front.len()),
            )
            &&& first_field(front + more) == literal_field(front + more, prefix_bits)
        }),
{
    let front = integer_of(index, prefix_bits, high);
    lemma2_to64();
    law_integer_round_trip(index, prefix_bits, high);
    law_integer_prefix(front, more, prefix_bits);
    assert((front + more)[0] == front[0]);
}

/// A literal field whose name is index 4 or 5 of the static table is the path with
/// its value, and one whose name is any other index is no path: what follows it
/// decides.
#[verifier::spinoff_prover]
#[verifier::rlimit(60)]
pub proof fn law_literal_field_by_index(
    prefix_bits: nat,
    high: nat,
    index: nat,
    raw: Seq<u8>,
    huffman: bool,
    rest: Seq<u8>,
)
    requires
        is_literal_form(prefix_bits, high),
        0 < index < 0x8_0000_0000,
        index <= usize::MAX,
        raw.len() < 0x8_0000_0000,
        raw.len() <= usize::MAX,
    ensures
        path_of(integer_of(index, prefix_bits, high) + literal_of(raw, huffman) + rest) == if index
            == 4 || index == 5 {
            text_of(octets_of(raw, huffman))
        } else {
            path_of(rest)
        },
{
    let front = integer_of(index, prefix_bits, high);
    let value = literal_of(raw, huffman);
    let block = front + value + rest;
    lemma_literal_form(prefix_bits, high, index, value + rest);
    assert(block =~= front + (value + rest));
    assert(block.skip(front.len() as int) =~= value + rest);
    assert(literal_name(block, prefix_bits) == Ok::<(bool, nat), Seq<char>>(
        (index == 4 || index == 5, front.len()),
    ));
    lemma_field_value(block, prefix_bits, front.len(), raw, huffman, rest);
}

proof fn lemma_path_name()
    ensures
        encode_utf8(":path"@) == path_name(),
{
    reveal_strlit(":path");
    assert(is_ascii_chars(":path"@));
    is_ascii_chars_encode_utf8(":path"@);
    assert(encode_utf8(":path"@) =~= path_name());
}

proof fn lemma_field_value(
    block: Seq<u8>,
    prefix_bits: nat,
    at: nat,
    raw: Seq<u8>,
    huffman: bool,
    rest: Seq<u8>,
)
    requires
        0 < at <= block.len(),
        block.skip(at as int) == literal_of(raw, huffman) + rest,
        first_field(block) == literal_field(block, prefix_bits),
        literal_name(block, prefix_bits) matches Ok((_, value_at)) && value_at == at,
        raw.len() < 0x8_0000_0000,
        raw.len() <= usize::MAX,
    ensures
        path_of(block) == if literal_name(block, prefix_bits)->Ok_0.0 {
            text_of(octets_of(raw, huffman))
        } else {
            path_of(rest)
        },
{
    let value = literal_of(raw, huffman);
    lemma_literal_skipped(raw, huffman, rest);
    law_string_literal_read_back(raw, huffman, rest);
    assert(block.skip((at + value.len()) as int) =~= rest) by {
        assert(block.skip(at as int).skip(value.len() as int) =~= rest);
        assert(block.skip(at as int).skip(value.len() as int) =~= block.skip(
            (at + value.len()) as int,
        ));
    }
    assert(at + value.len() <= block.len()) by {
        assert(block.skip(at as int).len() == value.len() + rest.len());
    }
}

proof fn lemma_spelled_name(
    prefix_bits: nat,
    high: nat,
    name: Seq<u8>,
    huffman: bool,
    tail: Seq<u8>,
)
    requires
        is_literal_form(prefix_bits, high),
        name.len() < 0x8_0000_0000,
        name.len() <= usize::MAX,
    ensures
        ({
            let front = integer_of(0, prefix_bits, high);
            let spelled = literal_of(name, huffman);
            let block = front + (spelled + tail);
            &&& first_field(block) == literal_field(block, prefix_bits)
            &&& literal_name(block, prefix_bits) == Ok::<(bool, nat), Seq<char>>(
                (
                    octets_of(name, huffman) == Ok::<Seq<u8>, Seq<char>>(path_name()),
                    front.len() + spelled.len(),
                ),
            )
        }),
{
    let front = integer_of(0, prefix_bits, high);
    let spelled = literal_of(name, huffman);
    let block = front + (spelled + tail);
    lemma_literal_form(prefix_bits, high, 0, spelled + tail);
    assert(block.skip(front.len() as int) =~= spelled + tail);
    lemma_literal_skipped(name, huffman, tail);
    law_string_literal_read_back(name, huffman, tail);
}

/// A literal field whose name is spelled out is the path with its value where the
/// name is `:path`, and otherwise no path: what follows it decides.
#[verifier::spinoff_prover]
#[verifier::rlimit(60)]
pub proof fn law_literal_field_by_name(
    prefix_bits: nat,
    high: nat,
    name: Seq<u8>,
    name_huffman: bool,
    raw: Seq<u8>,
    huffman: bool,
    rest: Seq<u8>,
)
    requires
        is_literal_form(prefix_bits, high),
        name.len() < 0x8_0000_0000,
        name.len() <= usize::MAX,
        raw.len() < 0x8_0000_0000,
        raw.len() <= usize::MAX,
    ensures
        path_of(
            integer_of(0, prefix_bits, high) + literal_of(name, name_huffman) + literal_of(
                raw,
                huffman,
            ) + rest,
        ) == if octets_of(name, name_huffman) == Ok::<Seq<u8>, Seq<char>>(
            encode_utf8(":path"@),
        ) {
            text_of(octets_of(raw, huffman))
        } else {
            path_of(rest)
        },
{
    let front = integer_of(0, prefix_bits, high);
    let spelled = literal_of(name, name_huffman);
    let value = literal_of(raw, huffman);
    let block = front + spelled + value + rest;
    lemma_path_name();
    let whole = front + (spelled + (value + rest));
    let at = front.len() + spelled.len();
    assert(block =~= whole);
    assert(at > 0) by {
        lemma_literal_form(prefix_bits, high, 0, spelled + (value + rest));
    }
    assert(whole.skip(at as int) =~= value + rest);
    let is_path = octets_of(name, name_huffman) == Ok::<Seq<u8>, Seq<char>>(path_name());
    assert(path_of(whole) == if is_path {
        text_of(octets_of(raw, huffman))
    } else {
        path_of(rest)
    }) by {
        lemma_spelled_name(prefix_bits, high, name, name_huffman, value + rest);
        lemma_field_value(whole, prefix_bits, at, raw, huffman, rest);
    }
}

/// A block that breaks off within its last field holds no path there: where a
/// literal field is cut off in its value, the block is refused.
pub proof fn law_cut_value_is_refused(
    prefix_bits: nat,
    high: nat,
    index: nat,
    raw: Seq<u8>,
    huffman: bool,
    len: int,
)
    requires
        is_literal_form(prefix_bits, high),
        0 < index < 0x8_0000_0000,
        index <= usize::MAX,
        raw.len() < 0x8_0000_0000,
        raw.len() <= usize::MAX,
        0 <= len < literal_of(raw, huffman).len(),
    ensures
        path_of(integer_of(index, prefix_bits, high) + literal_of(raw, huffman).take(len)) is Err,
{
    let front = integer_of(index, prefix_bits, high);
    let cut = literal_of(raw, huffman).take(len);
    lemma_literal_form(prefix_bits, high, index, cut);
    assert((front + cut).skip(front.len() as int) =~= cut);
    law_string_literal_cut(raw, huffman, len);
    let high: nat = if huffman {
        1
    } else {
        0
    };
    let prefix = integer_of(raw.len(), 7, high);
    lemma2_to64();
    if len < prefix.len() {
        assert(cut =~= prefix.take(len));
        lemma_integer_cut(raw.len(), high, len);
    } else {
        assert(cut =~= prefix + raw.take(len - prefix.len()));
        law_integer_round_trip(raw.len(), 7, high);
        law_integer_prefix(prefix, raw.take(len - prefix.len()), 7);
    }
}

/// The number that continuation bytes hold: seven bits each, the lowest first.
pub open spec fn seven_bits_each(bytes: Seq<u8>) -> nat
    decreases bytes.len(),
{
    if bytes.len() == 0 {
        0
    } else {
        (bytes[0] as nat % 128) + 128 * seven_bits_each(bytes.drop_first())
    }
}

/// Bytes of which another is to follow.
pub open spec fn all_go_on(bytes: Seq<u8>) -> bool {
    forall|i: int| 0 <= i < bytes.len() ==> #[trigger] bytes[i] >= 0x80
}

/// How an integer is read from its bytes, in whatever way they hold it: where its
/// prefix is not all ones, it is the prefix; else what the bytes up to the first
/// below 0x80 hold is added to it, of which there are at most five. Where that byte
/// does not come in time, or at all, the integer is refused.
pub proof fn law_integer_of_bytes(
    first: u8,
    bytes: Seq<u8>,
    last: u8,
    rest: Seq<u8>,
    prefix_bits: nat,
)
    requires
        1 <= prefix_bits <= 8,
        all_go_on(bytes),
        last < 0x80,
    ensures
        ({
            let ones = (pow2(prefix_bits) - 1) as nat;
            let prefix = first as nat % pow2(prefix_bits);
            let value = ones + seven_bits_each(bytes.push(last));
            let whole = integer(seq![first] + (bytes + (seq![last] + rest)), prefix_bits);
            &&& integer(Seq::empty(), prefix_bits) == Err::<(nat, nat), Seq<char>>(
                "empty buffer for integer decode"@,
            )
            &&& prefix < ones ==> integer(seq![first] + rest, prefix_bits) == Ok::<
                (nat, nat),
                Seq<char>,
            >((prefix, 1))
            &&& prefix == ones && bytes.len() <= 4 ==> whole == if value <= usize::MAX {
                Ok::<(nat, nat), Seq<char>>((value, bytes.len() + 2))
            } else {
                Err::<(nat, nat), Seq<char>>("hpack integer overflow"@)
            }
            &&& prefix == ones && bytes.len() > 4 ==> whole == Err::<(nat, nat), Seq<char>>(
                "hpack integer overflow"@,
            )
            &&& prefix == ones && bytes.len() <= 4 ==> integer(seq![first] + bytes, prefix_bits)
                == Err::<(nat, nat), Seq<char>>("truncated hpack integer"@)
        }),
{
    lemma2_to64();
    let all = seq![first] + (bytes + (seq![last] + rest));
    assert(all.drop_first() =~= bytes + (seq![last] + rest));
    assert((seq![first] + bytes).drop_first() =~= bytes);
    lemma_continuation_bytes(bytes, last, rest, 0);
    assert(pow2(prefix_bits) > 0) by {
        lemma_pow2_pos(prefix_bits);
    }
    assert(first as nat % pow2(prefix_bits) < pow2(prefix_bits)) by {
        vstd::arithmetic::div_mod::lemma_mod_bound(first as int, pow2(prefix_bits) as int);
    }
}

proof fn lemma_continuation_bytes(bytes: Seq<u8>, last: u8, rest: Seq<u8>, read: nat)
    requires
        read <= 4,
        all_go_on(bytes),
        last < 0x80,
    ensures
        ({
            let whole = continuation(bytes + (seq![last] + rest), read);
            &&& bytes.len() + read <= 4 ==> whole == Ok::<(nat, nat), Seq<char>>(
                (seven_bits_each(bytes.push(last)), bytes.len() + 1),
            )
            &&& bytes.len() + read > 4 ==> whole == Err::<(nat, nat), Seq<char>>(
                "hpack integer overflow"@,
            )
            &&& bytes.len() + read <= 4 ==> continuation(bytes, read) == Err::<
                (nat, nat),
                Seq<char>,
            >("truncated hpack integer"@)
        }),
    decreases bytes.len(),
{
    let all = bytes + (seq![last] + rest);
    if bytes.len() == 0 {
        assert(all[0] == last);
        assert(bytes.push(last).drop_first() =~= Seq::<u8>::empty());
        assert(seven_bits_each(Seq::<u8>::empty()) == 0);
    } else {
        assert(bytes[0] >= 0x80);
        assert(all[0] == bytes[0]);
        let fewer = bytes.drop_first();
        assert forall|i: int| 0 <= i < fewer.len() implies #[trigger] fewer[i] >= 0x80 by {
            assert(fewer[i] == bytes[i + 1]);
        }
        assert(all.drop_first() =~= fewer + (seq![last] + rest));
        assert(bytes.push(last).drop_first() =~= fewer.push(last));
        if read < 4 {
            lemma_continuation_bytes(fewer, last, rest, read + 1);
        }
    }
}

/// Where nothing follows there is no string, to be read or to be passed over.
pub proof fn law_no_string_in_nothing()
    ensures
        string_literal(Seq::empty()) == Err::<(Seq<u8>, nat), Seq<char>>(
            "empty buffer for string decode"@,
        ),
        string_len(Seq::empty()) == Err::<nat, Seq<char>>("empty buffer for string skip"@),
{
}

} // verus!
