use vstd::prelude::*;

use crate::network::bits;

verus! {

/// The HPACK Huffman code: for each symbol its code, right-aligned, and the
/// length of the code in bits. Symbols 0 to 255 are the octets; the last one is
/// the end-of-string symbol.
pub const HUFFMAN_TABLE: [(u32, u8); 257] = [
    (0x1ff8, 13), (0x7fffd8, 23), (0xfffffe2, 28), (0xfffffe3, 28),
    (0xfffffe4, 28), (0xfffffe5, 28), (0xfffffe6, 28), (0xfffffe7, 28),
    (0xfffffe8, 28), (0xffffea, 24), (0x3ffffffc, 30), (0xfffffe9, 28),
    (0xfffffea, 28), (0x3ffffffd, 30), (0xfffffeb, 28), (0xfffffec, 28),
    (0xfffffed, 28), (0xfffffee, 28), (0xfffffef, 28), (0xffffff0, 28),
    (0xffffff1, 28), (0xffffff2, 28), (0x3ffffffe, 30), (0xffffff3, 28),
    (0xffffff4, 28), (0xffffff5, 28), (0xffffff6, 28), (0xffffff7, 28),
    (0xffffff8, 28), (0xffffff9, 28), (0xffffffa, 28), (0xffffffb, 28),
    // 32 ' ' .. 63 '?'
    (0x14, 6), (0x3f8, 10), (0x3f9, 10), (0xffa, 12),
    (0x1ff9, 13), (0x15, 6), (0xf8, 8), (0x7fa, 11),
    (0x3fa, 10), (0x3fb, 10), (0xf9, 8), (0x7fb, 11),
    (0xfa, 8), (0x16, 6), (0x17, 6), (0x18, 6),
    (0x0, 5), (0x1, 5), (0x2, 5), (0x19, 6),
    (0x1a, 6), (0x1b, 6), (0x1c, 6), (0x1d, 6),
    (0x1e, 6), (0x1f, 6), (0x5c, 7), (0xfb, 8),
    (0x7ffc, 15), (0x20, 6), (0xffb, 12), (0x3fc, 10),
    // 64 '@' .. 95 '_'
    (0x1ffa, 13), (0x21, 6), (0x5d, 7), (0x5e, 7),
    (0x5f, 7), (0x60, 7), (0x61, 7), (0x62, 7),
    (0x63, 7), (0x64, 7), (0x65, 7), (0x66, 7),
    (0x67, 7), (0x68, 7), (0x69, 7), (0x6a, 7),
    (0x6b, 7), (0x6c, 7), (0x6d, 7), (0x6e, 7),
    (0x6f, 7), (0x70, 7), (0x71, 7), (0x72, 7),
    (0xfc, 8), (0x73, 7), (0xfd, 8), (0x1ffb, 13),
    (0x7fff0, 19), (0x1ffc, 13), (0x3ffc, 14), (0x22, 6),
    // 96 '`' .. 127
    (0x7ffd, 15), (0x3, 5), (0x23, 6), (0x4, 5),
    (0x24, 6), (0x5, 5), (0x25, 6), (0x26, 6),
    (0x27, 6), (0x6, 5), (0x74, 7), (0x75, 7),
    (0x28, 6), (0x29, 6), (0x2a, 6), (0x7, 5),
    (0x2b, 6), (0x76, 7), (0x2c, 6), (0x8, 5),
    (0x9, 5), (0x2d, 6), (0x77, 7), (0x78, 7),
    (0x79, 7), (0x7a, 7), (0x7b, 7), (0x7ffe, 15),
    (0x7fc, 11), (0x3ffd, 14), (0x1ffd, 13), (0xffffffc, 28),
    // 128 .. 159
    (0xfffe6, 20), (0x3fffd2, 22), (0xfffe7, 20), (0xfffe8, 20),
    (0x3fffd3, 22), (0x3fffd4, 22), (0x3fffd5, 22), (0x7fffd9, 23),
    (0x3fffd6, 22), (0x7fffda, 23), (0x7fffdb, 23), (0x7fffdc, 23),
    (0x7fffdd, 23), (0x7fffde, 23), (0xffffeb, 24), (0x7fffdf, 23),
    (0xffffec, 24), (0xffffed, 24), (0x3fffd7, 22), (0x7fffe0, 23),
    (0xffffee, 24), (0x7fffe1, 23), (0x7fffe2, 23), (0x7fffe3, 23),
    (0x7fffe4, 23), (0x1fffdc, 21), (0x3fffd8, 22), (0x7fffe5, 23),
    (0x3fffd9, 22), (0x7fffe6, 23), (0x7fffe7, 23), (0xffffef, 24),
    // 160 .. 191
    (0x3fffda, 22), (0x1fffdd, 21), (0xfffe9, 20), (0x3fffdb, 22),
    (0x3fffdc, 22), (0x7fffe8, 23), (0x7fffe9, 23), (0x1fffde, 21),
    (0x7fffea, 23), (0x3fffdd, 22), (0x3fffde, 22), (0xfffff0, 24),
    (0x1fffdf, 21), (0x3fffdf, 22), (0x7fffeb, 23), (0x7fffec, 23),
    (0x1fffe0, 21), (0x1fffe1, 21), (0x3fffe0, 22), (0x1fffe2, 21),
    (0x7fffed, 23), (0x3fffe1, 22), (0x7fffee, 23), (0x7fffef, 23),
    (0xfffea, 20), (0x3fffe2, 22), (0x3fffe3, 22), (0x3fffe4, 22),
    (0x7ffff0, 23), (0x3fffe5, 22), (0x3fffe6, 22), (0x7ffff1, 23),
    // 192 .. 223
    (0x3ffffe0, 26), (0x3ffffe1, 26), (0xfffeb, 20), (0x7fff1, 19),
    (0x3fffe7, 22), (0x7ffff2, 23), (0x3fffe8, 22), (0x1ffffec, 25),
    (0x3ffffe2, 26), (0x3ffffe3, 26), (0x3ffffe4, 26), (0x7ffffde, 27),
    (0x7ffffdf, 27), (0x3ffffe5, 26), (0xfffff1, 24), (0x1ffffed, 25),
    (0x7fff2, 19), (0x1fffe3, 21), (0x3ffffe6, 26), (0x7ffffe0, 27),
    (0x7ffffe1, 27), (0x3ffffe7, 26), (0x7ffffe2, 27), (0xfffff2, 24),
    (0x1fffe4, 21), (0x1fffe5, 21), (0x3ffffe8, 26), (0x3ffffe9, 26),
    (0xffffffd, 28), (0x7ffffe3, 27), (0x7ffffe4, 27), (0x7ffffe5, 27),
    // 224 .. 255
    (0xfffec, 20), (0xfffff3, 24), (0xfffed, 20), (0x1fffe6, 21),
    (0x3fffe9, 22), (0x1fffe7, 21), (0x1fffe8, 21), (0x7ffff3, 23),
    (0x3fffea, 22), (0x3fffeb, 22), (0x1ffffee, 25), (0x1ffffef, 25),
    (0xfffff4, 24), (0xfffff5, 24), (0x3ffffea, 26), (0x7ffff4, 23),
    (0x3ffffeb, 26), (0x7ffffe6, 27), (0x3ffffec, 26), (0x3ffffed, 26),
    (0x7ffffe7, 27), (0x7ffffe8, 27), (0x7ffffe9, 27), (0x7ffffea, 27),
    (0x7ffffeb, 27), (0xffffffe, 28), (0x7ffffec, 27), (0x7ffffed, 27),
    (0x7ffffee, 27), (0x7ffffef, 27), (0x7fffff0, 27), (0x3ffffee, 26),
    // 256 end of string
    (0x3fffffff, 30),
];

/// The symbols in the order of their codes.
const CANONICAL_ORDER: [u16; 257] = [
    48, 49, 50, 97, 99, 101, 105, 111, 115, 116, 32, 37, 45, 46, 47, 51,
    52, 53, 54, 55, 56, 57, 61, 65, 95, 98, 100, 102, 103, 104, 108, 109,
    110, 112, 114, 117, 58, 66, 67, 68, 69, 70, 71, 72, 73, 74, 75, 76,
    77, 78, 79, 80, 81, 82, 83, 84, 85, 86, 87, 89, 106, 107, 113, 118,
    119, 120, 121, 122, 38, 42, 44, 59, 88, 90, 33, 34, 40, 41, 63, 39,
    43, 124, 35, 62, 0, 36, 64, 91, 93, 126, 94, 125, 60, 96, 123, 92,
    195, 208, 128, 130, 131, 162, 184, 194, 224, 226, 153, 161, 167, 172, 176, 177,
    179, 209, 216, 217, 227, 229, 230, 129, 132, 133, 134, 136, 146, 154, 156, 160,
    163, 164, 169, 170, 173, 178, 181, 185, 186, 187, 189, 190, 196, 198, 228, 232,
    233, 1, 135, 137, 138, 139, 140, 141, 143, 147, 149, 150, 151, 152, 155, 157,
    158, 165, 166, 168, 174, 175, 180, 182, 183, 188, 191, 197, 231, 239, 9, 142,
    144, 145, 148, 159, 171, 206, 215, 225, 236, 237, 199, 207, 234, 235, 192, 193,
    200, 201, 202, 205, 210, 213, 218, 219, 238, 240, 242, 243, 255, 203, 204, 211,
    212, 214, 221, 222, 223, 241, 244, 245, 246, 247, 248, 250, 251, 252, 253, 254,
    2, 3, 4, 5, 6, 7, 8, 11, 12, 14, 15, 16, 17, 18, 19, 20,
    21, 23, 24, 25, 26, 27, 28, 29, 30, 31, 127, 220, 249, 10, 13, 22,
    256,
];

/// The place of each symbol in `CANONICAL_ORDER`.
const CANONICAL_RANK: [u16; 257] = [
    84, 145, 224, 225, 226, 227, 228, 229, 230, 174, 253, 231, 232, 254, 233, 234,
    235, 236, 237, 238, 239, 240, 255, 241, 242, 243, 244, 245, 246, 247, 248, 249,
    10, 74, 75, 82, 85, 11, 68, 79, 76, 77, 69, 80, 70, 12, 13, 14,
    0, 1, 2, 15, 16, 17, 18, 19, 20, 21, 36, 71, 92, 22, 83, 78,
    86, 23, 37, 38, 39, 40, 41, 42, 43, 44, 45, 46, 47, 48, 49, 50,
    51, 52, 53, 54, 55, 56, 57, 58, 72, 59, 73, 87, 95, 88, 90, 24,
    93, 3, 25, 4, 26, 5, 27, 28, 29, 6, 60, 61, 30, 31, 32, 7,
    33, 62, 34, 8, 9, 35, 63, 64, 65, 66, 67, 94, 81, 91, 89, 250,
    98, 119, 99, 100, 120, 121, 122, 146, 123, 147, 148, 149, 150, 151, 175, 152,
    176, 177, 124, 153, 178, 154, 155, 156, 157, 106, 125, 158, 126, 159, 160, 179,
    127, 107, 101, 128, 129, 161, 162, 108, 163, 130, 131, 180, 109, 132, 164, 165,
    110, 111, 133, 112, 166, 134, 167, 168, 102, 135, 136, 137, 169, 138, 139, 170,
    190, 191, 103, 96, 140, 171, 141, 186, 192, 193, 194, 205, 206, 195, 181, 187,
    97, 113, 196, 207, 208, 197, 209, 182, 114, 115, 198, 199, 251, 210, 211, 212,
    104, 183, 105, 116, 142, 117, 118, 172, 143, 144, 188, 189, 184, 185, 200, 173,
    201, 213, 202, 203, 214, 215, 216, 217, 218, 252, 219, 220, 221, 222, 223, 204,
    256,
];

/// The end-of-string symbol.
pub const EOS: u16 = 256;

/// The code of a symbol, as a number.
#[verifier::opaque]
pub open spec fn code(sym: int) -> nat {
    HUFFMAN_TABLE@[sym].0 as nat
}

/// The length of the code of a symbol.
#[verifier::opaque]
pub open spec fn code_len(sym: int) -> nat {
    HUFFMAN_TABLE@[sym].1 as nat
}

pub open spec fn is_symbol(sym: int) -> bool {
    0 <= sym <= EOS
}

/// The code of a symbol, bit by bit.
pub open spec fn code_bits(sym: int) -> Seq<bool> {
    bits::binary(code(sym), code_len(sym))
}

/// The code of `sym` stands at the front of `bits`.
pub open spec fn reads(bits: Seq<bool>, sym: int) -> bool {
    &&& is_symbol(sym)
    &&& 0 < code_bits(sym).len()
    &&& code_bits(sym).is_prefix_of(bits)
}

/// Some code stands at the front of `bits`.
pub open spec fn reads_some(bits: Seq<bool>) -> bool {
    exists|sym: int| #[trigger] reads(bits, sym)
}

/// `bits` is the beginning of some code.
pub open spec fn begins_code(bits: Seq<bool>) -> bool {
    exists|sym: int| is_symbol(sym) && bits.is_prefix_of(#[trigger] code_bits(sym))
}

/// What a Huffman-coded bit string decodes to: symbol after symbol, until no
/// further code fits. The end-of-string symbol must not occur. The bits left
/// over are padding: at most seven, all of them ones.
#[verifier::opaque]
pub open spec fn decoded(bits: Seq<bool>) -> Result<Seq<u8>, Seq<char>>
    decreases bits.len(),
{
    if reads_some(bits) {
        let sym = choose|sym: int| #[trigger] reads(bits, sym);
        if sym == EOS {
            Err("unexpected EOS in huffman stream"@)
        } else {
            match decoded(bits.skip(code_bits(sym).len() as int)) {
                Ok(rest) => Ok(seq![sym as u8] + rest),
                Err(e) => Err(e),
            }
        }
    } else if bits.len() > 7 {
        Err("invalid huffman padding length"@)
    } else if bits != bits::ones(bits.len()) {
        Err("invalid huffman padding"@)
    } else {
        Ok(Seq::empty())
    }
}

/// The codes of the octets of `text`, one after the other.
pub open spec fn encoded(text: Seq<u8>) -> Seq<bool>
    decreases text.len(),
{
    if text.len() == 0 {
        Seq::empty()
    } else {
        encoded(text.drop_last()) + code_bits(text.last() as int)
    }
}

// The code is canonical: in the order of `CANONICAL_ORDER` each code is the
// next number after the one before it, widened to its own length.

#[verifier::opaque]
spec fn symbol_at(k: int) -> int {
    CANONICAL_ORDER@[k] as int
}

#[verifier::opaque]
spec fn rank_of(sym: int) -> int {
    CANONICAL_RANK@[sym] as int
}

spec fn successive(k: int) -> bool {
    let a = symbol_at(k);
    let b = symbol_at(k + 1);
    &&& code_len(a) <= code_len(b)
    &&& code(b) == bits::doubled(code(a) + 1, (code_len(b) - code_len(a)) as nat)
}

spec fn successive_up_to(n: int) -> bool
    decreases n,
{
    n <= 0 || (successive_up_to(n - 1) && successive(n - 1))
}

spec fn ranked(sym: int) -> bool {
    &&& 0 <= symbol_at(sym) <= 256
    &&& 0 <= rank_of(sym) <= 256
    &&& symbol_at(rank_of(sym)) == sym
    &&& 5 <= code_len(sym) <= 30
}

spec fn ranked_up_to(n: int) -> bool
    decreases n,
{
    n <= 0 || (ranked_up_to(n - 1) && ranked(n - 1))
}

#[verifier::spinoff_prover]
#[verifier::rlimit(60)]
proof fn lemma_table_successive()
    ensures
        successive_up_to(256),
{
    reveal(code);
    reveal(code_len);
    reveal(symbol_at);
    reveal_with_fuel(successive_up_to, 66);
    reveal_with_fuel(bits::doubled, 10);
    assert(successive_up_to(64));
    assert(successive_up_to(128));
    assert(successive_up_to(192));
}

#[verifier::spinoff_prover]
#[verifier::rlimit(60)]
proof fn lemma_table_ranked()
    ensures
        ranked_up_to(257),
{
    reveal(code_len);
    reveal(symbol_at);
    reveal(rank_of);
    reveal_with_fuel(ranked_up_to, 67);
    assert(ranked_up_to(64));
    assert(ranked_up_to(128));
    assert(ranked_up_to(192));
}

proof fn lemma_successive(n: int, k: int)
    requires
        successive_up_to(n),
        0 <= k < n,
    ensures
        successive(k),
    decreases n,
{
    if k < n - 1 {
        lemma_successive(n - 1, k);
    }
}

proof fn lemma_ranked(n: int, sym: int)
    requires
        ranked_up_to(n),
        0 <= sym < n,
    ensures
        ranked(sym),
    decreases n,
{
    if sym < n - 1 {
        lemma_ranked(n - 1, sym);
    }
}

proof fn lemma_table_ends()
    ensures
        code(symbol_at(0)) == 0,
        code_len(symbol_at(0)) == 5,
        symbol_at(256) == EOS,
        code(EOS as int) == 0x3fffffff,
        code_len(EOS as int) == 30,
{
    reveal(code);
    reveal(code_len);
    reveal(symbol_at);
}

/// Code lengths lie between 5 and 30 bits.
pub proof fn lemma_code_len(sym: int)
    requires
        is_symbol(sym),
    ensures
        5 <= code_len(sym) <= 30,
        code_bits(sym).len() == code_len(sym),
{
    lemma_table_ranked();
    lemma_ranked(257, sym);
    bits::lemma_binary_len(code(sym), code_len(sym));
}

/// Along the canonical order lengths do not fall, and a later code lies beyond
/// every string that an earlier one begins.
proof fn lemma_order(j: int, k: int)
    requires
        0 <= j < k <= 256,
    ensures
        code_len(symbol_at(j)) <= code_len(symbol_at(k)),
        code(symbol_at(k)) >= bits::doubled(
            code(symbol_at(j)) + 1,
            (code_len(symbol_at(k)) - code_len(symbol_at(j))) as nat,
        ),
    decreases k - j,
{
    lemma_table_successive();
    lemma_successive(256, k - 1);
    if j < k - 1 {
        lemma_order(j, k - 1);
        let a = symbol_at(j);
        let b = symbol_at(k - 1);
        let c = symbol_at(k);
        let d = (code_len(b) - code_len(a)) as nat;
        let e = (code_len(c) - code_len(b)) as nat;
        bits::lemma_doubled_add(code(a) + 1, d, e);
        bits::lemma_doubled_less(code(b) + 1, bits::doubled(code(a) + 1, d), e);
    }
}

/// A code of `n` bits is a number below `2^n`.
proof fn lemma_code_fits_at(k: int)
    requires
        0 <= k <= 256,
    ensures
        code(symbol_at(k)) < bits::doubled(1, code_len(symbol_at(k))),
    decreases 256 - k,
{
    if k == 256 {
        lemma_table_ends();
        assert(bits::doubled(1, 30) == 0x40000000) by {
            reveal_with_fuel(bits::doubled, 31);
        }
    } else {
        lemma_code_fits_at(k + 1);
        lemma_table_successive();
        lemma_successive(256, k);
        let a = symbol_at(k);
        let b = symbol_at(k + 1);
        let d = (code_len(b) - code_len(a)) as nat;
        bits::lemma_doubled_add(1, code_len(a), d);
        bits::lemma_doubled_less(code(a) + 1, bits::doubled(1, code_len(a)), d);
    }
}

proof fn lemma_code_fits(sym: int)
    requires
        is_symbol(sym),
    ensures
        code(sym) < bits::doubled(1, code_len(sym)),
{
    lemma_table_ranked();
    lemma_ranked(257, sym);
    lemma_code_fits_at(rank_of(sym));
}

/// The code is prefix-free: no code begins with the code of another symbol.
pub proof fn law_code_is_prefix_free(a: int, b: int)
    requires
        is_symbol(a),
        is_symbol(b),
        code_bits(a).is_prefix_of(code_bits(b)),
    ensures
        a == b,
{
    lemma_table_ranked();
    lemma_ranked(257, a);
    lemma_ranked(257, b);
    lemma_code_len(a);
    lemma_code_len(b);
    lemma_code_fits(a);
    lemma_code_fits(b);
    let j = rank_of(a);
    let k = rank_of(b);
    let d = (code_len(b) - code_len(a)) as nat;
    bits::lemma_binary_take(code(b), code_len(b), code_len(a));
    assert(code_bits(b).take(code_len(a) as int) =~= code_bits(a));
    let top = bits::halved(code(b), d);
    bits::lemma_doubled_add(1, code_len(a), d);
    bits::lemma_halved_less(code(b), bits::doubled(1, code_len(a)), d);
    bits::lemma_value_binary(top, code_len(a));
    bits::lemma_value_binary(code(a), code_len(a));
    assert(top == code(a));
    if j < k {
        lemma_order(j, k);
        bits::lemma_halved_less(code(b), code(a) + 1, d);
    } else if k < j {
        lemma_order(k, j);
        assert(d == 0);
    }
}

/// Every thirty-bit number begins with the code of some symbol.
proof fn lemma_leading_code(wide: nat) -> (sym: int)
    requires
        wide < bits::doubled(1, 30),
    ensures
        is_symbol(sym),
        5 <= code_len(sym) <= 30,
        bits::halved(wide, (30 - code_len(sym)) as nat) == code(sym),
{
    lemma_table_ends();
    assert(bits::doubled(1, 30) == 0x40000000) by {
        reveal_with_fuel(bits::doubled, 31);
    }
    lemma_bracket(wide, 256);
    let k = choose|k: int| 0 <= k <= 256 && #[trigger] bracketed(wide, k);
    let sym = symbol_at(k);
    lemma_symbol_at(k);
    lemma_code_len(sym);
    let rest = (30 - code_len(sym)) as nat;
    bits::lemma_halved_less(wide, code(sym), rest);
    bits::lemma_halved_less(wide, code(sym) + 1, rest);
    sym
}

proof fn lemma_halved_doubled(v: nat, n: nat)
    ensures
        bits::halved(bits::doubled(v, n), n) == v,
{
    let wide = bits::doubled(v, n);
    bits::lemma_halved_less(wide, v, n);
    bits::lemma_halved_less(wide, v + 1, n);
    bits::lemma_doubled_less(v, v + 1, n);
}

/// The code is complete: a bit string begins with some code, or is itself the
/// beginning of one.
pub proof fn law_code_is_complete(bits: Seq<bool>)
    ensures
        reads_some(bits) || begins_code(bits),
{
    // The first thirty bits decide, with zeros for those that are missing.
    let n: nat = if bits.len() < 30 {
        bits.len()
    } else {
        30
    };
    let front = bits.take(n as int);
    let v = bits::value(front);
    bits::lemma_binary_value(front);
    let gap = (30 - n) as nat;
    let wide = bits::doubled(v, gap);
    bits::lemma_doubled_add(1, n, gap);
    bits::lemma_doubled_less(v, bits::doubled(1, n), gap);
    let sym = lemma_leading_code(wide);
    let len = code_len(sym);
    let rest = (30 - len) as nat;
    lemma_halved_doubled(v, gap);
    lemma_code_len(sym);
    if len <= n {
        bits::lemma_halved_add(wide, gap, (n - len) as nat);
        bits::lemma_binary_take(v, n, len);
        assert(bits.take(len as int) =~= front.take(len as int));
        assert(reads(bits, sym));
    } else {
        bits::lemma_halved_add(wide, rest, (len - n) as nat);
        bits::lemma_binary_take(code(sym), len, n);
        assert(bits =~= front);
        assert(bits.is_prefix_of(code_bits(sym)));
    }
}

proof fn lemma_symbol_at(k: int)
    requires
        0 <= k <= 256,
    ensures
        is_symbol(symbol_at(k)),
{
    lemma_table_ranked();
    lemma_ranked(257, k);
}

/// A thirty-bit number whose leading bits are the code at place `k`.
spec fn bracketed(v: nat, k: int) -> bool {
    let sym = symbol_at(k);
    let rest = (30 - code_len(sym)) as nat;
    bits::doubled(code(sym), rest) <= v < bits::doubled(code(sym) + 1, rest)
}

proof fn lemma_bracket(v: nat, top: int)
    requires
        0 <= top <= 256,
        v < bits::doubled(code(symbol_at(top)) + 1, (30 - code_len(symbol_at(top))) as nat),
    ensures
        exists|k: int| 0 <= k <= 256 && #[trigger] bracketed(v, k),
    decreases top,
{
    lemma_symbol_at(top);
    let sym = symbol_at(top);
    lemma_code_len(sym);
    let rest = (30 - code_len(sym)) as nat;
    if bits::doubled(code(sym), rest) <= v {
        assert(bracketed(v, top));
    } else if top == 0 {
        lemma_table_ends();
        bits::lemma_doubled_less(0, 1, rest);
        lemma_doubled_zero(rest);
    } else {
        lemma_table_successive();
        lemma_successive(256, top - 1);
        let before = symbol_at(top - 1);
        lemma_symbol_at(top - 1);
        lemma_code_len(before);
        bits::lemma_doubled_add(
            code(before) + 1,
            (code_len(sym) - code_len(before)) as nat,
            rest,
        );
        lemma_bracket(v, top - 1);
    }
}

proof fn lemma_doubled_zero(n: nat)
    ensures
        bits::doubled(0, n) == 0,
    decreases n,
{
    if n > 0 {
        lemma_doubled_zero((n - 1) as nat);
    }
}

/// At most one code stands at the front of a bit string.
pub proof fn lemma_reads_unique(bits: Seq<bool>, a: int, b: int)
    requires
        reads(bits, a),
        reads(bits, b),
    ensures
        a == b,
{
    if code_bits(a).len() <= code_bits(b).len() {
        assert(code_bits(a).is_prefix_of(code_bits(b)));
        law_code_is_prefix_free(a, b);
    } else {
        assert(code_bits(b).is_prefix_of(code_bits(a)));
        law_code_is_prefix_free(b, a);
    }
}

/// What follows a decoded text does not depend on the text.
spec fn after(text: Seq<u8>, rest: Result<Seq<u8>, Seq<char>>) -> Result<Seq<u8>, Seq<char>> {
    match rest {
        Ok(r) => Ok(text + r),
        Err(e) => Err(e),
    }
}

proof fn lemma_decoded_code(sym: int, tail: Seq<bool>)
    requires
        is_symbol(sym),
    ensures
        sym == EOS ==> decoded(code_bits(sym) + tail) == Err::<Seq<u8>, Seq<char>>(
            "unexpected EOS in huffman stream"@,
        ),
        sym != EOS ==> decoded(code_bits(sym) + tail) == after(seq![sym as u8], decoded(tail)),
{
    reveal(decoded);
    let bits = code_bits(sym) + tail;
    lemma_code_len(sym);
    assert(bits.take(code_bits(sym).len() as int) =~= code_bits(sym));
    assert(reads(bits, sym));
    let found = choose|s: int| #[trigger] reads(bits, s);
    lemma_reads_unique(bits, sym, found);
    assert(bits.skip(code_bits(sym).len() as int) =~= tail);
}

/// Decoding takes the codes of a text off the front and goes on with the rest.
proof fn lemma_decoded_encoded(text: Seq<u8>, tail: Seq<bool>)
    ensures
        decoded(encoded(text) + tail) == after(text, decoded(tail)),
    decreases text.len(),
{
    if text.len() == 0 {
        assert(encoded(text) + tail =~= tail);
        match decoded(tail) {
            Ok(r) => {
                assert(text + r =~= r);
            },
            Err(_) => {},
        }
    } else {
        let last = text.last();
        let front = text.drop_last();
        lemma_decoded_encoded(front, code_bits(last as int) + tail);
        lemma_decoded_code(last as int, tail);
        assert(encoded(text) + tail =~= encoded(front) + (code_bits(last as int) + tail));
        match decoded(tail) {
            Ok(r) => {
                assert(front + (seq![last] + r) =~= text + r);
            },
            Err(_) => {},
        }
    }
}

proof fn lemma_encoded_concat(a: Seq<u8>, b: Seq<u8>)
    ensures
        encoded(a + b) == encoded(a) + encoded(b),
    decreases b.len(),
{
    if b.len() == 0 {
        assert(a + b =~= a);
        assert(encoded(a) + encoded(b) =~= encoded(a));
    } else {
        lemma_encoded_concat(a, b.drop_last());
        assert((a + b).drop_last() =~= a + b.drop_last());
        assert((a + b).last() == b.last());
        assert(encoded(a) + encoded(b) =~= (encoded(a) + encoded(b.drop_last())) + code_bits(
            b.last() as int,
        ));
    }
}

/// No code fits into seven one-bits.
proof fn lemma_ones_read_nothing(n: nat)
    requires
        n <= 7,
    ensures
        !reads_some(bits::ones(n)),
{
    if reads_some(bits::ones(n)) {
        let sym = choose|s: int| #[trigger] reads(bits::ones(n), s);
        lemma_code_len(sym);
        lemma_code_len(EOS as int);
        lemma_table_ends();
        lemma_eos_ones();
        assert(code_bits(sym).is_prefix_of(code_bits(EOS as int))) by {
            assert(code_bits(sym) =~= bits::ones(30).take(code_bits(sym).len() as int));
        }
        law_code_is_prefix_free(sym, EOS as int);
    }
}

proof fn lemma_eos_ones()
    ensures
        code_bits(EOS as int) == bits::ones(30),
{
    lemma_table_ends();
    assert(bits::doubled(1, 30) == 0x40000000) by {
        reveal_with_fuel(bits::doubled, 31);
    }
    bits::lemma_binary_ones(30);
}

/// Decoding undoes encoding: a text whose codes are followed by at most seven
/// one-bits of padding decodes to that text.
pub proof fn law_decode_encode(text: Seq<u8>, padding: nat)
    requires
        padding <= 7,
    ensures
        decoded(encoded(text) + bits::ones(padding)) == Ok::<Seq<u8>, Seq<char>>(text),
{
    reveal(decoded);
    lemma_decoded_encoded(text, bits::ones(padding));
    lemma_ones_read_nothing(padding);
    assert(text + Seq::<u8>::empty() =~= text);
}

/// Encoding undoes decoding: a bit string that decodes to a text is the codes of
/// that text, followed by at most seven one-bits of padding.
pub proof fn law_encode_decode(bits: Seq<bool>, text: Seq<u8>)
    requires
        decoded(bits) == Ok::<Seq<u8>, Seq<char>>(text),
    ensures
        encoded(text).len() <= bits.len() <= encoded(text).len() + 7,
        bits == encoded(text) + bits::ones((bits.len() - encoded(text).len()) as nat),
    decreases bits.len(),
{
    reveal(decoded);
    if reads_some(bits) {
        let sym = choose|s: int| #[trigger] reads(bits, s);
        lemma_code_len(sym);
        let n = code_bits(sym).len() as int;
        let rest = bits.skip(n);
        let more = decoded(rest)->Ok_0;
        law_encode_decode(rest, more);
        let first = seq![sym as u8];
        assert(text == first + more);
        lemma_encoded_concat(first, more);
        assert(first.drop_last() =~= Seq::<u8>::empty());
        assert(encoded(first.drop_last()) =~= Seq::<bool>::empty());
        assert(encoded(first) =~= code_bits(sym));
        assert(bits =~= code_bits(sym) + rest);
        assert(bits =~= encoded(text) + bits::ones((bits.len() - encoded(text).len()) as nat));
    } else {
        assert(text =~= Seq::<u8>::empty());
        assert(bits =~= encoded(text) + bits::ones(bits.len()));
    }
}

/// A node of the decoding tree.
#[derive(Clone, Copy)]
pub struct HuffmanNode {
    /// `None` for an inner node, `Some(sym)` for a leaf.
    symbol: Option<u16>,
    /// The nodes that a 0-bit and a 1-bit lead to; 0 means "no child".
    children: [u32; 2],
}

impl HuffmanNode {
    pub closed spec fn label(self) -> Option<u16> {
        self.symbol
    }

    pub closed spec fn child(self, bit: bool) -> int {
        self.children@[if bit {
            1int
        } else {
            0int
        }] as int
    }
}

/// A binary tree over the code: the bits of a code lead from the root to the
/// leaf that holds its symbol.
pub struct HuffmanTree {
    nodes: Vec<HuffmanNode>,
    /// For each node the bits that lead to it.
    paths: Ghost<Seq<Seq<bool>>>,
}

/// Children are reached by one more bit, and every such bit is a child.
#[verifier::opaque]
spec fn linked(nodes: Seq<HuffmanNode>, paths: Seq<Seq<bool>>) -> bool {
    &&& nodes.len() == paths.len()
    &&& 0 < paths.len()
    &&& paths[0] == Seq::<bool>::empty()
    &&& forall|i: int, j: int|
        0 <= i < paths.len() && 0 <= j < paths.len() && #[trigger] paths[i] == #[trigger] paths[j]
            ==> i == j
    &&& forall|i: int, b: bool|
        0 <= i < paths.len() && #[trigger] nodes[i].child(b) != 0 ==> {
            &&& nodes[i].child(b) < paths.len()
            &&& paths[nodes[i].child(b)] == paths[i].push(b)
        }
    &&& forall|i: int, j: int, b: bool|
        0 <= i < paths.len() && 0 <= j < paths.len() && #[trigger] paths[j]
            == #[trigger] paths[i].push(b) ==> nodes[i].child(b) == j
    &&& forall|j: int|
        0 <= j < paths.len() && #[trigger] paths[j].len() > 0 ==> paths.contains(
            paths[j].drop_last(),
        )
}

/// The nodes at the ends of the first `n` codes hold their symbols, and no
/// other node holds one.
#[verifier::opaque]
spec fn labelled(nodes: Seq<HuffmanNode>, paths: Seq<Seq<bool>>, n: int) -> bool {
    &&& forall|i: int|
        0 <= i < paths.len() ==> match #[trigger] nodes[i].label() {
            Some(sym) => sym < n && paths[i] == code_bits(sym as int),
            None => true,
        }
    &&& forall|i: int, sym: int|
        0 <= i < paths.len() && 0 <= sym < n && #[trigger] paths[i] == #[trigger] code_bits(sym)
            ==> nodes[i].label() == Some(sym as u16)
}

/// Every beginning of the first `n` codes leads to a node.
#[verifier::opaque]
spec fn covers(paths: Seq<Seq<bool>>, n: int) -> bool {
    forall|sym: int, k: int|
        0 <= sym < n && 0 <= k <= code_len(sym) ==> paths.contains(
            #[trigger] code_bits(sym).take(k),
        )
}

/// Every node lies on the way to some code.
#[verifier::opaque]
spec fn on_the_way(paths: Seq<Seq<bool>>) -> bool {
    forall|i: int| 0 <= i < paths.len() ==> begins_code(#[trigger] paths[i])
}

proof fn lemma_child(nodes: Seq<HuffmanNode>, paths: Seq<Seq<bool>>, i: int, b: bool)
    requires
        linked(nodes, paths),
        0 <= i < paths.len(),
        nodes[i].child(b) != 0,
    ensures
        nodes.len() == paths.len(),
        0 < nodes[i].child(b) < paths.len(),
        paths[nodes[i].child(b)] == paths[i].push(b),
{
    reveal(linked);
}

proof fn lemma_covers_push(paths: Seq<Seq<bool>>, n: int, path: Seq<bool>)
    requires
        covers(paths, n),
    ensures
        covers(paths.push(path), n),
{
    reveal(covers);
    let more = paths.push(path);
    assert forall|sym: int, k: int| 0 <= sym < n && 0 <= k <= code_len(sym) implies more.contains(
        #[trigger] code_bits(sym).take(k),
    ) by {
        let p = code_bits(sym).take(k);
        assert(paths.contains(p));
        let i = paths.index_of(p);
        assert(more[i] == p);
    }
}

/// Looks up the code of a symbol and its length.
fn table_entry(sym: usize) -> (entry: (u32, u8))
    requires
        sym <= EOS,
    ensures
        entry.0 == code(sym as int),
        entry.1 == code_len(sym as int),
        5 <= entry.1 <= 30,
        code_bits(sym as int).len() == entry.1,
{
    proof {
        reveal(code);
        reveal(code_len);
        lemma_code_len(sym as int);
    }
    HUFFMAN_TABLE[sym]
}

impl HuffmanTree {
    /// The tree holds the whole code.
    pub closed spec fn well_formed(self) -> bool {
        &&& linked(self.nodes@, self.paths@)
        &&& labelled(self.nodes@, self.paths@, 257)
        &&& covers(self.paths@, 257)
        &&& on_the_way(self.paths@)
    }

    /// Builds the tree from the table of codes.
    pub fn build() -> (tree: Self)
        ensures
            tree.well_formed(),
    {
        let mut nodes: Vec<HuffmanNode> = Vec::with_capacity(1024);
        let ghost mut paths: Seq<Seq<bool>> = seq![Seq::<bool>::empty()];
        nodes.push(HuffmanNode { symbol: None, children: [0, 0] });
        proof {
            reveal(linked);
            reveal(labelled);
            reveal(covers);
            reveal(on_the_way);
            assert(Seq::<bool>::empty().is_prefix_of(code_bits(0)));
            assert forall|i: int, sym: int|
                0 <= i < paths.len() && 0 <= sym < 0 && #[trigger] paths[i] == #[trigger] code_bits(
                    sym,
                ) implies nodes@[i].label() == Some(sym as u16) by {}
            assert(nodes@[0].child(false) == 0);
            assert(nodes@[0].child(true) == 0);
            assert forall|i: int, j: int, b: bool|
                0 <= i < paths.len() && 0 <= j < paths.len() && #[trigger] paths[j]
                    == #[trigger] paths[i].push(b) implies nodes@[i].child(b) == j by {
                assert(paths[i].push(b).len() == 1);
            }
        }
        let mut sym: usize = 0;
        while sym < 257
            invariant
                sym <= 257,
                nodes@.len() <= 1 + 30 * sym,
                nodes@.len() == paths.len(),
                0 < paths.len(),
                paths[0] == Seq::<bool>::empty(),
                linked(nodes@, paths),
                labelled(nodes@, paths, sym as int),
                covers(paths, sym as int),
                on_the_way(paths),
            decreases 257 - sym,
        {
            let (word, len) = table_entry(sym);
            let ghost bits = code_bits(sym as int);
            proof {
                assert(bits.take(0) =~= Seq::<bool>::empty());
            }
            let mut idx: usize = 0;
            let mut depth: u8 = 0;
            while depth < len
                invariant
                    sym < 257,
                    5 <= len <= 30,
                    len == code_len(sym as int),
                    word == code(sym as int),
                    bits == code_bits(sym as int),
                    bits.len() == len,
                    depth <= len,
                    nodes@.len() <= 1 + 30 * sym + depth,
                    nodes@.len() == paths.len(),
                    idx < nodes@.len(),
                    linked(nodes@, paths),
                    labelled(nodes@, paths, sym as int),
                    covers(paths, sym as int),
                    on_the_way(paths),
                    paths[0] == Seq::<bool>::empty(),
                    paths[idx as int] == bits.take(depth as int),
                    forall|k: int| 0 <= k <= depth ==> paths.contains(#[trigger] bits.take(k)),
                decreases len - depth,
            {
                let bit_pos: u32 = (len - 1 - depth) as u32;
                let bit: usize = ((word >> bit_pos) & 1) as usize;
                let ghost b = bit == 1;
                proof {
                    bits::lemma_shift_mask_bit(word, bit_pos);
                    bits::lemma_binary_index(word as nat, len as nat, bit_pos as nat);
                    assert(bits[depth as int] == b);
                    assert(bits.take(depth as int + 1) =~= bits.take(depth as int).push(b));
                }
                if nodes[idx].children[bit] == 0 {
                    let new_idx: u32 = nodes.len() as u32;
                    let ghost before = nodes@;
                    let ghost path = bits.take(depth as int + 1);
                    nodes.push(HuffmanNode { symbol: None, children: [0, 0] });
                    let mut parent = nodes[idx];
                    parent.children[bit] = new_idx;
                    nodes.set(idx, parent);
                    proof {
                        let older = paths;
                        lemma_grown(before, paths, sym as int, idx as int, b, nodes@);
                        paths = paths.push(path);
                        assert(paths[new_idx as int] == path);
                        assert forall|k: int| 0 <= k <= depth + 1 implies paths.contains(
                            #[trigger] bits.take(k),
                        ) by {
                            if k <= depth {
                                assert(older.contains(bits.take(k)));
                                let i = older.index_of(bits.take(k));
                                assert(paths[i] == bits.take(k));
                            }
                        }
                    }
                }
                proof {
                    lemma_child(nodes@, paths, idx as int, b);
                }
                idx = nodes[idx].children[bit] as usize;
                depth = depth + 1;
                assert forall|k: int| 0 <= k <= depth implies paths.contains(
                    #[trigger] bits.take(k),
                ) by {
                    if k == depth {
                        assert(paths[idx as int] == bits.take(k));
                    }
                }
            }
            assert(bits.take(len as int) =~= bits);
            let ghost before = nodes@;
            let mut leaf = nodes[idx];
            leaf.symbol = Some(sym as u16);
            nodes.set(idx, leaf);
            proof {
                lemma_leaf_set(before, paths, sym as int, idx as int, nodes@);
                reveal(covers);
                assert forall|s: int, k: int|
                    0 <= s < sym + 1 && 0 <= k <= code_len(s) implies paths.contains(
                    #[trigger] code_bits(s).take(k),
                ) by {
                    if s == sym {
                        assert(paths.contains(bits.take(k)));
                    }
                }
            }
            sym = sym + 1;
        }
        HuffmanTree { nodes, paths: Ghost(paths) }
    }
}

/// A fresh node under node `idx`, reached by bit `b`, keeps the tree in order.
proof fn lemma_grown(
    before: Seq<HuffmanNode>,
    paths: Seq<Seq<bool>>,
    n: int,
    idx: int,
    b: bool,
    after: Seq<HuffmanNode>,
)
    requires
        linked(before, paths),
        labelled(before, paths, n),
        covers(paths, n),
        on_the_way(paths),
        0 <= n < 257,
        0 <= idx < before.len(),
        before[idx].child(b) == 0,
        begins_code(paths[idx].push(b)),
        after.len() == before.len() + 1,
        forall|i: int| 0 <= i < before.len() && i != idx ==> after[i] == before[i],
        after[idx].label() == before[idx].label(),
        after[idx].child(b) == before.len(),
        after[idx].child(!b) == before[idx].child(!b),
        after.last().label() is None,
        after.last().child(true) == 0,
        after.last().child(false) == 0,
    ensures
        linked(after, paths.push(paths[idx].push(b))),
        labelled(after, paths.push(paths[idx].push(b)), n),
        covers(paths.push(paths[idx].push(b)), n),
        on_the_way(paths.push(paths[idx].push(b))),
{
    reveal(linked);
    reveal(labelled);
    reveal(covers);
    reveal(on_the_way);
    let path = paths[idx].push(b);
    let more = paths.push(path);
    let fresh = before.len() as int;
    assert(!paths.contains(path));
    assert(more[fresh] == path);
    assert forall|i: int, c: bool|
        0 <= i < more.len() && #[trigger] after[i].child(c) != 0 implies {
        &&& after[i].child(c) < more.len()
        &&& more[after[i].child(c)] == more[i].push(c)
    } by {
        if i < fresh && !(i == idx && c == b) {
            assert(before[i].child(c) == after[i].child(c));
        }
    }
    assert forall|i: int, j: int, c: bool|
        0 <= i < more.len() && 0 <= j < more.len() && #[trigger] more[j]
            == #[trigger] more[i].push(c) implies after[i].child(c) == j by {
        if j == fresh {
            assert(more[i].push(c).drop_last() =~= more[i]);
            assert(path.drop_last() =~= paths[idx]);
            assert(path.last() == b);
            assert(more[i].push(c).last() == c);
            assert(more[i] == more[idx]);
            if i == fresh {
                assert(path.len() == path.push(c).len());
            } else {
                assert(paths[i] == paths[idx]);
            }
        } else if i == fresh {
            // `path` with one more bit would stand below a node that was not there.
            assert(paths[j] == path.push(c));
            assert(path.push(c).drop_last() =~= path);
            assert(paths[j].len() > 0);
            assert(paths.contains(path));
        } else {
            assert(paths[j] == paths[i].push(c));
            assert(before[i].child(c) == j);
            if i == idx && c == b {
                assert(false);
            }
        }
    }
    assert forall|i: int|
        0 <= i < more.len() implies match #[trigger] after[i].label() {
        Some(sym) => sym < n && more[i] == code_bits(sym as int),
        None => true,
    } by {
        if i < fresh {
            assert(before[i].label() == after[i].label());
        }
    }
    assert forall|i: int, sym: int|
        0 <= i < more.len() && 0 <= sym < n && #[trigger] more[i] == #[trigger] code_bits(
            sym,
        ) implies after[i].label() == Some(sym as u16) by {
        if i == fresh {
            lemma_code_len(sym);
            assert(code_bits(sym).take(code_len(sym) as int) =~= path);
            assert(paths.contains(path));
        } else {
            assert(paths[i] == code_bits(sym));
            assert(before[i].label() == after[i].label());
        }
    }
    assert forall|j: int| 0 <= j < more.len() && #[trigger] more[j].len() > 0 implies more.contains(
        more[j].drop_last(),
    ) by {
        if j == fresh {
            assert(path.drop_last() =~= paths[idx]);
            assert(more[idx] == paths[idx]);
        } else {
            assert(paths[j].len() > 0);
            let up = paths[j].drop_last();
            assert(paths.contains(up));
            let i = paths.index_of(up);
            assert(more[i] == up);
        }
    }
    lemma_covers_push(paths, n, path);
}

/// Putting the symbol into the node at the end of its code keeps the tree in
/// order.
proof fn lemma_leaf_set(
    before: Seq<HuffmanNode>,
    paths: Seq<Seq<bool>>,
    n: int,
    idx: int,
    after: Seq<HuffmanNode>,
)
    requires
        linked(before, paths),
        labelled(before, paths, n),
        0 <= n < 257,
        0 <= idx < before.len(),
        paths[idx] == code_bits(n),
        after.len() == before.len(),
        forall|i: int| 0 <= i < before.len() && i != idx ==> after[i] == before[i],
        after[idx].label() == Some(n as u16),
        after[idx].child(true) == before[idx].child(true),
        after[idx].child(false) == before[idx].child(false),
    ensures
        linked(after, paths),
        labelled(after, paths, n + 1),
{
    reveal(linked);
    reveal(labelled);
    assert forall|i: int, b: bool| 0 <= i < paths.len() implies #[trigger] after[i].child(b)
        == before[i].child(b) by {}
    assert forall|i: int|
        0 <= i < paths.len() implies match #[trigger] after[i].label() {
        Some(sym) => sym < n + 1 && paths[i] == code_bits(sym as int),
        None => true,
    } by {
        if i != idx {
            assert(before[i].label() == after[i].label());
        }
    }
    assert forall|i: int, sym: int|
        0 <= i < paths.len() && 0 <= sym < n + 1 && #[trigger] paths[i] == #[trigger] code_bits(
            sym,
        ) implies after[i].label() == Some(sym as u16) by {
        if i == idx {
            if sym != n {
                assert(code_bits(sym).is_prefix_of(code_bits(n)));
                law_code_is_prefix_free(sym, n);
            }
        } else {
            assert(before[i].label() == after[i].label());
            if sym == n {
                assert(paths[i] == paths[idx]);
            }
        }
    }
}

/// One step down the tree: what the node that bit `b` leads to says of the bits
/// read so far.
proof fn lemma_descend(nodes: Seq<HuffmanNode>, paths: Seq<Seq<bool>>, i: int, b: bool)
    requires
        linked(nodes, paths),
        labelled(nodes, paths, 257),
        covers(paths, 257),
        on_the_way(paths),
        0 <= i < paths.len(),
        !reads_some(paths[i]),
    ensures
        nodes.len() == paths.len(),
        0 < nodes[i].child(b) < paths.len(),
        paths[nodes[i].child(b)] == paths[i].push(b),
        paths[i].len() < 30,
        match nodes[nodes[i].child(b)].label() {
            Some(sym) => sym <= EOS && paths[i].push(b) == code_bits(sym as int),
            None => !reads_some(paths[i].push(b)),
        },
{
    reveal(linked);
    reveal(labelled);
    reveal(covers);
    reveal(on_the_way);
    let path = paths[i];
    let next = path.push(b);
    assert(begins_code(path));
    let on = choose|s: int| is_symbol(s) && path.is_prefix_of(#[trigger] code_bits(s));
    lemma_code_len(on);
    if path.len() == code_len(on) {
        assert(path =~= code_bits(on));
        assert(reads(path, on));
    }
    law_code_is_complete(next);
    if reads_some(next) {
        let s = choose|s: int| #[trigger] reads(next, s);
        lemma_code_len(s);
        if code_bits(s).len() < next.len() {
            assert(code_bits(s) =~= next.take(code_bits(s).len() as int));
            assert(code_bits(s) =~= path.take(code_bits(s).len() as int));
            assert(reads(path, s));
        }
        assert(code_bits(s) =~= next);
        assert(code_bits(s).take(code_len(s) as int) =~= next);
        assert(paths.contains(next));
    } else {
        let s = choose|s: int| is_symbol(s) && next.is_prefix_of(#[trigger] code_bits(s));
        lemma_code_len(s);
        assert(code_bits(s).take(next.len() as int) =~= next);
        assert(paths.contains(next));
    }
    let j = paths.index_of(next);
    assert(paths[j] == paths[i].push(b));
    assert(nodes[i].child(b) == j);
    match nodes[j].label() {
        Some(sym) => {},
        None => {
            if reads_some(next) {
                let s = choose|s: int| #[trigger] reads(next, s);
                assert(paths[j] == code_bits(s));
            }
        },
    }
}

impl HuffmanTree {
    /// Decodes a Huffman-coded byte string.
    pub fn decode(&self, data: &[u8]) -> (r: Result<Vec<u8>, &'static str>)
        requires
            self.well_formed(),
        ensures
            match r {
                Ok(text) => decoded(bits::bits_of(data@)) == Ok::<Seq<u8>, Seq<char>>(text@),
                Err(e) => decoded(bits::bits_of(data@)) == Err::<Seq<u8>, Seq<char>>(e@),
            },
    {
        let mut result: Vec<u8> = Vec::with_capacity(data.len());
        let mut node_idx: usize = 0;
        let mut bits_since_last_sym: u8 = 0;
        let mut all_ones = true;
        let ghost nodes = self.nodes@;
        let ghost paths = self.paths@;
        proof {
            reveal(linked);
            lemma_nothing_read();
            assert(data@.take(0) =~= Seq::<u8>::empty());
            assert(encoded(Seq::empty()) + paths[0] =~= Seq::<bool>::empty());
            assert(paths[0] =~= bits::ones(0));
        }
        let mut i: usize = 0;
        while i < data.len()
            invariant
                self.well_formed(),
                nodes == self.nodes@,
                paths == self.paths@,
                nodes.len() == paths.len(),
                0 < paths.len(),
                paths[0] == Seq::<bool>::empty(),
                i <= data.len(),
                node_idx < nodes.len(),
                bits::bits_of(data@.take(i as int)) == encoded(result@) + paths[node_idx as int],
                !reads_some(paths[node_idx as int]),
                bits_since_last_sym == paths[node_idx as int].len(),
                all_ones == (paths[node_idx as int] == bits::ones(bits_since_last_sym as nat)),
            decreases data.len() - i,
        {
            let byte = data[i];
            let ghost before = bits::bits_of(data@.take(i as int));
            let ghost eight = bits::binary(byte as nat, 8);
            proof {
                bits::lemma_binary_len(byte as nat, 8);
                assert(before + eight.take(0) =~= before);
                assert(data@.take(i as int + 1) =~= data@.take(i as int).push(byte));
                bits::lemma_bits_of_push(data@.take(i as int), byte);
            }
            let mut taken: u8 = 0;
            while taken < 8
                invariant
                    self.well_formed(),
                    nodes == self.nodes@,
                    paths == self.paths@,
                    nodes.len() == paths.len(),
                    0 < paths.len(),
                    paths[0] == Seq::<bool>::empty(),
                    i < data.len(),
                    byte == data@[i as int],
                    taken <= 8,
                    node_idx < nodes.len(),
                    before == bits::bits_of(data@.take(i as int)),
                    eight == bits::binary(byte as nat, 8),
                    eight.len() == 8,
                    before + eight.take(taken as int) == encoded(result@) + paths[node_idx as int],
                    !reads_some(paths[node_idx as int]),
                    bits_since_last_sym == paths[node_idx as int].len(),
                    all_ones == (paths[node_idx as int] == bits::ones(bits_since_last_sym as nat)),
                decreases 8 - taken,
            {
                let shift: u32 = (7 - taken) as u32;
                let word: u32 = byte as u32;
                let bit: usize = ((word >> shift) & 1) as usize;
                let ghost b = bit == 1;
                let ghost path = paths[node_idx as int];
                proof {
                    bits::lemma_shift_mask_bit(word, shift);
                    bits::lemma_binary_index(byte as nat, 8, shift as nat);
                    assert(eight.take(taken as int + 1) =~= eight.take(taken as int).push(b));
                    assert(before + eight.take(taken as int).push(b) =~= (before + eight.take(
                        taken as int,
                    )).push(b));
                    assert((encoded(result@) + path).push(b) =~= encoded(result@) + path.push(b));
                    lemma_descend(nodes, paths, node_idx as int, b);
                }
                let child: usize = self.nodes[node_idx].children[bit] as usize;
                if child == 0 {
                    return Err("invalid huffman code");
                }
                node_idx = child;
                bits_since_last_sym = bits_since_last_sym + 1;
                all_ones = all_ones && bit == 1;
                proof {
                    let n = path.len();
                    if path == bits::ones(n) && b {
                        assert(path.push(b) =~= bits::ones(n + 1));
                    } else if path.push(b) == bits::ones(n + 1) {
                        assert(path.push(b)[n as int]);
                        assert(path =~= path.push(b).take(n as int));
                        assert(path =~= bits::ones(n));
                    }
                }
                if let Some(sym) = self.nodes[node_idx].symbol {
                    if sym == EOS {
                        proof {
                            lemma_remainder(data@, i as int, taken as int + 1);
                            let rest = bits_rest(data@, i as int, taken as int + 1);
                            lemma_decoded_code(EOS as int, rest);
                            lemma_decoded_encoded(result@, code_bits(EOS as int) + rest);
                            assert(bits::bits_of(data@) =~= encoded(result@) + (code_bits(
                                EOS as int,
                            ) + rest));
                        }
                        return Err("unexpected EOS in huffman stream");
                    }
                    let ghost text = result@;
                    result.push(sym as u8);
                    node_idx = 0;
                    bits_since_last_sym = 0;
                    all_ones = true;
                    proof {
                        lemma_nothing_read();
                        assert(text.push(sym as u8).drop_last() =~= text);
                        assert(encoded(result@) + paths[0] =~= encoded(text) + code_bits(
                            sym as int,
                        ));
                        assert(paths[0] =~= bits::ones(0));
                    }
                }
                taken = taken + 1;
            }
            proof {
                assert(eight.take(8) =~= eight);
            }
            i = i + 1;
        }
        proof {
            assert(data@.take(data@.len() as int) =~= data@);
            let path = paths[node_idx as int];
            lemma_decoded_encoded(result@, path);
            reveal(decoded);
            assert(result@ + Seq::<u8>::empty() =~= result@);
        }
        if bits_since_last_sym > 7 {
            return Err("invalid huffman padding length");
        }
        if !all_ones {
            return Err("invalid huffman padding");
        }
        Ok(result)
    }
}

/// The bits of `data` after byte `i` has been read up to bit `taken`.
spec fn bits_rest(data: Seq<u8>, i: int, taken: int) -> Seq<bool> {
    bits::binary(data[i] as nat, 8).skip(taken) + bits::bits_of(data.skip(i + 1))
}

proof fn lemma_remainder(data: Seq<u8>, i: int, taken: int)
    requires
        0 <= i < data.len(),
        0 <= taken <= 8,
    ensures
        bits::bits_of(data) == (bits::bits_of(data.take(i)) + bits::binary(data[i] as nat, 8).take(
            taken,
        )) + bits_rest(data, i, taken),
{
    let eight = bits::binary(data[i] as nat, 8);
    bits::lemma_binary_len(data[i] as nat, 8);
    assert(data =~= data.take(i).push(data[i]) + data.skip(i + 1));
    bits::lemma_bits_of_concat(data.take(i).push(data[i]), data.skip(i + 1));
    bits::lemma_bits_of_push(data.take(i), data[i]);
    assert(eight =~= eight.take(taken) + eight.skip(taken));
    assert(bits::bits_of(data) =~= (bits::bits_of(data.take(i)) + eight.take(taken)) + bits_rest(
        data,
        i,
        taken,
    ));
}

/// No code is empty.
proof fn lemma_nothing_read()
    ensures
        !reads_some(Seq::<bool>::empty()),
{
    if reads_some(Seq::<bool>::empty()) {
        let s = choose|s: int| #[trigger] reads(Seq::<bool>::empty(), s);
        lemma_code_len(s);
    }
}

/// Decodes a Huffman-coded byte string.
pub fn huffman_decode(data: &[u8]) -> (r: Result<Vec<u8>, &'static str>)
    ensures
        match r {
            Ok(text) => decoded(bits::bits_of(data@)) == Ok::<Seq<u8>, Seq<char>>(text@),
            Err(e) => decoded(bits::bits_of(data@)) == Err::<Seq<u8>, Seq<char>>(e@),
        },
{
    let tree = HuffmanTree::build();
    tree.decode(data)
}

impl HuffmanTree {
    /// The number of nodes.
    pub closed spec fn size(self) -> int {
        self.nodes@.len() as int
    }

    /// The node at a place; the root is at 0.
    pub closed spec fn node(self, i: int) -> HuffmanNode {
        self.nodes@[i]
    }

    /// The node that bits lead to from a node, if there is one.
    pub open spec fn descend(self, i: int, bits: Seq<bool>) -> Option<int>
        decreases bits.len(),
    {
        if bits.len() == 0 {
            Some(i)
        } else {
            let next = self.node(i).child(bits[0]);
            if next == 0 {
                None
            } else {
                self.descend(next, bits.drop_first())
            }
        }
    }
}

proof fn lemma_code_path(tree: HuffmanTree, sym: int, k: int, i: int)
    requires
        tree.well_formed(),
        is_symbol(sym),
        0 <= k <= code_len(sym),
        0 <= i < tree.size(),
        tree.paths@[i] == code_bits(sym).take(k),
    ensures
        tree.descend(i, code_bits(sym).skip(k)) matches Some(j) && 0 <= j < tree.size()
            && tree.paths@[j] == code_bits(sym),
    decreases code_len(sym) - k,
{
    reveal(linked);
    reveal(covers);
    lemma_code_len(sym);
    let code = code_bits(sym);
    let paths = tree.paths@;
    if k == code_len(sym) {
        assert(code.take(k) =~= code);
    } else {
        let b = code[k];
        let longer = code.take(k + 1);
        assert(longer =~= code.take(k).push(b));
        assert(paths.contains(longer));
        let j = paths.index_of(longer);
        assert(paths[j] == paths[i].push(b));
        assert(tree.node(i).child(b) == j);
        assert(j != 0) by {
            assert(paths[j].len() > 0);
        }
        lemma_code_path(tree, sym, k + 1, j);
        assert(code.skip(k).drop_first() =~= code.skip(k + 1));
        assert(code.skip(k)[0] == b);
    }
}

/// The bits of the code of a symbol lead from the root of a tree to a node that
/// holds the symbol, and no other node holds it.
pub proof fn law_code_leads_to_symbol(tree: HuffmanTree, sym: int)
    requires
        tree.well_formed(),
        is_symbol(sym),
    ensures
        tree.descend(0, code_bits(sym)) matches Some(i) && 0 <= i < tree.size() && tree.node(
            i,
        ).label() == Some(sym as u16) && forall|j: int|
            0 <= j < tree.size() && #[trigger] tree.node(j).label() == Some(sym as u16) ==> j == i,
{
    reveal(linked);
    reveal(labelled);
    assert(code_bits(sym).take(0) =~= Seq::<bool>::empty());
    assert(code_bits(sym).skip(0) =~= code_bits(sym));
    lemma_code_len(sym);
    lemma_code_path(tree, sym, 0, 0);
}

/// A node holds a symbol only where the bits of the code of that symbol lead to it,
/// so that a node at which no code ends holds none.
pub proof fn law_symbol_stands_at_end_of_code(tree: HuffmanTree, i: int)
    requires
        tree.well_formed(),
        0 <= i < tree.size(),
    ensures
        tree.node(i).label() matches Some(sym) ==> is_symbol(sym as int) && tree.descend(
            0,
            code_bits(sym as int),
        ) == Some(i),
{
    reveal(labelled);
    reveal(linked);
    if let Some(sym) = tree.node(i).label() {
        assert(sym < 257);
        law_code_leads_to_symbol(tree, sym as int);
        assert(tree.node(i).label() == Some(sym as int as u16));
    }
}

/// A node that holds a symbol is a leaf; every other has two children.
pub proof fn law_tree_is_full(tree: HuffmanTree, i: int, bit: bool)
    requires
        tree.well_formed(),
        0 <= i < tree.size(),
    ensures
        tree.node(i).label() is Some <==> tree.node(i).child(bit) == 0,
{
    reveal(linked);
    reveal(labelled);
    reveal(covers);
    reveal(on_the_way);
    let paths = tree.paths@;
    let path = paths[i];
    let longer = path.push(bit);
    assert(longer.drop_last() =~= path);
    if tree.node(i).label() is Some && tree.node(i).child(bit) != 0 {
        let sym = tree.node(i).label()->0 as int;
        let j = tree.node(i).child(bit);
        assert(paths[j] == longer);
        assert(begins_code(paths[j]));
        let other = choose|s: int| is_symbol(s) && longer.is_prefix_of(#[trigger] code_bits(s));
        assert(code_bits(sym) =~= code_bits(other).take(path.len() as int)) by {
            assert(longer =~= code_bits(other).take(longer.len() as int));
        }
        law_code_is_prefix_free(sym, other);
        assert(false);
    }
    if tree.node(i).label() is None {
        assert(begins_code(path));
        let sym = choose|s: int| is_symbol(s) && path.is_prefix_of(#[trigger] code_bits(s));
        law_code_is_complete(longer);
        if reads_some(longer) && !begins_code(longer) {
            let other = choose|s: int| #[trigger] reads(longer, s);
            if code_bits(other).len() < longer.len() {
                assert(code_bits(other).is_prefix_of(code_bits(sym))) by {
                    assert(code_bits(other) =~= longer.take(code_bits(other).len() as int));
                    assert(path =~= code_bits(sym).take(path.len() as int));
                }
                law_code_is_prefix_free(other, sym);
                assert(path =~= code_bits(sym));
                assert(false);
            } else {
                assert(longer =~= code_bits(other));
                assert(longer.is_prefix_of(code_bits(other)));
            }
        }
        assert(begins_code(longer));
        let other = choose|s: int| is_symbol(s) && longer.is_prefix_of(#[trigger] code_bits(s));
        lemma_code_len(other);
        assert(longer =~= code_bits(other).take(longer.len() as int));
        assert(paths.contains(longer));
        let j = paths.index_of(longer);
        assert(paths[j] == paths[i].push(bit));
        assert(paths[j].len() > 0);
    }
}

/// How many bits the code of a symbol takes: the fewer, the more frequent the
/// octet is taken to be. The digits 0 to 2 and the letters `aceiost` take five.
pub open spec fn bits_taken(sym: int) -> nat {
    if 48 <= sym <= 50 || sym == 97 || sym == 99 || sym == 101
        || sym == 105 || sym == 111 || 115 <= sym <= 116 {
        5
    } else if sym == 32 || sym == 37 || 45 <= sym <= 47 || 51 <= sym <= 57
        || sym == 61 || sym == 65 || sym == 95 || sym == 98
        || sym == 100 || 102 <= sym <= 104 || 108 <= sym <= 110 || sym == 112
        || sym == 114 || sym == 117 {
        6
    } else if sym == 58 || 66 <= sym <= 87 || sym == 89 || 106 <= sym <= 107
        || sym == 113 || 118 <= sym <= 122 {
        7
    } else if sym == 38 || sym == 42 || sym == 44 || sym == 59
        || sym == 88 || sym == 90 {
        8
    } else if 33 <= sym <= 34 || 40 <= sym <= 41 || sym == 63 {
        10
    } else if sym == 39 || sym == 43 || sym == 124 {
        11
    } else if sym == 35 || sym == 62 {
        12
    } else if sym == 0 || sym == 36 || sym == 64 || sym == 91
        || sym == 93 || sym == 126 {
        13
    } else if sym == 94 || sym == 125 {
        14
    } else if sym == 60 || sym == 96 || sym == 123 {
        15
    } else if sym == 92 || sym == 195 || sym == 208 {
        19
    } else if sym == 128 || 130 <= sym <= 131 || sym == 162 || sym == 184
        || sym == 194 || sym == 224 || sym == 226 {
        20
    } else if sym == 153 || sym == 161 || sym == 167 || sym == 172
        || 176 <= sym <= 177 || sym == 179 || sym == 209 || 216 <= sym <= 217
        || sym == 227 || 229 <= sym <= 230 {
        21
    } else if sym == 129 || 132 <= sym <= 134 || sym == 136 || sym == 146
        || sym == 154 || sym == 156 || sym == 160 || 163 <= sym <= 164
        || 169 <= sym <= 170 || sym == 173 || sym == 178 || sym == 181
        || 185 <= sym <= 187 || 189 <= sym <= 190 || sym == 196 || sym == 198
        || sym == 228 || 232 <= sym <= 233 {
        22
    } else if sym == 1 || sym == 135 || 137 <= sym <= 141 || sym == 143
        || sym == 147 || 149 <= sym <= 152 || sym == 155 || 157 <= sym <= 158
        || 165 <= sym <= 166 || sym == 168 || 174 <= sym <= 175 || sym == 180
        || 182 <= sym <= 183 || sym == 188 || sym == 191 || sym == 197
        || sym == 231 || sym == 239 {
        23
    } else if sym == 9 || sym == 142 || 144 <= sym <= 145 || sym == 148
        || sym == 159 || sym == 171 || sym == 206 || sym == 215
        || sym == 225 || 236 <= sym <= 237 {
        24
    } else if sym == 199 || sym == 207 || 234 <= sym <= 235 {
        25
    } else if 192 <= sym <= 193 || 200 <= sym <= 202 || sym == 205 || sym == 210
        || sym == 213 || 218 <= sym <= 219 || sym == 238 || sym == 240
        || 242 <= sym <= 243 || sym == 255 {
        26
    } else if 203 <= sym <= 204 || 211 <= sym <= 212 || sym == 214 || 221 <= sym <= 223
        || sym == 241 || 244 <= sym <= 248 || 250 <= sym <= 254 {
        27
    } else if 2 <= sym <= 8 || 11 <= sym <= 12 || 14 <= sym <= 21 || 23 <= sym <= 31
        || sym == 127 || sym == 220 || sym == 249 {
        28
    } else {
        30
    }
}

spec fn takes_up_to(n: int) -> bool
    decreases n,
{
    n <= 0 || (takes_up_to(n - 1) && code_len(n - 1) == bits_taken(n - 1))
}

#[verifier::spinoff_prover]
#[verifier::rlimit(60)]
proof fn lemma_table_takes()
    ensures
        takes_up_to(257),
{
    reveal(code_len);
    reveal_with_fuel(takes_up_to, 67);
    assert(takes_up_to(64));
    assert(takes_up_to(128));
    assert(takes_up_to(192));
}

proof fn lemma_takes(n: int, sym: int)
    requires
        takes_up_to(n),
        0 <= sym < n,
    ensures
        code_len(sym) == bits_taken(sym),
    decreases n,
{
    if sym < n - 1 {
        lemma_takes(n - 1, sym);
    }
}

spec fn rises(k: int) -> bool {
    code_len(symbol_at(k)) == code_len(symbol_at(k + 1)) ==> symbol_at(k) < symbol_at(k + 1)
}

spec fn rises_up_to(n: int) -> bool
    decreases n,
{
    n <= 0 || (rises_up_to(n - 1) && rises(n - 1))
}

#[verifier::spinoff_prover]
#[verifier::rlimit(60)]
proof fn lemma_table_rises()
    ensures
        rises_up_to(256),
{
    reveal(code_len);
    reveal(symbol_at);
    reveal_with_fuel(rises_up_to, 66);
    assert(rises_up_to(64));
    assert(rises_up_to(128));
    assert(rises_up_to(192));
}

proof fn lemma_rises(n: int, k: int)
    requires
        rises_up_to(n),
        0 <= k < n,
    ensures
        rises(k),
    decreases n,
{
    if k < n - 1 {
        lemma_rises(n - 1, k);
    }
}

proof fn lemma_rises_along(j: int, k: int)
    requires
        0 <= j < k <= 256,
        code_len(symbol_at(j)) == code_len(symbol_at(k)),
    ensures
        symbol_at(j) < symbol_at(k),
    decreases k - j,
{
    lemma_table_rises();
    lemma_rises(256, k - 1);
    lemma_order(k - 1, k);
    if j < k - 1 {
        lemma_order(j, k - 1);
        lemma_rises_along(j, k - 1);
    }
}

/// The code follows from the lengths of its codes: it begins with zero, of two
/// symbols whose codes are of one length the smaller has the smaller code, and a
/// longer code lies beyond every string that a shorter one begins.
pub proof fn law_code_follows_from_lengths(a: int, b: int)
    requires
        is_symbol(a),
        is_symbol(b),
        a != b,
    ensures
        code_len(a) == bits_taken(a),
        code_len(a) == code_len(b) ==> (code(a) < code(b) <==> a < b),
        code_len(a) < code_len(b) ==> code(b) >= bits::doubled(
            code(a) + 1,
            (code_len(b) - code_len(a)) as nat,
        ),
        code('0' as int) == 0,
        code(EOS as int) == 0x3fffffff,
{
    lemma_table_takes();
    lemma_takes(257, a);
    lemma_table_ranked();
    lemma_ranked(257, a);
    lemma_ranked(257, b);
    lemma_table_ends();
    assert(code('0' as int) == 0) by {
        reveal(code);
    }
    let j = rank_of(a);
    let k = rank_of(b);
    if j < k {
        lemma_order(j, k);
        if code_len(a) == code_len(b) {
            lemma_rises_along(j, k);
        }
    } else {
        lemma_order(k, j);
        if code_len(a) == code_len(b) {
            lemma_rises_along(k, j);
        }
    }
}

/// What a bit string is refused for behind the codes of any text: the end-of-string
/// symbol, whatever follows; more than seven bits in which no code stands; or fewer,
/// of which one is zero.
pub proof fn law_why_bits_are_refused(text: Seq<u8>, tail: Seq<bool>)
    ensures
        decoded(encoded(text) + bits::ones(30) + tail) == Err::<Seq<u8>, Seq<char>>(
            "unexpected EOS in huffman stream"@,
        ),
        !reads_some(tail) && tail.len() > 7 ==> decoded(encoded(text) + tail) == Err::<
            Seq<u8>,
            Seq<char>,
        >("invalid huffman padding length"@),
        !reads_some(tail) && tail.len() <= 7 && tail.contains(false) ==> decoded(
            encoded(text) + tail,
        ) == Err::<Seq<u8>, Seq<char>>("invalid huffman padding"@),
{
    lemma_eos_ones();
    lemma_decoded_code(EOS as int, tail);
    lemma_decoded_encoded(text, code_bits(EOS as int) + tail);
    assert(encoded(text) + bits::ones(30) + tail =~= encoded(text) + (code_bits(EOS as int) + tail));
    lemma_decoded_encoded(text, tail);
    if !reads_some(tail) {
        reveal(decoded);
        if tail.contains(false) {
            let i = choose|i: int| 0 <= i < tail.len() && tail[i] == false;
            assert(bits::ones(tail.len())[i]);
        }
    }
}

} // verus!
