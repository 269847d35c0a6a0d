//! Bit strings, most significant bit first, and the arithmetic that the
//! Huffman code needs of them.
use vstd::arithmetic::power2::*;
use vstd::prelude::*;

verus! {

/// The `n` low bits of `v`, most significant first.
pub open spec fn binary(v: nat, n: nat) -> Seq<bool>
    decreases n,
{
    if n == 0 {
        Seq::empty()
    } else {
        binary(v / 2, (n - 1) as nat).push(v % 2 == 1)
    }
}

/// The number that a bit string denotes.
pub open spec fn value(bits: Seq<bool>) -> nat
    decreases bits.len(),
{
    if bits.len() == 0 {
        0
    } else {
        2 * value(bits.drop_last()) + (if bits.last() {
            1nat
        } else {
            0nat
        })
    }
}

/// The bits of a byte string, byte by byte.
pub open spec fn bits_of(data: Seq<u8>) -> Seq<bool>
    decreases data.len(),
{
    if data.len() == 0 {
        Seq::empty()
    } else {
        bits_of(data.drop_last()) + binary(data.last() as nat, 8)
    }
}

/// `n` one-bits.
pub open spec fn ones(n: nat) -> Seq<bool> {
    Seq::new(n, |i: int| true)
}

/// `v` doubled `n` times.
pub open spec fn doubled(v: nat, n: nat) -> nat
    decreases n,
{
    if n == 0 {
        v
    } else {
        doubled(2 * v, (n - 1) as nat)
    }
}

/// `v` halved `n` times, rounding down.
pub open spec fn halved(v: nat, n: nat) -> nat
    decreases n,
{
    if n == 0 {
        v
    } else {
        halved(v, (n - 1) as nat) / 2
    }
}

pub proof fn lemma_binary_len(v: nat, n: nat)
    ensures
        binary(v, n).len() == n,
    decreases n,
{
    if n > 0 {
        lemma_binary_len(v / 2, (n - 1) as nat);
    }
}

/// A leading part of a binary numeral is the numeral of the halved number.
pub proof fn lemma_binary_take(v: nat, n: nat, m: nat)
    requires
        m <= n,
    ensures
        binary(v, n).take(m as int) == binary(halved(v, (n - m) as nat), m),
    decreases n - m,
{
    lemma_binary_len(v, n);
    if m == n {
        assert(binary(v, n).take(m as int) =~= binary(v, n));
    } else {
        lemma_binary_take(v, n, m + 1);
        let up = binary(halved(v, (n - m - 1) as nat), m + 1);
        lemma_binary_len(halved(v, (n - m - 1) as nat), m + 1);
        assert(up.drop_last() =~= binary(halved(v, (n - m - 1) as nat) / 2, m));
        assert(binary(v, n).take(m as int) =~= binary(v, n).take(m as int + 1).drop_last());
    }
}

/// Doubling from the outside: `doubled` peels off either end.
pub proof fn lemma_doubled_step(v: nat, n: nat)
    ensures
        doubled(v, n + 1) == 2 * doubled(v, n),
    decreases n,
{
    if n > 0 {
        lemma_doubled_step(2 * v, (n - 1) as nat);
    } else {
        reveal_with_fuel(doubled, 2);
    }
}

pub proof fn lemma_doubled_add(v: nat, n: nat, m: nat)
    ensures
        doubled(doubled(v, n), m) == doubled(v, n + m),
    decreases n,
{
    if n > 0 {
        lemma_doubled_add(2 * v, (n - 1) as nat, m);
    }
}

pub proof fn lemma_doubled_less(a: nat, b: nat, n: nat)
    ensures
        a < b <==> doubled(a, n) < doubled(b, n),
    decreases n,
{
    if n > 0 {
        lemma_doubled_less(2 * a, 2 * b, (n - 1) as nat);
    }
}

/// Halving `n` times compares against `c` as the number itself compares
/// against `c` doubled `n` times.
pub proof fn lemma_halved_less(v: nat, c: nat, n: nat)
    ensures
        halved(v, n) < c <==> v < doubled(c, n),
    decreases n,
{
    if n > 0 {
        lemma_halved_less(v, 2 * c, (n - 1) as nat);
    }
}

pub proof fn lemma_halved_add(v: nat, n: nat, m: nat)
    ensures
        halved(halved(v, n), m) == halved(v, n + m),
    decreases m,
{
    if m > 0 {
        lemma_halved_add(v, n, (m - 1) as nat);
    }
}

/// A number below `2^n` is the value of its `n`-bit numeral.
pub proof fn lemma_value_binary(v: nat, n: nat)
    requires
        v < doubled(1, n),
    ensures
        value(binary(v, n)) == v,
    decreases n,
{
    if n > 0 {
        lemma_doubled_step(1, (n - 1) as nat);
        lemma_value_binary(v / 2, (n - 1) as nat);
        let b = binary(v / 2, (n - 1) as nat);
        assert(b.push(v % 2 == 1).drop_last() =~= b);
    }
}

/// A bit string is the numeral of its value, and its value fits its length.
pub proof fn lemma_binary_value(bits: Seq<bool>)
    ensures
        binary(value(bits), bits.len()) == bits,
        value(bits) < doubled(1, bits.len()),
    decreases bits.len(),
{
    if bits.len() > 0 {
        let rest = bits.drop_last();
        lemma_binary_value(rest);
        lemma_doubled_step(1, rest.len());
        assert(value(bits) / 2 == value(rest));
        assert(binary(value(bits), bits.len()) =~= rest.push(bits.last()));
        assert(rest.push(bits.last()) =~= bits);
    } else {
        assert(binary(0, 0) =~= bits);
    }
}

pub proof fn lemma_bits_of_push(data: Seq<u8>, b: u8)
    ensures
        bits_of(data.push(b)) == bits_of(data) + binary(b as nat, 8),
{
    assert(data.push(b).drop_last() =~= data);
}

pub proof fn lemma_bits_of_concat(a: Seq<u8>, b: Seq<u8>)
    ensures
        bits_of(a + b) == bits_of(a) + bits_of(b),
    decreases b.len(),
{
    if b.len() == 0 {
        assert(a + b =~= a);
        assert(bits_of(a) + bits_of(b) =~= bits_of(a));
    } else {
        lemma_bits_of_concat(a, b.drop_last());
        assert((a + b).drop_last() =~= a + b.drop_last());
        assert((a + b).last() == b.last());
        assert(bits_of(a) + bits_of(b) =~= (bits_of(a) + bits_of(b.drop_last())) + binary(
            b.last() as nat,
            8,
        ));
    }
}

/// The numeral of `2^n - 1` is all ones.
pub proof fn lemma_binary_ones(n: nat)
    ensures
        doubled(1, n) >= 1,
        binary((doubled(1, n) - 1) as nat, n) == ones(n),
    decreases n,
{
    if n > 0 {
        let m = (n - 1) as nat;
        lemma_binary_ones(m);
        lemma_doubled_step(1, m);
        assert((doubled(1, n) - 1) / 2 == doubled(1, m) - 1);
        assert(ones(m).push(true) =~= ones(n));
    } else {
        assert(binary(0, 0) =~= ones(0));
    }
}

/// The bit of weight `2^k` stands at index `n - 1 - k` of an `n`-bit numeral.
pub proof fn lemma_binary_index(v: nat, n: nat, k: nat)
    requires
        k < n,
    ensures
        binary(v, n).len() == n,
        binary(v, n)[n - 1 - k] == (halved(v, k) % 2 == 1),
    decreases k,
{
    lemma_binary_len(v, n);
    lemma_binary_len(v / 2, (n - 1) as nat);
    if k > 0 {
        lemma_binary_index(v / 2, (n - 1) as nat, (k - 1) as nat);
        lemma_halved_add(v, 1, (k - 1) as nat);
        reveal_with_fuel(halved, 2);
    }
}

/// Shifting right by `k` halves `k` times.
pub proof fn lemma_shift_is_halved(v: u32, k: u32)
    requires
        k < 32,
    ensures
        (v >> k) == halved(v as nat, k as nat),
    decreases k,
{
    if k == 0 {
        assert(v >> 0u32 == v) by (bit_vector);
    } else {
        let j: u32 = (k - 1) as u32;
        lemma_shift_is_halved(v, j);
        assert(v >> k == (v >> j) / 2) by (bit_vector)
            requires
                j < 31,
                k == j + 1,
        ;
    }
}

/// The bit of weight `2^k` of a number, as shifting and masking find it.
pub proof fn lemma_shift_mask_bit(v: u32, k: u32)
    requires
        k < 32,
    ensures
        (v >> k) & 1 == 0 || (v >> k) & 1 == 1,
        ((v >> k) & 1 == 1) == (halved(v as nat, k as nat) % 2 == 1),
{
    lemma_shift_is_halved(v, k);
    let w = v >> k;
    assert(w & 1 == w % 2) by (bit_vector);
}

/// Bit `j` of byte `i`, counted from the most significant, stands in place `8 i + j`.
pub proof fn law_bits_of_bytes(data: Seq<u8>, i: int, j: int)
    requires
        0 <= i < data.len(),
        0 <= j < 8,
    ensures
        bits_of(data).len() == 8 * data.len(),
        bits_of(data)[8 * i + j] == (data[i] as int / pow2((7 - j) as nat) as int % 2 == 1),
    decreases data.len(),
{
    let front = data.drop_last();
    let last = data.last() as nat;
    lemma_bits_of_len(front);
    lemma_binary_len(last, 8);
    if i < front.len() {
        law_bits_of_bytes(front, i, j);
        assert(bits_of(data)[8 * i + j] == bits_of(front)[8 * i + j]);
    } else {
        let k = (7 - j) as nat;
        lemma_binary_index(last, 8, k);
        lemma_halved_is_divided(last, k);
        assert(bits_of(data)[8 * i + j] == binary(last, 8)[j]);
    }
}

proof fn lemma_bits_of_len(data: Seq<u8>)
    ensures
        bits_of(data).len() == 8 * data.len(),
    decreases data.len(),
{
    if data.len() > 0 {
        lemma_bits_of_len(data.drop_last());
        lemma_binary_len(data.last() as nat, 8);
    }
}

proof fn lemma_halved_is_divided(v: nat, k: nat)
    ensures
        halved(v, k) == v as int / pow2(k) as int,
    decreases k,
{
    if k == 0 {
        lemma2_to64();
    } else {
        let m = (k - 1) as nat;
        lemma_halved_is_divided(v, m);
        lemma_pow2_pos(m);
        lemma_pow2_unfold(k);
        vstd::arithmetic::div_mod::lemma_div_denominator(v as int, pow2(m) as int, 2);
    }
}

} // verus!
