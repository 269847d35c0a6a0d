//! Text: conversions between byte strings and text, searching, and the numerals
//! that messages hold.
use vstd::prelude::*;
use vstd::slice::slice_subrange;
use vstd::string::*;
use vstd::utf8::*;

verus! {

/// `String::from_utf8`, with the error reduced to `None`: a byte vector becomes
/// a string exactly when it is valid UTF-8, and then the string that it encodes.
#[verifier::external_body]
pub(crate) fn string_from_utf8(bytes: Vec<u8>) -> (r: Option<String>)
    ensures
        r is Some <==> valid_utf8(bytes@),
        r matches Some(s) ==> s@ == decode_utf8(bytes@),
{
    String::from_utf8(bytes).ok()
}

/// `std::str::from_utf8`, with the error reduced to `None`: a byte slice is text
/// exactly when it is valid UTF-8, and then the text that it encodes.
#[verifier::external_body]
pub(crate) fn str_from_utf8(bytes: &[u8]) -> (r: Option<&str>)
    ensures
        r is Some <==> valid_utf8(bytes@),
        r matches Some(s) ==> s@ == decode_utf8(bytes@),
{
    std::str::from_utf8(bytes).ok()
}

/// The text that `String::from_utf8_lossy` makes of bytes.
pub uninterp spec fn lossy(bytes: Seq<u8>) -> Seq<char>;

/// `String::from_utf8_lossy`: the text that bytes encode, where what is not UTF-8
/// is replaced. Valid UTF-8 is decoded as it is.
#[verifier::external_body]
pub(crate) fn text_lossy(bytes: &[u8]) -> (s: String)
    ensures
        s@ == lossy(bytes@),
        valid_utf8(bytes@) ==> s@ == decode_utf8(bytes@),
{
    String::from_utf8_lossy(bytes).into_owned()
}

/// `String::push` appends one character to the end of a string.
pub assume_specification[ String::push ](s: &mut String, c: char)
    ensures
        final(s)@ == old(s)@.push(c),
;

/// The place of the first `x` in `s`.
pub open spec fn position<T>(s: Seq<T>, x: T) -> Option<int>
    decreases s.len(),
{
    if s.len() == 0 {
        None
    } else if s[0] == x {
        Some(0)
    } else {
        match position(s.drop_first(), x) {
            Some(i) => Some(i + 1),
            None => None,
        }
    }
}

/// The first place is one where `x` stands and before which it does not.
pub proof fn lemma_position<T>(s: Seq<T>, x: T)
    ensures
        match position(s, x) {
            Some(i) => 0 <= i < s.len() && s[i] == x && forall|k: int| 0 <= k < i ==> s[k] != x,
            None => forall|k: int| 0 <= k < s.len() ==> s[k] != x,
        },
    decreases s.len(),
{
    if s.len() > 0 && s[0] != x {
        let rest = s.drop_first();
        lemma_position(rest, x);
        assert forall|k: int| 0 < k < s.len() implies s[k] == rest[k - 1] by {}
    }
}

/// A place where `x` stands and before which it does not is the first.
pub proof fn lemma_position_is<T>(s: Seq<T>, x: T, i: int)
    requires
        0 <= i < s.len(),
        s[i] == x,
        forall|k: int| 0 <= k < i ==> s[k] != x,
    ensures
        position(s, x) == Some(i),
{
    lemma_position(s, x);
}

/// What follows the first place has no say in where it is.
pub proof fn lemma_position_prefix<T>(s: Seq<T>, more: Seq<T>, x: T)
    requires
        position(s, x) is Some,
    ensures
        position(s + more, x) == position(s, x),
{
    lemma_position(s, x);
    let i = position(s, x)->0;
    assert forall|k: int| 0 <= k < i implies (s + more)[k] != x by {
        assert((s + more)[k] == s[k]);
    }
    lemma_position_is(s + more, x, i);
}

/// Finds the first `c` in `s`; places are counted in characters.
pub fn find_char(s: &str, c: char) -> (r: Option<usize>)
    ensures
        match r {
            Some(i) => position(s@, c) == Some(i as int) && i < s@.len(),
            None => position(s@, c) is None,
        },
{
    let len = s.unicode_len();
    let mut rest = s.chars();
    let mut i: usize = 0;
    proof {
        lemma_position(s@, c);
        assert(s@.skip(0) =~= s@);
    }
    while i < len
        invariant
            len == s@.len(),
            i <= len,
            vstd::std_specs::iter::IteratorSpec::remaining(&rest) == s@.skip(i as int),
            forall|k: int| 0 <= k < i ==> s@[k] != c,
        decreases len - i,
    {
        let next = rest.next();
        if let Some(d) = next {
            if d == c {
                proof {
                    lemma_position_is(s@, c, i as int);
                }
                return Some(i);
            }
        }
        proof {
            assert(s@.skip(i as int).drop_first() =~= s@.skip(i as int + 1));
        }
        i = i + 1;
    }
    None
}

/// Finds the first `b` in a byte string.
pub fn find_byte(s: &[u8], b: u8) -> (r: Option<usize>)
    ensures
        match r {
            Some(i) => position(s@, b) == Some(i as int) && i < s@.len(),
            None => position(s@, b) is None,
        },
{
    let mut i: usize = 0;
    while i < s.len()
        invariant
            i <= s@.len(),
            forall|k: int| 0 <= k < i ==> s@[k] != b,
        decreases s@.len() - i,
    {
        if s[i] == b {
            proof {
                lemma_position_is(s@, b, i as int);
            }
            return Some(i);
        }
        i = i + 1;
    }
    proof {
        lemma_position(s@, b);
    }
    None
}

/// Whether `s` begins with `prefix`.
pub fn starts_with(s: &str, prefix: &str) -> (r: bool)
    ensures
        r == prefix@.is_prefix_of(s@),
{
    let len = prefix.unicode_len();
    if s.unicode_len() < len {
        return false;
    }
    let mut a = s.chars();
    let mut b = prefix.chars();
    let mut i: usize = 0;
    proof {
        assert(s@.skip(0) =~= s@);
        assert(prefix@.skip(0) =~= prefix@);
    }
    while i < len
        invariant
            len == prefix@.len(),
            len <= s@.len(),
            i <= len,
            vstd::std_specs::iter::IteratorSpec::remaining(&a) == s@.skip(i as int),
            vstd::std_specs::iter::IteratorSpec::remaining(&b) == prefix@.skip(i as int),
            forall|k: int| 0 <= k < i ==> s@[k] == prefix@[k],
        decreases len - i,
    {
        let c = a.next();
        let d = b.next();
        if let Some(x) = c {
            if let Some(y) = d {
                if x != y {
                    assert(s@[i as int] == x && prefix@[i as int] == y);
                    return false;
                }
            }
        }
        proof {
            assert(s@.skip(i as int).drop_first() =~= s@.skip(i as int + 1));
            assert(prefix@.skip(i as int).drop_first() =~= prefix@.skip(i as int + 1));
        }
        i = i + 1;
    }
    assert(s@.take(len as int) =~= prefix@);
    true
}

/// Whether two texts are the same.
pub fn same(a: &str, b: &str) -> (r: bool)
    ensures
        r == (a@ == b@),
{
    let equal = a.unicode_len() == b.unicode_len() && starts_with(a, b);
    assert(a@.len() == b@.len() ==> a@.take(b@.len() as int) =~= a@);
    equal
}

/// A digit of a numeral in a base up to sixteen, in lower case.
pub open spec fn digit(d: nat) -> char {
    if d < 10 {
        (d + 48) as char
    } else {
        (d + 87) as char
    }
}

/// The decimal numeral of a number.
pub open spec fn decimal(n: nat) -> Seq<char>
    decreases n,
{
    if n < 10 {
        seq![digit(n)]
    } else {
        decimal(n / 10).push(digit(n % 10))
    }
}

/// The two-digit hexadecimal numeral of a byte.
pub open spec fn hex_byte(b: u8) -> Seq<char> {
    seq![digit(b as nat / 16), digit(b as nat % 16)]
}

fn digit_char(d: u8) -> (c: char)
    requires
        d < 16,
    ensures
        c == digit(d as nat),
{
    if d < 10 {
        (d + 48) as char
    } else {
        (d + 87) as char
    }
}

/// Appends a decimal numeral.
pub fn push_decimal(s: &mut String, n: usize)
    ensures
        final(s)@ == old(s)@ + decimal(n as nat),
    decreases n,
{
    let ghost before = s@;
    if n >= 10 {
        push_decimal(s, n / 10);
    }
    let last: u8 = (n % 10) as u8;
    s.push(digit_char(last));
    assert(s@ =~= before + decimal(n as nat));
}

/// The decimal numeral of a number that may be negative.
pub open spec fn signed_decimal(n: int) -> Seq<char> {
    if n < 0 {
        seq!['-'] + decimal((-n) as nat)
    } else {
        decimal(n as nat)
    }
}

/// Appends the decimal numeral of a number that may be negative.
pub fn push_signed_decimal(s: &mut String, n: i32)
    ensures
        final(s)@ == old(s)@ + signed_decimal(n as int),
{
    let ghost before = s@;
    let wide: i64 = n as i64;
    if wide < 0 {
        s.push('-');
        push_decimal(s, (-wide) as usize);
    } else {
        push_decimal(s, wide as usize);
    }
    assert(s@ =~= before + signed_decimal(n as int));
}

/// Appends the two-digit hexadecimal numeral of a byte.
pub fn push_hex_byte(s: &mut String, b: u8)
    ensures
        final(s)@ == old(s)@ + hex_byte(b),
{
    let ghost before = s@;
    s.push(digit_char(b / 16));
    s.push(digit_char(b % 16));
    assert(s@ =~= before + hex_byte(b));
}

/// The characters of a text.
pub fn chars(s: &str) -> (r: Vec<char>)
    ensures
        r@ == s@,
{
    let len = s.unicode_len();
    let mut rest = s.chars();
    let mut r: Vec<char> = Vec::new();
    let mut i: usize = 0;
    assert(s@.skip(0) =~= s@);
    while i < len
        invariant
            len == s@.len(),
            i <= len,
            vstd::std_specs::iter::IteratorSpec::remaining(&rest) == s@.skip(i as int),
            r@ == s@.take(i as int),
        decreases len - i,
    {
        let next = rest.next();
        if let Some(c) = next {
            r.push(c);
        }
        proof {
            assert(s@.skip(i as int).drop_first() =~= s@.skip(i as int + 1));
            assert(r@ =~= s@.take(i as int + 1));
        }
        i = i + 1;
    }
    assert(s@.take(len as int) =~= s@);
    r
}

/// The text that characters make up.
pub fn string_of(chars: &[char]) -> (s: String)
    ensures
        s@ == chars@,
{
    let mut s = String::new();
    let mut i: usize = 0;
    assert(s@ =~= chars@.take(0));
    while i < chars.len()
        invariant
            i <= chars@.len(),
            s@ == chars@.take(i as int),
        decreases chars@.len() - i,
    {
        s.push(chars[i]);
        assert(s@ =~= chars@.take(i as int + 1));
        i = i + 1;
    }
    assert(chars@.take(i as int) =~= chars@);
    s
}

/// Finds the first `c` among characters.
pub fn find_among(s: &[char], c: char) -> (r: Option<usize>)
    ensures
        match r {
            Some(i) => position(s@, c) == Some(i as int) && i < s@.len(),
            None => position(s@, c) is None,
        },
{
    let mut i: usize = 0;
    while i < s.len()
        invariant
            i <= s@.len(),
            forall|k: int| 0 <= k < i ==> s@[k] != c,
        decreases s@.len() - i,
    {
        if s[i] == c {
            proof {
                lemma_position_is(s@, c, i as int);
            }
            return Some(i);
        }
        i = i + 1;
    }
    proof {
        lemma_position(s@, c);
    }
    None
}

/// Whether a character is white space, as Unicode has it.
pub open spec fn is_white(c: char) -> bool {
    let n = c as u32;
    ||| 0x09 <= n <= 0x0d
    ||| n == 0x20
    ||| n == 0x85
    ||| n == 0xa0
    ||| n == 0x1680
    ||| 0x2000 <= n <= 0x200a
    ||| n == 0x2028
    ||| n == 0x2029
    ||| n == 0x202f
    ||| n == 0x205f
    ||| n == 0x3000
}

/// Whether a character is white space, as Unicode has it.
pub fn is_whitespace(c: char) -> (r: bool)
    ensures
        r == is_white(c),
{
    let n: u32 = c as u32;
    (n >= 0x09 && n <= 0x0d) || n == 0x20 || n == 0x85 || n == 0xa0 || n == 0x1680 || (n >= 0x2000
        && n <= 0x200a) || n == 0x2028 || n == 0x2029 || n == 0x202f || n == 0x205f || n == 0x3000
}

/// A text without the white space at its beginning.
pub open spec fn trimmed_start(s: Seq<char>) -> Seq<char>
    decreases s.len(),
{
    if s.len() > 0 && is_white(s[0]) {
        trimmed_start(s.drop_first())
    } else {
        s
    }
}

/// A text without the white space at its end.
pub open spec fn trimmed_end(s: Seq<char>) -> Seq<char>
    decreases s.len(),
{
    if s.len() > 0 && is_white(s.last()) {
        trimmed_end(s.drop_last())
    } else {
        s
    }
}

/// A text without the white space at both ends.
pub open spec fn trimmed(s: Seq<char>) -> Seq<char> {
    trimmed_end(trimmed_start(s))
}

/// Takes the white space off both ends.
pub fn trim(s: &[char]) -> (r: &[char])
    ensures
        r@ == trimmed(s@),
{
    let len = s.len();
    let mut from: usize = 0;
    assert(s@.skip(0) =~= s@);
    while from < len && is_whitespace(s[from])
        invariant
            from <= len == s@.len(),
            trimmed_start(s@.skip(from as int)) == trimmed_start(s@),
        decreases len - from,
    {
        assert(s@.skip(from as int).drop_first() =~= s@.skip(from as int + 1));
        from = from + 1;
    }
    let ghost front = trimmed_start(s@);
    let mut to: usize = len;
    assert(s@.subrange(from as int, to as int) =~= s@.skip(from as int));
    while to > from && is_whitespace(s[to - 1])
        invariant
            from <= to <= len == s@.len(),
            trimmed_end(s@.subrange(from as int, to as int)) == trimmed_end(front),
        decreases to,
    {
        assert(s@.subrange(from as int, to as int).drop_last() =~= s@.subrange(
            from as int,
            to - 1,
        ));
        to = to - 1;
    }
    slice_subrange(s, from, to)
}

/// A character in lower case, where it is an ASCII letter.
pub open spec fn lower(c: char) -> char {
    if 'A' <= c <= 'Z' {
        (c as u32 + 32) as char
    } else {
        c
    }
}

fn to_lower(c: char) -> (r: char)
    ensures
        r == lower(c),
{
    if c as u32 >= 65 && c as u32 <= 90 {
        (c as u8 + 32) as char
    } else {
        c
    }
}

/// Whether two texts are the same up to the case of ASCII letters.
pub open spec fn same_but_case(a: Seq<char>, b: Seq<char>) -> bool {
    a.len() == b.len() && forall|i: int| 0 <= i < a.len() ==> lower(a[i]) == lower(#[trigger] b[i])
}

/// Whether two texts are the same up to the case of ASCII letters.
pub fn eq_ignore_ascii_case(a: &[char], b: &[char]) -> (r: bool)
    ensures
        r == same_but_case(a@, b@),
{
    if a.len() != b.len() {
        return false;
    }
    let mut i: usize = 0;
    while i < a.len()
        invariant
            i <= a@.len() == b@.len(),
            forall|k: int| 0 <= k < i ==> lower(a@[k]) == lower(#[trigger] b@[k]),
        decreases a@.len() - i,
    {
        if to_lower(a[i]) != to_lower(b[i]) {
            assert(lower(a@[i as int]) != lower(b@[i as int]));
            return false;
        }
        i = i + 1;
    }
    true
}

/// Whether a text is made of decimal digits.
pub open spec fn all_digits(s: Seq<char>) -> bool {
    forall|i: int| 0 <= i < s.len() ==> 48 <= #[trigger] s[i] as u32 <= 57
}

/// The number that decimal digits denote.
pub open spec fn digits_value(s: Seq<char>) -> nat
    decreases s.len(),
{
    if s.len() == 0 {
        0
    } else {
        10 * digits_value(s.drop_last()) + (s.last() as u32 - 48) as nat
    }
}

/// The number that a numeral denotes: one or more decimal digits, after a plus
/// sign or not. It must fit in memory.
pub open spec fn numeral(s: Seq<char>) -> Option<nat> {
    let digits = if s.len() > 0 && s[0] == '+' {
        s.drop_first()
    } else {
        s
    };
    if digits.len() > 0 && all_digits(digits) && digits_value(digits) <= usize::MAX {
        Some(digits_value(digits))
    } else {
        None
    }
}

/// Reads a numeral.
pub fn parse_usize(s: &[char]) -> (r: Option<usize>)
    ensures
        match r {
            Some(n) => numeral(s@) == Some(n as nat),
            None => numeral(s@) is None,
        },
{
    let len = s.len();
    let start: usize = if len > 0 && s[0] == '+' {
        1
    } else {
        0
    };
    let ghost digits = s@.skip(start as int);
    proof {
        assert(start == 1 ==> digits =~= s@.drop_first());
        assert(start == 0 ==> digits =~= s@);
    }
    if start == len {
        return None;
    }
    let mut n: usize = 0;
    let mut i: usize = start;
    assert(digits.take(0) =~= Seq::<char>::empty());
    while i < len
        invariant
            start <= i <= len == s@.len(),
            digits == s@.skip(start as int),
            n == digits_value(digits.take(i - start)),
            all_digits(digits.take(i - start)),
            numeral(s@) == if digits.len() > 0 && all_digits(digits) && digits_value(digits)
                <= usize::MAX {
                Some(digits_value(digits))
            } else {
                None
            },
        decreases len - i,
    {
        let c: u32 = s[i] as u32;
        let ghost here = digits.take(i - start + 1);
        proof {
            assert(here.drop_last() =~= digits.take(i - start));
            assert(digits[i - start] == s@[i as int]);
        }
        if c < 48 || c > 57 {
            return None;
        }
        let d: usize = (c - 48) as usize;
        assert(here.last() as u32 == c);
        assert(digits_value(here) == 10 * n + d);
        if n > (usize::MAX - d) / 10 {
            proof {
                assert(digits_value(here) > usize::MAX);
                lemma_digits_value_grows(digits, i - start + 1);
            }
            return None;
        }
        n = n * 10 + d;
        i = i + 1;
    }
    assert(digits.take(len - start) =~= digits);
    Some(n)
}

proof fn lemma_digits_value_grows(s: Seq<char>, i: int)
    requires
        0 <= i <= s.len(),
    ensures
        digits_value(s.take(i)) <= digits_value(s),
    decreases s.len() - i,
{
    if i < s.len() {
        lemma_digits_value_grows(s, i + 1);
        assert(s.take(i + 1).drop_last() =~= s.take(i));
    } else {
        assert(s.take(i) =~= s);
    }
}

pub proof fn lemma_digit_char(c: char)
    ensures
        48 <= c as u32 <= 57 ==> '0' <= c <= '9',
{
}

/// The decimal numeral of a number denotes that number.
pub proof fn law_decimal_read_back(n: usize)
    ensures
        numeral(decimal(n as nat)) == Some(n as nat),
{
    lemma_decimal(n as nat);
    assert(48 <= decimal(n as nat)[0] as u32 <= 57);
}

/// A decimal numeral is made of digits that denote the number.
pub proof fn lemma_decimal(n: nat)
    ensures
        decimal(n).len() > 0,
        all_digits(decimal(n)),
        digits_value(decimal(n)) == n,
    decreases n,
{
    if n < 10 {
        assert(seq![digit(n)].drop_last() =~= Seq::<char>::empty());
        assert(digits_value(Seq::<char>::empty()) == 0);
    } else {
        lemma_decimal(n / 10);
        assert(decimal(n).drop_last() =~= decimal(n / 10));
    }
}

/// The encoding of a text is that of its parts.
pub proof fn lemma_encode_concat(a: Seq<char>, b: Seq<char>)
    ensures
        encode_utf8(a + b) == encode_utf8(a) + encode_utf8(b),
    decreases a.len(),
{
    if a.len() == 0 {
        assert(a + b =~= b);
        assert(encode_utf8(a) =~= Seq::<u8>::empty());
    } else {
        lemma_encode_concat(a.drop_first(), b);
        assert((a + b).drop_first() =~= a.drop_first() + b);
    }
}

/// A text whose ends are not white space is trimmed already.
pub proof fn lemma_trimmed(s: Seq<char>)
    requires
        s.len() > 0,
        !is_white(s[0]),
        !is_white(s.last()),
    ensures
        trimmed(s) == s,
{
}

/// The digits are those of hexadecimal numerals, in lower case.
pub proof fn law_digit(d: int)
    requires
        0 <= d < 16,
    ensures
        digit(d as nat) == "0123456789abcdef"@[d],
{
    reveal_strlit("0123456789abcdef");
}

/// A byte is written with two hexadecimal digits, the higher first.
pub proof fn law_hex_byte(high: int, low: int)
    requires
        0 <= high < 16,
        0 <= low < 16,
    ensures
        hex_byte((16 * high + low) as u8) == seq![
            "0123456789abcdef"@[high],
            "0123456789abcdef"@[low],
        ],
{
    law_digit(high);
    law_digit(low);
}

/// A decimal numeral is that of a tenth of the number, followed by the last digit;
/// a number below ten is its digit. A negative number is written behind a minus.
pub proof fn law_decimal(n: nat, d: int)
    requires
        0 <= d < 10,
    ensures
        decimal(d as nat) == seq!["0123456789abcdef"@[d]],
        n > 0 ==> decimal((10 * n + d) as nat) == decimal(n).push("0123456789abcdef"@[d]),
        signed_decimal(n as int) == decimal(n),
        n > 0 ==> signed_decimal(-n) == seq!['-'] + decimal(n),
{
    law_digit(d);
}

/// White space is what Unicode has as such.
pub proof fn law_white_space(c: char)
    ensures
        is_white(c)
            <==> "\u{9}\u{a}\u{b}\u{c}\u{d} \u{85}\u{a0}\u{1680}\u{2000}\u{2001}\u{2002}\u{2003}\u{2004}\u{2005}\u{2006}\u{2007}\u{2008}\u{2009}\u{200a}\u{2028}\u{2029}\u{202f}\u{205f}\u{3000}"@.contains(
        c),
{
    reveal_strlit(
        "\u{9}\u{a}\u{b}\u{c}\u{d} \u{85}\u{a0}\u{1680}\u{2000}\u{2001}\u{2002}\u{2003}\u{2004}\u{2005}\u{2006}\u{2007}\u{2008}\u{2009}\u{200a}\u{2028}\u{2029}\u{202f}\u{205f}\u{3000}",
    );
    let all =
        "\u{9}\u{a}\u{b}\u{c}\u{d} \u{85}\u{a0}\u{1680}\u{2000}\u{2001}\u{2002}\u{2003}\u{2004}\u{2005}\u{2006}\u{2007}\u{2008}\u{2009}\u{200a}\u{2028}\u{2029}\u{202f}\u{205f}\u{3000}"@;
    let n = c as u32;
    assert(all.len() == 25);
    if is_white(c) {
        let i: int = if n <= 0x0d {
            n - 0x09
        } else if n == 0x20 {
            5
        } else if n == 0x85 {
            6
        } else if n == 0xa0 {
            7
        } else if n == 0x1680 {
            8
        } else if n <= 0x200a {
            n - 0x2000 + 9
        } else if n == 0x2028 {
            20
        } else if n == 0x2029 {
            21
        } else if n == 0x202f {
            22
        } else if n == 0x205f {
            23
        } else {
            24
        };
        assert(all[i] == c);
    }
    if all.contains(c) {
        let i = choose|i: int| 0 <= i < 25 && all[i] == c;
        assert(all[i] == c);
    }
}

/// Trimming takes the white space off both ends and leaves what is between, white
/// space inside it too.
pub proof fn law_trimmed(front: Seq<char>, s: Seq<char>, back: Seq<char>)
    requires
        forall|i: int| 0 <= i < front.len() ==> is_white(#[trigger] front[i]),
        forall|i: int| 0 <= i < back.len() ==> is_white(#[trigger] back[i]),
        s.len() > 0 ==> !is_white(s[0]) && !is_white(s.last()),
    ensures
        trimmed(front + s + back) == s,
{
    lemma_trimmed_start(front, s + back);
    assert(front + s + back =~= front + (s + back));
    if s.len() > 0 {
        assert((s + back)[0] == s[0]);
        lemma_trimmed_end(s, back);
    } else {
        assert(s + back =~= back);
        lemma_trimmed_start(back, Seq::empty());
        assert(back + Seq::<char>::empty() =~= back);
        assert(trimmed_start(back) =~= s);
    }
}

proof fn lemma_trimmed_start(front: Seq<char>, s: Seq<char>)
    requires
        forall|i: int| 0 <= i < front.len() ==> is_white(#[trigger] front[i]),
    ensures
        trimmed_start(front + s) == trimmed_start(s),
    decreases front.len(),
{
    if front.len() > 0 {
        assert(is_white(front[0]));
        let rest = front.drop_first();
        assert forall|i: int| 0 <= i < rest.len() implies is_white(#[trigger] rest[i]) by {
            assert(rest[i] == front[i + 1]);
        }
        lemma_trimmed_start(rest, s);
        assert((front + s).drop_first() =~= rest + s);
    } else {
        assert(front + s =~= s);
    }
}

proof fn lemma_trimmed_end(s: Seq<char>, back: Seq<char>)
    requires
        forall|i: int| 0 <= i < back.len() ==> is_white(#[trigger] back[i]),
        s.len() > 0 && !is_white(s.last()),
    ensures
        trimmed_end(s + back) == s,
    decreases back.len(),
{
    if back.len() > 0 {
        assert(is_white(back.last()));
        let rest = back.drop_last();
        assert forall|i: int| 0 <= i < rest.len() implies is_white(#[trigger] rest[i]) by {
            assert(rest[i] == back[i]);
        }
        lemma_trimmed_end(s, rest);
        assert((s + back).drop_last() =~= s + rest);
    } else {
        assert(s + back =~= s);
    }
}

/// A letter and its capital, and no other two characters, are the same but for
/// their case.
pub proof fn law_case(c: char, i: int)
    requires
        0 <= i < 26,
    ensures
        lower("ABCDEFGHIJKLMNOPQRSTUVWXYZ"@[i]) == "abcdefghijklmnopqrstuvwxyz"@[i],
        !"ABCDEFGHIJKLMNOPQRSTUVWXYZ"@.contains(c) ==> lower(c) == c,
{
    reveal_strlit("ABCDEFGHIJKLMNOPQRSTUVWXYZ");
    reveal_strlit("abcdefghijklmnopqrstuvwxyz");
    if 'A' <= c <= 'Z' {
        assert("ABCDEFGHIJKLMNOPQRSTUVWXYZ"@[c as u32 - 65] == c);
    }
}

/// How numerals are read: a digit is its number; a digit behind a numeral makes ten
/// times the number and the digit, as long as that fits in memory; anything else in
/// it makes it none. One plus sign may stand before it, and nothing is no numeral.
pub proof fn law_numeral(s: Seq<char>, c: char, d: int)
    requires
        0 <= d < 10,
    ensures
        numeral(Seq::empty()) is None,
        numeral(seq!['+']) is None,
        numeral(seq!["0123456789"@[d]]) == Some(d as nat),
        s.len() > 0 && s[0] != '+' ==> numeral(seq!['+'] + s) == numeral(s),
        numeral(seq!['+', '+'] + s) is None,
        numeral(s) matches Some(n) ==> numeral(s.push("0123456789"@[d])) == if 10 * n + d
            <= usize::MAX {
            Some((10 * n + d) as nat)
        } else {
            None
        },
        !"0123456789"@.contains(c) && s.len() > 0 ==> numeral(s.push(c)) is None,
        numeral(s) is None && s.len() > 0 && s != seq!['+'] ==> numeral(s.push(c)) is None,
{
    reveal_strlit("0123456789");
    let digits = "0123456789"@;
    let e = digits[d];
    assert(e as u32 == d + 48);
    lemma_one_digit(e, d);
    if s.len() > 0 && s[0] != '+' {
        assert((seq!['+'] + s).drop_first() =~= s);
    }
    let plus = (seq!['+', '+'] + s).drop_first();
    assert(plus[0] == '+');
    assert(!all_digits(plus)) by {
        assert(!(48 <= plus[0] as u32 <= 57));
    }
    let body = if s.len() > 0 && s[0] == '+' {
        s.drop_first()
    } else {
        s
    };
    if s.len() > 0 {
        lemma_pushed_digits(s, body, e);
        lemma_pushed_digits(s, body, c);
        lemma_digit_char(c);
        if 48 <= c as u32 <= 57 {
            assert(digits[c as u32 - 48] == c);
        }
        assert(body.len() == 0 ==> s =~= seq!['+']);
    }
}

proof fn lemma_one_digit(c: char, d: int)
    requires
        0 <= d < 10,
        c as u32 == d + 48,
    ensures
        all_digits(seq![c]),
        digits_value(seq![c]) == d,
        c != '+',
{
    let one = seq![c];
    let none = Seq::<char>::empty();
    assert(one.drop_last() =~= none);
    assert(digits_value(none) == 0);
    assert(one.last() == c);
    assert(digits_value(one) == 10 * digits_value(one.drop_last()) + (one.last() as u32 - 48));
}

proof fn lemma_pushed_digits(s: Seq<char>, body: Seq<char>, c: char)
    requires
        s.len() > 0,
        body == if s[0] == '+' {
            s.drop_first()
        } else {
            s
        },
    ensures
        ({
            let more = body.push(c);
            &&& more == if s.push(c)[0] == '+' {
                s.push(c).drop_first()
            } else {
                s.push(c)
            }
            &&& all_digits(more) <==> all_digits(body) && 48 <= c as u32 <= 57
            &&& 48 <= c as u32 <= 57 ==> digits_value(more) == 10 * digits_value(body) + (c as u32
                - 48)
        }),
{
    let more = body.push(c);
    assert(s[0] == '+' ==> more =~= s.push(c).drop_first());
    assert(more.drop_last() =~= body);
    assert(more.last() == c);
    if all_digits(more) {
        assert forall|i: int| 0 <= i < body.len() implies 48 <= #[trigger] body[i] as u32
            <= 57 by {
            assert(more[i] == body[i]);
        }
        assert(48 <= more[body.len() as int] as u32 <= 57);
    }
}

} // verus!
