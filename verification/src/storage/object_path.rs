//! The paths under which objects are stored.
use vstd::prelude::*;
use vstd::string::*;
use vstd::utf8::*;

use crate::text;

verus! {

/// A byte that stands for itself in a path segment: printable ASCII, save for the
/// delimiter and what object stores advise against.
pub open spec fn is_kept(b: u8) -> bool {
    &&& 0x20 <= b < 0x7f
    &&& b != 0x22 && b != 0x23 && b != 0x25 && b != 0x2a && b != 0x2f
    &&& b != 0x3c && b != 0x3e && b != 0x3f
    &&& b != 0x5b && b != 0x5c && b != 0x5d && b != 0x5e && b != 0x60
    &&& b != 0x7b && b != 0x7c && b != 0x7d && b != 0x7e
}

/// A hexadecimal digit in upper case.
pub open spec fn upper_digit(d: nat) -> char {
    if d < 10 {
        (d + 48) as char
    } else {
        (d + 55) as char
    }
}

/// Bytes as they stand in a path segment: those that are not kept are
/// percent-encoded.
pub open spec fn percent_encoded(bytes: Seq<u8>) -> Seq<char>
    decreases bytes.len(),
{
    if bytes.len() == 0 {
        Seq::empty()
    } else {
        let b = bytes.last();
        percent_encoded(bytes.drop_last()) + if is_kept(b) {
            seq![b as char]
        } else {
            seq!['%', upper_digit(b as nat / 16), upper_digit(b as nat % 16)]
        }
    }
}

/// A text as a path segment. The segments that mean "here" and "up" elsewhere are
/// encoded too.
pub open spec fn segment(text: Seq<char>) -> Seq<char> {
    if text == "."@ {
        "%2E"@
    } else if text == ".."@ {
        "%2E%2E"@
    } else {
        percent_encoded(encode_utf8(text))
    }
}

/// A path in front of another; an empty one makes no difference.
pub open spec fn joined(a: Seq<char>, b: Seq<char>) -> Seq<char> {
    if a.len() == 0 {
        b
    } else if b.len() == 0 {
        a
    } else {
        a + seq!['/'] + b
    }
}

/// The path that stands for a text in an object store: the segments between
/// slashes, those that are empty left out.
pub open spec fn object_path(text: Seq<char>) -> Seq<char>
    decreases text.len(),
    via object_path_decreases
{
    match text::position(text, '/') {
        None => segment(text),
        Some(i) => joined(segment(text.take(i)), object_path(text.skip(i + 1))),
    }
}

#[via_fn]
proof fn object_path_decreases(text: Seq<char>) {
    text::lemma_position(text, '/');
}

/// `object_store::path::Path::from`: the path that stands for a text in an object
/// store. The text is split at its slashes, each segment is percent-encoded where
/// it holds what could cause trouble, and empty segments are dropped.
#[verifier::external_body]
pub(crate) fn path_of(text: &str) -> (path: String)
    ensures
        path@ == object_path(text@),
{
    object_store::path::Path::from(text).to_string()
}

/// A character that stands for itself in a path segment and is no delimiter.
pub open spec fn is_plain_char(c: char) -> bool {
    ||| '0' <= c <= '9'
    ||| 'A' <= c <= 'Z'
    ||| 'a' <= c <= 'z'
    ||| c == '-'
    ||| c == '_'
    ||| c == '.'
}

/// A path whose segments are made of plain characters, are not empty and do not
/// begin with a dot.
pub open spec fn is_plain_path(text: Seq<char>) -> bool {
    &&& text.len() > 0
    &&& text.last() != '/'
    &&& forall|i: int|
        0 <= i < text.len() ==> (#[trigger] text[i] == '/' || is_plain_char(text[i]))
    &&& forall|i: int|
        0 <= i < text.len() && (i == 0 || text[i - 1] == '/') ==> #[trigger] text[i] != '/'
            && text[i] != '.'
}

proof fn lemma_kept(bytes: Seq<u8>, text: Seq<char>)
    requires
        bytes.len() == text.len(),
        forall|i: int|
            0 <= i < bytes.len() ==> is_kept(#[trigger] bytes[i]) && bytes[i] as char == text[i],
    ensures
        percent_encoded(bytes) == text,
    decreases bytes.len(),
{
    if bytes.len() > 0 {
        let last = bytes.len() - 1;
        assert(is_kept(bytes[last]));
        lemma_kept(bytes.drop_last(), text.drop_last());
        assert(text =~= text.drop_last() + seq![text.last()]);
    } else {
        assert(text =~= Seq::<char>::empty());
    }
}

proof fn lemma_plain_byte(c: char)
    ensures
        is_plain_char(c) ==> '\0' <= c <= '\u{7f}' && is_kept(c as u8) && c as u8 as char == c,
{
}

proof fn lemma_plain_segment(text: Seq<char>)
    requires
        text.len() > 0,
        text[0] != '.',
        forall|i: int| 0 <= i < text.len() ==> is_plain_char(#[trigger] text[i]),
    ensures
        segment(text) == text,
{
    reveal_strlit(".");
    reveal_strlit("..");
    assert forall|i: int| 0 <= i < text.len() implies '\0' <= #[trigger] text[i] <= '\u{7f}' by {
        lemma_plain_byte(text[i]);
    }
    is_ascii_chars_encode_utf8(text);
    let bytes = encode_utf8(text);
    assert forall|i: int| 0 <= i < bytes.len() implies is_kept(#[trigger] bytes[i])
        && bytes[i] as char == text[i] by {
        assert(bytes[i] == text[i] as u8);
        lemma_plain_byte(text[i]);
    }
    lemma_kept(bytes, text);
}

/// A plain path stands for itself.
#[verifier::spinoff_prover]
#[verifier::rlimit(60)]
pub proof fn law_plain_path_stands_for_itself(text: Seq<char>)
    requires
        is_plain_path(text),
    ensures
        object_path(text) == text,
    decreases text.len(),
{
    text::lemma_position(text, '/');
    match text::position(text, '/') {
        None => {
            lemma_plain_segment(text);
        },
        Some(i) => {
            let first = text.take(i);
            let rest = text.skip(i + 1);
            assert(text[0] != '/');
            lemma_plain_segment(first);
            assert(text[i] == '/');
            assert forall|k: int| 0 <= k < rest.len() implies (#[trigger] rest[k] == '/'
                || is_plain_char(rest[k])) by {
                assert(rest[k] == text[k + i + 1]);
            }
            assert forall|k: int|
                0 <= k < rest.len() && (k == 0 || rest[k - 1] == '/') implies #[trigger] rest[k]
                != '/' && rest[k] != '.' by {
                assert(rest[k] == text[k + i + 1]);
                assert(k > 0 ==> rest[k - 1] == text[k + i]);
            }
            law_plain_path_stands_for_itself(rest);
            assert(text =~= first + seq!['/'] + rest);
        },
    }
}

/// A byte is kept where it is printable ASCII and none of the characters that paths
/// are kept free of; any other is written as a percent sign and its two hexadecimal
/// digits, in upper case. Bytes are encoded one by one.
pub proof fn law_percent_encoding(bytes: Seq<u8>, b: u8)
    ensures
        is_kept(b) <==> ' ' <= b as char <= '~' && !"\"#%*/<>?[\\]^`{|}~"@.contains(b as char),
        percent_encoded(bytes.push(b)) == percent_encoded(bytes) + if is_kept(b) {
            seq![b as char]
        } else {
            seq![
                '%',
                "0123456789ABCDEF"@[b as int / 16],
                "0123456789ABCDEF"@[b as int % 16],
            ]
        },
{
    reveal_strlit("\"#%*/<>?[\\]^`{|}~");
    reveal_strlit("0123456789ABCDEF");
    let barred = "\"#%*/<>?[\\]^`{|}~"@;
    assert(barred.len() == 17);
    assert(bytes.push(b).drop_last() =~= bytes);
    if 0x20 <= b < 0x7f && !is_kept(b) {
        assert(barred[0] == '"' && barred[1] == '#' && barred[2] == '%' && barred[3] == '*'
            && barred[4] == '/' && barred[5] == '<' && barred[6] == '>' && barred[7] == '?'
            && barred[8] == '[' && barred[9] == '\\' && barred[10] == ']' && barred[11] == '^'
            && barred[12] == '`' && barred[13] == '{' && barred[14] == '|' && barred[15] == '}'
            && barred[16] == '~');
    }
    if barred.contains(b as char) {
        let i = choose|i: int| 0 <= i < 17 && barred[i] == b as char;
        assert(barred[i] == b as char);
    }
}

/// Slashes at the beginning, and all but one between two segments, make no
/// difference; two segments that are not empty stay apart by one.
pub proof fn law_empty_segments_are_dropped(name: Seq<char>, rest: Seq<char>)
    requires
        name.len() > 0,
        !name.contains('/'),
    ensures
        object_path(seq!['/'] + rest) == object_path(rest),
        object_path(name + seq!['/'] + (seq!['/'] + rest)) == object_path(name + seq!['/'] + rest),
        object_path(name + seq!['/']) == object_path(name),
{
    let none = Seq::<char>::empty();
    lemma_empty_segment();
    let led = seq!['/'] + rest;
    text::lemma_position_is(led, '/', 0);
    assert(led.take(0) =~= none);
    assert(led.skip(1) =~= rest);
    lemma_first_segment(name, led);
    lemma_first_segment(name, rest);
    lemma_first_segment(name, none);
    assert(name + seq!['/'] + none =~= name + seq!['/']);
    assert(object_path(none) == segment(none));
    text::lemma_position(name, '/');
    if text::position(name, '/') is Some {
        assert(name.contains(name[text::position(name, '/')->0]));
    }
}

proof fn lemma_empty_segment()
    ensures
        segment(Seq::empty()).len() == 0,
{
    reveal_strlit(".");
    reveal_strlit("..");
    assert(encode_utf8(Seq::<char>::empty()) =~= Seq::<u8>::empty());
}

proof fn lemma_first_segment(name: Seq<char>, rest: Seq<char>)
    requires
        !name.contains('/'),
    ensures
        object_path(name + seq!['/'] + rest) == joined(segment(name), object_path(rest)),
{
    let all = name + seq!['/'] + rest;
    let n = name.len() as int;
    assert forall|k: int| 0 <= k < n implies all[k] != '/' by {
        assert(all[k] == name[k]);
        assert(name.contains(name[k]));
    }
    text::lemma_position_is(all, '/', n);
    assert(all.take(n) =~= name);
    assert(all.skip(n + 1) =~= rest);
}

/// No segment means "here" or "up", whatever it stands for, and none holds a slash.
pub proof fn law_segments_are_harmless(text: Seq<char>)
    ensures
        segment(text) != "."@,
        segment(text) != ".."@,
        !segment(text).contains('/'),
        segment("."@) == "%2E"@,
        segment(".."@) == "%2E%2E"@,
{
    reveal_strlit(".");
    reveal_strlit("..");
    reveal_strlit("%2E");
    reveal_strlit("%2E%2E");
    assert("."@ != ".."@) by {
        assert("."@.len() != ".."@.len());
    }
    let bytes = encode_utf8(text);
    lemma_encoded_chars(bytes);
    assert(is_ascii_chars("."@));
    assert(is_ascii_chars(".."@));
    is_ascii_chars_encode_utf8("."@);
    is_ascii_chars_encode_utf8(".."@);
    encode_utf8_decode_utf8("."@);
    encode_utf8_decode_utf8(".."@);
    encode_utf8_decode_utf8(text);
    if percent_encoded(bytes) == "."@ {
        lemma_encoded_dots(bytes, 1);
        assert(bytes =~= encode_utf8("."@));
    }
    if percent_encoded(bytes) == ".."@ {
        lemma_encoded_dots(bytes, 2);
        assert(bytes =~= encode_utf8(".."@));
    }
}

proof fn lemma_encoded_chars(bytes: Seq<u8>)
    ensures
        !percent_encoded(bytes).contains('/'),
        percent_encoded(bytes).len() >= bytes.len(),
    decreases bytes.len(),
{
    if bytes.len() > 0 {
        lemma_encoded_chars(bytes.drop_last());
        let front = percent_encoded(bytes.drop_last());
        let whole = percent_encoded(bytes);
        assert forall|i: int| 0 <= i < whole.len() implies whole[i] != '/' by {
            if i < front.len() {
                assert(whole[i] == front[i]);
                assert(front.contains(front[i]));
            }
        }
    }
}

proof fn lemma_encoded_dots(bytes: Seq<u8>, n: int)
    requires
        0 <= n <= 2,
        percent_encoded(bytes).len() == n,
        forall|i: int| 0 <= i < n ==> #[trigger] percent_encoded(bytes)[i] == '.',
    ensures
        bytes.len() == n,
        forall|i: int| 0 <= i < n ==> #[trigger] bytes[i] == 0x2e,
    decreases n,
{
    if bytes.len() > 0 {
        let front = bytes.drop_last();
        let whole = percent_encoded(bytes);
        assert(whole[n - 1] == '.');
        assert(is_kept(bytes.last()));
        assert(whole[n - 1] == bytes.last() as char);
        assert forall|i: int| 0 <= i < n - 1 implies #[trigger] percent_encoded(front)[i]
            == '.' by {
            assert(whole[i] == percent_encoded(front)[i]);
        }
        lemma_encoded_dots(front, n - 1);
        assert forall|i: int| 0 <= i < n implies #[trigger] bytes[i] == 0x2e by {
            if i < n - 1 {
                assert(front[i] == bytes[i]);
            }
        }
    }
}

} // verus!
