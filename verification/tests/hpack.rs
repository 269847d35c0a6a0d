use vortex::network::hpack::{decode_integer, decode_string, find_path_header, skip_string};
use vortex::network::huffman::{huffman_decode, HuffmanTree, HUFFMAN_TABLE};

// -- Huffman encode helper (for building test vectors) -------------------

fn huffman_encode(input: &[u8]) -> Vec<u8> {
    let mut bits: u64 = 0;
    let mut bit_count: u32 = 0;
    let mut out = Vec::new();

    for &byte in input {
        let (code, len) = HUFFMAN_TABLE[byte as usize];
        bits = (bits << len) | code as u64;
        bit_count += len as u32;
        while bit_count >= 8 {
            bit_count -= 8;
            out.push((bits >> bit_count) as u8);
            bits &= (1u64 << bit_count) - 1;
        }
    }
    // Pad remaining bits with 1s (EOS prefix).
    if bit_count > 0 {
        let pad = 8 - bit_count;
        bits = (bits << pad) | ((1u64 << pad) - 1);
        out.push(bits as u8);
    }
    out
}

/// Build an HPACK string literal (§5.2).
fn hpack_string(value: &[u8], use_huffman: bool) -> Vec<u8> {
    let encoded = if use_huffman {
        huffman_encode(value)
    } else {
        value.to_vec()
    };
    let mut out = Vec::new();
    let len = encoded.len();
    assert!(len < 127, "test helper only handles short strings");
    out.push(if use_huffman { 0x80 | len as u8 } else { len as u8 });
    out.extend_from_slice(&encoded);
    out
}

// -- decode_integer -----------------------------------------------------

#[test]
fn integer_single_byte() {
    // Value 10 with 5-bit prefix: fits in one byte (10 < 31).
    let buf = [0b0000_1010];
    let (val, consumed) = decode_integer(&buf, 5).unwrap();
    assert_eq!(val, 10);
    assert_eq!(consumed, 1);
}

#[test]
fn integer_multi_byte() {
    // RFC 7541 §C.1.3: encoding 1337 with 5-bit prefix.
    // 31 + 1306 = 1337.  1306 = 0x51a
    // Encoding: prefix byte 0x1f, then 0x9a (154-128=26, continue), 0x0a (10, stop).
    // 26 + 10*128 = 26 + 1280 = 1306. 1306 + 31 = 1337. ✓
    let buf = [0x1f, 0x9a, 0x0a];
    let (val, consumed) = decode_integer(&buf, 5).unwrap();
    assert_eq!(val, 1337);
    assert_eq!(consumed, 3);
}

#[test]
fn integer_with_6bit_prefix() {
    // Value 4 with 6-bit prefix: 0x44 & 0x3f = 4.
    let buf = [0x44];
    let (val, consumed) = decode_integer(&buf, 6).unwrap();
    assert_eq!(val, 4);
    assert_eq!(consumed, 1);
}

#[test]
fn integer_prefix_boundary() {
    // The largest value that fits in the prefix, and the next one.
    assert_eq!(decode_integer(&[0x1e], 5), Ok((30, 1)));
    assert_eq!(decode_integer(&[0x1f, 0x00], 5), Ok((31, 2)));
    assert_eq!(decode_integer(&[0xff, 0x01], 8), Ok((256, 2)));
}

#[test]
fn integer_errors() {
    assert!(decode_integer(&[], 5).is_err());
    assert!(decode_integer(&[0x1f], 5).is_err());
    assert!(decode_integer(&[0x1f, 0x80], 5).is_err());
    let endless = [0xffu8; 16];
    assert!(decode_integer(&endless, 5).is_err());
}

// -- huffman_decode / huffman_encode roundtrip ---------------------------

#[test]
fn huffman_roundtrip_ascii() {
    let input = b"/mypackage.MyService/DoThing";
    let encoded = huffman_encode(input);
    let decoded = huffman_decode(&encoded).unwrap();
    assert_eq!(decoded, input);
}

#[test]
fn huffman_roundtrip_short() {
    let input = b"/";
    let encoded = huffman_encode(input);
    let decoded = huffman_decode(&encoded).unwrap();
    assert_eq!(decoded, input);
}

#[test]
fn huffman_roundtrip_www_example_com() {
    // RFC 7541 §C.4.1 encodes "www.example.com" as:
    let expected_encoded: &[u8] = &[
        0xf1, 0xe3, 0xc2, 0xe5, 0xf2, 0x3a, 0x6b, 0xa0, 0xab, 0x90, 0xf4, 0xff,
    ];
    let encoded = huffman_encode(b"www.example.com");
    assert_eq!(encoded, expected_encoded);
    let decoded = huffman_decode(expected_encoded).unwrap();
    assert_eq!(decoded, b"www.example.com");
}

#[test]
fn huffman_roundtrip_every_byte() {
    let input: Vec<u8> = (0u16..256).map(|b| b as u8).collect();
    let tree = HuffmanTree::build();
    for &b in &input {
        assert_eq!(tree.decode(&huffman_encode(&[b])), Ok(vec![b]));
    }
    assert_eq!(huffman_decode(&huffman_encode(&input)), Ok(input));
}

#[test]
fn huffman_curly_brace() {
    // RFC 7541 Appendix B: '{' is 0x7ffe in 15 bits.
    assert_eq!(HUFFMAN_TABLE[b'{' as usize], (0x7ffe, 15));
    assert_eq!(huffman_decode(&[0xff, 0xfd]), Ok(b"{".to_vec()));
}

#[test]
fn huffman_errors() {
    // 30 ones are the end-of-string symbol, which must not occur.
    assert_eq!(
        huffman_decode(&[0xff, 0xff, 0xff, 0xff]),
        Err("unexpected EOS in huffman stream"),
    );
    // A whole byte of ones is more padding than there may be.
    assert_eq!(huffman_decode(&[0xff]), Err("invalid huffman padding length"));
    // 'a' is 00011; the padding must be ones.
    assert_eq!(huffman_decode(&[0b0001_1111]), Ok(b"a".to_vec()));
    assert_eq!(huffman_decode(&[0b0001_1011]), Err("invalid huffman padding"));
    assert_eq!(huffman_decode(&[]), Ok(Vec::new()));
}

// -- decode_string ------------------------------------------------------

#[test]
fn string_plain() {
    let mut buf = vec![0x05]; // length 5, no Huffman
    buf.extend_from_slice(b"hello");
    let (val, consumed) = decode_string(&buf).unwrap();
    assert_eq!(val, b"hello");
    assert_eq!(consumed, 6);
}

#[test]
fn string_huffman() {
    let encoded_str = huffman_encode(b"/test");
    let mut buf = vec![0x80 | encoded_str.len() as u8]; // Huffman flag set
    buf.extend_from_slice(&encoded_str);
    let (val, consumed) = decode_string(&buf).unwrap();
    assert_eq!(val, b"/test");
    assert_eq!(consumed, buf.len());
}

#[test]
fn string_skipped_as_decoded() {
    let mut buf = hpack_string(b"/some/path", true);
    buf.push(0x84);
    let (_, consumed) = decode_string(&buf).unwrap();
    assert_eq!(skip_string(&buf), Ok(consumed));
    assert_eq!(consumed, buf.len() - 1);
}

#[test]
fn string_errors() {
    assert!(decode_string(&[]).is_err());
    assert!(decode_string(&[0x05, b'h']).is_err());
    assert!(skip_string(&[]).is_err());
    assert!(skip_string(&[0x05, b'h']).is_err());
    assert!(decode_string(&[0x81, 0xff]).is_err());
    // What is skipped is not decoded.
    assert_eq!(skip_string(&[0x81, 0xff]), Ok(2));
}

// -- find_path_header ---------------------------------------------------

#[test]
fn path_from_indexed_static_4() {
    // Indexed representation: index 4 = :path /
    let block = [0x84]; // 0x80 | 4
    assert_eq!(find_path_header(&block).unwrap(), "/");
}

#[test]
fn path_from_indexed_static_5() {
    // Indexed representation: index 5 = :path /index.html
    let block = [0x85]; // 0x80 | 5
    assert_eq!(find_path_header(&block).unwrap(), "/index.html");
}

#[test]
fn path_literal_incremental_plain() {
    // :method POST (indexed 3), then :path literal incremental with plain string
    let path = b"/pkg.Svc/Method";
    let mut block = vec![0x83]; // indexed :method POST
    block.push(0x44); // literal incremental, name index = 4 (:path)
    block.push(path.len() as u8); // plain string length
    block.extend_from_slice(path);
    assert_eq!(find_path_header(&block).unwrap(), "/pkg.Svc/Method");
}

#[test]
fn path_literal_incremental_huffman() {
    let path = b"/mypackage.MyService/DoThing";
    let mut block = vec![0x83]; // indexed :method POST
    block.push(0x44); // literal incremental, name index = 4
    block.extend_from_slice(&hpack_string(path, true));
    assert_eq!(find_path_header(&block).unwrap(), "/mypackage.MyService/DoThing");
}

#[test]
fn path_literal_without_indexing() {
    // §6.2.2: 0000xxxx prefix, name index = 4
    let path = b"/no-index/path";
    let mut block = vec![0x04]; // literal without indexing, name index = 4
    block.extend_from_slice(&hpack_string(path, false));
    assert_eq!(find_path_header(&block).unwrap(), "/no-index/path");
}

#[test]
fn path_literal_never_indexed() {
    // §6.2.3: 0001xxxx prefix, name index = 4
    let path = b"/never-indexed/path";
    let mut block = vec![0x14]; // literal never indexed, name index = 4
    block.extend_from_slice(&hpack_string(path, false));
    assert_eq!(find_path_header(&block).unwrap(), "/never-indexed/path");
}

#[test]
fn path_not_found() {
    // Header block with :method and :scheme but no :path.
    let block = [0x82, 0x86]; // :method GET, :scheme http
    assert!(find_path_header(&block).is_err());
}

#[test]
fn path_after_dynamic_table_size_update() {
    // §6.3 dynamic table size update (001xxxxx), new max = 0
    let mut block = vec![0x20]; // size update, new max = 0
    block.push(0x84); // indexed :path /
    assert_eq!(find_path_header(&block).unwrap(), "/");
}

#[test]
fn rfc_c41_first_request() {
    // RFC 7541 §C.4.1 — first request on the connection.
    let block: &[u8] = &[
        0x82, 0x86, 0x84, 0x41, 0x8c, 0xf1, 0xe3, 0xc2, 0xe5, 0xf2, 0x3a, 0x6b, 0xa0, 0xab,
        0x90, 0xf4, 0xff,
    ];
    assert_eq!(find_path_header(block).unwrap(), "/");
}

#[test]
fn path_after_literal_with_new_name() {
    // A literal whose name is a string: both strings are skipped.
    let mut block = vec![0x40];
    block.extend_from_slice(&hpack_string(b"x-custom", false));
    block.extend_from_slice(&hpack_string(b"value", true));
    block.push(0x84);
    assert_eq!(find_path_header(&block).unwrap(), "/");
}

#[test]
fn path_block_errors() {
    assert_eq!(find_path_header(&[]), Err(":path header not found in header block"));
    // The value of the path is cut off.
    assert!(find_path_header(&[0x44, 0x05, b'/']).is_err());
    // The value of the path is not UTF-8.
    assert!(find_path_header(&[0x44, 0x01, 0xff]).is_err());
    // The index is cut off.
    assert!(find_path_header(&[0xff]).is_err());
}

// -- what holds of all inputs ----------------------------------------------

fn encode_integer(value: usize, prefix_bits: u32, high: u8) -> Vec<u8> {
    let limit = 1usize << prefix_bits;
    let high = (high as usize) << prefix_bits;
    if value < limit - 1 {
        return vec![(high + value) as u8];
    }
    let mut out = vec![(high + limit - 1) as u8];
    let mut rest = value - (limit - 1);
    while rest >= 0x80 {
        out.push((rest % 0x80 + 0x80) as u8);
        rest /= 0x80;
    }
    out.push(rest as u8);
    out
}

#[test]
fn integers_come_back() {
    for value in [0, 1, 30, 31, 127, 128, 255, 1337, 65536, 0x7_ffff_ffff] {
        for prefix_bits in 1..8u8 {
            let mut buf = encode_integer(value, prefix_bits as u32, 1);
            let len = buf.len();
            assert_eq!(decode_integer(&buf, prefix_bits), Ok((value, len)));
            // What follows does not change it.
            buf.extend_from_slice(&[0xff, 0x00]);
            assert_eq!(decode_integer(&buf, prefix_bits), Ok((value, len)));
        }
    }
}

#[test]
fn integer_of_five_continuation_bytes() {
    assert_eq!(
        decode_integer(&[0x1f, 0xff, 0xff, 0xff, 0xff, 0x7f], 5),
        Ok((31 + 0x7_ffff_ffff, 6)),
    );
    assert_eq!(
        decode_integer(&[0x1f, 0x80, 0x80, 0x80, 0x80, 0x80, 0x00], 5),
        Err("hpack integer overflow"),
    );
}

#[test]
fn huffman_text_is_encoded_in_one_way() {
    for data in [&[0x00u8][..], &[0xf1, 0xe3, 0xc2], &[0x60, 0xd5, 0x48, 0x5f], &[0xff, 0xc7]] {
        if let Ok(text) = huffman_decode(data) {
            assert_eq!(huffman_encode(&text), data);
        }
    }
}

// -- every way to name the path ----------------------------------------------

#[test]
fn path_literal_named_by_the_other_index() {
    for first in [0x45, 0x05, 0x15] {
        assert_eq!(find_path_header(&[first, 0x02, b'/', b'a']).unwrap(), "/a");
    }
}

#[test]
fn path_literal_with_its_name_spelled_out() {
    for first in [0x40, 0x00, 0x10] {
        for huffman in [false, true] {
            let mut block = vec![first];
            block.extend_from_slice(&hpack_string(b":path", huffman));
            block.extend_from_slice(&[0x02, b'/', b'a']);
            assert_eq!(find_path_header(&block).unwrap(), "/a");
        }
    }
}

#[test]
fn path_is_not_what_is_named_alike() {
    for name in [&b":pat"[..], b":paths", b"path", b""] {
        let mut block = vec![0x40];
        block.extend_from_slice(&hpack_string(name, false));
        block.extend_from_slice(&[0x02, b'/', b'a']);
        assert!(find_path_header(&block).is_err());
        block.push(0x85);
        assert_eq!(find_path_header(&block).unwrap(), "/index.html");
    }
    // A name that cannot be decoded is not the path.
    assert_eq!(find_path_header(&[0x40, 0x81, 0xff, 0x00, 0x84]).unwrap(), "/");
}

#[test]
fn path_is_the_first_there_is() {
    let spelled = b"\x40\x05:path\x02/a";
    let fields: [(&[u8], Option<&str>); 5] = [
        (&[0x84], Some("/")),
        (&[0x45, 0x02, b'/', b'b'], Some("/b")),
        (spelled, Some("/a")),
        (&[0x82], None),
        (&[0x20], None),
    ];
    for (a, x) in fields {
        for (b, y) in fields {
            for (c, z) in fields {
                let block = [a, b, c].concat();
                let expected = x.or(y).or(z);
                assert_eq!(find_path_header(&block).ok().as_deref(), expected);
            }
        }
    }
    // A path that cannot be decoded decides too.
    assert!(find_path_header(&[0x44, 0x01, 0xff, 0x84]).is_err());
}

#[test]
fn string_literals_whole_and_cut() {
    for huffman in [false, true] {
        let raw = b"/some/longer/path/to/see";
        let literal = hpack_string(raw, huffman);
        let mut buf = literal.clone();
        buf.extend_from_slice(b"more");
        assert_eq!(decode_string(&buf), Ok((raw.to_vec(), literal.len())));
        for len in 0..literal.len() {
            assert!(decode_string(&literal[..len]).is_err());
        }
    }
    let mut long = encode_integer(300, 7, 0);
    long.extend_from_slice(&[7u8; 300]);
    assert_eq!(decode_string(&long), Ok((vec![7u8; 300], long.len())));
    assert!(decode_string(&long[..1]).is_err());
    assert!(decode_string(&long[..long.len() - 1]).is_err());
}
