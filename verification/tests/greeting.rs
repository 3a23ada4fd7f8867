//! Exercises the boundary from the caller's side: the template, lossy
//! decoding of malformed input, the terminator, and the release pairing.

use rust_lib::boundary::{format_greeting, release};
use rust_lib::utf8::decode_lossy;

fn message_string(input: &[u8]) -> String {
    let text = format_greeting(&input.to_vec());
    let bytes = text.into_bytes();
    let (last, body) = bytes.split_last().unwrap();
    assert_eq!(*last, 0u8, "buffer must end in the terminator");
    String::from_utf8(body.to_vec()).unwrap()
}

#[test]
fn it_works() {
    let result = rust_lib::add(2, 2);
    assert_eq!(result, 4);
}

#[test]
fn add_reaches_the_top() {
    assert_eq!(rust_lib::add(u64::MAX - 1, 1), u64::MAX);
}

#[test]
fn greets_world() {
    assert_eq!(
        message_string(b"world"),
        format!("Hello, world! (from Rust \u{1F980})")
    );
}

#[test]
fn greets_empty_input() {
    assert_eq!(
        message_string(b""),
        format!("Hello, ! (from Rust \u{1F980})")
    );
}

#[test]
fn buffer_has_one_zero_byte() {
    let text = format_greeting(&b"world".to_vec());
    let bytes = text.into_bytes();
    assert_eq!(bytes.iter().filter(|&&b| b == 0).count(), 1);
    assert_eq!(*bytes.last().unwrap(), 0u8);
}

#[test]
fn as_bytes_agrees_with_into_bytes() {
    let text = format_greeting(&b"hi".to_vec());
    let copy = text.as_bytes().clone();
    assert_eq!(copy, text.into_bytes());
}

#[test]
fn multibyte_input_kept_verbatim() {
    let input = "h\u{E9}llo \u{1F980}".as_bytes();
    assert_eq!(
        message_string(input),
        format!("Hello, h\u{E9}llo \u{1F980}! (from Rust \u{1F980})")
    );
}

#[test]
fn invalid_byte_becomes_replacement() {
    assert_eq!(
        message_string(&[0xFF, 0x61]),
        format!("Hello, \u{FFFD}a! (from Rust \u{1F980})")
    );
}

#[test]
fn truncated_sequence_becomes_one_mark() {
    // A well-formed prefix of a three-byte sequence, then an ASCII byte:
    // the whole prefix is one maximal subpart, so one mark.
    assert_eq!(
        message_string(&[0xE0, 0xA0, 0x41]),
        format!("Hello, \u{FFFD}A! (from Rust \u{1F980})")
    );
    // A four-byte sequence cut off at the end of the input.
    assert_eq!(
        message_string(&[0xF0, 0x9F, 0xA6]),
        format!("Hello, \u{FFFD}! (from Rust \u{1F980})")
    );
}

#[test]
fn surrogate_bytes_become_three_marks() {
    // 0xED admits only 0x80..=0x9F after it, so each byte here stands alone.
    assert_eq!(
        message_string(&[0xED, 0xA0, 0x80]),
        format!("Hello, \u{FFFD}\u{FFFD}\u{FFFD}! (from Rust \u{1F980})")
    );
}

#[test]
fn decode_agrees_with_std_lossy() {
    let cases: Vec<Vec<u8>> = vec![
        b"plain ascii".to_vec(),
        "\u{E9}\u{3B1}\u{4E16}\u{1F980}".as_bytes().to_vec(),
        vec![0x80],
        vec![0xC0, 0xAF],
        vec![0xC2],
        vec![0xC2, 0x41],
        vec![0xE0, 0x9F, 0x80],
        vec![0xED, 0xA0, 0x80],
        vec![0xEF, 0xBF],
        vec![0xF0, 0x80, 0x80],
        vec![0xF0, 0x9F, 0xA6, 0x80],
        vec![0xF4, 0x90, 0x80, 0x80],
        vec![0xF5, 0xFE, 0xFF],
        vec![0x61, 0xE0, 0xA0, 0x62, 0xF1, 0x80, 0x80, 0x63],
    ];
    for case in cases {
        let ours = decode_lossy(&case);
        let stds = String::from_utf8_lossy(&case);
        assert_eq!(
            ours,
            stds.as_bytes().to_vec(),
            "decoding differs on {:?}",
            case
        );
    }
}

#[test]
fn repeated_calls_are_byte_identical() {
    let input = vec![0x61u8, 0xFF, 0x62];
    let first = format_greeting(&input).into_bytes();
    let second = format_greeting(&input).into_bytes();
    assert_eq!(first, second);
}

#[test]
fn release_takes_a_buffer_back() {
    let text = format_greeting(&b"world".to_vec());
    release(Some(text));
}

#[test]
fn release_of_null_is_a_no_op() {
    release(None);
}
