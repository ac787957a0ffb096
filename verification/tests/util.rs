use diffo::diff::{make_id, parse_number};
use diffo::util::{hash_hex, join_args, lossy_utf8};

#[test]
fn digests_are_lower_case_hexadecimal() {
    assert_eq!(
        hash_hex(b""),
        "e3b0c44298fc1c149afbf4c8996fb92427ae41e4649b934ca495991b7852b855"
    );
    assert_eq!(
        hash_hex(b"abc"),
        "ba7816bf8f01cfea414140de5dae2223b00361a396177a9cb410ff61f20015ad"
    );
    assert_eq!(make_id("line_", b"abc"), "line_ba7816bf8f01cfea");
}

#[test]
fn bytes_that_are_no_text_are_replaced() {
    assert_eq!(lossy_utf8("文本".as_bytes()), "文本");
    assert_eq!(lossy_utf8(b"a\xffb"), "a\u{fffd}b");
    assert_eq!(lossy_utf8(b"\xe6\x96"), "\u{fffd}");
    assert_eq!(lossy_utf8(b""), "");
}

#[test]
fn arguments_are_joined_and_numbers_are_bounded() {
    let args: Vec<String> = ["HEAD~1", "--", "a b"].iter().map(|s| s.to_string()).collect();
    assert_eq!(join_args(&args), "HEAD~1 -- a b");
    assert_eq!(join_args(&[]), "");
    assert_eq!(parse_number(b"4294967295"), Some(u32::MAX));
    assert_eq!(parse_number(b"4294967296"), None);
    assert_eq!(parse_number(b""), None);
    assert_eq!(parse_number(b"1x"), None);
}
