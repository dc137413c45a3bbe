use inbox_cleanup::mime::{
    decode_b, decode_encoded_word, decode_mime_header, decode_q, decode_rfc2047_words, hex_val,
};

#[test]
fn hex_digits_and_rejects() {
    assert_eq!(hex_val(b'0'), Some(0));
    assert_eq!(hex_val(b'9'), Some(9));
    assert_eq!(hex_val(b'a'), Some(10));
    assert_eq!(hex_val(b'f'), Some(15));
    assert_eq!(hex_val(b'A'), Some(10));
    assert_eq!(hex_val(b'F'), Some(15));
    assert_eq!(hex_val(b'g'), None);
    assert_eq!(hex_val(b'?'), None);
}

#[test]
fn quoted_printable_decoding() {
    assert_eq!(decode_q(&b"a_b".to_vec()), b"a b".to_vec());
    assert_eq!(decode_q(&b"caf=C3=A9".to_vec()), "caf\u{e9}".as_bytes().to_vec());
    // a broken escape passes through
    assert_eq!(decode_q(&b"=G1x".to_vec()), b"=G1x".to_vec());
    // an escape cut off at the end passes through
    assert_eq!(decode_q(&b"ab=4".to_vec()), b"ab=4".to_vec());
}

#[test]
fn base64_decoding_with_fallback() {
    assert_eq!(decode_b(&b"aGk=".to_vec()), b"hi".to_vec());
    // undecodable input passes through unchanged
    assert_eq!(decode_b(&b"!!!".to_vec()), b"!!!".to_vec());
}

#[test]
fn encoded_word_dispatch() {
    assert_eq!(decode_encoded_word(&b"q".to_vec(), &b"a_b".to_vec()), b"a b".to_vec());
    assert_eq!(decode_encoded_word(&b"Q".to_vec(), &b"a_b".to_vec()), b"a b".to_vec());
    assert_eq!(decode_encoded_word(&b"B".to_vec(), &b"aGk=".to_vec()), b"hi".to_vec());
    // an unknown tag passes the payload through
    assert_eq!(decode_encoded_word(&b"x".to_vec(), &b"a_b".to_vec()), b"a_b".to_vec());
}

#[test]
fn header_scanner_replaces_words() {
    let header = b"Re: =?utf-8?q?caf=C3=A9?= meeting".to_vec();
    assert_eq!(decode_mime_header(&header), "Re: caf\u{e9} meeting");

    let twice = b"=?utf-8?q?a_b?= and =?utf-8?B?aGk=?=".to_vec();
    assert_eq!(decode_mime_header(&twice), "a b and hi");

    // an incomplete word marker passes through
    let broken = b"odd =?utf-8?q?unfinished".to_vec();
    assert_eq!(decode_mime_header(&broken), "odd =?utf-8?q?unfinished");

    let plain = b"nothing encoded".to_vec();
    assert_eq!(decode_rfc2047_words(&plain), b"nothing encoded".to_vec());
}
