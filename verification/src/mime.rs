//! Decoding of encoded words in mail headers: the quoted-printable
//! ("Q") and base64 ("B") encodings, and the scanner that replaces
//! every `=?charset?enc?text?=` word of a header with its decoded
//! bytes.

use vstd::prelude::*;

use base64::Engine;

verus! {

/// ASCII bytes the decoder inspects.
pub const DIGIT_LO: u8 = 48;

pub const DIGIT_HI: u8 = 57;

pub const HEX_A_LC: u8 = 97;

pub const HEX_F_LC: u8 = 102;

pub const HEX_A_UC: u8 = 65;

pub const HEX_F_UC: u8 = 70;

pub const UNDERSCORE: u8 = 95;

pub const EQUALS_SIGN: u8 = 61;

pub const QUESTION_MARK: u8 = 63;

pub const SPACE: u8 = 32;

pub const LETTER_Q_LC: u8 = 113;

pub const LETTER_Q_UC: u8 = 81;

pub const LETTER_B_LC: u8 = 98;

pub const LETTER_B_UC: u8 = 66;


/// What the base64 crate's standard-alphabet decoder returns: a
/// function of the input bytes alone.
pub uninterp spec fn b64_decode_of(s: Seq<u8>) -> Option<Seq<u8>>;

/// Relies on `base64::engine::general_purpose::STANDARD`: decoding is
/// a function of the input bytes alone.
#[verifier::external_body]
fn base64_decode(s: &Vec<u8>) -> (r: Option<Vec<u8>>)
    ensures
        match r {
            Some(v) => b64_decode_of(s@) == Some(v@),
            None => b64_decode_of(s@) is None,
        },
{
    match base64::engine::general_purpose::STANDARD.decode(s.as_slice()) {
        Ok(v) => Some(v),
        Err(_) => None,
    }
}

/// What the lossy UTF-8 reading of a byte string is, as computed by
/// `String::from_utf8_lossy`: a function of the bytes alone.
pub uninterp spec fn utf8_lossy_of(s: Seq<u8>) -> Seq<char>;

/// Relies on `String::from_utf8_lossy`: the result depends on the
/// bytes alone, and empty input stays empty.
#[verifier::external_body]
pub(crate) fn utf8_lossy(s: &Vec<u8>) -> (r: String)
    ensures
        r@ == utf8_lossy_of(s@),
        s@.len() == 0 ==> r@.len() == 0,
{
    String::from_utf8_lossy(s.as_slice()).to_string()
}

/// The value of one hexadecimal digit, if the byte is one.
pub open spec fn hex_val_spec(b: u8) -> Option<u8> {
    if DIGIT_LO <= b <= DIGIT_HI {
        Some((b - DIGIT_LO) as u8)
    } else if HEX_A_LC <= b <= HEX_F_LC {
        Some((b - HEX_A_LC + 10) as u8)
    } else if HEX_A_UC <= b <= HEX_F_UC {
        Some((b - HEX_A_UC + 10) as u8)
    } else {
        None
    }
}

/// The value of one hexadecimal digit, if the byte is one.
pub fn hex_val(byte: u8) -> (r: Option<u8>)
    ensures
        r == hex_val_spec(byte),
{
    if DIGIT_LO <= byte && byte <= DIGIT_HI {
        Some(byte - DIGIT_LO)
    } else if HEX_A_LC <= byte && byte <= HEX_F_LC {
        Some(byte - HEX_A_LC + 10)
    } else if HEX_A_UC <= byte && byte <= HEX_F_UC {
        Some(byte - HEX_A_UC + 10)
    } else {
        None
    }
}

/// Quoted-printable decoding of an encoded word: `_` is a space, `=XY`
/// with two hex digits is the byte `XY`, everything else passes
/// through.
pub open spec fn decode_q_spec(s: Seq<u8>) -> Seq<u8>
    decreases s.len(),
{
    if s.len() == 0 {
        Seq::empty()
    } else if s[0] == UNDERSCORE {
        seq![SPACE] + decode_q_spec(s.skip(1))
    } else if s[0] == EQUALS_SIGN && s.len() > 2 && hex_val_spec(s[1]) is Some && hex_val_spec(
        s[2],
    ) is Some {
        seq![((hex_val_spec(s[1]).unwrap() * 16) + hex_val_spec(s[2]).unwrap()) as u8]
            + decode_q_spec(s.skip(3))
    } else {
        seq![s[0]] + decode_q_spec(s.skip(1))
    }
}

/// Quoted-printable decoding of an encoded word.
pub fn decode_q(encoded: &Vec<u8>) -> (out: Vec<u8>)
    ensures
        out@ == decode_q_spec(encoded@),
{
    let s = encoded;
    let mut out: Vec<u8> = Vec::new();
    let mut i: usize = 0;
    proof {
        assert(encoded@.skip(0) =~= encoded@);
    }
    while i < s.len()
        invariant
            i <= s@.len(),
            s@ == encoded@,
            decode_q_spec(encoded@) == out@ + decode_q_spec(s@.skip(i as int)),
        decreases s@.len() - i,
    {
        let ghost rest = s@.skip(i as int);
        proof {
            assert(rest.len() == s@.len() - i);
            assert(forall|k: int| 0 <= k < rest.len() ==> rest[k] == s@[i + k]);
        }
        let b = s[i];
        if b == UNDERSCORE {
            out.push(SPACE);
            proof {
                assert(rest.skip(1) =~= s@.skip(i + 1));
                assert(out@ + decode_q_spec(s@.skip(i + 1)) =~= decode_q_spec(encoded@));
            }
            i = i + 1;
        } else if b == EQUALS_SIGN && s.len() - i > 2 {
            let h1 = hex_val(s[i + 1]);
            let h2 = hex_val(s[i + 2]);
            match (h1, h2) {
                (Some(hi), Some(lo)) => {
                    out.push(hi * 16 + lo);
                    proof {
                        assert(rest[1] == s@[i + 1] && rest[2] == s@[i + 2]);
                        assert(rest.skip(3) =~= s@.skip(i + 3));
                        assert(out@ + decode_q_spec(s@.skip(i + 3)) =~= decode_q_spec(encoded@));
                    }
                    i = i + 3;
                },
                _ => {
                    out.push(b);
                    proof {
                        assert(rest.skip(1) =~= s@.skip(i + 1));
                        assert(out@ + decode_q_spec(s@.skip(i + 1)) =~= decode_q_spec(encoded@));
                    }
                    i = i + 1;
                },
            }
        } else {
            out.push(b);
            proof {
                assert(rest.skip(1) =~= s@.skip(i + 1));
                if b == EQUALS_SIGN {
                    assert(rest.len() <= 2);
                }
                assert(out@ + decode_q_spec(s@.skip(i + 1)) =~= decode_q_spec(encoded@));
            }
            i = i + 1;
        }
    }
    proof {
        assert(s@.skip(s@.len() as int) =~= Seq::<u8>::empty());
        assert(out@ =~= out@ + decode_q_spec(s@.skip(s@.len() as int)));
    }
    out
}

/// Base64 decoding of an encoded word; input that does not decode
/// passes through unchanged.
pub open spec fn decode_b_spec(s: Seq<u8>) -> Seq<u8> {
    match b64_decode_of(s) {
        Some(v) => v,
        None => s,
    }
}

/// Base64 decoding of an encoded word.
pub fn decode_b(encoded: &Vec<u8>) -> (out: Vec<u8>)
    ensures
        out@ == decode_b_spec(encoded@),
{
    match base64_decode(encoded) {
        Some(v) => v,
        None => {
            let mut copy: Vec<u8> = Vec::new();
            let mut i: usize = 0;
            while i < encoded.len()
                invariant
                    i <= encoded@.len(),
                    copy@ == encoded@.take(i as int),
                decreases encoded@.len() - i,
            {
                copy.push(encoded[i]);
                proof {
                    assert(copy@ =~= encoded@.take(i + 1));
                }
                i = i + 1;
            }
            proof {
                assert(encoded@.take(encoded@.len() as int) =~= encoded@);
            }
            copy
        },
    }
}

/// Whether the encoding tag of an encoded word names this encoding
/// letter, case-insensitively.
pub open spec fn enc_is(enc: Seq<u8>, lower: u8, upper: u8) -> bool {
    enc.len() == 1 && (enc[0] == lower || enc[0] == upper)
}

/// Decoding the payload of one encoded word: "Q" is quoted-printable,
/// "B" is base64, any other tag passes the payload through.  (All
/// charsets are read as UTF-8, as the surrounding scanner does.)
pub open spec fn decode_word_spec(enc: Seq<u8>, payload: Seq<u8>) -> Seq<u8> {
    if enc_is(enc, LETTER_Q_LC, LETTER_Q_UC) {
        decode_q_spec(payload)
    } else if enc_is(enc, LETTER_B_LC, LETTER_B_UC) {
        decode_b_spec(payload)
    } else {
        payload
    }
}

/// Decodes the payload of one encoded word.
pub fn decode_encoded_word(encoding: &Vec<u8>, encoded: &Vec<u8>) -> (out: Vec<u8>)
    ensures
        out@ == decode_word_spec(encoding@, encoded@),
{
    if encoding.len() == 1 && (encoding[0] == LETTER_Q_LC || encoding[0] == LETTER_Q_UC) {
        decode_q(encoded)
    } else if encoding.len() == 1 && (encoding[0] == LETTER_B_LC || encoding[0] == LETTER_B_UC) {
        decode_b(encoded)
    } else {
        let mut copy: Vec<u8> = Vec::new();
        let mut i: usize = 0;
        while i < encoded.len()
            invariant
                i <= encoded@.len(),
                copy@ == encoded@.take(i as int),
            decreases encoded@.len() - i,
        {
            copy.push(encoded[i]);
            proof {
                assert(copy@ =~= encoded@.take(i + 1));
            }
            i = i + 1;
        }
        proof {
            assert(encoded@.take(encoded@.len() as int) =~= encoded@);
        }
        copy
    }
}

/// The first position at or after `from` where the byte `b` stands;
/// the length when there is none.
pub open spec fn find_byte_from(s: Seq<u8>, from: int, b: u8) -> int
    decreases s.len() - from,
{
    if from < 0 || from >= s.len() {
        s.len() as int
    } else if s[from] == b {
        from
    } else {
        find_byte_from(s, from + 1, b)
    }
}

/// The first position at or after `from` where the two bytes `b0 b1`
/// stand adjacently; the length when there is none.
pub open spec fn find_pair_from(s: Seq<u8>, from: int, b0: u8, b1: u8) -> int
    decreases s.len() - from,
{
    if from < 0 || from + 1 >= s.len() {
        s.len() as int
    } else if s[from] == b0 && s[from + 1] == b1 {
        from
    } else {
        find_pair_from(s, from + 1, b0, b1)
    }
}

proof fn lemma_find_byte_bounds(s: Seq<u8>, from: int, b: u8)
    requires
        0 <= from,
    ensures
        from <= s.len() ==> from <= find_byte_from(s, from, b),
        find_byte_from(s, from, b) <= s.len(),
        find_byte_from(s, from, b) < s.len() ==> s[find_byte_from(s, from, b)] == b,
    decreases s.len() - from,
{
    if from >= s.len() {
    } else if s[from] == b {
    } else {
        lemma_find_byte_bounds(s, from + 1, b);
    }
}

proof fn lemma_find_pair_bounds(s: Seq<u8>, from: int, b0: u8, b1: u8)
    requires
        0 <= from,
    ensures
        from <= s.len() ==> from <= find_pair_from(s, from, b0, b1),
        find_pair_from(s, from, b0, b1) <= s.len(),
        find_pair_from(s, from, b0, b1) < s.len() ==> (find_pair_from(s, from, b0, b1) + 1
            < s.len() && s[find_pair_from(s, from, b0, b1)] == b0 && s[find_pair_from(
            s,
            from,
            b0,
            b1,
        ) + 1] == b1),
    decreases s.len() - from,
{
    if from + 1 >= s.len() {
    } else if s[from] == b0 && s[from + 1] == b1 {
    } else {
        lemma_find_pair_bounds(s, from + 1, b0, b1);
    }
}

fn find_byte_exec(s: &Vec<u8>, from: usize, b: u8) -> (r: usize)
    requires
        from <= s@.len(),
    ensures
        r == find_byte_from(s@, from as int, b),
        from <= r <= s@.len(),
        r < s@.len() ==> s@[r as int] == b,
{
    proof {
        lemma_find_byte_bounds(s@, from as int, b);
    }
    let mut i: usize = from;
    while i < s.len()
        invariant
            from <= i <= s@.len(),
            find_byte_from(s@, from as int, b) == find_byte_from(s@, i as int, b),
        decreases s@.len() - i,
    {
        if s[i] == b {
            return i;
        }
        i = i + 1;
    }
    i
}

fn find_pair_exec(s: &Vec<u8>, from: usize, b0: u8, b1: u8) -> (r: usize)
    requires
        from <= s@.len(),
    ensures
        r == find_pair_from(s@, from as int, b0, b1),
        from <= r <= s@.len(),
        r < s@.len() ==> (r + 1 < s@.len() && s@[r as int] == b0 && s@[r + 1] == b1),
{
    proof {
        lemma_find_pair_bounds(s@, from as int, b0, b1);
    }
    let mut i: usize = from;
    while s.len() - i > 1
        invariant
            from <= i,
            i <= s@.len(),
            find_pair_from(s@, from as int, b0, b1) == find_pair_from(s@, i as int, b0, b1),
        decreases s@.len() - i,
    {
        if s[i] == b0 && s[i + 1] == b1 {
            return i;
        }
        i = i + 1;
    }
    s.len()
}

/// The decoded form of a header, scanning from position `idx`: every
/// complete `=?charset?enc?payload?=` word is replaced by its decoded
/// payload; a lone `=?` with no complete word after it passes through.
pub open spec fn decode_words_from(s: Seq<u8>, idx: int) -> Seq<u8>
    decreases s.len() - idx, 0int via decode_words_from_decreases
{
    if idx < 0 || idx >= s.len() {
        Seq::empty()
    } else {
        let start = find_pair_from(s, idx, EQUALS_SIGN, QUESTION_MARK);
        if start >= s.len() {
            s.skip(idx)
        } else {
            let prefix = s.subrange(idx, start);
            let q1 = find_byte_from(s, start + 2, QUESTION_MARK);
            let q2 = find_byte_from(s, q1 + 1, QUESTION_MARK);
            let q3 = find_pair_from(s, q2 + 1, QUESTION_MARK, EQUALS_SIGN);
            if q1 >= s.len() || q2 >= s.len() || q3 >= s.len() {
                prefix + seq![EQUALS_SIGN, QUESTION_MARK] + decode_words_from(s, start + 2)
            } else {
                let enc = s.subrange(q1 + 1, q2);
                let payload = s.subrange(q2 + 1, q3);
                prefix + decode_word_spec(enc, payload) + decode_words_from(s, q3 + 2)
            }
        }
    }
}

#[via_fn]
proof fn decode_words_from_decreases(s: Seq<u8>, idx: int) {
    if idx < 0 || idx >= s.len() {
    } else {
        let start = find_pair_from(s, idx, EQUALS_SIGN, QUESTION_MARK);
        lemma_find_pair_bounds(s, idx, EQUALS_SIGN, QUESTION_MARK);
        if start < s.len() {
            let q1 = find_byte_from(s, start + 2, QUESTION_MARK);
            lemma_find_byte_bounds(s, start + 2, QUESTION_MARK);
            let q2 = find_byte_from(s, q1 + 1, QUESTION_MARK);
            lemma_find_byte_bounds(s, q1 + 1, QUESTION_MARK);
            let q3 = find_pair_from(s, q2 + 1, QUESTION_MARK, EQUALS_SIGN);
            lemma_find_pair_bounds(s, q2 + 1, QUESTION_MARK, EQUALS_SIGN);
        }
    }
}

/// Replaces every complete encoded word of a header with its decoded
/// bytes.
pub fn decode_rfc2047_words(input: &Vec<u8>) -> (out: Vec<u8>)
    ensures
        out@ == decode_words_from(input@, 0),
{
    let s = input;
    let mut out: Vec<u8> = Vec::new();
    let mut idx: usize = 0;
    while idx < s.len()
        invariant
            idx <= s@.len(),
            s@ == input@,
            decode_words_from(input@, 0) == out@ + decode_words_from(s@, idx as int),
        decreases s@.len() - idx,
    {
        proof {
            lemma_find_pair_bounds(s@, idx as int, EQUALS_SIGN, QUESTION_MARK);
        }
        let start = find_pair_exec(s, idx, EQUALS_SIGN, QUESTION_MARK);
        if start >= s.len() {
            let ghost base0 = out@;
            proof {
                assert(decode_words_from(s@, idx as int) =~= s@.skip(idx as int));
                assert(out@ =~= base0 + s@.subrange(idx as int, idx as int));
            }
            let mut i: usize = idx;
            while i < s.len()
                invariant
                    idx <= i <= s@.len(),
                    s@ == input@,
                    out@ == base0 + s@.subrange(idx as int, i as int),
                    decode_words_from(input@, 0) == base0 + decode_words_from(s@, idx as int),
                    decode_words_from(s@, idx as int) == s@.skip(idx as int),
                decreases s@.len() - i,
            {
                out.push(s[i]);
                i = i + 1;
                proof {
                    assert(out@ =~= base0 + s@.subrange(idx as int, i as int));
                }
            }
            proof {
                assert(s@.subrange(idx as int, s@.len() as int) =~= s@.skip(idx as int));
                assert(out@ =~= decode_words_from(input@, 0));
            }
            return out;
        }
        // copy the text before the word marker
        let ghost base0 = out@;
        proof {
            assert(out@ =~= base0 + s@.subrange(idx as int, idx as int));
        }
        let mut i: usize = idx;
        while i < start
            invariant
                idx <= i <= start,
                start < s@.len(),
                s@ == input@,
                out@ == base0 + s@.subrange(idx as int, i as int),
            decreases start - i,
        {
            out.push(s[i]);
            i = i + 1;
            proof {
                assert(out@ =~= base0 + s@.subrange(idx as int, i as int));
            }
        }
        proof {
            lemma_find_byte_bounds(s@, start + 2, QUESTION_MARK);
        }
        let q1 = find_byte_exec(s, start + 2, QUESTION_MARK);
        let mut failed = q1 >= s.len();
        let mut q2: usize = s.len();
        let mut q3: usize = s.len();
        if !failed {
            proof {
                lemma_find_byte_bounds(s@, q1 + 1, QUESTION_MARK);
            }
            q2 = find_byte_exec(s, q1 + 1, QUESTION_MARK);
            failed = q2 >= s.len();
        }
        if !failed {
            proof {
                lemma_find_pair_bounds(s@, q2 + 1, QUESTION_MARK, EQUALS_SIGN);
            }
            q3 = find_pair_exec(s, q2 + 1, QUESTION_MARK, EQUALS_SIGN);
            failed = q3 >= s.len();
        }
        let ghost pre = s@.subrange(idx as int, start as int);
        if failed {
            out.push(EQUALS_SIGN);
            out.push(QUESTION_MARK);
            proof {
                assert(decode_words_from(s@, idx as int) =~= pre + seq![
                    EQUALS_SIGN,
                    QUESTION_MARK,
                ] + decode_words_from(s@, start + 2));
                assert(out@ =~= base0 + pre + seq![EQUALS_SIGN, QUESTION_MARK]);
                assert(decode_words_from(input@, 0) =~= out@ + decode_words_from(
                    s@,
                    start + 2,
                ));
            }
            idx = start + 2;
        } else {
            let mut enc: Vec<u8> = Vec::new();
            let mut w: usize = q1 + 1;
            proof {
                assert(enc@ =~= s@.subrange(q1 + 1, q1 + 1));
            }
            while w < q2
                invariant
                    q1 + 1 <= w <= q2,
                    q2 < s@.len(),
                    s@ == input@,
                    enc@ == s@.subrange(q1 + 1, w as int),
                decreases q2 - w,
            {
                enc.push(s[w]);
                w = w + 1;
                proof {
                    assert(enc@ =~= s@.subrange(q1 + 1, w as int));
                }
            }
            let mut payload: Vec<u8> = Vec::new();
            let mut v: usize = q2 + 1;
            proof {
                assert(payload@ =~= s@.subrange(q2 + 1, q2 + 1));
            }
            while v < q3
                invariant
                    q2 + 1 <= v <= q3,
                    q3 < s@.len(),
                    s@ == input@,
                    payload@ == s@.subrange(q2 + 1, v as int),
                decreases q3 - v,
            {
                payload.push(s[v]);
                v = v + 1;
                proof {
                    assert(payload@ =~= s@.subrange(q2 + 1, v as int));
                }
            }
            let decoded = decode_encoded_word(&enc, &payload);
            let ghost base1 = out@;
            let mut d: usize = 0;
            proof {
                assert(out@ =~= base1 + decoded@.take(0));
            }
            while d < decoded.len()
                invariant
                    d <= decoded@.len(),
                    out@ == base1 + decoded@.take(d as int),
                decreases decoded@.len() - d,
            {
                out.push(decoded[d]);
                d = d + 1;
                proof {
                    assert(out@ =~= base1 + decoded@.take(d as int));
                }
            }
            proof {
                assert(decoded@.take(decoded@.len() as int) =~= decoded@);
                assert(decode_words_from(s@, idx as int) =~= pre + decode_word_spec(
                    s@.subrange(q1 + 1, q2 as int),
                    s@.subrange(q2 + 1, q3 as int),
                ) + decode_words_from(s@, q3 + 2));
                assert(out@ =~= base0 + pre + decoded@);
                assert(decode_words_from(input@, 0) =~= out@ + decode_words_from(s@, q3 + 2));
            }
            idx = q3 + 2;
        }
    }
    proof {
        assert(decode_words_from(s@, idx as int) =~= Seq::<u8>::empty());
        assert(out@ =~= out@ + decode_words_from(s@, idx as int));
    }
    out
}

/// Decodes a raw header into readable text: encoded words are
/// replaced by their decoded bytes, and the result is read as UTF-8.
pub fn decode_mime_header(bytes: &Vec<u8>) -> (r: String)
    ensures
        r@ == utf8_lossy_of(decode_words_from(bytes@, 0)),
{
    let decoded = decode_rfc2047_words(bytes);
    utf8_lossy(&decoded)
}

} // verus!
