//! Unpadded base64url coding of byte strings, as bearer tokens use it:
//! the alphabet `A-Z a-z 0-9 - _`, no `=` padding.
//!
//! `encode` and `decode` are proved against the spec functions `b64_encode`
//! and `b64_decode`, and `lemma_decode_of_encode` shows that decoding
//! inverts encoding.

use vstd::prelude::*;

verus! {

/// The alphabet digit for a 6-bit value.
pub open spec fn b64_digit(v: u8) -> u8
    recommends
        v < 64,
{
    if v < 26 {
        (65 + v) as u8  // 'A'..='Z'
    } else if v < 52 {
        (71 + v) as u8  // 'a'..='z'
    } else if v < 62 {
        (v - 4) as u8  // '0'..='9'
    } else if v == 62 {
        45u8  // '-'
    } else {
        95u8  // '_'
    }
}

/// Whether a byte is a base64url alphabet character.
pub open spec fn is_b64_byte(c: u8) -> bool {
    (65 <= c <= 90) || (97 <= c <= 122) || (48 <= c <= 57) || c == 45 || c == 95
}

/// The 6-bit value of an alphabet character.
pub open spec fn b64_val(c: u8) -> u8
    recommends
        is_b64_byte(c),
{
    if 65 <= c <= 90 {
        (c - 65) as u8
    } else if 97 <= c <= 122 {
        (c - 71) as u8
    } else if 48 <= c <= 57 {
        (c + 4) as u8
    } else if c == 45 {
        62u8
    } else {
        63u8
    }
}

/// Encoding of a full 3-byte group as 4 characters.
pub open spec fn enc3(b0: u8, b1: u8, b2: u8) -> Seq<u8> {
    seq![
        b64_digit(b0 >> 2),
        b64_digit(((b0 & 3) << 4) | (b1 >> 4)),
        b64_digit(((b1 & 15) << 2) | (b2 >> 6)),
        b64_digit(b2 & 63),
    ]
}

/// Encoding of a trailing 2-byte group as 3 characters.
pub open spec fn enc2(b0: u8, b1: u8) -> Seq<u8> {
    seq![
        b64_digit(b0 >> 2),
        b64_digit(((b0 & 3) << 4) | (b1 >> 4)),
        b64_digit((b1 & 15) << 2),
    ]
}

/// Encoding of a trailing 1-byte group as 2 characters.
pub open spec fn enc1(b0: u8) -> Seq<u8> {
    seq![b64_digit(b0 >> 2), b64_digit((b0 & 3) << 4)]
}

/// Unpadded base64url encoding of a byte string.
pub open spec fn b64_encode(s: Seq<u8>) -> Seq<u8>
    decreases s.len(),
{
    if s.len() >= 3 {
        enc3(s[0], s[1], s[2]) + b64_encode(s.skip(3))
    } else if s.len() == 2 {
        enc2(s[0], s[1])
    } else if s.len() == 1 {
        enc1(s[0])
    } else {
        Seq::<u8>::empty()
    }
}

/// The 3 bytes held by a full 4-character group.
pub open spec fn dec4(c0: u8, c1: u8, c2: u8, c3: u8) -> Seq<u8> {
    seq![
        (b64_val(c0) << 2) | (b64_val(c1) >> 4),
        ((b64_val(c1) & 15) << 4) | (b64_val(c2) >> 2),
        ((b64_val(c2) & 3) << 6) | b64_val(c3),
    ]
}

/// The 2 bytes held by a trailing 3-character group.
pub open spec fn dec3(c0: u8, c1: u8, c2: u8) -> Seq<u8> {
    seq![
        (b64_val(c0) << 2) | (b64_val(c1) >> 4),
        ((b64_val(c1) & 15) << 4) | (b64_val(c2) >> 2),
    ]
}

/// The byte held by a trailing 2-character group.
pub open spec fn dec2(c0: u8, c1: u8) -> Seq<u8> {
    seq![(b64_val(c0) << 2) | (b64_val(c1) >> 4)]
}

/// Unpadded base64url decoding; `None` on a byte outside the alphabet or
/// on a length that no encoding produces.
pub open spec fn b64_decode(s: Seq<u8>) -> Option<Seq<u8>>
    decreases s.len(),
{
    if s.len() == 0 {
        Some(Seq::<u8>::empty())
    } else if s.len() == 1 {
        None
    } else if s.len() == 2 {
        if is_b64_byte(s[0]) && is_b64_byte(s[1]) {
            Some(dec2(s[0], s[1]))
        } else {
            None
        }
    } else if s.len() == 3 {
        if is_b64_byte(s[0]) && is_b64_byte(s[1]) && is_b64_byte(s[2]) {
            Some(dec3(s[0], s[1], s[2]))
        } else {
            None
        }
    } else {
        if is_b64_byte(s[0]) && is_b64_byte(s[1]) && is_b64_byte(s[2]) && is_b64_byte(s[3]) {
            match b64_decode(s.skip(4)) {
                Some(rest) => Some(dec4(s[0], s[1], s[2], s[3]) + rest),
                None => None,
            }
        } else {
            None
        }
    }
}

proof fn lemma_digit_alphabet(v: u8)
    ensures
        is_b64_byte(b64_digit(v)),
{
}

/// Every character an encoding produces lies in the alphabet.
pub proof fn lemma_encode_alphabet(s: Seq<u8>)
    ensures
        forall|i: int| 0 <= i < b64_encode(s).len() ==> #[trigger] is_b64_byte(b64_encode(s)[i]),
    decreases s.len(),
{
    if s.len() >= 3 {
        lemma_encode_alphabet(s.skip(3));
        let e = b64_encode(s);
        let g = enc3(s[0], s[1], s[2]);
        let rest = b64_encode(s.skip(3));
        lemma_digit_alphabet(s[0] >> 2);
        lemma_digit_alphabet(((s[0] & 3) << 4) | (s[1] >> 4));
        lemma_digit_alphabet(((s[1] & 15) << 2) | (s[2] >> 6));
        lemma_digit_alphabet(s[2] & 63);
        assert forall|i: int| 0 <= i < e.len() implies #[trigger] is_b64_byte(e[i]) by {
            if i < 4 {
                assert(e[i] == g[i]);
            } else {
                assert(e[i] == rest[i - 4]);
                assert(is_b64_byte(rest[i - 4]));
            }
        }
    } else if s.len() == 2 {
        lemma_digit_alphabet(s[0] >> 2);
        lemma_digit_alphabet(((s[0] & 3) << 4) | (s[1] >> 4));
        lemma_digit_alphabet((s[1] & 15) << 2);
        let e = b64_encode(s);
        let g = enc2(s[0], s[1]);
        assert forall|i: int| 0 <= i < e.len() implies #[trigger] is_b64_byte(e[i]) by {
            assert(e[i] == g[i]);
        }
    } else if s.len() == 1 {
        lemma_digit_alphabet(s[0] >> 2);
        lemma_digit_alphabet((s[0] & 3) << 4);
        let e = b64_encode(s);
        let g = enc1(s[0]);
        assert forall|i: int| 0 <= i < e.len() implies #[trigger] is_b64_byte(e[i]) by {
            assert(e[i] == g[i]);
        }
    }
}

proof fn lemma_digit_val(v: u8)
    requires
        v < 64,
    ensures
        is_b64_byte(b64_digit(v)),
        b64_val(b64_digit(v)) == v,
{
}

proof fn lemma_dec4_enc3(b0: u8, b1: u8, b2: u8)
    ensures
        dec4(enc3(b0, b1, b2)[0], enc3(b0, b1, b2)[1], enc3(b0, b1, b2)[2], enc3(b0, b1, b2)[3])
            == seq![b0, b1, b2],
        forall|i: int| 0 <= i < 4 ==> is_b64_byte(#[trigger] enc3(b0, b1, b2)[i]),
{
    assert(b0 >> 2 < 64 && ((b0 & 3) << 4) | (b1 >> 4) < 64 && ((b1 & 15) << 2) | (b2 >> 6) < 64
        && b2 & 63 < 64) by (bit_vector);
    lemma_digit_val(b0 >> 2);
    lemma_digit_val(((b0 & 3) << 4) | (b1 >> 4));
    lemma_digit_val(((b1 & 15) << 2) | (b2 >> 6));
    lemma_digit_val(b2 & 63);
    assert(((b0 >> 2) << 2) | ((((b0 & 3) << 4) | (b1 >> 4)) >> 4) == b0) by (bit_vector);
    assert((((((b0 & 3) << 4) | (b1 >> 4)) & 15) << 4) | ((((b1 & 15) << 2) | (b2 >> 6)) >> 2)
        == b1) by (bit_vector);
    assert((((((b1 & 15) << 2) | (b2 >> 6)) & 3) << 6) | (b2 & 63) == b2) by (bit_vector);
    assert(dec4(enc3(b0, b1, b2)[0], enc3(b0, b1, b2)[1], enc3(b0, b1, b2)[2], enc3(b0, b1, b2)[3])
        =~= seq![b0, b1, b2]);
}

proof fn lemma_dec3_enc2(b0: u8, b1: u8)
    ensures
        dec3(enc2(b0, b1)[0], enc2(b0, b1)[1], enc2(b0, b1)[2]) == seq![b0, b1],
        forall|i: int| 0 <= i < 3 ==> is_b64_byte(#[trigger] enc2(b0, b1)[i]),
{
    assert(b0 >> 2 < 64 && ((b0 & 3) << 4) | (b1 >> 4) < 64 && (b1 & 15) << 2 < 64)
        by (bit_vector);
    lemma_digit_val(b0 >> 2);
    lemma_digit_val(((b0 & 3) << 4) | (b1 >> 4));
    lemma_digit_val((b1 & 15) << 2);
    assert(((b0 >> 2) << 2) | ((((b0 & 3) << 4) | (b1 >> 4)) >> 4) == b0) by (bit_vector);
    assert((((((b0 & 3) << 4) | (b1 >> 4)) & 15) << 4) | (((b1 & 15) << 2) >> 2) == b1)
        by (bit_vector);
    assert(dec3(enc2(b0, b1)[0], enc2(b0, b1)[1], enc2(b0, b1)[2]) =~= seq![b0, b1]);
}

proof fn lemma_dec2_enc1(b0: u8)
    ensures
        dec2(enc1(b0)[0], enc1(b0)[1]) == seq![b0],
        forall|i: int| 0 <= i < 2 ==> is_b64_byte(#[trigger] enc1(b0)[i]),
{
    assert(b0 >> 2 < 64 && (b0 & 3) << 4 < 64) by (bit_vector);
    lemma_digit_val(b0 >> 2);
    lemma_digit_val((b0 & 3) << 4);
    assert(((b0 >> 2) << 2) | (((b0 & 3) << 4) >> 4) == b0) by (bit_vector);
    assert(dec2(enc1(b0)[0], enc1(b0)[1]) =~= seq![b0]);
}

/// Decoding inverts encoding.
pub proof fn lemma_decode_of_encode(s: Seq<u8>)
    ensures
        b64_decode(b64_encode(s)) == Some(s),
    decreases s.len(),
{
    if s.len() >= 3 {
        lemma_dec4_enc3(s[0], s[1], s[2]);
        lemma_decode_of_encode(s.skip(3));
        lemma_encode_alphabet(s.skip(3));
        let e = b64_encode(s);
        let g = enc3(s[0], s[1], s[2]);
        let rest = b64_encode(s.skip(3));
        assert(e == g + rest);
        assert(e.len() == 4 + rest.len());
        assert forall|i: int| 0 <= i < 4 implies is_b64_byte(e[i]) by {
            assert(e[i] == g[i]);
        }
        if e.len() == 4 {
            // the tail is empty, so the whole encoding is one full group
            assert(rest.len() == 0);
            assert(s.skip(3).len() == 0);
            assert(e.skip(4) =~= Seq::<u8>::empty());
            assert(b64_decode(e.skip(4)) == Some(Seq::<u8>::empty()));
            assert(b64_decode(e) == Some(dec4(e[0], e[1], e[2], e[3]) + Seq::<u8>::empty()));
            assert(dec4(e[0], e[1], e[2], e[3]) == dec4(g[0], g[1], g[2], g[3]));
            assert(dec4(g[0], g[1], g[2], g[3]) + Seq::<u8>::empty() =~= s);
        } else {
            assert(e.len() > 4);
            assert(e.skip(4) =~= rest);
            assert(b64_decode(rest) == Some(s.skip(3)));
            assert(b64_decode(e) == Some(dec4(e[0], e[1], e[2], e[3]) + s.skip(3)));
            assert(dec4(e[0], e[1], e[2], e[3]) == dec4(g[0], g[1], g[2], g[3]));
            assert(dec4(g[0], g[1], g[2], g[3]) + s.skip(3) =~= s);
        }
    } else if s.len() == 2 {
        lemma_dec3_enc2(s[0], s[1]);
        let e = b64_encode(s);
        let g = enc2(s[0], s[1]);
        assert(e == g);
        assert(e[0] == g[0] && e[1] == g[1] && e[2] == g[2]);
        assert(is_b64_byte(g[0]) && is_b64_byte(g[1]) && is_b64_byte(g[2]));
        assert(b64_decode(e) == Some(dec3(e[0], e[1], e[2])));
        assert(dec3(e[0], e[1], e[2]) =~= s);
    } else if s.len() == 1 {
        lemma_dec2_enc1(s[0]);
        let e = b64_encode(s);
        let g = enc1(s[0]);
        assert(e == g);
        assert(e[0] == g[0] && e[1] == g[1]);
        assert(is_b64_byte(g[0]) && is_b64_byte(g[1]));
        assert(b64_decode(e) == Some(dec2(e[0], e[1])));
        assert(dec2(e[0], e[1]) =~= s);
    } else {
        assert(s =~= Seq::<u8>::empty());
    }
}

/// An encoding never contains a byte outside the alphabet; in particular no
/// separator dot.
pub proof fn lemma_encode_no_dot(s: Seq<u8>)
    ensures
        forall|i: int| 0 <= i < b64_encode(s).len() ==> b64_encode(s)[i] != 46,
{
    lemma_encode_alphabet(s);
    assert forall|i: int| 0 <= i < b64_encode(s).len() implies b64_encode(s)[i] != 46 by {
        assert(is_b64_byte(b64_encode(s)[i]));
    }
}

/// Maps a 6-bit value to its alphabet character.
fn digit_of(v: u8) -> (r: u8)
    requires
        v < 64,
    ensures
        r == b64_digit(v),
{
    if v < 26 {
        65 + v
    } else if v < 52 {
        71 + v
    } else if v < 62 {
        v - 4
    } else if v == 62 {
        45
    } else {
        95
    }
}

/// Whether a byte is an alphabet character.
fn is_alphabet_byte(c: u8) -> (r: bool)
    ensures
        r == is_b64_byte(c),
{
    (65 <= c && c <= 90) || (97 <= c && c <= 122) || (48 <= c && c <= 57) || c == 45 || c == 95
}

/// The 6-bit value of an alphabet character.
fn val_of(c: u8) -> (r: u8)
    requires
        is_b64_byte(c),
    ensures
        r == b64_val(c),
        r < 64,
{
    if 65 <= c && c <= 90 {
        c - 65
    } else if 97 <= c && c <= 122 {
        c - 71
    } else if 48 <= c && c <= 57 {
        c + 4
    } else if c == 45 {
        62
    } else {
        63
    }
}

/// Unpadded base64url encoding.
pub fn encode(s: &[u8]) -> (r: Vec<u8>)
    ensures
        r@ == b64_encode(s@),
{
    let mut r: Vec<u8> = Vec::new();
    let mut i: usize = 0;
    proof {
        assert(s@.skip(0) =~= s@);
        assert(Seq::<u8>::empty() + b64_encode(s@) =~= b64_encode(s@));
    }
    while s.len() - i >= 3
        invariant
            i <= s.len(),
            b64_encode(s@) == r@ + b64_encode(s@.skip(i as int)),
        decreases s.len() - i,
    {
        let b0 = s[i];
        let b1 = s[i + 1];
        let b2 = s[i + 2];
        proof {
            assert(b0 >> 2 < 64 && ((b0 & 3) << 4) | (b1 >> 4) < 64
                && ((b1 & 15) << 2) | (b2 >> 6) < 64 && b2 & 63 < 64) by (bit_vector);
        }
        let ghost r_old = r@;
        r.push(digit_of(b0 >> 2));
        r.push(digit_of(((b0 & 3) << 4) | (b1 >> 4)));
        r.push(digit_of(((b1 & 15) << 2) | (b2 >> 6)));
        r.push(digit_of(b2 & 63));
        proof {
            let tail = s@.skip(i as int);
            assert(tail.len() >= 3);
            assert(tail[0] == b0 && tail[1] == b1 && tail[2] == b2);
            assert(tail.skip(3) =~= s@.skip(i + 3));
            assert(b64_encode(tail) == enc3(b0, b1, b2) + b64_encode(s@.skip(i + 3)));
            assert(r@ =~= r_old + enc3(b0, b1, b2));
            assert(r_old + b64_encode(tail)
                =~= r@ + b64_encode(s@.skip(i + 3)));
        }
        i = i + 3;
    }
    let ghost r_old = r@;
    let ghost tail = s@.skip(i as int);
    if s.len() - i == 2 {
        let b0 = s[i];
        let b1 = s[i + 1];
        proof {
            assert(b0 >> 2 < 64 && ((b0 & 3) << 4) | (b1 >> 4) < 64 && (b1 & 15) << 2 < 64)
                by (bit_vector);
        }
        r.push(digit_of(b0 >> 2));
        r.push(digit_of(((b0 & 3) << 4) | (b1 >> 4)));
        r.push(digit_of((b1 & 15) << 2));
        proof {
            assert(tail.len() == 2 && tail[0] == b0 && tail[1] == b1);
            assert(b64_encode(tail) == enc2(b0, b1));
            assert(r@ =~= r_old + enc2(b0, b1));
        }
    } else if s.len() - i == 1 {
        let b0 = s[i];
        proof {
            assert(b0 >> 2 < 64 && (b0 & 3) << 4 < 64) by (bit_vector);
        }
        r.push(digit_of(b0 >> 2));
        r.push(digit_of((b0 & 3) << 4));
        proof {
            assert(tail.len() == 1 && tail[0] == b0);
            assert(b64_encode(tail) == enc1(b0));
            assert(r@ =~= r_old + enc1(b0));
        }
    } else {
        proof {
            assert(tail.len() == 0);
            assert(b64_encode(tail) =~= Seq::<u8>::empty());
            assert(r@ =~= r_old + b64_encode(tail));
        }
    }
    r
}

/// Unpadded base64url decoding; `None` where `b64_decode` gives `None`.
pub fn decode(s: &[u8]) -> (r: Option<Vec<u8>>)
    ensures
        match r {
            Some(v) => b64_decode(s@) == Some(v@),
            None => b64_decode(s@) is None,
        },
{
    let mut r: Vec<u8> = Vec::new();
    let mut i: usize = 0;
    proof {
        assert(s@.skip(0) =~= s@);
        if b64_decode(s@) is Some {
            assert(Seq::<u8>::empty() + b64_decode(s@).unwrap() =~= b64_decode(s@).unwrap());
        }
    }
    while s.len() - i >= 4
        invariant
            i <= s.len(),
            b64_decode(s@) == match b64_decode(s@.skip(i as int)) {
                Some(t) => Some(r@ + t),
                None => None::<Seq<u8>>,
            },
        decreases s.len() - i,
    {
        let ghost tail = s@.skip(i as int);
        let c0 = s[i];
        let c1 = s[i + 1];
        let c2 = s[i + 2];
        let c3 = s[i + 3];
        proof {
            assert(tail.len() >= 4);
            assert(tail[0] == c0 && tail[1] == c1 && tail[2] == c2 && tail[3] == c3);
        }
        if s.len() - i == 4 {
            // the final group: 4 characters exactly
            if !(is_alphabet_byte(c0) && is_alphabet_byte(c1) && is_alphabet_byte(c2)
                && is_alphabet_byte(c3)) {
                proof {
                    assert(b64_decode(tail) is None);
                }
                return None;
            }
            let ghost r_old = r@;
            r.push((val_of(c0) << 2) | (val_of(c1) >> 4));
            r.push(((val_of(c1) & 15) << 4) | (val_of(c2) >> 2));
            r.push(((val_of(c2) & 3) << 6) | val_of(c3));
            proof {
                assert(tail.skip(4) =~= s@.skip(i + 4));
                assert(s@.skip(i + 4).len() == 0);
                assert(b64_decode(tail.skip(4)) == Some(Seq::<u8>::empty()));
                assert(b64_decode(tail) == Some(dec4(c0, c1, c2, c3) + Seq::<u8>::empty()));
                assert(dec4(c0, c1, c2, c3) + Seq::<u8>::empty() =~= dec4(c0, c1, c2, c3));
                assert(r@ =~= r_old + dec4(c0, c1, c2, c3));
            }
            return Some(r);
        }
        if !(is_alphabet_byte(c0) && is_alphabet_byte(c1) && is_alphabet_byte(c2)
            && is_alphabet_byte(c3)) {
            proof {
                assert(tail.len() > 4);
                assert(b64_decode(tail) is None);
            }
            return None;
        }
        let ghost r_old = r@;
        r.push((val_of(c0) << 2) | (val_of(c1) >> 4));
        r.push(((val_of(c1) & 15) << 4) | (val_of(c2) >> 2));
        r.push(((val_of(c2) & 3) << 6) | val_of(c3));
        proof {
            assert(tail.skip(4) =~= s@.skip(i + 4));
            assert(r@ =~= r_old + dec4(c0, c1, c2, c3));
            if b64_decode(s@.skip(i + 4)) is Some {
                let t = b64_decode(s@.skip(i + 4)).unwrap();
                assert(b64_decode(tail) == Some(dec4(c0, c1, c2, c3) + t));
                assert(r_old + (dec4(c0, c1, c2, c3) + t) =~= r@ + t);
            } else {
                assert(b64_decode(tail) is None);
            }
        }
        i = i + 4;
    }
    let ghost tail = s@.skip(i as int);
    let ghost r_old = r@;
    if i == s.len() {
        proof {
            assert(tail.len() == 0);
            assert(b64_decode(tail) == Some(Seq::<u8>::empty()));
            assert(r@ =~= r_old + Seq::<u8>::empty());
        }
        Some(r)
    } else if s.len() - i == 1 {
        proof {
            assert(tail.len() == 1);
        }
        None
    } else if s.len() - i == 2 {
        let c0 = s[i];
        let c1 = s[i + 1];
        proof {
            assert(tail.len() == 2 && tail[0] == c0 && tail[1] == c1);
        }
        if is_alphabet_byte(c0) && is_alphabet_byte(c1) {
            r.push((val_of(c0) << 2) | (val_of(c1) >> 4));
            proof {
                assert(b64_decode(tail) == Some(dec2(c0, c1)));
                assert(r@ =~= r_old + dec2(c0, c1));
            }
            Some(r)
        } else {
            None
        }
    } else {
        let c0 = s[i];
        let c1 = s[i + 1];
        let c2 = s[i + 2];
        proof {
            assert(tail.len() == 3 && tail[0] == c0 && tail[1] == c1 && tail[2] == c2);
        }
        if is_alphabet_byte(c0) && is_alphabet_byte(c1) && is_alphabet_byte(c2) {
            r.push((val_of(c0) << 2) | (val_of(c1) >> 4));
            r.push(((val_of(c1) & 15) << 4) | (val_of(c2) >> 2));
            proof {
                assert(b64_decode(tail) == Some(dec3(c0, c1, c2)));
                assert(r@ =~= r_old + dec3(c0, c1, c2));
            }
            Some(r)
        } else {
            None
        }
    }
}

} // verus!
