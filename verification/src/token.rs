//! Signed identity tokens: three unpadded base64url segments
//! `header.payload.signature`, where the header names the signing scheme,
//! the payload carries the claims, and the signature is an HMAC over
//! `header.payload` under the shared secret.
//!
//! `make_token` and `verify_token` are proved against `token_of` and
//! `spec_verify_token`; `lemma_verify_of_issued` shows that a freshly signed
//! token verifies to exactly its claims until it expires and is rejected as
//! expired afterwards, and `lemma_altered_signature_rejected` that a token
//! whose signature segment was changed in any way never verifies.

use vstd::prelude::*;
use crate::base64url::{
    b64_encode, b64_decode, is_b64_byte, encode, decode, lemma_encode_no_dot,
    lemma_decode_of_encode,
};
use crate::bytes::eq_bytes;
use crate::claims::{
    payload_json, spec_parse_payload, parse_payload, payload_bytes, lemma_parse_of_payload,
};

verus! {

/// The claims carried by a token: a subject, an expiry and an issue time,
/// both in unix seconds.
pub struct Claims {
    pub sub: Vec<u8>,
    pub exp: i64,
    pub iat: i64,
}

/// Claims that can be serialized and read back: the subject holds no quote,
/// and the timestamps are non-negative.
pub open spec fn wf_claims_parts(sub: Seq<u8>, iat: int, exp: int) -> bool {
    &&& forall|i: int| 0 <= i < sub.len() ==> sub[i] != 34
    &&& 0 <= iat <= i64::MAX
    &&& 0 <= exp <= i64::MAX
}

/// Why a token was rejected.
#[derive(Debug, Clone, Copy, PartialEq, Eq, Structural)]
pub enum TokenError {
    /// The token's structure cannot be parsed.
    Malformed,
    /// The signature does not match the secret and the signed text.
    InvalidSignature,
    /// The token's expiry is not in the future.
    Expired,
}

/// The signature that the HMAC scheme assigns to a message under a secret:
/// the unpadded base64url text of the HMAC-SHA256 tag.
pub uninterp spec fn hmac_sig(secret: Seq<u8>, message: Seq<u8>) -> Seq<u8>;

/// Relies on `jsonwebtoken::crypto::sign` with `Algorithm::HS256`: the
/// unpadded base64url encoding of the HMAC-SHA256 of the message under the
/// secret, a function of the two arguments alone; 32 tag bytes make 43
/// characters of the base64url alphabet. For a raw-byte HMAC key the
/// crate's source shows that signing cannot fail.
#[verifier::external_body]
fn sign_hmac(secret: &[u8], message: &[u8]) -> (r: Vec<u8>)
    ensures
        r@ == hmac_sig(secret@, message@),
        r@.len() == 43,
        forall|i: int| 0 <= i < r@.len() ==> is_b64_byte(#[trigger] r@[i]),
{
    let key = jsonwebtoken::EncodingKey::from_secret(secret);
    let sig = jsonwebtoken::crypto::sign(message, &key, jsonwebtoken::Algorithm::HS256)
        .expect("HMAC signing accepts every key and message");
    sig.into_bytes()
}

/// The header `{"alg":"HS256","typ":"JWT"}`.
pub open spec fn header_json() -> Seq<u8> {
    seq![
        123u8, 34u8, 97u8, 108u8, 103u8, 34u8, 58u8, 34u8, 72u8, 83u8, 50u8, 53u8, 54u8, 34u8,
        44u8, 34u8, 116u8, 121u8, 112u8, 34u8, 58u8, 34u8, 74u8, 87u8, 84u8, 34u8, 125u8,
    ]
}

/// Builds the header bytes.
fn header_bytes() -> (r: Vec<u8>)
    ensures
        r@ == header_json(),
{
    let mut r: Vec<u8> = Vec::new();
    r.push(123);
    r.push(34);
    r.push(97);
    r.push(108);
    r.push(103);
    r.push(34);
    r.push(58);
    r.push(34);
    r.push(72);
    r.push(83);
    r.push(50);
    r.push(53);
    r.push(54);
    r.push(34);
    r.push(44);
    r.push(34);
    r.push(116);
    r.push(121);
    r.push(112);
    r.push(34);
    r.push(58);
    r.push(34);
    r.push(74);
    r.push(87);
    r.push(84);
    r.push(34);
    r.push(125);
    proof {
        assert(r@ =~= header_json());
    }
    r
}

/// The text that is signed: `base64url(header).base64url(payload)`.
pub open spec fn signing_input(sub: Seq<u8>, iat: int, exp: int) -> Seq<u8> {
    b64_encode(header_json()) + seq![46u8] + b64_encode(payload_json(sub, iat, exp))
}

/// The complete token for given claims under a secret.
pub open spec fn token_of(secret: Seq<u8>, sub: Seq<u8>, iat: int, exp: int) -> Seq<u8> {
    signing_input(sub, iat, exp) + seq![46u8] + hmac_sig(secret, signing_input(sub, iat, exp))
}

/// The index of the last occurrence of `c` in `s`, or `-1`.
pub open spec fn last_occ(s: Seq<u8>, c: u8) -> int
    decreases s.len(),
{
    if s.len() == 0 {
        -1
    } else if s.last() == c {
        s.len() - 1
    } else {
        last_occ(s.drop_last(), c)
    }
}

/// What `last_occ` returns: the last index holding `c`, or `-1`.
pub proof fn lemma_last_occ(s: Seq<u8>, c: u8)
    ensures
        -1 <= last_occ(s, c) < s.len(),
        last_occ(s, c) >= 0 ==> s[last_occ(s, c)] == c,
        forall|i: int| last_occ(s, c) < i < s.len() ==> s[i] != c,
    decreases s.len(),
{
    if s.len() == 0 {
    } else if s.last() == c {
    } else {
        lemma_last_occ(s.drop_last(), c);
        let k = last_occ(s.drop_last(), c);
        assert forall|i: int| k < i < s.len() implies s[i] != c by {
            if i < s.len() - 1 {
                assert(s.drop_last()[i] != c);
            }
        }
    }
}

/// Splits a token at its last dot and its second-to-last dot into header,
/// payload and signature segments, as bearer-token consumers do.
pub open spec fn split3(t: Seq<u8>) -> Option<(Seq<u8>, Seq<u8>, Seq<u8>)> {
    let l2 = last_occ(t, 46);
    if l2 < 0 {
        None
    } else {
        let msg = t.take(l2);
        let sig = t.skip(l2 + 1);
        let l1 = last_occ(msg, 46);
        if l1 < 0 {
            None
        } else {
            Some((msg.take(l1), msg.skip(l1 + 1), sig))
        }
    }
}

/// The whole verdict on a token: reject a structure that does not split,
/// then a signature that does not match the signed text, then a header or a
/// payload that does not parse, then an expiry that is not in the future;
/// otherwise return the claims.
pub open spec fn spec_verify_token(secret: Seq<u8>, token: Seq<u8>, now: int) -> Result<
    (Seq<u8>, int, int),
    TokenError,
> {
    match split3(token) {
        None => Err(TokenError::Malformed),
        Some((h, p, s)) => {
            if s != hmac_sig(secret, h + seq![46u8] + p) {
                Err(TokenError::InvalidSignature)
            } else if h != b64_encode(header_json()) {
                Err(TokenError::Malformed)
            } else {
                match b64_decode(p) {
                    None => Err(TokenError::Malformed),
                    Some(pb) => match spec_parse_payload(pb) {
                        None => Err(TokenError::Malformed),
                        Some((sub, iat, exp)) => if now >= exp {
                            Err(TokenError::Expired)
                        } else {
                            Ok((sub, iat, exp))
                        },
                    },
                }
            }
        },
    }
}

/// Finds the last index `>= 0` holding `b`, aligned with `last_occ`.
fn find_last(p: &[u8], b: u8) -> (r: Option<usize>)
    ensures
        match r {
            Some(i) => i < p@.len() && i == last_occ(p@, b),
            None => last_occ(p@, b) == -1,
        },
{
    proof {
        lemma_last_occ(p@, b);
    }
    let mut idx: usize = p.len();
    while idx > 0
        invariant
            idx <= p@.len(),
            forall|i: int| idx <= i < p@.len() ==> p@[i] != b,
        decreases idx,
    {
        idx = idx - 1;
        if p[idx] == b {
            proof {
                lemma_last_occ(p@, b);
                let k = last_occ(p@, b);
                assert(k >= idx) by {
                    if k < idx {
                        assert(p@[idx as int] != b);
                    }
                }
                assert(k <= idx) by {
                    if k > idx {
                        assert(p@[k] != b);
                    }
                }
            }
            return Some(idx);
        }
    }
    proof {
        lemma_last_occ(p@, b);
        let k = last_occ(p@, b);
        if k >= 0 {
            assert(p@[k] != b);
        }
    }
    None
}

/// Serializes and signs claims into a complete token.
pub fn make_token(secret: &[u8], c: &Claims) -> (r: Vec<u8>)
    requires
        wf_claims_parts(c.sub@, c.iat as int, c.exp as int),
    ensures
        r@ == token_of(secret@, c.sub@, c.iat as int, c.exp as int),
        forall|now: int| now < c.exp ==> spec_verify_token(secret@, r@, now) == Ok::<
            (Seq<u8>, int, int),
            TokenError,
        >((c.sub@, c.iat as int, c.exp as int)),
        forall|now: int| now >= c.exp ==> spec_verify_token(secret@, r@, now) == Err::<
            (Seq<u8>, int, int),
            TokenError,
        >(TokenError::Expired),
{
    let header = header_bytes();
    let mut msg = encode(header.as_slice());
    msg.push(46);
    let payload = payload_bytes(&c.sub, c.iat, c.exp);
    let p64 = encode(payload.as_slice());
    msg.extend_from_slice(p64.as_slice());
    proof {
        assert(msg@ =~= signing_input(c.sub@, c.iat as int, c.exp as int));
    }
    let sig = sign_hmac(secret, msg.as_slice());
    let mut tok = msg;
    tok.push(46);
    tok.extend_from_slice(sig.as_slice());
    proof {
        assert(tok@ =~= token_of(secret@, c.sub@, c.iat as int, c.exp as int));
        assert forall|now: int| true implies #[trigger] spec_verify_token(secret@, tok@, now)
            == (if now < c.exp {
                Ok::<(Seq<u8>, int, int), TokenError>((c.sub@, c.iat as int, c.exp as int))
            } else {
                Err::<(Seq<u8>, int, int), TokenError>(TokenError::Expired)
            }) by {
            lemma_verify_of_issued(
                secret@,
                c.sub@,
                c.iat as int,
                c.exp as int,
                now,
                sig@,
            );
        }
    }
    tok
}

/// A freshly signed token verifies to exactly its claims while the clock is
/// before its expiry, and is rejected as expired from that instant on, even
/// though its signature is valid. The signature hypotheses state what the
/// signing scheme returns: the HMAC text in the base64url alphabet.
pub proof fn lemma_verify_of_issued(
    secret: Seq<u8>,
    sub: Seq<u8>,
    iat: int,
    exp: int,
    now: int,
    sig: Seq<u8>,
)
    requires
        wf_claims_parts(sub, iat, exp),
        sig == hmac_sig(secret, signing_input(sub, iat, exp)),
        forall|i: int| 0 <= i < sig.len() ==> is_b64_byte(#[trigger] sig[i]),
    ensures
        now < exp ==> spec_verify_token(secret, token_of(secret, sub, iat, exp), now) == Ok::<
            (Seq<u8>, int, int),
            TokenError,
        >((sub, iat, exp)),
        now >= exp ==> spec_verify_token(secret, token_of(secret, sub, iat, exp), now) == Err::<
            (Seq<u8>, int, int),
            TokenError,
        >(TokenError::Expired),
{
    let h64 = b64_encode(header_json());
    let pj = payload_json(sub, iat, exp);
    let p64 = b64_encode(pj);
    let si = signing_input(sub, iat, exp);
    let t = token_of(secret, sub, iat, exp);
    lemma_encode_no_dot(header_json());
    lemma_encode_no_dot(pj);
    assert(si == h64 + seq![46u8] + p64);
    assert(t == si + seq![46u8] + sig);
    assert(t.len() == h64.len() + 1 + p64.len() + 1 + sig.len());

    lemma_last_occ(t, 46);
    let l2 = last_occ(t, 46);
    let dot2 = si.len() as int;
    assert(t[dot2] == 46);
    assert(forall|i: int| dot2 < i < t.len() ==> t[i] == sig[i - dot2 - 1]);
    assert(l2 >= dot2) by {
        if l2 < dot2 {
            assert(t[dot2] != 46);
        }
    }
    assert(l2 <= dot2) by {
        if l2 > dot2 {
            assert(t[l2] == sig[l2 - dot2 - 1]);
            assert(is_b64_byte(sig[l2 - dot2 - 1]));
            assert(t[l2] == 46);
        }
    }
    let msg = t.take(l2);
    assert(msg =~= si);
    assert(t.skip(l2 + 1) =~= sig);

    lemma_last_occ(msg, 46);
    let l1 = last_occ(msg, 46);
    let dot1 = h64.len() as int;
    assert(msg[dot1] == 46);
    assert(forall|i: int| 0 <= i < p64.len() ==> p64[i] != 46);
    assert(forall|i: int| dot1 < i < msg.len() ==> msg[i] == p64[i - dot1 - 1]);
    assert(l1 >= dot1) by {
        if l1 < dot1 {
            assert(msg[dot1] != 46);
        }
    }
    assert(l1 <= dot1) by {
        if l1 > dot1 {
            assert(msg[l1] == p64[l1 - dot1 - 1]);
            assert(msg[l1] == 46);
        }
    }
    let h = msg.take(l1);
    let p = msg.skip(l1 + 1);
    assert(h =~= h64);
    assert(p =~= p64);
    assert(split3(t) == Some((h, p, sig)));

    assert(h + seq![46u8] + p =~= si);
    assert(sig == hmac_sig(secret, h + seq![46u8] + p));

    lemma_decode_of_encode(pj);
    assert(b64_decode(p) == Some(pj));
    lemma_parse_of_payload(sub, iat, exp);
    assert(spec_parse_payload(pj) == Some((sub, iat, exp)));
}

/// A token whose signature segment is anything but the true signature of its
/// signed text never verifies; where the altered segment still holds no dot,
/// it is rejected exactly as an invalid signature.
pub proof fn lemma_altered_signature_rejected(
    secret: Seq<u8>,
    sub: Seq<u8>,
    iat: int,
    exp: int,
    now: int,
    sig2: Seq<u8>,
)
    requires
        wf_claims_parts(sub, iat, exp),
        sig2 != hmac_sig(secret, signing_input(sub, iat, exp)),
    ensures
        !(spec_verify_token(secret, signing_input(sub, iat, exp) + seq![46u8] + sig2, now)
            is Ok),
        (forall|i: int| 0 <= i < sig2.len() ==> sig2[i] != 46) ==> spec_verify_token(
            secret,
            signing_input(sub, iat, exp) + seq![46u8] + sig2,
            now,
        ) == Err::<(Seq<u8>, int, int), TokenError>(TokenError::InvalidSignature),
{
    let h64 = b64_encode(header_json());
    let pj = payload_json(sub, iat, exp);
    let p64 = b64_encode(pj);
    let si = signing_input(sub, iat, exp);
    let t = si + seq![46u8] + sig2;
    lemma_encode_no_dot(header_json());
    lemma_encode_no_dot(pj);
    assert(si == h64 + seq![46u8] + p64);
    assert(t.len() == si.len() + 1 + sig2.len());

    lemma_last_occ(t, 46);
    let l2 = last_occ(t, 46);
    let dot2 = si.len() as int;
    assert(t[dot2] == 46);
    assert(l2 >= dot2) by {
        if l2 < dot2 {
            assert(t[dot2] != 46);
        }
    }
    assert(forall|i: int| dot2 < i < t.len() ==> t[i] == sig2[i - dot2 - 1]);

    if forall|i: int| 0 <= i < sig2.len() ==> sig2[i] != 46 {
        // the altered segment is still dot-free, so the split is unchanged
        assert(l2 <= dot2) by {
            if l2 > dot2 {
                assert(t[l2] == sig2[l2 - dot2 - 1]);
                assert(sig2[l2 - dot2 - 1] != 46);
                assert(t[l2] == 46);
            }
        }
        let msg = t.take(l2);
        assert(msg =~= si);
        assert(t.skip(l2 + 1) =~= sig2);
        lemma_last_occ(msg, 46);
        let l1 = last_occ(msg, 46);
        let dot1 = h64.len() as int;
        assert(msg[dot1] == 46);
        assert(forall|i: int| dot1 < i < msg.len() ==> msg[i] == p64[i - dot1 - 1]);
        assert(forall|i: int| 0 <= i < p64.len() ==> p64[i] != 46);
        assert(l1 >= dot1) by {
            if l1 < dot1 {
                assert(msg[dot1] != 46);
            }
        }
        assert(l1 <= dot1) by {
            if l1 > dot1 {
                assert(msg[l1] == p64[l1 - dot1 - 1]);
                assert(msg[l1] == 46);
            }
        }
        let h = msg.take(l1);
        let p = msg.skip(l1 + 1);
        assert(split3(t) == Some((h, p, sig2)));
        assert(h + seq![46u8] + p =~= si);
        assert(sig2 != hmac_sig(secret, h + seq![46u8] + p));
    } else {
        // a dot crept into the segment: the split moves, and whatever the
        // signature comparison says of the shifted parts, the header segment
        // grows past the true header and cannot match it
        let ld = choose|i: int| 0 <= i < sig2.len() && sig2[i] == 46;
        assert(t[dot2 + 1 + ld] == 46);
        assert(l2 >= dot2 + 1 + ld) by {
            if l2 < dot2 + 1 + ld {
                assert(t[dot2 + 1 + ld] != 46);
            }
        }
        let msg = t.take(l2);
        lemma_last_occ(msg, 46);
        let l1 = last_occ(msg, 46);
        assert(msg.len() == l2);
        assert(msg[dot2] == 46);
        assert(l1 >= dot2) by {
            if l1 < dot2 {
                assert(msg[dot2] != 46);
            }
        }
        if l1 >= 0 {
            let h = msg.take(l1);
            let p = msg.skip(l1 + 1);
            assert(split3(t) == Some((h, p, t.skip(l2 + 1))));
            assert(h.len() == l1);
            assert(h.len() >= dot2);
            assert(dot2 > h64.len());
            assert(h != h64);
        }
    }
}

/// Checks a token against the secret and the clock and returns its claims,
/// exactly as `spec_verify_token` says.
pub fn verify_token(secret: &[u8], token: &[u8], now: i64) -> (r: Result<Claims, TokenError>)
    ensures
        match r {
            Ok(c) => spec_verify_token(secret@, token@, now as int) == Ok::<
                (Seq<u8>, int, int),
                TokenError,
            >((c.sub@, c.iat as int, c.exp as int)),
            Err(e) => spec_verify_token(secret@, token@, now as int) == Err::<
                (Seq<u8>, int, int),
                TokenError,
            >(e),
        },
{
    let l2 = match find_last(token, 46) {
        Some(i) => i,
        None => {
            return Err(TokenError::Malformed);
        },
    };
    let n = token.len();
    proof {
        assert(l2 < n);
    }
    let msg = vstd::slice::slice_subrange(token, 0, l2);
    let sig_seg = vstd::slice::slice_subrange(token, l2 + 1, n);
    let l1 = match find_last(msg, 46) {
        Some(i) => i,
        None => {
            proof {
                assert(token@.take(l2 as int) == msg@);
            }
            return Err(TokenError::Malformed);
        },
    };
    let ghost h = msg@.take(l1 as int);
    let ghost p = msg@.skip(l1 + 1);
    proof {
        lemma_last_occ(token@, 46);
        lemma_last_occ(msg@, 46);
        assert(token@.take(l2 as int) == msg@);
        assert(token@.skip(l2 + 1) =~= sig_seg@);
        assert(split3(token@) == Some((h, p, sig_seg@)));
        assert(msg@[l1 as int] == 46);
        assert(h + seq![46u8] + p =~= msg@);
    }
    let expected = sign_hmac(secret, msg);
    if !eq_bytes(sig_seg, expected.as_slice()) {
        return Err(TokenError::InvalidSignature);
    }
    let h_seg = vstd::slice::slice_subrange(msg, 0, l1);
    let header = header_bytes();
    let header_enc = encode(header.as_slice());
    if !eq_bytes(h_seg, header_enc.as_slice()) {
        proof {
            assert(h_seg@ == h);
        }
        return Err(TokenError::Malformed);
    }
    let p_seg = vstd::slice::slice_subrange(msg, l1 + 1, msg.len());
    proof {
        assert(p_seg@ =~= p);
    }
    let payload = match decode(p_seg) {
        Some(v) => v,
        None => {
            return Err(TokenError::Malformed);
        },
    };
    let parsed = match parse_payload(payload.as_slice()) {
        Some(c) => c,
        None => {
            return Err(TokenError::Malformed);
        },
    };
    let (sub, iat, exp) = parsed;
    if now >= exp {
        return Err(TokenError::Expired);
    }
    Ok(Claims { sub, exp, iat })
}

} // verus!
