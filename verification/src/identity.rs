//! The identity of an account: a globally unique id in the canonical
//! hyphenated hexadecimal text form, produced at registration and carried
//! through tokens and ownership checks.

use vstd::prelude::*;
use crate::bytes::eq_bytes;

verus! {

/// Whether a byte is a hexadecimal digit, either case.
pub open spec fn is_hex_byte(c: u8) -> bool {
    (48 <= c <= 57) || (97 <= c <= 102) || (65 <= c <= 70)
}

/// The canonical identity text: 36 bytes, hexadecimal except for hyphens at
/// the four fixed positions.
pub open spec fn is_uuid_text(s: Seq<u8>) -> bool {
    &&& s.len() == 36
    &&& s[8] == 45
    &&& s[13] == 45
    &&& s[18] == 45
    &&& s[23] == 45
    &&& forall|i: int|
        0 <= i < 36 && i != 8 && i != 13 && i != 18 && i != 23 ==> is_hex_byte(#[trigger] s[i])
}

/// An identity text holds no quote, so it can stand as a token subject.
pub proof fn lemma_uuid_text_quote_free(s: Seq<u8>)
    requires
        is_uuid_text(s),
    ensures
        forall|i: int| 0 <= i < s.len() ==> s[i] != 34,
{
    assert forall|i: int| 0 <= i < s.len() implies s[i] != 34 by {
        if i != 8 && i != 13 && i != 18 && i != 23 {
            assert(is_hex_byte(s[i]));
        }
    }
}

/// An opaque subject identifier in canonical text form.
pub struct Identity {
    bytes: Vec<u8>,
}

impl View for Identity {
    type V = Seq<u8>;

    closed spec fn view(&self) -> Seq<u8> {
        self.bytes@
    }
}

impl Identity {
    /// A well-formed identity holds the canonical text.
    pub open spec fn wf(&self) -> bool {
        is_uuid_text(self@)
    }

    /// Reads an identity from its text; rejects everything that is not the
    /// canonical form.
    pub fn parse(s: &[u8]) -> (r: Option<Identity>)
        ensures
            match r {
                Some(id) => is_uuid_text(s@) && id@ == s@,
                None => !is_uuid_text(s@),
            },
    {
        if s.len() != 36 {
            return None;
        }
        let mut i: usize = 0;
        while i < 36
            invariant
                i <= 36,
                s@.len() == 36,
                forall|k: int|
                    0 <= k < i && k != 8 && k != 13 && k != 18 && k != 23 ==> is_hex_byte(
                        #[trigger] s@[k],
                    ),
                forall|k: int| 0 <= k < i && (k == 8 || k == 13 || k == 18 || k == 23)
                    ==> s@[k] == 45,
            decreases 36 - i,
        {
            let c = s[i];
            if i == 8 || i == 13 || i == 18 || i == 23 {
                if c != 45 {
                    return None;
                }
            } else {
                if !((48 <= c && c <= 57) || (97 <= c && c <= 102) || (65 <= c && c <= 70)) {
                    return None;
                }
            }
            i = i + 1;
        }
        Some(Identity { bytes: vstd::slice::slice_to_vec(s) })
    }

    /// The identity's canonical text.
    pub fn to_vec(&self) -> (r: Vec<u8>)
        ensures
            r@ == self@,
    {
        vstd::slice::slice_to_vec(self.bytes.as_slice())
    }

    /// The identity's canonical text, borrowed.
    pub fn as_bytes(&self) -> (r: &[u8])
        ensures
            r@ == self@,
    {
        self.bytes.as_slice()
    }

    /// Whether two identities are the same subject.
    pub fn same(&self, other: &Identity) -> (r: bool)
        ensures
            r == (self@ == other@),
    {
        eq_bytes(self.bytes.as_slice(), other.bytes.as_slice())
    }
}

impl Clone for Identity {
    fn clone(&self) -> (r: Identity)
        ensures
            r@ == self@,
    {
        Identity { bytes: vstd::slice::slice_to_vec(self.bytes.as_slice()) }
    }
}

/// Relies on `uuid::Uuid::new_v4` and its `Display` form: a fresh random
/// version-4 id, printed as the hyphenated, lowercase hexadecimal text.
/// Nothing is assumed about which id comes out, only its shape.
#[verifier::external_body]
pub(crate) fn fresh_identity() -> (r: Identity)
    ensures
        r.wf(),
{
    Identity { bytes: uuid::Uuid::new_v4().to_string().into_bytes() }
}

} // verus!
