//! The token and credential service: one configuration-provided secret,
//! token issue and verification, password hashing and checking.

use vstd::prelude::*;
use crate::ApiError;
use crate::identity::{Identity, is_uuid_text, lemma_uuid_text_quote_free};
use crate::password::{bcrypt_check, bcrypt_hash, bcrypt_verify};
use crate::token::{
    Claims, TokenError, make_token, verify_token, token_of, spec_verify_token, wf_claims_parts,
};

verus! {

/// How long a token stays valid: 24 hours, in seconds.
pub const VALIDITY_SECS: i64 = 86400;

/// Every timestamp the clock can hand out lies within this bound, in
/// seconds; see `now_unix`.
pub const CLOCK_BOUND: i64 = 10_000_000_000_000;

/// The claims of a verification result, as plain values.
pub open spec fn claims_res(r: Result<Claims, TokenError>) -> Result<
    (Seq<u8>, int, int),
    TokenError,
> {
    match r {
        Ok(c) => Ok((c.sub@, c.iat as int, c.exp as int)),
        Err(e) => Err(e),
    }
}

/// Relies on `chrono::Utc::now` and `timestamp`: the current unix seconds.
/// The crate bounds its dates to roughly 262,000 years either side of the
/// common era, so the value lies well within `CLOCK_BOUND`; nothing else is
/// assumed about what the clock reads.
#[verifier::external_body]
fn now_unix() -> (r: i64)
    ensures
        -CLOCK_BOUND < r < CLOCK_BOUND,
{
    chrono::Utc::now().timestamp()
}

/// Issues and verifies signed identity tokens and hashes credentials under
/// one process-lifetime secret.
pub struct AuthService {
    jwt_secret: Vec<u8>,
}

impl AuthService {
    /// The configured secret.
    pub closed spec fn secret(&self) -> Seq<u8> {
        self.jwt_secret@
    }

    /// A service around the given secret.
    pub fn new(jwt_secret: Vec<u8>) -> (r: AuthService)
        ensures
            r.secret() == jwt_secret@,
    {
        AuthService { jwt_secret }
    }

    /// Issues the token for a subject as of a given issue time: the claims
    /// are the subject, the issue time and an expiry one validity window
    /// later, serialized and signed under the secret.
    pub fn generate_token_at(&self, user_id: &Identity, iat: i64) -> (r: Vec<u8>)
        requires
            is_uuid_text(user_id@),
            0 <= iat < CLOCK_BOUND,
        ensures
            r@ == token_of(self.secret(), user_id@, iat as int, iat + VALIDITY_SECS),
            forall|now: int| now < iat + VALIDITY_SECS ==> spec_verify_token(
                self.secret(),
                r@,
                now,
            ) == Ok::<(Seq<u8>, int, int), TokenError>((
                user_id@,
                iat as int,
                iat + VALIDITY_SECS,
            )),
            forall|now: int| now >= iat + VALIDITY_SECS ==> spec_verify_token(
                self.secret(),
                r@,
                now,
            ) == Err::<(Seq<u8>, int, int), TokenError>(TokenError::Expired),
    {
        proof {
            lemma_uuid_text_quote_free(user_id@);
        }
        let claims = Claims { sub: user_id.to_vec(), exp: iat + VALIDITY_SECS, iat };
        make_token(self.jwt_secret.as_slice(), &claims)
    }

    /// Issues a token for a subject as of the clock's current time.
    pub fn generate_token(&self, user_id: &Identity) -> (r: Result<Vec<u8>, ApiError>)
        requires
            is_uuid_text(user_id@),
        ensures
            match r {
                Ok(t) => exists|iat: int|
                    0 <= iat < CLOCK_BOUND && t@ == #[trigger] token_of(
                        self.secret(),
                        user_id@,
                        iat,
                        iat + VALIDITY_SECS,
                    ),
                Err(e) => e == ApiError::InternalError,
            },
    {
        let now = now_unix();
        if now < 0 {
            // a clock before the epoch cannot stamp claims
            return Err(ApiError::InternalError);
        }
        let t = self.generate_token_at(user_id, now);
        proof {
            assert(t@ == token_of(self.secret(), user_id@, now as int, now + VALIDITY_SECS));
        }
        Ok(t)
    }

    /// Verifies a token against the secret as of a given time and returns
    /// its claims, exactly as `spec_verify_token` says.
    pub fn validate_token_at(&self, token: &[u8], now: i64) -> (r: Result<Claims, TokenError>)
        ensures
            claims_res(r) == spec_verify_token(self.secret(), token@, now as int),
    {
        verify_token(self.jwt_secret.as_slice(), token, now)
    }

    /// Verifies a token against the secret as of the clock's current time.
    pub fn validate_token(&self, token: &[u8]) -> (r: Result<Claims, TokenError>)
        ensures
            exists|now: int|
                -CLOCK_BOUND < now < CLOCK_BOUND && claims_res(r) == spec_verify_token(
                    self.secret(),
                    token@,
                    now,
                ),
    {
        let now = now_unix();
        let r = self.validate_token_at(token, now);
        proof {
            assert(claims_res(r) == spec_verify_token(self.secret(), token@, now as int));
        }
        r
    }

    /// Hashes a password one-way; the stored text matches exactly that
    /// password under `bcrypt_check`.
    pub fn hash_password(&self, password: &[u8]) -> (r: Result<Vec<u8>, ApiError>)
        ensures
            match r {
                Ok(h) => bcrypt_check(password@, h@) == Some(true),
                Err(e) => e == ApiError::InternalError,
            },
    {
        match bcrypt_hash(password) {
            Some(h) => Ok(h),
            None => Err(ApiError::InternalError),
        }
    }

    /// Checks a password against a stored hash: `Ok(false)` on a mismatch,
    /// and an error only where the stored hash is malformed, so corrupt
    /// data is never masked as a wrong password.
    pub fn verify_password(&self, password: &[u8], hash: &[u8]) -> (r: Result<bool, ApiError>)
        ensures
            match r {
                Ok(b) => bcrypt_check(password@, hash@) == Some(b),
                Err(e) => e == ApiError::InternalError && bcrypt_check(password@, hash@)
                    is None,
            },
    {
        match bcrypt_verify(password, hash) {
            Some(b) => Ok(b),
            None => Err(ApiError::InternalError),
        }
    }
}

} // verus!
