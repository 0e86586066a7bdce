//! The authentication stage that runs before every protected handler: it
//! reads the authorization header, verifies the bearer token and hands the
//! verified identity on, or rejects the request before the handler can run.
//!
//! Every rejection is one of four states: no header, a header that is not
//! `Bearer <token>`, a token that fails verification for any reason, or a
//! subject that is not a well-formed identity. The three token failures
//! collapse into one client-visible error, so a caller cannot learn which
//! check failed.

use vstd::prelude::*;
use crate::ApiError;
use crate::identity::{Identity, is_uuid_text};
use crate::service::AuthService;
use crate::token::spec_verify_token;

verus! {

/// The bytes `Bearer `.
pub open spec fn bearer_prefix() -> Seq<u8> {
    seq![66u8, 101u8, 97u8, 114u8, 101u8, 114u8, 32u8]
}

/// The view of an optional borrowed header.
pub open spec fn header_view(header: Option<&Vec<u8>>) -> Option<Seq<u8>> {
    match header {
        None => None,
        Some(h) => Some(h@),
    }
}

/// The whole verdict of the interceptor on a request: absent header, wrong
/// scheme, failed token verification collapsed to one error, malformed
/// subject, or the authenticated subject.
pub open spec fn spec_authenticate(secret: Seq<u8>, header: Option<Seq<u8>>, now: int) -> Result<
    Seq<u8>,
    ApiError,
> {
    match header {
        None => Err(ApiError::AuthorizationRequired),
        Some(h) => {
            if h.len() < 7 || h.subrange(0, 7) != bearer_prefix() {
                Err(ApiError::InvalidAuthorizationFormat)
            } else {
                match spec_verify_token(secret, h.skip(7), now) {
                    Err(_) => Err(ApiError::InvalidToken),
                    Ok((sub, iat, exp)) => if !is_uuid_text(sub) {
                        Err(ApiError::InvalidSubject)
                    } else {
                        Ok(sub)
                    },
                }
            }
        },
    }
}

/// A request without an authorization header is always rejected for that
/// reason alone, whatever the secret and the clock say.
pub proof fn lemma_no_header_rejected(secret: Seq<u8>, now: int)
    ensures
        spec_authenticate(secret, None, now) == Err::<Seq<u8>, ApiError>(
            ApiError::AuthorizationRequired,
        ),
{
}

/// The transform that wraps a service with the authentication stage.
pub struct AuthMiddleware;

impl AuthMiddleware {
    /// Wraps the token service into the per-request stage.
    pub fn new_transform(&self, service: AuthService) -> (r: AuthMiddlewareService)
        ensures
            r.secret() == service.secret(),
    {
        AuthMiddlewareService { auth: service }
    }
}

/// The per-request authentication stage around the token service.
pub struct AuthMiddlewareService {
    auth: AuthService,
}

impl AuthMiddlewareService {
    /// The configured secret.
    pub closed spec fn secret(&self) -> Seq<u8> {
        self.auth.secret()
    }

    /// A stage around the given token service.
    pub fn new(auth: AuthService) -> (r: AuthMiddlewareService)
        ensures
            r.secret() == auth.secret(),
    {
        AuthMiddlewareService { auth }
    }

    /// Runs the authentication state machine on a request's authorization
    /// header as of a given time, exactly as `spec_authenticate` says; on
    /// success the returned identity is the token's subject.
    pub fn authenticate(&self, header: Option<&Vec<u8>>, now: i64) -> (r: Result<
        Identity,
        ApiError,
    >)
        ensures
            match r {
                Ok(id) => spec_authenticate(self.secret(), header_view(header), now as int)
                    == Ok::<Seq<u8>, ApiError>(id@) && id.wf(),
                Err(e) => spec_authenticate(self.secret(), header_view(header), now as int)
                    == Err::<Seq<u8>, ApiError>(e),
            },
    {
        let h = match header {
            None => {
                return Err(ApiError::AuthorizationRequired);
            },
            Some(h) => h,
        };
        if h.len() < 7 {
            return Err(ApiError::InvalidAuthorizationFormat);
        }
        let hs = h.as_slice();
        if !(hs[0] == 66 && hs[1] == 101 && hs[2] == 97 && hs[3] == 114 && hs[4] == 101
            && hs[5] == 114 && hs[6] == 32) {
            proof {
                assert(h@.subrange(0, 7) != bearer_prefix()) by {
                    if h@.subrange(0, 7) == bearer_prefix() {
                        assert(forall|i: int| 0 <= i < 7
                            ==> h@[i] == #[trigger] bearer_prefix()[i]) by {
                            assert(forall|i: int| 0 <= i < 7
                                ==> h@.subrange(0, 7)[i] == #[trigger] h@[i]);
                        }
                    }
                }
            }
            return Err(ApiError::InvalidAuthorizationFormat);
        }
        proof {
            assert(h@.subrange(0, 7) =~= bearer_prefix());
        }
        let token = vstd::slice::slice_subrange(hs, 7, h.len());
        proof {
            assert(token@ =~= h@.skip(7));
        }
        let claims = match self.auth.validate_token_at(token, now) {
            Ok(c) => c,
            Err(_) => {
                return Err(ApiError::InvalidToken);
            },
        };
        match Identity::parse(claims.sub.as_slice()) {
            Some(id) => Ok(id),
            None => Err(ApiError::InvalidSubject),
        }
    }
}

} // verus!
