//! Credential records, the in-memory store keyed by email that stands for
//! the storage collaborator, and the registration and login flows.
//!
//! Registration rejects malformed input, rejects a taken email with a
//! conflict and no side effect, and otherwise stores a record whose hash
//! matches exactly the registered password. Login answers an unknown email
//! and a wrong password with one and the same error, so a caller cannot
//! learn which it was, and hands out a signed token on success.

use vstd::prelude::*;
use crate::ApiError;
use crate::bytes::eq_bytes;
use crate::identity::{Identity, is_uuid_text, fresh_identity};
use crate::password::bcrypt_check;
use crate::service::{AuthService, VALIDITY_SECS, CLOCK_BOUND};
use crate::token::token_of;

verus! {

/// A stored credential record: subject id, one-way password hash, profile
/// fields and timestamps.
pub struct UserRecord {
    pub id: Identity,
    pub email: Vec<u8>,
    pub password_hash: Vec<u8>,
    pub first_name: Vec<u8>,
    pub last_name: Vec<u8>,
    pub created_at: i64,
    pub updated_at: i64,
}

/// The identity summary handed out by the flows; it has no field for the
/// password hash, so no response can carry one.
pub struct UserResponse {
    pub id: Identity,
    pub email: Vec<u8>,
    pub first_name: Vec<u8>,
    pub last_name: Vec<u8>,
    pub created_at: i64,
    pub updated_at: i64,
}

/// The registration input.
pub struct CreateUserRequest {
    pub email: Vec<u8>,
    pub password: Vec<u8>,
    pub first_name: Vec<u8>,
    pub last_name: Vec<u8>,
}

/// The login input.
pub struct LoginRequest {
    pub email: Vec<u8>,
    pub password: Vec<u8>,
}

/// The login output: the signed token and the identity summary.
pub struct LoginResponse {
    pub token: Vec<u8>,
    pub user: UserResponse,
}

/// Whether a byte string is an acceptable email address.
pub uninterp spec fn email_ok(email: Seq<u8>) -> bool;

/// Relies on validator's `ValidateEmail` for the address grammar; bytes
/// that are not text are not an address.
#[verifier::external_body]
pub(crate) fn check_email(email: &[u8]) -> (r: bool)
    ensures
        r == email_ok(email@),
{
    match core::str::from_utf8(email) {
        Ok(s) => validator::ValidateEmail::validate_email(&s),
        Err(_) => false,
    }
}

/// The registration input shape: a well-formed email, a password of at
/// least 8 bytes, and both names present.
pub open spec fn valid_register_input(
    email: Seq<u8>,
    password: Seq<u8>,
    first_name: Seq<u8>,
    last_name: Seq<u8>,
) -> bool {
    email_ok(email) && password.len() >= 8 && first_name.len() >= 1 && last_name.len() >= 1
}

/// The login input shape: a well-formed email and a password present.
pub open spec fn valid_login_input(email: Seq<u8>, password: Seq<u8>) -> bool {
    email_ok(email) && password.len() >= 1
}

/// The first index whose record has the given email, or the length.
pub open spec fn idx_of_email(rows: Seq<UserRecord>, email: Seq<u8>) -> int
    decreases rows.len(),
{
    if rows.len() == 0 {
        0
    } else if rows[0].email@ == email {
        0
    } else {
        1 + idx_of_email(rows.skip(1), email)
    }
}

/// What `idx_of_email` returns: the first matching index, or the length.
pub proof fn lemma_idx_of_email(rows: Seq<UserRecord>, email: Seq<u8>)
    ensures
        0 <= idx_of_email(rows, email) <= rows.len(),
        idx_of_email(rows, email) < rows.len() ==> rows[idx_of_email(rows, email)].email@
            == email,
        forall|i: int| 0 <= i < idx_of_email(rows, email) ==> rows[i].email@ != email,
    decreases rows.len(),
{
    if rows.len() == 0 {
    } else if rows[0].email@ == email {
    } else {
        lemma_idx_of_email(rows.skip(1), email);
        let k = idx_of_email(rows.skip(1), email);
        assert forall|i: int| 0 <= i < 1 + k implies rows[i].email@ != email by {
            if i > 0 {
                assert(rows.skip(1)[i - 1].email@ != email);
            }
        }
    }
}

/// Whether some record has the given email.
pub open spec fn has_email(rows: Seq<UserRecord>, email: Seq<u8>) -> bool {
    idx_of_email(rows, email) < rows.len()
}

/// The first index whose record has the given id, or the length.
pub open spec fn idx_of_user_id(rows: Seq<UserRecord>, id: Seq<u8>) -> int
    decreases rows.len(),
{
    if rows.len() == 0 {
        0
    } else if rows[0].id@ == id {
        0
    } else {
        1 + idx_of_user_id(rows.skip(1), id)
    }
}

/// What `idx_of_user_id` returns: the first matching index, or the length.
pub proof fn lemma_idx_of_user_id(rows: Seq<UserRecord>, id: Seq<u8>)
    ensures
        0 <= idx_of_user_id(rows, id) <= rows.len(),
        idx_of_user_id(rows, id) < rows.len() ==> rows[idx_of_user_id(rows, id)].id@ == id,
        forall|i: int| 0 <= i < idx_of_user_id(rows, id) ==> rows[i].id@ != id,
    decreases rows.len(),
{
    if rows.len() == 0 {
    } else if rows[0].id@ == id {
    } else {
        lemma_idx_of_user_id(rows.skip(1), id);
        let k = idx_of_user_id(rows.skip(1), id);
        assert forall|i: int| 0 <= i < 1 + k implies rows[i].id@ != id by {
            if i > 0 {
                assert(rows.skip(1)[i - 1].id@ != id);
            }
        }
    }
}

/// The in-memory credential store that stands for the storage collaborator:
/// emails and ids are unique keys, and every id is canonical identity text.
pub struct UserStore {
    users: Vec<UserRecord>,
}

impl UserStore {
    /// The stored records, in insertion order.
    pub closed spec fn rows(&self) -> Seq<UserRecord> {
        self.users@
    }

    /// The store's invariant: unique emails, unique canonical ids.
    pub open spec fn wf(&self) -> bool {
        &&& forall|i: int, j: int|
            #![trigger self.rows()[i].email@, self.rows()[j].email@]
            0 <= i < j < self.rows().len() ==> self.rows()[i].email@ != self.rows()[j].email@
        &&& forall|i: int, j: int|
            #![trigger self.rows()[i].id@, self.rows()[j].id@]
            0 <= i < j < self.rows().len() ==> self.rows()[i].id@ != self.rows()[j].id@
        &&& forall|i: int| 0 <= i < self.rows().len() ==> is_uuid_text(
                #[trigger] self.rows()[i].id@,
            )
    }

    /// An empty store.
    pub fn new() -> (r: UserStore)
        ensures
            r.wf(),
            r.rows().len() == 0,
    {
        UserStore { users: Vec::new() }
    }

    /// How many records are stored.
    pub fn len(&self) -> (r: usize)
        ensures
            r == self.rows().len(),
    {
        self.users.len()
    }

    /// Finds the record with the given email, aligned with `idx_of_email`.
    pub fn find_by_email(&self, email: &[u8]) -> (r: Option<usize>)
        ensures
            match r {
                Some(i) => i == idx_of_email(self.rows(), email@) && i < self.rows().len(),
                None => !has_email(self.rows(), email@),
            },
    {
        proof {
            lemma_idx_of_email(self.rows(), email@);
        }
        let ghost k = idx_of_email(self.rows(), email@);
        let mut i: usize = 0;
        while i < self.users.len()
            invariant
                i <= self.rows().len(),
                k == idx_of_email(self.rows(), email@),
                0 <= k <= self.rows().len(),
                k < self.rows().len() ==> self.rows()[k].email@ == email@,
                forall|j: int| 0 <= j < k ==> self.rows()[j].email@ != email@,
                forall|j: int| 0 <= j < i ==> self.rows()[j].email@ != email@,
            decreases self.rows().len() - i,
        {
            if eq_bytes(self.users[i].email.as_slice(), email) {
                proof {
                    assert(k >= i) by {
                        if k < i {
                            assert(self.rows()[k].email@ != email@);
                        }
                    }
                    assert(k <= i) by {
                        if k > i {
                            assert(self.rows()[i as int].email@ != email@);
                        }
                    }
                }
                return Some(i);
            }
            i = i + 1;
        }
        proof {
            if k < self.rows().len() {
                assert(self.rows()[k].email@ != email@);
            }
        }
        None
    }

    /// Finds the record with the given id, aligned with `idx_of_user_id`.
    pub fn find_by_id(&self, id: &Identity) -> (r: Option<usize>)
        ensures
            match r {
                Some(i) => i == idx_of_user_id(self.rows(), id@) && i < self.rows().len(),
                None => idx_of_user_id(self.rows(), id@) == self.rows().len(),
            },
    {
        proof {
            lemma_idx_of_user_id(self.rows(), id@);
        }
        let ghost k = idx_of_user_id(self.rows(), id@);
        let mut i: usize = 0;
        while i < self.users.len()
            invariant
                i <= self.rows().len(),
                k == idx_of_user_id(self.rows(), id@),
                0 <= k <= self.rows().len(),
                k < self.rows().len() ==> self.rows()[k].id@ == id@,
                forall|j: int| 0 <= j < k ==> self.rows()[j].id@ != id@,
                forall|j: int| 0 <= j < i ==> self.rows()[j].id@ != id@,
            decreases self.rows().len() - i,
        {
            if self.users[i].id.same(id) {
                proof {
                    assert(k >= i) by {
                        if k < i {
                            assert(self.rows()[k].id@ != id@);
                        }
                    }
                    assert(k <= i) by {
                        if k > i {
                            assert(self.rows()[i as int].id@ != id@);
                        }
                    }
                }
                return Some(i);
            }
            i = i + 1;
        }
        proof {
            if k < self.rows().len() {
                assert(self.rows()[k].id@ != id@);
            }
        }
        None
    }

    /// The identity summary of the record at an index.
    pub fn summary_at(&self, i: usize) -> (r: UserResponse)
        requires
            i < self.rows().len(),
        ensures
            r.id@ == self.rows()[i as int].id@,
            r.email@ == self.rows()[i as int].email@,
            r.first_name@ == self.rows()[i as int].first_name@,
            r.last_name@ == self.rows()[i as int].last_name@,
            r.created_at == self.rows()[i as int].created_at,
            r.updated_at == self.rows()[i as int].updated_at,
    {
        let rec = &self.users[i];
        UserResponse {
            id: rec.id.clone(),
            email: vstd::slice::slice_to_vec(rec.email.as_slice()),
            first_name: vstd::slice::slice_to_vec(rec.first_name.as_slice()),
            last_name: vstd::slice::slice_to_vec(rec.last_name.as_slice()),
            created_at: rec.created_at,
            updated_at: rec.updated_at,
        }
    }
}

/// Registers an account: rejects a malformed input, rejects a taken email
/// with a conflict, and otherwise hashes the password and stores one new
/// record. On every failure the store is exactly what it was.
pub fn register(auth: &AuthService, store: &mut UserStore, body: &CreateUserRequest, now: i64)
    -> (r: Result<UserResponse, ApiError>)
    requires
        old(store).wf(),
    ensures
        final(store).wf(),
        r is Err ==> *final(store) == *old(store),
        (r == Err::<UserResponse, ApiError>(ApiError::ValidationFailed)) <==>
            !valid_register_input(body.email@, body.password@, body.first_name@, body.last_name@),
        (r == Err::<UserResponse, ApiError>(ApiError::Conflict)) <==> (valid_register_input(
            body.email@,
            body.password@,
            body.first_name@,
            body.last_name@,
        ) && has_email(old(store).rows(), body.email@)),
        r is Err ==> (r == Err::<UserResponse, ApiError>(ApiError::ValidationFailed)
            || r == Err::<UserResponse, ApiError>(ApiError::Conflict)
            || r == Err::<UserResponse, ApiError>(ApiError::InternalError)),
        match r {
            Ok(resp) => {
                let rows = final(store).rows();
                let rec = rows.last();
                &&& rows == old(store).rows().push(rec)
                &&& rec.email@ == body.email@
                &&& rec.first_name@ == body.first_name@
                &&& rec.last_name@ == body.last_name@
                &&& bcrypt_check(body.password@, rec.password_hash@) == Some(true)
                &&& rec.created_at == now
                &&& rec.updated_at == now
                &&& is_uuid_text(rec.id@)
                &&& resp.id@ == rec.id@
                &&& resp.email@ == body.email@
                &&& resp.first_name@ == body.first_name@
                &&& resp.last_name@ == body.last_name@
                &&& resp.created_at == now
                &&& resp.updated_at == now
            },
            Err(_) => true,
        },
{
    let valid = check_email(body.email.as_slice()) && body.password.len() >= 8
        && body.first_name.len() >= 1 && body.last_name.len() >= 1;
    if !valid {
        return Err(ApiError::ValidationFailed);
    }
    if store.find_by_email(body.email.as_slice()).is_some() {
        return Err(ApiError::Conflict);
    }
    let password_hash = match auth.hash_password(body.password.as_slice()) {
        Ok(h) => h,
        Err(_) => {
            return Err(ApiError::InternalError);
        },
    };
    let id = fresh_identity();
    // the unique-key constraint of the store: a colliding id cannot be kept
    if store.find_by_id(&id).is_some() {
        return Err(ApiError::InternalError);
    }
    proof {
        lemma_idx_of_user_id(store.rows(), id@);
        lemma_idx_of_email(store.rows(), body.email@);
    }
    let rec = UserRecord {
        id: id.clone(),
        email: vstd::slice::slice_to_vec(body.email.as_slice()),
        password_hash,
        first_name: vstd::slice::slice_to_vec(body.first_name.as_slice()),
        last_name: vstd::slice::slice_to_vec(body.last_name.as_slice()),
        created_at: now,
        updated_at: now,
    };
    let resp = UserResponse {
        id,
        email: vstd::slice::slice_to_vec(body.email.as_slice()),
        first_name: vstd::slice::slice_to_vec(body.first_name.as_slice()),
        last_name: vstd::slice::slice_to_vec(body.last_name.as_slice()),
        created_at: now,
        updated_at: now,
    };
    let ghost old_rows = store.rows();
    store.users.push(rec);
    proof {
        let rows = store.rows();
        assert(rows == old_rows.push(rows.last()));
        assert forall|i: int, j: int|
            #![trigger rows[i].email@, rows[j].email@]
            0 <= i < j < rows.len() implies rows[i].email@ != rows[j].email@ by {
            if j == rows.len() - 1 {
                assert(old_rows[i].email@ != body.email@);
            }
        }
        assert forall|i: int, j: int|
            #![trigger rows[i].id@, rows[j].id@]
            0 <= i < j < rows.len() implies rows[i].id@ != rows[j].id@ by {
            if j == rows.len() - 1 {
                assert(old_rows[i].id@ != rows[j].id@);
            }
        }
    }
    Ok(resp)
}

/// What login answers: a malformed input is rejected, an unknown email and
/// a wrong password are rejected with one and the same error, a malformed
/// stored hash is an internal failure, and a correct credential earns the
/// token for the record's subject, issued now and valid for one window.
pub open spec fn spec_login(
    rows: Seq<UserRecord>,
    secret: Seq<u8>,
    email: Seq<u8>,
    password: Seq<u8>,
    now: int,
) -> Result<(Seq<u8>, int), ApiError> {
    if !valid_login_input(email, password) {
        Err(ApiError::ValidationFailed)
    } else {
        let i = idx_of_email(rows, email);
        if i >= rows.len() {
            Err(ApiError::InvalidCredentials)
        } else {
            match bcrypt_check(password, rows[i].password_hash@) {
                None => Err(ApiError::InternalError),
                Some(false) => Err(ApiError::InvalidCredentials),
                Some(true) => Ok((token_of(secret, rows[i].id@, now, now + VALIDITY_SECS), i)),
            }
        }
    }
}

/// An unknown email and a known email with a wrong password fail with one
/// and the same error, so login reveals nothing about which was the case.
pub proof fn lemma_login_hides_cause(
    rows: Seq<UserRecord>,
    secret: Seq<u8>,
    email_a: Seq<u8>,
    password_a: Seq<u8>,
    email_b: Seq<u8>,
    password_b: Seq<u8>,
    now: int,
)
    requires
        valid_login_input(email_a, password_a),
        valid_login_input(email_b, password_b),
        !has_email(rows, email_a),
        has_email(rows, email_b),
        bcrypt_check(password_b, rows[idx_of_email(rows, email_b)].password_hash@)
            == Some(false),
    ensures
        spec_login(rows, secret, email_a, password_a, now) == Err::<(Seq<u8>, int), ApiError>(
            ApiError::InvalidCredentials,
        ),
        spec_login(rows, secret, email_b, password_b, now) == spec_login(
            rows,
            secret,
            email_a,
            password_a,
            now,
        ),
{
    lemma_idx_of_email(rows, email_a);
    lemma_idx_of_email(rows, email_b);
}

/// Checks a credential and hands out a token, exactly as `spec_login`
/// says; the store is read, never written.
pub fn login(auth: &AuthService, store: &UserStore, body: &LoginRequest, now: i64) -> (r: Result<
    LoginResponse,
    ApiError,
>)
    requires
        store.wf(),
        0 <= now < CLOCK_BOUND,
    ensures
        match r {
            Ok(resp) => {
                let i = idx_of_email(store.rows(), body.email@);
                &&& spec_login(store.rows(), auth.secret(), body.email@, body.password@, now as int)
                    == Ok::<(Seq<u8>, int), ApiError>((resp.token@, i))
                &&& resp.user.id@ == store.rows()[i].id@
                &&& resp.user.email@ == store.rows()[i].email@
                &&& resp.user.first_name@ == store.rows()[i].first_name@
                &&& resp.user.last_name@ == store.rows()[i].last_name@
            },
            Err(e) => spec_login(store.rows(), auth.secret(), body.email@, body.password@, now as int)
                == Err::<(Seq<u8>, int), ApiError>(e),
        },
{
    let valid = check_email(body.email.as_slice()) && body.password.len() >= 1;
    if !valid {
        return Err(ApiError::ValidationFailed);
    }
    let i = match store.find_by_email(body.email.as_slice()) {
        Some(i) => i,
        None => {
            proof {
                lemma_idx_of_email(store.rows(), body.email@);
            }
            return Err(ApiError::InvalidCredentials);
        },
    };
    let matched = match auth.verify_password(
        body.password.as_slice(),
        store.users[i].password_hash.as_slice(),
    ) {
        Ok(b) => b,
        Err(_) => {
            return Err(ApiError::InternalError);
        },
    };
    if !matched {
        return Err(ApiError::InvalidCredentials);
    }
    let token = auth.generate_token_at(&store.users[i].id, now);
    let user = store.summary_at(i);
    Ok(LoginResponse { token, user })
}

} // verus!
