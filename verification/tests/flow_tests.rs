use auth_core::ApiError;
use auth_core::handlers::{
    get_posts, get_post, get_current_user, create_post, update_post, delete_post,
};
use auth_core::identity::Identity;
use auth_core::middleware::AuthMiddlewareService;
use auth_core::posts::{PostStore, CreatePostRequest, UpdatePostRequest};
use auth_core::service::AuthService;
use auth_core::users::{
    UserStore, CreateUserRequest, LoginRequest, register, login,
};

const SECRET: &[u8] = b"flow-secret";
const NOW: i64 = 1_700_000_000;

fn auth() -> AuthService {
    AuthService::new(SECRET.to_vec())
}

fn mw() -> AuthMiddlewareService {
    AuthMiddlewareService::new(auth())
}

fn register_request(email: &[u8]) -> CreateUserRequest {
    CreateUserRequest {
        email: email.to_vec(),
        password: b"secret123".to_vec(),
        first_name: b"Ada".to_vec(),
        last_name: b"Lovelace".to_vec(),
    }
}

fn bearer(token: &[u8]) -> Vec<u8> {
    let mut h = b"Bearer ".to_vec();
    h.extend_from_slice(token);
    h
}

#[test]
fn registration_validates_input_shape() {
    let a = auth();
    let mut store = UserStore::new();
    let mut bad_email = register_request(b"not-an-email");
    bad_email.email = b"not-an-email".to_vec();
    assert_eq!(register(&a, &mut store, &bad_email, NOW).err(), Some(ApiError::ValidationFailed));
    let mut short_password = register_request(b"a@x.com");
    short_password.password = b"short".to_vec();
    assert_eq!(register(&a, &mut store, &short_password, NOW).err(), Some(ApiError::ValidationFailed));
    let mut no_name = register_request(b"a@x.com");
    no_name.first_name = Vec::new();
    assert_eq!(register(&a, &mut store, &no_name, NOW).err(), Some(ApiError::ValidationFailed));
    assert_eq!(store.len(), 0);
}

#[test]
fn duplicate_email_conflicts_and_leaves_store_unchanged() {
    let a = auth();
    let mut store = UserStore::new();
    register(&a, &mut store, &register_request(b"a@x.com"), NOW).expect("first registration");
    assert_eq!(store.len(), 1);
    let r = register(&a, &mut store, &register_request(b"a@x.com"), NOW);
    assert_eq!(r.err(), Some(ApiError::Conflict));
    assert_eq!(ApiError::Conflict.status_code(), 409);
    assert_eq!(store.len(), 1, "a conflict must not alter the stored credential count");
}

#[test]
fn login_gives_one_error_for_wrong_password_and_unknown_email() {
    let a = auth();
    let mut store = UserStore::new();
    register(&a, &mut store, &register_request(b"a@x.com"), NOW).expect("registration");
    let wrong_password = login(
        &a,
        &store,
        &LoginRequest { email: b"a@x.com".to_vec(), password: b"wrongpass".to_vec() },
        NOW,
    );
    let unknown_email = login(
        &a,
        &store,
        &LoginRequest { email: b"b@x.com".to_vec(), password: b"secret123".to_vec() },
        NOW,
    );
    assert_eq!(wrong_password.as_ref().err(), Some(&ApiError::InvalidCredentials));
    assert_eq!(unknown_email.as_ref().err(), Some(&ApiError::InvalidCredentials));
    assert_eq!(wrong_password.err(), unknown_email.err());
    assert_eq!(ApiError::InvalidCredentials.status_code(), 401);
}

#[test]
fn login_token_carries_the_registered_identity() {
    let a = auth();
    let mut store = UserStore::new();
    let created = register(&a, &mut store, &register_request(b"a@x.com"), NOW).unwrap();
    let resp = login(
        &a,
        &store,
        &LoginRequest { email: b"a@x.com".to_vec(), password: b"secret123".to_vec() },
        NOW,
    )
    .expect("correct credentials must log in");
    assert!(!resp.token.is_empty());
    let claims = a.validate_token_at(&resp.token, NOW + 10).expect("a fresh token verifies");
    assert_eq!(claims.sub, created.id.to_vec());
    assert_eq!(resp.user.email, b"a@x.com".to_vec());
}

#[test]
fn full_scenario_register_login_me_and_tampered_token() {
    let a = auth();
    let m = mw();
    let mut users = UserStore::new();
    let created = register(&a, &mut users, &register_request(b"a@x.com"), NOW)
        .expect("registration succeeds");
    assert_eq!(created.email, b"a@x.com".to_vec());
    let resp = login(
        &a,
        &users,
        &LoginRequest { email: b"a@x.com".to_vec(), password: b"secret123".to_vec() },
        NOW,
    )
    .expect("login succeeds");
    assert!(!resp.token.is_empty());
    let header = bearer(&resp.token);
    let me = get_current_user(&m, &users, Some(&header), NOW + 5).expect("me succeeds");
    assert_eq!(me.email, b"a@x.com".to_vec());
    // the same request with the token's last character flipped is rejected
    let mut tampered = resp.token.clone();
    let last = *tampered.last().unwrap();
    *tampered.last_mut().unwrap() = if last == b'A' { b'B' } else { b'A' };
    let header2 = bearer(&tampered);
    let r = get_current_user(&m, &users, Some(&header2), NOW + 5);
    assert_eq!(r.err(), Some(ApiError::InvalidToken));
    assert_eq!(ApiError::InvalidToken.status_code(), 401);
}

#[test]
fn missing_header_is_rejected_without_side_effects() {
    let m = mw();
    let mut posts = PostStore::new();
    let users = UserStore::new();
    let body = CreatePostRequest { title: b"Title".to_vec(), content: b"Body".to_vec() };
    let r = create_post(&m, &mut posts, &users, None, &body, NOW);
    assert_eq!(r.err(), Some(ApiError::AuthorizationRequired));
    assert_eq!(ApiError::AuthorizationRequired.status_code(), 401);
    assert_eq!(posts.len(), 0, "the handler must never run without authentication");
}

#[test]
fn malformed_scheme_is_rejected() {
    let m = mw();
    let users = UserStore::new();
    let header = b"Token abc".to_vec();
    let r = get_current_user(&m, &users, Some(&header), NOW);
    assert_eq!(r.err(), Some(ApiError::InvalidAuthorizationFormat));
    let header2 = b"Bearer".to_vec();
    let r2 = get_current_user(&m, &users, Some(&header2), NOW);
    assert_eq!(r2.err(), Some(ApiError::InvalidAuthorizationFormat));
}

#[test]
fn token_subject_must_be_an_identity() {
    let a = auth();
    let m = mw();
    let users = UserStore::new();
    let claims = auth_core::token::Claims {
        sub: b"not-an-identity".to_vec(),
        exp: NOW + 86400,
        iat: NOW,
    };
    let token = auth_core::token::make_token(SECRET, &claims);
    assert!(a.validate_token_at(&token, NOW).is_ok(), "the token itself is valid");
    let header = bearer(&token);
    let r = get_current_user(&m, &users, Some(&header), NOW);
    assert_eq!(r.err(), Some(ApiError::InvalidSubject));
}

#[test]
fn expired_token_is_rejected_by_the_interceptor() {
    let a = auth();
    let m = mw();
    let users = UserStore::new();
    let id = Identity::parse(b"01234567-89ab-cdef-0123-456789abcdef").unwrap();
    let token = a.generate_token_at(&id, NOW - 2 * 86400);
    let header = bearer(&token);
    let r = get_current_user(&m, &users, Some(&header), NOW);
    assert_eq!(r.err(), Some(ApiError::InvalidToken));
}

fn registered_user_with_token(
    a: &AuthService,
    users: &mut UserStore,
    email: &[u8],
) -> (Identity, Vec<u8>) {
    let created = register(a, users, &register_request(email), NOW).expect("registration");
    let resp = login(
        a,
        users,
        &LoginRequest { email: email.to_vec(), password: b"secret123".to_vec() },
        NOW,
    )
    .expect("login");
    (created.id, resp.token)
}

#[test]
fn owner_can_mutate_and_others_are_forbidden() {
    let a = auth();
    let m = mw();
    let mut users = UserStore::new();
    let mut posts = PostStore::new();
    let (id_a, token_a) = registered_user_with_token(&a, &mut users, b"a@x.com");
    let (_id_b, token_b) = registered_user_with_token(&a, &mut users, b"b@x.com");
    let header_a = bearer(&token_a);
    let header_b = bearer(&token_b);

    let body = CreatePostRequest { title: b"Title".to_vec(), content: b"Body".to_vec() };
    let created = create_post(&m, &mut posts, &users, Some(&header_a), &body, NOW + 1)
        .expect("the owner creates a post");
    assert_eq!(created.user_id.to_vec(), id_a.to_vec());
    let post_id = created.id;

    // the other identity gets Forbidden, not NotFound
    let upd = UpdatePostRequest { title: Some(b"Newer".to_vec()), content: None };
    let r_b = update_post(&m, &mut posts, &users, Some(&header_b), &post_id, &upd, NOW + 2);
    assert_eq!(r_b.err(), Some(ApiError::Forbidden));
    assert_eq!(ApiError::Forbidden.status_code(), 403);
    let d_b = delete_post(&m, &mut posts, Some(&header_b), &post_id, NOW + 2);
    assert_eq!(d_b.err(), Some(ApiError::Forbidden));
    assert_eq!(posts.len(), 1);

    // the owner may update and delete
    let r_a = update_post(&m, &mut posts, &users, Some(&header_a), &post_id, &upd, NOW + 3)
        .expect("the owner updates");
    assert_eq!(r_a.title, b"Newer".to_vec());
    assert_eq!(r_a.content, b"Body".to_vec(), "an absent field keeps the stored value");
    delete_post(&m, &mut posts, Some(&header_a), &post_id, NOW + 4).expect("the owner deletes");
    assert_eq!(posts.len(), 0);
}

#[test]
fn reads_are_public_and_join_the_owner() {
    let a = auth();
    let m = mw();
    let mut users = UserStore::new();
    let mut posts = PostStore::new();
    let (_id, token) = registered_user_with_token(&a, &mut users, b"a@x.com");
    let header = bearer(&token);
    let body = CreatePostRequest { title: b"Title".to_vec(), content: b"Body".to_vec() };
    let created = create_post(&m, &mut posts, &users, Some(&header), &body, NOW + 1).unwrap();

    let all = get_posts(&posts, &users);
    assert_eq!(all.len(), 1);
    let joined = all[0].user.as_ref().expect("the owner's summary is joined in");
    assert_eq!(joined.email, b"a@x.com".to_vec());

    let one = get_post(&posts, &users, &created.id).expect("an existing post is readable");
    assert_eq!(one.title, b"Title".to_vec());

    let missing = Identity::parse(b"ffffffff-ffff-ffff-ffff-ffffffffffff").unwrap();
    assert_eq!(get_post(&posts, &users, &missing).err(), Some(ApiError::NotFound));
    assert_eq!(ApiError::NotFound.status_code(), 404);
}

#[test]
fn create_post_validates_input_shape() {
    let a = auth();
    let m = mw();
    let mut users = UserStore::new();
    let mut posts = PostStore::new();
    let (_id, token) = registered_user_with_token(&a, &mut users, b"a@x.com");
    let header = bearer(&token);
    let empty_title = CreatePostRequest { title: Vec::new(), content: b"Body".to_vec() };
    let r = create_post(&m, &mut posts, &users, Some(&header), &empty_title, NOW + 1);
    assert_eq!(r.err(), Some(ApiError::ValidationFailed));
    assert_eq!(ApiError::ValidationFailed.status_code(), 400);
    let long_title = CreatePostRequest { title: vec![b'x'; 256], content: b"Body".to_vec() };
    let r2 = create_post(&m, &mut posts, &users, Some(&header), &long_title, NOW + 1);
    assert_eq!(r2.err(), Some(ApiError::ValidationFailed));
    assert_eq!(posts.len(), 0);
}

#[test]
fn current_user_of_a_deleted_account_is_not_found() {
    let a = auth();
    let m = mw();
    let users = UserStore::new();
    let id = Identity::parse(b"01234567-89ab-cdef-0123-456789abcdef").unwrap();
    let token = a.generate_token_at(&id, NOW);
    let header = bearer(&token);
    let r = get_current_user(&m, &users, Some(&header), NOW + 1);
    assert_eq!(r.err(), Some(ApiError::NotFound));
}

#[test]
fn each_registration_gets_its_own_identity() {
    let a = auth();
    let mut users = UserStore::new();
    let first = register(&a, &mut users, &register_request(b"a@x.com"), NOW).unwrap();
    let second = register(&a, &mut users, &register_request(b"b@x.com"), NOW).unwrap();
    assert_ne!(first.id.to_vec(), second.id.to_vec());
    assert!(Identity::parse(&first.id.to_vec()).is_some());
}

#[test]
fn listing_returns_newest_first() {
    let a = auth();
    let m = mw();
    let mut users = UserStore::new();
    let mut posts = PostStore::new();
    let (_id, token) = registered_user_with_token(&a, &mut users, b"a@x.com");
    let header = bearer(&token);
    let older = CreatePostRequest { title: b"Older".to_vec(), content: b"Body".to_vec() };
    let newer = CreatePostRequest { title: b"Newer".to_vec(), content: b"Body".to_vec() };
    create_post(&m, &mut posts, &users, Some(&header), &older, NOW + 1).unwrap();
    create_post(&m, &mut posts, &users, Some(&header), &newer, NOW + 2).unwrap();
    let all = get_posts(&posts, &users);
    assert_eq!(all.len(), 2);
    assert_eq!(all[0].title, b"Newer".to_vec());
    assert_eq!(all[1].title, b"Older".to_vec());
}
