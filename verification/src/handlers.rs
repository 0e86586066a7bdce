//! The request-level flows behind the routes: reads are public, every
//! mutation runs the authentication stage first and, for an existing
//! resource, the ownership guard. On any rejection the store is exactly
//! what it was: a refused request has no side effect.

use vstd::prelude::*;
use crate::ApiError;
use crate::identity::{Identity, fresh_identity};
use crate::middleware::{AuthMiddlewareService, spec_authenticate, header_view};
use crate::ownership::{OwnershipGuard, OwnershipDecision};
use crate::posts::{
    Post, PostStore, PostResponse, CreatePostRequest, UpdatePostRequest, valid_create_post,
    valid_update_post, idx_of_post, lemma_idx_of_post, copy_bytes,
};
use crate::users::{UserStore, UserRecord, UserResponse, idx_of_user_id};

verus! {

/// How a handed-out post relates to the stored one: the payload fields are
/// the post's, and the owner summary is joined in exactly where the owner's
/// record exists.
pub open spec fn response_matches(users: Seq<UserRecord>, p: Post, r: PostResponse) -> bool {
    &&& r.id@ == p.id@
    &&& r.title@ == p.title@
    &&& r.content@ == p.content@
    &&& r.user_id@ == p.user_id@
    &&& r.created_at == p.created_at
    &&& r.updated_at == p.updated_at
    &&& match r.user {
        None => idx_of_user_id(users, p.user_id@) >= users.len(),
        Some(u) => {
            let k = idx_of_user_id(users, p.user_id@);
            &&& k < users.len()
            &&& u.id@ == users[k].id@
            &&& u.email@ == users[k].email@
            &&& u.first_name@ == users[k].first_name@
            &&& u.last_name@ == users[k].last_name@
            &&& u.created_at == users[k].created_at
            &&& u.updated_at == users[k].updated_at
        },
    }
}

/// The owner's summary, where the owner's record still exists; a missing
/// owner degrades to a bare post rather than an error.
fn joined_user(users: &UserStore, uid: &Identity) -> (r: Option<UserResponse>)
    ensures
        match r {
            None => idx_of_user_id(users.rows(), uid@) >= users.rows().len(),
            Some(u) => {
                let k = idx_of_user_id(users.rows(), uid@);
                &&& k < users.rows().len()
                &&& u.id@ == users.rows()[k].id@
                &&& u.email@ == users.rows()[k].email@
                &&& u.first_name@ == users.rows()[k].first_name@
                &&& u.last_name@ == users.rows()[k].last_name@
                &&& u.created_at == users.rows()[k].created_at
                &&& u.updated_at == users.rows()[k].updated_at
            },
        },
{
    match users.find_by_id(uid) {
        Some(i) => Some(users.summary_at(i)),
        None => None,
    }
}

/// Builds the response for one stored post.
fn response_for(users: &UserStore, p: &Post) -> (r: PostResponse)
    ensures
        response_matches(users.rows(), *p, r),
{
    PostResponse {
        id: p.id.clone(),
        title: copy_bytes(&p.title),
        content: copy_bytes(&p.content),
        user_id: p.user_id.clone(),
        user: joined_user(users, &p.user_id),
        created_at: p.created_at,
        updated_at: p.updated_at,
    }
}

/// Reads all posts, newest first as the store appends in creation order,
/// each with its owner's summary joined in; reads are public and run no
/// authentication.
pub fn get_posts(posts: &PostStore, users: &UserStore) -> (r: Vec<PostResponse>)
    ensures
        r@.len() == posts.rows().len(),
        forall|i: int| 0 <= i < r@.len() ==> response_matches(
            users.rows(),
            posts.rows()[posts.rows().len() - 1 - i],
            #[trigger] r@[i],
        ),
{
    let mut r: Vec<PostResponse> = Vec::new();
    let mut i: usize = posts.len();
    while i > 0
        invariant
            i <= posts.rows().len(),
            r@.len() == posts.rows().len() - i,
            forall|j: int| 0 <= j < r@.len() ==> response_matches(
                users.rows(),
                posts.rows()[posts.rows().len() - 1 - j],
                #[trigger] r@[j],
            ),
        decreases i,
    {
        i = i - 1;
        let resp = response_for(users, posts.post_at(i));
        r.push(resp);
    }
    r
}

/// Reads one post by id; missing is the only failure.
pub fn get_post(posts: &PostStore, users: &UserStore, post_id: &Identity) -> (r: Result<
    PostResponse,
    ApiError,
>)
    ensures
        match r {
            Ok(resp) => {
                let k = idx_of_post(posts.rows(), post_id@);
                k < posts.rows().len() && response_matches(users.rows(), posts.rows()[k], resp)
            },
            Err(e) => e == ApiError::NotFound && idx_of_post(posts.rows(), post_id@)
                >= posts.rows().len(),
        },
{
    match posts.find_by_id(post_id) {
        Some(i) => Ok(response_for(users, posts.post_at(i))),
        None => Err(ApiError::NotFound),
    }
}

/// Reads the authenticated account's own summary: the authentication stage
/// decides first, then the store is read by the token's subject.
pub fn get_current_user(
    mw: &AuthMiddlewareService,
    users: &UserStore,
    header: Option<&Vec<u8>>,
    now: i64,
) -> (r: Result<UserResponse, ApiError>)
    ensures
        match spec_authenticate(mw.secret(), header_view(header), now as int) {
            Err(e) => r == Err::<UserResponse, ApiError>(e),
            Ok(sub) => {
                let k = idx_of_user_id(users.rows(), sub);
                match r {
                    Ok(u) => {
                        &&& k < users.rows().len()
                        &&& u.id@ == users.rows()[k].id@
                        &&& u.email@ == users.rows()[k].email@
                        &&& u.first_name@ == users.rows()[k].first_name@
                        &&& u.last_name@ == users.rows()[k].last_name@
                    },
                    Err(e) => e == ApiError::NotFound && k >= users.rows().len(),
                }
            },
        },
{
    let who = match mw.authenticate(header, now) {
        Ok(id) => id,
        Err(e) => {
            return Err(e);
        },
    };
    match users.find_by_id(&who) {
        Some(i) => Ok(users.summary_at(i)),
        None => Err(ApiError::NotFound),
    }
}

/// Creates a post for the authenticated identity: the authentication stage
/// decides first, then the input shape; on success exactly one post is
/// appended, owned by the token's subject. On any rejection the store is
/// exactly what it was.
pub fn create_post(
    mw: &AuthMiddlewareService,
    posts: &mut PostStore,
    users: &UserStore,
    header: Option<&Vec<u8>>,
    body: &CreatePostRequest,
    now: i64,
) -> (r: Result<PostResponse, ApiError>)
    requires
        old(posts).wf(),
    ensures
        final(posts).wf(),
        r is Err ==> *final(posts) == *old(posts),
        match spec_authenticate(mw.secret(), header_view(header), now as int) {
            Err(e) => r == Err::<PostResponse, ApiError>(e),
            Ok(sub) => {
                if !valid_create_post(body.title@, body.content@) {
                    r == Err::<PostResponse, ApiError>(ApiError::ValidationFailed)
                } else {
                    match r {
                        Ok(resp) => {
                            let rows = final(posts).rows();
                            let p = rows.last();
                            &&& rows == old(posts).rows().push(p)
                            &&& p.title@ == body.title@
                            &&& p.content@ == body.content@
                            &&& p.user_id@ == sub
                            &&& p.created_at == now
                            &&& p.updated_at == now
                            &&& response_matches(users.rows(), p, resp)
                        },
                        Err(e) => e == ApiError::InternalError,
                    }
                }
            },
        },
{
    let who = match mw.authenticate(header, now) {
        Ok(id) => id,
        Err(e) => {
            return Err(e);
        },
    };
    if !(1 <= body.title.len() && body.title.len() <= 255 && body.content.len() >= 1) {
        return Err(ApiError::ValidationFailed);
    }
    let id = fresh_identity();
    // the unique-key constraint of the store: a colliding id cannot be kept
    if posts.find_by_id(&id).is_some() {
        return Err(ApiError::InternalError);
    }
    proof {
        lemma_idx_of_post(posts.rows(), id@);
    }
    let p = Post {
        id,
        title: copy_bytes(&body.title),
        content: copy_bytes(&body.content),
        user_id: who,
        created_at: now,
        updated_at: now,
    };
    let ghost old_rows = posts.rows();
    posts.push_post(p);
    proof {
        let rows = posts.rows();
        assert(rows == old_rows.push(rows.last()));
        assert forall|i: int, j: int|
            #![trigger rows[i].id@, rows[j].id@]
            0 <= i < j < rows.len() implies rows[i].id@ != rows[j].id@ by {
            if j == rows.len() - 1 {
                assert(old_rows[i].id@ != rows[j].id@);
            }
        }
    }
    let n = posts.len();
    let resp = response_for(users, posts.post_at(n - 1));
    Ok(resp)
}

/// Updates a post: the authentication stage decides first, then the input
/// shape, then the ownership guard on the stored post; only the owner's
/// update goes through, replacing exactly the given fields and the update
/// time. On any rejection the store is exactly what it was.
pub fn update_post(
    mw: &AuthMiddlewareService,
    posts: &mut PostStore,
    users: &UserStore,
    header: Option<&Vec<u8>>,
    post_id: &Identity,
    body: &UpdatePostRequest,
    now: i64,
) -> (r: Result<PostResponse, ApiError>)
    requires
        old(posts).wf(),
    ensures
        final(posts).wf(),
        r is Err ==> *final(posts) == *old(posts),
        match spec_authenticate(mw.secret(), header_view(header), now as int) {
            Err(e) => r == Err::<PostResponse, ApiError>(e),
            Ok(sub) => {
                let k = idx_of_post(old(posts).rows(), post_id@);
                if !valid_update_post(body.title, body.content) {
                    r == Err::<PostResponse, ApiError>(ApiError::ValidationFailed)
                } else if k >= old(posts).rows().len() {
                    r == Err::<PostResponse, ApiError>(ApiError::NotFound)
                } else if old(posts).rows()[k].user_id@ != sub {
                    r == Err::<PostResponse, ApiError>(ApiError::Forbidden)
                } else {
                    match r {
                        Ok(resp) => {
                            let np = final(posts).rows()[k];
                            &&& final(posts).rows() == old(posts).rows().update(k, np)
                            &&& np.id@ == old(posts).rows()[k].id@
                            &&& np.user_id@ == old(posts).rows()[k].user_id@
                            &&& np.created_at == old(posts).rows()[k].created_at
                            &&& np.updated_at == now
                            &&& np.title@ == (match body.title {
                                Some(t) => t@,
                                None => old(posts).rows()[k].title@,
                            })
                            &&& np.content@ == (match body.content {
                                Some(c) => c@,
                                None => old(posts).rows()[k].content@,
                            })
                            &&& response_matches(users.rows(), np, resp)
                        },
                        Err(_) => false,
                    }
                }
            },
        },
{
    let who = match mw.authenticate(header, now) {
        Ok(id) => id,
        Err(e) => {
            return Err(e);
        },
    };
    let title_ok = match &body.title {
        Some(t) => 1 <= t.len() && t.len() <= 255,
        None => true,
    };
    let content_ok = match &body.content {
        Some(c) => c.len() >= 1,
        None => true,
    };
    if !(title_ok && content_ok) {
        return Err(ApiError::ValidationFailed);
    }
    let k = match posts.find_by_id(post_id) {
        Some(k) => k,
        None => {
            return Err(ApiError::NotFound);
        },
    };
    match OwnershipGuard::authorize(&who, Some(posts.post_at(k))) {
        OwnershipDecision::Allow => {},
        OwnershipDecision::Forbidden => {
            return Err(ApiError::Forbidden);
        },
        OwnershipDecision::NotFound => {
            // the guard never reports missing for a resource the store found
            proof {
                assert(false);
            }
            return Err(ApiError::NotFound);
        },
    }
    let ghost old_rows = posts.rows();
    let prev = posts.take_at(k);
    let new_title = match &body.title {
        Some(t) => copy_bytes(t),
        None => copy_bytes(&prev.title),
    };
    let new_content = match &body.content {
        Some(c) => copy_bytes(c),
        None => copy_bytes(&prev.content),
    };
    let np = Post {
        id: prev.id,
        title: new_title,
        content: new_content,
        user_id: prev.user_id,
        created_at: prev.created_at,
        updated_at: now,
    };
    posts.insert_at(k, np);
    proof {
        let rows = posts.rows();
        assert(rows =~= old_rows.update(k as int, rows[k as int]));
        assert forall|i: int, j: int|
            #![trigger rows[i].id@, rows[j].id@]
            0 <= i < j < rows.len() implies rows[i].id@ != rows[j].id@ by {
            assert(rows[i].id@ == old_rows[i].id@);
            assert(rows[j].id@ == old_rows[j].id@);
        }
    }
    let resp = response_for(users, posts.post_at(k));
    Ok(resp)
}

/// Deletes a post: the authentication stage decides first, then the
/// ownership guard; only the owner's delete goes through, removing exactly
/// that post. On any rejection the store is exactly what it was.
pub fn delete_post(
    mw: &AuthMiddlewareService,
    posts: &mut PostStore,
    header: Option<&Vec<u8>>,
    post_id: &Identity,
    now: i64,
) -> (r: Result<(), ApiError>)
    requires
        old(posts).wf(),
    ensures
        final(posts).wf(),
        r is Err ==> *final(posts) == *old(posts),
        match spec_authenticate(mw.secret(), header_view(header), now as int) {
            Err(e) => r == Err::<(), ApiError>(e),
            Ok(sub) => {
                let k = idx_of_post(old(posts).rows(), post_id@);
                if k >= old(posts).rows().len() {
                    r == Err::<(), ApiError>(ApiError::NotFound)
                } else if old(posts).rows()[k].user_id@ != sub {
                    r == Err::<(), ApiError>(ApiError::Forbidden)
                } else {
                    r is Ok && final(posts).rows() == old(posts).rows().remove(k)
                }
            },
        },
{
    let who = match mw.authenticate(header, now) {
        Ok(id) => id,
        Err(e) => {
            return Err(e);
        },
    };
    let k = match posts.find_by_id(post_id) {
        Some(k) => k,
        None => {
            return Err(ApiError::NotFound);
        },
    };
    match OwnershipGuard::authorize(&who, Some(posts.post_at(k))) {
        OwnershipDecision::Allow => {},
        OwnershipDecision::Forbidden => {
            return Err(ApiError::Forbidden);
        },
        OwnershipDecision::NotFound => {
            // the guard never reports missing for a resource the store found
            proof {
                assert(false);
            }
            return Err(ApiError::NotFound);
        },
    }
    let ghost old_rows = posts.rows();
    posts.take_at(k);
    proof {
        let rows = posts.rows();
        assert forall|i: int, j: int|
            #![trigger rows[i].id@, rows[j].id@]
            0 <= i < j < rows.len() implies rows[i].id@ != rows[j].id@ by {
            let i0: int = if i < k { i } else { i + 1 };
            let j0: int = if j < k { j } else { j + 1 };
            assert(rows[i] == old_rows[i0]);
            assert(rows[j] == old_rows[j0]);
        }
        assert forall|i: int| 0 <= i < rows.len() implies crate::identity::is_uuid_text(
            #[trigger] rows[i].id@,
        ) by {
            let i0: int = if i < k { i } else { i + 1 };
            assert(rows[i] == old_rows[i0]);
        }
    }
    Ok(())
}

} // verus!
