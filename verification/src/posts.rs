//! Owned resources: posts, each with a recorded owner identity, and the
//! in-memory store keyed by post id that stands for the storage
//! collaborator.

use vstd::prelude::*;
use crate::identity::{Identity, is_uuid_text};

verus! {

/// An owned resource: id, payload, owner and timestamps.
pub struct Post {
    pub id: Identity,
    pub title: Vec<u8>,
    pub content: Vec<u8>,
    pub user_id: Identity,
    pub created_at: i64,
    pub updated_at: i64,
}

/// The input that creates a post.
pub struct CreatePostRequest {
    pub title: Vec<u8>,
    pub content: Vec<u8>,
}

/// The input that updates a post; an absent field keeps the stored value.
pub struct UpdatePostRequest {
    pub title: Option<Vec<u8>>,
    pub content: Option<Vec<u8>>,
}

/// A post as handed out, with the owner's summary joined in where the
/// owner's record can still be read.
pub struct PostResponse {
    pub id: Identity,
    pub title: Vec<u8>,
    pub content: Vec<u8>,
    pub user_id: Identity,
    pub user: Option<crate::users::UserResponse>,
    pub created_at: i64,
    pub updated_at: i64,
}

/// The create input shape: a title of 1 to 255 bytes and content present.
pub open spec fn valid_create_post(title: Seq<u8>, content: Seq<u8>) -> bool {
    1 <= title.len() <= 255 && content.len() >= 1
}

/// The update input shape: each given field meets the create bounds.
pub open spec fn valid_update_post(title: Option<Vec<u8>>, content: Option<Vec<u8>>) -> bool {
    &&& match title {
        None => true,
        Some(t) => 1 <= t@.len() <= 255,
    }
    &&& match content {
        None => true,
        Some(c) => c@.len() >= 1,
    }
}

/// The first index whose post has the given id, or the length.
pub open spec fn idx_of_post(rows: Seq<Post>, id: Seq<u8>) -> int
    decreases rows.len(),
{
    if rows.len() == 0 {
        0
    } else if rows[0].id@ == id {
        0
    } else {
        1 + idx_of_post(rows.skip(1), id)
    }
}

/// What `idx_of_post` returns: the first matching index, or the length.
pub proof fn lemma_idx_of_post(rows: Seq<Post>, id: Seq<u8>)
    ensures
        0 <= idx_of_post(rows, id) <= rows.len(),
        idx_of_post(rows, id) < rows.len() ==> rows[idx_of_post(rows, id)].id@ == id,
        forall|i: int| 0 <= i < idx_of_post(rows, id) ==> rows[i].id@ != id,
    decreases rows.len(),
{
    if rows.len() == 0 {
    } else if rows[0].id@ == id {
    } else {
        lemma_idx_of_post(rows.skip(1), id);
        let k = idx_of_post(rows.skip(1), id);
        assert forall|i: int| 0 <= i < 1 + k implies rows[i].id@ != id by {
            if i > 0 {
                assert(rows.skip(1)[i - 1].id@ != id);
            }
        }
    }
}

/// The in-memory post store that stands for the storage collaborator: post
/// ids are unique canonical identity text.
pub struct PostStore {
    pub(crate) posts: Vec<Post>,
}

impl PostStore {
    /// The stored posts, in insertion order.
    pub closed spec fn rows(&self) -> Seq<Post> {
        self.posts@
    }

    /// The store's invariant: unique canonical ids.
    pub open spec fn wf(&self) -> bool {
        &&& forall|i: int, j: int|
            #![trigger self.rows()[i].id@, self.rows()[j].id@]
            0 <= i < j < self.rows().len() ==> self.rows()[i].id@ != self.rows()[j].id@
        &&& forall|i: int| 0 <= i < self.rows().len() ==> is_uuid_text(
                #[trigger] self.rows()[i].id@,
            )
    }

    /// An empty store.
    pub fn new() -> (r: PostStore)
        ensures
            r.wf(),
            r.rows().len() == 0,
    {
        PostStore { posts: Vec::new() }
    }

    /// How many posts are stored.
    pub fn len(&self) -> (r: usize)
        ensures
            r == self.rows().len(),
    {
        self.posts.len()
    }

    /// The stored post at an index.
    pub fn post_at(&self, i: usize) -> (r: &Post)
        requires
            i < self.rows().len(),
        ensures
            *r == self.rows()[i as int],
    {
        &self.posts[i]
    }

    /// Appends a post.
    pub(crate) fn push_post(&mut self, p: Post)
        ensures
            final(self).rows() == old(self).rows().push(p),
    {
        self.posts.push(p)
    }

    /// Takes the post at an index out of the store.
    pub(crate) fn take_at(&mut self, i: usize) -> (r: Post)
        requires
            i < old(self).rows().len(),
        ensures
            r == old(self).rows()[i as int],
            final(self).rows() == old(self).rows().remove(i as int),
    {
        self.posts.remove(i)
    }

    /// Puts a post in at an index.
    pub(crate) fn insert_at(&mut self, i: usize, p: Post)
        requires
            i <= old(self).rows().len(),
        ensures
            final(self).rows() == old(self).rows().insert(i as int, p),
    {
        self.posts.insert(i, p)
    }

    /// Finds the post with the given id, aligned with `idx_of_post`.
    pub fn find_by_id(&self, id: &Identity) -> (r: Option<usize>)
        ensures
            match r {
                Some(i) => i == idx_of_post(self.rows(), id@) && i < self.rows().len(),
                None => idx_of_post(self.rows(), id@) == self.rows().len(),
            },
    {
        proof {
            lemma_idx_of_post(self.rows(), id@);
        }
        let ghost k = idx_of_post(self.rows(), id@);
        let mut i: usize = 0;
        while i < self.posts.len()
            invariant
                i <= self.rows().len(),
                k == idx_of_post(self.rows(), id@),
                0 <= k <= self.rows().len(),
                k < self.rows().len() ==> self.rows()[k].id@ == id@,
                forall|j: int| 0 <= j < k ==> self.rows()[j].id@ != id@,
                forall|j: int| 0 <= j < i ==> self.rows()[j].id@ != id@,
            decreases self.rows().len() - i,
        {
            if self.posts[i].id.same(id) {
                proof {
                    assert(k >= i) by {
                        if k < i {
                            assert(self.rows()[k].id@ != id@);
                        }
                    }
                    assert(k <= i) by {
                        if k > i {
                            assert(self.rows()[i as int].id@ != id@);
                        }
                    }
                }
                return Some(i);
            }
            i = i + 1;
        }
        proof {
            if k < self.rows().len() {
                assert(self.rows()[k].id@ != id@);
            }
        }
        None
    }
}

/// Copies a stored value.
pub(crate) fn copy_bytes(v: &Vec<u8>) -> (r: Vec<u8>)
    ensures
        r@ == v@,
{
    vstd::slice::slice_to_vec(v.as_slice())
}

} // verus!
