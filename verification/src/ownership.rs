//! The ownership guard: given the authenticated identity and the resource
//! as the store found it, allow the mutation, refuse it, or report that the
//! resource does not exist. Existence is not identity-dependent: a missing
//! resource is missing for everyone, and only an existing resource owned by
//! someone else is forbidden.

use vstd::prelude::*;
use crate::identity::Identity;
use crate::posts::Post;

verus! {

/// The guard's verdict on a mutation.
#[derive(Debug, Clone, Copy, PartialEq, Eq, Structural)]
pub enum OwnershipDecision {
    /// The identity owns the resource: the mutation may proceed.
    Allow,
    /// The resource exists but is owned by someone else.
    Forbidden,
    /// No resource with that id exists.
    NotFound,
}

/// The guard's rule: missing is missing, a foreign owner is forbidden, the
/// owner is allowed.
pub open spec fn spec_authorize(who: Seq<u8>, owner: Option<Seq<u8>>) -> OwnershipDecision {
    match owner {
        None => OwnershipDecision::NotFound,
        Some(o) => if o == who {
            OwnershipDecision::Allow
        } else {
            OwnershipDecision::Forbidden
        },
    }
}

/// The owner of a resource is allowed to mutate it, and every other
/// identity is forbidden, never told the resource is missing.
pub proof fn lemma_owner_only(owner: Seq<u8>, other: Seq<u8>)
    requires
        other != owner,
    ensures
        spec_authorize(owner, Some(owner)) == OwnershipDecision::Allow,
        spec_authorize(other, Some(owner)) == OwnershipDecision::Forbidden,
{
}

/// The per-resource ownership check.
pub struct OwnershipGuard;

impl OwnershipGuard {
    /// Decides a mutation of the resource the store found, exactly as
    /// `spec_authorize` says.
    pub fn authorize(who: &Identity, resource: Option<&Post>) -> (r: OwnershipDecision)
        ensures
            r == spec_authorize(
                who@,
                match resource {
                    None => None::<Seq<u8>>,
                    Some(p) => Some(p.user_id@),
                },
            ),
    {
        match resource {
            None => OwnershipDecision::NotFound,
            Some(p) => {
                if p.user_id.same(who) {
                    OwnershipDecision::Allow
                } else {
                    OwnershipDecision::Forbidden
                }
            },
        }
    }
}

} // verus!
