use vstd::prelude::*;

verus! {

/// What light transport does with a ray that has `bounces_left` bounces left:
/// nothing at all where none are left (the ray is black and the scene is not
/// queried), and otherwise, after a hit, hand the material a continuation
/// with one bounce fewer.
pub open spec fn next_bounces(bounces_left: nat) -> Option<nat> {
    if bounces_left == 0 {
        None
    } else {
        Some((bounces_left - 1) as nat)
    }
}

/// The bounce budget of the continuation handed to the material that a ray
/// hits, or `None` where the ray is black without a scene query.
pub fn next_bounce_depth(bounces_left: usize) -> (r: Option<usize>)
    ensures
        bounces_left == 0 ==> r is None,
        bounces_left > 0 ==> r == Some((bounces_left - 1) as usize),
        match r {
            None => next_bounces(bounces_left as nat) is None,
            Some(n) => next_bounces(bounces_left as nat) == Some(n as nat),
        },
{
    if bounces_left == 0 {
        None
    } else {
        Some(bounces_left - 1)
    }
}

/// The number of nested scene queries that a ray with `bounces_left`
/// bounces left can lead to, along any chain of recursive requests.
pub open spec fn query_depth(bounces_left: nat) -> nat
    decreases bounces_left,
{
    match next_bounces(bounces_left) {
        None => 0,
        Some(n) => 1 + query_depth(n),
    }
}

/// The recursion of light transport ends: along any chain of recursive
/// requests, a ray with `bounces_left` bounces left leads to at most
/// `bounces_left` nested scene queries; the last hands on a budget of zero,
/// which answers black.
pub proof fn lemma_recursion_bounded(bounces_left: nat)
    ensures
        query_depth(bounces_left) == bounces_left,
    decreases bounces_left,
{
    if bounces_left > 0 {
        lemma_recursion_bounded((bounces_left - 1) as nat);
    }
}

} // verus!
