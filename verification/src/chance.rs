use rand::rngs::ThreadRng;
use rand::seq::IteratorRandom;
use vstd::prelude::*;

verus! {

/// The random number generator of the current thread, `rand::rngs::ThreadRng`.
/// Nothing is known of what it holds.
#[verifier::external_type_specification]
#[verifier::external_body]
pub struct ExThreadRng(ThreadRng);

/// `rand::thread_rng` hands out the generator of the current thread. Nothing
/// is claimed of the generator it returns.
pub assume_specification[ rand::thread_rng ]() -> (rng: ThreadRng);

/// `rand::seq::IteratorRandom::choose` on the items of a vector: it returns
/// no item exactly when there is none to choose from, and otherwise one of
/// the items. Which one depends on the generator, so nothing more is claimed.
#[verifier::external_body]
pub(crate) fn pick_one<T>(items: Vec<T>, rng: &mut ThreadRng) -> (picked: Option<T>)
    ensures
        picked is None <==> items@.len() == 0,
        picked matches Some(item) ==> items@.contains(item),
{
    items.into_iter().choose(rng)
}

} // verus!
