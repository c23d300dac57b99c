use rand::seq::SliceRandom;
use vstd::prelude::*;

verus! {

/// `rand::random::<usize>()`: a number drawn by the thread's generator.
/// Nothing is claimed of it.
#[verifier::external_body]
pub(crate) fn random_usize() -> (r: usize) {
    rand::random::<usize>()
}

/// `SliceRandom::shuffle` with the thread's generator: the same items, in an
/// order that is drawn.
#[verifier::external_body]
pub(crate) fn shuffle(v: &mut Vec<usize>)
    ensures
        final(v)@.to_multiset() == old(v)@.to_multiset(),
{
    v.shuffle(&mut rand::thread_rng());
}

/// Whether a portal may be dropped now: always, unless portals are dropped at
/// random; then only where the number drawn is a multiple of 400.
pub fn may_drop(randomly: bool, roll: usize) -> (b: bool)
    ensures
        b == (!randomly || roll % 400 == 0),
{
    !randomly || roll % 400 == 0
}

} // verus!
