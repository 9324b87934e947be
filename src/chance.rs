use vstd::prelude::*;
use rand::seq::SliceRandom;
use rand::Rng;

verus! {

/// Relies on `rand::Rng::gen_range` on `rand::thread_rng()`: a number drawn
/// from `0..n` (the range is not empty).
#[verifier::external_body]
pub(crate) fn draw_below(n: u64) -> (r: u64)
    requires
        n > 0,
    ensures
        r < n,
{
    rand::thread_rng().gen_range(0..n)
}

/// Relies on `rand::seq::SliceRandom::choose` on `rand::thread_rng()`: one
/// of the words, or `None` where there is none.
#[verifier::external_body]
pub(crate) fn choose_word(items: &Vec<String>) -> (r: Option<String>)
    ensures
        items@.len() == 0 <==> r is None,
        r is Some ==> exists|i: int| 0 <= i < items@.len() && #[trigger] items@[i]@ == r->Some_0@,
{
    items.choose(&mut rand::thread_rng()).cloned()
}

} // verus!
