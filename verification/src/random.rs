use rand::rngs::StdRng;
use rand::seq::SliceRandom;
use rand::Rng;
use vstd::prelude::*;

verus! {

/// The generator `rand::rngs::StdRng`. It is handed through to the calls below;
/// nothing is known of its state or of the numbers it will give.
#[verifier::external_type_specification]
#[verifier::external_body]
pub struct ExStdRng(rand::rngs::StdRng);

/// Draws a number with `rand::Rng::gen_range` on the inclusive range from `low` to
/// `high`. Trusted: the number lies in that range. `gen_range` panics on an empty
/// range, so the range must hold a number.
#[verifier::external_body]
pub(crate) fn random_between(rng: &mut StdRng, low: usize, high: usize) -> (n: usize)
    requires
        low <= high,
    ensures
        low <= n <= high,
{
    rng.gen_range(low..=high)
}

/// Reorders the list in place with `rand::seq::SliceRandom::shuffle`. Trusted: the
/// list holds the same entries afterwards, each as often as before.
#[verifier::external_body]
pub(crate) fn shuffle_entries<T>(list: &mut Vec<T>, rng: &mut StdRng)
    ensures
        final(list)@.to_multiset() == old(list)@.to_multiset(),
{
    list.shuffle(rng);
}

/// A reordered list without repeated entries has none either, is as long as it was
/// and holds only entries of the list it came from.
pub proof fn lemma_reordered<T>(before: Seq<T>, after: Seq<T>)
    requires
        before.no_duplicates(),
        after.to_multiset() == before.to_multiset(),
    ensures
        after.no_duplicates(),
        after.len() == before.len(),
        forall|i: int| 0 <= i < after.len() ==> before.contains(#[trigger] after[i]),
{
    before.to_multiset_ensures();
    after.to_multiset_ensures();
    before.lemma_multiset_has_no_duplicates();
    after.lemma_multiset_has_no_duplicates_conv();
    assert forall|i: int| 0 <= i < after.len() implies before.contains(#[trigger] after[i]) by {
        assert(after.contains(after[i]));
        vstd::seq_lib::to_multiset_contains(after, after[i]);
        vstd::seq_lib::to_multiset_contains(before, after[i]);
    }
}

} // verus!
