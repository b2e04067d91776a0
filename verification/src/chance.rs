//! What is left to chance.
use vstd::prelude::*;
use rand::rngs::StdRng;
use rand::seq::SliceRandom;
use rand::SeedableRng;

verus! {

/// Calls `rand::Rng::gen_range` for a number from `lo` to `hi`, both included. Which one is left
/// to chance.
#[verifier::external_body]
pub(crate) fn draw_between(lo: usize, hi: usize) -> (n: usize)
    requires
        lo <= hi,
    ensures
        lo <= n <= hi,
{
    rand::Rng::gen_range(&mut StdRng::from_entropy(), lo..=hi)
}

/// Calls `rand::Rng::gen` for a number of 64 bits. Which one is left to chance.
#[verifier::external_body]
pub(crate) fn draw_u64() -> u64 {
    rand::Rng::gen(&mut StdRng::from_entropy())
}

/// Calls `choose_multiple` of `rand::seq::SliceRandom`: it draws `amount` elements, or all
/// there are if these are fewer, from different places of the slice. Which ones, and in which
/// order, is left to chance.
#[verifier::external_body]
fn draw_some(from: &[usize], amount: usize) -> (drawn: Vec<usize>)
    ensures
        drawn@.len() == (if amount < from@.len() { amount as nat } else { from@.len() }),
        drawn@.to_multiset().subset_of(from@.to_multiset()),
{
    from.choose_multiple(&mut StdRng::from_entropy(), amount).cloned().collect()
}

/// Draws `amount` of the numbers below `n`, or all of them if there are fewer.
pub(crate) fn draw_below(n: usize, amount: usize) -> (drawn: Vec<usize>)
    ensures
        drawn@.len() == (if amount < n { amount } else { n }),
        drawn@.no_duplicates(),
        forall|k: int| 0 <= k < drawn@.len() ==> 0 <= #[trigger] drawn@[k] < n,
{
    let mut all: Vec<usize> = Vec::new();
    let mut i: usize = 0;
    while i < n
        invariant
            i <= n,
            all@.len() == i,
            forall|k: int| 0 <= k < i ==> #[trigger] all@[k] == k,
        decreases n - i,
    {
        all.push(i);
        i += 1;
    }
    let drawn = draw_some(all.as_slice(), amount);
    proof {
        broadcast use vstd::seq_lib::group_to_multiset_ensures;

        assert(all@.no_duplicates());
        all@.lemma_multiset_has_no_duplicates();
        assert forall|a: int, b: int| 0 <= a < b < drawn@.len() implies drawn@[a] != drawn@[b] by {
            if drawn@[a] == drawn@[b] {
                lemma_twice(drawn@, a, b);
                assert(all@.to_multiset().count(drawn@[a]) <= 1);
            }
        }
        assert forall|k: int| 0 <= k < drawn@.len() implies 0 <= #[trigger] drawn@[k] < n by {
            assert(drawn@.to_multiset().count(drawn@[k]) > 0);
            assert(all@.contains(drawn@[k]));
        }
    }
    drawn
}

/// What stands in two places is counted twice.
proof fn lemma_twice(s: Seq<usize>, a: int, b: int)
    requires
        0 <= a < b < s.len(),
        s[a] == s[b],
    ensures
        s.to_multiset().count(s[a]) >= 2,
{
    broadcast use vstd::seq_lib::group_to_multiset_ensures;

    let rest = s.remove(a);
    assert(rest[b - 1] == s[b]);
    assert(rest.contains(s[b]));
    assert(rest.to_multiset().count(s[b]) > 0);
    assert(rest.to_multiset() =~= s.to_multiset().remove(s[a]));
}

} // verus!
