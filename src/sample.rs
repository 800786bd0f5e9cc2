use rand::distributions::{Distribution, Uniform};
use rand::rngs::StdRng;
use vstd::prelude::*;

verus! {

broadcast use vstd::seq_lib::group_to_multiset_ensures;

#[verifier::external_type_specification]
#[verifier::external_body]
pub struct ExStdRng(StdRng);

/// Relies on rand's `Uniform::from(low..high)` sampled with `rng`: the draw lies
/// in `low..high`. `Uniform::new` panics when `low >= high`, which the
/// requirement rules out.
#[verifier::external_body]
fn draw_index(rng: &mut StdRng, low: usize, high: usize) -> (r: usize)
    requires
        low < high,
    ensures
        low <= r < high,
{
    Uniform::from(low..high).sample(rng)
}

/// Draws usable for a partial shuffle of `n` elements: the `i`-th draw is a
/// position in `i..n`.
pub open spec fn valid_draws(draws: Seq<usize>, n: nat) -> bool {
    &&& draws.len() <= n
    &&& forall|i: int| 0 <= i < draws.len() ==> i <= #[trigger] draws[i] < n
}

/// `s` with the elements at `i` and `j` exchanged.
pub open spec fn swapped(s: Seq<u64>, i: int, j: int) -> Seq<u64> {
    s.update(i, s[j]).update(j, s[i])
}

/// `data` after exchanging, for each `i` in turn, position `i` with `draws[i]`.
pub open spec fn swaps_applied(data: Seq<u64>, draws: Seq<usize>) -> Seq<u64>
    decreases draws.len(),
{
    if draws.len() == 0 {
        data
    } else {
        swapped(
            swaps_applied(data, draws.drop_last()),
            draws.len() - 1,
            draws.last() as int,
        )
    }
}

proof fn lemma_swapped_multiset(s: Seq<u64>, i: int, j: int)
    requires
        0 <= i < s.len(),
        0 <= j < s.len(),
    ensures
        swapped(s, i, j).len() == s.len(),
        swapped(s, i, j).to_multiset() == s.to_multiset(),
{
    broadcast use vstd::multiset::group_multiset_axioms;

    let s1 = s.update(i, s[j]);
    vstd::seq_lib::to_multiset_update(s, i, s[j]);
    vstd::seq_lib::to_multiset_update(s1, j, s[i]);
    if i == j {
        assert(s1 =~= s);
        assert(swapped(s, i, j) =~= s);
    } else {
        assert(s1[j] == s[j]);
        assert(s.to_multiset().insert(s[j]).remove(s[i]).insert(s[i]).remove(s[j])
            =~= s.to_multiset());
    }
}

/// Moves a sample to the front of `data` by exchanging, for each `i` in turn,
/// position `i` with position `draws[i]`: a partial Fisher-Yates shuffle driven by
/// the given draws.
pub fn apply_sample_swaps(data: &mut Vec<u64>, draws: &Vec<usize>)
    requires
        valid_draws(draws@, old(data).len() as nat),
    ensures
        final(data)@ == swaps_applied(old(data)@, draws@),
        final(data)@.to_multiset() == old(data)@.to_multiset(),
{
    let ghost orig = data@;
    let mut i: usize = 0;
    while i < draws.len()
        invariant
            valid_draws(draws@, data.len() as nat),
            data.len() == orig.len(),
            i <= draws.len(),
            data@ == swaps_applied(orig, draws@.subrange(0, i as int)),
            data@.to_multiset() == orig.to_multiset(),
        decreases draws.len() - i,
    {
        let j = draws[i];
        proof {
            lemma_swapped_multiset(data@, i as int, j as int);
            assert(draws@.subrange(0, i + 1).drop_last() =~= draws@.subrange(0, i as int));
        }
        let a = data[i];
        let b = data[j];
        data.set(i, b);
        data.set(j, a);
        i = i + 1;
    }
    assert(draws@.subrange(0, draws.len() as int) =~= draws@);
}

/// Moves a uniformly drawn sample of `min(sample_size, data.len())` elements to
/// the front of `data`, in random order; the rest of `data` may be permuted too.
/// The draws come from `rng`, one per sampled position.
pub fn move_sample_to_front(data: &mut Vec<u64>, sample_size: usize, rng: &mut StdRng)
    ensures
        final(data)@.to_multiset() == old(data)@.to_multiset(),
        exists|draws: Seq<usize>|
            {
                &&& valid_draws(draws, old(data).len() as nat)
                &&& draws.len() == if sample_size < old(data).len() {
                    sample_size as int
                } else {
                    old(data).len() as int
                }
                &&& final(data)@ == swaps_applied(old(data)@, draws)
            },
{
    let n = data.len();
    let k = if sample_size < n {
        sample_size
    } else {
        n
    };
    let mut draws: Vec<usize> = Vec::new();
    let mut i: usize = 0;
    while i < k
        invariant
            k <= n,
            i <= k,
            draws.len() == i,
            valid_draws(draws@, n as nat),
        decreases k - i,
    {
        let r = draw_index(rng, i, n);
        draws.push(r);
        i = i + 1;
    }
    apply_sample_swaps(data, &draws);
}

} // verus!
