use vstd::arithmetic::power2::*;
use vstd::prelude::*;

use crate::sort::{insertion_sort, sorted};

verus! {

/// `m + 1` is a power of two: `m` elements fill a complete binary tree.
pub open spec fn full_tree_size(m: nat) -> bool {
    exists|d: nat| pow2(d) == m + 1
}

/// Breadth-first slot of the `q`-th node on level `l` (the root is level 0).
pub open spec fn node_slot(l: nat, q: nat) -> int {
    pow2(l) - 1 + q
}

/// Position, in a sorted sample of `m` elements, of the splitter held by the
/// `q`-th node on level `l`: cut the `m + 1` gaps into `2^(l+1)` equal runs; the
/// splitter closes run `2q`.
pub open spec fn splitter_pos(m: nat, l: nat, q: nat) -> int {
    (2 * q + 1) * ((m + 1) / pow2(l + 1)) - 1
}

/// The first `depth` levels of `tree` hold the splitters of `sample`, level by
/// level, each level left to right.
pub open spec fn is_tree_of(tree: Seq<u64>, sample: Seq<u64>, depth: nat) -> bool {
    forall|l: nat, q: nat|
        l < depth && q < pow2(l) ==> #[trigger] tree[node_slot(l, q)] == sample[splitter_pos(
            sample.len(),
            l,
            q,
        )]
}

proof fn lemma_full_tree_bounds(m: nat, depth: nat) -> (d: nat)
    requires
        full_tree_size(m),
        m < usize::MAX,
        pow2(depth) <= m + 1,
    ensures
        pow2(d) == m + 1,
        depth <= d <= 63,
        2 * (m + 1) <= usize::MAX + 1,
{
    let d = choose|d: nat| pow2(d) == m + 1;
    if depth > d {
        lemma_pow2_strictly_increases(d, depth);
    }
    lemma2_to64();
    if usize::MAX == 0xffff_ffff {
        if d > 32 {
            lemma_pow2_strictly_increases(32, d);
        }
        assert(d != 32);
        if d < 31 {
            lemma_pow2_strictly_increases(d, 31);
        }
    } else {
        if d > 64 {
            lemma_pow2_strictly_increases(64, d);
        }
        assert(d != 64);
        if d < 63 {
            lemma_pow2_strictly_increases(d, 63);
        }
        lemma_pow2_unfold(64);
    }
    d
}

/// Fills the first `2^depth - 1` slots of `tree` with the splitters of `sample`,
/// root first, level by level. The rest of `tree` is left as it was.
pub fn build_tree(sample: &Vec<u64>, depth: usize, tree: &mut Vec<u64>)
    requires
        full_tree_size(sample.len() as nat),
        sample.len() < usize::MAX,
        pow2(depth as nat) <= sample.len() + 1,
        pow2(depth as nat) <= old(tree).len() + 1,
    ensures
        final(tree).len() == old(tree).len(),
        is_tree_of(final(tree)@, sample@, depth as nat),
        forall|j: int|
            pow2(depth as nat) - 1 <= j < old(tree).len() ==> final(tree)@[j] == old(tree)@[j],
{
    let m = sample.len();
    let ghost old_tree = tree@;
    let ghost d = lemma_full_tree_bounds(m as nat, depth as nat);
    let mut start: usize = m / 2;
    let mut step: usize = m + 1;
    let mut out: usize = 0;
    let mut level: usize = 0;
    let ghost mut seg: nat = ((m + 1) / 2) as nat;
    proof {
        lemma2_to64();
        if depth > 0 {
            lemma_pow2_unfold(d);
        }
    }
    while level < depth
        invariant
            level <= depth <= d,
            m == sample.len(),
            pow2(d) == m + 1,
            2 * (m + 1) <= usize::MAX + 1,
            tree.len() == old_tree.len(),
            pow2(depth as nat) <= tree.len() + 1,
            out == pow2(level as nat) - 1,
            level < depth ==> (seg == pow2((d - level - 1) as nat) && start + 1 == seg && step == 2
                * seg),
            is_tree_of(tree@, sample@, level as nat),
            forall|j: int| out <= j < tree.len() ==> tree@[j] == old_tree[j],
        decreases depth - level,
    {
        let ghost base: int = out as int;
        let ghost t0 = tree@;
        let ghost pl = pow2(level as nat);
        proof {
            lemma_pow2_adds((d - level - 1) as nat, (level + 1) as nat);
            lemma_pow2_unfold((level + 1) as nat);
            lemma_pow2_pos((d - level - 1) as nat);
            if level + 1 < depth {
                lemma_pow2_strictly_increases((level + 1) as nat, depth as nat);
            }
            assert(seg * 2 * pl == m + 1) by (nonlinear_arith)
                requires
                    seg * pow2((level + 1) as nat) == m + 1,
                    pow2((level + 1) as nat) == 2 * pl,
            ;
        }
        let mut x: usize = start;
        assert(x == (2 * (out - base) + 1) * seg - 1) by (nonlinear_arith)
            requires
                x == seg - 1,
                out - base == 0,
        ;
        while x < m
            invariant
                m == sample.len(),
                2 * (m + 1) <= usize::MAX + 1,
                seg >= 1,
                seg * 2 * pl == m + 1,
                step == 2 * seg,
                base == pl - 1,
                2 * pl <= tree.len() + 1,
                base <= out <= base + pl,
                x == (2 * (out - base) + 1) * seg - 1,
                tree.len() == old_tree.len(),
                forall|j: int| 0 <= j < base ==> tree@[j] == t0[j],
                forall|q: int|
                    0 <= q < out - base ==> #[trigger] tree@[base + q] == sample@[(2 * q + 1) * seg - 1],
                forall|j: int| out <= j < tree.len() ==> tree@[j] == old_tree[j],
            decreases base + pl - out,
        {
            let ghost q: int = out - base;
            proof {
                assert(q < pl) by (nonlinear_arith)
                    requires
                        (2 * q + 1) * seg - 1 < seg * 2 * pl - 1,
                        seg >= 1,
                ;
                assert(x + step <= m + seg) by (nonlinear_arith)
                    requires
                        x == (2 * q + 1) * seg - 1,
                        step == 2 * seg,
                        q + 1 <= pl,
                        seg * 2 * pl == m + 1,
                ;
                assert(2 * seg <= m + 1) by (nonlinear_arith)
                    requires
                        seg * 2 * pl == m + 1,
                        pl >= 1,
                ;
            }
            tree.set(out, sample[x]);
            out = out + 1;
            x = x + step;
            proof {
                assert(x == (2 * (out - base) + 1) * seg - 1) by (nonlinear_arith)
                    requires
                        x == (2 * q + 1) * seg - 1 + 2 * seg,
                        out - base == q + 1,
                ;
            }
        }
        proof {
            let q: int = out - base;
            assert(q >= pl) by (nonlinear_arith)
                requires
                    (2 * q + 1) * seg - 1 >= seg * 2 * pl - 1,
                    seg >= 1,
            ;
            assert(((m + 1) as nat) / pow2((level + 1) as nat) == seg) by (nonlinear_arith)
                requires
                    seg * pow2((level + 1) as nat) == m + 1,
                    pow2((level + 1) as nat) > 0,
            ;
            assert forall|l: nat, q: nat| l < level + 1 && q < pow2(l) implies #[trigger] tree@[node_slot(
                l,
                q,
            )] == sample@[splitter_pos(m as nat, l, q)] by {
                if l < level {
                    lemma_pow2_unfold(l + 1);
                    if l + 1 < level {
                        lemma_pow2_strictly_increases(l + 1, level as nat);
                    }
                    assert(t0[node_slot(l, q)] == sample@[splitter_pos(m as nat, l, q)]);
                } else {
                    assert(tree@[base + q] == sample@[(2 * q + 1) * seg - 1]);
                }
            }
            if level + 1 < depth {
                lemma_pow2_unfold((d - level - 1) as nat);
            }
        }
        start = start / 2;
        step = step / 2;
        level = level + 1;
        proof {
            seg = seg / 2;
            lemma_pow2_unfold(level as nat);
        }
    }
}

/// Sorts `sample` and lays out its splitters in the first `2^depth - 1` slots of
/// `tree` (see [`build_tree`]).
pub fn create_classification_tree(sample: &mut Vec<u64>, depth: usize, tree: &mut Vec<u64>)
    requires
        full_tree_size(old(sample).len() as nat),
        old(sample).len() < usize::MAX,
        pow2(depth as nat) <= old(sample).len() + 1,
        pow2(depth as nat) <= old(tree).len() + 1,
    ensures
        sorted(final(sample)@),
        final(sample)@.to_multiset() == old(sample)@.to_multiset(),
        final(tree).len() == old(tree).len(),
        is_tree_of(final(tree)@, final(sample)@, depth as nat),
        forall|j: int|
            pow2(depth as nat) - 1 <= j < old(tree).len() ==> final(tree)@[j] == old(tree)@[j],
{
    insertion_sort(sample);
    build_tree(sample, depth, tree);
}

} // verus!
