use vstd::arithmetic::div_mod::lemma_div_multiples_vanish;
use vstd::arithmetic::power2::*;
use vstd::bits::lemma_u8_shl_is_mul;
use vstd::prelude::*;

use crate::sort::sorted;
use crate::tree::{is_tree_of, node_slot, splitter_pos};

verus! {

/// Number of elements classified together, one tree level at a time.
pub const CHUNK_SIZE: usize = 160;

/// Breadth-first index of the node that `x` reaches after `k` rounds of descent
/// from the root: each round moves to `2r + 1` when `x` is below the splitter at
/// `r`, and to `2r + 2` when it is at or above it.
pub open spec fn descent(x: u64, tree: Seq<u64>, k: nat) -> int
    decreases k,
{
    if k == 0 {
        0
    } else {
        let r = descent(x, tree, (k - 1) as nat);
        2 * r + (if x >= tree[r] {
            1int
        } else {
            0int
        }) + 1
    }
}

/// Bucket of `x` in a tree of `depth` levels: the leaf it reaches, counted from
/// the leftmost leaf.
pub open spec fn bucket_of(x: u64, tree: Seq<u64>, depth: nat) -> int {
    descent(x, tree, depth) - (pow2(depth) - 1)
}

/// The bucket of each element of `data`, position by position.
pub open spec fn classified(data: Seq<u64>, tree: Seq<u64>, depth: nat) -> Seq<int> {
    Seq::new(data.len(), |i: int| bucket_of(data[i], tree, depth))
}

/// `buckets` holds, at each position of `data`, that element's bucket.
pub open spec fn is_classification(
    buckets: Seq<u8>,
    data: Seq<u64>,
    tree: Seq<u64>,
    depth: nat,
) -> bool {
    &&& buckets.len() == data.len()
    &&& forall|i: int|
        0 <= i < buckets.len() ==> buckets[i] as int == #[trigger] classified(data, tree, depth)[i]
}

/// After `k` rounds the descent stands on level `k` of the tree.
pub proof fn lemma_descent_level(x: u64, tree: Seq<u64>, k: nat)
    ensures
        pow2(k) - 1 <= descent(x, tree, k) <= 2 * pow2(k) - 2,
    decreases k,
{
    if k == 0 {
        lemma2_to64();
    } else {
        lemma_descent_level(x, tree, (k - 1) as nat);
        lemma_pow2_unfold(k);
    }
}

/// Bounds that let a round of descent run on `u8` node indices.
proof fn lemma_round_fits(x: u64, tree: Seq<u64>, k: nat, depth: nat)
    requires
        k < depth <= 7,
    ensures
        0 <= descent(x, tree, k) < pow2(depth) - 1,
        2 * descent(x, tree, k) + 2 <= 255,
{
    lemma_descent_level(x, tree, k);
    lemma2_to64();
    lemma_pow2_unfold(k + 1);
    if k + 1 < depth {
        lemma_pow2_strictly_increases(k + 1, depth);
    }
    if depth < 7 {
        lemma_pow2_strictly_increases(depth, 7);
    }
}

/// One round of descent: from node `node`, the child that `x` goes to.
fn next_node(x: u64, tree: &Vec<u64>, node: u8) -> (r: u8)
    requires
        (node as int) < tree.len(),
        2 * node + 2 <= 255,
    ensures
        r == 2 * node + (if x >= tree@[node as int] {
            1int
        } else {
            0int
        }) + 1,
{
    proof {
        lemma2_to64();
        lemma_u8_shl_is_mul(node, 1);
    }
    let step: u8 = if x >= tree[node as usize] {
        1
    } else {
        0
    };
    (node << 1) + step + 1
}

/// The bucket of a leaf node reached after `depth` rounds.
fn leaf_bucket(x: u64, tree: &Vec<u64>, depth: usize, node: u8) -> (b: u8)
    requires
        depth <= 7,
        node == descent(x, tree@, depth as nat),
    ensures
        b == bucket_of(x, tree@, depth as nat),
        b < pow2(depth as nat),
{
    proof {
        lemma_descent_level(x, tree@, depth as nat);
        lemma2_to64();
        if depth < 7 {
            lemma_pow2_strictly_increases(depth as nat, 7);
        }
        lemma_u8_shl_is_mul(1, depth as u8);
    }
    let num_buckets: u8 = 1u8 << (depth as u8);
    node + 1 - num_buckets
}

/// The bucket of every element of `data` in the tree of `depth` levels held by
/// `tree`, working through `data` in runs of `chunk_size` elements and finishing
/// the last partial run element by element. The result does not depend on
/// `chunk_size`.
pub fn classify_in_chunks(data: &Vec<u64>, depth: usize, tree: &Vec<u64>, chunk_size: usize) -> (r:
    Vec<u8>)
    requires
        depth <= 7,
        pow2(depth as nat) <= tree.len() + 1,
        chunk_size > 0,
    ensures
        is_classification(r@, data@, tree@, depth as nat),
{
    let n = data.len();
    let mut out: Vec<u8> = Vec::new();
    let mut nodes: Vec<u8> = Vec::new();
    while nodes.len() < chunk_size
        invariant
            nodes.len() <= chunk_size,
        decreases chunk_size - nodes.len(),
    {
        nodes.push(0);
    }
    let mut start: usize = 0;
    while start < n && chunk_size <= n - start
        invariant
            n == data.len(),
            depth <= 7,
            pow2(depth as nat) <= tree.len() + 1,
            start <= n,
            chunk_size > 0,
            nodes.len() == chunk_size,
            out.len() == start,
            forall|i: int| 0 <= i < start ==> out@[i] == bucket_of(data@[i], tree@, depth as nat),
        decreases n - start,
    {
        let mut x: usize = 0;
        while x < chunk_size
            invariant
                nodes.len() == chunk_size,
                x <= chunk_size,
                forall|i: int| 0 <= i < x ==> nodes@[i] == 0,
            decreases chunk_size - x,
        {
            nodes.set(x, 0);
            x = x + 1;
        }
        let mut level: usize = 0;
        while level < depth
            invariant
                n == data.len(),
                depth <= 7,
                pow2(depth as nat) <= tree.len() + 1,
                start + chunk_size <= n,
                nodes.len() == chunk_size,
                level <= depth,
                forall|i: int|
                    0 <= i < chunk_size ==> nodes@[i] == descent(
                        data@[start + i],
                        tree@,
                        level as nat,
                    ),
            decreases depth - level,
        {
            let mut x: usize = 0;
            while x < chunk_size
                invariant
                    n == data.len(),
                    depth <= 7,
                    pow2(depth as nat) <= tree.len() + 1,
                    start + chunk_size <= n,
                    nodes.len() == chunk_size,
                    level < depth,
                    x <= chunk_size,
                    forall|i: int|
                        0 <= i < x ==> nodes@[i] == descent(
                            data@[start + i],
                            tree@,
                            (level + 1) as nat,
                        ),
                    forall|i: int|
                        x <= i < chunk_size ==> nodes@[i] == descent(
                            data@[start + i],
                            tree@,
                            level as nat,
                        ),
                decreases chunk_size - x,
            {
                proof {
                    lemma_round_fits(data@[start + x], tree@, level as nat, depth as nat);
                }
                let next = next_node(data[start + x], tree, nodes[x]);
                nodes.set(x, next);
                x = x + 1;
            }
            level = level + 1;
        }
        let mut x: usize = 0;
        while x < chunk_size
            invariant
                n == data.len(),
                depth <= 7,
                start + chunk_size <= n,
                nodes.len() == chunk_size,
                x <= chunk_size,
                out.len() == start + x,
                forall|i: int|
                    0 <= i < chunk_size ==> nodes@[i] == descent(
                        data@[start + i],
                        tree@,
                        depth as nat,
                    ),
                forall|i: int|
                    0 <= i < start + x ==> out@[i] == bucket_of(data@[i], tree@, depth as nat),
            decreases chunk_size - x,
        {
            let b = leaf_bucket(data[start + x], tree, depth, nodes[x]);
            out.push(b);
            x = x + 1;
        }
        start = start + chunk_size;
    }
    let mut x: usize = start;
    while x < n
        invariant
            n == data.len(),
            depth <= 7,
            pow2(depth as nat) <= tree.len() + 1,
            start <= x <= n,
            out.len() == x,
            forall|i: int| 0 <= i < x ==> out@[i] == bucket_of(data@[i], tree@, depth as nat),
        decreases n - x,
    {
        let mut node: u8 = 0;
        let mut level: usize = 0;
        while level < depth
            invariant
                x < n == data.len(),
                depth <= 7,
                pow2(depth as nat) <= tree.len() + 1,
                level <= depth,
                node == descent(data@[x as int], tree@, level as nat),
            decreases depth - level,
        {
            proof {
                lemma_round_fits(data@[x as int], tree@, level as nat, depth as nat);
            }
            node = next_node(data[x], tree, node);
            level = level + 1;
        }
        let b = leaf_bucket(data[x], tree, depth, node);
        out.push(b);
        x = x + 1;
    }
    out
}

/// The bucket of every element of `data` in the tree of `depth` levels held by
/// `tree`, in position order.
pub fn classify(data: &Vec<u64>, depth: usize, tree: &Vec<u64>) -> (r: Vec<u8>)
    requires
        depth <= 7,
        pow2(depth as nat) <= tree.len() + 1,
    ensures
        is_classification(r@, data@, tree@, depth as nat),
{
    classify_in_chunks(data, depth, tree, CHUNK_SIZE)
}

/// Classification is a function of the data, the tree and the depth: two bucket
/// sequences that both classify the same data with the same tree are equal, so
/// classifying twice gives the same buckets.
pub proof fn lemma_classification_unique(
    first: Seq<u8>,
    second: Seq<u8>,
    data: Seq<u64>,
    tree: Seq<u64>,
    depth: nat,
)
    requires
        is_classification(first, data, tree, depth),
        is_classification(second, data, tree, depth),
    ensures
        first == second,
{
    assert forall|i: int| 0 <= i < first.len() implies first[i] == second[i] by {
        assert(first[i] as int == classified(data, tree, depth)[i]);
        assert(second[i] as int == classified(data, tree, depth)[i]);
    }
    assert(first =~= second);
}

/// Each element's bucket depends on that element alone: classifying two runs of
/// data one after the other gives the buckets of the two runs joined, wherever
/// the data is cut.
pub proof fn lemma_classified_concat(front: Seq<u64>, back: Seq<u64>, tree: Seq<u64>, depth: nat)
    ensures
        classified(front + back, tree, depth) == classified(front, tree, depth) + classified(
            back,
            tree,
            depth,
        ),
{
    assert(classified(front + back, tree, depth) =~= classified(front, tree, depth) + classified(
        back,
        tree,
        depth,
    ));
}

/// After `k` rounds over a tree built from a sorted sample of `2^depth - 1`
/// elements, the descent stands on node `q` of level `k`, and the sample cut into
/// runs of `w = 2^(depth - k)` slots has every element before run `q` at most `x`
/// and every element from the last slot of run `q` on above `x`.
proof fn lemma_descent_narrows(sample: Seq<u64>, tree: Seq<u64>, depth: nat, x: u64, k: nat)
    requires
        sorted(sample),
        sample.len() + 1 == pow2(depth),
        is_tree_of(tree, sample, depth),
        k <= depth,
    ensures
        0 <= descent(x, tree, k) - (pow2(k) - 1) < pow2(k),
        forall|j: int|
            0 <= j < (descent(x, tree, k) - (pow2(k) - 1)) * pow2((depth - k) as nat) && j
                < sample.len() ==> sample[j] <= x,
        forall|j: int|
            (descent(x, tree, k) - (pow2(k) - 1)) * pow2((depth - k) as nat) + pow2(
                (depth - k) as nat,
            ) - 1 <= j < sample.len() ==> x < sample[j],
    decreases k,
{
    let m = sample.len() as int;
    if k == 0 {
        lemma2_to64();
    } else {
        let k0 = (k - 1) as nat;
        lemma_descent_narrows(sample, tree, depth, x, k0);
        let r0 = descent(x, tree, k0);
        let q0 = r0 - (pow2(k0) - 1);
        let w0 = pow2((depth - k0) as nat) as int;
        let h = pow2((depth - k) as nat) as int;
        let pk0 = pow2(k0) as int;
        lemma_pow2_unfold((depth - k0) as nat);
        assert((depth - k0) as nat - 1 == (depth - k) as nat);
        assert(w0 == 2 * h);
        lemma_pow2_unfold(k);
        lemma_pow2_adds((depth - k) as nat, k);
        assert((depth - k) as nat + k == depth);
        lemma_pow2_pos((depth - k) as nat);
        lemma_pow2_pos(k);
        assert(h * (2 * pk0) == m + 1);
        lemma_div_multiples_vanish(h, pow2(k) as int);
        assert(pow2(k) * h == m + 1) by (nonlinear_arith)
            requires
                h * (2 * pk0) == m + 1,
                pow2(k) == 2 * pk0,
        ;
        assert(r0 == node_slot(k0, q0 as nat));
        assert(tree[node_slot(k0, q0 as nat)] == sample[splitter_pos(m as nat, k0, q0 as nat)]);
        let p = (2 * q0 + 1) * h - 1;
        assert(splitter_pos(m as nat, k0, q0 as nat) == p);
        assert(0 <= p < m) by (nonlinear_arith)
            requires
                0 <= q0 < pk0,
                h >= 1,
                h * (2 * pk0) == m + 1,
                p == (2 * q0 + 1) * h - 1,
        ;
        assert(q0 * w0 == 2 * q0 * h) by (nonlinear_arith)
            requires
                w0 == 2 * h,
        ;
        let q = descent(x, tree, k) - (pow2(k) - 1);
        if x >= sample[p] {
            assert(q == 2 * q0 + 1);
            assert(q * h == p + 1) by (nonlinear_arith)
                requires
                    q == 2 * q0 + 1,
                    p == (2 * q0 + 1) * h - 1,
            ;
            assert(q * h + h - 1 == q0 * w0 + w0 - 1) by (nonlinear_arith)
                requires
                    q == 2 * q0 + 1,
                    w0 == 2 * h,
            ;
            assert forall|j: int| 0 <= j < q * h && j < m implies sample[j] <= x by {
                assert(sample[j] <= sample[p]);
            }
        } else {
            assert(q == 2 * q0);
            assert(q * h == q0 * w0) by (nonlinear_arith)
                requires
                    q == 2 * q0,
                    w0 == 2 * h,
            ;
            assert(q * h + h - 1 == p) by (nonlinear_arith)
                requires
                    q == 2 * q0,
                    p == (2 * q0 + 1) * h - 1,
            ;
            assert forall|j: int| q * h + h - 1 <= j < m implies x < sample[j] by {
                assert(sample[p] <= sample[j]);
            }
        }
    }
}

/// For a tree built from a sorted sample of `2^depth - 1` elements, the bucket
/// of `x` is the point where `x` falls in the sample: every sample element before
/// it is at most `x`, every one from it on is above `x`. An element equal to a
/// splitter therefore goes to the right of that splitter.
pub proof fn lemma_bucket_splits_sample(sample: Seq<u64>, tree: Seq<u64>, depth: nat, x: u64)
    requires
        sorted(sample),
        sample.len() + 1 == pow2(depth),
        is_tree_of(tree, sample, depth),
    ensures
        0 <= bucket_of(x, tree, depth) <= sample.len(),
        forall|j: int| 0 <= j < bucket_of(x, tree, depth) ==> sample[j] <= x,
        forall|j: int| bucket_of(x, tree, depth) <= j < sample.len() ==> x < sample[j],
{
    lemma_descent_narrows(sample, tree, depth, x, depth);
    lemma2_to64();
    let b = bucket_of(x, tree, depth);
    assert(b * pow2(0) == b);
}

} // verus!
