use vstd::prelude::*;

verus! {

broadcast use vstd::seq_lib::group_to_multiset_ensures;

/// `s` is in non-descending order.
pub open spec fn sorted(s: Seq<u64>) -> bool {
    forall|a: int, b: int| 0 <= a <= b < s.len() ==> s[a] <= s[b]
}

/// `p` tells, for each position of `after`, the position of `before` its element
/// came from: `p` is a bijection of the positions, and elements of equal value
/// keep their relative order.
pub open spec fn stable_rearrangement(before: Seq<u64>, after: Seq<u64>, p: Seq<int>) -> bool {
    &&& before.len() == after.len() == p.len()
    &&& forall|k: int|
        0 <= k < p.len() ==> 0 <= #[trigger] p[k] < p.len() && after[k] == before[p[k]]
    &&& forall|k: int, l: int| 0 <= k < l < p.len() ==> #[trigger] p[k] != #[trigger] p[l]
    &&& forall|k: int, l: int|
        0 <= k < l < p.len() && after[k] == after[l] ==> #[trigger] p[k] < #[trigger] p[l]
}

/// Sorts `data` in place by insertion. Each step lifts one element out, shifts the
/// larger elements before it one slot to the right, and drops the lifted element
/// into the slot left free. A shift happens only past strictly greater elements,
/// so equal elements keep their order.
pub fn insertion_sort(data: &mut Vec<u64>)
    ensures
        sorted(final(data)@),
        final(data)@.to_multiset() == old(data)@.to_multiset(),
        exists|p: Seq<int>| stable_rearrangement(old(data)@, final(data)@, p),
{
    let n = data.len();
    let ghost orig = data@;
    let ghost mut p: Seq<int> = Seq::new(n as nat, |k: int| k);
    if n == 0 {
        assert(stable_rearrangement(orig, data@, p));
        return;
    }
    let mut i: usize = 1;
    while i < n
        invariant
            1 <= i <= n,
            n == data.len(),
            orig.len() == n,
            forall|a: int, b: int| 0 <= a <= b < i ==> data@[a] <= data@[b],
            data@.to_multiset() == orig.to_multiset(),
            stable_rearrangement(orig, data@, p),
            forall|k: int| 0 <= k < i ==> #[trigger] p[k] < i,
            forall|k: int| i <= k < n ==> #[trigger] p[k] == k,
        decreases n - i,
    {
        let x = data[i];
        let ghost s = data@;
        let mut g: usize = i;
        while g > 0 && data[g - 1] > x
            invariant
                0 <= g <= i < n,
                n == data.len(),
                s.len() == n,
                x == s[i as int],
                forall|k: int| 0 <= k < g ==> data@[k] == s[k],
                forall|k: int| g < k <= i ==> data@[k] == s[k - 1] && s[k - 1] > x,
                forall|k: int| i < k < n ==> data@[k] == s[k],
            decreases g,
        {
            let y = data[g - 1];
            data.set(g, y);
            g = g - 1;
        }
        data.set(g, x);
        proof {
            let gi = g as int;
            let ii = i as int;
            assert(data@ =~= s.remove(ii).insert(gi, x));
            vstd::seq_lib::to_multiset_remove(s, ii);
            vstd::seq_lib::to_multiset_insert(s.remove(ii), gi, x);
            assert(s.to_multiset().remove(x).insert(x) =~= s.to_multiset());
            let q = p;
            p = Seq::new(
                n as nat,
                |k: int|
                    if k < gi {
                        q[k]
                    } else if k == gi {
                        q[ii]
                    } else if k <= ii {
                        q[k - 1]
                    } else {
                        q[k]
                    },
            );
            assert forall|k: int| 0 <= k < n implies 0 <= #[trigger] p[k] < n && data@[k]
                == orig[p[k]] by {
                if k < gi {
                } else if k == gi {
                } else if k <= ii {
                    assert(q[k - 1] == q[k - 1]);
                } else {
                }
            }
            assert forall|k: int, l: int| 0 <= k < l < n implies #[trigger] p[k]
                != #[trigger] p[l] by {
                let k0 = if k < gi { k } else if k == gi { ii } else if k <= ii { k - 1 } else { k };
                let l0 = if l < gi { l } else if l == gi { ii } else if l <= ii { l - 1 } else { l };
                assert(p[k] == q[k0]);
                assert(p[l] == q[l0]);
                assert(k0 != l0);
                if k0 < l0 {
                    assert(q[k0] != q[l0]);
                } else {
                    assert(q[l0] != q[k0]);
                }
            }
            assert forall|k: int, l: int|
                0 <= k < l < n && data@[k] == data@[l] implies #[trigger] p[k]
                < #[trigger] p[l] by {
                let k0 = if k < gi { k } else if k == gi { ii } else if k <= ii { k - 1 } else { k };
                let l0 = if l < gi { l } else if l == gi { ii } else if l <= ii { l - 1 } else { l };
                assert(p[k] == q[k0]);
                assert(p[l] == q[l0]);
                if l == gi {
                    assert(q[k0] < ii);
                } else if k == gi {
                    assert(l > ii);
                } else {
                    assert(k0 < l0);
                    assert(s[k0] == data@[k]);
                    assert(s[l0] == data@[l]);
                }
            }
            assert forall|a: int, b: int| 0 <= a <= b < i + 1 implies data@[a] <= data@[b] by {
                if a < gi && b == gi && gi > 0 {
                    assert(s[a] <= s[gi - 1]);
                } else if a == gi && b > gi {
                } else if a < gi && b > gi {
                    assert(s[a] <= s[b - 1]);
                } else if a > gi && b > gi {
                    assert(s[a - 1] <= s[b - 1]);
                }
            }
            assert forall|k: int| 0 <= k < i + 1 implies #[trigger] p[k] < i + 1 by {
                if k < gi {
                } else if k == gi {
                } else if k <= ii {
                    assert(q[k - 1] < ii);
                }
            }
        }
        i = i + 1;
    }
    assert(forall|a: int, b: int| 0 <= a <= b < data@.len() ==> data@[a] <= data@[b]);
}

} // verus!
