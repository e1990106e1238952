//! Which colour clusters become data groups, and in what order: clusters of fewer than five
//! pixels are noise, the others are listed from the largest to the smallest, clusters of
//! equal size in the order in which they were found.
use vstd::prelude::*;

verus! {

/// Fewest pixels a cluster needs to become a data group.
pub const MIN_GROUP_PIXELS: usize = 5;

/// Cluster `i` is listed before cluster `j`: it is larger, or as large and found earlier.
pub open spec fn listed_before(sizes: Seq<usize>, i: int, j: int) -> bool {
    sizes[i] > sizes[j] || (sizes[i] == sizes[j] && i < j)
}

/// `order` lists the clusters of at least `MIN_GROUP_PIXELS` pixels, each once, from the
/// largest to the smallest, equal sizes in the order in which they were found.
pub open spec fn is_group_order(sizes: Seq<usize>, order: Seq<usize>) -> bool {
    &&& forall|k: int| 0 <= k < order.len() ==> #[trigger] order[k] < sizes.len()
    &&& forall|i: int| 0 <= i < sizes.len() ==> (order.contains(i as usize) <==> sizes[i] >= MIN_GROUP_PIXELS)
    &&& forall|a: int, b: int| 0 <= a < b < order.len() ==> listed_before(sizes, order[a] as int, order[b] as int)
}

/// The clusters, given their pixel counts `sizes`, that become data groups, in the order in
/// which they are listed.
pub fn group_order(sizes: &Vec<usize>) -> (order: Vec<usize>)
    ensures
        is_group_order(sizes@, order@),
{
    let n = sizes.len();
    let mut order: Vec<usize> = Vec::new();
    let mut i: usize = 0;
    while i < n
        invariant
            n == sizes@.len(),
            i <= n,
            forall|k: int| 0 <= k < order@.len() ==> #[trigger] order@[k] < i,
            forall|e: int| 0 <= e < i ==> (order@.contains(e as usize) <==> sizes@[e] >= MIN_GROUP_PIXELS),
            forall|a: int, b: int| 0 <= a < b < order@.len() ==> listed_before(sizes@, order@[a] as int, order@[b] as int),
        decreases n - i,
    {
        if sizes[i] >= MIN_GROUP_PIXELS {
            let s = sizes[i];
            let mut k: usize = 0;
            while k < order.len() && sizes[order[k]] >= s
                invariant
                    n == sizes@.len(),
                    i < n,
                    s == sizes@[i as int],
                    k <= order@.len(),
                    forall|j: int| 0 <= j < order@.len() ==> #[trigger] order@[j] < i,
                    forall|j: int| 0 <= j < k ==> sizes@[#[trigger] order@[j] as int] >= s,
                decreases order@.len() - k,
            {
                k = k + 1;
            }
            let ghost old_order = order@;
            order.insert(k, i);
            proof {
                assert(order@ == old_order.insert(k as int, i));
                assert forall|j: int| 0 <= j < order@.len() implies #[trigger] order@[j] < i + 1 by {
                    if j < k {
                        assert(order@[j] == old_order[j]);
                    } else if j > k {
                        assert(order@[j] == old_order[j - 1]);
                    }
                }
                assert forall|e: int| 0 <= e < i + 1 implies (order@.contains(e as usize) <==> sizes@[e] >= MIN_GROUP_PIXELS) by {
                    if order@.contains(e as usize) {
                        let j = choose|j: int| 0 <= j < order@.len() && order@[j] == e as usize;
                        if j < k {
                            assert(old_order[j] == e);
                        } else if j > k {
                            assert(old_order[j - 1] == e);
                        }
                    }
                    if e < i && sizes@[e] >= MIN_GROUP_PIXELS {
                        assert(old_order.contains(e as usize));
                        let j = choose|j: int| 0 <= j < old_order.len() && old_order[j] == e as usize;
                        if j < k {
                            assert(order@[j] == e);
                        } else {
                            assert(order@[j + 1] == e);
                        }
                    }
                    if e == i {
                        assert(order@[k as int] == i);
                    }
                }
                assert forall|a: int, b: int| 0 <= a < b < order@.len()
                    implies listed_before(sizes@, order@[a] as int, order@[b] as int) by {
                    if b < k {
                        assert(order@[a] == old_order[a] && order@[b] == old_order[b]);
                    } else if a > k {
                        assert(order@[a] == old_order[a - 1] && order@[b] == old_order[b - 1]);
                    } else if a < k && b == k {
                        assert(order@[a] == old_order[a]);
                        assert(sizes@[old_order[a] as int] >= s);
                    } else if a < k && b > k {
                        assert(order@[a] == old_order[a] && order@[b] == old_order[b - 1]);
                    } else if a == k {
                        assert(order@[b] == old_order[b - 1]);
                        assert(k < old_order.len());
                        assert(sizes@[old_order[k as int] as int] < s);
                        if b - 1 > k {
                            assert(listed_before(sizes@, old_order[k as int] as int, old_order[b - 1] as int));
                        }
                    }
                }
            }
        }
        i = i + 1;
    }
    order
}

/// `x` appears in `order` at position `j`, for some `j`.
proof fn lemma_found_at(order: Seq<usize>, x: usize) -> (j: int)
    requires
        order.contains(x),
    ensures
        0 <= j < order.len(),
        order[j] == x,
{
    choose|j: int| 0 <= j < order.len() && order[j] == x
}

/// A cluster listed in one listing that meets the rule is listed in any other.
proof fn lemma_listed_in_both(sizes: Seq<usize>, a: Seq<usize>, b: Seq<usize>, x: usize)
    requires
        is_group_order(sizes, a),
        is_group_order(sizes, b),
        a.contains(x),
    ensures
        b.contains(x),
        x < sizes.len(),
{
    let k = lemma_found_at(a, x);
    assert(a[k] < sizes.len());
    let i = x as int;
    assert(i as usize == x);
    assert(a.contains(i as usize) <==> sizes[i] >= MIN_GROUP_PIXELS);
    assert(b.contains(i as usize) <==> sizes[i] >= MIN_GROUP_PIXELS);
}

/// Two listings that meet the rule agree on their first `k` entries.
proof fn lemma_same_prefix(sizes: Seq<usize>, a: Seq<usize>, b: Seq<usize>, k: int)
    requires
        is_group_order(sizes, a),
        is_group_order(sizes, b),
        0 <= k <= a.len(),
        k <= b.len(),
    ensures
        forall|j: int| 0 <= j < k ==> a[j] == b[j],
    decreases k,
{
    if k > 0 {
        lemma_same_prefix(sizes, a, b, k - 1);
        let i = k - 1;
        let x = a[i];
        let y = b[i];
        if x != y {
            assert(a.contains(x));
            assert(b.contains(y));
            lemma_listed_in_both(sizes, a, b, x);
            lemma_listed_in_both(sizes, b, a, y);
            let jb = lemma_found_at(b, x);
            let ja = lemma_found_at(a, y);
            if jb < i {
                assert(a[jb] == x);
                assert(listed_before(sizes, a[jb] as int, a[i] as int));
            }
            if ja < i {
                assert(b[ja] == y);
                assert(listed_before(sizes, b[ja] as int, b[i] as int));
            }
            assert(jb > i && ja > i);
            assert(listed_before(sizes, y as int, x as int));
            assert(listed_before(sizes, x as int, y as int));
        }
    }
}

/// The listing is determined by the cluster sizes alone: two listings that both meet the rule
/// are equal.
pub proof fn law_group_order_unique(sizes: Seq<usize>, a: Seq<usize>, b: Seq<usize>)
    requires
        is_group_order(sizes, a),
        is_group_order(sizes, b),
    ensures
        a == b,
{
    let m = if a.len() <= b.len() { a.len() as int } else { b.len() as int };
    lemma_same_prefix(sizes, a, b, m);
    if a.len() > b.len() {
        let x = a[m];
        assert(a.contains(x));
        lemma_listed_in_both(sizes, a, b, x);
        let j = lemma_found_at(b, x);
        assert(a[j] == x);
        assert(listed_before(sizes, a[j] as int, a[m] as int));
    } else if b.len() > a.len() {
        let x = b[m];
        assert(b.contains(x));
        lemma_listed_in_both(sizes, b, a, x);
        let j = lemma_found_at(a, x);
        assert(b[j] == x);
        assert(listed_before(sizes, b[j] as int, b[m] as int));
    }
    assert(a =~= b);
}

} // verus!
