//! Sharing the sample points of a curve among its chains: after each chain got its share in
//! proportion to its length, the rounding error is settled so that the shares add up to the
//! number of points asked for. A shortfall goes to the longest chain; an excess is taken from
//! the longest chain first and, when that is not enough, from the other chains in order.
use vstd::prelude::*;

verus! {

/// Sum of the first `k` shares.
pub open spec fn sum_to(shares: Seq<usize>, k: int) -> int
    decreases k,
{
    if k <= 0 {
        0
    } else {
        sum_to(shares, k - 1) + shares[k - 1]
    }
}

/// Sum of all shares.
pub open spec fn total(shares: Seq<usize>) -> int {
    sum_to(shares, shares.len() as int)
}

/// `s` with `e` more taken off its shares from index `k` on, each share in turn giving up as
/// much as it has, until nothing is left to take.
pub open spec fn trim_from(s: Seq<usize>, e: int, k: int) -> Seq<usize>
    decreases s.len() - k,
{
    if k < 0 || k >= s.len() || e <= 0 {
        s
    } else {
        let c = if s[k] < e { s[k] as int } else { e };
        trim_from(s.update(k, (s[k] - c) as usize), e - c, k + 1)
    }
}

/// The shares after the rounding error is settled: a shortfall goes to chain `longest`; an
/// excess comes off chain `longest` first (never below zero) and the rest off the other
/// chains in order.
pub open spec fn balanced(shares: Seq<usize>, longest: int, n: int) -> Seq<usize> {
    let t = total(shares);
    if t > n {
        let cut = t - n;
        let taken = if shares[longest] >= cut { cut } else { shares[longest] as int };
        trim_from(shares.update(longest, (shares[longest] - taken) as usize), cut - taken, 0)
    } else if t < n {
        shares.update(longest, (shares[longest] + (n - t)) as usize)
    } else {
        shares
    }
}

proof fn lemma_sum_to_bounds(shares: Seq<usize>, k: int, j: int)
    requires
        0 <= j < k <= shares.len(),
    ensures
        sum_to(shares, k) >= shares[j] + sum_to(shares, j),
        sum_to(shares, k) >= sum_to(shares, k - 1),
    decreases k,
{
    if k - 1 > j {
        lemma_sum_to_bounds(shares, k - 1, j);
    }
    lemma_sum_nonneg(shares, k - 1);
    lemma_sum_nonneg(shares, j);
}

proof fn lemma_sum_nonneg(shares: Seq<usize>, k: int)
    ensures
        sum_to(shares, k) >= 0,
    decreases k,
{
    if k > 0 {
        lemma_sum_nonneg(shares, k - 1);
    }
}

/// Settles the rounding error of the `shares` of `n` sample points on chain `longest`.
pub fn balance_shares(shares: &mut Vec<usize>, longest: usize, n: usize)
    requires
        longest < old(shares)@.len(),
        total(old(shares)@) <= usize::MAX,
    ensures
        final(shares)@ == balanced(old(shares)@, longest as int, n as int),
        total(final(shares)@) == n,
{
    let mut allocated: usize = 0;
    let mut k: usize = 0;
    while k < shares.len()
        invariant
            k <= shares@.len(),
            shares@ == old(shares)@,
            total(shares@) <= usize::MAX,
            allocated == sum_to(shares@, k as int),
        decreases shares@.len() - k,
    {
        proof {
            lemma_sum_to_bounds(shares@, shares@.len() as int, k as int);
            lemma_prefix_le_total(shares@, k as int + 1);
        }
        allocated = allocated + shares[k];
        k = k + 1;
    }
    proof {
        lemma_sum_to_bounds(shares@, shares@.len() as int, longest as int);
        lemma_sum_nonneg(shares@, longest as int);
    }
    if allocated > n {
        let excess = allocated - n;
        let taken = if shares[longest] >= excess { excess } else { shares[longest] };
        let v = shares[longest] - taken;
        shares.set(longest, v);
        let ghost target = balanced(old(shares)@, longest as int, n as int);
        let mut rest = excess - taken;
        let mut k: usize = 0;
        while k < shares.len() && rest > 0
            invariant
                k <= shares@.len(),
                trim_from(shares@, rest as int, k as int) == target,
            decreases shares@.len() - k,
        {
            let c = if shares[k] < rest { shares[k] } else { rest };
            let w = shares[k] - c;
            shares.set(k, w);
            rest = rest - c;
            k = k + 1;
        }
    } else if allocated < n {
        let v = shares[longest] + (n - allocated);
        shares.set(longest, v);
    }
    proof {
        law_balanced_total(old(shares)@, longest as int, n as int);
    }
}

proof fn lemma_prefix_le_total(shares: Seq<usize>, k: int)
    requires
        0 <= k <= shares.len(),
    ensures
        sum_to(shares, k) <= total(shares),
    decreases shares.len() - k,
{
    if k < shares.len() {
        lemma_prefix_le_total(shares, k + 1);
    }
}

/// Taking `e` off the shares from index `k` on, where those shares hold at least `e`, takes
/// exactly `e` off the total.
proof fn lemma_trim_from(s: Seq<usize>, e: int, k: int)
    requires
        0 <= k <= s.len(),
        0 <= e <= total(s) - sum_to(s, k),
    ensures
        total(trim_from(s, e, k)) == total(s) - e,
        trim_from(s, e, k).len() == s.len(),
    decreases s.len() - k,
{
    if k < s.len() && e > 0 {
        let c = if s[k] < e { s[k] as int } else { e };
        let s2 = s.update(k, (s[k] - c) as usize);
        lemma_sum_update(s, k, (s[k] - c) as usize, s.len() as int);
        lemma_sum_update(s, k, (s[k] - c) as usize, k + 1);
        lemma_sum_update(s, k, (s[k] - c) as usize, k);
        assert(sum_to(s, k + 1) == sum_to(s, k) + s[k]);
        lemma_prefix_le_total(s, k + 1);
        assert(total(s2) == total(s) - c);
        assert(sum_to(s2, k + 1) == sum_to(s, k) + s[k] - c);
        lemma_trim_from(s2, e - c, k + 1);
    } else if k == s.len() {
        assert(e == 0 || e <= 0);
    }
}

/// The balanced shares add up to `n` exactly: a shortfall is made up in full, and an excess
/// is taken off in full.
pub proof fn law_balanced_total(shares: Seq<usize>, longest: int, n: int)
    requires
        0 <= longest < shares.len(),
        0 <= n <= usize::MAX,
    ensures
        total(balanced(shares, longest, n)) == n,
        balanced(shares, longest, n).len() == shares.len(),
{
    lemma_sum_to_bounds(shares, shares.len() as int, longest);
    lemma_sum_nonneg(shares, longest);
    let t = total(shares);
    if t > n {
        let cut = t - n;
        let taken = if shares[longest] >= cut { cut } else { shares[longest] as int };
        let v = (shares[longest] - taken) as usize;
        let s1 = shares.update(longest, v);
        lemma_sum_update(shares, longest, v, shares.len() as int);
        assert(sum_to(s1, 0) == 0);
        lemma_trim_from(s1, cut - taken, 0);
    } else if t < n {
        let v = (shares[longest] + (n - t)) as usize;
        lemma_sum_update(shares, longest, v, shares.len() as int);
    }
}

/// Taking `e` off the shares from index `k` on leaves the shares before `k` alone, lowers
/// none, and takes from a share only once every earlier share from `k` on is used up.
proof fn lemma_trim_from_shape(s: Seq<usize>, e: int, k: int)
    requires
        0 <= k <= s.len(),
    ensures
        trim_from(s, e, k).len() == s.len(),
        forall|i: int| 0 <= i < k ==> #[trigger] trim_from(s, e, k)[i] == s[i],
        forall|i: int| 0 <= i < s.len() ==> #[trigger] trim_from(s, e, k)[i] <= s[i],
        e <= 0 ==> trim_from(s, e, k) == s,
        forall|i: int, j: int|
            k <= j < i < s.len() && #[trigger] trim_from(s, e, k)[i] < s[i] ==> #[trigger] trim_from(s, e, k)[j] == 0,
    decreases s.len() - k,
{
    if k < s.len() && e > 0 {
        let c = if s[k] < e { s[k] as int } else { e };
        let s2 = s.update(k, (s[k] - c) as usize);
        lemma_trim_from_shape(s2, e - c, k + 1);
        let r = trim_from(s, e, k);
        assert(r == trim_from(s2, e - c, k + 1));
        assert forall|i: int, j: int| k <= j < i < s.len() && #[trigger] r[i] < s[i] implies #[trigger] r[j] == 0 by {
            if j == k {
                if e - c <= 0 {
                    assert(r == s2);
                } else {
                    assert(c == s[k]);
                }
            }
        }
    }
}

/// How the rounding error is settled, chain by chain. A shortfall is added to chain
/// `longest` alone. An excess comes off chain `longest` first, as far as its share goes;
/// when its share covers the excess no other chain changes, and otherwise it is left with
/// nothing and the other chains give up points in order: no chain gains, and a chain loses
/// points only once every earlier chain is down to nothing.
pub proof fn law_balanced_shares(shares: Seq<usize>, longest: int, n: int, i: int, j: int)
    requires
        0 <= longest < shares.len(),
        0 <= n <= usize::MAX,
        0 <= i < shares.len(),
        i != longest,
    ensures
        balanced(shares, longest, n).len() == shares.len(),
        total(shares) <= n ==> balanced(shares, longest, n)[longest] == shares[longest] + (n - total(shares)),
        total(shares) <= n ==> balanced(shares, longest, n)[i] == shares[i],
        total(shares) > n && shares[longest] >= total(shares) - n
            ==> balanced(shares, longest, n)[longest] == shares[longest] - (total(shares) - n),
        total(shares) > n && shares[longest] >= total(shares) - n ==> balanced(shares, longest, n)[i] == shares[i],
        total(shares) > n && shares[longest] < total(shares) - n ==> balanced(shares, longest, n)[longest] == 0,
        balanced(shares, longest, n)[i] <= shares[i] || total(shares) < n,
        0 <= j < i && j != longest && balanced(shares, longest, n)[i] < shares[i]
            ==> balanced(shares, longest, n)[j] == 0,
{
    lemma_sum_to_bounds(shares, shares.len() as int, longest);
    lemma_sum_nonneg(shares, longest);
    let t = total(shares);
    if t > n {
        let cut = t - n;
        let taken = if shares[longest] >= cut { cut } else { shares[longest] as int };
        let s1 = shares.update(longest, (shares[longest] - taken) as usize);
        lemma_trim_from_shape(s1, cut - taken, 0);
        let r = trim_from(s1, cut - taken, 0);
        assert(r[longest] <= s1[longest]);
        assert(r[i] <= s1[i]);
        if 0 <= j < i && j != longest && r[i] < shares[i] {
            assert(r[i] < s1[i]);
            assert(r[j] == 0);
        }
    }
}

proof fn lemma_sum_update(shares: Seq<usize>, i: int, v: usize, k: int)
    requires
        0 <= i < shares.len(),
        0 <= k <= shares.len(),
    ensures
        sum_to(shares.update(i, v), k) == sum_to(shares, k) + if i < k { v - shares[i] } else { 0 },
    decreases k,
{
    if k > 0 {
        lemma_sum_update(shares, i, v, k - 1);
    }
}

} // verus!
