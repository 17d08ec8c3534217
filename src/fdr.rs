use vstd::prelude::*;
use crate::ranking::{ranks_ahead, within_cutoff, is_ranking, rank_rows};

verus! {

/// An FDR threshold held exactly as the fraction `num / den`; a zero
/// denominator stands for a threshold that every cutoff meets.
#[derive(Clone, Copy, Debug, PartialEq, Eq, Structural)]
pub struct FdrThreshold {
    pub num: u64,
    pub den: u64,
}

/// The rows at or above row `i` whose target flag is `want`.
pub open spec fn hits_at(is_target: Seq<bool>, s: Seq<i64>, descending: bool, i: int, want: bool) -> Set<int> {
    Set::new(|j: int| 0 <= j < s.len() && within_cutoff(s, descending, j, i) && is_target[j] == want)
}

/// The empirical FDR, decoys over `max(targets, 1)`, is at most the threshold.
pub open spec fn fdr_within(decoys: int, targets: int, thr: FdrThreshold) -> bool {
    decoys * thr.den <= thr.num * (if targets == 0 { 1 } else { targets })
}

/// The cutoff at row `i` meets the threshold.
pub open spec fn cutoff_passes(is_target: Seq<bool>, s: Seq<i64>, descending: bool, thr: FdrThreshold, i: int) -> bool {
    fdr_within(
        hits_at(is_target, s, descending, i, false).len() as int,
        hits_at(is_target, s, descending, i, true).len() as int,
        thr,
    )
}

/// The label of row `j`: -1 for a decoy; +1 for a target at or above some
/// cutoff that meets the threshold; 0 for any other target.
pub open spec fn fdr_label(is_target: Seq<bool>, s: Seq<i64>, descending: bool, thr: FdrThreshold, j: int) -> i32 {
    if !is_target[j] {
        -1i32
    } else if exists|i: int| 0 <= i < s.len() && #[trigger] cutoff_passes(is_target, s, descending, thr, i) && within_cutoff(s, descending, j, i) {
        1i32
    } else {
        0i32
    }
}

/// The labels of all rows.
pub open spec fn fdr_labels(is_target: Seq<bool>, s: Seq<i64>, descending: bool, thr: FdrThreshold) -> Seq<i32> {
    Seq::new(s.len(), |j: int| fdr_label(is_target, s, descending, thr, j))
}

/// The rows among the first `k` of `order` whose target flag is `want`.
pub open spec fn hits_in_prefix(is_target: Seq<bool>, order: Seq<usize>, k: int, want: bool) -> Set<int> {
    Set::new(|j: int| exists|m: int| 0 <= m < k && #[trigger] order[m] == j && is_target[j] == want)
}

proof fn lemma_prefix_is_cutoff(is_target: Seq<bool>, s: Seq<i64>, descending: bool, order: Seq<usize>, k: int, want: bool)
    requires
        is_ranking(order, s, descending),
        is_target.len() == s.len(),
        0 <= k < s.len() <= usize::MAX,
    ensures
        hits_in_prefix(is_target, order, k + 1, want) == hits_at(is_target, s, descending, order[k] as int, want),
{
    let a = hits_in_prefix(is_target, order, k + 1, want);
    let b = hits_at(is_target, s, descending, order[k] as int, want);
    assert forall|j: int| #[trigger] a.contains(j) implies b.contains(j) by {
        let m = choose|m: int| 0 <= m < k + 1 && #[trigger] order[m] == j && is_target[j] == want;
        if m < k {
            assert(ranks_ahead(s, descending, order[m] as int, order[k] as int) && order[m] != order[k]);
        }
    }
    assert forall|j: int| #[trigger] b.contains(j) implies a.contains(j) by {
        assert(order.contains(j as usize));
        let m = choose|m: int| 0 <= m < order.len() && order[m] == j as usize;
        if m > k {
            assert(ranks_ahead(s, descending, order[k] as int, order[m] as int) && order[k] != order[m]);
        }
        assert(order[m] as int == j);
        assert(0 <= m < k + 1 && order[m] == j && is_target[j] == want);
    }
    assert(a =~= b);
}

/// Labels every row by target-decoy competition on `scores`, ranked in the
/// given direction.
pub fn label_by_fdr(is_target: &Vec<bool>, scores: &Vec<i64>, thr: FdrThreshold, descending: bool) -> (labels: Vec<i32>)
    requires
        is_target.len() == scores.len(),
    ensures
        labels@ == fdr_labels(is_target@, scores@, descending, thr),
{
    let n = scores.len();
    let order = rank_rows(scores, descending);
    let ghost tg = is_target@;
    let ghost s = scores@;
    // Walk the ranking, keeping the length of the longest prefix that passes.
    let mut cut: usize = 0;
    let mut targets: usize = 0;
    let mut decoys: usize = 0;
    let mut k: usize = 0;
    proof {
        assert(hits_in_prefix(tg, order@, 0, true) =~= Set::<int>::empty());
        assert(hits_in_prefix(tg, order@, 0, false) =~= Set::<int>::empty());
    }
    while k < n
        invariant
            n == s.len(),
            tg == is_target@,
            s == scores@,
            tg.len() == n,
            is_ranking(order@, s, descending),
            k <= n,
            cut <= k,
            targets as int == hits_in_prefix(tg, order@, k as int, true).len(),
            decoys as int == hits_in_prefix(tg, order@, k as int, false).len(),
            hits_in_prefix(tg, order@, k as int, true).finite(),
            hits_in_prefix(tg, order@, k as int, false).finite(),
            targets + decoys == k,
            cut > 0 ==> cutoff_passes(tg, s, descending, thr, order[cut - 1] as int),
            forall|m: int| 0 <= m < k && #[trigger] cutoff_passes(tg, s, descending, thr, order@[m] as int) ==> m < cut,
        decreases n - k,
    {
        let row = order[k];
        proof {
            let kk = k as int;
            let ht = hits_in_prefix(tg, order@, kk, true);
            let hd = hits_in_prefix(tg, order@, kk, false);
            assert(!ht.contains(row as int) && !hd.contains(row as int)) by {
                if ht.contains(row as int) || hd.contains(row as int) {
                    let m = choose|m: int| 0 <= m < kk && #[trigger] order@[m] == row as int;
                    assert(order@[m] == order@[kk]);
                }
            }
            if tg[row as int] {
                assert(hits_in_prefix(tg, order@, kk + 1, true) =~= ht.insert(row as int));
                assert(hits_in_prefix(tg, order@, kk + 1, false) =~= hd);
            } else {
                assert(hits_in_prefix(tg, order@, kk + 1, true) =~= ht);
                assert(hits_in_prefix(tg, order@, kk + 1, false) =~= hd.insert(row as int));
            }
            lemma_prefix_is_cutoff(tg, s, descending, order@, kk, true);
            lemma_prefix_is_cutoff(tg, s, descending, order@, kk, false);
        }
        if is_target[row] {
            targets = targets + 1;
        } else {
            decoys = decoys + 1;
        }
        let denom: u128 = if targets == 0 { 1 } else { targets as u128 };
        let d: u128 = decoys as u128;
        let den: u128 = thr.den as u128;
        let num: u128 = thr.num as u128;
        proof {
            assert(d <= u64::MAX && denom <= u64::MAX);
            assert(d * den <= u64::MAX * u64::MAX) by (nonlinear_arith)
                requires d <= u64::MAX, den <= u64::MAX;
            assert(num * denom <= u64::MAX * u64::MAX) by (nonlinear_arith)
                requires num <= u64::MAX, denom <= u64::MAX;
        }
        let lhs: u128 = d * den;
        let rhs: u128 = num * denom;
        if lhs <= rhs {
            cut = k + 1;
        }
        k = k + 1;
    }
    // Label the rows inside the cutoff.
    let mut labels: Vec<i32> = Vec::with_capacity(n);
    let mut j: usize = 0;
    while j < n
        invariant
            n == s.len(),
            tg == is_target@,
            tg.len() == n,
            j <= n,
            labels@.len() == j,
            forall|r: int| 0 <= r < j ==> #[trigger] labels@[r] == (if tg[r] { 0i32 } else { -1i32 }),
        decreases n - j,
    {
        labels.push(if is_target[j] { 0 } else { -1 });
        j = j + 1;
    }
    let mut p: usize = 0;
    while p < cut
        invariant
            n == s.len(),
            tg == is_target@,
            tg.len() == n,
            is_ranking(order@, s, descending),
            cut <= n,
            p <= cut,
            labels@.len() == n,
            forall|r: int| 0 <= r < n ==> #[trigger] labels@[r] == (if !tg[r] { -1i32 } else if (exists|m: int| 0 <= m < p && order@[m] == r) { 1i32 } else { 0i32 }),
        decreases cut - p,
    {
        let row = order[p];
        if is_target[row] {
            labels.set(row, 1);
        }
        proof {
            assert forall|r: int| 0 <= r < n implies #[trigger] labels@[r] == (if !tg[r] { -1i32 } else if (exists|m: int| 0 <= m < p + 1 && order@[m] == r) { 1i32 } else { 0i32 }) by {
                if r == row as int {
                    assert(order@[p as int] == r);
                } else {
                    if exists|m: int| 0 <= m < p + 1 && order@[m] == r {
                        let m = choose|m: int| 0 <= m < p + 1 && order@[m] == r;
                        assert(m != p);
                    }
                }
            }
        }
        p = p + 1;
    }
    proof {
        assert forall|r: int| 0 <= r < n implies #[trigger] labels@[r] == fdr_label(tg, s, descending, thr, r) by {
            if tg[r] {
                let inside = exists|m: int| 0 <= m < cut && order@[m] == r;
                let spec_side = exists|i: int| 0 <= i < s.len() && #[trigger] cutoff_passes(tg, s, descending, thr, i) && within_cutoff(s, descending, r, i);
                if inside {
                    let m = choose|m: int| 0 <= m < cut && order@[m] == r;
                    let i = order@[cut - 1] as int;
                    if m < cut - 1 {
                        assert(ranks_ahead(s, descending, order@[m] as int, order@[cut - 1] as int) && order@[m] != order@[cut - 1]);
                    }
                    assert(cutoff_passes(tg, s, descending, thr, i) && within_cutoff(s, descending, r, i));
                }
                if spec_side {
                    let i = choose|i: int| 0 <= i < s.len() && #[trigger] cutoff_passes(tg, s, descending, thr, i) && within_cutoff(s, descending, r, i);
                    assert(order@.contains(i as usize));
                    let q = choose|q: int| 0 <= q < n && order@[q] == i as usize;
                    assert(cutoff_passes(tg, s, descending, thr, order@[q] as int));
                    assert(q < cut);
                    assert(order@.contains(r as usize));
                    let m = choose|m: int| 0 <= m < n && order@[m] == r as usize;
                    if m > q {
                        assert(ranks_ahead(s, descending, order@[q] as int, order@[m] as int) && order@[q] != order@[m]);
                    }
                    assert(0 <= m < cut && order@[m] == r);
                }
            }
        }
        assert(labels@ =~= fdr_labels(tg, s, descending, thr));
    }
    labels
}

} // verus!
