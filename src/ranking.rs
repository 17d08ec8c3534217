use vstd::prelude::*;

verus! {

/// Row `j` is ranked strictly ahead of row `i`: its score is better in the
/// chosen direction, or the scores tie and `j` comes first.
pub open spec fn ranks_ahead(s: Seq<i64>, descending: bool, j: int, i: int) -> bool {
    if s[j] == s[i] {
        j < i
    } else if descending {
        s[j] > s[i]
    } else {
        s[j] < s[i]
    }
}

/// Row `j` is at or above row `i` in the ranking.
pub open spec fn within_cutoff(s: Seq<i64>, descending: bool, j: int, i: int) -> bool {
    j == i || ranks_ahead(s, descending, j, i)
}

/// `order` lists each of `0..n` exactly once.
pub open spec fn is_permutation_of_range(order: Seq<usize>, n: int) -> bool {
    &&& order.len() == n
    &&& order.no_duplicates()
    &&& forall|m: int| 0 <= m < n ==> #[trigger] order[m] < n
    &&& forall|j: int| 0 <= j < n ==> #[trigger] order.contains(j as usize)
}

/// `order` is a permutation of `0..scores.len()` listing the rows from the
/// best-ranked to the worst-ranked.
pub open spec fn is_ranking(order: Seq<usize>, s: Seq<i64>, descending: bool) -> bool {
    &&& is_permutation_of_range(order, s.len() as int)
    &&& forall|a: int, b: int|
        0 <= a < b < order.len() ==> #[trigger] ranks_ahead(
            s,
            descending,
            order[a] as int,
            order[b] as int,
        ) && #[trigger] order[a] != order[b]
}

/// The sequence `0, 1, .., n - 1`.
pub open spec fn range_seq(n: int) -> Seq<usize> {
    Seq::new(n as nat, |i: int| i as usize)
}

/// The sequence `0..n` repeats no value.
pub proof fn lemma_range_seq_distinct(n: int)
    requires
        0 <= n <= usize::MAX,
    ensures
        range_seq(n).no_duplicates(),
        forall|p: int| 0 <= p < n ==> #[trigger] range_seq(n)[p] as int == p,
{
    let r = range_seq(n);
    assert forall|a: int, b: int| 0 <= a < r.len() && 0 <= b < r.len() && a != b implies r[a] != r[b] by {
        assert(r[a] == a as usize && r[b] == b as usize);
    }
}

/// The indices `0..n` in increasing order.
pub fn identity_order(n: usize) -> (r: Vec<usize>)
    ensures
        r@ == range_seq(n as int),
{
    let mut r: Vec<usize> = Vec::with_capacity(n);
    let mut i: usize = 0;
    while i < n
        invariant
            i <= n,
            r@ == range_seq(i as int),
        decreases n - i,
    {
        r.push(i);
        i = i + 1;
        assert(r@ =~= range_seq(i as int));
    }
    r
}

/// A sequence with the same elements as `0..n`, counted with multiplicity,
/// lists each of them exactly once.
pub proof fn lemma_permutation_of_range(order: Seq<usize>, n: int)
    requires
        0 <= n <= usize::MAX,
        order.to_multiset() == range_seq(n).to_multiset(),
    ensures
        is_permutation_of_range(order, n),
{
    broadcast use vstd::seq_lib::group_to_multiset_ensures;

    let r = range_seq(n);
    lemma_range_seq_distinct(n);
    assert(order.len() == order.to_multiset().len());
    assert(r.len() == r.to_multiset().len());
    assert(order.len() == n);
    r.lemma_multiset_has_no_duplicates();
    order.lemma_multiset_has_no_duplicates_conv();
    assert forall|m: int| 0 <= m < n implies #[trigger] order[m] < n by {
        assert(order.contains(order[m]));
        assert(r.to_multiset().count(order[m]) > 0);
        assert(r.contains(order[m]));
    }
    assert forall|j: int| 0 <= j < n implies #[trigger] order.contains(j as usize) by {
        assert(r[j] == j as usize);
        assert(r.contains(j as usize));
        assert(r.to_multiset().count(j as usize) > 0);
    }
}

/// How two rows compare in the ranking: `Less` when `a` ranks ahead of `b`.
pub fn compare_ranks(scores: &Vec<i64>, descending: bool, a: usize, b: usize) -> (r:
    core::cmp::Ordering)
    requires
        a < scores.len(),
        b < scores.len(),
    ensures
        (r == core::cmp::Ordering::Less) == ranks_ahead(scores@, descending, a as int, b as int),
        (r == core::cmp::Ordering::Greater) == ranks_ahead(scores@, descending, b as int, a as int),
        (r == core::cmp::Ordering::Equal) == (a == b),
{
    let (x, y) = (scores[a], scores[b]);
    if x == y {
        if a < b {
            core::cmp::Ordering::Less
        } else if a > b {
            core::cmp::Ordering::Greater
        } else {
            core::cmp::Ordering::Equal
        }
    } else if (descending && x > y) || (!descending && x < y) {
        core::cmp::Ordering::Less
    } else {
        core::cmp::Ordering::Greater
    }
}

/// Relies on `slice::sort_by`: it permutes the slice so that no element is
/// followed by one that the comparator orders before it. `compare_ranks` is a
/// total order on indices of `scores`.
#[verifier::external_body]
fn sort_by_rank(order: &mut Vec<usize>, scores: &Vec<i64>, descending: bool)
    requires
        forall|m: int| 0 <= m < old(order).len() ==> #[trigger] old(order)[m] < scores.len(),
    ensures
        final(order)@.to_multiset() == old(order)@.to_multiset(),
        forall|a: int, b: int|
            0 <= a < b < final(order).len() ==> !#[trigger] ranks_ahead(
                scores@,
                descending,
                final(order)[b] as int,
                final(order)[a] as int,
            ),
{
    order.sort_by(|a, b| compare_ranks(scores, descending, *a, *b));
}

/// The rows ordered from the best-ranked to the worst-ranked; ties go to the
/// earlier row.
pub fn rank_rows(scores: &Vec<i64>, descending: bool) -> (order: Vec<usize>)
    ensures
        is_ranking(order@, scores@, descending),
{
    let n = scores.len();
    let mut order = identity_order(n);
    sort_by_rank(&mut order, scores, descending);
    proof {
        lemma_permutation_of_range(order@, n as int);
        assert forall|a: int, b: int| 0 <= a < b < order.len() implies #[trigger] ranks_ahead(
            scores@,
            descending,
            order[a] as int,
            order[b] as int,
        ) && #[trigger] order[a] != order[b] by {
            assert(order@.no_duplicates());
            assert(!ranks_ahead(scores@, descending, order[b] as int, order[a] as int));
        }
    }
    order
}

} // verus!
