use vstd::prelude::*;
use crate::dataset::{Dataset, filtered_from};

verus! {

/// Relies on rand's `SliceRandom::shuffle`, which only swaps elements of the
/// slice, driven by `StdRng::seed_from_u64(seed)`.
#[verifier::external_body]
pub(crate) fn shuffle_seeded(v: &mut Vec<usize>, seed: u64)
    ensures
        final(v)@.to_multiset() == old(v)@.to_multiset(),
{
    let mut rng = <rand::rngs::StdRng as rand::SeedableRng>::seed_from_u64(seed);
    rand::seq::SliceRandom::shuffle(v.as_mut_slice(), &mut rng);
}

/// Marks the rows listed at positions `lo..hi` of `order`.
pub open spec fn chunk_mask(order: Seq<usize>, lo: int, hi: int, n: int) -> Seq<bool> {
    Seq::new(n as nat, |j: int| exists|p: int| lo <= p < hi && #[trigger] order[p] == j as usize)
}

/// Every entry flipped.
pub open spec fn negated(mask: Seq<bool>) -> Seq<bool> {
    Seq::new(mask.len(), |j: int| !mask[j])
}

/// Fold `i` of `dataset` split by `order` into chunks of `size` rows: the
/// training part holds every row outside chunk `i`, the test part chunk `i`.
pub open spec fn is_fold(fold: (Dataset, Dataset), dataset: Dataset, order: Seq<usize>, size: int, i: int) -> bool {
    let test = chunk_mask(order, i * size, (i + 1) * size, dataset.labels.len() as int);
    &&& filtered_from(fold.0, dataset, negated(test))
    &&& filtered_from(fold.1, dataset, test)
}

/// The size of each test chunk when `n` rows are split into `k` folds.
pub open spec fn fold_size(n: int, k: int) -> int {
    n / k
}

proof fn lemma_chunk_bounds(i: int, k: int, n: int)
    requires
        0 <= i < k,
        0 <= n,
    ensures
        0 <= i * (n / k),
        i * (n / k) <= (i + 1) * (n / k),
        (i + 1) * (n / k) <= n,
{
    assert(i * (n / k) <= (i + 1) * (n / k)) by (nonlinear_arith)
        requires 0 <= i, 0 < k, 0 <= n;
    assert(0 <= i * (n / k)) by (nonlinear_arith)
        requires 0 <= i, 0 < k, 0 <= n;
    assert((i + 1) * (n / k) <= k * (n / k)) by (nonlinear_arith)
        requires 0 <= i < k, 0 <= n;
    assert(k * (n / k) <= n) by (nonlinear_arith)
        requires 0 < k, 0 <= n;
}

/// The mask of the rows listed at positions `lo..hi` of `order`.
fn chunk_mask_of(order: &Vec<usize>, lo: usize, hi: usize, n: usize) -> (r: Vec<bool>)
    requires
        lo <= hi <= order.len(),
        forall|p: int| 0 <= p < order.len() ==> #[trigger] order@[p] < n,
    ensures
        r@ == chunk_mask(order@, lo as int, hi as int, n as int),
{
    let mut r: Vec<bool> = Vec::with_capacity(n);
    let mut j: usize = 0;
    while j < n
        invariant
            j <= n,
            r@ == Seq::new(j as nat, |q: int| false),
        decreases n - j,
    {
        r.push(false);
        j = j + 1;
        assert(r@ =~= Seq::new(j as nat, |q: int| false));
    }
    let mut p: usize = lo;
    while p < hi
        invariant
            lo <= p <= hi,
            hi <= order.len(),
            forall|q: int| 0 <= q < order.len() ==> #[trigger] order@[q] < n,
            r@ == chunk_mask(order@, lo as int, p as int, n as int),
        decreases hi - p,
    {
        let row = order[p];
        r.set(row, true);
        proof {
            assert forall|q: int| 0 <= q < n implies #[trigger] r@[q] == chunk_mask(order@, lo as int, p + 1, n as int)[q] by {
                if q == row as int {
                    assert(order@[p as int] == q as usize);
                } else if exists|t: int| lo <= t < p + 1 && #[trigger] order@[t] == q as usize {
                    let t = choose|t: int| lo <= t < p + 1 && #[trigger] order@[t] == q as usize;
                    assert(t != p);
                }
            }
            assert(r@ =~= chunk_mask(order@, lo as int, p + 1, n as int));
        }
        p = p + 1;
    }
    r
}

/// Every entry of `mask` flipped.
fn negate(mask: &Vec<bool>) -> (r: Vec<bool>)
    ensures
        r@ == negated(mask@),
{
    let mut r: Vec<bool> = Vec::with_capacity(mask.len());
    let mut j: usize = 0;
    while j < mask.len()
        invariant
            j <= mask.len(),
            r@ == negated(mask@).take(j as int),
        decreases mask.len() - j,
    {
        r.push(!mask[j]);
        j = j + 1;
        assert(r@ =~= negated(mask@).take(j as int));
    }
    assert(r@ =~= negated(mask@));
    r
}

/// Splits `dataset` into `n_folds` train/test pairs: `order` is cut into
/// chunks of `n / n_folds` positions, and chunk `i` is the test part of fold
/// `i`. Rows past the last full chunk are in every training part.
pub fn folds_from_order(dataset: &Dataset, order: &Vec<usize>, n_folds: usize) -> (r: Vec<(Dataset, Dataset)>)
    requires
        dataset.wf(),
        n_folds > 0,
        order.len() == dataset.labels.len(),
        forall|p: int| 0 <= p < order.len() ==> #[trigger] order@[p] < dataset.labels.len(),
    ensures
        r.len() == n_folds,
        forall|i: int| 0 <= i < n_folds ==> #[trigger] is_fold(r@[i], *dataset, order@, fold_size(dataset.labels.len() as int, n_folds as int), i),
{
    let n = dataset.n_rows();
    let size = n / n_folds;
    let mut r: Vec<(Dataset, Dataset)> = Vec::with_capacity(n_folds);
    let mut i: usize = 0;
    while i < n_folds
        invariant
            dataset.wf(),
            n == dataset.labels.len(),
            size == fold_size(n as int, n_folds as int),
            order.len() == n,
            forall|p: int| 0 <= p < order.len() ==> #[trigger] order@[p] < n,
            i <= n_folds,
            r.len() == i,
            forall|q: int| 0 <= q < i ==> #[trigger] is_fold(r@[q], *dataset, order@, size as int, q),
        decreases n_folds - i,
    {
        proof {
            lemma_chunk_bounds(i as int, n_folds as int, n as int);
            assert(size as int == n as int / n_folds as int);
            assert(i * size <= (i + 1) * size <= n);
        }
        let lo = i * size;
        let hi = (i + 1) * size;
        let test_mask = chunk_mask_of(order, lo, hi, n);
        let train_mask = negate(&test_mask);
        let train = dataset.filter(&train_mask);
        let test = dataset.filter(&test_mask);
        r.push((train, test));
        i = i + 1;
    }
    r
}

} // verus!
