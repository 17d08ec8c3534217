use vstd::prelude::*;
use crate::error::ScorerError;
use crate::fdr::{FdrThreshold, fdr_labels, label_by_fdr};
use crate::ranking::{identity_order, range_seq};

verus! {

/// The elements of `s` at the positions where `mask` is true, in order.
pub open spec fn kept<T>(s: Seq<T>, mask: Seq<bool>) -> Seq<T>
    decreases mask.len(),
{
    if mask.len() == 0 {
        Seq::empty()
    } else {
        let front = kept(s, mask.drop_last());
        if mask.last() {
            front.push(s[mask.len() - 1])
        } else {
            front
        }
    }
}

/// The number of true entries of `mask`.
pub open spec fn count_true(mask: Seq<bool>) -> nat
    decreases mask.len(),
{
    if mask.len() == 0 {
        0
    } else {
        count_true(mask.drop_last()) + if mask.last() { 1nat } else { 0nat }
    }
}

/// The mask that drops the rows whose positions are listed in `indices`.
pub open spec fn removal_mask(indices: Seq<usize>, n: int) -> Seq<bool> {
    Seq::new(n as nat, |i: int| !indices.contains(i as usize))
}

/// The mask that keeps the labeled rows.
pub open spec fn labeled_mask(labels: Seq<i32>) -> Seq<bool> {
    Seq::new(labels.len(), |i: int| labels[i] != 0)
}

/// A target, before any relabeling, is a row labeled +1.
pub open spec fn targets_of(labels: Seq<i32>) -> Seq<bool> {
    Seq::new(labels.len(), |i: int| labels[i] == 1)
}

/// The feature columns as sequences of values.
pub open spec fn columns_view(features: Seq<Vec<i64>>) -> Seq<Seq<i64>> {
    Seq::new(features.len(), |c: int| features[c]@)
}

/// Every column has `n` values.
pub open spec fn columns_have_len(features: Seq<Vec<i64>>, n: int) -> bool {
    forall|c: int| 0 <= c < features.len() ==> #[trigger] features[c].len() == n
}

/// `r` holds the rows of `d` where `mask` is true, every field in step.
pub open spec fn filtered_from(r: Dataset, d: Dataset, mask: Seq<bool>) -> bool {
    &&& r.wf()
    &&& r.labels@ == kept(d.labels@, mask)
    &&& r.is_target@ == kept(d.is_target@, mask)
    &&& r.row_id@ == kept(d.row_id@, mask)
    &&& columns_view(r.features@) == columns_view(d.features@).map_values(|col: Seq<i64>| kept(col, mask))
}

/// A set of scored rows: feature columns, working labels, the target/decoy
/// flag each row was built with, and each row's position in the data it was
/// first built from.
#[derive(Clone, Debug)]
pub struct Dataset {
    /// One vector per feature, one value per row.
    pub features: Vec<Vec<i64>>,
    /// -1 decoy, 0 unlabeled, +1 believed target.
    pub labels: Vec<i32>,
    /// Whether the row was a target when the data was built.
    pub is_target: Vec<bool>,
    /// The row's position in the data the dataset was first built from.
    pub row_id: Vec<usize>,
}

impl Dataset {
    /// The fields agree on the number of rows.
    pub open spec fn wf(&self) -> bool {
        &&& self.is_target.len() == self.labels.len()
        &&& self.row_id.len() == self.labels.len()
        &&& columns_have_len(self.features@, self.labels.len() as int)
    }

    /// Builds a dataset from feature columns and target (+1) / decoy labels.
    pub fn new(features: Vec<Vec<i64>>, labels: Vec<i32>) -> (r: Result<Dataset, ScorerError>)
        ensures
            r is Ok <==> columns_have_len(features@, labels.len() as int),
            r is Err ==> r == Err::<Dataset, ScorerError>(ScorerError::DimensionMismatch),
            r matches Ok(d) ==> {
                &&& d.wf()
                &&& d.features@ == features@
                &&& d.labels@ == labels@
                &&& d.is_target@ == targets_of(labels@)
                &&& d.row_id@ == range_seq(labels.len() as int)
            },
    {
        let n = labels.len();
        let mut c: usize = 0;
        while c < features.len()
            invariant
                n == labels.len(),
                c <= features.len(),
                forall|q: int| 0 <= q < c ==> #[trigger] features@[q].len() == n,
            decreases features.len() - c,
        {
            if features[c].len() != n {
                assert(features@[c as int].len() != n);
                return Err(ScorerError::DimensionMismatch);
            }
            c = c + 1;
        }
        let mut is_target: Vec<bool> = Vec::with_capacity(n);
        let mut i: usize = 0;
        while i < n
            invariant
                n == labels.len(),
                i <= n,
                is_target@ == targets_of(labels@).take(i as int),
            decreases n - i,
        {
            is_target.push(labels[i] == 1);
            i = i + 1;
            assert(is_target@ =~= targets_of(labels@).take(i as int));
        }
        assert(is_target@ =~= targets_of(labels@));
        let row_id = identity_order(n);
        Ok(Dataset { features, labels, is_target, row_id })
    }

    /// The number of rows.
    pub fn n_rows(&self) -> (r: usize)
        ensures
            r == self.labels.len(),
    {
        self.labels.len()
    }

    /// The number of feature columns.
    pub fn n_features(&self) -> (r: usize)
        ensures
            r == self.features.len(),
    {
        self.features.len()
    }

    /// The values of feature `c`.
    pub fn column(&self, c: usize) -> (r: &Vec<i64>)
        requires
            c < self.features.len(),
        ensures
            r@ == self.features@[c as int]@,
    {
        &self.features[c]
    }

    /// Labels the rows by target-decoy competition on `scores`.
    pub fn update_labels(&self, scores: &Vec<i64>, fdr: FdrThreshold, descending: bool) -> (r: Vec<i32>)
        requires
            self.wf(),
            scores.len() == self.labels.len(),
        ensures
            r@ == fdr_labels(self.is_target@, scores@, descending, fdr),
    {
        label_by_fdr(&self.is_target, scores, fdr, descending)
    }

    /// The rows where `mask` is true, in their order; every field follows.
    pub fn filter(&self, mask: &Vec<bool>) -> (r: Dataset)
        requires
            self.wf(),
            mask.len() == self.labels.len(),
        ensures
            filtered_from(r, *self, mask@),
            r.labels.len() == count_true(mask@),
    {
        let labels = keep_where(&self.labels, mask);
        let is_target = keep_where(&self.is_target, mask);
        let row_id = keep_where(&self.row_id, mask);
        let mut features: Vec<Vec<i64>> = Vec::with_capacity(self.features.len());
        let mut c: usize = 0;
        while c < self.features.len()
            invariant
                self.wf(),
                mask.len() == self.labels.len(),
                c <= self.features.len(),
                features.len() == c,
                forall|q: int| 0 <= q < c ==> #[trigger] features@[q]@ == kept(self.features@[q]@, mask@),
            decreases self.features.len() - c,
        {
            let col = keep_where(&self.features[c], mask);
            features.push(col);
            c = c + 1;
        }
        proof {
            lemma_kept_len(self.labels@, mask@);
            lemma_kept_len(self.is_target@, mask@);
            lemma_kept_len(self.row_id@, mask@);
            assert forall|q: int| 0 <= q < features.len() implies #[trigger] features@[q].len() == labels.len() by {
                lemma_kept_len(self.features@[q]@, mask@);
            }
            assert(columns_view(features@) =~= columns_view(self.features@).map_values(|col: Seq<i64>| kept(col, mask@)));
        }
        Dataset { features, labels, is_target, row_id }
    }

    /// Drops the rows at the listed positions; positions past the end are ignored.
    pub fn remove_psms(&mut self, indices: &Vec<usize>)
        requires
            old(self).wf(),
        ensures
            filtered_from(*final(self), *old(self), removal_mask(indices@, old(self).labels.len() as int)),
            final(self).labels.len() == count_true(removal_mask(indices@, old(self).labels.len() as int)),
    {
        let n = self.labels.len();
        let mut mask: Vec<bool> = Vec::with_capacity(n);
        let mut i: usize = 0;
        while i < n
            invariant
                i <= n,
                mask@ == Seq::new(i as nat, |q: int| true),
            decreases n - i,
        {
            mask.push(true);
            i = i + 1;
            assert(mask@ =~= Seq::new(i as nat, |q: int| true));
        }
        let mut p: usize = 0;
        while p < indices.len()
            invariant
                p <= indices.len(),
                mask.len() == n,
                forall|q: int| 0 <= q < n ==> #[trigger] mask@[q] == !indices@.take(p as int).contains(q as usize),
            decreases indices.len() - p,
        {
            let idx = indices[p];
            if idx < n {
                mask.set(idx, false);
            }
            proof {
                assert forall|q: int| 0 <= q < n implies #[trigger] mask@[q] == !indices@.take(p + 1).contains(q as usize) by {
                    let t0 = indices@.take(p as int);
                    let t1 = indices@.take(p + 1);
                    assert(t1 =~= t0.push(idx));
                    if t1.contains(q as usize) {
                        let w = choose|w: int| 0 <= w < t1.len() && t1[w] == q as usize;
                        if w < p {
                            assert(t0[w] == q as usize);
                        }
                    }
                    if t0.contains(q as usize) {
                        let w = choose|w: int| 0 <= w < t0.len() && t0[w] == q as usize;
                        assert(t1[w] == q as usize);
                    }
                    if q == idx as int {
                        assert(t1[p as int] == idx);
                    }
                }
            }
            p = p + 1;
        }
        assert(indices@.take(indices.len() as int) =~= indices@);
        assert(mask@ =~= removal_mask(indices@, n as int));
        *self = self.filter(&mask);
    }
}

/// The number of values kept is the number of true entries of the mask.
pub proof fn lemma_kept_len<T>(s: Seq<T>, mask: Seq<bool>)
    ensures
        kept(s, mask).len() == count_true(mask),
    decreases mask.len(),
{
    if mask.len() > 0 {
        lemma_kept_len(s, mask.drop_last());
    }
}

/// What `kept` holds comes from `s`, and it repeats nothing that `s` does not.
pub proof fn lemma_kept_from(s: Seq<usize>, mask: Seq<bool>)
    requires
        mask.len() <= s.len(),
    ensures
        forall|x: usize| #[trigger] kept(s, mask).contains(x) ==> exists|p: int| 0 <= p < mask.len() && s[p] == x,
        s.no_duplicates() ==> kept(s, mask).no_duplicates(),
    decreases mask.len(),
{
    if mask.len() > 0 {
        let front = kept(s, mask.drop_last());
        lemma_kept_from(s, mask.drop_last());
        let last = s[mask.len() - 1];
        if mask.last() {
            assert forall|x: usize| #[trigger] kept(s, mask).contains(x) implies exists|p: int| 0 <= p < mask.len() && s[p] == x by {
                let w = choose|w: int| 0 <= w < kept(s, mask).len() && kept(s, mask)[w] == x;
                if w < front.len() {
                    assert(front[w] == x);
                    assert(front.contains(x));
                } else {
                    assert(s[mask.len() - 1] == x);
                }
            }
            if s.no_duplicates() {
                if front.contains(last) {
                    let p = choose|p: int| 0 <= p < mask.len() - 1 && s[p] == last;
                    assert(s[p] == s[mask.len() - 1]);
                }
                assert forall|a: int, b: int| 0 <= a < b < kept(s, mask).len() implies kept(s, mask)[a] != kept(s, mask)[b] by {
                    if b == front.len() {
                        assert(front.contains(front[a]));
                    }
                }
            }
        }
    }
}

/// The values of `v` at the positions where `mask` is true.
pub fn keep_where<T: Copy>(v: &Vec<T>, mask: &Vec<bool>) -> (r: Vec<T>)
    requires
        mask.len() == v.len(),
    ensures
        r@ == kept(v@, mask@),
{
    let mut r: Vec<T> = Vec::new();
    let mut i: usize = 0;
    while i < v.len()
        invariant
            mask.len() == v.len(),
            i <= v.len(),
            r@ == kept(v@, mask@.take(i as int)),
        decreases v.len() - i,
    {
        proof {
            assert(mask@.take(i + 1).drop_last() =~= mask@.take(i as int));
        }
        if mask[i] {
            r.push(v[i]);
        }
        i = i + 1;
    }
    assert(mask@.take(v.len() as int) =~= mask@);
    r
}

} // verus!
