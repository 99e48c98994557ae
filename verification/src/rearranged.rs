//! What does not depend on the order of the rows: where no two rows of a
//! bucket count as equal at the level, a branch has the same pivots, the same
//! claimed rows and the same free rows however its bucket is arranged.

use vstd::prelude::*;
use crate::Value;
use crate::branch::{
    Branch, claimed_rows, claimed_within, claims, free_rows, meets_entry, pivot_rank,
};
use crate::point::{Point, axis, equal_at, half_sum, is_midpoint_upper};
use crate::sort::{ascending, comes_after, holds_each_once, row_point};

verus! {

/// The rows that stand at the positions `list` of `bucket`, in the order of
/// `list`.
pub open spec fn rows_listed<P, V>(rows: Seq<&(P, V)>, bucket: Seq<usize>, list: Seq<usize>) -> Seq<
    &(P, V),
> {
    Seq::new(list.len(), |k: int| rows[bucket[list[k] as int] as int])
}

/// Whether no two rows of the bucket count as equal at `level`.
pub open spec fn rows_apart<P: Point, V>(rows: Seq<&(P, V)>, bucket: Seq<usize>, level: usize) -> bool {
    forall|i: int, j: int|
        0 <= i < bucket.len() && 0 <= j < bucket.len() && i != j ==> !equal_at(
            &#[trigger] row_point(rows, bucket, i),
            &#[trigger] row_point(rows, bucket, j),
            level,
        )
}

/// The rows that `bucket` names, in its order.
pub open spec fn rows_named<P, V>(rows: Seq<&(P, V)>, bucket: Seq<usize>) -> Seq<&(P, V)> {
    Seq::new(bucket.len(), |i: int| rows[bucket[i] as int])
}

/// Whether two buckets name the same rows: as many, and each row of one is a
/// row of the other.
pub open spec fn same_rows<P, V>(
    rows: Seq<&(P, V)>,
    bucket: Seq<usize>,
    other_rows: Seq<&(P, V)>,
    other_bucket: Seq<usize>,
) -> bool {
    &&& bucket.len() == other_bucket.len()
    &&& forall|i: int|
        0 <= i < bucket.len() ==> rows_named(other_rows, other_bucket).contains(
            #[trigger] rows_named(rows, bucket)[i],
        )
    &&& forall|j: int|
        0 <= j < other_bucket.len() ==> rows_named(rows, bucket).contains(
            #[trigger] rows_named(other_rows, other_bucket)[j],
        )
}

/// Two lists of the same length that rise by the same measure and hold the
/// same entries are the same list.
pub proof fn lemma_rising_same<T>(a: Seq<T>, b: Seq<T>, key: spec_fn(T) -> int)
    requires
        a.len() == b.len(),
        forall|i: int, j: int| 0 <= i < j < a.len() ==> key(a[i]) < key(a[j]),
        forall|i: int, j: int| 0 <= i < j < b.len() ==> key(b[i]) < key(b[j]),
        forall|i: int| 0 <= i < a.len() ==> b.contains(#[trigger] a[i]),
        forall|i: int| 0 <= i < b.len() ==> a.contains(#[trigger] b[i]),
    ensures
        a == b,
    decreases a.len(),
{
    let n = a.len() as int;
    if n > 0 {
        assert(b.contains(a[n - 1]));
        let j = choose|j: int| 0 <= j < n && b[j] == a[n - 1];
        assert(a.contains(b[n - 1]));
        let i = choose|i: int| 0 <= i < n && a[i] == b[n - 1];
        if j < n - 1 {
            assert(key(b[j]) < key(b[n - 1]));
            if i < n - 1 {
                assert(key(a[i]) < key(a[n - 1]));
            }
        }
        assert(a[n - 1] == b[n - 1]);
        let front = a.drop_last();
        let other = b.drop_last();
        assert forall|p: int| 0 <= p < front.len() implies other.contains(#[trigger] front[p]) by {
            assert(b.contains(a[p]));
            let q = choose|q: int| 0 <= q < n && b[q] == a[p];
            if q == n - 1 {
                assert(key(a[p]) < key(a[n - 1]));
            }
            assert(other[q] == front[p]);
        }
        assert forall|q: int| 0 <= q < other.len() implies front.contains(#[trigger] other[q]) by {
            assert(a.contains(b[q]));
            let p = choose|p: int| 0 <= p < n && a[p] == b[q];
            if p == n - 1 {
                assert(key(b[q]) < key(b[n - 1]));
            }
            assert(front[p] == other[q]);
        }
        assert forall|p: int, q: int| 0 <= p < q < front.len() implies key(front[p]) < key(
            front[q],
        ) by {
            assert(key(a[p]) < key(a[q]));
        }
        assert forall|p: int, q: int| 0 <= p < q < other.len() implies key(other[p]) < key(
            other[q],
        ) by {
            assert(key(b[p]) < key(b[q]));
        }
        lemma_rising_same(front, other, key);
        assert(a =~= front.push(a[n - 1]));
        assert(b =~= other.push(b[n - 1]));
    } else {
        assert(a =~= b);
    }
}

/// Where no two rows count as equal, the sorted rows rise by their lower
/// ends.
pub proof fn lemma_sorted_rises<P: Point, V>(
    rows: Seq<&(P, V)>,
    bucket: Seq<usize>,
    level: usize,
    sorted: Seq<usize>,
    i: int,
    j: int,
)
    requires
        holds_each_once(sorted, 0, bucket.len() as int),
        ascending(rows, bucket, level, sorted),
        rows_apart(rows, bucket, level),
        0 <= i < j < sorted.len(),
    ensures
        row_point(rows, bucket, sorted[i] as int).lo(axis::<P>(level)) < row_point(
            rows,
            bucket,
            sorted[j] as int,
        ).lo(axis::<P>(level)),
    decreases j - i,
{
    if i + 1 < j {
        lemma_sorted_rises(rows, bucket, level, sorted, i, j - 1);
    }
    let p = sorted[j - 1];
    let q = sorted[j];
    assert(p != q);
    assert(!comes_after(rows, bucket, level, sorted[j - 1], sorted[j - 1 + 1]));
    assert(!equal_at(
        &row_point(rows, bucket, p as int),
        &row_point(rows, bucket, q as int),
        level,
    ));
}

/// Whether the point of `row` counts as equal to the pivot that entry `u` of
/// `order` names.
pub open spec fn meets_pivot<P: Point, V>(
    level: usize,
    pivots: Seq<P>,
    order: Seq<usize>,
    u: int,
    row: &(P, V),
) -> bool {
    equal_at(&row.0, &pivots[order[u] as int], level)
}

/// Whether one of the first `t` entries of `order` names a pivot that the
/// point of `row` counts as equal to.
pub open spec fn row_claimed_within<P: Point, V>(
    level: usize,
    pivots: Seq<P>,
    order: Seq<usize>,
    t: int,
    row: &(P, V),
) -> bool {
    exists|u: int| 0 <= u < t && #[trigger] meets_pivot(level, pivots, order, u, row)
}

/// The rows of `list` that entry `t` of `order` claims, in the order of
/// `list`.
pub open spec fn rows_claimed<P: Point, V>(
    level: usize,
    pivots: Seq<P>,
    order: Seq<usize>,
    t: int,
    list: Seq<&(P, V)>,
) -> Seq<&(P, V)>
    decreases list.len(),
{
    if list.len() == 0 {
        Seq::empty()
    } else if meets_pivot(level, pivots, order, t, list.last()) && !row_claimed_within(
        level,
        pivots,
        order,
        t,
        list.last(),
    ) {
        rows_claimed(level, pivots, order, t, list.drop_last()).push(list.last())
    } else {
        rows_claimed(level, pivots, order, t, list.drop_last())
    }
}

/// The rows of `list` that none of the `n` entries of `order` claims, in the
/// order of `list`.
pub open spec fn rows_free<P: Point, V>(
    level: usize,
    pivots: Seq<P>,
    order: Seq<usize>,
    n: int,
    list: Seq<&(P, V)>,
) -> Seq<&(P, V)>
    decreases list.len(),
{
    if list.len() == 0 {
        Seq::empty()
    } else if !row_claimed_within(level, pivots, order, n, list.last()) {
        rows_free(level, pivots, order, n, list.drop_last()).push(list.last())
    } else {
        rows_free(level, pivots, order, n, list.drop_last())
    }
}

/// Whether a row is claimed is a matter of its point alone.
pub proof fn lemma_claimed_by_point<P: Point, V>(
    rows: Seq<&(P, V)>,
    bucket: Seq<usize>,
    level: usize,
    pivots: Seq<P>,
    order: Seq<usize>,
    t: int,
    j: usize,
)
    ensures
        claimed_within(rows, bucket, level, pivots, order, t, j) == row_claimed_within(
            level,
            pivots,
            order,
            t,
            rows[bucket[j as int] as int],
        ),
{
    let row = rows[bucket[j as int] as int];
    if claimed_within(rows, bucket, level, pivots, order, t, j) {
        let u = choose|u: int|
            0 <= u < t && #[trigger] meets_entry(rows, bucket, level, pivots, order, u, j);
        assert(meets_pivot(level, pivots, order, u, row));
    }
    if row_claimed_within(level, pivots, order, t, row) {
        let u = choose|u: int| 0 <= u < t && #[trigger] meets_pivot(level, pivots, order, u, row);
        assert(meets_entry(rows, bucket, level, pivots, order, u, j));
    }
}

/// The rows at the positions that an entry of `order` claims are the rows
/// that it claims among the rows at all the positions.
pub proof fn lemma_claimed_listed<P: Point, V>(
    rows: Seq<&(P, V)>,
    bucket: Seq<usize>,
    level: usize,
    pivots: Seq<P>,
    order: Seq<usize>,
    t: int,
    list: Seq<usize>,
)
    ensures
        rows_listed(rows, bucket, claimed_rows(rows, bucket, level, pivots, order, t, list))
            == rows_claimed(level, pivots, order, t, rows_listed(rows, bucket, list)),
    decreases list.len(),
{
    let named = rows_listed(rows, bucket, list);
    let claimed = claimed_rows(rows, bucket, level, pivots, order, t, list);
    if list.len() == 0 {
        assert(rows_listed(rows, bucket, claimed) =~= Seq::<&(P, V)>::empty());
    } else {
        let front = list.drop_last();
        lemma_claimed_listed(rows, bucket, level, pivots, order, t, front);
        lemma_claimed_by_point(rows, bucket, level, pivots, order, t, list.last());
        assert(named.drop_last() =~= rows_listed(rows, bucket, front));
        assert(named.last() == rows[bucket[list.last() as int] as int]);
        let before = claimed_rows(rows, bucket, level, pivots, order, t, front);
        if claims(rows, bucket, level, pivots, order, t, list.last()) {
            assert(rows_listed(rows, bucket, before.push(list.last())) =~= rows_listed(
                rows,
                bucket,
                before,
            ).push(named.last()));
        }
    }
}

/// The rows at the free positions are the free rows among the rows at all the
/// positions.
pub proof fn lemma_free_listed<P: Point, V>(
    rows: Seq<&(P, V)>,
    bucket: Seq<usize>,
    level: usize,
    pivots: Seq<P>,
    order: Seq<usize>,
    matched: Seq<bool>,
    list: Seq<usize>,
)
    requires
        forall|j: usize|
            j < bucket.len() ==> matched[j as int] == claimed_within(
                rows,
                bucket,
                level,
                pivots,
                order,
                order.len() as int,
                j,
            ),
        forall|k: int| 0 <= k < list.len() ==> (#[trigger] list[k]) < bucket.len(),
    ensures
        rows_listed(rows, bucket, free_rows(matched, list)) == rows_free(
            level,
            pivots,
            order,
            order.len() as int,
            rows_listed(rows, bucket, list),
        ),
    decreases list.len(),
{
    let named = rows_listed(rows, bucket, list);
    let free = free_rows(matched, list);
    if list.len() == 0 {
        assert(rows_listed(rows, bucket, free) =~= Seq::<&(P, V)>::empty());
    } else {
        let front = list.drop_last();
        assert forall|k: int| 0 <= k < front.len() implies (#[trigger] front[k]) < bucket.len() by {
            assert(front[k] == list[k]);
        }
        lemma_free_listed(rows, bucket, level, pivots, order, matched, front);
        assert(list.last() == list[list.len() - 1]);
        lemma_claimed_by_point(
            rows,
            bucket,
            level,
            pivots,
            order,
            order.len() as int,
            list.last(),
        );
        assert(named.drop_last() =~= rows_listed(rows, bucket, front));
        assert(named.last() == rows[bucket[list.last() as int] as int]);
        let before = free_rows(matched, front);
        if !matched[list.last() as int] {
            assert(rows_listed(rows, bucket, before.push(list.last())) =~= rows_listed(
                rows,
                bucket,
                before,
            ).push(named.last()));
        }
    }
}

impl<'a, P, V> Branch<'a, P, V> where P: Point, V: Value {
    /// The rows of the bucket in sorted order.
    pub open spec fn sorted_rows(&self) -> Seq<&(P, V)> {
        rows_listed(self.rows@, self.bucket@, self.sorted@)
    }

    /// Where no two rows of the bucket count as equal at the level, the order
    /// of the rows is free: two branches of one level and order whose buckets
    /// name the same rows, however arranged, have their rows in the same
    /// sorted order, the same pivots, for each pivot the same claimed rows,
    /// and the same free rows.
    pub proof fn lemma_order_is_free(&self, other: &Self)
        requires
            self.wf(),
            other.wf(),
            self.level == other.level,
            self.order@ == other.order@,
            same_rows(self.rows@, self.bucket@, other.rows@, other.bucket@),
            rows_apart(self.rows@, self.bucket@, self.level),
            rows_apart(other.rows@, other.bucket@, other.level),
        ensures
            self.sorted_rows() == other.sorted_rows(),
            self.pivots@ == other.pivots@,
            forall|t: int|
                0 <= t < self.order@.len() ==> rows_listed(
                    self.rows@,
                    self.bucket@,
                    (#[trigger] self.intersecting@[self.order@[t] as int])@,
                ) == rows_listed(
                    other.rows@,
                    other.bucket@,
                    other.intersecting@[other.order@[t] as int]@,
                ),
            rows_listed(self.rows@, self.bucket@, self.free()) == rows_listed(
                other.rows@,
                other.bucket@,
                other.free(),
            ),
    {
        let n = self.order@.len();
        let len = self.bucket@.len();
        let level = self.level;
        let a = self.sorted_rows();
        let b = other.sorted_rows();
        let key = |row: &(P, V)| row.0.lo(axis::<P>(level));
        self.lemma_sorted();
        other.lemma_sorted();
        assert(self.bucket@.len() == self.bucket.len());
        assert(other.bucket@.len() == other.bucket.len());
        assert forall|i: int, j: int| 0 <= i < j < a.len() implies key(a[i]) < key(a[j]) by {
            lemma_sorted_rises(self.rows@, self.bucket@, level, self.sorted@, i, j);
        }
        assert forall|i: int, j: int| 0 <= i < j < b.len() implies key(b[i]) < key(b[j]) by {
            lemma_sorted_rises(other.rows@, other.bucket@, level, other.sorted@, i, j);
        }
        assert forall|i: int| 0 <= i < a.len() implies b.contains(#[trigger] a[i]) by {
            let p = self.sorted@[i];
            let mine = rows_named(self.rows@, self.bucket@);
            let theirs = rows_named(other.rows@, other.bucket@);
            assert(theirs.contains(mine[p as int]));
            let q = choose|q: int| 0 <= q < theirs.len() && theirs[q] == mine[p as int];
            assert(other.sorted@.contains(q as usize));
            let k = choose|k: int| 0 <= k < other.sorted@.len() && other.sorted@[k] == q as usize;
            assert(b[k] == theirs[q]);
            assert(a[i] == mine[p as int]);
        }
        assert forall|i: int| 0 <= i < b.len() implies a.contains(#[trigger] b[i]) by {
            let p = other.sorted@[i];
            let mine = rows_named(self.rows@, self.bucket@);
            let theirs = rows_named(other.rows@, other.bucket@);
            assert(mine.contains(theirs[p as int]));
            let q = choose|q: int| 0 <= q < mine.len() && mine[q] == theirs[p as int];
            assert(self.sorted@.contains(q as usize));
            let k = choose|k: int| 0 <= k < self.sorted@.len() && self.sorted@[k] == q as usize;
            assert(a[k] == mine[q]);
            assert(b[i] == theirs[p as int]);
        }
        lemma_rising_same(a, b, key);
        assert forall|k: int| 0 <= k < n implies self.pivots@[k] == other.pivots@[k] by {
            let rank = pivot_rank(k, len as int, n as int);
            assert((k + 2) * (len as int) / (n as int + 1) >= 0) by (nonlinear_arith)
                requires
                    k >= 0,
                    len >= 0,
                    n >= 0,
            ;
            assert(0 <= rank <= len - 2);
            let below = row_point(self.rows@, self.bucket@, self.sorted@[rank] as int);
            let above = row_point(self.rows@, self.bucket@, self.sorted@[rank + 1] as int);
            assert(a[rank] == b[rank] && a[rank + 1] == b[rank + 1]);
            assert(below == row_point(other.rows@, other.bucket@, other.sorted@[rank] as int));
            assert(above == row_point(
                other.rows@,
                other.bucket@,
                other.sorted@[rank + 1] as int,
            ));
            let x = self.pivots@[k];
            let y = other.pivots@[k];
            assert(is_midpoint_upper(&x, &below, &above));
            assert(is_midpoint_upper(&y, &below, &above));
            assert forall|d: int| 0 <= d < P::arity() implies x.lo(d) == y.lo(d) && x.hi(d)
                == y.hi(d) by {
                assert(x.lo(d) == half_sum(below.hi(d), above.hi(d)));
                assert(y.lo(d) == half_sum(below.hi(d), above.hi(d)));
            }
            P::lemma_extents_decide(x, y);
        }
        assert(self.pivots@ =~= other.pivots@);
        assert forall|t: int| 0 <= t < n implies rows_listed(
            self.rows@,
            self.bucket@,
            (#[trigger] self.intersecting@[self.order@[t] as int])@,
        ) == rows_listed(
            other.rows@,
            other.bucket@,
            other.intersecting@[other.order@[t] as int]@,
        ) by {
            lemma_claimed_listed(
                self.rows@,
                self.bucket@,
                level,
                self.pivots@,
                self.order@,
                t,
                self.sorted@,
            );
            lemma_claimed_listed(
                other.rows@,
                other.bucket@,
                level,
                other.pivots@,
                other.order@,
                t,
                other.sorted@,
            );
            assert(other.intersecting@[other.order@[t] as int]@ == claimed_rows(
                other.rows@,
                other.bucket@,
                level,
                other.pivots@,
                other.order@,
                t,
                other.sorted@,
            ));
        }
        lemma_free_listed(
            self.rows@,
            self.bucket@,
            level,
            self.pivots@,
            self.order@,
            self.matched@,
            self.sorted@,
        );
        lemma_free_listed(
            other.rows@,
            other.bucket@,
            level,
            other.pivots@,
            other.order@,
            other.matched@,
            other.sorted@,
        );
    }
}

} // verus!
