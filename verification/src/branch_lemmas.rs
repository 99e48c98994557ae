//! What holds of every branch: each row of its bucket has one place in it,
//! and the branch is fixed by what it was made of.

use vstd::prelude::*;
use crate::Value;
use crate::branch::{
    Branch, Bytes, before_bound, child_rows, claimed_rows, claimed_within, claims, fanout,
    free_rows, lemma_advance_bounds, lists_bytes, meets_entry, pivot_rank, slot_of,
};
use crate::point::Point;
use crate::sort::{ascending, holds_each_once, lemma_sorted_range, row_point};

verus! {

/// How often `j` occurs in `list`.
pub open spec fn count_in(list: Seq<usize>, j: usize) -> nat
    decreases list.len(),
{
    if list.len() == 0 {
        0
    } else if list.last() == j {
        count_in(list.drop_last(), j) + 1
    } else {
        count_in(list.drop_last(), j)
    }
}

/// How often `j` occurs in all of `lists` together.
pub open spec fn count_in_lists(lists: Seq<Vec<usize>>, j: usize) -> nat
    decreases lists.len(),
{
    if lists.len() == 0 {
        0
    } else {
        count_in_lists(lists.drop_last(), j) + count_in(lists.last()@, j)
    }
}

/// A list that does not hold `j` counts it zero times; one that holds it and
/// repeats nothing counts it once.
pub proof fn lemma_count_in(list: Seq<usize>, j: usize)
    ensures
        !list.contains(j) ==> count_in(list, j) == 0,
        list.contains(j) && list.no_duplicates() ==> count_in(list, j) == 1,
    decreases list.len(),
{
    if list.len() > 0 {
        let rest = list.drop_last();
        lemma_count_in(rest, j);
        if !list.contains(j) {
            if rest.contains(j) {
                let i = choose|i: int| 0 <= i < rest.len() && rest[i] == j;
                assert(list[i] == j);
            }
            assert(list[list.len() - 1] != j);
        }
        if list.contains(j) && list.no_duplicates() {
            let i = choose|i: int| 0 <= i < list.len() && list[i] == j;
            assert forall|a: int, b: int|
                0 <= a < rest.len() && 0 <= b < rest.len() && a != b implies rest[a]
                != rest[b] by {
                assert(rest[a] == list[a] && rest[b] == list[b]);
            }
            if list.last() == j {
                if rest.contains(j) {
                    let k = choose|k: int| 0 <= k < rest.len() && rest[k] == j;
                    assert(list[k] == list[list.len() - 1]);
                }
            } else {
                assert(rest[i] == j);
            }
        }
    }
}

/// Where one list counts `j` once and all others do not hold it, the lists
/// together count it once; where none holds it, they count it zero times.
pub proof fn lemma_count_in_lists(lists: Seq<Vec<usize>>, j: usize)
    ensures
        (forall|i: int| 0 <= i < lists.len() ==> !(#[trigger] lists[i])@.contains(j))
            ==> count_in_lists(lists, j) == 0,
        forall|at: int|
            0 <= at < lists.len() && count_in(lists[at]@, j) == 1 && (forall|i: int|
                0 <= i < lists.len() && i != at ==> !(#[trigger] lists[i])@.contains(j))
                ==> count_in_lists(lists, j) == 1,
    decreases lists.len(),
{
    if lists.len() > 0 {
        let rest = lists.drop_last();
        lemma_count_in_lists(rest, j);
        lemma_count_in(lists.last()@, j);
        if forall|i: int| 0 <= i < lists.len() ==> !(#[trigger] lists[i])@.contains(j) {
            assert forall|i: int| 0 <= i < rest.len() implies !(#[trigger] rest[i])@.contains(
                j,
            ) by {
                assert(rest[i] == lists[i]);
            }
            assert(!lists[lists.len() - 1]@.contains(j));
        }
        assert forall|at: int|
            0 <= at < lists.len() && count_in(lists[at]@, j) == 1 && (forall|i: int|
                0 <= i < lists.len() && i != at ==> !(#[trigger] lists[i])@.contains(
                    j,
                )) implies count_in_lists(
            lists,
            j,
        ) == 1 by {
            if at == lists.len() - 1 {
                assert forall|i: int| 0 <= i < rest.len() implies !(#[trigger] rest[i])@.contains(
                    j,
                ) by {
                    assert(rest[i] == lists[i]);
                }
            } else {
                assert(rest[at] == lists[at]);
                assert forall|i: int| 0 <= i < rest.len() && i != at implies !(
                #[trigger] rest[i])@.contains(j) by {
                    assert(rest[i] == lists[i]);
                }
                assert(!lists[lists.len() - 1]@.contains(j));
            }
        }
    }
}

/// Among the rows of a list that repeats nothing, an entry of `order` claims
/// each row that it claims once, and these rows are its claimed rows.
pub proof fn lemma_claimed_rows_exact<P: Point, V>(
    rows: Seq<&(P, V)>,
    bucket: Seq<usize>,
    level: usize,
    pivots: Seq<P>,
    order: Seq<usize>,
    t: int,
    list: Seq<usize>,
)
    requires
        list.no_duplicates(),
    ensures
        claimed_rows(rows, bucket, level, pivots, order, t, list).no_duplicates(),
        forall|j: usize|
            #[trigger] claimed_rows(rows, bucket, level, pivots, order, t, list).contains(j) <==> (
            list.contains(j) && claims(rows, bucket, level, pivots, order, t, j)),
    decreases list.len(),
{
    let all = claimed_rows(rows, bucket, level, pivots, order, t, list);
    if list.len() > 0 {
        let front = list.drop_last();
        let rest = claimed_rows(rows, bucket, level, pivots, order, t, front);
        assert forall|a: int, b: int|
            0 <= a < front.len() && 0 <= b < front.len() && a != b implies front[a]
            != front[b] by {
            assert(front[a] == list[a] && front[b] == list[b]);
        }
        lemma_claimed_rows_exact(rows, bucket, level, pivots, order, t, front);
        assert forall|j: usize| #[trigger] all.contains(j) <==> (list.contains(j) && claims(
            rows,
            bucket,
            level,
            pivots,
            order,
            t,
            j,
        )) by {
            if all.contains(j) {
                let k = choose|k: int| 0 <= k < all.len() && all[k] == j;
                if k < rest.len() {
                    assert(rest[k] == j);
                    assert(rest.contains(j));
                    let i = choose|i: int| 0 <= i < front.len() && front[i] == j;
                    assert(list[i] == j);
                } else {
                    assert(list[list.len() - 1] == j);
                }
            }
            if list.contains(j) && claims(rows, bucket, level, pivots, order, t, j) {
                let i = choose|i: int| 0 <= i < list.len() && list[i] == j;
                if i < front.len() {
                    assert(front[i] == j);
                    assert(rest.contains(j));
                    let k = choose|k: int| 0 <= k < rest.len() && rest[k] == j;
                    assert(all[k] == j);
                } else {
                    assert(all[all.len() - 1] == j);
                }
            }
        }
        assert forall|a: int, b: int|
            0 <= a < all.len() && 0 <= b < all.len() && a != b implies all[a]
            != all[b] by {
            if a < rest.len() && b < rest.len() {
                assert(all[a] == rest[a] && all[b] == rest[b]);
            } else {
                let inner = if a < rest.len() { a } else { b };
                assert(all[inner] == rest[inner]);
                assert(rest.contains(rest[inner]));
                let i = choose|i: int| 0 <= i < front.len() && front[i] == rest[inner];
                assert(list[i] != list[list.len() - 1]);
            }
        }
    }
}

/// Among the rows of a list that repeats nothing, the free rows are those
/// that no pivot claimed, each once.
pub proof fn lemma_free_rows_exact(matched: Seq<bool>, list: Seq<usize>)
    requires
        list.no_duplicates(),
    ensures
        free_rows(matched, list).no_duplicates(),
        forall|j: usize|
            #[trigger] free_rows(matched, list).contains(j) <==> (list.contains(j)
                && !matched[j as int]),
    decreases list.len(),
{
    let all = free_rows(matched, list);
    if list.len() > 0 {
        let front = list.drop_last();
        let rest = free_rows(matched, front);
        assert forall|a: int, b: int|
            0 <= a < front.len() && 0 <= b < front.len() && a != b implies front[a]
            != front[b] by {
            assert(front[a] == list[a] && front[b] == list[b]);
        }
        lemma_free_rows_exact(matched, front);
        assert forall|j: usize| #[trigger] all.contains(j) <==> (list.contains(j)
            && !matched[j as int]) by {
            if all.contains(j) {
                let k = choose|k: int| 0 <= k < all.len() && all[k] == j;
                if k < rest.len() {
                    assert(rest[k] == j);
                    assert(rest.contains(j));
                    let i = choose|i: int| 0 <= i < front.len() && front[i] == j;
                    assert(list[i] == j);
                } else {
                    assert(list[list.len() - 1] == j);
                }
            }
            if list.contains(j) && !matched[j as int] {
                let i = choose|i: int| 0 <= i < list.len() && list[i] == j;
                if i < front.len() {
                    assert(front[i] == j);
                    assert(rest.contains(j));
                    let k = choose|k: int| 0 <= k < rest.len() && rest[k] == j;
                    assert(all[k] == j);
                } else {
                    assert(all[all.len() - 1] == j);
                }
            }
        }
        assert forall|a: int, b: int|
            0 <= a < all.len() && 0 <= b < all.len() && a != b implies all[a]
            != all[b] by {
            if a < rest.len() && b < rest.len() {
                assert(all[a] == rest[a] && all[b] == rest[b]);
            } else {
                let inner = if a < rest.len() { a } else { b };
                assert(all[inner] == rest[inner]);
                assert(rest.contains(rest[inner]));
                let i = choose|i: int| 0 <= i < front.len() && front[i] == rest[inner];
                assert(list[i] != list[list.len() - 1]);
            }
        }
    }
}

/// The child that takes the row at position `k` of the rows dealt out.
pub open spec fn slot_at<P: Point, V>(
    rows: Seq<&(P, V)>,
    bucket: Seq<usize>,
    level: usize,
    pivots: Seq<P>,
    order: Seq<usize>,
    free: Seq<usize>,
    k: int,
) -> int {
    slot_of(rows, bucket, level, pivots, order, free.take(k + 1))
}

/// The children take the rows dealt out in turn: a row goes to a child that
/// is filled, no row goes to an earlier child than the row before it, and a
/// child holds exactly the rows that went to it, each once where the rows
/// repeat nothing.
pub proof fn lemma_child_rows_exact<P: Point, V>(
    rows: Seq<&(P, V)>,
    bucket: Seq<usize>,
    level: usize,
    pivots: Seq<P>,
    order: Seq<usize>,
    free: Seq<usize>,
    c: int,
)
    requires
        order.len() >= 1,
        free.no_duplicates(),
    ensures
        0 <= slot_of(rows, bucket, level, pivots, order, free) <= fanout(order.len() as int) - 1,
        child_rows(rows, bucket, level, pivots, order, free, c).no_duplicates(),
        forall|j: usize|
            #[trigger] child_rows(rows, bucket, level, pivots, order, free, c).contains(j)
                <==> exists|k: int|
                0 <= k < free.len() && free[k] == j && #[trigger] slot_at(
                    rows,
                    bucket,
                    level,
                    pivots,
                    order,
                    free,
                    k,
                ) == c,
    decreases free.len(),
{
    let all = child_rows(rows, bucket, level, pivots, order, free, c);
    if free.len() > 0 {
        let front = free.drop_last();
        let rest = child_rows(rows, bucket, level, pivots, order, front, c);
        assert forall|a: int, b: int|
            0 <= a < front.len() && 0 <= b < front.len() && a != b implies front[a]
            != front[b] by {
            assert(front[a] == free[a] && front[b] == free[b]);
        }
        lemma_child_rows_exact(rows, bucket, level, pivots, order, front, c);
        lemma_advance_bounds(
            rows,
            bucket,
            level,
            pivots,
            order,
            slot_of(rows, bucket, level, pivots, order, front),
            free.last(),
        );
        assert(free.take(free.len() as int) =~= free);
        assert forall|k: int| 0 <= k < front.len() implies slot_at(
            rows,
            bucket,
            level,
            pivots,
            order,
            front,
            k,
        ) == slot_at(rows, bucket, level, pivots, order, free, k) by {
            assert(front.take(k + 1) =~= free.take(k + 1));
        }
        assert forall|j: usize| #[trigger] all.contains(j) <==> exists|k: int|
            0 <= k < free.len() && free[k] == j && #[trigger] slot_at(
                rows,
                bucket,
                level,
                pivots,
                order,
                free,
                k,
            ) == c by {
            if all.contains(j) {
                let i = choose|i: int| 0 <= i < all.len() && all[i] == j;
                if i < rest.len() {
                    assert(rest[i] == j);
                    assert(rest.contains(j));
                    let k = choose|k: int|
                        0 <= k < front.len() && front[k] == j && #[trigger] slot_at(
                            rows,
                            bucket,
                            level,
                            pivots,
                            order,
                            front,
                            k,
                        ) == c;
                    assert(free[k] == j && slot_at(rows, bucket, level, pivots, order, free, k)
                        == c);
                } else {
                    let k = free.len() - 1;
                    assert(free[k] == j && slot_at(rows, bucket, level, pivots, order, free, k)
                        == c);
                }
            }
            if exists|k: int|
                0 <= k < free.len() && free[k] == j && #[trigger] slot_at(
                    rows,
                    bucket,
                    level,
                    pivots,
                    order,
                    free,
                    k,
                ) == c {
                let k = choose|k: int|
                    0 <= k < free.len() && free[k] == j && #[trigger] slot_at(
                        rows,
                        bucket,
                        level,
                        pivots,
                        order,
                        free,
                        k,
                    ) == c;
                if k < front.len() {
                    assert(front[k] == j && slot_at(rows, bucket, level, pivots, order, front, k)
                        == c);
                    assert(rest.contains(j));
                    let i = choose|i: int| 0 <= i < rest.len() && rest[i] == j;
                    assert(all[i] == j);
                } else {
                    assert(all[all.len() - 1] == j);
                }
            }
        }
        assert forall|a: int, b: int|
            0 <= a < all.len() && 0 <= b < all.len() && a != b implies all[a]
            != all[b] by {
            if a < rest.len() && b < rest.len() {
                assert(all[a] == rest[a] && all[b] == rest[b]);
            } else {
                let inner = if a < rest.len() { a } else { b };
                assert(all[inner] == rest[inner]);
                assert(rest.contains(rest[inner]));
                let k = choose|k: int|
                    0 <= k < front.len() && front[k] == rest[inner] && #[trigger] slot_at(
                        rows,
                        bucket,
                        level,
                        pivots,
                        order,
                        front,
                        k,
                    ) == c;
                assert(free[k] != free[free.len() - 1]);
            }
        }
    }
}

/// A row that one of the first `t` entries of `order` meets is claimed by one
/// of them: the first that meets it.
pub proof fn lemma_first_claim<P: Point, V>(
    rows: Seq<&(P, V)>,
    bucket: Seq<usize>,
    level: usize,
    pivots: Seq<P>,
    order: Seq<usize>,
    t: int,
    j: usize,
)
    requires
        claimed_within(rows, bucket, level, pivots, order, t, j),
    ensures
        exists|u: int| 0 <= u < t && #[trigger] claims(rows, bucket, level, pivots, order, u, j),
    decreases t,
{
    let w = choose|u: int|
        0 <= u < t && #[trigger] meets_entry(rows, bucket, level, pivots, order, u, j);
    if claimed_within(rows, bucket, level, pivots, order, t - 1, j) {
        lemma_first_claim(rows, bucket, level, pivots, order, t - 1, j);
        let u = choose|u: int|
            0 <= u < t - 1 && #[trigger] claims(rows, bucket, level, pivots, order, u, j);
        assert(claims(rows, bucket, level, pivots, order, u, j));
    } else {
        assert(w == t - 1);
        assert(claims(rows, bucket, level, pivots, order, t - 1, j));
    }
}

/// The rows dealt out go to children that are filled.
pub proof fn lemma_slot_bounds<P: Point, V>(
    rows: Seq<&(P, V)>,
    bucket: Seq<usize>,
    level: usize,
    pivots: Seq<P>,
    order: Seq<usize>,
    free: Seq<usize>,
)
    requires
        order.len() >= 1,
    ensures
        0 <= slot_of(rows, bucket, level, pivots, order, free) <= fanout(order.len() as int) - 1,
    decreases free.len(),
{
    if free.len() > 0 {
        lemma_slot_bounds(rows, bucket, level, pivots, order, free.drop_last());
        lemma_advance_bounds(
            rows,
            bucket,
            level,
            pivots,
            order,
            slot_of(rows, bucket, level, pivots, order, free.drop_last()),
            free.last(),
        );
    }
}

/// Lists that hold the same positions have the same bytes.
pub proof fn lemma_lists_bytes_same<P: Point, V: Value>(
    rows: Seq<&(P, V)>,
    bucket: Seq<usize>,
    a: Seq<Vec<usize>>,
    b: Seq<Vec<usize>>,
)
    requires
        a.len() == b.len(),
        forall|i: int| 0 <= i < a.len() ==> (#[trigger] a[i])@ == b[i]@,
    ensures
        lists_bytes(rows, bucket, a) == lists_bytes(rows, bucket, b),
    decreases a.len(),
{
    if a.len() > 0 {
        assert(a.last()@ == b.last()@) by {
            assert(a[a.len() - 1]@ == b[a.len() - 1]@);
        }
        assert forall|i: int| 0 <= i < a.drop_last().len() implies (#[trigger] a.drop_last()[i])@
            == b.drop_last()[i]@ by {
            assert(a[i]@ == b[i]@);
        }
        lemma_lists_bytes_same(rows, bucket, a.drop_last(), b.drop_last());
    }
}

impl<'a, P, V> Branch<'a, P, V> where P: Point, V: Value {
    /// The list of the pivot that entry `u` of `order` names repeats no row
    /// and holds the row at position `j` exactly where the entry claims it.
    pub proof fn lemma_claimed_list(&self, u: int, j: usize)
        requires
            self.wf(),
            0 <= u < self.order@.len(),
        ensures
            self.intersecting@[self.order@[u] as int]@.no_duplicates(),
            self.intersecting@[self.order@[u] as int]@.contains(j) <==> j < self.bucket@.len()
                && claims(
                self.rows@,
                self.bucket@,
                self.level,
                self.pivots@,
                self.order@,
                u,
                j,
            ),
    {
        assert(self.bucket@.len() == self.bucket.len());
        lemma_sorted_range(self.rows@, self.bucket@, self.level, 0, self.bucket@.len() as int);
        lemma_claimed_rows_exact(
            self.rows@,
            self.bucket@,
            self.level,
            self.pivots@,
            self.order@,
            u,
            self.sorted@,
        );
        let list = claimed_rows(
            self.rows@,
            self.bucket@,
            self.level,
            self.pivots@,
            self.order@,
            u,
            self.sorted@,
        );
        assert(self.intersecting@[self.order@[u] as int]@ == list);
        assert(list.contains(j) <==> (self.sorted@.contains(j) && claims(
            self.rows@,
            self.bucket@,
            self.level,
            self.pivots@,
            self.order@,
            u,
            j,
        )));
        if self.sorted@.contains(j) {
            let i = choose|i: int| 0 <= i < self.sorted@.len() && self.sorted@[i] == j;
            assert(self.sorted@[i] < self.bucket@.len());
        }
    }

    /// The sorted order of a branch holds every position of the bucket once,
    /// and no row in it comes after its successor.
    pub proof fn lemma_sorted(&self)
        requires
            self.wf(),
        ensures
            holds_each_once(self.sorted@, 0, self.bucket@.len() as int),
            ascending(self.rows@, self.bucket@, self.level, self.sorted@),
    {
        assert(self.bucket@.len() == self.bucket.len());
        lemma_sorted_range(self.rows@, self.bucket@, self.level, 0, self.bucket@.len() as int);
    }

    /// A row in the bucket of a child that is not the last one filled comes
    /// before the bound of the child; and no child after the last one filled
    /// holds a row.
    pub proof fn lemma_child_before_bound(&self, c: int, j: usize)
        requires
            self.wf(),
            self.dealt(),
            self.order@.len() >= 1,
            0 <= c < self.order@.len(),
            self.buckets@[c]@.contains(j),
        ensures
            c <= fanout(self.order@.len() as int) - 1,
            c < fanout(self.order@.len() as int) - 1 ==> before_bound(
                self.rows@,
                self.bucket@,
                self.level,
                self.pivots@,
                self.order@,
                c,
                j,
            ),
    {
        let free = self.free();
        self.lemma_child_list(c, j);
        let k = choose|k: int|
            0 <= k < free.len() && free[k] == j && #[trigger] slot_at(
                self.rows@,
                self.bucket@,
                self.level,
                self.pivots@,
                self.order@,
                free,
                k,
            ) == c;
        let before = free.take(k + 1).drop_last();
        lemma_slot_bounds(self.rows@, self.bucket@, self.level, self.pivots@, self.order@, before);
        lemma_advance_bounds(
            self.rows@,
            self.bucket@,
            self.level,
            self.pivots@,
            self.order@,
            slot_of(self.rows@, self.bucket@, self.level, self.pivots@, self.order@, before),
            j,
        );
        assert(free.take(k + 1).last() == j);
    }

    /// The free rows of a branch: the positions of its bucket that no pivot
    /// claimed, in sorted order.
    pub open spec fn free(&self) -> Seq<usize> {
        free_rows(self.matched@, self.sorted@)
    }

    /// The free rows repeat no row and hold the row at position `j` exactly
    /// where no pivot claimed it.
    pub proof fn lemma_free(&self, j: usize)
        requires
            self.wf(),
        ensures
            self.free().no_duplicates(),
            self.free().contains(j) <==> j < self.bucket@.len() && !self.matched@[j as int],
    {
        assert(self.bucket@.len() == self.bucket.len());
        lemma_sorted_range(self.rows@, self.bucket@, self.level, 0, self.bucket@.len() as int);
        lemma_free_rows_exact(self.matched@, self.sorted@);
        assert(self.free().contains(j) <==> (self.sorted@.contains(j) && !self.matched@[j as int]));
        if self.sorted@.contains(j) {
            let i = choose|i: int| 0 <= i < self.sorted@.len() && self.sorted@[i] == j;
            assert(self.sorted@[i] < self.bucket@.len());
        }
    }

    /// The bucket of child `c` repeats no row and holds the row at position
    /// `j` exactly where `j` is a free row that was dealt to `c`.
    pub proof fn lemma_child_list(&self, c: int, j: usize)
        requires
            self.wf(),
            self.dealt(),
            0 <= c < self.order@.len(),
        ensures
            self.buckets@[c]@.no_duplicates(),
            self.buckets@[c]@.contains(j) <==> exists|k: int|
                0 <= k < self.free().len() && self.free()[k] == j && #[trigger] slot_at(
                    self.rows@,
                    self.bucket@,
                    self.level,
                    self.pivots@,
                    self.order@,
                    self.free(),
                    k,
                ) == c,
    {
        self.lemma_free(j);
        lemma_child_rows_exact(
            self.rows@,
            self.bucket@,
            self.level,
            self.pivots@,
            self.order@,
            self.free(),
            c,
        );
        let list = child_rows(
            self.rows@,
            self.bucket@,
            self.level,
            self.pivots@,
            self.order@,
            self.free(),
            c,
        );
        assert(self.buckets@[c]@ == list);
        assert(list.contains(j) <==> exists|k: int|
            0 <= k < self.free().len() && self.free()[k] == j && #[trigger] slot_at(
                self.rows@,
                self.bucket@,
                self.level,
                self.pivots@,
                self.order@,
                self.free(),
                k,
            ) == c);
    }

    /// No list of claimed rows holds a row that no pivot claimed, and exactly
    /// one holds a row that a pivot claimed, once.
    pub proof fn lemma_claimed_once(&self, j: usize)
        requires
            self.wf(),
            j < self.bucket@.len(),
        ensures
            count_in_lists(self.intersecting@, j) == if self.matched@[j as int] {
                1nat
            } else {
                0nat
            },
    {
        let n = self.order@.len();
        let order = self.order@;
        assert(self.order@.len() == self.order.len());
        lemma_count_in_lists(self.intersecting@, j);
        if self.matched@[j as int] {
            lemma_first_claim(
                self.rows@,
                self.bucket@,
                self.level,
                self.pivots@,
                order,
                n as int,
                j,
            );
            let t = choose|t: int|
                0 <= t < n && #[trigger] claims(
                    self.rows@,
                    self.bucket@,
                    self.level,
                    self.pivots@,
                    order,
                    t,
                    j,
                );
            let at = order[t] as int;
            self.lemma_claimed_list(t, j);
            lemma_count_in(self.intersecting@[at]@, j);
            assert forall|i: int| 0 <= i < self.intersecting@.len() && i != at implies !(
            #[trigger] self.intersecting@[i])@.contains(j) by {
                assert(order.contains(i as usize));
                let u = choose|u: int| 0 <= u < n && order[u] == i as usize;
                self.lemma_claimed_list(u, j);
                if claims(self.rows@, self.bucket@, self.level, self.pivots@, order, u, j) {
                    if u < t {
                        assert(meets_entry(
                            self.rows@,
                            self.bucket@,
                            self.level,
                            self.pivots@,
                            order,
                            u,
                            j,
                        ));
                    } else {
                        assert(meets_entry(
                            self.rows@,
                            self.bucket@,
                            self.level,
                            self.pivots@,
                            order,
                            t,
                            j,
                        ));
                    }
                }
            }
        } else {
            assert forall|i: int| 0 <= i < self.intersecting@.len() implies !(
            #[trigger] self.intersecting@[i])@.contains(j) by {
                assert(order.contains(i as usize));
                let u = choose|u: int| 0 <= u < n && order[u] == i as usize;
                self.lemma_claimed_list(u, j);
                if claims(self.rows@, self.bucket@, self.level, self.pivots@, order, u, j) {
                    assert(meets_entry(
                        self.rows@,
                        self.bucket@,
                        self.level,
                        self.pivots@,
                        order,
                        u,
                        j,
                    ));
                }
            }
        }
    }

    /// No bucket of a child holds a row that a pivot claimed, and exactly one
    /// holds a row that no pivot claimed, once.
    pub proof fn lemma_dealt_once(&self, j: usize)
        requires
            self.wf(),
            self.dealt(),
            self.order@.len() >= 1,
            j < self.bucket@.len(),
        ensures
            count_in_lists(self.buckets@, j) == if self.matched@[j as int] {
                0nat
            } else {
                1nat
            },
    {
        let free = self.free();
        self.lemma_free(j);
        lemma_count_in_lists(self.buckets@, j);
        if self.matched@[j as int] {
            assert forall|c: int| 0 <= c < self.buckets@.len() implies !(
            #[trigger] self.buckets@[c])@.contains(
                j,
            ) by {
                self.lemma_child_list(c, j);
                if self.buckets@[c]@.contains(j) {
                    let k = choose|k: int|
                        0 <= k < free.len() && free[k] == j && #[trigger] slot_at(
                            self.rows@,
                            self.bucket@,
                            self.level,
                            self.pivots@,
                            self.order@,
                            free,
                            k,
                        ) == c;
                    assert(free.contains(j));
                }
            }
        } else {
            let k = choose|k: int| 0 <= k < free.len() && free[k] == j;
            let at = slot_at(
                self.rows@,
                self.bucket@,
                self.level,
                self.pivots@,
                self.order@,
                free,
                k,
            );
            lemma_slot_bounds(
                self.rows@,
                self.bucket@,
                self.level,
                self.pivots@,
                self.order@,
                free.take(k + 1),
            );
            self.lemma_child_list(at, j);
            lemma_count_in(self.buckets@[at]@, j);
            assert forall|c: int| 0 <= c < self.buckets@.len() && c != at implies !(
            #[trigger] self.buckets@[c])@.contains(j) by {
                self.lemma_child_list(c, j);
                if self.buckets@[c]@.contains(j) {
                    let k2 = choose|k2: int|
                        0 <= k2 < free.len() && free[k2] == j && #[trigger] slot_at(
                            self.rows@,
                            self.bucket@,
                            self.level,
                            self.pivots@,
                            self.order@,
                            free,
                            k2,
                        ) == c;
                    assert(k2 == k);
                }
            }
        }
    }

    /// Every row of the bucket has one place in a branch with its children
    /// formed: the lists of claimed rows and the buckets of the children hold
    /// its position once between them, in a list of claimed rows where a
    /// pivot claimed the row and in a bucket where none did.
    pub proof fn lemma_each_row_once(&self, j: usize)
        requires
            self.wf(),
            self.dealt(),
            self.order@.len() >= 1,
            j < self.bucket@.len(),
        ensures
            count_in_lists(self.intersecting@, j) + count_in_lists(self.buckets@, j) == 1,
            self.matched@[j as int] <==> count_in_lists(self.intersecting@, j) == 1,
    {
        self.lemma_claimed_once(j);
        self.lemma_dealt_once(j);
    }

    /// A branch is fixed by its level, its order, its bucket and the rows:
    /// two branches made of the same have the same sorted order, pivots and
    /// claimed rows, deal the rows out alike, and have the same record
    /// wherever their children stand at the same offsets.
    pub proof fn lemma_same_branch(&self, other: &Self)
        requires
            self.wf(),
            other.wf(),
            self.level == other.level,
            self.order@ == other.order@,
            self.bucket@ == other.bucket@,
            self.rows@ == other.rows@,
        ensures
            self.sorted@ == other.sorted@,
            self.pivots@ == other.pivots@,
            self.matched@ == other.matched@,
            forall|i: int|
                0 <= i < self.order@.len() ==> (#[trigger] self.intersecting@[i])@
                    == other.intersecting@[i]@,
            self.dealt() && other.dealt() ==> forall|c: int|
                0 <= c < self.order@.len() ==> (#[trigger] self.buckets@[c])@ == other.buckets@[c]@,
            forall|offsets: Seq<u64>| #[trigger] self.record(offsets) == other.record(offsets),
            self.size() == other.size(),
    {
        let n = self.order@.len();
        let len = self.bucket@.len();
        assert(self.bucket@.len() == self.bucket.len());
        assert(self.order@.len() == self.order.len());
        lemma_sorted_range(self.rows@, self.bucket@, self.level, 0, len as int);
        assert forall|k: int| 0 <= k < n implies self.pivots@[k] == other.pivots@[k] by {
            let below = row_point(
                self.rows@,
                self.bucket@,
                self.sorted@[pivot_rank(k, len as int, n as int)] as int,
            );
            let above = row_point(
                self.rows@,
                self.bucket@,
                self.sorted@[pivot_rank(k, len as int, n as int) + 1] as int,
            );
            let a = self.pivots@[k];
            let b = other.pivots@[k];
            assert(crate::point::is_midpoint_upper(&a, &below, &above));
            assert(crate::point::is_midpoint_upper(&b, &below, &above));
            assert forall|d: int| 0 <= d < P::arity() implies a.lo(d) == b.lo(d) && a.hi(d)
                == b.hi(d) by {
                assert(a.lo(d) == crate::point::half_sum(below.hi(d), above.hi(d)));
                assert(b.lo(d) == crate::point::half_sum(below.hi(d), above.hi(d)));
            }
            P::lemma_extents_decide(a, b);
        }
        assert(self.pivots@ =~= other.pivots@);
        assert forall|i: int| 0 <= i < len implies self.matched@[i] == other.matched@[i] by {
            let j = i as usize;
            assert(self.matched@[j as int] == claimed_within(
                self.rows@,
                self.bucket@,
                self.level,
                self.pivots@,
                self.order@,
                n as int,
                j,
            ));
            assert(other.matched@[j as int] == claimed_within(
                self.rows@,
                self.bucket@,
                self.level,
                self.pivots@,
                self.order@,
                n as int,
                j,
            ));
        }
        assert(self.matched@ =~= other.matched@);
        assert forall|i: int| 0 <= i < n implies (#[trigger] self.intersecting@[i])@
            == other.intersecting@[i]@ by {
            assert(self.order@.contains(i as usize));
            let t = choose|t: int| 0 <= t < n && self.order@[t] == i as usize;
            let list = claimed_rows(
                self.rows@,
                self.bucket@,
                self.level,
                self.pivots@,
                self.order@,
                t,
                self.sorted@,
            );
            assert(self.intersecting@[self.order@[t] as int]@ == list);
            assert(other.intersecting@[other.order@[t] as int]@ == list);
        }
        lemma_lists_bytes_same(self.rows@, self.bucket@, self.intersecting@, other.intersecting@);
    }
}

} // verus!
