//! Counting rows: how often a row is named by the lists of a branch, and how
//! often a search finds it.

use vstd::prelude::*;
use crate::Value;
use crate::branch::{Branch, Node, before_bound, claims, fanout, lists_in_bucket, named_rows};
use crate::branch_lemmas::{count_in, count_in_lists, lemma_count_in};
use crate::point::{Point, axis, begins_above, overlaps_window, meets_bbox_at, overlaps_bbox};
use crate::query::{
    box_holds, lemma_matching_rows_count, lemma_visited_upto, matching_rows, reported_upto,
    visited_upto, visits,
};
use crate::sort::row_point;
use crate::tree::{Tree, box_holds_all, rows_are_points, visit_count};

verus! {

/// Two lists put together name a row as often as both do.
pub proof fn lemma_count_in_both(a: Seq<usize>, b: Seq<usize>, x: usize)
    ensures
        count_in(a + b, x) == count_in(a, x) + count_in(b, x),
    decreases b.len(),
{
    if b.len() == 0 {
        assert(a + b =~= a);
    } else {
        lemma_count_in_both(a, b.drop_last(), x);
        assert((a + b).drop_last() =~= a + b.drop_last());
        assert((a + b).last() == b.last());
    }
}

/// How often the lists of positions name row `x` by way of `bucket`.
pub open spec fn named_count(bucket: Seq<usize>, lists: Seq<Vec<usize>>, x: usize) -> nat
    decreases lists.len(),
{
    if lists.len() == 0 {
        0
    } else {
        named_count(bucket, lists.drop_last(), x) + count_in(named_rows(bucket, lists.last()@), x)
    }
}

/// The number of times that `list` holds one of the first `k` positions at
/// which `bucket` names row `x`.
pub open spec fn weighted(bucket: Seq<usize>, list: Seq<usize>, x: usize, k: int) -> nat
    decreases k,
{
    if k <= 0 {
        0
    } else if bucket[k - 1] == x {
        weighted(bucket, list, x, k - 1) + count_in(list, (k - 1) as usize)
    } else {
        weighted(bucket, list, x, k - 1)
    }
}

/// The number of times that `lists` hold one of the first `k` positions at
/// which `bucket` names row `x`.
pub open spec fn weighted_lists(bucket: Seq<usize>, lists: Seq<Vec<usize>>, x: usize, k: int) -> nat
    decreases k,
{
    if k <= 0 {
        0
    } else if bucket[k - 1] == x {
        weighted_lists(bucket, lists, x, k - 1) + count_in_lists(lists, (k - 1) as usize)
    } else {
        weighted_lists(bucket, lists, x, k - 1)
    }
}

/// One more position in a list adds one to its weight where the position is
/// among the first `k` and names the row.
pub proof fn lemma_weighted_push(bucket: Seq<usize>, front: Seq<usize>, p: usize, x: usize, k: int)
    requires
        0 <= k <= usize::MAX + 1,
    ensures
        weighted(bucket, front.push(p), x, k) == weighted(bucket, front, x, k) + if p < k
            && bucket[p as int] == x {
            1nat
        } else {
            0nat
        },
    decreases k,
{
    if k > 0 {
        lemma_weighted_push(bucket, front, p, x, k - 1);
        let j = (k - 1) as usize;
        assert(front.push(p).drop_last() =~= front);
        assert(count_in(front.push(p), j) == count_in(front, j) + if p == j {
            1nat
        } else {
            0nat
        });
    }
}

/// A list of positions names a row as often as its weight says.
pub proof fn lemma_named_weight(bucket: Seq<usize>, list: Seq<usize>, x: usize)
    requires
        bucket.len() <= usize::MAX,
        forall|q: int| 0 <= q < list.len() ==> (#[trigger] list[q]) < bucket.len(),
    ensures
        count_in(named_rows(bucket, list), x) == weighted(bucket, list, x, bucket.len() as int),
    decreases list.len(),
{
    if list.len() == 0 {
        lemma_weighted_empty(bucket, list, x, bucket.len() as int);
    } else {
        let front = list.drop_last();
        let p = list.last();
        lemma_named_weight(bucket, front, x);
        assert(named_rows(bucket, list).drop_last() =~= named_rows(bucket, front));
        assert(named_rows(bucket, list).last() == bucket[p as int]);
        assert(front.push(p) =~= list);
        lemma_weighted_push(bucket, front, p, x, bucket.len() as int);
    }
}

/// A list without positions has no weight.
pub proof fn lemma_weighted_empty(bucket: Seq<usize>, list: Seq<usize>, x: usize, k: int)
    requires
        list.len() == 0,
    ensures
        weighted(bucket, list, x, k) == 0,
    decreases k,
{
    if k > 0 {
        lemma_weighted_empty(bucket, list, x, k - 1);
    }
}

/// The weight of lists is that of all but the last and that of the last.
pub proof fn lemma_weighted_lists_split(
    bucket: Seq<usize>,
    lists: Seq<Vec<usize>>,
    x: usize,
    k: int,
)
    requires
        lists.len() > 0,
    ensures
        weighted_lists(bucket, lists, x, k) == weighted_lists(bucket, lists.drop_last(), x, k)
            + weighted(bucket, lists.last()@, x, k),
    decreases k,
{
    if k > 0 {
        lemma_weighted_lists_split(bucket, lists, x, k - 1);
    }
}

/// No lists have no weight.
pub proof fn lemma_weighted_lists_empty(
    bucket: Seq<usize>,
    lists: Seq<Vec<usize>>,
    x: usize,
    k: int,
)
    requires
        lists.len() == 0,
    ensures
        weighted_lists(bucket, lists, x, k) == 0,
    decreases k,
{
    if k > 0 {
        lemma_weighted_lists_empty(bucket, lists, x, k - 1);
    }
}

/// Lists of positions name a row as often as their weight says.
pub proof fn lemma_named_count_weight(bucket: Seq<usize>, lists: Seq<Vec<usize>>, x: usize)
    requires
        bucket.len() <= usize::MAX,
        lists_in_bucket(lists, bucket.len()),
    ensures
        named_count(bucket, lists, x) == weighted_lists(bucket, lists, x, bucket.len() as int),
    decreases lists.len(),
{
    if lists.len() == 0 {
        lemma_weighted_lists_empty(bucket, lists, x, bucket.len() as int);
    } else {
        let front = lists.drop_last();
        assert forall|i: int| 0 <= i < front.len() implies (#[trigger] front[i])@.len()
            <= bucket.len() && (forall|q: int|
            0 <= q < front[i]@.len() ==> (#[trigger] front[i]@[q]) < bucket.len()) by {
            assert(front[i] == lists[i]);
        }
        lemma_named_count_weight(bucket, front, x);
        assert(lists.last() == lists[lists.len() - 1]);
        lemma_named_weight(bucket, lists.last()@, x);
        lemma_weighted_lists_split(bucket, lists, x, bucket.len() as int);
    }
}

impl<'a, P, V> Branch<'a, P, V> where P: Point, V: Value {
    /// Among the first `k` positions, the lists of claimed rows and the
    /// buckets of the children together hold as many positions that name a
    /// row as the bucket has.
    pub proof fn lemma_weights(&self, x: usize, k: int)
        requires
            self.wf(),
            self.dealt(),
            self.order@.len() >= 1,
            0 <= k <= self.bucket@.len(),
        ensures
            weighted_lists(self.bucket@, self.intersecting@, x, k) + weighted_lists(
                self.bucket@,
                self.buckets@,
                x,
                k,
            ) == count_in(self.bucket@.take(k), x),
        decreases k,
    {
        if k > 0 {
            self.lemma_weights(x, k - 1);
            assert(self.bucket@.len() == self.bucket.len());
            self.lemma_each_row_once((k - 1) as usize);
            assert(self.bucket@.take(k).drop_last() =~= self.bucket@.take(k - 1));
            assert(self.bucket@.take(k).last() == self.bucket@[k - 1]);
        }
    }

    /// A branch with its children formed names every row as often as its
    /// bucket does: in the lists of claimed rows and the buckets of the
    /// children taken together.
    pub proof fn lemma_rows_kept(&self, x: usize)
        requires
            self.wf(),
            self.dealt(),
            self.order@.len() >= 1,
        ensures
            named_count(self.bucket@, self.intersecting@, x) + named_count(
                self.bucket@,
                self.buckets@,
                x,
            ) == count_in(self.bucket@, x),
    {
        assert(self.bucket@.len() == self.bucket.len());
        self.lemma_lists_in_bucket();
        self.lemma_buckets_in_bucket();
        lemma_named_count_weight(self.bucket@, self.intersecting@, x);
        lemma_named_count_weight(self.bucket@, self.buckets@, x);
        self.lemma_weights(x, self.bucket@.len() as int);
        assert(self.bucket@.take(self.bucket@.len() as int) =~= self.bucket@);
    }
}

/// How often the lists that `chosen` picks name row `x` by way of `bucket`.
pub open spec fn chosen_count(
    bucket: Seq<usize>,
    lists: Seq<Vec<usize>>,
    x: usize,
    chosen: Seq<usize>,
) -> nat
    decreases chosen.len(),
{
    if chosen.len() == 0 {
        0
    } else {
        chosen_count(bucket, lists, x, chosen.drop_last()) + count_in(
            named_rows(bucket, lists[chosen.last() as int]@),
            x,
        )
    }
}

/// What a query reports of a row in its box from the first `i` lists is what
/// these lists name of it, where no list that is passed over names the row.
pub proof fn lemma_reported_count<P: Point, V>(
    rows: Seq<&(P, V)>,
    bucket: Seq<usize>,
    level: usize,
    pivots: Seq<P>,
    lists: Seq<Vec<usize>>,
    bbox: &P::BBox,
    x: usize,
    i: int,
)
    requires
        0 <= i <= lists.len(),
        overlaps_bbox(&rows[x as int].0, bbox),
        forall|at: int|
            0 <= at < lists.len() && !meets_bbox_at(&pivots[at], bbox, level) ==> !named_rows(
                bucket,
                (#[trigger] lists[at])@,
            ).contains(x),
    ensures
        count_in(reported_upto(rows, bucket, level, pivots, lists, bbox, i), x) == named_count(
            bucket,
            lists.take(i),
            x,
        ),
    decreases i,
{
    if i > 0 {
        lemma_reported_count(rows, bucket, level, pivots, lists, bbox, x, i - 1);
        let rest = reported_upto(rows, bucket, level, pivots, lists, bbox, i - 1);
        let named = named_rows(bucket, lists[i - 1]@);
        assert(lists.take(i).drop_last() =~= lists.take(i - 1));
        assert(lists.take(i).last() == lists[i - 1]);
        if meets_bbox_at(&pivots[i - 1], bbox, level) {
            lemma_matching_rows_count(rows, bbox, named, x);
            lemma_count_in_both(rest, matching_rows(rows, bbox, named), x);
        } else {
            lemma_count_in(named, x);
        }
    }
}

/// What the children that a query goes on to among the first `c` name of a
/// row is what all of the first `c` children name of it, where no child that
/// the query leaves aside names the row.
pub proof fn lemma_visited_count<P: Point>(
    bucket: Seq<usize>,
    level: usize,
    pivots: Seq<P>,
    order: Seq<usize>,
    lists: Seq<Vec<usize>>,
    bbox: &P::BBox,
    x: usize,
    c: int,
)
    requires
        0 <= c <= lists.len(),
        lists.len() <= usize::MAX,
        forall|at: int|
            0 <= at < lists.len() && !visits(level, pivots, order, bbox, at) ==> !named_rows(
                bucket,
                (#[trigger] lists[at])@,
            ).contains(x),
    ensures
        chosen_count(bucket, lists, x, visited_upto(level, pivots, order, bbox, c)) == named_count(
            bucket,
            lists.take(c),
            x,
        ),
    decreases c,
{
    if c > 0 {
        lemma_visited_count(bucket, level, pivots, order, lists, bbox, x, c - 1);
        let before = visited_upto(level, pivots, order, bbox, c - 1);
        assert(lists.take(c).drop_last() =~= lists.take(c - 1));
        assert(lists.take(c).last() == lists[c - 1]);
        if visits(level, pivots, order, bbox, c - 1) {
            let all = before.push((c - 1) as usize);
            assert(all.drop_last() =~= before);
            assert(all.last() == (c - 1) as usize);
        } else {
            lemma_count_in(named_rows(bucket, lists[c - 1]@), x);
        }
    }
}

impl<'a, P, V> Branch<'a, P, V> where P: Point, V: Value {
    /// A query goes on to every child that holds a row in its box.
    pub proof fn lemma_child_visited(&self, bbox: &P::BBox, c: int, j: usize)
        requires
            self.wf(),
            self.dealt(),
            self.order@.len() >= 1,
            0 <= c < self.order@.len(),
            self.buckets@[c]@.contains(j),
            overlaps_bbox(&row_point(self.rows@, self.bucket@, j as int), bbox),
        ensures
            visits(self.level, self.pivots@, self.order@, bbox, c),
    {
        let n = self.order@.len();
        assert(self.order@.len() == self.order.len());
        self.lemma_sorted();
        self.lemma_child_before_bound(c, j);
        if c < fanout(n as int) - 1 {
            let at = self.order@[c + fanout(n as int) - 1] as int;
            self.lemma_pivot_is_point(at);
            P::lemma_arity();
            let d = axis::<P>(self.level);
            assert(0 <= d < P::arity());
            let row = row_point(self.rows@, self.bucket@, j as int);
            assert(overlaps_window(row.lo(d), row.hi(d), P::bbox_lo(bbox, d), P::bbox_hi(bbox, d)));
            assert(before_bound(
                self.rows@,
                self.bucket@,
                self.level,
                self.pivots@,
                self.order@,
                c,
                j,
            ));
            assert(begins_above(&self.pivots@[at], bbox, self.level));
        }
    }
}

impl<'a, P, V> Tree<'a, P, V> where P: Point, V: Value {
    /// How often a search that passes no row over has found a row in its box
    /// after `i` children: in a leaf as often as the bucket names the row; in
    /// a branch as often as it reports the row there and the children that it
    /// has gone on to name it; and in the end as often as the bucket of the
    /// root names it.
    pub proof fn lemma_found_count_upto(&self, bbox: &P::BBox, x: usize, i: nat)
        requires
            self.wf(),
            self.keeps(bbox),
            overlaps_bbox(&self.node.rows()[x as int].0, bbox),
            i <= visit_count(self.node, bbox),
        ensures
            count_in(self.found_upto(bbox, i), x) == match self.node {
                Node::Data(d) => count_in(d.bucket@, x),
                Node::Branch(b) => count_in(b.reported(bbox), x) + chosen_count(
                    b.bucket@,
                    b.buckets@,
                    x,
                    b.visited(bbox).take(i as int),
                ),
            },
            i == visit_count(self.node, bbox) ==> count_in(self.found_upto(bbox, i), x)
                == count_in(self.node.bucket(), x),
        decreases self, i,
    {
        match self.node {
            Node::Data(d) => {
                lemma_matching_rows_count(d.rows@, bbox, d.bucket@, x);
            },
            Node::Branch(b) => {
                let visited = b.visited(bbox);
                let n = b.order@.len();
                assert(b.order@.len() == b.order.len());
                lemma_visited_upto(b.level, b.pivots@, b.order@, bbox, n as int);
                if i == 0 {
                    assert(visited.take(0) =~= Seq::<usize>::empty());
                } else {
                    self.lemma_found_count_upto(bbox, x, (i - 1) as nat);
                    let c = visited[i - 1];
                    assert(visited.contains(c));
                    let child = self.children@[c as int];
                    assert(b.is_child(c as int, child.node));
                    child.lemma_found_count_upto(bbox, x, visit_count(child.node, bbox));
                    lemma_count_in_both(
                        self.found_upto(bbox, (i - 1) as nat),
                        child.found(bbox),
                        x,
                    );
                    assert(visited.take(i as int).drop_last() =~= visited.take(i - 1));
                    assert(visited.take(i as int).last() == c);
                    assert(child.node.bucket() == named_rows(b.bucket@, b.buckets@[c as int]@));
                }
                if i == visited.len() {
                    assert(visited.take(i as int) =~= visited);
                    b.lemma_lists_in_bucket();
                    b.lemma_buckets_in_bucket();
                    assert forall|at: int|
                        0 <= at < b.intersecting@.len() && !meets_bbox_at(
                            &b.pivots@[at],
                            bbox,
                            b.level,
                        ) implies !named_rows(b.bucket@, (#[trigger] b.intersecting@[at])@).contains(
                        x,
                    ) by {
                        let named = named_rows(b.bucket@, b.intersecting@[at]@);
                        if named.contains(x) {
                            let q = choose|q: int| 0 <= q < named.len() && named[q] == x;
                            let j = b.intersecting@[at]@[q];
                            assert(j < b.bucket@.len());
                            assert(b.order@.contains(at as usize));
                            let t = choose|t: int| 0 <= t < n && b.order@[t] == at as usize;
                            b.lemma_claimed_list(t, j);
                            assert(b.intersecting@[b.order@[t] as int]@.contains(j));
                            assert(claims(
                                b.rows@,
                                b.bucket@,
                                b.level,
                                b.pivots@,
                                b.order@,
                                t,
                                j,
                            ));
                        }
                    }
                    assert forall|at: int|
                        0 <= at < b.buckets@.len() && !visits(
                            b.level,
                            b.pivots@,
                            b.order@,
                            bbox,
                            at,
                        ) implies !named_rows(b.bucket@, (#[trigger] b.buckets@[at])@).contains(
                        x,
                    ) by {
                        let named = named_rows(b.bucket@, b.buckets@[at]@);
                        if named.contains(x) {
                            let q = choose|q: int| 0 <= q < named.len() && named[q] == x;
                            let j = b.buckets@[at]@[q];
                            assert(j < b.bucket@.len());
                            assert(b.buckets@[at]@.contains(j));
                            b.lemma_child_visited(bbox, at, j);
                        }
                    }
                    lemma_reported_count(
                        b.rows@,
                        b.bucket@,
                        b.level,
                        b.pivots@,
                        b.intersecting@,
                        bbox,
                        x,
                        n as int,
                    );
                    lemma_visited_count(
                        b.bucket@,
                        b.level,
                        b.pivots@,
                        b.order@,
                        b.buckets@,
                        bbox,
                        x,
                        n as int,
                    );
                    assert(b.intersecting@.take(n as int) =~= b.intersecting@);
                    assert(b.buckets@.take(n as int) =~= b.buckets@);
                    b.lemma_rows_kept(x);
                }
            },
        }
    }

    /// A search that passes no row over finds every row in its box as often
    /// as the bucket of the root names it, and no other row.
    pub proof fn lemma_found_count(&self, bbox: &P::BBox, x: usize)
        requires
            self.wf(),
            self.keeps(bbox),
            x < self.node.rows().len(),
        ensures
            count_in(self.found(bbox), x) == if overlaps_bbox(&self.node.rows()[x as int].0, bbox) {
                count_in(self.node.bucket(), x)
            } else {
                0
            },
    {
        let count = visit_count(self.node, bbox);
        if overlaps_bbox(&self.node.rows()[x as int].0, bbox) {
            self.lemma_found_count_upto(bbox, x, count);
        } else {
            self.lemma_found_meet(bbox, count);
            lemma_count_in(self.found(bbox), x);
        }
    }
}

impl<'a, P, V> Tree<'a, P, V> where P: Point, V: Value {
    /// The bucket of the root names no row beyond the rows, and a search
    /// finds none.
    pub proof fn lemma_no_row_beyond(&self, bbox: &P::BBox, x: usize)
        requires
            self.wf(),
            x >= self.node.rows().len(),
        ensures
            count_in(self.node.bucket(), x) == 0,
            count_in(self.found(bbox), x) == 0,
    {
        self.lemma_found_in_bucket(bbox, visit_count(self.node, bbox));
        lemma_count_in(self.node.bucket(), x);
        lemma_count_in(self.found(bbox), x);
        if self.node.bucket().contains(x) {
            let i = choose|i: int| 0 <= i < self.node.bucket().len() && self.node.bucket()[i] == x;
            match self.node {
                Node::Data(d) => {
                    assert(d.bucket@[i] < d.rows@.len());
                },
                Node::Branch(b) => {
                    assert(b.bucket@[i] < b.rows@.len());
                },
            }
        }
        if self.found(bbox).contains(x) {
            let k = choose|k: int| 0 <= k < self.found(bbox).len() && self.found(bbox)[k] == x;
            assert(self.node.bucket().contains(self.found(bbox)[k]));
        }
    }

    /// Over rows that are points a search finds each row in its box as often
    /// as the tree holds it, and no row outside the box.
    pub proof fn lemma_points_count(&self, bbox: &P::BBox, x: usize)
        requires
            self.wf(),
            rows_are_points(self.node.rows()),
        ensures
            count_in(self.found(bbox), x) == if x < self.node.rows().len() && overlaps_bbox(
                &self.node.rows()[x as int].0,
                bbox,
            ) {
                count_in(self.node.bucket(), x)
            } else {
                0
            },
    {
        if x < self.node.rows().len() {
            self.lemma_points_keep(bbox);
            self.lemma_found_count(bbox, x);
        } else {
            self.lemma_no_row_beyond(bbox, x);
        }
    }

    /// A search for a box that holds every row of the tree finds each row as
    /// often as the tree holds it: what was put in comes out.
    pub proof fn lemma_full_box_count(&self, bbox: &P::BBox, x: usize)
        requires
            self.wf(),
            box_holds_all(self.node.rows(), self.node.bucket(), bbox),
        ensures
            count_in(self.found(bbox), x) == count_in(self.node.bucket(), x),
    {
        if x < self.node.rows().len() {
            self.lemma_full_box_keeps(bbox);
            self.lemma_found_count(bbox, x);
            if !overlaps_bbox(&self.node.rows()[x as int].0, bbox) {
                lemma_count_in(self.node.bucket(), x);
                if self.node.bucket().contains(x) {
                    let j = choose|j: int|
                        0 <= j < self.node.bucket().len() && self.node.bucket()[j] == x;
                    let row = row_point(self.node.rows(), self.node.bucket(), j);
                    assert(box_holds(bbox, &row));
                    assert forall|d: int| 0 <= d < P::arity() implies overlaps_window(
                        #[trigger] row.lo(d),
                        row.hi(d),
                        P::bbox_lo(bbox, d),
                        P::bbox_hi(bbox, d),
                    ) by {
                    }
                }
            }
        } else {
            self.lemma_no_row_beyond(bbox, x);
        }
    }

    /// What a search finds among rows that are points does not depend on the
    /// order of the rows: two trees whose roots name the same rows equally
    /// often yield the same rows equally often, whatever the order in their
    /// buckets.
    pub proof fn lemma_order_is_free(&self, other: &Self, bbox: &P::BBox, x: usize)
        requires
            self.wf(),
            other.wf(),
            rows_are_points(self.node.rows()),
            self.node.rows() == other.node.rows(),
            forall|y: usize|
                count_in(self.node.bucket(), y) == count_in(other.node.bucket(), y),
        ensures
            count_in(self.found(bbox), x) == count_in(other.found(bbox), x),
    {
        self.lemma_points_count(bbox, x);
        other.lemma_points_count(bbox, x);
    }

    /// What a search for a box that holds every row finds does not depend on
    /// the order of the rows either, whatever their coordinates are.
    pub proof fn lemma_order_is_free_in_full_box(&self, other: &Self, bbox: &P::BBox, x: usize)
        requires
            self.wf(),
            other.wf(),
            box_holds_all(self.node.rows(), self.node.bucket(), bbox),
            box_holds_all(other.node.rows(), other.node.bucket(), bbox),
            forall|y: usize|
                count_in(self.node.bucket(), y) == count_in(other.node.bucket(), y),
        ensures
            count_in(self.found(bbox), x) == count_in(other.found(bbox), x),
    {
        self.lemma_full_box_count(bbox, x);
        other.lemma_full_box_count(bbox, x);
    }
}

} // verus!
