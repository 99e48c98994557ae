//! What a query for the rows in a bounding box does at one node: which rows
//! of the node it reports and which children it goes on to.

use vstd::prelude::*;
use crate::Value;
use crate::branch::{
    Branch, Data, before_bound, claims, fanout, lemma_advance_bounds, lists_in_bucket,
    meets_entry, named_rows, pivot_rank, rows_at, slot_of,
};
use crate::branch_lemmas::{count_in, lemma_first_claim, lemma_slot_bounds, slot_at};
use crate::point::{
    Point, axis, begins_above, half_sum, is_midpoint_upper, meets_bbox_at, overlaps_bbox,
};
use crate::sort::{bucket_in_rows, lemma_sorted_range, row_point};

verus! {

/// The rows among those that `list` names whose points meet `bbox`, in the
/// order of `list`.
pub open spec fn matching_rows<P: Point, V>(
    rows: Seq<&(P, V)>,
    bbox: &P::BBox,
    list: Seq<usize>,
) -> Seq<usize>
    decreases list.len(),
{
    if list.len() == 0 {
        Seq::empty()
    } else if overlaps_bbox(&rows[list.last() as int].0, bbox) {
        matching_rows(rows, bbox, list.drop_last()).push(list.last())
    } else {
        matching_rows(rows, bbox, list.drop_last())
    }
}

/// The matching rows are rows of the list whose points meet the box, and
/// every such row of the list is among them.
pub proof fn lemma_matching_rows<P: Point, V>(rows: Seq<&(P, V)>, bbox: &P::BBox, list: Seq<usize>)
    ensures
        forall|k: int|
            0 <= k < matching_rows(rows, bbox, list).len() ==> list.contains(
                #[trigger] matching_rows(rows, bbox, list)[k],
            ) && overlaps_bbox(&rows[matching_rows(rows, bbox, list)[k] as int].0, bbox),
        forall|i: int|
            0 <= i < list.len() && overlaps_bbox(&rows[list[i] as int].0, bbox) ==> matching_rows(
                rows,
                bbox,
                list,
            ).contains(#[trigger] list[i]),
    decreases list.len(),
{
    let all = matching_rows(rows, bbox, list);
    if list.len() > 0 {
        let front = list.drop_last();
        let rest = matching_rows(rows, bbox, front);
        lemma_matching_rows(rows, bbox, front);
        assert forall|k: int| 0 <= k < all.len() implies list.contains(#[trigger] all[k])
            && overlaps_bbox(&rows[all[k] as int].0, bbox) by {
            if k < rest.len() {
                assert(all[k] == rest[k]);
                let i = choose|i: int| 0 <= i < front.len() && front[i] == rest[k];
                assert(list[i] == rest[k]);
            } else {
                assert(all[k] == list[list.len() - 1]);
            }
        }
        assert forall|i: int|
            0 <= i < list.len() && overlaps_bbox(&rows[list[i] as int].0, bbox) implies all.contains(
            #[trigger] list[i],
        ) by {
            if i < front.len() {
                assert(front[i] == list[i]);
                assert(rest.contains(front[i]));
                let k = choose|k: int| 0 <= k < rest.len() && rest[k] == list[i];
                assert(all[k] == list[i]);
            } else {
                assert(all[all.len() - 1] == list[i]);
            }
        }
    }
}

/// A query reports a row whose point meets the box as often as the list names
/// it, and no other row: so lists that name the same rows, in whatever
/// order, yield the same rows.
pub proof fn lemma_matching_rows_count<P: Point, V>(
    rows: Seq<&(P, V)>,
    bbox: &P::BBox,
    list: Seq<usize>,
    row: usize,
)
    ensures
        count_in(matching_rows(rows, bbox, list), row) == if overlaps_bbox(
            &rows[row as int].0,
            bbox,
        ) {
            count_in(list, row)
        } else {
            0
        },
    decreases list.len(),
{
    if list.len() > 0 {
        lemma_matching_rows_count(rows, bbox, list.drop_last(), row);
        if overlaps_bbox(&rows[list.last() as int].0, bbox) {
            let rest = matching_rows(rows, bbox, list.drop_last());
            assert(rest.push(list.last()).drop_last() =~= rest);
        }
    }
}

/// The rows among those that `list` names whose points meet `bbox`.
fn select_rows<P: Point, V>(rows: &Vec<&(P, V)>, bbox: &P::BBox, list: &Vec<usize>) -> (r: Vec<
    usize,
>)
    requires
        bucket_in_rows(rows@, list@),
    ensures
        r@ == matching_rows(rows@, bbox, list@),
{
    let mut found: Vec<usize> = Vec::new();
    let mut i: usize = 0;
    proof {
        assert(list@.take(0) =~= Seq::<usize>::empty());
    }
    while i < list.len()
        invariant
            bucket_in_rows(rows@, list@),
            i <= list.len(),
            found@ == matching_rows(rows@, bbox, list@.take(i as int)),
        decreases list.len() - i,
    {
        proof {
            let next = list@.take(i as int + 1);
            assert(next.drop_last() =~= list@.take(i as int));
            assert(next.last() == list@[i as int]);
        }
        if rows[list[i]].0.overlaps(bbox) {
            found.push(list[i]);
        }
        i = i + 1;
    }
    proof {
        assert(list@.take(list.len() as int) =~= list@);
    }
    found
}

impl<'a, P, V> Data<'a, P, V> where P: Point, V: Value {
    /// The rows of the leaf whose points meet `bbox`, in the order of the
    /// bucket: each of them meets the box, and no row of the leaf that meets
    /// it is left out.
    pub fn query(&self, bbox: &P::BBox) -> (r: Vec<usize>)
        requires
            bucket_in_rows(self.rows@, self.bucket@),
        ensures
            r@ == matching_rows(self.rows@, bbox, self.bucket@),
            forall|k: int|
                0 <= k < r@.len() ==> self.bucket@.contains(#[trigger] r@[k]) && overlaps_bbox(
                    &self.rows@[r@[k] as int].0,
                    bbox,
                ),
            forall|i: int|
                0 <= i < self.bucket@.len() && overlaps_bbox(
                    &self.rows@[self.bucket@[i] as int].0,
                    bbox,
                ) ==> r@.contains(#[trigger] self.bucket@[i]),
    {
        proof {
            lemma_matching_rows(self.rows@, bbox, self.bucket@);
        }
        select_rows(self.rows, bbox, &self.bucket)
    }
}

/// The rows that a query for `bbox` reports from the first `i` lists of
/// claimed rows: from the list of each pivot that meets the box at `level`,
/// the rows whose points meet the box.
pub open spec fn reported_upto<P: Point, V>(
    rows: Seq<&(P, V)>,
    bucket: Seq<usize>,
    level: usize,
    pivots: Seq<P>,
    lists: Seq<Vec<usize>>,
    bbox: &P::BBox,
    i: int,
) -> Seq<usize>
    decreases i,
{
    if i <= 0 {
        Seq::empty()
    } else if meets_bbox_at(&pivots[i - 1], bbox, level) {
        reported_upto(rows, bucket, level, pivots, lists, bbox, i - 1) + matching_rows(
            rows,
            bbox,
            named_rows(bucket, lists[i - 1]@),
        )
    } else {
        reported_upto(rows, bucket, level, pivots, lists, bbox, i - 1)
    }
}

/// Whether a query for `bbox` goes on to child `c`: to the last child that
/// is filled always, and to an earlier one where its bound begins above the
/// lowest scalar of the box at `level`.
pub open spec fn visits<P: Point>(
    level: usize,
    pivots: Seq<P>,
    order: Seq<usize>,
    bbox: &P::BBox,
    c: int,
) -> bool {
    0 <= c < fanout(order.len() as int) && (c == fanout(order.len() as int) - 1 || begins_above(
        &pivots[order[c + fanout(order.len() as int) - 1] as int],
        bbox,
        level,
    ))
}

/// The children among the first `c` that a query for `bbox` goes on to, in
/// their order.
pub open spec fn visited_upto<P: Point>(
    level: usize,
    pivots: Seq<P>,
    order: Seq<usize>,
    bbox: &P::BBox,
    c: int,
) -> Seq<usize>
    decreases c,
{
    if c <= 0 {
        Seq::empty()
    } else if visits(level, pivots, order, bbox, c - 1) {
        visited_upto(level, pivots, order, bbox, c - 1).push((c - 1) as usize)
    } else {
        visited_upto(level, pivots, order, bbox, c - 1)
    }
}

impl<'a, P, V> Branch<'a, P, V> where P: Point, V: Value {
    /// The rows that a query for `bbox` reports at this branch.
    pub open spec fn reported(&self, bbox: &P::BBox) -> Seq<usize> {
        reported_upto(
            self.rows@,
            self.bucket@,
            self.level,
            self.pivots@,
            self.intersecting@,
            bbox,
            self.order@.len() as int,
        )
    }

    /// The children that a query for `bbox` goes on to from this branch.
    pub open spec fn visited(&self, bbox: &P::BBox) -> Seq<usize> {
        visited_upto(self.level, self.pivots@, self.order@, bbox, self.order@.len() as int)
    }

    /// What a query for `bbox` does at this branch. It reports, for each pivot
    /// that meets the box in the dimension of the level, the rows that the
    /// pivot claimed and whose points meet the box; and it names the children
    /// to go on to.
    pub fn query(&self, bbox: &P::BBox) -> (r: (Vec<usize>, Vec<usize>))
        requires
            self.wf(),
        ensures
            r.0@ == self.reported(bbox),
            r.1@ == self.visited(bbox),
    {
        proof {
            self.lemma_lists_in_bucket();
        }
        let n = self.order.len();
        let mut found: Vec<usize> = Vec::new();
        let mut i: usize = 0;
        while i < n
            invariant
                n == self.order@.len(),
                self.wf(),
                lists_in_bucket(self.intersecting@, self.bucket@.len()),
                i <= n,
                found@ == reported_upto(
                    self.rows@,
                    self.bucket@,
                    self.level,
                    self.pivots@,
                    self.intersecting@,
                    bbox,
                    i as int,
                ),
            decreases n - i,
        {
            if self.pivots[i].overlaps_at(bbox, self.level) {
                let list = &self.intersecting[i];
                proof {
                    assert(forall|k: int|
                        0 <= k < list@.len() ==> (#[trigger] self.intersecting@[i as int]@[k])
                            < self.bucket.len());
                }
                let named = rows_at(&self.bucket, list);
                let mut part = select_rows(self.rows, bbox, &named);
                found.append(&mut part);
            }
            i = i + 1;
        }
        let filled = n / 2 + 1;
        let mut children: Vec<usize> = Vec::new();
        let mut c: usize = 0;
        while c < n
            invariant
                n == self.order@.len(),
                self.wf(),
                filled == fanout(n as int),
                c <= n,
                children@ == visited_upto(self.level, self.pivots@, self.order@, bbox, c as int),
            decreases n - c,
        {
            if c < filled && (c == filled - 1 || self.pivots[self.order[c + filled
                - 1]].above_at(bbox, self.level)) {
                children.push(c);
            }
            c = c + 1;
        }
        (found, children)
    }
}

/// What a query reports from the first `i` lists are rows of these lists
/// whose points meet the box; and it reports every such row of a list whose
/// pivot meets the box at the level.
pub proof fn lemma_reported_upto<P: Point, V>(
    rows: Seq<&(P, V)>,
    bucket: Seq<usize>,
    level: usize,
    pivots: Seq<P>,
    lists: Seq<Vec<usize>>,
    bbox: &P::BBox,
    i: int,
)
    requires
        0 <= i <= lists.len(),
    ensures
        forall|k: int|
            0 <= k < reported_upto(rows, bucket, level, pivots, lists, bbox, i).len()
                ==> overlaps_bbox(
                &rows[(#[trigger] reported_upto(rows, bucket, level, pivots, lists, bbox, i)[k]) as int].0,
                bbox,
            ),
        forall|at: int, k: int|
            0 <= at < i && 0 <= k < lists[at]@.len() && meets_bbox_at(&pivots[at], bbox, level)
                && overlaps_bbox(&rows[bucket[lists[at]@[k] as int] as int].0, bbox)
                ==> reported_upto(rows, bucket, level, pivots, lists, bbox, i).contains(
                bucket[(#[trigger] lists[at]@[k]) as int],
            ),
    decreases i,
{
    let all = reported_upto(rows, bucket, level, pivots, lists, bbox, i);
    if i > 0 {
        let rest = reported_upto(rows, bucket, level, pivots, lists, bbox, i - 1);
        let named = named_rows(bucket, lists[i - 1]@);
        let part = matching_rows(rows, bbox, named);
        lemma_reported_upto(rows, bucket, level, pivots, lists, bbox, i - 1);
        lemma_matching_rows(rows, bbox, named);
        assert forall|k: int| 0 <= k < all.len() implies overlaps_bbox(
            &rows[(#[trigger] all[k]) as int].0,
            bbox,
        ) by {
            if k < rest.len() {
                assert(all[k] == rest[k]);
            } else {
                assert(all[k] == part[k - rest.len()]);
            }
        }
        assert forall|at: int, k: int|
            0 <= at < i && 0 <= k < lists[at]@.len() && meets_bbox_at(&pivots[at], bbox, level)
                && overlaps_bbox(
                &rows[bucket[lists[at]@[k] as int] as int].0,
                bbox,
            ) implies all.contains(bucket[(#[trigger] lists[at]@[k]) as int]) by {
            let row = bucket[lists[at]@[k] as int];
            if at < i - 1 {
                assert(rest.contains(row));
                let q = choose|q: int| 0 <= q < rest.len() && rest[q] == row;
                assert(all[q] == row);
            } else {
                assert(named[k] == row);
                assert(part.contains(named[k]));
                let q = choose|q: int| 0 <= q < part.len() && part[q] == row;
                assert(all[rest.len() + q] == row);
            }
        }
    }
}

/// What a query reports from the first `i` lists are rows that the bucket
/// names.
pub proof fn lemma_reported_in_bucket<P: Point, V>(
    rows: Seq<&(P, V)>,
    bucket: Seq<usize>,
    level: usize,
    pivots: Seq<P>,
    lists: Seq<Vec<usize>>,
    bbox: &P::BBox,
    i: int,
)
    requires
        0 <= i <= lists.len(),
        lists_in_bucket(lists, bucket.len()),
    ensures
        forall|k: int|
            0 <= k < reported_upto(rows, bucket, level, pivots, lists, bbox, i).len()
                ==> bucket.contains(
                #[trigger] reported_upto(rows, bucket, level, pivots, lists, bbox, i)[k],
            ),
    decreases i,
{
    let all = reported_upto(rows, bucket, level, pivots, lists, bbox, i);
    if i > 0 {
        let rest = reported_upto(rows, bucket, level, pivots, lists, bbox, i - 1);
        let named = named_rows(bucket, lists[i - 1]@);
        let part = matching_rows(rows, bbox, named);
        lemma_reported_in_bucket(rows, bucket, level, pivots, lists, bbox, i - 1);
        lemma_matching_rows(rows, bbox, named);
        assert forall|k: int| 0 <= k < all.len() implies bucket.contains(#[trigger] all[k]) by {
            if k < rest.len() {
                assert(all[k] == rest[k]);
            } else {
                assert(all[k] == part[k - rest.len()]);
                assert(named.contains(part[k - rest.len()]));
                let q = choose|q: int| 0 <= q < named.len() && named[q] == part[k - rest.len()];
                assert(lists[i - 1]@[q] < bucket.len());
                assert(bucket[lists[i - 1]@[q] as int] == all[k]);
            }
        }
    }
}

/// The children that a query goes on to among the first `c` are those of
/// them that it visits.
pub proof fn lemma_visited_upto<P: Point>(
    level: usize,
    pivots: Seq<P>,
    order: Seq<usize>,
    bbox: &P::BBox,
    c: int,
)
    requires
        0 <= c <= usize::MAX,
    ensures
        forall|v: usize|
            #[trigger] visited_upto(level, pivots, order, bbox, c).contains(v) <==> v < c
                && visits(level, pivots, order, bbox, v as int),
    decreases c,
{
    let all = visited_upto(level, pivots, order, bbox, c);
    if c > 0 {
        let rest = visited_upto(level, pivots, order, bbox, c - 1);
        lemma_visited_upto(level, pivots, order, bbox, c - 1);
        assert forall|v: usize| #[trigger] all.contains(v) <==> v < c && visits(
            level,
            pivots,
            order,
            bbox,
            v as int,
        ) by {
            if all.contains(v) {
                let k = choose|k: int| 0 <= k < all.len() && all[k] == v;
                if k < rest.len() {
                    assert(rest[k] == v);
                    assert(rest.contains(v));
                }
            }
            if v < c && visits(level, pivots, order, bbox, v as int) {
                if v < c - 1 {
                    assert(rest.contains(v));
                    let k = choose|k: int| 0 <= k < rest.len() && rest[k] == v;
                    assert(all[k] == v);
                } else {
                    assert(all[all.len() - 1] == v);
                }
            }
        }
    }
}

/// The mean of two numbers lies between them.
pub proof fn lemma_half_sum_between(a: int, b: int)
    ensures
        a <= b ==> a <= half_sum(a, b) <= b,
        b <= a ==> b <= half_sum(a, b) <= a,
{
}

/// Whether `bbox` holds `p`: in every dimension the extent of `p` is not
/// empty and lies within the box.
pub open spec fn box_holds<P: Point>(bbox: &P::BBox, p: &P) -> bool {
    forall|d: int|
        0 <= d < P::arity() ==> P::bbox_lo(bbox, d) <= #[trigger] p.lo(d) && p.lo(d) <= p.hi(d)
            && p.hi(d) <= P::bbox_hi(bbox, d)
}

impl<'a, P, V> Branch<'a, P, V> where P: Point, V: Value {
    /// A query for a box that holds every row of the bucket loses none: it
    /// reports here each row that a pivot claimed, and goes on to the child
    /// of each other row.
    pub proof fn lemma_full_box(&self, bbox: &P::BBox, j: usize)
        requires
            self.wf(),
            self.dealt(),
            self.order@.len() >= 1,
            j < self.bucket@.len(),
            forall|i: int|
                0 <= i < self.bucket@.len() ==> box_holds(
                    bbox,
                    &#[trigger] row_point(self.rows@, self.bucket@, i),
                ),
        ensures
            self.matched@[j as int] ==> self.reported(bbox).contains(self.bucket@[j as int]),
            !self.matched@[j as int] ==> exists|c: usize|
                #[trigger] self.visited(bbox).contains(c) && c < self.order@.len()
                    && self.buckets@[c as int]@.contains(j),
    {
        assert(self.order@.len() == self.order.len());
        P::lemma_arity();
        let d = axis::<P>(self.level);
        assert(0 <= d < P::arity());
        assert forall|i: int| 0 <= i < self.bucket@.len() implies P::bbox_lo(bbox, d) <= (
        #[trigger] row_point(self.rows@, self.bucket@, i)).hi(d) <= P::bbox_hi(bbox, d) by {
            let p = row_point(self.rows@, self.bucket@, i);
            assert(box_holds(bbox, &p));
            assert(P::bbox_lo(bbox, d) <= p.lo(d));
        }
        assert forall|t: int|
            0 <= t < self.order@.len() && #[trigger] claims(
                self.rows@,
                self.bucket@,
                self.level,
                self.pivots@,
                self.order@,
                t,
                j,
            ) implies meets_bbox_at(&self.pivots@[self.order@[t] as int], bbox, self.level) by {
            self.lemma_box_around_rows(bbox, self.order@[t] as int);
        }
        let row = row_point(self.rows@, self.bucket@, j as int);
        assert(box_holds(bbox, &row));
        assert forall|e: int| 0 <= e < P::arity() implies crate::point::overlaps_window(
            #[trigger] row.lo(e),
            row.hi(e),
            P::bbox_lo(bbox, e),
            P::bbox_hi(bbox, e),
        ) by {
        }
        self.lemma_query_complete(bbox, j);
    }

    /// The point of every row that a query reports at this branch meets the
    /// box of the query.
    pub proof fn lemma_reported_meet(&self, bbox: &P::BBox)
        requires
            self.wf(),
        ensures
            forall|k: int|
                0 <= k < self.reported(bbox).len() ==> overlaps_bbox(
                    &self.rows@[(#[trigger] self.reported(bbox)[k]) as int].0,
                    bbox,
                ),
    {
        lemma_reported_upto(
            self.rows@,
            self.bucket@,
            self.level,
            self.pivots@,
            self.intersecting@,
            bbox,
            self.order@.len() as int,
        );
    }

    /// A query finds every row that it is due. Let the point of the row at
    /// position `j` meet the box. If a pivot claimed the row and meets the box
    /// in the dimension of the level, the query reports the row here. If no
    /// pivot claimed it, the query goes on to the child that holds it.
    pub proof fn lemma_query_complete(&self, bbox: &P::BBox, j: usize)
        requires
            self.wf(),
            self.dealt(),
            self.order@.len() >= 1,
            j < self.bucket@.len(),
            overlaps_bbox(&row_point(self.rows@, self.bucket@, j as int), bbox),
            forall|t: int|
                0 <= t < self.order@.len() && #[trigger] claims(
                    self.rows@,
                    self.bucket@,
                    self.level,
                    self.pivots@,
                    self.order@,
                    t,
                    j,
                ) ==> meets_bbox_at(&self.pivots@[self.order@[t] as int], bbox, self.level),
        ensures
            self.matched@[j as int] ==> self.reported(bbox).contains(self.bucket@[j as int]),
            !self.matched@[j as int] ==> exists|c: usize|
                #[trigger] self.visited(bbox).contains(c) && c < self.order@.len()
                    && self.buckets@[c as int]@.contains(j),
    {
        let n = self.order@.len();
        let order = self.order@;
        assert(self.order@.len() == self.order.len());
        if self.matched@[j as int] {
            lemma_first_claim(
                self.rows@,
                self.bucket@,
                self.level,
                self.pivots@,
                order,
                n as int,
                j,
            );
            let t = choose|t: int|
                0 <= t < n && #[trigger] claims(
                    self.rows@,
                    self.bucket@,
                    self.level,
                    self.pivots@,
                    order,
                    t,
                    j,
                );
            let at = order[t] as int;
            self.lemma_claimed_list(t, j);
            let k = choose|k: int|
                0 <= k < self.intersecting@[at]@.len() && self.intersecting@[at]@[k] == j;
            lemma_reported_upto(
                self.rows@,
                self.bucket@,
                self.level,
                self.pivots@,
                self.intersecting@,
                bbox,
                n as int,
            );
            assert(self.reported(bbox).contains(self.bucket@[self.intersecting@[at]@[k] as int]));
        } else {
            let free = self.free();
            self.lemma_free(j);
            let k = choose|k: int| 0 <= k < free.len() && free[k] == j;
            let c = slot_at(
                self.rows@,
                self.bucket@,
                self.level,
                self.pivots@,
                order,
                free,
                k,
            );
            let before = free.take(k + 1).drop_last();
            lemma_slot_bounds(self.rows@, self.bucket@, self.level, self.pivots@, order, before);
            lemma_advance_bounds(
                self.rows@,
                self.bucket@,
                self.level,
                self.pivots@,
                order,
                slot_of(self.rows@, self.bucket@, self.level, self.pivots@, order, before),
                j,
            );
            assert(free.take(k + 1).last() == j);
            self.lemma_child_list(c, j);
            assert(self.buckets@[c]@.contains(j));
            lemma_visited_upto(self.level, self.pivots@, order, bbox, n as int);
            if c < fanout(n as int) - 1 {
                assert(before_bound(
                    self.rows@,
                    self.bucket@,
                    self.level,
                    self.pivots@,
                    order,
                    c,
                    j,
                ));
                let at = order[c + fanout(n as int) - 1] as int;
                self.lemma_pivot_is_point(at);
                P::lemma_arity();
                let d = axis::<P>(self.level);
                assert(0 <= d < P::arity());
                let row = row_point(self.rows@, self.bucket@, j as int);
                assert(crate::point::overlaps_window(
                    row.lo(d),
                    row.hi(d),
                    P::bbox_lo(bbox, d),
                    P::bbox_hi(bbox, d),
                ));
                assert(begins_above(&self.pivots@[at], bbox, self.level));
            }
            assert(visits(self.level, self.pivots@, order, bbox, c));
            assert(self.visited(bbox).contains(c as usize));
        }
    }

    /// Every pivot is a point without width: in each dimension its two ends
    /// coincide.
    pub proof fn lemma_pivot_is_point(&self, i: int)
        requires
            self.wf(),
            0 <= i < self.order@.len(),
        ensures
            forall|d: int| 0 <= d < P::arity() ==> self.pivots@[i].lo(d) == self.pivots@[i].hi(d),
    {
        let n = self.order@.len();
        let len = self.bucket@.len();
        let pivot = self.pivots@[i];
        let below = row_point(
            self.rows@,
            self.bucket@,
            self.sorted@[pivot_rank(i, len as int, n as int)] as int,
        );
        let above = row_point(
            self.rows@,
            self.bucket@,
            self.sorted@[pivot_rank(i, len as int, n as int) + 1] as int,
        );
        assert(is_midpoint_upper(&pivot, &below, &above));
        assert forall|d: int| 0 <= d < P::arity() implies pivot.lo(d) == pivot.hi(d) by {
            assert(pivot.lo(d) == half_sum(below.hi(d), above.hi(d)));
        }
    }

    /// A row whose coordinate in the dimension of the level is a scalar is
    /// claimed only by a pivot that meets every box that the row meets.
    pub proof fn lemma_scalar_row_claimed(&self, bbox: &P::BBox, j: usize, t: int)
        requires
            self.wf(),
            j < self.bucket@.len(),
            0 <= t < self.order@.len(),
            row_point(self.rows@, self.bucket@, j as int).lo(axis::<P>(self.level)) == row_point(
                self.rows@,
                self.bucket@,
                j as int,
            ).hi(axis::<P>(self.level)),
            overlaps_bbox(&row_point(self.rows@, self.bucket@, j as int), bbox),
            claims(self.rows@, self.bucket@, self.level, self.pivots@, self.order@, t, j),
        ensures
            meets_bbox_at(&self.pivots@[self.order@[t] as int], bbox, self.level),
    {
        assert(self.order@.len() == self.order.len());
        let at = self.order@[t] as int;
        self.lemma_pivot_is_point(at);
        P::lemma_arity();
        let d = axis::<P>(self.level);
        assert(0 <= d < P::arity());
        let row = row_point(self.rows@, self.bucket@, j as int);
        assert(meets_entry(self.rows@, self.bucket@, self.level, self.pivots@, self.order@, t, j));
        assert(crate::point::overlaps_window(
            row.lo(d),
            row.hi(d),
            P::bbox_lo(bbox, d),
            P::bbox_hi(bbox, d),
        ));
    }

    /// A box that holds the upper end of every row of the bucket in the
    /// dimension of the level meets every pivot there, so that a query for it
    /// reports every claimed row that meets it.
    pub proof fn lemma_box_around_rows(&self, bbox: &P::BBox, i: int)
        requires
            self.wf(),
            0 <= i < self.order@.len(),
            forall|j: int|
                0 <= j < self.bucket@.len() ==> P::bbox_lo(bbox, axis::<P>(self.level)) <= (
                #[trigger] row_point(self.rows@, self.bucket@, j)).hi(axis::<P>(self.level))
                    <= P::bbox_hi(bbox, axis::<P>(self.level)),
        ensures
            meets_bbox_at(&self.pivots@[i], bbox, self.level),
    {
        let n = self.order@.len();
        let len = self.bucket@.len();
        assert(self.bucket@.len() == self.bucket.len());
        lemma_sorted_range(self.rows@, self.bucket@, self.level, 0, len as int);
        P::lemma_arity();
        let d = axis::<P>(self.level);
        assert(0 <= d < P::arity());
        let rank = pivot_rank(i, len as int, n as int);
        assert((i + 2) * (len as int) / (n as int + 1) >= 0) by (nonlinear_arith)
            requires
                i >= 0,
                len >= 0,
                n >= 0,
        ;
        assert(0 <= rank <= len - 2);
        let pivot = self.pivots@[i];
        let below = row_point(self.rows@, self.bucket@, self.sorted@[rank] as int);
        let above = row_point(self.rows@, self.bucket@, self.sorted@[rank + 1] as int);
        assert(is_midpoint_upper(&pivot, &below, &above));
        assert(pivot.lo(d) == half_sum(below.hi(d), above.hi(d)));
        lemma_half_sum_between(below.hi(d), above.hi(d));
        assert(self.sorted@[rank] < len);
        assert(self.sorted@[rank + 1] < len);
    }
}

/// The stable name of an inserted row: the index of the data store that
/// holds it, and its offset there.
pub type Location = (u32, u64);

/// The positions of the results that are not deleted, in their order.
pub open spec fn live_positions(found: Seq<Location>, deleted: Seq<Location>) -> Seq<usize>
    decreases found.len(),
{
    if found.len() == 0 {
        Seq::empty()
    } else if deleted.contains(found.last()) {
        live_positions(found.drop_last(), deleted)
    } else {
        live_positions(found.drop_last(), deleted).push((found.len() - 1) as usize)
    }
}

/// Whether `deleted` names `location`.
fn is_deleted(deleted: &Vec<Location>, location: &Location) -> (r: bool)
    ensures
        r == deleted@.contains(*location),
{
    let mut i: usize = 0;
    while i < deleted.len()
        invariant
            i <= deleted.len(),
            forall|k: int| 0 <= k < i ==> deleted@[k] != *location,
        decreases deleted.len() - i,
    {
        if deleted[i].0 == location.0 && deleted[i].1 == location.1 {
            return true;
        }
        i = i + 1;
    }
    false
}

/// Drops the results whose rows are deleted: `found` holds the location of
/// each result of a query, `deleted` the locations that were deleted. Returns
/// the positions of the results that stay, in their order.
pub fn drop_deleted(found: &Vec<Location>, deleted: &Vec<Location>) -> (live: Vec<usize>)
    ensures
        live@ == live_positions(found@, deleted@),
{
    let mut live: Vec<usize> = Vec::new();
    let mut i: usize = 0;
    proof {
        assert(found@.take(0) =~= Seq::<Location>::empty());
    }
    while i < found.len()
        invariant
            i <= found.len(),
            live@ == live_positions(found@.take(i as int), deleted@),
        decreases found.len() - i,
    {
        proof {
            let next = found@.take(i as int + 1);
            assert(next.drop_last() =~= found@.take(i as int));
            assert(next.last() == found@[i as int]);
        }
        if !is_deleted(deleted, &found[i]) {
            live.push(i);
        }
        i = i + 1;
    }
    proof {
        assert(found@.take(found.len() as int) =~= found@);
    }
    live
}

/// The results that stay are those whose location is not deleted: each such
/// result stays once, in its place among the others, and no other stays.
pub proof fn lemma_live_positions(found: Seq<Location>, deleted: Seq<Location>)
    requires
        found.len() <= usize::MAX,
    ensures
        forall|k: int|
            0 <= k < live_positions(found, deleted).len() ==> (#[trigger] live_positions(
                found,
                deleted,
            )[k]) < found.len() && !deleted.contains(
                found[live_positions(found, deleted)[k] as int],
            ),
        forall|a: int, b: int|
            0 <= a < b < live_positions(found, deleted).len() ==> live_positions(found, deleted)[a]
                < live_positions(found, deleted)[b],
        forall|i: usize|
            i < found.len() && !deleted.contains(found[i as int]) ==> #[trigger] live_positions(
                found,
                deleted,
            ).contains(i),
    decreases found.len(),
{
    let all = live_positions(found, deleted);
    if found.len() > 0 {
        let front = found.drop_last();
        let rest = live_positions(front, deleted);
        lemma_live_positions(front, deleted);
        assert forall|k: int| 0 <= k < all.len() implies (#[trigger] all[k]) < found.len()
            && !deleted.contains(found[all[k] as int]) by {
            if k < rest.len() {
                assert(all[k] == rest[k]);
                assert(front[rest[k] as int] == found[rest[k] as int]);
            }
        }
        assert forall|a: int, b: int| 0 <= a < b < all.len() implies all[a] < all[b] by {
            if b < rest.len() {
                assert(all[a] == rest[a] && all[b] == rest[b]);
            } else {
                assert(all[a] == rest[a]);
            }
        }
        assert forall|i: usize|
            i < found.len() && !deleted.contains(found[i as int]) implies #[trigger] all.contains(
            i,
        ) by {
            if i < front.len() {
                assert(front[i as int] == found[i as int]);
                assert(rest.contains(i));
                let k = choose|k: int| 0 <= k < rest.len() && rest[k] == i;
                assert(all[k] == i);
            } else {
                assert(all[all.len() - 1] == i);
            }
        }
    }
}

/// To delete a location that no result has changes nothing.
pub proof fn lemma_delete_absent(found: Seq<Location>, deleted: Seq<Location>, location: Location)
    requires
        !found.contains(location),
    ensures
        live_positions(found, deleted.push(location)) == live_positions(found, deleted),
    decreases found.len(),
{
    if found.len() > 0 {
        let front = found.drop_last();
        let grown = deleted.push(location);
        assert(!front.contains(location)) by {
            if front.contains(location) {
                let i = choose|i: int| 0 <= i < front.len() && front[i] == location;
                assert(found[i] == location);
            }
        }
        lemma_delete_absent(front, deleted, location);
        assert(found[found.len() - 1] != location);
        assert(grown.contains(found.last()) == deleted.contains(found.last())) by {
            if deleted.contains(found.last()) {
                let i = choose|i: int| 0 <= i < deleted.len() && deleted[i] == found.last();
                assert(grown[i] == found.last());
            }
            if grown.contains(found.last()) {
                let i = choose|i: int| 0 <= i < grown.len() && grown[i] == found.last();
                assert(i < deleted.len());
                assert(deleted[i] == found.last());
            }
        }
    }
}

} // verus!
