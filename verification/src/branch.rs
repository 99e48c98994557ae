//! The nodes of the tree: data leaves and branches, and their byte records.

use vstd::prelude::*;
use crate::Value;
use crate::codec::le_bytes;
use crate::point::{
    Point, Scalar, equal_at, equal_at_level, is_midpoint_upper, less_at, less_at_level, level_axis,
};
use crate::sort::{
    bucket_in_rows, holds_each_once, lemma_sorted_range, row_point, sort_positions,
    sorted_positions,
};

verus! {

/// The tag byte that begins the record of a branch.
pub const BRANCH_TAG: u8 = 0;

/// The tag byte that begins the record of a data leaf.
pub const DATA_TAG: u8 = 1;

/// The bytes of the first `d` coordinates of `p`.
pub open spec fn point_bytes_upto<P: Point>(p: &P, d: int) -> Seq<u8>
    decreases d,
{
    if d <= 0 {
        Seq::empty()
    } else {
        point_bytes_upto(p, d - 1) + p.encoding_at(d - 1)
    }
}

/// The bytes of a point: those of its coordinates, one after the other.
pub open spec fn point_bytes<P: Point>(p: &P) -> Seq<u8> {
    point_bytes_upto(p, P::arity() as int)
}

/// The bytes of a row: its point, then its payload.
pub open spec fn row_bytes<P: Point, V: Value>(row: &(P, V)) -> Seq<u8> {
    point_bytes(&row.0) + row.1.payload_bytes()
}

/// The bytes of the rows that `list` names, in the order of `list`.
pub open spec fn rows_bytes<P: Point, V: Value>(rows: Seq<&(P, V)>, list: Seq<usize>) -> Seq<u8>
    decreases list.len(),
{
    if list.len() == 0 {
        Seq::empty()
    } else {
        rows_bytes(rows, list.drop_last()) + row_bytes(rows[list.last() as int])
    }
}

/// The record of a data leaf: the tag, the number of rows in four bytes, the
/// rows.
pub open spec fn data_record<P: Point, V: Value>(
    rows: Seq<&(P, V)>,
    bucket: Seq<usize>,
) -> Seq<u8> {
    seq![DATA_TAG] + le_bytes(bucket.len() as int, 4) + rows_bytes(rows, bucket)
}

/// Appends the bytes of `p` to `out`.
fn write_point<P: Point>(out: &mut Vec<u8>, p: &P)
    ensures
        final(out)@ == old(out)@ + point_bytes(p),
{
    let n = p.dim();
    let mut d: usize = 0;
    proof {
        P::lemma_arity();
        assert(out@ =~= old(out)@ + point_bytes_upto(p, 0));
    }
    while d < n
        invariant
            n == P::arity(),
            d <= n,
            out@ == old(out)@ + point_bytes_upto(p, d as int),
        decreases n - d,
    {
        let mut coord = p.serialize_at(d).unwrap();
        proof {
            P::lemma_arity();
            assert(level_axis(d, P::arity()) == d);
            assert(old(out)@ + point_bytes_upto(p, d as int) + coord@ =~= old(out)@
                + point_bytes_upto(p, d as int + 1));
        }
        out.append(&mut coord);
        d = d + 1;
    }
}

/// Appends the bytes of a row to `out`.
fn write_row<P: Point, V: Value>(out: &mut Vec<u8>, row: &(P, V))
    ensures
        final(out)@ == old(out)@ + row_bytes(row),
{
    write_point(out, &row.0);
    let mut payload = row.1.payload().unwrap();
    out.append(&mut payload);
    proof {
        assert(out@ =~= old(out)@ + row_bytes(row));
    }
}

/// Appends to `out` the bytes of the rows that `list` names.
fn write_rows<P: Point, V: Value>(out: &mut Vec<u8>, rows: &Vec<&(P, V)>, list: &Vec<usize>)
    requires
        bucket_in_rows(rows@, list@),
    ensures
        final(out)@ == old(out)@ + rows_bytes(rows@, list@),
{
    let mut i: usize = 0;
    proof {
        assert(list@.take(0) =~= Seq::<usize>::empty());
        assert(out@ =~= old(out)@ + rows_bytes(rows@, list@.take(0)));
    }
    while i < list.len()
        invariant
            bucket_in_rows(rows@, list@),
            i <= list.len(),
            out@ == old(out)@ + rows_bytes(rows@, list@.take(i as int)),
        decreases list.len() - i,
    {
        let ghost before = out@;
        write_row(out, rows[list[i]]);
        proof {
            let next = list@.take(i as int + 1);
            assert(next.drop_last() =~= list@.take(i as int));
            assert(next.last() == list@[i as int]);
            assert(out@ =~= old(out)@ + rows_bytes(rows@, next));
        }
        i = i + 1;
    }
    proof {
        assert(list@.take(list.len() as int) =~= list@);
    }
}

/// Appends to `out` the four little-endian bytes of `count`.
fn write_count(out: &mut Vec<u8>, count: usize)
    requires
        count <= u32::MAX,
    ensures
        final(out)@ == old(out)@ + le_bytes(count as int, 4),
{
    let mut bytes = Scalar::encode(&(count as u32)).unwrap();
    out.append(&mut bytes);
}

/// What has a record of a known number of bytes.
pub trait Bytes {
    /// Whether the record can be laid out.
    spec fn measurable(&self) -> bool;

    /// The number of bytes of the record.
    spec fn size(&self) -> nat;

    /// The number of bytes of the record.
    fn bytes(&self) -> (r: usize)
        requires
            self.measurable(),
        ensures
            r == self.size(),
    ;
}

/// A leaf of the tree: the rows of one bucket.
#[derive(Clone)]
pub struct Data<'a, P, V> where P: Point, V: Value {
    /// Where the record of the leaf begins in the tree file.
    pub offset: u64,
    /// The indices of the rows of the leaf.
    pub bucket: Vec<usize>,
    /// All rows of the batch.
    pub rows: &'a Vec<&'a (P, V)>,
}

impl<'a, P, V> Data<'a, P, V> where P: Point, V: Value {
    /// Whether every entry of the bucket names a row and the number of rows
    /// fits the four bytes that the record has for it.
    pub open spec fn wf(&self) -> bool {
        &&& bucket_in_rows(self.rows@, self.bucket@)
        &&& self.bucket@.len() <= u32::MAX
    }

    /// The record of the leaf.
    pub open spec fn record(&self) -> Seq<u8> {
        data_record(self.rows@, self.bucket@)
    }

    /// A leaf that holds the rows of `bucket`, not yet placed in the file.
    pub fn new(bucket: Vec<usize>, rows: &'a Vec<&'a (P, V)>) -> (r: Self)
        ensures
            r.offset == 0,
            r.bucket == bucket,
            r.rows == rows,
    {
        Self { offset: 0, bucket, rows }
    }

    /// Reserves the bytes of the record: asks `alloc` for as many bytes as the
    /// record has and keeps the offset that it answers.
    pub fn allocate<F: FnMut(usize) -> u64>(&mut self, alloc: &mut F)
        requires
            old(self).wf(),
            forall|size: usize| size == old(self).size() ==> call_requires(*old(alloc), (size,)),
        ensures
            forall|size: usize|
                size == old(self).size() ==> call_ensures(
                    *old(alloc),
                    (size,),
                    final(self).offset,
                ),
            *final(alloc) == *old(alloc),
            final(self).bucket == old(self).bucket,
            final(self).rows == old(self).rows,
    {
        let size = self.bytes();
        self.offset = alloc(size);
    }

    /// The record of the leaf.
    pub fn data(&self) -> (r: Vec<u8>)
        requires
            self.wf(),
        ensures
            r@ == self.record(),
    {
        let mut out: Vec<u8> = Vec::new();
        out.push(DATA_TAG);
        write_count(&mut out, self.bucket.len());
        write_rows(&mut out, self.rows, &self.bucket);
        proof {
            assert(out@ =~= self.record());
        }
        out
    }
}

impl<'a, P, V> Bytes for Data<'a, P, V> where P: Point, V: Value {
    open spec fn measurable(&self) -> bool {
        self.wf()
    }

    open spec fn size(&self) -> nat {
        self.record().len()
    }

    fn bytes(&self) -> (r: usize) {
        self.data().len()
    }
}

/// Whether `order` names each of the numbers below its length once.
pub open spec fn is_permutation(order: Seq<usize>) -> bool {
    holds_each_once(order, 0, order.len() as int)
}

/// The rank, among `len` sorted rows, of the row below pivot `k` of `n`: the
/// quantile `(k + 2) / (n + 1)`, and at most the last rank but one.
pub open spec fn pivot_rank(k: int, len: int, n: int) -> int {
    if (k + 2) * len / (n + 1) < len - 2 {
        (k + 2) * len / (n + 1)
    } else {
        len - 2
    }
}

/// Whether `pivots` are the `n` pivots of the rows in `sorted` order: pivot `k`
/// lies between the row of its rank and the next one.
pub open spec fn pivots_between<P: Point, V>(
    rows: Seq<&(P, V)>,
    bucket: Seq<usize>,
    sorted: Seq<usize>,
    pivots: Seq<P>,
    n: int,
) -> bool {
    &&& pivots.len() == n
    &&& forall|k: int|
        0 <= k < n ==> is_midpoint_upper(
            #[trigger] &pivots[k],
            &row_point(rows, bucket, sorted[pivot_rank(k, bucket.len() as int, n)] as int),
            &row_point(rows, bucket, sorted[pivot_rank(k, bucket.len() as int, n) + 1] as int),
        )
}

/// Whether the row at position `j` of `bucket` counts as equal to the pivot
/// that entry `t` of `order` names.
pub open spec fn meets_entry<P: Point, V>(
    rows: Seq<&(P, V)>,
    bucket: Seq<usize>,
    level: usize,
    pivots: Seq<P>,
    order: Seq<usize>,
    t: int,
    j: usize,
) -> bool {
    equal_at(&row_point(rows, bucket, j as int), &pivots[order[t] as int], level)
}

/// Whether one of the first `t` entries of `order` names a pivot that the
/// row at position `j` counts as equal to.
pub open spec fn claimed_within<P: Point, V>(
    rows: Seq<&(P, V)>,
    bucket: Seq<usize>,
    level: usize,
    pivots: Seq<P>,
    order: Seq<usize>,
    t: int,
    j: usize,
) -> bool {
    exists|u: int| 0 <= u < t && #[trigger] meets_entry(rows, bucket, level, pivots, order, u, j)
}

/// Whether entry `t` of `order` is the first whose pivot the row at position
/// `j` counts as equal to.
pub open spec fn claims<P: Point, V>(
    rows: Seq<&(P, V)>,
    bucket: Seq<usize>,
    level: usize,
    pivots: Seq<P>,
    order: Seq<usize>,
    t: int,
    j: usize,
) -> bool {
    meets_entry(rows, bucket, level, pivots, order, t, j) && !claimed_within(
        rows,
        bucket,
        level,
        pivots,
        order,
        t,
        j,
    )
}

/// The positions in `list` that entry `t` of `order` claims, in the order of
/// `list`.
pub open spec fn claimed_rows<P: Point, V>(
    rows: Seq<&(P, V)>,
    bucket: Seq<usize>,
    level: usize,
    pivots: Seq<P>,
    order: Seq<usize>,
    t: int,
    list: Seq<usize>,
) -> Seq<usize>
    decreases list.len(),
{
    if list.len() == 0 {
        Seq::empty()
    } else if claims(rows, bucket, level, pivots, order, t, list.last()) {
        claimed_rows(rows, bucket, level, pivots, order, t, list.drop_last()).push(list.last())
    } else {
        claimed_rows(rows, bucket, level, pivots, order, t, list.drop_last())
    }
}

/// The pivots of the rows in `sorted` order.
fn pivots_of<P: Point, V>(
    rows: &Vec<&(P, V)>,
    bucket: &Vec<usize>,
    sorted: &Vec<usize>,
    n: usize,
) -> (pivots: Vec<P>)
    requires
        bucket.len() >= 2,
        bucket_in_rows(rows@, bucket@),
        holds_each_once(sorted@, 0, bucket.len() as int),
    ensures
        pivots_between(rows@, bucket@, sorted@, pivots@, n as int),
{
    let len = bucket.len();
    let mut pivots: Vec<P> = Vec::new();
    let mut k: usize = 0;
    while k < n
        invariant
            len == bucket.len(),
            len >= 2,
            bucket_in_rows(rows@, bucket@),
            holds_each_once(sorted@, 0, bucket.len() as int),
            k <= n,
            pivots@.len() == k,
            forall|i: int|
                0 <= i < k ==> is_midpoint_upper(
                    #[trigger] &pivots@[i],
                    &row_point(rows@, bucket@, sorted@[pivot_rank(i, len as int, n as int)] as int),
                    &row_point(
                        rows@,
                        bucket@,
                        sorted@[pivot_rank(i, len as int, n as int) + 1] as int,
                    ),
                ),
        decreases n - k,
    {
        proof {
            assert((k + 2) * len <= 0x1_0000_0000_0000_0000 * 0xffff_ffff_ffff_ffff) by (
                nonlinear_arith)
                requires
                    0 <= k + 2 <= 0x1_0000_0000_0000_0000,
                    0 <= len <= 0xffff_ffff_ffff_ffff,
            ;
        }
        let quantile: u128 = (k as u128 + 2) * (len as u128) / (n as u128 + 1);
        let rank: usize = if quantile < (len - 2) as u128 {
            quantile as usize
        } else {
            len - 2
        };
        assert(rank == pivot_rank(k as int, len as int, n as int));
        let below = sorted[rank];
        let above = sorted[rank + 1];
        let pivot = rows[bucket[below]].0.midpoint_upper(&rows[bucket[above]].0);
        pivots.push(pivot);
        k = k + 1;
    }
    pivots
}

/// Gathers the rows that entry `t` of `order` claims: every row, in sorted
/// order, that no earlier entry has claimed and that counts as equal to the
/// pivot of this entry. `matched` records the claim.
fn claim_for<P: Point, V>(
    rows: &Vec<&(P, V)>,
    bucket: &Vec<usize>,
    level: usize,
    pivots: &Vec<P>,
    order: &Vec<usize>,
    sorted: &Vec<usize>,
    t: usize,
    matched: &mut Vec<bool>,
) -> (list: Vec<usize>)
    requires
        bucket_in_rows(rows@, bucket@),
        holds_each_once(sorted@, 0, bucket.len() as int),
        t < order.len(),
        order[t as int] < pivots.len(),
        old(matched).len() == bucket.len(),
        forall|j: usize|
            j < bucket.len() ==> old(matched)[j as int] == claimed_within(
                rows@,
                bucket@,
                level,
                pivots@,
                order@,
                t as int,
                j,
            ),
    ensures
        list@ == claimed_rows(rows@, bucket@, level, pivots@, order@, t as int, sorted@),
        final(matched).len() == bucket.len(),
        forall|j: usize|
            j < bucket.len() ==> final(matched)[j as int] == claimed_within(
                rows@,
                bucket@,
                level,
                pivots@,
                order@,
                t as int + 1,
                j,
            ),
{
    let pivot = &pivots[order[t]];
    let mut list: Vec<usize> = Vec::new();
    let mut q: usize = 0;
    proof {
        assert(sorted@.take(0) =~= Seq::<usize>::empty());
    }
    while q < sorted.len()
        invariant
            bucket_in_rows(rows@, bucket@),
            holds_each_once(sorted@, 0, bucket.len() as int),
            t < order.len(),
            order[t as int] < pivots.len(),
            *pivot == pivots[order[t as int] as int],
            q <= sorted.len(),
            matched.len() == bucket.len(),
            list@ == claimed_rows(
                rows@,
                bucket@,
                level,
                pivots@,
                order@,
                t as int,
                sorted@.take(q as int),
            ),
            forall|i: int|
                0 <= i < q ==> matched[(#[trigger] sorted[i]) as int] == claimed_within(
                    rows@,
                    bucket@,
                    level,
                    pivots@,
                    order@,
                    t as int + 1,
                    sorted[i],
                ),
            forall|i: int|
                q <= i < sorted.len() ==> matched[(#[trigger] sorted[i]) as int] == claimed_within(
                    rows@,
                    bucket@,
                    level,
                    pivots@,
                    order@,
                    t as int,
                    sorted[i],
                ),
        decreases sorted.len() - q,
    {
        let j = sorted[q];
        let ghost before = matched@;
        proof {
            let next = sorted@.take(q as int + 1);
            assert(next.drop_last() =~= sorted@.take(q as int));
            assert(next.last() == j);
            assert(claimed_within(rows@, bucket@, level, pivots@, order@, t as int + 1, j) == (
            claimed_within(rows@, bucket@, level, pivots@, order@, t as int, j) || meets_entry(
                rows@,
                bucket@,
                level,
                pivots@,
                order@,
                t as int,
                j,
            )));
        }
        if !matched[j] && equal_at_level(&rows[bucket[j]].0, pivot, level) {
            matched.set(j, true);
            list.push(j);
        }
        proof {
            assert forall|i: int| 0 <= i < q + 1 implies matched[(#[trigger] sorted[i]) as int]
                == claimed_within(
                rows@,
                bucket@,
                level,
                pivots@,
                order@,
                t as int + 1,
                sorted[i],
            ) by {
                if i < q {
                    assert(sorted[i] != sorted[q as int]);
                    assert(matched[sorted[i] as int] == before[sorted[i] as int]);
                }
            }
            assert forall|i: int| q + 1 <= i < sorted.len() implies matched[(
            #[trigger] sorted[i]) as int] == claimed_within(
                rows@,
                bucket@,
                level,
                pivots@,
                order@,
                t as int,
                sorted[i],
            ) by {
                assert(sorted[q as int] != sorted[i]);
                assert(matched[sorted[i] as int] == before[sorted[i] as int]);
            }
        }
        q = q + 1;
    }
    proof {
        assert(sorted@.take(sorted.len() as int) =~= sorted@);
        assert forall|j: usize| j < bucket.len() implies matched[j as int] == claimed_within(
            rows@,
            bucket@,
            level,
            pivots@,
            order@,
            t as int + 1,
            j,
        ) by {
            assert(sorted@.contains(j));
            let i = choose|i: int| 0 <= i < sorted@.len() && sorted@[i] == j;
            assert(sorted[i] == j);
        }
    }
    list
}

/// For each pivot the rows that count as equal to it, and for each row whether
/// a pivot has claimed it. The pivots claim in the order that `order` names
/// them, each the rows that are still free.
fn claim_all<P: Point, V>(
    rows: &Vec<&(P, V)>,
    bucket: &Vec<usize>,
    level: usize,
    pivots: &Vec<P>,
    order: &Vec<usize>,
    sorted: &Vec<usize>,
) -> (r: (Vec<Vec<usize>>, Vec<bool>))
    requires
        bucket_in_rows(rows@, bucket@),
        holds_each_once(sorted@, 0, bucket.len() as int),
        is_permutation(order@),
        pivots.len() == order.len(),
    ensures
        r.0.len() == order.len(),
        forall|t: int|
            0 <= t < order.len() ==> (#[trigger] r.0[order[t] as int])@ == claimed_rows(
                rows@,
                bucket@,
                level,
                pivots@,
                order@,
                t,
                sorted@,
            ),
        r.1.len() == bucket.len(),
        forall|j: usize|
            j < bucket.len() ==> r.1[j as int] == claimed_within(
                rows@,
                bucket@,
                level,
                pivots@,
                order@,
                order.len() as int,
                j,
            ),
{
    let n = order.len();
    let len = bucket.len();
    let mut intersecting: Vec<Vec<usize>> = Vec::new();
    let mut i: usize = 0;
    while i < n
        invariant
            i <= n,
            intersecting.len() == i,
        decreases n - i,
    {
        intersecting.push(Vec::new());
        i = i + 1;
    }
    let mut matched: Vec<bool> = Vec::new();
    let mut j: usize = 0;
    while j < len
        invariant
            j <= len,
            matched.len() == j,
            forall|k: int| 0 <= k < j ==> !matched[k],
        decreases len - j,
    {
        matched.push(false);
        j = j + 1;
    }
    let mut t: usize = 0;
    while t < n
        invariant
            n == order.len(),
            len == bucket.len(),
            bucket_in_rows(rows@, bucket@),
            holds_each_once(sorted@, 0, bucket.len() as int),
            is_permutation(order@),
            pivots.len() == order.len(),
            t <= n,
            intersecting.len() == n,
            forall|u: int|
                0 <= u < t ==> (#[trigger] intersecting[order[u] as int])@ == claimed_rows(
                    rows@,
                    bucket@,
                    level,
                    pivots@,
                    order@,
                    u,
                    sorted@,
                ),
            matched.len() == len,
            forall|j: usize|
                j < len ==> matched[j as int] == claimed_within(
                    rows@,
                    bucket@,
                    level,
                    pivots@,
                    order@,
                    t as int,
                    j,
                ),
        decreases n - t,
    {
        let ghost before = intersecting@;
        let list = claim_for(rows, bucket, level, pivots, order, sorted, t, &mut matched);
        intersecting.set(order[t], list);
        proof {
            assert forall|u: int| 0 <= u < t + 1 implies (#[trigger] intersecting[order[u] as int])@
                == claimed_rows(rows@, bucket@, level, pivots@, order@, u, sorted@) by {
                if u < t {
                    assert(order[u] != order[t as int]);
                    assert(intersecting[order[u] as int] == before[order[u] as int]);
                }
            }
        }
        t = t + 1;
    }
    (intersecting, matched)
}

/// An inner node of the tree: pivots that split the rows of a bucket at one
/// level, the rows that meet a pivot, and a bucket for each child.
#[derive(Clone)]
pub struct Branch<'a, P, V> where P: Point, V: Value {
    /// Where the record of the branch begins in the tree file.
    pub offset: u64,
    /// The depth of the branch; it selects the dimension that is compared.
    pub level: usize,
    /// A child with at least this many rows becomes a branch.
    pub max_data_size: usize,
    /// The order in which the pivots claim rows and bound children.
    pub order: &'a Vec<usize>,
    /// The indices of the rows of the branch.
    pub bucket: Vec<usize>,
    /// For each child the positions, in `bucket`, of its rows.
    pub buckets: Vec<Vec<usize>>,
    /// All rows of the batch.
    pub rows: &'a Vec<&'a (P, V)>,
    /// The pivots, as many as `order` has entries.
    pub pivots: Vec<P>,
    /// The positions of `bucket` in sorted order.
    pub sorted: Vec<usize>,
    /// For each pivot the positions, in `bucket`, of the rows that it claimed.
    pub intersecting: Vec<Vec<usize>>,
    /// For each position of `bucket` whether a pivot claimed its row.
    pub matched: Vec<bool>,
}

impl<'a, P, V> Branch<'a, P, V> where P: Point, V: Value {
    /// Whether the branch is what `new` makes of its level, order, bucket and
    /// rows: the positions sorted, the pivots between the rows of their
    /// ranks, and each row that counts as equal to a pivot claimed by the
    /// first such pivot in `order`.
    pub open spec fn wf(&self) -> bool {
        &&& self.bucket@.len() >= 2
        &&& bucket_in_rows(self.rows@, self.bucket@)
        &&& is_permutation(self.order@)
        &&& self.sorted@ == sorted_positions(self.rows@, self.bucket@, self.level)
        &&& pivots_between(
            self.rows@,
            self.bucket@,
            self.sorted@,
            self.pivots@,
            self.order@.len() as int,
        )
        &&& self.matched@.len() == self.bucket@.len()
        &&& forall|j: usize|
            j < self.bucket@.len() ==> self.matched@[j as int] == claimed_within(
                self.rows@,
                self.bucket@,
                self.level,
                self.pivots@,
                self.order@,
                self.order@.len() as int,
                j,
            )
        &&& self.intersecting@.len() == self.order@.len()
        &&& forall|t: int|
            0 <= t < self.order@.len() ==> (#[trigger] self.intersecting@[self.order@[t] as int])@
                == claimed_rows(
                self.rows@,
                self.bucket@,
                self.level,
                self.pivots@,
                self.order@,
                t,
                self.sorted@,
            )
    }

    /// The branch over the rows of `bucket` at `level`: sorts the rows by the
    /// coordinate of the level, places a pivot at each quantile, and lets the
    /// pivots claim the rows that meet them. The children are not formed yet.
    pub fn new(
        level: usize,
        max_data_size: usize,
        order: &'a Vec<usize>,
        bucket: Vec<usize>,
        rows: &'a Vec<&'a (P, V)>,
    ) -> (r: Self)
        requires
            bucket.len() >= 2,
            bucket_in_rows(rows@, bucket@),
            is_permutation(order@),
        ensures
            r.wf(),
            r.offset == 0,
            r.level == level,
            r.max_data_size == max_data_size,
            r.order == order,
            r.bucket == bucket,
            r.rows == rows,
            r.buckets@.len() == 0,
    {
        let n = order.len();
        let sorted = sort_positions(rows, &bucket, level);
        let pivots = pivots_of(rows, &bucket, &sorted, n);
        let (intersecting, matched) = claim_all(rows, &bucket, level, &pivots, order, &sorted);
        Self {
            offset: 0,
            max_data_size,
            level,
            order,
            bucket,
            buckets: Vec::new(),
            rows,
            pivots,
            sorted,
            intersecting,
            matched,
        }
    }
}

/// The number of children that `n` pivots fill: half of `n + 1`, rounded up.
pub open spec fn fanout(n: int) -> int {
    n / 2 + 1
}

/// Whether the row at position `j` comes before the pivot that bounds child
/// `c`: the one that entry `c + fanout - 1` of `order` names.
pub open spec fn before_bound<P: Point, V>(
    rows: Seq<&(P, V)>,
    bucket: Seq<usize>,
    level: usize,
    pivots: Seq<P>,
    order: Seq<usize>,
    c: int,
    j: usize,
) -> bool {
    less_at(
        &row_point(rows, bucket, j as int),
        &pivots[order[c + fanout(order.len() as int) - 1] as int],
        level,
    )
}

/// The child that takes the row at position `j` when the row before it went
/// to child `c`: the first child from `c` on whose bound the row comes
/// before, and the last child that is filled if there is none.
pub open spec fn advance<P: Point, V>(
    rows: Seq<&(P, V)>,
    bucket: Seq<usize>,
    level: usize,
    pivots: Seq<P>,
    order: Seq<usize>,
    c: int,
    j: usize,
) -> int
    decreases fanout(order.len() as int) - 1 - c,
{
    if c < fanout(order.len() as int) - 1 && !before_bound(
        rows,
        bucket,
        level,
        pivots,
        order,
        c,
        j,
    ) {
        advance(rows, bucket, level, pivots, order, c + 1, j)
    } else {
        c
    }
}

/// The positions in `list` that no pivot has claimed, in the order of `list`.
pub open spec fn free_rows(matched: Seq<bool>, list: Seq<usize>) -> Seq<usize>
    decreases list.len(),
{
    if list.len() == 0 {
        Seq::empty()
    } else if !matched[list.last() as int] {
        free_rows(matched, list.drop_last()).push(list.last())
    } else {
        free_rows(matched, list.drop_last())
    }
}

/// The child that takes the last of the rows `free`, which are dealt out in
/// their order, beginning at the first child.
pub open spec fn slot_of<P: Point, V>(
    rows: Seq<&(P, V)>,
    bucket: Seq<usize>,
    level: usize,
    pivots: Seq<P>,
    order: Seq<usize>,
    free: Seq<usize>,
) -> int
    decreases free.len(),
{
    if free.len() == 0 {
        0
    } else {
        advance(
            rows,
            bucket,
            level,
            pivots,
            order,
            slot_of(rows, bucket, level, pivots, order, free.drop_last()),
            free.last(),
        )
    }
}

/// The rows among `free` that child `c` takes, in their order.
pub open spec fn child_rows<P: Point, V>(
    rows: Seq<&(P, V)>,
    bucket: Seq<usize>,
    level: usize,
    pivots: Seq<P>,
    order: Seq<usize>,
    free: Seq<usize>,
    c: int,
) -> Seq<usize>
    decreases free.len(),
{
    if free.len() == 0 {
        Seq::empty()
    } else if slot_of(rows, bucket, level, pivots, order, free) == c {
        child_rows(rows, bucket, level, pivots, order, free.drop_last(), c).push(free.last())
    } else {
        child_rows(rows, bucket, level, pivots, order, free.drop_last(), c)
    }
}

/// `advance` moves forward only, and not past the last child that is filled.
pub proof fn lemma_advance_bounds<P: Point, V>(
    rows: Seq<&(P, V)>,
    bucket: Seq<usize>,
    level: usize,
    pivots: Seq<P>,
    order: Seq<usize>,
    c: int,
    j: usize,
)
    requires
        0 <= c <= fanout(order.len() as int) - 1,
    ensures
        c <= advance(rows, bucket, level, pivots, order, c, j) <= fanout(order.len() as int) - 1,
        advance(rows, bucket, level, pivots, order, c, j) < fanout(order.len() as int) - 1
            ==> before_bound(
            rows,
            bucket,
            level,
            pivots,
            order,
            advance(rows, bucket, level, pivots, order, c, j),
            j,
        ),
    decreases fanout(order.len() as int) - 1 - c,
{
    if c < fanout(order.len() as int) - 1 && !before_bound(
        rows,
        bucket,
        level,
        pivots,
        order,
        c,
        j,
    ) {
        lemma_advance_bounds(rows, bucket, level, pivots, order, c + 1, j);
    }
}

/// Deals the free rows out to the children: walks them in sorted order and
/// moves on to the next child whenever a row does not come before the bound of
/// the current one.
fn partition<P: Point, V>(
    rows: &Vec<&(P, V)>,
    bucket: &Vec<usize>,
    level: usize,
    pivots: &Vec<P>,
    order: &Vec<usize>,
    sorted: &Vec<usize>,
    matched: &Vec<bool>,
) -> (buckets: Vec<Vec<usize>>)
    requires
        order.len() >= 1,
        bucket_in_rows(rows@, bucket@),
        holds_each_once(sorted@, 0, bucket.len() as int),
        is_permutation(order@),
        pivots.len() == order.len(),
        matched.len() == bucket.len(),
    ensures
        buckets.len() == order.len(),
        forall|c: int|
            0 <= c < order.len() ==> (#[trigger] buckets[c])@ == child_rows(
                rows@,
                bucket@,
                level,
                pivots@,
                order@,
                free_rows(matched@, sorted@),
                c,
            ),
{
    let n = order.len();
    let last = n / 2;
    let mut buckets: Vec<Vec<usize>> = Vec::new();
    let mut i: usize = 0;
    while i < n
        invariant
            i <= n,
            buckets.len() == i,
            forall|c: int| 0 <= c < i ==> (#[trigger] buckets[c])@ == Seq::<usize>::empty(),
        decreases n - i,
    {
        buckets.push(Vec::new());
        i = i + 1;
    }
    let mut slot: usize = 0;
    let mut q: usize = 0;
    proof {
        assert(sorted@.take(0) =~= Seq::<usize>::empty());
    }
    while q < sorted.len()
        invariant
            n == order.len(),
            n >= 1,
            last == fanout(n as int) - 1,
            bucket_in_rows(rows@, bucket@),
            holds_each_once(sorted@, 0, bucket.len() as int),
            is_permutation(order@),
            pivots.len() == order.len(),
            matched.len() == bucket.len(),
            q <= sorted.len(),
            slot <= last,
            slot == slot_of(
                rows@,
                bucket@,
                level,
                pivots@,
                order@,
                free_rows(matched@, sorted@.take(q as int)),
            ),
            buckets.len() == n,
            forall|c: int|
                0 <= c < n ==> (#[trigger] buckets[c])@ == child_rows(
                    rows@,
                    bucket@,
                    level,
                    pivots@,
                    order@,
                    free_rows(matched@, sorted@.take(q as int)),
                    c,
                ),
        decreases sorted.len() - q,
    {
        let j = sorted[q];
        let ghost seen = free_rows(matched@, sorted@.take(q as int));
        proof {
            let next = sorted@.take(q as int + 1);
            assert(next.drop_last() =~= sorted@.take(q as int));
            assert(next.last() == j);
        }
        if !matched[j] {
            let ghost start = slot;
            while slot < last && !less_at_level(
                &rows[bucket[j]].0,
                &pivots[order[slot + last]],
                level,
            )
                invariant
                    n == order.len(),
                    last == fanout(n as int) - 1,
                    bucket_in_rows(rows@, bucket@),
                    is_permutation(order@),
                    pivots.len() == order.len(),
                    j < bucket.len(),
                    start <= slot <= last,
                    advance(rows@, bucket@, level, pivots@, order@, slot as int, j) == advance(
                        rows@,
                        bucket@,
                        level,
                        pivots@,
                        order@,
                        start as int,
                        j,
                    ),
                decreases last - slot,
            {
                slot = slot + 1;
            }
            proof {
                let grown = seen.push(j);
                assert(grown.drop_last() =~= seen);
                assert(grown.last() == j);
                assert(free_rows(matched@, sorted@.take(q as int + 1)) == grown);
                assert(slot == slot_of(rows@, bucket@, level, pivots@, order@, grown));
            }
            let ghost before = buckets@;
            buckets[slot].push(j);
            proof {
                let grown = seen.push(j);
                assert forall|c: int| 0 <= c < n implies (#[trigger] buckets[c])@ == child_rows(
                    rows@,
                    bucket@,
                    level,
                    pivots@,
                    order@,
                    grown,
                    c,
                ) by {
                    if c != slot {
                        assert(buckets[c] == before[c]);
                    }
                }
            }
        }
        q = q + 1;
    }
    proof {
        assert(sorted@.take(sorted.len() as int) =~= sorted@);
    }
    buckets
}

/// The row indices that stand at the positions `list` of `bucket`.
pub open spec fn named_rows(bucket: Seq<usize>, list: Seq<usize>) -> Seq<usize> {
    Seq::new(list.len(), |k: int| bucket[list[k] as int])
}

/// Whether every list holds positions of a bucket of `len` rows, and no more
/// of them than `len`.
pub open spec fn lists_in_bucket(lists: Seq<Vec<usize>>, len: nat) -> bool {
    &&& forall|i: int| 0 <= i < lists.len() ==> (#[trigger] lists[i])@.len() <= len
    &&& forall|i: int, k: int|
        0 <= i < lists.len() && 0 <= k < lists[i]@.len() ==> (#[trigger] lists[i]@[k]) < len
}

/// The bytes of the pivots: of each the coordinate that `level` selects.
pub open spec fn pivots_bytes<P: Point>(pivots: Seq<P>, level: usize) -> Seq<u8>
    decreases pivots.len(),
{
    if pivots.len() == 0 {
        Seq::empty()
    } else {
        pivots_bytes(pivots.drop_last(), level) + pivots.last().encoding_at(
            level_axis(level, P::arity()),
        )
    }
}

/// The bytes of the lists of claimed rows: of each list the number of its
/// rows in four bytes, then the rows.
pub open spec fn lists_bytes<P: Point, V: Value>(
    rows: Seq<&(P, V)>,
    bucket: Seq<usize>,
    lists: Seq<Vec<usize>>,
) -> Seq<u8>
    decreases lists.len(),
{
    if lists.len() == 0 {
        Seq::empty()
    } else {
        lists_bytes(rows, bucket, lists.drop_last()) + le_bytes(lists.last()@.len() as int, 4)
            + rows_bytes(rows, named_rows(bucket, lists.last()@))
    }
}

/// The bytes of the offsets of the children, eight for each.
pub open spec fn offsets_bytes(offsets: Seq<u64>) -> Seq<u8>
    decreases offsets.len(),
{
    if offsets.len() == 0 {
        Seq::empty()
    } else {
        offsets_bytes(offsets.drop_last()) + le_bytes(offsets.last() as int, 8)
    }
}

/// The record of a branch: the tag, the pivots, the claimed rows, the offsets
/// of the children.
pub open spec fn branch_record<P: Point, V: Value>(
    rows: Seq<&(P, V)>,
    bucket: Seq<usize>,
    level: usize,
    pivots: Seq<P>,
    lists: Seq<Vec<usize>>,
    offsets: Seq<u64>,
) -> Seq<u8> {
    seq![BRANCH_TAG] + pivots_bytes(pivots, level) + lists_bytes(rows, bucket, lists)
        + offsets_bytes(offsets)
}

/// The offsets of the children take eight bytes each, whatever they are.
pub proof fn lemma_offsets_bytes_len(offsets: Seq<u64>)
    ensures
        offsets_bytes(offsets).len() == 8 * offsets.len(),
    decreases offsets.len(),
{
    if offsets.len() > 0 {
        lemma_offsets_bytes_len(offsets.drop_last());
        crate::codec::lemma_le_bytes_len(offsets.last() as int, 8);
    }
}

/// The rows that an entry of `order` claims among `list` are rows of `list`,
/// each of which it claims.
pub proof fn lemma_claimed_rows<P: Point, V>(
    rows: Seq<&(P, V)>,
    bucket: Seq<usize>,
    level: usize,
    pivots: Seq<P>,
    order: Seq<usize>,
    t: int,
    list: Seq<usize>,
)
    ensures
        claimed_rows(rows, bucket, level, pivots, order, t, list).len() <= list.len(),
        forall|k: int|
            0 <= k < claimed_rows(rows, bucket, level, pivots, order, t, list).len()
                ==> list.contains(
                #[trigger] claimed_rows(rows, bucket, level, pivots, order, t, list)[k],
            ) && claims(
                rows,
                bucket,
                level,
                pivots,
                order,
                t,
                claimed_rows(rows, bucket, level, pivots, order, t, list)[k],
            ),
    decreases list.len(),
{
    let all = claimed_rows(rows, bucket, level, pivots, order, t, list);
    if list.len() > 0 {
        let rest = claimed_rows(rows, bucket, level, pivots, order, t, list.drop_last());
        lemma_claimed_rows(rows, bucket, level, pivots, order, t, list.drop_last());
        assert forall|k: int| 0 <= k < all.len() implies list.contains(#[trigger] all[k])
            && claims(rows, bucket, level, pivots, order, t, all[k]) by {
            if k < rest.len() {
                assert(all[k] == rest[k]);
                let i = choose|i: int|
                    0 <= i < list.drop_last().len() && list.drop_last()[i] == rest[k];
                assert(list[i] == rest[k]);
            } else {
                assert(all[k] == list[list.len() - 1]);
            }
        }
    }
}

/// The free rows of `list` are rows of `list` that no pivot claimed.
pub proof fn lemma_free_rows(matched: Seq<bool>, list: Seq<usize>)
    ensures
        free_rows(matched, list).len() <= list.len(),
        forall|k: int|
            0 <= k < free_rows(matched, list).len() ==> list.contains(
                #[trigger] free_rows(matched, list)[k],
            ) && !matched[free_rows(matched, list)[k] as int],
    decreases list.len(),
{
    let all = free_rows(matched, list);
    if list.len() > 0 {
        let rest = free_rows(matched, list.drop_last());
        lemma_free_rows(matched, list.drop_last());
        assert forall|k: int| 0 <= k < all.len() implies list.contains(#[trigger] all[k])
            && !matched[all[k] as int] by {
            if k < rest.len() {
                assert(all[k] == rest[k]);
                let i = choose|i: int|
                    0 <= i < list.drop_last().len() && list.drop_last()[i] == rest[k];
                assert(list[i] == rest[k]);
            } else {
                assert(all[k] == list[list.len() - 1]);
            }
        }
    }
}

/// The rows that a child takes are among the rows dealt out.
pub proof fn lemma_child_rows<P: Point, V>(
    rows: Seq<&(P, V)>,
    bucket: Seq<usize>,
    level: usize,
    pivots: Seq<P>,
    order: Seq<usize>,
    free: Seq<usize>,
    c: int,
)
    ensures
        child_rows(rows, bucket, level, pivots, order, free, c).len() <= free.len(),
        forall|k: int|
            0 <= k < child_rows(rows, bucket, level, pivots, order, free, c).len()
                ==> free.contains(
                #[trigger] child_rows(rows, bucket, level, pivots, order, free, c)[k],
            ),
    decreases free.len(),
{
    let all = child_rows(rows, bucket, level, pivots, order, free, c);
    if free.len() > 0 {
        let rest = child_rows(rows, bucket, level, pivots, order, free.drop_last(), c);
        lemma_child_rows(rows, bucket, level, pivots, order, free.drop_last(), c);
        assert forall|k: int| 0 <= k < all.len() implies free.contains(#[trigger] all[k]) by {
            if k < rest.len() {
                assert(all[k] == rest[k]);
                let i = choose|i: int|
                    0 <= i < free.drop_last().len() && free.drop_last()[i] == rest[k];
                assert(free[i] == rest[k]);
            } else {
                assert(all[k] == free[free.len() - 1]);
            }
        }
    }
}

/// The row indices that stand at the positions `list` of `bucket`.
pub(crate) fn rows_at(bucket: &Vec<usize>, list: &Vec<usize>) -> (r: Vec<usize>)
    requires
        forall|k: int| 0 <= k < list.len() ==> (#[trigger] list[k]) < bucket.len(),
    ensures
        r@ == named_rows(bucket@, list@),
{
    let mut r: Vec<usize> = Vec::new();
    let mut k: usize = 0;
    while k < list.len()
        invariant
            forall|i: int| 0 <= i < list.len() ==> (#[trigger] list[i]) < bucket.len(),
            k <= list.len(),
            r.len() == k,
            forall|i: int| 0 <= i < k ==> r[i] == bucket[list[i] as int],
        decreases list.len() - k,
    {
        r.push(bucket[list[k]]);
        k = k + 1;
    }
    proof {
        assert(r@ =~= named_rows(bucket@, list@));
    }
    r
}

/// Appends to `out`, for each pivot, the bytes of the coordinate that `level`
/// selects.
fn write_pivots<P: Point>(out: &mut Vec<u8>, pivots: &Vec<P>, level: usize)
    ensures
        final(out)@ == old(out)@ + pivots_bytes(pivots@, level),
{
    let mut k: usize = 0;
    proof {
        assert(pivots@.take(0) =~= Seq::<P>::empty());
        assert(out@ =~= old(out)@ + pivots_bytes(pivots@.take(0), level));
    }
    while k < pivots.len()
        invariant
            k <= pivots.len(),
            out@ == old(out)@ + pivots_bytes(pivots@.take(k as int), level),
        decreases pivots.len() - k,
    {
        let mut coord = pivots[k].serialize_at(level).unwrap();
        proof {
            let next = pivots@.take(k as int + 1);
            assert(next.drop_last() =~= pivots@.take(k as int));
            assert(next.last() == pivots@[k as int]);
            assert(old(out)@ + pivots_bytes(pivots@.take(k as int), level) + coord@ =~= old(out)@
                + pivots_bytes(next, level));
        }
        out.append(&mut coord);
        k = k + 1;
    }
    proof {
        assert(pivots@.take(pivots.len() as int) =~= pivots@);
    }
}

/// Appends to `out`, for each list, the number of its rows and the rows.
fn write_lists<P: Point, V: Value>(
    out: &mut Vec<u8>,
    rows: &Vec<&(P, V)>,
    bucket: &Vec<usize>,
    lists: &Vec<Vec<usize>>,
)
    requires
        bucket_in_rows(rows@, bucket@),
        bucket.len() <= u32::MAX,
        lists_in_bucket(lists@, bucket@.len()),
    ensures
        final(out)@ == old(out)@ + lists_bytes(rows@, bucket@, lists@),
{
    let mut i: usize = 0;
    proof {
        assert(lists@.take(0) =~= Seq::<Vec<usize>>::empty());
        assert(out@ =~= old(out)@ + lists_bytes(rows@, bucket@, lists@.take(0)));
    }
    while i < lists.len()
        invariant
            bucket_in_rows(rows@, bucket@),
            bucket.len() <= u32::MAX,
            lists_in_bucket(lists@, bucket@.len()),
            i <= lists.len(),
            out@ == old(out)@ + lists_bytes(rows@, bucket@, lists@.take(i as int)),
        decreases lists.len() - i,
    {
        let list = &lists[i];
        proof {
            assert(forall|k: int|
                0 <= k < list@.len() ==> (#[trigger] lists@[i as int]@[k]) < bucket.len());
        }
        let named = rows_at(bucket, list);
        write_count(out, list.len());
        write_rows(out, rows, &named);
        proof {
            let next = lists@.take(i as int + 1);
            assert(next.drop_last() =~= lists@.take(i as int));
            assert(next.last() == lists@[i as int]);
            assert(out@ =~= old(out)@ + lists_bytes(rows@, bucket@, next));
        }
        i = i + 1;
    }
    proof {
        assert(lists@.take(lists.len() as int) =~= lists@);
    }
}

/// Appends to `out` the eight little-endian bytes of each offset.
fn write_offsets(out: &mut Vec<u8>, offsets: &Vec<u64>)
    ensures
        final(out)@ == old(out)@ + offsets_bytes(offsets@),
{
    let mut i: usize = 0;
    proof {
        assert(offsets@.take(0) =~= Seq::<u64>::empty());
        assert(out@ =~= old(out)@ + offsets_bytes(offsets@.take(0)));
    }
    while i < offsets.len()
        invariant
            i <= offsets.len(),
            out@ == old(out)@ + offsets_bytes(offsets@.take(i as int)),
        decreases offsets.len() - i,
    {
        let mut bytes = Scalar::encode(&offsets[i]).unwrap();
        proof {
            let next = offsets@.take(i as int + 1);
            assert(next.drop_last() =~= offsets@.take(i as int));
            assert(next.last() == offsets@[i as int]);
            assert(old(out)@ + offsets_bytes(offsets@.take(i as int)) + bytes@ =~= old(out)@
                + offsets_bytes(next));
        }
        out.append(&mut bytes);
        i = i + 1;
    }
    proof {
        assert(offsets@.take(offsets.len() as int) =~= offsets@);
    }
}

/// A node of the tree.
#[derive(Clone)]
pub enum Node<'a, P, V> where P: Point, V: Value {
    /// An inner node.
    Branch(Branch<'a, P, V>),
    /// A leaf.
    Data(Data<'a, P, V>),
}

impl<'a, P, V> Node<'a, P, V> where P: Point, V: Value {
    /// Where the record of the node begins in the tree file.
    pub open spec fn offset(&self) -> u64 {
        match self {
            Node::Branch(b) => b.offset,
            Node::Data(d) => d.offset,
        }
    }

    /// The indices of the rows of the node.
    pub open spec fn bucket(&self) -> Seq<usize> {
        match self {
            Node::Branch(b) => b.bucket@,
            Node::Data(d) => d.bucket@,
        }
    }

    /// All rows of the batch.
    pub open spec fn rows(&self) -> Seq<&'a (P, V)> {
        match self {
            Node::Branch(b) => b.rows@,
            Node::Data(d) => d.rows@,
        }
    }

    /// Whether the children of the node are still to be formed: so it is for
    /// a leaf, which has none, and for a branch without buckets.
    pub open spec fn fresh(&self) -> bool {
        match self {
            Node::Branch(b) => b.buckets@.len() == 0,
            Node::Data(_) => true,
        }
    }
}

/// Whether the offset of `node` is an answer of `alloc` to the number of bytes
/// of its record.
pub open spec fn placed_by<'a, P: Point, V: Value, F: FnMut(usize) -> u64>(
    alloc: F,
    node: Node<'a, P, V>,
) -> bool {
    forall|size: usize| size == node.size() ==> call_ensures(alloc, (size,), node.offset())
}

impl<'a, P, V> Bytes for Node<'a, P, V> where P: Point, V: Value {
    open spec fn measurable(&self) -> bool {
        match self {
            Node::Branch(b) => b.measurable(),
            Node::Data(d) => d.measurable(),
        }
    }

    open spec fn size(&self) -> nat {
        match self {
            Node::Branch(b) => b.size(),
            Node::Data(d) => d.size(),
        }
    }

    fn bytes(&self) -> (r: usize) {
        match self {
            Node::Branch(b) => b.bytes(),
            Node::Data(d) => d.bytes(),
        }
    }
}

impl<'a, P, V> Bytes for Branch<'a, P, V> where P: Point, V: Value {
    open spec fn measurable(&self) -> bool {
        self.wf() && self.bucket@.len() <= u32::MAX
    }

    open spec fn size(&self) -> nat {
        self.record(Seq::new(self.order@.len(), |k: int| 0u64)).len()
    }

    fn bytes(&self) -> (r: usize) {
        let n = self.order.len();
        let mut blank: Vec<u64> = Vec::new();
        let mut k: usize = 0;
        while k < n
            invariant
                k <= n,
                blank.len() == k,
                forall|i: int| 0 <= i < k ==> blank[i] == 0,
            decreases n - k,
        {
            blank.push(0);
            k = k + 1;
        }
        proof {
            assert(blank@ =~= Seq::new(self.order@.len(), |k: int| 0u64));
        }
        self.record_with(&blank).len()
    }
}

impl<'a, P, V> Branch<'a, P, V> where P: Point, V: Value {
    /// The record of the branch when its children stand at `offsets`.
    pub open spec fn record(&self, offsets: Seq<u64>) -> Seq<u8> {
        branch_record(
            self.rows@,
            self.bucket@,
            self.level,
            self.pivots@,
            self.intersecting@,
            offsets,
        )
    }

    /// The rows of child `c`, by their indices.
    pub open spec fn child_bucket(&self, c: int) -> Seq<usize> {
        named_rows(self.bucket@, self.buckets@[c]@)
    }

    /// Whether `buckets` deals the free rows out to the children: in sorted
    /// order, each row to the first child from that of the row before it on
    /// whose bound it comes before.
    pub open spec fn dealt(&self) -> bool {
        &&& self.buckets@.len() == self.order@.len()
        &&& forall|c: int|
            0 <= c < self.order@.len() ==> (#[trigger] self.buckets@[c])@ == child_rows(
                self.rows@,
                self.bucket@,
                self.level,
                self.pivots@,
                self.order@,
                free_rows(self.matched@, self.sorted@),
                c,
            )
    }

    /// Whether `node` is child `c`: a leaf with the rows of the child where
    /// these are fewer than `max_data_size`, otherwise the branch that `new`
    /// makes of them one level down.
    pub open spec fn is_child(&self, c: int, node: Node<'a, P, V>) -> bool {
        if self.child_bucket(c).len() < self.max_data_size {
            &&& node matches Node::Data(d)
            &&& d.bucket@ == self.child_bucket(c)
            &&& d.rows@ == self.rows@
        } else {
            &&& node matches Node::Branch(b)
            &&& b.wf()
            &&& b.level == self.level + 1
            &&& b.max_data_size == self.max_data_size
            &&& b.order@ == self.order@
            &&& b.bucket@ == self.child_bucket(c)
            &&& b.rows@ == self.rows@
        }
    }

    /// The lists of claimed rows hold positions of the bucket, and none holds
    /// more rows than the bucket.
    pub proof fn lemma_lists_in_bucket(&self)
        requires
            self.wf(),
        ensures
            lists_in_bucket(self.intersecting@, self.bucket@.len()),
    {
        let n = self.order@.len();
        assert(self.bucket@.len() == self.bucket.len());
        assert(self.order@.len() == self.order.len());
        lemma_sorted_range(self.rows@, self.bucket@, self.level, 0, self.bucket@.len() as int);
        assert forall|i: int| 0 <= i < self.intersecting@.len() implies (
        #[trigger] self.intersecting@[i])@.len() <= self.bucket@.len() && (forall|k: int|
            0 <= k < self.intersecting@[i]@.len() ==> (#[trigger] self.intersecting@[i]@[k])
                < self.bucket@.len()) by {
            assert(self.order@.contains(i as usize));
            let t = choose|t: int| 0 <= t < n && self.order@[t] == i as usize;
            assert(self.intersecting@[self.order@[t] as int]@ == claimed_rows(
                self.rows@,
                self.bucket@,
                self.level,
                self.pivots@,
                self.order@,
                t,
                self.sorted@,
            ));
            lemma_claimed_rows(
                self.rows@,
                self.bucket@,
                self.level,
                self.pivots@,
                self.order@,
                t,
                self.sorted@,
            );
            assert forall|k: int| 0 <= k < self.intersecting@[i]@.len() implies (
            #[trigger] self.intersecting@[i]@[k]) < self.bucket@.len() by {
                let j = self.intersecting@[i]@[k];
                assert(self.sorted@.contains(j));
            }
        }
    }

    /// The children's rows are positions of the bucket, and no child has more
    /// rows than the bucket.
    pub proof fn lemma_buckets_in_bucket(&self)
        requires
            self.wf(),
            self.dealt(),
        ensures
            lists_in_bucket(self.buckets@, self.bucket@.len()),
    {
        let free = free_rows(self.matched@, self.sorted@);
        assert(self.bucket@.len() == self.bucket.len());
        lemma_sorted_range(self.rows@, self.bucket@, self.level, 0, self.bucket@.len() as int);
        lemma_free_rows(self.matched@, self.sorted@);
        assert forall|c: int| 0 <= c < self.buckets@.len() implies (
        #[trigger] self.buckets@[c])@.len()
            <= self.bucket@.len() && (forall|k: int|
            0 <= k < self.buckets@[c]@.len() ==> (#[trigger] self.buckets@[c]@[k])
                < self.bucket@.len()) by {
            lemma_child_rows(
                self.rows@,
                self.bucket@,
                self.level,
                self.pivots@,
                self.order@,
                free,
                c,
            );
            assert forall|k: int| 0 <= k < self.buckets@[c]@.len() implies (
            #[trigger] self.buckets@[c]@[k]) < self.bucket@.len() by {
                let j = self.buckets@[c]@[k];
                assert(free.contains(j));
                let i = choose|i: int| 0 <= i < free.len() && free[i] == j;
                assert(self.sorted@.contains(free[i]));
            }
        }
    }

    /// The record of a branch has as many bytes as its size says, wherever
    /// its children stand.
    pub proof fn lemma_record_len(&self, offsets: Seq<u64>)
        requires
            offsets.len() == self.order@.len(),
        ensures
            self.record(offsets).len() == self.size(),
    {
        lemma_offsets_bytes_len(offsets);
        lemma_offsets_bytes_len(Seq::new(self.order@.len(), |k: int| 0u64));
    }

    /// The record of the branch when its children stand at `offsets`.
    pub fn record_with(&self, offsets: &Vec<u64>) -> (r: Vec<u8>)
        requires
            self.measurable(),
        ensures
            r@ == self.record(offsets@),
    {
        proof {
            self.lemma_lists_in_bucket();
        }
        let mut out: Vec<u8> = Vec::new();
        out.push(BRANCH_TAG);
        write_pivots(&mut out, &self.pivots, self.level);
        write_lists(&mut out, self.rows, &self.bucket, &self.intersecting);
        write_offsets(&mut out, offsets);
        proof {
            assert(out@ =~= self.record(offsets@));
        }
        out
    }

    /// Reserves the bytes of the record: asks `alloc` for as many bytes as the
    /// record has and keeps the offset that it answers.
    pub fn allocate<F: FnMut(usize) -> u64>(&mut self, alloc: &mut F)
        requires
            old(self).measurable(),
            forall|size: usize| size == old(self).size() ==> call_requires(*old(alloc), (size,)),
        ensures
            forall|size: usize|
                size == old(self).size() ==> call_ensures(
                    *old(alloc),
                    (size,),
                    final(self).offset,
                ),
            *final(alloc) == *old(alloc),
            *final(self) == (Branch { offset: final(self).offset, ..*old(self) }),
    {
        let size = self.bytes();
        self.offset = alloc(size);
    }
}

impl<'a, P, V> Branch<'a, P, V> where P: Point, V: Value {
    /// Forms the children. The free rows are dealt out to the buckets of the
    /// children; each bucket becomes a leaf, or a branch one level down where
    /// it has `max_data_size` rows or more; each child gets its offset from
    /// `alloc`, in the order of the children. Returns the record of this
    /// branch, which names these offsets, and the children.
    pub fn build<F: FnMut(usize) -> u64>(&mut self, alloc: &mut F) -> (r: (
        Vec<u8>,
        Vec<Node<'a, P, V>>,
    ))
        requires
            old(self).wf(),
            old(self).order@.len() >= 1,
            old(self).max_data_size >= 2,
            old(self).level < usize::MAX,
            old(self).bucket@.len() <= u32::MAX,
            forall|size: usize| call_requires(*old(alloc), (size,)),
        ensures
            *final(self) == (Branch { buckets: final(self).buckets, ..*old(self) }),
            final(self).dealt(),
            *final(alloc) == *old(alloc),
            r.1@.len() == final(self).order@.len(),
            forall|c: int|
                0 <= c < r.1@.len() ==> final(self).is_child(c, #[trigger] r.1@[c])
                    && r.1@[c].fresh() && placed_by(*old(alloc), r.1@[c]),
            r.0@ == final(self).record(Seq::new(r.1@.len(), |c: int| r.1@[c].offset())),
            r.0@.len() == final(self).size(),
    {
        proof {
            assert(self.bucket@.len() == self.bucket.len());
            lemma_sorted_range(self.rows@, self.bucket@, self.level, 0, self.bucket@.len() as int);
        }
        self.buckets = partition(
            self.rows,
            &self.bucket,
            self.level,
            &self.pivots,
            self.order,
            &self.sorted,
            &self.matched,
        );
        proof {
            self.lemma_buckets_in_bucket();
        }
        let n = self.order.len();
        let mut nodes: Vec<Node<'a, P, V>> = Vec::new();
        let mut offsets: Vec<u64> = Vec::new();
        let mut c: usize = 0;
        while c < n
            invariant
                n == self.order@.len(),
                self.wf(),
                self.dealt(),
                self.max_data_size >= 2,
                self.level < usize::MAX,
                self.bucket@.len() <= u32::MAX,
                lists_in_bucket(self.buckets@, self.bucket@.len()),
                forall|size: usize| call_requires(*alloc, (size,)),
                *alloc == *old(alloc),
                *self == (Branch { buckets: self.buckets, ..*old(self) }),
                c <= n,
                nodes.len() == c,
                offsets.len() == c,
                forall|k: int|
                    0 <= k < c ==> self.is_child(k, #[trigger] nodes@[k]) && nodes@[k].fresh()
                        && placed_by(*old(alloc), nodes@[k]) && offsets@[k] == nodes@[k].offset(),
            decreases n - c,
        {
            let bucket = rows_at(&self.bucket, &self.buckets[c]);
            if bucket.len() < self.max_data_size {
                let mut leaf = Data::new(bucket, self.rows);
                leaf.allocate(alloc);
                offsets.push(leaf.offset);
                nodes.push(Node::Data(leaf));
            } else {
                let mut branch = Branch::new(
                    self.level + 1,
                    self.max_data_size,
                    self.order,
                    bucket,
                    self.rows,
                );
                branch.allocate(alloc);
                offsets.push(branch.offset);
                nodes.push(Node::Branch(branch));
            }
            c = c + 1;
        }
        proof {
            assert(offsets@ =~= Seq::new(nodes@.len(), |c: int| nodes@[c].offset()));
        }
        proof {
            self.lemma_record_len(offsets@);
        }
        let data = self.record_with(&offsets);
        (data, nodes)
    }
}

/// Whether `order` names each of the numbers below its length once.
pub fn is_order(order: &Vec<usize>) -> (r: bool)
    ensures
        r == is_permutation(order@),
{
    let n = order.len();
    let mut v: usize = 0;
    while v < n
        invariant
            n == order.len(),
            v <= n,
            forall|w: usize| w < v ==> order@.contains(w),
        decreases n - v,
    {
        let mut t: usize = 0;
        let mut seen = false;
        while t < n
            invariant
                n == order.len(),
                t <= n,
                seen ==> order@.contains(v),
                !seen ==> forall|u: int| 0 <= u < t ==> order@[u] != v,
            decreases n - t,
        {
            if order[t] == v {
                seen = true;
            }
            t = t + 1;
        }
        if !seen {
            proof {
                assert(!order@.contains(v));
            }
            return false;
        }
        v = v + 1;
    }
    let mut t: usize = 0;
    while t < n
        invariant
            n == order.len(),
            t <= n,
            forall|w: usize| w < n ==> order@.contains(w),
            forall|u: int| 0 <= u < t ==> (#[trigger] order@[u]) < n,
            forall|a: int, b: int| 0 <= a < b < t ==> order@[a] != order@[b],
        decreases n - t,
    {
        if order[t] >= n {
            return false;
        }
        let mut u: usize = 0;
        while u < t
            invariant
                n == order.len(),
                t < n,
                u <= t,
                forall|a: int| 0 <= a < u ==> order@[a] != order@[t as int],
            decreases t - u,
        {
            if order[u] == order[t] {
                return false;
            }
            u = u + 1;
        }
        t = t + 1;
    }
    true
}

/// Whether every entry of `bucket` is the index of a row.
pub fn names_rows<P, V>(rows: &Vec<&(P, V)>, bucket: &Vec<usize>) -> (r: bool)
    ensures
        r == bucket_in_rows(rows@, bucket@),
{
    let mut i: usize = 0;
    while i < bucket.len()
        invariant
            i <= bucket.len(),
            forall|k: int| 0 <= k < i ==> (#[trigger] bucket@[k]) < rows.len(),
        decreases bucket.len() - i,
    {
        if bucket[i] >= rows.len() {
            return false;
        }
        i = i + 1;
    }
    true
}

} // verus!
