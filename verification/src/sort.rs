//! Ordering the rows of a bucket at a tree level.
//!
//! The order of two points at a level is not transitive where coordinates
//! are intervals, so "sorted" cannot mean more than that no row comes after
//! its successor. The order produced here is that of a top-down merge sort,
//! which is fixed by `sorted_range`.

use vstd::prelude::*;
use crate::point::{Point, greater_at, greater_at_level};

verus! {

/// Whether every entry of `bucket` is the index of a row.
pub open spec fn bucket_in_rows<P, V>(rows: Seq<&(P, V)>, bucket: Seq<usize>) -> bool {
    forall|i: int| 0 <= i < bucket.len() ==> (#[trigger] bucket[i]) < rows.len()
}

/// The point of the row at position `j` of `bucket`.
pub open spec fn row_point<P, V>(rows: Seq<&(P, V)>, bucket: Seq<usize>, j: int) -> P {
    rows[bucket[j] as int].0
}

/// Whether the row at position `a` of `bucket` comes after the one at
/// position `b`.
pub open spec fn comes_after<P: Point, V>(
    rows: Seq<&(P, V)>,
    bucket: Seq<usize>,
    level: usize,
    a: usize,
    b: usize,
) -> bool {
    greater_at(&row_point(rows, bucket, a as int), &row_point(rows, bucket, b as int), level)
}

/// Two runs of positions merged into one: the head of the right run goes
/// first only where the head of the left run comes after it.
pub open spec fn merged<P: Point, V>(
    rows: Seq<&(P, V)>,
    bucket: Seq<usize>,
    level: usize,
    left: Seq<usize>,
    right: Seq<usize>,
) -> Seq<usize>
    decreases left.len() + right.len(),
{
    if left.len() == 0 {
        right
    } else if right.len() == 0 {
        left
    } else if comes_after(rows, bucket, level, left[0], right[0]) {
        seq![right[0]] + merged(rows, bucket, level, left, right.skip(1))
    } else {
        seq![left[0]] + merged(rows, bucket, level, left.skip(1), right)
    }
}

/// The positions `lo..hi` of `bucket` in sorted order: each half sorted, then
/// the two merged.
pub open spec fn sorted_range<P: Point, V>(
    rows: Seq<&(P, V)>,
    bucket: Seq<usize>,
    level: usize,
    lo: int,
    hi: int,
) -> Seq<usize>
    decreases hi - lo,
{
    if hi - lo <= 0 {
        Seq::empty()
    } else if hi - lo == 1 {
        seq![lo as usize]
    } else {
        merged(
            rows,
            bucket,
            level,
            sorted_range(rows, bucket, level, lo, lo + (hi - lo) / 2),
            sorted_range(rows, bucket, level, lo + (hi - lo) / 2, hi),
        )
    }
}

/// All positions of `bucket` in sorted order.
pub open spec fn sorted_positions<P: Point, V>(
    rows: Seq<&(P, V)>,
    bucket: Seq<usize>,
    level: usize,
) -> Seq<usize> {
    sorted_range(rows, bucket, level, 0, bucket.len() as int)
}

/// Whether `s` holds each of the numbers `lo..hi` once and nothing else.
pub open spec fn holds_each_once(s: Seq<usize>, lo: int, hi: int) -> bool {
    &&& s.len() == hi - lo
    &&& forall|i: int| 0 <= i < s.len() ==> lo <= (#[trigger] s[i]) < hi
    &&& forall|i: int, j: int| 0 <= i < j < s.len() ==> s[i] != s[j]
    &&& forall|v: usize| lo <= v < hi ==> s.contains(v)
}

/// Whether no position in `s` comes after its successor.
pub open spec fn ascending<P: Point, V>(
    rows: Seq<&(P, V)>,
    bucket: Seq<usize>,
    level: usize,
    s: Seq<usize>,
) -> bool {
    forall|i: int|
        0 <= i < s.len() - 1 ==> !comes_after(rows, bucket, level, #[trigger] s[i], s[i + 1])
}

/// A merge keeps every entry of both runs, adds none, and begins with the
/// head of one of them.
pub proof fn lemma_merged_entries<P: Point, V>(
    rows: Seq<&(P, V)>,
    bucket: Seq<usize>,
    level: usize,
    left: Seq<usize>,
    right: Seq<usize>,
)
    ensures
        merged(rows, bucket, level, left, right).len() == left.len() + right.len(),
        forall|i: int|
            0 <= i < left.len() ==> merged(rows, bucket, level, left, right).contains(
                #[trigger] left[i],
            ),
        forall|i: int|
            0 <= i < right.len() ==> merged(rows, bucket, level, left, right).contains(
                #[trigger] right[i],
            ),
        forall|k: int|
            0 <= k < merged(rows, bucket, level, left, right).len() ==> left.contains(
                #[trigger] merged(rows, bucket, level, left, right)[k],
            ) || right.contains(merged(rows, bucket, level, left, right)[k]),
        left.len() + right.len() > 0 ==> (left.len() > 0 && merged(
            rows,
            bucket,
            level,
            left,
            right,
        )[0] == left[0]) || (right.len() > 0 && merged(rows, bucket, level, left, right)[0]
            == right[0]),
    decreases left.len() + right.len(),
{
    let m = merged(rows, bucket, level, left, right);
    if left.len() == 0 {
        assert forall|i: int| 0 <= i < right.len() implies m.contains(#[trigger] right[i]) by {
            assert(m[i] == right[i]);
        }
        assert forall|k: int| 0 <= k < m.len() implies left.contains(#[trigger] m[k])
            || right.contains(m[k]) by {
            assert(right[k] == m[k]);
        }
    } else if right.len() == 0 {
        assert forall|i: int| 0 <= i < left.len() implies m.contains(#[trigger] left[i]) by {
            assert(m[i] == left[i]);
        }
        assert forall|k: int| 0 <= k < m.len() implies left.contains(#[trigger] m[k])
            || right.contains(m[k]) by {
            assert(left[k] == m[k]);
        }
    } else if comes_after(rows, bucket, level, left[0], right[0]) {
        let rest = merged(rows, bucket, level, left, right.skip(1));
        lemma_merged_entries(rows, bucket, level, left, right.skip(1));
        assert(m == seq![right[0]] + rest);
        assert forall|i: int| 0 <= i < left.len() implies m.contains(#[trigger] left[i]) by {
            assert(rest.contains(left[i]));
            let k = choose|k: int| 0 <= k < rest.len() && rest[k] == left[i];
            assert(m[k + 1] == left[i]);
        }
        assert forall|i: int| 0 <= i < right.len() implies m.contains(#[trigger] right[i]) by {
            if i == 0 {
                assert(m[0] == right[0]);
            } else {
                assert(right.skip(1)[i - 1] == right[i]);
                assert(rest.contains(right[i]));
                let k = choose|k: int| 0 <= k < rest.len() && rest[k] == right[i];
                assert(m[k + 1] == right[i]);
            }
        }
        assert forall|k: int| 0 <= k < m.len() implies left.contains(#[trigger] m[k])
            || right.contains(m[k]) by {
            if k == 0 {
                assert(right[0] == m[0]);
            } else {
                assert(m[k] == rest[k - 1]);
                if !left.contains(rest[k - 1]) {
                    assert(right.skip(1).contains(rest[k - 1]));
                    let q = choose|q: int|
                        0 <= q < right.skip(1).len() && right.skip(1)[q] == rest[k - 1];
                    assert(right[q + 1] == m[k]);
                }
            }
        }
    } else {
        let rest = merged(rows, bucket, level, left.skip(1), right);
        lemma_merged_entries(rows, bucket, level, left.skip(1), right);
        assert(m == seq![left[0]] + rest);
        assert forall|i: int| 0 <= i < right.len() implies m.contains(#[trigger] right[i]) by {
            assert(rest.contains(right[i]));
            let k = choose|k: int| 0 <= k < rest.len() && rest[k] == right[i];
            assert(m[k + 1] == right[i]);
        }
        assert forall|i: int| 0 <= i < left.len() implies m.contains(#[trigger] left[i]) by {
            if i == 0 {
                assert(m[0] == left[0]);
            } else {
                assert(left.skip(1)[i - 1] == left[i]);
                assert(rest.contains(left[i]));
                let k = choose|k: int| 0 <= k < rest.len() && rest[k] == left[i];
                assert(m[k + 1] == left[i]);
            }
        }
        assert forall|k: int| 0 <= k < m.len() implies left.contains(#[trigger] m[k])
            || right.contains(m[k]) by {
            if k == 0 {
                assert(left[0] == m[0]);
            } else {
                assert(m[k] == rest[k - 1]);
                if !right.contains(rest[k - 1]) {
                    assert(left.skip(1).contains(rest[k - 1]));
                    let q = choose|q: int|
                        0 <= q < left.skip(1).len() && left.skip(1)[q] == rest[k - 1];
                    assert(left[q + 1] == m[k]);
                }
            }
        }
    }
}

/// A merge of two runs that share no entry and repeat none repeats none.
pub proof fn lemma_merged_distinct<P: Point, V>(
    rows: Seq<&(P, V)>,
    bucket: Seq<usize>,
    level: usize,
    left: Seq<usize>,
    right: Seq<usize>,
)
    requires
        left.no_duplicates(),
        right.no_duplicates(),
        forall|i: int, j: int| 0 <= i < left.len() && 0 <= j < right.len() ==> left[i] != right[j],
    ensures
        merged(rows, bucket, level, left, right).no_duplicates(),
    decreases left.len() + right.len(),
{
    let m = merged(rows, bucket, level, left, right);
    if left.len() == 0 || right.len() == 0 {
    } else if comes_after(rows, bucket, level, left[0], right[0]) {
        let tail = right.skip(1);
        let rest = merged(rows, bucket, level, left, tail);
        lemma_merged_distinct(rows, bucket, level, left, tail);
        lemma_merged_entries(rows, bucket, level, left, tail);
        assert(m == seq![right[0]] + rest);
        assert forall|i: int, j: int| 0 <= i < m.len() && 0 <= j < m.len() && i != j implies m[i]
            != m[j] by {
            if i == 0 || j == 0 {
                let k = if i == 0 { j } else { i };
                assert(m[k] == rest[k - 1]);
                if left.contains(rest[k - 1]) {
                } else {
                    assert(tail.contains(rest[k - 1]));
                    let q = choose|q: int| 0 <= q < tail.len() && tail[q] == rest[k - 1];
                    assert(right[q + 1] == rest[k - 1]);
                }
            } else {
                assert(m[i] == rest[i - 1] && m[j] == rest[j - 1]);
            }
        }
    } else {
        let tail = left.skip(1);
        let rest = merged(rows, bucket, level, tail, right);
        lemma_merged_distinct(rows, bucket, level, tail, right);
        lemma_merged_entries(rows, bucket, level, tail, right);
        assert(m == seq![left[0]] + rest);
        assert forall|i: int, j: int| 0 <= i < m.len() && 0 <= j < m.len() && i != j implies m[i]
            != m[j] by {
            if i == 0 || j == 0 {
                let k = if i == 0 { j } else { i };
                assert(m[k] == rest[k - 1]);
                if right.contains(rest[k - 1]) {
                } else {
                    assert(tail.contains(rest[k - 1]));
                    let q = choose|q: int| 0 <= q < tail.len() && tail[q] == rest[k - 1];
                    assert(left[q + 1] == rest[k - 1]);
                }
            } else {
                assert(m[i] == rest[i - 1] && m[j] == rest[j - 1]);
            }
        }
    }
}

/// A merge of two ascending runs is ascending.
pub proof fn lemma_merged_ascending<P: Point, V>(
    rows: Seq<&(P, V)>,
    bucket: Seq<usize>,
    level: usize,
    left: Seq<usize>,
    right: Seq<usize>,
)
    requires
        ascending(rows, bucket, level, left),
        ascending(rows, bucket, level, right),
    ensures
        ascending(rows, bucket, level, merged(rows, bucket, level, left, right)),
    decreases left.len() + right.len(),
{
    let m = merged(rows, bucket, level, left, right);
    if left.len() == 0 || right.len() == 0 {
    } else if comes_after(rows, bucket, level, left[0], right[0]) {
        let tail = right.skip(1);
        let rest = merged(rows, bucket, level, left, tail);
        assert forall|i: int| 0 <= i < tail.len() - 1 implies !comes_after(
            rows,
            bucket,
            level,
            #[trigger] tail[i],
            tail[i + 1],
        ) by {
            assert(tail[i] == right[i + 1] && tail[i + 1] == right[i + 1 + 1]);
        }
        lemma_merged_ascending(rows, bucket, level, left, tail);
        lemma_merged_entries(rows, bucket, level, left, tail);
        assert(m == seq![right[0]] + rest);
        assert forall|i: int| 0 <= i < m.len() - 1 implies !comes_after(
            rows,
            bucket,
            level,
            #[trigger] m[i],
            m[i + 1],
        ) by {
            if i == 0 {
                assert(m[1] == rest[0]);
                if tail.len() > 0 && rest[0] == tail[0] {
                    assert(tail[0] == right[1]);
                }
            } else {
                assert(m[i] == rest[i - 1] && m[i + 1] == rest[i - 1 + 1]);
            }
        }
    } else {
        let tail = left.skip(1);
        let rest = merged(rows, bucket, level, tail, right);
        assert forall|i: int| 0 <= i < tail.len() - 1 implies !comes_after(
            rows,
            bucket,
            level,
            #[trigger] tail[i],
            tail[i + 1],
        ) by {
            assert(tail[i] == left[i + 1] && tail[i + 1] == left[i + 1 + 1]);
        }
        lemma_merged_ascending(rows, bucket, level, tail, right);
        lemma_merged_entries(rows, bucket, level, tail, right);
        assert(m == seq![left[0]] + rest);
        assert forall|i: int| 0 <= i < m.len() - 1 implies !comes_after(
            rows,
            bucket,
            level,
            #[trigger] m[i],
            m[i + 1],
        ) by {
            if i == 0 {
                assert(m[1] == rest[0]);
                if tail.len() > 0 && rest[0] == tail[0] {
                    assert(tail[0] == left[1]);
                }
            } else {
                assert(m[i] == rest[i - 1] && m[i + 1] == rest[i - 1 + 1]);
            }
        }
    }
}

/// A merge of a run that holds `lo..mid` once each and a run that holds
/// `mid..hi` once each holds `lo..hi` once each.
pub proof fn lemma_merged_holds<P: Point, V>(
    rows: Seq<&(P, V)>,
    bucket: Seq<usize>,
    level: usize,
    left: Seq<usize>,
    right: Seq<usize>,
    lo: int,
    mid: int,
    hi: int,
)
    requires
        lo <= mid <= hi,
        holds_each_once(left, lo, mid),
        holds_each_once(right, mid, hi),
    ensures
        holds_each_once(merged(rows, bucket, level, left, right), lo, hi),
{
    let s = merged(rows, bucket, level, left, right);
    lemma_merged_entries(rows, bucket, level, left, right);
    assert(left.no_duplicates());
    assert(right.no_duplicates());
    lemma_merged_distinct(rows, bucket, level, left, right);
    assert forall|i: int| 0 <= i < s.len() implies lo <= (#[trigger] s[i]) < hi by {
        if left.contains(s[i]) {
            let k = choose|k: int| 0 <= k < left.len() && left[k] == s[i];
            assert(lo <= left[k] < mid);
        } else {
            assert(right.contains(s[i]));
            let k = choose|k: int| 0 <= k < right.len() && right[k] == s[i];
            assert(mid <= right[k] < hi);
        }
    }
    assert forall|v: usize| lo <= v < hi implies s.contains(v) by {
        if v < mid {
            assert(left.contains(v));
            let k = choose|k: int| 0 <= k < left.len() && left[k] == v;
            assert(s.contains(left[k]));
        } else {
            assert(right.contains(v));
            let k = choose|k: int| 0 <= k < right.len() && right[k] == v;
            assert(s.contains(right[k]));
        }
    }
    assert forall|i: int, j: int| 0 <= i < j < s.len() implies s[i] != s[j] by {
    }
}

/// The sorted order of `lo..hi` holds each of these positions once, and no
/// position in it comes after its successor.
pub proof fn lemma_sorted_range<P: Point, V>(
    rows: Seq<&(P, V)>,
    bucket: Seq<usize>,
    level: usize,
    lo: int,
    hi: int,
)
    requires
        0 <= lo <= hi <= usize::MAX,
    ensures
        holds_each_once(sorted_range(rows, bucket, level, lo, hi), lo, hi),
        ascending(rows, bucket, level, sorted_range(rows, bucket, level, lo, hi)),
    decreases hi - lo,
{
    let s = sorted_range(rows, bucket, level, lo, hi);
    if hi - lo <= 0 {
    } else if hi - lo == 1 {
        assert(s[0] == lo);
        assert forall|v: usize| lo <= v < hi implies s.contains(v) by {
            assert(s[0] == v);
        }
    } else {
        let mid = lo + (hi - lo) / 2;
        let left = sorted_range(rows, bucket, level, lo, mid);
        let right = sorted_range(rows, bucket, level, mid, hi);
        lemma_sorted_range(rows, bucket, level, lo, mid);
        lemma_sorted_range(rows, bucket, level, mid, hi);
        lemma_merged_holds(rows, bucket, level, left, right, lo, mid, hi);
        lemma_merged_ascending(rows, bucket, level, left, right);
    }
}

/// Whether the row at position `a` of `bucket` comes after the one at
/// position `b`.
fn position_after<P: Point, V>(
    rows: &Vec<&(P, V)>,
    bucket: &Vec<usize>,
    level: usize,
    a: usize,
    b: usize,
) -> (r: bool)
    requires
        bucket_in_rows(rows@, bucket@),
        a < bucket.len(),
        b < bucket.len(),
    ensures
        r == comes_after(rows@, bucket@, level, a, b),
{
    greater_at_level(&rows[bucket[a]].0, &rows[bucket[b]].0, level)
}

/// Merges two runs of positions of `bucket`.
fn merge<P: Point, V>(
    rows: &Vec<&(P, V)>,
    bucket: &Vec<usize>,
    level: usize,
    left: &Vec<usize>,
    right: &Vec<usize>,
) -> (out: Vec<usize>)
    requires
        bucket_in_rows(rows@, bucket@),
        forall|i: int| 0 <= i < left.len() ==> (#[trigger] left[i]) < bucket.len(),
        forall|i: int| 0 <= i < right.len() ==> (#[trigger] right[i]) < bucket.len(),
    ensures
        out@ == merged(rows@, bucket@, level, left@, right@),
{
    let mut out: Vec<usize> = Vec::new();
    let mut i: usize = 0;
    let mut j: usize = 0;
    proof {
        assert(left@.skip(0) =~= left@);
        assert(right@.skip(0) =~= right@);
        assert(out@ + merged(rows@, bucket@, level, left@, right@) =~= merged(
            rows@,
            bucket@,
            level,
            left@,
            right@,
        ));
    }
    while i < left.len() || j < right.len()
        invariant
            bucket_in_rows(rows@, bucket@),
            forall|k: int| 0 <= k < left.len() ==> (#[trigger] left[k]) < bucket.len(),
            forall|k: int| 0 <= k < right.len() ==> (#[trigger] right[k]) < bucket.len(),
            i <= left.len(),
            j <= right.len(),
            out@ + merged(rows@, bucket@, level, left@.skip(i as int), right@.skip(j as int))
                == merged(rows@, bucket@, level, left@, right@),
        decreases left.len() - i + right.len() - j,
    {
        let ghost rest_left = left@.skip(i as int);
        let ghost rest_right = right@.skip(j as int);
        let ghost before = merged(rows@, bucket@, level, rest_left, rest_right);
        let take_right = if i == left.len() {
            true
        } else if j == right.len() {
            false
        } else {
            position_after(rows, bucket, level, left[i], right[j])
        };
        if take_right {
            out.push(right[j]);
            j = j + 1;
            proof {
                assert(rest_right.skip(1) =~= right@.skip(j as int));
                let after = merged(rows@, bucket@, level, rest_left, right@.skip(j as int));
                assert(before =~= seq![right@[j - 1]] + after);
                assert(out@ + after =~= out@.drop_last() + before);
            }
        } else {
            out.push(left[i]);
            i = i + 1;
            proof {
                assert(rest_left.skip(1) =~= left@.skip(i as int));
                let after = merged(rows@, bucket@, level, left@.skip(i as int), rest_right);
                assert(before =~= seq![left@[i - 1]] + after);
                assert(out@ + after =~= out@.drop_last() + before);
            }
        }
    }
    proof {
        assert(out@ + Seq::<usize>::empty() =~= out@);
    }
    out
}

/// Sorts the positions `lo..hi` of `bucket`.
fn sort_range<P: Point, V>(
    rows: &Vec<&(P, V)>,
    bucket: &Vec<usize>,
    level: usize,
    lo: usize,
    hi: usize,
) -> (out: Vec<usize>)
    requires
        bucket_in_rows(rows@, bucket@),
        lo <= hi <= bucket.len(),
    ensures
        out@ == sorted_range(rows@, bucket@, level, lo as int, hi as int),
    decreases hi - lo,
{
    if hi - lo == 0 {
        Vec::new()
    } else if hi - lo == 1 {
        let mut out: Vec<usize> = Vec::new();
        out.push(lo);
        proof {
            assert(out@ =~= seq![lo]);
        }
        out
    } else {
        let mid = lo + (hi - lo) / 2;
        let left = sort_range(rows, bucket, level, lo, mid);
        let right = sort_range(rows, bucket, level, mid, hi);
        proof {
            lemma_sorted_range(rows@, bucket@, level, lo as int, mid as int);
            lemma_sorted_range(rows@, bucket@, level, mid as int, hi as int);
        }
        merge(rows, bucket, level, &left, &right)
    }
}

/// The positions of `bucket` ordered by the points of their rows at `level`.
pub fn sort_positions<P: Point, V>(rows: &Vec<&(P, V)>, bucket: &Vec<usize>, level: usize) -> (out:
    Vec<usize>)
    requires
        bucket_in_rows(rows@, bucket@),
    ensures
        out@ == sorted_positions(rows@, bucket@, level),
        holds_each_once(out@, 0, bucket.len() as int),
        ascending(rows@, bucket@, level, out@),
{
    proof {
        lemma_sorted_range(rows@, bucket@, level, 0, bucket.len() as int);
    }
    sort_range(rows, bucket, level, 0, bucket.len())
}

} // verus!
