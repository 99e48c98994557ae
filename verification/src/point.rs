//! Scalars, coordinates and points.
//!
//! A scalar is a primitive integer. A coordinate is a scalar or an interval
//! of two scalars, and is modelled by its extent: a lower and an upper end,
//! which coincide for a scalar. A point is a tuple of two or three
//! coordinates; a bounding box gives it, per dimension, a lowest and a highest
//! scalar.

use vstd::prelude::*;
use std::cmp::Ordering;
use crate::codec::{
    EncodeError, le_bytes, serialize_i16, serialize_i32, serialize_i64, serialize_i8,
    serialize_u16, serialize_u32, serialize_u64, serialize_u8,
};

verus! {

/// The mean of `a` and `b`, rounded towards zero.
pub open spec fn half_sum(a: int, b: int) -> int {
    if a + b >= 0 {
        (a + b) / 2
    } else {
        -((-(a + b)) / 2)
    }
}

/// The two comparisons by which two extents are tested for overlap: each
/// begins no later than the other ends. Of two extents that are not empty it
/// holds exactly where they have a number in common.
pub open spec fn overlap_test(a_lo: int, a_hi: int, b_lo: int, b_hi: int) -> bool {
    a_lo <= b_hi && b_lo <= a_hi
}

/// Whether the first extent counts as equal to the second: they pass the
/// overlap test, or their lower ends coincide.
pub open spec fn extent_equal(a_lo: int, a_hi: int, b_lo: int, b_hi: int) -> bool {
    overlap_test(a_lo, a_hi, b_lo, b_hi) || a_lo == b_lo
}

/// Whether the first extent comes before the second: they do not pass the
/// overlap test and the first begins lower.
pub open spec fn extent_less(a_lo: int, a_hi: int, b_lo: int, b_hi: int) -> bool {
    !overlap_test(a_lo, a_hi, b_lo, b_hi) && a_lo < b_lo
}

/// Whether the extent from `lo` to `hi` overlaps the window from `min` to
/// `max`: it is not empty and passes the overlap test against the window. An
/// empty extent, one with `lo > hi`, overlaps nothing.
pub open spec fn overlaps_window(lo: int, hi: int, min: int, max: int) -> bool {
    lo <= hi && overlap_test(lo, hi, min, max)
}

/// A primitive number with a fixed-width little-endian encoding.
pub trait Scalar: Copy + Sized {
    /// The integer that the scalar holds.
    spec fn value(&self) -> int;

    /// The number of bytes of its encoding.
    spec fn width() -> nat;

    /// A scalar is no more than its value.
    proof fn lemma_value_decides(a: Self, b: Self)
        ensures
            a.value() == b.value() ==> a == b,
    ;

    /// Whether `self` is smaller than `other`.
    fn less_than(&self, other: &Self) -> (r: bool)
        ensures
            r == (self.value() < other.value()),
    ;

    /// Whether `self` is not greater than `other`.
    fn at_most(&self, other: &Self) -> (r: bool)
        ensures
            r == (self.value() <= other.value()),
    ;

    /// The mean of two scalars, rounded towards zero. The sum is taken in a
    /// wider type, so no pair of scalars overflows.
    fn mean(&self, other: &Self) -> (r: Self)
        ensures
            r.value() == half_sum(self.value(), other.value()),
    ;

    /// The little-endian bytes of the scalar.
    fn encode(&self) -> (r: Result<Vec<u8>, EncodeError>)
        ensures
            r is Ok,
            r.unwrap()@ == le_bytes(self.value(), Self::width()),
    ;
}

/// What a coordinate is made of: every scalar is one.
pub trait Num<T>: Scalar {
}

impl<T: Scalar> Num<T> for T {
}

impl Scalar for u8 {
    open spec fn value(&self) -> int {
        *self as int
    }

    open spec fn width() -> nat {
        1
    }

    proof fn lemma_value_decides(a: Self, b: Self) {
    }

    fn less_than(&self, other: &Self) -> (r: bool) {
        *self < *other
    }

    fn at_most(&self, other: &Self) -> (r: bool) {
        *self <= *other
    }

    fn mean(&self, other: &Self) -> (r: Self) {
        let sum: u16 = *self as u16 + *other as u16;
        (sum / 2) as u8
    }

    fn encode(&self) -> (r: Result<Vec<u8>, EncodeError>) {
        assert(self.value() == *self as int && Self::width() == 1);
        match serialize_u8(*self) {
            Ok(bytes) => Ok(bytes),
            Err(e) => Err(EncodeError::Codec(e)),
        }
    }
}

impl Scalar for u16 {
    open spec fn value(&self) -> int {
        *self as int
    }

    open spec fn width() -> nat {
        2
    }

    proof fn lemma_value_decides(a: Self, b: Self) {
    }

    fn less_than(&self, other: &Self) -> (r: bool) {
        *self < *other
    }

    fn at_most(&self, other: &Self) -> (r: bool) {
        *self <= *other
    }

    fn mean(&self, other: &Self) -> (r: Self) {
        let sum: u32 = *self as u32 + *other as u32;
        (sum / 2) as u16
    }

    fn encode(&self) -> (r: Result<Vec<u8>, EncodeError>) {
        assert(self.value() == *self as int && Self::width() == 2);
        match serialize_u16(*self) {
            Ok(bytes) => Ok(bytes),
            Err(e) => Err(EncodeError::Codec(e)),
        }
    }
}

impl Scalar for u32 {
    open spec fn value(&self) -> int {
        *self as int
    }

    open spec fn width() -> nat {
        4
    }

    proof fn lemma_value_decides(a: Self, b: Self) {
    }

    fn less_than(&self, other: &Self) -> (r: bool) {
        *self < *other
    }

    fn at_most(&self, other: &Self) -> (r: bool) {
        *self <= *other
    }

    fn mean(&self, other: &Self) -> (r: Self) {
        let sum: u64 = *self as u64 + *other as u64;
        (sum / 2) as u32
    }

    fn encode(&self) -> (r: Result<Vec<u8>, EncodeError>) {
        assert(self.value() == *self as int && Self::width() == 4);
        match serialize_u32(*self) {
            Ok(bytes) => Ok(bytes),
            Err(e) => Err(EncodeError::Codec(e)),
        }
    }
}

impl Scalar for u64 {
    open spec fn value(&self) -> int {
        *self as int
    }

    open spec fn width() -> nat {
        8
    }

    proof fn lemma_value_decides(a: Self, b: Self) {
    }

    fn less_than(&self, other: &Self) -> (r: bool) {
        *self < *other
    }

    fn at_most(&self, other: &Self) -> (r: bool) {
        *self <= *other
    }

    fn mean(&self, other: &Self) -> (r: Self) {
        let sum: u128 = *self as u128 + *other as u128;
        (sum / 2) as u64
    }

    fn encode(&self) -> (r: Result<Vec<u8>, EncodeError>) {
        assert(self.value() == *self as int && Self::width() == 8);
        match serialize_u64(*self) {
            Ok(bytes) => Ok(bytes),
            Err(e) => Err(EncodeError::Codec(e)),
        }
    }
}

impl Scalar for i8 {
    open spec fn value(&self) -> int {
        *self as int
    }

    open spec fn width() -> nat {
        1
    }

    proof fn lemma_value_decides(a: Self, b: Self) {
    }

    fn less_than(&self, other: &Self) -> (r: bool) {
        *self < *other
    }

    fn at_most(&self, other: &Self) -> (r: bool) {
        *self <= *other
    }

    fn mean(&self, other: &Self) -> (r: Self) {
        let sum: i16 = *self as i16 + *other as i16;
        (sum / 2) as i8
    }

    fn encode(&self) -> (r: Result<Vec<u8>, EncodeError>) {
        assert(self.value() == *self as int && Self::width() == 1);
        match serialize_i8(*self) {
            Ok(bytes) => Ok(bytes),
            Err(e) => Err(EncodeError::Codec(e)),
        }
    }
}

impl Scalar for i16 {
    open spec fn value(&self) -> int {
        *self as int
    }

    open spec fn width() -> nat {
        2
    }

    proof fn lemma_value_decides(a: Self, b: Self) {
    }

    fn less_than(&self, other: &Self) -> (r: bool) {
        *self < *other
    }

    fn at_most(&self, other: &Self) -> (r: bool) {
        *self <= *other
    }

    fn mean(&self, other: &Self) -> (r: Self) {
        let sum: i32 = *self as i32 + *other as i32;
        (sum / 2) as i16
    }

    fn encode(&self) -> (r: Result<Vec<u8>, EncodeError>) {
        assert(self.value() == *self as int && Self::width() == 2);
        match serialize_i16(*self) {
            Ok(bytes) => Ok(bytes),
            Err(e) => Err(EncodeError::Codec(e)),
        }
    }
}

impl Scalar for i32 {
    open spec fn value(&self) -> int {
        *self as int
    }

    open spec fn width() -> nat {
        4
    }

    proof fn lemma_value_decides(a: Self, b: Self) {
    }

    fn less_than(&self, other: &Self) -> (r: bool) {
        *self < *other
    }

    fn at_most(&self, other: &Self) -> (r: bool) {
        *self <= *other
    }

    fn mean(&self, other: &Self) -> (r: Self) {
        let sum: i64 = *self as i64 + *other as i64;
        (sum / 2) as i32
    }

    fn encode(&self) -> (r: Result<Vec<u8>, EncodeError>) {
        assert(self.value() == *self as int && Self::width() == 4);
        match serialize_i32(*self) {
            Ok(bytes) => Ok(bytes),
            Err(e) => Err(EncodeError::Codec(e)),
        }
    }
}

impl Scalar for i64 {
    open spec fn value(&self) -> int {
        *self as int
    }

    open spec fn width() -> nat {
        8
    }

    proof fn lemma_value_decides(a: Self, b: Self) {
    }

    fn less_than(&self, other: &Self) -> (r: bool) {
        *self < *other
    }

    fn at_most(&self, other: &Self) -> (r: bool) {
        *self <= *other
    }

    fn mean(&self, other: &Self) -> (r: Self) {
        let sum: i128 = *self as i128 + *other as i128;
        (sum / 2) as i64
    }

    fn encode(&self) -> (r: Result<Vec<u8>, EncodeError>) {
        assert(self.value() == *self as int && Self::width() == 8);
        match serialize_i64(*self) {
            Ok(bytes) => Ok(bytes),
            Err(e) => Err(EncodeError::Codec(e)),
        }
    }
}

/// Whether the scalar `pt` lies in `[min, max]`.
pub fn overlap_pt<T: Scalar>(pt: &T, min: &T, max: &T) -> (r: bool)
    ensures
        r == (min.value() <= pt.value() && pt.value() <= max.value()),
{
    min.at_most(pt) && pt.at_most(max)
}

/// Whether the interval `iv` overlaps `[min, max]`: it is not empty, begins no
/// later than `max` and ends no earlier than `min`. An empty interval
/// overlaps nothing.
pub fn overlap_iv<T: Scalar>(iv: &(T, T), min: &T, max: &T) -> (r: bool)
    ensures
        r == (iv.0.value() <= iv.1.value() && iv.0.value() <= max.value() && min.value()
            <= iv.1.value()),
{
    iv.0.at_most(&iv.1) && iv.0.at_most(max) && min.at_most(&iv.1)
}

/// One dimension of a point: a scalar, or an interval of two scalars.
pub trait Coord: Sized {
    /// The scalar that bounds this coordinate in a bounding box.
    type Edge: Scalar;

    /// The lower end of the extent.
    spec fn lower(&self) -> int;

    /// The upper end of the extent.
    spec fn upper(&self) -> int;

    /// The bytes that stand for the coordinate.
    spec fn ends_bytes(&self) -> Seq<u8>;

    /// A coordinate is no more than its extent.
    proof fn lemma_extent_decides(a: Self, b: Self)
        ensures
            a.lower() == b.lower() && a.upper() == b.upper() ==> a == b,
    ;

    /// Orders two coordinates: `Equal` where their extents meet, otherwise by
    /// their lower ends.
    fn compare(&self, other: &Self) -> (r: Ordering)
        ensures
            (r == Ordering::Equal) == extent_equal(
                self.lower(),
                self.upper(),
                other.lower(),
                other.upper(),
            ),
            (r == Ordering::Less) == extent_less(
                self.lower(),
                self.upper(),
                other.lower(),
                other.upper(),
            ),
    ;

    /// The coordinate whose two ends are the mean of the upper ends of `self`
    /// and `other`.
    fn upper_mean(&self, other: &Self) -> (r: Self)
        ensures
            r.lower() == half_sum(self.upper(), other.upper()),
            r.upper() == r.lower(),
    ;

    /// Whether the coordinate overlaps `[min, max]`: its extent is not empty
    /// and passes the overlap test against the window.
    fn meets(&self, min: &Self::Edge, max: &Self::Edge) -> (r: bool)
        ensures
            r == overlaps_window(self.lower(), self.upper(), min.value(), max.value()),
    ;

    /// Whether the coordinate begins above `edge`.
    fn above(&self, edge: &Self::Edge) -> (r: bool)
        ensures
            r == (edge.value() < self.lower()),
    ;

    /// The bytes of the coordinate.
    fn encode_ends(&self) -> (r: Result<Vec<u8>, EncodeError>)
        ensures
            r is Ok,
            r.unwrap()@ == self.ends_bytes(),
    ;
}

impl<A: Num<A>> Coord for A {
    type Edge = A;

    open spec fn lower(&self) -> int {
        self.value()
    }

    open spec fn upper(&self) -> int {
        self.value()
    }

    open spec fn ends_bytes(&self) -> Seq<u8> {
        le_bytes(self.value(), A::width())
    }

    proof fn lemma_extent_decides(a: Self, b: Self) {
        A::lemma_value_decides(a, b);
    }

    fn compare(&self, other: &Self) -> (r: Ordering) {
        if self.less_than(other) {
            Ordering::Less
        } else if other.less_than(self) {
            Ordering::Greater
        } else {
            Ordering::Equal
        }
    }

    fn upper_mean(&self, other: &Self) -> (r: Self) {
        self.mean(other)
    }

    fn meets(&self, min: &A, max: &A) -> (r: bool) {
        overlap_pt(self, min, max)
    }

    fn above(&self, edge: &A) -> (r: bool) {
        edge.less_than(self)
    }

    fn encode_ends(&self) -> (r: Result<Vec<u8>, EncodeError>) {
        Scalar::encode(self)
    }
}

impl<A: Num<A>> Coord for (A, A) {
    type Edge = A;

    open spec fn lower(&self) -> int {
        self.0.value()
    }

    open spec fn upper(&self) -> int {
        self.1.value()
    }

    open spec fn ends_bytes(&self) -> Seq<u8> {
        le_bytes(self.0.value(), A::width()) + le_bytes(self.1.value(), A::width())
    }

    proof fn lemma_extent_decides(a: Self, b: Self) {
        A::lemma_value_decides(a.0, b.0);
        A::lemma_value_decides(a.1, b.1);
    }

    fn compare(&self, other: &Self) -> (r: Ordering) {
        if self.0.at_most(&other.1) && other.0.at_most(&self.1) {
            Ordering::Equal
        } else if self.0.less_than(&other.0) {
            Ordering::Less
        } else if other.0.less_than(&self.0) {
            Ordering::Greater
        } else {
            Ordering::Equal
        }
    }

    fn upper_mean(&self, other: &Self) -> (r: Self) {
        let mid = self.1.mean(&other.1);
        (mid, mid)
    }

    fn meets(&self, min: &A, max: &A) -> (r: bool) {
        overlap_iv(self, min, max)
    }

    fn above(&self, edge: &A) -> (r: bool) {
        edge.less_than(&self.0)
    }

    fn encode_ends(&self) -> (r: Result<Vec<u8>, EncodeError>) {
        let mut bytes = match Scalar::encode(&self.0) {
            Ok(lower) => lower,
            Err(e) => { return Err(e); },
        };
        let mut upper = match Scalar::encode(&self.1) {
            Ok(upper) => upper,
            Err(e) => { return Err(e); },
        };
        bytes.append(&mut upper);
        Ok(bytes)
    }
}

/// The dimension that `level` selects among `arity` of them.
pub open spec fn level_axis(level: usize, arity: nat) -> int {
    (level as int) % (arity as int)
}

/// A point of two or three coordinates.
pub trait Point: Sized {
    /// A lowest and a highest corner, with one scalar per dimension each.
    type BBox;

    /// The number of coordinates.
    spec fn arity() -> nat;

    /// The lower end of the coordinate in dimension `d`.
    spec fn lo(&self, d: int) -> int;

    /// The upper end of the coordinate in dimension `d`.
    spec fn hi(&self, d: int) -> int;

    /// The bytes of the coordinate in dimension `d`.
    spec fn encoding_at(&self, d: int) -> Seq<u8>;

    /// The lowest scalar of `bbox` in dimension `d`.
    spec fn bbox_lo(bbox: &Self::BBox, d: int) -> int;

    /// The highest scalar of `bbox` in dimension `d`.
    spec fn bbox_hi(bbox: &Self::BBox, d: int) -> int;

    /// A point has two or three dimensions.
    proof fn lemma_arity()
        ensures
            Self::arity() == 2 || Self::arity() == 3,
    ;

    /// A point is no more than the extents of its coordinates.
    proof fn lemma_extents_decide(a: Self, b: Self)
        ensures
            (forall|d: int| 0 <= d < Self::arity() ==> a.lo(d) == b.lo(d) && a.hi(d) == b.hi(d))
                ==> a == b,
    ;

    /// Orders two points by the coordinate of the dimension that `level`
    /// selects: `Equal` where the two extents meet, otherwise by their lower
    /// ends.
    fn cmp_at(&self, other: &Self, level: usize) -> (r: Ordering)
        ensures
            (r == Ordering::Equal) == extent_equal(
                self.lo(level_axis(level, Self::arity())),
                self.hi(level_axis(level, Self::arity())),
                other.lo(level_axis(level, Self::arity())),
                other.hi(level_axis(level, Self::arity())),
            ),
            (r == Ordering::Less) == extent_less(
                self.lo(level_axis(level, Self::arity())),
                self.hi(level_axis(level, Self::arity())),
                other.lo(level_axis(level, Self::arity())),
                other.hi(level_axis(level, Self::arity())),
            ),
    ;

    /// The pivot between two points: in every dimension both ends are the
    /// mean of the two upper ends, rounded towards zero.
    fn midpoint_upper(&self, other: &Self) -> (r: Self)
        ensures
            forall|d: int|
                0 <= d < Self::arity() ==> #[trigger] r.lo(d) == half_sum(self.hi(d), other.hi(d))
                    && r.hi(d) == r.lo(d),
    ;

    /// The bytes of the one coordinate that `level` selects.
    fn serialize_at(&self, level: usize) -> (r: Result<Vec<u8>, EncodeError>)
        ensures
            r is Ok,
            r.unwrap()@ == self.encoding_at(level_axis(level, Self::arity())),
    ;

    /// The number of coordinates.
    fn dim(&self) -> (r: usize)
        ensures
            r == Self::arity(),
    ;

    /// Whether the point overlaps `bbox`: in every dimension its coordinate
    /// overlaps the window of the box. A point with an empty interval
    /// overlaps no box.
    fn overlaps(&self, bbox: &Self::BBox) -> (r: bool)
        ensures
            r == (forall|d: int|
                0 <= d < Self::arity() ==> overlaps_window(
                    #[trigger] self.lo(d),
                    self.hi(d),
                    Self::bbox_lo(bbox, d),
                    Self::bbox_hi(bbox, d),
                )),
    ;

    /// Whether the coordinate that `level` selects overlaps the window of
    /// `bbox` in its dimension.
    fn overlaps_at(&self, bbox: &Self::BBox, level: usize) -> (r: bool)
        ensures
            r == overlaps_window(
                self.lo(level_axis(level, Self::arity())),
                self.hi(level_axis(level, Self::arity())),
                Self::bbox_lo(bbox, level_axis(level, Self::arity())),
                Self::bbox_hi(bbox, level_axis(level, Self::arity())),
            ),
    ;

    /// Whether, in the dimension that `level` selects, the point begins above
    /// the lowest scalar of `bbox`.
    fn above_at(&self, bbox: &Self::BBox, level: usize) -> (r: bool)
        ensures
            r == (Self::bbox_lo(bbox, level_axis(level, Self::arity())) < self.lo(
                level_axis(level, Self::arity()),
            )),
    ;
}

/// The dimension that a tree level compares: the level modulo the arity.
pub open spec fn axis<P: Point>(level: usize) -> int {
    level_axis(level, P::arity())
}

/// Whether `a` counts as equal to `b` at `level`.
pub open spec fn equal_at<P: Point>(a: &P, b: &P, level: usize) -> bool {
    extent_equal(
        a.lo(axis::<P>(level)),
        a.hi(axis::<P>(level)),
        b.lo(axis::<P>(level)),
        b.hi(axis::<P>(level)),
    )
}

/// Whether `a` comes before `b` at `level`.
pub open spec fn less_at<P: Point>(a: &P, b: &P, level: usize) -> bool {
    extent_less(
        a.lo(axis::<P>(level)),
        a.hi(axis::<P>(level)),
        b.lo(axis::<P>(level)),
        b.hi(axis::<P>(level)),
    )
}

/// Whether `a` comes after `b` at `level`.
pub open spec fn greater_at<P: Point>(a: &P, b: &P, level: usize) -> bool {
    !equal_at(a, b, level) && !less_at(a, b, level)
}

/// Whether `m` is the pivot between `a` and `b`.
pub open spec fn is_midpoint_upper<P: Point>(m: &P, a: &P, b: &P) -> bool {
    forall|d: int|
        0 <= d < P::arity() ==> #[trigger] m.lo(d) == half_sum(a.hi(d), b.hi(d)) && m.hi(d)
            == m.lo(d)
}

/// Whether the coordinate of `p` that `level` selects overlaps the window of
/// `bbox` in its dimension.
pub open spec fn meets_bbox_at<P: Point>(p: &P, bbox: &P::BBox, level: usize) -> bool {
    overlaps_window(
        p.lo(axis::<P>(level)),
        p.hi(axis::<P>(level)),
        P::bbox_lo(bbox, axis::<P>(level)),
        P::bbox_hi(bbox, axis::<P>(level)),
    )
}

/// Whether, in the dimension that `level` selects, `p` begins above the
/// lowest scalar of `bbox`.
pub open spec fn begins_above<P: Point>(p: &P, bbox: &P::BBox, level: usize) -> bool {
    P::bbox_lo(bbox, axis::<P>(level)) < p.lo(axis::<P>(level))
}

/// Whether `p` overlaps `bbox`: in every dimension its coordinate overlaps
/// the window of the box.
pub open spec fn overlaps_bbox<P: Point>(p: &P, bbox: &P::BBox) -> bool {
    forall|d: int|
        0 <= d < P::arity() ==> overlaps_window(
            #[trigger] p.lo(d),
            p.hi(d),
            P::bbox_lo(bbox, d),
            P::bbox_hi(bbox, d),
        )
}

/// A point with an empty interval in some dimension overlaps no box.
pub proof fn lemma_empty_overlaps_nothing<P: Point>(p: &P, bbox: &P::BBox, d: int)
    requires
        0 <= d < P::arity(),
        p.lo(d) > p.hi(d),
    ensures
        !overlaps_bbox(p, bbox),
{
    assert(!overlaps_window(p.lo(d), p.hi(d), P::bbox_lo(bbox, d), P::bbox_hi(bbox, d)));
}

impl<X: Coord, Y: Coord> Point for (X, Y) {
    type BBox = ((X::Edge, Y::Edge), (X::Edge, Y::Edge));

    open spec fn arity() -> nat {
        2
    }

    open spec fn lo(&self, d: int) -> int {
        if d == 0 {
            self.0.lower()
        } else {
            self.1.lower()
        }
    }

    open spec fn hi(&self, d: int) -> int {
        if d == 0 {
            self.0.upper()
        } else {
            self.1.upper()
        }
    }

    open spec fn encoding_at(&self, d: int) -> Seq<u8> {
        if d == 0 {
            self.0.ends_bytes()
        } else {
            self.1.ends_bytes()
        }
    }

    open spec fn bbox_lo(bbox: &Self::BBox, d: int) -> int {
        if d == 0 {
            bbox.0.0.value()
        } else {
            bbox.0.1.value()
        }
    }

    open spec fn bbox_hi(bbox: &Self::BBox, d: int) -> int {
        if d == 0 {
            bbox.1.0.value()
        } else {
            bbox.1.1.value()
        }
    }

    proof fn lemma_arity() {
    }

    proof fn lemma_extents_decide(a: Self, b: Self) {
        if forall|d: int| 0 <= d < Self::arity() ==> a.lo(d) == b.lo(d) && a.hi(d) == b.hi(d) {
            assert(a.lo(0) == b.lo(0) && a.hi(0) == b.hi(0));
            assert(a.lo(1) == b.lo(1) && a.hi(1) == b.hi(1));
            X::lemma_extent_decides(a.0, b.0);
            Y::lemma_extent_decides(a.1, b.1);
        }
    }

    fn cmp_at(&self, other: &Self, level: usize) -> (r: Ordering) {
        if level % 2 == 0 {
            self.0.compare(&other.0)
        } else {
            self.1.compare(&other.1)
        }
    }

    fn midpoint_upper(&self, other: &Self) -> (r: Self) {
        let a = self.0.upper_mean(&other.0);
        let b = self.1.upper_mean(&other.1);
        (a, b)
    }

    fn serialize_at(&self, level: usize) -> (r: Result<Vec<u8>, EncodeError>) {
        if level % 2 == 0 {
            self.0.encode_ends()
        } else {
            self.1.encode_ends()
        }
    }

    fn dim(&self) -> (r: usize) {
        2
    }

    fn overlaps_at(&self, bbox: &Self::BBox, level: usize) -> (r: bool) {
        if level % 2 == 0 {
            self.0.meets(&bbox.0.0, &bbox.1.0)
        } else {
            self.1.meets(&bbox.0.1, &bbox.1.1)
        }
    }

    fn above_at(&self, bbox: &Self::BBox, level: usize) -> (r: bool) {
        if level % 2 == 0 {
            self.0.above(&bbox.0.0)
        } else {
            self.1.above(&bbox.0.1)
        }
    }

    fn overlaps(&self, bbox: &Self::BBox) -> (r: bool)
        ensures
            r == (overlaps_window(
                self.0.lower(),
                self.0.upper(),
                bbox.0.0.value(),
                bbox.1.0.value(),
            ) && overlaps_window(
                self.1.lower(),
                self.1.upper(),
                bbox.0.1.value(),
                bbox.1.1.value(),
            )),
    {
        let r = self.0.meets(&bbox.0.0, &bbox.1.0) && self.1.meets(&bbox.0.1, &bbox.1.1);
        proof {
            if !r {
                assert(!overlaps_window(
                    self.lo(0),
                    self.hi(0),
                    Self::bbox_lo(bbox, 0),
                    Self::bbox_hi(bbox, 0),
                ) || !overlaps_window(
                    self.lo(1),
                    self.hi(1),
                    Self::bbox_lo(bbox, 1),
                    Self::bbox_hi(bbox, 1),
                ));
            }
        }
        r
    }
}

impl<X: Coord, Y: Coord, Z: Coord> Point for (X, Y, Z) {
    type BBox = ((X::Edge, Y::Edge, Z::Edge), (X::Edge, Y::Edge, Z::Edge));

    open spec fn arity() -> nat {
        3
    }

    open spec fn lo(&self, d: int) -> int {
        if d == 0 {
            self.0.lower()
        } else if d == 1 {
            self.1.lower()
        } else {
            self.2.lower()
        }
    }

    open spec fn hi(&self, d: int) -> int {
        if d == 0 {
            self.0.upper()
        } else if d == 1 {
            self.1.upper()
        } else {
            self.2.upper()
        }
    }

    open spec fn encoding_at(&self, d: int) -> Seq<u8> {
        if d == 0 {
            self.0.ends_bytes()
        } else if d == 1 {
            self.1.ends_bytes()
        } else {
            self.2.ends_bytes()
        }
    }

    open spec fn bbox_lo(bbox: &Self::BBox, d: int) -> int {
        if d == 0 {
            bbox.0.0.value()
        } else if d == 1 {
            bbox.0.1.value()
        } else {
            bbox.0.2.value()
        }
    }

    open spec fn bbox_hi(bbox: &Self::BBox, d: int) -> int {
        if d == 0 {
            bbox.1.0.value()
        } else if d == 1 {
            bbox.1.1.value()
        } else {
            bbox.1.2.value()
        }
    }

    proof fn lemma_arity() {
    }

    proof fn lemma_extents_decide(a: Self, b: Self) {
        if forall|d: int| 0 <= d < Self::arity() ==> a.lo(d) == b.lo(d) && a.hi(d) == b.hi(d) {
            assert(a.lo(0) == b.lo(0) && a.hi(0) == b.hi(0));
            assert(a.lo(1) == b.lo(1) && a.hi(1) == b.hi(1));
            assert(a.lo(2) == b.lo(2) && a.hi(2) == b.hi(2));
            X::lemma_extent_decides(a.0, b.0);
            Y::lemma_extent_decides(a.1, b.1);
            Z::lemma_extent_decides(a.2, b.2);
        }
    }

    fn cmp_at(&self, other: &Self, level: usize) -> (r: Ordering) {
        if level % 3 == 0 {
            self.0.compare(&other.0)
        } else if level % 3 == 1 {
            self.1.compare(&other.1)
        } else {
            self.2.compare(&other.2)
        }
    }

    fn midpoint_upper(&self, other: &Self) -> (r: Self) {
        let a = self.0.upper_mean(&other.0);
        let b = self.1.upper_mean(&other.1);
        let c = self.2.upper_mean(&other.2);
        (a, b, c)
    }

    fn serialize_at(&self, level: usize) -> (r: Result<Vec<u8>, EncodeError>) {
        if level % 3 == 0 {
            self.0.encode_ends()
        } else if level % 3 == 1 {
            self.1.encode_ends()
        } else {
            self.2.encode_ends()
        }
    }

    fn dim(&self) -> (r: usize) {
        3
    }

    fn overlaps_at(&self, bbox: &Self::BBox, level: usize) -> (r: bool) {
        if level % 3 == 0 {
            self.0.meets(&bbox.0.0, &bbox.1.0)
        } else if level % 3 == 1 {
            self.1.meets(&bbox.0.1, &bbox.1.1)
        } else {
            self.2.meets(&bbox.0.2, &bbox.1.2)
        }
    }

    fn above_at(&self, bbox: &Self::BBox, level: usize) -> (r: bool) {
        if level % 3 == 0 {
            self.0.above(&bbox.0.0)
        } else if level % 3 == 1 {
            self.1.above(&bbox.0.1)
        } else {
            self.2.above(&bbox.0.2)
        }
    }

    fn overlaps(&self, bbox: &Self::BBox) -> (r: bool)
        ensures
            r == (overlaps_window(
                self.0.lower(),
                self.0.upper(),
                bbox.0.0.value(),
                bbox.1.0.value(),
            ) && overlaps_window(
                self.1.lower(),
                self.1.upper(),
                bbox.0.1.value(),
                bbox.1.1.value(),
            ) && overlaps_window(
                self.2.lower(),
                self.2.upper(),
                bbox.0.2.value(),
                bbox.1.2.value(),
            )),
    {
        let r = self.0.meets(&bbox.0.0, &bbox.1.0) && self.1.meets(&bbox.0.1, &bbox.1.1)
            && self.2.meets(&bbox.0.2, &bbox.1.2);
        proof {
            if !r {
                assert(!overlaps_window(
                    self.lo(0),
                    self.hi(0),
                    Self::bbox_lo(bbox, 0),
                    Self::bbox_hi(bbox, 0),
                ) || !overlaps_window(
                    self.lo(1),
                    self.hi(1),
                    Self::bbox_lo(bbox, 1),
                    Self::bbox_hi(bbox, 1),
                ) || !overlaps_window(
                    self.lo(2),
                    self.hi(2),
                    Self::bbox_lo(bbox, 2),
                    Self::bbox_hi(bbox, 2),
                ));
            }
        }
        r
    }
}

/// Whether `a` counts as equal to `b` at `level`.
pub fn equal_at_level<P: Point>(a: &P, b: &P, level: usize) -> (r: bool)
    ensures
        r == equal_at(a, b, level),
{
    match a.cmp_at(b, level) {
        Ordering::Equal => true,
        _ => false,
    }
}

/// Whether `a` comes before `b` at `level`.
pub fn less_at_level<P: Point>(a: &P, b: &P, level: usize) -> (r: bool)
    ensures
        r == less_at(a, b, level),
{
    match a.cmp_at(b, level) {
        Ordering::Less => true,
        _ => false,
    }
}

/// Whether `a` comes after `b` at `level`.
pub fn greater_at_level<P: Point>(a: &P, b: &P, level: usize) -> (r: bool)
    ensures
        r == greater_at(a, b, level),
{
    match a.cmp_at(b, level) {
        Ordering::Greater => true,
        _ => false,
    }
}

} // verus!
