use eyros::point::{overlap_iv, overlap_pt, Coord, Point, Scalar};
use std::cmp::Ordering;

#[test]
fn scalar_dimension_orders_by_value() {
    let a: (i32, u8) = (-3, 7);
    let b: (i32, u8) = (4, 7);
    assert_eq!(a.cmp_at(&b, 0), Ordering::Less);
    assert_eq!(b.cmp_at(&a, 0), Ordering::Greater);
    assert_eq!(a.cmp_at(&a, 0), Ordering::Equal);
    assert_eq!(a.cmp_at(&b, 1), Ordering::Equal);
}

#[test]
fn level_selects_dimension_modulo_arity() {
    let a: (u8, u8) = (1, 9);
    let b: (u8, u8) = (2, 3);
    assert_eq!(a.cmp_at(&b, 0), Ordering::Less);
    assert_eq!(a.cmp_at(&b, 1), Ordering::Greater);
    assert_eq!(a.cmp_at(&b, 2), Ordering::Less);
    assert_eq!(a.cmp_at(&b, 7), Ordering::Greater);
    let p: (u8, u8, u8) = (1, 9, 5);
    let q: (u8, u8, u8) = (2, 3, 5);
    assert_eq!(p.cmp_at(&q, 0), Ordering::Less);
    assert_eq!(p.cmp_at(&q, 1), Ordering::Greater);
    assert_eq!(p.cmp_at(&q, 2), Ordering::Equal);
    assert_eq!(p.cmp_at(&q, 3), Ordering::Less);
    assert_eq!(p.cmp_at(&q, 4), Ordering::Greater);
    assert_eq!(p.cmp_at(&q, 5), Ordering::Equal);
}

#[test]
fn interval_dimension_is_equal_where_intervals_overlap() {
    let a: ((i16, i16), u8) = ((0, 10), 0);
    let b: ((i16, i16), u8) = ((10, 20), 0);
    let c: ((i16, i16), u8) = ((11, 12), 0);
    assert_eq!(a.cmp_at(&b, 0), Ordering::Equal);
    assert_eq!(b.cmp_at(&a, 0), Ordering::Equal);
    assert_eq!(a.cmp_at(&c, 0), Ordering::Less);
    assert_eq!(c.cmp_at(&a, 0), Ordering::Greater);
    assert_eq!(b.cmp_at(&c, 0), Ordering::Equal);
}

#[test]
fn interval_order_is_not_transitive() {
    let a: ((u8, u8), u8) = ((0, 4), 0);
    let b: ((u8, u8), u8) = ((3, 8), 0);
    let c: ((u8, u8), u8) = ((6, 9), 0);
    assert_eq!(a.cmp_at(&b, 0), Ordering::Equal);
    assert_eq!(b.cmp_at(&c, 0), Ordering::Equal);
    assert_eq!(a.cmp_at(&c, 0), Ordering::Less);
}

#[test]
fn empty_interval_meets_no_pivot_but_its_own_lower_end() {
    let row: ((i32, i32), i32) = ((5, 3), 0);
    let inside: ((i32, i32), i32) = ((4, 4), 0);
    let at_lower: ((i32, i32), i32) = ((5, 5), 0);
    assert_eq!(row.cmp_at(&inside, 0), Ordering::Greater);
    assert_eq!(row.cmp_at(&at_lower, 0), Ordering::Equal);
    assert_eq!(row.cmp_at(&row, 0), Ordering::Equal);
}

#[test]
fn midpoint_upper_of_scalars_truncates_towards_zero() {
    let a: (i32, u8) = (-3, 7);
    let b: (i32, u8) = (-2, 10);
    assert_eq!(a.midpoint_upper(&b), (-2, 8));
    let c: (i32, u8) = (3, 0);
    let d: (i32, u8) = (4, 1);
    assert_eq!(c.midpoint_upper(&d), (3, 0));
    let e: (i32, u8) = (-5, 0);
    let f: (i32, u8) = (2, 0);
    assert_eq!(e.midpoint_upper(&f), (-1, 0));
}

#[test]
fn midpoint_upper_of_intervals_is_a_point_at_the_mean_of_the_upper_ends() {
    let a: ((i32, i32), i32, (u16, u16)) = ((0, 10), 4, (1, 3));
    let b: ((i32, i32), i32, (u16, u16)) = ((100, 21), 8, (0, 8));
    assert_eq!(a.midpoint_upper(&b), ((15, 15), 6, (5, 5)));
}

#[test]
fn midpoint_upper_does_not_overflow() {
    let a: (u8, i8) = (255, 127);
    let b: (u8, i8) = (255, 127);
    assert_eq!(a.midpoint_upper(&b), (255, 127));
    let c: (u64, i64) = (u64::MAX, i64::MIN);
    let d: (u64, i64) = (u64::MAX - 1, i64::MIN);
    assert_eq!(c.midpoint_upper(&d), (u64::MAX - 1, i64::MIN));
    let e: (i64, i64) = (i64::MIN, i64::MAX);
    let f: (i64, i64) = (i64::MAX, i64::MAX);
    assert_eq!(e.midpoint_upper(&f), (0, i64::MAX));
    let g: (u32, i32) = (u32::MAX, i32::MIN);
    let h: (u32, i32) = (1, i32::MAX);
    assert_eq!(g.midpoint_upper(&h), (0x8000_0000, 0));
    let i: (u16, i16) = (u16::MAX, i16::MIN);
    let j: (u16, i16) = (u16::MAX, -1);
    assert_eq!(i.midpoint_upper(&j), (u16::MAX, -16384));
}

#[test]
fn mean_of_each_scalar_type() {
    assert_eq!(200u8.mean(&100u8), 150);
    assert_eq!(60000u16.mean(&50001u16), 55000);
    assert_eq!(4_000_000_000u32.mean(&4_000_000_003u32), 4_000_000_001);
    assert_eq!(u64::MAX.mean(&(u64::MAX - 3)), u64::MAX - 2);
    assert_eq!((-128i8).mean(&-127i8), -127);
    assert_eq!((-32768i16).mean(&32767i16), 0);
    assert_eq!(i32::MIN.mean(&i32::MIN), i32::MIN);
    assert_eq!(i64::MAX.mean(&(i64::MAX - 1)), i64::MAX - 1);
}

#[test]
fn scalars_compare_by_value() {
    assert!(3u8.less_than(&4u8));
    assert!(!4u8.less_than(&4u8));
    assert!(4u8.at_most(&4u8));
    assert!((-1i64).less_than(&0i64));
    assert!(!(0i64).at_most(&-1i64));
    assert!(u64::MAX.at_most(&u64::MAX));
}

#[test]
fn serialize_at_is_little_endian() {
    let p: (u16, (i32, i32)) = (0x1234, (-2, 3));
    assert_eq!(p.serialize_at(0).unwrap(), vec![0x34, 0x12]);
    assert_eq!(
        p.serialize_at(1).unwrap(),
        vec![0xfe, 0xff, 0xff, 0xff, 0x03, 0x00, 0x00, 0x00]
    );
    assert_eq!(p.serialize_at(2).unwrap(), vec![0x34, 0x12]);
}

#[test]
fn serialize_at_of_three_dimensions() {
    let p: (u8, i8, (u64, u64)) = (7, -1, (1, 0x0102_0304_0506_0708));
    assert_eq!(p.serialize_at(0).unwrap(), vec![7]);
    assert_eq!(p.serialize_at(1).unwrap(), vec![0xff]);
    assert_eq!(
        p.serialize_at(2).unwrap(),
        vec![1, 0, 0, 0, 0, 0, 0, 0, 8, 7, 6, 5, 4, 3, 2, 1]
    );
    assert_eq!(p.serialize_at(3).unwrap(), vec![7]);
}

#[test]
fn every_scalar_type_encodes_in_its_width() {
    assert_eq!(Scalar::encode(&0xabu8).unwrap(), vec![0xab]);
    assert_eq!(Scalar::encode(&0xabcdu16).unwrap(), vec![0xcd, 0xab]);
    assert_eq!(
        Scalar::encode(&0x0a0b_0c0du32).unwrap(),
        vec![0x0d, 0x0c, 0x0b, 0x0a]
    );
    assert_eq!(
        Scalar::encode(&0x0102_0304_0506_0708u64).unwrap(),
        vec![8, 7, 6, 5, 4, 3, 2, 1]
    );
    assert_eq!(Scalar::encode(&-2i8).unwrap(), vec![0xfe]);
    assert_eq!(Scalar::encode(&-2i16).unwrap(), vec![0xfe, 0xff]);
    assert_eq!(Scalar::encode(&-2i32).unwrap(), vec![0xfe, 0xff, 0xff, 0xff]);
    assert_eq!(
        Scalar::encode(&i64::MIN).unwrap(),
        vec![0, 0, 0, 0, 0, 0, 0, 0x80]
    );
}

#[test]
fn coordinate_encodes_both_ends_of_an_interval() {
    let iv: (i16, i16) = (-1, 258);
    assert_eq!(Coord::encode_ends(&iv).unwrap(), vec![0xff, 0xff, 0x02, 0x01]);
    assert_eq!(Coord::encode_ends(&258i16).unwrap(), vec![0x02, 0x01]);
}

#[test]
fn dim_is_the_arity() {
    let two: (u8, (u8, u8)) = (0, (0, 0));
    let three: ((u8, u8), u8, (u8, u8)) = ((0, 0), 0, (0, 0));
    assert_eq!(two.dim(), 2);
    assert_eq!(three.dim(), 3);
}

#[test]
fn overlap_of_scalar_and_interval() {
    assert!(overlap_pt(&5u8, &5u8, &9u8));
    assert!(overlap_pt(&9u8, &5u8, &9u8));
    assert!(!overlap_pt(&4u8, &5u8, &9u8));
    assert!(!overlap_pt(&10u8, &5u8, &9u8));
    assert!(overlap_iv(&(1i16, 4i16), &4i16, &8i16));
    assert!(overlap_iv(&(8i16, 40i16), &4i16, &8i16));
    assert!(overlap_iv(&(0i16, 40i16), &4i16, &8i16));
    assert!(overlap_iv(&(5i16, 6i16), &4i16, &8i16));
    assert!(!overlap_iv(&(1i16, 3i16), &4i16, &8i16));
    assert!(!overlap_iv(&(9i16, 12i16), &4i16, &8i16));
}

#[test]
fn an_empty_interval_overlaps_nothing() {
    assert!(!overlap_iv(&(5i32, 3i32), &0i32, &10i32));
    assert!(!overlap_iv(&(5i32, 3i32), &4i32, &6i32));
    assert!(!overlap_iv(&(5i32, 3i32), &2i32, &6i32));
    assert!(!overlap_iv(&(5i32, 3i32), &4i32, &4i32));
    assert!(!overlap_iv(&(5i32, 3i32), &5i32, &5i32));
    assert!(!overlap_iv(&(5i32, 3i32), &3i32, &3i32));
    assert!(overlap_iv(&(3i32, 5i32), &0i32, &10i32));
    assert!(overlap_iv(&(4i32, 4i32), &4i32, &4i32));
    let empty: ((i32, i32), i32) = ((5, 3), 7);
    assert!(!empty.overlaps(&((0, 0), (10, 10))));
    assert!(!empty.overlaps_at(&((0, 0), (10, 10)), 0));
    assert!(empty.overlaps_at(&((0, 0), (10, 10)), 1));
    let proper: ((i32, i32), i32) = ((3, 5), 7);
    assert!(proper.overlaps(&((0, 0), (10, 10))));
    let deep: (u8, (i8, i8), (u16, u16)) = (1, (2, 1), (0, 9));
    assert!(!deep.overlaps(&((0, -100, 0), (255, 100, 9))));
    assert!(deep.overlaps_at(&((0, -100, 0), (255, 100, 9)), 0));
    assert!(!deep.overlaps_at(&((0, -100, 0), (255, 100, 9)), 1));
    assert!(deep.overlaps_at(&((0, -100, 0), (255, 100, 9)), 2));
}

#[test]
fn overlaps_needs_every_dimension() {
    let p: ((i32, i32), (i32, i32), i32) = ((-8, -2), (1, 5), 300);
    assert!(p.overlaps(&((-10, -10, 0), (10, 10, 1000))));
    assert!(p.overlaps(&((-2, 5, 300), (0, 6, 300))));
    assert!(!p.overlaps(&((-1, 5, 300), (0, 6, 300))));
    assert!(!p.overlaps(&((-2, 6, 300), (0, 6, 300))));
    assert!(!p.overlaps(&((-2, 5, 301), (0, 6, 400))));
    let q: (u8, u8) = (3, 4);
    assert!(q.overlaps(&((3, 4), (3, 4))));
    assert!(!q.overlaps(&((4, 4), (5, 4))));
}

#[test]
fn overlaps_at_looks_at_one_dimension() {
    let p: ((i32, i32), i32) = ((-8, -2), 300);
    let bbox = ((-1, 0), (5, 1000));
    assert!(!p.overlaps_at(&bbox, 0));
    assert!(p.overlaps_at(&bbox, 1));
    assert!(!p.overlaps_at(&bbox, 2));
    assert!(!p.above_at(&bbox, 0));
    assert!(p.above_at(&bbox, 1));
    let q: ((i32, i32), i32) = ((0, 9), 0);
    assert!(q.above_at(&bbox, 0));
    assert!(!q.above_at(&bbox, 1));
}
