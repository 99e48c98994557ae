use eyros::branch::{Branch, Data, Node};
use eyros::point::Point;
use eyros::query::{drop_deleted, Location};

type Cuboid = ((i32, i32), (i32, i32), i32);
type Window = ((i32, i32, i32), (i32, i32, i32));
type Dot = (i32, i32, i32);

fn draw(state: &mut u64, span: u64) -> i32 {
    *state = state
        .wrapping_mul(6364136223846793005)
        .wrapping_add(1442695040888963407);
    ((*state >> 33) % span) as i32
}

fn boxes(count: usize, seed: u64) -> Vec<(Cuboid, u32)> {
    let mut state = seed;
    let mut rows = vec![];
    for i in 0..count {
        let x = draw(&mut state, 2000) - 1000;
        let w = draw(&mut state, 40);
        let y = draw(&mut state, 2000) - 1000;
        let h = draw(&mut state, 40);
        let t = draw(&mut state, 1000);
        rows.push((((x, x + w), (y, y + h), t), i as u32));
    }
    rows
}

fn dots(count: usize, seed: u64) -> Vec<(Dot, u32)> {
    let mut state = seed;
    let mut rows = vec![];
    for i in 0..count {
        let x = draw(&mut state, 2000) - 1000;
        let y = draw(&mut state, 2000) - 1000;
        let t = draw(&mut state, 1000);
        rows.push(((x, y, t), i as u32));
    }
    rows
}

fn walk_boxes<'a>(
    node: Node<'a, Cuboid, u32>,
    bbox: &Window,
    next: &mut u64,
    found: &mut Vec<usize>,
    missed: &mut Vec<usize>,
    depth: usize,
) {
    assert!(depth < 200);
    match node {
        Node::Data(leaf) => found.extend(leaf.query(bbox)),
        Node::Branch(mut branch) => {
            let mut alloc = |size: usize| {
                let at = *next;
                *next += size as u64;
                at
            };
            let (_, children) = branch.build(&mut alloc);
            let (here, visit) = branch.query(bbox);
            found.extend(here);
            for (i, list) in branch.intersecting.iter().enumerate() {
                if !branch.pivots[i].overlaps_at(bbox, branch.level) {
                    for j in list.iter() {
                        let row = branch.bucket[*j];
                        if branch.rows[row].0.overlaps(bbox) {
                            missed.push(row);
                        }
                    }
                }
            }
            for (c, child) in children.into_iter().enumerate() {
                if visit.contains(&c) {
                    walk_boxes(child, bbox, next, found, missed, depth + 1);
                } else {
                    let bucket = match &child {
                        Node::Data(leaf) => leaf.bucket.clone(),
                        Node::Branch(below) => below.bucket.clone(),
                    };
                    for row in bucket.iter() {
                        assert!(!branch.rows[*row].0.overlaps(bbox));
                    }
                }
            }
        }
    }
}

fn walk_dots<'a>(
    node: Node<'a, Dot, u32>,
    bbox: &Window,
    next: &mut u64,
    found: &mut Vec<usize>,
    depth: usize,
) {
    assert!(depth < 200);
    match node {
        Node::Data(leaf) => found.extend(leaf.query(bbox)),
        Node::Branch(mut branch) => {
            let mut alloc = |size: usize| {
                let at = *next;
                *next += size as u64;
                at
            };
            let (_, children) = branch.build(&mut alloc);
            let (here, visit) = branch.query(bbox);
            found.extend(here);
            for (c, child) in children.into_iter().enumerate() {
                if visit.contains(&c) {
                    walk_dots(child, bbox, next, found, depth + 1);
                }
            }
        }
    }
}

fn brute_boxes(rows: &Vec<(Cuboid, u32)>, bbox: &Window) -> Vec<usize> {
    let mut hits = vec![];
    for (i, row) in rows.iter().enumerate() {
        let p = row.0;
        if (bbox.0).0 <= (p.0).1
            && (p.0).0 <= (bbox.1).0
            && (bbox.0).1 <= (p.1).1
            && (p.1).0 <= (bbox.1).1
            && (bbox.0).2 <= p.2
            && p.2 <= (bbox.1).2
        {
            hits.push(i);
        }
    }
    hits
}

fn brute_dots(rows: &Vec<(Dot, u32)>, bbox: &Window) -> Vec<usize> {
    let mut hits = vec![];
    for (i, row) in rows.iter().enumerate() {
        let p = row.0;
        if (bbox.0).0 <= p.0
            && p.0 <= (bbox.1).0
            && (bbox.0).1 <= p.1
            && p.1 <= (bbox.1).1
            && (bbox.0).2 <= p.2
            && p.2 <= (bbox.1).2
        {
            hits.push(i);
        }
    }
    hits
}

#[test]
fn leaf_query_reports_the_rows_that_meet_the_box() {
    let owned: Vec<((i32, i32), u32)> = vec![
        ((4, 40), 0),
        ((0, 10), 1),
        ((8, 80), 2),
        ((2, 30), 3),
    ];
    let rows: Vec<&((i32, i32), u32)> = owned.iter().collect();
    let leaf = Data::new(vec![3, 0, 2, 1, 0], &rows);
    assert_eq!(leaf.query(&((2, 30), (4, 40))), vec![3, 0, 0]);
    assert_eq!(leaf.query(&((0, 0), (100, 100))), vec![3, 0, 2, 1, 0]);
    assert_eq!(leaf.query(&((5, 0), (7, 100))), Vec::<usize>::new());
    assert_eq!(leaf.query(&((9, 0), (0, 100))), Vec::<usize>::new());
}

#[test]
fn branch_query_reports_claimed_rows_and_names_children() {
    let owned: Vec<((i32, i32), u32)> = vec![
        ((0, 0), 0),
        ((10, 0), 1),
        ((20, 0), 2),
        ((25, 7), 3),
        ((40, 0), 4),
        ((45, 9), 5),
        ((60, 0), 6),
        ((70, 0), 7),
    ];
    let rows: Vec<&((i32, i32), u32)> = owned.iter().collect();
    let order: Vec<usize> = vec![4, 3, 0, 2, 1];
    let mut branch = Branch::new(0, 100, &order, (0..8).collect(), &rows);
    assert_eq!(
        branch.pivots,
        vec![(22, 3), (42, 4), (52, 4), (65, 0), (65, 0)]
    );
    let mut alloc = |_size: usize| 0u64;
    branch.build(&mut alloc);
    assert_eq!(
        branch.buckets,
        vec![
            vec![0, 1, 2],
            vec![3, 4, 5],
            vec![6, 7],
            Vec::<usize>::new(),
            Vec::<usize>::new()
        ]
    );
    assert_eq!(
        branch.query(&((0, 0), (100, 100))),
        (Vec::<usize>::new(), vec![0, 1, 2])
    );
    assert_eq!(
        branch.query(&((21, 0), (100, 100))),
        (Vec::<usize>::new(), vec![0, 1, 2])
    );
    assert_eq!(
        branch.query(&((22, 0), (100, 100))),
        (Vec::<usize>::new(), vec![1, 2])
    );
    assert_eq!(
        branch.query(&((51, 0), (100, 100))),
        (Vec::<usize>::new(), vec![1, 2])
    );
    assert_eq!(
        branch.query(&((52, 0), (100, 100))),
        (Vec::<usize>::new(), vec![2])
    );
}

#[test]
fn branch_query_reports_a_claimed_row_only_where_it_meets_the_box() {
    let owned: Vec<((i32, i32), u32)> = vec![
        ((4, 40), 1000),
        ((0, 10), 1001),
        ((8, 80), 1002),
        ((2, 30), 1003),
        ((5, 50), 1004),
        ((2, 20), 1005),
    ];
    let rows: Vec<&((i32, i32), u32)> = owned.iter().collect();
    let order: Vec<usize> = vec![1, 0, 2];
    let mut branch = Branch::new(0, 3, &order, vec![0, 1, 2, 3, 4, 5], &rows);
    let mut alloc = |_size: usize| 0u64;
    branch.build(&mut alloc);
    assert_eq!(branch.query(&((0, 0), (9, 90))), (vec![0], vec![0, 1]));
    assert_eq!(
        branch.query(&((4, 41), (9, 90))),
        (Vec::<usize>::new(), vec![1])
    );
    assert_eq!(
        branch.query(&((0, 0), (3, 90))),
        (Vec::<usize>::new(), vec![0, 1])
    );
    assert_eq!(branch.query(&((3, 40), (4, 40))), (vec![0], vec![0, 1]));
}

#[test]
fn a_wide_row_is_passed_over_where_its_pivot_misses_the_box() {
    let owned: Vec<(((i32, i32), i32), u32)> = vec![
        (((0, 100), 0), 0),
        (((1, 2), 0), 1),
        (((3, 4), 0), 2),
        (((5, 6), 0), 3),
        (((7, 8), 0), 4),
        (((9, 10), 0), 5),
        (((11, 12), 0), 6),
        (((13, 14), 0), 7),
    ];
    let rows: Vec<&(((i32, i32), i32), u32)> = owned.iter().collect();
    let order: Vec<usize> = vec![0, 1, 2];
    let mut branch = Branch::new(0, 100, &order, (0..8).collect(), &rows);
    let mut alloc = |_size: usize| 0u64;
    branch.build(&mut alloc);
    assert_eq!(
        branch.intersecting,
        vec![vec![0, 5], vec![7], Vec::<usize>::new()]
    );
    let (here, _) = branch.query(&((9, 0), (9, 0)));
    assert_eq!(here, vec![0, 5]);
    let (here, _) = branch.query(&((50, 0), (60, 0)));
    assert_eq!(here, Vec::<usize>::new());
    assert!(rows[0].0.overlaps(&((50, 0), (60, 0))));
}

#[test]
fn full_box_finds_every_row_once() {
    let owned = boxes(4000, 13);
    let rows: Vec<&(Cuboid, u32)> = owned.iter().collect();
    let order: Vec<usize> = vec![1, 3, 0, 2, 4];
    let root = Branch::new(0, 9, &order, (0..4000).collect(), &rows);
    let bbox: Window = ((-1000, -1000, 0), (1040, 1040, 1000));
    let mut next: u64 = 0;
    let mut found = vec![];
    let mut missed = vec![];
    walk_boxes(Node::Branch(root), &bbox, &mut next, &mut found, &mut missed, 0);
    assert_eq!(found.len(), 4000);
    assert!(missed.is_empty());
    found.sort();
    assert_eq!(found, (0..4000).collect::<Vec<usize>>());
}

#[test]
fn partial_box_over_scalar_points_equals_the_filter() {
    let owned = dots(4000, 12);
    let rows: Vec<&(Dot, u32)> = owned.iter().collect();
    let order: Vec<usize> = vec![1, 3, 0, 2, 4];
    let all: Window = ((-1000, -1000, 0), (1000, 1000, 1000));
    let part: Window = ((-800, 100, 0), (200, 500, 500));
    let small: Window = ((-500, 800, 200), (-450, 850, 300));
    for bbox in [all, part, small].iter() {
        let root = Branch::new(0, 9, &order, (0..4000).collect(), &rows);
        let mut next: u64 = 0;
        let mut found = vec![];
        walk_dots(Node::Branch(root), bbox, &mut next, &mut found, 0);
        found.sort();
        assert_eq!(found, brute_dots(&owned, bbox));
    }
    assert_eq!(brute_dots(&owned, &all).len(), 4000);
    assert!(brute_dots(&owned, &part).len() > 0);
}

#[test]
fn partial_box_over_intervals_reports_only_and_all_but_passed_over_rows() {
    let owned = boxes(4000, 13);
    let rows: Vec<&(Cuboid, u32)> = owned.iter().collect();
    let order: Vec<usize> = vec![1, 3, 0, 2, 4];
    let part: Window = ((-800, 100, 0), (200, 500, 500));
    let small: Window = ((-500, 800, 200), (-450, 850, 300));
    for bbox in [part, small].iter() {
        let root = Branch::new(0, 9, &order, (0..4000).collect(), &rows);
        let mut next: u64 = 0;
        let mut found = vec![];
        let mut missed = vec![];
        walk_boxes(Node::Branch(root), bbox, &mut next, &mut found, &mut missed, 0);
        for row in found.iter() {
            assert!(rows[*row].0.overlaps(bbox));
        }
        found.extend(missed);
        found.sort();
        assert_eq!(found, brute_boxes(&owned, bbox));
    }
}

#[test]
fn the_order_of_the_rows_does_not_change_what_a_full_box_finds() {
    let owned = boxes(600, 5);
    let rows: Vec<&(Cuboid, u32)> = owned.iter().collect();
    let order: Vec<usize> = vec![2, 0, 1];
    let bbox: Window = ((-1000, -1000, 0), (1040, 1040, 1000));
    let forward: Vec<usize> = (0..600).collect();
    let backward: Vec<usize> = (0..600).rev().collect();
    let mut results = vec![];
    for bucket in [forward, backward] {
        let root = Branch::new(0, 9, &order, bucket, &rows);
        let mut next: u64 = 0;
        let mut found = vec![];
        let mut missed = vec![];
        walk_boxes(Node::Branch(root), &bbox, &mut next, &mut found, &mut missed, 0);
        found.sort();
        results.push(found);
    }
    assert_eq!(results[0], results[1]);
    assert_eq!(results[0].len(), 600);
}

#[test]
fn drop_deleted_keeps_the_results_that_are_not_deleted() {
    let found: Vec<Location> = vec![(0, 10), (0, 20), (1, 10), (0, 30), (1, 20)];
    let deleted: Vec<Location> = vec![(1, 10), (0, 10)];
    assert_eq!(drop_deleted(&found, &deleted), vec![1, 3, 4]);
    assert_eq!(drop_deleted(&found, &vec![]), vec![0, 1, 2, 3, 4]);
    assert_eq!(drop_deleted(&found, &found), Vec::<usize>::new());
    assert_eq!(drop_deleted(&vec![], &deleted), Vec::<usize>::new());
}

#[test]
fn to_delete_an_absent_location_changes_nothing() {
    let found: Vec<Location> = vec![(0, 10), (0, 20), (1, 10)];
    let mut deleted: Vec<Location> = vec![(0, 20)];
    let before = drop_deleted(&found, &deleted);
    deleted.push((7, 70));
    deleted.push((1, 20));
    assert_eq!(drop_deleted(&found, &deleted), before);
    assert_eq!(before, vec![0, 2]);
}

#[test]
fn delete_every_tenth_result() {
    let owned = dots(4000, 77);
    let rows: Vec<&(Dot, u32)> = owned.iter().collect();
    let order: Vec<usize> = vec![1, 3, 0, 2, 4];
    let bbox: Window = ((-1000, -1000, 0), (1000, 1000, 1000));
    let root = Branch::new(0, 9, &order, (0..4000).collect(), &rows);
    let mut next: u64 = 0;
    let mut found = vec![];
    walk_dots(Node::Branch(root), &bbox, &mut next, &mut found, 0);
    assert_eq!(found.len(), 4000);
    let locations: Vec<Location> = found.iter().map(|row| (0u32, *row as u64)).collect();
    let deleted: Vec<Location> = locations.iter().step_by(10).cloned().collect();
    let live = drop_deleted(&locations, &deleted);
    assert_eq!(live.len(), 3600);
    let mut kept: Vec<usize> = live.iter().map(|k| found[*k]).collect();
    let mut expected: Vec<usize> = found
        .iter()
        .enumerate()
        .filter(|(k, _)| k % 10 != 0)
        .map(|(_, row)| *row)
        .collect();
    kept.sort();
    expected.sort();
    assert_eq!(kept, expected);
}
