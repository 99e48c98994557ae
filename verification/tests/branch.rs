use eyros::branch::{is_order, names_rows, Branch, Bytes, Data, Node};
use eyros::sort::sort_positions;

type Flat = (i32, i32);

fn sample() -> Vec<(Flat, u32)> {
    vec![
        ((4, 40), 1000),
        ((0, 10), 1001),
        ((8, 80), 1002),
        ((2, 30), 1003),
        ((5, 50), 1004),
        ((2, 20), 1005),
    ]
}

#[test]
fn sort_positions_orders_by_the_level() {
    let owned = sample();
    let rows: Vec<&(Flat, u32)> = owned.iter().collect();
    let bucket: Vec<usize> = vec![0, 1, 2, 3, 4, 5];
    assert_eq!(sort_positions(&rows, &bucket, 0), vec![1, 3, 5, 0, 4, 2]);
    assert_eq!(sort_positions(&rows, &bucket, 1), vec![1, 5, 3, 0, 4, 2]);
    assert_eq!(sort_positions(&rows, &bucket, 2), vec![1, 3, 5, 0, 4, 2]);
}

#[test]
fn sort_positions_sorts_positions_not_rows() {
    let owned = sample();
    let rows: Vec<&(Flat, u32)> = owned.iter().collect();
    let bucket: Vec<usize> = vec![1, 3, 5];
    assert_eq!(sort_positions(&rows, &bucket, 1), vec![0, 2, 1]);
    let empty: Vec<usize> = vec![];
    assert_eq!(sort_positions(&rows, &empty, 0), Vec::<usize>::new());
    let one: Vec<usize> = vec![4];
    assert_eq!(sort_positions(&rows, &one, 0), vec![0]);
}

#[test]
fn sort_positions_is_a_permutation_in_ascending_order() {
    let mut state: u64 = 12;
    let mut owned: Vec<(Flat, u32)> = vec![];
    for i in 0..500u32 {
        state = state.wrapping_mul(6364136223846793005).wrapping_add(1442695040888963407);
        let x = ((state >> 33) % 100) as i32 - 50;
        owned.push(((x, 0), i));
    }
    let rows: Vec<&(Flat, u32)> = owned.iter().collect();
    let bucket: Vec<usize> = (0..500).collect();
    let sorted = sort_positions(&rows, &bucket, 0);
    let mut seen = vec![false; 500];
    for j in sorted.iter() {
        assert!(!seen[*j]);
        seen[*j] = true;
    }
    assert_eq!(sorted.len(), 500);
    for w in sorted.windows(2) {
        assert!((rows[w[0]].0).0 <= (rows[w[1]].0).0);
    }
}

#[test]
fn new_places_pivots_at_the_quantiles() {
    let owned = sample();
    let rows: Vec<&(Flat, u32)> = owned.iter().collect();
    let order: Vec<usize> = vec![1, 0, 2];
    let branch = Branch::new(0, 3, &order, vec![0, 1, 2, 3, 4, 5], &rows);
    assert_eq!(branch.offset, 0);
    assert_eq!(branch.level, 0);
    assert_eq!(branch.max_data_size, 3);
    assert_eq!(branch.sorted, vec![1, 3, 5, 0, 4, 2]);
    assert_eq!(branch.pivots, vec![(4, 45), (6, 65), (6, 65)]);
    assert_eq!(
        branch.intersecting,
        vec![vec![0], Vec::<usize>::new(), Vec::<usize>::new()]
    );
    assert_eq!(branch.matched, vec![true, false, false, false, false, false]);
    assert!(branch.buckets.is_empty());
}

#[test]
fn new_lets_the_first_pivot_in_order_claim_a_row() {
    let owned: Vec<(((i32, i32), i32), u32)> = vec![
        (((0, 100), 0), 0),
        (((1, 2), 0), 1),
        (((3, 4), 0), 2),
        (((5, 6), 0), 3),
        (((7, 8), 0), 4),
        (((9, 10), 0), 5),
        (((11, 12), 0), 6),
        (((13, 14), 0), 7),
    ];
    let rows: Vec<&(((i32, i32), i32), u32)> = owned.iter().collect();
    let order: Vec<usize> = vec![1, 0, 2];
    let branch = Branch::new(0, 2, &order, (0..8).collect(), &rows);
    assert_eq!(branch.sorted, vec![0, 1, 2, 3, 4, 5, 6, 7]);
    assert_eq!(
        branch.pivots,
        vec![((9, 9), 0), ((13, 13), 0), ((13, 13), 0)]
    );
    assert_eq!(
        branch.intersecting,
        vec![vec![5], vec![0, 7], Vec::<usize>::new()]
    );
    assert_eq!(
        branch.matched,
        vec![true, false, false, false, false, true, false, true]
    );
    let other: Vec<usize> = vec![0, 1, 2];
    let again = Branch::new(0, 2, &other, (0..8).collect(), &rows);
    assert_eq!(
        again.intersecting,
        vec![vec![0, 5], vec![7], Vec::<usize>::new()]
    );
    assert_eq!(again.matched, branch.matched);
}

#[test]
fn new_claims_a_row_for_the_pivot_that_order_names_first() {
    let owned: Vec<(((i32, i32), i32), u32)> = vec![
        (((0, 20), 0), 0),
        (((1, 2), 0), 1),
        (((3, 4), 0), 2),
        (((5, 18), 0), 3),
    ];
    let rows: Vec<&(((i32, i32), i32), u32)> = owned.iter().collect();
    let first: Vec<usize> = vec![0, 1];
    let a = Branch::new(0, 2, &first, vec![0, 1, 2, 3], &rows);
    assert_eq!(a.sorted, vec![0, 1, 2, 3]);
    assert_eq!(a.pivots, vec![((11, 11), 0), ((11, 11), 0)]);
    assert_eq!(a.intersecting, vec![vec![0, 3], Vec::<usize>::new()]);
    let second: Vec<usize> = vec![1, 0];
    let b = Branch::new(0, 2, &second, vec![0, 1, 2, 3], &rows);
    assert_eq!(b.intersecting, vec![Vec::<usize>::new(), vec![0, 3]]);
    assert_eq!(b.matched, vec![true, false, false, true]);
}

#[test]
fn build_deals_the_free_rows_to_the_children() {
    let owned = sample();
    let rows: Vec<&(Flat, u32)> = owned.iter().collect();
    let order: Vec<usize> = vec![1, 0, 2];
    let mut branch = Branch::new(0, 3, &order, vec![0, 1, 2, 3, 4, 5], &rows);
    let mut next: u64 = 100;
    let mut sizes: Vec<usize> = vec![];
    let mut alloc = |size: usize| {
        let at = next;
        next += size as u64;
        sizes.push(size);
        at
    };
    let (record, nodes) = branch.build(&mut alloc);
    assert_eq!(sizes, vec![49, 29, 5]);
    assert_eq!(
        branch.buckets,
        vec![vec![1, 3, 5], vec![4, 2], Vec::<usize>::new()]
    );
    assert_eq!(nodes.len(), 3);
    match &nodes[0] {
        Node::Branch(child) => {
            assert_eq!(child.offset, 100);
            assert_eq!(child.level, 1);
            assert_eq!(child.max_data_size, 3);
            assert_eq!(child.bucket, vec![1, 3, 5]);
            assert_eq!(child.sorted, vec![0, 2, 1]);
            assert_eq!(child.pivots, vec![(2, 25), (2, 25), (2, 25)]);
            assert_eq!(child.bytes(), 49);
        }
        Node::Data(_) => panic!("three rows make a branch"),
    }
    match &nodes[1] {
        Node::Data(leaf) => {
            assert_eq!(leaf.offset, 149);
            assert_eq!(leaf.bucket, vec![4, 2]);
            assert_eq!(leaf.bytes(), 29);
        }
        Node::Branch(_) => panic!("two rows make a leaf"),
    }
    match &nodes[2] {
        Node::Data(leaf) => {
            assert_eq!(leaf.offset, 178);
            assert!(leaf.bucket.is_empty());
        }
        Node::Branch(_) => panic!("no rows make a leaf"),
    }
    assert_eq!(nodes[0].bytes(), 49);
    assert_eq!(nodes[1].bytes(), 29);
    assert_eq!(nodes[2].bytes(), 5);
    let mut expected: Vec<u8> = vec![0];
    expected.extend([4, 0, 0, 0, 6, 0, 0, 0, 6, 0, 0, 0]);
    expected.extend([1, 0, 0, 0]);
    expected.extend([4, 0, 0, 0, 40, 0, 0, 0, 0xe8, 0x03, 0, 0]);
    expected.extend([0, 0, 0, 0]);
    expected.extend([0, 0, 0, 0]);
    expected.extend([100, 0, 0, 0, 0, 0, 0, 0]);
    expected.extend([149, 0, 0, 0, 0, 0, 0, 0]);
    expected.extend([178, 0, 0, 0, 0, 0, 0, 0]);
    assert_eq!(record, expected);
    assert_eq!(record.len(), branch.bytes());
}

#[test]
fn build_of_a_child_names_rows_through_its_bucket() {
    let owned = sample();
    let rows: Vec<&(Flat, u32)> = owned.iter().collect();
    let order: Vec<usize> = vec![1, 0, 2];
    let mut child = Branch::new(1, 3, &order, vec![1, 3, 5], &rows);
    let mut alloc = |_size: usize| 7u64;
    let (record, nodes) = child.build(&mut alloc);
    assert_eq!(
        child.buckets,
        vec![vec![0, 2], vec![1], Vec::<usize>::new()]
    );
    match &nodes[0] {
        Node::Data(leaf) => assert_eq!(leaf.bucket, vec![1, 5]),
        Node::Branch(_) => panic!("two rows make a leaf"),
    }
    match &nodes[1] {
        Node::Data(leaf) => assert_eq!(leaf.bucket, vec![3]),
        Node::Branch(_) => panic!("one row makes a leaf"),
    }
    let mut expected: Vec<u8> = vec![0];
    expected.extend([25, 0, 0, 0, 25, 0, 0, 0, 25, 0, 0, 0]);
    expected.extend([0, 0, 0, 0, 0, 0, 0, 0, 0, 0, 0, 0]);
    expected.extend([7, 0, 0, 0, 0, 0, 0, 0]);
    expected.extend([7, 0, 0, 0, 0, 0, 0, 0]);
    expected.extend([7, 0, 0, 0, 0, 0, 0, 0]);
    assert_eq!(record, expected);
}

#[test]
fn build_with_one_pivot_fills_one_child() {
    let owned = sample();
    let rows: Vec<&(Flat, u32)> = owned.iter().collect();
    let order: Vec<usize> = vec![0];
    let mut branch = Branch::new(0, 100, &order, vec![0, 1, 2, 3, 4, 5], &rows);
    assert_eq!(branch.pivots, vec![(6, 65)]);
    let mut alloc = |_size: usize| 0u64;
    let (_, nodes) = branch.build(&mut alloc);
    assert_eq!(branch.buckets, vec![vec![1, 3, 5, 0, 4, 2]]);
    assert_eq!(nodes.len(), 1);
}

#[test]
fn build_moves_on_when_a_row_is_not_before_the_bound() {
    let owned: Vec<(Flat, u32)> = vec![
        ((0, 0), 0),
        ((10, 0), 1),
        ((20, 0), 2),
        ((30, 0), 3),
        ((40, 0), 4),
        ((50, 0), 5),
        ((60, 0), 6),
        ((70, 0), 7),
    ];
    let rows: Vec<&(Flat, u32)> = owned.iter().collect();
    let order: Vec<usize> = vec![4, 3, 0, 2, 1];
    let mut branch = Branch::new(0, 100, &order, (0..8).collect(), &rows);
    assert_eq!(
        branch.pivots,
        vec![(25, 0), (45, 0), (55, 0), (65, 0), (65, 0)]
    );
    let mut alloc = |_size: usize| 0u64;
    let (_, nodes) = branch.build(&mut alloc);
    assert_eq!(
        branch.buckets,
        vec![
            vec![0, 1, 2],
            vec![3, 4, 5],
            vec![6, 7],
            Vec::<usize>::new(),
            Vec::<usize>::new()
        ]
    );
    assert_eq!(nodes.len(), 5);
}

#[test]
fn an_even_number_of_pivots_fills_half_of_them_and_one_more_child() {
    let owned: Vec<(Flat, u32)> = vec![
        ((0, 0), 0),
        ((10, 0), 1),
        ((20, 0), 2),
        ((30, 0), 3),
        ((40, 0), 4),
        ((50, 0), 5),
        ((60, 0), 6),
        ((70, 0), 7),
    ];
    let rows: Vec<&(Flat, u32)> = owned.iter().collect();
    let order: Vec<usize> = vec![3, 2, 0, 1];
    let mut branch = Branch::new(0, 100, &order, (0..8).collect(), &rows);
    assert_eq!(branch.pivots, vec![(35, 0), (45, 0), (65, 0), (65, 0)]);
    let mut alloc = |_size: usize| 0u64;
    branch.build(&mut alloc);
    assert_eq!(
        branch.buckets,
        vec![
            vec![0, 1, 2, 3],
            vec![4],
            vec![5, 6, 7],
            Vec::<usize>::new()
        ]
    );
    let pair: Vec<usize> = vec![0, 1];
    let mut two = Branch::new(0, 100, &pair, (0..8).collect(), &rows);
    assert_eq!(two.pivots, vec![(55, 0), (65, 0)]);
    two.build(&mut alloc);
    assert_eq!(
        two.buckets,
        vec![vec![0, 1, 2, 3, 4, 5, 6], vec![7]]
    );
    assert_eq!(two.query(&((65, 0), (100, 0))), (Vec::<usize>::new(), vec![1]));
    assert_eq!(two.query(&((64, 0), (100, 0))), (Vec::<usize>::new(), vec![0, 1]));
}

#[test]
fn rows_equal_at_the_level_all_meet_the_pivot() {
    let owned: Vec<(Flat, u32)> = vec![((3, 1), 0), ((3, 2), 1), ((3, 3), 2), ((3, 4), 3)];
    let rows: Vec<&(Flat, u32)> = owned.iter().collect();
    let order: Vec<usize> = vec![2, 0, 1];
    let mut branch = Branch::new(0, 2, &order, vec![0, 1, 2, 3], &rows);
    assert_eq!(branch.sorted, vec![0, 1, 2, 3]);
    assert_eq!(
        branch.intersecting,
        vec![Vec::<usize>::new(), Vec::<usize>::new(), vec![0, 1, 2, 3]]
    );
    let mut alloc = |_size: usize| 0u64;
    let (_, nodes) = branch.build(&mut alloc);
    assert_eq!(
        branch.buckets,
        vec![Vec::<usize>::new(), Vec::<usize>::new(), Vec::<usize>::new()]
    );
    for node in nodes.iter() {
        match node {
            Node::Data(leaf) => assert!(leaf.bucket.is_empty()),
            Node::Branch(_) => panic!("no rows make a leaf"),
        }
    }
}

#[test]
fn every_row_has_one_place() {
    let mut state: u64 = 13;
    let mut owned: Vec<(((i32, i32), (i32, i32), i32), u32)> = vec![];
    for i in 0..400u32 {
        let mut draw = |span: u64| {
            state = state.wrapping_mul(6364136223846793005).wrapping_add(1442695040888963407);
            ((state >> 33) % span) as i32
        };
        let x = draw(2000) - 1000;
        let w = draw(50);
        let y = draw(2000) - 1000;
        let h = draw(50);
        let t = draw(1000);
        owned.push((((x, x + w), (y, y + h), t), i));
    }
    let rows: Vec<&(((i32, i32), (i32, i32), i32), u32)> = owned.iter().collect();
    let order: Vec<usize> = vec![3, 1, 4, 0, 2];
    for level in 0..3 {
        let mut branch = Branch::new(level, 9, &order, (0..400).collect(), &rows);
        let mut alloc = |_size: usize| 0u64;
        let (_, nodes) = branch.build(&mut alloc);
        let mut seen = vec![0usize; 400];
        for list in branch.intersecting.iter() {
            for j in list.iter() {
                assert!(branch.matched[*j]);
                seen[*j] += 1;
            }
        }
        for list in branch.buckets.iter() {
            for j in list.iter() {
                assert!(!branch.matched[*j]);
                seen[*j] += 1;
            }
        }
        assert_eq!(seen, vec![1usize; 400]);
        assert_eq!(nodes.len(), 5);
    }
}

#[test]
fn two_builds_of_the_same_rows_agree() {
    let owned = sample();
    let rows: Vec<&(Flat, u32)> = owned.iter().collect();
    let order: Vec<usize> = vec![1, 0, 2];
    let mut a = Branch::new(0, 3, &order, vec![0, 1, 2, 3, 4, 5], &rows);
    let mut b = Branch::new(0, 3, &order, vec![0, 1, 2, 3, 4, 5], &rows);
    let mut next_a: u64 = 0;
    let mut alloc_a = |size: usize| {
        let at = next_a;
        next_a += size as u64;
        at
    };
    let mut next_b: u64 = 0;
    let mut alloc_b = |size: usize| {
        let at = next_b;
        next_b += size as u64;
        at
    };
    let (record_a, _) = a.build(&mut alloc_a);
    let (record_b, _) = b.build(&mut alloc_b);
    assert_eq!(a.sorted, b.sorted);
    assert_eq!(a.pivots, b.pivots);
    assert_eq!(a.intersecting, b.intersecting);
    assert_eq!(a.buckets, b.buckets);
    assert_eq!(record_a, record_b);
}

#[test]
fn leaf_record_holds_tag_count_and_rows() {
    let owned = sample();
    let rows: Vec<&(Flat, u32)> = owned.iter().collect();
    let leaf = Data::new(vec![4, 2], &rows);
    assert_eq!(leaf.offset, 0);
    let mut expected: Vec<u8> = vec![1, 2, 0, 0, 0];
    expected.extend([5, 0, 0, 0, 50, 0, 0, 0, 0xec, 0x03, 0, 0]);
    expected.extend([8, 0, 0, 0, 80, 0, 0, 0, 0xea, 0x03, 0, 0]);
    assert_eq!(leaf.data(), expected);
    assert_eq!(leaf.bytes(), 29);
    let empty = Data::new(vec![], &rows);
    assert_eq!(empty.data(), vec![1, 0, 0, 0, 0]);
    assert_eq!(empty.bytes(), 5);
}

#[test]
fn leaf_record_of_interval_points() {
    let owned: Vec<(((i16, i16), u8, (i8, i8)), u64)> = vec![(((-1, 2), 3, (-4, 5)), 6)];
    let rows: Vec<&(((i16, i16), u8, (i8, i8)), u64)> = owned.iter().collect();
    let leaf = Data::new(vec![0, 0], &rows);
    let mut expected: Vec<u8> = vec![1, 2, 0, 0, 0];
    expected.extend([0xff, 0xff, 2, 0, 3, 0xfc, 5, 6, 0, 0, 0, 0, 0, 0, 0]);
    expected.extend([0xff, 0xff, 2, 0, 3, 0xfc, 5, 6, 0, 0, 0, 0, 0, 0, 0]);
    assert_eq!(leaf.data(), expected);
}

#[test]
fn allocate_keeps_the_offset_that_alloc_answers() {
    let owned = sample();
    let rows: Vec<&(Flat, u32)> = owned.iter().collect();
    let mut leaf = Data::new(vec![0, 1, 2], &rows);
    let mut asked: Vec<usize> = vec![];
    let mut alloc = |size: usize| {
        asked.push(size);
        4096u64
    };
    leaf.allocate(&mut alloc);
    assert_eq!(leaf.offset, 4096);
    assert_eq!(leaf.bucket, vec![0, 1, 2]);
    let order: Vec<usize> = vec![0, 1];
    let mut branch = Branch::new(0, 3, &order, vec![0, 1, 2, 3, 4, 5], &rows);
    branch.allocate(&mut alloc);
    assert_eq!(branch.offset, 4096);
    assert_eq!(branch.sorted, vec![1, 3, 5, 0, 4, 2]);
    assert_eq!(asked, vec![41, 33]);
}

#[test]
fn is_order_accepts_permutations_only() {
    assert!(is_order(&vec![]));
    assert!(is_order(&vec![0]));
    assert!(is_order(&vec![2, 0, 1]));
    assert!(!is_order(&vec![1]));
    assert!(!is_order(&vec![0, 0]));
    assert!(!is_order(&vec![0, 2]));
    assert!(!is_order(&vec![1, 2, 3]));
}

#[test]
fn names_rows_checks_every_entry() {
    let owned = sample();
    let rows: Vec<&(Flat, u32)> = owned.iter().collect();
    assert!(names_rows(&rows, &vec![]));
    assert!(names_rows(&rows, &vec![5, 0, 5]));
    assert!(!names_rows(&rows, &vec![0, 6]));
}

#[test]
fn the_arrangement_of_distinct_rows_does_not_change_pivots_or_claims() {
    let one: Vec<(Flat, u32)> = vec![((4, 0), 40), ((0, 0), 0), ((3, 0), 30), ((2, 0), 20)];
    let two: Vec<(Flat, u32)> = vec![((2, 0), 20), ((3, 0), 30), ((0, 0), 0), ((4, 0), 40)];
    let rows_one: Vec<&(Flat, u32)> = one.iter().collect();
    let rows_two: Vec<&(Flat, u32)> = two.iter().collect();
    let order: Vec<usize> = vec![2, 0, 1];
    let a = Branch::new(0, 2, &order, vec![0, 1, 2, 3], &rows_one);
    let b = Branch::new(0, 2, &order, vec![0, 1, 2, 3], &rows_two);
    assert_eq!(a.pivots, vec![(3, 0), (3, 0), (3, 0)]);
    assert_eq!(a.pivots, b.pivots);
    let sorted_a: Vec<(Flat, u32)> = a.sorted.iter().map(|j| *rows_one[a.bucket[*j]]).collect();
    let sorted_b: Vec<(Flat, u32)> = b.sorted.iter().map(|j| *rows_two[b.bucket[*j]]).collect();
    assert_eq!(sorted_a, sorted_b);
    for i in 0..3 {
        let claimed_a: Vec<(Flat, u32)> = a.intersecting[i]
            .iter()
            .map(|j| *rows_one[a.bucket[*j]])
            .collect();
        let claimed_b: Vec<(Flat, u32)> = b.intersecting[i]
            .iter()
            .map(|j| *rows_two[b.bucket[*j]])
            .collect();
        assert_eq!(claimed_a, claimed_b);
        if i == 2 {
            assert_eq!(claimed_a, vec![((3, 0), 30)]);
        } else {
            assert!(claimed_a.is_empty());
        }
    }
    let free_a: Vec<(Flat, u32)> = (0..4)
        .filter(|j| !a.matched[a.sorted[*j]])
        .map(|j| *rows_one[a.bucket[a.sorted[j]]])
        .collect();
    let free_b: Vec<(Flat, u32)> = (0..4)
        .filter(|j| !b.matched[b.sorted[*j]])
        .map(|j| *rows_two[b.bucket[b.sorted[j]]])
        .collect();
    assert_eq!(free_a, free_b);
    assert_eq!(free_a, vec![((0, 0), 0), ((2, 0), 20), ((4, 0), 40)]);
    let shuffled = Branch::new(0, 2, &order, vec![3, 1, 0, 2], &rows_one);
    assert_eq!(shuffled.pivots, a.pivots);
}

#[test]
fn build_gives_each_of_four_thousand_rows_one_place() {
    let mut state: u64 = 1312;
    let mut owned: Vec<(((i32, i32), (i32, i32), i32), u32)> = vec![];
    for i in 0..4000u32 {
        let mut draw = |span: u64| {
            state = state.wrapping_mul(6364136223846793005).wrapping_add(1442695040888963407);
            ((state >> 33) % span) as i32
        };
        let x = draw(2000) - 1000;
        let w = draw(30);
        let y = draw(2000) - 1000;
        let h = draw(30);
        let t = draw(1000);
        owned.push((((x, x + w), (y, y + h), t), i));
    }
    let rows: Vec<&(((i32, i32), (i32, i32), i32), u32)> = owned.iter().collect();
    let order: Vec<usize> = vec![1, 3, 0, 2, 4];
    let mut branch = Branch::new(0, 9, &order, (0..4000).collect(), &rows);
    let mut alloc = |_size: usize| 0u64;
    let (_, nodes) = branch.build(&mut alloc);
    let mut places: Vec<usize> = vec![];
    for list in branch.intersecting.iter() {
        places.extend(list.iter().map(|j| branch.bucket[*j]));
    }
    for node in nodes.iter() {
        match node {
            Node::Data(leaf) => places.extend(leaf.bucket.iter()),
            Node::Branch(below) => places.extend(below.bucket.iter()),
        }
    }
    assert_eq!(places.len(), 4000);
    places.sort();
    assert_eq!(places, (0..4000).collect::<Vec<usize>>());
}
