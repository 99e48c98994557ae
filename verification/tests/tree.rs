use eyros::branch::{Branch, Data, Node};
use eyros::tree::Tree;

type Dot = (i32, i32, i32);
type Cuboid = ((i32, i32), (i32, i32), i32);
type Window = ((i32, i32, i32), (i32, i32, i32));

fn draw(state: &mut u64, span: u64) -> i32 {
    *state = state
        .wrapping_mul(6364136223846793005)
        .wrapping_add(1442695040888963407);
    ((*state >> 33) % span) as i32
}

fn dots(count: usize, seed: u64) -> Vec<(Dot, u32)> {
    let mut state = seed;
    let mut rows = vec![];
    for i in 0..count {
        let x = draw(&mut state, 2000) - 1000;
        let y = draw(&mut state, 2000) - 1000;
        let t = draw(&mut state, 1000);
        rows.push(((x, y, t), i as u32));
    }
    rows
}

fn cuboids(count: usize, seed: u64) -> Vec<(Cuboid, u32)> {
    let mut state = seed;
    let mut rows = vec![];
    for i in 0..count {
        let x = draw(&mut state, 2000) - 1000;
        let w = draw(&mut state, 40);
        let y = draw(&mut state, 2000) - 1000;
        let h = draw(&mut state, 40);
        let t = draw(&mut state, 1000);
        rows.push((((x, x + w), (y, y + h), t), i as u32));
    }
    rows
}

fn inside(p: &Dot, bbox: &Window) -> bool {
    (bbox.0).0 <= p.0
        && p.0 <= (bbox.1).0
        && (bbox.0).1 <= p.1
        && p.1 <= (bbox.1).1
        && (bbox.0).2 <= p.2
        && p.2 <= (bbox.1).2
}

fn image<'a, P: eyros::point::Point, V: eyros::Value>(
    tree: &Tree<'a, P, V>,
    file: &mut Vec<Option<u8>>,
) {
    let at = match &tree.node {
        Node::Data(leaf) => leaf.offset as usize,
        Node::Branch(branch) => branch.offset as usize,
    };
    if file.len() < at + tree.record.len() {
        file.resize(at + tree.record.len(), None);
    }
    for (i, byte) in tree.record.iter().enumerate() {
        assert!(file[at + i].is_none());
        file[at + i] = Some(*byte);
    }
    for child in tree.children.iter() {
        image(child, file);
    }
}

#[test]
fn a_leaf_grows_into_a_tree_of_one_node() {
    let owned = dots(5, 1);
    let rows: Vec<&(Dot, u32)> = owned.iter().collect();
    let leaf = Data::new(vec![0, 1, 2, 3, 4], &rows);
    let mut alloc = |_size: usize| 0u64;
    let tree = Tree::grow(Node::Data(leaf), &mut alloc, 0).unwrap();
    assert!(tree.children.is_empty());
    assert_eq!(tree.record.len(), 5 + 5 * 16);
    assert_eq!(
        tree.query(&((-1000, -1000, 0), (1000, 1000, 1000))),
        vec![0, 1, 2, 3, 4]
    );
}

#[test]
fn grow_gives_up_where_the_tree_is_deeper_than_allowed() {
    let owned = dots(400, 3);
    let rows: Vec<&(Dot, u32)> = owned.iter().collect();
    let order: Vec<usize> = vec![1, 3, 0, 2, 4];
    let mut depths = vec![];
    for depth in 0..12 {
        let root = Branch::new(0, 9, &order, (0..400).collect(), &rows);
        let mut alloc = |_size: usize| 0u64;
        depths.push(Tree::grow(Node::Branch(root), &mut alloc, depth).is_some());
    }
    assert!(!depths[0]);
    assert!(!depths[1]);
    assert!(depths[11]);
    let first = depths.iter().position(|grown| *grown).unwrap();
    for depth in 0..12 {
        assert_eq!(depths[depth], depth >= first);
    }
}

#[test]
fn the_records_of_a_tree_fill_what_was_allocated() {
    let owned = dots(1000, 4);
    let rows: Vec<&(Dot, u32)> = owned.iter().collect();
    let order: Vec<usize> = vec![1, 3, 0, 2, 4];
    let mut root = Branch::new(0, 9, &order, (0..1000).collect(), &rows);
    let mut next: u64 = 0;
    let mut alloc = |size: usize| {
        let at = next;
        next += size as u64;
        at
    };
    root.allocate(&mut alloc);
    let tree = Tree::grow(Node::Branch(root), &mut alloc, 64).unwrap();
    let mut file: Vec<Option<u8>> = vec![];
    image(&tree, &mut file);
    assert_eq!(file.len() as u64, next);
    assert!(file.iter().all(|byte| byte.is_some()));
    assert_eq!(file[0], Some(0));
}

#[test]
fn two_trees_of_the_same_rows_have_the_same_records() {
    let owned = cuboids(800, 6);
    let rows: Vec<&(Cuboid, u32)> = owned.iter().collect();
    let order: Vec<usize> = vec![1, 3, 0, 2, 4];
    let mut files = vec![];
    for _ in 0..2 {
        let mut root = Branch::new(0, 9, &order, (0..800).collect(), &rows);
        let mut next: u64 = 0;
        let mut alloc = |size: usize| {
            let at = next;
            next += size as u64;
            at
        };
        root.allocate(&mut alloc);
        let tree = Tree::grow(Node::Branch(root), &mut alloc, 64).unwrap();
        let mut file: Vec<Option<u8>> = vec![];
        image(&tree, &mut file);
        files.push(file);
    }
    assert_eq!(files[0], files[1]);
    assert!(files[0].len() > 800 * 24);
}

#[test]
fn search_over_points_finds_the_rows_in_the_box() {
    let owned = dots(4000, 12);
    let rows: Vec<&(Dot, u32)> = owned.iter().collect();
    let order: Vec<usize> = vec![1, 3, 0, 2, 4];
    let root = Branch::new(0, 9, &order, (0..4000).collect(), &rows);
    let mut alloc = |_size: usize| 0u64;
    let tree = Tree::grow(Node::Branch(root), &mut alloc, 64).unwrap();
    let all: Window = ((-1000, -1000, 0), (1000, 1000, 1000));
    let part: Window = ((-800, 100, 0), (200, 500, 500));
    let small: Window = ((-500, 800, 200), (-450, 850, 300));
    let none: Window = ((10, 10, 10), (9, 9, 9));
    for bbox in [all, part, small, none].iter() {
        let mut found = tree.query(bbox);
        found.sort();
        let expected: Vec<usize> = (0..4000).filter(|i| inside(&owned[*i].0, bbox)).collect();
        assert_eq!(found, expected);
    }
    assert_eq!(tree.query(&all).len(), 4000);
    assert_eq!(tree.query(&none).len(), 0);
}

#[test]
fn search_does_not_depend_on_the_order_of_the_rows() {
    let owned = dots(1500, 8);
    let rows: Vec<&(Dot, u32)> = owned.iter().collect();
    let order: Vec<usize> = vec![1, 3, 0, 2, 4];
    let part: Window = ((-300, -300, 100), (600, 400, 900));
    let forward: Vec<usize> = (0..1500).collect();
    let backward: Vec<usize> = (0..1500).rev().collect();
    let mut shuffled: Vec<usize> = (0..1500).collect();
    let mut state: u64 = 99;
    for i in (1..1500).rev() {
        let j = draw(&mut state, (i + 1) as u64) as usize;
        shuffled.swap(i, j);
    }
    let mut results = vec![];
    for bucket in [forward, backward, shuffled] {
        let root = Branch::new(0, 9, &order, bucket, &rows);
        let mut alloc = |_size: usize| 0u64;
        let tree = Tree::grow(Node::Branch(root), &mut alloc, 64).unwrap();
        let mut found = tree.query(&part);
        found.sort();
        results.push(found);
    }
    assert_eq!(results[0], results[1]);
    assert_eq!(results[0], results[2]);
    assert!(results[0].len() > 0);
}

#[test]
fn search_for_a_box_around_all_rows_finds_all_rows() {
    let owned = cuboids(4000, 13);
    let rows: Vec<&(Cuboid, u32)> = owned.iter().collect();
    let order: Vec<usize> = vec![1, 3, 0, 2, 4];
    let root = Branch::new(0, 9, &order, (0..4000).collect(), &rows);
    let mut alloc = |_size: usize| 0u64;
    let tree = Tree::grow(Node::Branch(root), &mut alloc, 64).unwrap();
    let mut found = tree.query(&((-1000, -1000, 0), (1040, 1040, 1000)));
    assert_eq!(found.len(), 4000);
    found.sort();
    assert_eq!(found, (0..4000).collect::<Vec<usize>>());
}

#[test]
fn search_over_intervals_reports_only_rows_in_the_box() {
    let owned = cuboids(4000, 13);
    let rows: Vec<&(Cuboid, u32)> = owned.iter().collect();
    let order: Vec<usize> = vec![1, 3, 0, 2, 4];
    let root = Branch::new(0, 9, &order, (0..4000).collect(), &rows);
    let mut alloc = |_size: usize| 0u64;
    let tree = Tree::grow(Node::Branch(root), &mut alloc, 64).unwrap();
    let part: Window = ((-800, 100, 0), (200, 500, 500));
    let found = tree.query(&part);
    assert!(found.len() > 0);
    for row in found.iter() {
        let p = owned[*row].0;
        assert!((part.0).0 <= (p.0).1 && (p.0).0 <= (part.1).0);
        assert!((part.0).1 <= (p.1).1 && (p.1).0 <= (part.1).1);
        assert!((part.0).2 <= p.2 && p.2 <= (part.1).2);
    }
    let mut once = found.clone();
    once.sort();
    once.dedup();
    assert_eq!(once.len(), found.len());
}

#[test]
fn a_row_that_the_bucket_names_twice_is_found_twice() {
    let owned = dots(300, 21);
    let rows: Vec<&(Dot, u32)> = owned.iter().collect();
    let order: Vec<usize> = vec![1, 3, 0, 2, 4];
    let mut bucket: Vec<usize> = (0..300).collect();
    bucket.extend(0..100);
    bucket.extend(0..10);
    let root = Branch::new(0, 9, &order, bucket, &rows);
    let mut alloc = |_size: usize| 0u64;
    let tree = Tree::grow(Node::Branch(root), &mut alloc, 200).unwrap();
    let all: Window = ((-1000, -1000, 0), (1000, 1000, 1000));
    let part: Window = ((-500, -500, 0), (500, 500, 1000));
    for bbox in [all, part].iter() {
        let found = tree.query(bbox);
        let mut times = vec![0usize; 300];
        for row in found.iter() {
            times[*row] += 1;
        }
        for row in 0..300 {
            let held = if row < 10 {
                3
            } else if row < 100 {
                2
            } else {
                1
            };
            let expected = if inside(&owned[row].0, bbox) { held } else { 0 };
            assert_eq!(times[row], expected);
        }
    }
}
