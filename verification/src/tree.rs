//! Whole trees: a node with the trees of its children, built from the rows of
//! a bucket and searched for the rows in a bounding box.

use vstd::prelude::*;
use crate::Value;
use crate::branch::{
    Branch, Bytes, Data, Node, claims, lists_in_bucket, named_rows, placed_by,
};
use crate::point::{Point, axis, meets_bbox_at, overlaps_bbox};
use crate::query::{
    box_holds, lemma_matching_rows, lemma_reported_in_bucket, lemma_visited_upto, matching_rows,
};
use crate::sort::row_point;

verus! {

/// A node and, below it, the trees of its children.
pub struct Tree<'a, P, V> where P: Point, V: Value {
    /// The node at the root of the tree.
    pub node: Node<'a, P, V>,
    /// The record of the node.
    pub record: Vec<u8>,
    /// The trees of the children of a branch, in their order; none for a leaf.
    pub children: Vec<Tree<'a, P, V>>,
}

/// Whether two nodes are made of the same: both leaves over the same rows,
/// or both branches of one level, leaf size and order over the same rows.
pub open spec fn same_inputs<'a, P: Point, V: Value>(a: Node<'a, P, V>, b: Node<'a, P, V>) -> bool {
    match (a, b) {
        (Node::Data(x), Node::Data(y)) => x.bucket@ == y.bucket@ && x.rows@ == y.rows@,
        (Node::Branch(x), Node::Branch(y)) => {
            &&& x.level == y.level
            &&& x.max_data_size == y.max_data_size
            &&& x.order@ == y.order@
            &&& x.bucket@ == y.bucket@
            &&& x.rows@ == y.rows@
        },
        _ => false,
    }
}

/// Whether a tree can be grown from `node` to a depth of `depth` branches:
/// a leaf must be well formed; a branch too, with a pivot at least, room for
/// a row in a leaf, and a level that can still rise by `depth`.
pub open spec fn can_grow<'a, P: Point, V: Value>(node: Node<'a, P, V>, depth: usize) -> bool {
    match node {
        Node::Data(d) => d.wf(),
        Node::Branch(b) => {
            &&& b.wf()
            &&& b.order@.len() >= 1
            &&& b.max_data_size >= 2
            &&& b.level + depth <= usize::MAX
            &&& b.bucket@.len() <= u32::MAX
        },
    }
}

impl<'a, P, V> Tree<'a, P, V> where P: Point, V: Value {
    /// The offsets of the children.
    pub open spec fn child_offsets(&self) -> Seq<u64> {
        Seq::new(self.children@.len(), |c: int| self.children@[c].node.offset())
    }

    /// Whether the tree is what the rows of its root make: a leaf stands
    /// alone; a branch has dealt its rows to its children, each child is the
    /// root of a tree of this kind, and every node has its record, which for a
    /// branch names the offsets of its children.
    pub open spec fn wf(&self) -> bool
        decreases self,
    {
        match self.node {
            Node::Data(d) => {
                &&& d.wf()
                &&& self.children@.len() == 0
                &&& self.record@ == d.record()
            },
            Node::Branch(b) => {
                &&& b.wf()
                &&& b.dealt()
                &&& b.order@.len() >= 1
                &&& b.bucket@.len() <= u32::MAX
                &&& self.children@.len() == b.order@.len()
                &&& self.record@ == b.record(self.child_offsets())
                &&& forall|c: int|
                    0 <= c < self.children@.len() ==> b.is_child(
                        c,
                        (#[trigger] self.children@[c]).node,
                    ) && self.children@[c].wf()
            },
        }
    }

    /// Whether the tree is no deeper than `depth` branches.
    pub open spec fn within(&self, depth: nat) -> bool
        decreases self,
    {
        match self.node {
            Node::Data(_) => true,
            Node::Branch(_) => depth > 0 && forall|c: int|
                0 <= c < self.children@.len() ==> (#[trigger] self.children@[c]).within(
                    (depth - 1) as nat,
                ),
        }
    }

    /// Whether every node below the root stands where `alloc` put it: the
    /// offset of each child is an answer of `alloc` to the number of bytes of
    /// the record of the child, and so it is below each child.
    pub open spec fn placed<F: FnMut(usize) -> u64>(&self, alloc: F) -> bool
        decreases self,
    {
        forall|c: int|
            0 <= c < self.children@.len() ==> placed_by(
                alloc,
                (#[trigger] self.children@[c]).node,
            ) && self.children@[c].placed(alloc)
    }

    /// The record of the root has as many bytes as the size of the root says:
    /// as many as `alloc` was asked for.
    pub proof fn lemma_record_fills(&self)
        requires
            self.wf(),
        ensures
            self.record@.len() == self.node.size(),
    {
        match self.node {
            Node::Data(_) => {},
            Node::Branch(b) => {
                b.lemma_record_len(self.child_offsets());
            },
        }
    }

    /// Grows the tree below `node`, no deeper than `depth` branches: forms
    /// the children of a branch, grows the tree of each in their order, and
    /// keeps the record of every node. The offsets of the children of a
    /// branch are asked of `alloc` before the trees of these children are
    /// grown; the root keeps the offset that it has. Returns nothing where
    /// the tree of these rows is deeper than `depth`.
    pub fn grow<F: FnMut(usize) -> u64>(node: Node<'a, P, V>, alloc: &mut F, depth: usize) -> (r:
        Option<Self>)
        requires
            can_grow(node, depth),
            forall|size: usize| call_requires(*old(alloc), (size,)),
        ensures
            *final(alloc) == *old(alloc),
            r matches Some(tree) ==> tree.wf() && tree.within(depth as nat) && same_inputs(
                tree.node,
                node,
            ) && tree.node.offset() == node.offset() && tree.node.size() == node.size()
                && tree.placed(*old(alloc)),
            r is None ==> forall|tree: Self|
                tree.wf() && same_inputs(tree.node, node) ==> !#[trigger] tree.within(depth as nat),
        decreases depth,
    {
        let ghost root = node;
        match node {
            Node::Data(leaf) => {
                let record = leaf.data();
                let tree = Tree { node: Node::Data(leaf), record, children: Vec::new() };
                Some(tree)
            },
            Node::Branch(branch) => {
                if depth == 0 {
                    return None;
                }
                let mut branch = branch;
                let ghost made = branch;
                proof {
                    assert(root == Node::Branch(made));
                }
                let (record, mut nodes) = branch.build(alloc);
                let ghost all = nodes@;
                let n = nodes.len();
                proof {
                    branch.lemma_buckets_in_bucket();
                }
                let mut children: Vec<Tree<'a, P, V>> = Vec::new();
                while nodes.len() > 0
                    invariant
                        n == all.len(),
                        n == branch.order@.len(),
                        depth > 0,
                        children@.len() <= n,
                        nodes@ == all.skip(children@.len() as int),
                        branch.wf(),
                        branch.dealt(),
                        branch.level + depth <= usize::MAX,
                        branch.max_data_size >= 2,
                        branch.bucket@.len() <= u32::MAX,
                        lists_in_bucket(branch.buckets@, branch.bucket@.len()),
                        root == node,
                        root == Node::Branch(made),
                        same_inputs(Node::Branch(branch), Node::Branch(made)),
                        forall|size: usize| call_requires(*alloc, (size,)),
                        *alloc == *old(alloc),
                        forall|c: int|
                            0 <= c < n ==> branch.is_child(c, #[trigger] all[c]) && all[c].fresh()
                                && placed_by(*old(alloc), all[c]),
                        forall|c: int|
                            0 <= c < children@.len() ==> (#[trigger] children@[c]).wf()
                                && children@[c].within((depth - 1) as nat) && same_inputs(
                                children@[c].node,
                                all[c],
                            ) && children@[c].node.offset() == all[c].offset()
                                && children@[c].node.size() == all[c].size()
                                && children@[c].placed(*old(alloc)),
                    decreases nodes@.len(),
                {
                    let ghost at = children@.len() as int;
                    let child = nodes.remove(0);
                    proof {
                        assert(child == all[at]);
                        assert(nodes@ =~= all.skip(at + 1));
                        assert(branch.is_child(at, all[at]));
                        assert(branch.child_bucket(at).len() == branch.buckets@[at]@.len());
                        assert forall|k: int|
                            0 <= k < branch.child_bucket(at).len() implies (
                        #[trigger] branch.child_bucket(at)[k]) < branch.rows@.len() by {
                            assert(branch.buckets@[at]@[k] < branch.bucket@.len());
                        }
                    }
                    match Tree::grow(child, alloc, depth - 1) {
                        Some(tree) => {
                            children.push(tree);
                        },
                        None => {
                            proof {
                                assert forall|tree: Self|
                                    tree.wf() && same_inputs(
                                        tree.node,
                                        root,
                                    ) implies !#[trigger] tree.within(depth as nat) by {
                                    if tree.within(depth as nat) {
                                        match tree.node {
                                            Node::Branch(b) => {
                                                b.lemma_same_branch(&branch);
                                                assert(b.buckets@[at]@ == branch.buckets@[at]@);
                                                assert(b.is_child(at, tree.children@[at].node));
                                                assert(tree.children@[at].wf());
                                                assert(same_inputs(
                                                    tree.children@[at].node,
                                                    child,
                                                ));
                                                assert(tree.children@[at].within(
                                                    (depth - 1) as nat,
                                                ));
                                            },
                                            _ => {},
                                        }
                                    }
                                }
                            }
                            return None;
                        },
                    }
                }
                let tree = Tree { node: Node::Branch(branch), record, children };
                proof {
                    assert(tree.child_offsets() =~= Seq::new(all.len(), |c: int| all[c].offset()));
                    assert forall|c: int| 0 <= c < n implies placed_by(
                        *old(alloc),
                        (#[trigger] tree.children@[c]).node,
                    ) by {
                        assert(placed_by(*old(alloc), all[c]));
                    }
                    assert forall|c: int| 0 <= c < n implies branch.is_child(
                        c,
                        (#[trigger] tree.children@[c]).node,
                    ) by {
                        assert(branch.is_child(c, all[c]));
                        assert(same_inputs(tree.children@[c].node, all[c]));
                        assert(tree.children@[c].wf());
                    }
                }
                Some(tree)
            },
        }
    }
}

/// The number of children that a search for `bbox` goes on to from `node`.
pub open spec fn visit_count<'a, P: Point, V: Value>(node: Node<'a, P, V>, bbox: &P::BBox) -> nat {
    match node {
        Node::Data(_) => 0,
        Node::Branch(b) => b.visited(bbox).len(),
    }
}

/// Whether every row is a point: in each dimension its two ends coincide.
pub open spec fn rows_are_points<P: Point, V>(rows: Seq<&(P, V)>) -> bool {
    forall|r: int, d: int|
        0 <= r < rows.len() && 0 <= d < P::arity() ==> (#[trigger] rows[r].0.lo(d)) == rows[r].0.hi(
            d,
        )
}

/// Whether `bbox` holds every row that `bucket` names.
pub open spec fn box_holds_all<P: Point, V>(
    rows: Seq<&(P, V)>,
    bucket: Seq<usize>,
    bbox: &P::BBox,
) -> bool {
    forall|i: int| 0 <= i < bucket.len() ==> box_holds(bbox, &#[trigger] row_point(rows, bucket, i))
}

impl<'a, P, V> Tree<'a, P, V> where P: Point, V: Value {
    /// What a search for `bbox` finds in the root and below the first `i`
    /// children that it goes on to: in a leaf the rows that meet the box; in
    /// a branch the rows that it reports there, then what it finds in the
    /// tree of each child it goes on to, in their order.
    pub open spec fn found_upto(&self, bbox: &P::BBox, i: nat) -> Seq<usize>
        decreases self, i,
    {
        match self.node {
            Node::Data(d) => matching_rows(d.rows@, bbox, d.bucket@),
            Node::Branch(b) => {
                if i == 0 {
                    b.reported(bbox)
                } else if i <= b.visited(bbox).len() && b.visited(bbox)[i - 1]
                    < self.children@.len() {
                    self.found_upto(bbox, (i - 1) as nat) + self.children@[b.visited(bbox)[i
                        - 1] as int].found_upto(
                        bbox,
                        visit_count(self.children@[b.visited(bbox)[i - 1] as int].node, bbox),
                    )
                } else {
                    self.found_upto(bbox, (i - 1) as nat)
                }
            },
        }
    }

    /// What a search for `bbox` finds in the tree.
    pub open spec fn found(&self, bbox: &P::BBox) -> Seq<usize> {
        self.found_upto(bbox, visit_count(self.node, bbox))
    }

    /// Whether a search for `bbox` passes no row over: wherever in the tree a
    /// pivot claimed a row that meets the box, the pivot meets the box in the
    /// dimension of its level.
    pub open spec fn keeps(&self, bbox: &P::BBox) -> bool
        decreases self,
    {
        match self.node {
            Node::Data(_) => true,
            Node::Branch(b) => {
                &&& forall|j: usize, t: int|
                    j < b.bucket@.len() && 0 <= t < b.order@.len() && #[trigger] claims(
                        b.rows@,
                        b.bucket@,
                        b.level,
                        b.pivots@,
                        b.order@,
                        t,
                        j,
                    ) && overlaps_bbox(&row_point(b.rows@, b.bucket@, j as int), bbox)
                        ==> meets_bbox_at(&b.pivots@[b.order@[t] as int], bbox, b.level)
                &&& forall|c: int|
                    0 <= c < self.children@.len() ==> (#[trigger] self.children@[c]).keeps(bbox)
            },
        }
    }

    /// The rows in the box of a search: what the search finds in the tree,
    /// first the rows of the root, then those of each child that the search
    /// goes on to.
    pub fn query(&self, bbox: &P::BBox) -> (r: Vec<usize>)
        requires
            self.wf(),
        ensures
            r@ == self.found(bbox),
        decreases self,
    {
        match &self.node {
            Node::Data(leaf) => leaf.query(bbox),
            Node::Branch(branch) => {
                let (mut found, visit) = branch.query(bbox);
                proof {
                    assert(branch.order@.len() == branch.order.len());
                    lemma_visited_upto(
                        branch.level,
                        branch.pivots@,
                        branch.order@,
                        bbox,
                        branch.order@.len() as int,
                    );
                    assert forall|k: int| 0 <= k < visit@.len() implies (#[trigger] visit@[k])
                        < self.children@.len() by {
                        assert(branch.visited(bbox).contains(visit@[k]));
                    }
                }
                let mut i: usize = 0;
                while i < visit.len()
                    invariant
                        self.wf(),
                        self.node == Node::Branch(*branch),
                        visit@ == branch.visited(bbox),
                        forall|k: int|
                            0 <= k < visit@.len() ==> (#[trigger] visit@[k]) < self.children@.len(),
                        i <= visit.len(),
                        found@ == self.found_upto(bbox, i as nat),
                    decreases visit.len() - i,
                {
                    let c = visit[i];
                    let mut below = self.children[c].query(bbox);
                    found.append(&mut below);
                    i = i + 1;
                }
                found
            },
        }
    }
}

impl<'a, P, V> Tree<'a, P, V> where P: Point, V: Value {
    /// What a search has found after `i` children stays in what it has found
    /// after more of them, and what it finds in the tree of a child that it
    /// goes on to is part of what it has found when it has gone there.
    pub proof fn lemma_found_grows(&self, bbox: &P::BBox, i: nat, later: nat)
        requires
            self.wf(),
            i <= later <= visit_count(self.node, bbox),
        ensures
            forall|x: usize|
                self.found_upto(bbox, i).contains(x) ==> #[trigger] self.found_upto(
                    bbox,
                    later,
                ).contains(x),
            i < later ==> match self.node {
                Node::Data(_) => true,
                Node::Branch(b) => b.visited(bbox)[i as int] < self.children@.len() ==> forall|
                    x: usize,
                |
                    self.children@[b.visited(bbox)[i as int] as int].found(bbox).contains(x)
                        ==> #[trigger] self.found_upto(bbox, later).contains(x),
            },
        decreases later - i,
    {
        if i < later {
            match self.node {
                Node::Data(_) => {},
                Node::Branch(b) => {
                    self.lemma_found_grows(bbox, i + 1, later);
                    let before = self.found_upto(bbox, i);
                    let next = self.found_upto(bbox, i + 1);
                    let c = b.visited(bbox)[i as int];
                    if c < self.children@.len() {
                        let below = self.children@[c as int].found(bbox);
                        assert(next == before + below);
                        assert forall|x: usize| before.contains(x) implies next.contains(x) by {
                            let k = choose|k: int| 0 <= k < before.len() && before[k] == x;
                            assert(next[k] == x);
                        }
                        assert forall|x: usize| below.contains(x) implies next.contains(x) by {
                            let k = choose|k: int| 0 <= k < below.len() && below[k] == x;
                            assert(next[before.len() + k] == x);
                        }
                    } else {
                        assert(next == before);
                    }
                },
            }
        }
    }

    /// A search reports only rows of the tree that meet its box.
    pub proof fn lemma_found_meet(&self, bbox: &P::BBox, i: nat)
        requires
            self.wf(),
            i <= visit_count(self.node, bbox),
        ensures
            forall|k: int|
                0 <= k < self.found_upto(bbox, i).len() ==> overlaps_bbox(
                    &self.node.rows()[(#[trigger] self.found_upto(bbox, i)[k]) as int].0,
                    bbox,
                ),
        decreases self, i,
    {
        let all = self.found_upto(bbox, i);
        match self.node {
            Node::Data(d) => {
                lemma_matching_rows(d.rows@, bbox, d.bucket@);
                assert(all == matching_rows(d.rows@, bbox, d.bucket@));
                assert forall|k: int| 0 <= k < all.len() implies overlaps_bbox(
                    &self.node.rows()[(#[trigger] all[k]) as int].0,
                    bbox,
                ) by {
                    assert(overlaps_bbox(
                        &d.rows@[matching_rows(d.rows@, bbox, d.bucket@)[k] as int].0,
                        bbox,
                    ));
                }
            },
            Node::Branch(b) => {
                if i == 0 {
                    b.lemma_reported_meet(bbox);
                    assert(all == b.reported(bbox));
                    assert forall|k: int| 0 <= k < all.len() implies overlaps_bbox(
                        &self.node.rows()[(#[trigger] all[k]) as int].0,
                        bbox,
                    ) by {
                        assert(overlaps_bbox(&b.rows@[b.reported(bbox)[k] as int].0, bbox));
                    }
                } else {
                    self.lemma_found_meet(bbox, (i - 1) as nat);
                    let before = self.found_upto(bbox, (i - 1) as nat);
                    let c = b.visited(bbox)[i - 1];
                    if c < self.children@.len() {
                        let child = self.children@[c as int];
                        assert(b.is_child(c as int, child.node));
                        assert(child.node.rows() == b.rows@);
                        child.lemma_found_meet(bbox, visit_count(child.node, bbox));
                        let below = child.found(bbox);
                        assert(all == before + below);
                        assert forall|k: int| 0 <= k < all.len() implies overlaps_bbox(
                            &self.node.rows()[(#[trigger] all[k]) as int].0,
                            bbox,
                        ) by {
                            if k < before.len() {
                                assert(all[k] == before[k]);
                            } else {
                                assert(all[k] == below[k - before.len()]);
                                assert(overlaps_bbox(
                                    &child.node.rows()[below[k - before.len()] as int].0,
                                    bbox,
                                ));
                            }
                        }
                    } else {
                        assert(all == before);
                    }
                }
            },
        }
    }

    /// A search reports only rows that the bucket of the root names.
    pub proof fn lemma_found_in_bucket(&self, bbox: &P::BBox, i: nat)
        requires
            self.wf(),
            i <= visit_count(self.node, bbox),
        ensures
            forall|k: int|
                0 <= k < self.found_upto(bbox, i).len() ==> self.node.bucket().contains(
                    #[trigger] self.found_upto(bbox, i)[k],
                ),
        decreases self, i,
    {
        let all = self.found_upto(bbox, i);
        match self.node {
            Node::Data(d) => {
                lemma_matching_rows(d.rows@, bbox, d.bucket@);
                assert(all == matching_rows(d.rows@, bbox, d.bucket@));
            },
            Node::Branch(b) => {
                if i == 0 {
                    b.lemma_lists_in_bucket();
                    lemma_reported_in_bucket(
                        b.rows@,
                        b.bucket@,
                        b.level,
                        b.pivots@,
                        b.intersecting@,
                        bbox,
                        b.order@.len() as int,
                    );
                    assert(all == b.reported(bbox));
                } else {
                    self.lemma_found_in_bucket(bbox, (i - 1) as nat);
                    let before = self.found_upto(bbox, (i - 1) as nat);
                    let c = b.visited(bbox)[i - 1];
                    if c < self.children@.len() {
                        let child = self.children@[c as int];
                        assert(b.is_child(c as int, child.node));
                        child.lemma_found_in_bucket(bbox, visit_count(child.node, bbox));
                        b.lemma_buckets_in_bucket();
                        let below = child.found(bbox);
                        assert(all == before + below);
                        assert forall|k: int| 0 <= k < all.len() implies self.node.bucket().contains(
                            #[trigger] all[k],
                        ) by {
                            if k < before.len() {
                                assert(all[k] == before[k]);
                            } else {
                                let x = below[k - before.len()];
                                assert(all[k] == x);
                                assert(child.node.bucket().contains(x));
                                let q = choose|q: int|
                                    0 <= q < child.node.bucket().len() && child.node.bucket()[q]
                                        == x;
                                assert(child.node.bucket() == named_rows(
                                    b.bucket@,
                                    b.buckets@[c as int]@,
                                ));
                                assert(b.buckets@[c as int]@[q] < b.bucket@.len());
                                assert(b.bucket@[b.buckets@[c as int]@[q] as int] == x);
                            }
                        }
                    } else {
                        assert(all == before);
                    }
                }
            },
        }
    }

    /// A search that passes no row over finds every row of the tree that
    /// meets its box.
    pub proof fn lemma_found_complete(&self, bbox: &P::BBox, j: usize)
        requires
            self.wf(),
            self.keeps(bbox),
            j < self.node.bucket().len(),
            overlaps_bbox(&row_point(self.node.rows(), self.node.bucket(), j as int), bbox),
        ensures
            self.found(bbox).contains(self.node.bucket()[j as int]),
        decreases self,
    {
        match self.node {
            Node::Data(d) => {
                lemma_matching_rows(d.rows@, bbox, d.bucket@);
            },
            Node::Branch(b) => {
                let count = visit_count(self.node, bbox);
                b.lemma_query_complete(bbox, j);
                if b.matched@[j as int] {
                    self.lemma_found_grows(bbox, 0, count);
                } else {
                    let c = choose|c: usize|
                        #[trigger] b.visited(bbox).contains(c) && c < b.order@.len()
                            && b.buckets@[c as int]@.contains(j);
                    let i = choose|i: int|
                        0 <= i < b.visited(bbox).len() && b.visited(bbox)[i] == c;
                    let k = choose|k: int|
                        0 <= k < b.buckets@[c as int]@.len() && b.buckets@[c as int]@[k] == j;
                    let child = self.children@[c as int];
                    assert(b.is_child(c as int, child.node));
                    assert(child.wf() && child.keeps(bbox));
                    assert(child.node.bucket() == named_rows(b.bucket@, b.buckets@[c as int]@));
                    assert(child.node.bucket()[k] == b.bucket@[j as int]);
                    assert(child.node.rows() == b.rows@);
                    child.lemma_found_complete(bbox, k as usize);
                    self.lemma_found_grows(bbox, i as nat, count);
                }
            },
        }
    }

    /// Where every row is a point, a search passes no row over.
    pub proof fn lemma_points_keep(&self, bbox: &P::BBox)
        requires
            self.wf(),
            rows_are_points(self.node.rows()),
        ensures
            self.keeps(bbox),
        decreases self,
    {
        match self.node {
            Node::Data(_) => {},
            Node::Branch(b) => {
                P::lemma_arity();
                b.lemma_sorted();
                assert forall|j: usize, t: int|
                    j < b.bucket@.len() && 0 <= t < b.order@.len() && #[trigger] claims(
                        b.rows@,
                        b.bucket@,
                        b.level,
                        b.pivots@,
                        b.order@,
                        t,
                        j,
                    ) && overlaps_bbox(
                        &row_point(b.rows@, b.bucket@, j as int),
                        bbox,
                    ) implies meets_bbox_at(&b.pivots@[b.order@[t] as int], bbox, b.level) by {
                    let d = axis::<P>(b.level);
                    assert(0 <= d < P::arity());
                    let row = b.rows@[b.bucket@[j as int] as int].0;
                    assert(row.lo(d) == row.hi(d));
                    b.lemma_scalar_row_claimed(bbox, j, t);
                }
                assert forall|c: int| 0 <= c < self.children@.len() implies (
                #[trigger] self.children@[c]).keeps(bbox) by {
                    assert(b.is_child(c, self.children@[c].node));
                    self.children@[c].lemma_points_keep(bbox);
                }
            },
        }
    }

    /// A search for a box that holds every row of the tree passes no row
    /// over.
    pub proof fn lemma_full_box_keeps(&self, bbox: &P::BBox)
        requires
            self.wf(),
            box_holds_all(self.node.rows(), self.node.bucket(), bbox),
        ensures
            self.keeps(bbox),
        decreases self,
    {
        match self.node {
            Node::Data(_) => {},
            Node::Branch(b) => {
                P::lemma_arity();
                let d = axis::<P>(b.level);
                assert(0 <= d < P::arity());
                assert(b.order@.len() == b.order.len());
                assert forall|i: int| 0 <= i < b.bucket@.len() implies P::bbox_lo(bbox, d) <= (
                #[trigger] row_point(b.rows@, b.bucket@, i)).hi(d) <= P::bbox_hi(bbox, d) by {
                    let p = row_point(b.rows@, b.bucket@, i);
                    assert(box_holds(bbox, &p));
                    assert(P::bbox_lo(bbox, d) <= p.lo(d));
                }
                assert forall|j: usize, t: int|
                    j < b.bucket@.len() && 0 <= t < b.order@.len() && #[trigger] claims(
                        b.rows@,
                        b.bucket@,
                        b.level,
                        b.pivots@,
                        b.order@,
                        t,
                        j,
                    ) && overlaps_bbox(
                        &row_point(b.rows@, b.bucket@, j as int),
                        bbox,
                    ) implies meets_bbox_at(&b.pivots@[b.order@[t] as int], bbox, b.level) by {
                    b.lemma_sorted();
                    assert(b.order@[t] < b.order@.len());
                    b.lemma_box_around_rows(bbox, b.order@[t] as int);
                }
                b.lemma_buckets_in_bucket();
                assert forall|c: int| 0 <= c < self.children@.len() implies (
                #[trigger] self.children@[c]).keeps(bbox) by {
                    let child = self.children@[c];
                    assert(b.is_child(c, child.node));
                    assert(child.node.rows() == b.rows@);
                    assert(child.node.bucket() == named_rows(b.bucket@, b.buckets@[c]@));
                    assert forall|k: int| 0 <= k < child.node.bucket().len() implies box_holds(
                        bbox,
                        &#[trigger] row_point(child.node.rows(), child.node.bucket(), k),
                    ) by {
                        let at = b.buckets@[c]@[k];
                        assert(at < b.bucket@.len());
                        assert(row_point(child.node.rows(), child.node.bucket(), k) == row_point(
                            b.rows@,
                            b.bucket@,
                            at as int,
                        ));
                    }
                    child.lemma_full_box_keeps(bbox);
                }
            },
        }
    }

    /// Over rows that are points a search finds exactly the rows in its box:
    /// a row is among those found if and only if the bucket of the root names
    /// it and its point meets the box.
    pub proof fn lemma_points_found(&self, bbox: &P::BBox)
        requires
            self.wf(),
            rows_are_points(self.node.rows()),
        ensures
            forall|x: usize|
                #[trigger] self.found(bbox).contains(x) <==> self.node.bucket().contains(x)
                    && overlaps_bbox(&self.node.rows()[x as int].0, bbox),
    {
        let count = visit_count(self.node, bbox);
        self.lemma_found_meet(bbox, count);
        self.lemma_found_in_bucket(bbox, count);
        self.lemma_points_keep(bbox);
        assert forall|x: usize|
            self.node.bucket().contains(x) && overlaps_bbox(
                &self.node.rows()[x as int].0,
                bbox,
            ) implies #[trigger] self.found(bbox).contains(x) by {
            let j = choose|j: int| 0 <= j < self.node.bucket().len() && self.node.bucket()[j] == x;
            self.lemma_bucket_fits();
            self.lemma_found_complete(bbox, j as usize);
        }
    }

    /// A search for a box that holds every row of the tree finds every row of
    /// the tree and no other: a row is among those found if and only if the
    /// bucket of the root names it.
    pub proof fn lemma_full_box_found(&self, bbox: &P::BBox)
        requires
            self.wf(),
            box_holds_all(self.node.rows(), self.node.bucket(), bbox),
        ensures
            forall|x: usize|
                #[trigger] self.found(bbox).contains(x) <==> self.node.bucket().contains(x),
    {
        let count = visit_count(self.node, bbox);
        self.lemma_found_in_bucket(bbox, count);
        self.lemma_full_box_keeps(bbox);
        assert forall|x: usize| self.node.bucket().contains(x) implies #[trigger] self.found(
            bbox,
        ).contains(x) by {
            let j = choose|j: int| 0 <= j < self.node.bucket().len() && self.node.bucket()[j] == x;
            let row = row_point(self.node.rows(), self.node.bucket(), j);
            assert(box_holds(bbox, &row));
            assert forall|d: int| 0 <= d < P::arity() implies crate::point::overlaps_window(
                #[trigger] row.lo(d),
                row.hi(d),
                P::bbox_lo(bbox, d),
                P::bbox_hi(bbox, d),
            ) by {
            }
            self.lemma_bucket_fits();
            self.lemma_found_complete(bbox, j as usize);
        }
    }

    /// The bucket of the root has no more entries than a `usize` counts.
    pub proof fn lemma_bucket_fits(&self)
        ensures
            self.node.bucket().len() <= usize::MAX,
    {
        match self.node {
            Node::Data(d) => {
                assert(d.bucket@.len() == d.bucket.len());
            },
            Node::Branch(b) => {
                assert(b.bucket@.len() == b.bucket.len());
            },
        }
    }
}

impl<'a, P, V> Tree<'a, P, V> where P: Point, V: Value {
    /// Whether two trees stand at the same places: their roots at the same
    /// offset, and their children likewise, each with its like.
    pub open spec fn same_places(&self, other: &Self) -> bool
        decreases self,
    {
        &&& self.node.offset() == other.node.offset()
        &&& self.children@.len() == other.children@.len()
        &&& forall|c: int|
            0 <= c < self.children@.len() ==> (#[trigger] self.children@[c]).same_places(
                &other.children@[c],
            )
    }

    /// Whether two trees have the same records: their roots, and their
    /// children likewise, each with its like.
    pub open spec fn same_records(&self, other: &Self) -> bool
        decreases self,
    {
        &&& self.record@ == other.record@
        &&& self.children@.len() == other.children@.len()
        &&& forall|c: int|
            0 <= c < self.children@.len() ==> (#[trigger] self.children@[c]).same_records(
                &other.children@[c],
            )
    }

    /// A tree is fixed by the rows of its root and the places of its nodes:
    /// two trees made of the same that stand at the same places have the same
    /// records throughout.
    pub proof fn lemma_same_tree(&self, other: &Self)
        requires
            self.wf(),
            other.wf(),
            same_inputs(self.node, other.node),
            self.same_places(other),
        ensures
            self.same_records(other),
        decreases self,
    {
        match (self.node, other.node) {
            (Node::Branch(a), Node::Branch(b)) => {
                a.lemma_same_branch(&b);
                assert(self.child_offsets() =~= other.child_offsets()) by {
                    assert forall|c: int|
                        0 <= c < self.children@.len() implies self.children@[c].node.offset()
                        == other.children@[c].node.offset() by {
                        assert(self.children@[c].same_places(&other.children@[c]));
                    }
                }
                assert(a.record(self.child_offsets()) == b.record(self.child_offsets()));
                assert forall|c: int| 0 <= c < self.children@.len() implies (
                #[trigger] self.children@[c]).same_records(&other.children@[c]) by {
                    assert(a.buckets@[c]@ == b.buckets@[c]@);
                    assert(a.is_child(c, self.children@[c].node));
                    assert(b.is_child(c, other.children@[c].node));
                    assert(self.children@[c].same_places(&other.children@[c]));
                    self.children@[c].lemma_same_tree(&other.children@[c]);
                }
            },
            _ => {},
        }
    }
}

} // verus!
