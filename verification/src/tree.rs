//! A binary search tree whose nodes live in a slot-map arena and reference
//! their children by arena key.

use vstd::prelude::*;

use crate::shape::{
    bfs_seq, bst, in_order, lemma_bfs_drop_leaf, lemma_contains_member, lemma_in_order_ascending,
    lemma_insert_shape,
    lemma_queue_size_add, lemma_queue_size_one, post_order, pre_order, queue_size, shape_of_seq,
    size, spec_contains, spec_insert, strictly_ascending, value_set, Shape,
};
use std::collections::VecDeque;
use crate::slot_map::{SlotKey, SlotMap};

verus! {

/// A tree node: a value plus optional arena keys of the two children.
#[derive(Debug, Clone, Copy)]
pub struct TreeNode {
    data: u64,
    left: Option<SlotKey>,
    right: Option<SlotKey>,
}

impl TreeNode {
    fn new(data: u64) -> (n: Self)
        ensures
            n == (TreeNode { data, left: None, right: None }),
    {
        Self { data, left: None, right: None }
    }
}

/// The three depth-first visit orders.
#[derive(Debug, Clone, Copy)]
pub enum TreeOrdering {
    /// NLR
    Pre,
    /// LNR
    In,
    /// LRN
    Post,
}

/// A binary search tree stored in an arena; children are arena keys.
pub struct Tree {
    storage: SlotMap<TreeNode>,
    root: SlotKey,
}

/// The shape rooted at arena index `i`; an out-of-range or empty slot, or a
/// child link that does not move strictly forward, reads as a leaf.
spec fn build(s: Seq<Option<TreeNode>>, i: int) -> Shape
    decreases s.len() - i, 1int,
{
    if 0 <= i < s.len() && s[i] is Some {
        match s[i] {
            Some(node) => Shape::Node {
                value: node.data,
                left: Box::new(child_shape(s, i, node.left)),
                right: Box::new(child_shape(s, i, node.right)),
            },
            None => Shape::Leaf,
        }
    } else {
        Shape::Leaf
    }
}

spec fn child_shape(s: Seq<Option<TreeNode>>, i: int, c: Option<SlotKey>) -> Shape
    decreases s.len() - i, 0int,
{
    match c {
        Some(k) => if i < k@ < s.len() {
            build(s, k@)
        } else {
            Shape::Leaf
        },
        None => Shape::Leaf,
    }
}

/// The arena indices of the nodes of the subtree rooted at `i`.
spec fn subtree_keys(s: Seq<Option<TreeNode>>, i: int) -> Set<int>
    decreases s.len() - i, 1int,
{
    if 0 <= i < s.len() && s[i] is Some {
        match s[i] {
            Some(node) => set![i].union(child_keys(s, i, node.left)).union(
                child_keys(s, i, node.right),
            ),
            None => Set::empty(),
        }
    } else {
        Set::empty()
    }
}

spec fn child_keys(s: Seq<Option<TreeNode>>, i: int, c: Option<SlotKey>) -> Set<
    int,
>
    decreases s.len() - i, 0int,
{
    match c {
        Some(k) => if i < k@ < s.len() {
            subtree_keys(s, k@)
        } else {
            Set::empty()
        },
        None => Set::empty(),
    }
}

/// No arena index appears twice in the subtree rooted at `i`: the two child
/// subtrees use disjoint key sets, recursively.
spec fn keys_sep(s: Seq<Option<TreeNode>>, i: int) -> bool
    decreases s.len() - i, 1int,
{
    if 0 <= i < s.len() && s[i] is Some {
        match s[i] {
            Some(node) => {
                &&& child_sep(s, i, node.left)
                &&& child_sep(s, i, node.right)
                &&& child_keys(s, i, node.left).disjoint(child_keys(s, i, node.right))
            },
            None => true,
        }
    } else {
        true
    }
}

spec fn child_sep(s: Seq<Option<TreeNode>>, i: int, c: Option<SlotKey>) -> bool
    decreases s.len() - i, 0int,
{
    match c {
        Some(k) => i < k@ < s.len() && keys_sep(s, k@),
        None => true,
    }
}

/// The value stored at arena index `i`.
spec fn value_at(s: Seq<Option<TreeNode>>, i: int) -> u64 {
    match s[i] {
        Some(node) => node.data,
        None => 0,
    }
}

/// The slot at `i` is occupied and its child links move strictly forward
/// and stay in range.
spec fn node_ok(s: Seq<Option<TreeNode>>, i: int) -> bool {
    &&& s[i] is Some
    &&& link_ok(s, i, s[i].unwrap().left)
    &&& link_ok(s, i, s[i].unwrap().right)
}

/// Every slot is occupied and every child link moves strictly forward and
/// stays in range.
spec fn arena_ok(s: Seq<Option<TreeNode>>) -> bool {
    forall|i: int| 0 <= i < s.len() ==> #[trigger] node_ok(s, i)
}

spec fn link_ok(s: Seq<Option<TreeNode>>, i: int, c: Option<SlotKey>) -> bool {
    match c {
        Some(k) => i < k@ < s.len(),
        None => true,
    }
}

impl View for Tree {
    type V = Shape;

    closed spec fn view(&self) -> Shape {
        build(self.storage@, self.root@)
    }
}

impl Tree {
    /// The values in arena-storage order, one per slot.
    pub closed spec fn stored_values(self) -> Seq<u64> {
        Seq::new(self.storage@.len(), |j: int| value_at(self.storage@, j))
    }

    /// The internal well-formedness of the tree: a fully occupied arena whose
    /// links form one binary search tree rooted at slot zero, holding
    /// pairwise distinct values.
    pub closed spec fn well_formed(self) -> bool {
        let s = self.storage@;
        &&& self.storage.well_formed()
        &&& s.len() >= 1
        &&& self.root@ == 0
        &&& arena_ok(s)
        &&& keys_sep(s, 0)
        &&& forall|j: int| 0 <= j < s.len() ==> subtree_keys(s, 0).contains(j)
        &&& bst(build(s, 0))
        &&& forall|j1: int, j2: int|
            0 <= j1 < j2 < s.len() ==> #[trigger] value_at(s, j1) != #[trigger] value_at(s, j2)
    }
}

impl Tree {
    pub fn new(root: u64) -> (t: Tree)
        ensures
            t.well_formed(),
            t@ == (Shape::Node {
                value: root,
                left: Box::new(Shape::Leaf),
                right: Box::new(Shape::Leaf),
            }),
            t.stored_values() == seq![root],
    {
        let mut storage = SlotMap::new();
        let root_key = storage.insert(TreeNode::new(root));
        let t = Tree { storage, root: root_key };
        proof {
            let s = t.storage@;
            assert(s =~= Seq::<Option<TreeNode>>::empty().push(
                Some(TreeNode { data: root, left: None, right: None }),
            ));
            assert(s.len() == 1);
            assert(node_ok(s, 0));
            assert(build(s, 0) == (Shape::Node {
                value: root,
                left: Box::new(Shape::Leaf),
                right: Box::new(Shape::Leaf),
            }));
            assert(subtree_keys(s, 0) =~= set![0int]);
            assert(keys_sep(s, 0));
            assert(bst(Shape::Leaf));
            assert(value_set(Shape::Leaf) =~= Set::<u64>::empty());
            assert(bst(build(s, 0)));
            assert(t.stored_values() =~= seq![root]);
        }
        t
    }

    /// Check if tree contains
    pub fn contains(&self, data: u64) -> (r: bool)
        requires
            self.well_formed(),
        ensures
            r == value_set(self@).contains(data),
    {
        proof {
            lemma_contains_member(self@, data);
        }
        contains_from(&self.storage, self.root, data)
    }

    /// Insert data into the tree, placing it in an ordered location
    ///
    /// # NOTE
    ///
    /// If the data already exists in the tree, then it just returns the data
    pub fn insert_ordered(&mut self, data: u64) -> (r: Result<(), u64>)
        requires
            old(self).well_formed(),
        ensures
            final(self).well_formed(),
            r matches Err(e) ==> e == data && *final(self) == *old(self) && value_set(
                old(self)@,
            ).contains(data),
            r is Ok ==> {
                &&& !value_set(old(self)@).contains(data)
                &&& final(self)@ == spec_insert(old(self)@, data)
                &&& final(self).stored_values() == old(self).stored_values().push(data)
            },
    {
        proof {
            lemma_contains_member(old(self)@, data);
        }
        let root_key = self.root;
        let res = insert_from(&mut self.storage, root_key, data);
        proof {
            let s0 = old(self).storage@;
            let s2 = self.storage@;
            if res is Ok {
                let n = s0.len() as int;
                lemma_insert_shape(build(s0, 0), data);
                assert forall|j: int| 0 <= j < s2.len() implies subtree_keys(s2, 0).contains(
                    j,
                ) by {
                    if j < n {
                        assert(subtree_keys(s0, 0).contains(j));
                    }
                }
                lemma_values_cover(s0, 0);
                assert forall|j1: int, j2: int| 0 <= j1 < j2 < s2.len() implies #[trigger] value_at(
                    s2,
                    j1,
                ) != #[trigger] value_at(s2, j2) by {
                    if j2 < n {
                        assert(value_at(s0, j1) != value_at(s0, j2));
                    } else {
                        assert(value_at(s2, j2) == data);
                        assert(subtree_keys(s0, 0).contains(j1));
                        assert(value_set(build(s0, 0)).contains(value_at(s0, j1)));
                    }
                }
                assert(self.stored_values() =~= old(self).stored_values().push(data));
            } else {
                assert(*self == *old(self));
            }
        }
        res
    }
}

/// The sequence a traversal of the given ordering yields on a tree.
pub open spec fn ordered_seq(ordering: TreeOrdering, t: Shape) -> Seq<u64> {
    match ordering {
        TreeOrdering::Pre => pre_order(t),
        TreeOrdering::In => in_order(t),
        TreeOrdering::Post => post_order(t),
    }
}

/// The shape hanging from an optional arena key.
spec fn key_shape(s: Seq<Option<TreeNode>>, c: Option<SlotKey>) -> Shape {
    match c {
        Some(k) => if 0 <= k@ < s.len() {
            build(s, k@)
        } else {
            Shape::Leaf
        },
        None => Shape::Leaf,
    }
}

/// The shape hanging from one arena key.
spec fn shape_at(s: Seq<Option<TreeNode>>, k: SlotKey) -> Shape {
    if 0 <= k@ < s.len() {
        build(s, k@)
    } else {
        Shape::Leaf
    }
}

/// The shapes hanging from a queue of arena keys.
spec fn shapes_of(s: Seq<Option<TreeNode>>, q: Seq<SlotKey>) -> Seq<Shape> {
    q.map(|i: int, k: SlotKey| shape_at(s, k))
}

impl Tree {
    /// Collect the tree's values in the order provided
    pub fn order_values(&self, ordering: TreeOrdering) -> (r: Vec<u64>)
        requires
            self.well_formed(),
        ensures
            r@ == ordered_seq(ordering, self@),
    {
        let mut out: Vec<u64> = Vec::new();
        self.inner_out(ordering, Some(self.root), &mut out);
        proof {
            assert(key_shape(self.storage@, Some(self.root)) == self@);
            assert(out@ =~= ordered_seq(ordering, self@));
        }
        out
    }

    fn inner_out(&self, ordering: TreeOrdering, node_key: Option<SlotKey>, out: &mut Vec<u64>)
        requires
            arena_ok(self.storage@),
            match node_key {
                Some(k) => 0 <= k@ < self.storage@.len(),
                None => true,
            },
        ensures
            final(out)@ == old(out)@ + ordered_seq(ordering, key_shape(self.storage@, node_key)),
        decreases size(key_shape(self.storage@, node_key)),
    {
        let s = Ghost(self.storage@);
        let node = if let Some(node_key) = node_key {
            proof {
                assert(node_ok(s@, node_key@));
            }
            *self.storage.get(node_key)
        } else {
            proof {
                assert(out@ =~= old(out)@ + ordered_seq(ordering, Shape::Leaf));
            }
            return;
        };
        let k = Ghost(node_key.unwrap()@);
        proof {
            assert(node_ok(s@, k@));
            assert(key_shape(s@, node_key) == build(s@, k@));
            assert(child_shape(s@, k@, node.left) == key_shape(s@, node.left));
            assert(child_shape(s@, k@, node.right) == key_shape(s@, node.right));
            assert(size(key_shape(s@, node.left)) < size(build(s@, k@)));
            assert(size(key_shape(s@, node.right)) < size(build(s@, k@)));
        }
        let shape = Ghost(build(s@, k@));
        let lseq = Ghost(ordered_seq(ordering, key_shape(s@, node.left)));
        let rseq = Ghost(ordered_seq(ordering, key_shape(s@, node.right)));
        match ordering {
            TreeOrdering::Pre => {
                out.push(node.data);
                self.inner_out(ordering, node.left, out);
                self.inner_out(ordering, node.right, out);
                proof {
                    assert(pre_order(shape@) == seq![node.data] + lseq@ + rseq@);
                    assert(out@ =~= old(out)@ + pre_order(shape@));
                }
            },
            TreeOrdering::In => {
                self.inner_out(ordering, node.left, out);
                out.push(node.data);
                self.inner_out(ordering, node.right, out);
                proof {
                    assert(in_order(shape@) == lseq@ + seq![node.data] + rseq@);
                    assert(out@ =~= old(out)@ + in_order(shape@));
                }
            },
            TreeOrdering::Post => {
                self.inner_out(ordering, node.left, out);
                self.inner_out(ordering, node.right, out);
                out.push(node.data);
                proof {
                    assert(post_order(shape@) == lseq@ + rseq@ + seq![node.data]);
                    assert(out@ =~= old(out)@ + post_order(shape@));
                }
            },
        }
    }

    /// Collect the tree's values breadth first: level order, each node's
    /// left child queued before its right child
    pub fn breadth_values(&self) -> (r: Vec<u64>)
        requires
            self.well_formed(),
        ensures
            r@ == bfs_seq(seq![self@]),
    {
        let mut queue = VecDeque::<SlotKey>::new();
        queue.push_back(self.root);
        let mut out: Vec<u64> = Vec::new();
        proof {
            assert(queue@ =~= seq![self.root]);
            assert(shapes_of(self.storage@, queue@) =~= seq![self@]);
        }
        while queue.len() > 0
            invariant
                arena_ok(self.storage@),
                forall|qi: int|
                    0 <= qi < queue@.len() ==> 0 <= (#[trigger] queue@[qi])@
                        < self.storage@.len(),
                out@ + bfs_seq(shapes_of(self.storage@, queue@)) == bfs_seq(
                    seq![build(self.storage@, self.root@)],
                ),
            decreases queue_size(shapes_of(self.storage@, queue@)), queue@.len(),
        {
            let s = Ghost(self.storage@);
            let prev_queue = Ghost(queue@);
            let prev_out = Ghost(out@);
            let current_key = match queue.pop_front() {
                Some(current_key) => current_key,
                None => unreached(),
            };
            proof {
                assert(current_key == prev_queue@[0]);
                assert(node_ok(s@, current_key@));
            }
            let current_node = *self.storage.get(current_key);
            out.push(current_node.data);

            // Insert the left node if it exists
            if let Some(left_node) = current_node.left {
                queue.push_back(left_node);
            }
            // Insert the right node if it exists
            if let Some(right_node) = current_node.right {
                queue.push_back(right_node);
            }

            proof {
                let rest = shapes_of(s@, prev_queue@.drop_first());
                let cur_shape = build(s@, current_key@);
                let lshape = key_shape(s@, current_node.left);
                let rshape = key_shape(s@, current_node.right);
                assert(child_shape(s@, current_key@, current_node.left) == lshape);
                assert(child_shape(s@, current_key@, current_node.right) == rshape);
                assert(shapes_of(s@, prev_queue@) =~= seq![cur_shape] + rest);
                assert((seq![cur_shape] + rest)[0] == cur_shape);
                assert((seq![cur_shape] + rest).drop_first() =~= rest);
                assert(bfs_seq(shapes_of(s@, prev_queue@)) == seq![current_node.data] + bfs_seq(
                    rest + seq![lshape, rshape],
                ));
                match current_node.left {
                    Some(lk) => {
                        match current_node.right {
                            Some(rk) => {
                                assert(shapes_of(s@, queue@) =~= rest + seq![lshape, rshape]);
                            },
                            None => {
                                assert(rshape == Shape::Leaf);
                                assert(rest + seq![lshape, rshape] =~= (rest + seq![lshape])
                                    + seq![Shape::Leaf] + Seq::<Shape>::empty());
                                lemma_bfs_drop_leaf(rest + seq![lshape], Seq::<Shape>::empty());
                                assert((rest + seq![lshape]) + Seq::<Shape>::empty() =~= rest
                                    + seq![lshape]);
                                assert(shapes_of(s@, queue@) =~= rest + seq![lshape]);
                            },
                        }
                    },
                    None => {
                        assert(lshape == Shape::Leaf);
                        match current_node.right {
                            Some(rk) => {
                                assert(rest + seq![lshape, rshape] =~= rest + seq![Shape::Leaf]
                                    + seq![rshape]);
                                lemma_bfs_drop_leaf(rest, seq![rshape]);
                                assert(shapes_of(s@, queue@) =~= rest + seq![rshape]);
                            },
                            None => {
                                assert(rshape == Shape::Leaf);
                                assert(rest + seq![lshape, rshape] =~= (rest + seq![Shape::Leaf])
                                    + seq![Shape::Leaf] + Seq::<Shape>::empty());
                                lemma_bfs_drop_leaf(rest + seq![Shape::Leaf], Seq::<Shape>::empty());
                                assert((rest + seq![Shape::Leaf]) + Seq::<Shape>::empty() =~= rest
                                    + seq![Shape::Leaf]);
                                assert(rest + seq![Shape::Leaf] =~= rest + seq![Shape::Leaf]
                                    + Seq::<Shape>::empty());
                                lemma_bfs_drop_leaf(rest, Seq::<Shape>::empty());
                                assert(rest + Seq::<Shape>::empty() =~= rest);
                                assert(shapes_of(s@, queue@) =~= rest);
                            },
                        }
                    },
                }
                // the new output plus the remaining work still add up
                assert(out@ =~= prev_out@ + seq![current_node.data]);
                assert(out@ + bfs_seq(shapes_of(s@, queue@)) =~= prev_out@ + bfs_seq(
                    shapes_of(s@, prev_queue@),
                ));
                // the measure shrinks by exactly the visited node
                lemma_queue_size_add(seq![cur_shape], rest);
                assert(seq![cur_shape].drop_first() =~= Seq::<Shape>::empty());
                assert(queue_size(Seq::<Shape>::empty()) == 0);
                assert(queue_size(seq![cur_shape]) == size(cur_shape));
                assert(queue_size(shapes_of(s@, prev_queue@)) == size(cur_shape) + queue_size(
                    rest,
                ));
                assert(cur_shape == (Shape::Node {
                    value: current_node.data,
                    left: Box::new(lshape),
                    right: Box::new(rshape),
                }));
                assert(size(cur_shape) == 1 + size(lshape) + size(rshape));
                match current_node.left {
                    Some(lk) => {
                        match current_node.right {
                            Some(rk) => {
                                assert(shapes_of(s@, queue@) =~= (rest + seq![lshape])
                                    + seq![rshape]);
                                lemma_queue_size_one(rest, lshape);
                                lemma_queue_size_one(rest + seq![lshape], rshape);
                            },
                            None => {
                                lemma_queue_size_one(rest, lshape);
                            },
                        }
                    },
                    None => {
                        match current_node.right {
                            Some(rk) => {
                                lemma_queue_size_one(rest, rshape);
                            },
                            None => {},
                        }
                    },
                }
                assert(queue_size(shapes_of(s@, queue@)) < queue_size(
                    shapes_of(s@, prev_queue@),
                ));
            }
        }
        proof {
            assert(shapes_of(self.storage@, queue@) =~= Seq::<Shape>::empty());
            assert(bfs_seq(Seq::<Shape>::empty()) == Seq::<u64>::empty());
            assert(out@ =~= bfs_seq(seq![self@]));
        }
        out
    }
}

impl Tree {
    /// Deletes an element if it exists, rebuilding the whole tree from the
    /// surviving values in storage order
    pub fn delete(self, data: u64) -> (r: Self)
        requires
            self.well_formed(),
            value_set(self@).contains(data) ==> exists|w: u64|
                value_set(self@).contains(w) && w != data,
        ensures
            r.well_formed(),
            !value_set(self@).contains(data) ==> r == self,
            value_set(r@) == value_set(self@).remove(data),
            value_set(self@).contains(data) ==> r.stored_values() == self.stored_values().filter(
                |x: u64| x != data,
            ) && r@ == shape_of_seq(self.stored_values().filter(|x: u64| x != data)),
    {
        if !self.contains(data) {
            // Does not contain the data so do nothing
            proof {
                assert(value_set(self@).remove(data) =~= value_set(self@));
            }
            return self;
        }
        let s = Ghost(self.storage@);
        let stored = Ghost(self.stored_values());
        let n = self.storage.len();
        proof {
            lemma_values_cover(s@, 0);
            lemma_keys_range(s@, 0);
        }

        let mut vals: Vec<u64> = Vec::new();
        proof {
            reveal(Seq::filter);
            assert(stored@.take(0) =~= Seq::<u64>::empty());
            assert(Seq::<u64>::empty().filter(|x: u64| x != data) =~= Seq::<u64>::empty());
        }
        let mut j: usize = 0;
        while j < n
            invariant
                self.well_formed(),
                j <= n,
                n == s@.len(),
                s@ == self.storage@,
                stored@ == self.stored_values(),
                vals@ == stored@.take(j as int).filter(|x: u64| x != data),
                forall|ii: int|
                    0 <= ii < vals@.len() ==> (exists|jj: int|
                        0 <= jj < j && #[trigger] vals@[ii] == #[trigger] value_at(s@, jj)
                            && value_at(s@, jj) != data),
                forall|i1: int, i2: int|
                    0 <= i1 < i2 < vals@.len() ==> #[trigger] vals@[i1] != #[trigger] vals@[i2],
            decreases n - j,
        {
            let key = SlotKey::new(j);
            proof {
                assert(node_ok(s@, j as int));
            }
            let node = *self.storage.get(key);
            let prev_vals = Ghost(vals@);
            if node.data != data {
                vals.push(node.data);
            }
            proof {
                reveal(Seq::filter);
                let jj = j as int;
                assert(stored@[jj] == value_at(s@, jj));
                assert(stored@.take(jj + 1).drop_last() =~= stored@.take(jj));
                assert(stored@.take(jj + 1).last() == value_at(s@, jj));
                if node.data != data {
                    assert forall|i1: int, i2: int|
                        0 <= i1 < i2 < vals@.len() implies #[trigger] vals@[i1]
                        != #[trigger] vals@[i2] by {
                        if i2 == vals@.len() - 1 {
                            let w = choose|w: int|
                                0 <= w < jj && prev_vals@[i1] == #[trigger] value_at(s@, w)
                                    && value_at(s@, w) != data;
                            assert(value_at(s@, w) != value_at(s@, jj));
                        }
                    }
                }
                assert(vals@ == stored@.take(jj + 1).filter(|x: u64| x != data));
                assert forall|ii: int| #![trigger vals@[ii]] 0 <= ii < vals@.len() implies exists|jj2: int|
                    0 <= jj2 < j + 1 && vals@[ii] == #[trigger] value_at(s@, jj2) && value_at(
                        s@,
                        jj2,
                    ) != data by {
                    if ii < prev_vals@.len() {
                        let w = choose|w: int|
                            0 <= w < jj && prev_vals@[ii] == #[trigger] value_at(s@, w)
                                && value_at(s@, w) != data;
                        assert(vals@[ii] == value_at(s@, w) && value_at(s@, w) != data);
                    } else {
                        assert(vals@[ii] == value_at(s@, jj) && value_at(s@, jj) != data);
                    }
                }
            }
            j += 1;
        }
        proof {
            assert(stored@.take(n as int) =~= stored@);
            // some surviving value guarantees the new tree a root
            let w = choose|w: u64| value_set(self@).contains(w) && w != data;
            let kw = choose|kw: int|
                #[trigger] subtree_keys(s@, 0).contains(kw) && value_at(s@, kw) == w;
            assert(stored@[kw] == value_at(s@, kw));
            stored@.lemma_filter_contains(|x: u64| x != data, kw);
            assert(vals@.contains(w));
            assert(vals@.len() >= 1);
        }

        let first = vals[0];
        let mut new_tree = Tree::new(first);
        proof {
            assert(value_set(Shape::Leaf) =~= Set::<u64>::empty());
            assert(value_set(new_tree@) =~= set![first]);
            assert(vals@.take(1) =~= seq![vals@[0]]);
            assert forall|v: u64| #[trigger] value_set(new_tree@).contains(v) implies vals@.take(
                1,
            ).contains(v) by {
                assert(vals@.take(1)[0] == v);
            }
            assert forall|v: u64| vals@.take(1).contains(v) implies value_set(
                new_tree@,
            ).contains(v) by {}
        }
        let mut idx: usize = 1;
        while idx < vals.len()
            invariant
                1 <= idx <= vals@.len(),
                new_tree.well_formed(),
                new_tree.stored_values() == vals@.take(idx as int),
                new_tree@ == shape_of_seq(vals@.take(idx as int)),
                forall|v: u64|
                    #[trigger] value_set(new_tree@).contains(v) <==> vals@.take(
                        idx as int,
                    ).contains(v),
                forall|i1: int, i2: int|
                    0 <= i1 < i2 < vals@.len() ==> #[trigger] vals@[i1] != #[trigger] vals@[i2],
            decreases vals@.len() - idx,
        {
            let prev_tree = Ghost(new_tree);
            proof {
                lemma_insert_shape(prev_tree@@, vals@[idx as int]);
            }
            let res = new_tree.insert_ordered(vals[idx]);
            let ii = idx;
            proof {
                let iidx = ii as int;
                if res is Err {
                    assert(value_set(prev_tree@@).contains(vals@[iidx]));
                    assert(vals@.take(iidx).contains(vals@[iidx]));
                    let i1 = choose|i1: int|
                        0 <= i1 < iidx && #[trigger] vals@.take(iidx)[i1] == vals@[iidx];
                    assert(vals@[i1] == vals@[iidx]);
                    assert(false);
                }
                assert(vals@.take(iidx + 1).drop_last() =~= vals@.take(iidx));
                assert(vals@.take(iidx + 1).last() == vals@[iidx]);
                assert(new_tree.stored_values() =~= vals@.take(iidx + 1));
                assert(shape_of_seq(vals@.take(iidx + 1)) == new_tree@);
                assert(value_set(new_tree@) == value_set(prev_tree@@).insert(vals@[iidx]));
                assert forall|v: u64| #[trigger] value_set(new_tree@).contains(v) implies vals@.take(
                    iidx + 1,
                ).contains(v) by {
                    if v == vals@[iidx] {
                        assert(vals@.take(iidx + 1)[iidx] == v);
                    } else {
                        assert(value_set(prev_tree@@).contains(v));
                        assert(vals@.take(iidx).contains(v));
                        let i1 = choose|i1: int|
                            0 <= i1 < iidx && #[trigger] vals@.take(iidx)[i1] == v;
                        assert(vals@.take(iidx + 1)[i1] == v);
                    }
                }
                assert forall|v: u64| vals@.take(iidx + 1).contains(v) implies value_set(
                    new_tree@,
                ).contains(v) by {
                    let i1 = choose|i1: int|
                        0 <= i1 < iidx + 1 && #[trigger] vals@.take(iidx + 1)[i1] == v;
                    if i1 < iidx {
                        assert(vals@.take(iidx)[i1] == v);
                        assert(vals@.take(iidx).contains(v));
                    }
                }
            }
            idx += 1;
        }
        proof {
            assert(vals@.take(vals@.len() as int) =~= vals@);
            // the surviving value set is the old one without the deleted value
            assert forall|v: u64| #[trigger] value_set(new_tree@).contains(v) implies value_set(
                self@,
            ).contains(v) && v != data by {
                assert(vals@.contains(v));
                let i1 = choose|i1: int| 0 <= i1 < vals@.len() && #[trigger] vals@[i1] == v;
                let jj = choose|jj: int|
                    0 <= jj < n && vals@[i1] == #[trigger] value_at(s@, jj) && value_at(s@, jj)
                        != data;
                assert(subtree_keys(s@, 0).contains(jj));
                assert(value_set(build(s@, 0)).contains(value_at(s@, jj)));
            }
            assert forall|v: u64| value_set(self@).contains(v) && v != data implies value_set(
                new_tree@,
            ).contains(v) by {
                let kw = choose|kw: int|
                    #[trigger] subtree_keys(s@, 0).contains(kw) && value_at(s@, kw) == v;
                assert(stored@[kw] == v);
                stored@.lemma_filter_contains(|x: u64| x != data, kw);
                assert(vals@.contains(v));
            }
            assert(value_set(new_tree@) =~= value_set(self@).remove(data));
        }
        new_tree
    }
}

/// In-order traversal of any well-formed tree yields its values in strictly
/// ascending order, whatever the insertion sequence was.
pub proof fn lemma_tree_in_order_ascending(t: Tree)
    requires
        t.well_formed(),
    ensures
        strictly_ascending(in_order(t@)),
{
    lemma_in_order_ascending(t@);
}

/// The worker behind the membership search: the same descent as insertion,
/// with no mutation.
fn contains_from(storage: &SlotMap<TreeNode>, cur: SlotKey, data: u64) -> (r: bool)
    requires
        arena_ok(storage@),
        0 <= cur@ < storage@.len(),
    ensures
        r == spec_contains(build(storage@, cur@), data),
    decreases size(build(storage@, cur@)),
{
    proof {
        assert(node_ok(storage@, cur@));
    }
    let node = *storage.get(cur);
    if data == node.data {
        // It exists
        true
    } else {
        let follow = if data < node.data {
            node.left
        } else {
            node.right
        };
        proof {
            if data < node.data {
                assert(spec_contains(build(storage@, cur@), data) == spec_contains(
                    child_shape(storage@, cur@, node.left),
                    data,
                ));
            } else {
                assert(spec_contains(build(storage@, cur@), data) == spec_contains(
                    child_shape(storage@, cur@, node.right),
                    data,
                ));
            }
        }
        match follow {
            Some(k) => {
                proof {
                    assert(child_shape(storage@, cur@, follow) == build(storage@, k@));
                    assert(size(build(storage@, k@)) < size(build(storage@, cur@)));
                }
                contains_from(storage, k, data)
            },
            None => {
                // Reaching a missing child edge means not-found
                proof {
                    assert(child_shape(storage@, cur@, follow) == Shape::Leaf);
                    assert(!spec_contains(Shape::Leaf, data));
                }
                false
            },
        }
    }
}

/// Every key of a subtree lies between the subtree's root and the arena's
/// end.
proof fn lemma_keys_range(s: Seq<Option<TreeNode>>, i: int)
    ensures
        forall|k: int| #[trigger] subtree_keys(s, i).contains(k) ==> i <= k < s.len(),
    decreases s.len() - i,
{
    if 0 <= i < s.len() && s[i] is Some {
        let node = s[i].unwrap();
        if node.left is Some && i < node.left.unwrap()@ < s.len() {
            lemma_keys_range(s, node.left.unwrap()@);
        }
        if node.right is Some && i < node.right.unwrap()@ < s.len() {
            lemma_keys_range(s, node.right.unwrap()@);
        }
        assert forall|k: int| #[trigger] subtree_keys(s, i).contains(k) implies i <= k
            < s.len() by {
            if k != i {
                if child_keys(s, i, node.left).contains(k) {
                    assert(subtree_keys(s, node.left.unwrap()@).contains(k));
                } else {
                    assert(child_keys(s, i, node.right).contains(k));
                    assert(subtree_keys(s, node.right.unwrap()@).contains(k));
                }
            }
        }
    }
}

/// Two arenas that agree on every key of a subtree give that subtree the
/// same shape, keys and separation.
proof fn lemma_build_frame(s1: Seq<Option<TreeNode>>, s2: Seq<Option<TreeNode>>, i: int)
    requires
        s1.len() <= s2.len(),
        arena_ok(s1),
        0 <= i < s1.len(),
        forall|k: int| #[trigger] subtree_keys(s1, i).contains(k) ==> s2[k] == s1[k],
    ensures
        build(s2, i) == build(s1, i),
        subtree_keys(s2, i) == subtree_keys(s1, i),
        keys_sep(s1, i) ==> keys_sep(s2, i),
    decreases s1.len() - i,
{
    assert(node_ok(s1, i));
    let node = s1[i].unwrap();
    assert(subtree_keys(s1, i).contains(i));
    assert(s2[i] == s1[i]);
    match node.left {
        Some(k) => {
            assert forall|kk: int| #[trigger] subtree_keys(s1, k@).contains(kk) implies s2[kk]
                == s1[kk] by {
                assert(subtree_keys(s1, i).contains(kk));
            }
            lemma_build_frame(s1, s2, k@);
        },
        None => {},
    }
    match node.right {
        Some(k) => {
            assert forall|kk: int| #[trigger] subtree_keys(s1, k@).contains(kk) implies s2[kk]
                == s1[kk] by {
                assert(subtree_keys(s1, i).contains(kk));
            }
            lemma_build_frame(s1, s2, k@);
        },
        None => {},
    }
    assert(subtree_keys(s2, i) =~= subtree_keys(s1, i));
}

/// The values reachable through a subtree's keys are exactly the values of
/// its shape.
proof fn lemma_values_cover(s: Seq<Option<TreeNode>>, i: int)
    ensures
        forall|k: int|
            #[trigger] subtree_keys(s, i).contains(k) ==> value_set(build(s, i)).contains(
                value_at(s, k),
            ),
        forall|v: u64|
            #[trigger] value_set(build(s, i)).contains(v) ==> exists|k: int|
                subtree_keys(s, i).contains(k) && value_at(s, k) == v,
    decreases s.len() - i,
{
    if 0 <= i < s.len() && s[i] is Some {
        let node = s[i].unwrap();
        if node.left is Some && i < node.left.unwrap()@ < s.len() {
            lemma_values_cover(s, node.left.unwrap()@);
        }
        if node.right is Some && i < node.right.unwrap()@ < s.len() {
            lemma_values_cover(s, node.right.unwrap()@);
        }
        assert(value_set(build(s, i)).contains(value_at(s, i)));
        assert forall|k: int| #[trigger] subtree_keys(s, i).contains(k) implies value_set(
            build(s, i),
        ).contains(value_at(s, k)) by {
            if k != i {
                if child_keys(s, i, node.left).contains(k) {
                    assert(subtree_keys(s, node.left.unwrap()@).contains(k));
                    assert(value_set(build(s, node.left.unwrap()@)).contains(value_at(s, k)));
                    assert(child_shape(s, i, node.left) == build(s, node.left.unwrap()@));
                } else {
                    assert(child_keys(s, i, node.right).contains(k));
                    assert(subtree_keys(s, node.right.unwrap()@).contains(k));
                    assert(value_set(build(s, node.right.unwrap()@)).contains(value_at(s, k)));
                    assert(child_shape(s, i, node.right) == build(s, node.right.unwrap()@));
                }
            }
        }
        assert forall|v: u64| #[trigger] value_set(build(s, i)).contains(v) implies exists|k: int|
            subtree_keys(s, i).contains(k) && value_at(s, k) == v by {
            if v == node.data {
                assert(subtree_keys(s, i).contains(i) && value_at(s, i) == v);
            } else if value_set(child_shape(s, i, node.left)).contains(v) {
                if node.left is Some && i < node.left.unwrap()@ < s.len() {
                    assert(child_shape(s, i, node.left) == build(s, node.left.unwrap()@));
                    let k = choose|k: int|
                        subtree_keys(s, node.left.unwrap()@).contains(k) && value_at(s, k) == v;
                    assert(subtree_keys(s, i).contains(k));
                } else {
                    assert(child_shape(s, i, node.left) == Shape::Leaf);
                    assert(false);
                }
            } else {
                assert(value_set(child_shape(s, i, node.right)).contains(v));
                if node.right is Some && i < node.right.unwrap()@ < s.len() {
                    assert(child_shape(s, i, node.right) == build(s, node.right.unwrap()@));
                    let k = choose|k: int|
                        subtree_keys(s, node.right.unwrap()@).contains(k) && value_at(s, k) == v;
                    assert(subtree_keys(s, i).contains(k));
                } else {
                    assert(child_shape(s, i, node.right) == Shape::Leaf);
                    assert(false);
                }
            }
        }
    }
}

/// The worker behind ordered insertion: descend from `cur`, hang the new
/// value as a fresh leaf at the end of the arena, and link it to its parent.
fn insert_from(storage: &mut SlotMap<TreeNode>, cur: SlotKey, data: u64) -> (r: Result<(), u64>)
    requires
        old(storage).well_formed(),
        arena_ok(old(storage)@),
        0 <= cur@ < old(storage)@.len(),
        keys_sep(old(storage)@, cur@),
    ensures
        final(storage).well_formed(),
        arena_ok(final(storage)@),
        r matches Err(e) ==> e == data && *final(storage) == *old(storage) && spec_contains(
            build(old(storage)@, cur@),
            data,
        ),
        r is Ok ==> {
            &&& !spec_contains(build(old(storage)@, cur@), data)
            &&& final(storage)@.len() == old(storage)@.len() + 1
            &&& final(storage)@[old(storage)@.len() as int] == Some(
                TreeNode { data, left: None, right: None },
            )
            &&& forall|j: int|
                0 <= j < old(storage)@.len() && !subtree_keys(old(storage)@, cur@).contains(j)
                    ==> final(storage)@[j] == old(storage)@[j]
            &&& forall|j: int|
                0 <= j < old(storage)@.len() ==> value_at(final(storage)@, j) == value_at(
                    old(storage)@,
                    j,
                )
            &&& build(final(storage)@, cur@) == spec_insert(build(old(storage)@, cur@), data)
            &&& subtree_keys(final(storage)@, cur@) == subtree_keys(old(storage)@, cur@).insert(
                old(storage)@.len() as int,
            )
            &&& keys_sep(final(storage)@, cur@)
        },
    decreases size(build(old(storage)@, cur@)),
{
    proof {
        assert(node_ok(old(storage)@, cur@));
    }
    let node = *storage.get(cur);
    if data == node.data {
        return Err(data);
    }
    let into_left = data < node.data;
    let follow = if into_left {
        node.left
    } else {
        node.right
    };
    match follow {
        Some(k) => {
            proof {
                let s0 = old(storage)@;
                assert(child_shape(s0, cur@, Some(k)) == build(s0, k@));
                assert(size(build(s0, k@)) < size(build(s0, cur@)));
            }
            let res = insert_from(storage, k, data);
            proof {
                let s0 = old(storage)@;
                let s2 = storage@;
                let n = s0.len() as int;
                let node0 = s0[cur@].unwrap();
                lemma_keys_range(s0, cur@);
                if into_left {
                    assert(child_shape(s0, cur@, node0.left) == build(s0, k@));
                    assert(spec_contains(build(s0, cur@), data) == spec_contains(
                        build(s0, k@),
                        data,
                    ));
                } else {
                    assert(child_shape(s0, cur@, node0.right) == build(s0, k@));
                    assert(spec_contains(build(s0, cur@), data) == spec_contains(
                        build(s0, k@),
                        data,
                    ));
                }
                if res is Ok {
                    assert(!spec_contains(build(s0, k@), data));
                    assert(!spec_contains(build(s0, cur@), data));
                    lemma_keys_range(s0, k@);
                    // the current node itself sits outside the changed subtree
                    assert(!subtree_keys(s0, k@).contains(cur@));
                    assert(s2[cur@] == s0[cur@]);
                    // the sibling subtree is untouched
                    let sib = if into_left {
                        node0.right
                    } else {
                        node0.left
                    };
                    match sib {
                        Some(sk) => {
                            lemma_keys_range(s0, sk@);
                            assert(keys_sep(s0, sk@));
                            if into_left {
                                assert(subtree_keys(s0, k@).disjoint(subtree_keys(s0, sk@)));
                            } else {
                                assert(subtree_keys(s0, sk@).disjoint(subtree_keys(s0, k@)));
                            }
                            assert forall|kk: int|
                                #[trigger] subtree_keys(s0, sk@).contains(kk) implies s2[kk]
                                == s0[kk] by {
                                assert(!subtree_keys(s0, k@).contains(kk));
                            }
                            lemma_build_frame(s0, s2, sk@);
                            assert(!subtree_keys(s0, sk@).contains(n));
                            assert(keys_sep(s2, sk@));
                        },
                        None => {},
                    }
                    assert(build(s2, cur@) == spec_insert(build(s0, cur@), data));
                    assert(subtree_keys(s2, cur@) =~= subtree_keys(s0, cur@).insert(n));
                    let node2 = s2[cur@].unwrap();
                    assert(node2 == node0);
                    assert(child_sep(s2, cur@, node2.left));
                    assert(child_sep(s2, cur@, node2.right));
                    assert(subtree_keys(s2, k@) == subtree_keys(s0, k@).insert(n));
                    assert forall|x: int| #[trigger] subtree_keys(s2, k@).contains(x) implies
                        !child_keys(s2, cur@, sib).contains(x) by {
                        lemma_keys_range(s0, k@);
                        match sib {
                            Some(sk) => {
                                assert(child_keys(s2, cur@, sib) == subtree_keys(s0, sk@));
                                if x != n {
                                    assert(subtree_keys(s0, k@).contains(x));
                                }
                            },
                            None => {},
                        }
                    }
                    assert forall|x: int| #[trigger] child_keys(s2, cur@, sib).contains(x) implies
                        !subtree_keys(s2, k@).contains(x) by {}
                    assert(child_keys(s2, cur@, node2.left).disjoint(child_keys(s2, cur@, node2.right)));
                    assert(keys_sep(s2, cur@));
                    assert forall|j: int|
                        0 <= j < n && !subtree_keys(s0, cur@).contains(j) implies s2[j] == s0[j] by {
                        assert(!subtree_keys(s0, k@).contains(j));
                    }
                }
            }
            res
        },
        None => {
            let new_key = storage.insert(TreeNode::new(data));
            proof {
                let s0 = old(storage)@;
                let s1 = storage@;
                // every slot is occupied, so the arena grew by appending
                assert(new_key@ <= s0.len());
                if new_key@ < s0.len() {
                    assert(node_ok(s0, new_key@));
                    assert(false);
                }
                assert(s1 =~= s0.push(Some(TreeNode { data, left: None, right: None })));
            }
            let parent = storage.get_mut(cur);
            if into_left {
                parent.left = Some(new_key);
            } else {
                parent.right = Some(new_key);
            }
            proof {
                let s0 = old(storage)@;
                let s2 = storage@;
                let n = s0.len() as int;
                let node0 = s0[cur@].unwrap();
                lemma_keys_range(s0, cur@);
                assert(s2.len() == n + 1);
                assert(s2[n] == Some(TreeNode { data, left: None, right: None }));
                assert(s2[cur@] is Some);
                if into_left {
                    assert(child_shape(s0, cur@, node0.left) == Shape::Leaf);
                } else {
                    assert(child_shape(s0, cur@, node0.right) == Shape::Leaf);
                }
                assert(!spec_contains(Shape::Leaf, data));
                assert(!spec_contains(build(s0, cur@), data));
                assert(build(s2, n) == (Shape::Node {
                    value: data,
                    left: Box::new(Shape::Leaf),
                    right: Box::new(Shape::Leaf),
                }));
                assert(subtree_keys(s2, n) =~= set![n]);
                // the untouched child keeps its shape
                let sib = if into_left {
                    node0.right
                } else {
                    node0.left
                };
                match sib {
                    Some(sk) => {
                        lemma_keys_range(s0, sk@);
                        assert(keys_sep(s0, sk@));
                        assert forall|kk: int|
                            #[trigger] subtree_keys(s0, sk@).contains(kk) implies s2[kk]
                            == s0[kk] by {
                            assert(subtree_keys(s0, cur@).contains(kk));
                        }
                        lemma_build_frame(s0, s2, sk@);
                        assert(!subtree_keys(s0, sk@).contains(n));
                        assert(keys_sep(s2, sk@));
                    },
                    None => {},
                }
                assert(build(s2, cur@) == spec_insert(build(s0, cur@), data));
                assert(subtree_keys(s2, cur@) =~= subtree_keys(s0, cur@).insert(n));
                let node2 = s2[cur@].unwrap();
                assert(keys_sep(s2, n));
                assert(child_sep(s2, cur@, node2.left));
                assert(child_sep(s2, cur@, node2.right));
                assert forall|x: int| #[trigger] subtree_keys(s2, n).contains(x) implies
                    !child_keys(s2, cur@, sib).contains(x) by {
                    assert(x == n);
                }
                assert forall|x: int| #[trigger] child_keys(s2, cur@, sib).contains(x) implies
                    !subtree_keys(s2, n).contains(x) by {}
                assert(child_keys(s2, cur@, node2.left).disjoint(child_keys(s2, cur@, node2.right)));
                assert(keys_sep(s2, cur@));
                assert(arena_ok(s2)) by {
                    assert forall|j: int| 0 <= j < s2.len() implies node_ok(s2, j) by {
                        if j < n && j != cur@ {
                            assert(node_ok(s0, j));
                        } else if j == cur@ {
                            assert(node_ok(s0, j));
                        }
                    }
                }
            }
            Ok(())
        },
    }
}

} // verus!
