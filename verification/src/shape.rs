//! The mathematical model of the tree: a recursive shape, the traversal
//! sequences it induces, the binary-search-tree ordering predicate, and the
//! laws relating them.

use vstd::prelude::*;

verus! {

/// The abstract form of a binary tree of values.
pub enum Shape {
    Leaf,
    Node { value: u64, left: Box<Shape>, right: Box<Shape> },
}

/// The set of values stored in a tree.
pub open spec fn value_set(t: Shape) -> Set<u64>
    decreases t,
{
    match t {
        Shape::Leaf => Set::empty(),
        Shape::Node { value, left, right } => value_set(*left).union(value_set(*right)).insert(
            value,
        ),
    }
}

/// The number of nodes of a tree.
pub open spec fn size(t: Shape) -> nat
    decreases t,
{
    match t {
        Shape::Leaf => 0,
        Shape::Node { value, left, right } => 1 + size(*left) + size(*right),
    }
}

/// Left, node, right.
pub open spec fn in_order(t: Shape) -> Seq<u64>
    decreases t,
{
    match t {
        Shape::Leaf => Seq::empty(),
        Shape::Node { value, left, right } => in_order(*left) + seq![value] + in_order(*right),
    }
}

/// Node, left, right.
pub open spec fn pre_order(t: Shape) -> Seq<u64>
    decreases t,
{
    match t {
        Shape::Leaf => Seq::empty(),
        Shape::Node { value, left, right } => seq![value] + pre_order(*left) + pre_order(*right),
    }
}

/// Left, right, node.
pub open spec fn post_order(t: Shape) -> Seq<u64>
    decreases t,
{
    match t {
        Shape::Leaf => Seq::empty(),
        Shape::Node { value, left, right } => post_order(*left) + post_order(*right) + seq![value],
    }
}

/// The binary-search-tree ordering: every value in a left subtree is
/// strictly below its ancestor, every value in a right subtree strictly
/// above.
pub open spec fn bst(t: Shape) -> bool
    decreases t,
{
    match t {
        Shape::Leaf => true,
        Shape::Node { value, left, right } => {
            &&& forall|x: u64| value_set(*left).contains(x) ==> x < value
            &&& forall|x: u64| value_set(*right).contains(x) ==> x > value
            &&& bst(*left)
            &&& bst(*right)
        },
    }
}

/// Membership by binary-search descent.
pub open spec fn spec_contains(t: Shape, v: u64) -> bool
    decreases t,
{
    match t {
        Shape::Leaf => false,
        Shape::Node { value, left, right } => if v == value {
            true
        } else if v < value {
            spec_contains(*left, v)
        } else {
            spec_contains(*right, v)
        },
    }
}

/// Ordered insertion: descend as a search would, and hang a fresh leaf node
/// where the search runs out of tree. A value already present leaves the
/// tree unchanged.
pub open spec fn spec_insert(t: Shape, v: u64) -> Shape
    decreases t,
{
    match t {
        Shape::Leaf => Shape::Node { value: v, left: Box::new(Shape::Leaf), right: Box::new(Shape::Leaf) },
        Shape::Node { value, left, right } => if v == value {
            t
        } else if v < value {
            Shape::Node { value, left: Box::new(spec_insert(*left, v)), right }
        } else {
            Shape::Node { value, left, right: Box::new(spec_insert(*right, v)) }
        },
    }
}

/// The tree grown by taking the first value of a sequence as the root and
/// inserting the rest in order.
pub open spec fn shape_of_seq(s: Seq<u64>) -> Shape
    decreases s.len(),
{
    if s.len() == 0 {
        Shape::Leaf
    } else if s.len() == 1 {
        Shape::Node { value: s[0], left: Box::new(Shape::Leaf), right: Box::new(Shape::Leaf) }
    } else {
        spec_insert(shape_of_seq(s.drop_last()), s.last())
    }
}

/// The total number of nodes across a queue of trees.
pub open spec fn queue_size(q: Seq<Shape>) -> nat
    decreases q.len(),
{
    if q.len() == 0 {
        0
    } else {
        size(q[0]) + queue_size(q.drop_first())
    }
}

/// Breadth-first order over a queue of trees: the front tree's root is
/// visited first and its two subtrees join the back of the queue.
pub open spec fn bfs_seq(q: Seq<Shape>) -> Seq<u64>
    decreases queue_size(q), q.len(),
    via bfs_seq_decreases
{
    if q.len() == 0 {
        Seq::empty()
    } else {
        match q[0] {
            Shape::Leaf => bfs_seq(q.drop_first()),
            Shape::Node { value, left, right } => seq![value] + bfs_seq(
                q.drop_first() + seq![*left, *right],
            ),
        }
    }
}

#[via_fn]
proof fn bfs_seq_decreases(q: Seq<Shape>) {
    if q.len() > 0 {
        match q[0] {
            Shape::Leaf => {},
            Shape::Node { value, left, right } => {
                lemma_queue_size_add(q.drop_first(), seq![*left, *right]);
                assert(seq![*left, *right].drop_first() =~= seq![*right]);
                assert(seq![*right].drop_first() =~= Seq::<Shape>::empty());
                assert(queue_size(Seq::<Shape>::empty()) == 0);
                assert(queue_size(seq![*right]) == size(*right));
                assert(queue_size(seq![*left, *right]) == size(*left) + size(*right));
            },
        }
    }
}

/// Queue sizes add up over concatenation.
pub proof fn lemma_queue_size_add(a: Seq<Shape>, b: Seq<Shape>)
    ensures
        queue_size(a + b) == queue_size(a) + queue_size(b),
    decreases a.len(),
{
    if a.len() == 0 {
        assert(a + b =~= b);
    } else {
        assert((a + b).drop_first() =~= a.drop_first() + b);
        assert((a + b)[0] == a[0]);
        lemma_queue_size_add(a.drop_first(), b);
    }
}

/// Appending one tree adds its size to a queue's size.
pub proof fn lemma_queue_size_one(a: Seq<Shape>, x: Shape)
    ensures
        queue_size(a + seq![x]) == queue_size(a) + size(x),
{
    lemma_queue_size_add(a, seq![x]);
    assert(seq![x].drop_first() =~= Seq::<Shape>::empty());
    assert(queue_size(Seq::<Shape>::empty()) == 0);
    assert(queue_size(seq![x]) == size(x));
}

/// A leaf anywhere in the queue contributes nothing to the breadth-first
/// order.
pub proof fn lemma_bfs_drop_leaf(q1: Seq<Shape>, q2: Seq<Shape>)
    ensures
        bfs_seq(q1 + seq![Shape::Leaf] + q2) == bfs_seq(q1 + q2),
    decreases queue_size(q1 + seq![Shape::Leaf] + q2), q1.len() + q2.len(),
{
    let q = q1 + seq![Shape::Leaf] + q2;
    lemma_queue_size_add(q1 + seq![Shape::Leaf], q2);
    lemma_queue_size_add(q1, seq![Shape::Leaf]);
    lemma_queue_size_add(q1, q2);
    if q1.len() == 0 {
        assert(q[0] == Shape::Leaf);
        assert(q.drop_first() =~= q2);
        assert(q1 + q2 =~= q2);
    } else {
        assert(q[0] == q1[0]);
        assert((q1 + q2)[0] == q1[0]);
        match q1[0] {
            Shape::Leaf => {
                assert(q.drop_first() =~= q1.drop_first() + seq![Shape::Leaf] + q2);
                assert((q1 + q2).drop_first() =~= q1.drop_first() + q2);
                lemma_bfs_drop_leaf(q1.drop_first(), q2);
            },
            Shape::Node { value, left, right } => {
                assert(q.drop_first() + seq![*left, *right] =~= q1.drop_first() + seq![Shape::Leaf]
                    + (q2 + seq![*left, *right]));
                assert((q1 + q2).drop_first() + seq![*left, *right] =~= q1.drop_first() + (q2
                    + seq![*left, *right]));
                lemma_queue_size_add(q1.drop_first() + seq![Shape::Leaf], q2 + seq![*left, *right]);
                lemma_queue_size_add(q1.drop_first(), seq![Shape::Leaf]);
                lemma_queue_size_add(q2, seq![*left, *right]);
                assert(seq![*left, *right].drop_first() =~= seq![*right]);
                assert(seq![*right].drop_first() =~= Seq::<Shape>::empty());
                assert(queue_size(Seq::<Shape>::empty()) == 0);
                assert(queue_size(seq![*right]) == size(*right));
                assert(queue_size(seq![*left, *right]) == size(*left) + size(*right));
                lemma_bfs_drop_leaf(q1.drop_first(), q2 + seq![*left, *right]);
            },
        }
    }
}

/// A sequence that ascends strictly.
pub open spec fn strictly_ascending(s: Seq<u64>) -> bool {
    forall|i: int, j: int| 0 <= i < j < s.len() ==> s[i] < s[j]
}

/// The parent-to-child value pairs of a tree.
pub open spec fn edges(t: Shape) -> Set<(u64, u64)>
    decreases t,
{
    match t {
        Shape::Leaf => Set::empty(),
        Shape::Node { value, left, right } => edges(*left).union(edges(*right)).union(
            root_edge(value, *left),
        ).union(root_edge(value, *right)),
    }
}

/// The pair linking a parent value to the root of one child, if any.
pub open spec fn root_edge(v: u64, c: Shape) -> Set<(u64, u64)> {
    match c {
        Shape::Leaf => Set::empty(),
        Shape::Node { value, left, right } => set![(v, value)],
    }
}

/// `a` occurs somewhere before `b` in the sequence.
pub open spec fn comes_before(s: Seq<u64>, a: u64, b: u64) -> bool {
    exists|i: int, j: int| 0 <= i < j < s.len() && s[i] == a && s[j] == b
}

proof fn lemma_comes_before_infix(pre: Seq<u64>, s: Seq<u64>, suf: Seq<u64>, a: u64, b: u64)
    requires
        comes_before(s, a, b),
    ensures
        comes_before(pre + s + suf, a, b),
{
    let (i, j) = choose|i: int, j: int| 0 <= i < j < s.len() && s[i] == a && s[j] == b;
    assert((pre + s + suf)[pre.len() + i] == a);
    assert((pre + s + suf)[pre.len() + j] == b);
}

proof fn lemma_comes_before_prefix(pre: Seq<u64>, s: Seq<u64>, a: u64, b: u64)
    requires
        comes_before(s, a, b),
    ensures
        comes_before(pre + s, a, b),
{
    let (i, j) = choose|i: int, j: int| 0 <= i < j < s.len() && s[i] == a && s[j] == b;
    assert((pre + s)[pre.len() + i] == a);
    assert((pre + s)[pre.len() + j] == b);
}

/// Pre-order always visits a node before either of its children.
pub proof fn lemma_pre_order_parent_first(t: Shape)
    ensures
        forall|e: (u64, u64)| #[trigger] edges(t).contains(e) ==> comes_before(pre_order(t), e.0, e.1),
    decreases t,
{
    match t {
        Shape::Leaf => {},
        Shape::Node { value, left, right } => {
            lemma_pre_order_parent_first(*left);
            lemma_pre_order_parent_first(*right);
            let s = pre_order(t);
            assert(s == seq![value] + pre_order(*left) + pre_order(*right));
            assert forall|e: (u64, u64)| #[trigger] edges(t).contains(e) implies comes_before(
                s,
                e.0,
                e.1,
            ) by {
                if edges(*left).contains(e) {
                    lemma_comes_before_infix(seq![value], pre_order(*left), pre_order(*right), e.0, e.1);
                } else if edges(*right).contains(e) {
                    lemma_comes_before_prefix(seq![value] + pre_order(*left), pre_order(*right), e.0, e.1);
                } else if root_edge(value, *left).contains(e) {
                    let lt = *left;
                    assert(e == (value, lt->value));
                    assert(pre_order(lt)[0] == lt->value);
                    assert(s[0] == value);
                    assert(s[1] == lt->value);
                } else {
                    let rt = *right;
                    assert(e == (value, rt->value));
                    assert(pre_order(rt)[0] == rt->value);
                    assert(s[0] == value);
                    assert(s[1 + pre_order(*left).len() as int] == rt->value);
                }
            }
        },
    }
}

/// Post-order always visits a node after both of its children.
pub proof fn lemma_post_order_children_first(t: Shape)
    ensures
        forall|e: (u64, u64)| #[trigger] edges(t).contains(e) ==> comes_before(post_order(t), e.1, e.0),
    decreases t,
{
    match t {
        Shape::Leaf => {},
        Shape::Node { value, left, right } => {
            lemma_post_order_children_first(*left);
            lemma_post_order_children_first(*right);
            let s = post_order(t);
            let sl = post_order(*left);
            let sr = post_order(*right);
            assert(s == sl + sr + seq![value]);
            assert forall|e: (u64, u64)| #[trigger] edges(t).contains(e) implies comes_before(
                s,
                e.1,
                e.0,
            ) by {
                if edges(*left).contains(e) {
                    lemma_comes_before_infix(Seq::empty(), sl, sr + seq![value], e.1, e.0);
                    assert(Seq::empty() + sl + (sr + seq![value]) =~= s);
                } else if edges(*right).contains(e) {
                    lemma_comes_before_infix(sl, sr, seq![value], e.1, e.0);
                } else if root_edge(value, *left).contains(e) {
                    let lt = *left;
                    assert(e == (value, lt->value));
                    assert(post_order(lt)[sl.len() as int - 1] == lt->value);
                    assert(s[sl.len() as int - 1] == lt->value);
                    assert(s[s.len() as int - 1] == value);
                } else {
                    let rt = *right;
                    assert(e == (value, rt->value));
                    assert(post_order(rt)[sr.len() as int - 1] == rt->value);
                    assert(s[sl.len() + sr.len() as int - 1] == rt->value);
                    assert(s[s.len() as int - 1] == value);
                }
            }
        },
    }
}

/// Every value of the tree at position `k` of the queue appears in the
/// breadth-first order of the queue.
proof fn lemma_bfs_covers(q: Seq<Shape>, k: int)
    requires
        0 <= k < q.len(),
    ensures
        forall|v: u64| #[trigger] value_set(q[k]).contains(v) ==> bfs_seq(q).contains(v),
    decreases queue_size(q), q.len(),
{
    let q1 = q.drop_first();
    match q[0] {
        Shape::Leaf => {
            if k == 0 {
                assert(value_set(q[0]) =~= Set::<u64>::empty());
            } else {
                lemma_bfs_covers(q1, k - 1);
                assert(q1[k - 1] == q[k]);
                assert(bfs_seq(q) == bfs_seq(q1));
            }
        },
        Shape::Node { value, left, right } => {
            let q2 = q1 + seq![*left, *right];
            lemma_queue_size_add(q1, seq![*left, *right]);
            assert(seq![*left, *right].drop_first() =~= seq![*right]);
            assert(seq![*right].drop_first() =~= Seq::<Shape>::empty());
            assert(queue_size(Seq::<Shape>::empty()) == 0);
            assert(queue_size(seq![*right]) == size(*right));
            assert(queue_size(seq![*left, *right]) == size(*left) + size(*right));
            assert(bfs_seq(q) == seq![value] + bfs_seq(q2));
            if k == 0 {
                assert(q2[q1.len() as int] == *left);
                assert(q2[q1.len() as int + 1] == *right);
                lemma_bfs_covers(q2, q1.len() as int);
                lemma_bfs_covers(q2, q1.len() as int + 1);
                assert forall|v: u64| #[trigger] value_set(q[k]).contains(v) implies bfs_seq(
                    q,
                ).contains(v) by {
                    if v == value {
                        assert(bfs_seq(q)[0] == v);
                    } else {
                        if value_set(*left).contains(v) {
                            assert(value_set(q2[q1.len() as int]).contains(v));
                        } else {
                            assert(value_set(q2[q1.len() as int + 1]).contains(v));
                        }
                        assert(bfs_seq(q2).contains(v));
                        let i = choose|i: int| 0 <= i < bfs_seq(q2).len() && bfs_seq(q2)[i] == v;
                        assert(bfs_seq(q)[i + 1] == v);
                    }
                }
            } else {
                lemma_bfs_covers(q2, k - 1);
                assert(q2[k - 1] == q1[k - 1]);
                assert(q1[k - 1] == q[k]);
                assert forall|v: u64| #[trigger] value_set(q[k]).contains(v) implies bfs_seq(
                    q,
                ).contains(v) by {
                    assert(bfs_seq(q2).contains(v));
                    let i = choose|i: int| 0 <= i < bfs_seq(q2).len() && bfs_seq(q2)[i] == v;
                    assert(bfs_seq(q)[i + 1] == v);
                }
            }
        },
    }
}

/// Parents precede children in the breadth-first order of a queue: stated
/// for the tree at position `k`.
proof fn lemma_bfs_edges_queue(q: Seq<Shape>, k: int)
    requires
        0 <= k < q.len(),
    ensures
        forall|e: (u64, u64)| #[trigger] edges(q[k]).contains(e) ==> comes_before(
            bfs_seq(q),
            e.0,
            e.1,
        ),
    decreases queue_size(q), q.len(),
{
    let q1 = q.drop_first();
    match q[0] {
        Shape::Leaf => {
            if k == 0 {
                assert(edges(q[0]) =~= Set::<(u64, u64)>::empty());
            } else {
                lemma_bfs_edges_queue(q1, k - 1);
                assert(q1[k - 1] == q[k]);
                assert(bfs_seq(q) == bfs_seq(q1));
            }
        },
        Shape::Node { value, left, right } => {
            let q2 = q1 + seq![*left, *right];
            lemma_queue_size_add(q1, seq![*left, *right]);
            assert(seq![*left, *right].drop_first() =~= seq![*right]);
            assert(seq![*right].drop_first() =~= Seq::<Shape>::empty());
            assert(queue_size(Seq::<Shape>::empty()) == 0);
            assert(queue_size(seq![*right]) == size(*right));
            assert(queue_size(seq![*left, *right]) == size(*left) + size(*right));
            assert(bfs_seq(q) == seq![value] + bfs_seq(q2));
            assert(q2[q1.len() as int] == *left);
            assert(q2[q1.len() as int + 1] == *right);
            if k == 0 {
                lemma_bfs_edges_queue(q2, q1.len() as int);
                lemma_bfs_edges_queue(q2, q1.len() as int + 1);
                lemma_bfs_covers(q2, q1.len() as int);
                lemma_bfs_covers(q2, q1.len() as int + 1);
                assert forall|e: (u64, u64)| #[trigger] edges(q[k]).contains(e) implies
                    comes_before(bfs_seq(q), e.0, e.1) by {
                    if edges(*left).contains(e) || edges(*right).contains(e) {
                        lemma_comes_before_prefix(seq![value], bfs_seq(q2), e.0, e.1);
                    } else {
                        let c = e.1;
                        if root_edge(value, *left).contains(e) {
                            let lt = *left;
                            assert(e == (value, lt->value));
                            assert(value_set(lt).contains(lt->value));
                            assert(value_set(q2[q1.len() as int]).contains(c));
                        } else {
                            let rt = *right;
                            assert(e == (value, rt->value));
                            assert(value_set(rt).contains(rt->value));
                            assert(value_set(q2[q1.len() as int + 1]).contains(c));
                        }
                        assert(bfs_seq(q2).contains(c));
                        let i = choose|i: int| 0 <= i < bfs_seq(q2).len() && bfs_seq(q2)[i] == c;
                        assert(bfs_seq(q)[0] == value);
                        assert(bfs_seq(q)[i + 1] == c);
                    }
                }
            } else {
                lemma_bfs_edges_queue(q2, k - 1);
                assert(q2[k - 1] == q1[k - 1]);
                assert(q1[k - 1] == q[k]);
                assert forall|e: (u64, u64)| #[trigger] edges(q[k]).contains(e) implies
                    comes_before(bfs_seq(q), e.0, e.1) by {
                    lemma_comes_before_prefix(seq![value], bfs_seq(q2), e.0, e.1);
                }
            }
        },
    }
}

/// Breadth-first traversal never visits a node before its parent.
pub proof fn lemma_bfs_parent_first(t: Shape)
    ensures
        forall|e: (u64, u64)| #[trigger] edges(t).contains(e) ==> comes_before(
            bfs_seq(seq![t]),
            e.0,
            e.1,
        ),
{
    lemma_bfs_edges_queue(seq![t], 0);
}

/// Growing a tree by ordered insertion makes membership hold for exactly
/// the first value and every value inserted after it.
pub proof fn lemma_inserts_membership(vs: Seq<u64>)
    requires
        vs.len() >= 1,
    ensures
        bst(shape_of_seq(vs)),
        forall|v: u64| spec_contains(shape_of_seq(vs), v) <==> vs.contains(v),
    decreases vs.len(),
{
    let t = shape_of_seq(vs);
    if vs.len() == 1 {
        assert(value_set(Shape::Leaf) =~= Set::<u64>::empty());
        assert(bst(Shape::Leaf));
        assert(bst(t));
        assert forall|v: u64| spec_contains(t, v) <==> vs.contains(v) by {
            assert(!spec_contains(Shape::Leaf, v));
            assert(spec_contains(t, v) == (v == vs[0]));
            if v == vs[0] {
                assert(vs[0] == v);
                assert(vs.contains(v));
            }
            if vs.contains(v) {
                let i = choose|i: int| 0 <= i < vs.len() && vs[i] == v;
                assert(i == 0);
            }
        }
    } else {
        let prev = vs.drop_last();
        lemma_inserts_membership(prev);
        lemma_insert_shape(shape_of_seq(prev), vs.last());
        lemma_contains_member(shape_of_seq(prev), vs.last());
        assert(t == spec_insert(shape_of_seq(prev), vs.last()));
        assert forall|v: u64| spec_contains(t, v) <==> vs.contains(v) by {
            lemma_contains_member(t, v);
            lemma_contains_member(shape_of_seq(prev), v);
            if spec_contains(t, v) {
                if v == vs.last() {
                    assert(vs[vs.len() as int - 1] == v);
                    assert(vs.contains(v));
                } else {
                    assert(prev.contains(v));
                    let i = choose|i: int| 0 <= i < prev.len() && prev[i] == v;
                    assert(vs[i] == v);
                    assert(vs.contains(v));
                }
            }
            if vs.contains(v) {
                let i = choose|i: int| 0 <= i < vs.len() && vs[i] == v;
                if i < vs.len() - 1 {
                    assert(prev[i] == v);
                    assert(prev.contains(v));
                }
            }
        }
    }
}

/// On a binary search tree, descent finds exactly the stored values.
pub proof fn lemma_contains_member(t: Shape, v: u64)
    requires
        bst(t),
    ensures
        spec_contains(t, v) == value_set(t).contains(v),
    decreases t,
{
    match t {
        Shape::Leaf => {},
        Shape::Node { value, left, right } => {
            lemma_contains_member(*left, v);
            lemma_contains_member(*right, v);
        },
    }
}

/// Ordered insertion adds exactly the new value, keeps the tree a binary
/// search tree, and leaves a tree that already holds the value unchanged.
pub proof fn lemma_insert_shape(t: Shape, v: u64)
    requires
        bst(t),
    ensures
        bst(spec_insert(t, v)),
        value_set(spec_insert(t, v)) == value_set(t).insert(v),
        value_set(t).contains(v) ==> spec_insert(t, v) == t,
        !value_set(t).contains(v) ==> size(spec_insert(t, v)) == size(t) + 1,
    decreases t,
{
    lemma_contains_member(t, v);
    match t {
        Shape::Leaf => {
            assert(value_set(spec_insert(t, v)) =~= value_set(t).insert(v));
        },
        Shape::Node { value, left, right } => {
            if v == value {
                assert(value_set(spec_insert(t, v)) =~= value_set(t).insert(v));
            } else if v < value {
                lemma_insert_shape(*left, v);
                assert(value_set(spec_insert(t, v)) =~= value_set(t).insert(v));
                if value_set(t).contains(v) {
                    assert(spec_contains(t, v));
                    lemma_contains_member(*left, v);
                    assert(value_set(*left).contains(v));
                    assert(spec_insert(*left, v) == *left);
                    assert(spec_insert(t, v) == t);
                }
            } else {
                lemma_insert_shape(*right, v);
                assert(value_set(spec_insert(t, v)) =~= value_set(t).insert(v));
                if value_set(t).contains(v) {
                    assert(spec_contains(t, v));
                    lemma_contains_member(*right, v);
                    assert(value_set(*right).contains(v));
                    assert(spec_insert(*right, v) == *right);
                    assert(spec_insert(t, v) == t);
                }
            }
        },
    }
}

/// The values of the in-order sequence are the values of the tree.
pub proof fn lemma_in_order_values(t: Shape)
    ensures
        forall|x: u64| in_order(t).contains(x) <==> value_set(t).contains(x),
        in_order(t).len() == size(t),
    decreases t,
{
    match t {
        Shape::Leaf => {},
        Shape::Node { value, left, right } => {
            lemma_in_order_values(*left);
            lemma_in_order_values(*right);
            let sl = in_order(*left);
            let sr = in_order(*right);
            let s = in_order(t);
            assert(s == sl + seq![value] + sr);
            assert forall|x: u64| s.contains(x) implies value_set(t).contains(x) by {
                let idx = choose|idx: int| 0 <= idx < s.len() && s[idx] == x;
                if idx < sl.len() {
                    assert(sl[idx] == x);
                    assert(sl.contains(x));
                } else if idx == sl.len() {
                    assert(x == value);
                } else {
                    assert(sr[idx - sl.len() - 1] == x);
                    assert(sr.contains(x));
                }
            }
            assert forall|x: u64| value_set(t).contains(x) implies s.contains(x) by {
                if x == value {
                    assert(s[sl.len() as int] == x);
                } else if value_set(*left).contains(x) {
                    assert(sl.contains(x));
                    let idx = choose|idx: int| 0 <= idx < sl.len() && sl[idx] == x;
                    assert(s[idx] == x);
                } else {
                    assert(sr.contains(x));
                    let idx = choose|idx: int| 0 <= idx < sr.len() && sr[idx] == x;
                    assert(s[sl.len() + 1 + idx] == x);
                }
            }
        },
    }
}

/// In-order traversal of a binary search tree yields its values in strictly
/// ascending order.
pub proof fn lemma_in_order_ascending(t: Shape)
    requires
        bst(t),
    ensures
        strictly_ascending(in_order(t)),
    decreases t,
{
    match t {
        Shape::Leaf => {},
        Shape::Node { value, left, right } => {
            lemma_in_order_ascending(*left);
            lemma_in_order_ascending(*right);
            lemma_in_order_values(*left);
            lemma_in_order_values(*right);
            let s = in_order(t);
            let sl = in_order(*left);
            let sr = in_order(*right);
            assert(s == sl + seq![value] + sr);
            assert forall|i: int, j: int| 0 <= i < j < s.len() implies s[i] < s[j] by {
                if i < sl.len() {
                    assert(sl.contains(sl[i]));
                    assert(value_set(*left).contains(s[i]));
                }
                if j < sl.len() {
                    assert(sl.contains(sl[j]));
                    assert(value_set(*left).contains(s[j]));
                }
                if i > sl.len() {
                    assert(sr.contains(sr[i - sl.len() - 1]));
                    assert(value_set(*right).contains(s[i]));
                }
                if j > sl.len() {
                    assert(sr.contains(sr[j - sl.len() - 1]));
                    assert(value_set(*right).contains(s[j]));
                }
            }
        },
    }
}

} // verus!
