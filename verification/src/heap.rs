//! An indexed max-heap: a binary tree laid out in a pool of slots, in which
//! every stored value keeps the handle it was given until it is removed.

use core::marker::PhantomData;
use std::cmp::Ordering;
use vstd::prelude::*;

verus! {

/// An order on `T`, given as a type.
///
/// `not_less(x, y)` says that `x` ranks at least as high as `y`; it has to
/// be total and transitive.
pub trait Comparer<T> {
    /// Whether `x` ranks at least as high as `y`.
    spec fn not_less(x: T, y: T) -> bool;

    /// `Less` if `x` ranks below `y`, `Greater` if `y` ranks below `x`,
    /// `Equal` if neither does.
    fn compare(x: &T, y: &T) -> (o: Ordering)
        ensures
            (o == Ordering::Less) <==> !Self::not_less(*x, *y),
            (o == Ordering::Greater) <==> !Self::not_less(*y, *x),
    ;

    /// Of two values, one ranks at least as high as the other.
    proof fn law_total(x: T, y: T)
        ensures
            Self::not_less(x, y) || Self::not_less(y, x),
    ;

    /// Ranking at least as high carries over a middle value.
    proof fn law_transitive(x: T, y: T, z: T)
        requires
            Self::not_less(x, y),
            Self::not_less(y, z),
        ensures
            Self::not_less(x, z),
    ;
}

/// The links of one slot: its parent and children as slot numbers (-1 for
/// none), and the number of slots in the subtree below and including it.
#[derive(Clone, Copy, Debug)]
struct HeapNodeMd {
    parent: i32,
    left_child: i32,
    right_child: i32,
    size: u32,
}

impl Default for HeapNodeMd {
    fn default() -> (r: Self)
        ensures
            r == HeapNodeMd::spec_new(),
    {
        HeapNodeMd { parent: -1, left_child: -1, right_child: -1, size: 1 }
    }
}

impl HeapNodeMd {
    /// The links of a slot that stands alone.
    pub closed spec fn spec_new() -> HeapNodeMd {
        HeapNodeMd { parent: -1i32, left_child: -1i32, right_child: -1i32, size: 1 }
    }

    fn new() -> (r: HeapNodeMd)
        ensures
            r == HeapNodeMd::spec_new(),
    {
        HeapNodeMd { parent: -1, left_child: -1, right_child: -1, size: 1 }
    }

    fn reset(&mut self)
        ensures
            *final(self) == HeapNodeMd::spec_new(),
    {
        self.parent = -1;
        self.left_child = -1;
        self.right_child = -1;
        self.size = 1;
    }
}

/// One slot of the pool.
#[derive(Clone, Copy, Debug)]
struct HeapNode<T: Copy + Default> {
    value: T,
    md: HeapNodeMd,
}

impl<T: Copy + Default> HeapNode<T> {
    fn reset(&mut self)
        ensures
            final(self).value == old(self).value,
            final(self).md == HeapNodeMd::spec_new(),
    {
        self.md.reset();
    }

    fn new() -> (r: HeapNode<T>)
        ensures
            r.md == HeapNodeMd::spec_new(),
    {
        HeapNode { value: T::default(), md: HeapNodeMd::new() }
    }
}

/// A stable reference to one stored value.
#[derive(Clone, Copy)]
pub struct HeapHandle {
    index: i32,
}

impl View for HeapHandle {
    type V = int;

    /// The number of the slot that the handle names.
    closed spec fn view(&self) -> int {
        self.index as int
    }
}

/// The shape of a binary tree over slot numbers.
ghost enum Shape {
    Leaf,
    Node(int, Box<Shape>, Box<Shape>),
}

/// The slot at the top of `t`, or -1 where `t` is empty.
spec fn root_of(t: Shape) -> int {
    match t {
        Shape::Leaf => -1,
        Shape::Node(i, _, _) => i,
    }
}

/// The slots of `t`.
spec fn nodes(t: Shape) -> Set<int>
    decreases t,
{
    match t {
        Shape::Leaf => Set::empty(),
        Shape::Node(i, l, r) => nodes(*l).union(nodes(*r)).insert(i),
    }
}

/// The number of slots of `t`.
spec fn count(t: Shape) -> nat
    decreases t,
{
    match t {
        Shape::Leaf => 0,
        Shape::Node(_, l, r) => 1 + count(*l) + count(*r),
    }
}

/// Whether the part of `pool` that `t` names is laid out as `t` says: child
/// links, sizes and the children's parent links agree with `t`, no slot
/// occurs twice, and no child ranks above its parent. The parent link of the
/// top slot is left open.
spec fn linked<T: Copy + Default, C: Comparer<T>>(
    pool: Seq<HeapNode<T>>,
    t: Shape,
) -> bool
    decreases t,
{
    match t {
        Shape::Leaf => true,
        Shape::Node(i, l, r) => {
            &&& 0 <= i < pool.len()
            &&& pool[i].md.left_child == root_of(*l)
            &&& pool[i].md.right_child == root_of(*r)
            &&& pool[i].md.size == count(t)
            &&& !nodes(*l).contains(i)
            &&& !nodes(*r).contains(i)
            &&& nodes(*l).disjoint(nodes(*r))
            &&& child_ok::<T, C>(pool, i, *l)
            &&& child_ok::<T, C>(pool, i, *r)
            &&& linked::<T, C>(pool, *l)
            &&& linked::<T, C>(pool, *r)
        }
    }
}

/// Whether the top slot of `t`, if there is one, names `i` as its parent and
/// does not rank above it.
spec fn child_ok<T: Copy + Default, C: Comparer<T>>(
    pool: Seq<HeapNode<T>>,
    i: int,
    t: Shape,
) -> bool {
    t is Node ==> {
        &&& 0 <= root_of(t) < pool.len()
        &&& pool[root_of(t)].md.parent == i
        &&& C::not_less(pool[i].value, pool[root_of(t)].value)
    }
}

/// The slots of a laid-out tree are slots of the pool.
proof fn lemma_nodes_in_range<T: Copy + Default, C: Comparer<T>>(
    pool: Seq<HeapNode<T>>,
    t: Shape,
)
    requires
        linked::<T, C>(pool, t),
    ensures
        forall|i: int| nodes(t).contains(i) ==> 0 <= i < pool.len(),
        t is Node ==> nodes(t).contains(root_of(t)) && count(t) > 0,
        t is Leaf ==> nodes(t) =~= Set::empty() && count(t) == 0,
    decreases t,
{
    match t {
        Shape::Leaf => {},
        Shape::Node(i, l, r) => {
            lemma_nodes_in_range::<T, C>(pool, *l);
            lemma_nodes_in_range::<T, C>(pool, *r);
        },
    }
}

/// A tree stays laid out when the pool changes only outside it, or in the
/// parent link of its top slot.
proof fn lemma_linked_frame<T: Copy + Default, C: Comparer<T>>(
    pool1: Seq<HeapNode<T>>,
    pool2: Seq<HeapNode<T>>,
    t: Shape,
)
    requires
        linked::<T, C>(pool1, t),
        pool2.len() == pool1.len(),
        forall|i: int| #[trigger]
            nodes(t).contains(i) ==> {
                &&& pool2[i].value == pool1[i].value
                &&& pool2[i].md.left_child == pool1[i].md.left_child
                &&& pool2[i].md.right_child == pool1[i].md.right_child
                &&& pool2[i].md.size == pool1[i].md.size
                &&& i != root_of(t) ==> pool2[i].md.parent == pool1[i].md.parent
            },
    ensures
        linked::<T, C>(pool2, t),
    decreases t,
{
    match t {
        Shape::Leaf => {},
        Shape::Node(i, l, r) => {
            lemma_nodes_in_range::<T, C>(pool1, *l);
            lemma_nodes_in_range::<T, C>(pool1, *r);
            assert(nodes(t).contains(i));
            assert forall|j: int| #[trigger] nodes(*l).contains(j) implies nodes(t).contains(j)
                && j != i by {}
            assert forall|j: int| #[trigger] nodes(*r).contains(j) implies nodes(t).contains(j)
                && j != i by {}
            lemma_linked_frame::<T, C>(pool1, pool2, *l);
            lemma_linked_frame::<T, C>(pool1, pool2, *r);
        },
    }
}

/// The tree of the single slot `i`.
spec fn lone(i: int) -> Shape {
    Shape::Node(i, Box::new(Shape::Leaf), Box::new(Shape::Leaf))
}

/// A slot without children and of size 1 is laid out as a tree of its own.
proof fn lemma_lone<T: Copy + Default, C: Comparer<T>>(pool: Seq<HeapNode<T>>, i: int)
    requires
        0 <= i < pool.len(),
        pool[i].md.left_child == -1,
        pool[i].md.right_child == -1,
        pool[i].md.size == 1,
    ensures
        linked::<T, C>(pool, lone(i)),
        nodes(lone(i)) =~= set![i],
        count(lone(i)) == 1,
{
    assert(linked::<T, C>(pool, Shape::Leaf));
    assert(nodes(Shape::Leaf) =~= Set::<int>::empty());
    assert(count(Shape::Leaf) == 0);
    assert(count(lone(i)) == 1 + count(Shape::Leaf) + count(Shape::Leaf));
}

/// The top slot of a laid-out tree ranks at least as high as every slot of
/// the tree.
proof fn lemma_root_ranks_first<T: Copy + Default, C: Comparer<T>>(
    pool: Seq<HeapNode<T>>,
    t: Shape,
)
    requires
        linked::<T, C>(pool, t),
        t is Node,
    ensures
        forall|i: int| #[trigger]
            nodes(t).contains(i) ==> C::not_less(pool[root_of(t)].value, pool[i].value),
    decreases t,
{
    match t {
        Shape::Leaf => {},
        Shape::Node(top, l, r) => {
            C::law_total(pool[top].value, pool[top].value);
            if *l is Node {
                lemma_root_ranks_first::<T, C>(pool, *l);
            }
            if *r is Node {
                lemma_root_ranks_first::<T, C>(pool, *r);
            }
            assert forall|i: int| #[trigger] nodes(t).contains(i) implies C::not_less(
                pool[top].value,
                pool[i].value,
            ) by {
                if nodes(*l).contains(i) {
                    C::law_transitive(pool[top].value, pool[root_of(*l)].value, pool[i].value);
                } else if nodes(*r).contains(i) {
                    C::law_transitive(pool[top].value, pool[root_of(*r)].value, pool[i].value);
                }
            }
        },
    }
}

/// The subtree of `t` under slot `i`; empty where `t` has no such slot.
spec fn subtree_at(t: Shape, i: int) -> Shape
    decreases t,
{
    match t {
        Shape::Leaf => Shape::Leaf,
        Shape::Node(j, l, r) => if j == i {
            t
        } else if nodes(*l).contains(i) {
            subtree_at(*l, i)
        } else {
            subtree_at(*r, i)
        },
    }
}

/// The tree `t` with `sub` in place of the subtree under slot `i`.
spec fn replace_at(t: Shape, i: int, sub: Shape) -> Shape
    decreases t,
{
    match t {
        Shape::Leaf => Shape::Leaf,
        Shape::Node(j, l, r) => if j == i {
            sub
        } else if nodes(*l).contains(i) {
            Shape::Node(j, Box::new(replace_at(*l, i, sub)), r)
        } else if nodes(*r).contains(i) {
            Shape::Node(j, l, Box::new(replace_at(*r, i, sub)))
        } else {
            t
        },
    }
}

/// Like `linked`, but for a tree that has just lost one slot below `heavy`:
/// the sizes recorded in `heavy` and in the slots above it are still one too
/// large.
spec fn skew<T: Copy + Default, C: Comparer<T>>(
    pool: Seq<HeapNode<T>>,
    t: Shape,
    heavy: int,
) -> bool
    decreases t,
{
    match t {
        Shape::Leaf => true,
        Shape::Node(i, l, r) => {
            &&& 0 <= i < pool.len()
            &&& pool[i].md.left_child == root_of(*l)
            &&& pool[i].md.right_child == root_of(*r)
            &&& pool[i].md.size == count(t) + (if nodes(t).contains(heavy) {
                1int
            } else {
                0int
            })
            &&& !nodes(*l).contains(i)
            &&& !nodes(*r).contains(i)
            &&& nodes(*l).disjoint(nodes(*r))
            &&& child_ok::<T, C>(pool, i, *l)
            &&& child_ok::<T, C>(pool, i, *r)
            &&& skew::<T, C>(pool, *l, heavy)
            &&& skew::<T, C>(pool, *r, heavy)
        }
    }
}

/// Where `heavy` is no slot of the tree, `skew` says what `linked` says.
proof fn lemma_skew_linked<T: Copy + Default, C: Comparer<T>>(
    pool: Seq<HeapNode<T>>,
    t: Shape,
    heavy: int,
)
    requires
        !nodes(t).contains(heavy),
    ensures
        skew::<T, C>(pool, t, heavy) == linked::<T, C>(pool, t),
    decreases t,
{
    match t {
        Shape::Leaf => {},
        Shape::Node(i, l, r) => {
            lemma_skew_linked::<T, C>(pool, *l, heavy);
            lemma_skew_linked::<T, C>(pool, *r, heavy);
        },
    }
}

/// The slots of a skewed tree are slots of the pool.
proof fn lemma_skew_in_range<T: Copy + Default, C: Comparer<T>>(
    pool: Seq<HeapNode<T>>,
    t: Shape,
    heavy: int,
)
    requires
        skew::<T, C>(pool, t, heavy),
    ensures
        forall|i: int| nodes(t).contains(i) ==> 0 <= i < pool.len(),
    decreases t,
{
    match t {
        Shape::Leaf => {},
        Shape::Node(i, l, r) => {
            lemma_skew_in_range::<T, C>(pool, *l, heavy);
            lemma_skew_in_range::<T, C>(pool, *r, heavy);
        },
    }
}

/// What holds of the subtree under a slot `i` of a laid-out tree, and of the
/// parent of `i`.
proof fn lemma_subtree_at<T: Copy + Default, C: Comparer<T>>(
    pool: Seq<HeapNode<T>>,
    t: Shape,
    i: int,
)
    requires
        linked::<T, C>(pool, t),
        nodes(t).contains(i),
    ensures
        linked::<T, C>(pool, subtree_at(t, i)),
        subtree_at(t, i) is Node,
        root_of(subtree_at(t, i)) == i,
        nodes(subtree_at(t, i)).subset_of(nodes(t)),
        count(subtree_at(t, i)) <= count(t),
        i != root_of(t) ==> {
            let p = pool[i].md.parent as int;
            &&& !nodes(subtree_at(t, i)).contains(root_of(t))
            &&& nodes(t).contains(p)
            &&& !nodes(subtree_at(t, i)).contains(p)
            &&& (pool[p].md.left_child == i) != (pool[p].md.right_child == i)
            &&& C::not_less(pool[p].value, pool[i].value)
        },
    decreases t,
{
    match t {
        Shape::Leaf => {},
        Shape::Node(j, l, r) => {
            lemma_nodes_in_range::<T, C>(pool, *l);
            lemma_nodes_in_range::<T, C>(pool, *r);
            if j == i {
            } else if nodes(*l).contains(i) {
                lemma_subtree_at::<T, C>(pool, *l, i);
            } else {
                lemma_subtree_at::<T, C>(pool, *r, i);
            }
        },
    }
}

/// Cutting the slot `i` out of a laid-out tree: where the subtree under `i`
/// gives way to `sub`, which holds the other slots of that subtree, and the
/// parent of `i` points to `sub` instead, the tree is skewed at that parent.
proof fn lemma_cut<T: Copy + Default, C: Comparer<T>>(
    pool0: Seq<HeapNode<T>>,
    pool1: Seq<HeapNode<T>>,
    t: Shape,
    i: int,
    sub: Shape,
)
    requires
        linked::<T, C>(pool0, t),
        nodes(t).contains(i),
        i != root_of(t),
        pool1.len() == pool0.len(),
        forall|j: int| 0 <= j < pool0.len() ==> (#[trigger] pool1[j]).value == pool0[j].value,
        forall|j: int|
            0 <= j < pool0.len() && !nodes(subtree_at(t, i)).contains(j) && j
                != pool0[i].md.parent ==> #[trigger] pool1[j] == pool0[j],
        ({
            let p = pool0[i].md.parent as int;
            &&& pool1[p].md.parent == pool0[p].md.parent
            &&& pool1[p].md.size == pool0[p].md.size
            &&& pool1[p].md.left_child == (if pool0[p].md.left_child == i {
                root_of(sub)
            } else {
                pool0[p].md.left_child as int
            })
            &&& pool1[p].md.right_child == (if pool0[p].md.left_child == i {
                pool0[p].md.right_child as int
            } else {
                root_of(sub)
            })
            &&& child_ok::<T, C>(pool1, p, sub)
        }),
        linked::<T, C>(pool1, sub),
        nodes(sub) =~= nodes(subtree_at(t, i)).remove(i),
        count(sub) + 1 == count(subtree_at(t, i)),
    ensures
        skew::<T, C>(pool1, replace_at(t, i, sub), pool0[i].md.parent as int),
        nodes(replace_at(t, i, sub)) =~= nodes(t).remove(i),
        nodes(replace_at(t, i, sub)).contains(pool0[i].md.parent as int),
        count(replace_at(t, i, sub)) + 1 == count(t),
        root_of(replace_at(t, i, sub)) == root_of(t),
    decreases t,
{
    let p = pool0[i].md.parent as int;
    match t {
        Shape::Leaf => {},
        Shape::Node(j, l, r) => {
            lemma_nodes_in_range::<T, C>(pool0, *l);
            lemma_nodes_in_range::<T, C>(pool0, *r);
            lemma_nodes_in_range::<T, C>(pool1, sub);
            let (near, far) = if nodes(*l).contains(i) {
                (*l, *r)
            } else {
                (*r, *l)
            };
            lemma_subtree_at::<T, C>(pool0, near, i);
            assert(subtree_at(t, i) == subtree_at(near, i));
            assert forall|k: int| #[trigger] nodes(far).contains(k) implies pool1[k]
                == pool0[k] by {
                assert(!nodes(subtree_at(t, i)).contains(k));
            }
            lemma_linked_frame::<T, C>(pool0, pool1, far);
            lemma_skew_linked::<T, C>(pool1, far, p);
            if i == root_of(near) {
                lemma_skew_linked::<T, C>(pool1, sub, p);
                assert(p == j);
            } else {
                lemma_cut::<T, C>(pool0, pool1, near, i, sub);
                assert(pool1[j] == pool0[j]);
            }
            let out = replace_at(t, i, sub);
            assert(nodes(out) =~= nodes(t).remove(i));
        },
    }
}

/// Taking one off the size recorded in the heaviest slot of a skewed tree
/// moves the skew to that slot's parent, whose recorded size is larger.
proof fn lemma_lighten<T: Copy + Default, C: Comparer<T>>(
    pool0: Seq<HeapNode<T>>,
    pool1: Seq<HeapNode<T>>,
    t: Shape,
    heavy: int,
)
    requires
        skew::<T, C>(pool0, t, heavy),
        nodes(t).contains(heavy),
        heavy == root_of(t) ==> !nodes(t).contains(pool0[heavy].md.parent as int),
        pool1.len() == pool0.len(),
        forall|j: int| 0 <= j < pool0.len() && j != heavy ==> #[trigger] pool1[j] == pool0[j],
        pool1[heavy].value == pool0[heavy].value,
        pool1[heavy].md.parent == pool0[heavy].md.parent,
        pool1[heavy].md.left_child == pool0[heavy].md.left_child,
        pool1[heavy].md.right_child == pool0[heavy].md.right_child,
        pool1[heavy].md.size + 1 == pool0[heavy].md.size,
    ensures
        skew::<T, C>(pool1, t, pool0[heavy].md.parent as int),
        heavy != root_of(t) ==> nodes(t).contains(pool0[heavy].md.parent as int)
            && pool0[pool0[heavy].md.parent as int].md.size > pool0[heavy].md.size,
        1 <= pool0[heavy].md.size <= count(t) + 1,
    decreases t,
{
    let p = pool0[heavy].md.parent as int;
    match t {
        Shape::Leaf => {},
        Shape::Node(j, l, r) => {
            lemma_skew_in_range::<T, C>(pool0, *l, heavy);
            lemma_skew_in_range::<T, C>(pool0, *r, heavy);
            if j == heavy {
                lemma_skew_linked::<T, C>(pool0, *l, heavy);
                lemma_skew_linked::<T, C>(pool0, *r, heavy);
                lemma_linked_frame::<T, C>(pool0, pool1, *l);
                lemma_linked_frame::<T, C>(pool0, pool1, *r);
                lemma_skew_linked::<T, C>(pool1, *l, p);
                lemma_skew_linked::<T, C>(pool1, *r, p);
            } else {
                let (near, far) = if nodes(*l).contains(heavy) {
                    (*l, *r)
                } else {
                    (*r, *l)
                };
                lemma_lighten::<T, C>(pool0, pool1, near, heavy);
                lemma_skew_linked::<T, C>(pool0, far, heavy);
                lemma_linked_frame::<T, C>(pool0, pool1, far);
                lemma_skew_linked::<T, C>(pool1, far, p);
                if heavy == root_of(near) {
                    lemma_skew_linked::<T, C>(pool1, near, p);
                }
            }
        },
    }
}

/// The size recorded in the heaviest slot of a skewed tree is at least 1
/// and at most one more than the tree has slots.
proof fn lemma_heavy_size<T: Copy + Default, C: Comparer<T>>(
    pool: Seq<HeapNode<T>>,
    t: Shape,
    heavy: int,
)
    requires
        skew::<T, C>(pool, t, heavy),
        nodes(t).contains(heavy),
    ensures
        2 <= pool[heavy].md.size <= count(t) + 1,
    decreases t,
{
    match t {
        Shape::Leaf => {},
        Shape::Node(j, l, r) => {
            if j == heavy {
            } else if nodes(*l).contains(heavy) {
                lemma_heavy_size::<T, C>(pool, *l, heavy);
            } else {
                lemma_heavy_size::<T, C>(pool, *r, heavy);
            }
        },
    }
}

/// A laid-out tree has as many slots as it counts.
proof fn lemma_count_len<T: Copy + Default, C: Comparer<T>>(pool: Seq<HeapNode<T>>, t: Shape)
    requires
        linked::<T, C>(pool, t),
    ensures
        nodes(t).finite(),
        nodes(t).len() == count(t),
    decreases t,
{
    match t {
        Shape::Leaf => {},
        Shape::Node(i, l, r) => {
            lemma_count_len::<T, C>(pool, *l);
            lemma_count_len::<T, C>(pool, *r);
            vstd::set_lib::lemma_set_disjoint_lens(nodes(*l), nodes(*r));
        },
    }
}

/// A tree stays laid out when the value in one of its slots gives way to a
/// value that ranks neither above nor below it.
proof fn lemma_linked_same_rank<T: Copy + Default, C: Comparer<T>>(
    pool1: Seq<HeapNode<T>>,
    pool2: Seq<HeapNode<T>>,
    t: Shape,
    at: int,
)
    requires
        linked::<T, C>(pool1, t),
        pool2.len() == pool1.len(),
        0 <= at < pool1.len(),
        forall|i: int| 0 <= i < pool1.len() && i != at ==> #[trigger] pool2[i] == pool1[i],
        pool2[at].md == pool1[at].md,
        C::not_less(pool2[at].value, pool1[at].value),
        C::not_less(pool1[at].value, pool2[at].value),
    ensures
        linked::<T, C>(pool2, t),
    decreases t,
{
    match t {
        Shape::Leaf => {},
        Shape::Node(i, l, r) => {
            lemma_linked_same_rank::<T, C>(pool1, pool2, *l, at);
            lemma_linked_same_rank::<T, C>(pool1, pool2, *r, at);
            C::law_total(pool1[i].value, pool1[i].value);
            if *l is Node {
                let c = root_of(*l);
                C::law_total(pool1[c].value, pool1[c].value);
                C::law_transitive(pool2[i].value, pool1[i].value, pool1[c].value);
                C::law_transitive(pool2[i].value, pool1[c].value, pool2[c].value);
            }
            if *r is Node {
                let c = root_of(*r);
                C::law_total(pool1[c].value, pool1[c].value);
                C::law_transitive(pool2[i].value, pool1[i].value, pool1[c].value);
                C::law_transitive(pool2[i].value, pool1[c].value, pool2[c].value);
            }
        },
    }
}

/// A max-heap of values of `T`, ranked by `C`, with room for a number of
/// values that is fixed when it is made.
///
/// Its view maps the slot number behind each live handle to the value stored
/// under that handle.
pub struct TreeHeap<T: Copy + Default, C: Comparer<T>> {
    root: i32,
    pool: Vec<HeapNode<T>>,
    free_list: Vec<i32>,
    shape: Ghost<Shape>,
    phantom: PhantomData<C>,
}

impl<T: Copy + Default, C: Comparer<T>> View for TreeHeap<T, C> {
    type V = Map<int, T>;

    closed spec fn view(&self) -> Map<int, T> {
        Map::new(|i: int| nodes(self.shape@).contains(i), |i: int| self.pool@[i].value)
    }
}

impl<T: Copy + Default, C: Comparer<T>> TreeHeap<T, C> {
    /// The invariant of the heap: the slots in use form one binary tree in
    /// which no child ranks above its parent, every slot knows its parent,
    /// its children and the size of its subtree, and every other slot is on
    /// the free list exactly once.
    pub closed spec fn wf(&self) -> bool {
        &&& self.pool@.len() <= i32::MAX
        &&& linked::<T, C>(self.pool@, self.shape@)
        &&& self.root == root_of(self.shape@)
        &&& self.shape@ is Node ==> self.pool@[self.root as int].md.parent == -1
        &&& forall|k: int|
            0 <= k < self.free_list@.len() ==> {
                &&& 0 <= #[trigger] self.free_list@[k] < self.pool@.len()
                &&& !nodes(self.shape@).contains(self.free_list@[k] as int)
            }
        &&& forall|j: int, k: int|
            0 <= j < k < self.free_list@.len() ==> self.free_list@[j] != self.free_list@[k]
        &&& count(self.shape@) + self.free_list@.len() == self.pool@.len()
    }

    /// The number of values that the heap has room for.
    pub closed spec fn spec_capacity(&self) -> nat {
        self.pool@.len()
    }

    /// The number of values in the heap.
    pub closed spec fn spec_len(&self) -> nat {
        count(self.shape@)
    }

    /// The free slots; the last of them is handed out next.
    pub closed spec fn free_slots(&self) -> Seq<i32> {
        self.free_list@
    }

    /// The slot at the top of the heap, or -1 where the heap is empty.
    pub closed spec fn spec_top(&self) -> int {
        self.root as int
    }

    /// What the view holds, in terms of the shape and the pool.
    proof fn lemma_view(&self)
        ensures
            self@.dom() =~= nodes(self.shape@),
            forall|i: int| nodes(self.shape@).contains(i) ==> self@[i] == self.pool@[i].value,
    {
    }

    /// What the invariant says in terms of the view.
    pub proof fn lemma_invariant(&self)
        requires
            self.wf(),
        ensures
            self@.dom().finite(),
            self@.dom().len() == self.spec_len(),
            self.spec_len() + self.free_slots().len() == self.spec_capacity(),
            self.spec_capacity() <= i32::MAX,
            forall|i: int| self@.dom().contains(i) ==> 0 <= i < self.spec_capacity(),
            forall|k: int|
                0 <= k < self.free_slots().len() ==> 0 <= #[trigger] self.free_slots()[k]
                    < self.spec_capacity() && !self@.dom().contains(self.free_slots()[k] as int),
            forall|j: int, k: int|
                0 <= j < k < self.free_slots().len() ==> self.free_slots()[j]
                    != self.free_slots()[k],
            self.spec_len() > 0 <==> self@.dom().contains(self.spec_top()),
            self.spec_len() == 0 <==> self.spec_top() == -1,
            forall|k: int| #[trigger]
                self@.dom().contains(k) ==> C::not_less(self@[self.spec_top()], self@[k]),
    {
        self.lemma_view();
        lemma_nodes_in_range::<T, C>(self.pool@, self.shape@);
        lemma_count_len::<T, C>(self.pool@, self.shape@);
        if self.shape@ is Node {
            lemma_root_ranks_first::<T, C>(self.pool@, self.shape@);
        }
    }

    /// The number of values in the heap.
    pub fn len(&self) -> (r: usize)
        requires
            self.wf(),
        ensures
            r == self.spec_len(),
    {
        self.pool.len() - self.free_list.len()
    }

    /// Whether `i` is a slot of the pool.
    spec fn in_pool(&self, i: i32) -> bool {
        0 <= i < self.pool@.len()
    }

    spec fn md_at(&self, i: i32) -> HeapNodeMd {
        self.pool@[i as int].md
    }

    spec fn value_at(&self, i: i32) -> T {
        self.pool@[i as int].value
    }

    /// Whether `self` differs from `other` in the slots' contents at most.
    spec fn same_frame(&self, other: &Self) -> bool {
        &&& self.root == other.root
        &&& self.free_list == other.free_list
        &&& self.shape == other.shape
        &&& self.pool@.len() == other.pool@.len()
    }

    /// Whether every slot holds the value that it holds in `other`.
    spec fn same_values(&self, other: &Self) -> bool {
        forall|i: int|
            0 <= i < other.pool@.len() ==> (#[trigger] self.pool@[i]).value
                == other.pool@[i].value
    }

    /// Whether every slot outside `s` is as it is in `other`.
    spec fn same_outside(&self, other: &Self, s: Set<int>) -> bool {
        forall|i: int|
            0 <= i < other.pool@.len() && !s.contains(i) ==> #[trigger] self.pool@[i]
                == other.pool@[i]
    }

    /// An empty heap with room for `capacity` values.
    pub fn new(capacity: usize) -> (heap: TreeHeap<T, C>)
        requires
            capacity <= i32::MAX,
        ensures
            heap.wf(),
            heap@ =~= Map::<int, T>::empty(),
            heap.spec_capacity() == capacity,
            heap.spec_len() == 0,
            heap.free_slots() =~= Seq::new(capacity as nat, |k: int| (capacity - 1 - k) as i32),
    {
        let mut pool: Vec<HeapNode<T>> = Vec::with_capacity(capacity);
        let mut free_list: Vec<i32> = Vec::with_capacity(capacity);
        let mut n: usize = 0;
        while n < capacity
            invariant
                n <= capacity <= i32::MAX,
                pool@.len() == n,
                free_list@.len() == n,
                forall|k: int| 0 <= k < n ==> #[trigger] free_list@[k] == capacity - 1 - k,
            decreases capacity - n,
        {
            pool.push(HeapNode::new());
            free_list.push((capacity - 1 - n) as i32);
            n += 1;
        }
        TreeHeap { root: -1, pool, free_list, shape: Ghost(Shape::Leaf), phantom: PhantomData }
    }

    fn as_option(i: i32) -> (r: Option<i32>)
        ensures
            r == (if i < 0 {
                None
            } else {
                Some(i)
            }),
    {
        if i < 0 {
            None
        } else {
            Some(i)
        }
    }

    /// Whether the heap holds no value.
    pub fn is_empty(&self) -> (r: bool)
        requires
            self.wf(),
        ensures
            r == (self.spec_len() == 0),
            r == (self@.dom() =~= Set::<int>::empty()),
            r == (self.spec_top() < 0),
    {
        proof {
            lemma_nodes_in_range::<T, C>(self.pool@, self.shape@);
            self.lemma_view();
        }
        self.root < 0
    }

    /// The number of values that the heap has room for.
    pub fn capacity(&self) -> (r: usize)
        ensures
            r == self.spec_capacity(),
    {
        self.pool.len()
    }

    /// The handle of a value that no other value of the heap ranks above, or
    /// `None` where the heap is empty.
    pub fn peek(&self) -> (r: Option<HeapHandle>)
        requires
            self.wf(),
        ensures
            r is None <==> self.spec_len() == 0,
            r matches Some(h) ==> {
                &&& h@ == self.spec_top()
                &&& self@.dom().contains(h@)
                &&& forall|k: int| #[trigger]
                    self@.dom().contains(k) ==> C::not_less(self@[h@], self@[k])
            },
    {
        proof {
            lemma_nodes_in_range::<T, C>(self.pool@, self.shape@);
            if self.shape@ is Node {
                lemma_root_ranks_first::<T, C>(self.pool@, self.shape@);
            }
        }
        match Self::as_option(self.root) {
            None => None,
            Some(x) => Some(HeapHandle { index: x }),
        }
    }

    /// The value stored under the live handle `h`.
    pub fn get(&self, h: HeapHandle) -> (r: &T)
        requires
            self.wf(),
            self@.dom().contains(h@),
        ensures
            *r == self@[h@],
    {
        proof {
            lemma_nodes_in_range::<T, C>(self.pool@, self.shape@);
        }
        &self.pool[h.index as usize].value
    }

    /// The value stored under the live handle `h`, to be changed in place.
    /// The heap keeps its invariant where the new value ranks neither above
    /// nor below the old one; any other change has to go through `update`.
    pub fn get_mut(&mut self, h: HeapHandle) -> (r: &mut T)
        requires
            old(self).wf(),
            old(self)@.dom().contains(h@),
        ensures
            *r == old(self)@[h@],
            final(self)@ =~= old(self)@.insert(h@, *final(r)),
            final(self).spec_capacity() == old(self).spec_capacity(),
            final(self).spec_len() == old(self).spec_len(),
            final(self).free_slots() == old(self).free_slots(),
            C::not_less(*final(r), old(self)@[h@]) && C::not_less(old(self)@[h@], *final(r))
                ==> final(self).wf(),
    {
        proof {
            lemma_nodes_in_range::<T, C>(self.pool@, self.shape@);
            let at = h@;
            let before = self.pool@;
            assert forall|v: T|
                C::not_less(v, before[at].value) && C::not_less(
                    before[at].value,
                    v,
                ) implies #[trigger] linked::<T, C>(
                before.update(at, (HeapNode { value: v, md: before[at].md })),
                self.shape@,
            ) by {
                lemma_linked_same_rank::<T, C>(
                    before,
                    before.update(at, (HeapNode { value: v, md: before[at].md })),
                    self.shape@,
                    at,
                );
            }
        }
        &mut self.pool[h.index as usize].value
    }

    fn get_node(&self, i: i32) -> (r: &HeapNode<T>)
        requires
            self.in_pool(i),
        ensures
            *r == self.pool@[i as int],
    {
        &self.pool[i as usize]
    }

    fn get_node_md(&self, i: i32) -> (r: HeapNodeMd)
        requires
            self.in_pool(i),
        ensures
            r == self.pool@[i as int].md,
    {
        self.pool[i as usize].md
    }

    fn set_node_md(&mut self, i: i32, md: HeapNodeMd)
        requires
            old(self).in_pool(i),
        ensures
            final(self).same_frame(old(self)),
            final(self).pool@ == old(self).pool@.update(
                i as int,
                (HeapNode { value: old(self).pool@[i as int].value, md }),
            ),
    {
        let value: T = self.pool[i as usize].value;
        self.pool.set(i as usize, HeapNode { value, md });
    }

    fn set_parent(&mut self, i: i32, parent: i32)
        requires
            old(self).in_pool(i),
        ensures
            final(self).same_frame(old(self)),
            final(self).pool@ == old(self).pool@.update(
                i as int,
                (HeapNode {
                    value: old(self).pool@[i as int].value,
                    md: (HeapNodeMd { parent, ..old(self).pool@[i as int].md }),
                }),
            ),
    {
        let mut md: HeapNodeMd = self.get_node_md(i);
        md.parent = parent;
        self.set_node_md(i, md);
    }

    /// Sets the size of slot `index` to one more than the sizes of its
    /// children.
    fn update_size(&mut self, index: i32)
        requires
            old(self).in_pool(index),
            old(self).md_at(index).left_child >= 0 ==> old(self).in_pool(
                old(self).md_at(index).left_child,
            ),
            old(self).md_at(index).right_child >= 0 ==> old(self).in_pool(
                old(self).md_at(index).right_child,
            ),
            1 + old(self).child_size(old(self).md_at(index).left_child) + old(self).child_size(
                old(self).md_at(index).right_child,
            ) <= u32::MAX,
        ensures
            final(self).same_frame(old(self)),
            final(self).pool@ == old(self).pool@.update(
                index as int,
                (HeapNode {
                    value: old(self).pool@[index as int].value,
                    md: (HeapNodeMd {
                        size: (1 + old(self).child_size(old(self).md_at(index).left_child)
                            + old(self).child_size(old(self).md_at(index).right_child)) as u32,
                        ..old(self).pool@[index as int].md
                    }),
                }),
            ),
    {
        let mut node: HeapNodeMd = self.get_node_md(index);
        node.size = 1;
        if node.left_child >= 0 {
            node.size += self.get_node_md(node.left_child).size;
        }
        if node.right_child >= 0 {
            node.size += self.get_node_md(node.right_child).size;
        }
        self.set_node_md(index, node);
    }

    /// The size of the subtree under slot `i`, 0 where `i` is no slot.
    spec fn child_size(&self, i: i32) -> int {
        if i >= 0 {
            self.pool@[i as int].md.size as int
        } else {
            0
        }
    }

    /// Whether the value in slot `a` ranks above the value in slot `b`.
    fn ranks_above(&self, a: i32, b: i32) -> (g: bool)
        requires
            self.in_pool(a),
            self.in_pool(b),
        ensures
            g == !C::not_less(self.value_at(b), self.value_at(a)),
    {
        match C::compare(&self.get_node(a).value, &self.get_node(b).value) {
            Ordering::Greater => true,
            _ => false,
        }
    }

    /// Whether the value in slot `a` ranks below the value in slot `b`.
    fn ranks_below(&self, a: i32, b: i32) -> (l: bool)
        requires
            self.in_pool(a),
            self.in_pool(b),
        ensures
            l == !C::not_less(self.value_at(a), self.value_at(b)),
    {
        match C::compare(&self.get_node(a).value, &self.get_node(b).value) {
            Ordering::Less => true,
            _ => false,
        }
    }
}

impl<T: Copy + Default, C: Comparer<T>> TreeHeap<T, C> {
    /// Joins the two sibling subtrees `l` and `r` into one: the higher
    /// ranking top slot becomes the parent of the other, and its own
    /// children are joined in turn. The parent link of the new top slot is
    /// left as it was.
    fn pull_up(&mut self, left: i32, right: i32, Ghost(l): Ghost<Shape>, Ghost(r): Ghost<Shape>) -> (res: (
        i32,
        Ghost<Shape>,
    ))
        requires
            old(self).pool@.len() <= i32::MAX,
            linked::<T, C>(old(self).pool@, l),
            linked::<T, C>(old(self).pool@, r),
            root_of(l) == left,
            root_of(r) == right,
            nodes(l).disjoint(nodes(r)),
            count(l) + count(r) < u32::MAX,
        ensures
            final(self).same_frame(old(self)),
            final(self).same_values(old(self)),
            final(self).same_outside(old(self), nodes(l).union(nodes(r))),
            linked::<T, C>(final(self).pool@, res.1@),
            root_of(res.1@) == res.0,
            res.0 == left || res.0 == right,
            nodes(res.1@) =~= nodes(l).union(nodes(r)),
            count(res.1@) == count(l) + count(r),
            res.0 >= 0 ==> final(self).pool@[res.0 as int].md.parent == old(self).pool@[res.0 as int].md.parent,
        decreases count(l) + count(r),
    {
        if left < 0 {
            return (right, Ghost(r));
        }
        if right < 0 {
            return (left, Ghost(l));
        }
        proof {
            lemma_nodes_in_range::<T, C>(self.pool@, l);
            lemma_nodes_in_range::<T, C>(self.pool@, r);
            C::law_total(self.value_at(left), self.value_at(right));
        }
        let go_left: bool = self.ranks_above(left, right);
        let ghost (top, keep, ta, tb) = if go_left {
            (left as int, r, l->1, l->2)
        } else {
            (right as int, l, r->1, r->2)
        };
        let top_index: i32 = if go_left {
            left
        } else {
            right
        };
        let other_index: i32 = if go_left {
            right
        } else {
            left
        };
        let mut top_md: HeapNodeMd = self.get_node_md(top_index);
        proof {
            lemma_nodes_in_range::<T, C>(self.pool@, *ta);
            lemma_nodes_in_range::<T, C>(self.pool@, *tb);
        }
        let joined = self.pull_up(top_md.left_child, top_md.right_child, Ghost(*ta), Ghost(*tb));
        let ghost mid = self.pool@;
        let ghost below = joined.1@;
        if go_left {
            top_md.left_child = joined.0;
            top_md.right_child = right;
        } else {
            top_md.right_child = joined.0;
            top_md.left_child = left;
        }
        self.set_node_md(top_index, top_md);
        proof {
            lemma_nodes_in_range::<T, C>(mid, below);
            lemma_linked_frame::<T, C>(old(self).pool@, mid, keep);
        }
        self.update_size(top_index);
        self.set_parent(other_index, top_index);
        let ghost t = if go_left {
            Shape::Node(top, Box::new(below), Box::new(keep))
        } else {
            Shape::Node(top, Box::new(keep), Box::new(below))
        };
        proof {
            lemma_linked_frame::<T, C>(mid, self.pool@, below);
            lemma_linked_frame::<T, C>(mid, self.pool@, keep);
            if below is Node {
                let b = root_of(below);
                assert(b == root_of(*ta) || b == root_of(*tb));
            }
            assert(linked::<T, C>(self.pool@, t));
        }
        (top_index, Ghost(t))
    }

    /// Puts the lone slot `new` into the subtree `t` under `head`: of the
    /// two, the higher ranking becomes the top slot and the other goes down
    /// into the smaller child subtree. The new top slot gets the parent link
    /// that `head` had.
    fn insert_node(&mut self, head: i32, new: i32, Ghost(t): Ghost<Shape>) -> (res: (
        i32,
        Ghost<Shape>,
    ))
        requires
            old(self).pool@.len() <= i32::MAX,
            linked::<T, C>(old(self).pool@, t),
            t is Node,
            root_of(t) == head,
            old(self).in_pool(new),
            !nodes(t).contains(new as int),
            count(t) < u32::MAX,
        ensures
            final(self).same_frame(old(self)),
            final(self).same_values(old(self)),
            final(self).same_outside(old(self), nodes(t).insert(new as int)),
            linked::<T, C>(final(self).pool@, res.1@),
            res.1@ is Node,
            root_of(res.1@) == res.0,
            res.0 == head || res.0 == new,
            nodes(res.1@) =~= nodes(t).insert(new as int),
            count(res.1@) == count(t) + 1,
            final(self).pool@[res.0 as int].md.parent == old(self).pool@[head as int].md.parent,
        decreases count(t),
    {
        proof {
            lemma_nodes_in_range::<T, C>(self.pool@, t);
            lemma_nodes_in_range::<T, C>(self.pool@, *(t->1));
            lemma_nodes_in_range::<T, C>(self.pool@, *(t->2));
            C::law_total(self.value_at(head), self.value_at(new));
        }
        let ghost tl = *(t->1);
        let ghost tr = *(t->2);
        let new_on_top: bool = self.ranks_below(head, new);
        let parent_index: i32 = if new_on_top {
            new
        } else {
            head
        };
        let descend_index: i32 = if new_on_top {
            head
        } else {
            new
        };
        let head_node: HeapNodeMd = self.get_node_md(head);
        let mut parent_md: HeapNodeMd = self.get_node_md(parent_index);
        parent_md.size = head_node.size + 1;
        parent_md.parent = head_node.parent;
        let ghost lone = lone(descend_index as int);
        proof {
            C::law_total(self.value_at(head), self.value_at(head));
            if tl is Node {
                C::law_transitive(
                    self.value_at(parent_index),
                    self.value_at(head),
                    self.value_at(head_node.left_child),
                );
            }
            if tr is Node {
                C::law_transitive(
                    self.value_at(parent_index),
                    self.value_at(head),
                    self.value_at(head_node.right_child),
                );
            }
        }
        if head_node.left_child < 0 {
            if head_node.right_child >= 0 {
                self.set_parent(head_node.right_child, parent_index);
            }
            parent_md.right_child = head_node.right_child;
            parent_md.left_child = descend_index;
            self.set_node_md(parent_index, parent_md);
            self.set_node_md(
                descend_index,
                HeapNodeMd { parent: parent_index, left_child: -1, right_child: -1, size: 1 },
            );
            let ghost out = Shape::Node(parent_index as int, Box::new(lone), Box::new(tr));
            proof {
                lemma_linked_frame::<T, C>(old(self).pool@, self.pool@, tr);
                lemma_lone::<T, C>(self.pool@, descend_index as int);
                assert(linked::<T, C>(self.pool@, out));
            }
            return (parent_index, Ghost(out));
        }
        if head_node.right_child < 0 {
            self.set_parent(head_node.left_child, parent_index);
            parent_md.left_child = head_node.left_child;
            parent_md.right_child = descend_index;
            self.set_node_md(parent_index, parent_md);
            self.set_node_md(
                descend_index,
                HeapNodeMd { parent: parent_index, left_child: -1, right_child: -1, size: 1 },
            );
            let ghost out = Shape::Node(parent_index as int, Box::new(tl), Box::new(lone));
            proof {
                lemma_linked_frame::<T, C>(old(self).pool@, self.pool@, tl);
                lemma_lone::<T, C>(self.pool@, descend_index as int);
                assert(linked::<T, C>(self.pool@, out));
            }
            return (parent_index, Ghost(out));
        }
        let left_size: u32 = self.get_node_md(head_node.left_child).size;
        let right_size: u32 = self.get_node_md(head_node.right_child).size;
        let go_left: bool = left_size <= right_size;
        let child_index: i32 = if go_left {
            head_node.left_child
        } else {
            head_node.right_child
        };
        let ghost (down, keep) = if go_left {
            (tl, tr)
        } else {
            (tr, tl)
        };
        self.set_node_md(parent_index, parent_md);
        proof {
            lemma_linked_frame::<T, C>(old(self).pool@, self.pool@, down);
        }
        let ghost before = self.pool@;
        let grown = self.insert_node(child_index, descend_index, Ghost(down));
        let ghost mid = self.pool@;
        let ghost below = grown.1@;
        let mut parent_node: HeapNodeMd = self.get_node_md(parent_index);
        if go_left {
            parent_node.left_child = grown.0;
            parent_node.right_child = head_node.right_child;
        } else {
            parent_node.left_child = head_node.left_child;
            parent_node.right_child = grown.0;
        }
        proof {
            lemma_nodes_in_range::<T, C>(mid, below);
        }
        self.set_parent(parent_node.left_child, parent_index);
        self.set_parent(parent_node.right_child, parent_index);
        self.set_node_md(parent_index, parent_node);
        let ghost out = if go_left {
            Shape::Node(parent_index as int, Box::new(below), Box::new(keep))
        } else {
            Shape::Node(parent_index as int, Box::new(keep), Box::new(below))
        };
        proof {
            lemma_linked_frame::<T, C>(mid, self.pool@, below);
            lemma_linked_frame::<T, C>(old(self).pool@, self.pool@, keep);
            C::law_transitive(
                self.value_at(parent_index),
                self.value_at(head),
                self.value_at(child_index),
            );
            assert(linked::<T, C>(self.pool@, out));
        }
        (parent_index, Ghost(out))
    }
}

impl<T: Copy + Default, C: Comparer<T>> TreeHeap<T, C> {
    /// Whether the slots in use are laid out as the shape says, with the
    /// top slot at the root.
    spec fn tree_ok(&self) -> bool {
        &&& self.pool@.len() <= i32::MAX
        &&& linked::<T, C>(self.pool@, self.shape@)
        &&& self.root == root_of(self.shape@)
        &&& self.shape@ is Node ==> self.pool@[self.root as int].md.parent == -1
    }

    /// Takes one off the size recorded in `index` and in every slot above
    /// it.
    fn decrement_size(&mut self, index: i32, Ghost(t): Ghost<Shape>)
        requires
            old(self).pool@.len() <= i32::MAX,
            skew::<T, C>(old(self).pool@, t, index as int),
            nodes(t).contains(index as int),
            t is Node,
            old(self).pool@[root_of(t)].md.parent == -1,
        ensures
            final(self).same_frame(old(self)),
            final(self).same_values(old(self)),
            linked::<T, C>(final(self).pool@, t),
            final(self).pool@[root_of(t)].md.parent == -1,
    {
        let mut i: i32 = index;
        proof {
            lemma_skew_in_range::<T, C>(self.pool@, t, i as int);
        }
        while i >= 0
            invariant
                self.same_frame(old(self)),
                self.same_values(old(self)),
                self.pool@.len() <= i32::MAX,
                skew::<T, C>(self.pool@, t, i as int),
                i >= 0 ==> nodes(t).contains(i as int),
                i >= -1,
                t is Node,
                0 <= root_of(t) < self.pool@.len(),
                self.pool@[root_of(t)].md.parent == -1,
            decreases
                    (if i >= 0 {
                        count(t) + 2 - self.pool@[i as int].md.size
                    } else {
                        0
                    }),
        {
            proof {
                lemma_skew_in_range::<T, C>(self.pool@, t, i as int);
                lemma_heavy_size::<T, C>(self.pool@, t, i as int);
            }
            let ghost before = self.pool@;
            let mut md: HeapNodeMd = self.get_node_md(i);
            md.size = md.size - 1;
            let next: i32 = md.parent;
            self.set_node_md(i, md);
            proof {
                lemma_lighten::<T, C>(before, self.pool@, t, i as int);
                if next >= 0 {
                    lemma_heavy_size::<T, C>(self.pool@, t, next as int);
                }
            }
            i = next;
        }
        proof {
            lemma_skew_in_range::<T, C>(self.pool@, t, -1);
            lemma_skew_linked::<T, C>(self.pool@, t, -1);
        }
    }

    /// Puts the lone slot `index` into the tree.
    fn insert_impl(&mut self, index: i32)
        requires
            old(self).tree_ok(),
            old(self).in_pool(index),
            !nodes(old(self).shape@).contains(index as int),
            old(self).md_at(index) == HeapNodeMd::spec_new(),
            count(old(self).shape@) < u32::MAX,
        ensures
            final(self).tree_ok(),
            final(self).pool@.len() == old(self).pool@.len(),
            final(self).free_list == old(self).free_list,
            final(self).same_values(old(self)),
            nodes(final(self).shape@) =~= nodes(old(self).shape@).insert(index as int),
            count(final(self).shape@) == count(old(self).shape@) + 1,
    {
        if self.root >= 0 {
            let old_root: i32 = self.root;
            let grown = self.insert_node(old_root, index, Ghost(self.shape@));
            self.root = grown.0;
            self.shape = Ghost(grown.1@);
        } else {
            proof {
                lemma_lone::<T, C>(self.pool@, index as int);
            }
            self.root = index;
            self.shape = Ghost(lone(index as int));
        }
    }

    /// Stores `val` in the free slot that is next in line and hands out its
    /// handle; fails where no slot is free, and then leaves the heap as it
    /// is.
    pub fn insert(&mut self, val: T) -> (r: Result<HeapHandle, &'static str>)
        requires
            old(self).wf(),
        ensures
            final(self).wf(),
            final(self).spec_capacity() == old(self).spec_capacity(),
            r is Ok <==> old(self).spec_len() < old(self).spec_capacity(),
            r matches Ok(h) ==> {
                &&& h@ == old(self).free_slots().last()
                &&& !old(self)@.dom().contains(h@)
                &&& final(self)@ =~= old(self)@.insert(h@, val)
                &&& final(self).spec_len() == old(self).spec_len() + 1
                &&& final(self).free_slots() =~= old(self).free_slots().drop_last()
            },
            r matches Err(e) ==> e@ == "heap full"@ && *final(self) == *old(self),
    {
        let free: usize = self.free_list.len();
        if free == 0 {
            return Err("heap full");
        }
        let index: i32 = self.free_list[free - 1];
        self.free_list.pop();
        proof {
            lemma_nodes_in_range::<T, C>(self.pool@, self.shape@);
        }
        let ghost before = self.pool@;
        self.pool.set(index as usize, HeapNode { value: val, md: HeapNodeMd::new() });
        proof {
            lemma_linked_frame::<T, C>(before, self.pool@, self.shape@);
        }
        self.insert_impl(index);
        Ok(HeapHandle { index })
    }

    /// Takes the slot behind `h` out of the tree.
    fn remove_impl(&mut self, h: HeapHandle)
        requires
            old(self).tree_ok(),
            nodes(old(self).shape@).contains(h@),
        ensures
            final(self).tree_ok(),
            final(self).pool@.len() == old(self).pool@.len(),
            final(self).free_list == old(self).free_list,
            final(self).same_values(old(self)),
            nodes(final(self).shape@) =~= nodes(old(self).shape@).remove(h@),
            count(final(self).shape@) + 1 == count(old(self).shape@),
    {
        let index: i32 = h.index;
        let ghost t = self.shape@;
        let ghost s = subtree_at(t, index as int);
        let ghost sl = *(s->1);
        let ghost sr = *(s->2);
        proof {
            lemma_nodes_in_range::<T, C>(self.pool@, t);
            lemma_subtree_at::<T, C>(self.pool@, t, index as int);
            lemma_nodes_in_range::<T, C>(self.pool@, sl);
            lemma_nodes_in_range::<T, C>(self.pool@, sr);
        }
        let node: HeapNodeMd = self.get_node_md(index);
        let pulled = self.pull_up(node.left_child, node.right_child, Ghost(sl), Ghost(sr));
        let replacement: i32 = pulled.0;
        let ghost sub = pulled.1@;
        let ghost mid = self.pool@;
        proof {
            lemma_nodes_in_range::<T, C>(mid, sub);
        }
        if node.parent < 0 {
            self.root = replacement;
            if replacement >= 0 {
                self.set_parent(replacement, -1);
            }
            self.shape = Ghost(sub);
            proof {
                lemma_linked_frame::<T, C>(mid, self.pool@, sub);
            }
        } else {
            let mut parent: HeapNodeMd = self.get_node_md(node.parent);
            if parent.left_child == index {
                parent.left_child = replacement;
            } else {
                parent.right_child = replacement;
            }
            self.set_node_md(node.parent, parent);
            if replacement >= 0 {
                self.set_parent(replacement, node.parent);
            }
            let ghost out = replace_at(t, index as int, sub);
            proof {
                lemma_linked_frame::<T, C>(mid, self.pool@, sub);
                if sub is Node {
                    C::law_transitive(
                        self.value_at(node.parent),
                        self.value_at(index),
                        self.value_at(replacement),
                    );
                }
                lemma_cut::<T, C>(old(self).pool@, self.pool@, t, index as int, sub);
            }
            self.shape = Ghost(out);
            self.decrement_size(node.parent, Ghost(out));
        }
    }

    /// Takes the value behind the live handle `h` out of the heap and frees
    /// its slot.
    pub fn remove(&mut self, h: HeapHandle)
        requires
            old(self).wf(),
            old(self)@.dom().contains(h@),
        ensures
            final(self).wf(),
            final(self).spec_capacity() == old(self).spec_capacity(),
            final(self)@ =~= old(self)@.remove(h@),
            final(self).spec_len() + 1 == old(self).spec_len(),
            final(self).free_slots() =~= old(self).free_slots().push(h@ as i32),
    {
        proof {
            lemma_nodes_in_range::<T, C>(self.pool@, self.shape@);
        }
        self.remove_impl(h);
        self.free_list.push(h.index);
    }

    /// Takes the top value out of the heap, frees its slot and returns the
    /// value.
    pub fn pop(&mut self) -> (r: T)
        requires
            old(self).wf(),
            old(self).spec_len() > 0,
        ensures
            final(self).wf(),
            final(self).spec_capacity() == old(self).spec_capacity(),
            old(self)@.dom().contains(old(self).spec_top()),
            r == old(self)@[old(self).spec_top()],
            forall|k: int| #[trigger] old(self)@.dom().contains(k) ==> C::not_less(r, old(self)@[k]),
            final(self)@ =~= old(self)@.remove(old(self).spec_top()),
            final(self).spec_len() + 1 == old(self).spec_len(),
            final(self).free_slots() =~= old(self).free_slots().push(old(self).spec_top() as i32),
    {
        proof {
            lemma_nodes_in_range::<T, C>(self.pool@, self.shape@);
            lemma_root_ranks_first::<T, C>(self.pool@, self.shape@);
        }
        let head_index: i32 = self.root;
        let value: T = self.get_node(head_index).value;
        self.remove_impl(HeapHandle { index: head_index });
        self.free_list.push(head_index);
        value
    }

    /// Replaces the value behind the live handle `h` by what `f` makes of
    /// it, and moves it to where it now ranks. The handle stays.
    pub fn update<F: Fn(T) -> T>(&mut self, h: HeapHandle, f: F)
        requires
            old(self).wf(),
            old(self)@.dom().contains(h@),
            call_requires(f, (old(self)@[h@],)),
        ensures
            final(self).wf(),
            final(self).spec_capacity() == old(self).spec_capacity(),
            final(self)@.dom() =~= old(self)@.dom(),
            call_ensures(f, (old(self)@[h@],), final(self)@[h@]),
            final(self)@ =~= old(self)@.insert(h@, final(self)@[h@]),
            final(self).spec_len() == old(self).spec_len(),
            final(self).free_slots() == old(self).free_slots(),
    {
        proof {
            lemma_nodes_in_range::<T, C>(self.pool@, self.shape@);
        }
        let index: i32 = h.index;
        let value: T = f(self.get_node(index).value);
        self.remove_impl(h);
        let ghost before = self.pool@;
        self.pool.set(index as usize, HeapNode { value, md: HeapNodeMd::new() });
        proof {
            lemma_linked_frame::<T, C>(before, self.pool@, self.shape@);
        }
        self.insert_impl(index);
    }
}

/// What an iterator keeps of a slot that it has reached: the value and the
/// links to the slot's children.
#[derive(Clone, Copy)]
struct HeapIteratorNode<T: Copy + Default> {
    value: T,
    md: HeapNodeMd,
}

impl<T: Copy + Default> Default for HeapIteratorNode<T> {
    fn default() -> (r: Self) {
        HeapIteratorNode { value: T::default(), md: HeapNodeMd::new() }
    }
}

/// Ranks the slots that an iterator has reached as `C` ranks their values.
struct HeapIteratorComparator<T: Copy + Default, C: Comparer<T>> {
    phantom_t: PhantomData<T>,
    phantom_c: PhantomData<C>,
}

impl<T: Copy + Default, C: Comparer<T>> Comparer<HeapIteratorNode<T>> for HeapIteratorComparator<
    T,
    C,
> {
    closed spec fn not_less(x: HeapIteratorNode<T>, y: HeapIteratorNode<T>) -> bool {
        C::not_less(x.value, y.value)
    }

    fn compare(x: &HeapIteratorNode<T>, y: &HeapIteratorNode<T>) -> (o: Ordering) {
        C::compare(&x.value, &y.value)
    }

    proof fn law_total(x: HeapIteratorNode<T>, y: HeapIteratorNode<T>) {
        C::law_total(x.value, y.value);
    }

    proof fn law_transitive(
        x: HeapIteratorNode<T>,
        y: HeapIteratorNode<T>,
        z: HeapIteratorNode<T>,
    ) {
        C::law_transitive(x.value, y.value, z.value);
    }
}

/// Walks a heap from the top down without changing it: every value comes
/// out once, and none before a value that ranks above it.
///
/// The walk keeps a small heap of its own with the slots next in line: the
/// top slots of the subtrees that it has not entered yet.
pub struct HeapIterator<'a, T: Copy + Default, C: Comparer<T>> {
    heap: &'a TreeHeap<T, C>,
    candidates: TreeHeap<HeapIteratorNode<T>, HeapIteratorComparator<T, C>>,
    /// For each slot of `candidates`, the subtree that it stands for.
    subs: Ghost<Map<int, Shape>>,
    /// The slots of the heap whose values are still to come.
    rest: Ghost<Set<int>>,
    /// For each slot still to come, the slot of `candidates` whose subtree
    /// holds it.
    cover: Ghost<Map<int, int>>,
}

/// As many subtrees as can be told apart by a slot of their own fit into
/// `rest` only if `rest` has as many slots.
proof fn lemma_room(subs: Map<int, Shape>, rest: Set<int>, cover: Map<int, int>)
    requires
        subs.dom().finite(),
        rest.finite(),
        forall|a: int| #[trigger]
            subs.dom().contains(a) ==> rest.contains(root_of(subs[a])) && cover[root_of(subs[a])]
                == a,
    ensures
        subs.dom().len() <= rest.len(),
{
    let f = |a: int| root_of(subs[a]);
    let image = subs.dom().map(f);
    assert(vstd::relations::injective_on(f, subs.dom())) by {
        assert forall|a: int, b: int|
            subs.dom().contains(a) && subs.dom().contains(b) && #[trigger] f(a) == #[trigger] f(
                b,
            ) implies a == b by {
            assert(cover[root_of(subs[a])] == a);
            assert(cover[root_of(subs[b])] == b);
        }
    }
    vstd::set_lib::lemma_map_size(subs.dom(), image, f);
    assert(image.subset_of(rest)) by {
        assert forall|i: int| image.contains(i) implies rest.contains(i) by {
            let a = choose|a: int| subs.dom().contains(a) && f(a) == i;
            assert(subs.dom().contains(a));
        }
    }
    vstd::set_lib::lemma_len_subset(image, rest);
}

impl<'a, T: Copy + Default, C: Comparer<T>> HeapIterator<'a, T, C> {
    /// What holds of the walk between two values, but for the claim that
    /// every slot still to come lies under a slot next in line.
    spec fn frontier_ok(&self) -> bool {
        &&& self.heap.wf()
        &&& self.candidates.wf()
        &&& self.candidates.pool@.len() == self.heap.pool@.len()
        &&& self.subs@.dom() =~= nodes(self.candidates.shape@)
        &&& self.rest@.subset_of(nodes(self.heap.shape@))
        &&& forall|a: int| #[trigger]
            self.subs@.dom().contains(a) ==> {
                &&& self.subs@[a] is Node
                &&& linked::<T, C>(self.heap.pool@, self.subs@[a])
                &&& self.candidates.pool@[a].value.value
                    == self.heap.pool@[root_of(self.subs@[a])].value
                &&& self.candidates.pool@[a].value.md == self.heap.pool@[root_of(self.subs@[a])].md
            }
        &&& forall|a: int, i: int|
            self.subs@.dom().contains(a) && #[trigger] nodes(self.subs@[a]).contains(i)
                ==> self.rest@.contains(i) && self.cover@[i] == a
    }

    /// The invariant of the walk.
    pub closed spec fn wf(&self) -> bool {
        &&& self.frontier_ok()
        &&& forall|i: int| #[trigger]
            self.rest@.contains(i) ==> self.subs@.dom().contains(self.cover@[i]) && nodes(
                self.subs@[self.cover@[i]],
            ).contains(i)
    }

    /// The heap that is walked, as its view.
    pub closed spec fn source(&self) -> Map<int, T> {
        self.heap@
    }

    /// The slots of the heap whose values are still to come.
    pub closed spec fn remaining(&self) -> Set<int> {
        self.rest@
    }

    /// The slot whose value comes next, where one is still to come.
    pub closed spec fn spec_next(&self) -> int {
        root_of(self.subs@[self.candidates.root as int])
    }

    /// A walk over `heap` that has everything still to come.
    pub fn new(heap: &'a TreeHeap<T, C>) -> (it: Self)
        requires
            heap.wf(),
        ensures
            it.wf(),
            it.source() == heap@,
            it.remaining() =~= heap@.dom(),
    {
        let mut result = HeapIterator {
            heap,
            candidates: TreeHeap::new(heap.capacity()),
            subs: Ghost(Map::empty()),
            rest: Ghost(nodes(heap.shape@)),
            cover: Ghost(Map::empty()),
        };
        proof {
            heap.lemma_view();
            lemma_nodes_in_range::<T, C>(heap.pool@, heap.shape@);
        }
        if let Some(n) = heap.peek() {
            result.add_candidate(n.index, Ghost(heap.shape@));
        }
        result
    }

    /// Puts slot `index` of the heap, the top of the subtree `t` that is
    /// still to come, in line.
    fn add_candidate(&mut self, index: i32, Ghost(t): Ghost<Shape>)
        requires
            old(self).frontier_ok(),
            t is Node,
            root_of(t) == index,
            linked::<T, C>(old(self).heap.pool@, t),
            nodes(t).subset_of(old(self).rest@),
            forall|a: int, i: int|
                old(self).subs@.dom().contains(a) && #[trigger] nodes(old(self).subs@[a]).contains(
                    i,
                ) ==> !nodes(t).contains(i),
        ensures
            final(self).frontier_ok(),
            final(self).heap == old(self).heap,
            final(self).rest == old(self).rest,
            exists|a: int|
                {
                    &&& !old(self).subs@.dom().contains(a)
                    &&& #[trigger] final(self).subs@ =~= old(self).subs@.insert(a, t)
                    &&& forall|i: int|
                        final(self).cover@[i] == (if nodes(t).contains(i) {
                            a
                        } else {
                            old(self).cover@[i]
                        })
                },
    {
        proof {
            lemma_nodes_in_range::<T, C>(self.heap.pool@, t);
            lemma_nodes_in_range::<T, C>(self.heap.pool@, self.heap.shape@);
            lemma_count_len::<T, C>(self.heap.pool@, self.heap.shape@);
            self.candidates.lemma_invariant();
            self.candidates.lemma_view();
            let less = self.rest@.remove(index as int);
            vstd::set_lib::lemma_len_subset(self.rest@, nodes(self.heap.shape@));
            assert forall|a: int| #[trigger] self.subs@.dom().contains(a) implies less.contains(
                root_of(self.subs@[a]),
            ) && self.cover@[root_of(self.subs@[a])] == a by {
                lemma_nodes_in_range::<T, C>(self.heap.pool@, self.subs@[a]);
                assert(nodes(self.subs@[a]).contains(root_of(self.subs@[a])));
            }
            lemma_room(self.subs@, less, self.cover@);
        }
        let node: &HeapNode<T> = self.heap.get_node(index);
        let r = self.candidates.insert(HeapIteratorNode { value: node.value, md: node.md });
        proof {
            self.candidates.lemma_view();
            let a = r->Ok_0@;
            let cover = Map::new(
                |i: int| true,
                |i: int|
                    if nodes(t).contains(i) {
                        a
                    } else {
                        self.cover@[i]
                    },
            );
            self.subs@ = self.subs@.insert(a, t);
            self.cover@ = cover;
        }
    }

    /// The value that comes next, or `None` where none is left.
    pub fn next(&mut self) -> (r: Option<T>)
        requires
            old(self).wf(),
        ensures
            final(self).wf(),
            final(self).source() == old(self).source(),
            old(self).remaining().subset_of(old(self).source().dom()),
            r is None <==> old(self).remaining() =~= Set::<int>::empty(),
            r is None ==> final(self).remaining() == old(self).remaining(),
            r matches Some(v) ==> {
                &&& old(self).remaining().contains(old(self).spec_next())
                &&& v == old(self).source()[old(self).spec_next()]
                &&& forall|k: int| #[trigger]
                    old(self).remaining().contains(k) ==> C::not_less(v, old(self).source()[k])
                &&& final(self).remaining() =~= old(self).remaining().remove(
                    old(self).spec_next(),
                )
            },
    {
        proof {
            self.heap.lemma_view();
            self.candidates.lemma_view();
            self.candidates.lemma_invariant();
            lemma_nodes_in_range::<T, C>(self.heap.pool@, self.heap.shape@);
        }
        if self.candidates.is_empty() {
            return None;
        }
        let ghost a = self.candidates.root as int;
        let ghost s = self.subs@[a];
        let ghost j = root_of(s);
        let ghost sl = *(s->1);
        let ghost sr = *(s->2);
        let top: HeapIteratorNode<T> = self.candidates.pop();
        proof {
            self.candidates.lemma_view();
            lemma_nodes_in_range::<T, C>(self.heap.pool@, s);
            lemma_nodes_in_range::<T, C>(self.heap.pool@, sl);
            lemma_nodes_in_range::<T, C>(self.heap.pool@, sr);
            assert forall|k: int| #[trigger] old(self).rest@.contains(k) implies C::not_less(
                top.value,
                self.heap.pool@[k].value,
            ) by {
                let b = old(self).cover@[k];
                let sb = old(self).subs@[b];
                assert(old(self).candidates@.dom().contains(b));
                lemma_root_ranks_first::<T, C>(self.heap.pool@, sb);
                assert(nodes(sb).contains(k));
                C::law_transitive(
                    top.value,
                    self.heap.pool@[root_of(sb)].value,
                    self.heap.pool@[k].value,
                );
            }
            assert(nodes(s).contains(j));
            assert forall|i: int| nodes(sl).contains(i) || nodes(sr).contains(i) implies nodes(
                s,
            ).contains(i) && i != j by {}
            self.subs@ = self.subs@.remove(a);
            self.rest@ = self.rest@.remove(j);
            assert(self.frontier_ok());
        }
        if top.md.left_child >= 0 {
            self.add_candidate(top.md.left_child, Ghost(sl));
        }
        if top.md.right_child >= 0 {
            self.add_candidate(top.md.right_child, Ghost(sr));
        }
        proof {
            assert forall|i: int| #[trigger] self.rest@.contains(i) implies self.subs@.dom().contains(
                self.cover@[i],
            ) && nodes(self.subs@[self.cover@[i]]).contains(i) by {
                let b = old(self).cover@[i];
                assert(old(self).subs@.dom().contains(b));
                assert(nodes(old(self).subs@[b]).contains(i));
            }
        }
        Some(top.value)
    }
}

/// Whether the slots reached from slot `i` check out: every child is a slot
/// that names its parent and does not rank above it, the two children of a
/// slot differ, and every slot's size is one more than its children's.
spec fn checks_out<T: Copy + Default, C: Comparer<T>>(
    pool: Seq<HeapNode<T>>,
    i: int,
) -> bool
    decreases
            (if 0 <= i < pool.len() {
                pool[i].md.size as int
            } else {
                0
            }),
{
    if i < 0 {
        true
    } else if i >= pool.len() {
        false
    } else {
        let l = pool[i].md.left_child as int;
        let r = pool[i].md.right_child as int;
        &&& child_checks_out::<T, C>(pool, i, l)
        &&& child_checks_out::<T, C>(pool, i, r)
        &&& pool[i].md.size == 1 + recorded_size(pool, l) + recorded_size(pool, r)
        &&& !(l >= 0 && l == r)
        &&& checks_out::<T, C>(pool, l)
        &&& checks_out::<T, C>(pool, r)
    }
}

/// Whether `c`, where it names a child of slot `i`, is a slot that names `i`
/// as its parent and does not rank above it.
spec fn child_checks_out<T: Copy + Default, C: Comparer<T>>(
    pool: Seq<HeapNode<T>>,
    i: int,
    c: int,
) -> bool {
    c >= 0 ==> {
        &&& c < pool.len()
        &&& pool[c].md.parent == i
        &&& C::not_less(pool[i].value, pool[c].value)
    }
}

/// The size recorded in slot `c`, 0 where `c` is no slot.
spec fn recorded_size<T: Copy + Default>(pool: Seq<HeapNode<T>>, c: int) -> int {
    if 0 <= c < pool.len() {
        pool[c].md.size as int
    } else {
        0
    }
}

/// A laid-out tree checks out from its top slot.
proof fn lemma_linked_checks_out<T: Copy + Default, C: Comparer<T>>(
    pool: Seq<HeapNode<T>>,
    t: Shape,
)
    requires
        linked::<T, C>(pool, t),
    ensures
        checks_out::<T, C>(pool, root_of(t)),
    decreases t,
{
    match t {
        Shape::Leaf => {},
        Shape::Node(i, l, r) => {
            lemma_nodes_in_range::<T, C>(pool, *l);
            lemma_nodes_in_range::<T, C>(pool, *r);
            lemma_linked_checks_out::<T, C>(pool, *l);
            lemma_linked_checks_out::<T, C>(pool, *r);
        },
    }
}

impl<T: Copy + Default, C: Comparer<T>> TreeHeap<T, C> {
    /// Whether the tree checks out from the root.
    pub closed spec fn spec_validate(&self) -> bool {
        checks_out::<T, C>(self.pool@, self.root as int)
    }

    /// The heap's invariant makes the tree check out.
    pub proof fn lemma_valid(&self)
        requires
            self.wf(),
        ensures
            self.spec_validate(),
    {
        lemma_linked_checks_out::<T, C>(self.pool@, self.shape@);
    }

    /// Whether `c`, where it names a child of slot `i`, checks out as one.
    fn validate_child(&self, i: i32, c: i32) -> (ok: bool)
        requires
            self.in_pool(i),
        ensures
            ok == child_checks_out::<T, C>(self.pool@, i as int, c as int),
    {
        if c < 0 {
            return true;
        }
        if c as usize >= self.pool.len() {
            return false;
        }
        if self.get_node_md(c).parent != i {
            return false;
        }
        !self.ranks_above(c, i)
    }

    fn recorded(&self, c: i32) -> (r: u64)
        ensures
            r == recorded_size(self.pool@, c as int),
    {
        if c >= 0 && (c as usize) < self.pool.len() {
            self.get_node_md(c).size as u64
        } else {
            0
        }
    }

    fn validate_node(&self, i: i32) -> (ok: bool)
        ensures
            ok == checks_out::<T, C>(self.pool@, i as int),
        decreases
                (if 0 <= i < self.pool@.len() {
                    self.pool@[i as int].md.size as int
                } else {
                    0
                }),
    {
        if i < 0 {
            return true;
        }
        if i as usize >= self.pool.len() {
            return false;
        }
        let md: HeapNodeMd = self.get_node_md(i);
        if !self.validate_child(i, md.left_child) {
            return false;
        }
        if !self.validate_child(i, md.right_child) {
            return false;
        }
        let child_size: u64 = self.recorded(md.left_child) + self.recorded(md.right_child);
        if md.size as u64 != child_size + 1 {
            return false;
        }
        if md.left_child >= 0 && md.left_child == md.right_child {
            return false;
        }
        self.validate_node(md.left_child) && self.validate_node(md.right_child)
    }

    /// Checks the tree from the root: whether every slot in it names its
    /// parent, does not rank above it, and records the size of its subtree.
    /// A heap that meets its invariant always passes.
    pub fn validate(&self) -> (ok: bool)
        ensures
            ok == self.spec_validate(),
            self.wf() ==> ok,
    {
        proof {
            if self.wf() {
                self.lemma_valid();
            }
        }
        self.validate_node(self.root)
    }
}

/// The number of rows of `t`: the slots on the longest way down from its
/// top.
spec fn height(t: Shape) -> nat
    decreases t,
{
    match t {
        Shape::Leaf => 0,
        Shape::Node(_, l, r) => if height(*l) >= height(*r) {
            1 + height(*l)
        } else {
            1 + height(*r)
        },
    }
}

/// The row of `t` that lies `depth` below its top, from left to right: the
/// values of the slots there, and a gap for every child that a slot of the
/// row above lacks.
spec fn row_of<T: Copy + Default>(pool: Seq<HeapNode<T>>, t: Shape, depth: nat) -> Seq<Option<T>>
    decreases t,
{
    match t {
        Shape::Leaf => if depth == 0 {
            seq![None]
        } else {
            Seq::empty()
        },
        Shape::Node(i, l, r) => if depth == 0 {
            seq![Some(pool[i].value)]
        } else {
            row_of(pool, *l, (depth - 1) as nat) + row_of(pool, *r, (depth - 1) as nat)
        },
    }
}

/// Whether `row` holds a value.
spec fn has_value<T>(row: Seq<Option<T>>) -> bool {
    exists|k: int| 0 <= k < row.len() && (#[trigger] row[k]) is Some
}

/// A row holds a value just where it lies above the height of the tree.
proof fn lemma_row_has_value<T: Copy + Default>(pool: Seq<HeapNode<T>>, t: Shape, depth: nat)
    ensures
        has_value(row_of(pool, t, depth)) <==> depth < height(t),
    decreases t,
{
    let row = row_of(pool, t, depth);
    match t {
        Shape::Leaf => {},
        Shape::Node(i, l, r) => {
            if depth == 0 {
                assert(row[0] is Some);
            } else {
                let d = (depth - 1) as nat;
                let a = row_of(pool, *l, d);
                let b = row_of(pool, *r, d);
                lemma_row_has_value(pool, *l, d);
                lemma_row_has_value(pool, *r, d);
                if has_value(a) {
                    let k = choose|k: int| 0 <= k < a.len() && (#[trigger] a[k]) is Some;
                    assert(row[k] == a[k]);
                }
                if has_value(b) {
                    let k = choose|k: int| 0 <= k < b.len() && (#[trigger] b[k]) is Some;
                    assert(row[a.len() + k] == b[k]);
                }
                if has_value(row) {
                    let k = choose|k: int| 0 <= k < row.len() && (#[trigger] row[k]) is Some;
                    if k < a.len() {
                        assert(a[k] == row[k]);
                    } else {
                        assert(b[k - a.len()] == row[k]);
                    }
                }
            }
        },
    }
}

/// A tree is no higher than it has slots.
proof fn lemma_height_bound(t: Shape)
    ensures
        height(t) <= count(t),
    decreases t,
{
    match t {
        Shape::Leaf => {},
        Shape::Node(_, l, r) => {
            lemma_height_bound(*l);
            lemma_height_bound(*r);
        },
    }
}

impl<T: Copy + Default, C: Comparer<T>> TreeHeap<T, C> {
    /// The number of rows of the tree.
    pub closed spec fn spec_height(&self) -> nat {
        height(self.shape@)
    }

    /// The row that lies `depth` below the top of the heap, from left to
    /// right: the values there, and a gap for every child that a value of
    /// the row above lacks.
    pub closed spec fn spec_row(&self, depth: nat) -> Seq<Option<T>> {
        row_of(self.pool@, self.shape@, depth)
    }

    /// The heap has a row for every value, and no more rows than values;
    /// its top row is the value on top.
    pub proof fn lemma_rows(&self)
        requires
            self.wf(),
        ensures
            self.spec_height() <= self.spec_len(),
            self.spec_len() > 0 ==> self.spec_height() > 0 && self.spec_row(0) == seq![
                Some(self@[self.spec_top()]),
            ],
    {
        lemma_height_bound(self.shape@);
        lemma_nodes_in_range::<T, C>(self.pool@, self.shape@);
        self.lemma_view();
    }

    /// Adds to `out` the row that lies `depth` below slot `i`.
    fn push_row(&self, i: i32, depth: usize, out: &mut Vec<Option<T>>, Ghost(t): Ghost<Shape>)
        requires
            linked::<T, C>(self.pool@, t),
            root_of(t) == i,
        ensures
            final(out)@ == old(out)@ + row_of(self.pool@, t, depth as nat),
        decreases t,
    {
        if i < 0 {
            if depth == 0 {
                out.push(None);
            }
            assert(out@ =~= old(out)@ + row_of(self.pool@, t, depth as nat));
            return ;
        }
        proof {
            lemma_nodes_in_range::<T, C>(self.pool@, t);
        }
        let node: &HeapNode<T> = self.get_node(i);
        if depth == 0 {
            out.push(Some(node.value));
            assert(out@ =~= old(out)@ + row_of(self.pool@, t, depth as nat));
            return ;
        }
        let ghost l = *(t->1);
        let ghost r = *(t->2);
        self.push_row(node.md.left_child, depth - 1, out, Ghost(l));
        self.push_row(node.md.right_child, depth - 1, out, Ghost(r));
        assert(out@ =~= old(out)@ + row_of(self.pool@, t, depth as nat));
    }

    /// The heap row by row, from the top down; the last row is the row of
    /// gaps below the lowest values. An empty heap has no row.
    pub fn rows(&self) -> (r: Vec<Vec<Option<T>>>)
        requires
            self.wf(),
        ensures
            r@.len() == (if self.spec_len() == 0 {
                0
            } else {
                self.spec_height() + 1
            }),
            forall|d: int| 0 <= d < r@.len() ==> (#[trigger] r@[d])@ == self.spec_row(d as nat),
    {
        let mut rows: Vec<Vec<Option<T>>> = Vec::new();
        if self.root < 0 {
            return rows;
        }
        proof {
            lemma_height_bound(self.shape@);
            lemma_nodes_in_range::<T, C>(self.pool@, self.shape@);
        }
        let mut depth: usize = 0;
        loop
            invariant_except_break
                rows@.len() == depth,
                depth <= height(self.shape@),
            invariant
                self.wf(),
                self.shape@ is Node,
                height(self.shape@) <= count(self.shape@) <= i32::MAX,
                forall|d: int|
                    0 <= d < rows@.len() ==> (#[trigger] rows@[d])@ == row_of(
                        self.pool@,
                        self.shape@,
                        d as nat,
                    ),
            ensures
                rows@.len() == height(self.shape@) + 1,
            decreases height(self.shape@) - depth,
        {
            let mut row: Vec<Option<T>> = Vec::new();
            self.push_row(self.root, depth, &mut row, Ghost(self.shape@));
            assert(row@ =~= row_of(self.pool@, self.shape@, depth as nat));
            let mut found: bool = false;
            let mut k: usize = 0;
            while k < row.len()
                invariant
                    k <= row@.len(),
                    found <==> exists|j: int| 0 <= j < k && (#[trigger] row@[j]) is Some,
                decreases row@.len() - k,
            {
                if row[k].is_some() {
                    found = true;
                }
                k += 1;
            }
            proof {
                lemma_row_has_value(self.pool@, self.shape@, depth as nat);
            }
            rows.push(row);
            if !found {
                break ;
            }
            depth += 1;
        }
        rows
    }
}

/// Ranks the values of an integer type by their size.
pub struct DefaultComparer<T> {
    phantom: PhantomData<T>,
}

impl Comparer<u8> for DefaultComparer<u8> {
    open spec fn not_less(x: u8, y: u8) -> bool {
        x >= y
    }

    fn compare(x: &u8, y: &u8) -> (o: Ordering) {
        x.cmp(y)
    }

    proof fn law_total(x: u8, y: u8) {
    }

    proof fn law_transitive(x: u8, y: u8, z: u8) {
    }
}

impl Comparer<u16> for DefaultComparer<u16> {
    open spec fn not_less(x: u16, y: u16) -> bool {
        x >= y
    }

    fn compare(x: &u16, y: &u16) -> (o: Ordering) {
        x.cmp(y)
    }

    proof fn law_total(x: u16, y: u16) {
    }

    proof fn law_transitive(x: u16, y: u16, z: u16) {
    }
}

impl Comparer<u32> for DefaultComparer<u32> {
    open spec fn not_less(x: u32, y: u32) -> bool {
        x >= y
    }

    fn compare(x: &u32, y: &u32) -> (o: Ordering) {
        x.cmp(y)
    }

    proof fn law_total(x: u32, y: u32) {
    }

    proof fn law_transitive(x: u32, y: u32, z: u32) {
    }
}

impl Comparer<u64> for DefaultComparer<u64> {
    open spec fn not_less(x: u64, y: u64) -> bool {
        x >= y
    }

    fn compare(x: &u64, y: &u64) -> (o: Ordering) {
        x.cmp(y)
    }

    proof fn law_total(x: u64, y: u64) {
    }

    proof fn law_transitive(x: u64, y: u64, z: u64) {
    }
}

impl Comparer<usize> for DefaultComparer<usize> {
    open spec fn not_less(x: usize, y: usize) -> bool {
        x >= y
    }

    fn compare(x: &usize, y: &usize) -> (o: Ordering) {
        x.cmp(y)
    }

    proof fn law_total(x: usize, y: usize) {
    }

    proof fn law_transitive(x: usize, y: usize, z: usize) {
    }
}

impl Comparer<i8> for DefaultComparer<i8> {
    open spec fn not_less(x: i8, y: i8) -> bool {
        x >= y
    }

    fn compare(x: &i8, y: &i8) -> (o: Ordering) {
        x.cmp(y)
    }

    proof fn law_total(x: i8, y: i8) {
    }

    proof fn law_transitive(x: i8, y: i8, z: i8) {
    }
}

impl Comparer<i16> for DefaultComparer<i16> {
    open spec fn not_less(x: i16, y: i16) -> bool {
        x >= y
    }

    fn compare(x: &i16, y: &i16) -> (o: Ordering) {
        x.cmp(y)
    }

    proof fn law_total(x: i16, y: i16) {
    }

    proof fn law_transitive(x: i16, y: i16, z: i16) {
    }
}

impl Comparer<i32> for DefaultComparer<i32> {
    open spec fn not_less(x: i32, y: i32) -> bool {
        x >= y
    }

    fn compare(x: &i32, y: &i32) -> (o: Ordering) {
        x.cmp(y)
    }

    proof fn law_total(x: i32, y: i32) {
    }

    proof fn law_transitive(x: i32, y: i32, z: i32) {
    }
}

impl Comparer<i64> for DefaultComparer<i64> {
    open spec fn not_less(x: i64, y: i64) -> bool {
        x >= y
    }

    fn compare(x: &i64, y: &i64) -> (o: Ordering) {
        x.cmp(y)
    }

    proof fn law_total(x: i64, y: i64) {
    }

    proof fn law_transitive(x: i64, y: i64, z: i64) {
    }
}

impl Comparer<isize> for DefaultComparer<isize> {
    open spec fn not_less(x: isize, y: isize) -> bool {
        x >= y
    }

    fn compare(x: &isize, y: &isize) -> (o: Ordering) {
        x.cmp(y)
    }

    proof fn law_total(x: isize, y: isize) {
    }

    proof fn law_transitive(x: isize, y: isize, z: isize) {
    }
}

/// Makes heaps that rank their values by size.
pub struct TreeHeapOrd<T> {
    phantom: PhantomData<T>,
}

impl<T: Copy + Default> TreeHeapOrd<T> where DefaultComparer<T>: Comparer<T> {
    /// An empty heap with room for `capacity` values, largest on top.
    pub fn new(capacity: usize) -> (heap: TreeHeap<T, DefaultComparer<T>>)
        requires
            capacity <= i32::MAX,
        ensures
            heap.wf(),
            heap@ =~= Map::<int, T>::empty(),
            heap.spec_capacity() == capacity,
            heap.spec_len() == 0,
            heap.free_slots() =~= Seq::new(capacity as nat, |k: int| (capacity - 1 - k) as i32),
    {
        TreeHeap::new(capacity)
    }
}

} // verus!
