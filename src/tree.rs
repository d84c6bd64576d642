//! The tree itself: nodes that own their two subtrees, and a tree that owns its root.

use vstd::prelude::*;

verus! {

use std::cmp::Ordering;

use crate::order::{lemma_asymmetric, TotalOrder};

/// A node holding `data`, seen `data_count` times, with the strictly smaller values
/// under `less` and the strictly greater ones under `more`.
#[derive(PartialEq, Debug)]
pub struct BSTNode<T> {
    pub data: T,
    pub data_count: u64,
    pub less: Option<Box<BSTNode<T>>>,
    pub more: Option<Box<BSTNode<T>>>,
}

/// A tree that is never empty: it always holds its root node.
#[derive(Debug)]
pub struct BSTree<T> {
    pub root: BSTNode<T>,
}

/// The height of an optional subtree (0 when absent).
pub open spec fn height_of<T>(n: Option<Box<BSTNode<T>>>) -> nat
    decreases n,
{
    match n {
        Some(b) => b.height(),
        None => 0,
    }
}

/// The values held in an optional subtree.
pub open spec fn values_of<T>(n: Option<Box<BSTNode<T>>>) -> Set<T>
    decreases n,
{
    match n {
        Some(b) => b.values(),
        None => Set::empty(),
    }
}

/// The in-order traversal of an optional subtree.
pub open spec fn inorder_of<T>(n: Option<Box<BSTNode<T>>>) -> Seq<T>
    decreases n,
{
    match n {
        Some(b) => b.inorder(),
        None => Seq::empty(),
    }
}

impl<T> BSTNode<T> {
    /// Number of levels from this node down to its farthest leaf, this node included.
    pub open spec fn height(self) -> nat
        decreases self,
    {
        1 + vstd::math::max(height_of(self.less) as int, height_of(self.more) as int) as nat
    }

    /// Every value stored in this subtree.
    pub open spec fn values(self) -> Set<T>
        decreases self,
    {
        values_of(self.less).union(values_of(self.more)).insert(self.data)
    }

    /// In-order traversal, each value repeated as many times as it is counted.
    pub open spec fn inorder(self) -> Seq<T>
        decreases self,
    {
        inorder_of(self.less) + Seq::new(self.data_count as nat, |_i: int| self.data)
            + inorder_of(self.more)
    }
}


/// The count of `v` found by searching an optional subtree (0 when absent).
pub open spec fn count_in<T: TotalOrder>(n: Option<Box<BSTNode<T>>>, v: T) -> nat
    decreases n,
{
    match n {
        Some(b) => b.count_of(v),
        None => 0,
    }
}

/// The node that inserting `v` into an optional subtree yields.
pub open spec fn inserted_into<T: TotalOrder>(n: Option<Box<BSTNode<T>>>, v: T) -> BSTNode<T>
    decreases n,
{
    match n {
        Some(b) => b.inserted(v),
        None => BSTNode::leaf(v),
    }
}

/// Two optional subtrees hold the same values in the same places, whatever their counts.
pub open spec fn same_shape_of<T>(a: Option<Box<BSTNode<T>>>, b: Option<Box<BSTNode<T>>>) -> bool
    decreases a,
{
    match (a, b) {
        (Some(x), Some(y)) => x.same_shape(*y),
        (None, None) => true,
        _ => false,
    }
}

/// An optional subtree that is absent or ordered.
pub open spec fn ordered_of<T: TotalOrder>(n: Option<Box<BSTNode<T>>>) -> bool
    decreases n,
{
    match n {
        Some(b) => b.ordered(),
        None => true,
    }
}

/// An optional subtree that is absent or has every count positive.
pub open spec fn counted_of<T>(n: Option<Box<BSTNode<T>>>) -> bool
    decreases n,
{
    match n {
        Some(b) => b.counted(),
        None => true,
    }
}

/// An optional subtree after removing `v` from it: a child that holds `v` once is
/// detached together with everything below it; otherwise the removal goes on inside.
pub open spec fn detached<T: TotalOrder>(n: Option<Box<BSTNode<T>>>, v: T) -> Option<
    Box<BSTNode<T>>,
>
    decreases n,
{
    match n {
        Some(b) => if b.data == v && b.data_count == 1 {
            None
        } else {
            Some(Box::new(b.removed(v)))
        },
        None => None,
    }
}

impl<T> BSTNode<T> {
    /// Same values in the same places, counts aside.
    pub open spec fn same_shape(self, other: Self) -> bool
        decreases self,
    {
        &&& self.data == other.data
        &&& same_shape_of(self.less, other.less)
        &&& same_shape_of(self.more, other.more)
    }

    /// Every node of this subtree has a positive count.
    pub open spec fn counted(self) -> bool
        decreases self,
    {
        &&& self.data_count >= 1
        &&& counted_of(self.less)
        &&& counted_of(self.more)
    }

    /// A node with no children, holding `v` once.
    pub open spec fn leaf(v: T) -> Self {
        BSTNode { data: v, data_count: 1, less: None, more: None }
    }
}

impl<T: TotalOrder> BSTNode<T> {
    /// The search-tree order: everything under `less` is strictly smaller than `data`,
    /// everything under `more` strictly greater, and so on at every node.
    pub open spec fn ordered(self) -> bool
        decreases self,
    {
        &&& forall|x: T| #[trigger] values_of(self.less).contains(x) ==> x.less_than(self.data)
        &&& forall|x: T| #[trigger] values_of(self.more).contains(x) ==> self.data.less_than(x)
        &&& ordered_of(self.less)
        &&& ordered_of(self.more)
    }

    /// Ordered, with every count positive.
    pub open spec fn well_formed(self) -> bool {
        self.ordered() && self.counted()
    }

    /// How many times `v` is counted on its search path (0 when the path ends first).
    pub open spec fn count_of(self, v: T) -> nat
        decreases self,
    {
        if v == self.data {
            self.data_count as nat
        } else if v.less_than(self.data) {
            count_in(self.less, v)
        } else {
            count_in(self.more, v)
        }
    }

    /// The tree after removing `v` once: a node's own equal value has its count lowered;
    /// below, a child holding `v` once is cut off with its whole subtree.
    pub open spec fn removed(self, v: T) -> Self
        decreases self,
    {
        if v == self.data {
            BSTNode {
                data: self.data,
                data_count: (self.data_count - 1) as u64,
                less: self.less,
                more: self.more,
            }
        } else if v.less_than(self.data) {
            BSTNode {
                data: self.data,
                data_count: self.data_count,
                less: detached(self.less, v),
                more: self.more,
            }
        } else {
            BSTNode {
                data: self.data,
                data_count: self.data_count,
                less: self.less,
                more: detached(self.more, v),
            }
        }
    }

    /// The tree after inserting `v`: an equal value bumps its node's count, a new value
    /// becomes a leaf where its search path ends.
    pub open spec fn inserted(self, v: T) -> Self
        decreases self,
    {
        if v == self.data {
            BSTNode {
                data: self.data,
                data_count: (self.data_count + 1) as u64,
                less: self.less,
                more: self.more,
            }
        } else if v.less_than(self.data) {
            BSTNode {
                data: self.data,
                data_count: self.data_count,
                less: Some(Box::new(inserted_into(self.less, v))),
                more: self.more,
            }
        } else {
            BSTNode {
                data: self.data,
                data_count: self.data_count,
                less: self.less,
                more: Some(Box::new(inserted_into(self.more, v))),
            }
        }
    }
}


impl<T> BSTNode<T> {
    /// Any subtree has its own shape.
    pub proof fn lemma_same_shape_reflexive(self)
        ensures
            self.same_shape(self),
        decreases self,
    {
        match self.less {
            Some(b) => b.lemma_same_shape_reflexive(),
            None => {},
        }
        match self.more {
            Some(b) => b.lemma_same_shape_reflexive(),
            None => {},
        }
    }
}

impl<T: TotalOrder> BSTNode<T> {
    /// A value found with a positive count on its search path is stored in the subtree.
    pub proof fn lemma_counted_is_stored(self, v: T)
        requires
            self.count_of(v) > 0,
        ensures
            self.values().contains(v),
        decreases self,
    {
        if v != self.data {
            if v.less_than(self.data) {
                match self.less {
                    Some(b) => b.lemma_counted_is_stored(v),
                    None => {},
                }
            } else {
                match self.more {
                    Some(b) => b.lemma_counted_is_stored(v),
                    None => {},
                }
            }
        }
    }

    /// A leaf stores and counts its value alone, is ordered, and counts it positively.
    pub proof fn lemma_leaf(v: T, x: T)
        ensures
            BSTNode::leaf(v).values() == set![v],
            BSTNode::leaf(v).count_of(x) == (if x == v { 1nat } else { 0nat }),
            BSTNode::leaf(v).ordered(),
            BSTNode::leaf(v).counted(),
    {
        let l = BSTNode::leaf(v);
        assert(values_of(l.less) =~= Set::empty());
        assert(values_of(l.more) =~= Set::empty());
        assert(l.values() =~= set![v]);
        assert(count_in(l.less, x) == 0);
        assert(count_in(l.more, x) == 0);
    }

    /// Inserting adds `v` to the stored values and keeps the search-tree order.
    pub proof fn lemma_inserted_ordered(self, v: T)
        ensures
            self.inserted(v).values() == self.values().insert(v),
            self.ordered() ==> self.inserted(v).ordered(),
        decreases self,
    {
        let r = self.inserted(v);
        if v == self.data {
            assert(r.values() =~= self.values().insert(v));
        } else if v.less_than(self.data) {
            match self.less {
                Some(b) => b.lemma_inserted_ordered(v),
                None => BSTNode::lemma_leaf(v, v),
            }
            assert(values_of(r.less) =~= values_of(self.less).insert(v));
            assert(r.values() =~= self.values().insert(v));
        } else {
            T::connected(v, self.data);
            match self.more {
                Some(b) => b.lemma_inserted_ordered(v),
                None => BSTNode::lemma_leaf(v, v),
            }
            assert(values_of(r.more) =~= values_of(self.more).insert(v));
            assert(r.values() =~= self.values().insert(v));
        }
    }

    /// Inserting `v` counts it once more and leaves every other count as it was;
    /// positive counts stay positive.
    pub proof fn lemma_inserted_counts(self, v: T, x: T)
        requires
            self.count_of(v) < u64::MAX,
        ensures
            self.inserted(v).count_of(x) == self.count_of(x) + (if x == v { 1nat } else { 0nat }),
            self.counted() ==> self.inserted(v).counted(),
        decreases self,
    {
        if v != self.data {
            if v.less_than(self.data) {
                match self.less {
                    Some(b) => b.lemma_inserted_counts(v, x),
                    None => BSTNode::lemma_leaf(v, x),
                }
            } else {
                match self.more {
                    Some(b) => b.lemma_inserted_counts(v, x),
                    None => BSTNode::lemma_leaf(v, x),
                }
            }
        }
    }

    /// Inserting a value that is already counted only bumps a count: the shape stays.
    pub proof fn lemma_inserted_same_shape(self, v: T)
        requires
            self.count_of(v) > 0,
        ensures
            self.inserted(v).same_shape(self),
        decreases self,
    {
        match self.less {
            Some(b) => b.lemma_same_shape_reflexive(),
            None => {},
        }
        match self.more {
            Some(b) => b.lemma_same_shape_reflexive(),
            None => {},
        }
        if v != self.data {
            if v.less_than(self.data) {
                match self.less {
                    Some(b) => b.lemma_inserted_same_shape(v),
                    None => {},
                }
            } else {
                match self.more {
                    Some(b) => b.lemma_inserted_same_shape(v),
                    None => {},
                }
            }
        }
    }
}

impl<T: TotalOrder> BSTNode<T> {
    /// Removing keeps a subset of the values, the search-tree order and positive counts.
    pub proof fn lemma_removed_ordered(self, v: T)
        requires
            self.counted(),
            !(self.data == v && self.data_count == 1),
        ensures
            self.removed(v).values().subset_of(self.values()),
            self.ordered() ==> self.removed(v).ordered(),
            self.removed(v).counted(),
        decreases self,
    {
        let r = self.removed(v);
        if v != self.data {
            if v.less_than(self.data) {
                match self.less {
                    Some(b) => if !(b.data == v && b.data_count == 1) {
                        b.lemma_removed_ordered(v);
                    },
                    None => {},
                }
                assert(values_of(r.less).subset_of(values_of(self.less)));
            } else {
                match self.more {
                    Some(b) => if !(b.data == v && b.data_count == 1) {
                        b.lemma_removed_ordered(v);
                    },
                    None => {},
                }
                assert(values_of(r.more).subset_of(values_of(self.more)));
            }
        }
        assert(r.values().subset_of(self.values()));
    }

    /// Removing `v` counts it once less where it is counted, and changes nothing where it
    /// is not; any other value keeps its count, or loses it with a detached subtree.
    pub proof fn lemma_removed_counts(self, v: T, x: T)
        requires
            self.counted(),
            !(self.data == v && self.data_count == 1),
        ensures
            self.count_of(v) == 0 ==> self.removed(v) == self,
            self.count_of(v) > 0 ==> self.removed(v).count_of(v) == self.count_of(v) - 1,
            x != v ==> (self.removed(v).count_of(x) == self.count_of(x) || self.removed(
                v,
            ).count_of(x) == 0),
        decreases self,
    {
        if v != self.data {
            if v.less_than(self.data) {
                match self.less {
                    Some(b) => if !(b.data == v && b.data_count == 1) {
                        b.lemma_removed_counts(v, x);
                    },
                    None => {},
                }
            } else {
                match self.more {
                    Some(b) => if !(b.data == v && b.data_count == 1) {
                        b.lemma_removed_counts(v, x);
                    },
                    None => {},
                }
            }
        }
    }
}

impl<T: TotalOrder> BSTNode<T> {
    /// A boxed leaf holding `data` once.
    pub fn new_boxed(data: T) -> (r: Box<BSTNode<T>>)
        ensures
            *r == BSTNode::leaf(data),
    {
        Box::new(BSTNode { data, data_count: 1, less: None, more: None })
    }

    /// The child holding the smaller values; there must be one.
    pub fn less(&self) -> (r: &BSTNode<T>)
        requires
            self.less is Some,
        ensures
            *r == *self.less.unwrap(),
    {
        self.less.as_ref().unwrap()
    }

    /// The child holding the greater values; there must be one.
    pub fn more(&self) -> (r: &BSTNode<T>)
        requires
            self.more is Some,
        ensures
            *r == *self.more.unwrap(),
    {
        self.more.as_ref().unwrap()
    }

    /// The number of levels of this subtree: 1 for a leaf.
    pub fn depth(&self) -> (r: usize)
        requires
            self.height() <= usize::MAX,
        ensures
            r == self.height(),
        decreases self,
    {
        let l: usize = match &self.less {
            Some(node) => node.depth(),
            None => 0,
        };
        let m: usize = match &self.more {
            Some(node) => node.depth(),
            None => 0,
        };
        if l < m {
            m + 1
        } else {
            l + 1
        }
    }

    /// Inserts `data`: a value equal to a node's own has that node's count bumped,
    /// any other value is attached as a new leaf where its search path ends.
    pub fn insert(&mut self, data: T)
        requires
            old(self).count_of(data) < u64::MAX,
        ensures
            *final(self) == old(self).inserted(data),
            final(self).values() == old(self).values().insert(data),
            forall|x: T|
                #[trigger] final(self).count_of(x) == old(self).count_of(x) + (if x == data {
                    1nat
                } else {
                    0nat
                }),
            old(self).count_of(data) > 0 ==> final(self).same_shape(*old(self)),
            old(self).well_formed() ==> final(self).well_formed(),
        decreases old(self).height(),
    {
        let ghost before = *self;
        proof {
            before.lemma_inserted_ordered(data);
            assert forall|x: T|
                #[trigger] before.inserted(data).count_of(x) == before.count_of(x) + (if x
                    == data {
                    1nat
                } else {
                    0nat
                }) by {
                before.lemma_inserted_counts(data, x);
            }
            before.lemma_inserted_counts(data, data);
            if before.count_of(data) > 0 {
                before.lemma_inserted_same_shape(data);
            }
        }
        match self.data.compare(&data) {
            Ordering::Greater => match &mut self.less {
                Some(less) => less.insert(data),
                None => self.less = Some(BSTNode::new_boxed(data)),
            },
            Ordering::Equal => {
                self.data_count = self.data_count + 1;
            },
            Ordering::Less => {
                proof {
                    lemma_asymmetric(self.data, data);
                }
                match &mut self.more {
                    Some(more) => more.insert(data),
                    None => self.more = Some(BSTNode::new_boxed(data)),
                }
            },
        }
    }

    /// Removes `data` once. A node's own equal value has its count lowered. Below, a
    /// child that holds `data` once is cut off together with its whole subtree, and one
    /// that holds it more often has its count lowered. A value that is absent changes
    /// nothing. A node cannot remove itself: its own value counted once is refused.
    pub fn remove(&mut self, data: T)
        requires
            old(self).counted(),
            !(old(self).data == data && old(self).data_count == 1),
        ensures
            *final(self) == old(self).removed(data),
            !old(self).values().contains(data) ==> *final(self) == *old(self),
            old(self).count_of(data) > 0 ==> final(self).count_of(data) == old(self).count_of(
                data,
            ) - 1,
            forall|x: T|
                x != data ==> (#[trigger] final(self).count_of(x) == old(self).count_of(x)
                    || final(self).count_of(x) == 0),
            final(self).values().subset_of(old(self).values()),
            old(self).well_formed() ==> final(self).well_formed(),
        decreases old(self).height(),
    {
        let ghost before = *self;
        proof {
            before.lemma_removed_ordered(data);
            assert forall|x: T|
                x != data implies (#[trigger] before.removed(data).count_of(x) == before.count_of(
                    x,
                ) || before.removed(data).count_of(x) == 0) by {
                before.lemma_removed_counts(data, x);
            }
            before.lemma_removed_counts(data, data);
            if !before.values().contains(data) {
                if before.count_of(data) > 0 {
                    before.lemma_counted_is_stored(data);
                }
            }
        }
        match self.data.compare(&data) {
            Ordering::Greater => match &mut self.less {
                Some(less) => {
                    if less.data_count == 1 && matches!(less.data.compare(&data), Ordering::Equal) {
                        self.less = None;
                    } else {
                        less.remove(data);
                    }
                },
                None => {},
            },
            Ordering::Equal => {
                self.data_count = self.data_count - 1;
            },
            Ordering::Less => {
                proof {
                    lemma_asymmetric(self.data, data);
                }
                match &mut self.more {
                    Some(more) => {
                        if more.data_count == 1 && matches!(
                            more.data.compare(&data),
                            Ordering::Equal
                        ) {
                            self.more = None;
                        } else {
                            more.remove(data);
                        }
                    },
                    None => {},
                }
            },
        }
    }
}

/// How many times `x` occurs in `s`.
pub open spec fn occurrences<T>(s: Seq<T>, x: T) -> nat
    decreases s.len(),
{
    if s.len() == 0 {
        0
    } else {
        occurrences(s.drop_last(), x) + (if s.last() == x { 1nat } else { 0nat })
    }
}

/// A prefix holds no more occurrences than the whole sequence.
pub proof fn lemma_occurrences_prefix<T>(s: Seq<T>, i: int, x: T)
    requires
        0 <= i <= s.len(),
    ensures
        occurrences(s.take(i), x) <= occurrences(s, x),
    decreases s.len() - i,
{
    if i < s.len() {
        lemma_occurrences_prefix(s, i + 1, x);
        assert(s.take(i + 1).drop_last() =~= s.take(i));
    } else {
        assert(s.take(i) =~= s);
    }
}

impl<T: TotalOrder> BSTree<T> {
    /// The tree is a well-formed search tree.
    pub open spec fn well_formed(self) -> bool {
        self.root.well_formed()
    }

    /// The tree holding `seed` alone, once.
    pub open spec fn seeded(seed: T) -> Self {
        BSTree { root: BSTNode::leaf(seed) }
    }

    /// The tree after inserting each of `values`, first to last.
    pub open spec fn insert_all(self, values: Seq<T>) -> Self
        decreases values.len(),
    {
        if values.len() == 0 {
            self
        } else {
            BSTree { root: self.insert_all(values.drop_last()).root.inserted(values.last()) }
        }
    }

    /// A tree whose root holds `data` once, with no children.
    pub fn new(data: T) -> (r: BSTree<T>)
        ensures
            r == BSTree::seeded(data),
            r.well_formed(),
    {
        proof {
            BSTNode::lemma_leaf(data, data);
        }
        BSTree { root: BSTNode { data, data_count: 1, less: None, more: None } }
    }

    /// Inserts `data`, as the root node's `insert` does.
    pub fn insert(&mut self, data: T)
        requires
            old(self).root.count_of(data) < u64::MAX,
        ensures
            final(self).root == old(self).root.inserted(data),
            final(self).root.values() == old(self).root.values().insert(data),
            forall|x: T|
                #[trigger] final(self).root.count_of(x) == old(self).root.count_of(x) + (if x
                    == data {
                    1nat
                } else {
                    0nat
                }),
            old(self).root.count_of(data) > 0 ==> final(self).root.same_shape(old(self).root),
            old(self).well_formed() ==> final(self).well_formed(),
    {
        self.root.insert(data)
    }

    /// The number of levels of the tree: 1 for a tree of one node.
    pub fn depth(&self) -> (r: usize)
        requires
            self.root.height() <= usize::MAX,
        ensures
            r == self.root.height(),
    {
        self.root.depth()
    }

    /// Inserts each of `values` in turn, first to last.
    pub fn insert_multiple(&mut self, values: Vec<T>)
        requires
            forall|x: T| old(self).root.count_of(x) + occurrences(values@, x) <= u64::MAX,
        ensures
            *final(self) == old(self).insert_all(values@),
            forall|x: T|
                #[trigger] final(self).root.count_of(x) == old(self).root.count_of(x)
                    + occurrences(values@, x),
            old(self).well_formed() ==> final(self).well_formed(),
    {
        let ghost start = *self;
        let ghost vs = values@;
        for data in it: values
            invariant
                it.seq() == vs,
                *self == start.insert_all(vs.take(it.index())),
                forall|x: T|
                    #[trigger] self.root.count_of(x) == start.root.count_of(x) + occurrences(
                        vs.take(it.index()),
                        x,
                    ),
                forall|x: T| start.root.count_of(x) + occurrences(vs, x) <= u64::MAX,
                start.well_formed() ==> self.well_formed(),
        {
            let ghost i = it.index();
            proof {
                assert(vs.take(i + 1).drop_last() =~= vs.take(i));
                lemma_occurrences_prefix(vs, i + 1, data);
            }
            self.root.insert(data);
        }
        proof {
            assert(vs.take(vs.len() as int) =~= vs);
        }
    }

    /// Removes `data` once, as the root node's `remove` does. The root's own value,
    /// counted once, cannot be removed: the tree is never empty.
    pub fn remove(&mut self, data: T)
        requires
            old(self).root.counted(),
            !(old(self).root.data == data && old(self).root.data_count == 1),
        ensures
            final(self).root == old(self).root.removed(data),
            !old(self).root.values().contains(data) ==> *final(self) == *old(self),
            old(self).root.count_of(data) > 0 ==> final(self).root.count_of(data) == old(
                self,
            ).root.count_of(data) - 1,
            forall|x: T|
                x != data ==> (#[trigger] final(self).root.count_of(x) == old(self).root.count_of(
                    x,
                ) || final(self).root.count_of(x) == 0),
            old(self).well_formed() ==> final(self).well_formed(),
    {
        self.root.remove(data)
    }
}

/// A tree made of its root alone, childless, has a depth of one level, whatever its value
/// and count.
pub proof fn lemma_one_node_depth<T>(tree: BSTree<T>)
    requires
        tree.root.less is None,
        tree.root.more is None,
    ensures
        tree.root.height() == 1,
{
}

} // verus!
