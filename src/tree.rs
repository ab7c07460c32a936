use vstd::prelude::*;

verus! {

/// The axis along which a node draws its share of its parent's space.
#[derive(PartialEq, Eq, Structural, Clone, Copy, Debug)]
pub enum TilingDirection {
    Vertical,
    Horizontal,
}

/// A node of an n-ary tiling tree: a payload, the direction it takes its
/// share in, and its ordered children.
pub struct Node<T> {
    pub value: T,
    pub direction: TilingDirection,
    pub children: Vec<Node<T>>,
}

impl<T> Node<T> {
    pub open spec fn is_leaf_spec(self) -> bool {
        self.children@.len() == 0
    }

    /// No path from this node down to a leaf is longer than `d` edges.
    pub open spec fn depth_at_most(self, d: int) -> bool
        decreases self,
    {
        self.children@.len() == 0 || (d > 0 && self.children_depth_at_most(
            self.children@.len() as int,
            d - 1,
        ))
    }

    /// Each of the first `k` children has depth at most `d`.
    pub open spec fn children_depth_at_most(self, k: int, d: int) -> bool
        decreases self, k,
    {
        k <= 0 || k > self.children@.len() || (self.children_depth_at_most(k - 1, d)
            && self.children@[k - 1].depth_at_most(d))
    }

    pub proof fn lemma_children_depth(self, k: int, d: int)
        requires
            0 <= k <= self.children@.len(),
        ensures
            self.children_depth_at_most(k, d) <==> forall|i: int|
                0 <= i < k ==> #[trigger] self.children@[i].depth_at_most(d),
        decreases k,
    {
        if k > 0 {
            self.lemma_children_depth(k - 1, d);
            if forall|i: int| 0 <= i < k ==> #[trigger] self.children@[i].depth_at_most(d) {
                assert(self.children@[k - 1].depth_at_most(d));
            }
        }
    }

    /// Every child of this node is a leaf.
    pub open spec fn is_flat(self) -> bool {
        forall|i: int| 0 <= i < self.children@.len() ==> #[trigger] self.children@[i].is_leaf_spec()
    }

    /// A leaf holding `value`, tagged with `direction`.
    pub open spec fn is_leaf_of(self, value: T, direction: TilingDirection) -> bool {
        &&& self.value == value
        &&& self.direction == direction
        &&& self.children@.len() == 0
    }

    pub fn new(value: T, direction: TilingDirection) -> (n: Node<T>)
        ensures
            n.is_leaf_of(value, direction),
    {
        Node { value, direction, children: Vec::new() }
    }

    /// Appends a new leaf as the last child.
    pub fn insert(&mut self, new_val: T, direction: TilingDirection)
        ensures
            final(self).value == old(self).value,
            final(self).direction == old(self).direction,
            final(self).children@.len() == old(self).children@.len() + 1,
            final(self).children@.take(old(self).children@.len() as int) == old(self).children@,
            final(self).children@.last().is_leaf_of(new_val, direction),
    {
        let leaf = Node::new(new_val, direction);
        self.children.push(leaf);
        assert(final(self).children@.take(old(self).children@.len() as int) =~= old(self).children@);
    }

    /// Inserts a new leaf as the child at `index`, or as the last child when
    /// `index` is past the end.
    pub fn insert_at(&mut self, new_val: T, index: usize, direction: TilingDirection)
        ensures
            final(self).value == old(self).value,
            final(self).direction == old(self).direction,
            ({
                let at = if index <= old(self).children@.len() {
                    index as int
                } else {
                    old(self).children@.len() as int
                };
                &&& final(self).children@.len() == old(self).children@.len() + 1
                &&& final(self).children@.take(at) == old(self).children@.take(at)
                &&& final(self).children@.skip(at + 1) == old(self).children@.skip(at)
                &&& final(self).children@[at].is_leaf_of(new_val, direction)
            }),
    {
        let len = self.children.len();
        let at = if index <= len { index } else { len };
        let leaf = Node::new(new_val, direction);
        self.children.insert(at, leaf);
        assert(final(self).children@.take(at as int) =~= old(self).children@.take(at as int));
        assert(final(self).children@.skip(at + 1) =~= old(self).children@.skip(at as int));
    }

    pub fn is_leaf(&self) -> (r: bool)
        ensures
            r == self.is_leaf_spec(),
    {
        self.children.is_empty()
    }
}

} // verus!
