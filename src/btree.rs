use vstd::prelude::*;

verus! {

/// A node of a binary tree that fills its left slot first and sends every
/// later value down its right side.
pub struct Node<T> {
    pub value: T,
    pub left: Option<Box<Node<T>>>,
    pub right: Option<Box<Node<T>>>,
}

/// The values of a subtree in preorder.
pub open spec fn values_of<T>(n: Option<Box<Node<T>>>) -> Seq<T>
    decreases n,
{
    match n {
        Some(b) => seq![b.value] + values_of(b.left) + values_of(b.right),
        None => Seq::empty(),
    }
}

/// Every node below has its left slot filled whenever its right one is.
pub open spec fn left_first_of<T>(n: Option<Box<Node<T>>>) -> bool
    decreases n,
{
    match n {
        Some(b) => (b.left is None ==> b.right is None) && left_first_of(b.left) && left_first_of(
            b.right,
        ),
        None => true,
    }
}

impl<T> Node<T> {
    /// The values of the tree in preorder.
    pub open spec fn values(self) -> Seq<T> {
        seq![self.value] + values_of(self.left) + values_of(self.right)
    }

    /// Every node has its left slot filled whenever its right one is.
    pub open spec fn left_first(self) -> bool {
        (self.left is None ==> self.right is None) && left_first_of(self.left) && left_first_of(
            self.right,
        )
    }

    pub open spec fn leaf(value: T) -> Node<T> {
        Node { value, left: None, right: None }
    }

    /// `self` is `before` with `v` put in the empty left slot, or else
    /// inserted the same way into the right subtree, or else in the empty
    /// right slot.
    pub open spec fn inserted_from(self, before: Node<T>, v: T) -> bool
        decreases before,
    {
        &&& self.value == before.value
        &&& if before.left is None {
            self.left == Some(Box::new(Node::leaf(v))) && self.right == before.right
        } else {
            &&& self.left == before.left
            &&& match before.right {
                None => self.right == Some(Box::new(Node::leaf(v))),
                Some(r) => self.right matches Some(fr) && (*fr).inserted_from(*r, v),
            }
        }
    }

    pub fn new(value: T) -> (n: Node<T>)
        ensures
            n == Node::leaf(value),
    {
        Node { value, left: None, right: None }
    }

    /// Puts `new_val` in a new leaf: in the empty left slot, else into the
    /// right subtree, else in the empty right slot. A tree that fills left
    /// before right stays so and gains `new_val` at the end of its preorder.
    pub fn insert(&mut self, new_val: T)
        ensures
            final(self).inserted_from(*old(self), new_val),
            old(self).left_first() ==> final(self).left_first() && final(self).values() == old(
                self,
            ).values().push(new_val),
        decreases *old(self),
    {
        if self.left.is_none() {
            self.left = Some(Box::new(Node::new(new_val)));
            proof {
                if old(self).left_first() {
                    assert(final(self).values() =~= old(self).values().push(new_val));
                }
            }
        } else {
            match &mut self.right {
                Some(subnode) => {
                    subnode.insert(new_val);
                },
                None => {
                    self.right = Some(Box::new(Node::new(new_val)));
                },
            }
            proof {
                if old(self).left_first() {
                    assert(final(self).values() =~= old(self).values().push(new_val));
                }
            }
        }
    }
}

} // verus!
