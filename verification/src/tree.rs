//! The executable tree type and its operations.

use vstd::prelude::*;

use crate::model::NodeView;
use crate::model::child_leaf;
use crate::model::flat_map_rel;
use crate::model::fresh;
use crate::model::map_rel;
use crate::model::relabeled;
use crate::model::root_leaf;
use crate::model::with_attached;
use crate::model::with_children;
use crate::model::with_locked;

verus! {

/// One error kind per way a child-addressing operation can fail.
#[derive(Clone, Copy, Debug, PartialEq, Eq, Structural)]
pub enum TreeError {
    /// The index does not correspond to an existing child.
    IndexOutOfRange,
    /// The node's child list is already engaged in another in-flight
    /// operation that holds exclusive access.
    ConcurrentAccess,
}

/// A tree node: one owned value and an ordered list of owned children.
///
/// A node is a root exactly when it sits in no parent's child list; the
/// `attached` flag records that, so `is_root` answers without upward
/// pointers. The `locked` flag is the re-entrancy guard over the child
/// list (see [`Node::lock_children`]).
#[derive(Debug)]
pub struct Node<T> {
    value: T,
    attached: bool,
    locked: bool,
    children: Vec<Node<T>>,
}

impl<T> Node<T> {
    /// Ghost image of this node: its value, its flags, and the images of its
    /// children in order.
    pub closed spec fn node_view(&self) -> NodeView<T>
        decreases *self,
    {
        proof {
            assert(decreases_to!(*self => self.children));
            assert(decreases_to!(self.children => self.children@));
        }
        NodeView {
            value: self.value,
            attached: self.attached,
            locked: self.locked,
            children: Node::views_of(self.children@),
        }
    }

    /// Ghost images of a sequence of nodes, element for element.
    pub closed spec fn views_of(s: Seq<Node<T>>) -> Seq<NodeView<T>>
        decreases s,
    {
        if s.len() == 0 {
            Seq::empty()
        } else {
            proof {
                assert(decreases_to!(s => s.subrange(0, s.len() - 1)));
                assert(s.drop_last() =~= s.subrange(0, s.len() - 1));
                assert(decreases_to!(s => s[s.len() - 1]));
            }
            Node::views_of(s.drop_last()).push(s.last().node_view())
        }
    }

    /// `views_of` is the element-wise image: same length, and the image of
    /// each node stands at the node's own index.
    pub broadcast proof fn lemma_views_of(s: Seq<Node<T>>)
        ensures
            (#[trigger] Node::views_of(s)).len() == s.len(),
            forall|i: int| 0 <= i < s.len() ==> Node::views_of(s)[i] == s[i].node_view(),
        decreases s,
    {
        if s.len() > 0 {
            Node::lemma_views_of(s.drop_last());
        }
    }

    /// The facts of `lemma_views_of`, quantified over every sequence. Handing
    /// out a mutable reference leaves the final state of the tree open until
    /// the caller is done with it, so proofs about that state can only come
    /// from facts that already range over every sequence.
    pub proof fn lemma_views_of_elementwise()
        ensures
            forall|s: Seq<Node<T>>| (#[trigger] Node::views_of(s)).len() == s.len(),
            forall|s: Seq<Node<T>>, i: int|
                0 <= i < s.len() ==> #[trigger] Node::views_of(s)[i] == s[i].node_view(),
    {
        assert forall|s: Seq<Node<T>>| (#[trigger] Node::views_of(s)).len() == s.len() by {
            Node::lemma_views_of(s);
        }
        assert forall|s: Seq<Node<T>>, i: int|
            0 <= i < s.len() implies #[trigger] Node::views_of(s)[i] == s[i].node_view() by {
            Node::lemma_views_of(s);
        }
    }
}

impl<T> View for Node<T> {
    type V = NodeView<T>;

    open spec fn view(&self) -> NodeView<T> {
        self.node_view()
    }
}

impl<T> Node<T> {
    /// Returns a fresh root node holding `value`, with no children.
    pub fn new(value: T) -> (r: Node<T>)
        ensures
            r@ == root_leaf(value),
    {
        let r = Node { value, attached: false, locked: false, children: Vec::new() };
        proof {
            assert(r@.children =~= Seq::<NodeView<T>>::empty());
            assert(r@ =~= root_leaf(r.value));
        }
        r
    }

    /// True exactly when this node sits in no parent's child list.
    pub fn is_root(&self) -> (r: bool)
        ensures
            r == !self@.attached,
    {
        !self.attached
    }

    /// The value this node holds.
    pub fn value(&self) -> (r: &T)
        ensures
            *r == self@.value,
    {
        &self.value
    }

    /// How many children this node has.
    pub fn child_count(&self) -> (n: usize)
        ensures
            n == self@.children.len(),
    {
        proof {
            Node::lemma_views_of(self.children@);
        }
        self.children.len()
    }

    /// True while an in-flight operation holds exclusive access to this
    /// node's child list.
    pub fn is_locked(&self) -> (r: bool)
        ensures
            r == self@.locked,
    {
        self.locked
    }

    /// Takes exclusive access to this node's child list, as an in-flight
    /// mutation does. While the guard is held, every further access to the
    /// same child list fails fast with `ConcurrentAccess`.
    pub fn lock_children(&mut self) -> (r: Result<(), TreeError>)
        ensures
            old(self)@.locked ==> r == Err::<(), TreeError>(TreeError::ConcurrentAccess)
                && *final(self) == *old(self),
            !old(self)@.locked ==> r == Ok::<(), TreeError>(())
                && final(self)@ == with_locked(old(self)@, true),
    {
        if self.locked {
            return Err(TreeError::ConcurrentAccess);
        }
        self.locked = true;
        Ok(())
    }

    /// Releases exclusive access to this node's child list. Releasing a
    /// guard that is not held does nothing.
    pub fn unlock_children(&mut self)
        ensures
            final(self)@ == with_locked(old(self)@, false),
    {
        self.locked = false;
    }

    /// Constructs a new leaf node from `value` and appends it to this node's
    /// children, after the existing ones. The new leaf is attached to this
    /// node, so it is no root. Fails with `ConcurrentAccess`, changing
    /// nothing, when the child list is locked by an in-flight operation.
    pub fn add_child(&mut self, value: T) -> (r: Result<(), TreeError>)
        ensures
            old(self)@.locked ==> r == Err::<(), TreeError>(TreeError::ConcurrentAccess)
                && *final(self) == *old(self),
            !old(self)@.locked ==> r == Ok::<(), TreeError>(())
                && final(self)@ == with_children(
                old(self)@,
                old(self)@.children.push(child_leaf(value)),
            ),
    {
        if self.locked {
            return Err(TreeError::ConcurrentAccess);
        }
        let child = Node { value, attached: true, locked: false, children: Vec::new() };
        proof {
            assert(child@.children =~= Seq::<NodeView<T>>::empty());
            assert(child@ =~= child_leaf(child.value));
        }
        self.children.push(child);
        proof {
            Node::lemma_views_of(old(self).children@);
            Node::lemma_views_of(self.children@);
            assert(self@.children =~= old(self)@.children.push(child_leaf(value)));
            assert(self@ =~= with_children(
                old(self)@,
                old(self)@.children.push(child_leaf(value)),
            ));
        }
        Ok(())
    }

    /// Hands out a shared reference to the child at `index`. Fails with
    /// `ConcurrentAccess` when the child list is locked by an in-flight
    /// operation, and with `IndexOutOfRange` when `index` does not
    /// correspond to an existing child.
    pub fn get_child(&self, index: usize) -> (r: Result<&Node<T>, TreeError>)
        ensures
            self@.locked ==> r == Err::<&Node<T>, TreeError>(TreeError::ConcurrentAccess),
            !self@.locked && index >= self@.children.len() ==> r == Err::<&Node<T>, TreeError>(
                TreeError::IndexOutOfRange,
            ),
            !self@.locked && index < self@.children.len() ==> (r matches Ok(c) && c@
                == self@.children[index as int]),
    {
        proof {
            Node::lemma_views_of(self.children@);
        }
        if self.locked {
            return Err(TreeError::ConcurrentAccess);
        }
        if index >= self.children.len() {
            return Err(TreeError::IndexOutOfRange);
        }
        Ok(&self.children[index])
    }

    /// Hands out exclusive access to the child at `index`, for mutation in
    /// place. The caller checks the bounds and the guard first, with
    /// `child_count` and `is_locked`; `get_child` is the checked,
    /// shared-access counterpart.
    pub fn child_mut(&mut self, index: usize) -> (c: &mut Node<T>)
        requires
            !old(self)@.locked,
            index < old(self)@.children.len(),
        ensures
            (*c)@ == old(self)@.children[index as int],
            final(self)@.value == old(self)@.value,
            final(self)@.attached == old(self)@.attached,
            final(self)@.locked == old(self)@.locked,
            final(self)@.children =~= old(self)@.children.update(index as int, final(c)@),
    {
        proof {
            Node::<T>::lemma_views_of_elementwise();
            Node::lemma_views_of(self.children@);
        }
        self.child_mut_inner(index)
    }

    /// The raw, field-level form of `child_mut`. The last clause restates
    /// the definition of the view at the final state, so that the caller's
    /// view-level reasoning has it at hand.
    fn child_mut_inner(&mut self, index: usize) -> (c: &mut Node<T>)
        requires
            index < old(self).children@.len(),
        ensures
            *c == old(self).children@[index as int],
            final(self).children@ == old(self).children@.update(index as int, *final(c)),
            final(self).value == old(self).value,
            final(self).attached == old(self).attached,
            final(self).locked == old(self).locked,
            final(self)@.children == Node::views_of(final(self).children@),
    {
        &mut self.children[index]
    }

    /// Replaces the child at `index` with a fresh node holding `value` that
    /// keeps the previous child's children: the label changes, the
    /// descendant subtrees stay. The previous child's own value is
    /// discarded. Fails with `ConcurrentAccess` when the child list is
    /// locked and with `IndexOutOfRange` when `index` does not correspond
    /// to an existing child; on failure nothing changes.
    pub fn set_child_value(&mut self, index: usize, value: T) -> (r: Result<(), TreeError>)
        ensures
            old(self)@.locked ==> r == Err::<(), TreeError>(TreeError::ConcurrentAccess)
                && *final(self) == *old(self),
            !old(self)@.locked && index >= old(self)@.children.len() ==> r == Err::<(), TreeError>(
                TreeError::IndexOutOfRange,
            ) && *final(self) == *old(self),
            !old(self)@.locked && index < old(self)@.children.len() ==> r == Ok::<(), TreeError>(())
                && final(self)@ == with_children(
                old(self)@,
                old(self)@.children.update(
                    index as int,
                    relabeled(old(self)@.children[index as int], value),
                ),
            ),
    {
        proof {
            Node::lemma_views_of(self.children@);
        }
        if self.locked {
            return Err(TreeError::ConcurrentAccess);
        }
        if index >= self.children.len() {
            return Err(TreeError::IndexOutOfRange);
        }
        let prev = self.children.remove(index);
        let Node { children: grandchildren, .. } = prev;
        let fresh_child = Node { value, attached: true, locked: false, children: grandchildren };
        proof {
            assert(fresh_child@ =~= relabeled(old(self)@.children[index as int], value));
        }
        self.children.insert(index, fresh_child);
        proof {
            Node::lemma_views_of(self.children@);
            assert(self.children@ =~= old(self).children@.update(index as int, fresh_child));
            assert(Node::views_of(self.children@) =~= old(self)@.children.update(
                index as int,
                relabeled(old(self)@.children[index as int], value),
            ));
            assert(self@ =~= with_children(
                old(self)@,
                old(self)@.children.update(
                    index as int,
                    relabeled(old(self)@.children[index as int], value),
                ),
            ));
        }
        Ok(())
    }

    /// Replaces the child at `index` with `subtree`, re-parented under this
    /// node. The subtree is taken over whole: the destination owns the one
    /// copy, so no later mutation can alias across trees. The previously
    /// owned child and its descendants are discarded. Fails with
    /// `ConcurrentAccess` when the child list is locked and with
    /// `IndexOutOfRange` when `index` does not correspond to an existing
    /// child; on failure nothing changes and the subtree is handed back
    /// beside the error.
    pub fn insert_subtree_at(&mut self, index: usize, subtree: Node<T>) -> (r: Result<
        (),
        (TreeError, Node<T>),
    >)
        ensures
            old(self)@.locked ==> r == Err::<(), (TreeError, Node<T>)>(
                (TreeError::ConcurrentAccess, subtree),
            ) && *final(self) == *old(self),
            !old(self)@.locked && index >= old(self)@.children.len() ==> r == Err::<
                (),
                (TreeError, Node<T>),
            >((TreeError::IndexOutOfRange, subtree)) && *final(self) == *old(self),
            !old(self)@.locked && index < old(self)@.children.len() ==> r == Ok::<
                (),
                (TreeError, Node<T>),
            >(()) && final(self)@ == with_children(
                old(self)@,
                old(self)@.children.update(index as int, with_attached(subtree@, true)),
            ),
    {
        proof {
            Node::lemma_views_of(self.children@);
        }
        if self.locked {
            return Err((TreeError::ConcurrentAccess, subtree));
        }
        if index >= self.children.len() {
            return Err((TreeError::IndexOutOfRange, subtree));
        }
        let mut incoming = subtree;
        incoming.attached = true;
        proof {
            assert(incoming@ =~= with_attached(subtree@, true));
        }
        let _discarded = self.children.remove(index);
        self.children.insert(index, incoming);
        proof {
            Node::lemma_views_of(self.children@);
            assert(self.children@ =~= old(self).children@.update(index as int, incoming));
            assert(Node::views_of(self.children@) =~= old(self)@.children.update(
                index as int,
                with_attached(subtree@, true),
            ));
            assert(self@ =~= with_children(
                old(self)@,
                old(self)@.children.update(index as int, with_attached(subtree@, true)),
            ));
        }
        Ok(())
    }

    /// Builds the image of this subtree under `f`, marked as attached: the
    /// worker behind `map`, used for the children of the new tree, whose
    /// nodes all sit in a parent's child list.
    pub fn map_internal<T1, F: Fn(&T) -> T1>(&self, f: &F) -> (r: Node<T1>)
        requires
            forall|v: &T| call_requires(*f, (v,)),
        ensures
            map_rel(*f, self@, r@),
            r@.attached,
            fresh(r@),
        decreases *self,
    {
        let mut mapped_children: Vec<Node<T1>> = Vec::new();
        let n = self.children.len();
        let mut i: usize = 0;
        while i < n
            invariant
                forall|v: &T| call_requires(*f, (v,)),
                n == self.children@.len(),
                i <= n,
                mapped_children@.len() == i,
                forall|j: int|
                    0 <= j < i ==> map_rel(*f, self@.children[j], (#[trigger] mapped_children@[j])@),
                forall|j: int|
                    0 <= j < i ==> (#[trigger] mapped_children@[j])@.attached && fresh(
                        mapped_children@[j]@,
                    ),
            decreases n - i,
        {
            proof {
                Node::lemma_views_of(self.children@);
                assert(decreases_to!(*self => self.children));
                assert(decreases_to!(self.children => self.children@));
            }
            let child_image = self.children[i].map_internal(f);
            mapped_children.push(child_image);
            i += 1;
        }
        let value_image = f(&self.value);
        let r = Node { value: value_image, attached: true, locked: false, children: mapped_children };
        proof {
            Node::lemma_views_of(r.children@);
            Node::lemma_views_of(self.children@);
            assert(map_rel(*f, self@, r@));
            assert(fresh(r@));
        }
        r
    }

    /// Builds a new, fully independent tree: a root whose value is `f`
    /// applied to this node's value, and whose children are the images of
    /// this node's children under `f`, in order. The new tree shares no
    /// owned storage with this one — it is returned by value — and this
    /// tree is left untouched.
    pub fn map<T1, F: Fn(&T) -> T1>(&self, f: &F) -> (r: Node<T1>)
        requires
            forall|v: &T| call_requires(*f, (v,)),
        ensures
            map_rel(*f, self@, r@),
            !r@.attached,
            fresh(r@),
    {
        let mut r = self.map_internal(f);
        let ghost pre = r@;
        r.attached = false;
        proof {
            assert(r@.value == pre.value && r@.children == pre.children && r@.locked == pre.locked);
            assert(map_rel(*f, self@, r@));
            assert(fresh(r@));
        }
        r
    }

    /// The worker behind `flat_map`: builds the image of this subtree,
    /// marked as attached.
    fn flat_map_internal<T1, F: Fn(&T) -> Node<T1>>(&self, f: &F) -> (r: Node<T1>)
        requires
            forall|v: &T| call_requires(*f, (v,)),
            forall|v: &T, g: Node<T1>| #[trigger] call_ensures(*f, (v,), g) ==> fresh(g@),
        ensures
            flat_map_rel(*f, self@, r@),
            r@.attached,
            fresh(r@),
        decreases *self,
    {
        let grafted = f(&self.value);
        let ghost graft_snapshot = grafted;
        let mut r = grafted;
        r.attached = true;
        proof {
            assert(r@.value == graft_snapshot@.value && r@.children == graft_snapshot@.children
                && r@.locked == graft_snapshot@.locked);
        }
        let n = self.children.len();
        let ghost base = graft_snapshot@.children.len();
        let mut i: usize = 0;
        proof {
            Node::lemma_views_of(self.children@);
        }
        while i < n
            invariant
                forall|v: &T| call_requires(*f, (v,)),
                forall|v: &T, g: Node<T1>| #[trigger] call_ensures(*f, (v,), g) ==> fresh(g@),
                n == self.children@.len(),
                i <= n,
                call_ensures(*f, (&self@.value,), graft_snapshot),
                base == graft_snapshot@.children.len(),
                r@.value == graft_snapshot@.value,
                r@.attached,
                !r@.locked,
                r@.children.len() == base + i,
                forall|k: int| 0 <= k < base ==> r@.children[k] == graft_snapshot@.children[k],
                forall|j: int|
                    0 <= j < i ==> flat_map_rel(
                        *f,
                        self@.children[j],
                        #[trigger] r@.children[base + j],
                    ),
                forall|k: int|
                    0 <= k < r@.children.len() ==> (#[trigger] r@.children[k]).attached && fresh(
                        r@.children[k],
                    ),
            decreases n - i,
        {
            proof {
                Node::lemma_views_of(self.children@);
                assert(decreases_to!(*self => self.children));
                assert(decreases_to!(self.children => self.children@));
            }
            let ghost r_pre = r@;
            let ghost pre_vec = r.children@;
            let child_image = self.children[i].flat_map_internal(f);
            r.children.push(child_image);
            proof {
                Node::lemma_views_of(pre_vec);
                Node::lemma_views_of(r.children@);
                assert(r.children@ == pre_vec.push(child_image));
                assert(r@.children =~= r_pre.children.push(child_image@));
            }
            i += 1;
        }
        proof {
            assert(flat_map_rel(*f, self@, r@));
            assert(fresh(r@));
        }
        r
    }

    /// Builds a new tree in which every node of this tree has been replaced
    /// by the whole tree `f` makes from its value: the replacement tree's
    /// own children come first, then the recursively rebuilt images of the
    /// node's former children. One level of tree-of-trees is flattened, as
    /// flat-map on lists flattens one level of list-of-lists. This tree is
    /// left untouched; the result shares no owned storage with it. `f` must
    /// only return freshly built trees, as every tree this library's
    /// constructors and transforms produce is.
    pub fn flat_map<T1, F: Fn(&T) -> Node<T1>>(&self, f: &F) -> (r: Node<T1>)
        requires
            forall|v: &T| call_requires(*f, (v,)),
            forall|v: &T, g: Node<T1>| #[trigger] call_ensures(*f, (v,), g) ==> fresh(g@),
        ensures
            flat_map_rel(*f, self@, r@),
            !r@.attached,
            fresh(r@),
    {
        let mut r = self.flat_map_internal(f);
        let ghost pre = r@;
        r.attached = false;
        proof {
            assert(r@.value == pre.value && r@.children == pre.children && r@.locked == pre.locked);
            assert(flat_map_rel(*f, self@, r@));
            assert(fresh(r@));
        }
        r
    }
}

} // verus!
