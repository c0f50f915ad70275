//! The mathematical model of a tree.
//!
//! A [`NodeView`] is the ghost image of one tree node: its value, its two
//! bookkeeping flags, and the views of its children in order. All contracts
//! of the executable type are stated over this model.

use vstd::prelude::*;

use crate::tree::Node;

verus! {

/// Ghost image of a tree node.
///
/// `attached` is true when the node sits in some parent's child list, so a
/// node is a root exactly when `attached` is false. `locked` is true while an
/// in-flight operation holds exclusive access to the node's child list.
#[verifier::ext_equal]
pub ghost struct NodeView<T> {
    pub value: T,
    pub attached: bool,
    pub locked: bool,
    pub children: Seq<NodeView<T>>,
}

/// A leaf holding `value`, with both flags as given at creation:
/// not attached anywhere and not locked.
pub open spec fn root_leaf<T>(value: T) -> NodeView<T> {
    NodeView { value, attached: false, locked: false, children: Seq::empty() }
}

/// A leaf holding `value`, as `add_child` appends it: attached and unlocked.
pub open spec fn child_leaf<T>(value: T) -> NodeView<T> {
    NodeView { value, attached: true, locked: false, children: Seq::empty() }
}

/// `v` with its lock flag replaced.
pub open spec fn with_locked<T>(v: NodeView<T>, locked: bool) -> NodeView<T> {
    NodeView { locked, ..v }
}

/// `v` with its child list replaced.
pub open spec fn with_children<T>(v: NodeView<T>, children: Seq<NodeView<T>>) -> NodeView<T> {
    NodeView { children, ..v }
}

/// `v` with its attachment flag replaced.
pub open spec fn with_attached<T>(v: NodeView<T>, attached: bool) -> NodeView<T> {
    NodeView { attached, ..v }
}

/// The child that `set_child_value` installs in place of `prev`: a fresh,
/// attached, unlocked node holding `value` that inherits `prev`'s children.
pub open spec fn relabeled<T>(prev: NodeView<T>, value: T) -> NodeView<T> {
    NodeView { value, attached: true, locked: false, children: prev.children }
}

/// Well-formed attachment flags: every node in a child list is marked
/// attached, recursively. This is the structural invariant that every
/// operation of the library preserves.
pub open spec fn wf<T>(v: NodeView<T>) -> bool
    decreases v,
{
    forall|i: int|
        0 <= i < v.children.len() ==> (#[trigger] v.children[i]).attached && wf(v.children[i])
}

/// Well-formed below and with no lock held anywhere in the subtree, the
/// state of every freshly built tree.
pub open spec fn fresh<T>(v: NodeView<T>) -> bool
    decreases v,
{
    !v.locked && forall|i: int|
        0 <= i < v.children.len() ==> (#[trigger] v.children[i]).attached && fresh(v.children[i])
}

/// How `map` relates a source tree to its image: the image's value is an
/// output of `f` on the source's value, and the children correspond
/// recursively, one to one and in order. The flags are not related here;
/// `map` states them separately, since the image is a freshly built tree.
pub open spec fn map_rel<T, T1, F: Fn(&T) -> T1>(f: F, a: NodeView<T>, b: NodeView<T1>) -> bool
    decreases a,
{
    &&& call_ensures(f, (&a.value,), b.value)
    &&& b.children.len() == a.children.len()
    &&& forall|i: int|
        0 <= i < a.children.len() ==> map_rel(f, a.children[i], #[trigger] b.children[i])
}

/// Two trees have the same shape: the same number of children at every
/// position, recursively. The values may differ, and may be of different
/// types.
pub open spec fn same_shape<T, T1>(a: NodeView<T>, b: NodeView<T1>) -> bool
    decreases a,
{
    &&& a.children.len() == b.children.len()
    &&& forall|i: int|
        0 <= i < a.children.len() ==> same_shape(a.children[i], #[trigger] b.children[i])
}

/// How `flat_map` relates a source tree to its image. `f` turns the
/// source's value into a whole replacement tree; the image takes over that
/// tree's value and children, and behind those, in order, come the images
/// of the source's children — one level of tree-of-trees is flattened, as
/// flat-map on lists flattens one level of list-of-lists.
pub open spec fn flat_map_rel<T, T1, F: Fn(&T) -> Node<T1>>(
    f: F,
    a: NodeView<T>,
    b: NodeView<T1>,
) -> bool
    decreases a,
{
    exists|g: Node<T1>|
        {
            &&& #[trigger] call_ensures(f, (&a.value,), g)
            &&& b.value == g@.value
            &&& b.children.len() == g@.children.len() + a.children.len()
            &&& forall|i: int| 0 <= i < g@.children.len() ==> b.children[i] == g@.children[i]
            &&& forall|i: int|
                0 <= i < a.children.len() ==> flat_map_rel(
                    f,
                    a.children[i],
                    #[trigger] b.children[g@.children.len() + i],
                )
        }
}

} // verus!
