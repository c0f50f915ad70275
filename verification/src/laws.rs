//! The laws of the tree operations, stated over the model.
//!
//! Each proof function here states one property of the library as a whole,
//! over the same spec functions that the operations' own contracts use, so
//! that a reader sees the property written down rather than left implicit.

use vstd::prelude::*;

use crate::model::NodeView;
use crate::model::child_leaf;
use crate::model::fresh;
use crate::model::map_rel;
use crate::model::relabeled;
use crate::model::root_leaf;
use crate::model::same_shape;
use crate::model::wf;
use crate::model::with_attached;
use crate::model::with_children;
use crate::model::with_locked;

verus! {

/// Every freshly built tree — what the constructors and the transforms
/// hand back — is well-formed: each node in a child list is marked
/// attached, all the way down.
pub proof fn law_fresh_trees_are_wf<T>(v: NodeView<T>)
    requires
        fresh(v),
    ensures
        wf(v),
    decreases v,
{
    assert forall|i: int| 0 <= i < v.children.len() implies (#[trigger] v.children[i]).attached
        && wf(v.children[i]) by {
        law_fresh_trees_are_wf(v.children[i]);
    }
}

/// Every mutation of the library preserves well-formedness: appending a
/// leaf, relabeling a child, replacing a child by a well-formed subtree,
/// and taking or releasing the child-list guard all leave a well-formed
/// node well-formed.
pub proof fn law_mutations_preserve_wf<T>(n: NodeView<T>, index: int, value: T, subtree: NodeView<T>)
    requires
        wf(n),
        0 <= index < n.children.len(),
        wf(subtree),
    ensures
        wf(with_children(n, n.children.push(child_leaf(value)))),
        wf(with_children(n, n.children.update(index, relabeled(n.children[index], value)))),
        wf(with_children(n, n.children.update(index, with_attached(subtree, true)))),
        wf(with_locked(n, true)),
        wf(with_locked(n, false)),
{
    let appended = n.children.push(child_leaf(value));
    assert forall|i: int| 0 <= i < appended.len() implies (#[trigger] appended[i]).attached && wf(
        appended[i],
    ) by {
        if i == n.children.len() {
            assert(appended[i] == child_leaf(value));
        } else {
            assert(appended[i] == n.children[i]);
        }
    }
    let relabel = n.children.update(index, relabeled(n.children[index], value));
    assert forall|i: int| 0 <= i < relabel.len() implies (#[trigger] relabel[i]).attached && wf(
        relabel[i],
    ) by {
        if i != index {
            assert(relabel[i] == n.children[i]);
        } else {
            let prev = n.children[index];
            assert(wf(prev));
            assert(relabel[i] == relabeled(prev, value));
            assert forall|j: int|
                0 <= j < relabel[i].children.len() implies (#[trigger] relabel[i].children[j]).attached
                && wf(relabel[i].children[j]) by {
                assert(relabel[i].children[j] == prev.children[j]);
            }
            assert(wf(relabel[i]));
        }
    }
    let grafted = n.children.update(index, with_attached(subtree, true));
    assert forall|i: int| 0 <= i < grafted.len() implies (#[trigger] grafted[i]).attached && wf(
        grafted[i],
    ) by {
        if i != index {
            assert(grafted[i] == n.children[i]);
        } else {
            assert(grafted[i] == with_attached(subtree, true));
            assert forall|j: int|
                0 <= j < grafted[i].children.len() implies (#[trigger] grafted[i].children[j]).attached
                && wf(grafted[i].children[j]) by {
                assert(grafted[i].children[j] == subtree.children[j]);
            }
            assert(wf(grafted[i]));
        }
    }
}

/// The image `map` builds has exactly the shape of its source: the image is
/// a whole tree of its own, so once the source is discarded or changed, the
/// image's shape still matches what the source's shape was.
pub proof fn law_map_preserves_shape<T, T1, F: Fn(&T) -> T1>(
    f: F,
    a: NodeView<T>,
    b: NodeView<T1>,
)
    requires
        map_rel(f, a, b),
    ensures
        same_shape(a, b),
    decreases a,
{
    assert forall|i: int| 0 <= i < a.children.len() implies same_shape(
        a.children[i],
        #[trigger] b.children[i],
    ) by {
        law_map_preserves_shape(f, a.children[i], b.children[i]);
    }
}

/// A node is a root exactly as long as it hangs in no parent's child list:
/// `new` makes an unattached node, and the leaf `add_child` appends to a
/// parent is attached. Together with `is_root`'s contract — it returns the
/// negation of the attachment flag — a fresh node answers `is_root` with
/// true, and the same value appended as a child answers it with false.
pub proof fn law_root_until_attached<T>(value: T, parent: NodeView<T>)
    ensures
        !root_leaf(value).attached,
        with_children(parent, parent.children.push(child_leaf(value))).children.last().attached,
{
}

/// `set_child_value` replaces only the replaced child's own value: the
/// grandchildren that stood under the old child stand under the new one,
/// unchanged and in order, the new child carries the new value, and every
/// other child of the parent is untouched.
pub proof fn law_set_child_value_keeps_descendants<T>(n: NodeView<T>, index: int, value: T)
    requires
        0 <= index < n.children.len(),
    ensures
        with_children(n, n.children.update(index, relabeled(n.children[index], value))).children[index].children
            == n.children[index].children,
        with_children(n, n.children.update(index, relabeled(n.children[index], value))).children[index].value
            == value,
        with_children(
            n,
            n.children.update(index, relabeled(n.children[index], value)),
        ).children.len() == n.children.len(),
        forall|j: int|
            0 <= j < n.children.len() && j != index ==> with_children(
                n,
                n.children.update(index, relabeled(n.children[index], value)),
            ).children[j] == n.children[j],
{
}

/// The child that `insert_subtree_at` installs matches the inserted subtree:
/// same value, same children (so in particular the same child count), and it
/// stands attached under the destination node, which keeps its other
/// children and its own value.
pub proof fn law_insert_subtree_matches<T>(n: NodeView<T>, index: int, subtree: NodeView<T>)
    requires
        0 <= index < n.children.len(),
    ensures
        with_children(n, n.children.update(index, with_attached(subtree, true))).children[index].value
            == subtree.value,
        with_children(n, n.children.update(index, with_attached(subtree, true))).children[index].children
            == subtree.children,
        with_children(n, n.children.update(index, with_attached(subtree, true))).children[index].attached,
        with_children(n, n.children.update(index, with_attached(subtree, true))).children.len()
            == n.children.len(),
        with_children(n, n.children.update(index, with_attached(subtree, true))).value == n.value,
        forall|j: int|
            0 <= j < n.children.len() && j != index ==> with_children(
                n,
                n.children.update(index, with_attached(subtree, true)),
            ).children[j] == n.children[j],
{
}

} // verus!
