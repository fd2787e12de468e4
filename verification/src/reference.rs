//! Capability-tiered references into the tree.
//!
//! Three tiers of handle govern what a holder may do:
//! - [`Ref`]: read-only access to a node and its descendants; any number may
//!   coexist, each borrowing the tree shared.
//! - [`RefMut`]: value-mutable access; may rewrite the node's own value and
//!   its children's values, but not the tree's shape.
//! - [`RefUniq`]: structurally unique access; everything [`RefMut`] grants,
//!   plus adding and removing children.
//!
//! The mutable tiers own the tree outright, so exclusive access holds by
//! construction: descending consumes the handle and produces a new one
//! (`into_child`, `into_parent`), and no second live handle into an
//! overlapping subtree can be formed.

use vstd::prelude::*;

use crate::model::TreeView;
use crate::model::num_slots;
use crate::model::is_occupied;
use crate::model::value_at;
use crate::model::parent_at;
use crate::model::kids_at;
use crate::model::free_next_at;
use crate::model::inv;
use crate::model::subtree_set;
use crate::model::is_free;
use crate::model::ElemView;
use crate::model::child_values;
use crate::shape::SubTree;
use crate::shape::shape_at;
use crate::shape::preorder_all;
use crate::tree::Tree;

verus! {

/// A read-only reference to one node of a tree.
pub struct Ref<'a, T> {
    tree: &'a Tree<T>,
    index: u32,
}

impl<'a, T> Ref<'a, T> {
    /// The state of the whole arena this reference points into.
    pub closed spec fn tree_view(&self) -> TreeView<T> {
        self.tree@
    }

    /// The slot index this reference denotes.
    pub closed spec fn idx(&self) -> u32 {
        self.index
    }

    /// The reference denotes an occupied slot of a well-formed tree.
    pub closed spec fn wf(&self) -> bool {
        &&& self.tree.wf()
        &&& is_occupied(self.tree@, self.index as int)
    }

    /// A well-formed reference sees a structurally well-formed arena.
    pub proof fn lemma_wf_inv(&self)
        requires
            self.wf(),
        ensures
            inv(self.tree_view()),
            is_occupied(self.tree_view(), self.idx() as int),
    {
        self.tree.lemma_wf_inv();
    }

    pub(crate) fn create(tree: &'a Tree<T>, index: u32) -> (r: Ref<'a, T>)
        requires
            tree.wf(),
            is_occupied(tree@, index as int),
        ensures
            r.wf(),
            r.tree_view() == tree@,
            r.idx() == index,
    {
        Ref { tree, index }
    }

    /// The slot index of the referenced node.
    pub fn index(&self) -> (r: u32)
        ensures
            r == self.idx(),
    {
        self.index
    }

    /// Read access to the referenced node's value.
    pub fn value(&self) -> (r: &T)
        requires
            self.wf(),
        ensures
            *r == value_at(self.tree_view(), self.idx() as int),
    {
        self.tree.value_ref(self.index)
    }

    /// How many children the referenced node has.
    pub fn children_count(&self) -> (n: u32)
        requires
            self.wf(),
        ensures
            n == kids_at(self.tree_view(), self.idx() as int).len(),
    {
        proof {
            self.tree.lemma_wf_inv();
        }
        self.tree.child_count_at(self.index) as u32
    }

    /// A read-only reference to the child at the given position. Meant for
    /// pre-validated callers: the position must be in range.
    pub fn get_child(&self, pos: u32) -> (r: Ref<'a, T>)
        requires
            self.wf(),
            pos < kids_at(self.tree_view(), self.idx() as int).len(),
        ensures
            r.wf(),
            r.tree_view() == self.tree_view(),
            r.idx() == kids_at(self.tree_view(), self.idx() as int)[pos as int],
    {
        proof {
            self.tree.lemma_wf_inv();
        }
        let c = self.tree.child_at(self.index, pos as usize);
        Ref::create(self.tree, c)
    }

    /// Read-only references to all children, in list order: the snapshot a
    /// caller iterates over.
    pub fn children(&self) -> (r: Vec<Ref<'a, T>>)
        requires
            self.wf(),
        ensures
            r.len() == kids_at(self.tree_view(), self.idx() as int).len(),
            forall|k: int|
                0 <= k < r.len() ==> {
                    &&& (#[trigger] r[k]).wf()
                    &&& r[k].tree_view() == self.tree_view()
                    &&& r[k].idx() == kids_at(self.tree_view(), self.idx() as int)[k]
                },
    {
        proof {
            self.tree.lemma_wf_inv();
        }
        let n = self.tree.child_count_at(self.index);
        let mut r: Vec<Ref<'a, T>> = Vec::new();
        let mut k: usize = 0;
        while k < n
            invariant
                self.wf(),
                n == kids_at(self.tree_view(), self.idx() as int).len(),
                n < 0x1_0000_0000,
                k <= n,
                r.len() == k,
                forall|m: int|
                    0 <= m < k ==> {
                        &&& (#[trigger] r[m]).wf()
                        &&& r[m].tree_view() == self.tree_view()
                        &&& r[m].idx() == kids_at(self.tree_view(), self.idx() as int)[m]
                    },
            decreases n - k,
        {
            let child = self.get_child(k as u32);
            let ghost r0 = r@;
            r.push(child);
            proof {
                assert(forall|m: int| 0 <= m < k ==> r@[m] == r0[m]);
                assert(r@[k as int] == child);
            }
            k = k + 1;
        }
        r
    }

    /// Another read-only reference to the same node.
    pub fn get_ref(&self) -> (r: Ref<'a, T>)
        ensures
            r.tree_view() == self.tree_view(),
            r.idx() == self.idx(),
            self.wf() ==> r.wf(),
    {
        Ref { tree: self.tree, index: self.index }
    }
}

impl<'a, T: Copy> Ref<'a, T> {
    /// Reads the whole subtree under the referenced node back as a shape, by
    /// depth-first child iteration.
    pub fn read_shape(&self) -> (s: SubTree<T>)
        requires
            self.wf(),
        ensures
            shape_at(self.tree_view(), self.idx() as int, s),
    {
        self.tree.read_shape_at(self.index)
    }

    /// The values of the referenced node's children, in order.
    pub fn child_values(&self) -> (r: Vec<T>)
        requires
            self.wf(),
        ensures
            r@ == child_values(self.tree_view(), self.idx() as int),
    {
        proof {
            self.tree.lemma_wf_inv();
        }
        let n = self.tree.child_count_at(self.index);
        let mut r: Vec<T> = Vec::new();
        let mut k: usize = 0;
        while k < n
            invariant
                self.wf(),
                is_occupied(self.tree_view(), self.idx() as int),
                inv(self.tree_view()),
                n == kids_at(self.tree_view(), self.idx() as int).len(),
                n < 0x1_0000_0000,
                k <= n,
                r@.len() == k,
                forall|m: int|
                    0 <= m < k ==> #[trigger] r@[m] == value_at(
                        self.tree_view(),
                        kids_at(self.tree_view(), self.idx() as int)[m] as int,
                    ),
            decreases n - k,
        {
            let c = self.tree.child_at(self.index, k);
            proof {
                assert(kids_at(self.tree_view(), self.idx() as int)[k as int] == c);
                assert(is_occupied(self.tree_view(), c as int));
            }
            let val = *self.tree.value_ref(c);
            let ghost r0 = r@;
            r.push(val);
            proof {
                assert(forall|m: int| 0 <= m < k ==> r@[m] == r0[m]);
            }
            k = k + 1;
        }
        proof {
            assert(r@ =~= child_values(self.tree_view(), self.idx() as int));
        }
        r
    }

}

/// A value-mutable reference: exclusive access to the tree, able to rewrite
/// node values but not to change the tree's shape.
pub struct RefMut<T> {
    pub(crate) tree: Tree<T>,
    pub(crate) index: u32,
}

impl<T> RefMut<T> {
    /// The state of the whole arena this reference owns.
    pub closed spec fn tree_view(&self) -> TreeView<T> {
        self.tree@
    }

    /// The slot index this reference denotes.
    pub closed spec fn idx(&self) -> u32 {
        self.index
    }

    /// The reference denotes an occupied slot of a well-formed tree.
    pub closed spec fn wf(&self) -> bool {
        &&& self.tree.wf()
        &&& is_occupied(self.tree@, self.index as int)
    }

    /// A well-formed reference sees a structurally well-formed arena.
    pub proof fn lemma_wf_inv(&self)
        requires
            self.wf(),
        ensures
            inv(self.tree_view()),
            is_occupied(self.tree_view(), self.idx() as int),
    {
        self.tree.lemma_wf_inv();
    }

    pub(crate) fn create(tree: Tree<T>, index: u32) -> (r: RefMut<T>)
        requires
            tree.wf(),
            is_occupied(tree@, index as int),
        ensures
            r.wf(),
            r.tree_view() == tree@,
            r.idx() == index,
    {
        RefMut { tree, index }
    }

    /// The slot index of the referenced node.
    pub fn index(&self) -> (r: u32)
        ensures
            r == self.idx(),
    {
        self.index
    }

    /// Read access to the referenced node's value.
    pub fn value(&self) -> (r: &T)
        requires
            self.wf(),
        ensures
            *r == value_at(self.tree_view(), self.idx() as int),
    {
        self.tree.value_ref(self.index)
    }

    /// Replaces the referenced node's value, returning the previous one.
    /// The tree's shape is untouched.
    pub fn set_value(&mut self, value: T) -> (r: T)
        requires
            old(self).wf(),
        ensures
            final(self).wf(),
            final(self).idx() == old(self).idx(),
            r == value_at(old(self).tree_view(), old(self).idx() as int),
            final(self).tree_view().slots == old(self).tree_view().slots.update(
                old(self).idx() as int,
                ElemView::Occupied {
                    value,
                    parent: parent_at(old(self).tree_view(), old(self).idx() as int),
                    childs: kids_at(old(self).tree_view(), old(self).idx() as int),
                },
            ),
            final(self).tree_view().free_head == old(self).tree_view().free_head,
    {
        self.tree.set_value_at(self.index, value)
    }

    /// How many children the referenced node has.
    pub fn children_count(&self) -> (n: u32)
        requires
            self.wf(),
        ensures
            n == kids_at(self.tree_view(), self.idx() as int).len(),
    {
        proof {
            self.tree.lemma_wf_inv();
        }
        self.tree.child_count_at(self.index) as u32
    }

    /// A read-only reference to the child at the given position. Meant for
    /// pre-validated callers: the position must be in range.
    pub fn get_child(&self, pos: u32) -> (r: Ref<'_, T>)
        requires
            self.wf(),
            pos < kids_at(self.tree_view(), self.idx() as int).len(),
        ensures
            r.wf(),
            r.tree_view() == self.tree_view(),
            r.idx() == kids_at(self.tree_view(), self.idx() as int)[pos as int],
    {
        proof {
            self.tree.lemma_wf_inv();
        }
        let c = self.tree.child_at(self.index, pos as usize);
        Ref::create(&self.tree, c)
    }

    /// Replaces the value of the child at the given position, returning the
    /// previous one: the value-mutable tier may rewrite individual children.
    pub fn set_child_value(&mut self, pos: u32, value: T) -> (r: T)
        requires
            old(self).wf(),
            pos < kids_at(old(self).tree_view(), old(self).idx() as int).len(),
        ensures
            final(self).wf(),
            final(self).idx() == old(self).idx(),
            r == value_at(
                old(self).tree_view(),
                kids_at(old(self).tree_view(), old(self).idx() as int)[pos as int] as int,
            ),
            final(self).tree_view().slots == old(self).tree_view().slots.update(
                kids_at(old(self).tree_view(), old(self).idx() as int)[pos as int] as int,
                ElemView::Occupied {
                    value,
                    parent: parent_at(
                        old(self).tree_view(),
                        kids_at(old(self).tree_view(), old(self).idx() as int)[pos as int] as int,
                    ),
                    childs: kids_at(
                        old(self).tree_view(),
                        kids_at(old(self).tree_view(), old(self).idx() as int)[pos as int] as int,
                    ),
                },
            ),
            final(self).tree_view().free_head == old(self).tree_view().free_head,
    {
        proof {
            self.tree.lemma_wf_inv();
        }
        let c = self.tree.child_at(self.index, pos as usize);
        self.tree.set_value_at(c, value)
    }

    /// A read-only reference to the same node.
    pub fn get_ref(&self) -> (r: Ref<'_, T>)
        requires
            self.wf(),
        ensures
            r.wf(),
            r.tree_view() == self.tree_view(),
            r.idx() == self.idx(),
    {
        Ref::create(&self.tree, self.index)
    }

    /// Gives the tree back, ending this reference's exclusive access.
    pub fn into_tree(self) -> (t: Tree<T>)
        requires
            self.wf(),
        ensures
            t.wf(),
            t@ == self.tree_view(),
    {
        self.tree
    }
}

/// A structurally unique reference: everything [`RefMut`] grants, plus the
/// authority to add children and to remove them together with their whole
/// subtrees. At most one such handle into a tree exists, because it owns the
/// tree.
pub struct RefUniq<T> {
    inner: RefMut<T>,
}

impl<T> RefUniq<T> {
    /// The state of the whole arena this reference owns.
    pub closed spec fn tree_view(&self) -> TreeView<T> {
        self.inner.tree@
    }

    /// The slot index this reference denotes.
    pub closed spec fn idx(&self) -> u32 {
        self.inner.index
    }

    /// The reference denotes an occupied slot of a well-formed tree.
    pub closed spec fn wf(&self) -> bool {
        &&& self.inner.tree.wf()
        &&& is_occupied(self.inner.tree@, self.inner.index as int)
    }

    /// A well-formed reference sees a structurally well-formed arena.
    pub proof fn lemma_wf_inv(&self)
        requires
            self.wf(),
        ensures
            inv(self.tree_view()),
            is_occupied(self.tree_view(), self.idx() as int),
    {
        self.inner.tree.lemma_wf_inv();
    }

    pub(crate) fn create(tree: Tree<T>, index: u32) -> (r: RefUniq<T>)
        requires
            tree.wf(),
            is_occupied(tree@, index as int),
        ensures
            r.wf(),
            r.tree_view() == tree@,
            r.idx() == index,
    {
        RefUniq { inner: RefMut::create(tree, index) }
    }

    /// Widens a value-mutable reference into a structurally unique one. Safe
    /// here, unlike in designs with shared handles: the inner reference
    /// already owns the tree outright.
    pub fn from_inner(inner: RefMut<T>) -> (r: RefUniq<T>)
        ensures
            r.tree_view() == inner.tree_view(),
            r.idx() == inner.idx(),
            inner.wf() ==> r.wf(),
    {
        RefUniq { inner }
    }

    /// Narrows this reference to the value-mutable tier.
    pub fn inner(self) -> (r: RefMut<T>)
        ensures
            r.tree_view() == self.tree_view(),
            r.idx() == self.idx(),
            self.wf() ==> r.wf(),
    {
        self.inner
    }

    /// The slot index of the referenced node.
    pub fn index(&self) -> (r: u32)
        ensures
            r == self.idx(),
    {
        self.inner.index
    }

    /// Read access to the referenced node's value.
    pub fn value(&self) -> (r: &T)
        requires
            self.wf(),
        ensures
            *r == value_at(self.tree_view(), self.idx() as int),
    {
        self.inner.value()
    }

    /// Replaces the referenced node's value, returning the previous one.
    pub fn set_value(&mut self, value: T) -> (r: T)
        requires
            old(self).wf(),
        ensures
            final(self).wf(),
            final(self).idx() == old(self).idx(),
            r == value_at(old(self).tree_view(), old(self).idx() as int),
            final(self).tree_view().slots == old(self).tree_view().slots.update(
                old(self).idx() as int,
                ElemView::Occupied {
                    value,
                    parent: parent_at(old(self).tree_view(), old(self).idx() as int),
                    childs: kids_at(old(self).tree_view(), old(self).idx() as int),
                },
            ),
            final(self).tree_view().free_head == old(self).tree_view().free_head,
    {
        self.inner.set_value(value)
    }

    /// How many children the referenced node has.
    pub fn children_count(&self) -> (n: u32)
        requires
            self.wf(),
        ensures
            n == kids_at(self.tree_view(), self.idx() as int).len(),
    {
        self.inner.children_count()
    }

    /// A read-only reference to the child at the given position. Meant for
    /// pre-validated callers: the position must be in range.
    pub fn get_child(&self, pos: u32) -> (r: Ref<'_, T>)
        requires
            self.wf(),
            pos < kids_at(self.tree_view(), self.idx() as int).len(),
        ensures
            r.wf(),
            r.tree_view() == self.tree_view(),
            r.idx() == kids_at(self.tree_view(), self.idx() as int)[pos as int],
    {
        self.inner.get_child(pos)
    }

    /// A read-only reference to the same node.
    pub fn get_ref(&self) -> (r: Ref<'_, T>)
        requires
            self.wf(),
        ensures
            r.wf(),
            r.tree_view() == self.tree_view(),
            r.idx() == self.idx(),
    {
        self.inner.get_ref()
    }

    /// Gives the tree back, ending this reference's exclusive access.
    pub fn into_tree(self) -> (t: Tree<T>)
        requires
            self.wf(),
        ensures
            t.wf(),
            t@ == self.tree_view(),
    {
        self.inner.into_tree()
    }

    /// Allocates a new child of the referenced node holding the given value
    /// and appends it to the child list; returns the new child's slot index.
    /// The head of the free list is recycled when one slot is free, and a
    /// fresh slot is appended to the pool otherwise.
    pub fn add_child(&mut self, value: T) -> (c: u32)
        requires
            old(self).wf(),
            num_slots(old(self).tree_view()) < u32::MAX as int,
        ensures
            final(self).wf(),
            final(self).idx() == old(self).idx(),
            c as int == if old(self).tree_view().free_head == 0 {
                num_slots(old(self).tree_view())
            } else {
                old(self).tree_view().free_head as int
            },
            !is_occupied(old(self).tree_view(), c as int),
            is_occupied(final(self).tree_view(), c as int),
            value_at(final(self).tree_view(), c as int) == value,
            parent_at(final(self).tree_view(), c as int) == old(self).idx(),
            kids_at(final(self).tree_view(), c as int) == Seq::<u32>::empty(),
            kids_at(final(self).tree_view(), old(self).idx() as int) == kids_at(
                old(self).tree_view(),
                old(self).idx() as int,
            ).push(c),
            value_at(final(self).tree_view(), old(self).idx() as int) == value_at(
                old(self).tree_view(),
                old(self).idx() as int,
            ),
            num_slots(final(self).tree_view()) == if old(self).tree_view().free_head == 0 {
                num_slots(old(self).tree_view()) + 1
            } else {
                num_slots(old(self).tree_view())
            },
            final(self).tree_view().free_head == if old(self).tree_view().free_head == 0 {
                0u32
            } else {
                free_next_at(old(self).tree_view(), old(self).tree_view().free_head as int)
            },
            forall|j: int|
                0 <= j < num_slots(old(self).tree_view()) && j != old(self).idx() as int && j
                    != c as int ==> final(self).tree_view().slots[j] == old(
                    self,
                ).tree_view().slots[j],
    {
        self.inner.tree.add_child_at(self.inner.index, value)
    }

    /// Allocates a new child holding the given value and moves this
    /// reference onto it.
    pub fn into_new_child(self, value: T) -> (r: RefUniq<T>)
        requires
            self.wf(),
            num_slots(self.tree_view()) < u32::MAX as int,
        ensures
            r.wf(),
            r.idx() as int == if self.tree_view().free_head == 0 {
                num_slots(self.tree_view())
            } else {
                self.tree_view().free_head as int
            },
            value_at(r.tree_view(), r.idx() as int) == value,
            parent_at(r.tree_view(), r.idx() as int) == self.idx(),
            kids_at(r.tree_view(), r.idx() as int) == Seq::<u32>::empty(),
            kids_at(r.tree_view(), self.idx() as int) == kids_at(
                self.tree_view(),
                self.idx() as int,
            ).push(r.idx()),
    {
        let mut this = self;
        let c = this.add_child(value);
        proof {
            this.lemma_wf_inv();
        }
        RefUniq::create(this.inner.tree, c)
    }

    /// Removes the child at the given position of the child list. The
    /// removed child's whole subtree is released depth first — no slot is
    /// freed before its children — and every released slot goes back to the
    /// free list, the removed child's own slot last, so it heads the list.
    /// Returns the removed child's value; the descendants' values are
    /// dropped.
    pub fn remove_child(&mut self, pos: u32) -> (r: T)
        requires
            old(self).wf(),
            pos < kids_at(old(self).tree_view(), old(self).idx() as int).len(),
        ensures
            final(self).wf(),
            final(self).idx() == old(self).idx(),
            r == value_at(
                old(self).tree_view(),
                kids_at(old(self).tree_view(), old(self).idx() as int)[pos as int] as int,
            ),
            kids_at(final(self).tree_view(), old(self).idx() as int) == kids_at(
                old(self).tree_view(),
                old(self).idx() as int,
            ).remove(pos as int),
            value_at(final(self).tree_view(), old(self).idx() as int) == value_at(
                old(self).tree_view(),
                old(self).idx() as int,
            ),
            num_slots(final(self).tree_view()) == num_slots(old(self).tree_view()),
            forall|j: int|
                subtree_set(
                    old(self).tree_view(),
                    kids_at(old(self).tree_view(), old(self).idx() as int)[pos as int] as int,
                ).contains(j) ==> is_free(final(self).tree_view(), j),
            forall|j: int|
                0 <= j < num_slots(old(self).tree_view()) && j != old(self).idx() as int
                    && !subtree_set(
                    old(self).tree_view(),
                    kids_at(old(self).tree_view(), old(self).idx() as int)[pos as int] as int,
                ).contains(j) ==> final(self).tree_view().slots[j] == old(
                    self,
                ).tree_view().slots[j],
            forall|j: int|
                is_occupied(final(self).tree_view(), j) ==> is_occupied(old(self).tree_view(), j),
            final(self).tree_view().free_head == kids_at(
                old(self).tree_view(),
                old(self).idx() as int,
            )[pos as int],
    {
        self.inner.tree.remove_child_at(self.inner.index, pos as usize)
    }

    /// Removes and releases every child of the referenced node in one pass,
    /// draining its child list to empty. The descendants' values are
    /// dropped.
    pub fn clear_children(&mut self)
        requires
            old(self).wf(),
        ensures
            final(self).wf(),
            final(self).idx() == old(self).idx(),
            kids_at(final(self).tree_view(), old(self).idx() as int) == Seq::<u32>::empty(),
            value_at(final(self).tree_view(), old(self).idx() as int) == value_at(
                old(self).tree_view(),
                old(self).idx() as int,
            ),
            num_slots(final(self).tree_view()) == num_slots(old(self).tree_view()),
            forall|j: int|
                subtree_set(old(self).tree_view(), old(self).idx() as int).contains(j) && j != old(
                    self,
                ).idx() as int ==> is_free(final(self).tree_view(), j),
            forall|j: int|
                0 <= j < num_slots(old(self).tree_view()) && j != old(self).idx() as int
                    && !subtree_set(old(self).tree_view(), old(self).idx() as int).contains(j)
                    ==> final(self).tree_view().slots[j] == old(self).tree_view().slots[j],
            forall|j: int|
                is_occupied(final(self).tree_view(), j) ==> is_occupied(old(self).tree_view(), j),
    {
        self.inner.tree.clear_children_at(self.inner.index)
    }

    /// Builds a whole subtree under the referenced node in one traversal:
    /// each given shape becomes one further child whose own subtree is built
    /// from the shape's children. A convenience bulk-build layered on
    /// `add_child`.
    pub fn create_sub_tree(&mut self, subs: Vec<SubTree<T>>)
        requires
            old(self).wf(),
            num_slots(old(self).tree_view()) + preorder_all(subs@).len() <= u32::MAX as int,
        ensures
            final(self).wf(),
            final(self).idx() == old(self).idx(),
            value_at(final(self).tree_view(), old(self).idx() as int) == value_at(
                old(self).tree_view(),
                old(self).idx() as int,
            ),
            kids_at(final(self).tree_view(), old(self).idx() as int).len() == kids_at(
                old(self).tree_view(),
                old(self).idx() as int,
            ).len() + subs@.len(),
            kids_at(final(self).tree_view(), old(self).idx() as int).take(
                kids_at(old(self).tree_view(), old(self).idx() as int).len() as int,
            ) == kids_at(old(self).tree_view(), old(self).idx() as int),
            forall|k: int|
                0 <= k < subs@.len() ==> shape_at(
                    final(self).tree_view(),
                    kids_at(final(self).tree_view(), old(self).idx() as int)[kids_at(
                        old(self).tree_view(),
                        old(self).idx() as int,
                    ).len() + k] as int,
                    #[trigger] subs@[k],
                ),
            forall|j: int|
                is_occupied(old(self).tree_view(), j) && j != old(self).idx() as int
                    ==> final(self).tree_view().slots[j] == old(self).tree_view().slots[j],
    {
        self.inner.tree.build_subs(self.inner.index, subs)
    }

    /// Consumes this reference and descends to the child at the given
    /// position, or hands the reference back unchanged when the position is
    /// out of range — the non-panicking variant for speculative descent.
    pub fn into_child(self, pos: u32) -> (r: Result<RefUniq<T>, RefUniq<T>>)
        requires
            self.wf(),
        ensures
            match r {
                Ok(rr) => {
                    &&& (pos as int) < kids_at(self.tree_view(), self.idx() as int).len()
                    &&& rr.wf()
                    &&& rr.tree_view() == self.tree_view()
                    &&& rr.idx() == kids_at(self.tree_view(), self.idx() as int)[pos as int]
                },
                Err(e) => {
                    &&& (pos as int) >= kids_at(self.tree_view(), self.idx() as int).len()
                    &&& e == self
                },
            },
    {
        proof {
            self.lemma_wf_inv();
        }
        let n = self.inner.tree.child_count_at(self.inner.index);
        if (pos as usize) < n {
            let c = self.inner.tree.child_at(self.inner.index, pos as usize);
            Ok(RefUniq::create(self.inner.tree, c))
        } else {
            Err(self)
        }
    }

    /// Consumes this reference and ascends to the parent, or hands the
    /// reference back unchanged when the node is the root, which has no
    /// parent to ascend to.
    pub fn into_parent(self) -> (r: Result<RefUniq<T>, RefUniq<T>>)
        requires
            self.wf(),
        ensures
            match r {
                Ok(rr) => {
                    &&& self.idx() != 0
                    &&& rr.wf()
                    &&& rr.tree_view() == self.tree_view()
                    &&& rr.idx() == parent_at(self.tree_view(), self.idx() as int)
                },
                Err(e) => {
                    &&& self.idx() == 0
                    &&& e == self
                },
            },
    {
        proof {
            self.lemma_wf_inv();
        }
        if self.inner.index != 0 {
            let p = self.inner.tree.parent_of(self.inner.index);
            Ok(RefUniq::create(self.inner.tree, p))
        } else {
            Err(self)
        }
    }
}

impl<T> Tree<T> {
    /// A read-only reference to the root node, which always exists.
    pub fn top(&self) -> (r: Ref<'_, T>)
        requires
            self.wf(),
        ensures
            r.wf(),
            r.tree_view() == self@,
            r.idx() == 0,
    {
        proof {
            self.lemma_wf_inv();
        }
        Ref::create(self, 0)
    }

    /// A read-only reference to the node at the given slot index, or `None`
    /// when the index is out of range or names a freed slot.
    pub fn get_index(&self, index: u32) -> (r: Option<Ref<'_, T>>)
        requires
            self.wf(),
        ensures
            match r {
                Some(rr) => is_occupied(self@, index as int) && rr.wf() && rr.tree_view() == self@
                    && rr.idx() == index,
                None => !is_occupied(self@, index as int),
            },
    {
        if self.used(index) {
            Some(Ref::create(self, index))
        } else {
            None
        }
    }

    /// Consumes the tree into a structurally unique reference to the root.
    pub fn mut_top(self) -> (r: RefUniq<T>)
        requires
            self.wf(),
        ensures
            r.wf(),
            r.tree_view() == self@,
            r.idx() == 0,
    {
        proof {
            self.lemma_wf_inv();
        }
        RefUniq::create(self, 0)
    }

    /// Consumes the tree into a structurally unique reference to the node at
    /// the given slot index; hands the tree back unchanged when the index is
    /// out of range or names a freed slot.
    pub fn get_index_mut(self, index: u32) -> (r: Result<RefUniq<T>, Tree<T>>)
        requires
            self.wf(),
        ensures
            match r {
                Ok(rr) => is_occupied(self@, index as int) && rr.wf() && rr.tree_view() == self@
                    && rr.idx() == index,
                Err(t) => !is_occupied(self@, index as int) && t == self,
            },
    {
        if self.used(index) {
            Ok(RefUniq::create(self, index))
        } else {
            Err(self)
        }
    }
}

} // verus!
