//! The slot arena: elements, the owning tree container, and the free list.

use vstd::prelude::*;

use crate::child_list::ChildList;
use crate::child_list::child_list;
use crate::model::ElemView;
use crate::model::TreeView;
use crate::model::num_slots;
use crate::model::is_occupied;
use crate::model::is_free;
use crate::model::value_at;
use crate::model::parent_at;
use crate::model::kids_at;
use crate::model::free_next_at;
use crate::model::detached;
use crate::model::subtree_set;
use crate::model::inv_ex;
use crate::model::inv;
use crate::model::depth_ok;
use crate::model::free_ok;
use crate::shape::SubTree;
use crate::shape::shape_at;
use crate::shape::preorder;
use crate::shape::preorder_all;

verus! {

/// One storage cell of the arena. An occupied element carries a node; a free
/// element carries the index of the next free slot (0 at the chain's end).
/// The two states share one cell but never conflate: every access goes
/// through the enum's tag.
pub enum Element<T> {
    Occupied { value: T, parent: u32, childs: ChildList },
    Free { next: u32 },
}

impl<T> View for Element<T> {
    type V = ElemView<T>;

    open spec fn view(&self) -> ElemView<T> {
        match self {
            Element::Occupied { value, parent, childs } => ElemView::Occupied {
                value: *value,
                parent: *parent,
                childs: child_list(*childs),
            },
            Element::Free { next } => ElemView::Free { next: *next },
        }
    }
}

impl<T> Element<T> {
    /// A fresh occupied element with no children.
    pub fn new(value: T, parent: u32) -> (e: Element<T>)
        ensures
            e@ == (ElemView::Occupied { value, parent, childs: Seq::<u32>::empty() }),
    {
        Element::Occupied { value, parent, childs: ChildList::new() }
    }

    /// A fresh free element linking to the given next free slot.
    pub fn unused(next: u32) -> (e: Element<T>)
        ensures
            e@ == (ElemView::Free::<T> { next }),
    {
        Element::Free { next }
    }

    /// Whether the element holds a live node.
    pub fn is_used(&self) -> (r: bool)
        ensures
            r == (self@ is Occupied),
    {
        match self {
            Element::Occupied { .. } => true,
            Element::Free { .. } => false,
        }
    }

    /// The stored value, when the element holds one.
    pub fn get_value_checked(&self) -> (r: Option<&T>)
        ensures
            match r {
                Some(value) => self@ is Occupied && *value == self@->Occupied_value,
                None => self@ is Free,
            },
    {
        match self {
            Element::Occupied { value, .. } => Some(value),
            Element::Free { .. } => None,
        }
    }

    /// The parent index of an occupied element.
    pub fn parent(&self) -> (r: u32)
        requires
            self@ is Occupied,
        ensures
            r == self@->Occupied_parent,
    {
        match self {
            Element::Occupied { parent, .. } => *parent,
            Element::Free { .. } => vstd::pervasive::unreached(),
        }
    }

    /// The next link of a free element: the index of the next free slot, 0
    /// at the chain's end.
    pub fn next_free(&self) -> (r: u32)
        requires
            self@ is Free,
        ensures
            r == self@->Free_next,
    {
        match self {
            Element::Occupied { .. } => vstd::pervasive::unreached(),
            Element::Free { next } => *next,
        }
    }
}

/// A never-empty tree whose nodes live in a growable slot pool. The root is
/// always at index 0 and is never freed; removed slots are recycled through
/// an intrusive free list threaded through the free elements.
pub struct Tree<T> {
    buffer: Vec<Element<T>>,
    next_free: u32,
    /// The depth of each occupied slot; witnesses that parent links reach
    /// the root and that subtrees nest without cycles.
    depth: Ghost<Map<int, nat>>,
    /// A strict upper bound on every stored depth.
    dbound: Ghost<nat>,
    /// The free slots in chain order, head first.
    free_order: Ghost<Seq<u32>>,
}

impl<T> View for Tree<T> {
    type V = TreeView<T>;

    closed spec fn view(&self) -> TreeView<T> {
        TreeView {
            slots: self.buffer@.map_values(|e: Element<T>| e@),
            free_head: self.next_free,
        }
    }
}

impl<T> Tree<T> {
    /// Structural well-formedness together with the ghost witnesses for
    /// acyclicity and for the free chain, with detached slots `ex` exempted.
    pub(crate) closed spec fn wf_ex(&self, ex: Set<int>) -> bool {
        &&& inv_ex(self@, ex)
        &&& depth_ok(self@, self.depth@, self.dbound@)
        &&& free_ok(self@, self.free_order@)
    }

    /// The arena is well formed: slot 0 holds the root, every child link
    /// names a live slot that names it back, no slot stands in two child
    /// lists, and the free chain threads exactly through the free slots.
    pub closed spec fn wf(&self) -> bool {
        self.wf_ex(Set::empty())
    }

    pub(crate) closed spec fn depth_of(&self, i: int) -> nat {
        self.depth@[i]
    }

    /// A well-formed tree satisfies the public structural conditions.
    pub proof fn lemma_wf_inv(&self)
        requires
            self.wf(),
        ensures
            inv(self@),
    {
    }

    /// A well-formed tree carries a depth witness: a map that places the
    /// root at depth 0 and every node one step below its parent.
    pub proof fn lemma_wf_model(&self)
        requires
            self.wf(),
        ensures
            inv(self@),
            exists|d: Map<int, nat>, db: nat| depth_ok(self@, d, db),
    {
        assert(depth_ok(self@, self.depth@, self.dbound@));
    }

    /// Counts the slots that currently hold a node.
    pub fn occupied_count(&self) -> (n: u32)
        requires
            self.wf(),
        ensures
            n as int == crate::model::occupied_set(self@).len(),
            n as int == subtree_set(self@, 0).len(),
    {
        let len = self.buffer.len();
        let mut n: u32 = 0;
        let mut j: usize = 0;
        proof {
            assert(crate::model::occupied_below(self@, 0) =~= Set::<int>::empty());
        }
        while j < len
            invariant
                len == self@.slots.len(),
                len <= u32::MAX as int,
                j <= len,
                n as int == crate::model::occupied_below(self@, j as int).len(),
                n as int <= j as int,
            decreases len - j,
        {
            proof {
                crate::model::lemma_occupied_below_step(self@, j as int);
            }
            if self.buffer[j].is_used() {
                n = n + 1;
            }
            j = j + 1;
        }
        proof {
            assert(crate::model::occupied_set(self@) =~= crate::model::occupied_below(
                self@,
                len as int,
            ));
            crate::model::lemma_occupied_is_live(self@, self.depth@, self.dbound@);
        }
        n
    }

    /// Creates a new tree whose root node holds the given value.
    pub fn new(root: T) -> (t: Tree<T>)
        ensures
            t.wf(),
            num_slots(t@) == 1,
            is_occupied(t@, 0),
            value_at(t@, 0) == root,
            parent_at(t@, 0) == 0,
            kids_at(t@, 0) == Seq::<u32>::empty(),
            t@.free_head == 0,
    {
        let mut buffer: Vec<Element<T>> = Vec::new();
        buffer.push(Element::new(root, 0));
        let t = Tree {
            buffer,
            next_free: 0,
            depth: Ghost(Map::<int, nat>::empty().insert(0, 0)),
            dbound: Ghost(1nat),
            free_order: Ghost(Seq::<u32>::empty()),
        };
        proof {
            assert(t@.slots =~= seq![
                ElemView::Occupied { value: root, parent: 0u32, childs: Seq::<u32>::empty() },
            ]);
        }
        t
    }

    /// The number of slots the arena currently owns, occupied or free.
    pub fn slot_count(&self) -> (n: u32)
        requires
            self.wf(),
        ensures
            n as int == num_slots(self@),
    {
        self.buffer.len() as u32
    }

    /// Whether the given index names a slot that currently holds a node.
    pub(crate) fn used(&self, i: u32) -> (r: bool)
        ensures
            r == is_occupied(self@, i as int),
    {
        if (i as usize) < self.buffer.len() {
            self.buffer[i as usize].is_used()
        } else {
            false
        }
    }

    /// Read access to the value stored at an occupied slot.
    pub(crate) fn value_ref(&self, i: u32) -> (r: &T)
        requires
            is_occupied(self@, i as int),
        ensures
            *r == value_at(self@, i as int),
    {
        match &self.buffer[i as usize] {
            Element::Occupied { value, .. } => value,
            Element::Free { .. } => vstd::pervasive::unreached(),
        }
    }

    /// The parent index recorded at an occupied slot.
    pub(crate) fn parent_of(&self, i: u32) -> (r: u32)
        requires
            is_occupied(self@, i as int),
        ensures
            r == parent_at(self@, i as int),
    {
        match &self.buffer[i as usize] {
            Element::Occupied { parent, .. } => *parent,
            Element::Free { .. } => vstd::pervasive::unreached(),
        }
    }

    /// How many children the node at an occupied slot has.
    pub(crate) fn child_count_at(&self, i: u32) -> (n: usize)
        requires
            is_occupied(self@, i as int),
        ensures
            n == kids_at(self@, i as int).len(),
    {
        match &self.buffer[i as usize] {
            Element::Occupied { childs, .. } => childs.len(),
            Element::Free { .. } => vstd::pervasive::unreached(),
        }
    }

    /// The child index stored at the given position of an occupied slot.
    pub(crate) fn child_at(&self, i: u32, pos: usize) -> (c: u32)
        requires
            is_occupied(self@, i as int),
            pos < kids_at(self@, i as int).len(),
        ensures
            c == kids_at(self@, i as int)[pos as int],
    {
        match &self.buffer[i as usize] {
            Element::Occupied { childs, .. } => childs.get(pos),
            Element::Free { .. } => vstd::pervasive::unreached(),
        }
    }

    /// Replaces the element at `i`, returning the previous one. The sole
    /// primitive through which the arena's storage is mutated.
    fn swap_element(&mut self, i: u32, e: Element<T>) -> (r: Element<T>)
        requires
            (i as int) < num_slots(old(self)@),
        ensures
            final(self)@.slots == old(self)@.slots.update(i as int, e@),
            final(self)@.free_head == old(self)@.free_head,
            r@ == old(self)@.slots[i as int],
            final(self).depth == old(self).depth,
            final(self).dbound == old(self).dbound,
            final(self).free_order == old(self).free_order,
            final(self).next_free == old(self).next_free,
    {
        let mut tmp = e;
        core::mem::swap(&mut tmp, &mut self.buffer[i as usize]);
        proof {
            assert(self@.slots =~= old(self)@.slots.update(i as int, self.buffer@[i as int]@));
        }
        tmp
    }

    /// Appends `c` to the child list of the occupied slot `i`, leaving the
    /// slot's value and parent as they were.
    fn push_child_entry(&mut self, i: u32, c: u32)
        requires
            is_occupied(old(self)@, i as int),
            kids_at(old(self)@, i as int).len() < 0xffff_ffff,
        ensures
            final(self)@.slots == old(self)@.slots.update(
                i as int,
                ElemView::Occupied {
                    value: value_at(old(self)@, i as int),
                    parent: parent_at(old(self)@, i as int),
                    childs: kids_at(old(self)@, i as int).push(c),
                },
            ),
            final(self)@.free_head == old(self)@.free_head,
            final(self).depth == old(self).depth,
            final(self).dbound == old(self).dbound,
            final(self).free_order == old(self).free_order,
            final(self).next_free == old(self).next_free,
    {
        let e = self.swap_element(i, Element::Free { next: 0 });
        match e {
            Element::Occupied { value, parent, childs } => {
                let mut cl = childs;
                cl.push(c);
                let _ = self.swap_element(i, Element::Occupied { value, parent, childs: cl });
                proof {
                    assert(self@.slots =~= old(self)@.slots.update(
                        i as int,
                        ElemView::Occupied {
                            value: value_at(old(self)@, i as int),
                            parent: parent_at(old(self)@, i as int),
                            childs: kids_at(old(self)@, i as int).push(c),
                        },
                    ));
                }
            },
            Element::Free { .. } => {
                vstd::pervasive::unreached::<()>()
            },
        }
    }

    /// Takes the child entry at position `pos` out of the child list of the
    /// occupied slot `i`, leaving the slot's value and parent as they were.
    fn remove_child_entry(&mut self, i: u32, pos: usize) -> (c: u32)
        requires
            is_occupied(old(self)@, i as int),
            pos < kids_at(old(self)@, i as int).len(),
        ensures
            c == kids_at(old(self)@, i as int)[pos as int],
            final(self)@.slots == old(self)@.slots.update(
                i as int,
                ElemView::Occupied {
                    value: value_at(old(self)@, i as int),
                    parent: parent_at(old(self)@, i as int),
                    childs: kids_at(old(self)@, i as int).remove(pos as int),
                },
            ),
            final(self)@.free_head == old(self)@.free_head,
            final(self).depth == old(self).depth,
            final(self).dbound == old(self).dbound,
            final(self).free_order == old(self).free_order,
            final(self).next_free == old(self).next_free,
    {
        let e = self.swap_element(i, Element::Free { next: 0 });
        match e {
            Element::Occupied { value, parent, childs } => {
                let mut cl = childs;
                let c = cl.remove(pos);
                let _ = self.swap_element(i, Element::Occupied { value, parent, childs: cl });
                proof {
                    assert(self@.slots =~= old(self)@.slots.update(
                        i as int,
                        ElemView::Occupied {
                            value: value_at(old(self)@, i as int),
                            parent: parent_at(old(self)@, i as int),
                            childs: kids_at(old(self)@, i as int).remove(pos as int),
                        },
                    ));
                }
                c
            },
            Element::Free { .. } => {
                vstd::pervasive::unreached()
            },
        }
    }

    /// Replaces the value stored at the occupied slot `i`, returning the
    /// previous value. The tree's shape is untouched.
    pub(crate) fn set_value_at(&mut self, i: u32, value: T) -> (r: T)
        requires
            old(self).wf(),
            is_occupied(old(self)@, i as int),
        ensures
            final(self).wf(),
            r == value_at(old(self)@, i as int),
            final(self)@.slots == old(self)@.slots.update(
                i as int,
                ElemView::Occupied {
                    value,
                    parent: parent_at(old(self)@, i as int),
                    childs: kids_at(old(self)@, i as int),
                },
            ),
            final(self)@.free_head == old(self)@.free_head,
            num_slots(final(self)@) == num_slots(old(self)@),
    {
        let e = self.swap_element(i, Element::Free { next: 0 });
        match e {
            Element::Occupied { value: old_value, parent, childs } => {
                let _ = self.swap_element(i, Element::Occupied { value, parent, childs });
                proof {
                    let v0 = old(self)@;
                    let v1 = self@;
                    assert(v1.slots =~= v0.slots.update(
                        i as int,
                        ElemView::Occupied {
                            value,
                            parent: parent_at(v0, i as int),
                            childs: kids_at(v0, i as int),
                        },
                    ));
                    assert forall|j: int| is_occupied(v1, j) implies is_occupied(v0, j)
                        && parent_at(v1, j) == parent_at(v0, j) && kids_at(v1, j) == kids_at(
                        v0,
                        j,
                    ) by {}
                    assert forall|j: int| is_occupied(v0, j) implies is_occupied(v1, j) by {}
                    assert forall|j: int| is_free(v1, j) implies is_free(v0, j) && free_next_at(
                        v1,
                        j,
                    ) == free_next_at(v0, j) by {}
                    assert forall|j: int| is_free(v0, j) implies is_free(v1, j) by {}
                    assert(self.wf());
                }
                old_value
            },
            Element::Free { .. } => {
                vstd::pervasive::unreached()
            },
        }
    }

    /// Allocates a slot for a new child of the occupied slot `i` and appends
    /// it to `i`'s child list. The new child holds the given value and has no
    /// children. The slot is recycled from the head of the free list when one
    /// is free, and appended to the pool otherwise.
    pub(crate) fn add_child_at(&mut self, i: u32, value: T) -> (c: u32)
        requires
            old(self).wf(),
            is_occupied(old(self)@, i as int),
            num_slots(old(self)@) < u32::MAX as int,
        ensures
            final(self).wf(),
            c as int == if old(self)@.free_head == 0 {
                num_slots(old(self)@)
            } else {
                old(self)@.free_head as int
            },
            !is_occupied(old(self)@, c as int),
            is_occupied(final(self)@, c as int),
            value_at(final(self)@, c as int) == value,
            parent_at(final(self)@, c as int) == i,
            kids_at(final(self)@, c as int) == Seq::<u32>::empty(),
            is_occupied(final(self)@, i as int),
            kids_at(final(self)@, i as int) == kids_at(old(self)@, i as int).push(c),
            value_at(final(self)@, i as int) == value_at(old(self)@, i as int),
            parent_at(final(self)@, i as int) == parent_at(old(self)@, i as int),
            num_slots(final(self)@) == if old(self)@.free_head == 0 {
                num_slots(old(self)@) + 1
            } else {
                num_slots(old(self)@)
            },
            final(self)@.free_head == if old(self)@.free_head == 0 {
                0u32
            } else {
                free_next_at(old(self)@, old(self)@.free_head as int)
            },
            forall|j: int|
                0 <= j < num_slots(old(self)@) && j != i && j != c ==> final(self)@.slots[j]
                    == old(self)@.slots[j],
            final(self).depth_of(c as int) == old(self).depth_of(i as int) + 1,
            forall|j: int|
                is_occupied(old(self)@, j) ==> final(self).depth_of(j) == old(self).depth_of(j),
    {
        let ghost v0 = self@;
        let ghost fs0 = self.free_order@;
        let ghost d0 = self.depth@;
        let ghost db0 = self.dbound@;
        let c: u32;
        if self.next_free != 0 {
            c = self.next_free;
            proof {
                assert(fs0.len() > 0 && fs0[0] == c);
                assert(is_free(v0, c as int));
            }
            let old_e = self.swap_element(
                c,
                Element::Occupied { value, parent: i, childs: ChildList::new() },
            );
            let nf = match old_e {
                Element::Free { next } => next,
                Element::Occupied { .. } => vstd::pervasive::unreached(),
            };
            self.next_free = nf;
            self.free_order = Ghost(fs0.drop_first());
        } else {
            proof {
                assert(self.buffer@.len() < u32::MAX as int);
                if fs0.len() > 0 {
                    assert(v0.free_head == fs0[0] && fs0[0] != 0);
                }
                assert(fs0.len() == 0);
            }
            c = self.buffer.len() as u32;
            self.buffer.push(Element::Occupied { value, parent: i, childs: ChildList::new() });
            proof {
                assert(self@.slots =~= v0.slots.push(
                    ElemView::Occupied { value, parent: i, childs: Seq::<u32>::empty() },
                ));
            }
        }
        self.depth = Ghost(d0.insert(c as int, (d0[i as int] + 1) as nat));
        self.dbound = Ghost((db0 + 1) as nat);
        proof {
            assert(is_occupied(self@, i as int) && kids_at(self@, i as int) == kids_at(
                v0,
                i as int,
            ));
            assert(kids_at(v0, i as int).len() < num_slots(v0));
        }
        self.push_child_entry(i, c);
        proof {
            let v1 = self@;
            let fs1 = self.free_order@;
            let d1 = self.depth@;
            let db1 = self.dbound@;
            let n1 = num_slots(v1);
            // Pointwise relation of the new state to the old one.
            assert(is_occupied(v1, c as int) && value_at(v1, c as int) == value && parent_at(
                v1,
                c as int,
            ) == i && kids_at(v1, c as int) == Seq::<u32>::empty());
            assert(is_occupied(v1, i as int) && kids_at(v1, i as int) == kids_at(
                v0,
                i as int,
            ).push(c));
            assert(forall|j: int|
                0 <= j < num_slots(v0) && j != i && j != c ==> v1.slots[j] == v0.slots[j]);
            // Occupied slots are the old ones plus c; free are the old ones minus c.
            assert forall|j: int| is_occupied(v1, j) && j != c implies is_occupied(v0, j)
                && parent_at(v1, j) == parent_at(v0, j) && value_at(v1, j) == value_at(v0, j) by {}
            assert forall|j: int| is_occupied(v0, j) implies is_occupied(v1, j) by {}
            assert forall|j: int| is_free(v1, j) implies is_free(v0, j) && j != c && free_next_at(
                v1,
                j,
            ) == free_next_at(v0, j) by {}
            // Old child entries are unaffected slots.
            assert forall|j: int, k: int|
                is_occupied(v0, j) && 0 <= k < kids_at(v0, j).len() implies {
                let e = #[trigger] kids_at(v0, j)[k] as int;
                0 < e < num_slots(v0) && is_occupied(v0, e) && e != c && is_occupied(v1, e)
                    && parent_at(v1, e) == j
            } by {
                let e = kids_at(v0, j)[k] as int;
                assert(is_occupied(v0, e) && parent_at(v0, e) == j);
            }
            // Condition: child lists are duplicate-free and well-linked in v1.
            assert forall|j: int, k: int|
                is_occupied(v1, j) && 0 <= k < kids_at(v1, j).len() implies {
                let e = #[trigger] kids_at(v1, j)[k] as int;
                0 < e < n1 && is_occupied(v1, e) && parent_at(v1, e) == j
            } by {
                if j == c {
                } else if j == i {
                    if k < kids_at(v0, i as int).len() {
                        assert(kids_at(v1, j)[k] == kids_at(v0, i as int)[k]);
                    } else {
                        assert(kids_at(v1, j)[k] == c);
                        assert(0 < (c as int) && (c as int) < n1) by {
                            if v0.free_head != 0 {
                                assert(fs0[0] == c && 0 < fs0[0]);
                            }
                        }
                    }
                } else {
                    assert(kids_at(v1, j) == kids_at(v0, j));
                }
            }
            assert forall|j: int, k1: int, k2: int|
                is_occupied(v1, j) && 0 <= k1 < k2 < kids_at(v1, j).len() implies kids_at(v1, j)[k1]
                != kids_at(v1, j)[k2] by {
                if j == i {
                    let old_kids = kids_at(v0, i as int);
                    if k2 < old_kids.len() {
                    } else {
                        assert(kids_at(v1, j)[k2] == c);
                        assert(kids_at(v1, j)[k1] == old_kids[k1]);
                        assert(is_occupied(v0, old_kids[k1] as int));
                        assert(!is_occupied(v0, c as int));
                    }
                } else if j == c {
                } else {
                    assert(kids_at(v1, j) == kids_at(v0, j));
                }
            }
            assert forall|j: int| #[trigger] is_occupied(v1, j) implies kids_at(v1, j).len()
                < n1 by {
                if j == c {
                } else if j == i {
                    crate::model::lemma_distinct_in_range_len(kids_at(v1, j), n1);
                } else {
                    assert(kids_at(v1, j) == kids_at(v0, j));
                    assert(kids_at(v0, j).len() < num_slots(v0));
                }
            }
            // Condition: every occupied non-root slot stands in its parent's list.
            assert forall|j: int| #[trigger] is_occupied(v1, j) && j != 0 implies {
                let p = parent_at(v1, j) as int;
                is_occupied(v1, p) && kids_at(v1, p).contains(j as u32)
            } by {
                if j == c {
                    assert(kids_at(v1, i as int).last() == c);
                    assert(kids_at(v1, i as int).contains(c));
                } else {
                    let p = parent_at(v0, j) as int;
                    assert(is_occupied(v0, p) && kids_at(v0, p).contains(j as u32));
                    assert(is_occupied(v1, p));
                    if p == i {
                        let k = choose|k: int|
                            0 <= k < kids_at(v0, p).len() && kids_at(v0, p)[k] == j as u32;
                        assert(kids_at(v1, p)[k] == j as u32);
                        assert(kids_at(v1, p).contains(j as u32));
                    } else if p == c as int {
                        assert(is_occupied(v0, p));
                        assert(false);
                    } else {
                        assert(kids_at(v1, p) == kids_at(v0, p));
                    }
                }
            }
            assert(is_occupied(v1, 0) && parent_at(v1, 0) == 0) by {
                assert(is_occupied(v0, 0));
                assert(c as int != 0) by {
                    if v0.free_head != 0 {
                        assert(fs0[0] == c && 0 < fs0[0]);
                    }
                }
            }
            assert(inv_ex(v1, Set::<int>::empty()));
            // Depth witnesses.
            assert forall|j: int| #[trigger] is_occupied(v1, j) implies d1.dom().contains(j)
                && d1[j] < db1 by {
                if j == c {
                } else {
                    assert(is_occupied(v0, j));
                    assert(d0.dom().contains(j) && d0[j] < db0);
                }
            }
            assert forall|j: int| #[trigger] is_occupied(v1, j) && j != 0 implies d1[j] == d1[
                parent_at(v1, j) as int
            ] + 1 by {
                if j == c {
                    assert(parent_at(v1, j) == i);
                    assert(i as int != c as int);
                } else {
                    assert(is_occupied(v0, j));
                    let p = parent_at(v0, j) as int;
                    assert(is_occupied(v0, p));
                    assert(p != c as int);
                    assert(d0[j] == d0[p] + 1);
                }
            }
            assert(d1[0] == 0) by {
                assert(c as int != 0);
            }
            assert(depth_ok(v1, d1, db1));
            // Free-chain witnesses.
            if v0.free_head != 0 {
                assert(fs1 =~= fs0.drop_first());
                assert forall|k: int| 0 <= k < fs1.len() implies {
                    let f = #[trigger] fs1[k] as int;
                    0 < f < n1 && is_free(v1, f) && free_next_at(v1, f) == if k + 1 < fs1.len() {
                        fs1[k + 1]
                    } else {
                        0u32
                    }
                } by {
                    assert(fs1[k] == fs0[k + 1]);
                    let f = fs0[k + 1] as int;
                    assert(0 < f < num_slots(v0) && is_free(v0, f));
                    assert(fs0[k + 1] != fs0[0]);
                    assert(f != c as int);
                    assert(f != i as int);
                    assert(v1.slots[f] == v0.slots[f]);
                }
                assert forall|j: int| #[trigger] is_free(v1, j) implies fs1.contains(j as u32) by {
                    assert(is_free(v0, j));
                    assert(fs0.contains(j as u32));
                    let k = choose|k: int| 0 <= k < fs0.len() && fs0[k] == j as u32;
                    assert(j != c as int);
                    assert(k != 0);
                    assert(fs1[k - 1] == j as u32);
                }
                assert(free_ok(v1, fs1));
            } else {
                assert(fs1 == fs0 && fs0.len() == 0);
                assert forall|j: int| #[trigger] is_free(v1, j) implies fs1.contains(j as u32) by {
                    assert(is_free(v0, j));
                }
                assert(free_ok(v1, fs1));
            }
            assert(self.wf());
        }
        c
    }

    /// Returns a detached, childless slot to the free list and moves its
    /// value out. The slot becomes the new head of the free chain.
    fn free_slot(&mut self, c: u32, Ghost(ex): Ghost<Set<int>>) -> (r: T)
        requires
            old(self).wf_ex(ex),
            ex.contains(c as int),
            kids_at(old(self)@, c as int).len() == 0,
        ensures
            final(self).wf_ex(ex.remove(c as int)),
            r == value_at(old(self)@, c as int),
            final(self)@.slots == old(self)@.slots.update(
                c as int,
                ElemView::Free { next: old(self)@.free_head },
            ),
            final(self)@.free_head == c,
            final(self).depth == old(self).depth,
            final(self).dbound == old(self).dbound,
    {
        let ghost v0 = self@;
        let ghost fs0 = self.free_order@;
        let ghost ex1 = ex.remove(c as int);
        let prev = self.next_free;
        let e = self.swap_element(c, Element::Free { next: prev });
        self.next_free = c;
        self.free_order = Ghost(seq![c] + fs0);
        proof {
            let v1 = self@;
            let fs1 = self.free_order@;
            let cc = c as int;
            assert(is_occupied(v0, cc) && detached(v0, cc) && 0 < cc < num_slots(v0));
            assert(forall|j: int| 0 <= j < num_slots(v0) && j != cc ==> v1.slots[j] == v0.slots[j]);
            assert(is_free(v1, cc) && free_next_at(v1, cc) == prev);
            assert forall|j: int| #[trigger] is_occupied(v1, j) implies is_occupied(v0, j)
                && parent_at(v1, j) == parent_at(v0, j) && kids_at(v1, j) == kids_at(v0, j) by {}
            // Child links: no list ever named c, so links survive the free.
            assert forall|j: int, k: int|
                is_occupied(v1, j) && 0 <= k < kids_at(v1, j).len() implies {
                let e2 = #[trigger] kids_at(v1, j)[k] as int;
                0 < e2 < num_slots(v1) && is_occupied(v1, e2) && parent_at(v1, e2) == j
            } by {
                assert(is_occupied(v0, j));
                let e2 = kids_at(v0, j)[k] as int;
                assert(0 < e2 < num_slots(v0) && is_occupied(v0, e2) && parent_at(v0, e2) == j);
                assert(kids_at(v0, j)[k] != cc);
            }
            // Attachment: a slot whose parent were c would have stood in c's
            // empty child list.
            assert forall|j: int| #[trigger] is_occupied(v1, j) && j != 0 && !ex1.contains(
                j,
            ) implies {
                let p = parent_at(v1, j) as int;
                is_occupied(v1, p) && kids_at(v1, p).contains(j as u32)
            } by {
                assert(is_occupied(v0, j) && !ex.contains(j));
                let p = parent_at(v0, j) as int;
                assert(is_occupied(v0, p) && kids_at(v0, p).contains(j as u32));
                if p == cc {
                    assert(kids_at(v0, cc).len() == 0);
                    let k = choose|k: int|
                        0 <= k < kids_at(v0, p).len() && #[trigger] kids_at(v0, p)[k] == j as u32;
                    assert(false);
                }
            }
            assert forall|e2: int| #[trigger] ex1.contains(e2) implies 0 < e2 < num_slots(v1)
                && is_occupied(v1, e2) && detached(v1, e2) by {
                assert(ex.contains(e2) && e2 != cc);
                assert(detached(v0, e2));
                assert forall|j: int, k: int|
                    is_occupied(v1, j) && 0 <= k < kids_at(v1, j).len() implies #[trigger] kids_at(
                    v1,
                    j,
                )[k] != e2 by {
                    assert(is_occupied(v0, j) && kids_at(v1, j) == kids_at(v0, j));
                }
            }
            assert(inv_ex(v1, ex1));
            assert(depth_ok(v1, self.depth@, self.dbound@)) by {
                assert forall|j: int| #[trigger] is_occupied(v1, j) && j != 0 implies self.depth@[j]
                    == self.depth@[parent_at(v1, j) as int] + 1 by {
                    assert(is_occupied(v0, j));
                }
            }
            // The freed slot heads the chain; the old chain follows intact.
            assert(free_ok(v1, fs1)) by {
                assert(fs1[0] == c);
                assert forall|k: int| 0 <= k < fs1.len() implies {
                    let f = #[trigger] fs1[k] as int;
                    0 < f < num_slots(v1) && is_free(v1, f) && free_next_at(v1, f) == if k + 1
                        < fs1.len() {
                        fs1[k + 1]
                    } else {
                        0u32
                    }
                } by {
                    if k == 0 {
                        if fs0.len() > 0 {
                            assert(prev == fs0[0]);
                            assert(fs1[1] == fs0[0]);
                        }
                    } else {
                        assert(fs1[k] == fs0[k - 1]);
                        let f = fs0[k - 1] as int;
                        assert(is_free(v0, f));
                        assert(f != cc);
                        if k < fs1.len() - 1 {
                            assert(fs1[k + 1] == fs0[k]);
                        }
                    }
                }
                assert forall|k1: int, k2: int| 0 <= k1 < k2 < fs1.len() implies #[trigger] fs1[k1]
                    != #[trigger] fs1[k2] by {
                    if k1 == 0 {
                        assert(fs1[k2] == fs0[k2 - 1]);
                        assert(is_free(v0, fs0[k2 - 1] as int));
                    } else {
                        assert(fs1[k1] == fs0[k1 - 1] && fs1[k2] == fs0[k2 - 1]);
                    }
                }
                assert forall|j: int| #[trigger] is_free(v1, j) implies fs1.contains(j as u32) by {
                    if j == cc {
                        assert(fs1[0] == c);
                    } else {
                        assert(is_free(v0, j));
                        let k = choose|k: int| 0 <= k < fs0.len() && #[trigger] fs0[k] == j as u32;
                        assert(fs1[k + 1] == j as u32);
                    }
                }
            }
        }
        match e {
            Element::Occupied { value, .. } => value,
            Element::Free { .. } => vstd::pervasive::unreached(),
        }
    }

    /// Removes and releases every child of the occupied slot `i`, depth
    /// first: each child's own subtree is torn down before the child's slot
    /// goes back to the free list.
    fn drain_children(&mut self, i: u32, Ghost(ex): Ghost<Set<int>>)
        requires
            old(self).wf_ex(ex),
            is_occupied(old(self)@, i as int),
        ensures
            final(self).wf_ex(ex),
            is_occupied(final(self)@, i as int),
            value_at(final(self)@, i as int) == value_at(old(self)@, i as int),
            parent_at(final(self)@, i as int) == parent_at(old(self)@, i as int),
            kids_at(final(self)@, i as int) == Seq::<u32>::empty(),
            num_slots(final(self)@) == num_slots(old(self)@),
            forall|j: int|
                0 <= j < num_slots(old(self)@) && j != i as int && !subtree_set(
                    old(self)@,
                    i as int,
                ).contains(j) ==> final(self)@.slots[j] == old(self)@.slots[j],
            forall|j: int|
                subtree_set(old(self)@, i as int).contains(j) && j != i as int ==> is_free(
                    final(self)@,
                    j,
                ),
            forall|j: int| is_occupied(final(self)@, j) ==> is_occupied(old(self)@, j),
            final(self).depth == old(self).depth,
            final(self).dbound == old(self).dbound,
        decreases old(self).dbound@ - old(self).depth@[i as int], 0int,
    {
        let ghost v0 = self@;
        let ghost d0 = self.depth@;
        let ghost db0 = self.dbound@;
        let ghost kk = kids_at(v0, i as int);
        let ghost mut m: int = 0;
        proof {
            assert(subtree_set(v0, i as int).contains(i as int)) by {
                crate::model::lemma_subtree_self(v0, ex, i as int);
            }
        }
        while self.child_count_at(i) > 0
            invariant
                self.wf_ex(ex),
                is_occupied(self@, i as int),
                0 <= m <= kk.len(),
                kids_at(self@, i as int) == kk.skip(m),
                value_at(self@, i as int) == value_at(v0, i as int),
                parent_at(self@, i as int) == parent_at(v0, i as int),
                num_slots(self@) == num_slots(v0),
                inv_ex(v0, ex),
                depth_ok(v0, d0, db0),
                is_occupied(v0, i as int),
                kk == kids_at(v0, i as int),
                subtree_set(v0, i as int).contains(i as int),
                self.depth@ == d0,
                self.dbound@ == db0,
                d0 == old(self).depth@,
                db0 == old(self).dbound@,
                forall|j: int|
                    0 <= j < num_slots(v0) && j != i as int && !subtree_set(
                        v0,
                        i as int,
                    ).contains(j) ==> self@.slots[j] == v0.slots[j],
                forall|k: int, j: int|
                    m <= k < kk.len() && subtree_set(v0, #[trigger] kk[k] as int).contains(j)
                        ==> #[trigger] self@.slots[j] == v0.slots[j],
                forall|k: int, j: int|
                    0 <= k < m && #[trigger] subtree_set(v0, kk[k] as int).contains(j)
                        ==> is_free(self@, j),
                forall|j: int| is_occupied(self@, j) ==> is_occupied(v0, j),
            decreases kk.len() - m,
        {
            let ghost v_cur = self@;
            proof {
                assert(kids_at(v_cur, i as int).len() > 0);
                assert(kk.skip(m)[0] == kk[m]);
            }
            let c2 = self.remove_child_entry(i, 0);
            proof {
                assert(c2 == kk.skip(m)[0] && kk.skip(m)[0] == kk[m]);
                assert(self@ == crate::model::detach_view(v_cur, i, 0)) by {
                    assert(self@.slots =~= crate::model::detach_view(v_cur, i, 0).slots);
                }
                crate::model::lemma_detach(v_cur, ex, d0, db0, self.free_order@, i, 0, c2);
            }
            let ghost ex2 = ex.insert(c2 as int);
            let _ = self.release_subtree(c2, Ghost(ex2));
            proof {
                assert(ex2.remove(c2 as int) =~= ex);
                crate::model::lemma_drain_step(v0, ex, d0, db0, i, kk, m, v_cur, self@);
                m = m + 1;
            }
        }
        proof {
            let v1 = self@;
            assert(kk.skip(m).len() == 0);
            assert(m == kk.len());
            assert forall|j: int|
                subtree_set(v0, i as int).contains(j) && j != i as int implies is_free(v1, j) by {
                crate::model::lemma_subtree_decompose(v0, ex, i as int, j);
                let k = choose|k: int|
                    0 <= k < kids_at(v0, i as int).len() && subtree_set(
                        v0,
                        #[trigger] kids_at(v0, i as int)[k] as int,
                    ).contains(j);
                assert(subtree_set(v0, kk[k] as int).contains(j));
            }
        }
    }

    /// Releases the detached slot `c` together with its whole subtree: all
    /// descendants are freed depth first, then `c` itself, whose value is
    /// returned. Afterwards `c` heads the free list.
    fn release_subtree(&mut self, c: u32, Ghost(ex): Ghost<Set<int>>) -> (r: T)
        requires
            old(self).wf_ex(ex),
            ex.contains(c as int),
        ensures
            final(self).wf_ex(ex.remove(c as int)),
            r == value_at(old(self)@, c as int),
            num_slots(final(self)@) == num_slots(old(self)@),
            forall|j: int|
                0 <= j < num_slots(old(self)@) && !subtree_set(old(self)@, c as int).contains(j)
                    ==> final(self)@.slots[j] == old(self)@.slots[j],
            forall|j: int| subtree_set(old(self)@, c as int).contains(j) ==> is_free(final(self)@, j),
            forall|j: int| is_occupied(final(self)@, j) ==> is_occupied(old(self)@, j),
            final(self)@.free_head == c,
            final(self).depth == old(self).depth,
            final(self).dbound == old(self).dbound,
        decreases old(self).dbound@ - old(self).depth@[c as int], 1int,
    {
        let ghost v0 = self@;
        proof {
            assert(is_occupied(v0, c as int));
            crate::model::lemma_subtree_self(v0, ex, c as int);
        }
        self.drain_children(c, Ghost(ex));
        let ghost v_mid = self@;
        let r = self.free_slot(c, Ghost(ex));
        proof {
            let v1 = self@;
            assert forall|j: int|
                0 <= j < num_slots(v0) && !subtree_set(v0, c as int).contains(j) implies v1.slots[j]
                == v0.slots[j] by {
                assert(j != c as int);
                assert(v_mid.slots[j] == v0.slots[j]);
                assert(v1.slots[j] == v_mid.slots[j]);
            }
            assert forall|j: int| subtree_set(v0, c as int).contains(j) implies is_free(
                v1,
                j,
            ) by {
                if j == c as int {
                    assert(is_free(v1, j));
                } else {
                    assert(is_free(v_mid, j));
                    assert(v1.slots[j] == v_mid.slots[j]);
                }
            }
        }
        r
    }

    /// Removes the child at position `pos` of the child list of slot `i`.
    /// The removed child's whole subtree is released depth first, no slot
    /// freed before its children; the removed child's value is returned and
    /// its slot becomes the head of the free list.
    pub(crate) fn remove_child_at(&mut self, i: u32, pos: usize) -> (r: T)
        requires
            old(self).wf(),
            is_occupied(old(self)@, i as int),
            pos < kids_at(old(self)@, i as int).len(),
        ensures
            final(self).wf(),
            r == value_at(old(self)@, kids_at(old(self)@, i as int)[pos as int] as int),
            is_occupied(final(self)@, i as int),
            kids_at(final(self)@, i as int) == kids_at(old(self)@, i as int).remove(pos as int),
            value_at(final(self)@, i as int) == value_at(old(self)@, i as int),
            parent_at(final(self)@, i as int) == parent_at(old(self)@, i as int),
            num_slots(final(self)@) == num_slots(old(self)@),
            forall|j: int|
                0 <= j < num_slots(old(self)@) && j != i as int && !subtree_set(
                    old(self)@,
                    kids_at(old(self)@, i as int)[pos as int] as int,
                ).contains(j) ==> final(self)@.slots[j] == old(self)@.slots[j],
            forall|j: int|
                subtree_set(
                    old(self)@,
                    kids_at(old(self)@, i as int)[pos as int] as int,
                ).contains(j) ==> is_free(final(self)@, j),
            forall|j: int| is_occupied(final(self)@, j) ==> is_occupied(old(self)@, j),
            final(self)@.free_head == kids_at(old(self)@, i as int)[pos as int],
    {
        let ghost v0 = self@;
        let ghost d0 = self.depth@;
        let ghost db0 = self.dbound@;
        let c = self.remove_child_entry(i, pos);
        proof {
            assert(self@ == crate::model::detach_view(v0, i, pos as int)) by {
                assert(self@.slots =~= crate::model::detach_view(v0, i, pos as int).slots);
            }
            crate::model::lemma_detach(
                v0,
                Set::empty(),
                d0,
                db0,
                self.free_order@,
                i,
                pos as int,
                c,
            );
            assert(Set::empty().insert(c as int).contains(c as int));
            crate::model::lemma_subtree_members_occupied(v0, Set::empty(), c as int);
            assert forall|j: int| #[trigger] subtree_set(v0, c as int).contains(j) implies 0 <= j
                < num_slots(self@) && self@.slots[j] == v0.slots[j] by {
                assert(is_occupied(v0, j));
                crate::model::lemma_subtree_member(v0, Set::empty(), d0, db0, c as int, j);
                assert(j != i as int);
            }
            crate::model::lemma_subtree_frame(v0, self@, Set::empty(), c as int);
        }
        let ghost v_det = self@;
        let r = self.release_subtree(c, Ghost(Set::empty().insert(c as int)));
        proof {
            assert(Set::empty().insert(c as int).remove(c as int) =~= Set::<int>::empty());
            let v1 = self@;
            let st = subtree_set(v0, c as int);
            assert(subtree_set(v_det, c as int) == st);
            assert(!st.contains(i as int)) by {
                if st.contains(i as int) {
                    crate::model::lemma_subtree_member(
                        v0,
                        Set::empty(),
                        d0,
                        db0,
                        c as int,
                        i as int,
                    );
                }
            }
            assert(kids_at(v1, i as int) == kids_at(v0, i as int).remove(pos as int));
            assert forall|j: int|
                0 <= j < num_slots(v0) && j != i as int && !st.contains(j) implies v1.slots[j]
                == v0.slots[j] by {
                assert(v1.slots[j] == v_det.slots[j]);
            }
        }
        r
    }

    /// Builds one new child of `parent` carrying the whole shape `s`: the
    /// shape's root value becomes the child, and the shape's children become
    /// the child's subtree.
    #[verifier::rlimit(60)]
    fn build_node(&mut self, parent: u32, s: SubTree<T>) -> (c: u32)
        requires
            old(self).wf(),
            is_occupied(old(self)@, parent as int),
            num_slots(old(self)@) + preorder(s).len() <= u32::MAX as int,
        ensures
            final(self).wf(),
            shape_at(final(self)@, c as int, s),
            is_occupied(final(self)@, parent as int),
            kids_at(final(self)@, parent as int) == kids_at(old(self)@, parent as int).push(c),
            value_at(final(self)@, parent as int) == value_at(old(self)@, parent as int),
            parent_at(final(self)@, parent as int) == parent_at(old(self)@, parent as int),
            parent_at(final(self)@, c as int) == parent,
            is_occupied(final(self)@, c as int),
            c as int != 0,
            forall|j: int|
                is_occupied(old(self)@, j) && j != parent as int ==> final(self)@.slots[j] == old(
                    self,
                )@.slots[j],
            forall|j: int| is_occupied(old(self)@, j) ==> is_occupied(final(self)@, j),
            forall|j: int| is_free(final(self)@, j) ==> is_free(old(self)@, j),
            num_slots(old(self)@) <= num_slots(final(self)@),
            num_slots(final(self)@) <= num_slots(old(self)@) + preorder(s).len(),
        decreases s,
    {
        proof {
            assert(preorder(s).len() >= 1);
        }
        let SubTree { value, children } = s;
        let ghost v0 = self@;
        let c = self.add_child_at(parent, value);
        let ghost v1 = self@;
        proof {
            assert(preorder(s) == seq![s.value] + preorder_all(s.children@));
            assert(c as int != parent as int);
            assert(c as int != 0) by {
                assert(is_occupied(v0, 0));
            }
        }
        self.build_subs(c, children);
        proof {
            let v2 = self@;
            assert(value_at(v2, c as int) == value && parent_at(v2, c as int) == parent);
            assert(kids_at(v2, c as int).len() == s.children@.len()) by {
                assert(kids_at(v1, c as int).len() == 0);
            }
            assert forall|k: int| 0 <= k < s.children@.len() implies shape_at(
                v2,
                kids_at(v2, c as int)[k] as int,
                #[trigger] s.children@[k],
            ) by {
                assert(kids_at(v2, c as int)[0 + k] == kids_at(v2, c as int)[k]);
            }
            crate::shape::lemma_shape_assemble(v2, c as int, s);
            assert(parent as int != c as int);
            assert(kids_at(v2, parent as int) == kids_at(v0, parent as int).push(c));
            assert forall|j: int|
                is_occupied(v0, j) && j != parent as int implies v2.slots[j] == v0.slots[j] by {
                assert(j != c as int);
                assert(v1.slots[j] == v0.slots[j]);
                assert(is_occupied(v1, j));
            }
        }
        c
    }

    /// Builds each shape of `subs` as one further child of `parent`, in
    /// order: the bulk-build behind `create_sub_tree`, layered on the single
    /// allocation path.
    pub(crate) fn build_subs(&mut self, parent: u32, subs: Vec<SubTree<T>>)
        requires
            old(self).wf(),
            is_occupied(old(self)@, parent as int),
            num_slots(old(self)@) + preorder_all(subs@).len() <= u32::MAX as int,
        ensures
            final(self).wf(),
            is_occupied(final(self)@, parent as int),
            value_at(final(self)@, parent as int) == value_at(old(self)@, parent as int),
            parent_at(final(self)@, parent as int) == parent_at(old(self)@, parent as int),
            kids_at(final(self)@, parent as int).len() == kids_at(
                old(self)@,
                parent as int,
            ).len() + subs@.len(),
            kids_at(final(self)@, parent as int).take(
                kids_at(old(self)@, parent as int).len() as int,
            ) == kids_at(old(self)@, parent as int),
            forall|k: int|
                0 <= k < subs@.len() ==> shape_at(
                    final(self)@,
                    kids_at(final(self)@, parent as int)[kids_at(
                        old(self)@,
                        parent as int,
                    ).len() + k] as int,
                    #[trigger] subs@[k],
                ),
            forall|j: int|
                is_occupied(old(self)@, j) && j != parent as int ==> final(self)@.slots[j] == old(
                    self,
                )@.slots[j],
            forall|j: int| is_occupied(old(self)@, j) ==> is_occupied(final(self)@, j),
            forall|j: int| is_free(final(self)@, j) ==> is_free(old(self)@, j),
            num_slots(old(self)@) <= num_slots(final(self)@),
            num_slots(final(self)@) <= num_slots(old(self)@) + preorder_all(subs@).len(),
        decreases subs@,
    {
        let mut subs = subs;
        if subs.len() == 0 {
            proof {
                assert(kids_at(self@, parent as int).take(
                    kids_at(self@, parent as int).len() as int,
                ) =~= kids_at(self@, parent as int));
            }
            return ;
        }
        let ghost v0 = self@;
        let ghost subs0 = subs@;
        let ghost kk0 = kids_at(v0, parent as int);
        let s = subs.remove(0);
        proof {
            assert(subs@ =~= subs0.drop_first());
            assert(preorder_all(subs0) == preorder(subs0[0]) + preorder_all(subs0.drop_first()));
        }
        let c = self.build_node(parent, s);
        let ghost v1 = self@;
        let ghost d1 = self.depth@;
        let ghost db1 = self.dbound@;
        self.build_subs(parent, subs);
        proof {
            let v2 = self@;
            // The first-built subtree lies strictly below `parent`, so the
            // later builds leave it untouched.
            assert(is_occupied(v1, c as int) && parent_at(v1, c as int) == parent);
            assert(d1[c as int] == d1[parent as int] + 1);
            crate::model::lemma_subtree_members_occupied(v1, Set::empty(), c as int);
            assert forall|j: int| #[trigger] subtree_set(v1, c as int).contains(j) implies 0 <= j
                < num_slots(v2) && v2.slots[j] == v1.slots[j] by {
                assert(is_occupied(v1, j));
                crate::model::lemma_subtree_member(v1, Set::empty(), d1, db1, c as int, j);
                assert(j != parent as int);
            }
            crate::shape::lemma_shape_frame(v1, v2, Set::empty(), c as int, s);
            // Stitch the child lists together.
            let kk1 = kids_at(v1, parent as int);
            let kk2 = kids_at(v2, parent as int);
            assert(kk1 == kk0.push(c));
            assert(kk2.take(kk1.len() as int) == kk1);
            assert(kk2.len() == kk0.len() + subs0.len());
            assert(kk2.take(kk0.len() as int) =~= kk0) by {
                assert forall|m: int| 0 <= m < kk0.len() implies kk2[m] == kk0[m] by {
                    assert(kk2.take(kk1.len() as int)[m] == kk2[m]);
                    assert(kk1[m] == kk0[m]);
                }
            }
            assert forall|k: int| 0 <= k < subs0.len() implies shape_at(
                v2,
                kk2[kk0.len() + k] as int,
                #[trigger] subs0[k],
            ) by {
                if k == 0 {
                    assert(kk2[kk0.len() as int] == kk1[kk0.len() as int]) by {
                        assert(kk2.take(kk1.len() as int)[kk0.len() as int] == kk2[kk0.len() as int]);
                    }
                    assert(kk1[kk0.len() as int] == c);
                    assert(subs0[0] == s);
                } else {
                    assert(subs0[k] == subs0.drop_first()[k - 1]);
                    assert(shape_at(v2, kk2[kk1.len() + (k - 1)] as int, subs0.drop_first()[k - 1]));
                    assert(kk1.len() + (k - 1) == kk0.len() + k);
                }
            }
        }
    }

    /// Removes and releases every child of the occupied slot `i` in one
    /// pass, draining its child list to empty.
    pub(crate) fn clear_children_at(&mut self, i: u32)
        requires
            old(self).wf(),
            is_occupied(old(self)@, i as int),
        ensures
            final(self).wf(),
            is_occupied(final(self)@, i as int),
            kids_at(final(self)@, i as int) == Seq::<u32>::empty(),
            value_at(final(self)@, i as int) == value_at(old(self)@, i as int),
            parent_at(final(self)@, i as int) == parent_at(old(self)@, i as int),
            num_slots(final(self)@) == num_slots(old(self)@),
            forall|j: int|
                0 <= j < num_slots(old(self)@) && j != i as int && !subtree_set(
                    old(self)@,
                    i as int,
                ).contains(j) ==> final(self)@.slots[j] == old(self)@.slots[j],
            forall|j: int|
                subtree_set(old(self)@, i as int).contains(j) && j != i as int ==> is_free(
                    final(self)@,
                    j,
                ),
            forall|j: int| is_occupied(final(self)@, j) ==> is_occupied(old(self)@, j),
    {
        self.drain_children(i, Ghost(Set::empty()));
    }
}

impl<T: Copy> Tree<T> {
    /// Reads the whole subtree under the occupied slot `i` back as a shape,
    /// by depth-first child iteration.
    pub(crate) fn read_shape_at(&self, i: u32) -> (s: SubTree<T>)
        requires
            self.wf(),
            is_occupied(self@, i as int),
        ensures
            shape_at(self@, i as int, s),
    {
        self.read_shape_core(i)
    }

    fn read_shape_core(&self, i: u32) -> (s: SubTree<T>)
        requires
            self.wf(),
            is_occupied(self@, i as int),
        ensures
            shape_at(self@, i as int, s),
        decreases self.dbound@ - self.depth@[i as int],
    {
        let value = *self.value_ref(i);
        let n = self.child_count_at(i);
        let mut children: Vec<SubTree<T>> = Vec::new();
        let mut k: usize = 0;
        while k < n
            invariant
                self.wf(),
                is_occupied(self@, i as int),
                n == kids_at(self@, i as int).len(),
                k <= n,
                children@.len() == k,
                forall|m: int|
                    0 <= m < k ==> shape_at(
                        self@,
                        kids_at(self@, i as int)[m] as int,
                        #[trigger] children@[m],
                    ),
            decreases n - k,
        {
            let c = self.child_at(i, k);
            proof {
                assert(is_occupied(self@, c as int) && parent_at(self@, c as int) == i && c as int
                    != 0);
                assert(self.depth@[c as int] == self.depth@[i as int] + 1);
            }
            let sub = self.read_shape_core(c);
            let ghost ch0 = children@;
            children.push(sub);
            proof {
                assert(forall|m: int| 0 <= m < k ==> children@[m] == ch0[m]);
            }
            k = k + 1;
        }
        let s = SubTree { value, children };
        proof {
            assert(s.children@.len() == kids_at(self@, i as int).len());
            crate::shape::lemma_shape_assemble(self@, i as int, s);
        }
        s
    }
}

} // verus!
