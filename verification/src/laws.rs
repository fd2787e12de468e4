//! General laws of the arena, stated once for every well-formed tree.

use vstd::prelude::*;

use crate::model::TreeView;
use crate::model::num_slots;
use crate::model::occupied_set;
use crate::model::subtree_set;
use crate::model::child_values;
use crate::model::depth_ok;
use crate::model::lemma_occupied_is_live;
use crate::shape::SubTree;
use crate::shape::shape_at;
use crate::shape::preorder;
use crate::shape::lemma_shape_functional;
use crate::tree::Tree;

verus! {

/// Conservation: in every well-formed tree, the occupied slots are exactly
/// the slots reachable from the root along child links, so the arena's
/// occupied-slot count equals the number of values logically present in the
/// tree — the root plus all live descendants. No slot leaks and no freed
/// slot stays reachable, whatever sequence of additions and removals led
/// here.
pub proof fn lemma_occupied_count_is_live_count<T>(t: &Tree<T>)
    requires
        t.wf(),
    ensures
        occupied_set(t@) =~= subtree_set(t@, 0),
        occupied_set(t@).len() == subtree_set(t@, 0).len(),
{
    t.lemma_wf_model();
    let (d, db): (Map<int, nat>, nat) = choose|d: Map<int, nat>, db: nat|
        depth_ok(t@, d, db);
    lemma_occupied_is_live(t@, d, db);
}

/// Round trip: a subtree built to a given shape, read back by depth-first
/// child iteration, reproduces the same values in the same order. The shape
/// placed by `create_sub_tree` and the shape recovered by `read_shape` match
/// the same slot, and any two shapes matching one slot flatten alike.
pub proof fn lemma_build_read_round_trip<T>(
    v: TreeView<T>,
    i: int,
    built: SubTree<T>,
    read: SubTree<T>,
)
    requires
        shape_at(v, i, built),
        shape_at(v, i, read),
    ensures
        preorder(read) == preorder(built),
{
    lemma_shape_functional(v, i, built, read);
}

/// Idempotence of structure reads: when no mutation happens between them,
/// two reads of a node's child values see identical sequences, because the
/// read is a function of the tree's state alone.
pub proof fn lemma_structure_read_idempotent<T>(v: TreeView<T>, i: int, r1: Seq<T>, r2: Seq<T>)
    requires
        r1 == child_values(v, i),
        r2 == child_values(v, i),
    ensures
        r1 == r2,
{
}

/// Freed slots are reused last-in first-out: `remove_child` leaves the
/// removed child's own slot at the head of the free list, and `add_child`
/// allocates from that head, so adding right after removing hands the new
/// child the slot the removal freed last.
pub proof fn lemma_freed_slot_reused<T>(v1: TreeView<T>, removed: u32, added: int)
    requires
        v1.free_head == removed,
        removed != 0,
        added == if v1.free_head == 0 {
            num_slots(v1)
        } else {
            v1.free_head as int
        },
    ensures
        added == removed as int,
{
}

/// With no slot free, `add_child` appends instead: the new child's index is
/// one the arena never used before, different from every existing slot.
pub proof fn lemma_fresh_slot_when_none_free<T>(v1: TreeView<T>, added: int)
    requires
        v1.free_head == 0,
        added == if v1.free_head == 0 {
            num_slots(v1)
        } else {
            v1.free_head as int
        },
    ensures
        added >= num_slots(v1),
        forall|j: int| crate::model::is_occupied(v1, j) || crate::model::is_free(v1, j) ==> added != j,
{
}

} // verus!
