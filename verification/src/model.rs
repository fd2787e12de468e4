//! The mathematical model of the arena: slot views, well-formedness
//! conditions, and reachability through child links.

use vstd::prelude::*;

verus! {

/// The abstract state of one slot.
pub enum ElemView<T> {
    /// A slot holding a live node: its value, the index of its parent
    /// (the root is its own parent), and its children in order.
    Occupied { value: T, parent: u32, childs: Seq<u32> },
    /// A recycled slot: the index of the next free slot, 0 at the list's end.
    Free { next: u32 },
}

/// The abstract state of the whole arena: every slot plus the head of the
/// free list (0 when no slot is free).
pub struct TreeView<T> {
    pub slots: Seq<ElemView<T>>,
    pub free_head: u32,
}

pub open spec fn num_slots<T>(v: TreeView<T>) -> int {
    v.slots.len() as int
}

pub open spec fn is_occupied<T>(v: TreeView<T>, i: int) -> bool {
    0 <= i < num_slots(v) && v.slots[i] is Occupied
}

pub open spec fn is_free<T>(v: TreeView<T>, i: int) -> bool {
    0 <= i < num_slots(v) && v.slots[i] is Free
}

pub open spec fn value_at<T>(v: TreeView<T>, i: int) -> T {
    match v.slots[i] {
        ElemView::Occupied { value, .. } => value,
        ElemView::Free { .. } => vstd::pervasive::arbitrary(),
    }
}

pub open spec fn parent_at<T>(v: TreeView<T>, i: int) -> u32 {
    match v.slots[i] {
        ElemView::Occupied { parent, .. } => parent,
        ElemView::Free { .. } => vstd::pervasive::arbitrary(),
    }
}

pub open spec fn kids_at<T>(v: TreeView<T>, i: int) -> Seq<u32> {
    match v.slots[i] {
        ElemView::Occupied { childs, .. } => childs,
        ElemView::Free { .. } => vstd::pervasive::arbitrary(),
    }
}

pub open spec fn free_next_at<T>(v: TreeView<T>, i: int) -> u32 {
    match v.slots[i] {
        ElemView::Occupied { .. } => vstd::pervasive::arbitrary(),
        ElemView::Free { next } => next,
    }
}

/// No occupied slot lists `c` among its children.
pub open spec fn detached<T>(v: TreeView<T>, c: int) -> bool {
    forall|i: int, k: int|
        is_occupied(v, i) && 0 <= k < kids_at(v, i).len() ==> #[trigger] kids_at(v, i)[k] != c
}

/// Well-formedness of the slot structure, with a set `ex` of slots exempted
/// from the attachment condition: a slot in `ex` is occupied but stands in no
/// child list (it has been detached and awaits release). The arena as users
/// see it always satisfies `inv`, which is `inv_ex` with no exemptions.
pub open spec fn inv_ex<T>(v: TreeView<T>, ex: Set<int>) -> bool {
    &&& 1 <= num_slots(v) <= u32::MAX as int
    &&& is_occupied(v, 0)
    &&& parent_at(v, 0) == 0
    // Every listed child is a valid occupied non-root slot naming its parent back.
    &&& forall|i: int, k: int|
        is_occupied(v, i) && 0 <= k < kids_at(v, i).len() ==> {
            let c = #[trigger] kids_at(v, i)[k] as int;
            0 < c < num_slots(v) && is_occupied(v, c) && parent_at(v, c) == i
        }
    // Child lists hold no duplicates.
    &&& forall|i: int, k1: int, k2: int|
        is_occupied(v, i) && 0 <= k1 < k2 < kids_at(v, i).len()
            ==> #[trigger] kids_at(v, i)[k1] != #[trigger] kids_at(v, i)[k2]
    // A child list never grows beyond the slot count.
    &&& forall|i: int| #[trigger] is_occupied(v, i) ==> kids_at(v, i).len() < num_slots(v)
    // Every occupied non-root slot outside `ex` stands in its parent's list.
    &&& forall|i: int|
        is_occupied(v, i) && i != 0 && !ex.contains(i) ==> {
            let p = #[trigger] parent_at(v, i) as int;
            is_occupied(v, p) && kids_at(v, p).contains(i as u32)
        }
    // Exempted slots are occupied non-root slots listed nowhere.
    &&& forall|c: int| #[trigger] ex.contains(c) ==> 0 < c < num_slots(v) && is_occupied(v, c) && detached(v, c)
}

/// Well-formedness of the slot structure as users observe it.
pub open spec fn inv<T>(v: TreeView<T>) -> bool {
    inv_ex(v, Set::empty())
}

/// `d` assigns each occupied slot a depth below `db`: 0 for the root, one
/// more than the parent's depth for every other node. Its existence rules
/// out cycles among the parent and child links.
pub open spec fn depth_ok<T>(v: TreeView<T>, d: Map<int, nat>, db: nat) -> bool {
    &&& forall|i: int| #[trigger] is_occupied(v, i) ==> d.dom().contains(i) && d[i] < db
    &&& d[0] == 0
    &&& forall|i: int| #[trigger] is_occupied(v, i) && i != 0 ==> d[i] == d[parent_at(v, i) as int] + 1
}

/// `fs` lists the free slots in chain order: the head first, each entry's
/// next link naming the entry after it, 0 closing the chain.
pub open spec fn free_ok<T>(v: TreeView<T>, fs: Seq<u32>) -> bool {
    &&& v.free_head == if fs.len() == 0 { 0u32 } else { fs[0] }
    &&& forall|k: int| 0 <= k < fs.len() ==> {
        let f = #[trigger] fs[k] as int;
        0 < f < num_slots(v) && is_free(v, f)
            && free_next_at(v, f) == if k + 1 < fs.len() { fs[k + 1] } else { 0u32 }
    }
    &&& forall|k1: int, k2: int| 0 <= k1 < k2 < fs.len() ==> #[trigger] fs[k1] != #[trigger] fs[k2]
    &&& forall|i: int| #[trigger] is_free(v, i) ==> fs.contains(i as u32)
}

/// A walk along child links: each entry after the first is listed among the
/// children of the entry before it.
#[verifier::opaque]
pub open spec fn is_child_path<T>(v: TreeView<T>, p: Seq<u32>) -> bool {
    forall|k: int| 0 <= k < p.len() - 1 ==> {
        &&& is_occupied(v, #[trigger] p[k] as int)
        &&& kids_at(v, p[k] as int).contains(p[k + 1])
    }
}

/// The slots reachable from `r` along child links, `r` itself included.
#[verifier::opaque]
pub open spec fn subtree_set<T>(v: TreeView<T>, r: int) -> Set<int> {
    Set::new(
        |j: int|
            exists|p: Seq<u32>|
                is_child_path(v, p) && p.len() >= 1 && #[trigger] p[0] as int == r
                    && p.last() as int == j,
    )
}

/// All occupied slots.
pub open spec fn occupied_set<T>(v: TreeView<T>) -> Set<int> {
    Set::new(|j: int| is_occupied(v, j))
}

/// Under well-formedness, every slot on a child path from an occupied slot
/// is occupied.
pub proof fn lemma_path_occupied<T>(v: TreeView<T>, ex: Set<int>, p: Seq<u32>)
    requires
        inv_ex(v, ex),
        is_child_path(v, p),
        p.len() >= 1,
        is_occupied(v, p[0] as int),
    ensures
        forall|k: int| 0 <= k < p.len() ==> is_occupied(v, #[trigger] p[k] as int),
{
    reveal(crate::model::is_child_path);
    reveal(crate::model::subtree_set);
    assert forall|k: int| 0 <= k < p.len() implies is_occupied(v, p[k] as int) by {
        if k < p.len() - 1 {
            assert(is_occupied(v, p[k] as int));
        } else if k == 0 {
        } else {
            assert(is_occupied(v, p[k - 1] as int) && kids_at(v, p[k - 1] as int).contains(p[k]));
            let m = choose|m: int|
                0 <= m < kids_at(v, p[k - 1] as int).len() && #[trigger] kids_at(v, p[k - 1] as int)[m] == p[k];
            assert(is_occupied(v, kids_at(v, p[k - 1] as int)[m] as int));
        }
    }
}

/// Along a child path, the recorded depth grows by exactly one per step, so
/// the path's end lies deeper than its start by the path's length.
pub proof fn lemma_path_depth<T>(
    v: TreeView<T>,
    ex: Set<int>,
    d: Map<int, nat>,
    db: nat,
    p: Seq<u32>,
)
    requires
        inv_ex(v, ex),
        depth_ok(v, d, db),
        is_child_path(v, p),
        p.len() >= 1,
        is_occupied(v, p[0] as int),
    ensures
        d[p.last() as int] == d[p[0] as int] + p.len() - 1,
    decreases p.len(),
{
    reveal(crate::model::is_child_path);
    reveal(crate::model::subtree_set);
    if p.len() > 1 {
        let q = p.drop_last();
        assert(is_child_path(v, q)) by {
            assert(forall|k: int| 0 <= k < q.len() ==> q[k] == p[k]);
        }
        lemma_path_depth(v, ex, d, db, q);
        let last = p[p.len() - 1];
        let prev = p[p.len() - 2];
        assert(q.last() == prev && q[0] == p[0]);
        assert(is_occupied(v, prev as int) && kids_at(v, prev as int).contains(last));
        let m = choose|m: int|
            0 <= m < kids_at(v, prev as int).len() && #[trigger] kids_at(v, prev as int)[m] == last;
        assert(parent_at(v, kids_at(v, prev as int)[m] as int) == prev as int);
        assert(kids_at(v, prev as int)[m] as int != 0);
        assert(d[last as int] == d[prev as int] + 1);
    }
}

/// An occupied slot belongs to its own subtree.
pub proof fn lemma_subtree_self<T>(v: TreeView<T>, ex: Set<int>, r: int)
    requires
        inv_ex(v, ex),
        is_occupied(v, r),
    ensures
        subtree_set(v, r).contains(r),
{
    reveal(crate::model::is_child_path);
    reveal(crate::model::subtree_set);
    let w = seq![r as u32];
    assert(is_child_path(v, w) && w.len() >= 1 && w[0] as int == r && w.last() as int == r);
}

/// Every member of the subtree under an occupied slot is occupied and lies
/// at the same depth or deeper; only the slot itself lies at its own depth.
pub proof fn lemma_subtree_member<T>(
    v: TreeView<T>,
    ex: Set<int>,
    d: Map<int, nat>,
    db: nat,
    r: int,
    j: int,
)
    requires
        inv_ex(v, ex),
        depth_ok(v, d, db),
        is_occupied(v, r),
        subtree_set(v, r).contains(j),
    ensures
        is_occupied(v, j),
        d[j] >= d[r],
        d[j] == d[r] ==> j == r,
{
    reveal(crate::model::is_child_path);
    reveal(crate::model::subtree_set);
    let p = choose|p: Seq<u32>|
        is_child_path(v, p) && p.len() >= 1 && #[trigger] p[0] as int == r && p.last() as int == j;
    lemma_path_occupied(v, ex, p);
    lemma_path_depth(v, ex, d, db, p);
    assert(p.last() == p[p.len() - 1]);
    assert(d[j] == d[r] + (p.len() - 1));
}

/// A member of a child's subtree is a member of the parent's subtree.
pub proof fn lemma_subtree_step<T>(v: TreeView<T>, ex: Set<int>, r: int, c: int, j: int)
    requires
        inv_ex(v, ex),
        is_occupied(v, r),
        kids_at(v, r).contains(c as u32),
        0 <= c,
        subtree_set(v, c).contains(j),
    ensures
        subtree_set(v, r).contains(j),
{
    reveal(crate::model::is_child_path);
    reveal(crate::model::subtree_set);
    let p = choose|p: Seq<u32>|
        is_child_path(v, p) && p.len() >= 1 && #[trigger] p[0] as int == c && p.last() as int == j;
    let q = seq![r as u32] + p;
    assert(q[0] as int == r);
    assert(q.last() == p.last());
    assert(is_child_path(v, q)) by {
        assert forall|k: int| 0 <= k < q.len() - 1 implies is_occupied(v, #[trigger] q[k] as int)
            && kids_at(v, q[k] as int).contains(q[k + 1]) by {
            if k == 0 {
                assert(q[1] == p[0]);
            } else {
                assert(q[k] == p[k - 1] && q[k + 1] == p[k]);
            }
        }
    }
}

/// A strict member of a subtree lies in the subtree of one of the children.
pub proof fn lemma_subtree_decompose<T>(v: TreeView<T>, ex: Set<int>, r: int, j: int)
    requires
        inv_ex(v, ex),
        is_occupied(v, r),
        subtree_set(v, r).contains(j),
        j != r,
    ensures
        exists|k: int|
            0 <= k < kids_at(v, r).len() && subtree_set(
                v,
                #[trigger] kids_at(v, r)[k] as int,
            ).contains(j),
{
    reveal(crate::model::is_child_path);
    reveal(crate::model::subtree_set);
    let p = choose|p: Seq<u32>|
        is_child_path(v, p) && p.len() >= 1 && #[trigger] p[0] as int == r && p.last() as int == j;
    assert(p.len() >= 2);
    let q = p.drop_first();
    assert(is_child_path(v, q)) by {
        assert(forall|k: int| 0 <= k < q.len() ==> q[k] == p[k + 1]);
    }
    assert(kids_at(v, r).contains(p[1]));
    let k = choose|k: int| 0 <= k < kids_at(v, r).len() && #[trigger] kids_at(v, r)[k] == p[1];
    assert(q[0] == p[1] && q.last() == p.last());
    assert(subtree_set(v, kids_at(v, r)[k] as int).contains(j));
}

/// Two equally long child paths ending at the same slot are the same path:
/// each step backward is forced through the parent link.
pub proof fn lemma_path_determined<T>(v: TreeView<T>, ex: Set<int>, p1: Seq<u32>, p2: Seq<u32>)
    requires
        inv_ex(v, ex),
        is_child_path(v, p1),
        is_child_path(v, p2),
        p1.len() == p2.len(),
        p1.len() >= 1,
        p1.last() == p2.last(),
    ensures
        p1 == p2,
    decreases p1.len(),
{
    reveal(crate::model::is_child_path);
    reveal(crate::model::subtree_set);
    if p1.len() == 1 {
        assert(p1 =~= p2);
    } else {
        let n = p1.len();
        let last = p1.last();
        assert(kids_at(v, p1[n - 2] as int).contains(last));
        assert(kids_at(v, p2[n - 2] as int).contains(last));
        let m1 = choose|m: int|
            0 <= m < kids_at(v, p1[n - 2] as int).len() && #[trigger] kids_at(v, p1[n - 2] as int)[m] == last;
        let m2 = choose|m: int|
            0 <= m < kids_at(v, p2[n - 2] as int).len() && #[trigger] kids_at(v, p2[n - 2] as int)[m] == last;
        assert(parent_at(v, last as int) == p1[n - 2]);
        assert(parent_at(v, last as int) == p2[n - 2]);
        let q1 = p1.drop_last();
        let q2 = p2.drop_last();
        assert(is_child_path(v, q1) && is_child_path(v, q2)) by {
            assert(forall|k: int| 0 <= k < q1.len() ==> q1[k] == p1[k]);
            assert(forall|k: int| 0 <= k < q2.len() ==> q2[k] == p2[k]);
        }
        assert(q1.last() == p1[n - 2] && q2.last() == p2[n - 2]);
        lemma_path_determined(v, ex, q1, q2);
        assert(p1 =~= p2) by {
            assert(forall|k: int| 0 <= k < n - 1 ==> p1[k] == q1[k] && p2[k] == q2[k]);
        }
    }
}

/// Subtrees hanging off two different child positions share no slot.
pub proof fn lemma_sibling_subtrees_disjoint<T>(
    v: TreeView<T>,
    ex: Set<int>,
    d: Map<int, nat>,
    db: nat,
    r: int,
    k1: int,
    k2: int,
    j: int,
)
    requires
        inv_ex(v, ex),
        depth_ok(v, d, db),
        is_occupied(v, r),
        0 <= k1 < kids_at(v, r).len(),
        0 <= k2 < kids_at(v, r).len(),
        subtree_set(v, kids_at(v, r)[k1] as int).contains(j),
        subtree_set(v, kids_at(v, r)[k2] as int).contains(j),
    ensures
        k1 == k2,
{
    reveal(crate::model::is_child_path);
    reveal(crate::model::subtree_set);
    if k1 != k2 {
        let c1 = kids_at(v, r)[k1];
        let c2 = kids_at(v, r)[k2];
        assert(is_occupied(v, c1 as int) && parent_at(v, c1 as int) == r);
        assert(is_occupied(v, c2 as int) && parent_at(v, c2 as int) == r);
        assert(d[c1 as int] == d[r] + 1 && d[c2 as int] == d[r] + 1) by {
            assert(c1 as int != 0 && c2 as int != 0);
        }
        let p1 = choose|p: Seq<u32>|
            is_child_path(v, p) && p.len() >= 1 && #[trigger] p[0] == c1 && p.last() as int == j;
        let p2 = choose|p: Seq<u32>|
            is_child_path(v, p) && p.len() >= 1 && #[trigger] p[0] == c2 && p.last() as int == j;
        lemma_path_depth(v, ex, d, db, p1);
        lemma_path_depth(v, ex, d, db, p2);
        assert(d[j] == d[c1 as int] + (p1.len() - 1));
        assert(d[j] == d[c2 as int] + (p2.len() - 1));
        assert(p1.len() == p2.len());
        let q1 = seq![r as u32] + p1;
        let q2 = seq![r as u32] + p2;
        assert(is_child_path(v, q1) && is_child_path(v, q2)) by {
            assert forall|k: int|
                0 <= k < q1.len() - 1 implies is_occupied(v, #[trigger] q1[k] as int) && kids_at(
                v,
                q1[k] as int,
            ).contains(q1[k + 1]) by {
                if k == 0 {
                    assert(q1[1] == p1[0]);
                } else {
                    assert(q1[k] == p1[k - 1] && q1[k + 1] == p1[k]);
                }
            }
            assert forall|k: int|
                0 <= k < q2.len() - 1 implies is_occupied(v, #[trigger] q2[k] as int) && kids_at(
                v,
                q2[k] as int,
            ).contains(q2[k + 1]) by {
                if k == 0 {
                    assert(q2[1] == p2[0]);
                } else {
                    assert(q2[k] == p2[k - 1] && q2[k + 1] == p2[k]);
                }
            }
        }
        assert(q1.last() == p1.last() && q2.last() == p2.last());
        lemma_path_determined(v, ex, q1, q2);
        assert(q1[1] == q2[1]);
        assert(c1 == c2);
        assert(kids_at(v, r)[k1] != kids_at(v, r)[k2]);
        assert(false);
    }
}

/// Every subtree member of an occupied root slot is occupied.
pub proof fn lemma_subtree_members_occupied<T>(v: TreeView<T>, ex: Set<int>, r: int)
    requires
        inv_ex(v, ex),
        is_occupied(v, r),
    ensures
        forall|j: int| subtree_set(v, r).contains(j) ==> is_occupied(v, j),
{
    reveal(crate::model::is_child_path);
    reveal(crate::model::subtree_set);
    assert forall|j: int| subtree_set(v, r).contains(j) implies is_occupied(v, j) by {
        let p = choose|p: Seq<u32>|
            is_child_path(v, p) && p.len() >= 1 && #[trigger] p[0] as int == r && p.last() as int
                == j;
        lemma_path_occupied(v, ex, p);
        assert(p.last() == p[p.len() - 1]);
    }
}

/// If a second arena state agrees with the first on every slot of a subtree,
/// the subtree reads the same in both states.
pub proof fn lemma_subtree_frame<T>(v1: TreeView<T>, v2: TreeView<T>, ex: Set<int>, r: int)
    requires
        inv_ex(v1, ex),
        is_occupied(v1, r),
        forall|j: int|
            subtree_set(v1, r).contains(j) ==> 0 <= j < num_slots(v2) && v2.slots[j] == v1.slots[j],
    ensures
        subtree_set(v2, r) == subtree_set(v1, r),
{
    reveal(crate::model::is_child_path);
    reveal(crate::model::subtree_set);
    lemma_subtree_members_occupied(v1, ex, r);
    assert forall|j: int| subtree_set(v1, r).contains(j) implies subtree_set(v2, r).contains(
        j,
    ) by {
        let p = choose|p: Seq<u32>|
            is_child_path(v1, p) && p.len() >= 1 && #[trigger] p[0] as int == r && p.last() as int
                == j;
        assert forall|k: int| 0 <= k < p.len() implies subtree_set(v1, r).contains(
            #[trigger] p[k] as int,
        ) by {
            let w = p.take(k + 1);
            assert(is_child_path(v1, w)) by {
                assert(forall|m: int| 0 <= m < w.len() ==> w[m] == p[m]);
            }
            assert(w[0] == p[0] && w.last() == p[k]);
        }
        assert(is_child_path(v2, p)) by {
            assert forall|k: int|
                0 <= k < p.len() - 1 implies is_occupied(v2, #[trigger] p[k] as int) && kids_at(
                v2,
                p[k] as int,
            ).contains(p[k + 1]) by {
                assert(subtree_set(v1, r).contains(p[k] as int));
                assert(v2.slots[p[k] as int] == v1.slots[p[k] as int]);
            }
        }
    }
    assert forall|j: int| subtree_set(v2, r).contains(j) implies subtree_set(v1, r).contains(
        j,
    ) by {
        let p = choose|p: Seq<u32>|
            is_child_path(v2, p) && p.len() >= 1 && #[trigger] p[0] as int == r && p.last() as int
                == j;
        lemma_frame_path_back(v1, v2, ex, r, p);
    }
    assert(subtree_set(v2, r) =~= subtree_set(v1, r));
}

/// Helper for `lemma_subtree_frame`: a child path of the second state that
/// starts at `r` ends inside the first state's subtree under `r`.
proof fn lemma_frame_path_back<T>(
    v1: TreeView<T>,
    v2: TreeView<T>,
    ex: Set<int>,
    r: int,
    p: Seq<u32>,
)
    requires
        inv_ex(v1, ex),
        is_occupied(v1, r),
        forall|j: int|
            subtree_set(v1, r).contains(j) ==> 0 <= j < num_slots(v2) && v2.slots[j] == v1.slots[j],
        is_child_path(v2, p),
        p.len() >= 1,
        p[0] as int == r,
    ensures
        subtree_set(v1, r).contains(p.last() as int),
    decreases p.len(),
{
    reveal(crate::model::is_child_path);
    reveal(crate::model::subtree_set);
    if p.len() == 1 {
        lemma_subtree_self(v1, ex, r);
    } else {
        let q = p.drop_last();
        assert(is_child_path(v2, q)) by {
            assert(forall|k: int| 0 <= k < q.len() ==> q[k] == p[k]);
        }
        lemma_frame_path_back(v1, v2, ex, r, q);
        let prev = p[p.len() - 2];
        assert(q.last() == prev);
        assert(subtree_set(v1, r).contains(prev as int));
        lemma_subtree_members_occupied(v1, ex, r);
        assert(v2.slots[prev as int] == v1.slots[prev as int]);
        assert(kids_at(v2, prev as int).contains(p.last()));
        assert(kids_at(v1, prev as int).contains(p.last()));
        let w = choose|w: Seq<u32>|
            is_child_path(v1, w) && w.len() >= 1 && #[trigger] w[0] as int == r && w.last() as int
                == prev as int;
        let w2 = w.push(p.last());
        assert(is_child_path(v1, w2)) by {
            assert forall|k: int|
                0 <= k < w2.len() - 1 implies is_occupied(v1, #[trigger] w2[k] as int) && kids_at(
                v1,
                w2[k] as int,
            ).contains(w2[k + 1]) by {
                if k < w.len() - 1 {
                    assert(w2[k] == w[k] && w2[k + 1] == w[k + 1]);
                } else {
                    assert(w2[k] == w.last() && w2[k + 1] == p.last());
                }
            }
        }
        assert(w2[0] == w[0] && w2.last() == p.last());
    }
}

/// The state after taking the child entry at `pos` out of slot `i`'s list,
/// everything else unchanged.
pub open spec fn detach_view<T>(v: TreeView<T>, i: u32, pos: int) -> TreeView<T> {
    TreeView {
        slots: v.slots.update(
            i as int,
            ElemView::Occupied {
                value: value_at(v, i as int),
                parent: parent_at(v, i as int),
                childs: kids_at(v, i as int).remove(pos),
            },
        ),
        free_head: v.free_head,
    }
}

/// Detaching a child entry preserves well-formedness once the detached slot
/// is exempted from the attachment condition.
pub proof fn lemma_detach<T>(
    v: TreeView<T>,
    ex: Set<int>,
    d: Map<int, nat>,
    db: nat,
    fs: Seq<u32>,
    i: u32,
    pos: int,
    c: u32,
)
    requires
        inv_ex(v, ex),
        depth_ok(v, d, db),
        free_ok(v, fs),
        is_occupied(v, i as int),
        0 <= pos < kids_at(v, i as int).len(),
        c == kids_at(v, i as int)[pos],
    ensures
        inv_ex(detach_view(v, i, pos), ex.insert(c as int)),
        depth_ok(detach_view(v, i, pos), d, db),
        free_ok(detach_view(v, i, pos), fs),
        !ex.contains(c as int),
        c as int != i as int,
        c != 0,
        is_occupied(v, c as int),
        parent_at(v, c as int) == i,
        d[c as int] == d[i as int] + 1,
{
    let w = detach_view(v, i, pos);
    let ii = i as int;
    let cc = c as int;
    let ks = kids_at(v, ii);
    let ex2 = ex.insert(cc);
    assert(0 < cc < num_slots(v) && is_occupied(v, cc) && parent_at(v, cc) == ii);
    // No slot is its own listed child: the depths would clash.
    assert forall|j: int, k: int|
        is_occupied(v, j) && 0 <= k < kids_at(v, j).len() implies #[trigger] kids_at(v, j)[k] as int
        != j by {
        let e = kids_at(v, j)[k] as int;
        assert(is_occupied(v, e) && parent_at(v, e) == j && e != 0);
        assert(d[e] == d[j] + 1);
    }
    assert(cc != ii);
    assert(d[cc] == d[ii] + 1) by {
        assert(cc != 0);
    }
    // The detached slot stood nowhere else, so `ex` cannot already hold it.
    assert(!ex.contains(cc)) by {
        if ex.contains(cc) {
            assert(detached(v, cc));
            assert(kids_at(v, ii)[pos] != cc);
        }
    }
    // Pointwise relation between the two states.
    assert(num_slots(w) == num_slots(v));
    assert(forall|j: int| 0 <= j < num_slots(v) && j != ii ==> w.slots[j] == v.slots[j]);
    assert(is_occupied(w, ii) && value_at(w, ii) == value_at(v, ii) && parent_at(w, ii)
        == parent_at(v, ii) && kids_at(w, ii) == ks.remove(pos));
    assert forall|j: int| #[trigger] is_occupied(w, j) implies is_occupied(v, j) && parent_at(w, j)
        == parent_at(v, j) && value_at(w, j) == value_at(v, j) by {}
    assert forall|j: int| #[trigger] is_occupied(v, j) implies is_occupied(w, j) by {}
    // Entries of the shortened list come from the old list, one position over.
    assert forall|k: int| 0 <= k < kids_at(w, ii).len() implies exists|k0: int|
        0 <= k0 < ks.len() && k0 != pos && #[trigger] kids_at(w, ii)[k] == ks[k0] by {
        if k < pos {
            assert(kids_at(w, ii)[k] == ks[k]);
        } else {
            assert(kids_at(w, ii)[k] == ks[k + 1]);
        }
    }
    // Child links stay well formed.
    assert forall|j: int, k: int|
        is_occupied(w, j) && 0 <= k < kids_at(w, j).len() implies {
        let e = #[trigger] kids_at(w, j)[k] as int;
        0 < e < num_slots(w) && is_occupied(w, e) && parent_at(w, e) == j
    } by {
        if j == ii {
            let k0 = choose|k0: int|
                0 <= k0 < ks.len() && k0 != pos && #[trigger] kids_at(w, ii)[k] == ks[k0];
            let e = ks[k0] as int;
            assert(0 < e < num_slots(v) && is_occupied(v, e) && parent_at(v, e) == ii);
            assert(e != ii);
        } else {
            assert(kids_at(w, j) == kids_at(v, j));
            let e = kids_at(v, j)[k] as int;
            assert(0 < e < num_slots(v) && is_occupied(v, e) && parent_at(v, e) == j);
            if e == ii {
                assert(is_occupied(w, e));
            }
        }
    }
    assert forall|j: int, k1: int, k2: int|
        is_occupied(w, j) && 0 <= k1 < k2 < kids_at(w, j).len() implies #[trigger] kids_at(
        w,
        j,
    )[k1] != #[trigger] kids_at(w, j)[k2] by {
        if j == ii {
            let a1 = if k1 < pos { k1 } else { k1 + 1 };
            let a2 = if k2 < pos { k2 } else { k2 + 1 };
            assert(kids_at(w, j)[k1] == ks[a1] && kids_at(w, j)[k2] == ks[a2]);
            assert(ks[a1] != ks[a2]);
        } else {
            assert(kids_at(w, j) == kids_at(v, j));
        }
    }
    assert forall|j: int| #[trigger] is_occupied(w, j) implies kids_at(w, j).len() < num_slots(
        w,
    ) by {
        if j == ii {
            assert(kids_at(w, j).len() < ks.len() + 1);
        } else {
            assert(kids_at(w, j) == kids_at(v, j));
        }
    }
    // Attachment outside the exemptions.
    assert forall|j: int| #[trigger] is_occupied(w, j) && j != 0 && !ex2.contains(j) implies {
        let p = parent_at(w, j) as int;
        is_occupied(w, p) && kids_at(w, p).contains(j as u32)
    } by {
        let p = parent_at(v, j) as int;
        assert(is_occupied(v, j) && !ex.contains(j));
        assert(is_occupied(v, p) && kids_at(v, p).contains(j as u32));
        assert(is_occupied(w, p));
        if p == ii {
            let k = choose|k: int| 0 <= k < ks.len() && #[trigger] ks[k] == j as u32;
            assert(j != cc);
            assert(k != pos);
            if k < pos {
                assert(kids_at(w, p)[k] == j as u32);
            } else {
                assert(kids_at(w, p)[k - 1] == ks[k]);
            }
            assert(kids_at(w, p).contains(j as u32));
        } else {
            assert(kids_at(w, p) == kids_at(v, p));
        }
    }
    // Exempted slots are detached.
    assert forall|e: int| #[trigger] ex2.contains(e) implies 0 < e < num_slots(w) && is_occupied(
        w,
        e,
    ) && detached(w, e) by {
        assert forall|j: int, k: int|
            is_occupied(w, j) && 0 <= k < kids_at(w, j).len() implies #[trigger] kids_at(w, j)[k]
            != e by {
            if e == cc {
                if j == ii {
                    let k0 = choose|k0: int|
                        0 <= k0 < ks.len() && k0 != pos && #[trigger] kids_at(w, ii)[k] == ks[k0];
                    assert(ks[k0] != ks[pos]);
                } else {
                    assert(kids_at(w, j) == kids_at(v, j));
                    let x = kids_at(v, j)[k] as int;
                    assert(parent_at(v, x) == j);
                    if x == cc {
                        assert(j == ii);
                        assert(false);
                    }
                }
            } else {
                assert(ex.contains(e));
                assert(detached(v, e));
                if j == ii {
                    let k0 = choose|k0: int|
                        0 <= k0 < ks.len() && k0 != pos && #[trigger] kids_at(w, ii)[k] == ks[k0];
                    assert(ks[k0] as int != e);
                } else {
                    assert(kids_at(w, j) == kids_at(v, j));
                }
            }
        }
    }
    assert(inv_ex(w, ex2));
    // Depth and free-chain witnesses carry over unchanged.
    assert forall|j: int| #[trigger] is_occupied(w, j) && j != 0 implies d[j] == d[parent_at(
        w,
        j,
    ) as int] + 1 by {
        assert(is_occupied(v, j));
    }
    assert(depth_ok(w, d, db));
    assert forall|k: int| 0 <= k < fs.len() implies {
        let f = #[trigger] fs[k] as int;
        0 < f < num_slots(w) && is_free(w, f) && free_next_at(w, f) == if k + 1 < fs.len() {
            fs[k + 1]
        } else {
            0u32
        }
    } by {
        let f = fs[k] as int;
        assert(is_free(v, f));
        assert(f != ii);
    }
    assert forall|j: int| #[trigger] is_free(w, j) implies fs.contains(j as u32) by {
        assert(is_free(v, j));
    }
    assert(free_ok(w, fs));
}

/// One step of draining the children of slot `i`: child `kk[m]` was detached
/// from the front of the remaining list and its subtree released. Carries
/// the drain loop's bookkeeping from `m` to `m + 1` processed children.
pub proof fn lemma_drain_step<T>(
    v0: TreeView<T>,
    ex: Set<int>,
    d0: Map<int, nat>,
    db0: nat,
    i: u32,
    kk: Seq<u32>,
    m: int,
    v_cur: TreeView<T>,
    v_new: TreeView<T>,
)
    requires
        inv_ex(v0, ex),
        depth_ok(v0, d0, db0),
        is_occupied(v0, i as int),
        kk == kids_at(v0, i as int),
        0 <= m < kk.len(),
        num_slots(v_cur) == num_slots(v0),
        is_occupied(v_cur, i as int),
        kids_at(v_cur, i as int) == kk.skip(m),
        value_at(v_cur, i as int) == value_at(v0, i as int),
        parent_at(v_cur, i as int) == parent_at(v0, i as int),
        forall|j: int|
            0 <= j < num_slots(v0) && j != i as int && !subtree_set(v0, i as int).contains(j)
                ==> v_cur.slots[j] == v0.slots[j],
        forall|k: int, j: int|
            m <= k < kk.len() && subtree_set(v0, #[trigger] kk[k] as int).contains(j)
                ==> #[trigger] v_cur.slots[j] == v0.slots[j],
        forall|k: int, j: int|
            0 <= k < m && #[trigger] subtree_set(v0, kk[k] as int).contains(j) ==> is_free(
                v_cur,
                j,
            ),
        forall|j: int| is_occupied(v_cur, j) ==> is_occupied(v0, j),
        num_slots(v_new) == num_slots(v_cur),
        forall|j: int|
            0 <= j < num_slots(v_cur) && !subtree_set(
                detach_view(v_cur, i, 0),
                kk[m] as int,
            ).contains(j) ==> v_new.slots[j] == detach_view(v_cur, i, 0).slots[j],
        forall|j: int|
            subtree_set(detach_view(v_cur, i, 0), kk[m] as int).contains(j) ==> is_free(v_new, j),
        forall|j: int| is_occupied(v_new, j) ==> is_occupied(detach_view(v_cur, i, 0), j),
    ensures
        subtree_set(detach_view(v_cur, i, 0), kk[m] as int) == subtree_set(v0, kk[m] as int),
        is_occupied(v_new, i as int),
        kids_at(v_new, i as int) == kk.skip(m + 1),
        value_at(v_new, i as int) == value_at(v0, i as int),
        parent_at(v_new, i as int) == parent_at(v0, i as int),
        forall|j: int|
            0 <= j < num_slots(v0) && j != i as int && !subtree_set(v0, i as int).contains(j)
                ==> v_new.slots[j] == v0.slots[j],
        forall|k: int, j: int|
            m + 1 <= k < kk.len() && subtree_set(v0, #[trigger] kk[k] as int).contains(j)
                ==> #[trigger] v_new.slots[j] == v0.slots[j],
        forall|k: int, j: int|
            0 <= k < m + 1 && #[trigger] subtree_set(v0, kk[k] as int).contains(j) ==> is_free(
                v_new,
                j,
            ),
        forall|j: int| is_occupied(v_new, j) ==> is_occupied(v0, j),
{
    let n = num_slots(v0);
    let ii = i as int;
    let c2 = kk[m];
    let cc = c2 as int;
    let v_det = detach_view(v_cur, i, 0);
    assert(kk.skip(m)[0] == c2);
    assert(is_occupied(v0, cc) && parent_at(v0, cc) == ii && 0 < cc < n);
    assert(d0[cc] == d0[ii] + 1) by {
        assert(cc != 0);
    }
    lemma_subtree_members_occupied(v0, ex, cc);
    // Slot i is never inside the subtree of its own child: it sits shallower.
    assert(!subtree_set(v0, cc).contains(ii)) by {
        if subtree_set(v0, cc).contains(ii) {
            lemma_subtree_member(v0, ex, d0, db0, cc, ii);
        }
    }
    // The detached child's subtree reads the same in v0 and in v_det.
    assert forall|j: int| #[trigger] subtree_set(v0, cc).contains(j) implies 0 <= j < num_slots(
        v_det,
    ) && v_det.slots[j] == v0.slots[j] by {
        assert(is_occupied(v0, j));
        lemma_subtree_member(v0, ex, d0, db0, cc, j);
        assert(j != ii);
        assert(v_cur.slots[j] == v0.slots[j]);
        assert(v_det.slots[j] == v_cur.slots[j]);
    }
    lemma_subtree_frame(v0, v_det, ex, cc);
    let st = subtree_set(v0, cc);
    // The node's own slot after the step.
    assert(v_det.slots[ii] == (ElemView::Occupied {
        value: value_at(v_cur, ii),
        parent: parent_at(v_cur, ii),
        childs: kids_at(v_cur, ii).remove(0),
    }));
    assert(v_new.slots[ii] == v_det.slots[ii]);
    assert(kids_at(v_new, ii) =~= kk.skip(m + 1)) by {
        assert(kids_at(v_det, ii) == kk.skip(m).remove(0));
    }
    // Untouched later siblings.
    assert forall|k: int, j: int|
        m + 1 <= k < kk.len() && subtree_set(v0, #[trigger] kk[k] as int).contains(
            j,
        ) implies #[trigger] v_new.slots[j] == v0.slots[j] by {
        assert(is_occupied(v0, kk[k] as int)) by {
            assert(kids_at(v0, ii)[k] == kk[k]);
        }
        lemma_subtree_member(v0, ex, d0, db0, kk[k] as int, j);
        assert(j != ii) by {
            assert(d0[kk[k] as int] == d0[ii] + 1) by {
                assert(kk[k] as int != 0);
            }
        }
        if st.contains(j) {
            lemma_sibling_subtrees_disjoint(v0, ex, d0, db0, ii, k, m, j);
            assert(false);
        }
        assert(v_new.slots[j] == v_det.slots[j]);
        assert(v_det.slots[j] == v_cur.slots[j]);
    }
    // Freed subtrees stay freed.
    assert forall|k: int, j: int|
        0 <= k < m + 1 && #[trigger] subtree_set(v0, kk[k] as int).contains(j) implies is_free(
        v_new,
        j,
    ) by {
        if k == m {
            assert(is_free(v_new, j));
        } else {
            assert(is_free(v_cur, j));
            assert(is_occupied(v0, kk[k] as int)) by {
                assert(kids_at(v0, ii)[k] == kk[k]);
            }
            lemma_subtree_member(v0, ex, d0, db0, kk[k] as int, j);
            assert(j != ii) by {
                assert(d0[kk[k] as int] == d0[ii] + 1) by {
                    assert(kk[k] as int != 0);
                }
            }
            if st.contains(j) {
                assert(is_free(v_new, j));
            } else {
                assert(v_new.slots[j] == v_det.slots[j]);
                assert(v_det.slots[j] == v_cur.slots[j]);
            }
        }
    }
    // The outer frame is kept.
    assert forall|j: int|
        0 <= j < n && j != ii && !subtree_set(v0, ii).contains(j) implies #[trigger] v_new.slots[j]
        == v0.slots[j] by {
        if st.contains(j) {
            lemma_subtree_step(v0, ex, ii, cc, j);
            assert(false);
        }
        assert(v_new.slots[j] == v_det.slots[j]);
        assert(v_det.slots[j] == v_cur.slots[j]);
    }
}

/// The values of a node's children, in list order.
pub open spec fn child_values<T>(v: TreeView<T>, i: int) -> Seq<T> {
    kids_at(v, i).map_values(|c: u32| value_at(v, c as int))
}

/// The occupied slots among the first `k`.
pub open spec fn occupied_below<T>(v: TreeView<T>, k: int) -> Set<int> {
    Set::new(|j: int| 0 <= j < k && is_occupied(v, j))
}

/// One step of counting the occupied slots in index order.
pub proof fn lemma_occupied_below_step<T>(v: TreeView<T>, k: int)
    requires
        0 <= k,
    ensures
        occupied_below(v, k).finite(),
        occupied_below(v, k + 1).len() == occupied_below(v, k).len() + if is_occupied(v, k) {
            1int
        } else {
            0int
        },
{
    let s = occupied_below(v, k);
    vstd::set_lib::lemma_int_range(0, k);
    vstd::set_lib::lemma_len_subset(s, vstd::set_lib::set_int_range(0, k));
    if is_occupied(v, k) {
        assert(occupied_below(v, k + 1) =~= s.insert(k));
        vstd::set::axiom_set_insert_len(s, k);
    } else {
        assert(occupied_below(v, k + 1) =~= s);
    }
}

/// In a fully attached arena, every occupied slot is reachable from the
/// root: walk the parent links up, which the depths show must bottom out at
/// slot 0, then read the walk backwards as a child path.
pub proof fn lemma_occupied_reachable<T>(v: TreeView<T>, d: Map<int, nat>, db: nat, j: int)
    requires
        inv(v),
        depth_ok(v, d, db),
        is_occupied(v, j),
    ensures
        subtree_set(v, 0).contains(j),
    decreases d[j],
{
    reveal(crate::model::is_child_path);
    reveal(crate::model::subtree_set);
    if j == 0 {
        lemma_subtree_self(v, Set::empty(), 0);
    } else {
        let p = parent_at(v, j) as int;
        assert(is_occupied(v, p) && kids_at(v, p).contains(j as u32)) by {
            assert(!Set::<int>::empty().contains(j));
        }
        assert(d[j] == d[p] + 1);
        lemma_occupied_reachable(v, d, db, p);
        let w = choose|w: Seq<u32>|
            is_child_path(v, w) && w.len() >= 1 && #[trigger] w[0] as int == 0 && w.last() as int
                == p;
        let w2 = w.push(j as u32);
        assert(is_child_path(v, w2)) by {
            assert forall|k: int|
                0 <= k < w2.len() - 1 implies is_occupied(v, #[trigger] w2[k] as int) && kids_at(
                v,
                w2[k] as int,
            ).contains(w2[k + 1]) by {
                if k < w.len() - 1 {
                    assert(w2[k] == w[k] && w2[k + 1] == w[k + 1]);
                } else {
                    assert(w2[k] == w.last() && w2[k + 1] == j as u32);
                }
            }
        }
        assert(w2[0] == w[0] && w2.last() as int == j);
    }
}

/// The occupied slots are exactly the slots of the tree hanging from the
/// root: the arena neither leaks slots nor reaches freed ones.
pub proof fn lemma_occupied_is_live<T>(v: TreeView<T>, d: Map<int, nat>, db: nat)
    requires
        inv(v),
        depth_ok(v, d, db),
    ensures
        occupied_set(v) =~= subtree_set(v, 0),
        occupied_set(v).len() == subtree_set(v, 0).len(),
{
    lemma_subtree_members_occupied(v, Set::empty(), 0);
    assert forall|j: int| occupied_set(v).contains(j) implies subtree_set(v, 0).contains(j) by {
        lemma_occupied_reachable(v, d, db, j);
    }
    assert(occupied_set(v) =~= subtree_set(v, 0));
}

/// A duplicate-free sequence drawn from `1 .. n` has fewer than `n` entries.
pub proof fn lemma_distinct_in_range_len(s: Seq<u32>, n: int)
    requires
        n >= 1,
        forall|k: int| 0 <= k < s.len() ==> 0 < #[trigger] s[k] < n,
        forall|k1: int, k2: int| 0 <= k1 < k2 < s.len() ==> s[k1] != s[k2],
    ensures
        s.len() <= n - 1,
{
    let t = s.map_values(|x: u32| x as int);
    assert(t.no_duplicates()) by {
        assert forall|k1: int, k2: int|
            0 <= k1 < t.len() && 0 <= k2 < t.len() && k1 != k2 implies t[k1] != t[k2] by {
            if k1 < k2 {
                assert(s[k1] != s[k2]);
            } else {
                assert(s[k2] != s[k1]);
            }
        }
    }
    t.unique_seq_to_set();
    let rng = vstd::set_lib::set_int_range(1, n);
    assert(t.to_set().subset_of(rng)) by {
        assert forall|x: int| t.to_set().contains(x) implies rng.contains(x) by {
            let k = choose|k: int| 0 <= k < t.len() && t[k] == x;
            assert(0 < s[k] < n);
        }
    }
    vstd::set_lib::lemma_int_range(1, n);
    vstd::set_lib::lemma_len_subset(t.to_set(), rng);
}

} // verus!
