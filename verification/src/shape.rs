//! Tree shapes: the recursive descriptions handed to `create_sub_tree` and
//! read back by `read_shape`.

use vstd::prelude::*;

use crate::model::TreeView;
use crate::model::num_slots;
use crate::model::is_occupied;
use crate::model::value_at;
use crate::model::kids_at;
use crate::model::subtree_set;
use crate::model::inv_ex;
use crate::model::lemma_subtree_self;
use crate::model::lemma_subtree_step;

verus! {

/// A self-contained tree of values: one node's value together with the
/// shapes of its children, in order.
pub struct SubTree<T> {
    pub value: T,
    pub children: Vec<SubTree<T>>,
}

/// The node at slot `i` carries exactly the shape `s`: the same value, the
/// same number of children, and recursively matching child subtrees.
#[verifier::opaque]
pub open spec fn shape_at<T>(v: TreeView<T>, i: int, s: SubTree<T>) -> bool
    decreases s,
{
    &&& is_occupied(v, i)
    &&& value_at(v, i) == s.value
    &&& kids_at(v, i).len() == s.children@.len()
    &&& forall|k: int|
        0 <= k < s.children@.len() ==> shape_at(
            v,
            kids_at(v, i)[k] as int,
            #[trigger] s.children@[k],
        )
}

/// The values of a shape in depth-first order: the node's own value first,
/// then each child's subtree in order.
pub open spec fn preorder<T>(s: SubTree<T>) -> Seq<T>
    decreases s,
{
    seq![s.value] + preorder_all(s.children@)
}

/// The values of a sequence of shapes, each flattened depth first, laid end
/// to end.
pub open spec fn preorder_all<T>(ss: Seq<SubTree<T>>) -> Seq<T>
    decreases ss,
{
    if ss.len() == 0 {
        Seq::empty()
    } else {
        preorder(ss[0]) + preorder_all(ss.drop_first())
    }
}

/// Extending a prefix of shapes by one appends that shape's values.
pub proof fn lemma_preorder_all_take_step<T>(ss: Seq<SubTree<T>>, k: int)
    requires
        0 <= k < ss.len(),
    ensures
        preorder_all(ss.take(k + 1)) == preorder_all(ss.take(k)) + preorder(ss[k]),
    decreases k,
{
    if k == 0 {
        assert(ss.take(1) =~= seq![ss[0]]);
        assert(ss.take(0) =~= Seq::<SubTree<T>>::empty());
        assert(seq![ss[0]].drop_first() =~= Seq::<SubTree<T>>::empty());
        assert(preorder_all(ss.take(1)) =~= preorder(ss[0]));
        assert(preorder_all(ss.take(0)) + preorder(ss[0]) =~= preorder(ss[0]));
    } else {
        let rest = ss.drop_first();
        lemma_preorder_all_take_step(rest, k - 1);
        assert(ss.take(k + 1).drop_first() =~= rest.take(k));
        assert(ss.take(k).drop_first() =~= rest.take(k - 1));
        assert(ss.take(k + 1)[0] == ss[0] && ss.take(k)[0] == ss[0]);
        assert(rest[k - 1] == ss[k]);
        assert(preorder_all(ss.take(k + 1)) == preorder(ss[0]) + preorder_all(rest.take(k)));
        assert(preorder_all(ss.take(k)) == preorder(ss[0]) + preorder_all(rest.take(k - 1)));
        assert(preorder(ss[0]) + (preorder_all(rest.take(k - 1)) + preorder(ss[k])) =~= (preorder(
            ss[0],
        ) + preorder_all(rest.take(k - 1))) + preorder(ss[k]));
    }
}

/// Folds the pieces of a shape match back into `shape_at`.
pub proof fn lemma_shape_assemble<T>(v: TreeView<T>, i: int, s: SubTree<T>)
    requires
        is_occupied(v, i),
        value_at(v, i) == s.value,
        kids_at(v, i).len() == s.children@.len(),
        forall|k: int|
            0 <= k < s.children@.len() ==> shape_at(
                v,
                kids_at(v, i)[k] as int,
                #[trigger] s.children@[k],
            ),
    ensures
        shape_at(v, i, s),
{
    reveal(crate::shape::shape_at);
}

/// A slot determines the values of its shape: any two shapes matching the
/// same slot flatten to the same value sequence.
pub proof fn lemma_shape_functional<T>(v: TreeView<T>, i: int, s1: SubTree<T>, s2: SubTree<T>)
    requires
        shape_at(v, i, s1),
        shape_at(v, i, s2),
    ensures
        preorder(s1) == preorder(s2),
    decreases s1,
{
    reveal(crate::shape::shape_at);
    assert(s1.value == s2.value);
    assert(s1.children@.len() == s2.children@.len());
    assert forall|k: int| 0 <= k < s1.children@.len() implies preorder(#[trigger] s1.children@[k])
        == preorder(s2.children@[k]) by {
        lemma_shape_functional(v, kids_at(v, i)[k] as int, s1.children@[k], s2.children@[k]);
    }
    lemma_preorder_all_pointwise(s1.children@, s2.children@);
}

/// Sequences of shapes with pointwise equal value sequences flatten alike.
pub proof fn lemma_preorder_all_pointwise<T>(ss1: Seq<SubTree<T>>, ss2: Seq<SubTree<T>>)
    requires
        ss1.len() == ss2.len(),
        forall|k: int|
            0 <= k < ss1.len() ==> preorder(#[trigger] ss1[k]) == preorder(ss2[k]),
    ensures
        preorder_all(ss1) == preorder_all(ss2),
    decreases ss1.len(),
{
    if ss1.len() > 0 {
        assert(forall|k: int|
            0 <= k < ss1.drop_first().len() ==> #[trigger] ss1.drop_first()[k] == ss1[k + 1]
                && ss2.drop_first()[k] == ss2[k + 1]);
        lemma_preorder_all_pointwise(ss1.drop_first(), ss2.drop_first());
    }
}

/// A shape match survives changes outside the matched subtree.
pub proof fn lemma_shape_frame<T>(
    v1: TreeView<T>,
    v2: TreeView<T>,
    ex: Set<int>,
    i: int,
    s: SubTree<T>,
)
    requires
        inv_ex(v1, ex),
        shape_at(v1, i, s),
        forall|j: int|
            #[trigger] subtree_set(v1, i).contains(j) ==> 0 <= j < num_slots(v2) && v2.slots[j]
                == v1.slots[j],
    ensures
        shape_at(v2, i, s),
    decreases s,
{
    reveal(crate::shape::shape_at);
    lemma_subtree_self(v1, ex, i);
    assert(v2.slots[i] == v1.slots[i]);
    assert forall|k: int| 0 <= k < s.children@.len() implies shape_at(
        v2,
        kids_at(v2, i)[k] as int,
        #[trigger] s.children@[k],
    ) by {
        let c = kids_at(v1, i)[k] as int;
        assert(kids_at(v1, i).contains(kids_at(v1, i)[k]));
        assert forall|j: int| #[trigger] subtree_set(v1, c).contains(j) implies 0 <= j
            < num_slots(v2) && v2.slots[j] == v1.slots[j] by {
            lemma_subtree_step(v1, ex, i, c, j);
            assert(subtree_set(v1, i).contains(j));
        }
        lemma_shape_frame(v1, v2, ex, c, s.children@[k]);
    }
}

impl<T: Copy> SubTree<T> {
    /// The shape's values in depth-first order, as a vector.
    pub fn flatten(&self) -> (r: Vec<T>)
        ensures
            r@ == preorder(*self),
        decreases *self,
    {
        let mut r: Vec<T> = Vec::new();
        r.push(self.value);
        proof {
            assert(self.children@.take(0) =~= Seq::<SubTree<T>>::empty());
            assert(r@ =~= seq![self.value] + preorder_all(self.children@.take(0)));
        }
        let n = self.children.len();
        let mut k: usize = 0;
        while k < n
            invariant
                n == self.children@.len(),
                k <= n,
                r@ == seq![self.value] + preorder_all(self.children@.take(k as int)),
            decreases n - k,
        {
            let mut sub = self.children[k].flatten();
            r.append(&mut sub);
            proof {
                lemma_preorder_all_take_step(self.children@, k as int);
                assert(r@ =~= seq![self.value] + preorder_all(self.children@.take(k + 1)));
            }
            k = k + 1;
        }
        proof {
            assert(self.children@.take(n as int) =~= self.children@);
        }
        r
    }
}

} // verus!
