use vstd::prelude::*;
use crate::controller::Controller;
use crate::model::flat_all;
use crate::model::level_ok;
use crate::model::lemma_all_no_empty_iff;
use crate::model::lemma_flat_all_push;
use crate::model::STree;
use crate::tree::Tree;
use crate::tree::adapter::TreeAdapter;
use crate::tree::iter::IntoIter;
use crate::tree::lemma_trees_model_index;
use crate::tree::lemma_trees_model_push;
use crate::tree::trees_model;

verus! {

/// One whole tree collected from a lazy [`TreeAdapter`]: the single item
/// the adapter yielded, or a node wrapping all of them.
pub struct VecTree<Item>(Tree<Item>);

impl<Item> VecTree<Item> {
    /// The mathematical tree this value wraps.
    pub closed spec fn model(self) -> STree<Item> {
        self.0@
    }

    /// Wrap an already built tree.
    pub fn new(value: Tree<Item>) -> (w: VecTree<Item>)
        ensures
            w.model() == value@,
    {
        VecTree(value)
    }

    /// Hand the wrapped tree back.
    pub fn take(self) -> (t: Tree<Item>)
        ensures
            t@ == self.model(),
    {
        self.0
    }

    /// Drain a lazy adapter into one tree: the single item it yields, or a
    /// node wrapping all of them, in order.  The tree flattens back to
    /// exactly the tokens the adapter held.
    pub fn from<Control: Controller<Item>>(adapter: TreeAdapter<Item, Control>) -> (w: VecTree<
        Item,
    >)
        ensures
            w.model().flat() == adapter.remaining_tokens(),
            adapter.remaining_tokens().len() > 0 ==> w.model().no_empty_nodes(),
    {
        let ghost all = adapter.remaining_tokens();
        let mut adapter = adapter;
        let mut items: Vec<Tree<Item>> = Vec::new();
        proof {
            assert(flat_all(trees_model(items@)) =~= Seq::<Item>::empty());
        }
        #[verifier::loop_isolation(false)]
        loop
            invariant
                flat_all(trees_model(items@)) + adapter.remaining_tokens() == all,
                level_ok(trees_model(items@)),
                items@.len() == 0 ==> adapter.remaining_tokens() == all,
                adapter.remaining_tokens().len() == 0 || items@.len() > 0 || adapter
                    .remaining_tokens() == all,
            decreases adapter.remaining_tokens().len(),
        {
            let ghost before = adapter.remaining_tokens();
            let ghost old_items = items@;
            match adapter.next() {
                Some(t) => {
                    items.push(t);
                    proof {
                        lemma_trees_model_push(old_items, items@.last());
                        assert(items@ == old_items.push(items@.last()));
                        lemma_flat_all_push(trees_model(old_items), items@.last()@);
                        assert(before.take(before.len() - adapter.remaining_tokens().len())
                            + adapter.remaining_tokens() =~= before);
                        assert(flat_all(trees_model(items@)) + adapter.remaining_tokens()
                            =~= all);
                        assert forall|i: int| 0 <= i < trees_model(items@).len()
                            implies #[trigger] trees_model(items@)[i].no_empty_nodes() by {
                            if i < trees_model(items@).len() - 1 {
                                assert(trees_model(old_items)[i].no_empty_nodes());
                            }
                        }
                    }
                },
                None => {
                    break ;
                },
            }
        }
        proof {
            assert(adapter.remaining_tokens().len() == 0);
            assert(flat_all(trees_model(items@)) =~= all);
            lemma_trees_model_index(items@);
        }
        if items.len() == 1 {
            let ghost m = trees_model(items@);
            let t = items.remove(0);
            proof {
                assert(m.first() == t@);
                assert(m.drop_first() =~= Seq::<STree<Item>>::empty());
                assert(flat_all(Seq::<STree<Item>>::empty()) == Seq::<Item>::empty());
                assert(t@.flat() =~= all);
                assert(t@.no_empty_nodes());
            }
            VecTree(t)
        } else {
            let ghost m = trees_model(items@);
            let t = Tree::Node(items);
            proof {
                assert(t@ == STree::Node(m));
                if all.len() > 0 {
                    assert(m.len() > 0);
                    lemma_all_no_empty_iff(m);
                }
            }
            VecTree(t)
        }
    }

    /// A fresh flattener over the wrapped tree: hands out its leaf tokens
    /// depth first, left to right, in original input order.
    pub fn into_iter(self) -> (it: IntoIter<Item>)
        ensures
            it.remaining() == self.model().flat(),
    {
        self.0.into_iter()
    }
}

} // verus!
