use std::collections::VecDeque;
use vstd::prelude::*;
use crate::model::STree;
use crate::model::flat_all;
use crate::model::size_all;
use crate::tree_deque::TreeDeque;
use crate::tree_deque::deques_model;
use crate::tree_deque::lemma_deque_node_model;
use crate::tree_deque::lemma_deques_model_index;

verus! {

/// Where a branch flattener currently stands: scanning its own queue of
/// subtrees, or delegating to the flattener of a nested branch it has
/// entered.
pub enum NodeIterState<T> {
    /// Scanning the own queue of subtrees.
    Normal,
    /// Delegating to the flattener of a nested branch; the own queue
    /// resumes when it is exhausted.
    Recursion(Box<NoneIntoIter<T>>),
}

/// A one-shot flattener over the children of one branch: yields the leaf
/// tokens depth first, left to right, keeping an explicit chain of frames
/// instead of recursing per nesting level.
pub struct NoneIntoIter<T> {
    state: NodeIterState<T>,
    trees: VecDeque<TreeDeque<T>>,
}

impl<T> NoneIntoIter<T> {
    /// The tokens not yet yielded, in the order they will come.
    pub closed spec fn remaining(self) -> Seq<T>
        decreases self,
    {
        (match self.state {
            NodeIterState::Normal => Seq::empty(),
            NodeIterState::Recursion(rec) => (*rec).remaining(),
        }) + flat_all(deques_model(self.trees@))
    }

    /// Termination measure: twice the nodes still held, plus one per open
    /// frame of the chain.
    pub closed spec fn weight(self) -> nat
        decreases self,
    {
        (match self.state {
            NodeIterState::Normal => 0,
            NodeIterState::Recursion(rec) => 1 + (*rec).weight(),
        }) + 2 * size_all(deques_model(self.trees@))
    }

    /// Yield the next leaf token, or `None` once every token is out.
    pub fn next(&mut self) -> (r: Option<T>)
        ensures
            r matches Some(v) ==> old(self).remaining().len() > 0 && v == old(
                self,
            ).remaining()[0] && final(self).remaining() == old(self).remaining().drop_first(),
            r is None ==> old(self).remaining().len() == 0 && final(self).remaining().len() == 0,
        decreases self.weight(),
    {
        let mut st = NodeIterState::Normal;
        core::mem::swap(&mut self.state, &mut st);
        match st {
            NodeIterState::Normal => {
                let ghost ts = deques_model(self.trees@);
                proof {
                    lemma_deques_model_index(self.trees@);
                }
                match self.trees.pop_front() {
                    None => {
                        proof {
                            assert(deques_model(self.trees@) =~= Seq::<STree<T>>::empty());
                            assert(self.remaining() =~= Seq::<T>::empty());
                        }
                        None
                    },
                    Some(t) => {
                        proof {
                            assert(self.trees@ =~= old(self).trees@.drop_first());
                            lemma_deques_model_index(self.trees@);
                            assert(deques_model(self.trees@) =~= ts.drop_first());
                            assert(ts.first() == t@);
                        }
                        match t {
                            TreeDeque::Leaf(v) => {
                                proof {
                                    assert(t@ == STree::Leaf(v));
                                    assert(t@.flat() =~= seq![v]);
                                    assert(old(self).remaining() =~= seq![v] + flat_all(
                                        ts.drop_first(),
                                    ));
                                    assert(self.remaining() =~= old(
                                        self,
                                    ).remaining().drop_first());
                                }
                                Some(v)
                            },
                            TreeDeque::Node(children) => {
                                let ghost cs = deques_model(children@);
                                let child = NoneIntoIter::<T> {
                                    state: NodeIterState::Normal,
                                    trees: children,
                                };
                                proof {
                                    lemma_deque_node_model(child.trees);
                                    assert(t@ == STree::Node(cs));
                                    assert(t@.flat() == flat_all(cs));
                                    assert(t@.size() == 1 + size_all(cs));
                                    assert(child.remaining() =~= flat_all(cs));
                                    assert(child.weight() == 2 * size_all(cs));
                                }
                                self.state = NodeIterState::Recursion(Box::new(child));
                                proof {
                                    assert(self.remaining() =~= old(self).remaining());
                                    assert(self.weight() < old(self).weight());
                                }
                                self.next()
                            },
                        }
                    },
                }
            },
            NodeIterState::Recursion(rec) => {
                let mut rec = rec;
                let ghost rec_rem = (*rec).remaining();
                let ghost rest = flat_all(deques_model(self.trees@));
                let r = rec.next();
                match r {
                    Some(v) => {
                        proof {
                            assert(old(self).remaining() == rec_rem + rest);
                            assert((rec_rem + rest)[0] == rec_rem[0]);
                        }
                        let ghost rec_now = (*rec).remaining();
                        self.state = NodeIterState::Recursion(rec);
                        proof {
                            assert(self.remaining() == rec_now + rest);
                            assert(rec_now + rest =~= (rec_rem + rest).drop_first());
                        }
                        Some(v)
                    },
                    None => {
                        proof {
                            assert(rec_rem.len() == 0);
                            assert(old(self).remaining() =~= rest);
                            assert(self.remaining() =~= rest);
                            assert(self.weight() < old(self).weight());
                        }
                        self.next()
                    },
                }
            },
        }
    }
}

/// A one-shot flattener over a whole tree: a single pending token for a
/// leaf, a branch flattener for a node.
pub enum IntoIter<T> {
    /// The single token of a leaf, still pending if present.
    Unique(Option<T>),
    /// The flattener of a node's children.
    Multiple(NoneIntoIter<T>),
}

impl<T> IntoIter<T> {
    /// The tokens not yet yielded, in the order they will come.
    pub open spec fn remaining(self) -> Seq<T> {
        match self {
            IntoIter::Unique(pending) => match pending {
                Some(v) => seq![v],
                None => Seq::empty(),
            },
            IntoIter::Multiple(branches) => branches.remaining(),
        }
    }

    /// The flattener of a whole tree: it will yield the tree's leaf tokens
    /// depth first, left to right.
    pub fn from(tree: TreeDeque<T>) -> (it: IntoIter<T>)
        ensures
            it.remaining() == tree@.flat(),
    {
        match tree {
            TreeDeque::Leaf(v) => {
                proof {
                    assert(STree::Leaf(v).flat() =~= seq![v]);
                }
                IntoIter::Unique(Some(v))
            },
            TreeDeque::Node(children) => {
                proof {
                    lemma_deque_node_model(children);
                }
                let ghost cs = deques_model(children@);
                let it = IntoIter::Multiple(
                    NoneIntoIter { state: NodeIterState::Normal, trees: children },
                );
                proof {
                    assert(it.remaining() =~= STree::Node(cs).flat());
                }
                it
            },
        }
    }

    /// Yield the next leaf token, or `None` once every token is out.
    pub fn next(&mut self) -> (r: Option<T>)
        ensures
            r matches Some(v) ==> old(self).remaining().len() > 0 && v == old(
                self,
            ).remaining()[0] && final(self).remaining() == old(self).remaining().drop_first(),
            r is None ==> old(self).remaining().len() == 0 && final(self).remaining().len() == 0,
    {
        let mut cur = IntoIter::Unique(None);
        core::mem::swap(self, &mut cur);
        match cur {
            IntoIter::Unique(pending) => match pending {
                Some(v) => {
                    proof {
                        assert(old(self).remaining() =~= seq![v]);
                        assert(self.remaining() =~= old(self).remaining().drop_first());
                    }
                    Some(v)
                },
                None => None,
            },
            IntoIter::Multiple(mut branches) => {
                let r = branches.next();
                *self = IntoIter::Multiple(branches);
                r
            },
        }
    }
}

impl<Token> TreeDeque<Token> {
    /// A fresh flattener over the tree: consumes the tree and hands out its
    /// leaf tokens depth first, left to right, in original input order.
    pub fn into_iter(self) -> (it: IntoIter<Token>)
        ensures
            it.remaining() == self@.flat(),
    {
        IntoIter::from(self)
    }

    /// The tree's leaf tokens as one vector, depth first, left to right:
    /// the inverse direction of building.
    pub fn into_vec(self) -> (v: Vec<Token>)
        ensures
            v@ == self@.flat(),
    {
        let ghost total = self@.flat();
        let mut it = self.into_iter();
        let mut out: Vec<Token> = Vec::new();
        loop
            invariant
                out@ + it.remaining() == total,
            ensures
                out@ == total,
            decreases it.remaining().len(),
        {
            match it.next() {
                Some(v) => {
                    out.push(v);
                    proof {
                        assert(out@ + it.remaining() =~= total);
                    }
                },
                None => {
                    proof {
                        assert(out@ =~= total);
                    }
                    break ;
                },
            }
        }
        out
    }
}

} // verus!
