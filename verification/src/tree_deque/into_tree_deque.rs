use std::collections::VecDeque;
use vstd::prelude::*;
use crate::model;
use crate::model::BuildState;
use crate::model::STree;
use crate::model::built;
use crate::model::finish;
use crate::model::run;
use crate::nesting_function::Nesting;
use crate::nesting_function::NestingFunction;
use crate::tree_deque::TreeDeque;
use crate::tree_deque::deques_model;
use crate::tree_deque::lemma_deque_node_model;
use crate::tree_deque::lemma_deques_model_push;

verus! {

/// The model of each level of a stack of levels, outermost first.
pub open spec fn levels_model<Token>(levels: Seq<VecDeque<TreeDeque<Token>>>) -> Seq<
    Seq<STree<Token>>,
>
    decreases levels,
{
    if levels.len() == 0 {
        Seq::empty()
    } else {
        levels_model(levels.drop_last()).push(deques_model(levels.last()@))
    }
}

/// `levels_model` maps the stack level by level.
pub proof fn lemma_levels_model_index<Token>(levels: Seq<VecDeque<TreeDeque<Token>>>)
    ensures
        levels_model(levels).len() == levels.len(),
        forall|j: int| 0 <= j < levels.len() ==> #[trigger] levels_model(levels)[j]
            == deques_model(levels[j]@),
    decreases levels.len(),
{
    if levels.len() > 0 {
        lemma_levels_model_index(levels.drop_last());
        assert forall|j: int| 0 <= j < levels.len() implies #[trigger] levels_model(levels)[j]
            == deques_model(levels[j]@) by {
            if j < levels.len() - 1 {
                assert(levels_model(levels)[j] == levels_model(levels.drop_last())[j]);
                assert(levels.drop_last()[j] == levels[j]);
            } else {
                assert(levels_model(levels)[j] == deques_model(levels.last()@));
            }
        }
    }
}

/// Build the tree of `tokens` under the signal sequence `signals`, signal
/// `i` directing token `i`.  The result is exactly the model builder's
/// tree, so the laws of [`crate::model`] apply to it unchanged.
pub fn tree_deque_from_signals<Token>(tokens: Vec<Token>, signals: Vec<Nesting>) -> (t: TreeDeque<
    Token,
>)
    requires
        signals@.len() == tokens@.len(),
    ensures
        t@ == built(tokens@, signals@),
{
    let ghost toks = tokens@;
    let ghost sigs = signals@;
    let mut rest = tokens;
    let mut parents: Vec<VecDeque<TreeDeque<Token>>> = Vec::new();
    let mut level: VecDeque<TreeDeque<Token>> = VecDeque::new();
    let n = signals.len();
    let mut i: usize = 0;
    proof {
        assert(toks.take(0) =~= Seq::<Token>::empty());
        assert(sigs.take(0) =~= Seq::<Nesting>::empty());
        assert(rest@ =~= toks.skip(0));
    }
    while i < n
        invariant
            i <= n,
            n == sigs.len(),
            toks.len() == sigs.len(),
            signals@ == sigs,
            rest@ == toks.skip(i as int),
            levels_model(parents@) == run(toks.take(i as int), sigs.take(i as int)).parents,
            deques_model(level@) == run(toks.take(i as int), sigs.take(i as int)).level,
        decreases n - i,
    {
        proof {
            assert(toks.skip(i as int)[0] == toks[i as int]);
        }
        let tok = rest.remove(0);
        proof {
            assert(rest@ =~= toks.skip(i as int + 1));
        }
        let sig = signals[i];
        let ghost leaf = STree::Leaf(tok);
        match sig {
            Nesting::Increase => {
                let ghost old_parents = parents@;
                let ghost old_level = level@;
                parents.push(level);
                level = VecDeque::new();
                level.push_back(TreeDeque::Leaf(tok));
                proof {
                    assert(parents@.drop_last() =~= old_parents);
                    assert(levels_model(parents@) == levels_model(old_parents).push(
                        deques_model(old_level),
                    ));
                    lemma_deques_model_push(Seq::<TreeDeque<Token>>::empty(), level@.last());
                    assert(level@ == Seq::<TreeDeque<Token>>::empty().push(level@.last()));
                    assert(deques_model(Seq::<TreeDeque<Token>>::empty())
                        =~= Seq::<STree<Token>>::empty());
                    assert(level@.last()@ == leaf);
                    assert(deques_model(level@) =~= seq![leaf]);
                }
            },
            Nesting::Maintain => {
                let ghost old_level = level@;
                level.push_back(TreeDeque::Leaf(tok));
                proof {
                    lemma_deques_model_push(old_level, level@.last());
                    assert(level@ == old_level.push(level@.last()));
                    assert(level@.last()@ == leaf);
                    assert(deques_model(level@) == deques_model(old_level).push(leaf));
                }
            },
            Nesting::Decrease => {
                let ghost old_level = level@;
                level.push_back(TreeDeque::Leaf(tok));
                proof {
                    lemma_deques_model_push(old_level, level@.last());
                    assert(level@ == old_level.push(level@.last()));
                    assert(level@.last()@ == leaf);
                    assert(deques_model(level@) == deques_model(old_level).push(leaf));
                }
                let ghost closed = deques_model(level@);
                let ghost old_parents = parents@;
                let mut parent = match parents.pop() {
                    Some(p) => p,
                    None => VecDeque::new(),
                };
                proof {
                    lemma_levels_model_index(old_parents);
                    if old_parents.len() > 0 {
                        assert(levels_model(old_parents).drop_last() =~= levels_model(
                            old_parents.drop_last(),
                        )) by {
                            lemma_levels_model_index(old_parents.drop_last());
                            assert forall|j: int| 0 <= j < old_parents.len() - 1 implies
                                levels_model(old_parents)[j] == levels_model(
                                old_parents.drop_last(),
                            )[j] by {
                                assert(old_parents.drop_last()[j] == old_parents[j]);
                            }
                        }
                        assert(deques_model(parent@) == levels_model(old_parents).last());
                    } else {
                        assert(levels_model(parents@) =~= Seq::<Seq<STree<Token>>>::empty());
                        assert(deques_model(parent@) =~= Seq::<STree<Token>>::empty());
                    }
                }
                let ghost old_parent = parent@;
                proof {
                    lemma_deque_node_model(level);
                }
                parent.push_back(TreeDeque::Node(level));
                proof {
                    lemma_deques_model_push(old_parent, parent@.last());
                    assert(parent@ == old_parent.push(parent@.last()));
                    assert(parent@.last()@ == STree::Node(closed));
                    assert(deques_model(parent@) == deques_model(old_parent).push(
                        STree::Node(closed),
                    ));
                }
                level = parent;
            },
        }
        proof {
            model::lemma_run_snoc(toks, sigs, i as int);
        }
        i = i + 1;
    }
    proof {
        assert(toks.take(n as int) =~= toks);
        assert(sigs.take(n as int) =~= sigs);
    }
    while parents.len() > 0
        invariant
            finish(
                BuildState { parents: levels_model(parents@), level: deques_model(level@) },
            ) == built(toks, sigs),
        decreases parents.len(),
    {
        let ghost old_parents = parents@;
        let ghost closed = deques_model(level@);
        let mut parent = match parents.pop() {
            Some(p) => p,
            None => VecDeque::new(),
        };
        proof {
            lemma_levels_model_index(old_parents);
            assert(levels_model(old_parents).drop_last() =~= levels_model(
                old_parents.drop_last(),
            )) by {
                lemma_levels_model_index(old_parents.drop_last());
                assert forall|j: int| 0 <= j < old_parents.len() - 1 implies levels_model(
                    old_parents,
                )[j] == levels_model(old_parents.drop_last())[j] by {
                    assert(old_parents.drop_last()[j] == old_parents[j]);
                }
            }
            assert(deques_model(parent@) == levels_model(old_parents).last());
        }
        let ghost old_parent = parent@;
        proof {
            lemma_deque_node_model(level);
        }
        parent.push_back(TreeDeque::Node(level));
        proof {
            lemma_deques_model_push(old_parent, parent@.last());
            assert(parent@ == old_parent.push(parent@.last()));
            assert(parent@.last()@ == STree::Node(closed));
            assert(deques_model(parent@) == deques_model(old_parent).push(STree::Node(closed)));
        }
        level = parent;
    }
    proof {
        lemma_levels_model_index(parents@);
        assert(levels_model(parents@) =~= Seq::<Seq<STree<Token>>>::empty());
        lemma_deque_node_model(level);
    }
    TreeDeque::Node(level)
}

/// A finite source of tokens that can be folded into one [`TreeDeque`].
pub trait IntoTreeDequeExt<Token>: Sized {
    /// The sequence of tokens this value supplies, in consumption order.
    spec fn token_seq(self) -> Seq<Token>;

    /// Fold the whole token sequence into one tree, `fun` classifying each
    /// token in order.  The build is total: however unbalanced the signals
    /// are, some well-formed tree comes out, and it flattens back to the
    /// input sequence.
    fn into_tree_deque<F: NestingFunction<Token>>(self, fun: F) -> (t: TreeDeque<Token>)
        ensures
            t@.flat() == self.token_seq(),
            t@ is Node,
            model::level_ok(t@.children()),
            self.token_seq().len() > 0 ==> t@.children().len() > 0,
            self.token_seq().len() == 0 ==> t@ == STree::Node(Seq::<STree<Token>>::empty()),
            exists|sigs: Seq<Nesting>|
                sigs.len() == self.token_seq().len() && t@ == built(self.token_seq(), sigs),
    ;
}

impl<Token> IntoTreeDequeExt<Token> for Vec<Token> {
    open spec fn token_seq(self) -> Seq<Token> {
        self@
    }

    fn into_tree_deque<F: NestingFunction<Token>>(self, fun: F) -> (t: TreeDeque<Token>) {
        let mut fun = fun;
        let mut signals: Vec<Nesting> = Vec::new();
        let n = self.len();
        let mut i: usize = 0;
        while i < n
            invariant
                i <= n,
                n == self@.len(),
                signals@.len() == i as int,
            decreases n - i,
        {
            let sig = fun.direction(&self[i]);
            signals.push(sig);
            i = i + 1;
        }
        let ghost toks = self@;
        let ghost sigs = signals@;
        let t = tree_deque_from_signals(self, signals);
        proof {
            model::lemma_flatten_build(toks, sigs);
            model::lemma_no_empty_branch(toks, sigs);
        }
        t
    }
}

} // verus!
