use vstd::prelude::*;
use crate::model;
use crate::model::BuildState;
use crate::model::STree;
use crate::model::built;
use crate::model::finish;
use crate::model::run;
use crate::nesting_function::Nesting;
use crate::nesting_function::NestingFunction;
use crate::tree::Tree;
use crate::tree::lemma_trees_model_index;
use crate::tree::trees_model;

verus! {

/// The model of each level of a stack of levels, outermost first.
pub open spec fn levels_model<Token>(levels: Seq<Vec<Tree<Token>>>) -> Seq<Seq<STree<Token>>>
    decreases levels,
{
    if levels.len() == 0 {
        Seq::empty()
    } else {
        levels_model(levels.drop_last()).push(trees_model(levels.last()@))
    }
}

/// `levels_model` maps the stack level by level.
pub proof fn lemma_levels_model_index<Token>(levels: Seq<Vec<Tree<Token>>>)
    ensures
        levels_model(levels).len() == levels.len(),
        forall|j: int| 0 <= j < levels.len() ==> #[trigger] levels_model(levels)[j]
            == trees_model(levels[j]@),
    decreases levels.len(),
{
    if levels.len() > 0 {
        lemma_levels_model_index(levels.drop_last());
        assert forall|j: int| 0 <= j < levels.len() implies #[trigger] levels_model(levels)[j]
            == trees_model(levels[j]@) by {
            if j < levels.len() - 1 {
                assert(levels_model(levels)[j] == levels_model(levels.drop_last())[j]);
                assert(levels.drop_last()[j] == levels[j]);
            } else {
                assert(levels_model(levels)[j] == trees_model(levels.last()@));
            }
        }
    }
}

/// Build the tree of `tokens` under the signal sequence `signals`, signal
/// `i` directing token `i`.  The result is exactly the model builder's
/// tree, so the laws of [`crate::model`] apply to it unchanged.
pub fn tree_from_signals<Token>(tokens: Vec<Token>, signals: Vec<Nesting>) -> (t: Tree<Token>)
    requires
        signals@.len() == tokens@.len(),
    ensures
        t@ == built(tokens@, signals@),
{
    let ghost toks = tokens@;
    let ghost sigs = signals@;
    let mut rest = tokens;
    let mut parents: Vec<Vec<Tree<Token>>> = Vec::new();
    let mut level: Vec<Tree<Token>> = Vec::new();
    let n = signals.len();
    let mut i: usize = 0;
    proof {
        assert(toks.take(0) =~= Seq::<Token>::empty());
        assert(sigs.take(0) =~= Seq::<Nesting>::empty());
        assert(rest@ =~= toks.skip(0));
    }
    while i < n
        invariant
            i <= n,
            n == sigs.len(),
            toks.len() == sigs.len(),
            signals@ == sigs,
            rest@ == toks.skip(i as int),
            levels_model(parents@) == run(toks.take(i as int), sigs.take(i as int)).parents,
            trees_model(level@) == run(toks.take(i as int), sigs.take(i as int)).level,
        decreases n - i,
    {
        proof {
            assert(toks.skip(i as int)[0] == toks[i as int]);
        }
        let tok = rest.remove(0);
        proof {
            assert(rest@ =~= toks.skip(i as int + 1));
        }
        let sig = signals[i];
        let ghost leaf = STree::Leaf(tok);
        match sig {
            Nesting::Increase => {
                let ghost old_parents = parents@;
                let ghost old_level = level@;
                parents.push(level);
                level = Vec::new();
                level.push(Tree::Leaf(tok));
                proof {
                    assert(parents@.drop_last() =~= old_parents);
                    assert(levels_model(parents@) == levels_model(old_parents).push(
                        trees_model(old_level),
                    ));
                    assert(level@.drop_last() =~= Seq::<Tree<Token>>::empty());
                    assert(trees_model(Seq::<Tree<Token>>::empty())
                        == Seq::<STree<Token>>::empty());
                    assert(level@.last()@ == leaf);
                    assert(trees_model(level@) == trees_model(level@.drop_last()).push(
                        level@.last()@,
                    ));
                    assert(trees_model(level@) =~= seq![leaf]);
                }
            },
            Nesting::Maintain => {
                let ghost old_level = level@;
                level.push(Tree::Leaf(tok));
                proof {
                    assert(level@.drop_last() =~= old_level);
                    assert(level@.len() > 0);
                    assert(level@.last() == Tree::Leaf(tok));
                    assert(level@.last()@ == leaf);
                    assert(trees_model(level@) == trees_model(level@.drop_last()).push(
                        level@.last()@,
                    ));
                    assert(trees_model(level@) == trees_model(old_level).push(leaf));
                }
            },
            Nesting::Decrease => {
                let ghost old_level = level@;
                level.push(Tree::Leaf(tok));
                proof {
                    assert(level@.drop_last() =~= old_level);
                    assert(trees_model(level@) == trees_model(old_level).push(leaf));
                }
                let ghost closed = trees_model(level@);
                let ghost old_parents = parents@;
                let mut parent = match parents.pop() {
                    Some(p) => p,
                    None => Vec::new(),
                };
                proof {
                    lemma_levels_model_index(old_parents);
                    if old_parents.len() > 0 {
                        assert(levels_model(old_parents).drop_last() =~= levels_model(
                            old_parents.drop_last(),
                        )) by {
                            lemma_levels_model_index(old_parents.drop_last());
                            assert forall|j: int| 0 <= j < old_parents.len() - 1 implies
                                levels_model(old_parents)[j] == levels_model(
                                old_parents.drop_last(),
                            )[j] by {
                                assert(old_parents.drop_last()[j] == old_parents[j]);
                            }
                        }
                        assert(trees_model(parent@) == levels_model(old_parents).last());
                    } else {
                        assert(levels_model(parents@) =~= Seq::<Seq<STree<Token>>>::empty());
                        assert(trees_model(parent@) =~= Seq::<STree<Token>>::empty());
                    }
                }
                let ghost old_parent = parent@;
                parent.push(Tree::Node(level));
                proof {
                    assert(parent@.drop_last() =~= old_parent);
                    assert(parent@.len() > 0);
                    assert(parent@.last()@ == STree::Node(closed));
                    assert(trees_model(parent@) == trees_model(parent@.drop_last()).push(
                        parent@.last()@,
                    ));
                    assert(trees_model(parent@) == trees_model(old_parent).push(
                        STree::Node(closed),
                    ));
                }
                level = parent;
            },
        }
        proof {
            model::lemma_run_snoc(toks, sigs, i as int);
        }
        i = i + 1;
    }
    proof {
        assert(toks.take(n as int) =~= toks);
        assert(sigs.take(n as int) =~= sigs);
    }
    while parents.len() > 0
        invariant
            finish(
                BuildState { parents: levels_model(parents@), level: trees_model(level@) },
            ) == built(toks, sigs),
        decreases parents.len(),
    {
        let ghost old_parents = parents@;
        let ghost closed = trees_model(level@);
        let mut parent = match parents.pop() {
            Some(p) => p,
            None => Vec::new(),
        };
        proof {
            lemma_levels_model_index(old_parents);
            assert(levels_model(old_parents).drop_last() =~= levels_model(
                old_parents.drop_last(),
            )) by {
                lemma_levels_model_index(old_parents.drop_last());
                assert forall|j: int| 0 <= j < old_parents.len() - 1 implies levels_model(
                    old_parents,
                )[j] == levels_model(old_parents.drop_last())[j] by {
                    assert(old_parents.drop_last()[j] == old_parents[j]);
                }
            }
            assert(trees_model(parent@) == levels_model(old_parents).last());
        }
        let ghost old_parent = parent@;
        parent.push(Tree::Node(level));
        proof {
            assert(parent@.drop_last() =~= old_parent);
            assert(parent@.len() > 0);
            assert(parent@.last()@ == STree::Node(closed));
            assert(trees_model(parent@) == trees_model(parent@.drop_last()).push(
                parent@.last()@,
            ));
            assert(trees_model(parent@) == trees_model(old_parent).push(STree::Node(closed)));
        }
        level = parent;
    }
    proof {
        lemma_levels_model_index(parents@);
        assert(levels_model(parents@) =~= Seq::<Seq<STree<Token>>>::empty());
    }
    Tree::Node(level)
}

/// A finite source of tokens that can be folded into one [`Tree`].
pub trait IntoTreeExt<Token>: Sized {
    /// The sequence of tokens this value supplies, in consumption order.
    spec fn token_seq(self) -> Seq<Token>;

    /// Fold the whole token sequence into one tree, `fun` classifying each
    /// token in order.  The build is total: however unbalanced the signals
    /// are, some well-formed tree comes out, and it flattens back to the
    /// input sequence.
    fn into_tree<F: NestingFunction<Token>>(self, fun: F) -> (t: Tree<Token>)
        ensures
            t@.flat() == self.token_seq(),
            t@ is Node,
            model::level_ok(t@.children()),
            self.token_seq().len() > 0 ==> t@.children().len() > 0,
            self.token_seq().len() == 0 ==> t@ == STree::Node(Seq::<STree<Token>>::empty()),
            exists|sigs: Seq<Nesting>|
                sigs.len() == self.token_seq().len() && t@ == built(self.token_seq(), sigs),
    ;
}

impl<Token> IntoTreeExt<Token> for Vec<Token> {
    open spec fn token_seq(self) -> Seq<Token> {
        self@
    }

    fn into_tree<F: NestingFunction<Token>>(self, fun: F) -> (t: Tree<Token>) {
        let mut fun = fun;
        let mut signals: Vec<Nesting> = Vec::new();
        let n = self.len();
        let mut i: usize = 0;
        while i < n
            invariant
                i <= n,
                n == self@.len(),
                signals@.len() == i as int,
            decreases n - i,
        {
            let sig = fun.direction(&self[i]);
            signals.push(sig);
            i = i + 1;
        }
        let ghost toks = self@;
        let ghost sigs = signals@;
        let t = tree_from_signals(self, signals);
        proof {
            model::lemma_flatten_build(toks, sigs);
            model::lemma_no_empty_branch(toks, sigs);
        }
        t
    }
}

} // verus!
