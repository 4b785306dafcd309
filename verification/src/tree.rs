pub mod adapter;
pub mod into_tree;
pub mod iter;

use vstd::prelude::*;
use crate::model::STree;

verus! {

/// A tree of tokens backed by a contiguous growable array: either a leaf
/// holding one token, or a node holding an ordered list of subtrees.
#[derive(Debug)]
pub enum Tree<Token> {
    /// One token.
    Leaf(Token),
    /// An ordered list of subtrees.
    Node(Vec<Tree<Token>>),
}

impl<Token> View for Tree<Token> {
    type V = STree<Token>;

    open spec fn view(&self) -> STree<Token>
        decreases self,
    {
        match self {
            Tree::Leaf(t) => STree::Leaf(*t),
            Tree::Node(children) => STree::Node(trees_model(children@)),
        }
    }
}

/// The model of each tree of a sequence, in order.
pub open spec fn trees_model<Token>(trees: Seq<Tree<Token>>) -> Seq<STree<Token>>
    decreases trees,
{
    if trees.len() == 0 {
        Seq::empty()
    } else {
        trees_model(trees.drop_last()).push(trees.last()@)
    }
}

/// `trees_model` maps the sequence element by element.
pub proof fn lemma_trees_model_index<Token>(trees: Seq<Tree<Token>>)
    ensures
        trees_model(trees).len() == trees.len(),
        forall|i: int| 0 <= i < trees.len() ==> #[trigger] trees_model(trees)[i] == trees[i]@,
    decreases trees.len(),
{
    if trees.len() > 0 {
        lemma_trees_model_index(trees.drop_last());
        assert(trees_model(trees) == trees_model(trees.drop_last()).push(trees.last()@));
        assert forall|i: int| 0 <= i < trees.len() implies #[trigger] trees_model(trees)[i]
            == trees[i]@ by {
            if i < trees.len() - 1 {
                assert(trees_model(trees)[i] == trees_model(trees.drop_last())[i]);
                assert(trees.drop_last()[i] == trees[i]);
            } else {
                assert(trees_model(trees)[i] == trees.last()@);
            }
        }
    }
}

/// Appending a tree appends its model.
pub proof fn lemma_trees_model_push<Token>(trees: Seq<Tree<Token>>, t: Tree<Token>)
    ensures
        trees_model(trees.push(t)) == trees_model(trees).push(t@),
{
    assert(trees.push(t).drop_last() =~= trees);
    assert(trees.push(t).last() == t);
}

impl<Token> Tree<Token> {
    /// The leaf tokens of the tree, depth first, left to right.
    pub open spec fn flat(self) -> Seq<Token> {
        self@.flat()
    }
}

} // verus!
