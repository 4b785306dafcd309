use vstd::prelude::*;
use crate::controller::BranchControl;
use crate::controller::Controller;
use crate::model::flat_all;
use crate::model::level_ok;
use crate::model::lemma_all_no_empty_iff;
use crate::model::lemma_flat_all_push;
use crate::model::parses_children;
use crate::model::parses_nested;
use crate::model::STree;
use crate::tree::Tree;
use crate::tree::lemma_trees_model_index;
use crate::tree::lemma_trees_model_push;
use crate::tree::trees_model;

verus! {

/// A lazy source of top-level subtrees: each pull consumes tokens from the
/// front of the held vector and yields one [`Tree`] — a plain leaf, or,
/// when the controller signals a start, a whole recursively built branch.
pub struct TreeAdapter<Token, Control: Controller<Token>> {
    branching_controller: Control,
    tokens: Vec<Token>,
    observed: Ghost<Seq<BranchControl>>,
}

impl<Token, Control: Controller<Token>> TreeAdapter<Token, Control> {
    /// The tokens not yet consumed, in the order they will be.
    pub closed spec fn remaining_tokens(self) -> Seq<Token> {
        self.tokens@
    }

    /// The controller's answers so far, one per consumed token, in order.
    pub closed spec fn controls_seen(self) -> Seq<BranchControl> {
        self.observed@
    }

    /// Ask the controller how the branch structure changes at `item`,
    /// recording the answer.  Only the controller's own state changes.
    pub fn branch_control(&mut self, item: &Token) -> (b: BranchControl)
        ensures
            final(self).remaining_tokens() == old(self).remaining_tokens(),
            final(self).controls_seen() == old(self).controls_seen().push(b),
    {
        let b = self.branching_controller.control_branch(item);
        proof {
            self.observed@ = self.observed@.push(b);
        }
        b
    }

    /// Build one whole branch whose first member is `item`, consuming
    /// further tokens until the controller ends the branch or the tokens
    /// run out.  The branch holds, in order, exactly `item` followed by
    /// the tokens consumed; none of its nodes is empty; and its members
    /// grow from the consumed window exactly as the recorded controls
    /// direct ([`parses_children`]), closed by its own `End` whenever
    /// tokens remain afterwards.
    pub fn sub_branch(&mut self, item: Token) -> (t: Tree<Token>)
        ensures
            final(self).remaining_tokens().len() <= old(self).remaining_tokens().len(),
            final(self).remaining_tokens() == old(self).remaining_tokens().skip(
                old(self).remaining_tokens().len() - final(self).remaining_tokens().len(),
            ),
            t@.flat() == seq![item] + old(self).remaining_tokens().take(
                old(self).remaining_tokens().len() - final(self).remaining_tokens().len(),
            ),
            t@ is Node,
            t@.no_empty_nodes(),
            t@.children().len() >= 1,
            t@.children()[0] == STree::Leaf(item),
            final(self).controls_seen().len() == old(self).controls_seen().len() + old(
                self,
            ).remaining_tokens().len() - final(self).remaining_tokens().len(),
            final(self).controls_seen().take(old(self).controls_seen().len() as int) == old(
                self,
            ).controls_seen(),
            parses_children(
                old(self).remaining_tokens().take(
                    old(self).remaining_tokens().len() - final(self).remaining_tokens().len(),
                ),
                final(self).controls_seen().skip(old(self).controls_seen().len() as int),
                t@.children().drop_first(),
                true,
            ) || parses_children(
                old(self).remaining_tokens().take(
                    old(self).remaining_tokens().len() - final(self).remaining_tokens().len(),
                ),
                final(self).controls_seen().skip(old(self).controls_seen().len() as int),
                t@.children().drop_first(),
                false,
            ),
            final(self).remaining_tokens().len() > 0 ==> parses_children(
                old(self).remaining_tokens().take(
                    old(self).remaining_tokens().len() - final(self).remaining_tokens().len(),
                ),
                final(self).controls_seen().skip(old(self).controls_seen().len() as int),
                t@.children().drop_first(),
                true,
            ),
        decreases self.remaining_tokens().len(),
    {
        let ghost start = self.tokens@;
        let ghost log0 = self.observed@;
        let ghost first = STree::Leaf(item);
        let mut branches: Vec<Tree<Token>> = Vec::new();
        branches.push(Tree::Leaf(item));
        proof {
            lemma_trees_model_push(Seq::<Tree<Token>>::empty(), branches@.last());
            assert(branches@ == Seq::<Tree<Token>>::empty().push(branches@.last()));
            assert(trees_model(Seq::<Tree<Token>>::empty()) == Seq::<STree<Token>>::empty());
            assert(branches@.last()@ == first);
            assert(trees_model(branches@) =~= seq![first]);
            assert(first.flat() =~= seq![item]);
            assert(trees_model(branches@).drop_first() =~= Seq::<STree<Token>>::empty());
            assert(flat_all(Seq::<STree<Token>>::empty()) == Seq::<Token>::empty());
            assert(trees_model(branches@).first() == first);
            assert(flat_all(trees_model(branches@)) =~= seq![item]);
            assert(start.take(0) =~= Seq::<Token>::empty());
            assert(seq![item] + start.take(0) =~= seq![item]);
            assert(start.skip(0) =~= start);
            assert(log0.skip(log0.len() as int) =~= Seq::<BranchControl>::empty());
            assert(log0.take(log0.len() as int) =~= log0);
        }
        let mut ended = false;
        proof {
            assert forall|
                fts: Seq<Token>,
                fcs: Seq<BranchControl>,
                fkids: Seq<STree<Token>>,
                b: bool,
            |
                #[trigger] parses_children(fts, fcs, fkids, b) && fts.len()
                    <= self.tokens@.len() implies parses_children(
                start.take(start.len() - self.tokens@.len()) + fts,
                self.observed@.skip(log0.len() as int) + fcs,
                trees_model(branches@).drop_first() + fkids,
                b,
            ) by {
                assert(start.take(start.len() - self.tokens@.len()) + fts =~= fts);
                assert(self.observed@.skip(log0.len() as int) + fcs =~= fcs);
                assert(trees_model(branches@).drop_first() + fkids =~= fkids);
            }
        }
        #[verifier::loop_isolation(false)]
        while self.tokens.len() > 0 && !ended
            invariant
                self.tokens@.len() <= start.len(),
                self.tokens@ == start.skip(start.len() - self.tokens@.len()),
                flat_all(trees_model(branches@)) == seq![item] + start.take(
                    start.len() - self.tokens@.len(),
                ),
                branches@.len() > 0,
                level_ok(trees_model(branches@)),
                trees_model(branches@)[0] == first,
                self.observed@.len() == log0.len() + start.len() - self.tokens@.len(),
                self.observed@.take(log0.len() as int) == log0,
                ended ==> parses_children(
                    start.take(start.len() - self.tokens@.len()),
                    self.observed@.skip(log0.len() as int),
                    trees_model(branches@).drop_first(),
                    true,
                ),
                !ended ==> (forall|
                    fts: Seq<Token>,
                    fcs: Seq<BranchControl>,
                    fkids: Seq<STree<Token>>,
                    b: bool,
                |
                    #[trigger] parses_children(fts, fcs, fkids, b) && fts.len()
                        <= self.tokens@.len() ==> parses_children(
                        start.take(start.len() - self.tokens@.len()) + fts,
                        self.observed@.skip(log0.len() as int) + fcs,
                        trees_model(branches@).drop_first() + fkids,
                        b,
                    )),
            decreases self.tokens@.len(),
        {
            let ghost consumed = start.len() - self.tokens@.len();
            let ghost w_ts = start.take(consumed as int);
            let ghost w_cs = self.observed@.skip(log0.len() as int);
            let ghost w_kids = trees_model(branches@).drop_first();
            let next = self.tokens.remove(0);
            proof {
                assert(next == start[consumed as int]);
                assert(self.tokens@ =~= start.skip(consumed as int + 1));
                assert(start.take(consumed as int + 1) =~= start.take(consumed as int).push(
                    next,
                ));
            }
            let ghost old_branches = branches@;
            let b = self.branch_control(&next);
            proof {
                assert(self.observed@.skip(log0.len() as int) =~= w_cs.push(b));
                assert(self.observed@.take(log0.len() as int) =~= log0);
            }
            match b {
                BranchControl::Start => {
                    let ghost before_sub = self.tokens@;
                    let ghost log_before_sub = self.observed@;
                    let sub = self.sub_branch(next);
                    let ghost after_sub = self.tokens@;
                    let ghost i_ts = before_sub.take(before_sub.len() - after_sub.len());
                    let ghost i_cs = self.observed@.skip(log_before_sub.len() as int);
                    let ghost i_kids = sub@.children().drop_first();
                    branches.push(sub);
                    proof {
                        lemma_trees_model_push(old_branches, branches@.last());
                        assert(branches@ == old_branches.push(branches@.last()));
                        assert(branches@.last()@ == sub@);
                        assert(trees_model(branches@) == trees_model(old_branches).push(sub@));
                        lemma_flat_all_push(trees_model(old_branches), sub@);
                        let used = before_sub.len() - after_sub.len();
                        assert(after_sub =~= start.skip(start.len() - after_sub.len()));
                        assert(start.take(start.len() - after_sub.len()) =~= start.take(
                            consumed as int + 1,
                        ) + before_sub.take(used as int)) by {
                            assert(before_sub =~= start.skip(consumed as int + 1));
                        }
                        assert(flat_all(trees_model(branches@)) =~= seq![item] + start.take(
                            start.len() - self.tokens@.len(),
                        ));
                        assert forall|i: int| 0 <= i < trees_model(branches@).len()
                            implies #[trigger] trees_model(branches@)[i].no_empty_nodes() by {
                            lemma_trees_model_index(branches@);
                            if i < trees_model(branches@).len() - 1 {
                                assert(trees_model(old_branches)[i].no_empty_nodes());
                            }
                        }
                        // The recorded controls now read: the window so far,
                        // the `Start` for `next`, then the nested window.
                        assert(self.observed@ =~= self.observed@.take(
                            log_before_sub.len() as int,
                        ) + self.observed@.skip(log_before_sub.len() as int));
                        assert(self.observed@.take(log_before_sub.len() as int)
                            == log_before_sub);
                        assert(log_before_sub =~= log0 + w_cs.push(BranchControl::Start));
                        assert(self.observed@.take(log0.len() as int) =~= log0);
                        assert(self.observed@.skip(log0.len() as int) =~= w_cs + (seq![
                            BranchControl::Start,
                        ] + i_cs));
                        assert(trees_model(branches@).drop_first() =~= w_kids.push(sub@));
                        // The whole nested branch, head leaf included,
                        // parses from its window.
                        assert(sub@.flat().len() == 1 + i_ts.len());
                        assert forall|
                            fts: Seq<Token>,
                            fcs: Seq<BranchControl>,
                            fkids: Seq<STree<Token>>,
                            bb: bool,
                        |
                            #[trigger] parses_children(fts, fcs, fkids, bb) && fts.len()
                                <= self.tokens@.len() implies parses_children(
                            start.take(start.len() - self.tokens@.len()) + fts,
                            self.observed@.skip(log0.len() as int) + fcs,
                            trees_model(branches@).drop_first() + fkids,
                            bb,
                        ) by {
                            let mid_ts = seq![next] + i_ts + fts;
                            let mid_cs = seq![BranchControl::Start] + i_cs + fcs;
                            let mid_kids = seq![sub@] + fkids;
                            let n = 1 + i_ts.len() as int;
                            assert(mid_ts.subrange(1, n) =~= i_ts);
                            assert(mid_cs.subrange(1, n) =~= i_cs);
                            assert(mid_ts.skip(n) =~= fts);
                            assert(mid_cs.skip(n) =~= fcs);
                            assert(mid_kids.drop_first() =~= fkids);
                            assert(mid_kids[0].children().drop_first() == i_kids);
                            if !parses_children(i_ts, i_cs, i_kids, true) {
                                assert(after_sub.len() == 0);
                                assert(fts.len() == 0);
                                assert(n == mid_ts.len());
                            }
                            assert(parses_nested(mid_ts, mid_cs, mid_kids, bb, n));
                            assert(mid_kids[0].flat().len() as int == n);
                            assert(parses_children(mid_ts, mid_cs, mid_kids, bb));
                            assert(mid_ts.len() <= before_sub.len() + 1);
                            assert(parses_children(
                                w_ts + mid_ts,
                                w_cs + mid_cs,
                                w_kids + mid_kids,
                                bb,
                            ));
                            assert(start.take(start.len() - self.tokens@.len()) + fts =~= w_ts
                                + mid_ts);
                            assert(self.observed@.skip(log0.len() as int) + fcs =~= w_cs
                                + mid_cs);
                            assert(trees_model(branches@).drop_first() + fkids =~= w_kids
                                + mid_kids);
                        }
                    }
                },
                BranchControl::Continue => {
                    let ghost leaf = STree::Leaf(next);
                    branches.push(Tree::Leaf(next));
                    proof {
                        lemma_trees_model_push(old_branches, branches@.last());
                        assert(branches@ == old_branches.push(branches@.last()));
                        assert(branches@.last()@ == leaf);
                        assert(trees_model(branches@) == trees_model(old_branches).push(leaf));
                        lemma_flat_all_push(trees_model(old_branches), leaf);
                        assert(flat_all(trees_model(branches@)) =~= seq![item] + start.take(
                            consumed as int + 1,
                        ));
                        assert forall|i: int| 0 <= i < trees_model(branches@).len()
                            implies #[trigger] trees_model(branches@)[i].no_empty_nodes() by {
                            if i < trees_model(branches@).len() - 1 {
                                assert(trees_model(old_branches)[i].no_empty_nodes());
                            }
                        }
                        assert(trees_model(branches@).drop_first() =~= w_kids.push(leaf));
                        assert forall|
                            fts: Seq<Token>,
                            fcs: Seq<BranchControl>,
                            fkids: Seq<STree<Token>>,
                            bb: bool,
                        |
                            #[trigger] parses_children(fts, fcs, fkids, bb) && fts.len()
                                <= self.tokens@.len() implies parses_children(
                            start.take(start.len() - self.tokens@.len()) + fts,
                            self.observed@.skip(log0.len() as int) + fcs,
                            trees_model(branches@).drop_first() + fkids,
                            bb,
                        ) by {
                            let mid_ts = seq![next] + fts;
                            let mid_cs = seq![BranchControl::Continue] + fcs;
                            let mid_kids = seq![leaf] + fkids;
                            assert(mid_ts.drop_first() =~= fts);
                            assert(mid_cs.drop_first() =~= fcs);
                            assert(mid_kids.drop_first() =~= fkids);
                            assert(parses_children(mid_ts, mid_cs, mid_kids, bb));
                            assert(mid_ts.len() <= self.tokens@.len() + 1);
                            assert(parses_children(
                                w_ts + mid_ts,
                                w_cs + mid_cs,
                                w_kids + mid_kids,
                                bb,
                            ));
                            assert(start.take(start.len() - self.tokens@.len()) + fts =~= w_ts
                                + mid_ts);
                            assert(self.observed@.skip(log0.len() as int) + fcs =~= w_cs
                                + mid_cs);
                            assert(trees_model(branches@).drop_first() + fkids =~= w_kids
                                + mid_kids);
                        }
                    }
                },
                BranchControl::End => {
                    let ghost leaf = STree::Leaf(next);
                    branches.push(Tree::Leaf(next));
                    ended = true;
                    proof {
                        lemma_trees_model_push(old_branches, branches@.last());
                        assert(branches@ == old_branches.push(branches@.last()));
                        assert(branches@.last()@ == leaf);
                        assert(trees_model(branches@) == trees_model(old_branches).push(leaf));
                        lemma_flat_all_push(trees_model(old_branches), leaf);
                        assert(flat_all(trees_model(branches@)) =~= seq![item] + start.take(
                            consumed as int + 1,
                        ));
                        assert forall|i: int| 0 <= i < trees_model(branches@).len()
                            implies #[trigger] trees_model(branches@)[i].no_empty_nodes() by {
                            if i < trees_model(branches@).len() - 1 {
                                assert(trees_model(old_branches)[i].no_empty_nodes());
                            }
                        }
                        assert(trees_model(branches@).drop_first() =~= w_kids.push(leaf));
                        // The closing `End`: the window parses as a branch
                        // closed by its own end.
                        let mid_ts = seq![next];
                        let mid_cs = seq![BranchControl::End];
                        let mid_kids = seq![leaf];
                        assert(mid_kids =~= seq![STree::Leaf(mid_ts[0])]);
                        assert(parses_children(mid_ts, mid_cs, mid_kids, true));
                        assert(mid_ts.len() <= self.tokens@.len() + 1);
                        assert(parses_children(
                            w_ts + mid_ts,
                            w_cs + mid_cs,
                            w_kids + mid_kids,
                            true,
                        ));
                        assert(start.take(start.len() - self.tokens@.len()) =~= w_ts + mid_ts);
                        assert(self.observed@.skip(log0.len() as int) =~= w_cs + mid_cs);
                        assert(trees_model(branches@).drop_first() =~= w_kids + mid_kids);
                    }
                },
            }
        }
        proof {
            if !ended {
                assert(parses_children(
                    Seq::<Token>::empty(),
                    Seq::<BranchControl>::empty(),
                    Seq::<STree<Token>>::empty(),
                    false,
                ));
                assert(parses_children(
                    start.take(start.len() - self.tokens@.len())
                        + Seq::<Token>::empty(),
                    self.observed@.skip(log0.len() as int) + Seq::<BranchControl>::empty(),
                    trees_model(branches@).drop_first() + Seq::<STree<Token>>::empty(),
                    false,
                ));
                assert(start.take(start.len() - self.tokens@.len()) + Seq::<Token>::empty()
                    =~= start.take(start.len() - self.tokens@.len()));
                assert(self.observed@.skip(log0.len() as int) + Seq::<BranchControl>::empty()
                    =~= self.observed@.skip(log0.len() as int));
                assert(trees_model(branches@).drop_first() + Seq::<STree<Token>>::empty()
                    =~= trees_model(branches@).drop_first());
            }
            lemma_all_no_empty_iff(trees_model(branches@));
            lemma_trees_model_index(branches@);
        }
        Tree::Node(branches)
    }

    /// Pull the next top-level subtree: `None` once the tokens are out;
    /// otherwise one tree that holds, in order, exactly the tokens this
    /// pull consumed.  A `Start` answer yields a whole branch grown as the
    /// recorded controls direct; any other answer — an unmatched `End`
    /// included — degrades to a plain leaf.
    pub fn next(&mut self) -> (r: Option<Tree<Token>>)
        ensures
            r is None ==> old(self).remaining_tokens().len() == 0
                && final(self).remaining_tokens() == old(self).remaining_tokens()
                && final(self).controls_seen() == old(self).controls_seen(),
            r matches Some(t) ==> {
                &&& old(self).remaining_tokens().len() > 0
                &&& final(self).remaining_tokens().len() < old(self).remaining_tokens().len()
                &&& final(self).remaining_tokens() == old(self).remaining_tokens().skip(
                    old(self).remaining_tokens().len() - final(self).remaining_tokens().len(),
                )
                &&& t@.flat() == old(self).remaining_tokens().take(
                    old(self).remaining_tokens().len() - final(self).remaining_tokens().len(),
                )
                &&& t@.no_empty_nodes()
                &&& final(self).controls_seen().len() == old(self).controls_seen().len() + old(
                    self,
                ).remaining_tokens().len() - final(self).remaining_tokens().len()
                &&& final(self).controls_seen().take(old(self).controls_seen().len() as int)
                    == old(self).controls_seen()
                &&& (final(self).controls_seen()[old(self).controls_seen().len() as int]
                    is Start ==> {
                    &&& t@ is Node
                    &&& t@.children().len() >= 1
                    &&& t@.children()[0] == STree::Leaf(old(self).remaining_tokens()[0])
                    &&& (parses_children(
                        old(self).remaining_tokens().subrange(
                            1,
                            old(self).remaining_tokens().len()
                                - final(self).remaining_tokens().len(),
                        ),
                        final(self).controls_seen().skip(
                            old(self).controls_seen().len() as int + 1,
                        ),
                        t@.children().drop_first(),
                        true,
                    ) || parses_children(
                        old(self).remaining_tokens().subrange(
                            1,
                            old(self).remaining_tokens().len()
                                - final(self).remaining_tokens().len(),
                        ),
                        final(self).controls_seen().skip(
                            old(self).controls_seen().len() as int + 1,
                        ),
                        t@.children().drop_first(),
                        false,
                    ))
                    &&& final(self).remaining_tokens().len() > 0 ==> parses_children(
                        old(self).remaining_tokens().subrange(
                            1,
                            old(self).remaining_tokens().len()
                                - final(self).remaining_tokens().len(),
                        ),
                        final(self).controls_seen().skip(
                            old(self).controls_seen().len() as int + 1,
                        ),
                        t@.children().drop_first(),
                        true,
                    )
                })
                &&& (!(final(self).controls_seen()[old(self).controls_seen().len() as int]
                    is Start) ==> t@ == STree::Leaf(old(self).remaining_tokens()[0]))
            },
    {
        if self.tokens.len() == 0 {
            return None;
        }
        let ghost start = self.tokens@;
        let ghost log0 = self.observed@;
        let next = self.tokens.remove(0);
        proof {
            assert(next == start[0]);
            assert(self.tokens@ =~= start.skip(1));
        }
        let b = self.branch_control(&next);
        proof {
            assert(self.observed@[log0.len() as int] == b);
            assert(self.observed@.take(log0.len() as int) =~= log0);
        }
        match b {
            BranchControl::Start => {
                let ghost before_sub = self.tokens@;
                let ghost log_before_sub = self.observed@;
                let t = self.sub_branch(next);
                proof {
                    let used = before_sub.len() - self.tokens@.len();
                    assert(self.tokens@ =~= start.skip(start.len() - self.tokens@.len()));
                    assert(start.take(start.len() - self.tokens@.len()) =~= seq![next]
                        + before_sub.take(used as int)) by {
                        assert(before_sub =~= start.skip(1));
                    }
                    assert(t@.flat() =~= start.take(start.len() - self.tokens@.len()));
                    assert(self.observed@.take(log0.len() as int) =~= log0);
                    assert(self.observed@[log0.len() as int] == BranchControl::Start);
                    assert(start.subrange(1, start.len() - self.tokens@.len()) =~= before_sub
                        .take(used as int));
                    assert(self.observed@.skip(log0.len() as int + 1) =~= self.observed@.skip(
                        log_before_sub.len() as int,
                    ));
                }
                Some(t)
            },
            BranchControl::Continue => {
                proof {
                    assert((Tree::Leaf(next))@.flat() =~= seq![next]);
                    assert(start.take(1) =~= seq![next]);
                }
                Some(Tree::Leaf(next))
            },
            BranchControl::End => {
                proof {
                    assert((Tree::Leaf(next))@.flat() =~= seq![next]);
                    assert(start.take(1) =~= seq![next]);
                }
                Some(Tree::Leaf(next))
            },
        }
    }
}

/// A finite source of tokens that can be wrapped into a lazy [`TreeAdapter`].
pub trait Treeable<Token>: Sized {
    /// The sequence of tokens this value supplies, in consumption order.
    spec fn token_seq(self) -> Seq<Token>;

    /// Wrap the tokens and a branch controller into a lazy adapter that
    /// yields one top-level subtree per pull.
    fn tree<Control: Controller<Token>>(self, branching_controller: Control) -> (adapter:
        TreeAdapter<Token, Control>)
        ensures
            adapter.remaining_tokens() == self.token_seq(),
            adapter.controls_seen() == Seq::<BranchControl>::empty(),
    ;
}

impl<Token> Treeable<Token> for Vec<Token> {
    open spec fn token_seq(self) -> Seq<Token> {
        self@
    }

    fn tree<Control: Controller<Token>>(self, branching_controller: Control) -> (adapter:
        TreeAdapter<Token, Control>) {
        TreeAdapter { branching_controller, tokens: self, observed: Ghost(Seq::empty()) }
    }
}

} // verus!
