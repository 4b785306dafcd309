//! The mathematical model of the library.
//!
//! [`STree`] is the specification-level tree: a leaf holding one token, or a
//! node holding a sequence of subtrees.  The executable trees ([`crate::tree::Tree`],
//! [`crate::tree_deque::TreeDeque`]) both view into it, so the builders for either
//! backend are proved against the one model builder [`built`], and the laws
//! below speak for both.

use vstd::prelude::*;
use crate::controller::BranchControl;
use crate::nesting_function::Nesting;

verus! {

/// Specification-level tree: either one token, or an ordered sequence of
/// subtrees.
pub enum STree<T> {
    /// One token.
    Leaf(T),
    /// An ordered sequence of subtrees.
    Node(Seq<STree<T>>),
}

impl<T> STree<T> {
    /// The leaf tokens of the tree, depth first, left to right.
    pub open spec fn flat(self) -> Seq<T>
        decreases self,
    {
        match self {
            STree::Leaf(t) => seq![t],
            STree::Node(children) => flat_all(children),
        }
    }

    /// No node of the tree, itself included, is empty.
    pub open spec fn no_empty_nodes(self) -> bool
        decreases self,
    {
        match self {
            STree::Leaf(_) => true,
            STree::Node(children) => children.len() > 0 && all_no_empty(children),
        }
    }

    /// The number of leaves and nodes of the tree.
    pub open spec fn size(self) -> nat
        decreases self,
    {
        match self {
            STree::Leaf(_) => 1,
            STree::Node(children) => 1 + size_all(children),
        }
    }

    /// The subtrees of a node; the empty sequence on a leaf.
    pub open spec fn children(self) -> Seq<STree<T>> {
        match self {
            STree::Leaf(_) => Seq::empty(),
            STree::Node(children) => children,
        }
    }

    /// The depth of each leaf, in flattening order, when the root of the
    /// tree itself stands at depth `d`.
    pub open spec fn leaf_depths(self, d: int) -> Seq<int>
        decreases self,
    {
        match self {
            STree::Leaf(_) => seq![d],
            STree::Node(children) => leaf_depths_all(children, d + 1),
        }
    }
}

/// Every tree of the sequence satisfies [`STree::no_empty_nodes`].
pub open spec fn all_no_empty<T>(trees: Seq<STree<T>>) -> bool
    decreases trees,
{
    if trees.len() == 0 {
        true
    } else {
        trees.first().no_empty_nodes() && all_no_empty(trees.drop_first())
    }
}

/// [`all_no_empty`] says exactly that each element satisfies
/// [`STree::no_empty_nodes`].
pub proof fn lemma_all_no_empty_iff<T>(trees: Seq<STree<T>>)
    ensures
        all_no_empty(trees) <==> (forall|i: int|
            0 <= i < trees.len() ==> #[trigger] trees[i].no_empty_nodes()),
    decreases trees.len(),
{
    if trees.len() > 0 {
        lemma_all_no_empty_iff(trees.drop_first());
        if all_no_empty(trees) {
            assert forall|i: int| 0 <= i < trees.len() implies #[trigger] trees[i].no_empty_nodes() by {
                if i == 0 {
                    assert(trees[0] == trees.first());
                } else {
                    assert(trees.drop_first()[i - 1].no_empty_nodes());
                    assert(trees.drop_first()[i - 1] == trees[i]);
                }
            }
        }
        if forall|i: int| 0 <= i < trees.len() ==> #[trigger] trees[i].no_empty_nodes() {
            assert forall|i: int| 0 <= i < trees.drop_first().len()
                implies #[trigger] trees.drop_first()[i].no_empty_nodes() by {
                assert(trees.drop_first()[i] == trees[i + 1]);
            }
            assert(trees.first() == trees[0]);
            assert(trees.first().no_empty_nodes());
            assert(all_no_empty(trees.drop_first()));
            assert(all_no_empty(trees));
        }
    }
}

/// The leaf tokens of a sequence of trees, in order.
pub open spec fn flat_all<T>(trees: Seq<STree<T>>) -> Seq<T>
    decreases trees,
{
    if trees.len() == 0 {
        Seq::empty()
    } else {
        trees.first().flat() + flat_all(trees.drop_first())
    }
}

/// The total number of leaves and nodes of a sequence of trees.
pub open spec fn size_all<T>(trees: Seq<STree<T>>) -> nat
    decreases trees,
{
    if trees.len() == 0 {
        0
    } else {
        trees.first().size() + size_all(trees.drop_first())
    }
}

/// The depth of each leaf of a sequence of trees, in order, when the roots
/// of the trees stand at depth `d`.
pub open spec fn leaf_depths_all<T>(trees: Seq<STree<T>>, d: int) -> Seq<int>
    decreases trees,
{
    if trees.len() == 0 {
        Seq::empty()
    } else {
        leaf_depths_all(trees.drop_last(), d) + trees.last().leaf_depths(d)
    }
}

/// The state of the model builder: the stack of open parent levels, bottom
/// first, and the level currently being filled.
pub struct BuildState<T> {
    /// The open parent levels, outermost first.
    pub parents: Seq<Seq<STree<T>>>,
    /// The level the next token is appended to.
    pub level: Seq<STree<T>>,
}

/// The builder's starting state: no parents, an empty level.
pub open spec fn init<T>() -> BuildState<T> {
    BuildState { parents: Seq::empty(), level: Seq::empty() }
}

/// One step of the model builder: consume `tok` under the signal `sig`.
///
/// `Increase` opens a new level with the token as its first leaf;
/// `Maintain` appends the token to the current level; `Decrease` appends
/// the token, closes the level into a node, and appends that node to the
/// popped parent — or to a fresh, synthesized parent when the stack is
/// empty.
pub open spec fn step<T>(st: BuildState<T>, tok: T, sig: Nesting) -> BuildState<T> {
    match sig {
        Nesting::Increase => BuildState {
            parents: st.parents.push(st.level),
            level: seq![STree::Leaf(tok)],
        },
        Nesting::Maintain => BuildState { parents: st.parents, level: st.level.push(STree::Leaf(tok)) },
        Nesting::Decrease => {
            let closed = st.level.push(STree::Leaf(tok));
            if st.parents.len() == 0 {
                BuildState { parents: Seq::empty(), level: seq![STree::Node(closed)] }
            } else {
                BuildState {
                    parents: st.parents.drop_last(),
                    level: st.parents.last().push(STree::Node(closed)),
                }
            }
        },
    }
}

/// The builder's state after consuming all of `tokens` under `signals`,
/// signal `i` classifying token `i`.
pub open spec fn run<T>(tokens: Seq<T>, signals: Seq<Nesting>) -> BuildState<T>
    decreases tokens.len(),
{
    if tokens.len() == 0 || signals.len() == 0 {
        init()
    } else {
        step(run(tokens.drop_last(), signals.drop_last()), tokens.last(), signals.last())
    }
}

/// Consuming one more token steps the state once.
pub proof fn lemma_run_snoc<T>(tokens: Seq<T>, signals: Seq<Nesting>, i: int)
    requires
        0 <= i < tokens.len(),
        i < signals.len(),
    ensures
        run(tokens.take(i + 1), signals.take(i + 1)) == step(
            run(tokens.take(i), signals.take(i)),
            tokens[i],
            signals[i],
        ),
{
    assert(tokens.take(i + 1).drop_last() =~= tokens.take(i));
    assert(signals.take(i + 1).drop_last() =~= signals.take(i));
    assert(tokens.take(i + 1).last() == tokens[i]);
    assert(signals.take(i + 1).last() == signals[i]);
}

/// Close every remaining open level at the end of the input: wrap the
/// current level as a node into the popped parent until no parent is left,
/// then wrap the remaining level as the root node.
pub open spec fn finish<T>(st: BuildState<T>) -> STree<T>
    decreases st.parents.len(),
{
    if st.parents.len() == 0 {
        STree::Node(st.level)
    } else {
        finish(
            BuildState {
                parents: st.parents.drop_last(),
                level: st.parents.last().push(STree::Node(st.level)),
            },
        )
    }
}

/// The tree the builder makes of `tokens` under `signals`.
pub open spec fn built<T>(tokens: Seq<T>, signals: Seq<Nesting>) -> STree<T> {
    finish(run(tokens, signals))
}

/// Appending a tree appends its leaves.
pub proof fn lemma_flat_all_push<T>(trees: Seq<STree<T>>, t: STree<T>)
    ensures
        flat_all(trees.push(t)) == flat_all(trees) + t.flat(),
    decreases trees.len(),
{
    if trees.len() == 0 {
        assert(trees.push(t).drop_first() =~= Seq::<STree<T>>::empty());
        assert(flat_all(Seq::<STree<T>>::empty()) == Seq::<T>::empty());
        assert(trees.push(t).first() == t);
        assert(flat_all(trees.push(t)) =~= flat_all(trees) + t.flat());
    } else {
        assert(trees.push(t).drop_first() =~= trees.drop_first().push(t));
        lemma_flat_all_push(trees.drop_first(), t);
        assert(trees.push(t).first() == trees.first());
        assert(flat_all(trees.push(t)) =~= flat_all(trees) + t.flat());
    }
}

/// The leaf tokens held by a stack of levels, outermost first.
pub open spec fn levels_flat<T>(levels: Seq<Seq<STree<T>>>) -> Seq<T>
    decreases levels.len(),
{
    if levels.len() == 0 {
        Seq::empty()
    } else {
        levels_flat(levels.drop_last()) + flat_all(levels.last())
    }
}

/// The leaf tokens held anywhere in a builder state, in consumption order.
pub open spec fn state_flat<T>(st: BuildState<T>) -> Seq<T> {
    levels_flat(st.parents) + flat_all(st.level)
}

/// Each builder step appends exactly the consumed token to the state's
/// leaves.
proof fn lemma_step_flat<T>(st: BuildState<T>, tok: T, sig: Nesting)
    ensures
        state_flat(step(st, tok, sig)) == state_flat(st) + seq![tok],
{
    let leaf = STree::Leaf(tok);
    assert(leaf.flat() == seq![tok]);
    match sig {
        Nesting::Increase => {
            let st2 = step(st, tok, sig);
            assert(st2.parents.drop_last() =~= st.parents);
            assert(flat_all(st2.level) =~= seq![tok]) by {
                lemma_flat_all_push(Seq::<STree<T>>::empty(), leaf);
                assert(Seq::<STree<T>>::empty().push(leaf) =~= st2.level);
            }
            assert(state_flat(st2) =~= state_flat(st) + seq![tok]);
        },
        Nesting::Maintain => {
            lemma_flat_all_push(st.level, leaf);
            assert(state_flat(step(st, tok, sig)) =~= state_flat(st) + seq![tok]);
        },
        Nesting::Decrease => {
            let closed = st.level.push(leaf);
            lemma_flat_all_push(st.level, leaf);
            let node = STree::Node(closed);
            assert(node.flat() == flat_all(closed));
            let st2 = step(st, tok, sig);
            if st.parents.len() == 0 {
                assert(flat_all(st2.level) =~= node.flat()) by {
                    lemma_flat_all_push(Seq::<STree<T>>::empty(), node);
                    assert(Seq::<STree<T>>::empty().push(node) =~= st2.level);
                }
                assert(state_flat(st2) =~= state_flat(st) + seq![tok]);
            } else {
                lemma_flat_all_push(st.parents.last(), node);
                assert(levels_flat(st.parents) == levels_flat(st.parents.drop_last())
                    + flat_all(st.parents.last()));
                assert(state_flat(st2) =~= state_flat(st) + seq![tok]);
            }
        },
    }
}

/// After consuming a prefix, the state holds exactly that prefix as leaves.
proof fn lemma_run_flat<T>(tokens: Seq<T>, signals: Seq<Nesting>)
    requires
        signals.len() == tokens.len(),
    ensures
        state_flat(run(tokens, signals)) == tokens,
    decreases tokens.len(),
{
    if tokens.len() == 0 {
        assert(state_flat(run(tokens, signals)) =~= tokens);
    } else {
        lemma_run_flat(tokens.drop_last(), signals.drop_last());
        lemma_step_flat(run(tokens.drop_last(), signals.drop_last()), tokens.last(), signals.last());
        assert(tokens.drop_last() + seq![tokens.last()] =~= tokens);
    }
}

/// Closing the remaining levels neither adds, drops nor reorders leaves.
proof fn lemma_finish_flat<T>(st: BuildState<T>)
    ensures
        finish(st).flat() == state_flat(st),
    decreases st.parents.len(),
{
    if st.parents.len() == 0 {
        assert(levels_flat(st.parents) == Seq::<T>::empty());
        assert(finish(st).flat() =~= state_flat(st));
    } else {
        let node = STree::Node(st.level);
        let st2 = BuildState {
            parents: st.parents.drop_last(),
            level: st.parents.last().push(node),
        };
        lemma_finish_flat(st2);
        lemma_flat_all_push(st.parents.last(), node);
        assert(levels_flat(st.parents) == levels_flat(st.parents.drop_last())
            + flat_all(st.parents.last()));
        assert(state_flat(st2) =~= state_flat(st));
    }
}

/// Every tree of the level satisfies [`STree::no_empty_nodes`].
pub open spec fn level_ok<T>(level: Seq<STree<T>>) -> bool {
    forall|i: int| 0 <= i < level.len() ==> #[trigger] level[i].no_empty_nodes()
}

/// Every tree anywhere in the builder state satisfies
/// [`STree::no_empty_nodes`], and the current level is nonempty whenever a
/// parent is open.
pub open spec fn state_ok<T>(st: BuildState<T>) -> bool {
    &&& forall|j: int| 0 <= j < st.parents.len() ==> level_ok(#[trigger] st.parents[j])
    &&& level_ok(st.level)
    &&& st.parents.len() > 0 ==> st.level.len() > 0
}

/// Each builder step keeps the state sound and leaves a nonempty level.
proof fn lemma_step_ok<T>(st: BuildState<T>, tok: T, sig: Nesting)
    requires
        state_ok(st),
    ensures
        state_ok(step(st, tok, sig)),
        step(st, tok, sig).level.len() > 0,
{
    let leaf = STree::Leaf(tok);
    match sig {
        Nesting::Increase => {
            let st2 = step(st, tok, sig);
            assert(forall|j: int| 0 <= j < st2.parents.len()
                ==> level_ok(#[trigger] st2.parents[j]));
            assert(st2.level[0] == leaf);
        },
        Nesting::Maintain => {
            let st2 = step(st, tok, sig);
            assert(forall|i: int| 0 <= i < st2.level.len()
                ==> #[trigger] st2.level[i].no_empty_nodes());
        },
        Nesting::Decrease => {
            let closed = st.level.push(leaf);
            assert(forall|i: int| 0 <= i < closed.len()
                ==> #[trigger] closed[i].no_empty_nodes());
            lemma_all_no_empty_iff(closed);
            let node = STree::Node(closed);
            assert(node.no_empty_nodes());
            let st2 = step(st, tok, sig);
            assert(forall|i: int| 0 <= i < st2.level.len()
                ==> #[trigger] st2.level[i].no_empty_nodes());
        },
    }
}

/// After consuming a nonempty prefix, the state is sound and its level is
/// nonempty; the empty prefix leaves the starting state.
proof fn lemma_run_ok<T>(tokens: Seq<T>, signals: Seq<Nesting>)
    requires
        signals.len() == tokens.len(),
    ensures
        state_ok(run(tokens, signals)),
        tokens.len() > 0 ==> run(tokens, signals).level.len() > 0,
        tokens.len() == 0 ==> run(tokens, signals) == init::<T>(),
    decreases tokens.len(),
{
    if tokens.len() > 0 {
        lemma_run_ok(tokens.drop_last(), signals.drop_last());
        lemma_step_ok(run(tokens.drop_last(), signals.drop_last()), tokens.last(), signals.last());
    }
}

/// Closing the remaining levels yields a root node of sound subtrees, and
/// keeps the root's child list nonempty when the level was.
proof fn lemma_finish_ok<T>(st: BuildState<T>)
    requires
        state_ok(st),
    ensures
        finish(st) is Node,
        level_ok(finish(st).children()),
        st.level.len() > 0 ==> finish(st).children().len() > 0,
    decreases st.parents.len(),
{
    if st.parents.len() > 0 {
        lemma_all_no_empty_iff(st.level);
        let node = STree::Node(st.level);
        assert(node.no_empty_nodes());
        let st2 = BuildState {
            parents: st.parents.drop_last(),
            level: st.parents.last().push(node),
        };
        assert(forall|i: int| 0 <= i < st2.level.len()
            ==> #[trigger] st2.level[i].no_empty_nodes());
        lemma_finish_ok(st2);
    }
}

/// No empty branch: the built tree is a node; every subtree below it has
/// only nonempty nodes; its own child list is empty exactly when the input
/// was, in which case the whole tree is the empty root node.
pub proof fn lemma_no_empty_branch<T>(tokens: Seq<T>, signals: Seq<Nesting>)
    requires
        signals.len() == tokens.len(),
    ensures
        built(tokens, signals) is Node,
        level_ok(built(tokens, signals).children()),
        tokens.len() > 0 ==> built(tokens, signals).children().len() > 0,
        tokens.len() == 0 ==> built(tokens, signals) == STree::Node(Seq::<STree<T>>::empty()),
{
    lemma_run_ok(tokens, signals);
    lemma_finish_ok(run(tokens, signals));
}

/// The change a signal makes to the nesting depth.
pub open spec fn delta(sig: Nesting) -> int {
    match sig {
        Nesting::Increase => 1,
        Nesting::Maintain => 0,
        Nesting::Decrease => -1,
    }
}

/// The nesting depth after the whole signal sequence: opened levels minus
/// closed levels.
pub open spec fn depth_after(signals: Seq<Nesting>) -> int
    decreases signals.len(),
{
    if signals.len() == 0 {
        0
    } else {
        depth_after(signals.drop_last()) + delta(signals.last())
    }
}

/// No prefix of the signals closes more levels than it has opened.
pub open spec fn prefix_depths_nonneg(signals: Seq<Nesting>) -> bool {
    forall|i: int| 0 <= i <= signals.len() ==> depth_after(#[trigger] signals.take(i)) >= 0
}

/// The signals are exactly balanced and properly nested: no prefix dips
/// below depth zero, and the whole sequence returns to depth zero.
pub open spec fn well_nested(signals: Seq<Nesting>) -> bool {
    depth_after(signals) == 0 && prefix_depths_nonneg(signals)
}

/// The depth at which token `i` comes to rest, read off the signals alone:
/// the depth before it, plus one for the level every token lives in, plus
/// one more when the token itself opens a level.
pub open spec fn placement_depth(signals: Seq<Nesting>, i: int) -> int {
    depth_after(signals.take(i)) + 1 + if signals[i] is Increase {
        1int
    } else {
        0int
    }
}

/// The depth profile the signals call for, one entry per token.
pub open spec fn expected_depths(signals: Seq<Nesting>) -> Seq<int> {
    Seq::new(signals.len(), |i: int| placement_depth(signals, i))
}

/// The depth of each leaf held by a stack of levels, outermost first, when
/// level `j` of the stack stands at depth `j`.
pub open spec fn levels_depths<T>(levels: Seq<Seq<STree<T>>>) -> Seq<int>
    decreases levels.len(),
{
    if levels.len() == 0 {
        Seq::empty()
    } else {
        levels_depths(levels.drop_last()) + leaf_depths_all(levels.last(), levels.len() as int)
    }
}

/// The depth of each leaf anywhere in a builder state, in consumption
/// order, as the depths will stand in the finished tree if no further
/// level is synthesized.
pub open spec fn state_depths<T>(st: BuildState<T>) -> Seq<int> {
    levels_depths(st.parents) + leaf_depths_all(st.level, st.parents.len() as int + 1)
}

/// Appending a tree to a level appends its leaf depths.
proof fn lemma_leaf_depths_all_push<T>(trees: Seq<STree<T>>, t: STree<T>, d: int)
    ensures
        leaf_depths_all(trees.push(t), d) == leaf_depths_all(trees, d) + t.leaf_depths(d),
{
    assert(trees.push(t).drop_last() =~= trees);
    assert(trees.push(t).last() == t);
}

/// Dropping the last signal leaves every earlier prefix, and so the
/// earlier expected depths, unchanged.
proof fn lemma_expected_depths_push(signals: Seq<Nesting>)
    requires
        signals.len() > 0,
    ensures
        expected_depths(signals) == expected_depths(signals.drop_last()).push(
            placement_depth(signals, signals.len() - 1),
        ),
{
    let n = signals.len() as int;
    let prior = signals.drop_last();
    assert forall|i: int| 0 <= i < n - 1 implies expected_depths(prior)[i] == expected_depths(
        signals,
    )[i] by {
        assert(prior.take(i) =~= signals.take(i));
        assert(prior[i] == signals[i]);
    }
    assert(signals.take(n - 1) =~= prior);
    assert(expected_depths(signals) =~= expected_depths(prior).push(
        placement_depth(signals, n - 1),
    ));
}

/// While no prefix has dipped below depth zero, the stack height equals the
/// signalled depth and the leaves sit exactly at their expected depths.
proof fn lemma_run_depths<T>(tokens: Seq<T>, signals: Seq<Nesting>)
    requires
        signals.len() == tokens.len(),
        prefix_depths_nonneg(signals),
    ensures
        run(tokens, signals).parents.len() == depth_after(signals),
        state_depths(run(tokens, signals)) == expected_depths(signals),
    decreases tokens.len(),
{
    if tokens.len() == 0 {
        assert(leaf_depths_all(Seq::<STree<T>>::empty(), 1) == Seq::<int>::empty());
        assert(state_depths(run(tokens, signals)) =~= expected_depths(signals));
    } else {
        let n = tokens.len() as int;
        let toks = tokens.drop_last();
        let sigs = signals.drop_last();
        assert forall|i: int| 0 <= i <= sigs.len() implies depth_after(
            #[trigger] sigs.take(i),
        ) >= 0 by {
            assert(sigs.take(i) =~= signals.take(i));
        }
        lemma_run_depths(toks, sigs);
        let st = run(toks, sigs);
        let h = st.parents.len() as int;
        assert(signals.take(n - 1) =~= sigs);
        assert(h == depth_after(sigs));
        let tok = tokens.last();
        let sig = signals.last();
        let leaf = STree::Leaf(tok);
        let place = placement_depth(signals, n - 1);
        assert(signals.take(n) =~= signals);
        assert(depth_after(signals) == h + delta(sig));
        lemma_expected_depths_push(signals);
        let st2 = step(st, tok, sig);
        match sig {
            Nesting::Increase => {
                assert(st2.parents.drop_last() =~= st.parents);
                assert(levels_depths(st2.parents) == levels_depths(st.parents) + leaf_depths_all(
                    st.level,
                    h + 1,
                ));
                lemma_leaf_depths_all_push(Seq::<STree<T>>::empty(), leaf, h + 2);
                assert(Seq::<STree<T>>::empty().push(leaf) =~= st2.level);
                assert(leaf_depths_all(st2.level, h + 2) =~= seq![h + 2]);
                assert(place == h + 2);
                assert(state_depths(st2) =~= expected_depths(sigs).push(place));
            },
            Nesting::Maintain => {
                lemma_leaf_depths_all_push(st.level, leaf, h + 1);
                assert(place == h + 1);
                assert(state_depths(st2) =~= expected_depths(sigs).push(place));
            },
            Nesting::Decrease => {
                assert(depth_after(signals) >= 0);
                assert(h >= 1);
                let closed = st.level.push(leaf);
                let node = STree::Node(closed);
                lemma_leaf_depths_all_push(st.level, leaf, h + 1);
                assert(node.leaf_depths(h) == leaf_depths_all(st.level, h + 1) + seq![h + 1]);
                assert(place == h + 1);
                assert(levels_depths(st.parents) == levels_depths(st.parents.drop_last())
                    + leaf_depths_all(st.parents.last(), h));
                lemma_leaf_depths_all_push(st.parents.last(), node, h);
                assert(state_depths(st2) =~= expected_depths(sigs).push(place));
            },
        }
    }
}

/// Balanced-signal depth closure: when the signals are exactly balanced and
/// properly nested, the built tree's leaf-depth profile matches the
/// signalled profile exactly — no synthesized wrapper level appears.
pub proof fn lemma_well_nested_depths<T>(tokens: Seq<T>, signals: Seq<Nesting>)
    requires
        signals.len() == tokens.len(),
        well_nested(signals),
    ensures
        built(tokens, signals).leaf_depths(0) == expected_depths(signals),
{
    lemma_run_depths(tokens, signals);
    let st = run(tokens, signals);
    assert(st.parents.len() == 0);
    assert(built(tokens, signals) == STree::Node(st.level));
    assert(levels_depths(st.parents) == Seq::<int>::empty());
    assert(built(tokens, signals).leaf_depths(0) =~= state_depths(st));
}

/// The change a branch-control signal makes to the branch depth.
pub open spec fn ctrl_delta(c: BranchControl) -> int {
    match c {
        BranchControl::Start => 1,
        BranchControl::Continue => 0,
        BranchControl::End => -1,
    }
}

/// The branch depth after the whole control sequence: opened branches
/// minus closed branches.
pub open spec fn ctrl_depth_after(controls: Seq<BranchControl>) -> int
    decreases controls.len(),
{
    if controls.len() == 0 {
        0
    } else {
        ctrl_depth_after(controls.drop_last()) + ctrl_delta(controls.last())
    }
}

/// Branch depth adds over concatenation.
pub proof fn lemma_ctrl_depth_concat(a: Seq<BranchControl>, b: Seq<BranchControl>)
    ensures
        ctrl_depth_after(a + b) == ctrl_depth_after(a) + ctrl_depth_after(b),
    decreases b.len(),
{
    if b.len() == 0 {
        assert(a + b =~= a);
    } else {
        assert((a + b).drop_last() =~= a + b.drop_last());
        assert((a + b).last() == b.last());
        lemma_ctrl_depth_concat(a, b.drop_last());
    }
}

/// A single control's depth change is its delta.
proof fn lemma_ctrl_depth_one(c: BranchControl)
    ensures
        ctrl_depth_after(seq![c]) == ctrl_delta(c),
{
    assert(seq![c].drop_last() =~= Seq::<BranchControl>::empty());
    assert(ctrl_depth_after(Seq::<BranchControl>::empty()) == 0);
    assert(seq![c].last() == c);
}

/// An open branch grows as its remaining members are consumed, one control
/// per token: `Continue` appends the token as a leaf; `End` appends the
/// token as a leaf and closes the branch, ending the window; `Start` opens
/// a nested branch whose first member is the token, whose remaining
/// members are parsed the same way, and which resumes the outer branch
/// when it closes.  `kids` are the members so grown, and `closed` says
/// whether the window ended with the branch's own closing `End` (true) or
/// at input exhaustion (false).
pub open spec fn parses_children<T>(
    ts: Seq<T>,
    cs: Seq<BranchControl>,
    kids: Seq<STree<T>>,
    closed: bool,
) -> bool
    decreases ts.len(), 1int,
{
    if ts.len() == 0 || cs.len() != ts.len() {
        ts.len() == 0 && cs.len() == 0 && kids.len() == 0 && !closed
    } else {
        match cs[0] {
            BranchControl::Continue => kids.len() >= 1 && kids[0] == STree::Leaf(ts[0])
                && parses_children(ts.drop_first(), cs.drop_first(), kids.drop_first(), closed),
            BranchControl::End => closed && ts.len() == 1 && kids =~= seq![STree::Leaf(ts[0])],
            BranchControl::Start => kids.len() >= 1 && parses_nested(
                ts,
                cs,
                kids,
                closed,
                kids[0].flat().len() as int,
            ),
        }
    }
}

/// The split of a window at a nested branch: the branch itself takes the
/// first `n` tokens — the opening token and then its own window — and the
/// outer branch resumes on the rest.
pub open spec fn parses_nested<T>(
    ts: Seq<T>,
    cs: Seq<BranchControl>,
    kids: Seq<STree<T>>,
    closed: bool,
    n: int,
) -> bool
    decreases ts.len(), 0int,
{
    &&& 1 <= n <= ts.len()
    &&& cs.len() == ts.len()
    &&& kids.len() >= 1
    &&& kids[0] is Node
    &&& kids[0].children().len() >= 1
    &&& kids[0].children()[0] == STree::Leaf(ts[0])
    &&& (parses_children(
        ts.subrange(1, n),
        cs.subrange(1, n),
        kids[0].children().drop_first(),
        true,
    ) || (n == ts.len() && parses_children(
        ts.subrange(1, n),
        cs.subrange(1, n),
        kids[0].children().drop_first(),
        false,
    )))
    &&& parses_children(ts.skip(n), cs.skip(n), kids.drop_first(), closed)
}

/// The depth at which token `i` of an open branch's window comes to rest,
/// read off the controls alone, when the branch's own members rest at
/// depth `d`: the depth before it, plus one more when the token itself
/// opens a branch.
pub open spec fn ctrl_placement_depth(cs: Seq<BranchControl>, i: int, d: int) -> int {
    d + ctrl_depth_after(cs.take(i)) + if cs[i] is Start {
        1int
    } else {
        0int
    }
}

/// The depth profile an open branch's window calls for, one entry per
/// token, when the branch's own members rest at depth `d`.
pub open spec fn ctrl_profile(cs: Seq<BranchControl>, d: int) -> Seq<int> {
    Seq::new(cs.len(), |i: int| ctrl_placement_depth(cs, i, d))
}

/// A sequence of trees decomposes its leaf depths at the front.
pub proof fn lemma_leaf_depths_all_first<T>(trees: Seq<STree<T>>, d: int)
    requires
        trees.len() > 0,
    ensures
        leaf_depths_all(trees, d) == trees[0].leaf_depths(d) + leaf_depths_all(
            trees.drop_first(),
            d,
        ),
    decreases trees.len(),
{
    if trees.len() == 1 {
        assert(trees.drop_last() =~= Seq::<STree<T>>::empty());
        assert(trees.drop_first() =~= Seq::<STree<T>>::empty());
        assert(leaf_depths_all(Seq::<STree<T>>::empty(), d) == Seq::<int>::empty());
        assert(trees.last() == trees[0]);
        assert(leaf_depths_all(trees, d) =~= trees[0].leaf_depths(d) + leaf_depths_all(
            trees.drop_first(),
            d,
        ));
    } else {
        lemma_leaf_depths_all_first(trees.drop_last(), d);
        assert(trees.drop_last()[0] == trees[0]);
        assert(trees.drop_last().drop_first() =~= trees.drop_first().drop_last());
        assert(trees.drop_first().last() == trees.last());
        assert(leaf_depths_all(trees.drop_first(), d) == leaf_depths_all(
            trees.drop_first().drop_last(),
            d,
        ) + trees.last().leaf_depths(d));
        assert(leaf_depths_all(trees, d) =~= trees[0].leaf_depths(d) + leaf_depths_all(
            trees.drop_first(),
            d,
        ));
    }
}

/// Depth closure for the branch adapters: however the controls ran, the
/// members grown from a window rest exactly at the depths the controls
/// call for — no wrapper level is ever synthesized — and a window that
/// ends with the branch's own closing `End` has net depth minus one.
#[verifier::rlimit(60)]
pub proof fn lemma_parses_depths<T>(
    ts: Seq<T>,
    cs: Seq<BranchControl>,
    kids: Seq<STree<T>>,
    closed: bool,
    d: int,
)
    requires
        parses_children(ts, cs, kids, closed),
    ensures
        leaf_depths_all(kids, d) == ctrl_profile(cs, d),
        closed ==> ctrl_depth_after(cs) == -1,
        !closed ==> ctrl_depth_after(cs) >= 0,
    decreases ts.len(),
{
    if ts.len() == 0 {
        assert(leaf_depths_all(kids, d) =~= ctrl_profile(cs, d));
    } else {
        match cs[0] {
            BranchControl::Continue => {
                lemma_parses_depths(ts.drop_first(), cs.drop_first(), kids.drop_first(), closed, d);
                lemma_leaf_depths_all_first(kids, d);
                assert(kids[0].leaf_depths(d) =~= seq![d]);
                assert(cs =~= seq![cs[0]] + cs.drop_first());
                assert forall|i: int| 0 <= i < cs.len() implies #[trigger] ctrl_profile(cs, d)[i]
                    == (seq![d] + ctrl_profile(cs.drop_first(), d))[i] by {
                    if i == 0 {
                        assert(cs.take(0) =~= Seq::<BranchControl>::empty());
                    } else {
                        assert(cs.take(i) =~= seq![cs[0]] + cs.drop_first().take(i - 1));
                        lemma_ctrl_depth_concat(seq![cs[0]], cs.drop_first().take(i - 1));
                        lemma_ctrl_depth_one(cs[0]);
                        assert(cs.drop_first()[i - 1] == cs[i]);
                    }
                }
                assert(leaf_depths_all(kids, d) =~= ctrl_profile(cs, d));
                lemma_ctrl_depth_concat(seq![cs[0]], cs.drop_first());
                lemma_ctrl_depth_one(cs[0]);
                assert(cs =~= seq![cs[0]] + cs.drop_first());
            },
            BranchControl::End => {
                assert(ts.len() == 1);
                assert(kids =~= seq![STree::Leaf(ts[0])]);
                assert(kids.drop_last() =~= Seq::<STree<T>>::empty());
                assert(kids.last() == STree::Leaf(ts[0]));
                assert(leaf_depths_all(Seq::<STree<T>>::empty(), d) == Seq::<int>::empty());
                assert(kids.last().leaf_depths(d) =~= seq![d]);
                assert(leaf_depths_all(kids, d) =~= seq![d]);
                assert(cs.take(0) =~= Seq::<BranchControl>::empty());
                assert(ctrl_profile(cs, d) =~= seq![d]);
                assert(cs =~= seq![cs[0]]);
                lemma_ctrl_depth_one(cs[0]);
                assert(ctrl_depth_after(cs) == -1);
            },
            BranchControl::Start => {
                assert(kids.len() >= 1);
                let n = kids[0].flat().len() as int;
                assert(parses_nested(ts, cs, kids, closed, n));
                let inner_ts = ts.subrange(1, n);
                let inner_cs = cs.subrange(1, n);
                let inner_kids = kids[0].children().drop_first();
                let rest_ts = ts.skip(n);
                let rest_cs = cs.skip(n);
                let rest_kids = kids.drop_first();
                let inner_ended = parses_children(inner_ts, inner_cs, inner_kids, true);
                if inner_ended {
                    lemma_parses_depths(inner_ts, inner_cs, inner_kids, true, d + 1);
                } else {
                    assert(n == ts.len());
                    lemma_parses_depths(inner_ts, inner_cs, inner_kids, false, d + 1);
                }
                lemma_parses_depths(rest_ts, rest_cs, rest_kids, closed, d);
                // The head: the nested branch's node and its leaf depths.
                lemma_leaf_depths_all_first(kids, d);
                lemma_leaf_depths_all_first(kids[0].children(), d + 1);
                assert(kids[0].children().drop_first() == inner_kids);
                assert(kids[0].leaf_depths(d) == leaf_depths_all(kids[0].children(), d + 1));
                assert(kids[0].children()[0].leaf_depths(d + 1) =~= seq![d + 1]);
                assert(kids[0].leaf_depths(d) =~= seq![d + 1] + ctrl_profile(inner_cs, d + 1));
                // The whole window's controls split as head, inner, rest.
                assert(cs =~= cs.take(n) + rest_cs);
                assert(cs.take(n) =~= seq![cs[0]] + inner_cs);
                lemma_ctrl_depth_concat(seq![cs[0]], inner_cs);
                lemma_ctrl_depth_one(cs[0]);
                let head_depth = ctrl_depth_after(cs.take(n));
                if inner_ended {
                    assert(ctrl_depth_after(inner_cs) == -1);
                    assert(head_depth == 0);
                } else {
                    assert(rest_cs =~= Seq::<BranchControl>::empty());
                    assert(rest_kids.len() == 0);
                }
                lemma_ctrl_depth_concat(cs.take(n), rest_cs);
                // Element-wise, the profile is the head leaf, the inner
                // profile one level down, then the rest at the same level.
                assert forall|i: int| 0 <= i < cs.len() implies #[trigger] ctrl_profile(cs, d)[i]
                    == (seq![d + 1] + ctrl_profile(inner_cs, d + 1) + ctrl_profile(rest_cs, d))[i]
                    by {
                    if i == 0 {
                        assert(cs.take(0) =~= Seq::<BranchControl>::empty());
                    } else if i < n {
                        assert(cs.take(i) =~= seq![cs[0]] + inner_cs.take(i - 1));
                        lemma_ctrl_depth_concat(seq![cs[0]], inner_cs.take(i - 1));
                        lemma_ctrl_depth_one(cs[0]);
                        assert(inner_cs[i - 1] == cs[i]);
                    } else {
                        assert(cs.take(i) =~= cs.take(n) + rest_cs.take(i - n));
                        lemma_ctrl_depth_concat(cs.take(n), rest_cs.take(i - n));
                        assert(head_depth == 0);
                        assert(rest_cs[i - n] == cs[i]);
                    }
                }
                assert(leaf_depths_all(kids, d) =~= ctrl_profile(cs, d));
            },
        }
    }
}

/// Round trip: whatever the signals, the built tree flattens back to the
/// token sequence, element for element and in order.
pub proof fn lemma_flatten_build<T>(tokens: Seq<T>, signals: Seq<Nesting>)
    requires
        signals.len() == tokens.len(),
    ensures
        built(tokens, signals).flat() == tokens,
{
    lemma_run_flat(tokens, signals);
    lemma_finish_flat(run(tokens, signals));
}

} // verus!
