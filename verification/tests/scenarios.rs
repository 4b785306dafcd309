use std::collections::VecDeque;

use iter_tree::BranchControl;
use iter_tree::Controller;
use iter_tree::IntoTreeDequeExt;
use iter_tree::IntoTreeExt;
use iter_tree::Nesting;
use iter_tree::NestingFunction;
use iter_tree::Tree;
use iter_tree::TreeDeque;
use iter_tree::TreeDequeable;
use iter_tree::Treeable;
use iter_tree::VecTree;

/// Maps `'('` to `Increase`, `')'` to `Decrease`, anything else to
/// `Maintain`, counting the net depth change.
#[derive(Default)]
struct ParenNesting {
    depth: i32,
}

impl NestingFunction<char> for &mut ParenNesting {
    fn direction(&mut self, item: &char) -> Nesting {
        match *item {
            '(' => {
                self.depth += 1;
                Nesting::Increase
            }
            ')' => {
                self.depth -= 1;
                Nesting::Decrease
            }
            _ => Nesting::Maintain,
        }
    }
}

/// Pushes openers on an internal stack and signals `Decrease` only when the
/// matching opener is on top, popping it; otherwise `Maintain`.
#[derive(Debug, Default)]
struct StackController<T> {
    stack: Vec<T>,
}

impl<T> StackController<T> {
    pub fn is_empty(&self) -> bool {
        self.stack.is_empty()
    }
}

impl NestingFunction<char> for &mut StackController<char> {
    fn direction(&mut self, item: &char) -> Nesting {
        let &c = item;
        match c {
            '<' | '(' => {
                self.stack.push(c);
                Nesting::Increase
            }
            '>' => {
                if self.stack.last() == Some(&'<') {
                    self.stack.pop();
                    Nesting::Decrease
                } else {
                    Nesting::Maintain
                }
            }
            ')' => {
                if self.stack.last() == Some(&'(') {
                    self.stack.pop();
                    Nesting::Decrease
                } else {
                    Nesting::Maintain
                }
            }
            _ => Nesting::Maintain,
        }
    }
}

/// Maps `'('` to `Start`, `')'` to `End`, anything else to `Continue`.
struct ParenBranches;

impl Controller<char> for ParenBranches {
    fn control_branch(&mut self, item: &char) -> BranchControl {
        match *item {
            '(' => BranchControl::Start,
            ')' => BranchControl::End,
            _ => BranchControl::Continue,
        }
    }
}

fn chars_of(s: &str) -> Vec<char> {
    s.chars().collect()
}

fn flatten_tree(tree: Tree<char>) -> String {
    tree.into_vec().into_iter().collect()
}

fn flatten_tree_deque(tree: TreeDeque<char>) -> String {
    tree.into_vec().into_iter().collect()
}

#[test]
fn empty_input_builds_empty_branch() {
    let mut counter = ParenNesting::default();
    let tree = Vec::<char>::new().into_tree(&mut counter);
    match &tree {
        Tree::Node(children) => assert!(children.is_empty()),
        Tree::Leaf(_) => panic!("empty input must build a branch"),
    }
    assert_eq!(flatten_tree(tree), "");

    let mut counter = ParenNesting::default();
    let tree = Vec::<char>::new().into_tree_deque(&mut counter);
    match &tree {
        TreeDeque::Node(children) => assert!(children.is_empty()),
        TreeDeque::Leaf(_) => panic!("empty input must build a branch"),
    }
    assert_eq!(flatten_tree_deque(tree), "");
}

#[test]
fn paren_round_trip_net_depth() {
    let input = "a+(b+c)+d";
    let mut counter = ParenNesting::default();
    let tree = chars_of(input).into_tree(&mut counter);
    assert_eq!(counter.depth, 0);
    assert_eq!(flatten_tree(tree), input);
}

#[test]
fn malformed_stack_still_round_trips() {
    let input = "<(>)";
    let mut parser = StackController::default();
    let tree = chars_of(input).into_tree(&mut parser);
    assert!(!parser.is_empty());
    assert_eq!(flatten_tree(tree), input);
}

#[test]
fn well_formed_stack_nests_exactly() {
    let input: Vec<char> = "< ( < > ) >"
        .chars()
        .filter(|c| !c.is_whitespace())
        .collect();
    let mut parser = StackController::default();
    let tree = input.into_tree(&mut parser);
    assert!(parser.is_empty());

    // One top-level branch: `<` around `(` around `<`.
    let top = match tree {
        Tree::Node(children) => {
            assert_eq!(children.len(), 1);
            children.into_iter().next().unwrap()
        }
        Tree::Leaf(_) => panic!("the root must be a branch"),
    };
    let outer = match top {
        Tree::Node(children) => children,
        Tree::Leaf(_) => panic!("the angle level must be a branch"),
    };
    assert_eq!(outer.len(), 3);
    assert!(matches!(outer[0], Tree::Leaf('<')));
    assert!(matches!(outer[2], Tree::Leaf('>')));
    let middle = match &outer[1] {
        Tree::Node(children) => children,
        Tree::Leaf(_) => panic!("the paren level must be a branch"),
    };
    assert_eq!(middle.len(), 3);
    assert!(matches!(middle[0], Tree::Leaf('(')));
    assert!(matches!(middle[2], Tree::Leaf(')')));
    let inner = match &middle[1] {
        Tree::Node(children) => children,
        Tree::Leaf(_) => panic!("the inner angle level must be a branch"),
    };
    assert_eq!(inner.len(), 2);
    assert!(matches!(inner[0], Tree::Leaf('<')));
    assert!(matches!(inner[1], Tree::Leaf('>')));
}

#[test]
fn all_decrease_round_trips() {
    let input = ")))";
    let mut counter = ParenNesting::default();
    let tree = chars_of(input).into_tree(&mut counter);
    assert_eq!(flatten_tree(tree), input);

    let mut counter = ParenNesting::default();
    let tree = chars_of(input).into_tree_deque(&mut counter);
    assert_eq!(flatten_tree_deque(tree), input);
}

#[test]
fn all_increase_round_trips() {
    let input = "(((";
    let mut counter = ParenNesting::default();
    let tree = chars_of(input).into_tree(&mut counter);
    assert_eq!(flatten_tree(tree), input);

    let mut counter = ParenNesting::default();
    let tree = chars_of(input).into_tree_deque(&mut counter);
    assert_eq!(flatten_tree_deque(tree), input);
}

#[test]
fn deep_nesting_round_trips() {
    let depth: usize = 1000;
    let mut input = String::new();
    for _ in 0..depth {
        input.push('(');
    }
    input.push('x');
    let mut counter = ParenNesting::default();
    let tree = chars_of(&input).into_tree(&mut counter);
    assert_eq!(flatten_tree(tree), input);
}

#[test]
fn adapter_yields_leaves_and_branches() {
    let mut adapter = chars_of("a(b)c").tree(ParenBranches);

    let first = adapter.next().unwrap();
    assert!(matches!(first, Tree::Leaf('a')));

    let second = adapter.next().unwrap();
    let branch = match second {
        Tree::Node(children) => children,
        Tree::Leaf(_) => panic!("the parenthesized run must be a branch"),
    };
    assert_eq!(branch.len(), 3);
    assert!(matches!(branch[0], Tree::Leaf('(')));
    assert!(matches!(branch[1], Tree::Leaf('b')));
    assert!(matches!(branch[2], Tree::Leaf(')')));

    let third = adapter.next().unwrap();
    assert!(matches!(third, Tree::Leaf('c')));

    assert!(adapter.next().is_none());
}

#[test]
fn adapter_nested_branch_structure() {
    let mut adapter = chars_of("(b(c)d)").tree(ParenBranches);

    let t = adapter.next().unwrap();
    let outer = match t {
        Tree::Node(children) => children,
        Tree::Leaf(_) => panic!("the whole input must come out as one branch"),
    };
    assert_eq!(outer.len(), 5);
    assert!(matches!(outer[0], Tree::Leaf('(')));
    assert!(matches!(outer[1], Tree::Leaf('b')));
    assert!(matches!(outer[3], Tree::Leaf('d')));
    assert!(matches!(outer[4], Tree::Leaf(')')));
    let inner = match &outer[2] {
        Tree::Node(children) => children,
        Tree::Leaf(_) => panic!("the inner run must be a nested branch"),
    };
    assert_eq!(inner.len(), 3);
    assert!(matches!(inner[0], Tree::Leaf('(')));
    assert!(matches!(inner[1], Tree::Leaf('c')));
    assert!(matches!(inner[2], Tree::Leaf(')')));

    assert!(adapter.next().is_none());
}

#[test]
fn adapter_top_level_end_degrades_to_leaf() {
    let mut adapter = chars_of("a)b").tree(ParenBranches);
    assert!(matches!(adapter.next(), Some(Tree::Leaf('a'))));
    assert!(matches!(adapter.next(), Some(Tree::Leaf(')'))));
    assert!(matches!(adapter.next(), Some(Tree::Leaf('b'))));
    assert!(adapter.next().is_none());
}

#[test]
fn vec_tree_collects_adapter_round_trip() {
    let input = "a(b(c)d)e";
    let collected = VecTree::from(chars_of(input).tree(ParenBranches));
    let mut out = String::new();
    let mut it = collected.into_iter();
    while let Some(c) = it.next() {
        out.push(c);
    }
    assert_eq!(out, input);
}

#[test]
fn vec_tree_single_item_unwraps() {
    let collected = VecTree::from(chars_of("(ab)").tree(ParenBranches));
    let tree = collected.take();
    let branch = match tree {
        Tree::Node(children) => children,
        Tree::Leaf(_) => panic!("a single branch item must stay a branch"),
    };
    assert_eq!(branch.len(), 4);
    assert!(matches!(branch[0], Tree::Leaf('(')));
    assert!(matches!(branch[1], Tree::Leaf('a')));
    assert!(matches!(branch[2], Tree::Leaf('b')));
    assert!(matches!(branch[3], Tree::Leaf(')')));
}

#[test]
fn vec_tree_new_and_take_round_trip() {
    let tree = Tree::Node(vec![Tree::Leaf('x'), Tree::Leaf('y')]);
    let wrapped = VecTree::new(tree);
    let back = wrapped.take();
    assert_eq!(flatten_tree(back), "xy");
}

#[test]
fn deque_adapter_round_trips() {
    let input = "a(b(c)d)e";
    let mut adapter = chars_of(input).tree_deque(ParenBranches);
    let mut out = String::new();
    while let Some(tree) = adapter.next() {
        out.push_str(&flatten_tree_deque(tree));
    }
    assert_eq!(out, input);
}

#[test]
fn deque_adapter_yields_leaves_and_branches() {
    let mut adapter = chars_of("a(b)c").tree_deque(ParenBranches);

    assert!(matches!(adapter.next(), Some(TreeDeque::Leaf('a'))));

    let second = adapter.next().unwrap();
    let branch = match second {
        TreeDeque::Node(children) => children,
        TreeDeque::Leaf(_) => panic!("the parenthesized run must be a branch"),
    };
    assert_eq!(branch.len(), 3);
    assert!(matches!(branch[0], TreeDeque::Leaf('(')));
    assert!(matches!(branch[1], TreeDeque::Leaf('b')));
    assert!(matches!(branch[2], TreeDeque::Leaf(')')));

    assert!(matches!(adapter.next(), Some(TreeDeque::Leaf('c'))));
    assert!(adapter.next().is_none());
}

#[test]
fn hand_built_tree_flattens_in_order() {
    let tree = Tree::Node(vec![
        Tree::Leaf('x'),
        Tree::Node(vec![Tree::Leaf('y'), Tree::Node(vec![Tree::Leaf('z')])]),
        Tree::Leaf('w'),
    ]);
    assert_eq!(flatten_tree(tree), "xyzw");
}

#[test]
fn hand_built_empty_branches_flatten_empty() {
    let tree: Tree<char> = Tree::Node(vec![Tree::Node(vec![]), Tree::Node(vec![])]);
    assert_eq!(flatten_tree(tree), "");

    let mut inner: VecDeque<TreeDeque<char>> = VecDeque::new();
    inner.push_back(TreeDeque::Node(VecDeque::new()));
    let tree: TreeDeque<char> = TreeDeque::Node(inner);
    assert_eq!(flatten_tree_deque(tree), "");
}

#[test]
fn hand_built_tree_deque_flattens_in_order() {
    let mut inner: VecDeque<TreeDeque<char>> = VecDeque::new();
    inner.push_back(TreeDeque::Leaf('y'));
    inner.push_back(TreeDeque::Leaf('z'));
    let mut outer: VecDeque<TreeDeque<char>> = VecDeque::new();
    outer.push_back(TreeDeque::Leaf('x'));
    outer.push_back(TreeDeque::Node(inner));
    outer.push_back(TreeDeque::Leaf('w'));
    let tree = TreeDeque::from_iter(outer);
    assert_eq!(flatten_tree_deque(tree), "xyzw");
}

#[test]
fn flattener_is_one_shot_per_construction() {
    let tree = Tree::Node(vec![Tree::Leaf('a'), Tree::Leaf('b')]);
    let mut it = tree.into_iter();
    assert_eq!(it.next(), Some('a'));
    assert_eq!(it.next(), Some('b'));
    assert_eq!(it.next(), None);
    assert_eq!(it.next(), None);
}
