use iter_tree::IntoTreeExt;
use iter_tree::Nesting;
use iter_tree::NestingFunction;
use iter_tree::Tree;

/// Maps `'('` to `Increase`, `')'` to `Decrease`, anything else to
/// `Maintain`.
struct ParenNesting;

impl NestingFunction<char> for ParenNesting {
    fn direction(&mut self, item: &char) -> Nesting {
        match *item {
            '(' => Nesting::Increase,
            ')' => Nesting::Decrease,
            _ => Nesting::Maintain,
        }
    }
}

/// Counts the net depth change while classifying parentheses.
#[derive(Default)]
struct DepthNesting {
    depth: i32,
}

impl NestingFunction<char> for &mut DepthNesting {
    fn direction(&mut self, item: &char) -> Nesting {
        match *item {
            '(' => {
                self.depth += 1;
                Nesting::Increase
            }
            ')' => {
                self.depth -= 1;
                Nesting::Decrease
            }
            _ => Nesting::Maintain,
        }
    }
}

/// Pushes openers on an internal stack and signals `Decrease` only when the
/// matching opener is on top, popping it; otherwise `Maintain`.
#[derive(Debug, Default)]
struct StackController<T> {
    stack: Vec<T>,
}

impl<T> StackController<T> {
    pub fn is_empty(&self) -> bool {
        self.stack.is_empty()
    }
}

impl NestingFunction<char> for &mut StackController<char> {
    fn direction(&mut self, item: &char) -> Nesting {
        let &c = item;
        match c {
            '<' | '(' => {
                self.stack.push(c);
                Nesting::Increase
            }
            '>' => {
                if self.stack.last() == Some(&'<') {
                    self.stack.pop();
                    Nesting::Decrease
                } else {
                    Nesting::Maintain
                }
            }
            ')' => {
                if self.stack.last() == Some(&'(') {
                    self.stack.pop();
                    Nesting::Decrease
                } else {
                    Nesting::Maintain
                }
            }
            _ => Nesting::Maintain,
        }
    }
}

#[test]
fn basic() {
    let tokens: Vec<char> = "a * ( (d + b) * c ) + e"
        .chars()
        .filter(|&c: &char| !c.is_whitespace())
        .collect();
    let tree: Tree<char> = tokens.into_tree(ParenNesting);

    println!("{tree:#?}");
}

#[test]
fn iter() {
    let before = String::from("a+(b+c)+d");

    let tokens: Vec<char> = before.chars().collect();
    let tree = tokens.into_tree(ParenNesting);

    let after: String = tree.into_vec().into_iter().collect();

    assert_eq!(before, after);
}

#[test]
fn with_fn_mut() {
    let mut counter = DepthNesting::default();

    let tokens: Vec<char> = "a+(b+c)+d".chars().collect();
    let tree: Tree<char> = tokens.into_tree(&mut counter);

    assert!(counter.depth == 0);

    println!("{tree:#?}");
}

#[test]
fn correct_stack() {
    let mut parser = StackController::default();

    let tokens: Vec<char> = "< ( < > ) >"
        .chars()
        .filter(|c| !c.is_whitespace())
        .collect();
    let td = tokens.into_tree(&mut parser);

    println!("{td:#?}");

    assert!(parser.is_empty());
}

#[test]
fn incorrect_stack() {
    let mut parser = StackController::default();

    let tokens: Vec<char> = "<(>)".chars().collect();
    let td = tokens.into_tree(&mut parser);

    println!("{td:#?}");

    assert!(!parser.is_empty());
}
