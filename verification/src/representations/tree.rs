//! Expressions as trees.
use crate::representations::Identifier;
use vstd::prelude::*;

verus! {

/// A fraction of two numbers, kept as it is given.
#[derive(Clone, Copy, Debug, PartialEq, Eq, Structural)]
pub struct Number {
    pub num: u64,
    pub den: u64,
}

impl Number {
    /// The fraction `num / den`.
    pub fn new(num: u64, den: u64) -> (r: Number)
        ensures
            r == (Number { num, den }),
    {
        Number { num, den }
    }
}

/// An expression: a power of a variable, a function of expressions, a number
/// or a product of expressions.
#[derive(Debug, PartialEq)]
pub enum Atom {
    Var(Identifier, Number),
    Fn(Identifier, Vec<Atom>),
    Number(Number),
    Term(Vec<Atom>),
}

/// An expression as a mathematical value.
pub ghost enum Tree {
    Var(u32, Number),
    Fn(u32, Seq<Tree>),
    Number(Number),
    Term(Seq<Tree>),
}

/// The values of the first `n` expressions of a list.
pub open spec fn trees_of(args: Vec<Atom>, n: nat) -> Seq<Tree>
    decreases args, n,
{
    if n == 0 || n > args.len() {
        Seq::empty()
    } else {
        trees_of(args, (n - 1) as nat).push(tree_of(args[n - 1]))
    }
}

/// The value of an expression.
pub open spec fn tree_of(a: Atom) -> Tree
    decreases a,
{
    match a {
        Atom::Var(name, pow) => Tree::Var(name.0, pow),
        Atom::Fn(name, args) => Tree::Fn(name.0, trees_of(args, args.len() as nat)),
        Atom::Number(n) => Tree::Number(n),
        Atom::Term(args) => Tree::Term(trees_of(args, args.len() as nat)),
    }
}

impl View for Atom {
    type V = Tree;

    open spec fn view(&self) -> Tree {
        tree_of(*self)
    }
}

/// The list of values has one value for each of the first `n` expressions.
pub proof fn lemma_trees_of(args: Vec<Atom>, n: nat)
    requires
        n <= args.len(),
    ensures
        trees_of(args, n).len() == n,
        forall|i: int| 0 <= i < n ==> #[trigger] trees_of(args, n)[i] == tree_of(args[i]),
    decreases n,
{
    if n > 0 {
        lemma_trees_of(args, (n - 1) as nat);
    }
}

} // verus!
