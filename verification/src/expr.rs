//! The expression tree, generic in how names are held, and its model.
use vstd::prelude::*;
use crate::ident::{Ident, Name};

verus! {

/// An atomic constant.
#[derive(Debug, Clone, PartialEq, Eq, Hash)]
pub enum Literal {
    Nil,
    Boolean(bool),
    Number(i64),
    Str(String),
    Symbol(String),
}

/// The model of a [`Literal`].
pub enum Lit {
    Nil,
    Boolean(bool),
    Number(i64),
    Str(Name),
    Symbol(Name),
}

impl View for Literal {
    type V = Lit;

    open spec fn view(&self) -> Lit {
        match self {
            Literal::Nil => Lit::Nil,
            Literal::Boolean(b) => Lit::Boolean(*b),
            Literal::Number(n) => Lit::Number(*n),
            Literal::Str(s) => Lit::Str(s@),
            Literal::Symbol(s) => Lit::Symbol(s@),
        }
    }
}

impl Literal {
    /// A copy of this literal.
    pub fn duplicate(&self) -> (r: Literal)
        ensures
            r@ == self@,
    {
        match self {
            Literal::Nil => Literal::Nil,
            Literal::Boolean(b) => Literal::Boolean(*b),
            Literal::Number(n) => Literal::Number(*n),
            Literal::Str(s) => Literal::Str(s.clone()),
            Literal::Symbol(s) => Literal::Symbol(s.clone()),
        }
    }
}

/// A function value: parameters, free variables, body and the mark of a
/// self tail call.
#[derive(Debug, PartialEq, Eq, Hash)]
pub struct Closure<N> {
    pub formals: Vec<N>,
    pub free: Vec<N>,
    pub body: Vec<Expr<N>>,
    pub tail: bool,
}

/// An expression whose names are of type `N`.
#[derive(Debug, PartialEq, Eq, Hash)]
pub enum Expr<N> {
    Identifier(N),
    Let { bindings: Vec<(N, Expr<N>)>, body: Vec<Expr<N>> },
    List(Vec<Expr<N>>),
    Cond { pred: Box<Expr<N>>, conseq: Box<Expr<N>>, alt: Option<Box<Expr<N>>> },
    Lambda(Closure<N>),
    Define { name: N, val: Box<Expr<N>> },
    Vector(Vec<Expr<N>>),
    Literal(Literal),
}

/// What the parser hands over: names as written.
pub type Syntax = Expr<String>;

/// What the passes produce: names as unique identifiers.
pub type Core = Expr<Ident>;

/// The model of a [`Closure`] over names modelled by `A`.
pub struct Code<A> {
    pub formals: Seq<A>,
    pub free: Seq<A>,
    pub body: Seq<Tree<A>>,
    pub tail: bool,
}

/// The model of an [`Expr`] over names modelled by `A`.
pub enum Tree<A> {
    Identifier(A),
    Let { bindings: Seq<(A, Tree<A>)>, body: Seq<Tree<A>> },
    List(Seq<Tree<A>>),
    Cond { pred: Box<Tree<A>>, conseq: Box<Tree<A>>, alt: Option<Box<Tree<A>>> },
    Lambda(Code<A>),
    Define { name: A, val: Box<Tree<A>> },
    Vector(Seq<Tree<A>>),
    Literal(Lit),
}

/// The model of an expression: the same tree over the models of its names.
pub open spec fn tree_of<N: View>(e: Expr<N>) -> Tree<N::V>
    decreases e,
{
    match e {
        Expr::Identifier(n) => Tree::Identifier(n@),
        Expr::Let { bindings, body } => Tree::Let {
            bindings: Seq::new(
                bindings@.len(),
                |i: int|
                    if 0 <= i < bindings@.len() {
                        (bindings@[i].0@, tree_of(bindings@[i].1))
                    } else {
                        (bindings@[i].0@, Tree::Literal(Lit::Nil))
                    },
            ),
            body: Seq::new(body@.len(), |i: int| if 0 <= i < body@.len() { tree_of(body@[i]) } else { Tree::Literal(Lit::Nil) }),
        },
        Expr::List(list) => Tree::List(Seq::new(list@.len(), |i: int| if 0 <= i < list@.len() { tree_of(list@[i]) } else { Tree::Literal(Lit::Nil) })),
        Expr::Cond { pred, conseq, alt } => Tree::Cond {
            pred: Box::new(tree_of(*pred)),
            conseq: Box::new(tree_of(*conseq)),
            alt: match alt {
                Some(e) => Some(Box::new(tree_of(*e))),
                None => None,
            },
        },
        Expr::Lambda(c) => Tree::Lambda(
            Code {
                formals: Seq::new(c.formals@.len(), |i: int| c.formals@[i]@),
                free: Seq::new(c.free@.len(), |i: int| c.free@[i]@),
                body: Seq::new(c.body@.len(), |i: int| if 0 <= i < c.body@.len() { tree_of(c.body@[i]) } else { Tree::Literal(Lit::Nil) }),
                tail: c.tail,
            },
        ),
        Expr::Define { name, val } => Tree::Define { name: name@, val: Box::new(tree_of(*val)) },
        Expr::Vector(list) => Tree::Vector(Seq::new(list@.len(), |i: int| if 0 <= i < list@.len() { tree_of(list@[i]) } else { Tree::Literal(Lit::Nil) })),
        Expr::Literal(l) => Tree::Literal(l@),
    }
}

impl<N: View> View for Expr<N> {
    type V = Tree<N::V>;

    open spec fn view(&self) -> Tree<N::V> {
        tree_of(*self)
    }
}

/// The models of a sequence of expressions.
pub open spec fn trees<N: View>(v: Seq<Expr<N>>) -> Seq<Tree<N::V>> {
    Seq::new(v.len(), |i: int| v[i]@)
}

/// The models of a sequence of bindings.
pub open spec fn bound<N: View>(v: Seq<(N, Expr<N>)>) -> Seq<(N::V, Tree<N::V>)> {
    Seq::new(v.len(), |i: int| (v[i].0@, v[i].1@))
}

/// The models of a sequence of names.
pub open spec fn views<N: View>(v: Seq<N>) -> Seq<N::V> {
    Seq::new(v.len(), |i: int| v[i]@)
}

impl<N: View> View for Closure<N> {
    type V = Code<N::V>;

    open spec fn view(&self) -> Code<N::V> {
        Code {
            formals: views(self.formals@),
            free: views(self.free@),
            body: trees(self.body@),
            tail: self.tail,
        }
    }
}

} // verus!
