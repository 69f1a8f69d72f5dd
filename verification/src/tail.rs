//! Marking of functions whose last action is a call of themselves.
use vstd::prelude::*;
use crate::ident::Ident;
use crate::expr::{Expr, Closure, Core, Tree, Code, bound};
use crate::copy::{duplicate, duplicate_each, closure_with, lemma_lambda_model, lemma_list_model};

verus! {

/// The expression in tail position of `e`: that of the last body expression
/// for a block, that of the alternative for a conditional, `e` itself for
/// anything else. A block without a body and a conditional without an
/// alternative have none.
pub open spec fn tail_of<A>(e: Tree<A>) -> Option<Tree<A>>
    decreases e,
{
    match e {
        Tree::Let { bindings, body } => if body.len() == 0 {
            None
        } else {
            tail_of(body.last())
        },
        Tree::Cond { pred, conseq, alt } => match alt {
            Some(a) => tail_of(*a),
            None => None,
        },
        _ => Some(e),
    }
}

/// Whether the function `c`, bound to `name`, ends in a call of itself: the
/// tail position of its last body expression is a call whose head is the
/// identifier `name`.
pub open spec fn calls_itself<A>(name: A, c: Code<A>) -> bool {
    c.body.len() > 0 && match tail_of(c.body.last()) {
        Some(Tree::List(list)) => list.len() > 0 && list[0] == Tree::Identifier(name),
        _ => false,
    }
}

/// The function `c`, bound to `name`, with its mark set as
/// [`calls_itself`] says.
pub open spec fn marked_code<A>(name: A, c: Code<A>) -> Code<A> {
    Code { formals: c.formals, free: c.free, body: c.body, tail: calls_itself(name, c) }
}

/// The binding with its function marked, or as it is if it binds no function.
pub open spec fn marked_binding<A>(b: (A, Tree<A>)) -> (A, Tree<A>) {
    match b.1 {
        Tree::Lambda(c) => (b.0, Tree::Lambda(marked_code(b.0, c))),
        _ => b,
    }
}

/// `e` with the functions it names marked: the value of a definition, and
/// the values bound by a block. Anything else is as it was.
pub open spec fn marked<A>(e: Tree<A>) -> Tree<A> {
    match e {
        Tree::Define { name, val } => match *val {
            Tree::Lambda(c) => Tree::Define {
                name,
                val: Box::new(Tree::Lambda(marked_code(name, c))),
            },
            _ => e,
        },
        Tree::Let { bindings, body } => Tree::Let {
            bindings: Seq::new(bindings.len(), |i: int| marked_binding(bindings[i])),
            body,
        },
        _ => e,
    }
}

/// The expression in tail position of `e`, if there is one.
pub fn tail<N: View>(e: &Expr<N>) -> (r: Option<&Expr<N>>)
    ensures
        match r {
            Some(t) => tail_of(e@) == Some(t@),
            None => tail_of(e@) is None,
        },
    decreases e,
{
    proof {
        lemma_list_model(*e);
    }
    match e {
        Expr::Let { bindings, body } => {
            if body.len() == 0 {
                None
            } else {
                tail(&body[body.len() - 1])
            }
        },
        Expr::Cond { pred, conseq, alt } => match alt {
            Some(a) => tail(a),
            None => None,
        },
        _ => Some(e),
    }
}

/// Whether the function `code`, bound to `name`, ends in a call of itself.
pub fn is_tail(name: &Ident, code: &Closure<Ident>) -> (b: bool)
    ensures
        b == calls_itself(name@, code@),
{
    if code.body.len() == 0 {
        return false;
    }
    let last = tail(&code.body[code.body.len() - 1]);
    match last {
        Some(Expr::List(list)) => {
            proof {
                lemma_list_model(*last->Some_0);
            }
            if list.len() == 0 {
                false
            } else {
                match &list[0] {
                    Expr::Identifier(id) => id.same(name),
                    _ => false,
                }
            }
        },
        _ => false,
    }
}

fn mark(name: &Ident, code: &Closure<Ident>) -> (r: Core)
    ensures
        r@ == Tree::Lambda(marked_code(name@, code@)),
{
    let r = Expr::Lambda(closure_with(code, duplicate_each(&code.body), is_tail(name, code)));
    proof {
        lemma_lambda_model(r);
    }
    r
}

fn mark_bindings(bindings: &Vec<(Ident, Core)>) -> (r: Vec<(Ident, Core)>)
    ensures
        bound(r@) == Seq::new(bindings@.len(), |i: int| marked_binding(bound(bindings@)[i])),
{
    let mut out: Vec<(Ident, Core)> = Vec::new();
    let n: usize = bindings.len();
    let mut i: usize = 0;
    while i < n
        invariant
            n == bindings@.len(),
            i <= n,
            out@.len() == i,
            forall|j: int|
                0 <= j < i ==> ((#[trigger] out@[j]).0@, out@[j].1@) == marked_binding(
                    bound(bindings@)[j],
                ),
        decreases n - i,
    {
        let name = &bindings[i].0;
        let value = match &bindings[i].1 {
            Expr::Lambda(code) => {
                proof {
                    lemma_lambda_model(bindings@[i as int].1);
                }
                mark(name, code)
            },
            other => duplicate(other),
        };
        out.push((name.duplicate(), value));
        i = i + 1;
    }
    assert(bound(out@) =~= Seq::new(bindings@.len(), |i: int| marked_binding(bound(bindings@)[i])));
    out
}

/// Marks the functions that `expr` names: the value of a definition and the
/// values bound by a block get their mark set to whether they end in a call
/// of themselves. Anything else comes back as it is.
pub fn tco(expr: Core) -> (r: Core)
    ensures
        r@ == marked(expr@),
{
    proof {
        lemma_list_model(expr);
    }
    let changed: Option<Core> = match &expr {
        Expr::Define { name, val } => match &**val {
            Expr::Lambda(code) => {
                proof {
                    lemma_lambda_model(**val);
                }
                Some(Expr::Define { name: name.duplicate(), val: Box::new(mark(name, code)) })
            },
            _ => None,
        },
        Expr::Let { bindings, body } => {
            let r = Expr::Let { bindings: mark_bindings(bindings), body: duplicate_each(body) };
            proof {
                lemma_list_model(r);
            }
            Some(r)
        },
        _ => None,
    };
    match changed {
        Some(r) => r,
        None => expr,
    }
}

} // verus!
