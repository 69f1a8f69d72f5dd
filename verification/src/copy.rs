//! Copies of identifier trees.
use vstd::prelude::*;
use crate::ident::Ident;
use crate::expr::{Expr, Closure, Core, trees, bound, views};

verus! {

/// A copy of each identifier of `v`.
pub fn duplicate_names(v: &Vec<Ident>) -> (r: Vec<Ident>)
    ensures
        views(r@) == views(v@),
{
    let mut r: Vec<Ident> = Vec::new();
    let n: usize = v.len();
    let mut i: usize = 0;
    while i < n
        invariant
            n == v@.len(),
            i <= n,
            r@.len() == i,
            forall|j: int| 0 <= j < i ==> (#[trigger] r@[j])@ == v@[j]@,
        decreases n - i,
    {
        r.push(v[i].duplicate());
        i = i + 1;
    }
    assert(views(r@) =~= views(v@));
    r
}

/// A copy of each expression of `list`.
pub fn duplicate_each(list: &Vec<Core>) -> (r: Vec<Core>)
    ensures
        trees(r@) == trees(list@),
    decreases list, 1nat,
{
    let mut r: Vec<Core> = Vec::new();
    let n: usize = list.len();
    let mut i: usize = 0;
    while i < n
        invariant
            n == list@.len(),
            i <= n,
            r@.len() == i,
            forall|j: int| 0 <= j < i ==> (#[trigger] r@[j])@ == list@[j]@,
        decreases n - i,
    {
        r.push(duplicate(&list[i]));
        i = i + 1;
    }
    assert(trees(r@) =~= trees(list@));
    r
}

/// A copy of the function value `c`, with `body` for its body and `tail`
/// for its mark.
pub fn closure_with(c: &Closure<Ident>, body: Vec<Core>, tail: bool) -> (r: Closure<Ident>)
    ensures
        r@.formals == c@.formals,
        r@.free == c@.free,
        r@.body == trees(body@),
        r@.tail == tail,
{
    Closure { formals: duplicate_names(&c.formals), free: duplicate_names(&c.free), body, tail }
}

/// A copy of `e`.
#[verifier::loop_isolation(false)]
pub fn duplicate(e: &Core) -> (r: Core)
    ensures
        r@ == e@,
    decreases e, 0nat,
{
    match e {
        Expr::Identifier(id) => Expr::Identifier(id.duplicate()),
        Expr::Let { bindings, body } => {
            let mut out: Vec<(Ident, Core)> = Vec::new();
            let n: usize = bindings.len();
            let mut i: usize = 0;
            while i < n
                invariant
                    n == bindings@.len(),
                    i <= n,
                    out@.len() == i,
                    forall|j: int|
                        0 <= j < i ==> (#[trigger] out@[j]).0@ == bindings@[j].0@ && out@[j].1@
                            == bindings@[j].1@,
                decreases n - i,
            {
                out.push((bindings[i].0.duplicate(), duplicate(&bindings[i].1)));
                i = i + 1;
            }
            let new_body = duplicate_each(body);
            let r = Expr::Let { bindings: out, body: new_body };
            assert(r@ == e@) by {
                assert(r@->Let_bindings =~= e@->Let_bindings);
                assert(r@->Let_body =~= trees(new_body@));
                assert(e@->Let_body =~= trees(body@));
            }
            r
        },
        Expr::List(list) => {
            let out = duplicate_each(list);
            let r = Expr::List(out);
            assert(r@->List_0 =~= trees(out@));
            assert(e@->List_0 =~= trees(list@));
            r
        },
        Expr::Cond { pred, conseq, alt } => {
            let new_alt = match alt {
                Some(a) => Some(Box::new(duplicate(a))),
                None => None,
            };
            Expr::Cond {
                pred: Box::new(duplicate(pred)),
                conseq: Box::new(duplicate(conseq)),
                alt: new_alt,
            }
        },
        Expr::Lambda(c) => {
            let code = closure_with(c, duplicate_each(&c.body), c.tail);
            let r = Expr::Lambda(code);
            proof {
                lemma_lambda_model(r);
                lemma_lambda_model(*e);
            }
            r
        },
        Expr::Define { name, val } => Expr::Define {
            name: name.duplicate(),
            val: Box::new(duplicate(val)),
        },
        Expr::Vector(list) => {
            let out = duplicate_each(list);
            let r = Expr::Vector(out);
            assert(r@->Vector_0 =~= trees(out@));
            assert(e@->Vector_0 =~= trees(list@));
            r
        },
        Expr::Literal(l) => Expr::Literal(l.duplicate()),
    }
}

/// The model of a function expression holds the model of its function value.
pub proof fn lemma_lambda_model<N: View>(e: Expr<N>)
    requires
        e is Lambda,
    ensures
        e@ == crate::expr::Tree::Lambda(e->Lambda_0@),
{
    let c = e->Lambda_0;
    assert(e@->Lambda_0.formals =~= c@.formals);
    assert(e@->Lambda_0.free =~= c@.free);
    assert(e@->Lambda_0.body =~= c@.body);
}

/// The model of a call holds the models of its elements; so do those of a
/// vector and of a block.
pub proof fn lemma_list_model<N: View>(e: Expr<N>)
    ensures
        e matches Expr::List(list) ==> e@ == crate::expr::Tree::List(trees(list@)),
        e matches Expr::Vector(list) ==> e@ == crate::expr::Tree::Vector(trees(list@)),
        e matches Expr::Let { bindings, body } ==> e@ == (crate::expr::Tree::Let {
            bindings: bound(bindings@),
            body: trees(body@),
        }),
{
    match e {
        Expr::List(list) => {
            assert(e@->List_0 =~= trees(list@));
        },
        Expr::Vector(list) => {
            assert(e@->Vector_0 =~= trees(list@));
        },
        Expr::Let { bindings, body } => {
            assert(e@->Let_bindings =~= bound(bindings@));
            assert(e@->Let_body =~= trees(body@));
        },
        _ => {},
    }
}

impl Clone for Expr<Ident> {
    fn clone(&self) -> (r: Self)
        ensures
            r@ == self@,
    {
        duplicate(self)
    }
}

} // verus!
