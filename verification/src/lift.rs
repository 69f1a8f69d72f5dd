//! Lambda lifting: every named function value becomes a definition of its own.
use vstd::prelude::*;
use crate::ident::Ident;
use crate::expr::{Expr, Literal, Core, Tree, Code, Lit, trees, bound};
use crate::copy::{duplicate, closure_with, lemma_lambda_model, lemma_list_model};

verus! {

/// A sequence of expressions as one expression: nil for none, the
/// expression itself for one, a list of them for more.
pub open spec fn shrunk<A>(es: Seq<Tree<A>>) -> Tree<A> {
    if es.len() == 0 {
        Tree::Literal(Lit::Nil)
    } else if es.len() == 1 {
        es[0]
    } else {
        Tree::List(es)
    }
}

/// What lifting makes of each of `es`, one after the other.
pub open spec fn lifted_all<A>(es: Seq<Tree<A>>) -> Seq<Tree<A>>
    decreases es, 1nat,
{
    if es.len() == 0 {
        Seq::empty()
    } else {
        lifted_all(es.drop_last()) + lifted(es.last())
    }
}

/// Each of `es` lifted and shrunk to one expression.
pub open spec fn collapsed_each<A>(es: Seq<Tree<A>>) -> Seq<Tree<A>>
    decreases es, 1nat,
{
    Seq::new(
        es.len(),
        |i: int|
            if 0 <= i < es.len() {
                shrunk(lifted(es[i]))
            } else {
                Tree::Literal(Lit::Nil)
            },
    )
}

/// The definitions that the function-valued bindings among `bindings`
/// become, in the order of the bindings, each body lifted.
pub open spec fn exported<A>(bindings: Seq<(A, Tree<A>)>) -> Seq<Tree<A>>
    decreases bindings, 1nat,
{
    if bindings.len() == 0 {
        Seq::empty()
    } else {
        let rest = exported(bindings.drop_last());
        match bindings.last().1 {
            Tree::Lambda(c) => rest.push(
                Tree::Define {
                    name: bindings.last().0,
                    val: Box::new(
                        Tree::Lambda(
                            Code {
                                formals: c.formals,
                                free: c.free,
                                body: lifted_all(c.body),
                                tail: c.tail,
                            },
                        ),
                    ),
                },
            ),
            _ => rest,
        }
    }
}

/// The bindings among `bindings` whose value is no function, in order, each
/// value lifted and shrunk to one expression.
pub open spec fn kept<A>(bindings: Seq<(A, Tree<A>)>) -> Seq<(A, Tree<A>)>
    decreases bindings, 1nat,
{
    if bindings.len() == 0 {
        Seq::empty()
    } else {
        let rest = kept(bindings.drop_last());
        match bindings.last().1 {
            Tree::Lambda(_) => rest,
            _ => rest.push((bindings.last().0, shrunk(lifted(bindings.last().1)))),
        }
    }
}

/// What lifting makes of `e`.
///
/// A block gives the definitions of its function-valued bindings, then one
/// block with the other bindings and the body. A definition of a function is
/// kept with its body lifted. A call and a conditional are kept with each
/// part lifted and shrunk to one expression. Anything else is kept as it is.
pub open spec fn lifted<A>(e: Tree<A>) -> Seq<Tree<A>>
    decreases e, 0nat,
{
    match e {
        Tree::Let { bindings, body } => exported(bindings).push(
            Tree::Let { bindings: kept(bindings), body: collapsed_each(body) },
        ),
        Tree::List(list) => seq![Tree::List(collapsed_each(list))],
        Tree::Cond { pred, conseq, alt } => seq![
            Tree::Cond {
                pred: Box::new(shrunk(lifted(*pred))),
                conseq: Box::new(shrunk(lifted(*conseq))),
                alt: match alt {
                    Some(a) => Some(Box::new(shrunk(lifted(*a)))),
                    None => None,
                },
            },
        ],
        Tree::Define { name, val } => match *val {
            Tree::Lambda(c) => seq![
                Tree::Define {
                    name,
                    val: Box::new(
                        Tree::Lambda(
                            Code {
                                formals: c.formals,
                                free: c.free,
                                body: lifted_all(c.body),
                                tail: c.tail,
                            },
                        ),
                    ),
                },
            ],
            _ => seq![e],
        },
        _ => seq![e],
    }
}

/// Shrinks a sequence of expressions into one expression.
pub fn shrink<N: View>(es: Vec<Expr<N>>) -> (r: Expr<N>)
    ensures
        r@ == shrunk(trees(es@)),
{
    let mut es = es;
    if es.len() == 0 {
        Expr::Literal(Literal::Nil)
    } else if es.len() == 1 {
        match es.pop() {
            Some(e) => e,
            None => Expr::Literal(Literal::Nil),
        }
    } else {
        let r = Expr::List(es);
        proof {
            lemma_list_model(r);
        }
        r
    }
}

fn lift_all(list: &Vec<Core>) -> (r: Vec<Core>)
    ensures
        trees(r@) == lifted_all(trees(list@)),
    decreases list, 1nat,
{
    let mut r: Vec<Core> = Vec::new();
    let n: usize = list.len();
    let mut i: usize = 0;
    assert(trees(list@).take(0) =~= Seq::empty());
    assert(trees(r@) =~= Seq::empty());
    while i < n
        invariant
            n == list@.len(),
            i <= n,
            trees(r@) == lifted_all(trees(list@).take(i as int)),
        decreases n - i,
    {
        let ghost before = r@;
        let mut more = lift(&list[i]);
        let ghost added = more@;
        r.append(&mut more);
        proof {
            assert(trees(list@).take(i + 1).drop_last() =~= trees(list@).take(i as int));
            assert(trees(list@).take(i + 1).last() == list@[i as int]@);
            assert(trees(r@) =~= trees(before) + trees(added));
        }
        i = i + 1;
    }
    assert(trees(list@).take(n as int) =~= trees(list@));
    r
}

fn collapse_each(list: &Vec<Core>) -> (r: Vec<Core>)
    ensures
        trees(r@) == collapsed_each(trees(list@)),
    decreases list, 1nat,
{
    let mut r: Vec<Core> = Vec::new();
    let n: usize = list.len();
    let mut i: usize = 0;
    while i < n
        invariant
            n == list@.len(),
            i <= n,
            r@.len() == i,
            forall|j: int| 0 <= j < i ==> (#[trigger] r@[j])@ == shrunk(lifted(list@[j]@)),
        decreases n - i,
    {
        r.push(shrink(lift(&list[i])));
        i = i + 1;
    }
    assert(trees(r@) =~= collapsed_each(trees(list@)));
    r
}

/// Lifts the functions bound in `prog` to definitions of their own; the
/// definitions come first, in the order of their bindings.
#[verifier::loop_isolation(false)]
pub fn lift(prog: &Core) -> (r: Vec<Core>)
    ensures
        trees(r@) == lifted(prog@),
    decreases prog, 0nat,
{
    proof {
        lemma_list_model(*prog);
    }
    match prog {
        Expr::Let { bindings, body } => {
            let ghost model = bound(bindings@);
            let mut rest: Vec<(Ident, Core)> = Vec::new();
            let mut export: Vec<Core> = Vec::new();
            let n: usize = bindings.len();
            let mut k: usize = 0;
            assert(model.take(0) =~= Seq::empty());
            assert(trees(export@) =~= Seq::empty());
            assert(bound(rest@) =~= Seq::empty());
            while k < n
                invariant
                    n == bindings@.len(),
                    k <= n,
                    trees(export@) == exported(model.take(k as int)),
                    bound(rest@) == kept(model.take(k as int)),
                decreases n - k,
            {
                let ghost export_before = export@;
                let ghost rest_before = rest@;
                proof {
                    assert(model.take(k + 1).drop_last() =~= model.take(k as int));
                    assert(model.take(k + 1).last() == model[k as int]);
                }
                match &bindings[k].1 {
                    Expr::Lambda(c) => {
                        proof {
                            lemma_lambda_model(bindings@[k as int].1);
                        }
                        let code = closure_with(c, lift_all(&c.body), c.tail);
                        let def = Expr::Define {
                            name: bindings[k].0.duplicate(),
                            val: Box::new(Expr::Lambda(code)),
                        };
                        proof {
                            lemma_lambda_model(Expr::Lambda(code));
                        }
                        export.push(def);
                        assert(trees(export@) =~= trees(export_before).push(def@));
                    },
                    value => {
                        let one = shrink(lift(value));
                        rest.push((bindings[k].0.duplicate(), one));
                        assert(bound(rest@) =~= bound(rest_before).push(
                            (bindings@[k as int].0@, one@),
                        ));
                    },
                }
                k = k + 1;
            }
            assert(model.take(n as int) =~= model);
            let ghost export_before = export@;
            let residue = Expr::Let { bindings: rest, body: collapse_each(body) };
            proof {
                lemma_list_model(residue);
            }
            export.push(residue);
            assert(trees(export@) =~= trees(export_before).push(residue@));
            export
        },
        Expr::List(list) => {
            let one = Expr::List(collapse_each(list));
            proof {
                lemma_list_model(one);
            }
            let mut r: Vec<Core> = Vec::new();
            r.push(one);
            assert(trees(r@) =~= seq![one@]);
            r
        },
        Expr::Cond { pred, conseq, alt } => {
            let new_alt = match alt {
                Some(a) => Some(Box::new(shrink(lift(a)))),
                None => None,
            };
            let one = Expr::Cond {
                pred: Box::new(shrink(lift(pred))),
                conseq: Box::new(shrink(lift(conseq))),
                alt: new_alt,
            };
            let mut r: Vec<Core> = Vec::new();
            r.push(one);
            assert(trees(r@) =~= seq![one@]);
            r
        },
        Expr::Define { name, val } => {
            let one = match &**val {
                Expr::Lambda(c) => {
                    proof {
                        lemma_lambda_model(**val);
                    }
                    let code = closure_with(c, lift_all(&c.body), c.tail);
                    proof {
                        lemma_lambda_model(Expr::Lambda(code));
                    }
                    Expr::Define { name: name.duplicate(), val: Box::new(Expr::Lambda(code)) }
                },
                _ => duplicate(prog),
            };
            let mut r: Vec<Core> = Vec::new();
            r.push(one);
            assert(trees(r@) =~= seq![one@]);
            r
        },
        _ => {
            let one = duplicate(prog);
            let mut r: Vec<Core> = Vec::new();
            r.push(one);
            assert(trees(r@) =~= seq![one@]);
            r
        },
    }
}

/// Whether every function value in `e` is the direct value of a definition.
pub open spec fn flat<A>(e: Tree<A>) -> bool
    decreases e,
{
    match e {
        Tree::Identifier(_) => true,
        Tree::Literal(_) => true,
        Tree::Lambda(_) => false,
        Tree::Define { name, val } => match *val {
            Tree::Lambda(c) => forall|i: int| 0 <= i < c.body.len() ==> flat(#[trigger] c.body[i]),
            _ => flat(*val),
        },
        Tree::Let { bindings, body } => (forall|i: int|
            0 <= i < bindings.len() ==> flat(#[trigger] bindings[i].1)) && (forall|i: int|
            0 <= i < body.len() ==> flat(#[trigger] body[i])),
        Tree::List(list) => forall|i: int| 0 <= i < list.len() ==> flat(#[trigger] list[i]),
        Tree::Vector(list) => forall|i: int| 0 <= i < list.len() ==> flat(#[trigger] list[i]),
        Tree::Cond { pred, conseq, alt } => flat(*pred) && flat(*conseq) && match alt {
            Some(a) => flat(*a),
            None => true,
        },
    }
}

/// Whether the value `v` of a binding can be lifted: a function whose body
/// can be, or an expression that can be.
pub open spec fn value_liftable<A>(v: Tree<A>) -> bool
    decreases v, 1nat,
{
    match v {
        Tree::Lambda(c) => forall|i: int| 0 <= i < c.body.len() ==> liftable(#[trigger] c.body[i]),
        _ => liftable(v),
    }
}

/// Whether lifting reaches every function value in `e`: each is the value
/// of a binding of a block or of a definition, and what lifting does not
/// enter (a vector, a definition of something else) is flat already.
pub open spec fn liftable<A>(e: Tree<A>) -> bool
    decreases e, 0nat,
{
    match e {
        Tree::Identifier(_) => true,
        Tree::Literal(_) => true,
        Tree::Lambda(_) => false,
        Tree::Define { name, val } => match *val {
            Tree::Lambda(c) => forall|i: int|
                0 <= i < c.body.len() ==> liftable(#[trigger] c.body[i]),
            _ => flat(*val),
        },
        Tree::Let { bindings, body } => (forall|i: int|
            0 <= i < bindings.len() ==> value_liftable(#[trigger] bindings[i].1)) && (forall|i: int|
            0 <= i < body.len() ==> liftable(#[trigger] body[i])),
        Tree::List(list) => forall|i: int| 0 <= i < list.len() ==> liftable(#[trigger] list[i]),
        Tree::Vector(list) => forall|i: int| 0 <= i < list.len() ==> flat(#[trigger] list[i]),
        Tree::Cond { pred, conseq, alt } => liftable(*pred) && liftable(*conseq) && match alt {
            Some(a) => liftable(*a),
            None => true,
        },
    }
}

/// Whether each of `es` can be lifted.
pub open spec fn all_liftable<A>(es: Seq<Tree<A>>) -> bool {
    forall|i: int| 0 <= i < es.len() ==> liftable(#[trigger] es[i])
}

/// The values of a sequence of bindings.
pub open spec fn values_of<A>(bindings: Seq<(A, Tree<A>)>) -> Seq<Tree<A>> {
    Seq::new(bindings.len(), |i: int| bindings[i].1)
}

/// Whether each of `es` is flat.
pub open spec fn all_flat<A>(es: Seq<Tree<A>>) -> bool {
    forall|i: int| 0 <= i < es.len() ==> flat(#[trigger] es[i])
}

proof fn lemma_shrunk_flat<A>(es: Seq<Tree<A>>)
    requires
        all_flat(es),
    ensures
        flat(shrunk(es)),
{
}

/// Lifting each of a sequence of expressions that can be lifted gives flat
/// items only.
pub proof fn lemma_lifted_all_flat<A>(es: Seq<Tree<A>>)
    requires
        all_liftable(es),
    ensures
        all_flat(lifted_all(es)),
    decreases es, 1nat,
{
    if es.len() > 0 {
        lemma_lifted_all_flat(es.drop_last());
        lemma_lift_flattens(es.last());
    }
}

proof fn lemma_collapsed_flat<A>(es: Seq<Tree<A>>)
    requires
        forall|i: int| 0 <= i < es.len() ==> liftable(#[trigger] es[i]),
    ensures
        all_flat(collapsed_each(es)),
    decreases es, 1nat,
{
    assert forall|i: int| 0 <= i < es.len() implies flat(#[trigger] collapsed_each(es)[i]) by {
        lemma_lift_flattens(es[i]);
        lemma_shrunk_flat(lifted(es[i]));
    }
}

proof fn lemma_exported_flat<A>(bindings: Seq<(A, Tree<A>)>)
    requires
        forall|i: int| 0 <= i < bindings.len() ==> value_liftable(#[trigger] bindings[i].1),
    ensures
        all_flat(exported(bindings)),
        forall|i: int| 0 <= i < kept(bindings).len() ==> flat(#[trigger] kept(bindings)[i].1),
    decreases bindings, 1nat,
{
    if bindings.len() > 0 {
        let shorter = bindings.drop_last();
        assert forall|i: int| 0 <= i < shorter.len() implies value_liftable(
            #[trigger] shorter[i].1,
        ) by {
            assert(shorter[i] == bindings[i]);
        }
        lemma_exported_flat(shorter);
        let v = bindings.last().1;
        assert(value_liftable(v));
        match v {
            Tree::Lambda(c) => {
                lemma_lifted_all_flat(c.body);
            },
            _ => {
                lemma_lift_flattens(v);
                lemma_shrunk_flat(lifted(v));
            },
        }
        assert forall|i: int| 0 <= i < kept(bindings).len() implies flat(
            #[trigger] kept(bindings)[i].1,
        ) by {
            if i < kept(shorter).len() {
                assert(kept(bindings)[i] == kept(shorter)[i]);
            }
        }
        assert forall|i: int| 0 <= i < exported(bindings).len() implies flat(
            #[trigger] exported(bindings)[i],
        ) by {
            if i < exported(shorter).len() {
                assert(exported(bindings)[i] == exported(shorter)[i]);
            }
        }
    }
}

/// Lifting flattens: where lifting reaches every function value of `e`,
/// each item that it gives holds function values only as the direct value of
/// a definition.
pub proof fn lemma_lift_flattens<A>(e: Tree<A>)
    requires
        liftable(e),
    ensures
        all_flat(lifted(e)),
    decreases e, 0nat,
{
    match e {
        Tree::Let { bindings, body } => {
            lemma_exported_flat(bindings);
            lemma_collapsed_flat(body);
            let residue = Tree::Let { bindings: kept(bindings), body: collapsed_each(body) };
            assert(flat(residue));
            assert forall|i: int| 0 <= i < lifted(e).len() implies flat(#[trigger] lifted(e)[i]) by {
                if i < exported(bindings).len() {
                    assert(lifted(e)[i] == exported(bindings)[i]);
                }
            }
        },
        Tree::List(list) => {
            lemma_collapsed_flat(list);
        },
        Tree::Cond { pred, conseq, alt } => {
            lemma_lift_flattens(*pred);
            lemma_shrunk_flat(lifted(*pred));
            lemma_lift_flattens(*conseq);
            lemma_shrunk_flat(lifted(*conseq));
            match alt {
                Some(a) => {
                    lemma_lift_flattens(*a);
                    lemma_shrunk_flat(lifted(*a));
                },
                None => {},
            }
        },
        Tree::Define { name, val } => {
            match *val {
                Tree::Lambda(c) => {
                    lemma_lifted_all_flat(c.body);
                },
                _ => {},
            }
        },
        _ => {},
    }
}

pub proof fn lemma_flat_or_not<A>(es: Seq<Tree<A>>)
    ensures
        all_flat(es) || exists|i: int| 0 <= i < es.len() && !flat(es[i]),
{
}

proof fn lemma_shrunk_flat_only<A>(es: Seq<Tree<A>>)
    requires
        flat(shrunk(es)),
    ensures
        all_flat(es),
{
    lemma_flat_or_not(es);
    if !all_flat(es) {
        let i = choose|i: int| 0 <= i < es.len() && !flat(es[i]);
        if es.len() == 1 {
            assert(es[i] == shrunk(es));
        } else {
            lemma_flat_parts(shrunk(es));
        }
    }
}

/// What [`flat`] says of the parts of a flat expression.
pub proof fn lemma_flat_parts<A>(e: Tree<A>)
    requires
        flat(e),
    ensures
        e matches Tree::Let { bindings, body } ==> all_flat(body) && all_flat(values_of(bindings)),
        e matches Tree::List(list) ==> all_flat(list),
        e matches Tree::Vector(list) ==> all_flat(list),
        e matches Tree::Define { name, val } ==> (*val matches Tree::Lambda(c) ==> all_flat(c.body)),
{
    match e {
        Tree::Let { bindings, body } => {
            lemma_flat_or_not(body);
            lemma_flat_or_not(values_of(bindings));
            if !all_flat(values_of(bindings)) {
                let i = choose|i: int|
                    0 <= i < values_of(bindings).len() && !flat(values_of(bindings)[i]);
                assert(values_of(bindings)[i] == bindings[i].1);
            }
        },
        Tree::List(list) => {
            lemma_flat_or_not(list);
        },
        Tree::Vector(list) => {
            lemma_flat_or_not(list);
        },
        Tree::Define { name, val } => {
            match *val {
                Tree::Lambda(c) => {
                    lemma_flat_or_not(c.body);
                },
                _ => {},
            }
        },
        _ => {},
    }
}

proof fn lemma_lifted_all_only<A>(es: Seq<Tree<A>>)
    requires
        all_flat(lifted_all(es)),
    ensures
        forall|i: int| 0 <= i < es.len() ==> liftable(#[trigger] es[i]),
    decreases es, 1nat,
{
    if es.len() > 0 {
        let shorter = es.drop_last();
        let front = lifted_all(shorter);
        let back = lifted(es.last());
        assert forall|i: int| 0 <= i < front.len() implies flat(#[trigger] front[i]) by {
            assert(lifted_all(es)[i] == front[i]);
        }
        assert forall|i: int| 0 <= i < back.len() implies flat(#[trigger] back[i]) by {
            assert(lifted_all(es)[front.len() + i] == back[i]);
        }
        lemma_lifted_all_only(shorter);
        lemma_lift_flattens_only(es.last());
        assert forall|i: int| 0 <= i < es.len() implies liftable(#[trigger] es[i]) by {
            if i < shorter.len() {
                assert(es[i] == shorter[i]);
            }
        }
    }
}

proof fn lemma_collapsed_only<A>(es: Seq<Tree<A>>)
    requires
        all_flat(collapsed_each(es)),
    ensures
        forall|i: int| 0 <= i < es.len() ==> liftable(#[trigger] es[i]),
    decreases es, 1nat,
{
    assert forall|i: int| 0 <= i < es.len() implies liftable(#[trigger] es[i]) by {
        assert(flat(collapsed_each(es)[i]));
        lemma_shrunk_flat_only(lifted(es[i]));
        lemma_lift_flattens_only(es[i]);
    }
}

proof fn lemma_exported_only<A>(bindings: Seq<(A, Tree<A>)>)
    requires
        all_flat(exported(bindings)),
        forall|i: int| 0 <= i < kept(bindings).len() ==> flat(#[trigger] kept(bindings)[i].1),
    ensures
        forall|i: int| 0 <= i < bindings.len() ==> value_liftable(#[trigger] bindings[i].1),
    decreases bindings, 1nat,
{
    if bindings.len() > 0 {
        let shorter = bindings.drop_last();
        let v = bindings.last().1;
        assert forall|i: int| 0 <= i < exported(shorter).len() implies flat(
            #[trigger] exported(shorter)[i],
        ) by {
            assert(exported(bindings)[i] == exported(shorter)[i]);
        }
        assert forall|i: int| 0 <= i < kept(shorter).len() implies flat(
            #[trigger] kept(shorter)[i].1,
        ) by {
            assert(kept(bindings)[i] == kept(shorter)[i]);
        }
        lemma_exported_only(shorter);
        match v {
            Tree::Lambda(c) => {
                assert(flat(exported(bindings)[exported(shorter).len() as int]));
                lemma_flat_parts(exported(bindings)[exported(shorter).len() as int]);
                lemma_lifted_all_only(c.body);
            },
            _ => {
                assert(flat(kept(bindings)[kept(shorter).len() as int].1));
                lemma_shrunk_flat_only(lifted(v));
                lemma_lift_flattens_only(v);
            },
        }
        assert(value_liftable(v));
        assert forall|i: int| 0 <= i < bindings.len() implies value_liftable(
            #[trigger] bindings[i].1,
        ) by {
            if i < shorter.len() {
                assert(bindings[i] == shorter[i]);
            }
        }
    }
}

/// Lifting flattens nothing else: where each item that lifting gives holds
/// function values only as the direct value of a definition, lifting
/// reached every function value of `e`.
pub proof fn lemma_lift_flattens_only<A>(e: Tree<A>)
    requires
        all_flat(lifted(e)),
    ensures
        liftable(e),
    decreases e, 0nat,
{
    match e {
        Tree::Let { bindings, body } => {
            let residue = Tree::Let { bindings: kept(bindings), body: collapsed_each(body) };
            assert(lifted(e)[exported(bindings).len() as int] == residue);
            assert(flat(residue));
            lemma_flat_parts(residue);
            assert forall|i: int| 0 <= i < exported(bindings).len() implies flat(
                #[trigger] exported(bindings)[i],
            ) by {
                assert(lifted(e)[i] == exported(bindings)[i]);
            }
            assert forall|i: int| 0 <= i < kept(bindings).len() implies flat(
                #[trigger] kept(bindings)[i].1,
            ) by {
                assert(flat(values_of(kept(bindings))[i]));
            }
            lemma_exported_only(bindings);
            lemma_collapsed_only(body);
        },
        Tree::List(list) => {
            assert(flat(lifted(e)[0]));
            lemma_flat_parts(lifted(e)[0]);
            lemma_collapsed_only(list);
        },
        Tree::Cond { pred, conseq, alt } => {
            assert(flat(lifted(e)[0]));
            lemma_shrunk_flat_only(lifted(*pred));
            lemma_lift_flattens_only(*pred);
            lemma_shrunk_flat_only(lifted(*conseq));
            lemma_lift_flattens_only(*conseq);
            match alt {
                Some(a) => {
                    lemma_shrunk_flat_only(lifted(*a));
                    lemma_lift_flattens_only(*a);
                },
                None => {},
            }
        },
        Tree::Define { name, val } => {
            assert(flat(lifted(e)[0]));
            match *val {
                Tree::Lambda(c) => {
                    lemma_flat_parts(lifted(e)[0]);
                    lemma_lifted_all_only(c.body);
                },
                _ => {},
            }
        },
        Tree::Vector(list) => {
            assert(flat(lifted(e)[0]));
            lemma_flat_or_not(list);
        },
        _ => {
            assert(flat(lifted(e)[0]));
        },
    }
}

} // verus!
