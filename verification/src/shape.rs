//! Renaming keeps the shape that lifting asks for.
use vstd::prelude::*;
use crate::ident::{Name, Path, let_segment};
use crate::expr::Tree;
use crate::env::bind;
use crate::rename::{renamed, renamed_each, renamed_value, renamed_forms_of, bound_names};
use crate::lift::{
    flat, liftable, value_liftable, all_flat, all_liftable, values_of,
    lemma_flat_or_not, lemma_flat_parts, lemma_lifted_all_flat,
};

verus! {

proof fn lemma_liftable_or_not<A>(es: Seq<Tree<A>>)
    ensures
        all_liftable(es) || exists|i: int| 0 <= i < es.len() && !liftable(es[i]),
{
}

proof fn lemma_value_liftable_or_not<A>(es: Seq<Tree<A>>)
    ensures
        (forall|i: int| 0 <= i < es.len() ==> value_liftable(#[trigger] es[i])) || exists|i: int|
            0 <= i < es.len() && !value_liftable(es[i]),
{
}

/// What [`liftable`] says of the parts of an expression that can be lifted.
pub proof fn lemma_liftable_parts<A>(e: Tree<A>)
    requires
        liftable(e),
    ensures
        e matches Tree::Let { bindings, body } ==> all_liftable(body) && (forall|i: int|
            0 <= i < bindings.len() ==> value_liftable(#[trigger] values_of(bindings)[i])),
        e matches Tree::List(list) ==> all_liftable(list),
        e matches Tree::Vector(list) ==> all_flat(list),
        e matches Tree::Define { name, val } ==> (*val matches Tree::Lambda(c) ==> all_liftable(
            c.body,
        )),
{
    match e {
        Tree::Let { bindings, body } => {
            lemma_liftable_or_not(body);
            lemma_value_liftable_or_not(values_of(bindings));
            if exists|i: int|
                0 <= i < values_of(bindings).len() && !value_liftable(values_of(bindings)[i]) {
                let i = choose|i: int|
                    0 <= i < values_of(bindings).len() && !value_liftable(values_of(bindings)[i]);
                assert(values_of(bindings)[i] == bindings[i].1);
            }
        },
        Tree::List(list) => {
            lemma_liftable_or_not(list);
        },
        Tree::Vector(list) => {
            lemma_flat_or_not(list);
        },
        Tree::Define { name, val } => {
            match *val {
                Tree::Lambda(c) => {
                    lemma_liftable_or_not(c.body);
                },
                _ => {},
            }
        },
        _ => {},
    }
}

/// Renaming makes a function of a function and of nothing else.
pub proof fn lemma_renamed_function(env: Map<Name, Path>, base: Path, index: nat, e: Tree<Name>)
    ensures
        renamed(env, base, index, e) is Lambda <==> e is Lambda,
{
}

proof fn lemma_renamed_each_flat(
    env: Map<Name, Path>,
    base: Path,
    index: nat,
    es: Seq<Tree<Name>>,
)
    requires
        all_flat(es),
    ensures
        all_flat(renamed_each(env, base, index, es)),
    decreases es, 1nat,
{
    let rs = renamed_each(env, base, index, es);
    assert forall|i: int| 0 <= i < rs.len() implies flat(#[trigger] rs[i]) by {
        lemma_renamed_flat(env, base, index, es[i]);
    }
}

/// Renaming keeps an expression flat.
pub proof fn lemma_renamed_flat(env: Map<Name, Path>, base: Path, index: nat, e: Tree<Name>)
    requires
        flat(e),
    ensures
        flat(renamed(env, base, index, e)),
    decreases e, 0nat,
{
    let r = renamed(env, base, index, e);
    lemma_flat_parts(e);
    match e {
        Tree::Let { bindings, body } => {
            let inner = base.push(let_segment(index));
            let fresh = bound_names(bindings);
            let all = bind(env, inner, fresh, None);
            lemma_renamed_each_flat(all, inner, index + 1, body);
            let rb = r->Let_bindings;
            assert forall|i: int| 0 <= i < rb.len() implies flat(#[trigger] rb[i].1) by {
                let value = bindings[i].1;
                assert(values_of(bindings)[i] == value);
                assert(rb[i].1 == renamed_value(env, inner, index, fresh, bindings[i].0, value));
                match value {
                    Tree::Let { .. } => {
                        lemma_renamed_flat(all, inner, index + 1, value);
                    },
                    Tree::Lambda(_) => {},
                    _ => {
                        lemma_renamed_flat(
                            bind(env, inner, fresh, Some(bindings[i].0)),
                            inner,
                            index + 1,
                            value,
                        );
                    },
                }
            }
            assert(r->Let_body == renamed_each(all, inner, index + 1, body));
            assert(flat(r));
        },
        Tree::List(list) => {
            lemma_renamed_each_flat(env, base, index, list);
            assert(flat(r));
        },
        Tree::Vector(list) => {
            lemma_renamed_each_flat(env, base, index, list);
            assert(flat(r));
        },
        Tree::Cond { pred, conseq, alt } => {
            lemma_renamed_flat(env, base, index, *pred);
            lemma_renamed_flat(env, base, index, *conseq);
            match alt {
                Some(a) => {
                    lemma_renamed_flat(env, base, index, *a);
                },
                None => {},
            }
        },
        Tree::Define { name, val } => {
            match *val {
                Tree::Lambda(c) => {
                    lemma_renamed_each_flat(
                        bind(env, base.push(name), c.formals, None),
                        base.push(name),
                        0,
                        c.body,
                    );
                    let function = renamed(env, base.push(name), 0, *val);
                    assert(function->Lambda_0.body == renamed_each(
                        bind(env, base.push(name), c.formals, None),
                        base.push(name),
                        0,
                        c.body,
                    ));
                    assert(*r->Define_val == function);
                    assert(flat(r));
                },
                _ => {
                    lemma_renamed_flat(env, base.push(name), 0, *val);
                    lemma_renamed_function(env, base.push(name), 0, *val);
                    assert(flat(r));
                },
            }
        },
        _ => {},
    }
}

proof fn lemma_renamed_each_liftable(
    env: Map<Name, Path>,
    base: Path,
    index: nat,
    es: Seq<Tree<Name>>,
)
    requires
        all_liftable(es),
    ensures
        all_liftable(renamed_each(env, base, index, es)),
    decreases es, 1nat,
{
    let rs = renamed_each(env, base, index, es);
    assert forall|i: int| 0 <= i < rs.len() implies liftable(#[trigger] rs[i]) by {
        lemma_renamed_liftable(env, base, index, es[i]);
    }
}

/// Renaming keeps what lifting asks for: where lifting reaches every
/// function value of `e`, it reaches every function value of what renaming
/// makes of `e`.
pub proof fn lemma_renamed_liftable(env: Map<Name, Path>, base: Path, index: nat, e: Tree<Name>)
    requires
        liftable(e),
    ensures
        liftable(renamed(env, base, index, e)),
    decreases e, 0nat,
{
    let r = renamed(env, base, index, e);
    lemma_liftable_parts(e);
    match e {
        Tree::Let { bindings, body } => {
            let inner = base.push(let_segment(index));
            let fresh = bound_names(bindings);
            let all = bind(env, inner, fresh, None);
            lemma_renamed_each_liftable(all, inner, index + 1, body);
            let rb = r->Let_bindings;
            assert forall|i: int| 0 <= i < rb.len() implies value_liftable(#[trigger] rb[i].1) by {
                let value = bindings[i].1;
                let current = bindings[i].0;
                assert(values_of(bindings)[i] == value);
                assert(value_liftable(value));
                assert(rb[i].1 == renamed_value(env, inner, index, fresh, current, value));
                match value {
                    Tree::Let { .. } => {
                        lemma_renamed_liftable(all, inner, index + 1, value);
                    },
                    Tree::Lambda(c) => {
                        lemma_liftable_or_not(c.body);
                        let below = inner.push(current);
                        lemma_renamed_each_liftable(
                            bind(all, below, c.formals, None),
                            below,
                            0,
                            c.body,
                        );
                    },
                    _ => {
                        lemma_renamed_liftable(
                            bind(env, inner, fresh, Some(current)),
                            inner,
                            index + 1,
                            value,
                        );
                    },
                }
            }
            assert(r->Let_body == renamed_each(all, inner, index + 1, body));
            assert(liftable(r));
        },
        Tree::List(list) => {
            lemma_renamed_each_liftable(env, base, index, list);
            assert(liftable(r));
        },
        Tree::Vector(list) => {
            lemma_renamed_each_flat(env, base, index, list);
            assert(liftable(r));
        },
        Tree::Cond { pred, conseq, alt } => {
            lemma_renamed_liftable(env, base, index, *pred);
            lemma_renamed_liftable(env, base, index, *conseq);
            match alt {
                Some(a) => {
                    lemma_renamed_liftable(env, base, index, *a);
                },
                None => {},
            }
        },
        Tree::Define { name, val } => {
            match *val {
                Tree::Lambda(c) => {
                    lemma_renamed_each_liftable(
                        bind(env, base.push(name), c.formals, None),
                        base.push(name),
                        0,
                        c.body,
                    );
                    let function = renamed(env, base.push(name), 0, *val);
                    assert(function->Lambda_0.body == renamed_each(
                        bind(env, base.push(name), c.formals, None),
                        base.push(name),
                        0,
                        c.body,
                    ));
                    assert(*r->Define_val == function);
                    assert(liftable(r));
                },
                _ => {
                    lemma_renamed_flat(env, base.push(name), 0, *val);
                    lemma_renamed_function(env, base.push(name), 0, *val);
                    assert(liftable(r));
                },
            }
        },
        _ => {},
    }
}

/// Renaming and then lifting flattens a program: where lifting reaches
/// every function value of each form, every item that the two passes give
/// holds function values only as the direct value of a definition.
pub proof fn lemma_program_flattens(prog: Seq<Tree<Name>>)
    requires
        all_liftable(prog),
    ensures
        all_flat(crate::pipeline::lowered(prog)),
{
    let forms = renamed_forms_of(prog);
    assert forall|i: int| 0 <= i < forms.len() implies liftable(#[trigger] forms[i]) by {
        lemma_renamed_liftable(Map::empty(), Seq::empty(), 0, prog[i]);
    }
    lemma_lifted_all_flat(forms);
}

} // verus!
