//! Where renaming puts the identifiers that it binds.
use vstd::prelude::*;
use crate::ident::{Name, Path, let_segment, lemma_generated_names_injective};
use crate::expr::Tree;
use crate::env::bind;
use crate::rename::{renamed, renamed_each, renamed_value, bound_names};

verus! {

/// Whether one of `es` binds `p`.
pub open spec fn binds_any(es: Seq<Tree<Path>>, p: Path) -> bool
    decreases es, 1nat,
{
    exists|i: int| 0 <= i < es.len() && binds(#[trigger] es[i], p)
}

/// Whether `p` is bound somewhere in `t`: as a name of a block, as a
/// parameter of a function or as the name of a definition.
pub open spec fn binds(t: Tree<Path>, p: Path) -> bool
    decreases t, 0nat,
{
    match t {
        Tree::Identifier(_) => false,
        Tree::Literal(_) => false,
        Tree::Let { bindings, body } => (exists|i: int|
            0 <= i < bindings.len() && ((#[trigger] bindings[i]).0 == p || binds(bindings[i].1, p)))
            || binds_any(body, p),
        Tree::List(list) => binds_any(list, p),
        Tree::Vector(list) => binds_any(list, p),
        Tree::Cond { pred, conseq, alt } => binds(*pred, p) || binds(*conseq, p) || match alt {
            Some(a) => binds(*a, p),
            None => false,
        },
        Tree::Lambda(c) => c.formals.contains(p) || binds_any(c.body, p),
        Tree::Define { name, val } => name == p || binds(*val, p),
    }
}

/// Whether `p` lies strictly below `base`: it is longer and starts with it.
pub open spec fn below(p: Path, base: Path) -> bool {
    base.len() < p.len() && p.take(base.len() as int) == base
}

/// Whether `p` is `base` or lies below it.
pub open spec fn within(p: Path, base: Path) -> bool {
    p == base || below(p, base)
}

/// What is within a path that was extended lies below the path itself.
pub proof fn lemma_within_push(p: Path, base: Path, segment: Name)
    requires
        within(p, base.push(segment)),
    ensures
        below(p, base),
        p[base.len() as int] == segment,
{
    let longer = base.push(segment);
    assert(p.take(longer.len() as int) == longer);
    assert(p.take(base.len() as int) =~= longer.take(base.len() as int));
    assert(longer.take(base.len() as int) =~= base);
    assert(p.take(longer.len() as int)[base.len() as int] == segment);
}

proof fn lemma_each_binds_below(
    env: Map<Name, Path>,
    base: Path,
    index: nat,
    es: Seq<Tree<Name>>,
    p: Path,
)
    requires
        binds_any(renamed_each(env, base, index, es), p),
    ensures
        below(p, base),
    decreases es, 2nat,
{
    let rs = renamed_each(env, base, index, es);
    let i = choose|i: int| 0 <= i < rs.len() && binds(#[trigger] rs[i], p);
    lemma_renamed_binds_below(env, base, index, es[i], p);
}

/// A block keeps what it binds to itself: every identifier bound in the
/// renamed block lies strictly below the path of the block, which is `base`
/// with the segment of `index`.
pub proof fn lemma_block_binds_below(
    env: Map<Name, Path>,
    base: Path,
    index: nat,
    e: Tree<Name>,
    p: Path,
)
    requires
        e is Let,
        binds(renamed(env, base, index, e), p),
    ensures
        below(p, base.push(let_segment(index))),
    decreases e, 0nat,
{
    let r = renamed(env, base, index, e);
    let bindings = e->Let_bindings;
    let body = e->Let_body;
    let inner = base.push(let_segment(index));
    let fresh = bound_names(bindings);
    let all = bind(env, inner, fresh, None);
    let rb = r->Let_bindings;
    if binds_any(r->Let_body, p) {
        lemma_each_binds_below(all, inner, index + 1, body, p);
    } else {
        let i = choose|i: int| 0 <= i < rb.len() && ((#[trigger] rb[i]).0 == p || binds(rb[i].1, p));
        let current = bindings[i].0;
        let value = bindings[i].1;
        if rb[i].0 == p {
            lemma_within_push(p, inner, current);
        } else {
            assert(rb[i].1 == renamed_value(env, inner, index, fresh, current, value));
            match value {
                Tree::Let { .. } => {
                    lemma_renamed_binds_below(all, inner, index + 1, value, p);
                },
                Tree::Lambda(_) => {
                    lemma_renamed_binds_below(all, inner.push(current), index + 1, value, p);
                    lemma_within_push(p, inner, current);
                },
                _ => {
                    lemma_renamed_binds_below(
                        bind(env, inner, fresh, Some(current)),
                        inner,
                        index + 1,
                        value,
                        p,
                    );
                },
            }
        }
    }
}

/// Renaming qualifies what it binds: every identifier bound in what
/// renaming below `base` gives lies strictly below `base`.
pub proof fn lemma_renamed_binds_below(
    env: Map<Name, Path>,
    base: Path,
    index: nat,
    e: Tree<Name>,
    p: Path,
)
    requires
        binds(renamed(env, base, index, e), p),
    ensures
        below(p, base),
    decreases e, 1nat,
{
    let r = renamed(env, base, index, e);
    match e {
        Tree::Let { bindings, body } => {
            lemma_block_binds_below(env, base, index, e, p);
            lemma_within_push(p, base, let_segment(index));
        },
        Tree::List(list) => {
            lemma_each_binds_below(env, base, index, list, p);
        },
        Tree::Vector(list) => {
            lemma_each_binds_below(env, base, index, list, p);
        },
        Tree::Cond { pred, conseq, alt } => {
            if binds(renamed(env, base, index, *pred), p) {
                lemma_renamed_binds_below(env, base, index, *pred, p);
            } else if binds(renamed(env, base, index, *conseq), p) {
                lemma_renamed_binds_below(env, base, index, *conseq, p);
            } else {
                lemma_renamed_binds_below(env, base, index, *alt->Some_0, p);
            }
        },
        Tree::Lambda(c) => {
            let code = r->Lambda_0;
            if code.formals.contains(p) {
                let i = choose|i: int| 0 <= i < code.formals.len() && code.formals[i] == p;
                lemma_within_push(p, base, c.formals[i]);
            } else {
                lemma_each_binds_below(bind(env, base, c.formals, None), base, 0, c.body, p);
            }
        },
        Tree::Define { name, val } => {
            if p != base.push(name) {
                lemma_renamed_binds_below(env, base.push(name), 0, *val, p);
            }
            lemma_within_push(p, base, name);
        },
        _ => {},
    }
}

/// What is renamed below two different extensions of one path binds no
/// identifier in common: so the functions bound to different names of one
/// block, and what they hold, are apart.
pub proof fn lemma_branches_apart(
    base: Path,
    first: Name,
    second: Name,
    left: (Map<Name, Path>, nat, Tree<Name>),
    right: (Map<Name, Path>, nat, Tree<Name>),
    p: Path,
)
    requires
        first != second,
        binds(renamed(left.0, base.push(first), left.1, left.2), p),
    ensures
        !binds(renamed(right.0, base.push(second), right.1, right.2), p),
{
    lemma_renamed_binds_below(left.0, base.push(first), left.1, left.2, p);
    lemma_within_push(p, base, first);
    if binds(renamed(right.0, base.push(second), right.1, right.2), p) {
        lemma_renamed_binds_below(right.0, base.push(second), right.1, right.2, p);
        lemma_within_push(p, base, second);
    }
}

/// Blocks at different nesting indices below one path bind no identifier
/// in common.
pub proof fn lemma_blocks_apart(
    base: Path,
    left: (Map<Name, Path>, nat, Tree<Name>),
    right: (Map<Name, Path>, nat, Tree<Name>),
    p: Path,
)
    requires
        left.2 is Let,
        right.2 is Let,
        left.1 != right.1,
        binds(renamed(left.0, base, left.1, left.2), p),
    ensures
        !binds(renamed(right.0, base, right.1, right.2), p),
{
    lemma_generated_names_injective(left.1, right.1);
    lemma_block_binds_below(left.0, base, left.1, left.2, p);
    lemma_within_push(p, base, let_segment(left.1));
    if binds(renamed(right.0, base, right.1, right.2), p) {
        lemma_block_binds_below(right.0, base, right.1, right.2, p);
        lemma_within_push(p, base, let_segment(right.1));
    }
}

/// A definition keeps what it binds to itself: every identifier bound in
/// the renamed definition of `name` is the qualified name or lies below it.
pub proof fn lemma_definition_binds_within(
    env: Map<Name, Path>,
    base: Path,
    index: nat,
    name: Name,
    val: Tree<Name>,
    p: Path,
)
    requires
        binds(renamed(env, base, index, Tree::Define { name, val: Box::new(val) }), p),
    ensures
        within(p, base.push(name)),
{
    if p != base.push(name) {
        lemma_renamed_binds_below(env, base.push(name), 0, val, p);
    }
}

/// Definitions of different names, renamed below one path, bind no
/// identifier in common.
pub proof fn lemma_definitions_apart(
    env: Map<Name, Path>,
    base: Path,
    first: (Name, Tree<Name>),
    second: (Name, Tree<Name>),
    p: Path,
)
    requires
        first.0 != second.0,
        binds(renamed(env, base, 0, Tree::Define { name: first.0, val: Box::new(first.1) }), p),
    ensures
        !binds(renamed(env, base, 0, Tree::Define { name: second.0, val: Box::new(second.1) }), p),
{
    lemma_definition_binds_within(env, base, 0, first.0, first.1, p);
    lemma_within_push(p, base, first.0);
    if binds(renamed(env, base, 0, Tree::Define { name: second.0, val: Box::new(second.1) }), p) {
        lemma_definition_binds_within(env, base, 0, second.0, second.1, p);
        lemma_within_push(p, base, second.0);
    }
}

/// The names of one block, where they differ, get different identifiers,
/// and so do the parameters of one function.
pub proof fn lemma_siblings_apart(base: Path, first: Name, second: Name)
    requires
        first != second,
    ensures
        base.push(first) != base.push(second),
{
    assert(base.push(first)[base.len() as int] == first);
    assert(base.push(second)[base.len() as int] == second);
}

} // verus!
