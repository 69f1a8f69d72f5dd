//! Uniqueness of the identifiers that renaming binds.
use vstd::prelude::*;
use crate::ident::{Name, Path, let_segment};
use crate::expr::Tree;
use crate::env::bind;
use crate::rename::{renamed, renamed_each, renamed_value, bound_names, qualified};
use crate::binders::{
    binds, binds_any, below, lemma_within_push, lemma_renamed_binds_below,
    lemma_block_binds_below,
};

verus! {

/// The sum of `s`.
pub open spec fn total(s: Seq<nat>) -> nat
    decreases s.len(),
{
    if s.len() == 0 {
        0
    } else {
        total(s.drop_last()) + s.last()
    }
}

proof fn lemma_total_zero(s: Seq<nat>)
    requires
        forall|i: int| 0 <= i < s.len() ==> s[i] == 0,
    ensures
        total(s) == 0,
    decreases s.len(),
{
    if s.len() > 0 {
        lemma_total_zero(s.drop_last());
    }
}

proof fn lemma_total_positive(s: Seq<nat>)
    requires
        total(s) > 0,
    ensures
        exists|i: int| 0 <= i < s.len() && s[i] > 0,
    decreases s.len(),
{
    if s.len() > 0 {
        if s.last() > 0 {
            assert(s[s.len() - 1] > 0);
        } else {
            lemma_total_positive(s.drop_last());
            let i = choose|i: int| 0 <= i < s.drop_last().len() && s.drop_last()[i] > 0;
            assert(s[i] > 0);
        }
    }
}

proof fn lemma_total_at_most_one(s: Seq<nat>)
    requires
        forall|i: int| 0 <= i < s.len() ==> s[i] <= 1,
        forall|i: int, j: int| #![trigger s[i], s[j]] 0 <= i < j < s.len() ==> s[i] == 0 || s[j] == 0,
    ensures
        total(s) <= 1,
    decreases s.len(),
{
    if s.len() > 0 {
        let t = s.drop_last();
        assert forall|i: int, j: int| #![trigger t[i], t[j]] 0 <= i < j < t.len() implies t[i] == 0
            || t[j] == 0 by {
            assert(s[i] == 0 || s[j] == 0);
        }
        lemma_total_at_most_one(t);
        if s.last() > 0 {
            assert forall|i: int| 0 <= i < t.len() implies t[i] == 0 by {
                assert(s[i] == 0 || s[s.len() - 1] == 0);
            }
            lemma_total_zero(t);
        }
    }
}

/// One if the two paths are the same, else zero.
pub open spec fn one_if(a: Path, b: Path) -> nat {
    if a == b {
        1
    } else {
        0
    }
}

/// For each of `ids`, whether it is `p`.
pub open spec fn hits(ids: Seq<Path>, p: Path) -> Seq<nat> {
    Seq::new(ids.len(), |i: int| one_if(ids[i], p))
}

/// For each of `es`, the number of its sites that bind `p`.
pub open spec fn sites_each(es: Seq<Tree<Path>>, p: Path) -> Seq<nat>
    decreases es, 1nat,
{
    Seq::new(
        es.len(),
        |i: int|
            if 0 <= i < es.len() {
                sites(es[i], p)
            } else {
                0
            },
    )
}

/// For each of `bindings`, the number of sites that bind `p`: the binding
/// itself and those in its value.
pub open spec fn sites_bound(bindings: Seq<(Path, Tree<Path>)>, p: Path) -> Seq<nat>
    decreases bindings, 1nat,
{
    Seq::new(
        bindings.len(),
        |i: int|
            if 0 <= i < bindings.len() {
                one_if(bindings[i].0, p) + sites(bindings[i].1, p)
            } else {
                0
            },
    )
}

/// The number of binding sites in `t` that bind `p`: names of blocks,
/// parameters of functions and names of definitions.
pub open spec fn sites(t: Tree<Path>, p: Path) -> nat
    decreases t, 0nat,
{
    match t {
        Tree::Identifier(_) => 0,
        Tree::Literal(_) => 0,
        Tree::Let { bindings, body } => total(sites_bound(bindings, p)) + total(sites_each(body, p)),
        Tree::List(list) => total(sites_each(list, p)),
        Tree::Vector(list) => total(sites_each(list, p)),
        Tree::Cond { pred, conseq, alt } => sites(*pred, p) + sites(*conseq, p) + match alt {
            Some(a) => sites(*a, p),
            None => 0,
        },
        Tree::Lambda(c) => total(hits(c.formals, p)) + total(sites_each(c.body, p)),
        Tree::Define { name, val } => one_if(name, p) + sites(*val, p),
    }
}

proof fn lemma_sites_each_binds(es: Seq<Tree<Path>>, p: Path)
    requires
        total(sites_each(es, p)) > 0,
    ensures
        binds_any(es, p),
    decreases es, 1nat,
{
    lemma_total_positive(sites_each(es, p));
    let i = choose|i: int| 0 <= i < es.len() && sites_each(es, p)[i] > 0;
    lemma_sites_binds(es[i], p);
}

/// A site that binds `p` makes `p` bound.
pub proof fn lemma_sites_binds(t: Tree<Path>, p: Path)
    requires
        sites(t, p) > 0,
    ensures
        binds(t, p),
    decreases t, 0nat,
{
    match t {
        Tree::Let { bindings, body } => {
            if total(sites_each(body, p)) > 0 {
                lemma_sites_each_binds(body, p);
            } else {
                lemma_total_positive(sites_bound(bindings, p));
                let i = choose|i: int| 0 <= i < bindings.len() && sites_bound(bindings, p)[i] > 0;
                if bindings[i].0 != p {
                    lemma_sites_binds(bindings[i].1, p);
                }
                assert(bindings[i].0 == p || binds(bindings[i].1, p));
            }
        },
        Tree::List(list) => {
            lemma_sites_each_binds(list, p);
        },
        Tree::Vector(list) => {
            lemma_sites_each_binds(list, p);
        },
        Tree::Cond { pred, conseq, alt } => {
            if sites(*pred, p) > 0 {
                lemma_sites_binds(*pred, p);
            } else if sites(*conseq, p) > 0 {
                lemma_sites_binds(*conseq, p);
            } else {
                lemma_sites_binds(*alt->Some_0, p);
            }
        },
        Tree::Lambda(c) => {
            if total(sites_each(c.body, p)) > 0 {
                lemma_sites_each_binds(c.body, p);
            } else {
                lemma_total_positive(hits(c.formals, p));
                let i = choose|i: int| 0 <= i < c.formals.len() && hits(c.formals, p)[i] > 0;
                assert(c.formals[i] == p);
            }
        },
        Tree::Define { name, val } => {
            if name != p {
                lemma_sites_binds(*val, p);
            }
        },
        _ => {},
    }
}

/// Whether `e` holds no binding site: no block, function or definition.
pub open spec fn quiet(e: Tree<Name>) -> bool
    decreases e,
{
    match e {
        Tree::Identifier(_) => true,
        Tree::Literal(_) => true,
        Tree::List(list) => forall|i: int| 0 <= i < list.len() ==> quiet(#[trigger] list[i]),
        Tree::Vector(list) => forall|i: int| 0 <= i < list.len() ==> quiet(#[trigger] list[i]),
        Tree::Cond { pred, conseq, alt } => quiet(*pred) && quiet(*conseq) && match alt {
            Some(a) => quiet(*a),
            None => true,
        },
        _ => false,
    }
}

/// Whether every binding site that `e` holds is in a block: `e` holds no
/// function and no definition outside a block.
pub open spec fn in_blocks(e: Tree<Name>) -> bool
    decreases e,
{
    match e {
        Tree::Identifier(_) => true,
        Tree::Literal(_) => true,
        Tree::Let { .. } => true,
        Tree::List(list) => forall|i: int| 0 <= i < list.len() ==> in_blocks(#[trigger] list[i]),
        Tree::Vector(list) => forall|i: int| 0 <= i < list.len() ==> in_blocks(#[trigger] list[i]),
        Tree::Cond { pred, conseq, alt } => in_blocks(*pred) && in_blocks(*conseq) && match alt {
            Some(a) => in_blocks(*a),
            None => true,
        },
        _ => false,
    }
}

/// Whether at most one of `es` holds a binding site.
pub open spec fn one_speaks(es: Seq<Tree<Name>>) -> bool {
    forall|i: int, j: int|
        #![trigger es[i], es[j]]
        0 <= i < j < es.len() ==> quiet(es[i]) || quiet(es[j])
}

/// Whether each of `es` is tidy from `index` on.
pub open spec fn all_tidy(es: Seq<Tree<Name>>, index: nat) -> bool
    decreases es, 1nat,
{
    forall|i: int| 0 <= i < es.len() ==> tidy(#[trigger] es[i], index)
}

/// Whether the value of a binding is tidy: a function that is, or a tidy
/// expression whose binding sites are in blocks.
pub open spec fn tidy_value(v: Tree<Name>, index: nat) -> bool
    decreases v, 1nat,
{
    tidy(v, index) && (v is Lambda || in_blocks(v))
}

/// Whether no two parts of `e` that are renamed in one naming context, at
/// one nesting index, both hold binding sites, and no list of names holds a
/// name twice. In a block, the functions bound by it are told apart by their
/// names, which must not have the form of a block's segment; of its other
/// values and its body, one at most holds binding sites, all of them in
/// blocks. The body of a function is held to the same.
pub open spec fn tidy(e: Tree<Name>, index: nat) -> bool
    decreases e, 0nat,
{
    match e {
        Tree::Identifier(_) => true,
        Tree::Literal(_) => true,
        Tree::List(list) => all_tidy(list, index) && one_speaks(list),
        Tree::Vector(list) => all_tidy(list, index) && one_speaks(list),
        Tree::Cond { pred, conseq, alt } => tidy(*pred, index) && tidy(*conseq, index) && (quiet(*pred)
            || quiet(*conseq)) && match alt {
            Some(a) => tidy(*a, index) && (quiet(*pred) || quiet(*a)) && (quiet(*conseq) || quiet(
                *a,
            )),
            None => true,
        },
        Tree::Define { name, val } => tidy(*val, 0),
        Tree::Lambda(c) => c.formals.no_duplicates() && all_tidy(c.body, 0) && one_speaks(c.body) && (
        forall|i: int| 0 <= i < c.body.len() ==> in_blocks(#[trigger] c.body[i])),
        Tree::Let { bindings, body } => {
            &&& bound_names(bindings).no_duplicates()
            &&& forall|i: int|
                0 <= i < bindings.len() ==> (#[trigger] bindings[i]).0 != let_segment(index + 1)
                    && tidy_value(bindings[i].1, index + 1)
            &&& all_tidy(body, index + 1)
            &&& forall|i: int| 0 <= i < body.len() ==> in_blocks(#[trigger] body[i])
            &&& one_speaks(body)
            &&& forall|i: int, j: int|
                #![trigger bindings[i], bindings[j]]
                0 <= i < j < bindings.len() ==> bindings[i].1 is Lambda || bindings[j].1 is Lambda
                    || quiet(bindings[i].1) || quiet(bindings[j].1)
            &&& forall|i: int, j: int|
                #![trigger bindings[i], body[j]]
                0 <= i < bindings.len() && 0 <= j < body.len() ==> bindings[i].1 is Lambda || quiet(
                    bindings[i].1,
                ) || quiet(body[j])
        },
    }
}

proof fn lemma_quiet_each(env: Map<Name, Path>, base: Path, index: nat, es: Seq<Tree<Name>>, p: Path)
    requires
        forall|i: int| 0 <= i < es.len() ==> quiet(#[trigger] es[i]),
    ensures
        total(sites_each(renamed_each(env, base, index, es), p)) == 0,
    decreases es, 1nat,
{
    let s = sites_each(renamed_each(env, base, index, es), p);
    assert forall|i: int| 0 <= i < s.len() implies s[i] == 0 by {
        lemma_quiet_silent(env, base, index, es[i], p);
    }
    lemma_total_zero(s);
}

/// What holds no binding site binds nothing once renamed.
pub proof fn lemma_quiet_silent(env: Map<Name, Path>, base: Path, index: nat, e: Tree<Name>, p: Path)
    requires
        quiet(e),
    ensures
        sites(renamed(env, base, index, e), p) == 0,
    decreases e, 0nat,
{
    match e {
        Tree::List(list) => {
            lemma_quiet_each(env, base, index, list, p);
        },
        Tree::Vector(list) => {
            lemma_quiet_each(env, base, index, list, p);
        },
        Tree::Cond { pred, conseq, alt } => {
            lemma_quiet_silent(env, base, index, *pred, p);
            lemma_quiet_silent(env, base, index, *conseq, p);
            match alt {
                Some(a) => {
                    lemma_quiet_silent(env, base, index, *a, p);
                },
                None => {},
            }
        },
        _ => {},
    }
}

proof fn lemma_in_blocks_each(
    env: Map<Name, Path>,
    base: Path,
    index: nat,
    es: Seq<Tree<Name>>,
    p: Path,
)
    requires
        forall|i: int| 0 <= i < es.len() ==> in_blocks(#[trigger] es[i]),
        binds_any(renamed_each(env, base, index, es), p),
    ensures
        below(p, base.push(let_segment(index))),
    decreases es, 1nat,
{
    let rs = renamed_each(env, base, index, es);
    let i = choose|i: int| 0 <= i < rs.len() && binds(#[trigger] rs[i], p);
    lemma_in_blocks_below(env, base, index, es[i], p);
}

/// Where the binding sites of `e` are all in blocks, what `e` binds once
/// renamed lies below the segment of the nesting index.
pub proof fn lemma_in_blocks_below(
    env: Map<Name, Path>,
    base: Path,
    index: nat,
    e: Tree<Name>,
    p: Path,
)
    requires
        in_blocks(e),
        binds(renamed(env, base, index, e), p),
    ensures
        below(p, base.push(let_segment(index))),
    decreases e, 0nat,
{
    match e {
        Tree::Let { .. } => {
            lemma_block_binds_below(env, base, index, e, p);
        },
        Tree::List(list) => {
            lemma_in_blocks_each(env, base, index, list, p);
        },
        Tree::Vector(list) => {
            lemma_in_blocks_each(env, base, index, list, p);
        },
        Tree::Cond { pred, conseq, alt } => {
            if binds(renamed(env, base, index, *pred), p) {
                lemma_in_blocks_below(env, base, index, *pred, p);
            } else if binds(renamed(env, base, index, *conseq), p) {
                lemma_in_blocks_below(env, base, index, *conseq, p);
            } else {
                lemma_in_blocks_below(env, base, index, *alt->Some_0, p);
            }
        },
        _ => {},
    }
}

proof fn lemma_unique_each(env: Map<Name, Path>, base: Path, index: nat, es: Seq<Tree<Name>>, p: Path)
    requires
        all_tidy(es, index),
        one_speaks(es),
    ensures
        total(sites_each(renamed_each(env, base, index, es), p)) <= 1,
    decreases es, 2nat,
{
    let s = sites_each(renamed_each(env, base, index, es), p);
    assert forall|i: int| 0 <= i < s.len() implies s[i] <= 1 by {
        lemma_unique(env, base, index, es[i], p);
    }
    assert forall|i: int, j: int| #![trigger s[i], s[j]] 0 <= i < j < s.len() implies s[i] == 0
        || s[j] == 0 by {
        assert(quiet(es[i]) || quiet(es[j]));
        if quiet(es[i]) {
            lemma_quiet_silent(env, base, index, es[i], p);
        } else {
            lemma_quiet_silent(env, base, index, es[j], p);
        }
    }
    lemma_total_at_most_one(s);
}

proof fn lemma_hits_at_most_one(base: Path, fresh: Seq<Name>, p: Path)
    requires
        fresh.no_duplicates(),
    ensures
        total(hits(qualified(base, fresh), p)) <= 1,
        total(hits(qualified(base, fresh), p)) > 0 ==> p.len() == base.len() + 1,
{
    let s = hits(qualified(base, fresh), p);
    assert forall|i: int, j: int| #![trigger s[i], s[j]] 0 <= i < j < s.len() implies s[i] == 0
        || s[j] == 0 by {
        if s[i] != 0 && s[j] != 0 {
            assert(base.push(fresh[i]) == p);
            assert(base.push(fresh[j]) == p);
            assert(base.push(fresh[i])[base.len() as int] == fresh[i]);
            assert(base.push(fresh[j])[base.len() as int] == fresh[j]);
        }
    }
    lemma_total_at_most_one(s);
    if total(s) > 0 {
        lemma_total_positive(s);
        let i = choose|i: int| 0 <= i < s.len() && s[i] > 0;
        assert(base.push(fresh[i]) == p);
    }
}

/// Renaming gives every binding site of a tidy expression an identifier of
/// its own: no identifier is bound at two sites of what renaming gives.
pub proof fn lemma_unique(env: Map<Name, Path>, base: Path, index: nat, e: Tree<Name>, p: Path)
    requires
        tidy(e, index),
    ensures
        sites(renamed(env, base, index, e), p) <= 1,
    decreases e, 1nat,
{
    let r = renamed(env, base, index, e);
    match e {
        Tree::List(list) => {
            lemma_unique_each(env, base, index, list, p);
        },
        Tree::Vector(list) => {
            lemma_unique_each(env, base, index, list, p);
        },
        Tree::Cond { pred, conseq, alt } => {
            lemma_unique(env, base, index, *pred, p);
            lemma_unique(env, base, index, *conseq, p);
            if quiet(*pred) {
                lemma_quiet_silent(env, base, index, *pred, p);
            }
            if quiet(*conseq) {
                lemma_quiet_silent(env, base, index, *conseq, p);
            }
            match alt {
                Some(a) => {
                    lemma_unique(env, base, index, *a, p);
                    if quiet(*a) {
                        lemma_quiet_silent(env, base, index, *a, p);
                    }
                },
                None => {},
            }
        },
        Tree::Define { name, val } => {
            lemma_unique(env, base.push(name), 0, *val, p);
            let inner = renamed(env, base.push(name), 0, *val);
            if p == base.push(name) && sites(inner, p) > 0 {
                lemma_sites_binds(inner, p);
                lemma_renamed_binds_below(env, base.push(name), 0, *val, p);
            }
        },
        Tree::Lambda(c) => {
            let scope = bind(env, base, c.formals, None);
            lemma_hits_at_most_one(base, c.formals, p);
            lemma_unique_each(scope, base, 0, c.body, p);
            let body = renamed_each(scope, base, 0, c.body);
            if total(hits(qualified(base, c.formals), p)) > 0 && total(sites_each(body, p)) > 0 {
                lemma_sites_each_binds(body, p);
                lemma_in_blocks_each(scope, base, 0, c.body, p);
                lemma_within_push(p, base, let_segment(0));
            }
        },
        Tree::Let { bindings, body } => {
            lemma_unique_block(env, base, index, e, p);
        },
        _ => {},
    }
}

proof fn lemma_unique_block(env: Map<Name, Path>, base: Path, index: nat, e: Tree<Name>, p: Path)
    requires
        e is Let,
        tidy(e, index),
    ensures
        sites(renamed(env, base, index, e), p) <= 1,
    decreases e, 0nat,
{
    let bindings = e->Let_bindings;
    let body = e->Let_body;
    let r = renamed(env, base, index, e);
    let inner = base.push(let_segment(index));
    let fresh = bound_names(bindings);
    let all = bind(env, inner, fresh, None);
    let rb = r->Let_bindings;
    let rbody = r->Let_body;
    let a = sites_bound(rb, p);
    let b = sites_each(rbody, p);
    assert(rbody == renamed_each(all, inner, index + 1, body));
    assert(all_tidy(body, index + 1));
    assert(b.len() == body.len());
    // what a value binds lies two segments or more below the block
    assert forall|i: int| 0 <= i < bindings.len() && sites(rb[i].1, p) > 0 implies sites(rb[i].1, p)
        <= 1 && p.len() > inner.len() + 1 && (if bindings[i].1 is Lambda {
        p[inner.len() as int] == bindings[i].0
    } else {
        p[inner.len() as int] == let_segment(index + 1) && !quiet(bindings[i].1)
    }) by {
        let current = bindings[i].0;
        let value = bindings[i].1;
        assert(tidy_value(value, index + 1));
        assert(rb[i].1 == renamed_value(env, inner, index, fresh, current, value));
        lemma_sites_binds(rb[i].1, p);
        match value {
            Tree::Let { .. } => {
                lemma_unique(all, inner, index + 1, value, p);
                lemma_in_blocks_below(all, inner, index + 1, value, p);
                lemma_within_push(p, inner, let_segment(index + 1));
            },
            Tree::Lambda(_) => {
                lemma_unique(all, inner.push(current), index + 1, value, p);
                lemma_renamed_binds_below(all, inner.push(current), index + 1, value, p);
                lemma_within_push(p, inner, current);
            },
            _ => {
                let rest = bind(env, inner, fresh, Some(current));
                lemma_unique(rest, inner, index + 1, value, p);
                lemma_in_blocks_below(rest, inner, index + 1, value, p);
                lemma_within_push(p, inner, let_segment(index + 1));
                if quiet(value) {
                    lemma_quiet_silent(rest, inner, index + 1, value, p);
                }
            },
        }
    }
    // so does what the body binds
    assert forall|j: int| 0 <= j < body.len() && b[j] > 0 implies b[j] <= 1 && p.len() > inner.len()
        + 1 && p[inner.len() as int] == let_segment(index + 1) && !quiet(body[j]) by {
        lemma_unique(all, inner, index + 1, body[j], p);
        lemma_sites_binds(rbody[j], p);
        lemma_in_blocks_below(all, inner, index + 1, body[j], p);
        lemma_within_push(p, inner, let_segment(index + 1));
        if quiet(body[j]) {
            lemma_quiet_silent(all, inner, index + 1, body[j], p);
        }
    }
    assert forall|i: int| 0 <= i < a.len() implies a[i] <= 1 by {
        if rb[i].0 == p && sites(rb[i].1, p) > 0 {
            assert(p.len() == inner.len() + 1);
        }
    }
    assert forall|i: int, j: int| #![trigger a[i], a[j]] 0 <= i < j < a.len() implies a[i] == 0
        || a[j] == 0 by {
        if a[i] != 0 && a[j] != 0 {
            assert(fresh[i] == bindings[i].0 && fresh[j] == bindings[j].0);
            assert(fresh[i] != fresh[j]);
            assert(inner.push(fresh[i])[inner.len() as int] == fresh[i]);
            assert(inner.push(fresh[j])[inner.len() as int] == fresh[j]);
            assert(bindings[i].1 is Lambda || bindings[j].1 is Lambda || quiet(bindings[i].1)
                || quiet(bindings[j].1));
            if rb[i].0 == p {
                assert(p.len() == inner.len() + 1);
            }
            if rb[j].0 == p {
                assert(p.len() == inner.len() + 1);
            }
        }
    }
    lemma_total_at_most_one(a);
    assert forall|i: int, j: int| #![trigger b[i], b[j]] 0 <= i < j < b.len() implies b[i] == 0
        || b[j] == 0 by {
        assert(quiet(body[i]) || quiet(body[j]));
    }
    assert forall|j: int| 0 <= j < b.len() implies b[j] <= 1 by {}
    lemma_total_at_most_one(b);
    if total(a) > 0 && total(b) > 0 {
        lemma_total_positive(a);
        lemma_total_positive(b);
        let i = choose|i: int| 0 <= i < a.len() && a[i] > 0;
        let j = choose|j: int| 0 <= j < b.len() && b[j] > 0;
        assert(bindings[i].1 is Lambda || quiet(bindings[i].1) || quiet(body[j]));
        if rb[i].0 == p {
            assert(p.len() == inner.len() + 1);
        }
    }
}

} // verus!
