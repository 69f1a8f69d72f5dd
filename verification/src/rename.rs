//! Renaming: every name becomes an identifier qualified by where it is bound.
use vstd::prelude::*;
use crate::ident::{Ident, Name, Path, names, let_segment, let_name};
use crate::expr::{Expr, Closure, Literal, Syntax, Core, Tree, Code, Lit, trees};
use crate::env::{Env, bind};

verus! {

/// The names that a sequence of bindings binds, in order.
pub open spec fn bound_names(bindings: Seq<(Name, Tree<Name>)>) -> Seq<Name> {
    Seq::new(bindings.len(), |i: int| bindings[i].0)
}

/// Each of `fresh` qualified by `base`.
pub open spec fn qualified(base: Path, fresh: Seq<Name>) -> Seq<Path> {
    Seq::new(fresh.len(), |i: int| base.push(fresh[i]))
}

/// What renaming makes of the value of the binding of `current`, one of the
/// bindings `fresh` of a block whose path is `inner`. A block or a function
/// sees all the bindings, itself included, and a function is named after its
/// binding; any other value sees all the bindings but those of its own name.
pub open spec fn renamed_value(
    env: Map<Name, Path>,
    inner: Path,
    index: nat,
    fresh: Seq<Name>,
    current: Name,
    value: Tree<Name>,
) -> Tree<Path>
    decreases value, 1nat,
{
    match value {
        Tree::Let { .. } => renamed(bind(env, inner, fresh, None), inner, index + 1, value),
        Tree::Lambda(_) => renamed(
            bind(env, inner, fresh, None),
            inner.push(current),
            index + 1,
            value,
        ),
        _ => renamed(bind(env, inner, fresh, Some(current)), inner, index + 1, value),
    }
}

/// What renaming makes of each of `es`.
pub open spec fn renamed_each(env: Map<Name, Path>, base: Path, index: nat, es: Seq<Tree<Name>>) -> Seq<
    Tree<Path>,
>
    decreases es, 1nat,
{
    Seq::new(
        es.len(),
        |i: int|
            if 0 <= i < es.len() {
                renamed(env, base, index, es[i])
            } else {
                Tree::Literal(Lit::Nil)
            },
    )
}

/// What renaming makes of `e` in the scope `env`, below the path `base`, where
/// `index` tells apart the anonymous blocks nested in one naming context.
///
/// A name bound in `env` becomes the identifier it stands for, an unbound one
/// the one-segment identifier of that name. A block takes the segment
/// `{let <index>}`, binds each of its names below it, and its body sees them
/// all. A function binds its parameters below `base` and starts the count of
/// blocks anew; a definition qualifies its name by `base` and its value by
/// that name.
pub open spec fn renamed(env: Map<Name, Path>, base: Path, index: nat, e: Tree<Name>) -> Tree<Path>
    decreases e, 0nat,
{
    match e {
        Tree::Identifier(s) => Tree::Identifier(
            if env.contains_key(s) {
                env[s]
            } else {
                seq![s]
            },
        ),
        Tree::Let { bindings, body } => {
            let inner = base.push(let_segment(index));
            let fresh = bound_names(bindings);
            Tree::Let {
                bindings: Seq::new(
                    bindings.len(),
                    |i: int|
                        if 0 <= i < bindings.len() {
                            (
                                inner.push(bindings[i].0),
                                renamed_value(env, inner, index, fresh, bindings[i].0, bindings[i].1),
                            )
                        } else {
                            (inner, Tree::Literal(Lit::Nil))
                        },
                ),
                body: renamed_each(bind(env, inner, fresh, None), inner, index + 1, body),
            }
        },
        Tree::List(list) => Tree::List(renamed_each(env, base, index, list)),
        Tree::Cond { pred, conseq, alt } => Tree::Cond {
            pred: Box::new(renamed(env, base, index, *pred)),
            conseq: Box::new(renamed(env, base, index, *conseq)),
            alt: match alt {
                Some(a) => Some(Box::new(renamed(env, base, index, *a))),
                None => None,
            },
        },
        Tree::Lambda(c) => Tree::Lambda(
            Code {
                formals: qualified(base, c.formals),
                free: qualified(base, c.free),
                body: renamed_each(bind(env, base, c.formals, None), base, 0, c.body),
                tail: c.tail,
            },
        ),
        Tree::Define { name, val } => Tree::Define {
            name: base.push(name),
            val: Box::new(renamed(env, base.push(name), 0, *val)),
        },
        Tree::Vector(list) => Tree::Vector(renamed_each(env, base, index, list)),
        Tree::Literal(l) => Tree::Literal(l),
    }
}

/// Each top-level form renamed in the empty scope, below the empty path.
pub open spec fn renamed_forms_of(prog: Seq<Tree<Name>>) -> Seq<Tree<Path>> {
    Seq::new(prog.len(), |i: int| renamed(Map::empty(), Seq::empty(), 0, prog[i]))
}

/// Whether the count of nested blocks stays within a byte while `e` is
/// renamed from `index` on.
pub open spec fn fits(e: Tree<Name>, index: nat) -> bool
    decreases e,
{
    match e {
        Tree::Identifier(_) => true,
        Tree::Let { bindings, body } => index < 255 && (forall|i: int|
            0 <= i < bindings.len() ==> fits(#[trigger] bindings[i].1, index + 1)) && (forall|i: int|
            0 <= i < body.len() ==> fits(#[trigger] body[i], index + 1)),
        Tree::List(list) => forall|i: int| 0 <= i < list.len() ==> fits(#[trigger] list[i], index),
        Tree::Cond { pred, conseq, alt } => fits(*pred, index) && fits(*conseq, index) && match alt {
            Some(a) => fits(*a, index),
            None => true,
        },
        Tree::Lambda(c) => forall|i: int| 0 <= i < c.body.len() ==> fits(#[trigger] c.body[i], 0),
        Tree::Define { name, val } => fits(*val, 0),
        Tree::Vector(list) => forall|i: int| 0 <= i < list.len() ==> fits(#[trigger] list[i], index),
        Tree::Literal(_) => true,
    }
}

fn qualify(base: &Ident, fresh: &Vec<String>) -> (r: Vec<Ident>)
    ensures
        crate::expr::views(r@) == qualified(base@, names(fresh@)),
{
    let mut r: Vec<Ident> = Vec::new();
    let n: usize = fresh.len();
    let mut i: usize = 0;
    while i < n
        invariant
            n == fresh@.len(),
            i <= n,
            r@.len() == i,
            forall|j: int| 0 <= j < i ==> (#[trigger] r@[j])@ == base@.push(fresh@[j]@),
        decreases n - i,
    {
        r.push(base.extend(fresh[i].as_str()));
        i = i + 1;
    }
    assert(crate::expr::views(r@) =~= qualified(base@, names(fresh@)));
    r
}

fn binding_names(bindings: &Vec<(String, Syntax)>) -> (r: Vec<String>)
    ensures
        names(r@) == bound_names(crate::expr::bound(bindings@)),
{
    let mut r: Vec<String> = Vec::new();
    let n: usize = bindings.len();
    let mut i: usize = 0;
    while i < n
        invariant
            n == bindings@.len(),
            i <= n,
            r@.len() == i,
            forall|j: int| 0 <= j < i ==> (#[trigger] r@[j])@ == bindings@[j].0@,
        decreases n - i,
    {
        r.push(bindings[i].0.clone());
        i = i + 1;
    }
    assert(names(r@) =~= bound_names(crate::expr::bound(bindings@)));
    r
}

fn rename_each(env: &Env, base: &Ident, index: u8, list: &Vec<Syntax>) -> (r: Vec<Core>)
    requires
        forall|i: int| 0 <= i < list@.len() ==> fits(#[trigger] list@[i]@, index as nat),
    ensures
        trees(r@) == renamed_each(env@, base@, index as nat, trees(list@)),
    decreases list, 1nat,
{
    let mut r: Vec<Core> = Vec::new();
    let n: usize = list.len();
    let mut i: usize = 0;
    while i < n
        invariant
            n == list@.len(),
            i <= n,
            r@.len() == i,
            forall|j: int| 0 <= j < list@.len() ==> fits(#[trigger] list@[j]@, index as nat),
            forall|j: int|
                0 <= j < i ==> (#[trigger] r@[j])@ == renamed(env@, base@, index as nat, list@[j]@),
        decreases n - i,
    {
        r.push(rename(env, base, index, &list[i]));
        i = i + 1;
    }
    assert(trees(r@) =~= renamed_each(env@, base@, index as nat, trees(list@)));
    r
}

/// Renames `prog` in the scope `env`, below the path `base`; `index` tells
/// apart the anonymous blocks nested in one naming context.
#[verifier::loop_isolation(false)]
pub fn rename(env: &Env, base: &Ident, index: u8, prog: &Syntax) -> (r: Core)
    requires
        fits(prog@, index as nat),
    ensures
        r@ == renamed(env@, base@, index as nat, prog@),
    decreases prog, 0nat,
{
    match prog {
        Expr::Identifier(s) => {
            match env.get(s) {
                Some(id) => Expr::Identifier(id.duplicate()),
                None => Expr::Identifier(Ident::new(s.as_str())),
            }
        },
        Expr::Let { bindings, body } => {
            let ghost model = crate::expr::bound(bindings@);
            assert(prog@ == Tree::Let { bindings: model, body: trees(body@) }) by {
                assert(prog@->Let_bindings =~= model);
                assert(prog@->Let_body =~= trees(body@));
            }
            let segment = let_name(index);
            let inner = base.extend(segment.as_str());
            let fresh = binding_names(bindings);
            let all = env.extended(&inner, &fresh, None);
            let mut out: Vec<(Ident, Core)> = Vec::new();
            let n: usize = bindings.len();
            let mut k: usize = 0;
            while k < n
                invariant
                    n == bindings@.len(),
                    k <= n,
                    out@.len() == k,
                    index < 255,
                    model == crate::expr::bound(bindings@),
                    names(fresh@) == bound_names(model),
                    inner@ == base@.push(let_segment(index as nat)),
                    all@ == bind(env@, inner@, names(fresh@), None),
                    forall|j: int|
                        0 <= j < bindings@.len() ==> fits(#[trigger] model[j].1, index as nat + 1),
                    forall|j: int|
                        0 <= j < k ==> (#[trigger] out@[j]).0@ == inner@.push(model[j].0) && out@[j].1@
                            == renamed_value(
                            env@,
                            inner@,
                            index as nat,
                            names(fresh@),
                            model[j].0,
                            model[j].1,
                        ),
                decreases n - k,
            {
                let current = &bindings[k].0;
                let value = &bindings[k].1;
                assert(model[k as int].1 == value@);
                assert(fits(model[k as int].1, index as nat + 1));
                let new_value = match value {
                    Expr::Let { .. } => rename(&all, &inner, index + 1, value),
                    Expr::Lambda(_) => {
                        let below = inner.extend(current.as_str());
                        rename(&all, &below, index + 1, value)
                    },
                    _ => {
                        let rest = env.extended(&inner, &fresh, Some(current));
                        rename(&rest, &inner, index + 1, value)
                    },
                };
                out.push((inner.extend(current.as_str()), new_value));
                k = k + 1;
            }
            assert forall|i: int| 0 <= i < body@.len() implies fits(
                #[trigger] body@[i]@,
                index as nat + 1,
            ) by {
                assert(prog@->Let_body[i] == body@[i]@);
            }
            let new_body = rename_each(&all, &inner, index + 1, body);
            let r = Expr::Let { bindings: out, body: new_body };
            assert(r@ == renamed(env@, base@, index as nat, prog@)) by {
                assert(r@->Let_bindings =~= renamed(env@, base@, index as nat, prog@)->Let_bindings);
                assert(r@->Let_body =~= trees(new_body@));
            }
            r
        },
        Expr::List(list) => {
            assert(prog@->List_0 =~= trees(list@));
            assert forall|i: int| 0 <= i < list@.len() implies fits(
                #[trigger] list@[i]@,
                index as nat,
            ) by {
                assert(prog@->List_0[i] == list@[i]@);
            }
            let out = rename_each(env, base, index, list);
            let r = Expr::List(out);
            assert(r@->List_0 =~= trees(out@));
            r
        },
        Expr::Cond { pred, conseq, alt } => {
            let new_alt = match alt {
                Some(a) => Some(Box::new(rename(env, base, index, a))),
                None => None,
            };
            Expr::Cond {
                pred: Box::new(rename(env, base, index, pred)),
                conseq: Box::new(rename(env, base, index, conseq)),
                alt: new_alt,
            }
        },
        Expr::Lambda(c) => {
            assert(prog@->Lambda_0 == c@) by {
                assert(prog@->Lambda_0.formals =~= c@.formals);
                assert(prog@->Lambda_0.free =~= c@.free);
                assert(prog@->Lambda_0.body =~= c@.body);
            }
            let inner = env.extended(base, &c.formals, None);
            assert(names(c.formals@) =~= c@.formals);
            assert(names(c.free@) =~= c@.free);
            assert forall|i: int| 0 <= i < c.body@.len() implies fits(#[trigger] c.body@[i]@, 0) by {
                assert(prog@->Lambda_0.body[i] == c.body@[i]@);
            }
            let code = Closure {
                formals: qualify(base, &c.formals),
                free: qualify(base, &c.free),
                body: rename_each(&inner, base, 0, &c.body),
                tail: c.tail,
            };
            let r = Expr::Lambda(code);
            assert(r@->Lambda_0 == code@) by {
                assert(r@->Lambda_0.formals =~= code@.formals);
                assert(r@->Lambda_0.free =~= code@.free);
                assert(r@->Lambda_0.body =~= code@.body);
            }
            r
        },
        Expr::Define { name, val } => {
            let below = base.extend(name.as_str());
            Expr::Define { name: base.extend(name.as_str()), val: Box::new(rename(env, &below, 0, val)) }
        },
        Expr::Vector(list) => {
            assert(prog@->Vector_0 =~= trees(list@));
            assert forall|i: int| 0 <= i < list@.len() implies fits(
                #[trigger] list@[i]@,
                index as nat,
            ) by {
                assert(prog@->Vector_0[i] == list@[i]@);
            }
            let out = rename_each(env, base, index, list);
            let r = Expr::Vector(out);
            assert(r@->Vector_0 =~= trees(out@));
            r
        },
        Expr::Literal(l) => Expr::Literal(l.duplicate()),
    }
}

/// Whether each of `es` fits from `index` on.
pub open spec fn all_fit(es: Seq<Tree<Name>>, index: nat) -> bool {
    forall|i: int| 0 <= i < es.len() ==> fits(#[trigger] es[i], index)
}

/// What [`fits`] says of a node with children, over [`all_fit`].
pub proof fn lemma_fits_children(e: Tree<Name>, index: nat)
    ensures
        e matches Tree::List(list) ==> fits(e, index) == all_fit(list, index),
        e matches Tree::Vector(list) ==> fits(e, index) == all_fit(list, index),
        e matches Tree::Lambda(c) ==> fits(e, index) == all_fit(c.body, 0),
        e matches Tree::Let { bindings, body } ==> fits(e, index) == (index < 255 && all_fit(
            Seq::new(bindings.len(), |i: int| bindings[i].1),
            index + 1,
        ) && all_fit(body, index + 1)),
{
    match e {
        Tree::List(list) => {
            lemma_all_fit(list, index);
        },
        Tree::Vector(list) => {
            lemma_all_fit(list, index);
        },
        Tree::Lambda(c) => {
            lemma_all_fit(c.body, 0);
        },
        Tree::Let { bindings, body } => {
            let values = Seq::new(bindings.len(), |i: int| bindings[i].1);
            lemma_all_fit(values, index + 1);
            lemma_all_fit(body, index + 1);
            if all_fit(values, index + 1) {
                assert forall|i: int| 0 <= i < bindings.len() implies fits(
                    #[trigger] bindings[i].1,
                    index + 1,
                ) by {
                    assert(values[i] == bindings[i].1);
                }
            } else {
                let i = choose|i: int| 0 <= i < values.len() && !fits(values[i], index + 1);
                assert(values[i] == bindings[i].1);
            }
        },
        _ => {},
    }
}

proof fn lemma_all_fit(es: Seq<Tree<Name>>, index: nat)
    ensures
        all_fit(es, index) || exists|i: int| 0 <= i < es.len() && !fits(es[i], index),
{
}

fn each_fits(list: &Vec<Syntax>, index: u8) -> (b: bool)
    ensures
        b == all_fit(trees(list@), index as nat),
    decreases list, 1nat,
{
    let n: usize = list.len();
    let mut i: usize = 0;
    while i < n
        invariant
            n == list@.len(),
            i <= n,
            forall|j: int| 0 <= j < i ==> fits(#[trigger] trees(list@)[j], index as nat),
        decreases n - i,
    {
        if !nesting_fits(&list[i], index) {
            assert(!fits(trees(list@)[i as int], index as nat));
            return false;
        }
        i = i + 1;
    }
    true
}

/// Whether `prog` can be renamed from `index` on: whether the count of
/// nested blocks stays within a byte.
#[verifier::loop_isolation(false)]
pub fn nesting_fits(prog: &Syntax, index: u8) -> (b: bool)
    ensures
        b == fits(prog@, index as nat),
    decreases prog, 0nat,
{
    proof {
        crate::copy::lemma_list_model(*prog);
        lemma_fits_children(prog@, index as nat);
    }
    match prog {
        Expr::Identifier(_) => true,
        Expr::Literal(_) => true,
        Expr::Let { bindings, body } => {
            if index == 255 {
                return false;
            }
            let ghost model = crate::expr::bound(bindings@);
            let ghost values = Seq::new(model.len(), |i: int| model[i].1);
            let n: usize = bindings.len();
            let mut i: usize = 0;
            while i < n
                invariant
                    n == bindings@.len(),
                    i <= n,
                    forall|j: int| 0 <= j < i ==> fits(#[trigger] values[j], index as nat + 1),
                decreases n - i,
            {
                if !nesting_fits(&bindings[i].1, index + 1) {
                    assert(!fits(values[i as int], index as nat + 1));
                    return false;
                }
                i = i + 1;
            }
            each_fits(body, index + 1)
        },
        Expr::List(list) => each_fits(list, index),
        Expr::Vector(list) => each_fits(list, index),
        Expr::Cond { pred, conseq, alt } => {
            nesting_fits(pred, index) && nesting_fits(conseq, index) && match alt {
                Some(a) => nesting_fits(a, index),
                None => true,
            }
        },
        Expr::Lambda(c) => {
            proof {
                crate::copy::lemma_lambda_model(*prog);
            }
            each_fits(&c.body, 0)
        },
        Expr::Define { name, val } => nesting_fits(val, 0),
    }
}

/// In a block, a plain value that names its own binding refers outward, to
/// what the name stood for around the block or to the global of that name;
/// one that names another binding of the block refers to that binding.
pub proof fn lemma_plain_value_skips_itself(
    env: Map<Name, Path>,
    inner: Path,
    index: nat,
    fresh: Seq<Name>,
    current: Name,
    other: Name,
)
    requires
        fresh.contains(other),
        other != current,
    ensures
        renamed_value(env, inner, index, fresh, current, Tree::Identifier(current))
            == Tree::<Path>::Identifier(
            if env.contains_key(current) {
                env[current]
            } else {
                seq![current]
            },
        ),
        renamed_value(env, inner, index, fresh, current, Tree::Identifier(other))
            == Tree::<Path>::Identifier(inner.push(other)),
{
}

/// In a block, a function sees every binding of the block, its own too: in
/// its body, the name of a binding that no parameter hides refers to that
/// binding.
pub proof fn lemma_function_sees_block(
    env: Map<Name, Path>,
    inner: Path,
    index: nat,
    fresh: Seq<Name>,
    current: Name,
    c: Code<Name>,
    seen: Name,
    i: int,
)
    requires
        fresh.contains(seen),
        !c.formals.contains(seen),
        0 <= i < c.body.len(),
        c.body[i] == Tree::Identifier(seen),
    ensures
        renamed_value(env, inner, index, fresh, current, Tree::Lambda(c))->Lambda_0.body[i]
            == Tree::<Path>::Identifier(inner.push(seen)),
{
    let all = bind(env, inner, fresh, None);
    let below = inner.push(current);
    let scope = bind(all, below, c.formals, None);
    assert(renamed_each(scope, below, 0, c.body)[i] == renamed(scope, below, 0, c.body[i]));
}

} // verus!
