//! The passes in order, over a whole program.
use vstd::prelude::*;
use crate::ident::{Ident, Name, Path};
use crate::expr::{Syntax, Core, Tree, trees};
use crate::env::Env;
use crate::rename::{rename, renamed_forms_of, fits, nesting_fits};
use crate::lift::{lift, lifted_all};
use crate::intern::{State, Pools, noted_each};
use crate::anf::{anf, normalized, hoisted, is_atomic, lemma_hoisted_compound};
use crate::tail::{tco, marked};

verus! {

/// The items that renaming and lifting make of a program, in order.
pub open spec fn lowered(prog: Seq<Tree<Name>>) -> Seq<Tree<Path>> {
    lifted_all(renamed_forms_of(prog))
}

/// Each item brought into A-normal form and then marked.
pub open spec fn finished(items: Seq<Tree<Path>>) -> Seq<Tree<Path>> {
    Seq::new(items.len(), |j: int| marked(normalized(items[j])))
}

/// What the passes make of a program.
pub open spec fn analyzed(prog: Seq<Tree<Name>>) -> Seq<Tree<Path>> {
    finished(lowered(prog))
}

/// Walking two runs of items one after the other is walking them as one.
pub proof fn lemma_noted_each_concat<A>(st: Pools, a: Seq<Tree<A>>, b: Seq<Tree<A>>)
    ensures
        noted_each(st, a + b) == noted_each(noted_each(st, a), b),
    decreases b.len(),
{
    if b.len() == 0 {
        assert(a + b =~= a);
    } else {
        assert((a + b).drop_last() =~= a + b.drop_last());
        assert((a + b).last() == b.last());
        lemma_noted_each_concat(st, a, b.drop_last());
    }
}

/// Interns the literals of each item, brings it into A-normal form and
/// marks it, item by item.
pub fn finish(s: &mut State, items: Vec<Core>) -> (r: Vec<Core>)
    ensures
        trees(r@) == finished(trees(items@)),
        final(s)@ == noted_each(old(s)@, trees(items@)),
{
    let mut rest = items;
    let mut turned: Vec<Core> = Vec::new();
    while rest.len() > 0
        invariant
            rest@.len() + turned@.len() == items@.len(),
            forall|j: int| 0 <= j < rest@.len() ==> rest@[j] == items@[j],
            forall|j: int|
                0 <= j < turned@.len() ==> turned@[j] == items@[items@.len() - 1 - j],
        decreases rest@.len(),
    {
        match rest.pop() {
            Some(e) => {
                turned.push(e);
            },
            None => {},
        }
    }
    let mut r: Vec<Core> = Vec::new();
    let ghost all = trees(items@);
    assert(all.take(0) =~= Seq::empty());
    while turned.len() > 0
        invariant
            all == trees(items@),
            r@.len() + turned@.len() == items@.len(),
            forall|j: int|
                0 <= j < turned@.len() ==> turned@[j] == items@[items@.len() - 1 - j],
            forall|j: int| 0 <= j < r@.len() ==> (#[trigger] r@[j])@ == marked(normalized(all[j])),
            s@ == noted_each(old(s)@, all.take(r@.len() as int)),
        decreases turned@.len(),
    {
        let ghost k = r@.len() as int;
        proof {
            assert(all.take(k + 1).drop_last() =~= all.take(k));
            assert(all.take(k + 1).last() == all[k]);
        }
        match turned.pop() {
            Some(e) => {
                assert(e == items@[k]);
                let e = crate::intern::inline(s, e);
                r.push(tco(anf(e)));
            },
            None => {},
        }
    }
    assert(all.take(items@.len() as int) =~= all);
    assert(trees(r@) =~= finished(all));
    r
}

/// Whether every form of `prog` can be renamed from the top: whether
/// [`analyze`] can be called on it.
pub fn analyzable(prog: &Vec<Syntax>) -> (b: bool)
    ensures
        b == forall|i: int| 0 <= i < prog@.len() ==> fits(#[trigger] prog@[i]@, 0),
{
    let n: usize = prog.len();
    let mut i: usize = 0;
    while i < n
        invariant
            n == prog@.len(),
            i <= n,
            forall|j: int| 0 <= j < i ==> fits(#[trigger] prog@[j]@, 0),
        decreases n - i,
    {
        if !nesting_fits(&prog[i], 0) {
            return false;
        }
        i = i + 1;
    }
    true
}

/// Runs the passes over a program: each form is renamed in the empty scope,
/// the functions are lifted, and each item that results has its literals
/// interned in `s`, is brought into A-normal form and is marked. The items
/// come in the order in which lifting gives them, form after form.
pub fn analyze(s: &mut State, prog: Vec<Syntax>) -> (r: Vec<Core>)
    requires
        forall|i: int| 0 <= i < prog@.len() ==> fits(#[trigger] prog@[i]@, 0),
    ensures
        trees(r@) == analyzed(trees(prog@)),
        final(s)@ == noted_each(old(s)@, lowered(trees(prog@))),
{
    let env = Env::new();
    let root = Ident::empty();
    let mut r: Vec<Core> = Vec::new();
    let ghost forms = renamed_forms_of(trees(prog@));
    let n: usize = prog.len();
    let mut i: usize = 0;
    assert(forms.take(0) =~= Seq::empty());
    assert(trees(r@) =~= finished(Seq::empty()));
    while i < n
        invariant
            n == prog@.len(),
            i <= n,
            forms == renamed_forms_of(trees(prog@)),
            env@ == Map::<Name, Path>::empty(),
            root@ == Seq::<Name>::empty(),
            forall|j: int| 0 <= j < prog@.len() ==> fits(#[trigger] prog@[j]@, 0),
            trees(r@) == finished(lifted_all(forms.take(i as int))),
            s@ == noted_each(old(s)@, lifted_all(forms.take(i as int))),
        decreases n - i,
    {
        let ghost before = r@;
        let ghost done = lifted_all(forms.take(i as int));
        let form = rename(&env, &root, 0, &prog[i]);
        let items = lift(&form);
        let ghost added = trees(items@);
        let mut more = finish(s, items);
        r.append(&mut more);
        proof {
            assert(forms.take(i + 1).drop_last() =~= forms.take(i as int));
            assert(forms.take(i + 1).last() == form@);
            assert(lifted_all(forms.take(i + 1)) == done + added);
            lemma_noted_each_concat(old(s)@, done, added);
            assert(trees(r@) =~= trees(before) + finished(added));
            assert(finished(done + added) =~= finished(done) + finished(added));
        }
        i = i + 1;
    }
    assert(forms.take(n as int) =~= forms);
    r
}

/// Runs the passes over `prog` where every form of it can be renamed, as
/// [`analyze`] does; where one cannot, gives nothing and leaves `s` as it is.
pub fn try_analyze(s: &mut State, prog: Vec<Syntax>) -> (r: Option<Vec<Core>>)
    ensures
        r is Some <==> forall|i: int| 0 <= i < prog@.len() ==> fits(#[trigger] prog@[i]@, 0),
        match r {
            Some(items) => trees(items@) == analyzed(trees(prog@)) && final(s)@ == noted_each(
                old(s)@,
                lowered(trees(prog@)),
            ),
            None => final(s)@ == old(s)@,
        },
{
    if analyzable(&prog) {
        Some(analyze(s, prog))
    } else {
        None
    }
}

/// Marking leaves a normalized call as it is: the block that normalizing
/// makes binds compound arguments only, so no function.
pub proof fn lemma_marked_keeps_normalized_call(e: Tree<Path>)
    requires
        e is List,
    ensures
        marked(normalized(e)) == normalized(e),
{
    match normalized(e) {
        Tree::Let { bindings, body } => {
            let args = e->List_0.skip(1);
            lemma_hoisted_compound(args);
            assert forall|k: int| 0 <= k < bindings.len() implies !is_atomic(
                (#[trigger] bindings[k]).1,
            ) by {
                let i = choose|i: int|
                    0 <= i < args.len() && !is_atomic(args[i]) && hoisted(args)[k] == (
                        crate::anf::local_at(i),
                        args[i],
                    );
            }
            assert(marked(normalized(e))->Let_bindings =~= bindings);
        },
        _ => {},
    }
}

} // verus!
