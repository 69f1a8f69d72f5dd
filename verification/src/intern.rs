//! Interning of string and symbol literals into two tables.
use vstd::prelude::*;
use crate::ident::{Name, names};
use crate::expr::{Expr, Literal, Core, Tree, Lit, trees};
use crate::copy::{lemma_lambda_model, lemma_list_model};

verus! {

/// The two tables of a compilation: each holds its literals in the order in
/// which they were first seen, so that a literal's index is its position.
pub struct State {
    pub strings: Vec<String>,
    pub symbols: Vec<String>,
}

/// The model of a [`State`].
pub struct Pools {
    pub strings: Seq<Name>,
    pub symbols: Seq<Name>,
}

impl View for State {
    type V = Pools;

    open spec fn view(&self) -> Pools {
        Pools { strings: names(self.strings@), symbols: names(self.symbols@) }
    }
}

/// A table after `s` was interned: unchanged where it held `s`, else with
/// `s` at the end.
pub open spec fn interned(table: Seq<Name>, s: Name) -> Seq<Name> {
    if table.contains(s) {
        table
    } else {
        table.push(s)
    }
}

/// The tables after the literal `l` was seen.
pub open spec fn noted_literal(st: Pools, l: Lit) -> Pools {
    match l {
        Lit::Str(s) => Pools { strings: interned(st.strings, s), symbols: st.symbols },
        Lit::Symbol(s) => Pools { strings: st.strings, symbols: interned(st.symbols, s) },
        _ => st,
    }
}

/// The tables after each of `es` was walked, in order.
pub open spec fn noted_each<A>(st: Pools, es: Seq<Tree<A>>) -> Pools
    decreases es, 1nat,
{
    if es.len() == 0 {
        st
    } else {
        noted(noted_each(st, es.drop_last()), es.last())
    }
}

/// The tables after the value of each of `bindings` was walked, in order.
pub open spec fn noted_values<A>(st: Pools, bindings: Seq<(A, Tree<A>)>) -> Pools
    decreases bindings, 1nat,
{
    if bindings.len() == 0 {
        st
    } else {
        noted(noted_values(st, bindings.drop_last()), bindings.last().1)
    }
}

/// The tables after `e` was walked. The walk sees a literal where it stands;
/// in a block the bound values, then the body; the elements of a call and of
/// a vector; of a conditional the test, then the branches; of a definition
/// of a function the body. It enters nothing else.
pub open spec fn noted<A>(st: Pools, e: Tree<A>) -> Pools
    decreases e, 0nat,
{
    match e {
        Tree::Literal(l) => noted_literal(st, l),
        Tree::Let { bindings, body } => noted_each(noted_values(st, bindings), body),
        Tree::List(list) => noted_each(st, list),
        Tree::Vector(list) => noted_each(st, list),
        Tree::Cond { pred, conseq, alt } => {
            let after = noted(noted(st, *pred), *conseq);
            match alt {
                Some(a) => noted(after, *a),
                None => after,
            }
        },
        Tree::Define { name, val } => match *val {
            Tree::Lambda(c) => noted_each(st, c.body),
            _ => st,
        },
        _ => st,
    }
}

/// Where `s` stands in `table`: at `i`, and nowhere before.
pub open spec fn first_at(table: Seq<Name>, s: Name, i: int) -> bool {
    0 <= i < table.len() && table[i] == s && forall|j: int| 0 <= j < i ==> table[j] != s
}

/// The index of `s` in `table`, if it is there.
pub fn position(table: &Vec<String>, s: &String) -> (r: Option<usize>)
    ensures
        match r {
            Some(i) => first_at(names(table@), s@, i as int),
            None => !names(table@).contains(s@),
        },
{
    let n: usize = table.len();
    let mut i: usize = 0;
    while i < n
        invariant
            n == table@.len(),
            i <= n,
            forall|j: int| 0 <= j < i ==> names(table@)[j] != s@,
        decreases n - i,
    {
        if table[i] == *s {
            return Some(i);
        }
        i = i + 1;
    }
    None
}

/// Interns `s` in `table` and gives its index: the one it had, or the next
/// free one.
pub fn intern(table: &mut Vec<String>, s: &String) -> (r: usize)
    ensures
        names(final(table)@) == interned(names(old(table)@), s@),
        first_at(names(final(table)@), s@, r as int),
{
    match position(table, s) {
        Some(i) => i,
        None => {
            let i: usize = table.len();
            table.push(s.clone());
            assert(names(table@) =~= names(old(table)@).push(s@));
            i
        },
    }
}

impl State {
    /// The state with both tables empty.
    pub fn new() -> (r: State)
        ensures
            r@.strings == Seq::<Name>::empty(),
            r@.symbols == Seq::<Name>::empty(),
    {
        let r = State { strings: Vec::new(), symbols: Vec::new() };
        assert(r@.strings =~= Seq::<Name>::empty());
        assert(r@.symbols =~= Seq::<Name>::empty());
        r
    }

    /// The index of the string literal `s`, if it was interned.
    pub fn string_index(&self, s: &String) -> (r: Option<usize>)
        ensures
            match r {
                Some(i) => first_at(self@.strings, s@, i as int),
                None => !self@.strings.contains(s@),
            },
    {
        position(&self.strings, s)
    }

    /// The index of the symbol literal `s`, if it was interned.
    pub fn symbol_index(&self, s: &String) -> (r: Option<usize>)
        ensures
            match r {
                Some(i) => first_at(self@.symbols, s@, i as int),
                None => !self@.symbols.contains(s@),
            },
    {
        position(&self.symbols, s)
    }
}

fn note_each(s: &mut State, list: &Vec<Core>)
    ensures
        final(s)@ == noted_each(old(s)@, trees(list@)),
    decreases list, 1nat,
{
    let n: usize = list.len();
    let mut i: usize = 0;
    assert(trees(list@).take(0) =~= Seq::empty());
    while i < n
        invariant
            n == list@.len(),
            i <= n,
            s@ == noted_each(old(s)@, trees(list@).take(i as int)),
        decreases n - i,
    {
        proof {
            assert(trees(list@).take(i + 1).drop_last() =~= trees(list@).take(i as int));
            assert(trees(list@).take(i + 1).last() == list@[i as int]@);
        }
        note(s, &list[i]);
        i = i + 1;
    }
    assert(trees(list@).take(n as int) =~= trees(list@));
}

/// Walks `e` and interns the string and symbol literals it meets.
#[verifier::loop_isolation(false)]
pub fn note(s: &mut State, e: &Core)
    ensures
        final(s)@ == noted(old(s)@, e@),
    decreases e, 0nat,
{
    proof {
        lemma_list_model(*e);
    }
    match e {
        Expr::Literal(l) => {
            match l {
                Literal::Str(text) => {
                    intern(&mut s.strings, text);
                },
                Literal::Symbol(text) => {
                    intern(&mut s.symbols, text);
                },
                _ => {},
            }
        },
        Expr::Let { bindings, body } => {
            let ghost model = crate::expr::bound(bindings@);
            let n: usize = bindings.len();
            let mut i: usize = 0;
            assert(model.take(0) =~= Seq::empty());
            while i < n
                invariant
                    n == bindings@.len(),
                    i <= n,
                    s@ == noted_values(old(s)@, model.take(i as int)),
                decreases n - i,
            {
                proof {
                    assert(model.take(i + 1).drop_last() =~= model.take(i as int));
                    assert(model.take(i + 1).last() == model[i as int]);
                }
                note(s, &bindings[i].1);
                i = i + 1;
            }
            assert(model.take(n as int) =~= model);
            note_each(s, body);
        },
        Expr::List(list) => {
            note_each(s, list);
        },
        Expr::Vector(list) => {
            note_each(s, list);
        },
        Expr::Cond { pred, conseq, alt } => {
            note(s, pred);
            note(s, conseq);
            match alt {
                Some(a) => {
                    note(s, a);
                },
                None => {},
            }
        },
        Expr::Define { name, val } => {
            match &**val {
                Expr::Lambda(c) => {
                    proof {
                        lemma_lambda_model(**val);
                    }
                    note_each(s, &c.body);
                },
                _ => {},
            }
        },
        _ => {},
    }
}

/// Interns the string and symbol literals of `prog` in `s`, in the order of
/// the walk, and hands `prog` back as it is.
pub fn inline(s: &mut State, prog: Core) -> (r: Core)
    ensures
        r == prog,
        final(s)@ == noted(old(s)@, prog@),
{
    note(s, &prog);
    prog
}

/// Interning a literal that the table holds changes nothing, so interning
/// the same literal again gives the same table.
pub proof fn lemma_interned_twice(table: Seq<Name>, s: Name)
    ensures
        interned(table, s).contains(s),
        interned(interned(table, s), s) == interned(table, s),
{
    if !table.contains(s) {
        assert(table.push(s)[table.len() as int] == s);
    }
}

/// Interning only appends: what a table held stays where it was, so every
/// index that was given stays as it is, and a table without repeats stays so.
pub proof fn lemma_interned_stable(table: Seq<Name>, s: Name)
    ensures
        table.len() <= interned(table, s).len(),
        forall|i: int| 0 <= i < table.len() ==> interned(table, s)[i] == table[i],
        forall|t: Name, i: int| first_at(table, t, i) ==> first_at(interned(table, s), t, i),
        table.no_duplicates() ==> interned(table, s).no_duplicates(),
{
}

/// Whether the tables `after` hold the tables `before` at their start, so
/// that every index given in `before` is the same in `after`.
pub open spec fn grown(before: Pools, after: Pools) -> bool {
    before.strings.is_prefix_of(after.strings) && before.symbols.is_prefix_of(after.symbols)
}

/// Whether neither table holds a literal twice.
pub open spec fn distinct(st: Pools) -> bool {
    st.strings.no_duplicates() && st.symbols.no_duplicates()
}

proof fn lemma_noted_each_grows<A>(st: Pools, es: Seq<Tree<A>>)
    ensures
        grown(st, noted_each(st, es)),
        distinct(st) ==> distinct(noted_each(st, es)),
    decreases es, 1nat,
{
    if es.len() > 0 {
        lemma_noted_each_grows(st, es.drop_last());
        lemma_noted_grows(noted_each(st, es.drop_last()), es.last());
    }
}

proof fn lemma_noted_values_grows<A>(st: Pools, bindings: Seq<(A, Tree<A>)>)
    ensures
        grown(st, noted_values(st, bindings)),
        distinct(st) ==> distinct(noted_values(st, bindings)),
    decreases bindings, 1nat,
{
    if bindings.len() > 0 {
        lemma_noted_values_grows(st, bindings.drop_last());
        lemma_noted_grows(noted_values(st, bindings.drop_last()), bindings.last().1);
    }
}

/// A walk only appends to the tables: what they held stays where it was,
/// so every index stays as it is, and tables without repeats stay so.
pub proof fn lemma_noted_grows<A>(st: Pools, e: Tree<A>)
    ensures
        grown(st, noted(st, e)),
        distinct(st) ==> distinct(noted(st, e)),
    decreases e, 0nat,
{
    match e {
        Tree::Literal(l) => {
            match l {
                Lit::Str(s) => {
                    lemma_interned_stable(st.strings, s);
                },
                Lit::Symbol(s) => {
                    lemma_interned_stable(st.symbols, s);
                },
                _ => {},
            }
        },
        Tree::Let { bindings, body } => {
            lemma_noted_values_grows(st, bindings);
            lemma_noted_each_grows(noted_values(st, bindings), body);
        },
        Tree::List(list) => {
            lemma_noted_each_grows(st, list);
        },
        Tree::Vector(list) => {
            lemma_noted_each_grows(st, list);
        },
        Tree::Cond { pred, conseq, alt } => {
            lemma_noted_grows(st, *pred);
            lemma_noted_grows(noted(st, *pred), *conseq);
            match alt {
                Some(a) => {
                    lemma_noted_grows(noted(noted(st, *pred), *conseq), *a);
                },
                None => {},
            }
        },
        Tree::Define { name, val } => {
            match *val {
                Tree::Lambda(c) => {
                    lemma_noted_each_grows(st, c.body);
                },
                _ => {},
            }
        },
        _ => {},
    }
}

} // verus!
