//! A-normal form for calls: compound arguments are bound to locals first.
use vstd::prelude::*;
use crate::ident::{Ident, Path, local_name, fresh_local};
use crate::expr::{Expr, Core, Tree, trees, bound};
use crate::copy::{duplicate, lemma_list_model};

verus! {

/// Whether `e` needs no evaluation as an argument: a literal, an identifier
/// or a function value.
pub open spec fn is_atomic<A>(e: Tree<A>) -> bool {
    e is Literal || e is Identifier || e is Lambda
}

/// Whether every element of `list` after the head is atomic.
pub open spec fn arguments_atomic<A>(list: Seq<Tree<A>>) -> bool {
    forall|i: int| 1 <= i < list.len() ==> is_atomic(#[trigger] list[i])
}

/// The identifier of the local that stands for the argument at `position`.
pub open spec fn local_at(position: int) -> Path {
    seq![local_name(position as nat)]
}

/// The bindings for the compound ones among the arguments `args`: each is
/// bound to the local of its position, in the order of the arguments.
pub open spec fn hoisted(args: Seq<Tree<Path>>) -> Seq<(Path, Tree<Path>)>
    decreases args.len(),
{
    if args.len() == 0 {
        Seq::empty()
    } else {
        let rest = hoisted(args.drop_last());
        if is_atomic(args.last()) {
            rest
        } else {
            rest.push((local_at(args.len() - 1), args.last()))
        }
    }
}

/// The call `list` with each compound argument replaced by the local of its
/// position; the head and the atomic arguments stay.
pub open spec fn call_on_locals(list: Seq<Tree<Path>>) -> Seq<Tree<Path>> {
    Seq::new(
        list.len(),
        |i: int|
            if i == 0 || is_atomic(list[i]) {
                list[i]
            } else {
                Tree::Identifier(local_at(i - 1))
            },
    )
}

/// `e` in A-normal form, one level deep. A call with a compound argument
/// becomes a block that binds each compound argument to the local of its
/// position and whose body is the call on those locals. A call whose
/// arguments are all atomic, a call without elements and anything that is
/// no call stay as they are.
pub open spec fn normalized(e: Tree<Path>) -> Tree<Path> {
    match e {
        Tree::List(list) => if arguments_atomic(list) {
            e
        } else {
            Tree::Let {
                bindings: hoisted(list.skip(1)),
                body: seq![Tree::List(call_on_locals(list))],
            }
        },
        _ => e,
    }
}

/// Whether `e` is atomic.
pub fn atomic<N: View>(e: &Expr<N>) -> (b: bool)
    ensures
        b == is_atomic(e@),
{
    match e {
        Expr::Literal(_) => true,
        Expr::Identifier(_) => true,
        Expr::Lambda(_) => true,
        _ => false,
    }
}

fn all_atomic(list: &Vec<Core>) -> (b: bool)
    ensures
        b == arguments_atomic(trees(list@)),
{
    let n: usize = list.len();
    let mut i: usize = 1;
    while i < n
        invariant
            n == list@.len(),
            1 <= i,
            forall|j: int| 1 <= j < i && j < n ==> is_atomic(#[trigger] trees(list@)[j]),
        decreases n - i,
    {
        if !atomic(&list[i]) {
            assert(!is_atomic(trees(list@)[i as int]));
            return false;
        }
        i = i + 1;
    }
    true
}

fn hoist(list: &Vec<Core>) -> (r: Core)
    requires
        list@.len() > 0,
    ensures
        r@ == (Tree::Let {
            bindings: hoisted(trees(list@).skip(1)),
            body: seq![Tree::List(call_on_locals(trees(list@)))],
        }),
{
    let ghost args = trees(list@).skip(1);
    let mut bindings: Vec<(Ident, Core)> = Vec::new();
    let mut call: Vec<Core> = Vec::new();
    call.push(duplicate(&list[0]));
    let n: usize = list.len();
    let mut i: usize = 1;
    assert(args.take(0) =~= Seq::empty());
    assert(bound(bindings@) =~= Seq::empty());
    while i < n
        invariant
            n == list@.len(),
            1 <= i <= n,
            args == trees(list@).skip(1),
            call@.len() == i,
            forall|j: int| 0 <= j < i ==> (#[trigger] call@[j])@ == call_on_locals(trees(list@))[j],
            bound(bindings@) == hoisted(args.take(i - 1)),
        decreases n - i,
    {
        let ghost before = bindings@;
        proof {
            assert(args.take(i as int).drop_last() =~= args.take(i - 1));
            assert(args.take(i as int).last() == list@[i as int]@);
        }
        if atomic(&list[i]) {
            call.push(duplicate(&list[i]));
        } else {
            let local = fresh_local(i - 1);
            bindings.push((Ident::new(local.as_str()), duplicate(&list[i])));
            call.push(Expr::Identifier(Ident::new(local.as_str())));
            assert(bound(bindings@) =~= bound(before).push((local_at(i - 1), list@[i as int]@)));
        }
        i = i + 1;
    }
    assert(args.take(n - 1) =~= args);
    let inner = Expr::List(call);
    let mut body: Vec<Core> = Vec::new();
    body.push(inner);
    let r = Expr::Let { bindings, body };
    proof {
        lemma_list_model(inner);
        lemma_list_model(r);
        assert(trees(call@) =~= call_on_locals(trees(list@)));
        assert(trees(body@) =~= seq![inner@]);
    }
    r
}

/// Brings a call into A-normal form, one level deep; anything else comes
/// back as it is.
pub fn anf(prog: Core) -> (r: Core)
    ensures
        r@ == normalized(prog@),
{
    proof {
        lemma_list_model(prog);
    }
    let changed: Option<Core> = match &prog {
        Expr::List(list) => if all_atomic(list) {
            None
        } else {
            Some(hoist(list))
        },
        _ => None,
    };
    match changed {
        Some(r) => r,
        None => prog,
    }
}

/// After normalizing a call, the arguments of the call are atomic: either
/// the call stayed, or the result is a block whose one body expression is the
/// call on locals, with the head it had and as many elements.
pub proof fn lemma_normalized_call_atomic(e: Tree<Path>)
    requires
        e is List,
    ensures
        match normalized(e) {
            Tree::List(list) => list == e->List_0 && arguments_atomic(list),
            Tree::Let { bindings, body } => body.len() == 1 && match body[0] {
                Tree::List(list) => arguments_atomic(list) && list.len() == e->List_0.len()
                    && list[0] == e->List_0[0],
                _ => false,
            },
            _ => false,
        },
{
}

/// The bindings made for the arguments `args` hold the compound arguments
/// and nothing else: each value is compound and is the argument at the
/// position that its local names, and every compound argument is bound.
pub proof fn lemma_hoisted_compound(args: Seq<Tree<Path>>)
    ensures
        forall|k: int|
            0 <= k < hoisted(args).len() ==> exists|i: int|
                0 <= i < args.len() && !is_atomic(args[i]) && #[trigger] hoisted(args)[k] == (
                    local_at(i),
                    args[i],
                ),
        forall|i: int|
            0 <= i < args.len() && !is_atomic(args[i]) ==> hoisted(args).contains(
                (#[trigger] local_at(i), args[i]),
            ),
    decreases args.len(),
{
    if args.len() > 0 {
        let shorter = args.drop_last();
        let rest = hoisted(shorter);
        lemma_hoisted_compound(shorter);
        let last = args.len() - 1;
        assert forall|k: int| 0 <= k < hoisted(args).len() implies exists|i: int|
            0 <= i < args.len() && !is_atomic(args[i]) && #[trigger] hoisted(args)[k] == (
                local_at(i),
                args[i],
            ) by {
            if k < rest.len() {
                let i = choose|i: int|
                    0 <= i < shorter.len() && !is_atomic(shorter[i]) && rest[k] == (
                        local_at(i),
                        shorter[i],
                    );
                assert(shorter[i] == args[i]);
                assert(hoisted(args)[k] == (local_at(i), args[i]));
            } else {
                assert(hoisted(args)[k] == (local_at(last), args[last]));
            }
        }
        assert forall|i: int| 0 <= i < args.len() && !is_atomic(args[i]) implies hoisted(
            args,
        ).contains((#[trigger] local_at(i), args[i])) by {
            if i < last {
                assert(shorter[i] == args[i]);
                let k = choose|k: int|
                    0 <= k < rest.len() && rest[k] == (local_at(i), shorter[i]);
                assert(hoisted(args)[k] == (local_at(i), args[i]));
            } else {
                assert(hoisted(args)[rest.len() as int] == (local_at(i), args[i]));
            }
        }
    }
}

} // verus!
