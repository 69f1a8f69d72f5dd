use lisp_middle::anf::{anf, atomic};
use lisp_middle::copy::duplicate;
use lisp_middle::env::Env;
use lisp_middle::expr::{Closure, Core, Expr, Literal, Syntax};
use lisp_middle::ident::{fresh_local, let_name, Ident};
use lisp_middle::intern::{intern, position, State};
use lisp_middle::lift::{lift, shrink};
use lisp_middle::pipeline::{analyzable, analyze, finish, try_analyze};
use lisp_middle::rename::{nesting_fits, rename};
use lisp_middle::tail::{is_tail, tail, tco};

fn path(name: &str) -> Ident {
    let mut id = Ident::empty();
    for segment in name.split("::") {
        id = id.extend(segment);
    }
    id
}

fn top(prog: Syntax) -> Core {
    rename(&Env::new(), &Ident::empty(), 0, &prog)
}

fn v(name: &str) -> Syntax {
    Expr::Identifier(name.to_string())
}

fn n(value: i64) -> Syntax {
    Expr::Literal(Literal::Number(value))
}

fn text(value: &str) -> Core {
    Expr::Literal(Literal::Str(value.to_string()))
}

fn symbol(value: &str) -> Core {
    Expr::Literal(Literal::Symbol(value.to_string()))
}

fn r(name: &str) -> Core {
    Expr::Identifier(path(name))
}

fn k(value: i64) -> Core {
    Expr::Literal(Literal::Number(value))
}

fn fun(formals: Vec<&str>, body: Vec<Syntax>) -> Syntax {
    Expr::Lambda(Closure {
        formals: formals.into_iter().map(|s| s.to_string()).collect(),
        free: vec![],
        body,
        tail: false,
    })
}

fn core_fun(formals: Vec<&str>, body: Vec<Core>, tail: bool) -> Core {
    Expr::Lambda(Closure { formals: formals.into_iter().map(path).collect(), free: vec![], body, tail })
}

fn block(bindings: Vec<(&str, Syntax)>, body: Vec<Syntax>) -> Syntax {
    Expr::Let { bindings: bindings.into_iter().map(|(a, b)| (a.to_string(), b)).collect(), body }
}

fn define(name: &str, val: Syntax) -> Syntax {
    Expr::Define { name: name.to_string(), val: Box::new(val) }
}

fn binders(e: &Core, out: &mut Vec<Ident>) {
    match e {
        Expr::Let { bindings, body } => {
            for (name, value) in bindings {
                out.push(name.duplicate());
                binders(value, out);
            }
            for b in body {
                binders(b, out);
            }
        }
        Expr::List(list) | Expr::Vector(list) => {
            for l in list {
                binders(l, out);
            }
        }
        Expr::Cond { pred, conseq, alt } => {
            binders(pred, out);
            binders(conseq, out);
            if let Some(a) = alt {
                binders(a, out);
            }
        }
        Expr::Lambda(c) => {
            for f in &c.formals {
                out.push(f.duplicate());
            }
            for b in &c.body {
                binders(b, out);
            }
        }
        Expr::Define { name, val } => {
            out.push(name.duplicate());
            binders(val, out);
        }
        _ => {}
    }
}

fn holds_bare_lambda(e: &Core) -> bool {
    match e {
        Expr::Lambda(_) => true,
        Expr::Define { val, .. } => match &**val {
            Expr::Lambda(c) => c.body.iter().any(holds_bare_lambda),
            other => holds_bare_lambda(other),
        },
        Expr::Let { bindings, body } => {
            bindings.iter().any(|(_, b)| holds_bare_lambda(b)) || body.iter().any(holds_bare_lambda)
        }
        Expr::List(list) | Expr::Vector(list) => list.iter().any(holds_bare_lambda),
        Expr::Cond { pred, conseq, alt } => {
            holds_bare_lambda(pred)
                || holds_bare_lambda(conseq)
                || alt.as_ref().map_or(false, |a| holds_bare_lambda(a))
        }
        _ => false,
    }
}

#[test]
fn binding_sites_get_distinct_identifiers() {
    let prog = define(
        "f",
        fun(
            vec!["x", "y"],
            vec![block(
                vec![("x", n(1)), ("g", fun(vec!["x"], vec![v("x")]))],
                vec![block(vec![("x", n(2))], vec![v("x")])],
            )],
        ),
    );
    let mut found = vec![];
    binders(&top(prog), &mut found);
    assert_eq!(found.len(), 7);
    for i in 0..found.len() {
        for j in 0..i {
            assert_ne!(found[i], found[j]);
        }
    }
    assert!(found.contains(&path("f::{let 0}::{let 1}::x")));
    assert!(found.contains(&path("f::{let 0}::g::x")));
}

#[test]
fn definitions_of_different_names_bind_apart() {
    let mut first = vec![];
    binders(&top(define("f", fun(vec!["x"], vec![v("x")]))), &mut first);
    let mut second = vec![];
    binders(&top(define("g", fun(vec!["x"], vec![v("x")]))), &mut second);
    assert_eq!(first, vec![path("f"), path("f::x")]);
    assert_eq!(second, vec![path("g"), path("g::x")]);
}

#[test]
fn functions_of_one_block_see_each_other() {
    // (let ((f (lambda (x) (g x))) (g (lambda (x) (f x)))) (f 1))
    let prog = block(
        vec![
            ("f", fun(vec!["x"], vec![Expr::List(vec![v("g"), v("x")])])),
            ("g", fun(vec!["x"], vec![Expr::List(vec![v("f"), v("x")])])),
        ],
        vec![Expr::List(vec![v("f"), n(1)])],
    );
    let expected = Expr::Let {
        bindings: vec![
            (
                path("{let 0}::f"),
                core_fun(
                    vec!["{let 0}::f::x"],
                    vec![Expr::List(vec![r("{let 0}::g"), r("{let 0}::f::x")])],
                    false,
                ),
            ),
            (
                path("{let 0}::g"),
                core_fun(
                    vec!["{let 0}::g::x"],
                    vec![Expr::List(vec![r("{let 0}::f"), r("{let 0}::g::x")])],
                    false,
                ),
            ),
        ],
        body: vec![Expr::List(vec![r("{let 0}::f"), k(1)])],
    };
    assert_eq!(top(prog), expected);
}

#[test]
fn plain_value_does_not_see_its_own_binding() {
    // (let ((x x)) x): the bound value refers to an outer x
    let prog = block(vec![("x", v("x"))], vec![v("x")]);
    let expected =
        Expr::Let { bindings: vec![(path("{let 0}::x"), r("x"))], body: vec![r("{let 0}::x")] };
    assert_eq!(top(prog), expected);
}

#[test]
fn plain_value_sees_the_other_bindings() {
    // (let ((x 1) (y x)) y)
    let prog = block(vec![("x", n(1)), ("y", v("x"))], vec![v("y")]);
    let expected = Expr::Let {
        bindings: vec![(path("{let 0}::x"), k(1)), (path("{let 0}::y"), r("{let 0}::x"))],
        body: vec![r("{let 0}::y")],
    };
    assert_eq!(top(prog), expected);
}

#[test]
fn block_as_value_sees_its_own_binding() {
    // (let ((x (let ((y x)) y))) x)
    let prog = block(vec![("x", block(vec![("y", v("x"))], vec![v("y")]))], vec![v("x")]);
    let expected = Expr::Let {
        bindings: vec![(
            path("{let 0}::x"),
            Expr::Let {
                bindings: vec![(path("{let 0}::{let 1}::y"), r("{let 0}::x"))],
                body: vec![r("{let 0}::{let 1}::y")],
            },
        )],
        body: vec![r("{let 0}::x")],
    };
    assert_eq!(top(prog), expected);
}

#[test]
fn rename_resolves_through_the_scope_and_keeps_the_rest() {
    let mut env = Env::new();
    env.insert("a", path("outer::a"));
    env.insert("a", path("inner::a"));
    assert_eq!(env.get(&"a".to_string()), Some(&path("inner::a")));
    assert_eq!(env.get(&"b".to_string()), None);
    let prog = Expr::Vector(vec![
        v("a"),
        v("b"),
        Expr::Cond { pred: Box::new(v("a")), conseq: Box::new(n(1)), alt: None },
        Expr::Literal(Literal::Nil),
    ]);
    let expected = Expr::Vector(vec![
        r("inner::a"),
        r("b"),
        Expr::Cond { pred: Box::new(r("inner::a")), conseq: Box::new(k(1)), alt: None },
        Expr::Literal(Literal::Nil),
    ]);
    assert_eq!(rename(&env, &path("m"), 3, &prog), expected);
}

#[test]
fn rename_starts_blocks_at_the_given_index_and_functions_at_zero() {
    let prog = block(vec![("f", fun(vec!["a"], vec![block(vec![("b", v("a"))], vec![v("b")])]))], vec![]);
    let expected = Expr::Let {
        bindings: vec![(
            path("m::{let 7}::f"),
            core_fun(
                vec!["m::{let 7}::f::a"],
                vec![Expr::Let {
                    bindings: vec![(path("m::{let 7}::f::{let 0}::b"), r("m::{let 7}::f::a"))],
                    body: vec![r("m::{let 7}::f::{let 0}::b")],
                }],
                false,
            ),
        )],
        body: vec![],
    };
    assert_eq!(rename(&Env::new(), &path("m"), 7, &prog), expected);
}

#[test]
fn rename_qualifies_free_names_and_keeps_the_mark() {
    let prog = Expr::Lambda(Closure {
        formals: vec!["a".to_string()],
        free: vec!["z".to_string()],
        body: vec![v("a"), v("z")],
        tail: true,
    });
    let expected = Expr::Lambda(Closure {
        formals: vec![path("m::a")],
        free: vec![path("m::z")],
        body: vec![r("m::a"), r("z")],
        tail: true,
    });
    assert_eq!(rename(&Env::new(), &path("m"), 0, &prog), expected);
}

#[test]
fn scope_extended_skips_the_named_binding() {
    let env = Env::new();
    let fresh = vec!["a".to_string(), "b".to_string()];
    let all = env.extended(&path("m"), &fresh, None);
    assert_eq!(all.get(&"a".to_string()), Some(&path("m::a")));
    assert_eq!(all.get(&"b".to_string()), Some(&path("m::b")));
    let rest = env.extended(&path("m"), &fresh, Some(&"a".to_string()));
    assert_eq!(rest.get(&"a".to_string()), None);
    assert_eq!(rest.get(&"b".to_string()), Some(&path("m::b")));
}

#[test]
fn identifiers_are_paths() {
    assert_eq!(Ident::empty().segments.len(), 0);
    assert_eq!(Ident::new("x").segments, vec!["x".to_string()]);
    assert_eq!(Ident::empty().extend("x"), Ident::new("x"));
    let a = Ident::new("f").extend("x");
    assert_eq!(a.segments, vec!["f".to_string(), "x".to_string()]);
    assert!(a.same(&a.duplicate()));
    assert!(!a.same(&Ident::new("f")));
    assert!(!a.same(&Ident::new("f").extend("y")));
    assert!(!Ident::new("f::x").same(&a));
}

#[test]
fn block_and_local_names_are_decimal() {
    assert_eq!(let_name(0), "{let 0}");
    assert_eq!(let_name(9), "{let 9}");
    assert_eq!(let_name(10), "{let 10}");
    assert_eq!(let_name(105), "{let 105}");
    assert_eq!(let_name(255), "{let 255}");
    assert_eq!(fresh_local(0), "_0");
    assert_eq!(fresh_local(12), "_12");
    assert_eq!(fresh_local(1000), "_1000");
}

#[test]
fn nesting_beyond_a_byte_does_not_fit() {
    let mut deep = n(0);
    for _ in 0..255 {
        deep = block(vec![], vec![deep]);
    }
    assert!(nesting_fits(&deep, 0));
    assert!(!nesting_fits(&deep, 1));
    let result = top(duplicate_syntax(&deep));
    assert!(matches!(result, Expr::Let { .. }));
    let deeper = block(vec![], vec![deep]);
    assert!(!nesting_fits(&deeper, 0));
    assert!(nesting_fits(&define("f", fun(vec![], vec![n(1)])), 255));
    assert!(!nesting_fits(&block(vec![], vec![]), 255));
    assert!(!analyzable(&vec![n(1), deeper]));
    assert!(analyzable(&vec![n(1), v("x")]));
}

fn duplicate_syntax(e: &Syntax) -> Syntax {
    match e {
        Expr::Let { bindings, body } => Expr::Let {
            bindings: bindings.iter().map(|(a, b)| (a.clone(), duplicate_syntax(b))).collect(),
            body: body.iter().map(duplicate_syntax).collect(),
        },
        Expr::Literal(l) => Expr::Literal(l.duplicate()),
        Expr::Identifier(s) => Expr::Identifier(s.clone()),
        _ => unreachable!(),
    }
}

#[test]
fn lift_leaves_functions_only_as_values_of_definitions() {
    // (let ((f (lambda (x) (let ((g (lambda (y) y))) (g x)))) (a 1)) (if a (f a) (f 2)))
    let prog = block(
        vec![
            (
                "f",
                fun(
                    vec!["x"],
                    vec![block(
                        vec![("g", fun(vec!["y"], vec![v("y")]))],
                        vec![Expr::List(vec![v("g"), v("x")])],
                    )],
                ),
            ),
            ("a", n(1)),
        ],
        vec![Expr::Cond {
            pred: Box::new(v("a")),
            conseq: Box::new(Expr::List(vec![v("f"), v("a")])),
            alt: Some(Box::new(Expr::List(vec![v("f"), n(2)]))),
        }],
    );
    let items = lift(&top(prog));
    assert_eq!(items.len(), 2);
    assert!(items.iter().all(|i| !holds_bare_lambda(i)));
    let expected_f = Expr::Define {
        name: path("{let 0}::f"),
        val: Box::new(core_fun(
            vec!["{let 0}::f::x"],
            vec![
                Expr::Define {
                    name: path("{let 0}::f::{let 0}::g"),
                    val: Box::new(core_fun(
                        vec!["{let 0}::f::{let 0}::g::y"],
                        vec![r("{let 0}::f::{let 0}::g::y")],
                        false,
                    )),
                },
                Expr::Let {
                    bindings: vec![],
                    body: vec![Expr::List(vec![r("{let 0}::f::{let 0}::g"), r("{let 0}::f::x")])],
                },
            ],
            false,
        )),
    };
    assert_eq!(items[0], expected_f);
    let expected_rest = Expr::Let {
        bindings: vec![(path("{let 0}::a"), k(1))],
        body: vec![Expr::Cond {
            pred: Box::new(r("{let 0}::a")),
            conseq: Box::new(Expr::List(vec![r("{let 0}::f"), r("{let 0}::a")])),
            alt: Some(Box::new(Expr::List(vec![r("{let 0}::f"), k(2)]))),
        }],
    };
    assert_eq!(items[1], expected_rest);
}

#[test]
fn lift_collapses_what_a_part_gives() {
    // a block with a function, standing as an argument, becomes a list of its items
    let inner = Expr::Let { bindings: vec![(path("g"), core_fun(vec![], vec![k(1)], false))], body: vec![r("g")] };
    let prog = Expr::List(vec![r("f"), inner]);
    let expected = Expr::List(vec![
        r("f"),
        Expr::List(vec![
            Expr::Define { name: path("g"), val: Box::new(core_fun(vec![], vec![k(1)], false)) },
            Expr::Let { bindings: vec![], body: vec![r("g")] },
        ]),
    ]);
    assert_eq!(lift(&prog), vec![expected]);
}

#[test]
fn lift_keeps_what_it_does_not_enter() {
    assert_eq!(lift(&k(3)), vec![k(3)]);
    assert_eq!(lift(&r("x")), vec![r("x")]);
    let vector = Expr::Vector(vec![k(1), r("x")]);
    assert_eq!(lift(&vector), vec![duplicate(&vector)]);
    let constant = Expr::Define { name: path("pi"), val: Box::new(k(3)) };
    assert_eq!(lift(&constant), vec![duplicate(&constant)]);
    let bare = core_fun(vec!["x"], vec![r("x")], false);
    assert_eq!(lift(&bare), vec![duplicate(&bare)]);
}

#[test]
fn shrink_gives_one_expression() {
    assert_eq!(shrink::<Ident>(vec![]), Expr::Literal(Literal::Nil));
    assert_eq!(shrink(vec![k(4)]), k(4));
    assert_eq!(shrink(vec![k(4), k(5)]), Expr::List(vec![k(4), k(5)]));
}

#[test]
fn interning_twice_gives_one_index() {
    let mut s = State::new();
    let hi = "hi".to_string();
    assert_eq!(s.string_index(&hi), None);
    let back = lisp_middle::intern::inline(&mut s, text("hi"));
    assert_eq!(back, text("hi"));
    assert_eq!(s.string_index(&hi), Some(0));
    lisp_middle::intern::inline(&mut s, text("hi"));
    assert_eq!(s.string_index(&hi), Some(0));
    assert_eq!(s.strings, vec![hi]);
    assert_eq!(s.symbols.len(), 0);
}

#[test]
fn interning_gives_indices_in_the_order_seen() {
    let mut s = State::new();
    lisp_middle::intern::inline(&mut s, text("a"));
    lisp_middle::intern::inline(&mut s, text("b"));
    assert_eq!(s.string_index(&"a".to_string()), Some(0));
    assert_eq!(s.string_index(&"b".to_string()), Some(1));
    let mut table = vec![];
    assert_eq!(intern(&mut table, &"a".to_string()), 0);
    assert_eq!(intern(&mut table, &"b".to_string()), 1);
    assert_eq!(intern(&mut table, &"a".to_string()), 0);
    assert_eq!(position(&table, &"b".to_string()), Some(1));
    assert_eq!(position(&table, &"c".to_string()), None);
}

#[test]
fn interning_walks_in_order_and_keeps_the_tree() {
    let tree = Expr::Let {
        bindings: vec![(path("a"), text("one")), (path("b"), symbol("s1"))],
        body: vec![
            Expr::List(vec![r("f"), text("two"), text("one")]),
            Expr::Cond {
                pred: Box::new(symbol("s2")),
                conseq: Box::new(text("three")),
                alt: Some(Box::new(Expr::Vector(vec![symbol("s1"), text("four")]))),
            },
        ],
    };
    let mut s = State::new();
    let back = lisp_middle::intern::inline(&mut s, duplicate(&tree));
    assert_eq!(back, tree);
    assert_eq!(s.strings, vec!["one", "two", "three", "four"]);
    assert_eq!(s.symbols, vec!["s1", "s2"]);
    assert_eq!(s.symbol_index(&"s2".to_string()), Some(1));
    assert_eq!(s.symbol_index(&"one".to_string()), None);
}

#[test]
fn interning_enters_only_definitions_of_functions() {
    let mut s = State::new();
    lisp_middle::intern::inline(&mut s, Expr::Define { name: path("c"), val: Box::new(text("skipped")) });
    lisp_middle::intern::inline(&mut s, core_fun(vec![], vec![text("bare")], false));
    lisp_middle::intern::inline(&mut s, k(1));
    assert_eq!(s.strings.len(), 0);
    lisp_middle::intern::inline(
        &mut s,
        Expr::Define { name: path("f"), val: Box::new(core_fun(vec![], vec![text("seen")], false)) },
    );
    assert_eq!(s.strings, vec!["seen"]);
}

#[test]
fn anf_binds_each_compound_argument_to_the_local_of_its_place() {
    let g = Expr::List(vec![r("g"), k(1)]);
    let h = Expr::Cond { pred: Box::new(r("a")), conseq: Box::new(k(1)), alt: None };
    let prog = Expr::List(vec![r("f"), duplicate(&g), r("x"), duplicate(&h), k(9)]);
    let expected = Expr::Let {
        bindings: vec![(Ident::new("_0"), g), (Ident::new("_2"), h)],
        body: vec![Expr::List(vec![r("f"), r("_0"), r("x"), r("_2"), k(9)])],
    };
    let result = anf(prog);
    assert_eq!(result, expected);
    match &result {
        Expr::Let { body, .. } => match &body[0] {
            Expr::List(list) => assert!(list[1..].iter().all(atomic)),
            _ => panic!(),
        },
        _ => panic!(),
    }
}

#[test]
fn anf_keeps_what_is_normal_already() {
    let call = Expr::List(vec![
        Expr::List(vec![r("compound"), r("head")]),
        k(1),
        r("x"),
        core_fun(vec![], vec![], false),
    ]);
    assert_eq!(anf(duplicate(&call)), call);
    assert_eq!(anf(Expr::List(vec![])), Expr::<Ident>::List(vec![]));
    assert_eq!(anf(Expr::List(vec![r("f")])), Expr::List(vec![r("f")]));
    let vector = Expr::Vector(vec![Expr::List(vec![r("f"), Expr::List(vec![r("g")])])]);
    assert_eq!(anf(duplicate(&vector)), vector);
    assert!(atomic(&k(1)) && atomic(&r("x")) && atomic(&core_fun(vec![], vec![], false)));
    assert!(!atomic(&vector) && !atomic(&Expr::<Ident>::List(vec![])));
}

#[test]
fn anf_goes_one_level_deep() {
    // (f (g (h 1))): the bound argument keeps its own compound argument
    let inner = Expr::List(vec![r("g"), Expr::List(vec![r("h"), k(1)])]);
    let expected = Expr::Let {
        bindings: vec![(Ident::new("_0"), duplicate(&inner))],
        body: vec![Expr::List(vec![r("f"), r("_0")])],
    };
    assert_eq!(anf(Expr::List(vec![r("f"), inner])), expected);
}

#[test]
fn tail_position_follows_blocks_and_alternatives() {
    let call = Expr::List(vec![r("f"), k(1)]);
    assert_eq!(tail(&call), Some(&call));
    let nested = Expr::Let {
        bindings: vec![],
        body: vec![
            k(1),
            Expr::Cond {
                pred: Box::new(r("p")),
                conseq: Box::new(k(2)),
                alt: Some(Box::new(duplicate(&call))),
            },
        ],
    };
    assert_eq!(tail(&nested), Some(&call));
    let no_body: Core = Expr::Let { bindings: vec![], body: vec![] };
    assert_eq!(tail(&no_body), None);
    let no_alt = Expr::Cond { pred: Box::new(r("p")), conseq: Box::new(call), alt: None };
    assert_eq!(tail(&no_alt), None);
}

#[test]
fn tail_flag_is_set_for_a_self_call_in_tail_position() {
    // (define (loop x) (if (zero? x) x (loop (dec x))))
    let looping = define(
        "loop",
        fun(
            vec!["x"],
            vec![Expr::Cond {
                pred: Box::new(Expr::List(vec![v("zero?"), v("x")])),
                conseq: Box::new(v("x")),
                alt: Some(Box::new(Expr::List(vec![v("loop"), Expr::List(vec![v("dec"), v("x")])]))),
            }],
        ),
    );
    match tco(top(looping)) {
        Expr::Define { val, .. } => match *val {
            Expr::Lambda(code) => assert_eq!(code.tail, true),
            _ => panic!(),
        },
        _ => panic!(),
    }
    // (define (f x) (+ 1 (f x)))
    let plain =
        define("f", fun(vec!["x"], vec![Expr::List(vec![v("+"), n(1), Expr::List(vec![v("f"), v("x")])])]));
    match tco(top(plain)) {
        Expr::Define { val, .. } => match *val {
            Expr::Lambda(code) => assert_eq!(code.tail, false),
            _ => panic!(),
        },
        _ => panic!(),
    }
}

#[test]
fn tail_flag_in_blocks_and_elsewhere() {
    let own = Closure {
        formals: vec![path("f::x")],
        free: vec![],
        body: vec![Expr::List(vec![r("f"), r("f::x")])],
        tail: false,
    };
    assert!(is_tail(&path("f"), &own));
    assert!(!is_tail(&path("g"), &own));
    let empty = Closure { formals: vec![], free: vec![], body: vec![], tail: true };
    assert!(!is_tail(&path("f"), &empty));
    let prog = Expr::Let {
        bindings: vec![
            (path("f"), core_fun(vec!["f::x"], vec![Expr::List(vec![r("f"), r("f::x")])], false)),
            (path("g"), core_fun(vec!["g::x"], vec![Expr::List(vec![r("f"), r("g::x")])], true)),
            (path("c"), k(1)),
        ],
        body: vec![r("c")],
    };
    let expected = Expr::Let {
        bindings: vec![
            (path("f"), core_fun(vec!["f::x"], vec![Expr::List(vec![r("f"), r("f::x")])], true)),
            (path("g"), core_fun(vec!["g::x"], vec![Expr::List(vec![r("f"), r("g::x")])], false)),
            (path("c"), k(1)),
        ],
        body: vec![r("c")],
    };
    assert_eq!(tco(prog), expected);
    assert_eq!(tco(k(1)), k(1));
    let constant = Expr::Define { name: path("pi"), val: Box::new(k(3)) };
    assert_eq!(tco(duplicate(&constant)), constant);
}

#[test]
fn analyze_runs_the_passes_form_after_form() {
    // (define (f x) (f "s"))  (g (h 1) 'q)
    let forms = vec![
        define("f", fun(vec!["x"], vec![Expr::List(vec![v("f"), Expr::Literal(Literal::Str("s".to_string()))])])),
        Expr::List(vec![
            v("g"),
            Expr::List(vec![v("h"), n(1)]),
            Expr::Literal(Literal::Symbol("q".to_string())),
        ]),
    ];
    assert!(analyzable(&forms));
    let mut s = State::new();
    let out = analyze(&mut s, forms);
    let expected = vec![
        Expr::Define {
            name: path("f"),
            val: Box::new(core_fun(vec!["f::x"], vec![Expr::List(vec![r("f"), text("s")])], true)),
        },
        Expr::Let {
            bindings: vec![(Ident::new("_0"), Expr::List(vec![r("h"), k(1)]))],
            body: vec![Expr::List(vec![r("g"), r("_0"), symbol("q")])],
        },
    ];
    assert_eq!(out, expected);
    assert_eq!(s.strings, vec!["s"]);
    assert_eq!(s.symbols, vec!["q"]);
    assert_eq!(analyze(&mut s, vec![]), vec![]);
}

#[test]
fn finish_keeps_the_order_of_the_items() {
    let mut s = State::new();
    let out = finish(&mut s, vec![text("a"), text("b"), Expr::List(vec![r("f"), Expr::List(vec![r("g")])])]);
    assert_eq!(out.len(), 3);
    assert_eq!(out[0], text("a"));
    assert_eq!(out[1], text("b"));
    assert!(matches!(out[2], Expr::Let { .. }));
    assert_eq!(s.strings, vec!["a", "b"]);
}

#[test]
fn try_analyze_gives_nothing_for_too_deep_a_nesting() {
    let mut deep = n(0);
    for _ in 0..256 {
        deep = block(vec![], vec![deep]);
    }
    let mut s = State::new();
    let forms = vec![Expr::Literal(Literal::Str("kept out".to_string())), deep];
    assert_eq!(try_analyze(&mut s, forms), None);
    assert_eq!(s.strings.len(), 0);
    let out = try_analyze(&mut s, vec![Expr::Literal(Literal::Str("in".to_string()))]);
    assert_eq!(out, Some(vec![text("in")]));
    assert_eq!(s.strings, vec!["in"]);
}

#[test]
fn copies_are_equal_to_what_they_copy() {
    let tree = Expr::Let {
        bindings: vec![(path("a::b"), core_fun(vec!["a::b::x"], vec![r("a::b::x"), text("t")], true))],
        body: vec![
            Expr::Cond { pred: Box::new(k(1)), conseq: Box::new(symbol("s")), alt: None },
            Expr::Vector(vec![Expr::Define { name: path("d"), val: Box::new(k(2)) }]),
        ],
    };
    assert_eq!(duplicate(&tree), tree);
    assert_eq!(tree.clone(), tree);
}
