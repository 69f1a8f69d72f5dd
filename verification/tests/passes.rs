use lisp_middle::anf::anf;
use lisp_middle::env::Env;
use lisp_middle::expr::{Closure, Core, Expr, Literal, Syntax};
use lisp_middle::ident::Ident;
use lisp_middle::intern::State;
use lisp_middle::lift::lift;
use lisp_middle::pipeline;
use lisp_middle::tail::tco;

fn rename(prog: Syntax) -> Core {
    lisp_middle::rename::rename(&Env::new(), &Ident::empty(), 0, &prog)
}

fn analyze(prog: Vec<Syntax>) -> Vec<Core> {
    pipeline::analyze(&mut State::new(), prog)
}

/// The identifier whose path is `name` split at `::`.
fn ident(name: &str) -> Ident {
    let mut id = Ident::empty();
    for segment in name.split("::") {
        id = id.extend(segment);
    }
    id
}

/// Turns each name into the identifier that it spells, and nothing else.
fn mock(prog: Syntax) -> Core {
    match prog {
        Expr::Identifier(s) => Expr::Identifier(ident(&s)),
        Expr::Let { bindings, body } => Expr::Let {
            bindings: bindings.into_iter().map(|(name, value)| (ident(&name), mock(value))).collect(),
            body: body.into_iter().map(mock).collect(),
        },
        Expr::List(list) => Expr::List(list.into_iter().map(mock).collect()),
        Expr::Cond { pred, conseq, alt } => Expr::Cond {
            pred: Box::new(mock(*pred)),
            conseq: Box::new(mock(*conseq)),
            alt: alt.map(|u| Box::new(mock(*u))),
        },
        Expr::Lambda(Closure { formals, free, body, tail }) => Expr::Lambda(Closure {
            formals: formals.iter().map(|s| ident(s)).collect(),
            free: free.iter().map(|s| ident(s)).collect(),
            body: body.into_iter().map(mock).collect(),
            tail,
        }),
        Expr::Define { name, val } => Expr::Define { name: ident(&name), val: Box::new(mock(*val)) },
        Expr::Vector(list) => Expr::Vector(list.into_iter().map(mock).collect()),
        Expr::Literal(v) => Expr::Literal(v),
    }
}

fn var(name: &str) -> Syntax {
    Expr::Identifier(name.to_string())
}

fn num(n: i64) -> Syntax {
    Expr::Literal(Literal::Number(n))
}

fn boolean(b: bool) -> Syntax {
    Expr::Literal(Literal::Boolean(b))
}

fn call(list: Vec<Syntax>) -> Syntax {
    Expr::List(list)
}

fn block(bindings: Vec<(&str, Syntax)>, body: Vec<Syntax>) -> Syntax {
    Expr::Let { bindings: bindings.into_iter().map(|(n, v)| (n.to_string(), v)).collect(), body }
}

fn lambda(formals: Vec<&str>, body: Vec<Syntax>) -> Syntax {
    Expr::Lambda(Closure {
        formals: formals.into_iter().map(|s| s.to_string()).collect(),
        free: vec![],
        body,
        tail: false,
    })
}

fn named(name: &str, formals: Vec<&str>, body: Vec<Syntax>) -> Syntax {
    Expr::Define { name: name.to_string(), val: Box::new(lambda(formals, body)) }
}

fn cond(pred: Syntax, conseq: Syntax, alt: Syntax) -> Syntax {
    Expr::Cond { pred: Box::new(pred), conseq: Box::new(conseq), alt: Some(Box::new(alt)) }
}

#[test]
fn nest() {
    // (let ((x 1) (y 2)) (let ((z 3)) (+ x y z)))
    let x = rename(block(
        vec![("x", num(1)), ("y", num(2))],
        vec![block(vec![("z", num(3))], vec![call(vec![var("+"), var("x"), var("y"), var("z")])])],
    ));

    let y = mock(block(
        vec![("{let 0}::x", num(1)), ("{let 0}::y", num(2))],
        vec![block(
            vec![("{let 0}::{let 1}::z", num(3))],
            vec![call(vec![
                var("+"),
                var("{let 0}::x"),
                var("{let 0}::y"),
                var("{let 0}::{let 1}::z"),
            ])],
        )],
    ));
    assert_eq!(x, y);
}

#[test]
fn closure() {
    // (let ((add (lambda (x y) (+ x y)))) (add 10 20))
    let x = rename(block(
        vec![("add", lambda(vec!["x", "y"], vec![call(vec![var("+"), var("x"), var("y")])]))],
        vec![call(vec![var("add"), num(10), num(20)])],
    ));

    let y = mock(block(
        vec![(
            "{let 0}::add",
            lambda(
                vec!["{let 0}::add::x", "{let 0}::add::y"],
                vec![call(vec![var("+"), var("{let 0}::add::x"), var("{let 0}::add::y")])],
            ),
        )],
        vec![call(vec![var("{let 0}::add"), num(10), num(20)])],
    ));

    assert_eq!(x, y);
}

#[test]
fn function() {
    // (define (add x y) (+ x y))
    let x = rename(named("add", vec!["x", "y"], vec![call(vec![var("+"), var("x"), var("y")])]));
    let y = mock(named(
        "add",
        vec!["add::x", "add::y"],
        vec![call(vec![var("+"), var("add::x"), var("add::y")])],
    ));

    assert_eq!(x, y);
}

#[test]
fn letrec() {
    // (let ((f (lambda (x) (g x x))) (g (lambda (x y) (+ x y)))) (f 12))
    let x = rename(block(
        vec![
            ("f", lambda(vec!["x"], vec![call(vec![var("g"), var("x"), var("x")])])),
            ("g", lambda(vec!["x", "y"], vec![call(vec![var("+"), var("x"), var("y")])])),
        ],
        vec![call(vec![var("f"), num(12)])],
    ));

    let y = mock(block(
        vec![
            (
                "{let 0}::f",
                lambda(
                    vec!["{let 0}::f::x"],
                    vec![call(vec![var("{let 0}::g"), var("{let 0}::f::x"), var("{let 0}::f::x")])],
                ),
            ),
            (
                "{let 0}::g",
                lambda(
                    vec!["{let 0}::g::x", "{let 0}::g::y"],
                    vec![call(vec![var("+"), var("{let 0}::g::x"), var("{let 0}::g::y")])],
                ),
            ),
        ],
        vec![call(vec![var("{let 0}::f"), num(12)])],
    ));

    assert_eq!(x, y);
}

#[test]
fn recursive() {
    // (let ((f (lambda (x) (if (zero? x) 1 (* x (f (dec x))))))) (f 5))
    let x = rename(block(
        vec![(
            "f",
            lambda(
                vec!["x"],
                vec![cond(
                    call(vec![var("zero?"), var("x")]),
                    num(1),
                    call(vec![
                        var("*"),
                        var("x"),
                        call(vec![var("f"), call(vec![var("dec"), var("x")])]),
                    ]),
                )],
            ),
        )],
        vec![call(vec![var("f"), num(5)])],
    ));

    let y = mock(block(
        vec![(
            "{let 0}::f",
            lambda(
                vec!["{let 0}::f::x"],
                vec![cond(
                    call(vec![var("zero?"), var("{let 0}::f::x")]),
                    num(1),
                    call(vec![
                        var("*"),
                        var("{let 0}::f::x"),
                        call(vec![var("{let 0}::f"), call(vec![var("dec"), var("{let 0}::f::x")])]),
                    ]),
                )],
            ),
        )],
        vec![call(vec![var("{let 0}::f"), num(5)])],
    ));

    assert_eq!(x, y)
}

#[test]
fn a_normal_form() {
    // (f (+ 1 2) 7)
    let x = call(vec![var("f"), call(vec![var("+"), num(1), num(2)]), num(7)]);
    let y = Expr::Let {
        bindings: vec![(
            Ident::new("_0"),
            Expr::List(vec![
                Expr::Identifier(Ident::new("+")),
                Expr::Literal(Literal::Number(1)),
                Expr::Literal(Literal::Number(2)),
            ]),
        )],
        body: vec![Expr::List(vec![
            Expr::Identifier(Ident::new("f")),
            Expr::Identifier(Ident::new("_0")),
            Expr::Literal(Literal::Number(7)),
        ])],
    };

    assert_eq!(y, anf(rename(x)));
}

#[test]
fn lift_simple() {
    // (let ((id (lambda (x) x))) (id 42))
    let prog = block(
        vec![("id", lambda(vec!["x"], vec![var("x")]))],
        vec![call(vec![var("id"), num(42)])],
    );
    let expr = analyze(vec![prog]);

    assert_eq!(expr.len(), 2);
    assert_eq!(
        expr[0],
        mock(named("{let 0}::id", vec!["{let 0}::id::x"], vec![var("{let 0}::id::x")]))
    );
    assert_eq!(expr[1], mock(block(vec![], vec![call(vec![var("{let 0}::id"), num(42)])])));
}

fn parity(other: &str, base: bool, x: &str) -> Syntax {
    lambda(
        vec![x],
        vec![cond(
            call(vec![var("zero?"), var(x)]),
            boolean(base),
            call(vec![var(other), call(vec![var("dec"), var(x)])]),
        )],
    )
}

#[test]
fn lift_recursive() {
    // (let ((even (lambda (x) (if (zero? x) #t (odd (dec x)))))
    //       (odd  (lambda (x) (if (zero? x) #f (even (dec x))))))
    //   (even 25))
    let prog = block(
        vec![("even", parity("odd", true, "x")), ("odd", parity("even", false, "x"))],
        vec![call(vec![var("even"), num(25)])],
    );

    let expr = lift(&rename(prog));

    assert_eq!(
        expr[0],
        mock(Expr::Define {
            name: "{let 0}::even".to_string(),
            val: Box::new(parity("{let 0}::odd", true, "{let 0}::even::x")),
        })
    );

    assert_eq!(
        expr[1],
        mock(Expr::Define {
            name: "{let 0}::odd".to_string(),
            val: Box::new(parity("{let 0}::even", false, "{let 0}::odd::x")),
        })
    );

    assert_eq!(expr[2], mock(block(vec![], vec![call(vec![var("{let 0}::even"), num(25)])])));
}

#[test]
fn tails() {
    // (let ((factorial (lambda (x acc)
    //                    (if (zero? x) acc (factorial (dec x) (* x acc))))))
    //   (factorial 42 1))
    let prog = block(
        vec![(
            "factorial",
            lambda(
                vec!["x", "acc"],
                vec![cond(
                    call(vec![var("zero?"), var("x")]),
                    var("acc"),
                    call(vec![
                        var("factorial"),
                        call(vec![var("dec"), var("x")]),
                        call(vec![var("*"), var("x"), var("acc")]),
                    ]),
                )],
            ),
        )],
        vec![call(vec![var("factorial"), num(42), num(1)])],
    );

    let exprs = lift(&rename(prog));

    match &exprs[0] {
        Expr::Define { name: _, val } => match &**val {
            Expr::Lambda(code) => assert_eq!(code.tail, false),
            _ => panic!(),
        },
        _ => panic!(),
    };

    match tco(exprs[0].clone()) {
        Expr::Define { name: _, val } => match *val {
            Expr::Lambda(code) => assert_eq!(code.tail, true),
            _ => panic!(),
        },
        _ => panic!(),
    }
}
