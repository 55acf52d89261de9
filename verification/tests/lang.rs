//! The renaming and lifting passes on whole programs.
use scheme_lang::ast::{Code, Expr};
use scheme_lang::env::Env;
use scheme_lang::lift::lift;
use scheme_lang::rename::mangle;
use scheme_lang::state::State;

fn id(s: &str) -> Expr {
    Expr::Identifier(s.to_string())
}

fn num(n: i64) -> Expr {
    Expr::Number(n)
}

fn let_form(bindings: Vec<(&str, Expr)>, body: Vec<Expr>) -> Expr {
    Expr::Let {
        bindings: bindings.into_iter().map(|(n, e)| (n.to_string(), e)).collect(),
        body,
    }
}

fn lambda(formals: Vec<&str>, body: Vec<Expr>) -> Expr {
    Expr::Lambda(Code {
        name: None,
        formals: formals.into_iter().map(|s| s.to_string()).collect(),
        free: vec![],
        body,
    })
}

fn cond(pred: Expr, conseq: Expr, alt: Expr) -> Expr {
    Expr::Cond {
        pred: Box::new(pred),
        conseq: Box::new(conseq),
        alt: Some(Box::new(alt)),
    }
}

#[test]
fn shadow1() {
    // (let ((x 1)) (let ((x 2)) (+ x x)))
    let x = let_form(
        vec![("x", num(1))],
        vec![let_form(
            vec![("x", num(2))],
            vec![Expr::List(vec![id("+"), id("x"), id("x")])],
        )],
    );
    // (let ((x.0 1)) (let ((x.1 2)) (+ x.1 x.1)))
    let y = let_form(
        vec![("x.0", num(1))],
        vec![let_form(
            vec![("x.1", num(2))],
            vec![Expr::List(vec![id("+"), id("x.1"), id("x.1")])],
        )],
    );

    assert_eq!(y, mangle(&Env::new(), &x));
}

#[test]
fn shadow2() {
    // (let ((t (cons 1 2))) (let ((t t)) (let ((t t)) (let ((t t)) t))))
    let x = let_form(
        vec![("t", Expr::List(vec![id("cons"), num(1), num(2)]))],
        vec![let_form(
            vec![("t", id("t"))],
            vec![let_form(
                vec![("t", id("t"))],
                vec![let_form(vec![("t", id("t"))], vec![id("t")])],
            )],
        )],
    );
    let y = let_form(
        vec![("t.0", Expr::List(vec![id("cons"), num(1), num(2)]))],
        vec![let_form(
            vec![("t.1", id("t.0"))],
            vec![let_form(
                vec![("t.2", id("t.1"))],
                vec![let_form(vec![("t.3", id("t.2"))], vec![id("t.3")])],
            )],
        )],
    );

    assert_eq!(y, mangle(&Env::new(), &x));
}

#[test]
fn shadow3() {
    // (let ((x ()))
    //   (let ((x (cons x x)))
    //     (let ((x (cons x x)))
    //       (let ((x (cons x x)))
    //         (cons x x)))))
    let x = let_form(
        vec![("x", Expr::Nil)],
        vec![let_form(
            vec![("x", Expr::List(vec![id("cons"), id("x"), id("x")]))],
            vec![let_form(
                vec![("x", Expr::List(vec![id("cons"), id("x"), id("x")]))],
                vec![let_form(
                    vec![("x", Expr::List(vec![id("cons"), id("x"), id("x")]))],
                    vec![Expr::List(vec![id("cons"), id("x"), id("x")])],
                )],
            )],
        )],
    );
    let y = let_form(
        vec![("x.0", Expr::Nil)],
        vec![let_form(
            vec![("x.1", Expr::List(vec![id("cons"), id("x.0"), id("x.0")]))],
            vec![let_form(
                vec![("x.2", Expr::List(vec![id("cons"), id("x.1"), id("x.1")]))],
                vec![let_form(
                    vec![("x.3", Expr::List(vec![id("cons"), id("x.2"), id("x.2")]))],
                    vec![Expr::List(vec![id("cons"), id("x.3"), id("x.3")])],
                )],
            )],
        )],
    );

    assert_eq!(y, mangle(&Env::new(), &x));
}

#[test]
fn alias() {
    // (let ((x 1)) (let ((x x)) (+ x x)))
    let x = let_form(
        vec![("x", num(1))],
        vec![let_form(
            vec![("x", id("x"))],
            vec![Expr::List(vec![id("+"), id("x"), id("x")])],
        )],
    );
    // (let ((x.0 1)) (let ((x.1 x.0)) (+ x.1 x.1)))
    let y = let_form(
        vec![("x.0", num(1))],
        vec![let_form(
            vec![("x.1", id("x.0"))],
            vec![Expr::List(vec![id("+"), id("x.1"), id("x.1")])],
        )],
    );

    assert_eq!(y, mangle(&Env::new(), &x));
}

#[test]
fn letrec() {
    // (let ((f (lambda (x) (g x x)))
    //       (g (lambda (x y) (+ x y))))
    //   (f 12))
    let x = let_form(
        vec![
            ("f", lambda(vec!["x"], vec![Expr::List(vec![id("g"), id("x"), id("x")])])),
            ("g", lambda(vec!["x", "y"], vec![Expr::List(vec![id("+"), id("x"), id("y")])])),
        ],
        vec![Expr::List(vec![id("f"), num(12)])],
    );
    let y = let_form(
        vec![
            ("f.0", lambda(vec!["x"], vec![Expr::List(vec![id("g.0"), id("x"), id("x")])])),
            ("g.0", lambda(vec!["x", "y"], vec![Expr::List(vec![id("+"), id("x"), id("y")])])),
        ],
        vec![Expr::List(vec![id("f.0"), num(12)])],
    );

    assert_eq!(y, mangle(&Env::new(), &x));
}

#[test]
fn recursive() {
    // (let ((f (lambda (x)
    //            (if (zero? x)
    //              1
    //              (* x (f (dec x))))))) (f 5))
    let x = let_form(
        vec![(
            "f",
            lambda(
                vec!["x"],
                vec![cond(
                    Expr::List(vec![id("zero?"), id("x")]),
                    num(1),
                    Expr::List(vec![
                        id("*"),
                        id("x"),
                        Expr::List(vec![id("f"), Expr::List(vec![id("dec"), id("x")])]),
                    ]),
                )],
            ),
        )],
        vec![Expr::List(vec![id("f"), num(5)])],
    );
    let y = let_form(
        vec![(
            "f.0",
            lambda(
                vec!["x"],
                vec![cond(
                    Expr::List(vec![id("zero?"), id("x")]),
                    num(1),
                    Expr::List(vec![
                        id("*"),
                        id("x"),
                        Expr::List(vec![id("f.0"), Expr::List(vec![id("dec"), id("x")])]),
                    ]),
                )],
            ),
        )],
        vec![Expr::List(vec![id("f.0"), num(5)])],
    );

    assert_eq!(y, mangle(&Env::new(), &x));
}

#[test]
fn lift_simple() {
    // (let ((id (lambda (x) x))) (id 42))
    let mut s: State = Default::default();

    let expr = vec![let_form(
        vec![("id", lambda(vec!["x"], vec![id("x")]))],
        vec![Expr::List(vec![id("id"), num(42)])],
    )];

    let e = lift(&mut s, &expr).unwrap();

    assert_eq!(
        s.get_function(&"id".to_string()).unwrap(),
        &Code {
            name: Some("id".into()),
            formals: vec!["x".into()],
            free: vec![],
            body: vec![id("x")],
        }
    );

    assert_eq!(
        e[0],
        Expr::Let {
            bindings: vec![],
            body: vec![Expr::List(vec![id("id"), num(42)])],
        }
    );
}

#[test]
fn lift_recursive() {
    // (let ((e (lambda (x) (if (zero? x) #t (o (dec x)))))
    //       (o (lambda (x) (if (zero? x) #f (e (dec x))))))
    //   (e 25))
    let mut s: State = Default::default();

    let expr = vec![let_form(
        vec![
            (
                "e",
                lambda(
                    vec!["x"],
                    vec![cond(
                        Expr::List(vec![id("zero?"), id("x")]),
                        Expr::Boolean(true),
                        Expr::List(vec![id("o"), Expr::List(vec![id("dec"), id("x")])]),
                    )],
                ),
            ),
            (
                "o",
                lambda(
                    vec!["x"],
                    vec![cond(
                        Expr::List(vec![id("zero?"), id("x")]),
                        Expr::Boolean(false),
                        Expr::List(vec![id("e"), Expr::List(vec![id("dec"), id("x")])]),
                    )],
                ),
            ),
        ],
        vec![Expr::List(vec![id("e"), num(25)])],
    )];

    let e = lift(&mut s, &expr).unwrap();

    assert_eq!(
        s.get_function(&"e".to_string()).unwrap(),
        &Code {
            name: Some("e".into()),
            formals: vec!["x".into()],
            free: vec![],
            body: vec![Expr::Cond {
                pred: Box::new(Expr::List(vec![id("zero?"), id("x")])),
                conseq: Box::new(Expr::Boolean(true)),
                alt: Some(Box::new(Expr::List(vec![
                    id("o"),
                    Expr::List(vec![id("dec"), id("x")])
                ]))),
            }],
        }
    );

    assert_eq!(
        s.get_function(&"o".to_string()).unwrap(),
        &Code {
            name: Some("o".into()),
            formals: vec!["x".into()],
            free: vec![],
            body: vec![Expr::Cond {
                pred: Box::new(Expr::List(vec![id("zero?"), id("x")])),
                conseq: Box::new(Expr::Boolean(false)),
                alt: Some(Box::new(Expr::List(vec![
                    id("e"),
                    Expr::List(vec![id("dec"), id("x")])
                ]))),
            }],
        }
    );

    assert_eq!(
        e[0],
        Expr::Let {
            bindings: vec![],
            body: vec![Expr::List(vec![id("e"), num(25)])],
        }
    );
}
