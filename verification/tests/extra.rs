//! Literal interning, error cases, mangled-name building, and pass-through
//! behaviour on expressions the passes leave alone.
use scheme_lang::ast::{Code, Expr};
use scheme_lang::env::Env;
use scheme_lang::lift::{lift, lift1, Error};
use scheme_lang::names::{dec_string, mangled_name};
use scheme_lang::rename::{mangle, rename};
use scheme_lang::state::State;

fn id(s: &str) -> Expr {
    Expr::Identifier(s.to_string())
}

fn string_lit(s: &str) -> Expr {
    Expr::Str(s.to_string())
}

fn symbol_lit(s: &str) -> Expr {
    Expr::Symbol(s.to_string())
}

#[test]
fn intern_is_deterministic() {
    // Interning the same value twice yields the same index; distinct values
    // take indices in first-seen order, densely from zero.
    let mut s = State::new();
    let prog = vec![
        string_lit("alpha"),
        string_lit("beta"),
        string_lit("alpha"),
        string_lit("gamma"),
        string_lit("beta"),
    ];
    let out = lift(&mut s, &prog).unwrap();

    assert_eq!(s.strings, vec!["alpha".to_string(), "beta".to_string(), "gamma".to_string()]);
    assert_eq!(s.string_index(&"alpha".to_string()), Some(0));
    assert_eq!(s.string_index(&"beta".to_string()), Some(1));
    assert_eq!(s.string_index(&"gamma".to_string()), Some(2));
    assert_eq!(s.string_index(&"delta".to_string()), None);
    // The literals themselves come back unchanged.
    assert_eq!(out, prog);
}

#[test]
fn pools_are_independent() {
    // A string and a symbol with the same spelling each start at index 0 of
    // their own pool.
    let mut s = State::new();
    let prog = vec![symbol_lit("x"), string_lit("x"), symbol_lit("y")];
    lift(&mut s, &prog).unwrap();

    assert_eq!(s.symbol_index(&"x".to_string()), Some(0));
    assert_eq!(s.symbol_index(&"y".to_string()), Some(1));
    assert_eq!(s.string_index(&"x".to_string()), Some(0));
    assert_eq!(s.strings.len(), 1);
    assert_eq!(s.symbols.len(), 2);
}

#[test]
fn literals_inside_lambda_bodies_are_interned() {
    // Lifting a named lambda lifts its body too, so literals inside it reach
    // the pools and the registered record holds the lifted body.
    let mut s = State::new();
    let prog = vec![Expr::Let {
        bindings: vec![(
            "greet".to_string(),
            Expr::Lambda(Code {
                name: None,
                formals: vec![],
                free: vec![],
                body: vec![string_lit("hello")],
            }),
        )],
        body: vec![Expr::List(vec![id("greet")])],
    }];
    let out = lift(&mut s, &prog).unwrap();

    assert_eq!(s.string_index(&"hello".to_string()), Some(0));
    assert_eq!(
        s.get_function(&"greet".to_string()).unwrap(),
        &Code {
            name: Some("greet".to_string()),
            formals: vec![],
            free: vec![],
            body: vec![string_lit("hello")],
        }
    );
    assert_eq!(
        out[0],
        Expr::Let { bindings: vec![], body: vec![Expr::List(vec![id("greet")])] }
    );
}

#[test]
fn inline_lambda_is_unsupported() {
    // A function literal anywhere but as a binding's direct value fails.
    let mut s = State::new();
    let bare = vec![Expr::Lambda(Code {
        name: None,
        formals: vec!["x".to_string()],
        free: vec![],
        body: vec![id("x")],
    })];
    assert_eq!(lift(&mut s, &bare), Err(Error::UnsupportedExpression));

    // The same holds for one passed as an argument.
    let mut s2 = State::new();
    let as_argument = vec![Expr::List(vec![
        id("map"),
        Expr::Lambda(Code {
            name: None,
            formals: vec!["x".to_string()],
            free: vec![],
            body: vec![id("x")],
        }),
    ])];
    assert_eq!(lift1(&mut s2, &as_argument[0]), Err(Error::UnsupportedExpression));
}

#[test]
fn unchanged_structure_comes_back_identical() {
    // Expressions with no bindings and no interned literal kinds pass
    // through both passes value-equal, and the state stays empty.
    let build = || {
        vec![Expr::Cond {
            pred: Box::new(Expr::List(vec![id("zero?"), Expr::Number(7)])),
            conseq: Box::new(Expr::Boolean(true)),
            alt: Some(Box::new(Expr::List(vec![id("+"), Expr::Number(1), Expr::Nil]))),
        }]
    };
    let renamed = rename(&build());
    assert_eq!(renamed, build());

    let mut s = State::new();
    let lifted = lift(&mut s, &build()).unwrap();
    assert_eq!(lifted, build());
    assert_eq!(s, State::new());
}

#[test]
fn empty_program_passes_through() {
    assert_eq!(rename(&[]), Vec::<Expr>::new());
    let mut s = State::new();
    assert_eq!(lift(&mut s, &[]), Ok(Vec::<Expr>::new()));
    assert_eq!(s, State::new());
}

#[test]
fn empty_let_keeps_its_shape() {
    // (let () x) survives both passes with its (empty) binding list.
    let build = || vec![Expr::Let { bindings: vec![], body: vec![id("x")] }];
    assert_eq!(rename(&build()), build());
    let mut s = State::new();
    assert_eq!(lift(&mut s, &build()).unwrap(), build());
}

#[test]
fn generation_counters_render_in_decimal() {
    assert_eq!(dec_string(0), "0");
    assert_eq!(dec_string(7), "7");
    assert_eq!(dec_string(10), "10");
    assert_eq!(dec_string(905), "905");
    assert_eq!(mangled_name(&"x".to_string(), 0), "x.0");
    assert_eq!(mangled_name(&"loop-var".to_string(), 12), "loop-var.12");
}

#[test]
fn deep_shadowing_reaches_two_digit_generations() {
    // Eleven nested rebindings of one name: the innermost reference must
    // carry generation 10, two digits.
    let mut expr = id("v");
    for _ in 0..11 {
        expr = Expr::Let { bindings: vec![("v".to_string(), Expr::Number(1))], body: vec![expr] };
    }
    let mut expected = id("v.10");
    for g in (0..11).rev() {
        expected = Expr::Let {
            bindings: vec![(format!("v.{}", g), Expr::Number(1))],
            body: vec![expected],
        };
    }
    assert_eq!(mangle(&Env::new(), &expr), expected);
}

#[test]
fn rebinding_a_function_name_replaces_its_record() {
    // The table is keyed by name: a repeated name keeps one entry, the last
    // definition written.
    let mut s = State::new();
    let def = |n: i64| {
        vec![Expr::Let {
            bindings: vec![(
                "f".to_string(),
                Expr::Lambda(Code {
                    name: None,
                    formals: vec![],
                    free: vec![],
                    body: vec![Expr::Number(n)],
                }),
            )],
            body: vec![],
        }]
    };
    lift(&mut s, &def(1)).unwrap();
    lift(&mut s, &def(2)).unwrap();

    assert_eq!(s.functions.len(), 1);
    assert_eq!(s.get_function(&"f".to_string()).unwrap().body, vec![Expr::Number(2)]);
    assert_eq!(s.get_function(&"g".to_string()), None);
}

#[test]
fn plain_binding_values_are_lifted_and_kept() {
    // A non-function binding stays in the let, its value lifted in place.
    let mut s = State::new();
    let prog = vec![Expr::Let {
        bindings: vec![
            ("msg".to_string(), string_lit("hi")),
            (
                "f".to_string(),
                Expr::Lambda(Code {
                    name: None,
                    formals: vec![],
                    free: vec![],
                    body: vec![id("msg")],
                }),
            ),
            ("n".to_string(), Expr::Number(3)),
        ],
        body: vec![Expr::List(vec![id("f")])],
    }];
    let out = lift(&mut s, &prog).unwrap();

    assert_eq!(
        out[0],
        Expr::Let {
            bindings: vec![
                ("msg".to_string(), string_lit("hi")),
                ("n".to_string(), Expr::Number(3)),
            ],
            body: vec![Expr::List(vec![id("f")])],
        }
    );
    assert_eq!(s.string_index(&"hi".to_string()), Some(0));
    assert!(s.get_function(&"f".to_string()).is_some());
}

#[test]
fn environment_tracks_generations() {
    let mut env = Env::new();
    let name = "x".to_string();
    assert_eq!(env.lookup(&name), None);
    env.bump(&name);
    assert_eq!(env.lookup(&name), Some(0));
    env.bump(&name);
    assert_eq!(env.lookup(&name), Some(1));
    assert_eq!(env.lookup(&"y".to_string()), None);
}

#[test]
fn free_identifiers_stay_free() {
    // Identifiers with no enclosing binding are left unchanged, even next to
    // a binding of another name.
    let prog = vec![Expr::Let {
        bindings: vec![("a".to_string(), Expr::Number(1))],
        body: vec![Expr::List(vec![id("display"), id("a"), id("b")])],
    }];
    let expected = vec![Expr::Let {
        bindings: vec![("a.0".to_string(), Expr::Number(1))],
        body: vec![Expr::List(vec![id("display"), id("a.0"), id("b")])],
    }];
    assert_eq!(rename(&prog), expected);
}
