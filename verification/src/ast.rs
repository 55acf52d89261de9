//! The expression tree shared by both passes, and its mathematical view.
use vstd::prelude::*;

verus! {

/// A function definition: an optional name (present once lifted), the formal
/// parameters, the free variables (computed upstream), and the body.
#[derive(Debug, PartialEq, Eq)]
pub struct Code {
    pub name: Option<String>,
    pub formals: Vec<String>,
    pub free: Vec<String>,
    pub body: Vec<Expr>,
}

/// An expression of the source language, as handed over by the parser.
#[derive(Debug, PartialEq, Eq)]
pub enum Expr {
    /// A number literal.
    Number(i64),
    /// A boolean literal.
    Boolean(bool),
    /// A string literal.
    Str(String),
    /// A symbol literal.
    Symbol(String),
    /// The empty-list value.
    Nil,
    /// A name reference; its meaning depends on the enclosing scope.
    Identifier(String),
    /// An ordered sequence of sub-expressions.
    List(Vec<Expr>),
    /// A conditional with predicate, consequent and optional alternative.
    Cond { pred: Box<Expr>, conseq: Box<Expr>, alt: Option<Box<Expr>> },
    /// A binding form: (name, value) pairs plus body expressions.
    Let { bindings: Vec<(String, Expr)>, body: Vec<Expr> },
    /// A function literal.
    Lambda(Code),
}

/// Mathematical model of a function definition.
#[verifier::ext_equal]
pub struct CodeV {
    pub name: Option<Seq<char>>,
    pub formals: Seq<Seq<char>>,
    pub free: Seq<Seq<char>>,
    pub body: Seq<ExprV>,
}

/// Mathematical model of an expression.
#[verifier::ext_equal]
pub enum ExprV {
    Number(int),
    Boolean(bool),
    Str(Seq<char>),
    Symbol(Seq<char>),
    Nil,
    Identifier(Seq<char>),
    List(Seq<ExprV>),
    Cond { pred: Box<ExprV>, conseq: Box<ExprV>, alt: Option<Box<ExprV>> },
    Let { bindings: Seq<(Seq<char>, ExprV)>, body: Seq<ExprV> },
    Lambda(CodeV),
}

/// The view of a sequence of names.
pub open spec fn names_view(ns: Seq<String>) -> Seq<Seq<char>> {
    ns.map_values(|n: String| n@)
}

/// The view of one expression.
pub open spec fn expr_view(e: Expr) -> ExprV
    decreases e,
{
    match e {
        Expr::Number(n) => ExprV::Number(n as int),
        Expr::Boolean(b) => ExprV::Boolean(b),
        Expr::Str(s) => ExprV::Str(s@),
        Expr::Symbol(s) => ExprV::Symbol(s@),
        Expr::Nil => ExprV::Nil,
        Expr::Identifier(n) => ExprV::Identifier(n@),
        Expr::List(l) => ExprV::List(exprs_view(l@)),
        Expr::Cond { pred, conseq, alt } => ExprV::Cond {
            pred: Box::new(expr_view(*pred)),
            conseq: Box::new(expr_view(*conseq)),
            alt: match alt {
                Some(a) => Some(Box::new(expr_view(*a))),
                None => None,
            },
        },
        Expr::Let { bindings, body } => ExprV::Let {
            bindings: bindings_view(bindings@),
            body: exprs_view(body@),
        },
        Expr::Lambda(c) => ExprV::Lambda(code_view(c)),
    }
}

/// The view of a sequence of expressions, element by element.
pub open spec fn exprs_view(es: Seq<Expr>) -> Seq<ExprV>
    decreases es,
{
    Seq::new(
        es.len(),
        |i: int|
            if 0 <= i < es.len() {
                expr_view(es[i])
            } else {
                ExprV::Nil
            },
    )
}

/// The view of a sequence of bindings, element by element.
pub open spec fn bindings_view(bs: Seq<(String, Expr)>) -> Seq<(Seq<char>, ExprV)>
    decreases bs,
{
    Seq::new(
        bs.len(),
        |i: int|
            if 0 <= i < bs.len() {
                (bs[i].0@, expr_view(bs[i].1))
            } else {
                (Seq::empty(), ExprV::Nil)
            },
    )
}

/// The view of a function definition.
pub open spec fn code_view(c: Code) -> CodeV
    decreases c,
{
    CodeV {
        name: match c.name {
            Some(n) => Some(n@),
            None => None,
        },
        formals: names_view(c.formals@),
        free: names_view(c.free@),
        body: exprs_view(c.body@),
    }
}

/// An element-for-element copy of a sequence of names.
pub fn copy_names(v: &Vec<String>) -> (r: Vec<String>)
    ensures
        r@ == v@,
{
    let mut out: Vec<String> = Vec::new();
    let mut i: usize = 0;
    while i < v.len()
        invariant
            i <= v@.len(),
            out@.len() == i,
            forall|j: int| 0 <= j < i ==> out@[j] == v@[j],
        decreases v@.len() - i,
    {
        out.push(v[i].clone());
        i = i + 1;
    }
    proof {
        assert(out@ =~= v@);
    }
    out
}

/// A copy of an optional name.
pub fn copy_opt_name(n: &Option<String>) -> (r: Option<String>)
    ensures
        r == *n,
{
    match n {
        Some(s) => Some(s.clone()),
        None => None,
    }
}

impl View for Expr {
    type V = ExprV;

    open spec fn view(&self) -> ExprV {
        expr_view(*self)
    }
}

impl View for Code {
    type V = CodeV;

    open spec fn view(&self) -> CodeV {
        code_view(*self)
    }
}

} // verus!
