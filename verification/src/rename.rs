//! The renaming pass: every bound identifier is rewritten to
//! `<name>.<generation>`, resolving shadowing, self-reference and mutual
//! recursion among sibling bindings.
use vstd::prelude::*;
use crate::ast::{
    bindings_view, code_view, copy_names, copy_opt_name, expr_view, exprs_view, Code, CodeV, Expr,
    ExprV,
};
use crate::env::{
    bump_names, bump_others, env_ok, gen_or_zero, lemma_bump_names_bound, lemma_bump_others_bound,
    lemma_env_ok_weaken, Env,
};
use crate::names::{mangled, mangled_name};

verus! {

/// The larger of two naturals.
pub open spec fn nmax(a: nat, b: nat) -> nat {
    if a >= b {
        a
    } else {
        b
    }
}

/// The names a binding list introduces, in listed order.
pub open spec fn names_of(bs: Seq<(Seq<char>, ExprV)>) -> Seq<Seq<char>> {
    bs.map_values(|p: (Seq<char>, ExprV)| p.0)
}

/// Whether a binding's value captures the extended scope: binding forms and
/// function literals see every sibling name, including their own.
pub open spec fn is_closure(e: ExprV) -> bool {
    (e is Let) || (e is Lambda)
}

/// How many generation steps any single name can take while this expression
/// is renamed: each binding form bumps each of its names once per listed
/// binding at most.
pub open spec fn gen_room(e: ExprV) -> nat
    decreases e,
{
    match e {
        ExprV::List(l) => gen_room_seq(l),
        ExprV::Cond { pred, conseq, alt } => {
            let a = match alt {
                Some(a) => gen_room(*a),
                None => 0,
            };
            nmax(nmax(gen_room(*pred), gen_room(*conseq)), a)
        },
        ExprV::Lambda(c) => gen_room_seq(c.body),
        ExprV::Let { bindings, body } => bindings.len() + nmax(
            gen_room_bindings(bindings),
            gen_room_seq(body),
        ),
        _ => 0,
    }
}

/// The largest room of a sequence of expressions.
pub open spec fn gen_room_seq(es: Seq<ExprV>) -> nat
    decreases es,
{
    if es.len() == 0 {
        0
    } else {
        nmax(gen_room_seq(es.drop_last()), gen_room(es.last()))
    }
}

/// The largest room of the values of a binding list.
pub open spec fn gen_room_bindings(bs: Seq<(Seq<char>, ExprV)>) -> nat
    decreases bs,
{
    if bs.len() == 0 {
        0
    } else {
        nmax(gen_room_bindings(bs.drop_last()), gen_room(bs.last().1))
    }
}

proof fn lemma_gen_room_seq_ge(es: Seq<ExprV>, i: int)
    requires
        0 <= i < es.len(),
    ensures
        gen_room(es[i]) <= gen_room_seq(es),
    decreases es.len(),
{
    if i < es.len() - 1 {
        lemma_gen_room_seq_ge(es.drop_last(), i);
        assert(es.drop_last()[i] == es[i]);
    }
}

proof fn lemma_gen_room_bindings_ge(bs: Seq<(Seq<char>, ExprV)>, i: int)
    requires
        0 <= i < bs.len(),
    ensures
        gen_room(bs[i].1) <= gen_room_bindings(bs),
    decreases bs.len(),
{
    if i < bs.len() - 1 {
        lemma_gen_room_bindings_ge(bs.drop_last(), i);
        assert(bs.drop_last()[i] == bs[i]);
    }
}

/// What the renaming pass produces for one expression under a given scope
/// environment.
///
/// A `let` first promotes every bound name to its new generation; the body
/// and every closure-valued binding see that extended environment, while a
/// plain binding value sees only the siblings' new generations, never its
/// own.  Lists, conditionals and function-literal bodies pass the incoming
/// environment through unchanged; literals rename to themselves.
pub open spec fn mangle_spec(env: Map<Seq<char>, nat>, e: ExprV) -> ExprV
    decreases e,
{
    match e {
        ExprV::Identifier(n) => if env.contains_key(n) {
            ExprV::Identifier(mangled(n, env[n]))
        } else {
            ExprV::Identifier(n)
        },
        ExprV::Let { bindings, body } => {
            let all = bump_names(env, names_of(bindings));
            ExprV::Let {
                bindings: mangle_bindings_spec(env, bindings),
                body: mangle_seq_spec(all, body),
            }
        },
        ExprV::List(l) => ExprV::List(mangle_seq_spec(env, l)),
        ExprV::Cond { pred, conseq, alt } => ExprV::Cond {
            pred: Box::new(mangle_spec(env, *pred)),
            conseq: Box::new(mangle_spec(env, *conseq)),
            alt: match alt {
                Some(a) => Some(Box::new(mangle_spec(env, *a))),
                None => None,
            },
        },
        ExprV::Lambda(c) => ExprV::Lambda(
            CodeV { name: c.name, formals: c.formals, free: c.free, body: mangle_seq_spec(env, c.body) },
        ),
        _ => e,
    }
}

/// What the renaming pass produces for a binding list: each name moves to its
/// generation in the extended environment, and each value is renamed under
/// the environment its kind selects.
pub open spec fn mangle_bindings_spec(env: Map<Seq<char>, nat>, bs: Seq<(Seq<char>, ExprV)>) -> Seq<
    (Seq<char>, ExprV),
>
    decreases bs,
{
    let all = bump_names(env, names_of(bs));
    Seq::new(
        bs.len(),
        |j: int|
            if 0 <= j < bs.len() {
                (
                    mangled(bs[j].0, all[bs[j].0]),
                    mangle_spec(
                        if is_closure(bs[j].1) {
                            all
                        } else {
                            bump_others(env, names_of(bs), bs[j].0)
                        },
                        bs[j].1,
                    ),
                )
            } else {
                (Seq::empty(), ExprV::Nil)
            },
    )
}

/// Each expression of a sequence renamed under one environment.
pub open spec fn mangle_seq_spec(env: Map<Seq<char>, nat>, es: Seq<ExprV>) -> Seq<ExprV>
    decreases es,
{
    Seq::new(
        es.len(),
        |i: int|
            if 0 <= i < es.len() {
                mangle_spec(env, es[i])
            } else {
                ExprV::Nil
            },
    )
}

/// What the renaming entry point produces: every top-level expression renamed
/// under the empty environment.
pub open spec fn rename_spec(es: Seq<ExprV>) -> Seq<ExprV> {
    es.map_values(|e: ExprV| mangle_spec(Map::empty(), e))
}

/// Rename a single expression under the given scope environment, with letrec
/// support among sibling bindings: the result is exactly `mangle_spec` of the
/// input.
///
/// The generation counters must have room for every step this expression can
/// take (`env_ok`); any tree that fits in memory is nowhere near the `u64`
/// limit.
#[verifier::loop_isolation(false)]
pub fn mangle(env: &Env, prog: &Expr) -> (r: Expr)
    requires
        env.wf(),
        env_ok(env@, gen_room(prog@)),
    ensures
        r@ == mangle_spec(env@, prog@),
    decreases *prog,
{
    match prog {
        Expr::Identifier(n) => match env.lookup(n) {
            Some(g) => Expr::Identifier(mangled_name(n, g)),
            None => Expr::Identifier(n.clone()),
        },
        Expr::Let { bindings, body } => {
            let ghost bsv = bindings_view(bindings@);
            let ghost names = names_of(bsv);
            let ghost room = gen_room(prog@);
            proof {
                assert(names.len() == bindings@.len());
                assert forall|t: int| 0 <= t < names.len() implies names[t] == bindings@[t].0@ by {
                    assert(bsv[t] == (bindings@[t].0@, expr_view(bindings@[t].1)));
                }
                assert(room == bsv.len() + nmax(
                    gen_room_bindings(bsv),
                    gen_room_seq(exprs_view(body@)),
                ));
            }
            // Promote every bound name to its new generation.
            let mut all = env.duplicate();
            let mut i: usize = 0;
            while i < bindings.len()
                invariant
                    i <= bindings@.len(),
                    all.wf(),
                    all@ == bump_names(env@, names.take(i as int)),
                decreases bindings@.len() - i,
            {
                proof {
                    lemma_bump_names_bound(env@, names.take(i as int));
                    assert(names.take(i as int).len() == i);
                    let k = bindings@[i as int].0@;
                    if all@.contains_key(k) {
                        assert(all@[k] <= gen_or_zero(env@, k) + i);
                        if env@.contains_key(k) {
                            assert(env@[k] + room < u64::MAX);
                        }
                    }
                }
                all.bump(&bindings[i].0);
                proof {
                    assert(names.take(i as int + 1).drop_last() =~= names.take(i as int));
                    assert(names.take(i as int + 1).last() == names[i as int]);
                    assert(names[i as int] == bindings@[i as int].0@);
                }
                i = i + 1;
            }
            proof {
                assert(names.take(names.len() as int) =~= names);
            }
            let ghost allm = bump_names(env@, names);
            // Rewrite each binding: its own name at the new generation, its
            // value under the environment its kind selects.
            let mut out_bs: Vec<(String, Expr)> = Vec::new();
            let mut j: usize = 0;
            while j < bindings.len()
                invariant
                    j <= bindings@.len(),
                    out_bs@.len() == j,
                    all.wf(),
                    all@ == allm,
                    forall|t: int|
                        0 <= t < j ==> #[trigger] out_bs@[t].0@ == mangle_bindings_spec(
                            env@,
                            bsv,
                        )[t].0 && out_bs@[t].1@ == mangle_bindings_spec(env@, bsv)[t].1,
                decreases bindings@.len() - j,
            {
                let name = &bindings[j].0;
                let value = &bindings[j].1;
                proof {
                    lemma_gen_room_bindings_ge(bsv, j as int);
                    assert(bsv[j as int] == (bindings@[j as int].0@, expr_view(
                        bindings@[j as int].1,
                    )));
                }
                let ghost spec_elem = mangle_bindings_spec(env@, bsv)[j as int];
                let mangled_value: Expr = match value {
                    Expr::Let { .. } | Expr::Lambda(_) => {
                        proof {
                            assert(is_closure(bsv[j as int].1));
                            lemma_bump_names_bound(env@, names);
                            assert forall|k: Seq<char>| allm.contains_key(k) implies #[trigger] allm[k]
                                + gen_room(bsv[j as int].1) < u64::MAX by {
                                assert(allm[k] <= gen_or_zero(env@, k) + names.len());
                                if env@.contains_key(k) {
                                    assert(env@[k] + room < u64::MAX);
                                }
                            }
                            assert(env_ok(allm, gen_room(value@)));
                        }
                        let v2 = mangle(&all, value);
                        proof {
                            assert(v2@ == spec_elem.1);
                        }
                        v2
                    },
                    _ => {
                        proof {
                            assert(!is_closure(bsv[j as int].1));
                        }
                        // The sibling-only environment: every other binding
                        // name promoted, this one left at its old generation.
                        let mut rest = env.duplicate();
                        let mut t: usize = 0;
                        while t < bindings.len()
                            invariant
                                t <= bindings@.len(),
                                rest.wf(),
                                rest@ == bump_others(env@, names.take(t as int), name@),
                            decreases bindings@.len() - t,
                        {
                            proof {
                                lemma_bump_others_bound(env@, names.take(t as int), name@);
                                assert(names.take(t as int).len() == t);
                            }
                            if !(bindings[t].0 == *name) {
                                proof {
                                    let k = bindings@[t as int].0@;
                                    if rest@.contains_key(k) {
                                        assert(rest@[k] <= gen_or_zero(env@, k) + t);
                                        if env@.contains_key(k) {
                                            assert(env@[k] + room < u64::MAX);
                                        }
                                    }
                                }
                                rest.bump(&bindings[t].0);
                            }
                            proof {
                                assert(names.take(t as int + 1).drop_last() =~= names.take(
                                    t as int,
                                ));
                                assert(names.take(t as int + 1).last() == names[t as int]);
                                assert(names[t as int] == bindings@[t as int].0@);
                            }
                            t = t + 1;
                        }
                        proof {
                            assert(names.take(names.len() as int) =~= names);
                            lemma_bump_others_bound(env@, names, name@);
                            assert forall|k: Seq<char>| rest@.contains_key(k) implies #[trigger] rest@[k]
                                + gen_room(bsv[j as int].1) < u64::MAX by {
                                assert(rest@[k] <= gen_or_zero(env@, k) + names.len());
                                if env@.contains_key(k) {
                                    assert(env@[k] + room < u64::MAX);
                                }
                            }
                            assert(env_ok(rest@, gen_room(value@)));
                        }
                        let v2 = mangle(&rest, value);
                        proof {
                            assert(v2@ == spec_elem.1);
                        }
                        v2
                    },
                };
                let gopt = all.lookup(name);
                proof {
                    lemma_bump_names_bound(env@, names);
                    assert(names.contains(name@)) by {
                        assert(names[j as int] == name@);
                    }
                    assert(names.to_set().contains(name@));
                    assert(allm.dom().contains(name@));
                }
                let g: u64 = match gopt {
                    Some(g) => g,
                    None => {
                        proof {
                            assert(false);
                        }
                        0
                    },
                };
                let new_name = mangled_name(name, g);
                out_bs.push((new_name, mangled_value));
                proof {
                    assert(allm[name@] == g as nat);
                    assert(spec_elem.0 == mangled(name@, allm[name@]));
                }
                j = j + 1;
            }
            // Rename the body under the extended environment.
            let mut out_body: Vec<Expr> = Vec::new();
            let mut b: usize = 0;
            while b < body.len()
                invariant
                    b <= body@.len(),
                    out_body@.len() == b,
                    all.wf(),
                    all@ == allm,
                    forall|t: int|
                        0 <= t < b ==> #[trigger] out_body@[t]@ == mangle_spec(allm, body@[t]@),
                decreases body@.len() - b,
            {
                proof {
                    lemma_gen_room_seq_ge(exprs_view(body@), b as int);
                    assert(exprs_view(body@)[b as int] == body@[b as int]@);
                    lemma_bump_names_bound(env@, names);
                    assert forall|k: Seq<char>| allm.contains_key(k) implies #[trigger] allm[k]
                        + gen_room(body@[b as int]@) < u64::MAX by {
                        assert(allm[k] <= gen_or_zero(env@, k) + names.len());
                        if env@.contains_key(k) {
                            assert(env@[k] + room < u64::MAX);
                        }
                    }
                    assert(env_ok(allm, gen_room(body@[b as int]@)));
                }
                let e2 = mangle(&all, &body[b]);
                out_body.push(e2);
                b = b + 1;
            }
            proof {
                assert forall|t: int| 0 <= t < out_bs@.len() implies bindings_view(out_bs@)[t]
                    == mangle_bindings_spec(env@, bsv)[t] by {
                    assert(bindings_view(out_bs@)[t] == (out_bs@[t].0@, expr_view(out_bs@[t].1)));
                }
                assert(bindings_view(out_bs@) =~= mangle_bindings_spec(env@, bsv));
                assert forall|t: int| 0 <= t < out_body@.len() implies exprs_view(out_body@)[t]
                    == mangle_seq_spec(allm, exprs_view(body@))[t] by {
                    assert(exprs_view(out_body@)[t] == out_body@[t]@);
                    assert(exprs_view(body@)[t] == body@[t]@);
                }
                assert(exprs_view(out_body@) =~= mangle_seq_spec(allm, exprs_view(body@)));
            }
            Expr::Let { bindings: out_bs, body: out_body }
        },
        Expr::List(l) => {
            let ghost lv = exprs_view(l@);
            let mut out: Vec<Expr> = Vec::new();
            let mut i: usize = 0;
            while i < l.len()
                invariant
                    i <= l@.len(),
                    out@.len() == i,
                    forall|t: int| 0 <= t < i ==> #[trigger] out@[t]@ == mangle_spec(env@, l@[t]@),
                decreases l@.len() - i,
            {
                proof {
                    lemma_gen_room_seq_ge(lv, i as int);
                    assert(lv[i as int] == l@[i as int]@);
                    lemma_env_ok_weaken(env@, gen_room(prog@), gen_room(lv[i as int]));
                }
                let e2 = mangle(env, &l[i]);
                out.push(e2);
                i = i + 1;
            }
            proof {
                assert forall|t: int| 0 <= t < out@.len() implies exprs_view(out@)[t]
                    == mangle_seq_spec(env@, lv)[t] by {
                    assert(exprs_view(out@)[t] == out@[t]@);
                    assert(lv[t] == l@[t]@);
                }
                assert(exprs_view(out@) =~= mangle_seq_spec(env@, lv));
            }
            Expr::List(out)
        },
        Expr::Cond { pred, conseq, alt } => {
            proof {
                lemma_env_ok_weaken(env@, gen_room(prog@), gen_room((**pred)@));
            }
            let p2 = mangle(env, &**pred);
            proof {
                lemma_env_ok_weaken(env@, gen_room(prog@), gen_room((**conseq)@));
            }
            let c2 = mangle(env, &**conseq);
            let a2: Option<Box<Expr>> = match alt {
                Some(a) => {
                    proof {
                        lemma_env_ok_weaken(env@, gen_room(prog@), gen_room((**a)@));
                    }
                    Some(Box::new(mangle(env, &**a)))
                },
                None => None,
            };
            Expr::Cond { pred: Box::new(p2), conseq: Box::new(c2), alt: a2 }
        },
        Expr::Lambda(c) => {
            let ghost cv = code_view(*c);
            let mut out_body: Vec<Expr> = Vec::new();
            let mut i: usize = 0;
            while i < c.body.len()
                invariant
                    i <= c.body@.len(),
                    out_body@.len() == i,
                    forall|t: int|
                        0 <= t < i ==> #[trigger] out_body@[t]@ == mangle_spec(env@, c.body@[t]@),
                decreases c.body@.len() - i,
            {
                proof {
                    lemma_gen_room_seq_ge(cv.body, i as int);
                    assert(cv.body[i as int] == c.body@[i as int]@);
                    lemma_env_ok_weaken(env@, gen_room(prog@), gen_room(cv.body[i as int]));
                }
                let e2 = mangle(env, &c.body[i]);
                out_body.push(e2);
                i = i + 1;
            }
            proof {
                assert forall|t: int| 0 <= t < out_body@.len() implies exprs_view(out_body@)[t]
                    == mangle_seq_spec(env@, cv.body)[t] by {
                    assert(exprs_view(out_body@)[t] == out_body@[t]@);
                    assert(cv.body[t] == c.body@[t]@);
                }
                assert(exprs_view(out_body@) =~= mangle_seq_spec(env@, cv.body));
            }
            let out_code = Code {
                name: copy_opt_name(&c.name),
                formals: copy_names(&c.formals),
                free: copy_names(&c.free),
                body: out_body,
            };
            proof {
                assert(out_code.name == c.name);
                assert(code_view(out_code).name == cv.name);
                assert(code_view(out_code).formals == cv.formals);
                assert(code_view(out_code).free == cv.free);
            }
            Expr::Lambda(out_code)
        },
        Expr::Number(n) => Expr::Number(*n),
        Expr::Boolean(b) => Expr::Boolean(*b),
        Expr::Str(s) => Expr::Str(s.clone()),
        Expr::Symbol(s) => Expr::Symbol(s.clone()),
        Expr::Nil => Expr::Nil,
    }
}

/// Rename every top-level expression of a program under an empty scope: the
/// entry point of the pass.  The output has the input's length and is
/// `mangle_spec` of each expression under the empty environment.
///
/// The bound on `gen_room` only rules out binding forms nested beyond what
/// a `u64` generation counter can count; any tree that fits in memory is far
/// below it.
#[verifier::loop_isolation(false)]
pub fn rename(prog: &[Expr]) -> (r: Vec<Expr>)
    requires
        forall|i: int| 0 <= i < prog@.len() ==> gen_room(#[trigger] prog@[i]@) < u64::MAX,
    ensures
        r@.len() == prog@.len(),
        exprs_view(r@) == rename_spec(exprs_view(prog@)),
{
    let e0 = Env::new();
    let mut out: Vec<Expr> = Vec::new();
    let mut i: usize = 0;
    while i < prog.len()
        invariant
            i <= prog@.len(),
            out@.len() == i,
            e0.wf(),
            e0@ == Map::<Seq<char>, nat>::empty(),
            forall|t: int|
                0 <= t < i ==> #[trigger] out@[t]@ == mangle_spec(Map::empty(), prog@[t]@),
        decreases prog@.len() - i,
    {
        let e2 = mangle(&e0, &prog[i]);
        out.push(e2);
        i = i + 1;
    }
    proof {
        assert forall|t: int| 0 <= t < out@.len() implies exprs_view(out@)[t] == rename_spec(
            exprs_view(prog@),
        )[t] by {
            assert(exprs_view(out@)[t] == out@[t]@);
            assert(exprs_view(prog@)[t] == prog@[t]@);
        }
        assert(exprs_view(out@) =~= rename_spec(exprs_view(prog@)));
    }
    out
}

} // verus!
