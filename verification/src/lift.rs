//! The lifting pass: let-bound function literals move to the function table,
//! string and symbol literals are interned into their pools, everything else
//! keeps its shape.
use vstd::prelude::*;
use crate::ast::{
    bindings_view, code_view, copy_names, expr_view, exprs_view, Code, CodeV, Expr, ExprV,
};
use crate::state::{intern_spec, table_contains, table_set, State, StateV};

verus! {

/// Why the lifting pass gives up.
#[derive(Debug, PartialEq, Eq, Structural)]
pub enum Error {
    /// A function literal stood anywhere but as the direct value of a `let`
    /// binding; only named, let-bound definitions are lifted.
    UnsupportedExpression,
}

/// One pool never shrinks and never reorders: the other only appends.
pub open spec fn pool_grows(a: Seq<Seq<char>>, b: Seq<Seq<char>>) -> bool {
    &&& a.len() <= b.len()
    &&& forall|i: int| 0 <= i < a.len() ==> a[i] == b[i]
}

/// The state only grows: pools keep every value at its index, and a name
/// once in the function table stays there.
pub open spec fn state_grows(a: StateV, b: StateV) -> bool {
    &&& pool_grows(a.strings, b.strings)
    &&& pool_grows(a.symbols, b.symbols)
    &&& forall|k: Seq<char>|
        table_contains(a.functions, k) ==> #[trigger] table_contains(b.functions, k)
}

/// Registering a definition keeps every present name and adds the new one.
pub proof fn lemma_table_set_grows(t: Seq<(Seq<char>, CodeV)>, k: Seq<char>, v: CodeV)
    ensures
        forall|k2: Seq<char>|
            table_contains(t, k2) ==> #[trigger] table_contains(table_set(t, k, v), k2),
        table_contains(table_set(t, k, v), k),
{
    let t2 = table_set(t, k, v);
    if table_contains(t, k) {
        let i = crate::state::table_index(t, k) as int;
        lemma_table_index_in_range(t, k);
        assert(t2[i].0 == k);
        assert forall|k2: Seq<char>| table_contains(t, k2) implies #[trigger] table_contains(
            t2,
            k2,
        ) by {
            let w = choose|w: int| 0 <= w < t.len() && #[trigger] t[w].0 == k2;
            if w == i {
                assert(t[w].0 == k);
                assert(t2[i].0 == k2);
            } else {
                assert(t2[w].0 == k2);
            }
        }
    } else {
        assert(t2[t.len() as int].0 == k);
        assert forall|k2: Seq<char>| table_contains(t, k2) implies #[trigger] table_contains(
            t2,
            k2,
        ) by {
            let w = choose|w: int| 0 <= w < t.len() && #[trigger] t[w].0 == k2;
            assert(t2[w].0 == k2);
        }
    }
}

/// A key the table holds has its first entry inside the table.
pub proof fn lemma_table_index_in_range(t: Seq<(Seq<char>, CodeV)>, k: Seq<char>)
    requires
        table_contains(t, k),
    ensures
        crate::state::table_index(t, k) < t.len(),
        t[crate::state::table_index(t, k) as int].0 == k,
    decreases t.len(),
{
    if t.len() > 0 && t.first().0 != k {
        let w = choose|w: int| 0 <= w < t.len() && #[trigger] t[w].0 == k;
        assert(t.drop_first()[w - 1].0 == k);
        lemma_table_index_in_range(t.drop_first(), k);
    }
}

/// What lifting one expression does to the state, and what it leaves behind,
/// or nothing for the unsupported inline function literal.
///
/// String and symbol literals are interned and returned unchanged; a `let`
/// loses its function-literal bindings to the function table and keeps the
/// rest in order; lists and conditionals are rebuilt around their lifted
/// parts; every other expression passes through untouched.
pub open spec fn lift1_spec(st: StateV, e: ExprV) -> Option<(StateV, ExprV)>
    decreases e,
{
    match e {
        ExprV::Str(s) => Some(
            (StateV { strings: intern_spec(st.strings, s).0, ..st }, ExprV::Str(s)),
        ),
        ExprV::Symbol(s) => Some(
            (StateV { symbols: intern_spec(st.symbols, s).0, ..st }, ExprV::Symbol(s)),
        ),
        ExprV::Let { bindings, body } => match lift_bindings_spec(st, bindings) {
            None => None,
            Some(pb) => match lift_seq_spec(pb.0, body) {
                None => None,
                Some(p2) => Some((p2.0, ExprV::Let { bindings: pb.1, body: p2.1 })),
            },
        },
        ExprV::List(l) => match lift_seq_spec(st, l) {
            None => None,
            Some(p) => Some((p.0, ExprV::List(p.1))),
        },
        ExprV::Cond { pred, conseq, alt } => match lift1_spec(st, *pred) {
            None => None,
            Some(pp) => match lift1_spec(pp.0, *conseq) {
                None => None,
                Some(pc) => match alt {
                    None => Some(
                        (
                            pc.0,
                            ExprV::Cond {
                                pred: Box::new(pp.1),
                                conseq: Box::new(pc.1),
                                alt: None,
                            },
                        ),
                    ),
                    Some(a) => match lift1_spec(pc.0, *a) {
                        None => None,
                        Some(pa) => Some(
                            (
                                pa.0,
                                ExprV::Cond {
                                    pred: Box::new(pp.1),
                                    conseq: Box::new(pc.1),
                                    alt: Some(Box::new(pa.1)),
                                },
                            ),
                        ),
                    },
                },
            },
        },
        ExprV::Lambda(_) => None,
        _ => Some((st, e)),
    }
}

/// Lifting a binding list in listed order: a function-literal value has its
/// body lifted and its record registered under the binding's name, leaving no
/// trace among the kept bindings; any other value is lifted and kept.
pub open spec fn lift_bindings_spec(st: StateV, bs: Seq<(Seq<char>, ExprV)>) -> Option<
    (StateV, Seq<(Seq<char>, ExprV)>),
>
    decreases bs,
{
    if bs.len() == 0 {
        Some((st, Seq::empty()))
    } else {
        let n = bs.first().0;
        match bs.first().1 {
            ExprV::Lambda(c) => match lift_seq_spec(st, c.body) {
                None => None,
                Some(p) => {
                    let record = CodeV {
                        name: Some(n),
                        formals: c.formals,
                        free: c.free,
                        body: p.1,
                    };
                    let st2 = StateV { functions: table_set(p.0.functions, n, record), ..p.0 };
                    lift_bindings_spec(st2, bs.drop_first())
                },
            },
            _ => match lift1_spec(st, bs.first().1) {
                None => None,
                Some(pv) => match lift_bindings_spec(pv.0, bs.drop_first()) {
                    None => None,
                    Some(pr) => Some((pr.0, seq![(n, pv.1)] + pr.1)),
                },
            },
        }
    }
}

/// Lifting a sequence of expressions in order against one threaded state.
pub open spec fn lift_seq_spec(st: StateV, es: Seq<ExprV>) -> Option<(StateV, Seq<ExprV>)>
    decreases es,
{
    if es.len() == 0 {
        Some((st, Seq::empty()))
    } else {
        match lift1_spec(st, es.first()) {
            None => None,
            Some(p) => match lift_seq_spec(p.0, es.drop_first()) {
                None => None,
                Some(pr) => Some((pr.0, seq![p.1] + pr.1)),
            },
        }
    }
}

pub proof fn lemma_grows_refl(a: StateV)
    ensures
        state_grows(a, a),
{
}

pub proof fn lemma_grows_trans(a: StateV, b: StateV, c: StateV)
    requires
        state_grows(a, b),
        state_grows(b, c),
    ensures
        state_grows(a, c),
{
    assert forall|i: int| 0 <= i < a.strings.len() implies a.strings[i] == c.strings[i] by {
        assert(a.strings[i] == b.strings[i]);
    }
    assert forall|i: int| 0 <= i < a.symbols.len() implies a.symbols[i] == c.symbols[i] by {
        assert(a.symbols[i] == b.symbols[i]);
    }
    assert forall|k: Seq<char>| table_contains(a.functions, k) implies #[trigger] table_contains(
        c.functions,
        k,
    ) by {
        assert(table_contains(b.functions, k));
    }
}

/// Lift a single expression against the shared compiler state.
#[verifier::loop_isolation(false)]
pub fn lift1(s: &mut State, prog: &Expr) -> (r: Result<Expr, Error>)
    requires
        old(s).wf(),
    ensures
        final(s).wf(),
        state_grows(old(s)@, final(s)@),
        match lift1_spec(old(s)@, prog@) {
            Some(p) => r matches Ok(e2) && e2@ == p.1 && final(s)@ == p.0,
            None => r matches Err(er) && er == Error::UnsupportedExpression,
        },
    decreases *prog,
{
    match prog {
        Expr::Str(v) => {
            let ghost st0 = s@;
            s.intern_string(v);
            proof {
                assert(s@ =~= StateV { strings: intern_spec(st0.strings, v@).0, ..st0 });
                assert(state_grows(st0, s@));
            }
            Ok(Expr::Str(v.clone()))
        },
        Expr::Symbol(v) => {
            let ghost st0 = s@;
            s.intern_symbol(v);
            proof {
                assert(s@ =~= StateV { symbols: intern_spec(st0.symbols, v@).0, ..st0 });
                assert(state_grows(st0, s@));
            }
            Ok(Expr::Symbol(v.clone()))
        },
        Expr::Let { bindings, body } => {
            let ghost st0 = s@;
            let ghost bsv = bindings_view(bindings@);
            let mut kept: Vec<(String, Expr)> = Vec::new();
            let mut j: usize = 0;
            proof {
                lemma_grows_refl(st0);
                assert(bsv.skip(0) =~= bsv);
                match lift_bindings_spec(st0, bsv) {
                    Some(p) => {
                        assert(bindings_view(kept@) + p.1 =~= p.1);
                    },
                    None => {},
                }
            }
            while j < bindings.len()
                invariant
                    j <= bindings@.len(),
                    kept@.len() <= j,
                    s.wf(),
                    state_grows(st0, s@),
                    match lift_bindings_spec(s@, bsv.skip(j as int)) {
                        None => lift_bindings_spec(st0, bsv) is None,
                        Some(p) => lift_bindings_spec(st0, bsv) == Some(
                            (p.0, bindings_view(kept@) + p.1),
                        ),
                    },
                decreases bindings@.len() - j,
            {
                proof {
                    assert(bsv.skip(j as int).first() == bsv[j as int]);
                    assert(bsv.skip(j as int).drop_first() =~= bsv.skip(j as int + 1));
                    assert(bsv[j as int] == (bindings@[j as int].0@, expr_view(
                        bindings@[j as int].1,
                    )));
                }
                let name = &bindings[j].0;
                let value = &bindings[j].1;
                match value {
                    Expr::Lambda(c) => {
                        proof {
                            assert(value@ == ExprV::Lambda(code_view(*c)));
                        }
                        let ghost stj = s@;
                        let lifted_body = match lift(s, c.body.as_slice()) {
                            Ok(v) => v,
                            Err(e) => {
                                proof {
                                    lemma_grows_trans(st0, stj, s@);
                                }
                                return Err(e);
                            },
                        };
                        let record = Code {
                            name: Some(name.clone()),
                            formals: copy_names(&c.formals),
                            free: copy_names(&c.free),
                            body: lifted_body,
                        };
                        let ghost st1 = s@;
                        proof {
                            assert(code_view(record).name == Some(name@));
                            assert(code_view(record).formals == code_view(*c).formals);
                            assert(code_view(record).free == code_view(*c).free);
                        }
                        s.set_function(name.clone(), record);
                        proof {
                            lemma_table_set_grows(st1.functions, name@, code_view(record));
                            assert(state_grows(st1, s@));
                            lemma_grows_trans(st0, stj, st1);
                            lemma_grows_trans(st0, st1, s@);
                            assert(s@ =~= StateV {
                                functions: table_set(st1.functions, name@, code_view(record)),
                                ..st1
                            });
                        }
                    },
                    _ => {
                        proof {
                            assert(!(bsv[j as int].1 is Lambda));
                        }
                        let ghost stj = s@;
                        let v2 = match lift1(s, value) {
                            Ok(x) => x,
                            Err(e) => {
                                proof {
                                    lemma_grows_trans(st0, stj, s@);
                                }
                                return Err(e);
                            },
                        };
                        let ghost old_kept = kept@;
                        kept.push((name.clone(), v2));
                        proof {
                            lemma_grows_trans(st0, stj, s@);
                            assert forall|t: int| 0 <= t < kept@.len() implies bindings_view(
                                kept@,
                            )[t] == (bindings_view(old_kept) + seq![(name@, v2@)])[t] by {
                                if t < old_kept.len() {
                                    assert(kept@[t] == old_kept[t]);
                                }
                            }
                            assert(bindings_view(kept@) =~= bindings_view(old_kept) + seq![
                                (name@, v2@),
                            ]);
                            match lift_bindings_spec(s@, bsv.skip(j as int + 1)) {
                                Some(p2) => {
                                    assert((bindings_view(old_kept) + (seq![(name@, v2@)] + p2.1))
                                        =~= (bindings_view(kept@) + p2.1));
                                },
                                None => {},
                            }
                        }
                    },
                }
                j = j + 1;
            }
            proof {
                assert(bsv.skip(bindings@.len() as int) =~= Seq::<(Seq<char>, ExprV)>::empty());
                assert(bindings_view(kept@) + Seq::<(Seq<char>, ExprV)>::empty() =~= bindings_view(
                    kept@,
                ));
            }
            let ghost stb = s@;
            let new_body = match lift(s, body.as_slice()) {
                Ok(v) => v,
                Err(e) => {
                    proof {
                        lemma_grows_trans(st0, stb, s@);
                    }
                    return Err(e);
                },
            };
            proof {
                lemma_grows_trans(st0, stb, s@);
            }
            Ok(Expr::Let { bindings: kept, body: new_body })
        },
        Expr::List(l) => {
            match lift(s, l.as_slice()) {
                Ok(v) => Ok(Expr::List(v)),
                Err(e) => Err(e),
            }
        },
        Expr::Cond { pred, conseq, alt } => {
            let ghost st0 = s@;
            let p2 = match lift1(s, &**pred) {
                Ok(x) => x,
                Err(e) => return Err(e),
            };
            let ghost s1 = s@;
            let c2 = match lift1(s, &**conseq) {
                Ok(x) => x,
                Err(e) => {
                    proof {
                        lemma_grows_trans(st0, s1, s@);
                    }
                    return Err(e);
                },
            };
            let ghost s2 = s@;
            proof {
                lemma_grows_trans(st0, s1, s2);
            }
            let a2: Option<Box<Expr>> = match alt {
                Some(a) => {
                    match lift1(s, &**a) {
                        Ok(x) => Some(Box::new(x)),
                        Err(e) => {
                            proof {
                                lemma_grows_trans(st0, s2, s@);
                            }
                            return Err(e);
                        },
                    }
                },
                None => None,
            };
            proof {
                lemma_grows_trans(st0, s2, s@);
            }
            Ok(Expr::Cond { pred: Box::new(p2), conseq: Box::new(c2), alt: a2 })
        },
        Expr::Lambda(_) => {
            proof {
                lemma_grows_refl(s@);
            }
            Err(Error::UnsupportedExpression)
        },
        Expr::Number(n) => {
            proof {
                lemma_grows_refl(s@);
            }
            Ok(Expr::Number(*n))
        },
        Expr::Boolean(b) => {
            proof {
                lemma_grows_refl(s@);
            }
            Ok(Expr::Boolean(*b))
        },
        Expr::Nil => {
            proof {
                lemma_grows_refl(s@);
            }
            Ok(Expr::Nil)
        },
        Expr::Identifier(n) => {
            proof {
                lemma_grows_refl(s@);
            }
            Ok(Expr::Identifier(n.clone()))
        },
    }
}

/// Lift every expression of a program in listed order against one shared
/// compiler state: the entry point of the pass.
#[verifier::loop_isolation(false)]
pub fn lift(s: &mut State, prog: &[Expr]) -> (r: Result<Vec<Expr>, Error>)
    requires
        old(s).wf(),
    ensures
        final(s).wf(),
        state_grows(old(s)@, final(s)@),
        r matches Ok(v) ==> v@.len() == prog@.len(),
        match lift_seq_spec(old(s)@, exprs_view(prog@)) {
            Some(p) => r matches Ok(v) && exprs_view(v@) == p.1 && final(s)@ == p.0,
            None => r matches Err(er) && er == Error::UnsupportedExpression,
        },
    decreases prog@,
{
    let ghost st0 = s@;
    let ghost esv = exprs_view(prog@);
    let mut out: Vec<Expr> = Vec::new();
    let mut i: usize = 0;
    proof {
        lemma_grows_refl(st0);
        assert(esv.skip(0) =~= esv);
        match lift_seq_spec(st0, esv) {
            Some(p) => {
                assert(exprs_view(out@) + p.1 =~= p.1);
            },
            None => {},
        }
    }
    while i < prog.len()
        invariant
            i <= prog@.len(),
            out@.len() == i,
            s.wf(),
            state_grows(st0, s@),
            match lift_seq_spec(s@, esv.skip(i as int)) {
                None => lift_seq_spec(st0, esv) is None,
                Some(p) => lift_seq_spec(st0, esv) == Some((p.0, exprs_view(out@) + p.1)),
            },
        decreases prog@.len() - i,
    {
        proof {
            assert(esv.skip(i as int).first() == esv[i as int]);
            assert(esv.skip(i as int).drop_first() =~= esv.skip(i as int + 1));
            assert(esv[i as int] == prog@[i as int]@);
        }
        let ghost sti = s@;
        let e2 = match lift1(s, &prog[i]) {
            Ok(x) => x,
            Err(e) => {
                proof {
                    lemma_grows_trans(st0, sti, s@);
                }
                return Err(e);
            },
        };
        let ghost old_out = out@;
        out.push(e2);
        proof {
            lemma_grows_trans(st0, sti, s@);
            assert forall|t: int| 0 <= t < out@.len() implies exprs_view(out@)[t] == (exprs_view(
                old_out,
            ) + seq![e2@])[t] by {
                if t < old_out.len() {
                    assert(out@[t] == old_out[t]);
                }
            }
            assert(exprs_view(out@) =~= exprs_view(old_out) + seq![e2@]);
            match lift_seq_spec(s@, esv.skip(i as int + 1)) {
                Some(p2) => {
                    assert((exprs_view(old_out) + (seq![e2@] + p2.1)) =~= (exprs_view(out@)
                        + p2.1));
                },
                None => {},
            }
        }
        i = i + 1;
    }
    proof {
        assert(esv.skip(prog@.len() as int) =~= Seq::<ExprV>::empty());
        assert(exprs_view(out@) + Seq::<ExprV>::empty() =~= exprs_view(out@));
    }
    Ok(out)
}

} // verus!
