//! Laws the passes obey, stated over their mathematical models and proved
//! once for all inputs.
use vstd::prelude::*;
use crate::ast::ExprV;
use crate::env::{bump_names, spec_bump};
use crate::lift::{lift1_spec, lift_seq_spec};
use crate::rename::{mangle_spec, mangle_seq_spec};
use crate::state::{distinct_pool, intern_spec, pool_index};

verus! {

/// A name no binding of the `let` mentions keeps its generation.
proof fn lemma_bump_names_untouched(env: Map<Seq<char>, nat>, names: Seq<Seq<char>>, k: Seq<char>)
    requires
        env.contains_key(k),
        !names.contains(k),
    ensures
        bump_names(env, names).contains_key(k),
        bump_names(env, names)[k] == env[k],
    decreases names.len(),
{
    if names.len() > 0 {
        assert(!names.drop_last().contains(k)) by {
            if names.drop_last().contains(k) {
                let i = choose|i: int|
                    0 <= i < names.drop_last().len() && names.drop_last()[i] == k;
                assert(names[i] == k);
            }
        }
        lemma_bump_names_untouched(env, names.drop_last(), k);
        assert(names[names.len() - 1] != k);
    }
}

/// A plain binding value can see the outer scope but never its own new
/// binding: the sibling-only environment leaves the binding's own name at
/// exactly the generation the enclosing scope gave it, bound or not.
pub proof fn lemma_sibling_env_keeps_own_generation(
    env: Map<Seq<char>, nat>,
    names: Seq<Seq<char>>,
    me: Seq<char>,
)
    ensures
        crate::env::bump_others(env, names, me).contains_key(me) == env.contains_key(me),
        env.contains_key(me) ==> crate::env::bump_others(env, names, me)[me] == env[me],
    decreases names.len(),
{
    if names.len() > 0 {
        lemma_sibling_env_keeps_own_generation(env, names.drop_last(), me);
    }
}

/// Lifting never drops or invents a top-level expression: when it succeeds
/// on a sequence, the result has the sequence's length.
pub proof fn lemma_lift_seq_len(st: crate::state::StateV, es: Seq<ExprV>)
    ensures
        match lift_seq_spec(st, es) {
            Some(p) => p.1.len() == es.len(),
            None => true,
        },
    decreases es,
{
    if es.len() > 0 {
        match lift1_spec(st, es.first()) {
            Some(p) => {
                lemma_lift_seq_len(p.0, es.drop_first());
            },
            None => {},
        }
    }
}

/// Shadowing is strict: a name already in scope that a `let` rebinds moves
/// to a strictly higher generation in the extended environment, so inner
/// references never collide with the outer binding's mangled name.
pub proof fn lemma_shadow_strict(env: Map<Seq<char>, nat>, names: Seq<Seq<char>>, k: Seq<char>)
    requires
        env.contains_key(k),
        names.contains(k),
    ensures
        bump_names(env, names).contains_key(k),
        bump_names(env, names)[k] > env[k],
    decreases names.len(),
{
    let dl = names.drop_last();
    let prev = bump_names(env, dl);
    if names.last() == k {
        if dl.contains(k) {
            lemma_shadow_strict(env, dl, k);
        } else {
            lemma_bump_names_untouched(env, dl, k);
        }
        assert(spec_bump(prev, k)[k] == prev[k] + 1);
    } else {
        assert(dl.contains(k)) by {
            let i = choose|i: int| 0 <= i < names.len() && names[i] == k;
            assert(dl[i] == k);
        }
        lemma_shadow_strict(env, dl, k);
    }
}

/// A value a pool holds has its first occurrence inside the pool.
pub proof fn lemma_pool_index_in_range(p: Seq<Seq<char>>, s: Seq<char>)
    requires
        p.contains(s),
    ensures
        pool_index(p, s) < p.len(),
        p[pool_index(p, s) as int] == s,
    decreases p.len(),
{
    if p.len() > 0 && p.first() != s {
        let w = choose|w: int| 0 <= w < p.len() && p[w] == s;
        assert(p.drop_first()[w - 1] == s);
        assert(p.drop_first().contains(s));
        lemma_pool_index_in_range(p.drop_first(), s);
    }
}

/// Interning the same value twice yields the same index both times, and the
/// second call leaves the pool exactly as the first left it.
pub proof fn lemma_intern_idempotent(p: Seq<Seq<char>>, s: Seq<char>)
    ensures
        intern_spec(intern_spec(p, s).0, s).0 == intern_spec(p, s).0,
        intern_spec(intern_spec(p, s).0, s).1 == intern_spec(p, s).1,
{
    if p.contains(s) {
    } else {
        let p1 = p.push(s);
        assert(p1[p.len() as int] == s);
        assert(p1.contains(s));
        assert forall|j: int| 0 <= j < p.len() implies p1[j] != s by {
            if p1[j] == s {
                assert(p[j] == s);
                assert(p.contains(s));
            }
        }
        crate::state::lemma_pool_index_at(p1, s, p.len() as int);
    }
}

/// Interning keeps the pool's values pairwise distinct, and the index handed
/// back is the interned value's position in the pool: an old value keeps its
/// first-seen index, a new value takes the next free one, so the indices of
/// `N` distinct values interned in order are exactly `0` to `N - 1`.
pub proof fn lemma_intern_index(p: Seq<Seq<char>>, s: Seq<char>)
    requires
        distinct_pool(p),
    ensures
        distinct_pool(intern_spec(p, s).0),
        intern_spec(p, s).1 < intern_spec(p, s).0.len(),
        intern_spec(p, s).0[intern_spec(p, s).1 as int] == s,
        p.contains(s) ==> intern_spec(p, s).0 == p && intern_spec(p, s).1 == pool_index(p, s),
        !p.contains(s) ==> intern_spec(p, s).1 == p.len() && intern_spec(p, s).0.len() == p.len()
            + 1,
{
    if p.contains(s) {
        lemma_pool_index_in_range(p, s);
    } else {
        let p1 = p.push(s);
        assert forall|a: int, b: int| 0 <= a < b < p1.len() implies p1[a] != p1[b] by {
            if b < p1.len() - 1 {
                assert(p[a] != p[b]);
            } else {
                assert(p1[b] == s);
                if p1[a] == s {
                    assert(p[a] == s);
                    assert(p.contains(s));
                }
            }
        }
    }
}

/// No binding form anywhere in the expression.
pub open spec fn let_free(e: ExprV) -> bool
    decreases e,
{
    match e {
        ExprV::Let { .. } => false,
        ExprV::List(l) => let_free_seq(l),
        ExprV::Cond { pred, conseq, alt } => let_free(*pred) && let_free(*conseq) && (match alt {
            Some(a) => let_free(*a),
            None => true,
        }),
        ExprV::Lambda(c) => let_free_seq(c.body),
        _ => true,
    }
}

/// No binding form anywhere in the sequence.
pub open spec fn let_free_seq(es: Seq<ExprV>) -> bool
    decreases es,
{
    if es.len() == 0 {
        true
    } else {
        let_free(es.first()) && let_free_seq(es.drop_first())
    }
}

proof fn lemma_let_free_seq_elem(es: Seq<ExprV>, i: int)
    requires
        let_free_seq(es),
        0 <= i < es.len(),
    ensures
        let_free(es[i]),
    decreases i,
{
    if i > 0 {
        lemma_let_free_seq_elem(es.drop_first(), i - 1);
    }
}

/// An expression with no binding form renames to itself under the empty
/// environment: the pass only rewrites bound names, and with nothing bound
/// every identifier is free and left alone.
pub proof fn lemma_rename_identity(e: ExprV)
    requires
        let_free(e),
    ensures
        mangle_spec(Map::empty(), e) == e,
    decreases e,
{
    let env = Map::<Seq<char>, nat>::empty();
    match e {
        ExprV::List(l) => {
            lemma_rename_identity_seq(l);
        },
        ExprV::Cond { pred, conseq, alt } => {
            lemma_rename_identity(*pred);
            lemma_rename_identity(*conseq);
            match alt {
                Some(a) => {
                    lemma_rename_identity(*a);
                },
                None => {},
            }
        },
        ExprV::Lambda(c) => {
            lemma_rename_identity_seq(c.body);
            assert(mangle_spec(env, e) =~~= e);
        },
        _ => {},
    }
}

/// A sequence with no binding form renames to itself under the empty
/// environment.
pub proof fn lemma_rename_identity_seq(es: Seq<ExprV>)
    requires
        let_free_seq(es),
    ensures
        mangle_seq_spec(Map::empty(), es) == es,
    decreases es,
{
    assert forall|i: int| 0 <= i < es.len() implies mangle_spec(Map::empty(), es[i]) == es[i] by {
        lemma_let_free_seq_elem(es, i);
        lemma_rename_identity(es[i]);
    }
    assert(mangle_seq_spec(Map::empty(), es) =~= es);
}

/// Nothing the lifting pass acts on: no binding form, no function literal,
/// no string or symbol literal, anywhere.
pub open spec fn inert(e: ExprV) -> bool
    decreases e,
{
    match e {
        ExprV::Let { .. } => false,
        ExprV::Lambda(_) => false,
        ExprV::Str(_) => false,
        ExprV::Symbol(_) => false,
        ExprV::List(l) => inert_seq(l),
        ExprV::Cond { pred, conseq, alt } => inert(*pred) && inert(*conseq) && (match alt {
            Some(a) => inert(*a),
            None => true,
        }),
        _ => true,
    }
}

/// Nothing the lifting pass acts on, anywhere in the sequence.
pub open spec fn inert_seq(es: Seq<ExprV>) -> bool
    decreases es,
{
    if es.len() == 0 {
        true
    } else {
        inert(es.first()) && inert_seq(es.drop_first())
    }
}

/// An expression the lifting pass has nothing to do to comes back unchanged,
/// and so does the state: no pool and no table entry moves.
pub proof fn lemma_lift_identity(st: crate::state::StateV, e: ExprV)
    requires
        inert(e),
    ensures
        lift1_spec(st, e) == Some((st, e)),
    decreases e,
{
    match e {
        ExprV::List(l) => {
            lemma_lift_identity_seq(st, l);
        },
        ExprV::Cond { pred, conseq, alt } => {
            lemma_lift_identity(st, *pred);
            lemma_lift_identity(st, *conseq);
            match alt {
                Some(a) => {
                    lemma_lift_identity(st, *a);
                    assert(lift1_spec(st, e) =~~= Some((st, e)));
                },
                None => {
                    assert(lift1_spec(st, e) =~~= Some((st, e)));
                },
            }
        },
        _ => {},
    }
}

/// A sequence the lifting pass has nothing to do to comes back unchanged,
/// against an unchanged state.
pub proof fn lemma_lift_identity_seq(st: crate::state::StateV, es: Seq<ExprV>)
    requires
        inert_seq(es),
    ensures
        lift_seq_spec(st, es) == Some((st, es)),
    decreases es,
{
    if es.len() > 0 {
        lemma_lift_identity(st, es.first());
        lemma_lift_identity_seq(st, es.drop_first());
        assert(seq![es.first()] + es.drop_first() =~= es);
    }
}

} // verus!
