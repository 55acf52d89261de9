//! The compiler state the lifting pass populates: the function table and the
//! two literal pools, each a table whose insertion order is preserved.
use vstd::prelude::*;
use crate::ast::{code_view, names_view, Code, CodeV};

verus! {

/// Mathematical model of the compiler state.
#[verifier::ext_equal]
pub struct StateV {
    pub functions: Seq<(Seq<char>, CodeV)>,
    pub strings: Seq<Seq<char>>,
    pub symbols: Seq<Seq<char>>,
}

/// A pool holds pairwise distinct values, so each value has exactly one
/// index.
pub open spec fn distinct_pool(p: Seq<Seq<char>>) -> bool {
    forall|i: int, j: int| 0 <= i < j < p.len() ==> p[i] != p[j]
}

/// The index of the first occurrence of a value in a pool.
pub open spec fn pool_index(p: Seq<Seq<char>>, s: Seq<char>) -> nat
    decreases p.len(),
{
    if p.len() == 0 {
        0
    } else if p.first() == s {
        0
    } else {
        1 + pool_index(p.drop_first(), s)
    }
}

/// Interning a value: a value already in the pool leaves it unchanged and
/// names its first index; a new value takes the next free index, the pool's
/// size.
pub open spec fn intern_spec(p: Seq<Seq<char>>, s: Seq<char>) -> (Seq<Seq<char>>, nat) {
    if p.contains(s) {
        (p, pool_index(p, s))
    } else {
        (p.push(s), p.len())
    }
}

/// A scan that finds a value at position `i`, having missed it everywhere
/// before, has found its first occurrence.
pub proof fn lemma_pool_index_at(p: Seq<Seq<char>>, s: Seq<char>, i: int)
    requires
        0 <= i < p.len(),
        p[i] == s,
        forall|j: int| 0 <= j < i ==> p[j] != s,
    ensures
        p.contains(s),
        pool_index(p, s) == i,
    decreases i,
{
    if i > 0 {
        lemma_pool_index_at(p.drop_first(), s, i - 1);
    }
}

/// Whether a name is a key of the function table.
pub open spec fn table_contains(t: Seq<(Seq<char>, CodeV)>, k: Seq<char>) -> bool {
    exists|i: int| 0 <= i < t.len() && t[i].0 == k
}

/// The index of the first entry under a key.
pub open spec fn table_index(t: Seq<(Seq<char>, CodeV)>, k: Seq<char>) -> nat
    decreases t.len(),
{
    if t.len() == 0 {
        0
    } else if t.first().0 == k {
        0
    } else {
        1 + table_index(t.drop_first(), k)
    }
}

/// The definition the table holds under a key.
pub open spec fn table_lookup(t: Seq<(Seq<char>, CodeV)>, k: Seq<char>) -> CodeV {
    t[table_index(t, k) as int].1
}

/// Registering a definition: a fresh name is appended, keeping insertion
/// order; a present name has its definition replaced in place.
pub open spec fn table_set(t: Seq<(Seq<char>, CodeV)>, k: Seq<char>, v: CodeV) -> Seq<
    (Seq<char>, CodeV),
> {
    if table_contains(t, k) {
        t.update(table_index(t, k) as int, (k, v))
    } else {
        t.push((k, v))
    }
}

pub proof fn lemma_table_index_at(t: Seq<(Seq<char>, CodeV)>, k: Seq<char>, i: int)
    requires
        0 <= i < t.len(),
        t[i].0 == k,
        forall|j: int| 0 <= j < i ==> t[j].0 != k,
    ensures
        table_contains(t, k),
        table_index(t, k) == i,
    decreases i,
{
    if i > 0 {
        assert(t.drop_first()[i - 1].0 == k);
        assert forall|j: int| 0 <= j < i - 1 implies t.drop_first()[j].0 != k by {
            assert(t[j + 1].0 != k);
        }
        lemma_table_index_at(t.drop_first(), k, i - 1);
    }
}

/// The compiler state: the function table and the string and symbol pools,
/// each keyed by first-seen order.
#[derive(Debug, PartialEq, Eq)]
pub struct State {
    pub functions: Vec<(String, Code)>,
    pub strings: Vec<String>,
    pub symbols: Vec<String>,
}

/// The view of the function table.
pub open spec fn functions_view(fs: Seq<(String, Code)>) -> Seq<(Seq<char>, CodeV)> {
    Seq::new(fs.len(), |i: int| (fs[i].0@, code_view(fs[i].1)))
}

impl View for State {
    type V = StateV;

    open spec fn view(&self) -> StateV {
        StateV {
            functions: functions_view(self.functions@),
            strings: names_view(self.strings@),
            symbols: names_view(self.symbols@),
        }
    }
}

impl State {
    /// Each pool value and each table key appears once.
    pub open spec fn wf(&self) -> bool {
        &&& distinct_pool(self@.strings)
        &&& distinct_pool(self@.symbols)
        &&& forall|i: int, j: int|
            0 <= i < j < self@.functions.len() ==> #[trigger] self@.functions[i].0
                != #[trigger] self@.functions[j].0
    }

    /// The empty state every compilation starts from.
    pub fn new() -> (r: State)
        ensures
            r.wf(),
            r@.functions == Seq::<(Seq<char>, CodeV)>::empty(),
            r@.strings == Seq::<Seq<char>>::empty(),
            r@.symbols == Seq::<Seq<char>>::empty(),
    {
        let r = State { functions: Vec::new(), strings: Vec::new(), symbols: Vec::new() };
        proof {
            assert(r@.functions =~= Seq::<(Seq<char>, CodeV)>::empty());
            assert(r@.strings =~= Seq::<Seq<char>>::empty());
            assert(r@.symbols =~= Seq::<Seq<char>>::empty());
        }
        r
    }

    /// The definition registered under a name, if any.
    #[verifier::loop_isolation(false)]
    pub fn get_function(&self, name: &String) -> (r: Option<&Code>)
        requires
            self.wf(),
        ensures
            match r {
                Some(c) => table_contains(self@.functions, name@) && c@ == table_lookup(
                    self@.functions,
                    name@,
                ),
                None => !table_contains(self@.functions, name@),
            },
    {
        let mut i: usize = 0;
        while i < self.functions.len()
            invariant
                i <= self.functions@.len(),
                forall|j: int| 0 <= j < i ==> #[trigger] self@.functions[j].0 != name@,
            decreases self.functions@.len() - i,
        {
            let p = &self.functions[i];
            if p.0 == *name {
                proof {
                    assert(self@.functions[i as int].0 == name@);
                    lemma_table_index_at(self@.functions, name@, i as int);
                }
                return Some(&p.1);
            }
            proof {
                assert(self@.functions[i as int] == (self.functions@[i as int].0@, code_view(
                    self.functions@[i as int].1,
                )));
            }
            i = i + 1;
        }
        proof {
            assert forall|j: int| 0 <= j < self@.functions.len() implies #[trigger] self@.functions[j].0
                != name@ by {}
            if table_contains(self@.functions, name@) {
                let w = choose|w: int|
                    0 <= w < self@.functions.len() && #[trigger] self@.functions[w].0 == name@;
            }
        }
        None
    }

    /// The pool index of a string literal, if it was interned.
    pub fn string_index(&self, s: &String) -> (r: Option<usize>)
        requires
            self.wf(),
        ensures
            match r {
                Some(i) => self@.strings.contains(s@) && i as nat == pool_index(self@.strings, s@),
                None => !self@.strings.contains(s@),
            },
    {
        pool_find(&self.strings, s)
    }

    /// The pool index of a symbol literal, if it was interned.
    pub fn symbol_index(&self, s: &String) -> (r: Option<usize>)
        requires
            self.wf(),
        ensures
            match r {
                Some(i) => self@.symbols.contains(s@) && i as nat == pool_index(self@.symbols, s@),
                None => !self@.symbols.contains(s@),
            },
    {
        pool_find(&self.symbols, s)
    }

    /// Intern a string literal, handing back its index.
    pub fn intern_string(&mut self, s: &String) -> (idx: usize)
        requires
            old(self).wf(),
        ensures
            final(self).wf(),
            final(self)@.strings == intern_spec(old(self)@.strings, s@).0,
            idx as nat == intern_spec(old(self)@.strings, s@).1,
            final(self)@.symbols == old(self)@.symbols,
            final(self)@.functions == old(self)@.functions,
    {
        let idx = pool_intern(&mut self.strings, s);
        proof {
            assert(names_view(self.symbols@) =~= old(self)@.symbols);
            assert(functions_view(self.functions@) =~= old(self)@.functions);
        }
        idx
    }

    /// Intern a symbol literal, handing back its index.
    pub fn intern_symbol(&mut self, s: &String) -> (idx: usize)
        requires
            old(self).wf(),
        ensures
            final(self).wf(),
            final(self)@.symbols == intern_spec(old(self)@.symbols, s@).0,
            idx as nat == intern_spec(old(self)@.symbols, s@).1,
            final(self)@.strings == old(self)@.strings,
            final(self)@.functions == old(self)@.functions,
    {
        let idx = pool_intern(&mut self.symbols, s);
        proof {
            assert(names_view(self.strings@) =~= old(self)@.strings);
            assert(functions_view(self.functions@) =~= old(self)@.functions);
        }
        idx
    }

    /// Register a definition under a name.
    #[verifier::loop_isolation(false)]
    pub fn set_function(&mut self, name: String, code: Code)
        requires
            old(self).wf(),
        ensures
            final(self).wf(),
            final(self)@.functions == table_set(old(self)@.functions, name@, code@),
            final(self)@.strings == old(self)@.strings,
            final(self)@.symbols == old(self)@.symbols,
    {
        let ghost t0 = self@.functions;
        let mut i: usize = 0;
        while i < self.functions.len()
            invariant
                i <= self.functions@.len(),
                self == old(self),
                forall|j: int| 0 <= j < i ==> #[trigger] self@.functions[j].0 != name@,
            decreases self.functions@.len() - i,
        {
            let hit = self.functions[i].0 == name;
            proof {
                assert(self@.functions[i as int] == (self.functions@[i as int].0@, code_view(
                    self.functions@[i as int].1,
                )));
            }
            if hit {
                proof {
                    lemma_table_index_at(t0, name@, i as int);
                }
                self.functions.set(i, (name, code));
                proof {
                    assert forall|a: int, b: int|
                        0 <= a < b < self@.functions.len() implies #[trigger] self@.functions[a].0
                        != #[trigger] self@.functions[b].0 by {
                        assert(t0[a].0 != t0[b].0);
                        if a != i && b != i {
                            assert(self@.functions[a] == t0[a]);
                            assert(self@.functions[b] == t0[b]);
                        }
                    }
                    assert(functions_view(self.functions@) =~= table_set(t0, name@, code@));
                    assert(names_view(self.strings@) =~= old(self)@.strings);
                    assert(names_view(self.symbols@) =~= old(self)@.symbols);
                }
                return ;
            }
            i = i + 1;
        }
        proof {
            if table_contains(t0, name@) {
                let w = choose|w: int| 0 <= w < t0.len() && #[trigger] t0[w].0 == name@;
            }
            assert(!table_contains(t0, name@));
        }
        self.functions.push((name, code));
        proof {
            assert forall|a: int, b: int|
                0 <= a < b < self@.functions.len() implies #[trigger] self@.functions[a].0
                != #[trigger] self@.functions[b].0 by {
                if b < self@.functions.len() - 1 {
                    assert(t0[a].0 != t0[b].0);
                    assert(self@.functions[a] == t0[a]);
                    assert(self@.functions[b] == t0[b]);
                } else {
                    assert(self@.functions[a] == t0[a]);
                    assert(t0[a].0 != name@);
                }
            }
            assert(functions_view(self.functions@) =~= table_set(t0, name@, code@));
            assert(names_view(self.strings@) =~= old(self)@.strings);
            assert(names_view(self.symbols@) =~= old(self)@.symbols);
        }
    }
}

impl Default for State {
    /// The empty state, as `State::new` builds it.
    fn default() -> (r: State)
        ensures
            r.wf(),
            r@.functions == Seq::<(Seq<char>, CodeV)>::empty(),
            r@.strings == Seq::<Seq<char>>::empty(),
            r@.symbols == Seq::<Seq<char>>::empty(),
    {
        State::new()
    }
}

/// Scan a pool for a value's first occurrence.
#[verifier::loop_isolation(false)]
fn pool_find(pool: &Vec<String>, s: &String) -> (r: Option<usize>)
    ensures
        match r {
            Some(i) => names_view(pool@).contains(s@) && i as nat == pool_index(
                names_view(pool@),
                s@,
            ),
            None => !names_view(pool@).contains(s@),
        },
{
    let ghost pv = names_view(pool@);
    let mut i: usize = 0;
    while i < pool.len()
        invariant
            i <= pool@.len(),
            forall|j: int| 0 <= j < i ==> #[trigger] pv[j] != s@,
        decreases pool@.len() - i,
    {
        if pool[i] == *s {
            proof {
                assert(pv[i as int] == s@);
                lemma_pool_index_at(pv, s@, i as int);
            }
            return Some(i);
        }
        proof {
            assert(pv[i as int] == pool@[i as int]@);
        }
        i = i + 1;
    }
    proof {
        if pv.contains(s@) {
            let w = choose|w: int| 0 <= w < pv.len() && #[trigger] pv[w] == s@;
        }
    }
    None
}

/// Intern a value into a pool, handing back its index.
#[verifier::loop_isolation(false)]
fn pool_intern(pool: &mut Vec<String>, s: &String) -> (idx: usize)
    requires
        distinct_pool(names_view(old(pool)@)),
    ensures
        distinct_pool(names_view(final(pool)@)),
        names_view(final(pool)@) == intern_spec(names_view(old(pool)@), s@).0,
        idx as nat == intern_spec(names_view(old(pool)@), s@).1,
{
    let ghost p0 = names_view(pool@);
    match pool_find(pool, s) {
        Some(i) => i,
        None => {
            let idx = pool.len();
            pool.push(s.clone());
            proof {
                assert(names_view(pool@) =~= p0.push(s@));
                assert forall|a: int, b: int|
                    0 <= a < b < names_view(pool@).len() implies #[trigger] names_view(pool@)[a]
                    != #[trigger] names_view(pool@)[b] by {
                    if b < names_view(pool@).len() - 1 {
                        assert(p0[a] != p0[b]);
                    } else {
                        assert(names_view(pool@)[a] == p0[a]);
                        assert(!p0.contains(s@));
                    }
                }
            }
            idx
        },
    }
}

} // verus!
