//! The scope environment of the renaming pass: a mapping from identifier name
//! to its current generation counter, modelled as a `Map<Seq<char>, nat>`.
use vstd::prelude::*;

verus! {

/// One generation step: a name absent from the environment enters at
/// generation zero; a present name moves to the next generation.
pub open spec fn spec_bump(env: Map<Seq<char>, nat>, n: Seq<char>) -> Map<Seq<char>, nat> {
    if env.contains_key(n) {
        env.insert(n, env[n] + 1)
    } else {
        env.insert(n, 0)
    }
}

/// Bump every name of the sequence in listed order.
pub open spec fn bump_names(env: Map<Seq<char>, nat>, names: Seq<Seq<char>>) -> Map<
    Seq<char>,
    nat,
>
    decreases names.len(),
{
    if names.len() == 0 {
        env
    } else {
        spec_bump(bump_names(env, names.drop_last()), names.last())
    }
}

/// Bump every name of the sequence except those equal to `me`, in listed
/// order.
pub open spec fn bump_others(
    env: Map<Seq<char>, nat>,
    names: Seq<Seq<char>>,
    me: Seq<char>,
) -> Map<Seq<char>, nat>
    decreases names.len(),
{
    if names.len() == 0 {
        env
    } else {
        let prev = bump_others(env, names.drop_last(), me);
        if names.last() == me {
            prev
        } else {
            spec_bump(prev, names.last())
        }
    }
}

/// The generation a name has in the environment, or zero for an absent name.
pub open spec fn gen_or_zero(env: Map<Seq<char>, nat>, k: Seq<char>) -> nat {
    if env.contains_key(k) {
        env[k]
    } else {
        0
    }
}

/// Every generation of the environment leaves at least `room` steps before
/// the counter type is exhausted.
pub open spec fn env_ok(env: Map<Seq<char>, nat>, room: nat) -> bool {
    &&& room < u64::MAX
    &&& forall|k: Seq<char>| env.contains_key(k) ==> #[trigger] env[k] + room < u64::MAX
}

pub proof fn lemma_env_ok_weaken(env: Map<Seq<char>, nat>, r1: nat, r2: nat)
    requires
        env_ok(env, r1),
        r2 <= r1,
    ensures
        env_ok(env, r2),
{
    assert forall|k: Seq<char>| env.contains_key(k) implies #[trigger] env[k] + r2 < u64::MAX by {
        assert(env[k] + r1 < u64::MAX);
    }
}

/// Bumping the names of a sequence adds at most its length to any single
/// generation, and brings exactly those names into the domain.
pub proof fn lemma_bump_names_bound(env: Map<Seq<char>, nat>, names: Seq<Seq<char>>)
    ensures
        bump_names(env, names).dom() =~= env.dom() + names.to_set(),
        forall|k: Seq<char>| #[trigger] bump_names(env, names).contains_key(k) ==> bump_names(
            env,
            names,
        )[k] <= gen_or_zero(env, k) + names.len(),
    decreases names.len(),
{
    if names.len() > 0 {
        lemma_bump_names_bound(env, names.drop_last());
        assert(names.to_set() =~= names.drop_last().to_set() + set![names.last()]) by {
            assert forall|n: Seq<char>| names.to_set().contains(n) implies (names.drop_last()
                .to_set()
                .contains(n) || n == names.last()) by {
                let i = choose|i: int| 0 <= i < names.len() && names[i] == n;
                if i < names.len() - 1 {
                    assert(names.drop_last()[i] == n);
                }
            }
            assert forall|n: Seq<char>| names.drop_last().to_set().contains(n) implies names
                .to_set()
                .contains(n) by {
                let i = choose|i: int| 0 <= i < names.drop_last().len() && names.drop_last()[i]
                    == n;
                assert(names[i] == n);
            }
            assert(names.to_set().contains(names.last()));
        }
    }
}

/// Bumping all names but one adds at most the sequence's length to any single
/// generation and adds no name outside the sequence.
pub proof fn lemma_bump_others_bound(env: Map<Seq<char>, nat>, names: Seq<Seq<char>>, me: Seq<char>)
    ensures
        bump_others(env, names, me).dom().subset_of(env.dom() + names.to_set()),
        forall|k: Seq<char>| #[trigger] bump_others(env, names, me).contains_key(k) ==> bump_others(
            env,
            names,
            me,
        )[k] <= gen_or_zero(env, k) + names.len(),
    decreases names.len(),
{
    if names.len() > 0 {
        lemma_bump_others_bound(env, names.drop_last(), me);
        assert(names.drop_last().to_set().subset_of(names.to_set())) by {
            assert forall|n: Seq<char>| names.drop_last().to_set().contains(n) implies names
                .to_set()
                .contains(n) by {
                let i = choose|i: int| 0 <= i < names.drop_last().len() && names.drop_last()[i]
                    == n;
                assert(names[i] == n);
            }
        }
        assert(names.to_set().contains(names.last()));
    }
}

/// The map an association list stands for, later entries overriding earlier
/// ones.
pub open spec fn assoc_map(entries: Seq<(String, u64)>) -> Map<Seq<char>, nat>
    decreases entries.len(),
{
    if entries.len() == 0 {
        Map::empty()
    } else {
        assoc_map(entries.drop_last()).insert(entries.last().0@, entries.last().1 as nat)
    }
}

/// With pairwise distinct keys, the association list and its map agree entry
/// by entry.
proof fn lemma_assoc_map(entries: Seq<(String, u64)>)
    requires
        forall|i: int, j: int|
            0 <= i < j < entries.len() ==> #[trigger] entries[i].0@ != #[trigger] entries[j].0@,
    ensures
        forall|k: Seq<char>|
            #[trigger] assoc_map(entries).contains_key(k) <==> exists|i: int|
                0 <= i < entries.len() && #[trigger] entries[i].0@ == k,
        forall|i: int|
            0 <= i < entries.len() ==> assoc_map(entries).contains_key(#[trigger] entries[i].0@)
                && assoc_map(entries)[entries[i].0@] == entries[i].1 as nat,
    decreases entries.len(),
{
    if entries.len() > 0 {
        lemma_assoc_map(entries.drop_last());
        assert forall|i: int| 0 <= i < entries.len() implies assoc_map(entries).contains_key(
            #[trigger] entries[i].0@,
        ) && assoc_map(entries)[entries[i].0@] == entries[i].1 as nat by {
            if i < entries.len() - 1 {
                assert(entries.drop_last()[i] == entries[i]);
                assert(entries[i].0@ != entries[entries.len() - 1].0@);
            }
        }
        assert forall|k: Seq<char>| #[trigger] assoc_map(entries).contains_key(k) implies exists|
            i: int,
        |
            0 <= i < entries.len() && #[trigger] entries[i].0@ == k by {
            if k == entries.last().0@ {
                assert(entries[entries.len() - 1].0@ == k);
            } else {
                assert(assoc_map(entries.drop_last()).contains_key(k));
                let i = choose|i: int|
                    0 <= i < entries.drop_last().len() && #[trigger] entries.drop_last()[i].0@
                        == k;
                assert(entries.drop_last()[i] == entries[i]);
                assert(entries[i].0@ == k);
            }
        }
    }
}

/// The scope environment handed down the renaming pass.
pub struct Env {
    pub entries: Vec<(String, u64)>,
}

impl View for Env {
    type V = Map<Seq<char>, nat>;

    open spec fn view(&self) -> Map<Seq<char>, nat> {
        assoc_map(self.entries@)
    }
}

impl Env {
    /// Keys are pairwise distinct, so each name has one generation.
    pub open spec fn wf(&self) -> bool {
        forall|i: int, j: int|
            0 <= i < j < self.entries@.len() ==> #[trigger] self.entries@[i].0@
                != #[trigger] self.entries@[j].0@
    }

    /// The empty environment: no name is bound.
    pub fn new() -> (r: Env)
        ensures
            r.wf(),
            r@ == Map::<Seq<char>, nat>::empty(),
    {
        Env { entries: Vec::new() }
    }

    /// An independent copy with the same generations.
    pub fn duplicate(&self) -> (r: Env)
        requires
            self.wf(),
        ensures
            r.wf(),
            r@ == self@,
    {
        let mut out: Vec<(String, u64)> = Vec::new();
        let mut i: usize = 0;
        while i < self.entries.len()
            invariant
                i <= self.entries@.len(),
                out@.len() == i,
                forall|j: int| 0 <= j < i ==> out@[j] == self.entries@[j],
            decreases self.entries@.len() - i,
        {
            let p = &self.entries[i];
            out.push((p.0.clone(), p.1));
            i = i + 1;
        }
        proof {
            assert(out@ =~= self.entries@);
        }
        Env { entries: out }
    }

    /// The generation of a name, if the name is bound.
    pub fn lookup(&self, name: &String) -> (r: Option<u64>)
        requires
            self.wf(),
        ensures
            match r {
                Some(g) => self@.contains_key(name@) && self@[name@] == g as nat,
                None => !self@.contains_key(name@),
            },
    {
        proof {
            lemma_assoc_map(self.entries@);
        }
        let mut i: usize = 0;
        while i < self.entries.len()
            invariant
                i <= self.entries@.len(),
                forall|j: int| 0 <= j < i ==> #[trigger] self.entries@[j].0@ != name@,
                self.wf(),
                forall|k: Seq<char>|
                    #[trigger] self@.contains_key(k) <==> exists|j: int|
                        0 <= j < self.entries@.len() && #[trigger] self.entries@[j].0@ == k,
                forall|j: int|
                    0 <= j < self.entries@.len() ==> self@.contains_key(
                        #[trigger] self.entries@[j].0@,
                    ) && self@[self.entries@[j].0@] == self.entries@[j].1 as nat,
            decreases self.entries@.len() - i,
        {
            let p = &self.entries[i];
            if p.0 == *name {
                return Some(p.1);
            }
            i = i + 1;
        }
        None
    }

    /// Move a name one generation up, or bind an absent name at generation
    /// zero.
    pub fn bump(&mut self, name: &String)
        requires
            old(self).wf(),
            old(self)@.contains_key(name@) ==> old(self)@[name@] < u64::MAX,
        ensures
            final(self).wf(),
            final(self)@ == spec_bump(old(self)@, name@),
    {
        proof {
            lemma_assoc_map(self.entries@);
        }
        let ghost old_entries = self.entries@;
        let mut i: usize = 0;
        while i < self.entries.len()
            invariant
                i <= self.entries@.len(),
                self.entries@ == old_entries,
                forall|j: int| 0 <= j < i ==> #[trigger] self.entries@[j].0@ != name@,
                old(self).wf(),
                old(self)@.contains_key(name@) ==> old(self)@[name@] < u64::MAX,
                self == old(self),
                forall|k: Seq<char>|
                    #[trigger] old(self)@.contains_key(k) <==> exists|j: int|
                        0 <= j < old_entries.len() && #[trigger] old_entries[j].0@ == k,
                forall|j: int|
                    0 <= j < old_entries.len() ==> old(self)@.contains_key(
                        #[trigger] old_entries[j].0@,
                    ) && old(self)@[old_entries[j].0@] == old_entries[j].1 as nat,
            decreases self.entries@.len() - i,
        {
            let p = &self.entries[i];
            if p.0 == *name {
                let k = p.0.clone();
                let g = p.1;
                self.entries.set(i, (k, g + 1));
                proof {
                    assert forall|a: int, b: int|
                        0 <= a < b < self.entries@.len() implies #[trigger] self.entries@[a].0@
                        != #[trigger] self.entries@[b].0@ by {
                        assert(old_entries[a].0@ != old_entries[b].0@);
                    }
                    lemma_assoc_map(self.entries@);
                    assert forall|k2: Seq<char>| #[trigger]
                        self@.contains_key(k2) <==> spec_bump(old(self)@, name@).contains_key(
                            k2,
                        ) by {
                        if self@.contains_key(k2) {
                            let j = choose|j: int|
                                0 <= j < self.entries@.len() && #[trigger] self.entries@[j].0@
                                    == k2;
                            assert(old_entries[j].0@ == k2);
                        }
                        if spec_bump(old(self)@, name@).contains_key(k2) {
                            if k2 == name@ {
                                assert(self.entries@[i as int].0@ == k2);
                            } else {
                                let j = choose|j: int|
                                    0 <= j < old_entries.len() && #[trigger] old_entries[j].0@
                                        == k2;
                                assert(self.entries@[j].0@ == k2);
                            }
                        }
                    }
                    assert forall|k2: Seq<char>| #[trigger] self@.contains_key(k2) implies self@[k2]
                        == spec_bump(old(self)@, name@)[k2] by {
                        let j = choose|j: int|
                            0 <= j < self.entries@.len() && #[trigger] self.entries@[j].0@ == k2;
                        if j == i {
                            assert(k2 == name@);
                            assert(self@[k2] == g + 1);
                        } else {
                            assert(old_entries[j].0@ == k2);
                            assert(k2 != name@);
                            assert(self@[k2] == old_entries[j].1 as nat);
                        }
                    }
                    assert(self@ =~= spec_bump(old(self)@, name@));
                }
                return ;
            }
            i = i + 1;
        }
        proof {
            assert(!old(self)@.contains_key(name@));
        }
        self.entries.push((name.clone(), 0));
        proof {
            assert forall|a: int, b: int|
                0 <= a < b < self.entries@.len() implies #[trigger] self.entries@[a].0@
                != #[trigger] self.entries@[b].0@ by {
                if b < self.entries@.len() - 1 {
                    assert(old_entries[a].0@ != old_entries[b].0@);
                } else {
                    assert(self.entries@[a].0@ != name@);
                }
            }
            assert(self.entries@.drop_last() =~= old_entries);
            assert(self@ =~= spec_bump(old(self)@, name@));
        }
    }
}

} // verus!
