//! The renaming environment: which identifier each visible name stands for.
use vstd::prelude::*;
use crate::ident::{Ident, Name, Path, names};

verus! {

/// The names visible in a scope, each with the identifier it was given.
/// A later entry for a name hides an earlier one.
pub struct Env {
    pub entries: Vec<(String, Ident)>,
}

/// The scope that a list of entries stands for.
pub open spec fn scope_of(entries: Seq<(String, Ident)>) -> Map<Name, Path>
    decreases entries.len(),
{
    if entries.len() == 0 {
        Map::empty()
    } else {
        scope_of(entries.drop_last()).insert(entries.last().0@, entries.last().1@)
    }
}

/// `env` with every name of `fresh` but `skip` bound below `base`.
pub open spec fn bind(env: Map<Name, Path>, base: Path, fresh: Seq<Name>, skip: Option<Name>) -> Map<
    Name,
    Path,
> {
    Map::new(
        |k: Name| env.contains_key(k) || (fresh.contains(k) && skip != Some(k)),
        |k: Name|
            if fresh.contains(k) && skip != Some(k) {
                base.push(k)
            } else {
                env[k]
            },
    )
}

impl View for Env {
    type V = Map<Name, Path>;

    open spec fn view(&self) -> Map<Name, Path> {
        scope_of(self.entries@)
    }
}

impl Env {
    /// The scope in which no name is bound.
    pub fn new() -> (r: Env)
        ensures
            r@ == Map::<Name, Path>::empty(),
    {
        Env { entries: Vec::new() }
    }

    /// Binds `name` to `id`, hiding what it stood for.
    pub fn insert(&mut self, name: &str, id: Ident)
        ensures
            final(self)@ == old(self)@.insert(name@, id@),
    {
        self.entries.push((String::from_str(name), id));
        assert(self.entries@.drop_last() =~= old(self).entries@);
    }

    fn get_below(&self, name: &String, n: usize) -> (r: Option<&Ident>)
        requires
            n <= self.entries@.len(),
        ensures
            match r {
                Some(id) => scope_of(self.entries@.take(n as int)).contains_key(name@) && id@
                    == scope_of(self.entries@.take(n as int))[name@],
                None => !scope_of(self.entries@.take(n as int)).contains_key(name@),
            },
        decreases n,
    {
        if n == 0 {
            None
        } else {
            assert(self.entries@.take(n as int).drop_last() =~= self.entries@.take(n - 1));
            if self.entries[n - 1].0 == *name {
                Some(&self.entries[n - 1].1)
            } else {
                self.get_below(name, n - 1)
            }
        }
    }

    /// The identifier that `name` stands for, if it is bound.
    pub fn get(&self, name: &String) -> (r: Option<&Ident>)
        ensures
            match r {
                Some(id) => self@.contains_key(name@) && id@ == self@[name@],
                None => !self@.contains_key(name@),
            },
    {
        assert(self.entries@.take(self.entries@.len() as int) =~= self.entries@);
        self.get_below(name, self.entries.len())
    }

    /// This scope with every name of `fresh` but `skip` bound to itself
    /// qualified by `base`.
    pub fn extended(&self, base: &Ident, fresh: &Vec<String>, skip: Option<&String>) -> (r: Env)
        ensures
            r@ == bind(
                self@,
                base@,
                names(fresh@),
                match skip {
                    Some(s) => Some(s@),
                    None => None,
                },
            ),
    {
        let ghost skipped: Option<Name> = match skip {
            Some(s) => Some(s@),
            None => None,
        };
        let mut r = Env { entries: Vec::new() };
        let n: usize = self.entries.len();
        let mut i: usize = 0;
        while i < n
            invariant
                n == self.entries@.len(),
                i <= n,
                r.entries@.len() == i,
                r@ == scope_of(self.entries@.take(i as int)),
            decreases n - i,
        {
            let ghost before = r.entries@;
            r.entries.push((self.entries[i].0.clone(), self.entries[i].1.duplicate()));
            proof {
                assert(r.entries@.drop_last() =~= before);
                assert(self.entries@.take(i + 1).drop_last() =~= self.entries@.take(i as int));
            }
            i = i + 1;
        }
        assert(self.entries@.take(n as int) =~= self.entries@);
        let m: usize = fresh.len();
        let mut j: usize = 0;
        while j < m
            invariant
                m == fresh@.len(),
                j <= m,
                r@ =~= bind(self@, base@, names(fresh@).take(j as int), skipped),
                skipped == match skip {
                    Some(s) => Some(s@),
                    None => None,
                },
            decreases m - j,
        {
            let keep = match skip {
                Some(s) => !(fresh[j] == *s),
                None => true,
            };
            let ghost shorter = names(fresh@).take(j as int);
            let ghost longer = names(fresh@).take(j + 1);
            proof {
                assert(longer =~= shorter.push(fresh@[j as int]@));
                assert forall|k: Name| longer.contains(k) == (shorter.contains(k) || k == fresh@[j as int]@) by {
                    if longer.contains(k) {
                        let w = choose|w: int| 0 <= w < longer.len() && longer[w] == k;
                        if w < j {
                            assert(shorter[w] == k);
                        }
                    }
                    if shorter.contains(k) {
                        let w = choose|w: int| 0 <= w < shorter.len() && shorter[w] == k;
                        assert(longer[w] == k);
                    }
                    if k == fresh@[j as int]@ {
                        assert(longer[j as int] == k);
                    }
                }
            }
            if keep {
                let id = base.extend(fresh[j].as_str());
                r.insert(fresh[j].as_str(), id);
            }
            assert(r@ =~= bind(self@, base@, longer, skipped));
            j = j + 1;
        }
        assert(names(fresh@).take(m as int) =~= names(fresh@));
        r
    }
}

} // verus!
