//! The per-shard symbol table: label keys and values deduplicated into
//! shared handles.  A handle is returned by content; interning never
//! changes what a string says, it only bounds how many copies a shard
//! keeps.

use vstd::prelude::*;

verus! {

/// The set of strings a shard has interned, each stored once.
pub struct Interner {
    pub symbols: Vec<String>,
}

impl Interner {
    /// The interned strings, in first-seen order.
    pub open spec fn syms(&self) -> Seq<Seq<char>> {
        self.symbols@.map_values(|s: String| s@)
    }

    /// No string is stored twice.
    pub open spec fn wf(&self) -> bool {
        forall|i: int, j: int| 0 <= i < j < self.syms().len() ==> self.syms()[i] != self.syms()[j]
    }

    /// Whether `w` has been interned.
    pub open spec fn holds(&self, w: Seq<char>) -> bool {
        exists|i: int| 0 <= i < self.syms().len() && self.syms()[i] == w
    }

    pub fn new() -> (r: Interner)
        ensures
            r.wf(),
            r.syms().len() == 0,
    {
        Interner { symbols: Vec::new() }
    }

    /// The shared handle for `s`: the stored copy if one exists, else a
    /// newly stored one.  The handle always spells exactly `s`.
    pub fn intern(&mut self, s: &String) -> (r: String)
        requires
            old(self).wf(),
        ensures
            final(self).wf(),
            r@ == s@,
            forall|w: Seq<char>|
                #[trigger] final(self).holds(w) == (old(self).holds(w) || w == s@),
    {
        let ghost old_self = *old(self);
        let n = self.symbols.len();
        let mut i: usize = 0;
        while i < n
            invariant
                i <= n,
                n == self.syms().len(),
                self.wf(),
                *self == old_self,
                forall|j: int| 0 <= j < i ==> self.syms()[j] != s@,
            decreases n - i,
        {
            if self.symbols[i] == *s {
                proof {
                    assert(self.syms()[i as int] == s@);
                    assert(old_self.holds(s@));
                    assert forall|w: Seq<char>| #[trigger]
                        self.holds(w) == (old_self.holds(w) || w == s@) by {}
                }
                return self.symbols[i].clone();
            }
            i = i + 1;
        }
        proof {
            assert(!old_self.holds(s@));
        }
        self.symbols.push(s.clone());
        proof {
            assert(self.syms() =~= old_self.syms().push(s@));
            assert(self.wf()) by {
                assert forall|a: int, b: int|
                    0 <= a < b < self.syms().len() implies self.syms()[a] != self.syms()[
                    b] by {
                    if b == self.syms().len() - 1 {
                        assert(self.syms()[a] == old_self.syms()[a]);
                        assert(self.syms()[b] == s@);
                    } else {
                        assert(self.syms()[a] == old_self.syms()[a]);
                        assert(self.syms()[b] == old_self.syms()[b]);
                    }
                }
            }
            assert forall|w: Seq<char>| #[trigger]
                self.holds(w) == (old_self.holds(w) || w == s@) by {
                if self.holds(w) {
                    let j = choose|j: int|
                        0 <= j < self.syms().len() && self.syms()[j] == w;
                    if j < self.syms().len() - 1 {
                        assert(old_self.syms()[j] == w);
                    }
                }
                if old_self.holds(w) {
                    let j = choose|j: int|
                        0 <= j < old_self.syms().len() && old_self.syms()[j] == w;
                    assert(self.syms()[j] == w);
                }
                if w == s@ {
                    assert(self.syms()[self.syms().len() - 1] == w);
                }
            }
        }
        s.clone()
    }
}

} // verus!
