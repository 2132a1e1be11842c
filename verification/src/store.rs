//! Build-run state: a path-keyed content table (used for the source
//! tree and for the resolution cache), the recursion guard that models
//! the active expansion chain, and the diagnostic events a build emits.

use vstd::prelude::*;
use crate::text::vec_eq;

verus! {

/// The contents of an association list as a map; a later binding for
/// the same key wins.
pub open spec fn map_of(entries: Seq<(Vec<u8>, Vec<u8>)>) -> Map<Seq<u8>, Seq<u8>>
    decreases entries.len(),
{
    if entries.len() == 0 {
        Map::empty()
    } else {
        map_of(entries.drop_last()).insert(entries.last().0@, entries.last().1@)
    }
}

pub proof fn lemma_map_of_finite(entries: Seq<(Vec<u8>, Vec<u8>)>)
    ensures
        map_of(entries).dom().finite(),
    decreases entries.len(),
{
    if entries.len() == 0 {
        assert(map_of(entries).dom() =~= Set::<Seq<u8>>::empty());
    } else {
        lemma_map_of_finite(entries.drop_last());
    }
}

pub proof fn lemma_map_of_contains(entries: Seq<(Vec<u8>, Vec<u8>)>, k: Seq<u8>)
    ensures
        map_of(entries).contains_key(k) <==> exists|i: int|
            0 <= i < entries.len() && entries[i].0@ == k,
    decreases entries.len(),
{
    if entries.len() > 0 {
        lemma_map_of_contains(entries.drop_last(), k);
        if entries.last().0@ == k {
            assert(entries[entries.len() - 1].0@ == k);
        } else if map_of(entries).contains_key(k) {
            let i = choose|i: int| 0 <= i < entries.drop_last().len() && entries.drop_last()[i].0@
                == k;
            assert(entries[i].0@ == k);
        } else if exists|i: int| 0 <= i < entries.len() && entries[i].0@ == k {
            let i = choose|i: int| 0 <= i < entries.len() && entries[i].0@ == k;
            assert(entries.drop_last()[i].0@ == k);
        }
    }
}

pub proof fn lemma_map_of_get(entries: Seq<(Vec<u8>, Vec<u8>)>, i: int)
    requires
        0 <= i < entries.len(),
        forall|j: int| i < j < entries.len() ==> entries[j].0@ != entries[i].0@,
    ensures
        map_of(entries).contains_key(entries[i].0@),
        map_of(entries)[entries[i].0@] == entries[i].1@,
    decreases entries.len(),
{
    if i < entries.len() - 1 {
        assert(entries.drop_last()[i] == entries[i]);
        lemma_map_of_get(entries.drop_last(), i);
    }
}

/// A path-keyed table of content; lookups return the binding written
/// last. It serves as the in-memory source tree and as the resolution
/// cache.
pub struct PathMap {
    entries: Vec<(Vec<u8>, Vec<u8>)>,
}

impl View for PathMap {
    type V = Map<Seq<u8>, Seq<u8>>;

    closed spec fn view(&self) -> Map<Seq<u8>, Seq<u8>> {
        map_of(self.entries@)
    }
}

impl PathMap {
    pub proof fn lemma_finite_dom(&self)
        ensures
            self@.dom().finite(),
    {
        lemma_map_of_finite(self.entries@);
    }

    pub fn new() -> (r: Self)
        ensures
            r@ == Map::<Seq<u8>, Seq<u8>>::empty(),
    {
        PathMap { entries: Vec::new() }
    }

    pub fn insert(&mut self, k: Vec<u8>, v: Vec<u8>)
        ensures
            final(self)@ == old(self)@.insert(k@, v@),
    {
        let ghost prev = self.entries@;
        let ghost kv = (k@, v@);
        self.entries.push((k, v));
        proof {
            assert(self.entries@.drop_last() =~= prev);
            assert(self.entries@.last().0@ == kv.0 && self.entries@.last().1@ == kv.1);
        }
    }

    pub fn get(&self, k: &Vec<u8>) -> (r: Option<&Vec<u8>>)
        ensures
            r is Some <==> self@.contains_key(k@),
            r matches Some(v) ==> self@[k@] == v@,
    {
        let n = self.entries.len();
        let mut i: usize = n;
        while i > 0
            invariant
                i <= n,
                n == self.entries@.len(),
                forall|j: int| i <= j < n ==> self.entries@[j].0@ != k@,
            decreases i,
    {
            i -= 1;
            if vec_eq(&self.entries[i].0, k) {
                proof {
                    lemma_map_of_get(self.entries@, i as int);
                }
                return Some(&self.entries[i].1);
            }
        }
        proof {
            lemma_map_of_contains(self.entries@, k@);
        }
        None
    }
}

/// The set of component paths currently being expanded on the active
/// call chain; a path found here again marks a cycle.
pub struct Guard {
    stack: Vec<Vec<u8>>,
}

impl View for Guard {
    type V = Set<Seq<u8>>;

    closed spec fn view(&self) -> Set<Seq<u8>> {
        Set::new(
            |p: Seq<u8>| exists|i: int| 0 <= i < self.stack@.len() && self.stack@[i]@ == p,
        )
    }
}

impl Guard {
    /// Entries are pairwise distinct.
    pub closed spec fn wf(&self) -> bool {
        forall|i: int, j: int|
            0 <= i < j < self.stack@.len() ==> self.stack@[i]@ != self.stack@[j]@
    }

    pub fn new() -> (r: Self)
        ensures
            r@ == Set::<Seq<u8>>::empty(),
            r.wf(),
    {
        let r = Guard { stack: Vec::new() };
        proof {
            assert(r@ =~= Set::<Seq<u8>>::empty());
        }
        r
    }

    pub fn contains(&self, p: &Vec<u8>) -> (r: bool)
        ensures
            r == self@.contains(p@),
    {
        let mut i: usize = 0;
        while i < self.stack.len()
            invariant
                i <= self.stack@.len(),
                forall|j: int| 0 <= j < i ==> self.stack@[j]@ != p@,
            decreases self.stack@.len() - i,
        {
            if vec_eq(&self.stack[i], p) {
                return true;
            }
            i += 1;
        }
        false
    }

    pub fn push(&mut self, p: Vec<u8>)
        requires
            old(self).wf(),
            !old(self)@.contains(p@),
        ensures
            final(self).wf(),
            final(self)@ == old(self)@.insert(p@),
    {
        let ghost pv = p@;
        let ghost prev = self.stack@;
        self.stack.push(p);
        proof {
            assert(forall|j: int| 0 <= j < prev.len() ==> self.stack@[j] == prev[j]);
            assert forall|q: Seq<u8>| self@.contains(q) implies old(self)@.insert(pv).contains(
                q,
            ) by {
                let i = choose|i: int| 0 <= i < self.stack@.len() && self.stack@[i]@ == q;
                if i < prev.len() {
                    assert(prev[i]@ == q);
                }
            }
            assert forall|q: Seq<u8>| old(self)@.insert(pv).contains(q) implies self@.contains(
                q,
            ) by {
                if q == pv {
                    assert(self.stack@[prev.len() as int]@ == q);
                } else {
                    let i = choose|i: int| 0 <= i < prev.len() && prev[i]@ == q;
                    assert(self.stack@[i]@ == q);
                }
            }
            assert(self@ =~= old(self)@.insert(pv));
        }
    }

    /// Removes `p`; without an entry for `p` the guard is unchanged.
    pub fn remove(&mut self, p: &Vec<u8>)
        requires
            old(self).wf(),
        ensures
            final(self).wf(),
            final(self)@ == old(self)@.remove(p@),
    {
        let mut i: usize = 0;
        while i < self.stack.len()
            invariant
                i <= self.stack@.len(),
                self.wf(),
                self@ == old(self)@,
                self.stack@ == old(self).stack@,
                forall|j: int| 0 <= j < i ==> self.stack@[j]@ != p@,
            decreases self.stack@.len() - i,
        {
            if vec_eq(&self.stack[i], p) {
                let ghost prev = self.stack@;
                self.stack.remove(i);
                proof {
                    assert(forall|j: int| 0 <= j < i ==> self.stack@[j] == prev[j]);
                    assert(forall|j: int|
                        i <= j < self.stack@.len() ==> self.stack@[j] == prev[j + 1]);
                    assert forall|q: Seq<u8>| self@.contains(q) implies old(self)@.remove(
                        p@,
                    ).contains(q) by {
                        let m = choose|m: int| 0 <= m < self.stack@.len() && self.stack@[m]@ == q;
                        if m < i {
                            assert(prev[m]@ == q);
                            assert(q != p@);
                        } else {
                            assert(prev[m + 1]@ == q);
                            assert(q != p@);
                        }
                    }
                    assert forall|q: Seq<u8>| old(self)@.remove(p@).contains(q) implies self@
                        .contains(q) by {
                        let m = choose|m: int| 0 <= m < prev.len() && prev[m]@ == q;
                        if m < i {
                            assert(self.stack@[m]@ == q);
                        } else {
                            assert(m != i);
                            assert(self.stack@[m - 1]@ == q);
                        }
                    }
                    assert(self@ =~= old(self)@.remove(p@));
                }
                return ;
            }
            i += 1;
        }
        proof {
            assert(!old(self)@.contains(p@));
            assert(self@ =~= old(self)@.remove(p@));
        }
    }
}

/// One diagnostic of a build: a source read, a failed read, or a cycle
/// detected at a reference site.
pub enum EventS {
    Read { path: Seq<u8> },
    ReadFail { path: Seq<u8> },
    Cycle { path: Seq<u8> },
}

/// Executable form of a build diagnostic, carrying the path concerned.
#[derive(Clone, Debug, PartialEq, Eq)]
pub enum Event {
    Read(Vec<u8>),
    ReadFail(Vec<u8>),
    Cycle(Vec<u8>),
}

impl View for Event {
    type V = EventS;

    open spec fn view(&self) -> EventS {
        match self {
            Event::Read(p) => EventS::Read { path: p@ },
            Event::ReadFail(p) => EventS::ReadFail { path: p@ },
            Event::Cycle(p) => EventS::Cycle { path: p@ },
        }
    }
}

/// The events of an executable log, as their spec views.
pub open spec fn evs(es: Seq<Event>) -> Seq<EventS> {
    es.map_values(|e: Event| e@)
}

} // verus!
