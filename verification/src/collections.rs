//! Small collections keyed by map positions: a set that remembers insertion
//! order and a map from positions to resource quantities.

use vstd::prelude::*;

use crate::world::Pos;

verus! {

/// A set of positions that remembers the order in which they were added.
pub struct PositionSet {
    items: Vec<Pos>,
}

impl View for PositionSet {
    type V = Seq<Pos>;

    closed spec fn view(&self) -> Seq<Pos> {
        self.items@
    }
}

impl PositionSet {
    /// No position is held twice.
    pub open spec fn wf(&self) -> bool {
        self@.no_duplicates()
    }

    pub fn new() -> (s: Self)
        ensures
            s.wf(),
            s@ == Seq::<Pos>::empty(),
    {
        PositionSet { items: Vec::new() }
    }

    pub fn len(&self) -> (n: usize)
        ensures
            n == self@.len(),
    {
        self.items.len()
    }

    /// The `i`-th position in insertion order.
    pub fn get(&self, i: usize) -> (p: Pos)
        requires
            i < self@.len(),
        ensures
            p == self@[i as int],
    {
        self.items[i]
    }

    pub fn contains(&self, p: &Pos) -> (b: bool)
        ensures
            b == self@.contains(*p),
    {
        let n = self.items.len();
        let mut i: usize = 0;
        while i < n
            invariant
                n == self.items@.len(),
                i <= n,
                forall|j: int| 0 <= j < i ==> self.items@[j] != *p,
            decreases n - i,
        {
            let q = self.items[i];
            if q.0 == p.0 && q.1 == p.1 {
                assert(self.items@[i as int] == *p);
                return true;
            }
            i += 1;
        }
        false
    }

    /// Adds `p` at the end unless it is already held; returns whether it was added.
    pub fn insert(&mut self, p: Pos) -> (added: bool)
        requires
            old(self).wf(),
        ensures
            final(self).wf(),
            added == !old(self)@.contains(p),
            final(self)@ == if added {
                old(self)@.push(p)
            } else {
                old(self)@
            },
            forall|q: Pos| #[trigger] final(self)@.contains(q) <==> old(self)@.contains(q) || q == p,
    {
        let ghost s0 = self@;
        if self.contains(&p) {
            false
        } else {
            proof {
                assert forall|i: int, j: int|
                    0 <= i < j < self.items@.push(p).len() implies self.items@.push(p)[i]
                    != self.items@.push(p)[j] by {
                    if j == self.items@.len() {
                        assert(self.items@[i] == self.items@.push(p)[i]);
                    }
                }
            }
            self.items.push(p);
            proof {
                assert forall|q: Pos| #[trigger] self@.contains(q) <==> s0.contains(q) || q == p by {
                    if s0.contains(q) {
                        let j = choose|j: int| 0 <= j < s0.len() && s0[j] == q;
                        assert(self@[j] == q);
                    }
                    if q == p {
                        assert(self@[s0.len() as int] == q);
                    }
                    if self@.contains(q) {
                        let j = choose|j: int| 0 <= j < self@.len() && self@[j] == q;
                        if j < s0.len() {
                            assert(s0[j] == q);
                        }
                    }
                }
            }
            true
        }
    }
}

/// The quantity recorded for `p` in an association list (the last entry for
/// `p` wins; a `ResourceMap` never holds two).
pub open spec fn lookup(s: Seq<(Pos, u32)>, p: Pos) -> Option<u32>
    decreases s.len(),
{
    if s.len() == 0 {
        None
    } else if s.last().0 == p {
        Some(s.last().1)
    } else {
        lookup(s.drop_last(), p)
    }
}

pub open spec fn keys_unique(s: Seq<(Pos, u32)>) -> bool {
    forall|i: int, j: int| 0 <= i < j < s.len() ==> #[trigger] s[i].0 != #[trigger] s[j].0
}

pub proof fn lemma_lookup_index(s: Seq<(Pos, u32)>, p: Pos)
    requires
        keys_unique(s),
    ensures
        lookup(s, p) is None <==> (forall|i: int| 0 <= i < s.len() ==> #[trigger] s[i].0 != p),
        forall|i: int| 0 <= i < s.len() && #[trigger] s[i].0 == p ==> lookup(s, p) == Some(s[i].1),
    decreases s.len(),
{
    if s.len() > 0 {
        let t = s.drop_last();
        assert(keys_unique(t));
        lemma_lookup_index(t, p);
        assert forall|i: int| 0 <= i < s.len() && #[trigger] s[i].0 == p implies lookup(s, p) == Some(
            s[i].1,
        ) by {
            if i < s.len() - 1 {
                assert(t[i] == s[i]);
                assert(s[i].0 != s[s.len() - 1].0);
            }
        }
        if lookup(s, p) is None {
            assert forall|i: int| 0 <= i < s.len() implies #[trigger] s[i].0 != p by {
                if i < s.len() - 1 {
                    assert(t[i] == s[i]);
                }
            }
        }
        if forall|i: int| 0 <= i < s.len() ==> #[trigger] s[i].0 != p {
            assert(s[s.len() - 1].0 != p);
            assert forall|i: int| 0 <= i < t.len() implies #[trigger] t[i].0 != p by {
                assert(t[i] == s[i]);
            }
        }
    }
}

/// Remaining resource quantity per position.
pub struct ResourceMap {
    entries: Vec<(Pos, u32)>,
}

impl View for ResourceMap {
    type V = Seq<(Pos, u32)>;

    closed spec fn view(&self) -> Seq<(Pos, u32)> {
        self.entries@
    }
}

impl ResourceMap {
    /// No position has two entries.
    pub open spec fn wf(&self) -> bool {
        keys_unique(self@)
    }

    /// The quantity recorded for `p`, if any.
    pub open spec fn spec_get(&self, p: Pos) -> Option<u32> {
        lookup(self@, p)
    }

    pub fn new() -> (m: Self)
        ensures
            m.wf(),
            m@ == Seq::<(Pos, u32)>::empty(),
    {
        ResourceMap { entries: Vec::new() }
    }

    pub fn len(&self) -> (n: usize)
        ensures
            n == self@.len(),
    {
        self.entries.len()
    }

    fn index_of(&self, p: Pos) -> (r: Option<usize>)
        ensures
            match r {
                Some(i) => i < self@.len() && self@[i as int].0 == p,
                None => forall|i: int| 0 <= i < self@.len() ==> #[trigger] self@[i].0 != p,
            },
    {
        let n = self.entries.len();
        let mut i: usize = 0;
        while i < n
            invariant
                n == self.entries@.len(),
                i <= n,
                forall|j: int| 0 <= j < i ==> #[trigger] self.entries@[j].0 != p,
            decreases n - i,
        {
            let k = self.entries[i].0;
            if k.0 == p.0 && k.1 == p.1 {
                return Some(i);
            }
            i += 1;
        }
        None
    }

    /// The quantity recorded for `p`, if any.
    pub fn get(&self, p: Pos) -> (r: Option<u32>)
        requires
            self.wf(),
        ensures
            r == self.spec_get(p),
    {
        proof {
            lemma_lookup_index(self@, p);
        }
        match self.index_of(p) {
            Some(i) => Some(self.entries[i].1),
            None => None,
        }
    }

    /// Records `q` for `p`, returning the quantity it replaces. An existing
    /// entry keeps its place; a new one goes at the end.
    pub fn insert(&mut self, p: Pos, q: u32) -> (prev: Option<u32>)
        requires
            old(self).wf(),
        ensures
            final(self).wf(),
            prev == old(self).spec_get(p),
            final(self).spec_get(p) == Some(q),
            forall|r: Pos| r != p ==> final(self).spec_get(r) == old(self).spec_get(r),
            match prev {
                Some(v) => exists|i: int|
                    0 <= i < old(self)@.len() && old(self)@[i] == (p, v) && final(self)@ == old(
                        self,
                    )@.update(i, (p, q)),
                None => final(self)@ == old(self)@.push((p, q)),
            },
    {
        proof {
            lemma_lookup_index(self@, p);
        }
        let ghost s0 = self@;
        match self.index_of(p) {
            Some(i) => {
                let prev = self.entries[i].1;
                let ghost s1 = s0.update(i as int, (p, q));
                proof {
                    assert forall|a: int, b: int| 0 <= a < b < s1.len() implies #[trigger] s1[a].0
                        != #[trigger] s1[b].0 by {
                        assert(s0[a].0 != s0[b].0);
                    }
                    assert(s1[i as int].0 == p);
                    lemma_lookup_index(s1, p);
                    assert forall|r: Pos| r != p implies lookup(s1, r) == lookup(s0, r) by {
                        lemma_lookup_index(s1, r);
                        lemma_lookup_index(s0, r);
                        if lookup(s0, r) is Some {
                            let j = choose|j: int| 0 <= j < s0.len() && #[trigger] s0[j].0 == r;
                            assert(s1[j] == s0[j]);
                        } else {
                            assert forall|j: int| 0 <= j < s1.len() implies #[trigger] s1[j].0 != r by {
                                if j != i {
                                    assert(s1[j] == s0[j]);
                                }
                            }
                        }
                    }
                }
                self.entries.set(i, (p, q));
                assert(self@ == s1);
                Some(prev)
            },
            None => {
                let ghost s1 = s0.push((p, q));
                proof {
                    assert forall|a: int, b: int| 0 <= a < b < s1.len() implies #[trigger] s1[a].0
                        != #[trigger] s1[b].0 by {
                        if b == s0.len() {
                            assert(s1[a] == s0[a]);
                        }
                    }
                    assert(s1.drop_last() == s0);
                }
                self.entries.push((p, q));
                assert(self@ == s1);
                None
            },
        }
    }

    /// The position and quantity of the `i`-th entry.
    pub fn entry(&self, i: usize) -> (e: (Pos, u32))
        requires
            i < self@.len(),
        ensures
            e == self@[i as int],
    {
        self.entries[i]
    }
}

} // verus!
