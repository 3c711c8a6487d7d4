use vstd::prelude::*;

verus! {

/// A map from an account to the account that stands for it in a companion system.
/// Each account has at most one entry; a new write replaces the old one.
pub struct IdentityMap {
    entries: Vec<(String, String)>,
}

/// The map that writing the pairs of `s` one after the other produces: a later
/// pair for an account replaces an earlier one.
pub open spec fn mapping_of(s: Seq<(Seq<char>, Seq<char>)>) -> Map<Seq<char>, Seq<char>>
    decreases s.len(),
{
    if s.len() == 0 {
        Map::empty()
    } else {
        mapping_of(s.drop_last()).insert(s.last().0, s.last().1)
    }
}

spec fn has_key_at(entries: Seq<(String, String)>, i: int, k: Seq<char>) -> bool {
    0 <= i < entries.len() && entries[i].0@ == k
}

impl IdentityMap {
    /// No account has two entries.
    pub closed spec fn wf(&self) -> bool {
        forall|i: int, j: int|
            0 <= i < self.entries@.len() && 0 <= j < self.entries@.len() && i != j
                ==> self.entries@[i].0@ != self.entries@[j].0@
    }

    pub closed spec fn view(&self) -> Map<Seq<char>, Seq<char>> {
        Map::new(
            |k: Seq<char>| exists|i: int| has_key_at(self.entries@, i, k),
            |k: Seq<char>| self.entries@[choose|i: int| has_key_at(self.entries@, i, k)].1@,
        )
    }

    /// An empty map.
    pub fn new() -> (r: IdentityMap)
        ensures
            r.wf(),
            r.view() == Map::<Seq<char>, Seq<char>>::empty(),
    {
        let r = IdentityMap { entries: Vec::new() };
        assert(r.view() =~= Map::<Seq<char>, Seq<char>>::empty());
        r
    }

    /// The map that writing each pair of `pairs` in order produces.
    pub fn from_pairs(pairs: &Vec<(String, String)>) -> (r: IdentityMap)
        ensures
            r.wf(),
            r.view() == mapping_of(pairs@.map_values(|e: (String, String)| (e.0@, e.1@))),
    {
        let ghost ps = pairs@.map_values(|e: (String, String)| (e.0@, e.1@));
        let mut r = IdentityMap::new();
        let mut i: usize = 0;
        assert(ps.take(0) =~= Seq::<(Seq<char>, Seq<char>)>::empty());
        while i < pairs.len()
            invariant
                r.wf(),
                0 <= i <= pairs@.len(),
                ps == pairs@.map_values(|e: (String, String)| (e.0@, e.1@)),
                r.view() == mapping_of(ps.take(i as int)),
            decreases pairs@.len() - i,
        {
            assert(ps.take(i + 1).drop_last() =~= ps.take(i as int));
            assert(ps.take(i + 1).last() == ps[i as int]);
            r.upsert(pairs[i].0.clone(), pairs[i].1.clone());
            i = i + 1;
        }
        assert(ps.take(i as int) =~= ps);
        r
    }

    /// Every entry, each account once, in an unspecified order.
    pub fn entries(&self) -> (r: Vec<(String, String)>)
        requires
            self.wf(),
        ensures
            forall|i: int, j: int|
                0 <= i < r@.len() && 0 <= j < r@.len() && i != j ==> r@[i].0@ != r@[j].0@,
            forall|i: int|
                0 <= i < r@.len() ==> self.view().contains_key(#[trigger] r@[i].0@)
                    && self.view()[r@[i].0@] == r@[i].1@,
            forall|k: Seq<char>|
                self.view().contains_key(k) ==> exists|i: int| 0 <= i < r@.len() && r@[i].0@ == k,
    {
        let mut r: Vec<(String, String)> = Vec::new();
        let mut i: usize = 0;
        while i < self.entries.len()
            invariant
                self.wf(),
                0 <= i <= self.entries@.len(),
                r@.len() == i,
                forall|j: int| 0 <= j < i ==> r@[j].0@ == self.entries@[j].0@ && r@[j].1@
                    == self.entries@[j].1@,
            decreases self.entries@.len() - i,
        {
            let e = (self.entries[i].0.clone(), self.entries[i].1.clone());
            r.push(e);
            i = i + 1;
        }
        assert forall|n: int| 0 <= n < r@.len() implies self.view().contains_key(#[trigger] r@[n].0@)
            && self.view()[r@[n].0@] == r@[n].1@ by {
            let k = r@[n].0@;
            assert(has_key_at(self.entries@, n, k));
            let m = choose|m: int| has_key_at(self.entries@, m, k);
            assert(m == n);
        }
        assert forall|k: Seq<char>| self.view().contains_key(k) implies exists|n: int|
            0 <= n < r@.len() && r@[n].0@ == k by {
            let m = choose|m: int| has_key_at(self.entries@, m, k);
            assert(r@[m].0@ == k);
        }
        r
    }

    fn position(&self, a: &String) -> (r: Option<usize>)
        ensures
            match r {
                Some(i) => has_key_at(self.entries@, i as int, a@),
                None => forall|i: int| 0 <= i < self.entries@.len() ==> self.entries@[i].0@ != a@,
            },
    {
        let mut i: usize = 0;
        while i < self.entries.len()
            invariant
                0 <= i <= self.entries@.len(),
                forall|j: int| 0 <= j < i ==> self.entries@[j].0@ != a@,
            decreases self.entries@.len() - i,
        {
            if self.entries[i].0 == *a {
                return Some(i);
            }
            i = i + 1;
        }
        None
    }

    /// The entry of `a`, if there is one.
    pub fn lookup(&self, a: &String) -> (r: Option<String>)
        requires
            self.wf(),
        ensures
            match r {
                Some(x) => self.view().contains_key(a@) && self.view()[a@] == x@,
                None => !self.view().contains_key(a@),
            },
    {
        match self.position(a) {
            Some(i) => {
                let ghost j = choose|j: int| has_key_at(self.entries@, j, a@);
                assert(has_key_at(self.entries@, j, a@));
                assert(j == i);
                Some(self.entries[i].1.clone())
            },
            None => {
                assert(!self.view().contains_key(a@));
                None
            },
        }
    }

    /// Sets the entry of `a` to `x`, replacing any earlier one.
    pub fn upsert(&mut self, a: String, x: String)
        requires
            old(self).wf(),
        ensures
            final(self).wf(),
            final(self).view() == old(self).view().insert(a@, x@),
    {
        let ghost pre = self.entries@;
        let ghost k = a@;
        let ghost v = x@;
        match self.position(&a) {
            Some(i) => {
                self.entries.set(i, (a, x));
                let ghost post = self.entries@;
                assert forall|key: Seq<char>| #![auto]
                    self.view().contains_key(key) == old(self).view().insert(k, v).contains_key(key) by {
                    if key != k {
                        if exists|n: int| has_key_at(pre, n, key) {
                            let n = choose|n: int| has_key_at(pre, n, key);
                            assert(has_key_at(post, n, key));
                        }
                        if exists|n: int| has_key_at(post, n, key) {
                            let n = choose|n: int| has_key_at(post, n, key);
                            assert(has_key_at(pre, n, key));
                        }
                    } else {
                        assert(has_key_at(post, i as int, key));
                    }
                }
                assert forall|key: Seq<char>| #![auto] self.view().contains_key(key) implies
                    self.view()[key] == old(self).view().insert(k, v)[key] by {
                    let n = choose|n: int| has_key_at(post, n, key);
                    if key == k {
                        assert(n == i);
                    } else {
                        assert(has_key_at(pre, n, key));
                        let m = choose|m: int| has_key_at(pre, m, key);
                        assert(m == n);
                    }
                }
                assert(self.view() =~= old(self).view().insert(k, v));
            },
            None => {
                self.entries.push((a, x));
                let ghost post = self.entries@;
                let ghost last = pre.len() as int;
                assert(has_key_at(post, last, k));
                assert forall|key: Seq<char>| #![auto]
                    self.view().contains_key(key) == old(self).view().insert(k, v).contains_key(key) by {
                    if key != k {
                        if exists|n: int| has_key_at(pre, n, key) {
                            let n = choose|n: int| has_key_at(pre, n, key);
                            assert(has_key_at(post, n, key));
                        }
                        if exists|n: int| has_key_at(post, n, key) {
                            let n = choose|n: int| has_key_at(post, n, key);
                            assert(has_key_at(pre, n, key));
                        }
                    }
                }
                assert forall|key: Seq<char>| #![auto] self.view().contains_key(key) implies
                    self.view()[key] == old(self).view().insert(k, v)[key] by {
                    let n = choose|n: int| has_key_at(post, n, key);
                    if key == k {
                        assert(n == last);
                    } else {
                        assert(has_key_at(pre, n, key));
                        let m = choose|m: int| has_key_at(pre, m, key);
                        assert(m == n);
                    }
                }
                assert(self.view() =~= old(self).view().insert(k, v));
            },
        }
    }
}

} // verus!
