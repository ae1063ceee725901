//! A set of names.
use vstd::prelude::*;

verus! {

/// Some name of the list is `n`.
pub open spec fn names_has(names: Seq<String>, n: Seq<char>) -> bool {
    exists|i: int| 0 <= i < names.len() && (#[trigger] names[i])@ == n
}

/// A set of names, held as a list.
pub struct NameSet {
    names: Vec<String>,
}

impl View for NameSet {
    type V = Set<Seq<char>>;

    closed spec fn view(&self) -> Set<Seq<char>> {
        Set::new(|n: Seq<char>| names_has(self.names@, n))
    }
}

impl NameSet {
    pub fn new() -> (r: Self)
        ensures
            r@ == Set::<Seq<char>>::empty(),
    {
        let r = NameSet { names: Vec::new() };
        assert(r@ =~= Set::<Seq<char>>::empty());
        r
    }

    pub fn contains(&self, name: &String) -> (r: bool)
        ensures
            r == self@.contains(name@),
    {
        let mut i: usize = 0;
        while i < self.names.len()
            invariant
                i <= self.names@.len(),
                forall|j: int| 0 <= j < i ==> (#[trigger] self.names@[j])@ != name@,
            decreases self.names@.len() - i,
        {
            if self.names[i] == *name {
                assert(self.names@[i as int]@ == name@);
                return true;
            }
            i += 1;
        }
        false
    }

    /// Puts a name in and tells whether it is new.
    pub fn insert(&mut self, name: String) -> (r: bool)
        ensures
            r == !old(self)@.contains(name@),
            final(self)@ == old(self)@.insert(name@),
    {
        let ghost before = self.names@;
        if self.contains(&name) {
            assert(self@.insert(name@) =~= self@);
            return false;
        }
        self.names.push(name);
        proof {
            let after = self.names@;
            assert forall|n: Seq<char>| names_has(after, n) == (names_has(before, n) || n
                == name@) by {
                if names_has(after, n) {
                    let i = choose|i: int| 0 <= i < after.len() && (#[trigger] after[i])@ == n;
                    if i < before.len() {
                        assert(before[i]@ == n);
                    }
                }
                if names_has(before, n) {
                    let i = choose|i: int| 0 <= i < before.len() && (#[trigger] before[i])@ == n;
                    assert(after[i]@ == n);
                }
                if n == name@ {
                    assert(after[before.len() as int]@ == n);
                }
            }
            assert(self@ =~= old(self)@.insert(name@));
        }
        true
    }

    pub fn is_empty(&self) -> (r: bool)
        ensures
            r == (self@ == Set::<Seq<char>>::empty()),
    {
        if self.names.len() == 0 {
            assert(self@ =~= Set::<Seq<char>>::empty());
            true
        } else {
            proof {
                assert(self.names@[0]@ == self.names@[0]@);
                assert(names_has(self.names@, self.names@[0]@));
                assert(self@.contains(self.names@[0]@));
            }
            false
        }
    }

    /// The length of the list.
    pub fn len(&self) -> (r: usize)
        ensures
            r == self.list().len(),
    {
        self.names.len()
    }

    /// The names in the order in which they were put in.
    pub closed spec fn list(&self) -> Seq<String> {
        self.names@
    }

    /// A name is in the set when it is listed.
    pub proof fn lemma_list(&self)
        ensures
            forall|n: Seq<char>| self@.contains(n) == #[trigger] names_has(self.list(), n),
    {
    }

    pub fn get(&self, i: usize) -> (r: &String)
        requires
            i < self.list().len(),
        ensures
            *r == self.list()[i as int],
            self@.contains(r@),
    {
        assert(names_has(self.names@, self.names@[i as int]@)) by {
            assert(self.names@[i as int]@ == self.names@[i as int]@);
        }
        &self.names[i]
    }

    /// The names that are also in `other`.
    pub fn intersect(&self, other: &NameSet) -> (r: NameSet)
        ensures
            r@ == self@.intersect(other@),
    {
        let mut r = NameSet::new();
        let mut i: usize = 0;
        while i < self.names.len()
            invariant
                i <= self.names@.len(),
                forall|n: Seq<char>|
                    #![trigger r@.contains(n)]
                    r@.contains(n) <==> other@.contains(n) && names_has(
                        self.names@.take(i as int),
                        n,
                    ),
            decreases self.names@.len() - i,
        {
            let ghost before = r@;
            let name = &self.names[i];
            if other.contains(name) {
                r.insert(name.clone());
            }
            proof {
                let now = self.names@.take(i + 1);
                let prev = self.names@.take(i as int);
                assert forall|n: Seq<char>|
                    names_has(now, n) == (names_has(prev, n) || n == name@) by {
                    if names_has(now, n) {
                        let j = choose|j: int| 0 <= j < now.len() && (#[trigger] now[j])@ == n;
                        if j < i {
                            assert(prev[j]@ == n);
                        }
                    }
                    if names_has(prev, n) {
                        let j = choose|j: int| 0 <= j < prev.len() && (#[trigger] prev[j])@ == n;
                        assert(now[j]@ == n);
                    }
                    if n == name@ {
                        assert(now[i as int]@ == n);
                    }
                }
            }
            i += 1;
        }
        proof {
            assert(self.names@.take(self.names@.len() as int) =~= self.names@);
            assert(r@ =~= self@.intersect(other@));
        }
        r
    }

    /// The set without one name.
    pub fn without(&self, gone: &String) -> (r: NameSet)
        ensures
            r@ == self@.remove(gone@),
    {
        let mut r = NameSet::new();
        let mut i: usize = 0;
        while i < self.names.len()
            invariant
                i <= self.names@.len(),
                forall|n: Seq<char>|
                    #![trigger r@.contains(n)]
                    r@.contains(n) <==> n != gone@ && names_has(self.names@.take(i as int), n),
            decreases self.names@.len() - i,
        {
            let name = &self.names[i];
            if *name != *gone {
                r.insert(name.clone());
            }
            proof {
                let now = self.names@.take(i + 1);
                let prev = self.names@.take(i as int);
                assert forall|n: Seq<char>|
                    names_has(now, n) == (names_has(prev, n) || n == name@) by {
                    if names_has(now, n) {
                        let j = choose|j: int| 0 <= j < now.len() && (#[trigger] now[j])@ == n;
                        if j < i {
                            assert(prev[j]@ == n);
                        }
                    }
                    if names_has(prev, n) {
                        let j = choose|j: int| 0 <= j < prev.len() && (#[trigger] prev[j])@ == n;
                        assert(now[j]@ == n);
                    }
                    if n == name@ {
                        assert(now[i as int]@ == n);
                    }
                }
            }
            i += 1;
        }
        proof {
            assert(self.names@.take(self.names@.len() as int) =~= self.names@);
            assert(r@ =~= self@.remove(gone@));
        }
        r
    }
}

} // verus!
