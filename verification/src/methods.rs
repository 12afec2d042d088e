//! A set of HTTP method names.

use crate::text::str_eq;
use vstd::prelude::*;

verus! {

/// A set of method names, kept in the order in which they were first added.
#[derive(Debug)]
pub struct Methods {
    items: Vec<String>,
}

impl View for Methods {
    type V = Set<Seq<char>>;

    closed spec fn view(&self) -> Set<Seq<char>> {
        self.names().to_set()
    }
}

impl Methods {
    /// The names of the set, each once, in the order of first insertion.
    pub closed spec fn names(&self) -> Seq<Seq<char>> {
        self.items@.map_values(|name: String| name@)
    }

    /// The list repeats no name. Every set that this module builds is
    /// distinct, and every operation keeps a set so.
    pub closed spec fn distinct(&self) -> bool {
        self.names().no_duplicates()
    }

    /// The set holds exactly the names of the list, and the list repeats none.
    pub proof fn lemma_names(&self)
        ensures
            self@.finite(),
            forall|name: Seq<char>| self@.contains(name) <==> self.names().contains(name),
    {
        vstd::seq_lib::seq_to_set_is_finite(self.names());
    }

    /// The empty set.
    pub fn new() -> (set: Methods)
        ensures
            set@ == Set::<Seq<char>>::empty(),
            set.names().len() == 0,
            set.distinct(),
    {
        let set = Methods { items: Vec::new() };
        assert(set.names() =~= Seq::<Seq<char>>::empty());
        assert(set@ =~= Set::<Seq<char>>::empty());
        set
    }

    /// The number of names in the set.
    pub fn len(&self) -> (n: usize)
        ensures
            n == self.names().len(),
            self.distinct() ==> n == self@.len(),
    {
        proof {
            if self.distinct() {
                self.names().unique_seq_to_set();
            }
        }
        self.items.len()
    }

    /// The name at one position of the list.
    pub fn get(&self, position: usize) -> (name: &String)
        requires
            position < self.names().len(),
        ensures
            name@ == self.names()[position as int],
            self@.contains(name@),
    {
        proof {
            assert(self.names().contains(self.names()[position as int]));
        }
        &self.items[position]
    }

    /// Whether the set holds a name.
    pub fn contains(&self, name: &str) -> (found: bool)
        ensures
            found == self@.contains(name@),
    {
        let mut i: usize = 0;
        while i < self.items.len()
            invariant
                i <= self.items.len(),
                forall|j: int| 0 <= j < i ==> self.names()[j] != name@,
            decreases self.items.len() - i,
        {
            if str_eq(self.items[i].as_str(), name) {
                proof {
                    assert(self.names()[i as int] == name@);
                    assert(self.names().contains(name@));
                }
                return true;
            }
            i = i + 1;
        }
        false
    }

    /// Adds a name; says whether it was new.
    pub fn insert(&mut self, name: String) -> (added: bool)
        ensures
            final(self)@ == old(self)@.insert(name@),
            added == !old(self)@.contains(name@),
            added ==> final(self).names() == old(self).names().push(name@),
            !added ==> final(self).names() == old(self).names(),
            old(self).distinct() ==> final(self).distinct(),
    {
        if self.contains(name.as_str()) {
            proof {
                assert(self@.insert(name@) =~= self@);
            }
            return false;
        }
        let ghost before = self.names();
        self.items.push(name);
        proof {
            assert(self.names() =~= before.push(name@));
            assert(self.names().to_set() =~= before.to_set().insert(name@)) by {
                assert forall|x: Seq<char>| self.names().to_set().contains(x)
                    <==> before.to_set().insert(name@).contains(x) by {
                    if self.names().contains(x) {
                        let k = choose|k: int| 0 <= k < self.names().len() && self.names()[k] == x;
                        if k < before.len() {
                            assert(before[k] == x);
                            assert(before.contains(x));
                        }
                    }
                    if before.contains(x) {
                        let k = choose|k: int| 0 <= k < before.len() && before[k] == x;
                        assert(self.names()[k] == x);
                    }
                    if x == name@ {
                        assert(self.names()[before.len() as int] == x);
                    }
                }
            }
            if before.no_duplicates() {
                assert(!before.contains(name@));
                assert forall|a: int, b: int|
                    0 <= a < self.names().len() && 0 <= b < self.names().len() && a != b implies self.names()[a]
                    != self.names()[b] by {
                    if a < before.len() && b < before.len() {
                        assert(before[a] != before[b]);
                    } else if a < before.len() {
                        assert(before.contains(before[a]));
                    } else {
                        assert(before.contains(before[b]));
                    }
                }
            }
        }
        true
    }

    /// Adds every name of another set.
    pub fn extend(&mut self, other: &Methods)
        ensures
            final(self)@ == old(self)@.union(other@),
            old(self).distinct() ==> final(self).distinct(),
    {
        let n = other.len();
        let mut i: usize = 0;
        while i < n
            invariant
                n == other.names().len(),
                i <= n,
                old(self).distinct() ==> self.distinct(),
                forall|x: Seq<char>|
                    self@.contains(x) <==> (old(self)@.contains(x) || exists|j: int|
                        0 <= j < i && other.names()[j] == x),
            decreases n - i,
        {
            let name = other.get(i).clone();
            self.insert(name);
            i = i + 1;
        }
        proof {
            other.lemma_names();
            assert(self@ =~= old(self)@.union(other@));
        }
    }

    /// The set of the names in a list.
    pub fn from_vec(names: Vec<String>) -> (set: Methods)
        ensures
            set.distinct(),
            forall|x: Seq<char>|
                set@.contains(x) <==> exists|j: int| 0 <= j < names.len() && names[j]@ == x,
    {
        let mut set = Methods::new();
        let mut i: usize = 0;
        while i < names.len()
            invariant
                i <= names.len(),
                set.distinct(),
                forall|x: Seq<char>|
                    set@.contains(x) <==> exists|j: int| 0 <= j < i && names[j]@ == x,
            decreases names.len() - i,
        {
            let name = names[i].clone();
            set.insert(name);
            i = i + 1;
        }
        set
    }
}

} // verus!
