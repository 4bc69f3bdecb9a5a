//! A set of pairs of strings.

use std::collections::HashSet;
use vstd::hash_map::StringHashMap;
use vstd::prelude::*;

verus! {

/// A set of pairs of strings.
///
/// Every string that occurs has a number of its own, and a pair is held as its two numbers.
pub struct PairSet {
    ids: StringHashMap<u64>,
    count: u64,
    codes: HashSet<u128>,
}

/// The pair of numbers `(a, b)` as one number.
spec fn code(a: u64, b: u64) -> int {
    a * 0x1_0000_0000_0000_0000 + b
}

proof fn lemma_code(a: u64, b: u64)
    ensures
        0 <= code(a, b) <= u128::MAX,
        code(a, b) / 0x1_0000_0000_0000_0000 == a,
        code(a, b) % 0x1_0000_0000_0000_0000 == b,
{
}

impl PairSet {
    /// The pairs that the set holds.
    pub closed spec fn view(&self) -> Set<(Seq<char>, Seq<char>)> {
        Set::new(
            |p: (Seq<char>, Seq<char>)|
                self.ids@.contains_key(p.0) && self.ids@.contains_key(p.1) && self.codes@.contains(
                    code(self.ids@[p.0], self.ids@[p.1]) as u128,
                ),
        )
    }

    /// Whether different strings have different numbers, and only those occur in pairs.
    pub closed spec fn well_formed(&self) -> bool {
        &&& forall|p: Seq<char>| #[trigger] self.ids@.contains_key(p) ==> self.ids@[p] < self.count
        &&& forall|p: Seq<char>, q: Seq<char>|
            #![trigger self.ids@[p], self.ids@[q]]
            self.ids@.contains_key(p) && self.ids@.contains_key(q) && self.ids@[p] == self.ids@[q] ==> p == q
        &&& forall|c: u128| #[trigger]
            self.codes@.contains(c) ==> c / 0x1_0000_0000_0000_0000 < self.count && c
                % 0x1_0000_0000_0000_0000 < self.count
    }

    /// How many different strings occur.
    pub closed spec fn strings(&self) -> int {
        self.count as int
    }

    /// The set without pairs.
    pub fn new() -> (set: PairSet)
        ensures
            set.well_formed(),
            set@ == Set::<(Seq<char>, Seq<char>)>::empty(),
            set.strings() == 0,
    {
        broadcast use vstd::std_specs::hash::group_hash_axioms;

        let set = PairSet { ids: StringHashMap::new(), count: 0, codes: HashSet::new() };
        assert(set@ =~= Set::<(Seq<char>, Seq<char>)>::empty());
        set
    }

    /// The number of `name`, a new one where it has none.
    fn number(&mut self, name: &str) -> (id: u64)
        requires
            old(self).well_formed(),
            old(self).strings() < u64::MAX,
        ensures
            final(self).well_formed(),
            final(self)@ == old(self)@,
            final(self).codes@ == old(self).codes@,
            final(self).ids@.contains_key(name@),
            final(self).ids@[name@] == id,
            forall|p: Seq<char>| #[trigger]
                old(self).ids@.contains_key(p) ==> final(self).ids@.contains_key(p)
                    && final(self).ids@[p] == old(self).ids@[p],
            old(self).strings() <= final(self).strings() <= old(self).strings() + 1,
    {
        match self.ids.get(name) {
            Some(id) => *id,
            None => {
                let id: u64 = self.count;
                let ghost before: PairSet = *self;
                self.ids.insert(name.to_owned(), id);
                self.count = id + 1;
                proof {
                    assert forall|p: (Seq<char>, Seq<char>)| self@.contains(p) == before@.contains(p) by {
                        if self.ids@.contains_key(p.0) && self.ids@.contains_key(p.1) {
                            lemma_code(self.ids@[p.0], self.ids@[p.1]);
                        }
                    }
                    assert(self@ =~= before@);
                }
                id
            },
        }
    }

    /// Adds the pair `(a, b)` and says whether it was new.
    pub fn insert(&mut self, a: &str, b: &str) -> (new: bool)
        requires
            old(self).well_formed(),
            old(self).strings() + 2 <= u64::MAX,
        ensures
            final(self).well_formed(),
            final(self)@ == old(self)@.insert((a@, b@)),
            new == !old(self)@.contains((a@, b@)),
            final(self).strings() <= old(self).strings() + 2,
    {
        broadcast use vstd::std_specs::hash::group_hash_axioms;

        let left: u64 = self.number(a);
        let right: u64 = self.number(b);
        proof {
            lemma_code(left, right);
        }
        let packed: u128 = left as u128 * 0x1_0000_0000_0000_0000 + right as u128;
        let ghost before: PairSet = *self;
        let new: bool = self.codes.insert(packed);
        proof {
            assert forall|p: (Seq<char>, Seq<char>)|
                self@.contains(p) == before@.insert((a@, b@)).contains(p) by {
                if self.ids@.contains_key(p.0) && self.ids@.contains_key(p.1) {
                    lemma_code(self.ids@[p.0], self.ids@[p.1]);
                }
            }
            assert(self@ =~= before@.insert((a@, b@)));
        }
        new
    }
}

} // verus!
