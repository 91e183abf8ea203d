//! A set of identifiers that keeps the order in which they were added.
use vstd::prelude::*;
use vstd::hash_set::StringHashSet;
use crate::seqs::{lemma_push_contains, lemma_push_no_duplicates};

verus! {

/// A set of identifiers. Membership is answered from a hash set; the
/// identifiers can also be listed, first added first.
pub struct IdSet {
    order: Vec<String>,
    index: StringHashSet,
}

impl View for IdSet {
    type V = Set<Seq<char>>;

    open spec fn view(&self) -> Set<Seq<char>> {
        self.seq().to_set()
    }
}

impl IdSet {
    /// The identifiers in the order in which they were added.
    pub closed spec fn seq(&self) -> Seq<Seq<char>> {
        self.order@.map_values(|s: String| s@)
    }

    /// No identifier is listed twice, and the hash set holds what is listed.
    pub closed spec fn wf(&self) -> bool {
        &&& self.seq().no_duplicates()
        &&& self.index@ == self.seq().to_set()
    }

    /// A well-formed set lists no identifier twice.
    pub proof fn lemma_listed_once(&self)
        requires
            self.wf(),
        ensures
            self.seq().no_duplicates(),
    {
    }

    /// The empty set.
    pub fn new() -> (s: IdSet)
        ensures
            s.wf(),
            s.seq() == Seq::<Seq<char>>::empty(),
            s@ == Set::<Seq<char>>::empty(),
    {
        let s = IdSet { order: Vec::new(), index: StringHashSet::new() };
        assert(s.seq() =~= Seq::<Seq<char>>::empty());
        assert(s.seq().to_set() =~= Set::<Seq<char>>::empty());
        s
    }

    /// How many identifiers the set holds.
    pub fn len(&self) -> (n: usize)
        ensures
            n == self.seq().len(),
    {
        self.order.len()
    }

    /// The identifier that was added as number `i`.
    pub fn get(&self, i: usize) -> (id: &String)
        requires
            i < self.seq().len(),
        ensures
            id@ == self.seq()[i as int],
    {
        &self.order[i]
    }

    /// Whether the set holds `id`.
    pub fn contains(&self, id: &str) -> (r: bool)
        requires
            self.wf(),
        ensures
            r == self@.contains(id@),
            r == self.seq().contains(id@),
    {
        self.index.contains(id)
    }

    /// Adds `id` unless the set holds it already, and says whether it was
    /// added.
    pub fn insert(&mut self, id: String) -> (added: bool)
        requires
            old(self).wf(),
        ensures
            final(self).wf(),
            added == !old(self)@.contains(id@),
            added == !old(self).seq().contains(id@),
            final(self).seq() == if added {
                old(self).seq().push(id@)
            } else {
                old(self).seq()
            },
            final(self)@ == old(self)@.insert(id@),
    {
        if self.index.contains(id.as_str()) {
            assert(self@.insert(id@) =~= self@);
            return false;
        }
        let ghost before = self.seq();
        let copy = id.clone();
        self.index.insert(copy);
        self.order.push(id);
        assert(self.seq() =~= before.push(id@));
        proof {
            lemma_push_contains(before, id@);
            lemma_push_no_duplicates(before, id@);
            assert(before.push(id@).to_set() =~= before.to_set().insert(id@));
        }
        true
    }
}

} // verus!
