use vstd::prelude::*;

verus! {

/// A small integer chosen by whoever adds a selector; it comes back with every match.
pub type MatchId = u32;

/// A set of match ids, held in ascending order.
#[derive(Debug, PartialEq, Eq)]
pub struct DenseHashSet {
    ids: Vec<MatchId>,
}

/// Whether every id is larger than the ones before it.
pub open spec fn is_ascending(ids: Seq<MatchId>) -> bool {
    forall|i: int, j: int| 0 <= i < j < ids.len() ==> ids[i] < ids[j]
}

impl View for DenseHashSet {
    type V = Set<MatchId>;

    closed spec fn view(&self) -> Set<MatchId> {
        self.ids@.to_set()
    }
}

impl DenseHashSet {
    #[verifier::type_invariant]
    spec fn is_well_formed(self) -> bool {
        is_ascending(self.ids@)
    }

    /// The empty set.
    #[must_use]
    pub fn new() -> (set: Self)
        ensures
            set@ == Set::<MatchId>::empty(),
    {
        let set = DenseHashSet { ids: Vec::new() };
        assert(set@ =~= Set::<MatchId>::empty());
        set
    }

    /// Adds `id`, unless it is there already.
    pub fn insert(&mut self, id: MatchId)
        ensures
            final(self)@ == old(self)@.insert(id),
    {
        proof {
            use_type_invariant(&*self);
        }
        let mut at: usize = 0;
        while at < self.ids.len() && self.ids[at] < id
            invariant
                at <= self.ids.len(),
                *self == *old(self),
                is_ascending(self.ids@),
                forall|k: int| 0 <= k < at ==> self.ids@[k] < id,
            decreases self.ids.len() - at,
        {
            at = at + 1;
        }
        if at < self.ids.len() && self.ids[at] == id {
            assert(self.ids@.to_set().contains(id)) by {
                assert(self.ids@[at as int] == id);
            }
            assert(self@ =~= old(self)@.insert(id));
            return;
        }
        let mut ids: Vec<MatchId> = Vec::new();
        std::mem::swap(&mut ids, &mut self.ids);
        let ghost before = ids@;
        ids.insert(at, id);
        proof {
            assert forall|x: MatchId| ids@.to_set().contains(x) == before.to_set().insert(
                id,
            ).contains(x) by {
                if ids@.to_set().contains(x) && x != id {
                    let k: int = choose|k: int| 0 <= k < ids@.len() && ids@[k] == x;
                    if k < at {
                        assert(before[k] == x);
                    } else {
                        assert(before[k - 1] == x);
                    }
                }
                if before.to_set().contains(x) {
                    let k: int = choose|k: int| 0 <= k < before.len() && before[k] == x;
                    if k < at {
                        assert(ids@[k] == x);
                    } else {
                        assert(ids@[k + 1] == x);
                    }
                }
                assert(ids@[at as int] == id);
            }
            assert(ids@.to_set() =~= before.to_set().insert(id));
        }
        self.ids = ids;
    }

    /// The ids in ascending order.
    pub fn ids(&self) -> (ids: &[MatchId])
        ensures
            ids@.to_set() == self@,
            is_ascending(ids@),
    {
        proof {
            use_type_invariant(self);
        }
        self.ids.as_slice()
    }
}

impl Default for DenseHashSet {
    fn default() -> (set: Self)
        ensures
            set@ == Set::<MatchId>::empty(),
    {
        DenseHashSet::new()
    }
}

/// A set holds an id exactly if it was put in, and gives each of its ids once, the smaller ones first.
pub proof fn law_set_holds_what_was_put_in(id: MatchId, other: MatchId)
    ensures
        forall|set: &mut DenseHashSet|
            #[trigger] call_ensures(DenseHashSet::insert, (set, id), ()) ==> {
                let after = (*final(set))@;
                after.contains(other) <==> set@.contains(other) || other == id
            },
        forall|set: DenseHashSet, ids: &[MatchId]|
            #[trigger] call_ensures(DenseHashSet::ids, (&set,), ids) ==> {
                &&& ids@.contains(other) <==> set@.contains(other)
                &&& forall|i: int, j: int| 0 <= i < j < ids@.len() ==> ids@[i] < ids@[j]
            },
{
    assert forall|set: DenseHashSet, ids: &[MatchId]|
        #[trigger] call_ensures(DenseHashSet::ids, (&set,), ids) implies (ids@.contains(other)
        <==> set@.contains(other)) by {
        assert(ids@.to_set().contains(other) <==> ids@.contains(other));
    }
}

} // verus!
