//! The agent roster of a multi-agent ensemble: agents found by id, kept in
//! the order in which their ids first joined.

use vstd::prelude::*;

verus! {

/// `order`/`entries` after adding `agent` under `id`: an id already present
/// keeps its place and has its agent replaced; a new id joins at the end.
pub open spec fn roster_after_insert<A>(
    order: Seq<Seq<char>>,
    entries: Seq<A>,
    id: Seq<char>,
    agent: A,
) -> (Seq<Seq<char>>, Seq<A>) {
    if order.contains(id) {
        (order, entries.update(order.index_of(id), agent))
    } else {
        (order.push(id), entries.push(agent))
    }
}

/// `order`/`entries` after removing `id`: its place disappears and every
/// other id keeps its relative order; an absent id changes nothing.
pub open spec fn roster_after_remove<A>(
    order: Seq<Seq<char>>,
    entries: Seq<A>,
    id: Seq<char>,
) -> (Seq<Seq<char>>, Seq<A>) {
    if order.contains(id) {
        let i = order.index_of(id);
        (order.remove(i), entries.remove(i))
    } else {
        (order, entries)
    }
}

/// The agent of an ensemble filed under `id`, if any.
pub open spec fn roster_lookup<A>(order: Seq<Seq<char>>, entries: Seq<A>, id: Seq<char>) -> Option<A> {
    if order.contains(id) {
        Some(entries[order.index_of(id)])
    } else {
        None
    }
}

/// In a sequence without duplicates, the position of an element is the
/// index at which it stands.
proof fn lemma_index_of_unique(s: Seq<Seq<char>>, i: int)
    requires
        s.no_duplicates(),
        0 <= i < s.len(),
    ensures
        s.contains(s[i]),
        s.index_of(s[i]) == i,
{
    assert(s.contains(s[i]));
}

/// Reading an id right after filing an agent under it gives that agent;
/// every other id reads as before.
pub proof fn lemma_lookup_after_insert<A>(
    order: Seq<Seq<char>>,
    entries: Seq<A>,
    id: Seq<char>,
    agent: A,
    other: Seq<char>,
)
    requires
        order.no_duplicates(),
        order.len() == entries.len(),
    ensures
        ({
            let (o, e) = roster_after_insert(order, entries, id, agent);
            &&& o.no_duplicates()
            &&& o.len() == e.len()
            &&& roster_lookup(o, e, id) == Some(agent)
            &&& other != id ==> roster_lookup(o, e, other) == roster_lookup(order, entries, other)
        }),
{
    let (o, e) = roster_after_insert(order, entries, id, agent);
    if order.contains(id) {
        let i = order.index_of(id);
        lemma_index_of_unique(order, i);
        if order.contains(other) && other != id {
            let j = order.index_of(other);
            lemma_index_of_unique(order, j);
        }
    } else {
        let n = order.len() as int;
        assert(o[n] == id);
        lemma_index_of_unique(o, n);
        if order.contains(other) {
            let j = order.index_of(other);
            lemma_index_of_unique(order, j);
            assert(o[j] == other);
            lemma_index_of_unique(o, j);
        }
        if o.contains(other) && other != id {
            let j = o.index_of(other);
            assert(j < n);
            assert(order[j] == other);
        }
    }
}

/// After removing an id nothing is filed under it, and every other id
/// reads as before.
pub proof fn lemma_lookup_after_remove<A>(
    order: Seq<Seq<char>>,
    entries: Seq<A>,
    id: Seq<char>,
    other: Seq<char>,
)
    requires
        order.no_duplicates(),
        order.len() == entries.len(),
    ensures
        ({
            let (o, e) = roster_after_remove(order, entries, id);
            &&& o.no_duplicates()
            &&& o.len() == e.len()
            &&& roster_lookup(o, e, id) is None
            &&& other != id ==> roster_lookup(o, e, other) == roster_lookup(order, entries, other)
        }),
{
    let (o, e) = roster_after_remove(order, entries, id);
    if order.contains(id) {
        let i = order.index_of(id);
        lemma_index_of_unique(order, i);
        if o.contains(id) {
            let j = o.index_of(id);
            if j < i {
                assert(order[j] == id);
            } else {
                assert(order[j + 1] == id);
            }
        }
        if order.contains(other) && other != id {
            let j = order.index_of(other);
            lemma_index_of_unique(order, j);
            let k = if j < i { j } else { j - 1 };
            assert(o[k] == other);
            lemma_index_of_unique(o, k);
        }
        if o.contains(other) && other != id {
            let k = o.index_of(other);
            let j = if k < i { k } else { k + 1 };
            assert(order[j] == other);
        }
    }
}

/// Removing an id that was just added for the first time gives back the
/// roster as it stood before the addition.
pub proof fn lemma_remove_undoes_new_insert<A>(
    order: Seq<Seq<char>>,
    entries: Seq<A>,
    id: Seq<char>,
    agent: A,
)
    requires
        order.no_duplicates(),
        order.len() == entries.len(),
        !order.contains(id),
    ensures
        ({
            let (o, e) = roster_after_insert(order, entries, id, agent);
            roster_after_remove(o, e, id) == (order, entries)
        }),
{
    let (o, e) = roster_after_insert(order, entries, id, agent);
    let n = order.len() as int;
    assert(o[n] == id);
    assert(o.no_duplicates());
    lemma_index_of_unique(o, n);
    assert(o.remove(n) =~= order);
    assert(e.remove(n) =~= entries);
}

/// Filing an agent under an id not yet present appends the id and the
/// agent at the end; every earlier id and agent keeps its index.
pub proof fn lemma_insert_appends_new_id<A>(
    order: Seq<Seq<char>>,
    entries: Seq<A>,
    id: Seq<char>,
    agent: A,
)
    requires
        order.len() == entries.len(),
        !order.contains(id),
    ensures
        ({
            let (o, e) = roster_after_insert(order, entries, id, agent);
            let n = order.len() as int;
            &&& o.len() == n + 1
            &&& e.len() == n + 1
            &&& o[n] == id
            &&& e[n] == agent
            &&& forall|k: int| 0 <= k < n ==> #[trigger] o[k] == order[k]
            &&& forall|k: int| 0 <= k < n ==> #[trigger] e[k] == entries[k]
        }),
{
}

/// Filing an agent under an id standing at position `i` leaves the order
/// as it is and replaces the agent at `i` only.
pub proof fn lemma_insert_replaces_in_place<A>(
    order: Seq<Seq<char>>,
    entries: Seq<A>,
    id: Seq<char>,
    agent: A,
    i: int,
)
    requires
        order.no_duplicates(),
        order.len() == entries.len(),
        0 <= i < order.len(),
        order[i] == id,
    ensures
        ({
            let (o, e) = roster_after_insert(order, entries, id, agent);
            &&& o == order
            &&& e.len() == entries.len()
            &&& e[i] == agent
            &&& forall|k: int| 0 <= k < entries.len() && k != i ==> #[trigger] e[k] == entries[k]
        }),
{
    lemma_index_of_unique(order, i);
}

/// Removing the id at position `i` deletes exactly that position from the
/// order and from the agents: ids before it keep their index, ids after it
/// move down by one, so the remaining ids keep their relative order.
pub proof fn lemma_remove_deletes_one_position<A>(
    order: Seq<Seq<char>>,
    entries: Seq<A>,
    id: Seq<char>,
    i: int,
)
    requires
        order.no_duplicates(),
        order.len() == entries.len(),
        0 <= i < order.len(),
        order[i] == id,
    ensures
        ({
            let (o, e) = roster_after_remove(order, entries, id);
            &&& o.len() == order.len() - 1
            &&& e.len() == entries.len() - 1
            &&& forall|k: int|
                0 <= k < o.len() ==> #[trigger] o[k] == order[if k < i {
                    k
                } else {
                    k + 1
                }]
            &&& forall|k: int|
                0 <= k < e.len() ==> #[trigger] e[k] == entries[if k < i {
                    k
                } else {
                    k + 1
                }]
            &&& forall|a: int, b: int|
                #![trigger order[a], order[b]]
                0 <= a < b < order.len() && a != i && b != i ==> {
                    let a2 = if a < i { a } else { a - 1 };
                    let b2 = if b < i { b } else { b - 1 };
                    a2 < b2 && o[a2] == order[a] && o[b2] == order[b]
                }
        }),
{
    lemma_index_of_unique(order, i);
}

/// An id standing at position `i` reads as the agent at `i`; an absent id
/// reads as nothing.
pub proof fn lemma_lookup_reads_position<A>(
    order: Seq<Seq<char>>,
    entries: Seq<A>,
    id: Seq<char>,
    i: int,
)
    requires
        order.no_duplicates(),
        order.len() == entries.len(),
    ensures
        0 <= i < order.len() && order[i] == id ==> roster_lookup(order, entries, id) == Some(
            entries[i],
        ),
        !order.contains(id) ==> roster_lookup(order, entries, id) is None,
{
    if 0 <= i < order.len() && order[i] == id {
        lemma_index_of_unique(order, i);
    }
}

/// The agents of an ensemble, by id, in the order in which their ids joined.
///
/// Its view is the sequence of ids ([`AgentRoster::order`], the agent order
/// of the ensemble) and the sequence of agents standing at the same
/// positions ([`AgentRoster::entries`]).
#[derive(Debug, Clone)]
pub struct AgentRoster<A> {
    ids: Vec<String>,
    agents: Vec<A>,
}

impl<A> AgentRoster<A> {
    /// The ids, in the order in which they joined.
    pub closed spec fn order(&self) -> Seq<Seq<char>> {
        self.ids@.map_values(|s: String| s@)
    }

    /// The agents, at the positions of their ids.
    pub closed spec fn entries(&self) -> Seq<A> {
        self.agents@
    }

    /// One agent per id, and no id twice.
    pub open spec fn well_formed(&self) -> bool {
        &&& self.order().len() == self.entries().len()
        &&& self.order().no_duplicates()
    }

    /// The agent filed under `id`, if any.
    pub open spec fn lookup(&self, id: Seq<char>) -> Option<A> {
        roster_lookup(self.order(), self.entries(), id)
    }

    /// An empty roster.
    pub fn new() -> (r: Self)
        ensures
            r.well_formed(),
            r.order() == Seq::<Seq<char>>::empty(),
            r.entries() == Seq::<A>::empty(),
    {
        let r = AgentRoster { ids: Vec::new(), agents: Vec::new() };
        assert(r.order() =~= Seq::<Seq<char>>::empty());
        r
    }

    /// The number of agents.
    pub fn len(&self) -> (r: usize)
        requires
            self.well_formed(),
        ensures
            r == self.order().len(),
    {
        self.ids.len()
    }

    /// Whether there is no agent.
    pub fn is_empty(&self) -> (r: bool)
        requires
            self.well_formed(),
        ensures
            r == (self.order().len() == 0),
    {
        self.ids.len() == 0
    }

    /// The ids, in the order in which they joined.
    pub fn ids(&self) -> (r: &[String])
        ensures
            r@.map_values(|s: String| s@) == self.order(),
    {
        self.ids.as_slice()
    }

    /// The agents, in the order of their ids.
    pub fn agents(&self) -> (r: &[A])
        ensures
            r@ == self.entries(),
    {
        self.agents.as_slice()
    }

    /// The position of `id`, if present.
    fn position(&self, id: &String) -> (r: Option<usize>)
        requires
            self.well_formed(),
        ensures
            match r {
                Some(i) => i < self.order().len() && self.order().contains(id@)
                    && self.order().index_of(id@) == i,
                None => !self.order().contains(id@),
            },
    {
        let mut i: usize = 0;
        while i < self.ids.len()
            invariant
                self.well_formed(),
                i <= self.ids.len(),
                forall|j: int| 0 <= j < i ==> self.order()[j] != id@,
            decreases self.ids.len() - i,
        {
            if self.ids[i] == *id {
                proof {
                    lemma_index_of_unique(self.order(), i as int);
                }
                return Some(i);
            }
            i += 1;
        }
        None
    }

    /// The agent filed under `id`, if any.
    pub fn get(&self, id: &str) -> (r: Option<&A>)
        requires
            self.well_formed(),
        ensures
            match r {
                Some(a) => self.lookup(id@) == Some(*a),
                None => self.lookup(id@) is None,
            },
            forall|i: int|
                0 <= i < self.order().len() && #[trigger] self.order()[i] == id@ ==> (r matches Some(
                    a,
                ) && *a == self.entries()[i]),
            !self.order().contains(id@) ==> r is None,
    {
        let key = id.to_owned();
        match self.position(&key) {
            Some(i) => {
                proof {
                    assert forall|j: int|
                        0 <= j < self.order().len() && #[trigger] self.order()[j]
                            == id@ implies j == i by {
                        lemma_index_of_unique(self.order(), j);
                    }
                }
                Some(&self.agents[i])
            },
            None => None,
        }
    }

    /// The agent filed under `id`, if any, to change in place; the order
    /// and the other agents stay as they are.
    pub fn get_mut(&mut self, id: &str) -> (r: Option<&mut A>)
        requires
            old(self).well_formed(),
        ensures
            final(self).order() == old(self).order(),
            match r {
                Some(a) => {
                    &&& old(self).lookup(id@) == Some(*a)
                    &&& final(self).entries() == old(self).entries().update(
                        old(self).order().index_of(id@),
                        *final(a),
                    )
                },
                None => {
                    &&& old(self).lookup(id@) is None
                    &&& final(self).entries() == old(self).entries()
                },
            },
            forall|i: int|
                0 <= i < old(self).order().len() && #[trigger] old(self).order()[i] == id@ ==> (r matches Some(
                    a,
                ) && *a == old(self).entries()[i] && final(self).entries() == old(
                    self,
                ).entries().update(i, *final(a))),
            !old(self).order().contains(id@) ==> r is None,
    {
        let key = id.to_owned();
        match self.position(&key) {
            Some(i) => {
                proof {
                    assert forall|j: int|
                        0 <= j < old(self).order().len() && #[trigger] old(self).order()[j]
                            == id@ implies j == i by {
                        lemma_index_of_unique(old(self).order(), j);
                    }
                }
                Some(&mut self.agents[i])
            },
            None => None,
        }
    }

    /// File `agent` under `id`. An id already present keeps its place in the
    /// order and has its agent replaced; a new id joins at the end.
    pub fn insert(&mut self, id: String, agent: A)
        requires
            old(self).well_formed(),
        ensures
            final(self).well_formed(),
            (final(self).order(), final(self).entries()) == roster_after_insert(
                old(self).order(),
                old(self).entries(),
                id@,
                agent,
            ),
            // A new id joins at the end; every earlier id and agent keeps its index.
            !old(self).order().contains(id@) ==> {
                &&& final(self).order().len() == old(self).order().len() + 1
                &&& final(self).entries().len() == old(self).entries().len() + 1
                &&& final(self).order()[old(self).order().len() as int] == id@
                &&& final(self).entries()[old(self).entries().len() as int] == agent
                &&& forall|k: int|
                    0 <= k < old(self).order().len() ==> #[trigger] final(self).order()[k]
                        == old(self).order()[k]
                &&& forall|k: int|
                    0 <= k < old(self).entries().len() ==> #[trigger] final(self).entries()[k]
                        == old(self).entries()[k]
            },
            // A present id keeps its place and only its agent is replaced.
            forall|i: int|
                0 <= i < old(self).order().len() && #[trigger] old(self).order()[i] == id@ ==> {
                    &&& final(self).order() == old(self).order()
                    &&& final(self).entries().len() == old(self).entries().len()
                    &&& final(self).entries()[i] == agent
                    &&& forall|k: int|
                        0 <= k < old(self).entries().len() && k != i
                            ==> #[trigger] final(self).entries()[k] == old(self).entries()[k]
                },
    {
        match self.position(&id) {
            Some(i) => {
                self.agents.set(i, agent);
                assert(self.order() == old(self).order());
                proof {
                    assert forall|j: int|
                        0 <= j < old(self).order().len() && #[trigger] old(self).order()[j]
                            == id@ implies j == i by {
                        lemma_index_of_unique(old(self).order(), j);
                    }
                }
            },
            None => {
                let ghost id_view = id@;
                self.ids.push(id);
                self.agents.push(agent);
                assert(self.order() =~= old(self).order().push(id_view));
            },
        }
    }

    /// Remove the agent filed under `id`, handing it back; the other ids
    /// keep their relative order.
    pub fn remove(&mut self, id: &str) -> (r: Option<A>)
        requires
            old(self).well_formed(),
        ensures
            final(self).well_formed(),
            r == old(self).lookup(id@),
            (final(self).order(), final(self).entries()) == roster_after_remove(
                old(self).order(),
                old(self).entries(),
                id@,
            ),
            // A present id at position i: its agent is handed back, and exactly
            // position i is deleted from the order and from the agents.
            forall|i: int|
                0 <= i < old(self).order().len() && #[trigger] old(self).order()[i] == id@ ==> {
                    &&& r == Some(old(self).entries()[i])
                    &&& final(self).order().len() == old(self).order().len() - 1
                    &&& final(self).entries().len() == old(self).entries().len() - 1
                    &&& forall|k: int|
                        0 <= k < final(self).order().len() ==> #[trigger] final(self).order()[k]
                            == old(self).order()[if k < i {
                            k
                        } else {
                            k + 1
                        }]
                    &&& forall|k: int|
                        0 <= k < final(self).entries().len() ==> #[trigger] final(self).entries()[k]
                            == old(self).entries()[if k < i {
                            k
                        } else {
                            k + 1
                        }]
                },
            // An absent id: nothing is handed back and nothing changes.
            !old(self).order().contains(id@) ==> {
                &&& r is None
                &&& final(self).order() == old(self).order()
                &&& final(self).entries() == old(self).entries()
            },
    {
        let key = id.to_owned();
        match self.position(&key) {
            Some(i) => {
                let _ = self.ids.remove(i);
                let agent = self.agents.remove(i);
                assert(self.order() =~= old(self).order().remove(i as int));
                proof {
                    assert forall|j: int|
                        0 <= j < old(self).order().len() && #[trigger] old(self).order()[j]
                            == id@ implies j == i by {
                        lemma_index_of_unique(old(self).order(), j);
                    }
                }
                Some(agent)
            },
            None => None,
        }
    }
}

} // verus!
