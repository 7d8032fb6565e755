//! The connection registry: the one piece of state the relay shares.
//!
//! It maps each live connection's identifier to the queue endpoint its
//! writer task drains. The surrounding binary guards a `Registry` with a
//! mutex and holds the lock only for the duration of one call here, never
//! across a blocking operation.

use vstd::prelude::*;
use crate::ext::clone_sender;

verus! {

/// Queue endpoint of one connection's outbound queue.
pub type QueueSender = tokio::sync::mpsc::UnboundedSender<String>;

/// Whether a broadcast goes back to its own sender.
///
/// The default policy of the relay is `ExcludeSender`: a client does not
/// receive its own message echoed back.
#[derive(Clone, Copy, PartialEq, Eq, Structural, Debug)]
pub enum Policy {
    /// Every registered connection but the sender receives the payload.
    ExcludeSender,
    /// Every registered connection receives the payload, the sender too.
    IncludeSender,
}

/// Whether `policy` lets a broadcast from `sender` reach connection `id`.
pub open spec fn allows(policy: Policy, sender: u128, id: u128) -> bool {
    policy is IncludeSender || id != sender
}

/// The identifiers a broadcast from `sender` goes to under `policy`: every
/// registered identifier the policy allows.
pub open spec fn target_ids(m: Map<u128, QueueSender>, policy: Policy, sender: u128) -> Set<u128> {
    m.dom().filter(|id: u128| allows(policy, sender, id))
}

/// The mapping an association list denotes: later entries win.
pub open spec fn map_of<V>(s: Seq<(u128, V)>) -> Map<u128, V>
    decreases s.len(),
{
    if s.len() == 0 {
        Map::empty()
    } else {
        map_of(s.drop_last()).insert(s.last().0, s.last().1)
    }
}

/// No identifier occurs twice in the list.
pub open spec fn distinct_ids<V>(s: Seq<(u128, V)>) -> bool {
    forall|i: int, j: int| 0 <= i < j < s.len() ==> s[i].0 != s[j].0
}

/// The set of identifiers occurring in the list.
pub open spec fn ids_of<V>(s: Seq<(u128, V)>) -> Set<u128> {
    Set::new(|id: u128| exists|i: int| 0 <= i < s.len() && (#[trigger] s[i]).0 == id)
}

/// An identifier is in the denoted map exactly when some entry carries it.
proof fn lemma_map_of_contains<V>(s: Seq<(u128, V)>, id: u128)
    ensures
        map_of(s).contains_key(id) <==> exists|i: int| 0 <= i < s.len() && (#[trigger] s[i]).0 == id,
    decreases s.len(),
{
    if s.len() == 0 {
    } else {
        lemma_map_of_contains(s.drop_last(), id);
        if s.last().0 == id {
            assert(s[s.len() - 1].0 == id);
        } else {
            assert(forall|i: int| 0 <= i < s.len() - 1 ==> s.drop_last()[i] == s[i]);
            if exists|i: int| 0 <= i < s.len() && (#[trigger] s[i]).0 == id {
                let i = choose|i: int| 0 <= i < s.len() && (#[trigger] s[i]).0 == id;
                assert(i < s.len() - 1);
                assert(s.drop_last()[i].0 == id);
            }
        }
    }
}

/// With distinct identifiers, entry `i` gives the value the map holds at its
/// identifier.
proof fn lemma_map_of_index<V>(s: Seq<(u128, V)>, i: int)
    requires
        distinct_ids(s),
        0 <= i < s.len(),
    ensures
        map_of(s).contains_key(s[i].0),
        map_of(s)[s[i].0] == s[i].1,
    decreases s.len(),
{
    if i == s.len() - 1 {
    } else {
        assert(distinct_ids(s.drop_last()));
        assert(s.drop_last()[i] == s[i]);
        lemma_map_of_index(s.drop_last(), i);
        assert(s.last().0 != s[i].0);
    }
}

/// With distinct identifiers, the denoted map is finite and has exactly one
/// key per entry.
proof fn lemma_map_of_len<V>(s: Seq<(u128, V)>)
    requires
        distinct_ids(s),
    ensures
        map_of(s).dom().finite(),
        map_of(s).dom().len() == s.len(),
    decreases s.len(),
{
    broadcast use vstd::set::group_set_axioms;

    if s.len() == 0 {
        assert(map_of(s).dom() =~= Set::<u128>::empty());
    } else {
        assert(distinct_ids(s.drop_last()));
        lemma_map_of_len(s.drop_last());
        lemma_map_of_contains(s.drop_last(), s.last().0);
        assert(forall|i: int| 0 <= i < s.len() - 1 ==> (#[trigger] s.drop_last()[i]).0 != s.last().0);
        assert(!map_of(s.drop_last()).contains_key(s.last().0));
        assert(map_of(s).dom() =~= map_of(s.drop_last()).dom().insert(s.last().0));
    }
}

/// With distinct identifiers, removing entry `i` from the list removes its
/// identifier from the denoted map.
proof fn lemma_map_of_remove<V>(s: Seq<(u128, V)>, i: int)
    requires
        distinct_ids(s),
        0 <= i < s.len(),
    ensures
        map_of(s.remove(i)) == map_of(s).remove(s[i].0),
    decreases s.len(),
{
    if i == s.len() - 1 {
        assert(s.remove(i) =~= s.drop_last());
        lemma_map_of_contains(s.drop_last(), s[i].0);
        assert(forall|j: int| 0 <= j < s.len() - 1 ==> (#[trigger] s.drop_last()[j]).0 != s[i].0);
        assert(!map_of(s.drop_last()).contains_key(s[i].0));
        assert(map_of(s).remove(s[i].0) =~= map_of(s.drop_last()));
    } else {
        let t = s.remove(i);
        assert(t.len() == s.len() - 1);
        assert(t.last() == s.last());
        assert(t.drop_last() =~= s.drop_last().remove(i));
        assert(distinct_ids(s.drop_last()));
        lemma_map_of_remove(s.drop_last(), i);
        assert(s.drop_last()[i] == s[i]);
        assert(s.last().0 != s[i].0);
        assert(map_of(t) == map_of(s.drop_last().remove(i)).insert(s.last().0, s.last().1));
        assert(map_of(s.drop_last()).remove(s[i].0).insert(s.last().0, s.last().1) =~= map_of(
            s.drop_last(),
        ).insert(s.last().0, s.last().1).remove(s[i].0));
    }
}

/// The connection registry: identifier to queue endpoint, one entry per live
/// connection.
pub struct Registry {
    entries: Vec<(u128, QueueSender)>,
}

impl View for Registry {
    type V = Map<u128, QueueSender>;

    /// The mapping the registry holds.
    closed spec fn view(&self) -> Map<u128, QueueSender> {
        map_of(self.entries@)
    }
}

impl Registry {
    /// Identifiers are never duplicated; every registry reachable through
    /// this interface keeps this.
    pub closed spec fn wf(&self) -> bool {
        distinct_ids(self.entries@)
    }

    /// An empty registry.
    pub fn new() -> (r: Registry)
        ensures
            r.wf(),
            r@ == Map::<u128, QueueSender>::empty(),
    {
        let r = Registry { entries: Vec::new() };
        proof {
            assert(r@ =~= Map::<u128, QueueSender>::empty());
        }
        r
    }

    /// How many connections are registered.
    pub fn len(&self) -> (n: usize)
        requires
            self.wf(),
        ensures
            n == self@.dom().len(),
    {
        proof {
            lemma_map_of_len(self.entries@);
        }
        self.entries.len()
    }

    /// Index of the entry carrying `id`, if any.
    fn find(&self, id: u128) -> (r: Option<usize>)
        ensures
            r matches Some(i) ==> i < self.entries@.len() && self.entries@[i as int].0 == id,
            r is None ==> forall|i: int|
                0 <= i < self.entries@.len() ==> (#[trigger] self.entries@[i]).0 != id,
    {
        let mut i: usize = 0;
        while i < self.entries.len()
            invariant
                i <= self.entries@.len(),
                forall|j: int| 0 <= j < i ==> (#[trigger] self.entries@[j]).0 != id,
            decreases self.entries@.len() - i,
        {
            if self.entries[i].0 == id {
                return Some(i);
            }
            i = i + 1;
        }
        None
    }

    /// Whether `id` is registered.
    pub fn contains(&self, id: u128) -> (r: bool)
        requires
            self.wf(),
        ensures
            r == self@.contains_key(id),
    {
        proof {
            lemma_map_of_contains(self.entries@, id);
        }
        self.find(id).is_some()
    }

    /// Registers a connection: inserts `id` with its queue endpoint, and
    /// refuses an identifier that is already present (the generation scheme
    /// should never produce one).
    pub fn register(&mut self, id: u128, tx: QueueSender) -> (fresh: bool)
        requires
            old(self).wf(),
        ensures
            final(self).wf(),
            fresh == !old(self)@.contains_key(id),
            fresh ==> final(self)@ == old(self)@.insert(id, tx),
            !fresh ==> final(self)@ == old(self)@,
    {
        proof {
            lemma_map_of_contains(self.entries@, id);
        }
        match self.find(id) {
            Some(_) => false,
            None => {
                let ghost s = self.entries@;
                self.entries.push((id, tx));
                proof {
                    assert(self.entries@.drop_last() =~= s);
                    assert(self.entries@.last() == (id, tx));
                    assert(final(self)@ == map_of(s).insert(id, tx));
                    assert(forall|i: int, j: int|
                        0 <= i < j < self.entries@.len() ==> (#[trigger] self.entries@[i]).0 != (
                        #[trigger] self.entries@[j]).0);
                }
                true
            },
        }
    }

    /// Removes `id` if it is present; absent identifiers are left alone, so
    /// removal is idempotent and never fails.
    pub fn remove(&mut self, id: u128)
        requires
            old(self).wf(),
        ensures
            final(self).wf(),
            final(self)@ == old(self)@.remove(id),
            !old(self)@.contains_key(id) ==> final(self)@ == old(self)@,
            old(self)@.contains_key(id) ==> final(self)@.dom().len() == old(self)@.dom().len()
                - 1,
    {
        broadcast use vstd::set::group_set_axioms;

        proof {
            lemma_map_of_contains(self.entries@, id);
            lemma_map_of_len(self.entries@);
        }
        match self.find(id) {
            Some(i) => {
                let ghost s = self.entries@;
                proof {
                    lemma_map_of_remove(s, i as int);
                }
                self.entries.remove(i);
                proof {
                    assert(self.entries@ =~= s.remove(i as int));
                    assert(forall|p: int, q: int|
                        0 <= p < q < s.remove(i as int).len() ==> (#[trigger] s.remove(i as int)[p]).0
                            != (#[trigger] s.remove(i as int)[q]).0) by {
                        assert(forall|p: int|
                            0 <= p < s.remove(i as int).len() ==> #[trigger] s.remove(i as int)[p]
                                == (if p < i { s[p] } else { s[p + 1] }));
                    }
                    lemma_map_of_len(self.entries@);
                }
            },
            None => {
                proof {
                    assert(final(self)@ =~= old(self)@.remove(id));
                }
            },
        }
    }

    /// Snapshot of the broadcast target set for a message from `sender`
    /// under `policy`: one pair per registered connection the policy allows,
    /// each with a clone of its queue endpoint. The caller may drop the
    /// registry lock before it enqueues anything.
    pub fn broadcast_targets(&self, policy: Policy, sender: u128) -> (r: Vec<
        (u128, QueueSender),
    >)
        requires
            self.wf(),
        ensures
            distinct_ids(r@),
            ids_of(r@) == target_ids(self@, policy, sender),
            forall|j: int|
                0 <= j < r@.len() ==> self@.contains_key((#[trigger] r@[j]).0) && self@[r@[j].0]
                    == r@[j].1 && allows(policy, sender, r@[j].0),
    {
        let mut r: Vec<(u128, QueueSender)> = Vec::new();
        let ghost mut ks: Seq<int> = Seq::empty();
        let mut i: usize = 0;
        while i < self.entries.len()
            invariant
                self.wf(),
                i <= self.entries@.len(),
                ks.len() == r@.len(),
                forall|j: int| 0 <= j < ks.len() ==> 0 <= #[trigger] ks[j] < i,
                forall|p: int, q: int| 0 <= p < q < ks.len() ==> ks[p] < ks[q],
                forall|j: int|
                    0 <= j < r@.len() ==> (#[trigger] r@[j]).0 == self.entries@[ks[j]].0,
                forall|j: int|
                    0 <= j < r@.len() ==> self@.contains_key((#[trigger] r@[j]).0)
                        && self@[r@[j].0] == r@[j].1 && allows(policy, sender, r@[j].0),
                forall|k: int|
                    0 <= k < i && allows(policy, sender, (#[trigger] self.entries@[k]).0)
                        ==> exists|j: int| 0 <= j < r@.len() && (#[trigger] r@[j]).0
                        == self.entries@[k].0,
            decreases self.entries@.len() - i,
        {
            let id = self.entries[i].0;
            proof {
                assert(self.entries@[i as int].0 == id);
            }
            let wanted = match policy {
                Policy::IncludeSender => true,
                Policy::ExcludeSender => id != sender,
            };
            if wanted {
                let ghost r_old = r@;
                r.push((id, clone_sender(&self.entries[i].1)));
                proof {
                    lemma_map_of_index(self.entries@, i as int);
                    ks = ks.push(i as int);
                    assert(forall|p: int| 0 <= p < r_old.len() ==> r@[p] == r_old[p]);
                    assert(r@[r@.len() - 1].0 == id);
                }
            }
            i = i + 1;
        }
        proof {
            assert(distinct_ids(r@)) by {
                assert forall|p: int, q: int| 0 <= p < q < r@.len() implies r@[p].0 != r@[q].0 by {
                    assert(r@[p].0 == self.entries@[ks[p]].0);
                    assert(r@[q].0 == self.entries@[ks[q]].0);
                    assert(0 <= ks[p] < ks[q] < self.entries@.len());
                }
            }
            assert(ids_of(r@) =~= target_ids(self@, policy, sender)) by {
                assert forall|id: u128| ids_of(r@).contains(id) implies target_ids(
                    self@,
                    policy,
                    sender,
                ).contains(id) by {
                    let j = choose|j: int| 0 <= j < r@.len() && (#[trigger] r@[j]).0 == id;
                    assert(self@.contains_key(id) && allows(policy, sender, id));
                }
                assert forall|id: u128| target_ids(self@, policy, sender).contains(id)
                    implies ids_of(r@).contains(id) by {
                    lemma_map_of_contains(self.entries@, id);
                    let k = choose|k: int|
                        0 <= k < self.entries@.len() && (#[trigger] self.entries@[k]).0 == id;
                    assert(allows(policy, sender, self.entries@[k].0));
                    let j = choose|j: int|
                        0 <= j < r@.len() && (#[trigger] r@[j]).0 == self.entries@[k].0;
                    assert(r@[j].0 == id);
                }
            }
        }
        r
    }

    /// The queue endpoint registered under `id`, if any.
    pub fn sender_for(&self, id: u128) -> (r: Option<QueueSender>)
        requires
            self.wf(),
        ensures
            r matches Some(tx) ==> self@.contains_key(id) && self@[id] == tx,
            r is None ==> !self@.contains_key(id),
    {
        proof {
            lemma_map_of_contains(self.entries@, id);
        }
        match self.find(id) {
            Some(i) => {
                proof {
                    lemma_map_of_index(self.entries@, i as int);
                }
                Some(clone_sender(&self.entries[i].1))
            },
            None => None,
        }
    }
}

} // verus!
