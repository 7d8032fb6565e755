//! The relay's general guarantees, stated and proved over the models that
//! the registry's and dispatcher's contracts use.

use vstd::prelude::*;
use crate::registry::Policy;
use crate::registry::QueueSender;
use crate::registry::target_ids;
use crate::registry::allows;
use crate::dispatch::DispatchOutcome;
use crate::dispatch::dispatch_post;

verus! {

/// A broadcast's target set is exactly the registered connections the
/// policy allows: never an absent (disconnected) identifier, and never the
/// sender itself under the default policy.
pub proof fn lemma_target_set(
    m: Map<u128, QueueSender>,
    policy: Policy,
    sender: u128,
    id: u128,
)
    ensures
        target_ids(m, policy, sender).contains(id) <==> m.contains_key(id) && allows(
            policy,
            sender,
            id,
        ),
        !m.contains_key(id) ==> !target_ids(m, policy, sender).contains(id),
        policy is ExcludeSender ==> !target_ids(m, policy, sender).contains(sender),
{
    broadcast use vstd::set::group_set_axioms;

}

/// Disconnecting a client keeps it out of every later broadcast: once its
/// entry is removed, no target set over the remaining registry holds it,
/// and the registry shrank by exactly one entry when it was present.
pub proof fn lemma_disconnect_excludes(
    m: Map<u128, QueueSender>,
    a: u128,
    policy: Policy,
    sender: u128,
)
    requires
        m.dom().finite(),
    ensures
        !target_ids(m.remove(a), policy, sender).contains(a),
        m.contains_key(a) ==> m.remove(a).dom().len() == m.dom().len() - 1,
{
    broadcast use vstd::set::group_set_axioms;

}

/// Once a client's entry is removed, no later dispatch queues anything for
/// it: a broadcast outcome over the remaining registry never lists it.
pub proof fn lemma_no_queue_after_disconnect(
    m: Map<u128, QueueSender>,
    a: u128,
    policy: Policy,
    sender: u128,
    text: Seq<char>,
    r: DispatchOutcome,
)
    requires
        dispatch_post(m.remove(a), policy, sender, text, r),
    ensures
        r matches DispatchOutcome::Broadcast { targets, .. } ==> !targets@.contains(a),
{
    broadcast use vstd::set::group_set_axioms;

    match r {
        DispatchOutcome::Broadcast { targets, .. } => {
            assert(!target_ids(m.remove(a), policy, sender).contains(a));
            assert(targets@.to_set().contains(a) == targets@.contains(a));
        },
        DispatchOutcome::Rejected { .. } => {},
    }
}

/// Removal is idempotent: removing an absent identifier changes nothing,
/// so removing twice is the same as removing once.
pub proof fn lemma_remove_idempotent(m: Map<u128, QueueSender>, a: u128)
    ensures
        !m.contains_key(a) ==> m.remove(a) == m,
        m.remove(a).remove(a) == m.remove(a),
{
    if !m.contains_key(a) {
        assert(m.remove(a) =~= m);
    }
    assert(m.remove(a).remove(a) =~= m.remove(a));
}

/// The registry contents after registering `ids[i]` with `txs[i]`, in
/// order.
pub open spec fn register_all(
    m: Map<u128, QueueSender>,
    ids: Seq<u128>,
    txs: Seq<QueueSender>,
) -> Map<u128, QueueSender>
    decreases ids.len(),
{
    if ids.len() == 0 {
        m
    } else {
        register_all(m, ids.drop_last(), txs.drop_last()).insert(ids.last(), txs.last())
    }
}

/// An identifier is registered after a run of registrations exactly when
/// it was registered before or the run carries it.
pub proof fn lemma_register_all_contains(
    m: Map<u128, QueueSender>,
    ids: Seq<u128>,
    txs: Seq<QueueSender>,
    k: u128,
)
    requires
        txs.len() == ids.len(),
    ensures
        register_all(m, ids, txs).contains_key(k) <==> m.contains_key(k) || ids.contains(k),
    decreases ids.len(),
{
    if ids.len() == 0 {
    } else {
        lemma_register_all_contains(m, ids.drop_last(), txs.drop_last(), k);
        if ids.contains(k) {
            let i = choose|i: int| 0 <= i < ids.len() && ids[i] == k;
            if i < ids.len() - 1 {
                assert(ids.drop_last()[i] == k);
            }
        }
        if ids.drop_last().contains(k) {
            let i = choose|i: int| 0 <= i < ids.drop_last().len() && ids.drop_last()[i] == k;
            assert(ids[i] == k);
        }
    }
}

/// Registering a run of pairwise-distinct fresh identifiers loses nothing
/// and grows the registry by exactly the run's length: every identifier of
/// the run is present afterwards, as is everything registered before.
pub proof fn lemma_concurrent_registration(
    m: Map<u128, QueueSender>,
    ids: Seq<u128>,
    txs: Seq<QueueSender>,
)
    requires
        m.dom().finite(),
        ids.no_duplicates(),
        txs.len() == ids.len(),
        forall|i: int| 0 <= i < ids.len() ==> !m.contains_key(#[trigger] ids[i]),
    ensures
        register_all(m, ids, txs).dom().finite(),
        register_all(m, ids, txs).dom().len() == m.dom().len() + ids.len(),
        forall|i: int|
            0 <= i < ids.len() ==> register_all(m, ids, txs).contains_key(#[trigger] ids[i]),
        forall|k: u128| m.contains_key(k) ==> register_all(m, ids, txs).contains_key(k),
    decreases ids.len(),
{
    broadcast use vstd::set::group_set_axioms;

    if ids.len() == 0 {
    } else {
        let short_ids = ids.drop_last();
        let short_txs = txs.drop_last();
        assert(short_ids.no_duplicates());
        assert(forall|i: int| 0 <= i < short_ids.len() ==> #[trigger] short_ids[i] == ids[i]);
        lemma_concurrent_registration(m, short_ids, short_txs);
        lemma_register_all_contains(m, short_ids, short_txs, ids.last());
        assert(!m.contains_key(ids.last()));
        assert(!short_ids.contains(ids.last())) by {
            if short_ids.contains(ids.last()) {
                let i = choose|i: int|
                    0 <= i < short_ids.len() && short_ids[i] == ids.last();
                assert(ids[i] == ids[ids.len() - 1]);
            }
        }
        assert(register_all(m, ids, txs).dom() =~= register_all(
            m,
            short_ids,
            short_txs,
        ).dom().insert(ids.last()));
        assert(forall|i: int|
            0 <= i < ids.len() ==> register_all(m, ids, txs).contains_key(#[trigger] ids[i]))
            by {
            assert forall|i: int| 0 <= i < short_ids.len() implies register_all(
                m,
                ids,
                txs,
            ).contains_key(#[trigger] ids[i]) by {
                assert(short_ids[i] == ids[i]);
                assert(register_all(m, short_ids, short_txs).contains_key(short_ids[i]));
            }
            assert(register_all(m, ids, txs).contains_key(ids[ids.len() - 1]));
        }
    }
}

} // verus!
