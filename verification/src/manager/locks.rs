//! Upgrade locks, by which a change of code keeps transactions off the nodes that it
//! changes.

use vstd::prelude::*;

use crate::collections::ListSet;
#[allow(unused_imports)]
use crate::collections::lemma_take_contains;
use crate::lock::{Lock, LockKind, LockType, LockWorkerInfo};
#[allow(unused_imports)]
use crate::lock::{LockModel, LockWorkerModel};
use crate::manager::{Manager, ManagerError};
#[allow(unused_imports)]
use crate::manager::{ErrorModel, ManagerState};
use crate::message::{Endpoint, Envelope, Message};
#[allow(unused_imports)]
use crate::message::{MessageModel, Posted};
use crate::text::concat;
use crate::transaction::{Txn, TxnId};
#[allow(unused_imports)]
use crate::transaction::{TxnModel, WriteModel};
use crate::varworker::VarWorker;
#[allow(unused_imports)]
use crate::varworker::VarState;

verus! {

/// The transaction that holds a lock.
pub open spec fn holder(lock: LockType) -> TxnId {
    match lock {
        LockType::Read(id) => id,
        LockType::Write(id) => id,
        LockType::Upgrade(id) => id,
    }
}

/// The transaction in whose name the lock for a change of code is asked for: it writes
/// nothing.
pub open spec fn code_txn(id: TxnId) -> TxnModel {
    TxnModel { id, writes: Seq::empty() }
}

/// What a manager does to get the upgrade lock of a node.
#[derive(Debug)]
pub struct LockAttempt {
    /// The worker of the node, where it is a new one. It has to be started.
    pub created: Option<VarWorker>,
    /// The request to the worker of the node, which the worker answers. None is sent where
    /// the lock is held already.
    pub request: Option<Envelope>,
}

impl ManagerState {
    /// The state after the transactions `ids` were aborted, one after the other.
    pub open spec fn all_aborted(self, ids: Seq<TxnId>) -> ManagerState
        decreases ids.len(),
    {
        if ids.len() == 0 {
            self
        } else {
            self.all_aborted(ids.drop_last()).aborted(ids.last())
        }
    }

    /// The state in which there is a worker and a list of locks for `node`.
    pub open spec fn prepared(self, node: Seq<char>, inbox: Endpoint) -> ManagerState {
        let s = if self.workers.contains_key(node) {
            self
        } else {
            self.with_var(node, inbox)
        };
        ManagerState {
            node_locks: if s.node_locks.contains_key(node) {
                s.node_locks
            } else {
                s.node_locks.insert(node, Seq::empty())
            },
            ..s
        }
    }

    /// The transaction `id` holds the upgrade lock of `node`.
    pub open spec fn upgrading(self, node: Seq<char>, id: TxnId) -> bool {
        self.node_locks.contains_key(node) && self.node_locks[node].contains(LockType::Upgrade(id))
    }

    /// The state after the upgrade lock of `node` was asked for: unless `id` holds it
    /// already, every transaction with a lock on the node is aborted and the locks are
    /// gone.
    pub open spec fn claimed(self, node: Seq<char>, id: TxnId, inbox: Endpoint) -> ManagerState {
        let s = self.prepared(node, inbox);
        if s.upgrading(node, id) {
            s
        } else {
            let cleared = s.all_aborted(s.node_locks[node].map_values(|l: LockType| holder(l)));
            ManagerState { node_locks: cleared.node_locks.insert(node, Seq::empty()), ..cleared }
        }
    }

    /// The request for the upgrade lock of `node`.
    pub open spec fn claim(self, node: Seq<char>, id: TxnId, inbox: Endpoint) -> Option<Posted> {
        let s = self.prepared(node, inbox);
        if s.upgrading(node, id) {
            None
        } else {
            Some(
                Posted {
                    to: s.workers[node],
                    msg: MessageModel::VarLockRequest {
                        lock_kind: LockKind::Upgrade,
                        txn: code_txn(id),
                    },
                },
            )
        }
    }

    /// The answer to the request for the upgrade lock of `node` is one that a worker may
    /// give: a grant for `id` comes from that node, and only `id` is refused.
    pub open spec fn claim_answerable(
        self,
        node: Seq<char>,
        id: TxnId,
        reply: Option<MessageModel>,
    ) -> bool {
        match reply {
            Some(MessageModel::VarLockGranted { txn, from_name }) => txn.id == id ==> from_name
                == node && self.node_locks.contains_key(node),
            Some(MessageModel::VarLockAbort { txn }) => txn.id == id,
            _ => true,
        }
    }

    /// The state with the upgrade lock of `node` granted to `id`.
    pub open spec fn with_upgrade(self, node: Seq<char>, id: TxnId) -> ManagerState {
        let info = LockWorkerModel {
            lock: LockModel { lock_kind: LockKind::Upgrade, txn: code_txn(id) },
            worker_name: node,
        };
        ManagerState {
            txn_locks: self.with_txn_lock(id, info),
            node_locks: self.node_locks.insert(
                node,
                self.node_locks[node].push(LockType::Upgrade(id)),
            ),
            ..self
        }
    }

    /// The locks of each transaction, with `info` for the transaction `id`.
    pub open spec fn with_txn_lock(self, id: TxnId, info: LockWorkerModel) -> Map<
        TxnId,
        Set<LockWorkerModel>,
    > {
        let held = if self.txn_locks.contains_key(id) {
            self.txn_locks[id]
        } else {
            Set::empty()
        };
        self.txn_locks.insert(id, held.insert(info))
    }

    /// The answer grants the upgrade lock to `id`.
    pub open spec fn grants_claim(reply: Option<MessageModel>, id: TxnId) -> bool {
        reply matches Some(MessageModel::VarLockGranted { txn, .. }) && txn.id == id
    }

    /// What comes of the answer to the request for the upgrade lock of `node`.
    pub open spec fn claim_outcome(
        node: Seq<char>,
        id: TxnId,
        reply: Option<MessageModel>,
    ) -> Result<(), ErrorModel> {
        match reply {
            Some(MessageModel::VarLockGranted { txn, .. }) => if txn.id == id {
                Ok(())
            } else {
                Err(ErrorModel::LockConflict("Received response for wrong transaction ID"@))
            },
            Some(MessageModel::VarLockAbort { .. }) => Err(
                ErrorModel::LockConflict("Failed to acquire upgrade lock on node "@ + node),
            ),
            _ => Err(ErrorModel::WorkerUnavailable(node)),
        }
    }

    /// The state after that answer.
    pub open spec fn claim_answered(
        self,
        node: Seq<char>,
        id: TxnId,
        reply: Option<MessageModel>,
    ) -> ManagerState {
        if Self::grants_claim(reply, id) {
            self.with_upgrade(node, id)
        } else {
            self
        }
    }

    /// The state without the upgrade locks of the transaction `id` on `nodes`.
    pub open spec fn upgrades_released(self, nodes: Set<Seq<char>>, id: TxnId) -> ManagerState {
        ManagerState {
            node_locks: self.node_locks.map_entries(
                |n: Seq<char>, locks: Seq<LockType>|
                    if nodes.contains(n) {
                        locks.filter(|l: LockType| l != LockType::Upgrade(id))
                    } else {
                        locks
                    },
            ),
            ..self
        }
    }
}

/// Where a request for the upgrade lock is sent, no lock is left on the node; where none
/// is sent, the transaction holds the upgrade lock.
pub proof fn law_claim_clears_node(s: ManagerState, node: Seq<char>, id: TxnId, inbox: Endpoint)
    ensures
        s.claimed(node, id, inbox).workers.contains_key(node),
        s.claimed(node, id, inbox).node_locks.contains_key(node),
        s.claim(node, id, inbox) is Some ==> s.claimed(node, id, inbox).node_locks[node]
            == Seq::<LockType>::empty(),
        s.claim(node, id, inbox) is None ==> s.claimed(node, id, inbox).upgrading(node, id),
{
    let p = s.prepared(node, inbox);
    lemma_all_aborted_frame(p, p.node_locks[node].map_values(|l: LockType| holder(l)));
}

/// Once the worker has granted the lock, it is the only one on the node, and the next
/// request of the same transaction sends nothing.
pub proof fn law_granted_claim_holds(
    s: ManagerState,
    node: Seq<char>,
    id: TxnId,
    inbox: Endpoint,
    reply: Option<MessageModel>,
)
    requires
        s.claim(node, id, inbox) is Some,
        ManagerState::grants_claim(reply, id),
    ensures
        ({
            let t = s.claimed(node, id, inbox).claim_answered(node, id, reply);
            &&& t.node_locks[node] == seq![LockType::Upgrade(id)]
            &&& t.upgrading(node, id)
            &&& forall|other: Endpoint| #[trigger] t.claim(node, id, other) is None
            &&& forall|other: Endpoint| #[trigger] t.claimed(node, id, other) == t
        }),
{
    law_claim_clears_node(s, node, id, inbox);
    let t = s.claimed(node, id, inbox).claim_answered(node, id, reply);
    assert(t.node_locks[node] =~= seq![LockType::Upgrade(id)]);
    assert(t.node_locks[node][0] == LockType::Upgrade(id));
}

/// A request that is refused, or not answered, leaves nobody with the upgrade lock.
pub proof fn law_refused_claim_holds_nothing(
    s: ManagerState,
    node: Seq<char>,
    id: TxnId,
    inbox: Endpoint,
    reply: Option<MessageModel>,
)
    requires
        s.claim(node, id, inbox) is Some,
        !ManagerState::grants_claim(reply, id),
    ensures
        ManagerState::claim_outcome(node, id, reply) is Err,
        !s.claimed(node, id, inbox).claim_answered(node, id, reply).upgrading(node, id),
{
    law_claim_clears_node(s, node, id, inbox);
}

/// After the release the transaction holds no upgrade lock on any of the nodes, and no
/// lock of any other transaction is gone.
pub proof fn law_release_frees_upgrades(s: ManagerState, nodes: Set<Seq<char>>, id: TxnId)
    ensures
        forall|n: Seq<char>|
            nodes.contains(n) ==> !(#[trigger] s.upgrades_released(nodes, id).upgrading(n, id)),
        forall|n: Seq<char>, l: LockType|
            s.node_locks.contains_key(n) && #[trigger] s.node_locks[n].contains(l)
                && l != LockType::Upgrade(id) ==> s.upgrades_released(nodes, id).node_locks.contains_key(n)
                && s.upgrades_released(nodes, id).node_locks[n].contains(l),
{
    let keeps = |l: LockType| l != LockType::Upgrade(id);
    let t = s.upgrades_released(nodes, id);
    assert forall|n: Seq<char>| nodes.contains(n) implies !(#[trigger] t.upgrading(n, id)) by {
        if t.upgrading(n, id) {
            crate::collections::lemma_filter_sound(s.node_locks[n], keeps);
            assert(s.node_locks[n].filter(keeps).contains(LockType::Upgrade(id)));
        }
    }
    assert forall|n: Seq<char>, l: LockType|
        s.node_locks.contains_key(n) && #[trigger] s.node_locks[n].contains(l) && l
            != LockType::Upgrade(id) implies t.node_locks.contains_key(n)
        && t.node_locks[n].contains(l) by {
        crate::collections::lemma_filter_sound(s.node_locks[n], keeps);
        assert(s.node_locks[n].filter(keeps).contains(l) || !nodes.contains(n));
    }
}

proof fn lemma_all_aborted_frame(s: ManagerState, ids: Seq<TxnId>)
    ensures
        s.all_aborted(ids).node_locks.dom() == s.node_locks.dom(),
        s.all_aborted(ids) == (ManagerState {
            active: s.all_aborted(ids).active,
            node_locks: s.all_aborted(ids).node_locks,
            ..s
        }),
    decreases ids.len(),
{
    if ids.len() > 0 {
        lemma_all_aborted_frame(s, ids.drop_last());
        assert(s.all_aborted(ids).node_locks.dom() =~= s.node_locks.dom());
    }
}

impl Manager {
    /// Asks for the upgrade lock of a node, for which a worker is made if there is none.
    /// `inbox` is the address of the channel that such a worker would get.
    pub fn acquire_upgrade_lock(&mut self, node: &str, txn_id: TxnId, inbox: Endpoint) -> (r:
        LockAttempt)
        ensures
            final(self).deep_view() == old(self).deep_view().claimed(node@, txn_id, inbox),
            r.request.deep_view() == old(self).deep_view().claim(node@, txn_id, inbox),
            r.created.deep_view() == (if old(self).deep_view().workers.contains_key(node@) {
                None
            } else {
                Some(VarState::initial(node@, old(self).deep_view().inbox))
            }),
    {
        let ghost first = self.deep_view();
        let name = node.to_string();
        let mut created: Option<VarWorker> = None;
        if !self.senders_to_workers.contains_key(&name) {
            created = Some(self.create_varworker(node, inbox));
        }
        let mut owners: Vec<TxnId> = Vec::new();
        match self.node_locks.get(&name) {
            None => {
                let none: Vec<LockType> = Vec::new();
                assert(none.deep_view() =~= Seq::<LockType>::empty());
                self.node_locks.insert(node.to_string(), none);
            },
            Some(locks) => {
                if holds_upgrade(locks, txn_id) {
                    assert(self.deep_view() == first.prepared(node@, inbox));
                    return LockAttempt { created, request: None };
                }
                owners = holders(locks);
            },
        }
        let ghost s = self.deep_view();
        let ghost ids = s.node_locks[node@].map_values(|l: LockType| holder(l));
        proof {
            assert(s == first.prepared(node@, inbox));
            assert(!s.upgrading(node@, txn_id));
            assert(owners@ =~= ids);
        }
        let mut i: usize = 0;
        assert(ids.take(0) =~= Seq::<TxnId>::empty());
        while i < owners.len()
            invariant
                i <= owners.len(),
                owners@ == ids,
                self.deep_view() == s.all_aborted(ids.take(i as int)),
            decreases owners.len() - i,
        {
            proof {
                assert(ids.take(i + 1).drop_last() =~= ids.take(i as int));
            }
            let other = owners[i];
            self.abort_transaction(&other);
            i = i + 1;
        }
        proof {
            assert(ids.take(i as int) =~= ids);
            lemma_all_aborted_frame(s, ids);
        }
        let none: Vec<LockType> = Vec::new();
        assert(none.deep_view() =~= Seq::<LockType>::empty());
        self.node_locks.insert(node.to_string(), none);
        let writes: Vec<crate::transaction::WriteToName> = Vec::new();
        assert(writes.deep_view() =~= Seq::<WriteModel>::empty());
        match self.senders_to_workers.get(&name) {
            Some(worker) => LockAttempt {
                created,
                request: Some(
                    Envelope {
                        to: *worker,
                        msg: Message::VarLockRequest {
                            lock_kind: LockKind::Upgrade,
                            txn: Txn { id: txn_id, writes },
                        },
                    },
                ),
            },
            None => LockAttempt { created, request: None },
        }
    }

    /// Whether the answer to a request for the upgrade lock of `node` is one that
    /// `finish_upgrade_lock` takes.
    pub fn can_finish_upgrade_lock(
        &self,
        node: &str,
        txn_id: TxnId,
        reply: &Option<Message>,
    ) -> (r: bool)
        ensures
            r == self.deep_view().claim_answerable(node@, txn_id, reply.deep_view()),
    {
        match reply {
            Some(Message::VarLockGranted { txn, from_name }) => {
                let name = node.to_string();
                !(txn.id == txn_id) || (from_name.eq(&name) && self.node_locks.contains_key(&name))
            },
            Some(Message::VarLockAbort { txn }) => txn.id == txn_id,
            _ => true,
        }
    }

    /// Takes the answer to a request for the upgrade lock of `node`. There is none where
    /// the request could not be sent.
    pub fn finish_upgrade_lock(&mut self, node: &str, txn_id: TxnId, reply: Option<Message>) -> (r:
        Result<(), ManagerError>)
        requires
            old(self).deep_view().claim_answerable(node@, txn_id, reply.deep_view()),
        ensures
            final(self).deep_view() == old(self).deep_view().claim_answered(
                node@,
                txn_id,
                reply.deep_view(),
            ),
            match r {
                Ok(()) => ManagerState::claim_outcome(node@, txn_id, reply.deep_view()) is Ok,
                Err(e) => ManagerState::claim_outcome(node@, txn_id, reply.deep_view()) == Err::<
                    (),
                    _,
                >(e.deep_view()),
            },
    {
        match reply {
            Some(Message::VarLockGranted { txn, from_name }) => {
                if txn.id != txn_id {
                    return Err(
                        ManagerError::LockConflict(
                            "Received response for wrong transaction ID".to_string(),
                        ),
                    );
                }
                let ghost s = self.deep_view();
                let writes: Vec<crate::transaction::WriteToName> = Vec::new();
                assert(writes.deep_view() =~= Seq::<WriteModel>::empty());
                let info = LockWorkerInfo {
                    lock: Lock { lock_kind: LockKind::Upgrade, txn: Txn { id: txn_id, writes } },
                    worker_name: from_name,
                };
                self.record_lock(txn_id, info);
                let name = node.to_string();
                match self.node_locks.remove(&name) {
                    Some(mut locks) => {
                        let ghost before = locks.deep_view();
                        locks.push(LockType::Upgrade(txn_id));
                        assert(locks.deep_view() =~= before.push(LockType::Upgrade(txn_id)));
                        self.node_locks.insert(name, locks);
                    },
                    None => {},
                }
                assert(self.deep_view().node_locks =~= s.with_upgrade(node@, txn_id).node_locks);
                Ok(())
            },
            Some(Message::VarLockAbort { .. }) => Err(
                ManagerError::LockConflict(
                    concat("Failed to acquire upgrade lock on node ", node),
                ),
            ),
            _ => Err(ManagerError::WorkerUnavailable(node.to_string())),
        }
    }

    /// Records a lock that a transaction was granted.
    pub(crate) fn record_lock(&mut self, txn_id: TxnId, info: LockWorkerInfo)
        ensures
            final(self).deep_view() == (ManagerState {
                txn_locks: old(self).deep_view().with_txn_lock(txn_id, info.deep_view()),
                ..old(self).deep_view()
            }),
    {
        let ghost s = self.deep_view();
        let ghost entry = info.deep_view();
        let mut held: ListSet<LockWorkerInfo> = match self.txn_locks_map.remove(&txn_id) {
            Some(held) => held,
            None => ListSet::new(),
        };
        held.insert(info);
        self.txn_locks_map.insert(txn_id, held);
        assert(self.deep_view().txn_locks =~= s.with_txn_lock(txn_id, entry));
    }

    /// Takes the upgrade locks of a transaction from the nodes.
    pub fn release_upgrade_locks(&mut self, nodes: &ListSet<String>, txn_id: TxnId)
        ensures
            final(self).deep_view() == old(self).deep_view().upgrades_released(
                nodes.deep_view(),
                txn_id,
            ),
    {
        let ghost s = self.deep_view();
        let ghost keeps = |l: LockType| l != LockType::Upgrade(txn_id);
        let ghost l = nodes.listing();
        let n: usize = nodes.len();
        let mut i: usize = 0;
        while i < n
            invariant
                i <= n == l.len(),
                l == nodes.listing(),
                l.no_duplicates(),
                keeps == (|l: LockType| l != LockType::Upgrade(txn_id)),
                self.deep_view() == (ManagerState {
                    node_locks: self.node_locks.deep_view(),
                    ..s
                }),
                self.node_locks.deep_view().dom() == s.node_locks.dom(),
                forall|k: Seq<char>| #[trigger]
                    self.node_locks.deep_view().contains_key(k)
                        ==> self.node_locks.deep_view()[k] == if l.take(i as int).contains(k) {
                        s.node_locks[k].filter(keeps)
                    } else {
                        s.node_locks[k]
                    },
            decreases n - i,
        {
            let node = nodes.at(i);
            let ghost before = self.node_locks.deep_view();
            proof {
                lemma_take_contains(l, i as int);
                if l.take(i as int).contains(node@) {
                    let j = choose|j: int| 0 <= j < i && l.take(i as int)[j] == node@;
                    assert(l[j] == l[i as int]);
                }
            }
            match self.node_locks.remove(node) {
                None => {
                    assert(self.node_locks.deep_view() =~= before);
                },
                Some(locks) => {
                    let kept = without_upgrade(&locks, txn_id);
                    self.node_locks.insert(node.clone(), kept);
                },
            }
            assert(self.node_locks.deep_view().dom() =~= s.node_locks.dom());
            i = i + 1;
        }
        proof {
            assert(l.take(n as int) =~= l);
            assert forall|k: Seq<char>| l.contains(k) <==> #[trigger] nodes.deep_view().contains(
                k,
            ) by {
                assert(l.to_set().contains(k) <==> nodes.deep_view().contains(k));
            }
            assert(self.node_locks.deep_view() =~= s.upgrades_released(
                nodes.deep_view(),
                txn_id,
            ).node_locks);
        }
    }
}

fn holds_upgrade(locks: &Vec<LockType>, id: TxnId) -> (r: bool)
    ensures
        r == locks.deep_view().contains(LockType::Upgrade(id)),
{
    let mut i: usize = 0;
    while i < locks.len()
        invariant
            i <= locks.len(),
            forall|j: int| 0 <= j < i ==> #[trigger] locks[j] != LockType::Upgrade(id),
        decreases locks.len() - i,
    {
        if locks[i] == LockType::Upgrade(id) {
            assert(locks.deep_view()[i as int] == LockType::Upgrade(id));
            return true;
        }
        i = i + 1;
    }
    assert forall|j: int| 0 <= j < locks.deep_view().len() implies #[trigger] locks.deep_view()[j]
        != LockType::Upgrade(id) by {
        assert(locks[j] != LockType::Upgrade(id));
    }
    false
}

fn holders(locks: &Vec<LockType>) -> (r: Vec<TxnId>)
    ensures
        r@ == locks.deep_view().map_values(|l: LockType| holder(l)),
{
    let mut r: Vec<TxnId> = Vec::new();
    let mut i: usize = 0;
    while i < locks.len()
        invariant
            i <= locks.len(),
            r.len() == i,
            forall|j: int| 0 <= j < i ==> #[trigger] r[j] == holder(locks[j]),
        decreases locks.len() - i,
    {
        let id = match locks[i] {
            LockType::Read(id) => id,
            LockType::Write(id) => id,
            LockType::Upgrade(id) => id,
        };
        r.push(id);
        i = i + 1;
    }
    assert(r@ =~= locks.deep_view().map_values(|l: LockType| holder(l)));
    r
}

fn without_upgrade(locks: &Vec<LockType>, id: TxnId) -> (r: Vec<LockType>)
    ensures
        r.deep_view() == locks.deep_view().filter(|l: LockType| l != LockType::Upgrade(id)),
{
    let ghost keeps = |l: LockType| l != LockType::Upgrade(id);
    let ghost all = locks.deep_view();
    let mut r: Vec<LockType> = Vec::new();
    let mut i: usize = 0;
    proof {
        reveal(Seq::filter);
        assert(r.deep_view() =~= all.take(0).filter(keeps));
    }
    while i < locks.len()
        invariant
            i <= locks.len() == all.len(),
            all == locks.deep_view(),
            keeps == (|l: LockType| l != LockType::Upgrade(id)),
            r.deep_view() == all.take(i as int).filter(keeps),
        decreases locks.len() - i,
    {
        let lock = locks[i];
        let ghost before = r.deep_view();
        proof {
            assert(all.take(i + 1) =~= all.take(i as int).push(lock));
            all.take(i as int).lemma_filter_push(lock, keeps);
        }
        if lock != LockType::Upgrade(id) {
            r.push(lock);
            assert(r.deep_view() =~= before.push(lock));
        }
        i = i + 1;
    }
    assert(all.take(i as int) =~= all);
    r
}

} // verus!
