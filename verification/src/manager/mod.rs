//! The manager: it owns the workers of some nodes, changes their code, runs transactions
//! on them, and shares the work with peers.

use vstd::prelude::*;

use crate::collections::{ListMap, ListSet};
#[allow(unused_imports)]
use crate::collections::{is_listing, lemma_take_contains};
use crate::defworker::DefWorker;
#[allow(unused_imports)]
use crate::defworker::DefState;
use crate::expr::{Expr, Val};
#[allow(unused_imports)]
use crate::expr::{names_in, ExprModel, ValModel};
use crate::lock::{LockType, LockWorkerInfo};
#[allow(unused_imports)]
use crate::lock::LockWorkerModel;
use crate::message::{Endpoint, Envelope, Message, WorkerKind};
#[allow(unused_imports)]
use crate::message::{MessageModel, Posted};
use crate::text::concat;
use crate::transaction::{Txn, TxnId};
#[allow(unused_imports)]
use crate::transaction::TxnModel;
use crate::varworker::VarWorker;
#[allow(unused_imports)]
use crate::varworker::VarState;

pub mod apply;
pub mod chains;
pub mod change;
pub mod codelaws;
pub mod commit;
pub mod cycles;
pub mod install;
pub mod locks;
pub mod sharelaws;
pub mod txn;
pub mod txnlaws;
pub mod update;
pub mod values;
pub mod versions;

verus! {

#[derive(Debug, Clone, PartialEq, Eq, Hash)]
pub struct ValTxnInfo {
    pub val: Val,
    pub txn_id: TxnId,
}

#[derive(Debug, Clone)]
pub enum ManagerError {
    WorkerUnavailable(String),
    CyclicDependency(String),
    LockConflict(String),
    DistributedError(String),
}

/// The model of an error.
pub enum ErrorModel {
    WorkerUnavailable(Seq<char>),
    CyclicDependency(Seq<char>),
    LockConflict(Seq<char>),
    DistributedError(Seq<char>),
}

impl DeepView for ManagerError {
    type V = ErrorModel;

    open spec fn deep_view(&self) -> ErrorModel {
        match self {
            ManagerError::WorkerUnavailable(s) => ErrorModel::WorkerUnavailable(s@),
            ManagerError::CyclicDependency(s) => ErrorModel::CyclicDependency(s@),
            ManagerError::LockConflict(s) => ErrorModel::LockConflict(s@),
            ManagerError::DistributedError(s) => ErrorModel::DistributedError(s@),
        }
    }
}

/// An error as a line of text.
pub open spec fn error_text(e: ErrorModel) -> Seq<char> {
    match e {
        ErrorModel::WorkerUnavailable(name) => "Worker unavailable: "@ + name,
        ErrorModel::CyclicDependency(cycle) => "Cyclic dependency: "@ + cycle,
        ErrorModel::LockConflict(msg) => "Lock conflict: "@ + msg,
        ErrorModel::DistributedError(msg) => "Distributed error: "@ + msg,
    }
}

impl ManagerError {
    pub fn text(&self) -> (r: String)
        ensures
            r@ == error_text(self.deep_view()),
    {
        match self {
            ManagerError::WorkerUnavailable(name) => concat(
                "Worker unavailable: ",
                name.as_str(),
            ),
            ManagerError::CyclicDependency(cycle) => concat("Cyclic dependency: ", cycle.as_str()),
            ManagerError::LockConflict(msg) => concat("Lock conflict: ", msg.as_str()),
            ManagerError::DistributedError(msg) => concat("Distributed error: ", msg.as_str()),
        }
    }
}

#[derive(Debug)]
pub struct Manager {
    /// The address of the manager's own channel, which every worker gets.
    pub sender_to_manager: Endpoint,
    pub senders_to_workers: ListMap<String, Endpoint>,
    pub worker_kind_env: ListMap<String, WorkerKind>,
    /// For each transaction, the locks that it was granted.
    pub txn_locks_map: ListMap<TxnId, ListSet<LockWorkerInfo>>,
    /// For each node, the nodes that it depends on.
    pub dependency_graph: ListMap<String, ListSet<String>>,
    pub most_recently_applied_txn: Option<Txn>,
    pub system_configuration: ListMap<String, Expr>,
    /// For each node, the nodes that depend on it.
    pub reverse_dependencies: ListMap<String, ListSet<String>>,
    pub node_locks: ListMap<String, Vec<LockType>>,
    pub active_transactions: ListMap<TxnId, ListSet<String>>,
    pub transaction_values: ListMap<String, Val>,
    /// For each node, the number of its next version.
    pub subscript_versions: ListMap<String, u64>,
    pub manager_id: Option<String>,
    /// The nodes that this manager handles.
    pub managed_nodes: ListSet<String>,
    pub peer_managers: ListMap<String, Endpoint>,
    /// For each node, the manager that owns it.
    pub node_manager_map: ListMap<String, String>,
}

/// The model of a manager.
#[verifier::ext_equal]
pub struct ManagerState {
    pub inbox: Endpoint,
    pub workers: Map<Seq<char>, Endpoint>,
    pub kinds: Map<Seq<char>, WorkerKind>,
    pub txn_locks: Map<TxnId, Set<LockWorkerModel>>,
    pub graph: Map<Seq<char>, Set<Seq<char>>>,
    pub last_txn: Option<TxnModel>,
    pub config: Map<Seq<char>, ExprModel>,
    pub reverse: Map<Seq<char>, Set<Seq<char>>>,
    pub node_locks: Map<Seq<char>, Seq<LockType>>,
    pub active: Map<TxnId, Set<Seq<char>>>,
    pub txn_values: Map<Seq<char>, ValModel>,
    pub versions: Map<Seq<char>, u64>,
    pub id: Option<Seq<char>>,
    pub managed: Set<Seq<char>>,
    pub peers: Map<Seq<char>, Endpoint>,
    pub owners: Map<Seq<char>, Seq<char>>,
}

impl DeepView for Manager {
    type V = ManagerState;

    open spec fn deep_view(&self) -> ManagerState {
        ManagerState {
            inbox: self.sender_to_manager,
            workers: self.senders_to_workers.deep_view(),
            kinds: self.worker_kind_env.deep_view(),
            txn_locks: self.txn_locks_map.deep_view(),
            graph: self.dependency_graph.deep_view(),
            last_txn: self.most_recently_applied_txn.deep_view(),
            config: self.system_configuration.deep_view(),
            reverse: self.reverse_dependencies.deep_view(),
            node_locks: self.node_locks.deep_view(),
            active: self.active_transactions.deep_view(),
            txn_values: self.transaction_values.deep_view(),
            versions: self.subscript_versions.deep_view(),
            id: self.manager_id.deep_view(),
            managed: self.managed_nodes.deep_view(),
            peers: self.peer_managers.deep_view(),
            owners: self.node_manager_map.deep_view(),
        }
    }
}

/// Whether `lock` is a read or write lock of the transaction `id`.
pub open spec fn reads_or_writes(lock: LockType, id: TxnId) -> bool {
    match lock {
        LockType::Read(i) => i == id,
        LockType::Write(i) => i == id,
        LockType::Upgrade(_) => false,
    }
}

impl ManagerState {
    /// The state of a new manager.
    pub open spec fn initial(inbox: Endpoint) -> ManagerState {
        ManagerState {
            inbox,
            workers: Map::empty(),
            kinds: Map::empty(),
            txn_locks: Map::empty(),
            graph: Map::empty(),
            last_txn: None,
            config: Map::empty(),
            reverse: Map::empty(),
            node_locks: Map::empty(),
            active: Map::empty(),
            txn_values: Map::empty(),
            versions: Map::empty(),
            id: None,
            managed: Set::empty(),
            peers: Map::empty(),
            owners: Map::empty(),
        }
    }

    /// The manager's name, or an empty one.
    pub open spec fn own_id(self) -> Seq<char> {
        match self.id {
            Some(id) => id,
            None => Seq::empty(),
        }
    }

    /// The manager to which the node `node` is to be sent: none where it is this manager's
    /// own, or where nothing is known.
    pub open spec fn remote_owner(self, node: Seq<char>) -> Result<Seq<char>, ErrorModel> {
        if self.managed.contains(node) {
            Err(ErrorModel::DistributedError("Node "@ + node + " is local"@))
        } else if self.owners.contains_key(node) {
            Ok(self.owners[node])
        } else {
            Err(ErrorModel::DistributedError("Manager for node "@ + node + " not found"@))
        }
    }

    /// The state without the read and write locks of the active transaction `id`.
    pub open spec fn aborted(self, id: TxnId) -> ManagerState {
        if self.active.contains_key(id) {
            ManagerState {
                active: self.active.remove(id),
                node_locks: self.node_locks.map_entries(
                    |n: Seq<char>, locks: Seq<LockType>|
                        if self.active[id].contains(n) {
                            locks.filter(|l: LockType| !reads_or_writes(l, id))
                        } else {
                            locks
                        },
                ),
                ..self
            }
        } else {
            self
        }
    }

    /// The state with a worker for the variable `name`, whose channel has the address
    /// `inbox`.
    pub open spec fn with_var(self, name: Seq<char>, inbox: Endpoint) -> ManagerState {
        ManagerState {
            workers: self.workers.insert(name, inbox),
            kinds: self.kinds.insert(name, WorkerKind::Var),
            managed: self.managed.insert(name),
            ..self
        }
    }

    /// The state with a worker for the definition `name`, whose channel has the address
    /// `inbox`.
    pub open spec fn with_def(self, name: Seq<char>, inbox: Endpoint) -> ManagerState {
        ManagerState {
            workers: self.workers.insert(name, inbox),
            kinds: self.kinds.insert(name, WorkerKind::Def),
            managed: self.managed.insert(name),
            owners: match self.id {
                Some(id) => self.owners.insert(name, id),
                None => self.owners,
            },
            ..self
        }
    }

    /// The request to be told of `dep` that is sent for the definition `name`: to the peer
    /// that owns `dep`, or else to the worker of `dep`. Nothing is sent to a peer to which
    /// there is no channel; where there is no worker of `dep` either, the request falls back
    /// to the definition's own channel.
    pub open spec fn subscription(
        self,
        name: Seq<char>,
        inbox: Endpoint,
        dep: Seq<char>,
    ) -> Option<Posted> {
        if !self.managed.contains(dep) && self.owners.contains_key(dep) {
            if self.peers.contains_key(self.owners[dep]) {
                Some(
                    Posted {
                        to: self.peers[self.owners[dep]],
                        msg: MessageModel::DistributedSubscribe {
                            remote_node: dep,
                            subscriber_node: name,
                            subscriber_sender: inbox,
                        },
                    },
                )
            } else {
                None
            }
        } else {
            Some(
                Posted {
                    to: if self.workers.contains_key(dep) {
                        self.workers[dep]
                    } else {
                        inbox
                    },
                    msg: MessageModel::Subscribe {
                        subscribe_who: dep,
                        subscriber_name: name,
                        sender_to_subscriber: inbox,
                    },
                },
            )
        }
    }

    /// `out` asks, for each name that `expr` refers to, to be told of it, in any order.
    pub open spec fn subscribes(
        self,
        name: Seq<char>,
        inbox: Endpoint,
        expr: ExprModel,
        out: Seq<Posted>,
    ) -> bool {
        exists|order: Seq<Seq<char>>| #[trigger]
            is_listing(order, names_in(expr)) && out == order.filter_map(
                |dep: Seq<char>| self.subscription(name, inbox, dep),
            )
    }
}

impl Manager {
    pub fn new(sender_to_manager: Endpoint) -> (r: Self)
        ensures
            r.deep_view() == ManagerState::initial(sender_to_manager),
    {
        Manager {
            sender_to_manager,
            senders_to_workers: ListMap::new(),
            worker_kind_env: ListMap::new(),
            txn_locks_map: ListMap::new(),
            dependency_graph: ListMap::new(),
            most_recently_applied_txn: None,
            system_configuration: ListMap::new(),
            reverse_dependencies: ListMap::new(),
            node_locks: ListMap::new(),
            active_transactions: ListMap::new(),
            transaction_values: ListMap::new(),
            subscript_versions: ListMap::new(),
            manager_id: None,
            managed_nodes: ListSet::new(),
            peer_managers: ListMap::new(),
            node_manager_map: ListMap::new(),
        }
    }

    pub fn own_id(&self) -> (r: String)
        ensures
            r@ == self.deep_view().own_id(),
    {
        match &self.manager_id {
            Some(id) => id.clone(),
            None => String::new(),
        }
    }

    /// Looks up the manager for a given node. It is an error if the node is local, or if
    /// no manager is known for it.
    pub fn get_manager_for_node(&self, node: &String) -> (r: Result<String, ManagerError>)
        ensures
            match r {
                Ok(m) => self.deep_view().remote_owner(node@) == Ok::<_, ErrorModel>(m@),
                Err(e) => self.deep_view().remote_owner(node@) == Err::<Seq<char>, _>(
                    e.deep_view(),
                ),
            },
    {
        if self.managed_nodes.contains(node) {
            Err(
                ManagerError::DistributedError(
                    concat(concat("Node ", node.as_str()).as_str(), " is local"),
                ),
            )
        } else {
            match self.node_manager_map.get(node) {
                Some(m) => Ok(m.clone()),
                None => Err(
                    ManagerError::DistributedError(
                        concat(concat("Manager for node ", node.as_str()).as_str(), " not found"),
                    ),
                ),
            }
        }
    }

    /// Takes the read and write locks of an active transaction from the nodes that it
    /// uses.
    pub fn abort_transaction(&mut self, txn_id: &TxnId)
        ensures
            final(self).deep_view() == old(self).deep_view().aborted(*txn_id),
    {
        let ghost s = self.deep_view();
        let id = *txn_id;
        match self.active_transactions.remove(txn_id) {
            None => {
                assert(self.active_transactions.deep_view() =~= s.active);
            },
            Some(nodes) => {
                let ghost keeps = |l: LockType| !reads_or_writes(l, id);
                let ghost l = nodes.listing();
                let n: usize = nodes.len();
                let mut i: usize = 0;
                while i < n
                    invariant
                        i <= n == l.len(),
                        l == nodes.listing(),
                        l.no_duplicates(),
                        keeps == (|l: LockType| !reads_or_writes(l, id)),
                        self.deep_view() == (ManagerState {
                            active: s.active.remove(id),
                            node_locks: self.node_locks.deep_view(),
                            ..s
                        }),
                        self.node_locks.deep_view().dom() == s.node_locks.dom(),
                        forall|k: Seq<char>| #[trigger]
                            self.node_locks.deep_view().contains_key(k)
                                ==> self.node_locks.deep_view()[k] == if l.take(i as int).contains(
                                k,
                            ) {
                                s.node_locks[k].filter(keeps)
                            } else {
                                s.node_locks[k]
                            },
                    decreases n - i,
                {
                    let node = nodes.at(i);
                    let ghost before = self.node_locks.deep_view();
                    proof {
                        lemma_take_contains(l, i as int);
                        if l.take(i as int).contains(node@) {
                            let j = choose|j: int| 0 <= j < i && l.take(i as int)[j] == node@;
                            assert(l[j] == l[i as int]);
                        }
                    }
                    match self.node_locks.remove(node) {
                        None => {
                            assert(self.node_locks.deep_view() =~= before);
                        },
                        Some(locks) => {
                            let kept = without_reads_and_writes(&locks, id);
                            self.node_locks.insert(node.clone(), kept);
                        },
                    }
                    assert(self.node_locks.deep_view().dom() =~= s.node_locks.dom());
                    i = i + 1;
                }
                proof {
                    assert(l.take(n as int) =~= l);
                    assert forall|k: Seq<char>| l.contains(k) <==> #[trigger] s.active[id].contains(
                        k,
                    ) by {
                        assert(l.to_set().contains(k) <==> s.active[id].contains(k));
                    }
                    assert(self.node_locks.deep_view() =~= s.aborted(id).node_locks);
                }
            },
        }
    }

    /// Records a worker for the variable `name` and returns it. `inbox` is the address of
    /// its channel.
    pub fn create_varworker(&mut self, name: &str, inbox: Endpoint) -> (r: VarWorker)
        ensures
            r.deep_view() == VarState::initial(name@, old(self).deep_view().inbox),
            final(self).deep_view() == old(self).deep_view().with_var(name@, inbox),
    {
        let var_worker = VarWorker::new(name, self.sender_to_manager);
        self.senders_to_workers.insert(name.to_string(), inbox);
        self.worker_kind_env.insert(name.to_string(), WorkerKind::Var);
        self.managed_nodes.insert(name.to_string());
        var_worker
    }

    /// Records a worker for the definition `name` and returns it, with the messages by
    /// which it subscribes to what it depends on. `inbox` is the address of its channel.
    pub fn create_defworker(
        &mut self,
        name: &str,
        init_expr: &Expr,
        transitive_deps: ListMap<String, ListSet<String>>,
        inbox: Endpoint,
    ) -> (r: (DefWorker, Vec<Envelope>))
        ensures
            r.0.deep_view() == DefState::initial(
                name@,
                inbox,
                old(self).deep_view().inbox,
                init_expr.deep_view(),
                transitive_deps.deep_view(),
            ),
            final(self).deep_view() == old(self).deep_view().with_def(name@, inbox),
            final(self).deep_view().subscribes(
                name@,
                inbox,
                init_expr.deep_view(),
                r.1.deep_view(),
            ),
    {
        let def_worker = DefWorker::new(
            name,
            inbox,
            self.sender_to_manager,
            init_expr,
            transitive_deps,
        );
        self.senders_to_workers.insert(name.to_string(), inbox);
        self.worker_kind_env.insert(name.to_string(), WorkerKind::Def);
        self.managed_nodes.insert(name.to_string());
        match &self.manager_id {
            Some(my_id) => {
                self.node_manager_map.insert(name.to_string(), my_id.clone());
            },
            None => {},
        }
        let ghost s = self.deep_view();
        let ghost post = |dep: Seq<char>| s.subscription(name@, inbox, dep);
        let deps = init_expr.names_contained();
        let ghost l = deps.listing();
        let n: usize = deps.len();
        let mut out: Vec<Envelope> = Vec::new();
        let mut i: usize = 0;
        proof {
            reveal(Seq::filter_map);
            assert(out.deep_view() =~= l.take(0).filter_map(post));
        }
        while i < n
            invariant
                i <= n == l.len(),
                l == deps.listing(),
                s == self.deep_view(),
                post == (|dep: Seq<char>| s.subscription(name@, inbox, dep)),
                out.deep_view() == l.take(i as int).filter_map(post),
            decreases n - i,
        {
            let dep = deps.at(i);
            let ghost sent = out.deep_view();
            proof {
                l.lemma_filter_map_take_succ(post, i as int);
            }
            match self.subscription_for(name, inbox, dep) {
                Some(envelope) => {
                    out.push(envelope);
                    assert(out.deep_view() =~= sent.push(post(l[i as int]).unwrap()));
                },
                None => {},
            }
            proof {
                assert(out.deep_view() =~= l.take(i + 1).filter_map(post));
            }
            i = i + 1;
        }
        assert(l.take(n as int) =~= l);
        (def_worker, out)
    }

    fn subscription_for(&self, name: &str, inbox: Endpoint, dep: &String) -> (r: Option<Envelope>)
        ensures
            r.deep_view() == self.deep_view().subscription(name@, inbox, dep@),
    {
        if !self.managed_nodes.contains(dep) {
            match self.node_manager_map.get(dep) {
                Some(manager_id) => {
                    return match self.peer_managers.get(manager_id) {
                        Some(peer) => Some(
                            Envelope {
                                to: *peer,
                                msg: Message::DistributedSubscribe {
                                    remote_node: dep.clone(),
                                    subscriber_node: name.to_string(),
                                    subscriber_sender: inbox,
                                },
                            },
                        ),
                        None => None,
                    };
                },
                None => {},
            }
        }
        let to: Endpoint = match self.senders_to_workers.get(dep) {
            Some(worker) => *worker,
            None => inbox,
        };
        Some(
            Envelope {
                to,
                msg: Message::Subscribe {
                    subscribe_who: dep.clone(),
                    subscriber_name: name.to_string(),
                    sender_to_subscriber: inbox,
                },
            },
        )
    }
}

fn without_reads_and_writes(locks: &Vec<LockType>, id: TxnId) -> (r: Vec<LockType>)
    ensures
        r.deep_view() == locks.deep_view().filter(|l: LockType| !reads_or_writes(l, id)),
{
    let ghost keeps = |l: LockType| !reads_or_writes(l, id);
    let ghost all = locks.deep_view();
    let mut r: Vec<LockType> = Vec::new();
    let mut i: usize = 0;
    proof {
        reveal(Seq::filter);
        assert(r.deep_view() =~= all.take(0).filter(keeps));
    }
    while i < locks.len()
        invariant
            i <= locks.len() == all.len(),
            all == locks.deep_view(),
            keeps == (|l: LockType| !reads_or_writes(l, id)),
            r.deep_view() == all.take(i as int).filter(keeps),
        decreases locks.len() - i,
    {
        let lock = locks[i];
        let ghost before = r.deep_view();
        proof {
            assert(all.take(i + 1) =~= all.take(i as int).push(lock));
            all.take(i as int).lemma_filter_push(lock, keeps);
        }
        let drop: bool = match lock {
            LockType::Read(other) => other == id,
            LockType::Write(other) => other == id,
            LockType::Upgrade(_) => false,
        };
        if !drop {
            r.push(lock);
            assert(r.deep_view() =~= before.push(lock));
        }
        i = i + 1;
    }
    assert(all.take(i as int) =~= all);
    r
}

} // verus!
