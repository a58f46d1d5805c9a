//! The worker of a definition: it keeps a copy of its inputs' values, grants locks to
//! developers, and takes changes of its inputs and of its own code.

use vstd::prelude::*;

use crate::collections::{Dup, ListMap, ListSet};
#[allow(unused_imports)]
use crate::collections::{is_listing, lemma_take_contains};
use crate::expr::{evaluate_expr, Expr, Val};
#[allow(unused_imports)]
use crate::expr::{names_in, value_in, ExprModel, ValModel};
use crate::lock::{find_held, has_kind, oldest, Lock, LockKind, LockTest};
#[allow(unused_imports)]
use crate::lock::{holds, is_oldest, some_of_kind, LockModel};
use crate::message::{Endpoint, Envelope, Message, PropaChange, TxnAndName, _PropaChange};
#[allow(unused_imports)]
use crate::message::{MessageModel, Posted, PropaChangeModel, TxnAndNameModel, WaitingChange};
use crate::transaction::{Txn, TxnId};
#[allow(unused_imports)]
use crate::transaction::TxnModel;

verus! {

/// What a new input has told: its value, the transactions applied to it, and the names
/// that it depends on in turn.
pub type InputData = (Option<Val>, ListSet<Txn>, ListSet<String>);

/// The model of what a new input has told.
pub type InputModel = (Option<ValModel>, Set<TxnModel>, Set<Seq<char>>);

impl Dup for InputData {
    fn dup(&self) -> (r: Self) {
        (self.0.dup(), self.1.dup(), self.2.dup())
    }
}

/// New code that waits until each of its new inputs has answered.
#[derive(Debug, Clone)]
pub struct PendingCodeUpdate {
    pub expr: Expr,
    pub inputs_data: ListMap<String, Option<InputData>>,
}

/// The model of code that waits for its inputs.
pub struct PendingModel {
    pub expr: ExprModel,
    pub inputs_data: Map<Seq<char>, Option<InputModel>>,
}

impl DeepView for PendingCodeUpdate {
    type V = PendingModel;

    open spec fn deep_view(&self) -> PendingModel {
        PendingModel { expr: self.expr.deep_view(), inputs_data: self.inputs_data.deep_view() }
    }
}

#[derive(Debug)]
pub struct DefWorker {
    pub name: String,
    /// The address of the worker's own channel.
    pub def_sndr: Endpoint,
    pub sender_to_manager: Endpoint,
    pub senders_to_subscribers: ListMap<String, Endpoint>,
    pub value: Option<Val>,
    pub pred_txns: Vec<Txn>,
    pub prev_batch_provides: ListSet<Txn>,
    /// The changes that wait to be applied.
    pub propa_changes_to_apply: ListMap<TxnAndName, _PropaChange>,
    pub expr: Expr,
    /// The inputs and their current values.
    pub replica: ListMap<String, Option<Val>>,
    /// For each input, the variables that it depends on.
    pub transtitive_deps: ListMap<String, ListSet<String>>,
    pub counter: i32,
    pub locks: ListSet<Lock>,
    pub lock_queue: ListSet<Lock>,
    pub pending_write: Option<PendingCodeUpdate>,
}

/// The model of a definition's worker.
#[verifier::ext_equal]
pub struct DefState {
    pub name: Seq<char>,
    pub inbox: Endpoint,
    pub manager: Endpoint,
    pub subscribers: Map<Seq<char>, Endpoint>,
    pub value: Option<ValModel>,
    pub pred_txns: Seq<TxnModel>,
    pub prev_batch_provides: Set<TxnModel>,
    pub waiting: Map<TxnAndNameModel, WaitingChange>,
    pub expr: ExprModel,
    pub replica: Map<Seq<char>, Option<ValModel>>,
    pub depends: Map<Seq<char>, Set<Seq<char>>>,
    pub counter: i32,
    pub locks: Set<LockModel>,
    pub lock_queue: Set<LockModel>,
    pub pending: Option<PendingModel>,
}

impl DeepView for DefWorker {
    type V = DefState;

    open spec fn deep_view(&self) -> DefState {
        DefState {
            name: self.name@,
            inbox: self.def_sndr,
            manager: self.sender_to_manager,
            subscribers: self.senders_to_subscribers.deep_view(),
            value: self.value.deep_view(),
            pred_txns: self.pred_txns.deep_view(),
            prev_batch_provides: self.prev_batch_provides.deep_view(),
            waiting: self.propa_changes_to_apply.deep_view(),
            expr: self.expr.deep_view(),
            replica: self.replica.deep_view(),
            depends: self.transtitive_deps.deep_view(),
            counter: self.counter,
            locks: self.locks.deep_view(),
            lock_queue: self.lock_queue.deep_view(),
            pending: self.pending_write.deep_view(),
        }
    }
}

/// Each name in `names`, with nothing known of it.
pub open spec fn unknown<A>(names: Set<Seq<char>>) -> Map<Seq<char>, Option<A>> {
    Map::new(|n: Seq<char>| names.contains(n), |n: Seq<char>| None)
}

/// The transaction writes to a variable in `vars`.
pub open spec fn writes_into(txn: TxnModel, vars: Set<Seq<char>>) -> bool {
    exists|i: int| 0 <= i < txn.writes.len() && vars.contains(#[trigger] txn.writes[i].name)
}

/// The changes that `change` has to be applied with: for each of its transactions, one at
/// each input that depends on a variable which the transaction writes.
pub open spec fn deps_of(
    change: PropaChangeModel,
    depends: Map<Seq<char>, Set<Seq<char>>>,
) -> Set<TxnAndNameModel> {
    Set::new(
        |k: TxnAndNameModel|
            change.preds.contains(k.txn) && depends.contains_key(k.name) && writes_into(
                k.txn,
                depends[k.name],
            ),
    )
}

/// Every name that some input depends on.
pub open spec fn all_dependencies(depends: Map<Seq<char>, Set<Seq<char>>>) -> Set<Seq<char>> {
    Set::new(
        |v: Seq<char>|
            exists|i: Seq<char>| #[trigger] depends.contains_key(i) && depends[i].contains(v),
    )
}

/// `after` is `before` with the transactions of each input behind it, one input after the
/// other, in any order.
pub open spec fn extended_by(
    before: Seq<TxnModel>,
    inputs: Map<Seq<char>, Option<InputModel>>,
    after: Seq<TxnModel>,
) -> bool {
    exists|order: Seq<Seq<char>>, parts: Seq<Seq<TxnModel>>|
        {
            &&& #[trigger] is_listing(order, inputs.dom())
            &&& lists_each(order, parts, inputs)
            &&& after == before + #[trigger] parts.flatten()
        }
}

/// `parts` lists, for each input in `order`, the transactions that it told.
pub open spec fn lists_each(
    order: Seq<Seq<char>>,
    parts: Seq<Seq<TxnModel>>,
    inputs: Map<Seq<char>, Option<InputModel>>,
) -> bool {
    &&& parts.len() == order.len()
    &&& forall|i: int|
        0 <= i < order.len() ==> is_listing(#[trigger] parts[i], inputs[order[i]].unwrap().1)
}

impl DefState {
    /// The state of a new worker.
    pub open spec fn initial(
        name: Seq<char>,
        inbox: Endpoint,
        manager: Endpoint,
        expr: ExprModel,
        depends: Map<Seq<char>, Set<Seq<char>>>,
    ) -> DefState {
        DefState {
            name,
            inbox,
            manager,
            subscribers: Map::empty(),
            value: None,
            pred_txns: Seq::empty(),
            prev_batch_provides: Set::empty(),
            waiting: Map::empty(),
            expr,
            replica: unknown(names_in(expr)),
            depends,
            counter: 0,
            locks: Set::empty(),
            lock_queue: Set::empty(),
            pending: None,
        }
    }

    /// Every new input of the code that waits has answered.
    pub open spec fn ready(self) -> bool {
        self.pending matches Some(p) && forall|n: Seq<char>| #[trigger]
            p.inputs_data.contains_key(n) ==> p.inputs_data[n] is Some
    }

    /// `next` is the state after the code that waits, which is ready, was taken over.
    pub open spec fn takes_over(self, next: DefState) -> bool {
        let p = self.pending.unwrap();
        let replica = Map::new(
            |n: Seq<char>| self.replica.contains_key(n) || p.inputs_data.contains_key(n),
            |n: Seq<char>|
                if p.inputs_data.contains_key(n) {
                    p.inputs_data[n].unwrap().0
                } else {
                    self.replica[n]
                },
        );
        let depends = Map::new(
            |n: Seq<char>| self.depends.contains_key(n) || p.inputs_data.contains_key(n),
            |n: Seq<char>|
                if p.inputs_data.contains_key(n) {
                    p.inputs_data[n].unwrap().2
                } else {
                    self.depends[n]
                },
        );
        &&& extended_by(self.pred_txns, p.inputs_data, next.pred_txns)
        &&& next == DefState {
            expr: p.expr,
            replica,
            depends,
            value: value_in(p.expr, replica),
            pred_txns: next.pred_txns,
            pending: None,
            ..self
        }
    }
}

impl DefState {
    /// Whether the worker can take the message: it knows the kind; a developer's read or
    /// write comes from a transaction that holds the lock for it; and the number of a change
    /// still fits.
    pub open spec fn accepts(self, msg: MessageModel) -> bool {
        match msg {
            MessageModel::DefWorkerUpdate { .. } => true,
            MessageModel::DefLockRequest { .. } => true,
            MessageModel::DefLockRelease { .. } => true,
            MessageModel::DevReadDefRequest { txn } => holds(self.locks, LockKind::Read, txn.id),
            MessageModel::DevWriteDefRequest { txn, .. } => holds(
                self.locks,
                LockKind::Write,
                txn.id,
            ),
            MessageModel::UsrReadDefRequest { .. } => true,
            MessageModel::Propagate { propa_change } => self.replica.contains_key(
                propa_change.from_name,
            ) ==> self.counter < i32::MAX,
            MessageModel::Subscribe { .. } => true,
            MessageModel::SubscriptionGranted { .. } => true,
            MessageModel::DeSubscriptionGranted { .. } => true,
            _ => false,
        }
    }

    /// A message to the manager.
    pub open spec fn to_manager(self, msg: MessageModel) -> Posted {
        Posted { to: self.manager, msg }
    }

    /// The request to be told of `input`.
    pub open spec fn subscribe_to(self, input: Seq<char>) -> Posted {
        self.to_manager(
            MessageModel::Subscribe {
                subscribe_who: input,
                subscriber_name: self.name,
                sender_to_subscriber: self.inbox,
            },
        )
    }

    /// The request to be told of `input` no longer.
    pub open spec fn desubscribe_from(self, input: Seq<char>) -> Posted {
        self.to_manager(
            MessageModel::DeSubscribe { desubscribe_who: input, desubscriber_name: self.name },
        )
    }

    /// `out` asks once for each name in `names`, in any order, to be told of it.
    pub open spec fn subscribes(self, names: Set<Seq<char>>, out: Seq<Posted>) -> bool {
        exists|order: Seq<Seq<char>>| #[trigger]
            is_listing(order, names) && out == order.map_values(
                |n: Seq<char>| self.subscribe_to(n),
            )
    }

    /// `out` asks once for each name in `names`, in any order, to be told of it no longer.
    pub open spec fn desubscribes(self, names: Set<Seq<char>>, out: Seq<Posted>) -> bool {
        exists|order: Seq<Seq<char>>| #[trigger]
            is_listing(order, names) && out == order.map_values(
                |n: Seq<char>| self.desubscribe_from(n),
            )
    }

    /// A request for a lock may wait: no older transaction holds a lock, or nobody holds
    /// a write lock and no code waits.
    pub open spec fn may_wait(self, txn: TxnModel) -> bool {
        ||| forall|l: LockModel| #[trigger]
            self.locks.contains(l) ==> txn.id.time <= l.txn.id.time
        ||| !some_of_kind(self.locks, LockKind::Write) && self.pending is None
    }

    /// The state in which the change waits to be applied.
    pub open spec fn with_change(self, change: PropaChangeModel) -> DefState {
        let number = (self.counter + 1) as i32;
        let waiting = WaitingChange {
            propa_id: number,
            propa_change: change,
            deps: deps_of(change, self.depends),
        };
        DefState {
            counter: number,
            waiting: self.waiting.union_prefer_right(
                Map::new(
                    |k: TxnAndNameModel|
                        change.preds.contains(k.txn) && k.name == change.from_name,
                    |k: TxnAndNameModel| waiting,
                ),
            ),
            ..self
        }
    }

    /// The state in which the input `name` has answered.
    pub open spec fn with_input(self, name: Seq<char>, data: InputModel) -> DefState {
        let p = self.pending.unwrap();
        DefState {
            pending: Some(
                PendingModel { expr: p.expr, inputs_data: p.inputs_data.insert(name, Some(data)) },
            ),
            ..self
        }
    }

    /// `next` is the state after the input `name` has answered while no code waits: its value,
    /// its transactions and what it depends on are known, and the definition's value is that
    /// of its code on the inputs' values. The answer of anyone else is ignored.
    pub open spec fn learns(self, name: Seq<char>, data: InputModel, next: DefState) -> bool {
        if self.replica.contains_key(name) {
            let replica = self.replica.insert(name, data.0);
            exists|part: Seq<TxnModel>| #[trigger]
                is_listing(part, data.1) && next == DefState {
                    replica,
                    depends: self.depends.insert(name, data.2),
                    value: value_in(self.expr, replica),
                    pred_txns: self.pred_txns + part,
                    ..self
                }
        } else {
            next == self
        }
    }

    /// `next` and `out` are the state and the messages after the message.
    pub open spec fn handles(self, msg: MessageModel, next: DefState, out: Seq<Posted>) -> bool {
        match msg {
            MessageModel::DefWorkerUpdate { expr, .. } => {
                &&& next == DefState { expr, replica: unknown(names_in(expr)), ..self }
                &&& exists|first: Seq<Posted>, rest: Seq<Posted>|
                    self.desubscribes(names_in(self.expr), first) && self.subscribes(
                        names_in(expr),
                        rest,
                    ) && out == #[trigger] (first + rest)
            },
            MessageModel::DefLockRequest { lock_kind, txn } => if self.may_wait(txn) {
                &&& next == DefState {
                    lock_queue: self.lock_queue.insert(LockModel { lock_kind, txn }),
                    ..self
                }
                &&& out == Seq::<Posted>::empty()
            } else {
                &&& next == self
                &&& out == seq![self.to_manager(MessageModel::DefLockAbort { txn })]
            },
            MessageModel::DefLockRelease { txn } => {
                &&& next == DefState {
                    locks: self.locks.filter(|l: LockModel| l.txn.id != txn.id),
                    ..self
                }
                &&& out == Seq::<Posted>::empty()
            },
            MessageModel::DevReadDefRequest { txn } => {
                &&& self.gives_up_lock(LockKind::Read, txn.id, self, next)
                &&& out == seq![
                    self.to_manager(MessageModel::DevReadDefResult { name: self.name, txn }),
                ]
            },
            MessageModel::DevWriteDefRequest { txn, write_expr } => {
                let added = names_in(write_expr).difference(self.replica.dom());
                let deleted = self.replica.dom().difference(names_in(write_expr));
                let waits = DefState {
                    pending: Some(PendingModel { expr: write_expr, inputs_data: unknown(added) }),
                    ..self
                };
                &&& self.gives_up_lock(LockKind::Write, txn.id, waits, next)
                &&& exists|first: Seq<Posted>, rest: Seq<Posted>|
                    self.subscribes(added, first) && self.desubscribes(deleted, rest) && out
                        == #[trigger] (first + rest)
            },
            MessageModel::UsrReadDefRequest { txn, .. } => {
                &&& next == self
                &&& out == seq![
                    self.to_manager(
                        MessageModel::UsrReadDefResult {
                            txn,
                            name: self.name,
                            result: self.value,
                            result_pred: self.pred_txns.to_set(),
                        },
                    ),
                ]
            },
            MessageModel::Propagate { propa_change } => {
                &&& next == if self.replica.contains_key(propa_change.from_name) {
                    self.with_change(propa_change)
                } else {
                    self
                }
                &&& out == Seq::<Posted>::empty()
            },
            MessageModel::Subscribe { subscriber_name, sender_to_subscriber, .. } => {
                &&& next == DefState {
                    subscribers: self.subscribers.insert(subscriber_name, sender_to_subscriber),
                    ..self
                }
                &&& out == seq![
                    Posted {
                        to: sender_to_subscriber,
                        msg: MessageModel::SubscriptionGranted {
                            name: self.name,
                            value: self.value,
                            provides: self.pred_txns.to_set(),
                            trans_dep_set: all_dependencies(self.depends),
                        },
                    },
                ]
            },
            MessageModel::SubscriptionGranted { name, value, provides, trans_dep_set } => {
                let data = (value, provides, trans_dep_set);
                let told = self.with_input(name, data);
                &&& if self.pending is None {
                    self.learns(name, data, next)
                } else if told.ready() {
                    told.takes_over(next)
                } else {
                    next == told
                }
                &&& out == Seq::<Posted>::empty()
            },
            _ => next == self && out == Seq::<Posted>::empty(),
        }
    }

    /// `next` is `rest` without one lock of kind `kind` that the transaction `id` holds.
    pub open spec fn gives_up_lock(
        self,
        kind: LockKind,
        id: TxnId,
        rest: DefState,
        next: DefState,
    ) -> bool {
        exists|l: LockModel| #[trigger]
            self.locks.contains(l) && l.lock_kind == kind && l.txn.id == id && next == DefState {
                locks: self.locks.remove(l),
                ..rest
            }
    }

    /// `next` and `out` are the state and the messages after one look at the queue: a
    /// lock of an oldest waiting transaction is granted, if any waits.
    pub open spec fn ticks(self, next: DefState, out: Seq<Posted>) -> bool {
        if self.lock_queue == Set::<LockModel>::empty() {
            next == self && out == Seq::<Posted>::empty()
        } else {
            exists|l: LockModel| #[trigger]
                is_oldest(l, self.lock_queue) && next == self.with_granted(l) && out == seq![
                    self.to_manager(
                        MessageModel::VarLockGranted { txn: l.txn, from_name: self.name },
                    ),
                ]
        }
    }

    /// The state in which the waiting lock `l` is held.
    pub open spec fn with_granted(self, l: LockModel) -> DefState {
        DefState {
            lock_queue: self.lock_queue.remove(l),
            locks: self.locks.insert(l),
            ..self
        }
    }
}

impl DefWorker {
    pub fn new(
        name: &str,
        def_sndr: Endpoint,
        sender_to_manager: Endpoint,
        init_expr: &Expr,
        transtitive_deps: ListMap<String, ListSet<String>>,
    ) -> (r: DefWorker)
        ensures
            r.deep_view() == DefState::initial(
                name@,
                def_sndr,
                sender_to_manager,
                init_expr.deep_view(),
                transtitive_deps.deep_view(),
            ),
    {
        let replica = unknown_inputs(&init_expr.names_contained());
        let r = DefWorker {
            name: name.to_string(),
            def_sndr,
            sender_to_manager,
            senders_to_subscribers: ListMap::new(),
            value: None,
            pred_txns: Vec::new(),
            prev_batch_provides: ListSet::new(),
            propa_changes_to_apply: ListMap::new(),
            expr: init_expr.dup(),
            replica,
            transtitive_deps,
            counter: 0,
            locks: ListSet::new(),
            lock_queue: ListSet::new(),
            pending_write: None,
        };
        assert(r.pred_txns.deep_view() =~= Seq::<TxnModel>::empty());
        r
    }

    pub fn next_count(counter_ref: &mut i32) -> (r: i32)
        requires
            *old(counter_ref) < i32::MAX,
        ensures
            r == *old(counter_ref) + 1,
            *final(counter_ref) == r,
    {
        *counter_ref = *counter_ref + 1;
        *counter_ref
    }

    pub fn has_write_lock(&self) -> (r: bool)
        ensures
            r == some_of_kind(self.deep_view().locks, LockKind::Write),
    {
        has_kind(&self.locks, LockKind::Write)
    }

    /// Takes over the code that waits, and evaluates it on its inputs' values.
    pub fn apply_code_update(&mut self)
        requires
            old(self).deep_view().ready(),
        ensures
            old(self).deep_view().takes_over(final(self).deep_view()),
    {
        let ghost s = self.deep_view();
        let mut taken: Option<PendingCodeUpdate> = None;
        std::mem::swap(&mut taken, &mut self.pending_write);
        match taken {
            None => {},
            Some(pcu) => {
                let ghost p = pcu.deep_view();
                let n: usize = pcu.inputs_data.len();
                let ghost order = pcu.inputs_data.keys();
                let ghost mut parts: Seq<Seq<TxnModel>> = Seq::empty();
                let mut i: usize = 0;
                proof {
                    assert(s.pending == Some(p));
                    assert(s.pred_txns =~= s.pred_txns + parts.flatten());
                }
                while i < n
                    invariant
                        i <= n == order.len(),
                        order == pcu.inputs_data.keys(),
                        p == pcu.deep_view(),
                        is_listing(order, p.inputs_data.dom()),
                        s.ready(),
                        s.pending == Some(p),
                        parts.len() == i,
                        forall|j: int|
                            0 <= j < i ==> is_listing(
                                #[trigger] parts[j],
                                p.inputs_data[order[j]].unwrap().1,
                            ),
                        self.deep_view() == (DefState {
                            replica: self.replica.deep_view(),
                            depends: self.transtitive_deps.deep_view(),
                            pred_txns: s.pred_txns + parts.flatten(),
                            pending: None,
                            ..s
                        }),
                        forall|k: Seq<char>| #[trigger]
                            self.replica.deep_view().contains_key(k) <==> s.replica.contains_key(k)
                                || order.take(i as int).contains(k),
                        forall|k: Seq<char>| #[trigger]
                            self.replica.deep_view().contains_key(k) ==> self.replica.deep_view()[k]
                                == if order.take(i as int).contains(k) {
                                p.inputs_data[k].unwrap().0
                            } else {
                                s.replica[k]
                            },
                        forall|k: Seq<char>| #[trigger]
                            self.transtitive_deps.deep_view().contains_key(k)
                                <==> s.depends.contains_key(k) || order.take(i as int).contains(k),
                        forall|k: Seq<char>| #[trigger]
                            self.transtitive_deps.deep_view().contains_key(k)
                                ==> self.transtitive_deps.deep_view()[k] == if order.take(
                                i as int,
                            ).contains(k) {
                                p.inputs_data[k].unwrap().2
                            } else {
                                s.depends[k]
                            },
                    decreases n - i,
                {
                    let name = pcu.inputs_data.key_at(i);
                    let ghost key = order[i as int];
                    proof {
                        assert(order.to_set().contains(key));
                        assert(p.inputs_data.contains_key(key));
                        lemma_take_contains(order, i as int);
                    }
                    match pcu.inputs_data.value_at(i) {
                        None => {},
                        Some(data) => {
                            self.replica.insert(name.clone(), data.0.dup());
                            let part = extend_txns(&mut self.pred_txns, &data.1);
                            proof {
                                let longer = parts.push(part@);
                                parts.lemma_flatten_push(part@);
                                assert(s.pred_txns + parts.flatten() + part@ =~= s.pred_txns
                                    + longer.flatten());
                                parts = longer;
                            }
                            self.transtitive_deps.insert(name.clone(), data.2.dup());
                        },
                    }
                    i = i + 1;
                }
                proof {
                    assert(order.take(n as int) =~= order);
                    assert forall|k: Seq<char>| order.contains(k)
                        <==> #[trigger] p.inputs_data.contains_key(k) by {
                        assert(order.to_set().contains(k) <==> p.inputs_data.dom().contains(k));
                    }
                    assert(lists_each(order, parts, p.inputs_data));
                    assert(extended_by(s.pred_txns, p.inputs_data, self.pred_txns.deep_view()));
                }
                self.value = evaluate_expr(&pcu.expr, &self.replica);
                self.expr = pcu.expr;
                assert(s.takes_over(self.deep_view())) by {
                    let replica = Map::new(
                        |n: Seq<char>| s.replica.contains_key(n) || p.inputs_data.contains_key(n),
                        |n: Seq<char>|
                            if p.inputs_data.contains_key(n) {
                                p.inputs_data[n].unwrap().0
                            } else {
                                s.replica[n]
                            },
                    );
                    let depends = Map::new(
                        |n: Seq<char>| s.depends.contains_key(n) || p.inputs_data.contains_key(n),
                        |n: Seq<char>|
                            if p.inputs_data.contains_key(n) {
                                p.inputs_data[n].unwrap().2
                            } else {
                                s.depends[n]
                            },
                    );
                    assert(self.replica.deep_view() =~= replica);
                    assert(self.transtitive_deps.deep_view() =~= depends);
                }
            },
        }
    }

    /// The change, numbered, with the changes that it has to be applied with.
    pub fn processed_propachange(
        counter_ref: &mut i32,
        propa_change: &PropaChange,
        transtitive_deps: &ListMap<String, ListSet<String>>,
    ) -> (r: _PropaChange)
        requires
            *old(counter_ref) < i32::MAX,
        ensures
            *final(counter_ref) == *old(counter_ref) + 1,
            r.deep_view() == (WaitingChange {
                propa_id: *final(counter_ref),
                propa_change: propa_change.deep_view(),
                deps: deps_of(propa_change.deep_view(), transtitive_deps.deep_view()),
            }),
    {
        let mut deps: ListSet<TxnAndName> = ListSet::new();
        let ghost change = propa_change.deep_view();
        let ghost depends = transtitive_deps.deep_view();
        let ghost inputs = transtitive_deps.keys();
        let m: usize = propa_change.preds.len();
        let n: usize = transtitive_deps.len();
        let ghost preds = propa_change.preds.listing();
        let mut i: usize = 0;
        while i < m
            invariant
                i <= m == preds.len(),
                n == inputs.len(),
                preds == propa_change.preds.listing(),
                inputs == transtitive_deps.keys(),
                depends == transtitive_deps.deep_view(),
                is_listing(inputs, depends.dom()),
                forall|k: TxnAndNameModel| #[trigger]
                    deps.deep_view().contains(k) <==> preds.take(i as int).contains(k.txn)
                        && depends.contains_key(k.name) && writes_into(k.txn, depends[k.name]),
            decreases m - i,
        {
            let txn = propa_change.preds.at(i);
            let ghost t = preds[i as int];
            let ghost so_far = deps.deep_view();
            let mut j: usize = 0;
            while j < n
                invariant
                    j <= n == inputs.len(),
                    t == txn.deep_view(),
                    inputs == transtitive_deps.keys(),
                    depends == transtitive_deps.deep_view(),
                    is_listing(inputs, depends.dom()),
                    forall|k: TxnAndNameModel| #[trigger]
                        deps.deep_view().contains(k) <==> so_far.contains(k) || (k.txn == t
                            && inputs.take(j as int).contains(k.name) && writes_into(
                            t,
                            depends[k.name],
                        )),
                decreases n - j,
            {
                let name = transtitive_deps.key_at(j);
                let ghost before = deps.deep_view();
                proof {
                    lemma_take_contains(inputs, j as int);
                }
                if writes_to_any(txn, transtitive_deps.value_at(j)) {
                    deps.insert(TxnAndName { txn: txn.dup(), name: name.clone() });
                }
                j = j + 1;
            }
            proof {
                lemma_take_contains(preds, i as int);
                assert(inputs.take(n as int) =~= inputs);
                assert forall|k: TxnAndNameModel| #[trigger]
                    deps.deep_view().contains(k) <==> preds.take(i + 1).contains(k.txn)
                        && depends.contains_key(k.name) && writes_into(k.txn, depends[k.name]) by {
                    assert(inputs.to_set().contains(k.name) <==> depends.dom().contains(k.name));
                }
            }
            i = i + 1;
        }
        proof {
            assert(preds.take(m as int) =~= preds);
            assert forall|k: TxnAndNameModel| #[trigger]
                deps.deep_view().contains(k) <==> deps_of(change, depends).contains(k) by {
                assert(preds.to_set().contains(k.txn) <==> change.preds.contains(k.txn));
            }
            assert(deps.deep_view() =~= deps_of(change, depends));
        }
        let propa_id: i32 = Self::next_count(counter_ref);
        _PropaChange { propa_id, propa_change: propa_change.dup(), deps }
    }
}

fn unknown_inputs(names: &ListSet<String>) -> (r: ListMap<String, Option<Val>>)
    ensures
        r.deep_view() == unknown::<ValModel>(names.deep_view()),
{
    let n: usize = names.len();
    let mut r: ListMap<String, Option<Val>> = ListMap::new();
    let mut i: usize = 0;
    let ghost l = names.listing();
    while i < n
        invariant
            i <= n == l.len(),
            l == names.listing(),
            forall|k: Seq<char>| #[trigger]
                r.deep_view().contains_key(k) <==> l.take(i as int).contains(k),
            forall|k: Seq<char>| #[trigger]
                r.deep_view().contains_key(k) ==> r.deep_view()[k] == None::<ValModel>,
        decreases n - i,
    {
        proof {
            lemma_take_contains(l, i as int);
        }
        r.insert(names.at(i).clone(), None);
        i = i + 1;
    }
    proof {
        assert(l.take(n as int) =~= l);
        assert forall|k: Seq<char>| l.contains(k) <==> #[trigger] names.deep_view().contains(
            k,
        ) by {}
        assert(r.deep_view() =~= unknown::<ValModel>(names.deep_view()));
    }
    r
}

/// Puts the transactions in `more` behind `list`, and tells in which order.
fn extend_txns(list: &mut Vec<Txn>, more: &ListSet<Txn>) -> (part: Ghost<Seq<TxnModel>>)
    ensures
        is_listing(part@, more.deep_view()),
        final(list).deep_view() == old(list).deep_view() + part@,
{
    let ghost before = list.deep_view();
    let n: usize = more.len();
    let mut i: usize = 0;
    assert(before =~= before + more.listing().take(0));
    while i < n
        invariant
            i <= n == more.listing().len(),
            list.deep_view() == before + more.listing().take(i as int),
        decreases n - i,
    {
        let ghost so_far = list.deep_view();
        list.push(more.at(i).dup());
        proof {
            assert(list.deep_view() =~= so_far.push(more.listing()[i as int]));
            assert(list.deep_view() =~= before + more.listing().take(i + 1));
        }
        i = i + 1;
    }
    assert(more.listing().take(n as int) =~= more.listing());
    Ghost(more.listing())
}

fn writes_to_any(txn: &Txn, vars: &ListSet<String>) -> (r: bool)
    ensures
        r == writes_into(txn.deep_view(), vars.deep_view()),
{
    let ghost t = txn.deep_view();
    let mut i: usize = 0;
    while i < txn.writes.len()
        invariant
            i <= txn.writes.len() == t.writes.len(),
            t == txn.deep_view(),
            forall|j: int| 0 <= j < i ==> !vars.deep_view().contains(#[trigger] t.writes[j].name),
        decreases txn.writes.len() - i,
    {
        assert(t.writes[i as int].name == txn.writes[i as int].name@);
        if vars.contains(&txn.writes[i].name) {
            return true;
        }
        i = i + 1;
    }
    false
}

impl DefWorker {
    /// Grants the lock of an oldest waiting transaction, if any waits.
    pub fn tick(&mut self) -> (out: Vec<Envelope>)
        ensures
            old(self).deep_view().ticks(final(self).deep_view(), out.deep_view()),
    {
        let ghost s = self.deep_view();
        let mut out: Vec<Envelope> = Vec::new();
        assert(out.deep_view() =~= Seq::<Posted>::empty());
        match oldest(&self.lock_queue) {
            None => {},
            Some(lock) => {
                let _ = self.lock_queue.remove(&lock);
                self.locks.insert(lock.dup());
                out.push(
                    Envelope {
                        to: self.sender_to_manager,
                        msg: Message::VarLockGranted {
                            txn: lock.txn.dup(),
                            from_name: self.name.clone(),
                        },
                    },
                );
                proof {
                    let l = lock.deep_view();
                    assert(is_oldest(l, s.lock_queue));
                    assert(s.lock_queue != Set::<LockModel>::empty());
                    assert(out.deep_view() =~= seq![
                        s.to_manager(
                            MessageModel::VarLockGranted { txn: l.txn, from_name: s.name },
                        ),
                    ]);
                    assert(self.deep_view() =~= s.with_granted(l));
                }
            },
        }
        out
    }

    /// Whether `handle_message` can take the message.
    pub fn accepts(&self, msg: &Message) -> (r: bool)
        ensures
            r == self.deep_view().accepts(msg.deep_view()),
    {
        match msg {
            Message::DefWorkerUpdate { .. } => true,
            Message::DefLockRequest { .. } => true,
            Message::DefLockRelease { .. } => true,
            Message::DevReadDefRequest { txn } => find_held(
                &self.locks,
                LockKind::Read,
                txn.id,
            ).is_some(),
            Message::DevWriteDefRequest { txn, .. } => find_held(
                &self.locks,
                LockKind::Write,
                txn.id,
            ).is_some(),
            Message::UsrReadDefRequest { .. } => true,
            Message::Propagate { propa_change } => !self.replica.contains_key(
                &propa_change.from_name,
            ) || self.counter < i32::MAX,
            Message::Subscribe { .. } => true,
            Message::SubscriptionGranted { .. } => true,
            Message::DeSubscriptionGranted { .. } => true,
            _ => false,
        }
    }

    fn post_subscribes(&self, names: &ListSet<String>) -> (out: Vec<Envelope>)
        ensures
            self.deep_view().subscribes(names.deep_view(), out.deep_view()),
    {
        let ghost s = self.deep_view();
        let ghost post = |n: Seq<char>| s.subscribe_to(n);
        let ghost l = names.listing();
        let mut out: Vec<Envelope> = Vec::new();
        let n: usize = names.len();
        let mut i: usize = 0;
        assert(out.deep_view() =~= l.take(0).map_values(post));
        while i < n
            invariant
                i <= n == l.len(),
                l == names.listing(),
                s == self.deep_view(),
                post == (|n: Seq<char>| s.subscribe_to(n)),
                out.deep_view() == l.take(i as int).map_values(post),
            decreases n - i,
        {
            let ghost sent = out.deep_view();
            out.push(
                Envelope {
                    to: self.sender_to_manager,
                    msg: Message::Subscribe {
                        subscribe_who: names.at(i).clone(),
                        subscriber_name: self.name.clone(),
                        sender_to_subscriber: self.def_sndr,
                    },
                },
            );
            proof {
                assert(out.deep_view() =~= sent.push(post(l[i as int])));
                assert(out.deep_view() =~= l.take(i + 1).map_values(post));
            }
            i = i + 1;
        }
        assert(l.take(n as int) =~= l);
        out
    }

    fn post_desubscribes(&self, names: &ListSet<String>) -> (out: Vec<Envelope>)
        ensures
            self.deep_view().desubscribes(names.deep_view(), out.deep_view()),
    {
        let ghost s = self.deep_view();
        let ghost post = |n: Seq<char>| s.desubscribe_from(n);
        let ghost l = names.listing();
        let mut out: Vec<Envelope> = Vec::new();
        let n: usize = names.len();
        let mut i: usize = 0;
        assert(out.deep_view() =~= l.take(0).map_values(post));
        while i < n
            invariant
                i <= n == l.len(),
                l == names.listing(),
                s == self.deep_view(),
                post == (|n: Seq<char>| s.desubscribe_from(n)),
                out.deep_view() == l.take(i as int).map_values(post),
            decreases n - i,
        {
            let ghost sent = out.deep_view();
            out.push(
                Envelope {
                    to: self.sender_to_manager,
                    msg: Message::DeSubscribe {
                        desubscribe_who: names.at(i).clone(),
                        desubscriber_name: self.name.clone(),
                    },
                },
            );
            proof {
                assert(out.deep_view() =~= sent.push(post(l[i as int])));
                assert(out.deep_view() =~= l.take(i + 1).map_values(post));
            }
            i = i + 1;
        }
        assert(l.take(n as int) =~= l);
        out
    }

    fn replace_code(&mut self, node: String, expr: Expr) -> (out: Vec<Envelope>)
        ensures
            old(self).deep_view().handles(
                MessageModel::DefWorkerUpdate { node: node@, expr: expr.deep_view() },
                final(self).deep_view(),
                out.deep_view(),
            ),
    {
        let mut out = self.post_desubscribes(&self.expr.names_contained());
        let new_deps = expr.names_contained();
        let mut more = self.post_subscribes(&new_deps);
        let ghost first = out.deep_view();
        let ghost rest = more.deep_view();
        out.append(&mut more);
        assert(out.deep_view() =~= first + rest);
        self.replica = unknown_inputs(&new_deps);
        self.expr = expr;
        out
    }

    fn request_lock(&mut self, lock_kind: LockKind, txn: Txn) -> (out: Vec<Envelope>)
        ensures
            old(self).deep_view().handles(
                MessageModel::DefLockRequest { lock_kind, txn: txn.deep_view() },
                final(self).deep_view(),
                out.deep_view(),
            ),
    {
        let ghost s = self.deep_view();
        let mut out: Vec<Envelope> = Vec::new();
        let is_oldest_txn: bool = match oldest(&self.locks) {
            None => true,
            Some(l) => txn.id.time <= l.txn.id.time,
        };
        if is_oldest_txn || (!self.has_write_lock() && self.pending_write.is_none()) {
            self.lock_queue.insert(Lock { lock_kind, txn });
            assert(out.deep_view() =~= Seq::<Posted>::empty());
        } else {
            out.push(
                Envelope { to: self.sender_to_manager, msg: Message::DefLockAbort { txn } },
            );
            assert(out.deep_view() =~= seq![
                s.to_manager(MessageModel::DefLockAbort { txn: txn.deep_view() }),
            ]);
        }
        out
    }

    fn read_code(&mut self, txn: Txn) -> (out: Vec<Envelope>)
        requires
            holds(old(self).deep_view().locks, LockKind::Read, txn.id),
        ensures
            old(self).deep_view().handles(
                MessageModel::DevReadDefRequest { txn: txn.deep_view() },
                final(self).deep_view(),
                out.deep_view(),
            ),
    {
        let ghost s = self.deep_view();
        let mut out: Vec<Envelope> = Vec::new();
        match find_held(&self.locks, LockKind::Read, txn.id) {
            None => {},
            Some(lock) => {
                let _ = self.locks.remove(&lock);
                assert(s.locks.contains(lock.deep_view()));
                out.push(
                    Envelope {
                        to: self.sender_to_manager,
                        msg: Message::DevReadDefResult { name: self.name.clone(), txn },
                    },
                );
                assert(out.deep_view() =~= seq![
                    s.to_manager(
                        MessageModel::DevReadDefResult { name: s.name, txn: txn.deep_view() },
                    ),
                ]);
            },
        }
        out
    }

    fn write_code(&mut self, txn: Txn, write_expr: Expr) -> (out: Vec<Envelope>)
        requires
            holds(old(self).deep_view().locks, LockKind::Write, txn.id),
        ensures
            old(self).deep_view().handles(
                MessageModel::DevWriteDefRequest {
                    txn: txn.deep_view(),
                    write_expr: write_expr.deep_view(),
                },
                final(self).deep_view(),
                out.deep_view(),
            ),
    {
        let ghost s = self.deep_view();
        let inputs = write_expr.names_contained();
        let old_inputs = key_set(&self.replica);
        let added = inputs.minus(&old_inputs);
        let deleted = old_inputs.minus(&inputs);
        let mut out = self.post_subscribes(&added);
        let mut more = self.post_desubscribes(&deleted);
        let ghost first = out.deep_view();
        let ghost rest = more.deep_view();
        out.append(&mut more);
        assert(out.deep_view() =~= first + rest);
        match find_held(&self.locks, LockKind::Write, txn.id) {
            None => {},
            Some(lock) => {
                let _ = self.locks.remove(&lock);
                assert(s.locks.contains(lock.deep_view()));
                self.pending_write = Some(
                    PendingCodeUpdate { expr: write_expr, inputs_data: unknown_data(&added) },
                );
            },
        }
        out
    }

    fn take_change(&mut self, propa_change: PropaChange)
        requires
            old(self).deep_view().accepts(
                MessageModel::Propagate { propa_change: propa_change.deep_view() },
            ),
        ensures
            final(self).deep_view() == (if old(self).deep_view().replica.contains_key(
                propa_change.from_name@,
            ) {
                old(self).deep_view().with_change(propa_change.deep_view())
            } else {
                old(self).deep_view()
            }),
    {
        if self.replica.contains_key(&propa_change.from_name) {
            let ghost s = self.deep_view();
            let ghost change = propa_change.deep_view();
            let processed = Self::processed_propachange(
                &mut self.counter,
                &propa_change,
                &self.transtitive_deps,
            );
            let ghost waiting = processed.deep_view();
            let ghost l = propa_change.preds.listing();
            let n: usize = propa_change.preds.len();
            let mut i: usize = 0;
            while i < n
                invariant
                    i <= n == l.len(),
                    l == propa_change.preds.listing(),
                    change == propa_change.deep_view(),
                    waiting == processed.deep_view(),
                    self.deep_view() == (DefState {
                        counter: (s.counter + 1) as i32,
                        waiting: self.propa_changes_to_apply.deep_view(),
                        ..s
                    }),
                    forall|k: TxnAndNameModel| #[trigger]
                        self.propa_changes_to_apply.deep_view().contains_key(k)
                            <==> s.waiting.contains_key(k) || (l.take(i as int).contains(k.txn)
                            && k.name == change.from_name),
                    forall|k: TxnAndNameModel| #[trigger]
                        self.propa_changes_to_apply.deep_view().contains_key(k)
                            ==> self.propa_changes_to_apply.deep_view()[k] == if l.take(
                            i as int,
                        ).contains(k.txn) && k.name == change.from_name {
                            waiting
                        } else {
                            s.waiting[k]
                        },
                decreases n - i,
            {
                proof {
                    lemma_take_contains(l, i as int);
                }
                self.propa_changes_to_apply.insert(
                    TxnAndName {
                        txn: propa_change.preds.at(i).dup(),
                        name: propa_change.from_name.clone(),
                    },
                    processed.dup(),
                );
                i = i + 1;
            }
            proof {
                assert(l.take(n as int) =~= l);
                assert forall|t: TxnModel| l.contains(t) <==> #[trigger] change.preds.contains(
                    t,
                ) by {
                    assert(l.to_set().contains(t) <==> change.preds.contains(t));
                }
                assert(self.propa_changes_to_apply.deep_view() =~= s.with_change(change).waiting);
            }
        }
    }

    fn learn(
        &mut self,
        name: String,
        value: Option<Val>,
        provides: ListSet<Txn>,
        trans_dep_set: ListSet<String>,
    )
        ensures
            old(self).deep_view().learns(
                name@,
                (value.deep_view(), provides.deep_view(), trans_dep_set.deep_view()),
                final(self).deep_view(),
            ),
    {
        let ghost s = self.deep_view();
        let ghost data = (value.deep_view(), provides.deep_view(), trans_dep_set.deep_view());
        if self.replica.contains_key(&name) {
            self.replica.insert(name.clone(), value);
            self.transtitive_deps.insert(name.clone(), trans_dep_set);
            let part = extend_txns(&mut self.pred_txns, &provides);
            self.value = evaluate_expr(&self.expr, &self.replica);
            proof {
                assert(is_listing(part@, data.1));
                assert(self.deep_view() == DefState {
                    replica: s.replica.insert(name@, data.0),
                    depends: s.depends.insert(name@, data.2),
                    value: value_in(s.expr, s.replica.insert(name@, data.0)),
                    pred_txns: s.pred_txns + part@,
                    ..s
                });
            }
        }
    }

    /// Takes one message, and returns what is to be sent.
    pub fn handle_message(&mut self, msg: Message) -> (out: Vec<Envelope>)
        requires
            old(self).deep_view().accepts(msg.deep_view()),
        ensures
            old(self).deep_view().handles(
                msg.deep_view(),
                final(self).deep_view(),
                out.deep_view(),
            ),
    {
        let ghost s = self.deep_view();
        let mut out: Vec<Envelope> = Vec::new();
        assert(out.deep_view() =~= Seq::<Posted>::empty());
        match msg {
            Message::DefWorkerUpdate { node, expr } => {
                return self.replace_code(node, expr);
            },
            Message::DefLockRequest { lock_kind, txn } => {
                return self.request_lock(lock_kind, txn);
            },
            Message::DefLockRelease { txn } => {
                self.locks = self.locks.keep(&LockTest::NotOf(txn.id));
                assert(self.locks.deep_view() =~= s.locks.filter(
                    |l: LockModel| l.txn.id != txn.id,
                ));
            },
            Message::DevReadDefRequest { txn } => {
                return self.read_code(txn);
            },
            Message::DevWriteDefRequest { txn, write_expr } => {
                return self.write_code(txn, write_expr);
            },
            Message::UsrReadDefRequest { txn, required: _ } => {
                let result_pred = set_of(&self.pred_txns);
                out.push(
                    Envelope {
                        to: self.sender_to_manager,
                        msg: Message::UsrReadDefResult {
                            txn,
                            name: self.name.clone(),
                            result: self.value.dup(),
                            result_pred,
                        },
                    },
                );
                assert(out.deep_view() =~= seq![
                    s.to_manager(
                        MessageModel::UsrReadDefResult {
                            txn: txn.deep_view(),
                            name: s.name,
                            result: s.value,
                            result_pred: s.pred_txns.to_set(),
                        },
                    ),
                ]);
            },
            Message::Propagate { propa_change } => {
                self.take_change(propa_change);
            },
            Message::Subscribe { subscribe_who: _, subscriber_name, sender_to_subscriber } => {
                self.senders_to_subscribers.insert(subscriber_name, sender_to_subscriber);
                out.push(
                    Envelope {
                        to: sender_to_subscriber,
                        msg: Message::SubscriptionGranted {
                            name: self.name.clone(),
                            value: self.value.dup(),
                            provides: set_of(&self.pred_txns),
                            trans_dep_set: union_of_values(&self.transtitive_deps),
                        },
                    },
                );
                assert(out.deep_view() =~= seq![
                    Posted {
                        to: sender_to_subscriber,
                        msg: MessageModel::SubscriptionGranted {
                            name: s.name,
                            value: s.value,
                            provides: s.pred_txns.to_set(),
                            trans_dep_set: all_dependencies(s.depends),
                        },
                    },
                ]);
            },
            Message::SubscriptionGranted { name, value, provides, trans_dep_set } => {
                let mut taken: Option<PendingCodeUpdate> = None;
                std::mem::swap(&mut taken, &mut self.pending_write);
                match taken {
                    None => {
                        assert(self.deep_view() == s);
                        self.learn(name, value, provides, trans_dep_set);
                    },
                    Some(mut pcu) => {
                        pcu.inputs_data.insert(name, Some((value, provides, trans_dep_set)));
                        let complete = all_known(&pcu.inputs_data);
                        self.pending_write = Some(pcu);
                        assert(self.deep_view() == s.with_input(
                            name@,
                            (value.deep_view(), provides.deep_view(), trans_dep_set.deep_view()),
                        ));
                        if complete {
                            self.apply_code_update();
                        }
                    },
                }
            },
            _ => {},
        }
        out
    }
}

fn set_of(txns: &Vec<Txn>) -> (r: ListSet<Txn>)
    ensures
        r.deep_view() == txns.deep_view().to_set(),
{
    let ghost l = txns.deep_view();
    let mut r: ListSet<Txn> = ListSet::new();
    let mut i: usize = 0;
    assert(r.deep_view() =~= l.take(0).to_set());
    while i < txns.len()
        invariant
            i <= txns.len() == l.len(),
            l == txns.deep_view(),
            r.deep_view() == l.take(i as int).to_set(),
        decreases txns.len() - i,
    {
        proof {
            lemma_take_contains(l, i as int);
            assert(l[i as int] == txns[i as int].deep_view());
        }
        r.insert(txns[i].dup());
        assert(r.deep_view() =~= l.take(i + 1).to_set());
        i = i + 1;
    }
    assert(l.take(i as int) =~= l);
    r
}

fn union_of_values(m: &ListMap<String, ListSet<String>>) -> (r: ListSet<String>)
    ensures
        r.deep_view() == all_dependencies(m.deep_view()),
{
    let ghost view = m.deep_view();
    let ghost l = m.keys();
    let n: usize = m.len();
    let mut r: ListSet<String> = ListSet::new();
    let mut i: usize = 0;
    while i < n
        invariant
            i <= n == l.len(),
            l == m.keys(),
            view == m.deep_view(),
            is_listing(l, view.dom()),
            forall|v: Seq<char>| #[trigger]
                r.deep_view().contains(v) <==> exists|j: int|
                    0 <= j < i && view[#[trigger] l[j]].contains(v),
        decreases n - i,
    {
        let ghost before = r.deep_view();
        r.extend(m.value_at(i));
        assert forall|v: Seq<char>| #[trigger]
            r.deep_view().contains(v) <==> exists|j: int|
                0 <= j < i + 1 && view[#[trigger] l[j]].contains(v) by {
            if before.contains(v) {
                let j = choose|j: int| 0 <= j < i && view[#[trigger] l[j]].contains(v);
                assert(view[l[j]].contains(v));
            }
            if view[l[i as int]].contains(v) {
                assert(r.deep_view().contains(v));
            }
        }
        i = i + 1;
    }
    assert forall|v: Seq<char>| #[trigger]
        r.deep_view().contains(v) <==> all_dependencies(view).contains(v) by {
        if r.deep_view().contains(v) {
            let j = choose|j: int| 0 <= j < n && view[#[trigger] l[j]].contains(v);
            assert(l.to_set().contains(l[j]));
            assert(view.contains_key(l[j]));
        }
        if all_dependencies(view).contains(v) {
            let k = choose|k: Seq<char>| #[trigger] view.contains_key(k) && view[k].contains(v);
            assert(l.to_set().contains(k));
            let j = choose|j: int| 0 <= j < l.len() && l[j] == k;
            assert(view[l[j]].contains(v));
        }
    }
    assert(r.deep_view() =~= all_dependencies(view));
    r
}

fn key_set(m: &ListMap<String, Option<Val>>) -> (r: ListSet<String>)
    ensures
        r.deep_view() == m.deep_view().dom(),
{
    let ghost l = m.keys();
    let n: usize = m.len();
    let mut r: ListSet<String> = ListSet::new();
    let mut i: usize = 0;
    assert(r.deep_view() =~= l.take(0).to_set());
    while i < n
        invariant
            i <= n == l.len(),
            l == m.keys(),
            r.deep_view() == l.take(i as int).to_set(),
        decreases n - i,
    {
        proof {
            lemma_take_contains(l, i as int);
        }
        r.insert(m.key_at(i).clone());
        assert(r.deep_view() =~= l.take(i + 1).to_set());
        i = i + 1;
    }
    assert(l.take(i as int) =~= l);
    r
}

fn unknown_data(names: &ListSet<String>) -> (r: ListMap<String, Option<InputData>>)
    ensures
        r.deep_view() == unknown::<InputModel>(names.deep_view()),
{
    let ghost l = names.listing();
    let n: usize = names.len();
    let mut r: ListMap<String, Option<InputData>> = ListMap::new();
    let mut i: usize = 0;
    while i < n
        invariant
            i <= n == l.len(),
            l == names.listing(),
            forall|k: Seq<char>| #[trigger]
                r.deep_view().contains_key(k) <==> l.take(i as int).contains(k),
            forall|k: Seq<char>| #[trigger]
                r.deep_view().contains_key(k) ==> r.deep_view()[k] == None::<InputModel>,
        decreases n - i,
    {
        proof {
            lemma_take_contains(l, i as int);
        }
        r.insert(names.at(i).clone(), None);
        i = i + 1;
    }
    proof {
        assert(l.take(n as int) =~= l);
        assert forall|k: Seq<char>| l.contains(k) <==> #[trigger] names.deep_view().contains(
            k,
        ) by {}
        assert(r.deep_view() =~= unknown::<InputModel>(names.deep_view()));
    }
    r
}

fn all_known(m: &ListMap<String, Option<InputData>>) -> (r: bool)
    ensures
        r == (forall|k: Seq<char>| #[trigger]
            m.deep_view().contains_key(k) ==> m.deep_view()[k] is Some),
{
    let ghost l = m.keys();
    let ghost view = m.deep_view();
    let n: usize = m.len();
    let mut i: usize = 0;
    while i < n
        invariant
            i <= n == l.len(),
            l == m.keys(),
            view == m.deep_view(),
            is_listing(l, view.dom()),
            forall|j: int| 0 <= j < i ==> view[#[trigger] l[j]] is Some,
        decreases n - i,
    {
        if m.value_at(i).is_none() {
            assert(l.to_set().contains(l[i as int]));
            assert(view.contains_key(l[i as int]));
            return false;
        }
        i = i + 1;
    }
    assert forall|k: Seq<char>| #[trigger] view.contains_key(k) implies view[k] is Some by {
        assert(l.to_set().contains(k));
        let j = choose|j: int| 0 <= j < l.len() && l[j] == k;
        assert(view[l[j]] is Some);
    }
    true
}

} // verus!
