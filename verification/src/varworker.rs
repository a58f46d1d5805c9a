//! The worker of a variable: it queues and grants locks, and keeps the variable's value.

use vstd::prelude::*;

use crate::collections::{Dup, ListMap, ListSet};
#[allow(unused_imports)]
use crate::collections::is_listing;
use crate::expr::Val;
#[allow(unused_imports)]
use crate::expr::ValModel;
use crate::lock::{find_held, has_kind, has_older, oldest, Lock, LockKind, LockTest};
#[allow(unused_imports)]
use crate::lock::{holds, is_oldest, older_holds, some_of_kind, LockModel};
use crate::message::{Endpoint, Envelope, Message};
#[allow(unused_imports)]
use crate::message::{MessageModel, Posted};
use crate::transaction::{Txn, TxnId};
#[allow(unused_imports)]
use crate::transaction::TxnModel;

verus! {

/// A value that waits for the release of the write lock.
#[derive(Debug, Clone, PartialEq, Eq, Hash)]
pub struct PendingWrite {
    pub w_lock: Lock,
    pub value: Val,
}

/// While no transaction writes, `next_value` is the same as `value`. A transaction that
/// holds the write lock puts its new value into `next_value`; the release of its locks
/// makes that the current value.
#[derive(Debug)]
pub struct VarWorker {
    pub name: String,
    pub sender_to_manager: Endpoint,
    pub senders_to_subscribers: ListMap<String, Endpoint>,
    pub value: Option<Val>,
    pub next_value: Option<Val>,
    pub locks: ListSet<Lock>,
    pub lock_queue: ListSet<Lock>,
    pub latest_write_txn: Option<Txn>,
    /// The transactions applied so far.
    pub pred_txns: ListSet<Txn>,
    pub next_pred_set: ListSet<Txn>,
}

/// The model of a variable's worker.
#[verifier::ext_equal]
pub struct VarState {
    pub name: Seq<char>,
    pub manager: Endpoint,
    pub subscribers: Map<Seq<char>, Endpoint>,
    pub value: Option<ValModel>,
    pub next_value: Option<ValModel>,
    pub locks: Set<LockModel>,
    pub lock_queue: Set<LockModel>,
    pub latest_write_txn: Option<TxnModel>,
    pub pred_txns: Set<TxnModel>,
    pub next_pred_set: Set<TxnModel>,
}

impl DeepView for VarWorker {
    type V = VarState;

    open spec fn deep_view(&self) -> VarState {
        VarState {
            name: self.name@,
            manager: self.sender_to_manager,
            subscribers: self.senders_to_subscribers.deep_view(),
            value: self.value.deep_view(),
            next_value: self.next_value.deep_view(),
            locks: self.locks.deep_view(),
            lock_queue: self.lock_queue.deep_view(),
            latest_write_txn: self.latest_write_txn.deep_view(),
            pred_txns: self.pred_txns.deep_view(),
            next_pred_set: self.next_pred_set.deep_view(),
        }
    }
}

impl VarState {
    /// The state of a new worker.
    pub open spec fn initial(name: Seq<char>, manager: Endpoint) -> VarState {
        VarState {
            name,
            manager,
            subscribers: Map::empty(),
            value: None,
            next_value: None,
            locks: Set::empty(),
            lock_queue: Set::empty(),
            latest_write_txn: None,
            pred_txns: Set::empty(),
            next_pred_set: Set::empty(),
        }
    }

    /// Whether the worker can take the message: it knows the kind, and a write comes from
    /// a transaction that holds a write lock.
    pub open spec fn accepts(self, msg: MessageModel) -> bool {
        match msg {
            MessageModel::VarLockRequest { .. } => true,
            MessageModel::VarLockRelease { .. } => true,
            MessageModel::VarLockAbort { .. } => true,
            MessageModel::Subscribe { .. } => true,
            MessageModel::UsrReadVarRequest { .. } => true,
            MessageModel::UsrWriteVarRequest { txn, .. } => holds(
                self.locks,
                LockKind::Write,
                txn.id,
            ),
            _ => false,
        }
    }

    /// The locks that are not upgrade locks.
    pub open spec fn conflicting(self) -> Set<LockModel> {
        self.locks.filter(|l: LockModel| l.lock_kind != LockKind::Upgrade)
    }

    /// An upgrade lock is held or waited for.
    pub open spec fn upgrading(self) -> bool {
        some_of_kind(self.locks, LockKind::Upgrade) || some_of_kind(
            self.lock_queue,
            LockKind::Upgrade,
        )
    }

    /// A request of the transaction for a read or write lock is refused: an upgrade lock is
    /// held or waited for, or an older transaction holds a write lock.
    pub open spec fn refuses(self, txn: TxnModel) -> bool {
        self.upgrading() || older_holds(self.locks, LockKind::Write, txn.id)
    }

    /// The state after the message.
    pub open spec fn handled(self, msg: MessageModel) -> VarState {
        match msg {
            MessageModel::VarLockRequest { lock_kind, txn } => if lock_kind == LockKind::Upgrade {
                VarState {
                    locks: self.locks.filter(
                        |l: LockModel| l.lock_kind == LockKind::Upgrade,
                    ).insert(LockModel { lock_kind, txn }),
                    lock_queue: self.lock_queue.filter(
                        |l: LockModel| l.lock_kind == LockKind::Upgrade,
                    ),
                    next_value: self.value,
                    ..self
                }
            } else if self.refuses(txn) {
                self
            } else {
                VarState {
                    lock_queue: self.lock_queue.insert(LockModel { lock_kind, txn }),
                    ..self
                }
            },
            MessageModel::VarLockRelease { txn, required } => VarState {
                pred_txns: self.pred_txns.union(required),
                value: if holds(self.locks, LockKind::Write, txn.id) {
                    self.next_value
                } else {
                    self.value
                },
                locks: self.locks.filter(|l: LockModel| l.txn.id != txn.id),
                ..self
            },
            MessageModel::VarLockAbort { txn } => VarState {
                next_value: if holds(self.locks, LockKind::Write, txn.id) {
                    self.value
                } else {
                    self.next_value
                },
                locks: self.locks.filter(|l: LockModel| l.txn.id != txn.id),
                ..self
            },
            MessageModel::Subscribe { subscriber_name, sender_to_subscriber, .. } => VarState {
                subscribers: self.subscribers.insert(subscriber_name, sender_to_subscriber),
                ..self
            },
            MessageModel::UsrReadVarRequest { txn } => if some_of_kind(
                self.locks,
                LockKind::Upgrade,
            ) {
                self
            } else {
                VarState {
                    pred_txns: self.pred_txns.insert(txn),
                    locks: self.locks.filter(
                        |l: LockModel| !(l.lock_kind == LockKind::Read && l.txn.id == txn.id),
                    ),
                    ..self
                }
            },
            MessageModel::UsrWriteVarRequest { write_val, .. } => VarState {
                next_value: Some(write_val),
                ..self
            },
            _ => self,
        }
    }

    /// A message to the manager.
    pub open spec fn to_manager(self, msg: MessageModel) -> Posted {
        Posted { to: self.manager, msg }
    }

    /// The notice that the lock `l` is gone.
    pub open spec fn abort_notice(self, l: LockModel) -> Posted {
        self.to_manager(MessageModel::VarLockAbort { txn: l.txn })
    }

    /// The notice that `txn` has its lock.
    pub open spec fn grant_notice(self, txn: TxnModel) -> Posted {
        self.to_manager(MessageModel::VarLockGranted { txn, from_name: self.name })
    }

    /// The answer to a subscription.
    pub open spec fn subscription(self, to: Endpoint) -> Posted {
        Posted {
            to,
            msg: MessageModel::SubscriptionGranted {
                name: self.name,
                value: self.value,
                provides: match self.latest_write_txn {
                    Some(t) => Set::empty().insert(t),
                    None => Set::empty(),
                },
                trans_dep_set: Set::empty().insert(self.name),
            },
        }
    }

    /// `out` is what the worker sends on the message. An upgrade request is answered by
    /// one abort for each lock that is not an upgrade lock, in any order, and then the
    /// grant.
    pub open spec fn answers(self, msg: MessageModel, out: Seq<Posted>) -> bool {
        match msg {
            MessageModel::VarLockRequest { lock_kind, txn } => if lock_kind == LockKind::Upgrade {
                exists|order: Seq<LockModel>| #[trigger]
                    is_listing(order, self.conflicting()) && out == order.map_values(
                        |l: LockModel| self.abort_notice(l),
                    ).push(self.grant_notice(txn))
            } else if self.refuses(txn) {
                out == seq![self.to_manager(MessageModel::VarLockAbort { txn })]
            } else {
                out == Seq::<Posted>::empty()
            },
            MessageModel::Subscribe { sender_to_subscriber, .. } => out == seq![
                self.subscription(sender_to_subscriber),
            ],
            MessageModel::UsrReadVarRequest { txn } => if some_of_kind(
                self.locks,
                LockKind::Upgrade,
            ) {
                out == seq![self.to_manager(MessageModel::VarLockAbort { txn })]
            } else {
                out == seq![
                    self.to_manager(
                        MessageModel::UsrReadVarResult {
                            var_name: self.name,
                            result: self.value,
                            result_preds: self.pred_txns.insert(txn),
                            txn,
                        },
                    ),
                ]
            },
            _ => out == Seq::<Posted>::empty(),
        }
    }

    /// `next` and `out` are the state and the messages after one look at the queue: a
    /// lock of an oldest waiting transaction is granted, if any waits.
    pub open spec fn ticks(self, next: VarState, out: Seq<Posted>) -> bool {
        if self.lock_queue == Set::<LockModel>::empty() {
            next == self && out == Seq::<Posted>::empty()
        } else {
            exists|l: LockModel| #[trigger]
                is_oldest(l, self.lock_queue) && next == self.with_granted(l) && out == seq![
                    self.grant_notice(l.txn),
                ]
        }
    }

    /// `next` and `out` are the state and the messages after a message and a look at the
    /// queue.
    pub open spec fn runs(self, msg: MessageModel, next: VarState, out: Seq<Posted>) -> bool {
        exists|first: Seq<Posted>, rest: Seq<Posted>|
            self.answers(msg, first) && #[trigger] self.handled(msg).ticks(next, rest) && out
                == #[trigger] (first + rest)
    }

    /// The state in which the waiting lock `l` is held.
    pub open spec fn with_granted(self, l: LockModel) -> VarState {
        VarState {
            lock_queue: self.lock_queue.remove(l),
            locks: self.locks.insert(l),
            ..self
        }
    }
}

impl VarWorker {
    pub fn new(name: &str, sender_to_manager: Endpoint) -> (r: Self)
        ensures
            r.deep_view() == VarState::initial(name@, sender_to_manager),
    {
        VarWorker {
            name: name.to_string(),
            sender_to_manager,
            senders_to_subscribers: ListMap::new(),
            value: None,
            next_value: None,
            locks: ListSet::new(),
            lock_queue: ListSet::new(),
            latest_write_txn: None,
            pred_txns: ListSet::new(),
            next_pred_set: ListSet::new(),
        }
    }

    pub fn has_write_lock(&self) -> (r: bool)
        ensures
            r == some_of_kind(self.deep_view().locks, LockKind::Write),
    {
        has_kind(&self.locks, LockKind::Write)
    }

    /// Whether `handle_message` can take the message.
    pub fn accepts(&self, msg: &Message) -> (r: bool)
        ensures
            r == self.deep_view().accepts(msg.deep_view()),
    {
        match msg {
            Message::VarLockRequest { .. } => true,
            Message::VarLockRelease { .. } => true,
            Message::VarLockAbort { .. } => true,
            Message::Subscribe { .. } => true,
            Message::UsrReadVarRequest { .. } => true,
            Message::UsrWriteVarRequest { txn, .. } => find_held(
                &self.locks,
                LockKind::Write,
                txn.id,
            ).is_some(),
            _ => false,
        }
    }

    fn release(&mut self, id: TxnId)
        ensures
            final(self).deep_view() == (VarState {
                locks: old(self).deep_view().locks.filter(|l: LockModel| l.txn.id != id),
                ..old(self).deep_view()
            }),
    {
        self.locks = self.locks.keep(&LockTest::NotOf(id));
        assert(self.locks.deep_view() =~= old(self).deep_view().locks.filter(
            |l: LockModel| l.txn.id != id,
        ));
    }

    /// Drops every lock and every request that is not for an upgrade, and with them a value
    /// that waits for its release; tells the manager of each lock dropped, and grants the
    /// upgrade lock.
    fn upgrade(&mut self, txn: Txn) -> (out: Vec<Envelope>)
        ensures
            final(self).deep_view() == old(self).deep_view().handled(
                MessageModel::VarLockRequest {
                    lock_kind: LockKind::Upgrade,
                    txn: txn.deep_view(),
                },
            ),
            old(self).deep_view().answers(
                MessageModel::VarLockRequest {
                    lock_kind: LockKind::Upgrade,
                    txn: txn.deep_view(),
                },
                out.deep_view(),
            ),
    {
        let ghost s = self.deep_view();
        let dropped = self.locks.keep(&LockTest::NotOfKind(LockKind::Upgrade));
        assert(dropped.deep_view() =~= s.conflicting());
        let n: usize = dropped.len();
        let mut out: Vec<Envelope> = Vec::new();
        let mut i: usize = 0;
        let ghost notice = |l: LockModel| s.abort_notice(l);
        assert(out.deep_view() =~= dropped.listing().take(0).map_values(notice));
        while i < n
            invariant
                i <= n == dropped.listing().len(),
                s == self.deep_view(),
                notice == (|l: LockModel| s.abort_notice(l)),
                out.deep_view() == dropped.listing().take(i as int).map_values(notice),
            decreases n - i,
        {
            let ghost sent = out.deep_view();
            out.push(
                Envelope {
                    to: self.sender_to_manager,
                    msg: Message::VarLockAbort { txn: dropped.at(i).txn.dup() },
                },
            );
            proof {
                assert(out.deep_view() =~= sent.push(notice(dropped.listing()[i as int])));
                assert(out.deep_view() =~= dropped.listing().take(i + 1).map_values(notice));
            }
            i = i + 1;
        }
        assert(dropped.listing().take(n as int) =~= dropped.listing());
        self.locks = self.locks.keep(&LockTest::OfKind(LockKind::Upgrade));
        self.lock_queue = self.lock_queue.keep(&LockTest::OfKind(LockKind::Upgrade));
        self.locks.insert(Lock { lock_kind: LockKind::Upgrade, txn: txn.dup() });
        self.next_value = self.value.dup();
        let ghost aborts = out.deep_view();
        out.push(
            Envelope {
                to: self.sender_to_manager,
                msg: Message::VarLockGranted { txn, from_name: self.name.clone() },
            },
        );
        proof {
            assert(out.deep_view() =~= aborts.push(s.grant_notice(txn.deep_view())));
            assert(is_listing(dropped.listing(), s.conflicting()));
        }
        out
    }

    /// Takes one message, and returns what is to be sent.
    pub fn handle_message(&mut self, msg: Message) -> (out: Vec<Envelope>)
        requires
            old(self).deep_view().accepts(msg.deep_view()),
        ensures
            final(self).deep_view() == old(self).deep_view().handled(msg.deep_view()),
            old(self).deep_view().answers(msg.deep_view(), out.deep_view()),
    {
        let ghost s = self.deep_view();
        let mut out: Vec<Envelope> = Vec::new();
        assert(out.deep_view() =~= Seq::<Posted>::empty());
        match msg {
            Message::VarLockRequest { lock_kind, txn } => {
                if lock_kind == LockKind::Upgrade {
                    return self.upgrade(txn);
                }
                if has_kind(&self.locks, LockKind::Upgrade) || has_kind(
                    &self.lock_queue,
                    LockKind::Upgrade,
                ) || has_older(&self.locks, LockKind::Write, txn.id) {
                    out.push(
                        Envelope {
                            to: self.sender_to_manager,
                            msg: Message::VarLockAbort { txn },
                        },
                    );
                    assert(out.deep_view() =~= seq![
                        s.to_manager(MessageModel::VarLockAbort { txn: txn.deep_view() }),
                    ]);
                } else {
                    self.lock_queue.insert(Lock { lock_kind, txn });
                }
            },
            Message::VarLockRelease { txn, required } => {
                self.pred_txns.extend(&required);
                if find_held(&self.locks, LockKind::Write, txn.id).is_some() {
                    self.value = self.next_value.dup();
                }
                self.release(txn.id);
            },
            Message::VarLockAbort { txn } => {
                if find_held(&self.locks, LockKind::Write, txn.id).is_some() {
                    self.next_value = self.value.dup();
                }
                self.release(txn.id);
            },
            Message::Subscribe { subscribe_who: _, subscriber_name, sender_to_subscriber } => {
                self.senders_to_subscribers.insert(subscriber_name, sender_to_subscriber);
                let mut provides: ListSet<Txn> = ListSet::new();
                match &self.latest_write_txn {
                    Some(t) => {
                        provides.insert(t.dup());
                    },
                    None => {},
                }
                let mut trans_dep_set: ListSet<String> = ListSet::new();
                trans_dep_set.insert(self.name.clone());
                out.push(
                    Envelope {
                        to: sender_to_subscriber,
                        msg: Message::SubscriptionGranted {
                            name: self.name.clone(),
                            value: self.value.dup(),
                            provides,
                            trans_dep_set,
                        },
                    },
                );
                assert(out.deep_view() =~= seq![s.subscription(sender_to_subscriber)]);
            },
            Message::UsrReadVarRequest { txn } => {
                if has_kind(&self.locks, LockKind::Upgrade) {
                    out.push(
                        Envelope {
                            to: self.sender_to_manager,
                            msg: Message::VarLockAbort { txn },
                        },
                    );
                    assert(out.deep_view() =~= seq![
                        s.to_manager(MessageModel::VarLockAbort { txn: txn.deep_view() }),
                    ]);
                } else {
                    let id = txn.id;
                    self.pred_txns.insert(txn.dup());
                    self.locks = self.locks.keep(&LockTest::NotReadOf(id));
                    out.push(
                        Envelope {
                            to: self.sender_to_manager,
                            msg: Message::UsrReadVarResult {
                                var_name: self.name.clone(),
                                result: self.value.dup(),
                                result_preds: self.pred_txns.dup(),
                                txn,
                            },
                        },
                    );
                    assert(out.deep_view() =~= seq![
                        s.to_manager(
                            MessageModel::UsrReadVarResult {
                                var_name: s.name,
                                result: s.value,
                                result_preds: s.pred_txns.insert(txn.deep_view()),
                                txn: txn.deep_view(),
                            },
                        ),
                    ]);
                }
            },
            Message::UsrWriteVarRequest { txn: _, write_val } => {
                self.next_value = Some(write_val);
            },
            _ => {},
        }
        out
    }

    /// Grants the lock of an oldest waiting transaction, if any waits.
    pub fn tick(&mut self) -> (out: Vec<Envelope>)
        ensures
            old(self).deep_view().ticks(final(self).deep_view(), out.deep_view()),
    {
        let ghost s = self.deep_view();
        let mut out: Vec<Envelope> = Vec::new();
        assert(out.deep_view() =~= Seq::<Posted>::empty());
        match oldest(&self.lock_queue) {
            None => {},
            Some(lock) => {
                let _ = self.lock_queue.remove(&lock);
                self.locks.insert(lock.dup());
                out.push(
                    Envelope {
                        to: self.sender_to_manager,
                        msg: Message::VarLockGranted {
                            txn: lock.txn.dup(),
                            from_name: self.name.clone(),
                        },
                    },
                );
                proof {
                    let l = lock.deep_view();
                    assert(is_oldest(l, s.lock_queue));
                    assert(s.lock_queue != Set::<LockModel>::empty());
                    assert(out.deep_view() =~= seq![s.grant_notice(l.txn)]);
                    assert(self.deep_view() =~= s.with_granted(l));
                }
            },
        }
        out
    }
}

impl VarWorker {
    /// One round of the worker's loop: takes one message, then looks at the queue.
    pub fn run_varworker(&mut self, msg: Message) -> (out: Vec<Envelope>)
        requires
            old(self).deep_view().accepts(msg.deep_view()),
        ensures
            old(self).deep_view().runs(msg.deep_view(), final(self).deep_view(), out.deep_view()),
    {
        let mut out = self.handle_message(msg);
        let ghost first = out.deep_view();
        let ghost middle = self.deep_view();
        let mut more = self.tick();
        let ghost rest = more.deep_view();
        out.append(&mut more);
        proof {
            assert(out.deep_view() =~= first + rest);
            assert(middle.ticks(self.deep_view(), rest));
        }
        out
    }
}

impl VarState {
    /// No upgrade lock waits, and while one is held no other lock is held or waited for.
    pub open spec fn exclusive(self) -> bool {
        &&& !some_of_kind(self.lock_queue, LockKind::Upgrade)
        &&& some_of_kind(self.locks, LockKind::Upgrade) ==> self.conflicting() == Set::<
            LockModel,
        >::empty() && self.lock_queue == Set::<LockModel>::empty()
    }

    /// While nobody holds a write lock, the next value is the current one.
    pub open spec fn settled(self) -> bool {
        !some_of_kind(self.locks, LockKind::Write) ==> self.next_value == self.value
    }
}

/// A new worker holds no lock, so that an upgrade lock excludes all others, and its next
/// value is its current one.
pub proof fn law_initial(name: Seq<char>, manager: Endpoint)
    ensures
        VarState::initial(name, manager).exclusive(),
        VarState::initial(name, manager).settled(),
{
}

/// An upgrade lock excludes all others: every message leaves that so.
pub proof fn law_upgrade_excludes_others(s: VarState, msg: MessageModel)
    requires
        s.exclusive(),
    ensures
        s.handled(msg).exclusive(),
{
    let t = s.handled(msg);
    match msg {
        MessageModel::VarLockRequest { lock_kind, txn } => {
            if lock_kind == LockKind::Upgrade {
                assert forall|l: LockModel| !#[trigger] t.lock_queue.contains(l) by {
                    if s.lock_queue.contains(l) && l.lock_kind == LockKind::Upgrade {
                        assert(some_of_kind(s.lock_queue, LockKind::Upgrade));
                    }
                }
                assert(t.lock_queue =~= Set::<LockModel>::empty());
                assert(t.conflicting() =~= Set::<LockModel>::empty());
            } else if !s.refuses(txn) {
                assert(!some_of_kind(t.locks, LockKind::Upgrade));
                assert forall|l: LockModel| #[trigger] t.lock_queue.contains(l) implies l.lock_kind
                    != LockKind::Upgrade by {
                    if l != (LockModel { lock_kind, txn }) {
                        assert(s.lock_queue.contains(l));
                    }
                }
            }
        },
        _ => {
            assert(t.lock_queue == s.lock_queue);
            assert forall|l: LockModel| #[trigger] t.locks.contains(l) implies s.locks.contains(
                l,
            ) by {}
            if some_of_kind(t.locks, LockKind::Upgrade) {
                let l = choose|l: LockModel| #[trigger]
                    t.locks.contains(l) && l.lock_kind == LockKind::Upgrade;
                assert(s.locks.contains(l));
                assert(some_of_kind(s.locks, LockKind::Upgrade));
                assert forall|m: LockModel| !#[trigger] t.conflicting().contains(m) by {
                    if t.conflicting().contains(m) {
                        assert(s.conflicting().contains(m));
                    }
                }
                assert(t.conflicting() =~= Set::<LockModel>::empty());
            }
        },
    }
}

/// An upgrade lock excludes all others: a look at the queue leaves that so.
pub proof fn law_tick_keeps_exclusion(s: VarState, t: VarState, out: Seq<Posted>)
    requires
        s.exclusive(),
        s.ticks(t, out),
    ensures
        t.exclusive(),
{
    if s.lock_queue != Set::<LockModel>::empty() {
        let l = choose|l: LockModel| #[trigger]
            is_oldest(l, s.lock_queue) && t == s.with_granted(l) && out == seq![
                s.grant_notice(l.txn),
            ];
        assert(l.lock_kind != LockKind::Upgrade);
        assert forall|m: LockModel| #[trigger] t.locks.contains(m) implies m.lock_kind
            != LockKind::Upgrade by {
            if m != l {
                assert(s.locks.contains(m));
            }
        }
        assert forall|m: LockModel| #[trigger] t.lock_queue.contains(m) implies m.lock_kind
            != LockKind::Upgrade by {
            assert(s.lock_queue.contains(m));
        }
    }
}

/// While nobody writes, the next value is the current one: every message that the worker
/// takes leaves that so.
pub proof fn law_settled(s: VarState, msg: MessageModel)
    requires
        s.settled(),
        s.accepts(msg),
    ensures
        s.handled(msg).settled(),
{
    let t = s.handled(msg);
    if let MessageModel::VarLockRelease { txn, .. } = msg {
        if some_of_kind(s.locks, LockKind::Write) && !holds(s.locks, LockKind::Write, txn.id) {
            let l = choose|l: LockModel| #[trigger]
                s.locks.contains(l) && l.lock_kind == LockKind::Write;
            assert(t.locks.contains(l));
        }
    }
    if let MessageModel::VarLockAbort { txn } = msg {
        if some_of_kind(s.locks, LockKind::Write) && !holds(s.locks, LockKind::Write, txn.id) {
            let l = choose|l: LockModel| #[trigger]
                s.locks.contains(l) && l.lock_kind == LockKind::Write;
            assert(t.locks.contains(l));
        }
    }
    if let MessageModel::UsrReadVarRequest { txn } = msg {
        if some_of_kind(s.locks, LockKind::Write) {
            let l = choose|l: LockModel| #[trigger]
                s.locks.contains(l) && l.lock_kind == LockKind::Write;
            assert(t.locks.contains(l));
        }
    }
    if let MessageModel::UsrWriteVarRequest { txn, .. } = msg {
        let l = choose|l: LockModel| #[trigger]
            s.locks.contains(l) && l.lock_kind == LockKind::Write && l.txn.id == txn.id;
        assert(t.locks.contains(l));
    }
}

/// While nobody writes, the next value is the current one: a look at the queue leaves
/// that so.
pub proof fn law_tick_settled(s: VarState, t: VarState, out: Seq<Posted>)
    requires
        s.settled(),
        s.ticks(t, out),
    ensures
        t.settled(),
{
    if some_of_kind(s.locks, LockKind::Write) && s.lock_queue != Set::<LockModel>::empty() {
        let l = choose|l: LockModel| #[trigger]
            s.locks.contains(l) && l.lock_kind == LockKind::Write;
        assert(t.locks.contains(l));
    }
}

/// A value that was written and whose lock was released is the value that a later read
/// gives back, as long as no upgrade lock is held.
pub proof fn law_write_then_read(
    s: VarState,
    writer: TxnModel,
    v: ValModel,
    required: Set<TxnModel>,
    reader: TxnModel,
    out: Seq<Posted>,
)
    requires
        s.accepts(MessageModel::UsrWriteVarRequest { txn: writer, write_val: v }),
        ({
            let t = s.handled(
                MessageModel::UsrWriteVarRequest { txn: writer, write_val: v },
            ).handled(MessageModel::VarLockRelease { txn: writer, required });
            &&& !some_of_kind(t.locks, LockKind::Upgrade)
            &&& t.answers(MessageModel::UsrReadVarRequest { txn: reader }, out)
        }),
    ensures
        out.len() == 1,
        out[0].to == s.manager,
        out[0].msg matches MessageModel::UsrReadVarResult { var_name, result, txn, .. }
            && var_name == s.name && result == Some(v) && txn == reader,
{
}

/// A look at the queue and requests for read and write locks leave the value, and the value
/// that waits for the release, as they are. A request for the upgrade lock leaves the value
/// as it is.
pub proof fn law_waiting_keeps_values(s: VarState, t: VarState, out: Seq<Posted>, kind: LockKind, txn: TxnModel)
    requires
        s.ticks(t, out),
    ensures
        t.value == s.value && t.next_value == s.next_value,
        s.handled(MessageModel::VarLockRequest { lock_kind: kind, txn }).value == s.value,
        kind != LockKind::Upgrade ==> s.handled(
            MessageModel::VarLockRequest { lock_kind: kind, txn },
        ).next_value == s.next_value,
{
}

/// A release by a transaction that does not hold a write lock commits nothing, and leaves
/// the write of another one waiting.
pub proof fn law_only_writer_commits(s: VarState, txn: TxnModel, required: Set<TxnModel>)
    requires
        !holds(s.locks, LockKind::Write, txn.id),
    ensures
        s.handled(MessageModel::VarLockRelease { txn, required }).value == s.value,
        s.handled(MessageModel::VarLockRelease { txn, required }).next_value == s.next_value,
{
}

/// An upgrade lock undoes a write that was not released yet: no later release commits it.
pub proof fn law_upgrade_discards_write(
    s: VarState,
    writer: TxnModel,
    v: ValModel,
    upgrader: TxnModel,
    other: TxnModel,
    required: Set<TxnModel>,
)
    ensures
        ({
            let t = s.handled(
                MessageModel::UsrWriteVarRequest { txn: writer, write_val: v },
            ).handled(
                MessageModel::VarLockRequest { lock_kind: LockKind::Upgrade, txn: upgrader },
            );
            &&& t.next_value == s.value
            &&& t.handled(MessageModel::VarLockRelease { txn: other, required }).value == s.value
        }),
{
}

/// While an older transaction holds a write lock, a request for a read or write lock is
/// answered by an abort and by nothing else, and changes nothing.
pub proof fn law_refused_while_older_writes(
    s: VarState,
    kind: LockKind,
    txn: TxnModel,
    out: Seq<Posted>,
)
    requires
        older_holds(s.locks, LockKind::Write, txn.id),
        kind != LockKind::Upgrade,
        s.answers(MessageModel::VarLockRequest { lock_kind: kind, txn }, out),
    ensures
        out == seq![s.to_manager(MessageModel::VarLockAbort { txn })],
        s.handled(MessageModel::VarLockRequest { lock_kind: kind, txn }) == s,
{
}

/// A worker comes from the state `a` to the state `b` by one round on the message.
pub open spec fn round(a: VarState, m: MessageModel, b: VarState) -> bool {
    exists|out: Seq<Posted>| #[trigger] a.runs(m, b, out)
}

/// A worker goes through the states `w`, one round for each of the messages.
pub open spec fn rounds(w: Seq<VarState>, msgs: Seq<MessageModel>) -> bool {
    &&& w.len() == msgs.len() + 1
    &&& forall|i: int| 0 <= i < msgs.len() ==> round(w[i], #[trigger] msgs[i], w[i + 1])
}

impl VarState {
    /// The message leaves alone what the transaction `id` has written: it is no request for
    /// an upgrade and no write, it does not end that transaction, and it does not abort
    /// another one that holds a write lock.
    pub open spec fn leaves_write(self, msg: MessageModel, id: TxnId) -> bool {
        match msg {
            MessageModel::VarLockRequest { lock_kind, .. } => lock_kind != LockKind::Upgrade,
            MessageModel::UsrWriteVarRequest { .. } => false,
            MessageModel::VarLockRelease { txn, .. } => txn.id != id,
            MessageModel::VarLockAbort { txn } => txn.id != id && !holds(
                self.locks,
                LockKind::Write,
                txn.id,
            ),
            _ => true,
        }
    }
}

/// While a transaction holds the write lock, messages of others leave its lock and what it
/// has written as they are, save a request for an upgrade, a further write, and the abort
/// of another holder of a write lock.
pub proof fn law_others_leave_write(s: VarState, msg: MessageModel, t: VarState, id: TxnId)
    requires
        round(s, msg, t),
        s.leaves_write(msg, id),
        holds(s.locks, LockKind::Write, id),
    ensures
        t.next_value == s.next_value,
        holds(t.locks, LockKind::Write, id),
{
    let l = choose|l: LockModel| #[trigger]
        s.locks.contains(l) && l.lock_kind == LockKind::Write && l.txn.id == id;
    assert(s.handled(msg).locks.contains(l));
    lemma_round_grants(s, msg, t);
    assert(t.locks.contains(l));
}

/// Beyond what the message does, a round keeps all values and takes no lock away.
pub proof fn lemma_round_grants(s: VarState, msg: MessageModel, t: VarState)
    requires
        round(s, msg, t),
    ensures
        t.value == s.handled(msg).value,
        t.next_value == s.handled(msg).next_value,
        s.handled(msg).locks.subset_of(t.locks),
{
    let out = choose|out: Seq<Posted>| #[trigger] s.runs(msg, t, out);
    let h = s.handled(msg);
    let (first, rest) = choose|first: Seq<Posted>, rest: Seq<Posted>|
        s.answers(msg, first) && #[trigger] h.ticks(t, rest) && out == #[trigger] (first + rest);
    assert(h.ticks(t, rest));
}

/// What a transaction writes is the value after its release, whatever the messages of
/// others in between, save a request for an upgrade, a further write, and the abort of
/// another holder of a write lock.
pub proof fn law_release_commits_among_others(
    w: Seq<VarState>,
    msgs: Seq<MessageModel>,
    txn: TxnModel,
    v: ValModel,
    required: Set<TxnModel>,
)
    requires
        rounds(w, msgs),
        msgs.len() >= 2,
        holds(w[0].locks, LockKind::Write, txn.id),
        msgs[0] == (MessageModel::UsrWriteVarRequest { txn, write_val: v }),
        forall|i: int|
            0 < i < msgs.len() - 1 ==> w[i].leaves_write(#[trigger] msgs[i], txn.id),
        msgs.last() == (MessageModel::VarLockRelease { txn, required }),
    ensures
        w.last().value == Some(v),
        w.last().next_value == Some(v),
{
    let n = msgs.len() - 1;
    lemma_write_waits(w, msgs, txn, v, n);
    assert(round(w[n], msgs[n], w[n + 1]));
    lemma_round_grants(w[n], msgs[n], w[n + 1]);
}

proof fn lemma_write_waits(
    w: Seq<VarState>,
    msgs: Seq<MessageModel>,
    txn: TxnModel,
    v: ValModel,
    n: int,
)
    requires
        rounds(w, msgs),
        0 < n <= msgs.len(),
        holds(w[0].locks, LockKind::Write, txn.id),
        msgs[0] == (MessageModel::UsrWriteVarRequest { txn, write_val: v }),
        forall|i: int| 0 < i < n ==> w[i].leaves_write(#[trigger] msgs[i], txn.id),
    ensures
        w[n].next_value == Some(v),
        holds(w[n].locks, LockKind::Write, txn.id),
    decreases n,
{
    let i = n - 1;
    assert(round(w[i], msgs[i], w[i + 1]));
    if n == 1 {
        lemma_round_grants(w[0], msgs[0], w[1]);
        let l = choose|l: LockModel| #[trigger]
            w[0].locks.contains(l) && l.lock_kind == LockKind::Write && l.txn.id == txn.id;
        assert(w[0].handled(msgs[0]).locks.contains(l));
        assert(w[1].locks.contains(l));
    } else {
        lemma_write_waits(w, msgs, txn, v, i);
        law_others_leave_write(w[i], msgs[i], w[n], txn.id);
    }
}

/// The abort of a transaction that holds no write lock leaves the write of another one
/// waiting.
pub proof fn law_only_writer_discards(s: VarState, txn: TxnModel)
    requires
        !holds(s.locks, LockKind::Write, txn.id),
    ensures
        s.handled(MessageModel::VarLockAbort { txn }).next_value == s.next_value,
        s.handled(MessageModel::VarLockAbort { txn }).value == s.value,
{
}

/// An abort undoes a write that was not released yet.
pub proof fn law_abort_discards_write(s: VarState, txn: TxnModel, v: ValModel)
    requires
        s.accepts(MessageModel::UsrWriteVarRequest { txn, write_val: v }),
    ensures
        ({
            let t = s.handled(
                MessageModel::UsrWriteVarRequest { txn, write_val: v },
            ).handled(MessageModel::VarLockAbort { txn });
            t.value == s.value && t.next_value == s.value
        }),
{
}

/// After a release or an abort the transaction holds no lock, and the locks of all others
/// are as they were.
pub proof fn law_release_frees(
    s: VarState,
    txn: TxnModel,
    required: Set<TxnModel>,
    l: LockModel,
)
    ensures
        s.handled(MessageModel::VarLockRelease { txn, required }).locks.contains(l) <==> (
        s.locks.contains(l) && l.txn.id != txn.id),
        s.handled(MessageModel::VarLockAbort { txn }).locks.contains(l) <==> (s.locks.contains(l)
            && l.txn.id != txn.id),
{
}

/// While an upgrade lock is held, a request for a read or write lock, and a read, is
/// answered by an abort of that transaction and by nothing else, and changes nothing.
pub proof fn law_refused_while_upgrading(
    s: VarState,
    kind: LockKind,
    txn: TxnModel,
    out: Seq<Posted>,
)
    requires
        some_of_kind(s.locks, LockKind::Upgrade),
        kind != LockKind::Upgrade,
        s.answers(MessageModel::VarLockRequest { lock_kind: kind, txn }, out) || s.answers(
            MessageModel::UsrReadVarRequest { txn },
            out,
        ),
    ensures
        out == seq![s.to_manager(MessageModel::VarLockAbort { txn })],
        s.handled(MessageModel::VarLockRequest { lock_kind: kind, txn }) == s,
        s.handled(MessageModel::UsrReadVarRequest { txn }) == s,
{
}

/// Each look at a queue that is not empty makes it shorter by one lock, which is held
/// from then on.
pub proof fn law_tick_progress(s: VarState, t: VarState, out: Seq<Posted>)
    requires
        s.lock_queue.finite(),
        s.lock_queue != Set::<LockModel>::empty(),
        s.ticks(t, out),
    ensures
        t.lock_queue.len() + 1 == s.lock_queue.len(),
        exists|l: LockModel| #[trigger] is_oldest(l, s.lock_queue) && t.locks.contains(l),
{
}

} // verus!
