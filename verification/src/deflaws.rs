//! What holds of a definition's worker through all its messages.

use vstd::prelude::*;

#[allow(unused_imports)]
use crate::defworker::{unknown, DefState, InputModel};
#[allow(unused_imports)]
use crate::collections::is_listing;
#[allow(unused_imports)]
use crate::expr::{names_in, value_in, ExprModel, ValModel};
#[allow(unused_imports)]
use crate::exprlaws::{law_names_are_those_that_occur, occurs};
#[allow(unused_imports)]
use crate::lock::{is_oldest, some_of_kind, LockKind, LockModel};
#[allow(unused_imports)]
use crate::message::{Endpoint, MessageModel, Posted, TxnAndNameModel};
#[allow(unused_imports)]
use crate::transaction::TxnModel;

verus! {

impl DefState {
    /// Each name in the code is an input, and each name in code that waits is an input or
    /// about to be one.
    pub open spec fn inputs_covered(self) -> bool {
        &&& names_in(self.expr).subset_of(self.replica.dom())
        &&& self.pending matches Some(p) ==> names_in(p.expr).subset_of(
            self.replica.dom().union(p.inputs_data.dom()),
        )
    }
}

/// A new worker has each name of its code as an input.
pub proof fn law_initial_covered(
    name: Seq<char>,
    inbox: Endpoint,
    manager: Endpoint,
    expr: ExprModel,
    depends: Map<Seq<char>, Set<Seq<char>>>,
)
    ensures
        DefState::initial(name, inbox, manager, expr, depends).inputs_covered(),
        DefState::initial(name, inbox, manager, expr, depends).filed(),
{
    assert(names_in(expr) =~= unknown::<ValModel>(names_in(expr)).dom());
}

/// No message leaves the code with a name that is not an input; the one exception is code
/// that a manager puts in while other code waits for its inputs.
pub proof fn law_messages_keep_covered(
    s: DefState,
    msg: MessageModel,
    next: DefState,
    out: Seq<Posted>,
)
    requires
        s.inputs_covered(),
        s.accepts(msg),
        s.handles(msg, next, out),
        msg is DefWorkerUpdate ==> s.pending is None,
    ensures
        next.inputs_covered(),
{
    match msg {
        MessageModel::DefWorkerUpdate { expr, .. } => {
            assert(names_in(expr) =~= unknown::<ValModel>(names_in(expr)).dom());
        },
        MessageModel::DevWriteDefRequest { txn, write_expr } => {
            let added = names_in(write_expr).difference(s.replica.dom());
            assert(added =~= unknown::<InputModel>(added).dom());
            assert(names_in(write_expr).subset_of(s.replica.dom().union(added)));
        },
        MessageModel::SubscriptionGranted { name, value, provides, trans_dep_set } => {
            if s.pending is None {
                assert(next.replica.dom() =~= s.replica.dom());
            } else {
                let told = s.with_input(name, (value, provides, trans_dep_set));
                let p = s.pending->0;
                let q = told.pending->0;
                assert(p.inputs_data.dom().subset_of(q.inputs_data.dom()));
                if told.ready() {
                    assert(next.replica.dom() =~= s.replica.dom().union(q.inputs_data.dom()));
                }
            }
        },
        _ => {},
    }
}

/// Changes stay filed under their transactions and inputs.
pub proof fn law_messages_keep_filed(
    s: DefState,
    msg: MessageModel,
    next: DefState,
    out: Seq<Posted>,
)
    requires
        s.filed(),
        s.handles(msg, next, out),
    ensures
        next.filed(),
{
    match msg {
        MessageModel::Propagate { propa_change } => {
            if s.replica.contains_key(propa_change.from_name) {
                assert forall|k: TxnAndNameModel| #[trigger]
                    next.waiting.contains_key(k) implies next.waiting[k].propa_change.preds.contains(
                    k.txn,
                ) && next.waiting[k].propa_change.from_name == k.name by {
                    if !(propa_change.preds.contains(k.txn) && k.name == propa_change.from_name) {
                        assert(s.waiting.contains_key(k));
                    }
                }
            }
        },
        _ => {},
    }
}

/// A whole round keeps both.
pub proof fn law_rounds_keep_order(s: DefState, msg: MessageModel, next: DefState, out: Seq<Posted>)
    requires
        s.filed(),
        s.inputs_covered(),
        s.accepts(msg),
        msg is DefWorkerUpdate ==> s.pending is None,
        s.runs(msg, next, out),
    ensures
        next.filed(),
        next.inputs_covered(),
{
    let (handled, first, ticked, rest) = choose|
        handled: DefState,
        first: Seq<Posted>,
        ticked: DefState,
        rest: Seq<Posted>,
    |
        {
            &&& #[trigger] s.handles(msg, handled, first)
            &&& #[trigger] handled.ticks(ticked, rest)
            &&& ticked.settles_batch(next)
            &&& out == first + rest
        };
    law_messages_keep_covered(s, msg, handled, first);
    law_messages_keep_filed(s, msg, handled, first);
}

/// A request for a lock is refused only to a transaction that is younger than some holder,
/// and only while somebody holds the write lock or code waits for its inputs.
pub proof fn law_refusal_has_reason(
    s: DefState,
    lock_kind: LockKind,
    txn: TxnModel,
    next: DefState,
    out: Seq<Posted>,
)
    requires
        s.handles(MessageModel::DefLockRequest { lock_kind, txn }, next, out),
        out.contains(s.to_manager(MessageModel::DefLockAbort { txn })),
    ensures
        exists|l: LockModel| #[trigger] s.locks.contains(l) && l.txn.id.time < txn.id.time,
        some_of_kind(s.locks, LockKind::Write) || s.pending is Some,
        next == s,
{
}

/// While a lock waits, each look at the queue grants one: it leaves the queue and is held,
/// and no older one waits.
pub proof fn law_tick_grants(s: DefState, next: DefState, out: Seq<Posted>)
    requires
        s.lock_queue.finite(),
        s.lock_queue != Set::<LockModel>::empty(),
        s.ticks(next, out),
    ensures
        next.lock_queue.len() == s.lock_queue.len() - 1,
        exists|l: LockModel| #[trigger]
            is_oldest(l, s.lock_queue) && next.locks.contains(l) && !next.lock_queue.contains(l)
                && out == seq![
                s.to_manager(MessageModel::VarLockGranted { txn: l.txn, from_name: s.name }),
            ],
{
    let l = choose|l: LockModel| #[trigger]
        is_oldest(l, s.lock_queue) && next == s.with_granted(l) && out == seq![
            s.to_manager(MessageModel::VarLockGranted { txn: l.txn, from_name: s.name }),
        ];
    assert(is_oldest(l, s.lock_queue) && next.locks.contains(l));
}

/// After the release a transaction holds no lock.
pub proof fn law_release_frees_definition(
    s: DefState,
    txn: TxnModel,
    next: DefState,
    out: Seq<Posted>,
)
    requires
        s.handles(MessageModel::DefLockRelease { txn }, next, out),
    ensures
        forall|l: LockModel| #[trigger]
            next.locks.contains(l) <==> s.locks.contains(l) && l.txn.id != txn.id,
{
}

/// Once the last new input has answered, the new code is in force, and the value is that
/// of the new code on the inputs' values.
pub proof fn law_last_answer_takes_over(
    s: DefState,
    name: Seq<char>,
    data: InputModel,
    next: DefState,
    out: Seq<Posted>,
)
    requires
        s.pending is Some,
        s.with_input(name, data).ready(),
        s.handles(
            MessageModel::SubscriptionGranted {
                name,
                value: data.0,
                provides: data.1,
                trans_dep_set: data.2,
            },
            next,
            out,
        ),
    ensures
        next.pending is None,
        next.expr == (s.pending->0).expr,
        next.replica[name] == data.0,
        next.value == value_in(next.expr, next.replica),
{
    assert(s.with_input(name, data).pending->0.inputs_data.contains_key(name));
}

/// The answer of an input brings its value: the definition's value is from then on that of
/// its code on it.
pub proof fn law_answer_brings_value(
    s: DefState,
    name: Seq<char>,
    data: InputModel,
    next: DefState,
    out: Seq<Posted>,
)
    requires
        s.pending is None,
        s.replica.contains_key(name),
        s.handles(
            MessageModel::SubscriptionGranted {
                name,
                value: data.0,
                provides: data.1,
                trans_dep_set: data.2,
            },
            next,
            out,
        ),
    ensures
        next.expr == s.expr,
        next.replica == s.replica.insert(name, data.0),
        next.value == value_in(s.expr, next.replica),
{
}

/// The states hold the same code, inputs and values, and differ in nothing but locks and
/// code that waits.
pub open spec fn same_definition(a: DefState, b: DefState) -> bool {
    &&& a.name == b.name
    &&& a.inbox == b.inbox
    &&& a.manager == b.manager
    &&& a.subscribers == b.subscribers
    &&& a.value == b.value
    &&& a.pred_txns == b.pred_txns
    &&& a.prev_batch_provides == b.prev_batch_provides
    &&& a.waiting == b.waiting
    &&& a.expr == b.expr
    &&& a.replica == b.replica
    &&& a.depends == b.depends
    &&& a.counter == b.counter
}

/// A request for a lock is refused exactly where an older transaction holds a lock, and
/// besides somebody holds a write lock or code waits. Elsewhere the lock that is asked for
/// waits, and nothing is answered yet.
pub proof fn law_definition_lock_waits_or_is_refused(
    s: DefState,
    lock_kind: LockKind,
    txn: TxnModel,
    next: DefState,
    out: Seq<Posted>,
)
    requires
        s.handles(MessageModel::DefLockRequest { lock_kind, txn }, next, out),
    ensures
        same_definition(s, next),
        next.locks == s.locks,
        next.pending == s.pending,
        ({
            let older = exists|l: LockModel| #[trigger]
                s.locks.contains(l) && l.txn.id.time < txn.id.time;
            let busy = s.pending is Some || exists|l: LockModel| #[trigger]
                s.locks.contains(l) && l.lock_kind == LockKind::Write;
            if older && busy {
                &&& next.lock_queue == s.lock_queue
                &&& out == seq![Posted { to: s.manager, msg: MessageModel::DefLockAbort { txn } }]
            } else {
                &&& out.len() == 0
                &&& forall|l: LockModel| #[trigger]
                    next.lock_queue.contains(l) <==> s.lock_queue.contains(l) || (l.lock_kind
                        == lock_kind && l.txn == txn)
            }
        }),
{
}

/// A look at the queue grants a lock of the oldest transaction that waits: it moves from the
/// queue to the locks, and the manager is told so. Where none waits, nothing happens.
pub proof fn law_definition_grants_oldest(s: DefState, t: DefState, out: Seq<Posted>)
    requires
        s.ticks(t, out),
    ensures
        same_definition(s, t),
        t.pending == s.pending,
        (forall|l: LockModel| !(#[trigger] s.lock_queue.contains(l))) ==> t.locks == s.locks
            && t.lock_queue == s.lock_queue && out.len() == 0,
        (exists|l: LockModel| #[trigger] s.lock_queue.contains(l)) ==> exists|g: LockModel|
            {
                &&& #[trigger] s.lock_queue.contains(g)
                &&& forall|m: LockModel| #[trigger]
                    s.lock_queue.contains(m) ==> g.txn.id.time <= m.txn.id.time
                &&& forall|m: LockModel| #[trigger]
                    t.lock_queue.contains(m) <==> s.lock_queue.contains(m) && m != g
                &&& forall|m: LockModel| #[trigger]
                    t.locks.contains(m) <==> s.locks.contains(m) || m == g
                &&& out == seq![
                    Posted {
                        to: s.manager,
                        msg: MessageModel::VarLockGranted { txn: g.txn, from_name: s.name },
                    },
                ]
            },
{
    if forall|l: LockModel| !(#[trigger] s.lock_queue.contains(l)) {
        assert(s.lock_queue =~= Set::<LockModel>::empty());
    } else {
        let any = choose|l: LockModel| #[trigger] s.lock_queue.contains(l);
        assert(s.lock_queue != Set::<LockModel>::empty());
        let g = choose|l: LockModel| #[trigger]
            is_oldest(l, s.lock_queue) && t == s.with_granted(l) && out == seq![
                s.to_manager(MessageModel::VarLockGranted { txn: l.txn, from_name: s.name }),
            ];
        assert(s.lock_queue.contains(g));
    }
}

/// A user's read is answered to the manager with the definition's name and value, and with
/// all transactions that count as applied; nothing changes.
pub proof fn law_read_gives_definitions_value(
    s: DefState,
    txn: TxnModel,
    required: Set<TxnModel>,
    next: DefState,
    out: Seq<Posted>,
)
    requires
        s.handles(MessageModel::UsrReadDefRequest { txn, required }, next, out),
    ensures
        next == s,
        out.len() == 1,
        out[0].to == s.manager,
        out[0].msg matches MessageModel::UsrReadDefResult { txn: reader, name, result, result_pred }
            && reader == txn && name == s.name && result == s.value && (forall|p: TxnModel|
         #[trigger]
            result_pred.contains(p) <==> s.pred_txns.contains(p)),
{
}

/// A subscriber is remembered, and is told the definition's name and value, the transactions
/// that count as applied, and every variable that one of the inputs depends on.
pub proof fn law_definitions_subscriber_is_told(
    s: DefState,
    who: Seq<char>,
    subscriber: Seq<char>,
    at: Endpoint,
    next: DefState,
    out: Seq<Posted>,
)
    requires
        s.handles(
            MessageModel::Subscribe {
                subscribe_who: who,
                subscriber_name: subscriber,
                sender_to_subscriber: at,
            },
            next,
            out,
        ),
    ensures
        next.subscribers.contains_key(subscriber) && next.subscribers[subscriber] == at,
        forall|n: Seq<char>|
            n != subscriber ==> #[trigger] next.subscribers.get(n) == s.subscribers.get(n),
        same_definition(s, DefState { subscribers: s.subscribers, ..next }),
        next.locks == s.locks,
        next.lock_queue == s.lock_queue,
        next.pending == s.pending,
        out.len() == 1,
        out[0].to == at,
        out[0].msg matches MessageModel::SubscriptionGranted {
            name,
            value,
            provides,
            trans_dep_set,
        } && name == s.name && value == s.value && (forall|p: TxnModel| #[trigger]
            provides.contains(p) <==> s.pred_txns.contains(p)) && (forall|v: Seq<char>| #[trigger]
            trans_dep_set.contains(v) <==> some_input_depends(s, v)),
{
}

/// Some input of the definition depends on the variable.
pub open spec fn some_input_depends(s: DefState, var: Seq<char>) -> bool {
    exists|n: Seq<char>| #[trigger] s.depends.contains_key(n) && s.depends[n].contains(var)
}

/// The messages ask the manager, once each, for a subscription of the definition to each
/// name in `more`, and for the end of its subscription to each name in `less`, and nothing else.
pub open spec fn changes_subscriptions(
    s: DefState,
    more: Set<Seq<char>>,
    less: Set<Seq<char>>,
    out: Seq<Posted>,
) -> bool {
    &&& out.no_duplicates()
    &&& forall|n: Seq<char>| #[trigger]
        more.contains(n) ==> out.contains(
            Posted {
                to: s.manager,
                msg: MessageModel::Subscribe {
                    subscribe_who: n,
                    subscriber_name: s.name,
                    sender_to_subscriber: s.inbox,
                },
            },
        )
    &&& forall|n: Seq<char>| #[trigger]
        less.contains(n) ==> out.contains(
            Posted {
                to: s.manager,
                msg: MessageModel::DeSubscribe {
                    desubscribe_who: n,
                    desubscriber_name: s.name,
                },
            },
        )
    &&& forall|i: int|
        0 <= i < out.len() ==> (#[trigger] out[i]).to == s.manager && match out[i].msg {
            MessageModel::Subscribe { subscribe_who, subscriber_name, sender_to_subscriber } => {
                more.contains(subscribe_who) && subscriber_name == s.name && sender_to_subscriber == s.inbox
            },
            MessageModel::DeSubscribe { desubscribe_who, desubscriber_name } => {
                less.contains(desubscribe_who) && desubscriber_name == s.name
            },
            _ => false,
        }
}

proof fn lemma_changes_subscriptions(
    s: DefState,
    more: Set<Seq<char>>,
    less: Set<Seq<char>>,
    a: Seq<Posted>,
    b: Seq<Posted>,
)
    requires
        s.subscribes(more, a),
        s.desubscribes(less, b),
    ensures
        changes_subscriptions(s, more, less, a + b),
        changes_subscriptions(s, more, less, b + a),
{
    let p = choose|order: Seq<Seq<char>>| #[trigger]
        is_listing(order, more) && a == order.map_values(|n: Seq<char>| s.subscribe_to(n));
    let q = choose|order: Seq<Seq<char>>| #[trigger]
        is_listing(order, less) && b == order.map_values(|n: Seq<char>| s.desubscribe_from(n));
    assert forall|n: Seq<char>| #[trigger] more.contains(n) implies (a + b).contains(
        s.subscribe_to(n),
    ) && (b + a).contains(s.subscribe_to(n)) by {
        assert(p.to_set().contains(n));
        let i = choose|i: int| 0 <= i < p.len() && p[i] == n;
        assert(a[i] == s.subscribe_to(n));
        assert((a + b)[i] == a[i]);
        assert((b + a)[b.len() + i] == a[i]);
    }
    assert forall|n: Seq<char>| #[trigger] less.contains(n) implies (a + b).contains(
        s.desubscribe_from(n),
    ) && (b + a).contains(s.desubscribe_from(n)) by {
        assert(q.to_set().contains(n));
        let i = choose|i: int| 0 <= i < q.len() && q[i] == n;
        assert(b[i] == s.desubscribe_from(n));
        assert((b + a)[i] == b[i]);
        assert((a + b)[a.len() + i] == b[i]);
    }
    assert forall|i: int| 0 <= i < a.len() implies #[trigger] a[i] == s.subscribe_to(p[i])
        && more.contains(p[i]) by {
        assert(p.to_set().contains(p[i]));
    }
    assert forall|i: int| 0 <= i < b.len() implies #[trigger] b[i] == s.desubscribe_from(q[i])
        && less.contains(q[i]) by {
        assert(q.to_set().contains(q[i]));
    }
    assert(a.no_duplicates()) by {
        assert forall|i: int, j: int| 0 <= i < j < a.len() implies a[i] != a[j] by {
            assert(p[i] != p[j]);
        }
    }
    assert(b.no_duplicates()) by {
        assert forall|i: int, j: int| 0 <= i < j < b.len() implies b[i] != b[j] by {
            assert(q[i] != q[j]);
        }
    }
}

/// A developer's write makes the new code wait, for the answer of each name in it that is
/// no input yet; the manager is asked for a subscription to these, and for the end of the
/// subscription to each input that the new code does not name. One write lock of the
/// transaction is given up. The code in force, its inputs and the value stay.
pub proof fn law_new_code_waits_for_inputs(
    s: DefState,
    txn: TxnModel,
    write_expr: ExprModel,
    next: DefState,
    out: Seq<Posted>,
)
    requires
        s.handles(MessageModel::DevWriteDefRequest { txn, write_expr }, next, out),
    ensures
        same_definition(s, next),
        next.lock_queue == s.lock_queue,
        next.pending matches Some(p) && p.expr == write_expr && (forall|n: Seq<char>| #[trigger]
            p.inputs_data.contains_key(n) <==> occurs(write_expr, n) && !s.replica.contains_key(
                n,
            )) && (forall|n: Seq<char>| #[trigger]
            p.inputs_data.contains_key(n) ==> p.inputs_data[n] is None),
        exists|g: LockModel|
            {
                &&& #[trigger] s.locks.contains(g)
                &&& g.lock_kind == LockKind::Write
                &&& g.txn.id == txn.id
                &&& forall|l: LockModel| #[trigger]
                    next.locks.contains(l) <==> s.locks.contains(l) && l != g
            },
        changes_subscriptions(
            s,
            Set::new(|n: Seq<char>| occurs(write_expr, n) && !s.replica.contains_key(n)),
            Set::new(|n: Seq<char>| s.replica.contains_key(n) && !occurs(write_expr, n)),
            out,
        ),
{
    let added = names_in(write_expr).difference(s.replica.dom());
    let deleted = s.replica.dom().difference(names_in(write_expr));
    assert forall|n: Seq<char>| #[trigger] names_in(write_expr).contains(n) == occurs(
        write_expr,
        n,
    ) by {
        law_names_are_those_that_occur(write_expr, n);
    }
    let (first, rest) = choose|first: Seq<Posted>, rest: Seq<Posted>|
        s.subscribes(added, first) && s.desubscribes(deleted, rest) && out == #[trigger] (first
            + rest);
    lemma_changes_subscriptions(s, added, deleted, first, rest);
    let waits = DefState {
        pending: Some(
            crate::defworker::PendingModel { expr: write_expr, inputs_data: unknown(added) },
        ),
        ..s
    };
    let g = choose|l: LockModel| #[trigger]
        s.locks.contains(l) && l.lock_kind == LockKind::Write && l.txn.id == txn.id && next == (
        DefState { locks: s.locks.remove(l), ..waits });
    assert(s.locks.contains(g));
    assert(added =~= Set::new(
        |n: Seq<char>| occurs(write_expr, n) && !s.replica.contains_key(n),
    ));
    assert(deleted =~= Set::new(
        |n: Seq<char>| s.replica.contains_key(n) && !occurs(write_expr, n),
    ));
}

/// A developer's read is answered to the manager with the definition's name, and one read
/// lock of the transaction is given up; nothing else changes.
pub proof fn law_developer_reads(s: DefState, txn: TxnModel, next: DefState, out: Seq<Posted>)
    requires
        s.handles(MessageModel::DevReadDefRequest { txn }, next, out),
    ensures
        same_definition(s, next),
        next.lock_queue == s.lock_queue,
        next.pending == s.pending,
        out == seq![
            Posted {
                to: s.manager,
                msg: MessageModel::DevReadDefResult { name: s.name, txn },
            },
        ],
        exists|g: LockModel|
            {
                &&& #[trigger] s.locks.contains(g)
                &&& g.lock_kind == LockKind::Read
                &&& g.txn.id == txn.id
                &&& forall|l: LockModel| #[trigger]
                    next.locks.contains(l) <==> s.locks.contains(l) && l != g
            },
{
    let g = choose|l: LockModel| #[trigger]
        s.locks.contains(l) && l.lock_kind == LockKind::Read && l.txn.id == txn.id && next == (
        DefState { locks: s.locks.remove(l), ..s });
    assert(s.locks.contains(g));
}

/// Code that the manager puts in is in force at once, with all its names as inputs of which
/// nothing is known; the manager is asked for subscriptions to these, and for the end of
/// those to the names in the code that goes.
pub proof fn law_managers_code_is_in_force(
    s: DefState,
    msg: MessageModel,
    expr: ExprModel,
    next: DefState,
    out: Seq<Posted>,
)
    requires
        s.handles(msg, next, out),
        msg is DefWorkerUpdate,
        msg->DefWorkerUpdate_expr == expr,
    ensures
        next.expr == expr,
        forall|n: Seq<char>| #[trigger] next.replica.contains_key(n) <==> occurs(expr, n),
        forall|n: Seq<char>| #[trigger]
            next.replica.contains_key(n) ==> next.replica[n] is None,
        same_definition(s, DefState { expr: s.expr, replica: s.replica, ..next }),
        next.locks == s.locks,
        next.lock_queue == s.lock_queue,
        next.pending == s.pending,
        changes_subscriptions(
            s,
            Set::new(|n: Seq<char>| occurs(expr, n)),
            Set::new(|n: Seq<char>| occurs(s.expr, n)),
            out,
        ),
{
    assert forall|n: Seq<char>| #[trigger] names_in(expr).contains(n) == occurs(expr, n) by {
        law_names_are_those_that_occur(expr, n);
    }
    assert forall|n: Seq<char>| #[trigger] names_in(s.expr).contains(n) == occurs(s.expr, n) by {
        law_names_are_those_that_occur(s.expr, n);
    }
    let (first, rest) = choose|first: Seq<Posted>, rest: Seq<Posted>|
        s.desubscribes(names_in(s.expr), first) && s.subscribes(names_in(expr), rest) && out
            == #[trigger] (first + rest);
    lemma_changes_subscriptions(s, names_in(expr), names_in(s.expr), rest, first);
    assert(names_in(expr) =~= Set::new(|n: Seq<char>| occurs(expr, n)));
    assert(names_in(s.expr) =~= Set::new(|n: Seq<char>| occurs(s.expr, n)));
}

/// The answer of an input, while no code waits, changes what is known of this input and of
/// no other: its value, what it depends on, and the transactions that it includes.
pub proof fn law_answer_concerns_its_input(
    s: DefState,
    name: Seq<char>,
    data: InputModel,
    next: DefState,
    out: Seq<Posted>,
)
    requires
        s.pending is None,
        s.handles(
            MessageModel::SubscriptionGranted {
                name,
                value: data.0,
                provides: data.1,
                trans_dep_set: data.2,
            },
            next,
            out,
        ),
    ensures
        out.len() == 0,
        !s.replica.contains_key(name) ==> next == s,
        s.replica.contains_key(name) ==> {
            &&& next.replica.contains_key(name) && next.replica[name] == data.0
            &&& next.depends.contains_key(name) && next.depends[name] == data.2
            &&& forall|n: Seq<char>|
                n != name ==> #[trigger] next.replica.get(n) == s.replica.get(n)
                    && next.depends.get(n) == s.depends.get(n)
            &&& forall|t: TxnModel| #[trigger]
                next.pred_txns.contains(t) <==> s.pred_txns.contains(t) || data.1.contains(t)
            &&& next.value == value_in(s.expr, next.replica)
            &&& next.expr == s.expr
            &&& next.waiting == s.waiting
            &&& next.locks == s.locks
            &&& next.lock_queue == s.lock_queue
            &&& next.subscribers == s.subscribers
        },
{
    if s.replica.contains_key(name) {
        let replica = s.replica.insert(name, data.0);
        let part = choose|part: Seq<TxnModel>| #[trigger]
            is_listing(part, data.1) && next == (DefState {
                replica,
                depends: s.depends.insert(name, data.2),
                value: value_in(s.expr, replica),
                pred_txns: s.pred_txns + part,
                ..s
            });
        assert forall|t: TxnModel| #[trigger] next.pred_txns.contains(t) <==> s.pred_txns.contains(
            t,
        ) || data.1.contains(t) by {
            assert(part.to_set().contains(t) <==> part.contains(t));
            if s.pred_txns.contains(t) {
                let i = choose|i: int| 0 <= i < s.pred_txns.len() && s.pred_txns[i] == t;
                assert(next.pred_txns[i] == t);
            }
            if part.contains(t) {
                let i = choose|i: int| 0 <= i < part.len() && part[i] == t;
                assert(next.pred_txns[s.pred_txns.len() + i] == t);
            }
            if next.pred_txns.contains(t) {
                let i = choose|i: int| 0 <= i < next.pred_txns.len() && next.pred_txns[i] == t;
                if i < s.pred_txns.len() {
                    assert(s.pred_txns[i] == t);
                } else {
                    assert(part[i - s.pred_txns.len()] == t);
                }
            }
        }
    }
}

/// While code waits, the answer of an input is remembered with the code, and nothing of the
/// definition changes until the last new input has answered.
pub proof fn law_answers_wait_with_the_code(
    s: DefState,
    name: Seq<char>,
    data: InputModel,
    next: DefState,
    out: Seq<Posted>,
    open: Seq<char>,
)
    requires
        s.pending is Some,
        (s.pending->0).inputs_data.contains_key(open),
        (s.pending->0).inputs_data[open] is None,
        open != name,
        s.handles(
            MessageModel::SubscriptionGranted {
                name,
                value: data.0,
                provides: data.1,
                trans_dep_set: data.2,
            },
            next,
            out,
        ),
    ensures
        out.len() == 0,
        same_definition(s, next),
        next.locks == s.locks,
        next.lock_queue == s.lock_queue,
        next.pending matches Some(p) && p.expr == (s.pending->0).expr
            && p.inputs_data.contains_key(name) && p.inputs_data[name] == Some(data) && (forall|
            n: Seq<char>,
        |
            n != name ==> #[trigger] p.inputs_data.get(n) == (s.pending->0).inputs_data.get(n)),
{
    let told = s.with_input(name, data);
    assert((told.pending->0).inputs_data.contains_key(open));
    assert(!told.ready());
}

/// Once the last new input has answered, each input that answered has the value and the
/// dependencies that it told, and every other input keeps its own.
pub proof fn law_code_takes_over_answers(
    s: DefState,
    name: Seq<char>,
    data: InputModel,
    next: DefState,
    out: Seq<Posted>,
    n: Seq<char>,
)
    requires
        s.pending is Some,
        forall|k: Seq<char>| #[trigger]
            (s.pending->0).inputs_data.contains_key(k) && k != name
                ==> (s.pending->0).inputs_data[k] is Some,
        s.handles(
            MessageModel::SubscriptionGranted {
                name,
                value: data.0,
                provides: data.1,
                trans_dep_set: data.2,
            },
            next,
            out,
        ),
    ensures
        next.pending is None,
        next.expr == (s.pending->0).expr,
        next.value == value_in(next.expr, next.replica),
        ({
            let answered = (s.pending->0).inputs_data.contains_key(n);
            let told = (s.pending->0).inputs_data[n]->0;
            &&& n == name ==> next.replica.get(n) == Some(data.0) && next.depends.get(n) == Some(
                data.2,
            )
            &&& n != name && answered ==> next.replica.get(n) == Some(told.0) && next.depends.get(
                n,
            ) == Some(told.2)
            &&& n != name && !answered ==> next.replica.get(n) == s.replica.get(n)
                && next.depends.get(n) == s.depends.get(n)
        }),
        next.locks == s.locks,
        next.lock_queue == s.lock_queue,
        next.waiting == s.waiting,
        next.subscribers == s.subscribers,
{
    let told = s.with_input(name, data);
    let q = told.pending->0;
    assert forall|k: Seq<char>| #[trigger] q.inputs_data.contains_key(
        k,
    ) implies q.inputs_data[k] is Some by {
        if k != name {
            assert((s.pending->0).inputs_data.contains_key(k));
        }
    }
    assert(told.ready());
    assert(q.inputs_data.contains_key(name));
}

/// A definition's worker takes every message about locks, subscriptions, new code and users'
/// reads; a developer's read or write exactly from a transaction that holds the lock for it;
/// and a change while there is a number for it.
pub proof fn law_definition_takes_messages(s: DefState, msg: MessageModel)
    ensures
        msg is DefWorkerUpdate || msg is DefLockRequest || msg is DefLockRelease
            || msg is UsrReadDefRequest || msg is Subscribe || msg is SubscriptionGranted
            || msg is DeSubscriptionGranted ==> s.accepts(msg),
        msg is Propagate && s.counter < i32::MAX ==> s.accepts(msg),
        msg matches MessageModel::DevReadDefRequest { txn } ==> (s.accepts(msg) <==> exists|
            l: LockModel,
        | #[trigger]
            s.locks.contains(l) && l.lock_kind == LockKind::Read && l.txn.id == txn.id),
        msg matches MessageModel::DevWriteDefRequest { txn, .. } ==> (s.accepts(msg) <==> exists|
            l: LockModel,
        | #[trigger]
            s.locks.contains(l) && l.lock_kind == LockKind::Write && l.txn.id == txn.id),
{
}

/// A release takes the transaction's locks and changes nothing else; that an input is told
/// of no longer changes nothing at all. Neither is answered.
pub proof fn law_definition_keeps_the_rest(
    s: DefState,
    msg: MessageModel,
    next: DefState,
    out: Seq<Posted>,
)
    requires
        s.handles(msg, next, out),
        msg is DefLockRelease || msg is DeSubscriptionGranted,
    ensures
        out.len() == 0,
        same_definition(s, next),
        next.lock_queue == s.lock_queue,
        next.pending == s.pending,
        msg is DeSubscriptionGranted ==> next == s,
{
}

} // verus!
