//! What each message does to a variable's worker, and what the worker answers, in terms of
//! single locks, transactions and values.

use vstd::prelude::*;

#[allow(unused_imports)]
use crate::expr::ValModel;
#[allow(unused_imports)]
use crate::lock::{LockKind, LockModel};
#[allow(unused_imports)]
use crate::message::{Endpoint, MessageModel, Posted};
#[allow(unused_imports)]
use crate::transaction::{TxnId, TxnModel};
#[allow(unused_imports)]
use crate::varworker::{round, rounds, VarState};

verus! {

/// The two states differ in nothing but locks and values: the name, the manager, the
/// subscribers and the last writer are the same.
pub open spec fn same_place(a: VarState, b: VarState) -> bool {
    &&& a.name == b.name
    &&& a.manager == b.manager
    &&& a.subscribers == b.subscribers
    &&& a.latest_write_txn == b.latest_write_txn
    &&& a.next_pred_set == b.next_pred_set
}

/// The two states differ in nothing but locks.
pub open spec fn same_values(a: VarState, b: VarState) -> bool {
    &&& same_place(a, b)
    &&& a.value == b.value
    &&& a.next_value == b.next_value
    &&& a.pred_txns == b.pred_txns
}

/// Somebody holds an upgrade lock or waits for one, or an older transaction holds a write
/// lock.
pub open spec fn hindered(s: VarState, txn: TxnModel) -> bool {
    ||| exists|l: LockModel| #[trigger]
        s.locks.contains(l) && l.lock_kind == LockKind::Upgrade
    ||| exists|l: LockModel| #[trigger]
        s.lock_queue.contains(l) && l.lock_kind == LockKind::Upgrade
    ||| exists|l: LockModel| #[trigger]
        s.locks.contains(l) && l.lock_kind == LockKind::Write && l.txn.id.time < txn.id.time
}

/// A request for a read or write lock is refused, by a single abort and with no change,
/// exactly where it is hindered; elsewhere the lock that is asked for waits, and nothing is
/// answered yet.
pub proof fn law_request_waits_or_is_refused(
    s: VarState,
    kind: LockKind,
    txn: TxnModel,
    out: Seq<Posted>,
)
    requires
        kind != LockKind::Upgrade,
        s.answers(MessageModel::VarLockRequest { lock_kind: kind, txn }, out),
    ensures
        ({
            let t = s.handled(MessageModel::VarLockRequest { lock_kind: kind, txn });
            &&& same_values(s, t)
            &&& t.locks == s.locks
            &&& hindered(s, txn) ==> t.lock_queue == s.lock_queue && out == seq![
                Posted { to: s.manager, msg: MessageModel::VarLockAbort { txn } },
            ]
            &&& !hindered(s, txn) ==> out.len() == 0 && forall|l: LockModel| #[trigger]
                t.lock_queue.contains(l) <==> s.lock_queue.contains(l) || (l.lock_kind == kind
                    && l.txn == txn)
        }),
{
}

/// Where no lock waits, a request that is not hindered is granted in the same round: the
/// manager is told so, the lock that was asked for is held from then on, and every other
/// lock is held as before.
pub proof fn law_free_request_is_granted(
    s: VarState,
    kind: LockKind,
    txn: TxnModel,
    t: VarState,
    out: Seq<Posted>,
)
    requires
        kind != LockKind::Upgrade,
        forall|l: LockModel| !(#[trigger] s.lock_queue.contains(l)),
        !hindered(s, txn),
        s.runs(MessageModel::VarLockRequest { lock_kind: kind, txn }, t, out),
    ensures
        out == seq![
            Posted {
                to: s.manager,
                msg: MessageModel::VarLockGranted { txn, from_name: s.name },
            },
        ],
        forall|l: LockModel| #[trigger]
            t.locks.contains(l) <==> s.locks.contains(l) || (l.lock_kind == kind && l.txn == txn),
        forall|l: LockModel| !(#[trigger] t.lock_queue.contains(l)),
        same_values(s, t),
{
    let msg = MessageModel::VarLockRequest { lock_kind: kind, txn };
    let (first, rest) = choose|first: Seq<Posted>, rest: Seq<Posted>|
        s.answers(msg, first) && #[trigger] s.handled(msg).ticks(t, rest) && out == #[trigger] (
        first + rest);
    law_request_waits_or_is_refused(s, kind, txn, first);
    law_tick_grants_oldest(s.handled(msg), t, rest);
    let asked = LockModel { lock_kind: kind, txn };
    assert(s.handled(msg).lock_queue.contains(asked));
    assert(out =~= rest);
}

/// A look at the queue grants a lock of the oldest transaction that waits: it moves from
/// the queue to the locks, and the manager is told so. Where none waits, nothing happens.
pub proof fn law_tick_grants_oldest(s: VarState, t: VarState, out: Seq<Posted>)
    requires
        s.ticks(t, out),
    ensures
        same_values(s, t),
        (forall|l: LockModel| !(#[trigger] s.lock_queue.contains(l))) ==> t.locks == s.locks
            && t.lock_queue == s.lock_queue && out.len() == 0,
        (exists|l: LockModel| #[trigger] s.lock_queue.contains(l)) ==> exists|g: LockModel|
            {
                &&& #[trigger] s.lock_queue.contains(g)
                &&& forall|m: LockModel| #[trigger]
                    s.lock_queue.contains(m) ==> g.txn.id.time <= m.txn.id.time
                &&& forall|m: LockModel| #[trigger]
                    t.lock_queue.contains(m) <==> s.lock_queue.contains(m) && m != g
                &&& forall|m: LockModel| #[trigger]
                    t.locks.contains(m) <==> s.locks.contains(m) || m == g
                &&& out == seq![
                    Posted {
                        to: s.manager,
                        msg: MessageModel::VarLockGranted { txn: g.txn, from_name: s.name },
                    },
                ]
            },
{
    if forall|l: LockModel| !(#[trigger] s.lock_queue.contains(l)) {
        assert(s.lock_queue =~= Set::<LockModel>::empty());
    } else {
        let any = choose|l: LockModel| #[trigger] s.lock_queue.contains(l);
        assert(s.lock_queue != Set::<LockModel>::empty());
        let g = choose|l: LockModel| #[trigger]
            crate::lock::is_oldest(l, s.lock_queue) && t == s.with_granted(l) && out == seq![
                s.grant_notice(l.txn),
            ];
        assert(s.lock_queue.contains(g));
    }
}

/// The message tells the manager that a lock which was held, and was no upgrade, is lost.
pub open spec fn tells_of_dropped(s: VarState, p: Posted) -> bool {
    exists|l: LockModel| #[trigger]
        s.locks.contains(l) && l.lock_kind != LockKind::Upgrade && p == (Posted {
            to: s.manager,
            msg: MessageModel::VarLockAbort { txn: l.txn },
        })
}

/// A request for an upgrade drops every other lock, held or waited for, and tells the
/// manager of each one that was held; then it grants the upgrade. What was not committed is
/// gone, and the committed value stays.
pub proof fn law_upgrade_takes_the_variable(s: VarState, txn: TxnModel, out: Seq<Posted>)
    requires
        s.answers(MessageModel::VarLockRequest { lock_kind: LockKind::Upgrade, txn }, out),
    ensures
        ({
            let t = s.handled(MessageModel::VarLockRequest { lock_kind: LockKind::Upgrade, txn });
            &&& same_place(s, t)
            &&& t.value == s.value
            &&& t.next_value == s.value
            &&& t.pred_txns == s.pred_txns
            &&& forall|l: LockModel| #[trigger]
                t.locks.contains(l) <==> l.lock_kind == LockKind::Upgrade && (s.locks.contains(l)
                    || l.txn == txn)
            &&& forall|l: LockModel| #[trigger]
                t.lock_queue.contains(l) <==> l.lock_kind == LockKind::Upgrade
                    && s.lock_queue.contains(l)
        }),
        out.len() > 0,
        out.last() == (Posted {
            to: s.manager,
            msg: MessageModel::VarLockGranted { txn, from_name: s.name },
        }),
        forall|l: LockModel| #[trigger]
            s.locks.contains(l) && l.lock_kind != LockKind::Upgrade ==> out.drop_last().contains(
                Posted { to: s.manager, msg: MessageModel::VarLockAbort { txn: l.txn } },
            ),
        forall|i: int| 0 <= i < out.len() - 1 ==> tells_of_dropped(s, #[trigger] out[i]),
{
    let order = choose|order: Seq<LockModel>| #[trigger]
        crate::collections::is_listing(order, s.conflicting()) && out == order.map_values(
            |l: LockModel| s.abort_notice(l),
        ).push(s.grant_notice(txn));
    let aborts = order.map_values(|l: LockModel| s.abort_notice(l));
    assert(out.drop_last() =~= aborts);
    assert forall|l: LockModel| #[trigger]
        s.locks.contains(l) && l.lock_kind != LockKind::Upgrade implies out.drop_last().contains(
        Posted { to: s.manager, msg: MessageModel::VarLockAbort { txn: l.txn } },
    ) by {
        assert(s.conflicting().contains(l));
        assert(order.to_set().contains(l));
        let k = choose|k: int| 0 <= k < order.len() && order[k] == l;
        assert(aborts[k] == s.abort_notice(l));
    }
    assert forall|i: int| 0 <= i < out.len() - 1 implies tells_of_dropped(s, #[trigger] out[i]) by {
        let l = order[i];
        assert(order.to_set().contains(l));
        assert(s.conflicting().contains(l));
        assert(s.locks.contains(l));
        assert(out[i] == aborts[i]);
    }
}

/// Somebody holds a write lock in the name of the transaction `id`.
pub open spec fn writes_here(s: VarState, id: TxnId) -> bool {
    exists|l: LockModel| #[trigger]
        s.locks.contains(l) && l.lock_kind == LockKind::Write && l.txn.id == id
}

/// A release ends the transaction here: its locks are gone and no others; what it required
/// counts as applied, with all that did before; what a writer wrote becomes the committed
/// value, and nobody else's release changes that. Nothing is answered.
pub proof fn law_release_ends_transaction(
    s: VarState,
    txn: TxnModel,
    required: Set<TxnModel>,
    out: Seq<Posted>,
)
    requires
        s.answers(MessageModel::VarLockRelease { txn, required }, out),
    ensures
        ({
            let t = s.handled(MessageModel::VarLockRelease { txn, required });
            &&& same_place(s, t)
            &&& t.next_value == s.next_value
            &&& writes_here(s, txn.id) ==> t.value == s.next_value
            &&& !writes_here(s, txn.id) ==> t.value == s.value
            &&& t.lock_queue == s.lock_queue
            &&& forall|l: LockModel| #[trigger]
                t.locks.contains(l) <==> s.locks.contains(l) && l.txn.id != txn.id
            &&& forall|p: TxnModel| #[trigger]
                t.pred_txns.contains(p) <==> s.pred_txns.contains(p) || required.contains(p)
        }),
        out.len() == 0,
{
}

/// An abort ends the transaction here: its locks are gone and no others, and what a writer
/// wrote is gone. The committed value stays, and nothing is answered.
pub proof fn law_abort_ends_transaction(s: VarState, txn: TxnModel, out: Seq<Posted>)
    requires
        s.answers(MessageModel::VarLockAbort { txn }, out),
    ensures
        ({
            let t = s.handled(MessageModel::VarLockAbort { txn });
            &&& same_place(s, t)
            &&& t.value == s.value
            &&& writes_here(s, txn.id) ==> t.next_value == s.value
            &&& !writes_here(s, txn.id) ==> t.next_value == s.next_value
            &&& t.pred_txns == s.pred_txns
            &&& t.lock_queue == s.lock_queue
            &&& forall|l: LockModel| #[trigger]
                t.locks.contains(l) <==> s.locks.contains(l) && l.txn.id != txn.id
        }),
        out.len() == 0,
{
}

/// A write changes nothing but the value that waits for the release, and is not answered.
pub proof fn law_write_waits(s: VarState, txn: TxnModel, v: ValModel, out: Seq<Posted>)
    requires
        s.answers(MessageModel::UsrWriteVarRequest { txn, write_val: v }, out),
    ensures
        ({
            let t = s.handled(MessageModel::UsrWriteVarRequest { txn, write_val: v });
            &&& same_place(s, t)
            &&& t.value == s.value
            &&& t.next_value == Some(v)
            &&& t.pred_txns == s.pred_txns
            &&& t.locks == s.locks
            &&& t.lock_queue == s.lock_queue
        }),
        out.len() == 0,
{
}

/// A read is answered to the manager: by an abort while an upgrade lock is held, and else
/// by the committed value, under the variable's name, with all transactions applied so far
/// and the reader among them. The reader's read locks are given up, and no others; no value
/// changes.
pub proof fn law_read_gives_committed_value(s: VarState, txn: TxnModel, out: Seq<Posted>)
    requires
        s.answers(MessageModel::UsrReadVarRequest { txn }, out),
    ensures
        out.len() == 1,
        out[0].to == s.manager,
        ({
            let t = s.handled(MessageModel::UsrReadVarRequest { txn });
            let upgraded = exists|l: LockModel| #[trigger]
                s.locks.contains(l) && l.lock_kind == LockKind::Upgrade;
            &&& same_place(s, t)
            &&& t.value == s.value
            &&& t.next_value == s.next_value
            &&& t.lock_queue == s.lock_queue
            &&& upgraded ==> t == s && out[0].msg == (MessageModel::VarLockAbort { txn })
            &&& !upgraded ==> {
                &&& out[0].msg matches MessageModel::UsrReadVarResult {
                    var_name,
                    result,
                    result_preds,
                    txn: reader,
                }
                &&& var_name == s.name
                &&& result == s.value
                &&& reader == txn
                &&& forall|p: TxnModel| #[trigger]
                    result_preds.contains(p) <==> s.pred_txns.contains(p) || p == txn
                &&& t.pred_txns == result_preds
                &&& forall|l: LockModel| #[trigger]
                    t.locks.contains(l) <==> s.locks.contains(l) && !(l.lock_kind
                        == LockKind::Read && l.txn.id == txn.id)
            }
        }),
{
}

/// A subscriber is remembered under its name, and is told the variable's name, its committed
/// value, its last writer, and that the variable depends on nothing but itself.
pub proof fn law_subscriber_is_told(
    s: VarState,
    who: Seq<char>,
    subscriber: Seq<char>,
    at: Endpoint,
    out: Seq<Posted>,
)
    requires
        s.answers(
            MessageModel::Subscribe {
                subscribe_who: who,
                subscriber_name: subscriber,
                sender_to_subscriber: at,
            },
            out,
        ),
    ensures
        ({
            let t = s.handled(
                MessageModel::Subscribe {
                    subscribe_who: who,
                    subscriber_name: subscriber,
                    sender_to_subscriber: at,
                },
            );
            &&& t.subscribers.contains_key(subscriber) && t.subscribers[subscriber] == at
            &&& forall|n: Seq<char>|
                n != subscriber ==> #[trigger] t.subscribers.get(n) == s.subscribers.get(n)
            &&& same_values(s, VarState { subscribers: s.subscribers, ..t })
            &&& t.locks == s.locks
            &&& t.lock_queue == s.lock_queue
        }),
        out.len() == 1,
        out[0].to == at,
        out[0].msg matches MessageModel::SubscriptionGranted {
            name,
            value,
            provides,
            trans_dep_set,
        } && name == s.name && value == s.value && (forall|p: TxnModel| #[trigger]
            provides.contains(p) <==> s.latest_write_txn == Some(p)) && (forall|n: Seq<char>|
         #[trigger]
            trans_dep_set.contains(n) <==> n == s.name),
{
}

/// The message is no release of a transaction that holds a write lock.
pub open spec fn commits_nothing(s: VarState, msg: MessageModel) -> bool {
    msg matches MessageModel::VarLockRelease { txn, .. } ==> !writes_here(s, txn.id)
}

proof fn lemma_value_stays(w: Seq<VarState>, msgs: Seq<MessageModel>, n: int)
    requires
        rounds(w, msgs),
        0 <= n <= msgs.len(),
        forall|i: int| 0 <= i < n ==> commits_nothing(w[i], #[trigger] msgs[i]),
    ensures
        w[n].value == w[0].value,
    decreases n,
{
    if n > 0 {
        let i = n - 1;
        lemma_value_stays(w, msgs, i);
        assert(round(w[i], msgs[i], w[i + 1]));
        crate::varworker::lemma_round_grants(w[i], msgs[i], w[n]);
        assert(commits_nothing(w[i], msgs[i]));
    }
}

/// Nothing that is not committed is read: whatever transactions lock, write and abort, until
/// one that holds a write lock releases it, a read that is answered with a value is answered
/// with the value that the variable had before.
pub proof fn law_read_sees_no_uncommitted_value(
    w: Seq<VarState>,
    msgs: Seq<MessageModel>,
    reader: TxnModel,
    out: Seq<Posted>,
    k: int,
)
    requires
        rounds(w, msgs),
        forall|i: int| 0 <= i < msgs.len() ==> commits_nothing(w[i], #[trigger] msgs[i]),
        w.last().answers(MessageModel::UsrReadVarRequest { txn: reader }, out),
        0 <= k < out.len(),
        out[k].msg is UsrReadVarResult,
    ensures
        out[k].msg->UsrReadVarResult_result == w[0].value,
{
    lemma_value_stays(w, msgs, msgs.len() as int);
    law_read_gives_committed_value(w.last(), reader, out);
}

/// After the writer's abort a read gives the value that the variable had before the write;
/// after its release, the value written.
pub proof fn law_end_of_writer_decides(
    s: VarState,
    writer: TxnModel,
    v: ValModel,
    required: Set<TxnModel>,
    reader: TxnModel,
    out: Seq<Posted>,
    released: bool,
)
    requires
        writes_here(s, writer.id),
        forall|l: LockModel| #[trigger] s.locks.contains(l) ==> l.lock_kind != LockKind::Upgrade,
        s.handled(MessageModel::UsrWriteVarRequest { txn: writer, write_val: v }).handled(
            if released {
                MessageModel::VarLockRelease { txn: writer, required }
            } else {
                MessageModel::VarLockAbort { txn: writer }
            },
        ).answers(MessageModel::UsrReadVarRequest { txn: reader }, out),
    ensures
        out.len() == 1,
        out[0].msg is UsrReadVarResult,
        out[0].msg->UsrReadVarResult_result == if released {
            Some(v)
        } else {
            s.value
        },
{
    let a = s.handled(MessageModel::UsrWriteVarRequest { txn: writer, write_val: v });
    let end = if released {
        MessageModel::VarLockRelease { txn: writer, required }
    } else {
        MessageModel::VarLockAbort { txn: writer }
    };
    let b = a.handled(end);
    assert(a.locks == s.locks);
    assert(writes_here(a, writer.id));
    assert forall|l: LockModel| #[trigger] b.locks.contains(l) implies l.lock_kind
        != LockKind::Upgrade by {
        assert(s.locks.contains(l));
    }
    law_read_gives_committed_value(b, reader, out);
}

/// A variable's worker takes every message about locks, subscriptions and reads, and a write
/// exactly from a transaction that holds a write lock.
pub proof fn law_variable_takes_messages(s: VarState, msg: MessageModel)
    ensures
        msg is VarLockRequest || msg is VarLockRelease || msg is VarLockAbort || msg is Subscribe
            || msg is UsrReadVarRequest ==> s.accepts(msg),
        msg matches MessageModel::UsrWriteVarRequest { txn, .. } ==> (s.accepts(msg)
            <==> writes_here(s, txn.id)),
{
}

/// A new worker has no value, no lock, no subscriber and no transaction applied.
pub proof fn law_new_variable_is_empty(name: Seq<char>, manager: Endpoint)
    ensures
        ({
            let s = VarState::initial(name, manager);
            &&& s.name == name
            &&& s.manager == manager
            &&& s.value is None
            &&& s.next_value is None
            &&& s.latest_write_txn is None
            &&& forall|l: LockModel| !(#[trigger] s.locks.contains(l))
            &&& forall|l: LockModel| !(#[trigger] s.lock_queue.contains(l))
            &&& forall|n: Seq<char>| !(#[trigger] s.subscribers.contains_key(n))
            &&& forall|t: TxnModel| !(#[trigger] s.pred_txns.contains(t))
        }),
{
}

/// In one round, what the message itself is answered stands before the grant of a lock that
/// waited.
pub proof fn law_answer_precedes_grant(
    s: VarState,
    reader: TxnModel,
    t: VarState,
    out: Seq<Posted>,
)
    requires
        s.runs(MessageModel::UsrReadVarRequest { txn: reader }, t, out),
    ensures
        out.len() > 0,
        out[0].msg is UsrReadVarResult || out[0].msg == (MessageModel::VarLockAbort { txn: reader }),
        out.len() <= 2,
        out.len() == 2 <==> exists|l: LockModel| #[trigger] s.lock_queue.contains(l),
        out.len() == 2 ==> out[1].msg is VarLockGranted,
{
    let msg = MessageModel::UsrReadVarRequest { txn: reader };
    let (first, rest) = choose|first: Seq<Posted>, rest: Seq<Posted>|
        s.answers(msg, first) && #[trigger] s.handled(msg).ticks(t, rest) && out == #[trigger] (
        first + rest);
    law_read_gives_committed_value(s, reader, first);
    law_tick_grants_oldest(s.handled(msg), t, rest);
    assert(out[0] == first[0]);
    if exists|l: LockModel| #[trigger] s.lock_queue.contains(l) {
        let l = choose|l: LockModel| #[trigger] s.lock_queue.contains(l);
        assert(s.handled(msg).lock_queue.contains(l));
        assert(out[1] == rest[0]);
    } else {
        assert forall|l: LockModel| !(#[trigger] s.handled(msg).lock_queue.contains(l)) by {
            assert(!s.lock_queue.contains(l));
        }
    }
}

} // verus!
