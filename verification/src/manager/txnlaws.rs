//! What a transaction reads, computes and sends, in terms of the answers that it gets.

use vstd::prelude::*;

#[allow(unused_imports)]
use crate::collections::is_listing;
#[allow(unused_imports)]
use crate::expr::{names_in, value_in, ValModel};
#[allow(unused_imports)]
use crate::exprlaws::{law_names_are_those_that_occur, law_value_depends_on_names, occurs, Names};
#[allow(unused_imports)]
use crate::lock::{LockKind, LockModel, LockWorkerModel};
#[allow(unused_imports)]
use crate::manager::commit::TxnCourse;
#[allow(unused_imports)]
use crate::manager::txn::{
    adds_latest, is_latest, law_transaction_touches_own_locks, law_written_when_granted,
    names_read, names_written, TxnPhase, TxnRunModel,
};
#[allow(unused_imports)]
use crate::manager::ManagerState;
#[allow(unused_imports)]
use crate::message::{MessageModel, Posted, WorkerKind};
#[allow(unused_imports)]
use crate::transaction::{TxnId, TxnModel};

verus! {

/// The message answers a read of the variable `name` with the value `v`.
pub open spec fn answers_read(m: Option<MessageModel>, name: Seq<char>, v: ValModel) -> bool {
    m matches Some(MessageModel::UsrReadVarResult { var_name, result, .. }) && var_name == name
        && result == Some(v)
}

/// The message takes back the value at hand for `name`: it refuses a lock, or answers a
/// read of `name` anew.
pub open spec fn takes_back(m: Option<MessageModel>, name: Seq<char>) -> bool {
    ||| m matches Some(MessageModel::VarLockAbort { .. })
    ||| m matches Some(MessageModel::UsrReadVarResult { var_name, .. }) && var_name == name
}

/// After the answer to a read, the value at hand under the variable's name is the one that
/// was answered, and the values of all other names are as they were.
pub proof fn law_answer_is_at_hand(
    s: ManagerState,
    run: TxnRunModel,
    reply: Option<MessageModel>,
    after: ManagerState,
    run_after: TxnRunModel,
    out: Seq<Posted>,
    name: Seq<char>,
    v: ValModel,
)
    requires
        run.wf(),
        s.can_step(run, reply),
        s.steps(run, reply, after, run_after, out),
        answers_read(reply, name, v),
    ensures
        run_after.values.contains_key(name),
        run_after.values[name] == Some(v),
        forall|n: Seq<char>|
            n != name ==> #[trigger] run_after.values.get(n) == run.values.get(n),
{
}

/// Of the transactions that come with the answer to a read, a latest one is required from
/// then on; whatever was required before is so still, and nothing else is added.
pub proof fn law_answer_requires_latest(
    s: ManagerState,
    run: TxnRunModel,
    preds: Set<TxnModel>,
    reply: Option<MessageModel>,
    after: ManagerState,
    run_after: TxnRunModel,
    out: Seq<Posted>,
)
    requires
        s.can_step(run, reply),
        s.steps(run, reply, after, run_after, out),
        reply matches Some(MessageModel::UsrReadVarResult { result_preds, .. }) && result_preds
            == preds,
    ensures
        forall|p: TxnModel| #[trigger]
            run.required.contains(p) ==> run_after.required.contains(p),
        forall|p: TxnModel| #[trigger]
            run_after.required.contains(p) ==> run.required.contains(p) || preds.contains(p),
        (exists|q: TxnModel| #[trigger] preds.contains(q)) ==> exists|p: TxnModel|
            {
                &&& #[trigger] preds.contains(p)
                &&& run_after.required.contains(p)
                &&& forall|q: TxnModel| #[trigger]
                    preds.contains(q) ==> q.id.time <= p.id.time
                &&& forall|r: TxnModel| #[trigger]
                    run_after.required.contains(r) <==> run.required.contains(r) || r == p
            },
{
    let i = run.phase->ReadValue_0;
    let result = reply->0->UsrReadVarResult_result;
    let required = choose|required: Set<TxnModel>|
        {
            &&& #[trigger] adds_latest(run.required, preds, required)
            &&& s.reads_on(run.with_value(i as int, result->0, required), i + 1, run_after, out)
        };
    assert(run_after.required == required);
    if exists|q: TxnModel| #[trigger] preds.contains(q) {
        let q = choose|q: TxnModel| #[trigger] preds.contains(q);
        assert(preds != Set::<TxnModel>::empty());
        let p = choose|p: TxnModel| #[trigger]
            is_latest(p, preds) && required == run.required.insert(p);
        assert(preds.contains(p));
    }
}

/// A lock that is granted, or a closed channel, changes no value at hand and nothing that is
/// required; a lock that is refused leaves neither.
pub proof fn law_only_answers_bring_values(
    s: ManagerState,
    run: TxnRunModel,
    reply: Option<MessageModel>,
    after: ManagerState,
    run_after: TxnRunModel,
    out: Seq<Posted>,
)
    requires
        s.can_step(run, reply),
        s.steps(run, reply, after, run_after, out),
    ensures
        (reply matches Some(m) ==> m is VarLockGranted) ==> run_after.values == run.values
            && run_after.required == run.required,
        (reply matches Some(m) && m is VarLockAbort) ==> (forall|n: Seq<char>|
            !(#[trigger] run_after.values.contains_key(n))) && (forall|p: TxnModel|
            !(#[trigger] run_after.required.contains(p))),
{
}

/// What was answered stays at hand: from the answer on, until a lock is refused, the value
/// under the variable's name is the one that was answered.
pub proof fn law_answers_stay_at_hand(
    c: TxnCourse,
    name: Seq<char>,
    v: ValModel,
    at: int,
    n: int,
)
    requires
        c.wf(),
        0 <= at < n <= c.outs.len(),
        answers_read(c.replies[at], name, v),
        forall|k: int| at < k < n ==> !takes_back(#[trigger] c.replies[k], name),
    ensures
        c.runs[n].values.contains_key(name),
        c.runs[n].values[name] == Some(v),
    decreases n,
{
    let k = n - 1;
    assert(c.states[k].steps(c.runs[k], c.replies[k], c.states[k + 1], c.runs[k + 1], c.outs[k]));
    assert(c.runs[k].wf());
    if k == at {
        law_answer_is_at_hand(
            c.states[k],
            c.runs[k],
            c.replies[k],
            c.states[n],
            c.runs[n],
            c.outs[k],
            name,
            v,
        );
    } else {
        law_answers_stay_at_hand(c, name, v, at, k);
        assert(!takes_back(c.replies[k], name));
        law_only_answers_bring_values(
            c.states[k],
            c.runs[k],
            c.replies[k],
            c.states[n],
            c.runs[n],
            c.outs[k],
        );
        if c.replies[k] is Some && c.replies[k]->0 is UsrReadVarResult {
            let var_name = c.replies[k]->0->UsrReadVarResult_var_name;
            let result = c.replies[k]->0->UsrReadVarResult_result;
            law_answer_is_at_hand(
                c.states[k],
                c.runs[k],
                c.replies[k],
                c.states[n],
                c.runs[n],
                c.outs[k],
                var_name,
                result->0,
            );
            assert(c.runs[n].values.get(name) == c.runs[k].values.get(name));
        }
    }
}

/// In the first `n` steps of the course, `v` is what was last answered for `name`, and no
/// lock was refused since.
pub open spec fn last_answered(c: TxnCourse, n: int, name: Seq<char>, v: ValModel) -> bool {
    exists|at: int|
        {
            &&& 0 <= at < n
            &&& answers_read(#[trigger] c.replies[at], name, v)
            &&& forall|k: int| at < k < n ==> !takes_back(#[trigger] c.replies[k], name)
        }
}

/// Each write is computed from what the workers of the variables answered: what is written
/// is the value of the write's expression where each name in it has the value that was last
/// answered for it.
pub proof fn law_writes_follow_answers(c: TxnCourse, n: int, k: int, answered: Names)
    requires
        c.wf(),
        0 <= n < c.outs.len(),
        0 <= k < c.outs[n].len(),
        c.outs[n][k].msg is UsrWriteVarRequest,
        forall|name: Seq<char>| #[trigger]
            occurs(
                c.runs[n].txn.writes[c.runs[n].phase->WriteLock_0 as int].expr,
                name,
            ) ==> answered.contains_key(name) && answered[name] is Some && last_answered(
                c,
                n,
                name,
                answered[name]->0,
            ),
    ensures
        ({
            let write = c.runs[n].txn.writes[c.runs[n].phase->WriteLock_0 as int];
            &&& c.runs[n].phase is WriteLock
            &&& c.outs[n][k].to == c.states[n].workers[write.name]
            &&& value_in(write.expr, answered) == Some(
                c.outs[n][k].msg->UsrWriteVarRequest_write_val,
            )
            &&& c.outs[n][k].msg->UsrWriteVarRequest_txn == c.runs[n].txn
        }),
{
    let run = c.runs[n];
    assert(c.states[n].steps(run, c.replies[n], c.states[n + 1], c.runs[n + 1], c.outs[n]));
    law_written_when_granted(
        c.states[n],
        run,
        c.replies[n],
        c.states[n + 1],
        c.runs[n + 1],
        c.outs[n],
        k,
    );
    let write = run.txn.writes[run.phase->WriteLock_0 as int];
    assert(run.wf());
    assert forall|name: Seq<char>| #[trigger] names_in(write.expr).contains(
        name,
    ) implies run.values.get(name) == answered.get(name) by {
        law_names_are_those_that_occur(write.expr, name);
        assert(occurs(write.expr, name));
        let v = answered[name]->0;
        let at = choose|at: int|
            {
                &&& 0 <= at < n
                &&& answers_read(#[trigger] c.replies[at], name, v)
                &&& forall|k: int| at < k < n ==> !takes_back(#[trigger] c.replies[k], name)
            };
        law_answers_stay_at_hand(c, name, v, at, n);
    }
    law_value_depends_on_names(write.expr, run.values, answered);
}

proof fn lemma_reads_name(txn: TxnModel, n: Seq<char>)
    ensures
        names_read(txn.writes).contains(n) <==> reads_name(txn, n),
{
    assert forall|i: int| 0 <= i < txn.writes.len() implies names_in(
        (#[trigger] txn.writes[i]).expr,
    ).contains(n) == occurs(txn.writes[i].expr, n) by {
        law_names_are_those_that_occur(txn.writes[i].expr, n);
    }
    if reads_name(txn, n) {
        let i = choose|i: int|
            0 <= i < txn.writes.len() && occurs((#[trigger] txn.writes[i]).expr, n);
        assert(names_in(txn.writes[i].expr).contains(n));
    }
    if names_read(txn.writes).contains(n) {
        let i = choose|i: int|
            0 <= i < txn.writes.len() && names_in((#[trigger] txn.writes[i]).expr).contains(n);
        assert(occurs(txn.writes[i].expr, n));
    }
}

/// A transaction reads each name that occurs in one of its writes, once, and no other; it
/// starts with no value at hand, and with nothing that is required.
pub proof fn law_begins_with_what_it_reads(
    s: ManagerState,
    txn: TxnModel,
    run: TxnRunModel,
    out: Seq<Posted>,
)
    requires
        s.begins(txn, run, out),
    ensures
        run.txn == txn,
        forall|n: Seq<char>| #[trigger]
            run.reads.contains(n) <==> reads_name(txn, n),
        forall|a: int, b: int|
            0 <= a < b < run.reads.len() ==> #[trigger] run.reads[a] != #[trigger] run.reads[b],
        forall|n: Seq<char>| #[trigger] run.written.contains(n) <==> writes_name(txn, n),
        forall|n: Seq<char>| !(#[trigger] run.values.contains_key(n)),
        forall|p: TxnModel| !(#[trigger] run.required.contains(p)),
        run.reads.len() > 0 ==> run.phase == TxnPhase::ReadLock(0) && out == seq![
            Posted {
                to: s.workers[run.reads[0]],
                msg: MessageModel::VarLockRequest { lock_kind: LockKind::Read, txn },
            },
        ],
        run.reads.len() == 0 && txn.writes.len() > 0 ==> run.phase == TxnPhase::WriteLock(0)
            && out == seq![
            Posted {
                to: s.workers[txn.writes[0].name],
                msg: MessageModel::VarLockRequest { lock_kind: LockKind::Write, txn },
            },
        ],
{
    assert forall|n: Seq<char>| #[trigger] run.reads.contains(n) <==> reads_name(txn, n) by {
        assert(run.reads.contains(n) <==> run.reads.to_set().contains(n));
        lemma_reads_name(txn, n);
    }
    assert forall|n: Seq<char>| #[trigger] run.written.contains(n) <==> writes_name(txn, n) by {
        assert(run.written.contains(n) <==> run.written.to_set().contains(n));
    }
}

/// The name occurs in one of the transaction's writes.
pub open spec fn reads_name(txn: TxnModel, name: Seq<char>) -> bool {
    exists|i: int| 0 <= i < txn.writes.len() && occurs((#[trigger] txn.writes[i]).expr, name)
}

/// One of the transaction's writes goes to the name.
pub open spec fn writes_name(txn: TxnModel, name: Seq<char>) -> bool {
    exists|i: int| 0 <= i < txn.writes.len() && (#[trigger] txn.writes[i]).name == name
}

/// The transaction asks for the value of a variable when the lock for it is granted, and of
/// the very variable for which it asked the lock.
pub proof fn law_value_asked_under_lock(
    s: ManagerState,
    run: TxnRunModel,
    reply: Option<MessageModel>,
    after: ManagerState,
    run_after: TxnRunModel,
    out: Seq<Posted>,
    i: usize,
)
    requires
        s.can_step(run, reply),
        s.steps(run, reply, after, run_after, out),
        run.phase == TxnPhase::ReadLock(i),
        reply matches Some(m) && m is VarLockGranted,
    ensures
        out == seq![
            Posted {
                to: s.workers[run.reads[i as int]],
                msg: MessageModel::UsrReadVarRequest { txn: run.txn },
            },
        ],
        run_after.phase == TxnPhase::ReadValue(i),
        reply->0->VarLockGranted_txn.id == run.txn.id,
{
}

/// A transaction takes its names one after the other: after the answer to a read it asks for
/// the read lock of the next name; after the last one, for the write lock of the first
/// variable that it writes.
pub proof fn law_reads_in_turn(
    s: ManagerState,
    run: TxnRunModel,
    reply: Option<MessageModel>,
    after: ManagerState,
    run_after: TxnRunModel,
    out: Seq<Posted>,
    i: usize,
)
    requires
        run.wf(),
        s.can_step(run, reply),
        s.steps(run, reply, after, run_after, out),
        run.phase == TxnPhase::ReadValue(i),
    ensures
        after == s,
        i + 1 < run.reads.len() ==> run_after.phase is ReadLock && run_after.phase->ReadLock_0 == i
            + 1 && out == seq![
            Posted {
                to: s.workers[run.reads[i + 1]],
                msg: MessageModel::VarLockRequest { lock_kind: LockKind::Read, txn: run.txn },
            },
        ],
        i + 1 == run.reads.len() && run.txn.writes.len() > 0 ==> run_after.phase
            == TxnPhase::WriteLock(0) && out == seq![
            Posted {
                to: s.workers[run.txn.writes[0].name],
                msg: MessageModel::VarLockRequest { lock_kind: LockKind::Write, txn: run.txn },
            },
        ],
{
}

/// After a write that is not the last one, the transaction asks for the write lock of the
/// next variable; after the last one it is done, and sends nothing but releases behind the
/// write.
pub proof fn law_writes_in_turn(
    s: ManagerState,
    run: TxnRunModel,
    reply: Option<MessageModel>,
    after: ManagerState,
    run_after: TxnRunModel,
    out: Seq<Posted>,
    j: usize,
)
    requires
        run.wf(),
        s.can_step(run, reply),
        s.steps(run, reply, after, run_after, out),
        run.phase == TxnPhase::WriteLock(j),
        reply matches Some(m) && m is VarLockGranted,
    ensures
        out.len() > 0,
        out[0].to == s.workers[run.txn.writes[j as int].name],
        out[0].msg is UsrWriteVarRequest,
        j + 1 < run.txn.writes.len() ==> {
            &&& run_after.phase is WriteLock
            &&& run_after.phase->WriteLock_0 == j + 1
            &&& out.len() == 2
            &&& out[1] == (Posted {
                to: s.workers[run.txn.writes[j + 1].name],
                msg: MessageModel::VarLockRequest { lock_kind: LockKind::Write, txn: run.txn },
            })
        },
        j + 1 == run.txn.writes.len() ==> {
            &&& run_after.phase is Done
            &&& forall|k: int| 1 <= k < out.len() ==> releases_own(after, run, #[trigger] out[k])
        },
{
    assert(out.skip(1).len() == out.len() - 1);
    if j + 1 < run.txn.writes.len() {
        assert(out[1] == out.skip(1)[0]);
    } else {
        let rest = out.skip(1);
        let order = choose|order: Seq<LockWorkerModel>| #[trigger]
            is_listing(order, after.txn_locks[run.txn.id]) && rest == order.map_values(
                |info: LockWorkerModel| after.release_notice(run, info),
            );
        assert forall|k: int| 1 <= k < out.len() implies releases_own(
            after,
            run,
            #[trigger] out[k],
        ) by {
            assert(out[k] == rest[k - 1]);
            assert(rest[k - 1] == after.release_notice(run, order[k - 1]));
            assert(order.to_set().contains(order[k - 1]));
            assert(after.txn_locks[run.txn.id].contains(order[k - 1]));
        }
    }
}

/// The message tells a worker that granted the transaction a lock to release it.
pub open spec fn releases_own(s: ManagerState, run: TxnRunModel, p: Posted) -> bool {
    exists|info: LockWorkerModel| #[trigger]
        s.txn_locks[run.txn.id].contains(info) && p == (Posted {
            to: s.workers[info.worker_name],
            msg: MessageModel::VarLockRelease { txn: run.txn, required: run.required },
        })
}

/// A grant adds one lock to the record of the transaction: that of the worker that granted
/// it, for reading or for writing as the transaction is about to do.
pub proof fn law_grant_adds_one_lock(
    s: ManagerState,
    run: TxnRunModel,
    reply: Option<MessageModel>,
    after: ManagerState,
    run_after: TxnRunModel,
    out: Seq<Posted>,
    info: LockWorkerModel,
)
    requires
        s.can_step(run, reply),
        s.steps(run, reply, after, run_after, out),
        reply matches Some(m) && m is VarLockGranted,
    ensures
        after.txn_locks.contains_key(run.txn.id),
        after.txn_locks[run.txn.id].contains(info) <==> (s.txn_locks.contains_key(run.txn.id)
            && s.txn_locks[run.txn.id].contains(info)) || (info.worker_name
            == reply->0->VarLockGranted_from_name && info.lock.txn == run.txn
            && info.lock.lock_kind == if run.phase is ReadLock {
            LockKind::Read
        } else {
            LockKind::Write
        }),
{
}

/// A refused write lock is told to the workers of all names that the transaction writes,
/// too.
pub proof fn law_refusal_tells_written(
    s: ManagerState,
    run: TxnRunModel,
    reply: Option<MessageModel>,
    after: ManagerState,
    run_after: TxnRunModel,
    out: Seq<Posted>,
    j: int,
)
    requires
        s.can_step(run, reply),
        s.steps(run, reply, after, run_after, out),
        run.phase is WriteLock,
        reply matches Some(m) && m is VarLockAbort,
        0 <= j < run.written.len(),
    ensures
        out.contains(
            Posted {
                to: s.workers[run.written[j]],
                msg: MessageModel::VarLockAbort { txn: run.txn },
            },
        ),
{
    let first = s.abort_notices(run, run.reads);
    let second = s.abort_notices(run, run.written);
    let notices = first + second;
    let k = first.len() + j;
    assert(notices[k] == second[j]);
    assert(out[k] == notices[k]);
    assert(second[j] == Posted {
        to: s.workers[run.written[j]],
        msg: MessageModel::VarLockAbort { txn: run.txn },
    });
}

/// A closed channel in place of the grant of a write lock sends nothing to this variable; the
/// transaction goes on with the next one, or releases its locks.
pub proof fn law_closed_channel_skips_write(
    s: ManagerState,
    run: TxnRunModel,
    after: ManagerState,
    run_after: TxnRunModel,
    out: Seq<Posted>,
    j: usize,
)
    requires
        run.wf(),
        s.can_step(run, None),
        s.steps(run, None, after, run_after, out),
        run.phase == TxnPhase::WriteLock(j),
    ensures
        after == s,
        j + 1 < run.txn.writes.len() ==> run_after.phase is WriteLock
            && run_after.phase->WriteLock_0 == j + 1 && out == seq![
            Posted {
                to: s.workers[run.txn.writes[j + 1].name],
                msg: MessageModel::VarLockRequest { lock_kind: LockKind::Write, txn: run.txn },
            },
        ],
        j + 1 == run.txn.writes.len() ==> run_after.phase is Done && forall|k: int|
            0 <= k < out.len() ==> releases_own(s, run, #[trigger] out[k]),
{
    if j + 1 == run.txn.writes.len() {
        let order = choose|order: Seq<LockWorkerModel>| #[trigger]
            is_listing(order, s.txn_locks[run.txn.id]) && out == order.map_values(
                |info: LockWorkerModel| s.release_notice(run, info),
            );
        assert forall|k: int| 0 <= k < out.len() implies releases_own(s, run, #[trigger] out[k]) by {
            assert(out[k] == s.release_notice(run, order[k]));
            assert(order.to_set().contains(order[k]));
            assert(s.txn_locks[run.txn.id].contains(order[k]));
        }
    }
}

/// The name is that of a variable with a worker.
pub open spec fn is_variable(s: ManagerState, name: Seq<char>) -> bool {
    s.kinds.contains_key(name) && s.kinds[name] == WorkerKind::Var && s.workers.contains_key(name)
}

/// A transaction is not stuck: where all that it reads and writes are variables with
/// workers, it takes a grant for its read lock, a refusal of it, and the value of a variable
/// that is not the last one it reads.
pub proof fn law_expected_answers_are_taken(
    s: ManagerState,
    run: TxnRunModel,
    txn: TxnModel,
    from: Seq<char>,
    v: ValModel,
    preds: Set<TxnModel>,
    i: usize,
)
    requires
        run.wf(),
        forall|k: int| 0 <= k < run.reads.len() ==> is_variable(s, #[trigger] run.reads[k]),
        txn.id == run.txn.id,
        i < run.reads.len(),
    ensures
        run.phase == TxnPhase::ReadLock(i) ==> s.can_step(
            run,
            Some(MessageModel::VarLockGranted { txn, from_name: from }),
        ) && s.can_step(run, Some(MessageModel::VarLockAbort { txn })),
        run.phase == TxnPhase::ReadValue(i) && i + 1 < run.reads.len() ==> s.can_step(
            run,
            Some(
                MessageModel::UsrReadVarResult {
                    var_name: run.reads[i as int],
                    result: Some(v),
                    result_preds: preds,
                    txn,
                },
            ),
        ),
{
    assert(is_variable(s, run.reads[i as int]));
    assert(is_variable(s, run.reads[0]));
    if i + 1 < run.reads.len() {
        assert(is_variable(s, run.reads[i + 1]));
    }
}

/// A transaction can begin where all that it reads are variables with workers, if it reads
/// anything.
pub proof fn law_transaction_can_begin(s: ManagerState, txn: TxnModel, name: Seq<char>)
    requires
        reads_name(txn, name),
    ensures
        s.can_begin(txn) <==> forall|n: Seq<char>| #[trigger] reads_name(txn, n) ==> is_variable(s, n),
{
    assert forall|n: Seq<char>| #[trigger]
        names_read(txn.writes).contains(n) <==> reads_name(txn, n) by {
        lemma_reads_name(txn, n);
    }
    assert(names_read(txn.writes).contains(name));
    assert(names_read(txn.writes) != Set::<Seq<char>>::empty());
    if s.can_begin(txn) {
        assert forall|n: Seq<char>| #[trigger] reads_name(txn, n) implies is_variable(s, n) by {
            assert(names_read(txn.writes).contains(n));
        }
    }
    if forall|n: Seq<char>| #[trigger] reads_name(txn, n) ==> is_variable(s, n) {
        assert forall|n: Seq<char>| #[trigger] names_read(txn.writes).contains(n) implies s.has_var(
            n,
        ) by {
            assert(reads_name(txn, n));
        }
    }
}

/// After a refusal the transaction asks again for the first lock that it needs: behind the
/// notices of the abort, one for each name that it reads and, where a write lock was refused,
/// one for each name that it writes, stands this request and nothing else.
pub proof fn law_refusal_asks_again(
    s: ManagerState,
    run: TxnRunModel,
    reply: Option<MessageModel>,
    after: ManagerState,
    run_after: TxnRunModel,
    out: Seq<Posted>,
)
    requires
        run.wf(),
        s.can_step(run, reply),
        s.steps(run, reply, after, run_after, out),
        reply matches Some(m) && m is VarLockAbort,
    ensures
        out.len() == 1 + run.reads.len() + if run.phase is WriteLock {
            run.written.len() as int
        } else {
            0
        },
        forall|k: int|
            0 <= k < out.len() - 1 ==> (#[trigger] out[k]).msg == (MessageModel::VarLockAbort {
                txn: run.txn,
            }),
        run.reads.len() > 0 ==> run_after.phase == TxnPhase::ReadLock(0) && out.last() == (Posted {
            to: s.workers[run.reads[0]],
            msg: MessageModel::VarLockRequest { lock_kind: LockKind::Read, txn: run.txn },
        }),
        run.reads.len() == 0 ==> run_after.phase == TxnPhase::WriteLock(0) && out.last() == (
        Posted {
            to: s.workers[run.txn.writes[0].name],
            msg: MessageModel::VarLockRequest { lock_kind: LockKind::Write, txn: run.txn },
        }),
{
    let notices = if run.phase is WriteLock {
        s.abort_notices(run, run.reads) + s.abort_notices(run, run.written)
    } else {
        s.abort_notices(run, run.reads)
    };
    let rest = out.skip(notices.len() as int);
    assert(rest.len() == 1);
    assert(out.last() == rest[0]);
    assert forall|k: int| 0 <= k < out.len() - 1 implies (#[trigger] out[k]).msg == (
    MessageModel::VarLockAbort { txn: run.txn }) by {
        assert(out[k] == notices[k]);
    }
}

/// The value of the last name that a transaction reads is taken exactly where its first write
/// goes to a variable and has a value.
pub proof fn law_last_answer_is_taken(
    s: ManagerState,
    run: TxnRunModel,
    txn: TxnModel,
    v: ValModel,
    preds: Set<TxnModel>,
    i: usize,
)
    requires
        run.wf(),
        run.phase == TxnPhase::ReadValue(i),
        i + 1 == run.reads.len(),
        run.txn.writes.len() > 0,
        txn.id == run.txn.id,
    ensures
        s.can_step(
            run,
            Some(
                MessageModel::UsrReadVarResult {
                    var_name: run.reads[i as int],
                    result: Some(v),
                    result_preds: preds,
                    txn,
                },
            ),
        ) <==> is_variable(s, run.txn.writes[0].name) && value_in(
            run.txn.writes[0].expr,
            run.values.insert(run.reads[i as int], Some(v)),
        ) is Some,
{
}

/// The grant of a write lock is taken where it comes from the variable that is to be written,
/// and the next write, if there is one, goes to a variable and has a value; after the last
/// one, where the workers of all locks granted before are known.
pub proof fn law_write_grants_are_taken(
    s: ManagerState,
    run: TxnRunModel,
    txn: TxnModel,
    j: usize,
)
    requires
        run.wf(),
        run.phase == TxnPhase::WriteLock(j),
        txn.id == run.txn.id,
        is_variable(s, run.txn.writes[j as int].name),
    ensures
        ({
            let from = run.txn.writes[j as int].name;
            let taken = s.can_step(
                run,
                Some(MessageModel::VarLockGranted { txn, from_name: from }),
            );
            &&& j + 1 < run.txn.writes.len() ==> (taken <==> is_variable(
                s,
                run.txn.writes[j + 1].name,
            ) && value_in(run.txn.writes[j + 1].expr, run.values) is Some)
            &&& j + 1 == run.txn.writes.len() ==> (taken <==> (s.txn_locks.contains_key(run.txn.id)
                ==> forall|info: LockWorkerModel| #[trigger]
                s.txn_locks[run.txn.id].contains(info) ==> s.workers.contains_key(
                    info.worker_name,
                )))
        }),
{
    let from = run.txn.writes[j as int].name;
    let after = s.with_granted(run, LockKind::Write, from);
    let own = run.lock_info(LockKind::Write, from);
    assert(after.txn_locks[run.txn.id].contains(own));
    if s.txn_locks.contains_key(run.txn.id) {
        assert forall|info: LockWorkerModel| #[trigger]
            s.txn_locks[run.txn.id].contains(info) implies after.txn_locks[run.txn.id].contains(
            info,
        ) by {}
    }
}

} // verus!
