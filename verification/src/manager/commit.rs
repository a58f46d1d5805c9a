//! A transaction and the worker of a variable that it writes.

use vstd::prelude::*;

#[allow(unused_imports)]
use crate::collections::is_listing;
#[allow(unused_imports)]
use crate::expr::{value_in, ValModel};
#[allow(unused_imports)]
use crate::lock::{holds, LockKind, LockModel, LockWorkerModel};
#[allow(unused_imports)]
use crate::manager::txn::{
    law_grant_recorded, law_transaction_touches_own_locks, TxnPhase, TxnRunModel,
};
#[allow(unused_imports)]
use crate::manager::ManagerState;
#[allow(unused_imports)]
use crate::message::{Endpoint, MessageModel, Posted};
#[allow(unused_imports)]
use crate::transaction::TxnModel;
#[allow(unused_imports)]
use crate::varworker::{
    law_release_commits_among_others, lemma_round_grants, round, rounds, VarState,
};

verus! {

/// The messages in `out` that go to the address `to`, in their order.
pub open spec fn addressed(out: Seq<Posted>, to: Endpoint) -> Seq<MessageModel>
    decreases out.len(),
{
    if out.len() == 0 {
        Seq::empty()
    } else if out.last().to == to {
        addressed(out.drop_last(), to).push(out.last().msg)
    } else {
        addressed(out.drop_last(), to)
    }
}

/// A part of the course of a transaction: the states and runs that it goes through, what
/// came in, and what was sent.
pub struct TxnCourse {
    pub states: Seq<ManagerState>,
    pub runs: Seq<TxnRunModel>,
    pub replies: Seq<Option<MessageModel>>,
    pub outs: Seq<Seq<Posted>>,
}

impl TxnCourse {
    /// Each state and run follows from the one before by a step.
    pub open spec fn wf(self) -> bool {
        let n = self.outs.len();
        &&& self.states.len() == n + 1
        &&& self.runs.len() == n + 1
        &&& self.replies.len() == n
        &&& forall|i: int| 0 <= i <= n ==> (#[trigger] self.runs[i]).wf()
        &&& forall|i: int|
            0 <= i < n ==> {
                &&& self.states[i].can_step(self.runs[i], self.replies[i])
                &&& self.states[i].steps(
                    self.runs[i],
                    self.replies[i],
                    self.states[i + 1],
                    self.runs[i + 1],
                    #[trigger] self.outs[i],
                )
            }
    }

    /// The messages of the first `n` steps that go to the address `to`, in their order.
    pub open spec fn sent(self, to: Endpoint, n: int) -> Seq<MessageModel>
        decreases n,
    {
        if n <= 0 {
            Seq::empty()
        } else {
            self.sent(to, n - 1) + addressed(self.outs[n - 1], to)
        }
    }

    /// The course leads from the grant of the write lock of the variable `name`, for the
    /// last write to it, to the end of the transaction, and no lock is refused on the way.
    pub open spec fn commits(self, name: Seq<char>, place: usize) -> bool {
        let run = self.runs[0];
        &&& self.wf()
        &&& self.outs.len() > 0
        &&& run.phase == TxnPhase::WriteLock(place)
        &&& run.txn.writes[place as int].name == name
        &&& self.replies[0] matches Some(m) && m is VarLockGranted
        &&& forall|k: int|
            place < k < run.txn.writes.len() ==> (#[trigger] run.txn.writes[k]).name != name
        &&& forall|i: int|
            0 <= i < self.replies.len() ==> !(#[trigger] self.replies[i] matches Some(m)
                && m is VarLockAbort)
        &&& self.runs.last().phase is Done
    }

    /// The worker under `name` has an address of its own.
    pub open spec fn own_address(self, name: Seq<char>) -> bool {
        let workers = self.states[0].workers;
        forall|n: Seq<char>| #[trigger]
            workers.contains_key(n) && n != name ==> workers[n] != workers[name]
    }
}

proof fn lemma_addressed_first(out: Seq<Posted>, to: Endpoint)
    requires
        out.len() > 0,
    ensures
        addressed(out, to) == if out[0].to == to {
            seq![out[0].msg] + addressed(out.skip(1), to)
        } else {
            addressed(out.skip(1), to)
        },
    decreases out.len(),
{
    if out.len() == 1 {
        assert(out.skip(1) =~= Seq::<Posted>::empty());
        assert(out.drop_last() =~= Seq::<Posted>::empty());
        assert(addressed(out.drop_last(), to) =~= Seq::<MessageModel>::empty());
        assert(addressed(out.skip(1), to) =~= Seq::<MessageModel>::empty());
        assert(addressed(out, to) =~= if out[0].to == to {
            seq![out[0].msg] + addressed(out.skip(1), to)
        } else {
            addressed(out.skip(1), to)
        });
    } else {
        lemma_addressed_first(out.drop_last(), to);
        assert(out.drop_last().skip(1) =~= out.skip(1).drop_last());
        assert(out.skip(1).last() == out.last());
        assert(addressed(out, to) =~= if out[0].to == to {
            seq![out[0].msg] + addressed(out.skip(1), to)
        } else {
            addressed(out.skip(1), to)
        });
    }
}

proof fn lemma_addressed_members(out: Seq<Posted>, to: Endpoint)
    ensures
        forall|i: int|
            0 <= i < addressed(out, to).len() ==> exists|k: int|
                0 <= k < out.len() && (#[trigger] out[k]).to == to && out[k].msg
                    == #[trigger] addressed(out, to)[i],
        forall|k: int|
            0 <= k < out.len() && (#[trigger] out[k]).to == to ==> addressed(out, to).len() > 0,
    decreases out.len(),
{
    if out.len() > 0 {
        let rest = out.drop_last();
        lemma_addressed_members(rest, to);
        assert forall|i: int| 0 <= i < addressed(out, to).len() implies exists|k: int|
            0 <= k < out.len() && (#[trigger] out[k]).to == to && out[k].msg
                == #[trigger] addressed(out, to)[i] by {
            if i < addressed(rest, to).len() {
                let k = choose|k: int|
                    0 <= k < rest.len() && (#[trigger] rest[k]).to == to && rest[k].msg
                        == addressed(rest, to)[i];
                assert(out[k] == rest[k]);
            } else {
                assert(out[out.len() - 1].msg == addressed(out, to)[i]);
            }
        }
        assert forall|k: int| 0 <= k < out.len() && (#[trigger] out[k]).to == to implies addressed(
            out,
            to,
        ).len() > 0 by {
            if k < rest.len() {
                assert(rest[k] == out[k]);
            }
        }
    }
}

/// What the transaction sends to the worker of `name` when it goes on behind the last write
/// to it: nothing, until the releases at its end.
proof fn lemma_sends_on(
    s: ManagerState,
    run: TxnRunModel,
    j: int,
    run_after: TxnRunModel,
    out: Seq<Posted>,
    name: Seq<char>,
)
    requires
        s.writes_on(run, j, run_after, out),
        s.can_write(run, j),
        0 <= j <= run.txn.writes.len() <= usize::MAX,
        s.workers.contains_key(name),
        forall|n: Seq<char>| #[trigger]
            s.workers.contains_key(n) && n != name ==> s.workers[n] != s.workers[name],
        j < run.txn.writes.len() ==> run.txn.writes[j].name != name,
        s.txn_locks[run.txn.id].contains(run.lock_info(LockKind::Write, name)),
    ensures
        run_after.txn == run.txn,
        j < run.txn.writes.len() ==> addressed(out, s.workers[name]) == Seq::<
            MessageModel,
        >::empty() && run_after.phase == TxnPhase::WriteLock(j as usize),
        j == run.txn.writes.len() ==> run_after.phase is Done && addressed(
            out,
            s.workers[name],
        ).len() > 0,
        forall|i: int|
            0 <= i < addressed(out, s.workers[name]).len() ==> is_release(
                #[trigger] addressed(out, s.workers[name])[i],
                run.txn,
            ),
{
    let to = s.workers[name];
    lemma_addressed_members(out, to);
    if j < run.txn.writes.len() {
        assert(out.len() == 1);
        assert(s.workers.contains_key(run.txn.writes[j].name));
        assert(out[0].to != to);
        assert(addressed(out, to) =~= Seq::<MessageModel>::empty()) by {
            if addressed(out, to).len() > 0 {
                let m = addressed(out, to)[0];
                let k = choose|k: int|
                    0 <= k < out.len() && (#[trigger] out[k]).to == to && out[k].msg == m;
                assert(k == 0);
            }
        }
    } else {
        let order = choose|order: Seq<LockWorkerModel>| #[trigger]
            is_listing(order, s.txn_locks[run.txn.id]) && out == order.map_values(
                |info: LockWorkerModel| s.release_notice(run, info),
            );
        let info = run.lock_info(LockKind::Write, name);
        assert(order.to_set().contains(info));
        let k = choose|k: int| 0 <= k < order.len() && order[k] == info;
        assert(out[k].to == to);
        assert forall|i: int| 0 <= i < addressed(out, to).len() implies is_release(
            #[trigger] addressed(out, to)[i],
            run.txn,
        ) by {
            let m = choose|m: int|
                0 <= m < out.len() && (#[trigger] out[m]).to == to && out[m].msg == addressed(
                    out,
                    to,
                )[i];
            assert(out[m] == s.release_notice(run, order[m]));
        }
    }
}

/// The message releases the locks of the transaction.
pub open spec fn is_release(m: MessageModel, txn: TxnModel) -> bool {
    m matches MessageModel::VarLockRelease { txn: t, .. } && t == txn
}

proof fn lemma_sent_so_far(c: TxnCourse, name: Seq<char>, place: usize, n: int)
    requires
        c.commits(name, place),
        c.own_address(name),
        0 < n <= c.outs.len(),
    ensures
        ({
            let run = c.runs[0];
            let to = c.states[0].workers[name];
            let msgs = c.sent(to, n);
            &&& c.states[0].workers.contains_key(name)
            &&& c.states[n].workers == c.states[0].workers
            &&& c.runs[n].txn == run.txn
            &&& c.states[n].txn_locks.contains_key(run.txn.id)
            &&& c.states[n].txn_locks[run.txn.id].contains(run.lock_info(LockKind::Write, name))
            &&& c.runs[n].phase is Done || (c.runs[n].phase == TxnPhase::WriteLock(
                (place + n) as usize,
            ) && place + n < run.txn.writes.len() && msgs.len() == 1)
            &&& c.runs[n].phase is Done ==> msgs.len() > 1
            &&& msgs.len() > 0
            &&& msgs[0] == (MessageModel::UsrWriteVarRequest {
                txn: run.txn,
                write_val: run.value_of(place as int)->0,
            })
            &&& forall|i: int| 0 < i < msgs.len() ==> is_release(#[trigger] msgs[i], run.txn)
        }),
    decreases n,
{
    let run = c.runs[0];
    let to = c.states[0].workers[name];
    let i = n - 1;
    let s = c.states[i];
    let r = c.runs[i];
    let out = c.outs[i];
    assert(c.runs[i].wf() && c.runs[n].wf() && c.runs[0].wf());
    assert(s.can_step(r, c.replies[i]) && s.steps(
        r,
        c.replies[i],
        c.states[i + 1],
        c.runs[i + 1],
        c.outs[i],
    ));
    law_transaction_touches_own_locks(s, r, c.replies[i], c.states[n], c.runs[n], out);
    law_grant_recorded(s, r, c.replies[i], c.states[n], c.runs[n], out);
    if n == 1 {
        assert(out[0].to == to);
        lemma_addressed_first(out, to);
        lemma_sends_on(c.states[n], r, place + 1, c.runs[n], out.skip(1), name);
        assert(c.sent(to, 0) =~= Seq::<MessageModel>::empty());
        assert(c.sent(to, 1) =~= addressed(out, to));
    } else {
        lemma_sent_so_far(c, name, place, i);
        assert(!(r.phase is Done));
        let before = c.sent(to, i);
        let j = place + i;
        assert(r.phase == TxnPhase::WriteLock(j as usize));
        assert(run.txn.writes[j].name != name);
        assert(r.lock_info(LockKind::Write, name) == run.lock_info(LockKind::Write, name));
        assert(c.states[n].txn_locks[r.txn.id].contains(r.lock_info(LockKind::Write, name)));
        if c.replies[i] is Some {
            lemma_addressed_first(out, to);
            lemma_sends_on(c.states[n], r, j + 1, c.runs[n], out.skip(1), name);
            assert(addressed(out, to) == addressed(out.skip(1), to));
        } else {
            lemma_sends_on(c.states[n], r, j + 1, c.runs[n], out, name);
        }
        assert(c.sent(to, n) =~= before + addressed(out, to));
    }
}

proof fn lemma_rounds_commit(
    w: Seq<VarState>,
    msgs: Seq<MessageModel>,
    txn: TxnModel,
    v: ValModel,
    n: int,
)
    requires
        rounds(w, msgs),
        0 < n <= msgs.len(),
        msgs[0] == (MessageModel::UsrWriteVarRequest { txn, write_val: v }),
        forall|i: int| 0 < i < msgs.len() ==> is_release(#[trigger] msgs[i], txn),
        holds(w[0].locks, LockKind::Write, txn.id),
    ensures
        w[n].next_value == Some(v),
        n == 1 ==> holds(w[n].locks, LockKind::Write, txn.id),
        n > 1 ==> w[n].value == Some(v),
    decreases n,
{
    let i = n - 1;
    assert(round(w[i], msgs[i], w[i + 1]));
    lemma_round_grants(w[i], msgs[i], w[n]);
    if n == 1 {
        let l = choose|l: LockModel| #[trigger]
            w[0].locks.contains(l) && l.lock_kind == LockKind::Write && l.txn.id == txn.id;
        assert(w[0].handled(msgs[0]).locks.contains(l));
        assert(w[n].locks.contains(l));
    } else {
        lemma_rounds_commit(w, msgs, txn, v, i);
        assert(is_release(msgs[i], txn));
    }
}

/// What a transaction writes arrives: once the worker of a variable, which holds the write
/// lock for the transaction, has handled in their order all that the transaction sends it
/// from the grant of the lock for the last write to its end, the variable's value is that
/// of the write's expression on the values read. The worker has an address of its own.
pub proof fn law_written_value_arrives(
    c: TxnCourse,
    name: Seq<char>,
    place: usize,
    w: Seq<VarState>,
)
    requires
        c.commits(name, place),
        c.own_address(name),
        rounds(w, c.sent(c.states[0].workers[name], c.outs.len() as int)),
        holds(w[0].locks, LockKind::Write, c.runs[0].txn.id),
    ensures
        w.last().value == value_in(c.runs[0].txn.writes[place as int].expr, c.runs[0].values),
        w.last().value is Some,
{
    let n = c.outs.len() as int;
    let run = c.runs[0];
    let msgs = c.sent(c.states[0].workers[name], n);
    assert(run.wf());
    lemma_sent_so_far(c, name, place, n);
    assert(c.runs[n] == c.runs.last());
    lemma_rounds_commit(
        w,
        msgs,
        run.txn,
        run.value_of(place as int)->0,
        msgs.len() as int,
    );
}

/// What a transaction writes arrives among the messages of others: between the write and
/// the first release that the transaction sends, a worker that holds the write lock for it
/// may handle any messages that leave the write alone, and the variable's value is then
/// that of the write's expression on the values read.
pub proof fn law_written_value_arrives_among_others(
    c: TxnCourse,
    name: Seq<char>,
    place: usize,
    w: Seq<VarState>,
    msgs: Seq<MessageModel>,
)
    requires
        c.commits(name, place),
        c.own_address(name),
        rounds(w, msgs),
        msgs.len() >= 2,
        msgs[0] == c.sent(c.states[0].workers[name], c.outs.len() as int)[0],
        msgs.last() == c.sent(c.states[0].workers[name], c.outs.len() as int)[1],
        forall|i: int|
            0 < i < msgs.len() - 1 ==> w[i].leaves_write(#[trigger] msgs[i], c.runs[0].txn.id),
        holds(w[0].locks, LockKind::Write, c.runs[0].txn.id),
    ensures
        w.last().value == value_in(c.runs[0].txn.writes[place as int].expr, c.runs[0].values),
        w.last().value is Some,
{
    let n = c.outs.len() as int;
    let run = c.runs[0];
    let sent = c.sent(c.states[0].workers[name], n);
    assert(run.wf());
    lemma_sent_so_far(c, name, place, n);
    assert(c.runs[n] == c.runs.last());
    assert(is_release(sent[1], run.txn));
    law_release_commits_among_others(
        w,
        msgs,
        run.txn,
        run.value_of(place as int)->0,
        sent[1]->VarLockRelease_required,
    );
}

} // verus!
