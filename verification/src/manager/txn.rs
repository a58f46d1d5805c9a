//! Transactions: the variables that a transaction reads are locked and read one after the
//! other, then those that it writes are locked and written, and then all locks are
//! released. Where a lock is refused, the transaction starts over.

use vstd::prelude::*;

use crate::collections::{Dup, ListMap, ListSet};
#[allow(unused_imports)]
use crate::collections::{is_listing, lemma_take_contains};
use crate::expr::{evaluate_expr, Val};
#[allow(unused_imports)]
use crate::expr::{names_in, value_in, ValModel};
use crate::lock::{Lock, LockKind, LockWorkerInfo};
#[allow(unused_imports)]
use crate::lock::{LockModel, LockWorkerModel};
use crate::manager::Manager;
#[allow(unused_imports)]
use crate::manager::ManagerState;
#[allow(unused_imports)]
use crate::message::{MessageModel, Posted};
use crate::message::{Envelope, Message, WorkerKind};
#[allow(unused_imports)]
use crate::transaction::{TxnModel, WriteModel};
use crate::transaction::{Txn, TxnId};

verus! {

/// What a transaction waits for.
#[derive(Debug, Clone, Copy, PartialEq, Eq, Structural)]
pub enum TxnPhase {
    /// The lock of the variable that is read at this place.
    ReadLock(usize),
    /// The value of the variable that is read at this place.
    ReadValue(usize),
    /// The lock of the variable that is written at this place.
    WriteLock(usize),
    /// Nothing: it is done.
    Done,
}

/// A transaction on its way.
#[derive(Debug)]
pub struct TxnRun {
    pub txn: Txn,
    pub names_read: ListSet<String>,
    pub names_written: ListSet<String>,
    pub phase: TxnPhase,
    /// The values read so far.
    pub values: ListMap<String, Option<Val>>,
    /// The transactions whose values were read.
    pub required: ListSet<Txn>,
}

/// The model of a transaction on its way.
#[verifier::ext_equal]
pub struct TxnRunModel {
    pub txn: TxnModel,
    /// The names that are read, in the order in which that is done.
    pub reads: Seq<Seq<char>>,
    pub written: Seq<Seq<char>>,
    pub phase: TxnPhase,
    pub values: Map<Seq<char>, Option<ValModel>>,
    pub required: Set<TxnModel>,
}

impl DeepView for TxnRun {
    type V = TxnRunModel;

    open spec fn deep_view(&self) -> TxnRunModel {
        TxnRunModel {
            txn: self.txn.deep_view(),
            reads: self.names_read.listing(),
            written: self.names_written.listing(),
            phase: self.phase,
            values: self.values.deep_view(),
            required: self.required.deep_view(),
        }
    }
}

/// The names that the writes read.
pub open spec fn names_read(writes: Seq<WriteModel>) -> Set<Seq<char>> {
    Set::new(
        |n: Seq<char>|
            exists|i: int| 0 <= i < writes.len() && names_in((#[trigger] writes[i]).expr).contains(n),
    )
}

/// The names that the writes write to.
pub open spec fn names_written(writes: Seq<WriteModel>) -> Set<Seq<char>> {
    Set::new(|n: Seq<char>| exists|i: int| 0 <= i < writes.len() && (#[trigger] writes[i]).name == n)
}

/// `p` is one of the latest transactions in `preds`.
pub open spec fn is_latest(p: TxnModel, preds: Set<TxnModel>) -> bool {
    &&& preds.contains(p)
    &&& forall|q: TxnModel| #[trigger] preds.contains(q) ==> q.id.time <= p.id.time
}

/// `after` is `required` with the latest of the transactions in `preds`.
pub open spec fn adds_latest(
    required: Set<TxnModel>,
    preds: Set<TxnModel>,
    after: Set<TxnModel>,
) -> bool {
    if preds == Set::<TxnModel>::empty() {
        after == required
    } else {
        exists|p: TxnModel| #[trigger] is_latest(p, preds) && after == required.insert(p)
    }
}

impl TxnRunModel {
    pub open spec fn wf(self) -> bool {
        &&& is_listing(self.reads, names_read(self.txn.writes))
        &&& is_listing(self.written, names_written(self.txn.writes))
        &&& self.reads.len() <= usize::MAX
        &&& self.txn.writes.len() <= usize::MAX
        &&& match self.phase {
            TxnPhase::ReadLock(i) => i < self.reads.len(),
            TxnPhase::ReadValue(i) => i < self.reads.len(),
            TxnPhase::WriteLock(j) => j < self.txn.writes.len() && self.value_of(j as int) is Some,
            TxnPhase::Done => true,
        }
    }

    /// The value for the write at place `j`.
    pub open spec fn value_of(self, j: int) -> Option<ValModel> {
        value_in(self.txn.writes[j].expr, self.values)
    }

    /// The transaction with nothing read.
    pub open spec fn restarted(self) -> TxnRunModel {
        TxnRunModel { values: Map::empty(), required: Set::empty(), ..self }
    }

    /// The transaction once the value at place `i` is read.
    pub open spec fn with_value(
        self,
        i: int,
        val: ValModel,
        required: Set<TxnModel>,
    ) -> TxnRunModel {
        TxnRunModel { values: self.values.insert(self.reads[i], Some(val)), required, ..self }
    }

    /// The record of a lock that `worker` granted.
    pub open spec fn lock_info(self, kind: LockKind, worker: Seq<char>) -> LockWorkerModel {
        LockWorkerModel {
            lock: LockModel { lock_kind: kind, txn: self.txn },
            worker_name: worker,
        }
    }

    pub open spec fn lock_request(self, kind: LockKind) -> MessageModel {
        MessageModel::VarLockRequest { lock_kind: kind, txn: self.txn }
    }
}

impl ManagerState {
    /// There is a worker of a variable under the name.
    pub open spec fn has_var(self, name: Seq<char>) -> bool {
        &&& self.kinds.contains_key(name)
        &&& self.kinds[name] == WorkerKind::Var
        &&& self.workers.contains_key(name)
    }

    /// There is a worker under each of the names.
    pub open spec fn has_workers(self, names: Seq<Seq<char>>) -> bool {
        forall|i: int| 0 <= i < names.len() ==> self.workers.contains_key(#[trigger] names[i])
    }

    /// The locks of the transaction are known, and so are the workers that granted them.
    pub open spec fn can_release(self, id: TxnId) -> bool {
        &&& self.txn_locks.contains_key(id)
        &&& forall|info: LockWorkerModel| #[trigger]
            self.txn_locks[id].contains(info) ==> self.workers.contains_key(info.worker_name)
    }

    /// `out` releases each lock of the transaction, in any order.
    pub open spec fn releases(self, run: TxnRunModel, out: Seq<Posted>) -> bool {
        exists|order: Seq<LockWorkerModel>| #[trigger]
            is_listing(order, self.txn_locks[run.txn.id]) && out == order.map_values(
                |info: LockWorkerModel| self.release_notice(run, info),
            )
    }

    pub open spec fn release_notice(self, run: TxnRunModel, info: LockWorkerModel) -> Posted {
        Posted {
            to: self.workers[info.worker_name],
            msg: MessageModel::VarLockRelease { txn: run.txn, required: run.required },
        }
    }

    /// The messages that tell the workers under the names of the abort.
    pub open spec fn abort_notices(self, run: TxnRunModel, names: Seq<Seq<char>>) -> Seq<Posted> {
        names.map_values(
            |n: Seq<char>|
                Posted { to: self.workers[n], msg: MessageModel::VarLockAbort { txn: run.txn } },
        )
    }

    /// The transaction can go on with the write at place `j`, or with the release where
    /// there is none.
    pub open spec fn can_write(self, run: TxnRunModel, j: int) -> bool {
        if j < run.txn.writes.len() {
            self.has_var(run.txn.writes[j].name) && run.value_of(j) is Some
        } else {
            self.can_release(run.txn.id)
        }
    }

    /// The transaction can go on with the read at place `i`, or with the writes where there
    /// is none.
    pub open spec fn can_read(self, run: TxnRunModel, i: int) -> bool {
        if i < run.reads.len() {
            self.has_var(run.reads[i])
        } else {
            self.can_write(run, 0)
        }
    }

    /// The transaction goes on with the write at place `j`: it asks for the lock, and after
    /// the last write it releases all locks.
    pub open spec fn writes_on(
        self,
        run: TxnRunModel,
        j: int,
        run_after: TxnRunModel,
        out: Seq<Posted>,
    ) -> bool {
        if j < run.txn.writes.len() {
            &&& run_after == (TxnRunModel { phase: TxnPhase::WriteLock(j as usize), ..run })
            &&& out == seq![
                Posted {
                    to: self.workers[run.txn.writes[j].name],
                    msg: run.lock_request(LockKind::Write),
                },
            ]
        } else {
            &&& run_after == (TxnRunModel { phase: TxnPhase::Done, ..run })
            &&& self.releases(run, out)
        }
    }

    /// The transaction goes on with the read at place `i`: it asks for the lock, and after
    /// the last read it goes on with the writes.
    pub open spec fn reads_on(
        self,
        run: TxnRunModel,
        i: int,
        run_after: TxnRunModel,
        out: Seq<Posted>,
    ) -> bool {
        if i < run.reads.len() {
            &&& run_after == (TxnRunModel { phase: TxnPhase::ReadLock(i as usize), ..run })
            &&& out == seq![
                Posted { to: self.workers[run.reads[i]], msg: run.lock_request(LockKind::Read) },
            ]
        } else {
            self.writes_on(run, 0, run_after, out)
        }
    }

    /// The state with a lock recorded for the transaction.
    pub open spec fn with_granted(
        self,
        run: TxnRunModel,
        kind: LockKind,
        worker: Seq<char>,
    ) -> ManagerState {
        ManagerState {
            txn_locks: self.with_txn_lock(run.txn.id, run.lock_info(kind, worker)),
            ..self
        }
    }

    /// There is what it takes to begin the transaction: a variable for each name that it
    /// reads, and what the first write takes where it reads nothing.
    pub open spec fn can_begin(self, txn: TxnModel) -> bool {
        if names_read(txn.writes) == Set::<Seq<char>>::empty() {
            self.can_write(
                TxnRunModel {
                    txn,
                    reads: Seq::empty(),
                    written: Seq::empty(),
                    phase: TxnPhase::Done,
                    values: Map::empty(),
                    required: Set::empty(),
                },
                0,
            )
        } else {
            forall|n: Seq<char>| #[trigger]
                names_read(txn.writes).contains(n) ==> self.has_var(n)
        }
    }

    /// `run` and `out` are the beginning of the transaction: nothing is read, and the first
    /// lock is asked for.
    pub open spec fn begins(self, txn: TxnModel, run: TxnRunModel, out: Seq<Posted>) -> bool {
        &&& run.wf()
        &&& run.txn == txn
        &&& run == run.restarted()
        &&& self.reads_on(run, 0, run, out)
    }

    /// The answer is one that the transaction waits for, and there is all that it takes to
    /// go on.
    pub open spec fn can_step(self, run: TxnRunModel, reply: Option<MessageModel>) -> bool {
        let id = run.txn.id;
        match (run.phase, reply) {
            (TxnPhase::ReadLock(i), Some(MessageModel::VarLockGranted { txn, .. })) => {
                txn.id == id && self.workers.contains_key(run.reads[i as int])
            },
            (TxnPhase::ReadLock(_), Some(MessageModel::VarLockAbort { txn })) => {
                &&& txn.id == id
                &&& self.has_workers(run.reads)
                &&& self.can_read(run.restarted(), 0)
            },
            (
                TxnPhase::ReadValue(i),
                Some(MessageModel::UsrReadVarResult { var_name, result, txn, .. }),
            ) => {
                &&& txn.id == id
                &&& var_name == run.reads[i as int]
                &&& result is Some
                &&& self.can_read(run.with_value(i as int, result->0, run.required), i + 1)
            },
            (
                TxnPhase::WriteLock(j),
                Some(MessageModel::VarLockGranted { txn, from_name }),
            ) => {
                &&& txn.id == id
                &&& from_name == run.txn.writes[j as int].name
                &&& self.workers.contains_key(from_name)
                &&& self.with_granted(run, LockKind::Write, from_name).can_write(run, j + 1)
            },
            (TxnPhase::WriteLock(_), Some(MessageModel::VarLockAbort { txn })) => {
                &&& txn.id == id
                &&& self.has_workers(run.reads)
                &&& self.has_workers(run.written)
                &&& self.can_read(run.restarted(), 0)
            },
            (TxnPhase::WriteLock(j), None) => self.can_write(run, j + 1),
            _ => false,
        }
    }

    /// Whether the transaction goes on with `out` on the answer, and leads to the state
    /// `after` and the transaction `run_after`. A closed channel counts as a write done.
    pub open spec fn steps(
        self,
        run: TxnRunModel,
        reply: Option<MessageModel>,
        after: ManagerState,
        run_after: TxnRunModel,
        out: Seq<Posted>,
    ) -> bool {
        match (run.phase, reply) {
            (TxnPhase::ReadLock(i), Some(MessageModel::VarLockGranted { from_name, .. })) => {
                &&& after == self.with_granted(run, LockKind::Read, from_name)
                &&& run_after == (TxnRunModel { phase: TxnPhase::ReadValue(i), ..run })
                &&& out == seq![
                    Posted {
                        to: self.workers[run.reads[i as int]],
                        msg: MessageModel::UsrReadVarRequest { txn: run.txn },
                    },
                ]
            },
            (TxnPhase::ReadLock(_), Some(MessageModel::VarLockAbort { .. })) => {
                &&& after == self
                &&& self.starts_over(run, self.abort_notices(run, run.reads), run_after, out)
            },
            (
                TxnPhase::ReadValue(i),
                Some(MessageModel::UsrReadVarResult { result, result_preds, .. }),
            ) => {
                &&& after == self
                &&& exists|required: Set<TxnModel>|
                    {
                        &&& #[trigger] adds_latest(run.required, result_preds, required)
                        &&& self.reads_on(
                            run.with_value(i as int, result->0, required),
                            i + 1,
                            run_after,
                            out,
                        )
                    }
            },
            (TxnPhase::WriteLock(j), Some(MessageModel::VarLockGranted { from_name, .. })) => {
                &&& after == self.with_granted(run, LockKind::Write, from_name)
                &&& out.len() > 0
                &&& out[0] == (Posted {
                    to: self.workers[from_name],
                    msg: MessageModel::UsrWriteVarRequest {
                        txn: run.txn,
                        write_val: run.value_of(j as int)->0,
                    },
                })
                &&& after.writes_on(run, j + 1, run_after, out.skip(1))
            },
            (TxnPhase::WriteLock(_), Some(MessageModel::VarLockAbort { .. })) => {
                &&& after == self
                &&& self.starts_over(
                    run,
                    self.abort_notices(run, run.reads) + self.abort_notices(run, run.written),
                    run_after,
                    out,
                )
            },
            (TxnPhase::WriteLock(j), None) => {
                &&& after == self
                &&& self.writes_on(run, j + 1, run_after, out)
            },
            _ => false,
        }
    }

    /// `out` begins with the notices, and goes on with the first step of the transaction
    /// with nothing read.
    pub open spec fn starts_over(
        self,
        run: TxnRunModel,
        notices: Seq<Posted>,
        run_after: TxnRunModel,
        out: Seq<Posted>,
    ) -> bool {
        &&& notices.is_prefix_of(out)
        &&& self.reads_on(run.restarted(), 0, run_after, out.skip(notices.len() as int))
    }
}

/// A transaction changes nothing of a manager but the record of its own locks, and keeps
/// what it is made of.
pub proof fn law_transaction_touches_own_locks(
    s: ManagerState,
    run: TxnRunModel,
    reply: Option<MessageModel>,
    after: ManagerState,
    run_after: TxnRunModel,
    out: Seq<Posted>,
)
    requires
        s.steps(run, reply, after, run_after, out),
    ensures
        after == (ManagerState { txn_locks: after.txn_locks, ..s }),
        forall|id: TxnId| id != run.txn.id ==> #[trigger] after.txn_locks.get(id)
            == s.txn_locks.get(id),
        run_after.txn == run.txn,
        run_after.reads == run.reads,
        run_after.written == run.written,
{
}

/// When a transaction is done, each worker that granted it a lock is told to release it.
pub proof fn law_done_releases_all(
    s: ManagerState,
    run: TxnRunModel,
    reply: Option<MessageModel>,
    after: ManagerState,
    run_after: TxnRunModel,
    out: Seq<Posted>,
    info: LockWorkerModel,
)
    requires
        s.steps(run, reply, after, run_after, out),
        run_after.phase is Done,
        after.txn_locks[run.txn.id].contains(info),
    ensures
        out.contains(
            Posted {
                to: after.workers[info.worker_name],
                msg: MessageModel::VarLockRelease { txn: run.txn, required: run_after.required },
            },
        ),
{
    law_transaction_touches_own_locks(s, run, reply, after, run_after, out);
    let notice = after.release_notice(run_after, info);
    let from = lemma_done_by_release(s, run, reply, after, run_after, out);
    let tail = out.skip(from);
    let order = choose|order: Seq<LockWorkerModel>| #[trigger]
        is_listing(order, after.txn_locks[run_after.txn.id]) && tail == order.map_values(
            |i: LockWorkerModel| after.release_notice(run_after, i),
        );
    assert(order.to_set().contains(info));
    let k = choose|k: int| 0 <= k < order.len() && order[k] == info;
    assert(tail.len() == order.len());
    assert(tail[k] == notice);
    assert(tail[k] == out[from + k]);
    assert(out[from + k] == notice);
}

impl TxnRunModel {
    /// How many names are read at this point.
    pub open spec fn reads_done(self) -> int {
        match self.phase {
            TxnPhase::ReadLock(i) => i as int,
            TxnPhase::ReadValue(i) => i as int,
            TxnPhase::WriteLock(_) => self.reads.len() as int,
            TxnPhase::Done => self.reads.len() as int,
        }
    }

    /// The values at hand are those of the names that were read since the transaction last
    /// started, and of no others.
    pub open spec fn values_match_reads(self) -> bool {
        self.values.dom() == self.reads.take(self.reads_done()).to_set()
    }
}

/// Whatever the answers, a transaction has at each point exactly the values that it read
/// since it last started: every write is computed from all the names that it reads.
pub proof fn law_values_match_reads(
    s: ManagerState,
    run: TxnRunModel,
    reply: Option<MessageModel>,
    after: ManagerState,
    run_after: TxnRunModel,
    out: Seq<Posted>,
)
    requires
        run.wf(),
        run.values_match_reads(),
        s.steps(run, reply, after, run_after, out),
    ensures
        run_after.values_match_reads(),
{
    let l = run.reads;
    assert(l.take(0).to_set() =~= Set::<Seq<char>>::empty());
    assert(Map::<Seq<char>, Option<ValModel>>::empty().dom() =~= Set::<Seq<char>>::empty());
    match (run.phase, reply) {
        (
            TxnPhase::ReadValue(i),
            Some(MessageModel::UsrReadVarResult { result, result_preds, .. }),
        ) => {
            lemma_take_contains(l, i as int);
            assert(run_after.values.dom() =~= l.take(i + 1).to_set());
        },
        _ => {},
    }
}

/// Where a transaction begins, it has no value.
pub proof fn law_begins_without_values(
    s: ManagerState,
    txn: TxnModel,
    run: TxnRunModel,
    out: Seq<Posted>,
)
    requires
        s.begins(txn, run, out),
    ensures
        run.values_match_reads(),
{
    assert(run.reads.take(0).to_set() =~= Set::<Seq<char>>::empty());
    assert(run.values.dom() =~= Set::<Seq<char>>::empty());
}

/// A lock that is granted is recorded for the transaction, and no record is lost.
pub proof fn law_grant_recorded(
    s: ManagerState,
    run: TxnRunModel,
    reply: Option<MessageModel>,
    after: ManagerState,
    run_after: TxnRunModel,
    out: Seq<Posted>,
)
    requires
        s.steps(run, reply, after, run_after, out),
    ensures
        reply matches Some(MessageModel::VarLockGranted { from_name, .. }) ==> {
            let kind = if run.phase is WriteLock {
                LockKind::Write
            } else {
                LockKind::Read
            };
            &&& after.txn_locks.contains_key(run.txn.id)
            &&& after.txn_locks[run.txn.id].contains(run.lock_info(kind, from_name))
        },
        s.txn_locks.contains_key(run.txn.id) ==> after.txn_locks.contains_key(run.txn.id)
            && s.txn_locks[run.txn.id].subset_of(after.txn_locks[run.txn.id]),
{
}

/// A value is written only to a variable whose write lock was just granted for it, and it
/// is the value of the write's expression on the values read.
pub proof fn law_written_when_granted(
    s: ManagerState,
    run: TxnRunModel,
    reply: Option<MessageModel>,
    after: ManagerState,
    run_after: TxnRunModel,
    out: Seq<Posted>,
    k: int,
)
    requires
        s.can_step(run, reply),
        s.steps(run, reply, after, run_after, out),
        0 <= k < out.len(),
        out[k].msg is UsrWriteVarRequest,
    ensures
        run.phase is WriteLock,
        ({
            let write = run.txn.writes[run.phase->WriteLock_0 as int];
            &&& reply matches Some(MessageModel::VarLockGranted { txn, from_name })
            &&& txn.id == run.txn.id
            &&& from_name == write.name
            &&& out[k] == (Posted {
                to: s.workers[write.name],
                msg: MessageModel::UsrWriteVarRequest {
                    txn: run.txn,
                    write_val: value_in(write.expr, run.values)->0,
                },
            })
        }),
{
    match (run.phase, reply) {
        (TxnPhase::ReadLock(_), Some(MessageModel::VarLockAbort { .. })) => {
            let notices = s.abort_notices(run, run.reads);
            if k < notices.len() {
                assert(notices[k].msg is VarLockAbort);
                assert(out[k] == notices[k]);
            } else {
                let n = notices.len() as int;
                assert(out.skip(n)[k - n] == out[k]);
                lemma_no_write_ahead(s, run.restarted(), 0, run_after, out.skip(n), k - n);
            }
        },
        (
            TxnPhase::ReadValue(i),
            Some(MessageModel::UsrReadVarResult { result, result_preds, .. }),
        ) => {
            let required = choose|required: Set<TxnModel>|
                {
                    &&& #[trigger] adds_latest(run.required, result_preds, required)
                    &&& s.reads_on(
                        run.with_value(i as int, result->0, required),
                        i + 1,
                        run_after,
                        out,
                    )
                };
            lemma_no_write_ahead(
                s,
                run.with_value(i as int, result->0, required),
                i + 1,
                run_after,
                out,
                k,
            );
        },
        (TxnPhase::WriteLock(j), Some(MessageModel::VarLockGranted { .. })) => {
            if k > 0 {
                assert(out.skip(1)[k - 1] == out[k]);
                lemma_no_write_after(after, run, j + 1, run_after, out.skip(1), k - 1);
            }
        },
        (TxnPhase::WriteLock(_), Some(MessageModel::VarLockAbort { .. })) => {
            let notices = s.abort_notices(run, run.reads) + s.abort_notices(run, run.written);
            if k < notices.len() {
                assert(notices[k].msg is VarLockAbort);
                assert(out[k] == notices[k]);
            } else {
                let n = notices.len() as int;
                assert(out.skip(n)[k - n] == out[k]);
                lemma_no_write_ahead(s, run.restarted(), 0, run_after, out.skip(n), k - n);
            }
        },
        (TxnPhase::WriteLock(j), None) => {
            lemma_no_write_after(s, run, j + 1, run_after, out, k);
        },
        _ => {},
    }
}

proof fn lemma_no_write_after(
    s: ManagerState,
    run: TxnRunModel,
    j: int,
    run_after: TxnRunModel,
    out: Seq<Posted>,
    k: int,
)
    requires
        s.writes_on(run, j, run_after, out),
        0 <= k < out.len(),
    ensures
        !(out[k].msg is UsrWriteVarRequest),
{
    if j >= run.txn.writes.len() {
        let order = choose|order: Seq<LockWorkerModel>| #[trigger]
            is_listing(order, s.txn_locks[run.txn.id]) && out == order.map_values(
                |info: LockWorkerModel| s.release_notice(run, info),
            );
        assert(out[k] == s.release_notice(run, order[k]));
    }
}

proof fn lemma_no_write_ahead(
    s: ManagerState,
    run: TxnRunModel,
    i: int,
    run_after: TxnRunModel,
    out: Seq<Posted>,
    k: int,
)
    requires
        s.reads_on(run, i, run_after, out),
        0 <= k < out.len(),
    ensures
        !(out[k].msg is UsrWriteVarRequest),
{
    if i >= run.reads.len() {
        lemma_no_write_after(s, run, 0, run_after, out, k);
    }
}

/// A refused lock leaves the transaction as it was at its beginning, with the workers of
/// all names that it reads told of the abort.
pub proof fn law_refusal_starts_over(
    s: ManagerState,
    run: TxnRunModel,
    reply: Option<MessageModel>,
    after: ManagerState,
    run_after: TxnRunModel,
    out: Seq<Posted>,
    i: int,
)
    requires
        s.steps(run, reply, after, run_after, out),
        reply matches Some(m) && m is VarLockAbort,
        0 <= i < run.reads.len(),
    ensures
        after == s,
        run_after.values == Map::<Seq<char>, Option<ValModel>>::empty(),
        run_after.required == Set::<TxnModel>::empty(),
        run_after.phase == TxnPhase::ReadLock(0),
        out.contains(
            Posted {
                to: s.workers[run.reads[i]],
                msg: MessageModel::VarLockAbort { txn: run.txn },
            },
        ),
{
    let first = s.abort_notices(run, run.reads);
    assert(first[i] == Posted {
        to: s.workers[run.reads[i]],
        msg: MessageModel::VarLockAbort { txn: run.txn },
    });
    assert(out[i] == first[i]) by {
        if run.phase is WriteLock {
            let notices = first + s.abort_notices(run, run.written);
            assert(notices[i] == first[i]);
        }
    }
}

proof fn lemma_releases_ignore_phase(s: ManagerState, a: TxnRunModel, b: TxnRunModel, out: Seq<Posted>)
    requires
        s.releases(a, out),
        a.txn == b.txn,
        a.required == b.required,
    ensures
        s.releases(b, out),
{
    let order = choose|order: Seq<LockWorkerModel>| #[trigger]
        is_listing(order, s.txn_locks[a.txn.id]) && out == order.map_values(
            |info: LockWorkerModel| s.release_notice(a, info),
        );
    assert(out =~= order.map_values(|info: LockWorkerModel| s.release_notice(b, info)));
}

proof fn lemma_done_by_release(
    s: ManagerState,
    run: TxnRunModel,
    reply: Option<MessageModel>,
    after: ManagerState,
    run_after: TxnRunModel,
    out: Seq<Posted>,
) -> (from: int)
    requires
        s.steps(run, reply, after, run_after, out),
        run_after.phase is Done,
    ensures
        0 <= from <= out.len(),
        after.releases(run_after, out.skip(from)),
{
    let n = run.reads.len() as int;
    let m = run.written.len() as int;
    assert(out.skip(0) =~= out);
    match (run.phase, reply) {
        (TxnPhase::ReadLock(_), Some(MessageModel::VarLockAbort { .. })) => {
            assert(s.abort_notices(run, run.reads).len() == n);
            assert(out.len() >= n);
            lemma_releases_ignore_phase(s, run.restarted(), run_after, out.skip(n));
            n
        },
        (
            TxnPhase::ReadValue(i),
            Some(MessageModel::UsrReadVarResult { result, result_preds, .. }),
        ) => {
            let required = choose|required: Set<TxnModel>|
                {
                    &&& #[trigger] adds_latest(run.required, result_preds, required)
                    &&& s.reads_on(
                        run.with_value(i as int, result->0, required),
                        i + 1,
                        run_after,
                        out,
                    )
                };
            lemma_releases_ignore_phase(
                s,
                run.with_value(i as int, result->0, required),
                run_after,
                out,
            );
            0
        },
        (TxnPhase::WriteLock(j), Some(MessageModel::VarLockGranted { .. })) => {
            lemma_releases_ignore_phase(after, run, run_after, out.skip(1));
            1
        },
        (TxnPhase::WriteLock(_), Some(MessageModel::VarLockAbort { .. })) => {
            let notices = s.abort_notices(run, run.reads) + s.abort_notices(run, run.written);
            assert(notices.len() == n + m);
            assert(out.len() >= n + m);
            lemma_releases_ignore_phase(s, run.restarted(), run_after, out.skip(n + m));
            n + m
        },
        (TxnPhase::WriteLock(_), None) => {
            lemma_releases_ignore_phase(s, run, run_after, out);
            0
        },
        _ => 0,
    }
}

impl Manager {
    fn has_var(&self, name: &String) -> (r: bool)
        ensures
            r == self.deep_view().has_var(name@),
    {
        match self.worker_kind_env.get(name) {
            Some(WorkerKind::Var) => self.senders_to_workers.contains_key(name),
            _ => false,
        }
    }

    fn has_workers(&self, names: &ListSet<String>) -> (r: bool)
        ensures
            r == self.deep_view().has_workers(names.listing()),
    {
        let ghost s = self.deep_view();
        let ghost l = names.listing();
        let n: usize = names.len();
        let mut i: usize = 0;
        while i < n
            invariant
                i <= n == l.len(),
                s == self.deep_view(),
                l == names.listing(),
                forall|j: int| 0 <= j < i ==> s.workers.contains_key(#[trigger] l[j]),
            decreases n - i,
        {
            if !self.senders_to_workers.contains_key(names.at(i)) {
                assert(!s.workers.contains_key(l[i as int]));
                return false;
            }
            i = i + 1;
        }
        true
    }

    fn has_vars(&self, names: &ListSet<String>) -> (r: bool)
        ensures
            r == (forall|n: Seq<char>| #[trigger]
                names.deep_view().contains(n) ==> self.deep_view().has_var(n)),
    {
        let ghost s = self.deep_view();
        let ghost l = names.listing();
        let n: usize = names.len();
        let mut i: usize = 0;
        while i < n
            invariant
                i <= n == l.len(),
                s == self.deep_view(),
                l == names.listing(),
                forall|j: int| 0 <= j < i ==> s.has_var(#[trigger] l[j]),
            decreases n - i,
        {
            if !self.has_var(names.at(i)) {
                assert(names.deep_view().contains(l[i as int]));
                return false;
            }
            i = i + 1;
        }
        assert forall|k: Seq<char>| #[trigger] names.deep_view().contains(k) implies s.has_var(
            k,
        ) by {
            assert(l.to_set().contains(k));
            let j = choose|j: int| 0 <= j < l.len() && l[j] == k;
            assert(s.has_var(l[j]));
        }
        true
    }

    fn knows_granters(&self, infos: &ListSet<LockWorkerInfo>) -> (r: bool)
        ensures
            r == (forall|info: LockWorkerModel| #[trigger]
                infos.deep_view().contains(info) ==> self.deep_view().workers.contains_key(
                    info.worker_name,
                )),
    {
        let ghost s = self.deep_view();
        let ghost l = infos.listing();
        let n: usize = infos.len();
        let mut i: usize = 0;
        while i < n
            invariant
                i <= n == l.len(),
                s == self.deep_view(),
                l == infos.listing(),
                forall|j: int| 0 <= j < i ==> s.workers.contains_key((#[trigger] l[j]).worker_name),
            decreases n - i,
        {
            let info = infos.at(i);
            if !self.senders_to_workers.contains_key(&info.worker_name) {
                assert(infos.deep_view().contains(l[i as int]));
                return false;
            }
            i = i + 1;
        }
        assert forall|info: LockWorkerModel| #[trigger]
            infos.deep_view().contains(info) implies s.workers.contains_key(info.worker_name) by {
            assert(l.to_set().contains(info));
            let j = choose|j: int| 0 <= j < l.len() && l[j] == info;
            assert(s.workers.contains_key(l[j].worker_name));
        }
        true
    }

    fn can_write(
        &self,
        txn: &Txn,
        values: &ListMap<String, Option<Val>>,
        j: usize,
        Ghost(run): Ghost<TxnRunModel>,
    ) -> (r: bool)
        requires
            run.txn == txn.deep_view(),
            run.values == values.deep_view(),
        ensures
            r == self.deep_view().can_write(run, j as int),
    {
        if j < txn.writes.len() {
            let write = &txn.writes[j];
            assert(run.txn.writes[j as int] == write.deep_view());
            self.has_var(&write.name) && evaluate_expr(&write.expr, values).is_some()
        } else {
            match self.txn_locks_map.get(&txn.id) {
                Some(infos) => self.knows_granters(infos),
                None => false,
            }
        }
    }

    fn can_read(
        &self,
        run: &TxnRun,
        values: &ListMap<String, Option<Val>>,
        i: usize,
        Ghost(m): Ghost<TxnRunModel>,
    ) -> (r: bool)
        requires
            m.txn == run.deep_view().txn,
            m.reads == run.deep_view().reads,
            m.values == values.deep_view(),
        ensures
            r == self.deep_view().can_read(m, i as int),
    {
        if i < run.names_read.len() {
            self.has_var(run.names_read.at(i))
        } else {
            self.can_write(&run.txn, values, 0, Ghost(m))
        }
    }

    /// Whether `handle_transaction` can begin the transaction.
    pub fn can_handle_transaction(&self, txn: &Txn) -> (r: bool)
        ensures
            r == self.deep_view().can_begin(txn.deep_view()),
    {
        let names = names_read_by(txn);
        if names.is_empty() {
            let values: ListMap<String, Option<Val>> = ListMap::new();
            self.can_write(
                txn,
                &values,
                0,
                Ghost(
                    TxnRunModel {
                        txn: txn.deep_view(),
                        reads: Seq::empty(),
                        written: Seq::empty(),
                        phase: TxnPhase::Done,
                        values: Map::empty(),
                        required: Set::empty(),
                    },
                ),
            )
        } else {
            self.has_vars(&names)
        }
    }

    /// Begins a transaction. The messages are to be sent; unless the transaction is done,
    /// the next message that comes in is for `step_transaction`.
    pub fn handle_transaction(&self, txn: &Txn) -> (r: (TxnRun, Vec<Envelope>))
        requires
            self.deep_view().can_begin(txn.deep_view()),
        ensures
            self.deep_view().begins(txn.deep_view(), r.0.deep_view(), r.1.deep_view()),
    {
        let mut run = TxnRun {
            txn: txn.dup(),
            names_read: names_read_by(txn),
            names_written: names_written_by(txn),
            phase: TxnPhase::Done,
            values: ListMap::new(),
            required: ListSet::new(),
        };
        let n: usize = run.names_read.len();
        let _m: usize = run.names_written.len();
        proof {
            let m = run.deep_view();
            if n > 0 {
                assert(names_read(txn.deep_view().writes).contains(m.reads[0]));
            } else {
                assert(m.reads.to_set() =~= Set::<Seq<char>>::empty());
            }
        }
        let out = self.read_single_var(&mut run, 0);
        (run, out)
    }

    /// Whether `step_transaction` can take the message.
    pub fn can_step_transaction(&self, run: &TxnRun, reply: &Option<Message>) -> (r: bool)
        requires
            run.deep_view().wf(),
        ensures
            r == self.deep_view().can_step(run.deep_view(), reply.deep_view()),
    {
        let ghost m = run.deep_view();
        let none: ListMap<String, Option<Val>> = ListMap::new();
        let _n: usize = run.names_read.len();
        let _k: usize = run.txn.writes.len();
        match (run.phase, reply) {
            (TxnPhase::ReadLock(i), Some(Message::VarLockGranted { txn, .. })) => {
                txn.id == run.txn.id && self.senders_to_workers.contains_key(run.names_read.at(i))
            },
            (TxnPhase::ReadLock(_), Some(Message::VarLockAbort { txn })) => {
                txn.id == run.txn.id && self.has_workers(&run.names_read) && self.can_read(
                    run,
                    &none,
                    0,
                    Ghost(m.restarted()),
                )
            },
            (
                TxnPhase::ReadValue(i),
                Some(Message::UsrReadVarResult { var_name, result, txn, .. }),
            ) => {
                if txn.id != run.txn.id || !var_name.eq(run.names_read.at(i)) {
                    return false;
                }
                match result {
                    Some(val) => {
                        let mut values = run.values.dup();
                        values.insert(var_name.clone(), Some(val.dup()));
                        self.can_read(
                            run,
                            &values,
                            i + 1,
                            Ghost(m.with_value(i as int, val.deep_view(), m.required)),
                        )
                    },
                    None => false,
                }
            },
            (TxnPhase::WriteLock(j), Some(Message::VarLockGranted { txn, from_name })) => {
                assert(m.txn.writes[j as int] == run.txn.writes[j as int].deep_view());
                if txn.id != run.txn.id || !from_name.eq(&run.txn.writes[j].name)
                    || !self.senders_to_workers.contains_key(from_name) {
                    return false;
                }
                if j + 1 < run.txn.writes.len() {
                    self.can_write(&run.txn, &run.values, j + 1, Ghost(m))
                } else {
                    let ghost s = self.deep_view();
                    let ghost g = s.with_granted(m, LockKind::Write, from_name@);
                    let ghost info = m.lock_info(LockKind::Write, from_name@);
                    let r: bool = match self.txn_locks_map.get(&run.txn.id) {
                        Some(infos) => self.knows_granters(infos),
                        None => true,
                    };
                    proof {
                        assert(g.txn_locks.contains_key(m.txn.id));
                        if r {
                            assert forall|x: LockWorkerModel| #[trigger]
                                g.txn_locks[m.txn.id].contains(x) implies g.workers.contains_key(
                                x.worker_name,
                            ) by {
                                if x != info {
                                    assert(s.txn_locks[m.txn.id].contains(x));
                                }
                            }
                        } else {
                            let x = choose|x: LockWorkerModel| #[trigger]
                                s.txn_locks[m.txn.id].contains(x) && !s.workers.contains_key(
                                    x.worker_name,
                                );
                            assert(g.txn_locks[m.txn.id].contains(x));
                        }
                    }
                    r
                }
            },
            (TxnPhase::WriteLock(_), Some(Message::VarLockAbort { txn })) => {
                txn.id == run.txn.id && self.has_workers(&run.names_read) && self.has_workers(
                    &run.names_written,
                ) && self.can_read(run, &none, 0, Ghost(m.restarted()))
            },
            (TxnPhase::WriteLock(j), None) => {
                self.can_write(&run.txn, &run.values, j + 1, Ghost(m))
            },
            _ => false,
        }
    }

    /// Brings a transaction one step further on the message that came in. The messages are
    /// to be sent; unless the transaction is done, it waits for the next one.
    pub fn step_transaction(&mut self, run: &mut TxnRun, reply: Option<Message>) -> (out: Vec<
        Envelope,
    >)
        requires
            old(run).deep_view().wf(),
            old(self).deep_view().can_step(old(run).deep_view(), reply.deep_view()),
        ensures
            final(run).deep_view().wf(),
            old(self).deep_view().steps(
                old(run).deep_view(),
                reply.deep_view(),
                final(self).deep_view(),
                final(run).deep_view(),
                out.deep_view(),
            ),
    {
        let ghost s = self.deep_view();
        let ghost m = run.deep_view();
        let _n: usize = run.names_read.len();
        let _k: usize = run.txn.writes.len();
        match (run.phase, reply) {
            (TxnPhase::ReadLock(i), Some(Message::VarLockGranted { from_name, .. })) => {
                let info = LockWorkerInfo {
                    lock: Lock { lock_kind: LockKind::Read, txn: run.txn.dup() },
                    worker_name: from_name,
                };
                self.record_lock(run.txn.id, info);
                let msg = Message::UsrReadVarRequest { txn: run.txn.dup() };
                let out = self.post(run.names_read.at(i), msg);
                run.phase = TxnPhase::ReadValue(i);
                out
            },
            (TxnPhase::ReadLock(_), Some(Message::VarLockAbort { .. })) => {
                let mut out = self.abort_notices(run, &run.names_read);
                self.start_over(run, &mut out);
                out
            },
            (
                TxnPhase::ReadValue(i),
                Some(Message::UsrReadVarResult { var_name, result, result_preds, .. }),
            ) => {
                let ghost preds = result_preds.deep_view();
                match latest(&result_preds) {
                    Some(p) => {
                        assert(is_latest(p.deep_view(), preds));
                        run.required.insert(p);
                    },
                    None => {},
                }
                let ghost required = run.required.deep_view();
                assert(adds_latest(m.required, preds, required));
                let ghost val = result.deep_view()->0;
                match result {
                    Some(val) => {
                        run.values.insert(var_name, Some(val));
                    },
                    None => {},
                }
                assert(run.deep_view() == m.with_value(i as int, val, required));
                let out = self.read_single_var(run, i + 1);
                proof {
                    let read = m.with_value(i as int, val, required);
                    assert(reply.deep_view() matches Some(
                        MessageModel::UsrReadVarResult { result: given, result_preds: got, .. },
                    ) && given == Some(val) && got == preds);
                    assert(adds_latest(m.required, preds, required) && s.reads_on(
                        read,
                        i + 1,
                        run.deep_view(),
                        out.deep_view(),
                    ));
                }
                out
            },
            (TxnPhase::WriteLock(j), Some(Message::VarLockGranted { from_name, .. })) => {
                assert(m.txn.writes[j as int] == run.txn.writes[j as int].deep_view());
                let mut out: Vec<Envelope> = Vec::new();
                match evaluate_expr(&run.txn.writes[j].expr, &run.values) {
                    Some(write_val) => {
                        out = self.post(
                            &from_name,
                            Message::UsrWriteVarRequest { txn: run.txn.dup(), write_val },
                        );
                    },
                    None => {},
                }
                let ghost first = out.deep_view();
                let info = LockWorkerInfo {
                    lock: Lock { lock_kind: LockKind::Write, txn: run.txn.dup() },
                    worker_name: from_name,
                };
                self.record_lock(run.txn.id, info);
                let mut rest = self.write_single_var(run, j + 1);
                let ghost more = rest.deep_view();
                append(&mut out, &mut rest);
                assert(out.deep_view().skip(1) =~= more);
                out
            },
            (TxnPhase::WriteLock(_), Some(Message::VarLockAbort { .. })) => {
                let mut out = self.abort_notices(run, &run.names_read);
                let mut more = self.abort_notices(run, &run.names_written);
                append(&mut out, &mut more);
                self.start_over(run, &mut out);
                out
            },
            (TxnPhase::WriteLock(j), None) => self.write_single_var(run, j + 1),
            _ => Vec::new(),
        }
    }

    /// A message to the worker under the name.
    fn post(&self, name: &String, msg: Message) -> (out: Vec<Envelope>)
        requires
            self.deep_view().workers.contains_key(name@),
        ensures
            out.deep_view() == seq![
                Posted { to: self.deep_view().workers[name@], msg: msg.deep_view() },
            ],
    {
        let ghost posted = Posted { to: self.deep_view().workers[name@], msg: msg.deep_view() };
        let mut out: Vec<Envelope> = Vec::new();
        match self.senders_to_workers.get(name) {
            Some(to) => {
                out.push(Envelope { to: *to, msg });
            },
            None => {},
        }
        assert(out.deep_view() =~= seq![posted]);
        out
    }

    fn abort_notices(&self, run: &TxnRun, names: &ListSet<String>) -> (out: Vec<Envelope>)
        requires
            self.deep_view().has_workers(names.listing()),
        ensures
            out.deep_view() == self.deep_view().abort_notices(run.deep_view(), names.listing()),
    {
        let ghost s = self.deep_view();
        let ghost m = run.deep_view();
        let ghost l = names.listing();
        let n: usize = names.len();
        let mut out: Vec<Envelope> = Vec::new();
        let mut i: usize = 0;
        assert(out.deep_view() =~= s.abort_notices(m, l.take(0)));
        while i < n
            invariant
                i <= n == l.len(),
                s == self.deep_view(),
                m == run.deep_view(),
                l == names.listing(),
                s.has_workers(l),
                out.deep_view() == s.abort_notices(m, l.take(i as int)),
            decreases n - i,
        {
            let ghost sent = out.deep_view();
            let ghost notice = Posted {
                to: s.workers[l[i as int]],
                msg: MessageModel::VarLockAbort { txn: m.txn },
            };
            assert(s.workers.contains_key(l[i as int]));
            let mut one = self.post(names.at(i), Message::VarLockAbort { txn: run.txn.dup() });
            append(&mut out, &mut one);
            proof {
                assert(out.deep_view() =~= sent.push(notice));
                assert(out.deep_view() =~= s.abort_notices(m, l.take(i + 1)));
            }
            i = i + 1;
        }
        assert(l.take(n as int) =~= l);
        out
    }

    /// Begins the transaction again. The messages go behind those in `out`.
    fn start_over(&self, run: &mut TxnRun, out: &mut Vec<Envelope>)
        requires
            old(run).deep_view().wf(),
            self.deep_view().can_read(old(run).deep_view().restarted(), 0),
        ensures
            final(run).deep_view().wf(),
            self.deep_view().starts_over(
                old(run).deep_view(),
                old(out).deep_view(),
                final(run).deep_view(),
                final(out).deep_view(),
            ),
    {
        let ghost m = run.deep_view();
        let ghost notices = out.deep_view();
        run.values = ListMap::new();
        run.required = ListSet::new();
        run.phase = TxnPhase::Done;
        let ghost bare = run.deep_view();
        let mut rest = self.read_single_var(run, 0);
        let ghost more = rest.deep_view();
        proof {
            assert(bare == (TxnRunModel { phase: TxnPhase::Done, ..m.restarted() }));
            lemma_reads_on_ignores_phase(
                self.deep_view(),
                bare,
                m.restarted(),
                0,
                run.deep_view(),
                more,
            );
        }
        append(out, &mut rest);
        assert(out.deep_view().skip(notices.len() as int) =~= more);
    }

    /// Goes on with the variable that is read at place `i`: asks for its lock.
    fn read_single_var(&self, run: &mut TxnRun, i: usize) -> (out: Vec<Envelope>)
        requires
            is_listing(
                old(run).deep_view().reads,
                names_read(old(run).deep_view().txn.writes),
            ),
            is_listing(
                old(run).deep_view().written,
                names_written(old(run).deep_view().txn.writes),
            ),
            self.deep_view().can_read(old(run).deep_view(), i as int),
        ensures
            final(run).deep_view().wf(),
            self.deep_view().reads_on(
                old(run).deep_view(),
                i as int,
                final(run).deep_view(),
                out.deep_view(),
            ),
    {
        let _k: usize = run.txn.writes.len();
        if i < run.names_read.len() {
            let msg = Message::VarLockRequest { lock_kind: LockKind::Read, txn: run.txn.dup() };
            let out = self.post(run.names_read.at(i), msg);
            run.phase = TxnPhase::ReadLock(i);
            out
        } else {
            self.write_single_var(run, 0)
        }
    }

    /// Goes on with the variable that is written at place `j`: asks for its lock. After the
    /// last one all locks are released.
    fn write_single_var(&self, run: &mut TxnRun, j: usize) -> (out: Vec<Envelope>)
        requires
            is_listing(
                old(run).deep_view().reads,
                names_read(old(run).deep_view().txn.writes),
            ),
            is_listing(
                old(run).deep_view().written,
                names_written(old(run).deep_view().txn.writes),
            ),
            self.deep_view().can_write(old(run).deep_view(), j as int),
        ensures
            final(run).deep_view().wf(),
            self.deep_view().writes_on(
                old(run).deep_view(),
                j as int,
                final(run).deep_view(),
                out.deep_view(),
            ),
    {
        let _n: usize = run.names_read.len();
        if j < run.txn.writes.len() {
            assert(run.deep_view().txn.writes[j as int] == run.txn.writes[j as int].deep_view());
            let msg = Message::VarLockRequest { lock_kind: LockKind::Write, txn: run.txn.dup() };
            let out = self.post(&run.txn.writes[j].name, msg);
            run.phase = TxnPhase::WriteLock(j);
            out
        } else {
            let out = self.release_var_locks(run);
            run.phase = TxnPhase::Done;
            out
        }
    }

    /// The release of each lock that the transaction was granted.
    fn release_var_locks(&self, run: &TxnRun) -> (out: Vec<Envelope>)
        requires
            self.deep_view().can_release(run.deep_view().txn.id),
        ensures
            self.deep_view().releases(run.deep_view(), out.deep_view()),
    {
        let ghost s = self.deep_view();
        let ghost m = run.deep_view();
        let ghost f = |info: LockWorkerModel| s.release_notice(m, info);
        let mut out: Vec<Envelope> = Vec::new();
        match self.txn_locks_map.get(&run.txn.id) {
            None => {},
            Some(infos) => {
                let ghost l = infos.listing();
                let n: usize = infos.len();
                let mut i: usize = 0;
                assert(out.deep_view() =~= l.take(0).map_values(f));
                while i < n
                    invariant
                        i <= n == l.len(),
                        s == self.deep_view(),
                        m == run.deep_view(),
                        s.can_release(m.txn.id),
                        infos.deep_view() == s.txn_locks[m.txn.id],
                        l == infos.listing(),
                        f == (|info: LockWorkerModel| s.release_notice(m, info)),
                        out.deep_view() == l.take(i as int).map_values(f),
                    decreases n - i,
                {
                    let ghost sent = out.deep_view();
                    let info = infos.at(i);
                    assert(s.txn_locks[m.txn.id].contains(l[i as int]));
                    let msg = Message::VarLockRelease {
                        txn: run.txn.dup(),
                        required: run.required.dup(),
                    };
                    let mut one = self.post(&info.worker_name, msg);
                    append(&mut out, &mut one);
                    proof {
                        assert(out.deep_view() =~= sent.push(f(l[i as int])));
                        assert(out.deep_view() =~= l.take(i + 1).map_values(f));
                    }
                    i = i + 1;
                }
                assert(l.take(n as int) =~= l);
                assert(is_listing(l, s.txn_locks[m.txn.id]));
            },
        }
        out
    }
}

proof fn lemma_reads_on_ignores_phase(
    s: ManagerState,
    a: TxnRunModel,
    b: TxnRunModel,
    i: int,
    run_after: TxnRunModel,
    out: Seq<Posted>,
)
    requires
        a == (TxnRunModel { phase: a.phase, ..b }),
        s.reads_on(a, i, run_after, out),
    ensures
        s.reads_on(b, i, run_after, out),
{
    if i >= a.reads.len() && a.txn.writes.len() == 0 {
        lemma_releases_ignore_phase(s, a, b, out);
    }
}

fn append(out: &mut Vec<Envelope>, more: &mut Vec<Envelope>)
    ensures
        final(out).deep_view() == old(out).deep_view() + old(more).deep_view(),
{
    let ghost a = out.deep_view();
    let ghost b = more.deep_view();
    out.append(more);
    assert(out.deep_view() =~= a + b);
}

fn names_read_by(txn: &Txn) -> (r: ListSet<String>)
    ensures
        r.deep_view() == names_read(txn.deep_view().writes),
{
    let ghost w = txn.deep_view().writes;
    let mut r: ListSet<String> = ListSet::new();
    let mut i: usize = 0;
    while i < txn.writes.len()
        invariant
            i <= txn.writes.len() == w.len(),
            w == txn.deep_view().writes,
            forall|n: Seq<char>| #[trigger]
                r.deep_view().contains(n) <==> exists|j: int|
                    0 <= j < i && names_in((#[trigger] w[j]).expr).contains(n),
        decreases txn.writes.len() - i,
    {
        let ghost before = r.deep_view();
        assert(w[i as int] == txn.writes[i as int].deep_view());
        let names = txn.writes[i].expr.names_contained();
        r.extend(&names);
        assert forall|n: Seq<char>| #[trigger]
            r.deep_view().contains(n) <==> exists|j: int|
                0 <= j < i + 1 && names_in((#[trigger] w[j]).expr).contains(n) by {
            if before.contains(n) {
                let j = choose|j: int| 0 <= j < i && names_in((#[trigger] w[j]).expr).contains(n);
                assert(names_in(w[j].expr).contains(n));
            }
            if names_in(w[i as int].expr).contains(n) {
                assert(r.deep_view().contains(n));
            }
        }
        i = i + 1;
    }
    assert(r.deep_view() =~= names_read(w));
    r
}

fn names_written_by(txn: &Txn) -> (r: ListSet<String>)
    ensures
        r.deep_view() == names_written(txn.deep_view().writes),
{
    let ghost w = txn.deep_view().writes;
    let mut r: ListSet<String> = ListSet::new();
    let mut i: usize = 0;
    while i < txn.writes.len()
        invariant
            i <= txn.writes.len() == w.len(),
            w == txn.deep_view().writes,
            forall|n: Seq<char>| #[trigger]
                r.deep_view().contains(n) <==> exists|j: int|
                    0 <= j < i && (#[trigger] w[j]).name == n,
        decreases txn.writes.len() - i,
    {
        let ghost before = r.deep_view();
        assert(w[i as int] == txn.writes[i as int].deep_view());
        r.insert(txn.writes[i].name.clone());
        assert forall|n: Seq<char>| #[trigger]
            r.deep_view().contains(n) <==> exists|j: int|
                0 <= j < i + 1 && (#[trigger] w[j]).name == n by {
            if before.contains(n) {
                let j = choose|j: int| 0 <= j < i && (#[trigger] w[j]).name == n;
                assert(w[j].name == n);
            }
            if w[i as int].name == n {
                assert(r.deep_view().contains(n));
            }
        }
        i = i + 1;
    }
    assert(r.deep_view() =~= names_written(w));
    r
}

/// One of the latest of the transactions, if there is any.
fn latest(txns: &ListSet<Txn>) -> (r: Option<Txn>)
    ensures
        r is None <==> txns.deep_view() == Set::<TxnModel>::empty(),
        r matches Some(p) ==> is_latest(p.deep_view(), txns.deep_view()),
{
    if txns.is_empty() {
        return None;
    }
    let ghost l = txns.listing();
    let n: usize = txns.len();
    let mut best: usize = 0;
    let mut i: usize = 1;
    while i < n
        invariant
            best < i <= n == l.len(),
            l == txns.listing(),
            forall|j: int| 0 <= j < i ==> (#[trigger] l[j]).id.time <= l[best as int].id.time,
        decreases n - i,
    {
        if txns.at(i).id.time >= txns.at(best).id.time {
            best = i;
        }
        i = i + 1;
    }
    let p = txns.at(best).dup();
    assert forall|q: TxnModel| #[trigger] txns.deep_view().contains(q) implies q.id.time
        <= p.deep_view().id.time by {
        assert(l.to_set().contains(q));
        let j = choose|j: int| 0 <= j < l.len() && l[j] == q;
        assert(l[j].id.time <= l[best as int].id.time);
    }
    Some(p)
}

} // verus!
