//! Locks that transactions hold on workers and on nodes.

use vstd::prelude::*;

use crate::collections::{Dup, Entry, ListSet, Test};
use crate::transaction::{Txn, TxnId};
#[allow(unused_imports)]
use crate::transaction::TxnModel;

verus! {

#[derive(Debug, Clone, Copy, PartialEq, Eq, Hash, Structural)]
pub enum LockKind {
    Read,
    Write,
    Upgrade,
}

#[derive(Debug, PartialEq, Eq, Hash)]
pub struct Lock {
    pub lock_kind: LockKind,
    pub txn: Txn,
}

/// The model of a lock.
pub struct LockModel {
    pub lock_kind: LockKind,
    pub txn: TxnModel,
}

#[derive(Debug, PartialEq, Eq, Hash)]
pub struct LockWorkerInfo {
    pub lock: Lock,
    pub worker_name: String,
}

/// The model of a lock together with the worker that granted it.
pub struct LockWorkerModel {
    pub lock: LockModel,
    pub worker_name: Seq<char>,
}

#[derive(Debug, Clone, Copy, PartialEq, Eq, Structural)]
pub enum LockType {
    Read(TxnId),
    Write(TxnId),
    Upgrade(TxnId),
}

impl DeepView for Lock {
    type V = LockModel;

    open spec fn deep_view(&self) -> LockModel {
        LockModel { lock_kind: self.lock_kind, txn: self.txn.deep_view() }
    }
}

impl DeepView for LockWorkerInfo {
    type V = LockWorkerModel;

    open spec fn deep_view(&self) -> LockWorkerModel {
        LockWorkerModel { lock: self.lock.deep_view(), worker_name: self.worker_name@ }
    }
}

impl DeepView for LockType {
    type V = LockType;

    open spec fn deep_view(&self) -> LockType {
        *self
    }
}

impl Dup for Lock {
    fn dup(&self) -> (r: Self) {
        Lock { lock_kind: self.lock_kind, txn: self.txn.dup() }
    }
}

impl Clone for Lock {
    fn clone(&self) -> (r: Self)
        ensures
            r.deep_view() == self.deep_view(),
    {
        self.dup()
    }
}

impl Entry for Lock {
    fn same(&self, other: &Self) -> (r: bool) {
        self.lock_kind == other.lock_kind && self.txn.same(&other.txn)
    }
}

impl Dup for LockWorkerInfo {
    fn dup(&self) -> (r: Self) {
        LockWorkerInfo { lock: self.lock.dup(), worker_name: self.worker_name.clone() }
    }
}

impl Clone for LockWorkerInfo {
    fn clone(&self) -> (r: Self)
        ensures
            r.deep_view() == self.deep_view(),
    {
        self.dup()
    }
}

impl Entry for LockWorkerInfo {
    fn same(&self, other: &Self) -> (r: bool) {
        self.lock.same(&other.lock) && self.worker_name.eq(&other.worker_name)
    }
}

impl Dup for LockType {
    fn dup(&self) -> (r: Self) {
        *self
    }
}

/// Tests on locks.
pub enum LockTest {
    OfKind(LockKind),
    NotOfKind(LockKind),
    NotOf(TxnId),
    NotReadOf(TxnId),
}

impl Test<Lock> for LockTest {
    open spec fn passes(&self, x: LockModel) -> bool {
        match self {
            LockTest::OfKind(kind) => x.lock_kind == *kind,
            LockTest::NotOfKind(kind) => x.lock_kind != *kind,
            LockTest::NotOf(id) => x.txn.id != *id,
            LockTest::NotReadOf(id) => !(x.lock_kind == LockKind::Read && x.txn.id == *id),
        }
    }

    fn test(&self, x: &Lock) -> (r: bool) {
        match self {
            LockTest::OfKind(kind) => x.lock_kind == *kind,
            LockTest::NotOfKind(kind) => x.lock_kind != *kind,
            LockTest::NotOf(id) => x.txn.id != *id,
            LockTest::NotReadOf(id) => !(x.lock_kind == LockKind::Read && x.txn.id == *id),
        }
    }
}

/// Some lock in `locks` is of kind `kind`.
pub open spec fn some_of_kind(locks: Set<LockModel>, kind: LockKind) -> bool {
    exists|l: LockModel| #[trigger] locks.contains(l) && l.lock_kind == kind
}

/// The transaction `id` holds a lock of kind `kind`.
pub open spec fn holds(locks: Set<LockModel>, kind: LockKind, id: TxnId) -> bool {
    exists|l: LockModel| #[trigger] locks.contains(l) && l.lock_kind == kind && l.txn.id == id
}

/// A transaction older than `id` holds a lock of kind `kind`.
pub open spec fn older_holds(locks: Set<LockModel>, kind: LockKind, id: TxnId) -> bool {
    exists|l: LockModel| #[trigger]
        locks.contains(l) && l.lock_kind == kind && l.txn.id.time < id.time
}

/// `l` is in `locks`, and no lock there belongs to an older transaction.
pub open spec fn is_oldest(l: LockModel, locks: Set<LockModel>) -> bool {
    &&& locks.contains(l)
    &&& forall|m: LockModel| #[trigger] locks.contains(m) ==> l.txn.id.time <= m.txn.id.time
}

pub fn has_kind(locks: &ListSet<Lock>, kind: LockKind) -> (r: bool)
    ensures
        r == some_of_kind(locks.deep_view(), kind),
{
    let n: usize = locks.len();
    let mut i: usize = 0;
    while i < n
        invariant
            i <= n == locks.listing().len(),
            forall|j: int| 0 <= j < i ==> (#[trigger] locks.listing()[j]).lock_kind != kind,
        decreases n - i,
    {
        if locks.at(i).lock_kind == kind {
            return true;
        }
        i = i + 1;
    }
    false
}

/// A lock of kind `kind` that the transaction `id` holds.
pub fn find_held(locks: &ListSet<Lock>, kind: LockKind, id: TxnId) -> (r: Option<Lock>)
    ensures
        r is Some <==> holds(locks.deep_view(), kind, id),
        r matches Some(l) ==> locks.deep_view().contains(l.deep_view()) && l.lock_kind == kind
            && l.txn.id == id,
{
    let n: usize = locks.len();
    let mut i: usize = 0;
    while i < n
        invariant
            i <= n == locks.listing().len(),
            forall|j: int|
                0 <= j < i ==> (#[trigger] locks.listing()[j]).lock_kind != kind
                    || locks.listing()[j].txn.id != id,
        decreases n - i,
    {
        let l = locks.at(i);
        if l.lock_kind == kind && l.txn.id == id {
            return Some(l.dup());
        }
        i = i + 1;
    }
    None
}

/// Whether a transaction older than `id` holds a lock of kind `kind`.
pub fn has_older(locks: &ListSet<Lock>, kind: LockKind, id: TxnId) -> (r: bool)
    ensures
        r == older_holds(locks.deep_view(), kind, id),
{
    let n: usize = locks.len();
    let mut i: usize = 0;
    while i < n
        invariant
            i <= n == locks.listing().len(),
            forall|j: int|
                0 <= j < i ==> (#[trigger] locks.listing()[j]).lock_kind != kind
                    || locks.listing()[j].txn.id.time >= id.time,
        decreases n - i,
    {
        let l = locks.at(i);
        if l.lock_kind == kind && l.txn.id.time < id.time {
            return true;
        }
        i = i + 1;
    }
    false
}

/// A lock of the oldest transaction, if there is any lock.
pub fn oldest(locks: &ListSet<Lock>) -> (r: Option<Lock>)
    ensures
        r is None <==> locks.deep_view() == Set::<LockModel>::empty(),
        r matches Some(l) ==> is_oldest(l.deep_view(), locks.deep_view()),
{
    if locks.is_empty() {
        return None;
    }
    let n: usize = locks.len();
    let mut best: usize = 0;
    let mut i: usize = 1;
    while i < n
        invariant
            best < i <= n == locks.listing().len(),
            forall|j: int|
                0 <= j < i ==> locks.listing()[best as int].txn.id.time <= (
                #[trigger] locks.listing()[j]).txn.id.time,
        decreases n - i,
    {
        if locks.at(i).txn.id.time < locks.at(best).txn.id.time {
            best = i;
        }
        i = i + 1;
    }
    let l = locks.at(best).dup();
    assert(locks.deep_view().contains(l.deep_view()));
    Some(l)
}

} // verus!
