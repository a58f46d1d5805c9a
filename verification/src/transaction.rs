//! Transactions and their identifiers.

use vstd::prelude::*;

use crate::collections::{Dup, Entry};
use crate::expr::Expr;
#[allow(unused_imports)]
use crate::expr::ExprModel;

verus! {

/// The identifier of a transaction. The older of two transactions has the smaller one.
#[derive(Debug, Clone, Copy, PartialEq, Eq, Hash, Structural)]
pub struct TxnId {
    pub time: u64,
}

#[derive(Debug, PartialEq, Eq, Hash)]
pub struct WriteToName {
    pub name: String,
    pub expr: Expr,
}

/// The model of a write.
pub struct WriteModel {
    pub name: Seq<char>,
    pub expr: ExprModel,
}

#[derive(Debug, PartialEq, Eq, Hash)]
pub struct Txn {
    pub id: TxnId,
    pub writes: Vec<WriteToName>,
}

/// The model of a transaction.
pub struct TxnModel {
    pub id: TxnId,
    pub writes: Seq<WriteModel>,
}

impl DeepView for TxnId {
    type V = TxnId;

    open spec fn deep_view(&self) -> TxnId {
        *self
    }
}

impl DeepView for WriteToName {
    type V = WriteModel;

    open spec fn deep_view(&self) -> WriteModel {
        WriteModel { name: self.name@, expr: self.expr.deep_view() }
    }
}

impl DeepView for Txn {
    type V = TxnModel;

    open spec fn deep_view(&self) -> TxnModel {
        TxnModel { id: self.id, writes: self.writes.deep_view() }
    }
}

impl TxnId {
    pub fn new(time: u64) -> (r: Self)
        ensures
            r.time == time,
    {
        TxnId { time }
    }
}

impl Dup for TxnId {
    fn dup(&self) -> (r: Self) {
        *self
    }
}

impl Entry for TxnId {
    fn same(&self, other: &Self) -> (r: bool) {
        *self == *other
    }
}

impl Dup for WriteToName {
    fn dup(&self) -> (r: Self) {
        WriteToName { name: self.name.clone(), expr: self.expr.dup() }
    }
}

impl Clone for WriteToName {
    fn clone(&self) -> (r: Self)
        ensures
            r.deep_view() == self.deep_view(),
    {
        self.dup()
    }
}

impl Entry for WriteToName {
    fn same(&self, other: &Self) -> (r: bool) {
        self.name.eq(&other.name) && self.expr.same(&other.expr)
    }
}

impl Dup for Txn {
    fn dup(&self) -> (r: Self) {
        Txn { id: self.id, writes: self.writes.dup() }
    }
}

impl Clone for Txn {
    fn clone(&self) -> (r: Self)
        ensures
            r.deep_view() == self.deep_view(),
    {
        self.dup()
    }
}

impl Entry for Txn {
    fn same(&self, other: &Self) -> (r: bool) {
        if self.id != other.id || self.writes.len() != other.writes.len() {
            proof {
                if self.writes.deep_view() == other.writes.deep_view() {
                    assert(self.writes.deep_view().len() == other.writes.deep_view().len());
                }
            }
            return false;
        }
        let mut i: usize = 0;
        while i < self.writes.len()
            invariant
                i <= self.writes.len(),
                self.writes.len() == other.writes.len(),
                self.id == other.id,
                forall|j: int| 0 <= j < i ==> (#[trigger] self.writes[j]).deep_view()
                    == other.writes[j].deep_view(),
            decreases self.writes.len() - i,
        {
            if !self.writes[i].same(&other.writes[i]) {
                assert(self.writes.deep_view()[i as int] != other.writes.deep_view()[i as int]);
                return false;
            }
            i = i + 1;
        }
        assert(self.writes.deep_view() =~= other.writes.deep_view());
        true
    }
}

} // verus!
