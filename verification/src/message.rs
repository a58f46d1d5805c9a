//! Messages between workers, managers and peers, and the data that they carry.

use vstd::prelude::*;

use crate::collections::{Dup, Entry, ListMap, ListSet};
use crate::expr::{Expr, Val};
#[allow(unused_imports)]
use crate::expr::{ExprModel, ValModel};
use crate::lock::LockKind;
use crate::transaction::{Txn, TxnId};
#[allow(unused_imports)]
use crate::transaction::TxnModel;

verus! {

/// The capacity of a channel.
pub const BUFFER_SIZE: usize = 1024;

/// The address of a channel. The program that runs the workers keeps the sending half
/// of each channel under its address.
#[derive(Debug, Clone, Copy, PartialEq, Eq, Structural)]
pub struct Endpoint {
    pub id: u64,
}

impl DeepView for Endpoint {
    type V = Endpoint;

    open spec fn deep_view(&self) -> Endpoint {
        *self
    }
}

impl Dup for Endpoint {
    fn dup(&self) -> (r: Self) {
        *self
    }
}

#[derive(Debug, Clone, Copy, PartialEq, Eq, Structural)]
pub enum WorkerKind {
    Var,
    Def,
}

impl DeepView for WorkerKind {
    type V = WorkerKind;

    open spec fn deep_view(&self) -> WorkerKind {
        *self
    }
}

impl Dup for WorkerKind {
    fn dup(&self) -> (r: Self) {
        *self
    }
}

/// New code for some nodes, and the nodes whose earlier code it replaces.
#[derive(Debug)]
pub struct CodeUpdate {
    pub nodes_to_modify: ListSet<String>,
    pub new_code: Vec<(String, Expr)>,
}

/// The model of a code update.
pub struct CodeUpdateModel {
    pub nodes_to_modify: Set<Seq<char>>,
    pub new_code: Seq<(Seq<char>, ExprModel)>,
}

impl DeepView for CodeUpdate {
    type V = CodeUpdateModel;

    open spec fn deep_view(&self) -> CodeUpdateModel {
        CodeUpdateModel {
            nodes_to_modify: self.nodes_to_modify.deep_view(),
            new_code: self.new_code.deep_view(),
        }
    }
}

impl Dup for (String, Expr) {
    fn dup(&self) -> (r: Self) {
        (self.0.clone(), self.1.dup())
    }
}

impl Dup for CodeUpdate {
    fn dup(&self) -> (r: Self) {
        CodeUpdate { nodes_to_modify: self.nodes_to_modify.dup(), new_code: self.new_code.dup() }
    }
}

impl Clone for CodeUpdate {
    fn clone(&self) -> (r: Self)
        ensures
            r.deep_view() == self.deep_view(),
    {
        self.dup()
    }
}

/// A change of a node's value, with the transactions that led to it.
#[derive(Debug, PartialEq, Eq)]
pub struct PropaChange {
    pub from_name: String,
    pub new_val: Val,
    pub preds: ListSet<Txn>,
}

/// The model of a change.
pub struct PropaChangeModel {
    pub from_name: Seq<char>,
    pub new_val: ValModel,
    pub preds: Set<TxnModel>,
}

impl DeepView for PropaChange {
    type V = PropaChangeModel;

    open spec fn deep_view(&self) -> PropaChangeModel {
        PropaChangeModel {
            from_name: self.from_name@,
            new_val: self.new_val.deep_view(),
            preds: self.preds.deep_view(),
        }
    }
}

impl Dup for PropaChange {
    fn dup(&self) -> (r: Self) {
        PropaChange {
            from_name: self.from_name.clone(),
            new_val: self.new_val.dup(),
            preds: self.preds.dup(),
        }
    }
}

impl Clone for PropaChange {
    fn clone(&self) -> (r: Self)
        ensures
            r.deep_view() == self.deep_view(),
    {
        self.dup()
    }
}

/// A transaction at an input of a definition.
#[derive(Debug, PartialEq, Eq, Hash)]
pub struct TxnAndName {
    pub txn: Txn,
    pub name: String,
}

/// The model of a transaction at an input.
pub struct TxnAndNameModel {
    pub txn: TxnModel,
    pub name: Seq<char>,
}

impl DeepView for TxnAndName {
    type V = TxnAndNameModel;

    open spec fn deep_view(&self) -> TxnAndNameModel {
        TxnAndNameModel { txn: self.txn.deep_view(), name: self.name@ }
    }
}

impl Dup for TxnAndName {
    fn dup(&self) -> (r: Self) {
        TxnAndName { txn: self.txn.dup(), name: self.name.clone() }
    }
}

impl Clone for TxnAndName {
    fn clone(&self) -> (r: Self)
        ensures
            r.deep_view() == self.deep_view(),
    {
        self.dup()
    }
}

impl Entry for TxnAndName {
    fn same(&self, other: &Self) -> (r: bool) {
        self.txn.same(&other.txn) && self.name.eq(&other.name)
    }
}

/// A change that waits to be applied, with the changes that it has to be applied with.
#[derive(Debug, PartialEq, Eq)]
pub struct _PropaChange {
    pub propa_id: i32,
    pub propa_change: PropaChange,
    pub deps: ListSet<TxnAndName>,
}

/// The model of a waiting change.
pub struct WaitingChange {
    pub propa_id: i32,
    pub propa_change: PropaChangeModel,
    pub deps: Set<TxnAndNameModel>,
}

impl DeepView for _PropaChange {
    type V = WaitingChange;

    open spec fn deep_view(&self) -> WaitingChange {
        WaitingChange {
            propa_id: self.propa_id,
            propa_change: self.propa_change.deep_view(),
            deps: self.deps.deep_view(),
        }
    }
}

impl Dup for _PropaChange {
    fn dup(&self) -> (r: Self) {
        _PropaChange {
            propa_id: self.propa_id,
            propa_change: self.propa_change.dup(),
            deps: self.deps.dup(),
        }
    }
}

impl Clone for _PropaChange {
    fn clone(&self) -> (r: Self)
        ensures
            r.deep_view() == self.deep_view(),
    {
        self.dup()
    }
}

#[derive(Debug, Clone)]
pub enum Message {
    UsrReadVarRequest { txn: Txn },
    UsrReadVarResult { var_name: String, result: Option<Val>, result_preds: ListSet<Txn>, txn: Txn },
    UsrWriteVarRequest { txn: Txn, write_val: Val },
    UsrUpdateVarRequest { txn: Txn, update_val: Val },
    UsrReadDefRequest { txn: Txn, required: ListSet<Txn> },
    UsrReadDefResult { txn: Txn, name: String, result: Option<Val>, result_pred: ListSet<Txn> },
    DevReadVarRequest { txn: Txn },
    DevReadDefRequest { txn: Txn },
    DevReadDefResult { name: String, txn: Txn },
    DevWriteDefRequest { txn: Txn, write_expr: Expr },
    VarLockRequest { lock_kind: LockKind, txn: Txn },
    VarLockRelease { txn: Txn, required: ListSet<Txn> },
    VarLockGranted { txn: Txn, from_name: String },
    VarLockAbort { txn: Txn },
    DefLockRequest { lock_kind: LockKind, txn: Txn },
    DefLockRelease { txn: Txn },
    DefLockGranted { txn: Txn },
    DefLockAbort { txn: Txn },
    Propagate { propa_change: PropaChange },
    Subscribe { subscribe_who: String, subscriber_name: String, sender_to_subscriber: Endpoint },
    DeSubscribe { desubscribe_who: String, desubscriber_name: String },
    SubscriptionGranted { name: String, value: Option<Val>, provides: ListSet<Txn>, trans_dep_set: ListSet<String> },
    DeSubscriptionGranted { name: String },
    DefUpdate { txn: Txn, update_expr: Expr, expr_dependencies: ListMap<String, Option<Val>> },
    DefWorkerUpdate { node: String, expr: Expr },
    OnUpdate { txn: Txn, from_name: String, from_value: Option<Val> },
    DistributedCodeUpdate { code_update: CodeUpdate, txn_id: TxnId, sender_manager_id: String },
    DistributedCodeUpdateAck { txn_id: TxnId, success: bool, manager_id: String },
    DistributedSubscribe { remote_node: String, subscriber_node: String, subscriber_sender: Endpoint },
}

/// The model of a message.
pub enum MessageModel {
    UsrReadVarRequest { txn: TxnModel },
    UsrReadVarResult { var_name: Seq<char>, result: Option<ValModel>, result_preds: Set<TxnModel>, txn: TxnModel },
    UsrWriteVarRequest { txn: TxnModel, write_val: ValModel },
    UsrUpdateVarRequest { txn: TxnModel, update_val: ValModel },
    UsrReadDefRequest { txn: TxnModel, required: Set<TxnModel> },
    UsrReadDefResult { txn: TxnModel, name: Seq<char>, result: Option<ValModel>, result_pred: Set<TxnModel> },
    DevReadVarRequest { txn: TxnModel },
    DevReadDefRequest { txn: TxnModel },
    DevReadDefResult { name: Seq<char>, txn: TxnModel },
    DevWriteDefRequest { txn: TxnModel, write_expr: ExprModel },
    VarLockRequest { lock_kind: LockKind, txn: TxnModel },
    VarLockRelease { txn: TxnModel, required: Set<TxnModel> },
    VarLockGranted { txn: TxnModel, from_name: Seq<char> },
    VarLockAbort { txn: TxnModel },
    DefLockRequest { lock_kind: LockKind, txn: TxnModel },
    DefLockRelease { txn: TxnModel },
    DefLockGranted { txn: TxnModel },
    DefLockAbort { txn: TxnModel },
    Propagate { propa_change: PropaChangeModel },
    Subscribe { subscribe_who: Seq<char>, subscriber_name: Seq<char>, sender_to_subscriber: Endpoint },
    DeSubscribe { desubscribe_who: Seq<char>, desubscriber_name: Seq<char> },
    SubscriptionGranted { name: Seq<char>, value: Option<ValModel>, provides: Set<TxnModel>, trans_dep_set: Set<Seq<char>> },
    DeSubscriptionGranted { name: Seq<char> },
    DefUpdate { txn: TxnModel, update_expr: ExprModel, expr_dependencies: Map<Seq<char>, Option<ValModel>> },
    DefWorkerUpdate { node: Seq<char>, expr: ExprModel },
    OnUpdate { txn: TxnModel, from_name: Seq<char>, from_value: Option<ValModel> },
    DistributedCodeUpdate { code_update: CodeUpdateModel, txn_id: TxnId, sender_manager_id: Seq<char> },
    DistributedCodeUpdateAck { txn_id: TxnId, success: bool, manager_id: Seq<char> },
    DistributedSubscribe { remote_node: Seq<char>, subscriber_node: Seq<char>, subscriber_sender: Endpoint },
}

impl DeepView for Message {
    type V = MessageModel;

    open spec fn deep_view(&self) -> MessageModel {
        match self {
            Message::UsrReadVarRequest { txn } => MessageModel::UsrReadVarRequest {
                txn: txn.deep_view(),
            },
            Message::UsrReadVarResult { var_name, result, result_preds, txn } => MessageModel::UsrReadVarResult {
                var_name: var_name@,
                result: result.deep_view(),
                result_preds: result_preds.deep_view(),
                txn: txn.deep_view(),
            },
            Message::UsrWriteVarRequest { txn, write_val } => MessageModel::UsrWriteVarRequest {
                txn: txn.deep_view(),
                write_val: write_val.deep_view(),
            },
            Message::UsrUpdateVarRequest { txn, update_val } => MessageModel::UsrUpdateVarRequest {
                txn: txn.deep_view(),
                update_val: update_val.deep_view(),
            },
            Message::UsrReadDefRequest { txn, required } => MessageModel::UsrReadDefRequest {
                txn: txn.deep_view(),
                required: required.deep_view(),
            },
            Message::UsrReadDefResult { txn, name, result, result_pred } => MessageModel::UsrReadDefResult {
                txn: txn.deep_view(),
                name: name@,
                result: result.deep_view(),
                result_pred: result_pred.deep_view(),
            },
            Message::DevReadVarRequest { txn } => MessageModel::DevReadVarRequest {
                txn: txn.deep_view(),
            },
            Message::DevReadDefRequest { txn } => MessageModel::DevReadDefRequest {
                txn: txn.deep_view(),
            },
            Message::DevReadDefResult { name, txn } => MessageModel::DevReadDefResult {
                name: name@,
                txn: txn.deep_view(),
            },
            Message::DevWriteDefRequest { txn, write_expr } => MessageModel::DevWriteDefRequest {
                txn: txn.deep_view(),
                write_expr: write_expr.deep_view(),
            },
            Message::VarLockRequest { lock_kind, txn } => MessageModel::VarLockRequest {
                lock_kind: *lock_kind,
                txn: txn.deep_view(),
            },
            Message::VarLockRelease { txn, required } => MessageModel::VarLockRelease {
                txn: txn.deep_view(),
                required: required.deep_view(),
            },
            Message::VarLockGranted { txn, from_name } => MessageModel::VarLockGranted {
                txn: txn.deep_view(),
                from_name: from_name@,
            },
            Message::VarLockAbort { txn } => MessageModel::VarLockAbort {
                txn: txn.deep_view(),
            },
            Message::DefLockRequest { lock_kind, txn } => MessageModel::DefLockRequest {
                lock_kind: *lock_kind,
                txn: txn.deep_view(),
            },
            Message::DefLockRelease { txn } => MessageModel::DefLockRelease {
                txn: txn.deep_view(),
            },
            Message::DefLockGranted { txn } => MessageModel::DefLockGranted {
                txn: txn.deep_view(),
            },
            Message::DefLockAbort { txn } => MessageModel::DefLockAbort {
                txn: txn.deep_view(),
            },
            Message::Propagate { propa_change } => MessageModel::Propagate {
                propa_change: propa_change.deep_view(),
            },
            Message::Subscribe { subscribe_who, subscriber_name, sender_to_subscriber } => MessageModel::Subscribe {
                subscribe_who: subscribe_who@,
                subscriber_name: subscriber_name@,
                sender_to_subscriber: *sender_to_subscriber,
            },
            Message::DeSubscribe { desubscribe_who, desubscriber_name } => MessageModel::DeSubscribe {
                desubscribe_who: desubscribe_who@,
                desubscriber_name: desubscriber_name@,
            },
            Message::SubscriptionGranted { name, value, provides, trans_dep_set } => MessageModel::SubscriptionGranted {
                name: name@,
                value: value.deep_view(),
                provides: provides.deep_view(),
                trans_dep_set: trans_dep_set.deep_view(),
            },
            Message::DeSubscriptionGranted { name } => MessageModel::DeSubscriptionGranted {
                name: name@,
            },
            Message::DefUpdate { txn, update_expr, expr_dependencies } => MessageModel::DefUpdate {
                txn: txn.deep_view(),
                update_expr: update_expr.deep_view(),
                expr_dependencies: expr_dependencies.deep_view(),
            },
            Message::DefWorkerUpdate { node, expr } => MessageModel::DefWorkerUpdate {
                node: node@,
                expr: expr.deep_view(),
            },
            Message::OnUpdate { txn, from_name, from_value } => MessageModel::OnUpdate {
                txn: txn.deep_view(),
                from_name: from_name@,
                from_value: from_value.deep_view(),
            },
            Message::DistributedCodeUpdate { code_update, txn_id, sender_manager_id } => MessageModel::DistributedCodeUpdate {
                code_update: code_update.deep_view(),
                txn_id: *txn_id,
                sender_manager_id: sender_manager_id@,
            },
            Message::DistributedCodeUpdateAck { txn_id, success, manager_id } => MessageModel::DistributedCodeUpdateAck {
                txn_id: *txn_id,
                success: *success,
                manager_id: manager_id@,
            },
            Message::DistributedSubscribe { remote_node, subscriber_node, subscriber_sender } => MessageModel::DistributedSubscribe {
                remote_node: remote_node@,
                subscriber_node: subscriber_node@,
                subscriber_sender: *subscriber_sender,
            },
        }
    }
}

/// A message with the address of the channel that it goes to.
#[derive(Debug, Clone)]
pub struct Envelope {
    pub to: Endpoint,
    pub msg: Message,
}

/// The model of an addressed message.
pub struct Posted {
    pub to: Endpoint,
    pub msg: MessageModel,
}

impl DeepView for Envelope {
    type V = Posted;

    open spec fn deep_view(&self) -> Posted {
        Posted { to: self.to, msg: self.msg.deep_view() }
    }
}

} // verus!
