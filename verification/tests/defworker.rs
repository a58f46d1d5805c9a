use meerkat::batch::search_batch;
use meerkat::collections::{ListMap, ListSet};
use meerkat::defworker::DefWorker;
use meerkat::expr::{BinOp, Expr, Val};
use meerkat::lock::LockKind;
use meerkat::message::{Endpoint, Envelope, Message, PropaChange, TxnAndName};
use meerkat::transaction::{Txn, TxnId, WriteToName};

const MANAGER: Endpoint = Endpoint { id: 0 };
const INBOX: Endpoint = Endpoint { id: 1 };

fn id_of(name: &str) -> Expr {
    Expr::IdExpr { ident: name.to_string() }
}

fn sum(a: Expr, b: Expr) -> Expr {
    Expr::BopExpr { opd1: Box::new(a), opd2: Box::new(b), bop: BinOp::Add }
}

fn txn(time: u64, names: &[&str]) -> Txn {
    let mut writes: Vec<WriteToName> = Vec::new();
    for name in names {
        writes.push(WriteToName { name: name.to_string(), expr: Expr::IntConst { val: 0 } });
    }
    Txn { id: TxnId::new(time), writes }
}

fn names(list: &[&str]) -> ListSet<String> {
    let mut r: ListSet<String> = ListSet::new();
    for name in list {
        r.insert(name.to_string());
    }
    r
}

fn txns(list: Vec<Txn>) -> ListSet<Txn> {
    let mut r: ListSet<Txn> = ListSet::new();
    for t in list {
        r.insert(t);
    }
    r
}

fn adder() -> DefWorker {
    let mut deps: ListMap<String, ListSet<String>> = ListMap::new();
    deps.insert("a".to_string(), names(&["a"]));
    deps.insert("b".to_string(), names(&["b"]));
    DefWorker::new("f", INBOX, MANAGER, &sum(id_of("a"), id_of("b")), deps)
}

fn send(worker: &mut DefWorker, msg: Message) -> Vec<Envelope> {
    assert!(worker.accepts(&msg));
    worker.run_defworker(msg)
}

fn change(from: &str, val: i32, preds: Vec<Txn>) -> Message {
    Message::Propagate {
        propa_change: PropaChange {
            from_name: from.to_string(),
            new_val: Val::Int(val),
            preds: txns(preds),
        },
    }
}

fn shown(v: &Option<Val>) -> String {
    format!("{:?}", v)
}

#[test]
fn new_definition_has_unknown_inputs() {
    let worker = adder();
    assert_eq!(worker.replica.len(), 2);
    assert!(worker.replica.get(&"a".to_string()).unwrap().is_none());
    assert!(worker.value.is_none());
    assert!(!worker.has_write_lock());
}

#[test]
fn counter_counts_up() {
    let mut counter: i32 = 3;
    assert_eq!(DefWorker::next_count(&mut counter), 4);
    assert_eq!(counter, 4);
}

#[test]
fn changes_of_one_transaction_are_applied_together() {
    let mut worker = adder();
    let t = txn(1, &["a", "b"]);
    send(&mut worker, change("a", 2, vec![txn(1, &["a", "b"])]));
    assert!(worker.value.is_none());
    assert_eq!(worker.propa_changes_to_apply.len(), 1);
    assert_eq!(shown(worker.replica.get(&"a".to_string()).unwrap()), "None");
    send(&mut worker, change("b", 3, vec![t]));
    assert_eq!(shown(&worker.value), "Some(Int(5))");
    assert_eq!(worker.propa_changes_to_apply.len(), 0);
    assert_eq!(worker.pred_txns.len(), 1);
    assert!(worker.prev_batch_provides.contains(&txn(1, &["a", "b"])));
}

#[test]
fn change_of_one_input_is_applied_at_once() {
    let mut worker = adder();
    send(&mut worker, change("a", 2, vec![txn(1, &["a"])]));
    assert_eq!(shown(worker.replica.get(&"a".to_string()).unwrap()), "Some(Int(2))");
    assert_eq!(shown(&worker.value), "None");
    send(&mut worker, change("b", 7, vec![txn(2, &["b"])]));
    assert_eq!(shown(&worker.value), "Some(Int(9))");
    assert_eq!(worker.pred_txns.len(), 2);
}

#[test]
fn later_change_of_an_input_wins() {
    let mut worker = adder();
    for msg in [change("a", 2, vec![txn(1, &["a"])]), change("a", 4, vec![txn(2, &["a"])])] {
        assert!(worker.handle_message(msg).is_empty());
    }
    let batch = search_batch(&worker.propa_changes_to_apply, &worker.pred_txns);
    assert_eq!(batch.len(), 2);
    let (provides, value) = worker.apply_batch(&batch);
    assert_eq!(provides.len(), 2);
    assert!(value.is_none());
    assert_eq!(shown(worker.replica.get(&"a".to_string()).unwrap()), "Some(Int(4))");
}

#[test]
fn incomplete_batch_is_empty() {
    let mut worker = adder();
    worker.handle_message(change("a", 2, vec![txn(1, &["a", "b"])]));
    let batch = search_batch(&worker.propa_changes_to_apply, &worker.pred_txns);
    assert!(batch.is_empty());
    let applied = vec![txn(1, &["a", "b"])];
    assert_eq!(search_batch(&worker.propa_changes_to_apply, &applied).len(), 1);
}

#[test]
fn change_depends_on_inputs_that_see_the_write() {
    let mut counter: i32 = 0;
    let mut deps: ListMap<String, ListSet<String>> = ListMap::new();
    deps.insert("g".to_string(), names(&["a", "c"]));
    deps.insert("h".to_string(), names(&["b"]));
    let propa_change = PropaChange {
        from_name: "g".to_string(),
        new_val: Val::Int(1),
        preds: txns(vec![txn(1, &["a"])]),
    };
    let waiting = DefWorker::processed_propachange(&mut counter, &propa_change, &deps);
    assert_eq!(waiting.propa_id, 1);
    assert_eq!(waiting.deps.len(), 1);
    assert!(waiting.deps.contains(&TxnAndName { txn: txn(1, &["a"]), name: "g".to_string() }));
}

#[test]
fn change_from_a_stranger_is_ignored() {
    let mut worker = adder();
    send(&mut worker, change("z", 2, vec![txn(1, &["z"])]));
    assert_eq!(worker.propa_changes_to_apply.len(), 0);
    assert_eq!(worker.counter, 0);
}

#[test]
fn code_update_waits_for_new_inputs() {
    let mut worker = adder();
    let dev = txn(1, &[]);
    let msg = Message::DefLockRequest { lock_kind: LockKind::Write, txn: txn(1, &[]) };
    let out = send(&mut worker, msg);
    assert!(matches!(&out[0].msg, Message::VarLockGranted { from_name, .. } if from_name == "f"));
    assert!(worker.has_write_lock());
    let out = send(
        &mut worker,
        Message::DevWriteDefRequest { txn: dev, write_expr: sum(id_of("a"), id_of("c")) },
    );
    assert_eq!(out.len(), 2);
    assert!(matches!(
        &out[0].msg,
        Message::Subscribe { subscribe_who, .. } if subscribe_who == "c"
    ));
    assert!(matches!(
        &out[1].msg,
        Message::DeSubscribe { desubscribe_who, .. } if desubscribe_who == "b"
    ));
    assert!(worker.pending_write.is_some());
    worker.replica.insert("a".to_string(), Some(Val::Int(1)));
    send(
        &mut worker,
        Message::SubscriptionGranted {
            name: "c".to_string(),
            value: Some(Val::Int(10)),
            provides: txns(vec![txn(7, &["c"])]),
            trans_dep_set: names(&["c"]),
        },
    );
    assert!(worker.pending_write.is_none());
    assert_eq!(shown(&worker.value), "Some(Int(11))");
    assert_eq!(worker.pred_txns.len(), 1);
}

#[test]
fn younger_developer_is_refused_while_code_is_written() {
    let mut worker = adder();
    send(&mut worker, Message::DefLockRequest { lock_kind: LockKind::Write, txn: txn(1, &[]) });
    let out =
        send(&mut worker, Message::DefLockRequest { lock_kind: LockKind::Read, txn: txn(5, &[]) });
    assert_eq!(out.len(), 1);
    assert!(matches!(&out[0].msg, Message::DefLockAbort { txn } if txn.id == TxnId::new(5)));
    send(&mut worker, Message::DefLockRelease { txn: txn(1, &[]) });
    assert!(worker.locks.is_empty());
    let out =
        send(&mut worker, Message::DefLockRequest { lock_kind: LockKind::Read, txn: txn(5, &[]) });
    assert!(matches!(&out[0].msg, Message::VarLockGranted { .. }));
    let out = send(&mut worker, Message::DevReadDefRequest { txn: txn(5, &[]) });
    assert!(matches!(&out[0].msg, Message::DevReadDefResult { name, .. } if name == "f"));
    assert!(worker.locks.is_empty());
}

#[test]
fn messages_out_of_turn_are_not_accepted() {
    let worker = adder();
    assert!(!worker.accepts(&Message::DevReadDefRequest { txn: txn(1, &[]) }));
    let write = Message::DevWriteDefRequest { txn: txn(1, &[]), write_expr: id_of("a") };
    assert!(!worker.accepts(&write));
    assert!(!worker.accepts(&Message::VarLockAbort { txn: txn(1, &[]) }));
}

#[test]
fn answers_of_inputs_bring_their_values() {
    let mut worker = adder();
    for (name, val) in [("a", 2), ("b", 5), ("f", 9)] {
        let answer = Message::SubscriptionGranted {
            name: name.to_string(),
            value: Some(Val::Int(val)),
            provides: txns(vec![txn(val as u64, &[name])]),
            trans_dep_set: names(&[name]),
        };
        assert!(send(&mut worker, answer).is_empty());
    }
    assert_eq!(worker.value, Some(Val::Int(7)));
    assert_eq!(worker.replica.len(), 2);
    assert_eq!(worker.pred_txns.len(), 2);
    assert!(!worker.transtitive_deps.contains_key(&"f".to_string()));
}

#[test]
fn replaced_code_starts_with_unknown_inputs() {
    let mut worker = adder();
    let out = send(
        &mut worker,
        Message::DefWorkerUpdate { node: "f".to_string(), expr: id_of("c") },
    );
    assert_eq!(out.len(), 3);
    assert!(matches!(&out[2].msg, Message::Subscribe { subscribe_who, .. } if subscribe_who == "c"));
    assert_eq!(worker.replica.len(), 1);
    assert!(worker.replica.get(&"c".to_string()).unwrap().is_none());
}

#[test]
fn reader_gets_value_and_applied_transactions() {
    let mut worker = adder();
    send(&mut worker, change("a", 2, vec![txn(1, &["a"])]));
    send(&mut worker, change("b", 3, vec![txn(2, &["b"])]));
    let request = Message::UsrReadDefRequest { txn: txn(9, &[]), required: ListSet::new() };
    let out = send(&mut worker, request);
    match &out[0].msg {
        Message::UsrReadDefResult { name, result, result_pred, .. } => {
            assert_eq!(name, "f");
            assert_eq!(shown(result), "Some(Int(5))");
            assert_eq!(result_pred.len(), 2);
        }
        _ => panic!(),
    }
    let subscribe = Message::Subscribe {
        subscribe_who: "f".to_string(),
        subscriber_name: "g".to_string(),
        sender_to_subscriber: Endpoint { id: 8 },
    };
    let out = send(&mut worker, subscribe);
    assert_eq!(out[0].to, Endpoint { id: 8 });
    match &out[0].msg {
        Message::SubscriptionGranted { trans_dep_set, provides, .. } => {
            assert_eq!(trans_dep_set.len(), 2);
            assert_eq!(provides.len(), 2);
        }
        _ => panic!(),
    }
}

#[test]
fn changes_are_equal_whatever_the_order_of_their_transactions() {
    let make = |preds: Vec<Txn>| PropaChange {
        from_name: "a".to_string(),
        new_val: Val::Int(1),
        preds: txns(preds),
    };
    let one = make(vec![txn(1, &["a"]), txn(2, &["b"])]);
    let two = make(vec![txn(2, &["b"]), txn(1, &["a"])]);
    assert_eq!(one, two);
    assert_eq!(one, one.clone());
    assert_ne!(one, make(vec![txn(1, &["a"])]));
    assert_ne!(make(vec![txn(1, &["a"])]), one);
}
