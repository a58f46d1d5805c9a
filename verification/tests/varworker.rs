use meerkat::collections::ListSet;
use meerkat::expr::{Expr, Val};
use meerkat::lock::LockKind;
use meerkat::message::{Endpoint, Envelope, Message};
use meerkat::transaction::{Txn, TxnId, WriteToName};
use meerkat::varworker::VarWorker;

const MANAGER: Endpoint = Endpoint { id: 0 };

fn write_of(time: u64, val: i32) -> Txn {
    Txn {
        id: TxnId::new(time),
        writes: vec![WriteToName { name: "a".to_string(), expr: Expr::IntConst { val } }],
    }
}

fn empty_txn(time: u64) -> Txn {
    Txn { id: TxnId::new(time), writes: vec![] }
}

fn lock(lock_kind: LockKind, txn: Txn) -> Message {
    Message::VarLockRequest { lock_kind, txn }
}

fn send(worker: &mut VarWorker, msg: Message) -> Vec<Envelope> {
    assert!(worker.accepts(&msg));
    worker.run_varworker(msg)
}

fn only(mut out: Vec<Envelope>) -> Message {
    assert_eq!(out.len(), 1);
    let envelope = out.remove(0);
    assert_eq!(envelope.to, MANAGER);
    envelope.msg
}

#[test]
fn write_then_read() {
    let mut worker = VarWorker::new("a", MANAGER);
    match only(send(&mut worker, lock(LockKind::Write, write_of(1, 5)))) {
        Message::VarLockGranted { txn, from_name: _ } => {
            println!("var write lock granted for txn {:?}", txn.id);
        }
        _ => panic!(),
    }
    let write_msg = Message::UsrWriteVarRequest { txn: write_of(1, 5), write_val: Val::Int(5) };
    assert!(send(&mut worker, write_msg).is_empty());
    let release = Message::VarLockRelease { txn: write_of(1, 5), required: ListSet::new() };
    assert!(send(&mut worker, release).is_empty());
    match only(send(&mut worker, lock(LockKind::Read, empty_txn(2)))) {
        Message::VarLockGranted { txn, from_name: _ } => {
            println!("var read lock granted {:?}", txn);
        }
        msg => panic!("should not receive msg {:?}", msg),
    }
    match only(send(&mut worker, Message::UsrReadVarRequest { txn: empty_txn(2) })) {
        Message::UsrReadVarResult { var_name, result, result_preds, txn } => {
            println!("var_name={:?}, result_provides={:?}", var_name, result_preds);
            assert_eq!(Some(Val::Int(5)), result);
            assert_eq!(var_name, "a");
            assert_eq!(txn.id, TxnId::new(2));
        }
        _ => panic!(),
    }
}

#[test]
fn written_value_waits_for_release() {
    let mut worker = VarWorker::new("a", MANAGER);
    send(&mut worker, lock(LockKind::Write, write_of(1, 5)));
    assert!(worker.has_write_lock());
    let msg = Message::UsrWriteVarRequest { txn: write_of(1, 5), write_val: Val::Int(5) };
    send(&mut worker, msg);
    assert!(worker.value.is_none());
    assert!(matches!(worker.next_value, Some(Val::Int(5))));
    send(&mut worker, Message::VarLockRelease { txn: write_of(1, 5), required: ListSet::new() });
    assert!(matches!(worker.value, Some(Val::Int(5))));
    assert!(!worker.has_write_lock());
}

#[test]
fn aborted_write_is_discarded() {
    let mut worker = VarWorker::new("a", MANAGER);
    send(&mut worker, lock(LockKind::Write, write_of(1, 5)));
    let msg = Message::UsrWriteVarRequest { txn: write_of(1, 5), write_val: Val::Int(5) };
    send(&mut worker, msg);
    send(&mut worker, Message::VarLockAbort { txn: write_of(1, 5) });
    assert!(worker.next_value.is_none());
    assert!(worker.locks.is_empty());
}

#[test]
fn write_without_lock_is_not_accepted() {
    let worker = VarWorker::new("a", MANAGER);
    let msg = Message::UsrWriteVarRequest { txn: write_of(1, 5), write_val: Val::Int(5) };
    assert!(!worker.accepts(&msg));
    assert!(!worker.accepts(&Message::DeSubscriptionGranted { name: "a".to_string() }));
}

#[test]
fn upgrade_drops_other_locks_and_refuses_new_ones() {
    let mut worker = VarWorker::new("a", MANAGER);
    send(&mut worker, lock(LockKind::Write, write_of(1, 5)));
    let out = send(&mut worker, lock(LockKind::Upgrade, empty_txn(2)));
    assert_eq!(out.len(), 2);
    assert!(matches!(&out[0].msg, Message::VarLockAbort { txn } if txn.id == TxnId::new(1)));
    assert!(matches!(&out[1].msg, Message::VarLockGranted { txn, .. } if txn.id == TxnId::new(2)));
    assert_eq!(worker.locks.len(), 1);
    let refused = only(send(&mut worker, lock(LockKind::Read, empty_txn(3))));
    assert!(matches!(refused, Message::VarLockAbort { txn } if txn.id == TxnId::new(3)));
    let unread = only(send(&mut worker, Message::UsrReadVarRequest { txn: empty_txn(4) }));
    assert!(matches!(unread, Message::VarLockAbort { txn } if txn.id == TxnId::new(4)));
}

#[test]
fn oldest_request_is_granted_first() {
    let mut worker = VarWorker::new("a", MANAGER);
    assert!(worker.handle_message(lock(LockKind::Read, empty_txn(9))).is_empty());
    assert!(worker.handle_message(lock(LockKind::Write, empty_txn(4))).is_empty());
    let first = only(worker.tick());
    assert!(matches!(first, Message::VarLockGranted { txn, .. } if txn.id == TxnId::new(4)));
    let second = only(worker.tick());
    assert!(matches!(second, Message::VarLockGranted { txn, .. } if txn.id == TxnId::new(9)));
    assert!(worker.tick().is_empty());
}

#[test]
fn subscriber_gets_value_and_name() {
    let mut worker = VarWorker::new("a", MANAGER);
    let out = send(
        &mut worker,
        Message::Subscribe {
            subscribe_who: "a".to_string(),
            subscriber_name: "f".to_string(),
            sender_to_subscriber: Endpoint { id: 7 },
        },
    );
    assert_eq!(out.len(), 1);
    assert_eq!(out[0].to, Endpoint { id: 7 });
    match &out[0].msg {
        Message::SubscriptionGranted { name, value, provides, trans_dep_set } => {
            assert_eq!(name, "a");
            assert!(value.is_none());
            assert!(provides.is_empty());
            assert!(trans_dep_set.contains(&"a".to_string()));
            assert_eq!(trans_dep_set.len(), 1);
        }
        _ => panic!(),
    }
}

#[test]
fn read_gives_up_the_read_lock_and_counts_as_applied() {
    let mut worker = VarWorker::new("a", MANAGER);
    send(&mut worker, lock(LockKind::Read, empty_txn(3)));
    assert_eq!(worker.locks.len(), 1);
    match only(send(&mut worker, Message::UsrReadVarRequest { txn: empty_txn(3) })) {
        Message::UsrReadVarResult { result, result_preds, .. } => {
            assert!(result.is_none());
            assert!(result_preds.contains(&empty_txn(3)));
        }
        _ => panic!(),
    }
    assert!(worker.locks.is_empty());
}

#[test]
fn release_adds_the_required_transactions() {
    let mut worker = VarWorker::new("a", MANAGER);
    let mut required: ListSet<Txn> = ListSet::new();
    required.insert(write_of(1, 2));
    send(&mut worker, Message::VarLockRelease { txn: empty_txn(5), required });
    assert!(worker.pred_txns.contains(&write_of(1, 2)));
    assert!(!worker.pred_txns.contains(&write_of(1, 3)));
}

#[test]
fn try_reading_after_granted_write_lock() {
    let mut worker = VarWorker::new("a", MANAGER);
    let granted = only(send(&mut worker, lock(LockKind::Write, write_of(1, 5))));
    assert!(matches!(granted, Message::VarLockGranted { txn, .. } if txn.id == TxnId::new(1)));
    let refused = only(send(&mut worker, lock(LockKind::Read, empty_txn(2))));
    assert!(matches!(refused, Message::VarLockAbort { txn } if txn.id == TxnId::new(2)));
    let refused = only(send(&mut worker, lock(LockKind::Write, write_of(2, 114))));
    assert!(matches!(refused, Message::VarLockAbort { txn } if txn.id == TxnId::new(2)));
    assert!(worker.lock_queue.is_empty());
    assert_eq!(worker.locks.len(), 1);
}

#[test]
fn older_transaction_is_not_refused_by_a_writer() {
    let mut worker = VarWorker::new("a", MANAGER);
    send(&mut worker, lock(LockKind::Write, write_of(5, 5)));
    let granted = only(send(&mut worker, lock(LockKind::Read, empty_txn(2))));
    assert!(matches!(granted, Message::VarLockGranted { txn, .. } if txn.id == TxnId::new(2)));
}

#[test]
fn release_of_a_reader_commits_nothing() {
    let mut worker = VarWorker::new("a", MANAGER);
    send(&mut worker, lock(LockKind::Write, write_of(5, 9)));
    send(&mut worker, lock(LockKind::Read, empty_txn(2)));
    let msg = Message::UsrWriteVarRequest { txn: write_of(5, 9), write_val: Val::Int(9) };
    send(&mut worker, msg);
    send(&mut worker, Message::VarLockRelease { txn: empty_txn(2), required: ListSet::new() });
    assert_eq!(worker.value, None);
    assert_eq!(worker.next_value, Some(Val::Int(9)));
    assert!(worker.has_write_lock());
    send(&mut worker, Message::VarLockRelease { txn: write_of(5, 9), required: ListSet::new() });
    assert_eq!(worker.value, Some(Val::Int(9)));
}

#[test]
fn upgrade_discards_a_write_on_its_way() {
    let mut worker = VarWorker::new("a", MANAGER);
    send(&mut worker, lock(LockKind::Write, write_of(1, 9)));
    let msg = Message::UsrWriteVarRequest { txn: write_of(1, 9), write_val: Val::Int(9) };
    send(&mut worker, msg);
    send(&mut worker, lock(LockKind::Upgrade, empty_txn(2)));
    assert_eq!(worker.next_value, None);
    send(&mut worker, Message::VarLockRelease { txn: empty_txn(2), required: ListSet::new() });
    assert_eq!(worker.value, None);
}

#[test]
fn abort_of_a_reader_keeps_the_write() {
    let mut worker = VarWorker::new("a", MANAGER);
    worker.value = Some(Val::Int(1));
    worker.next_value = Some(Val::Int(1));
    send(&mut worker, lock(LockKind::Write, write_of(5, 9)));
    send(&mut worker, lock(LockKind::Read, empty_txn(2)));
    let msg = Message::UsrWriteVarRequest { txn: write_of(5, 9), write_val: Val::Int(9) };
    send(&mut worker, msg);
    send(&mut worker, Message::VarLockAbort { txn: empty_txn(2) });
    assert_eq!(worker.next_value, Some(Val::Int(9)));
    send(&mut worker, Message::VarLockRelease { txn: write_of(5, 9), required: ListSet::new() });
    assert_eq!(worker.value, Some(Val::Int(9)));
}

#[test]
fn write_survives_messages_of_others() {
    let mut worker = VarWorker::new("a", MANAGER);
    send(&mut worker, lock(LockKind::Write, write_of(5, 9)));
    let msg = Message::UsrWriteVarRequest { txn: write_of(5, 9), write_val: Val::Int(9) };
    send(&mut worker, msg.clone());
    for other in [
        lock(LockKind::Read, empty_txn(2)),
        lock(LockKind::Read, empty_txn(8)),
        Message::UsrReadVarRequest { txn: empty_txn(2) },
        Message::VarLockRelease { txn: empty_txn(2), required: ListSet::new() },
        Message::VarLockAbort { txn: empty_txn(8) },
    ] {
        send(&mut worker, other);
        assert_eq!(worker.value, None);
        assert_eq!(worker.next_value, Some(Val::Int(9)));
    }
    send(&mut worker, Message::VarLockRelease { txn: write_of(5, 9), required: ListSet::new() });
    assert_eq!(worker.value, Some(Val::Int(9)));
}
