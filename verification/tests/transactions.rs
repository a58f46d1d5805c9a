use std::collections::{HashMap, VecDeque};

use meerkat::expr::{BinOp, Expr, Val};
use meerkat::lock::LockKind;
use meerkat::manager::Manager;
use meerkat::manager::txn::TxnPhase;
use meerkat::message::{Endpoint, Envelope, Message, WorkerKind};
use meerkat::transaction::{Txn, TxnId, WriteToName};
use meerkat::varworker::VarWorker;

const MANAGER: Endpoint = Endpoint { id: 0 };

struct Net {
    manager: Manager,
    workers: HashMap<u64, VarWorker>,
    inbox: VecDeque<Message>,
}

impl Net {
    fn new(names: &[&str]) -> Net {
        let mut net = Net {
            manager: Manager::new(MANAGER),
            workers: HashMap::new(),
            inbox: VecDeque::new(),
        };
        let mut id: u64 = 1;
        for name in names {
            let worker = net.manager.create_varworker(name, Endpoint { id });
            net.workers.insert(id, worker);
            id += 1;
        }
        net
    }

    fn deliver(&mut self, out: Vec<Envelope>) {
        for envelope in out {
            let worker = self.workers.get_mut(&envelope.to.id).unwrap();
            assert!(worker.accepts(&envelope.msg));
            for answer in worker.run_varworker(envelope.msg) {
                assert_eq!(answer.to, MANAGER);
                self.inbox.push_back(answer.msg);
            }
        }
    }

    fn run(&mut self, txn: &Txn) {
        assert!(self.manager.can_handle_transaction(txn));
        let (mut run, out) = self.manager.handle_transaction(txn);
        self.deliver(out);
        while run.phase != TxnPhase::Done {
            let reply = self.inbox.pop_front();
            assert!(self.manager.can_step_transaction(&run, &reply));
            let out = self.manager.step_transaction(&mut run, reply);
            self.deliver(out);
        }
    }

    fn value(&self, id: u64) -> String {
        format!("{:?}", self.workers[&id].value)
    }
}

fn id_of(name: &str) -> Expr {
    Expr::IdExpr { ident: name.to_string() }
}

fn number(val: i32) -> Expr {
    Expr::IntConst { val }
}

fn assign(time: u64, writes: Vec<(&str, Expr)>) -> Txn {
    let mut list: Vec<WriteToName> = Vec::new();
    for (name, expr) in writes {
        list.push(WriteToName { name: name.to_string(), expr });
    }
    Txn { id: TxnId::new(time), writes: list }
}

#[test]
fn write_then_read_2() {
    let mut net = Net::new(&["a"]);
    let write_txn = assign(1, vec![("a", number(5))]);
    net.run(&write_txn);
    assert_eq!(net.value(1), "Some(Int(5))");
    assert!(net.workers[&1].locks.is_empty());
}

#[test]
fn batch_writes_to_a_and_b_mutually_independent() {
    let mut net = Net::new(&["a", "b"]);
    net.run(&assign(1, vec![("a", number(3)), ("b", number(5))]));
    assert_eq!(net.value(1), "Some(Int(3))");
    assert_eq!(net.value(2), "Some(Int(5))");
}

#[test]
fn transaction_reads_before_it_writes() {
    let mut net = Net::new(&["a", "b"]);
    net.run(&assign(1, vec![("a", number(3)), ("b", number(5))]));
    let sum = Expr::BopExpr {
        opd1: Box::new(id_of("a")),
        opd2: Box::new(id_of("b")),
        bop: BinOp::Add,
    };
    net.run(&assign(2, vec![("a", sum)]));
    assert_eq!(net.value(1), "Some(Int(8))");
    assert!(net.workers[&1].pred_txns.len() > 0);
}

#[test]
fn transaction_on_unknown_name_cannot_begin() {
    let net = Net::new(&["a"]);
    assert!(!net.manager.can_handle_transaction(&assign(1, vec![("b", number(1))])));
    assert!(!net.manager.can_handle_transaction(&assign(1, vec![("a", id_of("b"))])));
    assert!(net.manager.can_handle_transaction(&assign(1, vec![("a", id_of("a"))])));
}

#[test]
fn definition_is_not_read_as_a_variable() {
    let mut net = Net::new(&["a"]);
    net.manager.worker_kind_env.insert("a".to_string(), WorkerKind::Def);
    assert!(!net.manager.can_handle_transaction(&assign(1, vec![("a", number(1))])));
}

#[test]
fn unreadable_value_stops_the_write() {
    let net = Net::new(&["a"]);
    let bad = Expr::BopExpr {
        opd1: Box::new(Expr::BoolConst { val: true }),
        opd2: Box::new(number(1)),
        bop: BinOp::Mul,
    };
    assert!(!net.manager.can_handle_transaction(&assign(1, vec![("a", bad)])));
}

#[test]
fn refused_read_lock_starts_over() {
    let mut net = Net::new(&["a"]);
    let txn = assign(1, vec![("a", id_of("a"))]);
    let (mut run, out) = net.manager.handle_transaction(&txn);
    assert_eq!(out.len(), 1);
    assert!(matches!(
        &out[0].msg,
        Message::VarLockRequest { lock_kind: LockKind::Read, .. }
    ));
    let abort = Some(Message::VarLockAbort { txn: assign(1, vec![]) });
    assert!(net.manager.can_step_transaction(&run, &abort));
    let out = net.manager.step_transaction(&mut run, abort);
    assert_eq!(out.len(), 2);
    assert!(matches!(&out[0].msg, Message::VarLockAbort { .. }));
    assert!(matches!(&out[1].msg, Message::VarLockRequest { .. }));
    assert_eq!(run.phase, TxnPhase::ReadLock(0));
}

#[test]
fn refused_write_lock_tells_all_names() {
    let mut net = Net::new(&["a", "b"]);
    net.run(&assign(1, vec![("a", number(2))]));
    let txn = assign(2, vec![("b", id_of("a"))]);
    let (mut run, out) = net.manager.handle_transaction(&txn);
    net.deliver(out);
    while !matches!(run.phase, TxnPhase::WriteLock(_)) {
        let reply = net.inbox.pop_front();
        let out = net.manager.step_transaction(&mut run, reply);
        net.deliver(out);
    }
    let abort = Some(Message::VarLockAbort { txn: assign(2, vec![]) });
    let out = net.manager.step_transaction(&mut run, abort);
    assert_eq!(out.len(), 3);
    assert_eq!(out[0].to, Endpoint { id: 1 });
    assert_eq!(out[1].to, Endpoint { id: 2 });
    assert!(matches!(&out[2].msg, Message::VarLockRequest { lock_kind: LockKind::Read, .. }));
    assert_eq!(run.values.len(), 0);
    assert!(run.required.is_empty());
}

#[test]
fn closed_channel_counts_as_written() {
    let mut net = Net::new(&["a"]);
    net.run(&assign(1, vec![("a", number(2))]));
    let txn = assign(1, vec![("a", number(3))]);
    let (mut run, _) = net.manager.handle_transaction(&txn);
    assert!(net.manager.can_step_transaction(&run, &None));
    let out = net.manager.step_transaction(&mut run, None);
    assert_eq!(run.phase, TxnPhase::Done);
    assert_eq!(out.len(), 1);
    assert!(matches!(&out[0].msg, Message::VarLockRelease { .. }));
}

#[test]
fn answer_for_another_transaction_is_not_taken() {
    let net = Net::new(&["a"]);
    let (run, _) = net.manager.handle_transaction(&assign(1, vec![("a", number(3))]));
    let granted = Some(Message::VarLockGranted {
        txn: assign(2, vec![]),
        from_name: "a".to_string(),
    });
    assert!(!net.manager.can_step_transaction(&run, &granted));
    let elsewhere = Some(Message::VarLockGranted {
        txn: assign(1, vec![]),
        from_name: "b".to_string(),
    });
    assert!(!net.manager.can_step_transaction(&run, &elsewhere));
}

#[test]
fn latest_predecessor_is_required() {
    let mut net = Net::new(&["a"]);
    net.run(&assign(1, vec![("a", number(2))]));
    net.run(&assign(2, vec![("a", id_of("a"))]));
    net.run(&assign(3, vec![("a", id_of("a"))]));
    let preds = &net.workers[&1].pred_txns;
    assert!(preds.contains(&assign(3, vec![("a", id_of("a"))])));
    assert_eq!(format!("{:?}", net.workers[&1].value), format!("{:?}", Some(Val::Int(2))));
}

#[test]
fn granted_locks_are_recorded_for_the_transaction() {
    let mut net = Net::new(&["a"]);
    net.run(&assign(4, vec![("a", number(2))]));
    let held = net.manager.txn_locks_map.get(&TxnId::new(4)).unwrap();
    assert_eq!(held.len(), 1);
    assert_eq!(held.at(0).worker_name, "a");
    assert_eq!(held.at(0).lock.lock_kind, LockKind::Write);
}
