use meerkat::collections::{ListMap, ListSet};
use meerkat::expr::{BinOp, Expr, Val};
use meerkat::lock::LockType;
use meerkat::manager::change::{ChangeAction, ChangeEvent, ChangePhase, CodeChange};
use meerkat::manager::install::NewWorker;
use meerkat::manager::{Manager, ManagerError};
use meerkat::message::{CodeUpdate, Endpoint, Message, WorkerKind};
use meerkat::transaction::{Txn, TxnId};

const MANAGER: Endpoint = Endpoint { id: 0 };

fn id_of(name: &str) -> Expr {
    Expr::IdExpr { ident: name.to_string() }
}

fn number(val: i32) -> Expr {
    Expr::IntConst { val }
}

fn plus(a: Expr, b: Expr) -> Expr {
    Expr::BopExpr { opd1: Box::new(a), opd2: Box::new(b), bop: BinOp::Add }
}

fn update(codes: Vec<(&str, Expr)>) -> CodeUpdate {
    let mut nodes_to_modify: ListSet<String> = ListSet::new();
    let mut new_code: Vec<(String, Expr)> = Vec::new();
    for (name, expr) in codes {
        nodes_to_modify.insert(name.to_string());
        new_code.push((name.to_string(), expr));
    }
    CodeUpdate { nodes_to_modify, new_code }
}

fn manager_of(names: &[&str]) -> Manager {
    let mut manager = Manager::new(MANAGER);
    manager.manager_id = Some("m1".to_string());
    for name in names {
        manager.managed_nodes.insert(name.to_string());
    }
    manager
}

fn inboxes() -> Vec<Endpoint> {
    (100..110).map(|id| Endpoint { id }).collect()
}

fn bare(id: TxnId) -> Txn {
    Txn { id, writes: vec![] }
}

fn step(manager: &mut Manager, change: &mut CodeChange, event: ChangeEvent) -> ChangeAction {
    let fresh = inboxes();
    assert!(manager.can_advance(change, &event, fresh.len()));
    manager.advance_code_update(change, event, &fresh)
}

/// Runs a change in which every lock is granted and every message is sent.
fn finish(manager: &mut Manager, change: &mut CodeChange) -> Result<Vec<NewWorker>, ManagerError> {
    let mut started: Vec<NewWorker> = Vec::new();
    let mut event = ChangeEvent::Go;
    loop {
        match step(manager, change, event) {
            ChangeAction::Lock(attempt) => {
                let node = change.run.order[change.run.asked - 1].clone();
                event = match attempt.request {
                    Some(_) => ChangeEvent::Reply(Some(Message::VarLockGranted {
                        txn: bare(change.run.txn_id),
                        from_name: node,
                    })),
                    None => ChangeEvent::Go,
                };
            }
            ChangeAction::Start(workers) => {
                started.extend(workers);
                event = ChangeEvent::Go;
            }
            ChangeAction::Send(_) => event = ChangeEvent::Go,
            ChangeAction::Await => panic!("nobody acknowledges"),
            ChangeAction::Succeed => return Ok(started),
            ChangeAction::Fail(e) => return Err(e),
        }
    }
}

fn apply(manager: &mut Manager, time: u64, codes: Vec<(&str, Expr)>) -> Vec<NewWorker> {
    let mut change = manager.handle_code_update(update(codes), TxnId::new(time)).unwrap();
    finish(manager, &mut change).unwrap()
}

fn value(manager: &Manager, name: &str) -> String {
    assert!(manager.can_retrieve(name));
    format!("{:?}", manager.retrieve_val(name))
}

#[test]
fn new_code_gets_a_worker_and_a_value() {
    let mut manager = manager_of(&["a", "f"]);
    let started = apply(&mut manager, 1, vec![("a", number(4)), ("f", plus(id_of("a"), number(1)))]);
    assert_eq!(started.len(), 2);
    assert!(matches!(&started[0], NewWorker::Var { worker, .. } if worker.name == "a0"));
    match &started[1] {
        NewWorker::Def { worker, subscriptions, .. } => {
            assert_eq!(worker.name, "f0");
            assert_eq!(subscriptions.len(), 1);
            assert_eq!(Some(&subscriptions[0].to), manager.senders_to_workers.get(&"a0".to_string()));
        }
        _ => panic!(),
    }
    assert_eq!(value(&manager, "a"), format!("{:?}", Some(Val::Int(4))));
    assert_eq!(value(&manager, "f"), "Some(Int(5))");
    assert_eq!(value(&manager, "zzz"), "None");
    let users = manager.reverse_dependencies.get(&"a0".to_string()).unwrap();
    assert!(users.contains(&"f0".to_string()));
    assert_eq!(manager.worker_kind_env.get(&"f0".to_string()), Some(&WorkerKind::Def));
    assert_eq!(manager.node_manager_map.get(&"f0".to_string()), Some(&"m1".to_string()));
}

#[test]
fn update_replaces_all_versions() {
    let mut manager = manager_of(&["a", "f"]);
    apply(&mut manager, 1, vec![("a", number(4)), ("f", id_of("a"))]);
    apply(&mut manager, 2, vec![("a", number(6))]);
    assert!(!manager.system_configuration.contains_key(&"a0".to_string()));
    assert!(manager.system_configuration.contains_key(&"a1".to_string()));
    assert!(!manager.dependency_graph.contains_key(&"a0".to_string()));
    assert_eq!(value(&manager, "a"), "Some(Int(6))");
    assert_eq!(value(&manager, "f"), "Some(Int(6))");
    assert_eq!(manager.subscript_versions.get(&"a".to_string()), Some(&2));
}

#[test]
fn update_leaves_names_with_the_same_beginning() {
    let mut manager = manager_of(&["a", "ab"]);
    apply(&mut manager, 1, vec![("ab", number(1))]);
    apply(&mut manager, 2, vec![("a", number(2))]);
    assert!(manager.system_configuration.contains_key(&"ab0".to_string()));
    assert!(manager.system_configuration.contains_key(&"a0".to_string()));
    assert_eq!(value(&manager, "ab"), "Some(Int(1))");
    assert_eq!(value(&manager, "a"), "Some(Int(2))");
}

#[test]
fn locks_are_released_after_success() {
    let mut manager = manager_of(&["a"]);
    apply(&mut manager, 1, vec![("a", number(4))]);
    assert_eq!(manager.node_locks.get(&"a".to_string()).unwrap().len(), 0);
    assert_eq!(manager.txn_locks_map.get(&TxnId::new(1)).unwrap().len(), 1);
}

#[test]
fn refused_lock_does_not_stop_the_update() {
    let mut manager = manager_of(&["a"]);
    let id = TxnId::new(1);
    let mut change = manager.handle_code_update(update(vec![("a", number(4))]), id).unwrap();
    let action = step(&mut manager, &mut change, ChangeEvent::Go);
    assert!(matches!(action, ChangeAction::Lock(attempt) if attempt.created.is_some()));
    let abort = ChangeEvent::Reply(Some(Message::VarLockAbort { txn: bare(id) }));
    let action = step(&mut manager, &mut change, abort);
    assert!(matches!(action, ChangeAction::Start(workers) if workers.len() == 1));
    assert!(matches!(step(&mut manager, &mut change, ChangeEvent::Go), ChangeAction::Succeed));
    assert_eq!(change.phase, ChangePhase::Finished);
    assert_eq!(value(&manager, "a"), "Some(Int(4))");
    assert!(!manager.can_advance(&change, &ChangeEvent::Go, 10));
}

#[test]
fn cycle_is_refused() {
    let manager = manager_of(&["f", "g"]);
    let cyclic = update(vec![("f", id_of("g")), ("g", id_of("f"))]);
    match manager.handle_code_update(cyclic, TxnId::new(1)) {
        Err(ManagerError::CyclicDependency(text)) => {
            assert!(
                text == "Cyclic dependency detected: f → g"
                    || text == "Cyclic dependency detected: g → f"
            );
        }
        _ => panic!(),
    }
    let own = manager.detect_cycles(&vec![("f".to_string(), plus(number(1), id_of("f")))]);
    match own {
        Err(e) => {
            assert_eq!(e.text(), "Cyclic dependency: Cyclic dependency detected: f")
        }
        Ok(()) => panic!(),
    }
    assert!(manager.detect_cycles(&vec![("f".to_string(), id_of("g"))]).is_ok());
}

#[test]
fn cycle_across_managers_names_them() {
    let mut manager = manager_of(&["f"]);
    manager.node_manager_map.insert("g".to_string(), "m2".to_string());
    let codes = vec![("f".to_string(), id_of("g")), ("g".to_string(), id_of("f"))];
    match manager.detect_cycles(&codes) {
        Err(ManagerError::CyclicDependency(text)) => {
            assert!(text.starts_with("Cross-manager cyclic dependency detected across managers ["));
            assert!(text.contains("f (local)"));
            assert!(text.contains("g (manager: m2)"));
            assert!(text.contains("m1") && text.contains(", "));
        }
        _ => panic!(),
    }
}

#[test]
fn node_without_manager_is_refused() {
    let manager = manager_of(&["a"]);
    match manager.handle_code_update(update(vec![("b", number(1))]), TxnId::new(1)) {
        Err(e) => assert_eq!(e.text(), "Distributed error: Manager for node b not found"),
        Ok(_) => panic!(),
    }
    match manager.get_manager_for_node(&"a".to_string()) {
        Err(ManagerError::DistributedError(text)) => assert_eq!(text, "Node a is local"),
        _ => panic!(),
    }
}

#[test]
fn peer_gets_its_part_and_acknowledges() {
    let mut first = manager_of(&["a"]);
    first.node_manager_map.insert("b".to_string(), "m2".to_string());
    first.peer_managers.insert("m2".to_string(), Endpoint { id: 50 });
    let id = TxnId::new(3);
    let whole = update(vec![("a", number(1)), ("b", number(2))]);
    let mut change = first.handle_code_update(whole, id).unwrap();
    let part = match step(&mut first, &mut change, ChangeEvent::Go) {
        ChangeAction::Send(envelope) => {
            assert_eq!(envelope.to, Endpoint { id: 50 });
            envelope.msg
        }
        _ => panic!(),
    };
    match &part {
        Message::DistributedCodeUpdate { code_update, sender_manager_id, txn_id } => {
            assert_eq!(code_update.new_code.len(), 1);
            assert_eq!(code_update.new_code[0].0, "b");
            assert_eq!(sender_manager_id, "m1");
            assert_eq!(*txn_id, id);
        }
        _ => panic!(),
    }
    let mut second = manager_of(&["b"]);
    second.manager_id = Some("m2".to_string());
    second.peer_managers.insert("m1".to_string(), Endpoint { id: 60 });
    let mut peer = second.handle_message(part).unwrap();
    let fresh = inboxes();
    let action = second.advance_peer_update(&mut peer, ChangeEvent::Go, &fresh);
    assert!(matches!(action, ChangeAction::Lock(_)));
    let action = second.advance_peer_update(&mut peer, ChangeEvent::Reply(None), &fresh);
    assert!(matches!(action, ChangeAction::Start(workers) if workers.len() == 1));
    assert!(second.can_advance_peer(&peer, &ChangeEvent::Go, 0));
    let ack = match second.advance_peer_update(&mut peer, ChangeEvent::Go, &fresh) {
        ChangeAction::Send(envelope) => {
            assert_eq!(envelope.to, Endpoint { id: 60 });
            envelope.msg
        }
        _ => panic!(),
    };
    let action = second.advance_peer_update(&mut peer, ChangeEvent::Go, &fresh);
    assert!(matches!(action, ChangeAction::Succeed));
    assert_eq!(value(&second, "b"), "Some(Int(2))");

    assert!(matches!(step(&mut first, &mut change, ChangeEvent::Go), ChangeAction::Lock(_)));
    let action = step(&mut first, &mut change, ChangeEvent::Reply(None));
    assert!(matches!(action, ChangeAction::Start(_)));
    assert!(matches!(step(&mut first, &mut change, ChangeEvent::Go), ChangeAction::Await));
    let foreign = Message::DistributedCodeUpdateAck {
        txn_id: TxnId::new(99),
        success: false,
        manager_id: "m2".to_string(),
    };
    let action = step(&mut first, &mut change, ChangeEvent::Reply(Some(foreign)));
    assert!(matches!(action, ChangeAction::Await));
    let action = step(&mut first, &mut change, ChangeEvent::Reply(Some(ack)));
    assert!(matches!(action, ChangeAction::Succeed));
    assert_eq!(value(&first, "a"), "Some(Int(1))");
}

#[test]
fn failed_part_fails_the_update() {
    let mut manager = manager_of(&[]);
    manager.node_manager_map.insert("b".to_string(), "m2".to_string());
    manager.peer_managers.insert("m2".to_string(), Endpoint { id: 50 });
    let id = TxnId::new(3);
    let mut change = manager.handle_code_update(update(vec![("b", number(2))]), id).unwrap();
    step(&mut manager, &mut change, ChangeEvent::Go);
    step(&mut manager, &mut change, ChangeEvent::Go);
    step(&mut manager, &mut change, ChangeEvent::Go);
    let nack = Message::DistributedCodeUpdateAck {
        txn_id: id,
        success: false,
        manager_id: "m2".to_string(),
    };
    match step(&mut manager, &mut change, ChangeEvent::Reply(Some(nack))) {
        ChangeAction::Fail(e) => {
            assert_eq!(e.text(), "Distributed error: Update failed at manager m2")
        }
        _ => panic!(),
    }
}

#[test]
fn missing_peer_and_failed_send_are_told() {
    let mut manager = manager_of(&[]);
    manager.node_manager_map.insert("b".to_string(), "m2".to_string());
    let id = TxnId::new(3);
    let mut change = manager.handle_code_update(update(vec![("b", number(2))]), id).unwrap();
    match step(&mut manager, &mut change, ChangeEvent::Go) {
        ChangeAction::Fail(e) => {
            assert_eq!(e.text(), "Distributed error: Peer manager m2 not found")
        }
        _ => panic!(),
    }
    manager.peer_managers.insert("m2".to_string(), Endpoint { id: 50 });
    let mut change = manager.handle_code_update(update(vec![("b", number(2))]), id).unwrap();
    step(&mut manager, &mut change, ChangeEvent::Go);
    let failed = ChangeEvent::SendFailed("closed".to_string());
    match step(&mut manager, &mut change, failed) {
        ChangeAction::Fail(ManagerError::DistributedError(text)) => {
            assert_eq!(text, "Failed to send update to manager m2: closed")
        }
        _ => panic!(),
    }
}

#[test]
fn peer_without_way_back_fails() {
    let mut manager = manager_of(&["b"]);
    let msg = Message::DistributedCodeUpdate {
        code_update: update(vec![]),
        txn_id: TxnId::new(1),
        sender_manager_id: "m9".to_string(),
    };
    let fresh = inboxes();
    let mut peer = manager.handle_message(msg).unwrap();
    let action = manager.advance_peer_update(&mut peer, ChangeEvent::Go, &fresh);
    assert!(matches!(action, ChangeAction::Start(workers) if workers.is_empty()));
    match manager.advance_peer_update(&mut peer, ChangeEvent::Go, &fresh) {
        ChangeAction::Fail(e) => {
            assert_eq!(e.text(), "Distributed error: Peer manager m9 not found")
        }
        _ => panic!(),
    }
    manager.peer_managers.insert("m9".to_string(), Endpoint { id: 3 });
    manager.advance_peer_update(&mut peer, ChangeEvent::Go, &fresh);
    let failed = ChangeEvent::SendFailed("channel closed".to_string());
    match manager.advance_peer_update(&mut peer, failed, &fresh) {
        ChangeAction::Fail(e) => {
            assert_eq!(e.text(), "Distributed error: Failed to send ack: channel closed")
        }
        _ => panic!(),
    }
    let other = Message::DeSubscriptionGranted { name: "x".to_string() };
    assert!(manager.handle_message(other).is_none());
}

#[test]
fn upgrade_lock_clears_the_node() {
    let mut manager = manager_of(&["a"]);
    let reader = TxnId::new(5);
    let mut used: ListSet<String> = ListSet::new();
    used.insert("a".to_string());
    used.insert("b".to_string());
    manager.active_transactions.insert(reader, used);
    let here = vec![LockType::Read(reader)];
    let there = vec![LockType::Write(reader), LockType::Read(TxnId::new(6))];
    manager.node_locks.insert("a".to_string(), here);
    manager.node_locks.insert("b".to_string(), there);
    let id = TxnId::new(9);
    let attempt = manager.acquire_upgrade_lock("a", id, Endpoint { id: 100 });
    assert!(attempt.created.is_some());
    let request = attempt.request.unwrap();
    assert_eq!(request.to, Endpoint { id: 100 });
    assert!(manager.node_locks.get(&"a".to_string()).unwrap().is_empty());
    assert_eq!(manager.node_locks.get(&"b".to_string()).unwrap(), &vec![LockType::Read(TxnId::new(6))]);
    assert!(!manager.active_transactions.contains_key(&reader));
    let granted =
        Some(Message::VarLockGranted { txn: bare(id), from_name: "a".to_string() });
    assert!(manager.can_finish_upgrade_lock("a", id, &granted));
    assert!(manager.finish_upgrade_lock("a", id, granted).is_ok());
    let again = manager.acquire_upgrade_lock("a", id, Endpoint { id: 101 });
    assert!(again.created.is_none() && again.request.is_none());
    let mut nodes: ListSet<String> = ListSet::new();
    nodes.insert("a".to_string());
    manager.release_upgrade_locks(&nodes, id);
    assert!(manager.node_locks.get(&"a".to_string()).unwrap().is_empty());
}

#[test]
fn upgrade_lock_errors_are_told() {
    let mut manager = manager_of(&["a"]);
    let id = TxnId::new(9);
    manager.acquire_upgrade_lock("a", id, Endpoint { id: 100 });
    let wrong =
        Some(Message::VarLockGranted { txn: bare(TxnId::new(8)), from_name: "a".to_string() });
    assert_eq!(
        manager.finish_upgrade_lock("a", id, wrong).unwrap_err().text(),
        "Lock conflict: Received response for wrong transaction ID"
    );
    let abort = Some(Message::VarLockAbort { txn: bare(id) });
    assert_eq!(
        manager.finish_upgrade_lock("a", id, abort).unwrap_err().text(),
        "Lock conflict: Failed to acquire upgrade lock on node a"
    );
    assert_eq!(
        manager.finish_upgrade_lock("a", id, None).unwrap_err().text(),
        "Worker unavailable: a"
    );
    let elsewhere = Some(Message::VarLockGranted { txn: bare(id), from_name: "b".to_string() });
    assert!(!manager.can_finish_upgrade_lock("a", id, &elsewhere));
    let foreign = Some(Message::VarLockAbort { txn: bare(TxnId::new(8)) });
    assert!(!manager.can_finish_upgrade_lock("a", id, &foreign));
}

#[test]
fn chain_over_two_updates_is_taken_and_noticed() {
    let mut manager = manager_of(&["a", "f"]);
    apply(&mut manager, 1, vec![("a", number(1))]);
    apply(&mut manager, 2, vec![("f", plus(id_of("a"), number(1)))]);
    assert_eq!(value(&manager, "f"), "Some(Int(2))");
    assert!(!manager.closes_chain(&update(vec![("a", number(3))])));
    assert!(manager.closes_chain(&update(vec![("a", id_of("f"))])));
    apply(&mut manager, 3, vec![("a", id_of("f"))]);
    assert!(!manager.can_retrieve("a"));
    assert!(manager.replies(false).is_none());
    let itself = vec![("a".to_string(), plus(id_of("a"), number(1)))];
    assert!(manager.detect_cycles(&itself).is_err());
    assert!(!manager.closes_chain(&update(vec![("f", number(7))])));
    apply(&mut manager, 4, vec![("f", number(7))]);
    assert_eq!(value(&manager, "a"), "Some(Int(7))");
    assert!(manager.replies(false).is_some());
}

#[test]
fn code_that_goes_closes_no_chain() {
    let mut manager = manager_of(&["a", "b"]);
    apply(&mut manager, 1, vec![("b", number(1))]);
    apply(&mut manager, 2, vec![("a", id_of("b"))]);
    assert!(manager.detect_cycles(&vec![("b".to_string(), id_of("a"))]).is_ok());
    let mut both = update(vec![("b", id_of("a"))]);
    assert!(manager.closes_chain(&both));
    both.nodes_to_modify.insert("a".to_string());
    assert!(!manager.closes_chain(&both));
    let mut change = manager.handle_code_update(both, TxnId::new(3)).unwrap();
    finish(&mut manager, &mut change).unwrap();
    assert_eq!(value(&manager, "b"), "None");
}

#[test]
fn maps_of_dependencies_stay_in_step() {
    let mut manager = manager_of(&["a", "f"]);
    apply(&mut manager, 1, vec![("a", number(1)), ("f", id_of("a"))]);
    apply(&mut manager, 2, vec![("f", plus(id_of("a"), number(2)))]);
    let graph = &manager.dependency_graph;
    assert_eq!(graph.len(), manager.system_configuration.len());
    for i in 0..graph.len() {
        let node = graph.key_at(i);
        assert!(manager.system_configuration.contains_key(node));
        for j in 0..graph.value_at(i).len() {
            let users = manager.reverse_dependencies.get(graph.value_at(i).at(j)).unwrap();
            assert!(users.contains(node));
        }
    }
    let users = manager.reverse_dependencies.get(&"a0".to_string()).unwrap();
    assert!(!users.contains(&"f0".to_string()));
}

#[test]
fn names_with_numbers_do_not_form_a_cycle() {
    let manager = manager_of(&["f1", "f2"]);
    let codes = vec![("f1".to_string(), id_of("f2")), ("f2".to_string(), number(1))];
    assert!(manager.detect_cycles(&codes).is_ok());
}

#[test]
fn endless_dependency_is_noticed() {
    let mut manager = manager_of(&[]);
    manager.system_configuration.insert("a0".to_string(), id_of("f0"));
    manager.system_configuration.insert("f0".to_string(), id_of("a0"));
    assert!(!manager.can_retrieve("f"));
    assert!(!manager.can_retrieve("a"));
    assert!(manager.can_retrieve("b"));
    assert!(manager.replies(false).is_none());
}

#[test]
fn definition_subscribes_to_its_dependencies() {
    let mut manager = manager_of(&[]);
    manager.create_varworker("a", Endpoint { id: 5 });
    manager.node_manager_map.insert("r".to_string(), "m2".to_string());
    manager.node_manager_map.insert("q".to_string(), "m3".to_string());
    manager.peer_managers.insert("m2".to_string(), Endpoint { id: 50 });
    let expr = plus(plus(id_of("a"), id_of("r")), plus(id_of("q"), id_of("z")));
    let inbox = Endpoint { id: 9 };
    let (worker, out) = manager.create_defworker("f", &expr, ListMap::new(), inbox);
    assert_eq!(worker.replica.len(), 4);
    assert_eq!(out.len(), 3);
    for envelope in &out {
        match &envelope.msg {
            Message::Subscribe { subscribe_who, subscriber_name, sender_to_subscriber } => {
                assert_eq!(subscriber_name, "f");
                assert_eq!(*sender_to_subscriber, inbox);
                let expected = if subscribe_who == "a" { 5 } else { 9 };
                assert_eq!(envelope.to, Endpoint { id: expected });
            }
            Message::DistributedSubscribe { remote_node, .. } => {
                assert_eq!(remote_node, "r");
                assert_eq!(envelope.to, Endpoint { id: 50 });
            }
            _ => panic!(),
        }
    }
}

#[test]
fn versions_follow_the_order_of_the_update() {
    let mut manager = manager_of(&[]);
    let codes = vec![
        ("a".to_string(), id_of("b")),
        ("b".to_string(), id_of("a")),
        ("a".to_string(), id_of("a")),
    ];
    assert!(manager.versions_leave_room(&codes));
    let out = manager.translate_to_versioned_form(&codes);
    assert_eq!(format!("{:?}", out[0].0), "\"a0\"");
    assert_eq!(out[0].1.text(), "IdExpr { ident: \"b0\" }");
    assert_eq!(out[1].0, "b0");
    assert_eq!(out[1].1.text(), "IdExpr { ident: \"a0\" }");
    assert_eq!(out[2].0, "a1");
    assert_eq!(out[2].1.text(), "IdExpr { ident: \"a1\" }");
    assert_eq!(manager.latest_version_of(&"a".to_string()), 1);
    manager.subscript_versions.insert("a".to_string(), u64::MAX);
    assert!(!manager.versions_leave_room(&codes));
}

#[test]
fn name_that_ends_in_a_digit_is_not_found() {
    let mut manager = manager_of(&["x1"]);
    apply(&mut manager, 1, vec![("x1", number(5))]);
    assert!(manager.system_configuration.contains_key(&"x10".to_string()));
    assert_eq!(value(&manager, "x1"), "None");
}

#[test]
fn refusals_leave_the_code_the_same() {
    let mut granted = manager_of(&["a", "b"]);
    apply(&mut granted, 1, vec![("a", number(4)), ("b", id_of("a"))]);
    let mut refused = manager_of(&["a", "b"]);
    let id = TxnId::new(1);
    let codes = update(vec![("a", number(4)), ("b", id_of("a"))]);
    let mut change = refused.handle_code_update(codes, id).unwrap();
    let mut event = ChangeEvent::Go;
    loop {
        match step(&mut refused, &mut change, event) {
            ChangeAction::Lock(_) => event = ChangeEvent::Reply(None),
            ChangeAction::Succeed => break,
            _ => event = ChangeEvent::Go,
        }
    }
    assert_eq!(value(&refused, "b"), value(&granted, "b"));
    assert_eq!(refused.system_configuration.len(), granted.system_configuration.len());
}
