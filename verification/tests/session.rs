use meerkat::expr::{text_of_value, BinOp, Expr, Val};
use meerkat::manager::{Manager, ManagerError};
use meerkat::message::{Endpoint, WorkerKind};
use meerkat::session::{
    can_interpret, connection_reply, error_line, interpret_statement, type_error_line, Decl,
    DeclOutcome, SglStmt, StmtOutcome,
};
use meerkat::transaction::TxnId;

fn id_of(name: &str) -> Expr {
    Expr::IdExpr { ident: name.to_string() }
}

fn manager_with(codes: Vec<(&str, Expr)>) -> Manager {
    let mut manager = Manager::new(Endpoint { id: 0 });
    for (name, expr) in codes {
        manager.system_configuration.insert(name.to_string(), expr);
    }
    manager
}

#[test]
fn environment_is_shown_as_json() {
    let manager = manager_with(vec![
        ("b0", Expr::BoolConst { val: true }),
        ("a0", Expr::IntConst { val: -7 }),
        ("f0", id_of("nothing")),
    ]);
    let replies = manager.replies(false).unwrap();
    assert_eq!(replies.len(), 2);
    assert_eq!(replies[0].env, "Current Environment:");
    assert!(replies[0].err.is_none());
    assert_eq!(replies[1].env, "{\"a0\":\"Int(-7)\",\"b0\":\"Bool(true)\",\"f0\":\"None\"}");
    assert!(replies[1].err.is_none());
}

#[test]
fn json_escapes_quotes() {
    let lambda = Expr::Lambda { par: "x".to_string(), body: Box::new(id_of("x")) };
    let manager = manager_with(vec![("l0", lambda)]);
    let replies = manager.replies(false).unwrap();
    assert_eq!(
        replies[1].env,
        "{\"l0\":\"Lambda(Lambda { par: \\\"x\\\", body: IdExpr { ident: \\\"x\\\" } })\"}"
    );
}

#[test]
fn syntax_error_comes_first() {
    let manager = manager_with(vec![]);
    let replies = manager.replies(true).unwrap();
    assert_eq!(replies.len(), 3);
    assert_eq!(replies[0].env, "");
    assert_eq!(replies[0].err, Some("Syntax Error".to_string()));
    assert_eq!(replies[1].env, "Current Environment:");
    assert_eq!(replies[2].env, "{}");
}

#[test]
fn client_is_greeted() {
    assert_eq!(connection_reply().env, "WebSocket connected");
    assert!(connection_reply().err.is_none());
}

#[test]
fn declaration_becomes_an_update() {
    let mut manager = manager_with(vec![]);
    manager.managed_nodes.insert("x".to_string());
    let decl = Decl::VarDecl { name: "x".to_string(), val: Expr::IntConst { val: 1 } };
    match manager.declare(decl, TxnId::new(1)) {
        DeclOutcome::Change(change) => {
            assert!(change.nodes_to_modify.contains(&"x".to_string()));
            assert_eq!(change.run.update.new_code.len(), 1);
        }
        DeclOutcome::Print(_) => panic!(),
    }
    assert_eq!(manager.worker_kind_env.get(&"x".to_string()), Some(&WorkerKind::Var));
}

#[test]
fn refused_declaration_is_printed() {
    let mut manager = manager_with(vec![]);
    let decl = Decl::DefDecl { name: "f".to_string(), val: id_of("x") };
    match manager.declare(decl, TxnId::new(1)) {
        DeclOutcome::Print(line) => assert_eq!(
            line,
            "\x1b[31mDistributed error: Manager for node f not found\x1b[0m\n"
        ),
        DeclOutcome::Change(_) => panic!(),
    }
    assert_eq!(manager.worker_kind_env.get(&"f".to_string()), Some(&WorkerKind::Def));
    match manager.declare(Decl::Other, TxnId::new(2)) {
        DeclOutcome::Print(line) => {
            assert_eq!(line, "\x1b[31munsupported declaration type\x1b[0m\n")
        }
        DeclOutcome::Change(_) => panic!(),
    }
    assert_eq!(type_error_line(), "\x1b[31mtype error\x1b[0m\n");
    let e = ManagerError::WorkerUnavailable("a".to_string());
    assert_eq!(error_line(&e), "\x1b[31mWorker unavailable: a\x1b[0m\n");
}

#[test]
fn assignment_becomes_a_transaction() {
    let stmt = SglStmt::Ass { dst: id_of("x"), src: Expr::IntConst { val: 3 } };
    assert!(can_interpret(&stmt));
    match interpret_statement(stmt, TxnId::new(4)) {
        StmtOutcome::Write(txn) => {
            assert_eq!(txn.id, TxnId::new(4));
            assert_eq!(txn.writes.len(), 1);
            assert_eq!(txn.writes[0].name, "x");
            assert_eq!(txn.writes[0].expr.text(), "IntConst { val: 3 }");
        }
        StmtOutcome::Print(_) => panic!(),
    }
    match interpret_statement(SglStmt::Other, TxnId::new(5)) {
        StmtOutcome::Print(line) => {
            assert_eq!(line, "\x1b[31munsupported statement type\x1b[0m\n")
        }
        StmtOutcome::Write(_) => panic!(),
    }
    let bad = SglStmt::Ass { dst: Expr::IntConst { val: 1 }, src: id_of("x") };
    assert!(!can_interpret(&bad));
}

#[test]
fn text_of_expressions_is_their_debug_form() {
    let e = Expr::BopExpr {
        opd1: Box::new(Expr::Action {
            dst: "a\"b\n".to_string(),
            src: Box::new(Expr::IntConst { val: i32::MIN }),
        }),
        opd2: Box::new(Expr::Lambda {
            par: "p".to_string(),
            body: Box::new(Expr::BoolConst { val: false }),
        }),
        bop: BinOp::Mul,
    };
    assert_eq!(e.text(), format!("{:?}", e));
    let sum = Expr::BopExpr {
        opd1: Box::new(id_of("x")),
        opd2: Box::new(Expr::BoolConst { val: true }),
        bop: BinOp::Add,
    };
    assert_eq!(sum.text(), format!("{:?}", sum));
}

#[test]
fn text_of_values() {
    assert_eq!(text_of_value(&Some(Val::Int(0))), "Int(0)");
    assert_eq!(text_of_value(&Some(Val::Bool(false))), "Bool(false)");
    assert_eq!(text_of_value(&None), "None");
    let action = Val::Action(Expr::Action { dst: "x".to_string(), src: Box::new(id_of("y")) });
    assert_eq!(
        text_of_value(&Some(action)),
        "Action(Action { dst: \"x\", src: IdExpr { ident: \"y\" } })"
    );
}
