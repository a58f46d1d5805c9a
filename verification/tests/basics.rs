use meerkat::collections::{Dup, Entry, ListMap, ListSet};
use meerkat::expr::{evaluate_expr, BinOp, Expr, Val};
use meerkat::graph::find_cycle;
use meerkat::lock::{find_held, has_kind, oldest, Lock, LockKind};
use meerkat::text::{
    base_name, decimal_text, join, names_version_of, signed_decimal_text, versioned_name,
};
use meerkat::transaction::{Txn, TxnId};

fn text(s: &str) -> String {
    s.to_string()
}

fn edges(list: &[(&str, &[&str])]) -> ListMap<String, ListSet<String>> {
    let mut g: ListMap<String, ListSet<String>> = ListMap::new();
    for (from, to) in list {
        let mut set: ListSet<String> = ListSet::new();
        for t in to.iter() {
            set.insert(t.to_string());
        }
        g.insert(from.to_string(), set);
    }
    g
}

#[test]
fn set_keeps_each_element_once() {
    let mut s: ListSet<String> = ListSet::new();
    s.insert(text("x"));
    s.insert(text("y"));
    s.insert(text("x"));
    assert_eq!(s.len(), 2);
    assert!(s.remove(&text("x")));
    assert!(!s.remove(&text("x")));
    assert!(!s.contains(&text("x")));
    let mut other: ListSet<String> = ListSet::new();
    other.insert(text("z"));
    other.extend(&s);
    assert_eq!(other.len(), 2);
    assert_eq!(other.minus(&s).len(), 1);
    assert!(other.minus(&s).contains(&text("z")));
}

#[test]
fn map_replaces_and_removes() {
    let mut m: ListMap<String, u64> = ListMap::new();
    m.insert(text("x"), 1);
    m.insert(text("x"), 2);
    assert_eq!(m.len(), 1);
    assert_eq!(m.get(&text("x")), Some(&2));
    assert_eq!(m.remove(&text("x")), Some(2));
    assert_eq!(m.remove(&text("x")), None);
    assert!(m.get(&text("x")).is_none());
}

#[test]
fn numbers_as_text() {
    assert_eq!(decimal_text(0), "0");
    assert_eq!(decimal_text(u64::MAX), "18446744073709551615");
    assert_eq!(signed_decimal_text(i32::MIN), "-2147483648");
    assert_eq!(signed_decimal_text(42), "42");
}

#[test]
fn names_and_versions() {
    assert_eq!(versioned_name(&text("f"), 12), "f12");
    assert_eq!(base_name("f12"), "f");
    assert_eq!(base_name("f1g"), "f1g");
    assert_eq!(base_name("123"), "");
    assert_eq!(base_name("x\u{0663}"), "x");
    assert!(names_version_of(&text("a0"), &text("a")));
    assert!(names_version_of(&text("a10"), &text("a")));
    assert!(names_version_of(&text("a10"), &text("a1")));
    assert!(!names_version_of(&text("a"), &text("a")));
    assert!(!names_version_of(&text("a01"), &text("a")));
    assert!(!names_version_of(&text("ab0"), &text("a")));
    assert!(!names_version_of(&text("b0"), &text("a")));
    assert!(!names_version_of(&text("a\u{0663}"), &text("a")));
    assert_eq!(join(&vec![text("a"), text("b"), text("c")], " → "), "a → b → c");
    assert_eq!(join(&vec![], ","), "");
}

#[test]
fn expressions_have_values() {
    let mut env: ListMap<String, Option<Val>> = ListMap::new();
    env.insert(text("x"), Some(Val::Int(6)));
    env.insert(text("u"), None);
    let times = |a: Expr, b: Expr| Expr::BopExpr {
        opd1: Box::new(a),
        opd2: Box::new(b),
        bop: BinOp::Mul,
    };
    let id = |n: &str| Expr::IdExpr { ident: n.to_string() };
    let number = |val: i32| Expr::IntConst { val };
    assert!(matches!(evaluate_expr(&times(id("x"), number(7)), &env), Some(Val::Int(42))));
    assert!(evaluate_expr(&times(id("u"), number(7)), &env).is_none());
    assert!(evaluate_expr(&times(number(i32::MAX), number(2)), &env).is_none());
    assert!(evaluate_expr(&times(number(1), Expr::BoolConst { val: true }), &env).is_none());
    let lambda = Expr::Lambda { par: text("p"), body: Box::new(times(id("p"), id("q"))) };
    let names = lambda.names_contained();
    assert_eq!(names.len(), 1);
    assert!(names.contains(&text("q")));
    assert!(lambda.same(&lambda.dup()));
    assert!(!lambda.same(&number(1)));
}

#[test]
fn cycles_are_found() {
    assert!(find_cycle(&edges(&[("a", &["b", "c"]), ("b", &["c"])])).is_none());
    let found = find_cycle(&edges(&[("a", &["b"]), ("b", &["c"]), ("c", &["b"])])).unwrap();
    assert_eq!(found.len(), 2);
    assert!(found.contains(&text("b")) && found.contains(&text("c")));
    assert_eq!(find_cycle(&edges(&[("a", &["a"])])), Some(vec![text("a")]));
}

#[test]
fn locks_are_searched() {
    let lock = |lock_kind: LockKind, time: u64| Lock {
        lock_kind,
        txn: Txn { id: TxnId::new(time), writes: vec![] },
    };
    let mut locks: ListSet<Lock> = ListSet::new();
    assert!(oldest(&locks).is_none());
    locks.insert(lock(LockKind::Read, 5));
    locks.insert(lock(LockKind::Write, 3));
    assert_eq!(oldest(&locks).unwrap().txn.id, TxnId::new(3));
    assert!(has_kind(&locks, LockKind::Read));
    assert!(!has_kind(&locks, LockKind::Upgrade));
    assert!(find_held(&locks, LockKind::Write, TxnId::new(3)).is_some());
    assert!(find_held(&locks, LockKind::Write, TxnId::new(5)).is_none());
}
