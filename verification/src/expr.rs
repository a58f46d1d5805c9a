//! Expressions, the values that they denote, and their evaluation.

use vstd::prelude::*;

use crate::collections::{Dup, Entry, ListMap, ListSet};
use crate::text::{concat, quote, signed_decimal_text};
#[allow(unused_imports)]
use crate::text::{quoted, signed_decimal};

verus! {

#[derive(Debug, Clone, Copy, PartialEq, Eq, Hash, Structural)]
pub enum BinOp {
    Add,
    Mul,
}

#[derive(Debug, PartialEq, Eq, Hash)]
#[allow(inconsistent_fields)]
pub enum Expr {
    IdExpr { ident: String },
    IntConst { val: i32 },
    BoolConst { val: bool },
    BopExpr { opd1: Box<Expr>, opd2: Box<Expr>, bop: BinOp },
    /// An assignment that runs when the action is performed.
    Action { dst: String, src: Box<Expr> },
    Lambda { par: String, body: Box<Expr> },
}

/// The model of an expression.
#[allow(inconsistent_fields)]
pub enum ExprModel {
    IdExpr { ident: Seq<char> },
    IntConst { val: i32 },
    BoolConst { val: bool },
    BopExpr { opd1: Box<ExprModel>, opd2: Box<ExprModel>, bop: BinOp },
    Action { dst: Seq<char>, src: Box<ExprModel> },
    Lambda { par: Seq<char>, body: Box<ExprModel> },
}

#[derive(Debug, PartialEq, Eq, Hash)]
pub enum Val {
    Int(i32),
    Bool(bool),
    /// The expression is an action.
    Action(Expr),
    /// The expression is a lambda.
    Lambda(Expr),
}

/// The model of a value.
pub enum ValModel {
    Int(i32),
    Bool(bool),
    Action(ExprModel),
    Lambda(ExprModel),
}

impl Expr {
    pub open spec fn model(&self) -> ExprModel
        decreases self,
    {
        match self {
            Expr::IdExpr { ident } => ExprModel::IdExpr { ident: ident@ },
            Expr::IntConst { val } => ExprModel::IntConst { val: *val },
            Expr::BoolConst { val } => ExprModel::BoolConst { val: *val },
            Expr::BopExpr { opd1, opd2, bop } => ExprModel::BopExpr {
                opd1: Box::new(opd1.model()),
                opd2: Box::new(opd2.model()),
                bop: *bop,
            },
            Expr::Action { dst, src } => ExprModel::Action {
                dst: dst@,
                src: Box::new(src.model()),
            },
            Expr::Lambda { par, body } => ExprModel::Lambda {
                par: par@,
                body: Box::new(body.model()),
            },
        }
    }
}

impl DeepView for Expr {
    type V = ExprModel;

    open spec fn deep_view(&self) -> ExprModel {
        self.model()
    }
}

impl DeepView for Val {
    type V = ValModel;

    open spec fn deep_view(&self) -> ValModel {
        match self {
            Val::Int(i) => ValModel::Int(*i),
            Val::Bool(b) => ValModel::Bool(*b),
            Val::Action(e) => ValModel::Action(e.model()),
            Val::Lambda(e) => ValModel::Lambda(e.model()),
        }
    }
}

/// The names that an expression refers to. The parameter of a lambda is not among them.
pub open spec fn names_in(e: ExprModel) -> Set<Seq<char>>
    decreases e,
{
    match e {
        ExprModel::IdExpr { ident } => Set::empty().insert(ident),
        ExprModel::IntConst { .. } => Set::empty(),
        ExprModel::BoolConst { .. } => Set::empty(),
        ExprModel::BopExpr { opd1, opd2, .. } => names_in(*opd1).union(names_in(*opd2)),
        ExprModel::Action { dst, src } => names_in(*src).insert(dst),
        ExprModel::Lambda { par, body } => names_in(*body).remove(par),
    }
}

/// The value of an operation on two values: it takes integers, and has no value where
/// the result does not fit.
pub open spec fn operate(bop: BinOp, x: ValModel, y: ValModel) -> Option<ValModel> {
    match (x, y) {
        (ValModel::Int(a), ValModel::Int(b)) => {
            let r = match bop {
                BinOp::Add => a + b,
                BinOp::Mul => a * b,
            };
            if i32::MIN <= r <= i32::MAX {
                Some(ValModel::Int(r as i32))
            } else {
                None
            }
        },
        _ => None,
    }
}

/// The value of an expression where the names have the values in `env`. A name without a
/// value leaves every operation on it without one.
pub open spec fn value_in(
    e: ExprModel,
    env: Map<Seq<char>, Option<ValModel>>,
) -> Option<ValModel>
    decreases e,
{
    match e {
        ExprModel::IdExpr { ident } => if env.contains_key(ident) {
            env[ident]
        } else {
            None
        },
        ExprModel::IntConst { val } => Some(ValModel::Int(val)),
        ExprModel::BoolConst { val } => Some(ValModel::Bool(val)),
        ExprModel::BopExpr { opd1, opd2, bop } => match (
            value_in(*opd1, env),
            value_in(*opd2, env),
        ) {
            (Some(x), Some(y)) => operate(bop, x, y),
            _ => None,
        },
        ExprModel::Action { .. } => Some(ValModel::Action(e)),
        ExprModel::Lambda { .. } => Some(ValModel::Lambda(e)),
    }
}

/// An expression as text: its form, with its parts by name.
pub open spec fn expr_text(e: ExprModel) -> Seq<char>
    decreases e,
{
    match e {
        ExprModel::IdExpr { ident } => "IdExpr { ident: "@ + quoted(ident) + " }"@,
        ExprModel::IntConst { val } => "IntConst { val: "@ + signed_decimal(val as int) + " }"@,
        ExprModel::BoolConst { val } => "BoolConst { val: "@ + bool_text(val) + " }"@,
        ExprModel::BopExpr { opd1, opd2, bop } => "BopExpr { opd1: "@ + expr_text(*opd1)
            + ", opd2: "@ + expr_text(*opd2) + ", bop: "@ + bop_text(bop) + " }"@,
        ExprModel::Action { dst, src } => "Action { dst: "@ + quoted(dst) + ", src: "@ + expr_text(
            *src,
        ) + " }"@,
        ExprModel::Lambda { par, body } => "Lambda { par: "@ + quoted(par) + ", body: "@
            + expr_text(*body) + " }"@,
    }
}

pub open spec fn bool_text(b: bool) -> Seq<char> {
    if b {
        "true"@
    } else {
        "false"@
    }
}

pub open spec fn bop_text(bop: BinOp) -> Seq<char> {
    match bop {
        BinOp::Add => "Add"@,
        BinOp::Mul => "Mul"@,
    }
}

/// A value, or the lack of one, as text.
pub open spec fn value_text(v: Option<ValModel>) -> Seq<char> {
    match v {
        Some(ValModel::Int(i)) => "Int("@ + signed_decimal(i as int) + ")"@,
        Some(ValModel::Bool(b)) => "Bool("@ + bool_text(b) + ")"@,
        Some(ValModel::Action(e)) => "Action("@ + expr_text(e) + ")"@,
        Some(ValModel::Lambda(e)) => "Lambda("@ + expr_text(e) + ")"@,
        None => "None"@,
    }
}

impl Dup for Expr {
    fn dup(&self) -> (r: Self)
        decreases self,
    {
        match self {
            Expr::IdExpr { ident } => Expr::IdExpr { ident: ident.clone() },
            Expr::IntConst { val } => Expr::IntConst { val: *val },
            Expr::BoolConst { val } => Expr::BoolConst { val: *val },
            Expr::BopExpr { opd1, opd2, bop } => Expr::BopExpr {
                opd1: Box::new(opd1.dup()),
                opd2: Box::new(opd2.dup()),
                bop: *bop,
            },
            Expr::Action { dst, src } => Expr::Action {
                dst: dst.clone(),
                src: Box::new(src.dup()),
            },
            Expr::Lambda { par, body } => Expr::Lambda {
                par: par.clone(),
                body: Box::new(body.dup()),
            },
        }
    }
}

impl Clone for Expr {
    fn clone(&self) -> (r: Self)
        ensures
            r.deep_view() == self.deep_view(),
    {
        self.dup()
    }
}

impl Entry for Expr {
    fn same(&self, other: &Self) -> (r: bool)
        decreases self,
    {
        match (self, other) {
            (Expr::IdExpr { ident: a }, Expr::IdExpr { ident: b }) => a.eq(b),
            (Expr::IntConst { val: a }, Expr::IntConst { val: b }) => *a == *b,
            (Expr::BoolConst { val: a }, Expr::BoolConst { val: b }) => *a == *b,
            (
                Expr::BopExpr { opd1: a1, opd2: a2, bop: a3 },
                Expr::BopExpr { opd1: b1, opd2: b2, bop: b3 },
            ) => *a3 == *b3 && a1.same(b1) && a2.same(b2),
            (Expr::Action { dst: a1, src: a2 }, Expr::Action { dst: b1, src: b2 }) => a1.eq(b1)
                && a2.same(b2),
            (Expr::Lambda { par: a1, body: a2 }, Expr::Lambda { par: b1, body: b2 }) => a1.eq(b1)
                && a2.same(b2),
            _ => false,
        }
    }
}

impl Dup for Val {
    fn dup(&self) -> (r: Self) {
        match self {
            Val::Int(i) => Val::Int(*i),
            Val::Bool(b) => Val::Bool(*b),
            Val::Action(e) => Val::Action(e.dup()),
            Val::Lambda(e) => Val::Lambda(e.dup()),
        }
    }
}

impl Clone for Val {
    fn clone(&self) -> (r: Self)
        ensures
            r.deep_view() == self.deep_view(),
    {
        self.dup()
    }
}

impl Entry for Val {
    fn same(&self, other: &Self) -> (r: bool) {
        match (self, other) {
            (Val::Int(a), Val::Int(b)) => *a == *b,
            (Val::Bool(a), Val::Bool(b)) => *a == *b,
            (Val::Action(a), Val::Action(b)) => a.same(b),
            (Val::Lambda(a), Val::Lambda(b)) => a.same(b),
            _ => false,
        }
    }
}

impl Expr {
    pub fn names_contained(&self) -> (r: ListSet<String>)
        ensures
            r.deep_view() == names_in(self.deep_view()),
        decreases self,
    {
        match self {
            Expr::IdExpr { ident } => {
                let mut r: ListSet<String> = ListSet::new();
                r.insert(ident.clone());
                r
            },
            Expr::IntConst { .. } => ListSet::new(),
            Expr::BoolConst { .. } => ListSet::new(),
            Expr::BopExpr { opd1, opd2, .. } => {
                let mut r = opd1.names_contained();
                r.extend(&opd2.names_contained());
                r
            },
            Expr::Action { dst, src } => {
                let mut r = src.names_contained();
                r.insert(dst.clone());
                r
            },
            Expr::Lambda { par, body } => {
                let mut r = body.names_contained();
                let _ = r.remove(par);
                r
            },
        }
    }
}

fn apply_operation(bop: BinOp, x: &Val, y: &Val) -> (r: Option<Val>)
    ensures
        r.deep_view() == operate(bop, x.deep_view(), y.deep_view()),
{
    match (x, y) {
        (Val::Int(a), Val::Int(b)) => {
            let result: Option<i32> = match bop {
                BinOp::Add => a.checked_add(*b),
                BinOp::Mul => a.checked_mul(*b),
            };
            match result {
                Some(i) => Some(Val::Int(i)),
                None => None,
            }
        },
        _ => None,
    }
}

pub fn evaluate_expr(expr: &Expr, env: &ListMap<String, Option<Val>>) -> (r: Option<Val>)
    ensures
        r.deep_view() == value_in(expr.deep_view(), env.deep_view()),
    decreases expr,
{
    match expr {
        Expr::IdExpr { ident } => match env.get(ident) {
            Some(v) => v.dup(),
            None => None,
        },
        Expr::IntConst { val } => Some(Val::Int(*val)),
        Expr::BoolConst { val } => Some(Val::Bool(*val)),
        Expr::BopExpr { opd1, opd2, bop } => match (
            evaluate_expr(opd1, env),
            evaluate_expr(opd2, env),
        ) {
            (Some(x), Some(y)) => apply_operation(*bop, &x, &y),
            _ => None,
        },
        Expr::Action { .. } => Some(Val::Action(expr.dup())),
        Expr::Lambda { .. } => Some(Val::Lambda(expr.dup())),
    }
}

/// `middle` between `before` and `after`.
fn between(before: &str, middle: &str, after: &str) -> (r: String)
    ensures
        r@ == before@ + middle@ + after@,
{
    concat(concat(before, middle).as_str(), after)
}

fn text_of_bool(b: bool) -> (r: String)
    ensures
        r@ == bool_text(b),
{
    if b {
        "true".to_string()
    } else {
        "false".to_string()
    }
}

impl Expr {
    /// The expression as text.
    pub fn text(&self) -> (r: String)
        ensures
            r@ == expr_text(self.deep_view()),
        decreases self,
    {
        match self {
            Expr::IdExpr { ident } => between("IdExpr { ident: ", quote(ident).as_str(), " }"),
            Expr::IntConst { val } => between(
                "IntConst { val: ",
                signed_decimal_text(*val).as_str(),
                " }",
            ),
            Expr::BoolConst { val } => between(
                "BoolConst { val: ",
                text_of_bool(*val).as_str(),
                " }",
            ),
            Expr::BopExpr { opd1, opd2, bop } => {
                let op = match bop {
                    BinOp::Add => "Add",
                    BinOp::Mul => "Mul",
                };
                let first = between("BopExpr { opd1: ", opd1.text().as_str(), ", opd2: ");
                let both = between(first.as_str(), opd2.text().as_str(), ", bop: ");
                between(both.as_str(), op, " }")
            },
            Expr::Action { dst, src } => {
                let first = between("Action { dst: ", quote(dst).as_str(), ", src: ");
                between(first.as_str(), src.text().as_str(), " }")
            },
            Expr::Lambda { par, body } => {
                let first = between("Lambda { par: ", quote(par).as_str(), ", body: ");
                between(first.as_str(), body.text().as_str(), " }")
            },
        }
    }
}

/// A value, or the lack of one, as text.
pub fn text_of_value(v: &Option<Val>) -> (r: String)
    ensures
        r@ == value_text(v.deep_view()),
{
    match v {
        Some(Val::Int(i)) => between("Int(", signed_decimal_text(*i).as_str(), ")"),
        Some(Val::Bool(b)) => between("Bool(", text_of_bool(*b).as_str(), ")"),
        Some(Val::Action(e)) => between("Action(", e.text().as_str(), ")"),
        Some(Val::Lambda(e)) => between("Lambda(", e.text().as_str(), ")"),
        None => "None".to_string(),
    }
}

} // verus!
