//! What expressions denote and which names they refer to.

use vstd::prelude::*;

#[allow(unused_imports)]
use crate::expr::{
    expr_text, names_in, operate, value_in, value_text, BinOp, ExprModel, ValModel,
};
#[allow(unused_imports)]
use crate::text::{quoted, signed_decimal};

verus! {

/// An environment of names.
pub type Names = Map<Seq<char>, Option<ValModel>>;

/// The name stands somewhere in the expression, and not inside a lambda with that
/// parameter.
pub open spec fn occurs(e: ExprModel, name: Seq<char>) -> bool
    decreases e,
{
    match e {
        ExprModel::IdExpr { ident } => ident == name,
        ExprModel::IntConst { .. } => false,
        ExprModel::BoolConst { .. } => false,
        ExprModel::BopExpr { opd1, opd2, .. } => occurs(*opd1, name) || occurs(*opd2, name),
        ExprModel::Action { dst, src } => dst == name || occurs(*src, name),
        ExprModel::Lambda { par, body } => par != name && occurs(*body, name),
    }
}

/// The expression is built of names, constants and operations alone.
pub open spec fn computes(e: ExprModel) -> bool
    decreases e,
{
    match e {
        ExprModel::BopExpr { opd1, opd2, .. } => computes(*opd1) && computes(*opd2),
        ExprModel::Action { .. } => false,
        ExprModel::Lambda { .. } => false,
        _ => true,
    }
}

/// The names of an expression are those that occur in it, on whichever side of whatever
/// operation.
pub proof fn law_names_are_those_that_occur(e: ExprModel, name: Seq<char>)
    ensures
        names_in(e).contains(name) <==> occurs(e, name),
    decreases e,
{
    match e {
        ExprModel::BopExpr { opd1, opd2, .. } => {
            law_names_are_those_that_occur(*opd1, name);
            law_names_are_those_that_occur(*opd2, name);
        },
        ExprModel::Action { src, .. } => {
            law_names_are_those_that_occur(*src, name);
        },
        ExprModel::Lambda { body, .. } => {
            law_names_are_those_that_occur(*body, name);
        },
        _ => {},
    }
}

/// The value of an expression depends on the values of its names alone.
pub proof fn law_value_depends_on_names(e: ExprModel, a: Names, b: Names)
    requires
        forall|n: Seq<char>| #[trigger] names_in(e).contains(n) ==> a.get(n) == b.get(n),
    ensures
        value_in(e, a) == value_in(e, b),
    decreases e,
{
    match e {
        ExprModel::IdExpr { ident } => {
            assert(names_in(e).contains(ident));
        },
        ExprModel::BopExpr { opd1, opd2, .. } => {
            assert forall|n: Seq<char>| #[trigger] names_in(*opd1).contains(n) implies a.get(n)
                == b.get(n) by {
                assert(names_in(e).contains(n));
            }
            assert forall|n: Seq<char>| #[trigger] names_in(*opd2).contains(n) implies a.get(n)
                == b.get(n) by {
                assert(names_in(e).contains(n));
            }
            law_value_depends_on_names(*opd1, a, b);
            law_value_depends_on_names(*opd2, a, b);
        },
        _ => {},
    }
}

/// A computation looks at all its names and at no others: where it has a value, it loses it
/// exactly by losing one of its names.
pub proof fn law_value_needs_exactly_the_names(e: ExprModel, env: Names, name: Seq<char>)
    requires
        computes(e),
        value_in(e, env) is Some,
    ensures
        names_in(e).contains(name) <==> value_in(e, env.remove(name)) is None,
        !names_in(e).contains(name) ==> value_in(e, env.remove(name)) == value_in(e, env),
    decreases e,
{
    let less = env.remove(name);
    match e {
        ExprModel::BopExpr { opd1, opd2, .. } => {
            law_value_needs_exactly_the_names(*opd1, env, name);
            law_value_needs_exactly_the_names(*opd2, env, name);
        },
        _ => {},
    }
}

/// Constants denote themselves, and a name denotes what the environment holds for it.
pub proof fn law_atoms_denote(i: i32, b: bool, name: Seq<char>, env: Names)
    ensures
        value_in(ExprModel::IntConst { val: i }, env) == Some(ValModel::Int(i)),
        value_in(ExprModel::BoolConst { val: b }, env) == Some(ValModel::Bool(b)),
        env.contains_key(name) ==> value_in(ExprModel::IdExpr { ident: name }, env) == env[name],
        !env.contains_key(name) ==> value_in(ExprModel::IdExpr { ident: name }, env) is None,
{
}

/// An operation on two integers is integer arithmetic: it has the exact sum or product
/// where that fits into 32 bits, and no value elsewhere. On anything else, or where a side
/// has no value, it has none.
pub proof fn law_operations_compute(a: ExprModel, b: ExprModel, bop: BinOp, env: Names)
    ensures
        ({
            let whole = value_in(
                ExprModel::BopExpr { opd1: Box::new(a), opd2: Box::new(b), bop },
                env,
            );
            match (value_in(a, env), value_in(b, env)) {
                (Some(ValModel::Int(x)), Some(ValModel::Int(y))) => {
                    let r: int = if bop == BinOp::Add {
                        x + y
                    } else {
                        x * y
                    };
                    &&& -0x8000_0000 <= r <= 0x7fff_ffff ==> (whole matches Some(
                        ValModel::Int(z),
                    ) && z as int == r)
                    &&& !(-0x8000_0000 <= r <= 0x7fff_ffff) ==> whole is None
                },
                _ => whole is None,
            }
        }),
{
    let e = ExprModel::BopExpr { opd1: Box::new(a), opd2: Box::new(b), bop };
    assert(value_in(e, env) == match (value_in(a, env), value_in(b, env)) {
        (Some(x), Some(y)) => operate(bop, x, y),
        _ => None,
    });
}

/// Actions and lambdas denote themselves, whatever the environment.
pub proof fn law_code_denotes_itself(e: ExprModel, env: Names)
    ensures
        e is Action ==> value_in(e, env) == Some(ValModel::Action(e)),
        e is Lambda ==> value_in(e, env) == Some(ValModel::Lambda(e)),
{
}

/// The text of an expression has its form and, by name and in order, all its parts.
pub proof fn law_text_shows_parts(
    a: ExprModel,
    b: ExprModel,
    name: Seq<char>,
    i: i32,
    flag: bool,
)
    ensures
        expr_text(ExprModel::IdExpr { ident: name }) == "IdExpr { ident: "@ + quoted(name) + " }"@,
        expr_text(ExprModel::IntConst { val: i }) == "IntConst { val: "@ + signed_decimal(i as int)
            + " }"@,
        expr_text(ExprModel::BoolConst { val: flag }) == "BoolConst { val: "@ + (if flag {
            "true"@
        } else {
            "false"@
        }) + " }"@,
        expr_text(
            ExprModel::BopExpr { opd1: Box::new(a), opd2: Box::new(b), bop: BinOp::Add },
        ) == "BopExpr { opd1: "@ + expr_text(a) + ", opd2: "@ + expr_text(b) + ", bop: "@
            + "Add"@ + " }"@,
        expr_text(
            ExprModel::BopExpr { opd1: Box::new(a), opd2: Box::new(b), bop: BinOp::Mul },
        ) == "BopExpr { opd1: "@ + expr_text(a) + ", opd2: "@ + expr_text(b) + ", bop: "@
            + "Mul"@ + " }"@,
        expr_text(ExprModel::Action { dst: name, src: Box::new(a) }) == "Action { dst: "@ + quoted(
            name,
        ) + ", src: "@ + expr_text(a) + " }"@,
        expr_text(ExprModel::Lambda { par: name, body: Box::new(a) }) == "Lambda { par: "@ + quoted(
            name,
        ) + ", body: "@ + expr_text(a) + " }"@,
        value_text(Some(ValModel::Action(a))) == "Action("@ + expr_text(a) + ")"@,
        value_text(Some(ValModel::Lambda(a))) == "Lambda("@ + expr_text(a) + ")"@,
        value_text(Some(ValModel::Bool(flag))) == "Bool("@ + (if flag {
            "true"@
        } else {
            "false"@
        }) + ")"@,
        value_text(None) == "None"@,
{
}

} // verus!
