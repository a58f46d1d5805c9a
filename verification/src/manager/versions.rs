//! Versions of nodes: new code for a node gets the node's next version, and refers to
//! the latest version of every other node.

use vstd::prelude::*;

use crate::collections::Dup;
use crate::expr::Expr;
#[allow(unused_imports)]
use crate::expr::ExprModel;
use crate::manager::Manager;
#[allow(unused_imports)]
use crate::manager::ManagerState;
use crate::text::versioned_name;
#[allow(unused_imports)]
use crate::text::versioned;

verus! {

/// For each node, the number of its next version.
pub type Versions = Map<Seq<char>, u64>;

/// The number of the next version of a node. A node without one starts at zero.
pub open spec fn next_version(v: Versions, name: Seq<char>) -> nat {
    if v.contains_key(name) {
        v[name] as nat
    } else {
        0
    }
}

/// The number of the latest version of a node, or zero where it has none.
pub open spec fn latest_version(v: Versions, name: Seq<char>) -> nat {
    if next_version(v, name) > 0 {
        (next_version(v, name) - 1) as nat
    } else {
        0
    }
}

/// The expression, with each name replaced by the name of its latest version. Inside
/// actions and lambdas names stay as they are.
pub open spec fn versioned_expr(e: ExprModel, v: Versions) -> ExprModel
    decreases e,
{
    match e {
        ExprModel::IdExpr { ident } => ExprModel::IdExpr {
            ident: versioned(ident, latest_version(v, ident)),
        },
        ExprModel::BopExpr { opd1, opd2, bop } => ExprModel::BopExpr {
            opd1: Box::new(versioned_expr(*opd1, v)),
            opd2: Box::new(versioned_expr(*opd2, v)),
            bop,
        },
        _ => e,
    }
}

/// The versions after new code for each node of the update, one after the other.
pub open spec fn versions_after(v: Versions, update: Seq<(Seq<char>, ExprModel)>) -> Versions
    decreases update.len(),
{
    if update.len() == 0 {
        v
    } else {
        let before = versions_after(v, update.drop_last());
        before.insert(
            update.last().0,
            (next_version(before, update.last().0) + 1) as u64,
        )
    }
}

/// The update in which each node bears its new version, and refers to the versions that
/// are the latest by then, its own among them.
pub open spec fn translated(
    v: Versions,
    update: Seq<(Seq<char>, ExprModel)>,
) -> Seq<(Seq<char>, ExprModel)>
    decreases update.len(),
{
    if update.len() == 0 {
        Seq::empty()
    } else {
        let name = update.last().0;
        translated(v, update.drop_last()).push(
            (
                versioned(name, next_version(versions_after(v, update.drop_last()), name)),
                versioned_expr(update.last().1, versions_after(v, update)),
            ),
        )
    }
}

/// No version number overflows.
pub open spec fn versions_fit(v: Versions, update: Seq<(Seq<char>, ExprModel)>) -> bool
    decreases update.len(),
{
    update.len() == 0 || (versions_fit(v, update.drop_last()) && next_version(
        versions_after(v, update.drop_last()),
        update.last().0,
    ) < u64::MAX)
}

proof fn lemma_fit_prefix(v: Versions, update: Seq<(Seq<char>, ExprModel)>, i: int)
    requires
        versions_fit(v, update),
        0 <= i <= update.len(),
    ensures
        versions_fit(v, update.take(i)),
    decreases update.len(),
{
    if i == update.len() {
        assert(update.take(i) =~= update);
    } else {
        lemma_fit_prefix(v, update.drop_last(), i);
        assert(update.drop_last().take(i) =~= update.take(i));
    }
}

/// How often the update has new code for `name`.
pub open spec fn occurrences(update: Seq<(Seq<char>, ExprModel)>, name: Seq<char>) -> nat
    decreases update.len(),
{
    if update.len() == 0 {
        0
    } else {
        occurrences(update.drop_last(), name) + if update.last().0 == name {
            1nat
        } else {
            0nat
        }
    }
}

/// Each node is ahead by as many versions as the update has codes for it; a node without
/// new code stays where it was.
pub proof fn law_versions_count_codes(
    v: Versions,
    update: Seq<(Seq<char>, ExprModel)>,
    name: Seq<char>,
)
    requires
        versions_fit(v, update),
    ensures
        next_version(versions_after(v, update), name) == next_version(v, name) + occurrences(
            update,
            name,
        ),
        occurrences(update, name) == 0 ==> (versions_after(v, update).contains_key(name)
            <==> v.contains_key(name)),
    decreases update.len(),
{
    if update.len() > 0 {
        law_versions_count_codes(v, update.drop_last(), name);
    }
}

/// The translated update has the same length, and new code for a node that comes once
/// gets the version that comes next for it.
pub proof fn law_translated_names(v: Versions, update: Seq<(Seq<char>, ExprModel)>, i: int)
    requires
        versions_fit(v, update),
        0 <= i < update.len(),
    ensures
        translated(v, update).len() == update.len(),
        translated(v, update)[i].0 == versioned(
            update[i].0,
            next_version(v, update[i].0) + occurrences(update.take(i), update[i].0),
        ),
        translated(v, update)[i].1 == versioned_expr(
            update[i].1,
            versions_after(v, update.take(i + 1)),
        ),
    decreases update.len(),
{
    lemma_translated_len(v, update);
    let rest = update.drop_last();
    if i < rest.len() {
        law_translated_names(v, rest, i);
        assert(rest.take(i) =~= update.take(i));
        assert(rest.take(i + 1) =~= update.take(i + 1));
    } else {
        assert(update.take(i) =~= rest);
        assert(update.take(i + 1) =~= update);
        lemma_translated_len(v, rest);
        law_versions_count_codes(v, rest, update[i].0);
    }
}

proof fn lemma_translated_len(v: Versions, update: Seq<(Seq<char>, ExprModel)>)
    ensures
        translated(v, update).len() == update.len(),
    decreases update.len(),
{
    if update.len() > 0 {
        lemma_translated_len(v, update.drop_last());
    }
}

impl Manager {
    /// The number of the latest version of a node.
    pub fn latest_version_of(&self, name: &String) -> (r: u64)
        ensures
            r == latest_version(self.deep_view().versions, name@),
    {
        match self.subscript_versions.get(name) {
            Some(v) => if *v > 0 {
                *v - 1
            } else {
                0
            },
            None => 0,
        }
    }

    pub fn version_expr(&self, expr: &Expr) -> (r: Expr)
        ensures
            r.deep_view() == versioned_expr(expr.deep_view(), self.deep_view().versions),
        decreases expr,
    {
        match expr {
            Expr::IdExpr { ident } => Expr::IdExpr {
                ident: versioned_name(ident, self.latest_version_of(ident)),
            },
            Expr::BopExpr { opd1, opd2, bop } => Expr::BopExpr {
                opd1: Box::new(self.version_expr(opd1)),
                opd2: Box::new(self.version_expr(opd2)),
                bop: *bop,
            },
            _ => expr.dup(),
        }
    }

    /// Whether no version number overflows on the update.
    pub fn versions_leave_room(&self, update: &Vec<(String, Expr)>) -> (r: bool)
        ensures
            r == versions_fit(self.deep_view().versions, update.deep_view()),
    {
        let ghost v = self.deep_view().versions;
        let ghost u = update.deep_view();
        let mut versions = self.subscript_versions.dup();
        let mut i: usize = 0;
        assert(u.take(0) =~= Seq::<(Seq<char>, ExprModel)>::empty());
        while i < update.len()
            invariant
                i <= update.len() == u.len(),
                u == update.deep_view(),
                v == self.deep_view().versions,
                versions.deep_view() == versions_after(v, u.take(i as int)),
                versions_fit(v, u.take(i as int)),
            decreases update.len() - i,
        {
            let name = &update[i].0;
            let next: u64 = match versions.get(name) {
                Some(n) => *n,
                None => 0,
            };
            proof {
                assert(u[i as int] == (update[i as int].0@, update[i as int].1.deep_view()));
                assert(u.take(i + 1).drop_last() =~= u.take(i as int));
            }
            if next == u64::MAX {
                proof {
                    if versions_fit(v, u) {
                        lemma_fit_prefix(v, u, i + 1);
                    }
                }
                return false;
            }
            versions.insert(name.clone(), next + 1);
            i = i + 1;
        }
        assert(u.take(i as int) =~= u);
        true
    }

    /// Gives each node of the update its next version.
    pub fn translate_to_versioned_form(&mut self, update: &Vec<(String, Expr)>) -> (r: Vec<
        (String, Expr),
    >)
        requires
            versions_fit(old(self).deep_view().versions, update.deep_view()),
        ensures
            r.deep_view() == translated(old(self).deep_view().versions, update.deep_view()),
            final(self).deep_view() == (ManagerState {
                versions: versions_after(old(self).deep_view().versions, update.deep_view()),
                ..old(self).deep_view()
            }),
    {
        let ghost s = self.deep_view();
        let ghost v = s.versions;
        let ghost u = update.deep_view();
        let mut r: Vec<(String, Expr)> = Vec::new();
        let mut i: usize = 0;
        assert(u.take(0) =~= Seq::<(Seq<char>, ExprModel)>::empty());
        assert(r.deep_view() =~= Seq::<(Seq<char>, ExprModel)>::empty());
        while i < update.len()
            invariant
                i <= update.len() == u.len(),
                u == update.deep_view(),
                versions_fit(v, u),
                v == s.versions,
                self.deep_view() == (ManagerState {
                    versions: versions_after(v, u.take(i as int)),
                    ..s
                }),
                r.deep_view() == translated(v, u.take(i as int)),
            decreases update.len() - i,
        {
            let ghost before = r.deep_view();
            proof {
                assert(u[i as int] == (update[i as int].0@, update[i as int].1.deep_view()));
                assert(u.take(i + 1).drop_last() =~= u.take(i as int));
                lemma_fit_prefix(v, u, i + 1);
            }
            let name = &update[i].0;
            let version: u64 = match self.subscript_versions.get(name) {
                Some(n) => *n,
                None => 0,
            };
            let new_name = versioned_name(name, version);
            self.subscript_versions.insert(name.clone(), version + 1);
            let new_expr = self.version_expr(&update[i].1);
            let ghost entry = (new_name@, new_expr.deep_view());
            r.push((new_name, new_expr));
            assert(r.deep_view() =~= before.push(entry));
            i = i + 1;
        }
        assert(u.take(i as int) =~= u);
        r
    }
}

} // verus!
