//! What an update makes of the code that it carries: which names it refers to, which
//! workers it gets, and which values it gives.

use vstd::prelude::*;

#[allow(unused_imports)]
use crate::collections::is_listing;
#[allow(unused_imports)]
use crate::expr::{names_in, value_in, ExprModel, ValModel};
#[allow(unused_imports)]
use crate::exprlaws::{
    computes, law_names_are_those_that_occur, law_value_depends_on_names, occurs, Names,
};
#[allow(unused_imports)]
use crate::graph::{edge, has_cycle, is_cycle, Graph};
#[allow(unused_imports)]
use crate::manager::cycles::updated_graph;
#[allow(unused_imports)]
use crate::manager::install::{is_version_of_any, lemma_with_nodes_config, NewWorkerModel};
#[allow(unused_imports)]
use crate::manager::values::law_value_follows_code;
#[allow(unused_imports)]
use crate::manager::versions::{
    latest_version, law_translated_names, law_versions_count_codes, next_version, occurrences,
    translated, versioned_expr, versions_after, versions_fit, Versions,
};
#[allow(unused_imports)]
use crate::manager::{reads_or_writes, ManagerState};
#[allow(unused_imports)]
use crate::lock::LockType;
#[allow(unused_imports)]
use crate::message::{CodeUpdateModel, Endpoint, MessageModel, Posted, WorkerKind};
#[allow(unused_imports)]
use crate::text::{base_of, is_version_of, lemma_base_of_version, versioned};
#[allow(unused_imports)]
use crate::transaction::TxnId;

verus! {

/// The expressions have the same operations and constants at the same places, and names at
/// the same places; actions and lambdas are the same.
pub open spec fn same_but_names(a: ExprModel, b: ExprModel) -> bool
    decreases a,
{
    match (a, b) {
        (ExprModel::IdExpr { .. }, ExprModel::IdExpr { .. }) => true,
        (
            ExprModel::BopExpr { opd1: a1, opd2: a2, bop: x },
            ExprModel::BopExpr { opd1: b1, opd2: b2, bop: y },
        ) => x == y && same_but_names(*a1, *b1) && same_but_names(*a2, *b2),
        _ => a == b,
    }
}

/// A translation to versions changes nothing but names.
pub proof fn law_translation_changes_names_only(e: ExprModel, v: Versions)
    ensures
        same_but_names(e, versioned_expr(e, v)),
    decreases e,
{
    match e {
        ExprModel::BopExpr { opd1, opd2, .. } => {
            law_translation_changes_names_only(*opd1, v);
            law_translation_changes_names_only(*opd2, v);
        },
        _ => {},
    }
}

/// A translation to versions keeps the value: where the latest version of each name has
/// the value of the name, the translated expression has the value of the expression.
pub proof fn law_translation_keeps_value(e: ExprModel, v: Versions, plain: Names, latest: Names)
    requires
        forall|n: Seq<char>| #[trigger]
            occurs(e, n) ==> latest.get(versioned(n, latest_version(v, n))) == plain.get(n),
    ensures
        value_in(versioned_expr(e, v), latest) == value_in(e, plain),
    decreases e,
{
    match e {
        ExprModel::IdExpr { ident } => {
            assert(occurs(e, ident));
        },
        ExprModel::BopExpr { opd1, opd2, .. } => {
            assert forall|n: Seq<char>| #[trigger] occurs(*opd1, n) implies latest.get(
                versioned(n, latest_version(v, n)),
            ) == plain.get(n) by {
                assert(occurs(e, n));
            }
            assert forall|n: Seq<char>| #[trigger] occurs(*opd2, n) implies latest.get(
                versioned(n, latest_version(v, n)),
            ) == plain.get(n) by {
                assert(occurs(e, n));
            }
            law_translation_keeps_value(*opd1, v, plain, latest);
            law_translation_keeps_value(*opd2, v, plain, latest);
        },
        _ => {},
    }
}

/// A computation that is translated refers to the latest versions of its names and to
/// nothing else.
pub proof fn law_translation_names_latest(e: ExprModel, v: Versions, d: Seq<char>)
    requires
        computes(e),
    ensures
        occurs(versioned_expr(e, v), d) <==> exists|n: Seq<char>| #[trigger]
            occurs(e, n) && d == versioned(n, latest_version(v, n)),
    decreases e,
{
    match e {
        ExprModel::IdExpr { ident } => {
            let w = ExprModel::IdExpr { ident: versioned(ident, latest_version(v, ident)) };
            assert(versioned_expr(e, v) == w);
            assert(occurs(w, d) <==> d == versioned(ident, latest_version(v, ident)));
            assert(occurs(e, ident));
            assert forall|n: Seq<char>| #[trigger] occurs(e, n) implies n == ident by {}
        },
        ExprModel::BopExpr { opd1, opd2, .. } => {
            law_translation_names_latest(*opd1, v, d);
            law_translation_names_latest(*opd2, v, d);
            assert(occurs(versioned_expr(e, v), d) <==> occurs(versioned_expr(*opd1, v), d)
                || occurs(versioned_expr(*opd2, v), d));
            assert forall|n: Seq<char>| #[trigger] occurs(e, n) implies occurs(*opd1, n) || occurs(
                *opd2,
                n,
            ) by {}
            if exists|n: Seq<char>| #[trigger]
                occurs(*opd1, n) && d == versioned(n, latest_version(v, n)) {
                let n = choose|n: Seq<char>| #[trigger]
                    occurs(*opd1, n) && d == versioned(n, latest_version(v, n));
                assert(occurs(e, n));
            }
            if exists|n: Seq<char>| #[trigger]
                occurs(*opd2, n) && d == versioned(n, latest_version(v, n)) {
                let n = choose|n: Seq<char>| #[trigger]
                    occurs(*opd2, n) && d == versioned(n, latest_version(v, n));
                assert(occurs(e, n));
            }
        },
        _ => {
            assert(versioned_expr(e, v) == e);
            assert(!occurs(e, d));
            assert forall|n: Seq<char>| !(#[trigger] occurs(e, n)) by {}
        },
    }
}

/// Each code of an update is installed with nothing but its names changed, under the name
/// of a version of its node.
pub proof fn law_installed_code_is_the_updates(
    v: Versions,
    update: Seq<(Seq<char>, ExprModel)>,
    i: int,
)
    requires
        versions_fit(v, update),
        0 <= i < update.len(),
    ensures
        translated(v, update).len() == update.len(),
        same_but_names(update[i].1, translated(v, update)[i].1),
        base_of(translated(v, update)[i].0) == base_of(update[i].0),
{
    law_translated_names(v, update, i);
    law_translation_changes_names_only(update[i].1, versions_after(v, update.take(i + 1)));
    lemma_base_of_version(
        update[i].0,
        next_version(v, update[i].0) + occurrences(update.take(i), update[i].0),
    );
}

proof fn lemma_occurrences_after(update: Seq<(Seq<char>, ExprModel)>, i: int, name: Seq<char>)
    requires
        0 <= i <= update.len(),
        forall|j: int| i <= j < update.len() ==> (#[trigger] update[j]).0 != name,
    ensures
        occurrences(update, name) == occurrences(update.take(i), name),
    decreases update.len(),
{
    if i < update.len() {
        let rest = update.drop_last();
        assert(update[update.len() - 1].0 != name);
        assert forall|j: int| i <= j < rest.len() implies (#[trigger] rest[j]).0 != name by {
            assert(rest[j] == update[j]);
        }
        lemma_occurrences_after(rest, i, name);
        assert(rest.take(i) =~= update.take(i));
    } else {
        assert(update.take(i) =~= update);
    }
}

/// The version numbers in which an update leaves its nodes, and those that it gives to its
/// codes, fit together: the last code for a node becomes the version in force.
pub proof fn law_last_code_is_in_force(
    v: Versions,
    update: Seq<(Seq<char>, ExprModel)>,
    i: int,
)
    requires
        versions_fit(v, update),
        0 <= i < update.len(),
        forall|j: int| i < j < update.len() ==> (#[trigger] update[j]).0 != update[i].0,
    ensures
        translated(v, update).len() == update.len(),
        translated(v, update)[i].0 == versioned(
            update[i].0,
            latest_version(versions_after(v, update), update[i].0),
        ),
{
    let f = update[i].0;
    law_translated_names(v, update, i);
    law_versions_count_codes(v, update, f);
    lemma_occurrences_after(update, i + 1, f);
    assert(update.take(i + 1).drop_last() =~= update.take(i));
    assert(occurrences(update.take(i + 1), f) == occurrences(update.take(i), f) + 1);
}

proof fn lemma_last_of_key(
    s: ManagerState,
    codes: Seq<(Seq<char>, ExprModel)>,
    inboxes: Seq<Endpoint>,
    i: int,
)
    requires
        0 <= i < codes.len(),
        forall|j: int| i < j < codes.len() ==> (#[trigger] codes[j]).0 != codes[i].0,
    ensures
        s.with_nodes(codes, inboxes).config.get(codes[i].0) == Some(codes[i].1),
    decreases codes.len(),
{
    let rest = codes.drop_last();
    if i < rest.len() {
        assert(codes[codes.len() - 1].0 != codes[i].0);
        assert forall|j: int| i < j < rest.len() implies (#[trigger] rest[j]).0 != rest[i].0 by {
            assert(rest[j] == codes[j]);
        }
        lemma_last_of_key(s, rest, inboxes, i);
    }
}

/// A name in a translated expression comes from a name in the expression, and both mean
/// the same node.
proof fn lemma_name_comes_from(
    t: ManagerState,
    e: ExprModel,
    v: Versions,
    d: Seq<char>,
) -> (n: Seq<char>)
    requires
        occurs(versioned_expr(e, v), d),
    ensures
        occurs(e, n),
        t.resolved(n) == t.resolved(d),
    decreases e,
{
    match e {
        ExprModel::IdExpr { ident } => {
            let w = ExprModel::IdExpr { ident: versioned(ident, latest_version(v, ident)) };
            assert(versioned_expr(e, v) == w);
            assert(occurs(w, d) <==> d == versioned(ident, latest_version(v, ident)));
            lemma_base_of_version(ident, latest_version(v, ident));
            ident
        },
        ExprModel::BopExpr { opd1, opd2, bop } => {
            if occurs(versioned_expr(*opd1, v), d) {
                lemma_name_comes_from(t, *opd1, v, d)
            } else {
                lemma_name_comes_from(t, *opd2, v, d)
            }
        },
        _ => d,
    }
}

/// A name in an expression goes into the translated one, and both mean the same node.
proof fn lemma_name_goes_to(
    t: ManagerState,
    e: ExprModel,
    v: Versions,
    n: Seq<char>,
) -> (d: Seq<char>)
    requires
        occurs(e, n),
    ensures
        occurs(versioned_expr(e, v), d),
        t.resolved(n) == t.resolved(d),
    decreases e,
{
    match e {
        ExprModel::IdExpr { ident } => {
            let w = ExprModel::IdExpr { ident: versioned(ident, latest_version(v, ident)) };
            assert(versioned_expr(e, v) == w);
            assert(occurs(w, versioned(ident, latest_version(v, ident))));
            lemma_base_of_version(ident, latest_version(v, ident));
            versioned(ident, latest_version(v, ident))
        },
        ExprModel::BopExpr { opd1, opd2, bop } => {
            if occurs(*opd1, n) {
                lemma_name_goes_to(t, *opd1, v, n)
            } else {
                lemma_name_goes_to(t, *opd2, v, n)
            }
        },
        _ => n,
    }
}

/// After an update, a node has the value that the code of the update itself gives it, on
/// the values of the nodes that this code names; and none where one of these has none.
pub proof fn law_node_has_value_of_its_code(
    s: ManagerState,
    update: CodeUpdateModel,
    inboxes: Seq<Endpoint>,
    i: int,
)
    requires
        versions_fit(s.versions, update.new_code),
        0 <= i < update.new_code.len(),
        forall|j: int|
            i < j < update.new_code.len() ==> (#[trigger] update.new_code[j]).0
                != update.new_code[i].0,
        forall|j: int|
            0 <= j < update.new_code.len() ==> base_of((#[trigger] update.new_code[j]).0)
                == update.new_code[j].0,
        s.updated(update, inboxes).retrievable(update.new_code[i].0),
    ensures
        ({
            let t = s.updated(update, inboxes);
            let f = update.new_code[i].0;
            let code = update.new_code[i].1;
            let values = Map::new(|n: Seq<char>| true, |n: Seq<char>| t.value_of(n));
            if forall|n: Seq<char>| #[trigger] occurs(code, n) ==> t.value_of(n) is Some {
                t.value_of(f) == value_in(code, values)
            } else {
                t.value_of(f) is None
            }
        }),
{
    let t = s.updated(update, inboxes);
    let u = update.new_code;
    let codes = translated(s.versions, u);
    let f = u[i].0;
    let e = u[i].1;
    let v = versions_after(s.versions, u.take(i + 1));
    let w = versioned_expr(e, v);
    law_last_code_is_in_force(s.versions, u, i);
    law_translated_names(s.versions, u, i);
    lemma_with_nodes_config(s.emptied(update), codes, inboxes, f);
    assert(t.versions == versions_after(s.versions, u));
    assert(t.resolved(f) == codes[i].0);
    assert forall|j: int| i < j < codes.len() implies (#[trigger] codes[j]).0 != codes[i].0 by {
        law_translated_names(s.versions, u, j);
        assert(u[j].0 != f);
        lemma_base_of_version(u[j].0, next_version(s.versions, u[j].0) + occurrences(u.take(j), u[j].0));
        lemma_base_of_version(f, next_version(s.versions, f) + occurrences(u.take(i), f));
    }
    lemma_last_of_key(s.emptied(update), codes, inboxes, i);
    assert(t.config.contains_key(t.resolved(f)) && t.config[t.resolved(f)] == w);
    law_value_follows_code(t, f);
    let values = Map::new(|n: Seq<char>| true, |n: Seq<char>| t.value_of(n));
    let own = Map::new(|d: Seq<char>| names_in(w).contains(d), |d: Seq<char>| t.value_of(d));
    assert forall|d: Seq<char>| occurs(w, d) == #[trigger] names_in(w).contains(d) by {
        law_names_are_those_that_occur(w, d);
    }
    if forall|n: Seq<char>| #[trigger] occurs(e, n) ==> t.value_of(n) is Some {
        assert forall|d: Seq<char>| #[trigger] names_in(w).contains(d) implies t.value_of(
            d,
        ) is Some by {
            let n = lemma_name_comes_from(t, e, v, d);
            assert(t.value_of(n) is Some);
        }
        law_value_depends_on_names(w, own, values);
        assert forall|n: Seq<char>| #[trigger] occurs(e, n) implies values.get(
            versioned(n, latest_version(v, n)),
        ) == values.get(n) by {
            lemma_base_of_version(n, latest_version(v, n));
            assert(t.resolved(versioned(n, latest_version(v, n))) == t.resolved(n));
        }
        law_translation_keeps_value(e, v, values, values);
    } else {
        let n = choose|n: Seq<char>| #[trigger] occurs(e, n) && t.value_of(n) is None;
        let d = lemma_name_goes_to(t, e, v, n);
        assert(names_in(w).contains(d));
        assert(t.value_of(d) is None);
    }
}

/// With the codes of the update in place of the earlier ones, `a` names `b`: in its last
/// new code, or, where it has none, in what is recorded of it.
pub open spec fn refers(
    g: Graph,
    update: Seq<(Seq<char>, ExprModel)>,
    a: Seq<char>,
    b: Seq<char>,
) -> bool {
    ||| exists|i: int|
        {
            &&& 0 <= i < update.len()
            &&& (#[trigger] update[i]).0 == a
            &&& forall|j: int| i < j < update.len() ==> (#[trigger] update[j]).0 != a
            &&& occurs(update[i].1, b)
        }
    ||| (forall|i: int| 0 <= i < update.len() ==> (#[trigger] update[i]).0 != a)
        && g.contains_key(a) && g[a].contains(b)
}

proof fn lemma_edges(
    g: Graph,
    update: Seq<(Seq<char>, ExprModel)>,
    a: Seq<char>,
    b: Seq<char>,
)
    ensures
        edge(updated_graph(g, update), a, b) <==> refers(g, update, a, b),
    decreases update.len(),
{
    if update.len() > 0 {
        let rest = update.drop_last();
        let last = update.len() - 1;
        assert forall|i: int| 0 <= i < rest.len() implies #[trigger] update[i] == rest[i] by {}
        lemma_edges(g, rest, a, b);
        law_names_are_those_that_occur(update[last].1, b);
        if update[last].0 == a {
            if refers(g, update, a, b) {
                assert(occurs(update[last].1, b));
            }
        } else {
            if refers(g, rest, a, b) {
                if exists|i: int|
                    {
                        &&& 0 <= i < rest.len()
                        &&& (#[trigger] rest[i]).0 == a
                        &&& forall|j: int| i < j < rest.len() ==> (#[trigger] rest[j]).0 != a
                        &&& occurs(rest[i].1, b)
                    } {
                    let i = choose|i: int|
                        {
                            &&& 0 <= i < rest.len()
                            &&& (#[trigger] rest[i]).0 == a
                            &&& forall|j: int| i < j < rest.len() ==> (#[trigger] rest[j]).0 != a
                            &&& occurs(rest[i].1, b)
                        };
                    assert(update[i].0 == a);
                    assert forall|j: int| i < j < update.len() implies (#[trigger] update[j]).0
                        != a by {
                        if j < last {
                            assert(rest[j] == update[j]);
                        }
                    }
                } else {
                    assert forall|i: int| 0 <= i < update.len() implies (#[trigger] update[i]).0
                        != a by {
                        if i < last {
                            assert(rest[i] == update[i]);
                        }
                    }
                }
            }
            if refers(g, update, a, b) {
                if exists|i: int|
                    {
                        &&& 0 <= i < update.len()
                        &&& (#[trigger] update[i]).0 == a
                        &&& forall|j: int| i < j < update.len() ==> (#[trigger] update[j]).0 != a
                        &&& occurs(update[i].1, b)
                    } {
                    let i = choose|i: int|
                        {
                            &&& 0 <= i < update.len()
                            &&& (#[trigger] update[i]).0 == a
                            &&& forall|j: int|
                                i < j < update.len() ==> (#[trigger] update[j]).0 != a
                            &&& occurs(update[i].1, b)
                        };
                    assert(rest[i].0 == a);
                    assert forall|j: int| i < j < rest.len() implies (#[trigger] rest[j]).0
                        != a by {
                        assert(rest[j] == update[j]);
                    }
                } else {
                    assert forall|i: int| 0 <= i < rest.len() implies (#[trigger] rest[i]).0
                        != a by {
                        assert(rest[i] == update[i]);
                    }
                }
            }
        }
    }
}

/// Each node in `ring` names the next one, and the last one names the first.
pub open spec fn refers_round(
    g: Graph,
    update: Seq<(Seq<char>, ExprModel)>,
    ring: Seq<Seq<char>>,
) -> bool {
    &&& ring.len() > 0
    &&& forall|i: int|
        0 <= i < ring.len() ==> refers(
            g,
            update,
            #[trigger] ring[i],
            if i + 1 < ring.len() {
                ring[i + 1]
            } else {
                ring[0]
            },
        )
}

/// A cycle in the graph that the update leaves is a ring of names.
pub proof fn lemma_cycle_refers_round(
    g: Graph,
    update: Seq<(Seq<char>, ExprModel)>,
    c: Seq<Seq<char>>,
)
    requires
        is_cycle(updated_graph(g, update), c),
    ensures
        refers_round(g, update, c),
{
    let h = updated_graph(g, update);
    assert forall|i: int| 0 <= i < c.len() implies refers(
        g,
        update,
        #[trigger] c[i],
        if i + 1 < c.len() {
            c[i + 1]
        } else {
            c[0]
        },
    ) by {
        if i + 1 < c.len() {
            assert(edge(h, c[i], c[i + 1]));
            lemma_edges(g, update, c[i], c[i + 1]);
        } else {
            lemma_edges(g, update, c[i], c[0]);
        }
    }
}

/// An update is refused as cyclic exactly where some nodes name each other in a ring, by
/// any operation and on either side, in the codes as the update leaves them.
pub proof fn law_rings_are_refused(g: Graph, update: Seq<(Seq<char>, ExprModel)>)
    ensures
        has_cycle(updated_graph(g, update)) <==> exists|ring: Seq<Seq<char>>|
            refers_round(g, update, ring),
{
    let h = updated_graph(g, update);
    if has_cycle(h) {
        let c = choose|c: Seq<Seq<char>>| is_cycle(h, c);
        lemma_cycle_refers_round(g, update, c);
    }
    if exists|ring: Seq<Seq<char>>| refers_round(g, update, ring) {
        let c = choose|ring: Seq<Seq<char>>| refers_round(g, update, ring);
        assert forall|i: int| 0 <= i < c.len() - 1 implies edge(h, #[trigger] c[i], c[i + 1]) by {
            lemma_edges(g, update, c[i], c[i + 1]);
        }
        lemma_edges(g, update, c[c.len() - 1], c[0]);
        assert(is_cycle(h, c));
    }
}

/// New code changes what is recorded of its own node, and of no other: the code itself, the
/// names in it, who depends on whom, and the worker.
pub proof fn law_new_code_is_recorded(
    s: ManagerState,
    name: Seq<char>,
    expr: ExprModel,
    inbox: Endpoint,
)
    ensures
        ({
            let t = s.with_node(name, expr, inbox);
            &&& t.config.contains_key(name) && t.config[name] == expr
            &&& t.graph.contains_key(name)
            &&& forall|d: Seq<char>| #[trigger] t.graph[name].contains(d) <==> occurs(expr, d)
            &&& forall|d: Seq<char>, n: Seq<char>|
                t.reverse.contains_key(d) && #[trigger] t.reverse[d].contains(n) <==> (
                s.reverse.contains_key(d) && s.reverse[d].contains(n)) || (n == name && occurs(
                    expr,
                    d,
                ))
            &&& t.workers.contains_key(name) && t.workers[name] == inbox
            &&& t.kinds.contains_key(name) && (t.kinds[name] == WorkerKind::Var
                <==> forall|d: Seq<char>| !(#[trigger] occurs(expr, d)))
            &&& forall|n: Seq<char>| #[trigger]
                t.managed.contains(n) <==> s.managed.contains(n) || n == name
            &&& forall|n: Seq<char>|
                n != name ==> #[trigger] t.config.get(n) == s.config.get(n) && t.graph.get(n)
                    == s.graph.get(n) && t.workers.get(n) == s.workers.get(n) && t.kinds.get(n)
                    == s.kinds.get(n) && t.owners.get(n) == s.owners.get(n)
            &&& t.owners.get(name) == if t.kinds[name] == WorkerKind::Def && s.id is Some {
                Some(s.id->0)
            } else {
                s.owners.get(name)
            }
            &&& t.versions == s.versions
            &&& t.node_locks == s.node_locks
            &&& t.active == s.active
            &&& t.txn_locks == s.txn_locks
            &&& t.peers == s.peers
            &&& t.id == s.id
            &&& t.inbox == s.inbox
        }),
{
    let t = s.with_node(name, expr, inbox);
    assert forall|d: Seq<char>| #[trigger] names_in(expr).contains(d) == occurs(expr, d) by {
        law_names_are_those_that_occur(expr, d);
    }
    if forall|d: Seq<char>| !(#[trigger] occurs(expr, d)) {
        assert(names_in(expr) =~= Set::<Seq<char>>::empty());
    } else {
        let d = choose|d: Seq<char>| #[trigger] occurs(expr, d);
        assert(names_in(expr).contains(d));
    }
}

/// The name is that of a version of a node that the update changes: the node's name with a
/// number behind it.
pub open spec fn is_replaced(update: CodeUpdateModel, name: Seq<char>) -> bool {
    exists|node: Seq<char>, version: nat|
        update.nodes_to_modify.contains(node) && name == #[trigger] versioned(node, version)
}

/// What an update leaves of the earlier records: code that is a version of a node that
/// changes is gone from all of them, and nothing else is.
pub proof fn law_stale_code_is_forgotten(s: ManagerState, update: CodeUpdateModel)
    ensures
        ({
            let t = s.emptied(update);
            let goes = |n: Seq<char>| s.config.contains_key(n) && is_replaced(update, n);
            &&& forall|n: Seq<char>| #[trigger]
                t.config.get(n) == if goes(n) {
                    None
                } else {
                    s.config.get(n)
                }
            &&& forall|n: Seq<char>| #[trigger]
                t.graph.get(n) == if goes(n) {
                    None
                } else {
                    s.graph.get(n)
                }
            &&& forall|d: Seq<char>| #[trigger]
                t.reverse.contains_key(d) <==> s.reverse.contains_key(d)
            &&& forall|d: Seq<char>, n: Seq<char>|
                s.reverse.contains_key(d) ==> (#[trigger] t.reverse[d].contains(n)
                    <==> s.reverse[d].contains(n) && !goes(n))
            &&& t.workers == s.workers
            &&& t.kinds == s.kinds
            &&& t.managed == s.managed
            &&& t.owners == s.owners
            &&& t.node_locks == s.node_locks
        }),
{
    assert forall|n: Seq<char>| #[trigger]
        is_version_of_any(n, update.nodes_to_modify) <==> is_replaced(update, n) by {
        if is_replaced(update, n) {
            let (node, version) = choose|node: Seq<char>, version: nat|
                update.nodes_to_modify.contains(node) && n == #[trigger] versioned(node, version);
            assert(is_version_of(n, node));
        }
        if is_version_of_any(n, update.nodes_to_modify) {
            let node = choose|node: Seq<char>| #[trigger]
                update.nodes_to_modify.contains(node) && is_version_of(n, node);
            let version = choose|version: nat| n == #[trigger] versioned(node, version);
            assert(n == versioned(node, version));
        }
    }
    let counted = ManagerState { versions: versions_after(s.versions, update.new_code), ..s };
    assert forall|n: Seq<char>| #[trigger]
        counted.stale(update.nodes_to_modify).contains(n) <==> s.config.contains_key(n)
            && is_replaced(update, n) by {
        assert(is_version_of_any(n, update.nodes_to_modify) <==> is_replaced(update, n));
    }
}

/// The worker that new code gets: that of a variable exactly where the code names nothing,
/// with the node's name and the manager's address; elsewhere that of a definition with this
/// code, which is subscribed to each name in it.
pub proof fn law_worker_fits_code(
    s: ManagerState,
    name: Seq<char>,
    expr: ExprModel,
    inbox: Endpoint,
    w: NewWorkerModel,
)
    requires
        s.starts(name, expr, inbox, w),
    ensures
        w is Var <==> forall|d: Seq<char>| !(#[trigger] occurs(expr, d)),
        w matches NewWorkerModel::Var { inbox: at, worker } ==> at == inbox && worker.name == name
            && worker.manager == s.inbox && worker.value is None && worker.next_value is None && (
        forall|l| !worker.locks.contains(l)) && (forall|l| !worker.lock_queue.contains(l)),
        w matches NewWorkerModel::Def { inbox: at, worker, subscriptions } ==> at == inbox
            && worker.name == name && worker.inbox == inbox && worker.manager == s.inbox
            && worker.expr == expr && worker.value is None && (forall|l|
            !worker.locks.contains(l)) && (forall|l| !worker.lock_queue.contains(l)) && (forall|
            d: Seq<char>,
        | #[trigger]
            worker.replica.contains_key(d) <==> occurs(expr, d)) && (forall|d: Seq<char>|
         #[trigger]
            worker.replica.contains_key(d) ==> worker.replica[d] is None) && (forall|
            d: Seq<char>,
        | #[trigger]
            worker.depends.contains_key(d) <==> s.graph.contains_key(d) || d == name) && (forall|
            d: Seq<char>,
        | #[trigger]
            worker.depends[name].contains(d) <==> occurs(expr, d)) && (forall|d: Seq<char>|
            s.graph.contains_key(d) && d != name ==> #[trigger] worker.depends[d] == s.graph[d])
            && worker.pending is None && worker.pred_txns.len() == 0 && worker.counter == 0
            && (forall|k| !worker.waiting.contains_key(k)) && (forall|n: Seq<char>|
            !(#[trigger] worker.subscribers.contains_key(n))) && s.with_node(
            name,
            expr,
            inbox,
        ).subscribes(name, inbox, expr, subscriptions),
{
    assert forall|d: Seq<char>| #[trigger] names_in(expr).contains(d) == occurs(expr, d) by {
        law_names_are_those_that_occur(expr, d);
    }
    if forall|d: Seq<char>| !(#[trigger] occurs(expr, d)) {
        assert(names_in(expr) =~= Set::<Seq<char>>::empty());
    } else {
        let d = choose|d: Seq<char>| #[trigger] occurs(expr, d);
        assert(names_in(expr).contains(d));
    }
}

proof fn lemma_filter_map_contains<A, B>(s: Seq<A>, f: spec_fn(A) -> Option<B>, b: B)
    ensures
        s.filter_map(f).contains(b) <==> exists|i: int|
            0 <= i < s.len() && f(#[trigger] s[i]) == Some(b),
    decreases s.len(),
{
    reveal(Seq::filter_map);
    if s.len() > 0 {
        let rest = s.drop_last();
        let below = rest.filter_map(f);
        lemma_filter_map_contains(rest, f, b);
        if exists|i: int| 0 <= i < rest.len() && f(#[trigger] rest[i]) == Some(b) {
            let i = choose|i: int| 0 <= i < rest.len() && f(#[trigger] rest[i]) == Some(b);
            assert(f(s[i]) == Some(b));
        }
        if exists|i: int| 0 <= i < s.len() && f(#[trigger] s[i]) == Some(b) {
            let i = choose|i: int| 0 <= i < s.len() && f(#[trigger] s[i]) == Some(b);
            if i < rest.len() {
                assert(f(rest[i]) == Some(b));
            }
        }
        match f(s.last()) {
            Some(x) => {
                assert(s.filter_map(f) == below.push(x));
                assert(below.push(x).contains(b) <==> below.contains(b) || x == b) by {
                    if below.contains(b) {
                        let i = choose|i: int| 0 <= i < below.len() && below[i] == b;
                        assert(below.push(x)[i] == b);
                    }
                    assert(below.push(x)[below.len() as int] == x);
                    if below.push(x).contains(b) {
                        let i = choose|i: int|
                            0 <= i < below.push(x).len() && below.push(x)[i] == b;
                        if i < below.len() {
                            assert(below[i] == b);
                        }
                    }
                }
                assert(s[s.len() - 1] == s.last());
            },
            None => {},
        }
    }
}

/// A definition asks to be told of each name in its code and of nothing else: the peer
/// that owns the name, where it is not handled here, or else its worker; where there is none,
/// the request comes back to the definition itself.
pub proof fn law_definition_subscribes_to_its_names(
    s: ManagerState,
    name: Seq<char>,
    inbox: Endpoint,
    expr: ExprModel,
    out: Seq<Posted>,
)
    requires
        s.subscribes(name, inbox, expr, out),
    ensures
        forall|d: Seq<char>| #[trigger]
            occurs(expr, d) && (s.managed.contains(d) || !s.owners.contains_key(d))
                ==> out.contains(
                Posted {
                    to: if s.workers.contains_key(d) {
                        s.workers[d]
                    } else {
                        inbox
                    },
                    msg: MessageModel::Subscribe {
                        subscribe_who: d,
                        subscriber_name: name,
                        sender_to_subscriber: inbox,
                    },
                },
            ),
        forall|d: Seq<char>| #[trigger]
            occurs(expr, d) && !s.managed.contains(d) && s.owners.contains_key(d)
                && s.peers.contains_key(s.owners[d]) ==> out.contains(
                Posted {
                    to: s.peers[s.owners[d]],
                    msg: MessageModel::DistributedSubscribe {
                        remote_node: d,
                        subscriber_node: name,
                        subscriber_sender: inbox,
                    },
                },
            ),
        forall|i: int|
            0 <= i < out.len() ==> match (#[trigger] out[i]).msg {
                MessageModel::Subscribe {
                    subscribe_who,
                    subscriber_name,
                    sender_to_subscriber,
                } => occurs(expr, subscribe_who) && subscriber_name == name && sender_to_subscriber
                    == inbox && out[i].to == if s.workers.contains_key(subscribe_who) {
                    s.workers[subscribe_who]
                } else {
                    inbox
                },
                MessageModel::DistributedSubscribe {
                    remote_node,
                    subscriber_node,
                    subscriber_sender,
                } => occurs(expr, remote_node) && subscriber_node == name && subscriber_sender
                    == inbox && !s.managed.contains(remote_node) && s.owners.contains_key(
                    remote_node,
                ) && s.peers.contains_key(s.owners[remote_node]) && out[i].to
                    == s.peers[s.owners[remote_node]],
                _ => false,
            },
{
    let order = choose|order: Seq<Seq<char>>| #[trigger]
        is_listing(order, names_in(expr)) && out == order.filter_map(
            |dep: Seq<char>| s.subscription(name, inbox, dep),
        );
    let f = |dep: Seq<char>| s.subscription(name, inbox, dep);
    assert forall|d: Seq<char>| #[trigger] occurs(expr, d) && s.subscription(
        name,
        inbox,
        d,
    ) is Some implies out.contains(s.subscription(name, inbox, d)->0) by {
        law_names_are_those_that_occur(expr, d);
        assert(order.to_set().contains(d));
        let i = choose|i: int| 0 <= i < order.len() && order[i] == d;
        assert(f(order[i]) == s.subscription(name, inbox, d));
        lemma_filter_map_contains(order, f, s.subscription(name, inbox, d)->0);
    }
    assert forall|i: int| 0 <= i < out.len() implies exists|d: Seq<char>| #[trigger]
        occurs(expr, d) && s.subscription(name, inbox, d) == Some(#[trigger] out[i]) by {
        lemma_filter_map_contains(order, f, out[i]);
        assert(out.contains(out[i]));
        let k = choose|k: int| 0 <= k < order.len() && f(#[trigger] order[k]) == Some(out[i]);
        assert(order.to_set().contains(order[k]));
        law_names_are_those_that_occur(expr, order[k]);
        assert(occurs(expr, order[k]));
    }
}

/// An abort takes every read and write lock of the transaction from the nodes that it
/// uses, and keeps every other lock in its order; the transaction is no longer active.
pub proof fn law_abort_frees_nodes(s: ManagerState, id: TxnId, node: Seq<char>, l: LockType)
    requires
        s.active.contains_key(id),
        s.node_locks.contains_key(node),
    ensures
        ({
            let t = s.aborted(id);
            let own = l == LockType::Read(id) || l == LockType::Write(id);
            &&& !t.active.contains_key(id)
            &&& forall|other: TxnId|
                other != id ==> #[trigger] t.active.get(other) == s.active.get(other)
            &&& t.node_locks.contains_key(node)
            &&& t.node_locks[node].contains(l) <==> s.node_locks[node].contains(l) && !(own
                && s.active[id].contains(node))
            &&& t.config == s.config
            &&& t.workers == s.workers
        }),
{
    let locks = s.node_locks[node];
    let keeps = |l: LockType| !reads_or_writes(l, id);
    if s.active[id].contains(node) {
        crate::collections::lemma_filter_sound(locks, keeps);
        let kept = s.aborted(id).node_locks[node];
        assert(kept == locks.filter(keeps));
    }
}

/// Once the code of an update is installed, there is one worker to start for each of its
/// codes, in their order: on a channel of its own, under the name of its version, and that
/// of a variable exactly where the code names nothing.
pub proof fn law_update_starts_workers(
    s: ManagerState,
    update: CodeUpdateModel,
    inboxes: Seq<Endpoint>,
    ws: Seq<NewWorkerModel>,
    i: int,
)
    requires
        versions_fit(s.versions, update.new_code),
        s.emptied(update).starts_all(translated(s.versions, update.new_code), inboxes, ws),
        0 <= i < update.new_code.len(),
    ensures
        ws.len() == update.new_code.len(),
        ws[i] is Var <==> forall|d: Seq<char>| !(#[trigger] occurs(update.new_code[i].1, d)),
        ws[i] matches NewWorkerModel::Var { inbox, worker } ==> inbox == inboxes[i] && worker.name
            == translated(s.versions, update.new_code)[i].0 && worker.manager == s.inbox,
        ws[i] matches NewWorkerModel::Def { inbox, worker, .. } ==> inbox == inboxes[i]
            && worker.name == translated(s.versions, update.new_code)[i].0 && worker.manager
            == s.inbox && same_but_names(update.new_code[i].1, worker.expr),
{
    let u = update.new_code;
    let codes = translated(s.versions, u);
    law_installed_code_is_the_updates(s.versions, u, i);
    law_translated_names(s.versions, u, i);
    let v = versions_after(s.versions, u.take(i + 1));
    let before = s.emptied(update).with_nodes(codes.take(i), inboxes);
    lemma_nodes_keep_address(s.emptied(update), codes.take(i), inboxes);
    assert(before.starts(codes[i].0, codes[i].1, inboxes[i], ws[i]));
    law_worker_fits_code(before, codes[i].0, codes[i].1, inboxes[i], ws[i]);
    if exists|d: Seq<char>| #[trigger] occurs(u[i].1, d) {
        let n = choose|d: Seq<char>| #[trigger] occurs(u[i].1, d);
        let d = lemma_name_goes_to(s, u[i].1, v, n);
        assert(occurs(codes[i].1, d));
    }
    if exists|d: Seq<char>| #[trigger] occurs(codes[i].1, d) {
        let d = choose|d: Seq<char>| #[trigger] occurs(codes[i].1, d);
        let n = lemma_name_comes_from(s, u[i].1, v, d);
        assert(occurs(u[i].1, n));
    }
}

proof fn lemma_nodes_keep_address(
    s: ManagerState,
    codes: Seq<(Seq<char>, ExprModel)>,
    inboxes: Seq<Endpoint>,
)
    ensures
        s.with_nodes(codes, inboxes).inbox == s.inbox,
    decreases codes.len(),
{
    if codes.len() > 0 {
        lemma_nodes_keep_address(s, codes.drop_last(), inboxes);
    }
}

/// A new manager knows nothing but its own address.
pub proof fn law_new_manager_is_empty(inbox: Endpoint, n: Seq<char>, id: TxnId)
    ensures
        ({
            let s = ManagerState::initial(inbox);
            &&& s.inbox == inbox
            &&& s.id is None
            &&& s.last_txn is None
            &&& !s.workers.contains_key(n)
            &&& !s.kinds.contains_key(n)
            &&& !s.config.contains_key(n)
            &&& !s.graph.contains_key(n)
            &&& !s.reverse.contains_key(n)
            &&& !s.node_locks.contains_key(n)
            &&& !s.versions.contains_key(n)
            &&& !s.managed.contains(n)
            &&& !s.peers.contains_key(n)
            &&& !s.owners.contains_key(n)
            &&& !s.txn_values.contains_key(n)
            &&& !s.txn_locks.contains_key(id)
            &&& !s.active.contains_key(id)
        }),
{
}

/// Versions are counted from zero: a node without code has its zeroth version next, and the
/// latest version of a node is the one before the next.
pub proof fn law_versions_start_at_zero(v: Versions, name: Seq<char>)
    ensures
        !v.contains_key(name) ==> next_version(v, name) == 0 && latest_version(v, name) == 0,
        v.contains_key(name) ==> next_version(v, name) == v[name],
        v.contains_key(name) && v[name] > 0 ==> latest_version(v, name) == v[name] - 1,
{
}

/// New code takes one version number each: those of a node go up by one with each code for
/// it, from the node's next one on.
pub proof fn law_codes_are_numbered(
    v: Versions,
    update: Seq<(Seq<char>, ExprModel)>,
    i: int,
    j: int,
)
    requires
        versions_fit(v, update),
        0 <= i <= j < update.len(),
        update[j].0 == update[i].0,
        forall|k: int| 0 <= k < i ==> (#[trigger] update[k]).0 != update[i].0,
        forall|k: int| i < k < j ==> (#[trigger] update[k]).0 != update[i].0,
    ensures
        translated(v, update).len() == update.len(),
        translated(v, update)[j].0 == versioned(
            update[i].0,
            (if v.contains_key(update[i].0) {
                v[update[i].0] as nat
            } else {
                0
            }) + if i == j {
                0nat
            } else {
                1nat
            },
        ),
{
    let f = update[i].0;
    law_translated_names(v, update, j);
    lemma_no_occurrences(update.take(i), f);
    if i < j {
        let upto = update.take(j);
        assert forall|k: int| i + 1 <= k < upto.len() implies (#[trigger] upto[k]).0 != f by {
            assert(upto[k] == update[k]);
        }
        lemma_occurrences_after(upto, i + 1, f);
        assert(upto.take(i + 1) =~= update.take(i + 1));
        assert(update.take(i + 1).drop_last() =~= update.take(i));
    }
}

proof fn lemma_no_occurrences(update: Seq<(Seq<char>, ExprModel)>, name: Seq<char>)
    requires
        forall|k: int| 0 <= k < update.len() ==> (#[trigger] update[k]).0 != name,
    ensures
        occurrences(update, name) == 0,
    decreases update.len(),
{
    if update.len() > 0 {
        let rest = update.drop_last();
        assert(update[update.len() - 1].0 != name);
        assert forall|k: int| 0 <= k < rest.len() implies (#[trigger] rest[k]).0 != name by {
            assert(rest[k] == update[k]);
        }
        lemma_no_occurrences(rest, name);
    }
}

/// The code at place `i` of an update still gets a version number.
pub open spec fn has_number(v: Versions, update: Seq<(Seq<char>, ExprModel)>, i: int) -> bool {
    next_version(v, update[i].0) + occurrences(update.take(i), update[i].0) < u64::MAX
}

/// The version numbers fit exactly where each code of the update still gets one.
pub proof fn law_versions_fit_where_counted(v: Versions, update: Seq<(Seq<char>, ExprModel)>)
    ensures
        versions_fit(v, update) <==> forall|i: int|
            0 <= i < update.len() ==> #[trigger] has_number(v, update, i),
    decreases update.len(),
{
    if update.len() > 0 {
        let rest = update.drop_last();
        let last = update.len() - 1;
        law_versions_fit_where_counted(v, rest);
        assert forall|i: int| 0 <= i < rest.len() implies #[trigger] has_number(v, rest, i)
            == has_number(v, update, i) by {
            assert(rest[i] == update[i]);
            assert(rest.take(i) =~= update.take(i));
        }
        if versions_fit(v, rest) {
            law_versions_count_codes(v, rest, update[last].0);
            assert(update.take(last) =~= rest);
            assert(versions_fit(v, update) <==> has_number(v, update, last));
            assert forall|i: int| 0 <= i < last implies #[trigger] has_number(v, update, i) by {
                assert(has_number(v, rest, i));
            }
        } else {
            let i = choose|i: int| 0 <= i < rest.len() && !#[trigger] has_number(v, rest, i);
            assert(!has_number(v, update, i));
        }
    }
}

proof fn lemma_last_worker_of_key(
    s: ManagerState,
    codes: Seq<(Seq<char>, ExprModel)>,
    inboxes: Seq<Endpoint>,
    i: int,
)
    requires
        0 <= i < codes.len(),
        forall|j: int| i < j < codes.len() ==> (#[trigger] codes[j]).0 != codes[i].0,
    ensures
        ({
            let t = s.with_nodes(codes, inboxes);
            let key = codes[i].0;
            &&& t.workers.get(key) == Some(inboxes[i])
            &&& t.managed.contains(key)
            &&& t.graph.get(key) == Some(names_in(codes[i].1))
            &&& t.kinds.get(key) == Some(
                if names_in(codes[i].1) == Set::<Seq<char>>::empty() {
                    WorkerKind::Var
                } else {
                    WorkerKind::Def
                },
            )
        }),
    decreases codes.len(),
{
    let rest = codes.drop_last();
    if i < rest.len() {
        assert(codes[codes.len() - 1].0 != codes[i].0);
        assert forall|j: int| i < j < rest.len() implies (#[trigger] rest[j]).0 != rest[i].0 by {
            assert(rest[j] == codes[j]);
        }
        lemma_last_worker_of_key(s, rest, inboxes, i);
    }
}

/// After an update, the version in force of each of its nodes is handled by this manager, and
/// its worker is the one on the channel that was set apart for this code.
pub proof fn law_update_records_workers(
    s: ManagerState,
    update: CodeUpdateModel,
    inboxes: Seq<Endpoint>,
    i: int,
)
    requires
        versions_fit(s.versions, update.new_code),
        0 <= i < update.new_code.len(),
        forall|j: int|
            i < j < update.new_code.len() ==> (#[trigger] update.new_code[j]).0
                != update.new_code[i].0,
        forall|j: int|
            0 <= j < update.new_code.len() ==> base_of((#[trigger] update.new_code[j]).0)
                == update.new_code[j].0,
    ensures
        ({
            let t = s.updated(update, inboxes);
            let key = t.resolved(update.new_code[i].0);
            &&& t.workers.contains_key(key) && t.workers[key] == inboxes[i]
            &&& t.managed.contains(key)
            &&& t.kinds.contains_key(key) && (t.kinds[key] == WorkerKind::Var <==> forall|
                d: Seq<char>,
            | !(#[trigger] occurs(update.new_code[i].1, d)))
            &&& t.config.contains_key(key) && same_but_names(update.new_code[i].1, t.config[key])
            &&& t.graph.contains_key(key) && forall|d: Seq<char>| #[trigger]
                t.graph[key].contains(d) <==> occurs(t.config[key], d)
        }),
{
    let t = s.updated(update, inboxes);
    let u = update.new_code;
    let codes = translated(s.versions, u);
    let f = u[i].0;
    let v = versions_after(s.versions, u.take(i + 1));
    law_last_code_is_in_force(s.versions, u, i);
    law_translated_names(s.versions, u, i);
    law_installed_code_is_the_updates(s.versions, u, i);
    lemma_with_nodes_config(s.emptied(update), codes, inboxes, f);
    assert(t.resolved(f) == codes[i].0);
    assert forall|j: int| i < j < codes.len() implies (#[trigger] codes[j]).0 != codes[i].0 by {
        law_installed_code_is_the_updates(s.versions, u, j);
        assert(u[j].0 != f);
    }
    lemma_last_of_key(s.emptied(update), codes, inboxes, i);
    lemma_last_worker_of_key(s.emptied(update), codes, inboxes, i);
    let w = codes[i].1;
    assert forall|d: Seq<char>| #[trigger] names_in(w).contains(d) == occurs(w, d) by {
        law_names_are_those_that_occur(w, d);
    }
    if exists|d: Seq<char>| #[trigger] occurs(u[i].1, d) {
        let n = choose|d: Seq<char>| #[trigger] occurs(u[i].1, d);
        let d = lemma_name_goes_to(s, u[i].1, v, n);
        assert(names_in(w).contains(d));
    } else {
        assert forall|d: Seq<char>| !(#[trigger] names_in(w).contains(d)) by {
            if occurs(w, d) {
                let n = lemma_name_comes_from(s, u[i].1, v, d);
                assert(occurs(u[i].1, n));
            }
        }
        assert(names_in(w) =~= Set::<Seq<char>>::empty());
    }
}

} // verus!
