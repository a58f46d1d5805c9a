//! Chains of dependencies: where no node depends on itself through the versions in force,
//! every chain comes to an end.

use vstd::prelude::*;

#[allow(unused_imports)]
use crate::expr::{names_in, ExprModel};
#[allow(unused_imports)]
use crate::graph::{edge, has_cycle, is_cycle, leads_to, Graph};
#[allow(unused_imports)]
use crate::manager::cycles::{bases, updated_graph};
#[allow(unused_imports)]
use crate::manager::install::{law_update_keeps_consistent, lemma_with_nodes_config};
#[allow(unused_imports)]
use crate::manager::versions::{latest_version, translated};
#[allow(unused_imports)]
use crate::manager::apply::lemma_same_update;
#[allow(unused_imports)]
use crate::manager::ManagerState;
#[allow(unused_imports)]
use crate::message::{CodeUpdateModel, Endpoint};
#[allow(unused_imports)]
use crate::text::{base_of, lemma_base_of_base, lemma_base_of_version};

verus! {

proof fn lemma_updated_graph_finite(g: Graph, codes: Seq<(Seq<char>, ExprModel)>)
    requires
        g.dom().finite(),
    ensures
        updated_graph(g, codes).dom().finite(),
    decreases codes.len(),
{
    if codes.len() > 0 {
        lemma_updated_graph_finite(g, codes.drop_last());
    }
}

/// What is recorded of the code once it has its workers is what is recorded of it without.
proof fn lemma_installed_is_recorded(
    s: ManagerState,
    g: Graph,
    codes: Seq<(Seq<char>, ExprModel)>,
    inboxes: Seq<Endpoint>,
)
    requires
        forall|k: Seq<char>| #[trigger]
            s.graph.contains_key(k) ==> g.contains_key(k) && g[k] == s.graph[k],
    ensures
        forall|k: Seq<char>| #[trigger]
            s.with_nodes(codes, inboxes).graph.contains_key(k) ==> updated_graph(
                g,
                codes,
            ).contains_key(k) && updated_graph(g, codes)[k] == s.with_nodes(
                codes,
                inboxes,
            ).graph[k],
    decreases codes.len(),
{
    if codes.len() > 0 {
        lemma_installed_is_recorded(s, g, codes.drop_last(), inboxes);
    }
}

/// The keys of the versions in force of the nodes in `path`.
spec fn keys_of(c: ManagerState, path: Seq<Seq<char>>) -> Set<Seq<char>> {
    path.map_values(|b: Seq<char>| c.current(b)).to_set()
}

/// Along dependencies that form no cycle, every chain ends: `path` leads to `node` and
/// holds no node twice, so that each step leaves fewer nodes to go to.
proof fn lemma_chain_ends(
    t: ManagerState,
    c: ManagerState,
    path: Seq<Seq<char>>,
    node: Seq<char>,
)
    requires
        t.versions == c.versions,
        c.graph.dom().finite(),
        forall|k: Seq<char>| #[trigger]
            t.config.contains_key(k) ==> c.graph.contains_key(k) && c.graph[k] == names_in(
                t.config[k],
            ),
        !has_cycle(c.chain_graph()),
        base_of(node) == node,
        forall|i: int| 0 <= i < path.len() ==> base_of(#[trigger] path[i]) == path[i],
        leads_to(c.chain_graph(), path, node),
    ensures
        t.settles(t.current(node), c.graph.dom().difference(keys_of(c, path)).len()),
    decreases c.graph.dom().difference(keys_of(c, path)).len(),
{
    let g = c.chain_graph();
    let key = c.current(node);
    let left = c.graph.dom().difference(keys_of(c, path));
    if t.config.contains_key(key) {
        assert(g.contains_key(node));
        let keys = path.map_values(|b: Seq<char>| c.current(b));
        if keys_of(c, path).contains(key) {
            let i = choose|i: int| 0 <= i < keys.len() && keys[i] == key;
            assert(c.current(path[i]) == key);
            lemma_base_of_version(path[i], latest_version(c.versions, path[i]));
            lemma_base_of_version(node, latest_version(c.versions, node));
            assert(path[i] == node);
            let round = path.subrange(i, path.len() as int);
            assert(is_cycle(g, round)) by {
                assert forall|j: int| 0 <= j < round.len() - 1 implies edge(
                    g,
                    #[trigger] round[j],
                    round[j + 1],
                ) by {
                    assert(edge(g, path[i + j], path[i + j + 1]));
                }
                assert(round.last() == path.last());
                assert(round[0] == node);
            }
            assert(false);
        }
        let longer = path.push(node);
        let fewer = c.graph.dom().difference(keys_of(c, longer));
        assert(fewer =~= left.remove(key)) by {
            let more = longer.map_values(|b: Seq<char>| c.current(b));
            assert(more =~= keys.push(key));
            keys.lemma_push_to_set_commute(key);
        }
        assert(left.contains(key));
        assert forall|d: Seq<char>| names_in(t.config[key]).contains(d) implies t.settles(
            #[trigger] t.resolved(d),
            (left.len() - 1) as nat,
        ) by {
            let next = base_of(d);
            lemma_base_of_base(d);
            assert(c.graph[key].contains(d));
            assert(bases(c.graph[key]).contains(next));
            assert(edge(g, node, next));
            assert(leads_to(g, longer, next)) by {
                assert forall|j: int| 0 <= j < longer.len() - 1 implies edge(
                    g,
                    #[trigger] longer[j],
                    longer[j + 1],
                ) by {
                    if j < path.len() - 1 {
                        assert(edge(g, path[j], path[j + 1]));
                    }
                }
            }
            lemma_chain_ends(t, c, longer, next);
        }
        assert(t.settles(key, left.len()));
    }
}

/// Once an update that closes no chain is installed, the chain of dependencies of every
/// name comes to an end, whatever became of locks in the meantime: the value of every node
/// can be computed.
pub proof fn law_open_update_ends_chains(
    s: ManagerState,
    update: CodeUpdateModel,
    before: ManagerState,
    inboxes: Seq<Endpoint>,
    name: Seq<char>,
)
    requires
        s.graph.dom().finite(),
        s.consistent(),
        !s.closes_chain(update),
        before.same_code(s),
    ensures
        before.updated(update, inboxes).retrievable(name),
{
    let codes = translated(s.versions, update.new_code);
    let t = before.updated(update, inboxes);
    let c = s.recorded(update);
    assert(s.emptied(update).graph.dom() =~= s.graph.dom().difference(
        ManagerState { versions: s.emptied(update).versions, ..s }.stale(update.nodes_to_modify),
    ));
    lemma_updated_graph_finite(s.emptied(update).graph, codes);
    law_update_keeps_consistent(before, update, inboxes);
    lemma_with_nodes_config(before.emptied(update), codes, inboxes, name);
    lemma_same_update(before, s, update, inboxes);
    lemma_installed_is_recorded(before.emptied(update), s.emptied(update).graph, codes, inboxes);
    assert forall|k: Seq<char>| #[trigger] t.config.contains_key(k) implies c.graph.contains_key(k)
        && c.graph[k] == names_in(t.config[k]) by {
        assert(t.graph.dom().contains(k));
        assert(t.graph.contains_key(k));
    }
    let base = base_of(name);
    lemma_base_of_base(name);
    lemma_chain_ends(t, c, Seq::empty(), base);
    assert(t.settles(
        t.resolved(name),
        c.graph.dom().difference(keys_of(c, Seq::empty())).len(),
    ));
}

proof fn lemma_installed_graph(
    s: ManagerState,
    codes: Seq<(Seq<char>, ExprModel)>,
    inboxes: Seq<Endpoint>,
)
    ensures
        s.with_nodes(codes, inboxes).graph == updated_graph(s.graph, codes),
    decreases codes.len(),
{
    if codes.len() > 0 {
        lemma_installed_graph(s, codes.drop_last(), inboxes);
    }
}

/// The node names, in the code of its version in force, some version of the other.
spec fn names_version(t: ManagerState, a: Seq<char>, b: Seq<char>) -> bool {
    &&& t.config.contains_key(t.resolved(a))
    &&& exists|d: Seq<char>| #[trigger]
        names_in(t.config[t.resolved(a)]).contains(d) && t.resolved(d) == t.resolved(b)
}

proof fn lemma_ring_never_settles(t: ManagerState, ring: Seq<Seq<char>>, i: int, depth: nat)
    requires
        0 <= i < ring.len(),
        forall|j: int|
            0 <= j < ring.len() - 1 ==> names_version(t, #[trigger] ring[j], ring[j + 1]),
        names_version(t, ring.last(), ring[0]),
    ensures
        !t.settles(t.resolved(ring[i]), depth),
    decreases depth,
{
    let next = if i + 1 < ring.len() {
        i + 1
    } else {
        0
    };
    assert(names_version(t, ring[i], ring[next]));
    let d = choose|d: Seq<char>| #[trigger]
        names_in(t.config[t.resolved(ring[i])]).contains(d) && t.resolved(d) == t.resolved(
            ring[next],
        );
    if depth > 0 {
        lemma_ring_never_settles(t, ring, next, (depth - 1) as nat);
        assert(!t.settles(t.resolved(d), (depth - 1) as nat));
    }
}

/// An update closes a chain exactly where, once it is installed, the value of some name
/// could never be computed: its chain of dependencies has no end.
pub proof fn law_closed_chain_has_no_end(
    s: ManagerState,
    update: CodeUpdateModel,
    before: ManagerState,
    inboxes: Seq<Endpoint>,
)
    requires
        s.graph.dom().finite(),
        s.consistent(),
        before.same_code(s),
    ensures
        s.closes_chain(update) <==> exists|name: Seq<char>|
            !(#[trigger] before.updated(update, inboxes).retrievable(name)),
{
    let t = before.updated(update, inboxes);
    if s.closes_chain(update) {
        let codes = translated(s.versions, update.new_code);
        let c = s.recorded(update);
        let g = c.chain_graph();
        let ring = choose|ring: Seq<Seq<char>>| is_cycle(g, ring);
        lemma_installed_graph(before.emptied(update), codes, inboxes);
        lemma_with_nodes_config(before.emptied(update), codes, inboxes, Seq::empty());
        law_update_keeps_consistent(before, update, inboxes);
        assert(before.emptied(update).graph =~= s.emptied(update).graph);
        assert(t.graph == c.graph);
        assert(t.versions == c.versions);
        assert forall|a: Seq<char>, b: Seq<char>| #[trigger]
            edge(g, a, b) implies names_version(t, a, b) by {
            assert(bases(c.graph[c.current(a)]).contains(b));
            let d = choose|d: Seq<char>| #[trigger]
                c.graph[c.current(a)].contains(d) && base_of(d) == b;
            assert(t.graph.dom().contains(t.resolved(a)));
            assert(t.config.contains_key(t.resolved(a)));
            assert(names_in(t.config[t.resolved(a)]).contains(d));
            lemma_base_of_base(d);
            assert(t.resolved(d) == t.resolved(b));
        }
        assert forall|j: int| 0 <= j < ring.len() - 1 implies names_version(
            t,
            #[trigger] ring[j],
            ring[j + 1],
        ) by {
            assert(edge(g, ring[j], ring[j + 1]));
        }
        let name = ring[0];
        if t.retrievable(name) {
            let depth = choose|depth: nat| t.settles(t.resolved(name), depth);
            lemma_ring_never_settles(t, ring, 0, depth);
        }
    } else {
        assert forall|name: Seq<char>| #[trigger] t.retrievable(name) by {
            law_open_update_ends_chains(s, update, before, inboxes, name);
        }
    }
}

} // verus!
