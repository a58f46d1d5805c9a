//! Refusal of code whose nodes would depend on themselves.

use vstd::prelude::*;

use crate::collections::{Dup, ListMap, ListSet};
#[allow(unused_imports)]
use crate::collections::{is_listing, lemma_take_contains};
use crate::expr::Expr;
#[allow(unused_imports)]
use crate::expr::{names_in, ExprModel};
use crate::graph::find_cycle;
#[allow(unused_imports)]
use crate::graph::{has_cycle, is_cycle_backwards, Graph};
use crate::manager::{Manager, ManagerError};
#[allow(unused_imports)]
use crate::manager::{ErrorModel, ManagerState};
#[allow(unused_imports)]
use crate::manager::versions::{latest_version, translated, versions_fit};
use crate::message::CodeUpdate;
#[allow(unused_imports)]
use crate::message::CodeUpdateModel;
use crate::text::{base_name, concat, join, versioned_name};
#[allow(unused_imports)]
use crate::text::{base_of, joined, lemma_base_of_base, lemma_base_of_version, versioned};

verus! {

/// The graph in which each node of the update depends on the names in its new code. Of
/// several new codes for one node the last one counts.
pub open spec fn updated_graph(g: Graph, update: Seq<(Seq<char>, ExprModel)>) -> Graph
    decreases update.len(),
{
    if update.len() == 0 {
        g
    } else {
        updated_graph(g, update.drop_last()).insert(update.last().0, names_in(update.last().1))
    }
}

/// Some new code refers to `name`.
pub open spec fn referred_to(update: Seq<(Seq<char>, ExprModel)>, name: Seq<char>) -> bool {
    exists|i: int| 0 <= i < update.len() && names_in((#[trigger] update[i]).1).contains(name)
}

impl ManagerState {
    /// The manager that a node on a cycle is attributed to. A node of a peer is known only
    /// if it had code before or if new code refers to it.
    pub open spec fn attributed_to(
        self,
        update: Seq<(Seq<char>, ExprModel)>,
        node: Seq<char>,
    ) -> Option<Seq<char>> {
        if self.managed.contains(node) {
            Some(self.own_id())
        } else if self.graph.contains_key(node) || referred_to(update, node) {
            self.owners.get(node)
        } else {
            None
        }
    }

    /// The managers that the nodes in `found` are attributed to.
    pub open spec fn managers_of(
        self,
        update: Seq<(Seq<char>, ExprModel)>,
        found: Seq<Seq<char>>,
    ) -> Set<Seq<char>> {
        Set::new(
            |m: Seq<char>|
                exists|i: int|
                    0 <= i < found.len() && #[trigger] self.attributed_to(update, found[i]) == Some(
                        m,
                    ),
        )
    }

    /// How a node on a cycle is written: with its manager, where there are several.
    pub open spec fn node_label(
        self,
        update: Seq<(Seq<char>, ExprModel)>,
        several: bool,
        node: Seq<char>,
    ) -> Seq<char> {
        if several {
            match self.attributed_to(update, node) {
                Some(m) => if m == self.own_id() {
                    node + " (local)"@
                } else {
                    node + " (manager: "@ + m + ")"@
                },
                None => node + " (unknown manager)"@,
            }
        } else {
            node
        }
    }

    /// The text about the cycle `found`, whose managers are listed in the order `managers`.
    pub open spec fn cycle_text(
        self,
        update: Seq<(Seq<char>, ExprModel)>,
        found: Seq<Seq<char>>,
        managers: Seq<Seq<char>>,
    ) -> Seq<char> {
        let several = managers.len() > 1;
        let nodes = joined(
            found.map_values(|n: Seq<char>| self.node_label(update, several, n)),
            " → "@,
        );
        if several {
            "Cross-manager cyclic dependency detected across managers ["@ + joined(managers, ", "@)
                + "]: "@ + nodes
        } else {
            "Cyclic dependency detected: "@ + nodes
        }
    }

    /// `e` tells of a cycle that the new code would leave in the graph.
    pub open spec fn tells_of_cycle(
        self,
        update: Seq<(Seq<char>, ExprModel)>,
        e: ErrorModel,
    ) -> bool {
        exists|found: Seq<Seq<char>>, managers: Seq<Seq<char>>|
            {
                &&& #[trigger] is_cycle_backwards(updated_graph(self.graph, update), found)
                &&& #[trigger] is_listing(managers, self.managers_of(update, found))
                &&& e == ErrorModel::CyclicDependency(self.cycle_text(update, found, managers))
            }
    }

    /// The version of the node `node` that is in force.
    pub open spec fn current(self, node: Seq<char>) -> Seq<char> {
        versioned(node, latest_version(self.versions, node))
    }

    /// For each node, the nodes that the version in force depends on, all by their names
    /// without versions.
    pub open spec fn chain_graph(self) -> Graph {
        Map::new(
            |b: Seq<char>| base_of(b) == b && self.graph.contains_key(self.current(b)),
            |b: Seq<char>| bases(self.graph[self.current(b)]),
        )
    }

    /// The state in which the earlier versions of the nodes that change are gone, and the new
    /// code is recorded under its new versions.
    pub open spec fn recorded(self, update: CodeUpdateModel) -> ManagerState {
        ManagerState {
            graph: updated_graph(
                self.emptied(update).graph,
                translated(self.versions, update.new_code),
            ),
            ..self.emptied(update)
        }
    }

    /// After the update, a node would depend on itself through the versions in force.
    pub open spec fn closes_chain(self, update: CodeUpdateModel) -> bool {
        has_cycle(self.recorded(update).chain_graph())
    }
}

/// The names without their versions.
pub open spec fn bases(names: Set<Seq<char>>) -> Set<Seq<char>> {
    Set::new(|b: Seq<char>| exists|d: Seq<char>| #[trigger] names.contains(d) && base_of(d) == b)
}

impl Manager {
    /// Refuses new code that, together with the code that is there, would leave a node
    /// depending on itself by the names as they stand. The error names the nodes of a cycle,
    /// and their managers where the cycle crosses from one to another.
    pub fn detect_cycles(&self, updates: &Vec<(String, Expr)>) -> (r: Result<(), ManagerError>)
        ensures
            r is Err <==> has_cycle(
                updated_graph(self.deep_view().graph, updates.deep_view()),
            ),
            r matches Err(e) ==> self.deep_view().tells_of_cycle(
                updates.deep_view(),
                e.deep_view(),
            ),
    {
        let ghost s = self.deep_view();
        let ghost update = updates.deep_view();
        let mut temp_graph = self.dependency_graph.dup();
        record(&mut temp_graph, updates);
        match find_cycle(&temp_graph) {
            None => Ok(()),
            Some(found) => {
                let referred = names_referred_to(updates);
                let managers = self.collect_managers(updates, &referred, &found);
                let text = self.describe_cycle(updates, &referred, &found, &managers);
                proof {
                    assert(is_cycle_backwards(updated_graph(s.graph, update), found.deep_view()));
                    assert(is_listing(
                        managers.deep_view(),
                        s.managers_of(update, found.deep_view()),
                    ));
                }
                Err(ManagerError::CyclicDependency(text))
            },
        }
    }

    /// Whether a node would depend on itself through the versions in force after the update.
    /// Such an update is taken all the same; the values of such nodes cannot be retrieved.
    pub fn closes_chain(&self, update: &CodeUpdate) -> (r: bool)
        requires
            versions_fit(self.deep_view().versions, update.deep_view().new_code),
        ensures
            r == self.deep_view().closes_chain(update.deep_view()),
    {
        let ghost s = self.deep_view();
        let ghost u = update.deep_view();
        let mut copy = Manager::new(self.sender_to_manager);
        copy.subscript_versions = self.subscript_versions.dup();
        copy.dependency_graph = self.dependency_graph.dup();
        copy.system_configuration = self.system_configuration.dup();
        let ghost first = copy.deep_view();
        let codes = copy.translate_to_versioned_form(&update.new_code);
        copy.remove_stale(&update.nodes_to_modify);
        proof {
            assert(first.stale(u.nodes_to_modify) =~= s.stale(u.nodes_to_modify));
            assert(copy.deep_view().graph =~= s.emptied(u).graph);
        }
        record(&mut copy.dependency_graph, &codes);
        let chains = copy.chains();
        proof {
            let t = s.recorded(u);
            assert(copy.deep_view().graph == t.graph && copy.deep_view().versions == t.versions);
            assert(copy.deep_view().chain_graph() =~= t.chain_graph());
        }
        find_cycle(&chains).is_some()
    }

    /// The dependencies among the versions in force, by names without versions.
    fn chains(&self) -> (r: ListMap<String, ListSet<String>>)
        ensures
            r.deep_view() == self.deep_view().chain_graph(),
    {
        let ghost s = self.deep_view();
        let ghost l = self.dependency_graph.keys();
        let n: usize = self.dependency_graph.len();
        let mut r: ListMap<String, ListSet<String>> = ListMap::new();
        let mut i: usize = 0;
        while i < n
            invariant
                i <= n == l.len(),
                s == self.deep_view(),
                l == self.dependency_graph.keys(),
                is_listing(l, s.graph.dom()),
                forall|b: Seq<char>| #[trigger]
                    r.deep_view().contains_key(b) <==> base_of(b) == b && l.take(
                        i as int,
                    ).contains(s.current(b)),
                forall|b: Seq<char>| #[trigger]
                    r.deep_view().contains_key(b) ==> r.deep_view()[b] == bases(
                        s.graph[s.current(b)],
                    ),
            decreases n - i,
        {
            let key = self.dependency_graph.key_at(i);
            let base = base_name(key.as_str());
            proof {
                lemma_take_contains(l, i as int);
                lemma_base_of_base(key@);
            }
            let latest: u64 = self.latest_version_of(&base);
            if versioned_name(&base, latest).eq(key) {
                r.insert(base, names_without_versions(self.dependency_graph.value_at(i)));
            }
            proof {
                assert forall|b: Seq<char>| base_of(b) == b && s.current(b) == key@ implies b
                    == base_of(key@) by {
                    lemma_base_of_version(b, latest_version(s.versions, b));
                }
            }
            i = i + 1;
        }
        proof {
            assert(l.take(n as int) =~= l);
            assert forall|k: Seq<char>| l.contains(k) <==> #[trigger] s.graph.contains_key(k) by {
                assert(l.to_set().contains(k) <==> s.graph.dom().contains(k));
            }
            assert(r.deep_view() =~= s.chain_graph());
        }
        r
    }

    fn attribute(
        &self,
        updates: &Vec<(String, Expr)>,
        referred: &ListSet<String>,
        node: &String,
    ) -> (r: Option<String>)
        requires
            forall|n: Seq<char>| #[trigger]
                referred.deep_view().contains(n) <==> referred_to(updates.deep_view(), n),
        ensures
            r.deep_view() == self.deep_view().attributed_to(updates.deep_view(), node@),
    {
        if self.managed_nodes.contains(node) {
            Some(self.own_id())
        } else if self.dependency_graph.contains_key(node) || referred.contains(node) {
            match self.node_manager_map.get(node) {
                Some(m) => Some(m.clone()),
                None => None,
            }
        } else {
            None
        }
    }

    fn collect_managers(
        &self,
        updates: &Vec<(String, Expr)>,
        referred: &ListSet<String>,
        found: &Vec<String>,
    ) -> (r: Vec<String>)
        requires
            forall|n: Seq<char>| #[trigger]
                referred.deep_view().contains(n) <==> referred_to(updates.deep_view(), n),
        ensures
            is_listing(
                r.deep_view(),
                self.deep_view().managers_of(updates.deep_view(), found.deep_view()),
            ),
    {
        let ghost s = self.deep_view();
        let ghost update = updates.deep_view();
        let ghost f = found.deep_view();
        let mut managers: ListSet<String> = ListSet::new();
        let mut i: usize = 0;
        while i < found.len()
            invariant
                i <= found.len() == f.len(),
                s == self.deep_view(),
                update == updates.deep_view(),
                f == found.deep_view(),
                forall|n: Seq<char>| #[trigger]
                    referred.deep_view().contains(n) <==> referred_to(update, n),
                forall|m: Seq<char>| #[trigger]
                    managers.deep_view().contains(m) <==> exists|j: int|
                        0 <= j < i && #[trigger] s.attributed_to(update, f[j]) == Some(m),
            decreases found.len() - i,
        {
            let ghost before = managers.deep_view();
            let owner = self.attribute(updates, referred, &found[i]);
            let ghost owned = owner.deep_view();
            assert(s.attributed_to(update, f[i as int]) == owned);
            match owner {
                Some(m) => {
                    managers.insert(m);
                },
                None => {},
            }
            assert forall|m: Seq<char>| #[trigger]
                managers.deep_view().contains(m) <==> exists|j: int|
                    0 <= j < i + 1 && #[trigger] s.attributed_to(update, f[j]) == Some(m) by {
                if before.contains(m) {
                    let j = choose|j: int|
                        0 <= j < i && #[trigger] s.attributed_to(update, f[j]) == Some(m);
                    assert(s.attributed_to(update, f[j]) == Some(m));
                }
            }
            i = i + 1;
        }
        assert(managers.deep_view() =~= s.managers_of(update, f));
        let n: usize = managers.len();
        let mut r: Vec<String> = Vec::new();
        let mut k: usize = 0;
        assert(r.deep_view() =~= managers.listing().take(0));
        while k < n
            invariant
                k <= n == managers.listing().len(),
                r.deep_view() == managers.listing().take(k as int),
            decreases n - k,
        {
            let ghost before = r.deep_view();
            r.push(managers.at(k).clone());
            proof {
                assert(r.deep_view() =~= before.push(managers.listing()[k as int]));
                assert(r.deep_view() =~= managers.listing().take(k + 1));
            }
            k = k + 1;
        }
        assert(managers.listing().take(n as int) =~= managers.listing());
        r
    }

    fn label(
        &self,
        updates: &Vec<(String, Expr)>,
        referred: &ListSet<String>,
        several: bool,
        node: &String,
    ) -> (r: String)
        requires
            forall|n: Seq<char>| #[trigger]
                referred.deep_view().contains(n) <==> referred_to(updates.deep_view(), n),
        ensures
            r@ == self.deep_view().node_label(updates.deep_view(), several, node@),
    {
        if !several {
            return node.clone();
        }
        match self.attribute(updates, referred, node) {
            Some(m) => {
                if m.eq(&self.own_id()) {
                    concat(node.as_str(), " (local)")
                } else {
                    let head = concat(node.as_str(), " (manager: ");
                    concat(concat(head.as_str(), m.as_str()).as_str(), ")")
                }
            },
            None => concat(node.as_str(), " (unknown manager)"),
        }
    }

    fn describe_cycle(
        &self,
        updates: &Vec<(String, Expr)>,
        referred: &ListSet<String>,
        found: &Vec<String>,
        managers: &Vec<String>,
    ) -> (r: String)
        requires
            forall|n: Seq<char>| #[trigger]
                referred.deep_view().contains(n) <==> referred_to(updates.deep_view(), n),
        ensures
            r@ == self.deep_view().cycle_text(
                updates.deep_view(),
                found.deep_view(),
                managers.deep_view(),
            ),
    {
        let ghost s = self.deep_view();
        let ghost update = updates.deep_view();
        let several: bool = managers.len() > 1;
        let ghost label = |n: Seq<char>| s.node_label(update, several, n);
        let ghost f = found.deep_view();
        let mut labels: Vec<String> = Vec::new();
        let mut i: usize = 0;
        assert(labels.deep_view() =~= f.take(0).map_values(label));
        while i < found.len()
            invariant
                i <= found.len() == f.len(),
                s == self.deep_view(),
                update == updates.deep_view(),
                f == found.deep_view(),
                label == (|n: Seq<char>| s.node_label(update, several, n)),
                forall|n: Seq<char>| #[trigger]
                    referred.deep_view().contains(n) <==> referred_to(update, n),
                labels.deep_view() == f.take(i as int).map_values(label),
            decreases found.len() - i,
        {
            let ghost before = labels.deep_view();
            labels.push(self.label(updates, referred, several, &found[i]));
            proof {
                assert(labels.deep_view() =~= before.push(label(f[i as int])));
                assert(labels.deep_view() =~= f.take(i + 1).map_values(label));
            }
            i = i + 1;
        }
        assert(f.take(i as int) =~= f);
        let nodes = join(&labels, " → ");
        if several {
            let head = concat(
                "Cross-manager cyclic dependency detected across managers [",
                join(managers, ", ").as_str(),
            );
            concat(concat(head.as_str(), "]: ").as_str(), nodes.as_str())
        } else {
            concat("Cyclic dependency detected: ", nodes.as_str())
        }
    }
}

/// Puts the names in each new code into the graph.
fn record(graph: &mut ListMap<String, ListSet<String>>, codes: &Vec<(String, Expr)>)
    ensures
        final(graph).deep_view() == updated_graph(old(graph).deep_view(), codes.deep_view()),
{
    let ghost g = graph.deep_view();
    let ghost c = codes.deep_view();
    let mut i: usize = 0;
    assert(c.take(0) =~= Seq::<(Seq<char>, ExprModel)>::empty());
    while i < codes.len()
        invariant
            i <= codes.len() == c.len(),
            c == codes.deep_view(),
            graph.deep_view() == updated_graph(g, c.take(i as int)),
        decreases codes.len() - i,
    {
        graph.insert(codes[i].0.clone(), codes[i].1.names_contained());
        proof {
            assert(c[i as int] == (codes[i as int].0@, codes[i as int].1.deep_view()));
            assert(c.take(i + 1).drop_last() =~= c.take(i as int));
            assert(c.take(i + 1).last() == c[i as int]);
        }
        i = i + 1;
    }
    assert(c.take(i as int) =~= c);
}

fn names_without_versions(names: &ListSet<String>) -> (r: ListSet<String>)
    ensures
        r.deep_view() == bases(names.deep_view()),
{
    let ghost l = names.listing();
    let n: usize = names.len();
    let mut r: ListSet<String> = ListSet::new();
    let mut i: usize = 0;
    while i < n
        invariant
            i <= n == l.len(),
            l == names.listing(),
            forall|b: Seq<char>| #[trigger]
                r.deep_view().contains(b) <==> exists|j: int|
                    0 <= j < i && base_of(#[trigger] l[j]) == b,
        decreases n - i,
    {
        let ghost before = r.deep_view();
        r.insert(base_name(names.at(i).as_str()));
        assert forall|b: Seq<char>| #[trigger]
            r.deep_view().contains(b) <==> exists|j: int|
                0 <= j < i + 1 && base_of(#[trigger] l[j]) == b by {
            if before.contains(b) {
                let j = choose|j: int| 0 <= j < i && base_of(#[trigger] l[j]) == b;
                assert(base_of(l[j]) == b);
            }
            if base_of(l[i as int]) == b {
                assert(r.deep_view().contains(b));
            }
        }
        i = i + 1;
    }
    assert forall|b: Seq<char>| #[trigger]
        r.deep_view().contains(b) <==> bases(names.deep_view()).contains(b) by {
        if r.deep_view().contains(b) {
            let j = choose|j: int| 0 <= j < n && base_of(#[trigger] l[j]) == b;
            assert(l.to_set().contains(l[j]));
            assert(names.deep_view().contains(l[j]));
        }
        if bases(names.deep_view()).contains(b) {
            let d = choose|d: Seq<char>| #[trigger]
                names.deep_view().contains(d) && base_of(d) == b;
            assert(l.to_set().contains(d));
            let j = choose|j: int| 0 <= j < l.len() && l[j] == d;
            assert(base_of(l[j]) == b);
        }
    }
    assert(r.deep_view() =~= bases(names.deep_view()));
    r
}

fn names_referred_to(updates: &Vec<(String, Expr)>) -> (referred: ListSet<String>)
    ensures
        forall|n: Seq<char>| #[trigger]
            referred.deep_view().contains(n) <==> referred_to(updates.deep_view(), n),
{
    let ghost update = updates.deep_view();
    let mut referred: ListSet<String> = ListSet::new();
    let mut i: usize = 0;
    while i < updates.len()
        invariant
            i <= updates.len() == update.len(),
            update == updates.deep_view(),
            forall|n: Seq<char>| #[trigger]
                referred.deep_view().contains(n) <==> exists|j: int|
                    0 <= j < i && names_in((#[trigger] update[j]).1).contains(n),
        decreases updates.len() - i,
    {
        let ghost before = referred.deep_view();
        referred.extend(&updates[i].1.names_contained());
        proof {
            assert(update[i as int] == (updates[i as int].0@, updates[i as int].1.deep_view()));
            assert forall|n: Seq<char>| #[trigger]
                referred.deep_view().contains(n) <==> exists|j: int|
                    0 <= j < i + 1 && names_in((#[trigger] update[j]).1).contains(n) by {
                if before.contains(n) {
                    let j = choose|j: int|
                        0 <= j < i && names_in((#[trigger] update[j]).1).contains(n);
                    assert(names_in(update[j].1).contains(n));
                }
                if names_in(update[i as int].1).contains(n) {
                    assert(referred.deep_view().contains(n));
                }
            }
        }
        i = i + 1;
    }
    referred
}

} // verus!
