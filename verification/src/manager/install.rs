//! Installation of new code: it takes the place of the earlier versions of the nodes that
//! change, and gets workers of its own.

use vstd::prelude::*;

use crate::collections::{Dup, ListMap, ListSet};
#[allow(unused_imports)]
use crate::collections::lemma_take_contains;
use crate::defworker::DefWorker;
#[allow(unused_imports)]
use crate::defworker::DefState;
use crate::expr::Expr;
#[allow(unused_imports)]
use crate::expr::{names_in, ExprModel};
use crate::manager::Manager;
#[allow(unused_imports)]
use crate::manager::versions::{translated, versions_after, versions_fit};
#[allow(unused_imports)]
use crate::manager::ManagerState;
#[allow(unused_imports)]
use crate::message::{CodeUpdateModel, Posted};
use crate::message::{CodeUpdate, Endpoint, Envelope};
#[allow(unused_imports)]
use crate::text::is_version_of;
use crate::text::names_version_of;
use crate::varworker::VarWorker;
#[allow(unused_imports)]
use crate::varworker::VarState;

verus! {

/// A worker that has to be started on its channel.
#[derive(Debug)]
#[allow(inconsistent_fields)]
pub enum NewWorker {
    Var { inbox: Endpoint, worker: VarWorker },
    /// The subscriptions are sent before the worker starts.
    Def { inbox: Endpoint, worker: DefWorker, subscriptions: Vec<Envelope> },
}

/// The model of a new worker.
#[allow(inconsistent_fields)]
pub enum NewWorkerModel {
    Var { inbox: Endpoint, worker: VarState },
    Def { inbox: Endpoint, worker: DefState, subscriptions: Seq<Posted> },
}

impl DeepView for NewWorker {
    type V = NewWorkerModel;

    open spec fn deep_view(&self) -> NewWorkerModel {
        match self {
            NewWorker::Var { inbox, worker } => NewWorkerModel::Var {
                inbox: *inbox,
                worker: worker.deep_view(),
            },
            NewWorker::Def { inbox, worker, subscriptions } => NewWorkerModel::Def {
                inbox: *inbox,
                worker: worker.deep_view(),
                subscriptions: subscriptions.deep_view(),
            },
        }
    }
}

/// The name is a version of one of the nodes.
pub open spec fn is_version_of_any(name: Seq<char>, nodes: Set<Seq<char>>) -> bool {
    exists|b: Seq<char>| #[trigger] nodes.contains(b) && is_version_of(name, b)
}

impl ManagerState {
    /// The code that goes when the nodes in `nodes` change: all their versions.
    pub open spec fn stale(self, nodes: Set<Seq<char>>) -> Set<Seq<char>> {
        Set::new(|k: Seq<char>| self.config.contains_key(k) && is_version_of_any(k, nodes))
    }

    /// The state without that code.
    pub open spec fn without_stale(self, nodes: Set<Seq<char>>) -> ManagerState {
        ManagerState {
            config: self.config.remove_keys(self.stale(nodes)),
            graph: self.graph.remove_keys(self.stale(nodes)),
            reverse: self.reverse.map_values(
                |users: Set<Seq<char>>| users.difference(self.stale(nodes)),
            ),
            ..self
        }
    }

    /// The nodes that depend on each node, with `name` for each of `deps`.
    pub open spec fn with_user(self, name: Seq<char>, deps: Set<Seq<char>>) -> Map<
        Seq<char>,
        Set<Seq<char>>,
    > {
        Map::new(
            |k: Seq<char>| self.reverse.contains_key(k) || deps.contains(k),
            |k: Seq<char>|
                {
                    let users = if self.reverse.contains_key(k) {
                        self.reverse[k]
                    } else {
                        Set::empty()
                    };
                    if deps.contains(k) {
                        users.insert(name)
                    } else {
                        users
                    }
                },
        )
    }

    /// The state with the code `expr` for `name`.
    pub open spec fn with_code(self, name: Seq<char>, expr: ExprModel) -> ManagerState {
        ManagerState {
            config: self.config.insert(name, expr),
            graph: self.graph.insert(name, names_in(expr)),
            reverse: self.with_user(name, names_in(expr)),
            ..self
        }
    }

    /// The state with the code `expr` for `name` and a worker for it: that of a variable
    /// where the code depends on nothing, that of a definition elsewhere.
    pub open spec fn with_node(self, name: Seq<char>, expr: ExprModel, inbox: Endpoint) ->
        ManagerState {
        if names_in(expr) == Set::<Seq<char>>::empty() {
            self.with_code(name, expr).with_var(name, inbox)
        } else {
            self.with_code(name, expr).with_def(name, inbox)
        }
    }

    /// `w` is the worker that the node gets.
    pub open spec fn starts(
        self,
        name: Seq<char>,
        expr: ExprModel,
        inbox: Endpoint,
        w: NewWorkerModel,
    ) -> bool {
        if names_in(expr) == Set::<Seq<char>>::empty() {
            w == (NewWorkerModel::Var { inbox, worker: VarState::initial(name, self.inbox) })
        } else {
            &&& w matches NewWorkerModel::Def { inbox: at, worker, subscriptions }
            &&& at == inbox
            &&& worker == DefState::initial(
                name,
                inbox,
                self.inbox,
                expr,
                self.with_code(name, expr).graph,
            )
            &&& self.with_node(name, expr, inbox).subscribes(name, inbox, expr, subscriptions)
        }
    }

    /// The state with the code and the workers of all of `codes`, one after the other.
    pub open spec fn with_nodes(
        self,
        codes: Seq<(Seq<char>, ExprModel)>,
        inboxes: Seq<Endpoint>,
    ) -> ManagerState
        decreases codes.len(),
    {
        if codes.len() == 0 {
            self
        } else {
            self.with_nodes(codes.drop_last(), inboxes).with_node(
                codes.last().0,
                codes.last().1,
                inboxes[codes.len() - 1],
            )
        }
    }

    /// `ws` are the workers that the nodes get.
    pub open spec fn starts_all(
        self,
        codes: Seq<(Seq<char>, ExprModel)>,
        inboxes: Seq<Endpoint>,
        ws: Seq<NewWorkerModel>,
    ) -> bool {
        &&& ws.len() == codes.len()
        &&& forall|i: int|
            0 <= i < codes.len() ==> self.with_nodes(codes.take(i), inboxes).starts(
                codes[i].0,
                codes[i].1,
                inboxes[i],
                #[trigger] ws[i],
            )
    }

    /// The state in which the versions are counted and the earlier code is gone.
    pub open spec fn emptied(self, update: CodeUpdateModel) -> ManagerState {
        ManagerState {
            versions: versions_after(self.versions, update.new_code),
            ..self
        }.without_stale(update.nodes_to_modify)
    }

    /// The state after the update.
    pub open spec fn updated(
        self,
        update: CodeUpdateModel,
        inboxes: Seq<Endpoint>,
    ) -> ManagerState {
        self.emptied(update).with_nodes(translated(self.versions, update.new_code), inboxes)
    }

    /// The two maps of dependencies agree with the code and with each other: they cover
    /// the same nodes, hold the names that the code refers to, and whoever depends on a
    /// node is found there.
    pub open spec fn consistent(self) -> bool {
        &&& self.graph.dom() == self.config.dom()
        &&& forall|n: Seq<char>| #[trigger]
            self.config.contains_key(n) ==> self.graph[n] == names_in(self.config[n])
        &&& forall|n: Seq<char>, d: Seq<char>|
            self.config.contains_key(n) && #[trigger] names_in(self.config[n]).contains(d)
                ==> self.reverse.contains_key(d) && self.reverse[d].contains(n)
    }
}

impl ManagerState {
    /// There is code where there are dependencies, and whoever depends on a node is found
    /// there.
    pub open spec fn in_step(self) -> bool {
        &&& self.graph.dom() == self.config.dom()
        &&& forall|n: Seq<char>, d: Seq<char>|
            self.graph.contains_key(n) && #[trigger] self.graph[n].contains(d)
                ==> self.reverse.contains_key(d) && self.reverse[d].contains(n)
    }
}

proof fn lemma_nodes_keep_in_step(
    s: ManagerState,
    codes: Seq<(Seq<char>, ExprModel)>,
    inboxes: Seq<Endpoint>,
)
    requires
        s.in_step(),
    ensures
        s.with_nodes(codes, inboxes).in_step(),
    decreases codes.len(),
{
    if codes.len() > 0 {
        lemma_nodes_keep_in_step(s, codes.drop_last(), inboxes);
        let a = s.with_nodes(codes.drop_last(), inboxes);
        let b = s.with_nodes(codes, inboxes);
        assert(b.graph.dom() =~= b.config.dom());
        assert forall|n: Seq<char>, d: Seq<char>|
            b.graph.contains_key(n) && #[trigger] b.graph[n].contains(
                d,
            ) implies b.reverse.contains_key(d) && b.reverse[d].contains(n) by {
            if n != codes.last().0 {
                assert(a.graph.contains_key(n) && a.graph[n].contains(d));
            }
        }
    }
}

/// Code, dependencies and their reverse start in step, and an update keeps them so.
pub proof fn law_update_keeps_in_step(
    s: ManagerState,
    update: CodeUpdateModel,
    inboxes: Seq<Endpoint>,
    inbox: Endpoint,
)
    ensures
        ManagerState::initial(inbox).in_step(),
        s.in_step() ==> s.updated(update, inboxes).in_step(),
{
    assert(ManagerState::initial(inbox).graph.dom() =~= ManagerState::initial(inbox).config.dom());
    if s.in_step() {
        let e = s.emptied(update);
        assert(e.graph.dom() =~= e.config.dom());
        assert forall|n: Seq<char>, d: Seq<char>|
            e.graph.contains_key(n) && #[trigger] e.graph[n].contains(
                d,
            ) implies e.reverse.contains_key(d) && e.reverse[d].contains(n) by {
            assert(s.graph.contains_key(n) && s.graph[n].contains(d));
        }
        lemma_nodes_keep_in_step(e, translated(s.versions, update.new_code), inboxes);
    }
}

/// A new manager is consistent.
pub proof fn law_initial_consistent(inbox: Endpoint)
    ensures
        ManagerState::initial(inbox).consistent(),
{
    assert(ManagerState::initial(inbox).graph.dom() =~= ManagerState::initial(inbox).config.dom());
}

proof fn lemma_without_stale_consistent(s: ManagerState, nodes: Set<Seq<char>>)
    requires
        s.consistent(),
    ensures
        s.without_stale(nodes).consistent(),
{
    let t = s.without_stale(nodes);
    assert(t.graph.dom() =~= t.config.dom());
    assert forall|n: Seq<char>| #[trigger] t.config.contains_key(n) implies t.graph[n] == names_in(
        t.config[n],
    ) by {
        assert(s.config.contains_key(n));
        assert(s.graph.dom().contains(n));
    }
}

proof fn lemma_with_node_consistent(
    s: ManagerState,
    name: Seq<char>,
    expr: ExprModel,
    inbox: Endpoint,
)
    requires
        s.consistent(),
    ensures
        s.with_node(name, expr, inbox).consistent(),
{
    let t = s.with_node(name, expr, inbox);
    assert(t.graph.dom() =~= t.config.dom());
    assert forall|n: Seq<char>| #[trigger] t.config.contains_key(n) implies t.graph[n] == names_in(
        t.config[n],
    ) by {
        assert(n == name || s.config.contains_key(n));
    }
    assert forall|n: Seq<char>, d: Seq<char>|
        t.config.contains_key(n) && #[trigger] names_in(t.config[n]).contains(
            d,
        ) implies t.reverse.contains_key(d) && t.reverse[d].contains(n) by {
        if n != name {
            assert(s.config.contains_key(n));
            assert(names_in(s.config[n]).contains(d));
        }
    }
}

/// New code leaves the maps of dependencies consistent with it.
pub proof fn law_nodes_keep_consistent(
    s: ManagerState,
    codes: Seq<(Seq<char>, ExprModel)>,
    inboxes: Seq<Endpoint>,
)
    requires
        s.consistent(),
    ensures
        s.with_nodes(codes, inboxes).consistent(),
    decreases codes.len(),
{
    if codes.len() > 0 {
        law_nodes_keep_consistent(s, codes.drop_last(), inboxes);
        lemma_with_node_consistent(
            s.with_nodes(codes.drop_last(), inboxes),
            codes.last().0,
            codes.last().1,
            inboxes[codes.len() - 1],
        );
    }
}

/// An update keeps the maps of dependencies consistent with the code.
pub proof fn law_update_keeps_consistent(
    s: ManagerState,
    update: CodeUpdateModel,
    inboxes: Seq<Endpoint>,
)
    requires
        s.consistent(),
    ensures
        s.updated(update, inboxes).consistent(),
{
    let counted = ManagerState { versions: versions_after(s.versions, update.new_code), ..s };
    assert(counted.consistent());
    lemma_without_stale_consistent(counted, update.nodes_to_modify);
    law_nodes_keep_consistent(
        s.emptied(update),
        translated(s.versions, update.new_code),
        inboxes,
    );
}

/// New code changes no version number, and no code but that under its own names.
pub proof fn lemma_with_nodes_config(
    s: ManagerState,
    codes: Seq<(Seq<char>, ExprModel)>,
    inboxes: Seq<Endpoint>,
    name: Seq<char>,
)
    ensures
        s.with_nodes(codes, inboxes).versions == s.versions,
        s.with_nodes(codes, inboxes).config.contains_key(name) <==> s.config.contains_key(name) || (
        exists|i: int| 0 <= i < codes.len() && (#[trigger] codes[i]).0 == name),
        (forall|i: int| 0 <= i < codes.len() ==> (#[trigger] codes[i]).0 != name) ==> s.with_nodes(
            codes,
            inboxes,
        ).config.get(name) == s.config.get(name),
    decreases codes.len(),
{
    if codes.len() > 0 {
        let rest = codes.drop_last();
        lemma_with_nodes_config(s, rest, inboxes, name);
        assert forall|i: int| 0 <= i < rest.len() implies #[trigger] codes[i] == rest[i] by {}
        if exists|i: int| 0 <= i < rest.len() && (#[trigger] rest[i]).0 == name {
            let i = choose|i: int| 0 <= i < rest.len() && (#[trigger] rest[i]).0 == name;
            assert(codes[i].0 == name);
        }
        if codes.last().0 == name {
            assert(codes[codes.len() - 1].0 == name);
        }
        if exists|i: int| 0 <= i < codes.len() && (#[trigger] codes[i]).0 == name {
            let i = choose|i: int| 0 <= i < codes.len() && (#[trigger] codes[i]).0 == name;
            if i < rest.len() {
                assert(rest[i].0 == name);
            }
        }
    }
}

/// After the update there is code under a name exactly where the update has new code
/// under it, or where there was code that is no version of a node that changes: nothing is
/// left of the earlier versions of those nodes, and every other node stays.
pub proof fn law_update_replaces_code(
    s: ManagerState,
    update: CodeUpdateModel,
    inboxes: Seq<Endpoint>,
    name: Seq<char>,
)
    ensures
        ({
            let codes = translated(s.versions, update.new_code);
            let t = s.updated(update, inboxes);
            let is_new = exists|i: int| 0 <= i < codes.len() && (#[trigger] codes[i]).0 == name;
            &&& t.config.contains_key(name) <==> is_new || (s.config.contains_key(name)
                && !is_version_of_any(name, update.nodes_to_modify))
            &&& !is_new && t.config.contains_key(name) ==> t.config[name] == s.config[name]
        }),
{
    lemma_with_nodes_config(
        s.emptied(update),
        translated(s.versions, update.new_code),
        inboxes,
        name,
    );
    let counted = ManagerState { versions: versions_after(s.versions, update.new_code), ..s };
    assert(counted.stale(update.nodes_to_modify).contains(name) <==> s.config.contains_key(name)
        && is_version_of_any(name, update.nodes_to_modify));
}

impl Manager {
    /// Removes the code of the nodes in `nodes`, in all their versions, and what was
    /// recorded of it.
    pub(crate) fn remove_stale(&mut self, nodes: &ListSet<String>)
        ensures
            final(self).deep_view() == old(self).deep_view().without_stale(nodes.deep_view()),
    {
        let ghost s = self.deep_view();
        let ghost gone = s.stale(nodes.deep_view());
        let stale = self.stale_keys(nodes);
        let ghost l = stale.listing();
        let n: usize = stale.len();
        let mut i: usize = 0;
        assert(l.take(0).to_set() =~= Set::<Seq<char>>::empty());
        assert(s.config.remove_keys(Set::empty()) =~= s.config);
        assert(s.graph.remove_keys(Set::empty()) =~= s.graph);
        while i < n
            invariant
                i <= n == l.len(),
                l == stale.listing(),
                self.deep_view() == (ManagerState {
                    config: s.config.remove_keys(l.take(i as int).to_set()),
                    graph: s.graph.remove_keys(l.take(i as int).to_set()),
                    ..s
                }),
            decreases n - i,
        {
            proof {
                lemma_take_contains(l, i as int);
            }
            let _code = self.system_configuration.remove(stale.at(i));
            let _deps = self.dependency_graph.remove(stale.at(i));
            proof {
                assert(self.deep_view().config =~= s.config.remove_keys(l.take(i + 1).to_set()));
                assert(self.deep_view().graph =~= s.graph.remove_keys(l.take(i + 1).to_set()));
            }
            i = i + 1;
        }
        proof {
            assert(l.take(n as int) =~= l);
            assert(l.to_set() == gone);
        }
        let ghost k = self.reverse_dependencies.keys();
        let m: usize = self.reverse_dependencies.len();
        let mut reverse: ListMap<String, ListSet<String>> = ListMap::new();
        let mut j: usize = 0;
        while j < m
            invariant
                j <= m == k.len(),
                k == self.reverse_dependencies.keys(),
                self.deep_view() == (ManagerState {
                    config: s.config.remove_keys(gone),
                    graph: s.graph.remove_keys(gone),
                    ..s
                }),
                stale.deep_view() == gone,
                forall|x: Seq<char>| #[trigger]
                    reverse.deep_view().contains_key(x) <==> k.take(j as int).contains(x),
                forall|x: Seq<char>| #[trigger]
                    reverse.deep_view().contains_key(x) ==> reverse.deep_view()[x]
                        == s.reverse[x].difference(gone),
            decreases m - j,
        {
            proof {
                lemma_take_contains(k, j as int);
            }
            let users = self.reverse_dependencies.value_at(j).minus(&stale);
            reverse.insert(self.reverse_dependencies.key_at(j).clone(), users);
            j = j + 1;
        }
        proof {
            assert(k.take(m as int) =~= k);
            assert forall|x: Seq<char>| k.contains(x) <==> #[trigger] s.reverse.contains_key(x) by {
                assert(k.to_set().contains(x) <==> s.reverse.dom().contains(x));
            }
            assert(reverse.deep_view() =~= s.without_stale(nodes.deep_view()).reverse);
        }
        self.reverse_dependencies = reverse;
    }

    fn stale_keys(&self, nodes: &ListSet<String>) -> (r: ListSet<String>)
        ensures
            r.deep_view() == self.deep_view().stale(nodes.deep_view()),
    {
        let ghost s = self.deep_view();
        let ghost k = self.system_configuration.keys();
        let n: usize = self.system_configuration.len();
        let mut r: ListSet<String> = ListSet::new();
        let mut i: usize = 0;
        while i < n
            invariant
                i <= n == k.len(),
                k == self.system_configuration.keys(),
                forall|x: Seq<char>| #[trigger]
                    r.deep_view().contains(x) <==> k.take(i as int).contains(x) && is_version_of_any(
                        x,
                        nodes.deep_view(),
                    ),
            decreases n - i,
        {
            proof {
                lemma_take_contains(k, i as int);
            }
            let key = self.system_configuration.key_at(i);
            if is_version_of_one(key, nodes) {
                r.insert(key.clone());
            }
            i = i + 1;
        }
        proof {
            assert(k.take(n as int) =~= k);
            assert forall|x: Seq<char>| k.contains(x) <==> #[trigger] s.config.contains_key(x) by {
                assert(k.to_set().contains(x) <==> s.config.dom().contains(x));
            }
            assert(r.deep_view() =~= s.stale(nodes.deep_view()));
        }
        r
    }

    fn install_node(&mut self, name: String, expr: Expr, inbox: Endpoint) -> (w: NewWorker)
        ensures
            final(self).deep_view() == old(self).deep_view().with_node(
                name@,
                expr.deep_view(),
                inbox,
            ),
            old(self).deep_view().starts(name@, expr.deep_view(), inbox, w.deep_view()),
    {
        let ghost s = self.deep_view();
        let ghost e = expr.deep_view();
        let deps = expr.names_contained();
        self.system_configuration.insert(name.clone(), expr.dup());
        self.dependency_graph.insert(name.clone(), deps.dup());
        let ghost l = deps.listing();
        let n: usize = deps.len();
        let mut i: usize = 0;
        assert(l.take(0).to_set() =~= Set::<Seq<char>>::empty());
        assert(s.with_user(name@, Set::empty()) =~= s.reverse);
        while i < n
            invariant
                i <= n == l.len(),
                l == deps.listing(),
                self.deep_view() == (ManagerState {
                    config: s.config.insert(name@, e),
                    graph: s.graph.insert(name@, names_in(e)),
                    reverse: s.with_user(name@, l.take(i as int).to_set()),
                    ..s
                }),
            decreases n - i,
        {
            proof {
                lemma_take_contains(l, i as int);
            }
            let dep = deps.at(i);
            let mut users: ListSet<String> = match self.reverse_dependencies.remove(dep) {
                Some(users) => users,
                None => ListSet::new(),
            };
            users.insert(name.clone());
            self.reverse_dependencies.insert(dep.clone(), users);
            assert(self.deep_view().reverse =~= s.with_user(name@, l.take(i + 1).to_set()));
            i = i + 1;
        }
        assert(l.take(n as int) =~= l);
        assert(self.deep_view() == s.with_code(name@, e));
        if deps.is_empty() {
            let worker = self.create_varworker(name.as_str(), inbox);
            NewWorker::Var { inbox, worker }
        } else {
            let transitive_deps = self.dependency_graph.dup();
            let (worker, subscriptions) = self.create_defworker(
                name.as_str(),
                &expr,
                transitive_deps,
                inbox,
            );
            NewWorker::Def { inbox, worker, subscriptions }
        }
    }

    /// Puts new code in the place of the earlier versions of the nodes that change.
    /// Returns the workers of the new code; `inboxes` has the address of a channel for each
    /// of them.
    pub fn install_code(&mut self, update: &CodeUpdate, inboxes: &Vec<Endpoint>) -> (ws: Vec<
        NewWorker,
    >)
        requires
            versions_fit(old(self).deep_view().versions, update.deep_view().new_code),
            inboxes.len() >= update.new_code.len(),
        ensures
            final(self).deep_view() == old(self).deep_view().updated(update.deep_view(), inboxes@),
            old(self).deep_view().emptied(update.deep_view()).starts_all(
                translated(old(self).deep_view().versions, update.deep_view().new_code),
                inboxes@,
                ws.deep_view(),
            ),
    {
        let ghost first = self.deep_view();
        let ghost u = update.deep_view();
        let codes = self.translate_to_versioned_form(&update.new_code);
        self.remove_stale(&update.nodes_to_modify);
        let ghost s = self.deep_view();
        let ghost c = codes.deep_view();
        proof {
            assert(s == first.emptied(u));
            if u.new_code.len() > 0 {
                crate::manager::versions::law_translated_names(first.versions, u.new_code, 0);
            }
            assert(c.len() == u.new_code.len());
        }
        let mut ws: Vec<NewWorker> = Vec::new();
        let mut i: usize = 0;
        assert(c.take(0) =~= Seq::<(Seq<char>, ExprModel)>::empty());
        while i < codes.len()
            invariant
                i <= codes.len() == c.len(),
                c == codes.deep_view(),
                inboxes.len() >= c.len(),
                self.deep_view() == s.with_nodes(c.take(i as int), inboxes@),
                ws.len() == i,
                forall|j: int|
                    0 <= j < i ==> s.with_nodes(c.take(j), inboxes@).starts(
                        c[j].0,
                        c[j].1,
                        inboxes@[j],
                        (#[trigger] ws[j]).deep_view(),
                    ),
            decreases codes.len() - i,
        {
            let (name, expr) = codes[i].dup();
            proof {
                assert(c[i as int] == (name@, expr.deep_view()));
                assert(c.take(i + 1).drop_last() =~= c.take(i as int));
            }
            let w = self.install_node(name, expr, inboxes[i]);
            ws.push(w);
            i = i + 1;
        }
        proof {
            assert(c.take(i as int) =~= c);
            assert forall|j: int| 0 <= j < c.len() implies s.with_nodes(
                c.take(j),
                inboxes@,
            ).starts(c[j].0, c[j].1, inboxes@[j], #[trigger] ws.deep_view()[j]) by {
                assert(ws.deep_view()[j] == ws[j].deep_view());
            }
        }
        ws
    }
}

fn is_version_of_one(name: &String, nodes: &ListSet<String>) -> (r: bool)
    ensures
        r == is_version_of_any(name@, nodes.deep_view()),
{
    let ghost l = nodes.listing();
    let n: usize = nodes.len();
    let mut i: usize = 0;
    while i < n
        invariant
            i <= n == l.len(),
            l == nodes.listing(),
            forall|j: int| 0 <= j < i ==> !is_version_of(name@, #[trigger] l[j]),
        decreases n - i,
    {
        if names_version_of(name, nodes.at(i)) {
            assert(nodes.deep_view().contains(l[i as int]));
            return true;
        }
        i = i + 1;
    }
    proof {
        if is_version_of_any(name@, nodes.deep_view()) {
            let b = choose|b: Seq<char>| #[trigger]
                nodes.deep_view().contains(b) && is_version_of(name@, b);
            assert(l.to_set().contains(b));
            let j = choose|j: int| 0 <= j < l.len() && l[j] == b;
            assert(!is_version_of(name@, l[j]));
        }
    }
    false
}

} // verus!
