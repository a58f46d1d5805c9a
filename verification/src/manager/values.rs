//! Values of nodes, computed from the code that is in force.

use vstd::prelude::*;

use crate::collections::ListMap;
#[allow(unused_imports)]
use crate::collections::lemma_take_contains;
use crate::expr::{evaluate_expr, Val};
#[allow(unused_imports)]
use crate::expr::{names_in, value_in, ValModel};
use crate::manager::Manager;
#[allow(unused_imports)]
use crate::manager::versions::latest_version;
#[allow(unused_imports)]
use crate::manager::ManagerState;
use crate::text::{base_name, versioned_name};
#[allow(unused_imports)]
use crate::text::{base_of, decimal, lemma_base_of_version, versioned};

verus! {

impl ManagerState {
    /// The node whose code gives `name` its value: the latest version of `name` without
    /// its own version.
    pub open spec fn resolved(self, name: Seq<char>) -> Seq<char> {
        versioned(base_of(name), latest_version(self.versions, base_of(name)))
    }

    /// No chain of dependencies that starts at the node `key` is longer than `depth`.
    pub open spec fn settles(self, key: Seq<char>, depth: nat) -> bool
        decreases depth,
    {
        self.config.contains_key(key) ==> depth > 0 && forall|d: Seq<char>|
            names_in(self.config[key]).contains(d) ==> self.settles(
                #[trigger] self.resolved(d),
                (depth - 1) as nat,
            )
    }

    /// The chains of dependencies that start at `name` come to an end.
    pub open spec fn retrievable(self, name: Seq<char>) -> bool {
        exists|depth: nat| self.settles(self.resolved(name), depth)
    }

    /// The value that the code of the node `key` has where `below` holds the values of
    /// the nodes that it may depend on: none where the node has no code, one that it
    /// depends on has no value, or the code has none on their values.
    pub open spec fn value_on(self, below: Map<Seq<char>, ValModel>, key: Seq<char>) -> Option<
        ValModel,
    > {
        if !self.config.contains_key(key) {
            None
        } else {
            let e = self.config[key];
            if exists|d: Seq<char>| #[trigger]
                names_in(e).contains(d) && !below.contains_key(self.resolved(d)) {
                None
            } else {
                value_in(
                    e,
                    Map::new(
                        |d: Seq<char>| names_in(e).contains(d),
                        |d: Seq<char>| Some(below[self.resolved(d)]),
                    ),
                )
            }
        }
    }

    /// The nodes that have a value where `below` holds the values of the nodes that they
    /// may depend on.
    pub open spec fn values_on(self, below: Map<Seq<char>, ValModel>) -> Map<Seq<char>, ValModel> {
        Map::new(
            |k: Seq<char>| self.value_on(below, k) is Some,
            |k: Seq<char>| self.value_on(below, k)->0,
        )
    }

    /// The values of the nodes, found along chains of dependencies no longer than `depth`.
    pub open spec fn values_within(self, depth: nat) -> Map<Seq<char>, ValModel>
        decreases depth,
    {
        if depth == 0 {
            Map::empty()
        } else {
            self.values_on(self.values_within((depth - 1) as nat))
        }
    }

    /// The value of the node `key`, found along chains of dependencies no longer than
    /// `depth`.
    pub open spec fn value_at(self, key: Seq<char>, depth: nat) -> Option<ValModel> {
        self.values_within(depth).get(key)
    }

    /// The value of `name`, whose chains of dependencies come to an end.
    pub open spec fn value_of(self, name: Seq<char>) -> Option<ValModel> {
        self.value_at(
            self.resolved(name),
            choose|depth: nat| self.settles(self.resolved(name), depth),
        )
    }
}

proof fn lemma_settles_longer(s: ManagerState, key: Seq<char>, d: nat, e: nat)
    requires
        s.settles(key, d),
        d <= e,
    ensures
        s.settles(key, e),
    decreases d,
{
    if s.config.contains_key(key) {
        assert forall|n: Seq<char>| names_in(s.config[key]).contains(n) implies s.settles(
            #[trigger] s.resolved(n),
            (e - 1) as nat,
        ) by {
            lemma_settles_longer(s, s.resolved(n), (d - 1) as nat, (e - 1) as nat);
        }
    }
}

proof fn lemma_value_of_depth(s: ManagerState, key: Seq<char>, d: nat, e: nat)
    requires
        s.settles(key, d),
        s.settles(key, e),
    ensures
        s.value_at(key, d) == s.value_at(key, e),
    decreases d,
{
    if s.config.contains_key(key) {
        let code = s.config[key];
        let at_d = s.values_within((d - 1) as nat);
        let at_e = s.values_within((e - 1) as nat);
        assert forall|n: Seq<char>| #[trigger] names_in(code).contains(n) implies at_d.get(
            s.resolved(n),
        ) == at_e.get(s.resolved(n)) by {
            lemma_value_of_depth(s, s.resolved(n), (d - 1) as nat, (e - 1) as nat);
        }
        lemma_value_on_same(s, at_d, at_e, key);
    }
}

/// The value of a node depends on the values of what its code names, and nothing else.
proof fn lemma_value_on_same(
    s: ManagerState,
    a: Map<Seq<char>, ValModel>,
    b: Map<Seq<char>, ValModel>,
    key: Seq<char>,
)
    requires
        s.config.contains_key(key),
        forall|n: Seq<char>| #[trigger]
            names_in(s.config[key]).contains(n) ==> a.get(s.resolved(n)) == b.get(s.resolved(n)),
    ensures
        s.value_on(a, key) == s.value_on(b, key),
{
    let code = s.config[key];
    if forall|n: Seq<char>| #[trigger]
        names_in(code).contains(n) ==> a.contains_key(s.resolved(n)) {
        assert(Map::new(
            |n: Seq<char>| names_in(code).contains(n),
            |n: Seq<char>| Some(a[s.resolved(n)]),
        ) =~= Map::new(
            |n: Seq<char>| names_in(code).contains(n),
            |n: Seq<char>| Some(b[s.resolved(n)]),
        ));
    }
}

/// A node that leads back to itself settles at no depth.
proof fn lemma_circle_never_settles(s: ManagerState, key: Seq<char>, d: nat)
    requires
        s.config.contains_key(key),
        forall|e: nat| #[trigger] s.settles(key, e) ==> e > 0 && s.settles(key, (e - 1) as nat),
    ensures
        !s.settles(key, d),
    decreases d,
{
    if s.settles(key, d) {
        lemma_circle_never_settles(s, key, (d - 1) as nat);
    }
}

/// Code without names has the value that the code alone gives.
pub proof fn law_value_of_closed_code(s: ManagerState, name: Seq<char>)
    requires
        s.config.contains_key(s.resolved(name)),
        names_in(s.config[s.resolved(name)]) == Set::<Seq<char>>::empty(),
    ensures
        s.retrievable(name),
        s.value_of(name) == value_in(s.config[s.resolved(name)], Map::empty()),
{
    let key = s.resolved(name);
    assert(s.settles(key, 1));
    let d = choose|depth: nat| s.settles(key, depth);
    let below = s.values_within((d - 1) as nat);
    assert(Map::new(
        |n: Seq<char>| names_in(s.config[key]).contains(n),
        |n: Seq<char>| Some(below[s.resolved(n)]),
    ) =~= Map::<Seq<char>, Option<ValModel>>::empty());
}

/// A node has the value that its code gives on the values of what it depends on, and
/// none where one of these has none.
pub proof fn law_value_follows_code(s: ManagerState, name: Seq<char>)
    requires
        s.retrievable(name),
        s.config.contains_key(s.resolved(name)),
    ensures
        ({
            let e = s.config[s.resolved(name)];
            &&& forall|d: Seq<char>| #[trigger] names_in(e).contains(d) ==> s.retrievable(d)
            &&& s.value_of(name) == if forall|d: Seq<char>| #[trigger]
                names_in(e).contains(d) ==> s.value_of(d) is Some {
                value_in(
                    e,
                    Map::new(|d: Seq<char>| names_in(e).contains(d), |d: Seq<char>| s.value_of(d)),
                )
            } else {
                None
            }
        }),
{
    let key = s.resolved(name);
    let e = s.config[key];
    let depth = choose|depth: nat| s.settles(key, depth);
    let below = (depth - 1) as nat;
    assert forall|d: Seq<char>| #[trigger] names_in(e).contains(d) implies s.retrievable(d)
        && s.value_of(d) == s.value_at(s.resolved(d), below) by {
        assert(s.settles(s.resolved(d), below));
        let own = choose|own: nat| s.settles(s.resolved(d), own);
        lemma_value_of_depth(s, s.resolved(d), own, below);
    }
    if forall|d: Seq<char>| #[trigger] names_in(e).contains(d) ==> s.value_of(d) is Some {
        assert(Map::new(
            |d: Seq<char>| names_in(e).contains(d),
            |d: Seq<char>| Some(s.values_within(below)[s.resolved(d)]),
        ) =~= Map::new(|d: Seq<char>| names_in(e).contains(d), |d: Seq<char>| s.value_of(d)));
    }
}

impl Manager {
    fn resolve(&self, name: &str) -> (r: String)
        ensures
            r@ == self.deep_view().resolved(name@),
    {
        let base = base_name(name);
        let version = self.latest_version_of(&base);
        versioned_name(&base, version)
    }

    /// The value of a node, computed from the latest code of the node and of everything
    /// that it depends on.
    pub fn retrieve_val(&self, name: &str) -> (r: Option<Val>)
        requires
            self.deep_view().retrievable(name@),
        ensures
            r.deep_view() == self.deep_view().value_of(name@),
    {
        let ghost s = self.deep_view();
        let ghost depth = choose|depth: nat| s.settles(s.resolved(name@), depth);
        self.retrieve_within(name, Ghost(depth))
    }

    fn retrieve_within(&self, name: &str, Ghost(depth): Ghost<nat>) -> (r: Option<Val>)
        requires
            self.deep_view().settles(self.deep_view().resolved(name@), depth),
        ensures
            r.deep_view() == self.deep_view().value_at(self.deep_view().resolved(name@), depth),
        decreases depth,
    {
        let ghost s = self.deep_view();
        let key = self.resolve(name);
        match self.system_configuration.get(&key) {
            None => None,
            Some(expr) => {
                let ghost e = expr.deep_view();
                let ghost below = (depth - 1) as nat;
                let deps = expr.names_contained();
                let ghost l = deps.listing();
                let n: usize = deps.len();
                let mut env: ListMap<String, Option<Val>> = ListMap::new();
                let mut i: usize = 0;
                while i < n
                    invariant
                        i <= n == l.len(),
                        l == deps.listing(),
                        s == self.deep_view(),
                        e == expr.deep_view(),
                        deps.deep_view() == names_in(e),
                        s.settles(key@, depth),
                        s.config.contains_key(key@),
                        s.config[key@] == e,
                        key@ == s.resolved(name@),
                        depth > 0,
                        below == depth - 1,
                        forall|k: Seq<char>| #[trigger]
                            env.deep_view().contains_key(k) <==> l.take(i as int).contains(k),
                        forall|k: Seq<char>| #[trigger]
                            env.deep_view().contains_key(k) ==> env.deep_view()[k] is Some
                                && env.deep_view()[k] == s.value_at(s.resolved(k), below),
                    decreases n - i,
                {
                    let dep = deps.at(i);
                    proof {
                        lemma_take_contains(l, i as int);
                        assert(names_in(e).contains(dep@));
                        assert(s.settles(s.resolved(dep@), below));
                    }
                    match self.retrieve_within(dep.as_str(), Ghost(below)) {
                        Some(v) => {
                            env.insert(dep.clone(), Some(v));
                        },
                        None => {
                            assert(s.value_at(s.resolved(dep@), below) is None);
                            return None;
                        },
                    }
                    i = i + 1;
                }
                proof {
                    assert(l.take(n as int) =~= l);
                    assert forall|k: Seq<char>| #[trigger]
                        env.deep_view().contains_key(k) <==> names_in(e).contains(k) by {
                        assert(l.to_set().contains(k) <==> names_in(e).contains(k));
                    }
                    assert(env.deep_view() =~= Map::new(
                        |d: Seq<char>| names_in(e).contains(d),
                        |d: Seq<char>| Some(s.values_within(below)[s.resolved(d)]),
                    ));
                    assert forall|d: Seq<char>| #[trigger]
                        names_in(e).contains(d) implies s.values_within(below).contains_key(
                        s.resolved(d),
                    ) by {
                        assert(env.deep_view().contains_key(d));
                    }
                }
                evaluate_expr(expr, &env)
            },
        }
    }

    /// Whether `retrieve_val` comes to an end on `name`.
    pub fn can_retrieve(&self, name: &str) -> (r: bool)
        ensures
            r == self.deep_view().retrievable(name@),
    {
        let mut path: Vec<String> = Vec::new();
        let _n: usize = self.system_configuration.len();
        self.comes_to_end(name, &mut path)
    }

    fn comes_to_end(&self, name: &str, path: &mut Vec<String>) -> (r: bool)
        requires
            self.deep_view().config.dom().finite(),
            forall|i: int, d: nat|
                0 <= i < old(path).deep_view().len() && #[trigger] self.deep_view().settles(
                    old(path).deep_view()[i],
                    d,
                ) ==> d > 0 && self.deep_view().settles(
                    self.deep_view().resolved(name@),
                    (d - 1) as nat,
                ),
        ensures
            r == self.deep_view().retrievable(name@),
            r ==> final(path).deep_view() == old(path).deep_view(),
        decreases self.deep_view().config.dom().difference(old(path).deep_view().to_set()).len(),
    {
        let ghost s = self.deep_view();
        let ghost p = path.deep_view();
        let key = self.resolve(name);
        match self.system_configuration.get(&key) {
            None => {
                assert(s.settles(key@, 0));
                true
            },
            Some(expr) => {
                let mut h: usize = 0;
                while h < path.len()
                    invariant
                        h <= path.len() == p.len(),
                        p == path.deep_view(),
                        p == old(path).deep_view(),
                        s == self.deep_view(),
                        key@ == s.resolved(name@),
                        s.config.contains_key(key@),
                        forall|j: int| 0 <= j < h ==> p[j] != key@,
                        forall|i: int, d: nat|
                            0 <= i < p.len() && #[trigger] s.settles(p[i], d) ==> d > 0
                                && s.settles(s.resolved(name@), (d - 1) as nat),
                    decreases path.len() - h,
                {
                    if path[h].eq(&key) {
                        proof {
                            assert(p[h as int] == key@);
                            assert forall|e: nat| #[trigger] s.settles(key@, e) implies e > 0
                                && s.settles(key@, (e - 1) as nat) by {
                                assert(s.settles(p[h as int], e));
                            }
                            assert forall|d: nat| !s.settles(key@, d) by {
                                lemma_circle_never_settles(s, key@, d);
                            }
                        }
                        return false;
                    }
                    h = h + 1;
                }
                let ghost e = expr.deep_view();
                path.push(key.clone());
                let ghost longer = path.deep_view();
                proof {
                    assert(longer =~= p.push(key@));
                    assert(!p.contains(key@));
                    p.lemma_push_to_set_commute(key@);
                    assert(s.config.dom().difference(longer.to_set())
                        =~= s.config.dom().difference(p.to_set()).remove(key@));
                }
                let deps = expr.names_contained();
                let ghost l = deps.listing();
                let n: usize = deps.len();
                let ghost mut most: nat = 0;
                let mut i: usize = 0;
                while i < n
                    invariant
                        i <= n == l.len(),
                        l == deps.listing(),
                        s == self.deep_view(),
                        s.config.dom().finite(),
                        e == expr.deep_view(),
                        deps.deep_view() == names_in(e),
                        key@ == s.resolved(name@),
                        s.config.contains_key(key@),
                        s.config[key@] == e,
                        p == old(path).deep_view(),
                        longer == p.push(key@),
                        path.deep_view() == longer,
                        s.config.dom().difference(longer.to_set()).len()
                            < s.config.dom().difference(p.to_set()).len(),
                        forall|i: int, d: nat|
                            0 <= i < p.len() && #[trigger] s.settles(p[i], d) ==> d > 0
                                && s.settles(s.resolved(name@), (d - 1) as nat),
                        forall|j: int| 0 <= j < i ==> s.settles(s.resolved(#[trigger] l[j]), most),
                    decreases n - i,
                {
                    let dep = deps.at(i);
                    proof {
                        assert(names_in(e).contains(dep@));
                        assert forall|j: int, d: nat|
                            0 <= j < longer.len() && #[trigger] s.settles(longer[j], d) implies d
                            > 0 && s.settles(s.resolved(dep@), (d - 1) as nat) by {
                            if j < p.len() {
                                assert(s.settles(p[j], d));
                                assert(s.settles(key@, (d - 1) as nat));
                                assert(s.settles(s.resolved(dep@), (d - 2) as nat));
                                lemma_settles_longer(
                                    s,
                                    s.resolved(dep@),
                                    (d - 2) as nat,
                                    (d - 1) as nat,
                                );
                            } else {
                                assert(s.settles(key@, d));
                            }
                        }
                    }
                    if !self.comes_to_end(dep.as_str(), path) {
                        proof {
                            if s.retrievable(name@) {
                                let d = choose|d: nat| s.settles(key@, d);
                                assert(s.settles(s.resolved(dep@), (d - 1) as nat));
                            }
                        }
                        return false;
                    }
                    proof {
                        let own = choose|own: nat| s.settles(s.resolved(dep@), own);
                        let larger = if own > most {
                            own
                        } else {
                            most
                        };
                        lemma_settles_longer(s, s.resolved(dep@), own, larger);
                        assert forall|j: int| 0 <= j < i + 1 implies s.settles(
                            s.resolved(#[trigger] l[j]),
                            larger,
                        ) by {
                            if j < i {
                                lemma_settles_longer(s, s.resolved(l[j]), most, larger);
                            }
                        }
                        most = larger;
                    }
                    i = i + 1;
                }
                let ghost full = path@;
                let _ = path.pop();
                proof {
                    assert(path@ =~= full.drop_last());
                    assert forall|j: int| 0 <= j < p.len() implies #[trigger] path.deep_view()[j]
                        == p[j] by {
                        assert(longer[j] == full[j].deep_view());
                    }
                    assert(path.deep_view() =~= p);
                    assert forall|d: Seq<char>| names_in(e).contains(d) implies s.settles(
                        #[trigger] s.resolved(d),
                        most,
                    ) by {
                        assert(l.to_set().contains(d));
                        let j = choose|j: int| 0 <= j < l.len() && l[j] == d;
                        assert(s.settles(s.resolved(l[j]), most));
                    }
                    assert(s.settles(key@, (most + 1) as nat));
                }
                true
            },
        }
    }
}

/// A name means the version in force of its node, whichever version it names: all versions
/// of a name have the value of the name.
pub proof fn law_versions_have_one_value(s: ManagerState, name: Seq<char>, version: nat)
    ensures
        s.value_of(versioned(name, version)) == s.value_of(name),
        s.retrievable(versioned(name, version)) <==> s.retrievable(name),
        base_of(name) == name && s.versions.contains_key(name) && s.versions[name] > 0
            ==> s.resolved(name) == name + decimal((s.versions[name] - 1) as nat),
{
    lemma_base_of_version(name, version);
}

/// A node whose version in force has no code has no value.
pub proof fn law_no_code_no_value(s: ManagerState, name: Seq<char>)
    requires
        !s.config.contains_key(s.resolved(name)),
    ensures
        s.retrievable(name),
        s.value_of(name) is None,
{
    let key = s.resolved(name);
    assert(s.settles(key, 0));
    let depth = choose|depth: nat| s.settles(key, depth);
    if depth > 0 {
        assert(s.value_on(s.values_within((depth - 1) as nat), key) is None);
    }
}

} // verus!
