//! Cycles among nodes that depend on each other.

use vstd::prelude::*;

use crate::collections::{ListMap, ListSet};

verus! {

/// For each node, the nodes that it depends on.
pub type Graph = Map<Seq<char>, Set<Seq<char>>>;

/// The node `a` depends on the node `b`.
pub open spec fn edge(g: Graph, a: Seq<char>, b: Seq<char>) -> bool {
    g.contains_key(a) && g[a].contains(b)
}

/// Each node in `c` depends on the next one, and the last one on the first.
pub open spec fn is_cycle(g: Graph, c: Seq<Seq<char>>) -> bool {
    &&& c.len() > 0
    &&& forall|i: int| 0 <= i < c.len() - 1 ==> edge(g, #[trigger] c[i], c[i + 1])
    &&& edge(g, c.last(), c[0])
}

pub open spec fn has_cycle(g: Graph) -> bool {
    exists|c: Seq<Seq<char>>| is_cycle(g, c)
}

/// `found` goes once round a cycle, against the direction of the dependencies.
pub open spec fn is_cycle_backwards(g: Graph, found: Seq<Seq<char>>) -> bool {
    is_cycle(g, found.reverse()) && found.no_duplicates()
}

/// Each node in the list is preceded by all nodes that it depends on.
pub open spec fn in_order(g: Graph, done: Seq<Seq<char>>) -> bool {
    forall|i: int, b: Seq<char>|
        0 <= i < done.len() && #[trigger] edge(g, done[i], b) ==> done.take(i).contains(b)
}

/// Each node in `path` depends on the next one, and the last one on `node`.
pub open spec fn leads_to(g: Graph, path: Seq<Seq<char>>, node: Seq<char>) -> bool {
    &&& forall|i: int| 0 <= i < path.len() - 1 ==> edge(g, #[trigger] path[i], path[i + 1])
    &&& path.len() > 0 ==> edge(g, path.last(), node)
}

/// The nodes of a graph can be listed so that each is preceded by all nodes that it
/// depends on only if there is no cycle among them.
pub proof fn law_ordered_graph_has_no_cycle(g: Graph, done: Seq<Seq<char>>)
    requires
        in_order(g, done),
        forall|a: Seq<char>| #[trigger] g.contains_key(a) ==> done.contains(a),
    ensures
        !has_cycle(g),
{
    if has_cycle(g) {
        let c = choose|c: Seq<Seq<char>>| is_cycle(g, c);
        assert forall|i: int| 0 <= i < c.len() implies g.contains_key(#[trigger] c[i]) by {
            if i < c.len() - 1 {
                assert(edge(g, c[i], c[i + 1]));
            }
        }
        assert(c.last() == c[c.len() - 1]);
        lemma_descends(g, done, c, c.len() - 1);
        lemma_first_index(g, done, c.last(), c[0]);
    }
}

/// The first position of `a` in `s`.
pub open spec fn first_index(s: Seq<Seq<char>>, a: Seq<char>) -> int {
    choose|i: int| 0 <= i < s.len() && s[i] == a && !s.take(i).contains(a)
}

proof fn lemma_has_first_index(s: Seq<Seq<char>>, a: Seq<char>, i: int)
    requires
        0 <= i < s.len(),
        s[i] == a,
    ensures
        0 <= first_index(s, a) <= i,
        s[first_index(s, a)] == a,
        !s.take(first_index(s, a)).contains(a),
    decreases i,
{
    if s.take(i).contains(a) {
        let j = choose|j: int| 0 <= j < i && s.take(i)[j] == a;
        lemma_has_first_index(s, a, j);
    } else {
        let k = first_index(s, a);
        assert(0 <= k < s.len() && s[k] == a && !s.take(k).contains(a));
        if k > i {
            assert(s.take(k)[i] == a);
        }
    }
}

proof fn lemma_first_index(g: Graph, done: Seq<Seq<char>>, a: Seq<char>, b: Seq<char>)
    requires
        in_order(g, done),
        done.contains(a),
        edge(g, a, b),
    ensures
        0 <= first_index(done, b) < first_index(done, a),
{
    let i = choose|i: int| 0 <= i < done.len() && done[i] == a;
    lemma_has_first_index(done, a, i);
    let k = first_index(done, a);
    assert(edge(g, done[k], b));
    let j = choose|j: int| 0 <= j < k && done.take(k)[j] == b;
    lemma_has_first_index(done, b, j);
}

proof fn lemma_descends(g: Graph, done: Seq<Seq<char>>, c: Seq<Seq<char>>, i: int)
    requires
        in_order(g, done),
        is_cycle(g, c),
        0 <= i < c.len(),
        forall|j: int| 0 <= j < c.len() ==> g.contains_key(#[trigger] c[j]),
        forall|a: Seq<char>| #[trigger] g.contains_key(a) ==> done.contains(a),
    ensures
        first_index(done, c[i]) <= first_index(done, c[0]),
    decreases i,
{
    if i > 0 {
        lemma_descends(g, done, c, i - 1);
        assert(edge(g, c[i - 1], c[i - 1 + 1]));
        assert(g.contains_key(c[i - 1]));
        lemma_first_index(g, done, c[i - 1], c[i]);
    }
}

/// The position of `name` in `list`.
fn position(list: &Vec<String>, name: &String) -> (r: Option<usize>)
    ensures
        match r {
            Some(i) => i < list.len() && list.deep_view()[i as int] == name@,
            None => !list.deep_view().contains(name@),
        },
{
    let mut i: usize = 0;
    while i < list.len()
        invariant
            i <= list.len(),
            forall|j: int| 0 <= j < i ==> list.deep_view()[j] != name@,
        decreases list.len() - i,
    {
        if list[i].eq(name) {
            return Some(i);
        }
        i = i + 1;
    }
    None
}

/// The cycle that the path closes when it comes back to its own position `start`: that
/// node, and then the path from its end back to the node behind `start`.
fn closed_path(path: &Vec<String>, start: usize, g: Ghost<Graph>) -> (r: Vec<String>)
    requires
        start < path.len(),
        path.deep_view().no_duplicates(),
        leads_to(g@, path.deep_view(), path.deep_view()[start as int]),
    ensures
        is_cycle_backwards(g@, r.deep_view()),
{
    let ghost p = path.deep_view();
    let mut r: Vec<String> = Vec::new();
    r.push(path[start].clone());
    let mut i: usize = path.len();
    while i > start + 1
        invariant
            start < i <= path.len(),
            p == path.deep_view(),
            r.len() == 1 + path.len() - i,
            r.deep_view()[0] == p[start as int],
            forall|j: int|
                1 <= j < r.len() ==> #[trigger] r.deep_view()[j] == p[path.len() - j],
        ensures
            i == start + 1,
        decreases i,
    {
        let ghost before = r.deep_view();
        i = i - 1;
        r.push(path[i].clone());
        assert(r.deep_view() =~= before.push(p[i as int]));
    }
    proof {
        let found = r.deep_view();
        let c = found.reverse();
        let n = found.len() as int;
        assert(n == p.len() - start);
        assert forall|i: int| 0 <= i < n - 1 implies #[trigger] c[i] == p[start + 1 + i] by {
            assert(c[i] == found[n - 1 - i]);
        }
        assert(c[n - 1] == p[start as int]);
        assert forall|i: int| 0 <= i < c.len() - 1 implies edge(g@, #[trigger] c[i], c[i + 1]) by {
            if i < n - 2 {
                assert(edge(g@, p[start + 1 + i], p[start + 1 + i + 1]));
                assert(c[i + 1] == p[start + 1 + (i + 1)]);
            } else {
                assert(start + 1 + i == p.len() - 1);
                assert(edge(g@, p.last(), p[start as int]));
            }
        }
        if n > 1 {
            assert(edge(g@, p[start as int], p[start + 1]));
            assert(c[0] == p[start + 1 + 0]);
        }
        assert forall|i: int, j: int|
            0 <= i < found.len() && 0 <= j < found.len() && i != j implies found[i]
            != found[j] by {
            if i > 0 {
                assert(found[i] == p[p.len() - i]);
            }
            if j > 0 {
                assert(found[j] == p[p.len() - j]);
            }
        }
    }
    r
}

/// Searches the nodes that can be reached from `node`. `path` led to it; the nodes in
/// `visited` are known to lead to no cycle.
fn visit(
    graph: &ListMap<String, ListSet<String>>,
    node: &String,
    visited: &mut Vec<String>,
    path: &mut Vec<String>,
) -> (r: Option<Vec<String>>)
    requires
        in_order(graph.deep_view(), old(visited).deep_view()),
        leads_to(graph.deep_view(), old(path).deep_view(), node@),
        old(path).deep_view().no_duplicates(),
        graph.deep_view().dom().finite(),
    ensures
        match r {
            Some(found) => is_cycle_backwards(graph.deep_view(), found.deep_view()),
            None => {
                &&& final(path).deep_view() == old(path).deep_view()
                &&& old(visited).deep_view().is_prefix_of(final(visited).deep_view())
                &&& final(visited).deep_view().contains(node@)
                &&& in_order(graph.deep_view(), final(visited).deep_view())
            },
        },
    decreases graph.deep_view().dom().difference(old(path).deep_view().to_set()).len(),
{
    let ghost g = graph.deep_view();
    let ghost p = path.deep_view();
    match position(path, node) {
        Some(start) => {
            return Some(closed_path(path, start, Ghost(g)));
        },
        None => {},
    }
    match position(visited, node) {
        Some(_) => {
            return None;
        },
        None => {},
    }
    path.push(node.clone());
    proof {
        assert(path.deep_view() =~= p.push(node@));
        lemma_path_grows(g, p, node@);
    }
    let ghost longer = path.deep_view();
    let ghost start = visited.deep_view();
    match graph.get(node) {
        Some(deps) => {
            let ghost l = deps.listing();
            let n: usize = deps.len();
            let mut i: usize = 0;
            while i < n
                invariant
                    i <= n == l.len(),
                    l == deps.listing(),
                    g == graph.deep_view(),
                    g.contains_key(node@),
                    g[node@] == deps.deep_view(),
                    g.dom().finite(),
                    p == old(path).deep_view(),
                    longer == p.push(node@),
                    path.deep_view() == longer,
                    longer.no_duplicates(),
                    !p.contains(node@),
                    leads_to(g, p, node@),
                    start == old(visited).deep_view(),
                    start.is_prefix_of(visited.deep_view()),
                    in_order(g, visited.deep_view()),
                    forall|j: int| 0 <= j < i ==> visited.deep_view().contains(#[trigger] l[j]),
                decreases n - i,
            {
                let ghost before = visited.deep_view();
                let dep = deps.at(i);
                proof {
                    assert(edge(g, node@, dep@));
                    assert forall|j: int| 0 <= j < longer.len() - 1 implies edge(
                        g,
                        #[trigger] longer[j],
                        longer[j + 1],
                    ) by {
                        if j < p.len() - 1 {
                            assert(edge(g, p[j], p[j + 1]));
                        }
                    }
                    assert(leads_to(g, longer, dep@));
                    lemma_fewer_left(g, p, node@);
                }
                match visit(graph, dep, visited, path) {
                    Some(found) => {
                        return Some(found);
                    },
                    None => {},
                }
                proof {
                    let after = visited.deep_view();
                    assert forall|j: int| 0 <= j < i + 1 implies after.contains(
                        #[trigger] l[j],
                    ) by {
                        if j < i {
                            assert(before.contains(l[j]));
                            let k = choose|k: int| 0 <= k < before.len() && before[k] == l[j];
                            assert(after[k] == l[j]);
                        }
                    }
                }
                i = i + 1;
            }
            proof {
                assert forall|b: Seq<char>| #[trigger]
                    edge(g, node@, b) implies visited.deep_view().contains(b) by {
                    assert(l.to_set().contains(b));
                    let j = choose|j: int| 0 <= j < l.len() && l[j] == b;
                    assert(visited.deep_view().contains(l[j]));
                }
            }
        },
        None => {},
    }
    assert(path.deep_view() == longer && longer =~= p.push(node@));
    let ghost full = path@;
    let _ = path.pop();
    assert(path@ =~= full.drop_last());
    assert forall|i: int| 0 <= i < p.len() implies #[trigger] path.deep_view()[i] == p[i] by {
        assert(longer[i] == full[i].deep_view());
    }
    let ghost before = visited.deep_view();
    visited.push(node.clone());
    proof {
        assert(path.deep_view() =~= p);
        let after = visited.deep_view();
        assert(after =~= before.push(node@));
        assert(after[before.len() as int] == node@);
        assert forall|i: int, b: Seq<char>|
            0 <= i < after.len() && #[trigger] edge(g, after[i], b) implies after.take(i).contains(
            b,
        ) by {
            assert(after.take(i) =~= before.take(i));
            if i == before.len() {
                assert(before.take(i) =~= before);
            } else {
                assert(edge(g, before[i], b));
            }
        }
    }
    None
}

proof fn lemma_path_grows(g: Graph, p: Seq<Seq<char>>, node: Seq<char>)
    requires
        p.no_duplicates(),
        !p.contains(node),
    ensures
        p.push(node).no_duplicates(),
{
}

proof fn lemma_fewer_left(g: Graph, p: Seq<Seq<char>>, node: Seq<char>)
    requires
        g.dom().finite(),
        g.contains_key(node),
        !p.contains(node),
    ensures
        g.dom().difference(p.push(node).to_set()).len() < g.dom().difference(p.to_set()).len(),
{
    p.lemma_push_to_set_commute(node);
    assert(g.dom().difference(p.push(node).to_set()) =~= g.dom().difference(p.to_set()).remove(
        node,
    ));
}

/// A cycle in the graph, if it has one: its nodes once, each followed by one that depends
/// on it.
pub fn find_cycle(graph: &ListMap<String, ListSet<String>>) -> (r: Option<Vec<String>>)
    ensures
        r is Some <==> has_cycle(graph.deep_view()),
        r matches Some(found) ==> is_cycle_backwards(graph.deep_view(), found.deep_view()),
{
    let ghost g = graph.deep_view();
    let ghost l = graph.keys();
    let n: usize = graph.len();
    let mut visited: Vec<String> = Vec::new();
    let mut path: Vec<String> = Vec::new();
    let mut i: usize = 0;
    while i < n
        invariant
            i <= n == l.len(),
            l == graph.keys(),
            g == graph.deep_view(),
            g.dom().finite(),
            path.deep_view().len() == 0,
            in_order(g, visited.deep_view()),
            forall|j: int| 0 <= j < i ==> visited.deep_view().contains(#[trigger] l[j]),
        decreases n - i,
    {
        let ghost before = visited.deep_view();
        match visit(graph, graph.key_at(i), &mut visited, &mut path) {
            Some(found) => {
                assert(is_cycle(g, found.deep_view().reverse()));
                return Some(found);
            },
            None => {},
        }
        proof {
            let after = visited.deep_view();
            assert forall|j: int| 0 <= j < i + 1 implies after.contains(#[trigger] l[j]) by {
                if j < i {
                    assert(before.contains(l[j]));
                    let k = choose|k: int| 0 <= k < before.len() && before[k] == l[j];
                    assert(after[k] == l[j]);
                }
            }
        }
        i = i + 1;
    }
    proof {
        let done = visited.deep_view();
        assert forall|a: Seq<char>| #[trigger] g.contains_key(a) implies done.contains(a) by {
            assert(l.to_set().contains(a));
            let j = choose|j: int| 0 <= j < l.len() && l[j] == a;
            assert(done.contains(l[j]));
        }
        law_ordered_graph_has_no_cycle(g, done);
    }
    None
}

} // verus!
