//! Code updates that concern several managers: each manager gets the part of its own
//! nodes, and the update ends when all of them have acknowledged theirs.

use vstd::prelude::*;

use crate::collections::{Dup, ListMap, ListSet};
#[allow(unused_imports)]
use crate::collections::{lemma_filter_sound, lemma_take_contains};
#[allow(unused_imports)]
use crate::expr::ExprModel;
#[allow(unused_imports)]
use crate::manager::{ErrorModel, ManagerState};
use crate::manager::{Manager, ManagerError};
#[allow(unused_imports)]
use crate::message::{CodeUpdateModel, MessageModel};
use crate::message::CodeUpdate;
use crate::transaction::TxnId;

verus! {

impl ManagerState {
    /// The peer that a node is sent to. There is none where the node is this manager's
    /// own, or where its manager is not known.
    pub open spec fn sent_to(self, node: Seq<char>) -> Option<Seq<char>> {
        if self.managed.contains(node) {
            None
        } else {
            self.owners.get(node)
        }
    }

    /// No manager is known for the node.
    pub open spec fn unowned(self, node: Seq<char>) -> bool {
        !self.managed.contains(node) && !self.owners.contains_key(node)
    }

    /// The part of the update that stays here.
    pub open spec fn local_part(self, update: CodeUpdateModel) -> CodeUpdateModel {
        CodeUpdateModel {
            nodes_to_modify: update.nodes_to_modify.filter(
                |n: Seq<char>| self.managed.contains(n),
            ),
            new_code: update.new_code.filter(
                |c: (Seq<char>, ExprModel)| self.managed.contains(c.0),
            ),
        }
    }

    /// The part of the update that is the peer's.
    pub open spec fn remote_part(
        self,
        update: CodeUpdateModel,
        peer: Seq<char>,
    ) -> CodeUpdateModel {
        CodeUpdateModel {
            nodes_to_modify: update.nodes_to_modify.filter(
                |n: Seq<char>| self.sent_to(n) == Some(peer),
            ),
            new_code: update.new_code.filter(
                |c: (Seq<char>, ExprModel)| self.sent_to(c.0) == Some(peer),
            ),
        }
    }

    /// The update concerns the peer: a node that changes, or new code, is the peer's.
    pub open spec fn concerns(self, update: CodeUpdateModel, peer: Seq<char>) -> bool {
        ||| exists|n: Seq<char>| #[trigger]
            update.nodes_to_modify.contains(n) && self.sent_to(n) == Some(peer)
        ||| exists|i: int|
            0 <= i < update.new_code.len() && self.sent_to((#[trigger] update.new_code[i]).0)
                == Some(peer)
    }

    /// For each peer that the update concerns, its part.
    pub open spec fn remote_parts(self, update: CodeUpdateModel) -> Map<
        Seq<char>,
        CodeUpdateModel,
    > {
        Map::new(
            |m: Seq<char>| self.concerns(update, m),
            |m: Seq<char>| self.remote_part(update, m),
        )
    }

    /// Each node of the update has a manager.
    pub open spec fn places_all(self, update: CodeUpdateModel) -> bool {
        &&& forall|n: Seq<char>| #[trigger]
            update.nodes_to_modify.contains(n) ==> !self.unowned(n)
        &&& forall|i: int|
            0 <= i < update.new_code.len() ==> !self.unowned((#[trigger] update.new_code[i]).0)
    }

    /// `node` is one that has no manager: one of the nodes that change, or else the first
    /// one with new code.
    pub open spec fn misplaced(self, update: CodeUpdateModel, node: Seq<char>) -> bool {
        ||| update.nodes_to_modify.contains(node) && self.unowned(node)
        ||| {
            &&& forall|n: Seq<char>| #[trigger]
                update.nodes_to_modify.contains(n) ==> !self.unowned(n)
            &&& exists|i: int|
                {
                    &&& 0 <= i < update.new_code.len()
                    &&& (#[trigger] update.new_code[i]).0 == node
                    &&& self.unowned(node)
                    &&& forall|j: int| 0 <= j < i ==> !self.unowned((#[trigger] update.new_code[j]).0)
                }
        }
    }

    /// The message by which a peer gets its part.
    pub open spec fn part_message(self, part: CodeUpdateModel, id: TxnId) -> MessageModel {
        MessageModel::DistributedCodeUpdate {
            code_update: part,
            txn_id: id,
            sender_manager_id: self.own_id(),
        }
    }
}

pub open spec fn manager_not_found(node: Seq<char>) -> ErrorModel {
    ErrorModel::DistributedError("Manager for node "@ + node + " not found"@)
}

pub open spec fn peer_not_found(peer: Seq<char>) -> ErrorModel {
    ErrorModel::DistributedError("Peer manager "@ + peer + " not found"@)
}

/// Of the nodes that change, each one is in exactly one part: in that of this manager, or
/// in that of one peer. The parts have no other nodes.
pub proof fn law_parts_share_nodes(s: ManagerState, update: CodeUpdateModel, node: Seq<char>)
    requires
        s.places_all(update),
    ensures
        update.nodes_to_modify.contains(node) <==> s.local_part(update).nodes_to_modify.contains(
            node,
        ) || exists|m: Seq<char>| #[trigger]
            s.remote_parts(update).contains_key(m)
                && s.remote_parts(update)[m].nodes_to_modify.contains(node),
        forall|m: Seq<char>| #[trigger]
            s.remote_parts(update).contains_key(m)
                && s.remote_parts(update)[m].nodes_to_modify.contains(node)
                ==> !s.local_part(update).nodes_to_modify.contains(node) && s.owners[node] == m,
{
    if update.nodes_to_modify.contains(node) && !s.managed.contains(node) {
        let m = s.owners[node];
        assert(!s.unowned(node));
        assert(s.sent_to(node) == Some(m));
        assert(s.concerns(update, m));
        assert(s.remote_parts(update).contains_key(m));
    }
}

/// Of the new code, each one goes to exactly one manager: it is in the part of this
/// manager, or in that of one peer. The parts have no other code.
pub proof fn law_parts_share_code(
    s: ManagerState,
    update: CodeUpdateModel,
    code: (Seq<char>, ExprModel),
)
    requires
        s.places_all(update),
    ensures
        update.new_code.contains(code) <==> s.local_part(update).new_code.contains(code) || exists|
            m: Seq<char>,
        | #[trigger]
            s.remote_parts(update).contains_key(m) && s.remote_parts(update)[m].new_code.contains(
                code,
            ),
        forall|m: Seq<char>| #[trigger]
            s.remote_parts(update).contains_key(m) && s.remote_parts(update)[m].new_code.contains(
                code,
            ) ==> !s.local_part(update).new_code.contains(code) && s.owners[code.0] == m,
{
    lemma_filter_sound(
        update.new_code,
        |c: (Seq<char>, ExprModel)| s.managed.contains(c.0),
    );
    assert forall|m: Seq<char>| #[trigger] s.remote_parts(update).contains_key(m) implies (
    s.remote_parts(update)[m].new_code.contains(code) <==> update.new_code.contains(code)
        && s.sent_to(code.0) == Some(m)) by {
        lemma_filter_sound(
            update.new_code,
            |c: (Seq<char>, ExprModel)| s.sent_to(c.0) == Some(m),
        );
    }
    if update.new_code.contains(code) && !s.managed.contains(code.0) {
        let m = s.owners[code.0];
        let i = choose|i: int| 0 <= i < update.new_code.len() && update.new_code[i] == code;
        assert(!s.unowned(update.new_code[i].0));
        assert(s.sent_to(update.new_code[i].0) == Some(m));
        assert(s.concerns(update, m));
        assert(s.remote_parts(update).contains_key(m));
    }
}

proof fn lemma_unconcerned_part(s: ManagerState, u: CodeUpdateModel, m: Seq<char>)
    requires
        !s.concerns(u, m),
    ensures
        s.remote_part(u, m).nodes_to_modify == Set::<Seq<char>>::empty(),
        s.remote_part(u, m).new_code == Seq::<(Seq<char>, ExprModel)>::empty(),
{
    let p = s.remote_part(u, m);
    assert(p.nodes_to_modify =~= Set::<Seq<char>>::empty());
    let f = |c: (Seq<char>, ExprModel)| s.sent_to(c.0) == Some(m);
    lemma_filter_sound(u.new_code, f);
    if p.new_code.len() > 0 {
        assert(u.new_code.filter(f).contains(p.new_code[0]));
        assert(u.new_code.contains(p.new_code[0]));
        let i = choose|i: int| 0 <= i < u.new_code.len() && u.new_code[i] == p.new_code[0];
        assert(s.sent_to(u.new_code[i].0) == Some(m));
        assert(false);
    }
    assert(p.new_code =~= Seq::<(Seq<char>, ExprModel)>::empty());
}

/// What one more node that changes adds to the parts.
proof fn lemma_add_node(s: ManagerState, u: CodeUpdateModel, v: CodeUpdateModel, n: Seq<char>)
    requires
        v.nodes_to_modify == u.nodes_to_modify.insert(n),
        v.new_code == u.new_code,
    ensures
        s.remote_parts(v) == match s.sent_to(n) {
            Some(m) => s.remote_parts(u).insert(m, s.remote_part(v, m)),
            None => s.remote_parts(u),
        },
        s.sent_to(n) matches Some(m) ==> s.remote_part(v, m).nodes_to_modify == s.remote_part(
            u,
            m,
        ).nodes_to_modify.insert(n) && s.remote_part(v, m).new_code == s.remote_part(
            u,
            m,
        ).new_code,
        s.local_part(v).new_code == s.local_part(u).new_code,
        s.local_part(v).nodes_to_modify == if s.managed.contains(n) {
            s.local_part(u).nodes_to_modify.insert(n)
        } else {
            s.local_part(u).nodes_to_modify
        },
{
    let a = s.remote_parts(u);
    let b = s.remote_parts(v);
    assert forall|m: Seq<char>| s.sent_to(n) != Some(m) implies #[trigger] s.concerns(v, m)
        == s.concerns(u, m) && s.remote_part(v, m) == s.remote_part(u, m) by {
        assert(s.remote_part(v, m).nodes_to_modify =~= s.remote_part(u, m).nodes_to_modify);
        if s.concerns(u, m) {
            if exists|k: Seq<char>| #[trigger]
                u.nodes_to_modify.contains(k) && s.sent_to(k) == Some(m) {
                let k = choose|k: Seq<char>| #[trigger]
                    u.nodes_to_modify.contains(k) && s.sent_to(k) == Some(m);
                assert(v.nodes_to_modify.contains(k));
            } else {
                let i = choose|i: int|
                    0 <= i < u.new_code.len() && s.sent_to((#[trigger] u.new_code[i]).0) == Some(m);
                assert(s.sent_to(v.new_code[i].0) == Some(m));
            }
        }
        if s.concerns(v, m) {
            if exists|k: Seq<char>| #[trigger]
                v.nodes_to_modify.contains(k) && s.sent_to(k) == Some(m) {
                let k = choose|k: Seq<char>| #[trigger]
                    v.nodes_to_modify.contains(k) && s.sent_to(k) == Some(m);
                assert(u.nodes_to_modify.contains(k));
            } else {
                let i = choose|i: int|
                    0 <= i < v.new_code.len() && s.sent_to((#[trigger] v.new_code[i]).0) == Some(m);
                assert(s.sent_to(u.new_code[i].0) == Some(m));
            }
        }
    }
    assert(v.nodes_to_modify.contains(n));
    match s.sent_to(n) {
        Some(m) => {
            assert(s.remote_part(v, m).nodes_to_modify =~= s.remote_part(
                u,
                m,
            ).nodes_to_modify.insert(n));
            assert(s.concerns(v, m));
            assert(b =~= a.insert(m, s.remote_part(v, m)));
        },
        None => {
            assert(b =~= a);
        },
    }
    assert(s.local_part(v).nodes_to_modify =~= if s.managed.contains(n) {
        s.local_part(u).nodes_to_modify.insert(n)
    } else {
        s.local_part(u).nodes_to_modify
    });
}

/// What one more code adds to the parts.
proof fn lemma_add_code(
    s: ManagerState,
    u: CodeUpdateModel,
    v: CodeUpdateModel,
    c: (Seq<char>, ExprModel),
)
    requires
        v.nodes_to_modify == u.nodes_to_modify,
        v.new_code == u.new_code.push(c),
    ensures
        s.remote_parts(v) == match s.sent_to(c.0) {
            Some(m) => s.remote_parts(u).insert(m, s.remote_part(v, m)),
            None => s.remote_parts(u),
        },
        s.sent_to(c.0) matches Some(m) ==> s.remote_part(v, m).nodes_to_modify == s.remote_part(
            u,
            m,
        ).nodes_to_modify && s.remote_part(v, m).new_code == s.remote_part(u, m).new_code.push(c),
        s.local_part(v).nodes_to_modify == s.local_part(u).nodes_to_modify,
        s.local_part(v).new_code == if s.managed.contains(c.0) {
            s.local_part(u).new_code.push(c)
        } else {
            s.local_part(u).new_code
        },
{
    let a = s.remote_parts(u);
    let b = s.remote_parts(v);
    u.new_code.lemma_filter_push(
        c,
        |x: (Seq<char>, ExprModel)| s.managed.contains(x.0),
    );
    assert forall|m: Seq<char>| true implies #[trigger] s.remote_part(v, m).new_code == if s.sent_to(
        c.0,
    ) == Some(m) {
        s.remote_part(u, m).new_code.push(c)
    } else {
        s.remote_part(u, m).new_code
    } by {
        u.new_code.lemma_filter_push(
            c,
            |x: (Seq<char>, ExprModel)| s.sent_to(x.0) == Some(m),
        );
    }
    assert forall|m: Seq<char>| s.sent_to(c.0) != Some(m) implies #[trigger] s.concerns(v, m)
        == s.concerns(u, m) && s.remote_part(v, m) == s.remote_part(u, m) by {
        if exists|i: int|
            0 <= i < u.new_code.len() && s.sent_to((#[trigger] u.new_code[i]).0) == Some(m) {
            let i = choose|i: int|
                0 <= i < u.new_code.len() && s.sent_to((#[trigger] u.new_code[i]).0) == Some(m);
            assert(s.sent_to(v.new_code[i].0) == Some(m));
        }
        if exists|i: int|
            0 <= i < v.new_code.len() && s.sent_to((#[trigger] v.new_code[i]).0) == Some(m) {
            let i = choose|i: int|
                0 <= i < v.new_code.len() && s.sent_to((#[trigger] v.new_code[i]).0) == Some(m);
            if i == u.new_code.len() {
                assert(v.new_code[i] == c);
            }
            assert(v.new_code[i] == u.new_code[i]);
            assert(s.sent_to(u.new_code[i].0) == Some(m));
        }
        assert(s.remote_part(v, m).new_code == s.remote_part(u, m).new_code);
        assert(s.concerns(v, m) == s.concerns(u, m));
    }
    match s.sent_to(c.0) {
        Some(m) => {
            assert(s.sent_to(v.new_code[u.new_code.len() as int].0) == Some(m));
            assert(s.concerns(v, m));
            assert(b =~= a.insert(m, s.remote_part(v, m)));
        },
        None => {
            assert(b =~= a);
        },
    }
}

impl Manager {
    /// The update's part for a peer, taken out of the parts; an empty one where there is
    /// none yet.
    fn take_part(
        &self,
        remote: &mut ListMap<String, CodeUpdate>,
        peer: &String,
        Ghost(u): Ghost<CodeUpdateModel>,
    ) -> (part: CodeUpdate)
        requires
            old(remote).deep_view() == self.deep_view().remote_parts(u),
        ensures
            part.deep_view() == self.deep_view().remote_part(u, peer@),
            final(remote).deep_view() == old(remote).deep_view().remove(peer@),
    {
        match remote.remove(peer) {
            Some(part) => part,
            None => {
                let part = CodeUpdate { nodes_to_modify: ListSet::new(), new_code: Vec::new() };
                proof {
                    lemma_unconcerned_part(self.deep_view(), u, peer@);
                    assert(part.new_code.deep_view() =~= Seq::<(Seq<char>, ExprModel)>::empty());
                }
                part
            },
        }
    }

    /// Divides an update into this manager's part and those of its peers. It fails where a
    /// node has no manager.
    pub fn partition(&self, update: &CodeUpdate) -> (r: Result<
        (CodeUpdate, ListMap<String, CodeUpdate>),
        ManagerError,
    >)
        ensures
            r is Ok <==> self.deep_view().places_all(update.deep_view()),
            match r {
                Ok((local, remote)) => {
                    &&& local.deep_view() == self.deep_view().local_part(update.deep_view())
                    &&& remote.deep_view() == self.deep_view().remote_parts(update.deep_view())
                },
                Err(e) => exists|n: Seq<char>| #[trigger]
                    self.deep_view().misplaced(update.deep_view(), n) && e.deep_view()
                        == manager_not_found(n),
            },
    {
        let ghost s = self.deep_view();
        let ghost whole = update.deep_view();
        let mut local = CodeUpdate { nodes_to_modify: ListSet::new(), new_code: Vec::new() };
        let mut remote: ListMap<String, CodeUpdate> = ListMap::new();
        let ghost no_code = Seq::<(Seq<char>, ExprModel)>::empty();
        let ghost l = update.nodes_to_modify.listing();
        let ghost mut u = CodeUpdateModel { nodes_to_modify: Set::empty(), new_code: no_code };
        let n: usize = update.nodes_to_modify.len();
        let mut i: usize = 0;
        proof {
            reveal(Seq::filter);
            assert(s.remote_parts(u) =~= Map::empty());
            assert(local.new_code.deep_view() =~= no_code);
            assert(s.local_part(u).nodes_to_modify =~= Set::empty());
            assert(l.take(0).to_set() =~= Set::empty());
        }
        while i < n
            invariant
                i <= n == l.len(),
                s == self.deep_view(),
                whole == update.deep_view(),
                l == update.nodes_to_modify.listing(),
                u.nodes_to_modify == l.take(i as int).to_set(),
                u.new_code == no_code,
                local.deep_view() == s.local_part(u),
                remote.deep_view() == s.remote_parts(u),
                forall|j: int| 0 <= j < i ==> !s.unowned(#[trigger] l[j]),
            decreases n - i,
        {
            let node = update.nodes_to_modify.at(i);
            let ghost v = CodeUpdateModel { nodes_to_modify: u.nodes_to_modify.insert(node@), ..u };
            proof {
                lemma_add_node(s, u, v, node@);
                lemma_take_contains(l, i as int);
                assert(v.nodes_to_modify =~= l.take(i + 1).to_set());
            }
            if self.managed_nodes.contains(node) {
                local.nodes_to_modify.insert(node.clone());
            } else {
                match self.get_manager_for_node(node) {
                    Ok(manager_id) => {
                        let mut part = self.take_part(&mut remote, &manager_id, Ghost(u));
                        part.nodes_to_modify.insert(node.clone());
                        remote.insert(manager_id, part);
                        assert(remote.deep_view() =~= s.remote_parts(v));
                    },
                    Err(e) => {
                        assert(s.misplaced(whole, node@));
                        assert(s.unowned(node@));
                        return Err(e);
                    },
                }
            }
            proof {
                u = v;
            }
            i = i + 1;
        }
        proof {
            assert(l.take(n as int) =~= l);
            assert forall|k: Seq<char>| #[trigger]
                whole.nodes_to_modify.contains(k) implies !s.unowned(k) by {
                assert(l.to_set().contains(k));
                let j = choose|j: int| 0 <= j < l.len() && l[j] == k;
                assert(!s.unowned(l[j]));
            }
        }
        let ghost codes = whole.new_code;
        let mut k: usize = 0;
        assert(codes.take(0) =~= no_code);
        while k < update.new_code.len()
            invariant
                k <= update.new_code.len() == codes.len(),
                s == self.deep_view(),
                whole == update.deep_view(),
                codes == whole.new_code,
                u.nodes_to_modify == whole.nodes_to_modify,
                u.new_code == codes.take(k as int),
                local.deep_view() == s.local_part(u),
                remote.deep_view() == s.remote_parts(u),
                forall|x: Seq<char>| #[trigger]
                    whole.nodes_to_modify.contains(x) ==> !s.unowned(x),
                forall|j: int| 0 <= j < k ==> !s.unowned((#[trigger] codes[j]).0),
            decreases update.new_code.len() - k,
        {
            let (node, expr) = update.new_code[k].dup();
            let ghost c = codes[k as int];
            let ghost v = CodeUpdateModel { new_code: u.new_code.push(c), ..u };
            proof {
                assert(c == (node@, expr.deep_view()));
                lemma_add_code(s, u, v, c);
                assert(v.new_code =~= codes.take(k + 1));
            }
            if self.managed_nodes.contains(&node) {
                let ghost before = local.new_code.deep_view();
                local.new_code.push((node, expr));
                assert(local.new_code.deep_view() =~= before.push(c));
            } else {
                match self.get_manager_for_node(&node) {
                    Ok(manager_id) => {
                        let mut part = self.take_part(&mut remote, &manager_id, Ghost(u));
                        let ghost before = part.new_code.deep_view();
                        part.new_code.push((node, expr));
                        assert(part.new_code.deep_view() =~= before.push(c));
                        remote.insert(manager_id, part);
                        assert(remote.deep_view() =~= s.remote_parts(v));
                    },
                    Err(e) => {
                        assert(s.unowned(codes[k as int].0));
                        assert(s.misplaced(whole, node@));
                        return Err(e);
                    },
                }
            }
            proof {
                u = v;
            }
            k = k + 1;
        }
        assert(codes.take(k as int) =~= codes);
        Ok((local, remote))
    }
}

} // verus!
