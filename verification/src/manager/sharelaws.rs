//! How an update is shared among managers, and what it does to the locks of the nodes that
//! change.

use vstd::prelude::*;

#[allow(unused_imports)]
use crate::collections::{is_listing, lemma_filter_sound};
#[allow(unused_imports)]
use crate::expr::{names_in, ExprModel};
#[allow(unused_imports)]
use crate::exprlaws::{law_names_are_those_that_occur, occurs};
#[allow(unused_imports)]
use crate::graph::{has_cycle, is_cycle, is_cycle_backwards};
#[allow(unused_imports)]
use crate::lock::{LockKind, LockType, LockWorkerModel};
#[allow(unused_imports)]
use crate::manager::apply::{CodeRunModel, CodeStepModel};
#[allow(unused_imports)]
use crate::manager::change::{
    ChangeActionModel, ChangeEventModel, ChangePhase, CodeChangeModel, PeerUpdateModel,
};
#[allow(unused_imports)]
use crate::manager::codelaws::{lemma_cycle_refers_round, refers_round};
#[allow(unused_imports)]
use crate::manager::cycles::{referred_to, updated_graph};
#[allow(unused_imports)]
use crate::manager::locks::holder;
#[allow(unused_imports)]
use crate::manager::versions::versions_fit;
#[allow(unused_imports)]
use crate::manager::{error_text, reads_or_writes, ErrorModel, ManagerState};
#[allow(unused_imports)]
use crate::message::{CodeUpdateModel, Endpoint, MessageModel, Posted, WorkerKind};
#[allow(unused_imports)]
use crate::text::joined;
#[allow(unused_imports)]
use crate::transaction::{TxnId, TxnModel};

verus! {

/// `part` holds the elements of `whole` that are picked, each as often as there, and in the
/// same order: `places` says where each one comes from.
pub open spec fn selects<A>(
    whole: Seq<A>,
    pick: spec_fn(A) -> bool,
    part: Seq<A>,
    places: Seq<int>,
) -> bool {
    &&& places.len() == part.len()
    &&& forall|k: int|
        0 <= k < places.len() ==> 0 <= #[trigger] places[k] < whole.len() && part[k]
            == whole[places[k]]
    &&& forall|a: int, b: int|
        0 <= a < b < places.len() ==> #[trigger] places[a] < #[trigger] places[b]
    &&& forall|i: int|
        0 <= i < whole.len() ==> (pick(#[trigger] whole[i]) <==> places.contains(i))
}

/// `part` is what is picked of `whole`, in the same order.
pub open spec fn is_selection<A>(whole: Seq<A>, pick: spec_fn(A) -> bool, part: Seq<A>) -> bool {
    exists|places: Seq<int>| selects(whole, pick, part, places)
}

proof fn lemma_filter_selects<A>(whole: Seq<A>, pick: spec_fn(A) -> bool) -> (places: Seq<int>)
    ensures
        selects(whole, pick, whole.filter(pick), places),
    decreases whole.len(),
{
    reveal(Seq::filter);
    if whole.len() == 0 {
        Seq::empty()
    } else {
        let rest = whole.drop_last();
        let last = whole.len() - 1;
        let before = lemma_filter_selects(rest, pick);
        let places = if pick(whole.last()) {
            before.push(last)
        } else {
            before
        };
        let part = whole.filter(pick);
        assert forall|k: int| 0 <= k < places.len() implies 0 <= #[trigger] places[k] < whole.len()
            && part[k] == whole[places[k]] by {
            if k < before.len() {
                assert(before[k] == places[k]);
                assert(rest[before[k]] == whole[before[k]]);
            }
        }
        assert forall|a: int, b: int| 0 <= a < b < places.len() implies #[trigger] places[a]
            < #[trigger] places[b] by {
            assert(before[a] == places[a]);
            if b < before.len() {
                assert(before[b] == places[b]);
            }
        }
        assert forall|i: int| 0 <= i < whole.len() implies (pick(#[trigger] whole[i])
            <==> places.contains(i)) by {
            if i < last {
                assert(rest[i] == whole[i]);
                if before.contains(i) {
                    let k = choose|k: int| 0 <= k < before.len() && before[k] == i;
                    assert(places[k] == i);
                }
                if places.contains(i) {
                    let k = choose|k: int| 0 <= k < places.len() && places[k] == i;
                    assert(k < before.len() && before[k] == i);
                }
            } else {
                if pick(whole[i]) {
                    assert(places[before.len() as int] == i);
                }
                if places.contains(i) && !pick(whole[i]) {
                    let k = choose|k: int| 0 <= k < places.len() && places[k] == i;
                    assert(before[k] < last);
                }
            }
        }
        places
    }
}

/// The part of an update that stays here has the nodes and codes that this manager handles,
/// and no others; the codes keep their order.
pub proof fn law_own_part_is_what_is_managed(s: ManagerState, update: CodeUpdateModel)
    ensures
        forall|n: Seq<char>| #[trigger]
            s.local_part(update).nodes_to_modify.contains(n) <==> update.nodes_to_modify.contains(n)
                && s.managed.contains(n),
        is_selection(
            update.new_code,
            |c: (Seq<char>, ExprModel)| s.managed.contains(c.0),
            s.local_part(update).new_code,
        ),
{
    let places = lemma_filter_selects(
        update.new_code,
        |c: (Seq<char>, ExprModel)| s.managed.contains(c.0),
    );
}

/// A peer has a part in an update exactly where it owns, and this manager does not handle,
/// one of the nodes or codes; its part has these and no others, and the codes keep their
/// order.
pub proof fn law_peers_part_is_what_it_owns(
    s: ManagerState,
    update: CodeUpdateModel,
    peer: Seq<char>,
)
    ensures
        s.remote_parts(update).contains_key(peer) <==> {
            ||| exists|n: Seq<char>| #[trigger]
                update.nodes_to_modify.contains(n) && !s.managed.contains(n)
                    && s.owners.contains_key(n) && s.owners[n] == peer
            ||| exists|i: int|
                0 <= i < update.new_code.len() && !s.managed.contains(
                    (#[trigger] update.new_code[i]).0,
                ) && s.owners.contains_key(update.new_code[i].0)
                    && s.owners[update.new_code[i].0] == peer
        },
        s.remote_parts(update).contains_key(peer) ==> {
            let part = s.remote_parts(update)[peer];
            &&& forall|n: Seq<char>| #[trigger]
                part.nodes_to_modify.contains(n) <==> update.nodes_to_modify.contains(n)
                    && !s.managed.contains(n) && s.owners.contains_key(n) && s.owners[n] == peer
            &&& is_selection(
                update.new_code,
                |c: (Seq<char>, ExprModel)|
                    !s.managed.contains(c.0) && s.owners.contains_key(c.0) && s.owners[c.0] == peer,
                part.new_code,
            )
        },
{
    let mine = |c: (Seq<char>, ExprModel)| s.sent_to(c.0) == Some(peer);
    let owned = |c: (Seq<char>, ExprModel)|
        !s.managed.contains(c.0) && s.owners.contains_key(c.0) && s.owners[c.0] == peer;
    assert forall|n: Seq<char>| #[trigger] s.sent_to(n) == Some(peer) <==> !s.managed.contains(n)
        && s.owners.contains_key(n) && s.owners[n] == peer by {}
    let places = lemma_filter_selects(update.new_code, mine);
    assert(selects(update.new_code, owned, update.new_code.filter(mine), places)) by {
        assert forall|i: int| 0 <= i < update.new_code.len() implies (owned(
            #[trigger] update.new_code[i],
        ) <==> places.contains(i)) by {
            assert(mine(update.new_code[i]) <==> places.contains(i));
        }
    }
    if s.concerns(update, peer) {
        if exists|n: Seq<char>| #[trigger]
            update.nodes_to_modify.contains(n) && s.sent_to(n) == Some(peer) {
            let n = choose|n: Seq<char>| #[trigger]
                update.nodes_to_modify.contains(n) && s.sent_to(n) == Some(peer);
            assert(update.nodes_to_modify.contains(n));
        } else {
            let i = choose|i: int|
                0 <= i < update.new_code.len() && s.sent_to((#[trigger] update.new_code[i]).0)
                    == Some(peer);
            assert(!s.managed.contains(update.new_code[i].0));
        }
    }
    if exists|n: Seq<char>| #[trigger]
        update.nodes_to_modify.contains(n) && !s.managed.contains(n) && s.owners.contains_key(n)
            && s.owners[n] == peer {
        let n = choose|n: Seq<char>| #[trigger]
            update.nodes_to_modify.contains(n) && !s.managed.contains(n) && s.owners.contains_key(n)
                && s.owners[n] == peer;
        assert(s.sent_to(n) == Some(peer));
    }
    if exists|i: int|
        0 <= i < update.new_code.len() && !s.managed.contains((#[trigger] update.new_code[i]).0)
            && s.owners.contains_key(update.new_code[i].0) && s.owners[update.new_code[i].0]
            == peer {
        let i = choose|i: int|
            0 <= i < update.new_code.len() && !s.managed.contains((#[trigger] update.new_code[i]).0)
                && s.owners.contains_key(update.new_code[i].0) && s.owners[update.new_code[i].0]
                == peer;
        assert(s.sent_to(update.new_code[i].0) == Some(peer));
    }
}

/// An update that is taken starts with nothing done, in the name of the transaction that it
/// was handed in with.
pub proof fn law_plan_starts_afresh(
    s: ManagerState,
    update: CodeUpdateModel,
    id: TxnId,
    c: CodeChangeModel,
)
    requires
        s.plans(update, id, c),
    ensures
        c.nodes == update.nodes_to_modify,
        c.parts == s.remote_parts(update),
        c.run.update == s.local_part(update),
        c.run.id == id,
        c.sent == 0,
        c.received == 0,
        c.run.asked == 0,
        !c.run.waiting,
        !c.run.done,
        c.phase == ChangePhase::Distributing,
        forall|n: Seq<char>| #[trigger]
            c.run.order.contains(n) <==> update.nodes_to_modify.contains(n) && s.managed.contains(
                n,
            ),
        forall|a: int, b: int|
            0 <= a < b < c.run.order.len() ==> #[trigger] c.run.order[a]
                != #[trigger] c.run.order[b],
        forall|m: Seq<char>| #[trigger] c.peers.contains(m) <==> c.parts.contains_key(m),
        forall|a: int, b: int|
            0 <= a < b < c.peers.len() ==> #[trigger] c.peers[a] != #[trigger] c.peers[b],
{
    assert forall|m: Seq<char>| #[trigger] c.peers.contains(m) <==> c.parts.contains_key(m) by {
        assert(c.peers.to_set().contains(m) <==> c.parts.dom().contains(m));
    }
    assert forall|n: Seq<char>| #[trigger]
        c.run.order.contains(n) <==> update.nodes_to_modify.contains(n) && s.managed.contains(
            n,
        ) by {
        assert(c.run.order.to_set().contains(n) <==> s.local_part(
            update,
        ).nodes_to_modify.contains(n));
    }
}

/// Each peer in turn is sent its own part, in the name of the update's transaction and of
/// this manager; the update fails at a peer to which there is no channel.
pub proof fn law_peers_get_their_parts(
    s: ManagerState,
    c: CodeChangeModel,
    event: ChangeEventModel,
    inboxes: Seq<Endpoint>,
    after: ManagerState,
    c_after: CodeChangeModel,
    action: ChangeActionModel,
)
    requires
        s.advances(c, event, inboxes, after, c_after, action),
        c.phase == ChangePhase::Distributing,
        !(event is SendFailed),
        c.sent < c.peers.len(),
    ensures
        after == s,
        s.peers.contains_key(c.peers[c.sent]) ==> {
            &&& action == ChangeActionModel::Send(
                Posted {
                    to: s.peers[c.peers[c.sent]],
                    msg: MessageModel::DistributedCodeUpdate {
                        code_update: c.parts[c.peers[c.sent]],
                        txn_id: c.run.id,
                        sender_manager_id: match s.id {
                            Some(id) => id,
                            None => Seq::empty(),
                        },
                    },
                },
            )
            &&& c_after.sent == c.sent + 1
            &&& c_after.phase == ChangePhase::Distributing
            &&& c_after.received == c.received
        },
        !s.peers.contains_key(c.peers[c.sent]) ==> action is Fail && c_after.phase
            == ChangePhase::Finished,
        c_after.parts == c.parts,
        c_after.peers == c.peers,
        c_after.run == c.run,
{
}

/// An update counts the acknowledgements of its own parts: one that tells of success brings
/// it one further, and one that tells of failure ends it; any other message, and any
/// acknowledgement of another update, counts for nothing. It succeeds exactly when as many
/// have come as there are peers.
pub proof fn law_acknowledgements_are_counted(
    s: ManagerState,
    c: CodeChangeModel,
    reply: Option<MessageModel>,
    inboxes: Seq<Endpoint>,
    after: ManagerState,
    c_after: CodeChangeModel,
    action: ChangeActionModel,
)
    requires
        c.wf(),
        s.advances(c, ChangeEventModel::Reply(reply), inboxes, after, c_after, action),
        c.phase == ChangePhase::Acknowledging,
        c.received < c.peers.len(),
    ensures
        ({
            let counts = reply matches Some(
                MessageModel::DistributedCodeUpdateAck { txn_id, success, .. },
            ) && txn_id == c.run.id && success;
            let fails = reply matches Some(
                MessageModel::DistributedCodeUpdateAck { txn_id, success, .. },
            ) && txn_id == c.run.id && !success;
            &&& c_after.received == c.received + if counts {
                1int
            } else {
                0int
            }
            &&& action is Fail <==> fails
            &&& action is Succeed <==> c_after.received == c.peers.len()
            &&& action is Await <==> !fails && c_after.received < c.peers.len()
            &&& c_after.phase == if action is Await {
                c.phase
            } else {
                ChangePhase::Finished
            }
            &&& c_after == (CodeChangeModel {
                received: c_after.received,
                phase: c_after.phase,
                ..c
            })
            &&& after == if action is Succeed {
                s.upgrades_released(c.nodes, c.run.id)
            } else {
                s
            }
            &&& fails ==> action == ChangeActionModel::Fail(
                ErrorModel::DistributedError(
                    "Update failed at manager "@
                        + reply->0->DistributedCodeUpdateAck_manager_id,
                ),
            )
        }),
{
}

/// A peer applies its part before it tells the sender so: where the part is not applied yet,
/// it sends no acknowledgement; where it is, it acknowledges it once, to the sender, in the
/// name of the update's transaction.
pub proof fn law_peer_acknowledges_applied_part(
    s: ManagerState,
    p: PeerUpdateModel,
    event: ChangeEventModel,
    inboxes: Seq<Endpoint>,
    after: ManagerState,
    p_after: PeerUpdateModel,
    action: ChangeActionModel,
)
    requires
        s.advances_peer(p, event, inboxes, after, p_after, action),
    ensures
        !p.run.done ==> action is Lock || action is Start,
        p.run.done && !p.acknowledged && s.peers.contains_key(p.sender) ==> p_after.acknowledged
            && action == ChangeActionModel::Send(
            Posted {
                to: s.peers[p.sender],
                msg: MessageModel::DistributedCodeUpdateAck {
                    txn_id: p.run.id,
                    success: true,
                    manager_id: match s.id {
                        Some(id) => id,
                        None => Seq::empty(),
                    },
                },
            },
        ),
        p.run.done && p.acknowledged && !(event is SendFailed) ==> action is Succeed,
        p.run.done ==> after == s && p_after.run == p.run,
        p_after.sender == p.sender,
{
}

/// The error for an update that closes no ring of names tells of a node that has no manager:
/// one that this manager does not handle and for which it knows no other.
pub proof fn law_refusal_names_unowned_node(
    s: ManagerState,
    update: CodeUpdateModel,
    e: ErrorModel,
)
    requires
        s.refuses_update(update, e),
        !has_cycle(updated_graph(s.graph, update.new_code)),
    ensures
        exists|n: Seq<char>|
            {
                &&& #[trigger] in_update(update, n)
                &&& !s.managed.contains(n)
                &&& !s.owners.contains_key(n)
                &&& e == ErrorModel::DistributedError("Manager for node "@ + n + " not found"@)
            },
{
    let n = choose|n: Seq<char>| #[trigger]
        s.misplaced(update, n) && e == crate::manager::update::manager_not_found(n);
    if !update.nodes_to_modify.contains(n) {
        let i = choose|i: int|
            {
                &&& 0 <= i < update.new_code.len()
                &&& (#[trigger] update.new_code[i]).0 == n
                &&& s.unowned(n)
                &&& forall|j: int| 0 <= j < i ==> !s.unowned((#[trigger] update.new_code[j]).0)
            };
        assert(update.new_code[i].0 == n);
    }
    assert(in_update(update, n));
}

/// The update changes the node, or has new code for it.
pub open spec fn in_update(update: CodeUpdateModel, node: Seq<char>) -> bool {
    update.nodes_to_modify.contains(node) || exists|i: int|
        0 <= i < update.new_code.len() && (#[trigger] update.new_code[i]).0 == node
}

/// An update is taken exactly where no nodes would name each other in a ring and each of its
/// nodes has a manager.
pub proof fn law_update_taken(s: ManagerState, update: CodeUpdateModel)
    ensures
        s.takes_update(update) <==> {
            &&& !exists|ring: Seq<Seq<char>>| refers_round(s.graph, update.new_code, ring)
            &&& forall|n: Seq<char>| #[trigger]
                in_update(update, n) ==> s.managed.contains(n) || s.owners.contains_key(n)
        },
{
    crate::manager::codelaws::law_rings_are_refused(s.graph, update.new_code);
    if s.places_all(update) {
        assert forall|n: Seq<char>| #[trigger] in_update(update, n) implies s.managed.contains(n)
            || s.owners.contains_key(n) by {
            if update.nodes_to_modify.contains(n) {
                assert(!s.unowned(n));
            } else {
                let i = choose|i: int|
                    0 <= i < update.new_code.len() && (#[trigger] update.new_code[i]).0 == n;
                assert(!s.unowned(update.new_code[i].0));
            }
        }
    }
    if forall|n: Seq<char>| #[trigger]
        in_update(update, n) ==> s.managed.contains(n) || s.owners.contains_key(n) {
        assert forall|n: Seq<char>| #[trigger]
            update.nodes_to_modify.contains(n) implies !s.unowned(n) by {
            assert(in_update(update, n));
        }
        assert forall|i: int| 0 <= i < update.new_code.len() implies !s.unowned(
            (#[trigger] update.new_code[i]).0,
        ) by {
            assert(in_update(update, update.new_code[i].0));
        }
    }
}

/// The error for an update that closes a ring of names shows such a ring. Where all its
/// nodes are handled here, it shows nothing but the ring.
pub proof fn law_refusal_shows_ring(s: ManagerState, update: CodeUpdateModel, e: ErrorModel)
    requires
        s.refuses_update(update, e),
        has_cycle(updated_graph(s.graph, update.new_code)),
        forall|n: Seq<char>| #[trigger] s.managed.contains(n),
    ensures
        exists|found: Seq<Seq<char>>|
            {
                &&& #[trigger] refers_round(s.graph, update.new_code, found.reverse())
                &&& found.no_duplicates()
                &&& e == ErrorModel::CyclicDependency(
                    "Cyclic dependency detected: "@ + joined(found, " → "@),
                )
            },
{
    let u = update.new_code;
    let (found, managers) = choose|found: Seq<Seq<char>>, managers: Seq<Seq<char>>|
        {
            &&& #[trigger] is_cycle_backwards(updated_graph(s.graph, u), found)
            &&& #[trigger] is_listing(managers, s.managers_of(u, found))
            &&& e == ErrorModel::CyclicDependency(s.cycle_text(u, found, managers))
        };
    lemma_cycle_refers_round(s.graph, u, found.reverse());
    assert forall|m: Seq<char>| managers.contains(m) implies m == s.own_id() by {
        assert(managers.to_set().contains(m));
        let i = choose|i: int|
            0 <= i < found.len() && #[trigger] s.attributed_to(u, found[i]) == Some(m);
        assert(s.managed.contains(found[i]));
    }
    if managers.len() > 1 {
        assert(managers.contains(managers[0]) && managers.contains(managers[1]));
        assert(managers[0] == managers[1]);
    }
    assert(found.map_values(|n: Seq<char>| s.node_label(u, false, n)) =~= found);
    assert(refers_round(s.graph, u, found.reverse()));
}

/// The request for the upgrade lock of a node goes to the node's worker, which is a new one
/// where there was none, and asks for an upgrade in the name of the transaction, which
/// writes nothing. None is sent where the transaction has this lock on the node already.
pub proof fn law_claim_asks_the_worker(
    s: ManagerState,
    node: Seq<char>,
    id: TxnId,
    inbox: Endpoint,
)
    ensures
        s.claim(node, id, inbox) is None <==> s.node_locks.contains_key(node)
            && s.node_locks[node].contains(LockType::Upgrade(id)),
        s.claim(node, id, inbox) matches Some(p) ==> {
            &&& p.to == if s.workers.contains_key(node) {
                s.workers[node]
            } else {
                inbox
            }
            &&& p.msg matches MessageModel::VarLockRequest { lock_kind, txn }
            &&& lock_kind == LockKind::Upgrade
            &&& txn.id == id
            &&& txn.writes.len() == 0
        },
        s.claimed(node, id, inbox).workers == if s.workers.contains_key(node) {
            s.workers
        } else {
            s.workers.insert(node, inbox)
        },
{
    let p = s.prepared(node, inbox);
    lemma_aborts(p, p.node_locks[node].map_values(|l: LockType| holder(l)), id);
}

/// What the aborts of several transactions leave.
proof fn lemma_aborts(s: ManagerState, ids: Seq<TxnId>, id: TxnId)
    ensures
        ({
            let t = s.all_aborted(ids);
            &&& t.workers == s.workers
            &&& t.active.contains_key(id) <==> s.active.contains_key(id) && !ids.contains(id)
            &&& t.active.contains_key(id) ==> t.active[id] == s.active[id]
            &&& t.node_locks.dom() == s.node_locks.dom()
        }),
    decreases ids.len(),
{
    if ids.len() > 0 {
        let rest = ids.drop_last();
        lemma_aborts(s, rest, id);
        assert(s.all_aborted(ids).node_locks.dom() =~= s.all_aborted(rest).node_locks.dom());
        assert(ids.contains(id) <==> rest.contains(id) || ids.last() == id) by {
            if rest.contains(id) {
                let i = choose|i: int| 0 <= i < rest.len() && rest[i] == id;
                assert(ids[i] == id);
            }
            if ids.contains(id) {
                let i = choose|i: int| 0 <= i < ids.len() && ids[i] == id;
                if i < rest.len() {
                    assert(rest[i] == id);
                }
            }
            assert(ids[ids.len() - 1] == ids.last());
        }
    }
}

/// The aborts of several transactions take their read and write locks from the nodes that
/// they use, and no other lock.
proof fn lemma_aborts_free(s: ManagerState, ids: Seq<TxnId>, n: Seq<char>, l: LockType)
    requires
        s.node_locks.contains_key(n),
    ensures
        s.all_aborted(ids).node_locks.contains_key(n),
        s.all_aborted(ids).node_locks[n].contains(l) <==> s.node_locks[n].contains(l) && !(
        !(l is Upgrade) && ids.contains(holder(l)) && s.active.contains_key(holder(l))
            && s.active[holder(l)].contains(n)),
    decreases ids.len(),
{
    if ids.len() > 0 {
        let rest = ids.drop_last();
        let last = ids.last();
        let a = s.all_aborted(rest);
        lemma_aborts_free(s, rest, n, l);
        lemma_aborts(s, rest, last);
        lemma_aborts(s, rest, holder(l));
        let keeps = |x: LockType| !reads_or_writes(x, last);
        lemma_filter_sound(a.node_locks[n], keeps);
        assert(ids.contains(holder(l)) <==> rest.contains(holder(l)) || last == holder(l)) by {
            if rest.contains(holder(l)) {
                let i = choose|i: int| 0 <= i < rest.len() && rest[i] == holder(l);
                assert(ids[i] == holder(l));
            }
            if ids.contains(holder(l)) {
                let i = choose|i: int| 0 <= i < ids.len() && ids[i] == holder(l);
                if i < rest.len() {
                    assert(rest[i] == holder(l));
                }
            }
            assert(ids[ids.len() - 1] == last);
        }
        assert(keeps(l) <==> l is Upgrade || holder(l) != last);
        if a.active.contains_key(last) && a.active[last].contains(n) {
            assert(s.all_aborted(ids).node_locks[n] == a.node_locks[n].filter(keeps));
        } else {
            assert(s.all_aborted(ids).node_locks[n] == a.node_locks[n]);
        }
    }
}

/// A claim aborts every transaction that has a lock on the node: it is active no longer, and
/// its read and write locks are gone from all nodes that it uses. No other transaction
/// loses anything elsewhere.
pub proof fn law_claim_aborts_holders(
    s: ManagerState,
    node: Seq<char>,
    id: TxnId,
    inbox: Endpoint,
    other: Seq<char>,
    l: LockType,
)
    requires
        s.node_locks.contains_key(node),
        !s.node_locks[node].contains(LockType::Upgrade(id)),
        s.node_locks.contains_key(other),
        other != node,
    ensures
        ({
            let t = s.claimed(node, id, inbox);
            &&& forall|i: TxnId| #[trigger]
                t.active.contains_key(i) <==> s.active.contains_key(i) && !locks_here(s, node, i)
            &&& t.node_locks.contains_key(other)
            &&& t.node_locks[other].contains(l) <==> s.node_locks[other].contains(l) && !(
            !(l is Upgrade) && locks_here(s, node, holder(l)) && s.active.contains_key(holder(l))
                && s.active[holder(l)].contains(other))
        }),
{
    let p = s.prepared(node, inbox);
    let locks = p.node_locks[node];
    let ids = locks.map_values(|l: LockType| holder(l));
    assert(p.node_locks == s.node_locks && p.active == s.active);
    assert forall|i: TxnId| #[trigger] ids.contains(i) <==> locks_here(s, node, i) by {
        if ids.contains(i) {
            let k = choose|k: int| 0 <= k < ids.len() && ids[k] == i;
            assert(locks.contains(locks[k]));
            assert(holder(locks[k]) == i);
        }
        if locks_here(s, node, i) {
            let m = choose|m: LockType| #[trigger]
                s.node_locks[node].contains(m) && (m == LockType::Read(i) || m == LockType::Write(i)
                    || m == LockType::Upgrade(i));
            let k = choose|k: int| 0 <= k < locks.len() && locks[k] == m;
            assert(ids[k] == i);
        }
    }
    assert forall|i: TxnId| #[trigger]
        s.claimed(node, id, inbox).active.contains_key(i) <==> s.active.contains_key(i)
            && !locks_here(s, node, i) by {
        lemma_aborts(p, ids, i);
        assert(ids.contains(i) <==> locks_here(s, node, i));
    }
    lemma_aborts_free(p, ids, other, l);
    assert(ids.contains(holder(l)) <==> locks_here(s, node, holder(l)));
}

/// The transaction has some lock on the node.
pub open spec fn locks_here(s: ManagerState, node: Seq<char>, id: TxnId) -> bool {
    exists|m: LockType| #[trigger]
        s.node_locks[node].contains(m) && (m == LockType::Read(id) || m == LockType::Write(id) || m
            == LockType::Upgrade(id))
}

/// A granted claim is recorded on its node, behind what is there, and with the transaction;
/// nothing else changes. Any other answer changes nothing.
pub proof fn law_claim_is_recorded(
    s: ManagerState,
    node: Seq<char>,
    id: TxnId,
    reply: Option<MessageModel>,
)
    requires
        s.node_locks.contains_key(node),
    ensures
        ({
            let t = s.claim_answered(node, id, reply);
            let granted = reply matches Some(MessageModel::VarLockGranted { txn, .. }) && txn.id
                == id;
            &&& !granted ==> t == s
            &&& granted ==> t.node_locks[node].drop_last() == s.node_locks[node]
                && t.node_locks[node].last() == LockType::Upgrade(id) && t.node_locks.contains_key(
                node,
            )
            &&& granted ==> forall|n: Seq<char>|
                n != node ==> #[trigger] t.node_locks.get(n) == s.node_locks.get(n)
            &&& granted ==> t.txn_locks.contains_key(id) && forall|info: LockWorkerModel| #[trigger]
                t.txn_locks[id].contains(info) <==> (s.txn_locks.contains_key(id)
                    && s.txn_locks[id].contains(info)) || (info.worker_name == node
                    && info.lock.lock_kind == LockKind::Upgrade && info.lock.txn.id == id
                    && info.lock.txn.writes == Seq::<crate::transaction::WriteModel>::empty())
            &&& t.workers == s.workers
            &&& t.active == s.active
        }),
{
    if reply matches Some(MessageModel::VarLockGranted { txn, .. }) && txn.id == id {
        let t = s.claim_answered(node, id, reply);
        assert(t.node_locks[node].drop_last() =~= s.node_locks[node]);
    }
}

/// A claim succeeds exactly on a grant to the transaction itself; a refusal and a grant to
/// another one are conflicts, and anything else means that the worker is not there.
pub proof fn law_claim_succeeds_on_own_grant(
    node: Seq<char>,
    id: TxnId,
    reply: Option<MessageModel>,
)
    ensures
        ({
            let outcome = ManagerState::claim_outcome(node, id, reply);
            &&& outcome is Ok <==> (reply matches Some(
                MessageModel::VarLockGranted { txn, .. },
            ) && txn.id == id)
            &&& (outcome matches Err(e) && e is LockConflict) <==> (reply matches Some(m) && (
            m is VarLockAbort || (m is VarLockGranted && m->VarLockGranted_txn.id != id)))
            &&& outcome matches Err(e) ==> e is LockConflict || e
                == ErrorModel::WorkerUnavailable(node)
        }),
{
}

/// An update asks for the upgrade lock of each node that changes, one after the other, and
/// makes a worker for a node that has none; then it installs its code.
pub proof fn law_update_locks_then_installs(
    s: ManagerState,
    run: CodeRunModel,
    reply: Option<MessageModel>,
    inboxes: Seq<Endpoint>,
    after: ManagerState,
    run_after: CodeRunModel,
    step: CodeStepModel,
)
    requires
        run.wf(),
        s.applies(run, reply, inboxes, after, run_after, step),
    ensures
        run_after.id == run.id,
        run_after.update == run.update,
        run_after.order == run.order,
        step is Lock <==> run.asked < run.order.len(),
        step matches CodeStepModel::Lock { created, request } ==> {
            let node = run.order[run.asked];
            &&& run_after.asked == run.asked + 1
            &&& !run_after.done
            &&& run_after.waiting <==> request is Some
            &&& created is None <==> s.workers.contains_key(node)
            &&& created matches Some(w) ==> w.name == node && w.manager == s.inbox
                && w.value is None
            &&& request matches Some(p) ==> {
                &&& p.to == after.workers[node]
                &&& p.msg matches MessageModel::VarLockRequest { lock_kind, txn }
                &&& lock_kind == LockKind::Upgrade
                &&& txn.id == run.id
            }
        },
        step is Installed ==> run_after.done && !run_after.waiting,
{
    let t = s.run_answered(run, reply);
    if run.asked < run.order.len() {
        law_claim_asks_the_worker(t, run.order[run.asked], run.id, inboxes[0]);
    }
}

/// Where a ring crosses managers, each node in the error stands with its manager: `local`
/// for this one, the name of a peer that owns it, or `unknown manager`. Within one manager
/// nodes stand alone.
pub proof fn law_ring_shows_managers(
    s: ManagerState,
    update: Seq<(Seq<char>, ExprModel)>,
    node: Seq<char>,
)
    ensures
        s.node_label(update, false, node) == node,
        s.managed.contains(node) ==> s.node_label(update, true, node) == node + " (local)"@,
        !s.managed.contains(node) && s.graph.contains_key(node) && s.owners.contains_key(node)
            && s.owners[node] != s.own_id() ==> s.node_label(update, true, node) == node
            + " (manager: "@ + s.owners[node] + ")"@,
        !s.managed.contains(node) && !s.owners.contains_key(node) ==> s.node_label(
            update,
            true,
            node,
        ) == node + " (unknown manager)"@,
{
}

/// The peer that owns a node is found where this manager does not handle the node and knows
/// its owner, and nowhere else.
pub proof fn law_owner_of_node(s: ManagerState, node: Seq<char>)
    ensures
        s.remote_owner(node) is Ok <==> !s.managed.contains(node) && s.owners.contains_key(node),
        s.remote_owner(node) matches Ok(m) ==> m == s.owners[node],
        s.managed.contains(node) ==> s.remote_owner(node) == Err::<Seq<char>, ErrorModel>(
            ErrorModel::DistributedError("Node "@ + node + " is local"@),
        ),
        !s.managed.contains(node) && !s.owners.contains_key(node) ==> s.remote_owner(node) == Err::<
            Seq<char>,
            ErrorModel,
        >(ErrorModel::DistributedError("Manager for node "@ + node + " not found"@)),
{
}

/// An error is shown by its kind and what it tells.
pub proof fn law_errors_are_shown(text: Seq<char>)
    ensures
        error_text(ErrorModel::WorkerUnavailable(text)) == "Worker unavailable: "@ + text,
        error_text(ErrorModel::CyclicDependency(text)) == "Cyclic dependency: "@ + text,
        error_text(ErrorModel::LockConflict(text)) == "Lock conflict: "@ + text,
        error_text(ErrorModel::DistributedError(text)) == "Distributed error: "@ + text,
{
}

/// A release of upgrades changes the locks of the nodes that changed, and nothing else.
pub proof fn law_release_of_upgrades_is_local(
    s: ManagerState,
    nodes: Set<Seq<char>>,
    id: TxnId,
    node: Seq<char>,
    l: LockType,
)
    requires
        s.node_locks.contains_key(node),
    ensures
        ({
            let t = s.upgrades_released(nodes, id);
            &&& t.node_locks.contains_key(node)
            &&& t.node_locks[node].contains(l) <==> s.node_locks[node].contains(l) && !(
            nodes.contains(node) && l == LockType::Upgrade(id))
            &&& !nodes.contains(node) ==> t.node_locks[node] == s.node_locks[node]
            &&& t == (ManagerState { node_locks: t.node_locks, ..s })
        }),
{
    lemma_filter_sound(s.node_locks[node], |x: LockType| x != LockType::Upgrade(id));
}

/// An abort of a transaction that is not active changes nothing.
pub proof fn law_abort_of_inactive_ignored(s: ManagerState, id: TxnId)
    requires
        !s.active.contains_key(id),
    ensures
        s.aborted(id) == s,
{
}

/// A claim on a node without a worker makes the node a variable of this manager, and leaves
/// every other node as it is.
pub proof fn law_claim_makes_variable(
    s: ManagerState,
    node: Seq<char>,
    id: TxnId,
    inbox: Endpoint,
)
    ensures
        ({
            let t = s.claimed(node, id, inbox);
            &&& s.workers.contains_key(node) ==> t.kinds == s.kinds && t.managed == s.managed
            &&& !s.workers.contains_key(node) ==> t.kinds == s.kinds.insert(
                node,
                WorkerKind::Var,
            ) && t.managed == s.managed.insert(node)
            &&& t.config == s.config
            &&& t.graph == s.graph
            &&& t.txn_locks == s.txn_locks
            &&& t.owners == s.owners
            &&& t.peers == s.peers
        }),
{
    let p = s.prepared(node, inbox);
    lemma_aborts_frame(p, p.node_locks[node].map_values(|l: LockType| holder(l)));
}

proof fn lemma_aborts_frame(s: ManagerState, ids: Seq<TxnId>)
    ensures
        s.all_aborted(ids) == (ManagerState {
            active: s.all_aborted(ids).active,
            node_locks: s.all_aborted(ids).node_locks,
            ..s
        }),
    decreases ids.len(),
{
    if ids.len() > 0 {
        lemma_aborts_frame(s, ids.drop_last());
    }
}

/// Where a part could not be sent, the update fails, and the error names the peer and the
/// reason.
pub proof fn law_failed_sending_fails_update(
    s: ManagerState,
    c: CodeChangeModel,
    reason: Seq<char>,
    inboxes: Seq<Endpoint>,
    after: ManagerState,
    c_after: CodeChangeModel,
    action: ChangeActionModel,
)
    requires
        c.phase == ChangePhase::Distributing,
        s.advances(
            c,
            ChangeEventModel::SendFailed(reason),
            inboxes,
            after,
            c_after,
            action,
        ),
    ensures
        after == s,
        c_after.phase == ChangePhase::Finished,
        action == ChangeActionModel::Fail(
            ErrorModel::DistributedError(
                "Failed to send update to manager "@ + c.peers[c.sent - 1] + ": "@ + reason,
            ),
        ),
{
}

/// Once every peer has its part, the manager applies its own, lock by lock; when the code is
/// installed and its workers are to be started, the update waits for the acknowledgements.
pub proof fn law_own_part_is_applied(
    s: ManagerState,
    c: CodeChangeModel,
    event: ChangeEventModel,
    inboxes: Seq<Endpoint>,
    after: ManagerState,
    c_after: CodeChangeModel,
    action: ChangeActionModel,
)
    requires
        c.wf(),
        c.phase == ChangePhase::Applying || (c.phase == ChangePhase::Distributing && c.sent
            == c.peers.len() && !(event is SendFailed)),
        s.advances(c, event, inboxes, after, c_after, action),
    ensures
        c_after.parts == c.parts,
        c_after.peers == c.peers,
        c_after.nodes == c.nodes,
        c_after.sent == c.sent,
        c_after.received == c.received,
        c.run.asked < c.run.order.len() ==> action is Lock && c_after.phase
            == ChangePhase::Applying && c_after.run.asked == c.run.asked + 1,
        c.run.asked == c.run.order.len() ==> action is Start && c_after.phase
            == ChangePhase::Acknowledging && c_after.run.done,
{
}

/// An update that concerns no peer succeeds as soon as its own code is installed.
pub proof fn law_lone_update_succeeds(
    s: ManagerState,
    c: CodeChangeModel,
    event: ChangeEventModel,
    inboxes: Seq<Endpoint>,
    after: ManagerState,
    c_after: CodeChangeModel,
    action: ChangeActionModel,
)
    requires
        c.wf(),
        c.phase == ChangePhase::Acknowledging,
        c.received == c.peers.len(),
        s.advances(c, event, inboxes, after, c_after, action),
    ensures
        action is Succeed,
        c_after.phase == ChangePhase::Finished,
        after == s.upgrades_released(c.nodes, c.run.id),
{
}

/// An update goes on as long as it is not done, there is a channel for each of its codes and
/// one for a worker, and its versions fit; where it waits for an answer, this is one that
/// the worker of the last node may give to it.
pub proof fn law_update_can_go_on(
    s: ManagerState,
    run: CodeRunModel,
    reply: Option<MessageModel>,
    channels: nat,
)
    requires
        !run.done,
        versions_fit(s.versions, run.update.new_code),
        channels >= 1,
        channels >= run.update.new_code.len(),
        run.waiting && reply is Some ==> {
            ||| reply matches Some(MessageModel::VarLockAbort { txn }) && txn.id == run.id
            ||| reply matches Some(MessageModel::VarLockGranted { txn, from_name }) && (txn.id
                == run.id ==> from_name == run.order[run.asked - 1] && s.node_locks.contains_key(
                from_name,
            ))
        },
    ensures
        s.can_apply(run, reply, channels),
{
}

/// The error for an update that closes a ring of names shows such a ring, and all managers
/// that its nodes are attributed to.
pub proof fn law_refusal_shows_ring_and_managers(
    s: ManagerState,
    update: CodeUpdateModel,
    e: ErrorModel,
)
    requires
        s.refuses_update(update, e),
        has_cycle(updated_graph(s.graph, update.new_code)),
    ensures
        exists|found: Seq<Seq<char>>, managers: Seq<Seq<char>>|
            {
                &&& #[trigger] refers_round(s.graph, update.new_code, found.reverse())
                &&& found.no_duplicates()
                &&& #[trigger] lists_managers(s, update.new_code, found, managers)
                &&& e == ErrorModel::CyclicDependency(
                    s.cycle_text(update.new_code, found, managers),
                )
            },
{
    let u = update.new_code;
    let (found, managers) = choose|found: Seq<Seq<char>>, managers: Seq<Seq<char>>|
        {
            &&& #[trigger] is_cycle_backwards(updated_graph(s.graph, u), found)
            &&& #[trigger] is_listing(managers, s.managers_of(u, found))
            &&& e == ErrorModel::CyclicDependency(s.cycle_text(u, found, managers))
        };
    lemma_cycle_refers_round(s.graph, u, found.reverse());
    assert forall|m: Seq<char>| #[trigger] managers.contains(m) <==> exists|i: int|
        0 <= i < found.len() && is_attributed(s, u, #[trigger] found[i], m) by {
        assert(managers.to_set().contains(m) <==> managers.contains(m));
        if managers.contains(m) {
            let i = choose|i: int|
                0 <= i < found.len() && #[trigger] s.attributed_to(u, found[i]) == Some(m);
            lemma_attributed(s, u, found[i], m);
            assert(is_attributed(s, u, found[i], m));
        }
        if exists|i: int| 0 <= i < found.len() && is_attributed(s, u, #[trigger] found[i], m) {
            let i = choose|i: int|
                0 <= i < found.len() && is_attributed(s, u, #[trigger] found[i], m);
            lemma_attributed(s, u, found[i], m);
            assert(s.attributed_to(u, found[i]) == Some(m));
        }
    }
    assert(lists_managers(s, u, found, managers));
    assert(refers_round(s.graph, u, found.reverse()));
}

/// The node is this manager's, whose name is `m`, or it is a node with code, or one that new
/// code names, whose owner is `m`.
pub open spec fn is_attributed(
    s: ManagerState,
    update: Seq<(Seq<char>, ExprModel)>,
    node: Seq<char>,
    m: Seq<char>,
) -> bool {
    if s.managed.contains(node) {
        m == match s.id {
            Some(id) => id,
            None => Seq::empty(),
        }
    } else {
        &&& s.owners.contains_key(node)
        &&& s.owners[node] == m
        &&& s.graph.contains_key(node) || exists|i: int|
            0 <= i < update.len() && occurs((#[trigger] update[i]).1, node)
    }
}

proof fn lemma_attributed(
    s: ManagerState,
    update: Seq<(Seq<char>, ExprModel)>,
    node: Seq<char>,
    m: Seq<char>,
)
    ensures
        s.attributed_to(update, node) == Some(m) <==> is_attributed(s, update, node, m),
{
    assert forall|i: int| 0 <= i < update.len() implies names_in(
        (#[trigger] update[i]).1,
    ).contains(node) == occurs(update[i].1, node) by {
        law_names_are_those_that_occur(update[i].1, node);
    }
    assert(referred_to(update, node) <==> exists|i: int|
        0 <= i < update.len() && occurs((#[trigger] update[i]).1, node)) by {
        if referred_to(update, node) {
            let i = choose|i: int|
                0 <= i < update.len() && names_in((#[trigger] update[i]).1).contains(node);
            assert(occurs(update[i].1, node));
        }
        if exists|i: int| 0 <= i < update.len() && occurs((#[trigger] update[i]).1, node) {
            let i = choose|i: int|
                0 <= i < update.len() && occurs((#[trigger] update[i]).1, node);
            assert(names_in(update[i].1).contains(node));
        }
    }
}

/// `managers` lists, once each, the managers that the nodes are attributed to.
pub open spec fn lists_managers(
    s: ManagerState,
    update: Seq<(Seq<char>, ExprModel)>,
    found: Seq<Seq<char>>,
    managers: Seq<Seq<char>>,
) -> bool {
    &&& managers.no_duplicates()
    &&& forall|m: Seq<char>| #[trigger]
        managers.contains(m) <==> exists|i: int|
            0 <= i < found.len() && is_attributed(s, update, #[trigger] found[i], m)
}

/// The text about a ring shows its nodes in their order; where several managers take part,
/// it names them first, and each node stands with its own.
pub proof fn law_ring_text(
    s: ManagerState,
    update: Seq<(Seq<char>, ExprModel)>,
    found: Seq<Seq<char>>,
    managers: Seq<Seq<char>>,
    labels: Seq<Seq<char>>,
)
    requires
        labels.len() == found.len(),
        forall|i: int|
            0 <= i < found.len() ==> #[trigger] labels[i] == s.node_label(
                update,
                managers.len() > 1,
                found[i],
            ),
    ensures
        managers.len() <= 1 ==> s.cycle_text(update, found, managers)
            == "Cyclic dependency detected: "@ + joined(found, " → "@),
        managers.len() > 1 ==> s.cycle_text(update, found, managers)
            == "Cross-manager cyclic dependency detected across managers ["@ + joined(
            managers,
            ", "@,
        ) + "]: "@ + joined(labels, " → "@),
{
    assert(found.map_values(|n: Seq<char>| s.node_label(update, managers.len() > 1, n)) =~= labels);
    if managers.len() <= 1 {
        assert(labels =~= found);
    }
}

} // verus!
