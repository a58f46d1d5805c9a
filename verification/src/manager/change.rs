//! The course of a code update, at the manager that starts it and at a peer that gets a
//! part of it.

use vstd::prelude::*;

use crate::collections::{Dup, ListMap, ListSet};
#[allow(unused_imports)]
use crate::collections::is_listing;
#[allow(unused_imports)]
use crate::graph::has_cycle;
#[allow(unused_imports)]
use crate::manager::apply::{CodeRunModel, CodeStepModel};
use crate::manager::apply::{CodeRun, CodeStep};
#[allow(unused_imports)]
use crate::manager::cycles::updated_graph;
#[allow(unused_imports)]
use crate::manager::install::NewWorkerModel;
use crate::manager::install::NewWorker;
use crate::manager::locks::LockAttempt;
#[allow(unused_imports)]
use crate::manager::update::{manager_not_found, peer_not_found};
#[allow(unused_imports)]
use crate::manager::{ErrorModel, ManagerState};
use crate::manager::{Manager, ManagerError};
#[allow(unused_imports)]
use crate::message::{CodeUpdateModel, MessageModel, Posted};
use crate::message::{CodeUpdate, Endpoint, Envelope, Message};
use crate::text::concat;
use crate::transaction::TxnId;
#[allow(unused_imports)]
use crate::varworker::VarState;

verus! {

/// What happened since the last step.
#[derive(Debug)]
pub enum ChangeEvent {
    /// What was asked for is done, and there is nothing to report.
    Go,
    /// The message could not be sent, for the reason given.
    SendFailed(String),
    /// What came in from the manager's channel: nothing, where the request could not be
    /// sent or the channel is closed.
    Reply(Option<Message>),
}

/// The model of an event.
pub enum ChangeEventModel {
    Go,
    SendFailed(Seq<char>),
    Reply(Option<MessageModel>),
}

impl DeepView for ChangeEvent {
    type V = ChangeEventModel;

    open spec fn deep_view(&self) -> ChangeEventModel {
        match self {
            ChangeEvent::Go => ChangeEventModel::Go,
            ChangeEvent::SendFailed(reason) => ChangeEventModel::SendFailed(reason@),
            ChangeEvent::Reply(msg) => ChangeEventModel::Reply(msg.deep_view()),
        }
    }
}

/// What is to be done next.
#[derive(Debug)]
pub enum ChangeAction {
    /// Send the message. The next event says whether that failed.
    Send(Envelope),
    /// Start the worker, if there is one, send the request, if there is one, and hand in
    /// what comes back.
    Lock(LockAttempt),
    /// Start the workers.
    Start(Vec<NewWorker>),
    /// Hand in the next message.
    Await,
    /// The update is complete.
    Succeed,
    /// The update has failed.
    Fail(ManagerError),
}

/// The model of an action.
pub enum ChangeActionModel {
    Send(Posted),
    Lock { created: Option<VarState>, request: Option<Posted> },
    Start(Seq<NewWorkerModel>),
    Await,
    Succeed,
    Fail(ErrorModel),
}

impl DeepView for ChangeAction {
    type V = ChangeActionModel;

    open spec fn deep_view(&self) -> ChangeActionModel {
        match self {
            ChangeAction::Send(envelope) => ChangeActionModel::Send(envelope.deep_view()),
            ChangeAction::Lock(attempt) => ChangeActionModel::Lock {
                created: attempt.created.deep_view(),
                request: attempt.request.deep_view(),
            },
            ChangeAction::Start(workers) => ChangeActionModel::Start(workers.deep_view()),
            ChangeAction::Await => ChangeActionModel::Await,
            ChangeAction::Succeed => ChangeActionModel::Succeed,
            ChangeAction::Fail(e) => ChangeActionModel::Fail(e.deep_view()),
        }
    }
}

/// How far an update has come.
#[derive(Debug, Clone, Copy, PartialEq, Eq, Structural)]
pub enum ChangePhase {
    /// The peers get their parts.
    Distributing,
    /// The manager's own part is applied.
    Applying,
    /// The peers acknowledge their parts.
    Acknowledging,
    Finished,
}

/// An update at the manager that starts it.
#[derive(Debug)]
pub struct CodeChange {
    pub nodes_to_modify: ListSet<String>,
    /// The parts of the peers.
    pub parts: ListMap<String, CodeUpdate>,
    /// How many peers have got their parts.
    pub sent: usize,
    /// How many acknowledgements have come.
    pub received: usize,
    /// The manager's own part.
    pub run: CodeRun,
    pub phase: ChangePhase,
}

/// The model of an update at the manager that starts it.
#[verifier::ext_equal]
pub struct CodeChangeModel {
    pub nodes: Set<Seq<char>>,
    pub parts: Map<Seq<char>, CodeUpdateModel>,
    /// The peers, in the order in which they get their parts.
    pub peers: Seq<Seq<char>>,
    pub sent: int,
    pub received: int,
    pub run: CodeRunModel,
    pub phase: ChangePhase,
}

impl DeepView for CodeChange {
    type V = CodeChangeModel;

    open spec fn deep_view(&self) -> CodeChangeModel {
        CodeChangeModel {
            nodes: self.nodes_to_modify.deep_view(),
            parts: self.parts.deep_view(),
            peers: self.parts.keys(),
            sent: self.sent as int,
            received: self.received as int,
            run: self.run.deep_view(),
            phase: self.phase,
        }
    }
}

/// A part of an update at the peer that got it.
#[derive(Debug)]
pub struct PeerUpdate {
    pub sender_manager_id: String,
    pub run: CodeRun,
    pub acknowledged: bool,
}

/// The model of a part at a peer.
#[verifier::ext_equal]
pub struct PeerUpdateModel {
    pub sender: Seq<char>,
    pub run: CodeRunModel,
    pub acknowledged: bool,
}

impl DeepView for PeerUpdate {
    type V = PeerUpdateModel;

    open spec fn deep_view(&self) -> PeerUpdateModel {
        PeerUpdateModel {
            sender: self.sender_manager_id@,
            run: self.run.deep_view(),
            acknowledged: self.acknowledged,
        }
    }
}

impl CodeChangeModel {
    pub open spec fn wf(self) -> bool {
        &&& self.run.wf()
        &&& is_listing(self.peers, self.parts.dom())
        &&& 0 <= self.sent <= self.peers.len()
        &&& 0 <= self.received <= self.peers.len()
        &&& self.phase == ChangePhase::Distributing ==> !self.run.waiting && !self.run.done
        &&& self.phase == ChangePhase::Applying ==> !self.run.done && self.sent == self.peers.len()
        &&& self.phase == ChangePhase::Acknowledging ==> self.run.done && self.sent
            == self.peers.len()
    }

    /// The update as it is when all its parts have been acknowledged.
    pub open spec fn complete(self) -> bool {
        self.run.done && self.sent == self.peers.len() && self.received == self.peers.len()
    }
}

impl ChangeEventModel {
    /// What came in.
    pub open spec fn reply(self) -> Option<MessageModel> {
        match self {
            ChangeEventModel::Reply(msg) => msg,
            _ => None,
        }
    }

    /// The event acknowledges a part of the update `id`, as `success` says.
    pub open spec fn acknowledges(self, id: TxnId, success: bool) -> bool {
        &&& self.reply() matches Some(
            MessageModel::DistributedCodeUpdateAck { txn_id, success: s, .. },
        )
        &&& txn_id == id
        &&& s == success
    }

    /// The manager that an acknowledgement comes from.
    pub open spec fn acknowledger(self) -> Seq<char> {
        match self.reply() {
            Some(MessageModel::DistributedCodeUpdateAck { manager_id, .. }) => manager_id,
            _ => Seq::empty(),
        }
    }
}

/// The action that a step of the update's own part asks for.
pub open spec fn action_of(step: CodeStepModel) -> ChangeActionModel {
    match step {
        CodeStepModel::Lock { created, request } => ChangeActionModel::Lock { created, request },
        CodeStepModel::Installed(workers) => ChangeActionModel::Start(workers),
    }
}

pub open spec fn send_failed(peer: Seq<char>, reason: Seq<char>) -> ErrorModel {
    ErrorModel::DistributedError("Failed to send update to manager "@ + peer + ": "@ + reason)
}

pub open spec fn update_failed(peer: Seq<char>) -> ErrorModel {
    ErrorModel::DistributedError("Update failed at manager "@ + peer)
}

pub open spec fn ack_failed(reason: Seq<char>) -> ErrorModel {
    ErrorModel::DistributedError("Failed to send ack: "@ + reason)
}

impl ManagerState {
    /// `c` is the update `update` at its start.
    pub open spec fn plans(self, update: CodeUpdateModel, id: TxnId, c: CodeChangeModel) -> bool {
        &&& c.wf()
        &&& c.nodes == update.nodes_to_modify
        &&& c.parts == self.remote_parts(update)
        &&& c.sent == 0
        &&& c.received == 0
        &&& c.run.fresh(self.local_part(update), id)
        &&& c.phase == ChangePhase::Distributing
    }

    /// The update is taken: no node would depend on itself, and each node has a manager.
    pub open spec fn takes_update(self, update: CodeUpdateModel) -> bool {
        &&& !has_cycle(updated_graph(self.graph, update.new_code))
        &&& self.places_all(update)
    }

    /// `e` tells why the update is not taken.
    pub open spec fn refuses_update(self, update: CodeUpdateModel, e: ErrorModel) -> bool {
        if has_cycle(updated_graph(self.graph, update.new_code)) {
            self.tells_of_cycle(update.new_code, e)
        } else {
            exists|n: Seq<char>| #[trigger] self.misplaced(update, n) && e == manager_not_found(n)
        }
    }

    /// The state and the update allow a step on the event, with so many addresses of new
    /// channels.
    pub open spec fn can_advance(
        self,
        c: CodeChangeModel,
        event: ChangeEventModel,
        channels: nat,
    ) -> bool {
        match c.phase {
            ChangePhase::Distributing => if event is SendFailed {
                c.sent > 0
            } else {
                c.sent == c.peers.len() ==> self.can_apply(c.run, None, channels)
            },
            ChangePhase::Applying => self.can_apply(c.run, event.reply(), channels),
            ChangePhase::Acknowledging => true,
            ChangePhase::Finished => false,
        }
    }

    /// The step that applies the manager's own part.
    pub open spec fn advances_run(
        self,
        c: CodeChangeModel,
        event: ChangeEventModel,
        inboxes: Seq<Endpoint>,
        after: ManagerState,
        c_after: CodeChangeModel,
        action: ChangeActionModel,
    ) -> bool {
        exists|step: CodeStepModel|
            {
                &&& #[trigger] self.applies(
                    c.run,
                    event.reply(),
                    inboxes,
                    after,
                    c_after.run,
                    step,
                )
                &&& action == action_of(step)
                &&& c_after == (CodeChangeModel {
                    run: c_after.run,
                    phase: if step is Installed {
                        ChangePhase::Acknowledging
                    } else {
                        ChangePhase::Applying
                    },
                    ..c
                })
            }
    }

    /// Whether the update goes on with `action` on the event, and leads to the state
    /// `after` and the update `c_after`.
    pub open spec fn advances(
        self,
        c: CodeChangeModel,
        event: ChangeEventModel,
        inboxes: Seq<Endpoint>,
        after: ManagerState,
        c_after: CodeChangeModel,
        action: ChangeActionModel,
    ) -> bool {
        let finished = CodeChangeModel { phase: ChangePhase::Finished, ..c };
        match c.phase {
            ChangePhase::Distributing => match event {
                ChangeEventModel::SendFailed(reason) => {
                    &&& action == ChangeActionModel::Fail(send_failed(c.peers[c.sent - 1], reason))
                    &&& after == self
                    &&& c_after == finished
                },
                _ => if c.sent < c.peers.len() {
                    let peer = c.peers[c.sent];
                    &&& after == self
                    &&& if self.peers.contains_key(peer) {
                        &&& action == ChangeActionModel::Send(
                            Posted {
                                to: self.peers[peer],
                                msg: self.part_message(c.parts[peer], c.run.id),
                            },
                        )
                        &&& c_after == (CodeChangeModel { sent: c.sent + 1, ..c })
                    } else {
                        &&& action == ChangeActionModel::Fail(peer_not_found(peer))
                        &&& c_after == finished
                    }
                } else {
                    self.advances_run(
                        c,
                        ChangeEventModel::Go,
                        inboxes,
                        after,
                        c_after,
                        action,
                    )
                },
            },
            ChangePhase::Applying => self.advances_run(c, event, inboxes, after, c_after, action),
            ChangePhase::Acknowledging => {
                let waits = c.received < c.peers.len();
                let received = if waits && event.acknowledges(c.run.id, true) {
                    c.received + 1
                } else {
                    c.received
                };
                if waits && event.acknowledges(c.run.id, false) {
                    &&& action == ChangeActionModel::Fail(update_failed(event.acknowledger()))
                    &&& after == self
                    &&& c_after == finished
                } else if received < c.peers.len() {
                    &&& action is Await
                    &&& after == self
                    &&& c_after == (CodeChangeModel { received, ..c })
                } else {
                    &&& action is Succeed
                    &&& after == self.upgrades_released(c.nodes, c.run.id)
                    &&& c_after == (CodeChangeModel { received, ..finished })
                }
            },
            ChangePhase::Finished => false,
        }
    }

    /// The state and the part allow a step on the event, with so many addresses of new
    /// channels.
    pub open spec fn can_advance_peer(
        self,
        p: PeerUpdateModel,
        event: ChangeEventModel,
        channels: nat,
    ) -> bool {
        p.run.done || self.can_apply(p.run, event.reply(), channels)
    }

    /// Whether a peer goes on with `action` on its part, and comes to the state `after` and
    /// the part `p_after`: it applies the part and then tells the sender of it.
    pub open spec fn advances_peer(
        self,
        p: PeerUpdateModel,
        event: ChangeEventModel,
        inboxes: Seq<Endpoint>,
        after: ManagerState,
        p_after: PeerUpdateModel,
        action: ChangeActionModel,
    ) -> bool {
        if !p.run.done {
            exists|step: CodeStepModel|
                {
                    &&& #[trigger] self.applies(
                        p.run,
                        event.reply(),
                        inboxes,
                        after,
                        p_after.run,
                        step,
                    )
                    &&& action == action_of(step)
                    &&& p_after == (PeerUpdateModel { run: p_after.run, ..p })
                }
        } else {
            &&& after == self
            &&& p_after == (PeerUpdateModel {
                acknowledged: p.acknowledged || self.peers.contains_key(p.sender),
                ..p
            })
            &&& action == if p.acknowledged {
                match event {
                    ChangeEventModel::SendFailed(reason) => ChangeActionModel::Fail(
                        ack_failed(reason),
                    ),
                    _ => ChangeActionModel::Succeed,
                }
            } else if self.peers.contains_key(p.sender) {
                ChangeActionModel::Send(
                    Posted {
                        to: self.peers[p.sender],
                        msg: MessageModel::DistributedCodeUpdateAck {
                            txn_id: p.run.id,
                            success: true,
                            manager_id: self.own_id(),
                        },
                    },
                )
            } else {
                ChangeActionModel::Fail(peer_not_found(p.sender))
            }
        }
    }
}

/// An update succeeds only when its own code is installed, every peer that it concerns was
/// sent its part, and as many acknowledgements have come; none of its upgrade locks is left
/// on the nodes that change.
pub proof fn law_success_is_complete(
    s: ManagerState,
    c: CodeChangeModel,
    event: ChangeEventModel,
    inboxes: Seq<Endpoint>,
    after: ManagerState,
    c_after: CodeChangeModel,
    action: ChangeActionModel,
)
    requires
        c.wf(),
        s.advances(c, event, inboxes, after, c_after, action),
        action is Succeed,
    ensures
        c_after.complete(),
        after.same_code(s),
        forall|n: Seq<char>| c.nodes.contains(n) ==> !(#[trigger] after.upgrading(n, c.run.id)),
{
    crate::manager::locks::law_release_frees_upgrades(s, c.nodes, c.run.id);
}

/// An acknowledgement of another update changes nothing.
pub proof fn law_foreign_acknowledgement_ignored(
    s: ManagerState,
    c: CodeChangeModel,
    event: ChangeEventModel,
    inboxes: Seq<Endpoint>,
    after: ManagerState,
    c_after: CodeChangeModel,
    action: ChangeActionModel,
)
    requires
        c.wf(),
        c.phase == ChangePhase::Acknowledging,
        c.received < c.peers.len(),
        !event.acknowledges(c.run.id, true),
        !event.acknowledges(c.run.id, false),
        s.advances(c, event, inboxes, after, c_after, action),
    ensures
        after == s,
        c_after == c,
        action is Await,
{
}

/// A failed update leaves the code as it was, or as its own part made it: no step that
/// fails changes any code.
pub proof fn law_failure_keeps_code(
    s: ManagerState,
    c: CodeChangeModel,
    event: ChangeEventModel,
    inboxes: Seq<Endpoint>,
    after: ManagerState,
    c_after: CodeChangeModel,
    action: ChangeActionModel,
)
    requires
        c.wf(),
        s.advances(c, event, inboxes, after, c_after, action),
        action is Fail,
    ensures
        after == s,
        c_after.phase == ChangePhase::Finished,
{
}

impl Manager {
    /// Plans an update of code. It is refused where the new code would leave a node
    /// depending on itself, or where a node has no manager.
    pub fn handle_code_update(&self, update: CodeUpdate, txn_id: TxnId) -> (r: Result<
        CodeChange,
        ManagerError,
    >)
        ensures
            r is Ok <==> self.deep_view().takes_update(update.deep_view()),
            match r {
                Ok(c) => self.deep_view().plans(update.deep_view(), txn_id, c.deep_view()),
                Err(e) => self.deep_view().refuses_update(update.deep_view(), e.deep_view()),
            },
    {
        match self.detect_cycles(&update.new_code) {
            Err(e) => {
                return Err(e);
            },
            Ok(()) => {},
        }
        match self.partition(&update) {
            Err(e) => Err(e),
            Ok((local, remote)) => {
                let _n: usize = remote.len();
                let run = CodeRun::new(local, txn_id);
                Ok(
                    CodeChange {
                        nodes_to_modify: update.nodes_to_modify,
                        parts: remote,
                        sent: 0,
                        received: 0,
                        run,
                        phase: ChangePhase::Distributing,
                    },
                )
            },
        }
    }

    /// Whether `advance_code_update` can take the event, with so many addresses of new
    /// channels.
    pub fn can_advance(&self, c: &CodeChange, event: &ChangeEvent, channels: usize) -> (r: bool)
        requires
            c.deep_view().wf(),
        ensures
            r == self.deep_view().can_advance(
                c.deep_view(),
                event.deep_view(),
                channels as nat,
            ),
    {
        match c.phase {
            ChangePhase::Distributing => {
                match event {
                    ChangeEvent::SendFailed(_) => c.sent > 0,
                    _ => c.sent < c.parts.len() || self.can_apply(&c.run, &None, channels),
                }
            },
            ChangePhase::Applying => match event {
                ChangeEvent::Reply(msg) => self.can_apply(&c.run, msg, channels),
                _ => self.can_apply(&c.run, &None, channels),
            },
            ChangePhase::Acknowledging => true,
            ChangePhase::Finished => false,
        }
    }

    /// Brings an update one step further: first the peers get their parts, then the
    /// manager's own part is applied, then the acknowledgements are counted, and at the end
    /// the upgrade locks are released. `inboxes` are the addresses of channels that are not
    /// in use.
    pub fn advance_code_update(
        &mut self,
        c: &mut CodeChange,
        event: ChangeEvent,
        inboxes: &Vec<Endpoint>,
    ) -> (action: ChangeAction)
        requires
            old(c).deep_view().wf(),
            old(self).deep_view().can_advance(
                old(c).deep_view(),
                event.deep_view(),
                inboxes.len() as nat,
            ),
        ensures
            final(c).deep_view().wf(),
            old(self).deep_view().advances(
                old(c).deep_view(),
                event.deep_view(),
                inboxes@,
                final(self).deep_view(),
                final(c).deep_view(),
                action.deep_view(),
            ),
    {
        let n: usize = c.parts.len();
        match c.phase {
            ChangePhase::Distributing => {
                match event {
                    ChangeEvent::SendFailed(reason) => {
                        c.phase = ChangePhase::Finished;
                        let head = concat(
                            "Failed to send update to manager ",
                            c.parts.key_at(c.sent - 1).as_str(),
                        );
                        return ChangeAction::Fail(
                            ManagerError::DistributedError(
                                concat(concat(head.as_str(), ": ").as_str(), reason.as_str()),
                            ),
                        );
                    },
                    _ => {},
                }
                if c.sent < n {
                    let peer = c.parts.key_at(c.sent);
                    match self.peer_managers.get(peer) {
                        Some(to) => {
                            let msg = Message::DistributedCodeUpdate {
                                code_update: c.parts.value_at(c.sent).dup(),
                                txn_id: c.run.txn_id,
                                sender_manager_id: self.own_id(),
                            };
                            c.sent = c.sent + 1;
                            ChangeAction::Send(Envelope { to: *to, msg })
                        },
                        None => {
                            let error = missing_peer(peer);
                            c.phase = ChangePhase::Finished;
                            ChangeAction::Fail(error)
                        },
                    }
                } else {
                    self.advance_run(c, None, inboxes)
                }
            },
            ChangePhase::Applying => {
                let reply: Option<Message> = match event {
                    ChangeEvent::Reply(msg) => msg,
                    _ => None,
                };
                self.advance_run(c, reply, inboxes)
            },
            ChangePhase::Acknowledging => {
                if c.received < n {
                    match event {
                        ChangeEvent::Reply(
                            Some(
                                Message::DistributedCodeUpdateAck { txn_id, success, manager_id },
                            ),
                        ) => {
                            if txn_id == c.run.txn_id {
                                if !success {
                                    c.phase = ChangePhase::Finished;
                                    return ChangeAction::Fail(
                                        ManagerError::DistributedError(
                                            concat(
                                                "Update failed at manager ",
                                                manager_id.as_str(),
                                            ),
                                        ),
                                    );
                                }
                                c.received = c.received + 1;
                            }
                        },
                        _ => {},
                    }
                }
                if c.received < n {
                    ChangeAction::Await
                } else {
                    self.release_upgrade_locks(&c.nodes_to_modify, c.run.txn_id);
                    c.phase = ChangePhase::Finished;
                    ChangeAction::Succeed
                }
            },
            ChangePhase::Finished => ChangeAction::Await,
        }
    }

    fn advance_run(
        &mut self,
        c: &mut CodeChange,
        reply: Option<Message>,
        inboxes: &Vec<Endpoint>,
    ) -> (action: ChangeAction)
        requires
            old(c).deep_view().wf(),
            old(c).deep_view().sent == old(c).deep_view().peers.len(),
            old(self).deep_view().can_apply(
                old(c).deep_view().run,
                reply.deep_view(),
                inboxes.len() as nat,
            ),
        ensures
            final(c).deep_view().wf(),
            old(self).deep_view().advances_run(
                old(c).deep_view(),
                ChangeEventModel::Reply(reply.deep_view()),
                inboxes@,
                final(self).deep_view(),
                final(c).deep_view(),
                action.deep_view(),
            ),
    {
        let ghost s = self.deep_view();
        let ghost before = c.deep_view();
        let step = self.apply_code_update(&mut c.run, reply, inboxes);
        proof {
            assert(s.applies(
                before.run,
                reply.deep_view(),
                inboxes@,
                self.deep_view(),
                c.run.deep_view(),
                step.deep_view(),
            ));
        }
        match step {
            CodeStep::Lock(attempt) => {
                c.phase = ChangePhase::Applying;
                ChangeAction::Lock(attempt)
            },
            CodeStep::Installed(workers) => {
                c.phase = ChangePhase::Acknowledging;
                ChangeAction::Start(workers)
            },
        }
    }

    /// Takes a message from a peer or a worker. A part of a peer's update is to be applied;
    /// other messages are left alone.
    pub fn handle_message(&self, msg: Message) -> (r: Option<PeerUpdate>)
        ensures
            r is Some <==> msg.deep_view() is DistributedCodeUpdate,
            match (msg.deep_view(), r.deep_view()) {
                (
                    MessageModel::DistributedCodeUpdate { code_update, txn_id, sender_manager_id },
                    Some(p),
                ) => {
                    &&& p.sender == sender_manager_id
                    &&& p.run.fresh(code_update, txn_id)
                    &&& !p.acknowledged
                },
                _ => true,
            },
    {
        match msg {
            Message::DistributedCodeUpdate { code_update, txn_id, sender_manager_id } => {
                let run = CodeRun::new(code_update, txn_id);
                Some(PeerUpdate { sender_manager_id, run, acknowledged: false })
            },
            _ => None,
        }
    }

    /// Whether `advance_peer_update` can take the event, with so many addresses of new
    /// channels.
    pub fn can_advance_peer(&self, p: &PeerUpdate, event: &ChangeEvent, channels: usize) -> (r:
        bool)
        requires
            p.deep_view().run.wf(),
        ensures
            r == self.deep_view().can_advance_peer(
                p.deep_view(),
                event.deep_view(),
                channels as nat,
            ),
    {
        p.run.done || match event {
            ChangeEvent::Reply(msg) => self.can_apply(&p.run, msg, channels),
            _ => self.can_apply(&p.run, &None, channels),
        }
    }

    /// Brings a part of a peer's update one step further: it is applied, and then
    /// acknowledged.
    pub fn advance_peer_update(
        &mut self,
        p: &mut PeerUpdate,
        event: ChangeEvent,
        inboxes: &Vec<Endpoint>,
    ) -> (action: ChangeAction)
        requires
            old(p).deep_view().run.wf(),
            old(self).deep_view().can_advance_peer(
                old(p).deep_view(),
                event.deep_view(),
                inboxes.len() as nat,
            ),
        ensures
            final(p).deep_view().run.wf(),
            old(self).deep_view().advances_peer(
                old(p).deep_view(),
                event.deep_view(),
                inboxes@,
                final(self).deep_view(),
                final(p).deep_view(),
                action.deep_view(),
            ),
    {
        let ghost s = self.deep_view();
        let ghost before = p.deep_view();
        if !p.run.done {
            let reply: Option<Message> = match event {
                ChangeEvent::Reply(msg) => msg,
                _ => None,
            };
            let step = self.apply_code_update(&mut p.run, reply, inboxes);
            assert(s.applies(
                before.run,
                event.deep_view().reply(),
                inboxes@,
                self.deep_view(),
                p.run.deep_view(),
                step.deep_view(),
            ));
            return match step {
                CodeStep::Lock(attempt) => ChangeAction::Lock(attempt),
                CodeStep::Installed(workers) => ChangeAction::Start(workers),
            };
        }
        if p.acknowledged {
            return match event {
                ChangeEvent::SendFailed(reason) => ChangeAction::Fail(
                    ManagerError::DistributedError(
                        concat("Failed to send ack: ", reason.as_str()),
                    ),
                ),
                _ => ChangeAction::Succeed,
            };
        }
        match self.peer_managers.get(&p.sender_manager_id) {
            Some(to) => {
                p.acknowledged = true;
                ChangeAction::Send(
                    Envelope {
                        to: *to,
                        msg: Message::DistributedCodeUpdateAck {
                            txn_id: p.run.txn_id,
                            success: true,
                            manager_id: self.own_id(),
                        },
                    },
                )
            },
            None => ChangeAction::Fail(missing_peer(&p.sender_manager_id)),
        }
    }
}

fn missing_peer(peer: &String) -> (r: ManagerError)
    ensures
        r.deep_view() == peer_not_found(peer@),
{
    ManagerError::DistributedError(
        concat(concat("Peer manager ", peer.as_str()).as_str(), " not found"),
    )
}

} // verus!
