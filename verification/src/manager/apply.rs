//! Application of a code update to the nodes of one manager: the upgrade locks of all the
//! nodes are asked for one after the other, and then the new code is installed.

use vstd::prelude::*;

#[allow(unused_imports)]
use crate::collections::is_listing;
#[allow(unused_imports)]
use crate::manager::install::{law_update_keeps_in_step, NewWorkerModel};
use crate::manager::install::NewWorker;
use crate::manager::locks::LockAttempt;
use crate::manager::Manager;
#[allow(unused_imports)]
use crate::manager::versions::{translated, versions_fit};
#[allow(unused_imports)]
use crate::manager::ManagerState;
#[allow(unused_imports)]
use crate::message::{CodeUpdateModel, MessageModel, Posted};
use crate::message::{CodeUpdate, Endpoint, Message};
use crate::transaction::TxnId;
#[allow(unused_imports)]
use crate::varworker::VarState;

verus! {

/// A code update on its way.
#[derive(Debug)]
pub struct CodeRun {
    pub txn_id: TxnId,
    pub update: CodeUpdate,
    /// The nodes that change, in the order in which their locks are asked for.
    pub order: Vec<String>,
    /// How many locks were asked for.
    pub asked: usize,
    /// The last request waits for its answer.
    pub waiting: bool,
    /// The new code is installed.
    pub done: bool,
}

/// The model of a code update on its way.
#[verifier::ext_equal]
pub struct CodeRunModel {
    pub id: TxnId,
    pub update: CodeUpdateModel,
    pub order: Seq<Seq<char>>,
    pub asked: int,
    pub waiting: bool,
    pub done: bool,
}

impl DeepView for CodeRun {
    type V = CodeRunModel;

    open spec fn deep_view(&self) -> CodeRunModel {
        CodeRunModel {
            id: self.txn_id,
            update: self.update.deep_view(),
            order: self.order.deep_view(),
            asked: self.asked as int,
            waiting: self.waiting,
            done: self.done,
        }
    }
}

/// What comes next for a code update.
#[derive(Debug)]
pub enum CodeStep {
    /// Start the worker, if there is one, send the request, if there is one, and hand in
    /// the answer.
    Lock(LockAttempt),
    /// Start the workers. The update is done.
    Installed(Vec<NewWorker>),
}

/// The model of a step.
pub enum CodeStepModel {
    Lock { created: Option<VarState>, request: Option<Posted> },
    Installed(Seq<NewWorkerModel>),
}

impl DeepView for CodeStep {
    type V = CodeStepModel;

    open spec fn deep_view(&self) -> CodeStepModel {
        match self {
            CodeStep::Lock(attempt) => CodeStepModel::Lock {
                created: attempt.created.deep_view(),
                request: attempt.request.deep_view(),
            },
            CodeStep::Installed(workers) => CodeStepModel::Installed(workers.deep_view()),
        }
    }
}

impl CodeRunModel {
    pub open spec fn wf(self) -> bool {
        &&& is_listing(self.order, self.update.nodes_to_modify)
        &&& 0 <= self.asked <= self.order.len()
        &&& self.waiting ==> self.asked > 0
        &&& self.done ==> self.asked == self.order.len() && !self.waiting
    }

    /// Nothing of the update has been done yet.
    pub open spec fn fresh(self, update: CodeUpdateModel, id: TxnId) -> bool {
        &&& self.wf()
        &&& self.update == update
        &&& self.id == id
        &&& self.asked == 0
        &&& !self.waiting
        &&& !self.done
    }

    /// The node that was asked last.
    pub open spec fn last_asked(self) -> Seq<char> {
        self.order[self.asked - 1]
    }
}

impl ManagerState {
    /// The run can take the answer, where it waits for one, and there is room for the new
    /// versions and an address for each new channel.
    pub open spec fn can_apply(
        self,
        run: CodeRunModel,
        reply: Option<MessageModel>,
        channels: nat,
    ) -> bool {
        &&& !run.done
        &&& run.waiting ==> self.claim_answerable(run.last_asked(), run.id, reply)
        &&& versions_fit(self.versions, run.update.new_code)
        &&& channels >= 1
        &&& channels >= run.update.new_code.len()
    }

    /// The state once the answer that the run waits for is taken.
    pub open spec fn run_answered(
        self,
        run: CodeRunModel,
        reply: Option<MessageModel>,
    ) -> ManagerState {
        if run.waiting {
            self.claim_answered(run.last_asked(), run.id, reply)
        } else {
            self
        }
    }

    /// Whether `step` comes next, and leads to the state `after` and the run `run_after`:
    /// whatever became of the last request, the next lock is asked for; once all were, the
    /// code is installed.
    pub open spec fn applies(
        self,
        run: CodeRunModel,
        reply: Option<MessageModel>,
        inboxes: Seq<Endpoint>,
        after: ManagerState,
        run_after: CodeRunModel,
        step: CodeStepModel,
    ) -> bool {
        let s = self.run_answered(run, reply);
        if run.asked < run.order.len() {
            let node = run.order[run.asked];
            &&& after == s.claimed(node, run.id, inboxes[0])
            &&& run_after == (CodeRunModel {
                asked: run.asked + 1,
                waiting: s.claim(node, run.id, inboxes[0]) is Some,
                ..run
            })
            &&& step == (CodeStepModel::Lock {
                created: if s.workers.contains_key(node) {
                    None
                } else {
                    Some(VarState::initial(node, s.inbox))
                },
                request: s.claim(node, run.id, inboxes[0]),
            })
        } else {
            &&& after == s.updated(run.update, inboxes)
            &&& run_after == (CodeRunModel { waiting: false, done: true, ..run })
            &&& step matches CodeStepModel::Installed(workers)
            &&& s.emptied(run.update).starts_all(
                translated(s.versions, run.update.new_code),
                inboxes,
                workers,
            )
        }
    }

    /// The code and what is recorded of it is the same in both states.
    pub open spec fn same_code(self, other: ManagerState) -> bool {
        &&& self.config == other.config
        &&& self.graph == other.graph
        &&& self.reverse == other.reverse
        &&& self.versions == other.versions
    }
}

proof fn lemma_aborts_keep_code(s: ManagerState, ids: Seq<TxnId>)
    ensures
        s.all_aborted(ids).same_code(s),
    decreases ids.len(),
{
    if ids.len() > 0 {
        lemma_aborts_keep_code(s, ids.drop_last());
    }
}

/// No lock, asked for, granted or refused, changes any code.
pub proof fn law_locks_keep_code(
    s: ManagerState,
    node: Seq<char>,
    id: TxnId,
    inbox: Endpoint,
    reply: Option<MessageModel>,
)
    ensures
        s.claimed(node, id, inbox).same_code(s),
        s.claim_answered(node, id, reply).same_code(s),
{
    let p = s.prepared(node, inbox);
    lemma_aborts_keep_code(
        p,
        p.node_locks[node].map_values(|l: crate::lock::LockType| crate::manager::locks::holder(l)),
    );
}

/// Whatever the workers answer, each step brings the update nearer to its end, and until
/// the last step no code changes.
pub proof fn law_run_proceeds(
    s: ManagerState,
    run: CodeRunModel,
    reply: Option<MessageModel>,
    inboxes: Seq<Endpoint>,
    after: ManagerState,
    run_after: CodeRunModel,
    step: CodeStepModel,
)
    requires
        run.wf(),
        s.can_apply(run, reply, inboxes.len()),
        s.applies(run, reply, inboxes, after, run_after, step),
    ensures
        run_after.wf(),
        run_after.done <==> run.asked == run.order.len(),
        !run_after.done ==> run_after.asked == run.asked + 1 && after.same_code(s),
        run_after.done ==> after.same_code(s.updated(run.update, inboxes)),
{
    if run.waiting {
        law_locks_keep_code(s, run.last_asked(), run.id, inboxes[0], reply);
    }
    let t = s.run_answered(run, reply);
    if run.asked < run.order.len() {
        law_locks_keep_code(t, run.order[run.asked], run.id, inboxes[0], reply);
    } else {
        lemma_same_update(t, s, run.update, inboxes);
    }
}

/// Code, dependencies and their reverse stay in step through every step of an update.
pub proof fn law_run_keeps_in_step(
    s: ManagerState,
    run: CodeRunModel,
    reply: Option<MessageModel>,
    inboxes: Seq<Endpoint>,
    after: ManagerState,
    run_after: CodeRunModel,
    step: CodeStepModel,
)
    requires
        s.in_step(),
        s.applies(run, reply, inboxes, after, run_after, step),
    ensures
        after.in_step(),
{
    law_locks_keep_code(s, run.last_asked(), run.id, inboxes[0], reply);
    let t = s.run_answered(run, reply);
    assert(t.in_step());
    if run.asked < run.order.len() {
        law_locks_keep_code(t, run.order[run.asked], run.id, inboxes[0], reply);
    } else {
        law_update_keeps_in_step(t, run.update, inboxes, t.inbox);
    }
}

/// The course of an update: the states and runs it goes through, and what came in on the
/// way.
pub struct CodeCourse {
    pub states: Seq<ManagerState>,
    pub runs: Seq<CodeRunModel>,
    pub replies: Seq<Option<MessageModel>>,
    pub inboxes: Seq<Seq<Endpoint>>,
    pub steps: Seq<CodeStepModel>,
}

impl CodeCourse {
    /// Each state and run follows from the one before by a step.
    pub open spec fn wf(self) -> bool {
        let n = self.steps.len();
        &&& self.states.len() == n + 1
        &&& self.runs.len() == n + 1
        &&& self.replies.len() == n
        &&& self.inboxes.len() == n
        &&& forall|i: int|
            0 <= i < n ==> {
                &&& self.states[i].can_apply(
                    self.runs[i],
                    self.replies[i],
                    self.inboxes[i].len(),
                )
                &&& self.states[i].applies(
                    self.runs[i],
                    self.replies[i],
                    self.inboxes[i],
                    self.states[i + 1],
                    self.runs[i + 1],
                    #[trigger] self.steps[i],
                )
            }
    }
}

proof fn lemma_course_so_far(c: CodeCourse, update: CodeUpdateModel, id: TxnId, i: int)
    requires
        c.wf(),
        c.runs[0].fresh(update, id),
        0 <= i <= c.steps.len(),
    ensures
        c.runs[i].wf(),
        c.runs[i].update == update,
        c.runs[i].order == c.runs[0].order,
        c.runs[i].done ==> i == c.runs[0].order.len() + 1,
        !c.runs[i].done ==> c.runs[i].asked == i && c.states[i].same_code(c.states[0]),
        c.runs[i].done ==> c.states[i].same_code(
            c.states[0].updated(update, c.inboxes[i - 1]),
        ),
    decreases i,
{
    if i > 0 {
        lemma_course_so_far(c, update, id, i - 1);
        assert(c.states[i - 1].applies(
            c.runs[i - 1],
            c.replies[i - 1],
            c.inboxes[i - 1],
            c.states[i - 1 + 1],
            c.runs[i - 1 + 1],
            c.steps[i - 1],
        ));
        law_run_proceeds(
            c.states[i - 1],
            c.runs[i - 1],
            c.replies[i - 1],
            c.inboxes[i - 1],
            c.states[i],
            c.runs[i],
            c.steps[i - 1],
        );
        if c.runs[i].done {
            lemma_same_update(c.states[i - 1], c.states[0], update, c.inboxes[i - 1]);
        }
    }
}

/// Code, dependencies and their reverse stay in step through the whole course of an update,
/// from its first state to its last.
pub proof fn law_course_keeps_in_step(c: CodeCourse, i: int)
    requires
        c.wf(),
        c.states[0].in_step(),
        0 <= i <= c.steps.len(),
    ensures
        c.states[i].in_step(),
    decreases i,
{
    if i > 0 {
        law_course_keeps_in_step(c, i - 1);
        assert(c.states[i - 1].applies(
            c.runs[i - 1],
            c.replies[i - 1],
            c.inboxes[i - 1],
            c.states[i - 1 + 1],
            c.runs[i - 1 + 1],
            c.steps[i - 1],
        ));
        law_run_keeps_in_step(
            c.states[i - 1],
            c.runs[i - 1],
            c.replies[i - 1],
            c.inboxes[i - 1],
            c.states[i],
            c.runs[i],
            c.steps[i - 1],
        );
    }
}

/// Whatever the workers answer on the way, an update of `n` nodes is done after `n + 1`
/// steps, and then the code is that of the update: refused locks, and closed channels,
/// make no difference to it.
pub proof fn law_course_ends_in_update(c: CodeCourse, update: CodeUpdateModel, id: TxnId)
    requires
        c.wf(),
        c.runs[0].fresh(update, id),
        c.steps.len() == c.runs[0].order.len() + 1,
    ensures
        c.runs.last().done,
        c.states.last().same_code(c.states[0].updated(update, c.inboxes.last())),
        forall|i: int|
            0 <= i < c.steps.len() ==> (#[trigger] c.states[i]).same_code(c.states[0]),
{
    let n = c.steps.len() as int;
    lemma_course_so_far(c, update, id, n);
    assert forall|i: int| 0 <= i < n implies (#[trigger] c.states[i]).same_code(c.states[0]) by {
        lemma_course_so_far(c, update, id, i);
    }
}

/// Equal code is updated to equal code.
pub proof fn lemma_same_update(
    a: ManagerState,
    b: ManagerState,
    update: CodeUpdateModel,
    inboxes: Seq<Endpoint>,
)
    requires
        a.same_code(b),
    ensures
        a.emptied(update).same_code(b.emptied(update)),
        a.updated(update, inboxes).same_code(b.updated(update, inboxes)),
{
    let nodes = update.nodes_to_modify;
    let x = ManagerState {
        versions: crate::manager::versions::versions_after(a.versions, update.new_code),
        ..a
    };
    let y = ManagerState {
        versions: crate::manager::versions::versions_after(b.versions, update.new_code),
        ..b
    };
    assert(x.stale(nodes) =~= y.stale(nodes));
    assert(x.without_stale(nodes).reverse =~= y.without_stale(nodes).reverse);
    assert(a.emptied(update).same_code(b.emptied(update)));
    lemma_same_nodes(
        a.emptied(update),
        b.emptied(update),
        translated(a.versions, update.new_code),
        inboxes,
    );
}

proof fn lemma_same_nodes(
    a: ManagerState,
    b: ManagerState,
    codes: Seq<(Seq<char>, crate::expr::ExprModel)>,
    inboxes: Seq<Endpoint>,
)
    requires
        a.same_code(b),
    ensures
        a.with_nodes(codes, inboxes).same_code(b.with_nodes(codes, inboxes)),
    decreases codes.len(),
{
    if codes.len() > 0 {
        lemma_same_nodes(a, b, codes.drop_last(), inboxes);
        let x = a.with_nodes(codes.drop_last(), inboxes);
        let y = b.with_nodes(codes.drop_last(), inboxes);
        let name = codes.last().0;
        let deps = crate::expr::names_in(codes.last().1);
        assert(x.with_user(name, deps) =~= y.with_user(name, deps));
    }
}

impl CodeRun {
    /// An update of which nothing is done yet.
    pub fn new(update: CodeUpdate, txn_id: TxnId) -> (r: Self)
        ensures
            r.deep_view().fresh(update.deep_view(), txn_id),
    {
        let ghost l = update.nodes_to_modify.listing();
        let n: usize = update.nodes_to_modify.len();
        let mut order: Vec<String> = Vec::new();
        let mut i: usize = 0;
        assert(order.deep_view() =~= l.take(0));
        while i < n
            invariant
                i <= n == l.len(),
                l == update.nodes_to_modify.listing(),
                order.deep_view() == l.take(i as int),
            decreases n - i,
        {
            let ghost before = order.deep_view();
            order.push(update.nodes_to_modify.at(i).clone());
            proof {
                assert(order.deep_view() =~= before.push(l[i as int]));
                assert(order.deep_view() =~= l.take(i + 1));
            }
            i = i + 1;
        }
        assert(l.take(n as int) =~= l);
        CodeRun { txn_id, update, order, asked: 0, waiting: false, done: false }
    }
}

impl Manager {
    /// Whether `apply_code_update` can take the answer, with so many addresses of new
    /// channels.
    pub fn can_apply(&self, run: &CodeRun, reply: &Option<Message>, channels: usize) -> (r: bool)
        requires
            run.deep_view().wf(),
        ensures
            r == self.deep_view().can_apply(
                run.deep_view(),
                reply.deep_view(),
                channels as nat,
            ),
    {
        if run.done || channels < 1 || channels < run.update.new_code.len() {
            return false;
        }
        if !self.versions_leave_room(&run.update.new_code) {
            return false;
        }
        if run.waiting {
            assert(run.order.deep_view()[run.asked - 1] == run.order[run.asked - 1]@);
            self.can_finish_upgrade_lock(run.order[run.asked - 1].as_str(), run.txn_id, reply)
        } else {
            true
        }
    }

    /// Brings a code update one step further. `reply` is the answer to the request of the
    /// step before, if it made one; a request that could not be sent has no answer. A lock
    /// that was not granted does not stop the update. `inboxes` are the addresses of
    /// channels that are not in use.
    pub fn apply_code_update(
        &mut self,
        run: &mut CodeRun,
        reply: Option<Message>,
        inboxes: &Vec<Endpoint>,
    ) -> (step: CodeStep)
        requires
            old(run).deep_view().wf(),
            old(self).deep_view().can_apply(
                old(run).deep_view(),
                reply.deep_view(),
                inboxes.len() as nat,
            ),
        ensures
            final(run).deep_view().wf(),
            old(self).deep_view().applies(
                old(run).deep_view(),
                reply.deep_view(),
                inboxes@,
                final(self).deep_view(),
                final(run).deep_view(),
                step.deep_view(),
            ),
    {
        let ghost s = self.deep_view();
        let ghost r = run.deep_view();
        if run.waiting {
            assert(r.order[r.asked - 1] == run.order[run.asked - 1]@);
            let _outcome = self.finish_upgrade_lock(
                run.order[run.asked - 1].as_str(),
                run.txn_id,
                reply,
            );
            proof {
                law_locks_keep_code(s, r.last_asked(), r.id, inboxes[0], reply.deep_view());
            }
        }
        let ghost t = self.deep_view();
        assert(t == s.run_answered(r, reply.deep_view()));
        if run.asked < run.order.len() {
            assert(r.order[r.asked] == run.order[run.asked as int]@);
            let attempt = self.acquire_upgrade_lock(
                run.order[run.asked].as_str(),
                run.txn_id,
                inboxes[0],
            );
            run.waiting = attempt.request.is_some();
            run.asked = run.asked + 1;
            CodeStep::Lock(attempt)
        } else {
            let workers = self.install_code(&run.update, inboxes);
            run.waiting = false;
            run.done = true;
            CodeStep::Installed(workers)
        }
    }
}

} // verus!
