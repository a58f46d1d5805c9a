//! How changes of inputs reach a definition: none is lost, those of one transaction are
//! applied together, and the newest one of an input counts.

use vstd::prelude::*;

#[allow(unused_imports)]
use crate::batch::{
    is_largest_batch, is_latest_at, is_valid_batch, law_batch_keeps_applied, provided, supported,
    touches,
};
#[allow(unused_imports)]
use crate::collections::is_listing;
#[allow(unused_imports)]
use crate::deflaws::{law_definition_grants_oldest, law_messages_keep_filed};
#[allow(unused_imports)]
use crate::defworker::{deps_of, extended_by, lists_each, writes_into, DefState, InputModel};
#[allow(unused_imports)]
use crate::expr::{value_in, ValModel};
#[allow(unused_imports)]
use crate::lock::LockModel;
#[allow(unused_imports)]
use crate::message::{MessageModel, Posted, PropaChangeModel, TxnAndNameModel, WaitingChange};
#[allow(unused_imports)]
use crate::transaction::TxnModel;

verus! {

/// The input `input` depends on a variable that the transaction writes.
pub open spec fn affects(
    txn: TxnModel,
    input: Seq<char>,
    depends: Map<Seq<char>, Set<Seq<char>>>,
) -> bool {
    depends.contains_key(input) && exists|i: int|
        0 <= i < txn.writes.len() && depends[input].contains((#[trigger] txn.writes[i]).name)
}

/// The change at the place `k`, a transaction and an input, that waits once the message is
/// in: the one that the message brings, or else the one that waited before.
pub open spec fn change_at(s: DefState, msg: MessageModel, k: TxnAndNameModel) -> Option<
    PropaChangeModel,
> {
    match msg {
        MessageModel::Propagate { propa_change } if s.replica.contains_key(propa_change.from_name)
            && propa_change.from_name == k.name && propa_change.preds.contains(k.txn) => Some(
            propa_change,
        ),
        _ => if s.waiting.contains_key(k) {
            Some(s.waiting[k].propa_change)
        } else {
            None
        },
    }
}

/// In the round from `s` to `next`, a change of `input` that stems from `txn` is applied: it
/// has come, and waits no longer.
pub open spec fn applied_in(
    s: DefState,
    msg: MessageModel,
    next: DefState,
    txn: TxnModel,
    input: Seq<char>,
) -> bool {
    let k = TxnAndNameModel { txn, name: input };
    change_at(s, msg, k) is Some && !next.waiting.contains_key(k)
}

/// The message, or an answer that waited, tells that the transaction is applied: it is part
/// of the value of an input that is taken over.
pub open spec fn told_applied(s: DefState, msg: MessageModel, txn: TxnModel) -> bool {
    msg matches MessageModel::SubscriptionGranted { provides, .. } && {
        ||| provides.contains(txn)
        ||| s.pending matches Some(p) && exists|n: Seq<char>| #[trigger]
            p.inputs_data.contains_key(n) && p.inputs_data[n] is Some
                && p.inputs_data[n].unwrap().1.contains(txn)
    }
}

/// The transaction counts as applied once the message is in.
pub open spec fn counts_as_applied(s: DefState, msg: MessageModel, txn: TxnModel) -> bool {
    s.pred_txns.contains(txn) || told_applied(s, msg, txn)
}

/// The states are those of successive rounds, each with its message.
pub open spec fn def_rounds(w: Seq<DefState>, msgs: Seq<MessageModel>) -> bool {
    &&& w.len() == msgs.len() + 1
    &&& forall|i: int| 0 <= i < msgs.len() ==> def_round(w[i], #[trigger] msgs[i], w[i + 1])
}

/// The state `next` follows on `s` by a round with the message.
pub open spec fn def_round(s: DefState, msg: MessageModel, next: DefState) -> bool {
    exists|out: Seq<Posted>| s.runs(msg, next, out)
}

/// Each change that waits has to be applied with one at `input`, for each of its
/// transactions that affects `input`.
spec fn waits_for(s: DefState, input: Seq<char>) -> bool {
    forall|k: TxnAndNameModel, t: TxnModel|
        #![trigger s.waiting[k].propa_change.preds.contains(t)]
        s.waiting.contains_key(k) && s.waiting[k].propa_change.preds.contains(t) && affects(
            t,
            input,
            s.depends,
        ) ==> s.waiting[k].deps.contains(TxnAndNameModel { txn: t, name: input })
}

/// Each change that waits has to be applied with those that its transactions bring to
/// other inputs, and with nothing else.
pub open spec fn waits_for_affected(s: DefState) -> bool {
    forall|k: TxnAndNameModel, d: TxnAndNameModel|
        #![trigger s.waiting[k].deps.contains(d)]
        s.waiting.contains_key(k) ==> (s.waiting[k].deps.contains(d) <==> {
            &&& s.waiting[k].propa_change.preds.contains(d.txn)
            &&& affects(d.txn, d.name, s.depends)
        })
}

proof fn lemma_affects(txn: TxnModel, input: Seq<char>, depends: Map<Seq<char>, Set<Seq<char>>>)
    ensures
        affects(txn, input, depends) <==> depends.contains_key(input) && writes_into(
            txn,
            depends[input],
        ),
{
    if depends.contains_key(input) && writes_into(txn, depends[input]) {
        let i = choose|i: int|
            0 <= i < txn.writes.len() && depends[input].contains(#[trigger] txn.writes[i].name);
        assert(depends[input].contains(txn.writes[i].name));
    }
    if affects(txn, input, depends) {
        let i = choose|i: int|
            0 <= i < txn.writes.len() && depends[input].contains((#[trigger] txn.writes[i]).name);
        assert(depends[input].contains(txn.writes[i].name));
    }
}

/// A change that arrives waits at each of its transactions and the input that it comes
/// from, exactly as it came, and numbered behind all that came before; whatever waits
/// elsewhere stays, and no value changes yet. A change of what is no input is ignored.
pub proof fn law_change_is_kept(
    s: DefState,
    change: PropaChangeModel,
    next: DefState,
    out: Seq<Posted>,
)
    requires
        s.accepts(MessageModel::Propagate { propa_change: change }),
        s.handles(MessageModel::Propagate { propa_change: change }, next, out),
    ensures
        out.len() == 0,
        next.value == s.value,
        next.replica == s.replica,
        next.expr == s.expr,
        next.pred_txns == s.pred_txns,
        next.depends == s.depends,
        next.locks == s.locks,
        next.lock_queue == s.lock_queue,
        next == (DefState { waiting: next.waiting, counter: next.counter, ..s }),
        !s.replica.contains_key(change.from_name) ==> next == s,
        s.replica.contains_key(change.from_name) ==> forall|k: TxnAndNameModel|
            if k.name == change.from_name && change.preds.contains(k.txn) {
                &&& #[trigger] next.waiting.contains_key(k)
                &&& next.waiting[k].propa_change == change
                &&& next.waiting[k].propa_id == s.counter + 1
            } else {
                next.waiting.get(k) == s.waiting.get(k)
            },
        s.replica.contains_key(change.from_name) ==> next.counter == s.counter + 1,
{
}

/// A change has to be applied with one at every input that one of its transactions affects,
/// whichever input it comes from itself, and with no others.
pub proof fn law_change_waits_for_affected(
    s: DefState,
    change: PropaChangeModel,
    next: DefState,
    out: Seq<Posted>,
    k: TxnAndNameModel,
    d: TxnAndNameModel,
)
    requires
        s.handles(MessageModel::Propagate { propa_change: change }, next, out),
        s.replica.contains_key(change.from_name),
        k.name == change.from_name,
        change.preds.contains(k.txn),
    ensures
        next.waiting.contains_key(k),
        next.waiting[k].deps.contains(d) <==> change.preds.contains(d.txn) && affects(
            d.txn,
            d.name,
            s.depends,
        ),
{
    lemma_affects(d.txn, d.name, s.depends);
}

/// The parts of a round: the state once the message is handled, what is sent on it, the
/// state once a lock is granted, and the changes that are applied.
proof fn lemma_round_parts(s: DefState, msg: MessageModel, next: DefState) -> (parts: (
    DefState,
    Seq<Posted>,
    DefState,
    Set<TxnAndNameModel>,
))
    requires
        def_round(s, msg, next),
    ensures
        s.handles(msg, parts.0, parts.1),
        parts.2 == (DefState { locks: parts.2.locks, lock_queue: parts.2.lock_queue, ..parts.0 }),
        is_largest_batch(parts.2.waiting, parts.2.pred_txns.to_set(), parts.3),
        if parts.3 == Set::<TxnAndNameModel>::empty() {
            next == parts.2
        } else {
            parts.2.applies_batch(parts.3, next)
        },
{
    let out = choose|out: Seq<Posted>| s.runs(msg, next, out);
    let (handled, first, ticked, rest) = choose|
        handled: DefState,
        first: Seq<Posted>,
        ticked: DefState,
        rest: Seq<Posted>,
    |
        {
            &&& #[trigger] s.handles(msg, handled, first)
            &&& #[trigger] handled.ticks(ticked, rest)
            &&& ticked.settles_batch(next)
            &&& out == first + rest
        };
    let batch = choose|batch: Set<TxnAndNameModel>|
        {
            &&& #[trigger] is_largest_batch(ticked.waiting, ticked.pred_txns.to_set(), batch)
            &&& if batch == Set::<TxnAndNameModel>::empty() {
                next == ticked
            } else {
                ticked.applies_batch(batch, next)
            }
        };
    (handled, first, ticked, batch)
}

proof fn lemma_flatten_member(parts: Seq<Seq<TxnModel>>, t: TxnModel)
    requires
        parts.flatten().contains(t),
    ensures
        exists|j: int| 0 <= j < parts.len() && (#[trigger] parts[j]).contains(t),
    decreases parts.len(),
{
    if parts.len() > 0 {
        let rest = parts.drop_first();
        let i = choose|i: int| 0 <= i < parts.flatten().len() && parts.flatten()[i] == t;
        assert(parts.flatten() == parts.first() + rest.flatten());
        if i < parts.first().len() {
            assert(parts[0].contains(t));
        } else {
            assert(rest.flatten()[i - parts.first().len()] == t);
            lemma_flatten_member(rest, t);
            let j = choose|j: int| 0 <= j < rest.len() && (#[trigger] rest[j]).contains(t);
            assert(parts[j + 1].contains(t));
        }
    } else {
        assert(parts.flatten() == Seq::<TxnModel>::empty());
    }
}

/// What a message does to what waits and counts as applied.
proof fn lemma_handled(
    s: DefState,
    msg: MessageModel,
    handled: DefState,
    out: Seq<Posted>,
    t: TxnModel,
)
    requires
        s.handles(msg, handled, out),
    ensures
        forall|k: TxnAndNameModel| #[trigger]
            handled.waiting.contains_key(k) <==> change_at(s, msg, k) is Some,
        forall|k: TxnAndNameModel| #[trigger]
            handled.waiting.contains_key(k) ==> change_at(s, msg, k) == Some(
                handled.waiting[k].propa_change,
            ),
        handled.pred_txns.contains(t) ==> counts_as_applied(s, msg, t),
        !(msg is SubscriptionGranted) ==> handled.depends == s.depends && handled.pred_txns
            == s.pred_txns,
{
    match msg {
        MessageModel::SubscriptionGranted { name, value, provides, trans_dep_set } => {
            let data = (value, provides, trans_dep_set);
            let told = s.with_input(name, data);
            if handled.pred_txns.contains(t) && !s.pred_txns.contains(t) {
                let i = choose|i: int|
                    0 <= i < handled.pred_txns.len() && handled.pred_txns[i] == t;
                if s.pending is None {
                    let replica = s.replica.insert(name, data.0);
                    let part = choose|part: Seq<TxnModel>| #[trigger]
                        is_listing(part, data.1) && handled == (DefState {
                            replica,
                            depends: s.depends.insert(name, data.2),
                            value: value_in(s.expr, replica),
                            pred_txns: s.pred_txns + part,
                            ..s
                        });
                    if i < s.pred_txns.len() {
                        assert(s.pred_txns[i] == t);
                    } else {
                        assert(part[i - s.pred_txns.len()] == t);
                        assert(part.to_set().contains(t));
                    }
                } else {
                    let p = s.pending->0;
                    let q = told.pending->0;
                    assert(told.ready());
                    let (order, parts) = choose|order: Seq<Seq<char>>, parts: Seq<Seq<TxnModel>>|
                        {
                            &&& #[trigger] is_listing(order, q.inputs_data.dom())
                            &&& lists_each(order, parts, q.inputs_data)
                            &&& handled.pred_txns == told.pred_txns + #[trigger] parts.flatten()
                        };
                    if i < s.pred_txns.len() {
                        assert(s.pred_txns[i] == t);
                    } else {
                        assert(parts.flatten()[i - s.pred_txns.len()] == t);
                        lemma_flatten_member(parts, t);
                        let j = choose|j: int|
                            0 <= j < parts.len() && (#[trigger] parts[j]).contains(t);
                        let n = order[j];
                        assert(is_listing(parts[j], q.inputs_data[n].unwrap().1));
                        assert(parts[j].to_set().contains(t));
                        assert(order.to_set().contains(n));
                        assert(q.inputs_data.contains_key(n));
                        assert(q.inputs_data[n] is Some);
                        if n != name {
                            assert(p.inputs_data.contains_key(n));
                        }
                    }
                }
            }
        },
        _ => {},
    }
}

/// A transaction that a batch brings counts as applied after it, and only such a one.
proof fn lemma_provided_applied(
    s: DefState,
    batch: Set<crate::message::TxnAndNameModel>,
    next: DefState,
    t: TxnModel,
)
    requires
        s.applies_batch(batch, next),
    ensures
        next.pred_txns.contains(t) <==> s.pred_txns.contains(t) || provided(
            s.waiting,
            batch,
        ).contains(t),
{
    let provides = provided(s.waiting, batch);
    let order = choose|order: Seq<TxnModel>| #[trigger]
        is_listing(order, provides.difference(s.pred_txns.to_set())) && next.pred_txns
            == s.pred_txns + order;
    if s.pred_txns.contains(t) {
        let i = choose|i: int| 0 <= i < s.pred_txns.len() && s.pred_txns[i] == t;
        assert(next.pred_txns[i] == t);
    } else if provides.contains(t) {
        assert(order.to_set().contains(t));
        let i = choose|i: int| 0 <= i < order.len() && order[i] == t;
        assert(next.pred_txns[s.pred_txns.len() + i] == t);
    }
    if next.pred_txns.contains(t) && !s.pred_txns.contains(t) {
        let i = choose|i: int| 0 <= i < next.pred_txns.len() && next.pred_txns[i] == t;
        if i < s.pred_txns.len() {
            assert(s.pred_txns[i] == t);
        } else {
            assert(order[i - s.pred_txns.len()] == t);
            assert(order.to_set().contains(t));
        }
    }
}

proof fn lemma_waits_for_kept(
    s: DefState,
    msg: MessageModel,
    next: DefState,
    input: Seq<char>,
)
    requires
        waits_for(s, input),
        def_round(s, msg, next),
        next.depends.get(input) == s.depends.get(input),
    ensures
        waits_for(next, input),
{
    let (handled, first, ticked, batch) = lemma_round_parts(s, msg, next);
    assert(next.depends == handled.depends);
    assert forall|k: TxnAndNameModel, t: TxnModel|
        #![trigger next.waiting[k].propa_change.preds.contains(t)]
        next.waiting.contains_key(k) && next.waiting[k].propa_change.preds.contains(t) && affects(
            t,
            input,
            next.depends,
        ) implies next.waiting[k].deps.contains(TxnAndNameModel { txn: t, name: input }) by {
        assert(handled.waiting.contains_key(k) && handled.waiting[k] == next.waiting[k]);
        assert(s.depends.contains_key(input) && s.depends[input] == next.depends[input]) by {
            assert(s.depends.get(input) == Some(next.depends[input]));
        }
        assert(affects(t, input, s.depends));
        lemma_affects(t, input, s.depends);
        if msg is Propagate && s.replica.contains_key(msg->Propagate_propa_change.from_name) && k.name
            == msg->Propagate_propa_change.from_name
            && msg->Propagate_propa_change.preds.contains(k.txn) {
        } else {
            assert(s.waiting.contains_key(k) && s.waiting[k] == handled.waiting[k]);
            assert(s.waiting[k].propa_change.preds.contains(t));
        }
    }
}

proof fn lemma_waits_throughout(
    w: Seq<DefState>,
    msgs: Seq<MessageModel>,
    n: int,
    input: Seq<char>,
)
    requires
        def_rounds(w, msgs),
        0 <= n <= msgs.len(),
        forall|k: TxnAndNameModel| !(#[trigger] w[0].waiting.contains_key(k)),
        forall|i: int|
            0 <= i <= n ==> (#[trigger] w[i]).depends.get(input) == w[0].depends.get(input),
    ensures
        waits_for(w[n], input),
        w[n].filed(),
    decreases n,
{
    if n > 0 {
        lemma_waits_throughout(w, msgs, n - 1, input);
        assert(def_round(w[n - 1], msgs[n - 1], w[n]));
        assert(w[n].depends.get(input) == w[n - 1].depends.get(input));
        lemma_waits_for_kept(w[n - 1], msgs[n - 1], w[n], input);
        lemma_round_keeps_filed(w[n - 1], msgs[n - 1], w[n]);
    }
}

proof fn lemma_round_keeps_filed(s: DefState, msg: MessageModel, next: DefState)
    requires
        s.filed(),
        def_round(s, msg, next),
    ensures
        next.filed(),
{
    let (handled, first, ticked, batch) = lemma_round_parts(s, msg, next);
    law_messages_keep_filed(s, msg, handled, first);
    assert(ticked.filed());
    if batch != Set::<TxnAndNameModel>::empty() {
        law_batch_keeps_applied(ticked, batch, next);
    }
}

/// Whatever comes in, no input runs ahead of another: where a round applies a change of an
/// input `x` that stems from a transaction `t`, then `t` counted as applied already, or the
/// same round applies a change of `y` that stems from `t`, for every input `y` that depends
/// on a variable which `t` writes. This holds from a state on in which nothing waits, for
/// as long as what is known of `y` stays the same.
pub proof fn law_no_input_runs_ahead(
    w: Seq<DefState>,
    msgs: Seq<MessageModel>,
    n: int,
    t: TxnModel,
    x: Seq<char>,
    y: Seq<char>,
)
    requires
        def_rounds(w, msgs),
        0 <= n < msgs.len(),
        forall|k: TxnAndNameModel| !(#[trigger] w[0].waiting.contains_key(k)),
        forall|i: int|
            0 <= i <= n + 1 ==> (#[trigger] w[i]).depends.get(y) == w[0].depends.get(y),
        applied_in(w[n], msgs[n], w[n + 1], t, x),
        affects(t, y, w[n].depends),
    ensures
        w[n + 1].pred_txns.contains(t),
        counts_as_applied(w[n], msgs[n], t) || applied_in(w[n], msgs[n], w[n + 1], t, y),
{
    let s = w[n];
    let msg = msgs[n];
    let next = w[n + 1];
    lemma_waits_throughout(w, msgs, n, y);
    assert(def_round(s, msg, next));
    assert(next.depends.get(y) == s.depends.get(y)) by {
        assert(w[n].depends.get(y) == w[0].depends.get(y));
        assert(w[n + 1].depends.get(y) == w[0].depends.get(y));
    }
    let (handled, first, ticked, batch) = lemma_round_parts(s, msg, next);
    lemma_handled(s, msg, handled, first, t);
    law_messages_keep_filed(s, msg, handled, first);
    let kx = TxnAndNameModel { txn: t, name: x };
    let ky = TxnAndNameModel { txn: t, name: y };
    assert(handled.waiting.contains_key(kx));
    assert(batch.contains(kx));
    assert(handled.waiting[kx].propa_change.preds.contains(t));
    lemma_affects(t, y, s.depends);
    assert(handled.waiting[kx].deps.contains(ky)) by {
        if s.waiting.contains_key(kx) && s.waiting[kx] == handled.waiting[kx] {
            assert(s.waiting[kx].propa_change.preds.contains(t));
        } else {
            assert(msg is Propagate);
        }
    }
    assert(supported(ticked.waiting[kx], ticked.pred_txns.to_set(), batch));
    lemma_provided_applied(ticked, batch, next, t);
    assert(provided(ticked.waiting, batch).contains(t));
    if !ticked.pred_txns.contains(t) {
        assert(batch.contains(ky));
        assert(ticked.waiting.contains_key(ky));
        assert(!next.waiting.contains_key(ky));
    }
}

/// A transaction comes to count as applied by changes only together with all inputs that it
/// affects.
proof fn lemma_comes_with_all(
    s: DefState,
    msg: MessageModel,
    next: DefState,
    t: TxnModel,
    y: Seq<char>,
)
    requires
        s.filed(),
        waits_for(s, y),
        def_round(s, msg, next),
        !counts_as_applied(s, msg, t),
        next.pred_txns.contains(t),
        affects(t, y, s.depends),
    ensures
        applied_in(s, msg, next, t, y),
{
    let (handled, first, ticked, batch) = lemma_round_parts(s, msg, next);
    lemma_handled(s, msg, handled, first, t);
    assert(!ticked.pred_txns.contains(t));
    assert(ticked.applies_batch(batch, next));
    lemma_provided_applied(ticked, batch, next, t);
    let k = choose|k: TxnAndNameModel| #[trigger]
        batch.contains(k) && ticked.waiting[k].propa_change.preds.contains(t);
    let ky = TxnAndNameModel { txn: t, name: y };
    lemma_affects(t, y, s.depends);
    assert(ticked.waiting.contains_key(k) && supported(
        ticked.waiting[k],
        ticked.pred_txns.to_set(),
        batch,
    ));
    assert(handled.waiting[k].deps.contains(ky)) by {
        if s.waiting.contains_key(k) && s.waiting[k] == handled.waiting[k] {
            assert(s.waiting[k].propa_change.preds.contains(t));
        } else {
            assert(msg is Propagate);
        }
    }
    assert(batch.contains(ky));
    assert(ticked.waiting.contains_key(ky));
}

/// After the first `n` rounds the value that is held for `input` includes `txn`: a change of
/// `input` that stems from `txn` was applied.
pub open spec fn includes(
    w: Seq<DefState>,
    msgs: Seq<MessageModel>,
    n: int,
    txn: TxnModel,
    input: Seq<char>,
) -> bool {
    exists|i: int|
        0 <= i < n && #[trigger] applied_in(w[i], msgs[i], w[i + 1], txn, input)
}

proof fn lemma_applied_means_included(
    w: Seq<DefState>,
    msgs: Seq<MessageModel>,
    n: int,
    t: TxnModel,
    y: Seq<char>,
)
    requires
        def_rounds(w, msgs),
        0 <= n <= msgs.len(),
        forall|k: TxnAndNameModel| !(#[trigger] w[0].waiting.contains_key(k)),
        !w[0].pred_txns.contains(t),
        affects(t, y, w[0].depends),
        forall|i: int| 0 <= i <= n ==> (#[trigger] w[i]).depends.get(y) == w[0].depends.get(y),
        forall|i: int| 0 <= i < n ==> !told_applied(w[i], #[trigger] msgs[i], t),
        w[n].pred_txns.contains(t),
    ensures
        includes(w, msgs, n, t, y),
    decreases n,
{
    if n > 0 {
        let i = n - 1;
        if w[i].pred_txns.contains(t) {
            lemma_applied_means_included(w, msgs, i, t, y);
            let j = choose|j: int|
                0 <= j < i && #[trigger] applied_in(w[j], msgs[j], w[j + 1], t, y);
            assert(applied_in(w[j], msgs[j], w[j + 1], t, y));
        } else {
            lemma_waits_throughout(w, msgs, i, y);
            assert(def_round(w[i], msgs[i], w[i + 1]));
            assert(!told_applied(w[i], msgs[i], t));
            assert(w[i].depends.get(y) == w[0].depends.get(y));
            assert(w[0].depends.get(y) == Some(w[0].depends[y]));
            assert(affects(t, y, w[i].depends));
            lemma_comes_with_all(w[i], msgs[i], w[n], t, y);
            assert(applied_in(w[i], msgs[i], w[i + 1], t, y));
        }
    }
}

/// After every round, of two inputs that depend on variables which a transaction writes,
/// either both hold values that include the transaction or neither does: the definition is
/// never computed from one input before and another after the same transaction.
pub proof fn law_inputs_agree_on_transactions(
    w: Seq<DefState>,
    msgs: Seq<MessageModel>,
    n: int,
    t: TxnModel,
    x: Seq<char>,
    y: Seq<char>,
)
    requires
        def_rounds(w, msgs),
        0 <= n <= msgs.len(),
        forall|k: TxnAndNameModel| !(#[trigger] w[0].waiting.contains_key(k)),
        !w[0].pred_txns.contains(t),
        affects(t, x, w[0].depends),
        affects(t, y, w[0].depends),
        forall|i: int| 0 <= i <= n ==> (#[trigger] w[i]).depends.get(x) == w[0].depends.get(x),
        forall|i: int| 0 <= i <= n ==> (#[trigger] w[i]).depends.get(y) == w[0].depends.get(y),
        forall|i: int| 0 <= i < n ==> !told_applied(w[i], #[trigger] msgs[i], t),
    ensures
        includes(w, msgs, n, t, x) <==> includes(w, msgs, n, t, y),
        includes(w, msgs, n, t, x) <==> w[n].pred_txns.contains(t),
{
    if includes(w, msgs, n, t, x) {
        lemma_included_means_applied(w, msgs, n, t, x);
        lemma_applied_means_included(w, msgs, n, t, y);
    }
    if includes(w, msgs, n, t, y) {
        lemma_included_means_applied(w, msgs, n, t, y);
        lemma_applied_means_included(w, msgs, n, t, x);
    }
    if w[n].pred_txns.contains(t) {
        lemma_applied_means_included(w, msgs, n, t, x);
    }
}

proof fn lemma_included_means_applied(
    w: Seq<DefState>,
    msgs: Seq<MessageModel>,
    n: int,
    t: TxnModel,
    x: Seq<char>,
)
    requires
        def_rounds(w, msgs),
        0 <= n <= msgs.len(),
        forall|k: TxnAndNameModel| !(#[trigger] w[0].waiting.contains_key(k)),
        affects(t, x, w[0].depends),
        forall|i: int| 0 <= i <= n ==> (#[trigger] w[i]).depends.get(x) == w[0].depends.get(x),
        includes(w, msgs, n, t, x),
    ensures
        w[n].pred_txns.contains(t),
    decreases n,
{
    if n > 0 {
        let i = n - 1;
        assert(def_round(w[i], msgs[i], w[i + 1]));
        if applied_in(w[i], msgs[i], w[i + 1], t, x) {
            assert(w[i].depends.get(x) == w[0].depends.get(x));
            assert(w[0].depends.get(x) == Some(w[0].depends[x]));
            assert(affects(t, x, w[i].depends));
            law_no_input_runs_ahead(w, msgs, i, t, x, x);
        } else {
            let j = choose|j: int|
                0 <= j < n && #[trigger] applied_in(w[j], msgs[j], w[j + 1], t, x);
            assert(applied_in(w[j], msgs[j], w[j + 1], t, x));
            assert(includes(w, msgs, i, t, x));
            lemma_included_means_applied(w, msgs, i, t, x);
            law_applied_stays(w[i], msgs[i], w[n], t);
        }
    }
}

/// What counts as applied does so after every round.
pub proof fn law_applied_stays(s: DefState, msg: MessageModel, next: DefState, t: TxnModel)
    requires
        def_round(s, msg, next),
        s.pred_txns.contains(t),
    ensures
        next.pred_txns.contains(t),
{
    let (handled, first, ticked, batch) = lemma_round_parts(s, msg, next);
    let i = choose|i: int| 0 <= i < s.pred_txns.len() && s.pred_txns[i] == t;
    assert(i < handled.pred_txns.len() && handled.pred_txns[i] == t);
    assert(i < next.pred_txns.len() && next.pred_txns[i] == t);
}

/// No change that waits is numbered beyond the last one that came.
pub open spec fn numbered(s: DefState) -> bool {
    forall|k: TxnAndNameModel| #[trigger]
        s.waiting.contains_key(k) ==> s.waiting[k].propa_id <= s.counter
}

/// Changes are numbered in the order in which they come, through every round.
pub proof fn law_rounds_keep_numbers(s: DefState, msg: MessageModel, next: DefState)
    requires
        numbered(s),
        s.accepts(msg),
        def_round(s, msg, next),
    ensures
        numbered(next),
        next.counter >= s.counter,
{
    let (handled, first, ticked, batch) = lemma_round_parts(s, msg, next);
    assert forall|k: TxnAndNameModel| #[trigger] next.waiting.contains_key(
        k,
    ) implies next.waiting[k].propa_id <= next.counter by {
        assert(handled.waiting.contains_key(k));
        if s.waiting.contains_key(k) {
            assert(s.waiting[k].propa_id <= s.counter);
        }
    }
}

/// Of the changes of an input, the newest one counts: where the change that just came is
/// applied, the value held for its input is the one that it brings, whatever else of this
/// input is applied with it.
pub proof fn law_newest_change_counts(
    s: DefState,
    change: PropaChangeModel,
    next: DefState,
    t: TxnModel,
)
    requires
        s.filed(),
        numbered(s),
        s.accepts(MessageModel::Propagate { propa_change: change }),
        s.replica.contains_key(change.from_name),
        change.preds.contains(t),
        def_round(s, MessageModel::Propagate { propa_change: change }, next),
        applied_in(s, MessageModel::Propagate { propa_change: change }, next, t, change.from_name),
    ensures
        next.replica.contains_key(change.from_name),
        next.replica[change.from_name] == Some(change.new_val),
        next.value == value_in(s.expr, next.replica),
{
    let msg = MessageModel::Propagate { propa_change: change };
    let (handled, first, ticked, batch) = lemma_round_parts(s, msg, next);
    let n = change.from_name;
    let k = TxnAndNameModel { txn: t, name: n };
    assert(handled.waiting.contains_key(k) && handled.waiting[k].propa_change == change);
    assert(batch.contains(k));
    assert(touches(ticked.waiting, batch, n));
    assert(ticked.replica.contains_key(n));
    let top = choose|top: TxnAndNameModel| #[trigger]
        is_latest_at(ticked.waiting, batch, n, top) && next.replica[n] == Some(
            ticked.waiting[top].propa_change.new_val,
        );
    assert(ticked.waiting[k].propa_id <= ticked.waiting[top].propa_id);
    assert(ticked.waiting.contains_key(top));
    if !(top.name == n && change.preds.contains(top.txn)) {
        assert(s.waiting.contains_key(top) && s.waiting[top].propa_id <= s.counter);
    }
    assert(next.replica.dom().contains(n));
}

/// The value held for an input changes only where a change of it is applied, and then to
/// what such a change brings: of those that waited, to what the last one brings. This holds of every message but those that bring new code or
/// the answer of an input.
pub proof fn law_inputs_change_by_changes(
    s: DefState,
    msg: MessageModel,
    next: DefState,
    input: Seq<char>,
)
    requires
        s.filed(),
        !(msg is SubscriptionGranted),
        !(msg is DefWorkerUpdate),
        def_round(s, msg, next),
        s.replica.contains_key(input),
    ensures
        next.replica.contains_key(input),
        (forall|t: TxnModel| !(#[trigger] applied_in(s, msg, next, t, input)))
            ==> next.replica[input] == s.replica[input],
        (exists|t: TxnModel| #[trigger] applied_in(s, msg, next, t, input)) ==> exists|t: TxnModel|
            {
                &&& #[trigger] applied_in(s, msg, next, t, input)
                &&& next.replica[input] == Some(
                    change_at(s, msg, TxnAndNameModel { txn: t, name: input })->0.new_val,
                )
                &&& !(msg is Propagate) ==> forall|u: TxnModel| #[trigger]
                    applied_in(s, msg, next, u, input) ==> s.waiting[TxnAndNameModel {
                        txn: u,
                        name: input,
                    }].propa_id <= s.waiting[TxnAndNameModel { txn: t, name: input }].propa_id
            },
{
    let (handled, first, ticked, batch) = lemma_round_parts(s, msg, next);
    lemma_handled(s, msg, handled, first, arbitrary());
    law_messages_keep_filed(s, msg, handled, first);
    assert(handled.replica == s.replica);
    if batch != Set::<TxnAndNameModel>::empty() {
        assert(next.replica.dom().contains(input));
        if touches(ticked.waiting, batch, input) {
            let top = choose|top: TxnAndNameModel| #[trigger]
                is_latest_at(ticked.waiting, batch, input, top) && next.replica[input] == Some(
                    ticked.waiting[top].propa_change.new_val,
                );
            assert(ticked.waiting.contains_key(top));
            assert(top.name == input);
            assert(top == TxnAndNameModel { txn: top.txn, name: input });
            assert(applied_in(s, msg, next, top.txn, input));
            if !(msg is Propagate) {
                assert(handled.waiting == s.waiting);
                assert forall|u: TxnModel| #[trigger]
                    applied_in(s, msg, next, u, input) implies s.waiting[TxnAndNameModel {
                    txn: u,
                    name: input,
                }].propa_id <= s.waiting[top].propa_id by {
                    assert(batch.contains(TxnAndNameModel { txn: u, name: input }));
                }
            }
        } else if exists|t: TxnModel| #[trigger] applied_in(s, msg, next, t, input) {
            let t = choose|t: TxnModel| #[trigger] applied_in(s, msg, next, t, input);
            let k = TxnAndNameModel { txn: t, name: input };
            assert(handled.waiting.contains_key(k));
            assert(batch.contains(k));
        }
    } else if exists|t: TxnModel| #[trigger] applied_in(s, msg, next, t, input) {
        let t = choose|t: TxnModel| #[trigger] applied_in(s, msg, next, t, input);
        let k = TxnAndNameModel { txn: t, name: input };
        assert(handled.waiting.contains_key(k));
    }
}

/// After a round that applies a change, the definition's value is that of its code on the
/// values held for its inputs, and a round that applies none leaves it. This holds of every
/// message but those that bring new code or the answer of an input.
pub proof fn law_value_follows_changes(s: DefState, msg: MessageModel, next: DefState)
    requires
        s.filed(),
        !(msg is SubscriptionGranted),
        !(msg is DefWorkerUpdate),
        def_round(s, msg, next),
    ensures
        next.expr == s.expr,
        (exists|t: TxnModel, n: Seq<char>| #[trigger] applied_in(s, msg, next, t, n))
            ==> next.value == value_in(s.expr, next.replica),
        (forall|t: TxnModel, n: Seq<char>| !(#[trigger] applied_in(s, msg, next, t, n)))
            ==> next.value == s.value && next.replica == s.replica && next.pred_txns
            == s.pred_txns,
{
    let (handled, first, ticked, batch) = lemma_round_parts(s, msg, next);
    lemma_handled(s, msg, handled, first, arbitrary());
    if batch != Set::<TxnAndNameModel>::empty() {
        let k = choose|k: TxnAndNameModel| batch.contains(k);
        assert(exists|k: TxnAndNameModel| batch.contains(k)) by {
            if forall|k: TxnAndNameModel| !batch.contains(k) {
                assert(batch =~= Set::<TxnAndNameModel>::empty());
            }
        }
        assert(ticked.waiting.contains_key(k));
        assert(k == TxnAndNameModel { txn: k.txn, name: k.name });
        assert(applied_in(s, msg, next, k.txn, k.name));
    } else if exists|t: TxnModel, n: Seq<char>| #[trigger] applied_in(s, msg, next, t, n) {
        let (t, n) = choose|t: TxnModel, n: Seq<char>| #[trigger] applied_in(s, msg, next, t, n);
        assert(handled.waiting.contains_key(TxnAndNameModel { txn: t, name: n }));
    }
}

/// What a round keeps of the rule for which changes go together.
pub proof fn law_rounds_keep_waiting_rule(s: DefState, msg: MessageModel, next: DefState)
    requires
        waits_for_affected(s),
        !(msg is SubscriptionGranted),
        def_round(s, msg, next),
    ensures
        waits_for_affected(next),
{
    let (handled, first, ticked, batch) = lemma_round_parts(s, msg, next);
    assert(next.depends == s.depends);
    assert forall|k: TxnAndNameModel, d: TxnAndNameModel|
        #![trigger next.waiting[k].deps.contains(d)]
        next.waiting.contains_key(k) implies (next.waiting[k].deps.contains(d) <==> {
        &&& next.waiting[k].propa_change.preds.contains(d.txn)
        &&& affects(d.txn, d.name, next.depends)
    }) by {
        lemma_affects(d.txn, d.name, s.depends);
        assert(handled.waiting.contains_key(k) && handled.waiting[k] == next.waiting[k]);
        if s.waiting.contains_key(k) {
            assert(s.waiting[k].deps.contains(d) || !s.waiting[k].deps.contains(d));
        }
    }
}

/// Nothing waits that could be applied: where, among the changes at hand, some are such that
/// for each of their transactions, and each input that it affects, the transaction counts as
/// applied or the change at this input is one of them, the round applies them all.
pub proof fn law_complete_changes_are_applied(
    s: DefState,
    msg: MessageModel,
    next: DefState,
    together: Set<TxnAndNameModel>,
)
    requires
        waits_for_affected(s),
        !(msg is SubscriptionGranted),
        def_round(s, msg, next),
        forall|k: TxnAndNameModel| #[trigger]
            together.contains(k) ==> change_at(s, msg, k) is Some,
        forall|k: TxnAndNameModel, d: TxnAndNameModel|
            #![trigger together.contains(k), together.contains(d)]
            together.contains(k) && change_at(s, msg, k)->0.preds.contains(d.txn) && affects(
                d.txn,
                d.name,
                s.depends,
            ) ==> s.pred_txns.contains(d.txn) || together.contains(d),
    ensures
        forall|k: TxnAndNameModel| #[trigger] together.contains(k) ==> !next.waiting.contains_key(k),
{
    let (handled, first, ticked, batch) = lemma_round_parts(s, msg, next);
    lemma_handled(s, msg, handled, first, arbitrary());
    assert forall|k: TxnAndNameModel| #[trigger]
        together.contains(k) implies ticked.waiting.contains_key(k) && supported(
        ticked.waiting[k],
        ticked.pred_txns.to_set(),
        together,
    ) by {
        assert(change_at(s, msg, k) is Some);
        assert(handled.waiting.contains_key(k));
        assert forall|d: TxnAndNameModel| #[trigger]
            ticked.waiting[k].deps.contains(d) implies ticked.pred_txns.to_set().contains(d.txn)
            || together.contains(d) by {
            lemma_affects(d.txn, d.name, s.depends);
            assert(change_at(s, msg, k)->0.preds.contains(d.txn) && affects(
                d.txn,
                d.name,
                s.depends,
            )) by {
                if s.waiting.contains_key(k) {
                    assert(s.waiting[k].deps.contains(d) || !s.waiting[k].deps.contains(d));
                }
            }
            assert(together.contains(d) || !together.contains(d));
        }
    }
    assert(is_valid_batch(ticked.waiting, ticked.pred_txns.to_set(), together));
    assert(together.subset_of(batch));
}

/// The transactions of the last batch are those that the changes applied in the round stem
/// from, and together with those that counted before they are all that count as applied.
pub proof fn law_batch_is_remembered(s: DefState, msg: MessageModel, next: DefState, t: TxnModel)
    requires
        s.filed(),
        !(msg is SubscriptionGranted),
        def_round(s, msg, next),
        exists|u: TxnModel, n: Seq<char>| #[trigger] applied_in(s, msg, next, u, n),
    ensures
        next.prev_batch_provides.contains(t) <==> stems_from(s, msg, next, t),
        next.pred_txns.contains(t) <==> s.pred_txns.contains(t) || stems_from(s, msg, next, t),
{
    let (handled, first, ticked, batch) = lemma_round_parts(s, msg, next);
    lemma_handled(s, msg, handled, first, t);
    let (u, n) = choose|u: TxnModel, n: Seq<char>| #[trigger] applied_in(s, msg, next, u, n);
    assert(handled.waiting.contains_key(TxnAndNameModel { txn: u, name: n }));
    assert(ticked.applies_batch(batch, next));
    lemma_provided_applied(ticked, batch, next, t);
    if provided(ticked.waiting, batch).contains(t) {
        let k = choose|k: TxnAndNameModel| #[trigger]
            batch.contains(k) && ticked.waiting[k].propa_change.preds.contains(t);
        assert(ticked.waiting.contains_key(k));
        assert(handled.waiting.contains_key(k));
        assert(change_at(s, msg, k) is Some && !next.waiting.contains_key(k));
    }
    if stems_from(s, msg, next, t) {
        let k = choose|k: TxnAndNameModel|
            (#[trigger] change_at(s, msg, k)) is Some && !next.waiting.contains_key(k)
                && change_at(s, msg, k)->0.preds.contains(t);
        assert(handled.waiting.contains_key(k));
        assert(batch.contains(k));
    }
}

/// A change that the round applies stems from the transaction.
pub open spec fn stems_from(s: DefState, msg: MessageModel, next: DefState, t: TxnModel) -> bool {
    exists|k: TxnAndNameModel|
        (#[trigger] change_at(s, msg, k)) is Some && !next.waiting.contains_key(k) && change_at(
            s,
            msg,
            k,
        )->0.preds.contains(t)
}

proof fn lemma_flatten_has(parts: Seq<Seq<TxnModel>>, j: int, t: TxnModel)
    requires
        0 <= j < parts.len(),
        parts[j].contains(t),
    ensures
        parts.flatten().contains(t),
    decreases parts.len(),
{
    let rest = parts.drop_first();
    assert(parts.flatten() == parts.first() + rest.flatten());
    if j == 0 {
        let i = choose|i: int| 0 <= i < parts[0].len() && parts[0][i] == t;
        assert(parts.flatten()[i] == t);
    } else {
        assert(rest[j - 1] == parts[j]);
        lemma_flatten_has(rest, j - 1, t);
        let i = choose|i: int| 0 <= i < rest.flatten().len() && rest.flatten()[i] == t;
        assert(parts.flatten()[parts.first().len() + i] == t);
    }
}

/// Once the last new input has answered, the transactions that count as applied are those
/// that did before and those that one of the new inputs includes.
pub proof fn law_takeover_counts_answers(
    s: DefState,
    name: Seq<char>,
    data: InputModel,
    next: DefState,
    out: Seq<Posted>,
    t: TxnModel,
)
    requires
        s.pending is Some,
        (s.pending->0).inputs_data.contains_key(name),
        (s.pending->0).inputs_data[name] is None,
        forall|k: Seq<char>| #[trigger]
            (s.pending->0).inputs_data.contains_key(k) && k != name
                ==> (s.pending->0).inputs_data[k] is Some,
        s.handles(
            MessageModel::SubscriptionGranted {
                name,
                value: data.0,
                provides: data.1,
                trans_dep_set: data.2,
            },
            next,
            out,
        ),
    ensures
        next.pred_txns.contains(t) <==> {
            ||| s.pred_txns.contains(t)
            ||| data.1.contains(t)
            ||| exists|n: Seq<char>| #[trigger]
                (s.pending->0).inputs_data.contains_key(n) && (
                s.pending->0).inputs_data[n] is Some && (s.pending->0).inputs_data[n].unwrap().1.contains(t)
        },
{
    let msg = MessageModel::SubscriptionGranted {
        name,
        value: data.0,
        provides: data.1,
        trans_dep_set: data.2,
    };
    lemma_handled(s, msg, next, out, t);
    let p = s.pending->0;
    let told = s.with_input(name, data);
    let q = told.pending->0;
    assert forall|k: Seq<char>| #[trigger] q.inputs_data.contains_key(
        k,
    ) implies q.inputs_data[k] is Some by {
        if k != name {
            assert(p.inputs_data.contains_key(k));
        }
    }
    assert(told.ready());
    let (order, parts) = choose|order: Seq<Seq<char>>, parts: Seq<Seq<TxnModel>>|
        {
            &&& #[trigger] is_listing(order, q.inputs_data.dom())
            &&& lists_each(order, parts, q.inputs_data)
            &&& next.pred_txns == told.pred_txns + #[trigger] parts.flatten()
        };
    if s.pred_txns.contains(t) {
        let i = choose|i: int| 0 <= i < s.pred_txns.len() && s.pred_txns[i] == t;
        assert(next.pred_txns[i] == t);
    }
    let inside = data.1.contains(t) || exists|n: Seq<char>| #[trigger]
        p.inputs_data.contains_key(n) && p.inputs_data[n] is Some
            && p.inputs_data[n].unwrap().1.contains(t);
    if inside {
        let n = if data.1.contains(t) {
            name
        } else {
            choose|n: Seq<char>| #[trigger]
                p.inputs_data.contains_key(n) && p.inputs_data[n] is Some
                    && p.inputs_data[n].unwrap().1.contains(t)
        };
        assert(q.inputs_data.dom().contains(n));
        assert(order.to_set().contains(n));
        let j = choose|j: int| 0 <= j < order.len() && order[j] == n;
        assert(is_listing(parts[j], q.inputs_data[n].unwrap().1));
        assert(parts[j].to_set().contains(t));
        lemma_flatten_has(parts, j, t);
        let i = choose|i: int| 0 <= i < parts.flatten().len() && parts.flatten()[i] == t;
        assert(next.pred_txns[s.pred_txns.len() + i] == t);
    }
}

/// In one round, what the message itself is answered stands before the grant of a lock that
/// waited, and nothing else is sent.
pub proof fn law_definition_answers_before_grant(
    s: DefState,
    txn: TxnModel,
    required: Set<TxnModel>,
    next: DefState,
    out: Seq<Posted>,
)
    requires
        s.runs(MessageModel::UsrReadDefRequest { txn, required }, next, out),
    ensures
        out.len() > 0,
        out[0].to == s.manager,
        out[0].msg is UsrReadDefResult,
        out[0].msg->UsrReadDefResult_result == s.value,
        out.len() <= 2,
        out.len() == 2 <==> exists|l: LockModel| #[trigger] s.lock_queue.contains(l),
        out.len() == 2 ==> out[1].msg is VarLockGranted,
{
    let msg = MessageModel::UsrReadDefRequest { txn, required };
    let (handled, first, ticked, rest) = choose|
        handled: DefState,
        first: Seq<Posted>,
        ticked: DefState,
        rest: Seq<Posted>,
    |
        {
            &&& #[trigger] s.handles(msg, handled, first)
            &&& #[trigger] handled.ticks(ticked, rest)
            &&& ticked.settles_batch(next)
            &&& out == first + rest
        };
    law_definition_grants_oldest(handled, ticked, rest);
    assert(out[0] == first[0]);
    if exists|l: LockModel| #[trigger] s.lock_queue.contains(l) {
        let l = choose|l: LockModel| #[trigger] s.lock_queue.contains(l);
        assert(handled.lock_queue.contains(l));
        assert(out[1] == rest[0]);
    } else {
        assert forall|l: LockModel| !(#[trigger] handled.lock_queue.contains(l)) by {
            assert(!s.lock_queue.contains(l));
        }
    }
}

/// After every round, whatever the message, no changes wait that could have been applied
/// together: among any that wait there is one that has to be applied with a change which is
/// not among them, of a transaction that did not count as applied.
pub proof fn law_nothing_complete_waits(
    s: DefState,
    msg: MessageModel,
    next: DefState,
    some: Set<TxnAndNameModel>,
    one: TxnAndNameModel,
)
    requires
        def_round(s, msg, next),
        some.contains(one),
        forall|k: TxnAndNameModel| #[trigger] some.contains(k) ==> next.waiting.contains_key(k),
    ensures
        exists|k: TxnAndNameModel, d: TxnAndNameModel|
            {
                &&& some.contains(k)
                &&& #[trigger] next.waiting[k].deps.contains(d)
                &&& !some.contains(d)
                &&& !s.pred_txns.contains(d.txn)
            },
{
    let (handled, first, ticked, batch) = lemma_round_parts(s, msg, next);
    assert forall|t: TxnModel| s.pred_txns.contains(t) implies #[trigger] ticked.pred_txns.contains(
        t,
    ) by {
        let i = choose|i: int| 0 <= i < s.pred_txns.len() && s.pred_txns[i] == t;
        assert(i < ticked.pred_txns.len() && ticked.pred_txns[i] == t);
    }
    if forall|k: TxnAndNameModel, d: TxnAndNameModel|
        some.contains(k) && #[trigger] next.waiting[k].deps.contains(d) ==> some.contains(d)
            || s.pred_txns.contains(d.txn) {
        assert forall|k: TxnAndNameModel| #[trigger]
            some.contains(k) implies ticked.waiting.contains_key(k) && supported(
            ticked.waiting[k],
            ticked.pred_txns.to_set(),
            some,
        ) by {
            assert(next.waiting.contains_key(k));
            assert(next.waiting[k] == ticked.waiting[k]);
            assert forall|d: TxnAndNameModel| #[trigger]
                ticked.waiting[k].deps.contains(d) implies ticked.pred_txns.to_set().contains(d.txn)
                || some.contains(d) by {
                assert(next.waiting[k].deps.contains(d));
                if s.pred_txns.contains(d.txn) {
                    assert(ticked.pred_txns.contains(d.txn));
                }
            }
        }
        assert(is_valid_batch(ticked.waiting, ticked.pred_txns.to_set(), some));
        assert(some.subset_of(batch));
        assert(batch.contains(one));
        assert(next.waiting.contains_key(one));
        assert(false);
    }
}

} // verus!
