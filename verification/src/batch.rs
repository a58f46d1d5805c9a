//! Batches of changes: changes of a definition's inputs that stem from the same
//! transactions are applied together, so that no value is computed from a mixture of old
//! and new inputs.

use vstd::prelude::*;

use crate::collections::{Dup, Entry, ListMap, ListSet};
#[allow(unused_imports)]
use crate::collections::{is_listing, lemma_take_contains};
use crate::defworker::DefWorker;
#[allow(unused_imports)]
use crate::defworker::DefState;
use crate::expr::{evaluate_expr, Val};
#[allow(unused_imports)]
use crate::expr::{value_in, ValModel};
#[allow(unused_imports)]
use crate::message::{MessageModel, Posted, TxnAndNameModel, WaitingChange};
use crate::message::{Envelope, Message, TxnAndName, _PropaChange};
use crate::transaction::Txn;
#[allow(unused_imports)]
use crate::transaction::TxnModel;

verus! {

/// The changes that wait, each under its transactions and the input that it comes from.
pub type Waiting = Map<TxnAndNameModel, WaitingChange>;

/// What `change` has to be applied with is applied already, or is in `batch`.
pub open spec fn supported(
    change: WaitingChange,
    applied: Set<TxnModel>,
    batch: Set<TxnAndNameModel>,
) -> bool {
    forall|d: TxnAndNameModel| #[trigger]
        change.deps.contains(d) ==> applied.contains(d.txn) || batch.contains(d)
}

/// The changes in `batch` can be applied together.
pub open spec fn is_valid_batch(
    waiting: Waiting,
    applied: Set<TxnModel>,
    batch: Set<TxnAndNameModel>,
) -> bool {
    forall|k: TxnAndNameModel| #[trigger]
        batch.contains(k) ==> waiting.contains_key(k) && supported(waiting[k], applied, batch)
}

/// `batch` is valid, and every valid batch is a part of it.
pub open spec fn is_largest_batch(
    waiting: Waiting,
    applied: Set<TxnModel>,
    batch: Set<TxnAndNameModel>,
) -> bool {
    &&& is_valid_batch(waiting, applied, batch)
    &&& forall|other: Set<TxnAndNameModel>| #[trigger]
        is_valid_batch(waiting, applied, other) ==> other.subset_of(batch)
}

/// The transactions that the changes in `batch` stem from.
pub open spec fn provided(waiting: Waiting, batch: Set<TxnAndNameModel>) -> Set<TxnModel> {
    Set::new(
        |t: TxnModel|
            exists|k: TxnAndNameModel| #[trigger]
                batch.contains(k) && waiting[k].propa_change.preds.contains(t),
    )
}

/// The change under `k` is the latest one in `batch` of the input `name`.
pub open spec fn is_latest_at(
    waiting: Waiting,
    batch: Set<TxnAndNameModel>,
    name: Seq<char>,
    k: TxnAndNameModel,
) -> bool {
    &&& batch.contains(k)
    &&& waiting[k].propa_change.from_name == name
    &&& forall|other: TxnAndNameModel| #[trigger]
        batch.contains(other) && waiting[other].propa_change.from_name == name
            ==> waiting[other].propa_id <= waiting[k].propa_id
}

/// Some change in `batch` comes from the input `name`.
pub open spec fn touches(waiting: Waiting, batch: Set<TxnAndNameModel>, name: Seq<char>) -> bool {
    exists|k: TxnAndNameModel| #[trigger]
        batch.contains(k) && waiting[k].propa_change.from_name == name
}

/// `after` is `replica` with the latest value in `batch` for each input that it touches.
pub open spec fn brings_values(
    waiting: Waiting,
    batch: Set<TxnAndNameModel>,
    replica: Map<Seq<char>, Option<ValModel>>,
    after: Map<Seq<char>, Option<ValModel>>,
) -> bool {
    &&& after.dom() == replica.dom()
    &&& forall|n: Seq<char>| #[trigger]
        replica.contains_key(n) ==> if touches(waiting, batch, n) {
            exists|k: TxnAndNameModel| #[trigger]
                is_latest_at(waiting, batch, n, k) && after[n] == Some(
                    waiting[k].propa_change.new_val,
                )
        } else {
            after[n] == replica[n]
        }
}

impl DefState {
    /// `next` is the state after the batch was applied: the inputs have their new values,
    /// the definition's value is computed from them, the transactions count as applied, and
    /// the changes wait no longer.
    pub open spec fn applies_batch(self, batch: Set<TxnAndNameModel>, next: DefState) -> bool {
        let provides = provided(self.waiting, batch);
        &&& brings_values(self.waiting, batch, self.replica, next.replica)
        &&& exists|order: Seq<TxnModel>| #[trigger]
            is_listing(order, provides.difference(self.pred_txns.to_set())) && next.pred_txns
                == self.pred_txns + order
        &&& next == DefState {
            replica: next.replica,
            value: value_in(self.expr, next.replica),
            pred_txns: next.pred_txns,
            prev_batch_provides: provides,
            waiting: self.waiting.remove_keys(batch),
            ..self
        }
    }

    /// `next` is the state after the largest valid batch was applied, if it is not empty.
    pub open spec fn settles_batch(self, next: DefState) -> bool {
        exists|batch: Set<TxnAndNameModel>|
            {
                &&& #[trigger] is_largest_batch(self.waiting, self.pred_txns.to_set(), batch)
                &&& if batch == Set::<TxnAndNameModel>::empty() {
                    next == self
                } else {
                    self.applies_batch(batch, next)
                }
            }
    }

    /// `next` and `out` are the state and the messages after one round: the message is
    /// handled, a lock is granted if one waits, and the changes that can be are applied.
    pub open spec fn runs(self, msg: MessageModel, next: DefState, out: Seq<Posted>) -> bool {
        exists|handled: DefState, first: Seq<Posted>, ticked: DefState, rest: Seq<Posted>|
            {
                &&& #[trigger] self.handles(msg, handled, first)
                &&& #[trigger] handled.ticks(ticked, rest)
                &&& ticked.settles_batch(next)
                &&& out == first + rest
            }
    }

    /// Each change waits under a transaction of its own, at the input that it comes from.
    pub open spec fn filed(self) -> bool {
        forall|k: TxnAndNameModel| #[trigger]
            self.waiting.contains_key(k) ==> self.waiting[k].propa_change.preds.contains(k.txn)
                && self.waiting[k].propa_change.from_name == k.name
    }
}

/// Of two valid batches, all changes can be applied together.
pub proof fn law_valid_batches_join(
    waiting: Waiting,
    applied: Set<TxnModel>,
    a: Set<TxnAndNameModel>,
    b: Set<TxnAndNameModel>,
)
    requires
        is_valid_batch(waiting, applied, a),
        is_valid_batch(waiting, applied, b),
    ensures
        is_valid_batch(waiting, applied, a.union(b)),
{
    assert forall|k: TxnAndNameModel| #[trigger]
        a.union(b).contains(k) implies waiting.contains_key(k) && supported(
        waiting[k],
        applied,
        a.union(b),
    ) by {
        if a.contains(k) {
            assert(supported(waiting[k], applied, a));
        } else {
            assert(b.contains(k));
            assert(supported(waiting[k], applied, b));
        }
    }
}

/// After a batch is applied, every transaction that a change in it had to be applied with
/// is applied: no input of the definition lags behind another.
pub proof fn law_batch_leaves_no_input_behind(
    s: DefState,
    batch: Set<TxnAndNameModel>,
    next: DefState,
    k: TxnAndNameModel,
    d: TxnAndNameModel,
)
    requires
        s.filed(),
        is_valid_batch(s.waiting, s.pred_txns.to_set(), batch),
        s.applies_batch(batch, next),
        batch.contains(k),
        s.waiting[k].deps.contains(d),
    ensures
        next.pred_txns.contains(d.txn),
        !s.pred_txns.contains(d.txn) ==> batch.contains(d) && !next.waiting.contains_key(d),
{
    let provides = provided(s.waiting, batch);
    let order = choose|order: Seq<TxnModel>| #[trigger]
        is_listing(order, provides.difference(s.pred_txns.to_set())) && next.pred_txns
            == s.pred_txns + order;
    assert(supported(s.waiting[k], s.pred_txns.to_set(), batch));
    if s.pred_txns.contains(d.txn) {
        let i = choose|i: int| 0 <= i < s.pred_txns.len() && s.pred_txns[i] == d.txn;
        assert(next.pred_txns[i] == d.txn);
    } else {
        assert(batch.contains(d));
        assert(s.waiting.contains_key(d));
        assert(provides.contains(d.txn));
        assert(order.to_set().contains(d.txn));
        let i = choose|i: int| 0 <= i < order.len() && order[i] == d.txn;
        assert(next.pred_txns[s.pred_txns.len() + i] == d.txn);
    }
}

/// No transaction that was applied is forgotten.
pub proof fn law_batch_keeps_applied(s: DefState, batch: Set<TxnAndNameModel>, next: DefState)
    requires
        s.applies_batch(batch, next),
    ensures
        s.pred_txns.is_prefix_of(next.pred_txns),
        s.filed() ==> next.filed(),
{
}

/// Whether everything that the change has to be applied with is applied or in `batch`.
fn is_supported(change: &_PropaChange, applied: &Vec<Txn>, batch: &ListSet<TxnAndName>) -> (r: bool)
    ensures
        r == supported(change.deep_view(), applied.deep_view().to_set(), batch.deep_view()),
{
    let ghost c = change.deep_view();
    let ghost done = applied.deep_view().to_set();
    let ghost l = change.deps.listing();
    let n: usize = change.deps.len();
    let mut i: usize = 0;
    while i < n
        invariant
            i <= n == l.len(),
            c == change.deep_view(),
            done == applied.deep_view().to_set(),
            l == change.deps.listing(),
            forall|j: int|
                0 <= j < i ==> done.contains((#[trigger] l[j]).txn) || batch.deep_view().contains(
                    l[j],
                ),
        decreases n - i,
    {
        let d = change.deps.at(i);
        if !holds_txn(applied, &d.txn) && !batch.contains(d) {
            assert(c.deps.contains(l[i as int]));
            return false;
        }
        i = i + 1;
    }
    assert forall|d: TxnAndNameModel| #[trigger] c.deps.contains(d) implies done.contains(d.txn)
        || batch.deep_view().contains(d) by {
        assert(l.to_set().contains(d));
        let j = choose|j: int| 0 <= j < l.len() && l[j] == d;
        assert(done.contains(l[j].txn) || batch.deep_view().contains(l[j]));
    }
    true
}

fn holds_txn(txns: &Vec<Txn>, txn: &Txn) -> (r: bool)
    ensures
        r == txns.deep_view().to_set().contains(txn.deep_view()),
{
    let ghost l = txns.deep_view();
    let mut i: usize = 0;
    while i < txns.len()
        invariant
            i <= txns.len() == l.len(),
            l == txns.deep_view(),
            forall|j: int| 0 <= j < i ==> #[trigger] l[j] != txn.deep_view(),
        decreases txns.len() - i,
    {
        assert(l[i as int] == txns[i as int].deep_view());
        if txns[i].same(txn) {
            assert(l.contains(txn.deep_view()));
            return true;
        }
        i = i + 1;
    }
    false
}

/// Finds the largest batch of changes that can be applied together. It is empty where
/// there is none.
pub fn search_batch(
    propa_changes_to_apply: &ListMap<TxnAndName, _PropaChange>,
    pred_txns: &Vec<Txn>,
) -> (batch: ListSet<TxnAndName>)
    ensures
        is_largest_batch(
            propa_changes_to_apply.deep_view(),
            pred_txns.deep_view().to_set(),
            batch.deep_view(),
        ),
{
    let ghost w = propa_changes_to_apply.deep_view();
    let ghost applied = pred_txns.deep_view().to_set();
    let mut batch = all_keys(propa_changes_to_apply);
    let _first: usize = batch.len();
    loop
        invariant
            w == propa_changes_to_apply.deep_view(),
            applied == pred_txns.deep_view().to_set(),
            batch.deep_view().finite(),
            batch.deep_view().subset_of(w.dom()),
            forall|other: Set<TxnAndNameModel>| #[trigger]
                is_valid_batch(w, applied, other) ==> other.subset_of(batch.deep_view()),
        decreases batch.deep_view().len(),
    {
        let ghost before = batch.deep_view();
        match find_unsupported(propa_changes_to_apply, pred_txns, &batch) {
            None => {
                return batch;
            },
            Some(k) => {
                let _gone: bool = batch.remove(&k);
                assert forall|other: Set<TxnAndNameModel>| #[trigger]
                    is_valid_batch(w, applied, other) implies other.subset_of(
                    batch.deep_view(),
                ) by {
                    if other.contains(k.deep_view()) {
                        assert(supported(w[k.deep_view()], applied, other));
                        assert(supported(w[k.deep_view()], applied, before));
                    }
                }
            },
        }
    }
}

fn all_keys(m: &ListMap<TxnAndName, _PropaChange>) -> (r: ListSet<TxnAndName>)
    ensures
        r.deep_view() == m.deep_view().dom(),
{
    let ghost l = m.keys();
    let n: usize = m.len();
    let mut r: ListSet<TxnAndName> = ListSet::new();
    let mut i: usize = 0;
    assert(r.deep_view() =~= l.take(0).to_set());
    while i < n
        invariant
            i <= n == l.len(),
            l == m.keys(),
            r.deep_view() == l.take(i as int).to_set(),
        decreases n - i,
    {
        proof {
            lemma_take_contains(l, i as int);
        }
        r.insert(m.key_at(i).dup());
        assert(r.deep_view() =~= l.take(i + 1).to_set());
        i = i + 1;
    }
    assert(l.take(n as int) =~= l);
    r
}

/// A key in `batch` whose change is not supported.
fn find_unsupported(
    waiting: &ListMap<TxnAndName, _PropaChange>,
    applied: &Vec<Txn>,
    batch: &ListSet<TxnAndName>,
) -> (r: Option<TxnAndName>)
    requires
        batch.deep_view().subset_of(waiting.deep_view().dom()),
    ensures
        match r {
            Some(k) => batch.deep_view().contains(k.deep_view()) && !supported(
                waiting.deep_view()[k.deep_view()],
                applied.deep_view().to_set(),
                batch.deep_view(),
            ),
            None => is_valid_batch(
                waiting.deep_view(),
                applied.deep_view().to_set(),
                batch.deep_view(),
            ),
        },
{
    let ghost w = waiting.deep_view();
    let ghost done = applied.deep_view().to_set();
    let ghost b = batch.deep_view();
    let ghost l = batch.listing();
    let n: usize = batch.len();
    let mut i: usize = 0;
    while i < n
        invariant
            i <= n == l.len(),
            w == waiting.deep_view(),
            done == applied.deep_view().to_set(),
            b == batch.deep_view(),
            l == batch.listing(),
            b.subset_of(w.dom()),
            forall|j: int| 0 <= j < i ==> supported(w[#[trigger] l[j]], done, b),
        decreases n - i,
    {
        let k = batch.at(i);
        match waiting.get(k) {
            Some(change) => {
                if !is_supported(change, applied, batch) {
                    return Some(k.dup());
                }
            },
            None => {
                assert(w.dom().contains(l[i as int]));
            },
        }
        i = i + 1;
    }
    assert forall|k: TxnAndNameModel| #[trigger] b.contains(k) implies w.contains_key(k)
        && supported(w[k], done, b) by {
        assert(l.to_set().contains(k));
        let j = choose|j: int| 0 <= j < l.len() && l[j] == k;
        assert(supported(w[l[j]], done, b));
        assert(w.dom().contains(k));
    }
    None
}

impl DefWorker {
    /// Applies the changes of a batch. Returns the transactions that they stem from and the
    /// new value of the definition.
    pub fn apply_batch(&mut self, batch: &ListSet<TxnAndName>) -> (r: (ListSet<Txn>, Option<Val>))
        requires
            batch.deep_view().subset_of(old(self).deep_view().waiting.dom()),
        ensures
            old(self).deep_view().applies_batch(batch.deep_view(), final(self).deep_view()),
            r.0.deep_view() == provided(old(self).deep_view().waiting, batch.deep_view()),
            r.1.deep_view() == final(self).deep_view().value,
    {
        let ghost s = self.deep_view();
        let ghost b = batch.deep_view();
        let provides = self.collect_provides(batch);
        let replica = self.collect_values(batch);
        self.replica = replica;
        self.value = evaluate_expr(&self.expr, &self.replica);
        self.prev_batch_provides = provides.dup();
        let ghost mid = self.deep_view();
        self.append_applied(&provides);
        let ghost order = choose|order: Seq<TxnModel>| #[trigger]
            is_listing(order, provides.deep_view().difference(mid.pred_txns.to_set()))
                && self.deep_view() == (DefState { pred_txns: mid.pred_txns + order, ..mid });
        self.drop_waiting(batch);
        proof {
            assert(is_listing(
                order,
                provided(s.waiting, b).difference(s.pred_txns.to_set()),
            ));
            assert(s.applies_batch(b, self.deep_view()));
        }
        (provides, self.value.dup())
    }

    fn collect_provides(&self, batch: &ListSet<TxnAndName>) -> (r: ListSet<Txn>)
        requires
            batch.deep_view().subset_of(self.deep_view().waiting.dom()),
        ensures
            r.deep_view() == provided(self.deep_view().waiting, batch.deep_view()),
    {
        let ghost w = self.deep_view().waiting;
        let ghost b = batch.deep_view();
        let ghost l = batch.listing();
        let n: usize = batch.len();
        let mut r: ListSet<Txn> = ListSet::new();
        let mut i: usize = 0;
        while i < n
            invariant
                i <= n == l.len(),
                w == self.deep_view().waiting,
                b == batch.deep_view(),
                l == batch.listing(),
                b.subset_of(w.dom()),
                forall|t: TxnModel| #[trigger]
                    r.deep_view().contains(t) <==> exists|j: int|
                        0 <= j < i && w[#[trigger] l[j]].propa_change.preds.contains(t),
            decreases n - i,
        {
            let ghost before = r.deep_view();
            assert(w.dom().contains(l[i as int]));
            match self.propa_changes_to_apply.get(batch.at(i)) {
                Some(change) => {
                    r.extend(&change.propa_change.preds);
                },
                None => {},
            }
            assert forall|t: TxnModel| #[trigger]
                r.deep_view().contains(t) <==> exists|j: int|
                    0 <= j < i + 1 && w[#[trigger] l[j]].propa_change.preds.contains(t) by {
                if before.contains(t) {
                    let j = choose|j: int|
                        0 <= j < i && w[#[trigger] l[j]].propa_change.preds.contains(t);
                    assert(w[l[j]].propa_change.preds.contains(t));
                }
                if w[l[i as int]].propa_change.preds.contains(t) {
                    assert(r.deep_view().contains(t));
                }
            }
            i = i + 1;
        }
        assert forall|t: TxnModel| #[trigger]
            r.deep_view().contains(t) <==> provided(w, b).contains(t) by {
            if r.deep_view().contains(t) {
                let j = choose|j: int|
                    0 <= j < n && w[#[trigger] l[j]].propa_change.preds.contains(t);
                assert(l.to_set().contains(l[j]));
                assert(b.contains(l[j]));
            }
            if provided(w, b).contains(t) {
                let k = choose|k: TxnAndNameModel| #[trigger]
                    b.contains(k) && w[k].propa_change.preds.contains(t);
                assert(l.to_set().contains(k));
                let j = choose|j: int| 0 <= j < l.len() && l[j] == k;
                assert(w[l[j]].propa_change.preds.contains(t));
            }
        }
        assert(r.deep_view() =~= provided(w, b));
        r
    }

    /// The latest value in the batch of the input `name`, if it touches it.
    fn latest_value(&self, batch: &ListSet<TxnAndName>, name: &String) -> (r: Option<Val>)
        requires
            batch.deep_view().subset_of(self.deep_view().waiting.dom()),
        ensures
            r is Some <==> touches(self.deep_view().waiting, batch.deep_view(), name@),
            r matches Some(v) ==> exists|k: TxnAndNameModel| #[trigger]
                is_latest_at(self.deep_view().waiting, batch.deep_view(), name@, k)
                    && v.deep_view() == self.deep_view().waiting[k].propa_change.new_val,
    {
        let ghost w = self.deep_view().waiting;
        let ghost b = batch.deep_view();
        let ghost l = batch.listing();
        let n: usize = batch.len();
        let mut best: Option<usize> = None;
        let mut best_id: i32 = 0;
        let mut val: Option<Val> = None;
        let mut i: usize = 0;
        while i < n
            invariant
                i <= n == l.len(),
                w == self.deep_view().waiting,
                b == batch.deep_view(),
                l == batch.listing(),
                b.subset_of(w.dom()),
                best is None <==> val is None,
                best is None ==> forall|j: int|
                    0 <= j < i ==> w[#[trigger] l[j]].propa_change.from_name != name@,
                best matches Some(x) ==> {
                    &&& x < i
                    &&& w[l[x as int]].propa_change.from_name == name@
                    &&& w[l[x as int]].propa_id == best_id
                    &&& val.deep_view() == Some(w[l[x as int]].propa_change.new_val)
                    &&& forall|j: int|
                        0 <= j < i && w[#[trigger] l[j]].propa_change.from_name == name@
                            ==> w[l[j]].propa_id <= best_id
                },
            decreases n - i,
        {
            assert(w.dom().contains(l[i as int]));
            match self.propa_changes_to_apply.get(batch.at(i)) {
                Some(change) => {
                    if change.propa_change.from_name.eq(name) {
                        let later: bool = match best {
                            Some(_) => change.propa_id >= best_id,
                            None => true,
                        };
                        if later {
                            best = Some(i);
                            best_id = change.propa_id;
                            val = Some(change.propa_change.new_val.dup());
                        }
                    }
                },
                None => {},
            }
            i = i + 1;
        }
        proof {
            assert forall|k: TxnAndNameModel| #[trigger] b.contains(k) implies exists|j: int|
                0 <= j < l.len() && l[j] == k by {
                assert(l.to_set().contains(k));
            }
            match best {
                Some(x) => {
                    let k = l[x as int];
                    assert(l.to_set().contains(k));
                    assert(b.contains(k));
                    assert(is_latest_at(w, b, name@, k));
                },
                None => {
                    if touches(w, b, name@) {
                        let k = choose|k: TxnAndNameModel| #[trigger]
                            b.contains(k) && w[k].propa_change.from_name == name@;
                        let j = choose|j: int| 0 <= j < l.len() && l[j] == k;
                        assert(w[l[j]].propa_change.from_name != name@);
                    }
                },
            }
        }
        val
    }

    fn collect_values(&self, batch: &ListSet<TxnAndName>) -> (r: ListMap<String, Option<Val>>)
        requires
            batch.deep_view().subset_of(self.deep_view().waiting.dom()),
        ensures
            brings_values(
                self.deep_view().waiting,
                batch.deep_view(),
                self.deep_view().replica,
                r.deep_view(),
            ),
    {
        let ghost s = self.deep_view();
        let ghost b = batch.deep_view();
        let ghost l = self.replica.keys();
        let n: usize = self.replica.len();
        let mut r: ListMap<String, Option<Val>> = ListMap::new();
        let mut i: usize = 0;
        while i < n
            invariant
                i <= n == l.len(),
                l.no_duplicates(),
                s == self.deep_view(),
                b == batch.deep_view(),
                l == self.replica.keys(),
                b.subset_of(s.waiting.dom()),
                forall|k: Seq<char>| #[trigger]
                    r.deep_view().contains_key(k) <==> l.take(i as int).contains(k),
                forall|k: Seq<char>| #[trigger]
                    r.deep_view().contains_key(k) ==> if touches(s.waiting, b, k) {
                        exists|x: TxnAndNameModel| #[trigger]
                            is_latest_at(s.waiting, b, k, x) && r.deep_view()[k] == Some(
                                s.waiting[x].propa_change.new_val,
                            )
                    } else {
                        r.deep_view()[k] == s.replica[k]
                    },
            decreases n - i,
        {
            let ghost before = r.deep_view();
            let name = self.replica.key_at(i);
            proof {
                lemma_take_contains(l, i as int);
            }
            let v: Option<Val> = match self.latest_value(batch, name) {
                Some(v) => Some(v),
                None => self.replica.value_at(i).dup(),
            };
            r.insert(name.clone(), v);
            assert forall|k: Seq<char>| #[trigger]
                r.deep_view().contains_key(k) implies if touches(s.waiting, b, k) {
                exists|x: TxnAndNameModel| #[trigger]
                    is_latest_at(s.waiting, b, k, x) && r.deep_view()[k] == Some(
                        s.waiting[x].propa_change.new_val,
                    )
            } else {
                r.deep_view()[k] == s.replica[k]
            } by {
                if k != name@ {
                    assert(before.contains_key(k));
                    assert(r.deep_view()[k] == before[k]);
                }
            }
            i = i + 1;
        }
        proof {
            assert(l.take(n as int) =~= l);
            assert forall|k: Seq<char>| l.contains(k) <==> #[trigger] s.replica.contains_key(k) by {
                assert(l.to_set().contains(k) <==> s.replica.dom().contains(k));
            }
            assert(r.deep_view().dom() =~= s.replica.dom());
            assert forall|k: Seq<char>| #[trigger]
                s.replica.contains_key(k) implies r.deep_view().contains_key(k) by {}
        }
        r
    }

    /// Adds the transactions that are not yet in the list of the applied ones.
    fn append_applied(&mut self, provides: &ListSet<Txn>)
        ensures
            exists|order: Seq<TxnModel>| #[trigger]
                is_listing(
                    order,
                    provides.deep_view().difference(old(self).deep_view().pred_txns.to_set()),
                ) && final(self).deep_view() == (DefState {
                    pred_txns: old(self).deep_view().pred_txns + order,
                    ..old(self).deep_view()
                }),
    {
        let ghost s = self.deep_view();
        let ghost had = s.pred_txns;
        let mut fresh: ListSet<Txn> = ListSet::new();
        let ghost l = provides.listing();
        let n: usize = provides.len();
        let mut i: usize = 0;
        while i < n
            invariant
                i <= n == l.len(),
                l == provides.listing(),
                self.deep_view() == s,
                had == s.pred_txns,
                forall|t: TxnModel| #[trigger]
                    fresh.deep_view().contains(t) <==> l.take(i as int).contains(t)
                        && !had.to_set().contains(t),
            decreases n - i,
        {
            proof {
                lemma_take_contains(l, i as int);
            }
            let t = provides.at(i);
            if !holds_txn(&self.pred_txns, t) {
                fresh.insert(t.dup());
            }
            i = i + 1;
        }
        proof {
            assert(l.take(n as int) =~= l);
            assert forall|t: TxnModel| l.contains(t) <==> #[trigger] provides.deep_view().contains(
                t,
            ) by {
                assert(l.to_set().contains(t) <==> provides.deep_view().contains(t));
            }
            assert(fresh.deep_view() =~= provides.deep_view().difference(had.to_set()));
        }
        let ghost order = fresh.listing();
        let m: usize = fresh.len();
        let mut j: usize = 0;
        assert(had + order.take(0) =~= had);
        while j < m
            invariant
                j <= m == order.len(),
                order == fresh.listing(),
                had == s.pred_txns,
                self.deep_view() == (DefState { pred_txns: had + order.take(j as int), ..s }),
            decreases m - j,
        {
            let ghost before = self.pred_txns.deep_view();
            self.pred_txns.push(fresh.at(j).dup());
            proof {
                assert(self.pred_txns.deep_view() =~= before.push(order[j as int]));
                assert(self.pred_txns.deep_view() =~= had + order.take(j + 1));
            }
            j = j + 1;
        }
        proof {
            assert(order.take(m as int) =~= order);
            assert(is_listing(order, provides.deep_view().difference(had.to_set())));
        }
    }

    fn drop_waiting(&mut self, batch: &ListSet<TxnAndName>)
        ensures
            final(self).deep_view() == (DefState {
                waiting: old(self).deep_view().waiting.remove_keys(batch.deep_view()),
                ..old(self).deep_view()
            }),
    {
        let ghost s = self.deep_view();
        let ghost l = batch.listing();
        let n: usize = batch.len();
        let mut i: usize = 0;
        assert(s.waiting.remove_keys(l.take(0).to_set()) =~= s.waiting);
        while i < n
            invariant
                i <= n == l.len(),
                l == batch.listing(),
                self.deep_view() == (DefState {
                    waiting: s.waiting.remove_keys(l.take(i as int).to_set()),
                    ..s
                }),
            decreases n - i,
        {
            proof {
                lemma_take_contains(l, i as int);
            }
            let _change = self.propa_changes_to_apply.remove(batch.at(i));
            assert(self.deep_view().waiting =~= s.waiting.remove_keys(l.take(i + 1).to_set()));
            i = i + 1;
        }
        assert(l.take(n as int) =~= l);
    }

    /// One round of the worker: handles the message, grants a lock if one waits, and
    /// applies the changes that can be. Returns the messages to send.
    pub fn run_defworker(&mut self, msg: Message) -> (out: Vec<Envelope>)
        requires
            old(self).deep_view().accepts(msg.deep_view()),
        ensures
            old(self).deep_view().runs(
                msg.deep_view(),
                final(self).deep_view(),
                out.deep_view(),
            ),
    {
        let ghost s = self.deep_view();
        let mut out = self.handle_message(msg);
        let ghost handled = self.deep_view();
        let ghost first = out.deep_view();
        let mut granted = self.tick();
        let ghost ticked = self.deep_view();
        let ghost rest = granted.deep_view();
        out.append(&mut granted);
        assert(out.deep_view() =~= first + rest);
        let batch = search_batch(&self.propa_changes_to_apply, &self.pred_txns);
        if !batch.is_empty() {
            assert(batch.deep_view().subset_of(ticked.waiting.dom()));
            let _applied = self.apply_batch(&batch);
        }
        proof {
            assert(is_largest_batch(
                ticked.waiting,
                ticked.pred_txns.to_set(),
                batch.deep_view(),
            ));
            assert(ticked.settles_batch(self.deep_view()));
            assert(s.handles(msg.deep_view(), handled, first) && handled.ticks(ticked, rest));
        }
        out
    }
}

} // verus!
