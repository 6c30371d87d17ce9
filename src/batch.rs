//! Turning a batch of pull requests into dispatchable tasks and early
//! failures, and reducing the tasks' outcomes into the redelivery report.

use vstd::prelude::*;
use crate::archive::ArchivePlan;
use crate::catalog::{last_key_index, Catalog, PullContext};

verus! {

/// The payload of one queue message.
pub struct PullRequest {
    pub log_source_name: String,
    pub time: String,
}

/// One message of a batch: its id, if the transport gave one, and its
/// payload, if the payload parsed.
pub struct InboundItem {
    pub message_id: Option<String>,
    pub request: Option<PullRequest>,
}

/// A request that resolved and is to be pulled and archived.
pub struct PullTask {
    pub message_id: String,
    pub source_name: String,
    /// Index of the source's entry in the catalog.
    pub context: usize,
}

/// What one dispatched task came to.
pub enum PullOutcome {
    /// Data was written; the count is the number of raw bytes pulled.
    Archived(u64),
    NoNewData,
    Failed,
}

/// A task's outcome, carried together with the message id it belongs to.
pub struct TaskResult {
    pub message_id: String,
    pub outcome: PullOutcome,
}

/// The dispatch plan of a batch.
pub struct BatchPlan {
    /// Ids that failed before any dispatch: malformed or unresolvable.
    pub failed: Vec<String>,
    pub tasks: Vec<PullTask>,
}

/// What becomes of one item before dispatch.
pub enum Verdict {
    /// No message id: nothing can be reported for it.
    Dropped,
    Fail(String),
    Dispatch(PullTask),
}

pub open spec fn verdict_of(entries: Seq<(String, PullContext)>, item: InboundItem) -> Verdict {
    match item.message_id {
        None => Verdict::Dropped,
        Some(id) => match item.request {
            None => Verdict::Fail(id),
            Some(req) => match last_key_index(entries, req.log_source_name@) {
                None => Verdict::Fail(id),
                Some(ci) => Verdict::Dispatch(
                    PullTask { message_id: id, source_name: req.log_source_name, context: ci as usize },
                ),
            },
        },
    }
}

/// Ids that fail before dispatch, in batch order.
pub open spec fn early_failures(entries: Seq<(String, PullContext)>, items: Seq<InboundItem>) -> Seq<String>
    decreases items.len(),
{
    if items.len() == 0 {
        Seq::empty()
    } else {
        let rest = early_failures(entries, items.drop_last());
        match verdict_of(entries, items.last()) {
            Verdict::Fail(id) => rest.push(id),
            _ => rest,
        }
    }
}

/// Tasks to dispatch, in batch order.
pub open spec fn planned_tasks(entries: Seq<(String, PullContext)>, items: Seq<InboundItem>) -> Seq<PullTask>
    decreases items.len(),
{
    if items.len() == 0 {
        Seq::empty()
    } else {
        let rest = planned_tasks(entries, items.drop_last());
        match verdict_of(entries, items.last()) {
            Verdict::Dispatch(t) => rest.push(t),
            _ => rest,
        }
    }
}

/// Number of items that carry a message id.
pub open spec fn identified_count(items: Seq<InboundItem>) -> nat
    decreases items.len(),
{
    if items.len() == 0 {
        0
    } else {
        identified_count(items.drop_last()) + if items.last().message_id is Some { 1nat } else { 0nat }
    }
}

/// Ids of the results whose outcome is a failure, in result order.
pub open spec fn failed_ids(results: Seq<TaskResult>) -> Seq<String>
    decreases results.len(),
{
    if results.len() == 0 {
        Seq::empty()
    } else {
        let rest = failed_ids(results.drop_last());
        if results.last().outcome is Failed {
            rest.push(results.last().message_id)
        } else {
            rest
        }
    }
}

/// Number of results whose outcome is a success.
pub open spec fn success_count(results: Seq<TaskResult>) -> nat
    decreases results.len(),
{
    if results.len() == 0 {
        0
    } else {
        success_count(results.drop_last()) + if results.last().outcome is Failed { 0nat } else { 1nat }
    }
}

/// The report for early failures and task results: `None` accepts the whole
/// batch, `Some(ids)` asks for exactly `ids` again.
pub open spec fn report_of(failed: Seq<String>, results: Seq<TaskResult>) -> Option<Seq<String>> {
    let ids = failed + failed_ids(results);
    if ids.len() == 0 {
        None
    } else {
        Some(ids)
    }
}

impl PullOutcome {
    pub open spec fn spec_is_success(&self) -> bool {
        !(self is Failed)
    }

    pub fn is_success(&self) -> (r: bool)
        ensures
            r == self.spec_is_success(),
    {
        match self {
            PullOutcome::Failed => false,
            _ => true,
        }
    }
}

/// Splits a batch into early failures and tasks to dispatch. An item without
/// a message id is dropped; one whose payload did not parse, or whose source
/// the catalog does not resolve, fails at once and is never dispatched.
pub fn plan_batch(catalog: &Catalog, items: Vec<InboundItem>) -> (r: BatchPlan)
    ensures
        r.failed@ == early_failures(catalog@, items@),
        r.tasks@ == planned_tasks(catalog@, items@),
{
    let mut items = items;
    let ghost all = items@;
    let total: usize = items.len();
    let mut failed: Vec<String> = Vec::new();
    let mut tasks: Vec<PullTask> = Vec::new();
    let mut k: usize = 0;
    while items.len() > 0
        invariant
            all.len() == total,
            k + items@.len() == all.len(),
            items@ == all.subrange(k as int, all.len() as int),
            failed@ == early_failures(catalog@, all.subrange(0, k as int)),
            tasks@ == planned_tasks(catalog@, all.subrange(0, k as int)),
        decreases items.len(),
    {
        let item = items.remove(0);
        proof {
            assert(all.subrange(0, k + 1).drop_last() == all.subrange(0, k as int));
            assert(all.subrange(0, k + 1).last() == item);
        }
        match verdict(catalog, item) {
            Verdict::Dropped => {},
            Verdict::Fail(id) => failed.push(id),
            Verdict::Dispatch(t) => tasks.push(t),
        }
        k = k + 1;
    }
    proof {
        assert(all.subrange(0, k as int) == all);
    }
    BatchPlan { failed, tasks }
}

/// Decides what becomes of one item before dispatch.
pub fn verdict(catalog: &Catalog, item: InboundItem) -> (r: Verdict)
    ensures
        r == verdict_of(catalog@, item),
{
    match item.message_id {
        None => Verdict::Dropped,
        Some(id) => match item.request {
            None => Verdict::Fail(id),
            Some(req) => match catalog.resolve(&req.log_source_name) {
                None => Verdict::Fail(id),
                Some(ci) => Verdict::Dispatch(
                    PullTask { message_id: id, source_name: req.log_source_name, context: ci },
                ),
            },
        },
    }
}

/// Builds the redelivery report: the early failures followed by the ids of
/// the failed results, or `None` when nothing failed.
pub fn finish_batch(failed: Vec<String>, results: Vec<TaskResult>) -> (r: Option<Vec<String>>)
    ensures
        match r {
            None => report_of(failed@, results@) is None,
            Some(ids) => report_of(failed@, results@) == Some(ids@),
        },
{
    let mut ids = failed;
    let ghost early = ids@;
    let mut results = results;
    let ghost all = results@;
    let total: usize = results.len();
    let mut k: usize = 0;
    while results.len() > 0
        invariant
            all.len() == total,
            k + results@.len() == all.len(),
            results@ == all.subrange(k as int, all.len() as int),
            ids@ == early + failed_ids(all.subrange(0, k as int)),
        decreases results.len(),
    {
        let res = results.remove(0);
        proof {
            assert(all.subrange(0, k + 1).drop_last() == all.subrange(0, k as int));
            assert(all.subrange(0, k + 1).last() == res);
        }
        if !res.outcome.is_success() {
            ids.push(res.message_id);
            proof {
                assert(ids@ == early + failed_ids(all.subrange(0, k + 1)));
            }
        }
        k = k + 1;
    }
    proof {
        assert(all.subrange(0, k as int) == all);
    }
    if ids.len() == 0 {
        None
    } else {
        Some(ids)
    }
}

/// The outcome of a task whose pull returned `raw_len` bytes and whose
/// archive plan was `plan`; `stored` tells whether the planned write, if
/// any, succeeded.
pub open spec fn outcome_of(plan: ArchivePlan, raw_len: u64, stored: bool) -> PullOutcome {
    match plan {
        ArchivePlan::NoNewData => PullOutcome::NoNewData,
        ArchivePlan::Write { .. } => if stored {
            PullOutcome::Archived(raw_len)
        } else {
            PullOutcome::Failed
        },
    }
}

/// Exec form of `outcome_of`.
pub fn archive_outcome(plan: &ArchivePlan, raw_len: u64, stored: bool) -> (r: PullOutcome)
    ensures
        r == outcome_of(*plan, raw_len, stored),
{
    match plan {
        ArchivePlan::NoNewData => PullOutcome::NoNewData,
        ArchivePlan::Write { .. } => if stored {
            PullOutcome::Archived(raw_len)
        } else {
            PullOutcome::Failed
        },
    }
}

/// The result of a dispatched task, carrying the task's own message id.
/// `archived` is `None` when the pull failed; otherwise it holds the archive
/// plan of the pulled bytes and their count, and `stored` tells whether the
/// planned write succeeded.
pub fn task_result(task: PullTask, archived: Option<(&ArchivePlan, u64)>, stored: bool) -> (r: TaskResult)
    ensures
        r.message_id == task.message_id,
        r.outcome == match archived {
            None => PullOutcome::Failed,
            Some((plan, raw_len)) => outcome_of(*plan, raw_len, stored),
        },
{
    let outcome = match archived {
        None => PullOutcome::Failed,
        Some((plan, raw_len)) => archive_outcome(plan, raw_len, stored),
    };
    TaskResult { message_id: task.message_id, outcome }
}

proof fn lemma_plan_counts(entries: Seq<(String, PullContext)>, items: Seq<InboundItem>)
    ensures
        early_failures(entries, items).len() + planned_tasks(entries, items).len()
            == identified_count(items),
    decreases items.len(),
{
    if items.len() > 0 {
        lemma_plan_counts(entries, items.drop_last());
    }
}

proof fn lemma_result_counts(results: Seq<TaskResult>)
    ensures
        failed_ids(results).len() + success_count(results) == results.len(),
    decreases results.len(),
{
    if results.len() > 0 {
        lemma_result_counts(results.drop_last());
    }
}

/// Planning distributes over concatenation: how a batch `a + b` is split is
/// how `a` is split followed by how `b` is split.
pub proof fn lemma_plan_concat(
    entries: Seq<(String, PullContext)>,
    a: Seq<InboundItem>,
    b: Seq<InboundItem>,
)
    ensures
        early_failures(entries, a + b) == early_failures(entries, a) + early_failures(entries, b),
        planned_tasks(entries, a + b) == planned_tasks(entries, a) + planned_tasks(entries, b),
    decreases b.len(),
{
    if b.len() == 0 {
        assert(a + b =~= a);
        assert(early_failures(entries, a) + early_failures(entries, b) =~= early_failures(entries, a));
        assert(planned_tasks(entries, a) + planned_tasks(entries, b) =~= planned_tasks(entries, a));
    } else {
        lemma_plan_concat(entries, a, b.drop_last());
        assert((a + b).drop_last() =~= a + b.drop_last());
        assert((a + b).last() == b.last());
        let ea = early_failures(entries, a);
        let eb = early_failures(entries, b.drop_last());
        let ta = planned_tasks(entries, a);
        let tb = planned_tasks(entries, b.drop_last());
        match verdict_of(entries, b.last()) {
            Verdict::Fail(id) => {
                assert((ea + eb).push(id) =~= ea + eb.push(id));
            },
            Verdict::Dispatch(t) => {
                assert((ta + tb).push(t) =~= ta + tb.push(t));
            },
            Verdict::Dropped => {},
        }
    }
}

/// Reporting distributes over concatenation of results.
pub proof fn lemma_failed_ids_concat(a: Seq<TaskResult>, b: Seq<TaskResult>)
    ensures
        failed_ids(a + b) == failed_ids(a) + failed_ids(b),
    decreases b.len(),
{
    if b.len() == 0 {
        assert(a + b =~= a);
        assert(failed_ids(a) + failed_ids(b) =~= failed_ids(a));
    } else {
        lemma_failed_ids_concat(a, b.drop_last());
        assert((a + b).drop_last() =~= a + b.drop_last());
        assert((a + b).last() == b.last());
        if b.last().outcome is Failed {
            assert((failed_ids(a) + failed_ids(b.drop_last())).push(b.last().message_id)
                =~= failed_ids(a) + failed_ids(b.drop_last()).push(b.last().message_id));
        }
    }
}

/// Every item that carries a message id is accounted for exactly once: when
/// each dispatched task yields one result, the ids in the report plus the
/// successful results make up all identified items of the batch.
pub proof fn lemma_every_item_accounted(
    entries: Seq<(String, PullContext)>,
    items: Seq<InboundItem>,
    results: Seq<TaskResult>,
)
    requires
        results.len() == planned_tasks(entries, items).len(),
    ensures
        (early_failures(entries, items) + failed_ids(results)).len() + success_count(results)
            == identified_count(items),
{
    lemma_plan_counts(entries, items);
    lemma_result_counts(results);
}

/// A request naming a source that the catalog does not resolve fails at
/// once: its id is among the early failures, in its place, and it adds no
/// task to dispatch, so no connector or storage call is made for it.
pub proof fn lemma_unknown_source_fails(
    entries: Seq<(String, PullContext)>,
    before: Seq<InboundItem>,
    item: InboundItem,
    after: Seq<InboundItem>,
)
    requires
        item.message_id is Some,
        item.request matches Some(req) && last_key_index(entries, req.log_source_name@) is None,
    ensures
        early_failures(entries, before + seq![item] + after) == early_failures(entries, before)
            + seq![item.message_id->Some_0] + early_failures(entries, after),
        planned_tasks(entries, before + seq![item] + after) == planned_tasks(entries, before)
            + planned_tasks(entries, after),
{
    let one = seq![item];
    lemma_plan_concat(entries, before, one);
    lemma_plan_concat(entries, before + one, after);
    assert(one.drop_last() =~= Seq::<InboundItem>::empty());
    assert(one.last() == item);
    assert(early_failures(entries, one.drop_last()) =~= Seq::<String>::empty());
    assert(planned_tasks(entries, one.drop_last()) =~= Seq::<PullTask>::empty());
    assert(early_failures(entries, one) =~= seq![item.message_id->Some_0]);
    assert(planned_tasks(entries, one) =~= Seq::<PullTask>::empty());
    assert(planned_tasks(entries, before) + planned_tasks(entries, one) =~= planned_tasks(entries, before));
}

/// One item never changes what becomes of the others: the plan of a batch
/// with `item` between `before` and `after` is the plan of `before`, then
/// that of `item` alone, then that of `after`; likewise the failed ids of
/// the results, with one result between two runs of others.
pub proof fn lemma_failure_isolation(
    entries: Seq<(String, PullContext)>,
    before: Seq<InboundItem>,
    item: InboundItem,
    after: Seq<InboundItem>,
    results_before: Seq<TaskResult>,
    result: TaskResult,
    results_after: Seq<TaskResult>,
)
    ensures
        early_failures(entries, before + seq![item] + after) == early_failures(entries, before)
            + early_failures(entries, seq![item]) + early_failures(entries, after),
        planned_tasks(entries, before + seq![item] + after) == planned_tasks(entries, before)
            + planned_tasks(entries, seq![item]) + planned_tasks(entries, after),
        failed_ids(results_before + seq![result] + results_after) == failed_ids(results_before)
            + failed_ids(seq![result]) + failed_ids(results_after),
{
    lemma_plan_concat(entries, before, seq![item]);
    lemma_plan_concat(entries, before + seq![item], after);
    lemma_failed_ids_concat(results_before, seq![result]);
    lemma_failed_ids_concat(results_before + seq![result], results_after);
}

proof fn lemma_failed_ids_members(results: Seq<TaskResult>, id: String)
    ensures
        failed_ids(results).contains(id) <==> exists|j: int|
            0 <= j < results.len() && #[trigger] results[j].message_id == id
                && results[j].outcome is Failed,
    decreases results.len(),
{
    if results.len() > 0 {
        let t = results.drop_last();
        let last = results.last();
        let n = t.len() as int;
        lemma_failed_ids_members(t, id);
        let ft = failed_ids(t);
        let f = failed_ids(results);
        let hit = last.outcome is Failed && last.message_id == id;
        if last.outcome is Failed {
            assert(f == ft.push(last.message_id));
            if f.contains(id) {
                let i = choose|i: int| 0 <= i < f.len() && f[i] == id;
                if i < ft.len() {
                    assert(ft[i] == id);
                }
            }
            if ft.contains(id) {
                let i = choose|i: int| 0 <= i < ft.len() && ft[i] == id;
                assert(f[i] == id);
            }
            if hit {
                assert(f[ft.len() as int] == id);
            }
            assert(f.contains(id) <==> (ft.contains(id) || hit));
        } else {
            assert(f == ft);
        }
        if exists|j: int| 0 <= j < results.len() && #[trigger] results[j].message_id == id
            && results[j].outcome is Failed {
            let j = choose|j: int| 0 <= j < results.len() && #[trigger] results[j].message_id == id
                && results[j].outcome is Failed;
            if j < n {
                assert(t[j] == results[j]);
                assert(t[j].message_id == id);
            } else {
                assert(hit);
            }
        }
        if exists|j: int| 0 <= j < t.len() && #[trigger] t[j].message_id == id
            && t[j].outcome is Failed {
            let j = choose|j: int| 0 <= j < t.len() && #[trigger] t[j].message_id == id
                && t[j].outcome is Failed;
            assert(results[j] == t[j]);
            assert(results[j].message_id == id);
        }
        if hit {
            assert(results[n].message_id == id);
        }
    }
}

/// Outcomes are attributed by the id each result carries, never by position:
/// an id is in the report exactly when it failed early or some result
/// carrying it failed, in whatever order the results came back.
pub proof fn lemma_report_attribution(failed: Seq<String>, results: Seq<TaskResult>, id: String)
    ensures
        (report_of(failed, results) matches Some(ids) && ids.contains(id)) <==> (failed.contains(id)
            || exists|j: int|
            0 <= j < results.len() && #[trigger] results[j].message_id == id
                && results[j].outcome is Failed),
{
    lemma_failed_ids_members(results, id);
    let ids = failed + failed_ids(results);
    if failed.contains(id) {
        let i = choose|i: int| 0 <= i < failed.len() && failed[i] == id;
        assert(ids[i] == id);
    }
    if failed_ids(results).contains(id) {
        let i = choose|i: int| 0 <= i < failed_ids(results).len() && failed_ids(results)[i] == id;
        assert(ids[failed.len() + i] == id);
    }
    if ids.contains(id) {
        let i = choose|i: int| 0 <= i < ids.len() && ids[i] == id;
        if i >= failed.len() {
            assert(failed_ids(results)[i - failed.len()] == id);
        }
    }
}

proof fn lemma_failed_ids_permutation(r1: Seq<TaskResult>, r2: Seq<TaskResult>)
    requires
        r1.to_multiset() == r2.to_multiset(),
    ensures
        failed_ids(r1).to_multiset() == failed_ids(r2).to_multiset(),
    decreases r1.len(),
{
    broadcast use {
        vstd::seq_lib::lemma_multiset_commutative,
        vstd::seq_lib::to_multiset_len,
        vstd::seq_lib::to_multiset_contains,
        vstd::seq_lib::to_multiset_insert,
        vstd::seq_lib::to_multiset_remove,
        vstd::multiset::group_multiset_axioms,
        vstd::multiset::group_multiset_properties,
    };

    if r1.len() == 0 {
        assert(r2.to_multiset().len() == 0);
        assert(r2 =~= Seq::<TaskResult>::empty());
        assert(r1 =~= r2);
    } else {
        let x = r1.last();
        let t1 = r1.drop_last();
        assert(r1 =~= t1.push(x));
        t1.to_multiset_ensures();
        assert(r1.to_multiset() =~= t1.to_multiset().insert(x));
        assert(r1.to_multiset().count(x) > 0);
        assert(r2.contains(x));
        let j = choose|j: int| 0 <= j < r2.len() && r2[j] == x;
        let t2 = r2.remove(j);
        assert(t2.to_multiset() =~= r2.to_multiset().remove(x));
        assert(t1.to_multiset() =~= t1.to_multiset().insert(x).remove(x));
        assert(t2.to_multiset() == t1.to_multiset());
        lemma_failed_ids_permutation(t1, t2);
        let pre = r2.subrange(0, j);
        let post = r2.subrange(j + 1, r2.len() as int);
        let one = seq![x];
        assert(r2 =~= pre + one + post);
        assert(t2 =~= pre + post);
        lemma_failed_ids_concat(pre, one);
        lemma_failed_ids_concat(pre + one, post);
        lemma_failed_ids_concat(pre, post);
        lemma_failed_ids_concat(t1, one);
        assert(r1 =~= t1 + one);
        let fp = failed_ids(pre);
        let fo = failed_ids(one);
        let fq = failed_ids(post);
        assert(failed_ids(r2) == fp + fo + fq);
        assert(failed_ids(t2) == fp + fq);
        assert(failed_ids(r1) == failed_ids(t1) + fo);
        assert((fp + fo + fq).to_multiset() =~= (fp + fq + fo).to_multiset());
    }
}

/// Completion order does not matter: results that come back in any order
/// (the same results, each as often) give a report that names the same ids,
/// each as often, and that is absent for one exactly when for the other.
pub proof fn lemma_report_order_free(
    failed: Seq<String>,
    results: Seq<TaskResult>,
    reordered: Seq<TaskResult>,
)
    requires
        results.to_multiset() == reordered.to_multiset(),
    ensures
        (failed + failed_ids(results)).to_multiset() == (failed + failed_ids(
            reordered,
        )).to_multiset(),
        report_of(failed, results) is None <==> report_of(failed, reordered) is None,
{
    broadcast use vstd::seq_lib::lemma_multiset_commutative, vstd::seq_lib::to_multiset_len;

    lemma_failed_ids_permutation(results, reordered);
    (failed + failed_ids(results)).to_multiset_ensures();
    (failed + failed_ids(reordered)).to_multiset_ensures();
    assert((failed + failed_ids(results)).to_multiset() =~= (failed + failed_ids(
        reordered,
    )).to_multiset());
}

proof fn lemma_no_failed_ids(results: Seq<TaskResult>)
    requires
        forall|j: int| 0 <= j < results.len() ==> !(#[trigger] results[j].outcome is Failed),
    ensures
        failed_ids(results) == Seq::<String>::empty(),
    decreases results.len(),
{
    if results.len() > 0 {
        let t = results.drop_last();
        assert forall|j: int| 0 <= j < t.len() implies !(#[trigger] t[j].outcome is Failed) by {
            assert(t[j] == results[j]);
        }
        lemma_no_failed_ids(t);
        assert(!(results[results.len() - 1].outcome is Failed));
    }
}

/// When a single result failed and all others succeeded, the report holds
/// exactly the early failures and that one result's id.
pub proof fn lemma_lone_failure(failed: Seq<String>, results: Seq<TaskResult>, k: int)
    requires
        0 <= k < results.len(),
        results[k].outcome is Failed,
        forall|j: int| 0 <= j < results.len() && j != k ==> !(#[trigger] results[j].outcome is Failed),
    ensures
        report_of(failed, results) == Some(failed.push(results[k].message_id)),
{
    let pre = results.subrange(0, k);
    let post = results.subrange(k + 1, results.len() as int);
    let one = seq![results[k]];
    assert(results =~= pre + one + post);
    assert forall|j: int| 0 <= j < pre.len() implies !(#[trigger] pre[j].outcome is Failed) by {
        assert(pre[j] == results[j]);
    }
    assert forall|j: int| 0 <= j < post.len() implies !(#[trigger] post[j].outcome is Failed) by {
        assert(post[j] == results[k + 1 + j]);
    }
    lemma_no_failed_ids(pre);
    lemma_no_failed_ids(post);
    lemma_failed_ids_concat(pre, one);
    lemma_failed_ids_concat(pre + one, post);
    assert(one.drop_last() =~= Seq::<TaskResult>::empty());
    assert(one.last() == results[k]);
    assert(failed_ids(one.drop_last()) =~= Seq::<String>::empty());
    assert(failed_ids(one) =~= seq![results[k].message_id]);
    assert(failed_ids(results) =~= seq![results[k].message_id]);
    assert(failed + failed_ids(results) =~= failed.push(results[k].message_id));
}

/// When no result failed, the report holds exactly the early failures, and
/// is absent when there are none.
pub proof fn lemma_no_result_failed(failed: Seq<String>, results: Seq<TaskResult>)
    requires
        forall|j: int| 0 <= j < results.len() ==> !(#[trigger] results[j].outcome is Failed),
    ensures
        report_of(failed, results) == if failed.len() == 0 {
            None
        } else {
            Some(failed)
        },
{
    lemma_no_failed_ids(results);
    assert(failed + failed_ids(results) =~= failed);
}

/// The message ids that the items carry, in batch order.
pub open spec fn item_ids(items: Seq<InboundItem>) -> Seq<String>
    decreases items.len(),
{
    if items.len() == 0 {
        Seq::empty()
    } else {
        let rest = item_ids(items.drop_last());
        match items.last().message_id {
            Some(id) => rest.push(id),
            None => rest,
        }
    }
}

proof fn lemma_plan_ids(entries: Seq<(String, PullContext)>, items: Seq<InboundItem>)
    requires
        item_ids(items).no_duplicates(),
    ensures
        forall|x: String| #[trigger] early_failures(entries, items).contains(x) ==> item_ids(items).contains(x),
        forall|i: int| 0 <= i < planned_tasks(entries, items).len()
            ==> item_ids(items).contains(#[trigger] planned_tasks(entries, items)[i].message_id),
        forall|i: int| 0 <= i < planned_tasks(entries, items).len()
            ==> !early_failures(entries, items).contains(#[trigger] planned_tasks(entries, items)[i].message_id),
        forall|i: int, j: int| 0 <= i < j < planned_tasks(entries, items).len()
            ==> #[trigger] planned_tasks(entries, items)[i].message_id != #[trigger] planned_tasks(entries, items)[j].message_id,
    decreases items.len(),
{
    if items.len() > 0 {
        let t = items.drop_last();
        let ids = item_ids(items);
        let tids = item_ids(t);
        if items.last().message_id is Some {
            assert(ids == tids.push(items.last().message_id->Some_0));
            assert forall|a: int, b: int| 0 <= a < b < tids.len() implies tids[a] != tids[b] by {
                assert(tids[a] == ids[a] && tids[b] == ids[b]);
            }
            assert forall|a: int| 0 <= a < tids.len() implies tids[a] != items.last().message_id->Some_0 by {
                assert(tids[a] == ids[a]);
                assert(ids[tids.len() as int] == items.last().message_id->Some_0);
            }
        } else {
            assert(ids == tids);
        }
        lemma_plan_ids(entries, t);
        assert forall|x: String| tids.contains(x) implies ids.contains(x) by {
            let a = choose|a: int| 0 <= a < tids.len() && tids[a] == x;
            assert(ids[a] == x);
        }
        let et = early_failures(entries, t);
        let tt = planned_tasks(entries, t);
        match verdict_of(entries, items.last()) {
            Verdict::Fail(id) => {
                assert(early_failures(entries, items) == et.push(id));
                assert(ids.contains(id)) by {
                    assert(ids[tids.len() as int] == id);
                }
                assert forall|x: String| #[trigger] et.push(id).contains(x) implies ids.contains(x) by {
                    if x != id {
                        let a = choose|a: int| 0 <= a < et.push(id).len() && et.push(id)[a] == x;
                        assert(et[a] == x);
                        assert(et.contains(x));
                        assert(tids.contains(x));
                    }
                }
                assert forall|i: int| 0 <= i < tt.len() implies !et.push(id).contains(#[trigger] tt[i].message_id) by {
                    if et.push(id).contains(tt[i].message_id) {
                        let a = choose|a: int| 0 <= a < et.push(id).len() && et.push(id)[a] == tt[i].message_id;
                        if a < et.len() {
                            assert(et[a] == tt[i].message_id);
                        }
                    }
                }
            },
            Verdict::Dispatch(task) => {
                let id = task.message_id;
                assert(planned_tasks(entries, items) == tt.push(task));
                assert(ids[tids.len() as int] == id);
                assert(!tids.contains(id));
                assert(!et.contains(id));
                assert forall|i: int| 0 <= i < tt.len() implies tt[i].message_id != id by {
                    assert(tids.contains(tt[i].message_id));
                }
            },
            Verdict::Dropped => {},
        }
    }
}

/// With distinct message ids and one result per dispatched task, in task
/// order, every item is in exactly one of two places: an item whose result
/// succeeded is not in the report.
pub proof fn lemma_success_not_reported(
    entries: Seq<(String, PullContext)>,
    items: Seq<InboundItem>,
    results: Seq<TaskResult>,
    j: int,
)
    requires
        item_ids(items).no_duplicates(),
        results.len() == planned_tasks(entries, items).len(),
        forall|i: int| 0 <= i < results.len() ==> #[trigger] results[i].message_id
            == planned_tasks(entries, items)[i].message_id,
        0 <= j < results.len(),
        !(results[j].outcome is Failed),
    ensures
        !(early_failures(entries, items) + failed_ids(results)).contains(results[j].message_id),
{
    let tasks = planned_tasks(entries, items);
    let early = early_failures(entries, items);
    let id = results[j].message_id;
    lemma_plan_ids(entries, items);
    lemma_failed_ids_members(results, id);
    assert(results[j].message_id == tasks[j].message_id);
    assert(!early.contains(id));
    if exists|i: int| 0 <= i < results.len() && #[trigger] results[i].message_id == id
        && results[i].outcome is Failed {
        let i = choose|i: int| 0 <= i < results.len() && #[trigger] results[i].message_id == id
            && results[i].outcome is Failed;
        assert(tasks[i].message_id == tasks[j].message_id);
        if i < j {
            assert(tasks[i].message_id != tasks[j].message_id);
        } else if j < i {
            assert(tasks[j].message_id != tasks[i].message_id);
        }
    }
    let all = early + failed_ids(results);
    if all.contains(id) {
        let a = choose|a: int| 0 <= a < all.len() && all[a] == id;
        if a < early.len() {
            assert(early[a] == id);
        } else {
            assert(failed_ids(results)[a - early.len()] == id);
        }
    }
}

/// An empty batch dispatches nothing, fails nothing and is accepted whole.
pub proof fn lemma_empty_batch(entries: Seq<(String, PullContext)>)
    ensures
        early_failures(entries, Seq::empty()) == Seq::<String>::empty(),
        planned_tasks(entries, Seq::empty()) == Seq::<PullTask>::empty(),
        report_of(Seq::empty(), Seq::empty()) is None,
{
    assert(Seq::<String>::empty() + failed_ids(Seq::empty()) =~= Seq::<String>::empty());
}

} // verus!
