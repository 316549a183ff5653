//! A watcher owns one input queue and its ruleset and runs the reliable
//! consume-evaluate-dispatch-acknowledge cycle: the event is moved atomically
//! from the input queue to the processing queue, every matching rule derives
//! results (a failing rule is skipped, not fatal), each novel result is pushed
//! to its destination queue and recorded in its tracking set, and the event is
//! finally removed from the processing queue.

use vstd::prelude::*;
use crate::broker::{
    bv_add_score, bv_push, bv_remove_one, bv_transfer, remove_first, Broker, BrokerView,
    lemma_remove_first_push,
};
use crate::rules::{rr_views, rule_results_spec, Rule, RuleResult, RuleResultView, Ruleset};

verus! {

/// The flattened results of all matching rules, in rule order then per-rule
/// order; a rule whose evaluation fails contributes nothing.
pub open spec fn ruleset_plan(rules: Seq<Rule>, event: Seq<char>) -> Seq<RuleResultView>
    decreases rules.len(),
{
    if rules.len() == 0 {
        Seq::empty()
    } else {
        let head = if rules[0].matches(event) {
            match rule_results_spec(rules[0], event) {
                Ok(rs) => rs,
                Err(_) => Seq::empty(),
            }
        } else {
            Seq::empty()
        };
        head + ruleset_plan(rules.drop_first(), event)
    }
}

/// Dispatching one result: when its task is already tracked under its dedup
/// key the broker is untouched, else the task is pushed to the destination
/// queue and recorded with the given score.
pub open spec fn dispatch_one(bv: BrokerView, r: RuleResultView, now: u64) -> BrokerView {
    if bv.scores[r.dedup_key].dom().contains(r.task) {
        bv
    } else {
        bv_add_score(bv_push(bv, r.queue, r.task), r.dedup_key, r.task, now)
    }
}

/// Dispatching a sequence of results, in order.
pub open spec fn dispatch_seq(bv: BrokerView, rs: Seq<RuleResultView>, now: u64) -> BrokerView
    decreases rs.len(),
{
    if rs.len() == 0 {
        bv
    } else {
        dispatch_seq(dispatch_one(bv, rs[0], now), rs.drop_first(), now)
    }
}

/// One whole cycle on the head event of `input`: transfer it to `taken`,
/// dispatch the plan of the rules, remove the event from `taken`.
pub open spec fn cycle_spec(
    bv: BrokerView,
    input: Seq<char>,
    taken: Seq<char>,
    rules: Seq<Rule>,
    now: u64,
) -> BrokerView {
    let ev = bv.queues[input][0];
    bv_remove_one(dispatch_seq(bv_transfer(bv, input, taken), ruleset_plan(rules, ev), now), taken, ev)
}

/// A watcher: one input queue, its processing queue, and its ruleset.
pub struct Watcher {
    pub redis_url: String,
    pub input_queue: String,
    pub taken_queue: String,
    pub ruleset: Ruleset,
}

impl Watcher {
    /// Every rule of the ruleset is well formed.
    pub open spec fn wf(self) -> bool {
        self.ruleset.wf()
    }

    /// Evaluates every matching rule on `event` and flattens the results, in
    /// rule order then per-rule order. A failing rule contributes nothing and
    /// does not abort the others.
    pub fn plan(&self, event: &str) -> (r: Vec<RuleResult>)
        requires
            self.wf(),
        ensures
            rr_views(r@) == ruleset_plan(self.ruleset.rules@, event@),
    {
        let rules = &self.ruleset.rules;
        let mut out: Vec<RuleResult> = Vec::new();
        let mut i: usize = 0;
        proof {
            assert(rules@.skip(0) =~= rules@);
            assert(rr_views(out@) =~= Seq::<RuleResultView>::empty());
            assert(Seq::<RuleResultView>::empty() + ruleset_plan(rules@, event@) =~= ruleset_plan(
                rules@,
                event@,
            ));
        }
        while i < rules.len()
            invariant
                i <= rules@.len(),
                self.wf(),
                rules@ == self.ruleset.rules@,
                ruleset_plan(rules@, event@) == rr_views(out@) + ruleset_plan(
                    rules@.skip(i as int),
                    event@,
                ),
            decreases rules@.len() - i,
        {
            let ghost suffix = rules@.skip(i as int);
            proof {
                assert(suffix[0] == rules@[i as int]);
                assert(suffix.drop_first() =~= rules@.skip(i as int + 1));
            }
            let ru = &rules[i];
            let ghost head = if ru.matches(event@) {
                match rule_results_spec(*ru, event@) {
                    Ok(rs) => rs,
                    Err(_) => Seq::<RuleResultView>::empty(),
                }
            } else {
                Seq::<RuleResultView>::empty()
            };
            proof {
                assert(ruleset_plan(suffix, event@) == head + ruleset_plan(
                    rules@.skip(i as int + 1),
                    event@,
                ));
            }
            let ghost before = out@;
            if ru.is_match(event) {
                match ru.results(event) {
                    Ok(mut rs) => {
                        let ghost rsv = rs@;
                        out.append(&mut rs);
                        proof {
                            assert(rr_views(out@) =~= rr_views(before) + rr_views(rsv));
                            assert(rr_views(rsv) == head);
                        }
                    },
                    Err(_) => {
                        proof {
                            assert(head =~= Seq::<RuleResultView>::empty());
                        }
                    },
                }
            }
            proof {
                assert(rr_views(out@) + ruleset_plan(rules@.skip(i as int + 1), event@) =~= (
                rr_views(before) + head) + ruleset_plan(rules@.skip(i as int + 1), event@));
            }
            i += 1;
        }
        proof {
            assert(rules@.skip(rules@.len() as int) =~= Seq::<Rule>::empty());
            assert(rr_views(out@) + Seq::<RuleResultView>::empty() =~= rr_views(out@));
        }
        out
    }

    /// One cycle of the watch loop against the broker: takes the head of the
    /// input queue (atomically into the processing queue), dispatches every
    /// novel result of the matching rules, records it with score `now`, and
    /// acknowledges the event. `None` when the input queue is empty.
    pub fn run_cycle(&self, broker: &mut Broker, now: u64) -> (r: Option<String>)
        requires
            self.wf(),
            old(broker).wf(),
        ensures
            final(broker).wf(),
            match r {
                None => final(broker)@ == old(broker)@ && old(broker)@.queues[self.input_queue@].len()
                    == 0,
                Some(ev) => old(broker)@.queues[self.input_queue@].len() > 0 && ev@ == old(
                    broker,
                )@.queues[self.input_queue@][0] && final(broker)@ == cycle_spec(
                    old(broker)@,
                    self.input_queue@,
                    self.taken_queue@,
                    self.ruleset.rules@,
                    now,
                ),
            },
    {
        let ev = match broker.transfer_pop(self.input_queue.as_str(), self.taken_queue.as_str()) {
            None => {
                return None;
            },
            Some(v) => v,
        };
        let results = self.plan(ev.as_str());
        let ghost bv1 = broker@;
        let ghost plan_views = rr_views(results@);
        let mut i: usize = 0;
        proof {
            assert(plan_views.skip(0) =~= plan_views);
        }
        while i < results.len()
            invariant
                i <= results@.len(),
                broker.wf(),
                plan_views == rr_views(results@),
                dispatch_seq(bv1, plan_views, now) == dispatch_seq(
                    broker@,
                    plan_views.skip(i as int),
                    now,
                ),
            decreases results@.len() - i,
        {
            let ghost suffix = plan_views.skip(i as int);
            proof {
                assert(suffix[0] == results@[i as int]@);
                assert(suffix.drop_first() =~= plan_views.skip(i as int + 1));
            }
            let rr = &results[i];
            match broker.score_of(rr.dedup_key.as_str(), rr.task.as_str()) {
                Some(_) => {
                    proof {
                        assert(dispatch_one(broker@, suffix[0], now) == broker@);
                    }
                },
                None => {
                    broker.push(rr.queue.as_str(), rr.task.as_str());
                    broker.add_scored(rr.dedup_key.as_str(), rr.task.as_str(), now);
                },
            }
            i += 1;
        }
        proof {
            assert(plan_views.skip(results@.len() as int) =~= Seq::<RuleResultView>::empty());
        }
        broker.remove_one(self.taken_queue.as_str(), ev.as_str());
        Some(ev)
    }
}

/// Dedup idempotence: dispatching the same result twice in sequence changes
/// the broker exactly once; when the task was novel, exactly one copy of it is
/// pushed to the destination queue and exactly one tracking entry is written.
pub proof fn lemma_dispatch_idempotent(bv: BrokerView, r: RuleResultView, t1: u64, t2: u64)
    ensures
        dispatch_one(dispatch_one(bv, r, t1), r, t2) == dispatch_one(bv, r, t1),
        dispatch_seq(bv, seq![r, r], t1) == dispatch_one(bv, r, t1),
        !bv.scores[r.dedup_key].dom().contains(r.task) ==> dispatch_one(bv, r, t1).queues[r.queue]
            == bv.queues[r.queue].push(r.task),
        !bv.scores[r.dedup_key].dom().contains(r.task) ==> dispatch_one(bv, r, t1).scores[r.dedup_key]
            == bv.scores[r.dedup_key].insert(r.task, t1),
{
    assert(dispatch_one(bv, r, t1).scores[r.dedup_key].dom().contains(r.task));
    let d1 = dispatch_one(bv, r, t1);
    assert(seq![r, r][0] == r);
    assert(seq![r, r].drop_first() =~= seq![r]);
    assert(seq![r][0] == r);
    assert(seq![r].drop_first() =~= Seq::<RuleResultView>::empty());
    assert(dispatch_seq(bv, seq![r, r], t1) == dispatch_seq(d1, seq![r], t1));
    assert(dispatch_seq(d1, seq![r], t1) == dispatch_seq(
        dispatch_one(d1, r, t1),
        Seq::<RuleResultView>::empty(),
        t1,
    ));
    assert(dispatch_one(d1, r, t1) == d1);
    assert(dispatch_seq(d1, Seq::<RuleResultView>::empty(), t1) == d1);
}

/// Dispatching never touches a queue that no result targets.
pub proof fn lemma_dispatch_other_queue(
    bv: BrokerView,
    rs: Seq<RuleResultView>,
    now: u64,
    q: Seq<char>,
)
    requires
        forall|i: int| 0 <= i < rs.len() ==> (#[trigger] rs[i]).queue != q,
    ensures
        dispatch_seq(bv, rs, now).queues[q] == bv.queues[q],
    decreases rs.len(),
{
    if rs.len() > 0 {
        assert(rs[0].queue != q);
        lemma_dispatch_other_queue(dispatch_one(bv, rs[0], now), rs.drop_first(), now, q);
    }
}

/// How many results of `rs`, dispatched in order against `bv`, are novel at
/// their turn and target queue `q`.
pub open spec fn dispatched_count(
    bv: BrokerView,
    rs: Seq<RuleResultView>,
    now: u64,
    q: Seq<char>,
) -> nat
    decreases rs.len(),
{
    if rs.len() == 0 {
        0
    } else {
        let novel = !bv.scores[rs[0].dedup_key].dom().contains(rs[0].task) && rs[0].queue == q;
        (if novel {
            1nat
        } else {
            0nat
        }) + dispatched_count(dispatch_one(bv, rs[0], now), rs.drop_first(), now, q)
    }
}

/// A queue grows by exactly one element per novel result that targets it.
pub proof fn lemma_dispatch_queue_growth(
    bv: BrokerView,
    rs: Seq<RuleResultView>,
    now: u64,
    q: Seq<char>,
)
    ensures
        dispatch_seq(bv, rs, now).queues[q].len() == bv.queues[q].len() + dispatched_count(
            bv,
            rs,
            now,
            q,
        ),
    decreases rs.len(),
{
    if rs.len() > 0 {
        lemma_dispatch_queue_growth(dispatch_one(bv, rs[0], now), rs.drop_first(), now, q);
    }
}

/// Acknowledgment: after a successful cycle on an event that was not lingering
/// in the processing queue, whose results do not target the processing queue,
/// the processing queue is exactly as before the cycle: the event is gone from
/// it.
pub proof fn lemma_cycle_acknowledges(
    bv: BrokerView,
    input: Seq<char>,
    taken: Seq<char>,
    rules: Seq<Rule>,
    now: u64,
)
    requires
        bv.queues[input].len() > 0,
        input != taken,
        !bv.queues[taken].contains(bv.queues[input][0]),
        forall|i: int|
            0 <= i < ruleset_plan(rules, bv.queues[input][0]).len() ==> (#[trigger] ruleset_plan(
                rules,
                bv.queues[input][0],
            )[i]).queue != taken,
    ensures
        cycle_spec(bv, input, taken, rules, now).queues[taken] == bv.queues[taken],
        !cycle_spec(bv, input, taken, rules, now).queues[taken].contains(bv.queues[input][0]),
{
    let ev = bv.queues[input][0];
    let bv1 = bv_transfer(bv, input, taken);
    assert(bv1.queues[taken] == bv.queues[taken].push(ev));
    let bv2 = dispatch_seq(bv1, ruleset_plan(rules, ev), now);
    lemma_dispatch_other_queue(bv1, ruleset_plan(rules, ev), now, taken);
    assert(forall|t: int|
        0 <= t < bv.queues[taken].len() ==> bv.queues[taken][t] != ev) by {
        assert(forall|t: int|
            0 <= t < bv.queues[taken].len() ==> bv.queues[taken].contains(bv.queues[taken][t]));
    }
    lemma_remove_first_push(bv.queues[taken], ev);
    assert(cycle_spec(bv, input, taken, rules, now).queues[taken] == remove_first(
        bv.queues[taken].push(ev),
        ev,
    ));
    if cycle_spec(bv, input, taken, rules, now).queues[taken].contains(ev) {
        let t = choose|t: int|
            0 <= t < bv.queues[taken].len() && bv.queues[taken][t] == ev;
        assert(false);
    }
}

/// A ruleset in which no rule matches the event plans nothing.
pub proof fn lemma_no_match_no_plan(rules: Seq<Rule>, event: Seq<char>)
    requires
        forall|i: int| 0 <= i < rules.len() ==> !(#[trigger] rules[i]).matches(event),
    ensures
        ruleset_plan(rules, event) == Seq::<RuleResultView>::empty(),
    decreases rules.len(),
{
    if rules.len() > 0 {
        assert(!rules[0].matches(event));
        assert(forall|i: int|
            0 <= i < rules.drop_first().len() ==> rules.drop_first()[i] == rules[i + 1]);
        lemma_no_match_no_plan(rules.drop_first(), event);
        assert(Seq::<RuleResultView>::empty() + Seq::<RuleResultView>::empty() =~= Seq::<
            RuleResultView,
        >::empty());
    }
}

} // verus!
