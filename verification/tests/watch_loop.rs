//! The watch loop against the in-memory broker: transfer, dispatch,
//! deduplication and acknowledgment.

use resc::broker::Broker;
use resc::conditions::Condition;
use resc::fetchers::Fetcher;
use resc::patterns::Pattern;
use resc::rules::{Rule, Ruleset};
use resc::watchers::Watcher;

fn build_watcher() -> Watcher {
    let rule = Rule {
        name: "build".to_string(),
        on_regex: Condition::new("^build:(?P<project>\\w+)$").unwrap(),
        fetchers: Vec::<Fetcher>::new(),
        make_task: Pattern::new("build-{project}".to_string()),
        make_queue: Pattern::new("ci-queue".to_string()),
    };
    Watcher {
        redis_url: "redis://localhost".to_string(),
        input_queue: "in".to_string(),
        taken_queue: "in/taken".to_string(),
        ruleset: Ruleset { rules: vec![rule] },
    }
}

#[test]
fn empty_input_queue_yields_nothing() {
    let w = build_watcher();
    let mut broker = Broker::new();
    assert!(w.run_cycle(&mut broker, 7).is_none());
    assert_eq!(broker.queue_len("ci-queue"), 0);
}

#[test]
fn one_cycle_dispatches_and_acknowledges() {
    let w = build_watcher();
    let mut broker = Broker::new();
    broker.push("in", "build:alpha");
    let ev = w.run_cycle(&mut broker, 100).unwrap();
    assert_eq!(ev, "build:alpha");
    // the event left both the input queue and the processing queue
    assert_eq!(broker.queue_len("in"), 0);
    assert_eq!(broker.queue_len("in/taken"), 0);
    // the novel result was pushed once and tracked once
    assert_eq!(broker.queue_len("ci-queue"), 1);
    assert_eq!(broker.pop_head("ci-queue").unwrap(), "build-alpha");
    assert_eq!(broker.score_of("ci-queue/set", "build-alpha"), Some(100));
}

#[test]
fn reprocessing_the_same_event_skips_the_push() {
    let w = build_watcher();
    let mut broker = Broker::new();
    broker.push("in", "build:alpha");
    w.run_cycle(&mut broker, 100).unwrap();
    broker.push("in", "build:alpha");
    w.run_cycle(&mut broker, 200).unwrap();
    // exactly one push in the destination queue, one tracking entry
    assert_eq!(broker.queue_len("ci-queue"), 1);
    assert_eq!(broker.score_of("ci-queue/set", "build-alpha"), Some(100));
    assert_eq!(broker.queue_len("in/taken"), 0);
}

#[test]
fn plan_flattens_matching_rules_in_order() {
    let r1 = Rule {
        name: "all".to_string(),
        on_regex: Condition::new("alpha").unwrap(),
        fetchers: Vec::<Fetcher>::new(),
        make_task: Pattern::new("first-{input_task}".to_string()),
        make_queue: Pattern::new("q1".to_string()),
    };
    let r2 = Rule {
        name: "never".to_string(),
        on_regex: Condition::new("^nothing$").unwrap(),
        fetchers: Vec::<Fetcher>::new(),
        make_task: Pattern::new("second".to_string()),
        make_queue: Pattern::new("q2".to_string()),
    };
    let r3 = Rule {
        name: "tail".to_string(),
        on_regex: Condition::new("a$").unwrap(),
        fetchers: Vec::<Fetcher>::new(),
        make_task: Pattern::new("third".to_string()),
        make_queue: Pattern::new("q3".to_string()),
    };
    let w = Watcher {
        redis_url: "redis://localhost".to_string(),
        input_queue: "in".to_string(),
        taken_queue: "in/taken".to_string(),
        ruleset: Ruleset { rules: vec![r1, r2, r3] },
    };
    let plan = w.plan("alpha");
    assert_eq!(plan.len(), 2);
    assert_eq!(plan[0].task, "first-alpha");
    assert_eq!(plan[1].task, "third");
}

#[test]
fn failing_rule_does_not_block_others() {
    let broken = Rule {
        name: "broken".to_string(),
        on_regex: Condition::new("^e$").unwrap(),
        fetchers: Vec::<Fetcher>::new(),
        make_task: Pattern::new("task-{absent}".to_string()),
        make_queue: Pattern::new("q".to_string()),
    };
    let sound = Rule {
        name: "sound".to_string(),
        on_regex: Condition::new("^e$").unwrap(),
        fetchers: Vec::<Fetcher>::new(),
        make_task: Pattern::new("ok-{input_task}".to_string()),
        make_queue: Pattern::new("q".to_string()),
    };
    let w = Watcher {
        redis_url: "redis://localhost".to_string(),
        input_queue: "in".to_string(),
        taken_queue: "in/taken".to_string(),
        ruleset: Ruleset { rules: vec![broken, sound] },
    };
    let mut broker = Broker::new();
    broker.push("in", "e");
    let ev = w.run_cycle(&mut broker, 5).unwrap();
    assert_eq!(ev, "e");
    // the broken rule contributed nothing; the sound one dispatched; the
    // event was still acknowledged
    assert_eq!(broker.queue_len("q"), 1);
    assert_eq!(broker.pop_head("q").unwrap(), "ok-e");
    assert_eq!(broker.queue_len("in/taken"), 0);
}

#[test]
fn broker_remove_one_takes_first_occurrence() {
    let mut broker = Broker::new();
    broker.push("q", "a");
    broker.push("q", "b");
    broker.push("q", "a");
    broker.remove_one("q", "a");
    assert_eq!(broker.queue_len("q"), 2);
    assert_eq!(broker.pop_head("q").unwrap(), "b");
    assert_eq!(broker.pop_head("q").unwrap(), "a");
}

#[test]
fn broker_transfer_pop_moves_the_head() {
    let mut broker = Broker::new();
    broker.push("src", "one");
    broker.push("src", "two");
    let v = broker.transfer_pop("src", "dst").unwrap();
    assert_eq!(v, "one");
    assert_eq!(broker.queue_len("src"), 1);
    assert_eq!(broker.queue_len("dst"), 1);
    assert_eq!(broker.pop_head("dst").unwrap(), "one");
}

#[test]
fn add_scored_updates_the_score() {
    let mut broker = Broker::new();
    assert_eq!(broker.score_of("s", "m"), None);
    broker.add_scored("s", "m", 10);
    assert_eq!(broker.score_of("s", "m"), Some(10));
    broker.add_scored("s", "m", 20);
    assert_eq!(broker.score_of("s", "m"), Some(20));
}
