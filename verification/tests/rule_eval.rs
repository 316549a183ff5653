//! Rule evaluation: matching, capture extraction, template injection, fan-out.

use resc::conditions::Condition;
use resc::errors::RescError;
use resc::fetchers::Fetcher;
use resc::patterns::Pattern;
use resc::props::PropertyMap;
use resc::rules::{Rule, Ruleset};

fn plain_rule(re: &str, task_tpl: &str, queue_tpl: &str, fetchers: Vec<Fetcher>) -> Rule {
    Rule {
        name: "r".to_string(),
        on_regex: Condition::new(re).unwrap(),
        fetchers,
        make_task: Pattern::new(task_tpl.to_string()),
        make_queue: Pattern::new(queue_tpl.to_string()),
    }
}

#[test]
fn build_rule_single_result() {
    let r = plain_rule("^build:(?P<project>\\w+)$", "build-{project}", "ci-queue", vec![]);
    assert!(r.is_match("build:alpha"));
    let rs = r.results("build:alpha").unwrap();
    assert_eq!(rs.len(), 1);
    assert_eq!(rs[0].task, "build-alpha");
    assert_eq!(rs[0].queue, "ci-queue");
    assert_eq!(rs[0].dedup_key, "ci-queue/set");
}

#[test]
fn non_matching_event_is_skipped() {
    let r = plain_rule("^build:(?P<project>\\w+)$", "build-{project}", "ci-queue", vec![]);
    assert!(!r.is_match("deploy:alpha"));
    let rs = Ruleset { rules: vec![r] };
    assert_eq!(rs.matching_rules("deploy:alpha").len(), 0);
}

#[test]
fn input_task_key_holds_raw_event() {
    let r = plain_rule("^scan", "again-{input_task}", "q", vec![]);
    let rs = r.results("scan:repo1").unwrap();
    assert_eq!(rs.len(), 1);
    assert_eq!(rs[0].task, "again-scan:repo1");
}

#[test]
fn fetcher_fan_out_two_results() {
    let mut a = PropertyMap::new();
    a.insert("target".to_string(), "repo1/a".to_string());
    let mut b = PropertyMap::new();
    b.insert("target".to_string(), "repo1/b".to_string());
    let f = Fetcher::Static(vec![a, b]);
    let r = plain_rule("^scan:(?P<repo>\\w+)$", "scan-{target}", "scan-queue", vec![f]);
    let rs = r.results("scan:repo1").unwrap();
    assert_eq!(rs.len(), 2);
    assert_eq!(rs[0].task, "scan-repo1/a");
    assert_eq!(rs[1].task, "scan-repo1/b");
    assert_eq!(rs[0].queue, "scan-queue");
    assert_eq!(rs[1].queue, "scan-queue");
}

#[test]
fn fetcher_result_count_across_fetchers() {
    let mut a = PropertyMap::new();
    a.insert("t".to_string(), "1".to_string());
    let mut b = PropertyMap::new();
    b.insert("t".to_string(), "2".to_string());
    let mut c = PropertyMap::new();
    c.insert("t".to_string(), "3".to_string());
    let f1 = Fetcher::Static(vec![a, b]);
    let f2 = Fetcher::Static(vec![c]);
    let r = plain_rule("^e$", "task-{t}", "q", vec![f1, f2]);
    let rs = r.results("e").unwrap();
    assert_eq!(rs.len(), 3);
    assert_eq!(rs[0].task, "task-1");
    assert_eq!(rs[1].task, "task-2");
    assert_eq!(rs[2].task, "task-3");
}

#[test]
fn fetcher_keys_win_over_base_keys() {
    let mut a = PropertyMap::new();
    a.insert("project".to_string(), "enriched".to_string());
    let f = Fetcher::Static(vec![a]);
    let r = plain_rule("^build:(?P<project>\\w+)$", "build-{project}", "q", vec![f]);
    let rs = r.results("build:alpha").unwrap();
    assert_eq!(rs.len(), 1);
    assert_eq!(rs[0].task, "build-enriched");
}

#[test]
fn base_keys_fill_missing_fetcher_keys() {
    let mut a = PropertyMap::new();
    a.insert("extra".to_string(), "x".to_string());
    let f = Fetcher::Static(vec![a]);
    let r = plain_rule("^build:(?P<project>\\w+)$", "{project}-{extra}", "q", vec![f]);
    let rs = r.results("build:alpha").unwrap();
    assert_eq!(rs[0].task, "alpha-x");
}

#[test]
fn missing_property_aborts_with_its_key() {
    let r = plain_rule("^e$", "task-{absent}", "q", vec![]);
    match r.results("e") {
        Err(RescError::MissingProperty(k)) => assert_eq!(k, "absent"),
        _ => panic!("expected a missing property error"),
    }
}

#[test]
fn invalid_regex_is_rejected() {
    match Condition::new("(") {
        Err(RescError::InvalidRegex) => {},
        _ => panic!("expected an invalid regex error"),
    }
}

#[test]
fn matching_rules_keeps_declaration_order() {
    let r1 = plain_rule("^a", "t1", "q1", vec![]);
    let r2 = plain_rule("^b", "t2", "q2", vec![]);
    let r3 = plain_rule("a$", "t3", "q3", vec![]);
    let rs = Ruleset { rules: vec![r1, r2, r3] };
    let m = rs.matching_rules("aba");
    assert_eq!(m.len(), 2);
    assert_eq!(m[0].name, "r");
    assert_eq!(m[0].make_task.inject(&PropertyMap::new()).unwrap(), "t1");
    assert_eq!(m[1].make_task.inject(&PropertyMap::new()).unwrap(), "t3");
}

#[test]
fn inject_unclosed_placeholder_is_literal() {
    let p = Pattern::new("a{b".to_string());
    let out = p.inject(&PropertyMap::new()).unwrap();
    assert_eq!(out, "a{b");
}

#[test]
fn inject_several_placeholders() {
    let mut pm = PropertyMap::new();
    pm.insert("a".to_string(), "1".to_string());
    pm.insert("b".to_string(), "2".to_string());
    let p = Pattern::new("{a}-{b}-{a}".to_string());
    assert_eq!(p.inject(&pm).unwrap(), "1-2-1");
}

#[test]
fn property_map_get_and_insert() {
    let mut pm = PropertyMap::new();
    assert!(pm.get("k").is_none());
    pm.insert("k".to_string(), "v".to_string());
    assert_eq!(pm.get("k").unwrap().as_str(), "v");
    assert!(pm.contains_key("k"));
    assert!(!pm.contains_key("other"));
}

#[test]
fn capture_named_input_task_wins_over_raw_event() {
    let r = plain_rule("^(?P<input_task>x+)y$", "t-{input_task}", "q", vec![]);
    let rs = r.results("xxy").unwrap();
    assert_eq!(rs[0].task, "t-xx");
}

#[test]
fn unnamed_groups_are_not_exposed() {
    let r = plain_rule("^(a+)(?P<rest>b*)$", "got-{rest}", "q", vec![]);
    let rs = r.results("aabb").unwrap();
    assert_eq!(rs[0].task, "got-bb");
}

#[test]
fn empty_template_injects_to_empty() {
    let p = Pattern::new(String::new());
    assert_eq!(p.inject(&PropertyMap::new()).unwrap(), "");
}
