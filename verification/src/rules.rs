//! Rules: a regex condition plus zero or more fetchers and two templates.
//! A matching rule evaluates an event into one or more `RuleResult`s: the base
//! properties come from the named captures plus the reserved key `input_task`;
//! with fetchers, every fetched map (its keys winning over the base ones on
//! collision) yields one result, in fetcher order then per-fetcher order.

use vstd::prelude::*;
use vstd::string::StringExecFns;
use crate::assoc::{alist_map, lemma_alist_map_dom, lemma_alist_has_exists, lemma_alist_push};
use crate::conditions::{regex_captures, regex_match, Condition, pairs_view};
use crate::errors::{RescError, RescResult};
use crate::fetchers::{pm_views, Fetcher};
use crate::patterns::{inject_spec, Pattern};
use crate::props::PropertyMap;

verus! {

/// The abstract value of a rule result.
#[verifier::ext_equal]
pub struct RuleResultView {
    pub task: Seq<char>,
    pub queue: Seq<char>,
    pub dedup_key: Seq<char>,
}

/// The result of applying a rule to a task: the new task, its destination
/// queue, and the name of the tracking set that suppresses a second dispatch
/// of the same task to that queue.
pub struct RuleResult {
    pub task: String,
    pub queue: String,
    pub dedup_key: String,
}

impl View for RuleResult {
    type V = RuleResultView;

    open spec fn view(&self) -> RuleResultView {
        RuleResultView { task: self.task@, queue: self.queue@, dedup_key: self.dedup_key@ }
    }
}

/// The views of a sequence of rule results.
pub open spec fn rr_views(s: Seq<RuleResult>) -> Seq<RuleResultView> {
    s.map_values(|r: RuleResult| r@)
}

/// The tracking set of a destination queue: one set per queue, derived from
/// the queue name. This derivation is this engine's configuration decision.
pub open spec fn dedup_key_spec(queue: Seq<char>) -> Seq<char> {
    queue + "/set"@
}

/// A rule, defined by a condition (the "on" pattern) and what to do with the
/// matching tasks. Immutable after construction.
pub struct Rule {
    pub name: String,
    pub on_regex: Condition,
    pub fetchers: Vec<Fetcher>,
    pub make_task: Pattern,
    pub make_queue: Pattern,
}

/// Capture pairs as a map (group names are distinct, so order is moot).
pub open spec fn gpairs_map(s: Seq<(Seq<char>, Seq<char>)>) -> Map<Seq<char>, Seq<char>>
    decreases s.len(),
{
    if s.len() == 0 {
        Map::empty()
    } else {
        gpairs_map(s.drop_last()).insert(s.last().0, s.last().1)
    }
}

pub proof fn lemma_gpairs_map_dom(s: Seq<(Seq<char>, Seq<char>)>, key: Seq<char>)
    ensures
        gpairs_map(s).dom().contains(key) <==> exists|i: int| 0 <= i < s.len() && s[i].0 == key,
    decreases s.len(),
{
    if s.len() > 0 {
        lemma_gpairs_map_dom(s.drop_last(), key);
        if s.last().0 == key {
            assert(s[s.len() - 1].0 == key);
        }
        if exists|i: int| 0 <= i < s.drop_last().len() && s.drop_last()[i].0 == key {
            let i = choose|i: int| 0 <= i < s.drop_last().len() && s.drop_last()[i].0 == key;
            assert(s[i] == s.drop_last()[i]);
        }
        if exists|i: int| 0 <= i < s.len() && s[i].0 == key {
            let i = choose|i: int| 0 <= i < s.len() && s[i].0 == key;
            if i < s.len() - 1 {
                assert(s.drop_last()[i] == s[i]);
            }
        }
    }
}

/// The base property map of a matching event: the named captures plus
/// `input_task` bound to the raw event (a capture of that name wins).
pub open spec fn base_props_spec(event: Seq<char>, caps: Seq<(Seq<char>, Seq<char>)>) -> Map<
    Seq<char>,
    Seq<char>,
> {
    let m = gpairs_map(caps);
    if m.dom().contains("input_task"@) {
        m
    } else {
        m.insert("input_task"@, event)
    }
}

/// Injecting one property map into the rule's two templates: the rule result,
/// or the first missing key (task template first).
pub open spec fn inject_result_spec(r: Rule, props: Map<Seq<char>, Seq<char>>) -> Result<
    RuleResultView,
    Seq<char>,
> {
    match inject_spec(r.make_task.tpl(), props) {
        Ok(task) => match inject_spec(r.make_queue.tpl(), props) {
            Ok(queue) => Ok(
                RuleResultView { task, queue, dedup_key: dedup_key_spec(queue) },
            ),
            Err(k) => Err(k),
        },
        Err(k) => Err(k),
    }
}

/// All maps the fetchers yield, fetcher order then per-fetcher order.
pub open spec fn fetchers_maps(fs: Seq<Fetcher>) -> Seq<Map<Seq<char>, Seq<char>>>
    decreases fs.len(),
{
    if fs.len() == 0 {
        Seq::empty()
    } else {
        fs[0].maps() + fetchers_maps(fs.drop_first())
    }
}

/// Evaluating a rule over a sequence of fetched maps: under each map, the base
/// properties fill in only the keys the fetcher did not set; the first
/// injection failure aborts the whole evaluation.
pub open spec fn fetch_eval(
    r: Rule,
    base: Map<Seq<char>, Seq<char>>,
    maps: Seq<Map<Seq<char>, Seq<char>>>,
) -> Result<Seq<RuleResultView>, Seq<char>>
    decreases maps.len(),
{
    if maps.len() == 0 {
        Ok(Seq::empty())
    } else {
        match inject_result_spec(r, base.union_prefer_right(maps[0])) {
            Ok(rr) => match fetch_eval(r, base, maps.drop_first()) {
                Ok(rest) => Ok(seq![rr] + rest),
                Err(k) => Err(k),
            },
            Err(k) => Err(k),
        }
    }
}

/// The whole evaluation of one matching rule: one result from the base
/// properties when there are no fetchers, else one result per fetched map.
pub open spec fn rule_results_spec(r: Rule, event: Seq<char>) -> Result<
    Seq<RuleResultView>,
    Seq<char>,
> {
    let base = base_props_spec(event, regex_captures(r.on_regex.pattern(), event));
    if r.fetchers@.len() == 0 {
        match inject_result_spec(r, base) {
            Ok(rr) => Ok(seq![rr]),
            Err(k) => Err(k),
        }
    } else {
        fetch_eval(r, base, fetchers_maps(r.fetchers@))
    }
}

impl Rule {
    /// Every fetcher's maps have distinct keys.
    pub open spec fn wf(self) -> bool {
        forall|i: int| 0 <= i < self.fetchers@.len() ==> (#[trigger] self.fetchers@[i]).wf()
    }

    /// Whether the rule's condition matches anywhere in `event`.
    pub open spec fn matches(self, event: Seq<char>) -> bool {
        regex_match(self.on_regex.pattern(), event)
    }

    /// True iff the condition regex matches anywhere in `task`.
    pub fn is_match(&self, task: &str) -> (r: bool)
        ensures
            r == self.matches(task@),
    {
        self.on_regex.is_match(task)
    }

    /// Injects one merged property map into both templates.
    fn result(&self, props: &PropertyMap) -> (r: RescResult<RuleResult>)
        requires
            props.wf(),
        ensures
            match inject_result_spec(*self, props@) {
                Ok(rr) => r matches Ok(res) && res@ == rr,
                Err(k) => r matches Err(RescError::MissingProperty(m)) && m@ == k,
            },
    {
        let task = match self.make_task.inject(props) {
            Ok(t) => t,
            Err(e) => {
                return Err(e);
            },
        };
        let queue = match self.make_queue.inject(props) {
            Ok(q) => q,
            Err(e) => {
                return Err(e);
            },
        };
        let dedup_key = queue.clone().concat("/set");
        let res = RuleResult { task, queue, dedup_key };
        proof {
            assert(res@ =~= inject_result_spec(*self, props@)->Ok_0);
        }
        Ok(res)
    }

    /// Builds the base property map for a matching event.
    fn base_props(&self, event: &str) -> (r: PropertyMap)
        requires
            self.matches(event@),
        ensures
            r.wf(),
            r@ == base_props_spec(event@, regex_captures(self.on_regex.pattern(), event@)),
    {
        let ghost cview = regex_captures(self.on_regex.pattern(), event@);
        let caps = match self.on_regex.named_captures(event) {
            Some(c) => c,
            None => {
                proof {
                    assert(false);
                }
                Vec::new()
            },
        };
        let mut pm = PropertyMap::new();
        let mut i: usize = 0;
        proof {
            assert(pairs_view(caps@) == cview);
        }
        while i < caps.len()
            invariant
                i <= caps@.len(),
                pm.wf(),
                pairs_view(caps@) == cview,
                pm@ == gpairs_map(cview.take(i as int)),
                forall|a: int, b: int| 0 <= a < b < caps@.len() ==> caps@[a].0@ != caps@[b].0@,
            decreases caps@.len() - i,
        {
            proof {
                lemma_gpairs_map_dom(cview.take(i as int), caps@[i as int].0@);
                assert(forall|t: int|
                    0 <= t < i ==> cview.take(i as int)[t] == (caps@[t].0@, caps@[t].1@));
                assert(!pm@.dom().contains(caps@[i as int].0@));
            }
            let key = caps[i].0.clone();
            let value = caps[i].1.clone();
            pm.insert(key, value);
            proof {
                assert(cview.take(i as int + 1).drop_last() =~= cview.take(i as int));
                assert(cview.take(i as int + 1).last() == (caps@[i as int].0@, caps@[i as int].1@));
                assert(pm@ == gpairs_map(cview.take(i as int + 1)));
            }
            i += 1;
        }
        proof {
            assert(cview.take(caps@.len() as int) =~= cview);
        }
        if !pm.contains_key("input_task") {
            pm.insert("input_task".to_owned(), event.to_owned());
        }
        pm
    }

    /// Assuming the rule matches, computes the rule results: exactly one from
    /// the base properties when the rule has no fetchers, else one per fetched
    /// map, in fetcher order then per-fetcher order, the fetched keys winning
    /// over the base ones. The first missing placeholder key aborts the whole
    /// evaluation with that key's error.
    pub fn results(&self, task: &str) -> (r: RescResult<Vec<RuleResult>>)
        requires
            self.wf(),
            self.matches(task@),
        ensures
            match rule_results_spec(*self, task@) {
                Ok(rs) => r matches Ok(v) && rr_views(v@) == rs,
                Err(k) => r matches Err(RescError::MissingProperty(m)) && m@ == k,
            },
    {
        let base = self.base_props(task);
        let ghost bm = base@;
        let mut results: Vec<RuleResult> = Vec::new();
        if self.fetchers.len() == 0 {
            match self.result(&base) {
                Ok(rr) => {
                    results.push(rr);
                    proof {
                        assert(rr_views(results@) =~= seq![rr@]);
                    }
                    Ok(results)
                },
                Err(e) => Err(e),
            }
        } else {
            let ghost allmaps = fetchers_maps(self.fetchers@);
            let mut fi: usize = 0;
            proof {
                assert(self.fetchers@.skip(0) =~= self.fetchers@);
                assert(rr_views(results@) =~= Seq::<RuleResultView>::empty());
            }
            while fi < self.fetchers.len()
                invariant
                    fi <= self.fetchers@.len(),
                    self.wf(),
                    base.wf(),
                    base@ == bm,
                    allmaps == fetchers_maps(self.fetchers@),
                    rule_results_spec(*self, task@) == fetch_eval(*self, bm, allmaps),
                    fetch_eval(*self, bm, allmaps) == match fetch_eval(
                        *self,
                        bm,
                        fetchers_maps(self.fetchers@.skip(fi as int)),
                    ) {
                        Ok(rest) => Ok::<Seq<RuleResultView>, Seq<char>>(rr_views(results@) + rest),
                        Err(k) => Err::<Seq<RuleResultView>, Seq<char>>(k),
                    },
                decreases self.fetchers@.len() - fi,
            {
                let ghost fmaps = self.fetchers@[fi as int].maps();
                let ghost tail = fetchers_maps(self.fetchers@.skip(fi as int + 1));
                proof {
                    assert(self.fetchers@.skip(fi as int)[0] == self.fetchers@[fi as int]);
                    assert(self.fetchers@.skip(fi as int).drop_first() =~= self.fetchers@.skip(
                        fi as int + 1,
                    ));
                    assert(fetchers_maps(self.fetchers@.skip(fi as int)) == fmaps + tail);
                    assert(fmaps.skip(0) =~= fmaps);
                }
                let fetched = match self.fetchers[fi].results(&base) {
                    Ok(v) => v,
                    Err(e) => {
                        return Err(e);
                    },
                };
                let mut mi: usize = 0;
                while mi < fetched.len()
                    invariant
                        mi <= fetched@.len(),
                        self.wf(),
                        base.wf(),
                        base@ == bm,
                        pm_views(fetched@) == fmaps,
                        forall|t: int| 0 <= t < fetched@.len() ==> (#[trigger] fetched@[t]).wf(),
                        tail == fetchers_maps(self.fetchers@.skip(fi as int + 1)),
                        rule_results_spec(*self, task@) == fetch_eval(*self, bm, allmaps),
                        fetch_eval(*self, bm, allmaps) == match fetch_eval(
                            *self,
                            bm,
                            fmaps.skip(mi as int) + tail,
                        ) {
                            Ok(rest) => Ok::<Seq<RuleResultView>, Seq<char>>(
                                rr_views(results@) + rest,
                            ),
                            Err(k) => Err::<Seq<RuleResultView>, Seq<char>>(k),
                        },
                    decreases fetched@.len() - mi,
                {
                    let ghost fmap = fmaps[mi as int];
                    let ghost remaining = fmaps.skip(mi as int) + tail;
                    proof {
                        assert(fetched@[mi as int]@ == fmap);
                        assert(remaining[0] == fmap);
                        assert(remaining.drop_first() =~= fmaps.skip(mi as int + 1) + tail);
                    }
                    // merge: the fetched map wins; base fills in only absent keys
                    let mut merged = fetched[mi].clone();
                    proof {
                        assert(merged@ == fmap);
                        assert(merged.wf());
                        assert(alist_map(base.kv().take(0), |v: String| v@) =~= Map::<
                            Seq<char>,
                            Seq<char>,
                        >::empty());
                        assert(Map::<Seq<char>, Seq<char>>::empty().union_prefer_right(fmap) =~= fmap);
                    }
                    let blen = base.len();
                    let mut t: usize = 0;
                    while t < blen
                        invariant
                            t <= base.kv().len(),
                            blen == base.kv().len(),
                            base.wf(),
                            merged.wf(),
                            merged@ == alist_map(
                                base.kv().take(t as int),
                                |v: String| v@,
                            ).union_prefer_right(fmap),
                        decreases blen - t,
                    {
                        let ghost e = base.kv()[t as int];
                        let ghost pre = alist_map(base.kv().take(t as int), |v: String| v@);
                        proof {
                            lemma_alist_push(
                                base.kv().take(t as int),
                                e,
                                |v: String| v@,
                                Seq::<char>::empty(),
                                e.0@,
                            );
                            assert(base.kv().take(t as int).push(e) =~= base.kv().take(t as int + 1));
                            lemma_alist_map_dom(base.kv().take(t as int), |v: String| v@, e.0@);
                            lemma_alist_has_exists(base.kv().take(t as int), e.0@);
                            assert(forall|a: int|
                                0 <= a < t ==> base.kv().take(t as int)[a] == base.kv()[a]);
                            assert(!pre.dom().contains(e.0@));
                        }
                        let key = base.key_at(t);
                        if !merged.contains_key(key.as_str()) {
                            let k2 = key.clone();
                            let v2 = base.val_at(t).clone();
                            merged.insert(k2, v2);
                            proof {
                                assert(merged@ =~= pre.insert(e.0@, e.1@).union_prefer_right(fmap));
                            }
                        } else {
                            proof {
                                assert(fmap.dom().contains(e.0@));
                                assert(merged@ =~= pre.insert(e.0@, e.1@).union_prefer_right(fmap));
                            }
                        }
                        t += 1;
                    }
                    proof {
                        assert(base.kv().take(blen as int) =~= base.kv());
                        assert(merged@ == bm.union_prefer_right(fmap));
                        let rem2 = fmaps.skip(mi as int + 1) + tail;
                        assert(remaining.drop_first() =~= rem2);
                        assert(fetch_eval(*self, bm, remaining) == match inject_result_spec(
                            *self,
                            bm.union_prefer_right(fmap),
                        ) {
                            Ok(rr) => match fetch_eval(*self, bm, rem2) {
                                Ok(rest) => Ok::<Seq<RuleResultView>, Seq<char>>(seq![rr] + rest),
                                Err(k) => Err::<Seq<RuleResultView>, Seq<char>>(k),
                            },
                            Err(k) => Err::<Seq<RuleResultView>, Seq<char>>(k),
                        });
                    }
                    match self.result(&merged) {
                        Ok(rr) => {
                            let ghost before = results@;
                            results.push(rr);
                            proof {
                                let rem2 = fmaps.skip(mi as int + 1) + tail;
                                assert(rr_views(results@) =~= rr_views(before) + seq![rr@]);
                                if fetch_eval(*self, bm, rem2) is Ok {
                                    let rest = fetch_eval(*self, bm, rem2)->Ok_0;
                                    assert((rr_views(before) + (seq![rr@] + rest)) =~= (rr_views(
                                        results@,
                                    ) + rest));
                                }
                            }
                        },
                        Err(e) => {
                            return Err(e);
                        },
                    }
                    mi += 1;
                }
                proof {
                    assert(fmaps.skip(fetched@.len() as int) =~= Seq::<
                        Map<Seq<char>, Seq<char>>,
                    >::empty());
                    assert(Seq::<Map<Seq<char>, Seq<char>>>::empty() + tail =~= tail);
                }
                fi += 1;
            }
            proof {
                assert(self.fetchers@.skip(self.fetchers@.len() as int) =~= Seq::<Fetcher>::empty());
                assert(fetch_eval(*self, bm, fetchers_maps(Seq::<Fetcher>::empty()))
                    == Ok::<Seq<RuleResultView>, Seq<char>>(Seq::empty()));
                assert(rr_views(results@) + Seq::<RuleResultView>::empty() =~= rr_views(results@));
            }
            Ok(results)
        }
    }
}

/// All the rules of a watcher, that is the rules related to an input queue.
/// Order determines evaluation order; all matching rules are applied.
pub struct Ruleset {
    pub rules: Vec<Rule>,
}

/// The rules of `rules` whose condition matches `event`, in declaration order.
pub open spec fn matching_of(rules: Seq<Rule>, event: Seq<char>) -> Seq<Rule> {
    rules.filter(|ru: Rule| ru.matches(event))
}

/// The values behind a sequence of rule references.
pub open spec fn rule_derefs(s: Seq<&Rule>) -> Seq<Rule> {
    s.map_values(|x: &Rule| *x)
}

impl Ruleset {
    /// Every rule is well formed.
    pub open spec fn wf(self) -> bool {
        forall|i: int| 0 <= i < self.rules@.len() ==> (#[trigger] self.rules@[i]).wf()
    }

    /// The rules matching `task`, in declaration order; every rule is tested,
    /// not only the first match.
    pub fn matching_rules(&self, task: &str) -> (r: Vec<&Rule>)
        ensures
            rule_derefs(r@) == matching_of(self.rules@, task@),
    {
        let mut out: Vec<&Rule> = Vec::new();
        let mut i: usize = 0;
        proof {
            assert(self.rules@.take(0) =~= Seq::<Rule>::empty());
            reveal(Seq::filter);
            assert(rule_derefs(out@) =~= matching_of(self.rules@.take(0), task@));
        }
        while i < self.rules.len()
            invariant
                i <= self.rules@.len(),
                rule_derefs(out@) == matching_of(self.rules@.take(i as int), task@),
            decreases self.rules@.len() - i,
        {
            let ru = &self.rules[i];
            proof {
                reveal(Seq::filter);
                assert(self.rules@.take(i as int + 1).drop_last() =~= self.rules@.take(i as int));
                assert(self.rules@.take(i as int + 1).last() == self.rules@[i as int]);
            }
            if ru.is_match(task) {
                out.push(ru);
                proof {
                    assert(rule_derefs(out@) =~= rule_derefs(out@.drop_last()).push(
                        self.rules@[i as int],
                    ));
                }
            }
            i += 1;
        }
        proof {
            assert(self.rules@.take(self.rules@.len() as int) =~= self.rules@);
        }
        out
    }
}

/// A rule with no fetchers yields exactly one result whenever it yields any.
pub proof fn lemma_no_fetchers_one_result(r: Rule, event: Seq<char>)
    requires
        r.fetchers@.len() == 0,
        rule_results_spec(r, event) is Ok,
    ensures
        (rule_results_spec(r, event)->Ok_0).len() == 1,
{
}

proof fn lemma_fetch_eval_count(r: Rule, base: Map<Seq<char>, Seq<char>>, maps: Seq<Map<Seq<char>, Seq<char>>>)
    requires
        fetch_eval(r, base, maps) is Ok,
    ensures
        (fetch_eval(r, base, maps)->Ok_0).len() == maps.len(),
    decreases maps.len(),
{
    if maps.len() > 0 {
        lemma_fetch_eval_count(r, base, maps.drop_first());
    }
}

/// With fetchers, the number of results equals the total count of maps the
/// fetchers yield, across all of them.
pub proof fn lemma_fetchers_result_count(r: Rule, event: Seq<char>)
    requires
        r.fetchers@.len() > 0,
        rule_results_spec(r, event) is Ok,
    ensures
        (rule_results_spec(r, event)->Ok_0).len() == fetchers_maps(r.fetchers@).len(),
{
    let base = base_props_spec(event, regex_captures(r.on_regex.pattern(), event));
    lemma_fetch_eval_count(r, base, fetchers_maps(r.fetchers@));
}

} // verus!
