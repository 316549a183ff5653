//! An in-memory broker holding named queues and named scored sets, the two
//! structures the watch loop relies on. Any broker client with these
//! semantics is acceptable to the engine; this model is the reference the
//! watch loop is verified against.

use vstd::prelude::*;
use crate::assoc::{
    alist_find, alist_has, alist_lookup, alist_map, alist_uniq, lemma_alist_has_exists,
    lemma_alist_lookup_absent, lemma_alist_lookup_found, lemma_alist_map_dom,
    lemma_alist_map_found, lemma_alist_push, lemma_alist_remove, str_eq,
};

verus! {

/// The abstract state of the broker: every queue name maps to its elements
/// (head first), every set name to its scored members.
#[verifier::ext_equal]
pub struct BrokerView {
    pub queues: Map<Seq<char>, Seq<Seq<char>>>,
    pub scores: Map<Seq<char>, Map<Seq<char>, u64>>,
}

/// Appending `v` to the tail of queue `q`.
pub open spec fn bv_push(bv: BrokerView, q: Seq<char>, v: Seq<char>) -> BrokerView {
    BrokerView { queues: bv.queues.insert(q, bv.queues[q].push(v)), scores: bv.scores }
}

/// Removing the head of queue `q`.
pub open spec fn bv_pop_head(bv: BrokerView, q: Seq<char>) -> BrokerView {
    BrokerView { queues: bv.queues.insert(q, bv.queues[q].drop_first()), scores: bv.scores }
}

/// The sequence without its first occurrence of `v`.
pub open spec fn remove_first(s: Seq<Seq<char>>, v: Seq<char>) -> Seq<Seq<char>>
    decreases s.len(),
{
    if s.len() == 0 {
        Seq::empty()
    } else if s[0] == v {
        s.drop_first()
    } else {
        seq![s[0]] + remove_first(s.drop_first(), v)
    }
}

/// Removing the first occurrence of `v` from queue `q`.
pub open spec fn bv_remove_one(bv: BrokerView, q: Seq<char>, v: Seq<char>) -> BrokerView {
    BrokerView { queues: bv.queues.insert(q, remove_first(bv.queues[q], v)), scores: bv.scores }
}

/// Recording `member` in set `set` with the given score (inserting or updating).
pub open spec fn bv_add_score(
    bv: BrokerView,
    set: Seq<char>,
    member: Seq<char>,
    score: u64,
) -> BrokerView {
    BrokerView {
        queues: bv.queues,
        scores: bv.scores.insert(set, bv.scores[set].insert(member, score)),
    }
}

/// Atomically moving the head of `src` to the tail of `dst`.
pub open spec fn bv_transfer(bv: BrokerView, src: Seq<char>, dst: Seq<char>) -> BrokerView {
    bv_push(bv_pop_head(bv, src), dst, bv.queues[src][0])
}

/// A queue payload as character sequences.
pub open spec fn q_view(v: Seq<String>) -> Seq<Seq<char>> {
    v.map_values(|s: String| s@)
}

/// A scored-set payload as a map from member characters to score.
pub open spec fn s_view(v: Seq<(String, u64)>) -> Map<Seq<char>, u64> {
    alist_map(v, |x: u64| x)
}

/// The in-memory broker.
pub struct Broker {
    queues: Vec<(String, Vec<String>)>,
    sets: Vec<(String, Vec<(String, u64)>)>,
}

impl View for Broker {
    type V = BrokerView;

    open spec fn view(&self) -> BrokerView {
        BrokerView {
            queues: Map::new(|q: Seq<char>| true, |q: Seq<char>| self.queue_view(q)),
            scores: Map::new(|s: Seq<char>| true, |s: Seq<char>| self.scores_view(s)),
        }
    }
}

impl Broker {
    /// The elements of queue `q`, head first; absent queues are empty.
    pub closed spec fn queue_view(self, q: Seq<char>) -> Seq<Seq<char>> {
        alist_lookup(self.queues@, q, |v: Vec<String>| q_view(v@), Seq::empty())
    }

    /// The scored members of set `s`; absent sets are empty.
    pub closed spec fn scores_view(self, s: Seq<char>) -> Map<Seq<char>, u64> {
        alist_lookup(self.sets@, s, |v: Vec<(String, u64)>| s_view(v@), Map::empty())
    }

    /// Queue names, set names, and the members within one set are distinct.
    pub closed spec fn wf(self) -> bool {
        &&& alist_uniq(self.queues@)
        &&& alist_uniq(self.sets@)
        &&& forall|i: int| 0 <= i < self.sets@.len() ==> alist_uniq(#[trigger] self.sets@[i].1@)
    }

    /// An empty broker.
    pub fn new() -> (r: Broker)
        ensures
            r.wf(),
            forall|q: Seq<char>| #[trigger] r@.queues[q] == Seq::<Seq<char>>::empty(),
            forall|s: Seq<char>| #[trigger] r@.scores[s] == Map::<Seq<char>, u64>::empty(),
    {
        Broker { queues: Vec::new(), sets: Vec::new() }
    }

    /// Takes the whole payload of queue `q` out of the broker.
    fn take_queue(&mut self, q: &str) -> (r: Vec<String>)
        requires
            old(self).wf(),
        ensures
            final(self).wf(),
            final(self).sets@ == old(self).sets@,
            q_view(r@) == old(self).queue_view(q@),
            !alist_has(final(self).queues@, q@),
            forall|q2: Seq<char>|
                q2 != q@ ==> #[trigger] final(self).queue_view(q2) == old(self).queue_view(q2),
    {
        match alist_find(&self.queues, q) {
            Some(i) => {
                let e = self.queues.remove(i);
                proof {
                    lemma_alist_lookup_found(
                        old(self).queues@,
                        q@,
                        |v: Vec<String>| q_view(v@),
                        Seq::empty(),
                        i as int,
                    );
                    assert forall|q2: Seq<char>| q2 != q@ implies #[trigger] self.queue_view(q2)
                        == old(self).queue_view(q2) by {
                        lemma_alist_remove(
                            old(self).queues@,
                            i as int,
                            |v: Vec<String>| q_view(v@),
                            Seq::<Seq<char>>::empty(),
                            q2,
                        );
                    }
                    lemma_alist_remove(
                        old(self).queues@,
                        i as int,
                        |v: Vec<String>| q_view(v@),
                        Seq::<Seq<char>>::empty(),
                        q@,
                    );
                }
                e.1
            },
            None => {
                proof {
                    lemma_alist_lookup_absent(
                        self.queues@,
                        q@,
                        |v: Vec<String>| q_view(v@),
                        Seq::<Seq<char>>::empty(),
                    );
                    assert(q_view(Seq::<String>::empty()) =~= Seq::<Seq<char>>::empty());
                }
                Vec::new()
            },
        }
    }

    /// Puts a payload back as queue `q`, which must be absent.
    fn put_queue(&mut self, q: &str, payload: Vec<String>)
        requires
            old(self).wf(),
            !alist_has(old(self).queues@, q@),
        ensures
            final(self).wf(),
            final(self).sets@ == old(self).sets@,
            final(self).queue_view(q@) == q_view(payload@),
            forall|q2: Seq<char>|
                q2 != q@ ==> #[trigger] final(self).queue_view(q2) == old(self).queue_view(q2),
    {
        let name = q.to_owned();
        let ghost e = (name, payload);
        self.queues.push((name, payload));
        proof {
            assert forall|q2: Seq<char>| true implies #[trigger] self.queue_view(q2) == (if q2 == q@ {
                q_view(e.1@)
            } else {
                old(self).queue_view(q2)
            }) by {
                lemma_alist_push(
                    old(self).queues@,
                    e,
                    |v: Vec<String>| q_view(v@),
                    Seq::<Seq<char>>::empty(),
                    q2,
                );
            }
            lemma_alist_push(
                old(self).queues@,
                e,
                |v: Vec<String>| q_view(v@),
                Seq::<Seq<char>>::empty(),
                q@,
            );
        }
    }

    /// Appends `v` to the tail of queue `q`.
    pub fn push(&mut self, q: &str, v: &str)
        requires
            old(self).wf(),
        ensures
            final(self).wf(),
            final(self)@ == bv_push(old(self)@, q@, v@),
    {
        let mut payload = self.take_queue(q);
        let ghost mid = *self;
        payload.push(v.to_owned());
        proof {
            assert(q_view(payload@) =~= old(self).queue_view(q@).push(v@));
        }
        self.put_queue(q, payload);
        proof {
            assert(self@.queues =~= bv_push(old(self)@, q@, v@).queues);
            assert(self@.scores =~= bv_push(old(self)@, q@, v@).scores);
            assert(self@ =~= bv_push(old(self)@, q@, v@));
        }
    }

    /// Removes and returns the head of queue `q`; `None` when it is empty.
    pub fn pop_head(&mut self, q: &str) -> (r: Option<String>)
        requires
            old(self).wf(),
        ensures
            final(self).wf(),
            match r {
                None => final(self)@ == old(self)@ && old(self)@.queues[q@].len() == 0,
                Some(v) => old(self)@.queues[q@].len() > 0 && v@ == old(self)@.queues[q@][0]
                    && final(self)@ == bv_pop_head(old(self)@, q@),
            },
    {
        let mut payload = self.take_queue(q);
        if payload.len() == 0 {
            proof {
                assert(q_view(payload@) =~= Seq::<Seq<char>>::empty());
            }
            self.put_queue(q, payload);
            proof {
                assert(old(self).queue_view(q@).len() == 0);
                assert(self@.queues =~= old(self)@.queues);
                assert(self@.scores =~= old(self)@.scores);
                assert(self@ =~= old(self)@);
            }
            None
        } else {
            let v = payload.remove(0);
            proof {
                assert(v@ == old(self).queue_view(q@)[0]);
                assert(q_view(payload@) =~= old(self).queue_view(q@).drop_first());
            }
            self.put_queue(q, payload);
            proof {
                assert(self@.queues =~= bv_pop_head(old(self)@, q@).queues);
                assert(self@.scores =~= bv_pop_head(old(self)@, q@).scores);
                assert(self@ =~= bv_pop_head(old(self)@, q@));
            }
            Some(v)
        }
    }

    /// Removes the first occurrence of `v` from queue `q`, if any.
    pub fn remove_one(&mut self, q: &str, v: &str)
        requires
            old(self).wf(),
        ensures
            final(self).wf(),
            final(self)@ == bv_remove_one(old(self)@, q@, v@),
    {
        let ghost oldq = old(self).queue_view(q@);
        let mut payload = self.take_queue(q);
        let mut j: usize = 0;
        let mut found = false;
        while j < payload.len() && !found
            invariant
                j <= payload@.len(),
                q_view(payload@) == oldq,
                !found ==> forall|t: int| 0 <= t < j ==> oldq[t] != v@,
                found ==> j < payload@.len() && oldq[j as int] == v@ && forall|t: int|
                    0 <= t < j ==> oldq[t] != v@,
            decreases payload@.len() - j, (if found { 0int } else { 1int }),
        {
            if str_eq(payload[j].as_str(), v) {
                found = true;
            } else {
                j += 1;
            }
        }
        if found {
            payload.remove(j);
            proof {
                lemma_remove_first_at(oldq, v@, j as int);
                assert(q_view(payload@) =~= oldq.remove(j as int));
            }
        } else {
            proof {
                lemma_remove_first_absent(oldq, v@);
            }
        }
        self.put_queue(q, payload);
        proof {
            assert(self@.queues =~= bv_remove_one(old(self)@, q@, v@).queues);
            assert(self@.scores =~= bv_remove_one(old(self)@, q@, v@).scores);
            assert(self@ =~= bv_remove_one(old(self)@, q@, v@));
        }
    }

    /// The length of queue `q`.
    pub fn queue_len(&self, q: &str) -> (n: usize)
        requires
            self.wf(),
        ensures
            n == self@.queues[q@].len(),
    {
        match alist_find(&self.queues, q) {
            Some(i) => {
                proof {
                    lemma_alist_lookup_found(
                        self.queues@,
                        q@,
                        |v: Vec<String>| q_view(v@),
                        Seq::<Seq<char>>::empty(),
                        i as int,
                    );
                }
                self.queues[i].1.len()
            },
            None => {
                proof {
                    lemma_alist_lookup_absent(
                        self.queues@,
                        q@,
                        |v: Vec<String>| q_view(v@),
                        Seq::<Seq<char>>::empty(),
                    );
                }
                0
            },
        }
    }

    /// The tracking score of `member` in set `set`, if present.
    pub fn score_of(&self, set: &str, member: &str) -> (r: Option<u64>)
        requires
            self.wf(),
        ensures
            match r {
                Some(t) => self@.scores[set@].dom().contains(member@) && self@.scores[set@][member@]
                    == t,
                None => !self@.scores[set@].dom().contains(member@),
            },
    {
        match alist_find(&self.sets, set) {
            Some(i) => {
                proof {
                    lemma_alist_lookup_found(
                        self.sets@,
                        set@,
                        |v: Vec<(String, u64)>| s_view(v@),
                        Map::<Seq<char>, u64>::empty(),
                        i as int,
                    );
                }
                let inner = &self.sets[i].1;
                proof {
                    lemma_alist_map_dom(inner@, |x: u64| x, member@);
                    lemma_alist_has_exists(inner@, member@);
                }
                match alist_find(inner, member) {
                    Some(j) => {
                        proof {
                            lemma_alist_map_found(inner@, |x: u64| x, j as int);
                        }
                        Some(inner[j].1)
                    },
                    None => None,
                }
            },
            None => {
                proof {
                    lemma_alist_lookup_absent(
                        self.sets@,
                        set@,
                        |v: Vec<(String, u64)>| s_view(v@),
                        Map::<Seq<char>, u64>::empty(),
                    );
                }
                None
            },
        }
    }

    /// Takes the whole payload of set `set` out of the broker.
    fn take_set(&mut self, set: &str) -> (r: Vec<(String, u64)>)
        requires
            old(self).wf(),
        ensures
            final(self).wf(),
            final(self).queues@ == old(self).queues@,
            alist_uniq(r@),
            s_view(r@) == old(self).scores_view(set@),
            !alist_has(final(self).sets@, set@),
            forall|s2: Seq<char>|
                s2 != set@ ==> #[trigger] final(self).scores_view(s2) == old(self).scores_view(s2),
    {
        match alist_find(&self.sets, set) {
            Some(i) => {
                let e = self.sets.remove(i);
                proof {
                    lemma_alist_lookup_found(
                        old(self).sets@,
                        set@,
                        |v: Vec<(String, u64)>| s_view(v@),
                        Map::<Seq<char>, u64>::empty(),
                        i as int,
                    );
                    assert forall|s2: Seq<char>| s2 != set@ implies #[trigger] self.scores_view(s2)
                        == old(self).scores_view(s2) by {
                        lemma_alist_remove(
                            old(self).sets@,
                            i as int,
                            |v: Vec<(String, u64)>| s_view(v@),
                            Map::<Seq<char>, u64>::empty(),
                            s2,
                        );
                    }
                    lemma_alist_remove(
                        old(self).sets@,
                        i as int,
                        |v: Vec<(String, u64)>| s_view(v@),
                        Map::<Seq<char>, u64>::empty(),
                        set@,
                    );
                    assert(forall|k: int|
                        0 <= k < self.sets@.len() ==> #[trigger] self.sets@[k]
                            == if k < i as int { old(self).sets@[k] } else { old(self).sets@[k+1] });
                }
                e.1
            },
            None => {
                proof {
                    lemma_alist_lookup_absent(
                        self.sets@,
                        set@,
                        |v: Vec<(String, u64)>| s_view(v@),
                        Map::<Seq<char>, u64>::empty(),
                    );
                    assert(s_view(Seq::<(String, u64)>::empty()) =~= Map::<Seq<char>, u64>::empty());
                }
                Vec::new()
            },
        }
    }

    /// Puts a payload back as set `set`, which must be absent.
    fn put_set(&mut self, set: &str, payload: Vec<(String, u64)>)
        requires
            old(self).wf(),
            !alist_has(old(self).sets@, set@),
            alist_uniq(payload@),
        ensures
            final(self).wf(),
            final(self).queues@ == old(self).queues@,
            final(self).scores_view(set@) == s_view(payload@),
            forall|s2: Seq<char>|
                s2 != set@ ==> #[trigger] final(self).scores_view(s2) == old(self).scores_view(s2),
    {
        let name = set.to_owned();
        let ghost e = (name, payload);
        self.sets.push((name, payload));
        proof {
            assert forall|s2: Seq<char>| true implies #[trigger] self.scores_view(s2) == (if s2
                == set@ {
                s_view(e.1@)
            } else {
                old(self).scores_view(s2)
            }) by {
                lemma_alist_push(
                    old(self).sets@,
                    e,
                    |v: Vec<(String, u64)>| s_view(v@),
                    Map::<Seq<char>, u64>::empty(),
                    s2,
                );
            }
            lemma_alist_push(
                old(self).sets@,
                e,
                |v: Vec<(String, u64)>| s_view(v@),
                Map::<Seq<char>, u64>::empty(),
                set@,
            );
            assert(forall|k: int|
                0 <= k < self.sets@.len() - 1 ==> #[trigger] self.sets@[k] == old(self).sets@[k]);
            assert(self.sets@.last() == e);
        }
    }

    /// Inserts or updates `member` in set `set` with the given score.
    pub fn add_scored(&mut self, set: &str, member: &str, score: u64)
        requires
            old(self).wf(),
        ensures
            final(self).wf(),
            final(self)@ == bv_add_score(old(self)@, set@, member@, score),
    {
        let ghost oldm = old(self).scores_view(set@);
        let mut payload = self.take_set(set);
        match alist_find(&payload, member) {
            Some(j) => {
                proof {
                    lemma_alist_remove(
                        payload@,
                        j as int,
                        |x: u64| x,
                        0u64,
                        member@,
                    );
                }
                let ghost removed = payload@.remove(j as int);
                payload.remove(j);
                let name = member.to_owned();
                let ghost e2 = (name, score);
                payload.push((name, score));
                proof {
                    assert(payload@ == removed.push(e2));
                    lemma_alist_push(removed, e2, |x: u64| x, 0u64, member@);
                    assert(s_view(payload@) == s_view(removed).insert(member@, score));
                    assert(s_view(removed) =~= oldm.remove(member@));
                    assert(oldm.remove(member@).insert(member@, score) =~= oldm.insert(
                        member@,
                        score,
                    ));
                    assert(s_view(payload@) == oldm.insert(member@, score));
                    assert(alist_uniq(payload@));
                }
            },
            None => {
                let ghost pre = payload@;
                let name = member.to_owned();
                let ghost e2 = (name, score);
                payload.push((name, score));
                proof {
                    assert(payload@ == pre.push(e2));
                    lemma_alist_push(pre, e2, |x: u64| x, 0u64, member@);
                    assert(s_view(payload@) =~= oldm.insert(member@, score));
                    assert(alist_uniq(payload@));
                }
            },
        }
        self.put_set(set, payload);
        proof {
            assert(self@.queues =~= bv_add_score(old(self)@, set@, member@, score).queues);
            assert(self@.scores =~= bv_add_score(old(self)@, set@, member@, score).scores);
            assert(self@ =~= bv_add_score(old(self)@, set@, member@, score));
        }
    }

    /// Atomically removes and returns the head of `src` while appending it to
    /// `dst`; `None` when `src` is empty (the model's rendering of blocking
    /// until an element is available).
    pub fn transfer_pop(&mut self, src: &str, dst: &str) -> (r: Option<String>)
        requires
            old(self).wf(),
        ensures
            final(self).wf(),
            match r {
                None => final(self)@ == old(self)@ && old(self)@.queues[src@].len() == 0,
                Some(v) => old(self)@.queues[src@].len() > 0 && v@ == old(self)@.queues[src@][0]
                    && final(self)@ == bv_transfer(old(self)@, src@, dst@),
            },
    {
        match self.pop_head(src) {
            None => None,
            Some(v) => {
                self.push(dst, v.as_str());
                Some(v)
            },
        }
    }
}

/// Removing the first occurrence at its index.
proof fn lemma_remove_first_at(s: Seq<Seq<char>>, v: Seq<char>, j: int)
    requires
        0 <= j < s.len(),
        s[j] == v,
        forall|t: int| 0 <= t < j ==> s[t] != v,
    ensures
        remove_first(s, v) == s.remove(j),
    decreases j,
{
    if j == 0 {
        assert(s.remove(0) =~= s.drop_first());
    } else {
        lemma_remove_first_at(s.drop_first(), v, j - 1);
        assert(s.drop_first().remove(j - 1) =~= s.remove(j).drop_first());
        assert(seq![s[0]] + s.remove(j).drop_first() =~= s.remove(j));
    }
}

/// Removing a value that does not occur changes nothing.
proof fn lemma_remove_first_absent(s: Seq<Seq<char>>, v: Seq<char>)
    requires
        forall|t: int| 0 <= t < s.len() ==> s[t] != v,
    ensures
        remove_first(s, v) == s,
    decreases s.len(),
{
    if s.len() > 0 {
        lemma_remove_first_absent(s.drop_first(), v);
        assert(seq![s[0]] + s.drop_first() =~= s);
    }
}

/// Removing a value just appended to a sequence free of it restores the
/// sequence.
pub proof fn lemma_remove_first_push(s: Seq<Seq<char>>, v: Seq<char>)
    requires
        forall|t: int| 0 <= t < s.len() ==> s[t] != v,
    ensures
        remove_first(s.push(v), v) == s,
    decreases s.len(),
{
    if s.len() == 0 {
        assert(s.push(v)[0] == v);
        assert(s.push(v).drop_first() =~= s);
    } else {
        assert(s.push(v)[0] == s[0]);
        assert(s.push(v).drop_first() =~= s.drop_first().push(v));
        lemma_remove_first_push(s.drop_first(), v);
        assert(seq![s[0]] + s.drop_first() =~= s);
    }
}

} // verus!
