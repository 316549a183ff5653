//! Property maps: string-to-string mappings with unique keys, built fresh for
//! each (event, rule) evaluation and never shared across rules.

use vstd::prelude::*;
use crate::assoc::{
    alist_find, alist_has, alist_map, alist_uniq, lemma_alist_has_exists, lemma_alist_map_dom,
    lemma_alist_map_found, lemma_alist_push,
};

verus! {

/// A mapping from string keys to string values; keys are unique.
pub struct PropertyMap {
    entries: Vec<(String, String)>,
}

impl View for PropertyMap {
    type V = Map<Seq<char>, Seq<char>>;

    open spec fn view(&self) -> Map<Seq<char>, Seq<char>> {
        alist_map(self.kv(), |v: String| v@)
    }
}

impl PropertyMap {
    /// The entries in insertion order.
    pub closed spec fn kv(self) -> Seq<(String, String)> {
        self.entries@
    }

    /// Keys are pairwise distinct.
    pub open spec fn wf(self) -> bool {
        alist_uniq(self.kv())
    }

    /// An empty property map.
    pub fn new() -> (r: PropertyMap)
        ensures
            r@ == Map::<Seq<char>, Seq<char>>::empty(),
            r.wf(),
            r.kv().len() == 0,
    {
        PropertyMap { entries: Vec::new() }
    }

    /// The number of entries.
    pub fn len(&self) -> (n: usize)
        ensures
            n == self.kv().len(),
    {
        self.entries.len()
    }

    /// The key of the entry at `i`.
    pub fn key_at(&self, i: usize) -> (r: &String)
        requires
            i < self.kv().len(),
        ensures
            r@ == self.kv()[i as int].0@,
    {
        &self.entries[i].0
    }

    /// The value of the entry at `i`.
    pub fn val_at(&self, i: usize) -> (r: &String)
        requires
            i < self.kv().len(),
        ensures
            r@ == self.kv()[i as int].1@,
    {
        &self.entries[i].1
    }

    /// Whether `key` is bound.
    pub fn contains_key(&self, key: &str) -> (r: bool)
        ensures
            r == self@.dom().contains(key@),
    {
        proof {
            lemma_alist_map_dom(self.kv(), |v: String| v@, key@);
            lemma_alist_has_exists(self.kv(), key@);
        }
        match alist_find(&self.entries, key) {
            Some(_) => true,
            None => false,
        }
    }

    /// The value bound to `key`, if any.
    pub fn get(&self, key: &str) -> (r: Option<&String>)
        requires
            self.wf(),
        ensures
            match r {
                Some(v) => self@.dom().contains(key@) && self@[key@] == v@,
                None => !self@.dom().contains(key@),
            },
    {
        proof {
            lemma_alist_map_dom(self.kv(), |v: String| v@, key@);
        }
        match alist_find(&self.entries, key) {
            Some(i) => {
                proof {
                    lemma_alist_map_found(self.kv(), |v: String| v@, i as int);
                }
                Some(&self.entries[i].1)
            },
            None => None,
        }
    }

    /// Binds `key`, which must not be bound yet, to `value`.
    pub fn insert(&mut self, key: String, value: String)
        requires
            old(self).wf(),
            !old(self)@.dom().contains(key@),
        ensures
            final(self).wf(),
            final(self)@ == old(self)@.insert(key@, value@),
            final(self).kv() == old(self).kv().push((key, value)),
    {
        proof {
            lemma_alist_map_dom(old(self).kv(), |v: String| v@, key@);
            lemma_alist_push(old(self).kv(), (key, value), |v: String| v@, Seq::<char>::empty(), key@);
        }
        self.entries.push((key, value));
    }
}

impl Clone for PropertyMap {
    /// Cloning keeps the entries, and so the mapping.
    fn clone(&self) -> (r: Self)
        ensures
            r.kv() == self.kv(),
    {
        let mut entries: Vec<(String, String)> = Vec::new();
        let mut i: usize = 0;
        while i < self.entries.len()
            invariant
                i <= self.entries@.len(),
                entries@ =~= self.entries@.take(i as int),
            decreases self.entries@.len() - i,
        {
            entries.push((self.entries[i].0.clone(), self.entries[i].1.clone()));
            proof {
                assert(entries@ =~= self.entries@.take(i as int + 1));
            }
            i += 1;
        }
        proof {
            assert(entries@ =~= self.entries@);
        }
        PropertyMap { entries }
    }
}

} // verus!
