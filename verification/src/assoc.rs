//! Association lists keyed by strings: the shared representation of property
//! maps, queues and tracking sets. Lookups take the last binding of a key, but
//! every list the crate builds keeps its keys pairwise distinct.

use vstd::prelude::*;

verus! {

/// Looks `key` up in an association list through `f`, returning `d` when absent.
pub open spec fn alist_lookup<T, U>(s: Seq<(String, T)>, key: Seq<char>, f: spec_fn(T) -> U, d: U) -> U
    decreases s.len(),
{
    if s.len() == 0 {
        d
    } else if s.last().0@ == key {
        f(s.last().1)
    } else {
        alist_lookup(s.drop_last(), key, f, d)
    }
}

/// Whether `key` is bound in the list.
pub open spec fn alist_has<T>(s: Seq<(String, T)>, key: Seq<char>) -> bool
    decreases s.len(),
{
    s.len() > 0 && (s.last().0@ == key || alist_has(s.drop_last(), key))
}

/// The keys of the list are pairwise distinct.
pub open spec fn alist_uniq<T>(s: Seq<(String, T)>) -> bool {
    forall|i: int, j: int| 0 <= i < j < s.len() ==> s[i].0@ != s[j].0@
}

/// The list as a map from key characters to `g` of the bound value.
pub open spec fn alist_map<T, U>(s: Seq<(String, T)>, g: spec_fn(T) -> U) -> Map<Seq<char>, U>
    decreases s.len(),
{
    if s.len() == 0 {
        Map::empty()
    } else {
        alist_map(s.drop_last(), g).insert(s.last().0@, g(s.last().1))
    }
}

pub proof fn lemma_alist_has_exists<T>(s: Seq<(String, T)>, key: Seq<char>)
    ensures
        alist_has(s, key) <==> exists|i: int| 0 <= i < s.len() && s[i].0@ == key,
    decreases s.len(),
{
    if s.len() > 0 {
        lemma_alist_has_exists(s.drop_last(), key);
        if s.last().0@ == key {
            assert(s[s.len() - 1].0@ == key);
        }
        if exists|i: int| 0 <= i < s.len() && s[i].0@ == key {
            let i = choose|i: int| 0 <= i < s.len() && s[i].0@ == key;
            if i < s.len() - 1 {
                assert(s.drop_last()[i] == s[i]);
            }
        }
        if exists|i: int| 0 <= i < s.drop_last().len() && s.drop_last()[i].0@ == key {
            let i = choose|i: int| 0 <= i < s.drop_last().len() && s.drop_last()[i].0@ == key;
            assert(s[i] == s.drop_last()[i]);
        }
    }
}

pub proof fn lemma_alist_lookup_found<T, U>(
    s: Seq<(String, T)>,
    key: Seq<char>,
    f: spec_fn(T) -> U,
    d: U,
    i: int,
)
    requires
        alist_uniq(s),
        0 <= i < s.len(),
        s[i].0@ == key,
    ensures
        alist_lookup(s, key, f, d) == f(s[i].1),
    decreases s.len(),
{
    if i == s.len() - 1 {
        assert(s.last() == s[i]);
    } else {
        assert(s.last().0@ != key);
        assert(s.drop_last()[i] == s[i]);
        assert(alist_uniq(s.drop_last())) by {
            assert(forall|a: int, b: int|
                0 <= a < b < s.drop_last().len() ==> s.drop_last()[a] == s[a] && s.drop_last()[b]
                    == s[b]);
        }
        lemma_alist_lookup_found(s.drop_last(), key, f, d, i);
    }
}

pub proof fn lemma_alist_lookup_absent<T, U>(
    s: Seq<(String, T)>,
    key: Seq<char>,
    f: spec_fn(T) -> U,
    d: U,
)
    requires
        !alist_has(s, key),
    ensures
        alist_lookup(s, key, f, d) == d,
    decreases s.len(),
{
    if s.len() > 0 {
        lemma_alist_lookup_absent(s.drop_last(), key, f, d);
    }
}

pub proof fn lemma_alist_map_dom<T, U>(s: Seq<(String, T)>, g: spec_fn(T) -> U, key: Seq<char>)
    ensures
        alist_map(s, g).dom().contains(key) <==> alist_has(s, key),
    decreases s.len(),
{
    if s.len() > 0 {
        lemma_alist_map_dom(s.drop_last(), g, key);
    }
}

pub proof fn lemma_alist_map_found<T, U>(s: Seq<(String, T)>, g: spec_fn(T) -> U, i: int)
    requires
        alist_uniq(s),
        0 <= i < s.len(),
    ensures
        alist_map(s, g).dom().contains(s[i].0@),
        alist_map(s, g)[s[i].0@] == g(s[i].1),
    decreases s.len(),
{
    if i == s.len() - 1 {
        assert(s.last() == s[i]);
    } else {
        assert(s.last().0@ != s[i].0@);
        assert(s.drop_last()[i] == s[i]);
        assert(alist_uniq(s.drop_last())) by {
            assert(forall|a: int, b: int|
                0 <= a < b < s.drop_last().len() ==> s.drop_last()[a] == s[a] && s.drop_last()[b]
                    == s[b]);
        }
        lemma_alist_map_found(s.drop_last(), g, i);
    }
}

pub proof fn lemma_alist_push<T, U>(
    s: Seq<(String, T)>,
    e: (String, T),
    f: spec_fn(T) -> U,
    d: U,
    key2: Seq<char>,
)
    ensures
        alist_lookup(s.push(e), key2, f, d) == if key2 == e.0@ {
            f(e.1)
        } else {
            alist_lookup(s, key2, f, d)
        },
        alist_has(s.push(e), key2) <==> (key2 == e.0@ || alist_has(s, key2)),
        alist_map(s.push(e), f) == alist_map(s, f).insert(e.0@, f(e.1)),
        alist_uniq(s) && !alist_has(s, e.0@) ==> alist_uniq(s.push(e)),
{
    assert(s.push(e).drop_last() =~= s);
    assert(s.push(e).last() == e);
    if alist_uniq(s) && !alist_has(s, e.0@) {
        lemma_alist_has_exists(s, e.0@);
        assert forall|i: int, j: int| 0 <= i < j < s.push(e).len() implies s.push(e)[i].0@ != s.push(
            e,
        )[j].0@ by {
            if j < s.len() {
                assert(s.push(e)[i] == s[i] && s.push(e)[j] == s[j]);
            } else {
                assert(s.push(e)[i] == s[i] && s.push(e)[j] == e);
            }
        }
    }
}

pub proof fn lemma_alist_remove<T, U>(
    s: Seq<(String, T)>,
    i: int,
    f: spec_fn(T) -> U,
    d: U,
    key2: Seq<char>,
)
    requires
        alist_uniq(s),
        0 <= i < s.len(),
    ensures
        alist_uniq(s.remove(i)),
        !alist_has(s.remove(i), s[i].0@),
        key2 != s[i].0@ ==> alist_lookup(s.remove(i), key2, f, d) == alist_lookup(s, key2, f, d),
        key2 != s[i].0@ ==> (alist_has(s.remove(i), key2) <==> alist_has(s, key2)),
        alist_map(s.remove(i), f) == alist_map(s, f).remove(s[i].0@),
    decreases s.len(),
{
    let r = s.remove(i);
    assert(forall|k: int| 0 <= k < i ==> r[k] == s[k]);
    assert(forall|k: int| i <= k < r.len() ==> r[k] == s[k + 1]);
    assert(alist_uniq(r));
    lemma_alist_has_exists(r, s[i].0@);
    lemma_alist_has_exists(r, key2);
    lemma_alist_has_exists(s, key2);
    if i == s.len() - 1 {
        assert(r =~= s.drop_last());
        lemma_alist_has_exists(s.drop_last(), s[i].0@);
        lemma_alist_map_dom(s.drop_last(), f, s[i].0@);
        assert(alist_map(s, f) == alist_map(s.drop_last(), f).insert(s[i].0@, f(s[i].1)));
        assert(alist_map(s.remove(i), f) =~= alist_map(s, f).remove(s[i].0@)) by {
            assert(!alist_map(s.drop_last(), f).dom().contains(s[i].0@));
        }
    } else {
        assert(r.last() == s.last());
        assert(r.drop_last() =~= s.drop_last().remove(i));
        assert(s.drop_last()[i] == s[i]);
        assert(alist_uniq(s.drop_last())) by {
            assert(forall|a: int, b: int|
                0 <= a < b < s.drop_last().len() ==> s.drop_last()[a] == s[a] && s.drop_last()[b]
                    == s[b]);
        }
        lemma_alist_remove(s.drop_last(), i, f, d, key2);
        assert(s.last().0@ != s[i].0@);
        assert(alist_map(s.remove(i), f) == alist_map(s.drop_last().remove(i), f).insert(
            s.last().0@,
            f(s.last().1),
        ));
        assert(alist_map(s.remove(i), f) =~= alist_map(s, f).remove(s[i].0@));
    }
}

/// Relies on `str`'s `PartialEq`: two string slices are equal exactly when
/// their character sequences are.
#[verifier::external_body]
pub(crate) fn str_eq(a: &str, b: &str) -> (r: bool)
    ensures
        r == (a@ == b@),
{
    a == b
}

/// Finds the index of the entry bound to `key`, if any.
pub fn alist_find<T>(v: &Vec<(String, T)>, key: &str) -> (r: Option<usize>)
    ensures
        match r {
            Some(i) => i < v@.len() && v@[i as int].0@ == key@,
            None => !alist_has(v@, key@),
        },
{
    let mut i: usize = 0;
    while i < v.len()
        invariant
            i <= v@.len(),
            forall|t: int| 0 <= t < i ==> v@[t].0@ != key@,
        decreases v@.len() - i,
    {
        if str_eq(v[i].0.as_str(), key) {
            return Some(i);
        }
        i += 1;
    }
    proof {
        lemma_alist_has_exists(v@, key@);
    }
    None
}

} // verus!
