//! Patterns: immutable template strings with `{name}`-style placeholders.
//! Injection substitutes every placeholder with the matching property value and
//! fails, naming the key, when a placeholder has no matching entry.

use vstd::prelude::*;
use vstd::string::StrSliceExecFns;
use vstd::string::StringExecFns;
use crate::errors::RescError;
use crate::props::PropertyMap;

verus! {

/// One left-to-right scanning step over the template. `cur` is `None` outside
/// a placeholder and `Some(name)` when the characters of `name` have been read
/// since the opening brace. A placeholder left open at the end of the template
/// stands for itself, literally.
pub open spec fn scan_spec(
    tpl: Seq<char>,
    i: int,
    cur: Option<Seq<char>>,
    props: Map<Seq<char>, Seq<char>>,
) -> Result<Seq<char>, Seq<char>>
    decreases tpl.len() - i,
{
    if i < 0 || i >= tpl.len() {
        match cur {
            None => Ok(Seq::empty()),
            Some(name) => Ok(seq!['{'] + name),
        }
    } else {
        match cur {
            None => {
                if tpl[i] == '{' {
                    scan_spec(tpl, i + 1, Some(Seq::empty()), props)
                } else {
                    match scan_spec(tpl, i + 1, None, props) {
                        Ok(rest) => Ok(seq![tpl[i]] + rest),
                        Err(k) => Err(k),
                    }
                }
            },
            Some(name) => {
                if tpl[i] == '}' {
                    if props.dom().contains(name) {
                        match scan_spec(tpl, i + 1, None, props) {
                            Ok(rest) => Ok(props[name] + rest),
                            Err(k) => Err(k),
                        }
                    } else {
                        Err(name)
                    }
                } else {
                    scan_spec(tpl, i + 1, Some(name.push(tpl[i])), props)
                }
            },
        }
    }
}

/// What injecting `props` into the template yields: the substituted string, or
/// the first placeholder key that has no entry.
pub open spec fn inject_spec(tpl: Seq<char>, props: Map<Seq<char>, Seq<char>>) -> Result<
    Seq<char>,
    Seq<char>,
> {
    scan_spec(tpl, 0, None, props)
}

/// Reading the name characters from `k` to `j` (none of them a closing brace)
/// only extends the accumulated name.
proof fn lemma_scan_name(
    tpl: Seq<char>,
    k: int,
    j: int,
    acc: Seq<char>,
    props: Map<Seq<char>, Seq<char>>,
)
    requires
        0 <= k <= j <= tpl.len(),
        forall|t: int| k <= t < j ==> tpl[t] != '}',
    ensures
        scan_spec(tpl, k, Some(acc), props) == scan_spec(tpl, j, Some(acc + tpl.subrange(k, j)), props),
    decreases j - k,
{
    if k == j {
        assert(acc + tpl.subrange(k, j) =~= acc);
    } else {
        lemma_scan_name(tpl, k + 1, j, acc.push(tpl[k]), props);
        assert(acc.push(tpl[k]) + tpl.subrange(k + 1, j) =~= acc + tpl.subrange(k, j));
    }
}

/// An immutable template string with `{name}`-style placeholders.
pub struct Pattern {
    template: String,
}

impl Pattern {
    /// The template characters.
    pub closed spec fn tpl(self) -> Seq<char> {
        self.template@
    }

    /// Wraps a template string.
    pub fn new(template: String) -> (r: Pattern)
        ensures
            r.tpl() == template@,
    {
        Pattern { template }
    }

    /// Substitutes every placeholder with the matching property value.
    /// Fails, naming the absent key, when a placeholder has no entry.
    pub fn inject(&self, props: &PropertyMap) -> (r: Result<String, RescError>)
        requires
            props.wf(),
        ensures
            match inject_spec(self.tpl(), props@) {
                Ok(s) => r matches Ok(out) && out@ == s,
                Err(k) => r matches Err(RescError::MissingProperty(m)) && m@ == k,
            },
    {
        let tpl: &str = self.template.as_str();
        let n: usize = tpl.unicode_len();
        let mut out = String::new();
        let mut i: usize = 0;
        proof {
            assert(Seq::<char>::empty() + Seq::<char>::empty() =~= Seq::<char>::empty());
        }
        while i < n
            invariant
                props.wf(),
                i <= n,
                n == self.tpl().len(),
                tpl@ == self.tpl(),
                inject_spec(self.tpl(), props@) == match scan_spec(self.tpl(), i as int, None, props@) {
                    Ok(rest) => Ok::<Seq<char>, Seq<char>>(out@ + rest),
                    Err(k) => Err::<Seq<char>, Seq<char>>(k),
                },
            decreases n - i,
        {
            let ghost t = self.tpl();
            let c = tpl.get_char(i);
            if c == '{' {
                let mut j: usize = i + 1;
                while j < n && tpl.get_char(j) != '}'
                    invariant
                        i + 1 <= j <= n,
                        n == t.len(),
                        tpl@ == t,
                        forall|k: int| i + 1 <= k < j ==> t[k] != '}',
                    decreases n - j,
                {
                    j += 1;
                }
                proof {
                    lemma_scan_name(t, i as int + 1, j as int, Seq::empty(), props@);
                    assert(Seq::<char>::empty() + t.subrange(i as int + 1, j as int) =~= t.subrange(
                        i as int + 1,
                        j as int,
                    ));
                }
                let ghost name = t.subrange(i as int + 1, j as int);
                if j == n {
                    // unclosed placeholder: it stands for itself
                    let rest = tpl.substring_char(i, n);
                    proof {
                        assert(seq!['{'] + name =~= t.subrange(i as int, n as int));
                        assert(out@ + t.subrange(i as int, n as int) + Seq::<char>::empty() =~= out@
                            + t.subrange(i as int, n as int));
                    }
                    out.append(rest);
                    i = n;
                } else {
                    let key = tpl.substring_char(i + 1, j);
                    match props.get(key) {
                        Some(v) => {
                            proof {
                                assert((out@ + props@[name]) + x_rest(t, j as int + 1, props@) =~= out@
                                    + (props@[name] + x_rest(t, j as int + 1, props@)));
                            }
                            out.append(v.as_str());
                            i = j + 1;
                        },
                        None => {
                            return Err(RescError::MissingProperty(key.to_owned()));
                        },
                    }
                }
            } else {
                let lit = tpl.substring_char(i, i + 1);
                proof {
                    assert(lit@ =~= seq![t[i as int]]);
                    assert((out@ + seq![t[i as int]]) + x_rest(t, i as int + 1, props@) =~= out@ + (
                    seq![t[i as int]] + x_rest(t, i as int + 1, props@)));
                }
                out.append(lit);
                i += 1;
            }
        }
        proof {
            assert(out@ + Seq::<char>::empty() =~= out@);
        }
        Ok(out)
    }
}

/// The substituted remainder from `i` on, outside a placeholder, when
/// injection succeeds (arbitrary otherwise).
spec fn x_rest(tpl: Seq<char>, i: int, props: Map<Seq<char>, Seq<char>>) -> Seq<char> {
    match scan_spec(tpl, i, None, props) {
        Ok(rest) => rest,
        Err(_) => Seq::empty(),
    }
}

} // verus!
