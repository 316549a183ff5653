//! Fetchers: fan-out capabilities. A fetcher is invoked with a property
//! mapping and yields zero or more enriched property mappings; the engine sees
//! only that contract. The in-core strategy is a static list of mappings; the
//! mechanics of other strategies (external processes, network calls) are
//! outside the engine.

use vstd::prelude::*;
use crate::errors::RescResult;
use crate::props::PropertyMap;

verus! {

/// The views of a sequence of property maps.
pub open spec fn pm_views(s: Seq<PropertyMap>) -> Seq<Map<Seq<char>, Seq<char>>> {
    s.map_values(|m: PropertyMap| m@)
}

/// A fan-out capability: given a property mapping, yields a list of enriched
/// property mappings.
pub enum Fetcher {
    /// Yields a fixed list of property maps, whatever the input properties.
    Static(Vec<PropertyMap>),
}

impl Fetcher {
    /// The property maps the fetcher yields.
    pub open spec fn maps(self) -> Seq<Map<Seq<char>, Seq<char>>> {
        match self {
            Fetcher::Static(v) => pm_views(v@),
        }
    }

    /// Every yielded map has distinct keys.
    pub open spec fn wf(self) -> bool {
        match self {
            Fetcher::Static(v) => forall|i: int| 0 <= i < v@.len() ==> v@[i].wf(),
        }
    }

    /// Invokes the fetcher: the enriched property maps it yields.
    pub fn results(&self, _props: &PropertyMap) -> (r: RescResult<Vec<PropertyMap>>)
        requires
            self.wf(),
        ensures
            r matches Ok(v) && pm_views(v@) == self.maps() && forall|i: int|
                0 <= i < v@.len() ==> (#[trigger] v@[i]).wf(),
    {
        match self {
            Fetcher::Static(list) => {
                let mut out: Vec<PropertyMap> = Vec::new();
                let mut i: usize = 0;
                while i < list.len()
                    invariant
                        i <= list@.len(),
                        out@.len() == i,
                        forall|t: int| 0 <= t < i ==> (#[trigger] out@[t]).kv() == list@[t].kv(),
                        forall|t: int| 0 <= t < list@.len() ==> (#[trigger] list@[t]).wf(),
                    decreases list@.len() - i,
                {
                    out.push(list[i].clone());
                    i += 1;
                }
                proof {
                    assert(pm_views(out@) =~= pm_views(list@));
                    assert forall|t: int| 0 <= t < out@.len() implies (#[trigger] out@[t]).wf() by {
                        assert(out@[t].kv() == list@[t].kv());
                    }
                }
                Ok(out)
            },
        }
    }
}

} // verus!
