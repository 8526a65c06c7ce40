//! Per-group bookkeeping of output names and of how many records were
//! written to each; it never takes part in routing.

use vstd::prelude::*;

use crate::subsetter::string_views;

verus! {

/// The destination name and running record count of each group, by group id.
pub struct OutputLedger {
    names: Vec<String>,
    counts: Vec<u64>,
}

impl OutputLedger {
    pub closed spec fn names(&self) -> Seq<Seq<char>> {
        string_views(self.names@)
    }

    pub closed spec fn counts(&self) -> Seq<u64> {
        self.counts@
    }

    pub closed spec fn wf(&self) -> bool {
        self.names@.len() == self.counts@.len()
    }

    /// A ledger for groups with destination names `names`, all counts at zero.
    pub fn new(names: Vec<String>) -> (r: Self)
        ensures
            r.wf(),
            r.names() == string_views(names@),
            r.counts() == Seq::new(names@.len(), |i: int| 0u64),
    {
        let mut counts: Vec<u64> = Vec::with_capacity(names.len());
        let mut i: usize = 0;
        while i < names.len()
            invariant
                i <= names@.len(),
                counts@ == Seq::new(i as nat, |k: int| 0u64),
            decreases names@.len() - i,
        {
            counts.push(0);
            assert(counts@ =~= Seq::new((i + 1) as nat, |k: int| 0u64));
            i += 1;
        }
        OutputLedger { names, counts }
    }

    /// Adds `delta` records to the count of group `group`.
    pub fn record(&mut self, group: usize, delta: u64)
        requires
            old(self).wf(),
            group < old(self).counts().len(),
            old(self).counts()[group as int] + delta <= u64::MAX,
        ensures
            final(self).wf(),
            final(self).names() == old(self).names(),
            final(self).counts() == old(self).counts().update(group as int, (old(self).counts()[group as int] + delta) as u64),
    {
        let total = self.counts[group] + delta;
        self.counts.set(group, total);
    }

    /// The number of groups.
    pub fn len(&self) -> (r: usize)
        requires
            self.wf(),
        ensures
            r == self.counts().len(),
    {
        self.counts.len()
    }

    /// The count of group `group`.
    pub fn count(&self, group: usize) -> (r: u64)
        requires
            group < self.counts().len(),
        ensures
            r == self.counts()[group as int],
    {
        self.counts[group]
    }

    /// A snapshot of `(destination name, count)` for each group, by group id.
    pub fn report(&self) -> (r: Vec<(String, u64)>)
        requires
            self.wf(),
        ensures
            r@.len() == self.counts().len(),
            forall|i: int| 0 <= i < r@.len() ==> (#[trigger] r@[i]).0@ == self.names()[i] && r@[i].1 == self.counts()[i],
    {
        let mut r: Vec<(String, u64)> = Vec::with_capacity(self.counts.len());
        let mut i: usize = 0;
        while i < self.counts.len()
            invariant
                self.wf(),
                i <= self.counts@.len(),
                r@.len() == i,
                forall|k: int| 0 <= k < i ==> (#[trigger] r@[k]).0@ == self.names()[k] && r@[k].1 == self.counts()[k],
            decreases self.counts@.len() - i,
        {
            r.push((self.names[i].clone(), self.counts[i]));
            i += 1;
        }
        r
    }
}

} // verus!
