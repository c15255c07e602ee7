//! The size of each relish at the head of a timeline, as far as the write
//! path has learnt it.

use crate::relish::RelishTag;
use vstd::prelude::*;

verus! {

/// The map that a list of entries stands for: of two entries for one relish, the earlier counts.
pub open spec fn entries_map(s: Seq<(RelishTag, u32)>) -> Map<RelishTag, u32>
    decreases s.len(),
{
    if s.len() == 0 {
        Map::empty()
    } else {
        entries_map(s.skip(1)).insert(s[0].0, s[0].1)
    }
}

proof fn lemma_absent(s: Seq<(RelishTag, u32)>, rel: RelishTag)
    requires
        forall|j: int| 0 <= j < s.len() ==> (#[trigger] s[j]).0 != rel,
    ensures
        !entries_map(s).dom().contains(rel),
    decreases s.len(),
{
    if s.len() > 0 {
        let t = s.skip(1);
        assert forall|j: int| 0 <= j < t.len() implies (#[trigger] t[j]).0 != rel by {
            assert(t[j] == s[j + 1]);
        }
        lemma_absent(t, rel);
    }
}

proof fn lemma_first(s: Seq<(RelishTag, u32)>, k: int)
    requires
        0 <= k < s.len(),
        forall|j: int| 0 <= j < k ==> (#[trigger] s[j]).0 != s[k].0,
    ensures
        entries_map(s).dom().contains(s[k].0),
        entries_map(s)[s[k].0] == s[k].1,
    decreases k,
{
    if k > 0 {
        let t = s.skip(1);
        assert(t[k - 1] == s[k]);
        assert forall|j: int| 0 <= j < k - 1 implies (#[trigger] t[j]).0 != t[k - 1].0 by {
            assert(t[j] == s[j + 1]);
        }
        lemma_first(t, k - 1);
    }
}

proof fn lemma_update(s: Seq<(RelishTag, u32)>, k: int, v: u32)
    requires
        0 <= k < s.len(),
        forall|j: int| 0 <= j < k ==> (#[trigger] s[j]).0 != s[k].0,
    ensures
        entries_map(s.update(k, (s[k].0, v))) == entries_map(s).insert(s[k].0, v),
    decreases k,
{
    let u = s.update(k, (s[k].0, v));
    if k == 0 {
        assert(u.skip(1) =~= s.skip(1));
        assert(entries_map(u) =~= entries_map(s).insert(s[k].0, v));
    } else {
        let t = s.skip(1);
        assert(t[k - 1] == s[k]);
        assert forall|j: int| 0 <= j < k - 1 implies (#[trigger] t[j]).0 != t[k - 1].0 by {
            assert(t[j] == s[j + 1]);
        }
        lemma_update(t, k - 1, v);
        assert(u.skip(1) =~= t.update(k - 1, (s[k].0, v)));
        assert(s[0].0 != s[k].0);
        assert(entries_map(u) =~= entries_map(s).insert(s[k].0, v));
    }
}

proof fn lemma_push(s: Seq<(RelishTag, u32)>, rel: RelishTag, v: u32)
    requires
        forall|j: int| 0 <= j < s.len() ==> (#[trigger] s[j]).0 != rel,
    ensures
        entries_map(s.push((rel, v))) == entries_map(s).insert(rel, v),
    decreases s.len(),
{
    let u = s.push((rel, v));
    if s.len() == 0 {
        assert(u.skip(1) =~= Seq::empty());
        assert(entries_map(u.skip(1)) == Map::<RelishTag, u32>::empty());
        assert(entries_map(u) =~= entries_map(s).insert(rel, v));
    } else {
        let t = s.skip(1);
        assert forall|j: int| 0 <= j < t.len() implies (#[trigger] t[j]).0 != rel by {
            assert(t[j] == s[j + 1]);
        }
        lemma_push(t, rel, v);
        assert(u.skip(1) =~= t.push((rel, v)));
        assert(s[0].0 != rel);
        assert(entries_map(u) =~= entries_map(s).insert(rel, v));
    }
}

proof fn lemma_remove(s: Seq<(RelishTag, u32)>, k: int)
    requires
        0 <= k < s.len(),
        forall|j: int| 0 <= j < s.len() && j != k ==> (#[trigger] s[j]).0 != s[k].0,
    ensures
        entries_map(s.remove(k)) == entries_map(s).remove(s[k].0),
    decreases k,
{
    let u = s.remove(k);
    let t = s.skip(1);
    if k == 0 {
        assert(u =~= t);
        assert forall|j: int| 0 <= j < t.len() implies (#[trigger] t[j]).0 != s[0].0 by {
            assert(t[j] == s[j + 1]);
        }
        lemma_absent(t, s[0].0);
        assert(entries_map(u) =~= entries_map(s).remove(s[k].0));
    } else {
        assert(t[k - 1] == s[k]);
        assert forall|j: int| 0 <= j < t.len() && j != k - 1 implies (#[trigger] t[j]).0 != t[k - 1].0 by {
            assert(t[j] == s[j + 1]);
        }
        lemma_remove(t, k - 1);
        assert(u.skip(1) =~= t.remove(k - 1));
        assert(u[0] == s[0]);
        assert(s[0].0 != s[k].0);
        assert(entries_map(u) =~= entries_map(s).remove(s[k].0));
    }
}

pub struct RelishSizeCache {
    entries: Vec<(RelishTag, u32)>,
}

impl View for RelishSizeCache {
    type V = Map<RelishTag, u32>;

    closed spec fn view(&self) -> Map<RelishTag, u32> {
        entries_map(self.entries@)
    }
}

impl RelishSizeCache {
    /// No relish stands in the list twice.
    pub closed spec fn wf(&self) -> bool {
        forall|j: int, k: int|
            0 <= j < k < self.entries@.len() ==> (#[trigger] self.entries@[j]).0 != (
            #[trigger] self.entries@[k]).0
    }

    pub fn new() -> (c: RelishSizeCache)
        ensures
            c.wf(),
            c@ == Map::<RelishTag, u32>::empty(),
    {
        RelishSizeCache { entries: Vec::new() }
    }

    fn position(&self, rel: RelishTag) -> (r: Option<usize>)
        ensures
            match r {
                Some(k) => k < self.entries@.len() && self.entries@[k as int].0 == rel && forall|j: int|
                    0 <= j < k ==> (#[trigger] self.entries@[j]).0 != rel,
                None => forall|j: int| 0 <= j < self.entries@.len() ==> (#[trigger] self.entries@[j]).0 != rel,
            },
    {
        let mut k: usize = 0;
        while k < self.entries.len()
            invariant
                k <= self.entries@.len(),
                forall|j: int| 0 <= j < k ==> (#[trigger] self.entries@[j]).0 != rel,
            decreases self.entries@.len() - k,
        {
            if self.entries[k].0 == rel {
                return Some(k);
            }
            k = k + 1;
        }
        None
    }

    /// The size held for `rel`, if one is.
    pub fn get(&self, rel: RelishTag) -> (r: Option<u32>)
        ensures
            r == if self@.dom().contains(rel) {
                Some(self@[rel])
            } else {
                None
            },
    {
        match self.position(rel) {
            Some(k) => {
                proof {
                    lemma_first(self.entries@, k as int);
                }
                Some(self.entries[k].1)
            },
            None => {
                proof {
                    lemma_absent(self.entries@, rel);
                }
                None
            },
        }
    }

    /// Holds `size` for `rel` from now on.
    pub fn insert(&mut self, rel: RelishTag, size: u32)
        requires
            old(self).wf(),
        ensures
            final(self).wf(),
            final(self)@ == old(self)@.insert(rel, size),
    {
        match self.position(rel) {
            Some(k) => {
                proof {
                    lemma_update(self.entries@, k as int, size);
                }
                self.entries[k] = (rel, size);
            },
            None => {
                proof {
                    lemma_push(self.entries@, rel, size);
                }
                self.entries.push((rel, size));
            },
        }
    }

    /// Holds no size for `rel` from now on.
    pub fn remove(&mut self, rel: RelishTag)
        requires
            old(self).wf(),
        ensures
            final(self).wf(),
            final(self)@ == old(self)@.remove(rel),
    {
        match self.position(rel) {
            Some(k) => {
                proof {
                    lemma_remove(self.entries@, k as int);
                }
                self.entries.remove(k);
            },
            None => {
                proof {
                    lemma_absent(self.entries@, rel);
                    assert(self@.remove(rel) =~= self@);
                }
            },
        }
    }
}

} // verus!
