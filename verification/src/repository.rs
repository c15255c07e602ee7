//! The repository: the timelines of one tenant.
//!
//! A timeline names the one it was branched from by its id, and the
//! repository resolves the id when a read has to go there. Each timeline
//! keeps the place it was first given; a timeline is only ever read through
//! from one that stands after it.

use crate::lsn::{Lsn, ZTenantId, ZTimelineId};
use crate::timeline::{LayeredTimeline, TimelineView};
use vstd::prelude::*;

verus! {

/// The settings that the storage core goes by.
pub struct PageServerConf {
    pub data_dir: String,
    /// How long a reader waits for an LSN to arrive, in milliseconds.
    pub wait_lsn_timeout_ms: u64,
    /// How much WAL may pile up in memory before a checkpoint freezes it.
    pub checkpoint_distance: u64,
    pub upload_relishes: bool,
}

/// What the repository holds of one timeline.
pub enum LayeredTimelineEntry {
    /// Loaded, with its layers.
    Local(LayeredTimeline),
    /// Known to exist in remote storage only.
    Remote { id: ZTimelineId, disk_consistent_lsn: Lsn },
    /// Dropped from memory; the place is kept for when it is loaded again.
    Evicted { id: ZTimelineId },
}

pub enum EntryView {
    Local(TimelineView),
    Remote { id: ZTimelineId, disk_consistent_lsn: Lsn },
    Evicted { id: ZTimelineId },
}

impl EntryView {
    pub open spec fn id(self) -> ZTimelineId {
        match self {
            EntryView::Local(t) => t.timelineid,
            EntryView::Remote { id, .. } => id,
            EntryView::Evicted { id } => id,
        }
    }
}

impl View for LayeredTimelineEntry {
    type V = EntryView;

    open(crate) spec fn view(&self) -> EntryView {
        match self {
            LayeredTimelineEntry::Local(t) => EntryView::Local(t@),
            LayeredTimelineEntry::Remote { id, disk_consistent_lsn } => EntryView::Remote {
                id: *id,
                disk_consistent_lsn: *disk_consistent_lsn,
            },
            LayeredTimelineEntry::Evicted { id } => EntryView::Evicted { id: *id },
        }
    }
}

impl LayeredTimelineEntry {
    pub open(crate) spec fn wf(&self) -> bool {
        self matches LayeredTimelineEntry::Local(t) ==> t.wf()
    }

    pub fn timeline_id(&self) -> (r: ZTimelineId)
        ensures
            r == self@.id(),
    {
        match self {
            LayeredTimelineEntry::Local(t) => t.timelineid,
            LayeredTimelineEntry::Remote { id, .. } => *id,
            LayeredTimelineEntry::Evicted { id } => *id,
        }
    }
}

pub open spec fn entries_view(s: Seq<LayeredTimelineEntry>) -> Seq<EntryView> {
    Seq::new(s.len(), |i: int| s[i]@)
}

/// The first place that holds the timeline `id`.
pub open spec fn find_entry(s: Seq<EntryView>, id: ZTimelineId) -> Option<int>
    decreases s.len(),
{
    if s.len() == 0 {
        None
    } else {
        match find_entry(s.drop_last(), id) {
            Some(i) => Some(i),
            None => if s.last().id() == id {
                Some(s.len() - 1)
            } else {
                None
            },
        }
    }
}

pub proof fn lemma_find_entry(s: Seq<EntryView>, id: ZTimelineId)
    ensures
        find_entry(s, id) matches Some(i) ==> 0 <= i < s.len() && s[i].id() == id && forall|j: int|
            0 <= j < i ==> (#[trigger] s[j]).id() != id,
        find_entry(s, id) is None ==> forall|j: int| 0 <= j < s.len() ==> (#[trigger] s[j]).id() != id,
    decreases s.len(),
{
    if s.len() > 0 {
        let d = s.drop_last();
        lemma_find_entry(d, id);
        assert forall|j: int| 0 <= j < d.len() implies d[j] == s[j] by {}
        match find_entry(s, id) {
            Some(i) => {
                assert forall|j: int| 0 <= j < i implies (#[trigger] s[j]).id() != id by {
                    assert(d[j].id() != id);
                }
            },
            None => {
                assert forall|j: int| 0 <= j < s.len() implies (#[trigger] s[j]).id() != id by {
                    if j < d.len() {
                        assert(d[j].id() != id);
                    }
                }
            },
        }
    }
}

/// A place that holds `id`, with none before it that does, is the one that is found.
pub proof fn lemma_find_entry_first(s: Seq<EntryView>, id: ZTimelineId, i: int)
    requires
        0 <= i < s.len(),
        s[i].id() == id,
        forall|j: int| 0 <= j < i ==> (#[trigger] s[j]).id() != id,
    ensures
        find_entry(s, id) == Some(i),
{
    lemma_find_entry(s, id);
    let f = find_entry(s, id);
    if f is None {
        assert(s[i].id() != id);
    } else {
        let k = f->0;
        if k < i {
            assert(s[k].id() != id);
        }
        if i < k {
            assert(s[i].id() != id);
        }
    }
}

pub struct RepoView {
    pub conf: PageServerConf,
    pub tenantid: ZTenantId,
    pub upload_relishes: bool,
    pub timelines: Seq<EntryView>,
}

impl RepoView {
    /// The first place that holds the timeline `id`.
    pub open spec fn find(self, id: ZTimelineId) -> Option<int> {
        find_entry(self.timelines, id)
    }

    /// The timeline at place `idx`, where one is loaded there.
    pub open spec fn local(self, idx: int) -> Option<TimelineView> {
        if 0 <= idx < self.timelines.len() {
            match self.timelines[idx] {
                EntryView::Local(t) => Some(t),
                _ => None,
            }
        } else {
            None
        }
    }

    /// The loaded timeline `id`, where there is one.
    pub open spec fn local_by_id(self, id: ZTimelineId) -> Option<TimelineView> {
        match self.find(id) {
            Some(i) => self.local(i),
            None => None,
        }
    }

    /// The place of the timeline that the one at `idx` was branched from,
    /// where that one is loaded and stands before it.
    pub open spec fn ancestor_index(self, idx: int) -> Option<int> {
        match self.local(idx) {
            Some(t) => match t.ancestor_timeline {
                Some(a) => match self.find(a) {
                    Some(k) => if k < idx && self.local(k) is Some {
                        Some(k)
                    } else {
                        None
                    },
                    None => None,
                },
                None => None,
            },
            None => None,
        }
    }

    /// The repository with the timeline at `idx` replaced.
    pub open spec fn with_local(self, idx: int, t: TimelineView) -> RepoView {
        RepoView { timelines: self.timelines.update(idx, EntryView::Local(t)), ..self }
    }
}

pub struct LayeredRepository {
    pub(crate) conf: PageServerConf,
    pub(crate) tenantid: ZTenantId,
    pub(crate) timelines: Vec<LayeredTimelineEntry>,
    pub(crate) upload_relishes: bool,
}

impl View for LayeredRepository {
    type V = RepoView;

    open(crate) spec fn view(&self) -> RepoView {
        RepoView {
            conf: self.conf,
            tenantid: self.tenantid,
            upload_relishes: self.upload_relishes,
            timelines: entries_view(self.timelines@),
        }
    }
}

impl LayeredRepository {
    /// What holds of every repository that the library hands out.
    pub open(crate) spec fn wf(&self) -> bool {
        forall|i: int| 0 <= i < self.timelines@.len() ==> (#[trigger] self.timelines@[i]).wf()
    }

    /// A repository without timelines.
    pub fn new(conf: PageServerConf, tenantid: ZTenantId, upload_relishes: bool) -> (r: LayeredRepository)
        ensures
            r.wf(),
            r@ == (RepoView { conf, tenantid, upload_relishes, timelines: Seq::empty() }),
    {
        let r = LayeredRepository { conf, tenantid, timelines: Vec::new(), upload_relishes };
        assert(r@.timelines =~= Seq::empty());
        r
    }

    /// The settings that the repository was made with.
    pub fn get_conf(&self) -> (r: &PageServerConf)
        ensures
            *r == self@.conf,
    {
        &self.conf
    }

    /// The place of the timeline `id`.
    pub(crate) fn find_timeline(&self, id: ZTimelineId) -> (r: Option<usize>)
        ensures
            match r {
                Some(i) => self@.find(id) == Some(i as int) && i < self@.timelines.len(),
                None => self@.find(id) is None,
            },
    {
        let mut i: usize = 0;
        while i < self.timelines.len()
            invariant
                i <= self@.timelines.len(),
                forall|j: int| 0 <= j < i ==> (#[trigger] self@.timelines[j]).id() != id,
            decreases self@.timelines.len() - i,
        {
            if self.timelines[i].timeline_id().0 == id.0 {
                proof {
                    lemma_find_entry_first(self@.timelines, id, i as int);
                }
                return Some(i);
            }
            i = i + 1;
        }
        proof {
            lemma_find_entry(self@.timelines, id);
            if self@.find(id) is Some {
                let k = self@.find(id)->0;
                assert(self@.timelines[k].id() != id);
            }
        }
        None
    }

    /// The timeline at `idx`, where one is loaded there.
    pub(crate) fn local_at(&self, idx: usize) -> (r: Option<&LayeredTimeline>)
        ensures
            match r {
                Some(t) => self@.local(idx as int) == Some(t@) && idx < self.timelines@.len()
                    && self.timelines@[idx as int] == LayeredTimelineEntry::Local(*t),
                None => self@.local(idx as int) is None,
            },
    {
        if idx < self.timelines.len() {
            match &self.timelines[idx] {
                LayeredTimelineEntry::Local(t) => Some(t),
                _ => None,
            }
        } else {
            None
        }
    }

    /// The timeline at `idx`, to be changed.
    pub(crate) fn local_mut(&mut self, idx: usize) -> (t: &mut LayeredTimeline)
        requires
            old(self)@.local(idx as int) is Some,
        ensures
            old(self).timelines@[idx as int] == LayeredTimelineEntry::Local(*t),
            final(self).timelines@ == old(self).timelines@.update(
                idx as int,
                LayeredTimelineEntry::Local(*final(t)),
            ),
            final(self).tenantid == old(self).tenantid,
            final(self).conf == old(self).conf,
            final(self).upload_relishes == old(self).upload_relishes,
    {
        match &mut self.timelines[idx] {
            LayeredTimelineEntry::Local(t) => t,
            _ => vstd::pervasive::unreached(),
        }
    }

    /// The place of the timeline that the one at `idx` was branched from,
    /// where that one is loaded and stands before it.
    pub(crate) fn ancestor_at(&self, idx: usize) -> (r: Option<usize>)
        ensures
            match r {
                Some(k) => self@.ancestor_index(idx as int) == Some(k as int) && k < idx,
                None => self@.ancestor_index(idx as int) is None,
            },
    {
        match self.local_at(idx) {
            Some(t) => match t.ancestor_timeline {
                Some(a) => match self.find_timeline(a) {
                    Some(k) => if k < idx && self.local_at(k).is_some() {
                        Some(k)
                    } else {
                        None
                    },
                    None => None,
                },
                None => None,
            },
            None => None,
        }
    }

    /// The loaded timeline `id`.
    pub fn get_local_timeline(&self, id: ZTimelineId) -> (r: Option<&LayeredTimeline>)
        ensures
            match r {
                Some(t) => self@.local_by_id(id) == Some(t@),
                None => self@.local_by_id(id) is None,
            },
    {
        match self.find_timeline(id) {
            Some(i) => self.local_at(i),
            None => None,
        }
    }
}

/// Taking a loaded timeline out to change it and putting it back changes
/// that place of the repository's state and no other.
pub proof fn lemma_update_view(s: Seq<LayeredTimelineEntry>, idx: int, t: LayeredTimeline)
    requires
        0 <= idx < s.len(),
    ensures
        entries_view(s.update(idx, LayeredTimelineEntry::Local(t))) == entries_view(s).update(
            idx,
            EntryView::Local(t@),
        ),
{
    assert(entries_view(s.update(idx, LayeredTimelineEntry::Local(t))) =~= entries_view(s).update(
        idx,
        EntryView::Local(t@),
    ));
}

} // verus!
