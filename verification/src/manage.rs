//! Making, loading, branching and letting go of timelines.

use crate::load::{
    file_actions,
    files_view,
    loaded_layers,
    FileAction,
    LayerFile,
    LayerFileView,
    LayerLoadError,
};
use crate::lsn::{Lsn, ZTimelineId};
use crate::metadata::{decoded, MetadataError, TimelineMetadata};
use crate::read::ReadError;
use crate::relish::{RelTag, RelishTag};
use crate::repository::{
    entries_view,
    find_entry,
    lemma_find_entry,
    lemma_update_view,
    EntryView,
    LayeredRepository,
    LayeredTimelineEntry,
    RepoView,
};
use crate::timeline::{opened_timeline, LayeredTimeline, LsnOutOfScope, TimelineView};
use vstd::prelude::*;

verus! {

/// Where a timeline is, as remote storage sees it.
#[derive(Clone, Copy, Debug, PartialEq, Eq, Structural)]
pub enum TimelineSyncState {
    /// Its files are in the directory, up to this LSN: it can be loaded.
    Ready(Lsn),
    /// It is not to be held in memory.
    Evicted(Option<Lsn>),
    /// It is in remote storage up to this LSN, and the download is under way.
    AwaitsDownload(Lsn),
    /// It is in remote storage only, up to this LSN.
    CloudOnly(Lsn),
}

/// A timeline as the repository hands it out.
pub enum RepositoryTimeline<'a> {
    /// Loaded.
    Local(&'a LayeredTimeline),
    /// In remote storage: a download is to be scheduled.
    Remote { id: ZTimelineId, disk_consistent_lsn: Lsn },
}

/// The repository does not hold the timeline: it is to be loaded from its directory.
#[derive(Clone, Copy, Debug, PartialEq, Eq, Structural)]
pub struct NotLoaded;

/// Why a timeline could not be made.
#[derive(Clone, Copy, Debug, PartialEq, Eq, Structural)]
pub enum CreateError {
    /// The repository holds a timeline of that id already.
    AlreadyExists,
}

/// Why a timeline could not be branched.
#[derive(Clone, Copy, Debug, PartialEq, Eq, Structural)]
pub enum BranchError {
    /// The timeline to branch off is not loaded.
    NotLocal,
    /// The branch point lies below what GC has left.
    InvalidStartLsn(LsnOutOfScope),
}

/// Why a timeline could not be detached.
#[derive(Clone, Copy, Debug, PartialEq, Eq, Structural)]
pub enum DetachError {
    /// The repository holds no such timeline.
    NotFound,
    /// The timeline is in remote storage only.
    Remote,
}

/// Why a timeline could not be loaded.
#[derive(Clone, Copy, Debug, PartialEq, Eq, Structural)]
pub enum LoadError {
    /// The metadata file could not be read.
    Metadata(MetadataError),
    /// The metadata gives a `disk_consistent_lsn` below the point at
    /// which the timeline was branched off, or the last LSN there is.
    InvalidLsn,
    /// The timeline that this one was branched from is to be loaded first.
    AncestorNotLoaded(ZTimelineId),
    /// The layer files could not be loaded.
    Layers(LayerLoadError),
    /// The logical size could not be counted.
    LogicalSize(ReadError),
}

impl BranchError {
    /// What went wrong, in words.
    pub open spec fn message_text(self) -> Seq<char> {
        match self {
            BranchError::NotLocal => "cannot branch off a timeline that is not local"@,
            BranchError::InvalidStartLsn(_) => "invalid branch start lsn"@,
        }
    }

    /// What went wrong, in words.
    pub fn message(&self) -> (r: &'static str)
        ensures
            r@ == self.message_text(),
    {
        match self {
            BranchError::NotLocal => "cannot branch off a timeline that is not local",
            BranchError::InvalidStartLsn(_) => "invalid branch start lsn",
        }
    }
}

impl LoadError {
    /// What went wrong, in words.
    pub open spec fn message_text(self) -> Seq<char> {
        match self {
            LoadError::Metadata(_) => "failed to load metadata"@,
            LoadError::InvalidLsn => "metadata holds an invalid lsn"@,
            LoadError::AncestorNotLoaded(_) => "ancestor timeline is not loaded"@,
            LoadError::Layers(_) => "failed to load layermap"@,
            LoadError::LogicalSize(_) => "failed to count the logical size"@,
        }
    }

    /// What lies behind it, in words, where something does.
    pub open spec fn cause_text(self) -> Option<Seq<char>> {
        match self {
            LoadError::Metadata(e) => Some(e.message_text()),
            _ => None,
        }
    }

    /// What went wrong, in words.
    pub fn message(&self) -> (r: &'static str)
        ensures
            r@ == self.message_text(),
    {
        match self {
            LoadError::Metadata(_) => "failed to load metadata",
            LoadError::InvalidLsn => "metadata holds an invalid lsn",
            LoadError::AncestorNotLoaded(_) => "ancestor timeline is not loaded",
            LoadError::Layers(_) => "failed to load layermap",
            LoadError::LogicalSize(_) => "failed to count the logical size",
        }
    }

    /// What lies behind it, in words, where something does.
    pub fn cause(&self) -> (r: Option<&'static str>)
        ensures
            match r {
                Some(t) => self.cause_text() == Some(t@),
                None => self.cause_text() is None,
            },
    {
        match self {
            LoadError::Metadata(e) => Some(e.message()),
            _ => None,
        }
    }
}

impl RepoView {
    /// The repository with `e` as the entry of the timeline `id`: in
    /// the place that the timeline has, or in a new one at the end.
    pub open spec fn with_entry(self, id: ZTimelineId, e: EntryView) -> RepoView {
        match self.find(id) {
            Some(i) => RepoView { timelines: self.timelines.update(i, e), ..self },
            None => RepoView { timelines: self.timelines.push(e), ..self },
        }
    }

    /// The repository with `e` as the entry of the timeline `id` that
    /// has just been loaded. The entry goes where the timeline stands, or
    /// to a new place at the end; but a timeline that stands before the
    /// one it was branched from leaves its place and goes to the end, so
    /// that it can read through that one.
    pub open spec fn with_loaded(self, id: ZTimelineId, e: EntryView, ancestor: Option<ZTimelineId>) -> RepoView {
        if self.moves_on_load(id, ancestor) {
            RepoView { timelines: self.timelines.remove(self.find(id)->0).push(e), ..self }
        } else {
            self.with_entry(id, e)
        }
    }

    /// Whether the timeline `id` stands before the one it was branched from.
    pub open spec fn moves_on_load(self, id: ZTimelineId, ancestor: Option<ZTimelineId>) -> bool {
        self.find(id) is Some && ancestor is Some && self.find(ancestor->0) is Some && self.find(ancestor->0)->0
            > self.find(id)->0 && find_entry(self.timelines.remove(self.find(id)->0), id) is None
    }

    /// What the repository says of the timeline `id`.
    pub open spec fn timeline_state(self, id: ZTimelineId) -> Option<TimelineSyncState> {
        match self.find(id) {
            Some(i) => match self.timelines[i] {
                EntryView::Local(t) => Some(TimelineSyncState::Ready(t.disk_consistent_lsn)),
                EntryView::Remote { disk_consistent_lsn, .. } => Some(
                    TimelineSyncState::CloudOnly(disk_consistent_lsn),
                ),
                EntryView::Evicted { .. } => None,
            },
            None => None,
        }
    }

    /// The state of a new, empty timeline.
    pub open spec fn empty_timeline(self, id: ZTimelineId, initdb_lsn: Lsn) -> TimelineView {
        opened_timeline(Self::empty_metadata(initdb_lsn), id, self.tenantid, 0, self.upload_relishes, initdb_lsn)
    }

    /// The metadata of a new, empty timeline.
    pub open spec fn empty_metadata(initdb_lsn: Lsn) -> TimelineMetadata {
        TimelineMetadata {
            disk_consistent_lsn: Lsn(0),
            prev_record_lsn: None,
            ancestor_timeline: None,
            ancestor_lsn: Lsn(0),
            latest_gc_cutoff_lsn: initdb_lsn,
            initdb_lsn,
        }
    }

    /// The metadata of a timeline branched off `src` at `start_lsn`. The
    /// start of the record before is known only where the branch is
    /// made at the head.
    pub open spec fn branch_metadata(self, src: ZTimelineId, start_lsn: Lsn) -> Result<
        TimelineMetadata,
        BranchError,
    > {
        match self.local_by_id(src) {
            None => Err(BranchError::NotLocal),
            Some(tl) => if start_lsn.0 < tl.latest_gc_cutoff_lsn.0 {
                Err(
                    BranchError::InvalidStartLsn(
                        LsnOutOfScope { lsn: start_lsn, latest_gc_cutoff_lsn: tl.latest_gc_cutoff_lsn },
                    ),
                )
            } else {
                Ok(
                    TimelineMetadata {
                        disk_consistent_lsn: start_lsn,
                        prev_record_lsn: if tl.last_record_lsn.last == start_lsn {
                            Some(tl.last_record_lsn.prev)
                        } else {
                            None
                        },
                        ancestor_timeline: Some(src),
                        ancestor_lsn: start_lsn,
                        latest_gc_cutoff_lsn: tl.latest_gc_cutoff_lsn,
                        initdb_lsn: tl.initdb_lsn,
                    },
                )
            },
        }
    }

    /// The timeline that a directory gives, before its logical size is
    /// counted, and what is to be done with each file.
    pub open spec fn load_plan(
        self,
        id: ZTimelineId,
        metadata_bytes: Seq<u8>,
        files: Seq<LayerFileView>,
    ) -> Result<(TimelineView, Seq<FileAction>), LoadError> {
        match decoded(metadata_bytes) {
            Err(e) => Err(LoadError::Metadata(e)),
            Ok(m) => if m.disk_consistent_lsn.0 == u64::MAX || m.disk_consistent_lsn.0 < m.ancestor_lsn.0 {
                Err(LoadError::InvalidLsn)
            } else if m.ancestor_timeline is Some && self.find(m.ancestor_timeline->0) is None {
                Err(LoadError::AncestorNotLoaded(m.ancestor_timeline->0))
            } else {
                match file_actions(files, m.disk_consistent_lsn, files.len() as int) {
                    Err(e) => Err(LoadError::Layers(e)),
                    Ok(actions) => Ok(
                        (
                            opened_timeline(
                                m,
                                id,
                                self.tenantid,
                                0,
                                self.upload_relishes,
                                Lsn((m.disk_consistent_lsn.0 + 1) as u64),
                            ).with_loaded(
                                loaded_layers(files, m.disk_consistent_lsn, files.len() as int),
                                m.disk_consistent_lsn,
                            ),
                            actions,
                        ),
                    ),
                }
            },
        }
    }
}

/// What loading a timeline does.
///
/// Where the directory gives a timeline, it takes the timeline's place
/// in the repository, and its logical size is counted at its head;
/// where that fails, or the directory gives none, nothing changes.
pub open spec fn load_post(
    before: RepoView,
    after: RepoView,
    id: ZTimelineId,
    metadata_bytes: Seq<u8>,
    files: Seq<LayerFileView>,
    r: Result<Seq<FileAction>, LoadError>,
) -> bool {
    match before.load_plan(id, metadata_bytes, files) {
        Err(e) => after == before && r == Err::<Seq<FileAction>, LoadError>(e),
        Ok(plan) => {
            let placed = before.with_loaded(id, EntryView::Local(plan.0), plan.0.ancestor_timeline);
            let idx = placed.read_index(id);
            let lsn = plan.0.last_record_lsn.last;
            if !placed.chain_local(idx) {
                after == before && r == Err::<Seq<FileAction>, LoadError>(
                    LoadError::LogicalSize(ReadError::AncestorNotLocal),
                )
            } else {
                exists|rels: Seq<RelishTag>, nonrels: Seq<RelishTag>|
                    #![trigger placed.logical_size_of(idx, rels, nonrels, lsn)]
                    placed.is_listing(
                        idx,
                        Some(RelTag { spcnode: 0, dbnode: 0, relnode: 0, forknum: 0 }),
                        lsn,
                        rels,
                    ) && placed.is_listing(idx, None, lsn, nonrels) && match placed.logical_size_of(
                        idx,
                        rels,
                        nonrels,
                        lsn,
                    ) {
                        Err(e) => after == before && r == Err::<Seq<FileAction>, LoadError>(
                            LoadError::LogicalSize(e),
                        ),
                        Ok(size) => after == placed.with_local(
                            idx,
                            TimelineView { current_logical_size: size, ..plan.0 },
                        ) && r == Ok::<Seq<FileAction>, LoadError>(plan.1),
                    }
            }
        },
    }
}

pub open spec fn actions_view(r: Result<Vec<FileAction>, LoadError>) -> Result<Seq<FileAction>, LoadError> {
    match r {
        Ok(v) => Ok(v@),
        Err(e) => Err(e),
    }
}

proof fn lemma_push_view(s: Seq<LayeredTimelineEntry>, e: LayeredTimelineEntry)
    ensures
        entries_view(s.push(e)) == entries_view(s).push(e@),
{
    assert(entries_view(s.push(e)) =~= entries_view(s).push(e@));
}

proof fn lemma_set_view(s: Seq<LayeredTimelineEntry>, i: int, e: LayeredTimelineEntry)
    requires
        0 <= i < s.len(),
    ensures
        entries_view(s.update(i, e)) == entries_view(s).update(i, e@),
{
    assert(entries_view(s.update(i, e)) =~= entries_view(s).update(i, e@));
}

impl LayeredRepository {
    /// Puts `e` in the place of the timeline `id`, or in a new place at
    /// the end, and hands back what was there.
    pub(crate) fn put_entry(&mut self, id: ZTimelineId, e: LayeredTimelineEntry) -> (old_entry: Option<
        LayeredTimelineEntry,
    >)
        requires
            old(self).wf(),
            e.wf(),
            e@.id() == id,
        ensures
            final(self).wf(),
            final(self)@ == old(self)@.with_entry(id, e@),
            final(self)@.find(id) is Some,
            match old_entry {
                Some(o) => old(self)@.find(id) is Some && o@ == old(self)@.timelines[old(self)@.find(id)->0] && o.wf()
                    && final(self)@.find(id) == old(self)@.find(id),
                None => old(self)@.find(id) is None && final(self)@.find(id) == Some(
                    old(self)@.timelines.len() as int,
                ),
            },
    {
        let ghost entries_before = self.timelines@;
        proof {
            lemma_find_entry(self@.timelines, id);
        }
        match self.find_timeline(id) {
            Some(i) => {
                let mut e = e;
                let ghost new_e = e;
                core::mem::swap(&mut self.timelines[i], &mut e);
                proof {
                    lemma_set_view(entries_before, i as int, new_e);
                    assert forall|j: int| 0 <= j < self.timelines@.len() implies (#[trigger] self.timelines@[j]).wf() by {
                        if j != i {
                            assert(self.timelines@[j] == entries_before[j]);
                        }
                    }
                    crate::repository::lemma_find_entry_first(self@.timelines, id, i as int);
                }
                Some(e)
            },
            None => {
                self.timelines.push(e);
                proof {
                    lemma_push_view(entries_before, e);
                    assert forall|j: int| 0 <= j < self.timelines@.len() implies (#[trigger] self.timelines@[j]).wf() by {
                        if j < entries_before.len() {
                            assert(self.timelines@[j] == entries_before[j]);
                        }
                    }
                    crate::repository::lemma_find_entry_first(self@.timelines, id, entries_before.len() as int);
                }
                None
            },
        }
    }

    /// Puts the entry of a timeline that has just been loaded in its
    /// place, and hands back what is needed to undo that: the entry that
    /// was there, and the place that the timeline left, if it moved.
    pub(crate) fn place_loaded(&mut self, id: ZTimelineId, e: LayeredTimelineEntry, ancestor: Option<ZTimelineId>) -> (undo:
        (Option<LayeredTimelineEntry>, Option<usize>))
        requires
            old(self).wf(),
            e.wf(),
            e@.id() == id,
        ensures
            final(self).wf(),
            final(self)@ == old(self)@.with_loaded(id, e@, ancestor),
            final(self)@.find(id) is Some,
            final(self)@.timelines[final(self)@.find(id)->0] == e@,
            match undo.1 {
                Some(i) => undo.0 is Some && undo.0->0.wf() && i < final(self)@.timelines.len() && old(self)@.timelines
                    == final(self)@.timelines.drop_last().insert(i as int, undo.0->0@),
                None => match undo.0 {
                    Some(o) => old(self)@.find(id) is Some && o@ == old(self)@.timelines[old(self)@.find(id)->0]
                        && o.wf() && final(self)@.find(id) == old(self)@.find(id) && final(self)@.timelines.len()
                        == old(self)@.timelines.len() && forall|j: int|
                        0 <= j < old(self)@.timelines.len() && j != old(self)@.find(id)->0
                            ==> #[trigger] old(self)@.timelines[j] == final(self)@.timelines[j],
                    None => old(self)@.find(id) is None && final(self)@.find(id) == Some(
                        old(self)@.timelines.len() as int,
                    ) && final(self)@.timelines.drop_last() == old(self)@.timelines,
                },
            },
    {
        let ghost before = self@;
        let ghost entries_before = self.timelines@;
        proof {
            lemma_find_entry(before.timelines, id);
        }
        let here = self.find_timeline(id);
        let there = match ancestor {
            Some(a) => self.find_timeline(a),
            None => None,
        };
        match (here, there) {
            (Some(i), Some(k)) => {
                if k > i {
                    let o = self.timelines.remove(i);
                    assert(entries_view(self.timelines@) =~= before.timelines.remove(i as int));
                    assert forall|j: int| 0 <= j < self.timelines@.len() implies (#[trigger] self.timelines@[j]).wf() by {
                        if j < i {
                            assert(self.timelines@[j] == entries_before[j]);
                        } else {
                            assert(self.timelines@[j] == entries_before[j + 1]);
                        }
                    }
                    if self.find_timeline(id).is_none() {
                        let ghost removed = self.timelines@;
                        proof {
                            lemma_find_entry(self@.timelines, id);
                        }
                        self.timelines.push(e);
                        proof {
                            lemma_push_view(removed, e);
                            assert forall|j: int| 0 <= j < removed.len() implies (#[trigger] self@.timelines[j]).id()
                                != id by {
                                assert(self@.timelines[j] == entries_view(removed)[j]);
                            }
                            assert forall|j: int| 0 <= j < self.timelines@.len() implies (
                            #[trigger] self.timelines@[j]).wf() by {
                                if j < removed.len() {
                                    assert(self.timelines@[j] == removed[j]);
                                }
                            }
                            crate::repository::lemma_find_entry_first(self@.timelines, id, removed.len() as int);
                            assert(self@.timelines.drop_last() =~= entries_view(removed));
                            assert(entries_view(removed).insert(i as int, o@) =~= before.timelines);
                        }
                        return (Some(o), Some(i));
                    }
                    self.timelines.insert(i, o);
                    assert(self.timelines@ =~= entries_before);
                }
            },
            _ => {},
        }
        let o = self.put_entry(id, e);
        proof {
            lemma_find_entry(self@.timelines, id);
            if o is None {
                assert(self@.timelines.drop_last() =~= before.timelines);
            }
        }
        (o, None)
    }

    /// Undoes `place_loaded`.
    pub(crate) fn unplace_loaded(
        &mut self,
        id: ZTimelineId,
        undo: (Option<LayeredTimelineEntry>, Option<usize>),
        Ghost(before): Ghost<RepoView>,
    )
        requires
            old(self).wf(),
            old(self)@.find(id) is Some,
            before.tenantid == old(self)@.tenantid,
            before.conf == old(self)@.conf,
            before.upload_relishes == old(self)@.upload_relishes,
            match undo.1 {
                Some(i) => undo.0 is Some && undo.0->0.wf() && i < old(self)@.timelines.len() && before.timelines
                    == old(self)@.timelines.drop_last().insert(i as int, undo.0->0@),
                None => match undo.0 {
                    Some(o) => before.find(id) == old(self)@.find(id) && before.timelines.len()
                        == old(self)@.timelines.len() && o@ == before.timelines[before.find(id)->0] && o.wf()
                        && forall|j: int|
                        0 <= j < before.timelines.len() && j != before.find(id)->0 ==> #[trigger] before.timelines[j]
                            == old(self)@.timelines[j],
                    None => old(self)@.find(id) == Some(before.timelines.len() as int) && old(self)@.timelines.len()
                        == before.timelines.len() + 1 && forall|j: int|
                        0 <= j < before.timelines.len() ==> #[trigger] before.timelines[j] == old(self)@.timelines[j],
                },
            },
        ensures
            final(self).wf(),
            final(self)@ == before,
    {
        match undo.1 {
            Some(i) => {
                let ghost now = self.timelines@;
                self.timelines.pop();
                match undo.0 {
                    Some(o) => {
                        let ghost popped = self.timelines@;
                        self.timelines.insert(i, o);
                        proof {
                            assert(entries_view(self.timelines@) =~= entries_view(now).drop_last().insert(
                                i as int,
                                o@,
                            ));
                            assert forall|j: int| 0 <= j < self.timelines@.len() implies (
                            #[trigger] self.timelines@[j]).wf() by {
                                if j < i {
                                    assert(self.timelines@[j] == now[j]);
                                } else if j > i {
                                    assert(self.timelines@[j] == now[j - 1]);
                                }
                            }
                        }
                    },
                    None => {},
                }
            },
            None => {
                self.restore_entry(id, undo.0, Ghost(before));
            },
        }
    }

    /// Undoes `put_entry`.
    pub(crate) fn restore_entry(&mut self, id: ZTimelineId, old_entry: Option<LayeredTimelineEntry>, Ghost(before): Ghost<
        RepoView,
    >)
        requires
            old(self).wf(),
            old(self)@.find(id) is Some,
            before.tenantid == old(self)@.tenantid,
            before.conf == old(self)@.conf,
            before.upload_relishes == old(self)@.upload_relishes,
            match old_entry {
                Some(o) => before.find(id) == old(self)@.find(id) && before.timelines.len()
                    == old(self)@.timelines.len() && o@ == before.timelines[before.find(id)->0] && o.wf()
                    && forall|j: int|
                    0 <= j < before.timelines.len() && j != before.find(id)->0 ==> #[trigger] before.timelines[j]
                        == old(self)@.timelines[j],
                None => old(self)@.find(id) == Some(before.timelines.len() as int) && old(self)@.timelines.len()
                    == before.timelines.len() + 1 && forall|j: int|
                    0 <= j < before.timelines.len() ==> #[trigger] before.timelines[j] == old(self)@.timelines[j],
            },
        ensures
            final(self).wf(),
            final(self)@ == before,
    {
        let ghost entries_before = self.timelines@;
        match old_entry {
            Some(o) => {
                let i = match self.find_timeline(id) {
                    Some(i) => i,
                    None => { return ; },
                };
                let mut o = o;
                let ghost back = o;
                core::mem::swap(&mut self.timelines[i], &mut o);
                proof {
                    lemma_set_view(entries_before, i as int, back);
                    assert forall|j: int| 0 <= j < self.timelines@.len() implies (#[trigger] self.timelines@[j]).wf() by {
                        if j != i {
                            assert(self.timelines@[j] == entries_before[j]);
                        }
                    }
                    assert(self@.timelines =~= before.timelines);
                }
            },
            None => {
                self.timelines.pop();
                proof {
                    assert forall|j: int| 0 <= j < self.timelines@.len() implies (#[trigger] self.timelines@[j]).wf() by {
                        assert(self.timelines@[j] == entries_before[j]);
                    }
                    assert(self@.timelines =~= before.timelines);
                }
            },
        }
    }

    /// The timeline `timelineid`, as far as the repository holds it.
    pub fn get_timeline(&self, timelineid: ZTimelineId) -> (r: Result<RepositoryTimeline<'_>, NotLoaded>)
        ensures
            match self@.find(timelineid) {
                Some(i) => match self@.timelines[i] {
                    EntryView::Local(t) => r matches Ok(RepositoryTimeline::Local(l)) && l@ == t,
                    EntryView::Remote { id, disk_consistent_lsn } => r matches Ok(
                        RepositoryTimeline::Remote { id: rid, disk_consistent_lsn: rlsn },
                    ) && rid == id && rlsn == disk_consistent_lsn,
                    EntryView::Evicted { .. } => r is Err,
                },
                None => r is Err,
            },
    {
        match self.find_timeline(timelineid) {
            Some(i) => match &self.timelines[i] {
                LayeredTimelineEntry::Local(t) => Ok(RepositoryTimeline::Local(t)),
                LayeredTimelineEntry::Remote { id, disk_consistent_lsn } => Ok(
                    RepositoryTimeline::Remote { id: *id, disk_consistent_lsn: *disk_consistent_lsn },
                ),
                LayeredTimelineEntry::Evicted { .. } => Err(NotLoaded),
            },
            None => Err(NotLoaded),
        }
    }

    /// Makes a new, empty timeline, whose first layer will start at
    /// `initdb_lsn`, and hands back the metadata to save for it.
    pub fn create_empty_timeline(&mut self, timelineid: ZTimelineId, initdb_lsn: Lsn) -> (r: Result<
        TimelineMetadata,
        CreateError,
    >)
        requires
            old(self).wf(),
        ensures
            final(self).wf(),
            old(self)@.find(timelineid) is Some ==> r == Err::<TimelineMetadata, CreateError>(
                CreateError::AlreadyExists,
            ) && final(self)@ == old(self)@,
            old(self)@.find(timelineid) is None ==> r == Ok::<TimelineMetadata, CreateError>(
                RepoView::empty_metadata(initdb_lsn),
            ) && final(self)@ == old(self)@.with_entry(
                timelineid,
                EntryView::Local(old(self)@.empty_timeline(timelineid, initdb_lsn)),
            ),
    {
        if self.find_timeline(timelineid).is_some() {
            return Err(CreateError::AlreadyExists);
        }
        let metadata = TimelineMetadata::new(Lsn(0), None, None, Lsn(0), initdb_lsn, initdb_lsn);
        let timeline = LayeredTimeline::new(
            metadata,
            timelineid,
            self.tenantid,
            0,
            self.upload_relishes,
            initdb_lsn,
        );
        self.put_entry(timelineid, LayeredTimelineEntry::Local(timeline));
        Ok(metadata)
    }

    /// The metadata of a new timeline branched off `src` at `start_lsn`.
    ///
    /// The new timeline comes into being once that metadata is saved in
    /// a directory of its own; it is loaded like any other.
    pub fn branch_timeline(&self, src: ZTimelineId, dst: ZTimelineId, start_lsn: Lsn) -> (r: Result<
        TimelineMetadata,
        BranchError,
    >)
        ensures
            r == self@.branch_metadata(src, start_lsn),
    {
        let src_timeline = match self.get_local_timeline(src) {
            Some(t) => t,
            None => { return Err(BranchError::NotLocal); },
        };
        let latest_gc_cutoff_lsn = src_timeline.get_latest_gc_cutoff_lsn();
        match src_timeline.check_lsn_is_in_scope(start_lsn, latest_gc_cutoff_lsn) {
            Err(e) => { return Err(BranchError::InvalidStartLsn(e)); },
            Ok(_) => {},
        }
        let rlsn = src_timeline.get_last_record_rlsn();
        let dst_prev = if rlsn.last.0 == start_lsn.0 {
            Some(rlsn.prev)
        } else {
            None
        };
        Ok(
            TimelineMetadata::new(
                start_lsn,
                dst_prev,
                Some(src),
                start_lsn,
                latest_gc_cutoff_lsn,
                src_timeline.get_initdb_lsn(),
            ),
        )
    }

    /// Lets go of a loaded timeline: from now on the repository holds
    /// it as one in remote storage. Its directory is to be removed.
    pub fn detach_timeline(&mut self, timeline_id: ZTimelineId) -> (r: Result<(), DetachError>)
        requires
            old(self).wf(),
        ensures
            final(self).wf(),
            match old(self)@.find(timeline_id) {
                Some(i) => match old(self)@.timelines[i] {
                    EntryView::Local(t) => r is Ok && final(self)@ == old(self)@.with_entry(
                        timeline_id,
                        EntryView::Remote { id: timeline_id, disk_consistent_lsn: t.disk_consistent_lsn },
                    ),
                    EntryView::Remote { .. } => r == Err::<(), DetachError>(DetachError::Remote) && final(self)@
                        == old(self)@,
                    EntryView::Evicted { .. } => r == Err::<(), DetachError>(DetachError::NotFound) && final(self)@ == old(self)@,
                },
                None => r == Err::<(), DetachError>(DetachError::NotFound) && final(self)@ == old(self)@,
            },
    {
        let i = match self.find_timeline(timeline_id) {
            Some(i) => i,
            None => { return Err(DetachError::NotFound); },
        };
        let disk_consistent_lsn = match &self.timelines[i] {
            LayeredTimelineEntry::Local(t) => t.disk_consistent_lsn,
            LayeredTimelineEntry::Remote { .. } => { return Err(DetachError::Remote); },
            LayeredTimelineEntry::Evicted { .. } => { return Err(DetachError::NotFound); },
        };
        self.put_entry(timeline_id, LayeredTimelineEntry::Remote { id: timeline_id, disk_consistent_lsn });
        Ok(())
    }

    /// What the repository says of the timeline: ready where it is
    /// loaded, in remote storage only where it is held as such, nothing
    /// where it is not held.
    pub fn get_timeline_state(&self, timeline_id: ZTimelineId) -> (r: Option<TimelineSyncState>)
        ensures
            r == self@.timeline_state(timeline_id),
    {
        match self.find_timeline(timeline_id) {
            Some(i) => match &self.timelines[i] {
                LayeredTimelineEntry::Local(t) => Some(TimelineSyncState::Ready(t.disk_consistent_lsn)),
                LayeredTimelineEntry::Remote { disk_consistent_lsn, .. } => Some(
                    TimelineSyncState::CloudOnly(*disk_consistent_lsn),
                ),
                LayeredTimelineEntry::Evicted { .. } => None,
            },
            None => None,
        }
    }

    /// Loads the timeline `timelineid` from what its directory holds:
    /// the bytes of its metadata file, and its files.
    pub fn init_local_timeline(&mut self, timelineid: ZTimelineId, metadata_bytes: &Vec<u8>, files: Vec<LayerFile>) -> (r:
        Result<Vec<FileAction>, LoadError>)
        requires
            old(self).wf(),
        ensures
            final(self).wf(),
            load_post(old(self)@, final(self)@, timelineid, metadata_bytes@, files_view(files@), actions_view(r)),
    {
        let ghost before = self@;
        let ghost fv = files_view(files@);
        let metadata = match TimelineMetadata::from_bytes(metadata_bytes) {
            Ok(m) => m,
            Err(e) => { return Err(LoadError::Metadata(e)); },
        };
        let disk_consistent_lsn = metadata.disk_consistent_lsn;
        if disk_consistent_lsn.0 == u64::MAX || disk_consistent_lsn.0 < metadata.ancestor_lsn.0 {
            return Err(LoadError::InvalidLsn);
        }
        match metadata.ancestor_timeline {
            Some(a) => {
                if self.find_timeline(a).is_none() {
                    return Err(LoadError::AncestorNotLoaded(a));
                }
            },
            None => {},
        }
        let mut timeline = LayeredTimeline::new(
            metadata,
            timelineid,
            self.tenantid,
            0,
            self.upload_relishes,
            Lsn(disk_consistent_lsn.0 + 1),
        );
        let ghost opened = timeline@;
        let actions = match timeline.load_layer_map(disk_consistent_lsn, files) {
            Ok(a) => a,
            Err(e) => { return Err(LoadError::Layers(e)); },
        };
        let ghost plan = timeline@;
        assert(plan == opened.with_loaded(
            loaded_layers(fv, disk_consistent_lsn, fv.len() as int),
            disk_consistent_lsn,
        ));
        assert(before.load_plan(timelineid, metadata_bytes@, fv) == Ok::<
            (TimelineView, Seq<FileAction>),
            LoadError,
        >((plan, actions@)));
        let last = timeline.get_last_record_lsn();
        let undo = self.place_loaded(timelineid, LayeredTimelineEntry::Local(timeline), metadata.ancestor_timeline);
        let ghost placed = self@;
        proof {
            lemma_find_entry(before.timelines, timelineid);
            lemma_find_entry(placed.timelines, timelineid);
        }
        let idx = match self.find_timeline(timelineid) {
            Some(i) => i,
            None => { return Err(LoadError::LogicalSize(ReadError::NotLocal)); },
        };
        assert(placed == before.with_loaded(timelineid, EntryView::Local(plan), plan.ancestor_timeline));
        assert(placed.timelines[idx as int] == EntryView::Local(plan));
        match self.get_current_logical_size_non_incremental(timelineid, last) {
            Err(e) => {
                self.unplace_loaded(timelineid, undo, Ghost(before));
                Err(LoadError::LogicalSize(e))
            },
            Ok(size) => {
                let ghost entries0 = self.timelines@;
                let tl = self.local_mut(idx);
                tl.current_logical_size = size;
                proof {
                    let t = self.timelines@[idx as int]->Local_0;
                    lemma_update_view(entries0, idx as int, t);
                    assert forall|i: int| 0 <= i < self.timelines@.len() implies (#[trigger] self.timelines@[i]).wf() by {
                        if i != idx {
                            assert(self.timelines@[i] == entries0[i]);
                        }
                    }
                    assert(self@ == placed.with_local(
                        idx as int,
                        TimelineView { current_logical_size: size, ..plan },
                    ));
                }
                Ok(actions)
            },
        }
    }

    /// Takes note of where remote storage has the timeline.
    ///
    /// A timeline that is ready is loaded, from the bytes of its
    /// metadata file and its files. One that is evicted is dropped from
    /// memory. One that is in remote storage is held as such from now on.
    pub fn set_timeline_state(
        &mut self,
        timeline_id: ZTimelineId,
        new_state: TimelineSyncState,
        metadata_bytes: &Vec<u8>,
        files: Vec<LayerFile>,
    ) -> (r: Result<Vec<FileAction>, LoadError>)
        requires
            old(self).wf(),
        ensures
            final(self).wf(),
            match new_state {
                TimelineSyncState::Ready(_) => load_post(
                    old(self)@,
                    final(self)@,
                    timeline_id,
                    metadata_bytes@,
                    files_view(files@),
                    actions_view(r),
                ),
                TimelineSyncState::Evicted(_) => r is Ok && r->Ok_0@.len() == 0 && final(self)@ == (if old(self)@.find(timeline_id) is Some {
                    old(self)@.with_entry(timeline_id, EntryView::Evicted { id: timeline_id })
                } else {
                    old(self)@
                }),
                TimelineSyncState::AwaitsDownload(lsn) => r is Ok && r->Ok_0@.len() == 0 && final(self)@ == old(self)@.with_entry(timeline_id, EntryView::Remote { id: timeline_id, disk_consistent_lsn: lsn }),
                TimelineSyncState::CloudOnly(lsn) => r is Ok && r->Ok_0@.len() == 0 && final(self)@ == old(self)@.with_entry(timeline_id, EntryView::Remote { id: timeline_id, disk_consistent_lsn: lsn }),
            },
    {
        match new_state {
            TimelineSyncState::Ready(_) => self.init_local_timeline(timeline_id, metadata_bytes, files),
            TimelineSyncState::Evicted(_) => {
                if self.find_timeline(timeline_id).is_some() {
                    self.put_entry(timeline_id, LayeredTimelineEntry::Evicted { id: timeline_id });
                }
                Ok(Vec::new())
            },
            TimelineSyncState::AwaitsDownload(lsn) => {
                self.put_entry(
                    timeline_id,
                    LayeredTimelineEntry::Remote { id: timeline_id, disk_consistent_lsn: lsn },
                );
                Ok(Vec::new())
            },
            TimelineSyncState::CloudOnly(lsn) => {
                self.put_entry(
                    timeline_id,
                    LayeredTimelineEntry::Remote { id: timeline_id, disk_consistent_lsn: lsn },
                );
                Ok(Vec::new())
            },
        }
    }
}

} // verus!
