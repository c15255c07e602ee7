//! Garbage collection: flushed layers that lie wholly below the cutoff,
//! that no branch point needs, and that a newer image or a drop has made
//! useless, are taken out of the map.

use crate::checkpoint::{
    checkpoint_first, checkpoint_post, checkpoint_second, flush_images, flush_post, CheckpointConfig,
    CheckpointError, FlushOutcome,
};
use crate::layer::{Layer, LayerKind, LayerView};
use crate::page::{RedoRequest, WalRedoError};
use crate::repository::EntryView;
use crate::repository::LayeredTimelineEntry;
use bytes::Bytes;
use crate::layer_map::{layers_view, LayerMapView};
use crate::lsn::{Lsn, ZTimelineId};
use crate::read::ReadError;
use crate::relish::{SegmentTag, RELISH_SEG_SIZE};
use crate::repository::{lemma_update_view, LayeredRepository, RepoView};
use crate::timeline::{LayeredTimeline, TimelineView};
use vstd::prelude::*;

verus! {

/// What GC decides of one flushed layer.
#[derive(Clone, Copy, Debug, PartialEq, Eq, Structural)]
pub enum GcVerdict {
    /// Not looked at: it covers more than one segment, or none, or is not flushed.
    Skipped,
    /// Kept: it ends above the cutoff.
    NeededByCutoff,
    /// Kept: it starts at or below a branch point.
    NeededByBranches,
    /// Kept: its segment lives and has no newer image on disk.
    NotUpdated,
    /// Kept: it records a drop that still has something older to hide.
    NeededAsTombstone,
    /// Taken out.
    Removed,
}

/// A verdict, with what it is counted under.
#[derive(Clone, Copy, Debug, PartialEq, Eq, Structural)]
pub struct GcClass {
    pub verdict: GcVerdict,
    /// The layer's segment belongs to a relation.
    pub relation: bool,
    /// The layer's last word on its segment is a drop.
    pub dropped: bool,
}

/// How many layers GC found under each verdict.
#[derive(Clone, Copy, Debug, PartialEq, Eq, Structural)]
pub struct GcCounts {
    pub total: u64,
    pub needed_by_cutoff: u64,
    pub needed_by_branches: u64,
    pub not_updated: u64,
    pub needed_as_tombstone: u64,
    /// Taken out because newer layers have made them obsolete.
    pub removed: u64,
    /// Taken out because the segment was dropped.
    pub dropped: u64,
}

/// The counts of one GC run, for the layers of relations and for the others.
#[derive(Clone, Copy, Debug, PartialEq, Eq, Structural)]
pub struct GcResult {
    pub rel: GcCounts,
    pub nonrel: GcCounts,
}

/// `x + 1`, or `x` where that cannot be counted.
pub open spec fn inc(x: u64) -> u64 {
    if x < u64::MAX {
        (x + 1) as u64
    } else {
        x
    }
}

/// `x + y`, or the largest count where that cannot be counted.
pub open spec fn sat_add(x: u64, y: u64) -> u64 {
    if x + y <= u64::MAX {
        (x + y) as u64
    } else {
        u64::MAX
    }
}

impl GcCounts {
    pub open spec fn zero() -> GcCounts {
        GcCounts {
            total: 0,
            needed_by_cutoff: 0,
            needed_by_branches: 0,
            not_updated: 0,
            needed_as_tombstone: 0,
            removed: 0,
            dropped: 0,
        }
    }

    /// The counts with one more layer under `verdict`.
    pub open spec fn bump(self, verdict: GcVerdict, dropped: bool) -> GcCounts {
        match verdict {
            GcVerdict::Skipped => self,
            GcVerdict::NeededByCutoff => GcCounts {
                total: inc(self.total),
                needed_by_cutoff: inc(self.needed_by_cutoff),
                ..self
            },
            GcVerdict::NeededByBranches => GcCounts {
                total: inc(self.total),
                needed_by_branches: inc(self.needed_by_branches),
                ..self
            },
            GcVerdict::NotUpdated => GcCounts { total: inc(self.total), not_updated: inc(self.not_updated), ..self },
            GcVerdict::NeededAsTombstone => GcCounts {
                total: inc(self.total),
                needed_as_tombstone: inc(self.needed_as_tombstone),
                ..self
            },
            GcVerdict::Removed => if dropped {
                GcCounts { total: inc(self.total), dropped: inc(self.dropped), ..self }
            } else {
                GcCounts { total: inc(self.total), removed: inc(self.removed), ..self }
            },
        }
    }

    pub open spec fn plus(self, o: GcCounts) -> GcCounts {
        GcCounts {
            total: sat_add(self.total, o.total),
            needed_by_cutoff: sat_add(self.needed_by_cutoff, o.needed_by_cutoff),
            needed_by_branches: sat_add(self.needed_by_branches, o.needed_by_branches),
            not_updated: sat_add(self.not_updated, o.not_updated),
            needed_as_tombstone: sat_add(self.needed_as_tombstone, o.needed_as_tombstone),
            removed: sat_add(self.removed, o.removed),
            dropped: sat_add(self.dropped, o.dropped),
        }
    }

    fn bumped(self, verdict: GcVerdict, dropped: bool) -> (r: GcCounts)
        ensures
            r == self.bump(verdict, dropped),
    {
        let mut r = self;
        match verdict {
            GcVerdict::Skipped => {
                return r;
            },
            GcVerdict::NeededByCutoff => {
                r.needed_by_cutoff = r.needed_by_cutoff.saturating_add(1);
            },
            GcVerdict::NeededByBranches => {
                r.needed_by_branches = r.needed_by_branches.saturating_add(1);
            },
            GcVerdict::NotUpdated => {
                r.not_updated = r.not_updated.saturating_add(1);
            },
            GcVerdict::NeededAsTombstone => {
                r.needed_as_tombstone = r.needed_as_tombstone.saturating_add(1);
            },
            GcVerdict::Removed => {
                if dropped {
                    r.dropped = r.dropped.saturating_add(1);
                } else {
                    r.removed = r.removed.saturating_add(1);
                }
            },
        }
        r.total = r.total.saturating_add(1);
        r
    }

    fn added(self, o: GcCounts) -> (r: GcCounts)
        ensures
            r == self.plus(o),
    {
        GcCounts {
            total: self.total.saturating_add(o.total),
            needed_by_cutoff: self.needed_by_cutoff.saturating_add(o.needed_by_cutoff),
            needed_by_branches: self.needed_by_branches.saturating_add(o.needed_by_branches),
            not_updated: self.not_updated.saturating_add(o.not_updated),
            needed_as_tombstone: self.needed_as_tombstone.saturating_add(o.needed_as_tombstone),
            removed: self.removed.saturating_add(o.removed),
            dropped: self.dropped.saturating_add(o.dropped),
        }
    }
}

impl GcResult {
    pub open spec fn zero() -> GcResult {
        GcResult { rel: GcCounts::zero(), nonrel: GcCounts::zero() }
    }

    /// The counts with one more layer of class `c`.
    pub open spec fn bump(self, c: GcClass) -> GcResult {
        if c.relation {
            GcResult { rel: self.rel.bump(c.verdict, c.dropped), ..self }
        } else {
            GcResult { nonrel: self.nonrel.bump(c.verdict, c.dropped), ..self }
        }
    }

    /// The counts of a list of classes.
    pub open spec fn tally(classes: Seq<GcClass>) -> GcResult
        decreases classes.len(),
    {
        if classes.len() == 0 {
            GcResult::zero()
        } else {
            Self::tally(classes.drop_last()).bump(classes.last())
        }
    }

    /// The counts of two runs together.
    pub open spec fn plus(self, o: GcResult) -> GcResult {
        GcResult { rel: self.rel.plus(o.rel), nonrel: self.nonrel.plus(o.nonrel) }
    }

    pub fn new() -> (r: GcResult)
        ensures
            r == GcResult::zero(),
    {
        let z = GcCounts {
            total: 0,
            needed_by_cutoff: 0,
            needed_by_branches: 0,
            not_updated: 0,
            needed_as_tombstone: 0,
            removed: 0,
            dropped: 0,
        };
        GcResult { rel: z, nonrel: z }
    }

    pub(crate) fn bumped(self, c: GcClass) -> (r: GcResult)
        ensures
            r == self.bump(c),
    {
        if c.relation {
            GcResult { rel: self.rel.bumped(c.verdict, c.dropped), nonrel: self.nonrel }
        } else {
            GcResult { rel: self.rel, nonrel: self.nonrel.bumped(c.verdict, c.dropped) }
        }
    }

    /// The counts of this run and of `o` together.
    pub fn accumulate(self, o: GcResult) -> (r: GcResult)
        ensures
            r == self.plus(o),
    {
        GcResult { rel: self.rel.added(o.rel), nonrel: self.nonrel.added(o.nonrel) }
    }
}

/// Why GC stopped.
#[derive(Clone, Copy, Debug, PartialEq, Eq, Structural)]
pub enum GcError {
    /// The timeline is not loaded.
    NotLocal,
    /// The timeline that this one was branched from could not be read.
    Read(ReadError),
    /// The checkpoint before GC failed.
    Checkpoint(crate::checkpoint::CheckpointError),
    /// Of a timeline that is in remote storage only it is not known where it was branched off.
    RemoteBranchUnknown,
    /// Shutdown was asked for before the run came to its next timeline:
    /// the run ends there, and what it has collected stands.
    Shutdown,
}

/// What GC of one timeline hands back: the counts, and the layers taken
/// out of the map, whose files are to be deleted.
pub struct GcOutcome {
    pub result: GcResult,
    pub removed: Vec<Layer>,
}

/// The counts that GC of one timeline hands back, or why it stopped;
/// the layers taken out are stated beside it.
pub open spec fn gc_result(r: Result<GcOutcome, GcError>) -> Result<GcResult, GcError> {
    match r {
        Ok(o) => Ok(o.result),
        Err(e) => Err(e),
    }
}

/// Whether a layer that starts at `start` is at or below one of the LSNs to retain.
pub open spec fn retained(retain_lsns: Seq<Lsn>, start: Lsn) -> bool {
    exists|j: int| 0 <= j < retain_lsns.len() && start.0 <= (#[trigger] retain_lsns[j]).0
}

impl RepoView {
    /// Whether the timeline that the one at `idx` was branched from still
    /// has `seg` at its head: a blocky relish that reaches that segment
    /// (an empty one reaches its first segment and no other); any other
    /// relish that exists. No loaded ancestor, no segment.
    pub open spec fn ancestor_reaches(self, idx: int, seg: SegmentTag) -> Result<bool, ReadError> {
        match self.ancestor_index(idx) {
            None => Ok(false),
            Some(a) => {
                let prior = self.local(a)->0.last_record_lsn.last;
                if seg.rel.blocky() {
                    match self.relish_size(a, seg.rel, prior) {
                        Err(e) => Err(e),
                        Ok(None) => Ok(false),
                        Ok(Some(size)) => Ok(
                            if size == 0 {
                                seg.segno == 0
                            } else {
                                (size - 1) / (RELISH_SEG_SIZE as int) >= seg.segno
                            },
                        ),
                    }
                } else {
                    match self.rel_exists(a, seg.rel, prior) {
                        Ok(b) => Ok(b),
                        Err(_) => Ok(false),
                    }
                }
            },
        }
    }

    /// Whether a layer that records the drop of `seg` is a tombstone:
    /// just below it the timeline's own layers, or the timeline it was
    /// branched from, still have the segment.
    pub open spec fn is_tombstone(self, idx: int, l: LayerView, seg: SegmentTag) -> Result<bool, ReadError> {
        let tl = self.local(idx)->0;
        if l.start_lsn.0 > 0 && tl.layers.layer_exists_at_lsn(seg, Lsn((l.start_lsn.0 - 1) as u64)) {
            Ok(true)
        } else {
            self.ancestor_reaches(idx, seg)
        }
    }

    /// What GC decides of the flushed layer `l` of the timeline at `idx`.
    pub open spec fn gc_class(self, idx: int, l: LayerView, retain_lsns: Seq<Lsn>, cutoff: Lsn) -> Result<
        GcClass,
        ReadError,
    > {
        let tl = self.local(idx)->0;
        if l.kind == LayerKind::InMemory || l.single_seg() is None {
            Ok(GcClass { verdict: GcVerdict::Skipped, relation: false, dropped: false })
        } else if !l.readable {
            Err(ReadError::UnreadableLayer)
        } else {
            let seg = l.single_seg()->0;
            let dropped = l.dropped(seg);
            let relation = seg.rel.relation();
            if l.end_or_max().0 > cutoff.0 {
                Ok(GcClass { verdict: GcVerdict::NeededByCutoff, relation, dropped })
            } else if retained(retain_lsns, l.start_lsn) {
                Ok(GcClass { verdict: GcVerdict::NeededByBranches, relation, dropped })
            } else if !dropped && !tl.layers.newer_image_layer_exists(seg, l.end_or_max(), tl.disk_consistent_lsn) {
                Ok(GcClass { verdict: GcVerdict::NotUpdated, relation, dropped })
            } else if dropped {
                match self.is_tombstone(idx, l, seg) {
                    Err(e) => Err(e),
                    Ok(true) => Ok(GcClass { verdict: GcVerdict::NeededAsTombstone, relation, dropped }),
                    Ok(false) => Ok(GcClass { verdict: GcVerdict::Removed, relation, dropped }),
                }
            } else {
                Ok(GcClass { verdict: GcVerdict::Removed, relation, dropped })
            }
        }
    }

    /// Whether GC keeps a layer.
    pub open spec fn gc_keeps(self, idx: int, retain_lsns: Seq<Lsn>, cutoff: Lsn) -> spec_fn(LayerView) -> bool {
        |l: LayerView|
            !(self.gc_class(idx, l, retain_lsns, cutoff) matches Ok(c) && c.verdict == GcVerdict::Removed)
    }

    /// What GC decides of the first `k` flushed layers of the timeline at `idx`.
    pub open spec fn gc_classes(self, idx: int, retain_lsns: Seq<Lsn>, cutoff: Lsn, k: int) -> Result<
        Seq<GcClass>,
        ReadError,
    >
        decreases k,
    {
        if k <= 0 {
            Ok(Seq::empty())
        } else {
            match self.gc_classes(idx, retain_lsns, cutoff, k - 1) {
                Err(e) => Err(e),
                Ok(cs) => match self.gc_class(
                    idx,
                    self.local(idx)->0.layers.historic[k - 1],
                    retain_lsns,
                    cutoff,
                ) {
                    Err(e) => Err(e),
                    Ok(c) => Ok(cs.push(c)),
                },
            }
        }
    }

    /// The layers that GC of the timeline at `idx` takes out of the map, in the map's order.
    pub open spec fn gc_removed(self, idx: int, retain_lsns: Seq<Lsn>, cutoff: Lsn) -> Seq<LayerView> {
        self.local(idx)->0.layers.historic.filter(
            negated(self.with_gc_cutoff(idx, cutoff).gc_keeps(idx, retain_lsns, cutoff)),
        )
    }

    /// The repository with `cutoff` as the GC cutoff of the timeline at `idx`.
    pub open spec fn with_gc_cutoff(self, idx: int, cutoff: Lsn) -> RepoView {
        self.with_local(idx, TimelineView { latest_gc_cutoff_lsn: cutoff, ..self.local(idx)->0 })
    }

    /// The repository after GC of the timeline at `idx`, and the counts.
    ///
    /// The cutoff is made known first. Then each flushed layer is
    /// judged, against the map as it stands; where one cannot be judged,
    /// nothing is taken out. Else those that GC does not keep are.
    pub open spec fn gc_timeline(self, idx: int, retain_lsns: Seq<Lsn>, cutoff: Lsn) -> (
        RepoView,
        Result<GcResult, GcError>,
    ) {
        match self.local(idx) {
            None => (self, Err(GcError::NotLocal)),
            Some(tl) => {
                let published = self.with_gc_cutoff(idx, cutoff);
                match published.gc_classes(idx, retain_lsns, cutoff, tl.layers.historic.len() as int) {
                    Err(e) => (published, Err(GcError::Read(e))),
                    Ok(cs) => (
                        published.with_local(
                            idx,
                            TimelineView {
                                layers: LayerMapView {
                                    historic: tl.layers.historic.filter(
                                        published.gc_keeps(idx, retain_lsns, cutoff),
                                    ),
                                    ..tl.layers
                                },
                                latest_gc_cutoff_lsn: cutoff,
                                ..tl
                            },
                        ),
                        Ok(GcResult::tally(cs)),
                    ),
                }
            },
        }
    }
}

fn is_retained(retain_lsns: &Vec<Lsn>, start: Lsn) -> (r: bool)
    ensures
        r == retained(retain_lsns@, start),
{
    let mut j: usize = 0;
    while j < retain_lsns.len()
        invariant
            j <= retain_lsns@.len(),
            forall|i: int| 0 <= i < j ==> start.0 > (#[trigger] retain_lsns@[i]).0,
        decreases retain_lsns@.len() - j,
    {
        if start.0 <= retain_lsns[j].0 {
            return true;
        }
        j = j + 1;
    }
    false
}

impl LayeredTimeline {
    /// Makes known that GC is about to collect what lies below `cutoff`.
    pub(crate) fn set_gc_cutoff(&mut self, cutoff: Lsn)
        requires
            old(self).wf(),
        ensures
            final(self).wf(),
            final(self)@ == (TimelineView { latest_gc_cutoff_lsn: cutoff, ..old(self)@ }),
    {
        self.latest_gc_cutoff_lsn = cutoff;
    }

    /// Takes the doomed layers out of the flushed ones, and hands them back.
    pub(crate) fn remove_historic(&mut self, doomed: &Vec<bool>, Ghost(keep): Ghost<spec_fn(LayerView) -> bool>) -> (removed:
        Vec<Layer>)
        requires
            old(self).wf(),
            doomed@.len() == old(self)@.layers.historic.len(),
            forall|i: int| 0 <= i < doomed@.len() ==> doomed@[i] == !keep(#[trigger] old(self)@.layers.historic[i]),
        ensures
            final(self).wf(),
            final(self)@ == (TimelineView {
                layers: LayerMapView {
                    historic: old(self)@.layers.historic.filter(keep),
                    ..old(self)@.layers
                },
                ..old(self)@
            }),
            layers_view(removed@) == old(self)@.layers.historic.filter(negated(keep)),
    {
        let ghost h0 = self@.layers.historic;
        let ghost drop = negated(keep);
        let n: usize = self.layers.historic.len();
        let mut removed: Vec<Layer> = Vec::new();
        let mut i: usize = 0;
        let mut pos: usize = 0;
        proof {
            reveal(Seq::filter);
            assert(h0.take(0) =~= Seq::empty());
            assert(h0.skip(0) =~= h0);
            assert(layers_view(self.layers.historic@) =~= h0.take(0).filter(keep) + h0.skip(0));
            assert(layers_view(removed@) =~= h0.take(0).filter(drop));
            assert forall|j: int| 0 <= j < self.layers.historic@.len() implies (
            #[trigger] self.layers.historic@[j])@.end_lsn is Some by {
                assert(self@.layers.historic[j].end_lsn is Some);
            }
        }
        while i < n
            invariant
                i <= n,
                n == h0.len(),
                h0.len() == doomed@.len(),
                drop == negated(keep),
                forall|j: int| 0 <= j < doomed@.len() ==> doomed@[j] == !keep(#[trigger] h0[j]),
                pos == h0.take(i as int).filter(keep).len(),
                layers_view(self.layers.historic@) == h0.take(i as int).filter(keep) + h0.skip(i as int),
                layers_view(removed@) == h0.take(i as int).filter(drop),
                forall|j: int|
                    0 <= j < self.layers.historic@.len() ==> (#[trigger] self.layers.historic@[j])@.end_lsn is Some,
                self.layers.open_layer == old(self).layers.open_layer,
                self.layers.frozen_layer == old(self).layers.frozen_layer,
                self.layers.next_open_layer_at == old(self).layers.next_open_layer_at,
                self.tenantid == old(self).tenantid,
                self.timelineid == old(self).timelineid,
                self.last_record_lsn == old(self).last_record_lsn,
                self.disk_consistent_lsn == old(self).disk_consistent_lsn,
                self.ancestor_timeline == old(self).ancestor_timeline,
                self.ancestor_lsn == old(self).ancestor_lsn,
                self.current_logical_size == old(self).current_logical_size,
                self.relish_size_cache == old(self).relish_size_cache,
                self.upload_relishes == old(self).upload_relishes,
                self.latest_gc_cutoff_lsn == old(self).latest_gc_cutoff_lsn,
                self.initdb_lsn == old(self).initdb_lsn,
            decreases n - i,
        {
            let ghost cur = self.layers.historic@;
            let ghost gone = removed@;
            proof {
                assert(h0.take(i + 1) =~= h0.take(i as int).push(h0[i as int]));
                h0.take(i as int).lemma_filter_push(h0[i as int], keep);
                h0.take(i as int).lemma_filter_push(h0[i as int], drop);
                assert(layers_view(cur).len() == pos + (n - i));
                assert(layers_view(cur)[pos as int] == h0.skip(i as int)[0]);
                assert(doomed@[i as int] == !keep(h0[i as int]));
                assert(drop(h0[i as int]) == !keep(h0[i as int]));
            }
            if doomed[i] {
                let l = self.layers.historic.remove(pos);
                removed.push(l);
                assert(layers_view(self.layers.historic@) =~= layers_view(cur).remove(pos as int));
                assert(layers_view(cur).remove(pos as int) =~= h0.take(i as int).filter(keep) + h0.skip(i + 1));
                assert(layers_view(self.layers.historic@) =~= h0.take(i + 1).filter(keep) + h0.skip(i + 1));
                assert(layers_view(removed@) =~= layers_view(gone).push(h0[i as int]));
            } else {
                pos = pos + 1;
                assert(layers_view(self.layers.historic@) =~= h0.take(i + 1).filter(keep) + h0.skip(i + 1));
            }
            i = i + 1;
        }
        proof {
            assert(h0.take(n as int) =~= h0);
            assert(h0.filter(keep) + h0.skip(n as int) =~= h0.filter(keep));
        }
        removed
    }
}

/// The layers that a test does not keep.
pub open spec fn negated(keep: spec_fn(LayerView) -> bool) -> spec_fn(LayerView) -> bool {
    |l: LayerView| !keep(l)
}

impl LayeredRepository {
    pub(crate) fn ancestor_reaches(&self, idx: usize, seg: SegmentTag) -> (r: Result<bool, ReadError>)
        ensures
            r == self@.ancestor_reaches(idx as int, seg),
    {
        let a = match self.ancestor_at(idx) {
            Some(a) => a,
            None => { return Ok(false); },
        };
        let prior = match self.local_at(a) {
            Some(tl) => tl.last_record_lsn.last,
            None => { return Ok(false); },
        };
        if seg.rel.is_blocky() {
            match self.relish_size_at(a, seg.rel, prior) {
                Err(e) => Err(e),
                Ok(None) => Ok(false),
                Ok(Some(size)) => Ok(
                    if size == 0 {
                        seg.segno == 0
                    } else {
                        (size - 1) / RELISH_SEG_SIZE >= seg.segno
                    },
                ),
            }
        } else {
            match self.rel_exists_at(a, seg.rel, prior) {
                Ok(b) => Ok(b),
                Err(_) => Ok(false),
            }
        }
    }

    /// What GC decides of the flushed layer `l` of the timeline at `idx`.
    pub(crate) fn gc_class(&self, idx: usize, l: &Layer, retain_lsns: &Vec<Lsn>, cutoff: Lsn) -> (r: Result<
        GcClass,
        ReadError,
    >)
        requires
            self@.local(idx as int) is Some,
        ensures
            r == self@.gc_class(idx as int, l@, retain_lsns@, cutoff),
    {
        let skipped = GcClass { verdict: GcVerdict::Skipped, relation: false, dropped: false };
        if l.is_in_memory() {
            return Ok(skipped);
        }
        let seg = match l.single_seg() {
            Some(seg) => seg,
            None => { return Ok(skipped); },
        };
        if !l.is_readable() {
            return Err(ReadError::UnreadableLayer);
        }
        let dropped = l.is_dropped(seg);
        let relation = seg.rel.is_relation();
        if l.get_end_lsn().0 > cutoff.0 {
            return Ok(GcClass { verdict: GcVerdict::NeededByCutoff, relation, dropped });
        }
        if is_retained(retain_lsns, l.get_start_lsn()) {
            return Ok(GcClass { verdict: GcVerdict::NeededByBranches, relation, dropped });
        }
        let tl = match self.local_at(idx) {
            Some(tl) => tl,
            None => { return Ok(skipped); },
        };
        if !dropped && !tl.layers.newer_image_layer_exists(seg, l.get_end_lsn(), tl.disk_consistent_lsn) {
            return Ok(GcClass { verdict: GcVerdict::NotUpdated, relation, dropped });
        }
        if dropped {
            let start = l.get_start_lsn();
            let mut tombstone = start.0 > 0 && tl.layers.layer_exists_at_lsn(seg, Lsn(start.0 - 1));
            if !tombstone {
                tombstone = match self.ancestor_reaches(idx, seg) {
                    Err(e) => { return Err(e); },
                    Ok(b) => b,
                };
            }
            if tombstone {
                return Ok(GcClass { verdict: GcVerdict::NeededAsTombstone, relation, dropped });
            }
        }
        Ok(GcClass { verdict: GcVerdict::Removed, relation, dropped })
    }

    /// Collects the flushed layers of the timeline `timelineid` that are
    /// no longer needed.
    ///
    /// `retain_lsns` are the points at which other timelines were
    /// branched off this one: a layer that starts at or below one of
    /// them stays. `cutoff` is the LSN from which on everything stays.
    #[verifier::loop_isolation(false)]
    pub fn gc_timeline(&mut self, timelineid: ZTimelineId, retain_lsns: &Vec<Lsn>, cutoff: Lsn) -> (r: Result<
        GcOutcome,
        GcError,
    >)
        requires
            old(self).wf(),
        ensures
            final(self).wf(),
            (final(self)@, gc_result(r)) == old(self)@.gc_timeline(
                old(self)@.read_index(timelineid),
                retain_lsns@,
                cutoff,
            ),
            r matches Ok(o) ==> layers_view(o.removed@) == old(self)@.gc_removed(
                old(self)@.read_index(timelineid),
                retain_lsns@,
                cutoff,
            ),
    {
        let idx = match self.find_timeline(timelineid) {
            Some(idx) => idx,
            None => { return Err(GcError::NotLocal); },
        };
        if self.local_at(idx).is_none() {
            return Err(GcError::NotLocal);
        }
        let ghost before = self@;
        let ghost tl0 = self@.local(idx as int)->0;
        let ghost entries0 = self.timelines@;
        {
            let tl = self.local_mut(idx);
            tl.set_gc_cutoff(cutoff);
        }
        proof {
            let t = self.timelines@[idx as int]->Local_0;
            lemma_update_view(entries0, idx as int, t);
            assert forall|i: int| 0 <= i < self.timelines@.len() implies (#[trigger] self.timelines@[i]).wf() by {
                if i != idx {
                    assert(self.timelines@[i] == entries0[i]);
                }
            }
            assert(self@ == before.with_gc_cutoff(idx as int, cutoff));
        }
        let ghost published = self@;
        let ghost keep = published.gc_keeps(idx as int, retain_lsns@, cutoff);
        let ghost h = tl0.layers.historic;
        let n: usize = match self.local_at(idx) {
            Some(tl) => tl.layers.historic_count(),
            None => 0,
        };
        let mut result = GcResult::new();
        let mut doomed: Vec<bool> = Vec::new();
        let ghost mut cs: Seq<GcClass> = Seq::empty();
        let mut i: usize = 0;
        while i < n
            invariant
                i <= n,
                n == h.len(),
                self@ == published,
                self.wf(),
                published.local(idx as int) is Some,
                published.local(idx as int)->0.layers.historic == h,
                published.gc_classes(idx as int, retain_lsns@, cutoff, i as int) == Ok::<Seq<GcClass>, ReadError>(cs),
                result == GcResult::tally(cs),
                doomed@.len() == i,
                forall|j: int| 0 <= j < i ==> doomed@[j] == !keep(#[trigger] h[j]),
            decreases n - i,
        {
            let class = {
                let tl = match self.local_at(idx) {
                    Some(tl) => tl,
                    None => { return Err(GcError::NotLocal); },
                };
                let l = tl.layers.historic_layer(i);
                self.gc_class(idx, l, retain_lsns, cutoff)
            };
            match class {
                Err(e) => {
                    proof {
                        lemma_gc_classes_err(published, idx as int, retain_lsns@, cutoff, i as int + 1, n as int);
                    }
                    return Err(GcError::Read(e));
                },
                Ok(c) => {
                    doomed.push(c.verdict == GcVerdict::Removed);
                    result = result.bumped(c);
                    proof {
                        assert(cs.push(c).drop_last() =~= cs);
                        cs = cs.push(c);
                    }
                },
            }
            i = i + 1;
        }
        let ghost entries1 = self.timelines@;
        let removed = {
            let tl = self.local_mut(idx);
            tl.remove_historic(&doomed, Ghost(keep))
        };
        proof {
            let t = self.timelines@[idx as int]->Local_0;
            lemma_update_view(entries1, idx as int, t);
            assert forall|i: int| 0 <= i < self.timelines@.len() implies (#[trigger] self.timelines@[i]).wf() by {
                if i != idx {
                    assert(self.timelines@[i] == entries1[i]);
                }
            }
            assert(self@.timelines =~= before.gc_timeline(idx as int, retain_lsns@, cutoff).0.timelines);
        }
        Ok(GcOutcome { result, removed })
    }
}

/// Where the first `k` layers cannot all be judged, the first `n` cannot, for the same reason.
pub proof fn lemma_gc_classes_err(repo: RepoView, idx: int, retain_lsns: Seq<Lsn>, cutoff: Lsn, k: int, n: int)
    requires
        0 <= k <= n,
        repo.gc_classes(idx, retain_lsns, cutoff, k) is Err,
    ensures
        repo.gc_classes(idx, retain_lsns, cutoff, n) == repo.gc_classes(idx, retain_lsns, cutoff, k),
    decreases n - k,
{
    if k < n {
        lemma_gc_classes_err(repo, idx, retain_lsns, cutoff, k + 1, n);
    }
}

/// What GC found out of the points at which timelines were branched off.
pub enum Branchpoints {
    /// A timeline that is to be looked at has not been loaded.
    NotLoaded,
    /// Of a timeline that is in remote storage only it is not known where it was branched off.
    RemoteUnknown,
    /// The branch points: the timeline branched from, and the LSN.
    Known(Seq<(ZTimelineId, Lsn)>),
}

/// Where a timeline that is in remote storage only was branched off,
/// as its metadata says: the caller of GC knows it, the table does not.
#[derive(Clone, Copy, Debug, PartialEq, Eq, Structural)]
pub struct RemoteBranch {
    pub id: ZTimelineId,
    /// The timeline it was branched from; `None` for a timeline that was not branched off.
    pub ancestor_timeline: Option<ZTimelineId>,
    pub ancestor_lsn: Lsn,
}

/// What is known of the remote timeline `id`: the first entry for it.
pub open spec fn remote_branch(remote: Seq<RemoteBranch>, id: ZTimelineId) -> Option<RemoteBranch>
    decreases remote.len(),
{
    if remote.len() == 0 {
        None
    } else {
        match remote_branch(remote.drop_last(), id) {
            Some(b) => Some(b),
            None => if remote.last().id == id {
                Some(remote.last())
            } else {
                None
            },
        }
    }
}

fn find_remote_branch(remote: &Vec<RemoteBranch>, id: ZTimelineId) -> (r: Option<RemoteBranch>)
    ensures
        r == remote_branch(remote@, id),
{
    let mut k: usize = 0;
    assert(remote@.take(0) =~= Seq::empty());
    while k < remote.len()
        invariant
            k <= remote@.len(),
            remote_branch(remote@.take(k as int), id) is None,
        decreases remote@.len() - k,
    {
        assert(remote@.take(k + 1).drop_last() =~= remote@.take(k as int));
        if remote[k].id.0 == id.0 {
            proof {
                lemma_remote_branch_found(remote@, id, k as int + 1);
            }
            return Some(remote[k]);
        }
        k = k + 1;
    }
    assert(remote@.take(k as int) =~= remote@);
    None
}

proof fn lemma_remote_branch_found(remote: Seq<RemoteBranch>, id: ZTimelineId, k: int)
    requires
        0 < k <= remote.len(),
        remote_branch(remote.take(k), id) is Some,
    ensures
        remote_branch(remote, id) == remote_branch(remote.take(k), id),
    decreases remote.len() - k,
{
    if k < remote.len() {
        assert(remote.take(k + 1).drop_last() =~= remote.take(k));
        lemma_remote_branch_found(remote, id, k + 1);
    } else {
        assert(remote.take(k) =~= remote);
    }
}

/// The LSNs at which timelines were branched off the timeline `id`.
pub open spec fn retain_for(bps: Seq<(ZTimelineId, Lsn)>, id: ZTimelineId) -> Seq<Lsn>
    decreases bps.len(),
{
    if bps.len() == 0 {
        Seq::empty()
    } else if bps.last().0 == id {
        retain_for(bps.drop_last(), id).push(bps.last().1)
    } else {
        retain_for(bps.drop_last(), id)
    }
}

/// What GC did to one timeline.
pub struct GcStepView {
    pub timelineid: ZTimelineId,
    pub result: GcResult,
    pub flushed: Seq<FlushOutcome>,
    pub removed: Seq<LayerView>,
}

/// What GC did to one timeline: its counts, what the checkpoint before
/// it leaves to be done outside, and the layers it took out of the map,
/// whose files are to be deleted.
pub struct GcTimelineOutcome {
    pub timelineid: ZTimelineId,
    pub result: GcResult,
    pub flushed: Vec<FlushOutcome>,
    pub removed: Vec<Layer>,
}

impl View for GcTimelineOutcome {
    type V = GcStepView;

    open spec fn view(&self) -> GcStepView {
        GcStepView {
            timelineid: self.timelineid,
            result: self.result,
            flushed: self.flushed@,
            removed: layers_view(self.removed@),
        }
    }
}

pub open spec fn steps_view(s: Seq<GcTimelineOutcome>) -> Seq<GcStepView> {
    Seq::new(s.len(), |i: int| s[i]@)
}

/// The counts of all steps together.
pub open spec fn sum_results(steps: Seq<GcStepView>) -> GcResult
    decreases steps.len(),
{
    if steps.len() == 0 {
        GcResult::zero()
    } else {
        sum_results(steps.drop_last()).plus(steps.last().result)
    }
}

/// What a GC run hands back: the counts of all timelines together, what
/// it did to each, and why it stopped, if it did not get through.
pub struct GcIterationOutcome {
    pub totals: GcResult,
    pub timelines: Vec<GcTimelineOutcome>,
    pub error: Option<GcError>,
}

pub type GcRunView = (Seq<GcStepView>, Option<GcError>);

pub struct GcOutcomeView {
    pub totals: GcResult,
    pub steps: Seq<GcStepView>,
    pub error: Option<GcError>,
}

impl GcOutcomeView {
    /// What the run did, and why it stopped.
    pub open spec fn run(self) -> GcRunView {
        (self.steps, self.error)
    }
}

impl View for GcIterationOutcome {
    type V = GcOutcomeView;

    open spec fn view(&self) -> GcOutcomeView {
        GcOutcomeView { totals: self.totals, steps: steps_view(self.timelines@), error: self.error }
    }
}

/// The branch points `b`, and after them the one of a timeline branched
/// off `ancestor` at `lsn`, if it was branched off and the branch point counts.
pub open spec fn with_branchpoint(
    b: Seq<(ZTimelineId, Lsn)>,
    target: Option<ZTimelineId>,
    ancestor: Option<ZTimelineId>,
    lsn: Lsn,
) -> Seq<(ZTimelineId, Lsn)> {
    match ancestor {
        None => b,
        Some(a) => if target is Some && target->0 != a {
            b
        } else {
            b.push((a, lsn))
        },
    }
}

/// A step that left its timeline alone.
pub open spec fn skipped_step(id: ZTimelineId) -> GcStepView {
    GcStepView { timelineid: id, result: GcResult::zero(), flushed: Seq::empty(), removed: Seq::empty() }
}

impl RepoView {
    /// The branch points among the first `k` of `ids`: one for each
    /// timeline that was branched off another. Of a loaded timeline the
    /// table says where it was branched off; of one that is in remote
    /// storage only, `remote` does, and where it does not, the branch
    /// points cannot be told. With a target, only those on the target
    /// count.
    pub open spec fn branchpoints(
        self,
        ids: Seq<ZTimelineId>,
        target: Option<ZTimelineId>,
        remote: Seq<RemoteBranch>,
        k: int,
    ) -> Branchpoints
        decreases k,
    {
        if k <= 0 {
            Branchpoints::Known(Seq::empty())
        } else {
            match self.branchpoints(ids, target, remote, k - 1) {
                Branchpoints::Known(b) => match self.find(ids[k - 1]) {
                    None => Branchpoints::NotLoaded,
                    Some(i) => match self.timelines[i] {
                        EntryView::Evicted { .. } => Branchpoints::NotLoaded,
                        EntryView::Remote { .. } => match remote_branch(remote, ids[k - 1]) {
                            None => Branchpoints::RemoteUnknown,
                            Some(rb) => Branchpoints::Known(
                                with_branchpoint(b, target, rb.ancestor_timeline, rb.ancestor_lsn),
                            ),
                        },
                        EntryView::Local(tl) => Branchpoints::Known(
                            with_branchpoint(b, target, tl.ancestor_timeline, tl.ancestor_lsn),
                        ),
                    },
                },
                other => other,
            }
        }
    }

    /// Whether a GC run leaves the timeline `id` alone: it is not
    /// loaded, or not the target, or its head lies less than `horizon`
    /// above zero.
    pub open spec fn gc_skips(self, id: ZTimelineId, target: Option<ZTimelineId>, horizon: u64) -> bool {
        self.local_by_id(id) is None || (target is Some && target->0 != id) || self.local_by_id(
            id,
        )->0.last_record_lsn.last.0 < horizon
    }

    /// The GC part of a step: GC of the timeline at `idx`, as `gc_timeline` says.
    pub open spec fn gc_part(
        self,
        after: RepoView,
        idx: int,
        retain_lsns: Seq<Lsn>,
        cutoff: Lsn,
        s: GcStepView,
        err: Option<GcError>,
    ) -> bool {
        let (a, gr) = self.gc_timeline(idx, retain_lsns, cutoff);
        after == a && match gr {
            Ok(res) => err is None && s.result == res && s.removed == self.gc_removed(idx, retain_lsns, cutoff),
            Err(e) => err == Some(e) && s.result == GcResult::zero() && s.removed == Seq::<LayerView>::empty(),
        }
    }
}

/// What a GC run does to the timeline `id`.
///
/// A timeline that the run skips stays as it is. Else, where asked for,
/// the timeline is checkpointed first, with images; then its layers
/// that lie below the head less `horizon` are collected, but for those
/// that the branch points on it retain.
pub open spec fn gc_step<F: Fn(RedoRequest) -> Result<Bytes, WalRedoError>>(
    mid: RepoView,
    after: RepoView,
    id: ZTimelineId,
    target: Option<ZTimelineId>,
    horizon: u64,
    checkpoint_before_gc: bool,
    bps: Seq<(ZTimelineId, Lsn)>,
    s: GcStepView,
    err: Option<GcError>,
    redo: F,
) -> bool {
    let idx = mid.read_index(id);
    let tl = mid.local(idx)->0;
    let cutoff = Lsn((tl.last_record_lsn.last.0 - horizon) as u64);
    let retain = retain_for(bps, id);
    if mid.gc_skips(id, target, horizon) {
        after == mid && s == skipped_step(id) && err is None
    } else if checkpoint_before_gc {
        s.timelineid == id && exists|mid2: RepoView, cr: (Seq<FlushOutcome>, Option<CheckpointError>)|
            #![trigger checkpoint_post(mid, mid2, idx, None, true, cr, redo)]
            checkpoint_post(mid, mid2, idx, None, true, cr, redo) && s.flushed == cr.0 && match cr.1 {
                Some(e) => after == mid2 && err == Some(GcError::Checkpoint(e)) && s.result == GcResult::zero()
                    && s.removed == Seq::<LayerView>::empty(),
                None => mid2.gc_part(after, idx, retain, cutoff, s, err),
            }
    } else {
        s.timelineid == id && s.flushed == Seq::<FlushOutcome>::empty() && mid.gc_part(
            after,
            idx,
            retain,
            cutoff,
            s,
            err,
        )
    }
}

/// The step at place `i` of a GC run whose states and results are
/// these: nothing once the run has stopped; else `shutdown` is asked,
/// and where it says so the run stops here; else the step for `ids[i]`.
pub open spec fn gc_step_at<F: Fn(RedoRequest) -> Result<Bytes, WalRedoError>, S: Fn() -> bool>(
    states: Seq<RepoView>,
    results: Seq<GcRunView>,
    i: int,
    ids: Seq<ZTimelineId>,
    target: Option<ZTimelineId>,
    horizon: u64,
    checkpoint_before_gc: bool,
    bps: Seq<(ZTimelineId, Lsn)>,
    redo: F,
    shutdown: S,
) -> bool {
    if results[i].1 is Some {
        states[i + 1] == states[i] && results[i + 1] == results[i]
    } else {
        exists|stop: bool| #[trigger]
            call_ensures(shutdown, (), stop) && if stop {
                states[i + 1] == states[i] && results[i + 1] == (results[i].0, Some(GcError::Shutdown))
            } else {
                exists|s: GcStepView, err: Option<GcError>|
                    #![trigger gc_step(states[i], states[i + 1], ids[i], target, horizon, checkpoint_before_gc, bps, s, err, redo)]
                    gc_step(states[i], states[i + 1], ids[i], target, horizon, checkpoint_before_gc, bps, s, err, redo)
                        && results[i + 1] == (results[i].0.push(s), err)
            }
    }
}

/// `states` and `results` are what a GC run went through, timeline by
/// timeline, from `before` to `after` and `r`.
pub open spec fn gc_trace<F: Fn(RedoRequest) -> Result<Bytes, WalRedoError>, S: Fn() -> bool>(
    before: RepoView,
    after: RepoView,
    k: int,
    ids: Seq<ZTimelineId>,
    target: Option<ZTimelineId>,
    horizon: u64,
    checkpoint_before_gc: bool,
    bps: Seq<(ZTimelineId, Lsn)>,
    r: GcRunView,
    states: Seq<RepoView>,
    results: Seq<GcRunView>,
    redo: F,
    shutdown: S,
) -> bool {
    &&& states.len() == k + 1
    &&& results.len() == k + 1
    &&& states[0] == before
    &&& results[0] == (Seq::<GcStepView>::empty(), None::<GcError>)
    &&& states[k] == after
    &&& results[k] == r
    &&& forall|i: int|
        0 <= i < k ==> #[trigger] gc_step_at(
            states,
            results,
            i,
            ids,
            target,
            horizon,
            checkpoint_before_gc,
            bps,
            redo,
            shutdown,
        )
}

/// What a GC run does.
///
/// First the branch points are found; where a timeline has not been
/// loaded, or it is not known where a remote one was branched off, the
/// run does nothing. Then each timeline of `ids` gets its step in turn,
/// until one stops the run, or shutdown is asked for: that is looked
/// for before each timeline. A timeline that is in remote storage only
/// is passed over, and what was branched off at it stays on the
/// timeline it was branched from.
pub open spec fn gc_iteration_post<F: Fn(RedoRequest) -> Result<Bytes, WalRedoError>, S: Fn() -> bool>(
    before: RepoView,
    after: RepoView,
    ids: Seq<ZTimelineId>,
    target: Option<ZTimelineId>,
    horizon: u64,
    checkpoint_before_gc: bool,
    remote: Seq<RemoteBranch>,
    r: GcRunView,
    redo: F,
    shutdown: S,
) -> bool {
    match before.branchpoints(ids, target, remote, ids.len() as int) {
        Branchpoints::NotLoaded => after == before && r == (Seq::<GcStepView>::empty(), Some(GcError::NotLocal)),
        Branchpoints::RemoteUnknown => after == before && r == (
            Seq::<GcStepView>::empty(),
            Some(GcError::RemoteBranchUnknown),
        ),
        Branchpoints::Known(bps) => gc_chain(
            before,
            after,
            ids.len() as int,
            ids,
            target,
            horizon,
            checkpoint_before_gc,
            bps,
            r,
            redo,
            shutdown,
        ),
    }
}

/// What a GC run has done once it is through the first `k` of `ids`.
pub open spec fn gc_chain<F: Fn(RedoRequest) -> Result<Bytes, WalRedoError>, S: Fn() -> bool>(
    before: RepoView,
    after: RepoView,
    k: int,
    ids: Seq<ZTimelineId>,
    target: Option<ZTimelineId>,
    horizon: u64,
    checkpoint_before_gc: bool,
    bps: Seq<(ZTimelineId, Lsn)>,
    r: GcRunView,
    redo: F,
    shutdown: S,
) -> bool {
    exists|states: Seq<RepoView>, results: Seq<GcRunView>|
        #![trigger gc_trace(before, after, k, ids, target, horizon, checkpoint_before_gc, bps, r, states, results, redo, shutdown)]
        gc_trace(before, after, k, ids, target, horizon, checkpoint_before_gc, bps, r, states, results, redo, shutdown)
}

proof fn lemma_gc_trace_grows<F: Fn(RedoRequest) -> Result<Bytes, WalRedoError>, S: Fn() -> bool>(
    before: RepoView,
    mid: RepoView,
    after: RepoView,
    k: int,
    ids: Seq<ZTimelineId>,
    target: Option<ZTimelineId>,
    horizon: u64,
    checkpoint_before_gc: bool,
    bps: Seq<(ZTimelineId, Lsn)>,
    rp: GcRunView,
    r: GcRunView,
    states: Seq<RepoView>,
    results: Seq<GcRunView>,
    redo: F,
    shutdown: S,
)
    requires
        k >= 0,
        gc_trace(before, mid, k, ids, target, horizon, checkpoint_before_gc, bps, rp, states, results, redo, shutdown),
        gc_step_at(
            states.push(after),
            results.push(r),
            k,
            ids,
            target,
            horizon,
            checkpoint_before_gc,
            bps,
            redo,
            shutdown,
        ),
    ensures
        gc_trace(
            before,
            after,
            k + 1,
            ids,
            target,
            horizon,
            checkpoint_before_gc,
            bps,
            r,
            states.push(after),
            results.push(r),
            redo,
            shutdown,
        ),
{
    let grown_states = states.push(after);
    let grown_results = results.push(r);
    assert forall|i: int| 0 <= i < k + 1 implies #[trigger] gc_step_at(
        grown_states,
        grown_results,
        i,
        ids,
        target,
        horizon,
        checkpoint_before_gc,
        bps,
        redo,
        shutdown,
    ) by {
        if i < k {
            assert(gc_step_at(states, results, i, ids, target, horizon, checkpoint_before_gc, bps, redo, shutdown));
            assert(grown_states[i] == states[i] && grown_states[i + 1] == states[i + 1]);
            assert(grown_results[i] == results[i] && grown_results[i + 1] == results[i + 1]);
        }
    }
}

proof fn lemma_gc_trace_err<F: Fn(RedoRequest) -> Result<Bytes, WalRedoError>, S: Fn() -> bool>(
    before: RepoView,
    after: RepoView,
    k: int,
    n: int,
    ids: Seq<ZTimelineId>,
    target: Option<ZTimelineId>,
    horizon: u64,
    checkpoint_before_gc: bool,
    bps: Seq<(ZTimelineId, Lsn)>,
    r: GcRunView,
    states: Seq<RepoView>,
    results: Seq<GcRunView>,
    redo: F,
    shutdown: S,
)
    requires
        0 <= k <= n,
        r.1 is Some,
        gc_trace(before, after, k, ids, target, horizon, checkpoint_before_gc, bps, r, states, results, redo, shutdown),
    ensures
        gc_chain(before, after, n, ids, target, horizon, checkpoint_before_gc, bps, r, redo, shutdown),
    decreases n - k,
{
    if k < n {
        lemma_gc_trace_grows(
            before,
            after,
            after,
            k,
            ids,
            target,
            horizon,
            checkpoint_before_gc,
            bps,
            r,
            r,
            states,
            results,
            redo,
            shutdown,
        );
        lemma_gc_trace_err(
            before,
            after,
            k + 1,
            n,
            ids,
            target,
            horizon,
            checkpoint_before_gc,
            bps,
            r,
            states.push(after),
            results.push(r),
            redo,
            shutdown,
        );
    }
}

/// The branch points as the run holds them.
pub enum FoundBranchpoints {
    NotLoaded,
    RemoteUnknown,
    Known(Vec<(ZTimelineId, Lsn)>),
}

impl View for FoundBranchpoints {
    type V = Branchpoints;

    open spec fn view(&self) -> Branchpoints {
        match self {
            FoundBranchpoints::NotLoaded => Branchpoints::NotLoaded,
            FoundBranchpoints::RemoteUnknown => Branchpoints::RemoteUnknown,
            FoundBranchpoints::Known(v) => Branchpoints::Known(v@),
        }
    }
}

fn retain_lsns_for(bps: &Vec<(ZTimelineId, Lsn)>, id: ZTimelineId) -> (r: Vec<Lsn>)
    ensures
        r@ == retain_for(bps@, id),
{
    let mut r: Vec<Lsn> = Vec::new();
    let mut j: usize = 0;
    assert(bps@.take(0) =~= Seq::empty());
    while j < bps.len()
        invariant
            j <= bps@.len(),
            r@ == retain_for(bps@.take(j as int), id),
        decreases bps@.len() - j,
    {
        assert(bps@.take(j + 1).drop_last() =~= bps@.take(j as int));
        if (bps[j].0).0 == id.0 {
            r.push(bps[j].1);
        }
        j = j + 1;
    }
    assert(bps@.take(j as int) =~= bps@);
    r
}

fn push_branchpoint(
    bps: &mut Vec<(ZTimelineId, Lsn)>,
    target: Option<ZTimelineId>,
    ancestor: Option<ZTimelineId>,
    lsn: Lsn,
)
    ensures
        final(bps)@ == with_branchpoint(old(bps)@, target, ancestor, lsn),
{
    match ancestor {
        None => {},
        Some(a) => {
            let counts = match target {
                Some(t) => t.0 == a.0,
                None => true,
            };
            if counts {
                bps.push((a, lsn));
            }
        },
    }
}

impl LayeredRepository {
    /// Finds the points at which the timelines of `timelineids` were
    /// branched off; `remote` says it of those that are in remote storage only.
    pub fn collect_branchpoints(
        &self,
        timelineids: &Vec<ZTimelineId>,
        target_timelineid: Option<ZTimelineId>,
        remote: &Vec<RemoteBranch>,
    ) -> (r: FoundBranchpoints)
        ensures
            r@ == self@.branchpoints(timelineids@, target_timelineid, remote@, timelineids@.len() as int),
    {
        let mut bps: Vec<(ZTimelineId, Lsn)> = Vec::new();
        let mut k: usize = 0;
        while k < timelineids.len()
            invariant
                k <= timelineids@.len(),
                self@.branchpoints(timelineids@, target_timelineid, remote@, k as int) == Branchpoints::Known(bps@),
            decreases timelineids@.len() - k,
        {
            let i = match self.find_timeline(timelineids[k]) {
                Some(i) => i,
                None => {
                    proof {
                        lemma_branchpoints_stop(
                            self@,
                            timelineids@,
                            target_timelineid,
                            remote@,
                            k as int + 1,
                            timelineids@.len() as int,
                        );
                    }
                    return FoundBranchpoints::NotLoaded;
                },
            };
            match &self.timelines[i] {
                LayeredTimelineEntry::Evicted { .. } => {
                    proof {
                        lemma_branchpoints_stop(
                            self@,
                            timelineids@,
                            target_timelineid,
                            remote@,
                            k as int + 1,
                            timelineids@.len() as int,
                        );
                    }
                    return FoundBranchpoints::NotLoaded;
                },
                LayeredTimelineEntry::Remote { .. } => {
                    match find_remote_branch(remote, timelineids[k]) {
                        None => {
                            proof {
                                lemma_branchpoints_stop(
                                    self@,
                                    timelineids@,
                                    target_timelineid,
                                    remote@,
                                    k as int + 1,
                                    timelineids@.len() as int,
                                );
                            }
                            return FoundBranchpoints::RemoteUnknown;
                        },
                        Some(rb) => {
                            push_branchpoint(&mut bps, target_timelineid, rb.ancestor_timeline, rb.ancestor_lsn);
                        },
                    }
                },
                LayeredTimelineEntry::Local(tl) => {
                    push_branchpoint(&mut bps, target_timelineid, tl.ancestor_timeline, tl.ancestor_lsn);
                },
            }
            k = k + 1;
        }
        FoundBranchpoints::Known(bps)
    }

    /// Whether a GC run passes over the timeline `id`. A caller that is to
    /// put a checkpoint on disk before the timeline is collected asks this
    /// first, and then takes the step without a checkpoint.
    pub fn gc_skips(&self, id: ZTimelineId, target_timelineid: Option<ZTimelineId>, horizon: u64) -> (r: bool)
        requires
            self.wf(),
        ensures
            r == self@.gc_skips(id, target_timelineid, horizon),
    {
        let idx = match self.find_timeline(id) {
            Some(idx) => idx,
            None => { return true; },
        };
        let last = match self.local_at(idx) {
            Some(tl) => tl.last_record_lsn.last,
            None => { return true; },
        };
        match target_timelineid {
            Some(t) => {
                if t.0 != id.0 {
                    return true;
                }
            },
            None => {},
        }
        last.0 < horizon
    }

    /// One step of a GC run: the timeline `id`, with the branch points
    /// that `collect_branchpoints` has found. A caller that is to stop
    /// between timelines when shutdown is asked for takes the steps itself.
    ///
    /// With `checkpoint_before_gc` the step hands out what the checkpoint
    /// has made, and collects by the `disk_consistent_lsn` that was
    /// known before: the new one is made known once the files are on
    /// disk. A caller that wants the new layers to count checkpoints the
    /// timeline itself, makes the LSN known, and takes the step without.
    pub fn gc_one_timeline<F: Fn(RedoRequest) -> Result<Bytes, WalRedoError>>(
        &mut self,
        id: ZTimelineId,
        target_timelineid: Option<ZTimelineId>,
        horizon: u64,
        checkpoint_before_gc: bool,
        bps: &Vec<(ZTimelineId, Lsn)>,
        redo: &F,
    ) -> (r: (GcTimelineOutcome, Option<GcError>))
        requires
            old(self).wf(),
            forall|q: RedoRequest| call_requires(*redo, (q,)),
        ensures
            final(self).wf(),
            gc_step(
                old(self)@,
                final(self)@,
                id,
                target_timelineid,
                horizon,
                checkpoint_before_gc,
                bps@,
                r.0@,
                r.1,
                *redo,
            ),
    {
        let ghost mid = self@;
        let skipped = GcTimelineOutcome {
            timelineid: id,
            result: GcResult::new(),
            flushed: Vec::new(),
            removed: Vec::new(),
        };
        assert(skipped@.removed =~= Seq::empty());
        let idx = match self.find_timeline(id) {
            Some(idx) => idx,
            None => { return (skipped, None); },
        };
        let last = match self.local_at(idx) {
            Some(tl) => tl.last_record_lsn.last,
            None => { return (skipped, None); },
        };
        match target_timelineid {
            Some(t) => {
                if t.0 != id.0 {
                    return (skipped, None);
                }
            },
            None => {},
        }
        let cutoff = match last.checked_sub(horizon) {
            Some(c) => c,
            None => { return (skipped, None); },
        };
        let retain = retain_lsns_for(bps, id);
        let mut flushed: Vec<FlushOutcome> = Vec::new();
        if checkpoint_before_gc {
            let cr = self.checkpoint_at(idx, CheckpointConfig::Forced, redo);
            let ghost crv = cr@;
            flushed = cr.flushes;
            match cr.error {
                Some(e) => {
                    let out = GcTimelineOutcome {
                        timelineid: id,
                        result: GcResult::new(),
                        flushed,
                        removed: Vec::new(),
                    };
                    assert(out@.removed =~= Seq::empty());
                    assert(checkpoint_post(mid, self@, idx as int, None, true, crv, *redo));
                    return (out, Some(GcError::Checkpoint(e)));
                },
                None => {},
            }
            assert(checkpoint_post(mid, self@, idx as int, None, true, crv, *redo));
            proof {
                lemma_checkpoint_keeps(mid, self@, idx as int, None, true, crv, *redo);
                assert forall|i: int| 0 <= i < mid.timelines.len() implies (#[trigger] mid.timelines[i]).id()
                    == self@.timelines[i].id() by {
                    if i != idx {
                        assert(self@.timelines[i] == mid.timelines[i]);
                    }
                }
                lemma_find_same(mid.timelines, self@.timelines, id);
            }
        }
        let ghost mid2 = self@;
        assert(mid2.read_index(id) == idx as int);
        match self.gc_timeline(id, &retain, cutoff) {
            Ok(o) => {
                let out = GcTimelineOutcome { timelineid: id, result: o.result, flushed, removed: o.removed };
                assert(mid2.gc_part(self@, idx as int, retain@, cutoff, out@, None));
                (out, None)
            },
            Err(e) => {
                let out = GcTimelineOutcome {
                    timelineid: id,
                    result: GcResult::new(),
                    flushed,
                    removed: Vec::new(),
                };
                assert(out@.removed =~= Seq::empty());
                assert(mid2.gc_part(self@, idx as int, retain@, cutoff, out@, Some(e)));
                (out, Some(e))
            },
        }
    }

    /// Collects the layers that are no longer needed, on the timelines
    /// of `timelineids` or on the target alone.
    ///
    /// `timelineids` are the timelines that exist on disk; all of them
    /// are to be loaded, and `remote` says of each that is in remote
    /// storage only where it was branched off: what was branched off at
    /// such a point stays. `horizon` is how far below its head each
    /// timeline keeps everything. With `checkpoint_before_gc`, each
    /// timeline is checkpointed before it is collected.
    /// `shutdown_requested` is asked before each timeline: once it
    /// says so, the run ends with what it has collected.
    pub fn gc_iteration<F: Fn(RedoRequest) -> Result<Bytes, WalRedoError>, S: Fn() -> bool>(
        &mut self,
        timelineids: &Vec<ZTimelineId>,
        target_timelineid: Option<ZTimelineId>,
        horizon: u64,
        checkpoint_before_gc: bool,
        shutdown_requested: &S,
        remote: &Vec<RemoteBranch>,
        redo: &F,
    ) -> (r: GcIterationOutcome)
        requires
            old(self).wf(),
            forall|q: RedoRequest| call_requires(*redo, (q,)),
            call_requires(*shutdown_requested, ()),
        ensures
            final(self).wf(),
            gc_iteration_post(
                old(self)@,
                final(self)@,
                timelineids@,
                target_timelineid,
                horizon,
                checkpoint_before_gc,
                remote@,
                r@.run(),
                *redo,
                *shutdown_requested,
            ),
            r@.totals == sum_results(r@.steps),
    {
        self.gc_iteration_internal(
            timelineids,
            target_timelineid,
            horizon,
            checkpoint_before_gc,
            shutdown_requested,
            remote,
            redo,
        )
    }

    pub(crate) fn gc_iteration_internal<F: Fn(RedoRequest) -> Result<Bytes, WalRedoError>, S: Fn() -> bool>(
        &mut self,
        timelineids: &Vec<ZTimelineId>,
        target_timelineid: Option<ZTimelineId>,
        horizon: u64,
        checkpoint_before_gc: bool,
        shutdown_requested: &S,
        remote: &Vec<RemoteBranch>,
        redo: &F,
    ) -> (r: GcIterationOutcome)
        requires
            old(self).wf(),
            forall|q: RedoRequest| call_requires(*redo, (q,)),
            call_requires(*shutdown_requested, ()),
        ensures
            final(self).wf(),
            gc_iteration_post(
                old(self)@,
                final(self)@,
                timelineids@,
                target_timelineid,
                horizon,
                checkpoint_before_gc,
                remote@,
                r@.run(),
                *redo,
                *shutdown_requested,
            ),
            r@.totals == sum_results(r@.steps),
    {
        let ghost before = self@;
        let ghost ids = timelineids@;
        let mut totals = GcResult::new();
        let mut done: Vec<GcTimelineOutcome> = Vec::new();
        assert(steps_view(done@) =~= Seq::empty());
        let bps = match self.collect_branchpoints(timelineids, target_timelineid, remote) {
            FoundBranchpoints::NotLoaded => {
                return GcIterationOutcome { totals, timelines: done, error: Some(GcError::NotLocal) };
            },
            FoundBranchpoints::RemoteUnknown => {
                return GcIterationOutcome { totals, timelines: done, error: Some(GcError::RemoteBranchUnknown) };
            },
            FoundBranchpoints::Known(bps) => bps,
        };
        let n: usize = timelineids.len();
        let mut k: usize = 0;
        let ghost mut states: Seq<RepoView> = seq![before];
        let ghost mut results: Seq<GcRunView> = seq![(Seq::empty(), None::<GcError>)];
        while k < n
            invariant
                k <= n,
                n == ids.len(),
                ids == timelineids@,
                before == old(self)@,
                before.branchpoints(ids, target_timelineid, remote@, ids.len() as int) == Branchpoints::Known(bps@),
                call_requires(*shutdown_requested, ()),
                self.wf(),
                forall|q: RedoRequest| call_requires(*redo, (q,)),
                totals == sum_results(steps_view(done@)),
                gc_trace(
                    before,
                    self@,
                    k as int,
                    ids,
                    target_timelineid,
                    horizon,
                    checkpoint_before_gc,
                    bps@,
                    (steps_view(done@), None::<GcError>),
                    states,
                    results,
                    *redo,
                    *shutdown_requested,
                ),
            decreases n - k,
        {
            let ghost mid = self@;
            let ghost sofar = steps_view(done@);
            let stop = shutdown_requested();
            if stop {
                let r = GcIterationOutcome { totals, timelines: done, error: Some(GcError::Shutdown) };
                proof {
                    let grown_states = states.push(self@);
                    let grown_results = results.push(r@.run());
                    assert(call_ensures(*shutdown_requested, (), stop));
                    assert(grown_states[k as int + 1] == grown_states[k as int]);
                    assert(grown_results[k as int + 1] == (grown_results[k as int].0, Some(GcError::Shutdown)));
                    assert(gc_step_at(
                        grown_states,
                        grown_results,
                        k as int,
                        ids,
                        target_timelineid,
                        horizon,
                        checkpoint_before_gc,
                        bps@,
                        *redo,
                        *shutdown_requested,
                    ));
                    lemma_gc_trace_grows(
                        before,
                        mid,
                        self@,
                        k as int,
                        ids,
                        target_timelineid,
                        horizon,
                        checkpoint_before_gc,
                        bps@,
                        (sofar, None::<GcError>),
                        r@.run(),
                        states,
                        results,
                        *redo,
                        *shutdown_requested,
                    );
                    lemma_gc_trace_err(
                        before,
                        self@,
                        k as int + 1,
                        n as int,
                        ids,
                        target_timelineid,
                        horizon,
                        checkpoint_before_gc,
                        bps@,
                        r@.run(),
                        grown_states,
                        grown_results,
                        *redo,
                        *shutdown_requested,
                    );
                }
                return r;
            }
            let (out, err) = self.gc_one_timeline(
                timelineids[k],
                target_timelineid,
                horizon,
                checkpoint_before_gc,
                &bps,
                redo,
            );
            let ghost step = out@;
            totals = totals.accumulate(out.result);
            done.push(out);
            proof {
                assert(steps_view(done@) =~= sofar.push(step));
                assert(steps_view(done@).drop_last() =~= sofar);
                let r = (steps_view(done@), err);
                let grown_states = states.push(self@);
                let grown_results = results.push(r);
                assert(gc_step(
                    grown_states[k as int],
                    grown_states[k as int + 1],
                    ids[k as int],
                    target_timelineid,
                    horizon,
                    checkpoint_before_gc,
                    bps@,
                    step,
                    err,
                    *redo,
                ));
                assert(grown_results[k as int + 1] == (grown_results[k as int].0.push(step), err));
                assert(call_ensures(*shutdown_requested, (), stop));
                assert(gc_step_at(
                    grown_states,
                    grown_results,
                    k as int,
                    ids,
                    target_timelineid,
                    horizon,
                    checkpoint_before_gc,
                    bps@,
                    *redo,
                    *shutdown_requested,
                ));
                lemma_gc_trace_grows(
                    before,
                    mid,
                    self@,
                    k as int,
                    ids,
                    target_timelineid,
                    horizon,
                    checkpoint_before_gc,
                    bps@,
                    (sofar, None::<GcError>),
                    r,
                    states,
                    results,
                    *redo,
                    *shutdown_requested,
                );
                states = grown_states;
                results = grown_results;
            }
            match err {
                Some(e) => {
                    let r = GcIterationOutcome { totals, timelines: done, error: Some(e) };
                    proof {
                        assert(n as int == ids.len() as int);
                        lemma_gc_trace_err(
                            before,
                            self@,
                            k as int + 1,
                            n as int,
                            ids,
                            target_timelineid,
                            horizon,
                            checkpoint_before_gc,
                            bps@,
                            r@.run(),
                            states,
                            results,
                            *redo,
                            *shutdown_requested,
                        );
                    }
                    return r;
                },
                None => {},
            }
            k = k + 1;
        }
        let r = GcIterationOutcome { totals, timelines: done, error: None };
        proof {
            assert(gc_trace(
                before,
                self@,
                ids.len() as int,
                ids,
                target_timelineid,
                horizon,
                checkpoint_before_gc,
                bps@,
                r@.run(),
                states,
                results,
                *redo,
                *shutdown_requested,
            ));
            assert(gc_chain(
                before,
                self@,
                ids.len() as int,
                ids,
                target_timelineid,
                horizon,
                checkpoint_before_gc,
                bps@,
                r@.run(),
                *redo,
                *shutdown_requested,
            ));
        }
        r
    }
}

/// Once the branch points of the first `k` timelines cannot be told, those of the first `n` cannot.
pub proof fn lemma_branchpoints_stop(
    repo: RepoView,
    ids: Seq<ZTimelineId>,
    target: Option<ZTimelineId>,
    remote: Seq<RemoteBranch>,
    k: int,
    n: int,
)
    requires
        0 <= k <= n,
        !(repo.branchpoints(ids, target, remote, k) is Known),
    ensures
        repo.branchpoints(ids, target, remote, n) == repo.branchpoints(ids, target, remote, k),
    decreases n - k,
{
    if k < n {
        lemma_branchpoints_stop(repo, ids, target, remote, k + 1, n);
    }
}

/// The image layers that a flush makes are closed layers.
pub proof fn lemma_images_closed<F: Fn(RedoRequest) -> Result<Bytes, WalRedoError>>(
    repo: RepoView,
    idx: int,
    frozen: LayerView,
    lsn: Lsn,
    k: int,
    images: Seq<LayerView>,
    redo: F,
)
    requires
        repo.images_upto(idx, frozen, lsn, k, images, redo),
    ensures
        forall|i: int| 0 <= i < images.len() ==> (#[trigger] images[i]).end_lsn is Some,
    decreases k,
{
    if k > 0 {
        let seg = frozen.segs[k - 1].seg;
        match frozen.seg_size(seg, lsn) {
            Some(n) => {
                lemma_images_closed(repo, idx, frozen, lsn, k - 1, images.drop_last(), redo);
                assert forall|i: int| 0 <= i < images.len() implies (#[trigger] images[i]).end_lsn is Some by {
                    if i < images.len() - 1 {
                        assert(images.drop_last()[i] == images[i]);
                    }
                }
            },
            None => {
                lemma_images_closed(repo, idx, frozen, lsn, k - 1, images, redo);
            },
        }
    }
}

/// Two lists that hold the same timelines at the same places find each timeline at the same place.
pub proof fn lemma_find_same(list_a: Seq<EntryView>, list_b: Seq<EntryView>, id: ZTimelineId)
    requires
        list_a.len() == list_b.len(),
        forall|i: int| 0 <= i < list_a.len() ==> (#[trigger] list_a[i]).id() == list_b[i].id(),
    ensures
        crate::repository::find_entry(list_a, id) == crate::repository::find_entry(list_b, id),
    decreases list_a.len(),
{
    if list_a.len() > 0 {
        assert forall|i: int| 0 <= i < list_a.drop_last().len() implies (#[trigger] list_a.drop_last()[i]).id()
            == list_b.drop_last()[i].id() by {
            assert(list_a[i].id() == list_b[i].id());
        }
        lemma_find_same(list_a.drop_last(), list_b.drop_last(), id);
        assert(list_a.last().id() == list_b.last().id()) by {
            assert(list_a[list_a.len() - 1].id() == list_b[list_a.len() - 1].id());
        }
    }
}

/// A flush leaves every timeline where it is, and the one it flushes
/// with its head and its `disk_consistent_lsn` where they were.
pub proof fn lemma_flush_keeps<F: Fn(RedoRequest) -> Result<Bytes, WalRedoError>>(
    before: RepoView,
    after: RepoView,
    idx: int,
    reconstruct_pages: bool,
    r: Result<FlushOutcome, CheckpointError>,
    redo: F,
)
    requires
        before.local(idx) is Some,
        before.local(idx)->0.wf(),
        before.local(idx)->0.layers.frozen_layer is Some,
        flush_post(before, after, idx, reconstruct_pages, r, redo),
    ensures
        after.timelines.len() == before.timelines.len(),
        forall|i: int| 0 <= i < before.timelines.len() && i != idx ==> #[trigger] after.timelines[i] == before.timelines[i],
        after.local(idx) is Some,
        after.local(idx)->0.last_record_lsn == before.local(idx)->0.last_record_lsn,
        after.local(idx)->0.timelineid == before.local(idx)->0.timelineid,
        after.local(idx)->0.disk_consistent_lsn == before.local(idx)->0.disk_consistent_lsn,
        after.local(idx)->0.layers.open_layer == before.local(idx)->0.layers.open_layer,
        after.local(idx)->0.layers.next_open_layer_at == before.local(idx)->0.layers.next_open_layer_at,
        r is Ok ==> after.local(idx)->0.layers.frozen_layer is None,
        r is Err ==> after == before,
        after.local(idx)->0.wf(),
        after.tenantid == before.tenantid,
        after.upload_relishes == before.upload_relishes,
{
    let tl = before.local(idx)->0;
    match r {
        Ok(out) => {
            let images = choose|images: Seq<LayerView>|
                #![trigger tl.flushed(images)]
                flush_images(before, idx, reconstruct_pages, images, redo) && after == before.with_local(
                    idx,
                    tl.flushed(images),
                ) && out == tl.flush_outcome(images);
            assert(after == before.with_local(idx, tl.flushed(images)));
            if reconstruct_pages {
                lemma_images_closed(
                    before,
                    idx,
                    tl.layers.frozen_layer->0,
                    tl.frozen_last_lsn(),
                    tl.layers.frozen_layer->0.segs.len() as int,
                    images,
                    redo,
                );
            }
            let h = tl.flushed(images).layers.historic;
            assert forall|i: int| 0 <= i < h.len() implies (#[trigger] h[i]).end_lsn is Some by {
                if i < tl.layers.historic.len() {
                    assert(h[i] == tl.layers.historic[i]);
                } else if i > tl.layers.historic.len() {
                    assert(h[i] == images[i - tl.layers.historic.len() - 1]);
                }
            }
        },
        Err(_) => {},
    }
}

/// A checkpoint leaves every timeline where it is, and the one it
/// checkpoints with its head and its `disk_consistent_lsn` where they
/// were. Where it gets through, nothing is left frozen, and nothing
/// open is due to be.
pub proof fn lemma_checkpoint_keeps<F: Fn(RedoRequest) -> Result<Bytes, WalRedoError>>(
    before: RepoView,
    after: RepoView,
    idx: int,
    distance: Option<u64>,
    reconstruct_pages: bool,
    r: (Seq<FlushOutcome>, Option<CheckpointError>),
    redo: F,
)
    requires
        before.local(idx) is Some ==> before.local(idx)->0.wf(),
        checkpoint_post(before, after, idx, distance, reconstruct_pages, r, redo),
    ensures
        after.timelines.len() == before.timelines.len(),
        forall|i: int| 0 <= i < before.timelines.len() && i != idx ==> #[trigger] after.timelines[i] == before.timelines[i],
        before.local(idx) is Some ==> after.local(idx) is Some && after.local(idx)->0.last_record_lsn
            == before.local(idx)->0.last_record_lsn && after.local(idx)->0.timelineid == before.local(
            idx,
        )->0.timelineid && after.local(idx)->0.disk_consistent_lsn == before.local(
            idx,
        )->0.disk_consistent_lsn,
        before.local(idx) is None ==> after == before,
        before.local(idx) is Some && r.1 is None ==> after.local(idx)->0.layers.frozen_layer is None
            && !after.local(idx)->0.should_freeze(distance),
        before.local(idx) is Some ==> after.local(idx)->0.wf(),
        after.tenantid == before.tenantid,
        after.upload_relishes == before.upload_relishes,
{
    if before.local(idx) is Some {
        let tl = before.local(idx)->0;
        let (mid, first) = choose|mid: RepoView, first: (Seq<FlushOutcome>, Option<CheckpointError>)|
            #![trigger checkpoint_first(before, mid, idx, reconstruct_pages, first, redo)]
            checkpoint_first(before, mid, idx, reconstruct_pages, first, redo) && checkpoint_second(
                mid,
                after,
                idx,
                distance,
                reconstruct_pages,
                first,
                r,
                redo,
            );
        if tl.layers.frozen_layer is Some {
            let fr = choose|fr: Result<FlushOutcome, CheckpointError>|
                #![trigger flush_post(before, mid, idx, reconstruct_pages, fr, redo)]
                flush_post(before, mid, idx, reconstruct_pages, fr, redo) && first == match fr {
                    Ok(o) => (seq![o], None::<CheckpointError>),
                    Err(e) => (Seq::<FlushOutcome>::empty(), Some(e)),
                };
            lemma_flush_keeps(before, mid, idx, reconstruct_pages, fr, redo);
        }
        let mtl = mid.local(idx)->0;
        if !(first.1 is Some || !mtl.should_freeze(distance)) {
            let frozen = mid.with_local(idx, mtl.freeze_open());
            let fr = choose|fr: Result<FlushOutcome, CheckpointError>|
                #![trigger flush_post(frozen, after, idx, reconstruct_pages, fr, redo)]
                flush_post(frozen, after, idx, reconstruct_pages, fr, redo) && r == match fr {
                    Ok(o) => (first.0.push(o), None::<CheckpointError>),
                    Err(e) => (first.0, Some(e)),
                };
            assert(frozen.local(idx)->0 == mtl.freeze_open());
            lemma_flush_keeps(frozen, after, idx, reconstruct_pages, fr, redo);
            assert forall|i: int| 0 <= i < before.timelines.len() && i != idx implies #[trigger] after.timelines[i]
                == before.timelines[i] by {
                assert(frozen.timelines[i] == mid.timelines[i]);
            }
        }
    }
}

} // verus!
