//! One timeline: its layers and the LSNs that say how far it has come.

use crate::layer_map::{LayerMap, LayerMapView};
use crate::layer::LayerKind;
use crate::lsn::{Lsn, RecordLsn, ZTenantId, ZTimelineId};
use crate::metadata::TimelineMetadata;
use crate::relish::RelishTag;
use crate::size_cache::RelishSizeCache;
use vstd::prelude::*;

verus! {

pub struct TimelineView {
    pub tenantid: ZTenantId,
    pub timelineid: ZTimelineId,
    pub layers: LayerMapView,
    /// The end of the last record taken in, on disk or not, and the start of the one before.
    pub last_record_lsn: RecordLsn,
    /// Everything up to here is in flushed layers.
    pub disk_consistent_lsn: Lsn,
    /// The timeline that this one was branched from, and where.
    pub ancestor_timeline: Option<ZTimelineId>,
    pub ancestor_lsn: Lsn,
    /// Bytes that the relishes hold at the head.
    pub current_logical_size: u64,
    pub relish_size_cache: Map<RelishTag, u32>,
    pub upload_relishes: bool,
    /// No branch may start below this.
    pub latest_gc_cutoff_lsn: Lsn,
    pub initdb_lsn: Lsn,
}

impl TimelineView {
    /// What holds of every timeline that the library hands out.
    pub open spec fn wf(self) -> bool {
        &&& self.last_record_lsn.last.0 < u64::MAX
        &&& self.ancestor_lsn.0 <= self.disk_consistent_lsn.0
        &&& self.disk_consistent_lsn.0 <= self.last_record_lsn.last.0
        &&& self.layers.open_layer matches Some(l) ==> l.kind == LayerKind::InMemory && l.end_lsn is None
            && l.readable
        &&& self.layers.open_layer is None ==> self.layers.next_open_layer_at is Some
        &&& self.layers.frozen_layer matches Some(l) ==> l.kind == LayerKind::InMemory && l.end_lsn is Some
            && l.readable
            && self.disk_consistent_lsn.0 < l.end_or_max().0 <= self.last_record_lsn.last.0 + 1
            && (self.layers.open_layer is Some ==> self.layers.open_layer->0.start_lsn.0 >= l.end_or_max().0)
            && (self.layers.next_open_layer_at is Some ==> (self.layers.next_open_layer_at->0).0 >= l.end_or_max().0)
        &&& forall|i: int|
            0 <= i < self.layers.historic.len() ==> (#[trigger] self.layers.historic[i]).end_lsn is Some
    }

    /// The metadata that goes to disk for this state.
    pub open spec fn metadata(self) -> TimelineMetadata {
        TimelineMetadata {
            disk_consistent_lsn: self.disk_consistent_lsn,
            prev_record_lsn: if self.disk_consistent_lsn == self.last_record_lsn.last {
                Some(self.last_record_lsn.prev)
            } else {
                None
            },
            ancestor_timeline: self.ancestor_timeline,
            ancestor_lsn: self.ancestor_lsn,
            latest_gc_cutoff_lsn: self.latest_gc_cutoff_lsn,
            initdb_lsn: self.initdb_lsn,
        }
    }

    /// The state after the head has moved to `new_lsn`; it does not move back.
    pub open spec fn advanced(self, new_lsn: Lsn) -> TimelineView {
        if new_lsn.0 > self.last_record_lsn.last.0 {
            TimelineView {
                last_record_lsn: RecordLsn { last: new_lsn, prev: self.last_record_lsn.last },
                ..self
            }
        } else {
            self
        }
    }
}

/// `x + y` as a 64-bit counter computes it.
pub open spec fn wrap_add(x: u64, y: u64) -> u64 {
    if x + y > u64::MAX {
        (x + y - 0x1_0000_0000_0000_0000) as u64
    } else {
        (x + y) as u64
    }
}

/// `x - y` as a 64-bit counter computes it.
pub open spec fn wrap_sub(x: u64, y: u64) -> u64 {
    if x - y < 0 {
        (x - y + 0x1_0000_0000_0000_0000) as u64
    } else {
        (x - y) as u64
    }
}

/// A branch or a read was asked for below the GC cutoff.
#[derive(Clone, Copy, Debug, PartialEq, Eq, Structural)]
pub struct LsnOutOfScope {
    pub lsn: Lsn,
    pub latest_gc_cutoff_lsn: Lsn,
}

/// What a waiter for an LSN is to do.
#[derive(Clone, Copy, Debug, PartialEq, Eq, Structural)]
pub enum WaitOutcome {
    /// The head has reached the LSN.
    Ready,
    /// It has not, and the time is not up: wait on.
    Pending,
    /// It has not, and the time is up.
    TimedOut { last_record_lsn: Lsn, disk_consistent_lsn: Lsn },
}

pub struct LayeredTimeline {
    pub(crate) tenantid: ZTenantId,
    pub(crate) timelineid: ZTimelineId,
    pub(crate) layers: LayerMap,
    pub(crate) last_record_lsn: RecordLsn,
    pub(crate) disk_consistent_lsn: Lsn,
    pub(crate) ancestor_timeline: Option<ZTimelineId>,
    pub(crate) ancestor_lsn: Lsn,
    pub(crate) current_logical_size: u64,
    pub(crate) relish_size_cache: RelishSizeCache,
    pub(crate) upload_relishes: bool,
    pub(crate) latest_gc_cutoff_lsn: Lsn,
    pub(crate) initdb_lsn: Lsn,
}

impl View for LayeredTimeline {
    type V = TimelineView;

    open(crate) spec fn view(&self) -> TimelineView {
        TimelineView {
            tenantid: self.tenantid,
            timelineid: self.timelineid,
            layers: self.layers@,
            last_record_lsn: self.last_record_lsn,
            disk_consistent_lsn: self.disk_consistent_lsn,
            ancestor_timeline: self.ancestor_timeline,
            ancestor_lsn: self.ancestor_lsn,
            current_logical_size: self.current_logical_size,
            relish_size_cache: self.relish_size_cache@,
            upload_relishes: self.upload_relishes,
            latest_gc_cutoff_lsn: self.latest_gc_cutoff_lsn,
            initdb_lsn: self.initdb_lsn,
        }
    }
}

/// The state of a timeline that is opened from `metadata`, with no layers yet.
pub open spec fn opened_timeline(
    metadata: TimelineMetadata,
    timelineid: ZTimelineId,
    tenantid: ZTenantId,
    current_logical_size: u64,
    upload_relishes: bool,
    next_open_layer_at: Lsn,
) -> TimelineView {
    TimelineView {
        tenantid,
        timelineid,
        layers: LayerMapView {
            next_open_layer_at: Some(next_open_layer_at),
            open_layer: None,
            frozen_layer: None,
            historic: Seq::empty(),
        },
        last_record_lsn: RecordLsn {
            last: metadata.disk_consistent_lsn,
            prev: match metadata.prev_record_lsn {
                Some(p) => p,
                None => Lsn(0),
            },
        },
        disk_consistent_lsn: metadata.disk_consistent_lsn,
        ancestor_timeline: metadata.ancestor_timeline,
        ancestor_lsn: metadata.ancestor_lsn,
        current_logical_size,
        relish_size_cache: Map::empty(),
        upload_relishes,
        latest_gc_cutoff_lsn: metadata.latest_gc_cutoff_lsn,
        initdb_lsn: metadata.initdb_lsn,
    }
}

impl LayeredTimeline {
    /// What holds of every timeline that the library hands out.
    pub open(crate) spec fn wf(&self) -> bool {
        self.relish_size_cache.wf() && self@.wf()
    }

    /// Opens a timeline from its metadata. It has no layers yet; its first
    /// open layer will start at `next_open_layer_at`.
    pub fn new(
        metadata: TimelineMetadata,
        timelineid: ZTimelineId,
        tenantid: ZTenantId,
        current_logical_size: u64,
        upload_relishes: bool,
        next_open_layer_at: Lsn,
    ) -> (t: LayeredTimeline)
        ensures
            t@ == opened_timeline(
                metadata,
                timelineid,
                tenantid,
                current_logical_size,
                upload_relishes,
                next_open_layer_at,
            ),
            metadata.disk_consistent_lsn.0 < u64::MAX && metadata.ancestor_lsn.0 <= metadata.disk_consistent_lsn.0
                ==> t.wf(),
    {
        let mut layers = LayerMap::new();
        layers.next_open_layer_at = Some(next_open_layer_at);
        LayeredTimeline {
            tenantid,
            timelineid,
            layers,
            last_record_lsn: RecordLsn {
                last: metadata.disk_consistent_lsn,
                prev: match metadata.prev_record_lsn {
                    Some(p) => p,
                    None => Lsn(0),
                },
            },
            disk_consistent_lsn: metadata.disk_consistent_lsn,
            ancestor_timeline: metadata.ancestor_timeline,
            ancestor_lsn: metadata.ancestor_lsn,
            current_logical_size,
            relish_size_cache: RelishSizeCache::new(),
            upload_relishes,
            latest_gc_cutoff_lsn: metadata.latest_gc_cutoff_lsn,
            initdb_lsn: metadata.initdb_lsn,
        }
    }

    pub fn get_timeline_id(&self) -> (r: ZTimelineId)
        ensures
            r == self@.timelineid,
    {
        self.timelineid
    }

    pub fn get_ancestor_lsn(&self) -> (r: Lsn)
        ensures
            r == self@.ancestor_lsn,
    {
        self.ancestor_lsn
    }

    pub fn get_ancestor_timeline_id(&self) -> (r: Option<ZTimelineId>)
        ensures
            r == self@.ancestor_timeline,
    {
        self.ancestor_timeline
    }

    pub fn get_latest_gc_cutoff_lsn(&self) -> (r: Lsn)
        ensures
            r == self@.latest_gc_cutoff_lsn,
    {
        self.latest_gc_cutoff_lsn
    }

    pub fn get_last_record_lsn(&self) -> (r: Lsn)
        ensures
            r == self@.last_record_lsn.last,
    {
        self.last_record_lsn.last
    }

    pub fn get_prev_record_lsn(&self) -> (r: Lsn)
        ensures
            r == self@.last_record_lsn.prev,
    {
        self.last_record_lsn.prev
    }

    pub fn get_last_record_rlsn(&self) -> (r: RecordLsn)
        ensures
            r == self@.last_record_lsn,
    {
        self.last_record_lsn
    }

    pub fn get_current_logical_size(&self) -> (r: u64)
        ensures
            r == self@.current_logical_size,
    {
        self.current_logical_size
    }

    pub fn get_disk_consistent_lsn(&self) -> (r: Lsn)
        ensures
            r == self@.disk_consistent_lsn,
    {
        self.disk_consistent_lsn
    }

    pub fn get_initdb_lsn(&self) -> (r: Lsn)
        ensures
            r == self@.initdb_lsn,
    {
        self.initdb_lsn
    }

    pub fn get_layers(&self) -> (r: &LayerMap)
        ensures
            r@ == self@.layers,
    {
        &self.layers
    }

    /// The metadata that goes to disk for the timeline as it stands.
    pub fn metadata(&self) -> (m: TimelineMetadata)
        ensures
            m == self@.metadata(),
    {
        TimelineMetadata {
            disk_consistent_lsn: self.disk_consistent_lsn,
            prev_record_lsn: if self.disk_consistent_lsn.0 == self.last_record_lsn.last.0 {
                Some(self.last_record_lsn.prev)
            } else {
                None
            },
            ancestor_timeline: self.ancestor_timeline,
            ancestor_lsn: self.ancestor_lsn,
            latest_gc_cutoff_lsn: self.latest_gc_cutoff_lsn,
            initdb_lsn: self.initdb_lsn,
        }
    }

    /// Whether `lsn` is still within what GC has left: at or above the cutoff.
    pub fn check_lsn_is_in_scope(&self, lsn: Lsn, latest_gc_cutoff_lsn: Lsn) -> (r: Result<(), LsnOutOfScope>)
        ensures
            lsn.0 >= latest_gc_cutoff_lsn.0 ==> r is Ok,
            lsn.0 < latest_gc_cutoff_lsn.0 ==> r == Err::<(), LsnOutOfScope>(
                LsnOutOfScope { lsn, latest_gc_cutoff_lsn },
            ),
    {
        if lsn.0 >= latest_gc_cutoff_lsn.0 {
            Ok(())
        } else {
            Err(LsnOutOfScope { lsn, latest_gc_cutoff_lsn })
        }
    }

    /// What one who waits for `lsn` is to do after `waited_ms` of `timeout_ms`.
    pub fn wait_lsn(&self, lsn: Lsn, waited_ms: u64, timeout_ms: u64) -> (r: WaitOutcome)
        ensures
            r == if lsn.0 <= self@.last_record_lsn.last.0 {
                WaitOutcome::Ready
            } else if waited_ms < timeout_ms {
                WaitOutcome::Pending
            } else {
                WaitOutcome::TimedOut {
                    last_record_lsn: self@.last_record_lsn.last,
                    disk_consistent_lsn: self@.disk_consistent_lsn,
                }
            },
    {
        if lsn.0 <= self.last_record_lsn.last.0 {
            WaitOutcome::Ready
        } else if waited_ms < timeout_ms {
            WaitOutcome::Pending
        } else {
            WaitOutcome::TimedOut {
                last_record_lsn: self.last_record_lsn.last,
                disk_consistent_lsn: self.disk_consistent_lsn,
            }
        }
    }

    /// Moves the head to `new_lsn`, the end of a record that has been taken
    /// in whole. The head never moves back: an LSN at or below it changes nothing.
    pub fn advance_last_record_lsn(&mut self, new_lsn: Lsn)
        requires
            old(self).wf(),
            new_lsn.aligned(),
        ensures
            final(self).wf(),
            final(self)@ == old(self)@.advanced(new_lsn),
            final(self)@.last_record_lsn.last.0 >= old(self)@.last_record_lsn.last.0,
            final(self)@.disk_consistent_lsn == old(self)@.disk_consistent_lsn,
    {
        if new_lsn.0 > self.last_record_lsn.last.0 {
            self.last_record_lsn = RecordLsn { last: new_lsn, prev: self.last_record_lsn.last };
        }
    }

    /// Adds `diff` bytes to the logical size, which wraps as the counter does.
    pub(crate) fn increase_current_logical_size(&mut self, diff: u64)
        ensures
            final(self)@ == (TimelineView {
                current_logical_size: wrap_add(old(self)@.current_logical_size, diff),
                ..old(self)@
            }),
            final(self).relish_size_cache == old(self).relish_size_cache,
    {
        self.current_logical_size = self.current_logical_size.wrapping_add(diff);
    }

    /// Takes `diff` bytes off the logical size, which wraps as the counter does.
    pub(crate) fn decrease_current_logical_size(&mut self, diff: u64)
        ensures
            final(self)@ == (TimelineView {
                current_logical_size: wrap_sub(old(self)@.current_logical_size, diff),
                ..old(self)@
            }),
            final(self).relish_size_cache == old(self).relish_size_cache,
    {
        self.current_logical_size = self.current_logical_size.wrapping_sub(diff);
    }
}

} // verus!
