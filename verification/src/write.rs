//! The write path: page versions and size changes go into the open layer
//! of a timeline, which is made when there is none and learns of each
//! segment the first time it is written.

use crate::layer::{pages_view, CoveredSeg, Layer, LayerKind, LayerView, PageEntry, PageEntryView, SegEvent};
use crate::layer_map::LayerMapView;
use crate::lsn::{Lsn, ZTimelineId};
use crate::page::{bytes_clone, zero_page, zero_page_bytes, PageVersion, PageVersionView, WalRecord};
use crate::read::ReadError;
use crate::relish::{RelishTag, SegmentTag, BLCKSZ, RELISH_SEG_SIZE};
use crate::repository::{lemma_update_view, LayeredRepository, RepoView};
use crate::timeline::{wrap_add, wrap_sub, LayeredTimeline, TimelineView};
use bytes::Bytes;
use vstd::prelude::*;

verus! {

/// Why a write was not taken.
#[derive(Clone, Copy, Debug, PartialEq, Eq, Structural)]
pub enum WriteError {
    /// The timeline is not loaded.
    NotLocal,
    /// A block other than 0 of a relish that holds a single value.
    InvalidBlock,
    /// The LSN is no multiple of eight.
    Unaligned,
    /// The LSN is not above the last record taken in.
    LsnNotAfterLast,
    /// The open layer, or the one that is to be made for the write, starts above the LSN.
    OpenLayerInFuture,
    /// A relish that holds a single value cannot be truncated.
    NotBlocky,
    /// The relish to truncate does not exist.
    NonExistent,
    /// The size of the relish, or of a segment where the open layer starts, could not be read.
    Read(ReadError),
}

/// One segment that a write touches: the open layer is to cover it, and,
/// where `event` is set, to record its new size (`None`: a drop).
#[derive(Clone, Copy, Debug)]
pub struct SegWrite {
    pub seg: SegmentTag,
    pub event: Option<Option<u32>>,
}

/// The size changes that a list of segment writes asks for, in order.
pub open spec fn new_events(writes: Seq<SegWrite>, lsn: Lsn) -> Seq<SegEvent>
    decreases writes.len(),
{
    if writes.len() == 0 {
        Seq::empty()
    } else {
        let rest = new_events(writes.drop_last(), lsn);
        match writes.last().event {
            Some(size) => rest.push(SegEvent { seg: writes.last().seg, lsn, size }),
            None => rest,
        }
    }
}

/// The writes that bring a relish from `old_size` blocks to `new_size`:
/// each segment from the one that block `old_size` lies in to the one that
/// the last block lies in is given its new size, which is that of a full
/// segment for all but the last.
pub open spec fn size_writes(rel: RelishTag, old_size: u32, new_size: u32, n: int) -> Seq<SegWrite> {
    Seq::new(
        n as nat,
        |k: int|
            SegWrite {
                seg: SegmentTag { rel, segno: (old_size / RELISH_SEG_SIZE + k) as u32 },
                event: Some(
                    Some(
                        if old_size / RELISH_SEG_SIZE + k < new_size / RELISH_SEG_SIZE {
                            RELISH_SEG_SIZE
                        } else {
                            new_size % RELISH_SEG_SIZE
                        },
                    ),
                ),
            },
    )
}

/// How many segments `size_writes` touches.
pub open spec fn size_writes_len(old_size: u32, new_size: u32) -> int {
    (new_size - 1) / (RELISH_SEG_SIZE as int) - old_size / RELISH_SEG_SIZE + 1
}

/// Pages of zeros for `n` blocks of `rel` from block `from` on, written at `lsn`.
pub open spec fn zero_entries(rel: RelishTag, lsn: Lsn, from: u32, n: int) -> Seq<PageEntryView> {
    Seq::new(
        n as nat,
        |j: int|
            PageEntryView {
                seg: SegmentTag::of_blknum(rel, (from + j) as u32),
                blknum: ((from + j) as u32) % RELISH_SEG_SIZE,
                lsn,
                pv: PageVersionView::Page(zero_page_bytes()),
            },
    )
}

/// The writes that drop `n` segments of `rel` from segment `from` on.
pub open spec fn drop_writes(rel: RelishTag, from: u32, n: int) -> Seq<SegWrite> {
    Seq::new(
        n as nat,
        |k: int| SegWrite { seg: SegmentTag { rel, segno: (from + k) as u32 }, event: Some(None) },
    )
}

impl TimelineView {
    /// The open layer that a write at `lsn` goes to: the one that is
    /// there, else a new one that starts where the last one ended.
    pub open spec fn layer_for_write(self, lsn: Lsn) -> LayerView {
        match self.layers.open_layer {
            Some(l) => l,
            None => LayerView {
                kind: LayerKind::InMemory,
                start_lsn: match self.layers.next_open_layer_at {
                    Some(s) => s,
                    None => Lsn(0),
                },
                end_lsn: None,
                oldest_lsn: lsn,
                readable: true,
                segs: Seq::empty(),
                events: Seq::empty(),
                pages: Seq::empty(),
            },
        }
    }

    /// Whether a write at `lsn` is taken: the LSN is aligned and above the
    /// last record, and the open layer, or the one that is to be made
    /// for the write, does not start above it.
    pub open spec fn check_write(self, lsn: Lsn) -> Result<(), WriteError> {
        if !lsn.aligned() {
            Err(WriteError::Unaligned)
        } else if lsn.0 <= self.last_record_lsn.last.0 {
            Err(WriteError::LsnNotAfterLast)
        } else if self.layer_for_write(lsn).start_lsn.0 > lsn.0 {
            Err(WriteError::OpenLayerInFuture)
        } else {
            Ok(())
        }
    }

    /// The timeline with `open` as its open layer.
    pub open spec fn with_open(self, open: LayerView) -> TimelineView {
        TimelineView {
            layers: LayerMapView { open_layer: Some(open), next_open_layer_at: None, ..self.layers },
            ..self
        }
    }

    /// The timeline after the write path has learnt that `rel` now has
    /// `cached` blocks (`None`: that it is gone), and the logical size has
    /// gone up by `add` bytes and down by `sub`.
    pub open spec fn resized(self, rel: RelishTag, cached: Option<u32>, add: u64, sub: u64) -> TimelineView {
        TimelineView {
            relish_size_cache: match cached {
                Some(n) => self.relish_size_cache.insert(rel, n),
                None => self.relish_size_cache.remove(rel),
            },
            current_logical_size: wrap_sub(wrap_add(self.current_logical_size, add), sub),
            ..self
        }
    }
}

impl RepoView {
    /// The repository with the timeline at `idx` resized.
    pub open spec fn resized(self, idx: int, rel: RelishTag, cached: Option<u32>, add: u64, sub: u64) -> RepoView {
        match self.local(idx) {
            Some(tl) => self.with_local(idx, tl.resized(rel, cached, add, sub)),
            None => self,
        }
    }

    /// The size of `rel` at the head of the timeline at `idx`, as the
    /// write path takes it: the one it has learnt, else the one that a
    /// read at the last record gives.
    pub open spec fn head_size(self, idx: int, rel: RelishTag) -> Result<Option<u32>, ReadError> {
        match self.local(idx) {
            None => Err(ReadError::NotLocal),
            Some(tl) => if tl.relish_size_cache.dom().contains(rel) {
                Ok(Some(tl.relish_size_cache[rel]))
            } else {
                self.relish_size(idx, rel, tl.last_record_lsn.last)
            },
        }
    }

    /// The repository after a version of block `blknum` of `rel` is
    /// written at `lsn` to the timeline at `idx`.
    ///
    /// A block at or past the end of the relish extends it, or brings it
    /// into being: each segment from the old end to the block's gets its
    /// new size, the blocks between the old end and the block get pages of
    /// zeros, and the logical size of a blocky relish grows by the new
    /// blocks. Then the version goes into the open layer.
    pub open spec fn put_page_version(
        self,
        idx: int,
        rel: RelishTag,
        blknum: u32,
        lsn: Lsn,
        pv: PageVersionView,
    ) -> Result<RepoView, WriteError> {
        let entry = PageEntryView {
            seg: SegmentTag::of_blknum(rel, blknum),
            blknum: blknum % RELISH_SEG_SIZE,
            lsn,
            pv,
        };
        if !rel.blocky() && blknum != 0 {
            Err(WriteError::InvalidBlock)
        } else {
            match self.local(idx) {
                None => Err(WriteError::NotLocal),
                Some(tl) => match tl.check_write(lsn) {
                    Err(e) => Err(e),
                    Ok(_) => match self.head_size(idx, rel) {
                        Err(e) => Err(WriteError::Read(e)),
                        Ok(sz) => {
                            let old_size = match sz {
                                Some(n) => n,
                                None => 0u32,
                            };
                            if blknum >= old_size {
                                let new_size = (blknum + 1) as u32;
                                match self.write_batch(
                                    idx,
                                    lsn,
                                    size_writes(rel, old_size, new_size, size_writes_len(old_size, new_size)),
                                    zero_entries(rel, lsn, old_size, blknum - old_size).push(entry),
                                ) {
                                    Err(e) => Err(e),
                                    Ok(r) => Ok(
                                        r.resized(
                                            idx,
                                            rel,
                                            Some(new_size),
                                            if rel.blocky() {
                                                ((new_size - old_size) * BLCKSZ) as u64
                                            } else {
                                                0
                                            },
                                            0,
                                        ),
                                    ),
                                }
                            } else {
                                self.write_batch(
                                    idx,
                                    lsn,
                                    seq![SegWrite { seg: SegmentTag::of_blknum(rel, blknum), event: None }],
                                    seq![entry],
                                )
                            }
                        },
                    },
                },
            }
        }
    }

    /// The repository after `rel` is brought into being at `lsn` with `size` blocks in its first segment.
    pub open spec fn put_creation(self, idx: int, rel: RelishTag, lsn: Lsn, size: u32) -> Result<
        RepoView,
        WriteError,
    > {
        if !lsn.aligned() {
            Err(WriteError::Unaligned)
        } else {
            self.write_batch(
                idx,
                lsn,
                seq![SegWrite { seg: SegmentTag { rel, segno: 0 }, event: Some(Some(size)) }],
                Seq::empty(),
            )
        }
    }

    /// The writes that cut a relish of `oldsize` blocks down to `relsize`:
    /// the segments past the last that stays are dropped, and the last
    /// that stays gets its new size, unless it stays full.
    pub open spec fn truncation_writes(rel: RelishTag, oldsize: u32, relsize: u32) -> Seq<SegWrite> {
        let old_last_seg = (oldsize - 1) / (RELISH_SEG_SIZE as int);
        let last_remain_seg = if relsize == 0 {
            0
        } else {
            (relsize - 1) / (RELISH_SEG_SIZE as int)
        };
        let drops = drop_writes(rel, (last_remain_seg + 1) as u32, old_last_seg - last_remain_seg);
        if relsize == 0 || relsize % RELISH_SEG_SIZE != 0 {
            drops.push(
                SegWrite {
                    seg: SegmentTag { rel, segno: last_remain_seg as u32 },
                    event: Some(Some(relsize % RELISH_SEG_SIZE)),
                },
            )
        } else {
            drops
        }
    }

    /// The repository after `rel` is cut down to `relsize` blocks at
    /// `lsn`. A relish that is no larger stays as it is.
    pub open spec fn put_truncation(self, idx: int, rel: RelishTag, lsn: Lsn, relsize: u32) -> Result<
        RepoView,
        WriteError,
    > {
        if !rel.blocky() {
            Err(WriteError::NotBlocky)
        } else if !lsn.aligned() {
            Err(WriteError::Unaligned)
        } else {
            match self.local(idx) {
                None => Err(WriteError::NotLocal),
                Some(tl) => match self.relish_size(idx, rel, tl.last_record_lsn.last) {
                    Err(e) => Err(WriteError::Read(e)),
                    Ok(None) => Err(WriteError::NonExistent),
                    Ok(Some(oldsize)) => if oldsize <= relsize {
                        Ok(self)
                    } else {
                        match self.write_batch(
                            idx,
                            lsn,
                            Self::truncation_writes(rel, oldsize, relsize),
                            Seq::empty(),
                        ) {
                            Err(e) => Err(e),
                            Ok(r) => Ok(
                                r.resized(idx, rel, Some(relsize), 0, ((oldsize - relsize) * BLCKSZ) as u64),
                            ),
                        }
                    },
                },
            }
        }
    }

    /// The repository after `rel` is dropped at `lsn`: every segment of a
    /// blocky relish that exists is dropped, and its blocks no longer
    /// count; one that does not exist is only forgotten. The one segment
    /// of any other relish is dropped.
    pub open spec fn drop_relish(self, idx: int, rel: RelishTag, lsn: Lsn) -> Result<RepoView, WriteError> {
        match self.local(idx) {
            None => Err(WriteError::NotLocal),
            Some(tl) => if rel.blocky() {
                match self.relish_size(idx, rel, tl.last_record_lsn.last) {
                    Err(e) => Err(WriteError::Read(e)),
                    Ok(None) => Ok(self.resized(idx, rel, None, 0, 0)),
                    Ok(Some(oldsize)) => {
                        let old_last_seg = if oldsize == 0 {
                            0
                        } else {
                            (oldsize - 1) / (RELISH_SEG_SIZE as int)
                        };
                        match self.write_batch(idx, lsn, drop_writes(rel, 0, old_last_seg + 1), Seq::empty()) {
                            Err(e) => Err(e),
                            Ok(r) => Ok(r.resized(idx, rel, None, 0, (oldsize * BLCKSZ) as u64)),
                        }
                    },
                }
            } else {
                match self.write_batch(
                    idx,
                    lsn,
                    seq![SegWrite { seg: SegmentTag { rel, segno: 0 }, event: Some(None) }],
                    Seq::empty(),
                ) {
                    Err(e) => Err(e),
                    Ok(r) => Ok(r.resized(idx, rel, None, 0, 0)),
                }
            },
        }
    }

    /// The entries by which the open layer `open` takes the segments of
    /// `writes` into its coverage: one for each that it does not cover
    /// yet, with the size that the segment has where the layer starts.
    pub open spec fn new_segs(self, idx: int, open: LayerView, writes: Seq<SegWrite>) -> Result<
        Seq<CoveredSeg>,
        ReadError,
    >
        decreases writes.len(),
    {
        if writes.len() == 0 {
            Ok(Seq::empty())
        } else {
            match self.new_segs(idx, open, writes.drop_last()) {
                Err(e) => Err(e),
                Ok(s) => if open.covers_seg(writes.last().seg) {
                    Ok(s)
                } else {
                    match self.seg_size_at(idx, writes.last().seg, open.start_lsn) {
                        Err(e) => Err(e),
                        Ok(b) => Ok(
                            s.push(
                                CoveredSeg { seg: writes.last().seg, base_size: b, incremental: b is Some },
                            ),
                        ),
                    }
                },
            }
        }
    }

    /// The repository after a batch of writes at `lsn` to the timeline at
    /// `idx`: its open layer, made if there was none, covers the segments
    /// of `writes`, and holds their size changes and then `pages` after
    /// what it held.
    pub open spec fn write_batch(self, idx: int, lsn: Lsn, writes: Seq<SegWrite>, pages: Seq<PageEntryView>) -> Result<
        RepoView,
        WriteError,
    > {
        match self.local(idx) {
            None => Err(WriteError::NotLocal),
            Some(tl) => match tl.check_write(lsn) {
                Err(e) => Err(e),
                Ok(_) => {
                    let open = tl.layer_for_write(lsn);
                    match self.new_segs(idx, open, writes) {
                        Err(e) => Err(WriteError::Read(e)),
                        Ok(segs) => Ok(
                            self.with_local(
                                idx,
                                tl.with_open(
                                    LayerView {
                                        segs: open.segs + segs,
                                        events: open.events + new_events(writes, lsn),
                                        pages: open.pages + pages,
                                        ..open
                                    },
                                ),
                            ),
                        ),
                    }
                },
            },
        }
    }
}

impl LayeredRepository {
    /// Takes a batch of writes at `lsn` into the open layer of the
    /// timeline at `idx`, or changes nothing.
    #[verifier::loop_isolation(false)]
    pub(crate) fn write_batch(&mut self, idx: usize, lsn: Lsn, writes: &Vec<SegWrite>, pages: Vec<PageEntry>) -> (r:
        Result<(), WriteError>)
        requires
            old(self).wf(),
        ensures
            final(self).wf(),
            match old(self)@.write_batch(idx as int, lsn, writes@, pages_view(pages@)) {
                Ok(after) => r is Ok && final(self)@ == after,
                Err(e) => r == Err::<(), WriteError>(e) && final(self)@ == old(self)@,
            },
    {
        let ghost repo0 = self@;
        let tl = match self.local_at(idx) {
            Some(tl) => tl,
            None => { return Err(WriteError::NotLocal); },
        };
        let ghost tl0 = tl@;
        if !lsn.is_aligned() {
            return Err(WriteError::Unaligned);
        }
        if lsn.0 <= tl.last_record_lsn.last.0 {
            return Err(WriteError::LsnNotAfterLast);
        }
        let start_lsn = match &tl.layers.open_layer {
            Some(l) => {
                if l.start_lsn.0 > lsn.0 {
                    return Err(WriteError::OpenLayerInFuture);
                }
                l.start_lsn
            },
            None => {
                let s = match tl.layers.next_open_layer_at {
                    Some(s) => s,
                    None => Lsn(0),
                };
                if s.0 > lsn.0 {
                    return Err(WriteError::OpenLayerInFuture);
                }
                s
            },
        };
        let ghost open0 = tl0.layer_for_write(lsn);
        let mut segs: Vec<CoveredSeg> = Vec::new();
        let mut events: Vec<SegEvent> = Vec::new();
        let mut k: usize = 0;
        assert(writes@.take(0) =~= Seq::empty());
        while k < writes.len()
            invariant
                k <= writes@.len(),
                self@ == repo0,
                *self == *old(self),
                repo0.local(idx as int) == Some(tl0),
                open0 == tl0.layer_for_write(lsn),
                start_lsn == open0.start_lsn,
                repo0.new_segs(idx as int, open0, writes@.take(k as int)) == Ok::<Seq<CoveredSeg>, ReadError>(segs@),
                events@ == new_events(writes@.take(k as int), lsn),
            decreases writes@.len() - k,
        {
            assert(writes@.take(k + 1).drop_last() =~= writes@.take(k as int));
            let w = writes[k];
            let covered = match self.local_at(idx) {
                Some(t) => match &t.layers.open_layer {
                    Some(l) => l.covers_seg(w.seg),
                    None => false,
                },
                None => false,
            };
            if !covered {
                match self.seg_size_at(idx, w.seg, start_lsn) {
                    Err(e) => {
                        proof {
                            lemma_new_segs_err(repo0, idx as int, open0, writes@, k as int + 1);
                        }
                        return Err(WriteError::Read(e));
                    },
                    Ok(b) => {
                        segs.push(CoveredSeg { seg: w.seg, base_size: b, incremental: b.is_some() });
                    },
                }
            }
            match w.event {
                Some(size) => {
                    events.push(SegEvent { seg: w.seg, lsn, size });
                },
                None => {},
            }
            k = k + 1;
        }
        assert(writes@.take(k as int) =~= writes@);
        let ghost entries0 = self.timelines@;
        let tl = self.local_mut(idx);
        tl.append_open(lsn, segs, events, pages);
        proof {
            let t = self.timelines@[idx as int]->Local_0;
            lemma_update_view(entries0, idx as int, t);
            assert forall|i: int| 0 <= i < self.timelines@.len() implies (#[trigger] self.timelines@[i]).wf() by {
                if i != idx {
                    assert(self.timelines@[i] == entries0[i]);
                }
            }
        }
        Ok(())
    }
}

impl LayeredTimeline {
    /// Adds to the open layer, which is made first if there is none.
    pub(crate) fn append_open(&mut self, lsn: Lsn, segs: Vec<CoveredSeg>, events: Vec<SegEvent>, pages: Vec<PageEntry>)
        requires
            old(self).wf(),
        ensures
            final(self).wf(),
            final(self).relish_size_cache == old(self).relish_size_cache,
            final(self)@ == old(self)@.with_open(
                LayerView {
                    segs: old(self)@.layer_for_write(lsn).segs + segs@,
                    events: old(self)@.layer_for_write(lsn).events + events@,
                    pages: old(self)@.layer_for_write(lsn).pages + pages_view(pages@),
                    ..old(self)@.layer_for_write(lsn)
                },
            ),
    {
        let mut segs = segs;
        let mut events = events;
        let mut pages = pages;
        let ghost pages0 = pages@;
        let ghost segs0 = segs@;
        let ghost events0 = events@;
        let ghost open0 = self@.layer_for_write(lsn);
        if self.layers.open_layer.is_none() {
            let start_lsn = match self.layers.next_open_layer_at {
                Some(s) => s,
                None => Lsn(0),
            };
            self.layers.open_layer = Some(Layer::create(start_lsn, lsn));
        }
        self.layers.next_open_layer_at = None;
        match &mut self.layers.open_layer {
            Some(l) => {
                assert(l@ == open0);
                l.segs.append(&mut segs);
                l.events.append(&mut events);
                l.pages.append(&mut pages);
                assert(pages_view(l.pages@) =~= open0.pages + pages_view(pages0));
                assert(l@.segs =~= open0.segs + segs0);
                assert(l@.events =~= open0.events + events0);
            },
            None => {
                assert(false);
            },
        }
        let ghost want = LayerView {
            segs: open0.segs + segs0,
            events: open0.events + events0,
            pages: open0.pages + pages_view(pages0),
            ..open0
        };
        assert(self.layers.open_layer->0@ == want);
    }
}

fn build_size_writes(rel: RelishTag, old_size: u32, new_size: u32) -> (v: Vec<SegWrite>)
    requires
        old_size < new_size,
    ensures
        v@ == size_writes(rel, old_size, new_size, size_writes_len(old_size, new_size)),
{
    let first: u32 = old_size / RELISH_SEG_SIZE;
    let last: u32 = (new_size - 1) / RELISH_SEG_SIZE;
    let final_segno: u32 = new_size / RELISH_SEG_SIZE;
    let final_size: u32 = new_size % RELISH_SEG_SIZE;
    let n: u32 = last - first + 1;
    let mut v: Vec<SegWrite> = Vec::new();
    let mut k: u32 = 0;
    while k < n
        invariant
            k <= n,
            first == old_size / RELISH_SEG_SIZE,
            final_segno == new_size / RELISH_SEG_SIZE,
            final_size == new_size % RELISH_SEG_SIZE,
            first + n - 1 == last,
            v@ == size_writes(rel, old_size, new_size, k as int),
        decreases n - k,
    {
        let segno: u32 = first + k;
        v.push(
            SegWrite {
                seg: SegmentTag { rel, segno },
                event: Some(
                    Some(
                        if segno < final_segno {
                            RELISH_SEG_SIZE
                        } else {
                            final_size
                        },
                    ),
                ),
            },
        );
        k = k + 1;
        assert(v@ =~= size_writes(rel, old_size, new_size, k as int));
    }
    v
}

fn build_drop_writes(rel: RelishTag, from: u32, n: u32) -> (v: Vec<SegWrite>)
    requires
        from + n <= u32::MAX + 1,
    ensures
        v@ == drop_writes(rel, from, n as int),
{
    let mut v: Vec<SegWrite> = Vec::new();
    let mut k: u32 = 0;
    while k < n
        invariant
            k <= n,
            from + n <= u32::MAX + 1,
            v@ == drop_writes(rel, from, k as int),
        decreases n - k,
    {
        v.push(SegWrite { seg: SegmentTag { rel, segno: from + k }, event: Some(None) });
        k = k + 1;
        assert(v@ =~= drop_writes(rel, from, k as int));
    }
    v
}

fn build_zero_entries(rel: RelishTag, lsn: Lsn, from: u32, n: u32) -> (v: Vec<PageEntry>)
    requires
        from + n <= u32::MAX,
    ensures
        pages_view(v@) == zero_entries(rel, lsn, from, n as int),
{
    let zeros = zero_page();
    let mut v: Vec<PageEntry> = Vec::new();
    let mut j: u32 = 0;
    while j < n
        invariant
            j <= n,
            from + n <= u32::MAX,
            crate::page::page_bytes(zeros) == zero_page_bytes(),
            v@.len() == j,
            pages_view(v@) == zero_entries(rel, lsn, from, j as int),
        decreases n - j,
    {
        let ghost before = v@;
        let b: u32 = from + j;
        let (seg, seg_blknum) = SegmentTag::from_blknum(rel, b);
        v.push(PageEntry { seg, blknum: seg_blknum, lsn, pv: PageVersion::Page(bytes_clone(&zeros)) });
        j = j + 1;
        assert forall|i: int| 0 <= i < j implies pages_view(v@)[i] == zero_entries(rel, lsn, from, j as int)[i] by {
            if i < j - 1 {
                assert(pages_view(before)[i] == zero_entries(rel, lsn, from, j - 1)[i]);
            }
        }
        assert(pages_view(v@) =~= zero_entries(rel, lsn, from, j as int));
    }
    v
}

impl LayeredTimeline {
    /// Notes that `rel` now has `cached` blocks (`None`: that it is gone),
    /// and moves the logical size up by `add` bytes and down by `sub`.
    pub(crate) fn note_size(&mut self, rel: RelishTag, cached: Option<u32>, add: u64, sub: u64)
        requires
            old(self).wf(),
        ensures
            final(self).wf(),
            final(self)@ == old(self)@.resized(rel, cached, add, sub),
    {
        match cached {
            Some(n) => self.relish_size_cache.insert(rel, n),
            None => self.relish_size_cache.remove(rel),
        }
        self.increase_current_logical_size(add);
        self.decrease_current_logical_size(sub);
    }
}

impl LayeredRepository {
    pub(crate) fn set_head(&mut self, idx: usize, rel: RelishTag, cached: Option<u32>, add: u64, sub: u64)
        requires
            old(self).wf(),
            old(self)@.local(idx as int) is Some,
        ensures
            final(self).wf(),
            final(self)@ == old(self)@.resized(idx as int, rel, cached, add, sub),
    {
        let ghost entries0 = self.timelines@;
        let tl = self.local_mut(idx);
        tl.note_size(rel, cached, add, sub);
        proof {
            let t = self.timelines@[idx as int]->Local_0;
            lemma_update_view(entries0, idx as int, t);
            assert forall|i: int| 0 <= i < self.timelines@.len() implies (#[trigger] self.timelines@[i]).wf() by {
                if i != idx {
                    assert(self.timelines@[i] == entries0[i]);
                }
            }
        }
    }

    pub(crate) fn head_size(&self, idx: usize, rel: RelishTag) -> (r: Result<Option<u32>, ReadError>)
        ensures
            r == self@.head_size(idx as int, rel),
    {
        match self.local_at(idx) {
            None => Err(ReadError::NotLocal),
            Some(tl) => match tl.relish_size_cache.get(rel) {
                Some(n) => Ok(Some(n)),
                None => self.relish_size_at(idx, rel, tl.last_record_lsn.last),
            },
        }
    }

    pub(crate) fn check_write_at(&self, idx: usize, lsn: Lsn) -> (r: Result<(), WriteError>)
        ensures
            r == match self@.local(idx as int) {
                None => Err::<(), WriteError>(WriteError::NotLocal),
                Some(tl) => tl.check_write(lsn),
            },
    {
        let tl = match self.local_at(idx) {
            Some(tl) => tl,
            None => { return Err(WriteError::NotLocal); },
        };
        if !lsn.is_aligned() {
            return Err(WriteError::Unaligned);
        }
        if lsn.0 <= tl.last_record_lsn.last.0 {
            return Err(WriteError::LsnNotAfterLast);
        }
        let start_lsn = match &tl.layers.open_layer {
            Some(l) => l.start_lsn,
            None => match tl.layers.next_open_layer_at {
                Some(s) => s,
                None => Lsn(0),
            },
        };
        if start_lsn.0 > lsn.0 {
            return Err(WriteError::OpenLayerInFuture);
        }
        Ok(())
    }

    /// Writes a version of block `rel_blknum` of `rel` at `lsn` to the timeline at `idx`.
    pub(crate) fn put_page_version(&mut self, idx: usize, rel: RelishTag, rel_blknum: u32, lsn: Lsn, pv: PageVersion) -> (r:
        Result<(), WriteError>)
        requires
            old(self).wf(),
            rel_blknum < u32::MAX,
        ensures
            final(self).wf(),
            match old(self)@.put_page_version(idx as int, rel, rel_blknum, lsn, pv@) {
                Ok(after) => r is Ok && final(self)@ == after,
                Err(e) => r == Err::<(), WriteError>(e) && final(self)@ == old(self)@,
            },
    {
        if !rel.is_blocky() && rel_blknum != 0 {
            return Err(WriteError::InvalidBlock);
        }
        match self.check_write_at(idx, lsn) {
            Err(e) => { return Err(e); },
            Ok(_) => {},
        }
        let old_size = match self.head_size(idx, rel) {
            Err(e) => { return Err(WriteError::Read(e)); },
            Ok(Some(n)) => n,
            Ok(None) => 0,
        };
        let (seg, seg_blknum) = SegmentTag::from_blknum(rel, rel_blknum);
        if rel_blknum >= old_size {
            let new_size: u32 = rel_blknum + 1;
            let writes = build_size_writes(rel, old_size, new_size);
            let mut pages = build_zero_entries(rel, lsn, old_size, rel_blknum - old_size);
            let ghost zeros = pages@;
            pages.push(PageEntry { seg, blknum: seg_blknum, lsn, pv });
            assert(pages_view(pages@) =~= pages_view(zeros).push(
                PageEntryView { seg, blknum: seg_blknum, lsn, pv: pv@ },
            ));
            match self.write_batch(idx, lsn, &writes, pages) {
                Err(e) => Err(e),
                Ok(_) => {
                    let add: u64 = if rel.is_blocky() {
                        (new_size - old_size) as u64 * BLCKSZ as u64
                    } else {
                        0
                    };
                    self.set_head(idx, rel, Some(new_size), add, 0);
                    Ok(())
                },
            }
        } else {
            let mut writes: Vec<SegWrite> = Vec::new();
            writes.push(SegWrite { seg, event: None });
            let mut pages: Vec<PageEntry> = Vec::new();
            pages.push(PageEntry { seg, blknum: seg_blknum, lsn, pv });
            assert(pages_view(pages@) =~= seq![PageEntryView { seg, blknum: seg_blknum, lsn, pv: pv@ }]);
            assert(writes@ =~= seq![SegWrite { seg, event: None }]);
            self.write_batch(idx, lsn, &writes, pages)
        }
    }

    /// Writes a WAL record that changes block `rel_blknum` of `rel`.
    pub fn put_wal_record(&mut self, timelineid: ZTimelineId, lsn: Lsn, rel: RelishTag, rel_blknum: u32, rec: WalRecord) -> (r:
        Result<(), WriteError>)
        requires
            old(self).wf(),
            rel_blknum < u32::MAX,
        ensures
            final(self).wf(),
            match old(self)@.put_page_version(
                old(self)@.read_index(timelineid),
                rel,
                rel_blknum,
                lsn,
                PageVersionView::Wal(rec@),
            ) {
                Ok(after) => r is Ok && final(self)@ == after,
                Err(e) => r == Err::<(), WriteError>(e) && final(self)@ == old(self)@,
            },
    {
        match self.find_timeline(timelineid) {
            Some(idx) => self.put_page_version(idx, rel, rel_blknum, lsn, PageVersion::Wal(rec)),
            None => if !rel.is_blocky() && rel_blknum != 0 {
                Err(WriteError::InvalidBlock)
            } else {
                Err(WriteError::NotLocal)
            },
        }
    }

    /// Writes the image of block `rel_blknum` of `rel`.
    pub fn put_page_image(&mut self, timelineid: ZTimelineId, rel: RelishTag, rel_blknum: u32, lsn: Lsn, img: Bytes) -> (r:
        Result<(), WriteError>)
        requires
            old(self).wf(),
            rel_blknum < u32::MAX,
        ensures
            final(self).wf(),
            match old(self)@.put_page_version(
                old(self)@.read_index(timelineid),
                rel,
                rel_blknum,
                lsn,
                PageVersionView::Page(crate::page::page_bytes(img)),
            ) {
                Ok(after) => r is Ok && final(self)@ == after,
                Err(e) => r == Err::<(), WriteError>(e) && final(self)@ == old(self)@,
            },
    {
        match self.find_timeline(timelineid) {
            Some(idx) => self.put_page_version(idx, rel, rel_blknum, lsn, PageVersion::Page(img)),
            None => if !rel.is_blocky() && rel_blknum != 0 {
                Err(WriteError::InvalidBlock)
            } else {
                Err(WriteError::NotLocal)
            },
        }
    }

    /// Brings `rel` into being at `lsn`, with `size` blocks in its first segment.
    pub fn put_creation(&mut self, timelineid: ZTimelineId, rel: RelishTag, lsn: Lsn, size: u32) -> (r: Result<
        (),
        WriteError,
    >)
        requires
            old(self).wf(),
        ensures
            final(self).wf(),
            match old(self)@.put_creation(old(self)@.read_index(timelineid), rel, lsn, size) {
                Ok(after) => r is Ok && final(self)@ == after,
                Err(e) => r == Err::<(), WriteError>(e) && final(self)@ == old(self)@,
            },
    {
        if !lsn.is_aligned() {
            return Err(WriteError::Unaligned);
        }
        let idx = match self.find_timeline(timelineid) {
            Some(idx) => idx,
            None => { return Err(WriteError::NotLocal); },
        };
        let mut writes: Vec<SegWrite> = Vec::new();
        writes.push(SegWrite { seg: SegmentTag { rel, segno: 0 }, event: Some(Some(size)) });
        assert(writes@ =~= seq![SegWrite { seg: SegmentTag { rel, segno: 0 }, event: Some(Some(size)) }]);
        let pages: Vec<PageEntry> = Vec::new();
        assert(pages_view(pages@) =~= Seq::empty());
        self.write_batch(idx, lsn, &writes, pages)
    }

    /// Cuts `rel` down to `relsize` blocks at `lsn`.
    pub fn put_truncation(&mut self, timelineid: ZTimelineId, rel: RelishTag, lsn: Lsn, relsize: u32) -> (r: Result<
        (),
        WriteError,
    >)
        requires
            old(self).wf(),
        ensures
            final(self).wf(),
            match old(self)@.put_truncation(old(self)@.read_index(timelineid), rel, lsn, relsize) {
                Ok(after) => r is Ok && final(self)@ == after,
                Err(e) => r == Err::<(), WriteError>(e) && final(self)@ == old(self)@,
            },
    {
        if !rel.is_blocky() {
            return Err(WriteError::NotBlocky);
        }
        if !lsn.is_aligned() {
            return Err(WriteError::Unaligned);
        }
        let idx = match self.find_timeline(timelineid) {
            Some(idx) => idx,
            None => { return Err(WriteError::NotLocal); },
        };
        let last = match self.local_at(idx) {
            Some(tl) => tl.last_record_lsn.last,
            None => { return Err(WriteError::NotLocal); },
        };
        let oldsize = match self.relish_size_at(idx, rel, last) {
            Err(e) => { return Err(WriteError::Read(e)); },
            Ok(None) => { return Err(WriteError::NonExistent); },
            Ok(Some(n)) => n,
        };
        if oldsize <= relsize {
            return Ok(());
        }
        let old_last_seg: u32 = (oldsize - 1) / RELISH_SEG_SIZE;
        let last_remain_seg: u32 = if relsize == 0 {
            0
        } else {
            (relsize - 1) / RELISH_SEG_SIZE
        };
        let mut writes = build_drop_writes(rel, last_remain_seg + 1, old_last_seg - last_remain_seg);
        if relsize == 0 || relsize % RELISH_SEG_SIZE != 0 {
            writes.push(
                SegWrite {
                    seg: SegmentTag { rel, segno: last_remain_seg },
                    event: Some(Some(relsize % RELISH_SEG_SIZE)),
                },
            );
        }
        let pages: Vec<PageEntry> = Vec::new();
        assert(pages_view(pages@) =~= Seq::empty());
        match self.write_batch(idx, lsn, &writes, pages) {
            Err(e) => Err(e),
            Ok(_) => {
                self.set_head(idx, rel, Some(relsize), 0, (oldsize - relsize) as u64 * BLCKSZ as u64);
                Ok(())
            },
        }
    }

    /// Drops `rel` at `lsn`.
    pub fn drop_relish(&mut self, timelineid: ZTimelineId, rel: RelishTag, lsn: Lsn) -> (r: Result<(), WriteError>)
        requires
            old(self).wf(),
        ensures
            final(self).wf(),
            match old(self)@.drop_relish(old(self)@.read_index(timelineid), rel, lsn) {
                Ok(after) => r is Ok && final(self)@ == after,
                Err(e) => r == Err::<(), WriteError>(e) && final(self)@ == old(self)@,
            },
    {
        let idx = match self.find_timeline(timelineid) {
            Some(idx) => idx,
            None => { return Err(WriteError::NotLocal); },
        };
        let last = match self.local_at(idx) {
            Some(tl) => tl.last_record_lsn.last,
            None => { return Err(WriteError::NotLocal); },
        };
        let pages: Vec<PageEntry> = Vec::new();
        assert(pages_view(pages@) =~= Seq::empty());
        if rel.is_blocky() {
            match self.relish_size_at(idx, rel, last) {
                Err(e) => Err(WriteError::Read(e)),
                Ok(None) => {
                    self.set_head(idx, rel, None, 0, 0);
                    Ok(())
                },
                Ok(Some(oldsize)) => {
                    let old_last_seg: u32 = if oldsize == 0 {
                        0
                    } else {
                        (oldsize - 1) / RELISH_SEG_SIZE
                    };
                    let writes = build_drop_writes(rel, 0, old_last_seg + 1);
                    match self.write_batch(idx, lsn, &writes, pages) {
                        Err(e) => Err(e),
                        Ok(_) => {
                            self.set_head(idx, rel, None, 0, oldsize as u64 * BLCKSZ as u64);
                            Ok(())
                        },
                    }
                },
            }
        } else {
            let mut writes: Vec<SegWrite> = Vec::new();
            writes.push(SegWrite { seg: SegmentTag { rel, segno: 0 }, event: Some(None) });
            assert(writes@ =~= seq![SegWrite { seg: SegmentTag { rel, segno: 0 }, event: Some(None) }]);
            match self.write_batch(idx, lsn, &writes, pages) {
                Err(e) => Err(e),
                Ok(_) => {
                    self.set_head(idx, rel, None, 0, 0);
                    Ok(())
                },
            }
        }
    }

    /// Makes sure that the timeline has an open layer that covers `seg`,
    /// for a write at `lsn`.
    pub fn get_layer_for_write(&mut self, timelineid: ZTimelineId, seg: SegmentTag, lsn: Lsn) -> (r: Result<
        (),
        WriteError,
    >)
        requires
            old(self).wf(),
        ensures
            final(self).wf(),
            match old(self)@.write_batch(
                old(self)@.read_index(timelineid),
                lsn,
                seq![SegWrite { seg, event: None }],
                Seq::empty(),
            ) {
                Ok(after) => r is Ok && final(self)@ == after,
                Err(e) => r == Err::<(), WriteError>(e) && final(self)@ == old(self)@,
            },
    {
        let idx = match self.find_timeline(timelineid) {
            Some(idx) => idx,
            None => { return Err(WriteError::NotLocal); },
        };
        let mut writes: Vec<SegWrite> = Vec::new();
        writes.push(SegWrite { seg, event: None });
        assert(writes@ =~= seq![SegWrite { seg, event: None }]);
        let pages: Vec<PageEntry> = Vec::new();
        assert(pages_view(pages@) =~= Seq::empty());
        self.write_batch(idx, lsn, &writes, pages)
    }

    /// Moves the head of the timeline to `new_lsn`, the end of a record
    /// that has been taken in whole. Says whether the timeline is loaded.
    pub fn advance_last_record_lsn(&mut self, timelineid: ZTimelineId, new_lsn: Lsn) -> (r: bool)
        requires
            old(self).wf(),
            new_lsn.aligned(),
        ensures
            final(self).wf(),
            r == old(self)@.local(old(self)@.read_index(timelineid)) is Some,
            r ==> final(self)@ == old(self)@.with_local(
                old(self)@.read_index(timelineid),
                old(self)@.local(old(self)@.read_index(timelineid))->0.advanced(new_lsn),
            ),
            !r ==> final(self)@ == old(self)@,
    {
        let idx = match self.find_timeline(timelineid) {
            Some(idx) => idx,
            None => { return false; },
        };
        if self.local_at(idx).is_none() {
            return false;
        }
        let ghost entries0 = self.timelines@;
        let tl = self.local_mut(idx);
        tl.advance_last_record_lsn(new_lsn);
        proof {
            let t = self.timelines@[idx as int]->Local_0;
            lemma_update_view(entries0, idx as int, t);
            assert forall|i: int| 0 <= i < self.timelines@.len() implies (#[trigger] self.timelines@[i]).wf() by {
                if i != idx {
                    assert(self.timelines@[i] == entries0[i]);
                }
            }
        }
        true
    }
}

/// Where the first `k` writes cannot be covered, the whole list cannot, for the same reason.
pub proof fn lemma_new_segs_err(repo: RepoView, idx: int, open: LayerView, writes: Seq<SegWrite>, k: int)
    requires
        0 <= k <= writes.len(),
        repo.new_segs(idx, open, writes.take(k)) is Err,
    ensures
        repo.new_segs(idx, open, writes) == repo.new_segs(idx, open, writes.take(k)),
    decreases writes.len() - k,
{
    if k < writes.len() {
        assert(writes.take(k + 1).drop_last() =~= writes.take(k));
        lemma_new_segs_err(repo, idx, open, writes, k + 1);
    } else {
        assert(writes.take(k) =~= writes);
    }
}

} // verus!
