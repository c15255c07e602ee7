//! Checkpoints: the open layer is frozen once enough WAL has piled up in
//! it, and the frozen layer is flushed as a delta layer, with an image
//! layer for each of its segments where images are asked for.

use crate::layer::{image_layer, Layer, LayerView};
use crate::layer_map::{layers_view, LayerMapView};
use crate::lsn::{Lsn, ZTimelineId};
use crate::metadata::TimelineMetadata;
use crate::page::{page_bytes, RedoRequest, WalRedoError};
use crate::read::{page_result, MaterializedPage, PagePlan, ReadError};
use crate::relish::{SegmentTag, RELISH_SEG_SIZE};
use crate::repository::{lemma_update_view, LayeredRepository, RepoView};
use crate::timeline::{LayeredTimeline, TimelineView};
use bytes::Bytes;
use vstd::prelude::*;

verus! {

/// When a checkpoint freezes the open layer, and whether the flush makes images.
#[derive(Clone, Copy, Debug, PartialEq, Eq, Structural)]
pub enum CheckpointConfig {
    /// Freeze what is open once its first record lies behind the head; make no images.
    Flush,
    /// Freeze whatever is open; make images. What is frozen ends at the
    /// head: the head is moved to the last record before a checkpoint is asked for.
    Forced,
    /// Freeze what is open once its first record lies more than this many bytes behind the head; make images.
    Distance(u64),
}

impl CheckpointConfig {
    /// How far behind the head the first record of the open layer has to
    /// lie, at the least, for the layer not to be frozen; `None` where it
    /// is frozen in any case.
    pub open spec fn distance(self) -> Option<u64> {
        match self {
            CheckpointConfig::Distance(d) => Some(d),
            CheckpointConfig::Flush => Some(0),
            CheckpointConfig::Forced => None,
        }
    }

    pub open spec fn reconstruct_pages(self) -> bool {
        !(self is Flush)
    }
}

/// Why a checkpoint stopped.
#[derive(Clone, Copy, Debug, PartialEq, Eq, Structural)]
pub enum CheckpointError {
    /// The timeline is not loaded.
    NotLocal,
    /// A page for an image layer could not be made.
    Read(ReadError),
    /// The frozen layer gives a segment a size or a number that no page can have.
    BadSegment,
}

/// What a flush leaves to be done outside: the new layers are to be
/// written and synced, then the metadata, if any, and both handed on for
/// upload where that is asked for.
#[derive(Clone, Copy, Debug, PartialEq, Eq, Structural)]
pub struct FlushOutcome {
    /// The place of the new delta layer among the flushed ones.
    pub first_new_layer: usize,
    /// How many image layers follow it.
    pub new_images: usize,
    /// The metadata to save, where the flush has moved `disk_consistent_lsn`.
    pub metadata: Option<TimelineMetadata>,
    pub upload: bool,
}

/// Whether a segment cannot have this size: it is more than a segment
/// holds, or its last block has a number that does not fit.
pub open spec fn bad_size(seg: SegmentTag, size: Option<u32>) -> bool {
    size matches Some(n) && (n > RELISH_SEG_SIZE || seg.segno * RELISH_SEG_SIZE + n > u32::MAX + 1)
}

/// Whether `r` is what materializing a page with `redo` comes to, given what the search for it gave.
pub open spec fn materialized<F: Fn(RedoRequest) -> Result<Bytes, WalRedoError>>(
    plan: Result<PagePlan, ReadError>,
    r: Result<MaterializedPage, ReadError>,
    redo: F,
) -> bool {
    match plan {
        Err(e) => r matches Err(f) && f == e,
        Ok(plan) => page_result(plan, r, redo),
    }
}

/// The page came out as these bytes.
pub open spec fn page_is<F: Fn(RedoRequest) -> Result<Bytes, WalRedoError>>(
    plan: Result<PagePlan, ReadError>,
    bytes: Seq<u8>,
    redo: F,
) -> bool {
    exists|r: Result<MaterializedPage, ReadError>|
        #![trigger materialized(plan, r, redo)]
        materialized(plan, r, redo) && r is Ok && page_bytes(r->Ok_0.img) == bytes
}

/// The page did not come out, for this reason.
pub open spec fn page_fails<F: Fn(RedoRequest) -> Result<Bytes, WalRedoError>>(
    plan: Result<PagePlan, ReadError>,
    e: ReadError,
    redo: F,
) -> bool {
    exists|r: Result<MaterializedPage, ReadError>|
        #![trigger materialized(plan, r, redo)]
        materialized(plan, r, redo) && r is Err && r->Err_0 == e
}

impl TimelineView {
    /// Whether a checkpoint freezes the open layer: there is one, and its
    /// first record lies more than `distance` bytes behind the head;
    /// without a distance, whatever is open is frozen.
    pub open spec fn should_freeze(self, distance: Option<u64>) -> bool {
        self.layers.open_layer is Some && (distance is None || self.last_record_lsn.last.0
            - self.layers.open_layer->0.oldest_lsn.0 > distance->0)
    }

    /// The timeline after its open layer is frozen: it ends at the head,
    /// and the next open layer starts just past it.
    pub open spec fn freeze_open(self) -> TimelineView {
        let end = Lsn((self.last_record_lsn.last.0 + 1) as u64);
        TimelineView {
            layers: LayerMapView {
                next_open_layer_at: Some(end),
                open_layer: None,
                frozen_layer: Some(LayerView { end_lsn: Some(end), ..self.layers.open_layer->0 }),
                ..self.layers
            },
            ..self
        }
    }

    /// The last LSN that the frozen layer holds.
    pub open spec fn frozen_last_lsn(self) -> Lsn {
        Lsn((self.layers.frozen_layer->0.end_or_max().0 - 1) as u64)
    }

    /// The timeline after its frozen layer is flushed, with `images` as
    /// the image layers made: the frozen layer is gone, and the flushed
    /// layers have its delta layer and the images more.
    /// `disk_consistent_lsn` stays where it is: it moves when the new
    /// layers and the metadata are on disk, and that is made known.
    pub open spec fn flushed(self, images: Seq<LayerView>) -> TimelineView {
        TimelineView {
            layers: LayerMapView {
                frozen_layer: None,
                historic: self.layers.historic.push(self.layers.frozen_layer->0.as_delta()) + images,
                ..self.layers
            },
            ..self
        }
    }

    /// The metadata that vouches for the frozen layer once it is
    /// flushed: everything up to the layer's last LSN is on disk. The
    /// start of the record before the last is known only where that LSN
    /// is the head.
    pub open spec fn flush_metadata(self) -> TimelineMetadata {
        TimelineMetadata {
            disk_consistent_lsn: self.frozen_last_lsn(),
            prev_record_lsn: if self.frozen_last_lsn() == self.last_record_lsn.last {
                Some(self.last_record_lsn.prev)
            } else {
                None
            },
            ancestor_timeline: self.ancestor_timeline,
            ancestor_lsn: self.ancestor_lsn,
            latest_gc_cutoff_lsn: self.latest_gc_cutoff_lsn,
            initdb_lsn: self.initdb_lsn,
        }
    }

    /// Whether `lsn` can be made known as the LSN up to which
    /// everything is on disk: it lies above the one known, at or below
    /// the head, and below everything that is still held in memory.
    pub open spec fn publishable(self, lsn: Lsn) -> bool {
        &&& self.disk_consistent_lsn.0 < lsn.0 <= self.last_record_lsn.last.0
        &&& self.layers.frozen_layer is Some ==> lsn.0 < self.layers.frozen_layer->0.end_or_max().0
        &&& self.layers.open_layer is Some ==> lsn.0 < self.layers.open_layer->0.start_lsn.0
    }

    /// What the flush leaves to be done outside.
    pub open spec fn flush_outcome(self, images: Seq<LayerView>) -> FlushOutcome {
        FlushOutcome {
            first_new_layer: self.layers.historic.len() as usize,
            new_images: images.len() as usize,
            metadata: if self.frozen_last_lsn() != self.disk_consistent_lsn {
                Some(self.flush_metadata())
            } else {
                None
            },
            upload: self.frozen_last_lsn() != self.disk_consistent_lsn && self.upload_relishes,
        }
    }

    /// Whether a checkpoint finds nothing to do: nothing is frozen, and
    /// nothing open is due to be.
    pub open spec fn settled(self, cconf: CheckpointConfig) -> bool {
        self.layers.frozen_layer is None && !self.should_freeze(cconf.distance())
    }
}

impl RepoView {
    /// Whether `image` is an image layer of `seg` at `lsn` with `n` pages,
    /// each as it comes out of a read at `lsn` that starts at the frozen layer.
    pub open spec fn image_for<F: Fn(RedoRequest) -> Result<Bytes, WalRedoError>>(
        self,
        idx: int,
        frozen: LayerView,
        seg: SegmentTag,
        n: int,
        lsn: Lsn,
        image: LayerView,
        redo: F,
    ) -> bool {
        exists|pages: Seq<Seq<u8>>|
            #![trigger image_layer(seg, lsn, pages)]
            pages.len() == n && image == image_layer(seg, lsn, pages) && forall|b: int|
                0 <= b < n ==> page_is(
                    #[trigger] self.materialize(idx, seg, b as u32, lsn, frozen, None),
                    pages[b],
                    redo,
                )
    }

    /// Whether `images` are the image layers for the first `k` segments
    /// that the frozen layer covers: one for each that exists at `lsn`, in order.
    pub open spec fn images_upto<F: Fn(RedoRequest) -> Result<Bytes, WalRedoError>>(
        self,
        idx: int,
        frozen: LayerView,
        lsn: Lsn,
        k: int,
        images: Seq<LayerView>,
        redo: F,
    ) -> bool
        decreases k,
    {
        if k <= 0 {
            images.len() == 0
        } else {
            let seg = frozen.segs[k - 1].seg;
            match frozen.seg_size(seg, lsn) {
                Some(n) => images.len() > 0 && self.image_for(idx, frozen, seg, n as int, lsn, images.last(), redo)
                    && self.images_upto(idx, frozen, lsn, k - 1, images.drop_last(), redo),
                None => self.images_upto(idx, frozen, lsn, k - 1, images, redo),
            }
        }
    }

    /// Whether some page of the first `k` segments that the frozen layer
    /// covers does not come out, for the reason `e`.
    pub open spec fn image_fails<F: Fn(RedoRequest) -> Result<Bytes, WalRedoError>>(
        self,
        idx: int,
        frozen: LayerView,
        lsn: Lsn,
        e: ReadError,
        redo: F,
    ) -> bool {
        exists|k: int, b: int|
            0 <= k < frozen.segs.len() && frozen.seg_size(frozen.segs[k].seg, lsn) is Some && 0 <= b
                < frozen.seg_size(frozen.segs[k].seg, lsn)->0 && page_fails(
                #[trigger] self.materialize(idx, frozen.segs[k].seg, b as u32, lsn, frozen, None),
                e,
                redo,
            )
    }

    /// Whether a segment that the frozen layer covers has, at `lsn`, more
    /// blocks than a segment holds, or blocks whose numbers do not fit.
    pub open spec fn bad_segment(frozen: LayerView, lsn: Lsn) -> bool {
        exists|k: int|
            0 <= k < frozen.segs.len() && bad_size((#[trigger] frozen.segs[k]).seg, frozen.seg_size(frozen.segs[k].seg, lsn))
    }
}

impl LayeredRepository {
    /// Makes the image layer of `seg` at `lsn`: `n` pages, each read at
    /// `lsn` starting at the frozen layer.
    fn create_image<F: Fn(RedoRequest) -> Result<Bytes, WalRedoError>>(
        &self,
        idx: usize,
        frozen: &Layer,
        seg: SegmentTag,
        n: u32,
        lsn: Lsn,
        redo: &F,
    ) -> (r: Result<Layer, ReadError>)
        requires
            forall|q: RedoRequest| call_requires(*redo, (q,)),
            n <= RELISH_SEG_SIZE,
            seg.segno * RELISH_SEG_SIZE + n <= u32::MAX + 1,
            lsn.0 < u64::MAX,
        ensures
            match r {
                Ok(l) => self@.image_for(idx as int, frozen@, seg, n as int, lsn, l@, *redo),
                Err(e) => exists|b: int|
                    0 <= b < n && page_fails(
                        #[trigger] self@.materialize(idx as int, seg, b as u32, lsn, frozen@, None),
                        e,
                        *redo,
                    ),
            },
    {
        let mut imgs: Vec<Bytes> = Vec::new();
        let mut b: u32 = 0;
        while b < n
            invariant
                b <= n,
                n <= RELISH_SEG_SIZE,
                seg.segno * RELISH_SEG_SIZE + n <= u32::MAX + 1,
                forall|q: RedoRequest| call_requires(*redo, (q,)),
                imgs@.len() == b,
                forall|i: int|
                    0 <= i < b ==> page_is(
                        #[trigger] self@.materialize(idx as int, seg, i as u32, lsn, frozen@, None),
                        page_bytes(imgs@[i]),
                        *redo,
                    ),
            decreases n - b,
        {
            let r = self.materialize_page(idx, seg, b, lsn, frozen, None, redo);
            let ghost plan = self@.materialize(idx as int, seg, b, lsn, frozen@, None);
            assert(materialized(plan, r, *redo));
            match r {
                Err(e) => {
                    assert(page_fails(plan, e, *redo));
                    let ghost bi = b as int;
                    assert(page_fails(
                        self@.materialize(idx as int, seg, bi as u32, lsn, frozen@, None),
                        e,
                        *redo,
                    ));
                    return Err(e);
                },
                Ok(p) => {
                    assert(page_is(plan, page_bytes(p.img), *redo));
                    imgs.push(p.img);
                },
            }
            b = b + 1;
        }
        let l = Layer::new_image(seg, lsn, &imgs);
        proof {
            let pages = Seq::new(imgs@.len(), |i: int| page_bytes(imgs@[i]));
            assert(l@ == image_layer(seg, lsn, pages));
            assert forall|i: int| 0 <= i < n implies page_is(
                #[trigger] self@.materialize(idx as int, seg, i as u32, lsn, frozen@, None),
                pages[i],
                *redo,
            ) by {}
        }
        Ok(l)
    }

    /// Flushes the frozen layer of the timeline at `idx`.
    ///
    /// The images, where asked for, are made first, by reads that start
    /// at the frozen layer; a page that does not come out stops the flush
    /// and leaves everything as it was.
    #[verifier::loop_isolation(false)]
    pub(crate) fn flush_frozen_layer<F: Fn(RedoRequest) -> Result<Bytes, WalRedoError>>(
        &mut self,
        idx: usize,
        reconstruct_pages: bool,
        redo: &F,
    ) -> (r: Result<FlushOutcome, CheckpointError>)
        requires
            old(self).wf(),
            old(self)@.local(idx as int) is Some,
            old(self)@.local(idx as int)->0.layers.frozen_layer is Some,
            forall|q: RedoRequest| call_requires(*redo, (q,)),
        ensures
            final(self).wf(),
            flush_post(old(self)@, final(self)@, idx as int, reconstruct_pages, r, *redo),
    {
        let ghost repo0 = self@;
        let ghost tl0 = self@.local(idx as int)->0;
        let ghost fv = tl0.layers.frozen_layer->0;
        let mut images: Vec<Layer> = Vec::new();
        let tl = match self.local_at(idx) {
            Some(tl) => tl,
            None => { return Err(CheckpointError::NotLocal); },
        };
        let frozen = match &tl.layers.frozen_layer {
            Some(l) => l,
            None => { return Err(CheckpointError::NotLocal); },
        };
        let end = frozen.get_end_lsn();
        let lsn = Lsn(end.0 - 1);
        assert(layers_view(images@) =~= Seq::empty());
        if reconstruct_pages {
            let n: usize = frozen.seg_count();
            let mut k: usize = 0;
            while k < n
                invariant
                    k <= n,
                    n == fv.segs.len(),
                    frozen@ == fv,
                    self@ == repo0,
                    *self == *old(self),
                    lsn.0 < u64::MAX,
                    forall|q: RedoRequest| call_requires(*redo, (q,)),
                    repo0.images_upto(idx as int, fv, lsn, k as int, layers_view(images@), *redo),
                    forall|i: int| 0 <= i < images@.len() ==> (#[trigger] images@[i])@.end_lsn is Some,
                decreases n - k,
            {
                let seg = frozen.seg_at(k).seg;
                let ghost before = layers_view(images@);
                match frozen.get_seg_size(seg, lsn) {
                    Some(sz) => {
                        if sz > RELISH_SEG_SIZE || seg.segno as u64 * RELISH_SEG_SIZE as u64 + sz as u64
                            > u32::MAX as u64 + 1 {
                            assert(bad_size(fv.segs[k as int].seg, fv.seg_size(fv.segs[k as int].seg, lsn)));
                            return Err(CheckpointError::BadSegment);
                        }
                        match self.create_image(idx, frozen, seg, sz, lsn, redo) {
                            Err(e) => {
                                return Err(CheckpointError::Read(e));
                            },
                            Ok(l) => {
                                images.push(l);
                                assert(layers_view(images@).drop_last() =~= before);
                            },
                        }
                    },
                    None => {},
                }
                k = k + 1;
            }
        }
        let ghost entries0 = self.timelines@;
        let ghost imgs = layers_view(images@);
        let tl = self.local_mut(idx);
        let out = tl.finish_flush(images);
        proof {
            let t = self.timelines@[idx as int]->Local_0;
            lemma_update_view(entries0, idx as int, t);
            assert forall|i: int| 0 <= i < self.timelines@.len() implies (#[trigger] self.timelines@[i]).wf() by {
                if i != idx {
                    assert(self.timelines@[i] == entries0[i]);
                }
            }
            assert(self@ == repo0.with_local(idx as int, tl0.flushed(imgs)));
            assert(flush_images(repo0, idx as int, reconstruct_pages, imgs, *redo));
        }
        Ok(out)
    }
}

/// Whether `images` are the image layers that a flush of the frozen layer
/// of the timeline at `idx` makes: none where none are asked for, else
/// one for each segment that the frozen layer covers and that exists at
/// the layer's last LSN.
pub open spec fn flush_images<F: Fn(RedoRequest) -> Result<Bytes, WalRedoError>>(
    repo: RepoView,
    idx: int,
    reconstruct_pages: bool,
    images: Seq<LayerView>,
    redo: F,
) -> bool {
    let tl = repo.local(idx)->0;
    let frozen = tl.layers.frozen_layer->0;
    if reconstruct_pages {
        repo.images_upto(idx, frozen, tl.frozen_last_lsn(), frozen.segs.len() as int, images, redo)
    } else {
        images.len() == 0
    }
}

/// What a flush of the frozen layer of the timeline at `idx` does.
///
/// Where it succeeds, the frozen layer has become a delta layer among
/// the flushed ones, followed by the images made; the metadata handed
/// out names the frozen layer's last LSN, and `disk_consistent_lsn`
/// stays where it was until that LSN is made known. Where it fails,
/// nothing has changed, images were asked for, and a segment of the
/// frozen layer is bad or one of its pages did not come out. A flush
/// without images succeeds.
pub open spec fn flush_post<F: Fn(RedoRequest) -> Result<Bytes, WalRedoError>>(
    before: RepoView,
    after: RepoView,
    idx: int,
    reconstruct_pages: bool,
    r: Result<FlushOutcome, CheckpointError>,
    redo: F,
) -> bool {
    let tl = before.local(idx)->0;
    let frozen = tl.layers.frozen_layer->0;
    match r {
        Ok(out) => exists|images: Seq<LayerView>|
            #![trigger tl.flushed(images)]
            flush_images(before, idx, reconstruct_pages, images, redo) && after == before.with_local(
                idx,
                tl.flushed(images),
            ) && out == tl.flush_outcome(images),
        Err(e) => after == before && reconstruct_pages && match e {
            CheckpointError::NotLocal => false,
            CheckpointError::BadSegment => RepoView::bad_segment(frozen, tl.frozen_last_lsn()),
            CheckpointError::Read(x) => before.image_fails(idx, frozen, tl.frozen_last_lsn(), x, redo),
        },
    }
}

impl LayeredTimeline {
    /// Puts the frozen layer among the flushed ones as a delta layer,
    /// with `images` after it.
    pub(crate) fn finish_flush(&mut self, images: Vec<Layer>) -> (out: FlushOutcome)
        requires
            old(self).wf(),
            old(self)@.layers.frozen_layer is Some,
            forall|i: int| 0 <= i < images@.len() ==> (#[trigger] images@[i])@.end_lsn is Some,
        ensures
            final(self).wf(),
            final(self)@ == old(self)@.flushed(layers_view(images@)),
            out == old(self)@.flush_outcome(layers_view(images@)),
    {
        let mut images = images;
        let ghost imgs0 = images@;
        let ghost hist0 = self.layers.historic@;
        let frozen = match self.layers.frozen_layer.take() {
            Some(l) => l,
            None => {
                proof {
                    assert(false);
                }
                Layer::create(Lsn(0), Lsn(0))
            },
        };
        let end = frozen.get_end_lsn();
        let new_dcl = Lsn(end.0 - 1);
        let first_new_layer = self.layers.historic.len();
        let new_images = images.len();
        let delta = frozen.into_delta();
        self.layers.historic.push(delta);
        self.layers.historic.append(&mut images);
        assert(layers_view(self.layers.historic@) =~= layers_view(hist0).push(delta@) + layers_view(imgs0));
        let moved = new_dcl.0 != self.disk_consistent_lsn.0;
        let upload = moved && self.upload_relishes;
        let metadata = if moved {
            Some(
                TimelineMetadata {
                    disk_consistent_lsn: new_dcl,
                    prev_record_lsn: if new_dcl.0 == self.last_record_lsn.last.0 {
                        Some(self.last_record_lsn.prev)
                    } else {
                        None
                    },
                    ancestor_timeline: self.ancestor_timeline,
                    ancestor_lsn: self.ancestor_lsn,
                    latest_gc_cutoff_lsn: self.latest_gc_cutoff_lsn,
                    initdb_lsn: self.initdb_lsn,
                },
            )
        } else {
            None
        };
        FlushOutcome { first_new_layer, new_images, metadata, upload }
    }

    /// Makes `lsn` known as the LSN up to which everything is on disk,
    /// if it can be; says whether it was.
    pub(crate) fn publish(&mut self, lsn: Lsn) -> (r: bool)
        requires
            old(self).wf(),
        ensures
            final(self).wf(),
            r == old(self)@.publishable(lsn),
            r ==> final(self)@ == (TimelineView { disk_consistent_lsn: lsn, ..old(self)@ }),
            !r ==> final(self)@ == old(self)@,
    {
        if !(self.disk_consistent_lsn.0 < lsn.0 && lsn.0 <= self.last_record_lsn.last.0) {
            return false;
        }
        match &self.layers.frozen_layer {
            Some(l) => {
                if lsn.0 >= l.get_end_lsn().0 {
                    return false;
                }
            },
            None => {},
        }
        match &self.layers.open_layer {
            Some(l) => {
                if lsn.0 >= l.get_start_lsn().0 {
                    return false;
                }
            },
            None => {},
        }
        self.disk_consistent_lsn = lsn;
        true
    }

    /// Whether a checkpoint freezes the open layer.
    pub(crate) fn should_freeze(&self, distance: Option<u64>) -> (r: bool)
        ensures
            r == self@.should_freeze(distance),
    {
        match &self.layers.open_layer {
            Some(l) => match distance {
                Some(d) => self.last_record_lsn.last.widening_sub(l.oldest_lsn) > d as i128,
                None => true,
            },
            None => false,
        }
    }

    /// Freezes the open layer at the head.
    pub(crate) fn freeze_open_layer(&mut self)
        requires
            old(self).wf(),
            old(self)@.layers.open_layer is Some,
            old(self)@.layers.frozen_layer is None,
        ensures
            final(self).wf(),
            final(self)@ == old(self)@.freeze_open(),
    {
        let end = Lsn(self.last_record_lsn.last.0 + 1);
        let open = self.layers.open_layer.take();
        match open {
            Some(l) => {
                let mut l = l;
                l.end_lsn = Some(end);
                self.layers.frozen_layer = Some(l);
            },
            None => {},
        }
        self.layers.next_open_layer_at = Some(end);
    }
}

/// What a checkpoint hands back: what each flush it made leaves to be
/// done outside, and why it stopped, if it did not get through.
pub struct CheckpointOutcome {
    pub flushes: Vec<FlushOutcome>,
    pub error: Option<CheckpointError>,
}

impl View for CheckpointOutcome {
    type V = (Seq<FlushOutcome>, Option<CheckpointError>);

    open spec fn view(&self) -> (Seq<FlushOutcome>, Option<CheckpointError>) {
        (self.flushes@, self.error)
    }
}

/// The first step of a checkpoint: a layer that is frozen already is flushed.
pub open spec fn checkpoint_first<F: Fn(RedoRequest) -> Result<Bytes, WalRedoError>>(
    before: RepoView,
    mid: RepoView,
    idx: int,
    reconstruct_pages: bool,
    r: (Seq<FlushOutcome>, Option<CheckpointError>),
    redo: F,
) -> bool {
    if before.local(idx)->0.layers.frozen_layer is Some {
        exists|fr: Result<FlushOutcome, CheckpointError>|
            #![trigger flush_post(before, mid, idx, reconstruct_pages, fr, redo)]
            flush_post(before, mid, idx, reconstruct_pages, fr, redo) && r == match fr {
                Ok(o) => (seq![o], None::<CheckpointError>),
                Err(e) => (Seq::<FlushOutcome>::empty(), Some(e)),
            }
    } else {
        mid == before && r == (Seq::<FlushOutcome>::empty(), None::<CheckpointError>)
    }
}

/// The second step of a checkpoint: the open layer, where it is due, is
/// frozen and then flushed. A flush that fails leaves the layer frozen.
pub open spec fn checkpoint_second<F: Fn(RedoRequest) -> Result<Bytes, WalRedoError>>(
    mid: RepoView,
    after: RepoView,
    idx: int,
    distance: Option<u64>,
    reconstruct_pages: bool,
    first: (Seq<FlushOutcome>, Option<CheckpointError>),
    r: (Seq<FlushOutcome>, Option<CheckpointError>),
    redo: F,
) -> bool {
    if first.1 is Some || !mid.local(idx)->0.should_freeze(distance) {
        after == mid && r == first
    } else {
        let frozen = mid.with_local(idx, mid.local(idx)->0.freeze_open());
        exists|fr: Result<FlushOutcome, CheckpointError>|
            #![trigger flush_post(frozen, after, idx, reconstruct_pages, fr, redo)]
            flush_post(frozen, after, idx, reconstruct_pages, fr, redo) && r == match fr {
                Ok(o) => (first.0.push(o), None::<CheckpointError>),
                Err(e) => (first.0, Some(e)),
            }
    }
}

/// What a checkpoint of the timeline at `idx` does: its two steps, one after the other.
pub open spec fn checkpoint_post<F: Fn(RedoRequest) -> Result<Bytes, WalRedoError>>(
    before: RepoView,
    after: RepoView,
    idx: int,
    distance: Option<u64>,
    reconstruct_pages: bool,
    r: (Seq<FlushOutcome>, Option<CheckpointError>),
    redo: F,
) -> bool {
    if before.local(idx) is None {
        after == before && r == (Seq::<FlushOutcome>::empty(), Some(CheckpointError::NotLocal))
    } else {
        exists|mid: RepoView, first: (Seq<FlushOutcome>, Option<CheckpointError>)|
            #![trigger checkpoint_first(before, mid, idx, reconstruct_pages, first, redo)]
            checkpoint_first(before, mid, idx, reconstruct_pages, first, redo) && checkpoint_second(
                mid,
                after,
                idx,
                distance,
                reconstruct_pages,
                first,
                r,
                redo,
            )
    }
}

impl LayeredRepository {
    /// Brings the timeline at `idx` to where nothing is frozen and
    /// nothing open is due to be: flushes what is frozen, then freezes
    /// and flushes what is open, if its first record lies more than
    /// `checkpoint_distance` bytes behind the head, or in any case where
    /// no distance is given.
    pub(crate) fn checkpoint_internal<F: Fn(RedoRequest) -> Result<Bytes, WalRedoError>>(
        &mut self,
        idx: usize,
        checkpoint_distance: Option<u64>,
        reconstruct_pages: bool,
        redo: &F,
    ) -> (r: CheckpointOutcome)
        requires
            old(self).wf(),
            forall|q: RedoRequest| call_requires(*redo, (q,)),
        ensures
            final(self).wf(),
            checkpoint_post(old(self)@, final(self)@, idx as int, checkpoint_distance, reconstruct_pages, r@, *redo),
    {
        let ghost before = self@;
        let mut outs: Vec<FlushOutcome> = Vec::new();
        let has_frozen = match self.local_at(idx) {
            Some(tl) => tl.layers.frozen_layer.is_some(),
            None => { return CheckpointOutcome { flushes: outs, error: Some(CheckpointError::NotLocal) }; },
        };
        if has_frozen {
            let fr = self.flush_frozen_layer(idx, reconstruct_pages, redo);
            match fr {
                Ok(o) => {
                    outs.push(o);
                    assert(outs@ =~= seq![o]);
                },
                Err(e) => {
                    let r = CheckpointOutcome { flushes: outs, error: Some(e) };
                    proof {
                        assert(checkpoint_first(before, self@, idx as int, reconstruct_pages, r@, *redo));
                        assert(checkpoint_second(
                            self@,
                            self@,
                            idx as int,
                            checkpoint_distance,
                            reconstruct_pages,
                            r@,
                            r@,
                            *redo,
                        ));
                    }
                    return r;
                },
            }
        }
        let ghost mid = self@;
        let ghost first = (outs@, None::<CheckpointError>);
        assert(checkpoint_first(before, mid, idx as int, reconstruct_pages, first, *redo));
        let due = match self.local_at(idx) {
            Some(tl) => tl.should_freeze(checkpoint_distance),
            None => false,
        };
        if due {
            let ghost entries0 = self.timelines@;
            let tl = self.local_mut(idx);
            tl.freeze_open_layer();
            proof {
                let t = self.timelines@[idx as int]->Local_0;
                lemma_update_view(entries0, idx as int, t);
                assert forall|i: int| 0 <= i < self.timelines@.len() implies (#[trigger] self.timelines@[i]).wf() by {
                    if i != idx {
                        assert(self.timelines@[i] == entries0[i]);
                    }
                }
            }
            let ghost frozen = self@;
            assert(frozen.timelines =~= mid.with_local(idx as int, mid.local(idx as int)->0.freeze_open()).timelines);
            assert(frozen == mid.with_local(idx as int, mid.local(idx as int)->0.freeze_open()));
            let fr = self.flush_frozen_layer(idx, reconstruct_pages, redo);
            let ghost outs0 = outs@;
            let r = match fr {
                Ok(o) => {
                    outs.push(o);
                    assert(outs@ == outs0.push(o));
                    CheckpointOutcome { flushes: outs, error: None }
                },
                Err(e) => CheckpointOutcome { flushes: outs, error: Some(e) },
            };
            proof {
                assert(flush_post(frozen, self@, idx as int, reconstruct_pages, fr, *redo));
                assert(r@ == match fr {
                    Ok(o) => (outs0.push(o), None::<CheckpointError>),
                    Err(e) => (outs0, Some(e)),
                });
                assert(checkpoint_second(
                    mid,
                    self@,
                    idx as int,
                    checkpoint_distance,
                    reconstruct_pages,
                    first,
                    r@,
                    *redo,
                ));
            }
            r
        } else {
            proof {
                assert(checkpoint_second(
                    mid,
                    self@,
                    idx as int,
                    checkpoint_distance,
                    reconstruct_pages,
                    first,
                    first,
                    *redo,
                ));
            }
            CheckpointOutcome { flushes: outs, error: None }
        }
    }

    pub(crate) fn checkpoint_at<F: Fn(RedoRequest) -> Result<Bytes, WalRedoError>>(
        &mut self,
        idx: usize,
        cconf: CheckpointConfig,
        redo: &F,
    ) -> (r: CheckpointOutcome)
        requires
            old(self).wf(),
            forall|q: RedoRequest| call_requires(*redo, (q,)),
        ensures
            final(self).wf(),
            checkpoint_post(
                old(self)@,
                final(self)@,
                idx as int,
                cconf.distance(),
                cconf.reconstruct_pages(),
                r@,
                *redo,
            ),
    {
        match cconf {
            CheckpointConfig::Flush => self.checkpoint_internal(idx, Some(0), false, redo),
            CheckpointConfig::Forced => self.checkpoint_internal(idx, None, true, redo),
            CheckpointConfig::Distance(distance) => self.checkpoint_internal(idx, Some(distance), true, redo),
        }
    }

    /// Makes known that the layers and the metadata of a flush are on
    /// disk: `disk_consistent_lsn` of the timeline moves to `lsn`, the
    /// one that the saved metadata gives. It moves forward only, not
    /// past the head, and not to where something is still held in
    /// memory; says whether it moved.
    pub fn publish_disk_consistent_lsn(&mut self, timelineid: ZTimelineId, lsn: Lsn) -> (r: bool)
        requires
            old(self).wf(),
        ensures
            final(self).wf(),
            r == (old(self)@.local(old(self)@.read_index(timelineid)) is Some && old(self)@.local(
                old(self)@.read_index(timelineid),
            )->0.publishable(lsn)),
            r ==> final(self)@ == old(self)@.with_local(
                old(self)@.read_index(timelineid),
                TimelineView {
                    disk_consistent_lsn: lsn,
                    ..old(self)@.local(old(self)@.read_index(timelineid))->0
                },
            ),
            !r ==> final(self)@ == old(self)@,
    {
        let idx = match self.find_timeline(timelineid) {
            Some(idx) => idx,
            None => { return false; },
        };
        if self.local_at(idx).is_none() {
            return false;
        }
        let ghost entries0 = self.timelines@;
        let ghost before = self@;
        let tl = self.local_mut(idx);
        let r = tl.publish(lsn);
        proof {
            let t = self.timelines@[idx as int]->Local_0;
            lemma_update_view(entries0, idx as int, t);
            assert forall|i: int| 0 <= i < self.timelines@.len() implies (#[trigger] self.timelines@[i]).wf() by {
                if i != idx {
                    assert(self.timelines@[i] == entries0[i]);
                }
            }
            if !r {
                assert(self@.timelines =~= before.timelines);
            }
        }
        r
    }

    /// Flushes to disk what the timeline holds in memory, as far as `cconf` asks.
    pub fn checkpoint<F: Fn(RedoRequest) -> Result<Bytes, WalRedoError>>(
        &mut self,
        timelineid: ZTimelineId,
        cconf: CheckpointConfig,
        redo: &F,
    ) -> (r: CheckpointOutcome)
        requires
            old(self).wf(),
            forall|q: RedoRequest| call_requires(*redo, (q,)),
        ensures
            final(self).wf(),
            checkpoint_post(
                old(self)@,
                final(self)@,
                old(self)@.read_index(timelineid),
                cconf.distance(),
                cconf.reconstruct_pages(),
                r@,
                *redo,
            ),
    {
        match self.find_timeline(timelineid) {
            Some(idx) => self.checkpoint_at(idx, cconf, redo),
            None => CheckpointOutcome { flushes: Vec::new(), error: Some(CheckpointError::NotLocal) },
        }
    }

    /// Checkpoints every loaded timeline, in the order of their places,
    /// and stops at the first that does not get through.
    pub fn checkpoint_iteration<F: Fn(RedoRequest) -> Result<Bytes, WalRedoError>>(
        &mut self,
        cconf: CheckpointConfig,
        redo: &F,
    ) -> (r: CheckpointRound)
        requires
            old(self).wf(),
            forall|q: RedoRequest| call_requires(*redo, (q,)),
        ensures
            final(self).wf(),
            checkpoint_chain(old(self)@, final(self)@, old(self)@.timelines.len() as int, cconf, r@, *redo),
    {
        let ghost before = self@;
        let n: usize = self.timelines.len();
        let mut done: Vec<TimelineFlush> = Vec::new();
        let mut k: usize = 0;
        let ghost mut states: Seq<RepoView> = seq![before];
        let ghost mut results: Seq<RoundView> = seq![(Seq::empty(), None::<CheckpointError>)];
        assert(timeline_flushes(done@) =~= Seq::empty());
        while k < n
            invariant
                k <= n,
                n == before.timelines.len(),
                before == old(self)@,
                self.wf(),
                forall|q: RedoRequest| call_requires(*redo, (q,)),
                checkpoint_trace(
                    before,
                    self@,
                    k as int,
                    cconf,
                    (timeline_flushes(done@), None::<CheckpointError>),
                    states,
                    results,
                    *redo,
                ),
            decreases n - k,
        {
            let ghost mid = self@;
            let ghost sofar = timeline_flushes(done@);
            let ghost rp = (sofar, None::<CheckpointError>);
            let id = match self.local_at(k) {
                Some(tl) => Some(tl.timelineid),
                None => None,
            };
            match id {
                None => {},
                Some(id) => {
                    let cr = self.checkpoint_at(k, cconf, redo);
                    let ghost crv = cr@;
                    let error = cr.error;
                    done.push(TimelineFlush { timelineid: id, outcomes: cr.flushes });
                    assert(timeline_flushes(done@) =~= sofar.push((id, crv.0)));
                    match error {
                        Some(e) => {
                            let r = CheckpointRound { timelines: done, error: Some(e) };
                            proof {
                                assert(checkpoint_step(mid, self@, k as int, cconf, rp, r@, *redo));
                                lemma_trace_grows(before, mid, self@, k as int, cconf, rp, r@, states, results, *redo);
                                lemma_trace_err(
                                    before,
                                    self@,
                                    k as int + 1,
                                    n as int,
                                    cconf,
                                    r@,
                                    states.push(self@),
                                    results.push(r@),
                                    *redo,
                                );
                            }
                            return r;
                        },
                        None => {},
                    }
                },
            }
            proof {
                let r = (timeline_flushes(done@), None::<CheckpointError>);
                assert(checkpoint_step(mid, self@, k as int, cconf, rp, r, *redo));
                lemma_trace_grows(before, mid, self@, k as int, cconf, rp, r, states, results, *redo);
                states = states.push(self@);
                results = results.push(r);
            }
            k = k + 1;
        }
        CheckpointRound { timelines: done, error: None }
    }
}

/// The flushes of one timeline in a round of checkpoints.
pub struct TimelineFlush {
    pub timelineid: ZTimelineId,
    pub outcomes: Vec<FlushOutcome>,
}

pub open spec fn timeline_flushes(s: Seq<TimelineFlush>) -> Seq<(ZTimelineId, Seq<FlushOutcome>)> {
    Seq::new(s.len(), |i: int| (s[i].timelineid, s[i].outcomes@))
}

/// What a round of checkpoints hands back: the flushes of each timeline
/// it came to, and why it stopped, if it did not get through.
pub struct CheckpointRound {
    pub timelines: Vec<TimelineFlush>,
    pub error: Option<CheckpointError>,
}

pub type RoundView = (Seq<(ZTimelineId, Seq<FlushOutcome>)>, Option<CheckpointError>);

impl View for CheckpointRound {
    type V = RoundView;

    open spec fn view(&self) -> RoundView {
        (timeline_flushes(self.timelines@), self.error)
    }
}

/// What a round of checkpoints does at place `i`, given how it went up
/// to there: nothing once it has stopped, nothing where no timeline is
/// loaded, else a checkpoint of the timeline.
pub open spec fn checkpoint_step<F: Fn(RedoRequest) -> Result<Bytes, WalRedoError>>(
    mid: RepoView,
    after: RepoView,
    i: int,
    cconf: CheckpointConfig,
    rp: RoundView,
    r: RoundView,
    redo: F,
) -> bool {
    if rp.1 is Some || mid.local(i) is None {
        after == mid && r == rp
    } else {
        exists|cr: (Seq<FlushOutcome>, Option<CheckpointError>)|
            #![trigger checkpoint_post(mid, after, i, cconf.distance(), cconf.reconstruct_pages(), cr, redo)]
            checkpoint_post(mid, after, i, cconf.distance(), cconf.reconstruct_pages(), cr, redo) && r == (
                rp.0.push((mid.local(i)->0.timelineid, cr.0)),
                cr.1,
            )
    }
}

/// The step at place `i` of a round whose states and results are these.
pub open spec fn checkpoint_step_at<F: Fn(RedoRequest) -> Result<Bytes, WalRedoError>>(
    states: Seq<RepoView>,
    results: Seq<RoundView>,
    i: int,
    cconf: CheckpointConfig,
    redo: F,
) -> bool {
    checkpoint_step(states[i], states[i + 1], i, cconf, results[i], results[i + 1], redo)
}

/// `states` and `results` are what a round of checkpoints went through,
/// place by place, from `before` to `after` and `r`.
pub open spec fn checkpoint_trace<F: Fn(RedoRequest) -> Result<Bytes, WalRedoError>>(
    before: RepoView,
    after: RepoView,
    k: int,
    cconf: CheckpointConfig,
    r: RoundView,
    states: Seq<RepoView>,
    results: Seq<RoundView>,
    redo: F,
) -> bool {
    &&& states.len() == k + 1
    &&& results.len() == k + 1
    &&& states[0] == before
    &&& results[0] == (Seq::<(ZTimelineId, Seq<FlushOutcome>)>::empty(), None::<CheckpointError>)
    &&& states[k] == after
    &&& results[k] == r
    &&& forall|i: int| 0 <= i < k ==> #[trigger] checkpoint_step_at(states, results, i, cconf, redo)
}

/// What a round of checkpoints has done once it is through the first
/// `k` places: each loaded timeline among them has been checkpointed in
/// turn, up to the first that did not get through.
pub open spec fn checkpoint_chain<F: Fn(RedoRequest) -> Result<Bytes, WalRedoError>>(
    before: RepoView,
    after: RepoView,
    k: int,
    cconf: CheckpointConfig,
    r: RoundView,
    redo: F,
) -> bool {
    exists|states: Seq<RepoView>, results: Seq<RoundView>|
        #![trigger checkpoint_trace(before, after, k, cconf, r, states, results, redo)]
        checkpoint_trace(before, after, k, cconf, r, states, results, redo)
}

/// A trace that is through `k` places, and the step at place `k`, make a trace through `k + 1`.
pub proof fn lemma_trace_grows<F: Fn(RedoRequest) -> Result<Bytes, WalRedoError>>(
    before: RepoView,
    mid: RepoView,
    after: RepoView,
    k: int,
    cconf: CheckpointConfig,
    rp: RoundView,
    r: RoundView,
    states: Seq<RepoView>,
    results: Seq<RoundView>,
    redo: F,
)
    requires
        k >= 0,
        checkpoint_trace(before, mid, k, cconf, rp, states, results, redo),
        checkpoint_step(mid, after, k, cconf, rp, r, redo),
    ensures
        checkpoint_trace(before, after, k + 1, cconf, r, states.push(after), results.push(r), redo),
{
    let grown_states = states.push(after);
    let grown_results = results.push(r);
    assert forall|i: int| 0 <= i < k + 1 implies #[trigger] checkpoint_step_at(grown_states, grown_results, i, cconf, redo) by {
        if i < k {
            assert(checkpoint_step_at(states, results, i, cconf, redo));
        }
    }
}

/// A round that has stopped within the first `k` places stays as it is to the end.
pub proof fn lemma_trace_err<F: Fn(RedoRequest) -> Result<Bytes, WalRedoError>>(
    before: RepoView,
    after: RepoView,
    k: int,
    n: int,
    cconf: CheckpointConfig,
    r: RoundView,
    states: Seq<RepoView>,
    results: Seq<RoundView>,
    redo: F,
)
    requires
        0 <= k <= n,
        r.1 is Some,
        checkpoint_trace(before, after, k, cconf, r, states, results, redo),
    ensures
        checkpoint_chain(before, after, n, cconf, r, redo),
    decreases n - k,
{
    if k < n {
        assert(checkpoint_step(after, after, k, cconf, r, r, redo));
        lemma_trace_grows(before, after, after, k, cconf, r, r, states, results, redo);
        lemma_trace_err(before, after, k + 1, n, cconf, r, states.push(after), results.push(r), redo);
    }
}

} // verus!
