//! Layers: what one LSN range holds of one or more segments.
//!
//! A layer keeps three lists, each in the order its items were written:
//! the segments it covers, the size changes of those segments, and the page
//! versions. A lookup walks a list from its newest item to its oldest.

use crate::lsn::Lsn;
use crate::page::{
    bytes_clone,
    page_bytes,
    records_view,
    PageReconstructData,
    PageReconstructResult,
    PageVersion,
    PageVersionView,
    ReconstructView,
};
use crate::relish::{SegmentTag, RELISH_SEG_SIZE};
use bytes::Bytes;
use vstd::prelude::*;

verus! {

#[derive(Clone, Copy, Debug, PartialEq, Eq, Structural)]
pub enum LayerKind {
    /// Held in memory: open for writes, or frozen and waiting to be flushed.
    InMemory,
    /// A flushed layer: the page versions and size changes of an LSN range.
    Delta,
    /// A flushed layer: every page of one segment at one LSN.
    Image,
}

/// A segment that a layer covers.
#[derive(Clone, Copy, Debug)]
pub struct CoveredSeg {
    pub seg: SegmentTag,
    /// The segment's size where the layer starts; `None` where it did not exist then.
    pub base_size: Option<u32>,
    /// Whether versions older than the layer's are found in a layer before it.
    pub incremental: bool,
}

/// A change of a segment's size; `None` is a drop.
#[derive(Clone, Copy, Debug)]
pub struct SegEvent {
    pub seg: SegmentTag,
    pub lsn: Lsn,
    pub size: Option<u32>,
}

/// One version of one page.
pub struct PageEntry {
    pub seg: SegmentTag,
    pub blknum: u32,
    pub lsn: Lsn,
    pub pv: PageVersion,
}

pub struct PageEntryView {
    pub seg: SegmentTag,
    pub blknum: u32,
    pub lsn: Lsn,
    pub pv: PageVersionView,
}

impl View for PageEntry {
    type V = PageEntryView;

    open spec fn view(&self) -> PageEntryView {
        PageEntryView { seg: self.seg, blknum: self.blknum, lsn: self.lsn, pv: self.pv@ }
    }
}

pub open spec fn pages_view(s: Seq<PageEntry>) -> Seq<PageEntryView> {
    Seq::new(s.len(), |i: int| s[i]@)
}

/// The newest entry for `seg` among the covered segments.
pub open spec fn find_seg(segs: Seq<CoveredSeg>, seg: SegmentTag) -> Option<CoveredSeg>
    decreases segs.len(),
{
    if segs.len() == 0 {
        None
    } else if segs.last().seg == seg {
        Some(segs.last())
    } else {
        find_seg(segs.drop_last(), seg)
    }
}

/// A segment that is found among the covered ones stands at some place in the list.
pub proof fn lemma_find_seg_some(segs: Seq<CoveredSeg>, seg: SegmentTag)
    requires
        find_seg(segs, seg) is Some,
    ensures
        exists|j: int| 0 <= j < segs.len() && (#[trigger] segs[j]).seg == seg,
    decreases segs.len(),
{
    if segs.last().seg == seg {
        assert(segs[segs.len() - 1].seg == seg);
    } else {
        lemma_find_seg_some(segs.drop_last(), seg);
        let j = choose|j: int| 0 <= j < segs.drop_last().len() && (#[trigger] segs.drop_last()[j]).seg == seg;
        assert(segs[j].seg == seg);
    }
}

/// A segment that stands in the list is found.
pub proof fn lemma_find_seg_present(segs: Seq<CoveredSeg>, seg: SegmentTag, j: int)
    requires
        0 <= j < segs.len(),
        segs[j].seg == seg,
    ensures
        find_seg(segs, seg) is Some,
    decreases segs.len(),
{
    if segs.last().seg != seg {
        lemma_find_seg_present(segs.drop_last(), seg, j);
    }
}

/// The newest size change of `seg` at or before `lsn`.
pub open spec fn latest_event(events: Seq<SegEvent>, seg: SegmentTag, lsn: Lsn) -> Option<SegEvent>
    decreases events.len(),
{
    if events.len() == 0 {
        None
    } else if events.last().seg == seg && events.last().lsn.0 <= lsn.0 {
        Some(events.last())
    } else {
        latest_event(events.drop_last(), seg, lsn)
    }
}

/// Walks the versions of block `blknum` of `seg` at or before `lsn`, newest
/// first, adding to `data`. The walk ends at a version at or below the LSN
/// of an image that `data` already holds (which then stands), at a page
/// image, or at a record that builds the page from nothing; the flag says
/// whether it ended so, or ran out of versions.
pub open spec fn gather(
    pages: Seq<PageEntryView>,
    seg: SegmentTag,
    blknum: u32,
    lsn: Lsn,
    data: ReconstructView,
) -> (ReconstructView, bool)
    decreases pages.len(),
{
    if pages.len() == 0 {
        (data, false)
    } else {
        let e = pages.last();
        if e.seg == seg && e.blknum == blknum && e.lsn.0 <= lsn.0 {
            if data.page_img matches Some(held) && e.lsn.0 <= (held.0).0 {
                (data, true)
            } else {
                match e.pv {
                    PageVersionView::Page(img) => (
                        ReconstructView { records: data.records, page_img: Some((e.lsn, img)) },
                        true,
                    ),
                    PageVersionView::Wal(rec) => {
                        let more = ReconstructView {
                            records: data.records.push((e.lsn, rec)),
                            page_img: data.page_img,
                        };
                        if rec.will_init {
                            (more, true)
                        } else {
                            gather(pages.drop_last(), seg, blknum, lsn, more)
                        }
                    },
                }
            }
        } else {
            gather(pages.drop_last(), seg, blknum, lsn, data)
        }
    }
}

/// A layer's state.
pub struct LayerView {
    pub kind: LayerKind,
    pub start_lsn: Lsn,
    /// The first LSN past the layer; `None` while it is open.
    pub end_lsn: Option<Lsn>,
    pub oldest_lsn: Lsn,
    /// Whether the layer's sizes and pages are at hand. A layer that was taken into the map by the
    /// name of a file that could not be read is not readable.
    pub readable: bool,
    pub segs: Seq<CoveredSeg>,
    pub events: Seq<SegEvent>,
    pub pages: Seq<PageEntryView>,
}

impl LayerView {
    pub open spec fn covers_seg(self, seg: SegmentTag) -> bool {
        find_seg(self.segs, seg) is Some
    }

    pub open spec fn incremental(self, seg: SegmentTag) -> bool {
        find_seg(self.segs, seg) matches Some(c) && c.incremental
    }

    /// The size of `seg` at `lsn`: that of its newest size change at or
    /// before `lsn`, else the size it had where the layer starts. `None`
    /// where it does not exist then.
    pub open spec fn seg_size(self, seg: SegmentTag, lsn: Lsn) -> Option<u32> {
        match latest_event(self.events, seg, lsn) {
            Some(e) => e.size,
            None => match find_seg(self.segs, seg) {
                Some(c) => c.base_size,
                None => None,
            },
        }
    }

    pub open spec fn seg_exists(self, seg: SegmentTag, lsn: Lsn) -> bool {
        self.seg_size(seg, lsn) is Some
    }

    /// The LSN that bounds the layer from above; an open layer is unbounded.
    pub open spec fn end_or_max(self) -> Lsn {
        match self.end_lsn {
            Some(e) => e,
            None => Lsn(u64::MAX),
        }
    }

    /// Whether the layer's last word on its one segment is that it is gone.
    pub open spec fn dropped(self, seg: SegmentTag) -> bool {
        self.covers_seg(seg) && !self.seg_exists(seg, self.end_or_max())
    }

    /// The segment of a layer that covers exactly one.
    pub open spec fn single_seg(self) -> Option<SegmentTag> {
        if self.segs.len() == 1 {
            Some(self.segs[0].seg)
        } else {
            None
        }
    }

    /// What a read of block `blknum` of `seg` at `lsn` gathers in this
    /// layer, and where it goes from here: where the walk ran out of
    /// versions, on to the LSN just below the layer if the segment has a
    /// predecessor, else nowhere.
    pub open spec fn reconstruct(
        self,
        seg: SegmentTag,
        blknum: u32,
        lsn: Lsn,
        data: ReconstructView,
    ) -> (ReconstructView, PageReconstructResult) {
        let (d, complete) = gather(self.pages, seg, blknum, lsn, data);
        if complete {
            (d, PageReconstructResult::Complete)
        } else if self.incremental(seg) && self.start_lsn.0 > 0 {
            (d, PageReconstructResult::Continue(Lsn((self.start_lsn.0 - 1) as u64)))
        } else {
            (d, PageReconstructResult::Missing(self.start_lsn))
        }
    }

    pub open spec fn as_delta(self) -> LayerView {
        if self.end_lsn is Some {
            LayerView { kind: LayerKind::Delta, ..self }
        } else {
            self
        }
    }

    pub open spec fn with_seg(self, c: CoveredSeg) -> LayerView {
        LayerView { segs: self.segs.push(c), ..self }
    }

    pub open spec fn with_event(self, e: SegEvent) -> LayerView {
        LayerView { events: self.events.push(e), ..self }
    }

    pub open spec fn with_page(self, e: PageEntryView) -> LayerView {
        LayerView { pages: self.pages.push(e), ..self }
    }
}

/// The pages of an image layer: block `i` is `imgs[i]`.
pub open spec fn image_pages(seg: SegmentTag, lsn: Lsn, imgs: Seq<Seq<u8>>) -> Seq<PageEntryView> {
    Seq::new(
        imgs.len(),
        |i: int| PageEntryView { seg, blknum: i as u32, lsn, pv: PageVersionView::Page(imgs[i]) },
    )
}

/// The image layer of `seg` at `lsn` with these pages.
pub open spec fn image_layer(seg: SegmentTag, lsn: Lsn, imgs: Seq<Seq<u8>>) -> LayerView {
    LayerView {
        kind: LayerKind::Image,
        start_lsn: lsn,
        end_lsn: Some(Lsn((lsn.0 + 1) as u64)),
        oldest_lsn: lsn,
        readable: true,
        segs: seq![CoveredSeg { seg, base_size: Some(imgs.len() as u32), incremental: false }],
        events: Seq::empty(),
        pages: image_pages(seg, lsn, imgs),
    }
}

/// The layer that stands in the map for a layer file that could not be
/// read: it covers the segment of the file's name over the LSNs of the
/// name; its sizes and pages are not at hand, and a read that comes to
/// it fails. Where relishes are listed, and where GC looks for what a
/// drop hides, it counts as the layer of a segment that exists.
pub open spec fn unread_layer(kind: LayerKind, seg: SegmentTag, start_lsn: Lsn, end_lsn: Lsn) -> LayerView {
    LayerView {
        kind,
        start_lsn,
        end_lsn: Some(end_lsn),
        oldest_lsn: start_lsn,
        readable: false,
        segs: seq![CoveredSeg { seg, base_size: Some(0), incremental: true }],
        events: Seq::empty(),
        pages: Seq::empty(),
    }
}

/// The number that a delta layer file starts with.
pub const DELTA_FILE_MAGIC: u32 = 0x5A61_6E01;

/// The number that an image layer file starts with.
pub const IMAGE_FILE_MAGIC: u32 = 0x5A61_6E02;

/// The kind of layer that a file holds, by the number it starts with.
pub fn layer_kind_of_magic(magic: u32) -> (r: Option<LayerKind>)
    ensures
        r == if magic == DELTA_FILE_MAGIC {
            Some(LayerKind::Delta)
        } else if magic == IMAGE_FILE_MAGIC {
            Some(LayerKind::Image)
        } else {
            None
        },
{
    if magic == DELTA_FILE_MAGIC {
        Some(LayerKind::Delta)
    } else if magic == IMAGE_FILE_MAGIC {
        Some(LayerKind::Image)
    } else {
        None
    }
}

/// A write was sent to a layer that is frozen or flushed.
#[derive(Clone, Copy, Debug, PartialEq, Eq, Structural)]
pub struct LayerFrozen;

pub struct Layer {
    pub(crate) kind: LayerKind,
    pub(crate) start_lsn: Lsn,
    pub(crate) end_lsn: Option<Lsn>,
    pub(crate) oldest_lsn: Lsn,
    pub(crate) readable: bool,
    pub(crate) segs: Vec<CoveredSeg>,
    pub(crate) events: Vec<SegEvent>,
    pub(crate) pages: Vec<PageEntry>,
}

impl View for Layer {
    type V = LayerView;

    open(crate) spec fn view(&self) -> LayerView {
        LayerView {
            kind: self.kind,
            start_lsn: self.start_lsn,
            end_lsn: self.end_lsn,
            oldest_lsn: self.oldest_lsn,
            readable: self.readable,
            segs: self.segs@,
            events: self.events@,
            pages: pages_view(self.pages@),
        }
    }
}

impl Layer {
    /// An open in-memory layer that starts at `start_lsn`; `oldest_lsn` is
    /// the LSN of the first record it is made for.
    pub fn create(start_lsn: Lsn, oldest_lsn: Lsn) -> (l: Layer)
        ensures
            l@ == (LayerView {
                kind: LayerKind::InMemory,
                start_lsn,
                end_lsn: None,
                oldest_lsn,
                readable: true,
                segs: Seq::empty(),
                events: Seq::empty(),
                pages: Seq::empty(),
            }),
    {
        let l = Layer {
            kind: LayerKind::InMemory,
            start_lsn,
            end_lsn: None,
            oldest_lsn,
            readable: true,
            segs: Vec::new(),
            events: Vec::new(),
            pages: Vec::new(),
        };
        assert(l@.pages =~= Seq::empty());
        l
    }

    /// The layer that stands in the map for a layer file that could not be read.
    pub fn unread(kind: LayerKind, seg: SegmentTag, start_lsn: Lsn, end_lsn: Lsn) -> (l: Layer)
        ensures
            l@ == unread_layer(kind, seg, start_lsn, end_lsn),
    {
        let mut segs: Vec<CoveredSeg> = Vec::new();
        segs.push(CoveredSeg { seg, base_size: Some(0), incremental: true });
        let l = Layer {
            kind,
            start_lsn,
            end_lsn: Some(end_lsn),
            oldest_lsn: start_lsn,
            readable: false,
            segs,
            events: Vec::new(),
            pages: Vec::new(),
        };
        assert(l@.segs =~= seq![CoveredSeg { seg, base_size: Some(0), incremental: true }]);
        assert(l@.events =~= Seq::empty());
        assert(l@.pages =~= Seq::empty());
        l
    }

    /// Whether the layer's sizes and pages are at hand.
    pub fn is_readable(&self) -> (r: bool)
        ensures
            r == self@.readable,
    {
        self.readable
    }

    pub fn get_kind(&self) -> (r: LayerKind)
        ensures
            r == self@.kind,
    {
        self.kind
    }

    pub fn get_start_lsn(&self) -> (r: Lsn)
        ensures
            r == self@.start_lsn,
    {
        self.start_lsn
    }

    pub fn get_end_lsn(&self) -> (r: Lsn)
        ensures
            r == self@.end_or_max(),
    {
        match self.end_lsn {
            Some(e) => e,
            None => Lsn(u64::MAX),
        }
    }

    pub fn get_oldest_lsn(&self) -> (r: Lsn)
        ensures
            r == self@.oldest_lsn,
    {
        self.oldest_lsn
    }

    pub fn is_frozen(&self) -> (r: bool)
        ensures
            r == self@.end_lsn is Some,
    {
        self.end_lsn.is_some()
    }

    pub fn is_in_memory(&self) -> (r: bool)
        ensures
            r == (self@.kind == LayerKind::InMemory),
    {
        match self.kind {
            LayerKind::InMemory => true,
            _ => false,
        }
    }

    fn lookup_seg(&self, seg: SegmentTag) -> (r: Option<CoveredSeg>)
        ensures
            r == find_seg(self@.segs, seg),
    {
        let mut i: usize = self.segs.len();
        assert(self.segs@.take(i as int) =~= self.segs@);
        while i > 0
            invariant
                i <= self.segs@.len(),
                find_seg(self.segs@, seg) == find_seg(self.segs@.take(i as int), seg),
            decreases i,
        {
            assert(self.segs@.take(i as int).drop_last() =~= self.segs@.take(i - 1));
            i = i - 1;
            if self.segs[i].seg == seg {
                return Some(self.segs[i]);
            }
        }
        assert(self.segs@.take(0).len() == 0);
        None
    }

    pub fn covers_seg(&self, seg: SegmentTag) -> (r: bool)
        ensures
            r == self@.covers_seg(seg),
    {
        self.lookup_seg(seg).is_some()
    }

    pub fn is_incremental(&self, seg: SegmentTag) -> (r: bool)
        ensures
            r == self@.incremental(seg),
    {
        match self.lookup_seg(seg) {
            Some(c) => c.incremental,
            None => false,
        }
    }

    pub fn get_seg_size(&self, seg: SegmentTag, lsn: Lsn) -> (r: Option<u32>)
        ensures
            r == self@.seg_size(seg, lsn),
    {
        let mut i: usize = self.events.len();
        assert(self.events@.take(i as int) =~= self.events@);
        while i > 0
            invariant
                i <= self.events@.len(),
                latest_event(self.events@, seg, lsn) == latest_event(
                    self.events@.take(i as int),
                    seg,
                    lsn,
                ),
            decreases i,
        {
            assert(self.events@.take(i as int).drop_last() =~= self.events@.take(i - 1));
            i = i - 1;
            if self.events[i].seg == seg && self.events[i].lsn.0 <= lsn.0 {
                return self.events[i].size;
            }
        }
        assert(self.events@.take(0).len() == 0);
        match self.lookup_seg(seg) {
            Some(c) => c.base_size,
            None => None,
        }
    }

    pub fn get_seg_exists(&self, seg: SegmentTag, lsn: Lsn) -> (r: bool)
        ensures
            r == self@.seg_exists(seg, lsn),
    {
        self.get_seg_size(seg, lsn).is_some()
    }

    /// How many segments the layer has taken into its coverage.
    pub fn seg_count(&self) -> (r: usize)
        ensures
            r == self@.segs.len(),
    {
        self.segs.len()
    }

    /// The `i`-th segment taken into the layer's coverage.
    pub fn seg_at(&self, i: usize) -> (r: CoveredSeg)
        requires
            i < self@.segs.len(),
        ensures
            r == self@.segs[i as int],
    {
        self.segs[i]
    }

    /// How many size changes the layer holds.
    pub fn event_count(&self) -> (r: usize)
        ensures
            r == self@.events.len(),
    {
        self.events.len()
    }

    /// The `i`-th size change that the layer holds.
    pub fn event_at(&self, i: usize) -> (r: SegEvent)
        requires
            i < self@.events.len(),
        ensures
            r == self@.events[i as int],
    {
        self.events[i]
    }

    /// How many page versions the layer holds.
    pub fn page_count(&self) -> (r: usize)
        ensures
            r == self@.pages.len(),
    {
        self.pages.len()
    }

    /// The `i`-th page version that the layer holds.
    pub fn page_at(&self, i: usize) -> (r: &PageEntry)
        requires
            i < self@.pages.len(),
        ensures
            r@ == self@.pages[i as int],
    {
        &self.pages[i]
    }

    /// The one segment that the layer covers, if it covers exactly one.
    pub fn single_seg(&self) -> (r: Option<SegmentTag>)
        ensures
            r == self@.single_seg(),
    {
        if self.segs.len() == 1 {
            Some(self.segs[0].seg)
        } else {
            None
        }
    }

    pub fn is_dropped(&self, seg: SegmentTag) -> (r: bool)
        ensures
            r == self@.dropped(seg),
    {
        self.covers_seg(seg) && !self.get_seg_exists(seg, self.get_end_lsn())
    }

    /// Gathers into `data` what this layer holds for a read of block
    /// `blknum` of `seg` at `lsn`, and says where the read goes from here.
    pub fn get_page_reconstruct_data(
        &self,
        seg: SegmentTag,
        blknum: u32,
        lsn: Lsn,
        data: &mut PageReconstructData,
    ) -> (r: PageReconstructResult)
        ensures
            (final(data)@, r) == self@.reconstruct(seg, blknum, lsn, old(data)@),
    {
        let ghost pv = self@.pages;
        let mut i: usize = self.pages.len();
        let mut complete = false;
        assert(pv.take(i as int) =~= pv);
        while i > 0 && !complete
            invariant
                pv == self@.pages,
                i <= self.pages@.len(),
                !complete ==> gather(pv, seg, blknum, lsn, old(data)@) == gather(
                    pv.take(i as int),
                    seg,
                    blknum,
                    lsn,
                    data@,
                ),
                complete ==> gather(pv, seg, blknum, lsn, old(data)@) == (data@, true),
            decreases i + if complete { 0int } else { 1int },
        {
            assert(pv.take(i as int).drop_last() =~= pv.take(i - 1));
            assert(pv.take(i as int).last() == self.pages@[i - 1]@);
            i = i - 1;
            let e = &self.pages[i];
            if e.seg == seg && e.blknum == blknum && e.lsn.0 <= lsn.0 {
                let shadowed = match &data.page_img {
                    Some(held) => e.lsn.0 <= (held.0).0,
                    None => false,
                };
                if shadowed {
                    complete = true;
                } else {
                    match &e.pv {
                        PageVersion::Page(img) => {
                            data.page_img = Some((e.lsn, bytes_clone(img)));
                            complete = true;
                        },
                        PageVersion::Wal(rec) => {
                            let ghost before = data.records@;
                            let copy = rec.duplicate();
                            data.records.push((e.lsn, copy));
                            assert(records_view(data.records@) =~= records_view(before).push(
                                (e.lsn, rec@),
                            ));
                            if rec.will_init {
                                complete = true;
                            }
                        },
                    }
                }
            }
        }
        if complete {
            PageReconstructResult::Complete
        } else {
            assert(pv.take(0).len() == 0);
            if self.is_incremental(seg) && self.start_lsn.0 > 0 {
                PageReconstructResult::Continue(Lsn(self.start_lsn.0 - 1))
            } else {
                PageReconstructResult::Missing(self.start_lsn)
            }
        }
    }

    /// Takes `seg` into the layer's coverage, with the size it has where
    /// the layer starts, if it exists there.
    pub fn register_seg(&mut self, seg: SegmentTag, base_size: Option<u32>) -> (r: Result<(), LayerFrozen>)
        ensures
            old(self)@.end_lsn is Some ==> r is Err && final(self)@ == old(self)@,
            old(self)@.end_lsn is None ==> r is Ok && final(self)@ == old(self)@.with_seg(
                CoveredSeg { seg, base_size, incremental: base_size is Some },
            ),
    {
        if self.end_lsn.is_some() {
            return Err(LayerFrozen);
        }
        self.segs.push(CoveredSeg { seg, base_size, incremental: base_size.is_some() });
        Ok(())
    }

    /// Records that `seg` has `size` blocks from `lsn` on; `None` drops it.
    fn put_event(&mut self, seg: SegmentTag, lsn: Lsn, size: Option<u32>) -> (r: Result<(), LayerFrozen>)
        ensures
            old(self)@.end_lsn is Some ==> r is Err && final(self)@ == old(self)@,
            old(self)@.end_lsn is None ==> r is Ok && final(self)@ == old(self)@.with_event(
                SegEvent { seg, lsn, size },
            ),
    {
        if self.end_lsn.is_some() {
            return Err(LayerFrozen);
        }
        self.events.push(SegEvent { seg, lsn, size });
        Ok(())
    }

    /// Records that `seg` comes into being at `lsn`, with `size` blocks.
    pub fn put_creation(&mut self, seg: SegmentTag, lsn: Lsn, size: u32) -> (r: Result<(), LayerFrozen>)
        ensures
            old(self)@.end_lsn is Some ==> r is Err && final(self)@ == old(self)@,
            old(self)@.end_lsn is None ==> r is Ok && final(self)@ == old(self)@.with_event(
                SegEvent { seg, lsn, size: Some(size) },
            ),
    {
        self.put_event(seg, lsn, Some(size))
    }

    /// Records that `seg` has `size` blocks from `lsn` on.
    pub fn put_seg_size(&mut self, seg: SegmentTag, lsn: Lsn, size: u32) -> (r: Result<(), LayerFrozen>)
        ensures
            old(self)@.end_lsn is Some ==> r is Err && final(self)@ == old(self)@,
            old(self)@.end_lsn is None ==> r is Ok && final(self)@ == old(self)@.with_event(
                SegEvent { seg, lsn, size: Some(size) },
            ),
    {
        self.put_event(seg, lsn, Some(size))
    }

    /// Records that `seg` is gone from `lsn` on.
    pub fn drop_segment(&mut self, seg: SegmentTag, lsn: Lsn) -> (r: Result<(), LayerFrozen>)
        ensures
            old(self)@.end_lsn is Some ==> r is Err && final(self)@ == old(self)@,
            old(self)@.end_lsn is None ==> r is Ok && final(self)@ == old(self)@.with_event(
                SegEvent { seg, lsn, size: None },
            ),
    {
        self.put_event(seg, lsn, None)
    }

    /// Adds a version of block `blknum` of `seg`.
    pub fn put_page_version(
        &mut self,
        seg: SegmentTag,
        blknum: u32,
        lsn: Lsn,
        pv: PageVersion,
    ) -> (r: Result<(), LayerFrozen>)
        ensures
            old(self)@.end_lsn is Some ==> r is Err && final(self)@ == old(self)@,
            old(self)@.end_lsn is None ==> r is Ok && final(self)@ == old(self)@.with_page(
                PageEntryView { seg, blknum, lsn, pv: pv@ },
            ),
    {
        if self.end_lsn.is_some() {
            return Err(LayerFrozen);
        }
        let ghost before = self.pages@;
        self.pages.push(PageEntry { seg, blknum, lsn, pv });
        assert(pages_view(self.pages@) =~= pages_view(before).push(
            PageEntryView { seg, blknum, lsn, pv: pv@ },
        ));
        Ok(())
    }

    /// The image layer of `seg` at `lsn`, which holds `imgs[i]` as block `i`.
    pub fn new_image(seg: SegmentTag, lsn: Lsn, imgs: &Vec<Bytes>) -> (l: Layer)
        requires
            lsn.0 < u64::MAX,
            imgs@.len() <= RELISH_SEG_SIZE,
        ensures
            l@ == image_layer(seg, lsn, Seq::new(imgs@.len(), |i: int| page_bytes(imgs@[i]))),
    {
        let mut pages: Vec<PageEntry> = Vec::new();
        let mut i: usize = 0;
        let n: usize = imgs.len();
        let ghost bytes = Seq::new(imgs@.len(), |i: int| page_bytes(imgs@[i]));
        while i < n
            invariant
                i <= n,
                n == imgs@.len(),
                n <= RELISH_SEG_SIZE,
                bytes == Seq::new(imgs@.len(), |i: int| page_bytes(imgs@[i])),
                pages@.len() == i,
                pages_view(pages@) == image_pages(seg, lsn, bytes.take(i as int)),
            decreases n - i,
        {
            let ghost before = pages@;
            pages.push(
                PageEntry { seg, blknum: i as u32, lsn, pv: PageVersion::Page(bytes_clone(&imgs[i])) },
            );
            i = i + 1;
            assert forall|j: int| 0 <= j < i implies pages_view(pages@)[j] == image_pages(
                seg,
                lsn,
                bytes.take(i as int),
            )[j] by {
                if j < i - 1 {
                    assert(pages_view(before)[j] == image_pages(seg, lsn, bytes.take(i - 1))[j]);
                }
            }
            assert(pages_view(pages@) =~= image_pages(seg, lsn, bytes.take(i as int)));
        }
        assert(bytes.take(n as int) =~= bytes);
        let mut segs: Vec<CoveredSeg> = Vec::new();
        segs.push(CoveredSeg { seg, base_size: Some(n as u32), incremental: false });
        let l = Layer {
            kind: LayerKind::Image,
            start_lsn: lsn,
            end_lsn: Some(Lsn(lsn.0 + 1)),
            oldest_lsn: lsn,
            readable: true,
            segs,
            events: Vec::new(),
            pages,
        };
        assert(l@.segs =~= seq![CoveredSeg { seg, base_size: Some(n as u32), incremental: false }]);
        assert(l@.events =~= Seq::empty());
        l
    }

    /// The delta layer that a frozen in-memory layer is flushed as: the same
    /// contents under another kind. A layer that is not frozen comes back as it is.
    pub fn into_delta(self) -> (l: Layer)
        ensures
            l@ == self@.as_delta(),
    {
        if self.end_lsn.is_some() {
            Layer {
                kind: LayerKind::Delta,
                start_lsn: self.start_lsn,
                end_lsn: self.end_lsn,
                oldest_lsn: self.oldest_lsn,
                readable: self.readable,
                segs: self.segs,
                events: self.events,
                pages: self.pages,
            }
        } else {
            self
        }
    }

    /// Closes the layer to writes: it now ends just below `end_lsn`.
    pub fn freeze(&mut self, end_lsn: Lsn) -> (r: Result<(), LayerFrozen>)
        ensures
            old(self)@.end_lsn is Some ==> r is Err && final(self)@ == old(self)@,
            old(self)@.end_lsn is None ==> r is Ok && final(self)@ == (LayerView {
                end_lsn: Some(end_lsn),
                ..old(self)@
            }),
    {
        if self.end_lsn.is_some() {
            return Err(LayerFrozen);
        }
        self.end_lsn = Some(end_lsn);
        Ok(())
    }
}

} // verus!
