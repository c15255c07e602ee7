//! The read path: from a page and an LSN to the layer that serves it, down
//! the layers and the timelines that this one was branched from, to the
//! image and the records that make the page.

use crate::layer::{Layer, LayerView};
use crate::lsn::{Lsn, ZTimelineId};
use crate::page::{
    image_view,
    page_bytes,
    records_view,
    zero_page,
    zero_page_bytes,
    PageReconstructData,
    PageReconstructResult,
    ReconstructView,
    RedoRequest,
    RedoRequestView,
    WalRecord,
    WalRedoError,
};
use crate::relish::{RelishTag, SegmentTag, RELISH_SEG_SIZE};
use crate::repository::{LayeredRepository, RepoView};
use bytes::Bytes;
use vstd::prelude::*;

verus! {

/// Why a read failed.
#[derive(Clone, Copy, Debug, PartialEq, Eq, Structural)]
pub enum ReadError {
    /// The timeline is not loaded.
    NotLocal,
    /// The read had to go to the timeline that this one was branched from,
    /// and that one is not loaded.
    AncestorNotLocal,
    /// A block other than 0 of a relish that holds a single value.
    InvalidBlock,
    /// The LSN lies beyond the last record taken in.
    LsnAhead,
    /// The search for a layer's predecessor did not lead below the layer.
    LayerCycle,
    /// A layer needs its predecessor, and there is none.
    PredecessorMissing,
    /// Records were found, and no image to replay them over.
    NoBaseImage,
    /// The segment does not exist at the LSN.
    SegmentNotFound,
    /// The relish has more blocks than a block number can count.
    RelishTooLarge,
    /// WAL redo failed.
    Redo,
    /// The read came to a layer whose file could not be read.
    UnreadableLayer,
    /// The sizes add up to more bytes than can be counted.
    SizeOverflow,
}

/// The last segment number that a block number can fall into.
pub const MAX_SEGNO: u32 = 3355443;

/// What is to be done to have a page, once its versions are gathered.
pub enum PagePlan {
    /// The page is this image.
    Image(Seq<u8>),
    /// The page was never written: it is all zeros.
    Zero,
    /// The page is what WAL redo makes of this.
    Redo(RedoRequestView),
}

/// The plan for what was gathered: an image without records is the page;
/// nothing at all, or records that neither start from an image nor build
/// the page from nothing, give a page of zeros; else the records are
/// replayed, oldest first, over the image.
pub open spec fn plan_page(rel: RelishTag, blknum: u32, request_lsn: Lsn, d: ReconstructView) -> PagePlan {
    if d.records.len() == 0 {
        match d.page_img {
            Some(img) => PagePlan::Image(img.1),
            None => PagePlan::Zero,
        }
    } else if d.page_img is None && !d.records.last().1.will_init {
        PagePlan::Zero
    } else {
        PagePlan::Redo(
            RedoRequestView {
                rel,
                blknum,
                lsn: request_lsn,
                base_img: match d.page_img {
                    Some(img) => Some(img.1),
                    None => None,
                },
                records: d.records.reverse(),
            },
        )
    }
}

/// The LSN under which the page that redo makes of `req` may be kept for
/// later reads: that of the newest record, for a relation.
pub open spec fn cache_key(req: RedoRequestView) -> Option<Lsn> {
    if req.rel is Relation && req.records.len() > 0 {
        Some(req.records.last().0)
    } else {
        None
    }
}

/// A page, and the LSN under which it may be kept for later reads.
pub struct MaterializedPage {
    pub img: Bytes,
    pub cache_lsn: Option<Lsn>,
}

/// Whether `r` is what a plan comes to, with `redo` as WAL redo: the image
/// or the zeros of the plan; or, for a plan to replay, what `redo` returned
/// for exactly that request.
pub open spec fn page_result<F: Fn(RedoRequest) -> Result<Bytes, WalRedoError>>(
    plan: PagePlan,
    r: Result<MaterializedPage, ReadError>,
    redo: F,
) -> bool {
    match plan {
        PagePlan::Image(img) => r matches Ok(p) && page_bytes(p.img) == img && p.cache_lsn is None,
        PagePlan::Zero => r matches Ok(p) && page_bytes(p.img) == zero_page_bytes() && p.cache_lsn is None,
        PagePlan::Redo(req) => exists|q: RedoRequest, out: Result<Bytes, WalRedoError>|
            q@ == req && call_ensures(redo, (q,), out) && match out {
                Ok(b) => r matches Ok(p) && p.img == b && p.cache_lsn == cache_key(req),
                Err(_) => r matches Err(e) && e == ReadError::Redo,
            },
    }
}

pub open spec fn found_view(r: Result<Option<(&Layer, Lsn)>, ReadError>) -> Result<
    Option<(LayerView, Lsn)>,
    ReadError,
> {
    match r {
        Ok(Some(f)) => Ok(Some((f.0@, f.1))),
        Ok(None) => Ok(None),
        Err(e) => Err(e),
    }
}

pub open spec fn gathered_view(r: Result<Option<PageReconstructData>, ReadError>) -> Result<
    Option<ReconstructView>,
    ReadError,
> {
    match r {
        Ok(Some(d)) => Ok(Some(d@)),
        Ok(None) => Ok(None),
        Err(e) => Err(e),
    }
}

/// The page kept from an earlier read that counts for a read of `seg`
/// at `lsn`: one of a relation, kept at `lsn` or below.
pub open spec fn held_page(seg: SegmentTag, lsn: Lsn, cached: Option<(Lsn, Seq<u8>)>) -> Option<(Lsn, Seq<u8>)> {
    if seg.rel is Relation && cached is Some && ((cached->0).0).0 <= lsn.0 {
        cached
    } else {
        None
    }
}

impl RepoView {
    /// The layer that serves a read of `seg` at `lsn` on the timeline at
    /// `idx`, and the LSN to read it at.
    ///
    /// With `descend`, a read below the timeline's branch point goes to the
    /// timeline it was branched from, at the same LSN. Else the timeline's
    /// own layers are asked; where none serves the read, it goes on to the
    /// timeline this one was branched from, at the branch point, and on
    /// from there without `descend`. `None` where no layer is found or the
    /// one found says that the segment does not exist; a layer whose file
    /// could not be read says nothing, and the read fails.
    pub open spec fn layer_for_read(self, idx: int, seg: SegmentTag, lsn: Lsn, descend: bool) -> Result<
        Option<(LayerView, Lsn)>,
        ReadError,
    >
        decreases idx,
    {
        match self.local(idx) {
            None => Err(ReadError::NotLocal),
            Some(tl) => if descend && lsn.0 < tl.ancestor_lsn.0 {
                match self.ancestor_index(idx) {
                    Some(a) => if 0 <= a < idx {
                        self.layer_for_read(a, seg, lsn, true)
                    } else {
                        Err(ReadError::AncestorNotLocal)
                    },
                    None => Err(ReadError::AncestorNotLocal),
                }
            } else {
                match tl.layers.get(seg, lsn) {
                    Some(l) => if !l.readable {
                        Err(ReadError::UnreadableLayer)
                    } else if l.seg_exists(seg, lsn) {
                        Ok(Some((l, lsn)))
                    } else {
                        Ok(None)
                    },
                    None => match tl.ancestor_timeline {
                        None => Ok(None),
                        Some(_) => match self.ancestor_index(idx) {
                            Some(a) => if 0 <= a < idx {
                                self.layer_for_read(a, seg, tl.ancestor_lsn, false)
                            } else {
                                Err(ReadError::AncestorNotLocal)
                            },
                            None => Err(ReadError::AncestorNotLocal),
                        },
                    },
                }
            },
        }
    }

    /// What a read of block `blknum` of `seg` gathers, from `layer` at
    /// `lsn` on: the layer's own versions, and where they do not suffice,
    /// those of the layer that serves the read just below it, and so on.
    /// `None` where the search ends without an image and without records:
    /// the page was never written.
    pub open spec fn gather_page(
        self,
        idx: int,
        seg: SegmentTag,
        blknum: u32,
        lsn: Lsn,
        layer: LayerView,
        data: ReconstructView,
    ) -> Result<Option<ReconstructView>, ReadError>
        decreases lsn.0,
    {
        let (d, res) = layer.reconstruct(seg, blknum, lsn, data);
        if !layer.readable {
            Err(ReadError::UnreadableLayer)
        } else {
            match res {
                PageReconstructResult::Complete => Ok(Some(d)),
                PageReconstructResult::Continue(cont) => match self.layer_for_read(idx, seg, cont, true) {
                    Err(e) => Err(e),
                    Ok(None) => Err(ReadError::PredecessorMissing),
                    Ok(Some(f)) => if (f.1).0 >= lsn.0 {
                        Err(ReadError::LayerCycle)
                    } else {
                        self.gather_page(idx, seg, blknum, f.1, f.0, d)
                    },
                },
                PageReconstructResult::Missing(_) => if d.records.len() == 0 {
                    Ok(None)
                } else {
                    Err(ReadError::NoBaseImage)
                },
            }
        }
    }

    /// The plan for block `blknum` of `seg` at `lsn`, read from `layer`
    /// on. A page kept from an earlier read, `cached`, counts for a
    /// relation only: at the very LSN it is the page; from below it is the
    /// image that the search starts with; one from above is passed over.
    pub open spec fn materialize(
        self,
        idx: int,
        seg: SegmentTag,
        blknum: u32,
        lsn: Lsn,
        layer: LayerView,
        cached: Option<(Lsn, Seq<u8>)>,
    ) -> Result<PagePlan, ReadError> {
        let held = held_page(seg, lsn, cached);
        if held is Some && (held->0).0 == lsn {
            Ok(PagePlan::Image((held->0).1))
        } else {
            match self.gather_page(
                idx,
                seg,
                blknum,
                lsn,
                layer,
                ReconstructView { records: Seq::empty(), page_img: held },
            ) {
                Err(e) => Err(e),
                Ok(None) => Ok(PagePlan::Zero),
                Ok(Some(d)) => Ok(
                    plan_page(seg.rel, (seg.segno * RELISH_SEG_SIZE + blknum) as u32, lsn, d),
                ),
            }
        }
    }

    /// The size of `seg` at `lsn`, as the layer that serves the read says;
    /// `None` where the segment does not exist.
    pub open spec fn seg_size_at(self, idx: int, seg: SegmentTag, lsn: Lsn) -> Result<Option<u32>, ReadError> {
        match self.layer_for_read(idx, seg, lsn, true) {
            Err(e) => Err(e),
            Ok(None) => Ok(None),
            Ok(Some(f)) => if f.0.readable {
                Ok(f.0.seg_size(seg, f.1))
            } else {
                Err(ReadError::UnreadableLayer)
            },
        }
    }

    /// The blocks of `rel` at `lsn`, given that its segments below `segno`
    /// are full: full segments are counted on until one is not, which is added.
    pub open spec fn relish_size_from(self, idx: int, rel: RelishTag, lsn: Lsn, segno: int) -> Result<
        int,
        ReadError,
    >
        decreases MAX_SEGNO + 1 - segno,
    {
        if 0 <= segno <= MAX_SEGNO {
            match self.seg_size_at(idx, SegmentTag { rel, segno: segno as u32 }, lsn) {
                Err(e) => Err(e),
                Ok(sz) => {
                    let s = match sz {
                        Some(s) => s,
                        None => 0u32,
                    };
                    if s == RELISH_SEG_SIZE {
                        self.relish_size_from(idx, rel, lsn, segno + 1)
                    } else {
                        Ok(segno * RELISH_SEG_SIZE + s)
                    }
                },
            }
        } else {
            Ok(segno * RELISH_SEG_SIZE)
        }
    }

    /// The size of `rel` at `lsn` in blocks; `None` where it does not exist.
    pub open spec fn relish_size(self, idx: int, rel: RelishTag, lsn: Lsn) -> Result<Option<u32>, ReadError> {
        match self.seg_size_at(idx, SegmentTag { rel, segno: 0 }, lsn) {
            Err(e) => Err(e),
            Ok(None) => Ok(None),
            Ok(Some(s)) => if s == RELISH_SEG_SIZE {
                match self.relish_size_from(idx, rel, lsn, 1) {
                    Err(e) => Err(e),
                    Ok(total) => if total > u32::MAX {
                        Err(ReadError::RelishTooLarge)
                    } else {
                        Ok(Some(total as u32))
                    },
                }
            } else {
                Ok(Some(s))
            },
        }
    }

    /// Whether `rel` exists at `lsn`: whether its first segment does.
    pub open spec fn rel_exists(self, idx: int, rel: RelishTag, lsn: Lsn) -> Result<bool, ReadError> {
        let seg = SegmentTag { rel, segno: 0 };
        match self.layer_for_read(idx, seg, lsn, true) {
            Err(e) => Err(e),
            Ok(None) => Ok(false),
            Ok(Some(f)) => Ok(f.0.seg_exists(seg, f.1)),
        }
    }

    /// The plan for block `blknum` of `rel` at `lsn` on the timeline at `idx`.
    pub open spec fn page_at(
        self,
        idx: int,
        rel: RelishTag,
        blknum: u32,
        lsn: Lsn,
        cached: Option<(Lsn, Seq<u8>)>,
    ) -> Result<PagePlan, ReadError> {
        let seg = SegmentTag::of_blknum(rel, blknum);
        if !rel.blocky() && blknum != 0 {
            Err(ReadError::InvalidBlock)
        } else if self.local(idx) is None {
            Err(ReadError::NotLocal)
        } else if lsn.0 > self.local(idx)->0.last_record_lsn.last.0 {
            Err(ReadError::LsnAhead)
        } else {
            match self.layer_for_read(idx, seg, lsn, true) {
                Err(e) => Err(e),
                Ok(Some(f)) => self.materialize(idx, seg, blknum % RELISH_SEG_SIZE, f.1, f.0, cached),
                Ok(None) => if seg.segno > 0 {
                    match self.rel_exists(idx, rel, lsn) {
                        Err(e) => Err(e),
                        Ok(true) => Ok(PagePlan::Zero),
                        Ok(false) => Err(ReadError::SegmentNotFound),
                    }
                } else {
                    Err(ReadError::SegmentNotFound)
                },
            }
        }
    }

    /// The place of a timeline named by its id, for a read.
    pub open spec fn read_index(self, id: ZTimelineId) -> int {
        match self.find(id) {
            Some(i) => i,
            None => -1,
        }
    }
}

impl LayeredRepository {
    pub(crate) fn read_idx(&self, id: ZTimelineId) -> (r: Option<usize>)
        ensures
            match r {
                Some(i) => self@.read_index(id) == i,
                None => self@.local(self@.read_index(id)) is None,
            },
    {
        self.find_timeline(id)
    }

    /// The layer that serves a read of `seg` at `lsn` on the timeline at
    /// `idx`, and the LSN to read it at.
    pub(crate) fn get_layer_for_read_locked(&self, idx: usize, seg: SegmentTag, lsn: Lsn, descend: bool) -> (r:
        Result<Option<(&Layer, Lsn)>, ReadError>)
        ensures
            found_view(r) == self@.layer_for_read(idx as int, seg, lsn, descend),
        decreases idx,
    {
        let tl = match self.local_at(idx) {
            Some(tl) => tl,
            None => { return Err(ReadError::NotLocal); },
        };
        if descend && lsn.0 < tl.ancestor_lsn.0 {
            match self.ancestor_at(idx) {
                Some(a) => self.get_layer_for_read_locked(a, seg, lsn, true),
                None => Err(ReadError::AncestorNotLocal),
            }
        } else {
            match tl.layers.get(seg, lsn) {
                Some(l) => if !l.is_readable() {
                    Err(ReadError::UnreadableLayer)
                } else if l.get_seg_exists(seg, lsn) {
                    Ok(Some((l, lsn)))
                } else {
                    Ok(None)
                },
                None => match tl.ancestor_timeline {
                    None => Ok(None),
                    Some(_) => match self.ancestor_at(idx) {
                        Some(a) => self.get_layer_for_read_locked(a, seg, tl.ancestor_lsn, false),
                        None => Err(ReadError::AncestorNotLocal),
                    },
                },
            }
        }
    }

    /// The layer that serves a read of `seg` at `lsn` on the timeline
    /// `timelineid`, and the LSN to read it at. The layer may belong to a
    /// timeline that this one was branched from.
    pub fn get_layer_for_read(&self, timelineid: ZTimelineId, seg: SegmentTag, lsn: Lsn) -> (r: Result<
        Option<(&Layer, Lsn)>,
        ReadError,
    >)
        ensures
            found_view(r) == self@.layer_for_read(self@.read_index(timelineid), seg, lsn, true),
    {
        match self.read_idx(timelineid) {
            Some(idx) => self.get_layer_for_read_locked(idx, seg, lsn, true),
            None => Err(ReadError::NotLocal),
        }
    }

    pub(crate) fn gather_page(
        &self,
        idx: usize,
        seg: SegmentTag,
        blknum: u32,
        lsn: Lsn,
        layer: &Layer,
        data: PageReconstructData,
    ) -> (r: Result<Option<PageReconstructData>, ReadError>)
        ensures
            gathered_view(r) == self@.gather_page(idx as int, seg, blknum, lsn, layer@, data@),
        decreases lsn.0,
    {
        if !layer.is_readable() {
            return Err(ReadError::UnreadableLayer);
        }
        let mut data = data;
        let res = layer.get_page_reconstruct_data(seg, blknum, lsn, &mut data);
        match res {
            PageReconstructResult::Complete => Ok(Some(data)),
            PageReconstructResult::Continue(cont) => match self.get_layer_for_read_locked(idx, seg, cont, true) {
                Err(e) => Err(e),
                Ok(None) => Err(ReadError::PredecessorMissing),
                Ok(Some(f)) => if (f.1).0 >= lsn.0 {
                    Err(ReadError::LayerCycle)
                } else {
                    self.gather_page(idx, seg, blknum, f.1, f.0, data)
                },
            },
            PageReconstructResult::Missing(_) => if data.records.len() == 0 {
                Ok(None)
            } else {
                Err(ReadError::NoBaseImage)
            },
        }
    }

    /// Carries out the plan for what a read has gathered: hands back the
    /// image, or a page of zeros, or what `redo` makes of the records.
    #[verifier::loop_isolation(false)]
    pub fn reconstruct_page<F: Fn(RedoRequest) -> Result<Bytes, WalRedoError>>(
        &self,
        rel: RelishTag,
        rel_blknum: u32,
        request_lsn: Lsn,
        data: PageReconstructData,
        redo: &F,
    ) -> (r: Result<MaterializedPage, ReadError>)
        requires
            forall|q: RedoRequest| call_requires(*redo, (q,)),
        ensures
            page_result(plan_page(rel, rel_blknum, request_lsn, data@), r, *redo),
    {
        let mut data = data;
        let ghost orig = data.records@;
        let ghost img0 = data.page_img;
        let ghost plan = plan_page(rel, rel_blknum, request_lsn, data@);
        let n: usize = data.records.len();
        if n == 0 {
            return match data.page_img {
                Some(img) => Ok(MaterializedPage { img: img.1, cache_lsn: None }),
                None => Ok(MaterializedPage { img: zero_page(), cache_lsn: None }),
            };
        }
        let oldest_inits = data.records[n - 1].1.will_init;
        if data.page_img.is_none() && !oldest_inits {
            return Ok(MaterializedPage { img: zero_page(), cache_lsn: None });
        }
        let last_rec_lsn = data.records[0].0;
        assert(records_view(orig).last() == (orig[n - 1].0, orig[n - 1].1@));
        assert(plan is Redo);
        let mut rev: Vec<(Lsn, WalRecord)> = Vec::new();
        let mut k: usize = 0;
        while k < n
            invariant
                k <= n,
                n == orig.len(),
                rev@.len() == k,
                data.records@ == orig.take(n - k),
                data.page_img == img0,
                forall|j: int| 0 <= j < k ==> rev@[j] == orig[n - 1 - j],
            decreases n - k,
        {
            let x = data.records.pop();
            match x {
                Some(x) => {
                    rev.push(x);
                },
                None => {},
            }
            k = k + 1;
            assert(data.records@ =~= orig.take(n - k));
        }
        let base_img = match data.page_img {
            Some(img) => Some(img.1),
            None => None,
        };
        let req = RedoRequest { rel, blknum: rel_blknum, lsn: request_lsn, base_img, records: rev };
        proof {
            assert(records_view(rev@) =~= records_view(orig).reverse());
            assert(req@ == plan->Redo_0);
        }
        let out = redo(req);
        let r = match out {
            Ok(img) => Ok(
                MaterializedPage {
                    img,
                    cache_lsn: if rel.is_relation() {
                        Some(last_rec_lsn)
                    } else {
                        None
                    },
                },
            ),
            Err(_) => Err(ReadError::Redo),
        };
        proof {
            assert(records_view(orig).reverse().last() == records_view(orig)[0]);
            assert(call_ensures(*redo, (req,), out));
        }
        r
    }

    /// The page for block `seg_blknum` of `seg` at `lsn`, read from `layer`
    /// on, on the timeline at `idx`.
    pub(crate) fn materialize_page<F: Fn(RedoRequest) -> Result<Bytes, WalRedoError>>(
        &self,
        idx: usize,
        seg: SegmentTag,
        seg_blknum: u32,
        lsn: Lsn,
        layer: &Layer,
        cached: Option<(Lsn, Bytes)>,
        redo: &F,
    ) -> (r: Result<MaterializedPage, ReadError>)
        requires
            forall|q: RedoRequest| call_requires(*redo, (q,)),
            seg.segno * RELISH_SEG_SIZE + seg_blknum <= u32::MAX,
        ensures
            match self@.materialize(idx as int, seg, seg_blknum, lsn, layer@, image_view(cached)) {
                Err(e) => r matches Err(f) && f == e,
                Ok(plan) => page_result(plan, r, *redo),
            },
    {
        let rel = seg.rel;
        let rel_blknum: u32 = seg.segno * RELISH_SEG_SIZE + seg_blknum;
        let held = if rel.is_relation() {
            cached
        } else {
            None
        };
        let held = match held {
            Some(c) => {
                if (c.0).0 == lsn.0 {
                    return Ok(MaterializedPage { img: c.1, cache_lsn: None });
                }
                if (c.0).0 < lsn.0 {
                    Some(c)
                } else {
                    None
                }
            },
            None => None,
        };
        let data = PageReconstructData { records: Vec::new(), page_img: held };
        assert(data@.records =~= Seq::empty());
        match self.gather_page(idx, seg, seg_blknum, lsn, layer, data) {
            Err(e) => Err(e),
            Ok(None) => Ok(MaterializedPage { img: zero_page(), cache_lsn: None }),
            Ok(Some(d)) => self.reconstruct_page(rel, rel_blknum, lsn, d, redo),
        }
    }

    pub(crate) fn seg_size_at(&self, idx: usize, seg: SegmentTag, lsn: Lsn) -> (r: Result<Option<u32>, ReadError>)
        ensures
            r == self@.seg_size_at(idx as int, seg, lsn),
    {
        match self.get_layer_for_read_locked(idx, seg, lsn, true) {
            Err(e) => Err(e),
            Ok(None) => Ok(None),
            Ok(Some(f)) => if f.0.is_readable() {
                Ok(f.0.get_seg_size(seg, f.1))
            } else {
                Err(ReadError::UnreadableLayer)
            },
        }
    }

    #[verifier::loop_isolation(false)]
    pub(crate) fn relish_size_at(&self, idx: usize, rel: RelishTag, lsn: Lsn) -> (r: Result<
        Option<u32>,
        ReadError,
    >)
        ensures
            r == self@.relish_size(idx as int, rel, lsn),
    {
        let first = match self.seg_size_at(idx, SegmentTag { rel, segno: 0 }, lsn) {
            Err(e) => { return Err(e); },
            Ok(None) => { return Ok(None); },
            Ok(Some(s)) => s,
        };
        if first != RELISH_SEG_SIZE {
            return Ok(Some(first));
        }
        let mut segno: u32 = 1;
        let mut total: u64 = 0;
        let mut done = false;
        while !done
            invariant
                1 <= segno <= MAX_SEGNO + 1,
                !done ==> self@.relish_size_from(idx as int, rel, lsn, 1) == self@.relish_size_from(
                    idx as int,
                    rel,
                    lsn,
                    segno as int,
                ),
                done ==> self@.relish_size_from(idx as int, rel, lsn, 1) == Ok::<int, ReadError>(total as int),
            decreases MAX_SEGNO + 1 - segno + if done { 0int } else { 1int },
        {
            if segno > MAX_SEGNO {
                total = segno as u64 * RELISH_SEG_SIZE as u64;
                done = true;
            } else {
                let s = match self.seg_size_at(idx, SegmentTag { rel, segno }, lsn) {
                    Err(e) => { return Err(e); },
                    Ok(Some(s)) => s,
                    Ok(None) => 0,
                };
                if s == RELISH_SEG_SIZE {
                    segno = segno + 1;
                } else {
                    total = segno as u64 * RELISH_SEG_SIZE as u64 + s as u64;
                    done = true;
                }
            }
        }
        if total > u32::MAX as u64 {
            Err(ReadError::RelishTooLarge)
        } else {
            Ok(Some(total as u32))
        }
    }

    /// The size of `rel` at `lsn` in blocks, on the timeline `timelineid`;
    /// `None` where it does not exist.
    pub fn get_relish_size(&self, timelineid: ZTimelineId, rel: RelishTag, lsn: Lsn) -> (r: Result<
        Option<u32>,
        ReadError,
    >)
        ensures
            r == self@.relish_size(self@.read_index(timelineid), rel, lsn),
    {
        match self.read_idx(timelineid) {
            Some(idx) => self.relish_size_at(idx, rel, lsn),
            None => Err(ReadError::NotLocal),
        }
    }

    pub(crate) fn rel_exists_at(&self, idx: usize, rel: RelishTag, lsn: Lsn) -> (r: Result<bool, ReadError>)
        ensures
            r == self@.rel_exists(idx as int, rel, lsn),
    {
        let seg = SegmentTag { rel, segno: 0 };
        match self.get_layer_for_read_locked(idx, seg, lsn, true) {
            Err(e) => Err(e),
            Ok(None) => Ok(false),
            Ok(Some(f)) => Ok(f.0.get_seg_exists(seg, f.1)),
        }
    }

    /// Whether `rel` exists at `lsn` on the timeline `timelineid`.
    pub fn get_rel_exists(&self, timelineid: ZTimelineId, rel: RelishTag, lsn: Lsn) -> (r: Result<
        bool,
        ReadError,
    >)
        ensures
            r == self@.rel_exists(self@.read_index(timelineid), rel, lsn),
    {
        match self.read_idx(timelineid) {
            Some(idx) => self.rel_exists_at(idx, rel, lsn),
            None => Err(ReadError::NotLocal),
        }
    }

    /// Block `rel_blknum` of `rel` as it is at `lsn` on the timeline
    /// `timelineid`.
    ///
    /// `cached` is a page kept from an earlier read of this block at or
    /// below `lsn`, if the caller has one. `redo` is called once at most,
    /// where records have to be replayed.
    pub fn get_page_at_lsn<F: Fn(RedoRequest) -> Result<Bytes, WalRedoError>>(
        &self,
        timelineid: ZTimelineId,
        rel: RelishTag,
        rel_blknum: u32,
        lsn: Lsn,
        cached: Option<(Lsn, Bytes)>,
        redo: &F,
    ) -> (r: Result<MaterializedPage, ReadError>)
        requires
            forall|q: RedoRequest| call_requires(*redo, (q,)),
        ensures
            match self@.page_at(self@.read_index(timelineid), rel, rel_blknum, lsn, image_view(cached)) {
                Err(e) => r matches Err(f) && f == e,
                Ok(plan) => page_result(plan, r, *redo),
            },
    {
        if !rel.is_blocky() && rel_blknum != 0 {
            return Err(ReadError::InvalidBlock);
        }
        let idx = match self.read_idx(timelineid) {
            Some(idx) => idx,
            None => { return Err(ReadError::NotLocal); },
        };
        let tl = match self.local_at(idx) {
            Some(tl) => tl,
            None => { return Err(ReadError::NotLocal); },
        };
        if lsn.0 > tl.last_record_lsn.last.0 {
            return Err(ReadError::LsnAhead);
        }
        let (seg, seg_blknum) = SegmentTag::from_blknum(rel, rel_blknum);
        match self.get_layer_for_read_locked(idx, seg, lsn, true) {
            Err(e) => Err(e),
            Ok(Some(f)) => self.materialize_page(idx, seg, seg_blknum, f.1, f.0, cached, redo),
            Ok(None) => {
                if seg.segno > 0 {
                    match self.rel_exists_at(idx, rel, lsn) {
                        Err(e) => Err(e),
                        Ok(true) => Ok(MaterializedPage { img: zero_page(), cache_lsn: None }),
                        Ok(false) => Err(ReadError::SegmentNotFound),
                    }
                } else {
                    Err(ReadError::SegmentNotFound)
                }
            },
        }
    }
}

} // verus!
