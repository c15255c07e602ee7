//! What GC leaves in place.
//!
//! GC takes layers out of the map and touches nothing else. A read that
//! was served by a layer that stays is served by that layer afterwards.
//! A layer of a live segment goes only when a newer image of the
//! segment is on disk, and from that image on it served no read: a
//! read of the segment at or above an image that stays, where every
//! layer that goes is read after that image, gives the page it gave.

use crate::gc::{lemma_find_same, retained, GcVerdict};
use crate::isolation::{
    agree_below,
    lemma_layer_for_read_isolated,
    lemma_layer_for_read_qualifies,
    lemma_read_lsn_not_raised,
};
use crate::layer::{LayerKind, LayerView};
use crate::layer_map::{best_historic, better, is_newer_image, lemma_best_historic, qualifies, LayerMapView};
use crate::lsn::Lsn;
use crate::page::{PageReconstructResult, ReconstructView};
use crate::read::ReadError;
use crate::relish::{RelishTag, SegmentTag, RELISH_SEG_SIZE};
use crate::repository::{lemma_find_entry, RepoView};
use crate::timeline::TimelineView;
use vstd::prelude::*;

verus! {

/// Where a layer stands in the order in which layers are read: by its
/// start, and at one start an image before the others.
pub open spec fn rank(l: LayerView) -> int {
    2 * l.start_lsn.0 + if l.kind == LayerKind::Image {
        1int
    } else {
        0int
    }
}

proof fn lemma_better_is_rank(a: LayerView, b: LayerView)
    ensures
        better(a, b) <==> rank(a) > rank(b),
{
}

/// Of the layers that stay, the one that serves a read is the one that
/// served it before, if that one stays.
pub proof fn lemma_best_survives(h: Seq<LayerView>, keep: spec_fn(LayerView) -> bool, seg: SegmentTag, lsn: Lsn)
    ensures
        best_historic(h, seg, lsn) is Some && keep(h[best_historic(h, seg, lsn)->0]) ==> best_historic(
            h.filter(keep),
            seg,
            lsn,
        ) is Some && h.filter(keep)[best_historic(h.filter(keep), seg, lsn)->0] == h[best_historic(h, seg, lsn)->0],
        best_historic(h, seg, lsn) is None ==> best_historic(h.filter(keep), seg, lsn) is None,
        best_historic(h.filter(keep), seg, lsn) is Some ==> best_historic(h, seg, lsn) is Some && rank(
            h.filter(keep)[best_historic(h.filter(keep), seg, lsn)->0],
        ) <= rank(h[best_historic(h, seg, lsn)->0]),
    decreases h.len(),
{
    reveal(Seq::filter);
    if h.len() > 0 {
        let d = h.drop_last();
        let x = h.last();
        lemma_best_survives(d, keep, seg, lsn);
        lemma_best_historic(d, seg, lsn);
        lemma_best_historic(h, seg, lsn);
        let fd = d.filter(keep);
        lemma_best_historic(fd, seg, lsn);
        let f = h.filter(keep);
        assert forall|j: int| 0 <= j < d.len() implies d[j] == h[j] by {}
        if keep(x) {
            assert(f == fd.push(x));
            assert(f.drop_last() =~= fd);
            assert(f.last() == x);
            assert forall|j: int| 0 <= j < fd.len() implies fd[j] == f[j] by {}
            match best_historic(fd, seg, lsn) {
                Some(c) => {
                    lemma_better_is_rank(x, fd[c]);
                    lemma_better_is_rank(x, d[best_historic(d, seg, lsn)->0]);
                },
                None => {},
            }
            match best_historic(d, seg, lsn) {
                Some(bd) => {
                    lemma_better_is_rank(x, d[bd]);
                },
                None => {},
            }
        } else {
            assert(f == fd);
            match best_historic(d, seg, lsn) {
                Some(bd) => {
                    lemma_better_is_rank(x, d[bd]);
                },
                None => {},
            }
        }
    }
}

/// The map after layers have been taken out of it.
pub open spec fn map_after(m: LayerMapView, keep: spec_fn(LayerView) -> bool) -> LayerMapView {
    LayerMapView { historic: m.historic.filter(keep), ..m }
}

/// A read that was served by a layer that stays is served by that
/// layer afterwards, and a read that no layer served is served by none.
pub proof fn lemma_serving_layer_stays(m: LayerMapView, keep: spec_fn(LayerView) -> bool, seg: SegmentTag, lsn: Lsn)
    ensures
        m.get(seg, lsn) is None ==> map_after(m, keep).get(seg, lsn) is None,
        m.get(seg, lsn) is Some && ((m.open_layer is Some && qualifies(m.open_layer->0, seg, lsn)) || (
        m.frozen_layer is Some && qualifies(m.frozen_layer->0, seg, lsn)) || keep(m.get(seg, lsn)->0))
            ==> map_after(m, keep).get(seg, lsn) == m.get(seg, lsn),
{
    lemma_best_survives(m.historic, keep, seg, lsn);
}

/// What GC has found of a layer that it takes out: the layer is
/// flushed and covers one segment, it ends at or below the cutoff, it
/// starts above every LSN to retain, and either its last word on the
/// segment is a drop, or a newer image of the segment is on disk.
pub proof fn lemma_removed_layer(repo: RepoView, idx: int, l: LayerView, retain_lsns: Seq<Lsn>, cutoff: Lsn)
    requires
        repo.local(idx) is Some,
        repo.gc_class(idx, l, retain_lsns, cutoff) is Ok,
        repo.gc_class(idx, l, retain_lsns, cutoff)->Ok_0.verdict == GcVerdict::Removed,
    ensures
        l.kind != LayerKind::InMemory,
        l.single_seg() is Some,
        l.end_or_max().0 <= cutoff.0,
        !retained(retain_lsns, l.start_lsn),
        l.dropped(l.single_seg()->0) || repo.local(idx)->0.layers.newer_image_layer_exists(
            l.single_seg()->0,
            l.end_or_max(),
            repo.local(idx)->0.disk_consistent_lsn,
        ),
        l.dropped(l.single_seg()->0) ==> repo.is_tombstone(idx, l, l.single_seg()->0) == Ok::<bool, ReadError>(false),
{
}

/// A layer that ends above the cutoff, or that starts at or below an
/// LSN to retain, stays.
pub proof fn lemma_recent_and_retained_stay(repo: RepoView, idx: int, l: LayerView, retain_lsns: Seq<Lsn>, cutoff: Lsn)
    requires
        repo.local(idx) is Some,
        l.end_or_max().0 > cutoff.0 || retained(retain_lsns, l.start_lsn),
    ensures
        repo.gc_keeps(idx, retain_lsns, cutoff)(l),
{
}

/// A layer that gives way to a newer image serves no read of its
/// segment at or above that image: such a read is served by the image,
/// or by a layer that is read before it.
pub proof fn lemma_superseded_layer_unread(
    m: LayerMapView,
    l: LayerView,
    seg: SegmentTag,
    ceiling: Lsn,
    i: int,
    lsn: Lsn,
)
    requires
        l.kind != LayerKind::InMemory,
        l.start_lsn.0 <= l.end_or_max().0,
        0 <= i < m.historic.len(),
        is_newer_image(m.historic[i], seg, l.end_or_max(), ceiling),
        lsn.0 >= m.historic[i].start_lsn.0,
        m.open_layer is Some ==> m.open_layer->0.kind == LayerKind::InMemory,
        m.frozen_layer is Some ==> m.frozen_layer->0.kind == LayerKind::InMemory,
    ensures
        m.get(seg, lsn) is Some,
        m.get(seg, lsn) != Some(l),
        rank(m.get(seg, lsn)->0) >= rank(m.historic[i]) || m.get(seg, lsn)->0.kind == LayerKind::InMemory,
{
    lemma_best_historic(m.historic, seg, lsn);
    let img = m.historic[i];
    assert(qualifies(img, seg, lsn));
    lemma_better_is_rank(img, l);
    if best_historic(m.historic, seg, lsn) is Some {
        let b = best_historic(m.historic, seg, lsn)->0;
        lemma_better_is_rank(img, m.historic[b]);
    }
}

/// GC soundness, layer by layer: after GC of a timeline, a read of a
/// segment at an LSN is served by the layer that served it before,
/// unless GC took that very layer out; and a layer of a live segment
/// that GC took out served no read at or above the newer image on disk
/// that let it go.
pub proof fn lemma_gc_keeps_serving_layers(
    repo: RepoView,
    idx: int,
    retain_lsns: Seq<Lsn>,
    cutoff: Lsn,
    seg: SegmentTag,
    lsn: Lsn,
)
    requires
        repo.local(idx) is Some,
        repo.gc_timeline(idx, retain_lsns, cutoff).1 is Ok,
    ensures
        ({
            let before = repo.local(idx)->0.layers;
            let after = repo.gc_timeline(idx, retain_lsns, cutoff).0.local(idx)->0.layers;
            let keep = repo.with_gc_cutoff(idx, cutoff).gc_keeps(idx, retain_lsns, cutoff);
            &&& after == map_after(before, keep)
            &&& before.get(seg, lsn) is None ==> after.get(seg, lsn) is None
            &&& before.get(seg, lsn) is Some && keep(before.get(seg, lsn)->0) ==> after.get(seg, lsn)
                == before.get(seg, lsn)
        }),
{
    let before = repo.local(idx)->0.layers;
    let keep = repo.with_gc_cutoff(idx, cutoff).gc_keeps(idx, retain_lsns, cutoff);
    lemma_serving_layer_stays(before, keep, seg, lsn);
}

/// What taking layers out of the map of the timeline at `idx` makes of
/// a state: the layers that `keep` takes stay, and nothing else changes
/// but the GC cutoff.
pub open spec fn thinned(before: RepoView, after: RepoView, idx: int, keep: spec_fn(LayerView) -> bool) -> bool {
    &&& before.local(idx) is Some
    &&& after.local(idx) is Some
    &&& after == before.with_local(
        idx,
        TimelineView {
            layers: map_after(before.local(idx)->0.layers, keep),
            latest_gc_cutoff_lsn: after.local(idx)->0.latest_gc_cutoff_lsn,
            ..before.local(idx)->0
        },
    )
}

/// Whether the flushed layer at place `i` is an image of `seg` that
/// stays, and that stands between the reads at or above it and every
/// layer of `seg` that goes: each of those is read after it, no image
/// sends a read of `seg` on to a layer before it, and what is held in
/// memory of `seg` starts above it.
pub open spec fn floor_image(tl: TimelineView, keep: spec_fn(LayerView) -> bool, seg: SegmentTag, i: int) -> bool {
    let h = tl.layers.historic;
    &&& 0 <= i < h.len()
    &&& h[i].kind == LayerKind::Image
    &&& h[i].covers_seg(seg)
    &&& keep(h[i])
    &&& forall|j: int| 0 <= j < h.len() && (#[trigger] h[j]).covers_seg(seg) && !keep(h[j]) ==> rank(h[j]) < rank(h[i])
    &&& forall|j: int| 0 <= j < h.len() && (#[trigger] h[j]).kind == LayerKind::Image ==> !h[j].incremental(seg)
    &&& tl.layers.open_layer is Some && tl.layers.open_layer->0.covers_seg(seg) ==> tl.layers.open_layer->0.start_lsn.0
        > h[i].start_lsn.0
    &&& tl.layers.frozen_layer is Some && tl.layers.frozen_layer->0.covers_seg(seg)
        ==> tl.layers.frozen_layer->0.start_lsn.0 > h[i].start_lsn.0
}

/// Whether a read at `lsn` stays clear of the layers below the image
/// at place `i`: it lies at or above the image, or below the branch
/// point, where the timeline's own layers are not asked.
pub open spec fn clear_of(tl: TimelineView, i: int, lsn: Lsn) -> bool {
    lsn.0 >= tl.layers.historic[i].start_lsn.0 || lsn.0 < tl.ancestor_lsn.0
}

/// Whether a read that `layer` sends on stays clear of the layers below the image at place `i`.
pub open spec fn sends_clear(tl: TimelineView, i: int, seg: SegmentTag, layer: LayerView) -> bool {
    layer.incremental(seg) && layer.start_lsn.0 > 0 ==> clear_of(tl, i, Lsn((layer.start_lsn.0 - 1) as u64))
}

proof fn lemma_thinned_agrees(before: RepoView, after: RepoView, idx: int, keep: spec_fn(LayerView) -> bool)
    requires
        thinned(before, after, idx, keep),
    ensures
        agree_below(before, after, idx),
        after.ancestor_index(idx) == before.ancestor_index(idx),
        after.local(idx)->0.ancestor_lsn == before.local(idx)->0.ancestor_lsn,
        after.local(idx)->0.ancestor_timeline == before.local(idx)->0.ancestor_timeline,
        after.local(idx)->0.last_record_lsn == before.local(idx)->0.last_record_lsn,
        after.local(idx)->0.layers == map_after(before.local(idx)->0.layers, keep),
{
    assert forall|k: int| 0 <= k < before.timelines.len() implies (#[trigger] before.timelines[k]).id()
        == after.timelines[k].id() by {}
    if before.local(idx)->0.ancestor_timeline is Some {
        let anc = before.local(idx)->0.ancestor_timeline->0;
        lemma_find_same(before.timelines, after.timelines, anc);
        lemma_find_entry(before.timelines, anc);
    }
}

/// A read that stays clear of what goes is served by the layer that
/// served it, and is sent on clear of what goes.
proof fn lemma_layer_survives(
    before: RepoView,
    after: RepoView,
    idx: int,
    keep: spec_fn(LayerView) -> bool,
    seg: SegmentTag,
    i: int,
    lsn: Lsn,
)
    requires
        thinned(before, after, idx, keep),
        floor_image(before.local(idx)->0, keep, seg, i),
        before.branches_ordered(idx),
        clear_of(before.local(idx)->0, i, lsn),
    ensures
        after.layer_for_read(idx, seg, lsn, true) == before.layer_for_read(idx, seg, lsn, true),
        before.layer_for_read(idx, seg, lsn, true) matches Ok(Some(f)) ==> sends_clear(
            before.local(idx)->0,
            i,
            seg,
            f.0,
        ),
{
    let tl = before.local(idx)->0;
    let h = tl.layers.historic;
    lemma_thinned_agrees(before, after, idx, keep);
    if lsn.0 < tl.ancestor_lsn.0 {
        match before.ancestor_index(idx) {
            Some(a) => {
                if 0 <= a < idx {
                    lemma_layer_for_read_isolated(before, after, a, idx, seg, lsn, true);
                    lemma_read_lsn_not_raised(before, a, seg, lsn, true);
                    lemma_layer_for_read_qualifies(before, a, seg, lsn, true);
                }
            },
            None => {},
        }
    } else {
        assert(qualifies(h[i], seg, lsn));
        lemma_best_historic(h, seg, lsn);
        lemma_serving_layer_stays(tl.layers, keep, seg, lsn);
        let served = tl.layers.get(seg, lsn);
        if !(tl.layers.open_layer is Some && qualifies(tl.layers.open_layer->0, seg, lsn)) && !(
        tl.layers.frozen_layer is Some && qualifies(tl.layers.frozen_layer->0, seg, lsn)) {
            let b = best_historic(h, seg, lsn)->0;
            lemma_better_is_rank(h[i], h[b]);
            assert(keep(h[b]));
        }
        assert(after.local(idx)->0.layers.get(seg, lsn) == served);
    }
}

/// A read that is sent on clear of what goes gathers what it gathered.
proof fn lemma_gather_survives(
    before: RepoView,
    after: RepoView,
    idx: int,
    keep: spec_fn(LayerView) -> bool,
    seg: SegmentTag,
    i: int,
    blknum: u32,
    lsn: Lsn,
    layer: LayerView,
    data: ReconstructView,
)
    requires
        thinned(before, after, idx, keep),
        floor_image(before.local(idx)->0, keep, seg, i),
        before.branches_ordered(idx),
        sends_clear(before.local(idx)->0, i, seg, layer),
    ensures
        after.gather_page(idx, seg, blknum, lsn, layer, data) == before.gather_page(idx, seg, blknum, lsn, layer, data),
    decreases lsn.0,
{
    let (d, res) = layer.reconstruct(seg, blknum, lsn, data);
    match res {
        PageReconstructResult::Continue(cont) => {
            lemma_layer_survives(before, after, idx, keep, seg, i, cont);
            match before.layer_for_read(idx, seg, cont, true) {
                Ok(Some(f)) => {
                    if (f.1).0 < lsn.0 {
                        lemma_gather_survives(before, after, idx, keep, seg, i, blknum, f.1, f.0, d);
                    }
                },
                _ => {},
            }
        },
        _ => {},
    }
}

/// GC soundness, page by page: where an image of a segment stays, and
/// every layer of the segment that goes is one that is read after it,
/// a read of the segment at or above the image gives after GC what it
/// gave before: it is served by the same layer, the segment has the
/// same size, and the page is the same.
///
/// This is said of timelines whose branch points are in order, of maps
/// in which no image sends a read on, and in which what is held in
/// memory of the segment starts above the image. The page of a segment
/// other than the first that does not exist is read by the first
/// segment, which has to have an image of its own: that read is left out.
pub proof fn lemma_gc_keeps_pages(
    repo: RepoView,
    idx: int,
    retain_lsns: Seq<Lsn>,
    cutoff: Lsn,
    rel: RelishTag,
    blknum: u32,
    lsn: Lsn,
    cached: Option<(Lsn, Seq<u8>)>,
    i: int,
)
    requires
        repo.local(idx) is Some,
        repo.gc_timeline(idx, retain_lsns, cutoff).1 is Ok,
        repo.branches_ordered(idx),
        floor_image(
            repo.local(idx)->0,
            repo.with_gc_cutoff(idx, cutoff).gc_keeps(idx, retain_lsns, cutoff),
            SegmentTag::of_blknum(rel, blknum),
            i,
        ),
        lsn.0 >= repo.local(idx)->0.layers.historic[i].start_lsn.0,
    ensures
        ({
            let after = repo.gc_timeline(idx, retain_lsns, cutoff).0;
            let seg = SegmentTag::of_blknum(rel, blknum);
            &&& after.layer_for_read(idx, seg, lsn, true) == repo.layer_for_read(idx, seg, lsn, true)
            &&& after.seg_size_at(idx, seg, lsn) == repo.seg_size_at(idx, seg, lsn)
            &&& seg.segno == 0 || !(repo.layer_for_read(idx, seg, lsn, true) matches Ok(None)) ==> after.page_at(
                idx,
                rel,
                blknum,
                lsn,
                cached,
            ) == repo.page_at(idx, rel, blknum, lsn, cached)
        }),
{
    let after = repo.gc_timeline(idx, retain_lsns, cutoff).0;
    let keep = repo.with_gc_cutoff(idx, cutoff).gc_keeps(idx, retain_lsns, cutoff);
    let seg = SegmentTag::of_blknum(rel, blknum);
    assert(after.timelines =~= repo.with_local(
        idx,
        TimelineView {
            layers: map_after(repo.local(idx)->0.layers, keep),
            latest_gc_cutoff_lsn: cutoff,
            ..repo.local(idx)->0
        },
    ).timelines);
    assert(thinned(repo, after, idx, keep));
    lemma_thinned_agrees(repo, after, idx, keep);
    lemma_layer_survives(repo, after, idx, keep, seg, i, lsn);
    match repo.layer_for_read(idx, seg, lsn, true) {
        Ok(Some(f)) => {
            let held = crate::read::held_page(seg, f.1, cached);
            lemma_gather_survives(
                repo,
                after,
                idx,
                keep,
                seg,
                i,
                (blknum % RELISH_SEG_SIZE) as u32,
                f.1,
                f.0,
                ReconstructView { records: Seq::empty(), page_img: held },
            );
        },
        _ => {},
    }
}

/// What GC has found of a layer of a live segment that it takes out
/// makes the newer image that let it go one that the layer is read
/// after: the image starts above the end of the layer.
pub proof fn lemma_removed_below_image(l: LayerView, img: LayerView, seg: SegmentTag, ceiling: Lsn)
    requires
        l.start_lsn.0 <= l.end_or_max().0,
        is_newer_image(img, seg, l.end_or_max(), ceiling),
    ensures
        rank(l) < rank(img),
{
}

/// Whether the layer that serves a read of `seg` at `lsn` in the
/// timeline's own map stays: the read asks none of them (it lies below
/// the branch point, or no layer of the map serves it), or it is served
/// by what is held in memory, or by a flushed layer that stays.
pub open spec fn served_stays(tl: TimelineView, keep: spec_fn(LayerView) -> bool, seg: SegmentTag, lsn: Lsn) -> bool {
    let m = tl.layers;
    ||| lsn.0 < tl.ancestor_lsn.0
    ||| m.get(seg, lsn) is None
    ||| m.open_layer is Some && qualifies(m.open_layer->0, seg, lsn)
    ||| m.frozen_layer is Some && qualifies(m.frozen_layer->0, seg, lsn)
    ||| keep(m.get(seg, lsn)->0)
}

/// Whether the layers stay that a read of block `blknum` of `seg`
/// comes to in the timeline's own map after `layer`, read at `lsn`
/// with `data` gathered so far.
pub open spec fn way_stays(
    repo: RepoView,
    idx: int,
    keep: spec_fn(LayerView) -> bool,
    seg: SegmentTag,
    blknum: u32,
    lsn: Lsn,
    layer: LayerView,
    data: ReconstructView,
) -> bool
    decreases lsn.0,
{
    let (d, res) = layer.reconstruct(seg, blknum, lsn, data);
    match res {
        PageReconstructResult::Continue(cont) => served_stays(repo.local(idx)->0, keep, seg, cont) && match repo.layer_for_read(
            idx,
            seg,
            cont,
            true,
        ) {
            Ok(Some(f)) => if (f.1).0 < lsn.0 {
                way_stays(repo, idx, keep, seg, blknum, f.1, f.0, d)
            } else {
                true
            },
            _ => true,
        },
        _ => true,
    }
}

/// Whether the layers stay that a read of block `blknum` of `rel` at
/// `lsn` comes to in the timeline's own map, from the first to the last.
pub open spec fn read_way_stays(
    repo: RepoView,
    idx: int,
    keep: spec_fn(LayerView) -> bool,
    rel: RelishTag,
    blknum: u32,
    lsn: Lsn,
    cached: Option<(Lsn, Seq<u8>)>,
) -> bool {
    let seg = SegmentTag::of_blknum(rel, blknum);
    served_stays(repo.local(idx)->0, keep, seg, lsn) && match repo.layer_for_read(idx, seg, lsn, true) {
        Ok(Some(f)) => way_stays(
            repo,
            idx,
            keep,
            seg,
            (blknum % RELISH_SEG_SIZE) as u32,
            f.1,
            f.0,
            ReconstructView { records: Seq::empty(), page_img: crate::read::held_page(seg, f.1, cached) },
        ),
        Ok(None) => seg.segno == 0 || served_stays(repo.local(idx)->0, keep, SegmentTag { rel, segno: 0 }, lsn),
        Err(_) => true,
    }
}

/// A read is served by the layer that served it, where that layer stays.
pub proof fn lemma_served_layer_stays(
    before: RepoView,
    after: RepoView,
    idx: int,
    keep: spec_fn(LayerView) -> bool,
    seg: SegmentTag,
    lsn: Lsn,
)
    requires
        thinned(before, after, idx, keep),
        served_stays(before.local(idx)->0, keep, seg, lsn),
    ensures
        after.layer_for_read(idx, seg, lsn, true) == before.layer_for_read(idx, seg, lsn, true),
        after.seg_size_at(idx, seg, lsn) == before.seg_size_at(idx, seg, lsn),
{
    let tl = before.local(idx)->0;
    lemma_thinned_agrees(before, after, idx, keep);
    lemma_serving_layer_stays(tl.layers, keep, seg, lsn);
    match before.ancestor_index(idx) {
        Some(a) => {
            if 0 <= a < idx {
                lemma_layer_for_read_isolated(before, after, a, idx, seg, lsn, true);
                lemma_layer_for_read_isolated(before, after, a, idx, seg, tl.ancestor_lsn, false);
            }
        },
        None => {},
    }
}

/// A read gathers what it gathered, where the layers on its way stay.
pub proof fn lemma_way_gathers(
    before: RepoView,
    after: RepoView,
    idx: int,
    keep: spec_fn(LayerView) -> bool,
    seg: SegmentTag,
    blknum: u32,
    lsn: Lsn,
    layer: LayerView,
    data: ReconstructView,
)
    requires
        thinned(before, after, idx, keep),
        way_stays(before, idx, keep, seg, blknum, lsn, layer, data),
    ensures
        after.gather_page(idx, seg, blknum, lsn, layer, data) == before.gather_page(idx, seg, blknum, lsn, layer, data),
    decreases lsn.0,
{
    let (d, res) = layer.reconstruct(seg, blknum, lsn, data);
    match res {
        PageReconstructResult::Continue(cont) => {
            lemma_served_layer_stays(before, after, idx, keep, seg, cont);
            match before.layer_for_read(idx, seg, cont, true) {
                Ok(Some(f)) => {
                    if (f.1).0 < lsn.0 {
                        lemma_way_gathers(before, after, idx, keep, seg, blknum, f.1, f.0, d);
                    }
                },
                _ => {},
            }
        },
        _ => {},
    }
}

/// GC soundness, read by read: a read gives after GC what it gave
/// before, where the layers that it comes to stay. Nothing else is
/// asked: of the cutoff, of images, or of the order of branch points.
pub proof fn lemma_gc_keeps_read(
    repo: RepoView,
    idx: int,
    retain_lsns: Seq<Lsn>,
    cutoff: Lsn,
    rel: RelishTag,
    blknum: u32,
    lsn: Lsn,
    cached: Option<(Lsn, Seq<u8>)>,
)
    requires
        repo.local(idx) is Some,
        repo.gc_timeline(idx, retain_lsns, cutoff).1 is Ok,
        read_way_stays(
            repo,
            idx,
            repo.with_gc_cutoff(idx, cutoff).gc_keeps(idx, retain_lsns, cutoff),
            rel,
            blknum,
            lsn,
            cached,
        ),
    ensures
        repo.gc_timeline(idx, retain_lsns, cutoff).0.page_at(idx, rel, blknum, lsn, cached) == repo.page_at(
            idx,
            rel,
            blknum,
            lsn,
            cached,
        ),
        repo.gc_timeline(idx, retain_lsns, cutoff).0.seg_size_at(idx, SegmentTag::of_blknum(rel, blknum), lsn)
            == repo.seg_size_at(idx, SegmentTag::of_blknum(rel, blknum), lsn),
{
    let after = repo.gc_timeline(idx, retain_lsns, cutoff).0;
    let keep = repo.with_gc_cutoff(idx, cutoff).gc_keeps(idx, retain_lsns, cutoff);
    let seg = SegmentTag::of_blknum(rel, blknum);
    let seg0 = SegmentTag { rel, segno: 0 };
    assert(after.timelines =~= repo.with_local(
        idx,
        TimelineView {
            layers: map_after(repo.local(idx)->0.layers, keep),
            latest_gc_cutoff_lsn: cutoff,
            ..repo.local(idx)->0
        },
    ).timelines);
    assert(thinned(repo, after, idx, keep));
    lemma_thinned_agrees(repo, after, idx, keep);
    lemma_served_layer_stays(repo, after, idx, keep, seg, lsn);
    match repo.layer_for_read(idx, seg, lsn, true) {
        Ok(Some(f)) => {
            lemma_way_gathers(
                repo,
                after,
                idx,
                keep,
                seg,
                (blknum % RELISH_SEG_SIZE) as u32,
                f.1,
                f.0,
                ReconstructView { records: Seq::empty(), page_img: crate::read::held_page(seg, f.1, cached) },
            );
        },
        Ok(None) => {
            if seg.segno != 0 {
                lemma_served_layer_stays(repo, after, idx, keep, seg0, lsn);
            }
        },
        Err(_) => {},
    }
}

/// The size of a relish is after GC what it was before, where the
/// layers stay that serve its segments.
pub proof fn lemma_gc_keeps_size(
    repo: RepoView,
    idx: int,
    retain_lsns: Seq<Lsn>,
    cutoff: Lsn,
    rel: RelishTag,
    lsn: Lsn,
)
    requires
        repo.local(idx) is Some,
        repo.gc_timeline(idx, retain_lsns, cutoff).1 is Ok,
        forall|seg: SegmentTag|
            seg.rel == rel ==> #[trigger] served_stays(
                repo.local(idx)->0,
                repo.with_gc_cutoff(idx, cutoff).gc_keeps(idx, retain_lsns, cutoff),
                seg,
                lsn,
            ),
    ensures
        repo.gc_timeline(idx, retain_lsns, cutoff).0.relish_size(idx, rel, lsn) == repo.relish_size(idx, rel, lsn),
        repo.gc_timeline(idx, retain_lsns, cutoff).0.rel_exists(idx, rel, lsn) == repo.rel_exists(idx, rel, lsn),
{
    let after = repo.gc_timeline(idx, retain_lsns, cutoff).0;
    let keep = repo.with_gc_cutoff(idx, cutoff).gc_keeps(idx, retain_lsns, cutoff);
    assert(after.timelines =~= repo.with_local(
        idx,
        TimelineView {
            layers: map_after(repo.local(idx)->0.layers, keep),
            latest_gc_cutoff_lsn: cutoff,
            ..repo.local(idx)->0
        },
    ).timelines);
    assert(thinned(repo, after, idx, keep));
    assert(served_stays(repo.local(idx)->0, keep, SegmentTag { rel, segno: 0 }, lsn));
    lemma_served_layer_stays(repo, after, idx, keep, SegmentTag { rel, segno: 0 }, lsn);
    lemma_size_from_stays(repo, after, idx, keep, rel, lsn, 1);
}

proof fn lemma_size_from_stays(
    before: RepoView,
    after: RepoView,
    idx: int,
    keep: spec_fn(LayerView) -> bool,
    rel: RelishTag,
    lsn: Lsn,
    segno: int,
)
    requires
        thinned(before, after, idx, keep),
        forall|seg: SegmentTag| seg.rel == rel ==> #[trigger] served_stays(before.local(idx)->0, keep, seg, lsn),
    ensures
        after.relish_size_from(idx, rel, lsn, segno) == before.relish_size_from(idx, rel, lsn, segno),
    decreases crate::read::MAX_SEGNO + 1 - segno,
{
    if 0 <= segno <= crate::read::MAX_SEGNO {
        let seg = SegmentTag { rel, segno: segno as u32 };
        assert(served_stays(before.local(idx)->0, keep, seg, lsn));
        lemma_served_layer_stays(before, after, idx, keep, seg, lsn);
        lemma_size_from_stays(before, after, idx, keep, rel, lsn, segno + 1);
    }
}

proof fn lemma_retained_served(
    repo: RepoView,
    idx: int,
    retain_lsns: Seq<Lsn>,
    cutoff: Lsn,
    seg: SegmentTag,
    lsn: Lsn,
    j: int,
)
    requires
        repo.local(idx) is Some,
        0 <= j < retain_lsns.len(),
        lsn.0 <= retain_lsns[j].0,
    ensures
        served_stays(
            repo.local(idx)->0,
            repo.with_gc_cutoff(idx, cutoff).gc_keeps(idx, retain_lsns, cutoff),
            seg,
            lsn,
        ),
{
    let tl = repo.local(idx)->0;
    let m = tl.layers;
    lemma_best_historic(m.historic, seg, lsn);
    if m.get(seg, lsn) is Some {
        let l = m.get(seg, lsn)->0;
        if !(m.open_layer is Some && qualifies(m.open_layer->0, seg, lsn)) && !(m.frozen_layer is Some && qualifies(
            m.frozen_layer->0,
            seg,
            lsn,
        )) {
            assert(l.start_lsn.0 <= retain_lsns[j].0);
            assert(retained(retain_lsns, l.start_lsn));
            lemma_recent_and_retained_stay(repo.with_gc_cutoff(idx, cutoff), idx, l, retain_lsns, cutoff);
        }
    }
}

proof fn lemma_retained_way(
    repo: RepoView,
    idx: int,
    retain_lsns: Seq<Lsn>,
    cutoff: Lsn,
    seg: SegmentTag,
    blknum: u32,
    lsn: Lsn,
    layer: LayerView,
    data: ReconstructView,
    j: int,
)
    requires
        repo.local(idx) is Some,
        repo.branches_ordered(idx),
        0 <= j < retain_lsns.len(),
        layer.start_lsn.0 <= retain_lsns[j].0,
    ensures
        way_stays(
            repo,
            idx,
            repo.with_gc_cutoff(idx, cutoff).gc_keeps(idx, retain_lsns, cutoff),
            seg,
            blknum,
            lsn,
            layer,
            data,
        ),
    decreases lsn.0,
{
    let (d, res) = layer.reconstruct(seg, blknum, lsn, data);
    match res {
        PageReconstructResult::Continue(cont) => {
            lemma_retained_served(repo, idx, retain_lsns, cutoff, seg, cont, j);
            lemma_read_lsn_not_raised(repo, idx, seg, cont, true);
            lemma_layer_for_read_qualifies(repo, idx, seg, cont, true);
            match repo.layer_for_read(idx, seg, cont, true) {
                Ok(Some(f)) => {
                    if (f.1).0 < lsn.0 {
                        lemma_retained_way(repo, idx, retain_lsns, cutoff, seg, blknum, f.1, f.0, d, j);
                    }
                },
                _ => {},
            }
        },
        _ => {},
    }
}

/// GC soundness at the branch points: a read at or below an LSN to
/// retain gives after GC what it gave before, the page and the size of
/// its segment. So what was branched off there reads on what it read.
///
/// This is said of timelines whose branch points are in order.
pub proof fn lemma_branch_point_keeps_reads(
    repo: RepoView,
    idx: int,
    retain_lsns: Seq<Lsn>,
    cutoff: Lsn,
    rel: RelishTag,
    blknum: u32,
    lsn: Lsn,
    cached: Option<(Lsn, Seq<u8>)>,
    j: int,
)
    requires
        repo.local(idx) is Some,
        repo.gc_timeline(idx, retain_lsns, cutoff).1 is Ok,
        repo.branches_ordered(idx),
        0 <= j < retain_lsns.len(),
        lsn.0 <= retain_lsns[j].0,
    ensures
        repo.gc_timeline(idx, retain_lsns, cutoff).0.page_at(idx, rel, blknum, lsn, cached) == repo.page_at(
            idx,
            rel,
            blknum,
            lsn,
            cached,
        ),
        repo.gc_timeline(idx, retain_lsns, cutoff).0.seg_size_at(idx, SegmentTag::of_blknum(rel, blknum), lsn)
            == repo.seg_size_at(idx, SegmentTag::of_blknum(rel, blknum), lsn),
        repo.gc_timeline(idx, retain_lsns, cutoff).0.relish_size(idx, rel, lsn) == repo.relish_size(idx, rel, lsn),
{
    let keep = repo.with_gc_cutoff(idx, cutoff).gc_keeps(idx, retain_lsns, cutoff);
    let seg = SegmentTag::of_blknum(rel, blknum);
    lemma_retained_served(repo, idx, retain_lsns, cutoff, seg, lsn, j);
    lemma_retained_served(repo, idx, retain_lsns, cutoff, SegmentTag { rel, segno: 0 }, lsn, j);
    lemma_read_lsn_not_raised(repo, idx, seg, lsn, true);
    lemma_layer_for_read_qualifies(repo, idx, seg, lsn, true);
    match repo.layer_for_read(idx, seg, lsn, true) {
        Ok(Some(f)) => {
            lemma_retained_way(
                repo,
                idx,
                retain_lsns,
                cutoff,
                seg,
                (blknum % RELISH_SEG_SIZE) as u32,
                f.1,
                f.0,
                ReconstructView { records: Seq::empty(), page_img: crate::read::held_page(seg, f.1, cached) },
                j,
            );
        },
        _ => {},
    }
    lemma_gc_keeps_read(repo, idx, retain_lsns, cutoff, rel, blknum, lsn, cached);
    assert forall|sg: SegmentTag| sg.rel == rel implies #[trigger] served_stays(repo.local(idx)->0, keep, sg, lsn) by {
        lemma_retained_served(repo, idx, retain_lsns, cutoff, sg, lsn, j);
    }
    lemma_gc_keeps_size(repo, idx, retain_lsns, cutoff, rel, lsn);
}

} // verus!
