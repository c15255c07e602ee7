//! What is written is what is read.

use crate::layer::{
    find_seg,
    gather,
    latest_event,
    lemma_find_seg_present,
    CoveredSeg,
    LayerView,
    PageEntryView,
    SegEvent,
};
use crate::isolation::{agree_below, lemma_layer_for_read_isolated};
use crate::layer_map::qualifies;
use crate::lsn::Lsn;
use crate::page::{zero_page_bytes, PageVersionView, ReconstructView, RedoRequestView, WalRecordView};
use crate::read::{PagePlan, ReadError, MAX_SEGNO};
use crate::relish::{RelishTag, SegmentTag, RELISH_SEG_SIZE};
use crate::repository::RepoView;

use crate::write::{new_events, size_writes, size_writes_len, zero_entries, SegWrite};
use vstd::prelude::*;

verus! {

/// A segment is looked for in what was added last before what was there.
pub proof fn lemma_find_seg_append(a: Seq<CoveredSeg>, b: Seq<CoveredSeg>, seg: SegmentTag)
    ensures
        find_seg(a + b, seg) == match find_seg(b, seg) {
            Some(c) => Some(c),
            None => find_seg(a, seg),
        },
    decreases b.len(),
{
    if b.len() == 0 {
        assert(a + b =~= a);
    } else {
        assert((a + b).drop_last() =~= a + b.drop_last());
        assert((a + b).last() == b.last());
        lemma_find_seg_append(a, b.drop_last(), seg);
    }
}

/// A size change is looked for in what was added last before what was there.
pub proof fn lemma_latest_event_append(a: Seq<SegEvent>, b: Seq<SegEvent>, seg: SegmentTag, lsn: Lsn)
    ensures
        latest_event(a + b, seg, lsn) == match latest_event(b, seg, lsn) {
            Some(e) => Some(e),
            None => latest_event(a, seg, lsn),
        },
    decreases b.len(),
{
    if b.len() == 0 {
        assert(a + b =~= a);
    } else {
        assert((a + b).drop_last() =~= a + b.drop_last());
        assert((a + b).last() == b.last());
        lemma_latest_event_append(a, b.drop_last(), seg, lsn);
    }
}

/// Whether a version is one of block `blknum` of `seg`.
pub open spec fn version_of(e: PageEntryView, seg: SegmentTag, blknum: u32) -> bool {
    e.seg == seg && e.blknum == blknum
}

/// Versions of other pages do not show in what a read gathers.
pub proof fn lemma_gather_skips(
    p: Seq<PageEntryView>,
    q: Seq<PageEntryView>,
    seg: SegmentTag,
    blknum: u32,
    lsn: Lsn,
    data: ReconstructView,
)
    requires
        forall|i: int| 0 <= i < q.len() ==> !version_of(#[trigger] q[i], seg, blknum),
    ensures
        gather(p + q, seg, blknum, lsn, data) == gather(p, seg, blknum, lsn, data),
    decreases q.len(),
{
    if q.len() == 0 {
        assert(p + q =~= p);
    } else {
        assert((p + q).drop_last() =~= p + q.drop_last());
        assert((p + q).last() == q.last());
        assert(!version_of(q[q.len() - 1], seg, blknum));
        assert forall|i: int| 0 <= i < q.drop_last().len() implies !version_of(
            #[trigger] q.drop_last()[i],
            seg,
            blknum,
        ) by {
            assert(q.drop_last()[i] == q[i]);
        }
        lemma_gather_skips(p, q.drop_last(), seg, blknum, lsn, data);
    }
}

/// The size changes that a list of writes asks for hold nothing for a segment that is not written.
pub proof fn lemma_new_events_miss(writes: Seq<SegWrite>, lsn: Lsn, seg: SegmentTag, at: Lsn)
    requires
        forall|i: int| 0 <= i < writes.len() ==> (#[trigger] writes[i]).seg != seg,
    ensures
        latest_event(new_events(writes, lsn), seg, at) is None,
    decreases writes.len(),
{
    if writes.len() > 0 {
        assert(writes[writes.len() - 1].seg != seg);
        assert forall|i: int| 0 <= i < writes.drop_last().len() implies (#[trigger] writes.drop_last()[i]).seg
            != seg by {
            assert(writes.drop_last()[i] == writes[i]);
        }
        lemma_new_events_miss(writes.drop_last(), lsn, seg, at);
        let rest = new_events(writes.drop_last(), lsn);
        match writes.last().event {
            Some(size) => {
                assert(rest.push(SegEvent { seg: writes.last().seg, lsn, size }).drop_last() =~= rest);
            },
            None => {},
        }
    }
}

/// Of writes to different segments, the size change of each is the
/// newest that the list holds for its segment.
pub proof fn lemma_new_events_hit(writes: Seq<SegWrite>, lsn: Lsn, k: int, at: Lsn)
    requires
        0 <= k < writes.len(),
        writes[k].event is Some,
        lsn.0 <= at.0,
        forall|i: int, j: int| 0 <= i < j < writes.len() ==> (#[trigger] writes[i]).seg != (#[trigger] writes[j]).seg,
    ensures
        latest_event(new_events(writes, lsn), writes[k].seg, at) == Some(
            SegEvent { seg: writes[k].seg, lsn, size: writes[k].event->0 },
        ),
    decreases writes.len(),
{
    let d = writes.drop_last();
    let rest = new_events(d, lsn);
    if k == writes.len() - 1 {
        let e = SegEvent { seg: writes[k].seg, lsn, size: writes[k].event->0 };
        assert(rest.push(e).last() == e);
    } else {
        assert forall|i: int, j: int| 0 <= i < j < d.len() implies (#[trigger] d[i]).seg != (#[trigger] d[j]).seg by {
            assert(d[i] == writes[i] && d[j] == writes[j]);
        }
        assert(d[k] == writes[k]);
        lemma_new_events_hit(d, lsn, k, at);
        assert(writes[k].seg != writes[writes.len() - 1].seg);
        match writes.last().event {
            Some(size) => {
                assert(rest.push(SegEvent { seg: writes.last().seg, lsn, size }).drop_last() =~= rest);
            },
            None => {},
        }
    }
}

/// After a batch of writes the open layer covers each segment written.
pub proof fn lemma_new_segs_cover(repo: RepoView, idx: int, open: LayerView, writes: Seq<SegWrite>, k: int)
    requires
        0 <= k < writes.len(),
        repo.new_segs(idx, open, writes) is Ok,
    ensures
        find_seg(open.segs + repo.new_segs(idx, open, writes)->Ok_0, writes[k].seg) is Some,
    decreases writes.len(),
{
    let s = repo.new_segs(idx, open, writes)->Ok_0;
    let d = writes.drop_last();
    let sd = repo.new_segs(idx, open, d)->Ok_0;
    lemma_find_seg_append(open.segs, s, writes[k].seg);
    if k == writes.len() - 1 {
        if !open.covers_seg(writes[k].seg) {
            assert(s.last().seg == writes[k].seg);
            lemma_find_seg_present(s, writes[k].seg, s.len() - 1);
        }
    } else {
        assert(d[k] == writes[k]);
        lemma_new_segs_cover(repo, idx, open, d, k);
        lemma_find_seg_append(open.segs, sd, writes[k].seg);
        if find_seg(sd, writes[k].seg) is Some {
            crate::layer::lemma_find_seg_some(sd, writes[k].seg);
            let j = choose|j: int| 0 <= j < sd.len() && (#[trigger] sd[j]).seg == writes[k].seg;
            if s.len() > sd.len() {
                assert(s.drop_last() =~= sd);
                assert(s[j] == sd[j]);
            }
            lemma_find_seg_present(s, writes[k].seg, j);
        }
    }
}

/// A batch of writes takes no segment into the open layer's coverage but those written.
pub proof fn lemma_new_segs_only(repo: RepoView, idx: int, open: LayerView, writes: Seq<SegWrite>, seg: SegmentTag)
    requires
        repo.new_segs(idx, open, writes) is Ok,
        forall|i: int| 0 <= i < writes.len() ==> (#[trigger] writes[i]).seg != seg,
    ensures
        find_seg(repo.new_segs(idx, open, writes)->Ok_0, seg) is None,
    decreases writes.len(),
{
    if writes.len() > 0 {
        let d = writes.drop_last();
        assert(writes[writes.len() - 1].seg != seg);
        assert forall|i: int| 0 <= i < d.len() implies (#[trigger] d[i]).seg != seg by {
            assert(d[i] == writes[i]);
        }
        lemma_new_segs_only(repo, idx, open, d, seg);
        let sd = repo.new_segs(idx, open, d)->Ok_0;
        let s = repo.new_segs(idx, open, writes)->Ok_0;
        if s.len() > sd.len() {
            assert(s.drop_last() =~= sd);
        }
    }
}

/// The open layer of the timeline at `idx`.
pub open spec fn open_of(repo: RepoView, idx: int) -> LayerView {
    repo.local(idx)->0.layers.open_layer->0
}

/// After a batch of writes at `lsn` a read at `lsn` of a segment that
/// the open layer covers, and that it says exists, is served by the
/// open layer, read at `lsn`. An open layer is held in memory, and can be read.
pub proof fn lemma_open_layer_serves(repo: RepoView, idx: int, seg: SegmentTag, lsn: Lsn)
    requires
        repo.local(idx) is Some,
        repo.local(idx)->0.ancestor_lsn.0 <= lsn.0,
        repo.local(idx)->0.layers.open_layer is Some,
        open_of(repo, idx).readable,
        qualifies(open_of(repo, idx), seg, lsn),
    ensures
        repo.layer_for_read(idx, seg, lsn, true) == if open_of(repo, idx).seg_exists(seg, lsn) {
            Ok::<Option<(LayerView, Lsn)>, ReadError>(Some((open_of(repo, idx), lsn)))
        } else {
            Ok::<Option<(LayerView, Lsn)>, ReadError>(None)
        },
{
}

/// The state after a write of a page version at `lsn`, once the head has moved to `lsn`.
pub open spec fn written(repo: RepoView, idx: int, rel: RelishTag, blknum: u32, lsn: Lsn, pv: PageVersionView) -> RepoView {
    let r1 = repo.put_page_version(idx, rel, blknum, lsn, pv)->Ok_0;
    r1.with_local(idx, r1.local(idx)->0.advanced(lsn))
}

/// The size that the write path takes a relish to have, or 0 where it has none.
pub open spec fn old_size(repo: RepoView, idx: int, rel: RelishTag) -> u32 {
    match repo.head_size(idx, rel) {
        Ok(Some(n)) => n,
        _ => 0,
    }
}

/// Whether a write of block `blknum` is one that is read back: the
/// write is taken, and the layer that it went to says afterwards that
/// the segment of the block exists at `lsn`. Where that layer says that
/// the segment does not exist, a read of the block finds no page
/// (`lemma_write_unread`).
pub open spec fn plain_write(repo: RepoView, idx: int, rel: RelishTag, blknum: u32, lsn: Lsn, pv: PageVersionView) -> bool {
    let tl = repo.local(idx)->0;
    let seg = SegmentTag::of_blknum(rel, blknum);
    &&& repo.local(idx) is Some
    &&& tl.wf()
    &&& blknum < u32::MAX
    &&& repo.put_page_version(idx, rel, blknum, lsn, pv) is Ok
    &&& open_after(repo, idx, rel, blknum, lsn, pv).seg_exists(seg, lsn)
}

/// Whether the segment of block `blknum` is one that a write of the
/// block leaves in being: the block extends the relish; or the layer
/// that the write goes to covers the segment already, and says that it
/// exists at `lsn`; or that layer does not cover the segment yet and
/// holds no size change of it, and the segment exists where the layer
/// starts, as the layers before it say.
pub open spec fn segment_in_being(repo: RepoView, idx: int, rel: RelishTag, blknum: u32, lsn: Lsn) -> bool {
    let open = repo.local(idx)->0.layer_for_write(lsn);
    let seg = SegmentTag::of_blknum(rel, blknum);
    ||| blknum >= old_size(repo, idx, rel)
    ||| open.covers_seg(seg) && open.seg_exists(seg, lsn)
    ||| !open.covers_seg(seg) && latest_event(open.events, seg, lsn) is None && repo.seg_size_at(
        idx,
        seg,
        open.start_lsn,
    ) matches Ok(Some(_))
}

/// A write that is taken is one that is read back, where the segment
/// of the block is one that the write leaves in being.
pub proof fn lemma_write_leaves_segment(
    repo: RepoView,
    idx: int,
    rel: RelishTag,
    blknum: u32,
    lsn: Lsn,
    pv: PageVersionView,
)
    requires
        repo.local(idx) is Some,
        repo.local(idx)->0.wf(),
        blknum < u32::MAX,
        repo.put_page_version(idx, rel, blknum, lsn, pv) is Ok,
        segment_in_being(repo, idx, rel, blknum, lsn),
    ensures
        plain_write(repo, idx, rel, blknum, lsn, pv),
{
    lemma_written_state(repo, idx, rel, blknum, lsn, pv);
    let tl = repo.local(idx)->0;
    let os = old_size(repo, idx, rel);
    let open = tl.layer_for_write(lsn);
    let open2 = open_after(repo, idx, rel, blknum, lsn, pv);
    let writes = writes_of(repo, idx, rel, blknum);
    let seg = SegmentTag::of_blknum(rel, blknum);
    if blknum >= os {
        let new = (blknum + 1) as u32;
        lemma_size_writes_distinct(rel, os, new);
        lemma_block_in_size_writes(rel, os, new, blknum);
        let k = blknum / RELISH_SEG_SIZE - os / RELISH_SEG_SIZE;
        lemma_new_segs_cover(repo, idx, open, writes, k);
        lemma_new_events_hit(writes, lsn, k, lsn);
        lemma_latest_event_append(open.events, new_events(writes, lsn), seg, lsn);
    } else {
        assert(new_events(writes, lsn) =~= Seq::empty()) by {
            assert(writes.drop_last() =~= Seq::empty());
            assert(new_events(writes.drop_last(), lsn) =~= Seq::empty());
        }
        assert(open2.events =~= open.events);
        let more = repo.new_segs(idx, open, writes)->Ok_0;
        lemma_find_seg_append(open.segs, more, seg);
        assert(writes.drop_last() =~= Seq::empty());
        assert(repo.new_segs(idx, open, writes.drop_last()) == Ok::<Seq<CoveredSeg>, ReadError>(Seq::empty()));
        assert(writes.last().seg == seg);
        if open.covers_seg(seg) {
            assert(more =~= Seq::empty());
            assert(open2.segs =~= open.segs);
        } else {
            let b = repo.seg_size_at(idx, seg, open.start_lsn)->Ok_0;
            let c = CoveredSeg { seg, base_size: b, incremental: b is Some };
            assert(more =~= seq![c]);
            assert(more.last() == c);
            assert(find_seg(more, seg) == Some(c));
        }
    }
}

/// The segments that `size_writes` touches are all different, and the last is that of the last block.
pub proof fn lemma_size_writes_distinct(rel: RelishTag, old: u32, new: u32)
    requires
        old < new,
    ensures
        size_writes_len(old, new) >= 1,
        forall|i: int, j: int|
            0 <= i < j < size_writes_len(old, new) ==> (#[trigger] size_writes(
                rel,
                old,
                new,
                size_writes_len(old, new),
            )[i]).seg != (#[trigger] size_writes(rel, old, new, size_writes_len(old, new))[j]).seg,
{
}

/// The segment of each block from the old end to the new is one that `size_writes` touches.
pub proof fn lemma_block_in_size_writes(rel: RelishTag, old: u32, new: u32, b: u32)
    requires
        old <= b < new,
    ensures
        0 <= b / RELISH_SEG_SIZE - old / RELISH_SEG_SIZE < size_writes_len(old, new),
        size_writes(rel, old, new, size_writes_len(old, new))[b / RELISH_SEG_SIZE - old / RELISH_SEG_SIZE].seg
            == SegmentTag::of_blknum(rel, b),
{
}

/// The version that a write of block `blknum` adds.
pub open spec fn written_entry(rel: RelishTag, blknum: u32, lsn: Lsn, pv: PageVersionView) -> PageEntryView {
    PageEntryView { seg: SegmentTag::of_blknum(rel, blknum), blknum: blknum % RELISH_SEG_SIZE, lsn, pv }
}

/// The segment writes that a write of block `blknum` makes.
pub open spec fn writes_of(repo: RepoView, idx: int, rel: RelishTag, blknum: u32) -> Seq<SegWrite> {
    let os = old_size(repo, idx, rel);
    if blknum >= os {
        size_writes(rel, os, (blknum + 1) as u32, size_writes_len(os, (blknum + 1) as u32))
    } else {
        seq![SegWrite { seg: SegmentTag::of_blknum(rel, blknum), event: None }]
    }
}

/// The pages of zeros that a write of block `blknum` adds before the version itself.
pub open spec fn fill_of(repo: RepoView, idx: int, rel: RelishTag, blknum: u32, lsn: Lsn) -> Seq<PageEntryView> {
    let os = old_size(repo, idx, rel);
    if blknum >= os {
        zero_entries(rel, lsn, os, blknum - os)
    } else {
        Seq::empty()
    }
}

/// The open layer after a write of block `blknum`: the layer that the
/// write goes to, with the segments written taken into its coverage,
/// and with their size changes, the pages of zeros and the version
/// after what it held.
pub open spec fn open_after(repo: RepoView, idx: int, rel: RelishTag, blknum: u32, lsn: Lsn, pv: PageVersionView) -> LayerView {
    let open = repo.local(idx)->0.layer_for_write(lsn);
    let writes = writes_of(repo, idx, rel, blknum);
    LayerView {
        segs: open.segs + repo.new_segs(idx, open, writes)->Ok_0,
        events: open.events + new_events(writes, lsn),
        pages: open.pages + fill_of(repo, idx, rel, blknum, lsn).push(written_entry(rel, blknum, lsn, pv)),
        ..open
    }
}

/// What a write of a page version leaves behind.
pub proof fn lemma_written_state(repo: RepoView, idx: int, rel: RelishTag, blknum: u32, lsn: Lsn, pv: PageVersionView)
    requires
        repo.put_page_version(idx, rel, blknum, lsn, pv) is Ok,
    ensures
        repo.local(idx) is Some,
        repo.local(idx)->0.check_write(lsn) is Ok,
        repo.head_size(idx, rel) is Ok,
        rel.blocky() || blknum == 0,
        repo.new_segs(idx, repo.local(idx)->0.layer_for_write(lsn), writes_of(repo, idx, rel, blknum)) is Ok,
        written(repo, idx, rel, blknum, lsn, pv).local(idx) is Some,
        written(repo, idx, rel, blknum, lsn, pv).timelines.len() == repo.timelines.len(),
        forall|i: int|
            0 <= i < repo.timelines.len() && i != idx ==> #[trigger] written(
                repo,
                idx,
                rel,
                blknum,
                lsn,
                pv,
            ).timelines[i] == repo.timelines[i],
        ({
            let t = written(repo, idx, rel, blknum, lsn, pv).local(idx)->0;
            let t0 = repo.local(idx)->0;
            &&& t.layers.open_layer == Some(open_after(repo, idx, rel, blknum, lsn, pv))
            &&& t.layers.frozen_layer == t0.layers.frozen_layer
            &&& t.layers.historic == t0.layers.historic
            &&& t.ancestor_lsn == t0.ancestor_lsn
            &&& t.ancestor_timeline == t0.ancestor_timeline
            &&& t.timelineid == t0.timelineid
            &&& t.last_record_lsn.last == lsn
            &&& t.disk_consistent_lsn == t0.disk_consistent_lsn
        }),
{
    let tl = repo.local(idx)->0;
    let os = old_size(repo, idx, rel);
    let open = tl.layer_for_write(lsn);
    let writes = writes_of(repo, idx, rel, blknum);
    let pages = fill_of(repo, idx, rel, blknum, lsn).push(written_entry(rel, blknum, lsn, pv));
    if blknum < os {
        assert(pages =~= seq![written_entry(rel, blknum, lsn, pv)]);
    }
    assert(repo.write_batch(idx, lsn, writes, pages) is Ok);
}

/// A write and the move of the head that follows it leave the timeline well-formed.
pub proof fn lemma_written_wf(repo: RepoView, idx: int, rel: RelishTag, blknum: u32, lsn: Lsn, pv: PageVersionView)
    requires
        repo.local(idx) is Some,
        repo.local(idx)->0.wf(),
        repo.put_page_version(idx, rel, blknum, lsn, pv) is Ok,
    ensures
        written(repo, idx, rel, blknum, lsn, pv).local(idx) is Some,
        written(repo, idx, rel, blknum, lsn, pv).local(idx)->0.wf(),
{
    lemma_written_state(repo, idx, rel, blknum, lsn, pv);
    assert(lsn.0 % 8 == 0);
}

/// After a version of a page is written at `lsn` and the head has
/// moved there, a read of the page at `lsn` is served by the open
/// layer, and gathers what a read of the layer's earlier versions with
/// the written one after them gathers: the pages of zeros that the
/// write may have added belong to other blocks.
pub proof fn lemma_read_meets_write(
    repo: RepoView,
    idx: int,
    rel: RelishTag,
    blknum: u32,
    lsn: Lsn,
    pv: PageVersionView,
    data: ReconstructView,
)
    requires
        plain_write(repo, idx, rel, blknum, lsn, pv),
    ensures
        written(repo, idx, rel, blknum, lsn, pv).layer_for_read(idx, SegmentTag::of_blknum(rel, blknum), lsn, true)
            == Ok::<Option<(LayerView, Lsn)>, ReadError>(
            Some((open_after(repo, idx, rel, blknum, lsn, pv), lsn)),
        ),
        gather(
            open_after(repo, idx, rel, blknum, lsn, pv).pages,
            SegmentTag::of_blknum(rel, blknum),
            blknum % RELISH_SEG_SIZE,
            lsn,
            data,
        ) == gather(
            repo.local(idx)->0.layer_for_write(lsn).pages.push(written_entry(rel, blknum, lsn, pv)),
            SegmentTag::of_blknum(rel, blknum),
            blknum % RELISH_SEG_SIZE,
            lsn,
            data,
        ),
{
    lemma_written_state(repo, idx, rel, blknum, lsn, pv);
    let after = written(repo, idx, rel, blknum, lsn, pv);
    let tl = repo.local(idx)->0;
    let os = old_size(repo, idx, rel);
    let open = tl.layer_for_write(lsn);
    let open2 = open_after(repo, idx, rel, blknum, lsn, pv);
    let writes = writes_of(repo, idx, rel, blknum);
    let seg = SegmentTag::of_blknum(rel, blknum);
    let sblk = (blknum % RELISH_SEG_SIZE) as u32;
    let entry = written_entry(rel, blknum, lsn, pv);
    // The open layer covers the segment, and says that it exists.
    if blknum >= os {
        let new = (blknum + 1) as u32;
        lemma_size_writes_distinct(rel, os, new);
        lemma_block_in_size_writes(rel, os, new, blknum);
        let k = blknum / RELISH_SEG_SIZE - os / RELISH_SEG_SIZE;
        lemma_new_segs_cover(repo, idx, open, writes, k);
        lemma_new_events_hit(writes, lsn, k, lsn);
        lemma_latest_event_append(open.events, new_events(writes, lsn), seg, lsn);
    } else {
        assert(writes[0].seg == seg);
        lemma_new_segs_cover(repo, idx, open, writes, 0);
    }
    assert(open2.covers_seg(seg));
    assert(open2.seg_exists(seg, lsn));
    lemma_open_layer_serves(after, idx, seg, lsn);
    // The pages of zeros are pages of other blocks.
    let fill = fill_of(repo, idx, rel, blknum, lsn);
    assert forall|i: int| 0 <= i < fill.len() implies !version_of(#[trigger] fill[i], seg, sblk) by {
        let b = (os + i) as u32;
        assert(b < blknum);
        assert(fill[i].seg.segno * RELISH_SEG_SIZE + fill[i].blknum == b);
    }
    let held_pages = open.pages;
    assert(open2.pages =~= (held_pages + fill).push(entry));
    let both = (held_pages + fill).push(entry);
    assert(both.drop_last() =~= held_pages + fill);
    assert(held_pages.push(entry).drop_last() =~= held_pages);
    lemma_gather_skips(held_pages, fill, seg, sblk, lsn, data);
    match pv {
        PageVersionView::Wal(rec) => {
            let more = ReconstructView { records: data.records.push((lsn, rec)), page_img: data.page_img };
            lemma_gather_skips(held_pages, fill, seg, sblk, lsn, more);
        },
        _ => {},
    }
}

/// Where the layer that a write went to says that the segment of the
/// block does not exist, a read of the block at the LSN of the write
/// is served by no layer, and finds no page.
pub proof fn lemma_write_unread(repo: RepoView, idx: int, rel: RelishTag, blknum: u32, lsn: Lsn, pv: PageVersionView)
    requires
        repo.local(idx) is Some,
        repo.local(idx)->0.wf(),
        blknum < u32::MAX,
        repo.put_page_version(idx, rel, blknum, lsn, pv) is Ok,
        !open_after(repo, idx, rel, blknum, lsn, pv).seg_exists(SegmentTag::of_blknum(rel, blknum), lsn),
    ensures
        written(repo, idx, rel, blknum, lsn, pv).layer_for_read(idx, SegmentTag::of_blknum(rel, blknum), lsn, true)
            == Ok::<Option<(LayerView, Lsn)>, ReadError>(None),
        !(written(repo, idx, rel, blknum, lsn, pv).page_at(idx, rel, blknum, lsn, None) matches Ok(
            PagePlan::Image(_),
        )),
        !(written(repo, idx, rel, blknum, lsn, pv).page_at(idx, rel, blknum, lsn, None) matches Ok(
            PagePlan::Redo(_),
        )),
{
    lemma_written_state(repo, idx, rel, blknum, lsn, pv);
    let after = written(repo, idx, rel, blknum, lsn, pv);
    let tl = repo.local(idx)->0;
    let os = old_size(repo, idx, rel);
    let open = tl.layer_for_write(lsn);
    let writes = writes_of(repo, idx, rel, blknum);
    let seg = SegmentTag::of_blknum(rel, blknum);
    if blknum >= os {
        let new = (blknum + 1) as u32;
        lemma_size_writes_distinct(rel, os, new);
        lemma_block_in_size_writes(rel, os, new, blknum);
        let k = blknum / RELISH_SEG_SIZE - os / RELISH_SEG_SIZE;
        lemma_new_segs_cover(repo, idx, open, writes, k);
    } else {
        assert(writes[0].seg == seg);
        lemma_new_segs_cover(repo, idx, open, writes, 0);
    }
    lemma_open_layer_serves(after, idx, seg, lsn);
}

/// Read your write: once the image of a page is written at `lsn` and
/// the head has moved there, a read of the page at `lsn` gives that image.
pub proof fn lemma_read_your_image(repo: RepoView, idx: int, rel: RelishTag, blknum: u32, lsn: Lsn, img: Seq<u8>)
    requires
        plain_write(repo, idx, rel, blknum, lsn, PageVersionView::Page(img)),
    ensures
        written(repo, idx, rel, blknum, lsn, PageVersionView::Page(img)).page_at(idx, rel, blknum, lsn, None)
            == Ok::<PagePlan, ReadError>(PagePlan::Image(img)),
{
    let pv = PageVersionView::Page(img);
    let data = ReconstructView { records: Seq::empty(), page_img: None };
    lemma_written_state(repo, idx, rel, blknum, lsn, pv);
    lemma_read_meets_write(repo, idx, rel, blknum, lsn, pv, data);
    let held_pages = repo.local(idx)->0.layer_for_write(lsn).pages;
    assert(held_pages.push(written_entry(rel, blknum, lsn, pv)).last() == written_entry(rel, blknum, lsn, pv));
}

/// Read your write: once a record that builds a page from nothing is
/// written at `lsn` and the head has moved there, a read of the page
/// at `lsn` replays that record, and nothing else.
pub proof fn lemma_read_your_init_record(
    repo: RepoView,
    idx: int,
    rel: RelishTag,
    blknum: u32,
    lsn: Lsn,
    rec: WalRecordView,
)
    requires
        rec.will_init,
        plain_write(repo, idx, rel, blknum, lsn, PageVersionView::Wal(rec)),
    ensures
        written(repo, idx, rel, blknum, lsn, PageVersionView::Wal(rec)).page_at(idx, rel, blknum, lsn, None)
            == Ok::<PagePlan, ReadError>(
            PagePlan::Redo(
                RedoRequestView { rel, blknum, lsn, base_img: None, records: seq![(lsn, rec)] },
            ),
        ),
{
    let pv = PageVersionView::Wal(rec);
    let data = ReconstructView { records: Seq::empty(), page_img: None };
    lemma_written_state(repo, idx, rel, blknum, lsn, pv);
    lemma_read_meets_write(repo, idx, rel, blknum, lsn, pv, data);
    let held_pages = repo.local(idx)->0.layer_for_write(lsn).pages;
    assert(held_pages.push(written_entry(rel, blknum, lsn, pv)).last() == written_entry(rel, blknum, lsn, pv));
    let recs = Seq::<(Lsn, WalRecordView)>::empty().push((lsn, rec));
    assert(recs.reverse() =~= seq![(lsn, rec)]);
    assert(SegmentTag::of_blknum(rel, blknum).segno * RELISH_SEG_SIZE + blknum % RELISH_SEG_SIZE == blknum);
}

/// Once a record is written at `lsn` and the head has moved there, a
/// read of the page at `lsn` takes that record first, and goes on as a
/// read of what the open layer held before goes on.
pub proof fn lemma_read_your_record(
    repo: RepoView,
    idx: int,
    rel: RelishTag,
    blknum: u32,
    lsn: Lsn,
    rec: WalRecordView,
    data: ReconstructView,
)
    requires
        !rec.will_init,
        plain_write(repo, idx, rel, blknum, lsn, PageVersionView::Wal(rec)),
        data.page_img is Some ==> (data.page_img->0).0.0 < lsn.0,
    ensures
        gather(
            open_after(repo, idx, rel, blknum, lsn, PageVersionView::Wal(rec)).pages,
            SegmentTag::of_blknum(rel, blknum),
            blknum % RELISH_SEG_SIZE,
            lsn,
            data,
        ) == gather(
            repo.local(idx)->0.layer_for_write(lsn).pages,
            SegmentTag::of_blknum(rel, blknum),
            blknum % RELISH_SEG_SIZE,
            lsn,
            ReconstructView { records: data.records.push((lsn, rec)), page_img: data.page_img },
        ),
{
    let pv = PageVersionView::Wal(rec);
    lemma_read_meets_write(repo, idx, rel, blknum, lsn, pv, data);
    let held_pages = repo.local(idx)->0.layer_for_write(lsn).pages;
    assert(held_pages.push(written_entry(rel, blknum, lsn, pv)).last() == written_entry(rel, blknum, lsn, pv));
    assert(held_pages.push(written_entry(rel, blknum, lsn, pv)).drop_last() =~= held_pages);
}

/// A write past the end of a relish fills the gap with zeros: once
/// block `blknum` is written at `lsn` and the head has moved there,
/// every block from the old end up to `blknum` reads as a page of
/// zeros at `lsn`.
pub proof fn lemma_gap_reads_zero(
    repo: RepoView,
    idx: int,
    rel: RelishTag,
    blknum: u32,
    lsn: Lsn,
    pv: PageVersionView,
    b: u32,
)
    requires
        plain_write(repo, idx, rel, blknum, lsn, pv),
        old_size(repo, idx, rel) <= b < blknum,
    ensures
        written(repo, idx, rel, blknum, lsn, pv).page_at(idx, rel, b, lsn, None) == Ok::<PagePlan, ReadError>(
            PagePlan::Image(zero_page_bytes()),
        ),
{
    lemma_written_state(repo, idx, rel, blknum, lsn, pv);
    let after = written(repo, idx, rel, blknum, lsn, pv);
    let tl = repo.local(idx)->0;
    let os = old_size(repo, idx, rel);
    let open = tl.layer_for_write(lsn);
    let open2 = open_after(repo, idx, rel, blknum, lsn, pv);
    let writes = writes_of(repo, idx, rel, blknum);
    let seg = SegmentTag::of_blknum(rel, b);
    let sblk = (b % RELISH_SEG_SIZE) as u32;
    let new = (blknum + 1) as u32;
    lemma_size_writes_distinct(rel, os, new);
    lemma_block_in_size_writes(rel, os, new, b);
    let k = b / RELISH_SEG_SIZE - os / RELISH_SEG_SIZE;
    lemma_new_segs_cover(repo, idx, open, writes, k);
    lemma_new_events_hit(writes, lsn, k, lsn);
    lemma_latest_event_append(open.events, new_events(writes, lsn), seg, lsn);
    assert(open2.seg_exists(seg, lsn));
    lemma_open_layer_serves(after, idx, seg, lsn);
    // The newest version of the block is its page of zeros.
    let fill = fill_of(repo, idx, rel, blknum, lsn);
    let entry = written_entry(rel, blknum, lsn, pv);
    let n = b - os + 1;
    let head = fill.take(n);
    let tail = fill.skip(n).push(entry);
    assert(open2.pages =~= (open.pages + head) + tail);
    assert forall|i: int| 0 <= i < tail.len() implies !version_of(#[trigger] tail[i], seg, sblk) by {
        if i < tail.len() - 1 {
            let c = (os + n + i) as u32;
            assert(tail[i] == fill[n + i]);
            assert(tail[i].seg.segno * RELISH_SEG_SIZE + tail[i].blknum == c);
        } else {
            assert(tail[i] == entry);
            assert(entry.seg.segno * RELISH_SEG_SIZE + entry.blknum == blknum);
        }
    }
    let data = ReconstructView { records: Seq::empty(), page_img: None };
    lemma_gather_skips(open.pages + head, tail, seg, sblk, lsn, data);
    assert((open.pages + head).last() == fill[b - os]);
}

/// A write leaves the size of every segment that it does not write as it was.
pub proof fn lemma_unwritten_seg_size(
    repo: RepoView,
    idx: int,
    rel: RelishTag,
    blknum: u32,
    lsn: Lsn,
    pv: PageVersionView,
    seg: SegmentTag,
)
    requires
        plain_write(repo, idx, rel, blknum, lsn, pv),
        forall|i: int|
            0 <= i < writes_of(repo, idx, rel, blknum).len() ==> (#[trigger] writes_of(repo, idx, rel, blknum)[i]).seg
                != seg,
    ensures
        written(repo, idx, rel, blknum, lsn, pv).seg_size_at(idx, seg, lsn) == repo.seg_size_at(idx, seg, lsn),
{
    lemma_written_state(repo, idx, rel, blknum, lsn, pv);
    let after = written(repo, idx, rel, blknum, lsn, pv);
    let tl = repo.local(idx)->0;
    let open = tl.layer_for_write(lsn);
    let open2 = open_after(repo, idx, rel, blknum, lsn, pv);
    let writes = writes_of(repo, idx, rel, blknum);
    lemma_new_segs_only(repo, idx, open, writes, seg);
    lemma_find_seg_append(open.segs, repo.new_segs(idx, open, writes)->Ok_0, seg);
    lemma_new_events_miss(writes, lsn, seg, lsn);
    lemma_latest_event_append(open.events, new_events(writes, lsn), seg, lsn);
    assert(open2.covers_seg(seg) == open.covers_seg(seg));
    assert(open2.seg_size(seg, lsn) == open.seg_size(seg, lsn));
    assert(agree_below(repo, after, idx));
    match repo.ancestor_index(idx) {
        Some(a) => {
            if 0 <= a < idx {
                lemma_layer_for_read_isolated(repo, after, a, idx, seg, tl.ancestor_lsn, false);
            }
        },
        None => {},
    }
    let anc = tl.ancestor_timeline;
    if anc is Some {
        crate::gc::lemma_find_same(repo.timelines, after.timelines, anc->0);
    }
    if tl.layers.open_layer is None {
        assert(!open.covers_seg(seg));
    }
}

/// Sparse relation zero-fill: once block `blknum` of a relish of which
/// the write path knew no size is written at `lsn` and the head has
/// moved there, the block reads as the image written, and every block
/// below it as a page of zeros.
pub proof fn lemma_sparse_zero_fill(
    repo: RepoView,
    idx: int,
    rel: RelishTag,
    blknum: u32,
    lsn: Lsn,
    img: Seq<u8>,
    b: u32,
)
    requires
        repo.local(idx) is Some,
        repo.local(idx)->0.wf(),
        blknum < u32::MAX,
        repo.put_page_version(idx, rel, blknum, lsn, PageVersionView::Page(img)) is Ok,
        repo.head_size(idx, rel) == Ok::<Option<u32>, ReadError>(None),
        b < blknum,
    ensures
        written(repo, idx, rel, blknum, lsn, PageVersionView::Page(img)).page_at(idx, rel, blknum, lsn, None)
            == Ok::<PagePlan, ReadError>(PagePlan::Image(img)),
        written(repo, idx, rel, blknum, lsn, PageVersionView::Page(img)).page_at(idx, rel, b, lsn, None) == Ok::<
            PagePlan,
            ReadError,
        >(PagePlan::Image(zero_page_bytes())),
{
    let pv = PageVersionView::Page(img);
    lemma_write_leaves_segment(repo, idx, rel, blknum, lsn, pv);
    lemma_read_your_image(repo, idx, rel, blknum, lsn, img);
    lemma_gap_reads_zero(repo, idx, rel, blknum, lsn, pv, b);
}

/// Once block `blknum` of a relish that did not exist is written at
/// `lsn` and the head has moved there, the relish has `blknum + 1`
/// blocks at `lsn`.
///
/// That the relish did not exist is to say that the write path knew no
/// size of it, and, where the new blocks fill their last segment, that
/// the segment after it does not exist.
pub proof fn lemma_new_relish_size(repo: RepoView, idx: int, rel: RelishTag, blknum: u32, lsn: Lsn, pv: PageVersionView)
    requires
        repo.local(idx) is Some,
        repo.local(idx)->0.wf(),
        blknum < u32::MAX,
        repo.put_page_version(idx, rel, blknum, lsn, pv) is Ok,
        repo.head_size(idx, rel) == Ok::<Option<u32>, ReadError>(None),
        (blknum + 1) % (RELISH_SEG_SIZE as int) == 0 ==> repo.seg_size_at(
            idx,
            SegmentTag { rel, segno: ((blknum + 1) / (RELISH_SEG_SIZE as int)) as u32 },
            lsn,
        ) == Ok::<Option<u32>, ReadError>(None),
    ensures
        written(repo, idx, rel, blknum, lsn, pv).relish_size(idx, rel, lsn) == Ok::<Option<u32>, ReadError>(
            Some((blknum + 1) as u32),
        ),
{
    let after = written(repo, idx, rel, blknum, lsn, pv);
    lemma_write_leaves_segment(repo, idx, rel, blknum, lsn, pv);
    lemma_written_seg_size(repo, idx, rel, blknum, lsn, pv, 0);
    if blknum + 1 >= RELISH_SEG_SIZE {
        lemma_size_from(repo, idx, rel, blknum, lsn, pv, 1);
    }
}

/// After the write of block `blknum` of a relish that did not exist,
/// each of its segments up to that of the block has the size that the
/// write gave it.
proof fn lemma_written_seg_size(
    repo: RepoView,
    idx: int,
    rel: RelishTag,
    blknum: u32,
    lsn: Lsn,
    pv: PageVersionView,
    k: int,
)
    requires
        plain_write(repo, idx, rel, blknum, lsn, pv),
        old_size(repo, idx, rel) == 0,
        0 <= k <= blknum / RELISH_SEG_SIZE,
    ensures
        written(repo, idx, rel, blknum, lsn, pv).seg_size_at(idx, SegmentTag { rel, segno: k as u32 }, lsn) == Ok::<
            Option<u32>,
            ReadError,
        >(
            Some(
                if k < (blknum + 1) / (RELISH_SEG_SIZE as int) {
                    RELISH_SEG_SIZE
                } else {
                    ((blknum + 1) % (RELISH_SEG_SIZE as int)) as u32
                },
            ),
        ),
{
    lemma_written_state(repo, idx, rel, blknum, lsn, pv);
    let after = written(repo, idx, rel, blknum, lsn, pv);
    let tl = repo.local(idx)->0;
    let open = tl.layer_for_write(lsn);
    let open2 = open_after(repo, idx, rel, blknum, lsn, pv);
    let writes = writes_of(repo, idx, rel, blknum);
    let seg = SegmentTag { rel, segno: k as u32 };
    let new = (blknum + 1) as u32;
    lemma_size_writes_distinct(rel, 0, new);
    assert(writes[k].seg == seg);
    lemma_new_segs_cover(repo, idx, open, writes, k);
    lemma_new_events_hit(writes, lsn, k, lsn);
    lemma_latest_event_append(open.events, new_events(writes, lsn), seg, lsn);
    lemma_open_layer_serves(after, idx, seg, lsn);
}

proof fn lemma_size_from(repo: RepoView, idx: int, rel: RelishTag, blknum: u32, lsn: Lsn, pv: PageVersionView, k: int)
    requires
        plain_write(repo, idx, rel, blknum, lsn, pv),
        old_size(repo, idx, rel) == 0,
        1 <= k <= (blknum + 1) / (RELISH_SEG_SIZE as int),
        (blknum + 1) % (RELISH_SEG_SIZE as int) == 0 ==> repo.seg_size_at(
            idx,
            SegmentTag { rel, segno: ((blknum + 1) / (RELISH_SEG_SIZE as int)) as u32 },
            lsn,
        ) == Ok::<Option<u32>, ReadError>(None),
    ensures
        written(repo, idx, rel, blknum, lsn, pv).relish_size_from(idx, rel, lsn, k) == Ok::<int, ReadError>(
            blknum + 1,
        ),
    decreases (blknum + 1) / (RELISH_SEG_SIZE as int) - k,
{
    let after = written(repo, idx, rel, blknum, lsn, pv);
    let full = (blknum + 1) / (RELISH_SEG_SIZE as int);
    let seg = SegmentTag { rel, segno: k as u32 };
    assert(k <= MAX_SEGNO);
    if k < full {
        lemma_written_seg_size(repo, idx, rel, blknum, lsn, pv, k);
        lemma_size_from(repo, idx, rel, blknum, lsn, pv, k + 1);
    } else if (blknum + 1) % (RELISH_SEG_SIZE as int) == 0 {
        let writes = writes_of(repo, idx, rel, blknum);
        assert forall|i: int| 0 <= i < writes.len() implies (#[trigger] writes[i]).seg != seg by {
            assert(writes[i].seg.segno == i);
        }
        lemma_unwritten_seg_size(repo, idx, rel, blknum, lsn, pv, seg);
    } else {
        lemma_written_seg_size(repo, idx, rel, blknum, lsn, pv, k);
    }
}

/// Versions above the LSN that is read at do not show in what a read gathers.
pub proof fn lemma_gather_skips_later(
    p: Seq<PageEntryView>,
    q: Seq<PageEntryView>,
    seg: SegmentTag,
    blknum: u32,
    lsn: Lsn,
    data: ReconstructView,
)
    requires
        forall|i: int| 0 <= i < q.len() ==> (#[trigger] q[i]).lsn.0 > lsn.0,
    ensures
        gather(p + q, seg, blknum, lsn, data) == gather(p, seg, blknum, lsn, data),
    decreases q.len(),
{
    if q.len() == 0 {
        assert(p + q =~= p);
    } else {
        assert((p + q).drop_last() =~= p + q.drop_last());
        assert((p + q).last() == q.last());
        assert(q[q.len() - 1].lsn.0 > lsn.0);
        assert forall|i: int| 0 <= i < q.drop_last().len() implies (#[trigger] q.drop_last()[i]).lsn.0 > lsn.0 by {
            assert(q.drop_last()[i] == q[i]);
        }
        lemma_gather_skips_later(p, q.drop_last(), seg, blknum, lsn, data);
    }
}

/// The size changes of a batch of writes lie at the LSN of the batch, and do not show below it.
pub proof fn lemma_new_events_later(writes: Seq<SegWrite>, at: Lsn, seg: SegmentTag, lsn: Lsn)
    ensures
        lsn.0 < at.0 ==> latest_event(new_events(writes, at), seg, lsn) is None,
        forall|i: int| 0 <= i < new_events(writes, at).len() ==> (#[trigger] new_events(writes, at)[i]).lsn == at,
    decreases writes.len(),
{
    if writes.len() > 0 {
        lemma_new_events_later(writes.drop_last(), at, seg, lsn);
        let rest = new_events(writes.drop_last(), at);
        match writes.last().event {
            Some(size) => {
                let e = SegEvent { seg: writes.last().seg, lsn: at, size };
                assert(rest.push(e).drop_last() =~= rest);
                assert forall|i: int| 0 <= i < rest.push(e).len() implies (#[trigger] rest.push(e)[i]).lsn == at by {
                    if i < rest.len() {
                        assert(rest.push(e)[i] == rest[i]);
                    }
                }
            },
            None => {},
        }
    }
}

/// Where every size change lies at or below an LSN, the newest at that
/// LSN is the newest at every LSN above it.
pub proof fn lemma_latest_event_settled(events: Seq<SegEvent>, seg: SegmentTag, at: Lsn, lsn: Lsn)
    requires
        forall|i: int| 0 <= i < events.len() ==> (#[trigger] events[i]).lsn.0 <= at.0,
        at.0 <= lsn.0,
    ensures
        latest_event(events, seg, lsn) == latest_event(events, seg, at),
    decreases events.len(),
{
    if events.len() > 0 {
        assert(events[events.len() - 1].lsn.0 <= at.0);
        assert forall|i: int| 0 <= i < events.drop_last().len() implies (#[trigger] events.drop_last()[i]).lsn.0
            <= at.0 by {
            assert(events.drop_last()[i] == events[i]);
        }
        lemma_latest_event_settled(events.drop_last(), seg, at, lsn);
    }
}

/// A batch of writes adds no entry for a segment that the open layer covers already.
pub proof fn lemma_new_segs_skip_covered(
    repo: RepoView,
    idx: int,
    open: LayerView,
    writes: Seq<SegWrite>,
    seg: SegmentTag,
)
    requires
        repo.new_segs(idx, open, writes) is Ok,
        open.covers_seg(seg),
    ensures
        find_seg(repo.new_segs(idx, open, writes)->Ok_0, seg) is None,
    decreases writes.len(),
{
    if writes.len() > 0 {
        let d = writes.drop_last();
        lemma_new_segs_skip_covered(repo, idx, open, d, seg);
        let sd = repo.new_segs(idx, open, d)->Ok_0;
        let s = repo.new_segs(idx, open, writes)->Ok_0;
        if s.len() > sd.len() {
            assert(s.drop_last() =~= sd);
            assert(s.last().seg == writes.last().seg);
        }
    }
}

/// Whether the open layer that a write at `lsn` goes to holds no size change above `lsn`.
pub open spec fn nothing_ahead(repo: RepoView, idx: int, lsn: Lsn) -> bool {
    let held = repo.local(idx)->0.layer_for_write(lsn);
    forall|i: int| 0 <= i < held.events.len() ==> (#[trigger] held.events[i]).lsn.0 <= lsn.0
}

/// A read sees no later write: once the image of a page is written at
/// `first` and the head has moved there, and then a version of any
/// page, this one or another, is written at `second` and the head has
/// moved there, a read of the page at an LSN from `first` up to
/// `second`, `second` left out, gives the image.
pub proof fn lemma_read_below_later_write(
    repo: RepoView,
    idx: int,
    rel: RelishTag,
    blknum: u32,
    first: Lsn,
    img: Seq<u8>,
    wrel: RelishTag,
    wblk: u32,
    second: Lsn,
    pv: PageVersionView,
    lsn: Lsn,
)
    requires
        plain_write(repo, idx, rel, blknum, first, PageVersionView::Page(img)),
        nothing_ahead(repo, idx, first),
        written(repo, idx, rel, blknum, first, PageVersionView::Page(img)).put_page_version(
            idx,
            wrel,
            wblk,
            second,
            pv,
        ) is Ok,
        first.0 <= lsn.0 < second.0,
    ensures
        written(
            written(repo, idx, rel, blknum, first, PageVersionView::Page(img)),
            idx,
            wrel,
            wblk,
            second,
            pv,
        ).page_at(idx, rel, blknum, lsn, None) == Ok::<PagePlan, ReadError>(PagePlan::Image(img)),
{
    let pv1 = PageVersionView::Page(img);
    let data = ReconstructView { records: Seq::empty(), page_img: None };
    let seg = SegmentTag::of_blknum(rel, blknum);
    let sblk = (blknum % RELISH_SEG_SIZE) as u32;
    let mid = written(repo, idx, rel, blknum, first, pv1);
    let after = written(mid, idx, wrel, wblk, second, pv);
    lemma_written_state(repo, idx, rel, blknum, first, pv1);
    lemma_read_meets_write(repo, idx, rel, blknum, first, pv1, data);
    crate::isolation::lemma_layer_for_read_qualifies(mid, idx, seg, first, true);
    lemma_written_state(mid, idx, wrel, wblk, second, pv);
    let held = repo.local(idx)->0.layer_for_write(first);
    let open1 = open_after(repo, idx, rel, blknum, first, pv1);
    let open2 = open_after(mid, idx, wrel, wblk, second, pv);
    let writes1 = writes_of(repo, idx, rel, blknum);
    let writes2 = writes_of(mid, idx, wrel, wblk);
    assert(mid.local(idx)->0.layer_for_write(second) == open1);
    // The segment is covered as it was.
    let more_segs = mid.new_segs(idx, open1, writes2)->Ok_0;
    lemma_new_segs_skip_covered(mid, idx, open1, writes2, seg);
    lemma_find_seg_append(open1.segs, more_segs, seg);
    assert(find_seg(open2.segs, seg) == find_seg(open1.segs, seg));
    // Its size at `lsn` is the size it had at `first`.
    lemma_new_events_later(writes1, first, seg, first);
    assert forall|i: int| 0 <= i < open1.events.len() implies (#[trigger] open1.events[i]).lsn.0 <= first.0 by {
        if i < held.events.len() {
            assert(open1.events[i] == held.events[i]);
        } else {
            assert(open1.events[i] == new_events(writes1, first)[i - held.events.len()]);
        }
    }
    lemma_latest_event_settled(open1.events, seg, first, lsn);
    lemma_new_events_later(writes2, second, seg, lsn);
    lemma_latest_event_append(open1.events, new_events(writes2, second), seg, lsn);
    assert(open2.seg_size(seg, lsn) == open1.seg_size(seg, first));
    assert(open2.seg_exists(seg, lsn));
    lemma_open_layer_serves(after, idx, seg, lsn);
    // The versions written at `second` do not show, and the image is the newest below them.
    let entry1 = written_entry(rel, blknum, first, pv1);
    let more_pages = fill_of(mid, idx, wrel, wblk, second).push(written_entry(wrel, wblk, second, pv));
    assert forall|i: int| 0 <= i < more_pages.len() implies (#[trigger] more_pages[i]).lsn.0 > lsn.0 by {
        if i < more_pages.len() - 1 {
            assert(more_pages[i] == fill_of(mid, idx, wrel, wblk, second)[i]);
        }
    }
    assert(open2.pages =~= open1.pages + more_pages);
    lemma_gather_skips_later(open1.pages, more_pages, seg, sblk, lsn, data);
    assert(open1.pages.last() == entry1);
}

/// Two writes of one page, each followed by the head: once the image
/// `img` is written at `first` and then `again` at `second`, a read at
/// `second` gives `again`, and a read at an LSN from `first` up to
/// `second`, `second` left out, gives `img`. A read shows the versions
/// at or below its LSN, and no later one.
pub proof fn lemma_two_writes_read(
    repo: RepoView,
    idx: int,
    rel: RelishTag,
    blknum: u32,
    first: Lsn,
    img: Seq<u8>,
    second: Lsn,
    again: Seq<u8>,
    lsn: Lsn,
)
    requires
        plain_write(repo, idx, rel, blknum, first, PageVersionView::Page(img)),
        nothing_ahead(repo, idx, first),
        written(repo, idx, rel, blknum, first, PageVersionView::Page(img)).put_page_version(
            idx,
            rel,
            blknum,
            second,
            PageVersionView::Page(again),
        ) is Ok,
        first.0 <= lsn.0 < second.0,
    ensures
        written(
            written(repo, idx, rel, blknum, first, PageVersionView::Page(img)),
            idx,
            rel,
            blknum,
            second,
            PageVersionView::Page(again),
        ).page_at(idx, rel, blknum, second, None) == Ok::<PagePlan, ReadError>(PagePlan::Image(again)),
        written(
            written(repo, idx, rel, blknum, first, PageVersionView::Page(img)),
            idx,
            rel,
            blknum,
            second,
            PageVersionView::Page(again),
        ).page_at(idx, rel, blknum, lsn, None) == Ok::<PagePlan, ReadError>(PagePlan::Image(img)),
{
    let pv1 = PageVersionView::Page(img);
    let pv2 = PageVersionView::Page(again);
    let data = ReconstructView { records: Seq::empty(), page_img: None };
    let seg = SegmentTag::of_blknum(rel, blknum);
    let mid = written(repo, idx, rel, blknum, first, pv1);
    lemma_read_below_later_write(repo, idx, rel, blknum, first, img, rel, blknum, second, pv2, lsn);
    lemma_written_state(repo, idx, rel, blknum, first, pv1);
    lemma_read_meets_write(repo, idx, rel, blknum, first, pv1, data);
    crate::isolation::lemma_layer_for_read_qualifies(mid, idx, seg, first, true);
    let held = repo.local(idx)->0.layer_for_write(first);
    let open1 = open_after(repo, idx, rel, blknum, first, pv1);
    let writes1 = writes_of(repo, idx, rel, blknum);
    assert(mid.local(idx)->0.layer_for_write(second) == open1);
    lemma_new_events_later(writes1, first, seg, first);
    assert forall|i: int| 0 <= i < open1.events.len() implies (#[trigger] open1.events[i]).lsn.0 <= first.0 by {
        if i < held.events.len() {
            assert(open1.events[i] == held.events[i]);
        } else {
            assert(open1.events[i] == new_events(writes1, first)[i - held.events.len()]);
        }
    }
    lemma_latest_event_settled(open1.events, seg, first, second);
    assert(open1.seg_exists(seg, second));
    lemma_written_wf(repo, idx, rel, blknum, first, pv1);
    lemma_write_leaves_segment(mid, idx, rel, blknum, second, pv2);
    lemma_read_your_image(mid, idx, rel, blknum, second, again);
}

} // verus!
