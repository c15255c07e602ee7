//! Reads and the timelines they depend on.
//!
//! A read on a timeline looks at that timeline and at those it goes
//! back to, all of which stand before it. So what happens to a timeline
//! does not show in reads on the timelines before it, however many
//! things are done, and a timeline that has no layers of its own at or
//! below its branch point reads there what the timeline it was branched
//! from reads.

use crate::checkpoint::{checkpoint_post, CheckpointError, FlushOutcome};
use crate::gc::{lemma_checkpoint_keeps, lemma_find_same};
use crate::layer::LayerView;
use crate::load::{file_actions, loaded_layers, FileAction, LayerFileView, LayerLoadError};
use crate::lsn::ZTimelineId;
use crate::manage::load_post;
use crate::metadata::{encoding, lemma_metadata_roundtrip};
use crate::repository::{lemma_find_entry_first, EntryView};
use crate::layer_map::{lemma_best_historic, qualifies, LayerMapView};
use crate::lsn::Lsn;
use crate::page::{PageReconstructResult, PageVersionView, ReconstructView, RedoRequest, WalRedoError};
use crate::read::MAX_SEGNO;
use crate::relish::{RelTag, RelishTag, SegmentTag, RELISH_SEG_SIZE};
use crate::repository::{lemma_find_entry, RepoView};
use crate::timeline::TimelineView;
use bytes::Bytes;
use vstd::prelude::*;

verus! {

/// Whether two states hold the same timelines at the same places, and
/// differ at most in what they hold at place `j` and after.
pub open spec fn agree_below(a: RepoView, b: RepoView, j: int) -> bool {
    &&& a.timelines.len() == b.timelines.len()
    &&& forall|i: int| 0 <= i < a.timelines.len() ==> (#[trigger] a.timelines[i]).id() == b.timelines[i].id()
    &&& forall|i: int| 0 <= i < j && i < a.timelines.len() ==> #[trigger] a.timelines[i] == b.timelines[i]
}

/// A state agrees with what becomes of it when the timeline at `j` changes and keeps its id.
pub proof fn lemma_with_local_agrees(a: RepoView, j: int, t: TimelineView)
    requires
        a.local(j) is Some,
        a.local(j)->0.timelineid == t.timelineid,
    ensures
        agree_below(a, a.with_local(j, t), j),
{
}

proof fn lemma_same_ancestor(a: RepoView, b: RepoView, i: int, j: int)
    requires
        agree_below(a, b, j),
        i < j,
    ensures
        a.local(i) == b.local(i),
        a.ancestor_index(i) == b.ancestor_index(i),
{
    if 0 <= i < a.timelines.len() {
        assert(a.timelines[i] == b.timelines[i]);
        if a.local(i) is Some && a.local(i)->0.ancestor_timeline is Some {
            let anc = a.local(i)->0.ancestor_timeline->0;
            lemma_find_same(a.timelines, b.timelines, anc);
            lemma_find_entry(a.timelines, anc);
            if a.find(anc) is Some {
                let k = a.find(anc)->0;
                if k < i {
                    assert(a.timelines[k] == b.timelines[k]);
                }
            }
        }
    }
}

/// The layer that serves a read on a timeline does not depend on the timelines after it.
pub proof fn lemma_layer_for_read_isolated(
    a: RepoView,
    b: RepoView,
    i: int,
    j: int,
    seg: SegmentTag,
    lsn: Lsn,
    descend: bool,
)
    requires
        agree_below(a, b, j),
        i < j,
    ensures
        a.layer_for_read(i, seg, lsn, descend) == b.layer_for_read(i, seg, lsn, descend),
    decreases i,
{
    lemma_same_ancestor(a, b, i, j);
    if a.local(i) is Some {
        let tl = a.local(i)->0;
        match a.ancestor_index(i) {
            Some(k) => {
                if 0 <= k < i {
                    lemma_layer_for_read_isolated(a, b, k, j, seg, lsn, true);
                    lemma_layer_for_read_isolated(a, b, k, j, seg, tl.ancestor_lsn, false);
                }
            },
            None => {},
        }
    }
}

/// What a read gathers on a timeline does not depend on the timelines after it.
pub proof fn lemma_gather_isolated(
    a: RepoView,
    b: RepoView,
    i: int,
    j: int,
    seg: SegmentTag,
    blknum: u32,
    lsn: Lsn,
    layer: LayerView,
    data: ReconstructView,
)
    requires
        agree_below(a, b, j),
        i < j,
    ensures
        a.gather_page(i, seg, blknum, lsn, layer, data) == b.gather_page(i, seg, blknum, lsn, layer, data),
    decreases lsn.0,
{
    let (d, res) = layer.reconstruct(seg, blknum, lsn, data);
    match res {
        PageReconstructResult::Continue(cont) => {
            lemma_layer_for_read_isolated(a, b, i, j, seg, cont, true);
            match a.layer_for_read(i, seg, cont, true) {
                Ok(Some(f)) => {
                    if (f.1).0 < lsn.0 {
                        lemma_gather_isolated(a, b, i, j, seg, blknum, f.1, f.0, d);
                    }
                },
                _ => {},
            }
        },
        _ => {},
    }
}

pub proof fn lemma_relish_size_from_isolated(
    a: RepoView,
    b: RepoView,
    i: int,
    j: int,
    rel: RelishTag,
    lsn: Lsn,
    segno: int,
)
    requires
        agree_below(a, b, j),
        i < j,
    ensures
        a.relish_size_from(i, rel, lsn, segno) == b.relish_size_from(i, rel, lsn, segno),
    decreases MAX_SEGNO + 1 - segno,
{
    if 0 <= segno <= MAX_SEGNO {
        lemma_layer_for_read_isolated(a, b, i, j, SegmentTag { rel, segno: segno as u32 }, lsn, true);
        lemma_relish_size_from_isolated(a, b, i, j, rel, lsn, segno + 1);
    }
}

proof fn lemma_chain_isolated(a: RepoView, b: RepoView, i: int, j: int, rel: RelishTag, lsn: Lsn)
    requires
        agree_below(a, b, j),
        i < j,
    ensures
        a.chain_local(i) == b.chain_local(i),
        a.first_observation(i, rel, lsn) == b.first_observation(i, rel, lsn),
    decreases i,
{
    lemma_same_ancestor(a, b, i, j);
    if a.local(i) is Some {
        match a.ancestor_index(i) {
            Some(k) => {
                if 0 <= k < i {
                    lemma_chain_isolated(a, b, k, j, rel, lsn);
                }
            },
            None => {},
        }
    }
}

/// Whatever happens to a timeline, every read on a timeline that
/// stands before it gives what it gave: the same page, the same size,
/// the same relishes.
pub proof fn lemma_reads_isolated(
    a: RepoView,
    b: RepoView,
    i: int,
    j: int,
    rel: RelishTag,
    blknum: u32,
    lsn: Lsn,
    cached: Option<(Lsn, Seq<u8>)>,
    tag: Option<RelTag>,
)
    requires
        agree_below(a, b, j),
        i < j,
    ensures
        a.page_at(i, rel, blknum, lsn, cached) == b.page_at(i, rel, blknum, lsn, cached),
        a.relish_size(i, rel, lsn) == b.relish_size(i, rel, lsn),
        a.rel_exists(i, rel, lsn) == b.rel_exists(i, rel, lsn),
        a.chain_local(i) == b.chain_local(i),
        a.lists(i, tag, lsn, rel) == b.lists(i, tag, lsn, rel),
{
    lemma_same_ancestor(a, b, i, j);
    let seg = SegmentTag::of_blknum(rel, blknum);
    let seg0 = SegmentTag { rel, segno: 0 };
    lemma_layer_for_read_isolated(a, b, i, j, seg, lsn, true);
    lemma_layer_for_read_isolated(a, b, i, j, seg0, lsn, true);
    lemma_relish_size_from_isolated(a, b, i, j, rel, lsn, 1);
    lemma_chain_isolated(a, b, i, j, rel, lsn);
    match a.layer_for_read(i, seg, lsn, true) {
        Ok(Some(f)) => {
            let held = crate::read::held_page(seg, f.1, cached);
            lemma_gather_isolated(
                a,
                b,
                i,
                j,
                seg,
                blknum % RELISH_SEG_SIZE,
                f.1,
                f.0,
                ReconstructView { records: Seq::empty(), page_img: held },
            );
        },
        _ => {},
    }
}

/// Writes to a timeline do not show in reads on the timelines before
/// it: on the timeline it was branched from, and on every other that it
/// can read through.
pub proof fn lemma_writes_isolated(
    repo: RepoView,
    child: int,
    parent: int,
    wrel: RelishTag,
    wblk: u32,
    wlsn: Lsn,
    pv: PageVersionView,
    rel: RelishTag,
    blknum: u32,
    lsn: Lsn,
    cached: Option<(Lsn, Seq<u8>)>,
)
    requires
        parent < child,
        repo.put_page_version(child, wrel, wblk, wlsn, pv) is Ok,
    ensures
        repo.put_page_version(child, wrel, wblk, wlsn, pv)->Ok_0.page_at(parent, rel, blknum, lsn, cached)
            == repo.page_at(parent, rel, blknum, lsn, cached),
        repo.put_page_version(child, wrel, wblk, wlsn, pv)->Ok_0.relish_size(parent, rel, lsn) == repo.relish_size(
            parent,
            rel,
            lsn,
        ),
{
    let after = repo.put_page_version(child, wrel, wblk, wlsn, pv)->Ok_0;
    assert(agree_below(repo, after, child));
    lemma_reads_isolated(repo, after, parent, child, rel, blknum, lsn, cached, None);
}

/// Whether every layer of a timeline starts above `lsn`, and the next
/// open layer will.
pub open spec fn starts_after(tl: TimelineView, lsn: Lsn) -> bool {
    &&& tl.layers.open_layer is Some ==> tl.layers.open_layer->0.start_lsn.0 > lsn.0
    &&& tl.layers.frozen_layer is Some ==> tl.layers.frozen_layer->0.start_lsn.0 > lsn.0
    &&& tl.layers.next_open_layer_at is Some ==> (tl.layers.next_open_layer_at->0).0 > lsn.0
    &&& forall|k: int| 0 <= k < tl.layers.historic.len() ==> (#[trigger] tl.layers.historic[k]).start_lsn.0 > lsn.0
}

proof fn lemma_no_layer_at(m: LayerMapView, seg: SegmentTag, lsn: Lsn)
    requires
        m.open_layer is Some ==> m.open_layer->0.start_lsn.0 > lsn.0,
        m.frozen_layer is Some ==> m.frozen_layer->0.start_lsn.0 > lsn.0,
        forall|k: int| 0 <= k < m.historic.len() ==> (#[trigger] m.historic[k]).start_lsn.0 > lsn.0,
    ensures
        m.get(seg, lsn) is None,
{
    lemma_best_historic(m.historic, seg, lsn);
    if crate::layer_map::best_historic(m.historic, seg, lsn) is Some {
        let b = crate::layer_map::best_historic(m.historic, seg, lsn)->0;
        assert(m.historic[b].start_lsn.0 > lsn.0);
    }
}

/// Whether a read at `lsn` on a timeline branched off at `branch`
/// goes the way a read on the timeline it was branched from goes: it
/// lies below the branch point, or at it, where that is no lower than
/// the point at which the parent was branched off in its turn.
pub open spec fn reads_as_parent(lsn: Lsn, branch: Lsn, parent: TimelineView) -> bool {
    lsn.0 < branch.0 || (lsn.0 == branch.0 && branch.0 >= parent.ancestor_lsn.0)
}

proof fn lemma_layer_as_parent(repo: RepoView, child: int, parent: int, seg: SegmentTag, lsn: Lsn)
    requires
        repo.local(child) is Some,
        repo.ancestor_index(child) == Some(parent),
        starts_after(repo.local(child)->0, repo.local(child)->0.ancestor_lsn),
        reads_as_parent(lsn, repo.local(child)->0.ancestor_lsn, repo.local(parent)->0),
    ensures
        repo.layer_for_read(child, seg, lsn, true) == repo.layer_for_read(parent, seg, lsn, true),
{
    reveal_with_fuel(RepoView::layer_for_read, 2);
    let tl = repo.local(child)->0;
    if lsn.0 == tl.ancestor_lsn.0 {
        lemma_no_layer_at(tl.layers, seg, lsn);
        assert(lsn == tl.ancestor_lsn);
    }
}

/// The layer that serves a read starts at or below the LSN it is read at, and covers the segment.
pub proof fn lemma_layer_for_read_qualifies(repo: RepoView, idx: int, seg: SegmentTag, lsn: Lsn, descend: bool)
    ensures
        repo.layer_for_read(idx, seg, lsn, descend) matches Ok(Some(f)) ==> qualifies(f.0, seg, f.1) && f.0.seg_exists(
            seg,
            f.1,
        ),
    decreases idx,
{
    if repo.local(idx) is Some {
        let tl = repo.local(idx)->0;
        lemma_best_historic(tl.layers.historic, seg, lsn);
        match repo.ancestor_index(idx) {
            Some(k) => {
                if 0 <= k < idx {
                    lemma_layer_for_read_qualifies(repo, k, seg, lsn, true);
                    lemma_layer_for_read_qualifies(repo, k, seg, tl.ancestor_lsn, false);
                }
            },
            None => {},
        }
    }
}

proof fn lemma_gather_as_parent(
    repo: RepoView,
    child: int,
    parent: int,
    seg: SegmentTag,
    blknum: u32,
    lsn: Lsn,
    layer: LayerView,
    data: ReconstructView,
)
    requires
        repo.local(child) is Some,
        repo.ancestor_index(child) == Some(parent),
        starts_after(repo.local(child)->0, repo.local(child)->0.ancestor_lsn),
        lsn.0 <= repo.local(child)->0.ancestor_lsn.0,
        layer.start_lsn.0 <= lsn.0,
    ensures
        repo.gather_page(child, seg, blknum, lsn, layer, data) == repo.gather_page(
            parent,
            seg,
            blknum,
            lsn,
            layer,
            data,
        ),
    decreases lsn.0,
{
    let (d, res) = layer.reconstruct(seg, blknum, lsn, data);
    match res {
        PageReconstructResult::Continue(cont) => {
            lemma_layer_as_parent(repo, child, parent, seg, cont);
            lemma_layer_for_read_qualifies(repo, child, seg, cont, true);
            match repo.layer_for_read(child, seg, cont, true) {
                Ok(Some(f)) => {
                    if (f.1).0 < lsn.0 {
                        lemma_gather_as_parent(repo, child, parent, seg, blknum, f.1, f.0, d);
                    }
                },
                _ => {},
            }
        },
        _ => {},
    }
}

impl RepoView {
    /// Whether each timeline from the one at `idx` back was branched
    /// off at or above the point at which its parent was branched off.
    pub open spec fn branches_ordered(self, idx: int) -> bool
        decreases idx,
    {
        match self.ancestor_index(idx) {
            Some(a) => 0 <= a < idx && self.local(idx)->0.ancestor_lsn.0 >= self.local(a)->0.ancestor_lsn.0
                && self.branches_ordered(a),
            None => true,
        }
    }
}

/// Where the branch points are in order, a read is served at the LSN
/// asked for or below.
pub proof fn lemma_read_lsn_not_raised(repo: RepoView, idx: int, seg: SegmentTag, lsn: Lsn, descend: bool)
    requires
        repo.branches_ordered(idx),
        descend || (repo.local(idx) is Some && lsn.0 >= repo.local(idx)->0.ancestor_lsn.0),
    ensures
        repo.layer_for_read(idx, seg, lsn, descend) matches Ok(Some(f)) ==> (f.1).0 <= lsn.0,
    decreases idx,
{
    if repo.local(idx) is Some {
        let tl = repo.local(idx)->0;
        match repo.ancestor_index(idx) {
            Some(k) => {
                if 0 <= k < idx {
                    lemma_read_lsn_not_raised(repo, k, seg, lsn, true);
                    lemma_read_lsn_not_raised(repo, k, seg, tl.ancestor_lsn, false);
                }
            },
            None => {},
        }
    }
}

proof fn lemma_size_from_as_parent(repo: RepoView, child: int, parent: int, rel: RelishTag, lsn: Lsn, segno: int)
    requires
        repo.local(child) is Some,
        repo.ancestor_index(child) == Some(parent),
        starts_after(repo.local(child)->0, repo.local(child)->0.ancestor_lsn),
        reads_as_parent(lsn, repo.local(child)->0.ancestor_lsn, repo.local(parent)->0),
    ensures
        repo.relish_size_from(child, rel, lsn, segno) == repo.relish_size_from(parent, rel, lsn, segno),
    decreases MAX_SEGNO + 1 - segno,
{
    if 0 <= segno <= MAX_SEGNO {
        lemma_layer_as_parent(repo, child, parent, SegmentTag { rel, segno: segno as u32 }, lsn);
        lemma_size_from_as_parent(repo, child, parent, rel, lsn, segno + 1);
    }
}

/// A timeline that has no layer of its own at or below its branch
/// point reads, at or below that point, what the timeline it was
/// branched from reads there: the same page, the same size.
///
/// This is said of timelines whose branch points are in order, and of
/// LSNs that the parent has taken in.
pub proof fn lemma_branch_reads_parent(
    repo: RepoView,
    child: int,
    parent: int,
    rel: RelishTag,
    blknum: u32,
    lsn: Lsn,
    cached: Option<(Lsn, Seq<u8>)>,
)
    requires
        repo.local(child) is Some,
        repo.local(child)->0.wf(),
        repo.ancestor_index(child) == Some(parent),
        repo.branches_ordered(child),
        starts_after(repo.local(child)->0, repo.local(child)->0.ancestor_lsn),
        lsn.0 <= repo.local(child)->0.ancestor_lsn.0,
        lsn.0 <= repo.local(parent)->0.last_record_lsn.last.0,
    ensures
        repo.page_at(child, rel, blknum, lsn, cached) == repo.page_at(parent, rel, blknum, lsn, cached),
        repo.relish_size(child, rel, lsn) == repo.relish_size(parent, rel, lsn),
        repo.rel_exists(child, rel, lsn) == repo.rel_exists(parent, rel, lsn),
{
    let seg = SegmentTag::of_blknum(rel, blknum);
    let seg0 = SegmentTag { rel, segno: 0 };
    lemma_layer_as_parent(repo, child, parent, seg, lsn);
    lemma_layer_as_parent(repo, child, parent, seg0, lsn);
    lemma_size_from_as_parent(repo, child, parent, rel, lsn, 1);
    lemma_read_lsn_not_raised(repo, parent, seg, lsn, true);
    lemma_layer_for_read_qualifies(repo, parent, seg, lsn, true);
    match repo.layer_for_read(parent, seg, lsn, true) {
        Ok(Some(f)) => {
            let held = crate::read::held_page(seg, f.1, cached);
            lemma_gather_as_parent(
                repo,
                child,
                parent,
                seg,
                blknum % RELISH_SEG_SIZE,
                f.1,
                f.0,
                ReconstructView { records: Seq::empty(), page_img: held },
            );
        },
        _ => {},
    }
}

/// A write leaves every layer of a timeline above an LSN that all of them started above.
pub proof fn lemma_write_starts_after(
    repo: RepoView,
    idx: int,
    lsn: Lsn,
    writes: Seq<crate::write::SegWrite>,
    pages: Seq<crate::layer::PageEntryView>,
    below: Lsn,
)
    requires
        repo.local(idx) is Some,
        starts_after(repo.local(idx)->0, below),
        repo.local(idx)->0.layers.open_layer is None ==> repo.local(idx)->0.layers.next_open_layer_at is Some,
        repo.write_batch(idx, lsn, writes, pages) is Ok,
    ensures
        starts_after(repo.write_batch(idx, lsn, writes, pages)->Ok_0.local(idx)->0, below),
{
}

/// Agreement carries over from one state to the next.
pub proof fn lemma_agree_below_chain(a: RepoView, b: RepoView, c: RepoView, j: int)
    requires
        agree_below(a, b, j),
        agree_below(b, c, j),
    ensures
        agree_below(a, c, j),
{
    assert forall|i: int| 0 <= i < a.timelines.len() implies (#[trigger] a.timelines[i]).id() == c.timelines[i].id() by {
        assert(a.timelines[i].id() == b.timelines[i].id());
        assert(b.timelines[i].id() == c.timelines[i].id());
    }
    assert forall|i: int| 0 <= i < j && i < a.timelines.len() implies #[trigger] a.timelines[i] == c.timelines[i] by {
        assert(a.timelines[i] == b.timelines[i]);
        assert(b.timelines[i] == c.timelines[i]);
    }
}

/// One thing that is done to a timeline.
pub enum TimelineOp {
    PutPageVersion { rel: RelishTag, blknum: u32, lsn: Lsn, pv: PageVersionView },
    PutCreation { rel: RelishTag, lsn: Lsn, size: u32 },
    PutTruncation { rel: RelishTag, lsn: Lsn, relsize: u32 },
    DropRelish { rel: RelishTag, lsn: Lsn },
    Advance { lsn: Lsn },
    /// A checkpoint, with what it handed out.
    Checkpoint { distance: Option<u64>, reconstruct_pages: bool, outcome: (Seq<FlushOutcome>, Option<CheckpointError>) },
    /// Making known the LSN up to which everything is on disk.
    Publish { lsn: Lsn },
    Gc { retain_lsns: Seq<Lsn>, cutoff: Lsn },
}

/// Whether `after` is what `op` makes of `before` when it is done to
/// the timeline at place `j`. A write that is refused, and an LSN that
/// cannot be made known, leave the state as it is.
pub open spec fn op_step<F: Fn(RedoRequest) -> Result<Bytes, WalRedoError>>(
    before: RepoView,
    after: RepoView,
    j: int,
    op: TimelineOp,
    redo: F,
) -> bool {
    match op {
        TimelineOp::PutPageVersion { rel, blknum, lsn, pv } => after == match before.put_page_version(
            j,
            rel,
            blknum,
            lsn,
            pv,
        ) {
            Ok(s) => s,
            Err(_) => before,
        },
        TimelineOp::PutCreation { rel, lsn, size } => after == match before.put_creation(j, rel, lsn, size) {
            Ok(s) => s,
            Err(_) => before,
        },
        TimelineOp::PutTruncation { rel, lsn, relsize } => after == match before.put_truncation(j, rel, lsn, relsize) {
            Ok(s) => s,
            Err(_) => before,
        },
        TimelineOp::DropRelish { rel, lsn } => after == match before.drop_relish(j, rel, lsn) {
            Ok(s) => s,
            Err(_) => before,
        },
        TimelineOp::Advance { lsn } => after == match before.local(j) {
            Some(tl) => before.with_local(j, tl.advanced(lsn)),
            None => before,
        },
        TimelineOp::Checkpoint { distance, reconstruct_pages, outcome } => checkpoint_post(
            before,
            after,
            j,
            distance,
            reconstruct_pages,
            outcome,
            redo,
        ),
        TimelineOp::Publish { lsn } => after == match before.local(j) {
            Some(tl) => if tl.publishable(lsn) {
                before.with_local(j, TimelineView { disk_consistent_lsn: lsn, ..tl })
            } else {
                before
            },
            None => before,
        },
        TimelineOp::Gc { retain_lsns, cutoff } => after == before.gc_timeline(j, retain_lsns, cutoff).0,
    }
}

proof fn lemma_put_agrees(repo: RepoView, j: int, rel: RelishTag, blknum: u32, lsn: Lsn, pv: PageVersionView)
    requires
        repo.put_page_version(j, rel, blknum, lsn, pv) is Ok,
    ensures
        agree_below(repo, repo.put_page_version(j, rel, blknum, lsn, pv)->Ok_0, j),
{
}

proof fn lemma_creation_agrees(repo: RepoView, j: int, rel: RelishTag, lsn: Lsn, size: u32)
    requires
        repo.put_creation(j, rel, lsn, size) is Ok,
    ensures
        agree_below(repo, repo.put_creation(j, rel, lsn, size)->Ok_0, j),
{
}

proof fn lemma_truncation_agrees(repo: RepoView, j: int, rel: RelishTag, lsn: Lsn, relsize: u32)
    requires
        repo.put_truncation(j, rel, lsn, relsize) is Ok,
    ensures
        agree_below(repo, repo.put_truncation(j, rel, lsn, relsize)->Ok_0, j),
{
}

proof fn lemma_drop_agrees(repo: RepoView, j: int, rel: RelishTag, lsn: Lsn)
    requires
        repo.drop_relish(j, rel, lsn) is Ok,
    ensures
        agree_below(repo, repo.drop_relish(j, rel, lsn)->Ok_0, j),
{
}

proof fn lemma_gc_agrees(repo: RepoView, j: int, retain_lsns: Seq<Lsn>, cutoff: Lsn)
    ensures
        agree_below(repo, repo.gc_timeline(j, retain_lsns, cutoff).0, j),
{
}

proof fn lemma_checkpoint_agrees<F: Fn(RedoRequest) -> Result<Bytes, WalRedoError>>(
    before: RepoView,
    after: RepoView,
    j: int,
    distance: Option<u64>,
    reconstruct_pages: bool,
    outcome: (Seq<FlushOutcome>, Option<CheckpointError>),
    redo: F,
)
    requires
        before.local(j) is Some ==> before.local(j)->0.wf(),
        checkpoint_post(before, after, j, distance, reconstruct_pages, outcome, redo),
    ensures
        agree_below(before, after, j),
{
    lemma_checkpoint_keeps(before, after, j, distance, reconstruct_pages, outcome, redo);
    assert forall|i: int| 0 <= i < before.timelines.len() implies (#[trigger] before.timelines[i]).id()
        == after.timelines[i].id() by {
        if i != j {
            assert(after.timelines[i] == before.timelines[i]);
        }
    }
}

/// Whatever is done to the timeline at place `j`, the timelines before it stay as they are.
pub proof fn lemma_op_agrees<F: Fn(RedoRequest) -> Result<Bytes, WalRedoError>>(
    before: RepoView,
    after: RepoView,
    j: int,
    op: TimelineOp,
    redo: F,
)
    requires
        before.local(j) is Some ==> before.local(j)->0.wf(),
        op_step(before, after, j, op, redo),
    ensures
        agree_below(before, after, j),
{
    match op {
        TimelineOp::PutPageVersion { rel, blknum, lsn, pv } => {
            if before.put_page_version(j, rel, blknum, lsn, pv) is Ok {
                lemma_put_agrees(before, j, rel, blknum, lsn, pv);
            }
        },
        TimelineOp::PutCreation { rel, lsn, size } => {
            if before.put_creation(j, rel, lsn, size) is Ok {
                lemma_creation_agrees(before, j, rel, lsn, size);
            }
        },
        TimelineOp::PutTruncation { rel, lsn, relsize } => {
            if before.put_truncation(j, rel, lsn, relsize) is Ok {
                lemma_truncation_agrees(before, j, rel, lsn, relsize);
            }
        },
        TimelineOp::DropRelish { rel, lsn } => {
            if before.drop_relish(j, rel, lsn) is Ok {
                lemma_drop_agrees(before, j, rel, lsn);
            }
        },
        TimelineOp::Advance { lsn } => {},
        TimelineOp::Checkpoint { distance, reconstruct_pages, outcome } => {
            lemma_checkpoint_agrees(before, after, j, distance, reconstruct_pages, outcome, redo);
        },
        TimelineOp::Publish { lsn } => {},
        TimelineOp::Gc { retain_lsns, cutoff } => {
            lemma_gc_agrees(before, j, retain_lsns, cutoff);
        },
    }
}

/// Whether `states` are what a timeline at place `j` goes through as
/// the operations `ops` are done to it, one after the other.
pub open spec fn ops_on<F: Fn(RedoRequest) -> Result<Bytes, WalRedoError>>(
    states: Seq<RepoView>,
    ops: Seq<TimelineOp>,
    j: int,
    redo: F,
) -> bool {
    &&& states.len() == ops.len() + 1
    &&& forall|k: int|
        0 <= k < ops.len() ==> ((#[trigger] states[k]).local(j) is Some ==> states[k].local(j)->0.wf()) && op_step(
            states[k],
            states[k + 1],
            j,
            ops[k],
            redo,
        )
}

/// However many things are done to a timeline, the timelines before it stay as they are.
pub proof fn lemma_ops_agree<F: Fn(RedoRequest) -> Result<Bytes, WalRedoError>>(
    states: Seq<RepoView>,
    ops: Seq<TimelineOp>,
    j: int,
    redo: F,
)
    requires
        ops_on(states, ops, j, redo),
    ensures
        agree_below(states[0], states.last(), j),
    decreases ops.len(),
{
    if ops.len() > 0 {
        let n = ops.len() - 1;
        let before = states.drop_last();
        assert forall|k: int| 0 <= k < n implies ((#[trigger] before[k]).local(j) is Some ==> before[k].local(j)->0.wf())
            && op_step(before[k], before[k + 1], j, ops.drop_last()[k], redo) by {
            assert(before[k] == states[k]);
            assert(op_step(states[k], states[k + 1], j, ops[k], redo));
        }
        lemma_ops_agree(before, ops.drop_last(), j, redo);
        assert(states[n].local(j) is Some ==> states[n].local(j)->0.wf());
        assert(op_step(states[n], states[n + 1], j, ops[n], redo));
        lemma_op_agrees(states[n], states[n + 1], j, ops[n], redo);
        lemma_agree_below_chain(states[0], states[n], states.last(), j);
    }
}

/// Branch isolation: whatever is done to a branch, in however many
/// steps (writes, drops, moves of its head, checkpoints, GC), the
/// timeline that it reads through as its ancestor stays as it is, its
/// head and its `disk_consistent_lsn` too, and every read on it gives
/// what it gave: the same page, the same size, the same relishes.
pub proof fn lemma_branch_isolation<F: Fn(RedoRequest) -> Result<Bytes, WalRedoError>>(
    states: Seq<RepoView>,
    ops: Seq<TimelineOp>,
    child: int,
    parent: int,
    redo: F,
    rel: RelishTag,
    blknum: u32,
    lsn: Lsn,
    cached: Option<(Lsn, Seq<u8>)>,
    tag: Option<RelTag>,
)
    requires
        ops_on(states, ops, child, redo),
        states[0].ancestor_index(child) == Some(parent),
    ensures
        states.last().local(parent) == states[0].local(parent),
        states.last().page_at(parent, rel, blknum, lsn, cached) == states[0].page_at(parent, rel, blknum, lsn, cached),
        states.last().relish_size(parent, rel, lsn) == states[0].relish_size(parent, rel, lsn),
        states.last().rel_exists(parent, rel, lsn) == states[0].rel_exists(parent, rel, lsn),
        states.last().lists(parent, tag, lsn, rel) == states[0].lists(parent, tag, lsn, rel),
{
    lemma_ops_agree(states, ops, child, redo);
    lemma_same_ancestor(states[0], states.last(), parent, child);
    lemma_reads_isolated(states[0], states.last(), parent, child, rel, blknum, lsn, cached, tag);
}

/// A new branch reads as the timeline it was branched from: once
/// `dst`, which the repository did not hold, is branched off `src` at
/// `start_lsn` and loaded from a directory that holds its metadata and
/// nothing else, a read on `dst` at or below `start_lsn` gives what the
/// read on `src` gives: the same page, the same size.
///
/// This is said of a `src` that was itself branched off at or below
/// `start_lsn`, with the branch points behind it in order, and of LSNs
/// that `src` has taken in.
pub proof fn lemma_new_branch_reads_parent(
    before: RepoView,
    after: RepoView,
    src: ZTimelineId,
    dst: ZTimelineId,
    start_lsn: Lsn,
    actions: Seq<FileAction>,
    rel: RelishTag,
    blknum: u32,
    lsn: Lsn,
    cached: Option<(Lsn, Seq<u8>)>,
)
    requires
        before.find(dst) is None,
        before.branch_metadata(src, start_lsn) is Ok,
        load_post(
            before,
            after,
            dst,
            encoding(before.branch_metadata(src, start_lsn)->Ok_0),
            Seq::empty(),
            Ok(actions),
        ),
        after.branches_ordered(after.read_index(src)),
        start_lsn.0 >= before.local_by_id(src)->0.ancestor_lsn.0,
        lsn.0 <= start_lsn.0,
        lsn.0 <= before.local_by_id(src)->0.last_record_lsn.last.0,
    ensures
        after.local_by_id(dst) is Some,
        after.local_by_id(src) == before.local_by_id(src),
        after.local_by_id(dst)->0.ancestor_timeline == Some(src),
        after.local_by_id(dst)->0.ancestor_lsn == start_lsn,
        after.local_by_id(dst)->0.last_record_lsn.last == start_lsn,
        after.local_by_id(dst)->0.disk_consistent_lsn == start_lsn,
        after.page_at(after.read_index(dst), rel, blknum, lsn, cached) == after.page_at(
            after.read_index(src),
            rel,
            blknum,
            lsn,
            cached,
        ),
        after.relish_size(after.read_index(dst), rel, lsn) == after.relish_size(after.read_index(src), rel, lsn),
        after.rel_exists(after.read_index(dst), rel, lsn) == after.rel_exists(after.read_index(src), rel, lsn),
{
    let m = before.branch_metadata(src, start_lsn)->Ok_0;
    lemma_metadata_roundtrip(m);
    let files = Seq::<LayerFileView>::empty();
    assert(file_actions(files, m.disk_consistent_lsn, 0) == Ok::<Seq<FileAction>, LayerLoadError>(Seq::empty()));
    assert(loaded_layers(files, m.disk_consistent_lsn, 0) =~= Seq::<LayerView>::empty());
    let plan = before.load_plan(dst, encoding(m), files)->Ok_0;
    let t = plan.0;
    assert(t.layers.historic =~= Seq::<LayerView>::empty());
    let placed = before.with_loaded(dst, EntryView::Local(t), t.ancestor_timeline);
    let d = before.timelines.len() as int;
    let s = before.find(src)->0;
    lemma_find_entry(before.timelines, src);
    lemma_find_entry(before.timelines, dst);
    assert(placed.timelines == before.timelines.push(EntryView::Local(t)));
    assert forall|j: int| 0 <= j < d implies (#[trigger] placed.timelines[j]).id() != dst by {
        assert(placed.timelines[j] == before.timelines[j]);
    }
    lemma_find_entry_first(placed.timelines, dst, d);
    assert forall|j: int| 0 <= j < s implies (#[trigger] placed.timelines[j]).id() != src by {
        assert(placed.timelines[j] == before.timelines[j]);
    }
    assert(placed.timelines[s] == before.timelines[s]);
    lemma_find_entry_first(placed.timelines, src, s);
    assert(after.timelines.len() == d + 1);
    assert forall|j: int| 0 <= j < d implies (#[trigger] after.timelines[j]).id() != dst by {
        assert(after.timelines[j] == before.timelines[j]);
    }
    lemma_find_entry_first(after.timelines, dst, d);
    assert forall|j: int| 0 <= j < s implies (#[trigger] after.timelines[j]).id() != src by {
        assert(after.timelines[j] == before.timelines[j]);
    }
    assert(after.timelines[s] == before.timelines[s]);
    lemma_find_entry_first(after.timelines, src, s);
    assert(after.ancestor_index(d) == Some(s));
    assert(starts_after(after.local(d)->0, start_lsn));
    assert(after.branches_ordered(d));
    lemma_branch_reads_parent(after, d, s, rel, blknum, lsn, cached);
}

/// Whether `op` leaves the flushed layers and what is frozen as they
/// are, or takes layers away: anything but a checkpoint.
pub open spec fn makes_no_layer(op: TimelineOp) -> bool {
    !(op is Checkpoint)
}

proof fn lemma_batch_keeps_branch(
    repo: RepoView,
    idx: int,
    lsn: Lsn,
    writes: Seq<crate::write::SegWrite>,
    pages: Seq<crate::layer::PageEntryView>,
    below: Lsn,
)
    requires
        repo.local(idx) is Some,
        starts_after(repo.local(idx)->0, below),
        repo.local(idx)->0.layers.open_layer is None ==> repo.local(idx)->0.layers.next_open_layer_at is Some,
        repo.write_batch(idx, lsn, writes, pages) is Ok,
    ensures
        same_branch(repo, repo.write_batch(idx, lsn, writes, pages)->Ok_0, idx, below),
{
}

/// Whether the timeline at `idx` is in `after` the branch that it is in
/// `before`, with every layer of its own above `below`.
pub open spec fn same_branch(before: RepoView, after: RepoView, idx: int, below: Lsn) -> bool {
    &&& after.local(idx) is Some
    &&& starts_after(after.local(idx)->0, below)
    &&& after.local(idx)->0.ancestor_timeline == before.local(idx)->0.ancestor_timeline
    &&& after.local(idx)->0.ancestor_lsn == before.local(idx)->0.ancestor_lsn
    &&& after.local(idx)->0.timelineid == before.local(idx)->0.timelineid
}

proof fn lemma_kept_start_after(h: Seq<LayerView>, keep: spec_fn(LayerView) -> bool, below: Lsn)
    requires
        forall|k: int| 0 <= k < h.len() ==> (#[trigger] h[k]).start_lsn.0 > below.0,
    ensures
        forall|k: int| 0 <= k < h.filter(keep).len() ==> (#[trigger] h.filter(keep)[k]).start_lsn.0 > below.0,
    decreases h.len(),
{
    reveal(Seq::filter);
    if h.len() > 0 {
        let d = h.drop_last();
        assert forall|k: int| 0 <= k < d.len() implies (#[trigger] d[k]).start_lsn.0 > below.0 by {
            assert(d[k] == h[k]);
        }
        lemma_kept_start_after(d, keep, below);
        assert(h.last() == h[h.len() - 1]);
        let f = h.filter(keep);
        let fd = d.filter(keep);
        assert forall|k: int| 0 <= k < f.len() implies (#[trigger] f[k]).start_lsn.0 > below.0 by {
            if keep(h.last()) {
                assert(f == fd.push(h.last()));
                if k < fd.len() {
                    assert(f[k] == fd[k]);
                }
            } else {
                assert(f == fd);
            }
        }
    }
}

proof fn lemma_op_keeps_branch<F: Fn(RedoRequest) -> Result<Bytes, WalRedoError>>(
    before: RepoView,
    after: RepoView,
    j: int,
    op: TimelineOp,
    redo: F,
    below: Lsn,
)
    requires
        before.local(j) is Some,
        before.local(j)->0.wf(),
        starts_after(before.local(j)->0, below),
        makes_no_layer(op),
        op_step(before, after, j, op, redo),
    ensures
        same_branch(before, after, j, below),
{
    let tl = before.local(j)->0;
    match op {
        TimelineOp::PutPageVersion { rel, blknum, lsn, pv } => {
            if before.put_page_version(j, rel, blknum, lsn, pv) is Ok {
                let os: u32 = match before.head_size(j, rel)->Ok_0 {
                    Some(n) => n,
                    None => 0u32,
                };
                let entry = crate::layer::PageEntryView {
                    seg: SegmentTag::of_blknum(rel, blknum),
                    blknum: blknum % RELISH_SEG_SIZE,
                    lsn,
                    pv,
                };
                if blknum >= os {
                    let new_size = (blknum + 1) as u32;
                    lemma_batch_keeps_branch(
                        before,
                        j,
                        lsn,
                        crate::write::size_writes(rel, os, new_size, crate::write::size_writes_len(os, new_size)),
                        crate::write::zero_entries(rel, lsn, os, blknum - os).push(entry),
                        below,
                    );
                } else {
                    lemma_batch_keeps_branch(
                        before,
                        j,
                        lsn,
                        seq![crate::write::SegWrite { seg: SegmentTag::of_blknum(rel, blknum), event: None }],
                        seq![entry],
                        below,
                    );
                }
            }
        },
        TimelineOp::PutCreation { rel, lsn, size } => {
            if before.put_creation(j, rel, lsn, size) is Ok {
                lemma_batch_keeps_branch(
                    before,
                    j,
                    lsn,
                    seq![crate::write::SegWrite { seg: SegmentTag { rel, segno: 0 }, event: Some(Some(size)) }],
                    Seq::empty(),
                    below,
                );
            }
        },
        TimelineOp::PutTruncation { rel, lsn, relsize } => {
            if before.put_truncation(j, rel, lsn, relsize) is Ok {
                let oldsize = before.relish_size(j, rel, tl.last_record_lsn.last)->Ok_0->0;
                if oldsize > relsize {
                    lemma_batch_keeps_branch(
                        before,
                        j,
                        lsn,
                        RepoView::truncation_writes(rel, oldsize, relsize),
                        Seq::empty(),
                        below,
                    );
                }
            }
        },
        TimelineOp::DropRelish { rel, lsn } => {
            if before.drop_relish(j, rel, lsn) is Ok {
                if rel.blocky() {
                    match before.relish_size(j, rel, tl.last_record_lsn.last) {
                        Ok(Some(oldsize)) => {
                            let old_last_seg = if oldsize == 0 {
                                0
                            } else {
                                (oldsize - 1) / (RELISH_SEG_SIZE as int)
                            };
                            lemma_batch_keeps_branch(
                                before,
                                j,
                                lsn,
                                crate::write::drop_writes(rel, 0, old_last_seg + 1),
                                Seq::empty(),
                                below,
                            );
                        },
                        _ => {},
                    }
                } else {
                    lemma_batch_keeps_branch(
                        before,
                        j,
                        lsn,
                        seq![crate::write::SegWrite { seg: SegmentTag { rel, segno: 0 }, event: Some(None) }],
                        Seq::empty(),
                        below,
                    );
                }
            }
        },
        TimelineOp::Advance { lsn } => {},
        TimelineOp::Checkpoint { .. } => {},
        TimelineOp::Publish { lsn } => {},
        TimelineOp::Gc { retain_lsns, cutoff } => {
            let keep = before.with_gc_cutoff(j, cutoff).gc_keeps(j, retain_lsns, cutoff);
            let h = tl.layers.historic;
            lemma_kept_start_after(h, keep, below);
        },
    }
}

proof fn lemma_ops_keep_branch<F: Fn(RedoRequest) -> Result<Bytes, WalRedoError>>(
    states: Seq<RepoView>,
    ops: Seq<TimelineOp>,
    j: int,
    redo: F,
    below: Lsn,
)
    requires
        ops_on(states, ops, j, redo),
        forall|k: int| 0 <= k < ops.len() ==> makes_no_layer(#[trigger] ops[k]),
        states[0].local(j) is Some,
        starts_after(states[0].local(j)->0, below),
    ensures
        same_branch(states[0], states.last(), j, below),
    decreases ops.len(),
{
    if ops.len() > 0 {
        let n = ops.len() - 1;
        let before = states.drop_last();
        assert forall|k: int| 0 <= k < n implies ((#[trigger] before[k]).local(j) is Some ==> before[k].local(j)->0.wf())
            && op_step(before[k], before[k + 1], j, ops.drop_last()[k], redo) by {
            assert(before[k] == states[k]);
            assert(op_step(states[k], states[k + 1], j, ops[k], redo));
        }
        assert forall|k: int| 0 <= k < n implies makes_no_layer(#[trigger] ops.drop_last()[k]) by {
            assert(ops.drop_last()[k] == ops[k]);
        }
        lemma_ops_keep_branch(before, ops.drop_last(), j, redo, below);
        assert(states[n].local(j) is Some ==> states[n].local(j)->0.wf());
        assert(op_step(states[n], states[n + 1], j, ops[n], redo));
        assert(makes_no_layer(ops[n]));
        lemma_op_keeps_branch(states[n], states[n + 1], j, ops[n], redo, below);
    }
}

proof fn lemma_order_isolated(a: RepoView, b: RepoView, i: int, j: int)
    requires
        agree_below(a, b, j),
        i < j,
    ensures
        a.branches_ordered(i) == b.branches_ordered(i),
    decreases i,
{
    lemma_same_ancestor(a, b, i, j);
    match a.ancestor_index(i) {
        Some(k) => {
            if 0 <= k < i {
                lemma_same_ancestor(a, b, k, j);
                lemma_order_isolated(a, b, k, j);
            }
        },
        None => {},
    }
}

/// Branch isolation, the other way: whatever is written to a branch,
/// and however its head moves, a read on it at or below its branch
/// point gives what the read on the timeline it was branched from
/// gives, and gave before: the same page, the same size.
///
/// This is said of a branch that had no layer of its own at or below
/// its branch point to begin with, as one that has just been made; of
/// branch points in order; of LSNs that the timeline it was branched
/// from has taken in; and of anything that is done to the branch but a
/// checkpoint.
pub proof fn lemma_written_branch_reads_parent<F: Fn(RedoRequest) -> Result<Bytes, WalRedoError>>(
    states: Seq<RepoView>,
    ops: Seq<TimelineOp>,
    child: int,
    parent: int,
    redo: F,
    rel: RelishTag,
    blknum: u32,
    lsn: Lsn,
    cached: Option<(Lsn, Seq<u8>)>,
)
    requires
        ops_on(states, ops, child, redo),
        forall|k: int| 0 <= k < ops.len() ==> makes_no_layer(#[trigger] ops[k]),
        states[0].local(child) is Some,
        states[0].local(child)->0.wf(),
        states[0].ancestor_index(child) == Some(parent),
        states[0].branches_ordered(child),
        starts_after(states[0].local(child)->0, states[0].local(child)->0.ancestor_lsn),
        states.last().local(child) is Some ==> states.last().local(child)->0.wf(),
        lsn.0 <= states[0].local(child)->0.ancestor_lsn.0,
        lsn.0 <= states[0].local(parent)->0.last_record_lsn.last.0,
    ensures
        states.last().page_at(child, rel, blknum, lsn, cached) == states[0].page_at(parent, rel, blknum, lsn, cached),
        states.last().relish_size(child, rel, lsn) == states[0].relish_size(parent, rel, lsn),
        states.last().rel_exists(child, rel, lsn) == states[0].rel_exists(parent, rel, lsn),
{
    let first = states[0];
    let last = states.last();
    let below = first.local(child)->0.ancestor_lsn;
    lemma_ops_agree(states, ops, child, redo);
    lemma_ops_keep_branch(states, ops, child, redo, below);
    lemma_same_ancestor(first, last, parent, child);
    lemma_reads_isolated(first, last, parent, child, rel, blknum, lsn, cached, None);
    if first.local(child)->0.ancestor_timeline is Some {
        let anc = first.local(child)->0.ancestor_timeline->0;
        lemma_find_same(first.timelines, last.timelines, anc);
    }
    assert(last.ancestor_index(child) == Some(parent));
    lemma_order_isolated(first, last, parent, child);
    assert(last.branches_ordered(child));
    lemma_branch_reads_parent(last, child, parent, rel, blknum, lsn, cached);
}

} // verus!
