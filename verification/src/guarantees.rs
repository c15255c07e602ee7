//! What holds of the storage whatever is done to it.

use crate::checkpoint::{
    flush_images,
    flush_post,
    checkpoint_first,
    checkpoint_post,
    checkpoint_second,
    CheckpointConfig,
    CheckpointError,
    FlushOutcome,
};
use crate::gc::lemma_checkpoint_keeps;
use crate::layer::{LayerKind, LayerView, PageEntryView};
use crate::filename::{delta_of, image_of, split};
use crate::load::{
    unrecognized_name,
    file_action,
    file_actions,
    future_layer,
    lemma_actions_index,
    lemma_loaded_within,
    loaded_layers,
    FileAction,
    LayerFileView,
};
use crate::lsn::Lsn;
use crate::page::{PageVersionView, RedoRequest, WalRedoError};
use crate::relish::RelishTag;
use crate::repository::RepoView;
use crate::timeline::TimelineView;
use crate::write::SegWrite;
use bytes::Bytes;
use vstd::prelude::*;

verus! {

/// Whether no timeline that is loaded in both states has moved back:
/// neither its head nor its `disk_consistent_lsn` is lower in `after`.
pub open spec fn lsns_no_lower(before: RepoView, after: RepoView) -> bool {
    forall|i: int|
        (#[trigger] before.local(i)) is Some && after.local(i) is Some ==> after.local(i)->0.last_record_lsn.last.0
            >= before.local(i)->0.last_record_lsn.last.0 && after.local(i)->0.disk_consistent_lsn.0
            >= before.local(i)->0.disk_consistent_lsn.0
}

/// A batch of writes moves no LSN.
pub proof fn lemma_write_batch_keeps_lsns(
    repo: RepoView,
    idx: int,
    lsn: Lsn,
    writes: Seq<SegWrite>,
    pages: Seq<PageEntryView>,
)
    requires
        repo.write_batch(idx, lsn, writes, pages) is Ok,
    ensures
        lsns_no_lower(repo, repo.write_batch(idx, lsn, writes, pages)->Ok_0),
{
}

/// Writing a page version moves no LSN.
pub proof fn lemma_put_keeps_lsns(repo: RepoView, idx: int, rel: RelishTag, blknum: u32, lsn: Lsn, pv: PageVersionView)
    requires
        repo.put_page_version(idx, rel, blknum, lsn, pv) is Ok,
    ensures
        lsns_no_lower(repo, repo.put_page_version(idx, rel, blknum, lsn, pv)->Ok_0),
{
}

/// Bringing a relish into being moves no LSN.
pub proof fn lemma_creation_keeps_lsns(repo: RepoView, idx: int, rel: RelishTag, lsn: Lsn, size: u32)
    requires
        repo.put_creation(idx, rel, lsn, size) is Ok,
    ensures
        lsns_no_lower(repo, repo.put_creation(idx, rel, lsn, size)->Ok_0),
{
}

/// Cutting a relish down moves no LSN.
pub proof fn lemma_truncation_keeps_lsns(repo: RepoView, idx: int, rel: RelishTag, lsn: Lsn, relsize: u32)
    requires
        repo.put_truncation(idx, rel, lsn, relsize) is Ok,
    ensures
        lsns_no_lower(repo, repo.put_truncation(idx, rel, lsn, relsize)->Ok_0),
{
}

/// Dropping a relish moves no LSN.
pub proof fn lemma_drop_keeps_lsns(repo: RepoView, idx: int, rel: RelishTag, lsn: Lsn)
    requires
        repo.drop_relish(idx, rel, lsn) is Ok,
    ensures
        lsns_no_lower(repo, repo.drop_relish(idx, rel, lsn)->Ok_0),
{
}

/// Moving the head of a timeline moves it forward or not at all.
pub proof fn lemma_advance_keeps_lsns(repo: RepoView, idx: int, new_lsn: Lsn)
    requires
        repo.local(idx) is Some,
    ensures
        lsns_no_lower(repo, repo.with_local(idx, repo.local(idx)->0.advanced(new_lsn))),
{
}

/// An LSN that is made known as the one up to which everything is on
/// disk lies above the one that was known, and the head stays.
pub proof fn lemma_publish_keeps_lsns(repo: RepoView, idx: int, lsn: Lsn)
    requires
        repo.local(idx) is Some,
        repo.local(idx)->0.publishable(lsn),
    ensures
        lsns_no_lower(
            repo,
            repo.with_local(idx, TimelineView { disk_consistent_lsn: lsn, ..repo.local(idx)->0 }),
        ),
{
}

/// `disk_consistent_lsn` after a flush: once a flush has got through,
/// nothing is left frozen, and the LSN that its metadata names can be
/// made known. It is the frozen layer's last LSN, above the one that
/// was known and at or below the head. Where the flush hands out no
/// metadata, that LSN is the one that was known.
pub proof fn lemma_flush_then_publish<F: Fn(RedoRequest) -> Result<Bytes, WalRedoError>>(
    before: RepoView,
    after: RepoView,
    idx: int,
    reconstruct_pages: bool,
    o: FlushOutcome,
    redo: F,
)
    requires
        before.local(idx) is Some,
        before.local(idx)->0.wf(),
        before.local(idx)->0.layers.frozen_layer is Some,
        flush_post(before, after, idx, reconstruct_pages, Ok(o), redo),
    ensures
        after.local(idx) is Some,
        after.local(idx)->0.layers.frozen_layer is None,
        after.local(idx)->0.disk_consistent_lsn == before.local(idx)->0.disk_consistent_lsn,
        o.metadata is None ==> before.local(idx)->0.disk_consistent_lsn == before.local(idx)->0.frozen_last_lsn(),
        o.metadata matches Some(m) ==> {
            let published = after.with_local(
                idx,
                TimelineView { disk_consistent_lsn: m.disk_consistent_lsn, ..after.local(idx)->0 },
            ).local(idx)->0;
            &&& m.disk_consistent_lsn == before.local(idx)->0.frozen_last_lsn()
            &&& after.local(idx)->0.publishable(m.disk_consistent_lsn)
            &&& published.disk_consistent_lsn.0 > before.local(idx)->0.disk_consistent_lsn.0
            &&& published.disk_consistent_lsn.0 <= published.last_record_lsn.last.0
            &&& published.wf()
        },
{
    crate::gc::lemma_flush_keeps(before, after, idx, reconstruct_pages, Ok(o), redo);
    let tl = before.local(idx)->0;
    let images = choose|images: Seq<LayerView>|
        #![trigger tl.flushed(images)]
        flush_images(before, idx, reconstruct_pages, images, redo) && after == before.with_local(
            idx,
            tl.flushed(images),
        ) && o == tl.flush_outcome(images);
}

/// GC moves no LSN.
pub proof fn lemma_gc_keeps_lsns(repo: RepoView, idx: int, retain_lsns: Seq<Lsn>, cutoff: Lsn)
    ensures
        lsns_no_lower(repo, repo.gc_timeline(idx, retain_lsns, cutoff).0),
{
}

/// A checkpoint moves no LSN back: the head stays, and `disk_consistent_lsn`
/// waits for what the checkpoint handed out to be on disk.
pub proof fn lemma_checkpoint_keeps_lsns<F: Fn(RedoRequest) -> Result<Bytes, WalRedoError>>(
    before: RepoView,
    after: RepoView,
    idx: int,
    distance: Option<u64>,
    reconstruct_pages: bool,
    r: (Seq<FlushOutcome>, Option<CheckpointError>),
    redo: F,
)
    requires
        before.local(idx) is Some ==> before.local(idx)->0.wf(),
        checkpoint_post(before, after, idx, distance, reconstruct_pages, r, redo),
    ensures
        lsns_no_lower(before, after),
{
    lemma_checkpoint_keeps(before, after, idx, distance, reconstruct_pages, r, redo);
    assert forall|i: int| (#[trigger] before.local(i)) is Some && after.local(i) is Some implies after.local(
        i,
    )->0.last_record_lsn.last.0 >= before.local(i)->0.last_record_lsn.last.0 && after.local(
        i,
    )->0.disk_consistent_lsn.0 >= before.local(i)->0.disk_consistent_lsn.0 by {
        if i != idx {
            assert(after.timelines[i] == before.timelines[i]);
        }
    }
}

/// A checkpoint that follows one that got through, with nothing
/// written in between, finds nothing to do: it makes no layer and
/// leaves everything as it is, `disk_consistent_lsn` too.
pub proof fn lemma_checkpoint_idempotent<
    F: Fn(RedoRequest) -> Result<Bytes, WalRedoError>,
    G: Fn(RedoRequest) -> Result<Bytes, WalRedoError>,
>(
    start: RepoView,
    settled_state: RepoView,
    again: RepoView,
    idx: int,
    distance: Option<u64>,
    first_images: bool,
    second_images: bool,
    first_result: (Seq<FlushOutcome>, Option<CheckpointError>),
    second_result: (Seq<FlushOutcome>, Option<CheckpointError>),
    first_redo: F,
    second_redo: G,
)
    requires
        start.local(idx) is Some,
        start.local(idx)->0.wf(),
        checkpoint_post(start, settled_state, idx, distance, first_images, first_result, first_redo),
        first_result.1 is None,
        checkpoint_post(settled_state, again, idx, distance, second_images, second_result, second_redo),
    ensures
        again == settled_state,
        second_result == (Seq::<FlushOutcome>::empty(), None::<CheckpointError>),
{
    lemma_checkpoint_keeps(start, settled_state, idx, distance, first_images, first_result, first_redo);
    let (mid, first) = choose|mid: RepoView, first: (Seq<FlushOutcome>, Option<CheckpointError>)|
        #![trigger checkpoint_first(settled_state, mid, idx, second_images, first, second_redo)]
        checkpoint_first(settled_state, mid, idx, second_images, first, second_redo) && checkpoint_second(
            mid,
            again,
            idx,
            distance,
            second_images,
            first,
            second_result,
            second_redo,
        );
}

/// A timeline on which nothing is frozen and nothing open is due to be
/// frozen is left as it is by a checkpoint.
pub proof fn lemma_checkpoint_of_settled<F: Fn(RedoRequest) -> Result<Bytes, WalRedoError>>(
    before: RepoView,
    after: RepoView,
    idx: int,
    cconf: CheckpointConfig,
    r: (Seq<FlushOutcome>, Option<CheckpointError>),
    redo: F,
)
    requires
        before.local(idx) is Some,
        before.local(idx)->0.settled(cconf),
        checkpoint_post(before, after, idx, cconf.distance(), cconf.reconstruct_pages(), r, redo),
    ensures
        after == before,
        r == (Seq::<FlushOutcome>::empty(), None::<CheckpointError>),
{
    let (mid, first) = choose|mid: RepoView, first: (Seq<FlushOutcome>, Option<CheckpointError>)|
        #![trigger checkpoint_first(before, mid, idx, cconf.reconstruct_pages(), first, redo)]
        checkpoint_first(before, mid, idx, cconf.reconstruct_pages(), first, redo) && checkpoint_second(
            mid,
            after,
            idx,
            cconf.distance(),
            cconf.reconstruct_pages(),
            first,
            r,
            redo,
        );
}

/// When a directory is loaded, the files that are to be moved out of
/// the way are exactly the layer files from beyond
/// `disk_consistent_lsn` and the files that are none of those a
/// directory is meant to hold. None of them goes into the map: every
/// layer that does ends at `disk_consistent_lsn + 1` at most if it is a
/// delta layer, and lies at `disk_consistent_lsn` at most if it is an
/// image. And every layer file within that reach has a layer in the
/// map, whatever the file holds.
pub proof fn lemma_future_layers_set_aside(files: Seq<LayerFileView>, disk_consistent_lsn: Lsn)
    requires
        disk_consistent_lsn.0 < u64::MAX,
        file_actions(files, disk_consistent_lsn, files.len() as int) is Ok,
    ensures
        forall|i: int|
            0 <= i < files.len() ==> (file_actions(files, disk_consistent_lsn, files.len() as int)->Ok_0[i]
                == FileAction::RenameToBackup <==> future_layer(#[trigger] files[i].name, disk_consistent_lsn)
                || unrecognized_name(files[i].name)),
        forall|i: int|
            0 <= i < files.len() ==> (file_actions(files, disk_consistent_lsn, files.len() as int)->Ok_0[i]
                == FileAction::Loaded <==> (image_of(split(#[trigger] files[i].name)) is Some || delta_of(
                split(files[i].name),
            ) is Some) && !future_layer(files[i].name, disk_consistent_lsn)),
        forall|j: int|
            0 <= j < loaded_layers(files, disk_consistent_lsn, files.len() as int).len() ==> {
                let l = #[trigger] loaded_layers(files, disk_consistent_lsn, files.len() as int)[j];
                &&& l.kind == LayerKind::Delta ==> l.end_or_max().0 <= disk_consistent_lsn.0 + 1
                &&& l.kind == LayerKind::Image ==> l.start_lsn.0 <= disk_consistent_lsn.0
                &&& l.kind != LayerKind::InMemory
            },
{
    let n = files.len() as int;
    let actions = file_actions(files, disk_consistent_lsn, n)->Ok_0;
    assert forall|i: int| 0 <= i < files.len() implies (actions[i] == FileAction::RenameToBackup <==> future_layer(
        #[trigger] files[i].name,
        disk_consistent_lsn,
    ) || unrecognized_name(files[i].name)) by {
        lemma_actions_index(files, disk_consistent_lsn, n, i);
        reveal(file_action);
    }
    assert forall|i: int| 0 <= i < files.len() implies (actions[i] == FileAction::Loaded <==> (image_of(
        split(#[trigger] files[i].name),
    ) is Some || delta_of(split(files[i].name)) is Some) && !future_layer(files[i].name, disk_consistent_lsn)) by {
        lemma_actions_index(files, disk_consistent_lsn, n, i);
        reveal(file_action);
    }
    lemma_loaded_within(files, disk_consistent_lsn, n);
}

} // verus!
