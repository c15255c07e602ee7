use bytes::Bytes;
use layered_repository::checkpoint::{CheckpointConfig, CheckpointError};
use layered_repository::gc::{GcCounts, GcError, GcResult, RemoteBranch};
use layered_repository::layer::{Layer, LayerFrozen, LayerKind};
use layered_repository::layer_map::LayerMap;
use layered_repository::lsn::{Lsn, RecordLsn, ZTenantId, ZTimelineId};
use layered_repository::manage::TimelineSyncState;
use layered_repository::page::{
    PageReconstructData, PageReconstructResult, PageVersion, RedoRequest, WalRecord, WalRedoError,
};
use layered_repository::read::ReadError;
use layered_repository::relish::{RelTag, RelishTag, SegmentTag, RELISH_SEG_SIZE};
use layered_repository::repository::{LayeredRepository, PageServerConf};

const SRC: ZTimelineId = ZTimelineId(1);
const DST: ZTimelineId = ZTimelineId(2);

const REL_A: RelishTag = RelishTag::Relation(RelTag { spcnode: 0, dbnode: 111, relnode: 1000, forknum: 0 });
const REL_B: RelishTag = RelishTag::Relation(RelTag { spcnode: 0, dbnode: 111, relnode: 1001, forknum: 0 });

fn img(s: &str) -> Bytes {
    let mut buf = s.as_bytes().to_vec();
    buf.resize(8192, 0);
    Bytes::from(buf)
}

fn make_repo() -> LayeredRepository {
    let conf = PageServerConf {
        data_dir: String::from("/tmp/test"),
        wait_lsn_timeout_ms: 1000,
        checkpoint_distance: 1 << 20,
        upload_relishes: true,
    };
    LayeredRepository::new(conf, ZTenantId(7), true)
}

// Replays by appending the text of each record to what the page holds.
fn concat_redo(req: RedoRequest) -> Result<Bytes, WalRedoError> {
    let mut text: Vec<u8> = match &req.base_img {
        Some(b) => b.iter().copied().take_while(|c| *c != 0).collect(),
        None => Vec::new(),
    };
    for (_, rec) in req.records.iter() {
        text.extend_from_slice(&rec.rec);
    }
    text.resize(8192, 0);
    Ok(Bytes::from(text))
}

fn no_redo(_req: RedoRequest) -> Result<Bytes, WalRedoError> {
    Err(WalRedoError)
}

fn rec(s: &'static str, will_init: bool) -> WalRecord {
    WalRecord { will_init, rec: Bytes::from_static(s.as_bytes()) }
}

fn write_and_checkpoint(repo: &mut LayeredRepository, id: ZTimelineId, lsn: u64, text: &str) {
    repo.put_page_image(id, REL_A, 0, Lsn(lsn), img(text)).unwrap();
    assert!(repo.advance_last_record_lsn(id, Lsn(lsn)));
    let out = repo.checkpoint(id, CheckpointConfig::Forced, &no_redo);
    assert_eq!(out.error, None);
    assert_eq!(out.flushes.len(), 1);
    assert!(out.flushes[0].upload);
    assert!(repo.publish_disk_consistent_lsn(id, out.flushes[0].metadata.unwrap().disk_consistent_lsn));
}

fn zero_counts() -> GcCounts {
    GcCounts {
        total: 0,
        needed_by_cutoff: 0,
        needed_by_branches: 0,
        not_updated: 0,
        needed_as_tombstone: 0,
        removed: 0,
        dropped: 0,
    }
}

#[test]
fn layer_lists_are_read_newest_first() {
    let seg = SegmentTag { rel: REL_A, segno: 0 };
    let mut l = Layer::create(Lsn(0x10), Lsn(0x18));
    assert!(!l.covers_seg(seg));
    l.register_seg(seg, Some(3)).unwrap();
    assert!(l.covers_seg(seg));
    assert!(l.is_incremental(seg));
    assert_eq!(l.single_seg(), Some(seg));
    assert_eq!(l.get_seg_size(seg, Lsn(0x10)), Some(3));
    l.put_seg_size(seg, Lsn(0x20), 5).unwrap();
    l.drop_segment(seg, Lsn(0x30)).unwrap();
    assert_eq!(l.get_seg_size(seg, Lsn(0x18)), Some(3));
    assert_eq!(l.get_seg_size(seg, Lsn(0x20)), Some(5));
    assert_eq!(l.get_seg_size(seg, Lsn(0x30)), None);
    assert!(l.get_seg_exists(seg, Lsn(0x28)));
    assert!(!l.get_seg_exists(seg, Lsn(0x30)));
    assert!(l.is_dropped(seg));
    assert_eq!(l.get_end_lsn(), Lsn(u64::MAX));

    l.put_page_version(seg, 1, Lsn(0x18), PageVersion::Page(img("base"))).unwrap();
    l.put_page_version(seg, 1, Lsn(0x20), PageVersion::Wal(rec("r1", false))).unwrap();
    l.put_page_version(seg, 2, Lsn(0x20), PageVersion::Wal(rec("other", false))).unwrap();
    l.put_page_version(seg, 1, Lsn(0x28), PageVersion::Wal(rec("r2", false))).unwrap();

    let mut data = PageReconstructData { records: Vec::new(), page_img: None };
    assert_eq!(l.get_page_reconstruct_data(seg, 1, Lsn(0x28), &mut data), PageReconstructResult::Complete);
    assert_eq!(data.page_img, Some((Lsn(0x18), img("base"))));
    let lsns: Vec<Lsn> = data.records.iter().map(|r| r.0).collect();
    assert_eq!(lsns, vec![Lsn(0x28), Lsn(0x20)]);

    let mut data = PageReconstructData { records: Vec::new(), page_img: None };
    assert_eq!(l.get_page_reconstruct_data(seg, 1, Lsn(0x20), &mut data), PageReconstructResult::Complete);
    assert_eq!(data.records.len(), 1);

    // Block 2 has a record and no image: the layer below is asked next.
    let mut data = PageReconstructData { records: Vec::new(), page_img: None };
    assert_eq!(
        l.get_page_reconstruct_data(seg, 2, Lsn(0x28), &mut data),
        PageReconstructResult::Continue(Lsn(0xf))
    );
    assert_eq!(data.records.len(), 1);

    // A page that is held from an earlier read stops the walk.
    let mut data = PageReconstructData { records: Vec::new(), page_img: Some((Lsn(0x20), img("held"))) };
    assert_eq!(l.get_page_reconstruct_data(seg, 1, Lsn(0x28), &mut data), PageReconstructResult::Complete);
    assert_eq!(data.page_img, Some((Lsn(0x20), img("held"))));
    assert_eq!(data.records.len(), 1);

    l.freeze(Lsn(0x31)).unwrap();
    assert!(l.is_frozen());
    assert_eq!(l.get_end_lsn(), Lsn(0x31));
    assert_eq!(l.put_seg_size(seg, Lsn(0x30), 1), Err(LayerFrozen));
    assert_eq!(l.register_seg(seg, None), Err(LayerFrozen));
    assert_eq!(l.freeze(Lsn(0x40)), Err(LayerFrozen));
    assert!(l.put_page_version(seg, 1, Lsn(0x30), PageVersion::Page(img("x"))).is_err());
    assert_eq!(l.get_kind(), LayerKind::InMemory);
    let d = l.into_delta();
    assert_eq!(d.get_kind(), LayerKind::Delta);
    assert!(!d.is_in_memory());

    // A segment without a predecessor has nothing below it.
    let mut fresh = Layer::create(Lsn(0x10), Lsn(0x10));
    fresh.register_seg(seg, None).unwrap();
    let mut data = PageReconstructData { records: Vec::new(), page_img: None };
    assert_eq!(
        fresh.get_page_reconstruct_data(seg, 0, Lsn(0x20), &mut data),
        PageReconstructResult::Missing(Lsn(0x10))
    );
}

#[test]
fn image_is_read_before_delta() {
    let seg = SegmentTag { rel: REL_A, segno: 0 };
    let mut map = LayerMap::new();
    let mut delta = Layer::create(Lsn(0x10), Lsn(0x10));
    delta.register_seg(seg, None).unwrap();
    delta.put_creation(seg, Lsn(0x10), 1).unwrap();
    delta.freeze(Lsn(0x21)).unwrap();
    map.insert_historic(delta.into_delta());
    assert_eq!(map.get(seg, Lsn(0x8)).map(|l| l.get_kind()), None);
    assert_eq!(map.get(seg, Lsn(0x20)).map(|l| l.get_kind()), Some(LayerKind::Delta));
    map.insert_historic(Layer::new_image(seg, Lsn(0x20), &vec![img("snap")]));
    assert_eq!(map.get(seg, Lsn(0x18)).map(|l| l.get_kind()), Some(LayerKind::Delta));
    assert_eq!(map.get(seg, Lsn(0x20)).map(|l| l.get_kind()), Some(LayerKind::Image));
    assert_eq!(map.get(seg, Lsn(0x1000)).map(|l| l.get_kind()), Some(LayerKind::Image));
    // At one start the image wins, whichever came first.
    let mut same = Layer::create(Lsn(0x20), Lsn(0x20));
    same.register_seg(seg, Some(1)).unwrap();
    same.freeze(Lsn(0x31)).unwrap();
    map.insert_historic(same.into_delta());
    assert_eq!(map.get(seg, Lsn(0x20)).map(|l| l.get_kind()), Some(LayerKind::Image));
    assert!(map.newer_image_layer_exists(seg, Lsn(0x18), Lsn(0x21)));
    assert!(!map.newer_image_layer_exists(seg, Lsn(0x20), Lsn(0x21)));
    assert!(!map.newer_image_layer_exists(seg, Lsn(0x18), Lsn(0x20)));
    assert!(map.layer_exists_at_lsn(seg, Lsn(0x10)));
    assert!(!map.layer_exists_at_lsn(seg, Lsn(0x8)));
    assert_eq!(map.list_relishes(Some(RelTag { spcnode: 0, dbnode: 0, relnode: 0, forknum: 0 }), Lsn(0x20)), vec![(REL_A, true)]);
    assert_eq!(map.list_relishes(None, Lsn(0x20)), vec![]);
}

#[test]
fn images_are_made_by_redo() {
    let mut repo = make_repo();
    repo.create_empty_timeline(SRC, Lsn(0)).unwrap();
    repo.put_wal_record(SRC, Lsn(0x10), REL_A, 0, rec("init;", true)).unwrap();
    repo.advance_last_record_lsn(SRC, Lsn(0x10));
    repo.put_wal_record(SRC, Lsn(0x20), REL_A, 0, rec("more;", false)).unwrap();
    repo.advance_last_record_lsn(SRC, Lsn(0x20));

    // A flush that cannot make its images changes nothing.
    let out = repo.checkpoint(SRC, CheckpointConfig::Forced, &no_redo);
    assert_eq!(out.error, Some(CheckpointError::Read(ReadError::Redo)));
    assert!(out.flushes.is_empty());
    let tl = repo.get_local_timeline(SRC).unwrap();
    assert_eq!(tl.get_disk_consistent_lsn(), Lsn(0));
    assert!(tl.get_layers().get_frozen_layer().is_some());
    assert_eq!(tl.get_layers().historic_count(), 0);

    let out = repo.checkpoint(SRC, CheckpointConfig::Forced, &concat_redo);
    assert_eq!(out.error, None);
    assert_eq!(out.flushes.len(), 1);
    assert_eq!(out.flushes[0].new_images, 1);
    assert!(repo.publish_disk_consistent_lsn(SRC, Lsn(0x20)));
    let tl = repo.get_local_timeline(SRC).unwrap();
    assert_eq!(tl.get_disk_consistent_lsn(), Lsn(0x20));
    assert_eq!(tl.get_layers().historic_count(), 2);

    // The image serves the read at its LSN; below it the records are replayed.
    let p = repo.get_page_at_lsn(SRC, REL_A, 0, Lsn(0x20), None, &no_redo).unwrap();
    assert_eq!(p.img, img("init;more;"));
    let p = repo.get_page_at_lsn(SRC, REL_A, 0, Lsn(0x18), None, &concat_redo).unwrap();
    assert_eq!(p.img, img("init;"));
    assert_eq!(p.cache_lsn, Some(Lsn(0x10)));

    // A record on top of the image, in the next layer.
    repo.put_wal_record(SRC, Lsn(0x30), REL_A, 0, rec("last;", false)).unwrap();
    repo.advance_last_record_lsn(SRC, Lsn(0x30));
    let p = repo.get_page_at_lsn(SRC, REL_A, 0, Lsn(0x30), None, &concat_redo).unwrap();
    assert_eq!(p.img, img("init;more;last;"));
    assert_eq!(p.cache_lsn, Some(Lsn(0x30)));
}

#[test]
fn reconstruct_page_plans() {
    let repo = make_repo();
    let none = PageReconstructData { records: Vec::new(), page_img: None };
    let p = repo.reconstruct_page(REL_A, 0, Lsn(0x10), none, &no_redo).unwrap();
    assert!(p.img.iter().all(|b| *b == 0));
    let image_only = PageReconstructData { records: Vec::new(), page_img: Some((Lsn(0x8), img("only"))) };
    assert_eq!(repo.reconstruct_page(REL_A, 0, Lsn(0x10), image_only, &no_redo).unwrap().img, img("only"));
    // Records that neither start from an image nor build the page give zeros.
    let orphan = PageReconstructData { records: vec![(Lsn(0x10), rec("x", false))], page_img: None };
    let p = repo.reconstruct_page(REL_A, 0, Lsn(0x10), orphan, &concat_redo).unwrap();
    assert!(p.img.iter().all(|b| *b == 0));
    assert_eq!(p.cache_lsn, None);
    // Records are gathered newest first and replayed oldest first.
    let both = PageReconstructData {
        records: vec![(Lsn(0x20), rec("2", false)), (Lsn(0x18), rec("1", false))],
        page_img: Some((Lsn(0x10), img("0"))),
    };
    let p = repo.reconstruct_page(REL_A, 7, Lsn(0x28), both, &concat_redo).unwrap();
    assert_eq!(p.img, img("012"));
    assert_eq!(p.cache_lsn, Some(Lsn(0x20)));
    let nonrel = PageReconstructData { records: vec![(Lsn(0x20), rec("c", true))], page_img: None };
    let p = repo.reconstruct_page(RelishTag::Checkpoint, 0, Lsn(0x28), nonrel, &concat_redo).unwrap();
    assert_eq!(p.cache_lsn, None);
}

#[test]
fn gc_removes_what_a_newer_image_replaces() {
    let mut repo = make_repo();
    repo.create_empty_timeline(SRC, Lsn(0)).unwrap();
    write_and_checkpoint(&mut repo, SRC, 0x10, "at 0x10");
    write_and_checkpoint(&mut repo, SRC, 0x20, "at 0x20");
    write_and_checkpoint(&mut repo, SRC, 0x30, "at 0x30");
    assert_eq!(repo.get_local_timeline(SRC).unwrap().get_layers().historic_count(), 6);

    // Nothing goes while a branch point at 0x10 is retained, but what lies wholly above it.
    let mut pinned = make_repo();
    pinned.create_empty_timeline(SRC, Lsn(0)).unwrap();
    write_and_checkpoint(&mut pinned, SRC, 0x10, "at 0x10");
    write_and_checkpoint(&mut pinned, SRC, 0x20, "at 0x20");
    write_and_checkpoint(&mut pinned, SRC, 0x30, "at 0x30");
    let at_the_branch_point = pinned.get_page_at_lsn(SRC, REL_A, 0, Lsn(0x10), None, &no_redo).unwrap().img;
    let size_there = pinned.get_relish_size(SRC, REL_A, Lsn(0x10));
    let out = pinned.gc_timeline(SRC, &vec![Lsn(0x10)], Lsn(0x30)).unwrap();
    // What is read at or below an LSN to retain is read as before.
    assert_eq!(pinned.get_page_at_lsn(SRC, REL_A, 0, Lsn(0x10), None, &no_redo).unwrap().img, at_the_branch_point);
    assert_eq!(at_the_branch_point, img("at 0x10"));
    assert_eq!(pinned.get_relish_size(SRC, REL_A, Lsn(0x10)), size_there);
    assert_eq!(
        out.result.rel,
        GcCounts { total: 6, needed_by_cutoff: 2, needed_by_branches: 2, not_updated: 2, ..zero_counts() }
    );
    assert!(out.removed.is_empty());

    let out = repo.gc_timeline(SRC, &Vec::new(), Lsn(0x30)).unwrap();
    assert_eq!(
        out.result,
        GcResult {
            rel: GcCounts { total: 6, needed_by_cutoff: 2, not_updated: 2, removed: 2, ..zero_counts() },
            nonrel: zero_counts(),
        }
    );
    assert_eq!(out.removed.len(), 2);
    assert_eq!(out.removed[0].get_kind(), LayerKind::Delta);
    assert_eq!(out.removed[0].get_end_lsn(), Lsn(0x11));
    assert_eq!(out.removed[1].get_kind(), LayerKind::Image);
    assert_eq!(out.removed[1].get_start_lsn(), Lsn(0x10));
    let tl = repo.get_local_timeline(SRC).unwrap();
    assert_eq!(tl.get_layers().historic_count(), 4);
    assert_eq!(tl.get_latest_gc_cutoff_lsn(), Lsn(0x30));
    assert_eq!(tl.get_disk_consistent_lsn(), Lsn(0x30));

    for (lsn, text) in [(0x20u64, "at 0x20"), (0x28, "at 0x20"), (0x30, "at 0x30")] {
        let p = repo.get_page_at_lsn(SRC, REL_A, 0, Lsn(lsn), None, &no_redo).unwrap();
        assert_eq!(p.img, img(text));
    }
    // GC again finds nothing more to take.
    let out = repo.gc_timeline(SRC, &Vec::new(), Lsn(0x30)).unwrap();
    assert_eq!(out.result.rel.removed, 0);
    assert_eq!(out.result.rel.total, 4);
    assert_eq!(repo.gc_timeline(DST, &Vec::new(), Lsn(0)).err(), Some(GcError::NotLocal));
}

#[test]
fn gc_keeps_tombstones() {
    let mut repo = make_repo();
    repo.create_empty_timeline(SRC, Lsn(0)).unwrap();
    write_and_checkpoint(&mut repo, SRC, 0x10, "a");
    repo.drop_relish(SRC, REL_A, Lsn(0x20)).unwrap();
    repo.advance_last_record_lsn(SRC, Lsn(0x20));
    assert_eq!(repo.checkpoint(SRC, CheckpointConfig::Forced, &no_redo).flushes[0].new_images, 0);
    repo.put_page_image(SRC, REL_B, 0, Lsn(0x30), img("b")).unwrap();
    repo.advance_last_record_lsn(SRC, Lsn(0x30));
    repo.checkpoint(SRC, CheckpointConfig::Forced, &no_redo);

    let out = repo.gc_timeline(SRC, &Vec::new(), Lsn(0x30)).unwrap();
    assert_eq!(
        out.result.rel,
        GcCounts { total: 5, needed_by_cutoff: 2, not_updated: 2, needed_as_tombstone: 1, ..zero_counts() }
    );
    assert_eq!(repo.get_rel_exists(SRC, REL_A, Lsn(0x30)), Ok(false));
    assert_eq!(repo.get_rel_exists(SRC, REL_A, Lsn(0x18)), Ok(true));

    // A drop with nothing older to hide goes.
    let mut repo = make_repo();
    repo.create_empty_timeline(SRC, Lsn(0)).unwrap();
    repo.put_page_image(SRC, REL_A, 0, Lsn(0x10), img("a")).unwrap();
    repo.advance_last_record_lsn(SRC, Lsn(0x10));
    repo.drop_relish(SRC, REL_A, Lsn(0x18)).unwrap();
    repo.advance_last_record_lsn(SRC, Lsn(0x18));
    repo.checkpoint(SRC, CheckpointConfig::Flush, &no_redo);
    let out = repo.gc_timeline(SRC, &Vec::new(), Lsn(0x18)).unwrap();
    assert_eq!(out.result.rel, GcCounts { total: 1, needed_by_cutoff: 1, ..zero_counts() });
    let out = repo.gc_timeline(SRC, &Vec::new(), Lsn(0x20)).unwrap();
    assert_eq!(out.result.rel, GcCounts { total: 1, dropped: 1, ..zero_counts() });
    assert_eq!(repo.get_local_timeline(SRC).unwrap().get_layers().historic_count(), 0);
}

#[test]
fn gc_iteration_minds_branch_points() {
    let mut repo = make_repo();
    repo.create_empty_timeline(SRC, Lsn(0)).unwrap();
    write_and_checkpoint(&mut repo, SRC, 0x10, "at 0x10");
    let m = repo.branch_timeline(SRC, DST, Lsn(0x10)).unwrap();
    repo.init_local_timeline(DST, &m.to_bytes(), Vec::new()).unwrap();
    write_and_checkpoint(&mut repo, SRC, 0x20, "at 0x20");
    write_and_checkpoint(&mut repo, SRC, 0x30, "at 0x30");
    let ids = vec![SRC, DST];

    let none: Vec<RemoteBranch> = Vec::new();
    // Shutdown: nothing is collected.
    let out = repo.gc_iteration(&ids, None, 0, false, &|| true, &none, &no_redo);
    assert_eq!(out.error, Some(GcError::Shutdown));
    assert!(out.timelines.is_empty());
    assert_eq!(repo.get_local_timeline(SRC).unwrap().get_latest_gc_cutoff_lsn(), Lsn(0));

    // A timeline that is on disk and not loaded stops the run.
    let out = repo.gc_iteration(&vec![SRC, ZTimelineId(99)], None, 0, false, &|| false, &none, &no_redo);
    assert_eq!(out.error, Some(GcError::NotLocal));

    // The head lies less than the horizon above zero: every timeline is skipped.
    let out = repo.gc_iteration(&ids, None, 0x1000, false, &|| false, &none, &no_redo);
    assert_eq!(out.error, None);
    assert_eq!(out.timelines.len(), 2);
    assert_eq!(out.totals.rel.total, 0);

    let out = repo.gc_iteration(&ids, None, 0, true, &|| false, &none, &no_redo);
    assert_eq!(out.error, None);
    assert_eq!(out.timelines.len(), 2);
    assert_eq!(out.timelines[0].timelineid, SRC);
    assert_eq!(
        out.timelines[0].result.rel,
        GcCounts { total: 6, needed_by_cutoff: 2, needed_by_branches: 2, not_updated: 2, ..zero_counts() }
    );
    assert!(out.timelines[0].removed.is_empty());
    assert_eq!(out.timelines[1].timelineid, DST);
    assert_eq!(out.timelines[1].result.rel.total, 0);
    assert_eq!(out.totals.rel.total, 6);
    let p = repo.get_page_at_lsn(DST, REL_A, 0, Lsn(0x10), None, &no_redo).unwrap();
    assert_eq!(p.img, img("at 0x10"));

    // With the child as the target, the parent is left alone.
    let out = repo.gc_iteration(&ids, Some(DST), 0, false, &|| false, &none, &no_redo);
    assert_eq!(out.totals.rel.total, 0);
    assert_eq!(repo.get_local_timeline(SRC).unwrap().get_layers().historic_count(), 6);
    // With the parent as the target, the child's branch point still counts.
    let out = repo.gc_iteration(&ids, Some(SRC), 0, false, &|| false, &none, &no_redo);
    assert_eq!(out.timelines[0].result.rel.needed_by_branches, 2);

    // Shutdown is looked for before each timeline: the first is collected, the second is not come to.
    let asked = std::cell::Cell::new(0);
    let after_the_first = || {
        asked.set(asked.get() + 1);
        asked.get() > 1
    };
    let out = repo.gc_iteration(&ids, None, 0x18, false, &after_the_first, &none, &no_redo);
    assert_eq!(out.error, Some(GcError::Shutdown));
    assert_eq!(out.timelines.len(), 1);
    assert_eq!(out.timelines[0].timelineid, SRC);
    assert_eq!(out.totals, out.timelines[0].result);
    assert_eq!(asked.get(), 2);
    assert_eq!(repo.get_local_timeline(SRC).unwrap().get_latest_gc_cutoff_lsn(), Lsn(0x18));
    assert_eq!(repo.get_local_timeline(DST).unwrap().get_latest_gc_cutoff_lsn(), Lsn(0x10));

    // Of a timeline in remote storage only the caller says where it was
    // branched off. Where that is not known, nothing is collected.
    repo.set_timeline_state(DST, TimelineSyncState::CloudOnly(Lsn(0x10)), &Vec::new(), Vec::new()).unwrap();
    let out = repo.gc_iteration(&ids, None, 0x8, false, &|| false, &none, &no_redo);
    assert_eq!(out.error, Some(GcError::RemoteBranchUnknown));
    assert!(out.timelines.is_empty());
    assert_eq!(repo.get_local_timeline(SRC).unwrap().get_latest_gc_cutoff_lsn(), Lsn(0x18));
    // What was branched off at its branch point stays on the timeline it was branched from.
    let child = vec![RemoteBranch { id: DST, ancestor_timeline: Some(SRC), ancestor_lsn: Lsn(0x10) }];
    let out = repo.gc_iteration(&ids, None, 0x8, false, &|| false, &child, &no_redo);
    assert_eq!(out.error, None);
    assert_eq!(out.timelines.len(), 2);
    assert_eq!(
        out.timelines[0].result.rel,
        GcCounts { total: 6, needed_by_cutoff: 2, needed_by_branches: 2, not_updated: 2, ..zero_counts() }
    );
    assert!(out.timelines[0].removed.is_empty());
    assert_eq!(out.timelines[1].result, GcResult::new());
    let p = repo.get_page_at_lsn(SRC, REL_A, 0, Lsn(0x10), None, &no_redo).unwrap();
    assert_eq!(p.img, img("at 0x10"));
    // A remote timeline that was branched off nothing is passed over; the others are collected.
    let unrelated = vec![RemoteBranch { id: DST, ancestor_timeline: None, ancestor_lsn: Lsn(0) }];
    let out = repo.gc_iteration(&ids, None, 0x8, false, &|| false, &unrelated, &no_redo);
    assert_eq!(out.error, None);
    assert_eq!(out.timelines.len(), 2);
    assert_eq!(
        out.timelines[0].result.rel,
        GcCounts { total: 6, needed_by_cutoff: 2, not_updated: 2, removed: 2, ..zero_counts() }
    );
    assert_eq!(out.timelines[0].removed.len(), 2);
    assert_eq!(out.timelines[1].result, GcResult::new());
    assert_eq!(repo.get_local_timeline(SRC).unwrap().get_latest_gc_cutoff_lsn(), Lsn(0x30 - 0x8));
    assert_eq!(repo.list_rels(SRC, 0, 0, Lsn(0x30)).unwrap(), vec![REL_A]);

    // The steps of a run, taken one by one.
    assert!(matches!(
        repo.collect_branchpoints(&ids, None, &none),
        layered_repository::gc::FoundBranchpoints::RemoteUnknown
    ));
    match repo.collect_branchpoints(&ids, None, &child) {
        layered_repository::gc::FoundBranchpoints::Known(bps) => assert_eq!(bps, vec![(SRC, Lsn(0x10))]),
        _ => panic!("every timeline is held"),
    };
    match repo.collect_branchpoints(&ids, Some(DST), &child) {
        layered_repository::gc::FoundBranchpoints::Known(bps) => assert!(bps.is_empty()),
        _ => panic!("every timeline is held"),
    };
    let bps = match repo.collect_branchpoints(&ids, None, &unrelated) {
        layered_repository::gc::FoundBranchpoints::Known(bps) => bps,
        _ => panic!("every timeline is held"),
    };
    assert!(bps.is_empty());
    let (step, err) = repo.gc_one_timeline(SRC, None, 0, false, &bps, &no_redo);
    assert_eq!(err, None);
    assert_eq!(step.timelineid, SRC);
    assert_eq!(step.result.rel.total, 4);
    assert_eq!(repo.get_local_timeline(SRC).unwrap().get_latest_gc_cutoff_lsn(), Lsn(0x30));
}

#[test]
fn gc_result_accumulates() {
    let a = GcResult {
        rel: GcCounts { total: 3, removed: 1, not_updated: 2, ..zero_counts() },
        nonrel: GcCounts { total: u64::MAX, needed_by_cutoff: 5, ..zero_counts() },
    };
    let b = GcResult {
        rel: GcCounts { total: 4, dropped: 4, ..zero_counts() },
        nonrel: GcCounts { total: 1, needed_by_cutoff: 1, ..zero_counts() },
    };
    let c = a.accumulate(b);
    assert_eq!(c.rel, GcCounts { total: 7, removed: 1, not_updated: 2, dropped: 4, ..zero_counts() });
    assert_eq!(c.nonrel.total, u64::MAX);
    assert_eq!(c.nonrel.needed_by_cutoff, 6);
    assert_eq!(GcResult::new().accumulate(a), a);
}

#[test]
fn checkpoint_by_distance() {
    let mut repo = make_repo();
    repo.create_empty_timeline(SRC, Lsn(0)).unwrap();
    repo.put_page_image(SRC, REL_A, 0, Lsn(0x10), img("a")).unwrap();
    repo.advance_last_record_lsn(SRC, Lsn(0x10));
    repo.advance_last_record_lsn(SRC, Lsn(0x100));
    assert_eq!(
        repo.get_local_timeline(SRC).unwrap().get_last_record_rlsn(),
        RecordLsn { last: Lsn(0x100), prev: Lsn(0x10) }
    );
    // The open layer is frozen once its first record lies more than the distance behind the head.
    let out = repo.checkpoint(SRC, CheckpointConfig::Distance(0xf1), &no_redo);
    assert!(out.flushes.is_empty());
    let out = repo.checkpoint(SRC, CheckpointConfig::Distance(0xf0), &no_redo);
    assert!(out.flushes.is_empty());
    assert!(repo.get_local_timeline(SRC).unwrap().get_layers().get_open_layer().is_some());
    assert_eq!(repo.get_local_timeline(SRC).unwrap().get_layers().historic_count(), 0);
    let out = repo.checkpoint(SRC, CheckpointConfig::Distance(0xef), &no_redo);
    assert_eq!(out.flushes.len(), 1);
    let m = out.flushes[0].metadata.unwrap();
    assert_eq!(m.disk_consistent_lsn, Lsn(0x100));
    assert_eq!(m.prev_record_lsn, Some(Lsn(0x10)));
    assert_eq!(repo.checkpoint(DST, CheckpointConfig::Flush, &no_redo).error, Some(CheckpointError::NotLocal));

    // A large relation: one image layer for each segment.
    repo.put_page_image(SRC, REL_B, RELISH_SEG_SIZE, Lsn(0x110), img("b")).unwrap();
    repo.advance_last_record_lsn(SRC, Lsn(0x110));
    let out = repo.checkpoint(SRC, CheckpointConfig::Forced, &no_redo);
    assert_eq!(out.flushes[0].new_images, 2);
    assert_eq!(out.flushes[0].first_new_layer, 2);
    let tl = repo.get_local_timeline(SRC).unwrap();
    assert_eq!(tl.get_layers().historic_count(), 5);
    assert_eq!(tl.get_layers().historic_layer(2).single_seg(), None);
    assert_eq!(tl.get_layers().historic_layer(3).seg_count(), 1);
    assert_eq!(repo.get_relish_size(SRC, REL_B, Lsn(0x110)), Ok(Some(RELISH_SEG_SIZE + 1)));
}

#[test]
fn gc_skips_what_a_run_passes_over() {
    let mut repo = make_repo();
    repo.create_empty_timeline(SRC, Lsn(0)).unwrap();
    write_and_checkpoint(&mut repo, SRC, 0x10, "at 0x10");
    repo.set_timeline_state(DST, TimelineSyncState::CloudOnly(Lsn(0x10)), &Vec::new(), Vec::new()).unwrap();
    assert!(!repo.gc_skips(SRC, None, 0));
    assert!(!repo.gc_skips(SRC, None, 0x10));
    assert!(repo.gc_skips(SRC, None, 0x11));
    assert!(!repo.gc_skips(SRC, Some(SRC), 0));
    assert!(repo.gc_skips(SRC, Some(DST), 0));
    assert!(repo.gc_skips(DST, None, 0));
    assert!(repo.gc_skips(ZTimelineId(99), None, 0));
}

#[test]
fn whatever_is_done_to_a_branch() {
    let mut repo = make_repo();
    repo.create_empty_timeline(SRC, Lsn(0)).unwrap();
    write_and_checkpoint(&mut repo, SRC, 0x10, "at 0x10");
    repo.put_page_image(SRC, REL_A, 1, Lsn(0x18), img("more")).unwrap();
    repo.advance_last_record_lsn(SRC, Lsn(0x18));
    let m = repo.branch_timeline(SRC, DST, Lsn(0x10)).unwrap();
    repo.init_local_timeline(DST, &m.to_bytes(), Vec::new()).unwrap();

    let seen = |repo: &LayeredRepository| {
        let tl = repo.get_local_timeline(SRC).unwrap();
        (
            repo.get_page_at_lsn(SRC, REL_A, 0, Lsn(0x10), None, &no_redo).unwrap().img,
            repo.get_page_at_lsn(SRC, REL_A, 1, Lsn(0x18), None, &no_redo).unwrap().img,
            repo.get_relish_size(SRC, REL_A, Lsn(0x10)),
            repo.get_relish_size(SRC, REL_A, Lsn(0x18)),
            repo.get_rel_exists(SRC, REL_B, Lsn(0x18)),
            repo.list_rels(SRC, 0, 0, Lsn(0x18)).unwrap(),
            tl.get_last_record_lsn(),
            tl.get_disk_consistent_lsn(),
            tl.get_current_logical_size(),
            tl.get_layers().historic_count(),
        )
    };
    let before = seen(&repo);
    assert_eq!(before.0, img("at 0x10"));
    assert_eq!(before.1, img("more"));
    assert_eq!(before.2, Ok(Some(1)));
    assert_eq!(before.3, Ok(Some(2)));

    repo.put_page_image(DST, REL_A, 0, Lsn(0x20), img("on the branch")).unwrap();
    repo.put_creation(DST, REL_B, Lsn(0x20), 0).unwrap();
    repo.advance_last_record_lsn(DST, Lsn(0x20));
    assert_eq!(seen(&repo), before);
    repo.put_page_image(DST, REL_B, 3, Lsn(0x28), img("b")).unwrap();
    repo.advance_last_record_lsn(DST, Lsn(0x28));
    assert_eq!(seen(&repo), before);
    repo.put_truncation(DST, REL_B, Lsn(0x30), 1).unwrap();
    repo.advance_last_record_lsn(DST, Lsn(0x30));
    assert_eq!(seen(&repo), before);
    let out = repo.checkpoint(DST, CheckpointConfig::Forced, &no_redo);
    assert_eq!(out.error, None);
    assert!(repo.publish_disk_consistent_lsn(DST, out.flushes[0].metadata.unwrap().disk_consistent_lsn));
    assert_eq!(seen(&repo), before);
    repo.drop_relish(DST, REL_A, Lsn(0x38)).unwrap();
    repo.advance_last_record_lsn(DST, Lsn(0x38));
    let out = repo.checkpoint(DST, CheckpointConfig::Forced, &no_redo);
    assert_eq!(out.error, None);
    assert!(repo.publish_disk_consistent_lsn(DST, Lsn(0x38)));
    repo.gc_timeline(DST, &Vec::new(), Lsn(0x38)).unwrap();
    assert_eq!(seen(&repo), before);

    // The branch went its own way.
    assert_eq!(repo.get_rel_exists(DST, REL_A, Lsn(0x38)), Ok(false));
    assert_eq!(repo.get_relish_size(DST, REL_B, Lsn(0x28)), Ok(Some(4)));
    assert_eq!(repo.get_relish_size(DST, REL_B, Lsn(0x38)), Ok(Some(1)));
    assert_eq!(repo.get_page_at_lsn(DST, REL_A, 0, Lsn(0x10), None, &no_redo).unwrap().img, img("at 0x10"));
    assert_eq!(repo.get_page_at_lsn(DST, REL_A, 0, Lsn(0x28), None, &no_redo).unwrap().img, img("on the branch"));
}

#[test]
fn a_read_sees_no_later_write() {
    let mut repo = make_repo();
    repo.create_empty_timeline(SRC, Lsn(0)).unwrap();
    repo.put_page_image(SRC, REL_A, 0, Lsn(0x10), img("first")).unwrap();
    repo.advance_last_record_lsn(SRC, Lsn(0x10));
    repo.put_page_image(SRC, REL_A, 0, Lsn(0x30), img("second")).unwrap();
    repo.advance_last_record_lsn(SRC, Lsn(0x30));
    for lsn in [0x10u64, 0x11, 0x18, 0x2f] {
        let p = repo.get_page_at_lsn(SRC, REL_A, 0, Lsn(lsn), None, &no_redo).unwrap();
        assert_eq!(p.img, img("first"));
    }
    let p = repo.get_page_at_lsn(SRC, REL_A, 0, Lsn(0x30), None, &no_redo).unwrap();
    assert_eq!(p.img, img("second"));
    assert_eq!(
        repo.get_page_at_lsn(SRC, REL_A, 0, Lsn(0x31), None, &no_redo).err(),
        Some(layered_repository::read::ReadError::LsnAhead)
    );
    // The same once the layers are on disk.
    let out = repo.checkpoint(SRC, CheckpointConfig::Forced, &no_redo);
    assert_eq!(out.error, None);
    for lsn in [0x10u64, 0x11, 0x18, 0x2f] {
        let p = repo.get_page_at_lsn(SRC, REL_A, 0, Lsn(lsn), None, &no_redo).unwrap();
        assert_eq!(p.img, img("first"));
    }
}

#[test]
fn first_write_after_a_checkpoint_is_read_back() {
    let mut repo = make_repo();
    repo.create_empty_timeline(SRC, Lsn(0)).unwrap();
    repo.put_page_image(SRC, REL_A, 0, Lsn(0x10), img("first")).unwrap();
    repo.put_page_image(SRC, REL_A, 1, Lsn(0x10), img("other")).unwrap();
    repo.advance_last_record_lsn(SRC, Lsn(0x10));
    let out = repo.checkpoint(SRC, CheckpointConfig::Forced, &no_redo);
    assert_eq!(out.error, None);
    assert!(repo.publish_disk_consistent_lsn(SRC, Lsn(0x10)));
    assert!(repo.get_local_timeline(SRC).unwrap().get_layers().get_open_layer().is_none());

    // The block is there already, in a segment that the new open layer does not hold yet.
    repo.put_page_image(SRC, REL_A, 0, Lsn(0x20), img("again")).unwrap();
    repo.advance_last_record_lsn(SRC, Lsn(0x20));
    let p = repo.get_page_at_lsn(SRC, REL_A, 0, Lsn(0x20), None, &no_redo).unwrap();
    assert_eq!(p.img, img("again"));
    let p = repo.get_page_at_lsn(SRC, REL_A, 0, Lsn(0x18), None, &no_redo).unwrap();
    assert_eq!(p.img, img("first"));
    let p = repo.get_page_at_lsn(SRC, REL_A, 1, Lsn(0x20), None, &no_redo).unwrap();
    assert_eq!(p.img, img("other"));
    assert_eq!(repo.get_relish_size(SRC, REL_A, Lsn(0x20)), Ok(Some(2)));
    let open = repo.get_local_timeline(SRC).unwrap().get_layers().get_open_layer().unwrap();
    assert_eq!(open.get_start_lsn(), Lsn(0x11));
    assert_eq!(open.seg_at(0).base_size, Some(2));
    assert!(open.seg_at(0).incremental);

    // A write after a drop that the head has not come to: the segment is gone, and so is the page.
    repo.drop_relish(SRC, REL_A, Lsn(0x28)).unwrap();
    repo.put_page_image(SRC, REL_A, 0, Lsn(0x30), img("lost")).unwrap();
    repo.advance_last_record_lsn(SRC, Lsn(0x30));
    assert_eq!(
        repo.get_page_at_lsn(SRC, REL_A, 0, Lsn(0x30), None, &no_redo).err(),
        Some(ReadError::SegmentNotFound)
    );
}
