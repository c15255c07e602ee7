use bytes::Bytes;
use layered_repository::checkpoint::{CheckpointConfig, CheckpointError};
use layered_repository::gc::GcError;
use layered_repository::layer::Layer;
use layered_repository::load::LayerFile;
use layered_repository::lsn::{Lsn, ZTenantId, ZTimelineId};
use layered_repository::manage::{LoadError, TimelineSyncState};
use layered_repository::metadata::TimelineMetadata;
use layered_repository::page::{PageVersion, RedoRequest, WalRecord, WalRedoError};
use layered_repository::read::ReadError;
use layered_repository::relish::{RelTag, RelishTag, SegmentTag, RELISH_SEG_SIZE};
use layered_repository::repository::{LayeredRepository, PageServerConf};
use layered_repository::write::WriteError;

const ROOT: ZTimelineId = ZTimelineId(1);
const SRC: ZTimelineId = ZTimelineId(2);
const DST: ZTimelineId = ZTimelineId(3);

const REL_A: RelishTag = RelishTag::Relation(RelTag { spcnode: 0, dbnode: 111, relnode: 1000, forknum: 0 });
const REL_B: RelishTag = RelishTag::Relation(RelTag { spcnode: 0, dbnode: 111, relnode: 1001, forknum: 0 });

fn img(s: &str) -> Bytes {
    let mut buf = s.as_bytes().to_vec();
    buf.resize(8192, 0);
    Bytes::from(buf)
}

fn make_repo() -> LayeredRepository {
    let conf = PageServerConf {
        data_dir: String::from("/tmp/test"),
        wait_lsn_timeout_ms: 1000,
        checkpoint_distance: 1 << 20,
        upload_relishes: false,
    };
    LayeredRepository::new(conf, ZTenantId(7), false)
}

fn no_redo(_req: RedoRequest) -> Result<Bytes, WalRedoError> {
    Err(WalRedoError)
}

fn first_record(req: RedoRequest) -> Result<Bytes, WalRedoError> {
    Ok(req.records[0].1.rec.clone())
}

fn rec(s: &'static str, will_init: bool) -> WalRecord {
    WalRecord { will_init, rec: Bytes::from_static(s.as_bytes()) }
}

fn branch(repo: &mut LayeredRepository, src: ZTimelineId, dst: ZTimelineId, lsn: u64) {
    let m = repo.branch_timeline(src, dst, Lsn(lsn)).unwrap();
    repo.init_local_timeline(dst, &m.to_bytes(), Vec::new()).unwrap();
}

#[test]
fn write_below_the_open_layer() {
    let mut repo = make_repo();
    repo.create_empty_timeline(ROOT, Lsn(0x100)).unwrap();
    // A write below the start of the layer that would be made for it is not taken.
    assert_eq!(
        repo.put_page_image(ROOT, REL_A, 0, Lsn(0x80), img("a")),
        Err(WriteError::OpenLayerInFuture)
    );
    assert!(repo.get_local_timeline(ROOT).unwrap().get_layers().get_open_layer().is_none());
    repo.put_page_image(ROOT, REL_A, 0, Lsn(0x110), img("a")).unwrap();
    assert_eq!(
        repo.put_page_image(ROOT, REL_A, 0, Lsn(0x80), img("a")),
        Err(WriteError::OpenLayerInFuture)
    );
    assert_eq!(repo.get_layer_for_write(ROOT, SegmentTag { rel: REL_B, segno: 0 }, Lsn(0x110)), Ok(()));
    let tl = repo.get_local_timeline(ROOT).unwrap();
    let open = tl.get_layers().get_open_layer().unwrap();
    assert_eq!(open.get_start_lsn(), Lsn(0x100));
    assert_eq!(open.get_oldest_lsn(), Lsn(0x110));
    assert_eq!(open.seg_count(), 2);
    assert_eq!(open.page_count(), 1);
    assert_eq!(open.event_count(), 1);
    assert_eq!(open.event_at(0).size, Some(1));
    assert_eq!(open.page_at(0).blknum, 0);
}

#[test]
fn ancestor_has_to_be_local() {
    let mut repo = make_repo();
    repo.create_empty_timeline(ROOT, Lsn(0)).unwrap();
    repo.put_page_image(ROOT, REL_A, 0, Lsn(0x10), img("a")).unwrap();
    repo.advance_last_record_lsn(ROOT, Lsn(0x10));
    branch(&mut repo, ROOT, SRC, 0x10);
    assert_eq!(repo.get_local_timeline(SRC).unwrap().get_ancestor_timeline_id(), Some(ROOT));
    assert_eq!(repo.get_local_timeline(SRC).unwrap().get_ancestor_lsn(), Lsn(0x10));
    assert_eq!(repo.get_local_timeline(SRC).unwrap().get_timeline_id(), SRC);
    repo.set_timeline_state(ROOT, TimelineSyncState::AwaitsDownload(Lsn(0x10)), &Vec::new(), Vec::new()).unwrap();

    assert_eq!(
        repo.get_page_at_lsn(SRC, REL_A, 0, Lsn(0x10), None, &no_redo).err(),
        Some(ReadError::AncestorNotLocal)
    );
    assert_eq!(repo.get_relish_size(SRC, REL_A, Lsn(0x10)), Err(ReadError::AncestorNotLocal));
    assert_eq!(repo.list_rels(SRC, 0, 0, Lsn(0x10)).err(), Some(ReadError::AncestorNotLocal));
    assert_eq!(
        repo.put_page_image(SRC, REL_A, 0, Lsn(0x20), img("b")),
        Err(WriteError::Read(ReadError::AncestorNotLocal))
    );
    // Nothing was written.
    assert!(repo.get_local_timeline(SRC).unwrap().get_layers().get_open_layer().is_none());

    // A timeline cannot be loaded while the one it goes back to is in remote storage only.
    let m = TimelineMetadata::new(Lsn(0x10), None, Some(ROOT), Lsn(0x10), Lsn(0), Lsn(0));
    assert_eq!(
        repo.init_local_timeline(DST, &m.to_bytes(), Vec::new()).err(),
        Some(LoadError::LogicalSize(ReadError::AncestorNotLocal))
    );
    assert_eq!(repo.get_timeline_state(DST), None);
}

#[test]
fn records_without_a_base() {
    let mut repo = make_repo();
    repo.create_empty_timeline(ROOT, Lsn(0)).unwrap();
    repo.put_wal_record(ROOT, Lsn(0x10), REL_A, 0, rec("r", false)).unwrap();
    repo.advance_last_record_lsn(ROOT, Lsn(0x10));
    assert_eq!(
        repo.get_page_at_lsn(ROOT, REL_A, 0, Lsn(0x10), None, &first_record).err(),
        Some(ReadError::NoBaseImage)
    );
    repo.put_wal_record(ROOT, Lsn(0x18), REL_A, 0, rec("init", true)).unwrap();
    repo.advance_last_record_lsn(ROOT, Lsn(0x18));
    let p = repo.get_page_at_lsn(ROOT, REL_A, 0, Lsn(0x18), None, &first_record).unwrap();
    assert_eq!(p.img, Bytes::from_static(b"init"));
}

#[test]
fn predecessor_is_missing() {
    let seg = SegmentTag { rel: REL_A, segno: 0 };
    let mut delta = Layer::create(Lsn(0x11), Lsn(0x18));
    delta.register_seg(seg, Some(1)).unwrap();
    delta.put_page_version(seg, 0, Lsn(0x18), PageVersion::Wal(rec("r", false))).unwrap();
    delta.freeze(Lsn(0x21)).unwrap();
    let files = vec![LayerFile {
        name: b"rel_0_111_1000_0_0_0000000000000011_0000000000000021".to_vec(),
        layer: Some(delta.into_delta()),
    }];
    let m = TimelineMetadata::new(Lsn(0x20), None, None, Lsn(0), Lsn(0), Lsn(0));
    let mut repo = make_repo();
    repo.init_local_timeline(ROOT, &m.to_bytes(), files).unwrap();
    assert_eq!(repo.get_relish_size(ROOT, REL_A, Lsn(0x20)), Ok(Some(1)));
    assert_eq!(
        repo.get_page_at_lsn(ROOT, REL_A, 0, Lsn(0x20), None, &first_record).err(),
        Some(ReadError::PredecessorMissing)
    );
}

#[test]
fn search_that_does_not_descend() {
    // ROOT has a layer that needs its predecessor; SRC is branched off
    // ROOT at 0x100, and DST off SRC below that, at 0x10.
    let mut repo = make_repo();
    repo.create_empty_timeline(ROOT, Lsn(0)).unwrap();
    repo.put_page_image(ROOT, REL_A, 0, Lsn(0x20), img("base")).unwrap();
    repo.advance_last_record_lsn(ROOT, Lsn(0x20));
    assert_eq!(repo.checkpoint(ROOT, CheckpointConfig::Forced, &no_redo).error, None);
    repo.put_wal_record(ROOT, Lsn(0x50), REL_A, 0, rec("r", false)).unwrap();
    repo.advance_last_record_lsn(ROOT, Lsn(0x100));
    branch(&mut repo, ROOT, SRC, 0x100);
    branch(&mut repo, SRC, DST, 0x10);
    assert_eq!(
        repo.get_page_at_lsn(DST, REL_A, 0, Lsn(0x10), None, &first_record).err(),
        Some(ReadError::LayerCycle)
    );
    // Below the branch point the read goes down with its LSN.
    assert_eq!(
        repo.get_page_at_lsn(DST, REL_A, 0, Lsn(0x8), None, &first_record).err(),
        Some(ReadError::SegmentNotFound)
    );
    let p = repo.get_page_at_lsn(SRC, REL_A, 0, Lsn(0x20), None, &no_redo).unwrap();
    assert_eq!(p.img, img("base"));
}

#[test]
fn oversized_segment_stops_the_flush() {
    let mut repo = make_repo();
    repo.create_empty_timeline(ROOT, Lsn(0)).unwrap();
    repo.put_creation(ROOT, REL_A, Lsn(0x10), RELISH_SEG_SIZE + 1).unwrap();
    repo.advance_last_record_lsn(ROOT, Lsn(0x10));
    let out = repo.checkpoint(ROOT, CheckpointConfig::Forced, &no_redo);
    assert_eq!(out.error, Some(CheckpointError::BadSegment));
    assert!(out.flushes.is_empty());
    // The layer stays frozen; without images it is flushed.
    let out = repo.checkpoint(ROOT, CheckpointConfig::Flush, &no_redo);
    assert_eq!(out.error, None);
    assert_eq!(out.flushes.len(), 1);
}

#[test]
fn gc_stops_where_the_checkpoint_stops() {
    let mut repo = make_repo();
    repo.create_empty_timeline(ROOT, Lsn(0)).unwrap();
    repo.put_wal_record(ROOT, Lsn(0x10), REL_A, 0, rec("init", true)).unwrap();
    repo.advance_last_record_lsn(ROOT, Lsn(0x10));
    let out = repo.gc_iteration(&vec![ROOT], None, 0, true, &|| false, &Vec::new(), &no_redo);
    assert_eq!(out.error, Some(GcError::Checkpoint(CheckpointError::Read(ReadError::Redo))));
    assert_eq!(out.timelines.len(), 1);
    assert!(out.timelines[0].removed.is_empty());
    assert_eq!(repo.get_local_timeline(ROOT).unwrap().get_latest_gc_cutoff_lsn(), Lsn(0));

    let out = repo.gc_iteration(&vec![ROOT], None, 0, true, &|| false, &Vec::new(), &first_record);
    assert_eq!(out.error, None);
    assert_eq!(out.timelines[0].flushed.len(), 1);
    assert_eq!(out.totals.rel.total, 2);
    assert_eq!(out.totals.rel.needed_by_cutoff, 2);
    assert_eq!(repo.get_local_timeline(ROOT).unwrap().get_latest_gc_cutoff_lsn(), Lsn(0x10));
}

#[test]
fn child_known_before_its_parent() {
    let mut repo = make_repo();
    // The branch is known as a remote timeline before its parent is here.
    repo.set_timeline_state(SRC, TimelineSyncState::CloudOnly(Lsn(0x10)), &Vec::new(), Vec::new()).unwrap();
    repo.create_empty_timeline(ROOT, Lsn(0)).unwrap();
    repo.put_page_image(ROOT, REL_A, 0, Lsn(0x10), img("a")).unwrap();
    repo.advance_last_record_lsn(ROOT, Lsn(0x10));
    repo.put_page_image(ROOT, REL_A, 0, Lsn(0x20), img("later")).unwrap();
    repo.advance_last_record_lsn(ROOT, Lsn(0x20));

    let m = TimelineMetadata::new(Lsn(0x10), None, Some(ROOT), Lsn(0x10), Lsn(0), Lsn(0));
    assert_eq!(repo.init_local_timeline(SRC, &m.to_bytes(), Vec::new()).map(|a| a.len()), Ok(0));
    assert_eq!(repo.get_timeline_state(SRC), Some(TimelineSyncState::Ready(Lsn(0x10))));
    assert_eq!(repo.get_timeline_state(ROOT), Some(TimelineSyncState::Ready(Lsn(0))));
    let p = repo.get_page_at_lsn(SRC, REL_A, 0, Lsn(0x10), None, &no_redo).unwrap();
    assert_eq!(p.img, img("a"));
    assert_eq!(repo.get_relish_size(SRC, REL_A, Lsn(0x10)), Ok(Some(1)));
    assert_eq!(repo.get_local_timeline(SRC).unwrap().get_current_logical_size(), 8192);
    repo.put_page_image(SRC, REL_A, 1, Lsn(0x18), img("b")).unwrap();
    repo.advance_last_record_lsn(SRC, Lsn(0x18));
    assert_eq!(repo.get_relish_size(SRC, REL_A, Lsn(0x18)), Ok(Some(2)));
    let p = repo.get_page_at_lsn(ROOT, REL_A, 0, Lsn(0x20), None, &no_redo).unwrap();
    assert_eq!(p.img, img("later"));
}

#[test]
fn unread_layer_stops_the_read() {
    let m = TimelineMetadata::new(Lsn(0x20), None, None, Lsn(0), Lsn(0), Lsn(0));

    // The size of a timeline is counted when it is loaded, over its relations:
    // that is a read, and it stops at a relation's layer that could not be read.
    let name = b"rel_0_111_1000_0_0_0000000000000011_0000000000000021".to_vec();
    let mut repo = make_repo();
    assert_eq!(
        repo.init_local_timeline(SRC, &m.to_bytes(), vec![LayerFile { name, layer: None }]).err(),
        Some(LoadError::LogicalSize(ReadError::UnreadableLayer))
    );
    assert_eq!(repo.get_timeline_state(SRC), None);

    let seg = SegmentTag { rel: RelishTag::Checkpoint, segno: 0 };
    let name = b"pg_control_checkpoint_0_0000000000000011_0000000000000021".to_vec();
    let actions = repo.init_local_timeline(SRC, &m.to_bytes(), vec![LayerFile { name, layer: None }]).unwrap();
    assert_eq!(actions, vec![layered_repository::load::FileAction::Loaded]);
    let tl = repo.get_local_timeline(SRC).unwrap();
    let l = tl.get_layers().historic_layer(0);
    assert!(!l.is_readable());
    assert_eq!(l.single_seg(), Some(seg));
    assert_eq!(l.get_start_lsn(), Lsn(0x11));
    assert_eq!(l.get_end_lsn(), Lsn(0x21));
    assert_eq!(repo.get_rel_exists(SRC, RelishTag::Checkpoint, Lsn(0x20)), Err(ReadError::UnreadableLayer));
    assert_eq!(repo.get_rel_exists(SRC, RelishTag::Checkpoint, Lsn(0x10)), Ok(false));
    assert_eq!(repo.get_relish_size(SRC, RelishTag::Checkpoint, Lsn(0x20)), Err(ReadError::UnreadableLayer));
    assert_eq!(
        repo.get_page_at_lsn(SRC, RelishTag::Checkpoint, 0, Lsn(0x20), None, &no_redo).err(),
        Some(ReadError::UnreadableLayer)
    );
    // What the layer does not cover is read as before.
    assert_eq!(repo.get_rel_exists(SRC, REL_B, Lsn(0x20)), Ok(false));
    // A write to the segment asks for its size where the open layer starts.
    assert_eq!(
        repo.put_page_image(SRC, RelishTag::Checkpoint, 0, Lsn(0x28), img("c")),
        Err(WriteError::Read(ReadError::UnreadableLayer))
    );
    // GC cannot judge the layer, and takes nothing out.
    assert_eq!(repo.gc_timeline(SRC, &Vec::new(), Lsn(0x20)).err(), Some(GcError::Read(ReadError::UnreadableLayer)));
    assert_eq!(repo.get_local_timeline(SRC).unwrap().get_layers().historic_count(), 1);
}
