use bytes::Bytes;
use layered_repository::checkpoint::CheckpointConfig;
use layered_repository::crc::crc32c_of;
use layered_repository::filename::{DeltaFileName, ImageFileName};
use layered_repository::layer::{layer_kind_of_magic, Layer, LayerKind, DELTA_FILE_MAGIC, IMAGE_FILE_MAGIC};
use layered_repository::load::{is_ephemeral_file, rename_to_backup, FileAction, LayerFile};
use layered_repository::lsn::{Lsn, ZTenantId, ZTimelineId};
use layered_repository::manage::{BranchError, CreateError, DetachError, LoadError, TimelineSyncState};
use layered_repository::metadata::{MetadataError, TimelineMetadata};
use layered_repository::page::{zero_page, RedoRequest, WalRecord, WalRedoError};
use layered_repository::read::ReadError;
use layered_repository::relish::{RelTag, RelishTag, SegmentTag, SlruKind, BLCKSZ, RELISH_SEG_SIZE};
use layered_repository::repository::{LayeredRepository, PageServerConf};
use layered_repository::timeline::WaitOutcome;
use layered_repository::write::WriteError;

const TIMELINE_ID: ZTimelineId = ZTimelineId(0x1111_2222_3333_4444_1111_2222_3333_4444);
const NEW_TIMELINE_ID: ZTimelineId = ZTimelineId(0xAA22_3344_5566_7788_AA22_3344_5566_7788);

const TESTREL_A: RelishTag =
    RelishTag::Relation(RelTag { spcnode: 0, dbnode: 111, relnode: 1000, forknum: 0 });
const TESTREL_B: RelishTag =
    RelishTag::Relation(RelTag { spcnode: 0, dbnode: 111, relnode: 1001, forknum: 0 });

fn test_img(s: &str) -> Bytes {
    let mut buf = s.as_bytes().to_vec();
    buf.resize(8192, 0);
    Bytes::from(buf)
}

fn make_repo() -> LayeredRepository {
    let conf = PageServerConf {
        data_dir: String::from("/tmp/test"),
        wait_lsn_timeout_ms: 1000,
        checkpoint_distance: 256 * 1024 * 1024,
        upload_relishes: false,
    };
    LayeredRepository::new(conf, ZTenantId(7), false)
}

// Replays by writing the LSN of each record over the start of the page.
fn test_redo(req: RedoRequest) -> Result<Bytes, WalRedoError> {
    let mut page = match &req.base_img {
        Some(b) => b.to_vec(),
        None => vec![0u8; 8192],
    };
    for (lsn, rec) in req.records.iter() {
        page[0..8].copy_from_slice(&lsn.0.to_be_bytes());
        let n = rec.rec.len().min(16);
        page[8..8 + n].copy_from_slice(&rec.rec[..n]);
    }
    Ok(Bytes::from(page))
}

fn failing_redo(_req: RedoRequest) -> Result<Bytes, WalRedoError> {
    Err(WalRedoError)
}

#[test]
fn zero_page_is_a_block_of_zeros() {
    let z = zero_page();
    assert_eq!(z.len(), BLCKSZ as usize);
    assert!(z.iter().all(|b| *b == 0));
}

#[test]
fn crc32c_of_check_string() {
    let data = b"123456789".to_vec();
    assert_eq!(crc32c_of(&data, 9), 0xE306_9283);
    assert_eq!(crc32c_of(&data, 0), 0);
}

#[test]
fn metadata_round_trip() {
    let m = TimelineMetadata::new(
        Lsn(0x8000),
        Some(Lsn(0x7ff8)),
        Some(TIMELINE_ID),
        Lsn(0x4000),
        Lsn(0x100),
        Lsn(0x10),
    );
    let bytes = m.to_bytes();
    assert_eq!(bytes.len(), 512);
    assert_eq!(TimelineMetadata::from_bytes(&bytes), Ok(m));
    assert_eq!(&bytes[0..8], &[0, 0, 0, 0, 0, 0, 0x80, 0]);
    assert_eq!(bytes[8], 1);
    assert_eq!(bytes[17], 1);

    let n = TimelineMetadata::new(Lsn(0), None, None, Lsn(0), Lsn(0), Lsn(0));
    assert_eq!(TimelineMetadata::from_bytes(&n.to_bytes()), Ok(n));
}

#[test]
fn metadata_wrong_size_and_malformed() {
    assert_eq!(TimelineMetadata::from_bytes(&vec![0u8; 511]), Err(MetadataError::WrongSize));
    let m = TimelineMetadata::new(Lsn(8), None, None, Lsn(0), Lsn(0), Lsn(0));
    let mut bytes = m.to_bytes();
    bytes[8] = 2;
    let crc = crc32c_of(&bytes, 508);
    bytes[508..512].copy_from_slice(&crc.to_le_bytes());
    assert_eq!(TimelineMetadata::from_bytes(&bytes), Err(MetadataError::Malformed));

    assert_eq!(MetadataError::WrongSize.message(), "metadata bytes size is wrong");
    assert_eq!(MetadataError::ChecksumMismatch.message(), "metadata checksum mismatch");
    assert_eq!(MetadataError::Malformed.message(), "metadata is malformed");
    assert_eq!(LoadError::Metadata(MetadataError::WrongSize).cause(), Some("metadata bytes size is wrong"));
    assert_eq!(LoadError::InvalidLsn.message(), "metadata holds an invalid lsn");
    assert_eq!(LoadError::InvalidLsn.cause(), None);
    assert_eq!(LoadError::AncestorNotLoaded(TIMELINE_ID).message(), "ancestor timeline is not loaded");
    assert_eq!(LoadError::LogicalSize(ReadError::NotLocal).message(), "failed to count the logical size");
    assert_eq!(BranchError::NotLocal.message(), "cannot branch off a timeline that is not local");
}

#[test]
fn corrupt_metadata() {
    let mut repo = make_repo();
    let metadata = repo.create_empty_timeline(TIMELINE_ID, Lsn(0)).unwrap();
    let mut metadata_bytes = metadata.to_bytes();
    assert_eq!(metadata_bytes.len(), 512);
    metadata_bytes[512 - 4 - 2] ^= 1;

    let mut new_repo = make_repo();
    let err = new_repo.init_local_timeline(TIMELINE_ID, &metadata_bytes, Vec::new()).err().unwrap();
    assert_eq!(err, LoadError::Metadata(MetadataError::ChecksumMismatch));
    assert_eq!(err.message(), "failed to load metadata");
    assert_eq!(err.cause().unwrap(), "metadata checksum mismatch");
    assert!(new_repo.get_timeline(TIMELINE_ID).is_err());
}

#[test]
fn any_flipped_bit_is_detected() {
    let m = TimelineMetadata::new(Lsn(0x8000), None, Some(NEW_TIMELINE_ID), Lsn(0x10), Lsn(0), Lsn(0));
    let good = m.to_bytes();
    for i in 0..512 {
        for bit in 0..8 {
            let mut bad = good.clone();
            bad[i] ^= 1 << bit;
            assert_eq!(TimelineMetadata::from_bytes(&bad), Err(MetadataError::ChecksumMismatch));
        }
    }
}

#[test]
fn layer_file_names() {
    let img = ImageFileName { seg: SegmentTag { rel: RelishTag::ControlFile, segno: 0 }, lsn: Lsn(0x8001) };
    assert_eq!(img.to_bytes(), b"pg_control_0_0000000000008001".to_vec());
    assert_eq!(ImageFileName::parse_str(&b"pg_control_0_0000000000008001".to_vec()), Some(img));

    let delta = DeltaFileName {
        seg: SegmentTag { rel: TESTREL_A, segno: 3 },
        start_lsn: Lsn(0x7000),
        end_lsn: Lsn(0xABCDEF),
    };
    assert_eq!(delta.to_bytes(), b"rel_0_111_1000_0_3_0000000000007000_0000000000ABCDEF".to_vec());
    assert_eq!(DeltaFileName::parse_str(&delta.to_bytes()), Some(delta));
    assert_eq!(ImageFileName::parse_str(&delta.to_bytes()), None);
    assert_eq!(DeltaFileName::parse_str(&img.to_bytes()), None);

    let rels = [
        RelishTag::Slru { slru: SlruKind::Clog, segno: 12 },
        RelishTag::Slru { slru: SlruKind::MultiXactMembers, segno: 0 },
        RelishTag::Slru { slru: SlruKind::MultiXactOffsets, segno: 4000000000 },
        RelishTag::FileNodeMap { spcnode: 1663, dbnode: 13008 },
        RelishTag::TwoPhase { xid: 77 },
        RelishTag::ControlFile,
        RelishTag::Checkpoint,
        RelishTag::Relation(RelTag { spcnode: 1663, dbnode: 13008, relnode: 16384, forknum: 255 }),
    ];
    for rel in rels {
        let n = ImageFileName { seg: SegmentTag { rel, segno: 4294967295 }, lsn: Lsn(u64::MAX) };
        assert_eq!(ImageFileName::parse_str(&n.to_bytes()), Some(n));
    }

    for bad in [
        "pg_control_0_000000000000800",
        "pg_control_0_000000000000800g",
        "pg_control_0_000000000000abcd",
        "pg_control_00_0000000000008001",
        "pg_control__0000000000008001",
        "pg_control_0_0000000000008001_",
        "rel_0_111_1000_256_0_0000000000008001",
        "rel_0_111_1000_0_4294967296_0000000000008001",
        "metadata",
        "",
    ] {
        assert_eq!(ImageFileName::parse_str(&bad.as_bytes().to_vec()), None, "{}", bad);
        assert_eq!(DeltaFileName::parse_str(&bad.as_bytes().to_vec()), None, "{}", bad);
    }
}

#[test]
fn backup_names() {
    let name = b"pg_control_0_0000000000008001".to_vec();
    let none: Vec<Vec<u8>> = Vec::new();
    assert_eq!(rename_to_backup(&name, &none), Some((0, b"pg_control_0_0000000000008001.0.old".to_vec())));
    let taken = vec![
        b"pg_control_0_0000000000008001.0.old".to_vec(),
        b"pg_control_0_0000000000008001.2.old".to_vec(),
        b"pg_control_0_0000000000008001".to_vec(),
    ];
    assert_eq!(rename_to_backup(&name, &taken), Some((1, b"pg_control_0_0000000000008001.1.old".to_vec())));
    assert!(is_ephemeral_file(&b"ephemeral-12".to_vec()));
    assert!(!is_ephemeral_file(&b"ephemera".to_vec()));
}

#[test]
fn layer_magic() {
    assert_eq!(layer_kind_of_magic(DELTA_FILE_MAGIC), Some(LayerKind::Delta));
    assert_eq!(layer_kind_of_magic(IMAGE_FILE_MAGIC), Some(LayerKind::Image));
    assert_eq!(layer_kind_of_magic(0), None);
}

#[test]
fn read_your_write() {
    let mut repo = make_repo();
    repo.create_empty_timeline(TIMELINE_ID, Lsn(0)).unwrap();
    repo.put_page_image(TIMELINE_ID, TESTREL_A, 0, Lsn(0x10), test_img("foo blk 0 at 0x10")).unwrap();
    assert!(repo.advance_last_record_lsn(TIMELINE_ID, Lsn(0x10)));
    repo.put_wal_record(
        TIMELINE_ID,
        Lsn(0x20),
        TESTREL_A,
        0,
        WalRecord { will_init: false, rec: Bytes::from_static(b"rec at 0x20") },
    )
    .unwrap();
    repo.advance_last_record_lsn(TIMELINE_ID, Lsn(0x20));

    let p = repo.get_page_at_lsn(TIMELINE_ID, TESTREL_A, 0, Lsn(0x10), None, &test_redo).unwrap();
    assert_eq!(p.img, test_img("foo blk 0 at 0x10"));
    assert_eq!(p.cache_lsn, None);

    let p = repo.get_page_at_lsn(TIMELINE_ID, TESTREL_A, 0, Lsn(0x20), None, &test_redo).unwrap();
    let mut want = test_img("foo blk 0 at 0x10").to_vec();
    want[0..8].copy_from_slice(&0x20u64.to_be_bytes());
    want[8..19].copy_from_slice(b"rec at 0x20");
    assert_eq!(p.img, Bytes::from(want));
    assert_eq!(p.cache_lsn, Some(Lsn(0x20)));

    assert_eq!(
        repo.get_page_at_lsn(TIMELINE_ID, TESTREL_A, 0, Lsn(0x20), None, &failing_redo).err(),
        Some(ReadError::Redo)
    );
    assert_eq!(
        repo.get_page_at_lsn(TIMELINE_ID, TESTREL_A, 0, Lsn(0x28), None, &test_redo).err(),
        Some(ReadError::LsnAhead)
    );
    assert_eq!(
        repo.get_page_at_lsn(TIMELINE_ID, TESTREL_B, 0, Lsn(0x20), None, &test_redo).err(),
        Some(ReadError::SegmentNotFound)
    );
    assert_eq!(
        repo.get_page_at_lsn(TIMELINE_ID, RelishTag::ControlFile, 1, Lsn(0x20), None, &test_redo).err(),
        Some(ReadError::InvalidBlock)
    );
    assert_eq!(
        repo.get_page_at_lsn(NEW_TIMELINE_ID, TESTREL_A, 0, Lsn(0x20), None, &test_redo).err(),
        Some(ReadError::NotLocal)
    );
    assert_eq!(repo.get_relish_size(TIMELINE_ID, TESTREL_A, Lsn(0x20)), Ok(Some(1)));
    assert_eq!(repo.get_rel_exists(TIMELINE_ID, TESTREL_A, Lsn(0x20)), Ok(true));
    assert_eq!(repo.get_rel_exists(TIMELINE_ID, TESTREL_A, Lsn(0x8)), Ok(false));
    assert_eq!(repo.get_rel_exists(TIMELINE_ID, TESTREL_B, Lsn(0x20)), Ok(false));
}

#[test]
fn cached_page_is_used() {
    let mut repo = make_repo();
    repo.create_empty_timeline(TIMELINE_ID, Lsn(0)).unwrap();
    repo.put_page_image(TIMELINE_ID, TESTREL_A, 0, Lsn(0x10), test_img("base")).unwrap();
    repo.advance_last_record_lsn(TIMELINE_ID, Lsn(0x10));
    for lsn in [0x20u64, 0x30] {
        repo.put_wal_record(
            TIMELINE_ID,
            Lsn(lsn),
            TESTREL_A,
            0,
            WalRecord { will_init: false, rec: Bytes::from_static(b"r") },
        )
        .unwrap();
        repo.advance_last_record_lsn(TIMELINE_ID, Lsn(lsn));
    }
    let cached = test_img("cached at 0x20");
    let p = repo
        .get_page_at_lsn(TIMELINE_ID, TESTREL_A, 0, Lsn(0x20), Some((Lsn(0x20), cached.clone())), &failing_redo)
        .unwrap();
    assert_eq!(p.img, cached);
    let p = repo
        .get_page_at_lsn(TIMELINE_ID, TESTREL_A, 0, Lsn(0x30), Some((Lsn(0x20), cached.clone())), &test_redo)
        .unwrap();
    let mut want = cached.to_vec();
    want[0..8].copy_from_slice(&0x30u64.to_be_bytes());
    want[8] = b'r';
    assert_eq!(p.img, Bytes::from(want));
}

#[test]
fn writes_are_checked() {
    let mut repo = make_repo();
    repo.create_empty_timeline(TIMELINE_ID, Lsn(0)).unwrap();
    assert_eq!(
        repo.put_page_image(TIMELINE_ID, TESTREL_A, 0, Lsn(0x11), test_img("x")),
        Err(WriteError::Unaligned)
    );
    assert_eq!(
        repo.put_page_image(TIMELINE_ID, TESTREL_A, 0, Lsn(0), test_img("x")),
        Err(WriteError::LsnNotAfterLast)
    );
    assert_eq!(
        repo.put_page_image(TIMELINE_ID, RelishTag::Checkpoint, 1, Lsn(0x10), test_img("x")),
        Err(WriteError::InvalidBlock)
    );
    assert_eq!(
        repo.put_page_image(NEW_TIMELINE_ID, TESTREL_A, 0, Lsn(0x10), test_img("x")),
        Err(WriteError::NotLocal)
    );
    assert_eq!(
        repo.put_truncation(TIMELINE_ID, RelishTag::Checkpoint, Lsn(0x10), 0),
        Err(WriteError::NotBlocky)
    );
    assert_eq!(repo.put_truncation(TIMELINE_ID, TESTREL_A, Lsn(0x10), 0), Err(WriteError::NonExistent));
    repo.put_page_image(TIMELINE_ID, TESTREL_A, 0, Lsn(0x20), test_img("x")).unwrap();
    repo.advance_last_record_lsn(TIMELINE_ID, Lsn(0x20));
    assert_eq!(
        repo.put_page_image(TIMELINE_ID, TESTREL_A, 0, Lsn(0x20), test_img("x")),
        Err(WriteError::LsnNotAfterLast)
    );
    assert!(!repo.advance_last_record_lsn(NEW_TIMELINE_ID, Lsn(0x20)));
    repo.advance_last_record_lsn(TIMELINE_ID, Lsn(0x10));
    assert_eq!(repo.get_local_timeline(TIMELINE_ID).unwrap().get_last_record_lsn(), Lsn(0x20));
    assert_eq!(repo.get_local_timeline(TIMELINE_ID).unwrap().get_prev_record_lsn(), Lsn(0));
}

#[test]
fn sparse_relation_is_zero_filled() {
    let mut repo = make_repo();
    repo.create_empty_timeline(TIMELINE_ID, Lsn(0)).unwrap();
    let blk = RELISH_SEG_SIZE * 2 + 5;
    repo.put_page_image(TIMELINE_ID, TESTREL_A, blk, Lsn(0x10), test_img("far out")).unwrap();
    repo.advance_last_record_lsn(TIMELINE_ID, Lsn(0x10));
    assert_eq!(repo.get_relish_size(TIMELINE_ID, TESTREL_A, Lsn(0x10)), Ok(Some(blk + 1)));
    for b in [0, 1, RELISH_SEG_SIZE - 1, RELISH_SEG_SIZE, blk - 1] {
        let p = repo.get_page_at_lsn(TIMELINE_ID, TESTREL_A, b, Lsn(0x10), None, &failing_redo).unwrap();
        assert_eq!(p.img, zero_page());
    }
    let p = repo.get_page_at_lsn(TIMELINE_ID, TESTREL_A, blk, Lsn(0x10), None, &failing_redo).unwrap();
    assert_eq!(p.img, test_img("far out"));
    assert_eq!(
        repo.get_local_timeline(TIMELINE_ID).unwrap().get_current_logical_size(),
        (blk as u64 + 1) * 8192
    );
    assert_eq!(
        repo.get_current_logical_size_non_incremental(TIMELINE_ID, Lsn(0x10)),
        Ok((blk as u64 + 1) * 8192)
    );
}

#[test]
fn truncation_shrinks_size() {
    let mut repo = make_repo();
    repo.create_empty_timeline(TIMELINE_ID, Lsn(0)).unwrap();
    repo.put_page_image(TIMELINE_ID, TESTREL_A, 99, Lsn(0x10), test_img("blk 99")).unwrap();
    repo.advance_last_record_lsn(TIMELINE_ID, Lsn(0x10));
    assert_eq!(repo.get_relish_size(TIMELINE_ID, TESTREL_A, Lsn(0x10)), Ok(Some(100)));
    let before = repo.get_local_timeline(TIMELINE_ID).unwrap().get_current_logical_size();
    repo.put_truncation(TIMELINE_ID, TESTREL_A, Lsn(0x20), 40).unwrap();
    repo.advance_last_record_lsn(TIMELINE_ID, Lsn(0x20));
    assert_eq!(repo.get_relish_size(TIMELINE_ID, TESTREL_A, Lsn(0x20)), Ok(Some(40)));
    assert_eq!(repo.get_relish_size(TIMELINE_ID, TESTREL_A, Lsn(0x10)), Ok(Some(100)));
    let after = repo.get_local_timeline(TIMELINE_ID).unwrap().get_current_logical_size();
    assert_eq!(before - after, 60 * 8192);
    // Truncating to a larger size changes nothing.
    repo.put_truncation(TIMELINE_ID, TESTREL_A, Lsn(0x30), 50).unwrap();
    assert_eq!(repo.get_local_timeline(TIMELINE_ID).unwrap().get_current_logical_size(), after);
}

#[test]
fn truncation_across_segments_and_drop() {
    let mut repo = make_repo();
    repo.create_empty_timeline(TIMELINE_ID, Lsn(0)).unwrap();
    let blk = RELISH_SEG_SIZE * 3 + 10;
    repo.put_page_image(TIMELINE_ID, TESTREL_A, blk, Lsn(0x10), test_img("a")).unwrap();
    repo.advance_last_record_lsn(TIMELINE_ID, Lsn(0x10));
    repo.put_truncation(TIMELINE_ID, TESTREL_A, Lsn(0x20), RELISH_SEG_SIZE).unwrap();
    repo.advance_last_record_lsn(TIMELINE_ID, Lsn(0x20));
    assert_eq!(repo.get_relish_size(TIMELINE_ID, TESTREL_A, Lsn(0x20)), Ok(Some(RELISH_SEG_SIZE)));
    repo.put_truncation(TIMELINE_ID, TESTREL_A, Lsn(0x30), 0).unwrap();
    repo.advance_last_record_lsn(TIMELINE_ID, Lsn(0x30));
    assert_eq!(repo.get_relish_size(TIMELINE_ID, TESTREL_A, Lsn(0x30)), Ok(Some(0)));
    assert_eq!(repo.get_rel_exists(TIMELINE_ID, TESTREL_A, Lsn(0x30)), Ok(true));
    repo.drop_relish(TIMELINE_ID, TESTREL_A, Lsn(0x40)).unwrap();
    repo.advance_last_record_lsn(TIMELINE_ID, Lsn(0x40));
    assert_eq!(repo.get_relish_size(TIMELINE_ID, TESTREL_A, Lsn(0x40)), Ok(None));
    assert_eq!(repo.get_rel_exists(TIMELINE_ID, TESTREL_A, Lsn(0x40)), Ok(false));
    assert_eq!(repo.get_relish_size(TIMELINE_ID, TESTREL_A, Lsn(0x10)), Ok(Some(blk + 1)));
    assert_eq!(repo.get_local_timeline(TIMELINE_ID).unwrap().get_current_logical_size(), 0);
}

#[test]
fn creation_and_listing() {
    let mut repo = make_repo();
    repo.create_empty_timeline(TIMELINE_ID, Lsn(0)).unwrap();
    repo.put_creation(TIMELINE_ID, TESTREL_A, Lsn(0x10), 7).unwrap();
    repo.put_page_image(TIMELINE_ID, TESTREL_B, 0, Lsn(0x10), test_img("b")).unwrap();
    repo.put_page_image(TIMELINE_ID, RelishTag::ControlFile, 0, Lsn(0x10), test_img("c")).unwrap();
    repo.put_page_image(TIMELINE_ID, RelishTag::Slru { slru: SlruKind::Clog, segno: 0 }, 1, Lsn(0x10), test_img("s"))
        .unwrap();
    repo.advance_last_record_lsn(TIMELINE_ID, Lsn(0x10));
    repo.drop_relish(TIMELINE_ID, TESTREL_B, Lsn(0x20)).unwrap();
    repo.advance_last_record_lsn(TIMELINE_ID, Lsn(0x20));

    assert_eq!(repo.get_relish_size(TIMELINE_ID, TESTREL_A, Lsn(0x10)), Ok(Some(7)));
    let mut rels = repo.list_rels(TIMELINE_ID, 0, 0, Lsn(0x10)).unwrap();
    rels.sort();
    assert_eq!(rels, vec![TESTREL_A, TESTREL_B]);
    assert_eq!(repo.list_rels(TIMELINE_ID, 0, 0, Lsn(0x20)).unwrap(), vec![TESTREL_A]);
    assert_eq!(repo.list_rels(TIMELINE_ID, 0, 112, Lsn(0x20)).unwrap(), Vec::<RelishTag>::new());
    let mut nonrels = repo.list_nonrels(TIMELINE_ID, Lsn(0x20)).unwrap();
    nonrels.sort();
    assert_eq!(nonrels, vec![RelishTag::Slru { slru: SlruKind::Clog, segno: 0 }, RelishTag::ControlFile]);
    assert_eq!(repo.get_current_logical_size_non_incremental(TIMELINE_ID, Lsn(0x20)), Ok((7 + 2) * 8192));
    assert_eq!(repo.list_rels(NEW_TIMELINE_ID, 0, 0, Lsn(0x20)).err(), Some(ReadError::NotLocal));
}

#[test]
fn wait_lsn_times_out() {
    let mut repo = make_repo();
    repo.create_empty_timeline(TIMELINE_ID, Lsn(0)).unwrap();
    let tl = repo.get_local_timeline(TIMELINE_ID).unwrap();
    assert_eq!(tl.wait_lsn(Lsn(0), 0, 1000), WaitOutcome::Ready);
    assert_eq!(tl.wait_lsn(Lsn(0x10), 999, 1000), WaitOutcome::Pending);
    assert_eq!(
        tl.wait_lsn(Lsn(0x10), 1000, 1000),
        WaitOutcome::TimedOut { last_record_lsn: Lsn(0), disk_consistent_lsn: Lsn(0) }
    );
}

#[test]
fn branch_below_gc_cutoff_is_refused() {
    let mut repo = make_repo();
    repo.create_empty_timeline(TIMELINE_ID, Lsn(0)).unwrap();
    repo.put_page_image(TIMELINE_ID, TESTREL_A, 0, Lsn(200), test_img("a")).unwrap();
    repo.advance_last_record_lsn(TIMELINE_ID, Lsn(200));
    repo.gc_timeline(TIMELINE_ID, &Vec::new(), Lsn(100)).unwrap();
    assert_eq!(repo.get_local_timeline(TIMELINE_ID).unwrap().get_latest_gc_cutoff_lsn(), Lsn(100));
    match repo.branch_timeline(TIMELINE_ID, NEW_TIMELINE_ID, Lsn(50)) {
        Err(BranchError::InvalidStartLsn(e)) => {
            assert_eq!(BranchError::InvalidStartLsn(e).message(), "invalid branch start lsn");
            assert_eq!(e.lsn, Lsn(50));
            assert_eq!(e.latest_gc_cutoff_lsn, Lsn(100));
        }
        other => panic!("unexpected {:?}", other),
    }
    let m = repo.branch_timeline(TIMELINE_ID, NEW_TIMELINE_ID, Lsn(200)).unwrap();
    assert_eq!(m.disk_consistent_lsn, Lsn(200));
    assert_eq!(m.prev_record_lsn, Some(Lsn(0)));
    assert_eq!(m.ancestor_timeline, Some(TIMELINE_ID));
    assert_eq!(m.ancestor_lsn, Lsn(200));
    assert_eq!(m.latest_gc_cutoff_lsn, Lsn(100));
    let m = repo.branch_timeline(TIMELINE_ID, NEW_TIMELINE_ID, Lsn(104)).unwrap();
    assert_eq!(m.prev_record_lsn, None);
    assert_eq!(repo.branch_timeline(NEW_TIMELINE_ID, TIMELINE_ID, Lsn(200)).err(), Some(BranchError::NotLocal));
}

#[test]
fn ancestor_read() {
    let mut repo = make_repo();
    repo.create_empty_timeline(TIMELINE_ID, Lsn(0)).unwrap();
    repo.put_page_image(TIMELINE_ID, TESTREL_A, 0, Lsn(0x18), test_img("on src at 0x18")).unwrap();
    repo.advance_last_record_lsn(TIMELINE_ID, Lsn(0x18));
    repo.put_page_image(TIMELINE_ID, TESTREL_A, 1, Lsn(0x20), test_img("blk 1")).unwrap();
    repo.advance_last_record_lsn(TIMELINE_ID, Lsn(0x20));

    let m = repo.branch_timeline(TIMELINE_ID, NEW_TIMELINE_ID, Lsn(0x20)).unwrap();
    let actions = repo.init_local_timeline(NEW_TIMELINE_ID, &m.to_bytes(), Vec::new()).unwrap();
    assert!(actions.is_empty());
    assert_eq!(repo.get_local_timeline(NEW_TIMELINE_ID).unwrap().get_current_logical_size(), 2 * 8192);

    for lsn in [0x18u64, 0x20] {
        let p = repo.get_page_at_lsn(NEW_TIMELINE_ID, TESTREL_A, 0, Lsn(lsn), None, &failing_redo).unwrap();
        assert_eq!(p.img, test_img("on src at 0x18"));
    }
    assert_eq!(repo.get_relish_size(NEW_TIMELINE_ID, TESTREL_A, Lsn(0x20)), Ok(Some(2)));
    assert_eq!(repo.get_relish_size(NEW_TIMELINE_ID, TESTREL_A, Lsn(0x18)), Ok(Some(1)));

    // Writes on the child do not show on the parent, and writes on the
    // parent after the branch point do not show on the child.
    repo.put_page_image(NEW_TIMELINE_ID, TESTREL_A, 0, Lsn(0x28), test_img("on dst at 0x28")).unwrap();
    repo.advance_last_record_lsn(NEW_TIMELINE_ID, Lsn(0x28));
    repo.put_page_image(TIMELINE_ID, TESTREL_A, 0, Lsn(0x28), test_img("on src at 0x28")).unwrap();
    repo.advance_last_record_lsn(TIMELINE_ID, Lsn(0x28));
    let p = repo.get_page_at_lsn(TIMELINE_ID, TESTREL_A, 0, Lsn(0x28), None, &failing_redo).unwrap();
    assert_eq!(p.img, test_img("on src at 0x28"));
    let p = repo.get_page_at_lsn(NEW_TIMELINE_ID, TESTREL_A, 0, Lsn(0x28), None, &failing_redo).unwrap();
    assert_eq!(p.img, test_img("on dst at 0x28"));
    let p = repo.get_page_at_lsn(NEW_TIMELINE_ID, TESTREL_A, 1, Lsn(0x28), None, &failing_redo).unwrap();
    assert_eq!(p.img, test_img("blk 1"));
    let p = repo.get_page_at_lsn(NEW_TIMELINE_ID, TESTREL_A, 0, Lsn(0x20), None, &failing_redo).unwrap();
    assert_eq!(p.img, test_img("on src at 0x18"));
    let mut rels = repo.list_rels(NEW_TIMELINE_ID, 0, 0, Lsn(0x28)).unwrap();
    rels.sort();
    assert_eq!(rels, vec![TESTREL_A]);
}

#[test]
fn load_needs_the_ancestor() {
    let mut repo = make_repo();
    let m = TimelineMetadata::new(Lsn(0x20), None, Some(TIMELINE_ID), Lsn(0x20), Lsn(0), Lsn(0));
    assert_eq!(
        repo.init_local_timeline(NEW_TIMELINE_ID, &m.to_bytes(), Vec::new()).err(),
        Some(LoadError::AncestorNotLoaded(TIMELINE_ID))
    );
    let bad = TimelineMetadata::new(Lsn(u64::MAX), None, None, Lsn(0), Lsn(0), Lsn(0));
    assert_eq!(
        repo.init_local_timeline(NEW_TIMELINE_ID, &bad.to_bytes(), Vec::new()).err(),
        Some(LoadError::InvalidLsn)
    );
    let bad = TimelineMetadata::new(Lsn(0x20), None, None, Lsn(0x28), Lsn(0), Lsn(0));
    assert_eq!(
        repo.init_local_timeline(NEW_TIMELINE_ID, &bad.to_bytes(), Vec::new()).err(),
        Some(LoadError::InvalidLsn)
    );
    assert_eq!(repo.get_timeline_state(NEW_TIMELINE_ID), None);
}

#[test]
fn checkpoint_flushes_and_settles() {
    let mut repo = make_repo();
    repo.create_empty_timeline(TIMELINE_ID, Lsn(0x8000)).unwrap();
    repo.put_page_image(TIMELINE_ID, TESTREL_A, 0, Lsn(0x8000), test_img("foo blk 0 at 0x8000")).unwrap();
    repo.advance_last_record_lsn(TIMELINE_ID, Lsn(0x8000));

    // Too little WAL for a checkpoint by distance.
    let out = repo.checkpoint(TIMELINE_ID, CheckpointConfig::Distance(1 << 20), &failing_redo);
    assert!(out.error.is_none() && out.flushes.is_empty());
    assert_eq!(repo.get_local_timeline(TIMELINE_ID).unwrap().get_disk_consistent_lsn(), Lsn(0));

    let out = repo.checkpoint(TIMELINE_ID, CheckpointConfig::Forced, &failing_redo);
    assert!(out.error.is_none());
    assert_eq!(out.flushes.len(), 1);
    let f = out.flushes[0];
    assert_eq!(f.first_new_layer, 0);
    assert_eq!(f.new_images, 1);
    assert!(!f.upload);
    let m = f.metadata.unwrap();
    assert_eq!(m.disk_consistent_lsn, Lsn(0x8000));
    assert_eq!(m.prev_record_lsn, Some(Lsn(0)));
    // The new LSN shows once the files are on disk and that is made known.
    assert_eq!(repo.get_local_timeline(TIMELINE_ID).unwrap().get_disk_consistent_lsn(), Lsn(0));
    assert!(!repo.publish_disk_consistent_lsn(TIMELINE_ID, Lsn(0x8008)));
    assert!(!repo.publish_disk_consistent_lsn(NEW_TIMELINE_ID, Lsn(0x8000)));
    assert!(repo.publish_disk_consistent_lsn(TIMELINE_ID, m.disk_consistent_lsn));
    assert!(!repo.publish_disk_consistent_lsn(TIMELINE_ID, Lsn(0x7000)));
    let tl = repo.get_local_timeline(TIMELINE_ID).unwrap();
    assert_eq!(tl.get_disk_consistent_lsn(), Lsn(0x8000));
    let layers = tl.get_layers();
    assert!(layers.get_open_layer().is_none());
    assert!(layers.get_frozen_layer().is_none());
    assert_eq!(layers.get_next_open_layer_at(), Some(Lsn(0x8001)));
    assert_eq!(layers.historic_count(), 2);
    assert_eq!(layers.historic_layer(0).get_kind(), LayerKind::Delta);
    assert_eq!(layers.historic_layer(0).get_start_lsn(), Lsn(0x8000));
    assert_eq!(layers.historic_layer(0).get_end_lsn(), Lsn(0x8001));
    assert_eq!(layers.historic_layer(1).get_kind(), LayerKind::Image);
    assert_eq!(layers.historic_layer(1).get_start_lsn(), Lsn(0x8000));
    assert_eq!(layers.historic_layer(1).get_end_lsn(), Lsn(0x8001));

    // A second checkpoint finds nothing to do.
    let out = repo.checkpoint(TIMELINE_ID, CheckpointConfig::Forced, &failing_redo);
    assert!(out.error.is_none() && out.flushes.is_empty());
    let tl = repo.get_local_timeline(TIMELINE_ID).unwrap();
    assert_eq!(tl.get_disk_consistent_lsn(), Lsn(0x8000));
    assert_eq!(tl.get_layers().historic_count(), 2);

    let p = repo.get_page_at_lsn(TIMELINE_ID, TESTREL_A, 0, Lsn(0x8000), None, &failing_redo).unwrap();
    assert_eq!(p.img, test_img("foo blk 0 at 0x8000"));

    let round = repo.checkpoint_iteration(CheckpointConfig::Flush, &failing_redo);
    assert!(round.error.is_none());
    assert_eq!(round.timelines.len(), 1);
    assert!(round.timelines[0].outcomes.is_empty());
}

#[test]
fn future_layerfiles() {
    let mut repo = make_repo();
    repo.create_empty_timeline(TIMELINE_ID, Lsn(0x8000)).unwrap();
    repo.put_page_image(TIMELINE_ID, TESTREL_A, 0, Lsn(0x8000), test_img("foo blk 0 at 0x8000")).unwrap();
    repo.advance_last_record_lsn(TIMELINE_ID, Lsn(0x8000));
    let round = repo.checkpoint_iteration(CheckpointConfig::Forced, &failing_redo);
    let metadata = round.timelines[0].outcomes[0].metadata.unwrap();
    assert_eq!(metadata.disk_consistent_lsn, Lsn(0x8000));
    drop(repo);

    let control = SegmentTag { rel: RelishTag::ControlFile, segno: 0 };
    // These files are considered to be in the future and will be renamed out
    // of the way
    let future_filenames = vec![
        format!("pg_control_0_{:016X}", 0x8001),
        format!("pg_control_0_{:016X}_{:016X}", 0x8001, 0x8008),
    ];
    // But these are not:
    let past_filenames = vec![
        format!("pg_control_0_{:016X}", 0x8000),
        format!("pg_control_0_{:016X}_{:016X}", 0x7000, 0x8001),
    ];
    // All four files are empty: none of them can be read as a layer.
    let dir = |with_future: bool| {
        let mut files = Vec::new();
        if with_future {
            for name in future_filenames.iter() {
                files.push(LayerFile { name: name.as_bytes().to_vec(), layer: None });
            }
        }
        for name in past_filenames.iter() {
            files.push(LayerFile { name: name.as_bytes().to_vec(), layer: None });
        }
        files.push(LayerFile { name: b"metadata".to_vec(), layer: None });
        files.push(LayerFile { name: b"pg_control_0_0000000000009000.0.old".to_vec(), layer: None });
        files.push(LayerFile { name: b"ephemeral-3".to_vec(), layer: None });
        files.push(LayerFile { name: b"README".to_vec(), layer: None });
        files
    };

    // Load the timeline. This will cause the files in the "future" to be renamed
    // away.
    let mut new_repo = make_repo();
    let actions = new_repo.init_local_timeline(TIMELINE_ID, &metadata.to_bytes(), dir(true)).unwrap();
    assert_eq!(
        actions,
        vec![
            FileAction::RenameToBackup,
            FileAction::RenameToBackup,
            FileAction::Loaded,
            FileAction::Loaded,
            FileAction::Ignored,
            FileAction::Ignored,
            FileAction::RemoveEphemeral,
            FileAction::RenameToBackup,
        ]
    );
    let tl = new_repo.get_local_timeline(TIMELINE_ID).unwrap();
    assert_eq!(tl.get_layers().historic_count(), 2);
    assert_eq!(tl.get_layers().get_next_open_layer_at(), Some(Lsn(0x8001)));
    assert_eq!(tl.get_last_record_lsn(), Lsn(0x8000));
    assert_eq!(tl.get_layers().historic_layer(0).get_kind(), LayerKind::Image);
    assert_eq!(tl.get_layers().historic_layer(0).get_start_lsn(), Lsn(0x8000));
    assert!(!tl.get_layers().historic_layer(0).is_readable());
    assert_eq!(tl.get_layers().historic_layer(1).get_kind(), LayerKind::Delta);
    assert_eq!(tl.get_layers().historic_layer(1).get_end_lsn(), Lsn(0x8001));
    assert_eq!(tl.get_layers().historic_layer(1).single_seg(), Some(control));

    // A read that comes to a layer whose file could not be read fails.
    assert_eq!(
        new_repo.get_rel_exists(TIMELINE_ID, RelishTag::ControlFile, Lsn(0x8000)),
        Err(ReadError::UnreadableLayer)
    );
    assert_eq!(new_repo.list_nonrels(TIMELINE_ID, Lsn(0x8000)), Ok(vec![RelishTag::ControlFile]));
    assert_eq!(
        new_repo.get_relish_size(TIMELINE_ID, RelishTag::ControlFile, Lsn(0x8000)),
        Err(ReadError::UnreadableLayer)
    );
    assert_eq!(
        new_repo.get_page_at_lsn(TIMELINE_ID, RelishTag::ControlFile, 0, Lsn(0x8000), None, &failing_redo).err(),
        Some(ReadError::UnreadableLayer)
    );

    // The future files are moved to <name>.0.old, and the next time to <name>.1.old;
    // the files that are not in the future stay under their names.
    let mut taken: Vec<Vec<u8>> = dir(true).into_iter().map(|f| f.name).collect();
    for name in future_filenames.iter() {
        let (n, backup) = rename_to_backup(&name.as_bytes().to_vec(), &taken).unwrap();
        assert_eq!(n, 0);
        assert_eq!(backup, format!("{}.0.old", name).into_bytes());
        taken.push(backup);
    }
    let again = new_repo.init_local_timeline(TIMELINE_ID, &metadata.to_bytes(), dir(true)).unwrap();
    assert_eq!(again[0..4], actions[0..4]);
    for name in future_filenames.iter() {
        let (n, backup) = rename_to_backup(&name.as_bytes().to_vec(), &taken).unwrap();
        assert_eq!(n, 1);
        assert_eq!(backup, format!("{}.{}.old", name, 1).into_bytes());
    }
    for name in past_filenames.iter() {
        assert!(!taken.contains(&format!("{}.0.old", name).into_bytes()));
    }

    // A layer that was read from its file, and is what the name says, goes into the map as it is.
    let image = Layer::new_image(control, Lsn(0x8000), &vec![test_img("control")]);
    let mut files = dir(false);
    files[0].layer = Some(image);
    let mut another = make_repo();
    another.init_local_timeline(TIMELINE_ID, &metadata.to_bytes(), files).unwrap();
    let p = another.get_page_at_lsn(TIMELINE_ID, RelishTag::ControlFile, 0, Lsn(0x8000), None, &failing_redo);
    assert_eq!(p.unwrap().img, test_img("control"));
    // One that is not what the name says counts as not read.
    let mut files = dir(false);
    files[0].layer = Some(Layer::new_image(control, Lsn(0x7000), &vec![test_img("control")]));
    let mut another = make_repo();
    another.init_local_timeline(TIMELINE_ID, &metadata.to_bytes(), files).unwrap();
    assert!(!another.get_local_timeline(TIMELINE_ID).unwrap().get_layers().historic_layer(0).is_readable());

    let files = vec![LayerFile { name: b"pg_control_0_0000000000008000_0000000000008000".to_vec(), layer: None }];
    let err = another.init_local_timeline(NEW_TIMELINE_ID, &metadata.to_bytes(), files).err().unwrap();
    assert_eq!(err, LoadError::Layers(layered_repository::load::LayerLoadError::EmptyDelta(0)));
    assert_eq!(err.message(), "failed to load layermap");
    assert_eq!(err.cause(), None);
}

#[test]
fn timeline_states() {
    let mut repo = make_repo();
    assert_eq!(repo.create_empty_timeline(TIMELINE_ID, Lsn(0)).map(|m| m.initdb_lsn), Ok(Lsn(0)));
    assert_eq!(repo.create_empty_timeline(TIMELINE_ID, Lsn(0)).err(), Some(CreateError::AlreadyExists));
    assert_eq!(repo.get_timeline_state(TIMELINE_ID), Some(TimelineSyncState::Ready(Lsn(0))));
    assert_eq!(repo.get_timeline_state(NEW_TIMELINE_ID), None);
    assert_eq!(repo.detach_timeline(NEW_TIMELINE_ID), Err(DetachError::NotFound));

    repo.set_timeline_state(NEW_TIMELINE_ID, TimelineSyncState::CloudOnly(Lsn(0x40)), &Vec::new(), Vec::new())
        .unwrap();
    assert_eq!(repo.get_timeline_state(NEW_TIMELINE_ID), Some(TimelineSyncState::CloudOnly(Lsn(0x40))));
    assert_eq!(repo.detach_timeline(NEW_TIMELINE_ID), Err(DetachError::Remote));
    assert!(repo.get_local_timeline(NEW_TIMELINE_ID).is_none());

    repo.put_page_image(TIMELINE_ID, TESTREL_A, 0, Lsn(0x10), test_img("a")).unwrap();
    repo.advance_last_record_lsn(TIMELINE_ID, Lsn(0x10));
    // The first record of what is open lies at the head: nothing is frozen.
    let out = repo.checkpoint(TIMELINE_ID, CheckpointConfig::Flush, &failing_redo);
    assert!(out.error.is_none() && out.flushes.is_empty());
    repo.advance_last_record_lsn(TIMELINE_ID, Lsn(0x18));
    let out = repo.checkpoint(TIMELINE_ID, CheckpointConfig::Flush, &failing_redo);
    assert_eq!(out.flushes.len(), 1);
    assert_eq!(out.flushes[0].new_images, 0);
    assert_eq!(out.flushes[0].metadata.unwrap().disk_consistent_lsn, Lsn(0x18));
    assert!(repo.publish_disk_consistent_lsn(TIMELINE_ID, Lsn(0x18)));
    assert_eq!(repo.detach_timeline(TIMELINE_ID), Ok(()));
    assert_eq!(repo.get_timeline_state(TIMELINE_ID), Some(TimelineSyncState::CloudOnly(Lsn(0x18))));
    assert_eq!(
        repo.get_page_at_lsn(TIMELINE_ID, TESTREL_A, 0, Lsn(0x10), None, &failing_redo).err(),
        Some(ReadError::NotLocal)
    );

    repo.set_timeline_state(TIMELINE_ID, TimelineSyncState::Evicted(None), &Vec::new(), Vec::new()).unwrap();
    assert_eq!(repo.get_timeline_state(TIMELINE_ID), None);
    assert!(repo.get_timeline(TIMELINE_ID).is_err());

    let m = TimelineMetadata::new(Lsn(0x10), Some(Lsn(0)), None, Lsn(0), Lsn(0), Lsn(0));
    repo.set_timeline_state(TIMELINE_ID, TimelineSyncState::Ready(Lsn(0x10)), &m.to_bytes(), Vec::new()).unwrap();
    assert_eq!(repo.get_timeline_state(TIMELINE_ID), Some(TimelineSyncState::Ready(Lsn(0x10))));
}

#[test]
fn configuration_is_kept() {
    let repo = make_repo();
    assert_eq!(repo.get_conf().data_dir, "/tmp/test");
    assert_eq!(repo.get_conf().wait_lsn_timeout_ms, 1000);
    assert_eq!(repo.get_conf().checkpoint_distance, 256 * 1024 * 1024);
    assert!(!repo.get_conf().upload_relishes);
}

#[test]
fn branch_at_an_unaligned_lsn() {
    let mut repo = make_repo();
    repo.create_empty_timeline(TIMELINE_ID, Lsn(0)).unwrap();
    repo.put_page_image(TIMELINE_ID, TESTREL_A, 0, Lsn(0x10), test_img("at 0x10")).unwrap();
    repo.advance_last_record_lsn(TIMELINE_ID, Lsn(0x10));
    repo.put_page_image(TIMELINE_ID, TESTREL_A, 0, Lsn(0x20), test_img("at 0x20")).unwrap();
    repo.advance_last_record_lsn(TIMELINE_ID, Lsn(0x20));

    // A branch may start at any LSN at or above the GC cutoff.
    let m = repo.branch_timeline(TIMELINE_ID, NEW_TIMELINE_ID, Lsn(0x15)).unwrap();
    assert_eq!(m.disk_consistent_lsn, Lsn(0x15));
    assert_eq!(m.prev_record_lsn, None);
    assert_eq!(m.ancestor_timeline, Some(TIMELINE_ID));
    assert_eq!(m.ancestor_lsn, Lsn(0x15));
    assert_eq!(m.latest_gc_cutoff_lsn, Lsn(0));
    assert_eq!(repo.init_local_timeline(NEW_TIMELINE_ID, &m.to_bytes(), Vec::new()).map(|a| a.len()), Ok(0));
    let tl = repo.get_local_timeline(NEW_TIMELINE_ID).unwrap();
    assert_eq!(tl.get_ancestor_timeline_id(), Some(TIMELINE_ID));
    assert_eq!(tl.get_ancestor_lsn(), Lsn(0x15));
    assert_eq!(tl.get_disk_consistent_lsn(), Lsn(0x15));
    assert_eq!(tl.get_last_record_lsn(), Lsn(0x15));
    assert_eq!(tl.get_current_logical_size(), 8192);
    let p = repo.get_page_at_lsn(NEW_TIMELINE_ID, TESTREL_A, 0, Lsn(0x15), None, &failing_redo).unwrap();
    assert_eq!(p.img, test_img("at 0x10"));

    // The branch takes writes at the multiples of eight above its start.
    assert_eq!(
        repo.put_page_image(NEW_TIMELINE_ID, TESTREL_A, 0, Lsn(0x10), test_img("b")),
        Err(WriteError::LsnNotAfterLast)
    );
    repo.put_page_image(NEW_TIMELINE_ID, TESTREL_A, 0, Lsn(0x18), test_img("on the branch")).unwrap();
    repo.advance_last_record_lsn(NEW_TIMELINE_ID, Lsn(0x18));
    let p = repo.get_page_at_lsn(NEW_TIMELINE_ID, TESTREL_A, 0, Lsn(0x18), None, &failing_redo).unwrap();
    assert_eq!(p.img, test_img("on the branch"));
    let p = repo.get_page_at_lsn(TIMELINE_ID, TESTREL_A, 0, Lsn(0x20), None, &failing_redo).unwrap();
    assert_eq!(p.img, test_img("at 0x20"));
    let out = repo.checkpoint(NEW_TIMELINE_ID, CheckpointConfig::Forced, &failing_redo);
    assert_eq!(out.error, None);
    assert_eq!(out.flushes[0].metadata.unwrap().disk_consistent_lsn, Lsn(0x18));
}

#[test]
fn cached_page_above_the_read_is_passed_over() {
    let mut repo = make_repo();
    repo.create_empty_timeline(TIMELINE_ID, Lsn(0)).unwrap();
    repo.put_page_image(TIMELINE_ID, TESTREL_A, 0, Lsn(0x10), test_img("at 0x10")).unwrap();
    repo.advance_last_record_lsn(TIMELINE_ID, Lsn(0x10));
    repo.put_page_image(TIMELINE_ID, TESTREL_A, 0, Lsn(0x20), test_img("at 0x20")).unwrap();
    repo.advance_last_record_lsn(TIMELINE_ID, Lsn(0x20));
    let later = Some((Lsn(0x20), test_img("kept at 0x20")));
    let p = repo.get_page_at_lsn(TIMELINE_ID, TESTREL_A, 0, Lsn(0x18), later.clone(), &failing_redo).unwrap();
    assert_eq!(p.img, test_img("at 0x10"));
    let p = repo.get_page_at_lsn(TIMELINE_ID, TESTREL_A, 0, Lsn(0x20), later, &failing_redo).unwrap();
    assert_eq!(p.img, test_img("kept at 0x20"));
}
