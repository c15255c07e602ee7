use bytes::Bytes;
use layered_repository::layer::{Layer, LayerKind};
use layered_repository::layer_file::{
    decode_layer, encode_layer, LayerChapters, LayerFileError, EVENTS_CHAPTER, PAGES_CHAPTER, SEGS_CHAPTER,
    SUMMARY_CHAPTER,
};
use layered_repository::lsn::Lsn;
use layered_repository::page::{PageVersion, WalRecord};
use layered_repository::relish::{RelTag, RelishTag, SegmentTag, SlruKind};

const REL: RelishTag = RelishTag::Relation(RelTag { spcnode: 1, dbnode: 111, relnode: 1000, forknum: 2 });

fn num(x: u64) -> Vec<u8> {
    x.to_be_bytes().to_vec()
}

fn body(p: &PageVersion) -> (u8, Vec<u8>) {
    match p {
        PageVersion::Page(img) => (0, img.to_vec()),
        PageVersion::Wal(rec) => (if rec.will_init { 2 } else { 1 }, rec.rec.to_vec()),
    }
}

fn same_layer(a: &Layer, b: &Layer) {
    assert_eq!(a.get_kind(), b.get_kind());
    assert_eq!(a.get_start_lsn(), b.get_start_lsn());
    assert_eq!(a.get_end_lsn(), b.get_end_lsn());
    assert_eq!(a.is_frozen(), b.is_frozen());
    assert_eq!(a.get_oldest_lsn(), b.get_oldest_lsn());
    assert_eq!(a.is_readable(), b.is_readable());
    assert_eq!(a.seg_count(), b.seg_count());
    for i in 0..a.seg_count() {
        assert_eq!(a.seg_at(i).seg, b.seg_at(i).seg);
        assert_eq!(a.seg_at(i).base_size, b.seg_at(i).base_size);
        assert_eq!(a.seg_at(i).incremental, b.seg_at(i).incremental);
    }
    assert_eq!(a.event_count(), b.event_count());
    for i in 0..a.event_count() {
        assert_eq!(a.event_at(i).seg, b.event_at(i).seg);
        assert_eq!(a.event_at(i).lsn, b.event_at(i).lsn);
        assert_eq!(a.event_at(i).size, b.event_at(i).size);
    }
    assert_eq!(a.page_count(), b.page_count());
    for i in 0..a.page_count() {
        assert_eq!(a.page_at(i).seg, b.page_at(i).seg);
        assert_eq!(a.page_at(i).blknum, b.page_at(i).blknum);
        assert_eq!(a.page_at(i).lsn, b.page_at(i).lsn);
        assert_eq!(body(&a.page_at(i).pv), body(&b.page_at(i).pv));
    }
}

fn decode(kind: LayerKind, c: &LayerChapters) -> Result<Layer, LayerFileError> {
    decode_layer(kind, &c.summary, &c.segs, &c.events, &c.pages)
}

fn sample_delta() -> Layer {
    let seg = SegmentTag { rel: REL, segno: 3 };
    let other = SegmentTag { rel: RelishTag::Slru { slru: SlruKind::MultiXactOffsets, segno: 9 }, segno: 0 };
    let mut l = Layer::create(Lsn(0x11), Lsn(0x18));
    l.register_seg(seg, Some(2)).unwrap();
    l.register_seg(other, None).unwrap();
    l.put_page_version(seg, 2, Lsn(0x18), PageVersion::Page(Bytes::from(vec![7u8, 8, 9]))).unwrap();
    l.put_seg_size(seg, Lsn(0x18), 3).unwrap();
    l.put_page_version(
        seg,
        2,
        Lsn(0x20),
        PageVersion::Wal(WalRecord { will_init: false, rec: Bytes::from(vec![1u8]) }),
    )
    .unwrap();
    l.put_page_version(other, 0, Lsn(0x20), PageVersion::Wal(WalRecord { will_init: true, rec: Bytes::new() }))
        .unwrap();
    l.drop_segment(seg, Lsn(0x20)).unwrap();
    l.freeze(Lsn(0x21)).unwrap();
    l.into_delta()
}

#[test]
fn chapters_are_numbered() {
    assert_eq!([SUMMARY_CHAPTER, SEGS_CHAPTER, EVENTS_CHAPTER, PAGES_CHAPTER], [1, 2, 3, 4]);
}

#[test]
fn delta_layer_is_read_back() {
    let l = sample_delta();
    let c = encode_layer(&l);
    let back = decode(LayerKind::Delta, &c).unwrap();
    same_layer(&l, &back);
    assert_eq!(back.get_kind(), LayerKind::Delta);
    assert_eq!(back.page_count(), 3);
    assert_eq!(body(&back.page_at(0).pv), (0, vec![7u8, 8, 9]));
    assert_eq!(body(&back.page_at(1).pv), (1, vec![1u8]));
    assert_eq!(body(&back.page_at(2).pv), (2, Vec::new()));
    assert_eq!(back.get_seg_size(SegmentTag { rel: REL, segno: 3 }, Lsn(0x18)), Some(3));
    assert!(back.is_dropped(SegmentTag { rel: REL, segno: 3 }));
}

#[test]
fn image_layer_is_read_back() {
    let seg = SegmentTag { rel: RelishTag::TwoPhase { xid: 77 }, segno: 0 };
    let l = Layer::new_image(seg, Lsn(0x30), &vec![Bytes::from(vec![5u8; 8192])]);
    let c = encode_layer(&l);
    let back = decode(LayerKind::Image, &c).unwrap();
    same_layer(&l, &back);
    assert_eq!(back.get_end_lsn(), Lsn(0x31));
    assert!(!back.is_incremental(seg));
    assert_eq!(body(&back.page_at(0).pv), (0, vec![5u8; 8192]));
}

#[test]
fn chapters_byte_by_byte() {
    let c = encode_layer(&sample_delta());
    assert_eq!(c.summary, [num(0x11), num(0x21), num(0x18)].concat());

    let seg = [vec![0u8], num(1), num(111), num(1000), num(2), num(3)].concat();
    let other = [vec![3u8], num(9), num(0), num(0), num(0), num(0)].concat();
    let covered = [seg.clone(), vec![1u8], num(2), vec![1u8]].concat();
    let uncovered = [other.clone(), vec![0u8], num(0), vec![0u8]].concat();
    assert_eq!(c.segs, [num(51), covered, num(51), uncovered].concat());

    let grown = [seg.clone(), num(0x18), vec![1u8], num(3)].concat();
    let gone = [seg.clone(), num(0x20), vec![0u8], num(0)].concat();
    assert_eq!(c.events, [num(58), grown, num(58), gone].concat());

    let image = [seg.clone(), num(2), num(0x18), vec![0u8, 7, 8, 9]].concat();
    let record = [seg.clone(), num(2), num(0x20), vec![1u8, 1]].concat();
    let init = [other.clone(), num(0), num(0x20), vec![2u8]].concat();
    assert_eq!(c.pages, [num(61), image, num(59), record, num(58), init].concat());
}

#[test]
fn every_relish_kind_is_read_back() {
    let rels = [
        REL,
        RelishTag::Relation(RelTag { spcnode: u32::MAX, dbnode: u32::MAX, relnode: u32::MAX, forknum: 255 }),
        RelishTag::Slru { slru: SlruKind::Clog, segno: 4 },
        RelishTag::Slru { slru: SlruKind::MultiXactMembers, segno: 5 },
        RelishTag::Slru { slru: SlruKind::MultiXactOffsets, segno: 6 },
        RelishTag::FileNodeMap { spcnode: 7, dbnode: 8 },
        RelishTag::TwoPhase { xid: 9 },
        RelishTag::ControlFile,
        RelishTag::Checkpoint,
    ];
    let mut l = Layer::create(Lsn(0), Lsn(0));
    for (i, rel) in rels.iter().enumerate() {
        let seg = SegmentTag { rel: *rel, segno: u32::MAX - i as u32 };
        l.register_seg(seg, if i % 2 == 0 { None } else { Some(u32::MAX) }).unwrap();
    }
    l.freeze(Lsn(u64::MAX)).unwrap();
    let l = l.into_delta();
    let back = decode(LayerKind::Delta, &encode_layer(&l)).unwrap();
    same_layer(&l, &back);
    for (i, rel) in rels.iter().enumerate() {
        assert_eq!(back.seg_at(i).seg.rel, *rel);
    }
}

#[test]
fn chapters_that_are_no_layer() {
    let good = encode_layer(&sample_delta());
    let with = |summary: &Vec<u8>, segs: &Vec<u8>, events: &Vec<u8>, pages: &Vec<u8>| {
        decode_layer(LayerKind::Delta, summary, segs, events, pages).err()
    };
    assert_eq!(decode(LayerKind::InMemory, &good).err(), Some(LayerFileError::NoFileKind));
    assert_eq!(with(&good.summary, &good.segs, &good.events, &good.pages), None);

    assert_eq!(with(&Vec::new(), &good.segs, &good.events, &good.pages), Some(LayerFileError::Summary));
    let mut long = good.summary.clone();
    long.push(0);
    assert_eq!(with(&long, &good.segs, &good.events, &good.pages), Some(LayerFileError::Summary));

    // A chapter that ends inside a record, or inside a length.
    let mut cut = good.segs.clone();
    cut.pop();
    assert_eq!(with(&good.summary, &cut, &good.events, &good.pages), Some(LayerFileError::Segments));
    assert_eq!(with(&good.summary, &vec![0u8; 7], &good.events, &good.pages), Some(LayerFileError::Segments));
    // An unknown kind of relish.
    let mut odd = good.segs.clone();
    odd[8] = 8;
    assert_eq!(with(&good.summary, &odd, &good.events, &good.pages), Some(LayerFileError::Segments));
    // A fork number that is none.
    let mut odd = good.segs.clone();
    odd[8 + 1 + 24 + 6] = 1;
    assert_eq!(with(&good.summary, &odd, &good.events, &good.pages), Some(LayerFileError::Segments));
    // A number that is no 32-bit number.
    let mut odd = good.segs.clone();
    odd[8 + 1 + 3] = 1;
    assert_eq!(with(&good.summary, &odd, &good.events, &good.pages), Some(LayerFileError::Segments));
    // A flag that is neither set nor clear.
    let mut odd = good.segs.clone();
    odd[8 + 50] = 2;
    assert_eq!(with(&good.summary, &odd, &good.events, &good.pages), Some(LayerFileError::Segments));
    // A record of another length.
    let short = [num(50), vec![0u8; 50]].concat();
    assert_eq!(with(&good.summary, &short, &good.events, &good.pages), Some(LayerFileError::Segments));

    let mut odd = good.events.clone();
    odd[8 + 49] = 2;
    assert_eq!(with(&good.summary, &good.segs, &odd, &good.pages), Some(LayerFileError::Events));
    assert_eq!(with(&good.summary, &good.segs, &good.segs, &good.pages), Some(LayerFileError::Events));

    let mut odd = good.pages.clone();
    odd[8 + 57] = 3;
    assert_eq!(with(&good.summary, &good.segs, &good.events, &odd), Some(LayerFileError::Pages));
    let short = [num(57), vec![0u8; 57]].concat();
    assert_eq!(with(&good.summary, &good.segs, &good.events, &short), Some(LayerFileError::Pages));
    // The first chapter that is wrong is named.
    assert_eq!(with(&good.summary, &cut, &odd, &odd), Some(LayerFileError::Segments));

    // Empty chapters are a layer that holds nothing.
    let empty = decode_layer(LayerKind::Delta, &good.summary, &Vec::new(), &Vec::new(), &Vec::new()).unwrap();
    assert_eq!(empty.seg_count() + empty.event_count() + empty.page_count(), 0);
    assert_eq!(empty.get_start_lsn(), Lsn(0x11));
    assert_eq!(empty.get_end_lsn(), Lsn(0x21));
    assert_eq!(empty.get_oldest_lsn(), Lsn(0x18));

    assert_eq!(LayerFileError::NoFileKind.message(), "a layer in memory has no file");
    assert_eq!(LayerFileError::Summary.message(), "layer file summary is malformed");
    assert_eq!(LayerFileError::Segments.message(), "layer file segments are malformed");
    assert_eq!(LayerFileError::Events.message(), "layer file size changes are malformed");
    assert_eq!(LayerFileError::Pages.message(), "layer file page versions are malformed");
}

#[test]
fn layers_are_named_after_their_first_segment() {
    let l = sample_delta();
    assert_eq!(
        layered_repository::layer_file::layer_file_name(&l),
        Some(b"rel_1_111_1000_2_3_0000000000000011_0000000000000021".to_vec())
    );
    let seg = SegmentTag { rel: RelishTag::ControlFile, segno: 0 };
    let l = Layer::new_image(seg, Lsn(0x8000), &vec![Bytes::from(vec![5u8; 8192])]);
    assert_eq!(
        layered_repository::layer_file::layer_file_name(&l),
        Some(b"pg_control_0_0000000000008000".to_vec())
    );
    let mut open = Layer::create(Lsn(0x11), Lsn(0x18));
    assert_eq!(layered_repository::layer_file::layer_file_name(&open), None);
    open.register_seg(seg, None).unwrap();
    assert_eq!(layered_repository::layer_file::layer_file_name(&open), None);
    open.freeze(Lsn(0x21)).unwrap();
    assert_eq!(layered_repository::layer_file::layer_file_name(&open), None);
    assert_eq!(
        layered_repository::layer_file::layer_file_name(&open.into_delta()),
        Some(b"pg_control_0_0000000000000011_0000000000000021".to_vec())
    );
}
