//! Layer files: the bytes that a flushed layer is kept as.
//!
//! A layer file is a book of four chapters: the summary, which holds the
//! three LSNs of the layer, then the covered segments, the size changes and
//! the page versions. Each of the last three is a list of records, every
//! record behind its length. Every number is written as eight bytes, the
//! most significant first.

use crate::filename::{
    delta_name,
    image_name,
    lemma_delta_name_no_image,
    lemma_delta_name_parses,
    lemma_image_name_parses,
    DeltaFileName,
    ImageFileName,
};
use crate::layer::lemma_find_seg_present;
use crate::load::{layer_of_file, LayerFileView};
use crate::layer::{pages_view, CoveredSeg, Layer, LayerKind, LayerView, PageEntry, PageEntryView, SegEvent};
use crate::lsn::Lsn;
use crate::metadata::{be64, from_be64, lemma_be64_roundtrip, push_be64, read_be64};
use crate::page::{bytes_as_slice, bytes_from_vec, PageVersion, PageVersionView, WalRecord, WalRecordView};
use crate::relish::{RelTag, RelishTag, SegmentTag, SlruKind};
use vstd::prelude::*;

verus! {

/// The chapter that holds the layer's LSNs.
pub const SUMMARY_CHAPTER: u64 = 1;

/// The chapter that holds the covered segments.
pub const SEGS_CHAPTER: u64 = 2;

/// The chapter that holds the size changes.
pub const EVENTS_CHAPTER: u64 = 3;

/// The chapter that holds the page versions.
pub const PAGES_CHAPTER: u64 = 4;

/// The chapters of one layer file.
pub struct LayerChapters {
    pub summary: Vec<u8>,
    pub segs: Vec<u8>,
    pub events: Vec<u8>,
    pub pages: Vec<u8>,
}

pub struct ChaptersView {
    pub summary: Seq<u8>,
    pub segs: Seq<u8>,
    pub events: Seq<u8>,
    pub pages: Seq<u8>,
}

impl View for LayerChapters {
    type V = ChaptersView;

    open spec fn view(&self) -> ChaptersView {
        ChaptersView { summary: self.summary@, segs: self.segs@, events: self.events@, pages: self.pages@ }
    }
}

/// Why chapters are not a layer.
#[derive(Clone, Copy, Debug, PartialEq, Eq, Structural)]
pub enum LayerFileError {
    /// A layer in memory has no file.
    NoFileKind,
    /// The summary is not three numbers long.
    Summary,
    /// The chapter of segments is cut short or holds a record that is none.
    Segments,
    /// The chapter of size changes is cut short or holds a record that is none.
    Events,
    /// The chapter of page versions is cut short or holds a record that is none.
    Pages,
}

impl LayerFileError {
    pub open spec fn message_text(self) -> Seq<char> {
        match self {
            LayerFileError::NoFileKind => "a layer in memory has no file"@,
            LayerFileError::Summary => "layer file summary is malformed"@,
            LayerFileError::Segments => "layer file segments are malformed"@,
            LayerFileError::Events => "layer file size changes are malformed"@,
            LayerFileError::Pages => "layer file page versions are malformed"@,
        }
    }

    /// What went wrong, in words.
    pub fn message(&self) -> (r: &'static str)
        ensures
            r@ == self.message_text(),
    {
        match self {
            LayerFileError::NoFileKind => "a layer in memory has no file",
            LayerFileError::Summary => "layer file summary is malformed",
            LayerFileError::Segments => "layer file segments are malformed",
            LayerFileError::Events => "layer file size changes are malformed",
            LayerFileError::Pages => "layer file page versions are malformed",
        }
    }
}

/// The name of the file that a flushed layer is kept in: the first segment
/// that it covers, with its LSNs. A layer in memory has no file, nor has one
/// that covers nothing.
pub open spec fn file_name_of(l: LayerView) -> Option<Seq<u8>> {
    if l.segs.len() == 0 {
        None
    } else {
        match l.kind {
            LayerKind::Image => Some(image_name(ImageFileName { seg: l.segs[0].seg, lsn: l.start_lsn })),
            LayerKind::Delta => Some(
                delta_name(DeltaFileName { seg: l.segs[0].seg, start_lsn: l.start_lsn, end_lsn: l.end_or_max() }),
            ),
            LayerKind::InMemory => None,
        }
    }
}

/// The name of a vector of bytes, where there is one.
pub open spec fn name_view(r: Option<Vec<u8>>) -> Option<Seq<u8>> {
    match r {
        Some(v) => Some(v@),
        None => None,
    }
}

/// The name of the file that `l` is kept in.
pub fn layer_file_name(l: &Layer) -> (r: Option<Vec<u8>>)
    ensures
        name_view(r) == file_name_of(l@),
{
    if l.seg_count() == 0 {
        return None;
    }
    let seg = l.seg_at(0).seg;
    match l.get_kind() {
        LayerKind::Image => Some(ImageFileName { seg, lsn: l.get_start_lsn() }.to_bytes()),
        LayerKind::Delta => Some(
            DeltaFileName { seg, start_lsn: l.get_start_lsn(), end_lsn: l.get_end_lsn() }.to_bytes(),
        ),
        LayerKind::InMemory => None,
    }
}

/// A flushed layer is found again under its name: when a directory is
/// loaded, the file that has the layer's name and holds the layer
/// stands in the map as that layer.
pub proof fn lemma_named_layer_loads(l: LayerView)
    requires
        l.readable,
        l.end_lsn is Some,
        file_name_of(l) is Some,
    ensures
        layer_of_file(LayerFileView { name: file_name_of(l)->0, layer: Some(l) }) == l,
{
    let seg = l.segs[0].seg;
    lemma_find_seg_present(l.segs, seg, 0);
    match l.kind {
        LayerKind::Image => {
            lemma_image_name_parses(ImageFileName { seg, lsn: l.start_lsn });
        },
        LayerKind::Delta => {
            let n = DeltaFileName { seg, start_lsn: l.start_lsn, end_lsn: l.end_or_max() };
            lemma_delta_name_parses(n);
            lemma_delta_name_no_image(n);
        },
        LayerKind::InMemory => {},
    }
}

// Numbers.
/// A number: eight bytes, the most significant first.
#[verifier::opaque]
pub open spec fn number(x: u64) -> Seq<u8> {
    be64(x)
}

/// The number that eight bytes stand for.
#[verifier::opaque]
pub open spec fn number_of(s: Seq<u8>) -> u64 {
    from_be64(s)
}

/// A number is eight bytes long, and is the number that its bytes stand for.
pub proof fn lemma_number(x: u64)
    ensures
        number(x).len() == 8,
        number_of(number(x)) == x,
{
    reveal(number);
    reveal(number_of);
    lemma_be64_roundtrip(x);
}

fn push_number(out: &mut Vec<u8>, x: u64)
    ensures
        final(out)@ == old(out)@ + number(x),
{
    reveal(number);
    push_be64(out, x);
}

fn read_number(v: &Vec<u8>, at: usize) -> (x: u64)
    requires
        at + 8 <= v@.len(),
    ensures
        x == number_of(v@.subrange(at as int, at + 8)),
{
    reveal(number_of);
    read_be64(v, at)
}

// Records behind their lengths.
/// The records one after the other, each behind its length.
pub open spec fn frames(rs: Seq<Seq<u8>>) -> Seq<u8>
    decreases rs.len(),
{
    if rs.len() == 0 {
        Seq::empty()
    } else {
        number(rs[0].len() as u64) + rs[0] + frames(rs.skip(1))
    }
}

/// The records that `b` holds, each behind its length; `None` where `b`
/// ends inside a length or inside a record.
pub open spec fn unframed(b: Seq<u8>) -> Option<Seq<Seq<u8>>>
    decreases b.len(),
{
    if b.len() == 0 {
        Some(Seq::empty())
    } else if b.len() < 8 {
        None
    } else {
        let n = number_of(b.subrange(0, 8)) as int;
        if 8 + n > b.len() {
            None
        } else {
            match unframed(b.skip(8 + n)) {
                Some(rest) => Some(seq![b.subrange(8, 8 + n)] + rest),
                None => None,
            }
        }
    }
}

/// Records that were found, before those that the rest of the bytes holds.
pub open spec fn found_before(found: Seq<Seq<u8>>, rest: Option<Seq<Seq<u8>>>) -> Option<Seq<Seq<u8>>> {
    match rest {
        Some(rest) => Some(found + rest),
        None => None,
    }
}

/// Whether each record is short enough for its length to be written.
pub open spec fn framable(rs: Seq<Seq<u8>>) -> bool {
    forall|i: int| 0 <= i < rs.len() ==> (#[trigger] rs[i]).len() <= u64::MAX
}

/// Records that were written behind their lengths are read back as they were.
pub proof fn lemma_unframed_frames(rs: Seq<Seq<u8>>)
    requires
        framable(rs),
    ensures
        unframed(frames(rs)) == Some(rs),
    decreases rs.len(),
{
    if rs.len() == 0 {
        assert(rs =~= Seq::empty());
    } else {
        let b = frames(rs);
        let n = rs[0].len() as int;
        let rest = rs.skip(1);
        assert(rs[0].len() <= u64::MAX);
        assert forall|i: int| 0 <= i < rest.len() implies (#[trigger] rest[i]).len() <= u64::MAX by {
            assert(rest[i] == rs[i + 1]);
        }
        lemma_unframed_frames(rest);
        lemma_number(n as u64);
        assert(b == number(n as u64) + rs[0] + frames(rest));
        assert(b.subrange(0, 8) =~= number(n as u64));
        assert(b.subrange(8, 8 + n) =~= rs[0]);
        assert(b.skip(8 + n) =~= frames(rest));
        assert(seq![rs[0]] + rest =~= rs);
    }
}

/// The bytes of each vector.
pub open spec fn vecs_view(v: Seq<Vec<u8>>) -> Seq<Seq<u8>> {
    Seq::new(v.len(), |i: int| v[i]@)
}

fn push_all(out: &mut Vec<u8>, s: &[u8])
    ensures
        final(out)@ == old(out)@ + s@,
{
    let n: usize = s.len();
    let mut i: usize = 0;
    assert(out@ =~= old(out)@ + s@.take(0));
    while i < n
        invariant
            n == s@.len(),
            i <= n,
            out@ == old(out)@ + s@.take(i as int),
        decreases n - i,
    {
        out.push(s[i]);
        i = i + 1;
        assert(out@ =~= old(out)@ + s@.take(i as int));
    }
    assert(s@.take(n as int) =~= s@);
}

fn push_frame(out: &mut Vec<u8>, rec: &Vec<u8>)
    ensures
        final(out)@ == old(out)@ + number(rec@.len() as u64) + rec@,
{
    let n: usize = rec.len();
    push_number(out, n as u64);
    push_all(out, rec.as_slice());
}

fn copy_range(b: &Vec<u8>, from: usize, to: usize) -> (r: Vec<u8>)
    requires
        from <= to <= b@.len(),
    ensures
        r@ == b@.subrange(from as int, to as int),
{
    let mut r: Vec<u8> = Vec::new();
    let mut i: usize = from;
    assert(r@ =~= b@.subrange(from as int, i as int));
    while i < to
        invariant
            from <= i <= to,
            to <= b@.len(),
            r@ == b@.subrange(from as int, i as int),
        decreases to - i,
    {
        r.push(b[i]);
        i = i + 1;
        assert(r@ =~= b@.subrange(from as int, i as int));
    }
    r
}

/// Takes the records of a chapter apart.
fn unframe(b: &Vec<u8>) -> (r: Option<Vec<Vec<u8>>>)
    ensures
        match r {
            Some(v) => unframed(b@) == Some(vecs_view(v@)),
            None => unframed(b@) is None,
        },
{
    let len: usize = b.len();
    let mut out: Vec<Vec<u8>> = Vec::new();
    let mut at: usize = 0;
    assert(b@.skip(0) =~= b@);
    proof {
        if unframed(b@) is Some {
            assert(vecs_view(out@) + unframed(b@)->0 =~= unframed(b@)->0);
        }
    }
    while at < len
        invariant
            len == b@.len(),
            at <= len,
            unframed(b@) == found_before(vecs_view(out@), unframed(b@.skip(at as int))),
        decreases len - at,
    {
        let ghost tail = b@.skip(at as int);
        if len - at < 8 {
            return None;
        }
        let n: u64 = read_number(b, at);
        assert(tail.subrange(0, 8) =~= b@.subrange(at as int, at + 8));
        let room: usize = len - at - 8;
        if n > room as u64 {
            return None;
        }
        let body_at: usize = at + 8;
        let next: usize = body_at + n as usize;
        let rec = copy_range(b, body_at, next);
        assert(tail.subrange(8, 8 + n) =~= rec@);
        assert(tail.skip(8 + n) =~= b@.skip(next as int));
        let ghost found = vecs_view(out@);
        out.push(rec);
        assert(vecs_view(out@) =~= found + seq![rec@]);
        proof {
            if unframed(b@.skip(next as int)) is Some {
                let rest = unframed(b@.skip(next as int))->0;
                assert(found + (seq![rec@] + rest) =~= (found + seq![rec@]) + rest);
            }
        }
        at = next;
    }
    assert(b@.skip(at as int).len() == 0);
    assert(vecs_view(out@) + Seq::<Seq<u8>>::empty() =~= vecs_view(out@));
    Some(out)
}

// Numbers, flags and tags.
/// The number below 2^32 that eight bytes stand for.
pub open spec fn u32_of(s: Seq<u8>) -> Option<u32> {
    let x = number_of(s);
    if x <= 0xffff_ffff {
        Some(x as u32)
    } else {
        None
    }
}

fn read_u32(v: &Vec<u8>, at: usize) -> (r: Option<u32>)
    requires
        at + 8 <= v@.len(),
    ensures
        r == u32_of(v@.subrange(at as int, at + 8)),
{
    let x: u64 = read_number(v, at);
    if x <= 0xffff_ffff {
        Some(x as u32)
    } else {
        None
    }
}

proof fn lemma_u32_roundtrip(x: u32)
    ensures
        u32_of(number(x as u64)) == Some(x),
{
    lemma_number(x as u64);
}

/// The byte that stands for a flag.
pub open spec fn flag_byte(f: bool) -> u8 {
    if f {
        1
    } else {
        0
    }
}

/// The flag that a byte stands for.
pub open spec fn flag_of(b: u8) -> Option<bool> {
    if b == 0 {
        Some(false)
    } else if b == 1 {
        Some(true)
    } else {
        None
    }
}

fn read_flag(b: u8) -> (r: Option<bool>)
    ensures
        r == flag_of(b),
{
    if b == 0 {
        Some(false)
    } else if b == 1 {
        Some(true)
    } else {
        None
    }
}

/// A size that may be missing: the flag that says whether it is there, then the size or zero.
#[verifier::opaque]
pub open spec fn size_bytes(v: Option<u32>) -> Seq<u8> {
    match v {
        Some(x) => seq![1u8] + number(x as u64),
        None => seq![0u8] + number(0),
    }
}

/// The size that the nine bytes from `at` on stand for.
#[verifier::opaque]
pub open spec fn size_of(r: Seq<u8>, at: int) -> Option<Option<u32>> {
    match flag_of(r[at]) {
        Some(true) => match u32_of(r.subrange(at + 1, at + 9)) {
            Some(x) => Some(Some(x)),
            None => None,
        },
        Some(false) => Some(None),
        None => None,
    }
}

fn push_size(out: &mut Vec<u8>, v: Option<u32>)
    ensures
        final(out)@ == old(out)@ + size_bytes(v),
{
    reveal(size_bytes);
    match v {
        Some(x) => {
            out.push(1u8);
            push_number(out, x as u64);
            assert(out@ =~= old(out)@ + size_bytes(v));
        },
        None => {
            out.push(0u8);
            push_number(out, 0);
            assert(out@ =~= old(out)@ + size_bytes(v));
        },
    }
}

fn read_size(v: &Vec<u8>, at: usize) -> (r: Option<Option<u32>>)
    requires
        at + 9 <= v@.len(),
    ensures
        r == size_of(v@, at as int),
{
    reveal(size_of);
    let len: usize = v.len();
    match read_flag(v[at]) {
        Some(true) => match read_u32(v, at + 1) {
            Some(x) => Some(Some(x)),
            None => None,
        },
        Some(false) => Some(None),
        None => None,
    }
}

proof fn lemma_size_len(v: Option<u32>)
    ensures
        size_bytes(v).len() == 9,
{
    reveal(size_bytes);
    match v {
        Some(x) => lemma_number(x as u64),
        None => lemma_number(0),
    }
}

proof fn lemma_size_roundtrip(r: Seq<u8>, at: int, v: Option<u32>)
    requires
        0 <= at,
        at + 9 <= r.len(),
        r.subrange(at, at + 9) == size_bytes(v),
    ensures
        size_of(r, at) == Some(v),
{
    reveal(size_bytes);
    reveal(size_of);
    let s = size_bytes(v);
    lemma_size_len(v);
    lemma_part(r, at, s, 1, 9);
    assert(r[at] == r.subrange(at, at + 9)[0]);
    match v {
        Some(x) => {
            lemma_number(x as u64);
            assert(s.subrange(1, 9) =~= number(x as u64));
            lemma_u32_roundtrip(x);
        },
        None => {
            lemma_number(0);
        },
    }
}

/// The numbers that a relish is written as: its kind, and up to four numbers of its own.
#[derive(Clone, Copy)]
pub struct TagFields {
    pub kind: u8,
    pub a: u32,
    pub b: u32,
    pub c: u32,
    pub d: u32,
}

pub open spec fn tag_fields(rel: RelishTag) -> TagFields {
    match rel {
        RelishTag::Relation(r) => TagFields {
            kind: 0,
            a: r.spcnode,
            b: r.dbnode,
            c: r.relnode,
            d: r.forknum as u32,
        },
        RelishTag::Slru { slru: SlruKind::Clog, segno } => TagFields { kind: 1, a: segno, b: 0, c: 0, d: 0 },
        RelishTag::Slru { slru: SlruKind::MultiXactMembers, segno } => TagFields {
            kind: 2,
            a: segno,
            b: 0,
            c: 0,
            d: 0,
        },
        RelishTag::Slru { slru: SlruKind::MultiXactOffsets, segno } => TagFields {
            kind: 3,
            a: segno,
            b: 0,
            c: 0,
            d: 0,
        },
        RelishTag::FileNodeMap { spcnode, dbnode } => TagFields { kind: 4, a: spcnode, b: dbnode, c: 0, d: 0 },
        RelishTag::TwoPhase { xid } => TagFields { kind: 5, a: xid, b: 0, c: 0, d: 0 },
        RelishTag::ControlFile => TagFields { kind: 6, a: 0, b: 0, c: 0, d: 0 },
        RelishTag::Checkpoint => TagFields { kind: 7, a: 0, b: 0, c: 0, d: 0 },
    }
}

/// The relish that the numbers stand for; the numbers that a kind does not use are passed over.
pub open spec fn tag_of(f: TagFields) -> Option<RelishTag> {
    if f.kind == 0 {
        if f.d <= 255 {
            Some(RelishTag::Relation(RelTag { spcnode: f.a, dbnode: f.b, relnode: f.c, forknum: f.d as u8 }))
        } else {
            None
        }
    } else if f.kind == 1 {
        Some(RelishTag::Slru { slru: SlruKind::Clog, segno: f.a })
    } else if f.kind == 2 {
        Some(RelishTag::Slru { slru: SlruKind::MultiXactMembers, segno: f.a })
    } else if f.kind == 3 {
        Some(RelishTag::Slru { slru: SlruKind::MultiXactOffsets, segno: f.a })
    } else if f.kind == 4 {
        Some(RelishTag::FileNodeMap { spcnode: f.a, dbnode: f.b })
    } else if f.kind == 5 {
        Some(RelishTag::TwoPhase { xid: f.a })
    } else if f.kind == 6 {
        Some(RelishTag::ControlFile)
    } else if f.kind == 7 {
        Some(RelishTag::Checkpoint)
    } else {
        None
    }
}

fn fields_of_tag(rel: RelishTag) -> (f: TagFields)
    ensures
        f == tag_fields(rel),
{
    match rel {
        RelishTag::Relation(r) => TagFields {
            kind: 0,
            a: r.spcnode,
            b: r.dbnode,
            c: r.relnode,
            d: r.forknum as u32,
        },
        RelishTag::Slru { slru: SlruKind::Clog, segno } => TagFields { kind: 1, a: segno, b: 0, c: 0, d: 0 },
        RelishTag::Slru { slru: SlruKind::MultiXactMembers, segno } => TagFields {
            kind: 2,
            a: segno,
            b: 0,
            c: 0,
            d: 0,
        },
        RelishTag::Slru { slru: SlruKind::MultiXactOffsets, segno } => TagFields {
            kind: 3,
            a: segno,
            b: 0,
            c: 0,
            d: 0,
        },
        RelishTag::FileNodeMap { spcnode, dbnode } => TagFields { kind: 4, a: spcnode, b: dbnode, c: 0, d: 0 },
        RelishTag::TwoPhase { xid } => TagFields { kind: 5, a: xid, b: 0, c: 0, d: 0 },
        RelishTag::ControlFile => TagFields { kind: 6, a: 0, b: 0, c: 0, d: 0 },
        RelishTag::Checkpoint => TagFields { kind: 7, a: 0, b: 0, c: 0, d: 0 },
    }
}

fn tag_of_fields(f: TagFields) -> (r: Option<RelishTag>)
    ensures
        r == tag_of(f),
{
    if f.kind == 0 {
        if f.d <= 255 {
            Some(RelishTag::Relation(RelTag { spcnode: f.a, dbnode: f.b, relnode: f.c, forknum: f.d as u8 }))
        } else {
            None
        }
    } else if f.kind == 1 {
        Some(RelishTag::Slru { slru: SlruKind::Clog, segno: f.a })
    } else if f.kind == 2 {
        Some(RelishTag::Slru { slru: SlruKind::MultiXactMembers, segno: f.a })
    } else if f.kind == 3 {
        Some(RelishTag::Slru { slru: SlruKind::MultiXactOffsets, segno: f.a })
    } else if f.kind == 4 {
        Some(RelishTag::FileNodeMap { spcnode: f.a, dbnode: f.b })
    } else if f.kind == 5 {
        Some(RelishTag::TwoPhase { xid: f.a })
    } else if f.kind == 6 {
        Some(RelishTag::ControlFile)
    } else if f.kind == 7 {
        Some(RelishTag::Checkpoint)
    } else {
        None
    }
}

/// A relish is the one that its numbers stand for.
pub proof fn lemma_tag_roundtrip(rel: RelishTag)
    ensures
        tag_of(tag_fields(rel)) == Some(rel),
{
}

/// Bytes in a segment's tag: the kind, then five numbers.
pub const SEG_LEN: usize = 41;

/// A segment's tag: the relish's kind and four numbers, then the segment's number.
#[verifier::opaque]
pub open spec fn seg_bytes(seg: SegmentTag) -> Seq<u8> {
    let f = tag_fields(seg.rel);
    seq![f.kind] + number(f.a as u64) + number(f.b as u64) + number(f.c as u64) + number(f.d as u64) + number(
        seg.segno as u64,
    )
}

/// The segment whose tag stands in `r` from `at` on.
#[verifier::opaque]
pub open spec fn seg_of(r: Seq<u8>, at: int) -> Option<SegmentTag> {
    let a = u32_of(r.subrange(at + 1, at + 9));
    let b = u32_of(r.subrange(at + 9, at + 17));
    let c = u32_of(r.subrange(at + 17, at + 25));
    let d = u32_of(r.subrange(at + 25, at + 33));
    let n = u32_of(r.subrange(at + 33, at + 41));
    if a is Some && b is Some && c is Some && d is Some && n is Some {
        match tag_of(TagFields { kind: r[at], a: a->0, b: b->0, c: c->0, d: d->0 }) {
            Some(rel) => Some(SegmentTag { rel, segno: n->0 }),
            None => None,
        }
    } else {
        None
    }
}

fn push_seg(out: &mut Vec<u8>, seg: SegmentTag)
    ensures
        final(out)@ == old(out)@ + seg_bytes(seg),
{
    reveal(seg_bytes);
    let f = fields_of_tag(seg.rel);
    out.push(f.kind);
    push_number(out, f.a as u64);
    push_number(out, f.b as u64);
    push_number(out, f.c as u64);
    push_number(out, f.d as u64);
    push_number(out, seg.segno as u64);
    assert(out@ =~= old(out)@ + seg_bytes(seg));
}

fn read_seg(v: &Vec<u8>, at: usize) -> (r: Option<SegmentTag>)
    requires
        at + SEG_LEN <= v@.len(),
    ensures
        r == seg_of(v@, at as int),
{
    reveal(seg_of);
    let len: usize = v.len();
    let a = read_u32(v, at + 1);
    let b = read_u32(v, at + 9);
    let c = read_u32(v, at + 17);
    let d = read_u32(v, at + 25);
    let n = read_u32(v, at + 33);
    match (a, b, c, d, n) {
        (Some(a), Some(b), Some(c), Some(d), Some(n)) => {
            match tag_of_fields(TagFields { kind: v[at], a, b, c, d }) {
                Some(rel) => Some(SegmentTag { rel, segno: n }),
                None => None,
            }
        },
        _ => None,
    }
}

proof fn lemma_part(r: Seq<u8>, at: int, s: Seq<u8>, from: int, to: int)
    requires
        0 <= at,
        at + s.len() <= r.len(),
        r.subrange(at, at + s.len()) == s,
        0 <= from <= to <= s.len(),
    ensures
        r.subrange(at + from, at + to) == s.subrange(from, to),
{
    assert forall|k: int| 0 <= k < to - from implies r.subrange(at + from, at + to)[k] == s.subrange(
        from,
        to,
    )[k] by {
        assert(r.subrange(at, at + s.len())[from + k] == r[at + from + k]);
    }
    assert(r.subrange(at + from, at + to) =~= s.subrange(from, to));
}

proof fn lemma_seg_len(seg: SegmentTag)
    ensures
        seg_bytes(seg).len() == SEG_LEN,
{
    reveal(seg_bytes);
    let f = tag_fields(seg.rel);
    lemma_number(f.a as u64);
    lemma_number(f.b as u64);
    lemma_number(f.c as u64);
    lemma_number(f.d as u64);
    lemma_number(seg.segno as u64);
}

proof fn lemma_seg_roundtrip(r: Seq<u8>, at: int, seg: SegmentTag)
    requires
        0 <= at,
        at + SEG_LEN <= r.len(),
        r.subrange(at, at + SEG_LEN) == seg_bytes(seg),
    ensures
        seg_of(r, at) == Some(seg),
{
    reveal(seg_bytes);
    reveal(seg_of);
    let f = tag_fields(seg.rel);
    let s = seg_bytes(seg);
    lemma_seg_len(seg);
    lemma_number(f.a as u64);
    lemma_number(f.b as u64);
    lemma_number(f.c as u64);
    lemma_number(f.d as u64);
    lemma_number(seg.segno as u64);
    assert(r[at] == r.subrange(at, at + 41)[0]);
    assert(s[0] == f.kind);
    lemma_part(r, at, s, 1, 9);
    lemma_part(r, at, s, 9, 17);
    lemma_part(r, at, s, 17, 25);
    lemma_part(r, at, s, 25, 33);
    lemma_part(r, at, s, 33, 41);
    assert(s.subrange(1, 9) =~= number(f.a as u64));
    assert(s.subrange(9, 17) =~= number(f.b as u64));
    assert(s.subrange(17, 25) =~= number(f.c as u64));
    assert(s.subrange(25, 33) =~= number(f.d as u64));
    assert(s.subrange(33, 41) =~= number(seg.segno as u64));
    lemma_u32_roundtrip(f.a);
    lemma_u32_roundtrip(f.b);
    lemma_u32_roundtrip(f.c);
    lemma_u32_roundtrip(f.d);
    lemma_u32_roundtrip(seg.segno);
    lemma_tag_roundtrip(seg.rel);
}

// The records of the three lists.
/// Bytes in the record of a covered segment.
pub const COVERED_LEN: usize = 51;

/// Bytes in the record of a size change, and before the body of a page version.
pub const HEAD_LEN: usize = 58;

/// The record of a covered segment: its tag, its size where the layer
/// starts, and the flag that says whether older versions lie in a layer before.
#[verifier::opaque]
pub open spec fn covered_bytes(c: CoveredSeg) -> Seq<u8> {
    seg_bytes(c.seg) + size_bytes(c.base_size) + seq![flag_byte(c.incremental)]
}

#[verifier::opaque]
pub open spec fn covered_of(r: Seq<u8>) -> Option<CoveredSeg> {
    if r.len() != COVERED_LEN {
        None
    } else {
        let seg = seg_of(r, 0);
        let base_size = size_of(r, 41);
        let incremental = flag_of(r[50]);
        if seg is Some && base_size is Some && incremental is Some {
            Some(CoveredSeg { seg: seg->0, base_size: base_size->0, incremental: incremental->0 })
        } else {
            None
        }
    }
}

/// The record of a size change: the segment's tag, the LSN, and the new size; none for a drop.
#[verifier::opaque]
pub open spec fn event_bytes(e: SegEvent) -> Seq<u8> {
    seg_bytes(e.seg) + number(e.lsn.0) + size_bytes(e.size)
}

#[verifier::opaque]
pub open spec fn event_of(r: Seq<u8>) -> Option<SegEvent> {
    if r.len() != HEAD_LEN {
        None
    } else {
        let seg = seg_of(r, 0);
        let size = size_of(r, 49);
        if seg is Some && size is Some {
            Some(SegEvent { seg: seg->0, lsn: Lsn(number_of(r.subrange(41, 49))), size: size->0 })
        } else {
            None
        }
    }
}

/// The byte that says what a page version is: an image, a record, or
/// a record that builds the page from nothing.
pub open spec fn version_tag(pv: PageVersionView) -> u8 {
    match pv {
        PageVersionView::Page(_) => 0,
        PageVersionView::Wal(rec) => if rec.will_init {
            2
        } else {
            1
        },
    }
}

/// The bytes of an image or of a record.
pub open spec fn version_body(pv: PageVersionView) -> Seq<u8> {
    match pv {
        PageVersionView::Page(img) => img,
        PageVersionView::Wal(rec) => rec.rec,
    }
}

/// The page version with this tag and these bytes.
pub open spec fn version_of(tag: u8, body: Seq<u8>) -> Option<PageVersionView> {
    if tag == 0 {
        Some(PageVersionView::Page(body))
    } else if tag == 1 {
        Some(PageVersionView::Wal(WalRecordView { will_init: false, rec: body }))
    } else if tag == 2 {
        Some(PageVersionView::Wal(WalRecordView { will_init: true, rec: body }))
    } else {
        None
    }
}

/// The record of a page version: the segment's tag, the block, the LSN,
/// the kind of version, and then its bytes to the end of the record.
#[verifier::opaque]
pub open spec fn entry_bytes(e: PageEntryView) -> Seq<u8> {
    seg_bytes(e.seg) + number(e.blknum as u64) + number(e.lsn.0) + seq![version_tag(e.pv)] + version_body(e.pv)
}

#[verifier::opaque]
pub open spec fn entry_of(r: Seq<u8>) -> Option<PageEntryView> {
    if r.len() < HEAD_LEN {
        None
    } else {
        let seg = seg_of(r, 0);
        let blknum = u32_of(r.subrange(41, 49));
        let pv = version_of(r[57], r.subrange(58, r.len() as int));
        if seg is Some && blknum is Some && pv is Some {
            Some(PageEntryView { seg: seg->0, blknum: blknum->0, lsn: Lsn(number_of(r.subrange(49, 57))), pv: pv->0 })
        } else {
            None
        }
    }
}

/// The record of a covered segment is read back as the segment.
pub proof fn lemma_covered_roundtrip(c: CoveredSeg)
    ensures
        covered_bytes(c).len() == COVERED_LEN,
        covered_of(covered_bytes(c)) == Some(c),
{
    reveal(covered_bytes);
    reveal(covered_of);
    let r = covered_bytes(c);
    lemma_seg_len(c.seg);
    lemma_size_len(c.base_size);
    assert(r.subrange(0, 41) =~= seg_bytes(c.seg));
    assert(r.subrange(41, 50) =~= size_bytes(c.base_size));
    lemma_seg_roundtrip(r, 0, c.seg);
    lemma_size_roundtrip(r, 41, c.base_size);
    assert(r[50] == flag_byte(c.incremental));
}

/// The record of a size change is read back as the change.
pub proof fn lemma_event_roundtrip(e: SegEvent)
    ensures
        event_bytes(e).len() == HEAD_LEN,
        event_of(event_bytes(e)) == Some(e),
{
    reveal(event_bytes);
    reveal(event_of);
    let r = event_bytes(e);
    lemma_seg_len(e.seg);
    lemma_size_len(e.size);
    lemma_number(e.lsn.0);
    assert(r.subrange(0, 41) =~= seg_bytes(e.seg));
    assert(r.subrange(41, 49) =~= number(e.lsn.0));
    assert(r.subrange(49, 58) =~= size_bytes(e.size));
    lemma_seg_roundtrip(r, 0, e.seg);
    lemma_size_roundtrip(r, 49, e.size);
}

/// The record of a page version is read back as the version.
pub proof fn lemma_entry_roundtrip(e: PageEntryView)
    ensures
        entry_bytes(e).len() == HEAD_LEN + version_body(e.pv).len(),
        entry_of(entry_bytes(e)) == Some(e),
{
    reveal(entry_bytes);
    reveal(entry_of);
    let r = entry_bytes(e);
    lemma_seg_len(e.seg);
    lemma_number(e.blknum as u64);
    lemma_number(e.lsn.0);
    assert(r.subrange(0, 41) =~= seg_bytes(e.seg));
    assert(r.subrange(41, 49) =~= number(e.blknum as u64));
    assert(r.subrange(49, 57) =~= number(e.lsn.0));
    assert(r[57] == version_tag(e.pv));
    assert(r.subrange(58, r.len() as int) =~= version_body(e.pv));
    lemma_seg_roundtrip(r, 0, e.seg);
    lemma_u32_roundtrip(e.blknum);
}

fn covered_record(c: CoveredSeg) -> (r: Vec<u8>)
    ensures
        r@ == covered_bytes(c),
{
    reveal(covered_bytes);
    let mut r: Vec<u8> = Vec::new();
    push_seg(&mut r, c.seg);
    push_size(&mut r, c.base_size);
    r.push(if c.incremental { 1u8 } else { 0u8 });
    assert(r@ =~= covered_bytes(c));
    r
}

fn event_record(e: SegEvent) -> (r: Vec<u8>)
    ensures
        r@ == event_bytes(e),
{
    reveal(event_bytes);
    let mut r: Vec<u8> = Vec::new();
    push_seg(&mut r, e.seg);
    push_number(&mut r, e.lsn.0);
    push_size(&mut r, e.size);
    assert(r@ =~= event_bytes(e));
    r
}

fn entry_record(e: &PageEntry) -> (r: Vec<u8>)
    ensures
        r@ == entry_bytes(e@),
{
    reveal(entry_bytes);
    let mut r: Vec<u8> = Vec::new();
    push_seg(&mut r, e.seg);
    push_number(&mut r, e.blknum as u64);
    push_number(&mut r, e.lsn.0);
    match &e.pv {
        PageVersion::Page(img) => {
            r.push(0u8);
            push_all(&mut r, bytes_as_slice(img));
        },
        PageVersion::Wal(rec) => {
            r.push(if rec.will_init { 2u8 } else { 1u8 });
            push_all(&mut r, bytes_as_slice(&rec.rec));
        },
    }
    assert(r@ =~= entry_bytes(e@));
    r
}

fn read_covered(r: &Vec<u8>) -> (c: Option<CoveredSeg>)
    ensures
        c == covered_of(r@),
{
    reveal(covered_of);
    if r.len() != COVERED_LEN {
        return None;
    }
    match (read_seg(r, 0), read_size(r, 41), read_flag(r[50])) {
        (Some(seg), Some(base_size), Some(incremental)) => Some(CoveredSeg { seg, base_size, incremental }),
        _ => None,
    }
}

fn read_event(r: &Vec<u8>) -> (e: Option<SegEvent>)
    ensures
        e == event_of(r@),
{
    reveal(event_of);
    if r.len() != HEAD_LEN {
        return None;
    }
    match (read_seg(r, 0), read_size(r, 49)) {
        (Some(seg), Some(size)) => Some(SegEvent { seg, lsn: Lsn(read_number(r, 41)), size }),
        _ => None,
    }
}

/// The page version that a record holds, by its view.
pub open spec fn entry_view(e: Option<PageEntry>) -> Option<PageEntryView> {
    match e {
        Some(e) => Some(e@),
        None => None,
    }
}

fn read_entry(r: &Vec<u8>) -> (e: Option<PageEntry>)
    ensures
        entry_view(e) == entry_of(r@),
{
    reveal(entry_of);
    let len: usize = r.len();
    if len < HEAD_LEN {
        return None;
    }
    let tag: u8 = r[57];
    if tag > 2 {
        return None;
    }
    match (read_seg(r, 0), read_u32(r, 41)) {
        (Some(seg), Some(blknum)) => {
            let lsn = Lsn(read_number(r, 49));
            let body = bytes_from_vec(copy_range(r, HEAD_LEN, len));
            let pv = if tag == 0 {
                PageVersion::Page(body)
            } else {
                PageVersion::Wal(WalRecord { will_init: tag == 2, rec: body })
            };
            Some(PageEntry { seg, blknum, lsn, pv })
        },
        _ => None,
    }
}

// The lists.
/// The records of the covered segments.
pub open spec fn covered_records(s: Seq<CoveredSeg>) -> Seq<Seq<u8>> {
    Seq::new(s.len(), |i: int| covered_bytes(s[i]))
}

/// The records of the size changes.
pub open spec fn event_records(s: Seq<SegEvent>) -> Seq<Seq<u8>> {
    Seq::new(s.len(), |i: int| event_bytes(s[i]))
}

/// The records of the page versions.
pub open spec fn entry_records(s: Seq<PageEntryView>) -> Seq<Seq<u8>> {
    Seq::new(s.len(), |i: int| entry_bytes(s[i]))
}

/// The covered segments that the records stand for, if each of them is one.
pub open spec fn covered_list(rs: Seq<Seq<u8>>) -> Option<Seq<CoveredSeg>> {
    if forall|i: int| 0 <= i < rs.len() ==> covered_of(#[trigger] rs[i]) is Some {
        Some(Seq::new(rs.len(), |i: int| covered_of(rs[i])->0))
    } else {
        None
    }
}

/// The size changes that the records stand for, if each of them is one.
pub open spec fn event_list(rs: Seq<Seq<u8>>) -> Option<Seq<SegEvent>> {
    if forall|i: int| 0 <= i < rs.len() ==> event_of(#[trigger] rs[i]) is Some {
        Some(Seq::new(rs.len(), |i: int| event_of(rs[i])->0))
    } else {
        None
    }
}

/// The page versions that the records stand for, if each of them is one.
pub open spec fn entry_list(rs: Seq<Seq<u8>>) -> Option<Seq<PageEntryView>> {
    if forall|i: int| 0 <= i < rs.len() ==> entry_of(#[trigger] rs[i]) is Some {
        Some(Seq::new(rs.len(), |i: int| entry_of(rs[i])->0))
    } else {
        None
    }
}

/// The covered segments that a chapter holds.
pub open spec fn decoded_segs(b: Seq<u8>) -> Option<Seq<CoveredSeg>> {
    match unframed(b) {
        Some(rs) => covered_list(rs),
        None => None,
    }
}

/// The size changes that a chapter holds.
pub open spec fn decoded_events(b: Seq<u8>) -> Option<Seq<SegEvent>> {
    match unframed(b) {
        Some(rs) => event_list(rs),
        None => None,
    }
}

/// The page versions that a chapter holds.
pub open spec fn decoded_pages(b: Seq<u8>) -> Option<Seq<PageEntryView>> {
    match unframed(b) {
        Some(rs) => entry_list(rs),
        None => None,
    }
}

fn encode_segs(l: &Layer) -> (out: Vec<u8>)
    ensures
        out@ == frames(covered_records(l@.segs)),
{
    let ghost rs = covered_records(l@.segs);
    let mut out: Vec<u8> = Vec::new();
    let n: usize = l.seg_count();
    let mut i: usize = 0;
    assert(rs.skip(0) =~= rs);
    assert(out@ + frames(rs) =~= frames(rs));
    while i < n
        invariant
            n == l@.segs.len(),
            rs == covered_records(l@.segs),
            i <= n,
            frames(rs) == out@ + frames(rs.skip(i as int)),
        decreases n - i,
    {
        let rec = covered_record(l.seg_at(i));
        let ghost before = out@;
        push_frame(&mut out, &rec);
        proof {
            let tail = rs.skip(i as int);
            assert(tail[0] == rec@);
            assert(tail.skip(1) =~= rs.skip(i + 1));
            assert(before + (number(rec@.len() as u64) + rec@ + frames(rs.skip(i + 1))) =~= out@ + frames(
                rs.skip(i + 1),
            ));
        }
        i = i + 1;
    }
    assert(out@ + frames(rs.skip(n as int)) =~= out@);
    out
}

fn encode_events(l: &Layer) -> (out: Vec<u8>)
    ensures
        out@ == frames(event_records(l@.events)),
{
    let ghost rs = event_records(l@.events);
    let mut out: Vec<u8> = Vec::new();
    let n: usize = l.event_count();
    let mut i: usize = 0;
    assert(rs.skip(0) =~= rs);
    assert(out@ + frames(rs) =~= frames(rs));
    while i < n
        invariant
            n == l@.events.len(),
            rs == event_records(l@.events),
            i <= n,
            frames(rs) == out@ + frames(rs.skip(i as int)),
        decreases n - i,
    {
        let rec = event_record(l.event_at(i));
        let ghost before = out@;
        push_frame(&mut out, &rec);
        proof {
            let tail = rs.skip(i as int);
            assert(tail[0] == rec@);
            assert(tail.skip(1) =~= rs.skip(i + 1));
            assert(before + (number(rec@.len() as u64) + rec@ + frames(rs.skip(i + 1))) =~= out@ + frames(
                rs.skip(i + 1),
            ));
        }
        i = i + 1;
    }
    assert(out@ + frames(rs.skip(n as int)) =~= out@);
    out
}

fn encode_pages(l: &Layer) -> (out: Vec<u8>)
    ensures
        out@ == frames(entry_records(l@.pages)),
{
    let ghost rs = entry_records(l@.pages);
    let mut out: Vec<u8> = Vec::new();
    let n: usize = l.page_count();
    let mut i: usize = 0;
    assert(rs.skip(0) =~= rs);
    assert(out@ + frames(rs) =~= frames(rs));
    while i < n
        invariant
            n == l@.pages.len(),
            rs == entry_records(l@.pages),
            i <= n,
            frames(rs) == out@ + frames(rs.skip(i as int)),
        decreases n - i,
    {
        let rec = entry_record(l.page_at(i));
        let ghost before = out@;
        push_frame(&mut out, &rec);
        proof {
            let tail = rs.skip(i as int);
            assert(tail[0] == rec@);
            assert(tail.skip(1) =~= rs.skip(i + 1));
            assert(before + (number(rec@.len() as u64) + rec@ + frames(rs.skip(i + 1))) =~= out@ + frames(
                rs.skip(i + 1),
            ));
        }
        i = i + 1;
    }
    assert(out@ + frames(rs.skip(n as int)) =~= out@);
    out
}

fn decode_segs(b: &Vec<u8>) -> (r: Option<Vec<CoveredSeg>>)
    ensures
        match r {
            Some(v) => decoded_segs(b@) == Some(v@),
            None => decoded_segs(b@) is None,
        },
{
    let recs = match unframe(b) {
        Some(recs) => recs,
        None => { return None; },
    };
    let ghost rs = vecs_view(recs@);
    let mut out: Vec<CoveredSeg> = Vec::new();
    let n: usize = recs.len();
    let mut i: usize = 0;
    while i < n
        invariant
            n == recs@.len(),
            rs == vecs_view(recs@),
            unframed(b@) == Some(rs),
            i <= n,
            out@.len() == i,
            forall|j: int| 0 <= j < i ==> covered_of(#[trigger] rs[j]) == Some(out@[j]),
        decreases n - i,
    {
        assert(rs[i as int] == recs@[i as int]@);
        match read_covered(&recs[i]) {
            Some(c) => {
                out.push(c);
            },
            None => {
                assert(covered_of(rs[i as int]) is None);
                return None;
            },
        }
        i = i + 1;
    }
    assert(out@ =~= covered_list(rs)->0);
    Some(out)
}

fn decode_events(b: &Vec<u8>) -> (r: Option<Vec<SegEvent>>)
    ensures
        match r {
            Some(v) => decoded_events(b@) == Some(v@),
            None => decoded_events(b@) is None,
        },
{
    let recs = match unframe(b) {
        Some(recs) => recs,
        None => { return None; },
    };
    let ghost rs = vecs_view(recs@);
    let mut out: Vec<SegEvent> = Vec::new();
    let n: usize = recs.len();
    let mut i: usize = 0;
    while i < n
        invariant
            n == recs@.len(),
            rs == vecs_view(recs@),
            unframed(b@) == Some(rs),
            i <= n,
            out@.len() == i,
            forall|j: int| 0 <= j < i ==> event_of(#[trigger] rs[j]) == Some(out@[j]),
        decreases n - i,
    {
        assert(rs[i as int] == recs@[i as int]@);
        match read_event(&recs[i]) {
            Some(e) => {
                out.push(e);
            },
            None => {
                assert(event_of(rs[i as int]) is None);
                return None;
            },
        }
        i = i + 1;
    }
    assert(out@ =~= event_list(rs)->0);
    Some(out)
}

/// The page versions of a `Vec`, by their views, where there are any.
pub open spec fn pages_result_view(r: Option<Vec<PageEntry>>) -> Option<Seq<PageEntryView>> {
    match r {
        Some(v) => Some(pages_view(v@)),
        None => None,
    }
}

fn decode_pages(b: &Vec<u8>) -> (r: Option<Vec<PageEntry>>)
    ensures
        pages_result_view(r) == decoded_pages(b@),
{
    let recs = match unframe(b) {
        Some(recs) => recs,
        None => { return None; },
    };
    let ghost rs = vecs_view(recs@);
    let mut out: Vec<PageEntry> = Vec::new();
    let n: usize = recs.len();
    let mut i: usize = 0;
    while i < n
        invariant
            n == recs@.len(),
            rs == vecs_view(recs@),
            unframed(b@) == Some(rs),
            i <= n,
            out@.len() == i,
            forall|j: int| 0 <= j < i ==> entry_of(#[trigger] rs[j]) == Some(out@[j]@),
        decreases n - i,
    {
        assert(rs[i as int] == recs@[i as int]@);
        match read_entry(&recs[i]) {
            Some(e) => {
                out.push(e);
            },
            None => {
                assert(entry_of(rs[i as int]) is None);
                return None;
            },
        }
        i = i + 1;
    }
    assert(pages_view(out@) =~= entry_list(rs)->0);
    Some(out)
}

// The layer.
/// The summary: where the layer starts, where it ends, and the LSN of its oldest record.
pub open spec fn summary_bytes(l: LayerView) -> Seq<u8> {
    number(l.start_lsn.0) + number(l.end_or_max().0) + number(l.oldest_lsn.0)
}

/// The chapters that a layer is written as.
pub open spec fn layer_chapters(l: LayerView) -> ChaptersView {
    ChaptersView {
        summary: summary_bytes(l),
        segs: frames(covered_records(l.segs)),
        events: frames(event_records(l.events)),
        pages: frames(entry_records(l.pages)),
    }
}

/// The layer of kind `kind` that the four chapters hold.
pub open spec fn decoded_layer(
    kind: LayerKind,
    summary: Seq<u8>,
    segs: Seq<u8>,
    events: Seq<u8>,
    pages: Seq<u8>,
) -> Result<LayerView, LayerFileError> {
    if kind == LayerKind::InMemory {
        Err(LayerFileError::NoFileKind)
    } else if summary.len() != 24 {
        Err(LayerFileError::Summary)
    } else if decoded_segs(segs) is None {
        Err(LayerFileError::Segments)
    } else if decoded_events(events) is None {
        Err(LayerFileError::Events)
    } else if decoded_pages(pages) is None {
        Err(LayerFileError::Pages)
    } else {
        Ok(
            LayerView {
                kind,
                start_lsn: Lsn(number_of(summary.subrange(0, 8))),
                end_lsn: Some(Lsn(number_of(summary.subrange(8, 16)))),
                oldest_lsn: Lsn(number_of(summary.subrange(16, 24))),
                readable: true,
                segs: decoded_segs(segs)->0,
                events: decoded_events(events)->0,
                pages: decoded_pages(pages)->0,
            },
        )
    }
}

/// What decoding gave, the layer by its view.
pub open spec fn layer_result_view(r: Result<Layer, LayerFileError>) -> Result<LayerView, LayerFileError> {
    match r {
        Ok(l) => Ok(l@),
        Err(e) => Err(e),
    }
}

/// Whether a layer can be kept in a file and read back as it is: it is
/// flushed, it has an end, its sizes and pages are at hand, and each of its
/// page versions is short enough for the length of its record to be written.
pub open spec fn storable(l: LayerView) -> bool {
    &&& l.kind != LayerKind::InMemory
    &&& l.end_lsn is Some
    &&& l.readable
    &&& forall|i: int| 0 <= i < l.pages.len() ==> HEAD_LEN + version_body((#[trigger] l.pages[i]).pv).len() <= u64::MAX
}

/// The chapters that `l` is written as.
pub fn encode_layer(l: &Layer) -> (c: LayerChapters)
    requires
        l@.kind != LayerKind::InMemory,
    ensures
        c@ == layer_chapters(l@),
{
    let mut summary: Vec<u8> = Vec::new();
    push_number(&mut summary, l.get_start_lsn().0);
    push_number(&mut summary, l.get_end_lsn().0);
    push_number(&mut summary, l.get_oldest_lsn().0);
    assert(summary@ =~= summary_bytes(l@));
    LayerChapters { summary, segs: encode_segs(l), events: encode_events(l), pages: encode_pages(l) }
}

/// The layer of kind `kind` that the four chapters of a file hold.
pub fn decode_layer(kind: LayerKind, summary: &Vec<u8>, segs: &Vec<u8>, events: &Vec<u8>, pages: &Vec<u8>) -> (r:
    Result<Layer, LayerFileError>)
    ensures
        layer_result_view(r) == decoded_layer(kind, summary@, segs@, events@, pages@),
{
    match kind {
        LayerKind::InMemory => { return Err(LayerFileError::NoFileKind); },
        _ => {},
    }
    if summary.len() != 24 {
        return Err(LayerFileError::Summary);
    }
    let start_lsn = Lsn(read_number(summary, 0));
    let end_lsn = Lsn(read_number(summary, 8));
    let oldest_lsn = Lsn(read_number(summary, 16));
    let segs = match decode_segs(segs) {
        Some(v) => v,
        None => { return Err(LayerFileError::Segments); },
    };
    let events = match decode_events(events) {
        Some(v) => v,
        None => { return Err(LayerFileError::Events); },
    };
    let pages = match decode_pages(pages) {
        Some(v) => v,
        None => { return Err(LayerFileError::Pages); },
    };
    Ok(Layer { kind, start_lsn, end_lsn: Some(end_lsn), oldest_lsn, readable: true, segs, events, pages })
}

/// A layer that is written to its chapters and read from them again is the layer that was written.
pub proof fn lemma_layer_roundtrip(l: LayerView)
    requires
        storable(l),
    ensures
        decoded_layer(
            l.kind,
            layer_chapters(l).summary,
            layer_chapters(l).segs,
            layer_chapters(l).events,
            layer_chapters(l).pages,
        ) == Ok::<LayerView, LayerFileError>(l),
{
    let c = layer_chapters(l);
    let end = l.end_lsn->0;
    lemma_number(l.start_lsn.0);
    lemma_number(end.0);
    lemma_number(l.oldest_lsn.0);
    assert(c.summary.len() == 24);
    assert(c.summary.subrange(0, 8) =~= number(l.start_lsn.0));
    assert(c.summary.subrange(8, 16) =~= number(end.0));
    assert(c.summary.subrange(16, 24) =~= number(l.oldest_lsn.0));
    lemma_segs_roundtrip(l.segs);
    lemma_events_roundtrip(l.events);
    lemma_pages_roundtrip(l.pages);
}

/// The chapter of the covered segments is read back as the segments.
pub proof fn lemma_segs_roundtrip(s: Seq<CoveredSeg>)
    ensures
        decoded_segs(frames(covered_records(s))) == Some(s),
{
    let rs = covered_records(s);
    assert forall|i: int| 0 <= i < rs.len() implies (#[trigger] rs[i]).len() <= u64::MAX && covered_of(rs[i])
        == Some(s[i]) by {
        lemma_covered_roundtrip(s[i]);
    }
    lemma_unframed_frames(rs);
    assert(covered_list(rs)->0 =~= s);
}

/// The chapter of the size changes is read back as the changes.
pub proof fn lemma_events_roundtrip(s: Seq<SegEvent>)
    ensures
        decoded_events(frames(event_records(s))) == Some(s),
{
    let rs = event_records(s);
    assert forall|i: int| 0 <= i < rs.len() implies (#[trigger] rs[i]).len() <= u64::MAX && event_of(rs[i])
        == Some(s[i]) by {
        lemma_event_roundtrip(s[i]);
    }
    lemma_unframed_frames(rs);
    assert(event_list(rs)->0 =~= s);
}

/// The chapter of the page versions is read back as the versions, where
/// each is short enough for the length of its record to be written.
pub proof fn lemma_pages_roundtrip(s: Seq<PageEntryView>)
    requires
        forall|i: int| 0 <= i < s.len() ==> HEAD_LEN + version_body((#[trigger] s[i]).pv).len() <= u64::MAX,
    ensures
        decoded_pages(frames(entry_records(s))) == Some(s),
{
    let rs = entry_records(s);
    assert forall|i: int| 0 <= i < rs.len() implies (#[trigger] rs[i]).len() <= u64::MAX && entry_of(rs[i])
        == Some(s[i]) by {
        lemma_entry_roundtrip(s[i]);
    }
    lemma_unframed_frames(rs);
    assert(entry_list(rs)->0 =~= s);
}

} // verus!
