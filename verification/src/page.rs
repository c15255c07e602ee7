//! Page images, the WAL records that change them, and what a read gathers
//! on its way down the layers.

use crate::lsn::Lsn;
use crate::relish::{RelishTag, BLCKSZ};
use bytes::Bytes;
use vstd::prelude::*;

verus! {

/// `bytes::Bytes`, a buffer of bytes that is cheap to hand on. Nothing is
/// known of a value but what `page_bytes` says it holds.
#[verifier::external_type_specification]
#[verifier::external_body]
pub struct ExBytes(bytes::Bytes);

/// The bytes that a buffer holds, in order.
pub uninterp spec fn page_bytes(b: Bytes) -> Seq<u8>;

/// `Bytes::from(Vec<u8>)`: the buffer takes the vector over and holds the
/// same bytes in the same order.
#[verifier::external_body]
pub(crate) fn bytes_from_vec(v: Vec<u8>) -> (b: Bytes)
    ensures
        page_bytes(b) == v@,
{
    Bytes::from(v)
}

/// `Bytes::clone`: a second handle on the same bytes.
#[verifier::external_body]
pub(crate) fn bytes_clone(b: &Bytes) -> (c: Bytes)
    ensures
        page_bytes(c) == page_bytes(*b),
{
    b.clone()
}

/// `Bytes::as_ref`: the bytes that the buffer holds, as a slice.
#[verifier::external_body]
pub(crate) fn bytes_as_slice(b: &Bytes) -> (s: &[u8])
    ensures
        s@ == page_bytes(*b),
{
    b.as_ref()
}

/// A page of zeros.
pub open spec fn zero_page_bytes() -> Seq<u8> {
    Seq::new(BLCKSZ as nat, |i: int| 0u8)
}

/// A fresh page of zeros.
pub fn zero_page() -> (b: Bytes)
    ensures
        page_bytes(b) == zero_page_bytes(),
{
    let mut v: Vec<u8> = Vec::new();
    let mut i: u32 = 0;
    while i < BLCKSZ
        invariant
            i <= BLCKSZ,
            v@ == Seq::new(i as nat, |j: int| 0u8),
        decreases BLCKSZ - i,
    {
        v.push(0u8);
        i = i + 1;
        assert(v@ =~= Seq::new(i as nat, |j: int| 0u8));
    }
    bytes_from_vec(v)
}

/// A WAL record that changes one page.
pub struct WalRecord {
    /// Set where the record builds the page from nothing, so that replay needs no older image.
    pub will_init: bool,
    pub rec: Bytes,
}

pub struct WalRecordView {
    pub will_init: bool,
    pub rec: Seq<u8>,
}

impl View for WalRecord {
    type V = WalRecordView;

    open spec fn view(&self) -> WalRecordView {
        WalRecordView { will_init: self.will_init, rec: page_bytes(self.rec) }
    }
}

impl WalRecord {
    pub fn duplicate(&self) -> (r: WalRecord)
        ensures
            r@ == self@,
    {
        WalRecord { will_init: self.will_init, rec: bytes_clone(&self.rec) }
    }
}

/// One version of a page: the whole image, or the record that made it from the version before.
pub enum PageVersion {
    Page(Bytes),
    Wal(WalRecord),
}

pub enum PageVersionView {
    Page(Seq<u8>),
    Wal(WalRecordView),
}

impl View for PageVersion {
    type V = PageVersionView;

    open spec fn view(&self) -> PageVersionView {
        match self {
            PageVersion::Page(img) => PageVersionView::Page(page_bytes(*img)),
            PageVersion::Wal(rec) => PageVersionView::Wal(rec@),
        }
    }
}

impl PageVersion {
    pub fn duplicate(&self) -> (r: PageVersion)
        ensures
            r@ == self@,
    {
        match self {
            PageVersion::Page(img) => PageVersion::Page(bytes_clone(img)),
            PageVersion::Wal(rec) => PageVersion::Wal(rec.duplicate()),
        }
    }
}

/// The records of a `Vec`, each by its view.
pub open spec fn records_view(s: Seq<(Lsn, WalRecord)>) -> Seq<(Lsn, WalRecordView)> {
    Seq::new(s.len(), |i: int| (s[i].0, s[i].1@))
}

/// An image with the LSN it is valid at, by its bytes.
pub open spec fn image_view(img: Option<(Lsn, Bytes)>) -> Option<(Lsn, Seq<u8>)> {
    match img {
        Some((lsn, b)) => Some((lsn, page_bytes(b))),
        None => None,
    }
}

/// What a read has gathered so far: the records to replay, newest first,
/// and the image to replay them over.
pub struct PageReconstructData {
    pub records: Vec<(Lsn, WalRecord)>,
    pub page_img: Option<(Lsn, Bytes)>,
}

pub struct ReconstructView {
    pub records: Seq<(Lsn, WalRecordView)>,
    pub page_img: Option<(Lsn, Seq<u8>)>,
}

impl View for PageReconstructData {
    type V = ReconstructView;

    open spec fn view(&self) -> ReconstructView {
        ReconstructView { records: records_view(self.records@), page_img: image_view(self.page_img) }
    }
}

/// How far one layer got a read.
#[derive(Clone, Copy, Debug, PartialEq, Eq, Structural)]
pub enum PageReconstructResult {
    /// Everything needed has been gathered.
    Complete,
    /// Older versions are needed: look again at this LSN.
    Continue(Lsn),
    /// Older versions are needed and this layer has no predecessor.
    Missing(Lsn),
}

/// What is handed to WAL redo: the records to replay, oldest first, and the
/// image to replay them over.
pub struct RedoRequest {
    pub rel: RelishTag,
    pub blknum: u32,
    pub lsn: Lsn,
    pub base_img: Option<Bytes>,
    pub records: Vec<(Lsn, WalRecord)>,
}

pub struct RedoRequestView {
    pub rel: RelishTag,
    pub blknum: u32,
    pub lsn: Lsn,
    pub base_img: Option<Seq<u8>>,
    pub records: Seq<(Lsn, WalRecordView)>,
}

impl View for RedoRequest {
    type V = RedoRequestView;

    open spec fn view(&self) -> RedoRequestView {
        RedoRequestView {
            rel: self.rel,
            blknum: self.blknum,
            lsn: self.lsn,
            base_img: match self.base_img {
                Some(b) => Some(page_bytes(b)),
                None => None,
            },
            records: records_view(self.records@),
        }
    }
}

/// WAL redo could not replay the records it was given.
#[derive(Clone, Copy, Debug, PartialEq, Eq, Structural)]
pub struct WalRedoError;

} // verus!
