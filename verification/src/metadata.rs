//! What is kept on disk of a timeline besides its layers.

use crate::crc::{crc32c, crc32c_of, lemma_crc_detects_one_byte};
use crate::lsn::{Lsn, ZTimelineId};
use vstd::prelude::*;

verus! {

/// The name of the file that holds a timeline's metadata.
pub const METADATA_FILE_NAME: &'static str = "metadata";

#[derive(Clone, Copy, Debug, PartialEq, Eq, Structural)]
pub struct TimelineMetadata {
    pub disk_consistent_lsn: Lsn,
    /// The start of the record before the last; known only where
    /// everything up to the last record is on disk.
    pub prev_record_lsn: Option<Lsn>,
    pub ancestor_timeline: Option<ZTimelineId>,
    pub ancestor_lsn: Lsn,
    pub latest_gc_cutoff_lsn: Lsn,
    pub initdb_lsn: Lsn,
}

impl TimelineMetadata {
    pub fn new(
        disk_consistent_lsn: Lsn,
        prev_record_lsn: Option<Lsn>,
        ancestor_timeline: Option<ZTimelineId>,
        ancestor_lsn: Lsn,
        latest_gc_cutoff_lsn: Lsn,
        initdb_lsn: Lsn,
    ) -> (m: TimelineMetadata)
        ensures
            m == (TimelineMetadata {
                disk_consistent_lsn,
                prev_record_lsn,
                ancestor_timeline,
                ancestor_lsn,
                latest_gc_cutoff_lsn,
                initdb_lsn,
            }),
    {
        TimelineMetadata {
            disk_consistent_lsn,
            prev_record_lsn,
            ancestor_timeline,
            ancestor_lsn,
            latest_gc_cutoff_lsn,
            initdb_lsn,
        }
    }
}

/// The size of the metadata file.
pub const METADATA_MAX_SAFE_SIZE: usize = 512;

/// The size of the checksum at the end of the file.
pub const METADATA_CHECKSUM_SIZE: usize = 4;

/// The bytes of the file that the checksum covers.
pub const METADATA_MAX_DATA_SIZE: usize = 508;

/// The bytes that the fields take, at the start of the file.
pub const METADATA_FIELDS_SIZE: usize = 58;

/// Why a metadata file could not be read.
#[derive(Clone, Copy, Debug, PartialEq, Eq, Structural)]
pub enum MetadataError {
    /// The file does not have 512 bytes.
    WrongSize,
    /// The checksum at the end is not that of the bytes before it.
    ChecksumMismatch,
    /// A byte that says whether a field is present is neither 0 nor 1.
    Malformed,
}

impl MetadataError {
    /// What went wrong, in words.
    pub open spec fn message_text(self) -> Seq<char> {
        match self {
            MetadataError::WrongSize => "metadata bytes size is wrong"@,
            MetadataError::ChecksumMismatch => "metadata checksum mismatch"@,
            MetadataError::Malformed => "metadata is malformed"@,
        }
    }

    /// What went wrong, in words.
    pub fn message(&self) -> (r: &'static str)
        ensures
            r@ == self.message_text(),
    {
        match self {
            MetadataError::WrongSize => "metadata bytes size is wrong",
            MetadataError::ChecksumMismatch => "metadata checksum mismatch",
            MetadataError::Malformed => "metadata is malformed",
        }
    }
}

/// The eight bytes of `x`, the most significant first.
pub open spec fn be64(x: u64) -> Seq<u8> {
    seq![
        ((x >> 56) & 0xff) as u8,
        ((x >> 48) & 0xff) as u8,
        ((x >> 40) & 0xff) as u8,
        ((x >> 32) & 0xff) as u8,
        ((x >> 24) & 0xff) as u8,
        ((x >> 16) & 0xff) as u8,
        ((x >> 8) & 0xff) as u8,
        (x & 0xff) as u8,
    ]
}

/// The number that eight bytes stand for, the most significant first.
pub open spec fn from_be64(s: Seq<u8>) -> u64 {
    (s[0] as u64) << 56 | (s[1] as u64) << 48 | (s[2] as u64) << 40 | (s[3] as u64) << 32 | (s[4] as u64)
        << 24 | (s[5] as u64) << 16 | (s[6] as u64) << 8 | (s[7] as u64)
}

/// The sixteen bytes of `x`, the most significant first.
pub open spec fn be128(x: u128) -> Seq<u8> {
    be64(((x >> 64) & 0xffff_ffff_ffff_ffff) as u64) + be64((x & 0xffff_ffff_ffff_ffff) as u64)
}

/// The number that sixteen bytes stand for, the most significant first.
pub open spec fn from_be128(s: Seq<u8>) -> u128 {
    (from_be64(s.subrange(0, 8)) as u128) << 64 | (from_be64(s.subrange(8, 16)) as u128)
}

/// The four bytes of `x`, the least significant first.
pub open spec fn le32(x: u32) -> Seq<u8> {
    seq![(x & 0xff) as u8, ((x >> 8) & 0xff) as u8, ((x >> 16) & 0xff) as u8, ((x >> 24) & 0xff) as u8]
}

/// The number that four bytes stand for, the least significant first.
pub open spec fn from_le32(s: Seq<u8>) -> u32 {
    (s[0] as u32) | (s[1] as u32) << 8 | (s[2] as u32) << 16 | (s[3] as u32) << 24
}

pub proof fn lemma_be64_roundtrip(x: u64)
    ensures
        from_be64(be64(x)) == x,
{
    assert((((((x >> 56) & 0xff) as u8) as u64) << 56 | ((((x >> 48) & 0xff) as u8) as u64) << 48 | ((((x
        >> 40) & 0xff) as u8) as u64) << 40 | ((((x >> 32) & 0xff) as u8) as u64) << 32 | ((((x >> 24)
        & 0xff) as u8) as u64) << 24 | ((((x >> 16) & 0xff) as u8) as u64) << 16 | ((((x >> 8) & 0xff) as u8) as u64)
        << 8 | (((x & 0xff) as u8) as u64)) == x) by (bit_vector);
}

proof fn lemma_halves(x: u128)
    ensures
        ((((x >> 64) & 0xffff_ffff_ffff_ffff) as u64) as u128) << 64 | (((x & 0xffff_ffff_ffff_ffff) as u64) as u128)
            == x,
{
    assert(((((x >> 64) & 0xffff_ffff_ffff_ffff) as u64) as u128) << 64 | (((x & 0xffff_ffff_ffff_ffff) as u64) as u128)
        == x) by (bit_vector);
}

proof fn lemma_be128_roundtrip(x: u128)
    ensures
        from_be128(be128(x)) == x,
{
    let hi = ((x >> 64) & 0xffff_ffff_ffff_ffff) as u64;
    let lo = (x & 0xffff_ffff_ffff_ffff) as u64;
    assert(be128(x).subrange(0, 8) =~= be64(hi));
    assert(be128(x).subrange(8, 16) =~= be64(lo));
    lemma_be64_roundtrip(hi);
    lemma_be64_roundtrip(lo);
    lemma_halves(x);
}

proof fn lemma_le32_roundtrip(x: u32)
    ensures
        from_le32(le32(x)) == x,
{
    assert((((x & 0xff) as u8) as u32) | ((((x >> 8) & 0xff) as u8) as u32) << 8 | ((((x >> 16) & 0xff) as u8) as u32)
        << 16 | ((((x >> 24) & 0xff) as u8) as u32) << 24 == x) by (bit_vector);
}

proof fn lemma_le32_injective(a0: u8, a1: u8, a2: u8, a3: u8, b0: u8, b1: u8, b2: u8, b3: u8)
    by (bit_vector)
    requires
        (a0 as u32) | (a1 as u32) << 8 | (a2 as u32) << 16 | (a3 as u32) << 24 == (b0 as u32) | (b1 as u32) << 8 | (
        b2 as u32) << 16 | (b3 as u32) << 24,
    ensures
        a0 == b0 && a1 == b1 && a2 == b2 && a3 == b3,
{
}

/// The byte that says whether a field is present.
pub open spec fn presence(present: bool) -> u8 {
    if present {
        1
    } else {
        0
    }
}

/// The fields of `m`, one after the other: each LSN as eight bytes, the
/// most significant first; before each field that may be missing, a
/// byte that says whether it is there, and zeros in its place if not.
pub open spec fn fields(m: TimelineMetadata) -> Seq<u8> {
    be64(m.disk_consistent_lsn.0) + seq![presence(m.prev_record_lsn is Some)] + be64(
        match m.prev_record_lsn {
            Some(l) => l.0,
            None => 0,
        },
    ) + seq![presence(m.ancestor_timeline is Some)] + be128(
        match m.ancestor_timeline {
            Some(t) => t.0,
            None => 0,
        },
    ) + be64(m.ancestor_lsn.0) + be64(m.latest_gc_cutoff_lsn.0) + be64(m.initdb_lsn.0)
}

/// The bytes that the checksum covers: the fields, and zeros up to 508.
pub open spec fn payload(m: TimelineMetadata) -> Seq<u8> {
    fields(m) + Seq::new((METADATA_MAX_DATA_SIZE - METADATA_FIELDS_SIZE) as nat, |i: int| 0u8)
}

/// The metadata file of `m`: the payload, and its CRC-32C, the least significant byte first.
pub open spec fn encoding(m: TimelineMetadata) -> Seq<u8> {
    payload(m) + le32(crc32c(payload(m)))
}

/// The fields that the first 58 bytes of `b` stand for.
pub open spec fn parsed(b: Seq<u8>) -> TimelineMetadata {
    TimelineMetadata {
        disk_consistent_lsn: Lsn(from_be64(b.subrange(0, 8))),
        prev_record_lsn: if b[8] == 1 {
            Some(Lsn(from_be64(b.subrange(9, 17))))
        } else {
            None
        },
        ancestor_timeline: if b[17] == 1 {
            Some(ZTimelineId(from_be128(b.subrange(18, 34))))
        } else {
            None
        },
        ancestor_lsn: Lsn(from_be64(b.subrange(34, 42))),
        latest_gc_cutoff_lsn: Lsn(from_be64(b.subrange(42, 50))),
        initdb_lsn: Lsn(from_be64(b.subrange(50, 58))),
    }
}

/// Whether the checksum at the end of a file of 512 bytes is that of the bytes before it.
pub open spec fn checksum_holds(b: Seq<u8>) -> bool {
    crc32c(b.take(METADATA_MAX_DATA_SIZE as int)) == from_le32(
        b.subrange(METADATA_MAX_DATA_SIZE as int, METADATA_MAX_SAFE_SIZE as int),
    )
}

/// What a metadata file stands for.
pub open spec fn decoded(b: Seq<u8>) -> Result<TimelineMetadata, MetadataError> {
    if b.len() != METADATA_MAX_SAFE_SIZE {
        Err(MetadataError::WrongSize)
    } else if !checksum_holds(b) {
        Err(MetadataError::ChecksumMismatch)
    } else if b[8] > 1 || b[17] > 1 {
        Err(MetadataError::Malformed)
    } else {
        Ok(parsed(b))
    }
}

/// What is written can be read back: the file of `m` stands for `m`.
pub proof fn lemma_metadata_roundtrip(m: TimelineMetadata)
    ensures
        encoding(m).len() == METADATA_MAX_SAFE_SIZE,
        decoded(encoding(m)) == Ok::<TimelineMetadata, MetadataError>(m),
{
    let b = encoding(m);
    let prev = match m.prev_record_lsn {
        Some(l) => l.0,
        None => 0,
    };
    let anc = match m.ancestor_timeline {
        Some(t) => t.0,
        None => 0,
    };
    assert(b.take(METADATA_MAX_DATA_SIZE as int) =~= payload(m));
    assert(b.subrange(METADATA_MAX_DATA_SIZE as int, METADATA_MAX_SAFE_SIZE as int) =~= le32(crc32c(payload(m))));
    lemma_le32_roundtrip(crc32c(payload(m)));
    assert(b.subrange(0, 8) =~= be64(m.disk_consistent_lsn.0));
    assert(b.subrange(9, 17) =~= be64(prev));
    assert(b.subrange(18, 34) =~= be128(anc));
    assert(b.subrange(34, 42) =~= be64(m.ancestor_lsn.0));
    assert(b.subrange(42, 50) =~= be64(m.latest_gc_cutoff_lsn.0));
    assert(b.subrange(50, 58) =~= be64(m.initdb_lsn.0));
    lemma_be64_roundtrip(m.disk_consistent_lsn.0);
    lemma_be64_roundtrip(prev);
    lemma_be128_roundtrip(anc);
    lemma_be64_roundtrip(m.ancestor_lsn.0);
    lemma_be64_roundtrip(m.latest_gc_cutoff_lsn.0);
    lemma_be64_roundtrip(m.initdb_lsn.0);
    assert(b[8] == presence(m.prev_record_lsn is Some));
    assert(b[17] == presence(m.ancestor_timeline is Some));
}

/// A file whose checksum holds no longer passes once one of its bytes
/// is changed, whichever byte and into whatever.
pub proof fn lemma_metadata_corruption(b: Seq<u8>, c: Seq<u8>, i: int)
    requires
        b.len() == METADATA_MAX_SAFE_SIZE,
        c.len() == METADATA_MAX_SAFE_SIZE,
        checksum_holds(b),
        0 <= i < METADATA_MAX_SAFE_SIZE,
        b[i] != c[i],
        forall|j: int| 0 <= j < METADATA_MAX_SAFE_SIZE && j != i ==> b[j] == c[j],
    ensures
        decoded(c) == Err::<TimelineMetadata, MetadataError>(MetadataError::ChecksumMismatch),
{
    let n = METADATA_MAX_DATA_SIZE as int;
    let bs = b.subrange(n, n + 4);
    let cs = c.subrange(n, n + 4);
    if i < n {
        assert(bs =~= cs);
        lemma_crc_detects_one_byte(b.take(n), c.take(n), i);
    } else {
        assert(b.take(n) =~= c.take(n));
        assert(bs[i - n] != cs[i - n]);
        if from_le32(bs) == from_le32(cs) {
            lemma_le32_injective(bs[0], bs[1], bs[2], bs[3], cs[0], cs[1], cs[2], cs[3]);
        }
    }
}

pub(crate) fn push_be64(v: &mut Vec<u8>, x: u64)
    ensures
        final(v)@ == old(v)@ + be64(x),
{
    v.push(((x >> 56) & 0xff) as u8);
    v.push(((x >> 48) & 0xff) as u8);
    v.push(((x >> 40) & 0xff) as u8);
    v.push(((x >> 32) & 0xff) as u8);
    v.push(((x >> 24) & 0xff) as u8);
    v.push(((x >> 16) & 0xff) as u8);
    v.push(((x >> 8) & 0xff) as u8);
    v.push((x & 0xff) as u8);
    assert(v@ =~= old(v)@ + be64(x));
}

pub(crate) fn read_be64(v: &Vec<u8>, at: usize) -> (x: u64)
    requires
        at + 8 <= v@.len(),
    ensures
        x == from_be64(v@.subrange(at as int, at + 8)),
{
    let n: usize = v.len();
    assert(at + 8 <= n);
    (v[at] as u64) << 56 | (v[at + 1] as u64) << 48 | (v[at + 2] as u64) << 40 | (v[at + 3] as u64) << 32 | (v[at
        + 4] as u64) << 24 | (v[at + 5] as u64) << 16 | (v[at + 6] as u64) << 8 | (v[at + 7] as u64)
}

impl TimelineMetadata {
    /// The metadata file: 512 bytes that end in their checksum.
    pub fn to_bytes(&self) -> (v: Vec<u8>)
        ensures
            v@ == encoding(*self),
            v@.len() == METADATA_MAX_SAFE_SIZE,
    {
        let mut v: Vec<u8> = Vec::new();
        push_be64(&mut v, self.disk_consistent_lsn.0);
        match self.prev_record_lsn {
            Some(l) => {
                v.push(1);
                push_be64(&mut v, l.0);
            },
            None => {
                v.push(0);
                push_be64(&mut v, 0);
            },
        }
        let anc: u128 = match self.ancestor_timeline {
            Some(t) => {
                v.push(1);
                t.0
            },
            None => {
                v.push(0);
                0
            },
        };
        push_be64(&mut v, ((anc >> 64) & 0xffff_ffff_ffff_ffff) as u64);
        push_be64(&mut v, (anc & 0xffff_ffff_ffff_ffff) as u64);
        push_be64(&mut v, self.ancestor_lsn.0);
        push_be64(&mut v, self.latest_gc_cutoff_lsn.0);
        push_be64(&mut v, self.initdb_lsn.0);
        assert(v@ =~= fields(*self));
        let mut i: usize = METADATA_FIELDS_SIZE;
        while i < METADATA_MAX_DATA_SIZE
            invariant
                METADATA_FIELDS_SIZE <= i <= METADATA_MAX_DATA_SIZE,
                v@ == fields(*self) + Seq::new((i - METADATA_FIELDS_SIZE) as nat, |j: int| 0u8),
            decreases METADATA_MAX_DATA_SIZE - i,
        {
            v.push(0);
            i = i + 1;
            assert(v@ =~= fields(*self) + Seq::new((i - METADATA_FIELDS_SIZE) as nat, |j: int| 0u8));
        }
        assert(v@ == payload(*self));
        assert(v@.take(METADATA_MAX_DATA_SIZE as int) =~= v@);
        let crc = crc32c_of(&v, METADATA_MAX_DATA_SIZE);
        v.push((crc & 0xff) as u8);
        v.push(((crc >> 8) & 0xff) as u8);
        v.push(((crc >> 16) & 0xff) as u8);
        v.push(((crc >> 24) & 0xff) as u8);
        assert(v@ =~= encoding(*self));
        v
    }

    /// Reads a metadata file.
    pub fn from_bytes(metadata_bytes: &Vec<u8>) -> (r: Result<TimelineMetadata, MetadataError>)
        ensures
            r == decoded(metadata_bytes@),
    {
        let b = metadata_bytes;
        if b.len() != METADATA_MAX_SAFE_SIZE {
            return Err(MetadataError::WrongSize);
        }
        let calculated = crc32c_of(b, METADATA_MAX_DATA_SIZE);
        let expected: u32 = (b[508] as u32) | (b[509] as u32) << 8 | (b[510] as u32) << 16 | (b[511] as u32) << 24;
        assert(expected == from_le32(b@.subrange(508, 512)));
        if calculated != expected {
            return Err(MetadataError::ChecksumMismatch);
        }
        if b[8] > 1 || b[17] > 1 {
            return Err(MetadataError::Malformed);
        }
        let hi = read_be64(b, 18);
        let lo = read_be64(b, 26);
        assert(b@.subrange(18, 34).subrange(0, 8) =~= b@.subrange(18, 26));
        assert(b@.subrange(18, 34).subrange(8, 16) =~= b@.subrange(26, 34));
        Ok(
            TimelineMetadata {
                disk_consistent_lsn: Lsn(read_be64(b, 0)),
                prev_record_lsn: if b[8] == 1 {
                    Some(Lsn(read_be64(b, 9)))
                } else {
                    None
                },
                ancestor_timeline: if b[17] == 1 {
                    Some(ZTimelineId((hi as u128) << 64 | (lo as u128)))
                } else {
                    None
                },
                ancestor_lsn: Lsn(read_be64(b, 34)),
                latest_gc_cutoff_lsn: Lsn(read_be64(b, 42)),
                initdb_lsn: Lsn(read_be64(b, 50)),
            },
        )
    }
}

} // verus!
