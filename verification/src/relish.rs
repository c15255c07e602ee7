//! Relishes, the objects that pages belong to, and the segments they are cut into.

use vstd::prelude::*;

verus! {

/// Bytes in a page.
pub const BLCKSZ: u32 = 8192;

/// Blocks in a full segment.
pub const RELISH_SEG_SIZE: u32 = 1280;

/// A relation fork.
#[derive(Clone, Copy, Debug, PartialEq, Eq, Structural, Hash, PartialOrd, Ord)]
pub struct RelTag {
    pub spcnode: u32,
    pub dbnode: u32,
    pub relnode: u32,
    pub forknum: u8,
}

/// The kinds of SLRU.
#[derive(Clone, Copy, Debug, PartialEq, Eq, Structural, Hash, PartialOrd, Ord)]
pub enum SlruKind {
    Clog,
    MultiXactMembers,
    MultiXactOffsets,
}

/// A relation, or one of the other objects that the store keeps versions of.
#[derive(Clone, Copy, Debug, PartialEq, Eq, Structural, Hash, PartialOrd, Ord)]
pub enum RelishTag {
    Relation(RelTag),
    Slru { slru: SlruKind, segno: u32 },
    FileNodeMap { spcnode: u32, dbnode: u32 },
    TwoPhase { xid: u32 },
    ControlFile,
    Checkpoint,
}

impl RelishTag {
    /// A blocky relish grows block by block; any other holds one value, at block 0.
    pub open spec fn blocky(&self) -> bool {
        self is Relation || self is Slru
    }

    #[verifier::when_used_as_spec(blocky)]
    pub fn is_blocky(&self) -> (r: bool)
        ensures
            r == self.blocky(),
    {
        match self {
            RelishTag::Relation(_) => true,
            RelishTag::Slru { .. } => true,
            _ => false,
        }
    }

    pub open spec fn relation(&self) -> bool {
        self is Relation
    }

    #[verifier::when_used_as_spec(relation)]
    pub fn is_relation(&self) -> (r: bool)
        ensures
            r == self.relation(),
    {
        match self {
            RelishTag::Relation(_) => true,
            _ => false,
        }
    }
}

/// One segment of a relish: the unit that a layer covers.
#[derive(Clone, Copy, Debug, PartialEq, Eq, Structural, Hash, PartialOrd, Ord)]
pub struct SegmentTag {
    pub rel: RelishTag,
    pub segno: u32,
}

impl SegmentTag {
    /// The segment that block `blknum` of `rel` lies in.
    pub open spec fn of_blknum(rel: RelishTag, blknum: u32) -> SegmentTag {
        SegmentTag { rel, segno: blknum / RELISH_SEG_SIZE }
    }

    /// The segment that block `blknum` of `rel` lies in, and the block's number within it.
    pub fn from_blknum(rel: RelishTag, blknum: u32) -> (r: (SegmentTag, u32))
        ensures
            r.0 == Self::of_blknum(rel, blknum),
            r.1 == blknum % RELISH_SEG_SIZE,
            r.0.segno * RELISH_SEG_SIZE + r.1 == blknum,
    {
        (SegmentTag { rel, segno: blknum / RELISH_SEG_SIZE }, blknum % RELISH_SEG_SIZE)
    }
}

} // verus!
