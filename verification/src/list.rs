//! Listing the relishes of a timeline, and adding up their sizes.

use crate::layer_map::{list_distinct, list_has, lists_rel, tag_matches};
use crate::lsn::{Lsn, ZTimelineId};
use crate::read::ReadError;
use crate::relish::{RelTag, RelishTag, BLCKSZ};
use crate::repository::{LayeredRepository, RepoView};
use vstd::prelude::*;

verus! {

impl RepoView {
    /// Whether the timeline at `idx` is loaded, and every timeline that
    /// it goes back to.
    pub open spec fn chain_local(self, idx: int) -> bool
        decreases idx,
    {
        match self.local(idx) {
            None => false,
            Some(tl) => tl.ancestor_timeline is None || (self.ancestor_index(idx) is Some && 0
                <= self.ancestor_index(idx)->0 < idx && self.chain_local(self.ancestor_index(idx)->0)),
        }
    }

    /// What is said of `rel` at `lsn` by the first timeline that says
    /// anything of it, from the one at `idx` back.
    pub open spec fn first_observation(self, idx: int, rel: RelishTag, lsn: Lsn) -> Option<bool>
        decreases idx,
    {
        match self.local(idx) {
            None => None,
            Some(tl) => match tl.layers.observes(rel, lsn) {
                Some(b) => Some(b),
                None => match self.ancestor_index(idx) {
                    Some(a) => if 0 <= a < idx {
                        self.first_observation(a, rel, lsn)
                    } else {
                        None
                    },
                    None => None,
                },
            },
        }
    }

    /// Whether a request for relishes at `lsn` lists `rel`: the request
    /// takes it, and the first timeline that says anything of it says
    /// that it exists.
    pub open spec fn lists(self, idx: int, tag: Option<RelTag>, lsn: Lsn, rel: RelishTag) -> bool {
        tag_matches(tag, rel) && self.first_observation(idx, rel, lsn) == Some(true)
    }

    /// Whether `s` holds each relish that a request lists, once.
    pub open spec fn is_listing(self, idx: int, tag: Option<RelTag>, lsn: Lsn, s: Seq<RelishTag>) -> bool {
        s.no_duplicates() && forall|rel: RelishTag| #[trigger] s.contains(rel) <==> self.lists(idx, tag, lsn, rel)
    }

    /// The blocks of the relishes of `s` at `lsn`, all together; those
    /// that are counted are the relations and the SLRUs.
    pub open spec fn blocks_of(self, idx: int, s: Seq<RelishTag>, lsn: Lsn) -> Result<int, ReadError>
        decreases s.len(),
    {
        if s.len() == 0 {
            Ok(0)
        } else {
            match self.blocks_of(idx, s.drop_last(), lsn) {
                Err(e) => Err(e),
                Ok(n) => if s.last() is Relation || s.last() is Slru {
                    match self.relish_size(idx, s.last(), lsn) {
                        Err(e) => Err(e),
                        Ok(Some(k)) => Ok(n + k),
                        Ok(None) => Ok(n),
                    }
                } else {
                    Ok(n)
                },
            }
        }
    }

    /// The logical size at `lsn` that a count over the listings `rels`
    /// and `nonrels` gives, in bytes.
    pub open spec fn logical_size_of(self, idx: int, rels: Seq<RelishTag>, nonrels: Seq<RelishTag>, lsn: Lsn) -> Result<
        u64,
        ReadError,
    > {
        match self.blocks_of(idx, rels, lsn) {
            Err(e) => Err(e),
            Ok(a) => match self.blocks_of(idx, nonrels, lsn) {
                Err(e) => Err(e),
                Ok(b) => if (a + b) * BLCKSZ > u64::MAX {
                    Err(ReadError::SizeOverflow)
                } else {
                    Ok(((a + b) * BLCKSZ) as u64)
                },
            },
        }
    }
}

/// Whether `rel` stands among the first `k` entries.
pub open spec fn among(s: Seq<(RelishTag, bool)>, k: int, rel: RelishTag) -> bool {
    exists|i: int| 0 <= i < k && (#[trigger] s[i]).0 == rel
}

/// Every entry is taken by the request and says what the first timeline
/// that says anything of the relish says.
pub open spec fn chain_sound(repo: RepoView, idx: int, tag: Option<RelTag>, lsn: Lsn, s: Seq<(RelishTag, bool)>) -> bool {
    forall|k: int|
        0 <= k < s.len() ==> tag_matches(tag, (#[trigger] s[k]).0) && repo.first_observation(idx, s[k].0, lsn)
            == Some(s[k].1)
}

/// Every relish that the request takes and that some timeline says anything of is in the list.
pub open spec fn chain_complete(repo: RepoView, idx: int, tag: Option<RelTag>, lsn: Lsn, s: Seq<(RelishTag, bool)>) -> bool {
    forall|rel: RelishTag|
        tag_matches(tag, rel) && (#[trigger] repo.first_observation(idx, rel, lsn)) is Some ==> lists_rel(s, rel)
}

impl LayeredRepository {
    /// What is said at `lsn` of each relish that the request takes, by
    /// the first timeline that says anything of it, from the one at `idx` back.
    pub(crate) fn list_chain(&self, idx: usize, tag: Option<RelTag>, lsn: Lsn) -> (r: Result<
        Vec<(RelishTag, bool)>,
        ReadError,
    >)
        ensures
            match r {
                Ok(v) => self@.chain_local(idx as int) && list_distinct(v@) && chain_sound(
                    self@,
                    idx as int,
                    tag,
                    lsn,
                    v@,
                ) && chain_complete(self@, idx as int, tag, lsn, v@),
                Err(e) => !self@.chain_local(idx as int) && e == if self@.local(idx as int) is None {
                    ReadError::NotLocal
                } else {
                    ReadError::AncestorNotLocal
                },
            },
        decreases idx,
    {
        let tl = match self.local_at(idx) {
            Some(tl) => tl,
            None => { return Err(ReadError::NotLocal); },
        };
        let mut own = tl.layers.list_relishes(tag, lsn);
        if tl.ancestor_timeline.is_none() {
            proof {
                assert forall|rel: RelishTag|
                    tag_matches(tag, rel) && (#[trigger] self@.first_observation(idx as int, rel, lsn)) is Some implies lists_rel(
                    own@,
                    rel,
                ) by {}
            }
            return Ok(own);
        }
        let a = match self.ancestor_at(idx) {
            Some(a) => a,
            None => { return Err(ReadError::AncestorNotLocal); },
        };
        let rest = match self.list_chain(a, tag, lsn) {
            Ok(rest) => rest,
            Err(_) => { return Err(ReadError::AncestorNotLocal); },
        };
        let ghost own0 = own@;
        let mut k: usize = 0;
        while k < rest.len()
            invariant
                k <= rest@.len(),
                self@.local(idx as int) == Some(tl@),
                self@.ancestor_index(idx as int) == Some(a as int),
                a < idx,
                list_distinct(own@),
                chain_sound(self@, idx as int, tag, lsn, own@),
                chain_sound(self@, a as int, tag, lsn, rest@),
                own0.len() <= own@.len(),
                forall|j: int| 0 <= j < own0.len() ==> own@[j] == own0[j],
                forall|rel: RelishTag|
                    tag_matches(tag, rel) && (#[trigger] tl@.layers.observes(rel, lsn)) is Some ==> lists_rel(own0, rel),
                forall|j: int| 0 <= j < own0.len() ==> tl@.layers.observes((#[trigger] own0[j]).0, lsn) is Some,
                forall|j: int| 0 <= j < k ==> lists_rel(own@, (#[trigger] rest@[j]).0),
            decreases rest@.len() - k,
        {
            let e = rest[k];
            let ghost before = own@;
            if !list_has(&own, e.0) {
                proof {
                    if tl@.layers.observes(e.0, lsn) is Some {
                        assert(lists_rel(own0, e.0));
                        let j = choose|j: int| 0 <= j < own0.len() && (#[trigger] own0[j]).0 == e.0;
                        assert(own@[j].0 == e.0);
                    }
                }
                own.push(e);
                assert(own@[own@.len() - 1].0 == e.0);
            }
            proof {
                assert forall|j: int| 0 <= j < k + 1 implies lists_rel(own@, (#[trigger] rest@[j]).0) by {
                    if j < k {
                        let i = choose|i: int| 0 <= i < before.len() && (#[trigger] before[i]).0 == rest@[j].0;
                        assert(own@[i].0 == rest@[j].0);
                    } else if lists_rel(before, e.0) {
                        let i = choose|i: int| 0 <= i < before.len() && (#[trigger] before[i]).0 == e.0;
                        assert(own@[i].0 == e.0);
                    }
                }
            }
            k = k + 1;
        }
        proof {
            assert forall|rel: RelishTag|
                tag_matches(tag, rel) && (#[trigger] self@.first_observation(idx as int, rel, lsn)) is Some implies lists_rel(
                own@,
                rel,
            ) by {
                if tl@.layers.observes(rel, lsn) is Some {
                    let j = choose|j: int| 0 <= j < own0.len() && (#[trigger] own0[j]).0 == rel;
                    assert(own@[j].0 == rel);
                } else {
                    assert(self@.first_observation(a as int, rel, lsn) is Some);
                    let j = choose|j: int| 0 <= j < rest@.len() && (#[trigger] rest@[j]).0 == rel;
                    assert(lists_rel(own@, rest@[j].0));
                }
            }
        }
        Ok(own)
    }

    /// The relishes that exist at `lsn` on the timeline `timelineid`,
    /// among those that the request takes.
    ///
    /// A relish is looked for on the timeline itself and then on each
    /// timeline that it goes back to, at the same LSN; the first that
    /// says anything of it decides. All those timelines have to be loaded.
    pub fn list_relishes(&self, timelineid: ZTimelineId, tag: Option<RelTag>, lsn: Lsn) -> (r: Result<
        Vec<RelishTag>,
        ReadError,
    >)
        ensures
            match r {
                Ok(v) => self@.chain_local(self@.read_index(timelineid)) && self@.is_listing(
                    self@.read_index(timelineid),
                    tag,
                    lsn,
                    v@,
                ),
                Err(e) => !self@.chain_local(self@.read_index(timelineid)) && e == if self@.local(
                    self@.read_index(timelineid),
                ) is None {
                    ReadError::NotLocal
                } else {
                    ReadError::AncestorNotLocal
                },
            },
    {
        let idx = match self.read_idx(timelineid) {
            Some(idx) => idx,
            None => { return Err(ReadError::NotLocal); },
        };
        let all = match self.list_chain(idx, tag, lsn) {
            Ok(all) => all,
            Err(e) => { return Err(e); },
        };
        let mut out: Vec<RelishTag> = Vec::new();
        let mut k: usize = 0;
        while k < all.len()
            invariant
                k <= all@.len(),
                list_distinct(all@),
                chain_sound(self@, idx as int, tag, lsn, all@),
                out@.no_duplicates(),
                forall|j: int| 0 <= j < out@.len() ==> self@.lists(idx as int, tag, lsn, #[trigger] out@[j]),
                forall|j: int| 0 <= j < out@.len() ==> among(all@, k as int, #[trigger] out@[j]),
                forall|i: int| 0 <= i < k && (#[trigger] all@[i]).1 ==> out@.contains(all@[i].0),
            decreases all@.len() - k,
        {
            let ghost before = out@;
            if all[k].1 {
                proof {
                    if before.contains(all@[k as int].0) {
                        let j = choose|j: int| 0 <= j < before.len() && before[j] == all@[k as int].0;
                        assert(among(all@, k as int, before[j]));
                        let i = choose|i: int| 0 <= i < k && (#[trigger] all@[i]).0 == before[j];
                        assert(all@[i].0 != all@[k as int].0);
                    }
                }
                out.push(all[k].0);
                assert(out@[out@.len() - 1] == all@[k as int].0);
            }
            proof {
                assert forall|j: int| 0 <= j < out@.len() implies among(all@, k + 1, #[trigger] out@[j]) by {
                    if j < before.len() {
                        assert(among(all@, k as int, before[j]));
                        let i = choose|i: int| 0 <= i < k && (#[trigger] all@[i]).0 == before[j];
                        assert(all@[i].0 == out@[j]);
                    } else {
                        assert(all@[k as int].0 == out@[j]);
                    }
                }
                assert forall|i: int| 0 <= i < k + 1 && (#[trigger] all@[i]).1 implies out@.contains(all@[i].0) by {
                    if i < k {
                        let j = choose|j: int| 0 <= j < before.len() && before[j] == all@[i].0;
                        assert(out@[j] == all@[i].0);
                    }
                }
            }
            k = k + 1;
        }
        proof {
            assert forall|rel: RelishTag| #[trigger] out@.contains(rel) <==> self@.lists(idx as int, tag, lsn, rel) by {
                if self@.lists(idx as int, tag, lsn, rel) {
                    assert(self@.first_observation(idx as int, rel, lsn) is Some);
                    assert(lists_rel(all@, rel));
                    let i = choose|i: int| 0 <= i < all@.len() && (#[trigger] all@[i]).0 == rel;
                    assert(all@[i].1);
                }
            }
        }
        Ok(out)
    }

    /// The relations of tablespace `spcnode` and database `dbnode` that
    /// exist at `lsn`; 0 stands for any.
    pub fn list_rels(&self, timelineid: ZTimelineId, spcnode: u32, dbnode: u32, lsn: Lsn) -> (r: Result<
        Vec<RelishTag>,
        ReadError,
    >)
        ensures
            match r {
                Ok(v) => self@.chain_local(self@.read_index(timelineid)) && self@.is_listing(
                    self@.read_index(timelineid),
                    Some(RelTag { spcnode, dbnode, relnode: 0, forknum: 0 }),
                    lsn,
                    v@,
                ),
                Err(e) => !self@.chain_local(self@.read_index(timelineid)) && e == if self@.local(
                    self@.read_index(timelineid),
                ) is None {
                    ReadError::NotLocal
                } else {
                    ReadError::AncestorNotLocal
                },
            },
    {
        self.list_relishes(timelineid, Some(RelTag { spcnode, dbnode, relnode: 0, forknum: 0 }), lsn)
    }

    /// The relishes other than relations that exist at `lsn`.
    pub fn list_nonrels(&self, timelineid: ZTimelineId, lsn: Lsn) -> (r: Result<Vec<RelishTag>, ReadError>)
        ensures
            match r {
                Ok(v) => self@.chain_local(self@.read_index(timelineid)) && self@.is_listing(
                    self@.read_index(timelineid),
                    None,
                    lsn,
                    v@,
                ),
                Err(e) => !self@.chain_local(self@.read_index(timelineid)) && e == if self@.local(
                    self@.read_index(timelineid),
                ) is None {
                    ReadError::NotLocal
                } else {
                    ReadError::AncestorNotLocal
                },
            },
    {
        self.list_relishes(timelineid, None, lsn)
    }

    fn count_blocks(&self, idx: usize, s: &Vec<RelishTag>, lsn: Lsn) -> (r: Result<u128, ReadError>)
        ensures
            match r {
                Ok(n) => self@.blocks_of(idx as int, s@, lsn) == Ok::<int, ReadError>(n as int) && n <= s@.len()
                    * 0xffff_ffff,
                Err(e) => self@.blocks_of(idx as int, s@, lsn) == Err::<int, ReadError>(e),
            },
    {
        let mut total: u128 = 0;
        let mut k: usize = 0;
        assert(s@.take(0) =~= Seq::empty());
        while k < s.len()
            invariant
                k <= s@.len(),
                total <= k * 0xffff_ffff,
                self@.blocks_of(idx as int, s@.take(k as int), lsn) == Ok::<int, ReadError>(total as int),
            decreases s@.len() - k,
        {
            assert(s@.take(k + 1).drop_last() =~= s@.take(k as int));
            let rel = s[k];
            let counted = match rel {
                RelishTag::Relation(_) => true,
                RelishTag::Slru { .. } => true,
                _ => false,
            };
            if counted {
                match self.relish_size_at(idx, rel, lsn) {
                    Err(e) => {
                        proof {
                            lemma_blocks_err(self@, idx as int, s@, lsn, k as int + 1);
                        }
                        return Err(e);
                    },
                    Ok(Some(n)) => {
                        total = total + n as u128;
                    },
                    Ok(None) => {},
                }
            }
            k = k + 1;
        }
        assert(s@.take(k as int) =~= s@);
        Ok(total)
    }

    /// The logical size of the timeline at `lsn`, counted from its
    /// relishes: the blocks of every relation and of every SLRU that
    /// exists, in bytes.
    pub fn get_current_logical_size_non_incremental(&self, timelineid: ZTimelineId, lsn: Lsn) -> (r: Result<
        u64,
        ReadError,
    >)
        ensures
            !self@.chain_local(self@.read_index(timelineid)) ==> r == Err::<u64, ReadError>(
                if self@.local(self@.read_index(timelineid)) is None {
                    ReadError::NotLocal
                } else {
                    ReadError::AncestorNotLocal
                },
            ),
            self@.chain_local(self@.read_index(timelineid)) ==> exists|rels: Seq<RelishTag>, nonrels: Seq<RelishTag>|
                #![trigger self@.logical_size_of(self@.read_index(timelineid), rels, nonrels, lsn)]
                self@.is_listing(
                    self@.read_index(timelineid),
                    Some(RelTag { spcnode: 0, dbnode: 0, relnode: 0, forknum: 0 }),
                    lsn,
                    rels,
                ) && self@.is_listing(self@.read_index(timelineid), None, lsn, nonrels) && r
                    == self@.logical_size_of(self@.read_index(timelineid), rels, nonrels, lsn),
    {
        let idx = match self.read_idx(timelineid) {
            Some(idx) => idx,
            None => { return Err(ReadError::NotLocal); },
        };
        let rels = match self.list_rels(timelineid, 0, 0, lsn) {
            Ok(v) => v,
            Err(e) => { return Err(e); },
        };
        let nonrels = match self.list_nonrels(timelineid, lsn) {
            Ok(v) => v,
            Err(e) => { return Err(e); },
        };
        let r = match self.count_blocks(idx, &rels, lsn) {
            Err(e) => Err(e),
            Ok(a) => match self.count_blocks(idx, &nonrels, lsn) {
                Err(e) => Err(e),
                Ok(b) => {
                    assert(rels@.len() <= 0xffff_ffff_ffff_ffff && nonrels@.len() <= 0xffff_ffff_ffff_ffff);
                    assert(a <= 0xffff_ffff_ffff_ffff * 0xffff_ffff && b <= 0xffff_ffff_ffff_ffff * 0xffff_ffff);
                    let bytes: u128 = (a + b) * (BLCKSZ as u128);
                    if bytes > u64::MAX as u128 {
                        Err(ReadError::SizeOverflow)
                    } else {
                        Ok(bytes as u64)
                    }
                },
            },
        };
        assert(r == self@.logical_size_of(idx as int, rels@, nonrels@, lsn));
        r
    }
}

/// Where the blocks of the first `k` relishes cannot be counted, those of all cannot, for the same reason.
pub proof fn lemma_blocks_err(repo: RepoView, idx: int, s: Seq<RelishTag>, lsn: Lsn, k: int)
    requires
        0 <= k <= s.len(),
        repo.blocks_of(idx, s.take(k), lsn) is Err,
    ensures
        repo.blocks_of(idx, s, lsn) == repo.blocks_of(idx, s.take(k), lsn),
    decreases s.len() - k,
{
    if k < s.len() {
        assert(s.take(k + 1).drop_last() =~= s.take(k));
        lemma_blocks_err(repo, idx, s, lsn, k + 1);
    } else {
        assert(s.take(k) =~= s);
    }
}

} // verus!
