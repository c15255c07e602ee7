//! The layers of one timeline: the open layer, the frozen one, and the
//! flushed ones, and the lookup of the layer that serves a read.

use crate::layer::{lemma_find_seg_some, CoveredSeg, Layer, LayerKind, LayerView};
use crate::lsn::Lsn;
use crate::relish::{RelTag, RelishTag, SegmentTag};
use vstd::prelude::*;

verus! {

pub open spec fn layers_view(s: Seq<Layer>) -> Seq<LayerView> {
    Seq::new(s.len(), |i: int| s[i]@)
}

pub open spec fn layer_opt_view(l: Option<Layer>) -> Option<LayerView> {
    match l {
        Some(l) => Some(l@),
        None => None,
    }
}

pub open spec fn layer_ref_view(l: Option<&Layer>) -> Option<LayerView> {
    match l {
        Some(l) => Some(l@),
        None => None,
    }
}

/// Whether a layer can serve a read of `seg` at `lsn`: it covers the
/// segment and starts at or before the LSN.
pub open spec fn qualifies(l: LayerView, seg: SegmentTag, lsn: Lsn) -> bool {
    l.covers_seg(seg) && l.start_lsn.0 <= lsn.0
}

/// Whether `a` is to be read before `b`: it starts later, or at the same
/// LSN as an image where `b` is none.
pub open spec fn better(a: LayerView, b: LayerView) -> bool {
    a.start_lsn.0 > b.start_lsn.0 || (a.start_lsn.0 == b.start_lsn.0 && a.kind == LayerKind::Image
        && b.kind != LayerKind::Image)
}

/// The place of the flushed layer that serves a read of `seg` at `lsn`:
/// among those that qualify, one that none is to be read before; of several
/// such, the first.
pub open spec fn best_historic(h: Seq<LayerView>, seg: SegmentTag, lsn: Lsn) -> Option<int>
    decreases h.len(),
{
    if h.len() == 0 {
        None
    } else {
        let rest = best_historic(h.drop_last(), seg, lsn);
        if qualifies(h.last(), seg, lsn) && (rest is None || better(h.last(), h[rest->0])) {
            Some(h.len() - 1)
        } else {
            rest
        }
    }
}

/// The layer that `best_historic` names qualifies, and no layer that
/// qualifies is to be read before it.
pub proof fn lemma_best_historic(h: Seq<LayerView>, seg: SegmentTag, lsn: Lsn)
    ensures
        best_historic(h, seg, lsn) matches Some(b) ==> 0 <= b < h.len() && qualifies(h[b], seg, lsn)
            && forall|j: int| 0 <= j < h.len() && qualifies(#[trigger] h[j], seg, lsn) ==> !better(h[j], h[b]),
        best_historic(h, seg, lsn) is None ==> forall|j: int|
            0 <= j < h.len() ==> !qualifies(#[trigger] h[j], seg, lsn),
    decreases h.len(),
{
    if h.len() > 0 {
        let d = h.drop_last();
        lemma_best_historic(d, seg, lsn);
        let rest = best_historic(d, seg, lsn);
        assert forall|j: int| 0 <= j < d.len() implies d[j] == h[j] by {}
        match best_historic(h, seg, lsn) {
            Some(b) => {
                assert forall|j: int| 0 <= j < h.len() && qualifies(#[trigger] h[j], seg, lsn) implies !better(
                    h[j],
                    h[b],
                ) by {
                    if j < d.len() {
                        assert(qualifies(d[j], seg, lsn));
                    }
                }
            },
            None => {
                assert forall|j: int| 0 <= j < h.len() implies !qualifies(#[trigger] h[j], seg, lsn) by {
                    if j < d.len() {
                        assert(!qualifies(d[j], seg, lsn));
                    }
                }
            },
        }
    }
}

/// Whether a layer is an image of `seg` that starts after `after` and ends at or before `ceiling`.
pub open spec fn is_newer_image(l: LayerView, seg: SegmentTag, after: Lsn, ceiling: Lsn) -> bool {
    l.kind == LayerKind::Image && l.covers_seg(seg) && l.start_lsn.0 > after.0 && l.end_or_max().0
        <= ceiling.0
}

/// Whether a request for relishes takes `rel`: a request with a tag takes
/// the relations of its tablespace and database, where 0 stands for any; a
/// request without one takes what is no relation.
pub open spec fn tag_matches(tag: Option<RelTag>, rel: RelishTag) -> bool {
    match rel {
        RelishTag::Relation(r) => tag matches Some(t) && (t.spcnode == 0 || r.spcnode == t.spcnode) && (
        t.dbnode == 0 || r.dbnode == t.dbnode),
        _ => tag is None,
    }
}

pub struct LayerMapView {
    /// Where the next open layer starts, while there is none.
    pub next_open_layer_at: Option<Lsn>,
    pub open_layer: Option<LayerView>,
    pub frozen_layer: Option<LayerView>,
    pub historic: Seq<LayerView>,
}

impl LayerMapView {
    /// The layer that serves a read of `seg` at `lsn`: the open layer if it
    /// qualifies, else the frozen one if it does, else the best flushed one.
    pub open spec fn get(self, seg: SegmentTag, lsn: Lsn) -> Option<LayerView> {
        if self.open_layer is Some && qualifies(self.open_layer->0, seg, lsn) {
            self.open_layer
        } else if self.frozen_layer is Some && qualifies(self.frozen_layer->0, seg, lsn) {
            self.frozen_layer
        } else {
            match best_historic(self.historic, seg, lsn) {
                Some(b) => Some(self.historic[b]),
                None => None,
            }
        }
    }

    pub open spec fn newer_image_layer_exists(self, seg: SegmentTag, after: Lsn, ceiling: Lsn) -> bool {
        exists|i: int|
            0 <= i < self.historic.len() && is_newer_image(#[trigger] self.historic[i], seg, after, ceiling)
    }

    /// Whether `seg` exists at `lsn` as far as this map's layers say.
    pub open spec fn layer_exists_at_lsn(self, seg: SegmentTag, lsn: Lsn) -> bool {
        self.get(seg, lsn) matches Some(l) && l.seg_exists(seg, lsn)
    }

    /// What this map's layers say of `rel` at `lsn`: that it exists, that
    /// it is dropped, or nothing.
    pub open spec fn observes(self, rel: RelishTag, lsn: Lsn) -> Option<bool> {
        let seg = SegmentTag { rel, segno: 0 };
        match self.get(seg, lsn) {
            Some(l) => Some(l.seg_exists(seg, lsn)),
            None => None,
        }
    }

    pub open spec fn with_historic(self, l: LayerView) -> LayerMapView {
        LayerMapView { historic: self.historic.push(l), ..self }
    }
}

/// Whether `rel` stands in the list.
pub open spec fn lists_rel(s: Seq<(RelishTag, bool)>, rel: RelishTag) -> bool {
    exists|k: int| 0 <= k < s.len() && (#[trigger] s[k]).0 == rel
}

/// Every entry of the list is taken by the request and says what the map's layers say.
pub open spec fn list_sound(m: LayerMapView, tag: Option<RelTag>, lsn: Lsn, s: Seq<(RelishTag, bool)>) -> bool {
    forall|k: int|
        0 <= k < s.len() ==> tag_matches(tag, (#[trigger] s[k]).0) && m.observes(s[k].0, lsn) == Some(
            s[k].1,
        )
}

/// No relish stands in the list twice.
pub open spec fn list_distinct(s: Seq<(RelishTag, bool)>) -> bool {
    forall|j: int, k: int| 0 <= j < k < s.len() ==> (#[trigger] s[j]).0 != (#[trigger] s[k]).0
}

/// `b` is `a` with entries added at its end.
pub open spec fn list_extends(a: Seq<(RelishTag, bool)>, b: Seq<(RelishTag, bool)>) -> bool {
    a.len() <= b.len() && forall|k: int| 0 <= k < a.len() ==> a[k] == b[k]
}

/// The relish of a covered segment is listed, if the request takes it and the map's layers speak of it.
pub open spec fn seg_listed(
    c: CoveredSeg,
    m: LayerMapView,
    tag: Option<RelTag>,
    lsn: Lsn,
    s: Seq<(RelishTag, bool)>,
) -> bool {
    c.seg.segno == 0 && tag_matches(tag, c.seg.rel) && m.observes(c.seg.rel, lsn) is Some ==> lists_rel(
        s,
        c.seg.rel,
    )
}

pub open spec fn layer_listed(
    l: LayerView,
    m: LayerMapView,
    tag: Option<RelTag>,
    lsn: Lsn,
    s: Seq<(RelishTag, bool)>,
) -> bool {
    forall|j: int| 0 <= j < l.segs.len() ==> seg_listed(#[trigger] l.segs[j], m, tag, lsn, s)
}

proof fn lemma_listed_extends(
    l: LayerView,
    m: LayerMapView,
    tag: Option<RelTag>,
    lsn: Lsn,
    a: Seq<(RelishTag, bool)>,
    b: Seq<(RelishTag, bool)>,
)
    requires
        layer_listed(l, m, tag, lsn, a),
        list_extends(a, b),
    ensures
        layer_listed(l, m, tag, lsn, b),
{
    assert forall|j: int| 0 <= j < l.segs.len() implies seg_listed(#[trigger] l.segs[j], m, tag, lsn, b) by {
        let c = l.segs[j];
        assert(seg_listed(c, m, tag, lsn, a));
        if lists_rel(a, c.seg.rel) {
            let k = choose|k: int| 0 <= k < a.len() && (#[trigger] a[k]).0 == c.seg.rel;
            assert(b[k].0 == c.seg.rel);
        }
    }
}

pub fn tag_takes(tag: Option<RelTag>, rel: RelishTag) -> (r: bool)
    ensures
        r == tag_matches(tag, rel),
{
    match rel {
        RelishTag::Relation(r) => match tag {
            Some(t) => (t.spcnode == 0 || r.spcnode == t.spcnode) && (t.dbnode == 0 || r.dbnode
                == t.dbnode),
            None => false,
        },
        _ => tag.is_none(),
    }
}

pub fn list_has(s: &Vec<(RelishTag, bool)>, rel: RelishTag) -> (r: bool)
    ensures
        r == lists_rel(s@, rel),
{
    let mut k: usize = 0;
    while k < s.len()
        invariant
            k <= s@.len(),
            forall|j: int| 0 <= j < k ==> (#[trigger] s@[j]).0 != rel,
        decreases s@.len() - k,
    {
        if s[k].0 == rel {
            return true;
        }
        k = k + 1;
    }
    false
}

pub struct LayerMap {
    pub(crate) next_open_layer_at: Option<Lsn>,
    pub(crate) open_layer: Option<Layer>,
    pub(crate) frozen_layer: Option<Layer>,
    pub(crate) historic: Vec<Layer>,
}

impl View for LayerMap {
    type V = LayerMapView;

    open(crate) spec fn view(&self) -> LayerMapView {
        LayerMapView {
            next_open_layer_at: self.next_open_layer_at,
            open_layer: layer_opt_view(self.open_layer),
            frozen_layer: layer_opt_view(self.frozen_layer),
            historic: layers_view(self.historic@),
        }
    }
}

impl LayerMap {
    /// A map without layers.
    pub fn new() -> (m: LayerMap)
        ensures
            m@ == (LayerMapView {
                next_open_layer_at: None,
                open_layer: None,
                frozen_layer: None,
                historic: Seq::empty(),
            }),
    {
        let m = LayerMap {
            next_open_layer_at: None,
            open_layer: None,
            frozen_layer: None,
            historic: Vec::new(),
        };
        assert(m@.historic =~= Seq::empty());
        m
    }

    pub fn get_next_open_layer_at(&self) -> (r: Option<Lsn>)
        ensures
            r == self@.next_open_layer_at,
    {
        self.next_open_layer_at
    }

    pub fn get_open_layer(&self) -> (r: Option<&Layer>)
        ensures
            layer_ref_view(r) == self@.open_layer,
    {
        self.open_layer.as_ref()
    }

    pub fn get_frozen_layer(&self) -> (r: Option<&Layer>)
        ensures
            layer_ref_view(r) == self@.frozen_layer,
    {
        self.frozen_layer.as_ref()
    }

    /// How many flushed layers the map holds.
    pub fn historic_count(&self) -> (r: usize)
        ensures
            r == self@.historic.len(),
    {
        self.historic.len()
    }

    /// The `i`-th flushed layer.
    pub fn historic_layer(&self, i: usize) -> (r: &Layer)
        requires
            i < self@.historic.len(),
        ensures
            r@ == self@.historic[i as int],
    {
        &self.historic[i]
    }

    /// The layer that serves a read of `seg` at `lsn`.
    pub fn get(&self, seg: SegmentTag, lsn: Lsn) -> (r: Option<&Layer>)
        ensures
            layer_ref_view(r) == self@.get(seg, lsn),
    {
        if let Some(l) = &self.open_layer {
            if l.get_start_lsn().0 <= lsn.0 && l.covers_seg(seg) {
                return Some(l);
            }
        }
        if let Some(l) = &self.frozen_layer {
            if l.get_start_lsn().0 <= lsn.0 && l.covers_seg(seg) {
                return Some(l);
            }
        }
        let ghost hv = self@.historic;
        let mut best: Option<usize> = None;
        let mut i: usize = 0;
        assert(hv.take(0) =~= Seq::empty());
        while i < self.historic.len()
            invariant
                hv == self@.historic,
                i <= hv.len(),
                match best {
                    Some(b) => b < i && best_historic(hv.take(i as int), seg, lsn) == Some(b as int),
                    None => best_historic(hv.take(i as int), seg, lsn) is None,
                },
            decreases hv.len() - i,
        {
            assert(hv.take(i + 1).drop_last() =~= hv.take(i as int));
            let l = &self.historic[i];
            if l.get_start_lsn().0 <= lsn.0 && l.covers_seg(seg) {
                let wins = match best {
                    None => true,
                    Some(b) => {
                        let o = &self.historic[b];
                        l.get_start_lsn().0 > o.get_start_lsn().0 || (l.get_start_lsn().0
                            == o.get_start_lsn().0 && l.get_kind() == LayerKind::Image && o.get_kind()
                            != LayerKind::Image)
                    },
                };
                if wins {
                    best = Some(i);
                }
            }
            i = i + 1;
        }
        assert(hv.take(i as int) =~= hv);
        match best {
            Some(b) => Some(&self.historic[b]),
            None => None,
        }
    }

    /// Adds a flushed layer.
    pub fn insert_historic(&mut self, layer: Layer)
        ensures
            final(self)@ == old(self)@.with_historic(layer@),
    {
        self.historic.push(layer);
        assert(final(self)@.historic =~= old(self)@.historic.push(layer@));
    }

    /// Whether an image layer of `seg` starts after `after` and ends at or before `ceiling`.
    pub fn newer_image_layer_exists(&self, seg: SegmentTag, after: Lsn, ceiling: Lsn) -> (r: bool)
        ensures
            r == self@.newer_image_layer_exists(seg, after, ceiling),
    {
        let mut i: usize = 0;
        while i < self.historic.len()
            invariant
                i <= self@.historic.len(),
                forall|j: int| 0 <= j < i ==> !is_newer_image(#[trigger] self@.historic[j], seg, after, ceiling),
            decreases self@.historic.len() - i,
        {
            let l = &self.historic[i];
            if l.get_kind() == LayerKind::Image && l.covers_seg(seg) && l.get_start_lsn().0 > after.0
                && l.get_end_lsn().0 <= ceiling.0 {
                assert(is_newer_image(self@.historic[i as int], seg, after, ceiling));
                return true;
            }
            i = i + 1;
        }
        false
    }

    /// Adds to `out` the relishes that `l` covers, each with what the map's layers say of it.
    fn list_layer(&self, l: &Layer, tag: Option<RelTag>, lsn: Lsn, out: &mut Vec<(RelishTag, bool)>)
        requires
            list_sound(self@, tag, lsn, old(out)@),
            list_distinct(old(out)@),
        ensures
            list_sound(self@, tag, lsn, final(out)@),
            list_distinct(final(out)@),
            list_extends(old(out)@, final(out)@),
            layer_listed(l@, self@, tag, lsn, final(out)@),
    {
        let n: usize = l.seg_count();
        let mut j: usize = 0;
        while j < n
            invariant
                j <= n,
                n == l@.segs.len(),
                list_sound(self@, tag, lsn, out@),
                list_distinct(out@),
                list_extends(old(out)@, out@),
                forall|i: int| 0 <= i < j ==> seg_listed(#[trigger] l@.segs[i], self@, tag, lsn, out@),
            decreases n - j,
        {
            let c = l.seg_at(j);
            let ghost before = out@;
            if c.seg.segno == 0 && tag_takes(tag, c.seg.rel) && !list_has(out, c.seg.rel) {
                let seg = SegmentTag { rel: c.seg.rel, segno: 0 };
                match self.get(seg, lsn) {
                    Some(found) => {
                        let exists = found.get_seg_exists(seg, lsn);
                        out.push((c.seg.rel, exists));
                        assert(out@[out@.len() - 1].0 == c.seg.rel);
                    },
                    None => {},
                }
            }
            assert forall|i: int| 0 <= i < j + 1 implies seg_listed(
                #[trigger] l@.segs[i],
                self@,
                tag,
                lsn,
                out@,
            ) by {
                let ci = l@.segs[i];
                if i < j {
                    assert(seg_listed(ci, self@, tag, lsn, before));
                    if lists_rel(before, ci.seg.rel) {
                        let k = choose|k: int| 0 <= k < before.len() && (#[trigger] before[k]).0 == ci.seg.rel;
                        assert(out@[k].0 == ci.seg.rel);
                    }
                } else if lists_rel(before, ci.seg.rel) {
                    let k = choose|k: int| 0 <= k < before.len() && (#[trigger] before[k]).0 == ci.seg.rel;
                    assert(out@[k].0 == ci.seg.rel);
                }
            }
            j = j + 1;
        }
    }

    /// What the map's layers say at `lsn` of each relish that the request
    /// takes and that they speak of: `true` where it exists, `false` where
    /// it is dropped. No relish comes twice.
    pub fn list_relishes(&self, tag: Option<RelTag>, lsn: Lsn) -> (r: Vec<(RelishTag, bool)>)
        ensures
            list_sound(self@, tag, lsn, r@),
            list_distinct(r@),
            forall|rel: RelishTag|
                tag_matches(tag, rel) && self@.observes(rel, lsn) is Some ==> lists_rel(r@, rel),
    {
        let mut out: Vec<(RelishTag, bool)> = Vec::new();
        if let Some(l) = &self.open_layer {
            self.list_layer(l, tag, lsn, &mut out);
        }
        let ghost after_open = out@;
        if let Some(l) = &self.frozen_layer {
            self.list_layer(l, tag, lsn, &mut out);
        }
        let ghost after_frozen = out@;
        let mut i: usize = 0;
        while i < self.historic.len()
            invariant
                i <= self@.historic.len(),
                list_sound(self@, tag, lsn, out@),
                list_distinct(out@),
                list_extends(after_frozen, out@),
                forall|k: int| 0 <= k < i ==> layer_listed(#[trigger] self@.historic[k], self@, tag, lsn, out@),
            decreases self@.historic.len() - i,
        {
            let ghost before = out@;
            self.list_layer(&self.historic[i], tag, lsn, &mut out);
            assert forall|k: int| 0 <= k < i + 1 implies layer_listed(
                #[trigger] self@.historic[k],
                self@,
                tag,
                lsn,
                out@,
            ) by {
                if k < i {
                    lemma_listed_extends(self@.historic[k], self@, tag, lsn, before, out@);
                }
            }
            i = i + 1;
        }
        proof {
            assert forall|rel: RelishTag|
                tag_matches(tag, rel) && self@.observes(rel, lsn) is Some implies lists_rel(out@, rel) by {
                let seg = SegmentTag { rel, segno: 0 };
                let l = self@.get(seg, lsn)->0;
                lemma_best_historic(self@.historic, seg, lsn);
                assert(l.covers_seg(seg));
                lemma_find_seg_some(l.segs, seg);
                let j = choose|j: int| 0 <= j < l.segs.len() && (#[trigger] l.segs[j]).seg == seg;
                if self@.open_layer is Some && qualifies(self@.open_layer->0, seg, lsn) {
                    assert(layer_listed(l, self@, tag, lsn, after_open));
                    lemma_listed_extends(l, self@, tag, lsn, after_open, out@);
                } else if self@.frozen_layer is Some && qualifies(self@.frozen_layer->0, seg, lsn) {
                    assert(layer_listed(l, self@, tag, lsn, after_frozen));
                    lemma_listed_extends(l, self@, tag, lsn, after_frozen, out@);
                } else {
                    let b = best_historic(self@.historic, seg, lsn)->0;
                    assert(layer_listed(self@.historic[b], self@, tag, lsn, out@));
                }
                assert(seg_listed(l.segs[j], self@, tag, lsn, out@));
            }
        }
        out
    }

    /// Whether `seg` exists at `lsn` as far as this map's layers say.
    pub fn layer_exists_at_lsn(&self, seg: SegmentTag, lsn: Lsn) -> (r: bool)
        ensures
            r == self@.layer_exists_at_lsn(seg, lsn),
    {
        match self.get(seg, lsn) {
            Some(l) => l.get_seg_exists(seg, lsn),
            None => false,
        }
    }
}

} // verus!
