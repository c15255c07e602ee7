//! Loading a timeline from what is found in its directory.
//!
//! After a crash the directory may hold layer files that were written
//! but not yet vouched for by the metadata. Such files are moved out of
//! the way, under a name that ends in a number and `.old`.

use crate::filename::{
    dec, delta_of, image_of, push_dec, split, DeltaFileName, ImageFileName,
};
use crate::layer::{unread_layer, Layer, LayerKind, LayerView};
use crate::layer_map::{layer_opt_view, layers_view, LayerMapView};
use crate::lsn::Lsn;
use crate::timeline::{LayeredTimeline, TimelineView};
use vstd::prelude::*;

verus! {

/// `metadata`
pub open spec fn metadata_name() -> Seq<u8> {
    seq![109u8, 101u8, 116u8, 97u8, 100u8, 97u8, 116u8, 97u8]
}

/// `.old`
pub open spec fn old_suffix() -> Seq<u8> {
    seq![46u8, 111u8, 108u8, 100u8]
}

/// `ephemeral-`
pub open spec fn ephemeral_prefix() -> Seq<u8> {
    seq![101u8, 112u8, 104u8, 101u8, 109u8, 101u8, 114u8, 97u8, 108u8, 45u8]
}

pub open spec fn ends_with(b: Seq<u8>, suffix: Seq<u8>) -> bool {
    b.len() >= suffix.len() && b.subrange(b.len() - suffix.len(), b.len() as int) == suffix
}

pub open spec fn starts_with(b: Seq<u8>, prefix: Seq<u8>) -> bool {
    b.len() >= prefix.len() && b.take(prefix.len() as int) == prefix
}

/// Whether a name is that of a scratch file of an in-memory layer.
pub open spec fn ephemeral_name(b: Seq<u8>) -> bool {
    starts_with(b, ephemeral_prefix())
}

fn has_suffix(b: &Vec<u8>, suffix: &[u8]) -> (r: bool)
    ensures
        r == ends_with(b@, suffix@),
{
    let n = b.len();
    let m = suffix.len();
    if n < m {
        return false;
    }
    let mut i: usize = 0;
    while i < m
        invariant
            i <= m,
            m == suffix@.len(),
            n == b@.len(),
            m <= n,
            forall|j: int| 0 <= j < i ==> b@[n - m + j] == suffix@[j],
        decreases m - i,
    {
        if b[n - m + i] != suffix[i] {
            assert(b@.subrange(n - m, n as int)[i as int] != suffix@[i as int]);
            return false;
        }
        i = i + 1;
    }
    assert(b@.subrange(n - m, n as int) =~= suffix@);
    true
}

fn has_prefix(b: &Vec<u8>, prefix: &[u8]) -> (r: bool)
    ensures
        r == starts_with(b@, prefix@),
{
    let n = b.len();
    let m = prefix.len();
    if n < m {
        return false;
    }
    let mut i: usize = 0;
    while i < m
        invariant
            i <= m,
            m == prefix@.len(),
            n == b@.len(),
            m <= n,
            forall|j: int| 0 <= j < i ==> b@[j] == prefix@[j],
        decreases m - i,
    {
        if b[i] != prefix[i] {
            assert(b@.take(m as int)[i as int] != prefix@[i as int]);
            return false;
        }
        i = i + 1;
    }
    assert(b@.take(m as int) =~= prefix@);
    true
}

/// Whether a name is that of a scratch file of an in-memory layer.
pub fn is_ephemeral_file(filename: &Vec<u8>) -> (r: bool)
    ensures
        r == ephemeral_name(filename@),
{
    let w: [u8; 10] = [101, 112, 104, 101, 109, 101, 114, 97, 108, 45];
    assert(w@ =~= ephemeral_prefix());
    has_prefix(filename, w.as_slice())
}

/// What is to be done with a file of a timeline's directory.
#[derive(Clone, Copy, Debug, PartialEq, Eq, Structural)]
pub enum FileAction {
    /// A layer file within what the metadata vouches for: a layer for it
    /// has gone into the map, and the file stays where it is.
    Loaded,
    /// A layer file from beyond `disk_consistent_lsn`, or a file that is
    /// none of the others: to be moved out of the way.
    RenameToBackup,
    /// The metadata file, or a file moved out of the way before: to be left alone.
    Ignored,
    /// A scratch file: to be deleted.
    RemoveEphemeral,
}

/// Why a directory could not be loaded.
#[derive(Clone, Copy, Debug, PartialEq, Eq, Structural)]
pub enum LayerLoadError {
    /// The name of a delta layer file gives it no LSN range: the file at this place.
    EmptyDelta(usize),
}

/// A file of a timeline's directory: its name, and, for a layer file
/// that could be read, the layer that it holds.
pub struct LayerFile {
    pub name: Vec<u8>,
    pub layer: Option<Layer>,
}

pub struct LayerFileView {
    pub name: Seq<u8>,
    pub layer: Option<LayerView>,
}

impl View for LayerFile {
    type V = LayerFileView;

    open spec fn view(&self) -> LayerFileView {
        LayerFileView { name: self.name@, layer: layer_opt_view(self.layer) }
    }
}

pub open spec fn files_view(s: Seq<LayerFile>) -> Seq<LayerFileView> {
    Seq::new(s.len(), |i: int| s[i]@)
}

/// Whether a layer is what the name of an image layer file says.
pub open spec fn is_image_of(l: LayerView, n: ImageFileName) -> bool {
    l.kind == LayerKind::Image && l.start_lsn == n.lsn && l.end_lsn is Some && l.covers_seg(n.seg)
}

/// Whether a layer is what the name of a delta layer file says.
pub open spec fn is_delta_of(l: LayerView, n: DeltaFileName) -> bool {
    l.kind == LayerKind::Delta && l.start_lsn == n.start_lsn && l.end_lsn == Some(n.end_lsn) && l.covers_seg(n.seg)
}

/// Whether a name is that of a layer file from beyond
/// `disk_consistent_lsn`: an image layer above it, or a delta layer
/// that ends more than one above it.
pub open spec fn future_layer(name: Seq<u8>, disk_consistent_lsn: Lsn) -> bool {
    match image_of(split(name)) {
        Some(n) => n.lsn.0 > disk_consistent_lsn.0,
        None => match delta_of(split(name)) {
            Some(n) => n.start_lsn.0 < n.end_lsn.0 && n.end_lsn.0 > disk_consistent_lsn.0 + 1,
            None => false,
        },
    }
}

/// Whether a name is none that a timeline's directory is meant to
/// hold: no layer file, not the metadata file, no file moved out of the
/// way before, no scratch file.
pub open spec fn unrecognized_name(name: Seq<u8>) -> bool {
    image_of(split(name)) is None && delta_of(split(name)) is None && name != metadata_name() && !ends_with(
        name,
        old_suffix(),
    ) && !ephemeral_name(name)
}

/// What is to be done with the file at place `i`. It goes by the name
/// alone: what the file holds decides only which layer stands for it.
#[verifier::opaque]
pub open spec fn file_action(f: LayerFileView, i: int, disk_consistent_lsn: Lsn) -> Result<
    FileAction,
    LayerLoadError,
> {
    match image_of(split(f.name)) {
        Some(n) => if n.lsn.0 > disk_consistent_lsn.0 {
            Ok(FileAction::RenameToBackup)
        } else {
            Ok(FileAction::Loaded)
        },
        None => match delta_of(split(f.name)) {
            Some(n) => if n.start_lsn.0 >= n.end_lsn.0 {
                Err(LayerLoadError::EmptyDelta(i as usize))
            } else if n.end_lsn.0 > disk_consistent_lsn.0 + 1 {
                Ok(FileAction::RenameToBackup)
            } else {
                Ok(FileAction::Loaded)
            },
            None => if f.name == metadata_name() || ends_with(f.name, old_suffix()) {
                Ok(FileAction::Ignored)
            } else if ephemeral_name(f.name) {
                Ok(FileAction::RemoveEphemeral)
            } else {
                Ok(FileAction::RenameToBackup)
            },
        },
    }
}

/// The layer that stands in the map for a layer file: the layer that
/// was read from it, if one was and it is what the name says; else a
/// layer that is known by the name alone and cannot be read.
pub open spec fn layer_of_file(f: LayerFileView) -> LayerView {
    match image_of(split(f.name)) {
        Some(n) => if f.layer is Some && f.layer->0.readable && is_image_of(f.layer->0, n) {
            f.layer->0
        } else {
            unread_layer(LayerKind::Image, n.seg, n.lsn, Lsn((n.lsn.0 + 1) as u64))
        },
        None => {
            let n = delta_of(split(f.name))->0;
            if f.layer is Some && f.layer->0.readable && is_delta_of(f.layer->0, n) {
                f.layer->0
            } else {
                unread_layer(LayerKind::Delta, n.seg, n.start_lsn, n.end_lsn)
            }
        },
    }
}

/// What is to be done with the first `k` files, up to the first that cannot be loaded.
pub open spec fn file_actions(files: Seq<LayerFileView>, disk_consistent_lsn: Lsn, k: int) -> Result<
    Seq<FileAction>,
    LayerLoadError,
>
    decreases k,
{
    if k <= 0 {
        Ok(Seq::empty())
    } else {
        match file_actions(files, disk_consistent_lsn, k - 1) {
            Err(e) => Err(e),
            Ok(a) => match file_action(files[k - 1], k - 1, disk_consistent_lsn) {
                Err(e) => Err(e),
                Ok(x) => Ok(a.push(x)),
            },
        }
    }
}

/// The layers of the first `k` files that go into the map, in order.
pub open spec fn loaded_layers(files: Seq<LayerFileView>, disk_consistent_lsn: Lsn, k: int) -> Seq<LayerView>
    decreases k,
{
    if k <= 0 {
        Seq::empty()
    } else if file_action(files[k - 1], k - 1, disk_consistent_lsn) == Ok::<FileAction, LayerLoadError>(
        FileAction::Loaded,
    ) {
        loaded_layers(files, disk_consistent_lsn, k - 1).push(layer_of_file(files[k - 1]))
    } else {
        loaded_layers(files, disk_consistent_lsn, k - 1)
    }
}

/// No layer that goes into the map reaches beyond what the metadata
/// vouches for: each is closed, and ends at `disk_consistent_lsn + 1` at most.
pub proof fn lemma_loaded_within(files: Seq<LayerFileView>, disk_consistent_lsn: Lsn, k: int)
    requires
        0 <= k <= files.len(),
        disk_consistent_lsn.0 < u64::MAX,
    ensures
        forall|j: int|
            0 <= j < loaded_layers(files, disk_consistent_lsn, k).len() ==> {
                let l = #[trigger] loaded_layers(files, disk_consistent_lsn, k)[j];
                &&& l.end_lsn is Some
                &&& l.kind == LayerKind::Delta ==> l.end_or_max().0 <= disk_consistent_lsn.0 + 1
                &&& l.kind == LayerKind::Image ==> l.start_lsn.0 <= disk_consistent_lsn.0
                &&& l.kind != LayerKind::InMemory
            },
    decreases k,
{
    reveal(file_action);
    if k > 0 {
        lemma_loaded_within(files, disk_consistent_lsn, k - 1);
        let prev = loaded_layers(files, disk_consistent_lsn, k - 1);
        let cur = loaded_layers(files, disk_consistent_lsn, k);
        assert forall|j: int| 0 <= j < cur.len() implies {
            let l = #[trigger] cur[j];
            &&& l.end_lsn is Some
            &&& l.kind == LayerKind::Delta ==> l.end_or_max().0 <= disk_consistent_lsn.0 + 1
            &&& l.kind == LayerKind::Image ==> l.start_lsn.0 <= disk_consistent_lsn.0
            &&& l.kind != LayerKind::InMemory
        } by {
            if j < prev.len() {
                assert(cur[j] == prev[j]);
            }
        }
    }
}

impl TimelineView {
    /// The timeline after the layers of a directory have gone into its
    /// map: its next open layer starts just above `disk_consistent_lsn`.
    pub open spec fn with_loaded(self, layers: Seq<LayerView>, disk_consistent_lsn: Lsn) -> TimelineView {
        TimelineView {
            layers: LayerMapView {
                historic: self.layers.historic + layers,
                next_open_layer_at: Some(Lsn((disk_consistent_lsn.0 + 1) as u64)),
                ..self.layers
            },
            ..self
        }
    }
}

fn tok_is(a: &Vec<u8>, b: &[u8]) -> (r: bool)
    ensures
        r == (a@ == b@),
{
    if a.len() != b.len() {
        return false;
    }
    let mut i: usize = 0;
    while i < a.len()
        invariant
            i <= a@.len(),
            a@.len() == b@.len(),
            forall|j: int| 0 <= j < i ==> a@[j] == b@[j],
        decreases a@.len() - i,
    {
        if a[i] != b[i] {
            return false;
        }
        i = i + 1;
    }
    assert(a@ =~= b@);
    true
}

/// What is to be done with the file at place `i`.
pub fn classify_file(f: &LayerFile, i: usize, disk_consistent_lsn: Lsn) -> (r: Result<FileAction, LayerLoadError>)
    requires
        disk_consistent_lsn.0 < u64::MAX,
    ensures
        r == file_action(f@, i as int, disk_consistent_lsn),
{
    reveal(file_action);
    match ImageFileName::parse_str(&f.name) {
        Some(n) => {
            if n.lsn.0 > disk_consistent_lsn.0 {
                Ok(FileAction::RenameToBackup)
            } else {
                Ok(FileAction::Loaded)
            }
        },
        None => match DeltaFileName::parse_str(&f.name) {
            Some(n) => {
                if n.start_lsn.0 >= n.end_lsn.0 {
                    Err(LayerLoadError::EmptyDelta(i))
                } else if n.end_lsn.0 > disk_consistent_lsn.0 + 1 {
                    Ok(FileAction::RenameToBackup)
                } else {
                    Ok(FileAction::Loaded)
                }
            },
            None => {
                let meta: [u8; 8] = [109, 101, 116, 97, 100, 97, 116, 97];
                let old: [u8; 4] = [46, 111, 108, 100];
                assert(meta@ =~= metadata_name());
                assert(old@ =~= old_suffix());
                if tok_is(&f.name, meta.as_slice()) || has_suffix(&f.name, old.as_slice()) {
                    Ok(FileAction::Ignored)
                } else if is_ephemeral_file(&f.name) {
                    Ok(FileAction::RemoveEphemeral)
                } else {
                    Ok(FileAction::RenameToBackup)
                }
            },
        },
    }
}

/// The layer that stands in the map for a layer file.
pub(crate) fn layer_for_file(f: LayerFile, Ghost(i): Ghost<int>, disk_consistent_lsn: Lsn) -> (l: Layer)
    requires
        disk_consistent_lsn.0 < u64::MAX,
        file_action(f@, i, disk_consistent_lsn) == Ok::<FileAction, LayerLoadError>(FileAction::Loaded),
    ensures
        l@ == layer_of_file(f@),
{
    reveal(file_action);
    match ImageFileName::parse_str(&f.name) {
        Some(n) => {
            match f.layer {
                Some(l) => {
                    if l.is_readable() && l.get_kind() == LayerKind::Image && l.get_start_lsn().0 == n.lsn.0
                        && l.is_frozen() && l.covers_seg(n.seg) {
                        return l;
                    }
                },
                None => {},
            }
            Layer::unread(LayerKind::Image, n.seg, n.lsn, Lsn(n.lsn.0 + 1))
        },
        None => match DeltaFileName::parse_str(&f.name) {
            Some(n) => {
                match f.layer {
                    Some(l) => {
                        if l.is_readable() && l.get_kind() == LayerKind::Delta && l.get_start_lsn().0
                            == n.start_lsn.0 && l.is_frozen() && l.get_end_lsn().0 == n.end_lsn.0 && l.covers_seg(
                            n.seg,
                        ) {
                            return l;
                        }
                    },
                    None => {},
                }
                Layer::unread(LayerKind::Delta, n.seg, n.start_lsn, n.end_lsn)
            },
            None => Layer::unread(LayerKind::Delta, crate::relish::SegmentTag { rel: crate::relish::RelishTag::ControlFile, segno: 0 }, Lsn(0), Lsn(0)),
        },
    }
}

impl LayeredTimeline {
    /// Takes the layers of the timeline's directory into the map.
    ///
    /// `files` is what the directory holds; the timeline is one that has
    /// just been opened, with nothing held in memory. A layer file from beyond
    /// `disk_consistent_lsn` is left out of the map, to be moved out of
    /// the way; every other layer file goes in. Where a file cannot be
    /// loaded, nothing changes.
    pub fn load_layer_map(&mut self, disk_consistent_lsn: Lsn, files: Vec<LayerFile>) -> (r: Result<
        Vec<FileAction>,
        LayerLoadError,
    >)
        requires
            old(self).wf(),
            old(self)@.layers.open_layer is None,
            old(self)@.layers.frozen_layer is None,
            disk_consistent_lsn.0 < u64::MAX,
        ensures
            final(self).wf(),
            match file_actions(files_view(files@), disk_consistent_lsn, files@.len() as int) {
                Ok(actions) => r is Ok && r->Ok_0@ == actions && final(self)@ == old(self)@.with_loaded(
                    loaded_layers(files_view(files@), disk_consistent_lsn, files@.len() as int),
                    disk_consistent_lsn,
                ),
                Err(e) => r == Err::<Vec<FileAction>, LayerLoadError>(e) && final(self)@ == old(self)@,
            },
    {
        let ghost fv = files_view(files@);
        let n: usize = files.len();
        let mut actions: Vec<FileAction> = Vec::new();
        let mut k: usize = 0;
        while k < n
            invariant
                k <= n,
                n == files@.len(),
                fv == files_view(files@),
                disk_consistent_lsn.0 < u64::MAX,
                *self == *old(self),
                self.wf(),
                actions@.len() == k,
                file_actions(fv, disk_consistent_lsn, k as int) == Ok::<Seq<FileAction>, LayerLoadError>(actions@),
            decreases n - k,
        {
            assert(fv[k as int] == files@[k as int]@);
            match classify_file(&files[k], k, disk_consistent_lsn) {
                Err(e) => {
                    proof {
                        lemma_actions_err(fv, disk_consistent_lsn, k as int + 1, n as int);
                    }
                    return Err(e);
                },
                Ok(a) => {
                    actions.push(a);
                },
            }
            k = k + 1;
        }
        let mut files = files;
        let ghost h0 = self@.layers.historic;
        let ghost hist0 = self.layers.historic@;
        let mut loaded: Vec<Layer> = Vec::new();
        proof {
            lemma_loaded_within(fv, disk_consistent_lsn, n as int);
        }
        // The files are taken from the last to the first, and their layers put in order afterwards.
        let mut j: usize = n;
        assert(layers_view(loaded@) =~= Seq::empty());
        while j > 0
            invariant
                j <= n,
                files@.len() == j,
                disk_consistent_lsn.0 < u64::MAX,
                n == fv.len(),
                n == actions@.len(),
                forall|i: int| 0 <= i < j ==> (#[trigger] files@[i])@ == fv[i],
                file_actions(fv, disk_consistent_lsn, n as int) == Ok::<Seq<FileAction>, LayerLoadError>(actions@),
                layers_view(loaded@).len() + loaded_layers(fv, disk_consistent_lsn, j as int).len()
                    == loaded_layers(fv, disk_consistent_lsn, n as int).len(),
                forall|i: int|
                    0 <= i < loaded@.len() ==> (#[trigger] loaded@[i])@ == loaded_layers(
                        fv,
                        disk_consistent_lsn,
                        n as int,
                    )[loaded_layers(fv, disk_consistent_lsn, n as int).len() - 1 - i],
            decreases j,
        {
            proof {
                reveal(file_action);
                lemma_actions_index(fv, disk_consistent_lsn, n as int, j as int - 1);
                lemma_loaded_prefix(fv, disk_consistent_lsn, j as int, n as int);
                lemma_loaded_prefix(fv, disk_consistent_lsn, j as int - 1, n as int);
                assert(file_action(fv[j - 1], j - 1, disk_consistent_lsn) == Ok::<FileAction, LayerLoadError>(
                    actions@[j - 1],
                ));
            }
            let ghost lj = loaded_layers(fv, disk_consistent_lsn, j as int);
            j = j - 1;
            let f = files.pop();
            match f {
                Some(f) => {
                    assert(f@ == fv[j as int]);
                    match actions[j] {
                        FileAction::Loaded => {
                            loaded.push(layer_for_file(f, Ghost(j as int), disk_consistent_lsn));
                        },
                        _ => {},
                    }
                },
                None => {},
            }
        }
        let ghost want = loaded_layers(fv, disk_consistent_lsn, n as int);
        assert(loaded@.len() == want.len());
        let mut m: usize = loaded.len();
        while m > 0
            invariant
                m <= want.len(),
                loaded@.len() == m,
                forall|i: int| 0 <= i < m ==> (#[trigger] loaded@[i])@ == want[want.len() - 1 - i],
                layers_view(self.layers.historic@) == h0 + want.take(want.len() - m),
                self.layers.open_layer == old(self).layers.open_layer,
                self.layers.frozen_layer == old(self).layers.frozen_layer,
                self.layers.next_open_layer_at == old(self).layers.next_open_layer_at,
                self.tenantid == old(self).tenantid,
                self.timelineid == old(self).timelineid,
                self.last_record_lsn == old(self).last_record_lsn,
                self.disk_consistent_lsn == old(self).disk_consistent_lsn,
                self.ancestor_timeline == old(self).ancestor_timeline,
                self.ancestor_lsn == old(self).ancestor_lsn,
                self.current_logical_size == old(self).current_logical_size,
                self.relish_size_cache == old(self).relish_size_cache,
                self.upload_relishes == old(self).upload_relishes,
                self.latest_gc_cutoff_lsn == old(self).latest_gc_cutoff_lsn,
                self.initdb_lsn == old(self).initdb_lsn,
            decreases m,
        {
            let ghost last = loaded@[m - 1];
            let ghost hist = layers_view(self.layers.historic@);
            assert(last@ == want[want.len() - m]);
            let l = loaded.pop();
            m = m - 1;
            match l {
                Some(l) => {
                    assert(l == last);
                    self.layers.historic.push(l);
                    assert(layers_view(self.layers.historic@) =~= hist.push(l@));
                    assert(want.take(want.len() - m) =~= want.take(want.len() - m - 1).push(want[want.len() - m - 1]));
                    assert(layers_view(self.layers.historic@) =~= h0 + want.take(want.len() - m));
                },
                None => {},
            }
        }
        assert(want.take(want.len() as int) =~= want);
        self.layers.next_open_layer_at = Some(Lsn(disk_consistent_lsn.0 + 1));
        proof {
            let h = self@.layers.historic;
            assert forall|i: int| 0 <= i < h.len() implies (#[trigger] h[i]).end_lsn is Some by {
                if i < h0.len() {
                    assert(h[i] == old(self)@.layers.historic[i]);
                } else {
                    assert(h[i] == want[i - h0.len()]);
                }
            }
        }
        Ok(actions)
    }
}

/// Where the first `k` files cannot all be loaded, the first `n` cannot, for the same reason.
pub proof fn lemma_actions_err(files: Seq<LayerFileView>, disk_consistent_lsn: Lsn, k: int, n: int)
    requires
        0 <= k <= n,
        file_actions(files, disk_consistent_lsn, k) is Err,
    ensures
        file_actions(files, disk_consistent_lsn, n) == file_actions(files, disk_consistent_lsn, k),
    decreases n - k,
{
    if k < n {
        lemma_actions_err(files, disk_consistent_lsn, k + 1, n);
    }
}

/// The list of what is to be done says of each file what is to be done with it.
pub proof fn lemma_actions_index(files: Seq<LayerFileView>, disk_consistent_lsn: Lsn, n: int, i: int)
    requires
        0 <= i < n,
        file_actions(files, disk_consistent_lsn, n) is Ok,
    ensures
        file_actions(files, disk_consistent_lsn, n)->Ok_0.len() == n,
        file_action(files[i], i, disk_consistent_lsn) == Ok::<FileAction, LayerLoadError>(
            file_actions(files, disk_consistent_lsn, n)->Ok_0[i],
        ),
    decreases n,
{
    if n > 0 {
        if n - 1 > 0 {
            lemma_actions_index(files, disk_consistent_lsn, n - 1, if i < n - 1 {
                i
            } else {
                0
            });
        }
        lemma_actions_len(files, disk_consistent_lsn, n - 1);
    }
}

pub proof fn lemma_actions_len(files: Seq<LayerFileView>, disk_consistent_lsn: Lsn, n: int)
    requires
        0 <= n,
        file_actions(files, disk_consistent_lsn, n) is Ok,
    ensures
        file_actions(files, disk_consistent_lsn, n)->Ok_0.len() == n,
    decreases n,
{
    if n > 0 {
        lemma_actions_len(files, disk_consistent_lsn, n - 1);
    }
}

/// The layers loaded from the first `k` files are the first of those loaded from the first `n`.
pub proof fn lemma_loaded_prefix(files: Seq<LayerFileView>, disk_consistent_lsn: Lsn, k: int, n: int)
    requires
        0 <= k <= n,
    ensures
        loaded_layers(files, disk_consistent_lsn, k).len() <= loaded_layers(files, disk_consistent_lsn, n).len(),
        forall|i: int|
            0 <= i < loaded_layers(files, disk_consistent_lsn, k).len() ==> loaded_layers(
                files,
                disk_consistent_lsn,
                k,
            )[i] == loaded_layers(files, disk_consistent_lsn, n)[i],
    decreases n - k,
{
    if k < n {
        lemma_loaded_prefix(files, disk_consistent_lsn, k, n - 1);
    }
}

/// `name`, and after it `.`, the number `n`, and `.old`.
pub open spec fn backup_name(name: Seq<u8>, n: u32) -> Seq<u8> {
    name + seq![46u8] + dec(n as nat) + old_suffix()
}

pub open spec fn names_view(s: Seq<Vec<u8>>) -> Seq<Seq<u8>> {
    Seq::new(s.len(), |i: int| s[i]@)
}

fn backup_file_name(filename: &Vec<u8>, n: u32) -> (v: Vec<u8>)
    ensures
        v@ == backup_name(filename@, n),
{
    let mut v: Vec<u8> = Vec::new();
    let mut i: usize = 0;
    while i < filename.len()
        invariant
            i <= filename@.len(),
            v@ == filename@.take(i as int),
        decreases filename@.len() - i,
    {
        v.push(filename[i]);
        i = i + 1;
        assert(v@ =~= filename@.take(i as int));
    }
    assert(filename@.take(i as int) =~= filename@);
    v.push(46);
    push_dec(&mut v, n);
    v.push(46);
    v.push(111);
    v.push(108);
    v.push(100);
    assert(v@ =~= backup_name(filename@, n));
    v
}

fn name_taken(taken: &Vec<Vec<u8>>, name: &Vec<u8>) -> (r: bool)
    ensures
        r == names_view(taken@).contains(name@),
{
    let mut i: usize = 0;
    while i < taken.len()
        invariant
            i <= taken@.len(),
            forall|j: int| 0 <= j < i ==> names_view(taken@)[j] != name@,
        decreases taken@.len() - i,
    {
        if tok_is(&taken[i], name.as_slice()) {
            assert(names_view(taken@)[i as int] == name@);
            return true;
        }
        i = i + 1;
    }
    false
}

/// The name under which a file is moved out of the way: its own name
/// with `.N.old` after it, for the least `N` that gives a name not yet
/// taken in the directory. `None` where every such name is taken.
pub fn rename_to_backup(filename: &Vec<u8>, taken: &Vec<Vec<u8>>) -> (r: Option<(u32, Vec<u8>)>)
    ensures
        match r {
            Some(found) => found.1@ == backup_name(filename@, found.0) && !names_view(taken@).contains(found.1@)
                && forall|m: u32| m < found.0 ==> names_view(taken@).contains(#[trigger] backup_name(filename@, m)),
            None => forall|m: u32| names_view(taken@).contains(#[trigger] backup_name(filename@, m)),
        },
{
    let mut n: u32 = 0;
    loop
        invariant
            forall|m: u32| m < n ==> names_view(taken@).contains(#[trigger] backup_name(filename@, m)),
        decreases u32::MAX - n,
    {
        let name = backup_file_name(filename, n);
        if !name_taken(taken, &name) {
            return Some((n, name));
        }
        if n == u32::MAX {
            return None;
        }
        n = n + 1;
    }
}

} // verus!
