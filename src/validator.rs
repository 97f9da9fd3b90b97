//! The four consistency passes over a whole batch of directives.
//!
//! Each pass walks the directives in input order and, within a directive, its path from
//! the innermost segment outwards. What it sees on that walk is a sequence of
//! *sightings*: a path (the key of the sighting), what was seen there (its tag), and the
//! path an error names. A pass fails at the first sighting that contradicts an earlier
//! one with the same key.
use crate::directive::{unescape_path, Directive, DirectiveModel, Path, Segment, SegmentModel};
use std::rc::Rc;
use vstd::prelude::*;

verus! {

/// What a path must be in the document.
#[derive(Clone, Copy, Debug, PartialEq, Eq, Structural)]
pub enum NodeKind {
    Object,
    Array,
    Value,
}

/// What is wrong at the path of a [`PathError`].
#[derive(Debug)]
pub enum PathErrorVariant {
    /// The same key is spelled in two ways.
    InconsistentKeyEncodings { encoding1: Segment, encoding2: Segment },
    /// Two directives give a value to the same path.
    ConflictingDirectives,
    /// The path must be of two kinds at once.
    StructuralConflict { kind1: NodeKind, kind2: NodeKind },
    /// An array has an index but lacks a smaller one.
    IncompleteArray { index_seen: u32, index_missing: u32 },
}

/// A batch of directives that cannot make one document.
#[derive(Debug)]
pub struct PathError {
    pub path: Rc<Path>,
    pub variant: PathErrorVariant,
}

/// The mathematical value of a [`PathErrorVariant`].
pub enum VariantModel {
    InconsistentKeyEncodings { encoding1: SegmentModel, encoding2: SegmentModel },
    ConflictingDirectives,
    StructuralConflict { kind1: NodeKind, kind2: NodeKind },
    IncompleteArray { index_seen: u32, index_missing: u32 },
}

/// The mathematical value of a [`PathError`].
pub struct PathErrorModel {
    pub path: Seq<SegmentModel>,
    pub variant: VariantModel,
}

impl View for PathErrorVariant {
    type V = VariantModel;

    open spec fn view(&self) -> VariantModel {
        match self {
            PathErrorVariant::InconsistentKeyEncodings { encoding1, encoding2 } => {
                VariantModel::InconsistentKeyEncodings { encoding1: encoding1@, encoding2: encoding2@ }
            },
            PathErrorVariant::ConflictingDirectives => VariantModel::ConflictingDirectives,
            PathErrorVariant::StructuralConflict { kind1, kind2 } => {
                VariantModel::StructuralConflict { kind1: *kind1, kind2: *kind2 }
            },
            PathErrorVariant::IncompleteArray { index_seen, index_missing } => {
                VariantModel::IncompleteArray { index_seen: *index_seen, index_missing: *index_missing }
            },
        }
    }
}

impl View for PathError {
    type V = PathErrorModel;

    open spec fn view(&self) -> PathErrorModel {
        PathErrorModel { path: self.path@, variant: self.variant@ }
    }
}

/// The models of a slice of directives.
pub open spec fn models(ds: Seq<Directive>) -> Seq<DirectiveModel> {
    ds.map_values(|d: Directive| d@)
}

// ---------------------------------------------------------------------------
// Sightings and their first contradiction.

/// Something seen at a path while walking the batch.
pub struct Sighting<T> {
    pub key: Seq<SegmentModel>,
    pub tag: T,
    pub at: Seq<SegmentModel>,
}

/// Sighting `j` contradicts an earlier sighting `i` of the same key.
pub open spec fn clash<T>(obs: Seq<Sighting<T>>, i: int, j: int) -> bool {
    0 <= i < j < obs.len() && obs[i].key == obs[j].key && obs[i].tag != obs[j].tag
}

pub open spec fn clashes_at<T>(obs: Seq<Sighting<T>>, j: int) -> bool {
    exists|i: int| clash(obs, i, j)
}

/// The first sighting that contradicts an earlier one.
#[verifier::opaque]
pub open spec fn first_clash<T>(obs: Seq<Sighting<T>>) -> Option<int> {
    if exists|j: int| clashes_at(obs, j) {
        Some(
            choose|j: int|
                clashes_at(obs, j) && forall|k: int| 0 <= k < j ==> !#[trigger] clashes_at(obs, k),
        )
    } else {
        None
    }
}

/// The tag of the sightings before `j` that share its key.
pub open spec fn earlier_tag<T>(obs: Seq<Sighting<T>>, j: int) -> T {
    obs[choose|i: int| 0 <= i < j && obs[i].key == obs[j].key].tag
}

proof fn lemma_first_clash<T>(obs: Seq<Sighting<T>>, i: int, j: int)
    requires
        clash(obs, i, j),
        forall|k: int| 0 <= k < j ==> !#[trigger] clashes_at(obs, k),
    ensures
        first_clash(obs) == Some(j),
        forall|i2: int| 0 <= i2 < j && obs[i2].key == obs[j].key ==> obs[i2].tag == obs[i].tag,
        earlier_tag(obs, j) == obs[i].tag,
{
    reveal(first_clash);
    assert(clashes_at(obs, j));
    let c = choose|c: int|
        clashes_at(obs, c) && forall|k: int| 0 <= k < c ==> !#[trigger] clashes_at(obs, k);
    if c < j {
        assert(!clashes_at(obs, c));
    }
    if c > j {
        assert(!clashes_at(obs, j));
    }
    assert forall|i2: int| 0 <= i2 < j && obs[i2].key == obs[j].key implies obs[i2].tag
        == obs[i].tag by {
        if obs[i2].tag != obs[i].tag {
            if i2 < i {
                assert(clash(obs, i2, i));
                assert(clashes_at(obs, i));
            } else {
                assert(clash(obs, i, i2));
                assert(clashes_at(obs, i2));
            }
        }
    }
}

proof fn lemma_no_clash<T>(obs: Seq<Sighting<T>>)
    requires
        forall|k: int| 0 <= k < obs.len() ==> !#[trigger] clashes_at(obs, k),
    ensures
        first_clash(obs) is None,
{
    reveal(first_clash);
    if exists|j: int| clashes_at(obs, j) {
        let j = choose|j: int| clashes_at(obs, j);
        let i = choose|i: int| clash(obs, i, j);
        assert(clashes_at(obs, j));
    }
}

proof fn lemma_clash_prefix<T>(obs: Seq<Sighting<T>>, pre: Seq<Sighting<T>>)
    requires
        pre.len() <= obs.len(),
        pre =~= obs.take(pre.len() as int),
    ensures
        forall|k: int| 0 <= k < pre.len() ==> clashes_at(pre, k) == #[trigger] clashes_at(obs, k),
{
    assert forall|k: int| 0 <= k < pre.len() implies clashes_at(pre, k) == #[trigger] clashes_at(
        obs,
        k,
    ) by {
        if clashes_at(obs, k) {
            let i = choose|i: int| clash(obs, i, k);
            assert(clash(pre, i, k));
        }
        if clashes_at(pre, k) {
            let i = choose|i: int| clash(pre, i, k);
            assert(clash(obs, i, k));
        }
    }
}

/// A batch's sightings are made of the sightings of its directives, in order.
pub open spec fn concat_sightings<T>(
    ms: Seq<DirectiveModel>,
    of: spec_fn(Seq<SegmentModel>) -> Seq<Sighting<T>>,
) -> Seq<Sighting<T>>
    decreases ms.len(),
{
    if ms.len() == 0 {
        Seq::empty()
    } else {
        concat_sightings(ms.drop_last(), of) + of(ms.last().path)
    }
}

pub(crate) proof fn lemma_concat_prefix<T>(
    ms: Seq<DirectiveModel>,
    of: spec_fn(Seq<SegmentModel>) -> Seq<Sighting<T>>,
    d: int,
)
    requires
        0 <= d <= ms.len(),
    ensures
        concat_sightings(ms.take(d), of).len() <= concat_sightings(ms, of).len(),
        concat_sightings(ms.take(d), of) =~= concat_sightings(ms, of).take(
            concat_sightings(ms.take(d), of).len() as int,
        ),
    decreases ms.len() - d,
{
    if d < ms.len() {
        lemma_concat_prefix(ms, of, d + 1);
        assert(ms.take(d + 1).drop_last() =~= ms.take(d));
    } else {
        assert(ms.take(d) =~= ms);
    }
}

pub(crate) proof fn lemma_concat_step<T>(
    ms: Seq<DirectiveModel>,
    of: spec_fn(Seq<SegmentModel>) -> Seq<Sighting<T>>,
    d: int,
)
    requires
        0 <= d < ms.len(),
    ensures
        concat_sightings(ms.take(d + 1), of) == concat_sightings(ms.take(d), of) + of(ms[d].path),
{
    assert(ms.take(d + 1).drop_last() =~= ms.take(d));
}

/// The state of a pass's table after the sightings `seen`: one entry per key, sighting
/// `i` recorded in entry `slot[i]` with its tag, entry `t` made by sighting `origin[t]`.
pub open spec fn table_agrees<T>(
    keys: Seq<Seq<SegmentModel>>,
    tags: Seq<T>,
    seen: Seq<Sighting<T>>,
    slot: Seq<int>,
    origin: Seq<int>,
) -> bool {
    &&& keys.len() == tags.len() == origin.len()
    &&& slot.len() == seen.len()
    &&& forall|t1: int, t2: int| 0 <= t1 < t2 < keys.len() ==> keys[t1] != keys[t2]
    &&& forall|i: int|
        #![trigger slot[i]]
        0 <= i < seen.len() ==> 0 <= slot[i] < keys.len() && keys[slot[i]] == seen[i].key
            && tags[slot[i]] == seen[i].tag
    &&& forall|t: int|
        #![trigger origin[t]]
        0 <= t < keys.len() ==> 0 <= origin[t] < seen.len() && seen[origin[t]].key == keys[t]
}

proof fn lemma_agree_no_clash<T>(
    keys: Seq<Seq<SegmentModel>>,
    tags: Seq<T>,
    seen: Seq<Sighting<T>>,
    slot: Seq<int>,
    origin: Seq<int>,
)
    requires
        table_agrees(keys, tags, seen, slot, origin),
    ensures
        forall|k: int| 0 <= k < seen.len() ==> !#[trigger] clashes_at(seen, k),
{
    assert forall|k: int| 0 <= k < seen.len() implies !#[trigger] clashes_at(seen, k) by {
        if clashes_at(seen, k) {
            let i = choose|i: int| clash(seen, i, k);
            let (a, b) = (slot[i], slot[k]);
            if a < b {
                assert(keys[a] != keys[b]);
            } else if b < a {
                assert(keys[b] != keys[a]);
            }
        }
    }
}

proof fn lemma_table_hit<T>(
    keys: Seq<Seq<SegmentModel>>,
    tags: Seq<T>,
    seen: Seq<Sighting<T>>,
    slot: Seq<int>,
    origin: Seq<int>,
    s: Sighting<T>,
    t: int,
)
    requires
        table_agrees(keys, tags, seen, slot, origin),
        0 <= t < keys.len(),
        keys[t] == s.key,
    ensures
        seen[origin[t]].tag == tags[t],
        tags[t] == s.tag ==> table_agrees(keys, tags, seen.push(s), slot.push(t), origin),
        tags[t] != s.tag ==> clash(seen.push(s), origin[t], seen.len() as int),
{
    let seen2 = seen.push(s);
    let o = origin[t];
    assert(seen2[o] == seen[o]);
    let so = slot[o];
    if so < t {
        assert(keys[so] != keys[t]);
    } else if t < so {
        assert(keys[t] != keys[so]);
    }
    assert forall|i: int| 0 <= i < seen.len() implies seen2[i] == seen[i] by {}
}

proof fn lemma_table_miss<T>(
    keys: Seq<Seq<SegmentModel>>,
    tags: Seq<T>,
    seen: Seq<Sighting<T>>,
    slot: Seq<int>,
    origin: Seq<int>,
    s: Sighting<T>,
)
    requires
        table_agrees(keys, tags, seen, slot, origin),
        forall|t: int| 0 <= t < keys.len() ==> keys[t] != s.key,
    ensures
        table_agrees(
            keys.push(s.key),
            tags.push(s.tag),
            seen.push(s),
            slot.push(keys.len() as int),
            origin.push(seen.len() as int),
        ),
{
    let seen2 = seen.push(s);
    assert forall|i: int| 0 <= i < seen.len() implies seen2[i] == seen[i] by {}
    let keys2 = keys.push(s.key);
    assert forall|t1: int, t2: int| 0 <= t1 < t2 < keys2.len() implies keys2[t1] != keys2[t2] by {
        if t2 == keys.len() {
            assert(keys[t1] != s.key);
        }
    }
}

// ---------------------------------------------------------------------------
// The sightings of each pass.

/// Key consistency: each key segment, seen at the unescaped path it ends, tagged with
/// its spelling.
pub open spec fn key_sightings_of(p: Seq<SegmentModel>) -> Seq<Sighting<SegmentModel>>
    decreases p.len(),
{
    if p.len() == 0 {
        Seq::empty()
    } else {
        let here = if p.last() is Key {
            seq![Sighting { key: unescape_path(p), tag: p.last(), at: p.drop_last() }]
        } else {
            Seq::empty()
        };
        here + key_sightings_of(p.drop_last())
    }
}

/// Path uniqueness: each directive's path, tagged with the directive's place.
pub open spec fn path_sightings(ms: Seq<DirectiveModel>) -> Seq<Sighting<int>> {
    Seq::new(ms.len(), |d: int| Sighting { key: ms[d].path, tag: d, at: ms[d].path })
}

/// The kind that a segment asks of the path before it.
pub open spec fn kind_of(s: SegmentModel) -> NodeKind {
    match s {
        SegmentModel::Key(_) => NodeKind::Object,
        SegmentModel::Index(_) => NodeKind::Array,
    }
}

/// The kinds that a path asks of each of its proper prefixes, innermost first.
pub open spec fn prefix_kinds(p: Seq<SegmentModel>) -> Seq<Sighting<NodeKind>>
    decreases p.len(),
{
    if p.len() == 0 {
        Seq::empty()
    } else {
        seq![Sighting { key: p.drop_last(), tag: kind_of(p.last()), at: p.drop_last() }]
            + prefix_kinds(p.drop_last())
    }
}

/// Node kinds: the path itself is a value, and each prefix what its next segment asks.
pub open spec fn kind_sightings_of(p: Seq<SegmentModel>) -> Seq<Sighting<NodeKind>> {
    seq![Sighting { key: p, tag: NodeKind::Value, at: p }] + prefix_kinds(p)
}

/// Array completeness: each index segment, seen at the path before it.
pub open spec fn index_sightings_of(p: Seq<SegmentModel>) -> Seq<Sighting<u32>>
    decreases p.len(),
{
    if p.len() == 0 {
        Seq::empty()
    } else {
        let here = match p.last() {
            SegmentModel::Index(n) => seq![Sighting { key: p.drop_last(), tag: n, at: p.drop_last() }],
            SegmentModel::Key(_) => Seq::empty(),
        };
        here + index_sightings_of(p.drop_last())
    }
}

pub open spec fn key_sightings(ms: Seq<DirectiveModel>) -> Seq<Sighting<SegmentModel>> {
    concat_sightings(ms, |p: Seq<SegmentModel>| key_sightings_of(p))
}

pub open spec fn kind_sightings(ms: Seq<DirectiveModel>) -> Seq<Sighting<NodeKind>> {
    concat_sightings(ms, |p: Seq<SegmentModel>| kind_sightings_of(p))
}

pub open spec fn index_sightings(ms: Seq<DirectiveModel>) -> Seq<Sighting<u32>> {
    concat_sightings(ms, |p: Seq<SegmentModel>| index_sightings_of(p))
}

// ---------------------------------------------------------------------------
// What each pass decides.

/// The first key spelled otherwise than at its first sighting.
pub open spec fn key_check(ms: Seq<DirectiveModel>) -> Result<(), PathErrorModel> {
    let obs = key_sightings(ms);
    match first_clash(obs) {
        None => Ok(()),
        Some(j) => Err(
            PathErrorModel {
                path: obs[j].at,
                variant: VariantModel::InconsistentKeyEncodings {
                    encoding1: earlier_tag(obs, j),
                    encoding2: obs[j].tag,
                },
            },
        ),
    }
}

/// The first directive whose path an earlier one has.
pub open spec fn uniqueness_check(ms: Seq<DirectiveModel>) -> Result<(), PathErrorModel> {
    let obs = path_sightings(ms);
    match first_clash(obs) {
        None => Ok(()),
        Some(j) => Err(PathErrorModel { path: obs[j].at, variant: VariantModel::ConflictingDirectives }),
    }
}

/// The first path asked to be of another kind than at its first sighting.
pub open spec fn kind_check(ms: Seq<DirectiveModel>) -> Result<(), PathErrorModel> {
    let obs = kind_sightings(ms);
    match first_clash(obs) {
        None => Ok(()),
        Some(j) => Err(
            PathErrorModel {
                path: obs[j].at,
                variant: VariantModel::StructuralConflict { kind1: earlier_tag(obs, j), kind2: obs[j].tag },
            },
        ),
    }
}

/// The indices seen for the array at `q`.
pub open spec fn indices_at(obs: Seq<Sighting<u32>>, q: Seq<SegmentModel>) -> Set<u32> {
    Set::new(|n: u32| exists|i: int| 0 <= i < obs.len() && obs[i].key == q && obs[i].tag == n)
}

/// Whether the indices seen for `q` are not exactly `0..=max`.
pub open spec fn has_gap(obs: Seq<Sighting<u32>>, q: Seq<SegmentModel>) -> bool {
    exists|m: u32, n: u32| m < n && indices_at(obs, q).contains(n) && !indices_at(obs, q).contains(m)
}

/// The first sighting of an array whose indices have a gap.
pub open spec fn first_gap(obs: Seq<Sighting<u32>>) -> Option<int> {
    if exists|j: int| 0 <= j < obs.len() && has_gap(obs, obs[j].key) {
        Some(
            choose|j: int|
                0 <= j < obs.len() && has_gap(obs, obs[j].key) && forall|k: int|
                    0 <= k < j ==> !has_gap(obs, #[trigger] obs[k].key),
        )
    } else {
        None
    }
}

/// The smallest index missing at `q`.
pub open spec fn least_missing(obs: Seq<Sighting<u32>>, q: Seq<SegmentModel>) -> u32 {
    choose|m: u32| !indices_at(obs, q).contains(m) && forall|k: u32| k < m ==> indices_at(obs, q).contains(k)
}

/// The smallest index present at `q` above `m`.
pub open spec fn least_present_above(obs: Seq<Sighting<u32>>, q: Seq<SegmentModel>, m: u32) -> u32 {
    choose|n: u32|
        indices_at(obs, q).contains(n) && m < n && forall|k: u32| m < k < n ==> !indices_at(obs, q).contains(k)
}

/// The first array, in the order arrays are first seen, whose indices have a gap: the
/// smallest missing index and the smallest present one above it.
pub open spec fn array_check(ms: Seq<DirectiveModel>) -> Result<(), PathErrorModel> {
    let obs = index_sightings(ms);
    match first_gap(obs) {
        None => Ok(()),
        Some(j) => {
            let q = obs[j].key;
            let m = least_missing(obs, q);
            Err(
                PathErrorModel {
                    path: q,
                    variant: VariantModel::IncompleteArray {
                        index_seen: least_present_above(obs, q, m),
                        index_missing: m,
                    },
                },
            )
        },
    }
}

/// The four passes in their order; the first failure decides.
pub open spec fn validate_spec(ms: Seq<DirectiveModel>) -> Result<(), PathErrorModel> {
    if key_check(ms) is Err {
        key_check(ms)
    } else if uniqueness_check(ms) is Err {
        uniqueness_check(ms)
    } else if kind_check(ms) is Err {
        kind_check(ms)
    } else {
        array_check(ms)
    }
}

// ---------------------------------------------------------------------------
// The passes.

pub open spec fn path_views(v: Seq<Rc<Path>>) -> Seq<Seq<SegmentModel>> {
    v.map_values(|p: Rc<Path>| p@)
}

pub open spec fn segment_views(v: Seq<Segment>) -> Seq<SegmentModel> {
    v.map_values(|s: Segment| s@)
}

/// The entry of `keys` that holds `key`.
fn find_path(keys: &Vec<Rc<Path>>, key: &Path) -> (r: Option<usize>)
    ensures
        match r {
            Some(t) => t < keys@.len() && keys@[t as int]@ == key@,
            None => forall|t: int| 0 <= t < keys@.len() ==> keys@[t]@ != key@,
        },
{
    let mut t: usize = 0;
    while t < keys.len()
        invariant
            t <= keys@.len(),
            forall|u: int| 0 <= u < t ==> keys@[u]@ != key@,
        decreases keys@.len() - t,
    {
        if keys[t].same(key) {
            return Some(t);
        }
        t = t + 1;
    }
    None
}

proof fn lemma_clash_found<T>(
    ms: Seq<DirectiveModel>,
    of: spec_fn(Seq<SegmentModel>) -> Seq<Sighting<T>>,
    d: int,
    seen: Seq<Sighting<T>>,
    s: Sighting<T>,
    rest: Seq<Sighting<T>>,
    i: int,
)
    requires
        0 <= d < ms.len(),
        seen.push(s) + rest == concat_sightings(ms.take(d + 1), of),
        forall|k: int| 0 <= k < seen.len() ==> !#[trigger] clashes_at(seen, k),
        clash(seen.push(s), i, seen.len() as int),
    ensures
        first_clash(concat_sightings(ms, of)) == Some(seen.len() as int),
        concat_sightings(ms, of)[seen.len() as int] == s,
        earlier_tag(concat_sightings(ms, of), seen.len() as int) == seen[i].tag,
{
    let full = concat_sightings(ms, of);
    let pre = seen.push(s);
    lemma_concat_prefix(ms, of, d + 1);
    let part = concat_sightings(ms.take(d + 1), of);
    assert(pre =~= part.take(pre.len() as int));
    assert(pre =~= full.take(pre.len() as int));
    lemma_clash_prefix(full, pre);
    assert forall|k: int| 0 <= k < seen.len() implies !#[trigger] clashes_at(pre, k) by {
        if clashes_at(pre, k) {
            let i2 = choose|i2: int| clash(pre, i2, k);
            assert(pre[i2] == seen[i2] && pre[k] == seen[k]);
            assert(clash(seen, i2, k));
            assert(clashes_at(seen, k));
        }
    }
    assert(full[seen.len() as int] == pre[seen.len() as int]);
    assert(full[i] == pre[i]);
    assert(clash(full, i, seen.len() as int));
    lemma_first_clash(full, i, seen.len() as int);
}

proof fn lemma_no_clash_at_end<T>(
    ms: Seq<DirectiveModel>,
    of: spec_fn(Seq<SegmentModel>) -> Seq<Sighting<T>>,
    seen: Seq<Sighting<T>>,
)
    requires
        seen == concat_sightings(ms.take(ms.len() as int), of),
        forall|k: int| 0 <= k < seen.len() ==> !#[trigger] clashes_at(seen, k),
    ensures
        first_clash(concat_sightings(ms, of)) is None,
{
    assert(ms.take(ms.len() as int) =~= ms);
    lemma_no_clash(seen);
}

/// Records that `segment` was seen at `key`: `Ok` with the entry that holds it (a new
/// one at the end where the key is new), `Err` with the entry that holds the key with
/// another segment.
fn record_segment(keys: &mut Vec<Rc<Path>>, tags: &mut Vec<Segment>, key: &Rc<Path>, segment: &Segment) -> (r: Result<usize, usize>)
    requires
        old(keys)@.len() == old(tags)@.len(),
    ensures
        final(keys)@.len() == final(tags)@.len(),
        match r {
            Err(t) => final(keys)@ == old(keys)@ && final(tags)@ == old(tags)@ && t < old(keys)@.len()
                && old(keys)@[t as int]@ == key@ && old(tags)@[t as int]@ != segment@,
            Ok(t) => if t < old(keys)@.len() {
                final(keys)@ == old(keys)@ && final(tags)@ == old(tags)@ && old(keys)@[t as int]@ == key@
                    && old(tags)@[t as int]@ == segment@
            } else {
                t == old(keys)@.len() && path_views(final(keys)@) == path_views(old(keys)@).push(key@)
                    && segment_views(final(tags)@) == segment_views(old(tags)@).push(segment@)
                    && forall|u: int| 0 <= u < old(keys)@.len() ==> old(keys)@[u]@ != key@
            },
        },
{
    match find_path(keys, key) {
        Some(t) => {
            if tags[t] == *segment {
                Ok(t)
            } else {
                Err(t)
            }
        },
        None => {
            let ghost kv = path_views(keys@);
            let ghost tv = segment_views(tags@);
            let t = keys.len();
            keys.push(key.clone());
            tags.push(segment.clone());
            assert(path_views(keys@) =~= kv.push(key@));
            assert(segment_views(tags@) =~= tv.push(segment@));
            Ok(t)
        },
    }
}

/// Fails where one key is spelled in two ways at the same place.
#[verifier::rlimit(40)]
pub fn check_key_consistency(directives: &[Directive]) -> (r: Result<(), PathError>)
    ensures
        match r {
            Ok(_) => key_check(models(directives@)) is Ok,
            Err(e) => key_check(models(directives@)) == Err::<(), PathErrorModel>(e@),
        },
{
    let ghost ms = models(directives@);
    let ghost of = |p: Seq<SegmentModel>| key_sightings_of(p);
    let mut keys: Vec<Rc<Path>> = Vec::new();
    let mut tags: Vec<Segment> = Vec::new();
    let ghost mut seen: Seq<Sighting<SegmentModel>> = Seq::empty();
    let ghost mut slot: Seq<int> = Seq::empty();
    let ghost mut origin: Seq<int> = Seq::empty();
    let mut d: usize = 0;
    assert(ms.take(0) =~= Seq::<DirectiveModel>::empty());
    while d < directives.len()
        invariant
            d <= directives@.len(),
            ms == models(directives@),
            of == (|p: Seq<SegmentModel>| key_sightings_of(p)),
            seen == concat_sightings(ms.take(d as int), of),
            table_agrees(path_views(keys@), segment_views(tags@), seen, slot, origin),
        decreases directives@.len() - d,
    {
        proof {
            lemma_concat_step(ms, of, d as int);
        }
        let mut given = directives[d].path.clone();
        let mut normalized = given.unescape();
        loop
            invariant
                d < directives@.len(),
                ms == models(directives@),
                of == (|p: Seq<SegmentModel>| key_sightings_of(p)),
                seen + key_sightings_of(given@) == concat_sightings(ms.take(d + 1), of),
                normalized@ == unescape_path(given@),
                table_agrees(path_views(keys@), segment_views(tags@), seen, slot, origin),
            ensures
                seen == concat_sightings(ms.take(d + 1), of),
                table_agrees(path_views(keys@), segment_views(tags@), seen, slot, origin),
            decreases given@.len(),
        {
            match given.split_last() {
                None => {
                    assert(seen + key_sightings_of(given@) =~= seen);
                    break;
                },
                Some((prefix, segment)) => {
                    let ghost rest = key_sightings_of(prefix@);
                    let is_key = match segment {
                        Segment::Key(_) => true,
                        Segment::Index(_) => false,
                    };
                    if is_key {
                        let ghost s = Sighting { key: normalized@, tag: segment@, at: prefix@ };
                        assert(key_sightings_of(given@) == seq![s] + rest);
                        assert(seen + key_sightings_of(given@) =~= seen.push(s) + rest);
                        let ghost kv = path_views(keys@);
                        let ghost tv = segment_views(tags@);
                        match record_segment(&mut keys, &mut tags, &normalized, &segment) {
                            Err(t) => {
                                proof {
                                    lemma_table_hit(kv, tv, seen, slot, origin, s, t as int);
                                    lemma_agree_no_clash(kv, tv, seen, slot, origin);
                                    lemma_clash_found(ms, of, d as int, seen, s, rest, origin[t as int]);
                                }
                                return Err(
                                    PathError {
                                        path: prefix,
                                        variant: PathErrorVariant::InconsistentKeyEncodings {
                                            encoding1: tags[t].clone(),
                                            encoding2: segment,
                                        },
                                    },
                                );
                            },
                            Ok(t) => {
                                proof {
                                    if t < kv.len() {
                                        lemma_table_hit(kv, tv, seen, slot, origin, s, t as int);
                                        slot = slot.push(t as int);
                                    } else {
                                        lemma_table_miss(kv, tv, seen, slot, origin, s);
                                        slot = slot.push(t as int);
                                        origin = origin.push(seen.len() as int);
                                    }
                                    seen = seen.push(s);
                                }
                            },
                        }
                    } else {
                        assert(key_sightings_of(given@) =~= rest);
                    }
                    assert(unescape_path(given@).drop_last() =~= unescape_path(prefix@));
                    normalized = match normalized.prefix() {
                        Some(p) => p,
                        None => normalized,
                    };
                    given = prefix;
                },
            }
        }
        d = d + 1;
    }
    proof {
        lemma_agree_no_clash(path_views(keys@), segment_views(tags@), seen, slot, origin);
        lemma_no_clash_at_end(ms, of, seen);
    }
    Ok(())
}

proof fn lemma_path_sightings(ds: Seq<Directive>)
    ensures
        path_sightings(models(ds)).len() == ds.len(),
        forall|k: int| 0 <= k < ds.len() ==> (#[trigger] path_sightings(models(ds))[k]).key
            == ds[k].path@ && path_sightings(models(ds))[k].tag == k && path_sightings(models(ds))[k].at
            == ds[k].path@,
{
}

proof fn lemma_unique_err(ds: Seq<Directive>, d: int)
    requires
        0 <= d < ds.len(),
        first_clash(path_sightings(models(ds))) == Some(d),
    ensures
        uniqueness_check(models(ds)) == Err::<(), PathErrorModel>(
            PathErrorModel { path: ds[d].path@, variant: VariantModel::ConflictingDirectives },
        ),
{
    lemma_path_sightings(ds);
}

/// Fails where two directives have the same path.
#[verifier::rlimit(40)]
pub fn check_path_uniqueness(directives: &[Directive]) -> (r: Result<(), PathError>)
    ensures
        match r {
            Ok(_) => uniqueness_check(models(directives@)) is Ok,
            Err(e) => uniqueness_check(models(directives@)) == Err::<(), PathErrorModel>(e@),
        },
{
    let ghost obs = path_sightings(models(directives@));
    proof {
        lemma_path_sightings(directives@);
    }
    let mut d: usize = 0;
    while d < directives.len()
        invariant
            d <= directives@.len(),
            obs == path_sightings(models(directives@)),
            obs.len() == directives@.len(),
            forall|k: int| 0 <= k < directives@.len() ==> (#[trigger] obs[k]).key
                == directives@[k].path@ && obs[k].tag == k && obs[k].at == directives@[k].path@,
            forall|k: int| 0 <= k < d ==> !#[trigger] clashes_at(obs, k),
        decreases directives@.len() - d,
    {
        let mut e: usize = 0;
        while e < d
            invariant
                e <= d < directives@.len(),
                obs.len() == directives@.len(),
                forall|k: int| 0 <= k < directives@.len() ==> (#[trigger] obs[k]).key
                    == directives@[k].path@ && obs[k].tag == k,
                forall|k: int| 0 <= k < e ==> obs[k].key != obs[d as int].key,
            ensures
                e <= d,
                e < d ==> obs[e as int].key == obs[d as int].key,
                forall|k: int| 0 <= k < e ==> obs[k].key != obs[d as int].key,
            decreases d - e,
        {
            if directives[e].path.same(&directives[d].path) {
                break;
            }
            e = e + 1;
        }
        if e < d {
            proof {
                assert(obs[e as int].key == obs[d as int].key);
                assert(clash(obs, e as int, d as int));
                lemma_first_clash(obs, e as int, d as int);
                lemma_unique_err(directives@, d as int);
            }
            let path = directives[d].path.clone();
            return Err(PathError { path, variant: PathErrorVariant::ConflictingDirectives });
        }
        proof {
            if clashes_at(obs, d as int) {
                let i = choose|i: int| clash(obs, i, d as int);
                assert(obs[i].key != obs[d as int].key);
            }
        }
        d = d + 1;
    }
    proof {
        lemma_no_clash(obs);
    }
    Ok(())
}

/// Records that `kind` was seen at `key`, as [`record_segment`] does for segments.
fn record_kind(keys: &mut Vec<Rc<Path>>, tags: &mut Vec<NodeKind>, key: &Rc<Path>, kind: NodeKind) -> (r: Result<usize, usize>)
    requires
        old(keys)@.len() == old(tags)@.len(),
    ensures
        final(keys)@.len() == final(tags)@.len(),
        match r {
            Err(t) => final(keys)@ == old(keys)@ && final(tags)@ == old(tags)@ && t < old(keys)@.len()
                && old(keys)@[t as int]@ == key@ && old(tags)@[t as int] != kind,
            Ok(t) => if t < old(keys)@.len() {
                final(keys)@ == old(keys)@ && final(tags)@ == old(tags)@ && old(keys)@[t as int]@ == key@
                    && old(tags)@[t as int] == kind
            } else {
                t == old(keys)@.len() && path_views(final(keys)@) == path_views(old(keys)@).push(key@)
                    && final(tags)@ == old(tags)@.push(kind)
                    && forall|u: int| 0 <= u < old(keys)@.len() ==> old(keys)@[u]@ != key@
            },
        },
{
    match find_path(keys, key) {
        Some(t) => {
            if tags[t] == kind {
                Ok(t)
            } else {
                Err(t)
            }
        },
        None => {
            let ghost kv = path_views(keys@);
            let t = keys.len();
            keys.push(key.clone());
            tags.push(kind);
            assert(path_views(keys@) =~= kv.push(key@));
            Ok(t)
        },
    }
}

/// Fails where a path must be of two kinds.
#[verifier::rlimit(40)]
pub fn check_node_types(directives: &[Directive]) -> (r: Result<(), PathError>)
    ensures
        match r {
            Ok(_) => kind_check(models(directives@)) is Ok,
            Err(e) => kind_check(models(directives@)) == Err::<(), PathErrorModel>(e@),
        },
{
    let ghost ms = models(directives@);
    let ghost of = |p: Seq<SegmentModel>| kind_sightings_of(p);
    let mut keys: Vec<Rc<Path>> = Vec::new();
    let mut tags: Vec<NodeKind> = Vec::new();
    let ghost mut seen: Seq<Sighting<NodeKind>> = Seq::empty();
    let ghost mut slot: Seq<int> = Seq::empty();
    let ghost mut origin: Seq<int> = Seq::empty();
    let mut d: usize = 0;
    assert(ms.take(0) =~= Seq::<DirectiveModel>::empty());
    while d < directives.len()
        invariant
            d <= directives@.len(),
            ms == models(directives@),
            of == (|p: Seq<SegmentModel>| kind_sightings_of(p)),
            seen == concat_sightings(ms.take(d as int), of),
            table_agrees(path_views(keys@), tags@, seen, slot, origin),
        decreases directives@.len() - d,
    {
        proof {
            lemma_concat_step(ms, of, d as int);
        }
        let mut path = directives[d].path.clone();
        let ghost s = Sighting { key: path@, tag: NodeKind::Value, at: path@ };
        let ghost rest = prefix_kinds(path@);
        assert(seen + kind_sightings_of(path@) =~= seen.push(s) + rest);
        let ghost kv = path_views(keys@);
        let ghost tv = tags@;
        match record_kind(&mut keys, &mut tags, &path, NodeKind::Value) {
            Err(t) => {
                proof {
                    lemma_table_hit(kv, tv, seen, slot, origin, s, t as int);
                    lemma_agree_no_clash(kv, tv, seen, slot, origin);
                    lemma_clash_found(ms, of, d as int, seen, s, rest, origin[t as int]);
                }
                return Err(
                    PathError {
                        path: path.clone(),
                        variant: PathErrorVariant::StructuralConflict { kind1: tags[t], kind2: NodeKind::Value },
                    },
                );
            },
            Ok(t) => {
                proof {
                    if t < kv.len() {
                        lemma_table_hit(kv, tv, seen, slot, origin, s, t as int);
                    } else {
                        lemma_table_miss(kv, tv, seen, slot, origin, s);
                        origin = origin.push(seen.len() as int);
                    }
                    slot = slot.push(t as int);
                    seen = seen.push(s);
                }
            },
        }
        loop
            invariant
                d < directives@.len(),
                ms == models(directives@),
                of == (|p: Seq<SegmentModel>| kind_sightings_of(p)),
                seen + prefix_kinds(path@) == concat_sightings(ms.take(d + 1), of),
                table_agrees(path_views(keys@), tags@, seen, slot, origin),
            ensures
                seen == concat_sightings(ms.take(d + 1), of),
                table_agrees(path_views(keys@), tags@, seen, slot, origin),
            decreases path@.len(),
        {
            match path.split_last() {
                None => {
                    assert(seen + prefix_kinds(path@) =~= seen);
                    break;
                },
                Some((prefix, segment)) => {
                    let kind = match segment {
                        Segment::Key(_) => NodeKind::Object,
                        Segment::Index(_) => NodeKind::Array,
                    };
                    let ghost s = Sighting { key: prefix@, tag: kind, at: prefix@ };
                    let ghost rest = prefix_kinds(prefix@);
                    assert(seen + prefix_kinds(path@) =~= seen.push(s) + rest);
                    let ghost kv = path_views(keys@);
                    let ghost tv = tags@;
                    match record_kind(&mut keys, &mut tags, &prefix, kind) {
                        Err(t) => {
                            proof {
                                lemma_table_hit(kv, tv, seen, slot, origin, s, t as int);
                                lemma_agree_no_clash(kv, tv, seen, slot, origin);
                                lemma_clash_found(ms, of, d as int, seen, s, rest, origin[t as int]);
                            }
                            return Err(
                                PathError {
                                    path: prefix,
                                    variant: PathErrorVariant::StructuralConflict { kind1: tags[t], kind2: kind },
                                },
                            );
                        },
                        Ok(t) => {
                            proof {
                                if t < kv.len() {
                                    lemma_table_hit(kv, tv, seen, slot, origin, s, t as int);
                                } else {
                                    lemma_table_miss(kv, tv, seen, slot, origin, s);
                                    origin = origin.push(seen.len() as int);
                                }
                                slot = slot.push(t as int);
                                seen = seen.push(s);
                            }
                        },
                    }
                    path = prefix;
                },
            }
        }
        d = d + 1;
    }
    proof {
        lemma_agree_no_clash(path_views(keys@), tags@, seen, slot, origin);
        lemma_no_clash_at_end(ms, of, seen);
    }
    Ok(())
}

/// The state of the array table after the sightings `seen`: one entry per array path,
/// sighting `i` recorded in entry `slot[i]`, entry `t` first seen at sighting `firsts[t]`.
pub open spec fn arrays_agree(
    keys: Seq<Seq<SegmentModel>>,
    seen: Seq<Sighting<u32>>,
    slot: Seq<int>,
    firsts: Seq<int>,
) -> bool {
    &&& keys.len() == firsts.len()
    &&& slot.len() == seen.len()
    &&& forall|t1: int, t2: int| 0 <= t1 < t2 < keys.len() ==> keys[t1] != keys[t2]
    &&& forall|i: int|
        #![trigger slot[i]]
        0 <= i < seen.len() ==> 0 <= slot[i] < keys.len() && keys[slot[i]] == seen[i].key
    &&& forall|t: int|
        #![trigger firsts[t]]
        0 <= t < keys.len() ==> 0 <= firsts[t] < seen.len() && seen[firsts[t]].key == keys[t]
            && slot[firsts[t]] == t
    &&& forall|t1: int, t2: int| 0 <= t1 < t2 < keys.len() ==> firsts[t1] < firsts[t2]
}

proof fn lemma_first_sighting(
    keys: Seq<Seq<SegmentModel>>,
    seen: Seq<Sighting<u32>>,
    slot: Seq<int>,
    firsts: Seq<int>,
    t: int,
    i: int,
)
    requires
        arrays_agree(keys, seen, slot, firsts),
        0 <= t < keys.len(),
        0 <= i < seen.len(),
        seen[i].key == keys[t],
        forall|t2: int, i2: int|
            #![trigger firsts[t2], slot[i2]]
            0 <= t2 < keys.len() && 0 <= i2 < firsts[t2] ==> slot[i2] < t2,
    ensures
        firsts[t] <= i,
        slot[i] == t,
{
    let u = slot[i];
    if u < t {
        assert(keys[u] != keys[t]);
    } else if t < u {
        assert(keys[t] != keys[u]);
    }
    if i < firsts[t] {
        assert(slot[i] < t);
    }
}

/// Whether sighting `i` of the table holds index `n` for entry `t`.
pub open spec fn holds_index(slots: Seq<usize>, idxs: Seq<u32>, t: int, n: u32) -> bool {
    exists|i: int| 0 <= i < slots.len() && slots[i] == t && idxs[i] == n
}

fn has_index(slots: &Vec<usize>, idxs: &Vec<u32>, t: usize, n: u32) -> (r: bool)
    requires
        slots@.len() == idxs@.len(),
    ensures
        r == holds_index(slots@, idxs@, t as int, n),
{
    let mut i: usize = 0;
    while i < slots.len()
        invariant
            i <= slots@.len(),
            slots@.len() == idxs@.len(),
            forall|k: int| 0 <= k < i ==> !(slots@[k] == t && idxs@[k] == n),
        decreases slots@.len() - i,
    {
        if slots[i] == t && idxs[i] == n {
            return Some(i).is_some();
        }
        i = i + 1;
    }
    false
}

/// The smallest index missing from entry `t`, and the smallest present above it, where
/// there is one.
fn gap_at(slots: &Vec<usize>, idxs: &Vec<u32>, t: usize) -> (r: Option<(u32, u32)>)
    requires
        slots@.len() == idxs@.len(),
    ensures
        match r {
            None => forall|m: u32, n: u32|
                m < n && holds_index(slots@, idxs@, t as int, n) ==> holds_index(slots@, idxs@, t as int, m),
            Some((above, m)) => !holds_index(slots@, idxs@, t as int, m) && (forall|k: u32|
                k < m ==> holds_index(slots@, idxs@, t as int, k)) && holds_index(slots@, idxs@, t as int, above)
                && m < above && (forall|k: u32| m < k < above ==> !holds_index(slots@, idxs@, t as int, k)),
        },
{
    let mut m: u64 = 0;
    while m <= u32::MAX as u64 && has_index(slots, idxs, t, m as u32)
        invariant
            m <= u32::MAX as u64 + 1,
            slots@.len() == idxs@.len(),
            forall|k: u32| k < m ==> holds_index(slots@, idxs@, t as int, k),
        decreases u32::MAX as u64 + 1 - m,
    {
        m = m + 1;
    }
    if m > u32::MAX as u64 {
        return None;
    }
    let m = m as u32;
    let mut best: Option<u32> = None;
    let mut i: usize = 0;
    while i < slots.len()
        invariant
            i <= slots@.len(),
            slots@.len() == idxs@.len(),
            match best {
                None => forall|k: int| 0 <= k < i && slots@[k] == t ==> idxs@[k] <= m,
                Some(b) => m < b && holds_index(slots@, idxs@, t as int, b) && forall|k: int|
                    0 <= k < i && slots@[k] == t && m < idxs@[k] ==> b <= idxs@[k],
            },
        decreases slots@.len() - i,
    {
        if slots[i] == t && idxs[i] > m {
            let better = match best {
                None => true,
                Some(b) => idxs[i] < b,
            };
            if better {
                best = Some(idxs[i]);
            }
        }
        i = i + 1;
    }
    match best {
        None => {
            assert forall|a: u32, n: u32|
                a < n && holds_index(slots@, idxs@, t as int, n) implies holds_index(
                slots@,
                idxs@,
                t as int,
                a,
            ) by {
                let k = choose|k: int| 0 <= k < slots@.len() && slots@[k] == t && idxs@[k] == n;
                assert(idxs@[k] <= m);
            }
            None
        },
        Some(b) => {
            assert forall|k: u32| m < k < b implies !holds_index(slots@, idxs@, t as int, k) by {
                if holds_index(slots@, idxs@, t as int, k) {
                    let j = choose|j: int| 0 <= j < slots@.len() && slots@[j] == t && idxs@[j] == k;
                    assert(b <= idxs@[j]);
                }
            }
            Some((b, m))
        },
    }
}

proof fn lemma_indices_at(
    keys: Seq<Seq<SegmentModel>>,
    seen: Seq<Sighting<u32>>,
    slot: Seq<int>,
    firsts: Seq<int>,
    slots: Seq<usize>,
    idxs: Seq<u32>,
    t: int,
)
    requires
        arrays_agree(keys, seen, slot, firsts),
        0 <= t < keys.len(),
        slots.len() == seen.len() && idxs.len() == seen.len(),
        forall|i: int| 0 <= i < seen.len() ==> slots[i] == slot[i] && #[trigger] idxs[i] == seen[i].tag,
    ensures
        forall|n: u32| indices_at(seen, keys[t]).contains(n) == holds_index(slots, idxs, t, n),
{
    assert forall|n: u32| indices_at(seen, keys[t]).contains(n) == holds_index(slots, idxs, t, n) by {
        if holds_index(slots, idxs, t, n) {
            let i = choose|i: int| 0 <= i < slots.len() && slots[i] == t && idxs[i] == n;
            assert(idxs[i] == seen[i].tag);
            assert(slot[i] == t);
            assert(seen[i].key == keys[t] && seen[i].tag == n);
        }
        if indices_at(seen, keys[t]).contains(n) {
            let i = choose|i: int| 0 <= i < seen.len() && seen[i].key == keys[t] && seen[i].tag == n;
            let u = slot[i];
            if u < t {
                assert(keys[u] != keys[t]);
            } else if t < u {
                assert(keys[t] != keys[u]);
            }
            assert(idxs[i] == seen[i].tag);
            assert(slots[i] == t && idxs[i] == n);
        }
    }
}

proof fn lemma_gap_found(
    kv: Seq<Seq<SegmentModel>>,
    obs: Seq<Sighting<u32>>,
    sl: Seq<int>,
    firsts: Seq<int>,
    slots: Seq<usize>,
    idxs: Seq<u32>,
    t: int,
    above: u32,
    missing: u32,
)
    requires
        arrays_agree(kv, obs, sl, firsts),
        forall|t2: int, i2: int|
            #![trigger firsts[t2], sl[i2]]
            0 <= t2 < kv.len() && 0 <= i2 < firsts[t2] ==> sl[i2] < t2,
        0 <= t < kv.len(),
        forall|u: int| 0 <= u < t ==> !has_gap(obs, #[trigger] kv[u]),
        forall|n: u32| indices_at(obs, kv[t]).contains(n) == holds_index(slots, idxs, t, n),
        !holds_index(slots, idxs, t, missing),
        forall|k: u32| k < missing ==> holds_index(slots, idxs, t, k),
        holds_index(slots, idxs, t, above),
        missing < above,
        forall|k: u32| missing < k < above ==> !holds_index(slots, idxs, t, k),
    ensures
        first_gap(obs) == Some(firsts[t]),
        obs[firsts[t]].key == kv[t],
        least_missing(obs, kv[t]) == missing,
        least_present_above(obs, kv[t], missing) == above,
{
    let q = kv[t];
    let j = firsts[t];
    assert(has_gap(obs, q)) by {
        assert(indices_at(obs, q).contains(above));
        assert(!indices_at(obs, q).contains(missing));
    }
    assert forall|k: int| 0 <= k < j implies !has_gap(obs, #[trigger] obs[k].key) by {
        let u = sl[k];
        assert(sl[k] < t);
        assert(kv[u] == obs[k].key);
    }
    let c = choose|c: int|
        0 <= c < obs.len() && has_gap(obs, obs[c].key) && forall|k: int|
            0 <= k < c ==> !has_gap(obs, #[trigger] obs[k].key);
    if c < j {
        assert(!has_gap(obs, obs[c].key));
    }
    if c > j {
        assert(!has_gap(obs, obs[j].key));
    }
    assert forall|k: u32| k < missing implies indices_at(obs, q).contains(k) by {
        assert(holds_index(slots, idxs, t, k));
    }
    assert forall|k: u32| missing < k < above implies !indices_at(obs, q).contains(k) by {
        assert(!holds_index(slots, idxs, t, k));
    }
    assert(!indices_at(obs, q).contains(missing) && forall|k: u32|
        k < missing ==> indices_at(obs, q).contains(k));
    let lm = least_missing(obs, q);
    assert(!indices_at(obs, q).contains(missing));
    if lm < missing {
        assert(indices_at(obs, q).contains(lm));
    } else if lm > missing {
        assert(indices_at(obs, q).contains(missing));
    }
    assert(indices_at(obs, q).contains(above) && missing < above && forall|k: u32|
        missing < k < above ==> !indices_at(obs, q).contains(k));
    let la = least_present_above(obs, q, missing);
    assert(indices_at(obs, q).contains(above) && missing < above);
    if la < above {
        assert(!indices_at(obs, q).contains(la));
    } else if la > above {
        assert(!indices_at(obs, q).contains(above));
    }
}

proof fn lemma_no_gap(kv: Seq<Seq<SegmentModel>>, obs: Seq<Sighting<u32>>, sl: Seq<int>, firsts: Seq<int>)
    requires
        arrays_agree(kv, obs, sl, firsts),
        forall|u: int| 0 <= u < kv.len() ==> !has_gap(obs, #[trigger] kv[u]),
    ensures
        first_gap(obs) is None,
{
    assert forall|j: int| 0 <= j < obs.len() implies !has_gap(obs, #[trigger] obs[j].key) by {
        let u = sl[j];
        assert(kv[u] == obs[j].key);
    }
}

/// The first array entry, in table order, whose indices have a gap.
fn first_incomplete(
    keys: &Vec<Rc<Path>>,
    slots: &Vec<usize>,
    idxs: &Vec<u32>,
    Ghost(obs): Ghost<Seq<Sighting<u32>>>,
    Ghost(sl): Ghost<Seq<int>>,
    Ghost(firsts): Ghost<Seq<int>>,
) -> (r: Option<(usize, u32, u32)>)
    requires
        slots@.len() == obs.len() && idxs@.len() == obs.len(),
        forall|i: int| 0 <= i < obs.len() ==> #[trigger] idxs@[i] == obs[i].tag,
        sl == slots@.map_values(|u: usize| u as int),
        arrays_agree(path_views(keys@), obs, sl, firsts),
        forall|t2: int, i2: int|
            #![trigger firsts[t2], sl[i2]]
            0 <= t2 < keys@.len() && 0 <= i2 < firsts[t2] ==> sl[i2] < t2,
    ensures
        match r {
            None => first_gap(obs) is None,
            Some((t, above, missing)) => t < keys@.len() && first_gap(obs) == Some(firsts[t as int])
                && obs[firsts[t as int]].key == keys@[t as int]@ && least_missing(obs, keys@[t as int]@)
                == missing && least_present_above(obs, keys@[t as int]@, missing) == above,
        },
{
    let ghost kv = path_views(keys@);
    let mut t: usize = 0;
    while t < keys.len()
        invariant
            kv == path_views(keys@),
            slots@.len() == obs.len() && idxs@.len() == obs.len(),
            forall|i: int| 0 <= i < obs.len() ==> #[trigger] idxs@[i] == obs[i].tag,
            sl == slots@.map_values(|u: usize| u as int),
            arrays_agree(kv, obs, sl, firsts),
            forall|t2: int, i2: int|
                #![trigger firsts[t2], sl[i2]]
                0 <= t2 < keys@.len() && 0 <= i2 < firsts[t2] ==> sl[i2] < t2,
            t <= keys@.len(),
            forall|u: int| 0 <= u < t ==> !has_gap(obs, #[trigger] kv[u]),
        decreases keys@.len() - t,
    {
        proof {
            lemma_indices_at(kv, obs, sl, firsts, slots@, idxs@, t as int);
        }
        match gap_at(slots, idxs, t) {
            None => {
                proof {
                    if has_gap(obs, kv[t as int]) {
                        let (m, n) = choose|m: u32, n: u32|
                            m < n && indices_at(obs, kv[t as int]).contains(n) && !indices_at(
                                obs,
                                kv[t as int],
                            ).contains(m);
                        assert(holds_index(slots@, idxs@, t as int, n));
                        assert(holds_index(slots@, idxs@, t as int, m));
                    }
                }
            },
            Some((above, missing)) => {
                proof {
                    lemma_gap_found(kv, obs, sl, firsts, slots@, idxs@, t as int, above, missing);
                }
                return Some((t, above, missing));
            },
        }
        t = t + 1;
    }
    proof {
        lemma_no_gap(kv, obs, sl, firsts);
    }
    None
}

/// Fails where an array's indices are not exactly `0..=max`.
#[verifier::rlimit(60)]
pub fn check_array_completeness(directives: &[Directive]) -> (r: Result<(), PathError>)
    ensures
        match r {
            Ok(_) => array_check(models(directives@)) is Ok,
            Err(e) => array_check(models(directives@)) == Err::<(), PathErrorModel>(e@),
        },
{
    let ghost ms = models(directives@);
    let ghost of = |p: Seq<SegmentModel>| index_sightings_of(p);
    let mut keys: Vec<Rc<Path>> = Vec::new();
    let mut slots: Vec<usize> = Vec::new();
    let mut idxs: Vec<u32> = Vec::new();
    let ghost mut seen: Seq<Sighting<u32>> = Seq::empty();
    let ghost mut firsts: Seq<int> = Seq::empty();
    let mut d: usize = 0;
    assert(ms.take(0) =~= Seq::<DirectiveModel>::empty());
    while d < directives.len()
        invariant
            d <= directives@.len(),
            ms == models(directives@),
            of == (|p: Seq<SegmentModel>| index_sightings_of(p)),
            seen == concat_sightings(ms.take(d as int), of),
            slots@.len() == seen.len() && idxs@.len() == seen.len(),
            forall|i: int| 0 <= i < seen.len() ==> #[trigger] idxs@[i] == seen[i].tag,
            arrays_agree(path_views(keys@), seen, slots@.map_values(|u: usize| u as int), firsts),
            forall|t2: int, i2: int|
                #![trigger firsts[t2], slots@[i2]]
                0 <= t2 < keys@.len() && 0 <= i2 < firsts[t2] ==> slots@[i2] < t2,
        decreases directives@.len() - d,
    {
        proof {
            lemma_concat_step(ms, of, d as int);
        }
        let mut path = directives[d].path.clone();
        loop
            invariant
                d < directives@.len(),
                ms == models(directives@),
                of == (|p: Seq<SegmentModel>| index_sightings_of(p)),
                seen + index_sightings_of(path@) == concat_sightings(ms.take(d + 1), of),
                slots@.len() == seen.len() && idxs@.len() == seen.len(),
                forall|i: int| 0 <= i < seen.len() ==> #[trigger] idxs@[i] == seen[i].tag,
                arrays_agree(path_views(keys@), seen, slots@.map_values(|u: usize| u as int), firsts),
                forall|t2: int, i2: int|
                #![trigger firsts[t2], slots@[i2]]
                0 <= t2 < keys@.len() && 0 <= i2 < firsts[t2] ==> slots@[i2] < t2,
            ensures
                seen == concat_sightings(ms.take(d + 1), of),
                slots@.len() == seen.len() && idxs@.len() == seen.len(),
                forall|i: int| 0 <= i < seen.len() ==> #[trigger] idxs@[i] == seen[i].tag,
                arrays_agree(path_views(keys@), seen, slots@.map_values(|u: usize| u as int), firsts),
                forall|t2: int, i2: int|
                #![trigger firsts[t2], slots@[i2]]
                0 <= t2 < keys@.len() && 0 <= i2 < firsts[t2] ==> slots@[i2] < t2,
            decreases path@.len(),
        {
            match path.split_last() {
                None => {
                    assert(seen + index_sightings_of(path@) =~= seen);
                    break;
                },
                Some((prefix, segment)) => {
                    let ghost rest = index_sightings_of(prefix@);
                    match segment {
                        Segment::Index(n) => {
                            let ghost s = Sighting { key: prefix@, tag: n, at: prefix@ };
                            assert(seen + index_sightings_of(path@) =~= seen.push(s) + rest);
                            let ghost kv = path_views(keys@);
                            let ghost sl = slots@.map_values(|u: usize| u as int);
                            let t = match find_path(&keys, &prefix) {
                                Some(t) => t,
                                None => {
                                    let t = keys.len();
                                    keys.push(prefix.clone());
                                    proof {
                                        firsts = firsts.push(seen.len() as int);
                                        assert(path_views(keys@) =~= kv.push(prefix@));
                                    }
                                    t
                                },
                            };
                            slots.push(t);
                            idxs.push(n);
                            proof {
                                let kv2 = path_views(keys@);
                                let seen2 = seen.push(s);
                                let sl2 = slots@.map_values(|u: usize| u as int);
                                assert(sl2 =~= sl.push(t as int));
                                assert forall|i: int| 0 <= i < seen.len() implies seen2[i] == seen[i] by {}
                                assert forall|t2: int, i2: int|
                                    #![trigger firsts[t2], slots@[i2]]
                                    0 <= t2 < keys@.len() && 0 <= i2 < firsts[t2] implies slots@[i2]
                                        < t2 by {
                                    if i2 < seen.len() {
                                        assert(slots@[i2] == sl[i2]);
                                    }
                                }
                                if t < kv.len() {
                                    assert(kv2 == kv);
                                } else {
                                    assert forall|t1: int, t2: int| 0 <= t1 < t2 < kv2.len() implies kv2[t1]
                                        != kv2[t2] by {
                                        if t2 == kv.len() {
                                            assert(kv[t1] != prefix@);
                                        }
                                    }
                                }
                                seen = seen2;
                            }
                        },
                        Segment::Key(_) => {
                            assert(seen + index_sightings_of(path@) =~= seen + rest);
                        },
                    }
                    path = prefix;
                },
            }
        }
        d = d + 1;
    }
    proof {
        assert(ms.take(ms.len() as int) =~= ms);
    }
    let ghost sl = slots@.map_values(|u: usize| u as int);
    assert forall|t2: int, i2: int|
        #![trigger firsts[t2], sl[i2]]
        0 <= t2 < keys@.len() && 0 <= i2 < firsts[t2] implies sl[i2] < t2 by {
        assert(slots@[i2] < t2);
    }
    match first_incomplete(&keys, &slots, &idxs, Ghost(seen), Ghost(sl), Ghost(firsts)) {
        Some((t, above, missing)) => {
            return Err(
                PathError {
                    path: keys[t].clone(),
                    variant: PathErrorVariant::IncompleteArray { index_seen: above, index_missing: missing },
                },
            );
        },
        None => {},
    }
    Ok(())
}

/// Runs the four passes in order and reports the first failure.
pub fn validate(directives: &[Directive]) -> (r: Result<(), PathError>)
    ensures
        match r {
            Ok(_) => validate_spec(models(directives@)) is Ok,
            Err(e) => validate_spec(models(directives@)) == Err::<(), PathErrorModel>(e@),
        },
{
    check_key_consistency(directives)?;
    check_path_uniqueness(directives)?;
    check_node_types(directives)?;
    check_array_completeness(directives)
}

/// Whether `q` is an array path among the sightings: some index is seen at it.
pub open spec fn is_array_path(obs: Seq<Sighting<u32>>, q: Seq<SegmentModel>) -> bool {
    exists|i: int| 0 <= i < obs.len() && obs[i].key == q
}

/// Whether the indices seen at every array path are `0..=max`.
pub open spec fn contiguous(obs: Seq<Sighting<u32>>) -> bool {
    forall|q: Seq<SegmentModel>|
        is_array_path(obs, q) ==> forall|n: u32, m: u32|
            m < n && #[trigger] indices_at(obs, q).contains(n) ==> #[trigger] indices_at(obs, q).contains(m)
}

/// The failure that names array `q`: its smallest missing index and the smallest present
/// one above it.
pub open spec fn incomplete_at(obs: Seq<Sighting<u32>>, q: Seq<SegmentModel>) -> PathErrorModel {
    let m = least_missing(obs, q);
    PathErrorModel {
        path: q,
        variant: VariantModel::IncompleteArray { index_seen: least_present_above(obs, q, m), index_missing: m },
    }
}

proof fn lemma_no_gap_at(obs: Seq<Sighting<u32>>, q: Seq<SegmentModel>)
    requires
        !has_gap(obs, q),
    ensures
        forall|n: u32, m: u32|
            m < n && #[trigger] indices_at(obs, q).contains(n) ==> #[trigger] indices_at(obs, q).contains(m),
{
    assert forall|n: u32, m: u32|
        m < n && #[trigger] indices_at(obs, q).contains(n) implies #[trigger] indices_at(obs, q).contains(m) by {
        if !indices_at(obs, q).contains(m) {
            assert(has_gap(obs, q));
        }
    }
}

proof fn lemma_least_gap(obs: Seq<Sighting<u32>>, j: int)
    requires
        0 <= j < obs.len(),
        has_gap(obs, obs[j].key),
    ensures
        exists|c: int|
            0 <= c < obs.len() && has_gap(obs, obs[c].key) && forall|k: int|
                0 <= k < c ==> !has_gap(obs, #[trigger] obs[k].key),
    decreases j,
{
    if exists|k: int| 0 <= k < j && has_gap(obs, #[trigger] obs[k].key) {
        let k = choose|k: int| 0 <= k < j && has_gap(obs, #[trigger] obs[k].key);
        lemma_least_gap(obs, k);
    }
}

proof fn lemma_gap_law(obs: Seq<Sighting<u32>>)
    ensures
        first_gap(obs) is None <==> contiguous(obs),
        first_gap(obs) matches Some(j) ==> (0 <= j < obs.len() && has_gap(obs, obs[j].key)),
{
    if first_gap(obs) is None {
        assert forall|q: Seq<SegmentModel>| is_array_path(obs, q) implies forall|n: u32, m: u32|
            m < n && #[trigger] indices_at(obs, q).contains(n) ==> #[trigger] indices_at(obs, q).contains(m) by {
            let i = choose|i: int| 0 <= i < obs.len() && obs[i].key == q;
            assert(!has_gap(obs, obs[i].key));
            lemma_no_gap_at(obs, q);
        }
    } else {
        let j0 = choose|j: int| 0 <= j < obs.len() && has_gap(obs, obs[j].key);
        lemma_least_gap(obs, j0);
        let j = first_gap(obs)->0;
        let q = obs[j].key;
        assert(is_array_path(obs, q));
        assert(has_gap(obs, q));
        let (m, n) = choose|m: u32, n: u32|
            m < n && indices_at(obs, q).contains(n) && !indices_at(obs, q).contains(m);
        assert(!contiguous(obs)) by {
            if contiguous(obs) {
                assert(indices_at(obs, q).contains(n));
            }
        }
    }
}

/// The array pass accepts a batch exactly when the indices seen at every array path are
/// `0..=max`; otherwise it names such an array, the smallest index missing there and the
/// smallest present one above it.
pub proof fn lemma_array_check(ms: Seq<DirectiveModel>)
    ensures
        array_check(ms) is Ok <==> contiguous(index_sightings(ms)),
        array_check(ms) matches Err(e) ==> (is_array_path(index_sightings(ms), e.path) && has_gap(
            index_sightings(ms),
            e.path,
        ) && e == incomplete_at(index_sightings(ms), e.path)),
{
    let obs = index_sightings(ms);
    lemma_gap_law(obs);
    if first_gap(obs) is Some {
        let j = first_gap(obs)->0;
        assert(is_array_path(obs, obs[j].key));
    }
}

/// A batch whose keys, paths and kinds agree passes validation exactly when the indices
/// seen at every array path are `0..=max`; otherwise validation names such an array, the
/// smallest index missing there and the smallest present one above it.
pub proof fn lemma_array_contiguity(ms: Seq<DirectiveModel>)
    requires
        key_check(ms) is Ok,
        uniqueness_check(ms) is Ok,
        kind_check(ms) is Ok,
    ensures
        validate_spec(ms) is Ok <==> contiguous(index_sightings(ms)),
        validate_spec(ms) matches Err(e) ==> (is_array_path(index_sightings(ms), e.path) && has_gap(
            index_sightings(ms),
            e.path,
        ) && e == incomplete_at(index_sightings(ms), e.path)),
{
    let obs = index_sightings(ms);
    lemma_gap_law(obs);
    if first_gap(obs) is Some {
        let j = first_gap(obs)->0;
        assert(is_array_path(obs, obs[j].key));
    }
}

// ---------------------------------------------------------------------------
// Swapping two directives.

proof fn lemma_concat_two<T>(a: DirectiveModel, b: DirectiveModel, of: spec_fn(Seq<SegmentModel>) -> Seq<Sighting<T>>)
    ensures
        concat_sightings(seq![a, b], of) == of(a.path) + of(b.path),
{
    assert(seq![a, b].drop_last() =~= seq![a]);
    assert(seq![a].drop_last() =~= Seq::<DirectiveModel>::empty());
    assert(concat_sightings(Seq::<DirectiveModel>::empty(), of) == Seq::<Sighting<T>>::empty());
    assert(seq![a].last() == a);
    assert(concat_sightings(seq![a], of) =~= of(a.path));
}

/// No two sightings share a key.
pub open spec fn distinct_keys<T>(s: Seq<Sighting<T>>) -> bool {
    forall|i: int, j: int| 0 <= i < j < s.len() ==> s[i].key != s[j].key
}

/// A sighting of `x` and one of `y` contradict each other.
pub open spec fn cross_clash<T>(x: Seq<Sighting<T>>, y: Seq<Sighting<T>>) -> bool {
    exists|i: int, j: int|
        0 <= i < x.len() && 0 <= j < y.len() && x[i].key == y[j].key && x[i].tag != y[j].tag
}

proof fn lemma_concat_clash<T>(x: Seq<Sighting<T>>, y: Seq<Sighting<T>>)
    requires
        distinct_keys(x),
        distinct_keys(y),
    ensures
        (first_clash(x + y) is None) <==> !cross_clash(x, y),
        cross_clash(x, y) <==> cross_clash(y, x),
{
    reveal(first_clash);
    let s = x + y;
    if cross_clash(x, y) {
        let (i, j) = choose|i: int, j: int|
            0 <= i < x.len() && 0 <= j < y.len() && x[i].key == y[j].key && x[i].tag != y[j].tag;
        assert(clash(s, i, x.len() + j));
        assert(clashes_at(s, x.len() + j));
        assert(y[j].key == x[i].key && y[j].tag != x[i].tag);
        assert(cross_clash(y, x));
    } else {
        assert forall|k: int| 0 <= k < s.len() implies !#[trigger] clashes_at(s, k) by {
            if clashes_at(s, k) {
                let i = choose|i: int| clash(s, i, k);
                if k < x.len() {
                    assert(s[i] == x[i] && s[k] == x[k]);
                } else if i >= x.len() {
                    assert(s[i] == y[i - x.len()] && s[k] == y[k - x.len()]);
                } else {
                    assert(s[i] == x[i] && s[k] == y[k - x.len()]);
                }
            }
        }
        lemma_no_clash(s);
        if cross_clash(y, x) {
            let (j, i) = choose|j: int, i: int|
                0 <= j < y.len() && 0 <= i < x.len() && y[j].key == x[i].key && y[j].tag != x[i].tag;
            assert(x[i].key == y[j].key && x[i].tag != y[j].tag);
        }
    }
}

proof fn lemma_key_sightings_of(p: Seq<SegmentModel>)
    ensures
        forall|i: int| 0 <= i < key_sightings_of(p).len() ==> (#[trigger] key_sightings_of(p)[i]).key.len() <= p.len(),
        distinct_keys(key_sightings_of(p)),
    decreases p.len(),
{
    if p.len() > 0 {
        let q = p.drop_last();
        lemma_key_sightings_of(q);
        let rest = key_sightings_of(q);
        let here = if p.last() is Key {
            seq![Sighting { key: unescape_path(p), tag: p.last(), at: p.drop_last() }]
        } else {
            Seq::empty()
        };
        let all = here + rest;
        assert(all == key_sightings_of(p));
        assert forall|i: int| 0 <= i < all.len() implies (#[trigger] all[i]).key.len() <= p.len() by {
            if i >= here.len() {
                assert(all[i] == rest[i - here.len()]);
            }
        }
        assert forall|i: int, j: int| 0 <= i < j < all.len() implies all[i].key != all[j].key by {
            if i >= here.len() {
                assert(all[i] == rest[i - here.len()] && all[j] == rest[j - here.len()]);
            } else {
                assert(all[j] == rest[j - here.len()]);
                assert(rest[j - here.len()].key.len() <= q.len());
            }
        }
    }
}

/// The kind that a path asks of its prefix of length `m`.
pub open spec fn kind_at(p: Seq<SegmentModel>, m: int) -> NodeKind {
    if m == p.len() {
        NodeKind::Value
    } else {
        kind_of(p[m])
    }
}

proof fn lemma_prefix_kinds(p: Seq<SegmentModel>)
    ensures
        prefix_kinds(p).len() == p.len(),
        forall|i: int|
            0 <= i < p.len() ==> (#[trigger] prefix_kinds(p)[i]).key == p.take(p.len() - 1 - i)
                && prefix_kinds(p)[i].tag == kind_of(p[p.len() - 1 - i]) && prefix_kinds(p)[i].at
                == prefix_kinds(p)[i].key,
    decreases p.len(),
{
    if p.len() > 0 {
        let q = p.drop_last();
        lemma_prefix_kinds(q);
        let head = seq![Sighting { key: q, tag: kind_of(p.last()), at: q }];
        assert(prefix_kinds(p) == head + prefix_kinds(q));
        assert forall|i: int| 0 <= i < p.len() implies (#[trigger] prefix_kinds(p)[i]).key == p.take(
            p.len() - 1 - i,
        ) && prefix_kinds(p)[i].tag == kind_of(p[p.len() - 1 - i]) && prefix_kinds(p)[i].at
            == prefix_kinds(p)[i].key by {
            if i == 0 {
                assert(q =~= p.take(p.len() - 1));
            } else {
                assert(prefix_kinds(p)[i] == prefix_kinds(q)[i - 1]);
                assert(q.take(q.len() - 1 - (i - 1)) =~= p.take(p.len() - 1 - i));
                assert(q[q.len() - 1 - (i - 1)] == p[p.len() - 1 - i]);
            }
        }
    }
}

pub(crate) proof fn lemma_kind_sightings_of(p: Seq<SegmentModel>)
    ensures
        kind_sightings_of(p).len() == p.len() + 1,
        forall|i: int|
            0 <= i <= p.len() ==> (#[trigger] kind_sightings_of(p)[i]).key == p.take(p.len() - i)
                && kind_sightings_of(p)[i].tag == kind_at(p, p.len() - i) && kind_sightings_of(p)[i].at
                == kind_sightings_of(p)[i].key,
        distinct_keys(kind_sightings_of(p)),
{
    lemma_prefix_kinds(p);
    let ks = kind_sightings_of(p);
    assert forall|i: int| 0 <= i <= p.len() implies (#[trigger] ks[i]).key == p.take(p.len() - i)
        && ks[i].tag == kind_at(p, p.len() - i) && ks[i].at == ks[i].key by {
        if i == 0 {
            assert(p.take(p.len() as int) =~= p);
        } else {
            assert(ks[i] == prefix_kinds(p)[i - 1]);
        }
    }
    assert forall|i: int, j: int| 0 <= i < j < ks.len() implies ks[i].key != ks[j].key by {
        assert(ks[i].key.len() != ks[j].key.len());
    }
}

/// `p` and `q` share their prefix of length `m` and ask different kinds of it.
pub open spec fn kinds_differ(p: Seq<SegmentModel>, q: Seq<SegmentModel>, m: int) -> bool {
    0 <= m <= p.len() && m <= q.len() && p.take(m) == q.take(m) && kind_at(p, m) != kind_at(q, m)
}

proof fn lemma_kinds_differ_once(p: Seq<SegmentModel>, q: Seq<SegmentModel>, m1: int, m2: int)
    requires
        kinds_differ(p, q, m1),
        kinds_differ(p, q, m2),
    ensures
        m1 == m2,
{
    if m1 < m2 {
        assert(p.take(m2)[m1] == q.take(m2)[m1]);
    } else if m2 < m1 {
        assert(p.take(m1)[m2] == q.take(m1)[m2]);
    }
}

proof fn lemma_kind_clashes(p: Seq<SegmentModel>, q: Seq<SegmentModel>, k: int)
    requires
        clashes_at(kind_sightings_of(p) + kind_sightings_of(q), k),
    ensures
        k > p.len(),
        kinds_differ(p, q, q.len() - (k - p.len() - 1)),
{
    lemma_kind_sightings_of(p);
    lemma_kind_sightings_of(q);
    let x = kind_sightings_of(p);
    let y = kind_sightings_of(q);
    let s = x + y;
    let i = choose|i: int| clash(s, i, k);
    if k < x.len() {
        assert(s[i] == x[i] && s[k] == x[k]);
    } else if i >= x.len() {
        assert(s[i] == y[i - x.len()] && s[k] == y[k - x.len()]);
    } else {
        assert(s[i] == x[i] && s[k] == y[k - x.len()]);
        let m = q.len() - (k - x.len());
        let mi = p.len() - i;
        assert(p.take(mi) == q.take(m));
        assert(mi == m);
    }
}

/// Undoes the order of a structural conflict's two kinds.
pub open spec fn swapped_kinds(e: PathErrorModel) -> PathErrorModel {
    match e.variant {
        VariantModel::StructuralConflict { kind1, kind2 } => PathErrorModel {
            path: e.path,
            variant: VariantModel::StructuralConflict { kind1: kind2, kind2: kind1 },
        },
        _ => e,
    }
}

proof fn lemma_kind_check_two(a: DirectiveModel, b: DirectiveModel, m: int)
    requires
        kinds_differ(a.path, b.path, m),
    ensures
        kind_check(seq![a, b]) == Err::<(), PathErrorModel>(
            PathErrorModel {
                path: a.path.take(m),
                variant: VariantModel::StructuralConflict {
                    kind1: kind_at(a.path, m),
                    kind2: kind_at(b.path, m),
                },
            },
        ),
{
    let p = a.path;
    let q = b.path;
    lemma_concat_two(a, b, |p: Seq<SegmentModel>| kind_sightings_of(p));
    lemma_kind_sightings_of(p);
    lemma_kind_sightings_of(q);
    let x = kind_sightings_of(p);
    let y = kind_sightings_of(q);
    let s = x + y;
    assert(kind_sightings(seq![a, b]) == s);
    let i = p.len() - m;
    let j = x.len() + q.len() - m;
    assert(s[i] == x[i] && s[j] == y[q.len() - m]);
    assert(clash(s, i, j));
    assert forall|k: int| 0 <= k < j implies !#[trigger] clashes_at(s, k) by {
        if clashes_at(s, k) {
            lemma_kind_clashes(p, q, k);
            lemma_kinds_differ_once(p, q, m, q.len() - (k - p.len() - 1));
        }
    }
    lemma_first_clash(s, i, j);
}

proof fn lemma_first_passes_swap(a: DirectiveModel, b: DirectiveModel)
    requires
        key_check(seq![a, b]) is Ok,
        uniqueness_check(seq![a, b]) is Ok,
    ensures
        key_check(seq![b, a]) is Ok,
        uniqueness_check(seq![b, a]) is Ok,
{
    reveal(first_clash);
    let ab = seq![a, b];
    let ba = seq![b, a];
    let kof = |p: Seq<SegmentModel>| key_sightings_of(p);
    lemma_concat_two(a, b, kof);
    lemma_concat_two(b, a, kof);
    lemma_key_sightings_of(a.path);
    lemma_key_sightings_of(b.path);
    lemma_concat_clash(key_sightings_of(a.path), key_sightings_of(b.path));
    lemma_concat_clash(key_sightings_of(b.path), key_sightings_of(a.path));
    let pab = path_sightings(ab);
    let pba = path_sightings(ba);
    assert(a.path != b.path) by {
        if a.path == b.path {
            assert(clash(pab, 0, 1));
            assert(clashes_at(pab, 1));
        }
    }
    assert forall|k: int| 0 <= k < pba.len() implies !#[trigger] clashes_at(pba, k) by {
        if clashes_at(pba, k) {
            let i = choose|i: int| clash(pba, i, k);
        }
    }
    lemma_no_clash(pba);
}

/// The node-kind pass on two directives: where it fails with a structural conflict, the
/// two directives in the other order fail it at the same path with the two kinds swapped.
pub proof fn lemma_kind_conflict_swap(a: DirectiveModel, b: DirectiveModel)
    requires
        kind_check(seq![a, b]) is Err,
    ensures
        kind_check(seq![b, a]) == Err::<(), PathErrorModel>(swapped_kinds(kind_check(seq![a, b])->Err_0)),
{
    reveal(first_clash);
    let kab = kind_sightings(seq![a, b]);
    lemma_concat_two(a, b, |p: Seq<SegmentModel>| kind_sightings_of(p));
    lemma_kind_sightings_of(a.path);
    lemma_kind_sightings_of(b.path);
    let c = choose|c: int| clashes_at(kab, c);
    lemma_least_clash(kab, c);
    let jmin = choose|j: int|
        clashes_at(kab, j) && forall|k: int| 0 <= k < j ==> !#[trigger] clashes_at(kab, k);
    lemma_kind_clashes(a.path, b.path, jmin);
    let m = b.path.len() - (jmin - a.path.len() - 1);
    lemma_kind_check_two(a, b, m);
    assert(kinds_differ(b.path, a.path, m));
    lemma_kind_check_two(b, a, m);
}

/// Swapping two directives whose batch fails with a structural conflict gives a batch
/// that fails at the same path with the same two kinds, in the other order.
pub proof fn lemma_conflict_order(a: DirectiveModel, b: DirectiveModel)
    requires
        validate_spec(seq![a, b]) is Err,
        validate_spec(seq![a, b])->Err_0.variant is StructuralConflict,
    ensures
        validate_spec(seq![b, a]) == Err::<(), PathErrorModel>(swapped_kinds(validate_spec(seq![a, b])->Err_0)),
{
    let ab = seq![a, b];
    assert(key_check(ab) is Ok);
    assert(uniqueness_check(ab) is Ok);
    assert(kind_check(ab) is Err);
    lemma_first_passes_swap(a, b);
    lemma_kind_conflict_swap(a, b);
}

proof fn lemma_least_clash<T>(obs: Seq<Sighting<T>>, j: int)
    requires
        clashes_at(obs, j),
    ensures
        exists|c: int| clashes_at(obs, c) && forall|k: int| 0 <= k < c ==> !#[trigger] clashes_at(obs, k),
    decreases j,
{
    let i = choose|i: int| clash(obs, i, j);
    if exists|k: int| 0 <= k < j && #[trigger] clashes_at(obs, k) {
        let k = choose|k: int| 0 <= k < j && #[trigger] clashes_at(obs, k);
        lemma_least_clash(obs, k);
    }
}

} // verus!
