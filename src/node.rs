//! The document tree: built from directives, rendered as compact JSON.
use crate::directive::{Directive, Path, Segment, SegmentModel};
use crate::escape::{unescape, unescape_chars};
use crate::validator::{
    clash, clashes_at, concat_sightings, first_clash, kind_at, kind_of, kind_sightings, kind_sightings_of,
    lemma_concat_prefix, lemma_concat_step, lemma_kind_sightings_of, path_sightings, validate_spec,
    NodeKind,
};
use crate::directive::DirectiveModel;
use crate::text::{chars_of, string_of};
use std::rc::Rc;
use vstd::prelude::*;

verus! {

broadcast use vstd::std_specs::vec::group_vec_axioms;

/// A node of the document: a JSON text, or an array or object of nodes. Array elements
/// are kept in ascending index order; object members in ascending order of their
/// unescaped key, then of their key as written.
#[derive(Debug)]
pub enum Node {
    Value(String),
    Array(Vec<(u32, Node)>),
    Object(Vec<(String, Node)>),
}

/// The mathematical value of a [`Node`].
pub enum NodeModel {
    Value(Seq<char>),
    Array(Seq<(u32, NodeModel)>),
    Object(Seq<(Seq<char>, NodeModel)>),
}

impl Node {
    pub open spec fn model(&self) -> NodeModel
        decreases self,
    {
        match self {
            Node::Value(s) => NodeModel::Value(s@),
            Node::Array(items) => NodeModel::Array(array_models(items@)),
            Node::Object(entries) => NodeModel::Object(object_models(entries@)),
        }
    }
}

pub open spec fn array_models(items: Seq<(u32, Node)>) -> Seq<(u32, NodeModel)>
    decreases items,
{
    if items.len() == 0 {
        Seq::empty()
    } else {
        array_models(items.drop_last()).push((items.last().0, items.last().1.model()))
    }
}

pub open spec fn object_models(entries: Seq<(String, Node)>) -> Seq<(Seq<char>, NodeModel)>
    decreases entries,
{
    if entries.len() == 0 {
        Seq::empty()
    } else {
        object_models(entries.drop_last()).push((entries.last().0@, entries.last().1.model()))
    }
}

proof fn lemma_array_models(items: Seq<(u32, Node)>)
    ensures
        array_models(items).len() == items.len(),
        forall|i: int| 0 <= i < items.len() ==> #[trigger] array_models(items)[i] == (items[i].0, items[i].1.model()),
    decreases items.len(),
{
    if items.len() > 0 {
        lemma_array_models(items.drop_last());
    }
}

proof fn lemma_object_models(entries: Seq<(String, Node)>)
    ensures
        object_models(entries).len() == entries.len(),
        forall|i: int| 0 <= i < entries.len() ==> #[trigger] object_models(entries)[i] == (entries[i].0@, entries[i].1.model()),
    decreases entries.len(),
{
    if entries.len() > 0 {
        lemma_object_models(entries.drop_last());
    }
}

// ---------------------------------------------------------------------------
// Order of members.

/// `a` comes before `b` in code-point order.
pub open spec fn seq_less(a: Seq<char>, b: Seq<char>) -> bool
    decreases a.len(),
{
    if a.len() == 0 {
        b.len() > 0
    } else if b.len() == 0 {
        false
    } else if a[0] != b[0] {
        (a[0] as u32) < (b[0] as u32)
    } else {
        seq_less(a.skip(1), b.skip(1))
    }
}

/// Object member `a` comes before member `b`: by unescaped key, then by key as written.
pub open spec fn key_before(a: Seq<char>, b: Seq<char>) -> bool {
    seq_less(unescape(a), unescape(b)) || (unescape(a) == unescape(b) && seq_less(a, b))
}

/// The place of index `i` among sorted array elements: the first element whose index is
/// not below `i`.
pub open spec fn array_slot(items: Seq<(u32, NodeModel)>, i: u32) -> int
    decreases items.len(),
{
    if items.len() == 0 {
        0
    } else if items.last().0 < i {
        items.len() as int
    } else {
        array_slot(items.drop_last(), i)
    }
}

/// The place of key `k` among sorted object members: the first member not before `k`.
pub open spec fn object_slot(entries: Seq<(Seq<char>, NodeModel)>, k: Seq<char>) -> int
    decreases entries.len(),
{
    if entries.len() == 0 {
        0
    } else if key_before(entries.last().0, k) {
        entries.len() as int
    } else {
        object_slot(entries.drop_last(), k)
    }
}

// ---------------------------------------------------------------------------
// Building.

/// The chain of nodes that holds `v` at path `p`.
pub open spec fn create_spec(p: Seq<SegmentModel>, v: Seq<char>) -> NodeModel
    decreases p.len(),
{
    if p.len() == 0 {
        NodeModel::Value(v)
    } else {
        match p[0] {
            SegmentModel::Index(i) => NodeModel::Array(seq![(i, create_spec(p.skip(1), v))]),
            SegmentModel::Key(k) => NodeModel::Object(seq![(k, create_spec(p.skip(1), v))]),
        }
    }
}

/// The tree with `v` added at path `p`, and whether it could be: the walk follows
/// existing members and makes new ones where a segment is new; it fails at the end of
/// the path or where a node is not of the kind the next segment asks.
pub open spec fn insert_spec(n: NodeModel, p: Seq<SegmentModel>, v: Seq<char>) -> (NodeModel, bool)
    decreases p.len(),
{
    if p.len() == 0 {
        (n, false)
    } else {
        match (p[0], n) {
            (SegmentModel::Index(i), NodeModel::Array(items)) => {
                let t = array_slot(items, i);
                if 0 <= t < items.len() && items[t].0 == i {
                    let (child, ok) = insert_spec(items[t].1, p.skip(1), v);
                    (NodeModel::Array(items.update(t, (i, child))), ok)
                } else {
                    (NodeModel::Array(items.insert(t, (i, create_spec(p.skip(1), v)))), true)
                }
            },
            (SegmentModel::Key(k), NodeModel::Object(entries)) => {
                let t = object_slot(entries, k);
                if 0 <= t < entries.len() && entries[t].0 == k {
                    let (child, ok) = insert_spec(entries[t].1, p.skip(1), v);
                    (NodeModel::Object(entries.update(t, (k, child))), ok)
                } else {
                    (NodeModel::Object(entries.insert(t, (k, create_spec(p.skip(1), v)))), true)
                }
            },
            _ => (n, false),
        }
    }
}

/// The tree of a batch: the first directive makes it, the others are added in order.
pub open spec fn build_spec(ms: Seq<crate::directive::DirectiveModel>) -> Option<NodeModel>
    decreases ms.len(),
{
    if ms.len() == 0 {
        None
    } else if ms.len() == 1 {
        Some(create_spec(ms[0].path, ms[0].value))
    } else {
        Some(insert_spec(build_spec(ms.drop_last())->0, ms.last().path, ms.last().value).0)
    }
}

// ---------------------------------------------------------------------------
// Rendering.

/// The compact JSON text of a node.
pub open spec fn render(n: NodeModel) -> Seq<char>
    decreases n,
{
    match n {
        NodeModel::Value(s) => s,
        NodeModel::Array(items) => seq!['['] + render_items(items) + seq![']'],
        NodeModel::Object(entries) => seq!['{'] + render_members(entries) + seq!['}'],
    }
}

pub open spec fn render_items(items: Seq<(u32, NodeModel)>) -> Seq<char>
    decreases items,
{
    if items.len() == 0 {
        Seq::empty()
    } else if items.len() == 1 {
        render(items[0].1)
    } else {
        render_items(items.drop_last()) + seq![','] + render(items.last().1)
    }
}

pub open spec fn render_members(entries: Seq<(Seq<char>, NodeModel)>) -> Seq<char>
    decreases entries,
{
    if entries.len() == 0 {
        Seq::empty()
    } else if entries.len() == 1 {
        seq!['"'] + entries[0].0 + seq!['"', ':'] + render(entries[0].1)
    } else {
        render_members(entries.drop_last()) + seq![',', '"'] + entries.last().0 + seq!['"', ':'] + render(
            entries.last().1,
        )
    }
}

// ---------------------------------------------------------------------------
// Executable parts.

fn seq_less_exec(a: &[char], b: &[char]) -> (r: bool)
    ensures
        r == seq_less(a@, b@),
{
    let mut i: usize = 0;
    assert(a@.skip(0) =~= a@ && b@.skip(0) =~= b@);
    while i < a.len() && i < b.len() && a[i] == b[i]
        invariant
            i <= a@.len() && i <= b@.len(),
            seq_less(a@, b@) == seq_less(a@.skip(i as int), b@.skip(i as int)),
        decreases a@.len() - i,
    {
        proof {
            assert(a@.skip(i as int).skip(1) =~= a@.skip(i + 1));
            assert(b@.skip(i as int).skip(1) =~= b@.skip(i + 1));
        }
        i = i + 1;
    }
    if i == a.len() {
        i < b.len()
    } else if i == b.len() {
        false
    } else {
        (a[i] as u32) < (b[i] as u32)
    }
}

fn key_before_exec(a: &String, b: &String) -> (r: bool)
    ensures
        r == key_before(a@, b@),
{
    let ac = chars_of(a.as_str());
    let bc = chars_of(b.as_str());
    let au = unescape_chars(ac.as_slice());
    let bu = unescape_chars(bc.as_slice());
    if seq_less_exec(au.as_slice(), bu.as_slice()) {
        return true;
    }
    assert(au@ == unescape(a@) && bu@ == unescape(b@));
    if au.len() != bu.len() {
        assert(au@ != bu@);
        return false;
    }
    let mut i: usize = 0;
    while i < au.len()
        invariant
            i <= au@.len() == bu@.len(),
            au@.take(i as int) == bu@.take(i as int),
            !seq_less(au@, bu@),
            au@ == unescape(a@) && bu@ == unescape(b@),
        decreases au@.len() - i,
    {
        if au[i] != bu[i] {
            assert(au@[i as int] != bu@[i as int]);
            assert(au@ != bu@);
            return false;
        }
        i = i + 1;
        assert(au@.take(i as int) =~= au@.take(i - 1).push(au@[i - 1]));
        assert(bu@.take(i as int) =~= bu@.take(i - 1).push(bu@[i - 1]));
    }
    assert(au@ =~= au@.take(i as int));
    assert(bu@ =~= bu@.take(i as int));
    seq_less_exec(ac.as_slice(), bc.as_slice())
}

fn array_slot_exec(items: &Vec<(u32, Node)>, i: u32) -> (r: usize)
    ensures
        r == array_slot(array_models(items@), i),
        r <= items@.len(),
{
    proof {
        lemma_array_models(items@);
    }
    let ghost ms = array_models(items@);
    let mut t = items.len();
    assert(ms.take(t as int) =~= ms);
    assert forall|j: int| 0 <= j < items@.len() implies #[trigger] ms[j].0 == items@[j].0 by {
        assert(ms[j] == (items@[j].0, items@[j].1.model()));
    }
    while t > 0 && items[t - 1].0 >= i
        invariant
            t <= items@.len(),
            ms == array_models(items@),
            ms.len() == items@.len(),
            forall|j: int| 0 <= j < items@.len() ==> #[trigger] ms[j].0 == items@[j].0,
            array_slot(ms, i) == array_slot(ms.take(t as int), i),
        decreases t,
    {
        assert(ms.take(t as int).drop_last() =~= ms.take(t - 1));
        t = t - 1;
    }
    if t > 0 {
        assert(ms.take(t as int).last() == ms[t - 1]);
    }
    t
}

fn object_slot_exec(entries: &Vec<(String, Node)>, k: &String) -> (r: usize)
    ensures
        r == object_slot(object_models(entries@), k@),
        r <= entries@.len(),
{
    proof {
        lemma_object_models(entries@);
    }
    let ghost ms = object_models(entries@);
    let mut t = entries.len();
    assert(ms.take(t as int) =~= ms);
    assert forall|j: int| 0 <= j < entries@.len() implies #[trigger] ms[j].0 == entries@[j].0@ by {
        assert(ms[j] == (entries@[j].0@, entries@[j].1.model()));
    }
    while t > 0 && !key_before_exec(&entries[t - 1].0, k)
        invariant
            t <= entries@.len(),
            ms == object_models(entries@),
            ms.len() == entries@.len(),
            forall|j: int| 0 <= j < entries@.len() ==> #[trigger] ms[j].0 == entries@[j].0@,
            object_slot(ms, k@) == object_slot(ms.take(t as int), k@),
        decreases t,
    {
        assert(ms.take(t as int).drop_last() =~= ms.take(t - 1));
        t = t - 1;
    }
    if t > 0 {
        assert(ms.take(t as int).last() == ms[t - 1]);
    }
    t
}

fn append_chars(out: &mut Vec<char>, s: &str)
    ensures
        final(out)@ == old(out)@ + s@,
{
    let cs = chars_of(s);
    let ghost start = out@;
    let mut i: usize = 0;
    while i < cs.len()
        invariant
            i <= cs@.len(),
            out@ == start + cs@.take(i as int),
        decreases cs@.len() - i,
    {
        out.push(cs[i]);
        i = i + 1;
        assert(out@ =~= start + cs@.take(i as int));
    }
    assert(cs@.take(i as int) =~= s@);
}

proof fn lemma_render_items_step(ms: Seq<(u32, NodeModel)>, k: int)
    requires
        0 <= k < ms.len(),
    ensures
        render_items(ms.take(k + 1)) == render_items(ms.take(k)) + (if k > 0 {
            seq![',']
        } else {
            Seq::empty()
        }) + render(ms[k].1),
{
    assert(ms.take(k + 1).drop_last() =~= ms.take(k));
    if k == 0 {
        assert(render_items(ms.take(0)) == Seq::<char>::empty());
        assert(ms.take(1)[0] == ms[0]);
    }
}

proof fn lemma_render_members_step(ms: Seq<(Seq<char>, NodeModel)>, k: int)
    requires
        0 <= k < ms.len(),
    ensures
        render_members(ms.take(k + 1)) == render_members(ms.take(k)) + (if k > 0 {
            seq![',']
        } else {
            Seq::empty()
        }) + seq!['"'] + ms[k].0 + seq!['"', ':'] + render(ms[k].1),
{
    assert(ms.take(k + 1).drop_last() =~= ms.take(k));
    if k == 0 {
        assert(render_members(ms.take(0)) == Seq::<char>::empty());
        assert(ms.take(1)[0] == ms[0]);
    } else {
        assert(render_members(ms.take(k + 1)) == render_members(ms.take(k)) + seq![',', '"'] + ms[k].0
            + seq!['"', ':'] + render(ms[k].1));
        assert(seq![',', '"'] =~= seq![','] + seq!['"']);
    }
}

impl Node {
    /// Appends the compact JSON text of the node, whose members are in order.
    pub fn write_to(&self, out: &mut Vec<char>)
        requires
            ordered(self.model()),
        ensures
            final(out)@ == old(out)@ + render(self.model()),
        decreases self,
    {
        let ghost start = out@;
        match self {
            Node::Value(s) => {
                append_chars(out, s.as_str());
            },
            Node::Array(items) => {
                proof {
                    lemma_array_models(items@);
                    lemma_items_ordered(array_models(items@));
                }
                let ghost ms = array_models(items@);
                out.push('[');
                let mut k: usize = 0;
                while k < items.len()
                    invariant
                        k <= items@.len(),
                        *self == Node::Array(*items),
                        ms == array_models(items@),
                        ms.len() == items@.len(),
                        forall|i: int| 0 <= i < items@.len() ==> #[trigger] ms[i] == (items@[i].0, items@[i].1.model()),
                        forall|i: int| 0 <= i < items@.len() ==> ordered(#[trigger] ms[i].1),
                        out@ == start + seq!['['] + render_items(ms.take(k as int)),
                    decreases items@.len() - k,
                {
                    proof {
                        lemma_render_items_step(ms, k as int);
                    }
                    if k > 0 {
                        out.push(',');
                    }
                    proof {
                        assert(decreases_to!(*items => items@));
                        assert(decreases_to!(items@ => items@[k as int]));
                        assert(decreases_to!(items@[k as int] => items@[k as int].1));
                        assert(decreases_to!(*self => (*self)->Array_0));
                    }
                    items[k].1.write_to(out);
                    k = k + 1;
                    assert(out@ =~= start + seq!['['] + render_items(ms.take(k as int)));
                }
                out.push(']');
                assert(ms.take(k as int) =~= ms);
                assert(out@ =~= start + render(self.model()));
            },
            Node::Object(entries) => {
                proof {
                    lemma_object_models(entries@);
                    lemma_members_ordered(object_models(entries@));
                }
                let ghost ms = object_models(entries@);
                out.push('{');
                let mut k: usize = 0;
                while k < entries.len()
                    invariant
                        k <= entries@.len(),
                        *self == Node::Object(*entries),
                        ms == object_models(entries@),
                        ms.len() == entries@.len(),
                        forall|i: int| 0 <= i < entries@.len() ==> #[trigger] ms[i] == (entries@[i].0@, entries@[i].1.model()),
                        forall|i: int| 0 <= i < entries@.len() ==> ordered(#[trigger] ms[i].1),
                        out@ == start + seq!['{'] + render_members(ms.take(k as int)),
                    decreases entries@.len() - k,
                {
                    proof {
                        lemma_render_members_step(ms, k as int);
                    }
                    if k > 0 {
                        out.push(',');
                    }
                    out.push('"');
                    append_chars(out, entries[k].0.as_str());
                    out.push('"');
                    out.push(':');
                    proof {
                        assert(decreases_to!(*entries => entries@));
                        assert(decreases_to!(entries@ => entries@[k as int]));
                        assert(decreases_to!(entries@[k as int] => entries@[k as int].1));
                        assert(decreases_to!(*self => (*self)->Object_0));
                    }
                    entries[k].1.write_to(out);
                    k = k + 1;
                    assert(out@ =~= start + seq!['{'] + render_members(ms.take(k as int)));
                }
                out.push('}');
                assert(ms.take(k as int) =~= ms);
                assert(out@ =~= start + render(self.model()));
            },
        }
    }

    /// The compact JSON text of the node, whose members are in order.
    pub fn to_string(&self) -> (r: String)
        requires
            ordered(self.model()),
        ensures
            r@ == render(self.model()),
    {
        let mut out: Vec<char> = Vec::new();
        self.write_to(&mut out);
        assert(out@ =~= render(self.model()));
        string_of(out.as_slice())
    }
}

pub open spec fn segment_views(v: Seq<Segment>) -> Seq<SegmentModel> {
    v.map_values(|s: Segment| s@)
}

impl Node {
    /// The chain of nodes that holds `value` at `segments[i..]`.
    fn create_at(segments: &Vec<Segment>, i: usize, value: String) -> (r: Node)
        requires
            i <= segments@.len(),
        ensures
            r.model() == create_spec(segment_views(segments@).skip(i as int), value@),
        decreases segments@.len() - i,
    {
        let ghost p = segment_views(segments@).skip(i as int);
        if i == segments.len() {
            assert(p.len() == 0);
            return Node::Value(value);
        }
        assert(p[0] == segments@[i as int]@);
        assert(p.skip(1) =~= segment_views(segments@).skip(i + 1));
        let child = Node::create_at(segments, i + 1, value);
        match &segments[i] {
            Segment::Index(index) => {
                let mut v: Vec<(u32, Node)> = Vec::new();
                v.push((*index, child));
                proof {
                    lemma_array_models(v@);
                    assert(array_models(v@) =~= seq![(v@[0].0, v@[0].1.model())]);
                }
                Node::Array(v)
            },
            Segment::Key(key) => {
                let mut v: Vec<(String, Node)> = Vec::new();
                v.push((key.clone(), child));
                proof {
                    lemma_object_models(v@);
                    assert(object_models(v@) =~= seq![(v@[0].0@, v@[0].1.model())]);
                }
                Node::Object(v)
            },
        }
    }

    /// The chain of nodes that holds `value` at `path`.
    pub fn create(path: &Rc<Path>, value: String) -> (r: Node)
        ensures
            r.model() == create_spec(path@, value@),
            ordered(r.model()),
    {
        proof {
            lemma_create_ordered(path@, value@);
        }
        let segments = path.to_segments();
        assert(segment_views(segments@).skip(0) =~= path@);
        Node::create_at(&segments, 0, value)
    }

    /// Adds `value` at `segments[i..]`, as [`insert_spec`] says.
    fn insert_at(&mut self, segments: &Vec<Segment>, i: usize, value: String) -> (r: bool)
        requires
            i <= segments@.len(),
        ensures
            (final(self).model(), r) == insert_spec(old(self).model(), segment_views(segments@).skip(i as int), value@),
        decreases segments@.len() - i,
    {
        let ghost p = segment_views(segments@).skip(i as int);
        if i == segments.len() {
            return false;
        }
        assert(p[0] == segments@[i as int]@);
        assert(p.skip(1) =~= segment_views(segments@).skip(i + 1));
        match (&segments[i], self) {
            (Segment::Index(index), Node::Array(items)) => {
                let ghost before = items@;
                proof {
                    lemma_array_models(before);
                }
                let t = array_slot_exec(items, *index);
                if t < items.len() && items[t].0 == *index {
                    let (k, mut child) = items.remove(t);
                    let ghost old_child = child.model();
                    let ok = child.insert_at(segments, i + 1, value);
                    items.insert(t, (k, child));
                    proof {
                        assert(items@ =~= before.update(t as int, (k, child)));
                        lemma_array_models(items@);
                        assert(array_models(items@) =~= array_models(before).update(
                            t as int,
                            (*index, child.model()),
                        ));
                    }
                    ok
                } else {
                    let child = Node::create_at(segments, i + 1, value);
                    items.insert(t, (*index, child));
                    proof {
                        lemma_array_models(items@);
                        assert(array_models(items@) =~= array_models(before).insert(
                            t as int,
                            (*index, child.model()),
                        ));
                    }
                    true
                }
            },
            (Segment::Key(key), Node::Object(entries)) => {
                let ghost before = entries@;
                proof {
                    lemma_object_models(before);
                }
                let t = object_slot_exec(entries, key);
                if t < entries.len() && entries[t].0 == *key {
                    let (k, mut child) = entries.remove(t);
                    let ok = child.insert_at(segments, i + 1, value);
                    entries.insert(t, (k, child));
                    proof {
                        assert(entries@ =~= before.update(t as int, (k, child)));
                        lemma_object_models(entries@);
                        assert(object_models(entries@) =~= object_models(before).update(
                            t as int,
                            (key@, child.model()),
                        ));
                    }
                    ok
                } else {
                    let child = Node::create_at(segments, i + 1, value);
                    entries.insert(t, (key.clone(), child));
                    proof {
                        lemma_object_models(entries@);
                        assert(object_models(entries@) =~= object_models(before).insert(
                            t as int,
                            (key@, child.model()),
                        ));
                    }
                    true
                }
            },
            _ => false,
        }
    }

    /// Adds `value` at `path` to a tree whose members are in order: `false`, with the tree
    /// unchanged where the walk cannot go on, where the tree does not have the kind that
    /// the path asks.
    pub fn insert(&mut self, path: &Rc<Path>, value: String) -> (r: bool)
        requires
            ordered(old(self).model()),
        ensures
            (final(self).model(), r) == insert_spec(old(self).model(), path@, value@),
            ordered(final(self).model()),
    {
        proof {
            lemma_insert_ordered(self.model(), path@, value@);
        }
        let segments = path.to_segments();
        assert(segment_views(segments@).skip(0) =~= path@);
        self.insert_at(&segments, 0, value)
    }
}

/// The tree of a batch, or `None` for no directives.
pub fn build_tree(directives: Vec<Directive>) -> (r: Option<Node>)
    ensures
        match r {
            None => directives@.len() == 0,
            Some(n) => build_spec(directives@.map_values(|d: Directive| d@)) == Some(n.model()) && ordered(
                n.model(),
            ),
        },
        directives@.len() == 0 <==> r is None,
{
    let ghost ms = directives@.map_values(|d: Directive| d@);
    if directives.len() == 0 {
        return None;
    }
    let mut node = Node::create(&directives[0].path, directives[0].value.clone());
    let mut k: usize = 1;
    assert(ms.take(1).len() == 1);
    while k < directives.len()
        invariant
            1 <= k <= directives@.len(),
            ms == directives@.map_values(|d: Directive| d@),
            build_spec(ms.take(k as int)) == Some(node.model()),
            ordered(node.model()),
        decreases directives@.len() - k,
    {
        proof {
            assert(ms.take(k + 1).drop_last() =~= ms.take(k as int));
            assert(ms.take(k + 1).last() == ms[k as int]);
        }
        node.insert(&directives[k].path, directives[k].value.clone());
        k = k + 1;
    }
    assert(ms.take(k as int) =~= ms);
    Some(node)
}

// ---------------------------------------------------------------------------
// Order of the members of built trees.

/// Array indices strictly increase.
pub open spec fn indices_increase(items: Seq<(u32, NodeModel)>) -> bool {
    forall|i: int, j: int| 0 <= i < j < items.len() ==> items[i].0 < items[j].0
}

/// Object keys strictly increase in the member order.
pub open spec fn keys_increase(entries: Seq<(Seq<char>, NodeModel)>) -> bool {
    forall|i: int, j: int| 0 <= i < j < entries.len() ==> key_before(entries[i].0, entries[j].0)
}

/// Every array and object in the tree has its members in increasing order.
pub open spec fn ordered(n: NodeModel) -> bool
    decreases n,
{
    match n {
        NodeModel::Value(_) => true,
        NodeModel::Array(items) => indices_increase(items) && items_ordered(items),
        NodeModel::Object(entries) => keys_increase(entries) && members_ordered(entries),
    }
}

pub open spec fn items_ordered(items: Seq<(u32, NodeModel)>) -> bool
    decreases items,
{
    items.len() > 0 ==> items_ordered(items.drop_last()) && ordered(items.last().1)
}

pub open spec fn members_ordered(entries: Seq<(Seq<char>, NodeModel)>) -> bool
    decreases entries,
{
    entries.len() > 0 ==> members_ordered(entries.drop_last()) && ordered(entries.last().1)
}

proof fn lemma_items_ordered(items: Seq<(u32, NodeModel)>)
    ensures
        items_ordered(items) <==> forall|k: int| 0 <= k < items.len() ==> ordered(#[trigger] items[k].1),
    decreases items.len(),
{
    if items.len() > 0 {
        lemma_items_ordered(items.drop_last());
        if forall|k: int| 0 <= k < items.len() ==> ordered(#[trigger] items[k].1) {
            assert forall|k: int| 0 <= k < items.drop_last().len() implies ordered(
                #[trigger] items.drop_last()[k].1,
            ) by {
                assert(items.drop_last()[k] == items[k]);
            }
        }
        if items_ordered(items) {
            assert forall|k: int| 0 <= k < items.len() implies ordered(#[trigger] items[k].1) by {
                if k < items.len() - 1 {
                    assert(items.drop_last()[k] == items[k]);
                }
            }
        }
    }
}

proof fn lemma_members_ordered(entries: Seq<(Seq<char>, NodeModel)>)
    ensures
        members_ordered(entries) <==> forall|k: int| 0 <= k < entries.len() ==> ordered(#[trigger] entries[k].1),
    decreases entries.len(),
{
    if entries.len() > 0 {
        lemma_members_ordered(entries.drop_last());
        if forall|k: int| 0 <= k < entries.len() ==> ordered(#[trigger] entries[k].1) {
            assert forall|k: int| 0 <= k < entries.drop_last().len() implies ordered(
                #[trigger] entries.drop_last()[k].1,
            ) by {
                assert(entries.drop_last()[k] == entries[k]);
            }
        }
        if members_ordered(entries) {
            assert forall|k: int| 0 <= k < entries.len() implies ordered(#[trigger] entries[k].1) by {
                if k < entries.len() - 1 {
                    assert(entries.drop_last()[k] == entries[k]);
                }
            }
        }
    }
}

proof fn lemma_seq_less_irreflexive(a: Seq<char>)
    ensures
        !seq_less(a, a),
    decreases a.len(),
{
    if a.len() > 0 {
        lemma_seq_less_irreflexive(a.skip(1));
    }
}

proof fn lemma_seq_less_total(a: Seq<char>, b: Seq<char>)
    ensures
        a == b || seq_less(a, b) || seq_less(b, a),
    decreases a.len(),
{
    if a.len() > 0 && b.len() > 0 && a[0] == b[0] {
        lemma_seq_less_total(a.skip(1), b.skip(1));
        if a.skip(1) == b.skip(1) {
            assert(a =~= seq![a[0]] + a.skip(1));
            assert(b =~= seq![b[0]] + b.skip(1));
        }
    } else if a.len() > 0 && b.len() > 0 {
        vstd::utf8::char_u32_cast(a[0], a[0] as u32);
        vstd::utf8::char_u32_cast(b[0], b[0] as u32);
    } else if a.len() == 0 && b.len() == 0 {
        assert(a =~= b);
    }
}

proof fn lemma_seq_less_transitive(a: Seq<char>, b: Seq<char>, c: Seq<char>)
    requires
        seq_less(a, b),
        seq_less(b, c),
    ensures
        seq_less(a, c),
    decreases a.len(),
{
    if a.len() > 0 && b.len() > 0 && c.len() > 0 && a[0] == b[0] && b[0] == c[0] {
        lemma_seq_less_transitive(a.skip(1), b.skip(1), c.skip(1));
    }
}

proof fn lemma_key_order(a: Seq<char>, b: Seq<char>, c: Seq<char>)
    ensures
        !key_before(a, a),
        a == b || key_before(a, b) || key_before(b, a),
        key_before(a, b) && key_before(b, c) ==> key_before(a, c),
        key_before(a, b) ==> !key_before(b, a),
{
    lemma_seq_less_irreflexive(a);
    lemma_seq_less_irreflexive(unescape(a));
    lemma_seq_less_total(a, b);
    lemma_seq_less_total(unescape(a), unescape(b));
    if seq_less(unescape(a), unescape(b)) && seq_less(unescape(b), unescape(a)) {
        lemma_seq_less_transitive(unescape(a), unescape(b), unescape(a));
    }
    if seq_less(a, b) && seq_less(b, a) {
        lemma_seq_less_transitive(a, b, a);
    }
    if key_before(a, b) && key_before(b, c) {
        if seq_less(unescape(a), unescape(b)) && seq_less(unescape(b), unescape(c)) {
            lemma_seq_less_transitive(unescape(a), unescape(b), unescape(c));
        }
        if seq_less(a, b) && seq_less(b, c) {
            lemma_seq_less_transitive(a, b, c);
        }
    }
}

proof fn lemma_array_slot(items: Seq<(u32, NodeModel)>, i: u32)
    requires
        indices_increase(items),
    ensures
        0 <= array_slot(items, i) <= items.len(),
        forall|k: int| 0 <= k < array_slot(items, i) ==> items[k].0 < i,
        forall|k: int| array_slot(items, i) <= k < items.len() ==> items[k].0 >= i,
    decreases items.len(),
{
    if items.len() > 0 {
        let d = items.drop_last();
        assert forall|x: int, y: int| 0 <= x < y < d.len() implies d[x].0 < d[y].0 by {
            assert(d[x] == items[x] && d[y] == items[y]);
        }
        lemma_array_slot(d, i);
        assert forall|k: int| 0 <= k < d.len() implies d[k] == items[k] by {}
    }
}

proof fn lemma_object_slot(entries: Seq<(Seq<char>, NodeModel)>, key: Seq<char>)
    requires
        keys_increase(entries),
    ensures
        0 <= object_slot(entries, key) <= entries.len(),
        forall|k: int| 0 <= k < object_slot(entries, key) ==> key_before(entries[k].0, key),
        forall|k: int| object_slot(entries, key) <= k < entries.len() ==> !key_before(entries[k].0, key),
    decreases entries.len(),
{
    if entries.len() > 0 {
        let d = entries.drop_last();
        assert forall|x: int, y: int| 0 <= x < y < d.len() implies key_before(d[x].0, d[y].0) by {
            assert(d[x] == entries[x] && d[y] == entries[y]);
        }
        lemma_object_slot(d, key);
        assert forall|k: int| 0 <= k < d.len() implies d[k] == entries[k] by {}
        let n = entries.len() - 1;
        if key_before(entries.last().0, key) {
            assert forall|k: int| 0 <= k < n implies key_before(entries[k].0, key) by {
                lemma_key_order(entries[k].0, entries[n].0, key);
            }
        } else {
            assert forall|k: int| object_slot(d, key) <= k < n implies !key_before(entries[k].0, key) by {
                assert(d[k] == entries[k]);
            }
        }
    }
}

proof fn lemma_create_ordered(p: Seq<SegmentModel>, v: Seq<char>)
    ensures
        ordered(create_spec(p, v)),
    decreases p.len(),
{
    if p.len() > 0 {
        lemma_create_ordered(p.skip(1), v);
        let c = create_spec(p.skip(1), v);
        match p[0] {
            SegmentModel::Index(i) => {
                lemma_items_ordered(seq![(i, c)]);
            },
            SegmentModel::Key(k) => {
                lemma_members_ordered(seq![(k, c)]);
            },
        }
    }
}

proof fn lemma_array_insert_increases(items: Seq<(u32, NodeModel)>, i: u32, c: NodeModel)
    requires
        indices_increase(items),
        !(0 <= array_slot(items, i) < items.len() && items[array_slot(items, i)].0 == i),
    ensures
        indices_increase(items.insert(array_slot(items, i), (i, c))),
{
    lemma_array_slot(items, i);
    let t = array_slot(items, i);
    let u = items.insert(t, (i, c));
    assert forall|x: int, y: int| 0 <= x < y < u.len() implies u[x].0 < u[y].0 by {
        if y < t {
        } else if y == t {
        } else if x < t {
            assert(u[y] == items[y - 1]);
        } else if x == t {
            assert(u[y] == items[y - 1]);
            assert(items[t].0 >= i);
            if y - 1 > t {
                assert(items[t].0 < items[y - 1].0);
            }
        } else {
            assert(u[x] == items[x - 1] && u[y] == items[y - 1]);
        }
    }
}

proof fn lemma_object_insert_increases(entries: Seq<(Seq<char>, NodeModel)>, key: Seq<char>, c: NodeModel)
    requires
        keys_increase(entries),
        !(0 <= object_slot(entries, key) < entries.len() && entries[object_slot(entries, key)].0 == key),
    ensures
        keys_increase(entries.insert(object_slot(entries, key), (key, c))),
{
    lemma_object_slot(entries, key);
    let t = object_slot(entries, key);
    let u = entries.insert(t, (key, c));
    assert forall|x: int, y: int| 0 <= x < y < u.len() implies key_before(u[x].0, u[y].0) by {
        if y < t {
        } else if y == t {
        } else if x < t {
            assert(u[y] == entries[y - 1]);
            lemma_key_order(u[x].0, key, entries[t].0);
            if y - 1 > t {
                lemma_key_order(u[x].0, entries[t].0, entries[y - 1].0);
            }
            lemma_key_order(entries[t].0, key, key);
        } else if x == t {
            assert(u[y] == entries[y - 1]);
            lemma_key_order(entries[t].0, key, key);
            if y - 1 > t {
                lemma_key_order(key, entries[t].0, entries[y - 1].0);
            }
        } else {
            assert(u[x] == entries[x - 1] && u[y] == entries[y - 1]);
        }
    }
}

proof fn lemma_insert_ordered(n: NodeModel, p: Seq<SegmentModel>, v: Seq<char>)
    requires
        ordered(n),
    ensures
        ordered(insert_spec(n, p, v).0),
    decreases p.len(),
{
    if p.len() > 0 {
        match (p[0], n) {
            (SegmentModel::Index(i), NodeModel::Array(items)) => {
                lemma_items_ordered(items);
                lemma_array_slot(items, i);
                let t = array_slot(items, i);
                if 0 <= t < items.len() && items[t].0 == i {
                    lemma_insert_ordered(items[t].1, p.skip(1), v);
                    let u = items.update(t, (i, insert_spec(items[t].1, p.skip(1), v).0));
                    lemma_items_ordered(u);
                } else {
                    lemma_create_ordered(p.skip(1), v);
                    let u = items.insert(t, (i, create_spec(p.skip(1), v)));
                    lemma_array_insert_increases(items, i, create_spec(p.skip(1), v));
                    lemma_items_ordered(u);
                }
            },
            (SegmentModel::Key(key), NodeModel::Object(entries)) => {
                lemma_members_ordered(entries);
                lemma_object_slot(entries, key);
                let t = object_slot(entries, key);
                if 0 <= t < entries.len() && entries[t].0 == key {
                    lemma_insert_ordered(entries[t].1, p.skip(1), v);
                    let u = entries.update(t, (key, insert_spec(entries[t].1, p.skip(1), v).0));
                    lemma_members_ordered(u);
                } else {
                    lemma_create_ordered(p.skip(1), v);
                    let u = entries.insert(t, (key, create_spec(p.skip(1), v)));
                    lemma_object_insert_increases(entries, key, create_spec(p.skip(1), v));
                    lemma_members_ordered(u);
                }
            },
            _ => {},
        }
    }
}

/// Every tree built from a batch of directives renders its array elements in increasing
/// index order and its object members in increasing order of unescaped key, then of key
/// as written, so the same batch always gives the same text.
pub proof fn lemma_built_tree_ordered(ms: Seq<crate::directive::DirectiveModel>)
    ensures
        build_spec(ms) matches Some(n) ==> ordered(n),
    decreases ms.len(),
{
    if ms.len() == 1 {
        lemma_create_ordered(ms[0].path, ms[0].value);
    } else if ms.len() > 1 {
        lemma_built_tree_ordered(ms.drop_last());
        lemma_insert_ordered(build_spec(ms.drop_last())->0, ms.last().path, ms.last().value);
    }
}

// ---------------------------------------------------------------------------
// What a built tree holds.

/// The place of the element with index `i`, if any.
pub open spec fn item_index(items: Seq<(u32, NodeModel)>, i: u32) -> Option<int> {
    if exists|t: int| 0 <= t < items.len() && items[t].0 == i {
        Some(choose|t: int| 0 <= t < items.len() && items[t].0 == i)
    } else {
        None
    }
}

/// The place of the member with key `k`, if any.
pub open spec fn member_index(entries: Seq<(Seq<char>, NodeModel)>, k: Seq<char>) -> Option<int> {
    if exists|t: int| 0 <= t < entries.len() && entries[t].0 == k {
        Some(choose|t: int| 0 <= t < entries.len() && entries[t].0 == k)
    } else {
        None
    }
}

/// The node that the tree holds at path `q`, if any.
pub open spec fn node_at(n: NodeModel, q: Seq<SegmentModel>) -> Option<NodeModel>
    decreases q.len(),
{
    if q.len() == 0 {
        Some(n)
    } else {
        match (q[0], n) {
            (SegmentModel::Index(i), NodeModel::Array(items)) => match item_index(items, i) {
                Some(t) => if 0 <= t < items.len() {
                    node_at(items[t].1, q.skip(1))
                } else {
                    None
                },
                None => None,
            },
            (SegmentModel::Key(k), NodeModel::Object(entries)) => match member_index(entries, k) {
                Some(t) => if 0 <= t < entries.len() {
                    node_at(entries[t].1, q.skip(1))
                } else {
                    None
                },
                None => None,
            },
            _ => None,
        }
    }
}

/// The kind of a node.
pub open spec fn kind_of_node(n: NodeModel) -> NodeKind {
    match n {
        NodeModel::Value(_) => NodeKind::Value,
        NodeModel::Array(_) => NodeKind::Array,
        NodeModel::Object(_) => NodeKind::Object,
    }
}

/// A node of kind `k` is there.
pub open spec fn node_of_kind(o: Option<NodeModel>, k: NodeKind) -> bool {
    o is Some && kind_of_node(o->0) == k
}

proof fn lemma_item_index(items: Seq<(u32, NodeModel)>, i: u32, t: int)
    requires
        indices_increase(items),
        0 <= t < items.len(),
        items[t].0 == i,
    ensures
        item_index(items, i) == Some(t),
{
    let c = choose|c: int| 0 <= c < items.len() && items[c].0 == i;
    if c < t {
        assert(items[c].0 < items[t].0);
    } else if t < c {
        assert(items[t].0 < items[c].0);
    }
}

proof fn lemma_member_index(entries: Seq<(Seq<char>, NodeModel)>, k: Seq<char>, t: int)
    requires
        keys_increase(entries),
        0 <= t < entries.len(),
        entries[t].0 == k,
    ensures
        member_index(entries, k) == Some(t),
{
    let c = choose|c: int| 0 <= c < entries.len() && entries[c].0 == k;
    lemma_key_order(k, k, k);
    if c < t {
        assert(key_before(entries[c].0, entries[t].0));
    } else if t < c {
        assert(key_before(entries[t].0, entries[c].0));
    }
}

proof fn lemma_node_at_step(n: NodeModel, q: Seq<SegmentModel>)
    requires
        q.len() > 0,
    ensures
        node_at(n, q) == match (q[0], n) {
            (SegmentModel::Index(i), NodeModel::Array(items)) => match item_index(items, i) {
                Some(t) => if 0 <= t < items.len() {
                    node_at(items[t].1, q.skip(1))
                } else {
                    None
                },
                None => None,
            },
            (SegmentModel::Key(k), NodeModel::Object(entries)) => match member_index(entries, k) {
                Some(t) => if 0 <= t < entries.len() {
                    node_at(entries[t].1, q.skip(1))
                } else {
                    None
                },
                None => None,
            },
            _ => None,
        },
{
}

/// The nodes of a fresh chain: one at each prefix of the path, of the kind that the
/// path asks, the value at its end, and nothing else.
proof fn lemma_create_nodes(p: Seq<SegmentModel>, v: Seq<char>)
    ensures
        forall|m: int|
            0 <= m <= p.len() ==> node_of_kind(
                #[trigger] node_at(create_spec(p, v), p.take(m)),
                kind_at(p, m),
            ),
        node_at(create_spec(p, v), p) == Some(NodeModel::Value(v)),
        forall|q: Seq<SegmentModel>|
            (#[trigger] node_at(create_spec(p, v), q)) is Some ==> exists|m: int| 0 <= m <= p.len() && q == p.take(m),
    decreases p.len(),
{
    let c = create_spec(p, v);
    if p.len() == 0 {
        assert forall|q: Seq<SegmentModel>| (#[trigger] node_at(c, q)) is Some implies exists|m: int|
            0 <= m <= p.len() && q == p.take(m) by {
            if q.len() > 0 {
                lemma_node_at_step(c, q);
            }
            assert(q =~= p.take(0));
        }
        assert(p.take(0) =~= p);
    } else {
        let rest = p.skip(1);
        lemma_create_nodes(rest, v);
        let child = create_spec(rest, v);
        assert forall|m: int| 0 <= m <= p.len() implies node_of_kind(
            #[trigger] node_at(c, p.take(m)),
            kind_at(p, m),
        ) && (m == p.len() ==> node_at(c, p.take(m)) == Some(NodeModel::Value(v))) by {
            if m == 0 {
                assert(p.take(0).len() == 0);
            } else {
                let q = p.take(m);
                lemma_node_at_step(c, q);
                assert(q.skip(1) =~= rest.take(m - 1));
                assert(q[0] == p[0]);
                match p[0] {
                    SegmentModel::Index(i) => {
                        lemma_item_index(seq![(i, child)], i, 0);
                    },
                    SegmentModel::Key(k) => {
                        lemma_key_order(k, k, k);
                        lemma_member_index(seq![(k, child)], k, 0);
                    },
                }
                assert(node_at(c, q) == node_at(child, rest.take(m - 1)));
                if m < p.len() {
                    assert(rest[m - 1] == p[m]);
                } else {
                    assert(rest.take(m - 1) =~= rest);
                }
            }
        }
        assert(p.take(p.len() as int) =~= p);
        assert forall|q: Seq<SegmentModel>| (#[trigger] node_at(c, q)) is Some implies exists|m: int|
            0 <= m <= p.len() && q == p.take(m) by {
            if q.len() == 0 {
                assert(q =~= p.take(0));
            } else {
                lemma_node_at_step(c, q);
                match p[0] {
                    SegmentModel::Index(i) => {
                        if q[0] == p[0] {
                            lemma_item_index(seq![(i, child)], i, 0);
                        }
                    },
                    SegmentModel::Key(k) => {
                        if q[0] == p[0] {
                            lemma_key_order(k, k, k);
                            lemma_member_index(seq![(k, child)], k, 0);
                        }
                    },
                }
                assert(q[0] == p[0]);
                assert(node_at(c, q) == node_at(child, q.skip(1)));
                let m1 = choose|m1: int| 0 <= m1 <= rest.len() && q.skip(1) == rest.take(m1);
                assert(q.len() == m1 + 1);
                assert forall|x: int| 0 <= x < q.len() implies q[x] == p.take(m1 + 1)[x] by {
                    if x > 0 {
                        assert(q[x] == q.skip(1)[x - 1]);
                        assert(rest.take(m1)[x - 1] == p[x]);
                    }
                }
                assert(q =~= p.take(m1 + 1));
            }
        }
    }
}

/// What stood at a place still stands there after an insertion: a node of the same kind,
/// and the same value where it was a value.
pub open spec fn kept(before: Option<NodeModel>, after: Option<NodeModel>) -> bool {
    after is Some && kind_of_node(after->0) == kind_of_node(before->0) && (before->0 is Value ==> after
        == before)
}

/// The walk to `p` meets only nodes of the kinds that `p` asks, and ends where no node is.
pub open spec fn insertable(n: NodeModel, p: Seq<SegmentModel>) -> bool {
    &&& ordered(n)
    &&& forall|m: int|
        0 <= m < p.len() && (#[trigger] node_at(n, p.take(m))) is Some ==> kind_of_node(
            node_at(n, p.take(m))->0,
        ) == kind_of(p[m])
    &&& node_at(n, p) is None
}

/// What an insertion that succeeds leaves: the path's prefixes of the kinds it asks, the
/// value at its end, every earlier node kept, and no node elsewhere.
pub open spec fn inserted(n: NodeModel, p: Seq<SegmentModel>, v: Seq<char>, n2: NodeModel) -> bool {
    &&& forall|m: int| 0 <= m <= p.len() ==> node_of_kind(#[trigger] node_at(n2, p.take(m)), kind_at(p, m))
    &&& node_at(n2, p) == Some(NodeModel::Value(v))
    &&& forall|q: Seq<SegmentModel>| (#[trigger] node_at(n, q)) is Some ==> kept(node_at(n, q), node_at(n2, q))
    &&& forall|q: Seq<SegmentModel>|
        (#[trigger] node_at(n2, q)) is Some ==> node_at(n, q) is Some || exists|m: int|
            0 <= m <= p.len() && q == p.take(m)
}

proof fn lemma_update_index(items: Seq<(u32, NodeModel)>, t: int, c: NodeModel, i2: u32)
    requires
        indices_increase(items),
        0 <= t < items.len(),
    ensures
        indices_increase(items.update(t, (items[t].0, c))),
        item_index(items.update(t, (items[t].0, c)), i2) == item_index(items, i2),
{
    let u = items.update(t, (items[t].0, c));
    assert forall|x: int, y: int| 0 <= x < y < u.len() implies u[x].0 < u[y].0 by {
        assert(u[x].0 == items[x].0 && u[y].0 == items[y].0);
    }
    if exists|t2: int| 0 <= t2 < items.len() && items[t2].0 == i2 {
        let t2 = choose|t2: int| 0 <= t2 < items.len() && items[t2].0 == i2;
        lemma_item_index(items, i2, t2);
        assert(u[t2].0 == items[t2].0);
        lemma_item_index(u, i2, t2);
    } else {
        assert forall|t2: int| 0 <= t2 < u.len() implies u[t2].0 != i2 by {
            assert(u[t2].0 == items[t2].0);
        }
    }
}

proof fn lemma_insert_index(items: Seq<(u32, NodeModel)>, t: int, i: u32, c: NodeModel, i2: u32)
    requires
        indices_increase(items),
        indices_increase(items.insert(t, (i, c))),
        0 <= t <= items.len(),
        forall|x: int| 0 <= x < items.len() ==> items[x].0 != i,
    ensures
        item_index(items.insert(t, (i, c)), i) == Some(t),
        i2 != i ==> match item_index(items, i2) {
            Some(t2) => item_index(items.insert(t, (i, c)), i2) == Some(if t2 < t { t2 } else { t2 + 1 })
                && 0 <= t2 < items.len(),
            None => item_index(items.insert(t, (i, c)), i2) is None,
        },
{
    let u = items.insert(t, (i, c));
    lemma_item_index(u, i, t);
    if i2 != i {
        if exists|t2: int| 0 <= t2 < items.len() && items[t2].0 == i2 {
            let t2 = choose|t2: int| 0 <= t2 < items.len() && items[t2].0 == i2;
            lemma_item_index(items, i2, t2);
            let t3 = if t2 < t { t2 } else { t2 + 1 };
            assert(u[t3] == items[t2]);
            lemma_item_index(u, i2, t3);
        } else {
            assert forall|t2: int| 0 <= t2 < u.len() implies u[t2].0 != i2 by {
                if t2 < t {
                    assert(u[t2] == items[t2]);
                } else if t2 > t {
                    assert(u[t2] == items[t2 - 1]);
                }
            }
        }
    }
}

#[verifier::rlimit(80)]
proof fn lemma_insert_array_nodes(items: Seq<(u32, NodeModel)>, i: u32, p: Seq<SegmentModel>, v: Seq<char>)
    requires
        p.len() > 0,
        p[0] == SegmentModel::Index(i),
        insertable(NodeModel::Array(items), p),
    ensures
        insert_spec(NodeModel::Array(items), p, v).1,
        inserted(NodeModel::Array(items), p, v, insert_spec(NodeModel::Array(items), p, v).0),
    decreases p.len(), 0int,
{
    let n = NodeModel::Array(items);
    let rest = p.skip(1);
    let (n2, ok) = insert_spec(n, p, v);
    lemma_items_ordered(items);
    lemma_array_slot(items, i);
    let t = array_slot(items, i);
    assert(p.take(0).len() == 0);
    assert forall|m: int| 0 <= m < rest.len() implies #[trigger] rest.take(m) == p.take(m + 1).skip(1) by {
        assert(rest.take(m) =~= p.take(m + 1).skip(1));
    }
    if 0 <= t < items.len() && items[t].0 == i {
        let c = items[t].1;
        lemma_item_index(items, i, t);
        assert forall|m: int| 0 <= m < rest.len() && (#[trigger] node_at(c, rest.take(m))) is Some implies kind_of_node(
            node_at(c, rest.take(m))->0,
        ) == kind_of(rest[m]) by {
            lemma_node_at_step(n, p.take(m + 1));
            assert(p.take(m + 1)[0] == p[0]);
            assert(rest[m] == p[m + 1]);
        }
        lemma_node_at_step(n, p);
        assert(node_at(c, rest) is None);
        lemma_insert_nodes(c, rest, v);
        let c2 = insert_spec(c, rest, v).0;
        let u = items.update(t, (i, c2));
        assert(n2 == NodeModel::Array(u));
        lemma_update_index(items, t, c2, i);
        lemma_items_ordered(u);
        assert forall|m: int| 0 <= m <= p.len() implies node_of_kind(#[trigger] node_at(n2, p.take(m)), kind_at(p, m)) by {
            if m > 0 {
                lemma_node_at_step(n2, p.take(m));
                assert(p.take(m)[0] == p[0]);
                assert(p.take(m).skip(1) =~= rest.take(m - 1));
                assert(u[t].1 == c2);
                if m < p.len() {
                    assert(rest[m - 1] == p[m]);
                }
            }
        }
        assert(p.take(p.len() as int) =~= p);
        assert(rest.take(rest.len() as int) =~= rest);
        assert forall|q: Seq<SegmentModel>| (#[trigger] node_at(n, q)) is Some implies kept(node_at(n, q), node_at(n2, q)) by {
            if q.len() > 0 {
                lemma_node_at_step(n, q);
                lemma_node_at_step(n2, q);
                if let SegmentModel::Index(i2) = q[0] {
                    lemma_update_index(items, t, c2, i2);
                    if i2 != i {
                        let t2 = item_index(items, i2)->0;
                        assert(u[t2] == items[t2]);
                    }
                }
            }
        }
        assert forall|q: Seq<SegmentModel>| (#[trigger] node_at(n2, q)) is Some implies node_at(n, q) is Some
            || exists|m: int| 0 <= m <= p.len() && q == p.take(m) by {
            if q.len() == 0 {
                assert(q =~= p.take(0));
            } else {
                lemma_node_at_step(n, q);
                lemma_node_at_step(n2, q);
                if let SegmentModel::Index(i2) = q[0] {
                    lemma_update_index(items, t, c2, i2);
                    if i2 != i {
                        let t2 = item_index(items, i2)->0;
                        assert(u[t2] == items[t2]);
                    } else if node_at(c, q.skip(1)) is None {
                        let m1 = choose|m1: int| 0 <= m1 <= rest.len() && q.skip(1) == rest.take(m1);
                        lemma_prefix_join(p, q, m1);
                    }
                }
            }
        }
    } else {
        let c2 = create_spec(rest, v);
        let u = items.insert(t, (i, c2));
        assert(n2 == NodeModel::Array(u));
        assert forall|x: int| 0 <= x < items.len() implies items[x].0 != i by {
            if x > t {
                assert(items[t].0 < items[x].0);
            }
        }
        lemma_array_insert_increases(items, i, c2);
        lemma_insert_index(items, t, i, c2, i);
        lemma_create_nodes(rest, v);
        lemma_create_ordered(rest, v);
        assert forall|m: int| 0 <= m <= p.len() implies node_of_kind(#[trigger] node_at(n2, p.take(m)), kind_at(p, m)) by {
            if m > 0 {
                lemma_node_at_step(n2, p.take(m));
                assert(p.take(m)[0] == p[0]);
                assert(p.take(m).skip(1) =~= rest.take(m - 1));
                if m < p.len() {
                    assert(rest[m - 1] == p[m]);
                }
            }
        }
        assert(p.take(p.len() as int) =~= p);
        assert(rest.take(rest.len() as int) =~= rest);
        assert forall|q: Seq<SegmentModel>| (#[trigger] node_at(n, q)) is Some implies kept(node_at(n, q), node_at(n2, q)) by {
            if q.len() > 0 {
                lemma_node_at_step(n, q);
                lemma_node_at_step(n2, q);
                if let SegmentModel::Index(i2) = q[0] {
                    lemma_insert_index(items, t, i, c2, i2);
                    if i2 != i {
                        let t2 = item_index(items, i2)->0;
                        let t3 = if t2 < t { t2 } else { t2 + 1 };
                        assert(u[t3] == items[t2]);
                    }
                }
            }
        }
        assert forall|q: Seq<SegmentModel>| (#[trigger] node_at(n2, q)) is Some implies node_at(n, q) is Some
            || exists|m: int| 0 <= m <= p.len() && q == p.take(m) by {
            if q.len() == 0 {
                assert(q =~= p.take(0));
            } else {
                lemma_node_at_step(n, q);
                lemma_node_at_step(n2, q);
                if let SegmentModel::Index(i2) = q[0] {
                    lemma_insert_index(items, t, i, c2, i2);
                    if i2 != i {
                        let t2 = item_index(items, i2)->0;
                        let t3 = if t2 < t { t2 } else { t2 + 1 };
                        assert(u[t3] == items[t2]);
                    } else {
                        assert(node_at(c2, q.skip(1)) is Some);
                        let m1 = choose|m1: int| 0 <= m1 <= rest.len() && q.skip(1) == rest.take(m1);
                        lemma_prefix_join(p, q, m1);
                    }
                }
            }
        }
    }
}

proof fn lemma_update_member(entries: Seq<(Seq<char>, NodeModel)>, t: int, c: NodeModel, k2: Seq<char>)
    requires
        keys_increase(entries),
        0 <= t < entries.len(),
    ensures
        keys_increase(entries.update(t, (entries[t].0, c))),
        member_index(entries.update(t, (entries[t].0, c)), k2) == member_index(entries, k2),
{
    let u = entries.update(t, (entries[t].0, c));
    assert forall|x: int, y: int| 0 <= x < y < u.len() implies key_before(u[x].0, u[y].0) by {
        assert(u[x].0 == entries[x].0 && u[y].0 == entries[y].0);
    }
    if exists|t2: int| 0 <= t2 < entries.len() && entries[t2].0 == k2 {
        let t2 = choose|t2: int| 0 <= t2 < entries.len() && entries[t2].0 == k2;
        lemma_member_index(entries, k2, t2);
        assert(u[t2].0 == entries[t2].0);
        lemma_member_index(u, k2, t2);
    } else {
        assert forall|t2: int| 0 <= t2 < u.len() implies u[t2].0 != k2 by {
            assert(u[t2].0 == entries[t2].0);
        }
    }
}

proof fn lemma_insert_member(entries: Seq<(Seq<char>, NodeModel)>, t: int, k: Seq<char>, c: NodeModel, k2: Seq<char>)
    requires
        keys_increase(entries),
        keys_increase(entries.insert(t, (k, c))),
        0 <= t <= entries.len(),
        forall|x: int| 0 <= x < entries.len() ==> entries[x].0 != k,
    ensures
        member_index(entries.insert(t, (k, c)), k) == Some(t),
        k2 != k ==> match member_index(entries, k2) {
            Some(t2) => member_index(entries.insert(t, (k, c)), k2) == Some(if t2 < t { t2 } else { t2 + 1 })
                && 0 <= t2 < entries.len(),
            None => member_index(entries.insert(t, (k, c)), k2) is None,
        },
{
    let u = entries.insert(t, (k, c));
    lemma_member_index(u, k, t);
    if k2 != k {
        if exists|t2: int| 0 <= t2 < entries.len() && entries[t2].0 == k2 {
            let t2 = choose|t2: int| 0 <= t2 < entries.len() && entries[t2].0 == k2;
            lemma_member_index(entries, k2, t2);
            let t3 = if t2 < t { t2 } else { t2 + 1 };
            assert(u[t3] == entries[t2]);
            lemma_member_index(u, k2, t3);
        } else {
            assert forall|t2: int| 0 <= t2 < u.len() implies u[t2].0 != k2 by {
                if t2 < t {
                    assert(u[t2] == entries[t2]);
                } else if t2 > t {
                    assert(u[t2] == entries[t2 - 1]);
                }
            }
        }
    }
}

#[verifier::rlimit(80)]
proof fn lemma_insert_object_nodes(entries: Seq<(Seq<char>, NodeModel)>, k: Seq<char>, p: Seq<SegmentModel>, v: Seq<char>)
    requires
        p.len() > 0,
        p[0] == SegmentModel::Key(k),
        insertable(NodeModel::Object(entries), p),
    ensures
        insert_spec(NodeModel::Object(entries), p, v).1,
        inserted(NodeModel::Object(entries), p, v, insert_spec(NodeModel::Object(entries), p, v).0),
    decreases p.len(), 0int,
{
    let n = NodeModel::Object(entries);
    let rest = p.skip(1);
    let (n2, ok) = insert_spec(n, p, v);
    lemma_members_ordered(entries);
    lemma_object_slot(entries, k);
    let t = object_slot(entries, k);
    assert(p.take(0).len() == 0);
    assert forall|m: int| 0 <= m < rest.len() implies #[trigger] rest.take(m) == p.take(m + 1).skip(1) by {
        assert(rest.take(m) =~= p.take(m + 1).skip(1));
    }
    if 0 <= t < entries.len() && entries[t].0 == k {
        let c = entries[t].1;
        lemma_member_index(entries, k, t);
        assert forall|m: int| 0 <= m < rest.len() && (#[trigger] node_at(c, rest.take(m))) is Some implies kind_of_node(
            node_at(c, rest.take(m))->0,
        ) == kind_of(rest[m]) by {
            lemma_node_at_step(n, p.take(m + 1));
            assert(p.take(m + 1)[0] == p[0]);
            assert(rest[m] == p[m + 1]);
        }
        lemma_node_at_step(n, p);
        assert(node_at(c, rest) is None);
        lemma_insert_nodes(c, rest, v);
        let c2 = insert_spec(c, rest, v).0;
        let u = entries.update(t, (k, c2));
        assert(n2 == NodeModel::Object(u));
        lemma_update_member(entries, t, c2, k);
        lemma_members_ordered(u);
        assert forall|m: int| 0 <= m <= p.len() implies node_of_kind(#[trigger] node_at(n2, p.take(m)), kind_at(p, m)) by {
            if m > 0 {
                lemma_node_at_step(n2, p.take(m));
                assert(p.take(m)[0] == p[0]);
                assert(p.take(m).skip(1) =~= rest.take(m - 1));
                assert(u[t].1 == c2);
                if m < p.len() {
                    assert(rest[m - 1] == p[m]);
                }
            }
        }
        assert(p.take(p.len() as int) =~= p);
        assert(rest.take(rest.len() as int) =~= rest);
        assert forall|q: Seq<SegmentModel>| (#[trigger] node_at(n, q)) is Some implies kept(node_at(n, q), node_at(n2, q)) by {
            if q.len() > 0 {
                lemma_node_at_step(n, q);
                lemma_node_at_step(n2, q);
                if let SegmentModel::Key(k2) = q[0] {
                    lemma_update_member(entries, t, c2, k2);
                    if k2 != k {
                        let t2 = member_index(entries, k2)->0;
                        assert(u[t2] == entries[t2]);
                    }
                }
            }
        }
        assert forall|q: Seq<SegmentModel>| (#[trigger] node_at(n2, q)) is Some implies node_at(n, q) is Some
            || exists|m: int| 0 <= m <= p.len() && q == p.take(m) by {
            if q.len() == 0 {
                assert(q =~= p.take(0));
            } else {
                lemma_node_at_step(n, q);
                lemma_node_at_step(n2, q);
                if let SegmentModel::Key(k2) = q[0] {
                    lemma_update_member(entries, t, c2, k2);
                    if k2 != k {
                        let t2 = member_index(entries, k2)->0;
                        assert(u[t2] == entries[t2]);
                    } else if node_at(c, q.skip(1)) is None {
                        let m1 = choose|m1: int| 0 <= m1 <= rest.len() && q.skip(1) == rest.take(m1);
                        lemma_prefix_join(p, q, m1);
                    }
                }
            }
        }
    } else {
        let c2 = create_spec(rest, v);
        let u = entries.insert(t, (k, c2));
        assert(n2 == NodeModel::Object(u));
        assert forall|x: int| 0 <= x < entries.len() implies entries[x].0 != k by {
            lemma_key_order(k, k, k);
            if x > t {
                assert(key_before(entries[t].0, entries[x].0));
                lemma_key_order(entries[t].0, k, entries[x].0);
                lemma_key_order(k, entries[t].0, entries[x].0);
            }
        }
        lemma_object_insert_increases(entries, k, c2);
        lemma_insert_member(entries, t, k, c2, k);
        lemma_create_nodes(rest, v);
        lemma_create_ordered(rest, v);
        assert forall|m: int| 0 <= m <= p.len() implies node_of_kind(#[trigger] node_at(n2, p.take(m)), kind_at(p, m)) by {
            if m > 0 {
                lemma_node_at_step(n2, p.take(m));
                assert(p.take(m)[0] == p[0]);
                assert(p.take(m).skip(1) =~= rest.take(m - 1));
                if m < p.len() {
                    assert(rest[m - 1] == p[m]);
                }
            }
        }
        assert(p.take(p.len() as int) =~= p);
        assert(rest.take(rest.len() as int) =~= rest);
        assert forall|q: Seq<SegmentModel>| (#[trigger] node_at(n, q)) is Some implies kept(node_at(n, q), node_at(n2, q)) by {
            if q.len() > 0 {
                lemma_node_at_step(n, q);
                lemma_node_at_step(n2, q);
                if let SegmentModel::Key(k2) = q[0] {
                    lemma_insert_member(entries, t, k, c2, k2);
                    if k2 != k {
                        let t2 = member_index(entries, k2)->0;
                        let t3 = if t2 < t { t2 } else { t2 + 1 };
                        assert(u[t3] == entries[t2]);
                    }
                }
            }
        }
        assert forall|q: Seq<SegmentModel>| (#[trigger] node_at(n2, q)) is Some implies node_at(n, q) is Some
            || exists|m: int| 0 <= m <= p.len() && q == p.take(m) by {
            if q.len() == 0 {
                assert(q =~= p.take(0));
            } else {
                lemma_node_at_step(n, q);
                lemma_node_at_step(n2, q);
                if let SegmentModel::Key(k2) = q[0] {
                    lemma_insert_member(entries, t, k, c2, k2);
                    if k2 != k {
                        let t2 = member_index(entries, k2)->0;
                        let t3 = if t2 < t { t2 } else { t2 + 1 };
                        assert(u[t3] == entries[t2]);
                    } else {
                        assert(node_at(c2, q.skip(1)) is Some);
                        let m1 = choose|m1: int| 0 <= m1 <= rest.len() && q.skip(1) == rest.take(m1);
                        lemma_prefix_join(p, q, m1);
                    }
                }
            }
        }
    }
}

proof fn lemma_prefix_join(p: Seq<SegmentModel>, q: Seq<SegmentModel>, m1: int)
    requires
        p.len() > 0,
        q.len() > 0,
        q[0] == p[0],
        0 <= m1 <= p.len() - 1,
        q.skip(1) == p.skip(1).take(m1),
    ensures
        q == p.take(m1 + 1),
{
    assert(q.skip(1).len() == q.len() - 1);
    assert(p.skip(1).take(m1).len() == m1);
    assert(q.len() == m1 + 1);
    assert forall|x: int| 0 <= x < q.len() implies q[x] == p.take(m1 + 1)[x] by {
        if x > 0 {
            assert(q[x] == q.skip(1)[x - 1]);
            assert(p.skip(1).take(m1)[x - 1] == p[x]);
        }
    }
    assert(q =~= p.take(m1 + 1));
}

proof fn lemma_insert_nodes(n: NodeModel, p: Seq<SegmentModel>, v: Seq<char>)
    requires
        insertable(n, p),
    ensures
        insert_spec(n, p, v).1,
        inserted(n, p, v, insert_spec(n, p, v).0),
    decreases p.len(), 1int,
{
    assert(p.take(0).len() == 0);
    if p.len() == 0 {
        assert(p =~= p.take(0));
    }
    assert(node_at(n, p.take(0)) == Some(n));
    match p[0] {
        SegmentModel::Index(i) => {
            lemma_insert_array_nodes(n->Array_0, i, p, v);
        },
        SegmentModel::Key(k) => {
            lemma_insert_object_nodes(n->Object_0, k, p, v);
        },
    }
}

// ---------------------------------------------------------------------------
// A validated batch.

/// What the tree built from the first `k` directives holds: at each prefix of their
/// paths a node of the kind that the path asks, their values at their paths, and no
/// other node.
pub open spec fn holds_batch(t: NodeModel, ms: Seq<DirectiveModel>, k: int) -> bool {
    &&& ordered(t)
    &&& forall|j: int, m: int|
        0 <= j < k && 0 <= m <= ms[j].path.len() ==> node_of_kind(
            #[trigger] node_at(t, ms[j].path.take(m)),
            kind_at(ms[j].path, m),
        )
    &&& forall|j: int| 0 <= j < k ==> #[trigger] node_at(t, ms[j].path) == Some(NodeModel::Value(ms[j].value))
    &&& forall|q: Seq<SegmentModel>|
        (#[trigger] node_at(t, q)) is Some ==> exists|j: int, m: int|
            0 <= j < k && 0 <= m <= ms[j].path.len() && q == ms[j].path.take(m)
}

proof fn lemma_valid_paths_differ(ms: Seq<DirectiveModel>, j1: int, j2: int)
    requires
        validate_spec(ms) is Ok,
        0 <= j1 < j2 < ms.len(),
    ensures
        ms[j1].path != ms[j2].path,
{
    reveal(first_clash);
    let obs = path_sightings(ms);
    if ms[j1].path == ms[j2].path {
        assert(clash(obs, j1, j2));
        assert(clashes_at(obs, j2));
    }
}

proof fn lemma_valid_kinds_agree(ms: Seq<DirectiveModel>, j1: int, m1: int, j2: int, m2: int)
    requires
        validate_spec(ms) is Ok,
        0 <= j1 < ms.len(),
        0 <= j2 < ms.len(),
        0 <= m1 <= ms[j1].path.len(),
        0 <= m2 <= ms[j2].path.len(),
        ms[j1].path.take(m1) == ms[j2].path.take(m2),
    ensures
        kind_at(ms[j1].path, m1) == kind_at(ms[j2].path, m2),
{
    reveal(first_clash);
    let obs = kind_sightings(ms);
    let x1 = lemma_kind_place(ms, j1, m1);
    let x2 = lemma_kind_place(ms, j2, m2);
    if kind_at(ms[j1].path, m1) != kind_at(ms[j2].path, m2) {
        if x1 < x2 {
            assert(clash(obs, x1, x2));
            assert(clashes_at(obs, x2));
        } else {
            assert(clash(obs, x2, x1));
            assert(clashes_at(obs, x1));
        }
    }
}

proof fn lemma_kind_place(ms: Seq<DirectiveModel>, j: int, m: int) -> (x: int)
    requires
        0 <= j < ms.len(),
        0 <= m <= ms[j].path.len(),
    ensures
        0 <= x < kind_sightings(ms).len(),
        kind_sightings(ms)[x].key == ms[j].path.take(m),
        kind_sightings(ms)[x].tag == kind_at(ms[j].path, m),
{
    let of = |p: Seq<SegmentModel>| kind_sightings_of(p);
    lemma_concat_prefix(ms, of, j + 1);
    lemma_concat_step(ms, of, j);
    lemma_kind_sightings_of(ms[j].path);
    let before = concat_sightings(ms.take(j), of);
    let here = kind_sightings_of(ms[j].path);
    let i = ms[j].path.len() - m;
    let x = before.len() + i;
    let part = concat_sightings(ms.take(j + 1), of);
    assert(part[x] == here[i]);
    assert(kind_sightings(ms)[x] == part[x]);
    x
}

proof fn lemma_build_step(ms: Seq<DirectiveModel>, k: int)
    requires
        validate_spec(ms) is Ok,
        1 <= k < ms.len(),
        build_spec(ms.take(k)) is Some,
        holds_batch(build_spec(ms.take(k))->0, ms, k),
    ensures
        insert_spec(build_spec(ms.take(k))->0, ms[k].path, ms[k].value).1,
        build_spec(ms.take(k + 1)) == Some(insert_spec(build_spec(ms.take(k))->0, ms[k].path, ms[k].value).0),
        holds_batch(build_spec(ms.take(k + 1))->0, ms, k + 1),
{
    let t = build_spec(ms.take(k))->0;
    let p = ms[k].path;
    let v = ms[k].value;
    assert(ms.take(k + 1).drop_last() =~= ms.take(k));
    assert(ms.take(k + 1).last() == ms[k]);
    assert forall|m: int| 0 <= m < p.len() && (#[trigger] node_at(t, p.take(m))) is Some implies kind_of_node(
        node_at(t, p.take(m))->0,
    ) == kind_of(p[m]) by {
        let (j, m2) = choose|j: int, m2: int|
            0 <= j < k && 0 <= m2 <= ms[j].path.len() && p.take(m) == ms[j].path.take(m2);
        assert(node_of_kind(node_at(t, ms[j].path.take(m2)), kind_at(ms[j].path, m2)));
        lemma_valid_kinds_agree(ms, j, m2, k, m);
    }
    assert(node_at(t, p) is None) by {
        if node_at(t, p) is Some {
            assert(p.take(p.len() as int) =~= p);
            let (j, m2) = choose|j: int, m2: int|
                0 <= j < k && 0 <= m2 <= ms[j].path.len() && p == ms[j].path.take(m2);
            if m2 == ms[j].path.len() {
                assert(ms[j].path.take(m2) =~= ms[j].path);
                lemma_valid_paths_differ(ms, j, k);
            } else {
                lemma_valid_kinds_agree(ms, j, m2, k, p.len() as int);
            }
        }
    }
    lemma_insert_nodes(t, p, v);
    lemma_insert_ordered(t, p, v);
    let t2 = insert_spec(t, p, v).0;
    assert forall|j: int, m: int|
        0 <= j < k + 1 && 0 <= m <= ms[j].path.len() implies node_of_kind(
        #[trigger] node_at(t2, ms[j].path.take(m)),
        kind_at(ms[j].path, m),
    ) by {
        if j < k {
            assert(node_of_kind(node_at(t, ms[j].path.take(m)), kind_at(ms[j].path, m)));
        }
    }
    assert forall|j: int| 0 <= j < k + 1 implies #[trigger] node_at(t2, ms[j].path) == Some(
        NodeModel::Value(ms[j].value),
    ) by {
        if j < k {
            assert(node_at(t, ms[j].path) == Some(NodeModel::Value(ms[j].value)));
        }
    }
    assert forall|q: Seq<SegmentModel>| (#[trigger] node_at(t2, q)) is Some implies exists|j: int, m: int|
        0 <= j < k + 1 && 0 <= m <= ms[j].path.len() && q == ms[j].path.take(m) by {
        if node_at(t, q) is Some {
            let (j, m) = choose|j: int, m: int|
                0 <= j < k && 0 <= m <= ms[j].path.len() && q == ms[j].path.take(m);
        } else {
            let m = choose|m: int| 0 <= m <= p.len() && q == p.take(m);
            assert(q == ms[k].path.take(m));
        }
    }
}

proof fn lemma_build_holds(ms: Seq<DirectiveModel>, k: int)
    requires
        validate_spec(ms) is Ok,
        1 <= k <= ms.len(),
    ensures
        build_spec(ms.take(k)) is Some,
        holds_batch(build_spec(ms.take(k))->0, ms, k),
        forall|i: int|
            1 <= i < k ==> #[trigger] insert_spec(build_spec(ms.take(i))->0, ms[i].path, ms[i].value).1,
    decreases k,
{
    if k == 1 {
        let t = create_spec(ms[0].path, ms[0].value);
        assert(ms.take(1)[0] == ms[0]);
        assert(build_spec(ms.take(1)) == Some(t));
        lemma_create_nodes(ms[0].path, ms[0].value);
        lemma_create_ordered(ms[0].path, ms[0].value);
        assert(ms[0].path.take(ms[0].path.len() as int) =~= ms[0].path);
        assert forall|q: Seq<SegmentModel>| (#[trigger] node_at(t, q)) is Some implies exists|j: int, m: int|
            0 <= j < 1 && 0 <= m <= ms[j].path.len() && q == ms[j].path.take(m) by {
            let m = choose|m: int| 0 <= m <= ms[0].path.len() && q == ms[0].path.take(m);
        }
    } else {
        lemma_build_holds(ms, k - 1);
        lemma_build_step(ms, k - 1);
    }
}

/// In a batch that passes validation every insertion of the build succeeds, and the tree
/// holds each directive's value at its path, a node of the kind that the batch asks at
/// each prefix of a path, and no other node.
pub proof fn lemma_tree_holds_batch(ms: Seq<DirectiveModel>)
    requires
        validate_spec(ms) is Ok,
        ms.len() > 0,
    ensures
        build_spec(ms) is Some,
        holds_batch(build_spec(ms)->0, ms, ms.len() as int),
        forall|i: int|
            1 <= i < ms.len() ==> #[trigger] insert_spec(build_spec(ms.take(i))->0, ms[i].path, ms[i].value).1,
{
    lemma_build_holds(ms, ms.len() as int);
    assert(ms.take(ms.len() as int) =~= ms);
}

// ---------------------------------------------------------------------------
// Checking the order of a tree.

impl Node {
    /// Whether every array and object of the tree has its members in increasing order.
    pub fn is_ordered(&self) -> (r: bool)
        ensures
            r == ordered(self.model()),
        decreases self,
    {
        match self {
            Node::Value(_) => true,
            Node::Array(items) => {
                proof {
                    lemma_array_models(items@);
                    lemma_items_ordered(array_models(items@));
                }
                let ghost ms = array_models(items@);
                let mut k: usize = 0;
                while k < items.len()
                    invariant
                        k <= items@.len(),
                        *self == Node::Array(*items),
                        ms == array_models(items@),
                        ms.len() == items@.len(),
                        forall|i: int| 0 <= i < items@.len() ==> #[trigger] ms[i] == (items@[i].0, items@[i].1.model()),
                        indices_increase(ms.take(k as int)),
                        forall|i: int| 0 <= i < k ==> ordered(#[trigger] ms[i].1),
                    decreases items@.len() - k,
                {
                    if k > 0 && items[k - 1].0 >= items[k].0 {
                        assert(ms[k - 1] == (items@[k - 1].0, items@[k - 1].1.model()));
                        assert(ms[k as int] == (items@[k as int].0, items@[k as int].1.model()));
                        assert(!indices_increase(ms));
                        return false;
                    }
                    proof {
                        assert(decreases_to!(*self => (*self)->Array_0));
                        assert(decreases_to!(*items => items@));
                        assert(decreases_to!(items@ => items@[k as int]));
                        assert(decreases_to!(items@[k as int] => items@[k as int].1));
                    }
                    if !items[k].1.is_ordered() {
                        assert(ms[k as int] == (items@[k as int].0, items@[k as int].1.model()));
                        assert(!ordered(ms[k as int].1));
                        proof {
                            lemma_items_ordered(ms);
                        }
                        return false;
                    }
                    proof {
                        let t = ms.take(k + 1);
                        assert forall|x: int, y: int| 0 <= x < y < t.len() implies t[x].0 < t[y].0 by {
                            if y < k {
                                assert(ms.take(k as int)[x] == t[x] && ms.take(k as int)[y] == t[y]);
                            } else if x < k - 1 {
                                assert(ms.take(k as int)[x] == t[x] && ms.take(k as int)[k - 1] == t[k - 1]);
                            }
                        }
                    }
                    k = k + 1;
                }
                assert(ms.take(k as int) =~= ms);
                true
            },
            Node::Object(entries) => {
                proof {
                    lemma_object_models(entries@);
                    lemma_members_ordered(object_models(entries@));
                }
                let ghost ms = object_models(entries@);
                let mut k: usize = 0;
                while k < entries.len()
                    invariant
                        k <= entries@.len(),
                        *self == Node::Object(*entries),
                        ms == object_models(entries@),
                        ms.len() == entries@.len(),
                        forall|i: int| 0 <= i < entries@.len() ==> #[trigger] ms[i] == (entries@[i].0@, entries@[i].1.model()),
                        keys_increase(ms.take(k as int)),
                        forall|i: int| 0 <= i < k ==> ordered(#[trigger] ms[i].1),
                    decreases entries@.len() - k,
                {
                    if k > 0 && !key_before_exec(&entries[k - 1].0, &entries[k].0) {
                        assert(ms[k - 1] == (entries@[k - 1].0@, entries@[k - 1].1.model()));
                        assert(ms[k as int] == (entries@[k as int].0@, entries@[k as int].1.model()));
                        assert(!key_before(ms[k - 1].0, ms[k as int].0));
                        proof {
                            if keys_increase(ms) {
                                assert(key_before(ms[k - 1].0, ms[k as int].0));
                            }
                        }
                        assert(!keys_increase(ms));
                        return false;
                    }
                    proof {
                        assert(decreases_to!(*self => (*self)->Object_0));
                        assert(decreases_to!(*entries => entries@));
                        assert(decreases_to!(entries@ => entries@[k as int]));
                        assert(decreases_to!(entries@[k as int] => entries@[k as int].1));
                    }
                    if !entries[k].1.is_ordered() {
                        assert(ms[k as int] == (entries@[k as int].0@, entries@[k as int].1.model()));
                        assert(!ordered(ms[k as int].1));
                        proof {
                            lemma_members_ordered(ms);
                        }
                        return false;
                    }
                    proof {
                        let t = ms.take(k + 1);
                        assert forall|x: int, y: int| 0 <= x < y < t.len() implies key_before(t[x].0, t[y].0) by {
                            if y < k {
                                assert(ms.take(k as int)[x] == t[x] && ms.take(k as int)[y] == t[y]);
                            } else if x < k - 1 {
                                assert(ms.take(k as int)[x] == t[x] && ms.take(k as int)[k - 1] == t[k - 1]);
                                lemma_key_order(t[x].0, t[k - 1].0, t[y].0);
                            }
                        }
                    }
                    k = k + 1;
                }
                assert(ms.take(k as int) =~= ms);
                true
            },
        }
    }
}

} // verus!
