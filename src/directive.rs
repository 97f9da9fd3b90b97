use crate::escape::{escape, escape_chars, unescape, unescape_string};
use crate::parser::{
    is_identifier, is_xid_string, DirectiveAst, DirectiveAstModel, OperatorAst, SegmentAst, SegmentAstModel,
};
use crate::text::{chars_of, string_of, string_of_range};
use std::rc::Rc;
use vstd::prelude::*;

verus! {

/// The mathematical value of a [`Segment`]: keys are held in their escaped spelling.
pub enum SegmentModel {
    Index(u32),
    Key(Seq<char>),
}

/// One component of a [`Path`]: an array index or an object key in escaped form
/// (the text between the quotes of a JSON string).
#[derive(Debug)]
pub enum Segment {
    Index(u32),
    Key(String),
}

impl View for Segment {
    type V = SegmentModel;

    open spec fn view(&self) -> SegmentModel {
        match self {
            Segment::Index(i) => SegmentModel::Index(*i),
            Segment::Key(k) => SegmentModel::Key(k@),
        }
    }
}

/// A location in the document, as a chain of segments whose prefixes are shared.
#[derive(Debug)]
pub enum Path {
    Root,
    Append(Rc<Path>, Segment),
}

impl Path {
    /// The segments of the path, outermost first.
    pub open spec fn segments(&self) -> Seq<SegmentModel>
        decreases self,
    {
        match self {
            Path::Root => Seq::empty(),
            Path::Append(prefix, segment) => prefix.segments().push(segment@),
        }
    }

    pub fn root() -> (r: Rc<Path>)
        ensures
            r@ == Seq::<SegmentModel>::empty(),
    {
        Rc::new(Path::Root)
    }

    pub fn append(self: &Rc<Self>, segment: Segment) -> (r: Rc<Path>)
        ensures
            r@ == self@.push(segment@),
    {
        Rc::new(Path::Append(self.clone(), segment))
    }

    pub fn len(&self) -> (r: usize)
        requires
            self@.len() <= usize::MAX,
        ensures
            r == self@.len(),
        decreases self,
    {
        match self {
            Path::Root => 0,
            Path::Append(prefix, _) => prefix.len() + 1,
        }
    }
}

impl Clone for Segment {
    fn clone(&self) -> (r: Segment)
        ensures
            r@ == self@,
    {
        match self {
            Segment::Index(i) => Segment::Index(*i),
            Segment::Key(k) => Segment::Key(k.clone()),
        }
    }
}

impl PartialEq for Segment {
    fn eq(&self, other: &Segment) -> (r: bool) {
        match (self, other) {
            (Segment::Index(a), Segment::Index(b)) => *a == *b,
            (Segment::Key(a), Segment::Key(b)) => *a == *b,
            _ => false,
        }
    }
}

impl vstd::std_specs::cmp::PartialEqSpecImpl for Segment {
    open spec fn obeys_eq_spec() -> bool {
        true
    }

    open spec fn eq_spec(&self, other: &Segment) -> bool {
        self@ == other@
    }
}

/// The segment with its key, if any, unescaped.
pub open spec fn unescape_segment(s: SegmentModel) -> SegmentModel {
    match s {
        SegmentModel::Index(i) => SegmentModel::Index(i),
        SegmentModel::Key(k) => SegmentModel::Key(unescape(k)),
    }
}

/// The path with each key unescaped.
pub open spec fn unescape_path(p: Seq<SegmentModel>) -> Seq<SegmentModel> {
    p.map_values(|s: SegmentModel| unescape_segment(s))
}

impl Segment {
    /// The same segment with its key unescaped.
    pub fn unescape(&self) -> (r: Segment)
        ensures
            r@ == unescape_segment(self@),
    {
        match self {
            Segment::Key(key) => Segment::Key(unescape_string(key.as_str())),
            Segment::Index(i) => Segment::Index(*i),
        }
    }

    /// The escaped key, or `None` for an index.
    pub fn as_unquoted(&self) -> (r: Option<&str>)
        ensures
            match self@ {
                SegmentModel::Key(k) => r matches Some(s) && s@ == k,
                SegmentModel::Index(_) => r is None,
            },
    {
        match self {
            Segment::Key(key) => Some(key.as_str()),
            Segment::Index(_) => None,
        }
    }
}

impl Path {
    /// The path without its last segment, or `None` for the root.
    pub fn prefix(&self) -> (r: Option<Rc<Path>>)
        ensures
            self@.len() == 0 ==> r is None,
            self@.len() > 0 ==> (r matches Some(p) && p@ == self@.drop_last()),
    {
        match self {
            Path::Root => None,
            Path::Append(prefix, _) => Some(prefix.clone()),
        }
    }

    /// The path without its last segment, and that segment; `None` for the root.
    pub fn split_last(&self) -> (r: Option<(Rc<Path>, Segment)>)
        ensures
            self@.len() == 0 ==> r is None,
            self@.len() > 0 ==> (r matches Some((p, s)) && p@ == self@.drop_last() && s@
                == self@.last()),
    {
        match self {
            Path::Root => None,
            Path::Append(prefix, segment) => Some((prefix.clone(), segment.clone())),
        }
    }

    /// The segments of the path, outermost first.
    pub fn to_segments(&self) -> (r: Vec<Segment>)
        ensures
            r@.map_values(|s: Segment| s@) == self@,
        decreases self,
    {
        match self {
            Path::Root => Vec::new(),
            Path::Append(prefix, segment) => {
                let mut v = prefix.to_segments();
                let ghost before = v@;
                v.push(segment.clone());
                assert(v@.map_values(|s: Segment| s@) =~= before.map_values(|s: Segment| s@).push(
                    segment@,
                ));
                v
            },
        }
    }

    /// The path made of `segments[from..]`.
    pub fn from_segments(segments: &[Segment], from: usize) -> (r: Rc<Path>)
        requires
            from <= segments@.len(),
        ensures
            r@ == segments@.skip(from as int).map_values(|s: Segment| s@),
    {
        let mut path = Path::root();
        let mut i: usize = from;
        while i < segments.len()
            invariant
                from <= i <= segments@.len(),
                path@ == segments@.subrange(from as int, i as int).map_values(|s: Segment| s@),
            decreases segments@.len() - i,
        {
            path = path.append(segments[i].clone());
            i = i + 1;
            assert(path@ =~= segments@.subrange(from as int, i as int).map_values(
                |s: Segment| s@,
            ));
        }
        assert(segments@.subrange(from as int, i as int) =~= segments@.skip(from as int));
        path
    }

    /// The first segment and the path of the others; `None` for the root.
    pub fn split_first(&self) -> (r: Option<(Segment, Rc<Path>)>)
        ensures
            self@.len() == 0 ==> r is None,
            self@.len() > 0 ==> (r matches Some((s, p)) && s@ == self@[0] && p@ == self@.skip(1)),
    {
        let segments = self.to_segments();
        if segments.len() == 0 {
            None
        } else {
            let first = segments[0].clone();
            let rest = Path::from_segments(segments.as_slice(), 1);
            assert(rest@ =~= self@.skip(1));
            Some((first, rest))
        }
    }

    /// The path with each key unescaped.
    pub fn unescape(self: &Rc<Self>) -> (r: Rc<Path>)
        ensures
            r@ == unescape_path(self@),
        decreases self,
    {
        match &**self {
            Path::Root => self.clone(),
            Path::Append(prefix, key) => {
                let p = prefix.unescape();
                let r = p.append(key.unescape());
                assert(r@ =~= unescape_path(self@));
                r
            },
        }
    }

    /// Each proper prefix of the path with the segment that follows it, innermost first.
    pub fn iter(self: &Rc<Path>) -> (r: Vec<(Rc<Path>, Segment)>)
        ensures
            r@.len() == self@.len(),
            forall|k: int|
                0 <= k < r@.len() ==> (#[trigger] r@[k]).0@ == self@.take(self@.len() - 1 - k)
                    && r@[k].1@ == self@[self@.len() - 1 - k],
    {
        let mut out: Vec<(Rc<Path>, Segment)> = Vec::new();
        let mut path = self.clone();
        loop
            invariant
                path@.len() + out@.len() == self@.len(),
                path@ == self@.take(path@.len() as int),
                forall|k: int|
                    0 <= k < out@.len() ==> (#[trigger] out@[k]).0@ == self@.take(
                        self@.len() - 1 - k,
                    ) && out@[k].1@ == self@[self@.len() - 1 - k],
            ensures
                out@.len() == self@.len(),
                forall|k: int|
                    0 <= k < out@.len() ==> (#[trigger] out@[k]).0@ == self@.take(
                        self@.len() - 1 - k,
                    ) && out@[k].1@ == self@[self@.len() - 1 - k],
            decreases path@.len(),
        {
            match path.split_last() {
                None => break,
                Some((prefix, segment)) => {
                    proof {
                        assert(prefix@ =~= self@.take(prefix@.len() as int));
                    }
                    out.push((prefix.clone(), segment));
                    path = prefix;
                },
            }
        }
        out
    }

    /// Whether the two paths have the same segments.
    pub fn same(&self, other: &Path) -> (r: bool)
        ensures
            r == (self@ == other@),
        decreases self,
    {
        match (self, other) {
            (Path::Root, Path::Root) => true,
            (Path::Append(p, s), Path::Append(q, t)) => {
                assert(self@ == p@.push(s@));
                assert(other@ == q@.push(t@));
                if s == t && p.same(q) {
                    true
                } else {
                    proof {
                        if self@ == other@ {
                            assert(self@.drop_last() =~= p@);
                            assert(other@.drop_last() =~= q@);
                            assert(self@.last() == s@);
                            assert(other@.last() == t@);
                        }
                    }
                    false
                }
            },
            _ => {
                proof {
                    if self@ == other@ {
                        assert(self@.len() == other@.len());
                    }
                }
                false
            },
        }
    }
}

impl PartialEq for Path {
    fn eq(&self, other: &Path) -> (r: bool) {
        self.same(other)
    }
}

impl vstd::std_specs::cmp::PartialEqSpecImpl for Path {
    open spec fn obeys_eq_spec() -> bool {
        true
    }

    open spec fn eq_spec(&self, other: &Path) -> bool {
        self@ == other@
    }
}

impl View for Path {
    type V = Seq<SegmentModel>;

    open spec fn view(&self) -> Seq<SegmentModel> {
        self.segments()
    }
}

/// One parsed directive: where the value goes and the JSON text of the value.
#[derive(Debug)]
pub struct Directive {
    pub path: Rc<Path>,
    pub value: String,
}

/// The mathematical value of a [`Directive`].
pub struct DirectiveModel {
    pub path: Seq<SegmentModel>,
    pub value: Seq<char>,
}

impl View for Directive {
    type V = DirectiveModel;

    open spec fn view(&self) -> DirectiveModel {
        DirectiveModel { path: self.path@, value: self.value@ }
    }
}

/// The text between the quotes of a quoted key.
pub open spec fn key_of_quoted(q: Seq<char>) -> Seq<char> {
    if q.len() >= 2 {
        q.subrange(1, q.len() - 1)
    } else {
        Seq::empty()
    }
}

/// A segment as written, in the escaped form that keys are held in.
pub open spec fn segment_of_ast(g: SegmentAstModel) -> SegmentModel {
    match g {
        SegmentAstModel::ArrayIndex(i) => SegmentModel::Index(i),
        SegmentAstModel::QuotedKey(q) => SegmentModel::Key(key_of_quoted(q)),
        SegmentAstModel::BareKey(k) => SegmentModel::Key(escape(k)),
    }
}

/// The JSON string literal whose value is the text `s`.
pub open spec fn quote(s: Seq<char>) -> Seq<char> {
    seq!['"'] + escape(s) + seq!['"']
}

/// The directive that a parsed directive stands for: `:` keeps the value as written,
/// `=` turns it into a JSON string.
pub open spec fn directive_of_ast(d: DirectiveAstModel) -> DirectiveModel {
    DirectiveModel {
        path: d.path.map_values(|g: SegmentAstModel| segment_of_ast(g)),
        value: if d.operator == OperatorAst::Colon {
            d.value
        } else {
            quote(d.value)
        },
    }
}

impl Segment {
    /// The segment that a parsed segment stands for.
    pub fn from_ast(ast: &SegmentAst) -> (r: Segment)
        ensures
            r@ == segment_of_ast(ast@),
    {
        match ast {
            SegmentAst::ArrayIndex(index) => Segment::Index(*index),
            SegmentAst::QuotedKey(quoted) => {
                let cs = chars_of(quoted.as_str());
                assert(cs@ == quoted@);
                if cs.len() >= 2 {
                    Segment::Key(string_of_range(cs.as_slice(), 1, cs.len() - 1))
                } else {
                    let k = string_of_range(cs.as_slice(), 0, 0);
                    assert(k@ =~= Seq::<char>::empty());
                    Segment::Key(k)
                }
            },
            SegmentAst::BareKey(bare) => {
                let cs = chars_of(bare.as_str());
                let escaped = escape_chars(cs.as_slice());
                Segment::Key(string_of(escaped.as_slice()))
            },
        }
    }
}

/// The JSON string literal whose value is `s`.
pub fn quote_string(s: &str) -> (r: String)
    ensures
        r@ == quote(s@),
{
    let cs = chars_of(s);
    let escaped = escape_chars(cs.as_slice());
    let mut out: Vec<char> = Vec::new();
    out.push('"');
    let mut i: usize = 0;
    while i < escaped.len()
        invariant
            i <= escaped@.len(),
            out@ == seq!['"'] + escaped@.take(i as int),
        decreases escaped@.len() - i,
    {
        out.push(escaped[i]);
        i = i + 1;
        assert(out@ =~= seq!['"'] + escaped@.take(i as int));
    }
    out.push('"');
    assert(escaped@.take(i as int) =~= escaped@);
    assert(out@ =~= quote(s@));
    string_of(out.as_slice())
}

impl Directive {
    /// The directive that a parsed directive stands for.
    pub fn from_ast(ast: DirectiveAst) -> (r: Directive)
        ensures
            r@ == directive_of_ast(ast@),
    {
        let DirectiveAst { path: segments, operator, value } = ast;
        let ghost asts = segments@;
        let mut path = Path::root();
        let mut n: usize = 0;
        while n < segments.len()
            invariant
                n <= asts.len(),
                asts == segments@,
                path@ == asts.take(n as int).map_values(|g: SegmentAst| segment_of_ast(g@)),
            decreases asts.len() - n,
        {
            path = path.append(Segment::from_ast(&segments[n]));
            n = n + 1;
            assert(path@ =~= asts.take(n as int).map_values(|g: SegmentAst| segment_of_ast(g@)));
        }
        assert(asts.take(n as int) =~= asts);
        assert(path@ =~= ast@.path.map_values(|g: SegmentAstModel| segment_of_ast(g)));
        let value = if operator == OperatorAst::Colon {
            value
        } else {
            quote_string(value.as_str())
        };
        Directive { path, value }
    }
}

// ---------------------------------------------------------------------------
// Text of segments and paths, as error messages show them.

/// The decimal digits of `n`.
pub open spec fn decimal_text(n: nat) -> Seq<char>
    decreases n,
{
    if n < 10 {
        seq![((n + 48) as u8) as char]
    } else {
        decimal_text(n / 10).push((((n % 10) + 48) as u8) as char)
    }
}

/// A segment as text: an index in decimal, a key bare where it is an identifier and
/// quoted otherwise.
pub open spec fn segment_text(s: SegmentModel) -> Seq<char> {
    match s {
        SegmentModel::Index(i) => decimal_text(i as nat),
        SegmentModel::Key(k) => if is_identifier(k) {
            k
        } else {
            seq!['"'] + k + seq!['"']
        },
    }
}

/// The segments as text, joined by dots.
pub open spec fn joined_text(p: Seq<SegmentModel>) -> Seq<char>
    decreases p.len(),
{
    if p.len() == 0 {
        Seq::empty()
    } else if p.len() == 1 {
        segment_text(p[0])
    } else {
        joined_text(p.drop_last()) + seq!['.'] + segment_text(p.last())
    }
}

/// A path as text: `.` for the root, else its segments joined by dots.
pub open spec fn path_text(p: Seq<SegmentModel>) -> Seq<char> {
    if p.len() == 0 {
        seq!['.']
    } else {
        joined_text(p)
    }
}

fn push_decimal(out: &mut Vec<char>, n: u32)
    ensures
        final(out)@ == old(out)@ + decimal_text(n as nat),
    decreases n,
{
    if n >= 10 {
        push_decimal(out, n / 10);
    }
    out.push((((n % 10) as u8) + 48) as char);
    proof {
        if n < 10 {
            assert(final(out)@ =~= old(out)@ + decimal_text(n as nat));
        } else {
            assert((n / 10) as nat == (n as nat) / 10);
            assert(final(out)@ =~= old(out)@ + decimal_text(n as nat));
        }
    }
}

fn push_chars(out: &mut Vec<char>, s: &str)
    ensures
        final(out)@ == old(out)@ + s@,
{
    let cs = chars_of(s);
    let ghost start = out@;
    let mut i: usize = 0;
    while i < cs.len()
        invariant
            i <= cs@.len(),
            out@ == start + cs@.take(i as int),
        decreases cs@.len() - i,
    {
        out.push(cs[i]);
        i = i + 1;
        assert(out@ =~= start + cs@.take(i as int));
    }
    assert(cs@.take(i as int) =~= s@);
}

impl Segment {
    fn write_to(&self, out: &mut Vec<char>)
        ensures
            final(out)@ == old(out)@ + segment_text(self@),
    {
        match self {
            Segment::Index(i) => push_decimal(out, *i),
            Segment::Key(k) => {
                if is_xid_string(k.as_str()) {
                    push_chars(out, k.as_str());
                } else {
                    let ghost start = out@;
                    out.push('"');
                    push_chars(out, k.as_str());
                    out.push('"');
                    assert(out@ =~= start + (seq!['"'] + k@ + seq!['"']));
                }
            },
        }
    }

    /// The segment as text: an index in decimal, a key bare where it is an identifier
    /// and quoted otherwise.
    pub fn to_string(&self) -> (r: String)
        ensures
            r@ == segment_text(self@),
    {
        let mut out: Vec<char> = Vec::new();
        self.write_to(&mut out);
        assert(out@ =~= segment_text(self@));
        string_of(out.as_slice())
    }
}

impl Path {
    /// The path as text: `.` for the root, else its segments joined by dots.
    pub fn to_string(&self) -> (r: String)
        ensures
            r@ == path_text(self@),
    {
        let segments = self.to_segments();
        let ghost p = self@;
        let mut out: Vec<char> = Vec::new();
        if segments.len() == 0 {
            out.push('.');
            assert(out@ =~= path_text(p));
            return string_of(out.as_slice());
        }
        let mut k: usize = 0;
        while k < segments.len()
            invariant
                k <= segments@.len(),
                segments@.map_values(|s: Segment| s@) == p,
                out@ == joined_text(p.take(k as int)),
            decreases segments@.len() - k,
        {
            let ghost before = out@;
            if k > 0 {
                out.push('.');
            }
            segments[k].write_to(&mut out);
            proof {
                assert(p[k as int] == segments@[k as int]@);
                assert(p.take(k + 1).drop_last() =~= p.take(k as int));
                if k == 0 {
                    assert(joined_text(p.take(0)) == Seq::<char>::empty());
                    assert(out@ =~= joined_text(p.take(1)));
                } else {
                    assert(out@ =~= joined_text(p.take(k + 1)));
                }
            }
            k = k + 1;
        }
        assert(p.take(k as int) =~= p);
        string_of(out.as_slice())
    }
}

} // verus!
