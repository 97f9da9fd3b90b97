//! The directive grammar: `path operator value`, read left to right over characters,
//! with the position of each error counted in characters from `start_pos`.
use crate::text::{chars_of, string_of_range};
use crate::unicode::{xid_continue, xid_start};
use unicode_ident::{is_xid_continue, is_xid_start};
use vstd::prelude::*;
use vstd::string::*;

verus! {

/// The operator between path and value.
#[derive(Clone, Copy, Debug, PartialEq, Eq, Structural)]
pub enum OperatorAst {
    /// `:` — the value is one JSON value, kept as written.
    Colon,
    /// `=` — the value is text that becomes a JSON string.
    EqualSign,
}

/// One path segment as written.
#[derive(Debug)]
pub enum SegmentAst {
    ArrayIndex(u32),
    /// An identifier, as written.
    BareKey(String),
    /// A JSON string, quotes included.
    QuotedKey(String),
}

/// The mathematical value of a [`SegmentAst`].
pub enum SegmentAstModel {
    ArrayIndex(u32),
    BareKey(Seq<char>),
    QuotedKey(Seq<char>),
}

impl View for SegmentAst {
    type V = SegmentAstModel;

    open spec fn view(&self) -> SegmentAstModel {
        match self {
            SegmentAst::ArrayIndex(i) => SegmentAstModel::ArrayIndex(*i),
            SegmentAst::BareKey(k) => SegmentAstModel::BareKey(k@),
            SegmentAst::QuotedKey(k) => SegmentAstModel::QuotedKey(k@),
        }
    }
}

/// One directive as written.
#[derive(Debug)]
pub struct DirectiveAst {
    pub path: Vec<SegmentAst>,
    pub operator: OperatorAst,
    pub value: String,
}

/// The mathematical value of a [`DirectiveAst`].
pub struct DirectiveAstModel {
    pub path: Seq<SegmentAstModel>,
    pub operator: OperatorAst,
    pub value: Seq<char>,
}

pub open spec fn segments_view(v: Seq<SegmentAst>) -> Seq<SegmentAstModel> {
    v.map_values(|s: SegmentAst| s@)
}

impl View for DirectiveAst {
    type V = DirectiveAstModel;

    open spec fn view(&self) -> DirectiveAstModel {
        DirectiveAstModel { path: segments_view(self.path@), operator: self.operator, value: self.value@ }
    }
}

/// A syntax error in one directive, at a character position counted from 1.
#[derive(Clone, Copy, Debug, PartialEq, Eq, Structural)]
pub enum SyntaxError {
    UnexpectedChar { pos: usize, ch: char },
    UnexpectedEndOfString,
    /// The index does not fit in 32 bits.
    InvalidIndex { pos: usize },
    /// The quoted key is no valid JSON string.
    InvalidKey { pos: usize },
    /// The value after `:` is no valid JSON value.
    InvalidJsonValue { pos: usize },
}

// ---------------------------------------------------------------------------
// What the grammar reads. `s` is the whole input, `i` an index into it, and `b` the
// position of `s[0]`.

/// Whitespace as JSON defines it.
pub open spec fn is_json_ws(c: char) -> bool {
    c == ' ' || c == '\t' || c == '\n' || c == '\r'
}

pub open spec fn is_digit(c: char) -> bool {
    '0' <= c && c <= '9'
}

/// The index of the character that ends a quoted segment begun before `k`: the first
/// unescaped quote or raw control character at or after `k`.
pub open spec fn quoted_close(s: Seq<char>, k: int) -> Option<int>
    decreases s.len() - k,
{
    if k < 0 || k >= s.len() {
        None
    } else if s[k] == '\\' {
        if k + 1 < s.len() {
            quoted_close(s, k + 2)
        } else {
            None
        }
    } else if s[k] == '"' || (s[k] as u32) < 0x20 {
        Some(k)
    } else {
        quoted_close(s, k + 1)
    }
}

/// The end of the run of identifier-continue characters from `k`.
pub open spec fn xid_end(s: Seq<char>, k: int) -> int
    decreases s.len() - k,
{
    if 0 <= k < s.len() && xid_continue(s[k]) {
        xid_end(s, k + 1)
    } else {
        k
    }
}

/// The end of the run of ASCII digits from `k`.
pub open spec fn digits_end(s: Seq<char>, k: int) -> int
    decreases s.len() - k,
{
    if 0 <= k < s.len() && is_digit(s[k]) {
        digits_end(s, k + 1)
    } else {
        k
    }
}

/// The number that a sequence of ASCII digits denotes.
pub open spec fn decimal(d: Seq<char>) -> nat
    decreases d.len(),
{
    if d.len() == 0 {
        0
    } else {
        decimal(d.drop_last()) * 10 + (d.last() as nat - 48) as nat
    }
}

/// The first character at or after `k` that is not JSON whitespace.
pub open spec fn first_non_ws(s: Seq<char>, k: int) -> Option<int>
    decreases s.len() - k,
{
    if k < 0 || k >= s.len() {
        None
    } else if is_json_ws(s[k]) {
        first_non_ws(s, k + 1)
    } else {
        Some(k)
    }
}

/// Whether serde_json reads `s` as one JSON string.
pub uninterp spec fn json_string_ok(s: Seq<char>) -> bool;

/// The number of characters that serde_json reads as the first JSON value of `s`
/// (whitespace before it included), or `None` where it reports an error.
pub uninterp spec fn json_value_len(s: Seq<char>) -> Option<nat>;

/// The segment that starts at `s[i]`, and the index after it.
pub open spec fn segment_spec(s: Seq<char>, i: int, b: int) -> Result<(SegmentAstModel, int), SyntaxError> {
    if 0 <= i < s.len() && s[i] == '"' {
        match quoted_close(s, i + 1) {
            None => Err(SyntaxError::UnexpectedEndOfString),
            Some(k) => if s[k] == '"' {
                if json_string_ok(s.subrange(i, k + 1)) {
                    Ok((SegmentAstModel::QuotedKey(s.subrange(i, k + 1)), k + 1))
                } else {
                    Err(SyntaxError::InvalidKey { pos: (b + k) as usize })
                }
            } else {
                Err(SyntaxError::UnexpectedChar { pos: (b + k) as usize, ch: s[k] })
            },
        }
    } else if 0 <= i < s.len() && xid_start(s[i]) {
        let e = xid_end(s, i + 1);
        Ok((SegmentAstModel::BareKey(s.subrange(i, e)), e))
    } else if 0 <= i < s.len() && s[i] == '0' {
        Ok((SegmentAstModel::ArrayIndex(0), i + 1))
    } else if 0 <= i < s.len() && is_digit(s[i]) {
        let e = digits_end(s, i);
        let v = decimal(s.subrange(i, e));
        if v <= u32::MAX {
            Ok((SegmentAstModel::ArrayIndex(v as u32), e))
        } else {
            Err(SyntaxError::InvalidIndex { pos: (b + e) as usize })
        }
    } else if 0 <= i < s.len() {
        Err(SyntaxError::UnexpectedChar { pos: (b + i) as usize, ch: s[i] })
    } else {
        Err(SyntaxError::UnexpectedEndOfString)
    }
}

/// The segments that follow `acc` from `s[j]`, each after a dot, and the index after them.
pub open spec fn more_segments_spec(s: Seq<char>, j: int, b: int, acc: Seq<SegmentAstModel>) -> Result<
    (Seq<SegmentAstModel>, int),
    SyntaxError,
>
    decreases s.len() - j,
{
    if 0 <= j < s.len() && s[j] == '.' {
        match segment_spec(s, j + 1, b) {
            Err(e) => Err(e),
            Ok((g, k)) => if j < k <= s.len() {
                more_segments_spec(s, k, b, acc.push(g))
            } else {
                Ok((acc, j))
            },
        }
    } else {
        Ok((acc, j))
    }
}

/// The path that starts at `s[i]`, and the index after it.
pub open spec fn path_spec(s: Seq<char>, i: int, b: int) -> Result<(Seq<SegmentAstModel>, int), SyntaxError> {
    if 0 <= i < s.len() && s[i] == '.' {
        Ok((Seq::empty(), i + 1))
    } else {
        match segment_spec(s, i, b) {
            Err(e) => Err(e),
            Ok((g, k)) => more_segments_spec(s, k, b, seq![g]),
        }
    }
}

/// The operator at `s[i]`, and the index after it.
pub open spec fn operator_spec(s: Seq<char>, i: int, b: int) -> Result<(OperatorAst, int), SyntaxError> {
    if 0 <= i < s.len() && s[i] == ':' {
        Ok((OperatorAst::Colon, i + 1))
    } else if 0 <= i < s.len() && s[i] == '=' {
        Ok((OperatorAst::EqualSign, i + 1))
    } else if 0 <= i < s.len() {
        Err(SyntaxError::UnexpectedChar { pos: (b + i) as usize, ch: s[i] })
    } else {
        Err(SyntaxError::UnexpectedEndOfString)
    }
}

/// Whether `s[i..]` is one JSON value, with nothing but whitespace after it.
pub open spec fn json_spec(s: Seq<char>, i: int, b: int) -> Result<(), SyntaxError> {
    let rest = s.skip(i);
    if first_non_ws(rest, 0) is None {
        Err(SyntaxError::UnexpectedEndOfString)
    } else {
        match json_value_len(rest) {
            None => Err(SyntaxError::InvalidJsonValue { pos: (b + i) as usize }),
            Some(n) => match first_non_ws(rest, n as int) {
                Some(m) => Err(SyntaxError::UnexpectedChar { pos: (b + i + m) as usize, ch: rest[m] }),
                None => Ok(()),
            },
        }
    }
}

/// The directive that `s` holds, its first character at position `b`.
pub open spec fn directive_spec(s: Seq<char>, b: int) -> Result<DirectiveAstModel, SyntaxError> {
    match path_spec(s, 0, b) {
        Err(e) => Err(e),
        Ok((path, j)) => match operator_spec(s, j, b) {
            Err(e) => Err(e),
            Ok((operator, k)) => {
                let checked = if operator == OperatorAst::Colon {
                    json_spec(s, k, b)
                } else {
                    Ok(())
                };
                match checked {
                    Err(e) => Err(e),
                    Ok(_) => Ok(DirectiveAstModel { path, operator, value: s.skip(k) }),
                }
            },
        }
    }
}

// ---------------------------------------------------------------------------
// Calls into serde_json.

/// Relies on `serde_json::from_str::<String>`: whether `s` is one JSON string.
#[verifier::external_body]
fn is_json_string(s: &str) -> (r: bool)
    ensures
        r == json_string_ok(s@),
{
    serde_json::from_str::<String>(s).is_ok()
}

/// Relies on serde_json's `StreamDeserializer` over `serde_json::Value`: reads the first
/// value of `s` and gives the number of characters up to its end, or `None` on an error
/// or where `s` holds no value.
#[verifier::external_body]
fn json_value_prefix(s: &str) -> (r: Option<usize>)
    ensures
        match r {
            Some(n) => json_value_len(s@) == Some(n as nat),
            None => json_value_len(s@) is None,
        },
{
    let mut stream = serde_json::Deserializer::from_str(s).into_iter::<serde_json::Value>();
    match stream.next() {
        Some(Ok(_)) => Some(s[..stream.byte_offset()].chars().count()),
        _ => None,
    }
}

// ---------------------------------------------------------------------------
// The parser over characters.

proof fn lemma_quoted_close_bounds(s: Seq<char>, k: int)
    ensures
        quoted_close(s, k) matches Some(c) ==> k <= c < s.len(),
    decreases s.len() - k,
{
    if 0 <= k < s.len() {
        if s[k] == '\\' {
            if k + 1 < s.len() {
                lemma_quoted_close_bounds(s, k + 2);
            }
        } else if !(s[k] == '"' || (s[k] as u32) < 0x20) {
            lemma_quoted_close_bounds(s, k + 1);
        }
    }
}

proof fn lemma_run_ends(s: Seq<char>, k: int)
    requires
        0 <= k <= s.len(),
    ensures
        k <= xid_end(s, k) <= s.len(),
        k <= digits_end(s, k) <= s.len(),
    decreases s.len() - k,
{
    if k < s.len() {
        lemma_run_ends(s, k + 1);
    }
}

proof fn lemma_segment_advances(s: Seq<char>, i: int, b: int)
    requires
        0 <= i,
    ensures
        segment_spec(s, i, b) matches Ok((_, k)) ==> i < k <= s.len(),
{
    lemma_quoted_close_bounds(s, i + 1);
    if 0 <= i < s.len() {
        lemma_run_ends(s, i + 1);
        lemma_run_ends(s, i);
    }
}

fn quoted_close_at(s: &[char], k0: usize) -> (r: Option<usize>)
    ensures
        match r {
            Some(c) => quoted_close(s@, k0 as int) == Some(c as int),
            None => quoted_close(s@, k0 as int) is None,
        },
{
    let mut k = k0;
    while k < s.len()
        invariant
            quoted_close(s@, k as int) == quoted_close(s@, k0 as int),
        decreases s@.len() - k,
    {
        let c = s[k];
        if c == '\\' {
            if k + 1 < s.len() {
                k = k + 2;
            } else {
                return None;
            }
        } else if c == '"' || (c as u32) < 0x20 {
            return Some(k);
        } else {
            k = k + 1;
        }
    }
    None
}

fn xid_end_at(s: &[char], k0: usize) -> (r: usize)
    requires
        k0 <= s@.len(),
    ensures
        r == xid_end(s@, k0 as int),
{
    let mut k = k0;
    while k < s.len() && is_xid_continue(s[k])
        invariant
            k0 <= k <= s@.len(),
            xid_end(s@, k as int) == xid_end(s@, k0 as int),
        decreases s@.len() - k,
    {
        k = k + 1;
    }
    k
}

proof fn lemma_decimal_grows(d: Seq<char>, c: char)
    requires
        is_digit(c),
    ensures
        decimal(d.push(c)) == decimal(d) * 10 + (c as nat - 48),
        decimal(d.push(c)) >= decimal(d),
{
    assert(d.push(c).drop_last() =~= d);
}

/// Reads the digits from `s[i]`: the index after them, and their value where it fits
/// in 32 bits.
fn digits_at(s: &[char], i: usize) -> (r: (usize, Option<u32>))
    requires
        i <= s@.len(),
    ensures
        r.0 == digits_end(s@, i as int),
        match r.1 {
            Some(v) => v == decimal(s@.subrange(i as int, r.0 as int)),
            None => decimal(s@.subrange(i as int, r.0 as int)) > u32::MAX,
        },
{
    let mut k = i;
    let mut value: Option<u32> = Some(0);
    assert(s@.subrange(i as int, i as int) =~= Seq::<char>::empty());
    while k < s.len() && '0' <= s[k] && s[k] <= '9'
        invariant
            i <= k <= s@.len(),
            digits_end(s@, k as int) == digits_end(s@, i as int),
            match value {
                Some(v) => v == decimal(s@.subrange(i as int, k as int)),
                None => decimal(s@.subrange(i as int, k as int)) > u32::MAX,
            },
        decreases s@.len() - k,
    {
        let c = s[k];
        proof {
            assert(s@.subrange(i as int, k + 1) =~= s@.subrange(i as int, k as int).push(c));
            lemma_decimal_grows(s@.subrange(i as int, k as int), c);
        }
        value = match value {
            Some(v) => {
                let d = (c as u32) - 48;
                if v <= (u32::MAX - d) / 10 {
                    assert(v * 10 + d <= u32::MAX) by (nonlinear_arith)
                        requires v <= (u32::MAX - d) / 10, d <= 9;
                    Some(v * 10 + d)
                } else {
                    assert(v * 10 + d > u32::MAX) by (nonlinear_arith)
                        requires v > (u32::MAX - d) / 10, d <= 9;
                    None
                }
            },
            None => None,
        };
        k = k + 1;
    }
    (k, value)
}

/// Reads the segment at `s[i]`.
fn segment_at(s: &[char], i: usize, b: usize) -> (r: Result<(SegmentAst, usize), SyntaxError>)
    requires
        i <= s@.len(),
        b + s@.len() <= usize::MAX,
    ensures
        match r {
            Ok((g, k)) => segment_spec(s@, i as int, b as int) == Ok::<_, SyntaxError>((g@, k as int)),
            Err(e) => segment_spec(s@, i as int, b as int) == Err::<(SegmentAstModel, int), _>(e),
        },
{
    proof {
        lemma_quoted_close_bounds(s@, i + 1);
        lemma_run_ends(s@, i as int);
        if i < s@.len() {
            lemma_run_ends(s@, i + 1);
        }
    }
    if i >= s.len() {
        return Err(SyntaxError::UnexpectedEndOfString);
    }
    let c = s[i];
    if c == '"' {
        match quoted_close_at(s, i + 1) {
            None => Err(SyntaxError::UnexpectedEndOfString),
            Some(k) => {
                if s[k] == '"' {
                    let quoted = string_of_range(s, i, k + 1);
                    if is_json_string(quoted.as_str()) {
                        Ok((SegmentAst::QuotedKey(quoted), k + 1))
                    } else {
                        Err(SyntaxError::InvalidKey { pos: b + k })
                    }
                } else {
                    Err(SyntaxError::UnexpectedChar { pos: b + k, ch: s[k] })
                }
            },
        }
    } else if is_xid_start(c) {
        let e = xid_end_at(s, i + 1);
        Ok((SegmentAst::BareKey(string_of_range(s, i, e)), e))
    } else if c == '0' {
        Ok((SegmentAst::ArrayIndex(0), i + 1))
    } else if '0' <= c && c <= '9' {
        let (e, value) = digits_at(s, i);
        match value {
            Some(v) => Ok((SegmentAst::ArrayIndex(v), e)),
            None => Err(SyntaxError::InvalidIndex { pos: b + e }),
        }
    } else {
        Err(SyntaxError::UnexpectedChar { pos: b + i, ch: c })
    }
}

/// Reads the path at `s[i]`.
fn path_at(s: &[char], i: usize, b: usize) -> (r: Result<(Vec<SegmentAst>, usize), SyntaxError>)
    requires
        i <= s@.len(),
        b + s@.len() <= usize::MAX,
    ensures
        match r {
            Ok((p, k)) => path_spec(s@, i as int, b as int) == Ok::<_, SyntaxError>((segments_view(p@), k as int)),
            Err(e) => path_spec(s@, i as int, b as int) == Err::<(Seq<SegmentAstModel>, int), _>(e),
        },
{
    if i < s.len() && s[i] == '.' {
        let v: Vec<SegmentAst> = Vec::new();
        assert(segments_view(v@) =~= Seq::<SegmentAstModel>::empty());
        return Ok((v, i + 1));
    }
    let (first, mut j) = match segment_at(s, i, b) {
        Ok(x) => x,
        Err(e) => return Err(e),
    };
    proof {
        lemma_segment_advances(s@, i as int, b as int);
    }
    let mut segments: Vec<SegmentAst> = Vec::new();
    segments.push(first);
    assert(segments_view(segments@) =~= seq![first@]);
    while j < s.len() && s[j] == '.'
        invariant
            j <= s@.len(),
            b + s@.len() <= usize::MAX,
            path_spec(s@, i as int, b as int) == more_segments_spec(
                s@,
                j as int,
                b as int,
                segments_view(segments@),
            ),
        decreases s@.len() - j,
    {
        proof {
            lemma_segment_advances(s@, j + 1, b as int);
        }
        let (g, k) = match segment_at(s, j + 1, b) {
            Ok(x) => x,
            Err(e) => return Err(e),
        };
        let ghost before = segments_view(segments@);
        segments.push(g);
        assert(segments_view(segments@) =~= before.push(g@));
        j = k;
    }
    Ok((segments, j))
}

/// Reads the operator at `s[i]`.
fn operator_at(s: &[char], i: usize, b: usize) -> (r: Result<(OperatorAst, usize), SyntaxError>)
    requires
        i <= s@.len(),
        b + s@.len() <= usize::MAX,
    ensures
        match r {
            Ok((o, k)) => operator_spec(s@, i as int, b as int) == Ok::<_, SyntaxError>((o, k as int)),
            Err(e) => operator_spec(s@, i as int, b as int) == Err::<(OperatorAst, int), _>(e),
        },
{
    if i >= s.len() {
        Err(SyntaxError::UnexpectedEndOfString)
    } else if s[i] == ':' {
        Ok((OperatorAst::Colon, i + 1))
    } else if s[i] == '=' {
        Ok((OperatorAst::EqualSign, i + 1))
    } else {
        Err(SyntaxError::UnexpectedChar { pos: b + i, ch: s[i] })
    }
}

fn first_non_ws_at(s: &[char], k0: usize) -> (r: Option<usize>)
    ensures
        match r {
            Some(m) => first_non_ws(s@, k0 as int) == Some(m as int) && m < s@.len(),
            None => first_non_ws(s@, k0 as int) is None,
        },
{
    let mut k = k0;
    while k < s.len()
        invariant
            first_non_ws(s@, k as int) == first_non_ws(s@, k0 as int),
        decreases s@.len() - k,
    {
        let c = s[k];
        if c == ' ' || c == '\t' || c == '\n' || c == '\r' {
            k = k + 1;
        } else {
            return Some(k);
        }
    }
    None
}

/// Checks that `s[i..]` is one JSON value with nothing but whitespace after it.
fn json_at(s: &[char], i: usize, b: usize) -> (r: Result<(), SyntaxError>)
    requires
        i <= s@.len(),
        b + s@.len() <= usize::MAX,
    ensures
        r == json_spec(s@, i as int, b as int),
{
    let ghost rest = s@.skip(i as int);
    let text = string_of_range(s, i, s.len());
    let cs = chars_of(text.as_str());
    assert(cs@ =~= rest);
    if first_non_ws_at(cs.as_slice(), 0).is_none() {
        return Err(SyntaxError::UnexpectedEndOfString);
    }
    match json_value_prefix(text.as_str()) {
        None => Err(SyntaxError::InvalidJsonValue { pos: b + i }),
        Some(n) => match first_non_ws_at(cs.as_slice(), n) {
            Some(m) => Err(SyntaxError::UnexpectedChar { pos: b + i + m, ch: cs[m] }),
            None => Ok(()),
        },
    }
}

/// Reads the directive that `s` holds.
fn directive_at(s: &[char], b: usize) -> (r: Result<DirectiveAst, SyntaxError>)
    requires
        b + s@.len() <= usize::MAX,
    ensures
        match r {
            Ok(d) => directive_spec(s@, b as int) == Ok::<_, SyntaxError>(d@),
            Err(e) => directive_spec(s@, b as int) == Err::<DirectiveAstModel, _>(e),
        },
{
    let (path, j) = match path_at(s, 0, b) {
        Ok(x) => x,
        Err(e) => return Err(e),
    };
    proof {
        lemma_path_bound(s@, b as int);
    }
    let (operator, k) = match operator_at(s, j, b) {
        Ok(x) => x,
        Err(e) => return Err(e),
    };
    if operator == OperatorAst::Colon {
        match json_at(s, k, b) {
            Ok(_) => {},
            Err(e) => return Err(e),
        }
    }
    let value = string_of_range(s, k, s.len());
    assert(value@ =~= s@.skip(k as int));
    Ok(DirectiveAst { path, operator, value })
}

proof fn lemma_more_segments_bound(s: Seq<char>, j: int, b: int, acc: Seq<SegmentAstModel>)
    requires
        0 <= j <= s.len(),
    ensures
        more_segments_spec(s, j, b, acc) matches Ok((_, k)) ==> j <= k <= s.len(),
    decreases s.len() - j,
{
    if 0 <= j < s.len() && s[j] == '.' {
        if let Ok((g, k)) = segment_spec(s, j + 1, b) {
            if j < k <= s.len() {
                lemma_more_segments_bound(s, k, b, acc.push(g));
            }
        }
    }
}

proof fn lemma_path_bound(s: Seq<char>, b: int)
    ensures
        path_spec(s, 0, b) matches Ok((_, k)) ==> 0 <= k <= s.len(),
{
    lemma_segment_advances(s, 0, b);
    if !(0 < s.len() && s[0] == '.') {
        if let Ok((g, k)) = segment_spec(s, 0, b) {
            lemma_more_segments_bound(s, k, b, seq![g]);
        }
    }
}

// ---------------------------------------------------------------------------
// The parser over strings: each function reads from the front of `input`, whose first
// character stands at position `start_pos`, and returns what it read, the position after
// it and the rest of the input.

/// Reads one directive, the whole of `input`.
pub fn parse_directive(start_pos: usize, input: &str) -> (r: Result<(DirectiveAst, usize, &str), SyntaxError>)
    requires
        start_pos + input@.len() <= usize::MAX,
    ensures
        match r {
            Ok((d, pos, rest)) => directive_spec(input@, start_pos as int) == Ok::<_, SyntaxError>(d@)
                && pos == start_pos + input@.len() && rest@.len() == 0,
            Err(e) => directive_spec(input@, start_pos as int) == Err::<DirectiveAstModel, _>(e),
        },
{
    let cs = chars_of(input);
    match directive_at(cs.as_slice(), start_pos) {
        Ok(d) => Ok((d, start_pos + cs.len(), input.substring_char(cs.len(), cs.len()))),
        Err(e) => Err(e),
    }
}

/// Reads a path from the front of `input`.
pub fn parse_path(start_pos: usize, input: &str) -> (r: Result<(Vec<SegmentAst>, usize, &str), SyntaxError>)
    requires
        start_pos + input@.len() <= usize::MAX,
    ensures
        match r {
            Ok((p, pos, rest)) => exists|k: int|
                path_spec(input@, 0, start_pos as int) == Ok::<_, SyntaxError>((segments_view(p@), k))
                    && pos == start_pos + k && rest@ == input@.skip(k),
            Err(e) => path_spec(input@, 0, start_pos as int) == Err::<(Seq<SegmentAstModel>, int), _>(e),
        },
{
    let cs = chars_of(input);
    match path_at(cs.as_slice(), 0, start_pos) {
        Ok((p, k)) => {
            proof {
                lemma_path_bound(cs@, start_pos as int);
            }
            Ok((p, start_pos + k, input.substring_char(k, cs.len())))
        },
        Err(e) => Err(e),
    }
}

/// Reads one segment from the front of `input`.
pub fn parse_segment(start_pos: usize, input: &str) -> (r: Result<(SegmentAst, usize, &str), SyntaxError>)
    requires
        start_pos + input@.len() <= usize::MAX,
    ensures
        match r {
            Ok((g, pos, rest)) => exists|k: int|
                segment_spec(input@, 0, start_pos as int) == Ok::<_, SyntaxError>((g@, k))
                    && pos == start_pos + k && rest@ == input@.skip(k),
            Err(e) => segment_spec(input@, 0, start_pos as int) == Err::<(SegmentAstModel, int), _>(e),
        },
{
    let cs = chars_of(input);
    proof {
        lemma_segment_advances(cs@, 0, start_pos as int);
    }
    match segment_at(cs.as_slice(), 0, start_pos) {
        Ok((g, k)) => Ok((g, start_pos + k, input.substring_char(k, cs.len()))),
        Err(e) => Err(e),
    }
}

/// Reads the operator at the front of `input`.
pub fn parse_operator(pos: usize, input: &str) -> (r: Result<(OperatorAst, usize, &str), SyntaxError>)
    requires
        pos + input@.len() <= usize::MAX,
    ensures
        match r {
            Ok((o, p, rest)) => operator_spec(input@, 0, pos as int) == Ok::<_, SyntaxError>((o, 1int))
                && p == pos + 1 && rest@ == input@.skip(1),
            Err(e) => operator_spec(input@, 0, pos as int) == Err::<(OperatorAst, int), _>(e),
        },
{
    let cs = chars_of(input);
    match operator_at(cs.as_slice(), 0, pos) {
        Ok((o, k)) => Ok((o, pos + k, input.substring_char(k, cs.len()))),
        Err(e) => Err(e),
    }
}

/// Checks that `input` is one JSON value with nothing but whitespace after it.
pub fn validate_json(start_pos: usize, input: &str) -> (r: Result<((), usize, &str), SyntaxError>)
    requires
        start_pos + input@.len() <= usize::MAX,
    ensures
        match r {
            Ok((_, pos, rest)) => json_spec(input@, 0, start_pos as int) is Ok && pos == start_pos
                + input@.len() && rest@.len() == 0,
            Err(e) => json_spec(input@, 0, start_pos as int) == Err::<(), _>(e),
        },
{
    let cs = chars_of(input);
    match json_at(cs.as_slice(), 0, start_pos) {
        Ok(_) => Ok(((), start_pos + cs.len(), input.substring_char(cs.len(), cs.len()))),
        Err(e) => Err(e),
    }
}

/// Whether `s` is an identifier: an XID_Start character followed by XID_Continue ones.
pub open spec fn is_identifier(s: Seq<char>) -> bool {
    s.len() > 0 && xid_start(s[0]) && forall|i: int| 0 <= i < s.len() ==> xid_continue(#[trigger] s[i])
}

/// Whether `s` can be written as a bare key.
pub fn is_xid_string(s: &str) -> (r: bool)
    ensures
        r == is_identifier(s@),
{
    let cs = chars_of(s);
    if cs.len() == 0 || !is_xid_start(cs[0]) {
        return false;
    }
    let mut i: usize = 0;
    while i < cs.len()
        invariant
            i <= cs@.len(),
            cs@ == s@,
            forall|j: int| 0 <= j < i ==> xid_continue(#[trigger] cs@[j]),
        decreases cs@.len() - i,
    {
        if !is_xid_continue(cs[i]) {
            return false;
        }
        i = i + 1;
    }
    true
}

} // verus!
