//! The whole pipeline: decode and parse each directive, validate the batch, build the tree.
use crate::directive::{directive_of_ast, Directive, DirectiveModel};
use crate::escape::hex_digit;
use crate::node::{build_spec, build_tree, ordered, Node, NodeModel};
use crate::parser::{directive_spec, parse_directive, SyntaxError};
use crate::text::{chars_of, decode_utf8_bytes, string_of};
use crate::validator::{validate, validate_spec, PathError, PathErrorModel};
use unicode_general_category::get_general_category;
use vstd::prelude::*;
use vstd::string::*;
use vstd::utf8::*;

verus! {

/// Why a batch of directives makes no document.
#[derive(Debug)]
pub enum BuildError {
    /// A directive is not valid UTF-8; `directive` shows its bytes.
    Encoding { directive: String },
    /// A directive breaks the grammar; `directive` shows its text.
    Syntax { source: SyntaxError, directive: String },
    /// The directives do not agree with each other.
    Path { source: PathError },
}

/// The mathematical value of a [`BuildError`].
pub enum BuildErrorModel {
    Encoding { directive: Seq<char> },
    Syntax { source: SyntaxError, directive: Seq<char> },
    Path { source: PathErrorModel },
}

impl View for BuildError {
    type V = BuildErrorModel;

    open spec fn view(&self) -> BuildErrorModel {
        match self {
            BuildError::Encoding { directive } => BuildErrorModel::Encoding { directive: directive@ },
            BuildError::Syntax { source, directive } => BuildErrorModel::Syntax {
                source: *source,
                directive: directive@,
            },
            BuildError::Path { source } => BuildErrorModel::Path { source: source@ },
        }
    }
}

// ---------------------------------------------------------------------------
// Display-safe renderings of directives.

/// The name of the Unicode general category of a character, as the variant of
/// `unicode_general_category::GeneralCategory` is named (`Control`, `LowercaseLetter`, ...).
pub uninterp spec fn category_name(c: char) -> Seq<char>;

/// Relies on `unicode_general_category::get_general_category`: the general category of
/// `c`, turned into its variant's name by the derived `Debug`.
#[verifier::external_body]
fn general_category_name(c: char) -> (r: String)
    ensures
        r@ == category_name(c),
{
    format!("{:?}", get_general_category(c))
}

/// Whether a character is shown as an escape: controls, format characters, surrogates,
/// private-use and unassigned code points.
pub open spec fn escaped_for_display(c: char) -> bool {
    let n = category_name(c);
    n == "Control"@ || n == "Format"@ || n == "Surrogate"@ || n == "PrivateUse"@ || n == "Unassigned"@
}

fn should_escape(c: char) -> (r: bool)
    ensures
        r == escaped_for_display(c),
{
    let n = general_category_name(c);
    is_named(&n, "Control") || is_named(&n, "Format") || is_named(&n, "Surrogate") || is_named(
        &n,
        "PrivateUse",
    ) || is_named(&n, "Unassigned")
}

fn is_named(name: &String, expected: &str) -> (r: bool)
    ensures
        r == (name@ == expected@),
{
    let e = <String as StringExecFns>::from_str(expected);
    *name == e
}

/// The upper-case hexadecimal digit of `n`.
pub open spec fn hex_upper(n: u32) -> char {
    if n < 10 {
        ((n + 48) as u8) as char
    } else {
        ((n + 55) as u8) as char
    }
}

/// The last `n` hexadecimal digits of `v`, upper case.
pub open spec fn hex_upper_digits(v: u32, n: nat) -> Seq<char>
    decreases n,
{
    if n == 0 {
        Seq::empty()
    } else {
        hex_upper_digits(v / 16, (n - 1) as nat).push(hex_upper(v % 16))
    }
}

/// How a character of a directive is shown: `\uXXXX` or `\UXXXXXXXX` where it is
/// escaped, itself otherwise.
pub open spec fn display_char(c: char) -> Seq<char> {
    if escaped_for_display(c) {
        if (c as u32) <= 0xffff {
            seq!['\\', 'u'] + hex_upper_digits(c as u32, 4)
        } else {
            seq!['\\', 'U'] + hex_upper_digits(c as u32, 8)
        }
    } else {
        seq![c]
    }
}

/// How a byte of a directive that is no UTF-8 is shown.
pub open spec fn display_byte(b: u8) -> Seq<char> {
    if b == 0x22 {
        seq!['\\', '"']
    } else if b == 0x5c {
        seq!['\\', '\\']
    } else if b == 0x09 {
        seq!['\\', 't']
    } else if b == 0x0a {
        seq!['\\', 'n']
    } else if b == 0x0d {
        seq!['\\', 'r']
    } else if 0x20 <= b <= 0x7e {
        seq![b as char]
    } else {
        seq!['\\', 'x', hex_digit((b / 16) as u32), hex_digit((b % 16) as u32)]
    }
}

/// Each element shown and the results joined.
pub open spec fn display_chars(s: Seq<char>) -> Seq<char>
    decreases s.len(),
{
    if s.len() == 0 {
        Seq::empty()
    } else {
        display_chars(s.drop_last()) + display_char(s.last())
    }
}

pub open spec fn display_bytes(s: Seq<u8>) -> Seq<char>
    decreases s.len(),
{
    if s.len() == 0 {
        Seq::empty()
    } else {
        display_bytes(s.drop_last()) + display_byte(s.last())
    }
}

fn push_hex_upper(out: &mut Vec<char>, v: u32, n: usize)
    requires
        n <= 8,
    ensures
        final(out)@ == old(out)@ + hex_upper_digits(v, n as nat),
    decreases n,
{
    if n == 0 {
        assert(old(out)@ + Seq::<char>::empty() =~= old(out)@);
        return;
    }
    push_hex_upper(out, v / 16, n - 1);
    let d = v % 16;
    let c = if d < 10 {
        ((d + 48) as u8) as char
    } else {
        ((d + 55) as u8) as char
    };
    out.push(c);
    assert(final(out)@ =~= old(out)@ + hex_upper_digits(v, n as nat));
}

/// The text of a directive with the characters that should not be shown raw escaped.
pub fn safe_unicode_display(chars: &str) -> (r: String)
    ensures
        r@ == display_chars(chars@),
{
    let cs = chars_of(chars);
    let mut out: Vec<char> = Vec::new();
    let mut i: usize = 0;
    while i < cs.len()
        invariant
            i <= cs@.len(),
            cs@ == chars@,
            out@ == display_chars(cs@.take(i as int)),
        decreases cs@.len() - i,
    {
        let c = cs[i];
        let ghost before = out@;
        if should_escape(c) {
            out.push('\\');
            if (c as u32) <= 0xffff {
                out.push('u');
                push_hex_upper(&mut out, c as u32, 4);
            } else {
                out.push('U');
                push_hex_upper(&mut out, c as u32, 8);
            }
        } else {
            out.push(c);
        }
        proof {
            assert(cs@.take(i + 1).drop_last() =~= cs@.take(i as int));
            assert(out@ =~= before + display_char(c));
        }
        i = i + 1;
    }
    assert(cs@.take(i as int) =~= cs@);
    string_of(out.as_slice())
}

/// The bytes of a directive, shown as text.
pub fn safe_bytes_display(bytes: &[u8]) -> (r: String)
    ensures
        r@ == display_bytes(bytes@),
{
    let mut out: Vec<char> = Vec::new();
    let mut i: usize = 0;
    while i < bytes.len()
        invariant
            i <= bytes@.len(),
            out@ == display_bytes(bytes@.take(i as int)),
        decreases bytes@.len() - i,
    {
        let b = bytes[i];
        let ghost before = out@;
        if b == 0x22 {
            out.push('\\');
            out.push('"');
        } else if b == 0x5c {
            out.push('\\');
            out.push('\\');
        } else if b == 0x09 {
            out.push('\\');
            out.push('t');
        } else if b == 0x0a {
            out.push('\\');
            out.push('n');
        } else if b == 0x0d {
            out.push('\\');
            out.push('r');
        } else if 0x20 <= b && b <= 0x7e {
            out.push(b as char);
        } else {
            out.push('\\');
            out.push('x');
            out.push(crate::escape::nibble_to_hex(b / 16));
            out.push(crate::escape::nibble_to_hex(b % 16));
        }
        proof {
            assert(bytes@.take(i + 1).drop_last() =~= bytes@.take(i as int));
            assert(out@ =~= before + display_byte(b));
        }
        i = i + 1;
    }
    assert(bytes@.take(i as int) =~= bytes@);
    string_of(out.as_slice())
}

// ---------------------------------------------------------------------------
// The pipeline.

/// One directive's bytes, decoded and parsed.
pub open spec fn read_spec(b: Seq<u8>) -> Result<DirectiveModel, BuildErrorModel> {
    if !valid_utf8(b) {
        Err(BuildErrorModel::Encoding { directive: display_bytes(b) })
    } else {
        match directive_spec(decode_utf8(b), 1) {
            Err(e) => Err(BuildErrorModel::Syntax { source: e, directive: display_chars(decode_utf8(b)) }),
            Ok(ast) => Ok(directive_of_ast(ast)),
        }
    }
}

/// All directives read in order; the first that cannot be read decides.
pub open spec fn read_all_spec(bs: Seq<Seq<u8>>) -> Result<Seq<DirectiveModel>, BuildErrorModel>
    decreases bs.len(),
{
    if bs.len() == 0 {
        Ok(Seq::empty())
    } else {
        match read_all_spec(bs.drop_last()) {
            Err(e) => Err(e),
            Ok(ds) => match read_spec(bs.last()) {
                Err(e) => Err(e),
                Ok(d) => Ok(ds.push(d)),
            },
        }
    }
}

/// The document of a batch of directives, `None` for an empty batch.
pub open spec fn compose_spec(bs: Seq<Seq<u8>>) -> Result<Option<NodeModel>, BuildErrorModel> {
    match read_all_spec(bs) {
        Err(e) => Err(e),
        Ok(ds) => match validate_spec(ds) {
            Err(e) => Err(BuildErrorModel::Path { source: e }),
            Ok(_) => Ok(build_spec(ds)),
        },
    }
}

pub open spec fn byte_views(inputs: Seq<Vec<u8>>) -> Seq<Seq<u8>> {
    inputs.map_values(|v: Vec<u8>| v@)
}

proof fn lemma_decoded_len(b: Seq<u8>)
    requires
        valid_utf8(b),
    ensures
        decode_utf8(b).len() <= b.len(),
    decreases b.len(),
{
    if b.len() > 0 {
        let rest = pop_first_scalar(b);
        assert(rest.len() < b.len());
        lemma_decoded_len(rest);
    }
}

/// Reads one directive from its bytes.
fn read_directive(bytes: &Vec<u8>) -> (r: Result<Directive, BuildError>)
    requires
        bytes@.len() < usize::MAX,
    ensures
        match r {
            Ok(d) => read_spec(bytes@) == Ok::<_, BuildErrorModel>(d@),
            Err(e) => read_spec(bytes@) == Err::<DirectiveModel, _>(e@),
        },
{
    let text = match decode_utf8_bytes(bytes.as_slice()) {
        Some(t) => t,
        None => return Err(BuildError::Encoding { directive: safe_bytes_display(bytes.as_slice()) }),
    };
    proof {
        lemma_decoded_len(bytes@);
    }
    match parse_directive(1, text.as_str()) {
        Ok((ast, _, _)) => Ok(Directive::from_ast(ast)),
        Err(e) => Err(BuildError::Syntax { source: e, directive: safe_unicode_display(text.as_str()) }),
    }
}

/// Composes one document from a batch of directives given as bytes.
pub fn compose(inputs: Vec<Vec<u8>>) -> (r: Result<Option<Node>, BuildError>)
    requires
        forall|i: int| 0 <= i < inputs@.len() ==> (#[trigger] inputs@[i])@.len() < usize::MAX,
    ensures
        match r {
            Ok(None) => compose_spec(byte_views(inputs@)) == Ok::<_, BuildErrorModel>(None::<NodeModel>),
            Ok(Some(n)) => compose_spec(byte_views(inputs@)) == Ok::<_, BuildErrorModel>(Some(n.model())),
            Err(e) => compose_spec(byte_views(inputs@)) == Err::<Option<NodeModel>, _>(e@),
        },
        r matches Ok(Some(n)) ==> ordered(n.model()),
{
    let ghost bs = byte_views(inputs@);
    let mut directives: Vec<Directive> = Vec::new();
    let mut i: usize = 0;
    assert(bs.take(0) =~= Seq::<Seq<u8>>::empty());
    assert(directives@.map_values(|d: Directive| d@) =~= Seq::<DirectiveModel>::empty());
    while i < inputs.len()
        invariant
            i <= inputs@.len(),
            bs == byte_views(inputs@),
            forall|j: int| 0 <= j < inputs@.len() ==> (#[trigger] inputs@[j])@.len() < usize::MAX,
            read_all_spec(bs.take(i as int)) == Ok::<_, BuildErrorModel>(
                directives@.map_values(|d: Directive| d@),
            ),
        decreases inputs@.len() - i,
    {
        proof {
            assert(bs.take(i + 1).drop_last() =~= bs.take(i as int));
            assert(bs.take(i + 1).last() == inputs@[i as int]@);
        }
        match read_directive(&inputs[i]) {
            Ok(d) => {
                let ghost before = directives@.map_values(|d: Directive| d@);
                directives.push(d);
                assert(directives@.map_values(|d: Directive| d@) =~= before.push(d@));
            },
            Err(e) => {
                proof {
                    lemma_read_all_fails(bs, i as int);
                }
                return Err(e);
            },
        }
        i = i + 1;
    }
    assert(bs.take(i as int) =~= bs);
    match validate(directives.as_slice()) {
        Err(e) => {
            return Err(BuildError::Path { source: e });
        },
        Ok(_) => {},
    }
    Ok(build_tree(directives))
}

proof fn lemma_read_all_fails(bs: Seq<Seq<u8>>, i: int)
    requires
        0 <= i < bs.len(),
        read_all_spec(bs.take(i + 1)) is Err,
    ensures
        read_all_spec(bs) == read_all_spec(bs.take(i + 1)),
    decreases bs.len() - i,
{
    if i + 1 < bs.len() {
        assert(bs.take(i + 2).drop_last() =~= bs.take(i + 1));
        lemma_read_all_fails(bs, i + 1);
    } else {
        assert(bs.take(i + 1) =~= bs);
    }
}

} // verus!
