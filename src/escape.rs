//! Escaping of text into the body of a JSON string, and the reverse.
use crate::text::{char_from_u32, chars_of, string_of};
use vstd::prelude::*;
use vstd::utf8::*;

verus! {

/// The lower-case hexadecimal digit of `n`.
pub open spec fn hex_digit(n: u32) -> char {
    if n < 10 {
        ((n + 48) as u8) as char
    } else {
        ((n + 87) as u8) as char
    }
}

/// How one character is written inside a JSON string.
pub open spec fn escape_char(c: char) -> Seq<char> {
    if c == '\\' || c == '"' {
        seq!['\\', c]
    } else if c == '\n' {
        seq!['\\', 'n']
    } else if c == '\r' {
        seq!['\\', 'r']
    } else if c == '\t' {
        seq!['\\', 't']
    } else if c == '\x0c' {
        seq!['\\', 'f']
    } else if c == '\x08' {
        seq!['\\', 'b']
    } else if (c as u32) < 0x20 {
        seq!['\\', 'u', '0', '0', hex_digit((c as u32) / 16), hex_digit((c as u32) % 16)]
    } else {
        seq![c]
    }
}

/// The body of a JSON string that stands for the text `s`.
pub open spec fn escape(s: Seq<char>) -> Seq<char>
    decreases s.len(),
{
    if s.len() == 0 {
        Seq::empty()
    } else {
        escape(s.drop_last()) + escape_char(s.last())
    }
}

/// The value of a hexadecimal digit, of either case.
pub open spec fn hex_value(c: char) -> Option<u32> {
    if '0' <= c && c <= '9' {
        Some((c as u32 - 48) as u32)
    } else if 'a' <= c && c <= 'f' {
        Some((c as u32 - 87) as u32)
    } else if 'A' <= c && c <= 'F' {
        Some((c as u32 - 55) as u32)
    } else {
        None
    }
}

/// The value of four hexadecimal digits `s[i..i + 4]`, if they are such digits.
pub open spec fn hex4(s: Seq<char>, i: int) -> Option<u32> {
    if 0 <= i && i + 4 <= s.len() && hex_value(s[i]) is Some && hex_value(s[i + 1]) is Some
        && hex_value(s[i + 2]) is Some && hex_value(s[i + 3]) is Some {
        Some(
            (hex_value(s[i])->0 * 4096 + hex_value(s[i + 1])->0 * 256 + hex_value(s[i + 2])->0 * 16
                + hex_value(s[i + 3])->0) as u32,
        )
    } else {
        None
    }
}

/// The character that the two-character escape `\e` stands for.
pub open spec fn short_escape(e: char) -> Option<char> {
    if e == '"' || e == '\\' || e == '/' {
        Some(e)
    } else if e == 'b' {
        Some('\x08')
    } else if e == 'f' {
        Some('\x0c')
    } else if e == 'n' {
        Some('\n')
    } else if e == 'r' {
        Some('\r')
    } else if e == 't' {
        Some('\t')
    } else {
        None
    }
}

/// The escape sequence that starts `s`, if any: the character it stands for and its length.
/// A `\u` escape of a high surrogate followed by one of a low surrogate is one character;
/// a lone surrogate is no escape.
pub open spec fn leading_escape(s: Seq<char>) -> Option<(char, int)> {
    if s.len() >= 2 && s[0] == '\\' {
        if short_escape(s[1]) is Some {
            Some((short_escape(s[1])->0, 2))
        } else if s[1] == 'u' && hex4(s, 2) is Some {
            let v = hex4(s, 2)->0;
            if 0xD800 <= v < 0xDC00 && s.len() >= 12 && s[6] == '\\' && s[7] == 'u'
                && hex4(s, 8) is Some && 0xDC00 <= hex4(s, 8)->0 < 0xE000 {
                let w = hex4(s, 8)->0;
                Some((((0x10000 + (v - 0xD800) * 0x400 + (w - 0xDC00)) as u32) as char, 12))
            } else if is_scalar(v) {
                Some((v as char, 6))
            } else {
                None
            }
        } else {
            None
        }
    } else {
        None
    }
}

/// The text that the body of a JSON string `s` stands for. Characters that begin no
/// valid escape sequence stand for themselves.
pub open spec fn unescape(s: Seq<char>) -> Seq<char>
    decreases s.len(),
{
    if s.len() == 0 {
        Seq::empty()
    } else {
        match leading_escape(s) {
            Some((c, n)) => seq![c] + unescape(s.skip(n)),
            None => seq![s[0]] + unescape(s.skip(1)),
        }
    }
}

proof fn lemma_escape_append(a: Seq<char>, b: Seq<char>)
    ensures
        escape(a + b) == escape(a) + escape(b),
    decreases b.len(),
{
    if b.len() == 0 {
        assert(a + b =~= a);
    } else {
        lemma_escape_append(a, b.drop_last());
        assert((a + b).drop_last() =~= a + b.drop_last());
    }
}

proof fn lemma_unescape_char(c: char, t: Seq<char>)
    ensures
        unescape(escape_char(c) + t) == seq![c] + unescape(t),
{
    let e = escape_char(c);
    let s = e + t;
    let n = e.len() as int;
    assert(s.skip(n) =~= t);
    assert(s.len() > 0);
    if c == '\\' || c == '"' || c == '\n' || c == '\r' || c == '\t' || c == '\x0c' || c == '\x08' {
        assert(n == 2);
        assert(s[0] == '\\');
        assert(short_escape(s[1]) == Some(c));
        assert(leading_escape(s) == Some((c, 2int)));
    } else if (c as u32) < 0x20 {
        lemma_control_escape(c, t);
    } else {
        assert(n == 1 && s[0] == c);
        assert(leading_escape(s) is None);
    }
}

proof fn lemma_control_escape(c: char, t: Seq<char>)
    requires
        (c as u32) < 0x20,
        !(c == '\\' || c == '"' || c == '\n' || c == '\r' || c == '\t' || c == '\x0c' || c == '\x08'),
    ensures
        leading_escape(escape_char(c) + t) == Some((c, 6int)),
{
    let s = escape_char(c) + t;
    let v = c as u32;
    assert(s[0] == '\\' && s[1] == 'u');
    assert(short_escape(s[1]) is None);
    assert(hex4(s, 2) == Some(v)) by {
        assert(v / 16 < 2);
        assert(v % 16 < 16);
        assert(hex_value(s[2]) == Some(0u32));
        assert(hex_value(s[3]) == Some(0u32));
        assert(hex_value(s[4]) == Some(v / 16));
        assert(hex_value(s[5]) == Some(v % 16));
    }
    assert(v as char == c) by {
        broadcast use char_u32_cast;
    }
    assert(is_scalar(v));
}

/// Unescaping the escape of any text gives the text back.
pub proof fn lemma_unescape_escape(s: Seq<char>)
    ensures
        unescape(escape(s)) == s,
    decreases s.len(),
{
    if s.len() > 0 {
        let rest = s.skip(1);
        assert(s =~= seq![s[0]] + rest);
        lemma_escape_append(seq![s[0]], rest);
        assert(escape(seq![s[0]]) =~= escape_char(s[0])) by {
            assert(seq![s[0]].drop_last() =~= Seq::<char>::empty());
            assert(escape(Seq::<char>::empty()) == Seq::<char>::empty());
            assert(escape(seq![s[0]]) == escape(Seq::<char>::empty()) + escape_char(s[0]));
        }
        lemma_unescape_char(s[0], escape(rest));
        lemma_unescape_escape(rest);
    }
}

/// The lower-case hexadecimal digit of a nibble.
pub fn nibble_to_hex(n: u8) -> (r: char)
    requires
        n < 16,
    ensures
        r == hex_digit(n as u32),
{
    if n < 10 {
        (n + 48) as char
    } else {
        (n + 87) as char
    }
}

fn push_escaped(out: &mut Vec<char>, c: char)
    ensures
        final(out)@ == old(out)@ + escape_char(c),
{
    let ghost start = out@;
    if c == '\\' || c == '"' {
        out.push('\\');
        out.push(c);
    } else if c == '\n' {
        out.push('\\');
        out.push('n');
    } else if c == '\r' {
        out.push('\\');
        out.push('r');
    } else if c == '\t' {
        out.push('\\');
        out.push('t');
    } else if c == '\x0c' {
        out.push('\\');
        out.push('f');
    } else if c == '\x08' {
        out.push('\\');
        out.push('b');
    } else if (c as u32) < 0x20 {
        let b = c as u32;
        out.push('\\');
        out.push('u');
        out.push('0');
        out.push('0');
        out.push(nibble_to_hex((b / 16) as u8));
        out.push(nibble_to_hex((b % 16) as u8));
    } else {
        out.push(c);
    }
    assert(out@ =~= start + escape_char(c));
}

/// Escapes `s` into the body of a JSON string: quote and backslash are escaped, the
/// control characters below U+0020 become short or `\u00XX` escapes, all else stays.
pub fn escape_chars(s: &[char]) -> (r: Vec<char>)
    ensures
        r@ == escape(s@),
{
    let mut out: Vec<char> = Vec::new();
    let mut i: usize = 0;
    while i < s.len()
        invariant
            i <= s@.len(),
            out@ == escape(s@.take(i as int)),
        decreases s@.len() - i,
    {
        proof {
            assert(s@.take(i + 1).drop_last() =~= s@.take(i as int));
        }
        push_escaped(&mut out, s[i]);
        i = i + 1;
    }
    assert(s@.take(i as int) =~= s@);
    out
}

/// The escaped form of `s`, as a string.
pub fn escape_string(s: &str) -> (r: String)
    ensures
        r@ == escape(s@),
{
    let cs = chars_of(s);
    let out = escape_chars(cs.as_slice());
    string_of(out.as_slice())
}

fn hex_digit_value(c: char) -> (r: Option<u32>)
    ensures
        r == hex_value(c),
{
    if '0' <= c && c <= '9' {
        Some((c as u32) - 48)
    } else if 'a' <= c && c <= 'f' {
        Some((c as u32) - 87)
    } else if 'A' <= c && c <= 'F' {
        Some((c as u32) - 55)
    } else {
        None
    }
}

fn hex_at(s: &[char], i: usize) -> (r: Option<u32>)
    ensures
        r == hex4(s@, i as int),
{
    if i > s.len() || s.len() - i < 4 {
        return None;
    }
    match (
        hex_digit_value(s[i]),
        hex_digit_value(s[i + 1]),
        hex_digit_value(s[i + 2]),
        hex_digit_value(s[i + 3]),
    ) {
        (Some(a), Some(b), Some(c), Some(d)) => Some(a * 4096 + b * 256 + c * 16 + d),
        _ => None,
    }
}

proof fn lemma_hex4_skip(s: Seq<char>, i: int, k: int)
    requires
        0 <= i <= s.len(),
        0 <= k,
    ensures
        hex4(s.skip(i), k) == hex4(s, i + k),
{
    let t = s.skip(i);
    if k + 4 <= t.len() {
        assert(t[k] == s[i + k] && t[k + 1] == s[i + k + 1] && t[k + 2] == s[i + k + 2]
            && t[k + 3] == s[i + k + 3]);
    }
}

fn short_escape_of(e: char) -> (r: Option<char>)
    ensures
        r == short_escape(e),
{
    if e == '"' || e == '\\' || e == '/' {
        Some(e)
    } else if e == 'b' {
        Some('\x08')
    } else if e == 'f' {
        Some('\x0c')
    } else if e == 'n' {
        Some('\n')
    } else if e == 'r' {
        Some('\r')
    } else if e == 't' {
        Some('\t')
    } else {
        None
    }
}

/// The escape sequence that starts at `s[i]`, if any.
#[verifier::rlimit(50)]
fn leading_escape_at(s: &[char], i: usize) -> (r: Option<(char, usize)>)
    requires
        i < s@.len(),
    ensures
        r matches Some((c, n)) ==> leading_escape(s@.skip(i as int)) == Some((c, n as int)),
        r is None ==> leading_escape(s@.skip(i as int)) is None,
{
    let ghost t = s@.skip(i as int);
    proof {
        lemma_hex4_skip(s@, i as int, 2);
        lemma_hex4_skip(s@, i as int, 8);
    }
    if s.len() - i < 2 || s[i] != '\\' {
        return None;
    }
    if let Some(c) = short_escape_of(s[i + 1]) {
        return Some((c, 2));
    }
    if s[i + 1] != 'u' {
        return None;
    }
    let v = match hex_at(s, i + 2) {
        Some(v) => v,
        None => return None,
    };
    if 0xD800 <= v && v < 0xDC00 && s.len() - i >= 12 && s[i + 6] == '\\' && s[i + 7] == 'u' {
        if let Some(w) = hex_at(s, i + 8) {
            if 0xDC00 <= w && w < 0xE000 {
                let code = 0x10000 + (v - 0xD800) * 0x400 + (w - 0xDC00);
                proof {
                    assert(t[6] == s@[i + 6] && t[7] == s@[i + 7]);
                }
                return match char_from_u32(code) {
                    Some(c) => Some((c, 12)),
                    None => None,
                };
            }
        }
    }
    proof {
        if s@.len() - i >= 12 {
            assert(t[6] == s@[i + 6] && t[7] == s@[i + 7]);
        }
    }
    match char_from_u32(v) {
        Some(c) => Some((c, 6)),
        None => None,
    }
}

/// The text that the escaped characters `s` stand for.
#[verifier::rlimit(50)]
pub fn unescape_chars(s: &[char]) -> (r: Vec<char>)
    ensures
        r@ == unescape(s@),
{
    let mut out: Vec<char> = Vec::new();
    let mut i: usize = 0;
    assert(s@.skip(0) =~= s@);
    while i < s.len()
        invariant
            i <= s@.len(),
            out@ + unescape(s@.skip(i as int)) == unescape(s@),
        decreases s@.len() - i,
    {
        let ghost t = s@.skip(i as int);
        match leading_escape_at(s, i) {
            Some((c, n)) => {
                assert(t.skip(n as int) =~= s@.skip(i + n));
                assert(unescape(t) == seq![c] + unescape(t.skip(n as int)));
                out.push(c);
                assert(out@ + unescape(s@.skip(i + n)) =~= unescape(s@));
                i = i + n;
            },
            None => {
                assert(t.skip(1) =~= s@.skip(i + 1));
                assert(unescape(t) == seq![s@[i as int]] + unescape(t.skip(1)));
                out.push(s[i]);
                assert(out@ + unescape(s@.skip(i + 1)) =~= unescape(s@));
                i = i + 1;
            },
        }
    }
    assert(s@.skip(i as int) =~= Seq::<char>::empty());
    assert(out@ + Seq::<char>::empty() =~= out@);
    out
}

/// The text that the escaped string `s` stands for.
pub fn unescape_string(s: &str) -> (r: String)
    ensures
        r@ == unescape(s@),
{
    let cs = chars_of(s);
    let out = unescape_chars(cs.as_slice());
    string_of(out.as_slice())
}

} // verus!
