//! Unicode character properties, taken from the `unicode-ident` and
//! `unicode-general-category` crates.
use vstd::prelude::*;

verus! {

/// Whether a character has the Unicode property XID_Start.
pub uninterp spec fn xid_start(c: char) -> bool;

/// Whether a character has the Unicode property XID_Continue.
pub uninterp spec fn xid_continue(c: char) -> bool;

/// An ASCII letter.
pub open spec fn is_ascii_letter(c: char) -> bool {
    ('a' <= c && c <= 'z') || ('A' <= c && c <= 'Z')
}

/// Relies on `unicode_ident::is_xid_start`: the XID_Start property of `ch`; among ASCII
/// characters its table holds the letters alone.
pub assume_specification[ unicode_ident::is_xid_start ](ch: char) -> (r: bool)
    ensures
        r == xid_start(ch),
        (ch as u32) < 128 ==> (r <==> is_ascii_letter(ch)),
;

/// Relies on `unicode_ident::is_xid_continue`: the XID_Continue property of `ch`; among
/// ASCII characters its table holds the letters, the digits and `_`.
pub assume_specification[ unicode_ident::is_xid_continue ](ch: char) -> (r: bool)
    ensures
        r == xid_continue(ch),
        (ch as u32) < 128 ==> (r <==> (is_ascii_letter(ch) || ('0' <= ch && ch <= '9') || ch == '_')),
;

} // verus!
