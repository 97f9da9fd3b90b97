use mkjson::composer::{compose, BuildError};
use mkjson::directive::{Path, Segment};
use mkjson::parser::{parse_path, SyntaxError};
use mkjson::validator::{NodeKind, PathErrorVariant};
use std::rc::Rc;

fn check(directives: &[&str]) -> Result<Option<String>, BuildError> {
    let directives: Vec<Vec<u8>> = directives.iter().map(|s| s.bytes().collect()).collect();
    compose(directives).map(|tree| tree.map(|node| node.to_string()))
}

fn new_path(s: &str) -> Rc<Path> {
    let (asts, _, _) = parse_path(1, s).unwrap();
    let mut path = Path::root();
    for ast in asts.iter() {
        path = path.append(Segment::from_ast(ast));
    }
    path
}

fn expect_json(directives: &[&str], expected: &str) {
    assert_eq!(check(directives).unwrap(), Some(expected.to_string()));
}

fn syntax_error(directives: &[&str]) -> SyntaxError {
    match check(directives) {
        Err(BuildError::Syntax { source, .. }) => source,
        other => panic!("expected a syntax error, got {:?}", other),
    }
}

fn expect_path_error(directives: &[&str], path: &str, variant: fn(&PathErrorVariant) -> bool) {
    match check(directives) {
        Err(BuildError::Path { source }) => {
            assert!(source.path == new_path(path), "path {:?}", source.path);
            assert!(variant(&source.variant), "variant {:?}", source.variant);
        },
        other => panic!("expected a path error, got {:?}", other),
    }
}

#[test]
fn accept_index_segment() {
    expect_json(&["0:42"], "[42]");
}

#[test]
fn reject_index_segment_with_leading_zeros() {
    assert!(matches!(
        syntax_error(&["00=x"]),
        SyntaxError::UnexpectedChar { pos: 2, ch: '0' }
    ));
    assert!(matches!(
        syntax_error(&["01=x"]),
        SyntaxError::UnexpectedChar { pos: 2, ch: '1' }
    ));
}

#[test]
fn accept_bare_key_segment() {
    expect_json(&["foo:42"], r#"{"foo":42}"#);
    expect_json(&["вишиванка:42"], r#"{"вишиванка":42}"#);
}

#[test]
fn reject_bare_key_segment_with_special_characters() {
    assert!(matches!(
        syntax_error(&["foo/bar:42"]),
        SyntaxError::UnexpectedChar { pos: 4, ch: '/' }
    ));
    assert!(matches!(
        syntax_error(&[" foobar=true"]),
        SyntaxError::UnexpectedChar { pos: 1, ch: ' ' }
    ));
    assert!(matches!(
        syntax_error(&["foo bar:true"]),
        SyntaxError::UnexpectedChar { pos: 4, ch: ' ' }
    ));
    assert!(matches!(
        syntax_error(&["foobar :true"]),
        SyntaxError::UnexpectedChar { pos: 7, ch: ' ' }
    ));
}

#[test]
fn show_escaped_control_character_in_error_message() {
    assert!(matches!(
        check(&["foo.\u{0010}=x"]),
        Err(BuildError::Syntax {
            source: SyntaxError::UnexpectedChar {
                pos: 5,
                ch: '\u{0010}'
            },
            directive,
        })
        if directive == "foo.\\u0010=x"
    ));
}

#[test]
fn accept_quoted_key_segment() {
    expect_json(&[r#""foo":42"#], r#"{"foo":42}"#);
    assert!(matches!(
        syntax_error(&["\"unterminated"]),
        SyntaxError::UnexpectedEndOfString
    ));
    expect_json(&[r#""😀":42"#], r#"{"😀":42}"#);
    expect_json(&[r#""foo.bar":42"#], r#"{"foo.bar":42}"#);
    expect_json(&[r#""foo:bar":42"#], r#"{"foo:bar":42}"#);
    expect_json(&[r#""":42"#], r#"{"":42}"#);
    expect_json(&[r#"" foo bar ":42"#], r#"{" foo bar ":42}"#);
}

#[test]
fn accept_two_character_escapes() {
    expect_json(&[r#""\b\f\n\r\t\/\\\"":42"#], r#"{"\b\f\n\r\t\/\\\"":42}"#);
}

#[test]
fn accept_six_character_escape() {
    expect_json(&[r#""\u2600":42"#], r#"{"\u2600":42}"#);
}

#[test]
fn reject_unescaped_control_character() {
    assert!(matches!(
        syntax_error(&["\"\x08\"=x"]),
        SyntaxError::UnexpectedChar { pos: 2, ch: '\x08' }
    ));
    assert!(matches!(
        syntax_error(&["\"\x0c\"=x"]),
        SyntaxError::UnexpectedChar { pos: 2, ch: '\x0c' }
    ));
    assert!(matches!(
        syntax_error(&["\"\x0a\"=x"]),
        SyntaxError::UnexpectedChar { pos: 2, ch: '\x0a' }
    ));
    assert!(matches!(
        syntax_error(&["\"\x0d\"=x"]),
        SyntaxError::UnexpectedChar { pos: 2, ch: '\x0d' }
    ));
    assert!(matches!(
        syntax_error(&["\"\x09\"=x"]),
        SyntaxError::UnexpectedChar { pos: 2, ch: '\x09' }
    ));
    assert!(matches!(
        syntax_error(&["\"\x00\"=x"]),
        SyntaxError::UnexpectedChar { pos: 2, ch: '\x00' }
    ));
    assert!(matches!(
        syntax_error(&["\"\x04\"=x"]),
        SyntaxError::UnexpectedChar { pos: 2, ch: '\x04' }
    ));
    assert!(matches!(
        syntax_error(&["\"\x16\"=x"]),
        SyntaxError::UnexpectedChar { pos: 2, ch: '\x16' }
    ));
}

#[test]
fn accept_root_path() {
    expect_json(&[".:42"], "42");
}

#[test]
fn accept_single_segment_paths() {
    expect_json(&["foo:42"], r#"{"foo":42}"#);
    expect_json(&["0:42"], "[42]");
}

#[test]
fn accept_nested_paths() {
    expect_json(&["foo.bar.baz:42"], r#"{"foo":{"bar":{"baz":42}}}"#);
    expect_json(&["0.0:42"], "[[42]]");
    expect_json(&["0.0.0:42"], "[[[42]]]");
    expect_json(&["foo.0:42"], r#"{"foo":[42]}"#);
    expect_json(&["0.foo:42"], r#"[{"foo":42}]"#);
}

#[test]
fn reject_paths_with_unquoted_empty_segments() {
    assert!(matches!(
        syntax_error(&[":42"]),
        SyntaxError::UnexpectedChar { pos: 1, ch: ':' }
    ));
    assert!(matches!(
        syntax_error(&[".foo:42"]),
        SyntaxError::UnexpectedChar { pos: 2, ch: 'f' }
    ));
    assert!(matches!(
        syntax_error(&["foo.:42"]),
        SyntaxError::UnexpectedChar { pos: 5, ch: ':' }
    ));
    assert!(matches!(
        syntax_error(&["foo..bar:42"]),
        SyntaxError::UnexpectedChar { pos: 5, ch: '.' }
    ));
}

#[test]
fn accept_null() {
    expect_json(&[".:null"], "null");
}

#[test]
fn accept_true() {
    expect_json(&[".:true"], "true");
}

#[test]
fn accept_false() {
    expect_json(&[".:false"], "false");
}

#[test]
fn accept_zero_and_preserve_sign() {
    expect_json(&[".:0"], "0");
    expect_json(&[".:-0"], "-0");
}

#[test]
fn accept_fractions() {
    expect_json(&[".:1.1"], "1.1");
}

#[test]
fn accept_and_preserve_scientific_notation() {
    expect_json(&[".:6.02e23"], "6.02e23");
}

#[test]
fn reject_nan() {
    assert!(matches!(
        syntax_error(&[".:NaN"]),
        SyntaxError::InvalidJsonValue { pos: 3, .. }
    ));
}

#[test]
fn reject_infinity() {
    assert!(matches!(
        syntax_error(&[".:Infinity"]),
        SyntaxError::InvalidJsonValue { pos: 3, .. }
    ));
}

#[test]
fn reject_hexadecimal_notation() {
    assert!(matches!(
        syntax_error(&[".:0xFF"]),
        SyntaxError::InvalidJsonValue { pos: 3, .. }
    ));
}

#[test]
fn reject_trailing_garbage_after_value() {
    assert!(matches!(
        syntax_error(&[".:null,"]),
        SyntaxError::UnexpectedChar { pos: 7, ch: ',' }
    ));
    assert!(matches!(
        syntax_error(&[".:null ,"]),
        SyntaxError::UnexpectedChar { pos: 8, ch: ',' }
    ));
    assert!(matches!(
        syntax_error(&[".:true,"]),
        SyntaxError::UnexpectedChar { pos: 7, ch: ',' }
    ));
    assert!(matches!(
        syntax_error(&[".:true ,"]),
        SyntaxError::UnexpectedChar { pos: 8, ch: ',' }
    ));
    assert!(matches!(
        syntax_error(&[".:false,"]),
        SyntaxError::UnexpectedChar { pos: 8, ch: ',' }
    ));
    assert!(matches!(
        syntax_error(&[".:false ,"]),
        SyntaxError::UnexpectedChar { pos: 9, ch: ',' }
    ));
    assert!(matches!(
        syntax_error(&[".:42,"]),
        SyntaxError::UnexpectedChar { pos: 5, ch: ',' }
    ));
    assert!(matches!(
        syntax_error(&[".:42 ,"]),
        SyntaxError::UnexpectedChar { pos: 6, ch: ',' }
    ));
    assert!(matches!(
        syntax_error(&[r#".:"x","#]),
        SyntaxError::UnexpectedChar { pos: 6, ch: ',' }
    ));
    assert!(matches!(
        syntax_error(&[r#".:"x" ,"#]),
        SyntaxError::UnexpectedChar { pos: 7, ch: ',' }
    ));
    assert!(matches!(
        syntax_error(&[".:[],"]),
        SyntaxError::UnexpectedChar { pos: 5, ch: ',' }
    ));
    assert!(matches!(
        syntax_error(&[".:[] ,"]),
        SyntaxError::UnexpectedChar { pos: 6, ch: ',' }
    ));
    assert!(matches!(
        syntax_error(&[".:{},"]),
        SyntaxError::UnexpectedChar { pos: 5, ch: ',' }
    ));
    assert!(matches!(
        syntax_error(&[".:{} ,"]),
        SyntaxError::UnexpectedChar { pos: 6, ch: ',' }
    ));
}

#[test]
fn accept_unescaped_string() {
    expect_json(&[r#".:"""#], r#""""#);
    expect_json(&[r#".:"foo""#], r#""foo""#);
    expect_json(&[r#".:"😀""#], r#""😀""#);
}

#[test]
fn accept_and_preserve_unicode_escape() {
    expect_json(&[r#".:"\u0000""#], r#""\u0000""#);
    expect_json(&[r#".:"\u0041""#], r#""\u0041""#);
    expect_json(&[r#".:"\u007f""#], r#""\u007f""#);
    expect_json(&[r#".:"\u2600""#], r#""\u2600""#);
}

#[test]
fn accept_and_preserve_escaped_quotation_mark() {
    expect_json(&[r#".:"\"""#], r#""\"""#);
}

#[test]
fn accept_and_preserve_escaped_reverse_solidus() {
    expect_json(&[r#".:"\\""#], r#""\\""#);
}

#[test]
fn accept_and_preserve_escaped_and_unescaped_solidus() {
    expect_json(&[r#".:"\/""#], r#""\/""#);
    expect_json(&[r#".:"/""#], r#""/""#);
}

#[test]
fn accept_and_preserve_escaped_backspace() {
    expect_json(&[r#".:"\b""#], r#""\b""#);
}

#[test]
fn accept_and_preserve_escaped_form_feed() {
    expect_json(&[r#".:"\f""#], r#""\f""#);
}

#[test]
fn accept_and_preserve_escaped_line_feed() {
    expect_json(&[r#".:"\n""#], r#""\n""#);
}

#[test]
fn accept_and_preserve_escaped_carriage_return() {
    expect_json(&[r#".:"\r""#], r#""\r""#);
}

#[test]
fn accept_and_preserve_escaped_tab() {
    expect_json(&[r#".:"\t""#], r#""\t""#);
}

#[test]
fn accept_and_preserve_unescaped_del() {
    // DEL (U+007F) is not a control character per RFC 8259.
    expect_json(&[".:\"\x7f\""], "\"\x7f\"");
}

#[test]
fn accept_string_assignment() {
    expect_json(&[".="], r#""""#);
    expect_json(&[".=😀"], r#""😀""#);
    expect_json(&[r#".=foo:bar"#], r#""foo:bar""#);
}

#[test]
fn escape_quotation_mark_to_preserve_it() {
    expect_json(&[r#".=""#], r#""\"""#);
}

#[test]
fn escape_reverse_solidus_to_preserve_it() {
    expect_json(&[r#".=\"#], r#""\\""#);
}

#[test]
fn avoid_escaping_solidus_even_though_escape_sequence_exists() {
    expect_json(&[r#".=/"#], r#""/""#);
}

#[test]
fn escape_control_character_to_preserve_it() {
    expect_json(&[".=\x00"], r#""\u0000""#);
    expect_json(&[".=\x01"], r#""\u0001""#);
    expect_json(&[".=\x02"], r#""\u0002""#);
    expect_json(&[".=\x03"], r#""\u0003""#);
    expect_json(&[".=\x04"], r#""\u0004""#);
    expect_json(&[".=\x05"], r#""\u0005""#);
    expect_json(&[".=\x06"], r#""\u0006""#);
    expect_json(&[".=\x07"], r#""\u0007""#);
    expect_json(&[".=\x08"], r#""\b""#); // backspace
    expect_json(&[".=\x09"], r#""\t""#); // tab
    expect_json(&[".=\x0a"], r#""\n""#); // line feed
    expect_json(&[".=\x0b"], r#""\u000b""#);
    expect_json(&[".=\x0c"], r#""\f""#); // form feed
    expect_json(&[".=\x0d"], r#""\r""#); // carriage return
    expect_json(&[".=\x0e"], r#""\u000e""#);
    expect_json(&[".=\x0f"], r#""\u000f""#);
    expect_json(&[".=\x10"], r#""\u0010""#);
    expect_json(&[".=\x11"], r#""\u0011""#);
    expect_json(&[".=\x12"], r#""\u0012""#);
    expect_json(&[".=\x13"], r#""\u0013""#);
    expect_json(&[".=\x14"], r#""\u0014""#);
    expect_json(&[".=\x15"], r#""\u0015""#);
    expect_json(&[".=\x16"], r#""\u0016""#);
    expect_json(&[".=\x17"], r#""\u0017""#);
    expect_json(&[".=\x1b"], r#""\u001b""#);
    expect_json(&[".=\x1d"], r#""\u001d""#);
    expect_json(&[".=\x1e"], r#""\u001e""#);
    expect_json(&[".=\x1f"], r#""\u001f""#);
}

#[test]
fn accept_and_preserve_del_character() {
    // DEL (U+007F) is not a control character per RFC 8259.
    expect_json(&[".=\x7f"], "\"\x7f\"");
}

// A `:` value is any one complete JSON value, empty containers or not, so
// `.:{"foo":42}` and `.:[42]` are accepted here (see `transform.rs`), not rejected.
#[test]
fn accept_empty_object() {
    expect_json(&[".:{}"], "{}");
}

#[test]
fn accept_empty_array() {
    expect_json(&[".:[]"], "[]");
}

#[test]
fn reject_incomplete_directive() {
    assert!(matches!(
        syntax_error(&[""]),
        SyntaxError::UnexpectedEndOfString
    ));
    assert!(matches!(
        syntax_error(&["foo"]),
        SyntaxError::UnexpectedEndOfString
    ));
}

#[test]
fn reject_conflicting_root_assignments() {
    expect_path_error(&[".:42", ".:43"], ".", |v| matches!(v, PathErrorVariant::ConflictingDirectives));
}

#[test]
fn reject_duplicate_object_keys() {
    expect_path_error(&["a:42", "a:42"], "a", |v| matches!(v, PathErrorVariant::ConflictingDirectives));
    expect_path_error(&["a:42", r#""a":42"#], "a", |v| matches!(v, PathErrorVariant::ConflictingDirectives));
    expect_path_error(&[r#""a":42"#, r#""a":42"#], "a", |v| matches!(v, PathErrorVariant::ConflictingDirectives));
}

#[test]
fn reject_ambiguous_escape_encodings() {
    expect_path_error(&["a:42", r#""\u0061":42"#], ".", |v| matches!(v, PathErrorVariant::InconsistentKeyEncodings { .. }));
    expect_path_error(&[r#""\u006a":42"#, r#""\u006A":42"#], ".", |v| matches!(v, PathErrorVariant::InconsistentKeyEncodings { .. }));
}

#[test]
fn accept_nfc_nfd_nfkc_nfkd_encodings_distinct_keys_per_rfc_8259() {
    // LATIN SMALL LETTER A WITH DIAERESIS
    expect_json(&[
            "a\u{308}:42", // NFD and NFKD
            "\u{e4}:42",   // NFC and NFKC
        ],
        "{\"a\u{308}\":42,\"\u{e4}\":42}"
    );

    // LATIN SMALL LIGATURE FI + COMBINING ACUTE ACCENT
    expect_json(&[
            "fi\u{301}:42",       // NFKC and NFKD
            "\u{fb01}\u{301}:42", // NFC and NFD
        ],
        "{\"fi\u{301}\":42,\"\u{fb01}\u{301}\":42}"
    );
}

#[test]
fn reject_duplicate_array_indices() {
    expect_path_error(&["0:42", "0:43"], "0", |v| matches!(v, PathErrorVariant::ConflictingDirectives));
}

#[test]
fn reject_inconsistent_object_and_array_structures() {
    expect_path_error(&["foo.0=x", "foo.bar=y"], "foo", |v| matches!(v, PathErrorVariant::StructuralConflict {
            kind1: NodeKind::Array,
            kind2: NodeKind::Object,
        }));
    expect_path_error(&["foo.bar=x", "foo.0=y"], "foo", |v| matches!(v, PathErrorVariant::StructuralConflict {
            kind1: NodeKind::Object,
            kind2: NodeKind::Array,
        }));
    expect_path_error(&["0=x", "foo=y"], ".", |v| matches!(v, PathErrorVariant::StructuralConflict {
            kind1: NodeKind::Array,
            kind2: NodeKind::Object,
        }));
    expect_path_error(&["foo=x", "0=y"], ".", |v| matches!(v, PathErrorVariant::StructuralConflict {
            kind1: NodeKind::Object,
            kind2: NodeKind::Array,
        }));

    expect_path_error(&[".={}", "a=x"], ".", |v| matches!(v, PathErrorVariant::StructuralConflict {
            kind1: NodeKind::Value,
            kind2: NodeKind::Object,
        }));
    expect_path_error(&["a=x", ".={}"], ".", |v| matches!(v, PathErrorVariant::StructuralConflict {
            kind1: NodeKind::Object,
            kind2: NodeKind::Value,
        }));
    expect_path_error(&[".=[]", "0=x"], ".", |v| matches!(v, PathErrorVariant::StructuralConflict {
            kind1: NodeKind::Value,
            kind2: NodeKind::Array,
        }));
    expect_path_error(&["0=x", ".=[]"], ".", |v| matches!(v, PathErrorVariant::StructuralConflict {
            kind1: NodeKind::Array,
            kind2: NodeKind::Value,
        }));
}

#[test]
fn reject_arrays_with_missing_indices() {
    expect_path_error(&["1=x"], ".", |v| matches!(v, PathErrorVariant::IncompleteArray {
            index_seen: 1,
            index_missing: 0,
        }));
    expect_path_error(&["foo.2=x"], "foo", |v| matches!(v, PathErrorVariant::IncompleteArray {
            index_seen: 2,
            index_missing: 0,
        }));
    expect_path_error(&["foo.0=x", "foo.2=y"], "foo", |v| matches!(v, PathErrorVariant::IncompleteArray {
            index_seen: 2,
            index_missing: 1,
        }));
    expect_path_error(&["2=x"], ".", |v| matches!(v, PathErrorVariant::IncompleteArray {
            index_seen: 2,
            index_missing: 0,
        }));
}

#[test]
fn return_none_for_empty_directive_set() {
    assert_eq!(check(&[]).unwrap(), None);
}

#[test]
fn merge_distinct_object_keys() {
    expect_json(&["foo:42", "bar:43"], r#"{"bar":43,"foo":42}"#);
    expect_json(&["0.foo:42", "0.bar:43"], r#"[{"bar":43,"foo":42}]"#);
    expect_json(&["a.foo:42", "a.bar:43"], r#"{"a":{"bar":43,"foo":42}}"#);
}

#[test]
fn merge_complete_and_distinct_array_indices() {
    expect_json(&["0:42", "1:true"], r#"[42,true]"#);
    expect_json(&["1.0:42", "1.1:true", "0:{}"], r#"[{},[42,true]]"#);
}

#[test]
fn sort_object_keys_in_codepoint_order() {
    expect_json(&[
            r#""":1"#,  // empty string
            r#"" ":2"#, // space
            "A:3",      // capital Latin letter
            "B:4",
            "a:5", // lowercase Latin letter
            "apple:6",
            "banana:7",
            r#""Zebra":8"#, // quoted capital word
            "Ápple:9",      // Latin capital A with acute (U+00C1)
            "äpple:10",     // Latin small a with diaeresis (U+00E4)
            "é:11",         // Latin small e with acute (U+00E9)
            r#""€":12"#     // Euro sign (U+20AC)
        ],
        r#"{"":1," ":2,"A":3,"B":4,"Zebra":8,"a":5,"apple":6,"banana":7,"Ápple":9,"äpple":10,"é":11,"€":12}"#
    );
}

#[test]
fn composer_test_just_within_precision_of_ieee_754_double_precision() {
    expect_json(&[".:3.141592653589793116"], "3.141592653589793116");
}

#[test]
fn composer_test_beyond_precision_of_ieee_754_double_precision() {
    expect_json(&[".:3.141592653589793238462643383279"],
        "3.141592653589793238462643383279"
    );
}

#[test]
fn composer_test_just_within_range_of_ieee_754() {
    expect_json(&[".:1.7976931348623157e308"], "1.7976931348623157e308");
}

#[test]
fn composer_test_beyond_precision_of_128_bit_integer() {
    expect_json(&[".:340282366920938463463374607431768211456"],
        "340282366920938463463374607431768211456"
    );
}

#[test]
fn composer_test_beyond_ieee_754_double_precision_range() {
    expect_json(&[".:1e400"], "1e400");
}

#[test]
fn preserve_trailing_zeros() {
    expect_json(&[".:1.00"], "1.00");
}

#[test]
fn accept_and_preserve_escaped_surrogate_pairs() {
    expect_json(&[r#".:"\ud83d\ude0a""#], r#""\ud83d\ude0a""#);
}

#[test]
fn reject_escaped_surrogate_pairs() {
    assert!(matches!(
        syntax_error(&[r#".:"\ud83d.\ude0a""#]),
        SyntaxError::InvalidJsonValue { pos: 3, .. }
    ));
}

#[test]
fn numeric_key() {
    expect_json(&[r#""0":42"#], r#"{"0":42}"#);
}

#[test]
fn empty_key() {
    expect_json(&[r#""":42"#], r#"{"":42}"#);
}

#[test]
fn numeric_string() {
    expect_json(&[r#".:"1""#], r#""1""#);
    expect_json(&[".=1"], r#""1""#);
}
