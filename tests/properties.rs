use mkjson::composer::{compose, safe_bytes_display, safe_unicode_display, BuildError};
use mkjson::directive::{quote_string, Path, Segment};
use mkjson::escape::{escape_string, unescape_string};
use mkjson::node::{build_tree, Node};
use mkjson::parse;
use mkjson::parser::{is_xid_string, parse_operator, parse_segment, validate_json, OperatorAst, SegmentAst, SyntaxError};
use mkjson::validator::{validate, NodeKind, PathErrorVariant};

fn check(directives: &[&str]) -> Result<Option<String>, BuildError> {
    let directives: Vec<Vec<u8>> = directives.iter().map(|s| s.bytes().collect()).collect();
    compose(directives).map(|tree| tree.map(|node| node.to_string()))
}

fn path_error(directives: &[&str]) -> (String, PathErrorVariant) {
    match check(directives) {
        Err(BuildError::Path { source }) => (format!("{:?}", source.path), source.variant),
        other => panic!("expected a path error, got {:?}", other),
    }
}

#[test]
fn escape_then_unescape_gives_the_text_back() {
    for text in ["", "plain", "quote \" and backslash \\", "\u{0}\u{1}\u{8}\u{9}\u{a}\u{c}\u{d}\u{1f}", "\u{7f} é € 😀", "/"] {
        assert_eq!(unescape_string(&escape_string(text)), text);
    }
}

#[test]
fn escape_uses_short_and_hex_forms() {
    assert_eq!(escape_string("a\"b\\c"), "a\\\"b\\\\c");
    assert_eq!(escape_string("\u{8}\u{c}\n\r\t"), "\\b\\f\\n\\r\\t");
    assert_eq!(escape_string("\u{1}\u{1b}\u{1f}"), "\\u0001\\u001b\\u001f");
    assert_eq!(escape_string("\u{7f}/é"), "\u{7f}/é");
    assert_eq!(quote_string("x\"y"), "\"x\\\"y\"");
}

#[test]
fn unescape_decodes_each_escape() {
    assert_eq!(unescape_string("\\u0041\\/\\b\\f\\n\\r\\t\\\"\\\\"), "A/\u{8}\u{c}\n\r\t\"\\");
    assert_eq!(unescape_string("\\u00e9\\u00E9"), "éé");
    assert_eq!(unescape_string("\\ud83d\\ude00"), "😀");
    // a lone surrogate or a broken escape stands for itself
    assert_eq!(unescape_string("\\ud83d"), "\\ud83d");
    assert_eq!(unescape_string("\\q"), "\\q");
}

#[test]
fn document_is_json_that_reads_back_to_itself() {
    let batches: [&[&str]; 5] = [
        &["foo:42", "bar:43"],
        &["0:42", "1:true"],
        &["a.b.0=x", "a.b.1:null", "a.c:{\"k\":[1,2]}", "d=\"q\""],
        &[".:340282366920938463463374607431768211457"],
        &["1.0:42", "1.1:true", "0:{}"],
    ];
    for batch in batches {
        let text = check(batch).unwrap().unwrap();
        let value: serde_json::Value = serde_json::from_str(&text).unwrap();
        assert_eq!(serde_json::to_string(&value).unwrap(), text);
    }
}

#[test]
fn contiguous_arrays_build_and_gaps_name_the_smallest_missing_index() {
    assert_eq!(check(&["2=c", "0=a", "1=b"]).unwrap(), Some("[\"a\",\"b\",\"c\"]".to_string()));
    let (path, variant) = path_error(&["0=a", "1=b", "3=d", "5=f"]);
    assert!(path.contains("Root"), "{}", path);
    assert!(matches!(variant, PathErrorVariant::IncompleteArray { index_seen: 3, index_missing: 2 }));
    let (_, variant) = path_error(&["x.4=a", "x.2=b"]);
    assert!(matches!(variant, PathErrorVariant::IncompleteArray { index_seen: 2, index_missing: 0 }));
}

#[test]
fn swapped_directives_report_the_same_kinds_swapped() {
    let pairs = [("a.b=x", "a.0=y"), ("a=x", "a.b=y"), ("0.0=x", "0.k=y")];
    for (first, second) in pairs {
        let (path1, v1) = path_error(&[first, second]);
        let (path2, v2) = path_error(&[second, first]);
        assert_eq!(path1, path2);
        match (v1, v2) {
            (
                PathErrorVariant::StructuralConflict { kind1: a, kind2: b },
                PathErrorVariant::StructuralConflict { kind1: c, kind2: d },
            ) => {
                assert_eq!((a, b), (d, c));
            },
            other => panic!("expected two structural conflicts, got {:?}", other),
        }
    }
}

#[test]
fn small_batches_give_the_expected_results() {
    assert_eq!(check(&["foo:42", "bar:43"]).unwrap(), Some("{\"bar\":43,\"foo\":42}".to_string()));
    assert_eq!(check(&["0:42", "1:true"]).unwrap(), Some("[42,true]".to_string()));
    let (_, variant) = path_error(&["foo.2=x"]);
    assert!(matches!(variant, PathErrorVariant::IncompleteArray { index_seen: 2, index_missing: 0 }));
    let (path, variant) = path_error(&[".:42", ".:43"]);
    assert!(path.contains("Root"));
    assert!(matches!(variant, PathErrorVariant::ConflictingDirectives));
    assert!(matches!(
        check(&["00=x"]),
        Err(BuildError::Syntax { source: SyntaxError::UnexpectedChar { pos: 2, ch: '0' }, .. })
    ));
    assert_eq!(check(&[]).unwrap(), None);
}

#[test]
fn each_syntax_error_has_an_input() {
    assert!(matches!(parse("4294967296=x"), Err(SyntaxError::InvalidIndex { pos: 11 })));
    assert!(matches!(parse("4294967295=x"), Ok(_)));
    assert!(matches!(parse("\"\\q\"=x"), Err(SyntaxError::InvalidKey { pos: 4 })));
    assert!(matches!(parse(".:nope"), Err(SyntaxError::InvalidJsonValue { pos: 3 })));
    assert!(matches!(parse(".:  "), Err(SyntaxError::UnexpectedEndOfString)));
    assert!(matches!(parse("a"), Err(SyntaxError::UnexpectedEndOfString)));
    assert!(matches!(parse("a?1"), Err(SyntaxError::UnexpectedChar { pos: 2, ch: '?' })));
    assert!(matches!(parse(".:\"😀\" x"), Err(SyntaxError::UnexpectedChar { pos: 7, ch: 'x' })));
}

#[test]
fn positions_after_a_quoted_key_count_characters() {
    assert!(matches!(parse("\"é\"?x"), Err(SyntaxError::UnexpectedChar { pos: 4, ch: '?' })));
    match parse_segment(1, "\"ab\".c") {
        Ok((SegmentAst::QuotedKey(k), pos, rest)) => {
            assert_eq!(k, "\"ab\"");
            assert_eq!(pos, 5);
            assert_eq!(rest, ".c");
        },
        other => panic!("{:?}", other),
    }
    match parse_operator(7, "=rest") {
        Ok((OperatorAst::EqualSign, 8, "rest")) => {},
        other => panic!("{:?}", other),
    }
    assert!(validate_json(1, "[1, 2] ").is_ok());
    assert!(matches!(validate_json(1, "1 2"), Err(SyntaxError::UnexpectedChar { pos: 3, ch: '2' })));
}

#[test]
fn each_path_error_has_an_input() {
    assert!(matches!(path_error(&["a:1", "\"\\u0061\".b:2"]).1, PathErrorVariant::InconsistentKeyEncodings { .. }));
    assert!(matches!(path_error(&["a:1", "a:2"]).1, PathErrorVariant::ConflictingDirectives));
    assert!(matches!(
        path_error(&["a:1", "a.b:2"]).1,
        PathErrorVariant::StructuralConflict { kind1: NodeKind::Value, kind2: NodeKind::Object }
    ));
    assert!(matches!(path_error(&["1:1"]).1, PathErrorVariant::IncompleteArray { index_seen: 1, index_missing: 0 }));
}

#[test]
fn inconsistent_encodings_name_both_spellings() {
    match path_error(&["a:1", "\"\\u0061\":2"]).1 {
        PathErrorVariant::InconsistentKeyEncodings { encoding1: Segment::Key(a), encoding2: Segment::Key(b) } => {
            assert_eq!(a, "a");
            assert_eq!(b, "\\u0061");
        },
        other => panic!("{:?}", other),
    }
}

#[test]
fn invalid_utf8_is_an_encoding_error_shown_safely() {
    let result = compose(vec![vec![b'a', b'=', 0xff, b'"']]);
    match result {
        Err(BuildError::Encoding { directive }) => assert_eq!(directive, "a=\\xff\\\""),
        other => panic!("{:?}", other),
    }
    assert_eq!(safe_bytes_display(b"\t\n\r\\ok\x01"), "\\t\\n\\r\\\\ok\\x01");
}

#[test]
fn unprintable_characters_are_shown_as_escapes() {
    assert_eq!(safe_unicode_display("a\u{10}b"), "a\\u0010b");
    assert_eq!(safe_unicode_display("\u{200b}x"), "\\u200Bx");
    assert_eq!(safe_unicode_display("\u{f0000}"), "\\U000F0000");
    assert_eq!(safe_unicode_display("é😀"), "é😀");
}

#[test]
fn identifiers_are_told_apart() {
    assert!(is_xid_string("foo_1"));
    assert!(is_xid_string("вишиванка"));
    assert!(!is_xid_string("1foo"));
    assert!(!is_xid_string("foo bar"));
    assert!(!is_xid_string(""));
}

#[test]
fn object_keys_sort_by_their_unescaped_text() {
    assert_eq!(check(&["\"\\u0042\":1", "A:2"]).unwrap(), Some("{\"A\":2,\"\\u0042\":1}".to_string()));
    assert_eq!(check(&["b:1", "\"\\u0061\":2"]).unwrap(), Some("{\"\\u0061\":2,\"b\":1}".to_string()));
}

#[test]
fn tree_operations_follow_the_paths() {
    let a = Path::root().append(Segment::Key("a".to_string()));
    let a0 = a.append(Segment::Index(0));
    let a1 = a.append(Segment::Index(1));
    let mut node = Node::create(&a0, "1".to_string());
    assert!(node.insert(&a1, "2".to_string()));
    assert_eq!(node.to_string(), "{\"a\":[1,2]}");
    assert!(!node.insert(&a.append(Segment::Key("k".to_string())), "3".to_string()));
    assert!(!node.insert(&Path::root(), "3".to_string()));
    assert_eq!(node.to_string(), "{\"a\":[1,2]}");
    assert!(build_tree(vec![]).is_none());
}

#[test]
fn path_helpers_split_and_join() {
    let p = Path::root().append(Segment::Key("a".to_string())).append(Segment::Index(3));
    assert_eq!(p.len(), 2);
    let (first, rest) = p.split_first().unwrap();
    assert_eq!(first, Segment::Key("a".to_string()));
    assert_eq!(rest.len(), 1);
    let (prefix, last) = p.split_last().unwrap();
    assert_eq!(last, Segment::Index(3));
    assert_eq!(prefix.len(), 1);
    assert_eq!(p.iter().len(), 2);
    let escaped = Path::root().append(Segment::Key("\\u0061".to_string()));
    assert!(escaped.unescape() == Path::root().append(Segment::Key("a".to_string())));
    assert!(Path::root().split_first().is_none());
    assert!(Path::root().prefix().is_none());
    assert_eq!(Segment::Key("x".to_string()).as_unquoted(), Some("x"));
}

#[test]
fn validation_accepts_a_consistent_batch() {
    let a = parse("a.0=x").unwrap();
    let b = parse("a.1:true").unwrap();
    assert!(validate(&[a, b]).is_ok());
}

#[test]
fn segments_and_paths_as_text() {
    assert_eq!(Path::root().to_string(), ".");
    let p = Path::root()
        .append(Segment::Key("foo".to_string()))
        .append(Segment::Index(120))
        .append(Segment::Key("a b".to_string()));
    assert_eq!(p.to_string(), "foo.120.\"a b\"");
    assert_eq!(Segment::Index(0).to_string(), "0");
    assert_eq!(Segment::Key("\\u0061".to_string()).to_string(), "\"\\u0061\"");
}

#[test]
fn order_of_members_is_checked() {
    let a = Path::root().append(Segment::Key("a".to_string()));
    let built = Node::create(&a, "1".to_string());
    assert!(built.is_ordered());
    let unsorted = Node::Array(vec![(1, Node::Value("x".to_string())), (0, Node::Value("y".to_string()))]);
    assert!(!unsorted.is_ordered());
    let nested = Node::Object(vec![
        ("a".to_string(), Node::Value("1".to_string())),
        ("b".to_string(), Node::Array(vec![(2, Node::Value("z".to_string())), (2, Node::Value("w".to_string()))])),
    ]);
    assert!(!nested.is_ordered());
    let keys = Node::Object(vec![("b".to_string(), Node::Value("1".to_string())), ("\\u0061".to_string(), Node::Value("2".to_string()))]);
    assert!(!keys.is_ordered());
}
