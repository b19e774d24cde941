use fluent_ftl_tools::po::{determine_line_type, get_message_at_line_index, parse_c_string_literal, parse_po_file, LineType};

fn pairs(v: &[(&str, &str)]) -> Vec<(String, String)> {
    v.iter().map(|(a, b)| (a.to_string(), b.to_string())).collect()
}

#[test]
fn parses_entries_in_order() {
    let content = b"# comment\nmsgid \"Hello\"\nmsgstr \"Hallo\"\n\nmsgid \"World\"\nmsgstr \"\"\n\"Welt\"\n";
    assert_eq!(parse_po_file(content), Ok(pairs(&[("Hello", "Hallo"), ("World", "Welt")])));
}

#[test]
fn entry_may_end_at_end_of_file_or_next_msgid() {
    let content = b"msgid \"a\"\nmsgstr \"x\"\nmsgid \"b\"\nmsgstr \"y\"";
    assert_eq!(parse_po_file(content), Ok(pairs(&[("a", "x"), ("b", "y")])));
}

#[test]
fn empty_file_has_no_entries() {
    assert_eq!(parse_po_file(b""), Ok(vec![]));
}

#[test]
fn duplicate_msgid_is_refused() {
    let content = b"msgid \"a\"\nmsgstr \"x\"\n\nmsgid \"a\"\nmsgstr \"y\"\n";
    assert_eq!(
        parse_po_file(content),
        Err("Duplicate msgid 'a'. First translated as x, then as y".to_string())
    );
}

#[test]
fn msgid_without_msgstr_is_refused() {
    assert_eq!(
        parse_po_file(b"msgid \"a\"\n\n"),
        Err("line 2, msgid \"a\": msgid must be directly followed by msgstr.".to_string())
    );
    assert_eq!(
        parse_po_file(b"msgid \"a\""),
        Err("Trailing msgid 'a' without corresponding msgstr.".to_string())
    );
}

#[test]
fn msgstr_without_msgid_is_refused() {
    assert_eq!(
        parse_po_file(b"msgstr \"x\"\n"),
        Err("line 1: msgstr \"x\" without preceding msgid.".to_string())
    );
}

#[test]
fn consecutive_msgids_and_msgstrs_are_refused() {
    assert_eq!(
        parse_po_file(b"msgid \"a\"\nmsgid \"b\"\n"),
        Err("line 2: two consecutive msgids: \"b\" and \"a\"".to_string())
    );
    assert_eq!(
        parse_po_file(b"msgid \"a\"\nmsgstr \"x\"\nmsgstr \"y\"\n"),
        Err("line 3: two consecutive msgstrs for msgid \"a\": \"x\" and \"y\"".to_string())
    );
}

#[test]
fn stray_string_and_unsupported_syntax_are_refused() {
    assert_eq!(
        parse_po_file(b"\"x\"\n"),
        Err("line 1: string literal not part of a msgid or msgstr: \"x\"".to_string())
    );
    assert_eq!(
        parse_po_file(b"msgctxt \"c\"\n"),
        Err("Unsupported syntax found in line 1: msgctxt is not supported.".to_string())
    );
    assert_eq!(
        parse_po_file(b"hello\n"),
        Err("Invalid syntax found in line 1: Line did not match the expected format.".to_string())
    );
}

#[test]
fn invalid_utf8_is_refused() {
    assert_eq!(
        parse_po_file(b"msgid \"\xff\"\n"),
        Err("Failed to read line: stream did not contain valid UTF-8".to_string())
    );
}

#[test]
fn c_string_literals() {
    assert_eq!(parse_c_string_literal("\"a\\nb\\t\\\"c\\\\\""), Ok("a\nb\t\"c\\".to_string()));
    assert_eq!(
        parse_c_string_literal(""),
        Err("Expected double-quote delimited string literal, but got nothing.".to_string())
    );
    assert_eq!(
        parse_c_string_literal("x\""),
        Err("Expected double quote at start of string literal but got 'x'".to_string())
    );
    assert_eq!(
        parse_c_string_literal("\""),
        Err("Expected double-quote at the end of a string literal, but got nothing.".to_string())
    );
    assert_eq!(
        parse_c_string_literal("\"ab"),
        Err("Expected double quote at end of string literal but got 'b'".to_string())
    );
    assert_eq!(
        parse_c_string_literal("\"\\q\""),
        Err("Unsupported escaped character: q".to_string())
    );
    assert_eq!(
        parse_c_string_literal("\"a\"b\""),
        Err("Unescaped double quote appeared in string literal before it was supposed to end.".to_string())
    );
    assert_eq!(
        parse_c_string_literal("\"a\\\""),
        Err("Unterminated escape at the end of the string.".to_string())
    );
}

#[test]
fn line_types() {
    assert!(matches!(determine_line_type(""), LineType::Ignored));
    assert!(matches!(determine_line_type("# x"), LineType::Ignored));
    match determine_line_type("msgid \"a\"") {
        LineType::MsgidStart(s) => assert_eq!(s, "a"),
        _ => panic!("expected a msgid"),
    }
    match determine_line_type("msgstr \"b\"") {
        LineType::MsgstrStart(s) => assert_eq!(s, "b"),
        _ => panic!("expected a msgstr"),
    }
    match determine_line_type("\"c\"") {
        LineType::QuotedString(s) => assert_eq!(s, "c"),
        _ => panic!("expected a string"),
    }
    match determine_line_type("msgstr[0] \"x\"") {
        LineType::Unsupported(s) => assert_eq!(s, "Indexed msgstr is not supported."),
        _ => panic!("expected unsupported"),
    }
    match determine_line_type("msgid x") {
        LineType::Invalid(s) => assert_eq!(
            s,
            "Expected C-style string literal after 'msgid ', but failed to parse one: Expected double quote at start of string literal but got 'x'"
        ),
        _ => panic!("expected invalid"),
    }
}

#[test]
fn message_at_line() {
    let content = b"# header\n\nmsgid \"Hello\"\nmsgstr \"Hallo\"\n\nmsgid \"World\"\nmsgstr \"Welt\"\n";
    assert_eq!(get_message_at_line_index(2, content), Ok(("Hello".to_string(), "Hallo".to_string())));
    assert_eq!(get_message_at_line_index(3, content), Ok(("Hello".to_string(), "Hallo".to_string())));
    assert_eq!(get_message_at_line_index(5, content), Ok(("World".to_string(), "Welt".to_string())));
    assert_eq!(
        get_message_at_line_index(99, content),
        Err("Specified index exceeds the number of lines in the file".to_string())
    );
}

#[test]
fn message_at_line_with_continued_strings() {
    let content = b"msgid \"\"\n\"Hel\"\n\"lo\"\nmsgstr \"\"\n\"Hal\"\n\"lo\"\n";
    assert_eq!(get_message_at_line_index(0, content), Ok(("Hello".to_string(), "Hallo".to_string())));
    assert_eq!(get_message_at_line_index(4, content), Ok(("Hello".to_string(), "Hallo".to_string())));
}

#[test]
fn message_at_line_without_entry() {
    assert_eq!(get_message_at_line_index(0, b"# only a comment\n"), Err("Did not find any entry.".to_string()));
}

#[test]
fn message_at_any_line_is_an_entry_of_the_file() {
    let content = b"# header\nmsgid \"a\"\nmsgstr \"\"\n\"x\"\n\nmsgid \"b\"\nmsgstr \"y\"\n";
    let entries = parse_po_file(content).unwrap();
    for index in 0..7 {
        if let Ok(pair) = get_message_at_line_index(index, content) {
            assert!(entries.contains(&pair), "line {index}: {pair:?}");
        }
    }
    assert_eq!(get_message_at_line_index(3, content), Ok(("a".to_string(), "x".to_string())));
}

#[test]
fn msgid_line_gives_its_entry_when_the_next_msgid_follows_directly() {
    let content = b"msgid \"a\"\nmsgstr \"b\"\nmsgid \"c\"\nmsgstr \"d\"\n";
    assert_eq!(parse_po_file(content), Ok(pairs(&[("a", "b"), ("c", "d")])));
    assert_eq!(get_message_at_line_index(0, content), Ok(("a".to_string(), "b".to_string())));
    assert_eq!(get_message_at_line_index(1, content), Ok(("a".to_string(), "b".to_string())));
    assert_eq!(get_message_at_line_index(2, content), Ok(("c".to_string(), "d".to_string())));
    assert_eq!(get_message_at_line_index(3, content), Ok(("c".to_string(), "d".to_string())));
}

#[test]
fn crlf_line_ends_and_blank_lines_change_nothing() {
    let lf = b"msgid \"a\"\nmsgstr \"b\"\nmsgid \"c\"\nmsgstr \"d\"\n";
    let crlf = b"msgid \"a\"\r\nmsgstr \"b\"\r\nmsgid \"c\"\r\nmsgstr \"d\"\r\n";
    let blank = b"msgid \"a\"\nmsgstr \"b\"\n\nmsgid \"c\"\nmsgstr \"d\"\n";
    assert_eq!(parse_po_file(crlf), parse_po_file(lf));
    assert_eq!(parse_po_file(blank), parse_po_file(lf));
}

#[test]
fn refusals_name_their_line() {
    for (content, line) in [
        (&b"msgid \"a\"\nmsgstr \"b\"\nmsgstr \"c\"\n"[..], 3),
        (&b"# c\n\nmsgctxt \"x\"\n"[..], 3),
        (&b"msgid \"a\"\n# c\n"[..], 2),
        (&b"\n\n\n\nbad\n"[..], 5),
    ] {
        let e = parse_po_file(content).unwrap_err();
        assert!(e.contains(&format!("line {line}")), "{e}");
    }
}

#[test]
fn escaped_text_reads_back() {
    let text = "say \"hi\" \\ bye";
    let literal = format!("\"{}\"", text.replace('\\', "\\\\").replace('"', "\\\""));
    assert_eq!(parse_c_string_literal(&literal), Ok(text.to_string()));
}
