use fluent_ftl_tools::format::{format_path, format_path_checked, format_text, format_text_checked, FormattingMode};
use fluent_ftl_tools::resource::{is_formatted, parse_is_reportable};

const STANDALONE: &str = "Found standalone comment.\nComments must either be resource-level comments (###) at the beginning of the file or attached to messages or terms by putting them directly above them.\nAffected comment:\n";

#[test]
fn terms_come_first_and_ids_are_sorted() {
    let input = "b = B\n-t = T\na = A\n-s = S\n";
    assert_eq!(format_text(input), Ok("-s = S\n-t = T\na = A\nb = B\n".to_string()));
}

#[test]
fn header_comments_stay_at_the_start_and_attached_comments_move_along() {
    let input = "### Header\n\n# about b\nb = B\na = { $n } files\n";
    assert_eq!(
        format_text(input),
        Ok("### Header\n\na = { $n } files\n# about b\nb = B\n".to_string())
    );
}

#[test]
fn formatting_is_idempotent() {
    let input = "z = Z\n-t = T\n# c\nm = M\n";
    let once = format_text(input).unwrap();
    assert_eq!(format_text(&once), Ok(once.clone()));
    assert_eq!(is_formatted(&once), Ok(true));
    assert_eq!(is_formatted(input), Ok(false));
}

#[test]
fn equal_ids_keep_their_order() {
    let input = "a = first\na = second\n";
    assert_eq!(format_text(input), Ok("a = first\na = second\n".to_string()));
}

#[test]
fn standalone_comment_is_refused() {
    let input = "# lonely\n\na = A\n";
    assert_eq!(format_text(input), Err(format!("{STANDALONE}# lonely\n\n")));
}

#[test]
fn group_comment_is_refused() {
    let input = "## group\n\na = A\n";
    assert_eq!(format_text(input), Err(format!("{STANDALONE}## group\n\n")));
}

#[test]
fn late_resource_comment_is_refused() {
    let input = "a = A\n\n### late\n";
    assert_eq!(
        format_text(input),
        Err("Found resource comment after the initial section. Relevant comment:\n### late\n\n".to_string())
    );
}

#[test]
fn parser_errors_are_reported() {
    let input = "a = A\nb\n";
    let e = format_text(input).unwrap_err();
    assert!(e.starts_with("Parser errors:\n\n2:b\nReason: "), "{e}");
    assert!(e.ends_with("\n\n"), "{e}");
}

#[test]
fn parser_errors_with_carriage_returns_cannot_be_reported() {
    assert!(parse_is_reportable("a = A\n"));
    assert!(!parse_is_reportable("a = A\r\nb\r\n"));
    assert_eq!(format_text_checked("a = A\r\nb\r\n"), None);
    assert_eq!(format_text_checked("b = B\na = A\n"), Some(Ok("a = A\nb = B\n".to_string())));
}

#[test]
fn format_paths() {
    assert_eq!(format_path("a = A\n", "\"x.ftl\"", FormattingMode::Check), Ok(None));
    assert_eq!(
        format_path("b = B\na = A\n", "\"x.ftl\"", FormattingMode::Check),
        Err("Content of \"x.ftl\" is not formatted correctly.".to_string())
    );
    assert_eq!(
        format_path("b = B\na = A\n", "\"x.ftl\"", FormattingMode::Rewrite),
        Ok(Some("a = A\nb = B\n".to_string()))
    );
    assert_eq!(
        format_path("# c\n\na = A\n", "\"x.ftl\"", FormattingMode::Rewrite),
        Err(format!("File \"x.ftl\" does not conform to the expected subset of FTL syntax:\n{STANDALONE}# c\n\n"))
    );
    let e = format_path("b\n", "\"x.ftl\"", FormattingMode::Rewrite).unwrap_err();
    assert!(e.starts_with("Failed to parse \"x.ftl\":\nParser errors:\n"), "{e}");
    assert_eq!(format_path_checked("b\r\n", "\"x.ftl\"", FormattingMode::Check), None);
}

#[test]
fn check_and_rewrite_agree() {
    for content in ["a = A\nb = B\n", "b = B\na = A\n", "# c\n\na = A\n"] {
        let check = format_path(content, "\"x.ftl\"", FormattingMode::Check);
        let rewrite = format_path(content, "\"x.ftl\"", FormattingMode::Rewrite);
        assert_eq!(check == Ok(None), rewrite == Ok(Some(content.to_string())));
    }
}
