use fluent_ftl_tools::missing::{find_missing_message_ids, find_missing_message_ids_in_files, find_missing_message_ids_in_files_checked, sort_texts};

fn strings(v: &[&str]) -> Vec<String> {
    v.iter().map(|s| s.to_string()).collect()
}

#[test]
fn missing_ids_are_sorted() {
    let expected = strings(&["c", "a", "b", "d"]);
    assert_eq!(find_missing_message_ids(&expected, "b = B\n-c = C\n"), Ok(strings(&["a", "c", "d"])));
    assert_eq!(find_missing_message_ids(&expected, "a = A\nb = B\nc = C\nd = D\n"), Ok(vec![]));
}

#[test]
fn sorting_texts() {
    assert_eq!(sort_texts(strings(&["b", "a", "ab", "", "B"])), strings(&["", "B", "a", "ab", "b"]));
}

#[test]
fn report_per_file() {
    let files = vec![
        ("\"de.ftl\"".to_string(), Ok("a = A\n".to_string())),
        ("\"fr.ftl\"".to_string(), Ok("a = A\nb = B\n".to_string())),
        ("\"it.ftl\"".to_string(), Ok("".to_string())),
    ];
    assert_eq!(
        find_missing_message_ids_in_files(Ok("b = B\na = A\n".to_string()), &files),
        Ok(Some("Message IDs missing in \"de.ftl\":\nb\n\nMessage IDs missing in \"it.ftl\":\na\nb\n\n".to_string()))
    );
}

#[test]
fn nothing_missing() {
    let files = vec![("\"de.ftl\"".to_string(), Ok("a = A\n".to_string()))];
    assert_eq!(find_missing_message_ids_in_files(Ok("a = A\n".to_string()), &files), Ok(None));
}

#[test]
fn first_error_is_reported() {
    let files = vec![
        ("\"de.ftl\"".to_string(), Err("cannot read de".to_string())),
        ("\"fr.ftl\"".to_string(), Err("cannot read fr".to_string())),
    ];
    assert_eq!(
        find_missing_message_ids_in_files(Ok("a = A\n".to_string()), &files),
        Err("cannot read de".to_string())
    );
    assert_eq!(
        find_missing_message_ids_in_files(Err("cannot read en".to_string()), &files),
        Err("cannot read en".to_string())
    );
}

#[test]
fn unreportable_parser_errors_are_caught() {
    let files = vec![("\"de.ftl\"".to_string(), Ok("x\r\n".to_string()))];
    assert_eq!(find_missing_message_ids_in_files_checked(Ok("a = A\n".to_string()), &files), None);
    let files = vec![
        ("\"de.ftl\"".to_string(), Err("cannot read".to_string())),
        ("\"fr.ftl\"".to_string(), Ok("x\r\n".to_string())),
    ];
    assert_eq!(
        find_missing_message_ids_in_files_checked(Ok("a = A\n".to_string()), &files),
        Some(Err("cannot read".to_string()))
    );
}

#[test]
fn an_unreadable_file_fails_the_whole_check() {
    let files = vec![
        ("\"de.ftl\"".to_string(), Ok("".to_string())),
        ("\"fr.ftl\"".to_string(), Err("cannot read fr".to_string())),
    ];
    assert_eq!(
        find_missing_message_ids_in_files(Ok("a = A\n".to_string()), &files),
        Err("cannot read fr".to_string())
    );
    let files = vec![("\"de.ftl\"".to_string(), Ok("b = B\na = A\n-t = T\n".to_string()))];
    assert_eq!(find_missing_message_ids_in_files(Ok("a = A\nb = B\n".to_string()), &files), Ok(None));
}
