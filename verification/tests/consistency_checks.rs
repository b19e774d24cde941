use fluent_ftl_tools::consistency::{
    check_all_resource_files, check_all_resource_files_checked, check_all_resources, check_all_resources_checked,
    check_for_extra_ids, extract_messages, make_bundle, parse_as_fluent_resource,
};

fn strings(v: &[&str]) -> Vec<String> {
    v.iter().map(|s| s.to_string()).collect()
}

fn errors_in(path: &str, e: &str) -> String {
    format!("Errors in {:?}:\n{e}", format!("{:?}", std::path::Path::new(path)))
}

#[test]
fn consistent_files_pass() {
    let others = vec![("de.ftl".to_string(), Ok("a = A\n".to_string()))];
    assert_eq!(check_all_resource_files("en.ftl", Ok("a = A\nb = B\n".to_string()), &others), Ok(()));
}

#[test]
fn duplicate_ids_are_reported() {
    let e = check_all_resource_files("en.ftl", Ok("a = A\n-a = T\na = B\n".to_string()), &vec![]);
    assert_eq!(
        e,
        Err(errors_in(
            "en.ftl",
            "Attempt to override an existing term: \"a\".\nAttempt to override an existing message: \"a\".\n"
        ))
    );
}

#[test]
fn unformatted_file_is_reported() {
    let e = check_all_resource_files("en.ftl", Ok("b = B\na = A\n".to_string()), &vec![]);
    assert_eq!(e, Err(errors_in("en.ftl", "File does not conform to expected formatting.\n")));
}

#[test]
fn extra_ids_are_reported() {
    let others = vec![
        ("de.ftl".to_string(), Ok("a = A\n".to_string())),
        ("fr.ftl".to_string(), Ok("a = A\nx = X\ny = Y\n".to_string())),
    ];
    assert_eq!(
        check_all_resource_files("en.ftl", Ok("a = A\n".to_string()), &others),
        Err(errors_in("fr.ftl", "Unexpected message identifiers found:\nx\ny\n"))
    );
}

#[test]
fn read_and_parse_errors_come_first() {
    let others = vec![("de.ftl".to_string(), Err("Failed to read from \"de.ftl\":\ngone".to_string()))];
    assert_eq!(
        check_all_resource_files("en.ftl", Ok("b = B\na = A\n".to_string()), &others),
        Err("Failed to read from \"de.ftl\":\ngone".to_string())
    );
    let e = check_all_resource_files("en.ftl", Ok("a\n".to_string()), &vec![]).unwrap_err();
    assert!(e.starts_with("Parser errors:\n"), "{e}");
}

#[test]
fn unreportable_errors_are_caught() {
    assert_eq!(check_all_resource_files_checked("en.ftl", Ok("a\r\n".to_string()), &vec![]), None);
    assert_eq!(
        check_all_resource_files_checked("en.ftl", Ok("a = A\n".to_string()), &vec![]),
        Some(Ok(()))
    );
}

#[test]
fn bundles_and_messages() {
    let r = parse_as_fluent_resource("-t = T\nb = B\na = A\nb = C\n".to_string()).unwrap();
    assert_eq!(make_bundle(&r), Err("Attempt to override an existing message: \"b\".\n".to_string()));
    assert_eq!(extract_messages(&r), strings(&["b", "a"]));
    let r = parse_as_fluent_resource("a = A\n".to_string()).unwrap();
    assert_eq!(make_bundle(&r), Ok(()));
}

#[test]
fn extra_ids() {
    assert_eq!(check_for_extra_ids(&strings(&["a", "b"]), &strings(&["b", "a"])), Ok(()));
    assert_eq!(
        check_for_extra_ids(&strings(&["a"]), &strings(&["c", "a", "b"])),
        Err("Unexpected message identifiers found:\nc\nb\n".to_string())
    );
}

#[test]
fn file_names_are_shown_as_paths() {
    let e = check_all_resource_files("it's.ftl", Ok("b = B\na = A\n".to_string()), &vec![]);
    assert_eq!(e, Err(errors_in("it's.ftl", "File does not conform to expected formatting.\n")));
    assert_eq!(
        e,
        Err("Errors in \"\\\"it's.ftl\\\"\":\nFile does not conform to expected formatting.\n".to_string())
    );
}

#[test]
fn resources_are_checked_in_memory() {
    let default = parse_as_fluent_resource("a = A\nb = B\n".to_string()).unwrap();
    let others = vec![("de".to_string(), parse_as_fluent_resource("a = A\n".to_string()).unwrap())];
    assert_eq!(check_all_resources(("en", &default), &others), Ok(()));
    assert_eq!(check_all_resources_checked(("en", &default), &others), Some(Ok(())));
    let others = vec![("fr".to_string(), parse_as_fluent_resource("a = A\nc = C\n".to_string()).unwrap())];
    assert_eq!(
        check_all_resources_checked(("en", &default), &others),
        Some(Err("Errors in \"fr\":\nUnexpected message identifiers found:\nc\n".to_string()))
    );
}
