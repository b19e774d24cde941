use fluent_ftl_tools::{
    parse_file_args_with_required_file, parse_fluent_identifier, parse_fluent_identifiers, parse_next_arg,
    parse_single_file_arg, parse_until_double_minus, parse_usize,
};

fn strings(v: &[&str]) -> Vec<String> {
    v.iter().map(|s| s.to_string()).collect()
}

#[test]
fn identifiers_are_accepted() {
    assert_eq!(parse_fluent_identifier("a"), Ok(()));
    assert_eq!(parse_fluent_identifier("Hello-world_2"), Ok(()));
}

#[test]
fn identifier_errors() {
    assert_eq!(parse_fluent_identifier(""), Err("Identifier may not be empty.".to_string()));
    assert_eq!(
        parse_fluent_identifier("1abc"),
        Err("Identifier must start with an alphabetic ASCII character but starts with '1'.".to_string())
    );
    assert_eq!(
        parse_fluent_identifier("ab.c"),
        Err("Identifier characters must be alphanumeric ASCII or '_' or '-'. Found '.' instead.".to_string())
    );
    assert_eq!(
        parse_fluent_identifier("äb"),
        Err("Identifier must start with an alphabetic ASCII character but starts with 'ä'.".to_string())
    );
}

#[test]
fn identifier_lists() {
    assert_eq!(parse_fluent_identifiers(strings(&["a", "b-c"])), Ok(strings(&["a", "b-c"])));
    assert_eq!(parse_fluent_identifiers(vec![]), Ok(vec![]));
    assert_eq!(
        parse_fluent_identifiers(strings(&["a", "-b", "c d"])),
        Err("Failed to parse Fluent identifier:\nIdentifier must start with an alphabetic ASCII character but starts with '-'.".to_string())
    );
}

#[test]
fn arguments_up_to_double_minus() {
    let r = parse_until_double_minus(strings(&["a", "bb", "--", "x", "--"]), |s: String| s.len());
    assert_eq!(r, Some((vec![1, 2], strings(&["x", "--"]))));
    let r = parse_until_double_minus(strings(&["a", "b"]), |s: String| s.len());
    assert_eq!(r, None);
    let r = parse_until_double_minus(strings(&["--"]), |s: String| s.len());
    assert_eq!(r, Some((vec![], vec![])));
}

#[test]
fn next_argument() {
    assert_eq!(parse_next_arg(strings(&["a", "b"]), |s: String| s + "!"), Some(("a!".to_string(), strings(&["b"]))));
    assert_eq!(parse_next_arg(vec![], |s: String| s), None);
    assert_eq!(parse_single_file_arg(strings(&["x.po", "3"])), Some(("x.po".to_string(), strings(&["3"]))));
    assert_eq!(parse_single_file_arg(vec![]), None);
}

#[test]
fn numbers() {
    let (n, rest) = parse_usize(strings(&["42", "x"])).unwrap();
    assert_eq!(n, Ok(42));
    assert_eq!(rest, strings(&["x"]));
    let (n, _) = parse_usize(strings(&["+7"])).unwrap();
    assert_eq!(n, Ok(7));
    let (n, _) = parse_usize(strings(&["-1"])).unwrap();
    assert!(n.is_err());
    let (n, _) = parse_usize(strings(&[""])).unwrap();
    assert!(n.is_err());
    let (n, _) = parse_usize(strings(&["99999999999999999999999999"])).unwrap();
    assert!(n.is_err());
    assert!(parse_usize(vec![]).is_none());
}

#[test]
fn required_file_argument() {
    assert_eq!(
        parse_file_args_with_required_file(None, Ok(vec![])),
        Err("Too few arguments.".to_string())
    );
    assert_eq!(
        parse_file_args_with_required_file(Some(strings(&["en.ftl"])), Ok(strings(&["de.ftl"]))),
        Ok(("en.ftl".to_string(), strings(&["de.ftl"])))
    );
    assert_eq!(
        parse_file_args_with_required_file(Some(strings(&["en.ftl"])), Err("no dir".to_string())),
        Err("no dir".to_string())
    );
    assert_eq!(
        parse_file_args_with_required_file(Some(strings(&["a.ftl", "b.ftl"])), Ok(vec![])),
        Err("First argument must refer to exactly one file.\nInstead, it refers to 2:\n[\"a.ftl\", \"b.ftl\"]\n".to_string())
    );
    assert_eq!(
        parse_file_args_with_required_file(Some(vec![]), Ok(vec![])),
        Err("First argument must refer to exactly one file.\nInstead, it refers to 0:\n[]\n".to_string())
    );
}

#[test]
fn paths_in_messages_are_shown_as_paths() {
    assert_eq!(
        parse_file_args_with_required_file(Some(strings(&["it's.ftl", "b.ftl"])), Ok(vec![])),
        Err("First argument must refer to exactly one file.\nInstead, it refers to 2:\n[\"it's.ftl\", \"b.ftl\"]\n".to_string())
    );
    let paths = vec![std::path::PathBuf::from("it's.ftl"), std::path::PathBuf::from("b.ftl")];
    assert_eq!(
        parse_file_args_with_required_file(Some(strings(&["it's.ftl", "b.ftl"])), Ok(vec![])),
        Err(format!("First argument must refer to exactly one file.\nInstead, it refers to 2:\n{:?}\n", paths))
    );
}
