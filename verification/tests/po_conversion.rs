use fluent_ftl_tools::po_convert::{convert_conversion_specifier, fluent_message_from_po_string, rust_source_suggestion};

fn vars(v: &[&str]) -> Vec<String> {
    v.iter().map(|s| s.to_string()).collect()
}

#[test]
fn plain_text_becomes_a_message() {
    assert_eq!(fluent_message_from_po_string("Hello", "hello", &vars(&[])), Ok("hello = Hello".to_string()));
}

#[test]
fn conversions_take_variables_in_order() {
    assert_eq!(
        fluent_message_from_po_string("%s has %d files (%c, %u)", "msg", &vars(&["name", "count", "c", "u"])),
        Ok("msg = { $name } has { $count } files ({ $c }, { $u })".to_string())
    );
}

#[test]
fn percent_braces_and_newlines_are_escaped() {
    assert_eq!(
        fluent_message_from_po_string("100%% {x}\nnext", "m", &vars(&[])),
        Ok("m = 100% {\"{\"}x{\"}\"}{ \"\\u000A\" }next".to_string())
    );
}

#[test]
fn conversion_errors() {
    assert_eq!(
        fluent_message_from_po_string("50%", "m", &vars(&[])),
        Err("Ran out of characters in conversion specifier.".to_string())
    );
    assert_eq!(
        fluent_message_from_po_string("%s", "m", &vars(&[])),
        Err("Insufficient number of variables provided.".to_string())
    );
    assert_eq!(
        fluent_message_from_po_string("%x", "m", &vars(&["a"])),
        Err("Unsupported conversion specifier. Please convert manually.".to_string())
    );
    assert_eq!(
        fluent_message_from_po_string("%s", "m", &vars(&["a", "b", "c"])),
        Err("Excess arguments. There are 1 conversion specifiers in\n%s\nbut 3 variable names were provided.".to_string())
    );
}

#[test]
fn rust_suggestion() {
    assert_eq!(rust_source_suggestion("hello", &vars(&[])), "localized_println!(\"hello\");");
    assert_eq!(
        rust_source_suggestion("files", &vars(&["name", "count"])),
        "localized_println!(\"files\", name = todo!(), count = todo!());"
    );
}

#[test]
fn one_conversion_specifier_at_a_time() {
    let chars: Vec<char> = "%s%%%q".chars().collect();
    let names = vars(&["name"]);
    let mut index = 0;
    let mut used = 0;
    let mut out = String::from("x");
    assert_eq!(convert_conversion_specifier(&chars, &mut index, &names, &mut used, &mut out), Ok(()));
    assert_eq!((index, used, out.as_str()), (1, 1, "x{ $name }"));
    let mut index = 2;
    assert_eq!(convert_conversion_specifier(&chars, &mut index, &names, &mut used, &mut out), Ok(()));
    assert_eq!((index, used, out.as_str()), (3, 1, "x{ $name }%"));
    let mut index = 4;
    assert!(convert_conversion_specifier(&chars, &mut index, &names, &mut used, &mut out).is_err());
    assert_eq!((index, used, out.as_str()), (5, 1, "x{ $name }%"));
}
