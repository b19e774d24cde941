use fluent_ftl_tools::format::format_text;
use fluent_ftl_tools::rename::{parse_args, rename_in_all_files, rename_in_all_files_checked, rename_in_file};
use fluent_ftl_tools::resource::serialize_resource;

fn strings(v: &[&str]) -> Vec<String> {
    v.iter().map(|s| s.to_string()).collect()
}

fn updates(v: &[(&str, &str)]) -> Vec<(String, String)> {
    v.iter().map(|(a, b)| (a.to_string(), b.to_string())).collect()
}

#[test]
fn renames_id_and_variables() {
    let (res, warning) = rename_in_file(
        "greet = Hello { $name }, you have { $count } mails\nother = { $name }\n",
        "\"en.ftl\"",
        "greet",
        &Some("welcome".to_string()),
        &updates(&[("name", "user")]),
    )
    .unwrap();
    assert_eq!(warning, None);
    assert_eq!(
        serialize_resource(&res),
        "welcome = Hello { $user }, you have { $count } mails\nother = { $name }\n"
    );
}

#[test]
fn renames_inside_select_on_the_variable() {
    let input = "m =\n    { $n ->\n        [one] one { $n }\n       *[other] many { $n }\n    }\n";
    let (res, _) = rename_in_file(input, "\"en.ftl\"", "m", &None, &updates(&[("n", "k")])).unwrap();
    let out = serialize_resource(&res);
    assert!(out.contains("$k ->"), "{out}");
    assert!(out.contains("one { $k }"), "{out}");
    assert!(out.contains("many { $k }"), "{out}");
    assert!(!out.contains("$n"), "{out}");
}

#[test]
fn missing_id_gives_a_warning() {
    let (res, warning) = rename_in_file("a = A\n", "\"en.ftl\"", "b", &Some("c".to_string()), &vec![]).unwrap();
    assert_eq!(warning, Some("file \"en.ftl\": ID 'b' does not exist. No renaming performed.".to_string()));
    assert_eq!(serialize_resource(&res), "a = A\n");
}

#[test]
fn taken_id_is_refused() {
    assert_eq!(
        rename_in_file("a = A\nb = B\n", "\"en.ftl\"", "a", &Some("b".to_string()), &vec![]).err(),
        Some("file \"en.ftl\": ID 'b' already exists.".to_string())
    );
}

#[test]
fn variable_errors() {
    assert_eq!(
        rename_in_file("a = { $x }\n", "\"en.ftl\"", "a", &None, &updates(&[("y", "z")])).err(),
        Some("file \"en.ftl\": message 'a': Variable 'y' does not exist in message.".to_string())
    );
    assert_eq!(
        rename_in_file("a = { $x } { $z }\n", "\"en.ftl\"", "a", &None, &updates(&[("x", "z")])).err(),
        Some("file \"en.ftl\": message 'a': Variable 'z' already exists in message.".to_string())
    );
}

#[test]
fn all_files_are_renamed_and_formatted() {
    let files = vec![
        ("\"en.ftl\"".to_string(), Ok("z = Z\nold = { $v }\n".to_string())),
        ("\"de.ftl\"".to_string(), Ok("z = Z\n".to_string())),
    ];
    let (warnings, res) = rename_in_all_files(&files, "old", &Some("new".to_string()), &updates(&[("v", "w")]));
    assert_eq!(warnings, strings(&["file \"de.ftl\": ID 'old' does not exist. No renaming performed."]));
    let res = res.unwrap();
    assert_eq!(res.len(), 2);
    assert_eq!(serialize_resource(&res[0]), "new = { $w }\nz = Z\n");
    assert_eq!(serialize_resource(&res[1]), "z = Z\n");
    assert_eq!(format_text("new = { $w }\nz = Z\n"), Ok("new = { $w }\nz = Z\n".to_string()));
}

#[test]
fn first_failing_file_stops_renaming() {
    let files = vec![
        ("\"de.ftl\"".to_string(), Ok("x = X\n".to_string())),
        ("\"en.ftl\"".to_string(), Err("Failed to read from \"en.ftl\":\nnot found".to_string())),
        ("\"fr.ftl\"".to_string(), Err("Failed to read from \"fr.ftl\":\nnot found".to_string())),
    ];
    let (warnings, res) = rename_in_all_files(&files, "a", &None, &vec![]);
    assert_eq!(warnings, strings(&["file \"de.ftl\": ID 'a' does not exist. No renaming performed."]));
    assert_eq!(res.err(), Some("Failed to read from \"en.ftl\":\nnot found".to_string()));
}

#[test]
fn layout_errors_stop_renaming() {
    let files = vec![("\"de.ftl\"".to_string(), Ok("# c\n\nx = X\n".to_string()))];
    let (warnings, res) = rename_in_all_files(&files, "a", &None, &vec![]);
    assert_eq!(warnings.len(), 1);
    assert!(res.err().unwrap().starts_with("Found standalone comment."));
}

#[test]
fn unreportable_files_are_caught() {
    let files = vec![("\"de.ftl\"".to_string(), Ok("x\r\n".to_string()))];
    assert!(rename_in_all_files_checked(&files, "a", &None, &vec![]).is_none());
}

#[test]
fn command_line() {
    let a = parse_args(strings(&["old=new", "x=y", "p=q", "x=z", "--", "a.ftl", "dir"])).unwrap();
    assert_eq!(a.old_id, "old");
    assert_eq!(a.new_id, Some("new".to_string()));
    assert_eq!(a.variable_update, updates(&[("x", "z"), ("p", "q")]));
    assert_eq!(a.files, strings(&["a.ftl", "dir"]));

    let a = parse_args(strings(&["only", "a=b=c"])).unwrap();
    assert_eq!(a.old_id, "only");
    assert_eq!(a.new_id, None);
    assert_eq!(a.variable_update, updates(&[("a", "b=c")]));
    assert!(a.files.is_empty());

    assert_eq!(parse_args(vec![]).err(), Some("No argument specified.".to_string()));
    assert_eq!(parse_args(strings(&["id", "x"])).err(), Some("Invalid arguments.".to_string()));
}

#[test]
fn renaming_nothing_changes_nothing() {
    let input = "a = { $x ->\n        [one] one\n       *[other] { $x }\n    }\nb = B\n";
    let (res, warning) = rename_in_file(input, "\"en.ftl\"", "a", &None, &vec![]).unwrap();
    assert_eq!(warning, None);
    let (again, _) = rename_in_file(input, "\"en.ftl\"", "b", &None, &vec![]).unwrap();
    assert_eq!(serialize_resource(&res), serialize_resource(&again));
}

#[test]
fn other_ids_are_kept() {
    let (res, _) = rename_in_file("a = A\nb = B\nc = C\n", "\"en.ftl\"", "b", &Some("d".to_string()), &vec![]).unwrap();
    assert_eq!(serialize_resource(&res), "a = A\nd = B\nc = C\n");
}
