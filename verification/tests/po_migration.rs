use fluent_ftl_tools::migrate::{build_lang_to_fluent_entry_map, build_lang_to_msgstr_map, build_updated_fluent_resources};
use fluent_ftl_tools::resource::serialize_resource;

fn po(path: &str, content: &str, lang: &str) -> (String, Result<Vec<u8>, String>, Option<String>) {
    (path.to_string(), Ok(content.as_bytes().to_vec()), Some(lang.to_string()))
}

#[test]
fn translations_by_language() {
    let files = vec![
        po("\"po/de.po\"", "msgid \"Hello\"\nmsgstr \"Hallo\"\n", "de"),
        po("\"po/fr.po\"", "msgid \"Hello\"\nmsgstr \"\"\n", "fr"),
        po("\"po/en.po\"", "msgid \"Other\"\nmsgstr \"x\"\n", "en"),
    ];
    let map = build_lang_to_msgstr_map("Hello", &files, "\"src/en.po\"", Some("en".to_string())).unwrap();
    assert_eq!(
        map,
        vec![
            ("de".to_string(), Some("Hallo".to_string())),
            ("fr".to_string(), None),
            ("en".to_string(), Some("Hello".to_string())),
        ]
    );
}

#[test]
fn source_language_keeps_its_translation_and_is_added_when_missing() {
    let files = vec![po("\"po/en.po\"", "msgid \"Hello\"\nmsgstr \"Hi\"\n", "en")];
    let map = build_lang_to_msgstr_map("Hello", &files, "\"en.po\"", Some("en".to_string())).unwrap();
    assert_eq!(map, vec![("en".to_string(), Some("Hi".to_string()))]);
    let map = build_lang_to_msgstr_map("Hello", &vec![], "\"x.po\"", Some("x".to_string())).unwrap();
    assert_eq!(map, vec![("x".to_string(), Some("Hello".to_string()))]);
}

#[test]
fn msgstr_errors() {
    let files = vec![("\"po/de.po\"".to_string(), Err("denied".to_string()), Some("de".to_string()))];
    assert_eq!(
        build_lang_to_msgstr_map("Hello", &files, "\"en.po\"", Some("en".to_string())),
        Err("Failed to read file \"po/de.po\":\ndenied".to_string())
    );
    let files = vec![po("\"po/de.po\"", "msgstr \"x\"\n", "de")];
    assert_eq!(
        build_lang_to_msgstr_map("Hello", &files, "\"en.po\"", Some("en".to_string())),
        Err("Failed to parse PO file \"po/de.po\":\nline 1: msgstr \"x\" without preceding msgid.".to_string())
    );
    let files = vec![("\"po/?.po\"".to_string(), Ok(b"".to_vec()), None)];
    assert_eq!(
        build_lang_to_msgstr_map("Hello", &files, "\"en.po\"", Some("en".to_string())),
        Err("File name \"po/?.po\" must valid UTF-8.".to_string())
    );
    assert_eq!(
        build_lang_to_msgstr_map("Hello", &vec![], "\"?.po\"", None),
        Err("File name \"?.po\" must valid UTF-8.".to_string())
    );
}

#[test]
fn entries_and_updated_files() {
    let map = vec![
        ("de".to_string(), Some("Hallo %s".to_string())),
        ("fr".to_string(), None),
        ("it".to_string(), Some("Ciao %s".to_string())),
    ];
    let vars = vec!["name".to_string()];
    let entries = build_lang_to_fluent_entry_map(&map, "hello", &vars).unwrap();
    assert_eq!(entries.len(), 3);
    assert_eq!(entries[0].0, "de");
    assert!(entries[1].1.is_none());
    let mut items = vec![];
    let mut existing = vec![
        Ok(Some("zzz = Z\n".to_string())),
        Ok(None),
        Ok(None),
    ];
    for (lang, entry) in entries {
        items.push((format!("\"ftl/{lang}.ftl\""), entry, existing.remove(0)));
    }
    let resources = build_updated_fluent_resources(items).unwrap();
    assert_eq!(resources[0].0, "\"ftl/de.ftl\"");
    assert_eq!(serialize_resource(resources[0].1.as_ref().unwrap()), "hello = Hallo { $name }\nzzz = Z\n");
    assert!(resources[1].1.is_none());
    assert_eq!(serialize_resource(resources[2].1.as_ref().unwrap()), "hello = Ciao { $name }\n");
}

#[test]
fn conversion_and_update_errors() {
    let map = vec![("de".to_string(), Some("%q".to_string()))];
    assert_eq!(
        build_lang_to_fluent_entry_map(&map, "m", &vec![]).err(),
        Some("Failed to convert PO string \"%q\":\nUnsupported conversion specifier. Please convert manually.".to_string())
    );
    let map = vec![("de".to_string(), Some("Hallo".to_string()))];
    let entries = build_lang_to_fluent_entry_map(&map, "m", &vec![]).unwrap();
    let entry = entries.into_iter().next().unwrap().1;
    let items = vec![("\"de.ftl\"".to_string(), entry, Ok(Some("m = old\n".to_string())))];
    assert_eq!(
        build_updated_fluent_resources(items).err(),
        Some("File \"de.ftl\" already contains the message ID 'm'.".to_string())
    );
}

#[test]
fn later_file_of_a_language_gives_its_text() {
    let files = vec![
        po("\"a/de.po\"", "msgid \"Hello\"\nmsgstr \"Hallo\"\n", "de"),
        po("\"b/de.po\"", "msgid \"Hello\"\nmsgstr \"Servus\"\n", "de"),
        po("\"a/en.po\"", "msgid \"Hello\"\nmsgstr \"\"\n", "en"),
    ];
    let map = build_lang_to_msgstr_map("Hello", &files, "\"en.po\"", Some("en".to_string())).unwrap();
    assert_eq!(
        map,
        vec![("de".to_string(), Some("Servus".to_string())), ("en".to_string(), Some("Hello".to_string()))]
    );
}
