//! Moving one gettext message into the Fluent files: collecting its
//! translations from the PO files, turning each into a Fluent message, and
//! adding that message to the FTL file of its language.
use vstd::prelude::*;
use crate::ftl::{FtlEntry, FtlResource};
use crate::po::parse_po_file;
use crate::po_convert::fluent_message_from_po_string;
use crate::resource::{format_resource, get_message_ids, parse_str_as_syntax_resource};
use crate::text::{contains_str, push_str, str_eq};

verus! {

/// The translation of `msgid` among the `(msgid, msgstr)` pairs of a PO
/// file: nothing when it is missing or empty.
pub open spec fn msgstr_of(pairs: Seq<(Seq<char>, Seq<char>)>, msgid: Seq<char>) -> Option<Seq<char>> {
    let i = crate::po::key_position(pairs, msgid);
    if i < 0 || pairs[i].1.len() == 0 {
        None
    } else {
        Some(pairs[i].1)
    }
}

/// The position of the language in the map; its length when it is not
/// there.
pub open spec fn lang_position(m: Seq<(Seq<char>, Option<Seq<char>>)>, lang: Seq<char>, i: int) -> int
    decreases m.len() - i,
{
    if i >= m.len() {
        m.len() as int
    } else if m[i].0 == lang {
        i
    } else {
        lang_position(m, lang, i + 1)
    }
}

/// The map with `lang` mapped to `v`: its pair replaced where the language
/// is there, appended otherwise.
pub open spec fn lang_with(m: Seq<(Seq<char>, Option<Seq<char>>)>, lang: Seq<char>, v: Option<Seq<char>>) -> Seq<(Seq<char>, Option<Seq<char>>)> {
    let k = lang_position(m, lang, 0);
    if k < m.len() {
        m.update(k, (lang, v))
    } else {
        m.push((lang, v))
    }
}

/// One PO file: how its path is shown, its bytes or the error met reading
/// it, and its language (the file's stem; nothing when that is not UTF-8).
pub open spec fn po_files_view(v: Seq<(String, Result<Vec<u8>, String>, Option<String>)>) -> Seq<(Seq<char>, Result<Seq<u8>, Seq<char>>, Option<Seq<char>>)> {
    v.map_values(|f: (String, Result<Vec<u8>, String>, Option<String>)| (
        f.0@,
        match f.1 {
            Ok(b) => Ok(b@),
            Err(e) => Err(e@),
        },
        match f.2 {
            Some(l) => Some(l@),
            None => None,
        },
    ))
}

/// The language of one PO file and the translation of `msgid` in it, or
/// why the file cannot give them.
pub open spec fn po_msgstr(file: (Seq<char>, Result<Seq<u8>, Seq<char>>, Option<Seq<char>>), msgid: Seq<char>) -> Result<(Seq<char>, Option<Seq<char>>), Seq<char>> {
    match file.1 {
        Err(e) => Err("Failed to read file "@ + file.0 + ":\n"@ + e),
        Ok(bytes) => match crate::po::po_file(bytes) {
            Err(e) => Err("Failed to parse PO file "@ + file.0 + ":\n"@ + e),
            Ok(pairs) => match file.2 {
                None => Err("File name "@ + file.0 + " must valid UTF-8."@),
                Some(lang) => Ok((lang, msgstr_of(pairs, msgid))),
            },
        },
    }
}

/// The translations of `msgid` by language, one PO file after the other, a
/// later file of the same language replacing the earlier; or the first
/// error.
pub open spec fn msgstr_map(files: Seq<(Seq<char>, Result<Seq<u8>, Seq<char>>, Option<Seq<char>>)>, msgid: Seq<char>) -> Result<Seq<(Seq<char>, Option<Seq<char>>)>, Seq<char>>
    decreases files.len(),
{
    if files.len() == 0 {
        Ok(Seq::empty())
    } else {
        match msgstr_map(files.drop_last(), msgid) {
            Err(e) => Err(e),
            Ok(m) => match po_msgstr(files.last(), msgid) {
                Err(e) => Err(e),
                Ok((lang, v)) => Ok(lang_with(m, lang, v)),
            },
        }
    }
}

/// The translations of `msgid` by language, where the language of the file
/// the message comes from falls back to `msgid` itself when it has no
/// translation.
pub open spec fn lang_to_msgstr(
    files: Seq<(Seq<char>, Result<Seq<u8>, Seq<char>>, Option<Seq<char>>)>,
    msgid: Seq<char>,
    source_path: Seq<char>,
    source_language: Option<Seq<char>>,
) -> Result<Seq<(Seq<char>, Option<Seq<char>>)>, Seq<char>> {
    match msgstr_map(files, msgid) {
        Err(e) => Err(e),
        Ok(m) => match source_language {
            None => Err("File name "@ + source_path + " must valid UTF-8."@),
            Some(lang) => {
                let k = lang_position(m, lang, 0);
                if k < m.len() && m[k].1 is Some {
                    Ok(m)
                } else {
                    Ok(lang_with(m, lang, Some(msgid)))
                }
            },
        },
    }
}

/// The view of an optional text.
pub open spec fn opt_view(o: Option<String>) -> Option<Seq<char>> {
    match o {
        Some(s) => Some(s@),
        None => None,
    }
}

/// The view of a map from languages to optional texts.
pub open spec fn lang_map_view(v: Seq<(String, Option<String>)>) -> Seq<(Seq<char>, Option<Seq<char>>)> {
    v.map_values(|p: (String, Option<String>)| (p.0@, match p.1 {
        Some(s) => Some(s@),
        None => None,
    }))
}

proof fn lemma_lang_position(m: Seq<(Seq<char>, Option<Seq<char>>)>, lang: Seq<char>, i: int)
    requires
        0 <= i <= m.len(),
        forall|j: int| 0 <= j < i ==> (#[trigger] m[j]).0 != lang,
    ensures
        lang_position(m, lang, 0) == lang_position(m, lang, i),
    decreases i,
{
    if i > 0 {
        lemma_lang_position(m, lang, i - 1);
    }
}

/// Where the language is in the map; its length when it is not there.
fn find_lang(map: &Vec<(String, Option<String>)>, lang: &str) -> (k: usize)
    ensures
        k == lang_position(lang_map_view(map@), lang@, 0),
        k <= map@.len(),
{
    let ghost mv = lang_map_view(map@);
    let mut i: usize = 0;
    while i < map.len()
        invariant
            i <= map@.len(),
            mv == lang_map_view(map@),
            forall|j: int| 0 <= j < i ==> (#[trigger] mv[j]).0 != lang@,
        decreases map@.len() - i,
    {
        assert(mv[i as int].0 == map@[i as int].0@);
        if str_eq(map[i].0.as_str(), lang) {
            proof {
                lemma_lang_position(mv, lang@, i as int);
            }
            return i;
        }
        i = i + 1;
    }
    proof {
        lemma_lang_position(mv, lang@, i as int);
    }
    i
}

/// Maps `lang` to `v` in the map.
fn insert_lang(map: &mut Vec<(String, Option<String>)>, lang: String, v: Option<String>)
    ensures
        lang_map_view(final(map)@) == lang_with(lang_map_view(old(map)@), lang@, opt_view(v)),
{
    let ghost mv = lang_map_view(map@);
    let ghost vv = opt_view(v);
    let k = find_lang(map, lang.as_str());
    if k < map.len() {
        map[k] = (lang, v);
        assert(lang_map_view(map@) =~= mv.update(k as int, (lang@, vv)));
    } else {
        map.push((lang, v));
        assert(lang_map_view(map@) =~= mv.push((lang@, vv)));
    }
}

/// The translation of `msgid` in a parsed PO file.
fn find_msgstr(pairs: &Vec<(String, String)>, msgid: &str) -> (r: Option<String>)
    ensures
        match r {
            Some(s) => msgstr_of(crate::po::pairs_view(pairs@), msgid@) == Some(s@),
            None => msgstr_of(crate::po::pairs_view(pairs@), msgid@) is None,
        },
{
    let ghost pv = crate::po::pairs_view(pairs@);
    let mut i: usize = pairs.len();
    assert(pv.take(i as int) =~= pv);
    while i > 0
        invariant
            i <= pairs@.len(),
            pv == crate::po::pairs_view(pairs@),
            crate::po::key_position(pv, msgid@) == crate::po::key_position(pv.take(i as int), msgid@),
        decreases i,
    {
        assert(pv.take(i as int).drop_last() =~= pv.take(i - 1));
        assert(pv.take(i as int).last() == pv[i - 1]);
        assert(pv[i - 1] == (pairs@[i - 1].0@, pairs@[i - 1].1@));
        if str_eq(pairs[i - 1].0.as_str(), msgid) {
            if pairs[i - 1].1.as_str().is_empty() {
                return None;
            }
            return Some(pairs[i - 1].1.clone());
        }
        i = i - 1;
    }
    None
}

/// Collects the translations of `msgid` by language from the PO files of a
/// directory; the language of the file the message comes from
/// (`source_path`, with language `source_language`, nothing when its stem
/// is not UTF-8) falls back to `msgid` itself when it has no translation.
/// Each PO file comes as how its path is shown, its bytes or the error met
/// reading it, and its language.
#[verifier::loop_isolation(false)]
pub fn build_lang_to_msgstr_map(
    msgid: &str,
    po_files: &Vec<(String, Result<Vec<u8>, String>, Option<String>)>,
    source_path: &str,
    source_language: Option<String>,
) -> (r: Result<Vec<(String, Option<String>)>, String>)
    ensures
        ({
            let outcome = lang_to_msgstr(po_files_view(po_files@), msgid@, source_path@, opt_view(source_language));
            match r {
                Ok(m) => outcome == Ok::<Seq<(Seq<char>, Option<Seq<char>>)>, Seq<char>>(lang_map_view(m@)),
                Err(e) => outcome == Err::<Seq<(Seq<char>, Option<Seq<char>>)>, Seq<char>>(e@),
            }
        }),
{
    let ghost fs = po_files_view(po_files@);
    let mut map: Vec<(String, Option<String>)> = Vec::new();
    let mut i: usize = 0;
    assert(fs.take(0) =~= Seq::<(Seq<char>, Result<Seq<u8>, Seq<char>>, Option<Seq<char>>)>::empty());
    assert(lang_map_view(map@) =~= Seq::<(Seq<char>, Option<Seq<char>>)>::empty());
    while i < po_files.len()
        invariant
            i <= po_files@.len(),
            fs == po_files_view(po_files@),
            msgstr_map(fs.take(i as int), msgid@) == Ok::<Seq<(Seq<char>, Option<Seq<char>>)>, Seq<char>>(lang_map_view(map@)),
        decreases po_files@.len() - i,
    {
        assert(fs.take(i + 1).drop_last() =~= fs.take(i as int));
        assert(fs.take(i + 1).last() == fs[i as int]);
        let (path, content, language) = &po_files[i];
        assert(fs[i as int].0 == path@);
        let bytes = match content {
            Ok(b) => b,
            Err(e) => {
                proof {
                    lemma_msgstr_error_sticks(fs, msgid@, i + 1, fs.len() as int);
                    assert(fs.take(fs.len() as int) =~= fs);
                }
                let mut m = "Failed to read file ".to_owned();
                push_str(&mut m, path.as_str());
                push_str(&mut m, ":\n");
                push_str(&mut m, e.as_str());
                return Err(m);
            },
        };
        assert(fs[i as int].1 == Ok::<Seq<u8>, Seq<char>>(bytes@));
        let pairs = match parse_po_file(bytes.as_slice()) {
            Ok(p) => p,
            Err(e) => {
                proof {
                    lemma_msgstr_error_sticks(fs, msgid@, i + 1, fs.len() as int);
                    assert(fs.take(fs.len() as int) =~= fs);
                }
                let mut m = "Failed to parse PO file ".to_owned();
                push_str(&mut m, path.as_str());
                push_str(&mut m, ":\n");
                push_str(&mut m, e.as_str());
                return Err(m);
            },
        };
        let lang = match language {
            Some(l) => l,
            None => {
                proof {
                    lemma_msgstr_error_sticks(fs, msgid@, i + 1, fs.len() as int);
                    assert(fs.take(fs.len() as int) =~= fs);
                }
                let mut m = "File name ".to_owned();
                push_str(&mut m, path.as_str());
                push_str(&mut m, " must valid UTF-8.");
                return Err(m);
            },
        };
        assert(fs[i as int].2 == Some(lang@));
        let msgstr = find_msgstr(&pairs, msgid);
        insert_lang(&mut map, lang.clone(), msgstr);
        i = i + 1;
    }
    assert(fs.take(i as int) =~= fs);
    let lang = match source_language {
        Some(l) => l,
        None => {
            let mut m = "File name ".to_owned();
            push_str(&mut m, source_path);
            push_str(&mut m, " must valid UTF-8.");
            return Err(m);
        },
    };
    let k = find_lang(&map, lang.as_str());
    let has_translation = k < map.len() && map[k].1.is_some();
    assert(has_translation == (k < map@.len() && lang_map_view(map@)[k as int].1 is Some));
    if !has_translation {
        insert_lang(&mut map, lang, Some(msgid.to_owned()));
    }
    Ok(map)
}

proof fn lemma_msgstr_error_sticks(files: Seq<(Seq<char>, Result<Seq<u8>, Seq<char>>, Option<Seq<char>>)>, msgid: Seq<char>, n: int, m: int)
    requires
        0 <= n <= m <= files.len(),
        msgstr_map(files.take(n), msgid) is Err,
    ensures
        msgstr_map(files.take(m), msgid) == msgstr_map(files.take(n), msgid),
    decreases m - n,
{
    if m > n {
        lemma_msgstr_error_sticks(files, msgid, n, m - 1);
        assert(files.take(m).drop_last() =~= files.take(m - 1));
    }
}

/// Why the translation of one language cannot become a Fluent message.
pub open spec fn entry_failure(item: (Seq<char>, Option<Seq<char>>), id: Seq<char>, vars: Seq<Seq<char>>) -> Option<Seq<char>> {
    match item.1 {
        None => None,
        Some(po) => match crate::po_convert::fluent_message_source(po, id, vars) {
            Err(e) => Some("Failed to convert PO string \""@ + po + "\":\n"@ + e),
            Ok(_) => None,
        },
    }
}

/// The position of the first language from `i` on whose translation cannot
/// become a Fluent message; the number of languages when all can.
pub open spec fn first_entry_failure(items: Seq<(Seq<char>, Option<Seq<char>>)>, id: Seq<char>, vars: Seq<Seq<char>>, i: int) -> int
    decreases items.len() - i,
{
    if i >= items.len() {
        items.len() as int
    } else if entry_failure(items[i], id, vars) is Some {
        i
    } else {
        first_entry_failure(items, id, vars, i + 1)
    }
}

/// Whether the source of a Fluent message parses without errors into at
/// least one entry.
pub open spec fn parses_to_entry(source: Seq<char>) -> bool {
    crate::syntax::ftl_parse(source) matches Ok(body) && body.len() > 0
}

/// Whether the translation of one language, if it can be converted, gives
/// a message source that parses into an entry.
pub open spec fn item_buildable(item: (Seq<char>, Option<Seq<char>>), id: Seq<char>, vars: Seq<Seq<char>>) -> bool {
    match item.1 {
        Some(po) => match crate::po_convert::fluent_message_source(po, id, vars) {
            Ok(src) => parses_to_entry(src),
            Err(_) => true,
        },
        None => true,
    }
}

/// Whether each translation that gets converted, up to the first that
/// cannot be, gives a message source that parses into an entry.
pub open spec fn entries_buildable(items: Seq<(Seq<char>, Option<Seq<char>>)>, id: Seq<char>, vars: Seq<Seq<char>>) -> bool {
    forall|i: int| 0 <= i < items.len() && i <= first_entry_failure(items, id, vars, 0)
        ==> item_buildable(#[trigger] items[i], id, vars)
}

/// The Fluent entry of one language: the first entry of its converted
/// message, nothing for a language without translation.
pub open spec fn entry_of(item: (Seq<char>, Option<Seq<char>>), id: Seq<char>, vars: Seq<Seq<char>>) -> Option<FtlEntry> {
    match item.1 {
        None => None,
        Some(po) => Some(crate::syntax::ftl_parse(crate::po_convert::fluent_message_source(po, id, vars)->Ok_0)->Ok_0[0]),
    }
}

proof fn lemma_first_entry_failure_bounds(items: Seq<(Seq<char>, Option<Seq<char>>)>, id: Seq<char>, vars: Seq<Seq<char>>, i: int)
    requires
        0 <= i <= items.len(),
    ensures
        i <= first_entry_failure(items, id, vars, i) <= items.len(),
    decreases items.len() - i,
{
    if i < items.len() {
        lemma_first_entry_failure_bounds(items, id, vars, i + 1);
    }
}

/// The conversion of `build_lang_to_fluent_entry_map`; with `check`, gives
/// nothing where a converted message would not parse into an entry.
#[verifier::loop_isolation(false)]
fn build_entries(
    lang_to_msgstr: &Vec<(String, Option<String>)>,
    fluent_message_id: &str,
    replacement_variables: &[String],
    check: bool,
) -> (r: Option<Result<Vec<(String, Option<FtlEntry>)>, String>>)
    requires
        !check ==> entries_buildable(lang_map_view(lang_to_msgstr@), fluent_message_id@, crate::po_convert::strings_view(replacement_variables@)),
    ensures
        r is None <==> !entries_buildable(lang_map_view(lang_to_msgstr@), fluent_message_id@, crate::po_convert::strings_view(replacement_variables@)),
        r matches Some(x) ==> built_entries(lang_map_view(lang_to_msgstr@), fluent_message_id@, crate::po_convert::strings_view(replacement_variables@), x),
{
    let ghost items = lang_map_view(lang_to_msgstr@);
    let ghost id = fluent_message_id@;
    let ghost vars = crate::po_convert::strings_view(replacement_variables@);
    let mut out: Vec<(String, Option<FtlEntry>)> = Vec::new();
    let mut i: usize = 0;
    while i < lang_to_msgstr.len()
        invariant
            i <= items.len(),
            items == lang_map_view(lang_to_msgstr@),
            first_entry_failure(items, id, vars, 0) == first_entry_failure(items, id, vars, i as int),
            out@.len() == i,
            forall|j: int| 0 <= j < i ==> (#[trigger] out@[j]).0@ == items[j].0 && out@[j].1 == entry_of(items[j], id, vars),
            forall|j: int| 0 <= j < i ==> entry_failure(#[trigger] items[j], id, vars) is None,
            forall|j: int| 0 <= j < i ==> item_buildable(#[trigger] items[j], id, vars),
        decreases items.len() - i,
    {
        proof {
            lemma_first_entry_failure_bounds(items, id, vars, i as int);
        }
        let (lang, po) = &lang_to_msgstr[i];
        assert(items[i as int] == (lang@, opt_view(*po)));
        let entry = match po {
            None => None,
            Some(po_string) => {
                let fluent_string = match fluent_message_from_po_string(po_string.as_str(), fluent_message_id, replacement_variables) {
                    Ok(f) => f,
                    Err(e) => {
                        let mut m = "Failed to convert PO string \"".to_owned();
                        push_str(&mut m, po_string.as_str());
                        push_str(&mut m, "\":\n");
                        push_str(&mut m, e.as_str());
                        assert(item_buildable(items[i as int], id, vars));
                        return Some(Err(m));
                    },
                };
                let parsed = crate::syntax::parse_ftl(fluent_string.as_str());
                let mut body = match parsed {
                    Ok(res) => res.body,
                    Err(_) => {
                        if check {
                            return None;
                        }
                        assert(false);
                        return None;
                    },
                };
                if body.len() == 0 {
                    if check {
                        return None;
                    }
                    assert(false);
                    return None;
                }
                Some(body.remove(0))
            },
        };
        out.push((lang.clone(), entry));
        i = i + 1;
    }
    proof {
        lemma_first_entry_failure_bounds(items, id, vars, i as int);
    }
    Some(Ok(out))
}

/// Whether `r` is what converting the translations gives: for each
/// language, in order, its Fluent entry; or the first that cannot be
/// converted.
pub open spec fn built_entries(items: Seq<(Seq<char>, Option<Seq<char>>)>, id: Seq<char>, vars: Seq<Seq<char>>, r: Result<Vec<(String, Option<FtlEntry>)>, String>) -> bool {
    let k = first_entry_failure(items, id, vars, 0);
    match r {
        Ok(v) => {
            &&& k == items.len()
            &&& v@.len() == items.len()
            &&& forall|j: int| 0 <= j < items.len() ==> (#[trigger] v@[j]).0@ == items[j].0 && v@[j].1 == entry_of(items[j], id, vars)
        },
        Err(e) => k < items.len() && entry_failure(items[k], id, vars) == Some(e@),
    }
}

/// Turns the translation of each language into the Fluent message
/// `fluent_message_id` (see `fluent_message_from_po_string`); a language
/// without translation gets no entry.
pub fn build_lang_to_fluent_entry_map(
    lang_to_msgstr: &Vec<(String, Option<String>)>,
    fluent_message_id: &str,
    replacement_variables: &[String],
) -> (r: Result<Vec<(String, Option<FtlEntry>)>, String>)
    requires
        entries_buildable(lang_map_view(lang_to_msgstr@), fluent_message_id@, crate::po_convert::strings_view(replacement_variables@)),
    ensures
        built_entries(lang_map_view(lang_to_msgstr@), fluent_message_id@, crate::po_convert::strings_view(replacement_variables@), r),
{
    match build_entries(lang_to_msgstr, fluent_message_id, replacement_variables, false) {
        Some(x) => x,
        None => Err(String::new()),
    }
}

/// `build_lang_to_fluent_entry_map` where every converted message parses
/// into an entry; nothing where one would not.
pub fn build_lang_to_fluent_entry_map_checked(
    lang_to_msgstr: &Vec<(String, Option<String>)>,
    fluent_message_id: &str,
    replacement_variables: &[String],
) -> (r: Option<Result<Vec<(String, Option<FtlEntry>)>, String>>)
    ensures
        r is None <==> !entries_buildable(lang_map_view(lang_to_msgstr@), fluent_message_id@, crate::po_convert::strings_view(replacement_variables@)),
        r matches Some(x) ==> built_entries(lang_map_view(lang_to_msgstr@), fluent_message_id@, crate::po_convert::strings_view(replacement_variables@), x),
{
    build_entries(lang_to_msgstr, fluent_message_id, replacement_variables, true)
}

/// The view of a file's content, its absence (`None`), or the error met
/// reading it.
pub open spec fn existing_view(x: Result<Option<String>, String>) -> Result<Option<Seq<char>>, Seq<char>> {
    match x {
        Ok(Some(c)) => Ok(Some(c@)),
        Ok(None) => Ok(None),
        Err(e) => Err(e@),
    }
}

/// The entries of the FTL file of a language once the new message is
/// added and the file laid out; or why that fails. A missing file becomes
/// one holding the message alone.
pub open spec fn update_outcome(path: Seq<char>, entry: FtlEntry, existing: Result<Option<Seq<char>>, Seq<char>>) -> Result<Seq<FtlEntry>, Seq<char>> {
    match existing {
        Err(e) => Err("Failed to read file "@ + path + ":\n"@ + e),
        Ok(None) => Ok(seq![entry]),
        Ok(Some(content)) => match crate::resource::parsed_entries(content) {
            Err(e) => Err("Failed to parse content of "@ + path + " as Fluent resource:\n"@ + e),
            Ok(body) => {
                let id = crate::ftl::message_id(entry)->Some_0;
                if crate::resource::has_message_id(body, id) {
                    Err("File "@ + path + " already contains the message ID '"@ + id + "'."@)
                } else {
                    match crate::resource::format_body(body.push(entry)) {
                        Err(e) => Err("Failed to format resource in "@ + path + ":\n"@ + e),
                        Ok(f) => Ok(f),
                    }
                }
            },
        },
    }
}

/// Whether adding the entry to the file can go without a failed
/// assumption: the file's parser errors can be reported, and where it
/// parses the entry is a message.
pub open spec fn update_reportable(entry: FtlEntry, existing: Result<Option<Seq<char>>, Seq<char>>) -> bool {
    match existing {
        Ok(Some(content)) => {
            &&& crate::resource::parse_reportable(content)
            &&& crate::resource::parsed_entries(content) is Ok ==> entry is Message
        },
        _ => true,
    }
}

/// Adds the new message `entry` to the FTL file of its language and lays
/// the file out. `existing` is the file's content, `None` when there is no
/// such file, or the error met reading it; `path` is how its path is shown.
pub fn update_fluent_resource(path: &str, entry: FtlEntry, existing: Result<Option<String>, String>) -> (r: Result<FtlResource, String>)
    requires
        update_reportable(entry, existing_view(existing)),
    ensures
        match r {
            Ok(res) => update_outcome(path@, entry, existing_view(existing)) == Ok::<Seq<FtlEntry>, Seq<char>>(res.body@),
            Err(e) => update_outcome(path@, entry, existing_view(existing)) == Err::<Seq<FtlEntry>, Seq<char>>(e@),
        },
{
    let ghost ev = existing_view(existing);
    let ghost the_entry = entry;
    let content = match existing {
        Err(e) => {
            let mut m = "Failed to read file ".to_owned();
            push_str(&mut m, path);
            push_str(&mut m, ":\n");
            push_str(&mut m, e.as_str());
            return Err(m);
        },
        Ok(None) => {
            let body = vec![entry];
            assert(body@ =~= seq![the_entry]);
            return Ok(FtlResource { body });
        },
        Ok(Some(c)) => c,
    };
    let resource = match parse_str_as_syntax_resource(content.as_str()) {
        Ok(r) => r,
        Err(e) => {
            let mut m = "Failed to parse content of ".to_owned();
            push_str(&mut m, path);
            push_str(&mut m, " as Fluent resource:\n");
            push_str(&mut m, e.as_str());
            return Err(m);
        },
    };
    let ghost body = resource.body@;
    let existing_message_ids = get_message_ids(&resource);
    let message_id = match &entry {
        FtlEntry::Message(m) => m.id.clone(),
        _ => {
            assert(false);
            return Err(String::new());
        },
    };
    assert(crate::ftl::message_id(entry)->Some_0 == message_id@);
    let known = contains_str(&existing_message_ids, message_id.as_str());
    proof {
        crate::resource::lemma_distinct_message_ids(body);
        if known {
            let k = choose|k: int| 0 <= k < existing_message_ids@.len() && #[trigger] existing_message_ids@[k]@ == message_id@;
            assert(crate::cli::views(existing_message_ids@)[k] == message_id@);
            assert(crate::resource::distinct_message_ids(body).contains(message_id@));
        } else if crate::resource::has_message_id(body, message_id@) {
            assert(crate::resource::distinct_message_ids(body).contains(message_id@));
            let k = choose|k: int| 0 <= k < crate::cli::views(existing_message_ids@).len() && crate::cli::views(existing_message_ids@)[k] == message_id@;
            assert(existing_message_ids@[k]@ == message_id@);
        }
    }
    if known {
        let mut m = "File ".to_owned();
        push_str(&mut m, path);
        push_str(&mut m, " already contains the message ID '");
        push_str(&mut m, message_id.as_str());
        push_str(&mut m, "'.");
        return Err(m);
    }
    let mut entries = resource.body;
    entries.push(entry);
    assert(entries@ =~= body.push(the_entry));
    match format_resource(FtlResource { body: entries }) {
        Ok(f) => Ok(f),
        Err(e) => {
            let mut m = "Failed to format resource in ".to_owned();
            push_str(&mut m, path);
            push_str(&mut m, ":\n");
            push_str(&mut m, e.as_str());
            Err(m)
        },
    }
}

/// The view of the languages' FTL files: how each path is shown, the new
/// entry (none for a language without translation), and the file.
pub open spec fn update_items_view(v: Seq<(String, Option<FtlEntry>, Result<Option<String>, String>)>) -> Seq<(Seq<char>, Option<FtlEntry>, Result<Option<Seq<char>>, Seq<char>>)> {
    v.map_values(|x: (String, Option<FtlEntry>, Result<Option<String>, String>)| (x.0@, x.1, existing_view(x.2)))
}

/// Why updating the FTL file of one language fails.
pub open spec fn update_failure(item: (Seq<char>, Option<FtlEntry>, Result<Option<Seq<char>>, Seq<char>>)) -> Option<Seq<char>> {
    match item.1 {
        None => None,
        Some(entry) => match update_outcome(item.0, entry, item.2) {
            Err(e) => Some(e),
            Ok(_) => None,
        },
    }
}

/// The position of the first file from `i` on whose update fails; the
/// number of files when none does.
pub open spec fn first_update_failure(items: Seq<(Seq<char>, Option<FtlEntry>, Result<Option<Seq<char>>, Seq<char>>)>, i: int) -> int
    decreases items.len() - i,
{
    if i >= items.len() {
        items.len() as int
    } else if update_failure(items[i]) is Some {
        i
    } else {
        first_update_failure(items, i + 1)
    }
}

/// Whether updating one file can go without a failed assumption.
pub open spec fn item_updatable(item: (Seq<char>, Option<FtlEntry>, Result<Option<Seq<char>>, Seq<char>>)) -> bool {
    match item.1 {
        Some(entry) => update_reportable(entry, item.2),
        None => true,
    }
}

/// Whether every update that is reached can go without a failed
/// assumption.
pub open spec fn updates_reportable(items: Seq<(Seq<char>, Option<FtlEntry>, Result<Option<Seq<char>>, Seq<char>>)>) -> bool {
    forall|i: int| 0 <= i < items.len() && i <= first_update_failure(items, 0) ==> item_updatable(#[trigger] items[i])
}

/// Whether `r` is what updating the files gives: for each file, in order,
/// its new entries (nothing for a language without translation); or the
/// first failure.
pub open spec fn updated_all(items: Seq<(Seq<char>, Option<FtlEntry>, Result<Option<Seq<char>>, Seq<char>>)>, r: Result<Vec<(String, Option<FtlResource>)>, String>) -> bool {
    let k = first_update_failure(items, 0);
    match r {
        Ok(v) => {
            &&& k == items.len()
            &&& v@.len() == items.len()
            &&& forall|j: int| 0 <= j < items.len() ==> (#[trigger] v@[j]).0@ == items[j].0 && match items[j].1 {
                None => v@[j].1 is None,
                Some(entry) => v@[j].1 matches Some(res) && update_outcome(items[j].0, entry, items[j].2) == Ok::<Seq<FtlEntry>, Seq<char>>(res.body@),
            }
        },
        Err(e) => k < items.len() && update_failure(items[k]) == Some(e@),
    }
}

proof fn lemma_first_update_failure_bounds(items: Seq<(Seq<char>, Option<FtlEntry>, Result<Option<Seq<char>>, Seq<char>>)>, i: int)
    requires
        0 <= i <= items.len(),
    ensures
        i <= first_update_failure(items, i) <= items.len(),
    decreases items.len() - i,
{
    if i < items.len() {
        lemma_first_update_failure_bounds(items, i + 1);
    }
}

/// The loop of `build_updated_fluent_resources`; with `check`, gives
/// nothing where an update would fail an assumption.
#[verifier::loop_isolation(false)]
fn update_all(items: Vec<(String, Option<FtlEntry>, Result<Option<String>, String>)>, check: bool) -> (r: Option<Result<Vec<(String, Option<FtlResource>)>, String>>)
    requires
        !check ==> updates_reportable(update_items_view(items@)),
    ensures
        r is None <==> !updates_reportable(update_items_view(items@)),
        r matches Some(x) ==> updated_all(update_items_view(items@), x),
{
    let ghost iv = update_items_view(items@);
    let ghost orig = items@;
    let mut out: Vec<(String, Option<FtlResource>)> = Vec::new();
    for item in it: items
        invariant
            it.seq() == orig,
            iv == update_items_view(orig),
            first_update_failure(iv, 0) == first_update_failure(iv, it.index() as int),
            out@.len() == it.index(),
            forall|j: int| 0 <= j < it.index() ==> item_updatable(#[trigger] iv[j]),
            forall|j: int| 0 <= j < it.index() ==> (#[trigger] out@[j]).0@ == iv[j].0 && match iv[j].1 {
                None => out@[j].1 is None,
                Some(entry) => out@[j].1 matches Some(res) && update_outcome(iv[j].0, entry, iv[j].2) == Ok::<Seq<FtlEntry>, Seq<char>>(res.body@),
            },
    {
        let ghost i = it.index() as int;
        proof {
            lemma_first_update_failure_bounds(iv, i);
        }
        assert(item == orig[i]);
        assert(iv[i] == (item.0@, item.1, existing_view(item.2)));
        let (path, entry, existing) = item;
        let updated = match entry {
            None => None,
            Some(e) => {
                if check {
                    let fine = match &existing {
                        Ok(Some(content)) => {
                            if !crate::resource::parse_is_reportable(content.as_str()) {
                                false
                            } else {
                                match &e {
                                    FtlEntry::Message(_) => true,
                                    _ => !crate::resource::parse_is_ok(content.as_str()),
                                }
                            }
                        },
                        _ => true,
                    };
                    if !fine {
                        return None;
                    }
                }
                match update_fluent_resource(path.as_str(), e, existing) {
                    Ok(res) => Some(res),
                    Err(err) => {
                        assert(item_updatable(iv[i]));
                        return Some(Err(err));
                    },
                }
            },
        };
        out.push((path, updated));
    }
    Some(Ok(out))
}

/// Adds the new message to the FTL file of each language that has one and
/// lays the file out. Each file comes as how its path is shown, the new
/// entry (none for a language without translation), and the file's
/// content, `None` when there is no such file, or the error met reading
/// it. Gives the new content of each file in order, or the first failure.
pub fn build_updated_fluent_resources(items: Vec<(String, Option<FtlEntry>, Result<Option<String>, String>)>) -> (r: Result<Vec<(String, Option<FtlResource>)>, String>)
    requires
        updates_reportable(update_items_view(items@)),
    ensures
        updated_all(update_items_view(items@), r),
{
    match update_all(items, false) {
        Some(x) => x,
        None => Err(String::new()),
    }
}

/// `build_updated_fluent_resources` where every update that is reached can
/// go without a failed assumption; nothing otherwise.
pub fn build_updated_fluent_resources_checked(items: Vec<(String, Option<FtlEntry>, Result<Option<String>, String>)>) -> (r: Option<Result<Vec<(String, Option<FtlResource>)>, String>>)
    ensures
        r is None <==> !updates_reportable(update_items_view(items@)),
        r matches Some(x) ==> updated_all(update_items_view(items@), x),
{
    update_all(items, true)
}

/// Whether no language occurs twice in the map.
pub open spec fn langs_distinct(m: Seq<(Seq<char>, Option<Seq<char>>)>) -> bool {
    forall|i: int, j: int| 0 <= i < j < m.len() ==> (#[trigger] m[i]).0 != (#[trigger] m[j]).0
}

proof fn lemma_lang_position_facts(m: Seq<(Seq<char>, Option<Seq<char>>)>, lang: Seq<char>, i: int)
    requires
        0 <= i <= m.len(),
    ensures
        i <= lang_position(m, lang, i) <= m.len(),
        lang_position(m, lang, i) < m.len() ==> m[lang_position(m, lang, i)].0 == lang,
        lang_position(m, lang, i) == m.len() ==> forall|j: int| i <= j < m.len() ==> (#[trigger] m[j]).0 != lang,
    decreases m.len() - i,
{
    if i < m.len() {
        lemma_lang_position_facts(m, lang, i + 1);
    }
}

proof fn lemma_lang_with(m: Seq<(Seq<char>, Option<Seq<char>>)>, lang: Seq<char>, v: Option<Seq<char>>)
    requires
        langs_distinct(m),
    ensures
        langs_distinct(lang_with(m, lang, v)),
        exists|k: int| 0 <= k < lang_with(m, lang, v).len() && #[trigger] lang_with(m, lang, v)[k] == (lang, v),
{
    lemma_lang_position_facts(m, lang, 0);
    let k = lang_position(m, lang, 0);
    let r = lang_with(m, lang, v);
    if k < m.len() {
        assert(r[k] == (lang, v));
        assert forall|i: int, j: int| 0 <= i < j < r.len() implies (#[trigger] r[i]).0 != (#[trigger] r[j]).0 by {
            if i != k && j != k {
                assert(r[i] == m[i] && r[j] == m[j]);
            } else if i == k {
                assert(r[j] == m[j]);
            } else {
                assert(r[i] == m[i]);
            }
        }
    } else {
        assert(r[m.len() as int] == (lang, v));
        assert forall|i: int, j: int| 0 <= i < j < r.len() implies (#[trigger] r[i]).0 != (#[trigger] r[j]).0 by {
            if j < m.len() {
                assert(r[i] == m[i] && r[j] == m[j]);
            } else {
                assert(r[i] == m[i]);
            }
        }
    }
}

proof fn lemma_msgstr_map_distinct(files: Seq<(Seq<char>, Result<Seq<u8>, Seq<char>>, Option<Seq<char>>)>, msgid: Seq<char>)
    requires
        msgstr_map(files, msgid) is Ok,
    ensures
        langs_distinct(msgstr_map(files, msgid)->Ok_0),
    decreases files.len(),
{
    if files.len() > 0 {
        lemma_msgstr_map_distinct(files.drop_last(), msgid);
        let m = msgstr_map(files.drop_last(), msgid)->Ok_0;
        let (lang, v) = po_msgstr(files.last(), msgid)->Ok_0;
        lemma_lang_with(m, lang, v);
    }
}

/// The translations that the PO files give name each language once, and
/// the language of the file the message comes from always has a text: its
/// own translation, or the message itself.
pub proof fn lemma_lang_to_msgstr(
    files: Seq<(Seq<char>, Result<Seq<u8>, Seq<char>>, Option<Seq<char>>)>,
    msgid: Seq<char>,
    source_path: Seq<char>,
    source_language: Option<Seq<char>>,
)
    requires
        lang_to_msgstr(files, msgid, source_path, source_language) is Ok,
    ensures
        langs_distinct(lang_to_msgstr(files, msgid, source_path, source_language)->Ok_0),
        exists|k: int| 0 <= k < lang_to_msgstr(files, msgid, source_path, source_language)->Ok_0.len()
            && (#[trigger] lang_to_msgstr(files, msgid, source_path, source_language)->Ok_0[k]).0 == source_language->Some_0
            && lang_to_msgstr(files, msgid, source_path, source_language)->Ok_0[k].1 is Some,
{
    lemma_msgstr_map_distinct(files, msgid);
    let m = msgstr_map(files, msgid)->Ok_0;
    let lang = source_language->Some_0;
    lemma_lang_position_facts(m, lang, 0);
    let k = lang_position(m, lang, 0);
    if k < m.len() && m[k].1 is Some {
        assert(lang_to_msgstr(files, msgid, source_path, source_language)->Ok_0[k] == m[k]);
    } else {
        lemma_lang_with(m, lang, Some(msgid));
        let r = lang_with(m, lang, Some(msgid));
        let j = choose|j: int| 0 <= j < r.len() && #[trigger] r[j] == (lang, Some(msgid));
        assert(lang_to_msgstr(files, msgid, source_path, source_language)->Ok_0[j] == (lang, Some(msgid)));
    }
}

/// Adding a new message to a language's file gives a file in the canonical
/// layout that holds the new message and, when the file existed, every
/// entry it held, each as often.
pub proof fn lemma_update_laid_out(path: Seq<char>, entry: FtlEntry, existing: Result<Option<Seq<char>>, Seq<char>>)
    requires
        update_outcome(path, entry, existing) is Ok,
        entry is Message,
    ensures
        crate::layout::canonical_layout(update_outcome(path, entry, existing)->Ok_0),
        match existing {
            Ok(Some(content)) => update_outcome(path, entry, existing)->Ok_0.to_multiset()
                == crate::resource::parsed_entries(content)->Ok_0.push(entry).to_multiset(),
            _ => update_outcome(path, entry, existing)->Ok_0 == seq![entry],
        },
{
    match existing {
        Ok(Some(content)) => {
            let body = crate::resource::parsed_entries(content)->Ok_0;
            crate::layout::lemma_format_body(body.push(entry));
        },
        _ => {
            let f = seq![entry];
            assert(f.subrange(0, 0) =~= Seq::<FtlEntry>::empty());
            assert(f.subrange(0, 1) =~= f);
            assert(crate::layout::layout_at(f, 0, 0));
        },
    }
}

/// Whether the map has the language.
pub open spec fn has_lang(m: Seq<(Seq<char>, Option<Seq<char>>)>, lang: Seq<char>) -> bool {
    exists|k: int| 0 <= k < m.len() && (#[trigger] m[k]).0 == lang
}

/// Whether one of the PO files has the language.
pub open spec fn file_has_lang(files: Seq<(Seq<char>, Result<Seq<u8>, Seq<char>>, Option<Seq<char>>)>, lang: Seq<char>) -> bool {
    exists|i: int| 0 <= i < files.len() && (#[trigger] files[i]).2 == Some(lang)
}

proof fn lemma_lang_with_has(m: Seq<(Seq<char>, Option<Seq<char>>)>, lang: Seq<char>, v: Option<Seq<char>>, x: Seq<char>)
    ensures
        has_lang(lang_with(m, lang, v), x) <==> has_lang(m, x) || x == lang,
{
    lemma_lang_position_facts(m, lang, 0);
    let k = lang_position(m, lang, 0);
    let r = lang_with(m, lang, v);
    if has_lang(m, x) {
        let j = choose|j: int| 0 <= j < m.len() && (#[trigger] m[j]).0 == x;
        if k < m.len() && j == k {
            assert(r[k].0 == x);
        } else {
            assert(r[j] == m[j]);
        }
    }
    if x == lang {
        if k < m.len() {
            assert(r[k].0 == x);
        } else {
            assert(r[m.len() as int].0 == x);
        }
    }
    if has_lang(r, x) && x != lang {
        let j = choose|j: int| 0 <= j < r.len() && (#[trigger] r[j]).0 == x;
        if k < m.len() {
            assert(j != k);
            assert(r[j] == m[j]);
        } else {
            assert(j < m.len());
            assert(r[j] == m[j]);
        }
    }
}

proof fn lemma_msgstr_map_langs(files: Seq<(Seq<char>, Result<Seq<u8>, Seq<char>>, Option<Seq<char>>)>, msgid: Seq<char>, x: Seq<char>)
    requires
        msgstr_map(files, msgid) is Ok,
    ensures
        has_lang(msgstr_map(files, msgid)->Ok_0, x) <==> file_has_lang(files, x),
    decreases files.len(),
{
    if files.len() > 0 {
        let init = files.drop_last();
        lemma_msgstr_map_langs(init, msgid, x);
        let m = msgstr_map(init, msgid)->Ok_0;
        let (lang, v) = po_msgstr(files.last(), msgid)->Ok_0;
        lemma_lang_with_has(m, lang, v, x);
        assert(files.last().2 == Some(lang));
        if file_has_lang(init, x) {
            let i = choose|i: int| 0 <= i < init.len() && (#[trigger] init[i]).2 == Some(x);
            assert(files[i] == init[i]);
        }
        if x == lang {
            assert(files[files.len() - 1].2 == Some(x));
        }
        if file_has_lang(files, x) && x != lang {
            let i = choose|i: int| 0 <= i < files.len() && (#[trigger] files[i]).2 == Some(x);
            assert(i < files.len() - 1);
            assert(init[i] == files[i]);
        }
    } else {
        assert(!has_lang(Seq::<(Seq<char>, Option<Seq<char>>)>::empty(), x));
    }
}

/// The languages of the map are exactly the languages of the PO files read
/// and the language of the file the message comes from.
pub proof fn lemma_lang_to_msgstr_languages(
    files: Seq<(Seq<char>, Result<Seq<u8>, Seq<char>>, Option<Seq<char>>)>,
    msgid: Seq<char>,
    source_path: Seq<char>,
    source_language: Option<Seq<char>>,
    x: Seq<char>,
)
    requires
        lang_to_msgstr(files, msgid, source_path, source_language) is Ok,
    ensures
        has_lang(lang_to_msgstr(files, msgid, source_path, source_language)->Ok_0, x)
            <==> file_has_lang(files, x) || source_language == Some(x),
{
    lemma_msgstr_map_langs(files, msgid, x);
    let m = msgstr_map(files, msgid)->Ok_0;
    let lang = source_language->Some_0;
    lemma_lang_with_has(m, lang, Some(msgid), x);
    lemma_lang_position_facts(m, lang, 0);
    let k = lang_position(m, lang, 0);
    if k < m.len() && m[k].1 is Some && x == lang {
        assert(m[k].0 == x);
    }
}

/// The translation of `msgid` that the last PO file of the language gives;
/// nothing when no file has the language.
pub open spec fn lang_value(files: Seq<(Seq<char>, Result<Seq<u8>, Seq<char>>, Option<Seq<char>>)>, msgid: Seq<char>, lang: Seq<char>) -> Option<Seq<char>>
    decreases files.len(),
{
    if files.len() == 0 {
        None
    } else if files.last().2 == Some(lang) {
        msgstr_of(crate::po::po_file(files.last().1->Ok_0)->Ok_0, msgid)
    } else {
        lang_value(files.drop_last(), msgid, lang)
    }
}

proof fn lemma_lang_value_none(files: Seq<(Seq<char>, Result<Seq<u8>, Seq<char>>, Option<Seq<char>>)>, msgid: Seq<char>, lang: Seq<char>)
    requires
        !file_has_lang(files, lang),
    ensures
        lang_value(files, msgid, lang) is None,
    decreases files.len(),
{
    if files.len() > 0 {
        let init = files.drop_last();
        assert(files[files.len() - 1] == files.last());
        assert(!file_has_lang(init, lang)) by {
            if file_has_lang(init, lang) {
                let i = choose|i: int| 0 <= i < init.len() && (#[trigger] init[i]).2 == Some(lang);
                assert(files[i] == init[i]);
            }
        }
        lemma_lang_value_none(init, msgid, lang);
    }
}

proof fn lemma_msgstr_map_values(files: Seq<(Seq<char>, Result<Seq<u8>, Seq<char>>, Option<Seq<char>>)>, msgid: Seq<char>)
    requires
        msgstr_map(files, msgid) is Ok,
    ensures
        forall|k: int| 0 <= k < msgstr_map(files, msgid)->Ok_0.len()
            ==> (#[trigger] msgstr_map(files, msgid)->Ok_0[k]).1 == lang_value(files, msgid, msgstr_map(files, msgid)->Ok_0[k].0),
    decreases files.len(),
{
    if files.len() > 0 {
        let init = files.drop_last();
        lemma_msgstr_map_values(init, msgid);
        lemma_msgstr_map_distinct(init, msgid);
        let m = msgstr_map(init, msgid)->Ok_0;
        let (lang, v) = po_msgstr(files.last(), msgid)->Ok_0;
        lemma_lang_position_facts(m, lang, 0);
        let p = lang_position(m, lang, 0);
        let r = lang_with(m, lang, v);
        assert forall|k: int| 0 <= k < r.len() implies (#[trigger] r[k]).1 == lang_value(files, msgid, r[k].0) by {
            if (p < m.len() && k == p) || (p == m.len() && k == m.len()) {
                assert(r[k] == (lang, v));
            } else {
                assert(r[k] == m[k]);
                if p < m.len() {
                    assert(m[k].0 != lang) by {
                        if k < p {
                            assert(m[k].0 != m[p].0);
                        } else {
                            assert(m[p].0 != m[k].0);
                        }
                    }
                }
                assert(m[k].1 == lang_value(init, msgid, m[k].0));
            }
        }
    }
}

/// The text the map gives each language: what the last PO file of that
/// language has for the message; for the language of the file the message
/// comes from, the message itself where that file has nothing.
pub proof fn lemma_lang_to_msgstr_values(
    files: Seq<(Seq<char>, Result<Seq<u8>, Seq<char>>, Option<Seq<char>>)>,
    msgid: Seq<char>,
    source_path: Seq<char>,
    source_language: Option<Seq<char>>,
    k: int,
)
    requires
        lang_to_msgstr(files, msgid, source_path, source_language) is Ok,
        0 <= k < lang_to_msgstr(files, msgid, source_path, source_language)->Ok_0.len(),
    ensures
        ({
            let (lang, text) = lang_to_msgstr(files, msgid, source_path, source_language)->Ok_0[k];
            text == if source_language == Some(lang) && lang_value(files, msgid, lang) is None {
                Some(msgid)
            } else {
                lang_value(files, msgid, lang)
            }
        }),
{
    lemma_msgstr_map_values(files, msgid);
    lemma_msgstr_map_distinct(files, msgid);
    let m = msgstr_map(files, msgid)->Ok_0;
    let src = source_language->Some_0;
    lemma_lang_position_facts(m, src, 0);
    let p = lang_position(m, src, 0);
    let r = lang_to_msgstr(files, msgid, source_path, source_language)->Ok_0;
    if p < m.len() && m[p].1 is Some {
        assert(r[k] == m[k]);
        if m[k].0 == src && k != p {
            if k < p {
                assert(m[k].0 != m[p].0);
            } else {
                assert(m[p].0 != m[k].0);
            }
        }
        assert(m[k].1 == lang_value(files, msgid, m[k].0));
    } else if p < m.len() {
        if k == p {
            assert(r[k] == (src, Some(msgid)));
            assert(m[p].1 == lang_value(files, msgid, src));
        } else {
            assert(r[k] == m[k]);
            if k < p {
                assert(m[k].0 != m[p].0);
            } else {
                assert(m[p].0 != m[k].0);
            }
            assert(m[k].1 == lang_value(files, msgid, m[k].0));
        }
    } else {
        if k == m.len() {
            assert(r[k] == (src, Some(msgid)));
            lemma_msgstr_map_langs(files, msgid, src);
            lemma_lang_value_none(files, msgid, src);
        } else {
            assert(r[k] == m[k]);
            assert(m[k].1 == lang_value(files, msgid, m[k].0));
        }
    }
}

proof fn lemma_key_position_at(pairs: Seq<(Seq<char>, Seq<char>)>, key: Seq<char>, i: int)
    requires
        0 <= i < pairs.len(),
        pairs[i].0 == key,
        forall|j: int| i < j < pairs.len() ==> (#[trigger] pairs[j]).0 != key,
    ensures
        crate::po::key_position(pairs, key) == i,
    decreases pairs.len(),
{
    if i < pairs.len() - 1 {
        let init = pairs.drop_last();
        assert(pairs[pairs.len() - 1] == pairs.last());
        assert forall|j: int| i < j < init.len() implies (#[trigger] init[j]).0 != key by {
            assert(init[j] == pairs[j]);
        }
        lemma_key_position_at(init, key, i);
    }
}

proof fn lemma_key_position_absent(pairs: Seq<(Seq<char>, Seq<char>)>, key: Seq<char>)
    requires
        forall|j: int| 0 <= j < pairs.len() ==> (#[trigger] pairs[j]).0 != key,
    ensures
        crate::po::key_position(pairs, key) == -1,
    decreases pairs.len(),
{
    if pairs.len() > 0 {
        let init = pairs.drop_last();
        assert(pairs[pairs.len() - 1] == pairs.last());
        assert forall|j: int| 0 <= j < init.len() implies (#[trigger] init[j]).0 != key by {
            assert(init[j] == pairs[j]);
        }
        lemma_key_position_absent(init, key);
    }
}

/// The translation a PO file gives a msgid is the msgstr of its last entry
/// with that msgid, wherever in the file that entry stands; nothing when
/// that msgstr is empty.
pub proof fn lemma_msgstr_of_entry(pairs: Seq<(Seq<char>, Seq<char>)>, msgid: Seq<char>, i: int)
    requires
        0 <= i < pairs.len(),
        pairs[i].0 == msgid,
        forall|j: int| i < j < pairs.len() ==> (#[trigger] pairs[j]).0 != msgid,
    ensures
        pairs[i].1.len() > 0 ==> msgstr_of(pairs, msgid) == Some(pairs[i].1),
        pairs[i].1.len() == 0 ==> msgstr_of(pairs, msgid) is None,
{
    lemma_key_position_at(pairs, msgid, i);
}

/// A PO file without an entry for a msgid gives it no translation.
pub proof fn lemma_msgstr_of_absent(pairs: Seq<(Seq<char>, Seq<char>)>, msgid: Seq<char>)
    requires
        forall|j: int| 0 <= j < pairs.len() ==> (#[trigger] pairs[j]).0 != msgid,
    ensures
        msgstr_of(pairs, msgid) is None,
{
    lemma_key_position_absent(pairs, msgid);
}

/// In a PO file that parses, an entry `(msgid, msgstr)` anywhere in the
/// file gives the msgid its msgstr as translation when that is not empty,
/// and no translation when it is.
pub proof fn lemma_po_file_msgstr(content: Seq<u8>, msgid: Seq<char>, msgstr: Seq<char>)
    requires
        crate::po::po_file(content) is Ok,
        crate::po::po_file(content)->Ok_0.contains((msgid, msgstr)),
    ensures
        msgstr.len() > 0 ==> msgstr_of(crate::po::po_file(content)->Ok_0, msgid) == Some(msgstr),
        msgstr.len() == 0 ==> msgstr_of(crate::po::po_file(content)->Ok_0, msgid) is None,
{
    let pairs = crate::po::po_file(content)->Ok_0;
    crate::po::lemma_po_file_msgids_distinct(content);
    let i = choose|i: int| 0 <= i < pairs.len() && pairs[i] == (msgid, msgstr);
    assert forall|j: int| i < j < pairs.len() implies (#[trigger] pairs[j]).0 != msgid by {
        assert(pairs[i].0 != pairs[j].0);
    }
    lemma_msgstr_of_entry(pairs, msgid, i);
}

/// Adding a new message to an existing language file succeeds only when
/// the file has no message with the new message's id yet, and the file
/// that comes out has a message with that id.
pub proof fn lemma_update_new_id(path: Seq<char>, entry: FtlEntry, content: Seq<char>)
    requires
        entry is Message,
        update_outcome(path, entry, Ok(Some(content))) is Ok,
    ensures
        !crate::resource::has_message_id(crate::resource::parsed_entries(content)->Ok_0, entry->Message_0.id@),
        crate::resource::has_message_id(update_outcome(path, entry, Ok(Some(content)))->Ok_0, entry->Message_0.id@),
{
    broadcast use vstd::seq_lib::group_to_multiset_ensures;
    let body = crate::resource::parsed_entries(content)->Ok_0;
    let out = update_outcome(path, entry, Ok(Some(content)))->Ok_0;
    lemma_update_laid_out(path, entry, Ok(Some(content)));
    let full = body.push(entry);
    assert(full[full.len() - 1] == entry);
    assert(full.contains(entry));
    assert(full.to_multiset().count(entry) > 0);
    assert(out.to_multiset().count(entry) > 0);
    assert(out.contains(entry));
    let k = choose|k: int| 0 <= k < out.len() && out[k] == entry;
    assert(crate::ftl::message_id(out[k]) == Some(entry->Message_0.id@));
}

} // verus!
