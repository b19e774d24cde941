//! Renaming a message and the variables it uses.
use vstd::prelude::*;
use crate::ftl::{FtlElement, FtlEntry, FtlExpression, FtlInline, FtlMessage, FtlPattern, FtlResource, FtlVariant};
use crate::resource::{format_resource, get_message_ids, parse_str_as_syntax_resource};
use crate::text::{contains_str, push_str, split_once_at, str_eq};

verus! {

/// The variable that a pattern element places directly, either alone or as
/// the selector of a select expression.
pub open spec fn placed_variable(e: FtlElement) -> Option<Seq<char>> {
    match e {
        FtlElement::Placeable(FtlExpression::Select { selector: FtlInline::Variable(name), .. }) => Some(name@),
        FtlElement::Placeable(FtlExpression::Inline(FtlInline::Variable(name))) => Some(name@),
        _ => None,
    }
}

/// Whether a pattern places the variable directly.
pub open spec fn pattern_has_variable(p: FtlPattern, variable: Seq<char>) -> bool {
    exists|i: int| 0 <= i < p.elements@.len() && #[trigger] placed_variable(p.elements@[i]) == Some(variable)
}

/// Whether a pattern places the variable directly, alone or as the selector
/// of a select expression.
pub fn pattern_contains_variable(pattern: &FtlPattern, variable: &str) -> (b: bool)
    ensures
        b == pattern_has_variable(*pattern, variable@),
{
    let mut i: usize = 0;
    while i < pattern.elements.len()
        invariant
            i <= pattern.elements@.len(),
            forall|j: int| 0 <= j < i ==> #[trigger] placed_variable(pattern.elements@[j]) != Some(variable@),
        decreases pattern.elements@.len() - i,
    {
        let found = match &pattern.elements[i] {
            FtlElement::Placeable(FtlExpression::Select { selector: FtlInline::Variable(name), .. }) => str_eq(name.as_str(), variable),
            FtlElement::Placeable(FtlExpression::Inline(FtlInline::Variable(name))) => str_eq(name.as_str(), variable),
            _ => false,
        };
        if found {
            assert(placed_variable(pattern.elements@[i as int]) == Some(variable@));
            return true;
        }
        i = i + 1;
    }
    false
}

/// Whether `b` is `a` with the variable `old` renamed to `new` where it is
/// placed directly, and inside the variants of a select expression on it.
pub open spec fn renamed_pattern(a: FtlPattern, b: FtlPattern, old: Seq<char>, new: String) -> bool
    decreases a,
{
    &&& a.elements@.len() == b.elements@.len()
    &&& forall|i: int| 0 <= i < a.elements@.len() ==> renamed_element(#[trigger] a.elements@[i], b.elements@[i], old, new)
}

/// Whether element `b` is element `a` with the variable renamed.
pub open spec fn renamed_element(a: FtlElement, b: FtlElement, old: Seq<char>, new: String) -> bool
    decreases a,
{
    match a {
        FtlElement::Placeable(FtlExpression::Inline(FtlInline::Variable(name))) => if name@ == old {
            b == FtlElement::Placeable(FtlExpression::Inline(FtlInline::Variable(new)))
        } else {
            b == a
        },
        FtlElement::Placeable(FtlExpression::Select { selector: FtlInline::Variable(name), variants }) => if name@ == old {
            match b {
                FtlElement::Placeable(FtlExpression::Select { selector, variants: renamed }) => {
                    &&& selector == FtlInline::Variable(new)
                    &&& renamed@.len() == variants@.len()
                    &&& forall|j: int| 0 <= j < variants@.len() ==> renamed_variant(#[trigger] variants@[j], renamed@[j], old, new)
                },
                _ => false,
            }
        } else {
            b == a
        },
        _ => b == a,
    }
}

/// Whether variant `b` is variant `a` with the variable renamed in its value.
pub open spec fn renamed_variant(a: FtlVariant, b: FtlVariant, old: Seq<char>, new: String) -> bool
    decreases a,
{
    &&& b.key == a.key
    &&& b.default == a.default
    &&& renamed_pattern(a.value, b.value, old, new)
}

#[verifier::loop_isolation(false)]
fn rename_in_element(e: FtlElement, old_name: &str, new_name: &String) -> (r: FtlElement)
    ensures
        renamed_element(e, r, old_name@, *new_name),
    decreases e,
{
    let ghost orig = e;
    match e {
        FtlElement::Placeable(FtlExpression::Inline(FtlInline::Variable(name))) => {
            if str_eq(name.as_str(), old_name) {
                FtlElement::Placeable(FtlExpression::Inline(FtlInline::Variable(new_name.clone())))
            } else {
                FtlElement::Placeable(FtlExpression::Inline(FtlInline::Variable(name)))
            }
        },
        FtlElement::Placeable(FtlExpression::Select { selector: FtlInline::Variable(name), variants }) => {
            if str_eq(name.as_str(), old_name) {
                let ghost vs = variants@;
                let mut renamed: Vec<FtlVariant> = Vec::new();
                for v in it: variants
                    invariant
                        it.seq() == vs,
                        orig == FtlElement::Placeable(FtlExpression::Select { selector: FtlInline::Variable(name), variants: variants }),
                        renamed@.len() == it.index(),
                        forall|j: int| 0 <= j < it.index() ==> renamed_variant(#[trigger] vs[j], renamed@[j], old_name@, *new_name),
                {
                    let ghost j = it.index();
                    assert(v == vs[j as int]);
                    proof {
                        let x = orig->Placeable_0;
                        assert(decreases_to!(orig => x));
                        assert(x->variants == variants);
                        assert(decreases_to!(x => x->variants));
                        assert(decreases_to!(variants => vs));
                        assert(decreases_to!(vs => vs[j as int]));
                        assert(decreases_to!(vs[j as int] => vs[j as int].value));
                        assert(decreases_to!(orig => vs[j as int].value));
                    }
                    let FtlVariant { key, value, default } = v;
                    assert(decreases_to!(orig => value));
                    let value = rename_in_pattern(value, old_name, new_name);
                    renamed.push(FtlVariant { key, value, default });
                }
                FtlElement::Placeable(FtlExpression::Select { selector: FtlInline::Variable(new_name.clone()), variants: renamed })
            } else {
                FtlElement::Placeable(FtlExpression::Select { selector: FtlInline::Variable(name), variants })
            }
        },
        other => other,
    }
}

fn rename_in_pattern(p: FtlPattern, old_name: &str, new_name: &String) -> (r: FtlPattern)
    ensures
        renamed_pattern(p, r, old_name@, *new_name),
    decreases p,
{
    let ghost orig = p;
    let ghost es = p.elements@;
    let mut out: Vec<FtlElement> = Vec::new();
    for e in it: p.elements
        invariant
            it.seq() == es,
            orig.elements@ == es,
            out@.len() == it.index(),
            forall|j: int| 0 <= j < it.index() ==> renamed_element(#[trigger] es[j], out@[j], old_name@, *new_name),
    {
        let ghost j = it.index();
        assert(e == es[j as int]);
        let r = rename_in_element(e, old_name, new_name);
        out.push(r);
    }
    FtlPattern { elements: out }
}

/// Renames the variable `old_name` to `new_name` where the pattern places
/// it directly, and inside the variants of a select expression on it.
pub fn rename_variable_in_pattern(pattern: &mut FtlPattern, old_name: &str, new_name: &String)
    ensures
        renamed_pattern(*old(pattern), *final(pattern), old_name@, *new_name),
{
    let mut taken = FtlPattern { elements: Vec::new() };
    std::mem::swap(&mut taken, pattern);
    *pattern = rename_in_pattern(taken, old_name, new_name);
}

/// The views of the `(old, new)` variable renamings.
pub open spec fn updates_view(v: Seq<(String, String)>) -> Seq<(Seq<char>, String)> {
    v.map_values(|p: (String, String)| (p.0@, p.1))
}

/// Whether each pattern of the chain is the one before it with the
/// renaming of the same position applied.
pub open spec fn renaming_chain(chain: Seq<FtlPattern>, updates: Seq<(Seq<char>, String)>) -> bool {
    &&& chain.len() == updates.len() + 1
    &&& forall|i: int| 0 <= i < updates.len() ==> #[trigger] renamed_pattern(chain[i], chain[i + 1], updates[i].0, updates[i].1)
}

/// Whether `b` is `a` after applying the renamings in turn.
pub open spec fn renamed_through(a: FtlPattern, b: FtlPattern, updates: Seq<(Seq<char>, String)>) -> bool {
    exists|chain: Seq<FtlPattern>| #[trigger] renaming_chain(chain, updates) && chain[0] == a && chain.last() == b
}

/// The position of the first renaming that the pattern does not allow: its
/// old variable is not placed, or its new one already is. The number of
/// renamings when all are allowed.
pub open spec fn first_refused_update(p: FtlPattern, updates: Seq<(Seq<char>, String)>) -> int
    decreases updates.len(),
{
    if updates.len() == 0 {
        0
    } else if !pattern_has_variable(p, updates[0].0) || pattern_has_variable(p, updates[0].1@) {
        0
    } else {
        1 + first_refused_update(p, updates.drop_first())
    }
}

/// Why a renaming is refused.
pub open spec fn update_error(p: FtlPattern, update: (Seq<char>, String)) -> Seq<char> {
    if !pattern_has_variable(p, update.0) {
        "Variable '"@ + update.0 + "' does not exist in message."@
    } else {
        "Variable '"@ + update.1@ + "' already exists in message."@
    }
}

/// Why a message cannot be renamed: the first renaming that its value
/// does not allow. Nothing when all are allowed or it has no value.
pub open spec fn message_rename_refusal(m: FtlMessage, ups: Seq<(Seq<char>, String)>) -> Option<Seq<char>> {
    match m.value {
        Some(p) => {
            let k = first_refused_update(p, ups);
            if k < ups.len() {
                Some(update_error(p, ups[k]))
            } else {
                None
            }
        },
        None => None,
    }
}

/// Whether `b` is message `a` renamed: the new id if one is given, the
/// renamings applied in turn to the value, attributes and comment kept.
pub open spec fn message_renamed(a: FtlMessage, b: FtlMessage, new_id: Option<String>, ups: Seq<(Seq<char>, String)>) -> bool {
    &&& b.id@ == (match new_id {
        Some(n) => n@,
        None => a.id@,
    })
    &&& b.attributes == a.attributes
    &&& b.comment == a.comment
    &&& match a.value {
        Some(p) => b.value matches Some(q) && renamed_through(p, q, ups),
        None => b.value is None,
    }
}

/// Renames a message and the variables of its value. Every renaming is
/// first checked against the value as it stands: its old variable must be
/// placed in it and its new one must not. The renamings are then applied in
/// turn, and the message gets its new id if one is given. A refused
/// renaming leaves the message as it was.
#[verifier::loop_isolation(false)]
pub fn rename_message(message: &mut FtlMessage, new_id: &Option<String>, variable_update: &Vec<(String, String)>) -> (r: Result<(), String>)
    ensures
        match r {
            Err(e) => message_rename_refusal(*old(message), updates_view(variable_update@)) == Some(e@)
                && *final(message) == *old(message),
            Ok(()) => message_rename_refusal(*old(message), updates_view(variable_update@)) is None
                && message_renamed(*old(message), *final(message), *new_id, updates_view(variable_update@)),
        },
{
    let ghost ups = updates_view(variable_update@);
    let value = message.value.take();
    if let Some(pattern) = value {
        let ghost p = pattern;
        let n = variable_update.len();
        let mut i: usize = 0;
        assert(ups.skip(0) =~= ups);
        while i < n
            invariant
                i <= n == variable_update@.len(),
                ups == updates_view(variable_update@),
                p == pattern,
                message.id == old(message).id,
                message.attributes == old(message).attributes,
                message.comment == old(message).comment,
                first_refused_update(p, ups) == i + first_refused_update(p, ups.skip(i as int)),
            decreases n - i,
        {
            assert(ups.skip(i as int).drop_first() =~= ups.skip(i + 1));
            assert(ups.skip(i as int)[0] == ups[i as int]);
            let (old_variable_name, new_variable_name) = &variable_update[i];
            assert(ups[i as int].0 == old_variable_name@);
            assert(ups[i as int].1 == *new_variable_name);
            if !pattern_contains_variable(&pattern, old_variable_name.as_str()) {
                assert(first_refused_update(p, ups) == i as int);
                let mut e = "Variable '".to_owned();
                push_str(&mut e, old_variable_name.as_str());
                push_str(&mut e, "' does not exist in message.");
                message.value = Some(pattern);
                return Err(e);
            }
            if pattern_contains_variable(&pattern, new_variable_name.as_str()) {
                let mut e = "Variable '".to_owned();
                push_str(&mut e, new_variable_name.as_str());
                push_str(&mut e, "' already exists in message.");
                message.value = Some(pattern);
                return Err(e);
            }
            i = i + 1;
        }
        assert(ups.skip(n as int) =~= Seq::<(Seq<char>, String)>::empty());
        let mut pattern = pattern;
        let mut j: usize = 0;
        let ghost mut chain: Seq<FtlPattern> = seq![p];
        while j < n
            invariant
                j <= n == variable_update@.len(),
                ups == updates_view(variable_update@),
                renaming_chain(chain, ups.take(j as int)),
                chain[0] == p,
                chain.last() == pattern,
                message.id == old(message).id,
                message.attributes == old(message).attributes,
                message.comment == old(message).comment,
            decreases n - j,
        {
            let (old_variable_name, new_variable_name) = &variable_update[j];
            rename_variable_in_pattern(&mut pattern, old_variable_name.as_str(), new_variable_name);
            proof {
                let prev = chain;
                chain = chain.push(pattern);
                let t = ups.take(j + 1);
                assert forall|k: int| 0 <= k < t.len() implies #[trigger] renamed_pattern(chain[k], chain[k + 1], t[k].0, t[k].1) by {
                    if k < j {
                        assert(renamed_pattern(prev[k], prev[k + 1], ups.take(j as int)[k].0, ups.take(j as int)[k].1));
                    }
                }
            }
            j = j + 1;
        }
        assert(ups.take(n as int) =~= ups);
        assert(renaming_chain(chain, ups));
        message.value = Some(pattern);
    }
    if let Some(new_id) = new_id {
        message.id = new_id.clone();
    }
    Ok(())
}

/// The position of the first message from `i` on with the id; the length
/// of the body when there is none.
pub open spec fn first_message_from(body: Seq<FtlEntry>, id: Seq<char>, i: int) -> int
    decreases body.len() - i,
{
    if i >= body.len() {
        body.len() as int
    } else if crate::ftl::message_id(body[i]) == Some(id) {
        i
    } else {
        first_message_from(body, id, i + 1)
    }
}

/// Whether body `b` is `body` with its first message with id `old_id`
/// renamed, and every other entry kept.
pub open spec fn body_renamed(body: Seq<FtlEntry>, b: Seq<FtlEntry>, old_id: Seq<char>, new_id: Option<String>, ups: Seq<(Seq<char>, String)>) -> bool {
    let k = first_message_from(body, old_id, 0);
    &&& 0 <= k < body.len()
    &&& b.len() == body.len()
    &&& forall|i: int| 0 <= i < body.len() && i != k ==> b[i] == body[i]
    &&& body[k] matches FtlEntry::Message(m)
    &&& b[k] matches FtlEntry::Message(m2)
    &&& message_renamed(m, m2, new_id, ups)
}

/// The warning for a file that lacks the message to rename.
pub open spec fn missing_id_warning(path: Seq<char>, old_id: Seq<char>) -> Seq<char> {
    "file "@ + path + ": ID '"@ + old_id + "' does not exist. No renaming performed."@
}

/// Why renaming in an FTL source fails: its parser errors, the new id
/// being taken, or a refused variable renaming. Nothing when it succeeds.
pub open spec fn file_rename_error(source: Seq<char>, path: Seq<char>, old_id: Seq<char>, new_id: Option<String>, ups: Seq<(Seq<char>, String)>) -> Option<Seq<char>> {
    match crate::resource::parsed_entries(source) {
        Err(e) => Some(e),
        Ok(body) => if !crate::resource::has_message_id(body, old_id) {
            None
        } else if new_id is Some && crate::resource::has_message_id(body, new_id->Some_0@) {
            Some("file "@ + path + ": ID '"@ + new_id->Some_0@ + "' already exists."@)
        } else {
            match message_rename_refusal(body[first_message_from(body, old_id, 0)]->Message_0, ups) {
                Some(e) => Some("file "@ + path + ": message '"@ + old_id + "': "@ + e),
                None => None,
            }
        },
    }
}

/// The warning that renaming in an FTL source gives: the source parses and
/// lacks the message to rename.
pub open spec fn file_rename_warning(source: Seq<char>, path: Seq<char>, old_id: Seq<char>) -> Option<Seq<char>> {
    match crate::resource::parsed_entries(source) {
        Ok(body) => if !crate::resource::has_message_id(body, old_id) {
            Some(missing_id_warning(path, old_id))
        } else {
            None
        },
        Err(_) => None,
    }
}

/// Whether `b` is what renaming in a source that parses gives: its entries
/// with the message renamed, or unchanged where it lacks the message.
pub open spec fn source_renamed(source: Seq<char>, b: Seq<FtlEntry>, old_id: Seq<char>, new_id: Option<String>, ups: Seq<(Seq<char>, String)>) -> bool {
    match crate::resource::parsed_entries(source) {
        Ok(body) => if crate::resource::has_message_id(body, old_id) {
            body_renamed(body, b, old_id, new_id, ups)
        } else {
            b == body
        },
        Err(_) => false,
    }
}

proof fn lemma_first_message(body: Seq<FtlEntry>, id: Seq<char>, i: int)
    requires
        0 <= i <= body.len(),
        forall|j: int| 0 <= j < i ==> crate::ftl::message_id(#[trigger] body[j]) != Some(id),
    ensures
        first_message_from(body, id, 0) == first_message_from(body, id, i),
    decreases i,
{
    if i > 0 {
        lemma_first_message(body, id, i - 1);
        assert(crate::ftl::message_id(body[i - 1]) != Some(id));
    }
}

/// Renames, in the content of an FTL file, the first message with id
/// `old_id` and the variables of its value. `path` is how the file's path
/// is shown in messages. A file that lacks the message is left unchanged,
/// with a warning.
pub fn rename_in_file(
    content: &str,
    path: &str,
    old_id: &str,
    new_id: &Option<String>,
    variable_update: &Vec<(String, String)>,
) -> (r: Result<(FtlResource, Option<String>), String>)
    requires
        crate::resource::parse_reportable(content@),
    ensures
        match r {
            Err(e) => file_rename_error(content@, path@, old_id@, *new_id, updates_view(variable_update@)) == Some(e@),
            Ok((res, w)) => {
                &&& file_rename_error(content@, path@, old_id@, *new_id, updates_view(variable_update@)) is None
                &&& source_renamed(content@, res.body@, old_id@, *new_id, updates_view(variable_update@))
                &&& match w {
                    Some(w) => file_rename_warning(content@, path@, old_id@) == Some(w@),
                    None => file_rename_warning(content@, path@, old_id@) is None,
                }
            },
        },
{
    let ghost ups = updates_view(variable_update@);
    let resource = parse_str_as_syntax_resource(content)?;
    let ghost body = resource.body@;
    let existing_ids = get_message_ids(&resource);
    proof {
        crate::resource::lemma_distinct_message_ids(body);
    }
    let has_old = contains_str(&existing_ids, old_id);
    proof {
        if has_old {
            let k = choose|k: int| 0 <= k < existing_ids@.len() && #[trigger] existing_ids@[k]@ == old_id@;
            assert(crate::cli::views(existing_ids@)[k] == old_id@);
            assert(crate::resource::distinct_message_ids(body).contains(old_id@));
        } else {
            if crate::resource::has_message_id(body, old_id@) {
                assert(crate::resource::distinct_message_ids(body).contains(old_id@));
                let k = choose|k: int| 0 <= k < crate::cli::views(existing_ids@).len() && crate::cli::views(existing_ids@)[k] == old_id@;
                assert(existing_ids@[k]@ == old_id@);
            }
        }
    }
    if !has_old {
        let mut w = "file ".to_owned();
        push_str(&mut w, path);
        push_str(&mut w, ": ID '");
        push_str(&mut w, old_id);
        push_str(&mut w, "' does not exist. No renaming performed.");
        return Ok((resource, Some(w)));
    }
    if let Some(n) = new_id {
        let taken = contains_str(&existing_ids, n.as_str());
        proof {
            if taken {
                let k = choose|k: int| 0 <= k < existing_ids@.len() && #[trigger] existing_ids@[k]@ == n@;
                assert(crate::cli::views(existing_ids@)[k] == n@);
                assert(crate::resource::distinct_message_ids(body).contains(n@));
            } else if crate::resource::has_message_id(body, n@) {
                assert(crate::resource::distinct_message_ids(body).contains(n@));
                let k = choose|k: int| 0 <= k < crate::cli::views(existing_ids@).len() && crate::cli::views(existing_ids@)[k] == n@;
                assert(existing_ids@[k]@ == n@);
            }
        }
        if taken {
            let mut e = "file ".to_owned();
            push_str(&mut e, path);
            push_str(&mut e, ": ID '");
            push_str(&mut e, n.as_str());
            push_str(&mut e, "' already exists.");
            return Err(e);
        }
    }
    let mut entries = resource.body;
    let mut i: usize = 0;
    while i < entries.len()
        invariant
            entries@ == body,
            i <= body.len(),
            crate::resource::has_message_id(body, old_id@),
            forall|j: int| 0 <= j < i ==> crate::ftl::message_id(#[trigger] body[j]) != Some(old_id@),
        ensures
            entries@ == body,
            i <= body.len(),
            forall|j: int| 0 <= j < i ==> crate::ftl::message_id(#[trigger] body[j]) != Some(old_id@),
            i < body.len() ==> crate::ftl::message_id(body[i as int]) == Some(old_id@),
        decreases body.len() - i,
    {
        let found = match &entries[i] {
            FtlEntry::Message(m) => str_eq(m.id.as_str(), old_id),
            _ => false,
        };
        if found {
            break;
        }
        i = i + 1;
    }
    proof {
        if i >= body.len() {
            let j = choose|j: int| 0 <= j < body.len() && #[trigger] crate::ftl::message_id(body[j]) == Some(old_id@);
            assert(false);
        }
        lemma_first_message(body, old_id@, i as int);
    }
    assert(crate::ftl::message_id(body[i as int]) == Some(old_id@));
    assert(first_message_from(body, old_id@, 0) == i);
    let entry = entries.remove(i);
    let mut message = match entry {
        FtlEntry::Message(m) => m,
        _ => {
            assert(false);
            return Err(String::new());
        },
    };
    let ghost before = message;
    match rename_message(&mut message, new_id, variable_update) {
        Ok(()) => {},
        Err(e) => {
            let mut err = "file ".to_owned();
            push_str(&mut err, path);
            push_str(&mut err, ": message '");
            push_str(&mut err, old_id);
            push_str(&mut err, "': ");
            push_str(&mut err, e.as_str());
            return Err(err);
        },
    }
    entries.insert(i, FtlEntry::Message(message));
    assert(body_renamed(body, entries@, old_id@, *new_id, ups));
    Ok((FtlResource { body: entries }, None))
}

/// Why renaming in one file fails: the error met reading it, the errors of
/// `rename_in_file`, or the layout that formatting refuses. Nothing when it
/// succeeds.
pub open spec fn file_failure(file: (Seq<char>, Result<Seq<char>, Seq<char>>), old_id: Seq<char>, new_id: Option<String>, ups: Seq<(Seq<char>, String)>) -> Option<Seq<char>> {
    match file.1 {
        Err(e) => Some(e),
        Ok(source) => match file_rename_error(source, file.0, old_id, new_id, ups) {
            Some(e) => Some(e),
            None => match crate::resource::parsed_entries(source) {
                Ok(body) => match crate::resource::format_body(body) {
                    Err(e) => Some(e),
                    Ok(_) => None,
                },
                Err(e) => Some(e),
            },
        },
    }
}

/// The position of the first file from `i` on in which renaming fails; the
/// number of files when there is none.
pub open spec fn first_failure(files: Seq<(Seq<char>, Result<Seq<char>, Seq<char>>)>, old_id: Seq<char>, new_id: Option<String>, ups: Seq<(Seq<char>, String)>, i: int) -> int
    decreases files.len() - i,
{
    if i >= files.len() {
        files.len() as int
    } else if file_failure(files[i], old_id, new_id, ups) is Some {
        i
    } else {
        first_failure(files, old_id, new_id, ups, i + 1)
    }
}

/// The warning that renaming in one file gives.
pub open spec fn file_warning(file: (Seq<char>, Result<Seq<char>, Seq<char>>), old_id: Seq<char>) -> Option<Seq<char>> {
    match file.1 {
        Ok(source) => file_rename_warning(source, file.0, old_id),
        Err(_) => None,
    }
}

/// The warnings of the files, in order.
pub open spec fn rename_warnings(files: Seq<(Seq<char>, Result<Seq<char>, Seq<char>>)>, old_id: Seq<char>) -> Seq<Seq<char>>
    decreases files.len(),
{
    if files.len() == 0 {
        Seq::empty()
    } else {
        let before = rename_warnings(files.drop_last(), old_id);
        match file_warning(files.last(), old_id) {
            Some(w) => before.push(w),
            None => before,
        }
    }
}

/// Whether `out` is what renaming in one file and formatting it gives.
pub open spec fn file_result(file: (Seq<char>, Result<Seq<char>, Seq<char>>), old_id: Seq<char>, new_id: Option<String>, ups: Seq<(Seq<char>, String)>, out: Seq<FtlEntry>) -> bool {
    match file.1 {
        Ok(source) => exists|b: Seq<FtlEntry>|
            #[trigger] source_renamed(source, b, old_id, new_id, ups) && crate::resource::format_body(b) == Ok::<Seq<FtlEntry>, Seq<char>>(out),
        Err(_) => false,
    }
}

/// Whether every file that gets parsed, up to the first that fails, can
/// have its parser errors reported.
pub open spec fn rename_reportable(files: Seq<(Seq<char>, Result<Seq<char>, Seq<char>>)>, old_id: Seq<char>, new_id: Option<String>, ups: Seq<(Seq<char>, String)>) -> bool {
    forall|i: int| 0 <= i < files.len() && i <= first_failure(files, old_id, new_id, ups, 0)
        ==> crate::missing::content_reportable((#[trigger] files[i]).1)
}

proof fn lemma_first_failure_bounds(files: Seq<(Seq<char>, Result<Seq<char>, Seq<char>>)>, old_id: Seq<char>, new_id: Option<String>, ups: Seq<(Seq<char>, String)>, i: int)
    requires
        0 <= i <= files.len(),
    ensures
        i <= first_failure(files, old_id, new_id, ups, i) <= files.len(),
    decreases files.len() - i,
{
    if i < files.len() {
        lemma_first_failure_bounds(files, old_id, new_id, ups, i + 1);
    }
}

proof fn lemma_misplaced_kept(body: Seq<FtlEntry>, b: Seq<FtlEntry>, k: int, i: int, past_header: bool)
    requires
        b.len() == body.len(),
        0 <= k < body.len(),
        0 <= i <= body.len(),
        forall|j: int| 0 <= j < body.len() && j != k ==> b[j] == body[j],
        body[k] is Message,
        b[k] is Message,
    ensures
        crate::resource::first_misplaced(b, i, past_header) == crate::resource::first_misplaced(body, i, past_header),
    decreases body.len() - i,
{
    if i < body.len() {
        lemma_misplaced_kept(body, b, k, i + 1, true);
        lemma_misplaced_kept(body, b, k, i + 1, false);
        if i != k {
            assert(b[i] == body[i]);
        }
    }
}

/// Renaming a message does not change how the layout judges the entries:
/// a body that the layout refuses is refused with the same error after the
/// renaming, and one that it accepts is still accepted.
pub proof fn lemma_renaming_keeps_layout(body: Seq<FtlEntry>, b: Seq<FtlEntry>, old_id: Seq<char>, new_id: Option<String>, ups: Seq<(Seq<char>, String)>)
    requires
        body_renamed(body, b, old_id, new_id, ups),
    ensures
        crate::resource::format_body(body) is Err ==> crate::resource::format_body(b) == crate::resource::format_body(body),
        crate::resource::format_body(body) is Ok ==> crate::resource::format_body(b) is Ok,
{
    let k = first_message_from(body, old_id, 0);
    lemma_misplaced_kept(body, b, k, 0, false);
    let m = crate::resource::first_misplaced(body, 0, false);
    if m < body.len() {
        lemma_misplaced_not_message(body, 0, false);
        assert(m != k);
        assert(b[m] == body[m]);
    }
}

proof fn lemma_misplaced_not_message(body: Seq<FtlEntry>, i: int, past_header: bool)
    requires
        0 <= i <= body.len(),
    ensures
        ({
            let m = crate::resource::first_misplaced(body, i, past_header);
            m < body.len() ==> (i <= m && !(body[m] is Message))
        }),
    decreases body.len() - i,
{
    if i < body.len() {
        lemma_misplaced_not_message(body, i + 1, true);
        lemma_misplaced_not_message(body, i + 1, false);
    }
}

/// Whether `r` is what renaming in all the files gives: the warnings of the
/// files up to the first that fails, and the new resources in the order of
/// the files, or the error of that file.
pub open spec fn renamed_all(
    fs: Seq<(Seq<char>, Result<Seq<char>, Seq<char>>)>,
    old_id: Seq<char>,
    new_id: Option<String>,
    ups: Seq<(Seq<char>, String)>,
    r: (Vec<String>, Result<Vec<FtlResource>, String>),
) -> bool {
    let k = first_failure(fs, old_id, new_id, ups, 0);
    match r.1 {
        Ok(res) => {
            &&& k == fs.len()
            &&& crate::cli::views(r.0@) == rename_warnings(fs, old_id)
            &&& res@.len() == fs.len()
            &&& forall|i: int| 0 <= i < fs.len() ==> file_result(fs[i], old_id, new_id, ups, (#[trigger] res@[i]).body@)
        },
        Err(e) => {
            &&& k < fs.len()
            &&& file_failure(fs[k], old_id, new_id, ups) == Some(e@)
            &&& crate::cli::views(r.0@) == rename_warnings(fs.take(k + 1), old_id)
        },
    }
}

/// The loop of `rename_in_all_files`; with `check`, it first makes sure
/// that each file it parses can have its parser errors reported, and gives
/// nothing at the first that cannot.
#[verifier::loop_isolation(false)]
fn rename_files(
    files: &Vec<(String, Result<String, String>)>,
    old_id: &str,
    new_id: &Option<String>,
    variable_update: &Vec<(String, String)>,
    check: bool,
) -> (r: Option<(Vec<String>, Result<Vec<FtlResource>, String>)>)
    requires
        !check ==> rename_reportable(crate::missing::files_view(files@), old_id@, *new_id, updates_view(variable_update@)),
    ensures
        r is None <==> !rename_reportable(crate::missing::files_view(files@), old_id@, *new_id, updates_view(variable_update@)),
        r matches Some(x) ==> renamed_all(crate::missing::files_view(files@), old_id@, *new_id, updates_view(variable_update@), x),
{
    let ghost fs = crate::missing::files_view(files@);
    let ghost ups = updates_view(variable_update@);
    let mut warnings: Vec<String> = Vec::new();
    let mut resources: Vec<FtlResource> = Vec::new();
    let mut i: usize = 0;
    assert(fs.take(0) =~= Seq::<(Seq<char>, Result<Seq<char>, Seq<char>>)>::empty());
    while i < files.len()
        invariant
            i <= files@.len() == fs.len(),
            fs == crate::missing::files_view(files@),
            ups == updates_view(variable_update@),
            first_failure(fs, old_id@, *new_id, ups, 0) == first_failure(fs, old_id@, *new_id, ups, i as int),
            forall|j: int| 0 <= j < i ==> crate::missing::content_reportable((#[trigger] fs[j]).1),
            crate::cli::views(warnings@) == rename_warnings(fs.take(i as int), old_id@),
            resources@.len() == i,
            forall|j: int| 0 <= j < i ==> file_result(fs[j], old_id@, *new_id, ups, (#[trigger] resources@[j]).body@),
        decreases files@.len() - i,
    {
        proof {
            lemma_first_failure_bounds(fs, old_id@, *new_id, ups, i as int);
            assert(fs.take(i + 1).drop_last() =~= fs.take(i as int));
            assert(fs.take(i + 1).last() == fs[i as int]);
        }
        let ghost wv = crate::cli::views(warnings@);
        let (path, content) = &files[i];
        assert(fs[i as int].0 == path@);
        let text = match content {
            Ok(t) => t,
            Err(e) => {
                assert(file_failure(fs[i as int], old_id@, *new_id, ups) == Some(e@));
                assert forall|j: int| 0 <= j < fs.len() && j <= first_failure(fs, old_id@, *new_id, ups, 0)
                    implies crate::missing::content_reportable((#[trigger] fs[j]).1) by {
                    if j == i {
                        assert(fs[j].1 == Err::<Seq<char>, Seq<char>>(e@));
                    }
                }
                return Some((warnings, Err(e.clone())));
            },
        };
        assert(fs[i as int].1 == Ok::<Seq<char>, Seq<char>>(text@));
        if check && !crate::resource::parse_is_reportable(text.as_str()) {
            assert(!crate::missing::content_reportable(fs[i as int].1));
            return None;
        }
        assert(crate::missing::content_reportable(fs[i as int].1));
        let (resource, warning) = match rename_in_file(text.as_str(), path.as_str(), old_id, new_id, variable_update) {
            Ok(x) => x,
            Err(e) => {
                assert forall|j: int| 0 <= j < fs.len() && j <= first_failure(fs, old_id@, *new_id, ups, 0)
                    implies crate::missing::content_reportable((#[trigger] fs[j]).1) by {
                    if j == i {
                        assert(crate::missing::content_reportable(fs[i as int].1));
                    }
                }
                return Some((warnings, Err(e)));
            },
        };
        match warning {
            Some(w) => {
                warnings.push(w);
                assert(crate::cli::views(warnings@) =~= wv.push(w@));
            },
            None => {},
        }
        proof {
            let body = crate::resource::parsed_entries(text@)->Ok_0;
            if crate::resource::has_message_id(body, old_id@) {
                lemma_renaming_keeps_layout(body, resource.body@, old_id@, *new_id, ups);
            }
        }
        let formatted = match format_resource(resource) {
            Ok(f) => f,
            Err(e) => {
                assert forall|j: int| 0 <= j < fs.len() && j <= first_failure(fs, old_id@, *new_id, ups, 0)
                    implies crate::missing::content_reportable((#[trigger] fs[j]).1) by {
                    if j == i {
                        assert(crate::missing::content_reportable(fs[i as int].1));
                    }
                }
                return Some((warnings, Err(e)));
            },
        };
        resources.push(formatted);
        i = i + 1;
    }
    assert(fs.take(i as int) =~= fs);
    Some((warnings, Ok(resources)))
}

/// Renames, in each file in turn, the first message with id `old_id` and
/// the variables of its value, and brings the file into the canonical
/// layout. Each file comes as the way its path is shown and its content or
/// the error met reading it. Gives the warnings for the files that lack the
/// message, and the new resources in the order of the files, or the first
/// error.
pub fn rename_in_all_files(
    files: &Vec<(String, Result<String, String>)>,
    old_id: &str,
    new_id: &Option<String>,
    variable_update: &Vec<(String, String)>,
) -> (r: (Vec<String>, Result<Vec<FtlResource>, String>))
    requires
        rename_reportable(crate::missing::files_view(files@), old_id@, *new_id, updates_view(variable_update@)),
    ensures
        renamed_all(crate::missing::files_view(files@), old_id@, *new_id, updates_view(variable_update@), r),
{
    match rename_files(files, old_id, new_id, variable_update, false) {
        Some(x) => x,
        None => (Vec::new(), Err(String::new())),
    }
}

/// `rename_in_all_files` where every file that gets parsed can have its
/// parser errors reported; nothing where reporting them would fail.
pub fn rename_in_all_files_checked(
    files: &Vec<(String, Result<String, String>)>,
    old_id: &str,
    new_id: &Option<String>,
    variable_update: &Vec<(String, String)>,
) -> (r: Option<(Vec<String>, Result<Vec<FtlResource>, String>)>)
    ensures
        r is None <==> !rename_reportable(crate::missing::files_view(files@), old_id@, *new_id, updates_view(variable_update@)),
        r matches Some(x) ==> renamed_all(crate::missing::files_view(files@), old_id@, *new_id, updates_view(variable_update@), x),
{
    rename_files(files, old_id, new_id, variable_update, true)
}

/// What the command line asks of a renaming.
pub struct Args {
    /// The id of the message to rename.
    pub old_id: String,
    /// Its new id, if it gets one.
    pub new_id: Option<String>,
    /// The variables to rename, `(old, new)`, each old name once.
    pub variable_update: Vec<(String, String)>,
    /// The arguments that name the files: paths of FTL files or of
    /// directories to take the `.ftl` files of; none means the current
    /// directory.
    pub files: Vec<String>,
}

/// The position of the first pair from `i` on with the key; the number of
/// pairs when there is none.
pub open spec fn key_position(ups: Seq<(Seq<char>, Seq<char>)>, key: Seq<char>, i: int) -> int
    decreases ups.len() - i,
{
    if i >= ups.len() {
        ups.len() as int
    } else if ups[i].0 == key {
        i
    } else {
        key_position(ups, key, i + 1)
    }
}

proof fn lemma_key_position(ups: Seq<(Seq<char>, Seq<char>)>, key: Seq<char>, i: int)
    requires
        0 <= i <= ups.len(),
        forall|j: int| 0 <= j < i ==> (#[trigger] ups[j]).0 != key,
    ensures
        key_position(ups, key, 0) == key_position(ups, key, i),
    decreases i,
{
    if i > 0 {
        lemma_key_position(ups, key, i - 1);
    }
}

/// The renamings with `key` mapped to `value`: its pair replaced where the
/// key is already there, appended otherwise.
pub open spec fn with_update(ups: Seq<(Seq<char>, Seq<char>)>, key: Seq<char>, value: Seq<char>) -> Seq<(Seq<char>, Seq<char>)> {
    let k = key_position(ups, key, 0);
    if k < ups.len() {
        ups.update(k, (key, value))
    } else {
        ups.push((key, value))
    }
}

/// The position of the first argument from `i` on that holds no `=`; the
/// number of arguments when there is none.
pub open spec fn first_plain_arg(args: Seq<Seq<char>>, i: int) -> int
    decreases args.len() - i,
{
    if i >= args.len() {
        args.len() as int
    } else if crate::text::split_once(args[i], '=') is None {
        i
    } else {
        first_plain_arg(args, i + 1)
    }
}

/// The renamings that `old=new` arguments ask for, in order, a later one
/// for the same old name replacing the earlier.
pub open spec fn updates_of(args: Seq<Seq<char>>) -> Seq<(Seq<char>, Seq<char>)>
    decreases args.len(),
{
    if args.len() == 0 {
        Seq::empty()
    } else {
        let (key, value) = crate::text::split_once(args.last(), '=')->Some_0;
        with_update(updates_of(args.drop_last()), key, value)
    }
}

/// The views of `(old, new)` pairs of strings.
pub open spec fn pairs_view(v: Seq<(String, String)>) -> Seq<(Seq<char>, Seq<char>)> {
    v.map_values(|p: (String, String)| (p.0@, p.1@))
}

/// What the command line (program name left out) asks: the first argument
/// is the id, `old=new` to rename it; then `old=new` arguments for the
/// variables, up to `--`; the arguments after `--` name the files.
pub open spec fn args_outcome(args: Seq<Seq<char>>) -> Result<(Seq<char>, Option<Seq<char>>, Seq<(Seq<char>, Seq<char>)>, Seq<Seq<char>>), Seq<char>> {
    if args.len() == 0 {
        Err("No argument specified."@)
    } else {
        let (old_id, new_id) = match crate::text::split_once(args[0], '=') {
            Some((a, b)) => (a, Some(b)),
            None => (args[0], None),
        };
        let rest = args.drop_first();
        let p = first_plain_arg(rest, 0);
        if p < rest.len() && rest[p] != "--"@ {
            Err("Invalid arguments."@)
        } else {
            Ok((old_id, new_id, updates_of(rest.take(p)), if p < rest.len() { rest.skip(p + 1) } else { Seq::empty() }))
        }
    }
}

proof fn lemma_first_plain_arg(args: Seq<Seq<char>>, i: int)
    requires
        0 <= i <= args.len(),
        forall|j: int| 0 <= j < i ==> crate::text::split_once(#[trigger] args[j], '=') is Some,
    ensures
        first_plain_arg(args, 0) == first_plain_arg(args, i),
    decreases i,
{
    if i > 0 {
        lemma_first_plain_arg(args, i - 1);
    }
}

/// Records `key` mapped to `value` in the renamings.
fn insert_update(ups: &mut Vec<(String, String)>, key: String, value: String)
    ensures
        pairs_view(final(ups)@) == with_update(pairs_view(old(ups)@), key@, value@),
{
    let ghost pv = pairs_view(ups@);
    let n = ups.len();
    let mut i: usize = 0;
    while i < n
        invariant
            i <= n == ups@.len(),
            pv == pairs_view(ups@),
            *ups == *old(ups),
            forall|j: int| 0 <= j < i ==> (#[trigger] pv[j]).0 != key@,
        decreases n - i,
    {
        assert(pv[i as int].0 == ups@[i as int].0@);
        if str_eq(ups[i].0.as_str(), key.as_str()) {
            proof {
                lemma_key_position(pv, key@, i as int);
            }
            assert(key_position(pv, key@, i as int) == i);
            assert(with_update(pv, key@, value@) == pv.update(i as int, (key@, value@)));
            ups[i] = (key, value);
            assert(pairs_view(ups@) =~= pv.update(i as int, (key@, value@)));
            return;
        }
        i = i + 1;
    }
    proof {
        lemma_key_position(pv, key@, n as int);
    }
    ups.push((key, value));
    assert(pairs_view(ups@) =~= pv.push((key@, value@)));
}

/// Reads the command line of a renaming (program name left out).
#[verifier::loop_isolation(false)]
pub fn parse_args(args: Vec<String>) -> (r: Result<Args, String>)
    ensures
        match r {
            Ok(a) => args_outcome(crate::cli::views(args@)) == Ok::<(Seq<char>, Option<Seq<char>>, Seq<(Seq<char>, Seq<char>)>, Seq<Seq<char>>), Seq<char>>((
                a.old_id@,
                match a.new_id { Some(n) => Some(n@), None => None },
                pairs_view(a.variable_update@),
                crate::cli::views(a.files@),
            )),
            Err(e) => args_outcome(crate::cli::views(args@)) == Err::<(Seq<char>, Option<Seq<char>>, Seq<(Seq<char>, Seq<char>)>, Seq<Seq<char>>), Seq<char>>(e@),
        },
        r matches Ok(a) ==> keys_distinct(pairs_view(a.variable_update@)),
{
    let ghost all = crate::cli::views(args@);
    if args.len() == 0 {
        return Err("No argument specified.".to_owned());
    }
    let mut remaining = args;
    let id_arg = remaining.remove(0);
    let ghost rest = all.drop_first();
    assert(crate::cli::views(remaining@) =~= rest);
    let (old_id, new_id) = match split_once_at(id_arg.as_str(), '=') {
        Some((a, b)) => (a, Some(b)),
        None => (id_arg, None),
    };
    let mut variable_update: Vec<(String, String)> = Vec::new();
    let n = remaining.len();
    let mut i: usize = 0;
    let mut stopped = false;
    assert(rest.take(0) =~= Seq::<Seq<char>>::empty());
    while i < n && !stopped
        invariant
            n == remaining@.len() == rest.len(),
            rest == crate::cli::views(remaining@),
            i <= n,
            forall|j: int| 0 <= j < i ==> crate::text::split_once(#[trigger] rest[j], '=') is Some,
            pairs_view(variable_update@) == updates_of(rest.take(i as int)),
            stopped ==> i < n && rest[i as int] == "--"@ && crate::text::split_once(rest[i as int], '=') is None,
        decreases n - i, if stopped { 0int } else { 1int },
    {
        assert(rest.take(i + 1).drop_last() =~= rest.take(i as int));
        assert(rest.take(i + 1).last() == rest[i as int]);
        assert(remaining@[i as int]@ == rest[i as int]);
        match split_once_at(remaining[i].as_str(), '=') {
            Some((a, b)) => {
                insert_update(&mut variable_update, a, b);
                i = i + 1;
            },
            None => {
                proof {
                    lemma_first_plain_arg(rest, i as int);
                    reveal_strlit("--");
                }
                if !str_eq(remaining[i].as_str(), "--") {
                    assert(first_plain_arg(rest, 0) == i);
                    return Err("Invalid arguments.".to_owned());
                }
                stopped = true;
            },
        }
    }
    proof {
        lemma_first_plain_arg(rest, i as int);
    }
    let files = if stopped {
        let tail = remaining;
        let mut files: Vec<String> = Vec::new();
        let mut j: usize = i + 1;
        while j < n
            invariant
                i < n,
                j <= n,
                i + 1 <= j,
                n == tail@.len(),
                rest == crate::cli::views(tail@),
                crate::cli::views(files@) == rest.subrange(i + 1, j as int),
            decreases n - j,
        {
            assert(tail@[j as int]@ == rest[j as int]);
            let ghost before = files@;
            files.push(tail[j].clone());
            assert forall|k: int| 0 <= k < files@.len() implies #[trigger] crate::cli::views(files@)[k] == rest.subrange(i + 1, j + 1)[k] by {
                if k < before.len() {
                    assert(crate::cli::views(before)[k] == rest.subrange(i + 1, j as int)[k]);
                }
            }
            assert(crate::cli::views(files@) =~= rest.subrange(i + 1, j + 1));
            j = j + 1;
        }
        assert(rest.subrange(i + 1, n as int) =~= rest.skip(i + 1));
        files
    } else {
        Vec::new()
    };
    assert(crate::cli::views(files@) =~= (if i < n { rest.skip(i + 1) } else { Seq::<Seq<char>>::empty() }));
    proof {
        lemma_updates_distinct(rest.take(first_plain_arg(rest, 0)));
    }
    Ok(Args { old_id, new_id, variable_update, files })
}

proof fn lemma_renamed_element_placement(a: FtlElement, b: FtlElement, old: Seq<char>, new: String)
    requires
        renamed_element(a, b, old, new),
    ensures
        placed_variable(b) == (if placed_variable(a) == Some(old) { Some(new@) } else { placed_variable(a) }),
{
}

/// Renaming a variable in a pattern moves every place where the pattern
/// places it to the new name and leaves the other places: afterwards the
/// new name is placed exactly where the old or the new one was, and the
/// old one, if different, is placed nowhere.
pub proof fn lemma_rename_moves_placements(a: FtlPattern, b: FtlPattern, old: Seq<char>, new: String)
    requires
        renamed_pattern(a, b, old, new),
    ensures
        pattern_has_variable(b, new@) <==> (pattern_has_variable(a, old) || pattern_has_variable(a, new@)),
        old != new@ ==> !pattern_has_variable(b, old),
        forall|v: Seq<char>| v != old && v != new@ ==> (pattern_has_variable(b, v) <==> pattern_has_variable(a, v)),
{
    assert forall|i: int| 0 <= i < a.elements@.len() implies #[trigger] placed_variable(b.elements@[i])
        == (if placed_variable(a.elements@[i]) == Some(old) { Some(new@) } else { placed_variable(a.elements@[i]) }) by {
        lemma_renamed_element_placement(a.elements@[i], b.elements@[i], old, new);
    }
    if pattern_has_variable(a, old) {
        let i = choose|i: int| 0 <= i < a.elements@.len() && #[trigger] placed_variable(a.elements@[i]) == Some(old);
        assert(placed_variable(b.elements@[i]) == Some(new@));
    }
    if pattern_has_variable(a, new@) {
        let i = choose|i: int| 0 <= i < a.elements@.len() && #[trigger] placed_variable(a.elements@[i]) == Some(new@);
        assert(placed_variable(b.elements@[i]) == Some(new@));
    }
    if pattern_has_variable(b, new@) {
        let i = choose|i: int| 0 <= i < b.elements@.len() && #[trigger] placed_variable(b.elements@[i]) == Some(new@);
        assert(placed_variable(b.elements@[i]) == Some(new@));
    }
    if old != new@ && pattern_has_variable(b, old) {
        let i = choose|i: int| 0 <= i < b.elements@.len() && #[trigger] placed_variable(b.elements@[i]) == Some(old);
        assert(placed_variable(b.elements@[i]) == Some(old));
    }
    assert forall|v: Seq<char>| v != old && v != new@ implies (pattern_has_variable(b, v) <==> pattern_has_variable(a, v)) by {
        if pattern_has_variable(a, v) {
            let i = choose|i: int| 0 <= i < a.elements@.len() && #[trigger] placed_variable(a.elements@[i]) == Some(v);
            assert(placed_variable(b.elements@[i]) == Some(v));
        }
        if pattern_has_variable(b, v) {
            let i = choose|i: int| 0 <= i < b.elements@.len() && #[trigger] placed_variable(b.elements@[i]) == Some(v);
            assert(placed_variable(a.elements@[i]) == Some(v));
        }
    }
}

/// Renaming a message with no new id and no variable to rename changes
/// nothing in it.
pub proof fn lemma_rename_nothing(a: FtlMessage, b: FtlMessage)
    requires
        message_renamed(a, b, None, Seq::empty()),
    ensures
        b.id@ == a.id@,
        b.value == a.value,
        b.attributes == a.attributes,
        b.comment == a.comment,
{
    if a.value is Some {
        let p = a.value->Some_0;
        let q = b.value->Some_0;
        let chain = choose|chain: Seq<FtlPattern>| #[trigger] renaming_chain(chain, Seq::<(Seq<char>, String)>::empty()) && chain[0] == p && chain.last() == q;
        assert(chain.len() == 1);
    }
}

/// Renaming a message in a body gives its new id a message and changes no
/// other id: an id other than the old and the new one has a message after
/// the renaming exactly when it had one before.
pub proof fn lemma_rename_keeps_other_ids(body: Seq<FtlEntry>, b: Seq<FtlEntry>, old_id: Seq<char>, new_id: Option<String>, ups: Seq<(Seq<char>, String)>)
    requires
        body_renamed(body, b, old_id, new_id, ups),
    ensures
        crate::resource::has_message_id(b, match new_id {
            Some(n) => n@,
            None => old_id,
        }),
        forall|x: Seq<char>| x != old_id && (new_id matches Some(n) ==> x != n@)
            ==> (crate::resource::has_message_id(b, x) <==> crate::resource::has_message_id(body, x)),
{
    let k = first_message_from(body, old_id, 0);
    lemma_first_message_is(body, old_id, 0);
    assert(crate::ftl::message_id(b[k]) == Some(match new_id {
        Some(n) => n@,
        None => old_id,
    }));
    assert forall|x: Seq<char>| x != old_id && (new_id matches Some(n) ==> x != n@)
        implies (crate::resource::has_message_id(b, x) <==> crate::resource::has_message_id(body, x)) by {
        if crate::resource::has_message_id(b, x) {
            let i = choose|i: int| 0 <= i < b.len() && #[trigger] crate::ftl::message_id(b[i]) == Some(x);
            assert(i != k);
            assert(crate::ftl::message_id(body[i]) == Some(x));
        }
        if crate::resource::has_message_id(body, x) {
            let i = choose|i: int| 0 <= i < body.len() && #[trigger] crate::ftl::message_id(body[i]) == Some(x);
            assert(i != k);
            assert(crate::ftl::message_id(b[i]) == Some(x));
        }
    }
}

proof fn lemma_first_message_is(body: Seq<FtlEntry>, id: Seq<char>, i: int)
    requires
        0 <= i <= body.len(),
    ensures
        first_message_from(body, id, i) < body.len() ==> crate::ftl::message_id(body[first_message_from(body, id, i)]) == Some(id),
    decreases body.len() - i,
{
    if i < body.len() {
        lemma_first_message_is(body, id, i + 1);
    }
}

/// Every file that renaming in all files gives back is in the canonical
/// layout and holds the same entries as the renamed file, each as often.
pub proof fn lemma_renamed_files_laid_out(
    fs: Seq<(Seq<char>, Result<Seq<char>, Seq<char>>)>,
    old_id: Seq<char>,
    new_id: Option<String>,
    ups: Seq<(Seq<char>, String)>,
    r: (Vec<String>, Result<Vec<FtlResource>, String>),
)
    requires
        renamed_all(fs, old_id, new_id, ups, r),
        r.1 is Ok,
    ensures
        forall|i: int| 0 <= i < r.1->Ok_0@.len() ==> {
            &&& crate::layout::canonical_layout((#[trigger] r.1->Ok_0@[i]).body@)
            &&& exists|b: Seq<FtlEntry>| source_renamed(fs[i].1->Ok_0, b, old_id, new_id, ups)
                && #[trigger] b.to_multiset() == r.1->Ok_0@[i].body@.to_multiset()
        },
{
    let res = r.1->Ok_0;
    assert forall|i: int| 0 <= i < res@.len() implies {
        &&& crate::layout::canonical_layout((#[trigger] res@[i]).body@)
        &&& exists|b: Seq<FtlEntry>| source_renamed(fs[i].1->Ok_0, b, old_id, new_id, ups)
            && #[trigger] b.to_multiset() == res@[i].body@.to_multiset()
    } by {
        assert(file_result(fs[i], old_id, new_id, ups, res@[i].body@));
        let b = choose|b: Seq<FtlEntry>| #[trigger] source_renamed(fs[i].1->Ok_0, b, old_id, new_id, ups)
            && crate::resource::format_body(b) == Ok::<Seq<FtlEntry>, Seq<char>>(res@[i].body@);
        crate::layout::lemma_format_body(b);
    }
}

/// Whether no old name occurs twice among the renamings.
pub open spec fn keys_distinct(ups: Seq<(Seq<char>, Seq<char>)>) -> bool {
    forall|i: int, j: int| 0 <= i < j < ups.len() ==> (#[trigger] ups[i]).0 != (#[trigger] ups[j]).0
}

proof fn lemma_key_position_facts(ups: Seq<(Seq<char>, Seq<char>)>, key: Seq<char>, i: int)
    requires
        0 <= i <= ups.len(),
    ensures
        i <= key_position(ups, key, i) <= ups.len(),
        key_position(ups, key, i) < ups.len() ==> ups[key_position(ups, key, i)].0 == key,
        key_position(ups, key, i) == ups.len() ==> forall|j: int| i <= j < ups.len() ==> (#[trigger] ups[j]).0 != key,
    decreases ups.len() - i,
{
    if i < ups.len() {
        lemma_key_position_facts(ups, key, i + 1);
    }
}

proof fn lemma_updates_distinct(args: Seq<Seq<char>>)
    ensures
        keys_distinct(updates_of(args)),
    decreases args.len(),
{
    if args.len() > 0 {
        lemma_updates_distinct(args.drop_last());
        let ups = updates_of(args.drop_last());
        let (key, value) = crate::text::split_once(args.last(), '=')->Some_0;
        lemma_key_position_facts(ups, key, 0);
        let k = key_position(ups, key, 0);
        let r = with_update(ups, key, value);
        assert forall|i: int, j: int| 0 <= i < j < r.len() implies (#[trigger] r[i]).0 != (#[trigger] r[j]).0 by {
            if k < ups.len() {
                if i != k && j != k {
                    assert(r[i] == ups[i] && r[j] == ups[j]);
                } else if i == k {
                    assert(r[j] == ups[j]);
                } else {
                    assert(r[i] == ups[i]);
                }
            } else if j < ups.len() {
                assert(r[i] == ups[i] && r[j] == ups[j]);
            } else {
                assert(r[i] == ups[i]);
            }
        }
    }
}

proof fn lemma_first_message_found(body: Seq<FtlEntry>, id: Seq<char>, i: int)
    requires
        0 <= i <= body.len(),
    ensures
        first_message_from(body, id, i) < body.len()
            <==> exists|j: int| i <= j < body.len() && #[trigger] crate::ftl::message_id(body[j]) == Some(id),
    decreases body.len() - i,
{
    if i < body.len() {
        lemma_first_message_found(body, id, i + 1);
        if crate::ftl::message_id(body[i]) == Some(id) {
            assert(exists|j: int| i <= j < body.len() && #[trigger] crate::ftl::message_id(body[j]) == Some(id));
        } else if exists|j: int| i <= j < body.len() && #[trigger] crate::ftl::message_id(body[j]) == Some(id) {
            let j = choose|j: int| i <= j < body.len() && #[trigger] crate::ftl::message_id(body[j]) == Some(id);
            assert(j != i);
        }
    }
}

/// Renaming in an FTL source that parses to `body`, case by case. Without a
/// message with the old id, nothing fails, the file is kept as it is and a
/// warning says so. With one, renaming fails when the new id already has a
/// message (the old id itself among them); otherwise it fails exactly when
/// the renaming of that first message with the old id is refused, and
/// gives the body with that message renamed and every other entry kept.
pub proof fn lemma_rename_in_source(source: Seq<char>, body: Seq<FtlEntry>, path: Seq<char>, old_id: Seq<char>, new_id: Option<String>, ups: Seq<(Seq<char>, String)>, b: Seq<FtlEntry>)
    requires
        crate::resource::parsed_entries(source) == Ok::<Seq<FtlEntry>, Seq<char>>(body),
    ensures
        !crate::resource::has_message_id(body, old_id) ==> {
            &&& file_rename_error(source, path, old_id, new_id, ups) is None
            &&& file_rename_warning(source, path, old_id) == Some(missing_id_warning(path, old_id))
            &&& (source_renamed(source, b, old_id, new_id, ups) <==> b == body)
        },
        crate::resource::has_message_id(body, old_id) && new_id is Some && crate::resource::has_message_id(body, new_id->Some_0@)
            ==> file_rename_error(source, path, old_id, new_id, ups)
                == Some("file "@ + path + ": ID '"@ + new_id->Some_0@ + "' already exists."@),
        crate::resource::has_message_id(body, old_id) && !(new_id is Some && crate::resource::has_message_id(body, new_id->Some_0@)) ==> {
            let k = first_message_from(body, old_id, 0);
            &&& file_rename_warning(source, path, old_id) is None
            &&& 0 <= k < body.len()
            &&& crate::ftl::message_id(body[k]) == Some(old_id)
            &&& (file_rename_error(source, path, old_id, new_id, ups) is None
                <==> message_rename_refusal(body[k]->Message_0, ups) is None)
            &&& (source_renamed(source, b, old_id, new_id, ups) <==> body_renamed(body, b, old_id, new_id, ups))
        },
{
    lemma_first_message_found(body, old_id, 0);
    lemma_first_message_is(body, old_id, 0);
    lemma_first_message_bounds(body, old_id, 0);
}

proof fn lemma_first_message_bounds(body: Seq<FtlEntry>, id: Seq<char>, i: int)
    requires
        0 <= i <= body.len(),
    ensures
        i <= first_message_from(body, id, i) <= body.len(),
    decreases body.len() - i,
{
    if i < body.len() {
        lemma_first_message_bounds(body, id, i + 1);
    }
}

} // verus!
