//! Checking translation files against the file of the default language:
//! each must be accepted by `fluent`'s runtime parser and bundle, be in the
//! canonical layout, and define no message that the default file lacks.
use vstd::prelude::*;
use fluent::FluentResource;
use fluent_syntax::ast;
use crate::ftl::ParseIssue;
use crate::text::{contains_str, push_str};

verus! {

#[verifier::external_type_specification]
#[verifier::external_body]
pub struct ExFluentResource(FluentResource);

/// The entries of a `fluent::FluentResource` as the checks see them: a
/// message (`false`) or a term (`true`) with its id; nothing for comments
/// and junk.
pub uninterp spec fn fluent_resource_entries(r: FluentResource) -> Seq<Option<(bool, Seq<char>)>>;

/// The source text that a `fluent::FluentResource` was made from.
pub uninterp spec fn fluent_resource_source(r: FluentResource) -> Seq<char>;

/// What `fluent::FluentResource::try_new` finds in a source with the
/// runtime parser of `fluent_syntax`: the entries, as the checks see them,
/// and the errors it reports.
pub uninterp spec fn fluent_runtime_parse(source: Seq<char>) -> (Seq<Option<(bool, Seq<char>)>>, Seq<ParseIssue>);

/// The views of entries as the checks see them.
pub open spec fn entries_view(v: Seq<Option<(bool, String)>>) -> Seq<Option<(bool, Seq<char>)>> {
    v.map_values(|e: Option<(bool, String)>| match e {
        Some((is_term, id)) => Some((is_term, id@)),
        None => None,
    })
}

/// `fluent::FluentResource::try_new`: parses a source with the runtime
/// parser and keeps it. The resource keeps the source and the entries found
/// (named by `fluent_runtime_parse`); it is refused, together with the
/// errors, exactly when there are errors.
#[verifier::external_body]
fn new_fluent_resource(source: String) -> (r: Result<FluentResource, (FluentResource, Vec<ParseIssue>)>)
    ensures
        match r {
            Ok(res) => {
                &&& fluent_resource_source(res) == source@
                &&& fluent_resource_entries(res) == fluent_runtime_parse(source@).0
                &&& fluent_runtime_parse(source@).1.len() == 0
            },
            Err((res, issues)) => {
                &&& fluent_resource_source(res) == source@
                &&& fluent_resource_entries(res) == fluent_runtime_parse(source@).0
                &&& issues@ == fluent_runtime_parse(source@).1
                &&& issues@.len() > 0
            },
        },
{
    match FluentResource::try_new(source) {
        Ok(r) => Ok(r),
        Err((r, errors)) => Err((r, errors.iter().map(crate::syntax::issue_from_syntax).collect())),
    }
}

/// Converts an entry of the runtime syntax tree into what the checks see
/// of it.
#[verifier::external_body]
fn entry_kind(e: &ast::Entry<&str>) -> Option<(bool, String)> {
    match e {
        ast::Entry::Message(m) => Some((false, m.id.name.to_owned())),
        ast::Entry::Term(t) => Some((true, t.id.name.to_owned())),
        ast::Entry::Comment(_) => None,
        ast::Entry::GroupComment(_) => None,
        ast::Entry::ResourceComment(_) => None,
        ast::Entry::Junk { .. } => None,
    }
}

/// `fluent::FluentResource::entries`: the entries of the resource, in
/// order, as the checks see them.
#[verifier::external_body]
fn resource_entries(r: &FluentResource) -> (v: Vec<Option<(bool, String)>>)
    ensures
        entries_view(v@) == fluent_resource_entries(*r),
{
    r.entries().map(entry_kind).collect()
}

/// `fluent::FluentResource::source`: the text the resource was made from.
#[verifier::external_body]
fn resource_source(r: &FluentResource) -> (s: &str)
    ensures
        s@ == fluent_resource_source(*r),
{
    r.source()
}

/// The text that `fluent` displays for an attempt to override an entry.
pub open spec fn override_text(is_term: bool, id: Seq<char>) -> Seq<char> {
    "Attempt to override an existing "@ + (if is_term { "term"@ } else { "message"@ }) + ": \""@ + id + "\"."@
}

/// Whether the entry is a message or a term with the id.
pub open spec fn has_id(e: Option<(bool, Seq<char>)>, id: Seq<char>) -> bool {
    match e {
        Some((_, x)) => x == id,
        None => false,
    }
}

/// Whether a message or a term among the entries has the id.
pub open spec fn defines_id(entries: Seq<Option<(bool, Seq<char>)>>, id: Seq<char>) -> bool {
    exists|i: int| 0 <= i < entries.len() && #[trigger] has_id(entries[i], id)
}

/// The errors of adding the entries to an empty bundle: for each message or
/// term whose id an earlier message or term has, in order, an attempt to
/// override it.
pub open spec fn override_errors(entries: Seq<Option<(bool, Seq<char>)>>) -> Seq<Seq<char>>
    decreases entries.len(),
{
    if entries.len() == 0 {
        Seq::empty()
    } else {
        let before = override_errors(entries.drop_last());
        match entries.last() {
            Some((is_term, id)) => if defines_id(entries.drop_last(), id) {
                before.push(override_text(is_term, id))
            } else {
                before
            },
            None => before,
        }
    }
}

/// Makes a `fluent::FluentBundle` for the language `en` and adds the
/// resource to it (`FluentBundle::add_resource`), giving the `Display` text
/// of each error it reports. On an empty bundle these are, in order, the
/// attempts to override: a message or term whose id an earlier message or
/// term of the resource has (messages and terms share the ids).
#[verifier::external_body]
fn bundle_errors(r: &FluentResource) -> (errs: Vec<String>)
    ensures
        crate::cli::views(errs@) == override_errors(fluent_resource_entries(*r)),
{
    let lang_id: unic_langid::LanguageIdentifier = "en".parse().unwrap();
    let mut bundle = fluent::FluentBundle::new(vec![lang_id]);
    match bundle.add_resource(r) {
        Ok(()) => Vec::new(),
        Err(errors) => errors.iter().map(|e| format!("{}", e)).collect(),
    }
}

/// Lists errors, one per line.
pub fn display_fluent_errors(errors: &Vec<String>) -> (s: String)
    ensures
        s@ == crate::missing::id_lines(crate::cli::views(errors@)),
{
    let ghost es = crate::cli::views(errors@);
    let mut message = String::new();
    let mut i: usize = 0;
    assert(es.take(0) =~= Seq::<Seq<char>>::empty());
    while i < errors.len()
        invariant
            i <= errors@.len(),
            es == crate::cli::views(errors@),
            message@ == crate::missing::id_lines(es.take(i as int)),
        decreases errors@.len() - i,
    {
        push_str(&mut message, errors[i].as_str());
        push_str(&mut message, "\n");
        assert(es.take(i + 1).drop_last() =~= es.take(i as int));
        i = i + 1;
    }
    assert(es.take(i as int) =~= es);
    message
}

/// Checks that the resource defines each id once, as a bundle of `fluent`
/// requires: the errors of adding it to an empty bundle, one per line.
pub fn make_bundle(resource: &FluentResource) -> (r: Result<(), String>)
    ensures
        match r {
            Ok(()) => override_errors(fluent_resource_entries(*resource)).len() == 0,
            Err(e) => {
                &&& override_errors(fluent_resource_entries(*resource)).len() > 0
                &&& e@ == crate::missing::id_lines(override_errors(fluent_resource_entries(*resource)))
            },
        },
{
    let errors = bundle_errors(resource);
    if errors.len() == 0 {
        Ok(())
    } else {
        Err(display_fluent_errors(&errors))
    }
}

/// Why a resource is not consistent in itself: it defines an id twice, or
/// its source is not in the canonical layout (or cannot be laid out).
/// Nothing when it is consistent.
pub open spec fn internal_error(source: Seq<char>, entries: Seq<Option<(bool, Seq<char>)>>) -> Option<Seq<char>> {
    let errs = override_errors(entries);
    if errs.len() > 0 {
        Some(crate::missing::id_lines(errs))
    } else {
        match crate::resource::formatted_check(source) {
            Err(e) => Some(e),
            Ok(true) => None,
            Ok(false) => Some("File does not conform to expected formatting.\n"@),
        }
    }
}

/// Whether checking a resource in itself can report the parser errors of
/// its source, when it gets that far.
pub open spec fn internal_reportable(source: Seq<char>, entries: Seq<Option<(bool, Seq<char>)>>) -> bool {
    override_errors(entries).len() == 0 ==> crate::resource::parse_reportable(source)
}

/// Checks a resource in itself; with `check`, gives nothing where its
/// parser errors could not be reported.
fn internal_consistency(resource: &FluentResource, check: bool) -> (r: Option<Result<(), String>>)
    requires
        !check ==> internal_reportable(fluent_resource_source(*resource), fluent_resource_entries(*resource)),
    ensures
        r is None <==> !internal_reportable(fluent_resource_source(*resource), fluent_resource_entries(*resource)),
        r matches Some(x) ==> match x {
            Ok(()) => internal_error(fluent_resource_source(*resource), fluent_resource_entries(*resource)) is None,
            Err(e) => internal_error(fluent_resource_source(*resource), fluent_resource_entries(*resource)) == Some(e@),
        },
{
    match make_bundle(resource) {
        Ok(()) => {},
        Err(e) => {
            return Some(Err(e));
        },
    }
    let source = resource_source(resource);
    if check && !crate::resource::parse_is_reportable(source) {
        return None;
    }
    match crate::resource::is_formatted(source) {
        Ok(true) => Some(Ok(())),
        Ok(false) => Some(Err("File does not conform to expected formatting.\n".to_owned())),
        Err(e) => Some(Err(e)),
    }
}

/// The ids of the messages among the entries, each once, in the order of
/// their first appearance.
pub open spec fn runtime_message_ids(entries: Seq<Option<(bool, Seq<char>)>>) -> Seq<Seq<char>>
    decreases entries.len(),
{
    if entries.len() == 0 {
        Seq::empty()
    } else {
        let before = runtime_message_ids(entries.drop_last());
        match entries.last() {
            Some((false, id)) => if before.contains(id) { before } else { before.push(id) },
            _ => before,
        }
    }
}

/// The message ids of a resource, each once, in the order of their first
/// appearance.
pub fn extract_messages(resource: &FluentResource) -> (ids: Vec<String>)
    ensures
        crate::cli::views(ids@) == runtime_message_ids(fluent_resource_entries(*resource)),
        forall|i: int, j: int| 0 <= i < j < ids@.len() ==> (#[trigger] ids@[i])@ != (#[trigger] ids@[j])@,
{
    let entries = resource_entries(resource);
    let ghost es = entries_view(entries@);
    let mut ids: Vec<String> = Vec::new();
    let mut i: usize = 0;
    assert(es.take(0) =~= Seq::<Option<(bool, Seq<char>)>>::empty());
    while i < entries.len()
        invariant
            i <= entries@.len(),
            es == entries_view(entries@),
            crate::cli::views(ids@) == runtime_message_ids(es.take(i as int)),
        decreases entries@.len() - i,
    {
        let ghost vs = crate::cli::views(ids@);
        assert(es.take(i + 1).drop_last() =~= es.take(i as int));
        assert(es.take(i + 1).last() == es[i as int]);
        match &entries[i] {
            Some((false, id)) => {
                let known = contains_str(&ids, id.as_str());
                proof {
                    if known {
                        let k = choose|k: int| 0 <= k < ids@.len() && #[trigger] ids@[k]@ == id@;
                        assert(vs[k] == id@);
                    } else {
                        assert forall|k: int| 0 <= k < vs.len() implies vs[k] != id@ by {
                            assert(ids@[k]@ == vs[k]);
                        }
                    }
                }
                if !known {
                    ids.push(id.clone());
                    assert(crate::cli::views(ids@) =~= vs.push(id@));
                }
            },
            _ => {},
        }
        i = i + 1;
    }
    assert(es.take(i as int) =~= es);
    proof {
        lemma_runtime_ids_distinct(es);
        assert forall|i: int, j: int| 0 <= i < j < ids@.len() implies (#[trigger] ids@[i])@ != (#[trigger] ids@[j])@ by {
            assert(crate::cli::views(ids@)[i] == ids@[i]@);
            assert(crate::cli::views(ids@)[j] == ids@[j]@);
        }
    }
    ids
}

proof fn lemma_runtime_ids_distinct(entries: Seq<Option<(bool, Seq<char>)>>)
    ensures
        runtime_message_ids(entries).no_duplicates(),
    decreases entries.len(),
{
    if entries.len() > 0 {
        lemma_runtime_ids_distinct(entries.drop_last());
        let before = runtime_message_ids(entries.drop_last());
        match entries.last() {
            Some((false, id)) => {
                if !before.contains(id) {
                    let r = before.push(id);
                    assert forall|i: int, j: int| 0 <= i < r.len() && 0 <= j < r.len() && i != j implies r[i] != r[j] by {
                        if i == before.len() {
                            assert(r[j] == before[j]);
                        } else if j == before.len() {
                            assert(r[i] == before[i]);
                        } else {
                            assert(r[i] == before[i] && r[j] == before[j]);
                        }
                    }
                }
            },
            _ => {},
        }
    }
}

/// The ids that are not among the default ones, in order.
pub open spec fn extra_ids(default_ids: Seq<Seq<char>>, ids: Seq<Seq<char>>) -> Seq<Seq<char>>
    decreases ids.len(),
{
    if ids.len() == 0 {
        Seq::empty()
    } else {
        let before = extra_ids(default_ids, ids.drop_last());
        if default_ids.contains(ids.last()) { before } else { before.push(ids.last()) }
    }
}

/// The report on message ids that the default file lacks.
pub open spec fn extra_report(extra: Seq<Seq<char>>) -> Seq<char> {
    "Unexpected message identifiers found:\n"@ + crate::missing::id_lines(extra)
}

/// Checks that every message id of another file is one of the default
/// file's; otherwise lists those that are not, one per line, in the order
/// of `messages_other` (the order of a set's difference, which the
/// standard library leaves open, is here the order of the other file).
/// Each list is a set of ids: no id occurs in it twice.
pub fn check_for_extra_ids(messages_default: &Vec<String>, messages_other: &Vec<String>) -> (r: Result<(), String>)
    requires
        crate::cli::views(messages_default@).no_duplicates(),
        crate::cli::views(messages_other@).no_duplicates(),
    ensures
        ({
            let extra = extra_ids(crate::cli::views(messages_default@), crate::cli::views(messages_other@));
            match r {
                Ok(()) => extra.len() == 0,
                Err(e) => extra.len() > 0 && e@ == extra_report(extra),
            }
        }),
{
    let ghost ds = crate::cli::views(messages_default@);
    let ghost os = crate::cli::views(messages_other@);
    let mut extra: Vec<String> = Vec::new();
    let mut i: usize = 0;
    assert(os.take(0) =~= Seq::<Seq<char>>::empty());
    while i < messages_other.len()
        invariant
            i <= os.len(),
            ds == crate::cli::views(messages_default@),
            os == crate::cli::views(messages_other@),
            crate::cli::views(extra@) == extra_ids(ds, os.take(i as int)),
        decreases os.len() - i,
    {
        let ghost before = crate::cli::views(extra@);
        assert(os.take(i + 1).drop_last() =~= os.take(i as int));
        assert(os.take(i + 1).last() == os[i as int]);
        assert(messages_other@[i as int]@ == os[i as int]);
        let known = contains_str(messages_default, messages_other[i].as_str());
        proof {
            if known {
                let k = choose|k: int| 0 <= k < messages_default@.len() && #[trigger] messages_default@[k]@ == os[i as int];
                assert(ds[k] == os[i as int]);
            } else {
                assert forall|k: int| 0 <= k < ds.len() implies ds[k] != os[i as int] by {
                    assert(messages_default@[k]@ == ds[k]);
                }
            }
        }
        if !known {
            extra.push(messages_other[i].clone());
            assert(crate::cli::views(extra@) =~= before.push(os[i as int]));
        }
        i = i + 1;
    }
    assert(os.take(i as int) =~= os);
    if extra.len() == 0 {
        return Ok(());
    }
    let mut message = "Unexpected message identifiers found:\n".to_owned();
    let ghost head = message@;
    let ghost xs = crate::cli::views(extra@);
    let mut k: usize = 0;
    assert(xs.take(0) =~= Seq::<Seq<char>>::empty());
    while k < extra.len()
        invariant
            k <= extra@.len(),
            xs == crate::cli::views(extra@),
            message@ == head + crate::missing::id_lines(xs.take(k as int)),
        decreases extra@.len() - k,
    {
        push_str(&mut message, extra[k].as_str());
        push_str(&mut message, "\n");
        assert(xs.take(k + 1).drop_last() =~= xs.take(k as int));
        k = k + 1;
    }
    assert(xs.take(k as int) =~= xs);
    Err(message)
}

/// A named resource as the checks see it: its name, source and entries.
pub open spec fn named_view(name: Seq<char>, r: FluentResource) -> (Seq<char>, Seq<char>, Seq<Option<(bool, Seq<char>)>>) {
    (name, fluent_resource_source(r), fluent_resource_entries(r))
}

/// The views of named resources.
pub open spec fn named_resources_view(v: Seq<(String, FluentResource)>) -> Seq<(Seq<char>, Seq<char>, Seq<Option<(bool, Seq<char>)>>)> {
    v.map_values(|p: (String, FluentResource)| named_view(p.0@, p.1))
}

/// An error about the resource with the given name.
pub open spec fn errors_in(name: Seq<char>, e: Seq<char>) -> Seq<char> {
    "Errors in "@ + crate::cli::debug_text(name) + ":\n"@ + e
}

/// Why another resource fails the checks: it is not consistent in itself,
/// or it has messages that the default resource lacks.
pub open spec fn other_error(default_ids: Seq<Seq<char>>, other: (Seq<char>, Seq<char>, Seq<Option<(bool, Seq<char>)>>)) -> Option<Seq<char>> {
    match internal_error(other.1, other.2) {
        Some(e) => Some(errors_in(other.0, e)),
        None => {
            let extra = extra_ids(default_ids, runtime_message_ids(other.2));
            if extra.len() > 0 {
                Some(errors_in(other.0, extra_report(extra)))
            } else {
                None
            }
        },
    }
}

/// The position of the first other resource from `i` on that fails; their
/// number when none does.
pub open spec fn first_failing(default_ids: Seq<Seq<char>>, others: Seq<(Seq<char>, Seq<char>, Seq<Option<(bool, Seq<char>)>>)>, i: int) -> int
    decreases others.len() - i,
{
    if i >= others.len() {
        others.len() as int
    } else if other_error(default_ids, others[i]) is Some {
        i
    } else {
        first_failing(default_ids, others, i + 1)
    }
}

/// What checking the resources gives: the default one must be consistent
/// in itself, then each other one in turn must be too and have only
/// messages the default one has; the first failure is reported.
pub open spec fn resources_outcome(
    default: (Seq<char>, Seq<char>, Seq<Option<(bool, Seq<char>)>>),
    others: Seq<(Seq<char>, Seq<char>, Seq<Option<(bool, Seq<char>)>>)>,
) -> Result<(), Seq<char>> {
    match internal_error(default.1, default.2) {
        Some(e) => Err(errors_in(default.0, e)),
        None => {
            let k = first_failing(runtime_message_ids(default.2), others, 0);
            if k < others.len() {
                Err(other_error(runtime_message_ids(default.2), others[k])->Some_0)
            } else {
                Ok(())
            }
        },
    }
}

/// Whether each resource that the checks reach can have the parser errors
/// of its source reported.
pub open spec fn resources_reportable(
    default: (Seq<char>, Seq<char>, Seq<Option<(bool, Seq<char>)>>),
    others: Seq<(Seq<char>, Seq<char>, Seq<Option<(bool, Seq<char>)>>)>,
) -> bool {
    &&& internal_reportable(default.1, default.2)
    &&& internal_error(default.1, default.2) is None ==> forall|i: int|
        0 <= i < others.len() && i <= first_failing(runtime_message_ids(default.2), others, 0)
            ==> internal_reportable((#[trigger] others[i]).1, others[i].2)
}

proof fn lemma_first_failing_bounds(default_ids: Seq<Seq<char>>, others: Seq<(Seq<char>, Seq<char>, Seq<Option<(bool, Seq<char>)>>)>, i: int)
    requires
        0 <= i <= others.len(),
    ensures
        i <= first_failing(default_ids, others, i) <= others.len(),
    decreases others.len() - i,
{
    if i < others.len() {
        lemma_first_failing_bounds(default_ids, others, i + 1);
    }
}

/// `"Errors in {name:?}:\n{e}"`.
fn error_in(name: &str, e: &str) -> (s: String)
    ensures
        s@ == errors_in(name@, e@),
{
    let mut s = "Errors in ".to_owned();
    let quoted = crate::cli::debug_quoted(name);
    push_str(&mut s, quoted.as_str());
    push_str(&mut s, ":\n");
    push_str(&mut s, e);
    s
}

/// The checks of `check_all_resources`; with `check`, gives nothing where a
/// source's parser errors could not be reported.
#[verifier::loop_isolation(false)]
fn check_resources(default_name: &str, default_resource: &FluentResource, other_resources: &Vec<(String, FluentResource)>, check: bool) -> (r: Option<Result<(), String>>)
    requires
        !check ==> resources_reportable(named_view(default_name@, *default_resource), named_resources_view(other_resources@)),
    ensures
        r is None <==> !resources_reportable(named_view(default_name@, *default_resource), named_resources_view(other_resources@)),
        r matches Some(x) ==> match x {
            Ok(()) => resources_outcome(named_view(default_name@, *default_resource), named_resources_view(other_resources@)) == Ok::<(), Seq<char>>(()),
            Err(e) => resources_outcome(named_view(default_name@, *default_resource), named_resources_view(other_resources@)) == Err::<(), Seq<char>>(e@),
        },
{
    let ghost d = named_view(default_name@, *default_resource);
    let ghost os = named_resources_view(other_resources@);
    match internal_consistency(default_resource, check) {
        None => {
            return None;
        },
        Some(Err(e)) => {
            return Some(Err(error_in(default_name, e.as_str())));
        },
        Some(Ok(())) => {},
    }
    let messages_default = extract_messages(default_resource);
    let ghost ds = runtime_message_ids(d.2);
    let mut i: usize = 0;
    while i < other_resources.len()
        invariant
            i <= os.len(),
            os == named_resources_view(other_resources@),
            crate::cli::views(messages_default@) == ds,
            internal_error(d.1, d.2) is None,
            first_failing(ds, os, 0) == first_failing(ds, os, i as int),
            forall|j: int| 0 <= j < i ==> internal_reportable((#[trigger] os[j]).1, os[j].2),
        decreases os.len() - i,
    {
        proof {
            lemma_first_failing_bounds(ds, os, i as int);
        }
        let (name, res) = &other_resources[i];
        assert(os[i as int] == named_view(name@, *res));
        let consistent = internal_consistency(res, check);
        match consistent {
            None => {
                return None;
            },
            Some(Err(e)) => {
                proof {
                    assert forall|j: int| 0 <= j < os.len() && j <= first_failing(ds, os, 0)
                        implies internal_reportable((#[trigger] os[j]).1, os[j].2) by {
                        if j == i {
                            assert(internal_reportable(os[j].1, os[j].2));
                        }
                    }
                }
                return Some(Err(error_in(name.as_str(), e.as_str())));
            },
            Some(Ok(())) => {},
        }
        let messages_res = extract_messages(res);
        proof {
            lemma_runtime_ids_distinct(d.2);
            lemma_runtime_ids_distinct(os[i as int].2);
        }
        match check_for_extra_ids(&messages_default, &messages_res) {
            Ok(()) => {},
            Err(e) => {
                proof {
                    assert forall|j: int| 0 <= j < os.len() && j <= first_failing(ds, os, 0)
                        implies internal_reportable((#[trigger] os[j]).1, os[j].2) by {
                        if j == i {
                            assert(internal_reportable(os[j].1, os[j].2));
                        }
                    }
                }
                return Some(Err(error_in(name.as_str(), e.as_str())));
            },
        }
        i = i + 1;
    }
    Some(Ok(()))
}

/// Checks the resource of the default language and the others: each must
/// define every id once and be in the canonical layout, and the others must
/// have only messages that the default one has. The first failure is
/// reported, with the `Debug` text of the name of the resource.
pub fn check_all_resources(default_resource: (&str, &FluentResource), other_resources: &Vec<(String, FluentResource)>) -> (r: Result<(), String>)
    requires
        resources_reportable(named_view(default_resource.0@, *default_resource.1), named_resources_view(other_resources@)),
    ensures
        match r {
            Ok(()) => resources_outcome(named_view(default_resource.0@, *default_resource.1), named_resources_view(other_resources@)) == Ok::<(), Seq<char>>(()),
            Err(e) => resources_outcome(named_view(default_resource.0@, *default_resource.1), named_resources_view(other_resources@)) == Err::<(), Seq<char>>(e@),
        },
{
    match check_resources(default_resource.0, default_resource.1, other_resources, false) {
        Some(x) => x,
        None => Err(String::new()),
    }
}

/// `check_all_resources` where every parser error that the checks reach
/// can be reported; nothing where reporting one would fail.
pub fn check_all_resources_checked(default_resource: (&str, &FluentResource), other_resources: &Vec<(String, FluentResource)>) -> (r: Option<Result<(), String>>)
    ensures
        r is None <==> !resources_reportable(named_view(default_resource.0@, *default_resource.1), named_resources_view(other_resources@)),
        r matches Some(x) ==> match x {
            Ok(()) => resources_outcome(named_view(default_resource.0@, *default_resource.1), named_resources_view(other_resources@)) == Ok::<(), Seq<char>>(()),
            Err(e) => resources_outcome(named_view(default_resource.0@, *default_resource.1), named_resources_view(other_resources@)) == Err::<(), Seq<char>>(e@),
        },
{
    check_resources(default_resource.0, default_resource.1, other_resources, true)
}

/// Whether the errors of the runtime parser on a source, if any, can be
/// reported.
pub open spec fn runtime_reportable(source: Seq<char>) -> bool {
    crate::resource::issues_displayable(fluent_runtime_parse(source).1, source)
}

/// The report on the errors of the runtime parser on a source; nothing when
/// there are none.
pub open spec fn runtime_errors(source: Seq<char>) -> Option<Seq<char>> {
    let issues = fluent_runtime_parse(source).1;
    if issues.len() > 0 {
        Some(crate::resource::errors_report(issues, source))
    } else {
        None
    }
}

/// Makes a resource of `fluent` from a source; with `check`, gives nothing
/// where its parser errors could not be reported.
fn parse_fluent(file_content: String, check: bool) -> (r: Option<Result<FluentResource, String>>)
    requires
        !check ==> runtime_reportable(file_content@),
    ensures
        r is None <==> !runtime_reportable(file_content@),
        r matches Some(x) ==> match x {
            Ok(res) => {
                &&& runtime_errors(file_content@) is None
                &&& fluent_resource_source(res) == file_content@
                &&& fluent_resource_entries(res) == fluent_runtime_parse(file_content@).0
            },
            Err(e) => runtime_errors(file_content@) == Some(e@),
        },
{
    let ghost source = file_content@;
    let copy = file_content.clone();
    match new_fluent_resource(file_content) {
        Ok(res) => {
            assert(crate::resource::issues_displayable(fluent_runtime_parse(source).1, source));
            Some(Ok(res))
        },
        Err((_, errors)) => {
            if check && !crate::resource::issues_are_displayable(&errors, copy.as_str()) {
                return None;
            }
            Some(Err(crate::resource::display_parse_errors(errors.as_slice(), copy.as_str())))
        },
    }
}

/// Makes a resource of `fluent` from the content of an FTL file; a content
/// that the runtime parser finds errors in gives the report on them.
pub fn parse_as_fluent_resource(file_content: String) -> (r: Result<FluentResource, String>)
    requires
        runtime_reportable(file_content@),
    ensures
        match r {
            Ok(res) => {
                &&& runtime_errors(file_content@) is None
                &&& fluent_resource_source(res) == file_content@
                &&& fluent_resource_entries(res) == fluent_runtime_parse(file_content@).0
            },
            Err(e) => runtime_errors(file_content@) == Some(e@),
        },
{
    match parse_fluent(file_content, false) {
        Some(x) => x,
        None => Err(String::new()),
    }
}

/// Why a file cannot be made a resource: the error met reading it, or the
/// report on its parser errors.
pub open spec fn content_failure(content: Result<Seq<char>, Seq<char>>) -> Option<Seq<char>> {
    match content {
        Err(e) => Some(e),
        Ok(source) => runtime_errors(source),
    }
}

/// Whether a file, if it was read, can have its parser errors reported.
pub open spec fn content_runtime_reportable(content: Result<Seq<char>, Seq<char>>) -> bool {
    match content {
        Ok(source) => runtime_reportable(source),
        Err(_) => true,
    }
}

/// The position of the first file from `i` on that cannot be made a
/// resource; their number when all can.
pub open spec fn first_unparsed(files: Seq<(Seq<char>, Result<Seq<char>, Seq<char>>)>, i: int) -> int
    decreases files.len() - i,
{
    if i >= files.len() {
        files.len() as int
    } else if content_failure(files[i].1) is Some {
        i
    } else {
        first_unparsed(files, i + 1)
    }
}

/// A file made a resource, as the checks see it: the `Debug` text of its
/// path as its name, its source and its entries.
pub open spec fn parsed_view(path: Seq<char>, source: Seq<char>) -> (Seq<char>, Seq<char>, Seq<Option<(bool, Seq<char>)>>) {
    (crate::cli::path_debug_text(path), source, fluent_runtime_parse(source).0)
}

/// The files made resources, as the checks see them.
pub open spec fn files_parsed_view(files: Seq<(Seq<char>, Result<Seq<char>, Seq<char>>)>) -> Seq<(Seq<char>, Seq<char>, Seq<Option<(bool, Seq<char>)>>)> {
    files.map_values(|f: (Seq<char>, Result<Seq<char>, Seq<char>>)| parsed_view(f.0, f.1->Ok_0))
}

/// What checking the files gives: the first that cannot be made a resource
/// (the default one first), or what checking the resources gives.
pub open spec fn files_outcome(
    default_path: Seq<char>,
    default_content: Result<Seq<char>, Seq<char>>,
    files: Seq<(Seq<char>, Result<Seq<char>, Seq<char>>)>,
) -> Result<(), Seq<char>> {
    match content_failure(default_content) {
        Some(e) => Err(e),
        None => {
            let k = first_unparsed(files, 0);
            if k < files.len() {
                Err(content_failure(files[k].1)->Some_0)
            } else {
                resources_outcome(parsed_view(default_path, default_content->Ok_0), files_parsed_view(files))
            }
        },
    }
}

/// Whether every parser error that checking the files reaches can be
/// reported.
pub open spec fn files_reportable(
    default_path: Seq<char>,
    default_content: Result<Seq<char>, Seq<char>>,
    files: Seq<(Seq<char>, Result<Seq<char>, Seq<char>>)>,
) -> bool {
    &&& content_runtime_reportable(default_content)
    &&& content_failure(default_content) is None ==> {
        &&& forall|i: int| 0 <= i < files.len() && i <= first_unparsed(files, 0)
            ==> content_runtime_reportable((#[trigger] files[i]).1)
        &&& first_unparsed(files, 0) == files.len()
            ==> resources_reportable(parsed_view(default_path, default_content->Ok_0), files_parsed_view(files))
    }
}

proof fn lemma_first_unparsed_bounds(files: Seq<(Seq<char>, Result<Seq<char>, Seq<char>>)>, i: int)
    requires
        0 <= i <= files.len(),
    ensures
        i <= first_unparsed(files, i) <= files.len(),
    decreases files.len() - i,
{
    if i < files.len() {
        lemma_first_unparsed_bounds(files, i + 1);
    }
}

/// The checks of `check_all_resource_files`; with `check`, gives nothing
/// where a parser error could not be reported.
#[verifier::loop_isolation(false)]
fn check_files(default_path: &str, default_content: Result<String, String>, others: &Vec<(String, Result<String, String>)>, check: bool) -> (r: Option<Result<(), String>>)
    requires
        !check ==> files_reportable(default_path@, crate::missing::content_view(default_content), crate::missing::files_view(others@)),
    ensures
        r is None <==> !files_reportable(default_path@, crate::missing::content_view(default_content), crate::missing::files_view(others@)),
        r matches Some(x) ==> match x {
            Ok(()) => files_outcome(default_path@, crate::missing::content_view(default_content), crate::missing::files_view(others@)) == Ok::<(), Seq<char>>(()),
            Err(e) => files_outcome(default_path@, crate::missing::content_view(default_content), crate::missing::files_view(others@)) == Err::<(), Seq<char>>(e@),
        },
{
    let ghost dc = crate::missing::content_view(default_content);
    let ghost fs = crate::missing::files_view(others@);
    let default_text = match default_content {
        Ok(t) => t,
        Err(e) => {
            return Some(Err(e));
        },
    };
    let default_resource = match parse_fluent(default_text, check) {
        None => {
            return None;
        },
        Some(Err(e)) => {
            return Some(Err(e));
        },
        Some(Ok(res)) => res,
    };
    let mut resources: Vec<(String, FluentResource)> = Vec::new();
    let mut i: usize = 0;
    while i < others.len()
        invariant
            i <= fs.len(),
            fs == crate::missing::files_view(others@),
            content_failure(dc) is None,
            first_unparsed(fs, 0) == first_unparsed(fs, i as int),
            forall|j: int| 0 <= j < i ==> content_runtime_reportable((#[trigger] fs[j]).1),
            forall|j: int| 0 <= j < i ==> (#[trigger] fs[j]).1 is Ok,
            resources@.len() == i,
            forall|j: int| 0 <= j < i ==> named_view((#[trigger] resources@[j]).0@, resources@[j].1) == parsed_view(fs[j].0, fs[j].1->Ok_0),
        decreases fs.len() - i,
    {
        proof {
            lemma_first_unparsed_bounds(fs, i as int);
        }
        let (path, content) = &others[i];
        assert(fs[i as int].0 == path@);
        let text = match content {
            Ok(t) => t,
            Err(e) => {
                assert(content_failure(fs[i as int].1) == Some(e@));
                proof {
                    assert forall|j: int| 0 <= j < fs.len() && j <= first_unparsed(fs, 0)
                        implies content_runtime_reportable((#[trigger] fs[j]).1) by {
                        if j == i {
                            assert(fs[j].1 == Err::<Seq<char>, Seq<char>>(e@));
                        }
                    }
                }
                return Some(Err(e.clone()));
            },
        };
        assert(fs[i as int].1 == Ok::<Seq<char>, Seq<char>>(text@));
        let res = match parse_fluent(text.clone(), check) {
            None => {
                return None;
            },
            Some(Err(e)) => {
                proof {
                    assert forall|j: int| 0 <= j < fs.len() && j <= first_unparsed(fs, 0)
                        implies content_runtime_reportable((#[trigger] fs[j]).1) by {
                        if j == i {
                            assert(runtime_reportable(text@));
                        }
                    }
                }
                return Some(Err(e));
            },
            Some(Ok(res)) => res,
        };
        let name = crate::cli::debug_path(path.as_str());
        resources.push((name, res));
        i = i + 1;
    }
    proof {
        assert(named_resources_view(resources@) =~= files_parsed_view(fs)) by {
            assert forall|j: int| 0 <= j < fs.len() implies #[trigger] named_resources_view(resources@)[j] == files_parsed_view(fs)[j] by {
                assert(named_view(resources@[j].0@, resources@[j].1) == parsed_view(fs[j].0, fs[j].1->Ok_0));
            }
        }
    }
    let default_name = crate::cli::debug_path(default_path);
    check_resources(default_name.as_str(), &default_resource, &resources, check)
}

/// Checks the file of the default language and the other files: each must
/// be accepted by the runtime parser, define every id once and be in the
/// canonical layout, and the others must have only messages that the
/// default one has. `default_content` is the content of the default file or
/// the error met reading it; each other file comes as its path and its
/// content or the error met reading it. The first failure is reported.
pub fn check_all_resource_files(default_path: &str, default_content: Result<String, String>, others: &Vec<(String, Result<String, String>)>) -> (r: Result<(), String>)
    requires
        files_reportable(default_path@, crate::missing::content_view(default_content), crate::missing::files_view(others@)),
    ensures
        match r {
            Ok(()) => files_outcome(default_path@, crate::missing::content_view(default_content), crate::missing::files_view(others@)) == Ok::<(), Seq<char>>(()),
            Err(e) => files_outcome(default_path@, crate::missing::content_view(default_content), crate::missing::files_view(others@)) == Err::<(), Seq<char>>(e@),
        },
{
    match check_files(default_path, default_content, others, false) {
        Some(x) => x,
        None => Err(String::new()),
    }
}

/// `check_all_resource_files` where every parser error that the checks
/// reach can be reported; nothing where reporting one would fail.
pub fn check_all_resource_files_checked(default_path: &str, default_content: Result<String, String>, others: &Vec<(String, Result<String, String>)>) -> (r: Option<Result<(), String>>)
    ensures
        r is None <==> !files_reportable(default_path@, crate::missing::content_view(default_content), crate::missing::files_view(others@)),
        r matches Some(x) ==> match x {
            Ok(()) => files_outcome(default_path@, crate::missing::content_view(default_content), crate::missing::files_view(others@)) == Ok::<(), Seq<char>>(()),
            Err(e) => files_outcome(default_path@, crate::missing::content_view(default_content), crate::missing::files_view(others@)) == Err::<(), Seq<char>>(e@),
        },
{
    check_files(default_path, default_content, others, true)
}

/// Whether no two messages or terms among the entries share an id.
pub open spec fn ids_distinct(entries: Seq<Option<(bool, Seq<char>)>>) -> bool {
    forall|i: int, j: int| 0 <= i < j < entries.len() && (#[trigger] entries[i]) is Some && (#[trigger] entries[j]) is Some
        ==> entries[i]->Some_0.1 != entries[j]->Some_0.1
}

/// Adding a resource to an empty bundle reports no error exactly when no
/// two of its messages and terms share an id.
pub proof fn lemma_no_override_iff_distinct(entries: Seq<Option<(bool, Seq<char>)>>)
    ensures
        override_errors(entries).len() == 0 <==> ids_distinct(entries),
    decreases entries.len(),
{
    if entries.len() > 0 {
        let init = entries.drop_last();
        lemma_no_override_iff_distinct(init);
        lemma_override_errors_grow(init);
        if ids_distinct(entries) {
            assert(ids_distinct(init)) by {
                assert forall|i: int, j: int| 0 <= i < j < init.len() && (#[trigger] init[i]) is Some && (#[trigger] init[j]) is Some
                    implies init[i]->Some_0.1 != init[j]->Some_0.1 by {
                    assert(init[i] == entries[i] && init[j] == entries[j]);
                }
            }
            match entries.last() {
                Some((t, id)) => {
                    if defines_id(init, id) {
                        let i = choose|i: int| 0 <= i < init.len() && #[trigger] has_id(init[i], id);
                        assert(init[i] == entries[i]);
                        assert(entries[entries.len() - 1] == entries.last());
                        assert(false);
                    }
                },
                None => {},
            }
        } else if override_errors(init).len() == 0 {
            assert(ids_distinct(init));
            let (i, j) = choose|i: int, j: int| 0 <= i < j < entries.len() && (#[trigger] entries[i]) is Some && (#[trigger] entries[j]) is Some
                && entries[i]->Some_0.1 == entries[j]->Some_0.1;
            if j < entries.len() - 1 {
                assert(init[i] == entries[i] && init[j] == entries[j]);
                assert(false);
            } else {
                assert(init[i] == entries[i]);
                assert(has_id(init[i], entries.last()->Some_0.1));
                assert(defines_id(init, entries.last()->Some_0.1));
            }
        }
    }
}

proof fn lemma_override_errors_grow(entries: Seq<Option<(bool, Seq<char>)>>)
    ensures
        override_errors(entries).len() <= entries.len(),
    decreases entries.len(),
{
    if entries.len() > 0 {
        lemma_override_errors_grow(entries.drop_last());
    }
}

/// An id is reported as unexpected exactly when the other file has it and
/// the default file does not.
pub proof fn lemma_extra_ids(default_ids: Seq<Seq<char>>, ids: Seq<Seq<char>>, x: Seq<char>)
    ensures
        extra_ids(default_ids, ids).contains(x) <==> ids.contains(x) && !default_ids.contains(x),
    decreases ids.len(),
{
    if ids.len() > 0 {
        let init = ids.drop_last();
        lemma_extra_ids(default_ids, init, x);
        let before = extra_ids(default_ids, init);
        if ids.contains(x) && !default_ids.contains(x) {
            let k = choose|k: int| 0 <= k < ids.len() && ids[k] == x;
            if k < ids.len() - 1 {
                assert(init[k] == x);
                assert(init.contains(x));
                let m = choose|m: int| 0 <= m < before.len() && before[m] == x;
                if !default_ids.contains(ids.last()) {
                    assert(extra_ids(default_ids, ids)[m] == x);
                }
            } else {
                assert(extra_ids(default_ids, ids) == before.push(x));
                assert(extra_ids(default_ids, ids)[before.len() as int] == x);
            }
        }
        if extra_ids(default_ids, ids).contains(x) {
            let m = choose|m: int| 0 <= m < extra_ids(default_ids, ids).len() && extra_ids(default_ids, ids)[m] == x;
            if m < before.len() {
                assert(before[m] == x);
                assert(before.contains(x));
                let k = choose|k: int| 0 <= k < init.len() && init[k] == x;
                assert(ids[k] == x);
            } else {
                assert(ids[ids.len() - 1] == x);
            }
        }
    }
}

/// Whether a resource passes the checks on itself: adding it to a bundle
/// reports no error (`make_bundle` gives `Ok`) and its source is in the
/// canonical layout (`is_formatted` gives `Ok(true)`).
pub open spec fn resource_passes(source: Seq<char>, entries: Seq<Option<(bool, Seq<char>)>>) -> bool {
    override_errors(entries).len() == 0 && crate::resource::formatted_check(source) == Ok::<bool, Seq<char>>(true)
}

/// Whether every message id of `entries` is a message id of the default
/// entries.
pub open spec fn ids_within(entries: Seq<Option<(bool, Seq<char>)>>, default_entries: Seq<Option<(bool, Seq<char>)>>) -> bool {
    forall|x: Seq<char>| #[trigger] runtime_message_ids(entries).contains(x) ==> runtime_message_ids(default_entries).contains(x)
}

proof fn lemma_internal_iff(source: Seq<char>, entries: Seq<Option<(bool, Seq<char>)>>)
    ensures
        internal_error(source, entries) is None <==> resource_passes(source, entries),
{
    lemma_no_override_iff_distinct(entries);
}

proof fn lemma_other_iff(default_ids: Seq<Seq<char>>, other: (Seq<char>, Seq<char>, Seq<Option<(bool, Seq<char>)>>), default_entries: Seq<Option<(bool, Seq<char>)>>)
    requires
        default_ids == runtime_message_ids(default_entries),
    ensures
        other_error(default_ids, other) is None <==> resource_passes(other.1, other.2) && ids_within(other.2, default_entries),
{
    lemma_internal_iff(other.1, other.2);
    let ids = runtime_message_ids(other.2);
    let extra = extra_ids(default_ids, ids);
    if extra.len() > 0 {
        let x = extra[0];
        assert(extra.contains(x));
        lemma_extra_ids(default_ids, ids, x);
    } else {
        assert forall|x: Seq<char>| #[trigger] ids.contains(x) implies default_ids.contains(x) by {
            lemma_extra_ids(default_ids, ids, x);
        }
    }
}

proof fn lemma_failing_iff(default_ids: Seq<Seq<char>>, others: Seq<(Seq<char>, Seq<char>, Seq<Option<(bool, Seq<char>)>>)>, i: int)
    requires
        0 <= i <= others.len(),
    ensures
        first_failing(default_ids, others, i) == others.len()
            <==> forall|j: int| i <= j < others.len() ==> other_error(default_ids, #[trigger] others[j]) is None,
    decreases others.len() - i,
{
    if i < others.len() {
        lemma_failing_iff(default_ids, others, i + 1);
        lemma_first_failing_bounds(default_ids, others, i + 1);
    }
}

/// Resources pass the checks exactly when each defines every id once and
/// is in the canonical layout, and every message id of another resource is
/// one of the default resource's.
pub proof fn lemma_resources_pass_iff(
    default: (Seq<char>, Seq<char>, Seq<Option<(bool, Seq<char>)>>),
    others: Seq<(Seq<char>, Seq<char>, Seq<Option<(bool, Seq<char>)>>)>,
)
    ensures
        resources_outcome(default, others) == Ok::<(), Seq<char>>(()) <==> {
            &&& resource_passes(default.1, default.2)
            &&& forall|i: int| 0 <= i < others.len() ==> resource_passes((#[trigger] others[i]).1, others[i].2)
                && ids_within(others[i].2, default.2)
        },
{
    let ds = runtime_message_ids(default.2);
    lemma_internal_iff(default.1, default.2);
    lemma_failing_iff(ds, others, 0);
    lemma_first_failing_bounds(ds, others, 0);
    assert forall|i: int| 0 <= i < others.len() implies (other_error(ds, #[trigger] others[i]) is None
        <==> resource_passes(others[i].1, others[i].2) && ids_within(others[i].2, default.2)) by {
        lemma_other_iff(ds, others[i], default.2);
    }
    if resources_outcome(default, others) != Ok::<(), Seq<char>>(()) && resource_passes(default.1, default.2) {
        let k = first_failing(ds, others, 0);
        lemma_first_failing_is(ds, others, 0);
        assert(k < others.len());
        assert(other_error(ds, others[k]) is Some);
    }
}

proof fn lemma_unparsed_iff(files: Seq<(Seq<char>, Result<Seq<char>, Seq<char>>)>, i: int)
    requires
        0 <= i <= files.len(),
    ensures
        first_unparsed(files, i) == files.len()
            <==> forall|j: int| i <= j < files.len() ==> content_failure((#[trigger] files[j]).1) is None,
    decreases files.len() - i,
{
    if i < files.len() {
        lemma_unparsed_iff(files, i + 1);
        lemma_first_unparsed_bounds(files, i + 1);
    }
}

/// Whether a file is read, accepted by the runtime parser, and passes the
/// checks on itself.
pub open spec fn file_passes(content: Result<Seq<char>, Seq<char>>) -> bool {
    &&& content is Ok
    &&& runtime_errors(content->Ok_0) is None
    &&& resource_passes(content->Ok_0, fluent_runtime_parse(content->Ok_0).0)
}

/// Files pass the checks exactly when every file is read and accepted by
/// the runtime parser, defines each id once, and is in the canonical
/// layout, and every message id of another file is one of the default
/// file's.
pub proof fn lemma_files_pass_iff(
    default_path: Seq<char>,
    default_content: Result<Seq<char>, Seq<char>>,
    files: Seq<(Seq<char>, Result<Seq<char>, Seq<char>>)>,
)
    ensures
        files_outcome(default_path, default_content, files) == Ok::<(), Seq<char>>(()) <==> {
            &&& file_passes(default_content)
            &&& forall|i: int| 0 <= i < files.len() ==> file_passes((#[trigger] files[i]).1)
                && ids_within(fluent_runtime_parse(files[i].1->Ok_0).0, fluent_runtime_parse(default_content->Ok_0).0)
        },
{
    lemma_unparsed_iff(files, 0);
    lemma_first_unparsed_bounds(files, 0);
    if content_failure(default_content) is None {
        let d = default_content->Ok_0;
        let others = files_parsed_view(files);
        lemma_resources_pass_iff(parsed_view(default_path, d), others);
        if first_unparsed(files, 0) == files.len() {
            assert forall|i: int| 0 <= i < files.len() implies (file_passes((#[trigger] files[i]).1)
                && ids_within(fluent_runtime_parse(files[i].1->Ok_0).0, fluent_runtime_parse(d).0)
                <==> resource_passes(others[i].1, others[i].2) && ids_within(others[i].2, fluent_runtime_parse(d).0)) by {
                assert(content_failure(files[i].1) is None);
                assert(others[i] == parsed_view(files[i].0, files[i].1->Ok_0));
            }
        } else {
            let k = first_unparsed(files, 0);
            lemma_first_unparsed_is(files, 0);
            assert(content_failure(files[k].1) is Some);
            assert(!file_passes(files[k].1));
        }
    }
}

proof fn lemma_first_failing_is(default_ids: Seq<Seq<char>>, others: Seq<(Seq<char>, Seq<char>, Seq<Option<(bool, Seq<char>)>>)>, i: int)
    requires
        0 <= i <= others.len(),
    ensures
        first_failing(default_ids, others, i) < others.len()
            ==> other_error(default_ids, others[first_failing(default_ids, others, i)]) is Some,
    decreases others.len() - i,
{
    if i < others.len() {
        lemma_first_failing_is(default_ids, others, i + 1);
    }
}

proof fn lemma_first_unparsed_is(files: Seq<(Seq<char>, Result<Seq<char>, Seq<char>>)>, i: int)
    requires
        0 <= i <= files.len(),
    ensures
        first_unparsed(files, i) < files.len() ==> content_failure(files[first_unparsed(files, i)].1) is Some,
    decreases files.len() - i,
{
    if i < files.len() {
        lemma_first_unparsed_is(files, i + 1);
    }
}

} // verus!
