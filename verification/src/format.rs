//! Formatting FTL files into the canonical layout, or checking that they
//! are in it.
use vstd::prelude::*;
use crate::resource::{format_resource, is_formatted, parse_is_reportable, parse_str_as_syntax_resource, serialize_resource};
use crate::text::push_str;

verus! {

/// Whether a file is only checked or also rewritten.
#[derive(Clone, Copy, Debug, PartialEq, Eq, Structural)]
pub enum FormattingMode {
    /// Report whether the file is in the canonical layout.
    Check,
    /// Rewrite the file in the canonical layout.
    Rewrite,
}

/// The canonical form of an FTL source: its entries laid out and written
/// out again, or why that cannot be done.
pub open spec fn formatted_text(source: Seq<char>) -> Result<Seq<char>, Seq<char>> {
    match crate::resource::parsed_entries(source) {
        Err(e) => Err(e),
        Ok(body) => match crate::resource::format_body(body) {
            Err(e) => Err(e),
            Ok(f) => Ok(crate::syntax::ftl_serialize(f, true)),
        },
    }
}

/// The canonical form of an FTL source.
pub fn format_text(text: &str) -> (r: Result<String, String>)
    requires
        crate::resource::parse_reportable(text@),
    ensures
        match r {
            Ok(s) => formatted_text(text@) == Ok::<Seq<char>, Seq<char>>(s@),
            Err(e) => formatted_text(text@) == Err::<Seq<char>, Seq<char>>(e@),
        },
{
    let resource = parse_str_as_syntax_resource(text)?;
    let formatted_resource = format_resource(resource)?;
    Ok(serialize_resource(&formatted_resource))
}

/// `format_text` where its parser errors can be reported; nothing where
/// reporting them would fail.
pub fn format_text_checked(text: &str) -> (r: Option<Result<String, String>>)
    ensures
        r is None <==> !crate::resource::parse_reportable(text@),
        r matches Some(res) ==> match res {
            Ok(s) => formatted_text(text@) == Ok::<Seq<char>, Seq<char>>(s@),
            Err(e) => formatted_text(text@) == Err::<Seq<char>, Seq<char>>(e@),
        },
{
    if !parse_is_reportable(text) {
        return None;
    }
    Some(format_text(text))
}

/// What formatting a file decides, given its content and how its path is
/// shown in messages.
pub open spec fn format_path_outcome(content: Seq<char>, path: Seq<char>, mode: FormattingMode) -> Result<Option<Seq<char>>, Seq<char>> {
    match mode {
        FormattingMode::Check => match crate::resource::formatted_check(content) {
            Err(e) => Err(e),
            Ok(true) => Ok(None),
            Ok(false) => Err("Content of "@ + path + " is not formatted correctly."@),
        },
        FormattingMode::Rewrite => match crate::resource::parsed_entries(content) {
            Err(e) => Err("Failed to parse "@ + path + ":\n"@ + e),
            Ok(body) => match crate::resource::format_body(body) {
                Err(e) => Err("File "@ + path + " does not conform to the expected subset of FTL syntax:\n"@ + e),
                Ok(f) => Ok(Some(crate::syntax::ftl_serialize(f, true))),
            },
        },
    }
}

/// Formats the content of a file: in `Check` mode, succeeds when it is in
/// the canonical layout; in `Rewrite` mode, gives the text to write back.
/// `path` is how the file's path is shown in messages.
pub fn format_path(content: &str, path: &str, mode: FormattingMode) -> (r: Result<Option<String>, String>)
    requires
        crate::resource::parse_reportable(content@),
    ensures
        match r {
            Ok(None) => format_path_outcome(content@, path@, mode) == Ok::<Option<Seq<char>>, Seq<char>>(None),
            Ok(Some(s)) => format_path_outcome(content@, path@, mode) == Ok::<Option<Seq<char>>, Seq<char>>(Some(s@)),
            Err(e) => format_path_outcome(content@, path@, mode) == Err::<Option<Seq<char>>, Seq<char>>(e@),
        },
{
    match mode {
        FormattingMode::Check => {
            if is_formatted(content)? {
                Ok(None)
            } else {
                let mut e = "Content of ".to_owned();
                push_str(&mut e, path);
                push_str(&mut e, " is not formatted correctly.");
                Err(e)
            }
        },
        FormattingMode::Rewrite => {
            let resource = match parse_str_as_syntax_resource(content) {
                Ok(r) => r,
                Err(err) => {
                    let mut e = "Failed to parse ".to_owned();
                    push_str(&mut e, path);
                    push_str(&mut e, ":\n");
                    push_str(&mut e, err.as_str());
                    return Err(e);
                },
            };
            let formatted_resource = match format_resource(resource) {
                Ok(r) => r,
                Err(err) => {
                    let mut e = "File ".to_owned();
                    push_str(&mut e, path);
                    push_str(&mut e, " does not conform to the expected subset of FTL syntax:\n");
                    push_str(&mut e, err.as_str());
                    return Err(e);
                },
            };
            Ok(Some(serialize_resource(&formatted_resource)))
        },
    }
}

/// `format_path` where the content's parser errors can be reported; nothing
/// where reporting them would fail.
pub fn format_path_checked(content: &str, path: &str, mode: FormattingMode) -> (r: Option<Result<Option<String>, String>>)
    ensures
        r is None <==> !crate::resource::parse_reportable(content@),
        r matches Some(res) ==> match res {
            Ok(None) => format_path_outcome(content@, path@, mode) == Ok::<Option<Seq<char>>, Seq<char>>(None),
            Ok(Some(s)) => format_path_outcome(content@, path@, mode) == Ok::<Option<Seq<char>>, Seq<char>>(Some(s@)),
            Err(e) => format_path_outcome(content@, path@, mode) == Err::<Option<Seq<char>>, Seq<char>>(e@),
        },
{
    if !parse_is_reportable(content) {
        return None;
    }
    Some(format_path(content, path, mode))
}

/// A source is reported to be in the canonical layout exactly when
/// formatting it gives it back unchanged, and the check fails exactly when
/// formatting fails, with the same error.
pub proof fn lemma_formatted_iff_unchanged(source: Seq<char>)
    ensures
        crate::resource::formatted_check(source) == Ok::<bool, Seq<char>>(true) <==> formatted_text(source) == Ok::<Seq<char>, Seq<char>>(source),
        crate::resource::formatted_check(source) is Err <==> formatted_text(source) is Err,
        crate::resource::formatted_check(source) is Err ==> crate::resource::formatted_check(source)->Err_0 == formatted_text(source)->Err_0,
{
}

/// Checking a file succeeds exactly when rewriting it would write back
/// the same text; checking fails exactly when rewriting fails or would
/// change the text.
pub proof fn lemma_check_vs_rewrite(content: Seq<char>, path: Seq<char>)
    ensures
        format_path_outcome(content, path, FormattingMode::Check) == Ok::<Option<Seq<char>>, Seq<char>>(None)
            <==> format_path_outcome(content, path, FormattingMode::Rewrite) == Ok::<Option<Seq<char>>, Seq<char>>(Some(content)),
        format_path_outcome(content, path, FormattingMode::Check) is Err
            <==> (format_path_outcome(content, path, FormattingMode::Rewrite) is Err
                || format_path_outcome(content, path, FormattingMode::Rewrite) != Ok::<Option<Seq<char>>, Seq<char>>(Some(content))),
        !(format_path_outcome(content, path, FormattingMode::Check) matches Ok(Some(_))),
        format_path_outcome(content, path, FormattingMode::Rewrite) is Ok
            ==> format_path_outcome(content, path, FormattingMode::Rewrite)->Ok_0 is Some,
{
}

} // verus!
