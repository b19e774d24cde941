//! The bridge to `fluent_syntax`: its syntax types as Verus sees them, the
//! conversion between its syntax tree and the library's model, and its
//! parser and serializer.
use vstd::prelude::*;
use fluent_syntax::ast;
use fluent_syntax::parser::ParserError;
use crate::ftl::{FtlElement, FtlEntry, FtlExpression, FtlInline, FtlMessage, FtlPattern, FtlResource, FtlTerm, FtlVariant, ParseIssue};

verus! {

#[verifier::external_type_specification]
#[verifier::external_body]
#[verifier::reject_recursive_types(S)]
pub struct ExResource<S>(ast::Resource<S>);

#[verifier::external_type_specification]
#[verifier::external_body]
#[verifier::reject_recursive_types(S)]
pub struct ExEntry<S>(ast::Entry<S>);

#[verifier::external_type_specification]
#[verifier::external_body]
#[verifier::reject_recursive_types(S)]
pub struct ExMessage<S>(ast::Message<S>);

#[verifier::external_type_specification]
#[verifier::external_body]
#[verifier::reject_recursive_types(S)]
pub struct ExTerm<S>(ast::Term<S>);

#[verifier::external_type_specification]
#[verifier::external_body]
#[verifier::reject_recursive_types(S)]
pub struct ExComment<S>(ast::Comment<S>);

#[verifier::external_type_specification]
#[verifier::external_body]
#[verifier::reject_recursive_types(S)]
pub struct ExPattern<S>(ast::Pattern<S>);

#[verifier::external_type_specification]
#[verifier::external_body]
#[verifier::reject_recursive_types(S)]
pub struct ExPatternElement<S>(ast::PatternElement<S>);

#[verifier::external_type_specification]
#[verifier::external_body]
#[verifier::reject_recursive_types(S)]
pub struct ExAttribute<S>(ast::Attribute<S>);

#[verifier::external_type_specification]
#[verifier::external_body]
#[verifier::reject_recursive_types(S)]
pub struct ExExpression<S>(ast::Expression<S>);

#[verifier::external_type_specification]
#[verifier::external_body]
#[verifier::reject_recursive_types(S)]
pub struct ExInlineExpression<S>(ast::InlineExpression<S>);

#[verifier::external_type_specification]
#[verifier::external_body]
#[verifier::reject_recursive_types(S)]
pub struct ExVariant<S>(ast::Variant<S>);

#[verifier::external_type_specification]
#[verifier::external_body]
#[verifier::reject_recursive_types(S)]
pub struct ExVariantKey<S>(ast::VariantKey<S>);

#[verifier::external_type_specification]
#[verifier::external_body]
pub struct ExParserError(ParserError);

// ---------------------------------------------------------------------------
// Conversion from the syntax tree to the model, one node for one node
// ---------------------------------------------------------------------------

/// Converts a `fluent_syntax` resource into the library's model.
#[verifier::external_body]
fn resource_from_syntax(r: ast::Resource<String>) -> FtlResource {
    FtlResource { body: r.body.into_iter().map(entry_from_syntax).collect() }
}

/// Converts a `fluent_syntax` entry into the library's model.
#[verifier::external_body]
fn entry_from_syntax(e: ast::Entry<String>) -> FtlEntry {
    match e {
        ast::Entry::Message(m) => FtlEntry::Message(message_from_syntax(m)),
        ast::Entry::Term(t) => FtlEntry::Term(term_from_syntax(t)),
        ast::Entry::Comment(c) => FtlEntry::Comment(c),
        ast::Entry::GroupComment(c) => FtlEntry::GroupComment(c),
        ast::Entry::ResourceComment(c) => FtlEntry::ResourceComment(c),
        ast::Entry::Junk { content } => FtlEntry::Junk { content },
    }
}

/// Converts a `fluent_syntax` message into the library's model.
#[verifier::external_body]
fn message_from_syntax(m: ast::Message<String>) -> FtlMessage {
    FtlMessage {
        id: m.id.name,
        value: m.value.map(pattern_from_syntax),
        attributes: m.attributes,
        comment: m.comment,
    }
}

/// Converts a `fluent_syntax` term into the library's model.
#[verifier::external_body]
fn term_from_syntax(t: ast::Term<String>) -> FtlTerm {
    FtlTerm { id: t.id.name, value: t.value, attributes: t.attributes, comment: t.comment }
}

/// Converts a `fluent_syntax` pattern into the library's model.
#[verifier::external_body]
fn pattern_from_syntax(p: ast::Pattern<String>) -> FtlPattern {
    FtlPattern { elements: p.elements.into_iter().map(element_from_syntax).collect() }
}

/// Converts a `fluent_syntax` pattern element into the library's model.
#[verifier::external_body]
fn element_from_syntax(e: ast::PatternElement<String>) -> FtlElement {
    match e {
        ast::PatternElement::TextElement { value } => FtlElement::Text(value),
        ast::PatternElement::Placeable { expression } => FtlElement::Placeable(expression_from_syntax(expression)),
    }
}

/// Converts a `fluent_syntax` expression into the library's model.
#[verifier::external_body]
fn expression_from_syntax(e: ast::Expression<String>) -> FtlExpression {
    match e {
        ast::Expression::Select { selector, variants } => FtlExpression::Select {
            selector: inline_from_syntax(selector),
            variants: variants.into_iter().map(variant_from_syntax).collect(),
        },
        ast::Expression::Inline(i) => FtlExpression::Inline(inline_from_syntax(i)),
    }
}

/// Converts a `fluent_syntax` inline expression into the library's model.
#[verifier::external_body]
fn inline_from_syntax(i: ast::InlineExpression<String>) -> FtlInline {
    match i {
        ast::InlineExpression::VariableReference { id } => FtlInline::Variable(id.name),
        other => FtlInline::Other(other),
    }
}

/// Converts a `fluent_syntax` variant into the library's model.
#[verifier::external_body]
fn variant_from_syntax(v: ast::Variant<String>) -> FtlVariant {
    FtlVariant { key: v.key, value: pattern_from_syntax(v.value), default: v.default }
}

/// Converts a `fluent_syntax` parser error into its position and the
/// `Debug` text of its kind.
#[verifier::external_body]
pub(crate) fn issue_from_syntax(e: &ParserError) -> ParseIssue {
    ParseIssue { start: e.pos.start, end: e.pos.end, kind: format!("{:?}", e.kind) }
}

// ---------------------------------------------------------------------------
// Conversion from the model back to the syntax tree
// ---------------------------------------------------------------------------

/// Converts the library's model of a resource into a `fluent_syntax` resource.
#[verifier::external_body]
fn resource_to_syntax(r: &FtlResource) -> ast::Resource<String> {
    ast::Resource { body: r.body.iter().map(entry_to_syntax).collect() }
}

/// Converts the library's model of an entry into a `fluent_syntax` entry.
#[verifier::external_body]
fn entry_to_syntax(e: &FtlEntry) -> ast::Entry<String> {
    match e {
        FtlEntry::Message(m) => ast::Entry::Message(message_to_syntax(m)),
        FtlEntry::Term(t) => ast::Entry::Term(term_to_syntax(t)),
        FtlEntry::Comment(c) => ast::Entry::Comment(c.clone()),
        FtlEntry::GroupComment(c) => ast::Entry::GroupComment(c.clone()),
        FtlEntry::ResourceComment(c) => ast::Entry::ResourceComment(c.clone()),
        FtlEntry::Junk { content } => ast::Entry::Junk { content: content.clone() },
    }
}

/// Converts the library's model of a message into a `fluent_syntax` message.
#[verifier::external_body]
fn message_to_syntax(m: &FtlMessage) -> ast::Message<String> {
    ast::Message {
        id: ast::Identifier { name: m.id.clone() },
        value: m.value.as_ref().map(pattern_to_syntax),
        attributes: m.attributes.clone(),
        comment: m.comment.clone(),
    }
}

/// Converts the library's model of a term into a `fluent_syntax` term.
#[verifier::external_body]
fn term_to_syntax(t: &FtlTerm) -> ast::Term<String> {
    ast::Term {
        id: ast::Identifier { name: t.id.clone() },
        value: t.value.clone(),
        attributes: t.attributes.clone(),
        comment: t.comment.clone(),
    }
}

/// Converts the library's model of a pattern into a `fluent_syntax` pattern.
#[verifier::external_body]
fn pattern_to_syntax(p: &FtlPattern) -> ast::Pattern<String> {
    ast::Pattern { elements: p.elements.iter().map(element_to_syntax).collect() }
}

/// Converts the library's model of a pattern element into a `fluent_syntax` one.
#[verifier::external_body]
fn element_to_syntax(e: &FtlElement) -> ast::PatternElement<String> {
    match e {
        FtlElement::Text(value) => ast::PatternElement::TextElement { value: value.clone() },
        FtlElement::Placeable(x) => ast::PatternElement::Placeable { expression: expression_to_syntax(x) },
    }
}

/// Converts the library's model of an expression into a `fluent_syntax` one.
#[verifier::external_body]
fn expression_to_syntax(e: &FtlExpression) -> ast::Expression<String> {
    match e {
        FtlExpression::Select { selector, variants } => ast::Expression::Select {
            selector: inline_to_syntax(selector),
            variants: variants.iter().map(variant_to_syntax).collect(),
        },
        FtlExpression::Inline(i) => ast::Expression::Inline(inline_to_syntax(i)),
    }
}

/// Converts the library's model of an inline expression into a `fluent_syntax` one.
#[verifier::external_body]
fn inline_to_syntax(i: &FtlInline) -> ast::InlineExpression<String> {
    match i {
        FtlInline::Variable(name) => ast::InlineExpression::VariableReference {
            id: ast::Identifier { name: name.clone() },
        },
        FtlInline::Other(other) => other.clone(),
    }
}

/// Converts the library's model of a variant into a `fluent_syntax` variant.
#[verifier::external_body]
fn variant_to_syntax(v: &FtlVariant) -> ast::Variant<String> {
    ast::Variant { key: v.key.clone(), value: pattern_to_syntax(&v.value), default: v.default }
}

// ---------------------------------------------------------------------------
// Parser and serializer
// ---------------------------------------------------------------------------

/// The entries that `fluent_syntax::parser::parse` finds in an FTL source,
/// and, when it reports errors, those errors.
pub uninterp spec fn ftl_parse(source: Seq<char>) -> Result<Seq<FtlEntry>, (Seq<FtlEntry>, Seq<ParseIssue>)>;

/// The text that `fluent_syntax::serializer::serialize_with_options` writes
/// for a resource with the given entries; junk is written only when asked.
pub uninterp spec fn ftl_serialize(body: Seq<FtlEntry>, with_junk: bool) -> Seq<char>;

/// `fluent_syntax::parser::parse`: reads an FTL source into entries, and
/// also reports the errors met when there are any. The result is named by
/// `ftl_parse`; nothing more is claimed of it.
#[verifier::external_body]
pub(crate) fn parse_ftl(source: &str) -> (r: Result<FtlResource, (FtlResource, Vec<ParseIssue>)>)
    ensures
        match ftl_parse(source@) {
            Ok(body) => r matches Ok(res) && res.body@ == body,
            Err((body, issues)) => r matches Err((res, v)) && res.body@ == body && v@ == issues,
        },
{
    match fluent_syntax::parser::parse(source.to_owned()) {
        Ok(r) => Ok(resource_from_syntax(r)),
        Err((r, errors)) => Err((resource_from_syntax(r), errors.iter().map(issue_from_syntax).collect())),
    }
}

/// `fluent_syntax::serializer::serialize_with_options`: writes a resource as
/// FTL text. The text is named by `ftl_serialize`; nothing more is claimed.
#[verifier::external_body]
pub(crate) fn serialize_ftl(resource: &FtlResource, with_junk: bool) -> (s: String)
    ensures
        s@ == ftl_serialize(resource.body@, with_junk),
{
    let options = fluent_syntax::serializer::Options { with_junk };
    fluent_syntax::serializer::serialize_with_options(&resource_to_syntax(resource), options)
}

} // verus!
