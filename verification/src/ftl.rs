//! The library's model of a Fluent resource: the parts that the tools read
//! or change are plain values; the rest is carried as `fluent_syntax` syntax
//! nodes that the tools never look into.
use vstd::prelude::*;
use fluent_syntax::ast;

verus! {

/// A parsed FTL file: its entries in order.
pub struct FtlResource {
    pub body: Vec<FtlEntry>,
}

/// One entry of an FTL file.
pub enum FtlEntry {
    Message(FtlMessage),
    Term(FtlTerm),
    /// A standalone `#` comment.
    Comment(ast::Comment<String>),
    /// A `##` group comment.
    GroupComment(ast::Comment<String>),
    /// A `###` resource comment.
    ResourceComment(ast::Comment<String>),
    /// Text the parser could not read.
    Junk { content: String },
}

/// A message: `id = value`, with attributes and an attached comment.
pub struct FtlMessage {
    pub id: String,
    pub value: Option<FtlPattern>,
    pub attributes: Vec<ast::Attribute<String>>,
    pub comment: Option<ast::Comment<String>>,
}

/// A term: `-id = value`, with attributes and an attached comment.
pub struct FtlTerm {
    pub id: String,
    pub value: ast::Pattern<String>,
    pub attributes: Vec<ast::Attribute<String>>,
    pub comment: Option<ast::Comment<String>>,
}

/// The value of a message: text and placeables.
pub struct FtlPattern {
    pub elements: Vec<FtlElement>,
}

/// A piece of a pattern.
pub enum FtlElement {
    Text(String),
    Placeable(FtlExpression),
}

/// The expression inside a placeable.
pub enum FtlExpression {
    /// `{ selector -> [key] value ... }`
    Select { selector: FtlInline, variants: Vec<FtlVariant> },
    Inline(FtlInline),
}

/// An inline expression: a variable reference `$name`, or any other kind.
pub enum FtlInline {
    Variable(String),
    Other(ast::InlineExpression<String>),
}

/// One variant of a select expression.
pub struct FtlVariant {
    pub key: ast::VariantKey<String>,
    pub value: FtlPattern,
    pub default: bool,
}

/// Where the parser met a problem (byte offsets into the source) and what
/// it was (the `Debug` text of the parser's error kind).
pub struct ParseIssue {
    pub start: usize,
    pub end: usize,
    pub kind: String,
}

/// The id of a message entry.
pub open spec fn message_id(e: FtlEntry) -> Option<Seq<char>> {
    match e {
        FtlEntry::Message(m) => Some(m.id@),
        _ => None,
    }
}

impl FtlEntry {
    /// The id of a message or term entry.
    pub open spec fn id_view(&self) -> Seq<char> {
        match self {
            FtlEntry::Message(m) => m.id@,
            FtlEntry::Term(t) => t.id@,
            _ => Seq::empty(),
        }
    }
}

} // verus!
