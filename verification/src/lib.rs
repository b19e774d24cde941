//! Tools around Fluent translation files and the gettext PO files they replace.
pub mod text;
pub mod po;
pub mod po_convert;
pub mod migrate;
pub mod cli;
pub mod ftl;
pub mod syntax;
pub mod resource;
pub mod layout;
pub mod format;
pub mod missing;
pub mod rename;
pub mod consistency;

pub use cli::{parse_fluent_identifier, parse_fluent_identifiers};
pub use cli::{parse_next_arg, parse_single_file_arg, parse_until_double_minus, parse_usize};
pub use cli::parse_file_args_with_required_file;
pub use po::{get_message_at_line_index, parse_po_file};
pub use resource::{display_parse_error, display_parse_errors, format_resource, get_message_ids};
pub use resource::{is_formatted, parse_str_as_syntax_resource, serialize_resource};
pub use consistency::{display_fluent_errors, make_bundle, parse_as_fluent_resource};
