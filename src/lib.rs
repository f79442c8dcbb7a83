//! Parsing and canonical serialization of a simplified stylesheet language:
//! a stylesheet is a sequence of rules, a rule is a selector with a block of
//! declarations, and a declaration is a `name: value` pair that may be flagged
//! `!important`.
//!
//! Each layer has a spec function that states what its parser returns
//! (`parse_declaration`, `parse_list`, `parse_rule`, `parse_rules`) and one
//! that states its canonical text; the executable parsers and serializers are
//! proved to match them, and the round-trip and idempotence laws are proved
//! over them.
pub mod css_declaration;
pub mod css_declaration_list;
pub mod css_rule;
pub mod error;
pub mod helpers;
pub mod stylesheet;

pub use css_declaration::CSSDeclaration;
pub use css_declaration_list::CSSDeclarationList;
pub use css_rule::CSSRule;
pub use error::ParseError;
pub use stylesheet::Stylesheet;
