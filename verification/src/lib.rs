//! LL(1) grammar analysis and table-driven predictive parsing, verified with
//! Verus.
//!
//! A grammar is a list of symbols and a list of productions. From it the
//! library computes the nullable symbols and the first, follow and select
//! sets, decides whether the grammar is LL(1), builds the parse table of an
//! LL(1) grammar, and drives a stack-based parser over a run of tokens.
//!
//! The contracts speak of symbols by their names and define the sets by
//! derivations: [`nullable::nullable`], [`first::in_first`],
//! [`follow::in_follow`], [`select::in_select`], [`validate::is_ll1`],
//! [`table::table_of`] and [`driver::parse_of`]. The module [`derivation`]
//! proves that the parser reproduces every leftmost derivation of an LL(1)
//! grammar, the module [`termination`] that every parse by the table of an
//! LL(1) grammar comes to an end.
//!
//! Beside the core stand a reader of grammar text ([`syntax_file_parser`])
//! and a lexer with its tokens ([`lexer`], [`token`]).

pub mod bits;
pub mod chars;
pub mod symbol;
pub mod symbol_list;
pub mod rules;
pub mod nullable;
pub mod first;
pub mod follow;
pub mod select;
pub mod syntax;
pub mod validate;
pub mod table;
pub mod driver;
pub mod derivation;
pub mod termination;
pub mod syntax_file_parser;
pub mod token;
pub mod lexer;
pub mod util;
