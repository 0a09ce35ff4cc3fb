//! A command runner's justfiles: recipes, which are named lists of commands, and variables that the
//! commands use.
//!
//! A text is cut into tokens ([`lexer`]), which are parsed ([`parser`], [`file`], [`parse`]). The
//! dependencies of the recipes are resolved ([`resolver`]), and the variables and the lines that
//! use them evaluated ([`evaluator`]). What comes of that is a [`justfile`], which says in which
//! order recipes are run, and each recipe what it has the system do ([`run`]). The modules with
//! names in `_laws` state what holds of all that: what tokens stand in a text ([`lexical_laws`]), which
//! tokens spell which definitions ([`grammar`]), which texts are accepted ([`acceptance_laws`]) and
//! what is reported of the others, and what is run. One of the laws ([`written_laws`]) is that a
//! justfile is read back from what is written of it: [`alike`], [`linked`] and the modules with
//! names in `written` lead up to it.

pub mod acceptance_laws;
pub mod alike;
pub mod check_laws;
pub mod definition_laws;
pub mod error;
pub mod evaluation_laws;
pub mod evaluator;
pub mod evaluator_laws;
pub mod expression;
pub mod fault_laws;
pub mod file;
pub mod grammar;
pub mod grammar_laws;
pub mod graph;
pub mod indent_laws;
pub mod justfile;
pub mod justfile_laws;
pub mod lexer;
pub mod lexical_laws;
pub mod linked;
pub mod message_laws;
pub mod parse;
pub mod parse_laws;
pub mod parser;
pub mod pattern;
pub mod phase_laws;
pub mod place_laws;
pub mod recipe;
pub mod resolver;
pub mod resolver_laws;
pub mod run;
pub mod run_laws;
pub mod table;
pub mod text;
pub mod token;
pub mod token_laws;
pub mod written;
pub mod written_laws;
pub mod written_lexing;
pub mod written_parsing;
pub mod written_shape;
pub mod written_tokens;
