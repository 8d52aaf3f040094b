//! A small JSON reader, verified with Verus.
//!
//! The library works in two stages: a position-tracking tokenizer classifies
//! each input character into a token, and a recursive-descent parser turns
//! the token sequence into a tree of JSON values, or reports the first
//! grammar violation with its source position. Both stages carry full
//! functional contracts: what they return is pinned, token by token and
//! value by value, to a mathematical model of the scan and of the grammar.
//!
//! Deliberate scope limits: there is no `null` variant and no escape-sequence
//! handling inside strings; a string literal cannot span lines (the parser
//! discards every newline token before parsing begins, so an embedded
//! newline ends the collected string body); and a numeric literal with a
//! decimal point is validated and kept as text rather than converted to a
//! machine float, which keeps the value tree exact and leaves the conversion
//! to the embedding application.
pub mod lex;
pub mod parse;
pub mod text;
pub mod tokenize;
