//! A JSON reader and writer: a text is read into a tree of values, and a
//! tree is written back as text, compactly or one item per line.
//!
//! - `ast`: the tree, and the mathematical value it stands for.
//! - `object`: the members of an object, ordered by their keys.
//! - `grammar`: what a text denotes, rule by rule.
//! - `parser`: the reader, which follows the grammar.
//! - `layout`: the text of a value in each mode.
//! - `printer`: the writer, which follows the layout.
//! - `laws`: what holds of reading and writing together, with the lemmas
//!   of `reading` and `embedding` behind it.
//! - `dsl`: values from the data of a program.
//! - `cursor`, `text`: positions in a text, and characters.
pub mod ast;
pub mod cursor;
pub mod dsl;
pub mod embedding;
pub mod grammar;
pub mod laws;
pub mod layout;
pub mod object;
pub mod parser;
pub mod printer;
pub mod reading;
pub mod text;
