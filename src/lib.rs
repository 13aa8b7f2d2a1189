//! The back end of a table-driven assembler: tokens of the source text, bank
//! layouts, declared names, the fixed-point resolution of symbols and
//! instruction encodings, and the placement of banks in the output image.

pub mod bankdef;
pub mod decls;
pub mod output;
pub mod resolver;
pub mod token;
