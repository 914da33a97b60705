//! Splitting page-addressable documents into chapters.
//!
//! A document is read from its bytes into a table of objects. Its page tree
//! is walked to find the pages in order. For each chapter the pages of its
//! range, together with everything they refer to, are given new numbers
//! and written as a document of their own. A validator reports what is
//! wrong with the structure of a document.
//!
//! The modules whose names end in `laws` hold no code that runs: they
//! state and prove what holds of the others. The laws reach from the bytes
//! to the bytes: what the splitter writes for a chapter is read back as a
//! document with nothing wrong and with the pages of that chapter; every
//! object of it is reached from its root; split again over all of its
//! pages, it is written as it was, byte for byte; cut off within its
//! trailer, it is reported to have no root.

pub mod chapter;
pub mod closure;
pub mod cut_laws;
pub mod document;
pub mod document_laws;
pub mod entries_laws;
pub mod extract;
pub mod fixed_laws;
pub mod indirect;
pub mod laws;
pub mod lexer;
pub mod lexer_laws;
pub mod message;
pub mod names;
pub mod object;
pub mod object_laws;
pub mod order_laws;
pub mod output_laws;
pub mod pages;
pub mod parse_laws;
pub mod reference_laws;
pub mod resplit_laws;
pub mod rewrite;
pub mod splitter;
pub mod subset_laws;
pub mod syntax;
pub mod table;
pub mod table_laws;
pub mod tree_laws;
pub mod validator;
pub mod value_laws;
pub mod writer;
pub mod xref;
