//! Makes every word of an EPUB's paragraphs clickable.
//!
//! An EPUB is a zip archive of XHTML documents. Each document of the archive
//! gets a block of script and style, and every word inside its paragraphs is
//! wrapped in an element that calls the script when it is clicked. All
//! other entries of the archive, and everything in a document that lies
//! outside its paragraphs, stay as they are.
//!
//! From the leaves up:
//! - [`text`]: whitespace, and the search for one sequence in another;
//! - [`tokens`]: the tokens of a paragraph's inner text and their rendering;
//! - [`words`]: the words of a text;
//! - [`paragraphs`]: the paragraphs of a document and their rewriting;
//! - [`script`]: the block and its place in a document;
//! - [`html_parser`]: the transformation of one document;
//! - [`entries`]: the entries of an archive and their rewriting;
//! - [`archive`]: the rewriting of an archive, from bytes to bytes.
//!
//! [`word_laws`], [`paragraph_laws`] and [`document_laws`] hold what is
//! proved of the tokenizer, of the rewriting of paragraphs and of the
//! transformation of a document for every input.
//!
//! Documents are sequences of characters, so offsets count characters.
//! Malformed markup is an error that the caller gets, not a panic.

pub mod archive;
pub mod document_laws;
pub mod entries;
pub mod html_parser;
pub mod paragraph_laws;
pub mod paragraphs;
pub mod script;
pub mod text;
pub mod tokens;
pub mod word_laws;
pub mod words;
