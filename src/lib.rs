//! Parsing of PKGINFO package metadata: a line-oriented `key = value`
//! format, tokenized into typed lines and folded into a package record.

pub mod package;
pub mod text;
pub mod tokenizer;
pub mod assemble;
pub mod laws;
pub mod canonical;
pub mod rendering;
