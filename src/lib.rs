//! Parsing of vocabulary dictionaries for a typing practice application.
//!
//! A dictionary file holds one vocabulary entry per line, written as
//! `DISPLAY:SPELL1,SPELL2,...`. The display side may group several characters
//! with square brackets so that one spelling covers all of them; backslashes
//! escape the separators and the brackets.
use vstd::prelude::*;

pub mod brackets;
pub mod dictionary;
pub mod escape;
pub mod library;
pub mod spelling;
pub mod text;

