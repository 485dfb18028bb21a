//! A small bibliographic record manager: a keyed record store, a selection
//! pipeline of filter/import commands, and a diacritic-aware text normalizer
//! that backs matching and display.
//!
//! The durable store and the working selection are string-keyed [`table`]s
//! of [`records`]; a command chain ([`commands`]) threads them through a
//! [`session`], pruning the selection with the [`filter`] engine — backed by
//! the [`latex_decoder`] and [`string_cleaner`] normalizers — until a
//! terminal command commits the selection into the store or emits it
//! ([`output`], [`bibtex`]).

pub mod bibtex;
pub mod commands;
pub mod filter;
pub mod latex_decoder;
pub mod output;
pub mod picker;
pub mod records;
pub mod session;
pub mod string_cleaner;
pub mod strutil;
pub mod table;
pub mod value;
