//! Identifies which known software license a text most closely resembles,
//! and how closely.
//!
//! A text is compared in normalized form: split into lines, case-folded,
//! whitespace collapsed. Its fingerprint is the multiset of its shingles,
//! the pairs of consecutive words. Two texts are as similar as the Dice
//! coefficient of their sets of shingles says. A store holds the known
//! licenses, each with its canonical text, headers and alternate texts, and
//! finds the entry and form that a text resembles most. Where the license is
//! only a part of the text, the optimizer finds the lines that match, and the
//! differ explains how they deviate from the license.
//!
//! The library is verified with Verus. Each function states what it returns
//! as a mathematical function of its arguments, and the laws that hold of
//! those functions are proved beside them. Two calls leave the library and
//! stand behind contracts that are stated and not proved:
//! `difference::Changeset::new` in [`diff`], and `core::str::from_utf8` in
//! [`store::cache`].
//!
//! The modules:
//!
//! - [`text`] normalizes; [`canon`] proves that normalizing is idempotent.
//! - [`fingerprint`] makes fingerprints; [`score`] scores them, as exact
//!   fractions, and proves the score symmetric and between 0 and 1.
//! - [`store`] holds the licenses, searches them, and writes them to bytes
//!   and reads them back; a store read back answers as the store written.
//! - [`optimize`] finds the best-matching lines of a text.
//! - [`diff`] explains a match line by line. The comparison of lines is the
//!   `difference` crate's, whose answer is replayed before it is passed on.
//! - [`order`] orders identifiers, by which ties between scores are broken.

pub mod canon;
pub mod diff;
pub mod fingerprint;
pub mod optimize;
pub mod order;
pub mod score;
pub mod store;
pub mod text;

pub use crate::diff::{diff, DiffKind, DiffRecord};
pub use crate::optimize::optimize;
pub use crate::score::{score, Score, Threshold};
pub use crate::store::analyze::{MatchResult, Variant};
pub use crate::store::base::{LicenseEntry, Store};
pub use crate::store::cache::CacheError;
pub use crate::text::{normalize, LineRange, TextData};
