//! Builds the table of coin types from the SLIP-0044 registry document.
//!
//! The registry is a markdown table keyed by registration id. The pipeline
//! reads its rows ([`rows`]), normalizes the display names into identifiers
//! ([`normalize`]), merges the rows that stand for one coin ([`merge`]),
//! tells apart the coins whose names fell together ([`disambiguate`]), puts
//! the ids of every record in order ([`freeze`]), documents the records
//! ([`annotate`]), orders them ([`order`]) and writes the table ([`emit`]).
//! [`table`] runs the whole of it.
//!
//! Every function states what it returns over the mathematical model of its
//! arguments, and the statements are proved. The proofs rest on what is
//! declared, without proof, of five functions from outside: `char::is_numeric`,
//! `char::is_whitespace` and `String::push` in [`text`], `Itertools::join` in
//! [`joining`] and `Itertools::sorted_by_key` in [`order`].

use vstd::prelude::*;

pub mod annotate;
pub mod decimal;
pub mod disambiguate;
pub mod emit;
pub mod freeze;
pub mod ids;
pub mod joining;
pub mod link;
pub mod merge;
pub mod normalize;
pub mod order;
pub mod record;
pub mod rows;
pub mod table;
pub mod text;

verus! {

/// Marker type under which the examples of the README are run as
/// documentation tests.
pub struct ReadmeDoctests;

} // verus!
