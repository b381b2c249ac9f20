//! Flashcard extraction, identity, and review statistics.
//!
//! The library scans the lines of a text file for `Q:`/`A:`/`C:` marker
//! segments and turns each segment into a [`card::Card`], gives every card a
//! stable content-derived identity, computes a fixed-point forgetting-curve
//! retrievability, and folds per-card review state into a
//! [`stats::CardStats`] aggregate.

pub mod card;
pub mod extract;
pub mod hash;
pub mod recall;
pub mod stats;
pub mod text;
