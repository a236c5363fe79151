//! Builds a table of emoji selection groups from the Unicode emoji data
//! files and drafts a status post with one uniformly chosen emoji.
//!
//! The table builder classifies every fully-qualified emoji sequence into a
//! selection group, so that cosmetic variants (skin tones, role composites,
//! family constellations) collectively count as a single selectable item.
//! The drafter picks one slot uniformly among the groups and the instance's
//! custom emoji and wraps the pick in sentinel shortcodes.

pub mod builder;
pub mod classify;
pub mod draft;
pub mod keys;
pub mod scan;
pub mod table;
