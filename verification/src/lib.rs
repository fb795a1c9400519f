//! Flattening of a hardware register description into a list of uniquely
//! addressed rows, with a persisted selection of the registers and fields
//! that a user has enabled.
//!
//! The input is a parsed peripheral / cluster / register / field graph
//! ([`model::DeviceDef`]). [`tree::build_tree`] resolves the derivation of
//! peripherals ([`names`]), expands arrays ([`array`]), adds up addresses
//! ([`address`]) and resolves references to enumerated values ([`enums`],
//! [`sets`]), and yields the rows in the order of the description.
//! [`selection`] holds the part of a row that changes afterwards (enabled,
//! alias); [`encode`] writes the selection file and [`decode`] reads it.
//!
//! What is proved of the whole: [`unique::lemma_paths_unique`] (no two rows
//! of a well named device share a path), [`forms::lemma_reference_forms_agree`]
//! (the three forms of a reference name one set),
//! [`names::lemma_unknown_base_is_self`] (a peripheral derived from an unknown
//! name keeps its own content), [`registers::lemma_register_address`] (a
//! register stands at the base plus its offset),
//! [`roundtrip::lemma_round_trip`] and
//! [`roundtrip::lemma_replay_restores`] (a selection that is written, read and
//! replayed is the selection that was there), and
//! [`decode::lemma_alias_sentinel`] (the alias `_` is no alias).
pub mod address;
pub mod array;
pub mod clusters;
pub mod decode;
pub mod encode;
pub mod enums;
pub mod fields;
pub mod forms;
pub mod model;
pub mod names;
pub mod paths;
pub mod registers;
pub mod roundtrip;
pub mod rows;
pub mod selection;
pub mod sets;
pub mod text;
pub mod tree;
pub mod unique;
