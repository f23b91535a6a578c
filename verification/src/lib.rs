//! Declarative settings inheritance for VS Code profiles.
//!
//! A [source](source) has a base of settings, and for every profile what it changes of the
//! base. [Inheritance](inherit) gives the settings of every profile, and VS Code gets them.
//! When settings change in VS Code, [reconciliation](reconcile) takes the changes over into
//! the source, and tells the conflicts where both sides changed. A [migration](migrate) makes
//! a source of the settings that are there.

pub mod answers;
pub mod backend;
pub mod codec;
pub mod decimal;
pub mod draft;
pub mod edits;
pub mod frames;
pub mod fresh;
pub mod hash;
pub mod inherit;
pub mod json;
pub mod laws;
pub mod location;
pub mod messages;
pub mod migrate;
pub mod mutation;
pub mod node;
pub mod outside;
pub mod parse;
pub mod patch;
pub mod place;
pub mod protocol;
pub mod readback;
pub mod reconcile;
pub mod registry;
pub mod remarks;
pub mod rewrite;
pub mod service;
pub mod source;
pub mod storable;
pub mod table;
pub mod text;
pub mod tokens;
pub mod written;
