//! Compiler-input settings for a standard-JSON Solidity toolchain.
//!
//! The crate owns the `settings` sub-document of a standard-JSON compiler
//! input: the [`settings::Settings`] aggregate, its document serialization
//! rules, and the parser turning textual library-address bindings of the
//! form `file:contract=address` into the nested library association.

pub mod evm_version;
pub mod libraries;
pub mod metadata;
pub mod node;
pub mod optimizer;
pub mod polkavm;
pub mod remappings;
pub mod selection;
pub mod settings;
pub mod str_map;
pub mod text;
