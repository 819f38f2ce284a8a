//! Infers structural type declarations from sample JSON-like values.
//!
//! A sample [`value::Value`] is classified into a [`types::TypeExpression`];
//! on the way a record type is synthesized for every nested object, merged
//! over all the objects of an array, and registered by name in a
//! [`registry::TypeRegistry`]. The registered types are then written out as
//! declarations, in the order in which their names were first registered.
//!
//! - [`naming`]: the name of the type synthesized for a field key.
//! - [`text`]: characters of strings and the alphabetical order on texts.
//! - [`value`]: the sample values and their model.
//! - [`types`]: type expressions, their text, and unions kept in order.
//! - [`registry`]: fields, definitions and the registry of named types.
//! - [`merge`]: the steps by which sample objects are merged into one
//!   table of fields.
//! - [`infer`]: classification and synthesis.
//! - [`emit`]: the text of the declarations.
//! - [`document`]: from a JSON text, or a list of samples, to declarations.
//! - [`registrations`]: classification seen as a sequence of registrations.
//! - [`laws`]: what holds of every merged record and every classification.

pub mod naming;
pub mod text;
pub mod value;
pub mod types;
pub mod registry;
pub mod merge;
pub mod infer;
pub mod emit;
pub mod document;
pub mod registrations;
pub mod laws;
