//! What holds of inference in general, proved from the definitions.

pub mod alternatives;
pub mod definitions;
pub mod fields;
pub mod normal_form;
pub mod order;
pub mod references;
pub mod samples;
