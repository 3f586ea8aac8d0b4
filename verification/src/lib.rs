//! Compares two sets of text records, such as host or address inventories
//! taken at two points in time.
//!
//! A [`dataset::Dataset`] holds the records of one input: trimmed, non-empty
//! lines, each once. [`compare::compare`] gives the five sets that two
//! datasets define. [`order::sort_target_vector`] puts records in display
//! order: those shaped like IPv4 addresses first, by their number, then the
//! others in code point order.

pub mod compare;
pub mod dataset;
pub mod ip;
pub mod line;
pub mod order;
pub mod order_laws;
pub mod set_laws;
pub mod text;
