//! Validation of structured data against rules keyed by field path.
//!
//! Data comes in as a [`value::Value`] tree. Rules are registered per path
//! on a [`Validator`], with optional message overrides per (path, rule name);
//! `Validator::validate` reports, per path, the message of each failing rule.

pub mod field_name;
pub mod register;
pub mod rule;
pub mod value;

pub use register::Validator;
