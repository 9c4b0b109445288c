//! Format-preserving encryption of concrete formats.

pub mod ccn;
