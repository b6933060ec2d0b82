//! A local vault of time-based one-time-password seeds, kept one record per
//! line in a text file.
//!
//! The library holds the logic: the record codec (structured and legacy line
//! forms), the envelope that protects secrets with a password, the code
//! generator, and the add / remove / update / rename / list / migrate rules
//! that work on the whole text of a store and return the new text. Reading
//! and writing files, prompting and argument handling are left to the caller.

pub mod error;
pub mod text;
pub mod record;
pub mod codec;
pub mod otp;
pub mod crypto;
pub mod store;
pub mod vault;
pub mod listing;
