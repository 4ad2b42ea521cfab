//! A chat-message responder that scans free-form text for physical
//! quantities (length, mass, temperature) written in one measurement
//! system and replies with their equivalents in the paired system.

pub mod conversion;
pub mod decimal;
pub mod laws;
pub mod scan;
pub mod units;
