//! Decisions of the Service controller.

pub mod status;
