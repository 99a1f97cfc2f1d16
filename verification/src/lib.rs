//! Bounded, machine-readable access to package and scan data.

pub mod answers;
pub mod bytes;
pub mod catalog;
pub mod dataset;
pub mod error;
pub mod number;
pub mod order;
pub mod page;
pub mod refs;
pub mod reply;
pub mod request;
pub mod rows;
pub mod scan;
pub mod session;
pub mod tag;
pub mod text;
