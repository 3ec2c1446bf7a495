//! IPv4 geolocation over a table of sorted, disjoint address ranges.
//!
//! `address` converts between the dotted-quad text of an address and its
//! 32-bit value; `range` holds the ranges and the ordered search among them;
//! `table` builds the table from comma-separated rows and answers lookups.

pub mod address;
pub mod digits;
pub mod ip_lookup;
pub mod range;
pub mod table;

pub use crate::ip_lookup::{look_up, IpLookup, Looker};
