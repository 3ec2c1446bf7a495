//! The lookup surface in one place.

pub use crate::address::{decimal_to_dotted, ip_string_to_decimal, ip_to_decimal, LookupError};
pub use crate::range::{find_ip_range, IpRange};
pub use crate::table::{build_table, look_up, read_rows, IpLookup, Looker};
