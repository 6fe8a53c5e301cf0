//! IPv4 address ranges and CIDR subnets: conversions between the two
//! descriptions of a block of addresses, merging of sorted ranges, the exact
//! decomposition of a range into aligned subnets, and conversions of single
//! addresses between their text forms.
pub mod convert;
pub mod iprange;
pub mod laws;
pub mod mask;
pub mod merge;
pub mod parse;
pub mod text;
