//! IPv4 subnet calculator.
//!
//! Given an IPv4 address in dotted-quad text form and a prefix length in
//! `[0, 32]`, the library computes the subnet's netmask, wildcard mask,
//! network address, broadcast address, usable host range and host count.
//! Addresses are modelled as 32-bit unsigned integers; parsing and
//! rendering of the dotted-quad text form are verified against a single
//! grammar, so that every address string the library emits parses back to
//! the integer it was rendered from.
pub mod ipv4;
pub mod subnet_calculator;
