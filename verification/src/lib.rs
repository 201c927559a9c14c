//! Generators that walk the IPv4 address space, the messages that the
//! scanner's threads exchange, and the rules that decide which addresses
//! are worth a reverse lookup.
pub mod message;
pub mod octets;
pub mod rng;
pub mod generators;
pub mod octet_generators;
pub mod resolv;
pub mod display;
pub mod names;
pub mod signals;
