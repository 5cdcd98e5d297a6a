//! Device-agnostic core of a hardware-wallet interface: compiling textual
//! wallet descriptors into canonical policy templates with deduplicated key
//! lists, deciding wallet-policy registration equality, preparing address
//! requests, reconciling device signature records into a partially-signed
//! transaction, and the bit-exact framing of the simulator transport.
//!
//! Everything here is specified and verified; the device transports
//! themselves live outside this crate and are reached only through the
//! narrow, documented calls in `apdu`.

pub mod address;
pub mod apdu;
pub mod descriptor;
pub mod error;
pub mod keys;
pub mod policy;
pub mod psbt;
