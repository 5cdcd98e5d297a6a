use vstd::prelude::*;

verus! {

/// Which caller-supplied parameter a validation failure refers to.
#[derive(Clone, Copy, Debug, PartialEq, Eq, Structural)]
pub enum ParamField {
    /// The textual wallet descriptor / policy string.
    Policy,
    /// A key derivation path.
    DerivationPath,
}

/// The precise reason a parameter was rejected, detected before any
/// device interaction takes place.
#[derive(Clone, Copy, Debug, PartialEq, Eq, Structural)]
pub enum ParamIssue {
    /// A `[` opening a key origin has no matching `]`.
    MissingClosingBracket,
    /// The origin's master fingerprint is not exactly four bytes of hex.
    BadFingerprint,
    /// A derivation path component is not a (possibly hardened) child index.
    BadDerivationPath,
    /// The text after a key origin is not a well-formed extended key.
    BadKeyEncoding,
    /// A single-signer taproot path does not split into three hardened
    /// components followed by exactly two unhardened ones.
    WrongTaprootPathShape,
}

/// The error taxonomy of this library. Parameter validation failures are
/// detected locally and fail fast; the remaining variants classify what a
/// device session reported.
#[derive(Debug)]
pub enum Error {
    /// A caller-supplied value is malformed; no device I/O was performed.
    InvalidParameter(ParamField, ParamIssue),
    /// No transport or device could be discovered.
    DeviceNotFound,
    /// An opaque transport or protocol failure, with its raw message.
    Device(Vec<u8>),
    /// The user explicitly rejected the operation on the device.
    UserRefused,
    /// The request needs a previously attached wallet policy, and none is.
    MissingPolicy,
    /// The device returned a signature for an input that does not exist.
    DeviceDidNotSign,
    /// The connected device variant does not offer this capability.
    UnimplementedMethod,
}

} // verus!
