use vstd::prelude::*;

verus! {

/// Why a CIDR block could not be turned into sampled addresses.
#[derive(Clone, Copy, Debug, PartialEq, Eq, Structural)]
pub enum ParseError {
    /// The text is not of the shape `address/prefix` (exactly one `/`).
    MalformedCidr,
    /// The part before the `/` is not a valid dotted-quad IPv4 address.
    InvalidAddress,
    /// The part after the `/` is not a decimal integer in `[0, 32]`.
    InvalidPrefix,
    /// More addresses were requested than the block contains.
    InsufficientRange,
}

} // verus!
