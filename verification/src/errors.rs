//! Error taxonomy for the codec and the responder.

use vstd::prelude::*;

verus! {

/// Errors raised while decoding wire data or constructing names.
#[derive(Clone, Copy, Debug, PartialEq, Eq, Structural)]
pub enum SimpleDnsError {
    /// Fewer bytes remained than a fixed-size field required.
    InsufficientData,
    /// A numeric wire value did not map to a known closed-enum variant.
    UnrecognizedValue,
    /// A compression pointer was malformed, out of range, or cyclic.
    MalformedPointer,
    /// A name label was empty or longer than 63 octets.
    InvalidLabel,
    /// A name's total encoded length exceeded 255 octets.
    NameTooLong,
}

/// Errors reported by the responder layer.
///
/// The socket variants are produced by the network loop around the
/// library; the `Dns` variant carries a codec error out of the
/// record-registration helpers.
#[derive(Clone, Copy, Debug, PartialEq, Eq, Structural)]
pub enum SimpleMdnsError {
    /// The UDP multicast endpoint could not be created.
    ErrorCreatingUDPSocket,
    /// A receive on the UDP endpoint failed.
    ErrorReadingFromUDPSocket,
    /// A send on the UDP endpoint failed.
    ErrorSendingDNSPacket,
    /// A codec error while building a record to register.
    Dns(SimpleDnsError),
}

} // verus!
