//! What can be wrong with a message, a datagram, or an exchange.

use vstd::prelude::*;
use vstd::string::*;

use crate::message::{code_chars, code_to_text};

verus! {

/// Why a message could not be framed, a datagram not be read, or an exchange
/// not be brought to its end.
#[derive(Clone, Debug, PartialEq, Eq)]
pub enum CoapError {
    /// A message to frame has a token over eight bytes.
    TokenTooLong,
    /// A message to frame has an option value whose length has no encoding.
    OptionValueTooLong,
    /// A message to frame does not fit a datagram.
    MessageTooLarge,
    /// A datagram is shorter than the header, or of another version.
    NotCoap,
    /// A datagram announces a token over eight bytes.
    TokenLengthOverEight,
    /// A datagram ends within its token.
    TokenPastDatagram,
    /// A datagram ends within the extension of an option's delta or length.
    ExtensionPastDatagram,
    /// An extended delta or length is over what an option can have.
    ExtensionTooLarge,
    /// A delta or a length uses the nibble that is reserved.
    ReservedNibble,
    /// The deltas add up to more than an option number can be.
    OptionNumberTooLarge,
    /// A datagram ends within an option's value.
    OptionPastDatagram,
    /// A payload marker is the last byte of its datagram.
    EmptyPayload,
    /// A payload to send is over what one message carries.
    PayloadTooLarge,
    /// What was to be sent to is not `coap://host/path`.
    NotCoapTarget(String),
    /// The peer answered with this code, which is of an error class.
    PeerAnswered(u8),
    /// The peer answered with Reset: it will not take the request.
    PeerReset,
    /// The wait for an acknowledgement ran out after the last transmission.
    NotAcknowledged,
}

/// `text` in quotation marks, with what cannot stand between them escaped.
pub uninterp spec fn quoted(text: Seq<char>) -> Seq<char>;

/// Calls `format!` with `{:?}`, that is `str`'s implementation of `Debug`.
/// Claimed of it: what it writes depends on the text alone.
#[verifier::external_body]
fn quote(text: &str) -> (out: String)
    ensures
        out@ == quoted(text@),
{
    format!("{:?}", text)
}

/// What is said of a target that is not one, `quoted_target` being the target
/// in quotation marks.
pub open spec fn not_a_target(quoted_target: Seq<char>) -> Seq<char> {
    quoted_target + " is not coap://host/path"@
}

/// What an error says.
pub open spec fn explanation(error: CoapError) -> Seq<char> {
    match error {
        CoapError::TokenTooLong => "a token over eight bytes"@,
        CoapError::OptionValueTooLong => "an option value over what CoAP can frame"@,
        CoapError::MessageTooLarge => "a message over what a CoAP datagram carries"@,
        CoapError::NotCoap => "a datagram that is not CoAP version 1"@,
        CoapError::TokenLengthOverEight => "a token length over eight"@,
        CoapError::TokenPastDatagram => "a token longer than the datagram"@,
        CoapError::ExtensionPastDatagram => "an option extension past the datagram"@,
        CoapError::ExtensionTooLarge => "an option extension over what CoAP has"@,
        CoapError::ReservedNibble => "the reserved option nibble 15"@,
        CoapError::OptionNumberTooLarge => "an option number over what CoAP has"@,
        CoapError::OptionPastDatagram => "an option that runs past the datagram"@,
        CoapError::EmptyPayload => "a payload marker with no payload"@,
        CoapError::PayloadTooLarge =>
            "a payload over what one CoAP message carries; block-wise transfer is not here"@,
        CoapError::NotCoapTarget(target) => not_a_target(quoted(target@)),
        CoapError::PeerAnswered(code) => "the peer answered "@ + code_chars(code),
        CoapError::PeerReset => "the peer answered Reset"@,
        CoapError::NotAcknowledged => "the peer did not acknowledge after every retransmission"@,
    }
}

/// What is said of a target that is not one, `quoted_target` being the target
/// in quotation marks.
pub fn not_a_target_text(quoted_target: String) -> (out: String)
    ensures
        out@ == not_a_target(quoted_target@),
{
    quoted_target.concat(" is not coap://host/path")
}

impl CoapError {
    /// What the error says.
    #[must_use]
    pub fn message(&self) -> (out: String)
        ensures
            out@ == explanation(*self),
    {
        let fixed: &str = match self {
            CoapError::TokenTooLong => "a token over eight bytes",
            CoapError::OptionValueTooLong => "an option value over what CoAP can frame",
            CoapError::MessageTooLarge => "a message over what a CoAP datagram carries",
            CoapError::NotCoap => "a datagram that is not CoAP version 1",
            CoapError::TokenLengthOverEight => "a token length over eight",
            CoapError::TokenPastDatagram => "a token longer than the datagram",
            CoapError::ExtensionPastDatagram => "an option extension past the datagram",
            CoapError::ExtensionTooLarge => "an option extension over what CoAP has",
            CoapError::ReservedNibble => "the reserved option nibble 15",
            CoapError::OptionNumberTooLarge => "an option number over what CoAP has",
            CoapError::OptionPastDatagram => "an option that runs past the datagram",
            CoapError::EmptyPayload => "a payload marker with no payload",
            CoapError::PayloadTooLarge =>
                "a payload over what one CoAP message carries; block-wise transfer is not here",
            CoapError::NotCoapTarget(target) => {
                return not_a_target_text(quote(target.as_str()));
            },
            CoapError::PeerAnswered(code) => {
                let text: String = "the peer answered ".to_owned();
                return text.concat(code_to_text(*code).as_str());
            },
            CoapError::PeerReset => "the peer answered Reset",
            CoapError::NotAcknowledged => "the peer did not acknowledge after every retransmission",
        };
        fixed.to_owned()
    }

    /// Whether trying again may help: only where no acknowledgement came.
    #[must_use]
    pub fn retryable(&self) -> (yes: bool)
        ensures
            yes == (*self is NotAcknowledged),
    {
        match self {
            CoapError::NotAcknowledged => true,
            _ => false,
        }
    }
}

} // verus!
