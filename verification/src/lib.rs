//! Streams that arrive as CoAP requests. One request is one Stream, the
//! resource path kept beside it.
//!
//! CoAP is HTTP for things that run on a coin cell: the same verbs and
//! status classes, in a four-byte header over UDP on port 5683. A Receive
//! Location takes what constrained devices POST or PUT to it, answering each
//! confirmable request so the device stops retransmitting; a Send Location
//! POSTs a Stream to a resource and waits for the acknowledgement,
//! retransmitting the way RFC 7252 section 4.2 says.
//!
//! This crate holds what is decided and computed: datagrams come in as bytes
//! and go out as bytes, and what to send, to wait for, or to give up on is a
//! value. Whoever owns the sockets does the rest.
//!
//! One message carries at most [`MAX_PAYLOAD`] bytes. Block-wise transfer,
//! RFC 7959, is the layer that splits a larger Stream, and it is not here yet:
//! a payload over the limit is refused and says so. Observe (RFC 7641) and
//! DTLS are likewise later.
//!
//! The origin URI carries what the header knew:
//! `coap://peer/sensors/1?code=0.02&id=4660`.
//!
//! ```text
//! message.rs     the four-byte header, the token, the options, the payload
//! options.rs     the order in which options are sent
//! exchange.rs    one request, from its sending to its end
//! transport.rs   what one end sends, and what the other takes and answers
//! loopback.rs    both ends on one machine: a Stream as POSTs in turn
//! text.rs        characters, digits, and path segments
//! error.rs       what can be wrong
//!
//! layout.rs      what stands where in a datagram, byte by byte
//! round_trip.rs  what reading gives back of what was framed
//! paths.rs       what a path is on its way, and how origins are written
//! outcomes.rs    what comes of each thing that can happen, field by field
//! both_ends.rs   what two ends can count on of each other
//! stream.rs      that a Stream arrives whole
//! ```

pub mod both_ends;
pub mod error;
pub mod exchange;
pub mod layout;
pub mod loopback;
pub mod message;
pub mod options;
pub mod outcomes;
pub mod paths;
pub mod round_trip;
pub mod stream;
pub mod text;
pub mod transport;

pub use error::CoapError;
pub use exchange::{Event, Exchange, Failure, Step, MAX_RETRANSMIT};
pub use loopback::{Gathering, Posts};
pub use message::{Kind, Message, MAX_DATAGRAM, MAX_PAYLOAD};
pub use transport::{Arrived, CoapTransport, Incoming, Request, ACK_TIMEOUT};
