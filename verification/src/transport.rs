//! The two ends of a transport: what one sends, and what the other takes and
//! answers.

use vstd::prelude::*;
use vstd::slice::*;
use vstd::string::*;

use crate::error::CoapError;
use crate::exchange::{Exchange, ExchangeView};
use crate::message::{
    code_chars, code_to_text, decode, decoding, encode, encoding, is_request_code, path_texts,
    request_view, response_view, wire, Kind, Message, MessageView, CHANGED, MAX_PAYLOAD, POST,
};
use crate::outcomes::{a_reset_says, an_answer_is_read};
use crate::text::{chars_of, decimal, joined, push_decimal};

verus! {

/// `ACK_TIMEOUT`, RFC 7252 section 4.8, in nanoseconds: two seconds.
pub const ACK_TIMEOUT: u128 = 2_000_000_000;

/// How one end of a transport sends and receives. Times are in nanoseconds.
pub struct CoapTransport {
    bind: String,
    code: u8,
    confirmable: bool,
    ack_timeout: u128,
    receive_timeout: Option<u128>,
    next_id: u16,
}

/// One end of a transport as a mathematical value.
#[verifier::ext_equal]
pub struct TransportView {
    /// Where requests are received.
    pub bind: Seq<char>,
    /// The code that requests are sent with.
    pub code: u8,
    /// Whether an acknowledgement of each is awaited.
    pub confirmable: bool,
    /// How long it is awaited before the first retransmission.
    pub ack_timeout: u128,
    /// How long a request is waited for, where there is a limit.
    pub receive_timeout: Option<u128>,
    /// The message id that the next request gets.
    pub next_id: u16,
}

impl View for CoapTransport {
    type V = TransportView;

    closed spec fn view(&self) -> TransportView {
        TransportView {
            bind: self.bind@,
            code: self.code,
            confirmable: self.confirmable,
            ack_timeout: self.ack_timeout,
            receive_timeout: self.receive_timeout,
            next_id: self.next_id,
        }
    }
}

/// The transport that sends confirmable POSTs and receives at `bind`.
pub open spec fn new_transport(bind: Seq<char>) -> TransportView {
    TransportView {
        bind,
        code: POST,
        confirmable: true,
        ack_timeout: ACK_TIMEOUT,
        receive_timeout: None,
        next_id: 1,
    }
}

/// What follows a message id: the next number, and 0 behind the last.
pub open spec fn id_after(id: u16) -> u16 {
    if id == u16::MAX {
        0
    } else {
        (id + 1) as u16
    }
}

/// The address and the path of a target `coap://address/path`, the path being
/// empty where there is no slash behind the address.
pub open spec fn target_parts(target: Seq<char>) -> Option<(Seq<char>, Seq<char>)> {
    if "coap://"@.is_prefix_of(target) {
        let rest = target.skip(7);
        match rest.index_of_first('/') {
            Some(at) => Some((rest.take(at), rest.skip(at + 1))),
            None => Some((rest, Seq::empty())),
        }
    } else {
        None
    }
}

/// The request that `transport` sends next, for `path`, carrying `payload`.
pub open spec fn next_request(
    transport: TransportView,
    path: Seq<char>,
    payload: Seq<u8>,
) -> MessageView {
    request_view(
        if transport.confirmable {
            Kind::Confirmable
        } else {
            Kind::NonConfirmable
        },
        transport.code,
        transport.next_id,
        path,
        payload,
    )
}

/// The exchange with `address` that starts with `datagram`, sent by `transport`.
pub open spec fn opened(
    transport: TransportView,
    address: Seq<char>,
    datagram: Seq<u8>,
) -> ExchangeView {
    ExchangeView {
        address,
        id: transport.next_id,
        datagram,
        confirmable: transport.confirmable,
        timeout: transport.ack_timeout as nat,
        attempt: 0,
    }
}

/// The message that tells a peer that what it sent is not a request.
pub open spec fn reset_view(id: u16) -> MessageView {
    MessageView {
        kind: Kind::Reset,
        code: 0,
        id,
        token: Seq::empty(),
        options: Seq::empty(),
        payload: Seq::empty(),
    }
}

proof fn lemma_reset_fits(id: u16)
    ensures
        encoding(reset_view(id)) == Ok::<Seq<u8>, CoapError>(wire(reset_view(id))),
{
    let reset = reset_view(id);
    reveal_with_fuel(crate::message::options_wire, 1);
    assert(wire(reset).len() == 4);
}

/// The first place of `/` in `chars` from `from` on, or the end.
fn slash_from(chars: &Vec<char>, from: usize) -> (at: usize)
    requires
        from <= chars.len(),
    ensures
        from <= at <= chars.len(),
        at < chars.len() ==> chars@[at as int] == '/',
        forall|k: int| from <= k < at ==> chars@[k] != '/',
{
    let mut at: usize = from;
    while at < chars.len() && chars[at] != '/'
        invariant
            from <= at <= chars.len(),
            forall|k: int| from <= k < at ==> chars@[k] != '/',
        decreases chars.len() - at,
    {
        at = at + 1;
    }
    at
}

/// Whether `chars` starts with `coap://`.
fn has_scheme(chars: &Vec<char>) -> (yes: bool)
    ensures
        yes == "coap://"@.is_prefix_of(chars@),
{
    proof {
        reveal_strlit("coap://");
    }
    let yes: bool = chars.len() >= 7 && chars[0] == 'c' && chars[1] == 'o' && chars[2] == 'a'
        && chars[3] == 'p' && chars[4] == ':' && chars[5] == '/' && chars[6] == '/';
    proof {
        let scheme = "coap://"@;
        if chars.len() >= 7 {
            let front = chars@.subrange(0, 7);
            if yes {
                assert(scheme =~= front);
            }
            if scheme == front {
                assert(scheme[0] == front[0] && scheme[1] == front[1] && scheme[2] == front[2]
                    && scheme[3] == front[3] && scheme[4] == front[4] && scheme[5] == front[5]
                    && scheme[6] == front[6]);
            }
        }
    }
    yes
}

/// The address and the path of a target `coap://address/path`.
pub fn split_target(target: &str) -> (parts: Option<(&str, &str)>)
    ensures
        match parts {
            Some((address, path)) => target_parts(target@) == Some((address@, path@)),
            None => target_parts(target@) is None,
        },
{
    let chars: Vec<char> = chars_of(target);
    if !has_scheme(&chars) {
        return None;
    }
    proof {
        reveal_strlit("coap://");
    }
    let at: usize = slash_from(&chars, 7);
    let address: &str = target.substring_char(7, at);
    let ghost rest = target@.skip(7);
    assert(address@ =~= rest.take(at - 7));
    if at < chars.len() {
        let path: &str = target.substring_char(at + 1, chars.len());
        proof {
            assert(path@ =~= rest.skip(at - 7 + 1));
            assert(rest[at - 7] == '/');
            assert(rest.contains('/'));
            rest.index_of_first_ensures('/');
            let first = rest.index_of_first('/')->0;
            if first < at - 7 {
                assert(rest[first] == chars@[first + 7]);
            }
            assert(first == at - 7);
        }
        Some((address, path))
    } else {
        let path: &str = target.substring_char(at, at);
        proof {
            assert(path@ =~= Seq::empty());
            assert(address@ =~= rest);
            assert(!rest.contains('/')) by {
                assert forall|k: int| 0 <= k < rest.len() implies rest[k] != '/' by {
                    assert(rest[k] == chars@[k + 7]);
                }
            }
            rest.index_of_first_ensures('/');
        }
        Some((address, path))
    }
}

/// What arrived, and where from.
#[derive(Clone, Debug, PartialEq, Eq)]
pub struct Arrived {
    pub origin_uri: String,
    pub bytes: Vec<u8>,
}

/// What arrived, as a mathematical value.
#[verifier::ext_equal]
pub struct ArrivedView {
    pub origin_uri: Seq<char>,
    pub bytes: Seq<u8>,
}

impl View for Arrived {
    type V = ArrivedView;

    open spec fn view(&self) -> ArrivedView {
        ArrivedView { origin_uri: self.origin_uri@, bytes: self.bytes@ }
    }
}

/// One request as it arrived, and who sent it.
#[derive(Clone, Debug)]
pub struct Request {
    pub peer: String,
    pub message: Message,
}

/// A request as a mathematical value.
#[verifier::ext_equal]
pub struct RequestView {
    pub peer: Seq<char>,
    pub message: MessageView,
}

impl View for Request {
    type V = RequestView;

    open spec fn view(&self) -> RequestView {
        RequestView { peer: self.peer@, message: self.message@ }
    }
}

/// The URI of what came from `peer` for `path`, with what the header knew.
pub open spec fn origin(peer: Seq<char>, path: Seq<char>, code: u8, id: u16) -> Seq<char> {
    "coap://"@ + peer + "/"@ + path + "?code="@ + code_chars(code) + "&id="@ + decimal(id as nat)
}

/// The Stream that a request carries.
pub open spec fn arrival(request: RequestView) -> ArrivedView {
    ArrivedView {
        origin_uri: origin(
            request.peer,
            joined(path_texts(request.message)),
            request.message.code,
            request.message.id,
        ),
        bytes: request.message.payload,
    }
}

/// The URI of what came from `peer` for `path`, with what the header knew.
pub fn origin_uri(peer: &str, path: &str, code: u8, id: u16) -> (uri: String)
    ensures
        uri@ == origin(peer@, path@, code, id),
{
    let mut uri: String = "coap://".to_owned();
    uri.append(peer);
    uri.append("/");
    uri.append(path);
    uri.append("?code=");
    uri.append(code_to_text(code).as_str());
    uri.append("&id=");
    push_decimal(&mut uri, id);
    uri
}

impl Request {
    /// The Stream this request carries, its origin from the header.
    #[must_use]
    pub fn arrived(&self) -> (arrived: Arrived)
        ensures
            arrived@ == arrival(self@),
    {
        let path: String = self.message.uri_path();
        Arrived {
            origin_uri: origin_uri(
                self.peer.as_str(),
                path.as_str(),
                self.message.code,
                self.message.id,
            ),
            bytes: slice_to_vec(self.message.payload.as_slice()),
        }
    }
}

/// What is made of a datagram that arrived.
#[derive(Clone, Debug)]
pub enum Incoming {
    /// A request to answer.
    Request(Request),
    /// Something else: what to send back for it, and go on waiting.
    Reset(Vec<u8>),
}

impl CoapTransport {
    /// Bind at `bind`; `0.0.0.0:5683` is the standard port. Sends POST,
    /// confirmable.
    #[must_use]
    pub fn new(bind: &str) -> (transport: Self)
        ensures
            transport@ == new_transport(bind@),
    {
        CoapTransport {
            bind: bind.to_owned(),
            code: POST,
            confirmable: true,
            ack_timeout: ACK_TIMEOUT,
            receive_timeout: None,
            next_id: 1,
        }
    }

    /// Send with `code` - PUT rather than POST, say.
    #[must_use]
    pub fn with_code(self, code: u8) -> (transport: Self)
        ensures
            transport@ == (TransportView { code, ..self@ }),
    {
        CoapTransport { code, ..self }
    }

    /// Send non-confirmable: fire and forget, no acknowledgement awaited.
    #[must_use]
    pub fn non_confirmable(self) -> (transport: Self)
        ensures
            transport@ == (TransportView { confirmable: false, ..self@ }),
    {
        CoapTransport { confirmable: false, ..self }
    }

    /// Wait this long for an acknowledgement before retransmitting.
    #[must_use]
    pub fn acknowledged_within(self, timeout: u128) -> (transport: Self)
        ensures
            transport@ == (TransportView { ack_timeout: timeout, ..self@ }),
    {
        CoapTransport { ack_timeout: timeout, ..self }
    }

    /// Give up waiting for a request after `timeout`.
    #[must_use]
    pub fn timing_out_after(self, timeout: u128) -> (transport: Self)
        ensures
            transport@ == (TransportView { receive_timeout: Some(timeout), ..self@ }),
    {
        CoapTransport { receive_timeout: Some(timeout), ..self }
    }

    /// Where to bind, and how long to wait for a request there.
    #[must_use]
    pub fn bind(&self) -> (binding: (&str, Option<u128>))
        ensures
            binding.0@ == self@.bind,
            binding.1 == self@.receive_timeout,
    {
        (self.bind.as_str(), self.receive_timeout)
    }

    /// How long an acknowledgement is awaited before the first retransmission.
    #[must_use]
    pub fn ack_timeout(&self) -> (timeout: u128)
        ensures
            timeout == self@.ack_timeout,
    {
        self.ack_timeout
    }

    /// What to make of one datagram that came from `peer`. A message that is
    /// not a request is answered with Reset and skipped.
    pub fn receive_one(&self, peer: &str, datagram: &[u8]) -> (out: Result<Incoming, CoapError>)
        ensures
            match decoding(datagram@) {
                Err(error) => out == Err::<Incoming, CoapError>(error),
                Ok(message) => if is_request_code(message.code) {
                    out matches Ok(Incoming::Request(request)) && request@ == (RequestView {
                        peer: peer@,
                        message,
                    })
                } else {
                    out matches Ok(Incoming::Reset(reset)) && reset@ == wire(
                        reset_view(message.id),
                    )
                },
            },
            decoding(datagram@) matches Ok(message) ==> {
                &&& 1 <= message.code <= 31 ==> {
                    &&& out matches Ok(Incoming::Request(request))
                    &&& request.peer@ == peer@
                    &&& request.message@ == message
                }
                &&& message.code == 0 || message.code >= 32 ==> {
                    &&& out matches Ok(Incoming::Reset(reset))
                    &&& reset@.len() == 4
                    &&& reset@[0] == 0x70
                    &&& reset@[1] == 0
                    &&& 256 * reset@[2] + reset@[3] == message.id
                }
            },
    {
        let message: Message = match decode(datagram) {
            Ok(message) => message,
            Err(error) => return Err(error),
        };
        if message.is_request() {
            return Ok(Incoming::Request(Request { peer: peer.to_owned(), message }));
        }
        let reset: Message = Message {
            kind: Kind::Reset,
            code: 0,
            id: message.id,
            token: Vec::new(),
            options: Vec::new(),
            payload: Vec::new(),
        };
        proof {
            assert(reset@ =~= reset_view(message.id));
            lemma_reset_fits(message.id);
            a_reset_says(message.id);
        }
        match encode(&reset) {
            Ok(datagram) => Ok(Incoming::Reset(datagram)),
            Err(error) => Err(error),
        }
    }

    /// The answer to `request` with `code` and `payload`, to be sent to its
    /// peer.
    pub fn respond(&self, request: &Request, code: u8, payload: &[u8]) -> (out: Result<
        Vec<u8>,
        CoapError,
    >)
        ensures
            match out {
                Ok(datagram) => encoding(response_view(request@.message, code, payload@)) == Ok::<
                    Seq<u8>,
                    CoapError,
                >(datagram@),
                Err(error) => encoding(response_view(request@.message, code, payload@)) == Err::<
                    Seq<u8>,
                    CoapError,
                >(error),
            },
            out matches Ok(datagram) ==> decoding(datagram@) matches Ok(answer) && {
                &&& answer.code == code
                &&& answer.payload == payload@
                &&& answer.id == request.message.id
                &&& answer.token == request.message.token@
                &&& answer.options.len() == 0
                &&& answer.kind == Kind::Acknowledgement <==> request.message.kind
                    == Kind::Confirmable
                &&& answer.kind == Kind::NonConfirmable <==> request.message.kind
                    != Kind::Confirmable
            },
    {
        proof {
            an_answer_is_read(request@.message, code, payload@);
        }
        let response: Message = request.message.response(code, payload);
        encode(&response)
    }

    /// The answer to a request that was taken: 2.04 Changed.
    pub fn acknowledge(&self, request: &Request) -> (out: Result<Vec<u8>, CoapError>)
        ensures
            match out {
                Ok(datagram) => encoding(
                    response_view(request@.message, CHANGED, Seq::empty()),
                ) == Ok::<Seq<u8>, CoapError>(datagram@),
                Err(error) => encoding(
                    response_view(request@.message, CHANGED, Seq::empty()),
                ) == Err::<Seq<u8>, CoapError>(error),
            },
            out matches Ok(datagram) ==> decoding(datagram@) matches Ok(answer) && {
                &&& answer.code == 0x44
                &&& answer.payload == Seq::<u8>::empty()
                &&& answer.id == request.message.id
                &&& answer.token == request.message.token@
                &&& answer.options.len() == 0
                &&& answer.kind == Kind::Acknowledgement <==> request.message.kind
                    == Kind::Confirmable
                &&& answer.kind == Kind::NonConfirmable <==> request.message.kind
                    != Kind::Confirmable
            },
    {
        let nothing: Vec<u8> = Vec::new();
        self.respond(request, CHANGED, nothing.as_slice())
    }

    /// One request to `target`, `coap://host:5683/path`, ready to be sent.
    pub fn exchange(&mut self, target: &str, payload: &[u8]) -> (out: Result<Exchange, CoapError>)
        ensures
            payload@.len() > MAX_PAYLOAD ==> {
                &&& out == Err::<Exchange, CoapError>(CoapError::PayloadTooLarge)
                &&& final(self)@ == old(self)@
            },
            payload@.len() <= MAX_PAYLOAD ==> match target_parts(target@) {
                None => {
                    &&& out matches Err(CoapError::NotCoapTarget(refused)) && refused@ == target@
                    &&& final(self)@ == old(self)@
                },
                Some((address, path)) => {
                    &&& final(self)@ == (TransportView {
                        next_id: id_after(old(self)@.next_id),
                        ..old(self)@
                    })
                    &&& match encoding(next_request(old(self)@, path, payload@)) {
                        Err(error) => out == Err::<Exchange, CoapError>(error),
                        Ok(datagram) => out matches Ok(exchange) && exchange@ == opened(
                            old(self)@,
                            address,
                            datagram,
                        ),
                    }
                },
            },
    {
        if payload.len() > MAX_PAYLOAD {
            return Err(CoapError::PayloadTooLarge);
        }
        let (address, path) = match split_target(target) {
            Some(parts) => parts,
            None => return Err(CoapError::NotCoapTarget(target.to_owned())),
        };
        let id: u16 = self.next_id;
        self.next_id = id.wrapping_add(1);
        let kind: Kind = if self.confirmable {
            Kind::Confirmable
        } else {
            Kind::NonConfirmable
        };
        let request: Message = Message::request(kind, self.code, id, path, payload);
        match encode(&request) {
            Ok(datagram) => Ok(
                Exchange::new(address, id, datagram, self.confirmable, self.ack_timeout),
            ),
            Err(error) => Err(error),
        }
    }
}

} // verus!
