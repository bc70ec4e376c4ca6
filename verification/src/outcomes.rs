//! What comes of each thing that can happen, field by field.

use vstd::prelude::*;

use crate::error::{explanation, quoted, CoapError};
use crate::exchange::{
    can_double, no_answer, stepped, timed_out, Event, EventView, ExchangeView, Failure, Step,
    StepView, LONGEST_TIMEOUT, MAX_RETRANSMIT,
};
use crate::layout::{what_can_be_framed, what_reading_can_say};
use crate::loopback::{byte_views, far_target, LOOPBACK_ACK, REMEMBERED};
use crate::message::{
    decoding, encoding, is_request_code, options_wire, request_view, response_view, wire, Kind,
    Message, MessageView, BAD_REQUEST, CHANGED, CONTENT, CONTENT_FORMAT, CREATED, DELETE, GET,
    MAX_DATAGRAM, MAX_PAYLOAD, PAYLOAD_MARKER, POST, PUT, TOO_LARGE, URI_PATH, URI_QUERY,
};
use crate::options::{in_order, OptionView};
use crate::paths::{a_path_without_slashes, a_written_code};
use crate::round_trip::ordered_messages_round_trip;
use crate::text::views;
use crate::transport::{
    id_after, new_transport, next_request, opened, reset_view, target_parts, Arrived, Request,
    TransportView, ACK_TIMEOUT,
};

verus! {

/// The numbers that RFC 7252 gives, and those that are chosen here.
pub proof fn the_numbers()
    ensures
        MAX_DATAGRAM == 1152,
        MAX_PAYLOAD == 1024,
        URI_PATH == 11,
        CONTENT_FORMAT == 12,
        URI_QUERY == 15,
        GET == 1,
        POST == 2,
        PUT == 3,
        DELETE == 4,
        CREATED == 2 * 32 + 1,
        CHANGED == 2 * 32 + 4,
        CONTENT == 2 * 32 + 5,
        BAD_REQUEST == 4 * 32,
        TOO_LARGE == 4 * 32 + 13,
        PAYLOAD_MARKER == 255,
        MAX_RETRANSMIT == 4,
        ACK_TIMEOUT == 2_000_000_000,
        LOOPBACK_ACK == 100_000_000,
        REMEMBERED == 65_535,
        LONGEST_TIMEOUT == 0xffff_ffff_ffff_ffff * 1_000_000_000 + 999_999_999,
{
}

/// A message is what its fields hold.
pub proof fn a_message_is_its_fields(message: Message)
    ensures
        message@.kind == message.kind,
        message@.code == message.code,
        message@.id == message.id,
        message@.token == message.token@,
        message@.payload == message.payload@,
        message@.options.len() == message.options@.len(),
        forall|i: int|
            0 <= i < message.options@.len() ==> (#[trigger] message@.options[i]) == (
                message.options@[i].0,
                message.options@[i].1@,
            ),
{
}

/// An event is what its fields hold.
pub proof fn an_event_is_its_fields(event: Event)
    ensures
        event@ == match event {
            Event::Sent => EventView::Sent,
            Event::Arrived { datagram, left } => EventView::Arrived {
                datagram: datagram@,
                left: left as nat,
            },
            Event::Failed(failure) => EventView::Failed(failure),
        },
{
}

/// A step is what its fields hold.
pub proof fn a_step_is_its_fields(step: Step)
    ensures
        step@ == match step {
            Step::Send => StepView::Send,
            Step::Await(wait) => StepView::Await(wait as nat),
            Step::Done(message) => StepView::Done(message@),
            Step::Refused(error) => StepView::Refused(error),
            Step::Broken => StepView::Broken,
        },
{
}

/// A request, and what arrived with it, are what their fields hold.
pub proof fn an_arrival_is_its_fields(request: Request, arrived: Arrived)
    ensures
        request@.peer == request.peer@,
        request@.message == request.message@,
        arrived@.origin_uri == arrived.origin_uri@,
        arrived@.bytes == arrived.bytes@,
{
}

/// Strings in a row are their texts in a row, and vectors their bytes.
pub proof fn rows_are_their_items(strings: Seq<String>, vectors: Seq<Vec<u8>>)
    ensures
        views(strings).len() == strings.len(),
        forall|i: int| 0 <= i < strings.len() ==> (#[trigger] views(strings)[i]) == strings[i]@,
        byte_views(vectors).len() == vectors.len(),
        forall|i: int|
            0 <= i < vectors.len() ==> (#[trigger] byte_views(vectors)[i]) == vectors[i]@,
{
}

/// A code is a request's if it is one of 1 to 31.
pub proof fn requests_are_1_to_31(code: u8)
    ensures
        is_request_code(code) <==> 1 <= code <= 31,
{
}

/// What a request says: what it was made with, and its id again as its token,
/// the more significant byte first. See [`slashes_part_a_path`] and
/// [`a_path_without_slashes`] for its options.
///
/// [`slashes_part_a_path`]: crate::paths::slashes_part_a_path
/// [`a_path_without_slashes`]: crate::paths::a_path_without_slashes
pub proof fn a_request_says(kind: Kind, code: u8, id: u16, path: Seq<char>, payload: Seq<u8>)
    ensures
        ({
            let request = request_view(kind, code, id, path, payload);
            &&& request.kind == kind
            &&& request.code == code
            &&& request.id == id
            &&& request.token.len() == 2
            &&& 256 * request.token[0] + request.token[1] == id
            &&& request.payload == payload
        }),
{
}

/// What an answer says: the code and the payload that it was made with, under
/// the id and the token of the request, without options. It is an
/// Acknowledgement exactly where the request was Confirmable, and
/// NonConfirmable otherwise.
pub proof fn an_answer_says(request: MessageView, code: u8, payload: Seq<u8>)
    ensures
        ({
            let answer = response_view(request, code, payload);
            &&& answer.code == code
            &&& answer.payload == payload
            &&& answer.id == request.id
            &&& answer.token == request.token
            &&& answer.options.len() == 0
            &&& answer.kind == Kind::Acknowledgement <==> request.kind == Kind::Confirmable
            &&& answer.kind == Kind::NonConfirmable <==> request.kind != Kind::Confirmable
        }),
{
}

/// What comes of answering a request: a datagram that is read as a message
/// with the code, the payload, and the id and the token of the request; unless
/// the token is too long to be framed, or the datagram would be too large.
pub proof fn an_answer_is_read(request: MessageView, code: u8, payload: Seq<u8>)
    ensures
        ({
            let out = encoding(response_view(request, code, payload));
            let length = 4 + request.token.len() + if payload.len() == 0 {
                0
            } else {
                1 + payload.len()
            };
            &&& out == Err::<Seq<u8>, CoapError>(CoapError::TokenTooLong) <==>
                request.token.len() > 8
            &&& out == Err::<Seq<u8>, CoapError>(CoapError::MessageTooLarge) <==>
                request.token.len() <= 8 && length > 1152
            &&& out is Ok <==> request.token.len() <= 8 && length <= 1152
            &&& out matches Ok(datagram) ==> {
                &&& datagram.len() == length
                &&& decoding(datagram) matches Ok(answer) && {
                    &&& answer.code == code
                    &&& answer.payload == payload
                    &&& answer.id == request.id
                    &&& answer.token == request.token
                    &&& answer.options.len() == 0
                    &&& answer.kind == Kind::Acknowledgement <==> request.kind == Kind::Confirmable
                    &&& answer.kind == Kind::NonConfirmable <==> request.kind != Kind::Confirmable
                }
            }
        }),
{
    let response = response_view(request, code, payload);
    what_can_be_framed(response);
    assert(in_order(response.options) =~= Seq::empty());
    assert(options_wire(in_order(response.options), 0) =~= Seq::empty());
    if encoding(response) is Ok {
        ordered_messages_round_trip(response);
    }
}

/// What a transport sends next: a request with the transport's code and its
/// next message id, Confirmable exactly where the transport is, for the path
/// and with the payload that it was given.
pub proof fn what_is_sent_next(transport: TransportView, path: Seq<char>, payload: Seq<u8>)
    ensures
        ({
            let request = next_request(transport, path, payload);
            &&& request.kind == Kind::Confirmable <==> transport.confirmable
            &&& request.kind == Kind::NonConfirmable <==> !transport.confirmable
            &&& request.code == transport.code
            &&& request.id == transport.next_id
            &&& request.token.len() == 2
            &&& 256 * request.token[0] + request.token[1] == transport.next_id
            &&& request.options == request_view(
                request.kind,
                request.code,
                request.id,
                path,
                payload,
            ).options
            &&& request.payload == payload
        }),
{
}

/// What a transport sends next is read at the other end as a message with the
/// transport's code, whatever it is, and its next message id, carrying the
/// payload; and it is taken as a request if its code is one of 1 to 31.
pub proof fn a_request_is_read(transport: TransportView, path: Seq<char>, payload: Seq<u8>)
    requires
        encoding(next_request(transport, path, payload)) is Ok,
    ensures
        ({
            let datagram = encoding(next_request(transport, path, payload))->Ok_0;
            decoding(datagram) matches Ok(request) && {
                &&& request.code == transport.code
                &&& request.id == transport.next_id
                &&& request.payload == payload
                &&& request.token.len() == 2
                &&& 256 * request.token[0] + request.token[1] == transport.next_id
                &&& request.options == request_view(
                    request.kind,
                    request.code,
                    request.id,
                    path,
                    payload,
                ).options
                &&& request.kind == Kind::Confirmable <==> transport.confirmable
                &&& request.kind == Kind::NonConfirmable <==> !transport.confirmable
                &&& is_request_code(request.code) <==> 1 <= transport.code <= 31
            }
        }),
{
    ordered_messages_round_trip(next_request(transport, path, payload));
}

/// What a Reset is: four bytes, of version 1, type 3 and no token, with code 0
/// and the message id.
pub proof fn a_reset_says(id: u16)
    ensures
        reset_view(id).kind == Kind::Reset,
        reset_view(id).code == 0,
        reset_view(id).id == id,
        reset_view(id).token.len() == 0,
        reset_view(id).options.len() == 0,
        reset_view(id).payload.len() == 0,
        wire(reset_view(id)).len() == 4,
        wire(reset_view(id))[0] == 0x70,
        wire(reset_view(id))[1] == 0,
        256 * wire(reset_view(id))[2] + wire(reset_view(id))[3] == id,
{
    let reset = reset_view(id);
    assert(in_order(reset.options) =~= Seq::empty());
    assert(options_wire(in_order(reset.options), 0) =~= Seq::empty());
}

/// What a request on its way is made of: the transport's next message id, its
/// first wait, and no retransmission yet.
pub proof fn an_exchange_opens(transport: TransportView, address: Seq<char>, datagram: Seq<u8>)
    ensures
        opened(transport, address, datagram).address == address,
        opened(transport, address, datagram).id == transport.next_id,
        opened(transport, address, datagram).datagram == datagram,
        opened(transport, address, datagram).confirmable == transport.confirmable,
        opened(transport, address, datagram).timeout == transport.ack_timeout,
        opened(transport, address, datagram).attempt == 0,
{
}

/// What a new transport is like: it sends POST, confirmable, from message id 1
/// on, waits two seconds for an acknowledgement, and for a request for ever.
pub proof fn a_new_transport(bind: Seq<char>)
    ensures
        new_transport(bind).bind == bind,
        new_transport(bind).code == 2,
        new_transport(bind).confirmable,
        new_transport(bind).ack_timeout == 2_000_000_000,
        new_transport(bind).receive_timeout == None::<u128>,
        new_transport(bind).next_id == 1,
{
}

/// Message ids count up, and start over behind the last.
pub proof fn ids_go_round(id: u16)
    ensures
        id_after(id) == (id + 1) % 65_536,
{
}

/// The parts of a target: up to the first slash behind `coap://` it is the
/// address, and behind that slash the path, which may have slashes of its own.
pub proof fn a_target_has_parts(address: Seq<char>, path: Seq<char>)
    requires
        !address.contains('/'),
    ensures
        target_parts("coap://"@ + address + "/"@ + path) == Some((address, path)),
        target_parts("coap://"@ + address) == Some((address, Seq::<char>::empty())),
{
    reveal_strlit("coap://");
    reveal_strlit("/");
    let whole = "coap://"@ + address + "/"@ + path;
    let short = "coap://"@ + address;
    assert(whole.subrange(0, 7) =~= "coap://"@);
    assert(short.subrange(0, 7) =~= "coap://"@);
    let rest = whole.skip(7);
    assert(rest =~= address + "/"@ + path);
    assert(short.skip(7) =~= address);
    let at = address.len() as int;
    assert(rest[at] == '/');
    assert(rest.contains('/'));
    rest.index_of_first_ensures('/');
    address.index_of_first_ensures('/');
    let first = rest.index_of_first('/')->0;
    assert(first == at) by {
        if first < at {
            assert(address[first] == rest[first]);
            assert(address.contains('/'));
        }
    }
    assert(rest.take(at) =~= address);
    assert(rest.skip(at + 1) =~= path);
}

/// What starts otherwise than with `coap://` is no target, and what does is one.
pub proof fn a_target_starts_so(target: Seq<char>)
    ensures
        target_parts(target) is Some <==> {
            &&& target.len() >= 7
            &&& target[0] == 'c'
            &&& target[1] == 'o'
            &&& target[2] == 'a'
            &&& target[3] == 'p'
            &&& target[4] == ':'
            &&& target[5] == '/'
            &&& target[6] == '/'
        },
{
    reveal_strlit("coap://");
    let scheme = "coap://"@;
    if target.len() >= 7 {
        let front = target.subrange(0, 7);
        if target[0] == 'c' && target[1] == 'o' && target[2] == 'a' && target[3] == 'p'
            && target[4] == ':' && target[5] == '/' && target[6] == '/' {
            assert(scheme =~= front);
        }
        if scheme == front {
            assert(scheme[0] == front[0] && scheme[1] == front[1] && scheme[2] == front[2]
                && scheme[3] == front[3] && scheme[4] == front[4] && scheme[5] == front[5]
                && scheme[6] == front[6]);
        }
    }
}

/// What the far end of a loopback is posted at.
pub proof fn the_far_end_is_posted_at(address: Seq<char>)
    ensures
        far_target(address) == "coap://"@ + address + "/pingpong"@,
{
}

/// Once a request is sent, its acknowledgement is awaited if it is confirmable.
/// If not, that is all, and an empty message under its id stands for the
/// answer.
pub proof fn what_sending_does(exchange: ExchangeView)
    ensures
        stepped(exchange, EventView::Sent).0 == exchange,
        exchange.confirmable ==> stepped(exchange, EventView::Sent).1 == StepView::Await(
            exchange.timeout,
        ),
        !exchange.confirmable ==> {
            &&& stepped(exchange, EventView::Sent).1 matches StepView::Done(message)
            &&& message.kind == Kind::NonConfirmable
            &&& message.code == 0
            &&& message.id == exchange.id
            &&& message.token.len() == 2
            &&& 256 * message.token[0] + message.token[1] == exchange.id
            &&& message.options.len() == 0
            &&& message.payload.len() == 0
        },
{
    a_path_without_slashes(
        Kind::NonConfirmable,
        0,
        exchange.id,
        Seq::empty(),
        Seq::empty(),
    );
    assert(no_answer(exchange.id).options.len() == 0);
}

/// What a datagram does, whatever it is. One that cannot be read refuses the
/// exchange for that. One under the id of the exchange ends it: with a code of
/// class 4 and over it is refused, a Reset refuses it, and any other message
/// is what the exchange is done with, whatever its options, its token and its
/// payload. One under another id has what is left of the wait waited, and
/// where nothing is left, is as silence.
pub proof fn what_a_datagram_does(exchange: ExchangeView, datagram: Seq<u8>, left: nat)
    ensures
        ({
            let (next, step) = stepped(exchange, EventView::Arrived { datagram, left });
            match decoding(datagram) {
                Err(error) => next == exchange && step == StepView::Refused(error),
                Ok(message) => {
                    let own = message.id == exchange.id;
                    &&& own || left > 0 ==> next == exchange
                    &&& own && message.code >= 128 ==> step == StepView::Refused(
                        CoapError::PeerAnswered(message.code),
                    )
                    &&& own && message.code < 128 && message.kind == Kind::Reset ==> step
                        == StepView::Refused(CoapError::PeerReset)
                    &&& own && message.code < 128 && message.kind != Kind::Reset ==> step
                        == StepView::Done(message)
                    &&& !own && left > 0 ==> step == StepView::Await(left)
                    &&& !own && left == 0 && exchange.attempt < 4 ==> {
                        &&& step == StepView::Send
                        &&& next.attempt == exchange.attempt + 1
                        &&& next.timeout == exchange.timeout + exchange.timeout
                        &&& next.address == exchange.address
                        &&& next.id == exchange.id
                        &&& next.datagram == exchange.datagram
                        &&& next.confirmable == exchange.confirmable
                    }
                    &&& !own && left == 0 && exchange.attempt >= 4 ==> {
                        &&& step == StepView::Refused(CoapError::NotAcknowledged)
                        &&& next == exchange
                    }
                },
            }
        }),
{
}

/// Only a Reset under the id of the exchange has it refused as one.
pub proof fn only_a_reset_is_one(exchange: ExchangeView, event: EventView)
    ensures
        stepped(exchange, event).1 == StepView::Refused(CoapError::PeerReset) ==> {
            &&& event matches EventView::Arrived { datagram, .. }
            &&& decoding(datagram) matches Ok(message)
            &&& message.kind == Kind::Reset
            &&& message.id == exchange.id
        },
{
    if let EventView::Arrived { datagram, .. } = event {
        what_reading_can_say(datagram);
    }
}

/// Only a code of class 4 and over, under the id of the exchange, has it
/// refused for its code.
pub proof fn only_an_error_code_is_one(exchange: ExchangeView, event: EventView, code: u8)
    ensures
        stepped(exchange, event).1 == StepView::Refused(CoapError::PeerAnswered(code)) ==> {
            &&& event matches EventView::Arrived { datagram, .. }
            &&& decoding(datagram) matches Ok(message)
            &&& message.code == code
            &&& code >= 128
            &&& message.id == exchange.id
        },
{
    if let EventView::Arrived { datagram, .. } = event {
        what_reading_can_say(datagram);
    }
}

/// What a failure does. When nothing came in time, the request is sent again,
/// the same one, with twice the time to answer, four times at most; then it is
/// not acknowledged. Any other failure ends the exchange.
pub proof fn what_a_failure_does(exchange: ExchangeView, failure: Failure)
    ensures
        ({
            let (next, step) = stepped(exchange, EventView::Failed(failure));
            let silent = failure is WouldBlock || failure is TimedOut;
            &&& timed_out(failure) == silent
            &&& silent && exchange.attempt < 4 ==> {
                &&& step == StepView::Send
                &&& next.attempt == exchange.attempt + 1
                &&& next.timeout == exchange.timeout + exchange.timeout
                &&& next.address == exchange.address
                &&& next.id == exchange.id
                &&& next.datagram == exchange.datagram
                &&& next.confirmable == exchange.confirmable
            }
            &&& silent && exchange.attempt >= 4 ==> {
                &&& step == StepView::Refused(CoapError::NotAcknowledged)
                &&& next == exchange
            }
            &&& !silent ==> step == StepView::Broken && next == exchange
        }),
{
}

/// An event can be taken unless it has a wait doubled that is over half of what
/// can be waited.
pub proof fn what_can_be_taken(exchange: ExchangeView, event: EventView)
    ensures
        can_double(exchange, event) <==> {
            ||| exchange.attempt >= 4
            ||| exchange.timeout + exchange.timeout <= 18_446_744_073_709_551_615_999_999_999
            ||| match event {
                EventView::Sent => true,
                EventView::Arrived { datagram, left } => left > 0 || match decoding(datagram) {
                    Err(_) => true,
                    Ok(message) => message.id == exchange.id,
                },
                EventView::Failed(failure) => failure is Other,
            }
        },
{
}

/// What an error says.
pub proof fn what_errors_say(error: CoapError) -> (code: Seq<char>)
    ensures
        match error {
            CoapError::TokenTooLong => explanation(error) == "a token over eight bytes"@,
            CoapError::OptionValueTooLong => explanation(error)
                == "an option value over what CoAP can frame"@,
            CoapError::MessageTooLarge => explanation(error)
                == "a message over what a CoAP datagram carries"@,
            CoapError::NotCoap => explanation(error) == "a datagram that is not CoAP version 1"@,
            CoapError::TokenLengthOverEight => explanation(error) == "a token length over eight"@,
            CoapError::TokenPastDatagram => explanation(error)
                == "a token longer than the datagram"@,
            CoapError::ExtensionPastDatagram => explanation(error)
                == "an option extension past the datagram"@,
            CoapError::ExtensionTooLarge => explanation(error)
                == "an option extension over what CoAP has"@,
            CoapError::ReservedNibble => explanation(error) == "the reserved option nibble 15"@,
            CoapError::OptionNumberTooLarge => explanation(error)
                == "an option number over what CoAP has"@,
            CoapError::OptionPastDatagram => explanation(error)
                == "an option that runs past the datagram"@,
            CoapError::EmptyPayload => explanation(error) == "a payload marker with no payload"@,
            CoapError::PayloadTooLarge => explanation(error)
                == "a payload over what one CoAP message carries; block-wise transfer is not here"@,
            CoapError::NotCoapTarget(target) => explanation(error) == quoted(target@)
                + " is not coap://host/path"@,
            CoapError::PeerAnswered(n) => {
                &&& explanation(error) == "the peer answered "@ + code
                &&& code.len() == 4
                &&& code[0] as int == 48 + n as int / 32
                &&& code[1] == '.'
                &&& 48 <= code[2] as int <= 57
                &&& 48 <= code[3] as int <= 57
                &&& 10 * (code[2] as int - 48) + (code[3] as int - 48) == n as int % 32
            },
            CoapError::PeerReset => explanation(error) == "the peer answered Reset"@,
            CoapError::NotAcknowledged => explanation(error)
                == "the peer did not acknowledge after every retransmission"@,
        },
{
    if let CoapError::PeerAnswered(n) = error {
        a_written_code(n);
        crate::message::code_chars(n)
    } else {
        Seq::empty()
    }
}

} // verus!
