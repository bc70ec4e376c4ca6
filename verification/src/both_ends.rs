//! What the two ends of an exchange can count on of each other.

use vstd::prelude::*;
use vstd::utf8::{encode_utf8_decode_utf8, encode_utf8_valid_utf8};

use crate::error::CoapError;
use crate::exchange::{every_transmission_is_the_same, run, stepped, EventView, StepView};
use crate::message::{
    code_class, decoding, encoding, options_wire, path_texts, payload_wire, request_view,
    response_view, wire, Kind, MessageView, MAX_DATAGRAM, MAX_PAYLOAD, URI_PATH,
};
use crate::options::{in_order, numbered, OptionView};
use crate::round_trip::{ordered_messages_round_trip, read_is_wire};
use crate::text::{joined, joining_undoes_segmenting, segments, split_on};
use crate::transport::{
    arrival, id_after, next_request, opened, origin, reset_view, ArrivedView, RequestView,
    TransportView,
};

verus! {

/// A request comes out at the other end as it was made.
pub proof fn requests_round_trip(
    kind: Kind,
    code: u8,
    id: u16,
    path: Seq<char>,
    payload: Seq<u8>,
)
    requires
        encoding(request_view(kind, code, id, path, payload)) is Ok,
    ensures
        decoding(encoding(request_view(kind, code, id, path, payload))->Ok_0) == Ok::<
            MessageView,
            CoapError,
        >(request_view(kind, code, id, path, payload)),
{
    ordered_messages_round_trip(request_view(kind, code, id, path, payload));
}

/// An answer comes out at the other end as it was made.
pub proof fn responses_round_trip(request: MessageView, code: u8, payload: Seq<u8>)
    requires
        encoding(response_view(request, code, payload)) is Ok,
    ensures
        decoding(encoding(response_view(request, code, payload))->Ok_0) == Ok::<
            MessageView,
            CoapError,
        >(response_view(request, code, payload)),
{
    ordered_messages_round_trip(response_view(request, code, payload));
}

/// A Reset comes out at the other end as it was made.
pub proof fn resets_round_trip(id: u16)
    ensures
        decoding(wire(reset_view(id))) == Ok::<MessageView, CoapError>(reset_view(id)),
{
    let reset = reset_view(id);
    assert(wire(reset).len() == 4);
    ordered_messages_round_trip(reset);
}

/// A request that was read can be answered with any code and with any payload
/// that fits a datagram behind the header and the token, as any payload does
/// that one message carries.
pub proof fn what_was_read_can_be_answered(datagram: Seq<u8>, code: u8, payload: Seq<u8>)
    requires
        decoding(datagram) is Ok,
    ensures
        ({
            let request = decoding(datagram)->Ok_0;
            &&& encoding(response_view(request, code, payload)) is Ok <==> 4 + request.token.len()
                + payload_wire(payload).len() <= MAX_DATAGRAM
            &&& payload.len() <= MAX_PAYLOAD ==> encoding(
                response_view(request, code, payload),
            ) is Ok
        }),
{
    let request = decoding(datagram)->Ok_0;
    let response = response_view(request, code, payload);
    read_is_wire(datagram);
    assert(in_order(response.options) =~= Seq::empty());
    assert(options_wire(in_order(response.options), 0) =~= Seq::empty());
    assert(wire(response).len() == 4 + request.token.len() + payload_wire(payload).len());
}

/// Any answer that the far end can make to a request ends the exchange that the
/// request belongs to, whatever happened before it came: with that answer, or,
/// where its code is of an error class, with the error that names the code.
pub proof fn an_answer_ends_the_exchange(
    transport: TransportView,
    address: Seq<char>,
    path: Seq<char>,
    payload: Seq<u8>,
    code: u8,
    answer: Seq<u8>,
    events: Seq<EventView>,
    left: nat,
)
    requires
        encoding(next_request(transport, path, payload)) is Ok,
        encoding(
            response_view(
                decoding(encoding(next_request(transport, path, payload))->Ok_0)->Ok_0,
                code,
                answer,
            ),
        ) is Ok,
    ensures
        ({
            let sent = encoding(next_request(transport, path, payload))->Ok_0;
            let exchange = run(opened(transport, address, sent), events);
            let response = response_view(decoding(sent)->Ok_0, code, answer);
            &&& decoding(sent) is Ok
            &&& stepped(
                exchange,
                EventView::Arrived { datagram: encoding(response)->Ok_0, left },
            ) == (
                exchange,
                if code_class(code) >= 4 {
                    StepView::Refused(CoapError::PeerAnswered(code))
                } else {
                    StepView::Done(response)
                },
            )
        }),
{
    let request = next_request(transport, path, payload);
    let sent = encoding(request)->Ok_0;
    requests_round_trip(request.kind, transport.code, transport.next_id, path, payload);
    responses_round_trip(request, code, answer);
    every_transmission_is_the_same(opened(transport, address, sent), events);
}

/// The Reset that the far end sends for what it does not take as a request
/// refuses the exchange it belongs to, whatever happened before it came.
pub proof fn a_reset_refuses_the_exchange(
    transport: TransportView,
    address: Seq<char>,
    path: Seq<char>,
    payload: Seq<u8>,
    events: Seq<EventView>,
    left: nat,
)
    requires
        encoding(next_request(transport, path, payload)) is Ok,
    ensures
        ({
            let sent = encoding(next_request(transport, path, payload))->Ok_0;
            let exchange = run(opened(transport, address, sent), events);
            let reset = wire(reset_view(decoding(sent)->Ok_0.id));
            &&& decoding(sent) is Ok
            &&& stepped(exchange, EventView::Arrived { datagram: reset, left }) == (
                exchange,
                StepView::Refused(CoapError::PeerReset),
            )
        }),
{
    let request = next_request(transport, path, payload);
    let sent = encoding(request)->Ok_0;
    requests_round_trip(request.kind, transport.code, transport.next_id, path, payload);
    resets_round_trip(transport.next_id);
    every_transmission_is_the_same(opened(transport, address, sent), events);
}

/// The path that a request was made for is what its Uri-Path options say,
/// segment by segment.
pub proof fn request_says_its_path(
    kind: Kind,
    code: u8,
    id: u16,
    path: Seq<char>,
    payload: Seq<u8>,
)
    ensures
        path_texts(request_view(kind, code, id, path, payload)) == segments(path),
{
    let options = request_view(kind, code, id, path, payload).options;
    lemma_all_numbered(options);
    let texts = path_texts(request_view(kind, code, id, path, payload));
    assert forall|i: int| 0 <= i < segments(path).len() implies #[trigger] texts[i] == segments(
        path,
    )[i] by {
        encode_utf8_valid_utf8(segments(path)[i]);
        encode_utf8_decode_utf8(segments(path)[i]);
    }
    assert(texts =~= segments(path));
}

proof fn lemma_all_numbered(options: Seq<OptionView>)
    requires
        forall|i: int| 0 <= i < options.len() ==> (#[trigger] options[i]).0 == URI_PATH,
    ensures
        numbered(options, URI_PATH) == options,
    decreases options.len(),
{
    reveal_with_fuel(Seq::filter, 1);
    if options.len() > 0 {
        lemma_all_numbered(options.drop_last());
        assert(options[options.len() - 1].0 == URI_PATH);
        assert(options.drop_last().push(options.last()) =~= options);
    }
}

/// A path without empty segments, or with nothing in it, is what the other end
/// reads as the path.
pub proof fn plain_paths_come_back(
    kind: Kind,
    code: u8,
    id: u16,
    path: Seq<char>,
    payload: Seq<u8>,
)
    requires
        path.len() == 0 || forall|i: int|
            0 <= i < split_on(path, '/').len() ==> (#[trigger] split_on(path, '/')[i]).len() > 0,
    ensures
        joined(path_texts(request_view(kind, code, id, path, payload))) == path,
{
    request_says_its_path(kind, code, id, path, payload);
    joining_undoes_segmenting(path);
}

/// One request is one Stream, the resource path beside it: a request for
/// `path` that carries `payload` arrives as `payload`, under an origin that
/// names the peer, the path, the code and the message id.
pub proof fn one_request_is_one_stream(
    transport: TransportView,
    peer: Seq<char>,
    path: Seq<char>,
    payload: Seq<u8>,
)
    requires
        encoding(next_request(transport, path, payload)) is Ok,
    ensures
        ({
            let datagram = encoding(next_request(transport, path, payload))->Ok_0;
            &&& decoding(datagram) is Ok
            &&& arrival(RequestView { peer, message: decoding(datagram)->Ok_0 }) == (ArrivedView {
                origin_uri: origin(
                    peer,
                    joined(segments(path)),
                    transport.code,
                    transport.next_id,
                ),
                bytes: payload,
            })
        }),
{
    let request = next_request(transport, path, payload);
    requests_round_trip(request.kind, transport.code, transport.next_id, path, payload);
    request_says_its_path(request.kind, transport.code, transport.next_id, path, payload);
}

/// Two requests in a row never have the same message id.
pub proof fn ids_in_a_row_differ(id: u16)
    ensures
        id_after(id) != id,
{
}

} // verus!
