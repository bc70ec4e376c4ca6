use coap_transport::error::not_a_target_text;
use coap_transport::exchange::{is_timeout, LONGEST_TIMEOUT};
use coap_transport::message::{decode, encode, BAD_REQUEST, CHANGED, CREATED, POST, PUT};
use coap_transport::transport::{origin_uri, split_target};
use coap_transport::{
    CoapError, CoapTransport, Event, Exchange, Failure, Incoming, Kind, Message, Request, Step,
    ACK_TIMEOUT, MAX_PAYLOAD, MAX_RETRANSMIT,
};

const MILLISECOND: u128 = 1_000_000;
const SECOND: u128 = 1_000_000_000;

fn taken(far_end: &CoapTransport, datagram: &[u8]) -> Request {
    match far_end.receive_one("127.0.0.1:40000", datagram).expect("receiving") {
        Incoming::Request(request) => request,
        Incoming::Reset(_) => panic!("not a request"),
    }
}

fn arrived(datagram: Vec<u8>) -> Event {
    Event::Arrived { datagram, left: MILLISECOND }
}

fn answered(exchange: &mut Exchange, datagram: Vec<u8>) -> Message {
    match exchange.step(arrived(datagram)) {
        Step::Done(message) => message,
        other => panic!("{:?}", other),
    }
}

#[test]
fn a_post_is_taken_and_acknowledged() {
    let far_end = CoapTransport::new("127.0.0.1:0").timing_out_after(2 * SECOND);
    let address = "127.0.0.1:40001";
    let mut sender = CoapTransport::new("127.0.0.1:0").acknowledged_within(500 * MILLISECOND);
    let mut exchange = sender
        .exchange(&format!("coap://{address}/sensors/1"), b"21.5")
        .expect("sending");
    assert_eq!(exchange.address(), address);
    assert_eq!(exchange.step(Event::Sent), Step::Await(500 * MILLISECOND));
    let request = taken(&far_end, exchange.datagram());
    assert_eq!(request.message.payload, b"21.5");
    assert_eq!(request.message.uri_path(), "sensors/1");
    let answer = far_end.respond(&request, CREATED, b"ok").expect("responding");
    let response = answered(&mut exchange, answer);
    assert_eq!(response.code_text(), "2.01");
    assert_eq!(response.payload, b"ok");
    let arrived = request.arrived();
    assert!(arrived.origin_uri.contains("/sensors/1?code=0.02&id="));
    assert_eq!(arrived.origin_uri, "coap://127.0.0.1:40000/sensors/1?code=0.02&id=1");
    assert_eq!(arrived.bytes, b"21.5");
}

#[test]
fn an_unanswered_request_is_retransmitted_then_retryable() {
    let far_end = CoapTransport::new("127.0.0.1:0").timing_out_after(2 * SECOND);
    let mut exchange = CoapTransport::new("127.0.0.1:0")
        .acknowledged_within(20 * MILLISECOND)
        .exchange("coap://127.0.0.1:40001/quiet", b"x")
        .expect("sending");
    let mut ids = Vec::new();
    let mut wait = 20 * MILLISECOND;
    for attempt in 0..=MAX_RETRANSMIT {
        ids.push(taken(&far_end, exchange.datagram()).message.id);
        assert_eq!(exchange.step(Event::Sent), Step::Await(wait));
        assert_eq!(exchange.timeout(), wait);
        let failure = if attempt % 2 == 0 {
            Failure::TimedOut
        } else {
            Failure::WouldBlock
        };
        let step = exchange.step(Event::Failed(failure));
        if attempt < MAX_RETRANSMIT {
            assert_eq!(step, Step::Send);
        } else {
            let error = match step {
                Step::Refused(error) => error,
                other => panic!("{:?}", other),
            };
            assert_eq!(error, CoapError::NotAcknowledged);
            assert!(error.retryable());
        }
        wait *= 2;
    }
    assert!(ids.iter().all(|id| *id == ids[0]), "the same message id");
    assert_eq!(ids.len(), 5);
}

#[test]
fn a_reply_under_another_id_has_nothing_sent() {
    let mut exchange = CoapTransport::new("127.0.0.1:0")
        .exchange("coap://127.0.0.1:5683/x", b"x")
        .expect("sending");
    assert_eq!(exchange.step(Event::Sent), Step::Await(ACK_TIMEOUT));
    for left in [SECOND, MILLISECOND, 1] {
        let stray = Event::Arrived { datagram: vec![0x62, 0x44, 0, 9, 0, 9], left };
        assert_eq!(exchange.step(stray), Step::Await(left));
        assert_eq!(exchange.timeout(), ACK_TIMEOUT);
    }
    assert_eq!(
        answered(&mut exchange, vec![0x62, 0x44, 0, 1, 0, 1]),
        Message {
            kind: Kind::Acknowledgement,
            code: 0x44,
            id: 1,
            token: vec![0, 1],
            options: vec![],
            payload: vec![],
        }
    );
}

#[test]
fn a_reply_under_another_id_at_the_end_of_the_wait_is_as_silence() {
    let mut exchange = CoapTransport::new("127.0.0.1:0")
        .exchange("coap://127.0.0.1:40001/quiet", b"x")
        .expect("sending");
    let late = || Event::Arrived { datagram: vec![0x62, CHANGED, 3, 231, 0, 9], left: 0 };
    let mut wait = ACK_TIMEOUT;
    for _ in 0..MAX_RETRANSMIT {
        assert_eq!(exchange.step(Event::Sent), Step::Await(wait));
        assert_eq!(exchange.step(late()), Step::Send);
        wait *= 2;
    }
    assert_eq!(exchange.step(Event::Sent), Step::Await(wait));
    assert_eq!(exchange.step(late()), Step::Refused(CoapError::NotAcknowledged));
    assert!(CoapError::NotAcknowledged.retryable());
}

#[test]
fn a_reset_refuses_the_request() {
    let far_end = CoapTransport::new("127.0.0.1:0");
    let mut exchange = CoapTransport::new("127.0.0.1:0")
        .with_code(0)
        .exchange("coap://h/a", b"x")
        .expect("sending");
    let reset = match far_end.receive_one("peer", exchange.datagram()).expect("receiving") {
        Incoming::Reset(reset) => reset,
        Incoming::Request(_) => panic!("a request"),
    };
    let other = Event::Arrived { datagram: vec![0x70, 0, 0, 9], left: 5 };
    assert_eq!(exchange.step(other), Step::Await(5));
    assert_eq!(exchange.step(arrived(reset)), Step::Refused(CoapError::PeerReset));
    assert_eq!(
        exchange.step(arrived(vec![0x70, BAD_REQUEST, 0, 1])),
        Step::Refused(CoapError::PeerAnswered(BAD_REQUEST))
    );
}

#[test]
fn a_failure_that_is_not_silence_ends_the_exchange() {
    let mut exchange = CoapTransport::new("127.0.0.1:0")
        .exchange("coap://127.0.0.1:40001/x", b"x")
        .expect("sending");
    assert_eq!(exchange.step(Event::Failed(Failure::Other)), Step::Broken);
    assert!(is_timeout(Failure::WouldBlock));
    assert!(is_timeout(Failure::TimedOut));
    assert!(!is_timeout(Failure::Other));
}

#[test]
fn a_wait_that_is_too_long_to_double_is_told() {
    let within = |timeout: u128| {
        CoapTransport::new("127.0.0.1:0")
            .acknowledged_within(timeout)
            .exchange("coap://h/a", b"")
            .expect("sending")
    };
    let silence = Event::Failed(Failure::TimedOut);
    assert!(within(LONGEST_TIMEOUT / 2).can_take(&silence));
    let long = within(LONGEST_TIMEOUT / 2 + 1);
    assert!(!long.can_take(&silence));
    assert!(long.can_take(&Event::Sent));
    assert!(long.can_take(&Event::Failed(Failure::Other)));
    assert!(long.can_take(&arrived(vec![])));
    let late = |datagram: &[u8]| Event::Arrived { datagram: datagram.to_vec(), left: 0 };
    assert!(long.can_take(&late(&[])));
    assert!(long.can_take(&late(&[0x62, CHANGED, 0, 1, 0, 1])));
    assert!(!long.can_take(&late(&[0x62, CHANGED, 0, 9, 0, 9])));
    assert!(long.can_take(&arrived(vec![0x62, CHANGED, 0, 9, 0, 9])));
}

#[test]
fn an_error_class_is_refused_for_good() {
    let far_end = CoapTransport::new("127.0.0.1:0");
    let mut exchange = CoapTransport::new("127.0.0.1:0")
        .exchange("coap://127.0.0.1:40001/x", b"bad")
        .expect("sending");
    let request = taken(&far_end, exchange.datagram());
    let answer = far_end.respond(&request, BAD_REQUEST, &[]).expect("responding");
    let error = match exchange.step(arrived(answer)) {
        Step::Refused(error) => error,
        other => panic!("{:?}", other),
    };
    assert_eq!(error, CoapError::PeerAnswered(BAD_REQUEST));
    assert!(!error.retryable());
    assert!(error.message().contains("4.00"));
    assert_eq!(error.message(), "the peer answered 4.00");
}

#[test]
fn an_oversize_payload_is_refused_for_good() {
    let mut transport = CoapTransport::new("127.0.0.1:0");
    let too_big = transport
        .exchange("coap://127.0.0.1:1/x", &[0; MAX_PAYLOAD + 1])
        .err()
        .expect("too big");
    assert_eq!(too_big, CoapError::PayloadTooLarge);
    assert!(!too_big.retryable());
    let exchange = transport
        .exchange("coap://127.0.0.1:1/x", &[0; MAX_PAYLOAD])
        .expect("not too big");
    assert_eq!(decode(exchange.datagram()).expect("decode").id, 1);
}

#[test]
fn a_target_that_is_not_one_is_refused() {
    let mut transport = CoapTransport::new("127.0.0.1:0");
    let error = transport.exchange("http://host/x", b"").err().expect("refused");
    assert_eq!(error, CoapError::NotCoapTarget("http://host/x".to_owned()));
    assert_eq!(error.message(), "\"http://host/x\" is not coap://host/path");
    assert!(!error.retryable());
    assert_eq!(
        CoapError::NotCoapTarget("a\"\n".to_owned()).message(),
        "\"a\\\"\\n\" is not coap://host/path"
    );
    assert_eq!(not_a_target_text("it".to_owned()), "it is not coap://host/path");
    assert_eq!(
        transport
            .exchange("http://host/x", &[0; MAX_PAYLOAD + 1])
            .err()
            .expect("refused"),
        CoapError::PayloadTooLarge
    );
}

#[test]
fn a_target_is_an_address_and_a_path() {
    assert_eq!(split_target("coap://host:1/a/b"), Some(("host:1", "a/b")));
    assert_eq!(split_target("coap://host"), Some(("host", "")));
    assert_eq!(split_target("coap://host/"), Some(("host", "")));
    assert_eq!(split_target("coap:///a"), Some(("", "a")));
    assert_eq!(split_target("coap://"), Some(("", "")));
    assert_eq!(split_target("coap://hö/ß"), Some(("hö", "ß")));
    assert_eq!(split_target("coap:/"), None);
    assert_eq!(split_target(""), None);
    assert_eq!(split_target("Coap://host/a"), None);
}

#[test]
fn a_path_that_does_not_fit_is_refused_and_takes_an_id() {
    let mut transport = CoapTransport::new("127.0.0.1:0");
    let target = format!("coap://h/{}", "a".repeat(1200));
    assert_eq!(
        transport.exchange(&target, b"").err().expect("refused"),
        CoapError::MessageTooLarge
    );
    let target = format!("coap://h/{}", "a".repeat(70000));
    assert_eq!(
        transport.exchange(&target, b"").err().expect("refused"),
        CoapError::OptionValueTooLong
    );
    let exchange = transport.exchange("coap://h/a", b"").expect("sending");
    assert_eq!(decode(exchange.datagram()).expect("decode").id, 3);
}

#[test]
fn message_ids_count_up_and_wrap() {
    let mut transport = CoapTransport::new("127.0.0.1:0");
    let mut wanted: u16 = 1;
    for _ in 0..65537 {
        let exchange = transport.exchange("coap://h/a", b"").expect("sending");
        let datagram = exchange.datagram();
        assert_eq!([datagram[2], datagram[3]], wanted.to_be_bytes());
        wanted = wanted.wrapping_add(1);
    }
}

#[test]
fn a_non_confirmable_send_does_not_wait() {
    let far_end = CoapTransport::new("127.0.0.1:0").timing_out_after(2 * SECOND);
    let mut exchange = CoapTransport::new("127.0.0.1:0")
        .non_confirmable()
        .exchange("coap://127.0.0.1:40001/fire", b"forget")
        .expect("sending");
    let done = match exchange.step(Event::Sent) {
        Step::Done(message) => message,
        other => panic!("{:?}", other),
    };
    assert_eq!(done, Message::request(Kind::NonConfirmable, 0, 1, "", b""));
    let request = taken(&far_end, exchange.datagram());
    assert_eq!(request.message.kind, Kind::NonConfirmable);
    assert_eq!(request.message.payload, b"forget");
}

#[test]
fn what_is_not_a_request_is_answered_with_reset() {
    let far_end = CoapTransport::new("127.0.0.1:0");
    let stray = Message::request(Kind::Confirmable, CHANGED, 0x1234, "a", b"x");
    let stray = encode(&stray).expect("encode");
    let reset = match far_end.receive_one("peer", &stray).expect("receiving") {
        Incoming::Reset(reset) => reset,
        Incoming::Request(_) => panic!("a request"),
    };
    assert_eq!(reset, [0x70, 0, 0x12, 0x34]);
    let reset = decode(&reset).expect("decode");
    assert_eq!(reset.kind, Kind::Reset);
    assert_eq!(reset.id, 0x1234);
    assert!(far_end.receive_one("peer", &[0, 0, 0, 0]).is_err());
}

#[test]
fn what_was_taken_is_acknowledged_with_changed() {
    let far_end = CoapTransport::new("127.0.0.1:0");
    let mut exchange = CoapTransport::new("127.0.0.1:0")
        .exchange("coap://h/a", b"x")
        .expect("sending");
    let request = taken(&far_end, exchange.datagram());
    let answer = far_end.acknowledge(&request).expect("responding");
    assert_eq!(answer, [0x62, CHANGED, 0, 1, 0, 1]);
    let response = answered(&mut exchange, answer);
    assert_eq!(response.kind, Kind::Acknowledgement);
    assert_eq!(response.code, CHANGED);
    assert_eq!(response.token, request.message.token);
}

#[test]
fn an_answer_that_cannot_be_read_is_refused() {
    let mut exchange = CoapTransport::new("127.0.0.1:0")
        .exchange("coap://h/a", b"x")
        .expect("sending");
    assert_eq!(
        exchange.step(arrived(vec![0x40])),
        Step::Refused(CoapError::NotCoap)
    );
}

#[test]
fn an_answer_that_fills_the_datagram_ends_the_exchange() {
    let far_end = CoapTransport::new("127.0.0.1:0");
    let mut exchange = CoapTransport::new("127.0.0.1:0")
        .exchange("coap://h/a", b"x")
        .expect("sending");
    let request = taken(&far_end, exchange.datagram());
    let answer = far_end.respond(&request, CREATED, &[7; 1145]).expect("responding");
    assert_eq!(answered(&mut exchange, answer).payload, [7; 1145]);
    assert_eq!(
        far_end.respond(&request, CREATED, &[7; 1146]),
        Err(CoapError::MessageTooLarge)
    );
}

#[test]
fn an_answer_over_the_datagram_is_refused() {
    let far_end = CoapTransport::new("127.0.0.1:0");
    let exchange = CoapTransport::new("127.0.0.1:0")
        .exchange("coap://h/a", b"x")
        .expect("sending");
    let request = taken(&far_end, exchange.datagram());
    assert_eq!(
        far_end.respond(&request, CHANGED, &[0; 1200]),
        Err(CoapError::MessageTooLarge)
    );
}

#[test]
fn a_transport_is_what_it_was_made_to_be() {
    let plain = CoapTransport::new("0.0.0.0:5683");
    assert_eq!(plain.bind(), ("0.0.0.0:5683", None));
    assert_eq!(plain.ack_timeout(), 2 * SECOND);
    let mut made = CoapTransport::new("b")
        .with_code(PUT)
        .acknowledged_within(7)
        .timing_out_after(9);
    assert_eq!(made.bind(), ("b", Some(9)));
    assert_eq!(made.ack_timeout(), 7);
    let exchange = made.exchange("coap://h/a", b"").expect("sending");
    let request = decode(exchange.datagram()).expect("decode");
    assert_eq!(request.code, PUT);
    assert_eq!(request.kind, Kind::Confirmable);
    assert_eq!(LONGEST_TIMEOUT, std::time::Duration::MAX.as_nanos());
}

#[test]
fn an_origin_carries_what_the_header_knew() {
    assert_eq!(
        origin_uri("peer", "sensors/1", POST, 4660),
        "coap://peer/sensors/1?code=0.02&id=4660"
    );
    assert_eq!(origin_uri("", "", 0xff, 0), "coap:///?code=7.31&id=0");
    assert_eq!(origin_uri("p", "q", 1, 65535), "coap://p/q?code=0.01&id=65535");
    let request = Request {
        peer: "peer".to_owned(),
        message: Message::request(Kind::Confirmable, POST, 0x1234, "/sensors/1/", b"21.5"),
    };
    assert_eq!(
        request.arrived().origin_uri,
        "coap://peer/sensors/1?code=0.02&id=4660"
    );
}

#[test]
fn errors_say_what_they_are() {
    for (error, text) in [
        (CoapError::TokenTooLong, "a token over eight bytes"),
        (CoapError::OptionValueTooLong, "an option value over what CoAP can frame"),
        (CoapError::MessageTooLarge, "a message over what a CoAP datagram carries"),
        (CoapError::NotCoap, "a datagram that is not CoAP version 1"),
        (CoapError::TokenLengthOverEight, "a token length over eight"),
        (CoapError::TokenPastDatagram, "a token longer than the datagram"),
        (CoapError::ExtensionPastDatagram, "an option extension past the datagram"),
        (CoapError::ExtensionTooLarge, "an option extension over what CoAP has"),
        (CoapError::ReservedNibble, "the reserved option nibble 15"),
        (CoapError::OptionNumberTooLarge, "an option number over what CoAP has"),
        (CoapError::OptionPastDatagram, "an option that runs past the datagram"),
        (CoapError::EmptyPayload, "a payload marker with no payload"),
        (
            CoapError::PayloadTooLarge,
            "a payload over what one CoAP message carries; block-wise transfer is not here",
        ),
    ] {
        assert_eq!(error.message(), text);
        assert!(!error.retryable());
    }
    assert_eq!(
        CoapError::NotAcknowledged.message(),
        "the peer did not acknowledge after every retransmission"
    );
    assert_eq!(CoapError::PeerReset.message(), "the peer answered Reset");
    assert!(!CoapError::PeerReset.retryable());
}
