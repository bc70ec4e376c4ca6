use coap_transport::message::{
    self, decode, encode, extend, extended, BAD_REQUEST, CHANGED, CONTENT_FORMAT, GET, POST, TOO_LARGE, URI_PATH,
    URI_QUERY,
};
use coap_transport::{CoapError, Kind, Message, MAX_DATAGRAM, MAX_PAYLOAD};

fn plain(token: Vec<u8>, options: Vec<(u16, Vec<u8>)>, payload: Vec<u8>) -> Message {
    Message {
        kind: Kind::Confirmable,
        code: GET,
        id: 0x0102,
        token,
        options,
        payload,
    }
}

#[test]
fn a_request_round_trips_with_its_options_in_order() {
    let mut request = Message::request(Kind::Confirmable, POST, 0x1234, "/sensors/1/", b"21.5");
    request.options.push((CONTENT_FORMAT, vec![0]));
    request.options.push((URI_QUERY, b"unit=c".to_vec()));
    request.options.push((2000, vec![0x2a; 300]));
    let bytes = encode(&request).expect("encode");
    assert_eq!(&bytes[..4], &[0x42, POST, 0x12, 0x34]);
    let back = decode(&bytes).expect("decode");
    assert_eq!(back.uri_path(), "sensors/1");
    assert_eq!(back.payload, b"21.5");
    assert_eq!(back.token, [0x12, 0x34]);
    assert_eq!(back.options.len(), 5);
    assert_eq!(back.options[4].0, 2000);
    assert_eq!(back.options[4].1.len(), 300);
    assert!(back.is_request());
    let response = back.response(CHANGED, b"");
    assert_eq!(response.kind, Kind::Acknowledgement);
    assert_eq!(response.code_text(), "2.04");
    assert!(!response.is_request());
    let bytes = encode(&response).expect("encode");
    assert_eq!(decode(&bytes).expect("decode"), response);
}

#[test]
fn what_is_not_coap_is_refused() {
    assert!(decode(&[0x00, 0x01, 0, 0]).is_err(), "version 0");
    assert!(decode(&[0x49, 0x01, 0, 0]).is_err(), "token length 9");
    assert!(decode(&[0x42, 0x01, 0, 0, 1]).is_err(), "short token");
    assert!(decode(&[0x40, 0x01, 0, 0, 0xf0]).is_err(), "nibble 15");
    assert!(decode(&[0x40, 0x01, 0, 0, 0xd0]).is_err(), "no extension");
    assert!(decode(&[0x40, 0x01, 0, 0, 0x12, b'a']).is_err(), "past");
    assert!(decode(&[0x40, 0x01, 0, 0, 0xff]).is_err(), "empty payload");
    let big = Message::request(Kind::Confirmable, POST, 1, "p", &[0; 1200]);
    assert!(encode(&big).is_err(), "over the datagram");
}

#[test]
fn each_refusal_says_what_was_wrong() {
    let read = |datagram: &[u8]| decode(datagram).expect_err("refused");
    assert_eq!(read(&[]), CoapError::NotCoap);
    assert_eq!(read(&[0x40, 0x01, 0]), CoapError::NotCoap);
    assert_eq!(read(&[0x80, 0x01, 0, 0]), CoapError::NotCoap);
    assert_eq!(read(&[0x49, 0x01, 0, 0]), CoapError::TokenLengthOverEight);
    assert_eq!(read(&[0x42, 0x01, 0, 0, 1]), CoapError::TokenPastDatagram);
    assert_eq!(read(&[0x40, 0x01, 0, 0, 0xd0]), CoapError::ExtensionPastDatagram);
    assert_eq!(read(&[0x40, 0x01, 0, 0, 0xe0, 0]), CoapError::ExtensionPastDatagram);
    assert_eq!(read(&[0x40, 0x01, 0, 0, 0x0e]), CoapError::ExtensionPastDatagram);
    assert_eq!(read(&[0x40, 0x01, 0, 0, 0xe0, 0xff, 0xff]), CoapError::ExtensionTooLarge);
    assert_eq!(read(&[0x40, 0x01, 0, 0, 0xf0]), CoapError::ReservedNibble);
    assert_eq!(read(&[0x40, 0x01, 0, 0, 0x0f]), CoapError::ReservedNibble);
    assert_eq!(
        read(&[0x40, 0x01, 0, 0, 0xe0, 0xfe, 0xf2, 0x10]),
        CoapError::OptionNumberTooLarge
    );
    assert_eq!(read(&[0x40, 0x01, 0, 0, 0x12, b'a']), CoapError::OptionPastDatagram);
    assert_eq!(read(&[0x40, 0x01, 0, 0, 0xff]), CoapError::EmptyPayload);
}

#[test]
fn each_message_that_cannot_be_framed_says_why() {
    let frame = |message: Message| encode(&message).expect_err("refused");
    assert_eq!(frame(plain(vec![0; 9], vec![], vec![])), CoapError::TokenTooLong);
    assert_eq!(
        frame(plain(vec![], vec![(1, vec![0; 0x10000])], vec![])),
        CoapError::OptionValueTooLong
    );
    assert_eq!(
        frame(plain(vec![], vec![(1, vec![0; 0xffff])], vec![])),
        CoapError::MessageTooLarge
    );
    assert_eq!(
        frame(plain(vec![0; 9], vec![(1, vec![0; 0x10000])], vec![])),
        CoapError::TokenTooLong
    );
    assert_eq!(
        frame(plain(vec![], vec![], vec![0; MAX_DATAGRAM - 4])),
        CoapError::MessageTooLarge
    );
    let fits = plain(vec![], vec![], vec![0; MAX_DATAGRAM - 5]);
    assert_eq!(encode(&fits).expect("fits").len(), MAX_DATAGRAM);
}

#[test]
fn a_message_has_the_bytes_it_should() {
    let message = plain(
        vec![9],
        vec![(11, b"ab".to_vec()), (24, vec![7; 13]), (2000, vec![])],
        vec![1, 2],
    );
    let mut wanted = vec![0x41, 0x01, 0x01, 0x02, 9];
    wanted.extend_from_slice(&[0xb2, b'a', b'b']);
    wanted.extend_from_slice(&[0xdd, 0, 0]);
    wanted.extend_from_slice(&[7; 13]);
    wanted.extend_from_slice(&[0xe0, 0x06, 0xab]);
    wanted.extend_from_slice(&[0xff, 1, 2]);
    assert_eq!(encode(&message).expect("encode"), wanted);
    assert_eq!(decode(&wanted).expect("decode"), message);
}

#[test]
fn the_edges_of_the_extensions_round_trip() {
    for number in [0u16, 12, 13, 268, 269, 270, 65535] {
        for length in [0usize, 12, 13, 268, 269, 300] {
            let message = plain(vec![], vec![(number, vec![5; length])], vec![]);
            let bytes = encode(&message).expect("encode");
            assert_eq!(decode(&bytes).expect("decode"), message);
        }
    }
}

#[test]
fn what_extend_writes_extended_reads() {
    for (value, nibble, extra) in [
        (0u16, 0u8, vec![]),
        (12, 12, vec![]),
        (13, 13, vec![0]),
        (268, 13, vec![255]),
        (269, 14, vec![0, 0]),
        (65535, 14, vec![0xfe, 0xf2]),
    ] {
        assert_eq!(extend(value), (nibble, extra.clone()));
        let mut datagram = vec![7, 7, 7];
        datagram.extend_from_slice(&extra);
        datagram.push(9);
        let mut at: usize = 3;
        assert_eq!(extended(&datagram, &mut at, nibble), Ok(value));
        assert_eq!(at, 3 + extra.len());
    }
    let mut at: usize = 0;
    assert_eq!(extended(&[], &mut at, 13), Err(CoapError::ExtensionPastDatagram));
    assert_eq!(extended(&[1], &mut at, 14), Err(CoapError::ExtensionPastDatagram));
    assert_eq!(extended(&[1], &mut at, 15), Err(CoapError::ReservedNibble));
    assert_eq!(at, 0);
    assert_eq!(extended(&[255, 255], &mut at, 14), Err(CoapError::ExtensionTooLarge));
    assert_eq!(at, 2);
}

#[test]
fn options_are_sent_by_number_and_keep_their_order_otherwise() {
    let message = plain(
        vec![],
        vec![
            (15, b"x".to_vec()),
            (11, b"one".to_vec()),
            (15, b"a".to_vec()),
            (11, b"two".to_vec()),
            (1, vec![]),
        ],
        vec![],
    );
    let back = decode(&encode(&message).expect("encode")).expect("decode");
    assert_eq!(
        back.options,
        vec![
            (1, vec![]),
            (11, b"one".to_vec()),
            (11, b"two".to_vec()),
            (15, b"x".to_vec()),
            (15, b"a".to_vec()),
        ]
    );
    assert_eq!(back.uri_path(), "one/two");
    assert_eq!(encode(&back).expect("again"), encode(&message).expect("once"));
}

#[test]
fn what_was_read_is_framed_as_it_was() {
    let datagram = [0x62, 0x45, 0xff, 0xfe, 1, 2, 0x61, b'e', 0x50, 0xff, 0xff];
    let message = decode(&datagram).expect("decode");
    assert_eq!(message.kind, Kind::Acknowledgement);
    assert_eq!(message.id, 0xfffe);
    assert_eq!(message.options, vec![(6, b"e".to_vec()), (11, vec![])]);
    assert_eq!(message.payload, vec![0xff]);
    assert_eq!(encode(&message).expect("encode"), datagram);
}

#[test]
fn every_kind_round_trips() {
    for kind in [
        Kind::Confirmable,
        Kind::NonConfirmable,
        Kind::Acknowledgement,
        Kind::Reset,
    ] {
        let message = Message::request(kind, POST, 7, "", b"");
        let bytes = encode(&message).expect("encode");
        assert_eq!(decode(&bytes).expect("decode"), message);
    }
    assert_eq!(
        encode(&Message::request(Kind::Reset, 0, 0, "", b"")).expect("encode"),
        [0x72, 0, 0, 0, 0, 0]
    );
}

#[test]
fn a_path_is_its_segments() {
    let path_of = |path: &str| {
        Message::request(Kind::Confirmable, GET, 1, path, b"")
            .options
            .iter()
            .map(|(number, value)| {
                assert_eq!(*number, URI_PATH);
                value.clone()
            })
            .collect::<Vec<_>>()
    };
    assert_eq!(path_of(""), Vec::<Vec<u8>>::new());
    assert_eq!(path_of("///"), Vec::<Vec<u8>>::new());
    assert_eq!(path_of("a"), vec![b"a".to_vec()]);
    assert_eq!(path_of("/a//b/"), vec![b"a".to_vec(), b"b".to_vec()]);
    assert_eq!(
        path_of("grüße/\u{1f980}"),
        vec!["grüße".as_bytes().to_vec(), "\u{1f980}".as_bytes().to_vec()]
    );
}

#[test]
fn a_path_without_empty_segments_comes_back() {
    for path in ["sensors/1", "a", "grüße/\u{1f980}/z"] {
        let request = Message::request(Kind::NonConfirmable, GET, 1, path, b"");
        let back = decode(&encode(&request).expect("encode")).expect("decode");
        assert_eq!(back.uri_path(), path);
    }
}

#[test]
fn bytes_that_are_not_text_are_replaced_in_a_path() {
    let message = plain(
        vec![],
        vec![(11, b"a".to_vec()), (11, vec![0xff]), (12, vec![1]), (11, b"b".to_vec())],
        vec![],
    );
    assert_eq!(message.uri_path(), "a/\u{fffd}/b");
    assert_eq!(plain(vec![], vec![], vec![]).uri_path(), "");
    assert_eq!(plain(vec![], vec![(11, vec![]), (11, vec![])], vec![]).uri_path(), "/");
}

#[test]
fn a_code_is_written_with_its_class_and_two_digits() {
    for (code, text) in [
        (0, "0.00"),
        (POST, "0.02"),
        (message::CREATED, "2.01"),
        (CHANGED, "2.04"),
        (message::CONTENT, "2.05"),
        (BAD_REQUEST, "4.00"),
        (TOO_LARGE, "4.13"),
        (0xff, "7.31"),
    ] {
        assert_eq!(message::code_to_text(code), text);
        let message = Message::request(Kind::Confirmable, code, 1, "", b"");
        assert_eq!(message.code_text(), text);
    }
}

#[test]
fn a_request_has_class_zero_and_is_not_empty() {
    for (code, yes) in [(0, false), (1, true), (31, true), (32, false), (0x45, false)] {
        let message = Message::request(Kind::Confirmable, code, 1, "", b"");
        assert_eq!(message.is_request(), yes);
    }
}

#[test]
fn an_answer_keeps_id_and_token() {
    let mut request = Message::request(Kind::Confirmable, POST, 77, "a", b"x");
    request.token = vec![1, 2, 3];
    let answer = request.response(BAD_REQUEST, b"no");
    assert_eq!(answer.kind, Kind::Acknowledgement);
    assert_eq!(answer.code, BAD_REQUEST);
    assert_eq!(answer.id, 77);
    assert_eq!(answer.token, vec![1, 2, 3]);
    assert!(answer.options.is_empty());
    assert_eq!(answer.payload, b"no");
    for kind in [Kind::NonConfirmable, Kind::Acknowledgement, Kind::Reset] {
        request.kind = kind;
        assert_eq!(request.response(CHANGED, b"").kind, Kind::NonConfirmable);
    }
}

#[test]
fn what_was_read_can_be_answered_in_full() {
    let request = decode(&[0x48, 0x02, 0, 9, 1, 2, 3, 4, 5, 6, 7, 8]).expect("decode");
    let answer = request.response(CHANGED, &[3; MAX_PAYLOAD]);
    assert_eq!(encode(&answer).expect("encode").len(), 4 + 8 + 1 + MAX_PAYLOAD);
    let most = MAX_DATAGRAM - 4 - 8 - 1;
    assert!(encode(&request.response(CHANGED, &vec![3; most])).is_ok());
    assert_eq!(
        encode(&request.response(CHANGED, &vec![3; most + 1])),
        Err(CoapError::MessageTooLarge)
    );
}
