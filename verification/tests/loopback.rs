use coap_transport::loopback::{into_blocks, LOOPBACK_ACK, REMEMBERED};
use coap_transport::{
    Arrived, CoapError, CoapTransport, Event, Failure, Gathering, Incoming, Kind, Message, Request, Step, MAX_PAYLOAD,
};

const LOOPBACK_TIMEOUT: u128 = 5_000_000_000;

/// A Stream there and back, every post arriving `times` times.
fn round_of(server: &CoapTransport, payload: &[u8], times: usize) -> Arrived {
    let far_end = CoapTransport::loopback(LOOPBACK_TIMEOUT);
    let mut gathering = Gathering::new();
    let posts = server.send_to("127.0.0.1:40000", payload);
    let mut near_end = posts.near_end;
    let mut closed = None;
    for block in &posts.blocks {
        assert!(closed.is_none());
        let mut exchange = near_end.exchange(&posts.target, block).expect("sending");
        assert_eq!(exchange.address(), "127.0.0.1:40000");
        assert_eq!(exchange.step(Event::Sent), Step::Await(LOOPBACK_ACK));
        let mut answer = Vec::new();
        for _ in 0..times {
            let request = match far_end
                .receive_one("127.0.0.1:40001", exchange.datagram())
                .expect("receiving")
            {
                Incoming::Request(request) => request,
                Incoming::Reset(_) => panic!("not a request"),
            };
            answer = far_end.acknowledge(&request).expect("responding");
            if let Some(arrived) = gathering.take_one(&request) {
                closed = Some(arrived);
            }
        }
        match exchange.step(Event::Arrived { datagram: answer, left: 1 }) {
            Step::Done(_) => {}
            other => panic!("{:?}", other),
        }
    }
    closed.expect("closed")
}

fn round(server: &CoapTransport, payload: &[u8]) -> Arrived {
    round_of(server, payload, 1)
}

/// The shapes a transport is most likely to change: nothing, one byte,
/// every byte value, a run of NULs, high bytes, and line endings alone.
fn edge_payloads() -> Vec<(&'static str, Vec<u8>)> {
    vec![
        ("empty", Vec::new()),
        ("one byte", vec![0x2a]),
        ("every byte", (0..=255).collect()),
        ("nul run", vec![0; 512]),
        ("high bytes", vec![0xff; 512]),
        ("crlf storm", b"\r\n".repeat(400)),
    ]
}

#[test]
fn the_loopback_carries_a_stream_as_posts_in_turn() {
    let server = CoapTransport::loopback(LOOPBACK_TIMEOUT);
    let arrived = round(&server, b"post");
    assert_eq!(arrived.bytes, b"post");
    assert!(arrived.origin_uri.starts_with("coap://127.0.0.1:"));
    assert!(arrived.origin_uri.contains("/pingpong?code=0.02&id="));
    let long = vec![0x2a; 5000];
    assert_eq!(round(&server, &long).bytes, long);
    assert!(round(&server, b"").bytes.is_empty());
}

#[test]
fn the_loopback_returns_the_edge_payloads_whole() {
    let server = CoapTransport::loopback(LOOPBACK_TIMEOUT);
    for (name, bytes) in edge_payloads() {
        assert_eq!(round(&server, &bytes).bytes, bytes, "{name}");
    }
}

#[test]
fn a_post_that_arrives_again_is_taken_once() {
    let server = CoapTransport::loopback(LOOPBACK_TIMEOUT);
    let long: Vec<u8> = (0..3000u32).map(|i| i as u8).collect();
    for times in 1..5 {
        assert_eq!(round_of(&server, &long, times).bytes, long);
    }
    assert_eq!(
        round_of(&server, &long, 2).origin_uri,
        "coap://127.0.0.1:40001/pingpong?code=0.02&id=4"
    );
}

#[test]
fn a_post_that_arrives_again_late_is_taken_once() {
    let far_end = CoapTransport::loopback(LOOPBACK_TIMEOUT);
    let mut gathering = Gathering::new();
    let mut take = |datagram: &[u8]| {
        match far_end.receive_one("127.0.0.1:9", datagram).expect("receiving") {
            Incoming::Request(request) => gathering.take_one(&request),
            Incoming::Reset(_) => panic!("not a request"),
        }
    };
    let first = [0x42, 0x02, 0, 1, 0, 1, 0xff, b'a'];
    assert_eq!(take(&first), None);
    assert_eq!(take(&[0x42, 0x02, 0, 2, 0, 2, 0xff, b'b']), None);
    assert_eq!(take(&first), None);
    let arrived = take(&[0x42, 0x02, 0, 3, 0, 3]).expect("closed");
    assert_eq!(arrived.bytes, b"ab");
}

#[test]
fn an_id_that_comes_round_again_is_another_post() {
    let mut gathering = Gathering::new();
    let post = |count: usize, payload: &[u8]| Request {
        peer: "a".to_owned(),
        message: Message::request(Kind::NonConfirmable, 2, count as u16, "", payload),
    };
    for count in 0..REMEMBERED {
        assert_eq!(gathering.take_one(&post(count, b"x")), None);
    }
    assert_eq!(gathering.take_one(&post(0, b"x")), None);
    assert_eq!(gathering.take_one(&post(REMEMBERED, b"y")), None);
    assert_eq!(gathering.take_one(&post(REMEMBERED + 1, b"z")), None);
    assert_eq!(gathering.take_one(&post(REMEMBERED, b"y")), None);
    let bytes = gathering.take_one(&post(REMEMBERED + 2, b"")).expect("closed").bytes;
    assert_eq!(bytes.len(), REMEMBERED + 2);
    assert_eq!(&bytes[REMEMBERED - 1..], b"xyz");
}

#[test]
fn a_stream_is_cut_into_full_blocks_and_closed() {
    let sizes = |length: usize| {
        into_blocks(&vec![1; length])
            .iter()
            .map(|block| block.len())
            .collect::<Vec<usize>>()
    };
    assert_eq!(sizes(0), vec![0]);
    assert_eq!(sizes(1), vec![1, 0]);
    assert_eq!(sizes(MAX_PAYLOAD), vec![1024, 0]);
    assert_eq!(sizes(MAX_PAYLOAD + 1), vec![1024, 1, 0]);
    assert_eq!(sizes(2 * MAX_PAYLOAD), vec![1024, 1024, 0]);
    let stream: Vec<u8> = (0..2500u32).map(|i| (i % 251) as u8).collect();
    assert_eq!(into_blocks(&stream).concat(), stream);
}

#[test]
fn the_same_id_from_another_peer_is_another_post() {
    let mut gathering = Gathering::new();
    let from = |peer: &str, id: u16, payload: &[u8]| Request {
        peer: peer.to_owned(),
        message: Message::request(Kind::Confirmable, 2, id, "pingpong", payload),
    };
    assert_eq!(gathering.take_one(&from("a", 1, b"x")), None);
    assert_eq!(gathering.take_one(&from("a", 1, b"x")), None);
    assert_eq!(gathering.take_one(&from("b", 1, b"y")), None);
    assert_eq!(gathering.take_one(&from("a", 1, b"x")), None);
    assert_eq!(gathering.take_one(&from("a", 3, b"z")), None);
    assert_eq!(
        gathering.take_one(&from("a", 2, b"")),
        Some(Arrived {
            origin_uri: "coap://a/pingpong?code=0.02&id=2".to_owned(),
            bytes: b"xyz".to_vec(),
        })
    );
}

#[test]
fn a_far_end_that_went_away_is_awaited_three_seconds_and_a_tenth() {
    let posts = CoapTransport::loopback(LOOPBACK_TIMEOUT).send_to("h:1", b"");
    let mut near_end = posts.near_end;
    let mut exchange = near_end.exchange(&posts.target, b"").expect("sending");
    let mut awaited: u128 = 0;
    let mut step = Step::Send;
    loop {
        step = match step {
            Step::Send => exchange.step(Event::Sent),
            Step::Await(timeout) => {
                awaited += timeout;
                exchange.step(Event::Failed(Failure::TimedOut))
            }
            other => {
                assert_eq!(other, Step::Refused(CoapError::NotAcknowledged));
                break;
            }
        };
    }
    assert_eq!(awaited, 3_100_000_000);
}

#[test]
fn the_loopback_ends_are_set_up_for_this_machine() {
    let server = CoapTransport::loopback(LOOPBACK_TIMEOUT);
    assert_eq!(server.bind(), ("127.0.0.1:0", Some(LOOPBACK_TIMEOUT)));
    assert_eq!(server.ack_timeout(), 100_000_000);
    let posts = server.acknowledged_within(3).send_to("h:1", b"");
    assert_eq!(posts.target, "coap://h:1/pingpong");
    assert_eq!(posts.near_end.ack_timeout(), 3);
    assert_eq!(posts.near_end.bind(), ("127.0.0.1:0", None));
}
