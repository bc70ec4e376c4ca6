//! Both ends of one exchange on one machine: a Stream goes as confirmable
//! POSTs of at most [`MAX_PAYLOAD`] bytes in turn, each acknowledged before
//! the next, then an empty POST to close. The far end takes them in order, a
//! retransmitted one only once.
//!
//! [`MAX_PAYLOAD`]: crate::message::MAX_PAYLOAD

use std::collections::VecDeque;

use vstd::prelude::*;
use vstd::slice::*;
use vstd::string::*;

use crate::message::{append_bytes, MAX_PAYLOAD};
use crate::transport::{
    arrival, new_transport, Arrived, ArrivedView, CoapTransport, Request, RequestView,
    TransportView,
};

verus! {

/// Loopback acknowledges within a millisecond; a hundred, doubled on every
/// retransmission, keeps a far end that went away inside the bound a round
/// is judged by. In nanoseconds.
pub const LOOPBACK_ACK: u128 = 100_000_000;

/// How many of the posts taken last are remembered: as many as can have
/// message ids of their own, but for the one that comes next. A post that
/// comes again meanwhile is known; an id that comes round again is new.
pub const REMEMBERED: usize = 65_535;

/// What has been taken of a Stream so far.
pub struct Gathering {
    bytes: Vec<u8>,
    seen: VecDeque<(String, u16)>,
}

/// What has been taken of a Stream, as a mathematical value.
#[verifier::ext_equal]
pub struct GatheringView {
    /// The payloads taken, in order.
    pub bytes: Seq<u8>,
    /// The peers and the message ids of the posts taken last, the latest last.
    pub seen: Seq<(Seq<char>, u16)>,
}

/// The views of `seen`.
pub open spec fn seen_views(seen: Seq<(String, u16)>) -> Seq<(Seq<char>, u16)> {
    seen.map_values(|post: (String, u16)| (post.0@, post.1))
}

impl View for Gathering {
    type V = GatheringView;

    closed spec fn view(&self) -> GatheringView {
        GatheringView { bytes: self.bytes@, seen: seen_views(self.seen@) }
    }
}

/// Nothing taken yet.
pub open spec fn nothing_taken() -> GatheringView {
    GatheringView { bytes: Seq::empty(), seen: Seq::empty() }
}

/// What a post is known by: its peer and its message id.
pub open spec fn post_key(request: RequestView) -> (Seq<char>, u16) {
    (request.peer, request.message.id)
}

/// What is remembered once a post with `key` is taken.
pub open spec fn remembering(seen: Seq<(Seq<char>, u16)>, key: (Seq<char>, u16)) -> Seq<
    (Seq<char>, u16),
> {
    if seen.len() < REMEMBERED {
        seen.push(key)
    } else {
        seen.drop_first().push(key)
    }
}

/// What is taken once `request` has come, and the whole Stream where it closes
/// it. A request that was taken already, and is remembered, adds nothing.
pub open spec fn taken(gathering: GatheringView, request: RequestView) -> (
    GatheringView,
    Option<ArrivedView>,
) {
    let seen = remembering(gathering.seen, post_key(request));
    if gathering.seen.contains(post_key(request)) {
        (gathering, None)
    } else if request.message.payload.len() == 0 {
        (
            GatheringView { seen, ..gathering },
            Some(
                ArrivedView {
                    origin_uri: arrival(request).origin_uri,
                    bytes: gathering.bytes,
                },
            ),
        )
    } else {
        (GatheringView { bytes: gathering.bytes + request.message.payload, seen }, None)
    }
}

/// What is taken once all of `requests` have come in turn.
pub open spec fn all_taken(gathering: GatheringView, requests: Seq<RequestView>) -> GatheringView
    decreases requests.len(),
{
    if requests.len() == 0 {
        gathering
    } else {
        taken(all_taken(gathering, requests.drop_last()), requests.last()).0
    }
}

/// Never more than [`REMEMBERED`] posts are remembered.
pub proof fn memory_is_bounded(requests: Seq<RequestView>)
    ensures
        all_taken(nothing_taken(), requests).seen.len() <= REMEMBERED,
    decreases requests.len(),
{
    if requests.len() > 0 {
        memory_is_bounded(requests.drop_last());
    }
}

proof fn lemma_still_remembered(
    gathering: GatheringView,
    requests: Seq<RequestView>,
    key: (Seq<char>, u16),
)
    requires
        0 < gathering.seen.len() <= REMEMBERED,
        gathering.seen.last() == key,
        requests.len() < REMEMBERED,
    ensures
        ({
            let seen = all_taken(gathering, requests).seen;
            &&& seen.len() <= REMEMBERED
            &&& exists|i: int|
                0 <= i < seen.len() && seen.len() - 1 - i <= requests.len() && #[trigger] seen[i]
                    == key
        }),
    decreases requests.len(),
{
    let seen = all_taken(gathering, requests).seen;
    if requests.len() == 0 {
        assert(seen[seen.len() - 1] == key);
    } else {
        let before = all_taken(gathering, requests.drop_last()).seen;
        lemma_still_remembered(gathering, requests.drop_last(), key);
        let i = choose|i: int|
            0 <= i < before.len() && before.len() - 1 - i <= requests.len() - 1
                && #[trigger] before[i] == key;
        if seen.len() == before.len() && seen != before {
            assert(seen[i - 1] == key);
        } else {
            assert(seen[i] == key);
        }
    }
}

/// A post that is retransmitted is taken once: when it comes again, and fewer
/// than [`REMEMBERED`] others came since it was taken, it adds nothing.
pub proof fn a_repeated_post_is_taken_once(
    gathering: GatheringView,
    request: RequestView,
    between: Seq<RequestView>,
)
    requires
        gathering.seen.len() <= REMEMBERED,
        !gathering.seen.contains(post_key(request)),
        between.len() < REMEMBERED,
    ensures
        ({
            let now = all_taken(taken(gathering, request).0, between);
            taken(now, request) == (now, None::<ArrivedView>)
        }),
{
    lemma_still_remembered(taken(gathering, request).0, between, post_key(request));
}

impl Gathering {
    /// Nothing taken yet.
    #[must_use]
    pub fn new() -> (gathering: Self)
        ensures
            gathering@ == nothing_taken(),
    {
        let gathering = Gathering { bytes: Vec::new(), seen: VecDeque::new() };
        assert(gathering@ =~= nothing_taken());
        gathering
    }

    /// Whether a post from `peer` under `id` was taken, and is remembered.
    fn has_seen(&self, peer: &String, id: u16) -> (yes: bool)
        ensures
            yes == self@.seen.contains((peer@, id)),
    {
        let ghost seen = self@.seen;
        let mut i: usize = self.seen.len();
        while i > 0
            invariant
                i <= self.seen@.len(),
                seen == seen_views(self.seen@),
                seen == self@.seen,
                forall|k: int| i <= k < seen.len() ==> #[trigger] seen[k] != (peer@, id),
            decreases i,
        {
            i = i - 1;
            let post: &(String, u16) = &self.seen[i];
            assert(seen[i as int] == (post.0@, post.1));
            if post.1 == id && post.0 == *peer {
                return true;
            }
        }
        false
    }

    /// Remembers a post from `peer` under `id`.
    fn remember(&mut self, peer: &String, id: u16)
        ensures
            final(self)@ == (GatheringView {
                seen: remembering(old(self)@.seen, (peer@, id)),
                ..old(self)@
            }),
    {
        let ghost before = self@.seen;
        if self.seen.len() >= REMEMBERED {
            let _ = self.seen.pop_front();
            assert(seen_views(self.seen@) =~= before.drop_first());
        }
        let ghost kept = seen_views(self.seen@);
        self.seen.push_back((peer.clone(), id));
        assert(seen_views(self.seen@) =~= kept.push((peer@, id)));
    }

    /// Takes `request`, once it has been answered: the whole Stream where it
    /// closes it.
    pub fn take_one(&mut self, request: &Request) -> (out: Option<Arrived>)
        ensures
            match out {
                Some(arrived) => taken(old(self)@, request@) == (final(self)@, Some(arrived@)),
                None => taken(old(self)@, request@) == (final(self)@, None::<ArrivedView>),
            },
    {
        if self.has_seen(&request.peer, request.message.id) {
            return None;
        }
        self.remember(&request.peer, request.message.id);
        if request.message.payload.is_empty() {
            let arrived: Arrived = request.arrived();
            return Some(
                Arrived {
                    origin_uri: arrived.origin_uri,
                    bytes: slice_to_vec(self.bytes.as_slice()),
                },
            );
        }
        append_bytes(&mut self.bytes, request.message.payload.as_slice());
        None
    }
}

/// A Stream in the blocks in which it is sent: as many full ones as it fills,
/// what is left, and an empty one to close.
pub open spec fn blocks(payload: Seq<u8>) -> Seq<Seq<u8>>
    decreases payload.len(),
{
    if payload.len() == 0 {
        seq![Seq::empty()]
    } else if payload.len() <= MAX_PAYLOAD {
        seq![payload, Seq::empty()]
    } else {
        seq![payload.take(MAX_PAYLOAD as int)] + blocks(payload.skip(MAX_PAYLOAD as int))
    }
}

/// What is posted at the far end, given its address.
pub open spec fn far_target(address: Seq<char>) -> Seq<char> {
    "coap://"@ + address + "/pingpong"@
}

/// The views of `vectors`.
pub open spec fn byte_views(vectors: Seq<Vec<u8>>) -> Seq<Seq<u8>> {
    vectors.map_values(|bytes: Vec<u8>| bytes@)
}

/// A Stream in the blocks in which it is sent.
pub fn into_blocks(payload: &[u8]) -> (out: Vec<Vec<u8>>)
    ensures
        byte_views(out@) == blocks(payload@),
{
    let mut out: Vec<Vec<u8>> = Vec::new();
    let mut at: usize = 0;
    proof {
        assert(payload@.skip(0) =~= payload@);
        assert(byte_views(out@) + blocks(payload@) =~= blocks(payload@));
    }
    while payload.len() - at > MAX_PAYLOAD
        invariant
            at <= payload@.len(),
            byte_views(out@) + blocks(payload@.skip(at as int)) == blocks(payload@),
        decreases payload@.len() - at,
    {
        let block: Vec<u8> = slice_to_vec(slice_subrange(payload, at, at + MAX_PAYLOAD));
        let ghost before = byte_views(out@);
        let ghost rest = payload@.skip(at as int);
        out.push(block);
        at = at + MAX_PAYLOAD;
        proof {
            assert(block@ =~= rest.take(MAX_PAYLOAD as int));
            assert(payload@.skip(at as int) =~= rest.skip(MAX_PAYLOAD as int));
            assert(byte_views(out@) =~= before.push(block@));
            assert(byte_views(out@) + blocks(payload@.skip(at as int)) =~= before + blocks(rest));
        }
    }
    let ghost rest = payload@.skip(at as int);
    let ghost before = byte_views(out@);
    if at < payload.len() {
        let block: Vec<u8> = slice_to_vec(slice_subrange(payload, at, payload.len()));
        assert(block@ =~= rest);
        out.push(block);
        assert(byte_views(out@) =~= before.push(rest));
    }
    let ghost almost = byte_views(out@);
    out.push(Vec::new());
    proof {
        assert(byte_views(out@) =~= almost.push(Seq::empty()));
        assert(byte_views(out@) =~= before + blocks(rest));
    }
    out
}

/// What carries a Stream to the far end: who sends it, to what, in which
/// blocks.
pub struct Posts {
    pub near_end: CoapTransport,
    pub target: String,
    pub blocks: Vec<Vec<u8>>,
}

impl CoapTransport {
    /// Both ends on this machine: an ephemeral local port, `receive_timeout`
    /// on the receive, a short wait for each acknowledgement.
    #[must_use]
    pub fn loopback(receive_timeout: u128) -> (transport: Self)
        ensures
            transport@ == (TransportView {
                ack_timeout: LOOPBACK_ACK,
                receive_timeout: Some(receive_timeout),
                ..new_transport("127.0.0.1:0"@)
            }),
    {
        CoapTransport::new("127.0.0.1:0").acknowledged_within(LOOPBACK_ACK).timing_out_after(
            receive_timeout,
        )
    }

    /// What carries `payload` to the far end at `address`.
    #[must_use]
    pub fn send_to(&self, address: &str, payload: &[u8]) -> (posts: Posts)
        ensures
            posts.near_end@ == (TransportView {
                ack_timeout: self@.ack_timeout,
                ..new_transport("127.0.0.1:0"@)
            }),
            posts.target@ == far_target(address@),
            byte_views(posts.blocks@) == blocks(payload@),
    {
        let near_end: CoapTransport = CoapTransport::new("127.0.0.1:0").acknowledged_within(
            self.ack_timeout(),
        );
        let mut target: String = "coap://".to_owned();
        target.append(address);
        target.append("/pingpong");
        Posts { near_end, target, blocks: into_blocks(payload) }
    }
}

} // verus!
