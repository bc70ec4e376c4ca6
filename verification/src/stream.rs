//! A Stream that goes round the loopback arrives whole.

use vstd::prelude::*;
use vstd::utf8::{encode_utf8, is_ascii_chars, is_ascii_chars_encode_utf8};

use crate::both_ends::{plain_paths_come_back, requests_round_trip};
use crate::error::CoapError;
use crate::loopback::{
    blocks, far_target, nothing_taken, post_key, remembering, taken, GatheringView, REMEMBERED,
};
use crate::message::{
    decoding, encoding, has_long_value, options_wire, wire, MessageView, MAX_PAYLOAD, URI_PATH,
};
use crate::options::order_keeps_what_is_ordered;
use crate::text::{segments, slashless_text_is_one_piece};
use crate::transport::{
    arrival, id_after, next_request, origin, target_parts, ArrivedView, RequestView,
    TransportView,
};

verus! {

/// The message id of the request that comes `steps` after the one with `id`.
pub open spec fn id_later(id: u16, steps: nat) -> u16 {
    ((id + steps) % 65_536) as u16
}

/// What the far end gets from `peer` when `transport` posts each of `blocks`
/// in turn.
pub open spec fn posted(
    transport: TransportView,
    peer: Seq<char>,
    blocks: Seq<Seq<u8>>,
) -> Seq<RequestView> {
    Seq::new(
        blocks.len(),
        |k: int|
            RequestView {
                peer,
                message: next_request(
                    TransportView { next_id: id_later(transport.next_id, k as nat), ..transport },
                    "pingpong"@,
                    blocks[k],
                ),
            },
    )
}

/// How many posts have come, where `arrivals` are the places of those that
/// arrived, each post's own arrival and any repeats, and the first arrivals
/// are in turn.
pub open spec fn came(arrivals: Seq<int>) -> nat
    decreases arrivals.len(),
{
    if arrivals.len() == 0 {
        0
    } else if arrivals.last() == came(arrivals.drop_last()) {
        came(arrivals.drop_last()) + 1
    } else {
        came(arrivals.drop_last())
    }
}

/// `arrivals` can come of posting `count` blocks in turn: all of them come;
/// the next one comes only when those before it have; and any may come again,
/// however late, as long as it is remembered.
pub open spec fn in_turn(arrivals: Seq<int>, count: nat) -> bool {
    &&& came(arrivals) == count
    &&& forall|j: int|
        0 <= j < arrivals.len() ==> {
            &&& 0 <= #[trigger] arrivals[j] < count
            &&& came(arrivals.take(j)) - REMEMBERED <= arrivals[j] <= came(arrivals.take(j))
        }
}

/// The requests that arrive, given the places of those that do.
pub open spec fn arriving(requests: Seq<RequestView>, arrivals: Seq<int>) -> Seq<RequestView> {
    arrivals.map_values(|k: int| requests[k])
}

/// The Stream that comes of taking `requests` in turn, once one closes it.
pub open spec fn gathered(gathering: GatheringView, requests: Seq<RequestView>) -> Option<
    ArrivedView,
>
    decreases requests.len(),
{
    if requests.len() == 0 {
        None
    } else {
        match taken(gathering, requests[0]) {
            (next, Some(arrived)) => Some(arrived),
            (next, None) => gathered(next, requests.drop_first()),
        }
    }
}

/// The message ids of posts in turn are those that a transport gives out.
pub proof fn ids_count_up(id: u16, steps: nat)
    ensures
        id_later(id, 0) == id,
        id_later(id, steps + 1) == id_after(id_later(id, steps)),
{
}

/// The blocks of a Stream, in a row, are the Stream.
pub proof fn blocks_are_the_stream(payload: Seq<u8>)
    ensures
        blocks(payload).flatten() == payload,
    decreases payload.len(),
{
    reveal_with_fuel(Seq::flatten, 3);
    let all = blocks(payload);
    if payload.len() == 0 {
        assert(all.drop_first() =~= Seq::empty());
        assert(all.flatten() =~= payload);
    } else if payload.len() <= MAX_PAYLOAD {
        assert(all.drop_first() =~= seq![Seq::<u8>::empty()]);
        assert(all.drop_first().drop_first() =~= Seq::empty());
        assert(all.flatten() =~= payload);
    } else {
        let rest = payload.skip(MAX_PAYLOAD as int);
        blocks_are_the_stream(rest);
        assert(all.drop_first() =~= blocks(rest));
        assert(payload.take(MAX_PAYLOAD as int) + rest =~= payload);
    }
}

/// No block is over what one message carries, and the last one, and no other,
/// is empty.
pub proof fn blocks_fit_and_close(payload: Seq<u8>)
    ensures
        blocks(payload).len() > 0,
        blocks(payload).last().len() == 0,
        forall|i: int|
            0 <= i < blocks(payload).len() ==> (#[trigger] blocks(payload)[i]).len() <= MAX_PAYLOAD,
        forall|i: int|
            0 <= i < blocks(payload).len() - 1 ==> (#[trigger] blocks(payload)[i]).len() > 0,
    decreases payload.len(),
{
    if payload.len() > MAX_PAYLOAD {
        let rest = payload.skip(MAX_PAYLOAD as int);
        let all = blocks(payload);
        blocks_fit_and_close(rest);
        assert(all.last() == blocks(rest).last());
        assert forall|i: int| 0 <= i < all.len() implies (#[trigger] all[i]).len()
            <= MAX_PAYLOAD by {
            if i > 0 {
                assert(all[i] == blocks(rest)[i - 1]);
            }
        }
        assert forall|i: int| 0 <= i < all.len() - 1 implies (#[trigger] all[i]).len() > 0 by {
            if i > 0 {
                assert(all[i] == blocks(rest)[i - 1]);
            }
        }
    }
}

/// What stands in which block: the first one has the first 1024 bytes of the
/// Stream, the next one the next 1024, and so on, the last one before the
/// closing one what is left; and there are no more blocks than that takes.
pub proof fn blocks_stand_in_the_stream(payload: Seq<u8>)
    ensures
        blocks(payload).len() == (payload.len() + 1023) / 1024 + 1,
        blocks(payload)[blocks(payload).len() - 1].len() == 0,
        forall|i: int|
            0 <= i < blocks(payload).len() - 1 ==> (#[trigger] blocks(payload)[i])
                == payload.subrange(
                1024 * i,
                if 1024 * i + 1024 <= payload.len() {
                    1024 * i + 1024
                } else {
                    payload.len() as int
                },
            ),
    decreases payload.len(),
{
    let all = blocks(payload);
    if payload.len() > MAX_PAYLOAD {
        let rest = payload.skip(MAX_PAYLOAD as int);
        blocks_stand_in_the_stream(rest);
        assert(all.len() == blocks(rest).len() + 1);
        assert forall|i: int| 0 <= i < all.len() - 1 implies (#[trigger] all[i])
            == payload.subrange(
            1024 * i,
            if 1024 * i + 1024 <= payload.len() {
                1024 * i + 1024
            } else {
                payload.len() as int
            },
        ) by {
            if i == 0 {
                assert(all[0] =~= payload.subrange(0, 1024));
            } else {
                let end = if 1024 * i + 1024 <= payload.len() {
                    1024 * i + 1024
                } else {
                    payload.len() as int
                };
                assert(all[i] == blocks(rest)[i - 1]);
                assert(rest.subrange(1024 * (i - 1), end - 1024) =~= payload.subrange(
                    1024 * i,
                    end,
                ));
            }
        }
    } else if payload.len() > 0 {
        assert(all[0] =~= payload.subrange(0, payload.len() as int));
    }
}

/// What a post does to what was taken before it. One that is remembered, by its
/// peer and its message id, does nothing. Any other is remembered, at the cost
/// of the one longest ago where 65535 are remembered already, and its payload
/// stands behind what was taken. One without a payload closes the Stream, which
/// is what was taken, under the origin of that post.
pub proof fn what_a_post_does(gathering: GatheringView, request: RequestView)
    ensures
        ({
            let (next, out) = taken(gathering, request);
            let key = (request.peer, request.message.id);
            let known = exists|i: int|
                0 <= i < gathering.seen.len() && #[trigger] gathering.seen[i] == key;
            &&& known ==> next == gathering && out is None
            &&& !known ==> {
                &&& next.bytes == gathering.bytes + request.message.payload
                &&& gathering.seen.len() < 65_535 ==> next.seen == gathering.seen + seq![key]
                &&& gathering.seen.len() >= 65_535 ==> next.seen == gathering.seen.skip(1)
                    + seq![key]
                &&& out is Some <==> request.message.payload.len() == 0
                &&& out matches Some(arrived) ==> arrived.bytes == gathering.bytes
                    && arrived.origin_uri == arrival(request).origin_uri
            }
        }),
{
    let key = (request.peer, request.message.id);
    let (next, out) = taken(gathering, request);
    assert(gathering.seen.contains(key) <==> exists|i: int|
        0 <= i < gathering.seen.len() && #[trigger] gathering.seen[i] == key);
    if !gathering.seen.contains(key) {
        assert(next.bytes =~= gathering.bytes + request.message.payload);
        if gathering.seen.len() < REMEMBERED {
            assert(next.seen =~= gathering.seen + seq![key]);
        } else {
            assert(next.seen =~= gathering.seen.skip(1) + seq![key]);
        }
    }
}

/// At first nothing is taken and nothing remembered.
pub proof fn nothing_is_taken_at_first()
    ensures
        nothing_taken().bytes.len() == 0,
        nothing_taken().seen.len() == 0,
{
}

/// What has been taken when the first `k` of the posts have come.
#[verifier::opaque]
spec fn taken_of(
    transport: TransportView,
    peer: Seq<char>,
    all: Seq<Seq<u8>>,
    k: nat,
) -> GatheringView {
    let kept = if k < REMEMBERED {
        k
    } else {
        REMEMBERED as nat
    };
    GatheringView {
        bytes: all.take(k as int).flatten(),
        seen: Seq::new(
            kept,
            |i: int| (peer, id_later(transport.next_id, (k - kept + i) as nat)),
        ),
    }
}

proof fn lemma_repeat_is_known(
    transport: TransportView,
    peer: Seq<char>,
    all: Seq<Seq<u8>>,
    k: nat,
    again: int,
)
    requires
        k <= all.len(),
        0 <= again < k,
        k - REMEMBERED <= again,
    ensures
        ({
            let now = taken_of(transport, peer, all, k);
            taken(now, posted(transport, peer, all)[again]) == (now, None::<ArrivedView>)
        }),
{
    reveal(taken_of);
    let now = taken_of(transport, peer, all, k);
    assert(now.seen[again - (k - now.seen.len())] == post_key(
        posted(transport, peer, all)[again],
    ));
}

proof fn lemma_ids_near_differ(id: u16, one: nat, other: nat)
    requires
        one < other <= one + REMEMBERED,
    ensures
        id_later(id, one) != id_later(id, other),
{
}

proof fn lemma_next_is_new(
    transport: TransportView,
    peer: Seq<char>,
    all: Seq<Seq<u8>>,
    k: nat,
)
    requires
        k < all.len(),
    ensures
        ({
            let now = taken_of(transport, peer, all, k);
            let request = posted(transport, peer, all)[k as int];
            let next = taken_of(transport, peer, all, k + 1);
            taken(now, request) == if all[k as int].len() == 0 {
                (
                    next,
                    Some(
                        ArrivedView {
                            origin_uri: arrival(request).origin_uri,
                            bytes: all.take(k as int).flatten(),
                        },
                    ),
                )
            } else {
                (next, None)
            }
        }),
{
    reveal(taken_of);
    let now = taken_of(transport, peer, all, k);
    let request = posted(transport, peer, all)[k as int];
    let next = taken_of(transport, peer, all, k + 1);
    let key = post_key(request);
    assert forall|i: int| 0 <= i < now.seen.len() implies now.seen[i] != key by {
        lemma_ids_near_differ(transport.next_id, (k - now.seen.len() + i) as nat, k);
    }
    assert(!now.seen.contains(key));
    assert(remembering(now.seen, key) =~= next.seen);
    assert(all.take((k + 1) as int) =~= all.take(k as int).push(all[k as int]));
    all.take(k as int).lemma_flatten_push(all[k as int]);
    if all[k as int].len() == 0 {
        assert(now.bytes + all[k as int] =~= now.bytes);
    }
}

/// [`in_turn`], to be looked into where it is needed.
#[verifier::opaque]
spec fn takes_turns(arrivals: Seq<int>, count: nat) -> bool {
    in_turn(arrivals, count)
}

proof fn lemma_next_turn(arrivals: Seq<int>, count: nat, j: int)
    requires
        takes_turns(arrivals, count),
        0 <= j < arrivals.len(),
    ensures
        ({
            let k = came(arrivals.take(j));
            let place = arrivals[j];
            &&& 0 <= place < count
            &&& k - REMEMBERED <= place <= k
            &&& came(arrivals.take(j + 1)) == if place == k {
                k + 1
            } else {
                k
            }
        }),
{
    reveal(takes_turns);
    let longer = arrivals.take(j + 1);
    assert(longer.drop_last() =~= arrivals.take(j));
    assert(longer.last() == arrivals[j]);
}

proof fn lemma_gathers_the_rest(
    transport: TransportView,
    peer: Seq<char>,
    all: Seq<Seq<u8>>,
    arrivals: Seq<int>,
    j: int,
)
    requires
        all.len() > 0,
        all.last().len() == 0,
        forall|i: int| 0 <= i < all.len() - 1 ==> (#[trigger] all[i]).len() > 0,
        takes_turns(arrivals, all.len()),
        0 <= j <= arrivals.len(),
        came(arrivals.take(j)) < all.len(),
    ensures
        gathered(
            taken_of(transport, peer, all, came(arrivals.take(j))),
            arriving(posted(transport, peer, all), arrivals).skip(j),
        ) == Some(
            ArrivedView {
                origin_uri: arrival(
                    posted(transport, peer, all)[all.len() - 1],
                ).origin_uri,
                bytes: all.take(all.len() - 1).flatten(),
            },
        ),
    decreases arrivals.len() - j,
{
    let requests = posted(transport, peer, all);
    let rest = arriving(requests, arrivals).skip(j);
    let k = came(arrivals.take(j));
    if j == arrivals.len() {
        assert(arrivals.take(j) =~= arrivals);
        reveal(takes_turns);
    } else {
        let place = arrivals[j];
        lemma_next_turn(arrivals, all.len(), j);
        assert(rest[0] == requests[place]);
        assert(rest.drop_first() =~= arriving(requests, arrivals).skip(j + 1));
        if place < k {
            lemma_repeat_is_known(transport, peer, all, k, place);
            lemma_gathers_the_rest(transport, peer, all, arrivals, j + 1);
        } else {
            lemma_next_is_new(transport, peer, all, k);
            if k < all.len() - 1 {
                assert(all[k as int].len() > 0);
                lemma_gathers_the_rest(transport, peer, all, arrivals, j + 1);
            }
        }
    }
}

/// A Stream posted in turn comes out whole at the far end, as long as every
/// post arrives: a post that arrives again, at once or late, is taken once.
/// Its origin is the post that closed it.
pub proof fn a_stream_arrives_whole(
    transport: TransportView,
    peer: Seq<char>,
    payload: Seq<u8>,
    arrivals: Seq<int>,
)
    requires
        in_turn(arrivals, blocks(payload).len()),
    ensures
        gathered(
            nothing_taken(),
            arriving(posted(transport, peer, blocks(payload)), arrivals),
        ) == Some(
            ArrivedView {
                origin_uri: origin(
                    peer,
                    "pingpong"@,
                    transport.code,
                    id_later(transport.next_id, (blocks(payload).len() - 1) as nat),
                ),
                bytes: payload,
            },
        ),
{
    let all = blocks(payload);
    let requests = posted(transport, peer, all);
    blocks_fit_and_close(payload);
    blocks_are_the_stream(payload);
    assert(arrivals.take(0) =~= Seq::empty());
    assert(arriving(requests, arrivals).skip(0) =~= arriving(requests, arrivals));
    assert(all.take(0) =~= Seq::empty());
    assert(taken_of(transport, peer, all, 0) =~= nothing_taken()) by {
        reveal(taken_of);
    }
    assert(takes_turns(arrivals, all.len())) by {
        reveal(takes_turns);
    }
    lemma_gathers_the_rest(transport, peer, all, arrivals, 0);
    assert(all =~= all.drop_last().push(all.last()));
    assert(all.drop_last() =~= all.take(all.len() - 1));
    all.drop_last().lemma_flatten_push(all.last());
    assert(all.take(all.len() - 1).flatten() =~= payload);
    lemma_pingpong();
    let closing = requests[all.len() - 1].message;
    plain_paths_come_back(closing.kind, closing.code, closing.id, "pingpong"@, all.last());
}

/// However late a post comes again, a Stream arrives whole, unless it takes
/// more posts than are remembered.
pub proof fn repeats_may_come_however_late(arrivals: Seq<int>, count: nat)
    requires
        count <= REMEMBERED,
        came(arrivals) == count,
        forall|j: int|
            0 <= j < arrivals.len() ==> 0 <= #[trigger] arrivals[j] < count && arrivals[j] <= came(
                arrivals.take(j),
            ),
    ensures
        in_turn(arrivals, count),
{
    assert forall|j: int| 0 <= j < arrivals.len() implies came(arrivals.take(j)) - REMEMBERED
        <= #[trigger] arrivals[j] by {
        lemma_came_grows(arrivals, j);
    }
}

proof fn lemma_came_grows(arrivals: Seq<int>, j: int)
    requires
        0 <= j <= arrivals.len(),
    ensures
        came(arrivals.take(j)) <= came(arrivals),
    decreases arrivals.len(),
{
    if j == arrivals.len() {
        assert(arrivals.take(j) =~= arrivals);
    } else {
        assert(arrivals.drop_last().take(j) =~= arrivals.take(j));
        lemma_came_grows(arrivals.drop_last(), j);
    }
}

proof fn lemma_pingpong()
    ensures
        "pingpong"@.len() == 8,
        is_ascii_chars("pingpong"@),
        !"pingpong"@.contains('/'),
        crate::text::split_on("pingpong"@, '/') == seq!["pingpong"@],
        segments("pingpong"@) == seq!["pingpong"@],
        encode_utf8("pingpong"@).len() == 8,
{
    reveal_strlit("pingpong");
    let word = "pingpong"@;
    assert(word =~= seq!['p', 'i', 'n', 'g', 'p', 'o', 'n', 'g']);
    assert(!word.contains('/'));
    slashless_text_is_one_piece(word);
    is_ascii_chars_encode_utf8(word);
    reveal_with_fuel(Seq::filter, 2);
    let pieces = seq![word];
    let keep = |segment: Seq<char>| segment.len() > 0;
    assert(pieces.drop_last() =~= Seq::empty());
    assert(pieces.drop_last().filter(keep) =~= Seq::empty());
    assert(pieces.last() == word);
    assert(pieces.filter(keep) =~= pieces);
}

/// What is posted at a far end is a target: its address, and the path that
/// all posts go to. (An address has no slash in it.)
pub proof fn the_far_end_is_a_target(address: Seq<char>)
    requires
        !address.contains('/'),
    ensures
        target_parts(far_target(address)) == Some((address, "pingpong"@)),
{
    reveal_strlit("coap://");
    reveal_strlit("/pingpong");
    reveal_strlit("pingpong");
    let target = far_target(address);
    let rest = target.skip(7);
    let at = address.len() as int;
    assert(target.subrange(0, 7) =~= "coap://"@);
    assert(rest =~= address + "/pingpong"@);
    assert(rest[at] == '/');
    rest.index_of_first_ensures('/');
    let first = rest.index_of_first('/')->0;
    if first < at {
        assert(address[first] == '/');
    }
    assert(rest.take(at) =~= address);
    assert(rest.skip(at + 1) =~= "pingpong"@);
}

/// Every block can be posted, and comes out at the far end as the request that
/// it was posted as.
pub proof fn every_block_can_be_posted(transport: TransportView, block: Seq<u8>)
    requires
        block.len() <= MAX_PAYLOAD,
    ensures
        ({
            let request = next_request(transport, "pingpong"@, block);
            &&& encoding(request) is Ok
            &&& decoding(encoding(request)->Ok_0) == Ok::<MessageView, CoapError>(request)
        }),
{
    let request = next_request(transport, "pingpong"@, block);
    let value = encode_utf8("pingpong"@);
    lemma_pingpong();
    assert(request.options =~= seq![(URI_PATH, value)]);
    order_keeps_what_is_ordered(request.options);
    reveal_with_fuel(options_wire, 2);
    assert(options_wire(request.options, 0).len() == 9);
    assert(wire(request).len() <= 4 + 2 + 9 + 1 + MAX_PAYLOAD);
    assert(!has_long_value(request.options));
    requests_round_trip(request.kind, request.code, request.id, "pingpong"@, block);
}

} // verus!
