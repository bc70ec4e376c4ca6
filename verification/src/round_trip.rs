//! What reading gives back of what was framed, and the other way round.

use vstd::prelude::*;

use crate::error::CoapError;
use crate::message::{
    decoding, encoding, extended_at, extension, has_long_value, header_wire, kind_bits,
    kind_of_bits, nibble, option_at, option_wire, options_at, options_wire, order_keeps_long_values, payload_wire,
    two_bytes_at, wire, MessageView, MAX_DATAGRAM, PAYLOAD_MARKER,
};
use crate::options::{
    in_order, is_ordered, order_is_by_number, order_keeps_what_is_ordered, OptionView,
};

verus! {

/// `message` with its options in the order in which they are sent.
pub open spec fn as_sent(message: MessageView) -> MessageView {
    MessageView { options: in_order(message.options), ..message }
}

proof fn lemma_extension_is_read(datagram: Seq<u8>, at: int, n: int)
    requires
        0 <= n <= u16::MAX,
        0 <= at,
        at + extension(n).len() <= datagram.len(),
        datagram.subrange(at, at + extension(n).len()) == extension(n),
    ensures
        extended_at(datagram, at, nibble(n)) == Ok::<(int, int), CoapError>(
            (n, at + extension(n).len()),
        ),
{
    let bytes = datagram.subrange(at, at + extension(n).len());
    if n >= 269 {
        assert(bytes[0] == datagram[at]);
        assert(bytes[1] == datagram[at + 1]);
    } else if n >= 13 {
        assert(bytes[0] == datagram[at]);
    }
}

/// A delta or a length that was written is read back, and nothing but its
/// extension is passed over, whatever stands before and behind it.
pub proof fn extensions_are_read_back(front: Seq<u8>, n: u16, tail: Seq<u8>)
    ensures
        extended_at(front + extension(n as int) + tail, front.len() as int, nibble(n as int))
            == Ok::<(int, int), CoapError>(
            (n as int, (front + extension(n as int)).len() as int),
        ),
{
    let datagram = front + extension(n as int) + tail;
    let at = front.len() as int;
    assert(datagram.subrange(at, at + extension(n as int).len()) =~= extension(n as int));
    lemma_extension_is_read(datagram, at, n as int);
}

proof fn lemma_read_is_extension(datagram: Seq<u8>, at: int, bits: int)
    requires
        0 <= bits < 16,
        0 <= at <= datagram.len(),
        extended_at(datagram, at, bits) is Ok,
    ensures
        ({
            let (n, behind) = extended_at(datagram, at, bits)->Ok_0;
            &&& 0 <= n <= u16::MAX
            &&& bits == nibble(n)
            &&& at <= behind <= datagram.len()
            &&& datagram.subrange(at, behind) == extension(n)
        }),
{
    let (n, behind) = extended_at(datagram, at, bits)->Ok_0;
    assert(datagram.subrange(at, behind) =~= extension(n));
}

/// The first option of what stands between `front` and `tail` is read back.
proof fn lemma_option_is_read(
    front: Seq<u8>,
    tail: Seq<u8>,
    number: u16,
    value: Seq<u8>,
    last: int,
)
    requires
        0 <= last <= number,
        value.len() <= u16::MAX,
    ensures
        ({
            let datagram = front + option_wire(number - last, value) + tail;
            &&& datagram[front.len() as int] != PAYLOAD_MARKER
            &&& option_at(datagram, front.len() as int, last) == Ok::<(OptionView, int), CoapError>(
                ((number, value), (front + option_wire(number - last, value)).len() as int),
            )
        }),
{
    let delta = number - last;
    let length = value.len() as int;
    let middle = option_wire(delta, value);
    let datagram = front + middle + tail;
    let at = front.len() as int;
    let byte = (16 * nibble(delta) + nibble(length)) as u8;
    assert(datagram[at] == middle[0]);
    assert(middle[0] == byte);
    assert(byte as int / 16 == nibble(delta));
    assert(byte as int % 16 == nibble(length));
    let length_at = at + 1 + extension(delta).len();
    let value_at = length_at + extension(length).len();
    assert(datagram.subrange(at + 1, length_at) =~= extension(delta));
    assert(datagram.subrange(length_at, value_at) =~= extension(length));
    assert(datagram.subrange(value_at, value_at + length) =~= value);
    lemma_extension_is_read(datagram, at + 1, delta);
    lemma_extension_is_read(datagram, length_at, length);
}

/// Options between `front` and `tail` are read back, where `tail` is empty or
/// starts with the payload marker.
proof fn lemma_options_are_read(
    front: Seq<u8>,
    tail: Seq<u8>,
    options: Seq<OptionView>,
    last: int,
)
    requires
        is_ordered(options),
        !has_long_value(options),
        0 <= last,
        options.len() > 0 ==> last <= options[0].0,
        tail.len() > 0 ==> tail[0] == PAYLOAD_MARKER,
    ensures
        options_at(front + options_wire(options, last) + tail, front.len() as int, last) == Ok::<
            (Seq<OptionView>, int),
            CoapError,
        >((options, (front + options_wire(options, last)).len() as int)),
    decreases options.len(),
{
    let datagram = front + options_wire(options, last) + tail;
    let at = front.len() as int;
    if options.len() == 0 {
        assert(datagram =~= front + tail);
        if tail.len() > 0 {
            assert(datagram[at] == tail[0]);
        }
        assert(options =~= Seq::empty());
    } else {
        let (number, value) = options[0];
        let rest = options.drop_first();
        let first = option_wire(number - last, value);
        assert(value.len() <= u16::MAX);
        lemma_option_is_read(front, options_wire(rest, number as int) + tail, number, value, last);
        assert(datagram =~= front + first + (options_wire(rest, number as int) + tail));
        assert(!has_long_value(rest)) by {
            assert forall|i: int| 0 <= i < rest.len() implies (#[trigger] rest[i]).1.len()
                <= u16::MAX by {
                assert(rest[i] == options[i + 1]);
            }
        }
        if rest.len() > 0 {
            assert(rest[0] == options[1]);
        }
        lemma_options_are_read(front + first, tail, rest, number as int);
        assert(datagram =~= front + first + options_wire(rest, number as int) + tail);
        assert(seq![options[0]] + rest =~= options);
        assert((front + options_wire(options, last)).len() == (front + first + options_wire(
            rest,
            number as int,
        )).len());
    }
}

/// What is read as options stands there as their framing, in order.
proof fn lemma_read_is_options(datagram: Seq<u8>, at: int, last: int)
    requires
        0 <= at <= datagram.len(),
        0 <= last <= u16::MAX,
        options_at(datagram, at, last) is Ok,
    ensures
        ({
            let (options, end) = options_at(datagram, at, last)->Ok_0;
            &&& at <= end <= datagram.len()
            &&& end < datagram.len() ==> datagram[end] == PAYLOAD_MARKER
            &&& datagram.subrange(at, end) == options_wire(options, last)
            &&& is_ordered(options)
            &&& options.len() > 0 ==> last <= options[0].0
            &&& !has_long_value(options)
        }),
    decreases datagram.len() - at,
{
    let (options, end) = options_at(datagram, at, last)->Ok_0;
    if at >= datagram.len() || datagram[at] == PAYLOAD_MARKER {
        assert(datagram.subrange(at, end) =~= Seq::empty());
    } else {
        let byte = datagram[at] as int;
        let (delta, length_at) = extended_at(datagram, at + 1, byte / 16)->Ok_0;
        let (length, value_at) = extended_at(datagram, length_at, byte % 16)->Ok_0;
        lemma_read_is_extension(datagram, at + 1, byte / 16);
        lemma_read_is_extension(datagram, length_at, byte % 16);
        let behind = value_at + length;
        let number = (last + delta) as u16;
        let value = datagram.subrange(value_at, behind);
        let (rest, _) = options_at(datagram, behind, number as int)->Ok_0;
        lemma_read_is_options(datagram, behind, number as int);
        assert(options =~= seq![(number, value)] + rest);
        assert(options.drop_first() =~= rest);
        assert(datagram.subrange(at, behind) =~= option_wire(delta, value)) by {
            assert(datagram.subrange(at + 1, length_at) == extension(delta));
            assert(datagram.subrange(length_at, value_at) == extension(length));
            assert(datagram[at] == (16 * nibble(delta) + nibble(length)) as u8);
            assert(datagram.subrange(at, behind) =~= seq![datagram[at]] + datagram.subrange(
                at + 1,
                length_at,
            ) + datagram.subrange(length_at, value_at) + value);
        }
        assert(datagram.subrange(at, end) =~= datagram.subrange(at, behind) + datagram.subrange(
            behind,
            end,
        ));
        assert forall|i: int, j: int| 0 <= i <= j < options.len() implies (#[trigger] options[i]).0
            <= (#[trigger] options[j]).0 by {
            if i == 0 && j > 0 {
                assert(options[j] == rest[j - 1]);
                assert(rest[0].0 <= rest[j - 1].0);
            } else if i > 0 {
                assert(options[i] == rest[i - 1]);
                assert(options[j] == rest[j - 1]);
            }
        }
        assert forall|i: int| 0 <= i < options.len() implies (#[trigger] options[i]).1.len()
            <= u16::MAX by {
            if i > 0 {
                assert(options[i] == rest[i - 1]);
            }
        }
    }
}

proof fn lemma_first_byte(bits: int, length: int)
    requires
        0 <= bits < 4,
        0 <= length < 16,
    ensures
        ({
            let first = (64 + 16 * bits + length) as u8;
            &&& first as int / 64 == 1
            &&& first as int / 16 % 4 == bits
            &&& first as int % 16 == length
        }),
{
}

proof fn lemma_header_is_read(message: MessageView, rest: Seq<u8>)
    requires
        message.token.len() <= 8,
    ensures
        ({
            let datagram = header_wire(message) + rest;
            &&& header_wire(message).len() == 4
            &&& datagram[0] as int / 64 == 1
            &&& datagram[0] as int % 16 == message.token.len()
            &&& kind_of_bits(datagram[0] as int / 16 % 4) == message.kind
            &&& datagram[1] == message.code
            &&& two_bytes_at(datagram, 2) == message.id
        }),
{
    let header = header_wire(message);
    let datagram = header + rest;
    lemma_first_byte(kind_bits(message.kind), message.token.len() as int);
    assert(datagram[0] == header[0]);
    assert(datagram[1] == header[1]);
    assert(datagram[2] == header[2]);
    assert(datagram[3] == header[3]);
}

/// Reading what was framed gives the message back, with its options in the
/// order in which they were sent.
pub proof fn decoding_undoes_encoding(message: MessageView)
    requires
        encoding(message) is Ok,
    ensures
        decoding(encoding(message)->Ok_0) == Ok::<MessageView, CoapError>(as_sent(message)),
{
    let datagram = wire(message);
    let options = in_order(message.options);
    let front = header_wire(message) + message.token;
    let tail = payload_wire(message.payload);
    let token_length = message.token.len() as int;
    let end = (front + options_wire(options, 0)).len() as int;
    lemma_header_is_read(message, message.token + options_wire(options, 0) + tail);
    assert(datagram =~= header_wire(message) + (message.token + options_wire(options, 0) + tail));
    order_is_by_number(message.options);
    order_keeps_long_values(message.options);
    lemma_options_are_read(front, tail, options, 0);
    assert(datagram.subrange(4, 4 + token_length) =~= message.token);
    assert(datagram.len() == end + tail.len());
    if message.payload.len() > 0 {
        assert(datagram.skip(end + 1) =~= message.payload);
    } else {
        assert(message.payload =~= Seq::empty());
    }
    assert(decoding(datagram)->Ok_0 =~= as_sent(message));
}

/// A message whose options are in order comes back as it was.
pub proof fn ordered_messages_round_trip(message: MessageView)
    requires
        encoding(message) is Ok,
        is_ordered(message.options),
    ensures
        decoding(encoding(message)->Ok_0) == Ok::<MessageView, CoapError>(message),
{
    decoding_undoes_encoding(message);
    order_keeps_what_is_ordered(message.options);
    assert(as_sent(message) =~= message);
}

/// What can be read is exactly the framing of what was read from it: a
/// message has one form on the wire and no other.
pub proof fn read_is_wire(datagram: Seq<u8>)
    requires
        decoding(datagram) is Ok,
    ensures
        ({
            let message = decoding(datagram)->Ok_0;
            &&& wire(message) == datagram
            &&& is_ordered(message.options)
            &&& message.token.len() <= 8
            &&& !has_long_value(message.options)
        }),
{
    let message = decoding(datagram)->Ok_0;
    let token_length = datagram[0] as int % 16;
    let at = 4 + token_length;
    let (options, end) = options_at(datagram, at, 0)->Ok_0;
    lemma_read_is_options(datagram, at, 0);
    order_keeps_what_is_ordered(options);
    assert(header_wire(message) =~= datagram.subrange(0, 4)) by {
        let first = datagram[0] as int;
        assert(first == 64 * (first / 64) + 16 * (first / 16 % 4) + first % 16);
        assert(kind_bits(kind_of_bits(first / 16 % 4)) == first / 16 % 4);
        let id = two_bytes_at(datagram, 2);
        assert(id / 256 == datagram[2] && id % 256 == datagram[3]);
    }
    assert(payload_wire(message.payload) =~= datagram.skip(end));
    assert(wire(message) =~= datagram.subrange(0, 4) + datagram.subrange(4, at)
        + datagram.subrange(at, end) + datagram.skip(end));
    assert(wire(message) =~= datagram);
}

/// Framing what was read gives the datagram back, as long as it is one that
/// an endpoint must take.
pub proof fn encoding_undoes_decoding(datagram: Seq<u8>)
    requires
        decoding(datagram) is Ok,
        datagram.len() <= MAX_DATAGRAM,
    ensures
        encoding(decoding(datagram)->Ok_0) == Ok::<Seq<u8>, CoapError>(datagram),
{
    read_is_wire(datagram);
}

/// Different datagrams are read as different messages.
pub proof fn decoding_is_injective(one: Seq<u8>, other: Seq<u8>)
    requires
        decoding(one) is Ok,
        decoding(one) == decoding(other),
    ensures
        one == other,
{
    read_is_wire(one);
    read_is_wire(other);
}

} // verus!
