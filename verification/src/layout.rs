//! What stands where in a datagram, byte by byte.

use vstd::prelude::*;

use crate::error::CoapError;
use crate::message::{
    decoding, encoding, extended_at, extension, has_long_value, header_wire, nibble, option_at,
    option_wire, options_at, options_wire, order_keeps_long_values, payload_wire, wire, Kind,
    MessageView,
};
use crate::options::{
    in_order, is_ordered, order_is_by_number, order_keeps_what_is_ordered, sending_order,
    OptionView,
};
use crate::round_trip::read_is_wire;

verus! {

/// An option with `value`, by `delta` over the one before it, stands in
/// `datagram` from `at` up to `behind`.
#[verifier::opaque]
spec fn stands(datagram: Seq<u8>, at: int, behind: int, delta: int, value: Seq<u8>) -> bool {
    let length = value.len() as int;
    let wide = if delta < 13 {
        0int
    } else if delta < 269 {
        1
    } else {
        2
    };
    let long = if length < 13 {
        0int
    } else if length < 269 {
        1
    } else {
        2
    };
    let length_at = at + 1 + wide;
    &&& 0 <= delta
    &&& length <= 65_535
    &&& behind == length_at + long + length <= datagram.len()
    &&& datagram[at] as int / 16 == if delta < 13 {
        delta
    } else {
        12 + wide
    }
    &&& datagram[at] as int % 16 == if length < 13 {
        length
    } else {
        12 + long
    }
    &&& wide == 1 ==> datagram[at + 1] == delta - 13
    &&& wide == 2 ==> 256 * datagram[at + 1] + datagram[at + 2] == delta - 269
    &&& long == 1 ==> datagram[length_at] == length - 13
    &&& long == 2 ==> 256 * datagram[length_at] + datagram[length_at + 1] == length - 269
    &&& datagram.subrange(behind - length, behind) == value
}

proof fn lemma_wire_stands(front: Seq<u8>, delta: int, value: Seq<u8>, tail: Seq<u8>)
    requires
        0 <= delta <= u16::MAX,
        value.len() <= u16::MAX,
    ensures
        stands(
            front + option_wire(delta, value) + tail,
            front.len() as int,
            (front + option_wire(delta, value)).len() as int,
            delta,
            value,
        ),
{
    reveal(stands);
    let middle = option_wire(delta, value);
    let datagram = front + middle + tail;
    let at = front.len() as int;
    let length = value.len() as int;
    let length_at = at + 1 + extension(delta).len();
    let value_at = length_at + extension(length).len();
    let behind = value_at + length;
    assert(datagram[at] == middle[0]);
    assert(datagram.subrange(at + 1, length_at) =~= extension(delta));
    assert(datagram.subrange(length_at, value_at) =~= extension(length));
    assert(datagram.subrange(value_at, behind) =~= value);
    assert(middle.len() == behind - at);
    if delta >= 13 {
        assert(datagram[at + 1] == extension(delta)[0]);
    }
    if delta >= 269 {
        assert(datagram[at + 2] == extension(delta)[1]);
    }
    if length >= 13 {
        assert(datagram[length_at] == extension(length)[0]);
    }
    if length >= 269 {
        assert(datagram[length_at + 1] == extension(length)[1]);
    }
}

/// The number before that of `options[i]`, `last` being the one before all.
spec fn number_before(options: Seq<OptionView>, i: int, last: int) -> int {
    if i == 0 {
        last
    } else {
        options[i - 1].0 as int
    }
}

proof fn lemma_options_stand(
    front: Seq<u8>,
    options: Seq<OptionView>,
    tail: Seq<u8>,
    last: int,
) -> (places: Seq<int>)
    requires
        is_ordered(options),
        !has_long_value(options),
        0 <= last,
        options.len() > 0 ==> last <= options[0].0,
    ensures
        ({
            let datagram = front + options_wire(options, last) + tail;
            &&& places.len() == options.len() + 1
            &&& places[0] == front.len()
            &&& places[options.len() as int] == (front + options_wire(options, last)).len()
            &&& forall|i: int|
                0 <= i < options.len() ==> stands(
                    datagram,
                    #[trigger] places[i],
                    places[i + 1],
                    options[i].0 - number_before(options, i, last),
                    options[i].1,
                )
        }),
    decreases options.len(),
{
    let datagram = front + options_wire(options, last) + tail;
    if options.len() == 0 {
        assert(front + options_wire(options, last) =~= front);
        seq![front.len() as int]
    } else {
        let (number, value) = options[0];
        let rest = options.drop_first();
        let first = option_wire(number - last, value);
        let more = options_wire(rest, number as int);
        assert(value.len() <= u16::MAX);
        lemma_wire_stands(front, number - last, value, more + tail);
        assert(datagram =~= front + first + (more + tail));
        assert forall|i: int| 0 <= i < rest.len() implies (#[trigger] rest[i]).1.len()
            <= u16::MAX by {
            assert(rest[i] == options[i + 1]);
        }
        if rest.len() > 0 {
            assert(rest[0] == options[1]);
        }
        let behind = lemma_options_stand(front + first, rest, tail, number as int);
        assert(datagram =~= front + first + more + tail);
        let places = seq![front.len() as int] + behind;
        assert((front + options_wire(options, last)).len() == (front + first + more).len());
        assert forall|i: int| 0 <= i < options.len() implies stands(
            datagram,
            #[trigger] places[i],
            places[i + 1],
            options[i].0 - number_before(options, i, last),
            options[i].1,
        ) by {
            if i > 0 {
                assert(places[i] == behind[i - 1]);
                assert(places[i + 1] == behind[i]);
                assert(options[i] == rest[i - 1]);
                assert(number_before(options, i, last) == number_before(
                    rest,
                    i - 1,
                    number as int,
                ));
            } else {
                assert(places[1] == behind[0]);
            }
        }
        places
    }
}

proof fn lemma_header_stands(message: MessageView, rest: Seq<u8>)
    requires
        message.token.len() <= 8,
    ensures
        ({
            let datagram = header_wire(message) + message.token + rest;
            &&& datagram.len() >= 4 + message.token.len()
            &&& message.token.len() <= 8
            &&& datagram[0] as int / 64 == 1
            &&& datagram[0] as int / 16 % 4 == match message.kind {
                Kind::Confirmable => 0int,
                Kind::NonConfirmable => 1,
                Kind::Acknowledgement => 2,
                Kind::Reset => 3,
            }
            &&& datagram[0] as int % 16 == message.token.len()
            &&& datagram[1] == message.code
            &&& 256 * datagram[2] + datagram[3] == message.id
            &&& datagram.subrange(4, 4int + message.token.len()) == message.token
        }),
{
    let header = header_wire(message);
    let datagram = header + message.token + rest;
    let bits = match message.kind {
        Kind::Confirmable => 0int,
        Kind::NonConfirmable => 1,
        Kind::Acknowledgement => 2,
        Kind::Reset => 3,
    };
    let first = (64 + 16 * bits + message.token.len()) as u8;
    assert(first as int / 64 == 1 && first as int / 16 % 4 == bits && first as int % 16
        == message.token.len());
    assert(header.len() == 4);
    assert(datagram[0] == header[0] && header[0] == first);
    assert(datagram[1] == header[1]);
    assert(datagram[2] == header[2]);
    assert(datagram[3] == header[3]);
    assert(datagram.subrange(4, 4int + message.token.len()) =~= message.token);
}

proof fn lemma_framing_stands(message: MessageView) -> (places: Seq<int>)
    requires
        message.token.len() <= 8,
        is_ordered(message.options),
        !has_long_value(message.options),
    ensures
        ({
            let datagram = wire(message);
            let end = places[message.options.len() as int];
            &&& datagram.len() >= 4 + message.token.len()
            &&& message.token.len() <= 8
            &&& datagram[0] as int / 64 == 1
            &&& datagram[0] as int / 16 % 4 == match message.kind {
                Kind::Confirmable => 0int,
                Kind::NonConfirmable => 1,
                Kind::Acknowledgement => 2,
                Kind::Reset => 3,
            }
            &&& datagram[0] as int % 16 == message.token.len()
            &&& datagram[1] == message.code
            &&& 256 * datagram[2] + datagram[3] == message.id
            &&& datagram.subrange(4, 4int + message.token.len()) == message.token
            &&& places.len() == message.options.len() + 1
            &&& places[0] == 4 + message.token.len()
            &&& forall|i: int|
                0 <= i < message.options.len() ==> stands(
                    datagram,
                    #[trigger] places[i],
                    places[i + 1],
                    message.options[i].0 - number_before(message.options, i, 0),
                    message.options[i].1,
                )
            &&& if message.payload.len() == 0 {
                datagram.len() == end
            } else {
                &&& datagram.len() == end + 1 + message.payload.len()
                &&& datagram[end] == 0xff
                &&& datagram.skip(end + 1) == message.payload
            }
        }),
{
    let options = message.options;
    let header = header_wire(message);
    let front = header + message.token;
    let tail = payload_wire(message.payload);
    let datagram = wire(message);
    order_keeps_what_is_ordered(options);
    let places = lemma_options_stand(front, options, tail, 0);
    let end = places[options.len() as int];
    lemma_header_stands(message, options_wire(options, 0) + tail);
    assert(datagram =~= front + options_wire(options, 0) + tail);
    assert(datagram =~= front + (options_wire(options, 0) + tail));
    assert(header.len() == 4);
    if message.payload.len() > 0 {
        assert(datagram.skip(end + 1) =~= message.payload);
        assert(datagram[end] == tail[0]);
    }
    places
}

/// What a framed message looks like, byte by byte. The header, the token, the
/// options and the payload follow each other. `from[i]` is the place, among the
/// options as given, of the one that stands at `places[i]`: by number, and by
/// place where the number is the same. Each has a byte with the nibbles of its
/// delta and its length, then what extends the delta, then what extends the
/// length, then the value: where both are 13 to 268 it starts with 0xdd, the
/// delta less 13, and the length less 13.
pub proof fn what_is_framed_stands_there(message: MessageView) -> (out: (Seq<int>, Seq<int>))
    requires
        message.token.len() <= 8,
        forall|i: int|
            0 <= i < message.options.len() ==> (#[trigger] message.options[i]).1.len() <= 65_535,
    ensures
        ({
            let (from, places) = out;
            let datagram = wire(message);
            let end = places[message.options.len() as int];
            &&& datagram.len() >= 4 + message.token.len()
            &&& message.token.len() <= 8
            &&& datagram[0] as int / 64 == 1
            &&& datagram[0] as int / 16 % 4 == match message.kind {
                Kind::Confirmable => 0int,
                Kind::NonConfirmable => 1,
                Kind::Acknowledgement => 2,
                Kind::Reset => 3,
            }
            &&& datagram[0] as int % 16 == message.token.len()
            &&& datagram[1] == message.code
            &&& 256 * datagram[2] + datagram[3] == message.id
            &&& datagram.subrange(4, 4int + message.token.len()) == message.token
            &&& from.len() == message.options.len()
            &&& places.len() == message.options.len() + 1
            &&& forall|i: int|
                0 <= i < from.len() ==> 0 <= #[trigger] from[i] < message.options.len()
            &&& forall|i: int, j: int|
                0 <= i < j < from.len() ==> {
                    let one = message.options[#[trigger] from[i]];
                    let other = message.options[#[trigger] from[j]];
                    one.0 < other.0 || (one.0 == other.0 && from[i] < from[j])
                }
            &&& places[0] == 4 + message.token.len()
            &&& forall|i: int| 0 <= i < message.options.len() ==> {
                let (at, behind) = (#[trigger] places[i], places[i + 1]);
                let (number, value) = message.options[from[i]];
                let previous = if i == 0 {
                    0
                } else {
                    message.options[from[i - 1]].0 as int
                };
                let delta = number - previous;
                let length = value.len() as int;
                let wide = if delta < 13 {
                    0int
                } else if delta < 269 {
                    1
                } else {
                    2
                };
                let long = if length < 13 {
                    0int
                } else if length < 269 {
                    1
                } else {
                    2
                };
                let length_at = at + 1 + wide;
                &&& 0 <= delta
                &&& length <= 65_535
                &&& behind == length_at + long + length <= datagram.len()
                &&& datagram[at] as int / 16 == if delta < 13 {
                    delta
                } else {
                    12 + wide
                }
                &&& datagram[at] as int % 16 == if length < 13 {
                    length
                } else {
                    12 + long
                }
                &&& wide == 1 ==> datagram[at + 1] == delta - 13
                &&& wide == 2 ==> 256 * datagram[at + 1] + datagram[at + 2] == delta - 269
                &&& long == 1 ==> datagram[length_at] == length - 13
                &&& long == 2 ==> 256 * datagram[length_at] + datagram[length_at + 1] == length
                    - 269
                &&& datagram.subrange(behind - length, behind) == value
            }
            &&& if message.payload.len() == 0 {
                datagram.len() == end
            } else {
                &&& datagram.len() == end + 1 + message.payload.len()
                &&& datagram[end] == 0xff
                &&& datagram.skip(end + 1) == message.payload
            }
        }),
{
    let options = message.options;
    let sent = MessageView { options: in_order(options), ..message };
    let from = sending_order(options);
    order_is_by_number(options);
    order_keeps_long_values(options);
    order_keeps_what_is_ordered(in_order(options));
    let places = lemma_framing_stands(sent);
    assert(wire(sent) == wire(message));
    reveal(stands);
    assert forall|i: int| 0 <= i < options.len() implies stands(
        wire(message),
        #[trigger] places[i],
        places[i + 1],
        options[from[i]].0 - if i == 0 {
            0
        } else {
            options[from[i - 1]].0 as int
        },
        options[from[i]].1,
    ) by {
        assert(sent.options[i] == options[from[i]]);
        if i > 0 {
            assert(sent.options[i - 1] == options[from[i - 1]]);
        }
    }
    (from, places)
}

/// A message is framed as [`wire`] says, whenever that is 1152 bytes at most and
/// its token and its option values are not too long; and each refusal has its
/// own reason.
pub proof fn what_can_be_framed(message: MessageView)
    ensures
        ({
            let long = exists|i: int|
                0 <= i < message.options.len() && (#[trigger] message.options[i]).1.len() > 65_535;
            &&& encoding(message) == Err::<Seq<u8>, CoapError>(CoapError::TokenTooLong) <==>
                message.token.len() > 8
            &&& encoding(message) == Err::<Seq<u8>, CoapError>(CoapError::OptionValueTooLong) <==>
                message.token.len() <= 8 && long
            &&& encoding(message) == Err::<Seq<u8>, CoapError>(CoapError::MessageTooLarge) <==>
                message.token.len() <= 8 && !long && wire(message).len() > 1152
            &&& encoding(message) is Ok <==> message.token.len() <= 8 && !long && wire(
                message,
            ).len() <= 1152
            &&& encoding(message) is Ok ==> encoding(message)->Ok_0 == wire(message)
        }),
{
    if exists|i: int|
        0 <= i < message.options.len() && (#[trigger] message.options[i]).1.len() > 65_535 {
        let i = choose|i: int|
            0 <= i < message.options.len() && (#[trigger] message.options[i]).1.len() > 65_535;
        assert(message.options[i].1.len() > u16::MAX);
    }
}

/// What is read stands in the datagram, byte by byte: `places[i]` is where the
/// option read at `i` starts.
pub proof fn what_is_read_stands_there(datagram: Seq<u8>) -> (places: Seq<int>)
    requires
        decoding(datagram) is Ok,
    ensures
        ({
            let message = decoding(datagram)->Ok_0;
            let end = places[message.options.len() as int];
            &&& datagram.len() >= 4 + message.token.len()
            &&& message.token.len() <= 8
            &&& datagram[0] as int / 64 == 1
            &&& datagram[0] as int / 16 % 4 == match message.kind {
                Kind::Confirmable => 0int,
                Kind::NonConfirmable => 1,
                Kind::Acknowledgement => 2,
                Kind::Reset => 3,
            }
            &&& datagram[0] as int % 16 == message.token.len()
            &&& datagram[1] == message.code
            &&& 256 * datagram[2] + datagram[3] == message.id
            &&& datagram.subrange(4, 4int + message.token.len()) == message.token
            &&& places.len() == message.options.len() + 1
            &&& places[0] == 4 + message.token.len()
            &&& forall|i: int| 0 <= i < message.options.len() ==> {
                let (at, behind) = (#[trigger] places[i], places[i + 1]);
                let (number, value) = message.options[i];
                let previous = if i == 0 {
                    0
                } else {
                    message.options[i - 1].0 as int
                };
                let delta = number - previous;
                let length = value.len() as int;
                let wide = if delta < 13 {
                    0int
                } else if delta < 269 {
                    1
                } else {
                    2
                };
                let long = if length < 13 {
                    0int
                } else if length < 269 {
                    1
                } else {
                    2
                };
                let length_at = at + 1 + wide;
                &&& 0 <= delta
                &&& length <= 65_535
                &&& behind == length_at + long + length <= datagram.len()
                &&& datagram[at] as int / 16 == if delta < 13 {
                    delta
                } else {
                    12 + wide
                }
                &&& datagram[at] as int % 16 == if length < 13 {
                    length
                } else {
                    12 + long
                }
                &&& wide == 1 ==> datagram[at + 1] == delta - 13
                &&& wide == 2 ==> 256 * datagram[at + 1] + datagram[at + 2] == delta - 269
                &&& long == 1 ==> datagram[length_at] == length - 13
                &&& long == 2 ==> 256 * datagram[length_at] + datagram[length_at + 1] == length
                    - 269
                &&& datagram.subrange(behind - length, behind) == value
            }
            &&& if message.payload.len() == 0 {
                datagram.len() == end
            } else {
                &&& datagram.len() == end + 1 + message.payload.len()
                &&& datagram[end] == 0xff
                &&& datagram.skip(end + 1) == message.payload
            }
        }),
{
    let message = decoding(datagram)->Ok_0;
    read_is_wire(datagram);
    let places = lemma_framing_stands(message);
    reveal(stands);
    assert forall|i: int| 0 <= i < message.options.len() implies stands(
        datagram,
        #[trigger] places[i],
        places[i + 1],
        message.options[i].0 - if i == 0 {
            0
        } else {
            message.options[i - 1].0 as int
        },
        message.options[i].1,
    ) by {
        assert(number_before(message.options, i, 0) == if i == 0 {
            0
        } else {
            message.options[i - 1].0 as int
        });
    }
    places
}

proof fn lemma_standing_is_read(
    datagram: Seq<u8>,
    at: int,
    behind: int,
    last: int,
    option: OptionView,
)
    requires
        0 <= at,
        0 <= last,
        stands(datagram, at, behind, option.0 - last, option.1),
    ensures
        at < behind <= datagram.len(),
        datagram[at] != 0xff,
        option_at(datagram, at, last) == Ok::<(OptionView, int), CoapError>((option, behind)),
{
    reveal(stands);
    let length = option.1.len() as int;
    assert(datagram.subrange(behind - length, behind) == option.1);
}

proof fn lemma_standing_options_are_read(
    datagram: Seq<u8>,
    options: Seq<OptionView>,
    places: Seq<int>,
    i: int,
)
    requires
        0 <= i <= options.len(),
        places.len() == options.len() + 1,
        0 <= places[0],
        forall|k: int|
            0 <= k < options.len() ==> stands(
                datagram,
                #[trigger] places[k],
                places[k + 1],
                options[k].0 - number_before(options, k, 0),
                options[k].1,
            ),
    ensures
        0 <= places[i],
        i > 0 ==> places[i] <= datagram.len(),
        ({
            let here = options_at(datagram, places[i], number_before(options, i, 0));
            options_at(datagram, places[0], 0) == match here {
                Ok((rest, end)) => Ok::<(Seq<OptionView>, int), CoapError>(
                    (options.take(i) + rest, end),
                ),
                Err(error) => Err(error),
            }
        }),
    decreases i,
{
    if i == 0 {
        if let Ok((rest, end)) = options_at(datagram, places[0], 0) {
            assert(options.take(0) + rest =~= rest);
        }
    } else {
        lemma_standing_options_are_read(datagram, options, places, i - 1);
        let last = number_before(options, i - 1, 0);
        assert(places[i - 1 + 1] == places[i]);
        lemma_standing_is_read(datagram, places[i - 1], places[i], last, options[i - 1]);
        if let Ok((rest, end)) = options_at(datagram, places[i], options[i - 1].0 as int) {
            assert(options.take(i - 1) + (seq![options[i - 1]] + rest) =~= options.take(i) + rest);
        }
    }
}

/// What stands in a datagram, byte by byte, is what is read; and where a
/// payload marker is its last byte, the datagram is refused for that.
pub proof fn what_stands_there_is_read(
    datagram: Seq<u8>,
    message: MessageView,
    places: Seq<int>,
)
    requires
        ({
            &&& datagram.len() >= 4 + message.token.len()
            &&& message.token.len() <= 8
            &&& datagram[0] as int / 64 == 1
            &&& datagram[0] as int / 16 % 4 == match message.kind {
                Kind::Confirmable => 0int,
                Kind::NonConfirmable => 1,
                Kind::Acknowledgement => 2,
                Kind::Reset => 3,
            }
            &&& datagram[0] as int % 16 == message.token.len()
            &&& datagram[1] == message.code
            &&& 256 * datagram[2] + datagram[3] == message.id
            &&& datagram.subrange(4, 4int + message.token.len()) == message.token
            &&& places.len() == message.options.len() + 1
            &&& places[0] == 4 + message.token.len()
            &&& forall|i: int| 0 <= i < message.options.len() ==> {
                let (at, behind) = (#[trigger] places[i], places[i + 1]);
                let (number, value) = message.options[i];
                let previous = if i == 0 {
                    0
                } else {
                    message.options[i - 1].0 as int
                };
                let delta = number - previous;
                let length = value.len() as int;
                let wide = if delta < 13 {
                    0int
                } else if delta < 269 {
                    1
                } else {
                    2
                };
                let long = if length < 13 {
                    0int
                } else if length < 269 {
                    1
                } else {
                    2
                };
                let length_at = at + 1 + wide;
                &&& 0 <= delta
                &&& length <= 65_535
                &&& behind == length_at + long + length <= datagram.len()
                &&& datagram[at] as int / 16 == if delta < 13 {
                    delta
                } else {
                    12 + wide
                }
                &&& datagram[at] as int % 16 == if length < 13 {
                    length
                } else {
                    12 + long
                }
                &&& wide == 1 ==> datagram[at + 1] == delta - 13
                &&& wide == 2 ==> 256 * datagram[at + 1] + datagram[at + 2] == delta - 269
                &&& long == 1 ==> datagram[length_at] == length - 13
                &&& long == 2 ==> 256 * datagram[length_at] + datagram[length_at + 1] == length
                    - 269
                &&& datagram.subrange(behind - length, behind) == value
            }
        }),
    ensures
        ({
            let end = places[message.options.len() as int];
            &&& (if message.payload.len() == 0 {
                datagram.len() == end
            } else {
                &&& datagram.len() == end + 1 + message.payload.len()
                &&& datagram[end] == 0xff
                &&& datagram.skip(end + 1) == message.payload
            }) ==> decoding(datagram) == Ok::<MessageView, CoapError>(message)
            &&& datagram.len() == end + 1 && datagram[end] == 0xff ==> decoding(datagram) == Err::<
                MessageView,
                CoapError,
            >(CoapError::EmptyPayload)
        }),
{
    let options = message.options;
    let count = options.len() as int;
    assert forall|k: int| 0 <= k < options.len() implies stands(
        datagram,
        #[trigger] places[k],
        places[k + 1],
        options[k].0 - number_before(options, k, 0),
        options[k].1,
    ) by {
        reveal(stands);
    }
    lemma_standing_options_are_read(datagram, options, places, count);
    let end = places[count];
    let last = number_before(options, count, 0);
    if end >= datagram.len() || datagram[end] == 0xff {
        assert(options_at(datagram, end, last) == Ok::<(Seq<OptionView>, int), CoapError>(
            (Seq::empty(), end),
        ));
        assert(options.take(count) + Seq::empty() =~= options);
        if message.payload.len() == 0 && datagram.len() == end {
            assert(message.payload =~= Seq::empty());
            assert(decoding(datagram)->Ok_0 =~= message);
        }
        if message.payload.len() > 0 && datagram.len() == end + 1 + message.payload.len() {
            if datagram.skip(end + 1) == message.payload {
                assert(decoding(datagram)->Ok_0 =~= message);
            }
        }
    }
}

/// Why a datagram is refused for its header or its token.
pub proof fn what_is_no_header(datagram: Seq<u8>)
    ensures
        ({
            let header = datagram.len() >= 4 && datagram[0] as int / 64 == 1;
            let length = datagram[0] as int % 16;
            &&& decoding(datagram) == Err::<MessageView, CoapError>(CoapError::NotCoap) <==>
                !header
            &&& decoding(datagram) == Err::<MessageView, CoapError>(
                CoapError::TokenLengthOverEight,
            ) <==> header && length > 8
            &&& decoding(datagram) == Err::<MessageView, CoapError>(CoapError::TokenPastDatagram)
                <==> header && length <= 8 && datagram.len() < 4 + length
        }),
{
    if datagram.len() >= 4 && datagram[0] as int % 16 <= 8 {
        lemma_options_fail_on_their_own(datagram, 4 + datagram[0] as int % 16, 0);
    }
}

proof fn lemma_options_fail_on_their_own(datagram: Seq<u8>, at: int, last: int)
    requires
        0 <= at,
    ensures
        options_at(datagram, at, last) matches Err(error) ==> error is ExtensionPastDatagram
            || error is ExtensionTooLarge || error is ReservedNibble
            || error is OptionNumberTooLarge || error is OptionPastDatagram,
    decreases datagram.len() - at,
{
    if at < datagram.len() && datagram[at] != 0xff {
        if let Ok((option, behind)) = option_at(datagram, at, last) {
            lemma_options_fail_on_their_own(datagram, behind, option.0 as int);
        }
    }
}

/// What can be wrong with a datagram, whatever it is.
pub proof fn what_reading_can_say(datagram: Seq<u8>)
    ensures
        decoding(datagram) matches Err(error) ==> error is NotCoap || error is TokenLengthOverEight
            || error is TokenPastDatagram || error is ExtensionPastDatagram
            || error is ExtensionTooLarge || error is ReservedNibble
            || error is OptionNumberTooLarge || error is OptionPastDatagram
            || error is EmptyPayload,
{
    if datagram.len() >= 4 && datagram[0] as int % 16 <= 8 {
        lemma_options_fail_on_their_own(datagram, 4 + datagram[0] as int % 16, 0);
    }
}

/// Why a datagram is refused for an option: `options` stand at `places`, byte by
/// byte, and the next byte starts one that is no option. What is wrong with the
/// delta comes first, then what is wrong with the length, then with the number,
/// then with the value.
pub proof fn what_is_no_option(
    datagram: Seq<u8>,
    options: Seq<OptionView>,
    places: Seq<int>,
)
    requires
        datagram.len() >= 4,
        datagram[0] as int / 64 == 1,
        datagram[0] as int % 16 <= 8,
        datagram.len() >= 4 + datagram[0] as int % 16,
        places.len() == options.len() + 1,
        places[0] == 4 + datagram[0] as int % 16,
        forall|i: int| 0 <= i < options.len() ==> {
                let (at, behind) = (#[trigger] places[i], places[i + 1]);
                let (number, value) = options[i];
                let previous = if i == 0 {
                    0
                } else {
                    options[i - 1].0 as int
                };
                let delta = number - previous;
                let length = value.len() as int;
                let wide = if delta < 13 {
                    0int
                } else if delta < 269 {
                    1
                } else {
                    2
                };
                let long = if length < 13 {
                    0int
                } else if length < 269 {
                    1
                } else {
                    2
                };
                let length_at = at + 1 + wide;
                &&& 0 <= delta
                &&& length <= 65_535
                &&& behind == length_at + long + length <= datagram.len()
                &&& datagram[at] as int / 16 == if delta < 13 {
                    delta
                } else {
                    12 + wide
                }
                &&& datagram[at] as int % 16 == if length < 13 {
                    length
                } else {
                    12 + long
                }
                &&& wide == 1 ==> datagram[at + 1] == delta - 13
                &&& wide == 2 ==> 256 * datagram[at + 1] + datagram[at + 2] == delta - 269
                &&& long == 1 ==> datagram[length_at] == length - 13
                &&& long == 2 ==> 256 * datagram[length_at] + datagram[length_at + 1] == length
                    - 269
                &&& datagram.subrange(behind - length, behind) == value
            },
        places[options.len() as int] < datagram.len(),
        datagram[places[options.len() as int]] != 0xff,
    ensures
        ({
            let at = places[options.len() as int];
            let last = if options.len() == 0 {
                0
            } else {
                options[options.len() - 1].0 as int
            };
            let (high, low) = (datagram[at] as int / 16, datagram[at] as int % 16);
            let wide = if high < 13 {
                0int
            } else {
                high - 12
            };
            let long = if low < 13 {
                0int
            } else {
                low - 12
            };
            let length_at = at + 1 + wide;
            let value_at = length_at + long;
            let delta = if high < 13 {
                high
            } else if high == 13 {
                datagram[at + 1] + 13
            } else {
                256 * datagram[at + 1] + datagram[at + 2] + 269
            };
            let length = if low < 13 {
                low
            } else if low == 13 {
                datagram[length_at] + 13
            } else {
                256 * datagram[length_at] + datagram[length_at + 1] + 269
            };
            let delta_is = high < 15 && length_at <= datagram.len() && delta <= 65_535;
            let length_is = low < 15 && value_at <= datagram.len() && length <= 65_535;
            &&& !delta_is ==> decoding(datagram) == Err::<MessageView, CoapError>(
                if high == 15 {
                    CoapError::ReservedNibble
                } else if length_at > datagram.len() {
                    CoapError::ExtensionPastDatagram
                } else {
                    CoapError::ExtensionTooLarge
                },
            )
            &&& delta_is && !length_is ==> decoding(datagram) == Err::<MessageView, CoapError>(
                if low == 15 {
                    CoapError::ReservedNibble
                } else if value_at > datagram.len() {
                    CoapError::ExtensionPastDatagram
                } else {
                    CoapError::ExtensionTooLarge
                },
            )
            &&& delta_is && length_is && last + delta > 65_535 ==> decoding(datagram) == Err::<
                MessageView,
                CoapError,
            >(CoapError::OptionNumberTooLarge)
            &&& delta_is && length_is && last + delta <= 65_535 && value_at + length
                > datagram.len() ==> decoding(datagram) == Err::<MessageView, CoapError>(
                CoapError::OptionPastDatagram,
            )
        }),
{
    let count = options.len() as int;
    assert forall|k: int| 0 <= k < options.len() implies stands(
        datagram,
        #[trigger] places[k],
        places[k + 1],
        options[k].0 - number_before(options, k, 0),
        options[k].1,
    ) by {
        reveal(stands);
    }
    lemma_standing_options_are_read(datagram, options, places, count);
    assert(option_at(datagram, places[count], number_before(options, count, 0)) is Err ==>
        options_at(datagram, places[count], number_before(options, count, 0)) is Err);
}

/// A delta or a length, byte by byte: what its nibble is, and what extends it.
pub proof fn a_number_on_the_wire(n: u16)
    ensures
        n < 13 ==> nibble(n as int) == n && extension(n as int).len() == 0,
        13 <= n < 269 ==> nibble(n as int) == 13 && extension(n as int) == seq![(n - 13) as u8],
        269 <= n ==> {
            &&& nibble(n as int) == 14
            &&& extension(n as int).len() == 2
            &&& 256 * extension(n as int)[0] + extension(n as int)[1] == n - 269
        },
{
}

/// A delta or a length that is read, byte by byte: what its nibble says, or the
/// bytes that the nibble points to, and why there is none.
pub proof fn a_number_off_the_wire(datagram: Seq<u8>, at: int, bits: int)
    requires
        0 <= at,
        0 <= bits,
    ensures
        bits < 13 ==> extended_at(datagram, at, bits) == Ok::<(int, int), CoapError>((bits, at)),
        bits == 13 && at < datagram.len() ==> extended_at(datagram, at, bits) == Ok::<
            (int, int),
            CoapError,
        >((datagram[at] + 13, at + 1)),
        bits == 14 && at + 1 < datagram.len() ==> {
            let n = 256 * datagram[at] + datagram[at + 1] + 269;
            extended_at(datagram, at, bits) == if n <= 65_535 {
                Ok::<(int, int), CoapError>((n, at + 2))
            } else {
                Err(CoapError::ExtensionTooLarge)
            }
        },
        (bits == 13 || bits == 14) && at + bits - 12 > datagram.len() ==> extended_at(
            datagram,
            at,
            bits,
        ) == Err::<(int, int), CoapError>(CoapError::ExtensionPastDatagram),
        bits > 14 ==> extended_at(datagram, at, bits) == Err::<(int, int), CoapError>(
            CoapError::ReservedNibble,
        ),
{
}

} // verus!
