//! RFC 7252 section 3: the four-byte header, the token, the options with
//! their delta encoding, the payload marker, and the payload.

use vstd::prelude::*;
use vstd::slice::*;
use vstd::string::*;
use vstd::utf8::encode_utf8;

use crate::error::CoapError;
use crate::options::{
    in_order, is_ordered, numbered, option_view, option_views, order_is_by_number,
    order_keeps_members, ordered, referred_views, OptionView,
};
use crate::text::{
    digit, join, joined, lossy_text, path_segments, push_digit, segments, text_of, views,
};

verus! {

/// The largest datagram a CoAP endpoint must take, RFC 7252 section 4.6.
pub const MAX_DATAGRAM: usize = 1152;

/// The most payload one message carries without block-wise transfer.
pub const MAX_PAYLOAD: usize = 1024;

pub const URI_PATH: u16 = 11;

pub const CONTENT_FORMAT: u16 = 12;

pub const URI_QUERY: u16 = 15;

pub const GET: u8 = 0x01;

pub const POST: u8 = 0x02;

pub const PUT: u8 = 0x03;

pub const DELETE: u8 = 0x04;

/// 2.01 Created.
pub const CREATED: u8 = 0x41;

/// 2.04 Changed.
pub const CHANGED: u8 = 0x44;

/// 2.05 Content.
pub const CONTENT: u8 = 0x45;

/// 4.00 Bad Request.
pub const BAD_REQUEST: u8 = 0x80;

/// 4.13 Request Entity Too Large.
pub const TOO_LARGE: u8 = 0x8d;

/// The byte that stands between the options and the payload.
pub const PAYLOAD_MARKER: u8 = 0xff;

/// The message type, two bits of the first byte.
#[derive(Clone, Copy, Debug, PartialEq, Eq, Structural)]
pub enum Kind {
    Confirmable,
    NonConfirmable,
    Acknowledgement,
    Reset,
}

/// One CoAP message, split.
#[derive(Clone, Debug, PartialEq, Eq)]
pub struct Message {
    pub kind: Kind,
    /// `c.dd` packed as three bits of class and five of detail.
    pub code: u8,
    pub id: u16,
    pub token: Vec<u8>,
    /// Option number and value, in the order they are sent.
    pub options: Vec<(u16, Vec<u8>)>,
    pub payload: Vec<u8>,
}

/// A message as a mathematical value.
#[verifier::ext_equal]
pub struct MessageView {
    pub kind: Kind,
    pub code: u8,
    pub id: u16,
    pub token: Seq<u8>,
    pub options: Seq<OptionView>,
    pub payload: Seq<u8>,
}

impl View for Message {
    type V = MessageView;

    open spec fn view(&self) -> MessageView {
        MessageView {
            kind: self.kind,
            code: self.code,
            id: self.id,
            token: self.token@,
            options: option_views(self.options@),
            payload: self.payload@,
        }
    }
}

/// A request for `path` carrying `payload`: the id doubles as the token, and
/// each segment of the path is one option.
pub open spec fn request_view(
    kind: Kind,
    code: u8,
    id: u16,
    path: Seq<char>,
    payload: Seq<u8>,
) -> MessageView {
    MessageView {
        kind,
        code,
        id,
        token: two_bytes(id as int),
        options: segments(path).map_values(
            |segment: Seq<char>| (URI_PATH, encode_utf8(segment)),
        ),
        payload,
    }
}

/// The answer to `message` with `code` and `payload`: piggybacked on the ACK
/// when confirmable, a non-confirmable message otherwise, under the same id
/// and token.
pub open spec fn response_view(message: MessageView, code: u8, payload: Seq<u8>) -> MessageView {
    MessageView {
        kind: if message.kind == Kind::Confirmable {
            Kind::Acknowledgement
        } else {
            Kind::NonConfirmable
        },
        code,
        id: message.id,
        token: message.token,
        options: Seq::empty(),
        payload,
    }
}

/// The texts of the Uri-Path options of `message`, in the order they stand.
pub open spec fn path_texts(message: MessageView) -> Seq<Seq<char>> {
    numbered(message.options, URI_PATH).map_values(|option: OptionView| lossy_text(option.1))
}

/// The class of a code: what stands before the point.
pub open spec fn code_class(code: u8) -> nat {
    code as nat / 32
}

/// The detail of a code: what stands behind the point.
pub open spec fn code_detail(code: u8) -> nat {
    code as nat % 32
}

/// A code as it is written: its class, a point, and two digits of detail.
pub open spec fn code_chars(code: u8) -> Seq<char> {
    seq![
        digit(code_class(code)),
        '.',
        digit(code_detail(code) / 10),
        digit(code_detail(code) % 10),
    ]
}

/// Whether a code is a request's: class 0, but not the empty message's code.
pub open spec fn is_request_code(code: u8) -> bool {
    code_class(code) == 0 && code != 0
}

impl Message {
    /// A request for `path` carrying `payload`.
    #[must_use]
    pub fn request(kind: Kind, code: u8, id: u16, path: &str, payload: &[u8]) -> (message: Self)
        ensures
            message@ == request_view(kind, code, id, path@, payload@),
            message.kind == kind,
            message.code == code,
            message.id == id,
            message.token@.len() == 2,
            256 * message.token@[0] + message.token@[1] == id,
            message.payload@ == payload@,
    {
        let pieces: Vec<Vec<u8>> = path_segments(path);
        let ghost encoded = segments(path@).map_values(|segment: Seq<char>| encode_utf8(segment));
        let mut options: Vec<(u16, Vec<u8>)> = Vec::new();
        let mut i: usize = 0;
        while i < pieces.len()
            invariant
                i <= pieces.len(),
                pieces@.map_values(|segment: Vec<u8>| segment@) == encoded,
                encoded.len() == pieces.len(),
                options.len() == i,
                forall|k: int|
                    0 <= k < i ==> option_view(#[trigger] options@[k]) == (URI_PATH, encoded[k]),
            decreases pieces.len() - i,
        {
            let segment: Vec<u8> = slice_to_vec(pieces[i].as_slice());
            assert(segment@ == encoded[i as int]);
            options.push((URI_PATH, segment));
            i = i + 1;
        }
        let mut token: Vec<u8> = Vec::new();
        append_bytes(&mut token, &big_endian(id));
        let message = Message { kind, code, id, token, options, payload: slice_to_vec(payload) };
        proof {
            let wanted = request_view(kind, code, id, path@, payload@);
            assert forall|k: int| 0 <= k < options.len() implies #[trigger] message@.options[k]
                == wanted.options[k] by {
                assert(option_view(options@[k]) == (URI_PATH, encoded[k]));
            }
            assert(message@ =~= wanted);
        }
        message
    }

    /// The answer to `self`: piggybacked on the ACK when confirmable, a
    /// non-confirmable message otherwise, under the same token.
    #[must_use]
    pub fn response(&self, code: u8, payload: &[u8]) -> (message: Self)
        ensures
            message@ == response_view(self@, code, payload@),
            message.code == code,
            message.payload@ == payload@,
            message.id == self.id,
            message.token@ == self.token@,
            message.options@.len() == 0,
            message.kind == Kind::Acknowledgement <==> self.kind == Kind::Confirmable,
            message.kind == Kind::NonConfirmable <==> self.kind != Kind::Confirmable,
    {
        let message = Message {
            kind: match self.kind {
                Kind::Confirmable => Kind::Acknowledgement,
                _ => Kind::NonConfirmable,
            },
            code,
            id: self.id,
            token: slice_to_vec(self.token.as_slice()),
            options: Vec::new(),
            payload: slice_to_vec(payload),
        };
        assert(message@ =~= response_view(self@, code, payload@));
        message
    }

    /// The Uri-Path options joined: `sensors/1`.
    #[must_use]
    pub fn uri_path(&self) -> (path: String)
        ensures
            path@ == joined(path_texts(self@)),
    {
        let mut texts: Vec<String> = Vec::new();
        let mut i: usize = 0;
        let ghost all = self@.options;
        let ghost text = |option: OptionView| lossy_text(option.1);
        proof {
            reveal_with_fuel(Seq::filter, 1);
            assert(views(texts@) =~= numbered(all.take(0), URI_PATH).map_values(text));
        }
        while i < self.options.len()
            invariant
                i <= self.options.len(),
                all == option_views(self.options@),
                text == (|option: OptionView| lossy_text(option.1)),
                views(texts@) == numbered(all.take(i as int), URI_PATH).map_values(text),
            decreases self.options.len() - i,
        {
            let ghost before = views(texts@);
            let ghost done = numbered(all.take(i as int), URI_PATH);
            if self.options[i].0 == URI_PATH {
                texts.push(text_of(&self.options[i].1));
            }
            proof {
                let option = all[i as int];
                reveal_with_fuel(Seq::filter, 1);
                assert(all.take(i + 1).drop_last() =~= all.take(i as int));
                assert(all.take(i + 1).last() == option);
                if option.0 == URI_PATH {
                    assert(views(texts@) =~= before.push(text(option)));
                    assert(done.push(option).map_values(text) =~= done.map_values(text).push(
                        text(option),
                    ));
                }
            }
            i = i + 1;
        }
        assert(all.take(i as int) =~= all);
        join(&texts)
    }

    /// The code as it is written: `2.04`.
    #[must_use]
    pub fn code_text(&self) -> (text: String)
        ensures
            text@ == code_chars(self.code),
    {
        code_to_text(self.code)
    }

    /// Whether the code is a request, class 0.
    #[must_use]
    pub fn is_request(&self) -> (yes: bool)
        ensures
            yes == is_request_code(self@.code),
            yes == (1 <= self.code <= 31),
    {
        self.code / 32 == 0 && self.code != 0
    }
}

/// A code as it is written: `2.04`.
pub fn code_to_text(code: u8) -> (text: String)
    ensures
        text@ == code_chars(code),
{
    let mut text: String = String::new();
    push_digit(&mut text, code / 32);
    text.append(".");
    push_digit(&mut text, code % 32 / 10);
    push_digit(&mut text, code % 32 % 10);
    proof {
        reveal_strlit(".");
        assert("."@ =~= seq!['.']);
        assert(text@ =~= code_chars(code));
    }
    text
}

/// The two bits that stand for a message type.
pub open spec fn kind_bits(kind: Kind) -> int {
    match kind {
        Kind::Confirmable => 0,
        Kind::NonConfirmable => 1,
        Kind::Acknowledgement => 2,
        Kind::Reset => 3,
    }
}

/// `n` as two bytes, the more significant first.
pub open spec fn two_bytes(n: int) -> Seq<u8>
    recommends
        0 <= n < 0x10000,
{
    seq![(n / 256) as u8, (n % 256) as u8]
}

/// The nibble that stands for a delta or a length of `n`.
pub open spec fn nibble(n: int) -> int {
    if n < 13 {
        n
    } else if n < 269 {
        13
    } else {
        14
    }
}

/// The extension bytes that a delta or a length of `n` needs beside its nibble.
pub open spec fn extension(n: int) -> Seq<u8> {
    if n < 13 {
        Seq::empty()
    } else if n < 269 {
        seq![(n - 13) as u8]
    } else {
        two_bytes(n - 269)
    }
}

/// One option on the wire, its number being `delta` over the one before.
pub open spec fn option_wire(delta: int, value: Seq<u8>) -> Seq<u8> {
    seq![(16 * nibble(delta) + nibble(value.len() as int)) as u8] + extension(delta) + extension(
        value.len() as int,
    ) + value
}

/// `options` on the wire, the option before them having had the number `last`.
pub open spec fn options_wire(options: Seq<OptionView>, last: int) -> Seq<u8>
    decreases options.len(),
{
    if options.len() == 0 {
        Seq::empty()
    } else {
        option_wire(options[0].0 - last, options[0].1) + options_wire(
            options.drop_first(),
            options[0].0 as int,
        )
    }
}

/// A payload on the wire: nothing where it is empty, else behind its marker.
pub open spec fn payload_wire(payload: Seq<u8>) -> Seq<u8> {
    if payload.len() == 0 {
        Seq::empty()
    } else {
        seq![PAYLOAD_MARKER] + payload
    }
}

/// The four-byte header: version 1, the type, the token's length, the code and
/// the message id.
pub open spec fn header_wire(message: MessageView) -> Seq<u8> {
    seq![(64 + 16 * kind_bits(message.kind) + message.token.len()) as u8, message.code] + two_bytes(
        message.id as int,
    )
}

/// `message` on the wire.
pub open spec fn wire(message: MessageView) -> Seq<u8> {
    header_wire(message) + message.token + options_wire(in_order(message.options), 0)
        + payload_wire(message.payload)
}

/// Some option's value is longer than a length can say.
pub open spec fn has_long_value(options: Seq<OptionView>) -> bool {
    exists|i: int| 0 <= i < options.len() && (#[trigger] options[i]).1.len() > u16::MAX
}

/// What comes of framing `message`.
pub open spec fn encoding(message: MessageView) -> Result<Seq<u8>, CoapError> {
    if message.token.len() > 8 {
        Err(CoapError::TokenTooLong)
    } else if has_long_value(message.options) {
        Err(CoapError::OptionValueTooLong)
    } else if wire(message).len() > MAX_DATAGRAM {
        Err(CoapError::MessageTooLarge)
    } else {
        Ok(wire(message))
    }
}

/// The number of the last of `options`, or `last` where there is none.
pub open spec fn last_number(options: Seq<OptionView>, last: int) -> int {
    if options.len() == 0 {
        last
    } else {
        options.last().0 as int
    }
}

/// What the two bytes of `datagram` at `at` say, the more significant first.
pub open spec fn two_bytes_at(datagram: Seq<u8>, at: int) -> int {
    256 * datagram[at] + datagram[at + 1]
}

/// A delta or a length read from `datagram`: what `nibble` says, or the
/// extension at `at` where it points to one; and the place behind it.
pub open spec fn extended_at(datagram: Seq<u8>, at: int, nibble: int) -> Result<
    (int, int),
    CoapError,
> {
    if nibble < 13 {
        Ok((nibble, at))
    } else if nibble == 13 {
        if at < datagram.len() {
            Ok((datagram[at] + 13, at + 1))
        } else {
            Err(CoapError::ExtensionPastDatagram)
        }
    } else if nibble == 14 {
        if at + 2 > datagram.len() {
            Err(CoapError::ExtensionPastDatagram)
        } else if two_bytes_at(datagram, at) + 269 > u16::MAX {
            Err(CoapError::ExtensionTooLarge)
        } else {
            Ok((two_bytes_at(datagram, at) + 269, at + 2))
        }
    } else {
        Err(CoapError::ReservedNibble)
    }
}

/// The option that starts at `at`, the one before having had the number
/// `last`; and the place behind it.
pub open spec fn option_at(datagram: Seq<u8>, at: int, last: int) -> Result<
    (OptionView, int),
    CoapError,
> {
    match extended_at(datagram, at + 1, datagram[at] as int / 16) {
        Err(error) => Err(error),
        Ok((delta, then_at)) => match extended_at(datagram, then_at, datagram[at] as int % 16) {
            Err(error) => Err(error),
            Ok((length, value_at)) => if last + delta > u16::MAX {
                Err(CoapError::OptionNumberTooLarge)
            } else if value_at + length > datagram.len() {
                Err(CoapError::OptionPastDatagram)
            } else {
                Ok(
                    (
                        ((last + delta) as u16, datagram.subrange(value_at, value_at + length)),
                        value_at + length,
                    ),
                )
            },
        },
    }
}

/// The options from `at` up to the payload marker or the end, the one before
/// them having had the number `last`; and the place where they end.
pub open spec fn options_at(datagram: Seq<u8>, at: int, last: int) -> Result<
    (Seq<OptionView>, int),
    CoapError,
>
    decreases datagram.len() - at,
{
    if at >= datagram.len() || datagram[at] == PAYLOAD_MARKER {
        Ok((Seq::empty(), at))
    } else {
        match option_at(datagram, at, last) {
            Err(error) => Err(error),
            Ok((option, behind)) => match options_at(datagram, behind, option.0 as int) {
                Err(error) => Err(error),
                Ok((rest, end)) => Ok((seq![option] + rest, end)),
            },
        }
    }
}

/// The message type that two bits stand for.
pub open spec fn kind_of_bits(bits: int) -> Kind {
    if bits == 0 {
        Kind::Confirmable
    } else if bits == 1 {
        Kind::NonConfirmable
    } else if bits == 2 {
        Kind::Acknowledgement
    } else {
        Kind::Reset
    }
}

/// What comes of reading `datagram`.
pub open spec fn decoding(datagram: Seq<u8>) -> Result<MessageView, CoapError> {
    let token_length = datagram[0] as int % 16;
    if datagram.len() < 4 || datagram[0] as int / 64 != 1 {
        Err(CoapError::NotCoap)
    } else if token_length > 8 {
        Err(CoapError::TokenLengthOverEight)
    } else if 4 + token_length > datagram.len() {
        Err(CoapError::TokenPastDatagram)
    } else {
        match options_at(datagram, 4 + token_length, 0) {
            Err(error) => Err(error),
            Ok((options, end)) => if end + 1 == datagram.len() {
                Err(CoapError::EmptyPayload)
            } else {
                Ok(
                    MessageView {
                        kind: kind_of_bits(datagram[0] as int / 16 % 4),
                        code: datagram[1],
                        id: two_bytes_at(datagram, 2) as u16,
                        token: datagram.subrange(4, 4 + token_length),
                        options,
                        payload: if end < datagram.len() {
                            datagram.skip(end + 1)
                        } else {
                            Seq::empty()
                        },
                    },
                )
            },
        }
    }
}

proof fn lemma_options_wire_push(options: Seq<OptionView>, option: OptionView, last: int)
    ensures
        options_wire(options.push(option), last) == options_wire(options, last) + option_wire(
            option.0 - last_number(options, last),
            option.1,
        ),
    decreases options.len(),
{
    let more = options.push(option);
    if options.len() == 0 {
        reveal_with_fuel(options_wire, 2);
        assert(options_wire(more, last) =~= options_wire(options, last) + option_wire(
            option.0 - last,
            option.1,
        ));
    } else {
        lemma_options_wire_push(options.drop_first(), option, options[0].0 as int);
        assert(more.drop_first() =~= options.drop_first().push(option));
        assert(options_wire(more, last) =~= options_wire(options, last) + option_wire(
            option.0 - last_number(options, last),
            option.1,
        ));
    }
}

/// Ordering neither adds nor removes a value that is too long.
pub proof fn order_keeps_long_values(options: Seq<OptionView>)
    ensures
        has_long_value(in_order(options)) <==> has_long_value(options),
{
    let sent = in_order(options);
    if has_long_value(sent) {
        let i = choose|i: int| 0 <= i < sent.len() && (#[trigger] sent[i]).1.len() > u16::MAX;
        order_keeps_members(options, sent[i]);
        let j = choose|j: int| 0 <= j < options.len() && options[j] == sent[i];
        assert(options[j].1.len() > u16::MAX);
    }
    if has_long_value(options) {
        let i = choose|i: int| 0 <= i < options.len() && (#[trigger] options[i]).1.len() > u16::MAX;
        order_keeps_members(options, options[i]);
        let j = choose|j: int| 0 <= j < sent.len() && sent[j] == options[i];
        assert(sent[j].1.len() > u16::MAX);
    }
}

/// Appends `more` to `out`.
pub(crate) fn append_bytes(out: &mut Vec<u8>, more: &[u8])
    ensures
        final(out)@ == old(out)@ + more@,
{
    let ghost before = out@;
    out.extend_from_slice(more);
    assert(out@ =~= before + more@);
}

/// `n` as two bytes, the more significant first.
pub(crate) fn big_endian(n: u16) -> (bytes: [u8; 2])
    ensures
        bytes@ == two_bytes(n as int),
{
    let bytes: [u8; 2] = [(n / 256) as u8, (n % 256) as u8];
    assert(bytes@ =~= two_bytes(n as int));
    bytes
}

/// The nibble and the extension bytes for one delta or length.
pub fn extend(value: u16) -> (out: (u8, Vec<u8>))
    ensures
        out.0 == nibble(value as int),
        out.1@ == extension(value as int),
{
    let mut extra: Vec<u8> = Vec::new();
    if value < 13 {
        (value as u8, extra)
    } else if value < 269 {
        extra.push((value - 13) as u8);
        assert(extra@ =~= extension(value as int));
        (13, extra)
    } else {
        append_bytes(&mut extra, &big_endian(value - 269));
        assert(extra@ =~= extension(value as int));
        (14, extra)
    }
}

/// Encode `message` as a datagram.
pub fn encode(message: &Message) -> (out: Result<Vec<u8>, CoapError>)
    ensures
        match out {
            Ok(datagram) => encoding(message@) == Ok::<Seq<u8>, CoapError>(datagram@),
            Err(error) => encoding(message@) == Err::<Seq<u8>, CoapError>(error),
        },
{
    if message.token.len() > 8 {
        return Err(CoapError::TokenTooLong);
    }
    let kind: u8 = match message.kind {
        Kind::Confirmable => 0,
        Kind::NonConfirmable => 1,
        Kind::Acknowledgement => 2,
        Kind::Reset => 3,
    };
    let length: u8 = message.token.len() as u8;
    assert(kind <= 3 && length <= 8 ==> 0x40u8 | (kind << 4) | length == 64 + 16 * kind + length)
        by (bit_vector);
    let mut out: Vec<u8> = Vec::new();
    out.push(0x40 | (kind << 4) | length);
    out.push(message.code);
    append_bytes(&mut out, &big_endian(message.id));
    assert(out@ =~= header_wire(message@));
    append_bytes(&mut out, message.token.as_slice());
    let ghost front = out@;
    let options: Vec<&(u16, Vec<u8>)> = ordered(&message.options);
    let ghost views = referred_views(options@);
    let mut last: u16 = 0;
    let mut i: usize = 0;
    proof {
        order_is_by_number(message@.options);
        order_keeps_long_values(message@.options);
        assert(views.take(0) =~= Seq::empty());
        assert(out@ =~= front + options_wire(views.take(0), 0));
    }
    while i < options.len()
        invariant
            i <= options.len(),
            views == referred_views(options@),
            is_ordered(views),
            last == last_number(views.take(i as int), 0),
            forall|k: int| 0 <= k < i ==> (#[trigger] views[k]).1.len() <= u16::MAX,
            message@.token.len() <= 8,
            views == in_order(message@.options),
            has_long_value(views) == has_long_value(message@.options),
            out@ == front + options_wire(views.take(i as int), 0),
        decreases options.len() - i,
    {
        let number: u16 = options[i].0;
        let value: &Vec<u8> = &options[i].1;
        let ghost before = out@;
        proof {
            assert(views[i as int] == (number, value@));
            if i > 0 {
                assert(views.take(i as int).last() == views[i - 1]);
                assert(views[i - 1].0 <= views[i as int].0);
            }
        }
        let (delta_nibble, delta_extra) = extend(number - last);
        if value.len() > 0xffff {
            return Err(CoapError::OptionValueTooLong);
        }
        let (length_nibble, length_extra) = extend(value.len() as u16);
        assert(delta_nibble <= 14 && length_nibble <= 14 ==> (delta_nibble << 4) | length_nibble
            == 16 * delta_nibble + length_nibble) by (bit_vector);
        out.push((delta_nibble << 4) | length_nibble);
        append_bytes(&mut out, delta_extra.as_slice());
        append_bytes(&mut out, length_extra.as_slice());
        append_bytes(&mut out, value.as_slice());
        proof {
            assert(out@ =~= before + option_wire(number - last, value@));
            lemma_options_wire_push(views.take(i as int), views[i as int], 0);
            assert(views.take(i as int).push(views[i as int]) =~= views.take(i + 1));
            assert(out@ =~= front + options_wire(views.take(i + 1), 0));
        }
        last = number;
        i = i + 1;
    }
    assert(views.take(i as int) =~= views);
    if !message.payload.is_empty() {
        out.push(PAYLOAD_MARKER);
        append_bytes(&mut out, message.payload.as_slice());
    }
    assert(out@ =~= wire(message@));
    if out.len() > MAX_DATAGRAM {
        return Err(CoapError::MessageTooLarge);
    }
    Ok(out)
}

/// A delta or a length: what `nibble` says, or the extension at `at` where it
/// points to one, with `at` moved behind it. Where there is none, `at` stays.
pub fn extended(datagram: &[u8], at: &mut usize, nibble: u8) -> (out: Result<u16, CoapError>)
    ensures
        match out {
            Ok(value) => extended_at(datagram@, *old(at) as int, nibble as int) == Ok::<
                (int, int),
                CoapError,
            >((value as int, *final(at) as int)),
            Err(error) => extended_at(datagram@, *old(at) as int, nibble as int) == Err::<
                (int, int),
                CoapError,
            >(error) && *final(at) == if error is ExtensionTooLarge {
                *old(at) + 2
            } else {
                *old(at) as int
            },
        },
{
    if nibble < 13 {
        Ok(nibble as u16)
    } else if nibble == 13 {
        if *at >= datagram.len() {
            return Err(CoapError::ExtensionPastDatagram);
        }
        let byte: u8 = datagram[*at];
        *at = *at + 1;
        Ok(byte as u16 + 13)
    } else if nibble == 14 {
        if *at >= datagram.len() || datagram.len() - *at < 2 {
            return Err(CoapError::ExtensionPastDatagram);
        }
        let value: u16 = datagram[*at] as u16 * 256 + datagram[*at + 1] as u16;
        *at = *at + 2;
        match value.checked_add(269) {
            Some(value) => Ok(value),
            None => Err(CoapError::ExtensionTooLarge),
        }
    } else {
        Err(CoapError::ReservedNibble)
    }
}

/// Decode one datagram.
pub fn decode(datagram: &[u8]) -> (out: Result<Message, CoapError>)
    ensures
        match out {
            Ok(message) => decoding(datagram@) == Ok::<MessageView, CoapError>(message@),
            Err(error) => decoding(datagram@) == Err::<MessageView, CoapError>(error),
        },
{
    if datagram.len() < 4 || datagram[0] >> 6 != 1 {
        proof {
            if datagram@.len() >= 4 {
                let first = datagram@[0];
                assert(first >> 6 == first / 64) by (bit_vector);
            }
        }
        return Err(CoapError::NotCoap);
    }
    let first: u8 = datagram[0];
    assert(first >> 6 == first / 64) by (bit_vector);
    assert((first >> 4) & 0x03 == first / 16 % 4) by (bit_vector);
    assert(first & 0x0f == first % 16) by (bit_vector);
    let kind: Kind = match (first >> 4) & 0x03 {
        0 => Kind::Confirmable,
        1 => Kind::NonConfirmable,
        2 => Kind::Acknowledgement,
        _ => Kind::Reset,
    };
    let token_length: usize = (first & 0x0f) as usize;
    if token_length > 8 {
        return Err(CoapError::TokenLengthOverEight);
    }
    let code: u8 = datagram[1];
    let id: u16 = datagram[2] as u16 * 256 + datagram[3] as u16;
    if datagram.len() < 4 + token_length {
        return Err(CoapError::TokenPastDatagram);
    }
    let token: Vec<u8> = slice_to_vec(slice_subrange(datagram, 4, 4 + token_length));
    let mut at: usize = 4 + token_length;
    let mut options: Vec<(u16, Vec<u8>)> = Vec::new();
    let mut last: u16 = 0;
    let ghost whole = options_at(datagram@, at as int, 0);
    proof {
        if whole is Ok {
            assert(option_views(options@) + whole->Ok_0.0 =~= whole->Ok_0.0);
        }
    }
    while at < datagram.len() && datagram[at] != PAYLOAD_MARKER
        invariant
            4 + token_length <= at <= datagram@.len(),
            token_length <= 8,
            whole == options_at(datagram@, 4 + token_length, 0),
            match options_at(datagram@, at as int, last as int) {
                Ok((rest, end)) => whole == Ok::<(Seq<OptionView>, int), CoapError>(
                    (option_views(options@) + rest, end),
                ),
                Err(error) => whole == Err::<(Seq<OptionView>, int), CoapError>(error),
            },
            token_length == datagram@[0] as int % 16,
            datagram@.len() >= 4 + token_length,
            datagram@[0] as int / 64 == 1,
        decreases datagram@.len() - at,
    {
        let ghost start = at as int;
        let ghost before = option_views(options@);
        let byte: u8 = datagram[at];
        assert(byte >> 4 == byte / 16) by (bit_vector);
        assert(byte & 0x0f == byte % 16) by (bit_vector);
        at = at + 1;
        let delta: u16 = match extended(datagram, &mut at, byte >> 4) {
            Ok(delta) => delta,
            Err(error) => return Err(error),
        };
        let length: usize = match extended(datagram, &mut at, byte & 0x0f) {
            Ok(length) => length as usize,
            Err(error) => return Err(error),
        };
        let number: u16 = match last.checked_add(delta) {
            Some(number) => number,
            None => return Err(CoapError::OptionNumberTooLarge),
        };
        if datagram.len() - at < length {
            return Err(CoapError::OptionPastDatagram);
        }
        let value: Vec<u8> = slice_to_vec(slice_subrange(datagram, at, at + length));
        options.push((number, value));
        at = at + length;
        proof {
            let option = (number, value@);
            assert(option_at(datagram@, start, last as int) == Ok::<(OptionView, int), CoapError>(
                (option, at as int),
            ));
            assert(option_views(options@) =~= before.push(option));
            match options_at(datagram@, at as int, number as int) {
                Ok((rest, end)) => {
                    assert(before + (seq![option] + rest) =~= option_views(options@) + rest);
                },
                Err(error) => {},
            }
        }
        last = number;
    }
    assert(options_at(datagram@, at as int, last as int) == Ok::<
        (Seq<OptionView>, int),
        CoapError,
    >((Seq::empty(), at as int)));
    assert(option_views(options@) + Seq::empty() =~= option_views(options@));
    let payload: Vec<u8> = if at < datagram.len() {
        if datagram.len() - at == 1 {
            return Err(CoapError::EmptyPayload);
        }
        let rest: &[u8] = slice_subrange(datagram, at + 1, datagram.len());
        assert(rest@ =~= datagram@.skip(at + 1));
        slice_to_vec(rest)
    } else {
        Vec::new()
    };
    Ok(Message { kind, code, id, token, options, payload })
}

} // verus!
