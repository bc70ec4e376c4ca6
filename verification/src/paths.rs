//! What a path is on its way: parted at its slashes, one option a part, and
//! put together again; and how codes, numbers and origins are written.

use vstd::prelude::*;
use vstd::utf8::{
    decode_utf8, encode_utf8, encode_utf8_decode_utf8, encode_utf8_valid_utf8, valid_utf8,
};

use crate::message::{code_chars, path_texts, request_view, Kind, MessageView, URI_PATH};
use crate::options::{numbered, OptionView};
use crate::text::{
    decimal, joined, joining_undoes_splitting, lossy_text, replaced_text, segments,
    slashless_text_is_one_piece, split_on,
};
use crate::transport::{arrival, origin, RequestView};

verus! {

/// Where each of `pieces` stands once they are joined: one behind the other,
/// with one slash between each two, and nothing before or behind them.
pub proof fn joined_pieces_stand(pieces: Seq<Seq<char>>) -> (starts: Seq<int>)
    ensures
        starts.len() == pieces.len(),
        pieces.len() == 0 ==> joined(pieces).len() == 0,
        forall|i: int|
            0 <= i < pieces.len() ==> {
                let text = joined(pieces);
                let start = #[trigger] starts[i];
                let behind = start + pieces[i].len();
                &&& 0 <= start
                &&& behind <= text.len()
                &&& i == 0 ==> start == 0
                &&& text.subrange(start, behind) == pieces[i]
                &&& i == pieces.len() - 1 ==> text.len() == behind
                &&& i < pieces.len() - 1 ==> text[behind] == '/' && behind < text.len()
                    && starts[i + 1] == behind + 1
            },
    decreases pieces.len(),
{
    if pieces.len() == 0 {
        Seq::empty()
    } else if pieces.len() == 1 {
        assert(pieces[0].subrange(0, pieces[0].len() as int) =~= pieces[0]);
        seq![0int]
    } else {
        let fewer = pieces.drop_last();
        let before = joined_pieces_stand(fewer);
        let shorter = joined(fewer);
        let text = joined(pieces);
        let starts = before.push(shorter.len() + 1int);
        assert(text =~= shorter.push('/') + pieces.last());
        assert forall|i: int| 0 <= i < pieces.len() implies {
            let start = #[trigger] starts[i];
            let behind = start + pieces[i].len();
            &&& 0 <= start
            &&& behind <= text.len()
            &&& i == 0 ==> start == 0
            &&& text.subrange(start, behind) == pieces[i]
            &&& i == pieces.len() - 1 ==> text.len() == behind
            &&& i < pieces.len() - 1 ==> text[behind] == '/' && behind < text.len() && starts[i + 1]
                == behind + 1
        } by {
            if i < fewer.len() {
                let start = before[i];
                let behind = start + pieces[i].len();
                assert(fewer[i] == pieces[i]);
                assert(starts[i] == start);
                assert(text.subrange(start, behind) =~= shorter.subrange(start, behind));
            } else {
                assert(text.subrange(shorter.len() + 1int, text.len() as int) =~= pieces.last());
            }
        }
        starts
    }
}

proof fn lemma_path_options(options: Seq<OptionView>)
    ensures
        numbered(options, URI_PATH) == options.filter(|option: OptionView| option.0 == 11),
    decreases options.len(),
{
    reveal_with_fuel(Seq::filter, 1);
    if options.len() > 0 {
        lemma_path_options(options.drop_last());
    }
}

/// What a message says its path is: the texts of its options number 11, one
/// behind the other, with one slash between each two. Bytes that are UTF-8
/// stand for what they encode. No other option has a part in it.
pub proof fn a_path_is_in_its_options(message: MessageView) -> (starts: Seq<int>)
    ensures
        ({
            let options = message.options.filter(|option: OptionView| option.0 == 11);
            let path = joined(path_texts(message));
            &&& starts.len() == options.len()
            &&& options.len() == 0 ==> path.len() == 0
            &&& forall|i: int|
                0 <= i < options.len() ==> {
                    let start = #[trigger] starts[i];
                    let value = options[i].1;
                    let text = if valid_utf8(value) {
                        decode_utf8(value)
                    } else {
                        replaced_text(value)
                    };
                    let behind = start + text.len();
                    &&& 0 <= start
                    &&& behind <= path.len()
                    &&& i == 0 ==> start == 0
                    &&& path.subrange(start, behind) == text
                    &&& i == options.len() - 1 ==> path.len() == behind
                    &&& i < options.len() - 1 ==> path[behind] == '/' && behind < path.len()
                        && starts[i + 1] == behind + 1
                }
        }),
{
    let options = message.options.filter(|option: OptionView| option.0 == 11);
    lemma_path_options(message.options);
    let texts = path_texts(message);
    let starts = joined_pieces_stand(texts);
    assert(options.len() == texts.len());
    assert forall|i: int| 0 <= i < options.len() implies #[trigger] texts[i] == lossy_text(
        options[i].1,
    ) by {
    }
    starts
}

/// Options of any number but 11 have no part in a path: messages whose options
/// number 11 are the same, in the same order, have the same path.
pub proof fn other_options_have_no_part_in_a_path(one: MessageView, other: MessageView)
    requires
        one.options.filter(|option: OptionView| option.0 == 11) == other.options.filter(
            |option: OptionView| option.0 == 11,
        ),
    ensures
        joined(path_texts(one)) == joined(path_texts(other)),
{
    lemma_path_options(one.options);
    lemma_path_options(other.options);
}

/// One more option adds its text to the path, behind a slash where there was
/// one before it, if its number is 11, and nothing if it is not.
pub proof fn one_more_option(message: MessageView, option: OptionView)
    ensures
        ({
            let longer = MessageView { options: message.options.push(option), ..message };
            let path = joined(path_texts(message));
            let text = if valid_utf8(option.1) {
                decode_utf8(option.1)
            } else {
                replaced_text(option.1)
            };
            joined(path_texts(longer)) == if option.0 != 11 {
                path
            } else if message.options.filter(|option: OptionView| option.0 == 11).len() == 0 {
                text
            } else {
                path + seq!['/'] + text
            }
        }),
{
    let longer = MessageView { options: message.options.push(option), ..message };
    let texts = path_texts(message);
    let more = path_texts(longer);
    lemma_path_options(message.options);
    lemma_path_options(longer.options);
    reveal_with_fuel(Seq::filter, 1);
    assert(longer.options.drop_last() =~= message.options);
    if option.0 == 11 {
        assert(more =~= texts.push(lossy_text(option.1)));
        assert(more.drop_last() =~= texts);
        assert(joined(more) =~= if texts.len() == 0 {
            lossy_text(option.1)
        } else {
            joined(texts) + seq!['/'] + lossy_text(option.1)
        });
    } else {
        assert(more =~= texts);
    }
}

/// A message whose options number 11 are the pieces of a path between its
/// slashes, each in UTF-8, has that path, whatever other options stand beside
/// them.
pub proof fn pieces_make_the_path(message: MessageView, path: Seq<char>)
    requires
        message.options.filter(|option: OptionView| option.0 == 11) == split_on(
            path,
            '/',
        ).map_values(|piece: Seq<char>| (11u16, encode_utf8(piece))),
    ensures
        joined(path_texts(message)) == path,
{
    lemma_path_options(message.options);
    let pieces = split_on(path, '/');
    let texts = path_texts(message);
    assert(texts.len() == pieces.len());
    assert forall|i: int| 0 <= i < pieces.len() implies #[trigger] texts[i] == pieces[i] by {
        encode_utf8_valid_utf8(pieces[i]);
        encode_utf8_decode_utf8(pieces[i]);
    }
    assert(texts =~= pieces);
    joining_undoes_splitting(path);
}

proof fn lemma_split_at(front: Seq<char>, back: Seq<char>)
    ensures
        split_on(back, '/').len() > 0,
        split_on(front + seq!['/'] + back, '/') == split_on(front, '/') + split_on(back, '/'),
    decreases back.len(),
{
    let path = front + seq!['/'] + back;
    if back.len() == 0 {
        assert(path.drop_last() =~= front);
        assert(split_on(path, '/') =~= split_on(front, '/') + split_on(back, '/'));
    } else {
        lemma_split_at(front, back.drop_last());
        assert(path.drop_last() =~= front + seq!['/'] + back.drop_last());
        let before = split_on(back.drop_last(), '/');
        let first = split_on(front, '/');
        assert((first + before).drop_last() =~= first + before.drop_last());
        assert(split_on(path, '/') =~= first + split_on(back, '/'));
    }
}

/// A request for `front/back` has the options of one for `front`, and behind
/// them those of one for `back`.
pub proof fn slashes_part_a_path(
    kind: Kind,
    code: u8,
    id: u16,
    front: Seq<char>,
    back: Seq<char>,
    payload: Seq<u8>,
)
    ensures
        request_view(kind, code, id, front + seq!['/'] + back, payload).options == request_view(
            kind,
            code,
            id,
            front,
            payload,
        ).options + request_view(kind, code, id, back, payload).options,
{
    lemma_split_at(front, back);
    Seq::filter_distributes_over_add(
        split_on(front, '/'),
        split_on(back, '/'),
        |segment: Seq<char>| segment.len() > 0,
    );
    assert(request_view(kind, code, id, front + seq!['/'] + back, payload).options
        =~= request_view(kind, code, id, front, payload).options + request_view(
        kind,
        code,
        id,
        back,
        payload,
    ).options);
}

/// A request for a path without a slash has one option, number 11, with the
/// path in UTF-8; and none where the path is empty.
pub proof fn a_path_without_slashes(
    kind: Kind,
    code: u8,
    id: u16,
    path: Seq<char>,
    payload: Seq<u8>,
)
    requires
        !path.contains('/'),
    ensures
        request_view(kind, code, id, path, payload).options == if path.len() == 0 {
            Seq::<OptionView>::empty()
        } else {
            seq![(11u16, encode_utf8(path))]
        },
{
    slashless_text_is_one_piece(path);
    reveal_with_fuel(Seq::filter, 2);
    assert(seq![path].drop_last() =~= Seq::empty());
    assert(segments(path) =~= if path.len() == 0 {
        Seq::<Seq<char>>::empty()
    } else {
        seq![path]
    });
}

/// How a code is written: one digit for its three upper bits, a point, and two
/// digits for its five lower ones.
pub proof fn a_written_code(code: u8)
    ensures
        code_chars(code).len() == 4,
        code_chars(code)[0] as int == 48 + code as int / 32,
        code_chars(code)[1] == '.',
        48 <= code_chars(code)[2] as int <= 57,
        48 <= code_chars(code)[3] as int <= 57,
        10 * (code_chars(code)[2] as int - 48) + (code_chars(code)[3] as int - 48) == code as int
            % 32,
{
}

/// How a number is written: in decimal digits, the first of which is not 0
/// unless it is the only one.
pub proof fn a_written_number(n: nat)
    ensures
        decimal(n).len() > 0,
        forall|i: int|
            0 <= i < decimal(n).len() ==> 48 <= (#[trigger] decimal(n)[i]) as int <= 57,
        decimal(n).len() > 1 ==> decimal(n)[0] != '0',
        decimal(n).fold_left(0int, |value: int, c: char| 10 * value + (c as int - 48)) == n,
    decreases n,
{
    let value_of = |value: int, c: char| 10 * value + (c as int - 48);
    let text = decimal(n);
    reveal_with_fuel(Seq::fold_left, 2);
    if n < 10 {
        assert(text.drop_last() =~= Seq::empty());
        assert(text.fold_left(0int, value_of) == value_of(0, text[0]));
    } else {
        a_written_number(n / 10);
        let before = decimal(n / 10);
        assert(text.drop_last() =~= before);
        assert(before.len() == 1 ==> before[0] as int == 48 + n / 10) by {
            if n / 10 >= 10 {
                a_written_number(n / 10 / 10);
            }
        }
    }
}

/// What the origin of a request says: who sent it, its path, its code, and its
/// message id. With it come the code and the id as they are written there.
pub proof fn an_origin_says(peer: Seq<char>, path: Seq<char>, code: u8, id: u16) -> (written: (
    Seq<char>,
    Seq<char>,
))
    ensures
        ({
            let (c, n) = written;
            &&& origin(peer, path, code, id) == "coap://"@ + peer + "/"@ + path + "?code="@ + c
                + "&id="@ + n
            &&& c.len() == 4
            &&& c[0] as int == 48 + code as int / 32
            &&& c[1] == '.'
            &&& 48 <= c[2] as int <= 57
            &&& 48 <= c[3] as int <= 57
            &&& 10 * (c[2] as int - 48) + (c[3] as int - 48) == code as int % 32
            &&& n.len() > 0
            &&& n.len() > 1 ==> n[0] != '0'
            &&& forall|i: int| 0 <= i < n.len() ==> 48 <= (#[trigger] n[i]) as int <= 57
            &&& n.fold_left(0int, |value: int, d: char| 10 * value + (d as int - 48)) == id
        }),
{
    a_written_code(code);
    a_written_number(id as nat);
    (code_chars(code), decimal(id as nat))
}

/// What arrives with a request: its payload, and an origin with the path that
/// its options say.
pub proof fn what_arrives(request: RequestView)
    ensures
        arrival(request).bytes == request.message.payload,
        arrival(request).origin_uri == origin(
            request.peer,
            joined(path_texts(request.message)),
            request.message.code,
            request.message.id,
        ),
{
}

} // verus!
