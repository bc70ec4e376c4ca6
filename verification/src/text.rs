//! Text: characters, decimal digits, path segments, and what stands for
//! bytes that are not UTF-8.

use vstd::prelude::*;
use vstd::string::*;
use vstd::utf8::{decode_utf8, encode_utf8, valid_utf8};

verus! {

/// The characters of `s`, in order.
pub(crate) fn chars_of(s: &str) -> (chars: Vec<char>)
    ensures
        chars@ == s@,
{
    let mut chars: Vec<char> = Vec::new();
    for c in it: s.chars()
        invariant
            chars@ == it.seq().take(it.index()),
            it.seq() == s@,
    {
        chars.push(c);
    }
    chars
}

/// The decimal digit for `d`.
pub open spec fn digit(d: nat) -> char
    recommends
        d < 10,
{
    (48 + d) as char
}

/// `n` written in decimal, without leading zeros.
pub open spec fn decimal(n: nat) -> Seq<char>
    decreases n,
{
    if n < 10 {
        seq![digit(n)]
    } else {
        decimal(n / 10).push(digit(n % 10))
    }
}

/// Appends the decimal digit for `d` to `out`.
pub(crate) fn push_digit(out: &mut String, d: u8)
    requires
        d < 10,
    ensures
        final(out)@ == old(out)@.push(digit(d as nat)),
{
    let text: &str = match d {
        0 => "0",
        1 => "1",
        2 => "2",
        3 => "3",
        4 => "4",
        5 => "5",
        6 => "6",
        7 => "7",
        8 => "8",
        _ => "9",
    };
    proof {
        reveal_strlit("0");
        reveal_strlit("1");
        reveal_strlit("2");
        reveal_strlit("3");
        reveal_strlit("4");
        reveal_strlit("5");
        reveal_strlit("6");
        reveal_strlit("7");
        reveal_strlit("8");
        reveal_strlit("9");
        assert(text@ =~= seq![digit(d as nat)]);
    }
    out.append(text);
}

/// `n` written in decimal.
pub(crate) fn push_decimal(out: &mut String, n: u16)
    ensures
        final(out)@ == old(out)@ + decimal(n as nat),
    decreases n,
{
    if n >= 10 {
        push_decimal(out, n / 10);
    }
    push_digit(out, (n % 10) as u8);
}

/// The pieces of `s` between occurrences of `separator`. There is always at
/// least one piece; a separator at either end leaves an empty one there.
pub open spec fn split_on(s: Seq<char>, separator: char) -> Seq<Seq<char>>
    decreases s.len(),
{
    if s.len() == 0 {
        seq![Seq::empty()]
    } else if s.last() == separator {
        split_on(s.drop_last(), separator).push(Seq::empty())
    } else {
        let before = split_on(s.drop_last(), separator);
        before.drop_last().push(before.last().push(s.last()))
    }
}

/// The pieces of `path` between slashes that are not empty.
pub open spec fn segments(path: Seq<char>) -> Seq<Seq<char>> {
    split_on(path, '/').filter(|segment: Seq<char>| segment.len() > 0)
}

/// `pieces` with a slash between each two.
pub open spec fn joined(pieces: Seq<Seq<char>>) -> Seq<char>
    decreases pieces.len(),
{
    if pieces.len() == 0 {
        Seq::empty()
    } else if pieces.len() == 1 {
        pieces[0]
    } else {
        joined(pieces.drop_last()).push('/') + pieces.last()
    }
}

/// The views of `strings`.
pub open spec fn views(strings: Seq<String>) -> Seq<Seq<char>> {
    strings.map_values(|s: String| s@)
}

/// The segments of `path`, each as the bytes of its UTF-8 encoding.
pub(crate) fn path_segments(path: &str) -> (out: Vec<Vec<u8>>)
    ensures
        out@.map_values(|segment: Vec<u8>| segment@) == segments(path@).map_values(
            |segment: Seq<char>| encode_utf8(segment),
        ),
{
    let chars: Vec<char> = chars_of(path);
    let mut out: Vec<Vec<u8>> = Vec::new();
    let mut start: usize = 0;
    let mut at: usize = 0;
    let ghost mut done: Seq<Seq<char>> = Seq::empty();
    let ghost keep = |segment: Seq<char>| segment.len() > 0;
    let ghost bytes = |segment: Seq<char>| encode_utf8(segment);
    let ghost plain = |segment: Vec<u8>| segment@;
    proof {
        reveal_with_fuel(Seq::filter, 1);
        assert(chars@.take(0) =~= Seq::<char>::empty());
        assert(split_on(chars@.take(0), '/') =~= done.push(chars@.subrange(0, 0)));
        assert(done.filter(keep) =~= Seq::<Seq<char>>::empty());
        assert(out@.map_values(plain) =~= done.filter(keep).map_values(bytes));
    }
    loop
        invariant_except_break
            start <= at <= chars.len(),
            split_on(chars@.take(at as int), '/') == done.push(
                chars@.subrange(start as int, at as int),
            ),
        invariant
            chars@ == path@,
            keep == (|segment: Seq<char>| segment.len() > 0),
            bytes == (|segment: Seq<char>| encode_utf8(segment)),
            plain == (|segment: Vec<u8>| segment@),
            out@.map_values(plain) == done.filter(keep).map_values(bytes),
        ensures
            split_on(chars@, '/') == done,
        decreases chars.len() - at,
    {
        let ghost piece = chars@.subrange(start as int, at as int);
        let ghost before = out@;
        if at == chars.len() || chars[at] == '/' {
            if start < at {
                let segment: Vec<u8> = path.substring_char(start, at).as_bytes_vec();
                out.push(segment);
            }
            proof {
                assert(done.push(piece).drop_last() =~= done);
                reveal_with_fuel(Seq::filter, 1);
                assert(done.push(piece).last() == piece);
                if start < at {
                    assert(keep(piece));
                    assert(done.push(piece).filter(keep) =~= done.filter(keep).push(piece));
                    assert(out@.map_values(plain) =~= before.map_values(plain).push(
                        encode_utf8(piece),
                    ));
                    assert(done.filter(keep).push(piece).map_values(bytes) =~= done.filter(
                        keep,
                    ).map_values(bytes).push(encode_utf8(piece)));
                } else {
                    assert(!keep(piece));
                    assert(done.push(piece).filter(keep) =~= done.filter(keep));
                }
                assert(out@.map_values(plain) == done.push(piece).filter(keep).map_values(bytes));
                done = done.push(piece);
            }
            if at == chars.len() {
                assert(chars@.take(at as int) =~= chars@);
                break;
            }
            proof {
                let next = chars@.take(at + 1);
                assert(next.drop_last() =~= chars@.take(at as int));
                assert(next.last() == '/');
                assert(chars@.subrange(at + 1, at + 1) =~= Seq::empty());
            }
            at = at + 1;
            start = at;
        } else {
            proof {
                let next = chars@.take(at + 1);
                assert(next.drop_last() =~= chars@.take(at as int));
                assert(next.last() == chars@[at as int]);
                assert(done.push(piece).drop_last() =~= done);
                assert(chars@.subrange(start as int, at + 1) =~= piece.push(chars@[at as int]));
            }
            at = at + 1;
        }
    }
    out
}

/// `pieces` with a slash between each two.
pub fn join(pieces: &Vec<String>) -> (out: String)
    ensures
        out@ == joined(views(pieces@)),
{
    let mut out: String = String::new();
    let mut i: usize = 0;
    assert(views(pieces@).take(0) =~= Seq::empty());
    while i < pieces.len()
        invariant
            i <= pieces.len(),
            out@ == joined(views(pieces@).take(i as int)),
        decreases pieces.len() - i,
    {
        let ghost next = views(pieces@).take(i + 1);
        if i > 0 {
            out.append("/");
            proof {
                reveal_strlit("/");
                assert("/"@ =~= seq!['/']);
            }
        }
        out.append(pieces[i].as_str());
        proof {
            assert(next.drop_last() =~= views(pieces@).take(i as int));
            assert(next.last() == pieces@[i as int]@);
            assert(out@ =~= joined(next));
        }
        i = i + 1;
    }
    assert(views(pieces@).take(i as int) =~= views(pieces@));
    out
}

proof fn lemma_split_is_not_empty(s: Seq<char>, separator: char)
    ensures
        split_on(s, separator).len() > 0,
    decreases s.len(),
{
    if s.len() > 0 {
        lemma_split_is_not_empty(s.drop_last(), separator);
    }
}

/// Joining undoes splitting at slashes.
pub proof fn joining_undoes_splitting(s: Seq<char>)
    ensures
        joined(split_on(s, '/')) == s,
    decreases s.len(),
{
    if s.len() == 0 {
        assert(joined(split_on(s, '/')) =~= s);
    } else {
        let shorter = s.drop_last();
        let before = split_on(shorter, '/');
        let pieces = split_on(s, '/');
        lemma_split_is_not_empty(shorter, '/');
        joining_undoes_splitting(shorter);
        assert(s =~= shorter.push(s.last()));
        if s.last() == '/' {
            assert(pieces.drop_last() =~= before);
            assert(joined(pieces) =~= s);
        } else {
            assert(pieces.drop_last() =~= before.drop_last());
            assert(pieces.last() == before.last().push(s.last()));
            assert(joined(pieces) =~= s);
        }
    }
}

proof fn lemma_filter_keeps_all(pieces: Seq<Seq<char>>)
    requires
        forall|i: int| 0 <= i < pieces.len() ==> (#[trigger] pieces[i]).len() > 0,
    ensures
        pieces.filter(|segment: Seq<char>| segment.len() > 0) == pieces,
    decreases pieces.len(),
{
    reveal_with_fuel(Seq::filter, 1);
    if pieces.len() > 0 {
        lemma_filter_keeps_all(pieces.drop_last());
        assert(pieces[pieces.len() - 1].len() > 0);
        assert(pieces.drop_last().push(pieces.last()) =~= pieces);
    }
}

/// A path without empty pieces, or with nothing in it, is its segments, joined.
pub proof fn joining_undoes_segmenting(path: Seq<char>)
    requires
        path.len() == 0 || forall|i: int|
            0 <= i < split_on(path, '/').len() ==> (#[trigger] split_on(path, '/')[i]).len() > 0,
    ensures
        joined(segments(path)) == path,
{
    if path.len() == 0 {
        reveal_with_fuel(Seq::filter, 2);
        assert(split_on(path, '/').drop_last() =~= Seq::empty());
        assert(segments(path) =~= Seq::empty());
        assert(joined(segments(path)) =~= path);
    } else {
        lemma_filter_keeps_all(split_on(path, '/'));
        joining_undoes_splitting(path);
    }
}

/// Text without a slash is one piece.
pub proof fn slashless_text_is_one_piece(s: Seq<char>)
    requires
        !s.contains('/'),
    ensures
        split_on(s, '/') == seq![s],
    decreases s.len(),
{
    if s.len() == 0 {
        assert(s =~= Seq::empty());
    } else {
        let shorter = s.drop_last();
        assert forall|i: int| 0 <= i < shorter.len() implies shorter[i] != '/' by {
            assert(shorter[i] == s[i]);
        }
        slashless_text_is_one_piece(shorter);
        assert(s[s.len() - 1] != '/');
        assert(s =~= shorter.push(s.last()));
        assert(split_on(s, '/') =~= seq![s]);
    }
}

/// What stands for bytes that are not valid UTF-8 when they have to be shown
/// as text, with U+FFFD for what cannot be read.
pub uninterp spec fn replaced_text(bytes: Seq<u8>) -> Seq<char>;

/// `bytes` as text: what they encode where they are valid UTF-8, what stands
/// for them where they are not.
pub open spec fn lossy_text(bytes: Seq<u8>) -> Seq<char> {
    if valid_utf8(bytes) {
        decode_utf8(bytes)
    } else {
        replaced_text(bytes)
    }
}

/// Calls `String::from_utf8_lossy`. Claimed of it: valid UTF-8 comes back as
/// the text that it encodes, and anything else as a text that depends on the
/// bytes alone.
#[verifier::external_body]
fn from_utf8_lossy(bytes: &Vec<u8>) -> (text: String)
    ensures
        valid_utf8(bytes@) ==> text@ == decode_utf8(bytes@),
        !valid_utf8(bytes@) ==> text@ == replaced_text(bytes@),
{
    String::from_utf8_lossy(bytes).into_owned()
}

/// `bytes` as text.
pub(crate) fn text_of(bytes: &Vec<u8>) -> (text: String)
    ensures
        text@ == lossy_text(bytes@),
{
    from_utf8_lossy(bytes)
}

} // verus!
