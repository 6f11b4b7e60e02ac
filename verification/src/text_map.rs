//! The text map and its binary layout.
//!
//! A text map is the ordered list of the corpus texts; the position of a text
//! is its row id. On disk it is a count followed by the texts, each as its
//! length in bytes followed by its UTF-8 bytes. Counts and lengths are
//! variable-width integers: one byte up to 250, else a marker byte (251, 252,
//! 253) and the value in 2, 4 or 8 bytes, least significant byte first.

use vstd::prelude::*;
use vstd::slice::{slice_subrange, slice_to_vec};
use vstd::utf8::{decode_utf8, encode_utf8, encode_utf8_decode_utf8, encode_utf8_valid_utf8, valid_utf8};
use crate::SearchError;

verus! {

/// The `width` low bytes of `n`, least significant first.
pub open spec fn le_bytes(n: nat, width: nat) -> Seq<u8>
    decreases width,
{
    if width == 0 {
        Seq::empty()
    } else {
        seq![(n % 256) as u8] + le_bytes(n / 256, (width - 1) as nat)
    }
}

/// The number that the `width` bytes from position `at` spell, least
/// significant byte first.
pub open spec fn le_value(bytes: Seq<u8>, at: int, width: nat) -> nat
    decreases width,
{
    if width == 0 {
        0
    } else {
        bytes[at] as nat + 256 * le_value(bytes, at + 1, (width - 1) as nat)
    }
}

/// `n` without its `width` low bytes.
pub open spec fn high_part(n: nat, width: nat) -> nat
    decreases width,
{
    if width == 0 {
        n
    } else {
        high_part(n / 256, (width - 1) as nat)
    }
}

/// The variable-width form of a count or length below 2^64.
pub open spec fn varint(n: nat) -> Seq<u8> {
    if n <= 250 {
        seq![n as u8]
    } else if n <= 0xffff {
        seq![251u8] + le_bytes(n, 2)
    } else if n <= 0xffff_ffff {
        seq![252u8] + le_bytes(n, 4)
    } else {
        seq![253u8] + le_bytes(n, 8)
    }
}

/// The layout of one text: the length of its UTF-8 form, then that form.
pub open spec fn text_bytes(text: Seq<char>) -> Seq<u8> {
    varint(encode_utf8(text).len()) + encode_utf8(text)
}

/// The layouts of the texts, one after the other.
pub open spec fn texts_bytes(texts: Seq<Seq<char>>) -> Seq<u8>
    decreases texts.len(),
{
    if texts.len() == 0 {
        Seq::empty()
    } else {
        text_bytes(texts[0]) + texts_bytes(texts.drop_first())
    }
}

/// The layout of a text map: the number of texts, then the texts.
pub open spec fn text_map_bytes(texts: Seq<Seq<char>>) -> Seq<u8> {
    varint(texts.len()) + texts_bytes(texts)
}

/// How many bytes follow the marker byte `first` of a variable-width integer.
pub open spec fn varint_tail(first: u8) -> nat {
    if first <= 250 {
        0
    } else if first == 251 {
        2
    } else if first == 252 {
        4
    } else {
        8
    }
}

/// Reads a variable-width integer at position `at`: its value and the position
/// after it. There is none where the bytes end too early or the marker byte is
/// 254 or 255.
pub open spec fn parse_varint(bytes: Seq<u8>, at: int) -> Option<(nat, int)> {
    if at < 0 || at >= bytes.len() || bytes[at] >= 254 {
        None
    } else if bytes[at] <= 250 {
        Some((bytes[at] as nat, at + 1))
    } else if at + 1 + varint_tail(bytes[at]) <= bytes.len() {
        Some((le_value(bytes, at + 1, varint_tail(bytes[at])), at + 1 + varint_tail(bytes[at])))
    } else {
        None
    }
}

/// Reads one text at position `at`: the text and the position after it. There
/// is none where the length cannot be read, fewer bytes are left than the
/// length says, or those bytes are not UTF-8.
pub open spec fn parse_text(bytes: Seq<u8>, at: int) -> Option<(Seq<char>, int)> {
    match parse_varint(bytes, at) {
        Some((len, start)) => if start + len <= bytes.len() && valid_utf8(
            bytes.subrange(start, start + len),
        ) {
            Some((decode_utf8(bytes.subrange(start, start + len)), start + len))
        } else {
            None
        },
        None => None,
    }
}

/// Reads `count` texts from position `at` on.
pub open spec fn parse_texts(bytes: Seq<u8>, at: int, count: nat) -> Option<Seq<Seq<char>>>
    decreases count,
{
    if count == 0 {
        Some(Seq::empty())
    } else {
        match parse_text(bytes, at) {
            Some((text, next)) => match parse_texts(bytes, next, (count - 1) as nat) {
                Some(rest) => Some(seq![text] + rest),
                None => None,
            },
            None => None,
        }
    }
}

/// The text map that `bytes` hold, if they hold one. Bytes after the last text
/// are not looked at.
pub open spec fn parse_text_map(bytes: Seq<u8>) -> Option<Seq<Seq<char>>> {
    match parse_varint(bytes, 0) {
        Some((count, at)) => parse_texts(bytes, at, count),
        None => None,
    }
}

/// `bincode::encode_to_vec` on a list of strings under
/// `bincode::config::standard()`. The call succeeds on every such list: counts
/// and lengths are written as 64-bit numbers, and the writer it fills takes
/// every write. What it gives is the layout of this module: the count and each
/// length as a variable-width integer (little endian), each string as its UTF-8
/// bytes.
#[verifier::external_body]
fn bincode_encode(texts: &Vec<String>) -> (encoded: Option<Vec<u8>>)
    ensures
        encoded is Some,
        encoded matches Some(bytes) ==> bytes@ == text_map_bytes(texts.deep_view()),
{
    bincode::encode_to_vec(texts, bincode::config::standard()).ok()
}

/// `String::from_utf8`: the string that the bytes encode, when they are valid
/// UTF-8, and nothing otherwise.
#[verifier::external_body]
fn string_from_utf8(bytes: Vec<u8>) -> (text: Option<String>)
    ensures
        text is Some <==> valid_utf8(bytes@),
        text matches Some(t) ==> t@ == decode_utf8(bytes@),
{
    String::from_utf8(bytes).ok()
}

/// The bytes to store for a text map.
pub fn encode_text_map(texts: &Vec<String>) -> (bytes: Vec<u8>)
    ensures
        bytes@ == text_map_bytes(texts.deep_view()),
{
    bincode_encode(texts).unwrap()
}

/// Reads the `width` bytes at `at` as a number, least significant byte first.
fn read_le(bytes: &[u8], at: usize, width: usize) -> (value: u64)
    requires
        width == 2 || width == 4 || width == 8,
        at + width <= bytes@.len(),
    ensures
        value == le_value(bytes@, at as int, width as nat),
{
    proof {
        reveal_with_fuel(le_value, 9);
    }
    let b0 = bytes[at] as u64;
    let b1 = bytes[at + 1] as u64;
    let low = b0 + 0x100 * b1;
    if width == 2 {
        return low;
    }
    let b2 = bytes[at + 2] as u64;
    let b3 = bytes[at + 3] as u64;
    let low = low + 0x1_0000 * b2 + 0x100_0000 * b3;
    if width == 4 {
        return low;
    }
    let b4 = bytes[at + 4] as u64;
    let b5 = bytes[at + 5] as u64;
    let b6 = bytes[at + 6] as u64;
    let b7 = bytes[at + 7] as u64;
    low + 0x1_0000_0000 * b4 + 0x100_0000_0000 * b5 + 0x1_0000_0000_0000 * b6
        + 0x100_0000_0000_0000 * b7
}

/// Reads a variable-width integer at `at`: its value and the position after
/// it.
fn read_varint(bytes: &[u8], at: usize) -> (read: Option<(u64, usize)>)
    requires
        at <= bytes@.len(),
    ensures
        read matches Some((value, next)) ==> parse_varint(bytes@, at as int) == Some(
            (value as nat, next as int),
        ) && at < next <= bytes@.len(),
        read is None ==> parse_varint(bytes@, at as int) is None,
{
    if at >= bytes.len() {
        return None;
    }
    let first = bytes[at];
    if first <= 250 {
        return Some((first as u64, at + 1));
    }
    if first >= 254 {
        return None;
    }
    let width: usize = if first == 251 {
        2
    } else if first == 252 {
        4
    } else {
        8
    };
    if bytes.len() - at - 1 < width {
        return None;
    }
    let value = read_le(bytes, at + 1, width);
    Some((value, at + 1 + width))
}

/// Reads one text at `at`: the text and the position after it.
fn read_text(bytes: &[u8], at: usize) -> (read: Option<(String, usize)>)
    requires
        at <= bytes@.len(),
    ensures
        read matches Some((text, next)) ==> parse_text(bytes@, at as int) == Some(
            (text@, next as int),
        ) && at < next <= bytes@.len(),
        read is None ==> parse_text(bytes@, at as int) is None,
{
    let (len, start) = match read_varint(bytes, at) {
        Some(found) => found,
        None => {
            return None;
        },
    };
    if len > (bytes.len() - start) as u64 {
        return None;
    }
    let end = start + len as usize;
    let raw = slice_to_vec(slice_subrange(bytes, start, end));
    match string_from_utf8(raw) {
        Some(text) => Some((text, end)),
        None => None,
    }
}

/// The text map stored in `bytes`, or `DecodeError` when they do not hold one.
///
/// Never reads past the end of `bytes`, and never sets aside more memory than
/// the texts it has read so far, whatever counts and lengths the bytes claim.
pub fn decode_text_map(bytes: &[u8]) -> (decoded: Result<Vec<String>, SearchError>)
    ensures
        decoded matches Ok(texts) ==> parse_text_map(bytes@) == Some(texts.deep_view()),
        decoded matches Err(e) ==> e == SearchError::DecodeError && parse_text_map(bytes@) is None,
{
    let (count, start) = match read_varint(bytes, 0) {
        Some(found) => found,
        None => {
            return Err(SearchError::DecodeError);
        },
    };
    let mut texts: Vec<String> = Vec::new();
    let mut at: usize = start;
    let mut parsed: u64 = 0;
    while parsed < count
        invariant
            parsed <= count,
            at <= bytes@.len(),
            parse_varint(bytes@, 0) == Some((count as nat, start as int)),
            parse_texts(bytes@, start as int, count as nat) == match parse_texts(
                bytes@,
                at as int,
                (count - parsed) as nat,
            ) {
                Some(rest) => Some(texts.deep_view() + rest),
                None => None,
            },
        decreases count - parsed,
    {
        let ghost before = texts.deep_view();
        match read_text(bytes, at) {
            Some((text, next)) => {
                proof {
                    let rest = parse_texts(bytes@, next as int, (count - parsed - 1) as nat);
                    if rest is Some {
                        assert(before.push(text@) + rest.unwrap() =~= before + (seq![text@]
                            + rest.unwrap()));
                    }
                }
                texts.push(text);
                assert(texts.deep_view() =~= before.push(text@));
                at = next;
                parsed += 1;
            },
            None => {
                return Err(SearchError::DecodeError);
            },
        }
    }
    assert(texts.deep_view() + Seq::<Seq<char>>::empty() =~= texts.deep_view());
    Ok(texts)
}

/// The `width` low bytes of a number are `width` bytes.
proof fn lemma_le_bytes_len(n: nat, width: nat)
    ensures
        le_bytes(n, width).len() == width,
    decreases width,
{
    if width > 0 {
        lemma_le_bytes_len(n / 256, (width - 1) as nat);
    }
}

/// Bytes that spell `n` in `width` bytes read back as `n`, when `n` needs no
/// more than `width` bytes.
proof fn lemma_le_round_trip(bytes: Seq<u8>, at: int, n: nat, width: nat)
    requires
        0 <= at,
        at + width <= bytes.len(),
        bytes.subrange(at, at + width) == le_bytes(n, width),
        high_part(n, width) == 0,
    ensures
        le_value(bytes, at, width) == n,
    decreases width,
{
    if width > 0 {
        let rest = le_bytes(n / 256, (width - 1) as nat);
        lemma_le_bytes_len(n / 256, (width - 1) as nat);
        assert(bytes[at] == bytes.subrange(at, at + width)[0]);
        assert forall|i: int| 0 <= i < width - 1 implies bytes.subrange(at + 1, at + width)[i]
            == rest[i] by {
            assert(bytes.subrange(at + 1, at + width)[i] == bytes.subrange(at, at + width)[i + 1]);
        }
        assert(bytes.subrange(at + 1, at + 1 + (width - 1)) =~= rest);
        lemma_le_round_trip(bytes, at + 1, n / 256, (width - 1) as nat);
    }
}

/// The variable-width form of `n` is 1, 3, 5 or 9 bytes long.
pub proof fn lemma_varint_len(n: nat)
    ensures
        1 <= varint(n).len() <= 9,
{
    lemma_le_bytes_len(n, 2);
    lemma_le_bytes_len(n, 4);
    lemma_le_bytes_len(n, 8);
}

/// Where the bytes from `at` on start with the variable-width form of `n`, `n`
/// is read back, and reading ends where the form ends.
pub proof fn lemma_parse_varint(bytes: Seq<u8>, at: int, n: nat)
    requires
        n <= u64::MAX,
        0 <= at,
        at + varint(n).len() <= bytes.len(),
        bytes.subrange(at, at + varint(n).len()) == varint(n),
    ensures
        parse_varint(bytes, at) == Some((n, at + varint(n).len())),
{
    let form = varint(n);
    lemma_varint_len(n);
    assert(bytes[at] == bytes.subrange(at, at + form.len())[0]);
    if n > 250 {
        let width = varint_tail(form[0]);
        lemma_le_bytes_len(n, width);
        reveal_with_fuel(high_part, 9);
        assert(high_part(n, width) == 0);
        assert(bytes.subrange(at + 1, at + 1 + width) =~= le_bytes(n, width)) by {
            assert forall|i: int| 0 <= i < width implies bytes.subrange(at + 1, at + 1 + width)[i]
                == le_bytes(n, width)[i] by {
                assert(bytes.subrange(at + 1, at + 1 + width)[i] == bytes.subrange(
                    at,
                    at + form.len(),
                )[i + 1]);
            }
        }
        lemma_le_round_trip(bytes, at + 1, n, width);
    }
}

/// Where the bytes from `at` on start with the layout of `text`, `text` is read
/// back, and reading ends where the layout ends.
pub proof fn lemma_parse_text(bytes: Seq<u8>, at: int, text: Seq<char>)
    requires
        encode_utf8(text).len() <= u64::MAX,
        0 <= at,
        at + text_bytes(text).len() <= bytes.len(),
        bytes.subrange(at, at + text_bytes(text).len()) == text_bytes(text),
    ensures
        parse_text(bytes, at) == Some((text, at + text_bytes(text).len())),
{
    let utf8 = encode_utf8(text);
    let form = varint(utf8.len());
    let whole = bytes.subrange(at, at + text_bytes(text).len());
    assert(bytes.subrange(at, at + form.len()) =~= form) by {
        assert forall|i: int| 0 <= i < form.len() implies bytes.subrange(at, at + form.len())[i]
            == form[i] by {
            assert(bytes.subrange(at, at + form.len())[i] == whole[i]);
        }
    }
    lemma_parse_varint(bytes, at, utf8.len());
    let start = at + form.len();
    assert(bytes.subrange(start, start + utf8.len()) =~= utf8) by {
        assert forall|i: int| 0 <= i < utf8.len() implies bytes.subrange(start, start + utf8.len())[i]
            == utf8[i] by {
            assert(bytes.subrange(start, start + utf8.len())[i] == whole[form.len() + i]);
        }
    }
    encode_utf8_valid_utf8(text);
    encode_utf8_decode_utf8(text);
}

/// Where the bytes from `at` on start with the layouts of `texts`, the texts
/// are read back.
pub proof fn lemma_parse_texts(bytes: Seq<u8>, at: int, texts: Seq<Seq<char>>)
    requires
        forall|i: int| 0 <= i < texts.len() ==> encode_utf8(#[trigger] texts[i]).len() <= u64::MAX,
        0 <= at,
        at + texts_bytes(texts).len() <= bytes.len(),
        bytes.subrange(at, at + texts_bytes(texts).len()) == texts_bytes(texts),
    ensures
        parse_texts(bytes, at, texts.len()) == Some(texts),
    decreases texts.len(),
{
    if texts.len() > 0 {
        let first = text_bytes(texts[0]);
        let rest = texts.drop_first();
        let whole = bytes.subrange(at, at + texts_bytes(texts).len());
        assert(bytes.subrange(at, at + first.len()) =~= first) by {
            assert forall|i: int| 0 <= i < first.len() implies bytes.subrange(at, at + first.len())[i]
                == first[i] by {
                assert(bytes.subrange(at, at + first.len())[i] == whole[i]);
            }
        }
        lemma_parse_text(bytes, at, texts[0]);
        let next = at + first.len();
        assert(bytes.subrange(next, next + texts_bytes(rest).len()) =~= texts_bytes(rest)) by {
            assert forall|i: int| 0 <= i < texts_bytes(rest).len() implies bytes.subrange(
                next,
                next + texts_bytes(rest).len(),
            )[i] == texts_bytes(rest)[i] by {
                assert(bytes.subrange(next, next + texts_bytes(rest).len())[i] == whole[first.len()
                    + i]);
            }
        }
        assert forall|i: int| 0 <= i < rest.len() implies encode_utf8(#[trigger] rest[i]).len()
            <= u64::MAX by {
            assert(rest[i] == texts[i + 1]);
        }
        lemma_parse_texts(bytes, next, rest);
        assert(seq![texts[0]] + rest =~= texts);
    }
}

/// Round trip: what is stored for a text map reads back as that text map.
///
/// It holds for every text map whose count and text lengths are below 2^64, as
/// those of any list of strings in memory are.
pub proof fn lemma_text_map_round_trip(texts: Seq<Seq<char>>)
    requires
        texts.len() <= u64::MAX,
        forall|i: int| 0 <= i < texts.len() ==> encode_utf8(#[trigger] texts[i]).len() <= u64::MAX,
    ensures
        parse_text_map(text_map_bytes(texts)) == Some(texts),
{
    let bytes = text_map_bytes(texts);
    let form = varint(texts.len());
    assert(bytes.subrange(0, form.len() as int) =~= form);
    lemma_parse_varint(bytes, 0, texts.len());
    let at = form.len() as int;
    assert(bytes.subrange(at, at + texts_bytes(texts).len()) =~= texts_bytes(texts));
    lemma_parse_texts(bytes, at, texts);
}

} // verus!
