//! Bytes as hexadecimal text.

use crate::text::{decimal_text, hex_byte, law_byte_characters, push_decimal, push_hex_byte};
use vstd::prelude::*;
use vstd::utf8::{
    encode_utf8, encode_utf8_valid_utf8, is_ascii_chars, is_ascii_chars_encode_utf8,
    is_char_boundary, is_char_boundary_iff_not_is_continuation_byte,
    is_char_boundary_start_end_of_seq, pop_first_scalar, valid_first_scalar, valid_utf8,
};

verus! {

/// Bytes in lower-case hexadecimal, two digits each.
pub open spec fn hex_text(bytes: Seq<u8>) -> Seq<char> {
    Seq::new(2 * bytes.len(), |i: int| hex_byte(bytes[i / 2])[i % 2])
}

/// The value of a hexadecimal digit, in either case.
pub open spec fn hex_digit(b: u8) -> Option<u8> {
    if 48 <= b <= 57 {
        Some((b - 48) as u8)
    } else if 97 <= b <= 102 {
        Some((b - 87) as u8)
    } else if 65 <= b <= 70 {
        Some((b - 55) as u8)
    } else {
        None
    }
}

/// The value of two characters: two digits, or a plus sign and a digit.
pub open spec fn hex_pair(a: u8, b: u8) -> Option<u8> {
    match (hex_digit(a), hex_digit(b)) {
        (Some(x), Some(y)) => Some((x * 16 + y) as u8),
        (None, Some(y)) => if a == 43 {
            Some(y)
        } else {
            None
        },
        _ => None,
    }
}

/// The first `n` pairs of a text are valid.
pub open spec fn hex_pairs_valid(utf8: Seq<u8>, n: int) -> bool {
    forall|i: int| 0 <= i < n ==> (#[trigger] hex_pair(utf8[2 * i], utf8[2 * i + 1])) is Some
}

/// What decoding a hexadecimal text, given in UTF-8, gives.
pub open spec fn hex_decoded(utf8: Seq<u8>) -> Result<Seq<u8>, Seq<char>> {
    if utf8.len() % 2 != 0 {
        Err("odd hex length ("@ + decimal_text(utf8.len()) + ")"@)
    } else if hex_pairs_valid(utf8, utf8.len() as int / 2) {
        Ok(Seq::new(utf8.len() / 2, |i: int| hex_pair(utf8[2 * i], utf8[2 * i + 1])->0))
    } else {
        Err("invalid digit found in string"@)
    }
}

/// After some valid pairs of a text of even length comes a pair of bytes whose end is not the
/// end of a character: an ASCII character and the start of another character, or the start of
/// a character of more than two bytes.
pub open spec fn hex_splits_character(utf8: Seq<u8>) -> bool {
    utf8.len() % 2 == 0 && exists|k: int|
        0 <= 2 * k < utf8.len() && #[trigger] hex_pairs_valid(utf8, k) && (utf8[2 * k] >= 0xe0
            || (utf8[2 * k] < 0x80 && utf8[2 * k + 1] >= 0x80))
}

/// Encodes bytes in lower-case hexadecimal.
pub fn bytes_to_hex(bytes: &[u8]) -> (r: String)
    ensures
        r@ == hex_text(bytes@),
{
    let mut out: String = String::new();
    let mut i: usize = 0;
    assert(out@ =~= hex_text(bytes@.take(0)));
    while i < bytes.len()
        invariant
            i <= bytes@.len(),
            out@ == hex_text(bytes@.take(i as int)),
        decreases bytes@.len() - i,
    {
        let ghost before = out@;
        push_hex_byte(&mut out, bytes[i]);
        proof {
            let more = hex_text(bytes@.take(i + 1));
            assert forall|j: int| 0 <= j < more.len() implies more[j] == out@[j] by {
                if j < 2 * i {
                    assert(bytes@.take(i + 1)[j / 2] == bytes@.take(i as int)[j / 2]);
                }
            }
            assert(out@ =~= more);
        }
        i = i + 1;
    }
    assert(bytes@.take(i as int) =~= bytes@);
    out
}

/// The value of a hexadecimal digit.
fn digit_value(b: u8) -> (r: Option<u8>)
    ensures
        r == hex_digit(b),
        r matches Some(v) ==> v < 16,
{
    if 48 <= b && b <= 57 {
        Some(b - 48)
    } else if 97 <= b && b <= 102 {
        Some(b - 87)
    } else if 65 <= b && b <= 70 {
        Some(b - 55)
    } else {
        None
    }
}

/// The value of two characters.
fn pair_value(a: u8, b: u8) -> (r: Option<u8>)
    ensures
        r == hex_pair(a, b),
{
    match (digit_value(a), digit_value(b)) {
        (Some(x), Some(y)) => Some(x * 16 + y),
        (None, Some(y)) => if a == 43 {
            Some(y)
        } else {
            None
        },
        _ => None,
    }
}

/// Decodes hexadecimal text in either case.
pub fn hex_to_bytes(s: &str) -> (r: Result<Vec<u8>, String>)
    requires
        !hex_splits_character(encode_utf8(s@)),
    ensures
        match r {
            Ok(v) => hex_decoded(encode_utf8(s@)) == Ok::<Seq<u8>, Seq<char>>(v@),
            Err(e) => hex_decoded(encode_utf8(s@)) == Err::<Seq<u8>, Seq<char>>(e@),
        },
{
    let utf8: &[u8] = s.as_bytes();
    let len: usize = utf8.len();
    if len % 2 != 0 {
        let mut m: String = "odd hex length (".to_owned();
        push_decimal(&mut m, len as u64);
        m.append(")");
        return Err(m);
    }
    let half: usize = len / 2;
    let mut out: Vec<u8> = Vec::with_capacity(half);
    let mut i: usize = 0;
    while i < half
        invariant
            utf8@ == encode_utf8(s@),
            len == utf8@.len(),
            len == 2 * half,
            i <= half,
            out@.len() == i,
            hex_pairs_valid(utf8@, i as int),
            forall|j: int|
                0 <= j < i ==> out@[j] == (#[trigger] hex_pair(utf8@[2 * j], utf8@[2 * j + 1]))->0,
        decreases half - i,
    {
        match pair_value(utf8[2 * i], utf8[2 * i + 1]) {
            Some(v) => {
                out.push(v);
            },
            None => {
                proof {
                    let bad = hex_pair(utf8@[2 * (i as int)], utf8@[2 * (i as int) + 1]);
                    assert(bad is None);
                }
                return Err("invalid digit found in string".to_owned());
            },
        }
        i = i + 1;
    }
    assert(out@ =~= Seq::new(
        utf8@.len() / 2,
        |j: int| hex_pair(utf8@[2 * j], utf8@[2 * j + 1])->0,
    ));
    Ok(out)
}

/// Only the first pair that is not valid can end within a character.
proof fn lemma_split_at(utf8: Seq<u8>, n: int)
    requires
        utf8.len() % 2 == 0,
        0 <= 2 * n <= utf8.len(),
        hex_pairs_valid(utf8, n),
        2 * n < utf8.len() ==> hex_pair(utf8[2 * n], utf8[2 * n + 1]) is None,
    ensures
        hex_splits_character(utf8) <==> 2 * n < utf8.len() && (utf8[2 * n] >= 0xe0 || (utf8[2 * n]
            < 0x80 && utf8[2 * n + 1] >= 0x80)),
{
    if hex_splits_character(utf8) {
        let k = choose|k: int|
            0 <= 2 * k < utf8.len() && #[trigger] hex_pairs_valid(utf8, k) && (utf8[2 * k] >= 0xe0
                || (utf8[2 * k] < 0x80 && utf8[2 * k + 1] >= 0x80));
        if k < n {
            assert(hex_pair(utf8[2 * k], utf8[2 * k + 1]) is Some);
        } else if k > n {
            assert(hex_pair(utf8[2 * n], utf8[2 * n + 1]) is None);
        }
    }
}

/// Whether, after some valid pairs, a pair of bytes ends within a character.
pub fn splits_character(s: &str) -> (r: bool)
    ensures
        r == hex_splits_character(encode_utf8(s@)),
{
    let utf8: &[u8] = s.as_bytes();
    let len: usize = utf8.len();
    if len % 2 != 0 {
        return false;
    }
    let half: usize = len / 2;
    let mut i: usize = 0;
    while i < half
        invariant
            utf8@ == encode_utf8(s@),
            len == utf8@.len(),
            len == 2 * half,
            i <= half,
            hex_pairs_valid(utf8@, i as int),
        decreases half - i,
    {
        let a: u8 = utf8[2 * i];
        let b: u8 = utf8[2 * i + 1];
        if pair_value(a, b).is_none() {
            let splits: bool = a >= 0xe0 || (a < 0x80 && b >= 0x80);
            proof {
                assert(hex_pair(utf8@[2 * (i as int)], utf8@[2 * (i as int) + 1]) is None);
                lemma_split_at(utf8@, i as int);
            }
            return splits;
        }
        i = i + 1;
    }
    proof {
        lemma_split_at(utf8@, half as int);
    }
    false
}

/// Hexadecimal text is ASCII.
proof fn lemma_hex_text_ascii(bytes: Seq<u8>)
    ensures
        is_ascii_chars(hex_text(bytes)),
        encode_utf8(hex_text(bytes)).len() == 2 * bytes.len(),
        forall|i: int|
            0 <= i < 2 * bytes.len() ==> #[trigger] encode_utf8(hex_text(bytes))[i] == hex_byte(
                bytes[i / 2],
            )[i % 2] as u8,
        !hex_splits_character(encode_utf8(hex_text(bytes))),
{
    let text = hex_text(bytes);
    assert forall|i: int| 0 <= i < text.len() implies '\0' <= #[trigger] text[i] <= '\u{7f}' by {
        assert(text[i] == hex_byte(bytes[i / 2])[i % 2]);
    }
    is_ascii_chars_encode_utf8(text);
    let utf8 = encode_utf8(text);
    assert forall|i: int| 0 <= i < 2 * bytes.len() implies #[trigger] utf8[i] == hex_byte(
        bytes[i / 2],
    )[i % 2] as u8 && utf8[i] < 0x80 by {
        assert(text[i] as u8 == utf8[i]);
    }
}

/// Decoding gives back the bytes that were encoded.
pub proof fn law_hex_round_trip(bytes: Seq<u8>)
    ensures
        hex_decoded(encode_utf8(hex_text(bytes))) == Ok::<Seq<u8>, Seq<char>>(bytes),
{
    lemma_hex_text_ascii(bytes);
    let utf8 = encode_utf8(hex_text(bytes));
    assert forall|i: int| 0 <= i < bytes.len() implies (#[trigger] hex_pair(
        utf8[2 * i],
        utf8[2 * i + 1],
    )) == Some(bytes[i]) by {
        let b = bytes[i];
        assert(utf8[2 * i] == hex_byte(b)[0] as u8);
        assert(utf8[2 * i + 1] == hex_byte(b)[1] as u8);
    }
    assert(hex_decoded(utf8)->Ok_0 =~= bytes);
}

/// A text of an even number of digits, in either case, is decoded digit by digit.
pub proof fn law_hex_either_case(utf8: Seq<u8>)
    requires
        utf8.len() % 2 == 0,
        forall|i: int| 0 <= i < utf8.len() ==> (#[trigger] hex_digit(utf8[i])) is Some,
    ensures
        !hex_splits_character(utf8),
        hex_decoded(utf8) matches Ok(bytes) && bytes.len() * 2 == utf8.len() && forall|i: int|
            0 <= i < bytes.len() ==> #[trigger] bytes[i] == hex_digit(utf8[2 * i])->0 * 16
                + hex_digit(utf8[2 * i + 1])->0,
{
    assert forall|i: int| 0 <= i < utf8.len() implies #[trigger] utf8[i] < 0x80 by {
        assert(hex_digit(utf8[i]) is Some);
    }
    assert forall|i: int| 0 <= i < utf8.len() / 2 implies (#[trigger] hex_pair(
        utf8[2 * i],
        utf8[2 * i + 1],
    )) is Some && hex_pair(utf8[2 * i], utf8[2 * i + 1])->0 == hex_digit(utf8[2 * i])->0 * 16
        + hex_digit(utf8[2 * i + 1])->0 by {
        assert(hex_digit(utf8[2 * i]) is Some);
        assert(hex_digit(utf8[2 * i + 1]) is Some);
    }
}

/// The characters of bytes in hexadecimal, byte by byte.
pub proof fn law_hex_characters(bytes: Seq<u8>, i: int)
    requires
        0 <= i < bytes.len(),
    ensures
        hex_text(bytes).len() == 2 * bytes.len(),
        hex_text(bytes)[2 * i] == "0123456789abcdef"@[bytes[i] as int / 16],
        hex_text(bytes)[2 * i + 1] == "0123456789abcdef"@[bytes[i] as int % 16],
{
    law_byte_characters(bytes[i]);
    assert((2 * i) / 2 == i && (2 * i + 1) / 2 == i);
}

/// A digit's value is its place in `0` to `9` and `a` to `f`, or `A` to `F`.
pub proof fn law_hex_digit_values(b: u8, d: int)
    requires
        0 <= d < 16,
    ensures
        hex_digit(b) == Some(d as u8) <==> b == "0123456789abcdef"@[d] as u8 || b
            == "0123456789ABCDEF"@[d] as u8,
        hex_digit(b) matches Some(v) ==> v < 16,
{
    reveal_strlit("0123456789abcdef");
    reveal_strlit("0123456789ABCDEF");
    assert(d == 0 || d == 1 || d == 2 || d == 3 || d == 4 || d == 5 || d == 6 || d == 7 || d == 8
        || d == 9 || d == 10 || d == 11 || d == 12 || d == 13 || d == 14 || d == 15);
}

/// Decoding succeeds where each pair is two digits, or a plus sign and a digit, and gives the
/// number that each pair stands for; it fails with the length where there is no last pair, and
/// otherwise with one message.
pub proof fn law_hex_decoding(utf8: Seq<u8>)
    ensures
        hex_decoded(utf8) is Ok <==> utf8.len() % 2 == 0 && forall|i: int|
            0 <= i < utf8.len() as int / 2 ==> (hex_digit(utf8[2 * i]) is Some || utf8[2 * i]
                == '+' as u8) && #[trigger] hex_digit(utf8[2 * i + 1]) is Some,
        hex_decoded(utf8) matches Ok(bytes) ==> 2 * bytes.len() == utf8.len() && forall|i: int|
            0 <= i < bytes.len() ==> #[trigger] bytes[i] as int == (if utf8[2 * i] == '+' as u8 {
                0
            } else {
                16 * hex_digit(utf8[2 * i])->0
            }) + hex_digit(utf8[2 * i + 1])->0,
        hex_decoded(utf8) matches Err(e) ==> e == if utf8.len() % 2 != 0 {
            "odd hex length ("@ + decimal_text(utf8.len()) + ")"@
        } else {
            "invalid digit found in string"@
        },
{
    let half = utf8.len() as int / 2;
    if utf8.len() % 2 == 0 {
        assert forall|i: int| 0 <= i < half implies ((#[trigger] hex_pair(
            utf8[2 * i],
            utf8[2 * i + 1],
        )) is Some <==> (hex_digit(utf8[2 * i]) is Some || utf8[2 * i] == '+' as u8) && hex_digit(
            utf8[2 * i + 1],
        ) is Some) by {}
        if hex_pairs_valid(utf8, half) {
            assert forall|i: int| 0 <= i < half implies (hex_digit(utf8[2 * i]) is Some || utf8[2
                * i] == '+' as u8) && #[trigger] hex_digit(utf8[2 * i + 1]) is Some by {
                assert(hex_pair(utf8[2 * i], utf8[2 * i + 1]) is Some);
            }
            let bytes = hex_decoded(utf8)->Ok_0;
            assert forall|i: int| 0 <= i < bytes.len() implies #[trigger] bytes[i] as int == (if utf8[2
                * i] == '+' as u8 {
                0
            } else {
                16 * hex_digit(utf8[2 * i])->0
            }) + hex_digit(utf8[2 * i + 1])->0 by {
                assert(hex_pair(utf8[2 * i], utf8[2 * i + 1]) is Some);
            }
        } else {
            let i = choose|i: int| 0 <= i < half && !((#[trigger] hex_pair(utf8[2 * i], utf8[2 * i + 1])) is Some);
            assert(!((hex_digit(utf8[2 * i]) is Some || utf8[2 * i] == '+' as u8) && hex_digit(utf8[2 * i + 1]) is Some));
        }
    }
}

/// Behind an ASCII part, the rest of a text in UTF-8 is in UTF-8 as well.
proof fn lemma_behind_ascii(utf8: Seq<u8>, n: int)
    requires
        valid_utf8(utf8),
        0 <= n <= utf8.len(),
        forall|j: int| 0 <= j < n ==> #[trigger] utf8[j] < 0x80,
    ensures
        valid_utf8(utf8.skip(n)),
    decreases n,
{
    if n == 0 {
        assert(utf8.skip(0) =~= utf8);
    } else {
        lemma_behind_ascii(utf8, n - 1);
        let w = utf8.skip(n - 1);
        assert(w[0] == utf8[n - 1]);
        assert(pop_first_scalar(w) =~= utf8.skip(n));
    }
}

/// A pair after valid pairs ends within a character exactly where its end is no boundary between
/// two characters of the text.
pub proof fn law_split_is_no_boundary(text: Seq<char>)
    ensures
        hex_splits_character(encode_utf8(text)) <==> encode_utf8(text).len() % 2 == 0 && exists|
            k: int,
        |
            0 <= 2 * k < encode_utf8(text).len() && #[trigger] hex_pairs_valid(
                encode_utf8(text),
                k,
            ) && !is_char_boundary(encode_utf8(text), 2 * k + 2),
{
    let utf8 = encode_utf8(text);
    encode_utf8_valid_utf8(text);
    if utf8.len() % 2 == 0 {
        assert forall|k: int| 0 <= 2 * k < utf8.len() && #[trigger] hex_pairs_valid(
            utf8,
            k,
        ) implies (!is_char_boundary(utf8, 2 * k + 2) <==> (utf8[2 * k] >= 0xe0 || (utf8[2 * k]
            < 0x80 && utf8[2 * k + 1] >= 0x80))) by {
            lemma_pair_end(utf8, k);
        }
    }
}

/// Whether the end of a pair after valid pairs is a boundary, from the bytes of the pair.
proof fn lemma_pair_end(utf8: Seq<u8>, k: int)
    requires
        valid_utf8(utf8),
        utf8.len() % 2 == 0,
        0 <= 2 * k < utf8.len(),
        hex_pairs_valid(utf8, k),
    ensures
        !is_char_boundary(utf8, 2 * k + 2) <==> (utf8[2 * k] >= 0xe0 || (utf8[2 * k] < 0x80 && utf8[2
            * k + 1] >= 0x80)),
{
    let at = 2 * k;
    assert forall|j: int| 0 <= j < at implies #[trigger] utf8[j] < 0x80 by {
        let i = j / 2;
        assert(hex_pair(utf8[2 * i], utf8[2 * i + 1]) is Some);
        assert(j == 2 * i || j == 2 * i + 1);
    }
    lemma_behind_ascii(utf8, at);
    let w = utf8.skip(at);
    assert(w[0] == utf8[at] && w[1] == utf8[at + 1]);
    assert(valid_first_scalar(w));
    if at + 2 < utf8.len() {
        assert(w[2] == utf8[at + 2]);
        is_char_boundary_iff_not_is_continuation_byte(utf8, at + 2);
    } else {
        is_char_boundary_start_end_of_seq(utf8);
    }
    if w[0] < 0x80 {
        let v = pop_first_scalar(w);
        assert(v =~= w.skip(1));
        assert(v[0] == w[1]);
        assert(valid_utf8(v));
        assert(valid_first_scalar(v));
        if v.len() > 1 {
            assert(v[1] == w[2]);
        }
        if w[1] < 0x80 && v.len() > 1 {
            let u = pop_first_scalar(v);
            assert(u =~= v.skip(1));
            assert(u[0] == w[2]);
            assert(valid_utf8(u));
            assert(valid_first_scalar(u));
        }
    } else if w[0] < 0xe0 && w.len() > 2 {
        let u = pop_first_scalar(w);
        assert(u =~= w.skip(2));
        assert(u[0] == w[2]);
        assert(valid_utf8(u));
        assert(valid_first_scalar(u));
    }
}

} // verus!
