//! Passphrases from a file or a prompt.

use crate::bytes::same_bytes;
use crate::error::{outcome, CryError, ErrorView};
use vstd::prelude::*;
use vstd::slice::slice_subrange;
use vstd::utf8::{encode_utf8, encode_utf8_decode_utf8};

verus! {

/// The line feed that ends a line.
pub open spec fn line_feed() -> u8 {
    0x0a
}

/// The carriage return that may precede a line feed.
pub open spec fn carriage_return() -> u8 {
    0x0d
}

/// The index of the first line feed, or the length.
pub open spec fn line_end(utf8: Seq<u8>) -> nat
    decreases utf8.len(),
{
    if utf8.len() == 0 || utf8[0] == line_feed() {
        0
    } else {
        1 + line_end(utf8.skip(1))
    }
}

/// The first line of a text in UTF-8, without its line ending, which is a line feed that a
/// carriage return may precede.
pub open spec fn first_line(utf8: Seq<u8>) -> Seq<u8> {
    let end = line_end(utf8) as int;
    if end < utf8.len() && end > 0 && utf8[end - 1] == carriage_return() {
        utf8.take(end - 1)
    } else {
        utf8.take(end)
    }
}

/// The passphrase in a file: its first line.
pub open spec fn file_passphrase(contents: Seq<char>) -> Result<Seq<u8>, ErrorView> {
    let line = first_line(encode_utf8(contents));
    if line.len() == 0 {
        Err(ErrorView::EmptyPassphrase)
    } else {
        Ok(line)
    }
}

/// The passphrase that was entered, and again where a confirmation was asked for.
pub open spec fn entered_passphrase(pass: Seq<char>, again: Option<Seq<char>>) -> Result<
    Seq<u8>,
    ErrorView,
> {
    if pass.len() == 0 {
        Err(ErrorView::EmptyPassphrase)
    } else if again is Some && again != Some(pass) {
        Err(ErrorView::PassphraseMismatch)
    } else {
        Ok(encode_utf8(pass))
    }
}

/// The bytes of a slice in a vector of their own.
fn copy_of(s: &[u8]) -> (r: Vec<u8>)
    ensures
        r@ == s@,
{
    let mut r: Vec<u8> = Vec::with_capacity(s.len());
    r.extend_from_slice(s);
    assert(r@ =~= s@);
    r
}

/// Takes the passphrase from the contents of a file.
pub fn passphrase_from_file(contents: &str) -> (r: Result<Vec<u8>, CryError>)
    ensures
        outcome(r) == file_passphrase(contents@),
{
    let utf8: &[u8] = contents.as_bytes();
    let len: usize = utf8.len();
    let mut stop: usize = 0;
    assert(utf8@.skip(0) =~= utf8@);
    while stop < len && utf8[stop] != 0x0a
        invariant
            len == utf8@.len(),
            stop <= len,
            line_end(utf8@) == stop + line_end(utf8@.skip(stop as int)),
        decreases len - stop,
    {
        assert(utf8@.skip(stop as int).skip(1) =~= utf8@.skip(stop + 1));
        stop = stop + 1;
    }
    let end: usize = if stop < len && stop > 0 && utf8[stop - 1] == 0x0d {
        stop - 1
    } else {
        stop
    };
    if end == 0 {
        return Err(CryError::EmptyPassphrase);
    }
    let line: &[u8] = slice_subrange(utf8, 0, end);
    assert(line@ =~= first_line(utf8@));
    Ok(copy_of(line))
}

/// Refuses an empty passphrase.
pub fn check_passphrase(pass: &str) -> (r: Result<(), CryError>)
    ensures
        r is Ok <==> pass@.len() > 0,
        r matches Err(e) ==> e@ == ErrorView::EmptyPassphrase,
{
    if pass.unicode_len() == 0 {
        Err(CryError::EmptyPassphrase)
    } else {
        Ok(())
    }
}

/// Takes the passphrase from what was entered at a prompt, and again where a confirmation was
/// asked for.
pub fn passphrase_from_prompt(pass: &str, again: Option<&str>) -> (r: Result<Vec<u8>, CryError>)
    ensures
        outcome(r) == entered_passphrase(
            pass@,
            match again {
                Some(s) => Some(s@),
                None => None,
            },
        ),
{
    match check_passphrase(pass) {
        Ok(()) => {
        },
        Err(e) => {
            return Err(e);
        },
    }
    if let Some(second) = again {
        proof {
            encode_utf8_decode_utf8(pass@);
            encode_utf8_decode_utf8(second@);
        }
        if !same_bytes(pass.as_bytes(), second.as_bytes()) {
            return Err(CryError::PassphraseMismatch);
        }
    }
    Ok(copy_of(pass.as_bytes()))
}

/// No passphrase is ever empty, wherever it comes from.
pub proof fn law_passphrase_not_empty(text: Seq<char>, again: Option<Seq<char>>)
    ensures
        file_passphrase(text) matches Ok(p) ==> p.len() > 0,
        entered_passphrase(text, again) matches Ok(p) ==> p.len() > 0,
{
    encode_utf8_decode_utf8(text);
    encode_utf8_decode_utf8(Seq::empty());
    if encode_utf8(text).len() == 0 {
        assert(encode_utf8(text) =~= encode_utf8(Seq::empty()));
    }
}

/// The first line ends before the first line feed, and before one carriage return in front of
/// it; without a line feed it is the whole text. What follows it does not matter.
pub proof fn law_first_line_only(line: Seq<u8>, rest: Seq<u8>)
    requires
        !line.contains(0x0a),
    ensures
        first_line(line) == line,
        (line.len() > 0 ==> line.last() != 0x0d) ==> first_line(line + seq![0x0au8] + rest) == line,
        first_line(line + seq![0x0du8, 0x0a] + rest) == line,
{
    let tail = seq![0x0au8] + rest;
    let returned = line.push(0x0d);
    let text = line + seq![0x0du8, 0x0a] + rest;
    assert(!returned.contains(0x0a)) by {
        if returned.contains(0x0a) {
            let i = choose|i: int| 0 <= i < returned.len() && returned[i] == 0x0a;
            assert(line[i] == 0x0a);
        }
    }
    lemma_line_end(line, Seq::empty());
    lemma_line_end(line, tail);
    lemma_line_end(returned, tail);
    assert(line + Seq::empty() =~= line);
    assert(line.take(line.len() as int) =~= line);
    assert(line + tail =~= line + seq![0x0au8] + rest);
    assert(returned + tail =~= text);
    assert((line + tail).take(line.len() as int) =~= line);
    assert(text.take(line.len() as int) =~= line);
}

/// The passphrase in a file is its first line, byte for byte, and one that was entered is the
/// whole text; each is refused only where it is empty, or where the confirmation differs.
pub proof fn law_passphrase_as_given(
    contents: Seq<char>,
    line: Seq<u8>,
    rest: Seq<u8>,
    pass: Seq<char>,
    again: Seq<char>,
)
    requires
        !line.contains(0x0a),
        encode_utf8(contents) == line || encode_utf8(contents) == line + seq![0x0du8, 0x0a] + rest
            || (encode_utf8(contents) == line + seq![0x0au8] + rest && (line.len() > 0
            ==> line.last() != 0x0d)),
    ensures
        line.len() > 0 ==> file_passphrase(contents) == Ok::<Seq<u8>, ErrorView>(line),
        line.len() == 0 ==> file_passphrase(contents) == Err::<Seq<u8>, ErrorView>(
            ErrorView::EmptyPassphrase,
        ),
        pass.len() > 0 ==> entered_passphrase(pass, None) == Ok::<Seq<u8>, ErrorView>(
            encode_utf8(pass),
        ),
        pass.len() > 0 ==> entered_passphrase(pass, Some(pass)) == Ok::<Seq<u8>, ErrorView>(
            encode_utf8(pass),
        ),
        pass.len() > 0 && again != pass ==> entered_passphrase(pass, Some(again)) == Err::<
            Seq<u8>,
            ErrorView,
        >(ErrorView::PassphraseMismatch),
        entered_passphrase(Seq::empty(), Some(again)) == Err::<Seq<u8>, ErrorView>(
            ErrorView::EmptyPassphrase,
        ),
        entered_passphrase(Seq::empty(), None) == Err::<Seq<u8>, ErrorView>(
            ErrorView::EmptyPassphrase,
        ),
{
    law_first_line_only(line, rest);
}

/// The first line feed comes after a part that holds none.
proof fn lemma_line_end(line: Seq<u8>, rest: Seq<u8>)
    requires
        !line.contains(line_feed()),
        rest.len() == 0 || rest[0] == line_feed(),
    ensures
        line_end(line + rest) == line.len(),
    decreases line.len(),
{
    if line.len() > 0 {
        let tail = line.skip(1);
        assert(line.contains(line[0]));
        assert(!tail.contains(line_feed())) by {
            if tail.contains(line_feed()) {
                let i = choose|i: int| 0 <= i < tail.len() && tail[i] == line_feed();
                assert(line[i + 1] == line_feed());
            }
        }
        lemma_line_end(tail, rest);
        assert((line + rest).skip(1) =~= tail + rest);
    }
}

} // verus!
