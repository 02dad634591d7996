//! Where the body of a message ends.

use vstd::prelude::*;
use vstd::utf8::*;

use crate::header_util;
use crate::pipe;
use crate::pipe::{PipeAction, Stage};
use crate::text;

verus! {

proof fn lemma_line_ends()
    ensures
        pipe::crlf() == seq![13u8, 10],
        pipe::blank_line() == seq![13u8, 10, 13, 10],
{
    reveal_strlit("\r\n");
    reveal_strlit("\r\n\r\n");
    assert("\r\n".is_ascii());
    assert("\r\n\r\n".is_ascii());
    assert(pipe::crlf() =~= seq![13u8, 10]);
    assert(pipe::blank_line() =~= seq![13u8, 10, 13, 10]);
}

/// The size of a chunk is the hexadecimal number at the beginning of its line; what follows a `;` is
/// of no account.
pub proof fn law_chunk_size_is_hexadecimal(digits: Seq<char>, extension: Seq<char>)
    requires
        digits.len() > 0,
        forall|i: int| 0 <= i < digits.len() ==> is_hex(#[trigger] digits[i]),
    ensures
        pipe::chunk_size(encode_utf8(digits)) == text::parse_unsigned(
            encode_utf8(digits),
            16,
            usize::MAX as nat,
        ),
        pipe::chunk_size(encode_utf8(digits + seq![';'] + extension)) == text::parse_unsigned(
            encode_utf8(digits),
            16,
            usize::MAX as nat,
        ),
{
    let n = digits.len() as int;
    let longer = digits + seq![';'] + extension;
    encode_utf8_valid_utf8(digits);
    encode_utf8_decode_utf8(digits);
    encode_utf8_valid_utf8(longer);
    encode_utf8_decode_utf8(longer);
    assert forall|i: int| 0 <= i < n implies digits[i] != ';' && longer[i] != ';' by {
        assert(is_hex(digits[i]));
        assert(longer[i] == digits[i]);
    }
    text::lemma_find_is(digits, ';', n);
    text::lemma_find_is(longer, ';', n);
    assert(digits.take(n) =~= digits);
    assert(longer.take(n) =~= digits);
    assert(is_hex(digits[0]));
    assert(is_hex(digits[n - 1]));
    assert(text::trim_start(digits) == digits);
    assert(text::trim_end(digits) == digits);
}

/// The hexadecimal digits, in either case.
pub open spec fn is_hex(c: char) -> bool {
    '0' <= c <= '9' || 'a' <= c <= 'f' || 'A' <= c <= 'F'
}

proof fn lemma_line_end(line: Seq<u8>, rest: Seq<u8>)
    requires
        !line.contains(13),
    ensures
        header_util::search(line + seq![13u8, 10] + rest, seq![13u8, 10], 0) == Some(
            line.len() as int,
        ),
{
    let s = line + seq![13u8, 10] + rest;
    assert forall|j: int| 0 <= j < line.len() implies #[trigger] s[j] != 13 by {
        assert(s[j] == line[j]);
        assert(line.contains(line[j]));
    }
    lemma_line_end_from(s, 0, line.len() as int);
}

proof fn lemma_line_end_from(s: Seq<u8>, i: int, n: int)
    requires
        0 <= i <= n,
        n + 2 <= s.len(),
        forall|j: int| i <= j < n ==> #[trigger] s[j] != 13,
        s[n] == 13,
        s[n + 1] == 10,
    ensures
        header_util::search(s, seq![13u8, 10], i) == Some(n),
    decreases n - i,
{
    let end = seq![13u8, 10];
    if i < n {
        assert(s[i] != 13);
        assert(s.subrange(i, i + 2)[0] == s[i]);
        assert(s.subrange(i, i + end.len()) != end);
        lemma_line_end_from(s, i + 1, n);
    } else {
        assert(s.subrange(i, i + end.len()) =~= end);
    }
}

proof fn lemma_size_line(line: Seq<u8>, tail: Seq<u8>, size: nat, total: nat, max: nat)
    requires
        !line.contains(13),
        line.len() + 2 <= pipe::WINDOW,
        pipe::chunk_size(line) == Some(size),
    ensures
        pipe::body_len(Stage::SizeLine, total, max, line + seq![13u8, 10] + tail) == pipe::plus(
            line.len() as int + 2,
            pipe::body_len(
                pipe::after_size_line(size, total, max),
                if total + size <= max {
                    total + size
                } else {
                    total
                },
                max,
                tail,
            ),
        ),
{
    lemma_line_ends();
    let s = line + seq![13u8, 10] + tail;
    let n = line.len() as int;
    lemma_line_end(line, tail);
    assert(s.take(n) =~= line);
    assert(s.skip(n + 2) =~= tail);
    assert(n + 2 - 2 == n);
    reveal_with_fuel(pipe::body_len, 1);
}

proof fn lemma_chunk(left: usize, tail: Seq<u8>, total: nat, max: nat)
    requires
        tail.len() >= left,
    ensures
        pipe::body_len(Stage::Chunk(left), total, max, tail) == pipe::plus(
            left as int,
            pipe::body_len(Stage::SizeLine, total, max, tail.skip(left as int)),
        ),
{
    reveal_with_fuel(pipe::body_len, 1);
}

proof fn lemma_trailer(tail: Seq<u8>, total: nat, max: nat)
    requires
        tail.len() >= 2,
        tail[0] == 13,
        tail[1] == 10,
    ensures
        pipe::body_len(Stage::Trailer, total, max, tail) == Some(2int),
{
    lemma_line_ends();
    assert(tail.take(2) =~= pipe::crlf());
    reveal_with_fuel(pipe::body_len, 1);
}

/// A chunk is its size line, as many bytes as that says, and a line end; the body goes on behind it.
pub proof fn law_chunk_is_as_long_as_it_says(
    line: Seq<u8>,
    data: Seq<u8>,
    rest: Seq<u8>,
    total: nat,
    max: nat,
)
    requires
        !line.contains(13),
        line.len() + 2 <= pipe::WINDOW,
        pipe::chunk_size(line) == Some(data.len()),
        data.len() > 0,
        data.len() + 2 <= usize::MAX,
        total + data.len() <= max,
    ensures
        ({
            let chunk = line + seq![13u8, 10] + data + seq![13u8, 10];
            let behind = pipe::body_len(Stage::SizeLine, total + data.len(), max, rest);
            let all = pipe::body_len(Stage::SizeLine, total, max, chunk + rest);
            &&& behind is Some ==> all == Some(chunk.len() as int + behind->0)
            &&& behind is None ==> all is None
        }),
{
    let chunk = line + seq![13u8, 10] + data + seq![13u8, 10];
    let tail = data + seq![13u8, 10] + rest;
    assert(chunk + rest =~= line + seq![13u8, 10] + tail);
    lemma_size_line(line, tail, data.len(), total, max);
    let left = (data.len() + 2) as usize;
    assert(tail.skip(left as int) =~= rest);
    lemma_chunk(left, tail, total + data.len(), max);
}

/// A chunk of size 0 and a blank line end the body, whatever follows.
pub proof fn law_last_chunk_ends_the_body(line: Seq<u8>, rest: Seq<u8>, total: nat, max: nat)
    requires
        !line.contains(13),
        line.len() + 2 <= pipe::WINDOW,
        pipe::chunk_size(line) == Some(0nat),
    ensures
        pipe::body_len(
            Stage::SizeLine,
            total,
            max,
            line + seq![13u8, 10] + seq![13u8, 10] + rest,
        ) == Some(line.len() as int + 4),
{
    let tail = seq![13u8, 10] + rest;
    assert(line + seq![13u8, 10] + seq![13u8, 10] + rest =~= line + seq![13u8, 10] + tail);
    lemma_size_line(line, tail, 0, total, max);
    lemma_trailer(tail, total, max);
    lemma_trailer(tail, total + 0, max);
}

/// A chunk that takes the body beyond its limit breaks it, and so does one whose size is no number.
pub proof fn law_body_keeps_to_its_limit(line: Seq<u8>, rest: Seq<u8>, total: nat, max: nat)
    requires
        !line.contains(13),
        line.len() + 2 <= pipe::WINDOW,
    ensures
        pipe::chunk_size(line) matches Some(n) ==> (n > 0 && total + n > max ==> pipe::body_len(
            Stage::SizeLine,
            total,
            max,
            line + seq![13u8, 10] + rest,
        ) is None),
        pipe::chunk_size(line) is None ==> pipe::body_len(
            Stage::SizeLine,
            total,
            max,
            line + seq![13u8, 10] + rest,
        ) is None,
{
    lemma_line_ends();
    let s = line + seq![13u8, 10] + rest;
    lemma_line_end(line, rest);
    assert(s.take(line.len() as int) =~= line);
    match pipe::chunk_size(line) {
        Some(n) => {
            lemma_size_line(line, rest, n, total, max);
        },
        None => {},
    }
    reveal_with_fuel(pipe::body_len, 1);
}

/// A body of known length takes exactly that many bytes; one that ends with the connection takes all
/// that comes.
pub proof fn law_counted_body(left: usize, s: Seq<u8>, total: nat, max: nat)
    ensures
        s.len() >= left ==> pipe::body_len(Stage::Counted(left), total, max, s) == Some(left as int),
        s.len() < left ==> pipe::body_len(Stage::Counted(left), total, max, s) is None,
        pipe::body_len(Stage::UntilClose, total, max, s) == Some(s.len() as int),
{
    reveal_with_fuel(pipe::body_len, 1);
}

/// A copy for the cache grows by what is sent, and is given up once it would exceed its limit.
pub proof fn law_copy_is_given_up_beyond_its_limit(copy: Seq<u8>, sent: Seq<u8>, limit: nat)
    ensures
        copy.len() + sent.len() <= limit ==> pipe::cache_after(Some(copy), sent, limit) == Some(
            copy + sent,
        ),
        copy.len() + sent.len() > limit ==> pipe::cache_after(Some(copy), sent, limit) is None,
        pipe::cache_after(None, sent, limit) is None,
{
}

/// A chunk that would make the body larger than it may be is told as too large; a size line that is no
/// number, or is cut off, is told as broken. Nothing is read beyond what a buffer holds, and no read
/// asks for less than is free in it.
pub proof fn law_what_breaks_a_body(size: nat, total: nat, max: nat, stage: Stage, p: Seq<u8>)
    ensures
        size > 0 && total + size > max ==> pipe::after_size_line(size, total, max) == Stage::Broken(true),
        size > 0 && total + size <= max && size + 2 <= usize::MAX ==> pipe::after_size_line(
            size,
            total,
            max,
        ) == Stage::Chunk((size + 2) as usize),
        size == 0 ==> pipe::after_size_line(size, total, max) == Stage::Trailer,
        pipe::action(Stage::Broken(true), p) == PipeAction::Fail(true),
        pipe::action(Stage::Broken(false), p) == PipeAction::Fail(false),
        pipe::action(stage, p) == PipeAction::Fail(true) ==> stage == Stage::Broken(true),
        p.len() <= 16384 ==> (pipe::action(stage, p) matches PipeAction::Read(n) ==> p.len() + n
            == 16384),
        pipe::action(Stage::Finished, p) is Done,
        pipe::action(Stage::Counted(0), p) is Done,
{
    reveal(pipe::action);
}

} // verus!
