//! Forwarding a message body.
//!
//! A body is forwarded byte for byte while its framing is followed: up to the end of the
//! connection, by its length, or chunk by chunk. [`BodyPipe`] decides, over the bytes that have
//! been received and not yet forwarded, what is to be done next; the caller reads and writes.

use vstd::prelude::*;
use vstd::string::*;
use vstd::utf8::*;

use crate::header_util;
use crate::header_util::find_bytes;
use crate::text;
use crate::text::{from_utf8, push_bytes, read_unsigned, split_once, trim_str};

verus! {

/// Most bytes that are held at a time while the end of a line is awaited.
pub const WINDOW: usize = 16384;

/// What part of a body comes next.
#[derive(Clone, Copy, PartialEq, Eq, Structural)]
pub enum Stage {
    /// Everything up to the end of the connection.
    UntilClose,
    /// This many bytes of a body of known length.
    Counted(usize),
    /// The size line of a chunk.
    SizeLine,
    /// This many bytes of a chunk and its line end.
    Chunk(usize),
    /// The trailer section.
    Trailer,
    /// Nothing: the body is forwarded.
    Finished,
    /// Nothing: the body cannot be forwarded; `true` where it is too large.
    Broken(bool),
}

/// What the caller is to do next.
#[derive(Clone, Copy, PartialEq, Eq, Structural)]
pub enum PipeAction {
    /// Write that many of the pending bytes, then call [`BodyPipe::wrote`].
    Write(usize),
    /// Read at most that many bytes, then call [`BodyPipe::received`].
    Read(usize),
    /// The body is forwarded.
    Done,
    /// Give up; `true` where the body is too large.
    Fail(bool),
}

/// The state of a body that is being forwarded.
pub struct BodyPipe {
    /// Bytes received and not yet forwarded.
    pub pending: Vec<u8>,
    pub stage: Stage,
    /// Sum of the chunk sizes seen so far.
    pub total: u64,
    pub max_body_size: u64,
    /// Copy of what was forwarded, for the response cache.
    pub cache_buf: Option<Vec<u8>>,
    pub cache_max_size: usize,
}

/// CR LF.
pub open spec fn crlf() -> Seq<u8> {
    "\r\n".spec_bytes()
}

/// An empty line behind a line end.
pub open spec fn blank_line() -> Seq<u8> {
    "\r\n\r\n".spec_bytes()
}

proof fn lemma_line_ends()
    ensures
        crlf() == seq![13u8, 10u8],
        blank_line() == seq![13u8, 10u8, 13u8, 10u8],
{
    reveal_strlit("\r\n");
    reveal_strlit("\r\n\r\n");
    assert("\r\n".is_ascii());
    assert("\r\n\r\n".is_ascii());
    assert(crlf() =~= seq![13u8, 10u8]);
    assert(blank_line() =~= seq![13u8, 10u8, 13u8, 10u8]);
}

/// The chunk size that a size line gives: hexadecimal digits before the first semicolon.
pub open spec fn chunk_size(line: Seq<u8>) -> Option<nat> {
    if valid_utf8(line) {
        let chars = decode_utf8(line);
        text::parse_unsigned(
            encode_utf8(text::trim(chars.take(text::find(chars, ';')))),
            16,
            usize::MAX as nat,
        )
    } else {
        None
    }
}

/// The stage behind a size line.
pub open spec fn after_size_line(size: nat, total: nat, max: nat) -> Stage {
    if size == 0 {
        Stage::Trailer
    } else if total + size > max {
        Stage::Broken(true)
    } else if size + 2 > usize::MAX {
        Stage::Broken(false)
    } else {
        Stage::Chunk((size + 2) as usize)
    }
}

/// The smaller of two numbers.
pub open spec fn min(a: int, b: int) -> int {
    if a <= b {
        a
    } else {
        b
    }
}

/// What is to be done over the pending bytes `p`.
#[verifier::opaque]
pub open spec fn action(stage: Stage, p: Seq<u8>) -> PipeAction {
    match stage {
        Stage::UntilClose => if p.len() > 0 {
            PipeAction::Write(p.len() as usize)
        } else {
            PipeAction::Read(WINDOW)
        },
        Stage::Counted(left) => if left == 0 {
            PipeAction::Done
        } else if p.len() > 0 {
            PipeAction::Write(min(p.len() as int, left as int) as usize)
        } else {
            PipeAction::Read(WINDOW)
        },
        Stage::SizeLine => match header_util::search(p, crlf(), 0) {
            Some(k) => if chunk_size(p.take(k)) is Some {
                PipeAction::Write((k + 2) as usize)
            } else {
                PipeAction::Fail(false)
            },
            None => if p.len() >= WINDOW {
                PipeAction::Fail(false)
            } else {
                PipeAction::Read((WINDOW - p.len()) as usize)
            },
        },
        Stage::Chunk(left) => if p.len() > 0 {
            PipeAction::Write(min(p.len() as int, left as int) as usize)
        } else {
            PipeAction::Read(WINDOW)
        },
        Stage::Trailer => if p.len() >= 2 && p.take(2) == crlf() {
            PipeAction::Write(2)
        } else {
            match header_util::search(p, blank_line(), 0) {
                Some(k) => PipeAction::Write((k + 4) as usize),
                None => if p.len() >= WINDOW {
                    PipeAction::Fail(false)
                } else {
                    PipeAction::Read((WINDOW - p.len()) as usize)
                },
            }
        },
        Stage::Finished => PipeAction::Done,
        Stage::Broken(large) => PipeAction::Fail(large),
    }
}

/// The stage after `n` of the pending bytes `p` were written.
pub open spec fn stage_after(stage: Stage, p: Seq<u8>, n: int, total: nat, max: nat) -> Stage {
    match stage {
        Stage::Counted(left) => Stage::Counted((left - n) as usize),
        Stage::SizeLine => after_size_line(chunk_size(p.take(n - 2))->0, total, max),
        Stage::Chunk(left) => if left == n {
            Stage::SizeLine
        } else {
            Stage::Chunk((left - n) as usize)
        },
        Stage::Trailer => Stage::Finished,
        _ => stage,
    }
}

/// The sum of the chunk sizes after `n` of the pending bytes `p` were written.
pub open spec fn total_after(stage: Stage, p: Seq<u8>, n: int, total: nat, max: nat) -> nat {
    match stage {
        Stage::SizeLine => if total + chunk_size(p.take(n - 2))->0 <= max {
            total + chunk_size(p.take(n - 2))->0
        } else {
            total
        },
        _ => total,
    }
}

/// The cache copy after `sent` was forwarded: it grows by it, or is given up where it would
/// exceed its limit.
pub open spec fn cache_after(cache: Option<Seq<u8>>, sent: Seq<u8>, limit: nat) -> Option<Seq<u8>> {
    match cache {
        Some(c) if c.len() + sent.len() <= limit => Some(c + sent),
        _ => None,
    }
}

/// What an optional byte vector holds.
pub open spec fn opt_bytes(v: Option<Vec<u8>>) -> Option<Seq<u8>> {
    match v {
        Some(b) => Some(b@),
        None => None,
    }
}

/// Extends the cache copy by what is about to be forwarded, or gives it up.
pub fn extend_cache(cache: &mut Option<Vec<u8>>, sent: &[u8], limit: usize)
    ensures
        opt_bytes(*final(cache)) == cache_after(opt_bytes(*old(cache)), sent@, limit as nat),
{
    let n: usize = sent.len();
    match cache.take() {
        Some(mut c) => {
            if c.len() <= limit && n <= limit - c.len() {
                push_bytes(&mut c, sent);
                *cache = Some(c);
            }
        },
        None => {},
    }
}

/// The chunk size that a size line gives.
fn read_chunk_size(line: &[u8]) -> (r: Option<usize>)
    ensures
        match r {
            Some(v) => chunk_size(line@) == Some(v as nat),
            None => chunk_size(line@) is None,
        },
{
    match from_utf8(line) {
        Some(s) => {
            proof {
                encode_utf8_decode_utf8(s@);
                encode_utf8_valid_utf8(s@);
                text::lemma_find(s@, ';');
                assert(s@.take(s@.len() as int) =~= s@);
            }
            let head = match split_once(s, ';') {
                Some((a, _)) => a,
                None => s,
            };
            match read_unsigned(trim_str(head).as_bytes(), 16, usize::MAX as u64) {
                Some(v) => Some(v as usize),
                None => None,
            }
        },
        None => None,
    }
}

impl BodyPipe {
    /// The sum of the chunk sizes seen stays within the limit.
    pub open spec fn wf(self) -> bool {
        &&& self.total <= self.max_body_size
        &&& self.stage matches Stage::Chunk(left) ==> left > 0
    }

    /// What the machine will do next.
    pub open spec fn todo(self) -> PipeAction {
        action(self.stage, self.pending@)
    }

    /// Starts to forward a body of which `pending` has been received. A declared length above
    /// `max_body_size` is refused before anything is forwarded.
    pub fn new(
        pending: Vec<u8>,
        is_chunked: bool,
        clen: usize,
        eof_body: bool,
        max_body_size: u64,
        cache_buf: Option<Vec<u8>>,
        cache_max_size: usize,
    ) -> (r: BodyPipe)
        ensures
            r.wf(),
            r.pending == pending,
            r.total == 0,
            r.max_body_size == max_body_size,
            r.cache_buf == cache_buf,
            r.cache_max_size == cache_max_size,
            r.stage == (if eof_body {
                Stage::UntilClose
            } else if is_chunked {
                Stage::SizeLine
            } else if clen > max_body_size {
                Stage::Broken(true)
            } else {
                Stage::Counted(clen)
            }),
    {
        let stage = if eof_body {
            Stage::UntilClose
        } else if is_chunked {
            Stage::SizeLine
        } else if clen as u64 > max_body_size {
            Stage::Broken(true)
        } else {
            Stage::Counted(clen)
        };
        BodyPipe { pending, stage, total: 0, max_body_size, cache_buf, cache_max_size }
    }

    /// What the caller is to do next.
    pub fn next(&self) -> (r: PipeAction)
        ensures
            r == self.todo(),
            r matches PipeAction::Write(n) ==> n <= self.pending@.len(),
            r matches PipeAction::Read(n) ==> 0 < n <= WINDOW,
            self.wf() ==> (r matches PipeAction::Write(n) ==> n > 0),
    {
        let n: usize = self.pending.len();
        proof {
            reveal(action);
            lemma_line_ends();
        }
        match self.stage {
            Stage::UntilClose => if n > 0 {
                PipeAction::Write(n)
            } else {
                PipeAction::Read(WINDOW)
            },
            Stage::Counted(left) => if left == 0 {
                PipeAction::Done
            } else if n > 0 {
                PipeAction::Write(if n <= left {
                    n
                } else {
                    left
                })
            } else {
                PipeAction::Read(WINDOW)
            },
            Stage::SizeLine => match find_bytes(self.pending.as_slice(), "\r\n".as_bytes()) {
                Some(k) => {
                    let line = &self.pending.as_slice()[0..k];
                    assert(line@ =~= self.pending@.take(k as int));
                    if read_chunk_size(line).is_some() {
                        PipeAction::Write(k + 2)
                    } else {
                        PipeAction::Fail(false)
                    }
                },
                None => if n >= WINDOW {
                    PipeAction::Fail(false)
                } else {
                    PipeAction::Read(WINDOW - n)
                },
            },
            Stage::Chunk(left) => if n > 0 {
                PipeAction::Write(if n <= left {
                    n
                } else {
                    left
                })
            } else {
                PipeAction::Read(WINDOW)
            },
            Stage::Trailer => {
                assert(n >= 2 ==> (self.pending@.take(2) =~= crlf() <==> self.pending@[0] == 13
                    && self.pending@[1] == 10));
                if n >= 2 && self.pending[0] == 13 && self.pending[1] == 10 {
                    return PipeAction::Write(2);
                }
                match find_bytes(self.pending.as_slice(), "\r\n\r\n".as_bytes()) {
                    Some(k) => PipeAction::Write(k + 4),
                    None => if n >= WINDOW {
                        PipeAction::Fail(false)
                    } else {
                        PipeAction::Read(WINDOW - n)
                    },
                }
            },
            Stage::Finished => PipeAction::Done,
            Stage::Broken(large) => PipeAction::Fail(large),
        }
    }

    /// The bytes that [`BodyPipe::next`] asked to be written have been written: they leave the
    /// pending ones and enter the cache copy.
    pub fn wrote(&mut self)
        requires
            old(self).wf(),
            old(self).todo() is Write,
        ensures
            final(self).wf(),
            ({
                let n = old(self).todo()->Write_0 as int;
                let p = old(self).pending@;
                &&& final(self).pending@ == p.skip(n)
                &&& final(self).stage == stage_after(
                    old(self).stage,
                    p,
                    n,
                    old(self).total as nat,
                    old(self).max_body_size as nat,
                )
                &&& final(self).total == total_after(
                    old(self).stage,
                    p,
                    n,
                    old(self).total as nat,
                    old(self).max_body_size as nat,
                )
                &&& opt_bytes(final(self).cache_buf) == cache_after(
                    opt_bytes(old(self).cache_buf),
                    p.take(n),
                    old(self).cache_max_size as nat,
                )
            }),
            final(self).max_body_size == old(self).max_body_size,
            final(self).cache_max_size == old(self).cache_max_size,
    {
        let n: usize = match self.next() {
            PipeAction::Write(n) => n,
            _ => 0,
        };
        let ghost p = self.pending@;
        proof {
            reveal(action);
            assert(p.len() == self.pending.len());
            lemma_line_ends();
            header_util::lemma_search(p, crlf(), 0);
            header_util::lemma_search(p, blank_line(), 0);
        }
        match self.stage {
            Stage::Counted(left) => {
                self.stage = Stage::Counted(left - n);
            },
            Stage::SizeLine => {
                let size: usize = {
                    let line = &self.pending.as_slice()[0..n - 2];
                    assert(line@ =~= p.take(n - 2));
                    match read_chunk_size(line) {
                        Some(v) => v,
                        None => 0,
                    }
                };
                if size == 0 {
                    self.stage = Stage::Trailer;
                } else {
                    let room: u64 = self.max_body_size - self.total;
                    if size as u64 > room {
                        self.stage = Stage::Broken(true);
                    } else {
                        self.total = self.total + size as u64;
                        match size.checked_add(2) {
                            Some(left) => {
                                self.stage = Stage::Chunk(left);
                            },
                            None => {
                                self.stage = Stage::Broken(false);
                            },
                        }
                    }
                }
            },
            Stage::Chunk(left) => {
                self.stage = if left == n {
                    Stage::SizeLine
                } else {
                    Stage::Chunk(left - n)
                };
            },
            Stage::Trailer => {
                self.stage = Stage::Finished;
            },
            _ => {},
        }
        let tail = self.pending.split_off(n);
        assert(self.pending@ =~= p.take(n as int));
        extend_cache(&mut self.cache_buf, self.pending.as_slice(), self.cache_max_size);
        self.pending = tail;
        assert(self.pending@ =~= p.skip(n as int));
    }

    /// The bytes that [`BodyPipe::next`] asked for have been read. None at all means that the
    /// other side has closed: that ends a body that lasts until then, and breaks any other.
    pub fn received(&mut self, bytes: &[u8])
        requires
            old(self).wf(),
            old(self).todo() is Read,
        ensures
            final(self).wf(),
            final(self).pending@ == old(self).pending@ + bytes@,
            final(self).stage == (if bytes@.len() > 0 {
                old(self).stage
            } else if old(self).stage is UntilClose {
                Stage::Finished
            } else {
                Stage::Broken(false)
            }),
            final(self).total == old(self).total,
            final(self).max_body_size == old(self).max_body_size,
            final(self).cache_buf == old(self).cache_buf,
            final(self).cache_max_size == old(self).cache_max_size,
    {
        if bytes.len() == 0 {
            assert(self.pending@ + bytes@ =~= self.pending@);
            self.stage = match self.stage {
                Stage::UntilClose => Stage::Finished,
                _ => Stage::Broken(false),
            };
        } else {
            push_bytes(&mut self.pending, bytes);
        }
    }
}

// ---------------------------------------------------------------------------
// What the machine guarantees
// ---------------------------------------------------------------------------

/// A number of bytes more, where there is a number at all.
pub open spec fn plus(n: int, r: Option<int>) -> Option<int> {
    match r {
        Some(m) => Some(n + m),
        None => None,
    }
}

/// How many bytes of the stream `s` belong to the body, from the given stage on; `None` where the
/// stream is malformed, too large or ends too early. A size line and a trailer section have to end
/// within the first [`WINDOW`] bytes.
#[verifier::opaque]
pub open spec fn body_len(stage: Stage, total: nat, max: nat, s: Seq<u8>) -> Option<int>
    decreases s.len(), (if stage is Chunk { 1int } else { 0int }),
    via body_len_decreases
{
    match stage {
        Stage::UntilClose => Some(s.len() as int),
        Stage::Counted(left) => if s.len() >= left {
            Some(left as int)
        } else {
            None
        },
        Stage::SizeLine => match header_util::search(s, crlf(), 0) {
            Some(k) => if k + 2 <= WINDOW && chunk_size(s.take(k)) is Some {
                plus(
                    k + 2,
                    body_len(
                        stage_after(stage, s, k + 2, total, max),
                        total_after(stage, s, k + 2, total, max),
                        max,
                        s.skip(k + 2),
                    ),
                )
            } else {
                None
            },
            None => None,
        },
        Stage::Chunk(left) => if s.len() >= left {
            plus(left as int, body_len(Stage::SizeLine, total, max, s.skip(left as int)))
        } else {
            None
        },
        Stage::Trailer => if s.len() >= 2 && s.take(2) == crlf() {
            Some(2)
        } else {
            match header_util::search(s, blank_line(), 0) {
                Some(k) => if k + 4 <= WINDOW {
                    Some(k + 4)
                } else {
                    None
                },
                None => None,
            }
        },
        Stage::Finished => Some(0),
        Stage::Broken(_) => None,
    }
}

#[via_fn]
proof fn body_len_decreases(stage: Stage, total: nat, max: nat, s: Seq<u8>) {
    lemma_line_ends();
    header_util::lemma_search(s, crlf(), 0);
}

/// A search in a longer text finds what the search in its beginning found, and otherwise only
/// what reaches beyond that beginning.
proof fn lemma_search_longer(p: Seq<u8>, f: Seq<u8>, n: Seq<u8>)
    ensures
        match header_util::search(p, n, 0) {
            Some(k) => header_util::search(p + f, n, 0) == Some(k),
            None => header_util::search(p + f, n, 0) matches Some(k) ==> k + n.len() > p.len(),
        },
{
    let w = p + f;
    header_util::lemma_search(p, n, 0);
    header_util::lemma_search(w, n, 0);
    assert forall|j: int| 0 <= j <= p.len() - n.len() implies #[trigger] w.subrange(j, j + n.len())
        == p.subrange(j, j + n.len()) by {
        assert(w.subrange(j, j + n.len()) =~= p.subrange(j, j + n.len()));
    }
    match header_util::search(p, n, 0) {
        Some(k) => {
            assert(w.subrange(k, k + n.len()) == n);
            match header_util::search(w, n, 0) {
                Some(m) => {
                    if m < k {
                        assert(p.subrange(m, m + n.len()) != n);
                        assert(w.subrange(m, m + n.len()) == p.subrange(m, m + n.len()));
                    }
                },
                None => {},
            }
        },
        None => {
            if let Some(m) = header_util::search(w, n, 0) {
                if m + n.len() <= p.len() {
                    assert(p.subrange(m, m + n.len()) != n);
                    assert(w.subrange(m, m + n.len()) == p.subrange(m, m + n.len()));
                }
            }
        },
    }
}

/// What one step over the pending bytes `p` means for the body, whatever is still to come.
pub open spec fn step_keeps_framing(
    stage: Stage,
    total: nat,
    max: nat,
    p: Seq<u8>,
    future: Seq<u8>,
) -> bool {
    match action(stage, p) {
        PipeAction::Write(n) => {
            &&& 0 < n <= p.len()
            &&& body_len(stage, total, max, p + future) == plus(
                n as int,
                body_len(
                    stage_after(stage, p, n as int, total, max),
                    total_after(stage, p, n as int, total, max),
                    max,
                    p.skip(n as int) + future,
                ),
            )
            &&& stage_after(stage, p, n as int, total, max) matches Stage::Chunk(left) ==> left > 0
        },
        PipeAction::Read(n) => {
            &&& 0 < n <= WINDOW - p.len()
            &&& body_len(stage, total, max, p) == (if stage is UntilClose {
                Some(0int)
            } else {
                None
            })
        },
        PipeAction::Done => body_len(stage, total, max, p + future) == Some(0int),
        PipeAction::Fail(_) => body_len(stage, total, max, p + future) is None,
    }
}

proof fn lemma_step_unframed(stage: Stage, total: nat, max: nat, p: Seq<u8>, future: Seq<u8>)
    requires
        p.len() <= WINDOW,
        stage is UntilClose || stage is Counted || stage is Finished || stage is Broken,
    ensures
        step_keeps_framing(stage, total, max, p, future),
{
    reveal(action);
    reveal_with_fuel(body_len, 1);
    match stage {
        Stage::UntilClose => {
            assert(p.skip(p.len() as int) + future =~= future);
        },
        _ => {},
    }
}

proof fn lemma_step_size_line(total: nat, max: nat, p: Seq<u8>, future: Seq<u8>)
    requires
        p.len() <= WINDOW,
    ensures
        step_keeps_framing(Stage::SizeLine, total, max, p, future),
{
    reveal(action);
    reveal_with_fuel(body_len, 1);
    let s = p + future;
    lemma_line_ends();
    lemma_search_longer(p, future, crlf());
    header_util::lemma_search(p, crlf(), 0);
    if let Some(k) = header_util::search(p, crlf(), 0) {
        assert(s.take(k) =~= p.take(k));
        assert(k + 2 - 2 == k);
        assert(s.skip(k + 2) =~= p.skip(k + 2) + future);
        assert(stage_after(Stage::SizeLine, s, k + 2, total, max) == stage_after(
            Stage::SizeLine,
            p,
            k + 2,
            total,
            max,
        ));
    }
}

proof fn lemma_step_chunk(left: usize, total: nat, max: nat, p: Seq<u8>, future: Seq<u8>)
    requires
        p.len() <= WINDOW,
        left > 0,
    ensures
        step_keeps_framing(Stage::Chunk(left), total, max, p, future),
{
    reveal(action);
    let s = p + future;
    if p.len() > 0 {
        let n = min(p.len() as int, left as int);
        let rest = p.skip(n) + future;
        reveal_with_fuel(body_len, 1);
        assert(body_len(Stage::Chunk(left), total, max, s) == (if s.len() >= left {
            plus(left as int, body_len(Stage::SizeLine, total, max, s.skip(left as int)))
        } else {
            None
        }));
        if n < left {
            assert(rest =~= future);
            assert(body_len(Stage::Chunk((left - n) as usize), total, max, rest) == (if rest.len()
                >= left - n {
                plus(left - n, body_len(Stage::SizeLine, total, max, rest.skip(left - n)))
            } else {
                None
            }));
            if s.len() >= left {
                assert(s.skip(left as int) =~= future.skip(left - n));
            }
        } else {
            assert(s.skip(left as int) =~= rest);
        }
    } else {
        reveal_with_fuel(body_len, 1);
    }
}

proof fn lemma_step_trailer(total: nat, max: nat, p: Seq<u8>, future: Seq<u8>)
    requires
        p.len() <= WINDOW,
    ensures
        step_keeps_framing(Stage::Trailer, total, max, p, future),
{
    reveal(action);
    reveal_with_fuel(body_len, 1);
    let s = p + future;
    lemma_line_ends();
    lemma_search_longer(p, future, blank_line());
    header_util::lemma_search(p, blank_line(), 0);
    if p.len() >= 2 {
        assert(s.take(2) =~= p.take(2));
    }
}

/// One step keeps to the framing, whatever is still to come: bytes are written only where they
/// belong to the body, the machine is done exactly where the body ends, it fails only where the
/// stream has no body of the announced kind, and a stream that ends while it waits has none
/// either, unless the body lasts until the close.
pub proof fn law_pipe_step(stage: Stage, total: nat, max: nat, p: Seq<u8>, future: Seq<u8>)
    requires
        p.len() <= WINDOW,
        stage matches Stage::Chunk(left) ==> left > 0,
    ensures
        step_keeps_framing(stage, total, max, p, future),
{
    match stage {
        Stage::SizeLine => lemma_step_size_line(total, max, p, future),
        Stage::Chunk(left) => lemma_step_chunk(left, total, max, p, future),
        Stage::Trailer => lemma_step_trailer(total, max, p, future),
        _ => lemma_step_unframed(stage, total, max, p, future),
    }
}

/// How many bytes the next read brings: what the network decides, but at least one and at most
/// what was asked for and is there.
pub open spec fn read_size(cuts: Seq<nat>, asked: nat, there: nat) -> nat
    recommends
        asked > 0,
        there > 0,
{
    let most = min(asked as int, there as int) as nat;
    if cuts.len() == 0 || cuts[0] == 0 || cuts[0] > most {
        most
    } else {
        cuts[0]
    }
}

/// What a whole run forwards: `p` is pending, `future` still to come, and `cuts` says how the
/// network cuts it into reads. `None` where the run fails.
pub open spec fn drive(
    stage: Stage,
    total: nat,
    max: nat,
    p: Seq<u8>,
    future: Seq<u8>,
    cuts: Seq<nat>,
) -> Option<Seq<u8>>
    decreases p.len() + 2 * future.len(),
{
    match action(stage, p) {
        PipeAction::Done => Some(seq![]),
        PipeAction::Fail(_) => None,
        PipeAction::Write(n) => if 0 < n <= p.len() {
            match drive(
                stage_after(stage, p, n as int, total, max),
                total_after(stage, p, n as int, total, max),
                max,
                p.skip(n as int),
                future,
                cuts,
            ) {
                Some(rest) => Some(p.take(n as int) + rest),
                None => None,
            }
        } else {
            None
        },
        PipeAction::Read(m) => if future.len() == 0 || m == 0 {
            if stage is UntilClose {
                Some(seq![])
            } else {
                None
            }
        } else {
            let r = read_size(cuts, m as nat, future.len());
            drive(
                stage,
                total,
                max,
                p + future.take(r as int),
                future.skip(r as int),
                if cuts.len() == 0 {
                    cuts
                } else {
                    cuts.drop_first()
                },
            )
        },
    }
}

/// However the network cuts the stream into reads, a run forwards exactly the bytes of the body:
/// all of them, in order, and none of what follows. It fails exactly where the stream has no body
/// of the announced kind.
pub proof fn law_pipe_forwards_the_body(
    stage: Stage,
    total: nat,
    max: nat,
    p: Seq<u8>,
    future: Seq<u8>,
    cuts: Seq<nat>,
)
    requires
        p.len() <= WINDOW,
        stage matches Stage::Chunk(left) ==> left > 0,
    ensures
        drive(stage, total, max, p, future, cuts) == (match body_len(stage, total, max, p + future) {
            Some(n) => Some((p + future).take(n)),
            None => None,
        }),
    decreases p.len() + 2 * future.len(),
{
    law_pipe_step(stage, total, max, p, future);
    let s = p + future;
    lemma_body_len_bound(stage, total, max, s);
    match action(stage, p) {
        PipeAction::Done => {
            assert(s.take(0) =~= Seq::<u8>::empty());
        },
        PipeAction::Fail(_) => {},
        PipeAction::Write(n) => {
            let st = stage_after(stage, p, n as int, total, max);
            let tt = total_after(stage, p, n as int, total, max);
            let rest = p.skip(n as int);
            law_pipe_forwards_the_body(st, tt, max, rest, future, cuts);
            lemma_body_len_bound(st, tt, max, rest + future);
            if let Some(m) = body_len(st, tt, max, rest + future) {
                assert(p.take(n as int) + (rest + future).take(m) =~= s.take(n + m));
            }
        },
        PipeAction::Read(m) => {
            if future.len() == 0 {
                assert(s =~= p);
                assert(s.take(0) =~= Seq::<u8>::empty());
            } else {
                let r = read_size(cuts, m as nat, future.len());
                let q = p + future.take(r as int);
                let f = future.skip(r as int);
                law_pipe_forwards_the_body(
                    stage,
                    total,
                    max,
                    q,
                    f,
                    if cuts.len() == 0 {
                        cuts
                    } else {
                        cuts.drop_first()
                    },
                );
                assert(q + f =~= s);
            }
        },
    }
}

/// A body is no longer than the stream it is in.
proof fn lemma_body_len_bound(stage: Stage, total: nat, max: nat, s: Seq<u8>)
    ensures
        body_len(stage, total, max, s) matches Some(n) ==> 0 <= n <= s.len(),
    decreases s.len(), (if stage is Chunk { 1int } else { 0int }),
{
    reveal_with_fuel(body_len, 1);
    lemma_line_ends();
    match stage {
        Stage::SizeLine => {
            header_util::lemma_search(s, crlf(), 0);
            if let Some(k) = header_util::search(s, crlf(), 0) {
                lemma_body_len_bound(
                    stage_after(stage, s, k + 2, total, max),
                    total_after(stage, s, k + 2, total, max),
                    max,
                    s.skip(k + 2),
                );
            }
        },
        Stage::Chunk(left) => {
            if s.len() >= left {
                lemma_body_len_bound(Stage::SizeLine, total, max, s.skip(left as int));
            }
        },
        Stage::Trailer => {
            header_util::lemma_search(s, blank_line(), 0);
        },
        _ => {},
    }
}

/// The cache copy after two writes is what it would be after one write of both: it holds all that
/// was forwarded, or nothing.
pub proof fn law_cache_copy_is_cumulative(
    cache: Option<Seq<u8>>,
    a: Seq<u8>,
    b: Seq<u8>,
    limit: nat,
)
    ensures
        cache_after(cache_after(cache, a, limit), b, limit) == cache_after(cache, a + b, limit),
{
    if let Some(c) = cache {
        assert(c + (a + b) =~= c + a + b);
    }
}

} // verus!
