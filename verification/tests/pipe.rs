//! Passing a body on.

use rproxy::pipe::{BodyPipe, PipeAction};

/// A source that gives at most `max_per_read` bytes at a time.
struct SegReader {
    data: Vec<u8>,
    pos: usize,
    max_per_read: usize,
}

impl SegReader {
    fn new(data: &[u8], max_per_read: usize) -> Self {
        Self {
            data: data.to_vec(),
            pos: 0,
            max_per_read,
        }
    }

    fn read(&mut self, room: usize) -> Vec<u8> {
        let remaining = self.data.len() - self.pos;
        let amt = remaining.min(room).min(self.max_per_read.max(1));
        let out = self.data[self.pos..self.pos + amt].to_vec();
        self.pos += amt;
        out
    }
}

/// Passes a body on until it ends. Returns what is left behind it and the copy for the cache, or
/// whether the body is too large.
fn run(
    src: &mut SegReader,
    dst: &mut Vec<u8>,
    pending: &[u8],
    is_chunked: bool,
    clen: usize,
    eof_body: bool,
    max_body_size: u64,
    cache: Option<Vec<u8>>,
    cache_max_size: usize,
) -> Result<(Vec<u8>, Option<Vec<u8>>), bool> {
    let mut pipe = BodyPipe::new(
        pending.to_vec(),
        is_chunked,
        clen,
        eof_body,
        max_body_size,
        cache,
        cache_max_size,
    );
    loop {
        match pipe.next() {
            PipeAction::Write(n) => {
                dst.extend_from_slice(&pipe.pending[..n]);
                pipe.wrote();
            }
            PipeAction::Read(n) => {
                let bytes = src.read(n);
                pipe.received(&bytes);
            }
            PipeAction::Done => return Ok((pipe.pending, pipe.cache_buf)),
            PipeAction::Fail(too_large) => return Err(too_large),
        }
    }
}

#[test]
fn test_pipe_body_content_length_segmented_with_prebuffered_prefix() {
    let mut src = SegReader::new(b"llo world!", 3);
    let mut dst = Vec::new();
    let (rest, cache) = run(
        &mut src,
        &mut dst,
        b"he",
        false,
        12,
        false,
        u64::MAX,
        Some(Vec::new()),
        1_000_000,
    )
    .expect("must succeed");
    assert_eq!(rest.len(), 0, "no leftover expected");
    assert_eq!(dst, b"hello world!");
    assert_eq!(
        cache.unwrap(),
        b"hello world!",
        "cache must mirror what was forwarded"
    );
}

#[test]
fn test_pipe_body_content_length_retains_pipelined_leftover() {
    let mut src = SegReader::new(b"", 16);
    let mut dst = Vec::new();
    let (rest, _) = run(
        &mut src,
        &mut dst,
        b"hi!NEXT",
        false,
        3,
        false,
        u64::MAX,
        None,
        0,
    )
    .expect("must succeed without reading");
    assert_eq!(dst, b"hi!");
    assert_eq!(rest.len(), 4, "leftover pipelined bytes must be retained");
    assert_eq!(
        rest, b"NEXT",
        "leftover must be shifted to the front of the buffer"
    );
}

#[test]
fn test_pipe_body_chunked_segmented_with_trailer() {
    let encoded: &[u8] = b"3\r\nhel\r\n3\r\nlo \r\n0\r\nX-Trailer: v\r\n\r\n";
    let mut src = SegReader::new(encoded, 4);
    let mut dst = Vec::new();
    let (rest, cache) = run(
        &mut src,
        &mut dst,
        b"",
        true,
        0,
        false,
        u64::MAX,
        Some(Vec::new()),
        1_000_000,
    )
    .expect("must succeed");
    assert_eq!(rest.len(), 0);
    assert_eq!(
        dst, encoded,
        "chunked body must be forwarded byte-for-byte, including trailer"
    );
    assert_eq!(cache.unwrap(), encoded);
}

#[test]
fn test_pipe_body_chunked_retains_pipelined_leftover() {
    let mut src = SegReader::new(b"", 16);
    let mut dst = Vec::new();
    let (rest, _) = run(
        &mut src,
        &mut dst,
        b"3\r\nhel\r\n0\r\n\r\nNEXT",
        true,
        0,
        false,
        u64::MAX,
        None,
        0,
    )
    .expect("must succeed");
    assert_eq!(dst, b"3\r\nhel\r\n0\r\n\r\n");
    assert_eq!(rest.len(), 4);
    assert_eq!(rest, b"NEXT");
}

#[test]
fn test_pipe_body_eof_delimited_segmented() {
    let data = b"eof-delimited body split across many short reads";
    let mut src = SegReader::new(data, 5);
    let mut dst = Vec::new();
    let (rest, _) = run(&mut src, &mut dst, b"", false, 0, true, u64::MAX, None, 0)
        .expect("must succeed");
    assert_eq!(rest.len(), 0);
    assert_eq!(dst, data);
}

#[test]
fn test_pipe_body_content_length_over_max_body_size_rejected() {
    let mut src = SegReader::new(b"", 16);
    let mut dst = Vec::new();
    let err = run(&mut src, &mut dst, b"", false, 100, false, 50, None, 0);
    assert_eq!(
        err,
        Err(true),
        "must be the 413 (too_large) variant, not a plain connection error"
    );
    assert!(dst.is_empty(), "nothing should have been forwarded");
}

#[test]
fn test_pipe_body_chunked_over_max_body_size_rejected() {
    let mut src = SegReader::new(b"a\r\n0123456789\r\n0\r\n\r\n", 16);
    let mut dst = Vec::new();
    let err = run(&mut src, &mut dst, b"", true, 0, false, 5, None, 0);
    assert_eq!(err, Err(true));
}

#[test]
fn test_pipe_body_chunked_malformed_size_is_connection_error() {
    let mut src = SegReader::new(b"ZZ\r\ndata", 16);
    let mut dst = Vec::new();
    let err = run(&mut src, &mut dst, b"", true, 0, false, u64::MAX, None, 0);
    assert_eq!(
        err,
        Err(false),
        "malformed chunk size must be a connection error (400/close), not 413"
    );
}

#[test]
fn copy_for_the_cache_is_given_up_beyond_its_limit() {
    let mut src = SegReader::new(b"0123456789", 4);
    let mut dst = Vec::new();
    let (_, cache) = run(
        &mut src,
        &mut dst,
        b"",
        false,
        10,
        false,
        u64::MAX,
        Some(Vec::new()),
        9,
    )
    .expect("must succeed");
    assert_eq!(dst, b"0123456789");
    assert_eq!(cache, None);
}

#[test]
fn body_that_breaks_off_is_an_error() {
    let mut src = SegReader::new(b"short", 16);
    let mut dst = Vec::new();
    let err = run(&mut src, &mut dst, b"", false, 10, false, u64::MAX, None, 0);
    assert_eq!(err, Err(false));
}

#[test]
fn how_a_body_is_cut_does_not_matter() {
    let encoded: &[u8] = b"5;ext=1\r\nhello\r\n1\r\n!\r\n0\r\n\r\nNEXT";
    let mut seen = Vec::new();
    for cut in 1..encoded.len() + 1 {
        let mut src = SegReader::new(encoded, cut);
        let mut dst = Vec::new();
        let (rest, _) =
            run(&mut src, &mut dst, b"", true, 0, false, 100, None, 0).expect("must succeed");
        assert!(b"NEXT".starts_with(&rest[..]));
        seen.push(dst);
    }
    for s in &seen {
        assert_eq!(s, b"5;ext=1\r\nhello\r\n1\r\n!\r\n0\r\n\r\n");
    }
}
