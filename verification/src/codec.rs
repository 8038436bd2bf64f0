//! The wire protocol: a resumable decoder from a byte stream to typed
//! requests, and an encoder from typed responses to bytes.
//!
//! A frame is a five-byte header — one command byte and a four-byte
//! big-endian body length — followed by that many body bytes. The decoder
//! keeps a parsed header across calls until the full body has arrived, and
//! never re-parses a header it has consumed.

use vstd::prelude::*;
use vstd::utf8::{decode_utf8, valid_utf8};
use crate::common::{
    COMMAND_ADD, COMMAND_BULK_EDIT, COMMAND_CONNECT, COMMAND_GET, COMMAND_REMOVE, RESULT_ERR,
    RESULT_OK,
};
use crate::text::string_from_utf8;
use crate::utils::{
    buf_to_i32_unsafe, buf_to_u32_unsafe, buf_to_u64, spec_be_i32, spec_be_u32, spec_be_u64,
    push_bytes, spec_u64_to_be_bytes, u64_to_buf, vec_take,
};

verus! {

/// The byte that separates user ids in a bulk-edit body.
pub const SEMICOLON: u8 = 59;

/// A request decoded off the wire.
#[allow(inconsistent_fields)]
#[derive(Debug, PartialEq)]
pub enum Request {
    Connect { channel: String },
    Get { user: String },
    BulkEdit { users: Vec<String>, points: i32 },
    Add { user: String, points: u64 },
    Remove { user: String, points: u64, force: bool },
}

/// A response to put on the wire: a bare value, or a success flag with a
/// value.
#[derive(Debug, PartialEq)]
pub enum Response {
    U64(u64),
    ResultU64((bool, u64)),
}

/// Why a frame could not be decoded; each of these closes the connection.
#[derive(Clone, Copy, Debug, PartialEq, Eq, Structural)]
pub enum DecodeError {
    /// The body is too short for its command.
    ShortBody,
    /// A name field is not valid UTF-8.
    InvalidUtf8,
    /// The command byte names no command.
    UnknownCommand(u8),
}

/// A parsed frame header: the command byte and the body length.
#[derive(Clone, Copy, Debug)]
struct Header {
    command: u8,
    body_len: usize,
}

/// The stateful decoder/encoder; between calls it holds at most a header
/// whose body has not fully arrived.
pub struct Codec {
    header: Option<Header>,
}

impl View for Codec {
    type V = Option<(u8, usize)>;

    closed spec fn view(&self) -> Option<(u8, usize)> {
        match self.header {
            Some(h) => Some((h.command, h.body_len)),
            None => None,
        }
    }
}

impl Default for Codec {
    /// A decoder with no header pending.
    fn default() -> (r: Codec)
        ensures
            r@ == None::<(u8, usize)>,
    {
        Codec { header: None }
    }
}

/// The index of the first `sep` in `s`, or `s.len()` when `s` holds none.
pub open spec fn sep_pos(s: Seq<u8>, sep: u8) -> int
    decreases s.len(),
{
    if s.len() == 0 {
        0
    } else if s[0] == sep {
        0
    } else {
        1 + sep_pos(s.drop_first(), sep)
    }
}

pub proof fn lemma_sep_pos_bounds(s: Seq<u8>, sep: u8)
    ensures
        0 <= sep_pos(s, sep) <= s.len(),
    decreases s.len(),
{
    if s.len() != 0 && s[0] != sep {
        lemma_sep_pos_bounds(s.drop_first(), sep);
    }
}

/// `sep_pos` is the position of the first separator: nothing before `k` is
/// one, and `k` is either one or the end.
pub proof fn lemma_sep_pos_of(s: Seq<u8>, sep: u8, k: int)
    requires
        0 <= k <= s.len(),
        forall|j: int| 0 <= j < k ==> s[j] != sep,
        k < s.len() ==> s[k] == sep,
    ensures
        sep_pos(s, sep) == k,
    decreases s.len(),
{
    if s.len() != 0 && s[0] != sep {
        let t = s.drop_first();
        assert(forall|j: int| 0 <= j < k - 1 ==> t[j] == s[j + 1] && t[j] != sep);
        lemma_sep_pos_of(t, sep, k - 1);
    }
}

/// The chunks of `s` between separators, as `str::split` cuts a string: `n`
/// separators give `n + 1` chunks, empty chunks included.
pub open spec fn split_bytes(s: Seq<u8>, sep: u8) -> Seq<Seq<u8>>
    decreases s.len(),
    via split_bytes_decreases
{
    let i = sep_pos(s, sep);
    if i == s.len() {
        seq![s]
    } else {
        seq![s.take(i)] + split_bytes(s.skip(i + 1), sep)
    }
}

#[via_fn]
proof fn split_bytes_decreases(s: Seq<u8>, sep: u8) {
    lemma_sep_pos_bounds(s, sep);
}

pub proof fn lemma_split_nonempty(s: Seq<u8>, sep: u8)
    ensures
        split_bytes(s, sep).len() >= 1,
{
    lemma_sep_pos_bounds(s, sep);
}

/// What decoding a body under command byte `cmd` must yield: the request on
/// a well-formed body, and which error otherwise.
pub open spec fn req_matches(cmd: u8, body: Seq<u8>, r: Result<Request, DecodeError>) -> bool {
    if cmd == COMMAND_CONNECT {
        if body.len() < 1 {
            r == Err::<Request, DecodeError>(DecodeError::ShortBody)
        } else if valid_utf8(body) {
            match r {
                Ok(Request::Connect { channel }) => channel@ == decode_utf8(body),
                _ => false,
            }
        } else {
            r == Err::<Request, DecodeError>(DecodeError::InvalidUtf8)
        }
    } else if cmd == COMMAND_GET {
        if body.len() < 1 {
            r == Err::<Request, DecodeError>(DecodeError::ShortBody)
        } else if valid_utf8(body) {
            match r {
                Ok(Request::Get { user }) => user@ == decode_utf8(body),
                _ => false,
            }
        } else {
            r == Err::<Request, DecodeError>(DecodeError::InvalidUtf8)
        }
    } else if cmd == COMMAND_BULK_EDIT {
        if body.len() < 5 {
            r == Err::<Request, DecodeError>(DecodeError::ShortBody)
        } else {
            let chunks = split_bytes(body.skip(4), SEMICOLON);
            if forall|i: int| 0 <= i < chunks.len() ==> valid_utf8(#[trigger] chunks[i]) {
                match r {
                    Ok(Request::BulkEdit { users, points }) => {
                        &&& points == spec_be_i32(body)
                        &&& users@.len() == chunks.len()
                        &&& forall|i: int|
                            0 <= i < chunks.len() ==> (#[trigger] users@[i])@ == decode_utf8(
                                chunks[i],
                            )
                    },
                    _ => false,
                }
            } else {
                r == Err::<Request, DecodeError>(DecodeError::InvalidUtf8)
            }
        }
    } else if cmd == COMMAND_ADD {
        if body.len() < 9 {
            r == Err::<Request, DecodeError>(DecodeError::ShortBody)
        } else if valid_utf8(body.skip(8)) {
            match r {
                Ok(Request::Add { user, points }) => {
                    &&& points == spec_be_u64(body)
                    &&& user@ == decode_utf8(body.skip(8))
                },
                _ => false,
            }
        } else {
            r == Err::<Request, DecodeError>(DecodeError::InvalidUtf8)
        }
    } else if cmd == COMMAND_REMOVE {
        if body.len() < 10 {
            r == Err::<Request, DecodeError>(DecodeError::ShortBody)
        } else if valid_utf8(body.skip(9)) {
            match r {
                Ok(Request::Remove { user, points, force }) => {
                    &&& force == (body[0] != 0)
                    &&& points == spec_be_u64(body.skip(1))
                    &&& user@ == decode_utf8(body.skip(9))
                },
                _ => false,
            }
        } else {
            r == Err::<Request, DecodeError>(DecodeError::InvalidUtf8)
        }
    } else {
        r == Err::<Request, DecodeError>(DecodeError::UnknownCommand(cmd))
    }
}

/// `req_matches` lifted to the decoder's result: a finished frame yields a
/// request or an error, never "keep waiting".
pub open spec fn req_result_matches(
    cmd: u8,
    body: Seq<u8>,
    r: Result<Option<Request>, DecodeError>,
) -> bool {
    match r {
        Ok(Some(req)) => req_matches(cmd, body, Ok(req)),
        Ok(None) => false,
        Err(e) => req_matches(cmd, body, Err(e)),
    }
}

/// The header five bytes spell: the command byte, then the body length.
pub open spec fn spec_header(b: Seq<u8>) -> (u8, usize)
    recommends
        b.len() >= 5,
{
    (b[0], spec_be_u32(b.skip(1)) as usize)
}

/// How one `decode` call relates its inputs to its outputs: `pre`/`buf` are
/// the pending header and buffered bytes before, `post`/`rest` after, and
/// `r` the outcome.
pub open spec fn decode_matches(
    pre: Option<(u8, usize)>,
    buf: Seq<u8>,
    post: Option<(u8, usize)>,
    rest: Seq<u8>,
    r: Result<Option<Request>, DecodeError>,
) -> bool {
    match pre {
        None => {
            if buf.len() < 5 {
                r == Ok::<Option<Request>, DecodeError>(None) && post == pre && rest == buf
            } else {
                let h = spec_header(buf);
                let after = buf.skip(5);
                if after.len() >= h.1 {
                    &&& post == None::<(u8, usize)>
                    &&& rest == after.skip(h.1 as int)
                    &&& req_result_matches(h.0, after.take(h.1 as int), r)
                } else {
                    &&& r == Ok::<Option<Request>, DecodeError>(None)
                    &&& post == Some(h)
                    &&& rest == after
                }
            }
        },
        Some(h) => {
            if buf.len() >= h.1 {
                &&& post == None::<(u8, usize)>
                &&& rest == buf.skip(h.1 as int)
                &&& req_result_matches(h.0, buf.take(h.1 as int), r)
            } else {
                r == Ok::<Option<Request>, DecodeError>(None) && post == pre && rest == buf
            }
        },
    }
}

/// The bytes that encode a response: a bare eight-byte value, or a result
/// flag followed by the value.
pub open spec fn spec_encode_response(r: Response) -> Seq<u8> {
    match r {
        Response::U64(v) => spec_u64_to_be_bytes(v),
        Response::ResultU64((b, v)) => seq![
            if b {
                RESULT_OK
            } else {
                RESULT_ERR
            },
        ] + spec_u64_to_be_bytes(v),
    }
}

/// Splits the `;`-separated user list and decodes each chunk, refusing the
/// whole list when any chunk is not valid UTF-8.
fn split_user_ids(bytes: &Vec<u8>) -> (r: Option<Vec<String>>)
    ensures
        ({
            let chunks = split_bytes(bytes@, SEMICOLON);
            match r {
                Some(users) => {
                    &&& users@.len() == chunks.len()
                    &&& forall|i: int| 0 <= i < chunks.len() ==> valid_utf8(#[trigger] chunks[i])
                    &&& forall|i: int|
                        0 <= i < chunks.len() ==> (#[trigger] users@[i])@ == decode_utf8(chunks[i])
                },
                None => exists|i: int| 0 <= i < chunks.len() && !valid_utf8(#[trigger] chunks[i]),
            }
        }),
{
    let ghost chunks = split_bytes(bytes@, SEMICOLON);
    let mut users: Vec<String> = Vec::new();
    let mut pos: usize = 0;
    let mut done = false;
    proof {
        assert(bytes@.skip(0) =~= bytes@);
        assert(chunks.skip(0) =~= chunks);
    }
    while !done
        invariant
            pos <= bytes@.len(),
            chunks == split_bytes(bytes@, SEMICOLON),
            users@.len() <= chunks.len(),
            !done ==> chunks.skip(users@.len() as int) == split_bytes(
                bytes@.skip(pos as int),
                SEMICOLON,
            ),
            done ==> users@.len() == chunks.len(),
            forall|i: int| 0 <= i < users@.len() ==> valid_utf8(#[trigger] chunks[i]),
            forall|i: int|
                0 <= i < users@.len() ==> (#[trigger] users@[i])@ == decode_utf8(chunks[i]),
        decreases bytes@.len() - pos + (if done {
            0int
        } else {
            1int
        }),
    {
        let ghost k = users@.len() as int;
        let ghost t = bytes@.skip(pos as int);
        proof {
            lemma_split_nonempty(t, SEMICOLON);
            assert(chunks.skip(k).len() >= 1);
            assert(k < chunks.len());
        }
        let end = find_sep(bytes, pos);
        let chunk = vec_take(bytes, pos, end);
        proof {
            lemma_sep_pos_bounds(t, SEMICOLON);
            assert(sep_pos(t, SEMICOLON) == end - pos);
            if end < bytes@.len() {
                assert(chunk@ =~= t.take(end - pos));
                assert(t.skip((end - pos) + 1) =~= bytes@.skip(end + 1));
                assert(split_bytes(t, SEMICOLON) == seq![chunk@] + split_bytes(
                    bytes@.skip(end + 1),
                    SEMICOLON,
                ));
                assert(split_bytes(t, SEMICOLON)[0] == chunk@);
            } else {
                assert(chunk@ =~= t);
                assert(split_bytes(t, SEMICOLON) =~= seq![chunk@]);
            }
            assert(chunks.skip(k)[0] == chunks[k]);
            assert(chunks[k] == chunk@);
        }
        match string_from_utf8(chunk) {
            None => {
                proof {
                    assert(!valid_utf8(chunks[k]));
                }
                return None;
            },
            Some(s) => {
                users.push(s);
            },
        }
        if end == bytes.len() {
            proof {
                assert(chunks.skip(k) =~= seq![chunks[k]]);
                assert(users@.len() == chunks.len());
            }
            done = true;
        } else {
            proof {
                let rest = split_bytes(bytes@.skip(end + 1), SEMICOLON);
                assert(chunks.skip(k) == seq![chunk@] + rest);
                assert forall|j: int| 0 <= j < rest.len() implies chunks.skip(k + 1)[j] == rest[j] by {
                    assert(chunks.skip(k + 1)[j] == chunks[k + 1 + j]);
                    assert(chunks.skip(k)[j + 1] == chunks[k + 1 + j]);
                    assert((seq![chunk@] + rest)[j + 1] == rest[j]);
                }
                assert(chunks.skip(k + 1) =~= rest);
            }
            pos = end + 1;
        }
    }
    Some(users)
}

/// The index of the first `;` at or after `from`, or the end of the buffer.
pub(crate) fn find_sep(bytes: &Vec<u8>, from: usize) -> (r: usize)
    requires
        from <= bytes@.len(),
    ensures
        from <= r <= bytes@.len(),
        r - from == sep_pos(bytes@.skip(from as int), SEMICOLON),
        r < bytes@.len() ==> bytes@[r as int] == SEMICOLON,
{
    let ghost t = bytes@.skip(from as int);
    let mut i: usize = from;
    while i < bytes.len()
        invariant
            from <= i <= bytes@.len(),
            t == bytes@.skip(from as int),
            forall|j: int| from <= j < i ==> bytes@[j] != SEMICOLON,
        decreases bytes@.len() - i,
    {
        if bytes[i] == SEMICOLON {
            proof {
                assert(forall|j: int| 0 <= j < i - from ==> t[j] == bytes@[j + from]);
                lemma_sep_pos_of(t, SEMICOLON, i - from);
            }
            return i;
        }
        i = i + 1;
    }
    proof {
        assert(forall|j: int| 0 <= j < t.len() ==> t[j] == bytes@[j + from]);
        lemma_sep_pos_of(t, SEMICOLON, t.len() as int);
    }
    bytes.len()
}

impl Request {
    /// Decodes one complete body under its command byte.
    pub fn try_from(command: u8, body: Vec<u8>) -> (r: Result<Request, DecodeError>)
        ensures
            req_matches(command, body@, r),
    {
        if command == COMMAND_CONNECT {
            if body.len() < 1 {
                return Err(DecodeError::ShortBody);
            }
            match string_from_utf8(body) {
                Some(channel) => Ok(Request::Connect { channel }),
                None => Err(DecodeError::InvalidUtf8),
            }
        } else if command == COMMAND_GET {
            if body.len() < 1 {
                return Err(DecodeError::ShortBody);
            }
            match string_from_utf8(body) {
                Some(user) => Ok(Request::Get { user }),
                None => Err(DecodeError::InvalidUtf8),
            }
        } else if command == COMMAND_BULK_EDIT {
            if body.len() < 5 {
                return Err(DecodeError::ShortBody);
            }
            let points = buf_to_i32_unsafe(body.as_slice());
            let tail = vec_take(&body, 4, body.len());
            proof {
                assert(tail@ =~= body@.skip(4));
            }
            match split_user_ids(&tail) {
                Some(users) => Ok(Request::BulkEdit { users, points }),
                None => Err(DecodeError::InvalidUtf8),
            }
        } else if command == COMMAND_ADD {
            if body.len() < 9 {
                return Err(DecodeError::ShortBody);
            }
            let points = match buf_to_u64(body.as_slice()) {
                Ok(v) => v,
                Err(_) => unreached(),
            };
            let tail = vec_take(&body, 8, body.len());
            proof {
                assert(tail@ =~= body@.skip(8));
            }
            match string_from_utf8(tail) {
                Some(user) => Ok(Request::Add { user, points }),
                None => Err(DecodeError::InvalidUtf8),
            }
        } else if command == COMMAND_REMOVE {
            if body.len() < 10 {
                return Err(DecodeError::ShortBody);
            }
            let force = body[0] != 0;
            let rest = vec_take(&body, 1, body.len());
            proof {
                assert(rest@ =~= body@.skip(1));
            }
            let points = match buf_to_u64(rest.as_slice()) {
                Ok(v) => v,
                Err(_) => unreached(),
            };
            let tail = vec_take(&body, 9, body.len());
            proof {
                assert(tail@ =~= body@.skip(9));
            }
            match string_from_utf8(tail) {
                Some(user) => Ok(Request::Remove { user, points, force }),
                None => Err(DecodeError::InvalidUtf8),
            }
        } else {
            Err(DecodeError::UnknownCommand(command))
        }
    }
}

impl Codec {
    /// Takes what it can from the buffered bytes: a full frame becomes a
    /// request (or a decode error), an incomplete one is kept for the next
    /// call, the consumed bytes leave the buffer.
    pub fn decode(&mut self, src: &mut Vec<u8>) -> (r: Result<Option<Request>, DecodeError>)
        ensures
            decode_matches(old(self)@, old(src)@, final(self)@, final(src)@, r),
    {
        let header: Header = match self.header {
            Some(h) => {
                self.header = None;
                h
            },
            None => {
                if src.len() < 5 {
                    return Ok(None);
                }
                let hb = vec_take(src, 0, 5);
                let rest = vec_take(src, 5, src.len());
                proof {
                    assert(rest@ =~= old(src)@.skip(5));
                }
                *src = rest;
                let command = hb[0];
                let blen = buf_to_u32_unsafe(&hb.as_slice()[1..5]);
                proof {
                    assert(hb@ =~= old(src)@.take(5));
                    assert(hb@.subrange(1, 5)[0] == old(src)@.skip(1)[0]);
                    assert(spec_be_u32(hb@.subrange(1, 5)) == spec_be_u32(old(src)@.skip(1)));
                }
                Header { command, body_len: blen as usize }
            },
        };
        proof {
            assert(hb_matches_header(old(self)@, old(src)@, header, src@));
        }
        if src.len() >= header.body_len {
            let body = vec_take(src, 0, header.body_len);
            let rest = vec_take(src, header.body_len, src.len());
            proof {
                assert(body@ =~= src@.take(header.body_len as int));
                assert(rest@ =~= src@.skip(header.body_len as int));
            }
            *src = rest;
            match Request::try_from(header.command, body) {
                Ok(req) => Ok(Some(req)),
                Err(e) => Err(e),
            }
        } else {
            self.header = Some(header);
            Ok(None)
        }
    }

    /// Appends the encoding of one response to the output buffer.
    pub fn encode(&self, response: Response, dst: &mut Vec<u8>)
        ensures
            final(dst)@ == old(dst)@ + spec_encode_response(response),
    {
        match response {
            Response::U64(v) => {
                let buf = u64_to_buf(v);
                push_bytes(dst, &buf);
                proof {
                    assert(dst@ =~= old(dst)@ + spec_encode_response(Response::U64(v)));
                }
            },
            Response::ResultU64((b, v)) => {
                dst.push(if b {
                    RESULT_OK
                } else {
                    RESULT_ERR
                });
                let buf = u64_to_buf(v);
                push_bytes(dst, &buf);
                proof {
                    assert(dst@ =~= old(dst)@ + spec_encode_response(
                        Response::ResultU64((b, v)),
                    ));
                }
            },
        }
    }
}

/// Which header the first phase of `decode` settles on: the pending one, or
/// the one just peeled off the buffer.
spec fn hb_matches_header(
    pre: Option<(u8, usize)>,
    buf: Seq<u8>,
    header: Header,
    remaining: Seq<u8>,
) -> bool {
    match pre {
        Some(h) => (header.command, header.body_len) == h && remaining == buf,
        None => {
            &&& buf.len() >= 5
            &&& (header.command, header.body_len) == spec_header(buf)
            &&& remaining == buf.skip(5)
        },
    }
}

impl From<u64> for Response {
    /// A bare-value response.
    fn from(v: u64) -> (r: Response) {
        Response::U64(v)
    }
}

impl vstd::std_specs::convert::FromSpecImpl<u64> for Response {
    open spec fn obeys_from_spec() -> bool {
        true
    }

    open spec fn from_spec(v: u64) -> Response {
        Response::U64(v)
    }
}

impl From<Result<u64, u64>> for Response {
    /// A flagged response: `Ok` is success, `Err` a refusal, each carrying
    /// the balance to report.
    fn from(r: Result<u64, u64>) -> (response: Response) {
        Response::ResultU64(
            match r {
                Ok(v) => (true, v),
                Err(v) => (false, v),
            },
        )
    }
}

impl vstd::std_specs::convert::FromSpecImpl<Result<u64, u64>> for Response {
    open spec fn obeys_from_spec() -> bool {
        true
    }

    open spec fn from_spec(r: Result<u64, u64>) -> Response {
        match r {
            Ok(v) => Response::ResultU64((true, v)),
            Err(v) => Response::ResultU64((false, v)),
        }
    }
}

} // verus!
