//! Parsing user ids out of raw body buffers, in the byte-for-byte manner of
//! the reader that scans a buffer chunk by chunk.

use vstd::prelude::*;
use vstd::utf8::{decode_utf8, valid_utf8};
use crate::codec::{find_sep, lemma_sep_pos_bounds, sep_pos, SEMICOLON};
use crate::common::MyError;
use crate::text::string_from_utf8;
use crate::utils::vec_take;

verus! {

/// One whole buffer read as a user id.
pub fn parse_user_id(buffer: Vec<u8>) -> (r: Result<String, MyError>)
    ensures
        valid_utf8(buffer@) ==> match r {
            Ok(s) => s@ == decode_utf8(buffer@),
            Err(_) => false,
        },
        !valid_utf8(buffer@) ==> r == Err::<String, MyError>(MyError::ParseError),
{
    match string_from_utf8(buffer) {
        Some(s) => Ok(s),
        None => Err(MyError::ParseError),
    }
}

/// The chunks the bulk scan cuts from position `pos` on: it stops once fewer
/// than two bytes remain, takes everything up to and including the next
/// separator (or to the end), and drops each chunk's final byte.
pub open spec fn bulk_chunks(s: Seq<u8>, pos: int) -> Seq<Seq<u8>>
    recommends
        0 <= pos <= s.len(),
    decreases s.len() - pos,
    via bulk_chunks_decreases
{
    if pos < 0 || pos >= s.len() - 1 {
        seq![]
    } else {
        let i = pos + sep_pos(s.skip(pos), SEMICOLON);
        let endx = if i < s.len() {
            i + 1
        } else {
            s.len() as int
        };
        seq![s.subrange(pos, endx - 1)] + bulk_chunks(s, endx)
    }
}

#[via_fn]
proof fn bulk_chunks_decreases(s: Seq<u8>, pos: int) {
    if 0 <= pos < s.len() - 1 {
        lemma_sep_pos_bounds(s.skip(pos), SEMICOLON);
    }
}

/// A `;`-terminated list of user ids read chunk by chunk; a list whose last
/// id lacks its terminator loses that id's final byte with it.
pub fn parse_user_id_bulk(buffer: Vec<u8>) -> (r: Result<Vec<String>, MyError>)
    requires
        buffer@.len() >= 1,
    ensures
        ({
            let chunks = bulk_chunks(buffer@, 0);
            match r {
                Ok(users) => {
                    &&& users@.len() == chunks.len()
                    &&& forall|i: int| 0 <= i < chunks.len() ==> valid_utf8(#[trigger] chunks[i])
                    &&& forall|i: int|
                        0 <= i < chunks.len() ==> (#[trigger] users@[i])@ == decode_utf8(chunks[i])
                },
                Err(e) => e == MyError::ParseError && exists|i: int|
                    0 <= i < chunks.len() && !valid_utf8(#[trigger] chunks[i]),
            }
        }),
{
    let ghost chunks = bulk_chunks(buffer@, 0);
    let buffer_size = buffer.len();
    let mut user_ids: Vec<String> = Vec::new();
    let mut pos: usize = 0;
    proof {
        assert(chunks.skip(0) =~= chunks);
    }
    while pos < buffer_size - 1
        invariant
            buffer_size == buffer@.len(),
            1 <= buffer_size,
            0 <= pos <= buffer_size,
            chunks == bulk_chunks(buffer@, 0),
            chunks.skip(user_ids@.len() as int) == bulk_chunks(buffer@, pos as int),
            forall|i: int| 0 <= i < user_ids@.len() ==> valid_utf8(#[trigger] chunks[i]),
            forall|i: int|
                0 <= i < user_ids@.len() ==> (#[trigger] user_ids@[i])@ == decode_utf8(chunks[i]),
            user_ids@.len() <= chunks.len(),
        decreases buffer_size - pos,
    {
        let ghost k = user_ids@.len() as int;
        let i = find_sep(&buffer, pos);
        let endx = if i < buffer_size {
            i + 1
        } else {
            buffer_size
        };
        let chunk = vec_take(&buffer, pos, endx - 1);
        proof {
            lemma_sep_pos_bounds(buffer@.skip(pos as int), SEMICOLON);
            assert(bulk_chunks(buffer@, pos as int) == seq![
                buffer@.subrange(pos as int, endx - 1),
            ] + bulk_chunks(buffer@, endx as int));
            assert(chunk@ =~= buffer@.subrange(pos as int, endx - 1));
            assert(chunks.skip(k)[0] == chunks[k]);
            assert(chunks[k] == chunk@);
            let rest = bulk_chunks(buffer@, endx as int);
            assert forall|j: int| 0 <= j < rest.len() implies chunks.skip(k + 1)[j] == rest[j] by {
                assert(chunks.skip(k + 1)[j] == chunks[k + 1 + j]);
                assert(chunks.skip(k)[j + 1] == chunks[k + 1 + j]);
                assert((seq![chunk@] + rest)[j + 1] == rest[j]);
            }
            assert(chunks.skip(k + 1) =~= rest);
        }
        match string_from_utf8(chunk) {
            Some(s) => {
                user_ids.push(s);
            },
            None => {
                proof {
                    assert(!valid_utf8(chunks[k]));
                }
                return Err(MyError::ParseError);
            },
        }
        pos = endx;
    }
    proof {
        assert(bulk_chunks(buffer@, pos as int) =~= Seq::<Seq<u8>>::empty());
        assert(chunks.skip(user_ids@.len() as int) =~= Seq::<Seq<u8>>::empty());
        assert(user_ids@.len() == chunks.len());
    }
    Ok(user_ids)
}

} // verus!
