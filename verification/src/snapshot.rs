//! The snapshot format: the whole store serialized to bytes and read back.
//!
//! The layout is length-prefixed throughout, big-endian: a channel count,
//! then per channel its name (length, then UTF-8 bytes), its user count, and
//! per user the id (length, then UTF-8 bytes) and the eight-byte balance.
//! Reading rejects anything the writer cannot produce: truncated input,
//! ill-formed UTF-8, duplicate names, trailing bytes. Under that, the format
//! round-trips: decoding an encoded store yields the store.

use vstd::prelude::*;
use vstd::utf8::{
    decode_utf8, encode_utf8, encode_utf8_decode_utf8, encode_utf8_valid_utf8, valid_utf8,
};
use crate::db::{keys_unique, ChannelDb, Db};
use crate::text::string_from_utf8;
use crate::utils::{
    buf_to_u64, lemma_u64_be_bytes_roundtrip, spec_be_u64, spec_u64_to_be_bytes, u64_to_buf,
    vec_take,
};

verus! {

/// One channel as the snapshot sees it: its name and its (user, balance)
/// pairs in order.
pub type SnapChannel = (Seq<char>, Seq<(Seq<char>, u64)>);

/// The whole store as the snapshot sees it: the channels in order.
pub type SnapModel = Seq<SnapChannel>;

/// A name short enough for its length prefix.
pub open spec fn str_wf(s: Seq<char>) -> bool {
    encode_utf8(s).len() <= u64::MAX
}

/// Counts and name lengths all fit their eight-byte prefixes.
pub open spec fn snap_wf(d: SnapModel) -> bool {
    &&& d.len() <= u64::MAX
    &&& forall|i: int|
        0 <= i < d.len() ==> {
            &&& str_wf((#[trigger] d[i]).0)
            &&& d[i].1.len() <= u64::MAX
            &&& forall|j: int| 0 <= j < d[i].1.len() ==> str_wf((#[trigger] d[i].1[j]).0)
        }
}

/// No channel name repeats, and within a channel no user id repeats.
pub open spec fn snap_unique(d: SnapModel) -> bool {
    &&& keys_unique(d)
    &&& forall|i: int| 0 <= i < d.len() ==> keys_unique((#[trigger] d[i]).1)
}

/// A name on the wire: its byte length, then its bytes.
pub open spec fn enc_str(s: Seq<char>) -> Seq<u8> {
    spec_u64_to_be_bytes(encode_utf8(s).len() as u64) + encode_utf8(s)
}

/// One user entry: the id, then the balance.
pub open spec fn enc_user(e: (Seq<char>, u64)) -> Seq<u8> {
    enc_str(e.0) + spec_u64_to_be_bytes(e.1)
}

/// A run of user entries, in order.
pub open spec fn enc_users(us: Seq<(Seq<char>, u64)>) -> Seq<u8>
    decreases us.len(),
{
    if us.len() == 0 {
        Seq::empty()
    } else {
        enc_user(us[0]) + enc_users(us.drop_first())
    }
}

/// One channel: its name, its user count, its users.
pub open spec fn enc_channel(c: SnapChannel) -> Seq<u8> {
    enc_str(c.0) + spec_u64_to_be_bytes(c.1.len() as u64) + enc_users(c.1)
}

/// A run of channels, in order.
pub open spec fn enc_channels(cs: SnapModel) -> Seq<u8>
    decreases cs.len(),
{
    if cs.len() == 0 {
        Seq::empty()
    } else {
        enc_channel(cs[0]) + enc_channels(cs.drop_first())
    }
}

/// The whole snapshot: the channel count, then the channels.
pub open spec fn enc_db(d: SnapModel) -> Seq<u8> {
    spec_u64_to_be_bytes(d.len() as u64) + enc_channels(d)
}

/// Reads an eight-byte value; what follows is returned as the remainder.
pub open spec fn dec_u64(b: Seq<u8>) -> Option<(u64, Seq<u8>)> {
    if b.len() < 8 {
        None
    } else {
        Some((spec_be_u64(b.take(8)), b.skip(8)))
    }
}

/// Reads a length-prefixed UTF-8 name.
pub open spec fn dec_str(b: Seq<u8>) -> Option<(Seq<char>, Seq<u8>)> {
    match dec_u64(b) {
        None => None,
        Some((n, rest)) => {
            if rest.len() < n {
                None
            } else {
                let sb = rest.take(n as int);
                if valid_utf8(sb) {
                    Some((decode_utf8(sb), rest.skip(n as int)))
                } else {
                    None
                }
            }
        },
    }
}

/// Reads one user entry.
pub open spec fn dec_user(b: Seq<u8>) -> Option<((Seq<char>, u64), Seq<u8>)> {
    match dec_str(b) {
        None => None,
        Some((name, rest)) => match dec_u64(rest) {
            None => None,
            Some((v, rest2)) => Some(((name, v), rest2)),
        },
    }
}

/// Reads exactly `n` user entries.
pub open spec fn dec_users(b: Seq<u8>, n: nat) -> Option<(Seq<(Seq<char>, u64)>, Seq<u8>)>
    decreases n,
{
    if n == 0 {
        Some((Seq::empty(), b))
    } else {
        match dec_user(b) {
            None => None,
            Some((e, rest)) => match dec_users(rest, (n - 1) as nat) {
                None => None,
                Some((es, rest2)) => Some((seq![e] + es, rest2)),
            },
        }
    }
}

/// Reads one channel: name, user count, that many users.
pub open spec fn dec_channel(b: Seq<u8>) -> Option<(SnapChannel, Seq<u8>)> {
    match dec_str(b) {
        None => None,
        Some((name, rest)) => match dec_u64(rest) {
            None => None,
            Some((m, rest2)) => match dec_users(rest2, m as nat) {
                None => None,
                Some((us, rest3)) => Some(((name, us), rest3)),
            },
        },
    }
}

/// Reads exactly `n` channels.
pub open spec fn dec_channels(b: Seq<u8>, n: nat) -> Option<(SnapModel, Seq<u8>)>
    decreases n,
{
    if n == 0 {
        Some((Seq::empty(), b))
    } else {
        match dec_channel(b) {
            None => None,
            Some((c, rest)) => match dec_channels(rest, (n - 1) as nat) {
                None => None,
                Some((cs, rest2)) => Some((seq![c] + cs, rest2)),
            },
        }
    }
}

/// Reads a whole snapshot: every byte consumed, every name fresh.
pub open spec fn dec_db(b: Seq<u8>) -> Option<SnapModel> {
    match dec_u64(b) {
        None => None,
        Some((n, rest)) => match dec_channels(rest, n as nat) {
            None => None,
            Some((cs, rest2)) => {
                if rest2.len() == 0 && snap_unique(cs) {
                    Some(cs)
                } else {
                    None
                }
            },
        },
    }
}

pub proof fn lemma_dec_enc_u64(v: u64, rest: Seq<u8>)
    ensures
        dec_u64(spec_u64_to_be_bytes(v) + rest) == Some((v, rest)),
{
    lemma_u64_be_bytes_roundtrip();
    assert((spec_u64_to_be_bytes(v) + rest).take(8) =~= spec_u64_to_be_bytes(v));
    assert((spec_u64_to_be_bytes(v) + rest).skip(8) =~= rest);
}

pub proof fn lemma_dec_enc_str(s: Seq<char>, rest: Seq<u8>)
    requires
        str_wf(s),
    ensures
        dec_str(enc_str(s) + rest) == Some((s, rest)),
{
    let eu = encode_utf8(s);
    encode_utf8_valid_utf8(s);
    encode_utf8_decode_utf8(s);
    assert(enc_str(s) + rest =~= spec_u64_to_be_bytes(eu.len() as u64) + (eu + rest));
    lemma_dec_enc_u64(eu.len() as u64, eu + rest);
    assert((eu + rest).take(eu.len() as int) =~= eu);
    assert((eu + rest).skip(eu.len() as int) =~= rest);
}

pub proof fn lemma_dec_enc_user(e: (Seq<char>, u64), rest: Seq<u8>)
    requires
        str_wf(e.0),
    ensures
        dec_user(enc_user(e) + rest) == Some((e, rest)),
{
    assert(enc_user(e) + rest =~= enc_str(e.0) + (spec_u64_to_be_bytes(e.1) + rest));
    lemma_dec_enc_str(e.0, spec_u64_to_be_bytes(e.1) + rest);
    lemma_dec_enc_u64(e.1, rest);
}

#[verifier::rlimit(50)]
#[verifier::spinoff_prover]
pub proof fn lemma_dec_enc_users(us: Seq<(Seq<char>, u64)>, rest: Seq<u8>)
    requires
        forall|j: int| 0 <= j < us.len() ==> str_wf((#[trigger] us[j]).0),
    ensures
        dec_users(enc_users(us) + rest, us.len()) == Some((us, rest)),
    decreases us.len(),
{
    if us.len() == 0 {
        assert(enc_users(us) + rest =~= rest);
        assert(us =~= Seq::<(Seq<char>, u64)>::empty());
    } else {
        assert(enc_users(us) + rest =~= enc_user(us[0]) + (enc_users(us.drop_first()) + rest));
        lemma_dec_enc_user(us[0], enc_users(us.drop_first()) + rest);
        assert(forall|j: int|
            0 <= j < us.drop_first().len() ==> (#[trigger] us.drop_first()[j]) == us[j + 1]);
        lemma_dec_enc_users(us.drop_first(), rest);
        assert(seq![us[0]] + us.drop_first() =~= us);
    }
}

pub proof fn lemma_dec_enc_channel(c: SnapChannel, rest: Seq<u8>)
    requires
        str_wf(c.0),
        c.1.len() <= u64::MAX,
        forall|j: int| 0 <= j < c.1.len() ==> str_wf((#[trigger] c.1[j]).0),
    ensures
        dec_channel(enc_channel(c) + rest) == Some((c, rest)),
{
    let count = spec_u64_to_be_bytes(c.1.len() as u64);
    assert(enc_channel(c) + rest =~= enc_str(c.0) + (count + (enc_users(c.1) + rest)));
    lemma_dec_enc_str(c.0, count + (enc_users(c.1) + rest));
    lemma_dec_enc_u64(c.1.len() as u64, enc_users(c.1) + rest);
    lemma_dec_enc_users(c.1, rest);
}

pub proof fn lemma_dec_enc_channels(cs: SnapModel, rest: Seq<u8>)
    requires
        forall|i: int|
            0 <= i < cs.len() ==> {
                &&& str_wf((#[trigger] cs[i]).0)
                &&& cs[i].1.len() <= u64::MAX
                &&& forall|j: int| 0 <= j < cs[i].1.len() ==> str_wf((#[trigger] cs[i].1[j]).0)
            },
    ensures
        dec_channels(enc_channels(cs) + rest, cs.len()) == Some((cs, rest)),
    decreases cs.len(),
{
    if cs.len() == 0 {
        assert(enc_channels(cs) + rest =~= rest);
        assert(cs =~= Seq::<SnapChannel>::empty());
    } else {
        assert(enc_channels(cs) + rest =~= enc_channel(cs[0]) + (enc_channels(cs.drop_first())
            + rest));
        lemma_dec_enc_channel(cs[0], enc_channels(cs.drop_first()) + rest);
        assert(forall|i: int|
            0 <= i < cs.drop_first().len() ==> (#[trigger] cs.drop_first()[i]) == cs[i + 1]);
        lemma_dec_enc_channels(cs.drop_first(), rest);
        assert(seq![cs[0]] + cs.drop_first() =~= cs);
    }
}

/// The round trip: a well-formed store model, encoded and decoded, comes
/// back exactly.
pub proof fn lemma_snapshot_roundtrip(d: SnapModel)
    requires
        snap_wf(d),
        snap_unique(d),
    ensures
        dec_db(enc_db(d)) == Some(d),
{
    assert(enc_db(d) =~= spec_u64_to_be_bytes(d.len() as u64) + enc_channels(d));
    lemma_dec_enc_u64(d.len() as u64, enc_channels(d));
    assert(enc_channels(d) =~= enc_channels(d) + Seq::<u8>::empty());
    lemma_dec_enc_channels(d, Seq::<u8>::empty());
}

proof fn lemma_enc_users_snoc(us: Seq<(Seq<char>, u64)>, e: (Seq<char>, u64))
    ensures
        enc_users(us.push(e)) == enc_users(us) + enc_user(e),
    decreases us.len(),
{
    if us.len() == 0 {
        assert(us.push(e)[0] == e);
        assert(us.push(e).drop_first() =~= Seq::<(Seq<char>, u64)>::empty());
        assert(enc_users(us.push(e)) == enc_user(e) + enc_users(
            Seq::<(Seq<char>, u64)>::empty(),
        ));
        assert(enc_users(us.push(e)) =~= enc_users(us) + enc_user(e));
    } else {
        assert(us.push(e)[0] == us[0]);
        assert(us.push(e).drop_first() =~= us.drop_first().push(e));
        assert(enc_users(us.push(e)) == enc_user(us[0]) + enc_users(us.drop_first().push(e)));
        lemma_enc_users_snoc(us.drop_first(), e);
        assert(enc_users(us) == enc_user(us[0]) + enc_users(us.drop_first()));
        assert(enc_users(us.push(e)) =~= enc_users(us) + enc_user(e));
    }
}

proof fn lemma_enc_channels_snoc(cs: SnapModel, c: SnapChannel)
    ensures
        enc_channels(cs.push(c)) == enc_channels(cs) + enc_channel(c),
    decreases cs.len(),
{
    if cs.len() == 0 {
        assert(cs.push(c)[0] == c);
        assert(cs.push(c).drop_first() =~= Seq::<SnapChannel>::empty());
        assert(enc_channels(cs.push(c)) == enc_channel(c) + enc_channels(
            Seq::<SnapChannel>::empty(),
        ));
        assert(enc_channels(cs.push(c)) =~= enc_channels(cs) + enc_channel(c));
    } else {
        assert(cs.push(c)[0] == cs[0]);
        assert(cs.push(c).drop_first() =~= cs.drop_first().push(c));
        assert(enc_channels(cs.push(c)) == enc_channel(cs[0]) + enc_channels(
            cs.drop_first().push(c),
        ));
        lemma_enc_channels_snoc(cs.drop_first(), c);
        assert(enc_channels(cs) == enc_channel(cs[0]) + enc_channels(cs.drop_first()));
        assert(enc_channels(cs.push(c)) =~= enc_channels(cs) + enc_channel(c));
    }
}

/// Appends a name as its length, then its UTF-8 bytes.
fn push_str(dst: &mut Vec<u8>, s: &String)
    ensures
        final(dst)@ == old(dst)@ + enc_str(s@),
        str_wf(s@),
{
    let b: &[u8] = s.as_str().as_bytes();
    crate::utils::push_u64(dst, b.len() as u64);
    dst.extend_from_slice(b);
    proof {
        assert(dst@ =~= old(dst)@ + enc_str(s@));
    }
}

/// The whole store, serialized.
pub fn encode_db(db: &Db) -> (r: Vec<u8>)
    requires
        db.wf(),
    ensures
        r@ == enc_db(db.deep_kv()),
        snap_wf(db.deep_kv()),
        snap_unique(db.deep_kv()),
{
    let ghost d = db.deep_kv();
    let n = db.num_channels();
    let mut out: Vec<u8> = Vec::new();
    crate::utils::push_u64(&mut out, n as u64);
    proof {
        assert(d.take(0) =~= Seq::<SnapChannel>::empty());
        assert(out@ =~= spec_u64_to_be_bytes(d.len() as u64) + enc_channels(d.take(0)));
    }
    let mut i: usize = 0;
    while i < n
        invariant
            db.wf(),
            d == db.deep_kv(),
            n == d.len(),
            i <= n,
            out@ == spec_u64_to_be_bytes(d.len() as u64) + enc_channels(d.take(i as int)),
            forall|ii: int|
                0 <= ii < i ==> {
                    &&& str_wf((#[trigger] d[ii]).0)
                    &&& d[ii].1.len() <= u64::MAX
                    &&& forall|j: int| 0 <= j < d[ii].1.len() ==> str_wf((#[trigger] d[ii].1[j]).0)
                },
        decreases n - i,
    {
        let name = db.channel_name_at(i);
        push_str(&mut out, name);
        let cdb = db.channel_at(i);
        let m = cdb.num_users();
        crate::utils::push_u64(&mut out, m as u64);
        let ghost base = out@;
        let mut j: usize = 0;
        while j < m
            invariant
                db.wf(),
                d == db.deep_kv(),
                n == d.len(),
                i < n,
                cdb.kv() == d[i as int].1,
                m == d[i as int].1.len(),
                j <= m,
                out@ == base + enc_users(d[i as int].1.take(j as int)),
                forall|jj: int| 0 <= jj < j ==> str_wf((#[trigger] d[i as int].1[jj]).0),
            decreases m - j,
        {
            let uname = cdb.user_name_at(j);
            push_str(&mut out, uname);
            let v = cdb.user_value_at(j);
            crate::utils::push_u64(&mut out, v);
            proof {
                let us = d[i as int].1;
                lemma_enc_users_snoc(us.take(j as int), us[j as int]);
                assert(us.take(j + 1) =~= us.take(j as int).push(us[j as int]));
                assert(enc_user(us[j as int]) =~= enc_str(uname@) + spec_u64_to_be_bytes(v));
                assert(out@ =~= base + enc_users(us.take(j + 1)));
            }
            j = j + 1;
        }
        proof {
            assert(d[i as int].1.take(m as int) =~= d[i as int].1);
            lemma_enc_channels_snoc(d.take(i as int), d[i as int]);
            assert(d.take(i + 1) =~= d.take(i as int).push(d[i as int]));
            assert(enc_channel(d[i as int]) =~= enc_str(d[i as int].0) + spec_u64_to_be_bytes(
                m as u64,
            ) + enc_users(d[i as int].1));
            assert(out@ =~= spec_u64_to_be_bytes(d.len() as u64) + enc_channels(d.take(i + 1)));
        }
        i = i + 1;
    }
    proof {
        assert(d.take(n as int) =~= d);
        db.lemma_deep_kv();
        assert forall|ii: int, jj: int| 0 <= ii < jj < d.len() implies d[ii].0 != d[jj].0 by {
            assert(db.kv()[ii].0 == d[ii].0);
            assert(db.kv()[jj].0 == d[jj].0);
        }
        assert forall|ii: int| 0 <= ii < d.len() implies keys_unique((#[trigger] d[ii]).1) by {
            assert(db.kv()[ii].0 == d[ii].0);
            assert(db.chans()[ii].kv() == d[ii].1);
            assert(db.chans()[ii].wf());
        }
    }
    out
}

/// Reads the eight-byte value at `pos`.
fn read_u64(bytes: &Vec<u8>, pos: usize) -> (r: Option<(u64, usize)>)
    requires
        pos <= bytes@.len(),
    ensures
        match r {
            Some(p) => pos <= p.1 <= bytes@.len() && dec_u64(bytes@.skip(pos as int)) == Some(
                (p.0, bytes@.skip(p.1 as int)),
            ),
            None => dec_u64(bytes@.skip(pos as int)) is None,
        },
{
    if bytes.len() - pos < 8 {
        return None;
    }
    let s = &bytes.as_slice()[pos..pos + 8];
    let v = match buf_to_u64(s) {
        Ok(v) => v,
        Err(_) => unreached(),
    };
    proof {
        assert(bytes@.subrange(pos as int, pos + 8) =~= bytes@.skip(pos as int).take(8));
        assert(bytes@.skip(pos + 8) =~= bytes@.skip(pos as int).skip(8));
    }
    Some((v, pos + 8))
}

/// Reads the length-prefixed name at `pos`.
fn read_str(bytes: &Vec<u8>, pos: usize) -> (r: Option<(String, usize)>)
    requires
        pos <= bytes@.len(),
    ensures
        match r {
            Some(p) => pos <= p.1 <= bytes@.len() && dec_str(bytes@.skip(pos as int)) == Some(
                (p.0@, bytes@.skip(p.1 as int)),
            ),
            None => dec_str(bytes@.skip(pos as int)) is None,
        },
{
    let (n, p1) = match read_u64(bytes, pos) {
        Some(p) => p,
        None => {
            return None;
        },
    };
    if ((bytes.len() - p1) as u64) < n {
        return None;
    }
    let nn = n as usize;
    let sb = vec_take(bytes, p1, p1 + nn);
    proof {
        assert(sb@ =~= bytes@.skip(p1 as int).take(n as int));
        assert(bytes@.skip(p1 + nn) =~= bytes@.skip(p1 as int).skip(n as int));
    }
    match string_from_utf8(sb) {
        Some(s) => Some((s, p1 + nn)),
        None => None,
    }
}

/// Reads one channel at `pos`: its name and a store of its users, refusing a
/// repeated user id.
fn read_channel(bytes: &Vec<u8>, pos: usize) -> (r: Option<(String, ChannelDb, usize)>)
    requires
        pos <= bytes@.len(),
    ensures
        match r {
            Some(p) => pos <= p.2 <= bytes@.len() && p.1.wf() && dec_channel(
                bytes@.skip(pos as int),
            ) == Some(((p.0@, p.1.kv()), bytes@.skip(p.2 as int))),
            None => match dec_channel(bytes@.skip(pos as int)) {
                Some(pr) => !keys_unique(pr.0.1),
                None => true,
            },
        },
{
    let (name, p1) = match read_str(bytes, pos) {
        Some(p) => p,
        None => {
            return None;
        },
    };
    let (m, p2) = match read_u64(bytes, p1) {
        Some(p) => p,
        None => {
            return None;
        },
    };
    let mut cdb = ChannelDb::default();
    let mut j: u64 = 0;
    let mut cur = p2;
    proof {
        match dec_users(bytes@.skip(p2 as int), m as nat) {
            Some(p) => {
                assert(cdb.kv() + p.0 =~= p.0);
            },
            None => {},
        }
    }
    while j < m
        invariant
            j <= m,
            pos <= bytes@.len(),
            p2 <= cur <= bytes@.len(),
            cdb.wf(),
            dec_str(bytes@.skip(pos as int)) == Some((name@, bytes@.skip(p1 as int))),
            dec_u64(bytes@.skip(p1 as int)) == Some((m, bytes@.skip(p2 as int))),
            match dec_users(bytes@.skip(cur as int), (m - j) as nat) {
                Some(p) => dec_users(bytes@.skip(p2 as int), m as nat) == Some(
                    (cdb.kv() + p.0, p.1),
                ),
                None => dec_users(bytes@.skip(p2 as int), m as nat) is None,
            },
        decreases m - j,
    {
        let ghost pre_kv = cdb.kv();
        let (uname, q1) = match read_str(bytes, cur) {
            Some(p) => p,
            None => {
                proof {
                    assert(dec_user(bytes@.skip(cur as int)) is None);
                    assert(dec_users(bytes@.skip(cur as int), (m - j) as nat) is None);
                    assert(dec_channel(bytes@.skip(pos as int)) is None);
                }
                return None;
            },
        };
        let (val, q2) = match read_u64(bytes, q1) {
            Some(p) => p,
            None => {
                proof {
                    assert(dec_user(bytes@.skip(cur as int)) is None);
                    assert(dec_users(bytes@.skip(cur as int), (m - j) as nat) is None);
                    assert(dec_channel(bytes@.skip(pos as int)) is None);
                }
                return None;
            },
        };
        let ghost un = uname@;
        let ghost e = (un, val);
        proof {
            assert(dec_user(bytes@.skip(cur as int)) == Some((e, bytes@.skip(q2 as int))));
        }
        let ok = cdb.put_new(uname, val);
        if !ok {
            proof {
                crate::db::lemma_assoc_contains(pre_kv, un);
                let idx = choose|idx: int| 0 <= idx < pre_kv.len() && pre_kv[idx].0 == un;
                match dec_users(bytes@.skip(q2 as int), (m - j - 1) as nat) {
                    Some(p) => {
                        let full = pre_kv + (seq![e] + p.0);
                        assert(dec_users(bytes@.skip(cur as int), (m - j) as nat) == Some(
                            (seq![e] + p.0, p.1),
                        ));
                        assert(full[idx] == pre_kv[idx]);
                        assert(full[pre_kv.len() as int] == e);
                        assert(!keys_unique(full));
                        assert(pre_kv + (seq![e] + p.0) =~= cdb.kv() + (seq![e] + p.0));
                        assert(dec_users(bytes@.skip(p2 as int), m as nat) == Some((full, p.1)));
                        assert(dec_channel(bytes@.skip(pos as int)) == Some(
                            ((name@, full), p.1),
                        ));
                    },
                    None => {
                        assert(dec_users(bytes@.skip(cur as int), (m - j) as nat) is None);
                        assert(dec_channel(bytes@.skip(pos as int)) is None);
                    },
                }
            }
            return None;
        }
        proof {
            match dec_users(bytes@.skip(q2 as int), (m - j - 1) as nat) {
                Some(p) => {
                    assert(dec_users(bytes@.skip(cur as int), (m - j) as nat) == Some(
                        (seq![e] + p.0, p.1),
                    ));
                    assert(cdb.kv() + p.0 =~= pre_kv + (seq![e] + p.0));
                },
                None => {
                    assert(dec_users(bytes@.skip(cur as int), (m - j) as nat) is None);
                },
            }
        }
        j = j + 1;
        cur = q2;
    }
    proof {
        assert(dec_users(bytes@.skip(cur as int), 0) == Some(
            (Seq::<(Seq<char>, u64)>::empty(), bytes@.skip(cur as int)),
        ));
        assert(cdb.kv() + Seq::<(Seq<char>, u64)>::empty() =~= cdb.kv());
        assert(dec_users(bytes@.skip(p2 as int), m as nat) == Some(
            (cdb.kv(), bytes@.skip(cur as int)),
        ));
    }
    Some((name, cdb, cur))
}

/// The whole store, read back; `None` on anything the writer cannot have
/// produced.
#[verifier::rlimit(100)]
pub fn decode_db(bytes: &Vec<u8>) -> (r: Option<Db>)
    ensures
        match r {
            Some(db) => db.wf() && dec_db(bytes@) == Some(db.deep_kv()),
            None => dec_db(bytes@) is None,
        },
{
    proof {
        assert(bytes@.skip(0) =~= bytes@);
    }
    let (n, p0) = match read_u64(bytes, 0) {
        Some(p) => p,
        None => {
            return None;
        },
    };
    let ghost rest0 = bytes@.skip(p0 as int);
    let mut db = Db::default();
    let mut i: u64 = 0;
    let mut cur = p0;
    proof {
        match dec_channels(rest0, n as nat) {
            Some(p) => {
                assert(db.deep_kv() + p.0 =~= p.0);
            },
            None => {},
        }
    }
    while i < n
        invariant
            i <= n,
            p0 <= cur <= bytes@.len(),
            db.wf(),
            rest0 == bytes@.skip(p0 as int),
            dec_u64(bytes@) == Some((n, rest0)),
            match dec_channels(bytes@.skip(cur as int), (n - i) as nat) {
                Some(p) => dec_channels(rest0, n as nat) == Some((db.deep_kv() + p.0, p.1)),
                None => dec_channels(rest0, n as nat) is None,
            },
        decreases n - i,
    {
        let ghost pre_db = db;
        let ghost pre_deep = db.deep_kv();
        let (name, cdb, q) = match read_channel(bytes, cur) {
            Some(p) => p,
            None => {
                proof {
                    let t = bytes@.skip(cur as int);
                    match dec_channel(t) {
                        Some(pr) => {
                            match dec_channels(pr.1, (n - i - 1) as nat) {
                                Some(q2) => {
                                    assert(dec_channels(t, (n - i) as nat) == Some(
                                        (seq![pr.0] + q2.0, q2.1),
                                    ));
                                    match dec_channels(t, (n - i) as nat) {
                                        Some(p) => {
                                            let full = pre_deep + p.0;
                                            assert(p.0[0] == pr.0);
                                            assert(full[pre_deep.len() as int] == pr.0);
                                            assert(!snap_unique(full));
                                        },
                                        None => {},
                                    }
                                },
                                None => {
                                    assert(dec_channels(t, (n - i) as nat) is None);
                                },
                            }
                        },
                        None => {
                            assert(dec_channels(t, (n - i) as nat) is None);
                        },
                    }
                }
                return None;
            },
        };
        let ghost nm = name@;
        let ghost ckv = cdb.kv();
        let ghost c = (nm, ckv);
        proof {
            assert(dec_channel(bytes@.skip(cur as int)) == Some((c, bytes@.skip(q as int))));
        }
        let ok = db.put_new_channel(name, cdb);
        if !ok {
            proof {
                pre_db.lemma_deep_kv();
                crate::db::lemma_assoc_contains(pre_db.kv(), nm);
                let kidx = choose|kidx: int|
                    0 <= kidx < pre_db.kv().len() && pre_db.kv()[kidx].0 == nm;
                assert(pre_db.kv()[kidx].0 == pre_deep[kidx].0);
                match dec_channels(bytes@.skip(q as int), (n - i - 1) as nat) {
                    Some(p) => {
                        let full = pre_deep + (seq![c] + p.0);
                        assert(dec_channels(bytes@.skip(cur as int), (n - i) as nat) == Some(
                            (seq![c] + p.0, p.1),
                        ));
                        assert(full[kidx] == pre_deep[kidx]);
                        assert(full[pre_deep.len() as int] == c);
                        assert(!keys_unique(full));
                        assert(pre_deep + (seq![c] + p.0) =~= db.deep_kv() + (seq![c] + p.0));
                        assert(dec_channels(rest0, n as nat) == Some((full, p.1)));
                    },
                    None => {
                        assert(dec_channels(bytes@.skip(cur as int), (n - i) as nat) is None);
                    },
                }
            }
            return None;
        }
        proof {
            match dec_channels(bytes@.skip(q as int), (n - i - 1) as nat) {
                Some(p) => {
                    assert(dec_channels(bytes@.skip(cur as int), (n - i) as nat) == Some(
                        (seq![c] + p.0, p.1),
                    ));
                    assert(db.deep_kv() + p.0 =~= pre_deep + (seq![c] + p.0));
                },
                None => {
                    assert(dec_channels(bytes@.skip(cur as int), (n - i) as nat) is None);
                },
            }
        }
        i = i + 1;
        cur = q;
    }
    proof {
        assert(dec_channels(bytes@.skip(cur as int), 0) == Some(
            (Seq::<SnapChannel>::empty(), bytes@.skip(cur as int)),
        ));
        assert(db.deep_kv() + Seq::<SnapChannel>::empty() =~= db.deep_kv());
        assert(dec_channels(rest0, n as nat) == Some((db.deep_kv(), bytes@.skip(cur as int))));
    }
    if cur != bytes.len() {
        proof {
            assert(bytes@.skip(cur as int).len() > 0);
        }
        return None;
    }
    proof {
        assert(bytes@.skip(cur as int).len() == 0);
        let d = db.deep_kv();
        db.lemma_deep_kv();
        assert forall|ii: int, jj: int| 0 <= ii < jj < d.len() implies d[ii].0 != d[jj].0 by {
            assert(db.kv()[ii].0 == d[ii].0);
            assert(db.kv()[jj].0 == d[jj].0);
        }
        assert forall|ii: int| 0 <= ii < d.len() implies keys_unique((#[trigger] d[ii]).1) by {
            assert(db.kv()[ii].0 == d[ii].0);
            assert(db.chans()[ii].kv() == d[ii].1);
            assert(db.chans()[ii].wf());
        }
        assert(snap_unique(d));
    }
    Some(db)
}

} // verus!
