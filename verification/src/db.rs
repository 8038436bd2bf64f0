//! The two-level store: a map from channel name to per-channel store, and a
//! per-channel map from user id to counter.
//!
//! Both levels are association lists with unique keys, viewed as maps from
//! character sequences to their contents. Absent keys read as zero; entries,
//! once created, are never removed.

use vstd::prelude::*;
use crate::atomic::{Atomic, AtomicU64};

verus! {

/// True when no key occurs twice in the association sequence.
pub open spec fn keys_unique<V>(s: Seq<(Seq<char>, V)>) -> bool {
    forall|i: int, j: int| 0 <= i < j < s.len() ==> s[i].0 != s[j].0
}

/// The map that an association sequence spells, later entries overriding
/// earlier ones.
pub open spec fn assoc_to_map<V>(s: Seq<(Seq<char>, V)>) -> Map<Seq<char>, V>
    decreases s.len(),
{
    if s.len() == 0 {
        Map::empty()
    } else {
        assoc_to_map(s.drop_last()).insert(s.last().0, s.last().1)
    }
}

/// A key is in the map exactly when some entry carries it.
pub proof fn lemma_assoc_contains<V>(s: Seq<(Seq<char>, V)>, k: Seq<char>)
    ensures
        assoc_to_map(s).contains_key(k) <==> exists|i: int| 0 <= i < s.len() && s[i].0 == k,
    decreases s.len(),
{
    if s.len() > 0 {
        lemma_assoc_contains(s.drop_last(), k);
        if s.last().0 == k {
            assert(s[s.len() - 1].0 == k);
        } else if exists|i: int| 0 <= i < s.len() && s[i].0 == k {
            let i = choose|i: int| 0 <= i < s.len() && s[i].0 == k;
            assert(s.drop_last()[i] == s[i]);
        }
    }
}

/// With unique keys, the map reads each entry's value at its key.
pub proof fn lemma_assoc_at<V>(s: Seq<(Seq<char>, V)>, i: int)
    requires
        keys_unique(s),
        0 <= i < s.len(),
    ensures
        assoc_to_map(s).contains_key(s[i].0),
        assoc_to_map(s)[s[i].0] == s[i].1,
    decreases s.len(),
{
    if i == s.len() - 1 {
    } else {
        assert(s.drop_last()[i] == s[i]);
        lemma_assoc_at(s.drop_last(), i);
    }
}

/// Appending a fresh entry inserts its pair into the map.
pub proof fn lemma_assoc_push<V>(s: Seq<(Seq<char>, V)>, k: Seq<char>, v: V)
    ensures
        assoc_to_map(s.push((k, v))) == assoc_to_map(s).insert(k, v),
{
    assert(s.push((k, v)).drop_last() =~= s);
    assert(s.push((k, v)).last() == (k, v));
}

/// Overwriting the value at an entry inserts the new value at its key.
pub proof fn lemma_assoc_update<V>(s: Seq<(Seq<char>, V)>, i: int, v: V)
    requires
        keys_unique(s),
        0 <= i < s.len(),
    ensures
        assoc_to_map(s.update(i, (s[i].0, v))) == assoc_to_map(s).insert(s[i].0, v),
    decreases s.len(),
{
    let k = s[i].0;
    let t = s.update(i, (k, v));
    if i == s.len() - 1 {
        assert(t.drop_last() =~= s.drop_last());
        assert(assoc_to_map(t) =~= assoc_to_map(s).insert(k, v));
    } else {
        assert(t.drop_last() =~= s.drop_last().update(i, (k, v)));
        assert(s.drop_last()[i] == s[i]);
        lemma_assoc_update(s.drop_last(), i, v);
        assert(t.last() == s.last());
        assert(k != s.last().0);
        assert(assoc_to_map(t) =~= assoc_to_map(s).insert(k, v));
    }
}

/// The balance a channel map holds for a user: the entry's value, or zero for
/// a user never seen.
pub open spec fn points_of(m: Map<Seq<char>, u64>, k: Seq<char>) -> u64 {
    if m.contains_key(k) {
        m[k]
    } else {
        0
    }
}

/// The channel map a store holds for a channel name, or the empty map for a
/// channel never seen.
pub open spec fn chan_of(m: Map<Seq<char>, Map<Seq<char>, u64>>, ch: Seq<char>) -> Map<
    Seq<char>,
    u64,
> {
    if m.contains_key(ch) {
        m[ch]
    } else {
        Map::empty()
    }
}

/// The balance a store holds for a user in a channel.
pub open spec fn pts(m: Map<Seq<char>, Map<Seq<char>, u64>>, ch: Seq<char>, u: Seq<char>) -> u64 {
    points_of(chan_of(m, ch), u)
}

/// A store map with the named channel present, created empty when absent.
pub open spec fn ensure_channel(m: Map<Seq<char>, Map<Seq<char>, u64>>, ch: Seq<char>) -> Map<
    Seq<char>,
    Map<Seq<char>, u64>,
> {
    if m.contains_key(ch) {
        m
    } else {
        m.insert(ch, Map::empty())
    }
}

/// A channel map with the named user present, created at zero when absent.
pub open spec fn ensure_user(cm: Map<Seq<char>, u64>, u: Seq<char>) -> Map<Seq<char>, u64> {
    if cm.contains_key(u) {
        cm
    } else {
        cm.insert(u, 0)
    }
}

/// One channel's store: user id to counter.
pub struct ChannelDb {
    map: Vec<(String, AtomicU64)>,
}

impl ChannelDb {
    /// The entries as (key view, balance) pairs, in insertion order.
    pub closed spec fn kv(self) -> Seq<(Seq<char>, u64)> {
        self.map@.map(|i: int, e: (String, AtomicU64)| (e.0@, e.1@))
    }

    /// No user id occurs twice.
    pub open spec fn wf(self) -> bool {
        keys_unique(self.kv())
    }
}

impl View for ChannelDb {
    type V = Map<Seq<char>, u64>;

    open spec fn view(&self) -> Map<Seq<char>, u64> {
        assoc_to_map(self.kv())
    }
}

impl Default for ChannelDb {
    /// An empty channel store.
    fn default() -> (r: ChannelDb)
        ensures
            r.wf(),
            r@ == Map::<Seq<char>, u64>::empty(),
            r.kv() == Seq::<(Seq<char>, u64)>::empty(),
    {
        let r = ChannelDb { map: Vec::new() };
        proof {
            assert(r.kv() =~= Seq::<(Seq<char>, u64)>::empty());
        }
        r
    }
}

impl ChannelDb {
    /// The position of a user's entry, if the user has one.
    fn find(&self, key: &String) -> (r: Option<usize>)
        ensures
            match r {
                Some(i) => i < self.map@.len() && self.kv()[i as int].0 == key@,
                None => forall|j: int| 0 <= j < self.kv().len() ==> self.kv()[j].0 != key@,
            },
    {
        let mut i: usize = 0;
        while i < self.map.len()
            invariant
                i <= self.map@.len(),
                forall|j: int| 0 <= j < i ==> self.kv()[j].0 != key@,
            decreases self.map@.len() - i,
        {
            if self.map[i].0 == *key {
                return Some(i);
            }
            i = i + 1;
        }
        None
    }

    /// The user's current balance, zero for a user never seen; creates no
    /// entry.
    pub fn get(&self, key: &str) -> (r: u64)
        requires
            self.wf(),
        ensures
            r == points_of(self@, key@),
    {
        let k = key.to_owned();
        match self.find(&k) {
            Some(i) => {
                proof {
                    lemma_assoc_at(self.kv(), i as int);
                }
                self.map[i].1.get()
            },
            None => {
                proof {
                    lemma_assoc_contains(self.kv(), key@);
                }
                0
            },
        }
    }

    /// Resolve-or-create the user's counter and install `f(current, value)`,
    /// except that a zero operand reads the balance without touching the
    /// store.
    pub fn update_infallible<F: Fn(u64, u64) -> u64>(&mut self, key: &str, value: u64, f: F) -> (r:
        u64)
        requires
            old(self).wf(),
            call_requires(f, (points_of(old(self)@, key@), value)),
        ensures
            final(self).wf(),
            value == 0 ==> r == points_of(old(self)@, key@) && final(self)@ == old(self)@,
            value != 0 ==> call_ensures(f, (points_of(old(self)@, key@), value), r) && final(
                self)@ == old(self)@.insert(key@, r),
    {
        if value == 0 {
            return self.get(key);
        }
        let k = key.to_owned();
        match self.find(&k) {
            Some(i) => {
                proof {
                    lemma_assoc_at(self.kv(), i as int);
                }
                let r = self.map[i].1.update_infallible(value, f);
                proof {
                    assert(self.kv() =~= old(self).kv().update(
                        i as int,
                        (old(self).kv()[i as int].0, r),
                    ));
                    lemma_assoc_update(old(self).kv(), i as int, r);
                }
                r
            },
            None => {
                proof {
                    lemma_assoc_contains(self.kv(), key@);
                }
                let fresh = AtomicU64::default();
                self.map.push((k, fresh));
                let n = self.map.len() - 1;
                proof {
                    assert(self.kv() =~= old(self).kv().push((key@, 0u64)));
                    lemma_assoc_push(old(self).kv(), key@, 0u64);
                }
                let ghost mid = self.kv();
                let r = self.map[n].1.update_infallible(value, f);
                proof {
                    assert(self.kv() =~= mid.update(n as int, (mid[n as int].0, r)));
                    lemma_assoc_update(mid, n as int, r);
                    assert(self@ =~= old(self)@.insert(key@, r));
                }
                r
            },
        }
    }

    /// Resolve-or-create the user's counter and install `f(current, value)`
    /// when `f` accepts the current balance; a refusal leaves the balance
    /// unchanged, and a zero operand reads the balance without touching the
    /// store.
    pub fn update_fallible<F: Fn(u64, u64) -> Option<u64>>(
        &mut self,
        key: &str,
        value: u64,
        f: F,
    ) -> (r: Option<u64>)
        requires
            old(self).wf(),
            call_requires(f, (points_of(old(self)@, key@), value)),
        ensures
            final(self).wf(),
            value == 0 ==> r == Some(points_of(old(self)@, key@)) && final(self)@ == old(self)@,
            value != 0 ==> call_ensures(f, (points_of(old(self)@, key@), value), r) && match r {
                Some(v) => final(self)@ == old(self)@.insert(key@, v),
                None => final(self)@ == ensure_user(old(self)@, key@),
            },
    {
        if value == 0 {
            return Some(self.get(key));
        }
        let k = key.to_owned();
        match self.find(&k) {
            Some(i) => {
                proof {
                    lemma_assoc_at(self.kv(), i as int);
                }
                let r = self.map[i].1.update_fallible(value, f);
                proof {
                    match r {
                        Some(v) => {
                            assert(self.kv() =~= old(self).kv().update(
                                i as int,
                                (old(self).kv()[i as int].0, v),
                            ));
                            lemma_assoc_update(old(self).kv(), i as int, v);
                        },
                        None => {
                            assert(self.kv() =~= old(self).kv());
                            assert(self@ =~= ensure_user(old(self)@, key@));
                        },
                    }
                }
                r
            },
            None => {
                proof {
                    lemma_assoc_contains(self.kv(), key@);
                }
                let fresh = AtomicU64::default();
                self.map.push((k, fresh));
                let n = self.map.len() - 1;
                proof {
                    assert(self.kv() =~= old(self).kv().push((key@, 0u64)));
                    lemma_assoc_push(old(self).kv(), key@, 0u64);
                }
                let ghost mid = self.kv();
                let r = self.map[n].1.update_fallible(value, f);
                proof {
                    match r {
                        Some(v) => {
                            assert(self.kv() =~= mid.update(n as int, (mid[n as int].0, v)));
                            lemma_assoc_update(mid, n as int, v);
                            assert(self@ =~= old(self)@.insert(key@, v));
                        },
                        None => {
                            assert(self.kv() =~= mid);
                            assert(self@ =~= ensure_user(old(self)@, key@));
                        },
                    }
                }
                r
            },
        }
    }
}

impl ChannelDb {
    /// How many users have an entry.
    pub fn num_users(&self) -> (r: usize)
        ensures
            r == self.kv().len(),
    {
        self.map.len()
    }

    /// The user id of the entry at `i`.
    pub fn user_name_at(&self, i: usize) -> (r: &String)
        requires
            i < self.kv().len(),
        ensures
            r@ == self.kv()[i as int].0,
    {
        &self.map[i].0
    }

    /// The balance of the entry at `i`.
    pub fn user_value_at(&self, i: usize) -> (r: u64)
        requires
            i < self.kv().len(),
        ensures
            r == self.kv()[i as int].1,
    {
        self.map[i].1.get()
    }

    /// Appends a user with a starting balance, refusing an id already
    /// present.
    pub fn put_new(&mut self, key: String, value: u64) -> (r: bool)
        requires
            old(self).wf(),
        ensures
            final(self).wf(),
            r == !old(self)@.contains_key(key@),
            r ==> final(self).kv() == old(self).kv().push((key@, value)),
            !r ==> final(self).kv() == old(self).kv(),
    {
        proof {
            lemma_assoc_contains(self.kv(), key@);
        }
        match self.find(&key) {
            Some(_) => false,
            None => {
                let ghost k = key@;
                let fresh = AtomicU64::new(value);
                self.map.push((key, fresh));
                proof {
                    assert(self.kv() =~= old(self).kv().push((k, value)));
                }
                true
            },
        }
    }
}

/// The whole store: channel name to channel store.
pub struct Db {
    map: Vec<(String, ChannelDb)>,
}

impl Db {
    /// The entries as (key view, channel map) pairs, in insertion order.
    pub closed spec fn kv(self) -> Seq<(Seq<char>, Map<Seq<char>, u64>)> {
        self.map@.map(|i: int, e: (String, ChannelDb)| (e.0@, e.1@))
    }

    /// No channel name occurs twice, and every channel store is well formed.
    pub open spec fn wf(self) -> bool {
        keys_unique(self.kv()) && (forall|i: int|
            0 <= i < self.chans().len() ==> (#[trigger] self.chans()[i]).wf())
    }

    /// The channel stores themselves, in insertion order.
    pub closed spec fn chans(self) -> Seq<ChannelDb> {
        self.map@.map(|i: int, e: (String, ChannelDb)| e.1)
    }
}

impl View for Db {
    type V = Map<Seq<char>, Map<Seq<char>, u64>>;

    open spec fn view(&self) -> Map<Seq<char>, Map<Seq<char>, u64>> {
        assoc_to_map(self.kv())
    }
}

impl Default for Db {
    /// An empty store.
    fn default() -> (r: Db)
        ensures
            r.wf(),
            r@ == Map::<Seq<char>, Map<Seq<char>, u64>>::empty(),
            r.deep_kv() == Seq::<(Seq<char>, Seq<(Seq<char>, u64)>)>::empty(),
    {
        let r = Db { map: Vec::new() };
        proof {
            assert(r.kv() =~= Seq::<(Seq<char>, Map<Seq<char>, u64>)>::empty());
            assert(r.deep_kv() =~= Seq::<(Seq<char>, Seq<(Seq<char>, u64)>)>::empty());
        }
        r
    }
}

impl Db {
    /// The position of a channel's entry, if the channel has one.
    fn find(&self, key: &String) -> (r: Option<usize>)
        ensures
            match r {
                Some(i) => i < self.map@.len() && self.kv()[i as int].0 == key@,
                None => forall|j: int| 0 <= j < self.kv().len() ==> self.kv()[j].0 != key@,
            },
    {
        let mut i: usize = 0;
        while i < self.map.len()
            invariant
                i <= self.map@.len(),
                forall|j: int| 0 <= j < i ==> self.kv()[j].0 != key@,
            decreases self.map@.len() - i,
        {
            if self.map[i].0 == *key {
                return Some(i);
            }
            i = i + 1;
        }
        None
    }

    /// Resolve-or-create the named channel's store.
    pub fn channel_db(&mut self, key: &str)
        requires
            old(self).wf(),
        ensures
            final(self).wf(),
            final(self)@ == ensure_channel(old(self)@, key@),
            final(self)@.contains_key(key@),
    {
        let k = key.to_owned();
        match self.find(&k) {
            Some(i) => {
                proof {
                    lemma_assoc_at(self.kv(), i as int);
                    lemma_assoc_contains(self.kv(), key@);
                }
            },
            None => {
                proof {
                    lemma_assoc_contains(self.kv(), key@);
                }
                let fresh = ChannelDb::default();
                let ghost gfresh = fresh;
                self.map.push((k, fresh));
                proof {
                    assert(self.kv() =~= old(self).kv().push(
                        (key@, Map::<Seq<char>, u64>::empty()),
                    ));
                    assert(self.chans() =~= old(self).chans().push(gfresh));
                    lemma_assoc_push(old(self).kv(), key@, Map::<Seq<char>, u64>::empty());
                    lemma_assoc_contains(self.kv(), key@);
                }
            },
        }
    }

    /// The user's balance in the channel, zero when either is unknown;
    /// creates no entry.
    pub fn get(&self, channel: &str, user: &str) -> (r: u64)
        requires
            self.wf(),
        ensures
            r == pts(self@, channel@, user@),
    {
        let ch = channel.to_owned();
        match self.find(&ch) {
            Some(i) => {
                proof {
                    lemma_assoc_at(self.kv(), i as int);
                    assert(self.chans()[i as int] == self.map@[i as int].1);
                }
                self.map[i].1.get(user)
            },
            None => {
                proof {
                    lemma_assoc_contains(self.kv(), channel@);
                }
                0
            },
        }
    }

    /// Resolve-or-create the channel, then update the user's counter there as
    /// [`ChannelDb::update_infallible`] does.
    pub fn update_infallible<F: Fn(u64, u64) -> u64>(
        &mut self,
        channel: &str,
        user: &str,
        value: u64,
        f: F,
    ) -> (r: u64)
        requires
            old(self).wf(),
            call_requires(f, (pts(old(self)@, channel@, user@), value)),
        ensures
            final(self).wf(),
            value == 0 ==> r == pts(old(self)@, channel@, user@) && final(self)@ == ensure_channel(
                old(self)@,
                channel@,
            ),
            value != 0 ==> call_ensures(f, (pts(old(self)@, channel@, user@), value), r) && final(
                self)@ == old(self)@.insert(channel@, chan_of(old(self)@, channel@).insert(user@, r)),
    {
        self.channel_db(channel);
        let ch = channel.to_owned();
        let i = match self.find(&ch) {
            Some(i) => i,
            None => {
                proof {
                    lemma_assoc_contains(self.kv(), channel@);
                }
                unreached()
            },
        };
        let ghost mid = self.kv();
        let ghost mid_chans = self.chans();
        proof {
            lemma_assoc_at(mid, i as int);
            assert(mid[i as int] == (self.map@[i as int].0@, self.map@[i as int].1@));
            assert(mid_chans[i as int] == self.map@[i as int].1);
            assert(chan_of(ensure_channel(old(self)@, channel@), channel@) =~= chan_of(
                old(self)@,
                channel@,
            ));
        }
        let r = self.map[i].1.update_infallible(user, value, f);
        proof {
            assert(self.kv() =~= mid.update(i as int, (mid[i as int].0, self.map@[i as int].1@)));
            assert(self.chans() =~= mid_chans.update(i as int, self.map@[i as int].1));
            lemma_assoc_update(mid, i as int, self.map@[i as int].1@);
            assert forall|j: int| 0 <= j < self.chans().len() implies (#[trigger] self.chans()[j]).wf() by {
                if j != i as int {
                    assert(self.chans()[j] == mid_chans[j]);
                }
            }
            if value == 0 {
                assert(self@ =~= ensure_channel(old(self)@, channel@));
            } else {
                assert(self@ =~= old(self)@.insert(
                    channel@,
                    chan_of(old(self)@, channel@).insert(user@, r),
                ));
            }
        }
        r
    }

    /// Resolve-or-create the channel, then update the user's counter there as
    /// [`ChannelDb::update_fallible`] does.
    pub fn update_fallible<F: Fn(u64, u64) -> Option<u64>>(
        &mut self,
        channel: &str,
        user: &str,
        value: u64,
        f: F,
    ) -> (r: Option<u64>)
        requires
            old(self).wf(),
            call_requires(f, (pts(old(self)@, channel@, user@), value)),
        ensures
            final(self).wf(),
            value == 0 ==> r == Some(pts(old(self)@, channel@, user@)) && final(self)@
                == ensure_channel(old(self)@, channel@),
            value != 0 ==> call_ensures(f, (pts(old(self)@, channel@, user@), value), r) && match r {
                Some(v) => final(self)@ == old(self)@.insert(
                    channel@,
                    chan_of(old(self)@, channel@).insert(user@, v),
                ),
                None => final(self)@ == old(self)@.insert(
                    channel@,
                    ensure_user(chan_of(old(self)@, channel@), user@),
                ),
            },
    {
        self.channel_db(channel);
        let ch = channel.to_owned();
        let i = match self.find(&ch) {
            Some(i) => i,
            None => {
                proof {
                    lemma_assoc_contains(self.kv(), channel@);
                }
                unreached()
            },
        };
        let ghost mid = self.kv();
        let ghost mid_chans = self.chans();
        proof {
            lemma_assoc_at(mid, i as int);
            assert(mid[i as int] == (self.map@[i as int].0@, self.map@[i as int].1@));
            assert(mid_chans[i as int] == self.map@[i as int].1);
            assert(chan_of(ensure_channel(old(self)@, channel@), channel@) =~= chan_of(
                old(self)@,
                channel@,
            ));
        }
        let r = self.map[i].1.update_fallible(user, value, f);
        proof {
            assert(self.kv() =~= mid.update(i as int, (mid[i as int].0, self.map@[i as int].1@)));
            assert(self.chans() =~= mid_chans.update(i as int, self.map@[i as int].1));
            lemma_assoc_update(mid, i as int, self.map@[i as int].1@);
            assert forall|j: int| 0 <= j < self.chans().len() implies (#[trigger] self.chans()[j]).wf() by {
                if j != i as int {
                    assert(self.chans()[j] == mid_chans[j]);
                }
            }
            if value == 0 {
                assert(self@ =~= ensure_channel(old(self)@, channel@));
            } else {
                match r {
                    Some(v) => {
                        assert(self@ =~= old(self)@.insert(
                            channel@,
                            chan_of(old(self)@, channel@).insert(user@, v),
                        ));
                    },
                    None => {
                        assert(self@ =~= old(self)@.insert(
                            channel@,
                            ensure_user(chan_of(old(self)@, channel@), user@),
                        ));
                    },
                }
            }
        }
        r
    }
}

impl Db {
    /// The entries down to the user level: channel name, then the channel's
    /// (user, balance) pairs, all in insertion order.
    pub closed spec fn deep_kv(self) -> Seq<(Seq<char>, Seq<(Seq<char>, u64)>)> {
        self.map@.map(|i: int, e: (String, ChannelDb)| (e.0@, e.1.kv()))
    }

    /// How the flat views read off the deep one.
    pub proof fn lemma_deep_kv(self)
        ensures
            self.deep_kv().len() == self.kv().len(),
            self.deep_kv().len() == self.chans().len(),
            forall|i: int|
                0 <= i < self.deep_kv().len() ==> (#[trigger] self.kv()[i]).0 == self.deep_kv()[
                    i
                ].0 && self.kv()[i].1 == assoc_to_map(self.deep_kv()[i].1) && self.chans()[i].kv()
                    == self.deep_kv()[i].1,
    {
        assert forall|i: int| 0 <= i < self.deep_kv().len() implies (#[trigger] self.kv()[i]).0
            == self.deep_kv()[i].0 && self.kv()[i].1 == assoc_to_map(self.deep_kv()[i].1)
            && self.chans()[i].kv() == self.deep_kv()[i].1 by {
            assert(self.kv()[i] == (self.map@[i].0@, self.map@[i].1@));
            assert(self.deep_kv()[i] == (self.map@[i].0@, self.map@[i].1.kv()));
            assert(self.chans()[i] == self.map@[i].1);
        }
    }

    /// How many channels have an entry.
    pub fn num_channels(&self) -> (r: usize)
        ensures
            r == self.deep_kv().len(),
    {
        proof {
            self.lemma_deep_kv();
        }
        self.map.len()
    }

    /// The channel name of the entry at `i`.
    pub fn channel_name_at(&self, i: usize) -> (r: &String)
        requires
            i < self.deep_kv().len(),
        ensures
            r@ == self.deep_kv()[i as int].0,
    {
        proof {
            self.lemma_deep_kv();
        }
        &self.map[i].0
    }

    /// The channel store of the entry at `i`.
    pub fn channel_at(&self, i: usize) -> (r: &ChannelDb)
        requires
            i < self.deep_kv().len(),
        ensures
            r.kv() == self.deep_kv()[i as int].1,
            self.wf() ==> r.wf(),
    {
        proof {
            self.lemma_deep_kv();
            assert(self.chans()[i as int] == self.map@[i as int].1);
        }
        &self.map[i].1
    }

    /// Appends a whole channel store under a name, refusing a name already
    /// present.
    pub fn put_new_channel(&mut self, key: String, channel: ChannelDb) -> (r: bool)
        requires
            old(self).wf(),
            channel.wf(),
        ensures
            final(self).wf(),
            r == !old(self)@.contains_key(key@),
            r ==> final(self).deep_kv() == old(self).deep_kv().push((key@, channel.kv())),
            !r ==> final(self).deep_kv() == old(self).deep_kv(),
    {
        proof {
            lemma_assoc_contains(self.kv(), key@);
        }
        match self.find(&key) {
            Some(_) => {
                proof {
                    self.lemma_deep_kv();
                }
                false
            },
            None => {
                let ghost k = key@;
                let ghost ckv = channel.kv();
                let ghost gchan = channel;
                self.map.push((key, channel));
                proof {
                    assert(self.kv() =~= old(self).kv().push((k, assoc_to_map(ckv))));
                    assert(self.chans() =~= old(self).chans().push(gchan));
                    assert(self.deep_kv() =~= old(self).deep_kv().push((k, ckv)));
                }
                true
            },
        }
    }
}

} // verus!
