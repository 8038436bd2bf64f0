//! The per-connection protocol state machine: which requests a connection
//! may issue in which state, what each does to the store, and which response
//! it gets back.
//!
//! A connection starts `Connecting` and may move exactly once, by a valid
//! `Connect`, to `Connected`; the transition is one-way. Every other
//! ordering is a protocol error that ends the connection.

use vstd::prelude::*;
use crate::atomic::{
    checked_sub, saturating_add, saturating_sub, spec_checked_sub, spec_sat_add, spec_sat_sub,
};
use crate::codec::{Request, Response};
use crate::db::{chan_of, ensure_channel, ensure_user, points_of, pts, Db};

verus! {

/// A connection's identity: its address, and after the handshake its
/// channel.
pub enum Id {
    Connecting(String),
    Connected { addr: String, channel: String },
}

/// The identity as the contracts see it.
pub enum IdView {
    Connecting { addr: Seq<char> },
    Connected { addr: Seq<char>, channel: Seq<char> },
}

impl View for Id {
    type V = IdView;

    open spec fn view(&self) -> IdView {
        match self {
            Id::Connecting(addr) => IdView::Connecting { addr: addr@ },
            Id::Connected { addr, channel } => IdView::Connected {
                addr: addr@,
                channel: channel@,
            },
        }
    }
}

/// Why a request was refused outright; each of these ends the connection.
#[derive(Clone, Copy, Debug, PartialEq, Eq, Structural)]
pub enum SessionError {
    /// A second `Connect` on a connection already bound to a channel.
    AlreadyConnected,
    /// Any other request before a successful `Connect`.
    NotConnected,
}

/// The magnitude of a bulk edit's signed delta.
pub open spec fn bulk_delta(points: i32) -> u64 {
    if points >= 0 {
        points as u64
    } else {
        (-(points as int)) as u64
    }
}

/// One user's share of a bulk edit: saturating add for a positive delta,
/// saturating subtract for a negative one, nothing for zero.
pub open spec fn bulk_apply_one(cm: Map<Seq<char>, u64>, user: Seq<char>, points: i32) -> Map<
    Seq<char>,
    u64,
> {
    if points > 0 {
        cm.insert(user, spec_sat_add(points_of(cm, user), bulk_delta(points)))
    } else if points < 0 {
        cm.insert(user, spec_sat_sub(points_of(cm, user), bulk_delta(points)))
    } else {
        cm
    }
}

/// A bulk edit applied to the listed users in order, duplicates applying
/// repeatedly.
pub open spec fn bulk_apply(cm: Map<Seq<char>, u64>, users: Seq<Seq<char>>, points: i32) -> Map<
    Seq<char>,
    u64,
>
    decreases users.len(),
{
    if users.len() == 0 {
        cm
    } else {
        bulk_apply(bulk_apply_one(cm, users[0], points), users.drop_first(), points)
    }
}

/// Applying a bulk edit to one more user applies it to that user last.
pub proof fn lemma_bulk_apply_snoc(
    cm: Map<Seq<char>, u64>,
    users: Seq<Seq<char>>,
    u: Seq<char>,
    points: i32,
)
    ensures
        bulk_apply(cm, users.push(u), points) == bulk_apply_one(
            bulk_apply(cm, users, points),
            u,
            points,
        ),
    decreases users.len(),
{
    if users.len() == 0 {
        assert(users.push(u)[0] == u);
        assert(users.push(u).drop_first() =~= Seq::<Seq<char>>::empty());
        assert(bulk_apply(cm, users.push(u), points) == bulk_apply(
            bulk_apply_one(cm, u, points),
            users.push(u).drop_first(),
            points,
        ));
        assert(bulk_apply(bulk_apply_one(cm, u, points), Seq::<Seq<char>>::empty(), points)
            == bulk_apply_one(cm, u, points));
        assert(bulk_apply(cm, users, points) == cm);
    } else {
        assert(users.push(u)[0] == users[0]);
        assert(users.push(u).drop_first() =~= users.drop_first().push(u));
        assert(bulk_apply(cm, users.push(u), points) == bulk_apply(
            bulk_apply_one(cm, users[0], points),
            users.drop_first().push(u),
            points,
        ));
        lemma_bulk_apply_snoc(bulk_apply_one(cm, users[0], points), users.drop_first(), u, points);
        assert(bulk_apply(cm, users, points) == bulk_apply(
            bulk_apply_one(cm, users[0], points),
            users.drop_first(),
            points,
        ));
    }
}

/// What one `Add` does to the store: the user's balance becomes the
/// saturating sum; an amount of zero only resolves the channel.
pub open spec fn add_effect(
    m: Map<Seq<char>, Map<Seq<char>, u64>>,
    ch: Seq<char>,
    u: Seq<char>,
    points: u64,
) -> Map<Seq<char>, Map<Seq<char>, u64>> {
    if points == 0 {
        ensure_channel(m, ch)
    } else {
        m.insert(ch, chan_of(m, ch).insert(u, spec_sat_add(pts(m, ch, u), points)))
    }
}

/// Everything one request does: how it moves the session's identity, what
/// it does to the store, and which response or error it yields.
pub open spec fn req_effect(
    pre_id: IdView,
    pre_db: Map<Seq<char>, Map<Seq<char>, u64>>,
    post_id: IdView,
    post_db: Map<Seq<char>, Map<Seq<char>, u64>>,
    request: Request,
    r: Result<Option<Response>, SessionError>,
) -> bool {
    match pre_id {
        IdView::Connecting { addr } => match request {
            Request::Connect { channel } => {
                &&& r == Ok::<Option<Response>, SessionError>(None)
                &&& post_id == (IdView::Connected { addr, channel: channel@ })
                &&& post_db == ensure_channel(pre_db, channel@)
            },
            _ => {
                &&& r == Err::<Option<Response>, SessionError>(SessionError::NotConnected)
                &&& post_id == pre_id
                &&& post_db == pre_db
            },
        },
        IdView::Connected { addr: _, channel } => match request {
            Request::Connect { .. } => {
                &&& r == Err::<Option<Response>, SessionError>(SessionError::AlreadyConnected)
                &&& post_id == pre_id
                &&& post_db == pre_db
            },
            Request::Get { user } => {
                &&& r == Ok::<Option<Response>, SessionError>(
                    Some(Response::U64(pts(pre_db, channel, user@))),
                )
                &&& post_id == pre_id
                &&& post_db == pre_db
            },
            Request::BulkEdit { users, points } => {
                &&& r == Ok::<Option<Response>, SessionError>(None)
                &&& post_id == pre_id
                &&& (points == 0 || users@.len() == 0) ==> post_db == pre_db
                &&& (points != 0 && users@.len() > 0) ==> post_db == pre_db.insert(
                    channel,
                    bulk_apply(chan_of(pre_db, channel), users.deep_view(), points),
                )
            },
            Request::Add { user, points } => {
                let cur = pts(pre_db, channel, user@);
                let newv = spec_sat_add(cur, points);
                &&& r == Ok::<Option<Response>, SessionError>(
                    Some(Response::ResultU64((true, newv))),
                )
                &&& post_id == pre_id
                &&& post_db == add_effect(pre_db, channel, user@, points)
            },
            Request::Remove { user, points, force } => {
                let cur = pts(pre_db, channel, user@);
                &&& post_id == pre_id
                &&& if force {
                    let newv = spec_sat_sub(cur, points);
                    &&& r == Ok::<Option<Response>, SessionError>(
                        Some(Response::ResultU64((true, newv))),
                    )
                    &&& (points == 0 ==> post_db == ensure_channel(pre_db, channel))
                    &&& (points != 0 ==> post_db == pre_db.insert(
                        channel,
                        chan_of(pre_db, channel).insert(user@, newv),
                    ))
                } else if points <= cur {
                    &&& r == Ok::<Option<Response>, SessionError>(
                        Some(Response::ResultU64((true, (cur - points) as u64))),
                    )
                    &&& (points == 0 ==> post_db == ensure_channel(pre_db, channel))
                    &&& (points != 0 ==> post_db == pre_db.insert(
                        channel,
                        chan_of(pre_db, channel).insert(user@, (cur - points) as u64),
                    ))
                } else {
                    &&& r == Ok::<Option<Response>, SessionError>(
                        Some(Response::ResultU64((false, cur))),
                    )
                    &&& post_db == pre_db.insert(
                        channel,
                        ensure_user(chan_of(pre_db, channel), user@),
                    )
                }
            },
        },
    }
}

/// One connection's state machine.
pub struct Session {
    id: Id,
}

impl View for Session {
    type V = IdView;

    closed spec fn view(&self) -> IdView {
        self.id@
    }
}

impl Session {
    /// A fresh, not yet connected session for a peer at `addr`.
    pub fn new(addr: String) -> (r: Session)
        ensures
            r@ == (IdView::Connecting { addr: addr@ }),
    {
        Session { id: Id::Connecting(addr) }
    }

    /// Whether the handshake has happened.
    pub fn is_connected(&self) -> (r: bool)
        ensures
            r == (self@ is Connected),
    {
        match &self.id {
            Id::Connecting(_) => false,
            Id::Connected { .. } => true,
        }
    }

    /// Applies one decoded request to the store, as [`req_effect`] lays out.
    pub fn handle_request(&mut self, db: &mut Db, request: Request) -> (r: Result<
        Option<Response>,
        SessionError,
    >)
        requires
            old(db).wf(),
        ensures
            final(db).wf(),
            req_effect(old(self)@, old(db)@, final(self)@, final(db)@, request, r),
    {
        if let Request::Connect { channel } = request {
            match &self.id {
                Id::Connecting(addr) => {
                    let addr = addr.clone();
                    db.channel_db(channel.as_str());
                    self.id = Id::Connected { addr, channel };
                    return Ok(None);
                },
                Id::Connected { .. } => {
                    return Err(SessionError::AlreadyConnected);
                },
            }
        }
        let channel = match &self.id {
            Id::Connecting(_) => {
                return Err(SessionError::NotConnected);
            },
            Id::Connected { channel, .. } => channel.clone(),
        };
        match request {
            Request::Connect { .. } => unreached(),
            Request::Get { user } => {
                let v = db.get(channel.as_str(), user.as_str());
                Ok(Some(Response::U64(v)))
            },
            Request::BulkEdit { users, points } => {
                let ghost db0 = db@;
                let ghost ids = users.deep_view();
                if points < 0 {
                    let value: u64 = (-(points as i64)) as u64;
                    proof {
                        assert(value == bulk_delta(points));
                    }
                    let mut j: usize = 0;
                    while j < users.len()
                        invariant
                            db.wf(),
                            j <= users@.len(),
                            ids == users.deep_view(),
                            points < 0,
                            value == bulk_delta(points),
                            j == 0 ==> db@ == db0,
                            j > 0 ==> db@ == db0.insert(
                                channel@,
                                bulk_apply(chan_of(db0, channel@), ids.take(j as int), points),
                            ),
                        decreases users@.len() - j,
                    {
                        let ghost pre = db@;
                        let ghost cm = if j == 0 {
                            chan_of(db0, channel@)
                        } else {
                            bulk_apply(chan_of(db0, channel@), ids.take(j as int), points)
                        };
                        proof {
                            assert(ids[j as int] == users@[j as int]@);
                            assert(chan_of(pre, channel@) =~= cm);
                        }
                        let r = db.update_infallible(
                            channel.as_str(),
                            users[j].as_str(),
                            value,
                            saturating_sub,
                        );
                        proof {
                            assert(r == spec_sat_sub(points_of(cm, ids[j as int]), value));
                            assert(ids.take(j + 1) =~= ids.take(j as int).push(ids[j as int]));
                            lemma_bulk_apply_snoc(
                                chan_of(db0, channel@),
                                ids.take(j as int),
                                ids[j as int],
                                points,
                            );
                            if j == 0 {
                                assert(ids.take(0) =~= Seq::<Seq<char>>::empty());
                            }
                            assert(db@ =~= db0.insert(
                                channel@,
                                bulk_apply(chan_of(db0, channel@), ids.take(j + 1), points),
                            ));
                        }
                        j = j + 1;
                    }
                    proof {
                        assert(ids.take(users@.len() as int) =~= ids);
                    }
                } else if points > 0 {
                    let value: u64 = points as u64;
                    proof {
                        assert(value == bulk_delta(points));
                    }
                    let mut j: usize = 0;
                    while j < users.len()
                        invariant
                            db.wf(),
                            j <= users@.len(),
                            ids == users.deep_view(),
                            points > 0,
                            value == bulk_delta(points),
                            j == 0 ==> db@ == db0,
                            j > 0 ==> db@ == db0.insert(
                                channel@,
                                bulk_apply(chan_of(db0, channel@), ids.take(j as int), points),
                            ),
                        decreases users@.len() - j,
                    {
                        let ghost pre = db@;
                        let ghost cm = if j == 0 {
                            chan_of(db0, channel@)
                        } else {
                            bulk_apply(chan_of(db0, channel@), ids.take(j as int), points)
                        };
                        proof {
                            assert(ids[j as int] == users@[j as int]@);
                            assert(chan_of(pre, channel@) =~= cm);
                        }
                        let r = db.update_infallible(
                            channel.as_str(),
                            users[j].as_str(),
                            value,
                            saturating_add,
                        );
                        proof {
                            assert(r == spec_sat_add(points_of(cm, ids[j as int]), value));
                            assert(ids.take(j + 1) =~= ids.take(j as int).push(ids[j as int]));
                            lemma_bulk_apply_snoc(
                                chan_of(db0, channel@),
                                ids.take(j as int),
                                ids[j as int],
                                points,
                            );
                            if j == 0 {
                                assert(ids.take(0) =~= Seq::<Seq<char>>::empty());
                            }
                            assert(db@ =~= db0.insert(
                                channel@,
                                bulk_apply(chan_of(db0, channel@), ids.take(j + 1), points),
                            ));
                        }
                        j = j + 1;
                    }
                    proof {
                        assert(ids.take(users@.len() as int) =~= ids);
                    }
                }
                Ok(None)
            },
            Request::Add { user, points } => {
                let v = db.update_infallible(
                    channel.as_str(),
                    user.as_str(),
                    points,
                    saturating_add,
                );
                Ok(Some(Response::ResultU64((true, v))))
            },
            Request::Remove { user, points, force } => {
                if force {
                    let v = db.update_infallible(
                        channel.as_str(),
                        user.as_str(),
                        points,
                        saturating_sub,
                    );
                    Ok(Some(Response::ResultU64((true, v))))
                } else {
                    match db.update_fallible(channel.as_str(), user.as_str(), points, checked_sub) {
                        Some(v) => Ok(Some(Response::ResultU64((true, v)))),
                        None => {
                            let ghost mid = db@;
                            let cur = db.get(channel.as_str(), user.as_str());
                            proof {
                                assert(points_of(ensure_user(chan_of(old(db)@, channel@), user@), user@)
                                    == points_of(chan_of(old(db)@, channel@), user@));
                            }
                            Ok(Some(Response::ResultU64((false, cur))))
                        },
                    }
                }
            },
        }
    }
}

/// The balance after a sequence of saturating additions.
pub open spec fn apply_adds(v0: u64, ps: Seq<u64>) -> u64
    decreases ps.len(),
{
    if ps.len() == 0 {
        v0
    } else {
        apply_adds(spec_sat_add(v0, ps[0]), ps.drop_first())
    }
}

/// The plain integer sum of a sequence of amounts.
pub open spec fn sum_of(ps: Seq<u64>) -> int
    decreases ps.len(),
{
    if ps.len() == 0 {
        0
    } else {
        ps[0] + sum_of(ps.drop_first())
    }
}

pub proof fn lemma_sum_nonneg(ps: Seq<u64>)
    ensures
        sum_of(ps) >= 0,
    decreases ps.len(),
{
    if ps.len() > 0 {
        lemma_sum_nonneg(ps.drop_first());
    }
}

/// A sequence of `Add` amounts leaves the counter at their saturating sum:
/// the plain sum when it fits, and `u64::MAX` once it does not.
pub proof fn lemma_add_sequence_saturates(v0: u64, ps: Seq<u64>)
    ensures
        apply_adds(v0, ps) == if v0 + sum_of(ps) > u64::MAX {
            u64::MAX
        } else {
            (v0 + sum_of(ps)) as u64
        },
    decreases ps.len(),
{
    if ps.len() > 0 {
        lemma_sum_nonneg(ps.drop_first());
        lemma_add_sequence_saturates(spec_sat_add(v0, ps[0]), ps.drop_first());
    }
}

pub proof fn lemma_sum_of_ones(n: nat)
    ensures
        sum_of(Seq::new(n, |i: int| 1u64)) == n,
    decreases n,
{
    if n > 0 {
        assert(Seq::new(n, |i: int| 1u64).drop_first() =~= Seq::new(
            (n - 1) as nat,
            |i: int| 1u64,
        ));
        lemma_sum_of_ones((n - 1) as nat);
    }
}

/// `n` additions of one to a fresh counter leave it at exactly `n`: in this
/// model no update is lost. The interleaving of concurrent callers is outside
/// what the model states; each call's full effect is what the contracts give.
pub proof fn lemma_unit_adds_count(n: nat)
    requires
        n <= u64::MAX,
    ensures
        apply_adds(0, Seq::new(n, |i: int| 1u64)) == n,
{
    lemma_sum_of_ones(n);
    lemma_add_sequence_saturates(0, Seq::new(n, |i: int| 1u64));
}

/// An amount of zero never changes a counter and never errs, whichever
/// operation carries it.
pub proof fn lemma_zero_amount_is_noop(v: u64, cm: Map<Seq<char>, u64>, u: Seq<char>)
    ensures
        spec_sat_add(v, 0) == v,
        spec_sat_sub(v, 0) == v,
        spec_checked_sub(v, 0) == Some(v),
        bulk_apply_one(cm, u, 0) == cm,
{
}

/// One `Add` moves the user's balance to the saturating sum and touches no
/// other balance.
pub proof fn lemma_add_effect_balance(
    m: Map<Seq<char>, Map<Seq<char>, u64>>,
    ch: Seq<char>,
    u: Seq<char>,
    points: u64,
)
    ensures
        pts(add_effect(m, ch, u, points), ch, u) == spec_sat_add(pts(m, ch, u), points),
        forall|c2: Seq<char>, u2: Seq<char>|
            !(c2 == ch && u2 == u) ==> #[trigger] pts(add_effect(m, ch, u, points), c2, u2)
                == pts(m, c2, u2),
{
}

/// The store after a whole sequence of `Add` amounts for one user.
pub open spec fn apply_add_requests(
    m: Map<Seq<char>, Map<Seq<char>, u64>>,
    ch: Seq<char>,
    u: Seq<char>,
    ps: Seq<u64>,
) -> Map<Seq<char>, Map<Seq<char>, u64>>
    decreases ps.len(),
{
    if ps.len() == 0 {
        m
    } else {
        apply_add_requests(add_effect(m, ch, u, ps[0]), ch, u, ps.drop_first())
    }
}

proof fn lemma_add_request_sequence(
    m: Map<Seq<char>, Map<Seq<char>, u64>>,
    ch: Seq<char>,
    u: Seq<char>,
    ps: Seq<u64>,
)
    ensures
        pts(apply_add_requests(m, ch, u, ps), ch, u) == apply_adds(pts(m, ch, u), ps),
    decreases ps.len(),
{
    if ps.len() > 0 {
        lemma_add_effect_balance(m, ch, u, ps[0]);
        lemma_add_request_sequence(add_effect(m, ch, u, ps[0]), ch, u, ps.drop_first());
    }
}

/// A sequence of `Add` amounts leaves the user's balance at their saturating
/// sum: the plain sum of the amounts and the starting balance when it fits,
/// and `u64::MAX` once it does not.
pub proof fn lemma_add_sequence_totals(
    m: Map<Seq<char>, Map<Seq<char>, u64>>,
    ch: Seq<char>,
    u: Seq<char>,
    ps: Seq<u64>,
)
    ensures
        pts(apply_add_requests(m, ch, u, ps), ch, u) == if pts(m, ch, u) + sum_of(ps)
            > u64::MAX {
            u64::MAX
        } else {
            (pts(m, ch, u) + sum_of(ps)) as u64
        },
{
    lemma_add_request_sequence(m, ch, u, ps);
    lemma_add_sequence_saturates(pts(m, ch, u), ps);
}

/// An unforced `Remove` of more than the balance changes nothing and
/// reports the refusal with the unchanged balance.
pub proof fn lemma_refused_remove_preserves_balance(
    addr: Seq<char>,
    ch: Seq<char>,
    pre_db: Map<Seq<char>, Map<Seq<char>, u64>>,
    post_id: IdView,
    post_db: Map<Seq<char>, Map<Seq<char>, u64>>,
    user: String,
    points: u64,
    r: Result<Option<Response>, SessionError>,
)
    requires
        points > pts(pre_db, ch, user@),
        req_effect(
            IdView::Connected { addr, channel: ch },
            pre_db,
            post_id,
            post_db,
            Request::Remove { user, points, force: false },
            r,
        ),
    ensures
        pts(post_db, ch, user@) == pts(pre_db, ch, user@),
        r == Ok::<Option<Response>, SessionError>(
            Some(Response::ResultU64((false, pts(pre_db, ch, user@)))),
        ),
        post_id == (IdView::Connected { addr, channel: ch }),
{
}

/// A forced `Remove` always succeeds, leaves the balance at
/// `max(0, old - points)`, and reports that new balance.
pub proof fn lemma_forced_remove_clamps(
    addr: Seq<char>,
    ch: Seq<char>,
    pre_db: Map<Seq<char>, Map<Seq<char>, u64>>,
    post_id: IdView,
    post_db: Map<Seq<char>, Map<Seq<char>, u64>>,
    user: String,
    points: u64,
    r: Result<Option<Response>, SessionError>,
)
    requires
        req_effect(
            IdView::Connected { addr, channel: ch },
            pre_db,
            post_id,
            post_db,
            Request::Remove { user, points, force: true },
            r,
        ),
    ensures
        pts(post_db, ch, user@) == spec_sat_sub(pts(pre_db, ch, user@), points),
        r == Ok::<Option<Response>, SessionError>(
            Some(Response::ResultU64((true, spec_sat_sub(pts(pre_db, ch, user@), points)))),
        ),
        post_id == (IdView::Connected { addr, channel: ch }),
{
}

/// An `Add`, `Remove` or `BulkEdit` carrying an amount of zero never errs
/// and leaves every balance in the store as it was.
pub proof fn lemma_zero_amount_request_is_noop(
    pre_id: IdView,
    pre_db: Map<Seq<char>, Map<Seq<char>, u64>>,
    post_id: IdView,
    post_db: Map<Seq<char>, Map<Seq<char>, u64>>,
    request: Request,
    r: Result<Option<Response>, SessionError>,
)
    requires
        pre_id is Connected,
        req_effect(pre_id, pre_db, post_id, post_db, request, r),
        match request {
            Request::Add { user: _, points } => points == 0,
            Request::Remove { user: _, points, force: _ } => points == 0,
            Request::BulkEdit { users: _, points } => points == 0,
            _ => false,
        },
    ensures
        r is Ok,
        post_id == pre_id,
        forall|c2: Seq<char>, u2: Seq<char>|
            #[trigger] pts(post_db, c2, u2) == pts(pre_db, c2, u2),
{
    let ch = pre_id->Connected_channel;
    assert forall|c2: Seq<char>, u2: Seq<char>| #[trigger] pts(post_db, c2, u2) == pts(
        pre_db,
        c2,
        u2,
    ) by {
        assert(pts(ensure_channel(pre_db, ch), c2, u2) == pts(pre_db, c2, u2));
    }
}

} // verus!
