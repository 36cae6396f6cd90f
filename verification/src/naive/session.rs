//! Which connection carries a new stream. A connection takes as many streams as
//! its peer allows; one that goes away takes no more, while the streams on it run
//! to their end.
use vstd::prelude::*;

verus! {

/// How many streams a connection takes before its peer has said how many.
pub const ASSUMED_MAX_STREAMS: usize = 16;

/// How many streams a connection takes at most, whatever its peer says.
pub const MAX_STREAMS_PER_CONNECTION: usize = 128;

/// A connection, as far as the pool knows it.
#[derive(Clone, Copy, Debug, PartialEq, Eq, Structural)]
pub struct Session {
    /// The number by which the pool knows it.
    pub id: u64,
    /// How many streams it takes.
    pub limit: usize,
    /// How many streams it carries.
    pub in_flight: usize,
    /// Whether it goes away.
    pub retired: bool,
}

impl Session {
    /// Whether it has room for one stream more.
    pub open spec fn has_room(self) -> bool {
        !self.retired && self.in_flight < if self.limit > 1 {
            self.limit
        } else {
            1
        }
    }

    /// It with one stream more.
    pub open spec fn leased(self) -> Session {
        Session { in_flight: (self.in_flight + 1) as usize, ..self }
    }
}

/// The connections among the first `n` that do not go away, in order.
pub open spec fn staying(sessions: Seq<Session>, n: nat) -> Seq<Session>
    decreases n,
{
    if n == 0 {
        Seq::empty()
    } else {
        let before = staying(sessions, (n - 1) as nat);
        if sessions[n - 1].retired {
            before
        } else {
            before.push(sessions[n - 1])
        }
    }
}

/// The place of the first connection with room, from `from` on.
pub open spec fn first_with_room(sessions: Seq<Session>, from: int) -> Option<int>
    decreases sessions.len() - from,
{
    if from >= sessions.len() {
        None
    } else if sessions[from].has_room() {
        Some(from)
    } else {
        first_with_room(sessions, from + 1)
    }
}

/// The place of the connection with a number, from `from` on.
pub open spec fn place_of(sessions: Seq<Session>, id: u64, from: int) -> Option<int>
    decreases sessions.len() - from,
{
    if from >= sessions.len() {
        None
    } else if sessions[from].id == id {
        Some(from)
    } else {
        place_of(sessions, id, from + 1)
    }
}

/// What a pool is: its connections, and the number of the next one.
pub struct PoolShape {
    pub sessions: Seq<Session>,
    pub next: u64,
}

/// What a reservation comes to: connections that go away are dropped, and the
/// first of the others that has room takes the stream.
pub open spec fn reserved(pool: PoolShape) -> (Option<u64>, PoolShape) {
    let sessions = staying(pool.sessions, pool.sessions.len());
    match first_with_room(sessions, 0) {
        None => (None, PoolShape { sessions, ..pool }),
        Some(at) => (
            Some(sessions[at].id),
            PoolShape { sessions: sessions.update(at, sessions[at].leased()), ..pool },
        ),
    }
}

/// The pool with one connection changed.
pub open spec fn with_session(pool: PoolShape, id: u64, change: spec_fn(Session) -> Session) ->
    PoolShape {
    match place_of(pool.sessions, id, 0) {
        None => pool,
        Some(at) => PoolShape {
            sessions: pool.sessions.update(at, change(pool.sessions[at])),
            ..pool
        },
    }
}

/// The connection with one stream less.
pub open spec fn released() -> spec_fn(Session) -> Session {
    |session: Session|
        if session.in_flight > 0 {
            Session { in_flight: (session.in_flight - 1) as usize, ..session }
        } else {
            session
        }
}

/// The connection as one that goes away.
pub open spec fn going_away() -> spec_fn(Session) -> Session {
    |session: Session| Session { retired: true, ..session }
}

/// How many streams a connection takes of which the peer allows so many.
pub open spec fn allowed(streams: usize) -> usize {
    if streams < 1 {
        1
    } else if streams > MAX_STREAMS_PER_CONNECTION {
        MAX_STREAMS_PER_CONNECTION
    } else {
        streams
    }
}

/// The connection with what its peer allows.
pub open spec fn advertised(streams: usize) -> spec_fn(Session) -> Session {
    |session: Session| Session { limit: allowed(streams), ..session }
}

/// The connections to one server.
pub struct H2Pool {
    sessions: Vec<Session>,
    next: u64,
}

impl View for H2Pool {
    type V = PoolShape;

    closed spec fn view(&self) -> PoolShape {
        PoolShape { sessions: self.sessions@, next: self.next }
    }
}

impl H2Pool {
    pub fn new() -> (pool: H2Pool)
        ensures
            pool@ == (PoolShape { sessions: Seq::empty(), next: 0 }),
    {
        let pool = H2Pool { sessions: Vec::new(), next: 0 };
        assert(pool@.sessions =~= Seq::<Session>::empty());
        pool
    }

    /// How many connections the pool has.
    pub fn connection_count(&self) -> (count: usize)
        ensures
            count == self@.sessions.len(),
    {
        self.sessions.len()
    }

    /// Drop the connections that go away, and lease a stream on the first of the
    /// others that has room; the number of that connection.
    pub fn reserve(&mut self) -> (lease: Option<u64>)
        ensures
            (lease, final(self)@) == reserved(old(self)@),
    {
        let mut kept: Vec<Session> = Vec::new();
        for i in 0..self.sessions.len()
            invariant
                self@ == old(self)@,
                self.sessions@ == self@.sessions,
                kept@ == staying(self@.sessions, i as nat),
        {
            let session = self.sessions[i];
            if !session.retired {
                kept.push(session);
            }
        }
        self.sessions = kept;
        let ghost sessions = self.sessions@;
        let mut at: usize = 0;
        while at < self.sessions.len()
            invariant
                at <= self.sessions@.len(),
                sessions == self.sessions@,
                sessions == staying(old(self)@.sessions, old(self)@.sessions.len()),
                self.next == old(self)@.next,
                first_with_room(sessions, 0) == first_with_room(sessions, at as int),
            decreases self.sessions.len() - at,
        {
            let session = self.sessions[at];
            let limit: usize = if session.limit > 1 {
                session.limit
            } else {
                1
            };
            if !session.retired && session.in_flight < limit {
                let leased = Session { in_flight: session.in_flight + 1, ..session };
                self.sessions.set(at, leased);
                return Some(session.id);
            }
            at = at + 1;
        }
        None
    }

    /// Take up a connection that has just been opened and lease its first stream;
    /// its number, unless the numbers have run out.
    pub fn enter(&mut self) -> (id: Option<u64>)
        ensures
            if old(self)@.next == u64::MAX {
                id is None && final(self)@ == old(self)@
            } else {
                &&& id == Some(old(self)@.next)
                &&& final(self)@ == (PoolShape {
                    sessions: old(self)@.sessions.push(
                        Session {
                            id: old(self)@.next,
                            limit: ASSUMED_MAX_STREAMS,
                            in_flight: 1,
                            retired: false,
                        },
                    ),
                    next: (old(self)@.next + 1) as u64,
                })
            },
    {
        if self.next == u64::MAX {
            return None;
        }
        let id = self.next;
        self.next = id + 1;
        self.sessions.push(
            Session { id, limit: ASSUMED_MAX_STREAMS, in_flight: 1, retired: false },
        );
        Some(id)
    }

    fn find(&self, id: u64) -> (place: Option<usize>)
        ensures
            match place_of(self@.sessions, id, 0) {
                Some(at) => place matches Some(found) && found == at && at < self@.sessions.len(),
                None => place is None,
            },
    {
        let mut at: usize = 0;
        while at < self.sessions.len()
            invariant
                at <= self.sessions@.len(),
                place_of(self@.sessions, id, 0) == place_of(self@.sessions, id, at as int),
            decreases self.sessions.len() - at,
        {
            if self.sessions[at].id == id {
                return Some(at);
            }
            at = at + 1;
        }
        None
    }

    /// A stream of a connection has ended.
    pub fn release(&mut self, id: u64)
        ensures
            final(self)@ == with_session(old(self)@, id, released()),
    {
        if let Some(at) = self.find(id) {
            let session = self.sessions[at];
            if session.in_flight > 0 {
                let changed = Session { in_flight: session.in_flight - 1, ..session };
                self.sessions.set(at, changed);
            } else {
                assert(self@.sessions =~= self@.sessions.update(at as int, session));
            }
        }
    }

    /// A connection goes away.
    pub fn retire(&mut self, id: u64)
        ensures
            final(self)@ == with_session(old(self)@, id, going_away()),
    {
        if let Some(at) = self.find(id) {
            let session = self.sessions[at];
            self.sessions.set(at, Session { retired: true, ..session });
        }
    }

    /// The peer of a connection allows this many streams.
    pub fn publish_limit(&mut self, id: u64, streams: usize)
        ensures
            final(self)@ == with_session(old(self)@, id, advertised(streams)),
    {
        if let Some(at) = self.find(id) {
            let session = self.sessions[at];
            let limit: usize = if streams < 1 {
                1
            } else if streams > MAX_STREAMS_PER_CONNECTION {
                MAX_STREAMS_PER_CONNECTION
            } else {
                streams
            };
            self.sessions.set(at, Session { limit, ..session });
        }
    }
}

proof fn lemma_first_with_room(sessions: Seq<Session>, from: int)
    requires
        0 <= from,
    ensures
        match first_with_room(sessions, from) {
            Some(at) => from <= at < sessions.len() && sessions[at].has_room() && forall|i: int|
                from <= i < at ==> !(#[trigger] sessions[i]).has_room(),
            None => forall|i: int|
                from <= i < sessions.len() ==> !(#[trigger] sessions[i]).has_room(),
        },
    decreases sessions.len() - from,
{
    if from < sessions.len() && !sessions[from].has_room() {
        lemma_first_with_room(sessions, from + 1);
    }
}

proof fn lemma_staying(sessions: Seq<Session>, n: nat)
    requires
        n <= sessions.len(),
    ensures
        forall|i: int|
            0 <= i < staying(sessions, n).len() ==> !(#[trigger] staying(sessions, n)[i]).retired
                && sessions.contains(staying(sessions, n)[i]),
        forall|i: int|
            0 <= i < n && !(#[trigger] sessions[i]).retired ==> staying(sessions, n).contains(
                sessions[i],
            ),
    decreases n,
{
    if n > 0 {
        let before = staying(sessions, (n - 1) as nat);
        let last = sessions[n - 1];
        lemma_staying(sessions, (n - 1) as nat);
        let after = staying(sessions, n);
        assert forall|i: int| 0 <= i < n && !(#[trigger] sessions[i]).retired implies
            after.contains(sessions[i]) by {
            if i < n - 1 {
                let at = choose|j: int| 0 <= j < before.len() && before[j] == sessions[i];
                assert(before.contains(sessions[i]));
                assert(after[at] == sessions[i]);
            } else {
                assert(after[before.len() as int] == last);
            }
        }
    }
}

/// A stream is leased only on a connection that does not go away and that had room
/// for it, and none is refused while there is such a connection.
pub proof fn a_lease_keeps_to_the_limit(pool: PoolShape)
    ensures
        match reserved(pool).0 {
            Some(id) => exists|before: Session|
                #![trigger pool.sessions.contains(before)]
                {
                    &&& pool.sessions.contains(before)
                    &&& before.id == id
                    &&& before.has_room()
                    &&& reserved(pool).1.sessions.contains(before.leased())
                },
            None => forall|i: int|
                0 <= i < pool.sessions.len() ==> !(#[trigger] pool.sessions[i]).has_room(),
        },
        forall|i: int|
            0 <= i < reserved(pool).1.sessions.len() ==> !(#[trigger] reserved(
                pool,
            ).1.sessions[i]).retired,
{
    let sessions = staying(pool.sessions, pool.sessions.len());
    lemma_staying(pool.sessions, pool.sessions.len());
    lemma_first_with_room(sessions, 0);
    match first_with_room(sessions, 0) {
        Some(at) => {
            assert(pool.sessions.contains(sessions[at]));
            assert(reserved(pool).1.sessions[at] == sessions[at].leased());
        },
        None => {
            assert forall|i: int| 0 <= i < pool.sessions.len() implies !(
            #[trigger] pool.sessions[i]).has_room() by {
                if pool.sessions[i].has_room() {
                    assert(sessions.contains(pool.sessions[i]));
                    let at = choose|j: int|
                        0 <= j < sessions.len() && sessions[j] == pool.sessions[i];
                    assert(!sessions[at].has_room());
                }
            }
        },
    }
}

/// Whether the numbers of a pool's connections grow along the pool and stay below
/// the next one.
pub open spec fn numbered(pool: PoolShape) -> bool {
    &&& forall|i: int| 0 <= i < pool.sessions.len() ==> (#[trigger] pool.sessions[i]).id < pool.next
    &&& forall|i: int, j: int|
        0 <= i < j < pool.sessions.len() ==> (#[trigger] pool.sessions[i]).id < (
        #[trigger] pool.sessions[j]).id
}

proof fn lemma_staying_numbered(pool: PoolShape, n: nat)
    requires
        numbered(pool),
        n <= pool.sessions.len(),
    ensures
        numbered(PoolShape { sessions: staying(pool.sessions, n), ..pool }),
        forall|i: int|
            0 <= i < staying(pool.sessions, n).len() ==> n > 0 && (#[trigger] staying(
                pool.sessions,
                n,
            )[i]).id <= pool.sessions[n - 1].id,
    decreases n,
{
    if n > 0 {
        lemma_staying_numbered(pool, (n - 1) as nat);
        let before = staying(pool.sessions, (n - 1) as nat);
        let earlier = PoolShape { sessions: before, ..pool };
        assert(numbered(earlier));
        let after = staying(pool.sessions, n);
        assert forall|i: int| 0 <= i < after.len() implies (#[trigger] after[i]).id
            <= pool.sessions[n - 1].id by {
            if i < before.len() {
                assert(before[i].id <= pool.sessions[n - 2].id);
            }
        }
        assert forall|i: int, j: int| 0 <= i < j < after.len() implies (#[trigger] after[i]).id < (
        #[trigger] after[j]).id by {
            if j < before.len() {
                assert(earlier.sessions[i].id < earlier.sessions[j].id);
            } else {
                assert(before[i].id <= pool.sessions[n - 2].id);
                assert(pool.sessions[n - 2].id < pool.sessions[n - 1].id);
            }
        }
    }
}

proof fn lemma_place_within(sessions: Seq<Session>, id: u64, from: int)
    requires
        0 <= from,
    ensures
        place_of(sessions, id, from) matches Some(at) ==> from <= at < sessions.len()
            && sessions[at].id == id,
    decreases sessions.len() - from,
{
    if from < sessions.len() && sessions[from].id != id {
        lemma_place_within(sessions, id, from + 1);
    }
}

proof fn lemma_update_numbered(pool: PoolShape, at: int, session: Session)
    requires
        numbered(pool),
        0 <= at < pool.sessions.len(),
        session.id == pool.sessions[at].id,
    ensures
        numbered(PoolShape { sessions: pool.sessions.update(at, session), ..pool }),
{
    let after = pool.sessions.update(at, session);
    assert forall|i: int| 0 <= i < after.len() implies (#[trigger] after[i]).id < pool.next by {
        assert(pool.sessions[i].id < pool.next);
    }
    assert forall|i: int, j: int| 0 <= i < j < after.len() implies (#[trigger] after[i]).id < (
    #[trigger] after[j]).id by {
        assert(pool.sessions[i].id < pool.sessions[j].id);
    }
}

/// No two connections of a pool ever have the same number: reserving, changing one
/// connection and taking up a new one keep the numbers apart.
pub proof fn the_numbers_stay_apart(
    pool: PoolShape,
    id: u64,
    change: spec_fn(Session) -> Session,
    opened: Session,
)
    requires
        numbered(pool),
        forall|session: Session| (#[trigger] change(session)).id == session.id,
        pool.next < u64::MAX,
        opened.id == pool.next,
    ensures
        numbered(reserved(pool).1),
        numbered(with_session(pool, id, change)),
        numbered(
            PoolShape { sessions: pool.sessions.push(opened), next: (pool.next + 1) as u64 },
        ),
{
    lemma_staying_numbered(pool, pool.sessions.len());
    let sessions = staying(pool.sessions, pool.sessions.len());
    lemma_first_with_room(sessions, 0);
    if let Some(at) = first_with_room(sessions, 0) {
        lemma_update_numbered(
            PoolShape { sessions, ..pool },
            at,
            sessions[at].leased(),
        );
    }
    lemma_place_within(pool.sessions, id, 0);
    if let Some(at) = place_of(pool.sessions, id, 0) {
        lemma_update_numbered(pool, at, change(pool.sessions[at]));
    }
    let more = pool.sessions.push(opened);
    assert forall|i: int| 0 <= i < more.len() implies (#[trigger] more[i]).id < pool.next + 1 by {
        if i < pool.sessions.len() {
            assert(pool.sessions[i].id < pool.next);
        }
    }
    assert forall|i: int, j: int| 0 <= i < j < more.len() implies (#[trigger] more[i]).id < (
    #[trigger] more[j]).id by {
        assert(pool.sessions[i].id < pool.next);
        if j < pool.sessions.len() {
            assert(pool.sessions[i].id < pool.sessions[j].id);
        }
    }
}

} // verus!
