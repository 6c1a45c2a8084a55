//! Legacy HTTP+SSE transport (compatibility): sessions and replies.
//!
//! `GET /sse` opens one session and names a `/messages?sessionId=<uuid>` URL;
//! the client posts JSON-RPC messages there (202 Accepted), and responses stream
//! back over the SSE connection. The manager keeps, for each session, a handle
//! of the connection's own and the time at which its stream ended.

use vstd::prelude::*;
use vstd::string::*;
use vstd::utf8::*;

use crate::auth;
use crate::chars;

verus! {

/// Outbound channel capacity: bounded so a client that stops reading applies
/// backpressure instead of consuming unbounded memory.
pub const OUTBOUND_CAPACITY: usize = 64;

/// A stuck client that stops draining for this many seconds is dropped.
pub const SEND_TIMEOUT_SECS: u64 = 60;

/// Seconds between two sweeps.
pub const SWEEP_INTERVAL_SECS: u64 = 30;

// ---------------------------------------------------------------------------
// Sessions
// ---------------------------------------------------------------------------

/// One logical MCP connection.
#[derive(Debug)]
pub struct SessionEntry<T> {
    pub id: String,
    /// What the connection needs to reach and to stop the session.
    pub handle: T,
    /// Set when the SSE stream ends, in nanoseconds on a clock that never goes
    /// back; the sweeper removes the entry after the configured lifetime.
    pub disconnected_at: Option<u128>,
}

/// The open sessions.
#[derive(Debug)]
pub struct LegacySseManager<T> {
    sessions: Vec<SessionEntry<T>>,
    /// How long a disconnected session lingers, in nanoseconds.
    ttl: u128,
}

/// What is known of a session: its handle and when it was disconnected.
pub open spec fn lookup<T>(sessions: Seq<SessionEntry<T>>, id: Seq<char>) -> Option<
    (T, Option<u128>),
>
    decreases sessions.len(),
{
    if sessions.len() == 0 {
        None
    } else if sessions.last().id@ == id {
        Some((sessions.last().handle, sessions.last().disconnected_at))
    } else {
        lookup(sessions.drop_last(), id)
    }
}

/// No id is taken twice.
pub open spec fn distinct<T>(sessions: Seq<SessionEntry<T>>) -> bool {
    forall|i: int, j: int|
        0 <= i < j < sessions.len() ==> (#[trigger] sessions[i]).id@ != (
        #[trigger] sessions[j]).id@
}

/// How many sessions are connected.
pub open spec fn connected<T>(sessions: Seq<SessionEntry<T>>) -> nat
    decreases sessions.len(),
{
    if sessions.len() == 0 {
        0
    } else {
        connected(sessions.drop_last()) + if sessions.last().disconnected_at is None {
            1nat
        } else {
            0nat
        }
    }
}

/// Whether what is known of a session is that it is connected.
pub open spec fn is_connected<T>(known: Option<(T, Option<u128>)>) -> bool {
    known matches Some((_, at)) && at is None
}

/// Replacing an entry changes the number of connected sessions by that entry
/// alone.
proof fn lemma_connected_update<T>(
    sessions: Seq<SessionEntry<T>>,
    i: int,
    entry: SessionEntry<T>,
)
    requires
        0 <= i < sessions.len(),
    ensures
        connected(sessions.update(i, entry)) + (if sessions[i].disconnected_at is None {
            1nat
        } else {
            0nat
        }) == connected(sessions) + (if entry.disconnected_at is None {
            1nat
        } else {
            0nat
        }),
    decreases sessions.len(),
{
    let front = sessions.drop_last();
    let all = sessions.update(i, entry);
    if i == sessions.len() - 1 {
        assert(all.drop_last() == front);
    } else {
        lemma_connected_update(front, i, entry);
        assert(all.drop_last() == front.update(i, entry));
    }
}

/// A sweep leaves the number of connected sessions as it is.
proof fn lemma_connected_unexpired<T>(
    sessions: Seq<SessionEntry<T>>,
    now: u128,
    ttl: u128,
    n: nat,
)
    requires
        n <= sessions.len(),
    ensures
        connected(unexpired(sessions, now, ttl, n)) == connected(sessions.take(n as int)),
    decreases n,
{
    if n > 0 {
        let m = (n - 1) as nat;
        lemma_connected_unexpired(sessions, now, ttl, m);
        let before = unexpired(sessions, now, ttl, m);
        assert(sessions.take(n as int).drop_last() == sessions.take(m as int));
        assert(before.push(sessions[n - 1]).drop_last() == before);
    }
}

/// Whether a session has been disconnected for longer than its lifetime.
pub open spec fn is_expired(disconnected_at: Option<u128>, now: u128, ttl: u128) -> bool {
    disconnected_at matches Some(at) && now - at > ttl
}

/// The first `n` sessions without those that are expired.
pub open spec fn unexpired<T>(
    sessions: Seq<SessionEntry<T>>,
    now: u128,
    ttl: u128,
    n: nat,
) -> Seq<SessionEntry<T>>
    decreases n,
{
    if n == 0 {
        Seq::empty()
    } else {
        let before = unexpired(sessions, now, ttl, (n - 1) as nat);
        if is_expired(sessions[n - 1].disconnected_at, now, ttl) {
            before
        } else {
            before.push(sessions[n - 1])
        }
    }
}

proof fn lemma_lookup_at<T>(sessions: Seq<SessionEntry<T>>, i: int)
    requires
        distinct(sessions),
        0 <= i < sessions.len(),
    ensures
        lookup(sessions, sessions[i].id@) == Some((sessions[i].handle, sessions[i].disconnected_at)),
    decreases sessions.len(),
{
    if i < sessions.len() - 1 {
        let front = sessions.drop_last();
        assert(sessions[i].id@ != sessions[sessions.len() - 1].id@);
        assert(front[i] == sessions[i]);
        assert forall|a: int, b: int| 0 <= a < b < front.len() implies (#[trigger] front[a]).id@
            != (#[trigger] front[b]).id@ by {
            assert(sessions[a].id@ != sessions[b].id@);
        }
        lemma_lookup_at(front, i);
    }
}

proof fn lemma_lookup_none<T>(sessions: Seq<SessionEntry<T>>, id: Seq<char>)
    ensures
        lookup(sessions, id) is None <==> forall|i: int|
            0 <= i < sessions.len() ==> (#[trigger] sessions[i]).id@ != id,
    decreases sessions.len(),
{
    if sessions.len() > 0 {
        let front = sessions.drop_last();
        lemma_lookup_none(front, id);
        if lookup(sessions, id) is None {
            assert forall|i: int| 0 <= i < sessions.len() implies (#[trigger] sessions[i]).id@
                != id by {
                if i < front.len() {
                    assert(front[i].id@ != id);
                }
            }
        } else if sessions.last().id@ == id {
            assert(sessions[sessions.len() - 1].id@ == id);
        } else {
            let i = choose|i: int| 0 <= i < front.len() && (#[trigger] front[i]).id@ == id;
            assert(sessions[i].id@ == id);
        }
    }
}

/// A change of one entry that keeps its id changes what is known of that
/// session only.
proof fn lemma_lookup_update<T>(
    sessions: Seq<SessionEntry<T>>,
    i: int,
    entry: SessionEntry<T>,
    id: Seq<char>,
)
    requires
        distinct(sessions),
        0 <= i < sessions.len(),
        entry.id@ == sessions[i].id@,
    ensures
        distinct(sessions.update(i, entry)),
        lookup(sessions.update(i, entry), id) == (if id == entry.id@ {
            Some((entry.handle, entry.disconnected_at))
        } else {
            lookup(sessions, id)
        }),
{
    let now = sessions.update(i, entry);
    assert forall|a: int, b: int| 0 <= a < b < now.len() implies (#[trigger] now[a]).id@ != (
    #[trigger] now[b]).id@ by {
        assert(sessions[a].id@ != sessions[b].id@);
    }
    if id == entry.id@ {
        lemma_lookup_at(now, i);
    } else {
        lemma_lookup_none(sessions, id);
        lemma_lookup_none(now, id);
        if lookup(sessions, id) is Some {
            let k = choose|k: int| 0 <= k < sessions.len() && (#[trigger] sessions[k]).id@ == id;
            lemma_lookup_at(sessions, k);
            lemma_lookup_at(now, k);
            assert(now[k] == sessions[k]);
        } else {
            assert forall|k: int| 0 <= k < now.len() implies (#[trigger] now[k]).id@ != id by {
                assert(sessions[k].id@ != id);
            }
        }
    }
}

/// The sweep keeps each session that is not expired, as it is.
proof fn lemma_unexpired<T>(
    sessions: Seq<SessionEntry<T>>,
    now: u128,
    ttl: u128,
    n: nat,
    id: Seq<char>,
)
    requires
        distinct(sessions),
        n <= sessions.len(),
    ensures
        unexpired(sessions, now, ttl, n).len() <= n,
        forall|i: int|
            0 <= i < unexpired(sessions, now, ttl, n).len() ==> exists|k: int|
                0 <= k < n && #[trigger] sessions[k] == #[trigger] unexpired(
                    sessions,
                    now,
                    ttl,
                    n,
                )[i],
        distinct(unexpired(sessions, now, ttl, n)),
        lookup(unexpired(sessions, now, ttl, n), id) == (match lookup(
            sessions.take(n as int),
            id,
        ) {
            Some((handle, at)) => if is_expired(at, now, ttl) {
                None
            } else {
                Some((handle, at))
            },
            None => None,
        }),
    decreases n,
{
    if n > 0 {
        let m = (n - 1) as nat;
        lemma_unexpired(sessions, now, ttl, m, id);
        let before = unexpired(sessions, now, ttl, m);
        let all = unexpired(sessions, now, ttl, n);
        let last = sessions[n - 1];
        assert(sessions.take(n as int).drop_last() == sessions.take(m as int));
        assert forall|i: int| 0 <= i < before.len() implies (#[trigger] before[i]).id@
            != last.id@ by {
            let k = choose|k: int| 0 <= k < m && #[trigger] sessions[k] == before[i];
            assert(sessions[k].id@ != sessions[n - 1].id@);
        }
        assert forall|i: int| 0 <= i < all.len() implies exists|k: int|
            0 <= k < n && #[trigger] sessions[k] == #[trigger] all[i] by {
            if i < before.len() {
                assert(all[i] == before[i]);
                let k = choose|k: int| 0 <= k < m && #[trigger] sessions[k] == before[i];
                assert(sessions[k] == all[i]);
            } else {
                assert(sessions[n - 1] == all[i]);
            }
        }
        if is_expired(last.disconnected_at, now, ttl) {
            if id == last.id@ {
                lemma_lookup_none(before, id);
            }
        } else {
            assert(all.drop_last() == before);
            assert forall|a: int, b: int| 0 <= a < b < all.len() implies (#[trigger] all[a]).id@
                != (#[trigger] all[b]).id@ by {
                if b < before.len() {
                    assert(before[a].id@ != before[b].id@);
                } else {
                    assert(before[a].id@ != last.id@);
                }
            }
        }
    }
}

// ---------------------------------------------------------------------------
// Session ids
// ---------------------------------------------------------------------------

/// The form of a session id: a random UUID in its hyphenated form.
pub open spec fn is_session_id(id: Seq<char>) -> bool {
    &&& id.len() == 36
    &&& forall|i: int|
        #![trigger id[i]]
        0 <= i < 36 ==> if i == 8 || i == 13 || i == 18 || i == 23 {
            id[i] == '-'
        } else {
            '0' <= id[i] <= '9' || 'a' <= id[i] <= 'f'
        }
    &&& id[14] == '4'
    &&& id[19] == '8' || id[19] == '9' || id[19] == 'a' || id[19] == 'b'
}

/// `uuid::Uuid::new_v4` in its `Display` form: 32 lower-case hexadecimal digits
/// in five groups, with the version and variant digits of a random UUID. Which
/// id it is depends on chance.
#[verifier::external_body]
fn new_session_id() -> (r: String)
    ensures
        is_session_id(r@),
{
    uuid::Uuid::new_v4().to_string()
}

impl<T> LegacySseManager<T> {
    /// The open sessions.
    pub closed spec fn view(&self) -> Seq<SessionEntry<T>> {
        self.sessions@
    }

    /// How long a disconnected session lingers.
    pub closed spec fn lifetime(&self) -> u128 {
        self.ttl
    }

    /// No id is taken twice.
    pub open spec fn wf(&self) -> bool {
        distinct(self@)
    }

    /// What is known of a session.
    pub open spec fn knows(&self, id: Seq<char>) -> Option<(T, Option<u128>)> {
        lookup(self@, id)
    }

    /// A manager without sessions.
    pub fn new(ttl: u128) -> (r: Self)
        ensures
            r.wf(),
            r@.len() == 0,
            r.lifetime() == ttl,
    {
        LegacySseManager { sessions: Vec::new(), ttl }
    }

    /// Where a session is kept.
    fn find(&self, id: &str) -> (r: Option<usize>)
        requires
            self.wf(),
        ensures
            match r {
                Some(i) => i < self@.len() && self@[i as int].id@ == id@ && self.knows(id@) == Some(
                    (self@[i as int].handle, self@[i as int].disconnected_at),
                ),
                None => self.knows(id@) is None,
            },
    {
        let n: usize = self.sessions.len();
        let mut i: usize = 0;
        while i < n
            invariant
                self.wf(),
                n == self@.len(),
                n == self.sessions@.len(),
                i <= n,
                forall|k: int| 0 <= k < i ==> (#[trigger] self@[k]).id@ != id@,
            decreases n - i,
        {
            if chars::same_text(self.sessions[i].id.as_str(), id) {
                proof {
                    lemma_lookup_at(self@, i as int);
                }
                return Some(i);
            }
            i = i + 1;
        }
        proof {
            lemma_lookup_none(self@, id@);
        }
        None
    }

    /// Keep a session under the given id. One that is already kept under it is
    /// replaced.
    pub fn insert(&mut self, id: String, handle: T)
        requires
            old(self).wf(),
        ensures
            final(self).wf(),
            final(self).lifetime() == old(self).lifetime(),
            final(self).knows(id@) == Some((handle, None::<u128>)),
            forall|other: Seq<char>|
                other != id@ ==> #[trigger] final(self).knows(other) == old(self).knows(other),
            connected(final(self)@) == connected(old(self)@) + if is_connected(
                old(self).knows(id@),
            ) {
                0nat
            } else {
                1nat
            },
    {
        let ghost was = self@;
        let ghost name = id@;
        let place: Option<usize> = self.find(id.as_str());
        let entry: SessionEntry<T> = SessionEntry { id, handle, disconnected_at: None };
        match place {
            Some(i) => {
                self.sessions.set(i, entry);
                proof {
                    assert(self@ == was.update(i as int, entry));
                    lemma_lookup_update(was, i as int, entry, name);
                    lemma_connected_update(was, i as int, entry);
                    assert forall|other: Seq<char>| other != name implies #[trigger] self.knows(other)
                        == lookup(was, other) by {
                        lemma_lookup_update(was, i as int, entry, other);
                    }
                }
            },
            None => {
                self.sessions.push(entry);
                proof {
                    assert(self@ == was.push(entry));
                    assert(self@.drop_last() == was);
                    lemma_lookup_none(was, name);
                    assert forall|a: int, b: int| 0 <= a < b < self@.len() implies (
                    #[trigger] self@[a]).id@ != (#[trigger] self@[b]).id@ by {
                        if b == was.len() {
                            assert(was[a].id@ != name);
                        } else {
                            assert(was[a].id@ != was[b].id@);
                        }
                    }
                }
            },
        }
    }

    /// Open a session under a new id.
    pub fn open(&mut self, handle: T) -> (id: String)
        requires
            old(self).wf(),
        ensures
            is_session_id(id@),
            final(self).wf(),
            final(self).lifetime() == old(self).lifetime(),
            final(self).knows(id@) == Some((handle, None::<u128>)),
            forall|other: Seq<char>|
                other != id@ ==> #[trigger] final(self).knows(other) == old(self).knows(other),
            connected(final(self)@) == connected(old(self)@) + if is_connected(
                old(self).knows(id@),
            ) {
                0nat
            } else {
                1nat
            },
    {
        let id: String = new_session_id();
        self.insert(id.clone(), handle);
        id
    }

    /// The session that a client message goes to. An unknown session is never
    /// created.
    pub fn deliver(&self, id: &str) -> (r: Option<&T>)
        requires
            self.wf(),
        ensures
            match r {
                Some(handle) => self.knows(id@) matches Some((h, _)) && h == *handle,
                None => self.knows(id@) is None,
            },
    {
        match self.find(id) {
            Some(i) => Some(&self.sessions[i].handle),
            None => None,
        }
    }

    /// Mark a session's SSE stream as gone. The first time counts.
    pub fn disconnect(&mut self, id: &str, now: u128) -> (known: bool)
        requires
            old(self).wf(),
        ensures
            final(self).wf(),
            final(self).lifetime() == old(self).lifetime(),
            known == (old(self).knows(id@) is Some),
            final(self).knows(id@) == (match old(self).knows(id@) {
                Some((handle, Some(at))) => Some((handle, Some(at))),
                Some((handle, None)) => Some((handle, Some(now))),
                None => None,
            }),
            forall|other: Seq<char>|
                other != id@ ==> #[trigger] final(self).knows(other) == old(self).knows(other),
            connected(old(self)@) == connected(final(self)@) + if is_connected(
                old(self).knows(id@),
            ) {
                1nat
            } else {
                0nat
            },
    {
        let ghost was = self@;
        match self.find(id) {
            None => false,
            Some(i) => {
                if self.sessions[i].disconnected_at.is_none() {
                    let entry: SessionEntry<T> = self.sessions.remove(i);
                    let marked: SessionEntry<T> = SessionEntry {
                        id: entry.id,
                        handle: entry.handle,
                        disconnected_at: Some(now),
                    };
                    self.sessions.insert(i, marked);
                    proof {
                        assert(self@ == was.update(i as int, marked));
                        lemma_lookup_update(was, i as int, marked, id@);
                        lemma_connected_update(was, i as int, marked);
                        assert forall|other: Seq<char>| other != id@ implies #[trigger] self.knows(
                            other,
                        ) == lookup(was, other) by {
                            lemma_lookup_update(was, i as int, marked, other);
                        }
                    }
                }
                true
            },
        }
    }

    /// Remove sessions whose connection has been gone longer than the
    /// lifetime. Connected sessions are never touched. Gives the number of
    /// sessions that were removed.
    pub fn sweep(&mut self, now: u128) -> (removed: usize)
        requires
            old(self).wf(),
        ensures
            final(self).wf(),
            final(self).lifetime() == old(self).lifetime(),
            final(self)@ == unexpired(
                old(self)@,
                now,
                old(self).lifetime(),
                old(self)@.len(),
            ),
            removed == old(self)@.len() - final(self)@.len(),
            connected(final(self)@) == connected(old(self)@),
            forall|id: Seq<char>| #[trigger]
                final(self).knows(id) == (match old(self).knows(id) {
                    Some((handle, at)) => if is_expired(at, now, old(self).lifetime()) {
                        None
                    } else {
                        Some((handle, at))
                    },
                    None => None,
                }),
    {
        let ghost was = self@;
        let ttl: u128 = self.ttl;
        let n: usize = self.sessions.len();
        let mut i: usize = 0;
        let mut seen: usize = 0;
        assert(was.skip(0) == was);
        while seen < n
            invariant
                distinct(was),
                n == was.len(),
                seen <= n,
                i <= seen,
                self.ttl == ttl,
                self.sessions@ == unexpired(was, now, ttl, seen as nat) + was.skip(seen as int),
                i == unexpired(was, now, ttl, seen as nat).len(),
            decreases n - seen,
        {
            let ghost kept = unexpired(was, now, ttl, seen as nat);
            let ghost rest = was.skip(seen as int);
            assert(self.sessions@[i as int] == was[seen as int]);
            assert(rest.skip(1) == was.skip(seen + 1));
            let expired: bool = match self.sessions[i].disconnected_at {
                Some(at) => now > at && now - at > ttl,
                None => false,
            };
            if expired {
                self.sessions.remove(i);
                assert(self.sessions@ == kept + was.skip(seen + 1));
            } else {
                assert(self.sessions@ == kept.push(was[seen as int]) + was.skip(seen + 1));
                i = i + 1;
            }
            seen = seen + 1;
        }
        proof {
            assert(self@ == unexpired(was, now, ttl, n as nat));
            assert(was.take(n as int) == was);
            lemma_unexpired(was, now, ttl, n as nat, Seq::empty());
            lemma_connected_unexpired(was, now, ttl, n as nat);
            assert forall|id: Seq<char>| #[trigger] self.knows(id) == (match lookup(was, id) {
                Some((handle, at)) => if is_expired(at, now, ttl) {
                    None
                } else {
                    Some((handle, at))
                },
                None => None,
            }) by {
                lemma_unexpired(was, now, ttl, n as nat, id);
            }
        }
        n - i
    }

    /// Forget every session (graceful shutdown), and hand them out so that
    /// they can be stopped.
    pub fn close_all(&mut self) -> (r: Vec<SessionEntry<T>>)
        ensures
            r@ == old(self)@,
            final(self).wf(),
            final(self)@.len() == 0,
            final(self).lifetime() == old(self).lifetime(),
    {
        let mut all: Vec<SessionEntry<T>> = Vec::new();
        all.append(&mut self.sessions);
        assert(all@ == old(self)@);
        all
    }

    /// How many sessions are connected.
    pub fn active_count(&self) -> (r: usize)
        ensures
            r == connected(self@),
    {
        let n: usize = self.sessions.len();
        let mut count: usize = 0;
        let mut i: usize = 0;
        while i < n
            invariant
                n == self@.len(),
                n == self.sessions@.len(),
                self.sessions@ == self@,
                i <= n,
                count <= i,
                count == connected(self@.take(i as int)),
            decreases n - i,
        {
            assert(self@.take(i + 1).drop_last() == self@.take(i as int));
            if self.sessions[i].disconnected_at.is_none() {
                count = count + 1;
            }
            i = i + 1;
        }
        assert(self@.take(n as int) == self@);
        count
    }
}

/// A connected session survives every sweep, whatever the time.
pub proof fn connected_sessions_survive<T>(
    sessions: Seq<SessionEntry<T>>,
    now: u128,
    ttl: u128,
    id: Seq<char>,
)
    requires
        distinct(sessions),
        lookup(sessions, id) matches Some((_, None)),
    ensures
        lookup(unexpired(sessions, now, ttl, sessions.len()), id) == lookup(sessions, id),
{
    lemma_unexpired(sessions, now, ttl, sessions.len(), id);
    assert(sessions.take(sessions.len() as int) == sessions);
}

/// A sweep right after another one removes nothing.
pub proof fn sweeping_twice_is_sweeping_once<T>(
    sessions: Seq<SessionEntry<T>>,
    now: u128,
    ttl: u128,
    n: nat,
)
    requires
        n <= sessions.len(),
    ensures
        ({
            let once = unexpired(sessions, now, ttl, n);
            unexpired(once, now, ttl, once.len()) == once
        }),
    decreases n,
{
    if n > 0 {
        let m = (n - 1) as nat;
        sweeping_twice_is_sweeping_once(sessions, now, ttl, m);
        let before = unexpired(sessions, now, ttl, m);
        let once = unexpired(sessions, now, ttl, n);
        if !is_expired(sessions[n - 1].disconnected_at, now, ttl) {
            assert(before.take(before.len() as int) == once.take(before.len() as int));
            lemma_unexpired_prefix(before, once, now, ttl, before.len());
            assert(once[before.len() as int] == sessions[n - 1]);
        }
    }
}

/// What is kept of the first sessions does not depend on those behind them.
proof fn lemma_unexpired_prefix<T>(
    a: Seq<SessionEntry<T>>,
    b: Seq<SessionEntry<T>>,
    now: u128,
    ttl: u128,
    n: nat,
)
    requires
        n <= a.len(),
        n <= b.len(),
        a.take(n as int) == b.take(n as int),
    ensures
        unexpired(a, now, ttl, n) == unexpired(b, now, ttl, n),
    decreases n,
{
    if n > 0 {
        let m = (n - 1) as nat;
        assert(a.take(m as int) == a.take(n as int).take(m as int));
        assert(b.take(m as int) == b.take(n as int).take(m as int));
        assert(a[n - 1] == a.take(n as int)[n - 1]);
        assert(b[n - 1] == b.take(n as int)[n - 1]);
        lemma_unexpired_prefix(a, b, now, ttl, m);
    }
}

// ---------------------------------------------------------------------------
// Replies
// ---------------------------------------------------------------------------

/// The URL that a client posts its messages to.
pub fn messages_path(session_id: &str) -> (r: String)
    ensures
        r@ == "/messages?sessionId="@ + session_id@,
{
    let mut path: String = String::from_str("/messages?sessionId=");
    path.append(session_id);
    path
}

/// The query of a message post.
#[derive(Debug)]
pub struct MessagesQuery {
    pub session_id: String,
}

/// The reply to a message post.
#[derive(Debug)]
pub struct MessageReply {
    pub status: u16,
    pub body: String,
}

/// Whether a `Content-Type` header announces JSON.
pub open spec fn is_json(content_type: Option<Seq<u8>>) -> bool {
    match content_type {
        Some(value) => auth::is_header_text(value) && value.len() >= 16 && value.take(16)
            == json_type(),
        None => false,
    }
}

/// The bytes of `application/json`.
pub open spec fn json_type() -> Seq<u8> {
    seq![
        0x61u8,
        0x70,
        0x70,
        0x6C,
        0x69,
        0x63,
        0x61,
        0x74,
        0x69,
        0x6F,
        0x6E,
        0x2F,
        0x6A,
        0x73,
        0x6F,
        0x6E,
    ]
}

/// Whether a `Content-Type` header announces JSON.
pub fn accepts_content_type(content_type: Option<&[u8]>) -> (r: bool)
    ensures
        r == is_json(auth::value_of(content_type)),
{
    let value: &[u8] = match content_type {
        Some(value) => value,
        None => {
            return false;
        },
    };
    if !auth::header_is_text(value) || value.len() < 16 {
        return false;
    }
    let r: bool = value[0] == 0x61 && value[1] == 0x70 && value[2] == 0x70 && value[3] == 0x6C
        && value[4] == 0x69 && value[5] == 0x63 && value[6] == 0x61 && value[7] == 0x74 && value[8]
        == 0x69 && value[9] == 0x6F && value[10] == 0x6E && value[11] == 0x2F && value[12] == 0x6A
        && value[13] == 0x73 && value[14] == 0x6F && value[15] == 0x6E;
    proof {
        if r {
            assert(value@.take(16) == json_type());
        } else {
            assert(forall|i: int| 0 <= i < 16 ==> value@.take(16)[i] == value@[i]);
        }
    }
    r
}

/// The status and the body of the reply to a message post, from whether its
/// `Content-Type` announces JSON, what parsing its body gave, and whether a
/// session took the message. Nothing where that last question is still open:
/// the message is offered to its session only after both other tests.
pub open spec fn post_answer(
    json: bool,
    parsed: Result<(), Seq<char>>,
    delivered: Option<bool>,
) -> Option<(u16, Seq<char>)> {
    if !json {
        Some((415, "Content-Type must be application/json"@))
    } else {
        match (parsed, delivered) {
            (Err(e), _) => Some((400, "Invalid JSON-RPC message: "@ + e)),
            (Ok(_), None) => None,
            (Ok(_), Some(true)) => Some((202, "Accepted"@)),
            (Ok(_), Some(false)) => Some((404, "Session not found"@)),
        }
    }
}

/// The outcome of parsing with its text as a sequence.
pub open spec fn parse_view(parsed: Result<(), String>) -> Result<(), Seq<char>> {
    match parsed {
        Ok(_) => Ok(()),
        Err(e) => Err(e@),
    }
}

/// The reply to a message post, or nothing where the message has to be offered
/// to its session first. A post that is not JSON is turned away before one that
/// is no message, and only a message is offered: 202 where the session takes
/// it, 404 where the session is unknown or gone.
pub fn messages_reply(
    content_type: Option<&[u8]>,
    parsed: &Result<(), String>,
    delivered: Option<bool>,
) -> (r: Option<MessageReply>)
    ensures
        (match r {
            Some(reply) => Some((reply.status, reply.body@)),
            None => None,
        }) == post_answer(is_json(auth::value_of(content_type)), parse_view(*parsed), delivered),
{
    if !accepts_content_type(content_type) {
        return Some(
            MessageReply {
                status: 415,
                body: String::from_str("Content-Type must be application/json"),
            },
        );
    }
    match parsed {
        Err(e) => {
            let mut body: String = String::from_str("Invalid JSON-RPC message: ");
            body.append(e.as_str());
            Some(MessageReply { status: 400, body })
        },
        Ok(_) => match delivered {
            None => None,
            Some(true) => Some(MessageReply { status: 202, body: String::from_str("Accepted") }),
            Some(false) => Some(
                MessageReply { status: 404, body: String::from_str("Session not found") },
            ),
        },
    }
}

/// What parsing the body of a post as a JSON-RPC message of a client gives: that
/// it is one, or the text of the error.
pub uninterp spec fn client_message(body: Seq<u8>) -> Result<(), Seq<char>>;

/// `serde_json::from_slice` for `rmcp::model::ClientJsonRpcMessage`: whether the
/// body is such a message, and if not, the error in its `Display` form. Both
/// depend on the body alone. The message itself is not handed out.
#[verifier::external_body]
fn parse_message(body: &[u8]) -> (r: Result<(), String>)
    ensures
        parse_view(r) == client_message(body@),
{
    match serde_json::from_slice::<rmcp::model::ClientJsonRpcMessage>(body) {
        Ok(_) => Ok(()),
        Err(e) => Err(e.to_string()),
    }
}

/// The reply to a message post with this body, or nothing where the message has
/// to be offered to its session first.
pub fn post_reply(content_type: Option<&[u8]>, body: &[u8], delivered: Option<bool>) -> (r: Option<
    MessageReply,
>)
    ensures
        (match r {
            Some(reply) => Some((reply.status, reply.body@)),
            None => None,
        }) == post_answer(
            is_json(auth::value_of(content_type)),
            client_message(body@),
            delivered,
        ),
{
    let parsed: Result<(), String> = parse_message(body);
    messages_reply(content_type, &parsed, delivered)
}

/// A message is offered to its session only where the post is JSON and its body
/// is a message; in all other cases the reply does not depend on any session.
pub proof fn delivery_comes_last(
    json: bool,
    parsed: Result<(), Seq<char>>,
    delivered: Option<bool>,
)
    ensures
        post_answer(json, parsed, None) is None <==> json && parsed is Ok,
        post_answer(json, parsed, None) is Some ==> post_answer(json, parsed, delivered)
            == post_answer(json, parsed, None),
        delivered is Some ==> post_answer(json, parsed, delivered) is Some,
{
}

// ---------------------------------------------------------------------------
// The stream
// ---------------------------------------------------------------------------

#[derive(Debug, Clone, Copy, PartialEq, Eq, Structural)]
pub enum LegacySseTransportError {
    Closed,
    SendTimeout,
}

impl LegacySseTransportError {
    /// The error in words.
    pub fn message(&self) -> (r: &'static str)
        ensures
            r@ == (match *self {
                LegacySseTransportError::Closed => "session closed"@,
                LegacySseTransportError::SendTimeout => "client stopped reading SSE stream"@,
            }),
    {
        match self {
            LegacySseTransportError::Closed => "session closed",
            LegacySseTransportError::SendTimeout => "client stopped reading SSE stream",
        }
    }
}

/// What became of a message to the client: whether it was handed over in time,
/// and if so, whether the stream was still open.
pub fn send_outcome(in_time: bool, open: bool) -> (r: Result<(), LegacySseTransportError>)
    ensures
        r == (if !in_time {
            Err::<(), LegacySseTransportError>(LegacySseTransportError::SendTimeout)
        } else if !open {
            Err::<(), LegacySseTransportError>(LegacySseTransportError::Closed)
        } else {
            Ok::<(), LegacySseTransportError>(())
        }),
{
    if !in_time {
        Err(LegacySseTransportError::SendTimeout)
    } else if !open {
        Err(LegacySseTransportError::Closed)
    } else {
        Ok(())
    }
}

/// Marks a session as disconnected once, when its stream goes away.
#[derive(Debug)]
pub struct DisconnectGuard {
    pub session_id: String,
    pub cancelled: bool,
}

impl DisconnectGuard {
    /// Whether the session is to be disconnected now: the first time only.
    pub fn fire(&mut self) -> (r: bool)
        ensures
            r == !old(self).cancelled,
            final(self).cancelled,
            final(self).session_id == old(self).session_id,
    {
        if !self.cancelled {
            self.cancelled = true;
            true
        } else {
            false
        }
    }
}

// ---------------------------------------------------------------------------
// What the manager keeps
// ---------------------------------------------------------------------------

/// A sweep keeps, in their order, exactly the sessions that are connected or
/// have been disconnected for no longer than their lifetime.
pub proof fn sweep_goes_by_the_lifetime<T>(
    sessions: Seq<SessionEntry<T>>,
    now: u128,
    ttl: u128,
)
    ensures
        unexpired(sessions, now, ttl, sessions.len()) == sessions.filter(
            |entry: SessionEntry<T>|
                entry.disconnected_at is None || now - entry.disconnected_at->Some_0 <= ttl,
        ),
{
    lemma_sweep_filters(sessions, now, ttl, sessions.len());
    assert(sessions.take(sessions.len() as int) == sessions);
}

proof fn lemma_sweep_filters<T>(
    sessions: Seq<SessionEntry<T>>,
    now: u128,
    ttl: u128,
    n: nat,
)
    requires
        n <= sessions.len(),
    ensures
        unexpired(sessions, now, ttl, n) == sessions.take(n as int).filter(
            |entry: SessionEntry<T>|
                entry.disconnected_at is None || now - entry.disconnected_at->Some_0 <= ttl,
        ),
    decreases n,
{
    reveal(Seq::filter);
    if n > 0 {
        lemma_sweep_filters(sessions, now, ttl, (n - 1) as nat);
        assert(sessions.take(n as int).drop_last() == sessions.take(n - 1));
        assert(sessions.take(n as int).last() == sessions[n - 1]);
    }
}

/// The connected sessions are counted, and no others.
pub proof fn connected_sessions_are_counted<T>(sessions: Seq<SessionEntry<T>>)
    ensures
        connected(sessions) == sessions.filter(
            |entry: SessionEntry<T>| entry.disconnected_at is None,
        ).len(),
    decreases sessions.len(),
{
    reveal(Seq::filter);
    if sessions.len() > 0 {
        connected_sessions_are_counted(sessions.drop_last());
    }
}

/// A session is found by its id, with its own handle and state, and an id that
/// no session has is not found.
pub proof fn sessions_are_found_by_id<T>(sessions: Seq<SessionEntry<T>>, id: Seq<char>)
    requires
        forall|i: int, j: int|
            0 <= i < j < sessions.len() ==> (#[trigger] sessions[i]).id@ != (
            #[trigger] sessions[j]).id@,
    ensures
        forall|i: int|
            0 <= i < sessions.len() && (#[trigger] sessions[i]).id@ == id ==> lookup(sessions, id)
                == Some((sessions[i].handle, sessions[i].disconnected_at)),
        (forall|i: int| 0 <= i < sessions.len() ==> (#[trigger] sessions[i]).id@ != id) ==> lookup(
            sessions,
            id,
        ) is None,
{
    lemma_lookup_none(sessions, id);
    assert forall|i: int|
        0 <= i < sessions.len() && (#[trigger] sessions[i]).id@ == id implies lookup(sessions, id)
        == Some((sessions[i].handle, sessions[i].disconnected_at)) by {
        lemma_lookup_at(sessions, i);
    }
}

/// A `Content-Type` announces JSON exactly where it begins with
/// `application/json`, whatever parameters follow in visible ASCII.
pub proof fn json_is_told_by_its_beginning(rest: Seq<char>, other: Seq<u8>)
    requires
        forall|i: int| 0 <= i < rest.len() ==> ' ' <= #[trigger] rest[i] <= '~',
    ensures
        is_json(Some(encode_utf8("application/json"@ + rest))),
        is_json(Some(other)) ==> other.len() >= 16 && other.take(16) == encode_utf8(
            "application/json"@,
        ),
        !is_json(None),
{
    reveal_strlit("application/json");
    let name = "application/json"@;
    let text = name + rest;
    assert forall|i: int| 0 <= i < text.len() implies ' ' <= #[trigger] text[i] <= '~' by {
        if i >= 16 {
            assert(text[i] == rest[i - 16]);
        } else {
            assert(text[i] == name[i]);
        }
    }
    assert(is_ascii_chars(text));
    assert(is_ascii_chars(name));
    is_ascii_chars_encode_utf8(text);
    is_ascii_chars_encode_utf8(name);
    assert(encode_utf8(name) == json_type());
    let value = encode_utf8(text);
    assert forall|i: int| 0 <= i < 16 implies value.take(16)[i] == json_type()[i] by {
        assert(value[i] == text[i] as u8);
        assert(text[i] == name[i]);
        assert(encode_utf8(name)[i] == name[i] as u8);
    }
    assert(value.take(16) == json_type());
    assert forall|i: int| 0 <= i < value.len() implies 0x20 <= #[trigger] value[i] <= 0x7E
        || value[i] == 0x09 by {
        assert(value[i] == text[i] as u8);
    }
}

/// A post that is not JSON is answered with 415, one that is no message with
/// 400 and the reason, a message whose session is unknown or gone with 404, and
/// one that its session takes with 202.
pub proof fn answers_tell_what_went_wrong(
    reason: Seq<char>,
    parsed: Result<(), Seq<char>>,
    delivered: Option<bool>,
)
    ensures
        post_answer(false, parsed, delivered) matches Some((status, _)) && status == 415,
        post_answer(true, Err(reason), delivered) == Some(
            (400u16, "Invalid JSON-RPC message: "@ + reason),
        ),
        post_answer(true, Ok(()), Some(false)) == Some((404u16, "Session not found"@)),
        post_answer(true, Ok(()), Some(true)) == Some((202u16, "Accepted"@)),
{
}

} // verus!
