//! Sessions: server-issued conversation handles, and the decisions that find a
//! reusable one for a server address or establish a new one.
use vstd::prelude::*;

verus! {

/// A session of one server address: its identifier and the operations that the
/// server advertised for it.
#[derive(Debug)]
pub struct Session {
    pub addr: String,
    pub session: String,
    pub ops: Vec<String>,
}

impl Session {
    pub fn new(addr: String, session: String, ops: Vec<String>) -> (r: Self)
        ensures
            r == (Session { addr, session, ops }),
    {
        Self { addr, session, ops }
    }

    /// The session identifier.
    pub fn session(&self) -> (r: String)
        ensures
            r@ == self.session@,
    {
        self.session.clone()
    }

    /// The session identifier.
    pub fn id(&self) -> (r: String)
        ensures
            r@ == self.session@,
    {
        self.session.clone()
    }

    /// Whether the server advertised the operation `op`.
    pub fn is_op_available(&self, op: &str) -> (r: bool)
        ensures
            r <==> exists|i: int| 0 <= i < self.ops@.len() && #[trigger] self.ops@[i]@ == op@,
    {
        let o = op.to_owned();
        let mut i: usize = 0;
        while i < self.ops.len()
            invariant
                i <= self.ops.len(),
                o@ == op@,
                forall|j: int| 0 <= j < i ==> #[trigger] self.ops@[j]@ != op@,
            decreases self.ops.len() - i,
        {
            if self.ops[i] == o {
                return true;
            }
            i = i + 1;
        }
        false
    }
}

/// Whether `id` is among the identifiers that a server listed.
pub fn session_id_exists(listed: &Vec<String>, id: &String) -> (r: bool)
    ensures
        r <==> listed_contains(listed@, id@),
{
    let mut i: usize = 0;
    while i < listed.len()
        invariant
            i <= listed.len(),
            forall|j: int| 0 <= j < i ==> #[trigger] listed@[j]@ != id@,
        decreases listed.len() - i,
    {
        if listed[i] == *id {
            return true;
        }
        i = i + 1;
    }
    false
}

/// `id` is among the listed identifiers.
pub open spec fn listed_contains(listed: Seq<String>, id: Seq<char>) -> bool {
    exists|i: int| 0 <= i < listed.len() && #[trigger] listed[i]@ == id
}

/// Where the resolution of a session stands.
#[derive(Debug)]
pub enum Phase {
    /// Nothing done yet for the address.
    Start(String),
    /// A cached session is being checked against the server's listing.
    Checking(String, Session),
    /// A new session is being created for the address.
    Creating(String),
    /// The server is being asked what it supports for a new identifier.
    Describing(String, String),
    /// A new session is being stored.
    Persisting(Session),
    /// The session has been handed out.
    Finished,
}

/// What the outside world reports back.
#[derive(Debug)]
pub enum SessionEvent {
    /// The stored session for the address, if any.
    Loaded(Option<Session>),
    /// The identifiers that the live server lists.
    Listed(Vec<String>),
    /// The identifier of a session that the server just created.
    Created(String),
    /// The operations that the server advertises.
    Described(Vec<String>),
    /// The new session was stored.
    Persisted,
    /// Storing the new session failed.
    PersistFailed,
}

/// What to do next.
#[derive(Debug)]
pub enum SessionStep {
    /// List the live server's sessions.
    ListSessions,
    /// Ask the server for a new session.
    CreateSession,
    /// Ask the server which operations it supports.
    DescribeServer,
    /// Store the pending session, replacing the entry for its address.
    Persist,
    /// The session to use.
    Use(Session),
}

#[derive(Debug)]
pub enum SessionError {
    /// An event came that the current phase does not expect.
    OutOfOrder,
    /// A session was created on the server, with this identifier, but could not
    /// be stored.
    PersistFailed(String),
}

/// The resolution of a session for one server address.
#[derive(Debug)]
pub struct SessionResolver {
    pub phase: Phase,
}

/// The decision taken on an event.
pub open spec fn next_spec(phase: Phase, ev: SessionEvent) -> Result<(Phase, SessionStep), SessionError> {
    match (phase, ev) {
        (Phase::Start(addr), SessionEvent::Loaded(Some(s))) => Ok(
            (Phase::Checking(addr, s), SessionStep::ListSessions),
        ),
        (Phase::Start(addr), SessionEvent::Loaded(None)) => Ok(
            (Phase::Creating(addr), SessionStep::CreateSession),
        ),
        (Phase::Checking(addr, s), SessionEvent::Listed(l)) => if listed_contains(
            l@,
            s.session@,
        ) {
            Ok((Phase::Finished, SessionStep::Use(s)))
        } else {
            Ok((Phase::Creating(addr), SessionStep::CreateSession))
        },
        (Phase::Creating(addr), SessionEvent::Created(id)) => Ok(
            (Phase::Describing(addr, id), SessionStep::DescribeServer),
        ),
        (Phase::Describing(addr, id), SessionEvent::Described(ops)) => Ok(
            (Phase::Persisting(Session { addr, session: id, ops }), SessionStep::Persist),
        ),
        (Phase::Persisting(s), SessionEvent::Persisted) => Ok(
            (Phase::Finished, SessionStep::Use(s)),
        ),
        (Phase::Persisting(s), SessionEvent::PersistFailed) => Err(
            SessionError::PersistFailed(s.session),
        ),
        _ => Err(SessionError::OutOfOrder),
    }
}

/// A stored session whose identifier the live server still lists is handed back
/// as it was stored, right after the listing, without any session being created.
pub proof fn lemma_session_reused(addr: String, cached: Session, live: Vec<String>)
    requires
        listed_contains(live@, cached.session@),
    ensures
        next_spec(Phase::Start(addr), SessionEvent::Loaded(Some(cached))) == Ok::<
            (Phase, SessionStep),
            SessionError,
        >((Phase::Checking(addr, cached), SessionStep::ListSessions)),
        next_spec(Phase::Checking(addr, cached), SessionEvent::Listed(live)) == Ok::<
            (Phase, SessionStep),
            SessionError,
        >((Phase::Finished, SessionStep::Use(cached))),
{
}

/// A stored session whose identifier the live server no longer lists is not handed
/// out: a new session is created, described, stored for the address, and the
/// session handed out is the new one, whose identifier is not the stale one as long
/// as the server issued a different one.
pub proof fn lemma_stale_session_replaced(
    addr: String,
    cached: Session,
    live: Vec<String>,
    id: String,
    ops: Vec<String>,
)
    requires
        !listed_contains(live@, cached.session@),
    ensures
        next_spec(Phase::Checking(addr, cached), SessionEvent::Listed(live)) == Ok::<
            (Phase, SessionStep),
            SessionError,
        >((Phase::Creating(addr), SessionStep::CreateSession)),
        next_spec(Phase::Creating(addr), SessionEvent::Created(id)) == Ok::<
            (Phase, SessionStep),
            SessionError,
        >((Phase::Describing(addr, id), SessionStep::DescribeServer)),
        next_spec(Phase::Describing(addr, id), SessionEvent::Described(ops)) == Ok::<
            (Phase, SessionStep),
            SessionError,
        >((Phase::Persisting(Session { addr, session: id, ops }), SessionStep::Persist)),
        next_spec(Phase::Persisting(Session { addr, session: id, ops }), SessionEvent::Persisted)
            == Ok::<(Phase, SessionStep), SessionError>(
            (Phase::Finished, SessionStep::Use(Session { addr, session: id, ops })),
        ),
        next_spec(
            Phase::Persisting(Session { addr, session: id, ops }),
            SessionEvent::PersistFailed,
        ) == Err::<(Phase, SessionStep), SessionError>(SessionError::PersistFailed(id)),
        id@ != cached.session@ ==> (Session { addr, session: id, ops }).session@
            != cached.session@,
{
}

impl SessionResolver {
    /// Starts resolving a session for `addr`; the first thing to do is to load the
    /// stored session of that address.
    pub fn new(addr: String) -> (r: SessionResolver)
        ensures
            r.phase == Phase::Start(addr),
    {
        SessionResolver { phase: Phase::Start(addr) }
    }

    /// The session waiting to be stored, while one is.
    pub fn pending(&self) -> (r: Option<&Session>)
        ensures
            match self.phase {
                Phase::Persisting(s) => r == Some(&s),
                _ => r is None,
            },
    {
        match &self.phase {
            Phase::Persisting(s) => Some(s),
            _ => None,
        }
    }

    /// Takes the outcome of the last step and decides the next one.
    pub fn step(self, ev: SessionEvent) -> (r: Result<(SessionResolver, SessionStep), SessionError>)
        ensures
            match (r, next_spec(self.phase, ev)) {
                (Ok((res, step)), Ok((phase, expected))) => res.phase == phase && step == expected,
                (Err(e), Err(expected)) => e == expected,
                _ => false,
            },
    {
        match get_existing_session_id(self.phase, ev) {
            Ok((phase, step)) => Ok((SessionResolver { phase }, step)),
            Err(e) => Err(e),
        }
    }
}

/// Finds a known session on the server, or else has a new one created, described
/// and stored: the decision taken in `phase` on the event `ev`.
pub fn get_existing_session_id(phase: Phase, ev: SessionEvent) -> (r: Result<(Phase, SessionStep), SessionError>)
    ensures
        r == next_spec(phase, ev),
{
    match (phase, ev) {
        (Phase::Start(addr), SessionEvent::Loaded(Some(s))) => Ok(
            (Phase::Checking(addr, s), SessionStep::ListSessions),
        ),
        (Phase::Start(addr), SessionEvent::Loaded(None)) => Ok(
            (Phase::Creating(addr), SessionStep::CreateSession),
        ),
        (Phase::Checking(addr, s), SessionEvent::Listed(l)) => {
            if session_id_exists(&l, &s.session) {
                Ok((Phase::Finished, SessionStep::Use(s)))
            } else {
                Ok((Phase::Creating(addr), SessionStep::CreateSession))
            }
        },
        (Phase::Creating(addr), SessionEvent::Created(id)) => Ok(
            (Phase::Describing(addr, id), SessionStep::DescribeServer),
        ),
        (Phase::Describing(addr, id), SessionEvent::Described(ops)) => Ok(
            (Phase::Persisting(Session { addr, session: id, ops }), SessionStep::Persist),
        ),
        (Phase::Persisting(s), SessionEvent::Persisted) => Ok((Phase::Finished, SessionStep::Use(s))),
        (Phase::Persisting(s), SessionEvent::PersistFailed) => Err(
            SessionError::PersistFailed(s.session),
        ),
        _ => Err(SessionError::OutOfOrder),
    }
}

} // verus!
