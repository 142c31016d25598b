//! Session management: logging accounts in, the table of live sessions,
//! and per-request authentication by username and token.
//!
//! The table is modelled as a `Map` from username to session view. A session
//! is live while the current time is before its expiry; an expired session
//! never authenticates, and a new login supersedes it. Time enters as a
//! plain Unix timestamp: the `_at` forms take it as an argument and carry
//! the exact contracts, and the clockless forms read the system clock and
//! delegate.

use vstd::prelude::*;

use crate::accounts::{
    spec_login, AccountError, AccountRecord, AccountView, AccountsManager, LoginCode, LoginView,
};
use crate::token::Token;

verus! {

/// How long a session stays live after login, in seconds: six hours.
pub const SESSION_EXPIRY_SECS: i64 = 21600;

/// A live, authenticated login: the account, its session token, and the
/// validity window.
pub struct AccountSession {
    pub record: AccountRecord,
    pub token: Token,
    pub started: i64,
    pub expires: i64,
}

/// The mathematical shape of a session.
pub struct SessionView {
    pub record: AccountView,
    pub token: u128,
    pub started: int,
    pub expires: int,
}

impl View for AccountSession {
    type V = SessionView;

    open spec fn view(&self) -> SessionView {
        SessionView {
            record: self.record@,
            token: self.token.0,
            started: self.started as int,
            expires: self.expires as int,
        }
    }
}

impl Clone for AccountSession {
    fn clone(&self) -> (r: Self)
        ensures
            r == *self,
    {
        AccountSession {
            record: self.record.clone(),
            token: self.token,
            started: self.started,
            expires: self.expires,
        }
    }
}

impl AccountSession {
    /// The account this session belongs to.
    pub fn record(&self) -> (r: &AccountRecord)
        ensures
            r@ == self@.record,
    {
        &self.record
    }

    /// The token that authenticates this session.
    pub fn token(&self) -> (r: Token)
        ensures
            r.0 == self@.token,
    {
        self.token
    }

    /// When the session was opened.
    pub fn started(&self) -> (r: i64)
        ensures
            r as int == self@.started,
    {
        self.started
    }

    /// When the session stops being live.
    pub fn expires(&self) -> (r: i64)
        ensures
            r as int == self@.expires,
    {
        self.expires
    }

    /// Whether the session is expired at `now`: live means strictly before
    /// the expiry instant.
    pub fn is_expired(&self, now: i64) -> (r: bool)
        ensures
            r == (now as int >= self@.expires),
    {
        now >= self.expires
    }
}

/// The views of a sequence of sessions, in order.
pub open spec fn session_views(s: Seq<AccountSession>) -> Seq<SessionView> {
    Seq::new(s.len(), |i: int| s[i]@)
}

/// No two sessions belong to the same username.
pub open spec fn session_names_unique(s: Seq<SessionView>) -> bool {
    forall|i: int, j: int|
        0 <= i < s.len() && 0 <= j < s.len() && i != j ==> s[i].record.username
            != s[j].record.username
}

/// The mapping a sequence of sessions denotes, keyed by username.
pub open spec fn sessions_to_map(s: Seq<SessionView>) -> Map<Seq<char>, SessionView>
    decreases s.len(),
{
    if s.len() == 0 {
        Map::empty()
    } else {
        sessions_to_map(s.drop_last()).insert(s.last().record.username, s.last())
    }
}

/// A username is in the denoted map exactly when some session carries it.
pub proof fn lemma_sessions_map_dom(s: Seq<SessionView>, u: Seq<char>)
    ensures
        sessions_to_map(s).dom().contains(u) <==> exists|i: int|
            0 <= i < s.len() && s[i].record.username == u,
    decreases s.len(),
{
    if s.len() > 0 {
        lemma_sessions_map_dom(s.drop_last(), u);
        if s.last().record.username == u {
            assert(s[s.len() - 1].record.username == u);
        } else if sessions_to_map(s.drop_last()).dom().contains(u) {
            let i = choose|i: int|
                0 <= i < s.drop_last().len() && s.drop_last()[i].record.username == u;
            assert(s[i].record.username == u);
        } else if exists|i: int| 0 <= i < s.len() && s[i].record.username == u {
            let i = choose|i: int| 0 <= i < s.len() && s[i].record.username == u;
            assert(0 <= i < s.len() - 1);
            assert(s.drop_last()[i].record.username == u);
        }
    }
}

/// With unique usernames, the denoted map sends each session's username to
/// that session.
pub proof fn lemma_sessions_map_get(s: Seq<SessionView>, i: int)
    requires
        session_names_unique(s),
        0 <= i < s.len(),
    ensures
        sessions_to_map(s).dom().contains(s[i].record.username),
        sessions_to_map(s)[s[i].record.username] == s[i],
    decreases s.len(),
{
    if i == s.len() - 1 {
    } else {
        assert(session_names_unique(s.drop_last())) by {
            assert(forall|x: int, y: int|
                0 <= x < s.drop_last().len() && 0 <= y < s.drop_last().len() && x != y
                    ==> s.drop_last()[x] == s[x] && s.drop_last()[y] == s[y]);
        }
        lemma_sessions_map_get(s.drop_last(), i);
        assert(s.drop_last()[i] == s[i]);
        assert(s[i].record.username != s.last().record.username);
    }
}

/// Replacing the session at a slot by one for the same username updates the
/// denoted map at that username.
pub proof fn lemma_sessions_map_update(s: Seq<SessionView>, j: int, r: SessionView)
    requires
        session_names_unique(s),
        0 <= j < s.len(),
        s[j].record.username == r.record.username,
    ensures
        sessions_to_map(s.update(j, r)) == sessions_to_map(s).insert(r.record.username, r),
    decreases s.len(),
{
    let s2 = s.update(j, r);
    let u = r.record.username;
    if j == s.len() - 1 {
        assert(s2.drop_last() =~= s.drop_last());
        assert(s2.last() == r);
        assert(sessions_to_map(s.drop_last()).insert(u, r) =~= sessions_to_map(
            s.drop_last(),
        ).insert(u, s[j]).insert(u, r));
    } else {
        assert(session_names_unique(s.drop_last())) by {
            assert(forall|x: int, y: int|
                0 <= x < s.drop_last().len() && 0 <= y < s.drop_last().len() && x != y
                    ==> s.drop_last()[x] == s[x] && s.drop_last()[y] == s[y]);
        }
        assert(s2.drop_last() =~= s.drop_last().update(j, r));
        lemma_sessions_map_update(s.drop_last(), j, r);
        assert(s2.last() == s.last());
        assert(s[j].record.username == u);
        assert(s.last().record.username != u);
        assert(sessions_to_map(s.drop_last()).insert(u, r).insert(
            s.last().record.username,
            s.last(),
        ) =~= sessions_to_map(s.drop_last()).insert(s.last().record.username, s.last()).insert(
            u,
            r,
        ));
    }
}

/// Whether the session stored for a username is live at `now`.
pub open spec fn spec_session_live(s: SessionView, now: int) -> bool {
    now < s.expires
}

/// What registering a session does: refused without change while a live
/// session for that username exists, installed otherwise.
pub open spec fn spec_register_session(
    m: Map<Seq<char>, SessionView>,
    s: SessionView,
    now: int,
) -> (Map<Seq<char>, SessionView>, bool) {
    if m.dom().contains(s.record.username) && spec_session_live(m[s.record.username], now) {
        (m, false)
    } else {
        (m.insert(s.record.username, s), true)
    }
}

/// Whether a username and token authenticate at `now`: a session exists for
/// the username, its token matches, and it has not expired.
pub open spec fn spec_authenticate(
    m: Map<Seq<char>, SessionView>,
    username: Seq<char>,
    token: u128,
    now: int,
) -> bool {
    m.dom().contains(username) && m[username].token == token && now < m[username].expires
}

/// An expired session never authenticates, with its own token or any other:
/// once `now` reaches the stored expiry, authentication for that username
/// fails until a new login installs a fresh session.
pub proof fn lemma_expired_session_rejected(
    m: Map<Seq<char>, SessionView>,
    username: Seq<char>,
    now: int,
)
    requires
        m.dom().contains(username),
        now >= m[username].expires,
    ensures
        forall|t: u128| !spec_authenticate(m, username, t, now),
{
}

/// The outcome of a login attempt through the session manager.
pub enum AuthCode {
    Success(AccountSession),
    InvalidPassword,
    AccountNotFound,
}

/// Relies on `chrono::Utc::now` and `DateTime::timestamp`: seconds since
/// the Unix epoch. Construction refuses a pre-epoch system clock, and every
/// chrono datetime lies below the year 262144, whose timestamp is far under
/// nine trillion.
#[verifier::external_body]
pub(crate) fn now_unix() -> (r: i64)
    ensures
        0 <= r < 9_000_000_000_000,
{
    chrono::Utc::now().timestamp()
}

/// The session manager: the table of live sessions, keyed by username;
/// callers serialise access.
pub struct AuthManager {
    pub sessions: Vec<AccountSession>,
}

impl View for AuthManager {
    type V = Map<Seq<char>, SessionView>;

    open spec fn view(&self) -> Map<Seq<char>, SessionView> {
        sessions_to_map(self.table())
    }
}

impl AuthManager {
    /// The table's contents in insertion order.
    pub open spec fn table(&self) -> Seq<SessionView> {
        session_views(self.sessions@)
    }

    /// The table's structural invariant: one slot per username.
    pub open spec fn wf(&self) -> bool {
        session_names_unique(self.table())
    }

    /// An empty session manager.
    pub fn start() -> (r: AuthManager)
        ensures
            r.wf(),
            r@ == Map::<Seq<char>, SessionView>::empty(),
    {
        let r = AuthManager { sessions: Vec::new() };
        proof {
            assert(r.table() =~= Seq::<SessionView>::empty());
        }
        r
    }

    /// Where the session for `username` sits in the table, if anywhere.
    fn find_index(&self, username: &str) -> (r: Option<usize>)
        ensures
            match r {
                Some(i) => i < self.table().len() && self.table()[i as int].record.username
                    == username@,
                None => forall|i: int|
                    0 <= i < self.table().len() ==> (#[trigger] self.table()[i]).record.username
                        != username@,
            },
    {
        let mut j: usize = 0;
        while j < self.sessions.len()
            invariant
                j <= self.sessions.len(),
                forall|i: int|
                    0 <= i < j ==> (#[trigger] self.table()[i]).record.username != username@,
            decreases self.sessions.len() - j,
        {
            if crate::accounts::str_eq(self.sessions[j].record.username.as_str(), username) {
                return Some(j);
            }
            j += 1;
        }
        None
    }

    /// The session stored for a username, if any, live or not.
    pub fn lookup(&self, username: &str) -> (r: Option<&AccountSession>)
        requires
            self.wf(),
        ensures
            match r {
                Some(sess) => self@.dom().contains(username@) && sess@ == self@[username@],
                None => !self@.dom().contains(username@),
            },
    {
        proof {
            lemma_sessions_map_dom(self.table(), username@);
        }
        match self.find_index(username) {
            Some(i) => {
                proof {
                    lemma_sessions_map_get(self.table(), i as int);
                }
                Some(&self.sessions[i])
            },
            None => None,
        }
    }

    /// Installs a session unless a live one already exists for the same
    /// username: returns whether it was installed, and never overwrites a
    /// live session. An expired slot is superseded.
    pub fn register_new_session(&mut self, session: AccountSession, now: i64) -> (r: bool)
        requires
            old(self).wf(),
        ensures
            final(self).wf(),
            (final(self)@, r) == spec_register_session(old(self)@, session@, now as int),
    {
        proof {
            lemma_sessions_map_dom(self.table(), session@.record.username);
        }
        let ghost old_table = self.table();
        match self.find_index(session.record.username.as_str()) {
            Some(i) => {
                proof {
                    lemma_sessions_map_get(self.table(), i as int);
                }
                if !self.sessions[i].is_expired(now) {
                    return false;
                }
                let ghost sv = session@;
                self.sessions[i] = session;
                proof {
                    assert(self.table() =~= old_table.update(i as int, sv));
                    lemma_sessions_map_update(old_table, i as int, sv);
                }
                true
            },
            None => {
                let ghost sv = session@;
                self.sessions.push(session);
                proof {
                    assert(self.table().drop_last() =~= old_table);
                    assert(self.table() =~= old_table.push(sv));
                }
                true
            },
        }
    }

    /// Installs or replaces the session for its username, superseding any
    /// prior one: the re-login policy.
    fn upsert_session(&mut self, session: AccountSession)
        requires
            old(self).wf(),
        ensures
            final(self).wf(),
            final(self)@ == old(self)@.insert(session@.record.username, session@),
    {
        proof {
            lemma_sessions_map_dom(self.table(), session@.record.username);
        }
        let ghost old_table = self.table();
        match self.find_index(session.record.username.as_str()) {
            Some(i) => {
                let ghost sv = session@;
                self.sessions[i] = session;
                proof {
                    assert(self.table() =~= old_table.update(i as int, sv));
                    lemma_sessions_map_update(old_table, i as int, sv);
                }
            },
            None => {
                let ghost sv = session@;
                self.sessions.push(session);
                proof {
                    assert(self.table().drop_last() =~= old_table);
                    assert(self.table() =~= old_table.push(sv));
                }
            },
        }
    }

    /// Checks the credentials against the account store at time `now`; on a
    /// match it opens a session good for six hours, superseding any earlier
    /// session for that username, and hands the session back.
    pub fn login_at(
        &mut self,
        accounts: &AccountsManager,
        username: &str,
        password: &str,
        now: i64,
    ) -> (r: AuthCode)
        requires
            old(self).wf(),
            accounts.wf(),
            0 <= now,
            now + SESSION_EXPIRY_SECS <= i64::MAX,
        ensures
            final(self).wf(),
            match r {
                AuthCode::Success(sess) => {
                    &&& spec_login(accounts@, username@, password@) == LoginView::Success(
                        sess@.record,
                    )
                    &&& sess@.started == now as int
                    &&& sess@.expires == now as int + SESSION_EXPIRY_SECS
                    &&& final(self)@ == old(self)@.insert(username@, sess@)
                },
                AuthCode::InvalidPassword => spec_login(accounts@, username@, password@)
                    == LoginView::InvalidPassword && *final(self) == *old(self),
                AuthCode::AccountNotFound => spec_login(accounts@, username@, password@)
                    == LoginView::AccountNotFound && *final(self) == *old(self),
            },
    {
        match accounts.login(username, password) {
            LoginCode::Success(record) => {
                proof {
                    crate::accounts::lemma_seq_to_map_key_field(accounts.records(), username@);
                }
                let session = AccountSession {
                    record,
                    token: Token::generate(),
                    started: now,
                    expires: now + SESSION_EXPIRY_SECS,
                };
                let copy = session.clone();
                self.upsert_session(session);
                AuthCode::Success(copy)
            },
            LoginCode::InvalidPassword => AuthCode::InvalidPassword,
            LoginCode::AccountNotFound => AuthCode::AccountNotFound,
        }
    }

    /// As `login_at`, at the system clock's current time.
    pub fn login(&mut self, accounts: &AccountsManager, username: &str, password: &str) -> (r:
        AuthCode)
        requires
            old(self).wf(),
            accounts.wf(),
        ensures
            final(self).wf(),
            match r {
                AuthCode::Success(sess) => {
                    &&& spec_login(accounts@, username@, password@) == LoginView::Success(
                        sess@.record,
                    )
                    &&& 0 <= sess@.started < 9_000_000_000_000
                    &&& sess@.expires == sess@.started + SESSION_EXPIRY_SECS
                    &&& final(self)@ == old(self)@.insert(username@, sess@)
                },
                AuthCode::InvalidPassword => spec_login(accounts@, username@, password@)
                    == LoginView::InvalidPassword && *final(self) == *old(self),
                AuthCode::AccountNotFound => spec_login(accounts@, username@, password@)
                    == LoginView::AccountNotFound && *final(self) == *old(self),
            },
    {
        let now = now_unix();
        self.login_at(accounts, username, password, now)
    }

    /// Whether the username holds a session with this token that is still
    /// live at `now`: an expired session never authenticates, token match
    /// or not.
    pub fn authenticate_at(&self, username: &str, token: Token, now: i64) -> (r: bool)
        requires
            self.wf(),
        ensures
            r == spec_authenticate(self@, username@, token.0, now as int),
    {
        proof {
            lemma_sessions_map_dom(self.table(), username@);
        }
        match self.find_index(username) {
            Some(i) => {
                proof {
                    lemma_sessions_map_get(self.table(), i as int);
                }
                let sess = &self.sessions[i];
                sess.token.0 == token.0 && !sess.is_expired(now)
            },
            None => false,
        }
    }

    /// As `authenticate_at`, at the system clock's current time: a token
    /// match on a stored session is necessary for success, and a missing
    /// session or wrong token guarantees failure.
    pub fn authenticate(&self, username: &str, token: Token) -> (r: bool)
        requires
            self.wf(),
        ensures
            r ==> self@.dom().contains(username@) && self@[username@].token == token.0,
            !self@.dom().contains(username@) || self@[username@].token != token.0 ==> !r,
            exists|t: i64|
                0 <= t < 9_000_000_000_000 && r == spec_authenticate(
                    self@,
                    username@,
                    token.0,
                    t as int,
                ),
    {
        let now = now_unix();
        let r = self.authenticate_at(username, token, now);
        proof {
            assert(r == spec_authenticate(self@, username@, token.0, now as int));
        }
        r
    }

    /// The session behind a successful authentication at `now`, if any.
    pub fn auth_get_session_at(&self, username: &str, token: Token, now: i64) -> (r: Option<
        AccountSession,
    >)
        requires
            self.wf(),
        ensures
            match r {
                Some(sess) => spec_authenticate(self@, username@, token.0, now as int) && sess@
                    == self@[username@],
                None => !spec_authenticate(self@, username@, token.0, now as int),
            },
    {
        proof {
            lemma_sessions_map_dom(self.table(), username@);
        }
        match self.find_index(username) {
            Some(i) => {
                proof {
                    lemma_sessions_map_get(self.table(), i as int);
                }
                let sess = &self.sessions[i];
                if sess.token.0 == token.0 && !sess.is_expired(now) {
                    Some(sess.clone())
                } else {
                    None
                }
            },
            None => None,
        }
    }

    /// As `auth_get_session_at`, at the system clock's current time.
    pub fn auth_get_session(&self, username: &str, token: Token) -> (r: Option<AccountSession>)
        requires
            self.wf(),
        ensures
            r is Some ==> self@.dom().contains(username@) && r->0@ == self@[username@]
                && r->0@.token == token.0,
            !self@.dom().contains(username@) || self@[username@].token != token.0 ==> r is None,
            exists|t: i64|
                0 <= t < 9_000_000_000_000 && (r is Some <==> spec_authenticate(
                    self@,
                    username@,
                    token.0,
                    t as int,
                )),
    {
        let now = now_unix();
        let r = self.auth_get_session_at(username, token, now);
        proof {
            assert(r is Some <==> spec_authenticate(self@, username@, token.0, now as int));
        }
        r
    }
}

/// Why a create-account request was refused.
#[derive(PartialEq, Eq, Structural, Clone, Copy, Debug)]
pub enum CreateAccountError {
    /// No live session authenticates the requester.
    NotAuthenticated,
    /// The requester's session is live but its account is not an admin.
    NotAdmin,
    /// The requested username is already registered.
    AlreadyExists,
}

/// Handles a create-account request at time `now`: the requester must hold
/// a live session whose account is an admin; then the new account is
/// registered, with the store's own uniqueness rule.
pub fn create_account(
    auth: &AuthManager,
    accounts: &mut AccountsManager,
    requester: &str,
    token: Token,
    now: i64,
    username: String,
    password: String,
    is_admin: bool,
) -> (r: Result<(), CreateAccountError>)
    requires
        auth.wf(),
        old(accounts).wf(),
    ensures
        final(accounts).wf(),
        !spec_authenticate(auth@, requester@, token.0, now as int) ==> r == Err::<
            (),
            CreateAccountError,
        >(CreateAccountError::NotAuthenticated) && *final(accounts) == *old(accounts),
        spec_authenticate(auth@, requester@, token.0, now as int) && !auth@[requester@].record.is_admin
            ==> r == Err::<(), CreateAccountError>(CreateAccountError::NotAdmin) && *final(accounts)
            == *old(accounts),
        spec_authenticate(auth@, requester@, token.0, now as int) && auth@[requester@].record.is_admin
            ==> {
            &&& r is Ok <==> !old(accounts)@.dom().contains(username@)
            &&& (r == Err::<(), CreateAccountError>(CreateAccountError::AlreadyExists)) <==> old(
                accounts,
            )@.dom().contains(username@)
            &&& r is Err ==> *final(accounts) == *old(accounts)
            &&& r is Ok ==> {
                let rec = final(accounts)@[username@];
                &&& final(accounts)@ == old(accounts)@.insert(username@, rec)
                &&& rec.username == username@
                &&& rec.is_admin == is_admin
                &&& crate::hashing::verifies(password@, rec.password_hash)
            }
        },
{
    match auth.auth_get_session_at(requester, token, now) {
        Some(sess) => {
            if *sess.record().is_admin() {
                match accounts.register(username, password, is_admin) {
                    Ok(_) => Ok(()),
                    Err(_) => Err(CreateAccountError::AlreadyExists),
                }
            } else {
                Err(CreateAccountError::NotAdmin)
            }
        },
        None => Err(CreateAccountError::NotAuthenticated),
    }
}

} // verus!
