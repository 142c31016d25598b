//! The in-memory account database: a mapping from username to account
//! record, together with a dirty flag that tracks whether the in-memory
//! state has diverged from the last saved snapshot.
//!
//! The store is modelled as a `Map` from username to record view. A record
//! is well formed when its stored hash is a PHC string the hasher accepts;
//! the store keeps usernames unique. Reading and writing the backing file is
//! the surrounding application's job; the byte format lives in `codec`.

use vstd::prelude::*;

use crate::hashing;
use crate::hashing::{hash_parses, verifies};
use vstd::utf8::encode_utf8;

verus! {

/// A registered account: persisted identity plus the admin capability flag.
pub struct AccountRecord {
    pub username: String,
    pub password_hash: String,
    pub is_admin: bool,
}

/// The mathematical shape of an account record.
pub struct AccountView {
    pub username: Seq<char>,
    pub password_hash: Seq<char>,
    pub is_admin: bool,
}

impl View for AccountRecord {
    type V = AccountView;

    open spec fn view(&self) -> AccountView {
        AccountView {
            username: self.username@,
            password_hash: self.password_hash@,
            is_admin: self.is_admin,
        }
    }
}

impl Clone for AccountRecord {
    fn clone(&self) -> (r: Self)
        ensures
            r == *self,
    {
        AccountRecord {
            username: self.username.clone(),
            password_hash: self.password_hash.clone(),
            is_admin: self.is_admin,
        }
    }
}

impl AccountRecord {
    /// Assembles a record from its parts.
    pub fn new(username: String, password_hash: String, is_admin: bool) -> (r: AccountRecord)
        ensures
            r@ == (AccountView { username: username@, password_hash: password_hash@, is_admin }),
    {
        AccountRecord { username, password_hash, is_admin }
    }

    /// The unique name this record is keyed by.
    pub fn username(&self) -> (r: &str)
        ensures
            r@ == self@.username,
    {
        self.username.as_str()
    }

    /// The stored PHC hash record for this account's password.
    pub fn password_hash(&self) -> (r: &str)
        ensures
            r@ == self@.password_hash,
    {
        self.password_hash.as_str()
    }

    /// Whether the account may manage the server (create accounts).
    pub fn is_admin(&self) -> (r: &bool)
        ensures
            *r == self@.is_admin,
    {
        &self.is_admin
    }
}

/// A record is fit for the store: its hash parses as a PHC string, and its
/// texts fit the size limits of the persisted encoding.
pub open spec fn record_wf(r: AccountView) -> bool {
    &&& hash_parses(r.password_hash)
    &&& encode_utf8(r.username).len() <= usize::MAX
    &&& encode_utf8(r.password_hash).len() <= usize::MAX
}

/// No two records share a username.
pub open spec fn usernames_unique(s: Seq<AccountView>) -> bool {
    forall|i: int, j: int|
        0 <= i < s.len() && 0 <= j < s.len() && i != j ==> s[i].username != s[j].username
}

/// A well-formed store content: unique usernames, every record well formed,
/// and few enough records to count in the persisted encoding's header.
pub open spec fn store_wf(s: Seq<AccountView>) -> bool {
    &&& usernames_unique(s)
    &&& forall|i: int| 0 <= i < s.len() ==> record_wf(#[trigger] s[i])
    &&& s.len() <= usize::MAX
}

/// The views of a sequence of records, in order.
pub open spec fn record_views(s: Seq<AccountRecord>) -> Seq<AccountView> {
    Seq::new(s.len(), |i: int| s[i]@)
}

/// The mapping a sequence of records denotes: each record keyed by its
/// username, later records taking precedence (irrelevant once unique).
pub open spec fn seq_to_map(s: Seq<AccountView>) -> Map<Seq<char>, AccountView>
    decreases s.len(),
{
    if s.len() == 0 {
        Map::empty()
    } else {
        seq_to_map(s.drop_last()).insert(s.last().username, s.last())
    }
}

/// A username is in the denoted map exactly when some record carries it.
pub proof fn lemma_seq_to_map_dom(s: Seq<AccountView>, u: Seq<char>)
    ensures
        seq_to_map(s).dom().contains(u) <==> exists|i: int| 0 <= i < s.len() && s[i].username == u,
    decreases s.len(),
{
    if s.len() > 0 {
        lemma_seq_to_map_dom(s.drop_last(), u);
        if s.last().username == u {
            assert(s[s.len() - 1].username == u);
        } else if seq_to_map(s.drop_last()).dom().contains(u) {
            let i = choose|i: int| 0 <= i < s.drop_last().len() && s.drop_last()[i].username == u;
            assert(s[i].username == u);
        } else if exists|i: int| 0 <= i < s.len() && s[i].username == u {
            let i = choose|i: int| 0 <= i < s.len() && s[i].username == u;
            assert(0 <= i < s.len() - 1);
            assert(s.drop_last()[i].username == u);
        }
    }
}

/// With unique usernames, the denoted map sends each record's username to
/// that record.
pub proof fn lemma_seq_to_map_get(s: Seq<AccountView>, i: int)
    requires
        usernames_unique(s),
        0 <= i < s.len(),
    ensures
        seq_to_map(s).dom().contains(s[i].username),
        seq_to_map(s)[s[i].username] == s[i],
    decreases s.len(),
{
    if i == s.len() - 1 {
    } else {
        assert(usernames_unique(s.drop_last())) by {
            assert(forall|x: int, y: int|
                0 <= x < s.drop_last().len() && 0 <= y < s.drop_last().len() && x != y
                    ==> s.drop_last()[x] == s[x] && s.drop_last()[y] == s[y]);
        }
        lemma_seq_to_map_get(s.drop_last(), i);
        assert(s.drop_last()[i] == s[i]);
        assert(s[i].username != s.last().username);
    }
}

/// In the map a well-formed store denotes, every value carries the
/// username it is keyed by.
pub proof fn lemma_seq_to_map_key_field(s: Seq<AccountView>, u: Seq<char>)
    requires
        usernames_unique(s),
        seq_to_map(s).dom().contains(u),
    ensures
        seq_to_map(s)[u].username == u,
{
    lemma_seq_to_map_dom(s, u);
    let i = choose|i: int| 0 <= i < s.len() && s[i].username == u;
    lemma_seq_to_map_get(s, i);
}

/// The outcome of a login attempt against the store.
pub enum LoginCode {
    Success(AccountRecord),
    InvalidPassword,
    AccountNotFound,
}

/// The mathematical shape of a login outcome.
pub enum LoginView {
    Success(AccountView),
    InvalidPassword,
    AccountNotFound,
}

impl View for LoginCode {
    type V = LoginView;

    open spec fn view(&self) -> LoginView {
        match self {
            LoginCode::Success(rec) => LoginView::Success(rec@),
            LoginCode::InvalidPassword => LoginView::InvalidPassword,
            LoginCode::AccountNotFound => LoginView::AccountNotFound,
        }
    }
}

/// Why an account operation was refused.
#[derive(PartialEq, Eq, Structural, Clone, Copy, Debug)]
pub enum AccountError {
    /// The username is already a key in the store.
    AlreadyExists,
    /// The record's stored hash is not one the password hasher accepts.
    CorruptRecord,
}

/// What registering a record does to the store's mapping.
pub open spec fn spec_register(
    m: Map<Seq<char>, AccountView>,
    rec: AccountView,
) -> Map<Seq<char>, AccountView> {
    m.insert(rec.username, rec)
}

/// What a login attempt returns, as a function of the store's mapping.
pub open spec fn spec_login(
    m: Map<Seq<char>, AccountView>,
    username: Seq<char>,
    password: Seq<char>,
) -> LoginView {
    if m.dom().contains(username) {
        if verifies(password, m[username].password_hash) {
            LoginView::Success(m[username])
        } else {
            LoginView::InvalidPassword
        }
    } else {
        LoginView::AccountNotFound
    }
}

/// A thread-unsafe in-memory account database; callers serialise access.
/// It tracks whether its contents have diverged from the last snapshot
/// handed out by `save`.
pub struct AccountsManager {
    pub accounts: Vec<AccountRecord>,
    pub dirty: bool,
}

impl View for AccountsManager {
    type V = Map<Seq<char>, AccountView>;

    open spec fn view(&self) -> Map<Seq<char>, AccountView> {
        seq_to_map(self.records())
    }
}

impl AccountsManager {
    /// The store's contents in insertion order.
    pub open spec fn records(&self) -> Seq<AccountView> {
        record_views(self.accounts@)
    }

    /// The store's structural invariant.
    pub open spec fn wf(&self) -> bool {
        store_wf(self.records())
    }

    /// An empty store, considered saved.
    pub fn new() -> (r: AccountsManager)
        ensures
            r.wf(),
            r@ == Map::<Seq<char>, AccountView>::empty(),
            r.records() == Seq::<AccountView>::empty(),
            !r.dirty,
    {
        let r = AccountsManager { accounts: Vec::new(), dirty: false };
        proof {
            assert(r.records() =~= Seq::<AccountView>::empty());
        }
        r
    }

    /// Where `username` sits in the store, if anywhere.
    fn find_index(&self, username: &str) -> (r: Option<usize>)
        ensures
            match r {
                Some(i) => i < self.records().len() && self.records()[i as int].username
                    == username@,
                None => forall|i: int|
                    0 <= i < self.records().len() ==> (#[trigger] self.records()[i]).username
                        != username@,
            },
    {
        let mut j: usize = 0;
        while j < self.accounts.len()
            invariant
                j <= self.accounts.len(),
                forall|i: int|
                    0 <= i < j ==> (#[trigger] self.records()[i]).username != username@,
            decreases self.accounts.len() - j,
        {
            if str_eq(self.accounts[j].username.as_str(), username) {
                return Some(j);
            }
            j += 1;
        }
        None
    }

    /// Whether in-memory state has diverged from the last snapshot.
    pub fn is_dirty(&self) -> (r: bool)
        ensures
            r == self.dirty,
    {
        self.dirty
    }

    /// Marks the store as diverged; the application calls this when writing
    /// a snapshot out failed after the store had already been marked saved.
    pub fn mark_dirty(&mut self)
        ensures
            final(self).accounts == old(self).accounts,
            final(self).dirty,
    {
        self.dirty = true;
    }

    /// Inserts an already-built record under its username.
    ///
    /// Succeeds exactly when the username is free and the record's stored
    /// hash is a PHC string the hasher accepts; a corrupt record is refused
    /// rather than stored, so the store's invariant survives round trips.
    pub fn register_from_record(&mut self, record: AccountRecord) -> (r: Result<
        (),
        AccountError,
    >)
        requires
            old(self).wf(),
        ensures
            final(self).wf(),
            r is Ok <==> !old(self)@.dom().contains(record@.username)
                && hash_parses(record@.password_hash),
            r is Ok ==> final(self)@ == spec_register(old(self)@, record@)
                && final(self).records() == old(self).records().push(record@)
                && final(self).dirty,
            r is Err ==> *final(self) == *old(self),
            (r == Err::<(), AccountError>(AccountError::AlreadyExists))
                <==> old(self)@.dom().contains(record@.username),
    {
        proof {
            lemma_seq_to_map_dom(self.records(), record@.username);
        }
        match self.find_index(record.username.as_str()) {
            Some(_) => Err(AccountError::AlreadyExists),
            None => {
                if !hashing::hash_record_parses(record.password_hash.as_str()) {
                    return Err(AccountError::CorruptRecord);
                }
                let ghost old_records = self.records();
                let ghost rec = record@;
                let ulen = record.username.as_str().as_bytes().len();
                let hlen = record.password_hash.as_str().as_bytes().len();
                proof {
                    assert(encode_utf8(rec.username).len() == ulen);
                    assert(encode_utf8(rec.password_hash).len() == hlen);
                }
                self.accounts.push(record);
                let n = self.accounts.len();
                proof {
                    assert(self.records().len() == n);
                    let s2 = self.records();
                    assert(s2.drop_last() =~= old_records);
                    assert(s2 =~= old_records.push(rec));
                    assert(seq_to_map(s2) == seq_to_map(old_records).insert(rec.username, rec));
                }
                self.dirty = true;
                Ok(())
            },
        }
    }

    /// Registers a new account: hashes the password with a fresh salt and
    /// inserts the record, marking the store dirty.
    ///
    /// Succeeds exactly when the username is free; refused with
    /// `AlreadyExists`, and the store unchanged, exactly when it is taken.
    pub fn register(&mut self, username: String, password: String, is_admin: bool) -> (r: Result<
        (),
        AccountError,
    >)
        requires
            old(self).wf(),
        ensures
            final(self).wf(),
            r is Ok <==> !old(self)@.dom().contains(username@),
            (r == Err::<(), AccountError>(AccountError::AlreadyExists))
                <==> old(self)@.dom().contains(username@),
            r is Err ==> *final(self) == *old(self),
            r is Ok ==> {
                let rec = final(self)@[username@];
                &&& final(self)@ == spec_register(old(self)@, rec)
                &&& final(self).records() == old(self).records().push(rec)
                &&& rec.username == username@
                &&& rec.is_admin == is_admin
                &&& hash_parses(rec.password_hash)
                &&& verifies(password@, rec.password_hash)
                &&& final(self).dirty
            },
    {
        proof {
            lemma_seq_to_map_dom(self.records(), username@);
        }
        if self.find_index(username.as_str()).is_some() {
            return Err(AccountError::AlreadyExists);
        }
        let hash = hashing::hash_password(password.as_str());
        let record = AccountRecord { username, password_hash: hash, is_admin };
        let r = self.register_from_record(record);
        proof {
            if r is Ok {
                lemma_seq_to_map_get(self.records(), self.records().len() - 1);
            }
        }
        r
    }

    /// Checks a password against the stored record for `username`.
    ///
    /// Returns the record on a match, `InvalidPassword` when the account
    /// exists but the password does not verify, and `AccountNotFound` when
    /// the username is not a key.
    pub fn login(&self, username: &str, password: &str) -> (r: LoginCode)
        requires
            self.wf(),
        ensures
            r@ == spec_login(self@, username@, password@),
    {
        proof {
            lemma_seq_to_map_dom(self.records(), username@);
        }
        match self.find_index(username) {
            Some(i) => {
                proof {
                    lemma_seq_to_map_get(self.records(), i as int);
                }
                let record = &self.accounts[i];
                if hashing::verify_password(password, record.password_hash.as_str()) {
                    LoginCode::Success(record.clone())
                } else {
                    LoginCode::InvalidPassword
                }
            },
            None => LoginCode::AccountNotFound,
        }
    }

    /// Does nothing; retained so callers can force construction of the
    /// store where it is created lazily.
    pub fn verify(&self) {
    }

    /// Builds a store directly from a list of records, considered saved;
    /// the caller persists the snapshot it just created.
    ///
    /// Succeeds exactly when no username repeats and every record's stored
    /// hash is one the password hasher accepts.
    pub fn create(records: Vec<AccountRecord>) -> (r: Result<AccountsManager, AccountError>)
        ensures
            r is Ok <==> usernames_unique(record_views(records@)) && (forall|i: int|
                0 <= i < records@.len() ==> hash_parses(
                    #[trigger] record_views(records@)[i].password_hash,
                )),
            r is Ok ==> {
                &&& r->Ok_0.wf()
                &&& r->Ok_0.records() == record_views(records@)
                &&& r->Ok_0@ == seq_to_map(record_views(records@))
                &&& !r->Ok_0.dirty
            },
    {
        let ghost views = record_views(records@);
        let mut m = AccountsManager::new();
        let mut i: usize = 0;
        while i < records.len()
            invariant
                i <= records@.len(),
                views == record_views(records@),
                m.wf(),
                m.records() == views.take(i as int),
                forall|x: int| 0 <= x < i ==> hash_parses(#[trigger] views[x].password_hash),
            decreases records@.len() - i,
        {
            let rec = records[i].clone();
            let outcome = m.register_from_record(rec);
            match outcome {
                Ok(_) => {},
                Err(AccountError::AlreadyExists) => {
                    proof {
                        lemma_seq_to_map_dom(m.records(), views[i as int].username);
                        let j = choose|j: int|
                            0 <= j < m.records().len()
                                && m.records()[j].username == views[i as int].username;
                        assert(views[j].username == views[i as int].username);
                        assert(!usernames_unique(views));
                    }
                    return Err(AccountError::AlreadyExists);
                },
                Err(e) => {
                    proof {
                        assert(!hash_parses(views[i as int].password_hash));
                    }
                    return Err(e);
                },
            }
            proof {
                assert(views.take(i as int).push(views[i as int]) =~= views.take(i as int + 1));
            }
            i += 1;
        }
        m.dirty = false;
        proof {
            assert(views.take(records@.len() as int) =~= views);
        }
        Ok(m)
    }
}


/// Registering a username makes it a key of the store, so an immediately
/// following registration of the same username is refused: `register`
/// returns `AlreadyExists` exactly when the username is a key.
pub proof fn lemma_register_then_register(m: Map<Seq<char>, AccountView>, rec: AccountView)
    ensures
        spec_register(m, rec).dom().contains(rec.username),
{
}

/// Logging in with a password that verifies against the hash a registration
/// stored succeeds and returns the registered record.
pub proof fn lemma_register_then_login(
    m: Map<Seq<char>, AccountView>,
    rec: AccountView,
    password: Seq<char>,
)
    requires
        verifies(password, rec.password_hash),
    ensures
        spec_login(spec_register(m, rec), rec.username, password) == LoginView::Success(rec),
{
}

/// A password that does not verify against the stored hash is refused with
/// `InvalidPassword`; in particular, after registering with a password whose
/// hash it does not match, a login with the mismatched password fails.
pub proof fn lemma_login_wrong_password(
    m: Map<Seq<char>, AccountView>,
    username: Seq<char>,
    wrong: Seq<char>,
)
    requires
        m.dom().contains(username),
        !verifies(wrong, m[username].password_hash),
    ensures
        spec_login(m, username, wrong) == LoginView::InvalidPassword,
{
}

/// A login for a username that is not a key is refused with
/// `AccountNotFound`, whatever the password.
pub proof fn lemma_login_unknown(
    m: Map<Seq<char>, AccountView>,
    username: Seq<char>,
    password: Seq<char>,
)
    requires
        !m.dom().contains(username),
    ensures
        spec_login(m, username, password) == LoginView::AccountNotFound,
{
}

/// The outcomes of a burst of racing registrations, resolved one at a time
/// as the store's check-then-insert atomicity requires: each attempt
/// succeeds exactly when its username is still free, and a success installs
/// its record.
pub open spec fn register_race_outcomes(
    m: Map<Seq<char>, AccountView>,
    recs: Seq<AccountView>,
) -> Seq<bool>
    decreases recs.len(),
{
    if recs.len() == 0 {
        Seq::empty()
    } else {
        let ok = !m.dom().contains(recs[0].username);
        let m2 = if ok {
            spec_register(m, recs[0])
        } else {
            m
        };
        seq![ok] + register_race_outcomes(m2, recs.drop_first())
    }
}

proof fn lemma_register_race_taken(
    m: Map<Seq<char>, AccountView>,
    recs: Seq<AccountView>,
    u: Seq<char>,
)
    requires
        m.dom().contains(u),
        forall|i: int| 0 <= i < recs.len() ==> (#[trigger] recs[i]).username == u,
    ensures
        register_race_outcomes(m, recs).len() == recs.len(),
        forall|i: int| 0 <= i < recs.len() ==> !(#[trigger] register_race_outcomes(m, recs)[i]),
    decreases recs.len(),
{
    if recs.len() > 0 {
        assert(recs[0].username == u);
        lemma_register_race_taken(m, recs.drop_first(), u);
        assert(forall|i: int|
            1 <= i < recs.len() ==> register_race_outcomes(m, recs)[i]
                == register_race_outcomes(m, recs.drop_first())[i - 1]);
    }
}

/// However many registrations race for one free username, exactly one of
/// them succeeds — the one resolved first — and every other attempt is
/// refused with `AlreadyExists`.
pub proof fn lemma_register_race(
    m: Map<Seq<char>, AccountView>,
    recs: Seq<AccountView>,
    u: Seq<char>,
)
    requires
        !m.dom().contains(u),
        recs.len() > 0,
        forall|i: int| 0 <= i < recs.len() ==> (#[trigger] recs[i]).username == u,
    ensures
        register_race_outcomes(m, recs).len() == recs.len(),
        register_race_outcomes(m, recs)[0],
        forall|i: int| 1 <= i < recs.len() ==> !(#[trigger] register_race_outcomes(m, recs)[i]),
{
    assert(recs[0].username == u);
    let m2 = spec_register(m, recs[0]);
    assert(m2.dom().contains(u));
    lemma_register_race_taken(m2, recs.drop_first(), u);
    assert(forall|i: int|
        1 <= i < recs.len() ==> register_race_outcomes(m, recs)[i] == register_race_outcomes(
            m2,
            recs.drop_first(),
        )[i - 1]);
}

/// Compares two string slices by contents.
pub(crate) fn str_eq(a: &str, b: &str) -> (r: bool)
    ensures
        r == (a@ == b@),
{
    let x: String = a.to_owned();
    let y: String = b.to_owned();
    x == y
}

} // verus!
