use orpheus::accounts::AccountsManager;
use orpheus::auth::{
    create_account, AccountSession, AuthCode, AuthManager, CreateAccountError,
    SESSION_EXPIRY_SECS,
};
use orpheus::token::Token;

fn store_with(users: &[(&str, &str, bool)]) -> AccountsManager {
    let mut store = AccountsManager::new();
    for (name, password, admin) in users {
        store
            .register(String::from(*name), String::from(*password), *admin)
            .unwrap();
    }
    store
}

#[test]
fn login_and_authenticate_scenario() {
    let store = store_with(&[("alice", "secret", false)]);
    let mut auth = AuthManager::start();

    let session = match auth.login_at(&store, "alice", "secret", 1_000) {
        AuthCode::Success(session) => session,
        _ => panic!("expected a successful login"),
    };
    assert_eq!(session.record().username(), "alice");
    assert_eq!(session.started(), 1_000);
    assert_eq!(session.expires(), 1_000 + SESSION_EXPIRY_SECS);

    let token = session.token();
    assert!(auth.authenticate_at("alice", token, 1_000));
    assert!(auth.authenticate_at("alice", token, 1_000 + SESSION_EXPIRY_SECS - 1));
    // Past the six-hour lifetime the same token no longer authenticates.
    assert!(!auth.authenticate_at("alice", token, 1_000 + SESSION_EXPIRY_SECS));
    assert!(!auth.authenticate_at("alice", token, 1_000 + SESSION_EXPIRY_SECS + 1));

    assert!(matches!(
        auth.login_at(&store, "alice", "wrongpass", 2_000),
        AuthCode::InvalidPassword
    ));
    assert!(matches!(
        auth.login_at(&store, "nobody", "secret", 2_000),
        AuthCode::AccountNotFound
    ));
}

#[test]
fn wrong_token_or_unknown_user_fails() {
    let store = store_with(&[("alice", "secret", false)]);
    let mut auth = AuthManager::start();
    let session = match auth.login_at(&store, "alice", "secret", 50) {
        AuthCode::Success(session) => session,
        _ => panic!("expected a successful login"),
    };
    let other = Token(session.token().0 ^ 1);
    assert!(!auth.authenticate_at("alice", other, 51));
    assert!(!auth.authenticate_at("bob", session.token(), 51));
    assert!(auth.auth_get_session_at("alice", session.token(), 51).is_some());
    assert!(auth.auth_get_session_at("alice", other, 51).is_none());
}

#[test]
fn expired_session_never_authenticates() {
    let store = store_with(&[("alice", "secret", false)]);
    let mut auth = AuthManager::start();
    let session = match auth.login_at(&store, "alice", "secret", 0) {
        AuthCode::Success(session) => session,
        _ => panic!("expected a successful login"),
    };
    assert!(!session.is_expired(SESSION_EXPIRY_SECS - 1));
    assert!(session.is_expired(SESSION_EXPIRY_SECS));
    assert!(!auth.authenticate_at("alice", session.token(), SESSION_EXPIRY_SECS));
    assert!(auth
        .auth_get_session_at("alice", session.token(), SESSION_EXPIRY_SECS)
        .is_none());
}

#[test]
fn register_new_session_refuses_a_live_session_only() {
    let store = store_with(&[("alice", "secret", false)]);
    let mut auth = AuthManager::start();
    let first = match auth.login_at(&store, "alice", "secret", 0) {
        AuthCode::Success(session) => session,
        _ => panic!("expected a successful login"),
    };

    let challenger = AccountSession {
        record: first.record().clone(),
        token: Token::generate(),
        started: 10,
        expires: 10 + SESSION_EXPIRY_SECS,
    };
    // While the first session is live, registration is refused unchanged.
    assert!(!auth.register_new_session(challenger.clone(), 10));
    assert_eq!(
        auth.lookup("alice").unwrap().token().0,
        first.token().0
    );
    // Once it has expired, the newcomer supersedes it.
    assert!(auth.register_new_session(challenger.clone(), SESSION_EXPIRY_SECS));
    assert_eq!(
        auth.lookup("alice").unwrap().token().0,
        challenger.token().0
    );
}

#[test]
fn relogin_supersedes_the_previous_session() {
    let store = store_with(&[("alice", "secret", false)]);
    let mut auth = AuthManager::start();
    let first = match auth.login_at(&store, "alice", "secret", 0) {
        AuthCode::Success(session) => session,
        _ => panic!("expected a successful login"),
    };
    let second = match auth.login_at(&store, "alice", "secret", 5) {
        AuthCode::Success(session) => session,
        _ => panic!("expected a successful login"),
    };
    assert!(auth.authenticate_at("alice", second.token(), 6));
    if first.token() != second.token() {
        assert!(!auth.authenticate_at("alice", first.token(), 6));
    }
}

#[test]
fn clockless_login_authenticates_right_away() {
    let store = store_with(&[("alice", "secret", false)]);
    let mut auth = AuthManager::start();
    let session = match auth.login(&store, "alice", "secret") {
        AuthCode::Success(session) => session,
        _ => panic!("expected a successful login"),
    };
    assert_eq!(session.expires(), session.started() + SESSION_EXPIRY_SECS);
    assert!(auth.authenticate("alice", session.token()));
    assert!(!auth.authenticate("alice", Token(session.token().0 ^ 1)));
    assert!(auth.auth_get_session("alice", session.token()).is_some());
}

#[test]
fn create_account_requires_a_live_admin_session() {
    let mut store = store_with(&[("root", "admin-pw", true), ("alice", "secret", false)]);
    let mut auth = AuthManager::start();
    let admin = match auth.login_at(&store, "root", "admin-pw", 0) {
        AuthCode::Success(session) => session,
        _ => panic!("expected a successful login"),
    };
    let user = match auth.login_at(&store, "alice", "secret", 0) {
        AuthCode::Success(session) => session,
        _ => panic!("expected a successful login"),
    };

    // A non-admin session may not create accounts.
    assert_eq!(
        create_account(
            &auth,
            &mut store,
            "alice",
            user.token(),
            1,
            String::from("carol"),
            String::from("pw"),
            false,
        ),
        Err(CreateAccountError::NotAdmin)
    );
    // A wrong token is not authenticated at all.
    assert_eq!(
        create_account(
            &auth,
            &mut store,
            "root",
            Token(admin.token().0 ^ 1),
            1,
            String::from("carol"),
            String::from("pw"),
            false,
        ),
        Err(CreateAccountError::NotAuthenticated)
    );
    // An expired admin session is refused too.
    assert_eq!(
        create_account(
            &auth,
            &mut store,
            "root",
            admin.token(),
            SESSION_EXPIRY_SECS + 1,
            String::from("carol"),
            String::from("pw"),
            false,
        ),
        Err(CreateAccountError::NotAuthenticated)
    );
    // A live admin session creates the account.
    assert_eq!(
        create_account(
            &auth,
            &mut store,
            "root",
            admin.token(),
            1,
            String::from("carol"),
            String::from("pw"),
            false,
        ),
        Ok(())
    );
    // The name is then taken.
    assert_eq!(
        create_account(
            &auth,
            &mut store,
            "root",
            admin.token(),
            2,
            String::from("carol"),
            String::from("other"),
            true,
        ),
        Err(CreateAccountError::AlreadyExists)
    );
    let mut carol_auth = AuthManager::start();
    assert!(matches!(
        carol_auth.login_at(&store, "carol", "pw", 3),
        AuthCode::Success(_)
    ));
}
