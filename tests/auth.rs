use docatlas::authentication::{
    AuthenticationError, AuthenticationRequest, AuthenticationRequestPayload, AuthenticationService,
    AuthenticationToolchain,
};
use docatlas::lock_api::{Lock, SimpleKey};
use docatlas::users::{User, UserFactory};

#[test]
fn create_basic() {
    let e = AuthenticationRequest::new().with_basic("username", "password");

    assert_eq!(e.payloads().len(), 1);
    let AuthenticationRequestPayload::Basic { username, password } = &e.payloads()[0];

    assert_eq!(username, "username");
    assert_eq!(password, "password");
}

#[test]
fn simple_lock() {
    let key = SimpleKey::<16>::new();
    let lock = Lock::new(key.clone(), "Hello, World!");
    assert_eq!(lock.get(&key).unwrap(), &"Hello, World!");
    assert!(lock.get(&SimpleKey::<16>::new()).is_err());
}

#[test]
fn lock_take_and_get_mut() {
    let key = SimpleKey([1u8, 2, 3]);
    let mut lock = Lock::new(key.clone(), 5);
    *lock.get_mut(&key).unwrap() = 6;
    assert!(lock.get_mut(&SimpleKey([1u8, 2, 4])).is_err());
    let lock = match lock.take(&SimpleKey([0u8, 0, 0])) {
        Ok(_) => panic!("wrong key opened the lock"),
        Err(((), lock)) => lock,
    };
    assert_eq!(lock.take(&key).ok(), Some(6));
}

#[test]
fn users_have_names() {
    let user = UserFactory.create("ada");
    assert_eq!(user.name(), "ada");
}

struct Fixed(Result<&'static str, AuthenticationError>);

impl AuthenticationService for Fixed {
    fn authenticate(&self, _req: &AuthenticationRequest) -> Result<User, AuthenticationError> {
        match &self.0 {
            Ok(name) => Ok(UserFactory.create(name)),
            Err(AuthenticationError::WrongPassword) => Err(AuthenticationError::WrongPassword),
            Err(AuthenticationError::UnknownIdentifier) => Err(AuthenticationError::UnknownIdentifier),
            Err(AuthenticationError::UnsupportedRequestKind) => Err(AuthenticationError::UnsupportedRequestKind),
        }
    }
}

#[test]
fn toolchain_goes_on_past_unknown_users() {
    let mut chain = AuthenticationToolchain::new();
    chain.push(Fixed(Err(AuthenticationError::UnknownIdentifier)));
    chain.push(Fixed(Ok("bob")));
    let req = AuthenticationRequest::new().with_basic("bob", "pw");
    assert_eq!(chain.authenticate(&req).unwrap().name(), "bob");
}

#[test]
fn toolchain_stops_at_wrong_password() {
    let mut chain = AuthenticationToolchain::new();
    chain.push(Fixed(Err(AuthenticationError::UnsupportedRequestKind)));
    chain.push(Fixed(Err(AuthenticationError::WrongPassword)));
    chain.push(Fixed(Ok("bob")));
    let req = AuthenticationRequest::new();
    let errs = chain.authenticate(&req).unwrap_err();
    assert_eq!(errs, vec![AuthenticationError::UnsupportedRequestKind, AuthenticationError::WrongPassword]);
}

#[test]
fn empty_toolchain_refuses() {
    let chain: AuthenticationToolchain<Fixed> = AuthenticationToolchain::new();
    assert_eq!(chain.authenticate(&AuthenticationRequest::new()).unwrap_err(), vec![]);
    assert!(!AuthenticationError::WrongPassword.try_next());
    assert!(AuthenticationError::UnknownIdentifier.try_next());
}
