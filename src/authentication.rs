//! Authentication: a chain of services that each may accept a request.
use vstd::prelude::*;

use crate::users::User;

verus! {

/// What a request carries to prove who sends it.
#[derive(Debug)]
pub enum AuthenticationRequestPayload {
    /// A user name and a password.
    Basic { username: String, password: String },
}

/// An authentication request.
#[derive(Debug)]
pub struct AuthenticationRequest {
    payloads: Vec<AuthenticationRequestPayload>,
}

impl View for AuthenticationRequest {
    type V = Seq<AuthenticationRequestPayload>;

    closed spec fn view(&self) -> Seq<AuthenticationRequestPayload> {
        self.payloads@
    }
}

impl AuthenticationRequest {
    /// Creates a request without payloads.
    pub fn new() -> (r: AuthenticationRequest)
        ensures
            r@ == Seq::<AuthenticationRequestPayload>::empty(),
    {
        AuthenticationRequest { payloads: Vec::new() }
    }

    /// Gets the payloads, in the order they were added.
    pub fn payloads(&self) -> (r: &Vec<AuthenticationRequestPayload>)
        ensures
            r@ == self@,
    {
        &self.payloads
    }

    /// Adds a basic payload.
    pub fn with_basic(self, username: &str, password: &str) -> (r: AuthenticationRequest)
        ensures
            r@.len() == self@.len() + 1,
            r@.subrange(0, self@.len() as int) == self@,
            r@.last() matches AuthenticationRequestPayload::Basic { username: u, password: p } && u@
                == username@ && p@ == password@,
    {
        let mut payloads = self.payloads;
        payloads.push(
            AuthenticationRequestPayload::Basic {
                username: username.to_owned(),
                password: password.to_owned(),
            },
        );
        proof {
            assert(payloads@.subrange(0, self@.len() as int) =~= self@);
        }
        AuthenticationRequest { payloads }
    }
}

/// Why a service did not accept a request.
#[derive(Debug, PartialEq, Eq, Structural)]
pub enum AuthenticationError {
    /// The service does not handle this kind of request.
    UnsupportedRequestKind,
    /// The password is wrong.
    WrongPassword,
    /// The user name is unknown.
    UnknownIdentifier,
}

/// Whether the next service is asked after one failed with `e`.
pub open spec fn continues_after(e: AuthenticationError) -> bool {
    e != AuthenticationError::WrongPassword
}

impl AuthenticationError {
    /// Whether the next service in a chain is asked after this error: every error but a wrong
    /// password lets the chain go on.
    pub fn try_next(&self) -> (r: bool)
        ensures
            r == continues_after(*self),
    {
        match self {
            AuthenticationError::WrongPassword => false,
            _ => true,
        }
    }
}

/// A service that authenticates requests.
pub trait AuthenticationService {
    /// Authenticates a request.
    fn authenticate(&self, req: &AuthenticationRequest) -> Result<User, AuthenticationError>;
}

/// The errors of `outs`, where all of them are errors.
pub open spec fn errors_of(outs: Seq<Result<User, AuthenticationError>>) -> Seq<AuthenticationError> {
    Seq::new(outs.len(), |i: int| outs[i]->Err_0)
}

/// A chain of authentication services, asked in order.
pub struct AuthenticationToolchain<S: AuthenticationService> {
    services: Vec<S>,
}

impl<S: AuthenticationService> AuthenticationToolchain<S> {
    /// The services, in the order they are asked.
    pub closed spec fn services(&self) -> Seq<S> {
        self.services@
    }

    /// Creates a chain without services.
    pub fn new() -> (r: AuthenticationToolchain<S>)
        ensures
            r.services() == Seq::<S>::empty(),
    {
        AuthenticationToolchain { services: Vec::new() }
    }

    /// Appends a service to the end of the chain.
    pub fn push(&mut self, auth: S)
        ensures
            final(self).services() == old(self).services().push(auth),
    {
        self.services.push(auth);
    }

    /// Asks the services in order. The first that accepts gives the user; an error that does not
    /// let the chain go on ends it. Otherwise the errors of all services asked come back, in
    /// order.
    pub fn authenticate(&self, req: &AuthenticationRequest) -> (r: Result<User, Vec<AuthenticationError>>)
        ensures
            exists|outs: Seq<Result<User, AuthenticationError>>|
                {
                    &&& outs.len() <= self.services().len()
                    &&& forall|i: int| 0 <= i < outs.len() ==> call_ensures(S::authenticate, (&self.services()[i], req), #[trigger] outs[i])
                    &&& forall|i: int| 0 <= i < outs.len() - 1 ==> (#[trigger] outs[i]) is Err && continues_after(outs[i]->Err_0)
                    &&& match r {
                        Ok(u) => outs.len() > 0 && outs.last() == Ok::<User, AuthenticationError>(u),
                        Err(errs) => {
                            &&& errs@ == errors_of(outs)
                            &&& forall|i: int| 0 <= i < outs.len() ==> (#[trigger] outs[i]) is Err
                            &&& outs.len() < self.services().len() ==> outs.len() > 0 && !continues_after(outs.last()->Err_0)
                        },
                    }
                },
    {
        let mut errs: Vec<AuthenticationError> = Vec::new();
        let ghost mut outs: Seq<Result<User, AuthenticationError>> = Seq::empty();
        let mut i: usize = 0;
        while i < self.services.len()
            invariant
                i <= self.services@.len(),
                outs.len() == i,
                forall|j: int| 0 <= j < outs.len() ==> call_ensures(S::authenticate, (&self.services@[j], req), #[trigger] outs[j]),
                forall|j: int| 0 <= j < outs.len() ==> (#[trigger] outs[j]) is Err && continues_after(outs[j]->Err_0),
                errs@ == errors_of(outs),
            decreases self.services@.len() - i,
        {
            let result = self.services[i].authenticate(req);
            let ghost prev = outs;
            proof {
                outs = outs.push(result);
                assert forall|j: int| 0 <= j < outs.len() - 1 implies (#[trigger] outs[j]) is Err && continues_after(outs[j]->Err_0) by {
                    assert(outs[j] == prev[j]);
                }
            }
            match result {
                Ok(user) => {
                    proof {
                        assert(outs.last() == Ok::<User, AuthenticationError>(user));
                    }
                    return Ok(user);
                },
                Err(e) => {
                    let go_on = e.try_next();
                    errs.push(e);
                    proof {
                        assert(errs@ =~= errors_of(outs));
                    }
                    if !go_on {
                        return Err(errs);
                    }
                },
            }
            i = i + 1;
        }
        Err(errs)
    }
}

} // verus!
