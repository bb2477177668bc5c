//! Users: the people that authenticate against the system.
use vstd::prelude::*;

verus! {

/// A user.
#[derive(Debug)]
pub struct User {
    name: String,
}

impl User {
    /// The user's name.
    pub closed spec fn spec_name(&self) -> Seq<char> {
        self.name@
    }

    /// Gets the user's name.
    pub fn name(&self) -> (r: &str)
        ensures
            r@ == self.spec_name(),
    {
        self.name.as_str()
    }
}

/// Makes users.
#[derive(Debug)]
pub struct UserFactory;

impl UserFactory {
    /// Creates a user named `name`.
    pub fn create(&self, name: &str) -> (r: User)
        ensures
            r.spec_name() == name@,
    {
        User { name: name.to_owned() }
    }
}

} // verus!
