//! A connected user's session identity.

use vstd::prelude::*;

verus! {

/// Per-connection user data: the logical user name and the zone the user
/// currently occupies.
#[derive(Clone, PartialEq, Eq, Debug)]
pub struct User {
    pub name: Vec<u8>,
    pub current_zone: usize,
}

/// Mathematical shape of a user.
pub struct UserM {
    pub name: Seq<u8>,
    pub current_zone: usize,
}

impl View for User {
    type V = UserM;

    open spec fn view(&self) -> UserM {
        UserM { name: self.name@, current_zone: self.current_zone }
    }
}

impl User {
    /// A user with the given name, placed in the given zone.
    pub fn load(user_name: &[u8], zone: usize) -> (u: User)
        ensures
            u@.name == user_name@,
            u@.current_zone == zone,
    {
        User { name: crate::bytes::copy_range(user_name, 0, user_name.len()), current_zone: zone }
    }

    /// Renames the user.
    pub fn set_name(&mut self, user_name: &[u8])
        ensures
            final(self)@.name == user_name@,
            final(self)@.current_zone == old(self)@.current_zone,
    {
        self.name = crate::bytes::copy_range(user_name, 0, user_name.len());
    }
}

} // verus!
