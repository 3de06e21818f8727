//! The secret store: the salt held as an injected value with load and save
//! semantics, never as ambient global state. Where the salt rests between
//! runs — a file, an environment — is the caller's concern.

use vstd::prelude::*;

verus! {

/// A scoped holder for the authentication salt.
pub struct SecretStore {
    salt: [u8; 16],
}

impl SecretStore {
    /// Open a store over a salt the caller brought.
    pub fn load(salt: [u8; 16]) -> (s: SecretStore)
        ensures
            s.salt()@ == salt@,
    {
        SecretStore { salt: salt }
    }

    /// The held salt, as ghost state.
    pub closed spec fn salt(&self) -> [u8; 16] {
        self.salt
    }

    /// The held salt.
    pub fn get_salt(&self) -> (r: [u8; 16])
        ensures
            r@ == self.salt()@,
    {
        self.salt
    }

    /// Replace the held salt.
    pub fn save(&mut self, salt: [u8; 16])
        ensures
            final(self).salt()@ == salt@,
    {
        self.salt = salt;
    }
}

} // verus!
