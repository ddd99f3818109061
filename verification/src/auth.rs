//! The credential-hash utility and the root-user check.  The hash of a
//! password and salt is computed by an outside hasher under fixed cost
//! parameters, memoized in an injected cache; identical inputs always
//! yield the identical digest, hit or miss.

use vstd::prelude::*;
use vstd::string::StringExecFns;
use vstd::string::StringSliceAdditionalSpecFns;

use crate::text::str_eq;

verus! {

/// The digest string the hasher yields for a password and a salt.  The
/// algorithm and its cost factors are fixed constants, so the result is a
/// function of the two inputs alone.
pub uninterp spec fn argon2d_digest(pass: Seq<char>, salt: Seq<char>) -> Seq<char>;

/// The hasher accepts a password and salt exactly when the salt's UTF-8
/// form is 8 to 48 bytes — at least the hasher's minimum salt length, and
/// short enough that its B64 encoding fits the 64-character salt buffer —
/// and the password's UTF-8 form is at most its maximum of 2^32 - 1 bytes.
pub open spec fn argon2d_accepts(pass: &str, salt: &str) -> bool {
    &&& 8 <= salt.spec_bytes().len() <= 48
    &&& pass.spec_bytes().len() <= 0xFFFFFFFF
}

/// Relies on argon2's `Argon2::hash_password` (via `PasswordHasher`), run
/// as Argon2d, version 0x10, with m_cost 2048, t_cost 4, p_cost 2, on the
/// B64 encoding of the salt bytes: the PHC string it yields depends on the
/// password and salt characters alone.  It succeeds exactly on the inputs
/// `argon2d_accepts` admits: with the fixed, valid parameters the only
/// failing checks are `SaltString::b64_encode`'s 64-character buffer, the
/// hasher's minimum salt length, and its maximum password length.
#[verifier::external_body]
fn argon2d_hash(pass: &str, salt: &str) -> (r: Option<String>)
    ensures
        r is Some <==> argon2d_accepts(pass, salt),
        r matches Some(h) ==> h@ == argon2d_digest(pass@, salt@),
{
    let params = argon2::Params::new(2048, 4, 2, None).ok()?;
    let ctx = argon2::Argon2::new(argon2::Algorithm::Argon2d, argon2::Version::V0x10, params);
    let salt_string = argon2::password_hash::SaltString::b64_encode(salt.as_bytes()).ok()?;
    let hash = argon2::PasswordHasher::hash_password(&ctx, pass.as_bytes(), &salt_string).ok()?;
    Some(hash.to_string())
}

/// A memo of already computed digests, keyed by the password and salt
/// pair.  Purely a performance shortcut: it only ever holds what the
/// hasher computes, so it can never change an answer.
pub struct HashCache {
    entries: Vec<(String, String, String)>,
}

impl HashCache {
    /// Every cached digest is the hasher's digest of its own pair.
    pub closed spec fn wf(self) -> bool {
        forall|i: int|
            0 <= i < self.entries@.len() ==> (#[trigger] self.entries@[i]).2@ == argon2d_digest(
                self.entries@[i].0@,
                self.entries@[i].1@,
            )
    }

    /// Whether the pair already has a cached digest.
    pub closed spec fn contains_pair(self, pass: Seq<char>, salt: Seq<char>) -> bool {
        exists|i: int|
            0 <= i < self.entries@.len() && (#[trigger] self.entries@[i]).0@ == pass
                && self.entries@[i].1@ == salt
    }

    pub fn new() -> (c: Self)
        ensures
            c.wf(),
            forall|p: Seq<char>, s: Seq<char>| !c.contains_pair(p, s),
    {
        HashCache { entries: Vec::new() }
    }
}

/// Computes the credential hash of `pass` under `salt`, consulting the
/// cache first and filling it on a miss.  It answers on every input the
/// hasher accepts and on every cached pair, always with the one digest of
/// that pair; a miss adds exactly the queried pair to the cache and
/// nothing else; `None` leaves the cache untouched.
pub fn get_hash(cache: &mut HashCache, pass: &str, salt: &str) -> (r: Option<String>)
    requires
        old(cache).wf(),
    ensures
        final(cache).wf(),
        r is Some <==> old(cache).contains_pair(pass@, salt@) || argon2d_accepts(pass, salt),
        r matches Some(h) ==> h@ == argon2d_digest(pass@, salt@),
        old(cache).contains_pair(pass@, salt@) ==> *final(cache) == *old(cache),
        r is Some ==> forall|p: Seq<char>, s: Seq<char>|
            final(cache).contains_pair(p, s) == (old(cache).contains_pair(p, s) || (p == pass@
                && s == salt@)),
        r is None ==> *final(cache) == *old(cache),
{
    let ghost c0 = *cache;
    let n = cache.entries.len();
    let mut i: usize = 0;
    while i < n
        invariant
            i <= n,
            n == cache.entries@.len(),
            *cache == c0,
            c0.wf(),
            forall|j: int|
                0 <= j < i ==> !((#[trigger] cache.entries@[j]).0@ == pass@
                    && cache.entries@[j].1@ == salt@),
        decreases n - i,
    {
        if str_eq(cache.entries[i].0.as_str(), pass) && str_eq(
            cache.entries[i].1.as_str(),
            salt,
        ) {
            proof {
                assert(cache.contains_pair(pass@, salt@));
                assert forall|p: Seq<char>, s: Seq<char>| #[trigger] cache.contains_pair(p, s)
                    == (cache.contains_pair(p, s) || (p == pass@ && s == salt@)) by {
                    if p == pass@ && s == salt@ {
                        assert(cache.contains_pair(p, s));
                    }
                }
            }
            return Some(cache.entries[i].2.clone());
        }
        i = i + 1;
    }
    proof {
        assert(!cache.contains_pair(pass@, salt@));
    }
    match argon2d_hash(pass, salt) {
        Some(h) => {
            let ghost mid = *cache;
            cache.entries.push((pass.to_owned(), salt.to_owned(), h.clone()));
            proof {
                let last: int = cache.entries@.len() - 1;
                assert(cache.entries@[last].0@ == pass@ && cache.entries@[last].1@ == salt@);
                assert(forall|j: int|
                    0 <= j < last ==> cache.entries@[j] == mid.entries@[j]);
                assert(cache.wf());
                assert forall|p: Seq<char>, s: Seq<char>| #[trigger] cache.contains_pair(p, s)
                    == (mid.contains_pair(p, s) || (p == pass@ && s == salt@)) by {
                    if cache.contains_pair(p, s) {
                        let j = choose|j: int|
                            0 <= j < cache.entries@.len() && (#[trigger] cache.entries@[j]).0@
                                == p && cache.entries@[j].1@ == s;
                        if j < last {
                            assert(mid.entries@[j].0@ == p && mid.entries@[j].1@ == s);
                        } else {
                            assert(p == pass@ && s == salt@);
                        }
                    }
                    if mid.contains_pair(p, s) {
                        let j = choose|j: int|
                            0 <= j < mid.entries@.len() && (#[trigger] mid.entries@[j]).0@ == p
                                && mid.entries@[j].1@ == s;
                        assert(cache.entries@[j].0@ == p && cache.entries@[j].1@ == s);
                    }
                    if p == pass@ && s == salt@ {
                        assert(cache.entries@[last].0@ == p && cache.entries@[last].1@ == s);
                    }
                }
            }
            Some(h)
        },
        None => None,
    }
}

/// The roles a user of the default organization can hold.
#[derive(Clone, Copy, PartialEq, Eq, Structural, Debug)]
pub enum UserRole {
    Admin,
    Member,
    Root,
}

/// The directory key of a user: the default organization, a slash, the
/// user identifier.
pub open spec fn user_key(user_id: Seq<char>) -> Seq<char> {
    "default/"@ + user_id
}

/// The directory of known users, keyed as `user_key` builds keys.
pub struct Users {
    entries: Vec<(String, UserRole)>,
}

impl Users {
    /// Each key is held at most once.
    pub closed spec fn wf(self) -> bool {
        forall|i: int, j: int|
            0 <= i < j < self.entries@.len() ==> self.entries@[i].0@ != self.entries@[j].0@
    }

    /// Whether some user is registered under `key`.
    pub closed spec fn contains_user(self, key: Seq<char>) -> bool {
        exists|i: int| 0 <= i < self.entries@.len() && (#[trigger] self.entries@[i]).0@ == key
    }

    /// Whether the user at `key` holds `role`.
    pub closed spec fn has_role(self, key: Seq<char>, role: UserRole) -> bool {
        exists|i: int|
            0 <= i < self.entries@.len() && (#[trigger] self.entries@[i]).0@ == key
                && self.entries@[i].1 == role
    }

    pub fn new() -> (u: Self)
        ensures
            u.wf(),
            forall|k: Seq<char>| !u.contains_user(k),
            forall|k: Seq<char>, ro: UserRole| !u.has_role(k, ro),
    {
        Users { entries: Vec::new() }
    }

    /// Registers a user of the default organization.  A user identifier
    /// that is already taken is refused and nothing changes.
    pub fn put_user(&mut self, user_id: &str, role: UserRole) -> (r: bool)
        requires
            old(self).wf(),
        ensures
            final(self).wf(),
            r == !old(self).contains_user(user_key(user_id@)),
            r ==> forall|k: Seq<char>, ro: UserRole|
                final(self).has_role(k, ro) == (old(self).has_role(k, ro) || (k == user_key(
                    user_id@,
                ) && ro == role)),
            !r ==> *final(self) == *old(self),
    {
        let key = String::from_str("default/").concat(user_id);
        let n = self.entries.len();
        let mut i: usize = 0;
        while i < n
            invariant
                i <= n,
                n == self.entries@.len(),
                *self == *old(self),
                self.wf(),
                key@ == user_key(user_id@),
                forall|j: int| 0 <= j < i ==> (#[trigger] self.entries@[j]).0@ != key@,
            decreases n - i,
        {
            if str_eq(self.entries[i].0.as_str(), key.as_str()) {
                proof {
                    assert(self.contains_user(key@));
                }
                return false;
            }
            i = i + 1;
        }
        proof {
            assert(!self.contains_user(key@));
        }
        let ghost mid = *self;
        self.entries.push((key, role));
        proof {
            let last: int = self.entries@.len() - 1;
            assert(self.entries@[last].0@ == user_key(user_id@));
            assert(forall|j: int| 0 <= j < last ==> self.entries@[j] == mid.entries@[j]);
            assert(self.wf());
            assert forall|k: Seq<char>, ro: UserRole| #[trigger] self.has_role(k, ro) == (
            mid.has_role(k, ro) || (k == user_key(user_id@) && ro == role)) by {
                if self.has_role(k, ro) {
                    let j = choose|j: int|
                        0 <= j < self.entries@.len() && (#[trigger] self.entries@[j]).0@ == k
                            && self.entries@[j].1 == ro;
                    if j < last {
                        assert(mid.entries@[j].0@ == k && mid.entries@[j].1 == ro);
                    }
                }
                if mid.has_role(k, ro) {
                    let j = choose|j: int|
                        0 <= j < mid.entries@.len() && (#[trigger] mid.entries@[j]).0@ == k
                            && mid.entries@[j].1 == ro;
                    assert(self.entries@[j].0@ == k && self.entries@[j].1 == ro);
                }
                if k == user_key(user_id@) && ro == role {
                    assert(self.entries@[last].0@ == k && self.entries@[last].1 == ro);
                }
            }
        }
        true
    }
}

/// Whether `user_id` is a registered root user of the default
/// organization.
pub fn is_root_user(users: &Users, user_id: &str) -> (r: bool)
    requires
        users.wf(),
    ensures
        r == users.has_role(user_key(user_id@), UserRole::Root),
{
    let key = String::from_str("default/").concat(user_id);
    let n = users.entries.len();
    let mut i: usize = 0;
    while i < n
        invariant
            i <= n,
            n == users.entries@.len(),
            users.wf(),
            key@ == user_key(user_id@),
            forall|j: int| 0 <= j < i ==> (#[trigger] users.entries@[j]).0@ != key@,
        decreases n - i,
    {
        if str_eq(users.entries[i].0.as_str(), key.as_str()) {
            let matched = users.entries[i].1 == UserRole::Root;
            proof {
                if matched {
                    assert(users.has_role(key@, UserRole::Root));
                } else {
                    if users.has_role(key@, UserRole::Root) {
                        let j = choose|j: int|
                            0 <= j < users.entries@.len() && (#[trigger] users.entries@[j]).0@
                                == key@ && users.entries@[j].1 == UserRole::Root;
                        assert(j == i);
                    }
                }
            }
            return matched;
        }
        i = i + 1;
    }
    proof {
        assert(!users.has_role(key@, UserRole::Root));
    }
    false
}

} // verus!
