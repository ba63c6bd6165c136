//! User accounts: registration and login.
//!
//! Passwords are never stored; a bcrypt hash is. Whether a password matches
//! a hash is a pure function of the two strings, named by `bcrypt_matches`;
//! hashing draws a random salt, so nothing relates two hashes of the same
//! password, but every hash the library stores is well-formed, named by
//! `is_bcrypt_hash`, and matches the password it was made from.

use vstd::prelude::*;
use crate::errors::ApiError;

verus! {

/// Whether `password` matches the bcrypt hash `hash`: a pure function of the
/// two strings alone.
pub uninterp spec fn bcrypt_matches(password: Seq<char>, hash: Seq<char>) -> bool;

/// Whether `hash` is a well-formed bcrypt hash — the shape and cost range
/// that verification accepts. A pure function of the string alone: it names
/// the success domain of `bcrypt::verify`, whose only failures are a
/// malformed hash string or an out-of-range cost carried inside it.
pub uninterp spec fn is_bcrypt_hash(hash: Seq<char>) -> bool;

/// Relies on `bcrypt::verify`: it recomputes the hash of `password` under
/// the salt and cost carried inside `hash` and compares; the outcome depends
/// on the two strings alone. It fails exactly when the hash string is
/// malformed or carries an out-of-range cost, which depends on the hash
/// string alone.
#[verifier::external_body]
fn verify_password(password: &str, hash: &str) -> (r: Option<bool>)
    ensures
        r is Some <==> is_bcrypt_hash(hash@),
        r matches Some(b) ==> b == bcrypt_matches(password@, hash@),
{
    match bcrypt::verify(password, hash) {
        Ok(b) => Some(b),
        Err(_) => None,
    }
}

/// Relies on `bcrypt::hash`: it hashes `password` under a freshly drawn
/// random salt, so only this much holds of every outcome: a returned hash is
/// a well-formed bcrypt hash (fixed output shape, the default cost) and
/// verifies against the password it was made from.
#[verifier::external_body]
fn hash_password(password: &str) -> (r: Option<String>)
    ensures
        r matches Some(h) ==> bcrypt_matches(password@, h@) && is_bcrypt_hash(h@),
{
    bcrypt::hash(password, bcrypt::DEFAULT_COST).ok()
}

/// Registration request.
#[derive(Debug, PartialEq)]
pub struct RegisterRequest {
    pub email: String,
    pub username: String,
    pub password: String,
}

/// Login request.
#[derive(Debug, PartialEq)]
pub struct LoginRequest {
    pub email: String,
    pub password: String,
}

/// One stored account.
#[derive(Debug, PartialEq)]
pub struct UserRecord {
    pub id: u128,
    pub email: String,
    pub username: String,
    pub password_hash: String,
}

/// The mathematical value of one stored account.
pub ghost struct UserView {
    pub id: u128,
    pub email: Seq<char>,
    pub username: Seq<char>,
    pub password_hash: Seq<char>,
}

impl View for UserRecord {
    type V = UserView;

    open spec fn view(&self) -> UserView {
        UserView {
            id: self.id,
            email: self.email@,
            username: self.username@,
            password_hash: self.password_hash@,
        }
    }
}

/// The mathematical value of the user store.
pub ghost struct UsersView {
    pub users: Seq<UserView>,
    pub next_id: u128,
}

/// Validity: emails, usernames and ids are pairwise distinct, and every id
/// is below the next one to assign.
pub open spec fn users_wf(v: UsersView) -> bool {
    &&& forall|i: int, j: int|
        #![trigger v.users[i], v.users[j]]
        0 <= i < j < v.users.len() ==> v.users[i].email != v.users[j].email && v.users[i].username
            != v.users[j].username && v.users[i].id != v.users[j].id
    &&& forall|i: int| 0 <= i < v.users.len() ==> (#[trigger] v.users[i]).id < v.next_id
}

/// The failure a registration request is rejected with before any account is
/// consulted, if any.
pub open spec fn register_input_error(
    email: Seq<char>,
    username: Seq<char>,
    password: Seq<char>,
) -> Option<ApiError> {
    if email.len() == 0 || username.len() == 0 || password.len() == 0 {
        Some(ApiError::MissingFields)
    } else if password.len() < 8 {
        Some(ApiError::PasswordTooShort)
    } else {
        None
    }
}

/// Some account already uses this email or this username.
pub open spec fn has_duplicate(users: Seq<UserView>, email: Seq<char>, username: Seq<char>) -> bool {
    exists|i: int|
        0 <= i < users.len() && ((#[trigger] users[i]).email == email || users[i].username
            == username)
}

/// Some account uses this email.
pub open spec fn has_email(users: Seq<UserView>, email: Seq<char>) -> bool {
    exists|i: int| 0 <= i < users.len() && (#[trigger] users[i]).email == email
}

/// The store of accounts.
pub struct UserStore {
    users: Vec<UserRecord>,
    next_id: u128,
}

impl View for UserStore {
    type V = UsersView;

    closed spec fn view(&self) -> UsersView {
        UsersView {
            users: self.users@.map_values(|u: UserRecord| u@),
            next_id: self.next_id,
        }
    }
}

impl UserStore {
    pub open spec fn wf(&self) -> bool {
        users_wf(self@)
    }

    /// An empty store; the first assigned id is 1.
    pub fn new() -> (s: Self)
        ensures
            s.wf(),
            s@.users == Seq::<UserView>::empty(),
            s@.next_id == 1,
    {
        let s = UserStore { users: Vec::new(), next_id: 1 };
        proof {
            assert(s@.users =~= Seq::<UserView>::empty());
        }
        s
    }

    /// Whether the id space is exhausted, so that no further account can be
    /// assigned an id.
    pub fn at_id_capacity(&self) -> (r: bool)
        ensures
            r == (self@.next_id == u128::MAX),
    {
        self.next_id == u128::MAX
    }
}

/// The store-insertion step of registration, with the credential hash
/// already in hand: an email or username already in use is rejected and the
/// store is unchanged; otherwise the account is appended, exactly as given,
/// under the next free id. Given the hash, the outcome depends on the store
/// alone. Input validation belongs to `register`, which is the one caller.
pub fn register_with_hash(store: &mut UserStore, req: &RegisterRequest, password_hash: String) -> (r:
    Result<u128, ApiError>)
    requires
        old(store).wf(),
        old(store)@.next_id < u128::MAX,
    ensures
        final(store).wf(),
        if has_duplicate(old(store)@.users, req.email@, req.username@) {
            &&& r == Err::<u128, ApiError>(ApiError::AlreadyExists)
            &&& final(store)@ == old(store)@
        } else {
            &&& r == Ok::<u128, ApiError>(old(store)@.next_id)
            &&& final(store)@.next_id == old(store)@.next_id + 1
            &&& final(store)@.users == old(store)@.users.push(
                UserView {
                    id: old(store)@.next_id,
                    email: req.email@,
                    username: req.username@,
                    password_hash: password_hash@,
                },
            )
        },
{
    let ghost vu = store@.users;
    let mut j: usize = 0;
    while j < store.users.len()
        invariant
            j <= store.users.len(),
            *store == *old(store),
            store.wf(),
            vu == store@.users,
            store.users@.len() == vu.len(),
            forall|k: int|
                0 <= k < j ==> (#[trigger] vu[k]).email != req.email@ && vu[k].username
                    != req.username@,
        decreases store.users.len() - j,
    {
        proof {
            assert(vu[j as int] == store.users@[j as int]@);
        }
        if store.users[j].email == req.email || store.users[j].username == req.username {
            proof {
                assert(has_duplicate(vu, req.email@, req.username@));
            }
            return Err(ApiError::AlreadyExists);
        }
        j = j + 1;
    }
    proof {
        assert(!has_duplicate(vu, req.email@, req.username@));
    }

    let id = store.next_id;
    let ghost hv = password_hash@;
    let record = UserRecord {
        id,
        email: req.email.clone(),
        username: req.username.clone(),
        password_hash,
    };
    store.users.push(record);
    store.next_id = store.next_id + 1;
    proof {
        let uv = UserView { id, email: req.email@, username: req.username@, password_hash: hv };
        assert(store@.users =~= vu.push(uv));
        assert forall|a: int, b: int|
            #![trigger store@.users[a], store@.users[b]]
            0 <= a < b < store@.users.len() implies store@.users[a].email != store@.users[b].email
            && store@.users[a].username != store@.users[b].username && store@.users[a].id
            != store@.users[b].id by {
            assert(store@.users[a] == vu[a]);
            if b < vu.len() {
                assert(store@.users[b] == vu[b]);
            } else {
                assert(store@.users[b] == uv);
            }
        }
    }
    Ok(id)
}

/// Create an account. Empty fields and short passwords are rejected; an
/// email or username already in use is rejected after hashing, as the store
/// discovers it at insertion; a stored account's hash is well-formed and
/// matches the password it was registered with.
pub fn register(store: &mut UserStore, req: &RegisterRequest) -> (r: Result<u128, ApiError>)
    requires
        old(store).wf(),
        old(store)@.next_id < u128::MAX,
    ensures
        final(store).wf(),
        match register_input_error(req.email@, req.username@, req.password@) {
            Some(e) => r == Err::<u128, ApiError>(e) && final(store)@ == old(store)@,
            None => {
                &&& (r matches Err(e) ==> (e == ApiError::HashFailure || e
                    == ApiError::AlreadyExists) && final(store)@ == old(store)@)
                &&& (r == Err::<u128, ApiError>(ApiError::AlreadyExists) ==> has_duplicate(
                    old(store)@.users,
                    req.email@,
                    req.username@,
                ))
                &&& (has_duplicate(old(store)@.users, req.email@, req.username@) ==> !(r
                    matches Ok(_)))
                &&& (r matches Ok(id) ==> {
                    &&& id == old(store)@.next_id
                    &&& !has_duplicate(old(store)@.users, req.email@, req.username@)
                    &&& final(store)@.next_id == old(store)@.next_id + 1
                    &&& exists|h: Seq<char>|
                        #![trigger bcrypt_matches(req.password@, h)]
                        bcrypt_matches(req.password@, h) && is_bcrypt_hash(h)
                            && final(store)@.users == old(store)@.users.push(
                            UserView {
                                id,
                                email: req.email@,
                                username: req.username@,
                                password_hash: h,
                            },
                        )
                })
            },
        },
{
    if req.email.as_str().is_empty() || req.username.as_str().is_empty()
        || req.password.as_str().is_empty() {
        return Err(ApiError::MissingFields);
    }
    if req.password.as_str().unicode_len() < 8 {
        return Err(ApiError::PasswordTooShort);
    }

    let hash = match hash_password(req.password.as_str()) {
        Some(h) => h,
        None => {
            return Err(ApiError::HashFailure);
        },
    };
    let ghost hv = hash@;
    let r = register_with_hash(store, req, hash);
    proof {
        assert(bcrypt_matches(req.password@, hv) && is_bcrypt_hash(hv));
    }
    r
}

/// Authenticate. Success returns the id of the unique account holding the
/// email, exactly when the password matches its stored hash; an unknown
/// email and a wrong password fail with one and the same indistinct
/// credential failure. The hashing-service failure arises only for a stored
/// hash that is not a well-formed bcrypt hash, which `register` never
/// stores.
pub fn login(store: &UserStore, req: &LoginRequest) -> (r: Result<u128, ApiError>)
    requires
        store.wf(),
    ensures
        if req.email@.len() == 0 || req.password@.len() == 0 {
            r == Err::<u128, ApiError>(ApiError::MissingCredentials)
        } else if !has_email(store@.users, req.email@) {
            r == Err::<u128, ApiError>(ApiError::InvalidCredentials)
        } else {
            match r {
                Ok(id) => exists|i: int|
                    {
                        &&& 0 <= i < store@.users.len()
                        &&& (#[trigger] store@.users[i]).email == req.email@
                        &&& store@.users[i].id == id
                        &&& is_bcrypt_hash(store@.users[i].password_hash)
                        &&& bcrypt_matches(req.password@, store@.users[i].password_hash)
                    },
                Err(e) => {
                    ||| (e == ApiError::InvalidCredentials && exists|i: int|
                        {
                            &&& 0 <= i < store@.users.len()
                            &&& (#[trigger] store@.users[i]).email == req.email@
                            &&& is_bcrypt_hash(store@.users[i].password_hash)
                            &&& !bcrypt_matches(req.password@, store@.users[i].password_hash)
                        })
                    ||| (e == ApiError::HashFailure && exists|i: int|
                        {
                            &&& 0 <= i < store@.users.len()
                            &&& (#[trigger] store@.users[i]).email == req.email@
                            &&& !is_bcrypt_hash(store@.users[i].password_hash)
                        })
                },
            }
        },
{
    if req.email.as_str().is_empty() || req.password.as_str().is_empty() {
        return Err(ApiError::MissingCredentials);
    }

    let ghost vu = store@.users;
    let mut j: usize = 0;
    while j < store.users.len()
        invariant
            j <= store.users.len(),
            vu == store@.users,
            store.users@.len() == vu.len(),
            req.email@.len() != 0,
            req.password@.len() != 0,
            forall|k: int| 0 <= k < j ==> (#[trigger] vu[k]).email != req.email@,
        decreases store.users.len() - j,
    {
        proof {
            assert(vu[j as int] == store.users@[j as int]@);
        }
        if store.users[j].email == req.email {
            proof {
                assert(has_email(vu, req.email@));
                assert(store@.users[j as int].email == req.email@);
            }
            let outcome = verify_password(req.password.as_str(), store.users[j].password_hash.as_str());
            return match outcome {
                Some(true) => Ok(store.users[j].id),
                Some(false) => Err(ApiError::InvalidCredentials),
                None => Err(ApiError::HashFailure),
            };
        }
        j = j + 1;
    }
    proof {
        assert(!has_email(vu, req.email@));
    }
    Err(ApiError::InvalidCredentials)
}

} // verus!
