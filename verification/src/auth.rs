//! Accounts and authorization: user records, roles, token claims, and
//! the password check. Password hashing itself is done by argon2; the
//! decision logic around it is verified.

use vstd::prelude::*;
use crate::errors::AppError;
use crate::text::{ascii_ci_eq, str_eq_ignore_ascii_case};

verus! {

/// What a signed-in caller may do.
#[derive(Clone, Copy, Debug, PartialEq, Eq, Structural)]
pub enum Role {
    Admin,
    Editor,
    Viewer,
}

/// The lowercase wire name of a role.
pub open spec fn role_name(r: Role) -> Seq<char> {
    match r {
        Role::Admin => "admin"@,
        Role::Editor => "editor"@,
        Role::Viewer => "viewer"@,
    }
}

impl Role {
    /// Administrators and editors may mutate documents.
    pub fn can_edit(&self) -> (r: bool)
        ensures
            r == (*self == Role::Admin || *self == Role::Editor),
    {
        matches!(self, Role::Admin | Role::Editor)
    }

    /// Only administrators may manage accounts.
    pub fn can_manage_users(&self) -> (r: bool)
        ensures
            r == (*self == Role::Admin),
    {
        matches!(self, Role::Admin)
    }

    /// The role's wire name.
    pub fn as_str(&self) -> (r: &'static str)
        ensures
            r@ == role_name(*self),
    {
        match self {
            Role::Admin => "admin",
            Role::Editor => "editor",
            Role::Viewer => "viewer",
        }
    }

    /// Reads a role from its wire name, ignoring ASCII letter case;
    /// rejects anything else.
    pub fn parse(s: &str) -> (r: Option<Role>)
        ensures
            r == Some(Role::Admin) <==> ascii_ci_eq(s@, role_name(Role::Admin)),
            r == Some(Role::Editor) <==> ascii_ci_eq(s@, role_name(Role::Editor)),
            r == Some(Role::Viewer) <==> ascii_ci_eq(s@, role_name(Role::Viewer)),
            r is None <==> !ascii_ci_eq(s@, role_name(Role::Admin)) && !ascii_ci_eq(
                s@,
                role_name(Role::Editor),
            ) && !ascii_ci_eq(s@, role_name(Role::Viewer)),
    {
        proof {
            reveal_strlit("admin");
            reveal_strlit("editor");
            reveal_strlit("viewer");
            assert("admin"@.len() == 5);
            assert("editor"@.len() == 6);
            assert("viewer"@.len() == 6);
            assert(!crate::text::ascii_ci_char("editor"@[0], "viewer"@[0]));
            assert(!ascii_ci_eq("editor"@, "viewer"@));
            if ascii_ci_eq(s@, "editor"@) && ascii_ci_eq(s@, "viewer"@) {
                crate::text::lemma_ascii_ci_trans(s@, "editor"@, "viewer"@);
            }
        }
        if str_eq_ignore_ascii_case(s, "admin") {
            Some(Role::Admin)
        } else if str_eq_ignore_ascii_case(s, "editor") {
            Some(Role::Editor)
        } else if str_eq_ignore_ascii_case(s, "viewer") {
            Some(Role::Viewer)
        } else {
            None
        }
    }
}

/// What a session token asserts: who the caller is, their role, and
/// when the token lapses.
pub struct Claims {
    pub sub: i64,
    pub username: String,
    pub role: Role,
    pub exp: i64,
}

/// How long, in seconds, a freshly issued token lives.
pub open spec fn token_lifetime() -> int {
    86400
}

impl Claims {
    /// Claims for a token issued at clock reading `now`, expiring one
    /// lifetime later.
    pub fn new(user_id: i64, username: String, role: Role, now: i64) -> (c: Claims)
        requires
            now <= i64::MAX - token_lifetime(),
        ensures
            c.sub == user_id,
            c.username == username,
            c.role == role,
            c.exp == now + token_lifetime(),
    {
        Claims { sub: user_id, username, role, exp: now + 86400 }
    }
}

/// Whether argon2 accepts `password` against the encoded hash string
/// `hash`: a pure function of the two, since the hash string carries
/// its own salt and parameters.
pub uninterp spec fn password_verifies(hash: Seq<char>, password: Seq<char>) -> bool;

/// Relies on argon2's `PasswordHasher::hash_password` and
/// `PasswordVerifier::verify_password`: a freshly salted hash always
/// verifies against the password it was derived from.
#[verifier::external_body]
pub fn hash_password(password: &str) -> (r: Result<String, AppError>)
    ensures
        r matches Ok(h) ==> password_verifies(h@, password@),
{
    let salt = argon2::password_hash::SaltString::generate(&mut rand::rngs::OsRng);
    let argon = argon2::Argon2::default();
    match argon2::password_hash::PasswordHasher::hash_password(&argon, password.as_bytes(), &salt) {
        Ok(h) => Ok(h.to_string()),
        Err(_) => Err(AppError::Auth),
    }
}

/// Relies on argon2's `PasswordVerifier::verify_password`: acceptance
/// depends on the hash string and the password alone (a hash that does
/// not parse is rejected).
#[verifier::external_body]
pub fn verify_password(hash: &str, password: &str) -> (r: bool)
    ensures
        r == password_verifies(hash@, password@),
{
    let parsed = match argon2::password_hash::PasswordHash::new(hash) {
        Ok(h) => h,
        Err(_) => return false,
    };
    argon2::password_hash::PasswordVerifier::verify_password(
        &argon2::Argon2::default(),
        password.as_bytes(),
        &parsed,
    ).is_ok()
}

/// A stored account.
pub struct User {
    pub id: i64,
    pub username: String,
    pub password_hash: String,
    pub role: Role,
    pub created_at: String,
    pub updated_at: String,
}

impl User {
    /// A new account with the password hashed; the key and timestamps
    /// are filled in by the storage layer later.
    pub fn new(username: String, password: &str, role: Role) -> (r: Result<User, AppError>)
        ensures
            r matches Ok(u) ==> {
                &&& u.username == username
                &&& u.role == role
                &&& u.id == 0
                &&& password_verifies(u.password_hash@, password@)
                &&& u.created_at@ == Seq::<char>::empty()
                &&& u.updated_at@ == Seq::<char>::empty()
            },
            r matches Err(e) ==> e == AppError::Auth,
    {
        match hash_password(password) {
            Ok(h) => Ok(
                User {
                    id: 0,
                    username,
                    password_hash: h,
                    role,
                    created_at: String::new(),
                    updated_at: String::new(),
                },
            ),
            Err(_) => Err(AppError::Auth),
        }
    }

    /// Whether `password` is this account's password.
    pub fn verify_password(&self, password: &str) -> (r: bool)
        ensures
            r == password_verifies(self.password_hash@, password@),
    {
        verify_password(self.password_hash.as_str(), password)
    }
}

/// The sign-in decision: the looked-up account is accepted exactly when
/// one was found and its stored hash verifies the supplied password.
pub fn authenticate_user(user: Option<User>, password: &str) -> (r: Option<User>)
    ensures
        user is None ==> r is None,
        user matches Some(u) ==> r == (if password_verifies(u.password_hash@, password@) {
            Some(u)
        } else {
            None::<User>
        }),
{
    match user {
        Some(u) => {
            if verify_password(u.password_hash.as_str(), password) {
                Some(u)
            } else {
                None
            }
        },
        None => None,
    }
}

/// The password-change decision: the looked-up account must exist and
/// the current password must verify; the result is the same account
/// with a fresh hash that verifies the new password.
pub fn change_password(user: Option<User>, current: &str, new_password: &str) -> (r: Result<
    User,
    AppError,
>)
    ensures
        user is None ==> r == Err::<User, AppError>(AppError::Auth),
        user matches Some(u) && !password_verifies(u.password_hash@, current@) ==> r == Err::<
            User,
            AppError,
        >(AppError::Auth),
        r matches Ok(out) ==> {
            &&& user matches Some(u) && password_verifies(u.password_hash@, current@)
            &&& password_verifies(out.password_hash@, new_password@)
            &&& user matches Some(u) && out.id == u.id && out.username == u.username && out.role
                == u.role
        },
{
    let u = match user {
        Some(u) => u,
        None => {
            return Err(AppError::Auth);
        },
    };
    if !verify_password(u.password_hash.as_str(), current) {
        return Err(AppError::Auth);
    }
    let new_hash = match hash_password(new_password) {
        Ok(h) => h,
        Err(e) => {
            return Err(e);
        },
    };
    Ok(User { password_hash: new_hash, ..u })
}

} // verus!
