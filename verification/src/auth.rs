//! The capability model the operation surface consumes: roles, and the
//! decision whether a request may proceed. Validating credentials (parsing an
//! authorization header against a user store) is the embedding program's
//! business; the decision below takes the validated role, or `None` where
//! none was presented or it did not validate.

use vstd::prelude::*;

use crate::config::AuthLevel;

verus! {

/// What a caller may do.
#[derive(Clone, Copy, Debug, PartialEq, Eq, Structural)]
pub enum Role {
    Admin,
    ReadWrite,
    ReadOnly,
}

impl Role {
    /// Every role may read.
    pub fn can_read(&self) -> (r: bool)
        ensures
            r,
    {
        true
    }

    /// Admins and read-write users may write.
    pub fn can_write(&self) -> (r: bool)
        ensures
            r == (*self == Role::Admin || *self == Role::ReadWrite),
    {
        match self {
            Role::Admin => true,
            Role::ReadWrite => true,
            Role::ReadOnly => false,
        }
    }

    /// Only admins may administer.
    pub fn can_admin(&self) -> (r: bool)
        ensures
            r == (*self == Role::Admin),
    {
        match self {
            Role::Admin => true,
            _ => false,
        }
    }
}

/// The outcome of an access check.
#[derive(Clone, Copy, Debug, PartialEq, Eq, Structural)]
pub enum AccessCheck {
    /// The request may proceed under this role.
    Granted(Role),
    /// Credentials are required and none validated.
    Unauthorized,
    /// The credentials validated but the role may not write.
    Forbidden,
}

/// Whether this request class needs credentials at this level.
pub open spec fn spec_needs_auth(level: AuthLevel, is_write: bool, is_health: bool) -> bool {
    if is_health {
        level == AuthLevel::All
    } else if is_write {
        level == AuthLevel::Write || level == AuthLevel::Read || level == AuthLevel::All
    } else {
        level == AuthLevel::Read || level == AuthLevel::All
    }
}

/// Decides whether a request may proceed: where no credentials are needed,
/// full access is granted; where they are, a missing or invalid credential is
/// rejected, and a write by a role that may not write is forbidden.
pub fn decide_access(level: AuthLevel, is_write: bool, is_health: bool, credential: Option<
    Role,
>) -> (r: AccessCheck)
    ensures
        !spec_needs_auth(level, is_write, is_health) ==> r == AccessCheck::Granted(Role::Admin),
        spec_needs_auth(level, is_write, is_health) ==> r == (match credential {
            None => AccessCheck::Unauthorized,
            Some(role) => if is_write && !(role == Role::Admin || role == Role::ReadWrite) {
                AccessCheck::Forbidden
            } else {
                AccessCheck::Granted(role)
            },
        }),
{
    let needs_auth = if is_health {
        level.requires_auth_for_health()
    } else if is_write {
        level.requires_auth_for_write()
    } else {
        level.requires_auth_for_read()
    };
    if !needs_auth {
        return AccessCheck::Granted(Role::Admin);
    }
    match credential {
        None => AccessCheck::Unauthorized,
        Some(role) => {
            if is_write && !role.can_write() {
                AccessCheck::Forbidden
            } else {
                AccessCheck::Granted(role)
            }
        },
    }
}

} // verus!
