//! Server and sync-source configuration, and the authentication levels.

use vstd::prelude::*;

use crate::text::{eq_ci, spec_digits, str_eq_ci, u64_to_string};

verus! {

use vstd::string::StringExecFns;

/// Which operations require authentication.
#[derive(Clone, Copy, Debug, PartialEq, Eq, Structural)]
pub enum AuthLevel {
    /// No authentication for anything.
    Off,
    /// Authentication for write operations only.
    Write,
    /// Authentication for read and write operations.
    Read,
    /// Authentication for everything, health checks included.
    All,
}

/// The level a name denotes, compared without regard to ASCII case.
pub open spec fn spec_auth_level_of(s: Seq<char>) -> Option<AuthLevel> {
    if eq_ci(s, "none"@) || eq_ci(s, "off"@) || eq_ci(s, "false"@) || eq_ci(s, "0"@) {
        Some(AuthLevel::Off)
    } else if eq_ci(s, "write"@) || eq_ci(s, "writes"@) {
        Some(AuthLevel::Write)
    } else if eq_ci(s, "read"@) || eq_ci(s, "reads"@) {
        Some(AuthLevel::Read)
    } else if eq_ci(s, "all"@) || eq_ci(s, "full"@) || eq_ci(s, "true"@) || eq_ci(s, "1"@) {
        Some(AuthLevel::All)
    } else {
        None
    }
}

impl AuthLevel {
    /// Parses a level name; `None` for an unknown name.
    pub fn from_str(s: &str) -> (r: Option<Self>)
        ensures
            r == spec_auth_level_of(s@),
    {
        if str_eq_ci(s, "none") || str_eq_ci(s, "off") || str_eq_ci(s, "false") || str_eq_ci(
            s,
            "0",
        ) {
            Some(AuthLevel::Off)
        } else if str_eq_ci(s, "write") || str_eq_ci(s, "writes") {
            Some(AuthLevel::Write)
        } else if str_eq_ci(s, "read") || str_eq_ci(s, "reads") {
            Some(AuthLevel::Read)
        } else if str_eq_ci(s, "all") || str_eq_ci(s, "full") || str_eq_ci(s, "true") || str_eq_ci(
            s,
            "1",
        ) {
            Some(AuthLevel::All)
        } else {
            None
        }
    }

    /// Reads need credentials at the `Read` and `All` levels.
    pub fn requires_auth_for_read(&self) -> (r: bool)
        ensures
            r == (*self == AuthLevel::Read || *self == AuthLevel::All),
    {
        match self {
            AuthLevel::Read => true,
            AuthLevel::All => true,
            _ => false,
        }
    }

    /// Writes need credentials at every level but `None`.
    pub fn requires_auth_for_write(&self) -> (r: bool)
        ensures
            r == (*self == AuthLevel::Write || *self == AuthLevel::Read || *self
                == AuthLevel::All),
    {
        match self {
            AuthLevel::Write => true,
            AuthLevel::Read => true,
            AuthLevel::All => true,
            _ => false,
        }
    }

    /// Health checks need credentials only at the `All` level.
    pub fn requires_auth_for_health(&self) -> (r: bool)
        ensures
            r == (*self == AuthLevel::All),
    {
        match self {
            AuthLevel::All => true,
            _ => false,
        }
    }
}

/// The server's configuration, as plain values; reading the environment is
/// the embedding program's business.
#[derive(Debug)]
pub struct Config {
    pub host: String,
    pub port: u16,
    pub auth_level: AuthLevel,
    pub admin_user: String,
    pub admin_pass: String,
    pub log_level: String,
    pub max_connections: usize,
}

impl Config {
    /// The `host:port` string the server binds to.
    pub fn address(&self) -> (r: String)
        ensures
            r@ == self.host@ + seq![':'] + spec_digits(self.port as int),
    {
        proof {
            reveal_strlit(":");
        }
        let with_sep = self.host.clone().concat(":");
        let digits = u64_to_string(self.port as u64);
        let r = with_sep.concat(digits.as_str());
        proof {
            assert(r@ =~= self.host@ + seq![':'] + spec_digits(self.port as int));
        }
        r
    }

    /// Whether any operation requires authentication.
    pub fn auth_enabled(&self) -> (r: bool)
        ensures
            r == (self.auth_level != AuthLevel::Off),
    {
        self.auth_level != AuthLevel::Off
    }
}

/// The sync source's configuration, as plain values.
#[derive(Debug)]
pub struct SyncSourceConfig {
    pub enabled: bool,
    pub source_type: String,
    pub host: String,
    pub port: u16,
    pub user: String,
    pub password: String,
    pub database: String,
    pub interval_secs: u64,
    pub tables: Vec<String>,
}

} // verus!
