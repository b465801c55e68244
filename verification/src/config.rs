//! Connection configuration and its validation.

use vstd::prelude::*;

verus! {

/// What `str::trim` leaves of a string: the characters with leading and
/// trailing whitespace removed.
pub uninterp spec fn trimmed_of(s: Seq<char>) -> Seq<char>;

/// Relies on str::trim: strips leading and trailing whitespace; the result
/// depends on the characters alone, and trimming an empty string leaves it
/// empty.
#[verifier::external_body]
fn trim_str(s: &str) -> (r: &str)
    ensures
        r@ == trimmed_of(s@),
        s@.len() == 0 ==> r@.len() == 0,
{
    s.trim()
}

/// How to authenticate against the engine.
#[derive(Debug, Clone)]
pub enum Auth {
    Root { username: String, password: String },
    Namespace { username: String, password: String },
    Database { username: String, password: String },
}

impl Default for Auth {
    /// Root authentication with the engine's default account name.
    fn default() -> (r: Self)
        ensures
            r is Root,
            r->Root_username@ == ("root")@,
            r->Root_password@ == ("root")@,
    {
        Auth::Root { username: String::from_str("root"), password: String::from_str("root") }
    }
}

/// Where and as whom to connect.
#[derive(Debug, Clone)]
pub struct SurrealHostConfig {
    pub url: String,
    pub namespace: String,
    pub database: String,
    pub auth: Auth,
}

/// Which field of the configuration is blank.
#[derive(Debug, Clone, Copy, PartialEq, Eq, Structural)]
pub enum ConfigError {
    EmptyUrl,
    EmptyNamespace,
    EmptyDatabase,
}

impl SurrealHostConfig {
    /// Checks that the url, the namespace, and the database name each hold
    /// more than whitespace, in that order; the first blank field is
    /// reported.
    pub fn validate(&self) -> (r: Result<(), ConfigError>)
        ensures
            match r {
                Ok(_) => trimmed_of(self.url@).len() > 0 && trimmed_of(self.namespace@).len() > 0
                    && trimmed_of(self.database@).len() > 0,
                Err(e) => match e {
                    ConfigError::EmptyUrl => trimmed_of(self.url@).len() == 0,
                    ConfigError::EmptyNamespace => trimmed_of(self.url@).len() > 0 && trimmed_of(
                        self.namespace@,
                    ).len() == 0,
                    ConfigError::EmptyDatabase => trimmed_of(self.url@).len() > 0 && trimmed_of(
                        self.namespace@,
                    ).len() > 0 && trimmed_of(self.database@).len() == 0,
                },
            },
    {
        if trim_str(self.url.as_str()).is_empty() {
            return Err(ConfigError::EmptyUrl);
        }
        if trim_str(self.namespace.as_str()).is_empty() {
            return Err(ConfigError::EmptyNamespace);
        }
        if trim_str(self.database.as_str()).is_empty() {
            return Err(ConfigError::EmptyDatabase);
        }
        Ok(())
    }
}

} // verus!
