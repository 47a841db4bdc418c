//! Hot reload of the server configuration.
//!
//! The transport configuration and the rule table are rebuilt from their files and
//! swapped in together; new connections and requests pick up the new values, while
//! live connections keep what they started with.

use std::path::PathBuf;
use vstd::prelude::*;

use crate::rules::RuleTable;

verus! {

/// The paths needed to rebuild the server configuration and the rule table.
#[derive(Debug)]
pub struct ReloadPaths {
    pub cert: PathBuf,
    pub key: PathBuf,
    pub ech_key: Option<PathBuf>,
    pub rules: PathBuf,
}

/// `PathBuf::clone` gives the same path.
pub assume_specification[ <PathBuf as Clone>::clone ](path: &PathBuf) -> (r: PathBuf)
    ensures
        r == *path,
;

impl Clone for ReloadPaths {
    fn clone(&self) -> (r: Self)
        ensures
            r == *self,
    {
        ReloadPaths {
            cert: self.cert.clone(),
            key: self.key.clone(),
            ech_key: match &self.ech_key {
                Some(path) => Some(path.clone()),
                None => None,
            },
            rules: self.rules.clone(),
        }
    }
}

/// Hot-reloadable server configuration: the transport configuration of new
/// connections, and the rule table of new requests.
#[derive(Debug)]
pub struct ServerConfig<C> {
    pub config: C,
    pub rules: RuleTable,
}

impl<C> ServerConfig<C> {
    /// Take over a configuration that was rebuilt from its files. Where that
    /// failed, the previous configuration stays and the error comes back.
    pub fn reload<E>(&mut self, rebuilt: Result<ServerConfig<C>, E>) -> (r: Option<E>)
        ensures
            match rebuilt {
                Ok(new) => *final(self) == new && r is None,
                Err(e) => *final(self) == *old(self) && r == Some(e),
            },
    {
        match rebuilt {
            Ok(new) => {
                *self = new;
                None
            },
            Err(e) => Some(e),
        }
    }
}

} // verus!
