//! Server configuration as the rest of the library consumes it: a resolved
//! account-data path and a listen address, both plain strings. Reading and
//! writing the configuration file is the surrounding application's job.

use vstd::prelude::*;

verus! {

/// The per-server part of the configuration.
pub struct ServerConfig {
    pub account_data_path: String,
    pub bind_address: String,
}

impl ServerConfig {
    /// Builds a configuration from an already-resolved data path and address.
    pub fn new(account_data_path: String, bind_address: String) -> (r: ServerConfig)
        ensures
            r.account_data_path@ == account_data_path@,
            r.bind_address@ == bind_address@,
    {
        ServerConfig { account_data_path, bind_address }
    }

    /// The path of the account database file.
    pub fn account_data_path(&self) -> (r: &str)
        ensures
            r@ == self.account_data_path@,
    {
        self.account_data_path.as_str()
    }

    /// Replaces the path of the account database file.
    pub fn set_account_data_path(&mut self, data_path: String)
        ensures
            final(self).account_data_path@ == data_path@,
            final(self).bind_address@ == old(self).bind_address@,
    {
        self.account_data_path = data_path;
    }

    /// The address the server listens on.
    pub fn bind_address(&self) -> (r: &str)
        ensures
            r@ == self.bind_address@,
    {
        self.bind_address.as_str()
    }
}

/// The whole configuration; today it holds only the server section.
pub struct Config {
    pub server: ServerConfig,
}

impl Config {
    /// Wraps a server section into a full configuration.
    pub fn new(server: ServerConfig) -> (r: Config)
        ensures
            r.server.account_data_path@ == server.account_data_path@,
            r.server.bind_address@ == server.bind_address@,
    {
        Config { server }
    }

    /// The server section, read-only.
    pub fn server(&self) -> (r: &ServerConfig)
        ensures
            r == &self.server,
    {
        &self.server
    }

    /// The server section, for updates.
    pub fn server_mut(&mut self) -> (r: &mut ServerConfig)
        ensures
            *r == old(self).server,
            final(self).server == *final(r),
    {
        &mut self.server
    }
}

} // verus!
