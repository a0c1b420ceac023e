//! The hosts to watch, as the configuration file lists them, and what is
//! derived from one: its display name, the SSH session settings and the
//! arguments of an interactive `ssh` run.
use vstd::prelude::*;

use crate::text::{append_str, decimal, push_decimal, string_views};

verus! {

/// The port SSH uses where the configuration names none.
pub const DEFAULT_SSH_PORT: u16 = 22;

/// One host of the configuration file.
#[derive(Clone, Debug)]
pub struct HostConfig {
    pub user: Option<String>,
    pub port: Option<u16>,
    pub identity_file: Option<String>,
    pub address: String,
}

/// The characters of an optional string, or `otherwise`.
pub open spec fn text_or(s: Option<String>, otherwise: Seq<char>) -> Seq<char> {
    match s {
        Some(v) => v@,
        None => otherwise,
    }
}

/// The port to use: the configured one or 22.
pub open spec fn port_or_default(port: Option<u16>) -> u16 {
    match port {
        Some(p) => p,
        None => 22,
    }
}

/// The key file to use: the configured one where it is not empty.
pub open spec fn keyfile_of(identity_file: Option<String>) -> Option<Seq<char>> {
    match identity_file {
        Some(f) => if f@.len() > 0 {
            Some(f@)
        } else {
            None
        },
        None => None,
    }
}

/// Settings for opening an SSH session to one host.
pub struct SessionSettings {
    pub user: String,
    pub port: u16,
    pub keyfile: Option<String>,
}

fn clone_opt_string(s: &Option<String>) -> (r: Option<String>)
    ensures
        r == *s,
{
    match s {
        Some(v) => Some(v.clone()),
        None => None,
    }
}

impl HostConfig {
    /// A copy of this configuration, equal to it.
    pub fn duplicate(&self) -> (c: HostConfig)
        ensures
            c == *self,
    {
        HostConfig {
            user: clone_opt_string(&self.user),
            port: self.port,
            identity_file: clone_opt_string(&self.identity_file),
            address: self.address.clone(),
        }
    }

    /// The name the host is shown under: `user@address:port`, with the
    /// current user where none is configured and port 22 where none is.
    pub open spec fn display_name_spec(&self, current_user: Seq<char>) -> Seq<char> {
        text_or(self.user, current_user) + "@"@ + self.address@ + ":"@ + decimal(
            port_or_default(self.port) as nat,
        )
    }

    /// The name the host is shown under.
    pub fn display_name(&self, current_user: &str) -> (name: String)
        ensures
            name@ == self.display_name_spec(current_user@),
    {
        let mut out = String::new();
        match &self.user {
            Some(u) => append_str(&mut out, u.as_str()),
            None => append_str(&mut out, current_user),
        }
        append_str(&mut out, "@");
        append_str(&mut out, self.address.as_str());
        append_str(&mut out, ":");
        let port = match self.port {
            Some(p) => p,
            None => DEFAULT_SSH_PORT,
        };
        push_decimal(&mut out, port as u64);
        out
    }

    /// The settings for an SSH session: the configured user (even an empty
    /// one) or `default_user`, the configured port or 22, and the key file
    /// where one that is not empty is configured.
    pub fn session_settings(&self, default_user: &str) -> (st: SessionSettings)
        ensures
            st.user@ == text_or(self.user, default_user@),
            st.port == port_or_default(self.port),
            match st.keyfile {
                Some(k) => keyfile_of(self.identity_file) == Some(k@),
                None => keyfile_of(self.identity_file) is None,
            },
    {
        let user = match &self.user {
            Some(u) => u.clone(),
            None => default_user.to_owned(),
        };
        let port = match self.port {
            Some(p) => p,
            None => DEFAULT_SSH_PORT,
        };
        let keyfile = match &self.identity_file {
            Some(f) => if f.as_str().is_empty() {
                None
            } else {
                Some(f.clone())
            },
            None => None,
        };
        SessionSettings { user, port, keyfile }
    }

    /// Where an interactive `ssh` connects: `user@address` where a user that
    /// is not empty is configured, else the address alone.
    pub open spec fn destination_spec(&self) -> Seq<char> {
        match self.user {
            Some(u) => if u@.len() > 0 {
                u@ + "@"@ + self.address@
            } else {
                self.address@
            },
            None => self.address@,
        }
    }

    /// The arguments of an interactive `ssh` run to this host: `-p <port>`
    /// where a port is configured, `-i <file>` where a key file that is not
    /// empty is configured, then the destination.
    pub open spec fn ssh_args_spec(&self) -> Seq<Seq<char>> {
        let port_args = match self.port {
            Some(p) => seq!["-p"@, decimal(p as nat)],
            None => seq![],
        };
        let key_args = match keyfile_of(self.identity_file) {
            Some(k) => seq!["-i"@, k],
            None => seq![],
        };
        port_args + key_args + seq![self.destination_spec()]
    }

    /// The arguments of an interactive `ssh` run to this host.
    pub fn ssh_args(&self) -> (args: Vec<String>)
        ensures
            string_views(args@) == self.ssh_args_spec(),
    {
        let mut args: Vec<String> = Vec::new();
        let ghost port_args = match self.port {
            Some(p) => seq!["-p"@, decimal(p as nat)],
            None => Seq::<Seq<char>>::empty(),
        };
        if let Some(p) = self.port {
            args.push("-p".to_owned());
            let mut ps = String::new();
            push_decimal(&mut ps, p as u64);
            args.push(ps);
        }
        assert(string_views(args@) =~= port_args);
        let ghost key_args = match keyfile_of(self.identity_file) {
            Some(k) => seq!["-i"@, k],
            None => Seq::<Seq<char>>::empty(),
        };
        match &self.identity_file {
            Some(f) => {
                if !f.as_str().is_empty() {
                    args.push("-i".to_owned());
                    args.push(f.clone());
                }
            },
            None => {},
        }
        assert(string_views(args@) =~= port_args + key_args);
        let dest = match &self.user {
            Some(u) => if u.as_str().is_empty() {
                self.address.clone()
            } else {
                let mut d = String::new();
                append_str(&mut d, u.as_str());
                append_str(&mut d, "@");
                append_str(&mut d, self.address.as_str());
                d
            },
            None => self.address.clone(),
        };
        args.push(dest);
        assert(string_views(args@) =~= self.ssh_args_spec());
        args
    }
}

/// The display name and the SSH session name the same user and port: the
/// session's user, `@`, the address, `:` and the session's port in decimal.
pub proof fn display_name_names_the_session(c: HostConfig, current_user: Seq<char>)
    ensures
        c.display_name_spec(current_user) == text_or(c.user, current_user) + "@"@ + c.address@
            + ":"@ + decimal(port_or_default(c.port) as nat),
        c.user is None ==> text_or(c.user, current_user) == current_user,
        c.user matches Some(u) ==> text_or(c.user, current_user) == u@,
        c.port is None ==> port_or_default(c.port) == DEFAULT_SSH_PORT,
        c.port matches Some(p) ==> port_or_default(c.port) == p,
{
}

/// The `ssh` arguments, read from the front: `-p` and the configured port
/// where one is configured; `-i` and the key file where one that is not
/// empty is configured; last, the destination, which is the address,
/// preceded by the user and `@` where a user that is not empty is
/// configured. Nothing else is passed.
pub proof fn ssh_args_laid_out(c: HostConfig)
    ensures
        ({
            let a = c.ssh_args_spec();
            let np: int = if c.port is Some {
                2
            } else {
                0
            };
            let has_key = match c.identity_file {
                Some(f) => f@.len() > 0,
                None => false,
            };
            let nk: int = if has_key {
                2
            } else {
                0
            };
            &&& a.len() == np + nk + 1
            &&& c.port matches Some(p) ==> a[0] == "-p"@ && a[1] == decimal(p as nat)
            &&& c.identity_file matches Some(f) ==> (f@.len() > 0 ==> a[np] == "-i"@ && a[np + 1]
                == f@)
            &&& a.last() == match c.user {
                Some(u) => if u@.len() > 0 {
                    u@ + "@"@ + c.address@
                } else {
                    c.address@
                },
                None => c.address@,
            }
        }),
{
}

} // verus!
