//! Static configuration: where the lease store lives and where to bind.
use vstd::prelude::*;
use crate::numbers::{dec_u32, parse_ipv4_spec, parse_ipv4_str, parse_u32_str};
use crate::text::{split_on, split_str};

verus! {

/// A socket address for binding: an IPv4 address (as its 32-bit numeric
/// value, most significant octet first) and a port.
#[derive(Debug, Clone, Copy, PartialEq, Eq, Structural)]
pub struct BindAddr {
    pub ip: u32,
    pub port: u16,
}

/// Why the configuration was rejected.
#[derive(Debug, Clone)]
pub enum Error {
    AddrParse(String),
}

/// The mathematical shape of a configuration error.
pub enum ErrorV {
    AddrParse(Seq<char>),
}

impl View for Error {
    type V = ErrorV;

    open spec fn view(&self) -> ErrorV {
        match self {
            Error::AddrParse(s) => ErrorV::AddrParse(s@),
        }
    }
}

/// The bind address denoted by `s`: a dotted-quad IPv4 address, one colon,
/// and a decimal port of at most 65535 (leading zeros accepted).
pub open spec fn spec_bind_addr(s: Seq<char>) -> Option<BindAddr> {
    let ps = split_on(s, ':');
    if ps.len() == 2 {
        match (parse_ipv4_spec(ps[0]), dec_u32(ps[1])) {
            (Option::Some(ip), Option::Some(p)) => if p <= 65535 {
                Some(BindAddr { ip, port: p as u16 })
            } else {
                None
            },
            _ => None,
        }
    } else {
        None
    }
}

pub fn parse_bind_addr(s: &str) -> (r: Result<BindAddr, Error>)
    ensures
        match r {
            Ok(b) => spec_bind_addr(s@) == Some(b),
            Err(e) => spec_bind_addr(s@) is None && e@ == ErrorV::AddrParse(s@),
        },
{
    let parts = split_str(s, ':');
    if parts.len() != 2 {
        return Err(Error::AddrParse(s.to_owned()));
    }
    proof {
        assert(parts.deep_view()[0] == parts@[0]@);
        assert(parts.deep_view()[1] == parts@[1]@);
    }
    let ip = match parse_ipv4_str(parts[0].as_str()) {
        Some(v) => v,
        None => {
            return Err(Error::AddrParse(s.to_owned()));
        },
    };
    match parse_u32_str(parts[1].as_str()) {
        Some(v) => {
            if v <= 65535 {
                Ok(BindAddr { ip, port: v as u16 })
            } else {
                Err(Error::AddrParse(s.to_owned()))
            }
        },
        None => Err(Error::AddrParse(s.to_owned())),
    }
}

/// The settings the server runs with. `leases_db` is the lease-store
/// location: a file path, a directory path, or a prefix pattern ending
/// in `*`.
#[derive(Debug, Clone)]
pub struct Settings {
    pub leases_db: String,
    pub bind_addr: BindAddr,
}

impl Settings {
    /// Builds the settings from optional overrides; the surrounding program
    /// reads those from the environment. A missing lease-store location
    /// falls back to the stock path pattern, a missing bind address to
    /// localhost port 8080; a malformed bind address is rejected.
    pub fn new(leases_db: Option<String>, bind_addr: Option<String>) -> (r: Result<
        Settings,
        Error,
    >)
        ensures
            match r {
                Ok(st) => {
                    &&& st.leases_db@ == match leases_db {
                        Option::Some(db) => db@,
                        Option::None => "/var/lib/kea/kea-leases4.csv*"@,
                    }
                    &&& match bind_addr {
                        Option::Some(a) => spec_bind_addr(a@) == Some(st.bind_addr),
                        Option::None => st.bind_addr == (BindAddr { ip: 0x7f000001, port: 8080 }),
                    }
                },
                Err(e) => bind_addr matches Some(a) && spec_bind_addr(a@) is None && e@
                    == ErrorV::AddrParse(a@),
            },
    {
        let db: String = match leases_db {
            Some(d) => d,
            None => "/var/lib/kea/kea-leases4.csv*".to_owned(),
        };
        let ba: BindAddr = match bind_addr {
            Some(a) => match parse_bind_addr(a.as_str()) {
                Ok(b) => b,
                Err(e) => {
                    return Err(e);
                },
            },
            None => BindAddr { ip: 0x7f000001, port: 8080 },
        };
        Ok(Settings { leases_db: db, bind_addr: ba })
    }
}

} // verus!
