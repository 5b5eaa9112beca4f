//! The recognized configuration options and their defaults. Reading
//! the process environment happens outside the library; this
//! constructor fills in the documented default for every option that
//! was not set.

use vstd::prelude::*;

verus! {

/// The default maximum accepted request body, in bytes.
pub const DEFAULT_MAX_PAYLOAD_SIZE: usize = 0x4000000;

/// The process-wide configuration.
#[derive(Debug)]
pub struct EnvVar {
    pub ip_address: String,
    pub advanced_port: String,
    pub http_port: String,
    pub max_payload_size: usize,
    pub password_enabled: bool,
}

impl EnvVar {
    /// Build the configuration from whatever options were set: the
    /// bind address defaults to 127.0.0.1, the HTTP port to 8086, the
    /// binary protocol port to 8096, and the payload bound to 64 MiB.
    pub fn from_values(
        ip_address: Option<String>,
        http_port: Option<String>,
        advanced_port: Option<String>,
        max_payload_size: Option<usize>,
        password_enabled: bool,
    ) -> (r: EnvVar)
        ensures
            r.ip_address@ == (match ip_address {
                Some(s) => s@,
                None => "127.0.0.1"@,
            }),
            r.http_port@ == (match http_port {
                Some(s) => s@,
                None => "8086"@,
            }),
            r.advanced_port@ == (match advanced_port {
                Some(s) => s@,
                None => "8096"@,
            }),
            r.max_payload_size == (match max_payload_size {
                Some(n) => n,
                None => DEFAULT_MAX_PAYLOAD_SIZE,
            }),
            r.password_enabled == password_enabled,
    {
        let ip = match ip_address {
            Some(s) => s,
            None => "127.0.0.1".to_owned(),
        };
        let hp = match http_port {
            Some(s) => s,
            None => "8086".to_owned(),
        };
        let ap = match advanced_port {
            Some(s) => s,
            None => "8096".to_owned(),
        };
        let mp = match max_payload_size {
            Some(n) => n,
            None => DEFAULT_MAX_PAYLOAD_SIZE,
        };
        EnvVar {
            ip_address: ip,
            http_port: hp,
            advanced_port: ap,
            max_payload_size: mp,
            password_enabled,
        }
    }
}

} // verus!
