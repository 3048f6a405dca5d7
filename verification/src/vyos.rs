//! Device-client configuration and probe types. The HTTP calls to the
//! device live outside the library; what is verified here is how the
//! request URLs are formed.

use vstd::prelude::*;

use crate::validate::dec_str;

verus! {

/// Configuration of the device API client.
#[derive(Debug)]
pub struct VyOSClientConfig {
    /// Base host, without scheme or port.
    pub base_url: String,
    pub api_key: String,
    /// Port; zero picks the scheme's default.
    pub port: u16,
    pub use_https: bool,
    pub verify_ssl: bool,
    pub timeout_secs: u64,
}

/// The host with any trailing separators removed.
pub open spec fn spec_trimmed_host(h: Seq<char>) -> Seq<char>
    decreases h.len(),
{
    if h.len() > 0 && h[h.len() - 1] == '/' {
        spec_trimmed_host(h.drop_last())
    } else {
        h
    }
}

/// The port the client uses: the configured one, or the scheme default.
pub open spec fn spec_effective_port(port: u16, use_https: bool) -> int {
    if port != 0 {
        port as int
    } else if use_https {
        8443
    } else {
        80
    }
}

/// The URL a request to `endpoint` goes to.
pub open spec fn spec_url(c: VyOSClientConfig, endpoint: Seq<char>) -> Seq<char> {
    (if c.use_https {
        "https://"@
    } else {
        "http://"@
    }) + spec_trimmed_host(c.base_url@) + seq![':'] + dec_str(
        spec_effective_port(c.port, c.use_https),
    ) + seq!['/'] + endpoint
}

impl VyOSClientConfig {
    /// Build a client configuration.
    pub fn new(
        host: String,
        api_key: String,
        port: u16,
        use_https: bool,
        verify_ssl: bool,
        timeout_secs: u64,
    ) -> (s: Self)
        ensures
            s.base_url@ == host@,
            s.api_key@ == api_key@,
            s.port == port,
            s.use_https == use_https,
            s.verify_ssl == verify_ssl,
            s.timeout_secs == timeout_secs,
    {
        VyOSClientConfig { base_url: host, api_key, port, use_https, verify_ssl, timeout_secs }
    }

    /// The full URL for an endpoint: scheme, trimmed host, effective
    /// port, then the endpoint.
    pub fn build_url(&self, endpoint: &str) -> (r: String)
        ensures
            r@ == spec_url(*self, endpoint@),
    {
        let mut s = if self.use_https {
            "https://".to_owned()
        } else {
            "http://".to_owned()
        };
        let host = trim_trailing_slashes(self.base_url.as_str());
        s.append(host);
        proof {
            reveal_strlit(":");
            reveal_strlit("/");
        }
        s.append(":");
        let port: u64 = if self.port != 0 {
            self.port as u64
        } else if self.use_https {
            8443
        } else {
            80
        };
        let port_str = crate::validate::u64_to_string(port);
        s.append(port_str.as_str());
        s.append("/");
        s.append(endpoint);
        proof {
            assert(s@ =~= spec_url(*self, endpoint@));
        }
        s
    }
}

/// Strip trailing separators from a host.
pub fn trim_trailing_slashes(h: &str) -> (r: &str)
    ensures
        r@ == spec_trimmed_host(h@),
{
    let mut end = h.unicode_len();
    proof {
        assert(h@.take(h@.len() as int) =~= h@);
    }
    while end > 0 && h.get_char(end - 1) == '/'
        invariant
            end <= h@.len(),
            spec_trimmed_host(h@) == spec_trimmed_host(h@.take(end as int)),
        decreases end,
    {
        proof {
            assert(h@.take(end as int).drop_last() =~= h@.take(end - 1));
            assert(h@.take(end as int).last() == h@[end - 1]);
        }
        end = end - 1;
    }
    let r = h.substring_char(0, end);
    proof {
        assert(r@ == h@.take(end as int));
        if end > 0 {
            assert(h@.take(end as int)[end - 1] == h@[end - 1]);
        }
    }
    r
}

/// Configuration of the higher-level device API client.
#[derive(Debug)]
pub struct VyosApiClientConfig {
    pub base_url: String,
    pub api_key: String,
    /// Request timeout in seconds.
    pub timeout: u64,
    pub verify_ssl: bool,
}

impl Default for VyosApiClientConfig {
    /// The default client configuration, pointing at the device's
    /// well-known management address.
    fn default() -> (s: Self)
        ensures
            s.base_url@ == "https://10.10.5.51"@,
            s.api_key@ == Seq::<char>::empty(),
            s.timeout == 30,
            s.verify_ssl == true,
    {
        VyosApiClientConfig {
            base_url: "https://10.10.5.51".to_owned(),
            api_key: String::new(),
            timeout: 30,
            verify_ssl: true,
        }
    }
}

/// An interface as the device reports it.
#[derive(Debug)]
pub struct VyOSInterface {
    pub name: String,
    pub description: Option<String>,
    pub address: Option<String>,
    pub netmask: Option<String>,
    pub mac_address: Option<String>,
    pub is_up: bool,
    pub mtu: Option<u32>,
    pub speed: Option<String>,
    pub duplex: Option<String>,
}

/// Outcome of probing the device API.
#[derive(Debug)]
pub struct VyOSConnectionTest {
    pub success: bool,
    pub latency_ms: Option<u64>,
    pub version: Option<String>,
    pub hostname: Option<String>,
    pub uptime: Option<u64>,
    pub error: Option<String>,
}

} // verus!
