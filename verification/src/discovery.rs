//! Discovery bookkeeping: the de-duplicated stream of discovered stations is
//! fed by a multicast listener and an access-point prober. The listener's
//! datagram handling and the prober's reply handling are pure functions
//! here; the sockets, the HTTP call and the supervisor loop live with the
//! host around this crate.

use vstd::prelude::*;
use vstd::string::StringExecFns;

use crate::codec::Announce;
use crate::codec::hex_encode;
use crate::codec::hex_of;
use crate::model::DeviceId;
use crate::text::dec_str;
use crate::text::u64_to_string;

verus! {

/// An IPv4 endpoint, as plain octets and a port.
#[derive(Clone, Copy, Debug, PartialEq, Eq, Structural)]
pub struct HostPort {
    pub a: u8,
    pub b: u8,
    pub c: u8,
    pub d: u8,
    pub port: u16,
}

/// The dotted-decimal text of an endpoint with its port.
pub open spec fn host_port_text(hp: HostPort) -> Seq<char> {
    dec_str(hp.a as u64) + "."@ + dec_str(hp.b as u64) + "."@ + dec_str(hp.c as u64) + "."@
        + dec_str(hp.d as u64) + ":"@ + dec_str(hp.port as u64)
}

/// A station that announced itself or answered a probe.
#[derive(Debug)]
pub struct Discovered {
    pub device_id: DeviceId,
    pub http_addr: Option<HostPort>,
    pub udp_addr: Option<HostPort>,
}

impl Discovered {
    /// The URL of the station's HTTP service, when an address is known.
    pub fn http_url(&self) -> (r: Option<String>)
        ensures
            match r {
                Some(u) => self.http_addr is Some && u@ == "http://"@ + host_port_text(
                    self.http_addr.unwrap(),
                ) + "/fk/v1"@,
                None => self.http_addr is None,
            },
    {
        let hp = match self.http_addr {
            Some(hp) => hp,
            None => {
                return None;
            },
        };
        let mut u = "http://".to_owned();
        u.append(u64_to_string(hp.a as u64).as_str());
        u.append(".");
        u.append(u64_to_string(hp.b as u64).as_str());
        u.append(".");
        u.append(u64_to_string(hp.c as u64).as_str());
        u.append(".");
        u.append(u64_to_string(hp.d as u64).as_str());
        u.append(":");
        u.append(u64_to_string(hp.port as u64).as_str());
        u.append("/fk/v1");
        proof {
            assert(u@ =~= "http://"@ + host_port_text(hp) + "/fk/v1"@);
        }
        Some(u)
    }
}

/// What a greeting from a source address announces: the station's HTTP
/// service at the announced port, and its record link at the well-known
/// port.
pub fn discovered_from_hello(announce: &Announce, src_a: u8, src_b: u8, src_c: u8, src_d: u8) -> (r:
    Option<Discovered>)
    ensures
        match r {
            Some(d) => (announce matches Announce::Hello(id, port) && d.device_id@ == id@
                && d.http_addr == Some(
                HostPort { a: src_a, b: src_b, c: src_c, d: src_d, port: *port },
            ) && d.udp_addr == Some(
                HostPort {
                    a: src_a,
                    b: src_b,
                    c: src_c,
                    d: src_d,
                    port: crate::DEFAULT_UDP_SERVER_PORT,
                },
            )),
            None => announce is Bye,
        },
{
    match announce {
        Announce::Hello(id, port) => Some(
            Discovered {
                device_id: id.clone(),
                http_addr: Some(HostPort { a: src_a, b: src_b, c: src_c, d: src_d, port: *port }),
                udp_addr: Some(
                    HostPort {
                        a: src_a,
                        b: src_b,
                        c: src_c,
                        d: src_d,
                        port: crate::DEFAULT_UDP_SERVER_PORT,
                    },
                ),
            },
        ),
        Announce::Bye(_) => None,
    }
}

/// What a successful access-point probe discovers: the fallback address
/// serves HTTP on port eighty and records on the well-known port.
pub fn ap_discovered(device_id_bytes: &[u8]) -> (r: Discovered)
    ensures
        r.device_id@ == hex_of(device_id_bytes@),
        r.http_addr == Some(HostPort { a: 192, b: 168, c: 2, d: 1, port: 80 }),
        r.udp_addr == Some(
            HostPort { a: 192, b: 168, c: 2, d: 1, port: crate::DEFAULT_UDP_SERVER_PORT },
        ),
{
    Discovered {
        device_id: DeviceId(hex_encode(device_id_bytes)),
        http_addr: Some(HostPort { a: 192, b: 168, c: 2, d: 1, port: 80 }),
        udp_addr: Some(
            HostPort { a: 192, b: 168, c: 2, d: 1, port: crate::DEFAULT_UDP_SERVER_PORT },
        ),
    }
}

/// The has-ever-seen counters shared by the two discovery producers.
#[derive(Debug)]
pub struct Discoveries {
    pub udp: u64,
    pub connected: u64,
}

impl Discoveries {
    /// Counters before anything was discovered.
    pub fn new() -> (r: Discoveries)
        ensures
            r.udp == 0 && r.connected == 0,
    {
        Discoveries { udp: 0, connected: 0 }
    }

    /// Count one discovery over the record link.
    pub fn found_udp(&mut self)
        ensures
            final(self).udp == (if old(self).udp < u64::MAX {
                old(self).udp + 1
            } else {
                old(self).udp as int
            }),
            final(self).connected == old(self).connected,
            final(self).udp > 0,
    {
        if self.udp < u64::MAX {
            self.udp = self.udp + 1;
        }
    }

    /// Whether anything was ever discovered over the record link.
    pub fn any_found_udp(&self) -> (r: bool)
        ensures
            r == (self.udp > 0),
    {
        self.udp > 0
    }

    /// Count one discovery through the access-point probe.
    pub fn found_connected(&mut self)
        ensures
            final(self).connected == (if old(self).connected < u64::MAX {
                old(self).connected + 1
            } else {
                old(self).connected as int
            }),
            final(self).udp == old(self).udp,
            final(self).connected > 0,
    {
        if self.connected < u64::MAX {
            self.connected = self.connected + 1;
        }
    }

    /// Whether the probe ever found a station.
    pub fn any_found_connected(&self) -> (r: bool)
        ensures
            r == (self.connected > 0),
    {
        self.connected > 0
    }

    /// The probe cadence: fast while nothing was ever found, slow after the
    /// first discovery of either kind.
    pub fn probe_delay_secs(&self) -> (r: u64)
        ensures
            r == (if self.connected > 0 || self.udp > 0 {
                300u64
            } else {
                10u64
            }),
    {
        if self.any_found_connected() || self.any_found_udp() {
            300
        } else {
            10
        }
    }

    /// Whether the current probe cycle is skipped: a discovery over the
    /// record link already happened.
    pub fn skip_probe(&self) -> (r: bool)
        ensures
            r == (self.udp > 0),
    {
        self.any_found_udp()
    }
}

/// The discovery supervisor's identity: its counters live for one run of
/// the supervisor and restart with it.
#[derive(Debug)]
pub struct Discovery {}

impl Discovery {
    /// A fresh supervisor with fresh counters.
    pub fn new() -> (r: (Discovery, Discoveries))
        ensures
            r.1.udp == 0 && r.1.connected == 0,
    {
        (Discovery {}, Discoveries::new())
    }
}

} // verus!
