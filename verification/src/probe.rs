//! A single probe of one loopback port and what it found.

use vstd::prelude::*;

verus! {

/// How long one connection attempt may take, in milliseconds.
pub const PROBE_TIMEOUT_MS: u64 = 200;

/// How one connection attempt to a loopback address ended.
#[derive(Clone, Copy, Debug, PartialEq, Eq)]
pub enum Attempt {
    /// A connection was established before the timeout.
    Connected,
    /// The peer refused the connection.
    Refused,
    /// The connection was reset while it was being set up.
    Reset,
    /// The address could not be reached.
    Unreachable,
    /// The timeout elapsed first.
    TimedOut,
    /// The attempt failed in some other way.
    Failed,
}

impl Attempt {
    /// Whether the attempt found a listener. Every kind of failure counts as
    /// "nothing listening".
    pub fn established(self) -> (yes: bool)
        ensures
            yes == (self is Connected),
    {
        match self {
            Attempt::Connected => true,
            Attempt::Refused => false,
            Attempt::Reset => false,
            Attempt::Unreachable => false,
            Attempt::TimedOut => false,
            Attempt::Failed => false,
        }
    }
}

/// What a probe of the two loopback addresses of one port amounts to: a listener
/// is there as soon as either address accepted the connection.
pub open spec fn either_established(ipv4: Attempt, ipv6: Attempt) -> bool {
    ipv4 is Connected || ipv6 is Connected
}

/// A port together with whether something was found listening on it.
#[derive(Clone, Copy, Debug, PartialEq, Eq)]
pub struct ProbeOutcome {
    pub port: u16,
    pub listening: bool,
}

impl ProbeOutcome {
    /// The outcome of probing `port`, from how the attempts on its IPv4 and its
    /// IPv6 loopback address ended.
    pub fn from_attempts(port: u16, ipv4: Attempt, ipv6: Attempt) -> (outcome: ProbeOutcome)
        ensures
            outcome.port == port,
            outcome.listening == either_established(ipv4, ipv6),
    {
        ProbeOutcome { port, listening: ipv4.established() || ipv6.established() }
    }
}

} // verus!
