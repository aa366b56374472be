//! Recognising address literals.
use vstd::prelude::*;

verus! {

/// Whether the text reads as an IPv4 or IPv6 address, as the standard library parses one.
pub uninterp spec fn ip_literal(s: Seq<char>) -> bool;

/// Relies on `FromStr for core::net::IpAddr`: it accepts exactly the IPv4 and IPv6
/// address literals, a fixed property of the text.
#[verifier::external_body]
pub fn is_ip(s: &str) -> (r: bool)
    ensures
        r == ip_literal(s@),
{
    s.parse::<core::net::IpAddr>().is_ok()
}

} // verus!
