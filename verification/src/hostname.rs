use vstd::prelude::*;
use crate::ip::IpAddress;

verus! {

/// The bytes of a lookup outcome, `Some` a found name, `None` a failure.
pub open spec fn lookup_view(r: Option<Vec<u8>>) -> Option<Seq<u8>> {
    match r {
        Some(v) => Some(v@),
        None => None,
    }
}

/// The hostname string a lookup outcome is reported as: the found name, or
/// the empty string on any failure.
pub open spec fn hostname_of_lookup(r: Option<Seq<u8>>) -> Seq<u8> {
    match r {
        Some(h) => h,
        None => Seq::<u8>::empty(),
    }
}

/// Relies on dns_lookup::lookup_addr for the reverse-DNS (PTR) lookup of an
/// address; it returns the found name, and an error when there is no name
/// or the resolver fails. The outcome depends on the surrounding network,
/// so nothing is promised of it.
#[verifier::external_body]
pub(crate) fn lookup_hostname(ip: &IpAddress) -> (r: Option<Vec<u8>>) {
    let target = match ip {
        IpAddress::V4(a, b, c, d) => [*a, *b, *c, *d].into(),
        IpAddress::V6(g0, g1, g2, g3, g4, g5, g6, g7) => [*g0, *g1, *g2, *g3, *g4, *g5, *g6,
            *g7].into(),
    };
    dns_lookup::lookup_addr(&target).ok().map(|h| h.into_bytes())
}

/// Turns a lookup outcome into the reported hostname: a failure degrades to
/// the empty string, never to an error.
pub fn hostname_from_lookup(r: Option<Vec<u8>>) -> (h: Vec<u8>)
    ensures
        h@ == hostname_of_lookup(lookup_view(r)),
{
    match r {
        Some(v) => v,
        None => Vec::new(),
    }
}

/// Reverse-DNS lookup of an address, degraded to the empty string on any
/// failure. Which name the network returns is not pinned down; what is
/// reported for each possible outcome is, in `hostname_from_lookup`.
pub fn resolve_hostname(ip: &IpAddress) -> (h: Vec<u8>)
    ensures
        exists|r: Option<Seq<u8>>| h@ == hostname_of_lookup(r),
{
    let r = lookup_hostname(ip);
    let h = hostname_from_lookup(r);
    proof {
        assert(h@ == hostname_of_lookup(lookup_view(r)));
    }
    h
}

} // verus!
