use vstd::prelude::*;
use crate::endpoint::{PeerEndpoint, spec_effective_ip, spec_effective_port, resolve_endpoint,
    lookup_address};
use crate::headers::Header;
use crate::hostname::{hostname_of_lookup, lookup_view, lookup_hostname, hostname_from_lookup};
use crate::response::{spec_response_body, spec_parse_response, assemble_response,
    lemma_response_round_trip};

verus! {

/// The whole response body for a request, as a function of the transport
/// peer, the headers, and the hostname-lookup outcome.
pub open spec fn spec_handle(peer: PeerEndpoint, hs: Seq<Header>, lookup: Option<Seq<u8>>) -> Seq<
    u8,
> {
    spec_response_body(
        spec_effective_ip(peer, hs),
        spec_effective_port(peer, hs),
        hostname_of_lookup(lookup),
    )
}

/// Handles one request given an already-performed hostname lookup: the body
/// is pinned down exactly for every lookup outcome.
pub fn handle_request_with(peer: &PeerEndpoint, headers: &Vec<Header>, lookup: Option<Vec<u8>>) -> (
    body: Vec<u8>)
    ensures
        body@ == spec_handle(*peer, headers@, lookup_view(lookup)),
{
    let e = resolve_endpoint(peer, headers);
    let h = hostname_from_lookup(lookup);
    assemble_response(&e.ip, &e.port, &h)
}

/// Handles one request: applies the override policy, looks up the hostname
/// of the effective address, and serializes the response. The body is the
/// handled form of some lookup outcome; which one depends on the network.
pub fn handle_request(peer: &PeerEndpoint, headers: &Vec<Header>) -> (body: Vec<u8>)
    ensures
        exists|lookup: Option<Seq<u8>>| body@ == spec_handle(*peer, headers@, lookup),
{
    let target = lookup_address(peer, headers);
    let r = lookup_hostname(&target);
    let body = handle_request_with(peer, headers, r);
    proof {
        assert(body@ == spec_handle(*peer, headers@, lookup_view(r)));
    }
    body
}

/// A failed hostname lookup yields the empty hostname string, with the
/// reported address and port unaffected, and still a whole response body.
/// Every response body the handler can produce reads back as the JSON
/// object with exactly the three string members `ip`, `port`, `hostname`,
/// holding the reported fields intact, whatever the headers and whatever
/// the lookup outcome.
pub proof fn lemma_handle_round_trip(peer: PeerEndpoint, hs: Seq<Header>, lookup: Option<Seq<u8>>)
    ensures
        spec_parse_response(spec_handle(peer, hs, lookup)) == Some(
            (
                spec_effective_ip(peer, hs),
                spec_effective_port(peer, hs),
                hostname_of_lookup(lookup),
            ),
        ),
{
    lemma_response_round_trip(
        spec_effective_ip(peer, hs),
        spec_effective_port(peer, hs),
        hostname_of_lookup(lookup),
    );
}

pub proof fn lemma_lookup_failure(peer: PeerEndpoint, hs: Seq<Header>)
    ensures
        spec_handle(peer, hs, None) == spec_response_body(
            spec_effective_ip(peer, hs),
            spec_effective_port(peer, hs),
            Seq::<u8>::empty(),
        ),
{
}

} // verus!
