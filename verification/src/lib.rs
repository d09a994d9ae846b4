//! Determination of an HTTP client's originating IP address from proxy-chain
//! headers (`Forwarded` per RFC 7239 and the de-facto `X-Forwarded-For`),
//! with pluggable trust filters to skip known infrastructure addresses.
//!
//! The pieces, leaf first: [`ip`] models addresses and their textual
//! grammar; [`text`] holds the character-level splitting the grammar rests
//! on; [`forwarded`] parses header values into chains of nodes, walked in
//! either direction; [`filter`] tells trusted infrastructure addresses
//! apart from the client's, by exact address, CIDR range, or any `OR` of
//! filters; [`find_next_ip_after_filter`] walks a chain under a filter; and
//! [`headers`] applies the walk to the occurrences of the two headers, with
//! the fallback policy between them. [`laws`] states the properties that
//! hold of chains and filtered walks for every input.
//!
//! The common way to find the client is to scan the chain from its right —
//! the hop nearest the server — skipping the addresses of one's own
//! infrastructure with a filter, until the first address that is not
//! infrastructure: see [`headers::extract_filtered_forwarded_ip`].

use vstd::prelude::*;

pub mod filter;
pub mod forwarded;
pub mod headers;
pub mod ip;
pub mod laws;
pub mod text;

use crate::filter::Filter;
use crate::forwarded::{ForwardedNode, NodeChain, NodeModel};
use crate::ip::IpAddress;

verus! {

/// The result of scanning a node chain under a filter: the first IP the
/// filter does not match. An IP the filter matches is skipped; a node that
/// is no IP ends the scan with nothing, as does an exhausted chain.
pub open spec fn spec_find_next<F: Filter>(ns: Seq<NodeModel>, filter: F) -> Option<IpAddress>
    decreases ns.len(),
{
    if ns.len() == 0 {
        None
    } else {
        match ns[0] {
            NodeModel::Ip(ip) => if filter.spec_match(ip) {
                spec_find_next(ns.drop_first(), filter)
            } else {
                Some(ip)
            },
            _ => None,
        }
    }
}

/// Determines the next IP among the `nodes` iterator after applying the
/// filter.
///
/// If a node is not an IP address, the search is aborted, as it is
/// impossible to correctly apply the filter past it.
pub fn find_next_ip_after_filter<'a, C: NodeChain<'a>, F: Filter>(nodes: C, filter: &F) -> (r:
    Option<IpAddress>)
    ensures
        r == spec_find_next(nodes.chain_nodes(), *filter),
{
    let mut cur = nodes;
    loop
        invariant
            spec_find_next(cur.chain_nodes(), *filter) == spec_find_next(nodes.chain_nodes(), *filter),
        decreases cur.chain_nodes().len(),
    {
        match cur.next_node() {
            Some(node) => {
                match node {
                    ForwardedNode::Ip(ip) => {
                        if !filter.is_match(ip) {
                            return Some(ip);
                        }
                    },
                    _ => {
                        return None;
                    },
                }
            },
            None => {
                return None;
            },
        }
    }
}

} // verus!
