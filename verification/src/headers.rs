//! Client-IP extraction over the occurrences of the proxy-chain headers.
//!
//! A header may occur several times in a request; each occurrence is given
//! here as `Some` of its text, or `None` where its bytes are not valid
//! text. The `Forwarded` header is consulted first; only when it yields no
//! node at all does the search fall back to `X-Forwarded-For`.

use vstd::prelude::*;

use crate::filter::Filter;
use crate::forwarded::{
    parse_forwarded_for, parse_forwarded_for_rev, parse_x_forwarded_for, parse_x_forwarded_for_rev,
    spec_forwarded_for_nodes, spec_node_ip, spec_x_forwarded_nodes, ForwardedNode, NodeModel,
};
use crate::ip::IpAddress;
use crate::spec_find_next;

verus! {

/// The models of a run of parsed nodes.
pub open spec fn node_views<'a>(v: Seq<ForwardedNode<'a>>) -> Seq<NodeModel> {
    v.map_values(|n: ForwardedNode<'a>| n@)
}

/// The nodes one `Forwarded` occurrence contributes to a reverse scan: its
/// `for` chain backwards, or nothing where the occurrence is not text.
pub open spec fn forwarded_occurrence_nodes(o: Option<Seq<char>>) -> Seq<NodeModel> {
    match o {
        Some(h) => spec_forwarded_for_nodes(h).reverse(),
        None => Seq::empty(),
    }
}

/// The nodes one `X-Forwarded-For` occurrence contributes to a reverse scan.
pub open spec fn x_occurrence_nodes(o: Option<Seq<char>>) -> Seq<NodeModel> {
    match o {
        Some(h) => spec_x_forwarded_nodes(h).reverse(),
        None => Seq::empty(),
    }
}

/// The nodes of all `Forwarded` occurrences in a reverse scan: the last
/// occurrence first, each occurrence's chain backwards.
pub open spec fn rev_forwarded_nodes(occs: Seq<Option<Seq<char>>>) -> Seq<NodeModel>
    decreases occs.len(),
{
    if occs.len() == 0 {
        Seq::empty()
    } else {
        forwarded_occurrence_nodes(occs.last()) + rev_forwarded_nodes(occs.drop_last())
    }
}

/// The nodes of all `X-Forwarded-For` occurrences in a reverse scan.
pub open spec fn rev_x_nodes(occs: Seq<Option<Seq<char>>>) -> Seq<NodeModel>
    decreases occs.len(),
{
    if occs.len() == 0 {
        Seq::empty()
    } else {
        x_occurrence_nodes(occs.last()) + rev_x_nodes(occs.drop_last())
    }
}

/// A reverse scan keeps the earliest occurrence's nodes at its end.
proof fn lemma_rev_forwarded_nodes_first(occs: Seq<Option<Seq<char>>>)
    requires
        occs.len() > 0,
    ensures
        rev_forwarded_nodes(occs) == rev_forwarded_nodes(occs.drop_first())
            + forwarded_occurrence_nodes(occs[0]),
    decreases occs.len(),
{
    if occs.len() == 1 {
        assert(occs.drop_last() =~= Seq::<Option<Seq<char>>>::empty());
        assert(occs.drop_first() =~= Seq::<Option<Seq<char>>>::empty());
        assert(rev_forwarded_nodes(occs) =~= rev_forwarded_nodes(occs.drop_first())
            + forwarded_occurrence_nodes(occs[0]));
    } else {
        lemma_rev_forwarded_nodes_first(occs.drop_last());
        assert(occs.drop_last().drop_first() =~= occs.drop_first().drop_last());
        assert(occs.drop_last()[0] == occs[0]);
        assert(occs.drop_first().last() == occs.last());
        assert(rev_forwarded_nodes(occs) =~= rev_forwarded_nodes(occs.drop_first())
            + forwarded_occurrence_nodes(occs[0]));
    }
}

/// A reverse scan keeps the earliest occurrence's nodes at its end.
proof fn lemma_rev_x_nodes_first(occs: Seq<Option<Seq<char>>>)
    requires
        occs.len() > 0,
    ensures
        rev_x_nodes(occs) == rev_x_nodes(occs.drop_first()) + x_occurrence_nodes(occs[0]),
    decreases occs.len(),
{
    if occs.len() == 1 {
        assert(occs.drop_last() =~= Seq::<Option<Seq<char>>>::empty());
        assert(occs.drop_first() =~= Seq::<Option<Seq<char>>>::empty());
        assert(rev_x_nodes(occs) =~= rev_x_nodes(occs.drop_first()) + x_occurrence_nodes(occs[0]));
    } else {
        lemma_rev_x_nodes_first(occs.drop_last());
        assert(occs.drop_last().drop_first() =~= occs.drop_first().drop_last());
        assert(occs.drop_last()[0] == occs[0]);
        assert(occs.drop_first().last() == occs.last());
        assert(rev_x_nodes(occs) =~= rev_x_nodes(occs.drop_first()) + x_occurrence_nodes(occs[0]));
    }
}

/// The first node's IP, if the chain starts with an IP.
pub open spec fn first_node_ip(ns: Seq<NodeModel>) -> Option<IpAddress> {
    if ns.len() > 0 {
        spec_node_ip(ns[0])
    } else {
        None
    }
}

/// What the leftmost extraction returns: the first node of the first
/// `Forwarded` occurrence, read front to back; only with no `Forwarded`
/// occurrence at all, the same over `X-Forwarded-For`; `None` for a first
/// occurrence that is not text, or whose first node is no IP.
pub open spec fn spec_extract_leftmost(
    fw: Seq<Option<Seq<char>>>,
    xf: Seq<Option<Seq<char>>>,
) -> Option<IpAddress> {
    if fw.len() > 0 {
        match fw[0] {
            Some(h) => first_node_ip(spec_forwarded_for_nodes(h)),
            None => None,
        }
    } else if xf.len() > 0 {
        match xf[0] {
            Some(h) => first_node_ip(spec_x_forwarded_nodes(h)),
            None => None,
        }
    } else {
        None
    }
}

/// What the rightmost extraction returns: the last node of the last
/// `Forwarded` occurrence; only with no `Forwarded` occurrence at all, the
/// same over `X-Forwarded-For`.
pub open spec fn spec_extract_rightmost(
    fw: Seq<Option<Seq<char>>>,
    xf: Seq<Option<Seq<char>>>,
) -> Option<IpAddress> {
    if fw.len() > 0 {
        match fw.last() {
            Some(h) => first_node_ip(spec_forwarded_for_nodes(h).reverse()),
            None => None,
        }
    } else if xf.len() > 0 {
        match xf.last() {
            Some(h) => first_node_ip(spec_x_forwarded_nodes(h).reverse()),
            None => None,
        }
    } else {
        None
    }
}

/// What the filtered extraction returns: the filtered scan of the reverse
/// `Forwarded` chain; only when that chain holds no node at all, the
/// filtered scan of the reverse `X-Forwarded-For` chain.
pub open spec fn spec_extract_filtered<F: Filter>(
    fw: Seq<Option<Seq<char>>>,
    xf: Seq<Option<Seq<char>>>,
    filter: F,
) -> Option<IpAddress> {
    let ns = rev_forwarded_nodes(fw);
    if ns.len() > 0 {
        spec_find_next(ns, filter)
    } else {
        spec_find_next(rev_x_nodes(xf), filter)
    }
}

/// The display text of one occurrence: its own text, or a placeholder
/// marker where it is not valid text.
pub open spec fn occurrence_text(o: Option<Seq<char>>) -> Seq<char> {
    match o {
        Some(h) => h,
        None => "<non-utf8>"@,
    }
}

/// The display text of a header's occurrences: each occurrence's text,
/// joined with a separator.
pub open spec fn spec_header_values_text(vs: Seq<Option<Seq<char>>>) -> Seq<char>
    decreases vs.len(),
{
    if vs.len() == 0 {
        Seq::empty()
    } else if vs.len() == 1 {
        occurrence_text(vs[0])
    } else {
        spec_header_values_text(vs.drop_last()) + " ,"@ + occurrence_text(vs.last())
    }
}

/// Joins a header's occurrences for display: ` ,` between occurrences, and
/// a placeholder marker for any occurrence that is not valid text.
pub fn format_header_values(values: &Vec<Option<String>>) -> (r: String)
    ensures
        r@ == spec_header_values_text(values.deep_view()),
{
    let ghost vs = values.deep_view();
    let mut out = String::new();
    let n = values.len();
    let mut i: usize = 0;
    proof {
        assert(out@ =~= spec_header_values_text(vs.take(0)));
    }
    while i < n
        invariant
            i <= n,
            n == values@.len(),
            vs == values.deep_view(),
            vs.len() == n,
            out@ == spec_header_values_text(vs.take(i as int)),
        decreases n - i,
    {
        if i > 0 {
            out.append(" ,");
        }
        proof {
            assert(vs[i as int] == values@[i as int].deep_view());
        }
        match &values[i] {
            Some(h) => {
                out.append(h.as_str());
            },
            None => {
                out.append("<non-utf8>");
            },
        }
        proof {
            assert(vs.take(i + 1).drop_last() =~= vs.take(i as int));
            assert(vs.take(i + 1).last() == vs[i as int]);
            if i == 0 {
                assert(out@ =~= spec_header_values_text(vs.take(1)));
            } else {
                assert(out@ =~= spec_header_values_text(vs.take(i + 1)));
            }
        }
        i = i + 1;
    }
    proof {
        assert(vs.take(n as int) =~= vs);
    }
    out
}

/// Collects the nodes of all `Forwarded` occurrences for a reverse scan.
fn collect_rev_forwarded<'a>(occs: &'a Vec<Option<String>>) -> (r: Vec<ForwardedNode<'a>>)
    ensures
        node_views(r@) == rev_forwarded_nodes(occs.deep_view()),
{
    let ghost fw = occs.deep_view();
    let n = occs.len();
    let mut out: Vec<ForwardedNode<'a>> = Vec::new();
    let mut k: usize = n;
    proof {
        assert(fw.skip(n as int) =~= Seq::<Option<Seq<char>>>::empty());
        assert(node_views(out@) =~= rev_forwarded_nodes(fw.skip(n as int)));
    }
    while k > 0
        invariant
            k <= n,
            n == occs@.len(),
            fw == occs.deep_view(),
            fw.len() == n,
            node_views(out@) == rev_forwarded_nodes(fw.skip(k as int)),
        decreases k,
    {
        k = k - 1;
        proof {
            lemma_rev_forwarded_nodes_first(fw.skip(k as int));
            assert(fw.skip(k as int).drop_first() =~= fw.skip(k + 1));
            assert(fw.skip(k as int)[0] == fw[k as int]);
            assert(fw[k as int] == occs@[k as int].deep_view());
        }
        match &occs[k] {
            Some(h) => {
                let mut it = parse_forwarded_for_rev(h.as_str());
                let ghost occ = it.remaining();
                loop
                    invariant
                        node_views(out@) + it.remaining() == rev_forwarded_nodes(fw.skip(k + 1))
                            + occ,
                    ensures
                        it.remaining().len() == 0,
                    decreases it.remaining().len(),
                {
                    let ghost pre_out = out@;
                    let ghost pre_rem = it.remaining();
                    match it.next() {
                        Some(node) => {
                            out.push(node);
                            proof {
                                assert(node_views(out@) =~= node_views(pre_out).push(node@));
                                assert(node_views(pre_out).push(node@) + it.remaining() =~=
                                    node_views(pre_out) + pre_rem);
                            }
                        },
                        None => {
                            break ;
                        },
                    }
                }
                proof {
                    assert(node_views(out@) =~= node_views(out@) + it.remaining());
                    assert(node_views(out@) =~= rev_forwarded_nodes(fw.skip(k as int)));
                }
            },
            None => {
                proof {
                    assert(node_views(out@) =~= rev_forwarded_nodes(fw.skip(k as int)));
                }
            },
        }
    }
    proof {
        assert(fw.skip(0) =~= fw);
    }
    out
}

/// Collects the nodes of all `X-Forwarded-For` occurrences for a reverse
/// scan.
fn collect_rev_x<'a>(occs: &'a Vec<Option<String>>) -> (r: Vec<ForwardedNode<'a>>)
    ensures
        node_views(r@) == rev_x_nodes(occs.deep_view()),
{
    let ghost xf = occs.deep_view();
    let n = occs.len();
    let mut out: Vec<ForwardedNode<'a>> = Vec::new();
    let mut k: usize = n;
    proof {
        assert(xf.skip(n as int) =~= Seq::<Option<Seq<char>>>::empty());
        assert(node_views(out@) =~= rev_x_nodes(xf.skip(n as int)));
    }
    while k > 0
        invariant
            k <= n,
            n == occs@.len(),
            xf == occs.deep_view(),
            xf.len() == n,
            node_views(out@) == rev_x_nodes(xf.skip(k as int)),
        decreases k,
    {
        k = k - 1;
        proof {
            lemma_rev_x_nodes_first(xf.skip(k as int));
            assert(xf.skip(k as int).drop_first() =~= xf.skip(k + 1));
            assert(xf.skip(k as int)[0] == xf[k as int]);
            assert(xf[k as int] == occs@[k as int].deep_view());
        }
        match &occs[k] {
            Some(h) => {
                let mut it = parse_x_forwarded_for_rev(h.as_str());
                let ghost occ = it.remaining();
                loop
                    invariant
                        node_views(out@) + it.remaining() == rev_x_nodes(xf.skip(k + 1)) + occ,
                    ensures
                        it.remaining().len() == 0,
                    decreases it.remaining().len(),
                {
                    let ghost pre_out = out@;
                    let ghost pre_rem = it.remaining();
                    match it.next() {
                        Some(node) => {
                            out.push(node);
                            proof {
                                assert(node_views(out@) =~= node_views(pre_out).push(node@));
                                assert(node_views(pre_out).push(node@) + it.remaining() =~=
                                    node_views(pre_out) + pre_rem);
                            }
                        },
                        None => {
                            break ;
                        },
                    }
                }
                proof {
                    assert(node_views(out@) =~= node_views(out@) + it.remaining());
                    assert(node_views(out@) =~= rev_x_nodes(xf.skip(k as int)));
                }
            },
            None => {
                proof {
                    assert(node_views(out@) =~= rev_x_nodes(xf.skip(k as int)));
                }
            },
        }
    }
    proof {
        assert(xf.skip(0) =~= xf);
    }
    out
}

/// Scans collected nodes under the filter.
fn scan_nodes<F: Filter>(nodes: &Vec<ForwardedNode<'_>>, filter: &F) -> (r: Option<IpAddress>)
    ensures
        r == spec_find_next(node_views(nodes@), *filter),
{
    let ghost ns = node_views(nodes@);
    let n = nodes.len();
    let mut i: usize = 0;
    proof {
        assert(ns.skip(0) =~= ns);
    }
    while i < n
        invariant
            i <= n,
            n == nodes@.len(),
            ns == node_views(nodes@),
            spec_find_next(ns, *filter) == spec_find_next(ns.skip(i as int), *filter),
        decreases n - i,
    {
        proof {
            assert(ns.skip(i as int)[0] == nodes@[i as int]@);
            assert(ns.skip(i as int).drop_first() =~= ns.skip(i + 1));
        }
        match nodes[i] {
            ForwardedNode::Ip(ip) => {
                if !filter.is_match(ip) {
                    return Some(ip);
                }
            },
            _ => {
                return None;
            },
        }
        i = i + 1;
    }
    proof {
        assert(ns.skip(n as int) =~= Seq::<NodeModel>::empty());
    }
    None
}

/// Extracts the leftmost client IP with no assumption.
///
/// Note that this is generally not reliable, as the client might be behind
/// a proxy; prefer the filtered extraction, skipping known proxies.
///
/// Returns `None` if no IP is provided, or it is obfuscated.
pub fn extract_leftmost_forwarded_ip(
    forwarded: &Vec<Option<String>>,
    x_forwarded: &Vec<Option<String>>,
) -> (r: Option<IpAddress>)
    ensures
        r == spec_extract_leftmost(forwarded.deep_view(), x_forwarded.deep_view()),
{
    if forwarded.len() > 0 {
        proof {
            assert(forwarded.deep_view()[0] == forwarded@[0].deep_view());
        }
        match &forwarded[0] {
            Some(h) => {
                let mut it = parse_forwarded_for(h.as_str());
                match it.next() {
                    Some(node) => node.ip(),
                    None => None,
                }
            },
            None => None,
        }
    } else if x_forwarded.len() > 0 {
        proof {
            assert(x_forwarded.deep_view()[0] == x_forwarded@[0].deep_view());
        }
        match &x_forwarded[0] {
            Some(h) => {
                let mut it = parse_x_forwarded_for(h.as_str());
                match it.next() {
                    Some(node) => node.ip(),
                    None => None,
                }
            },
            None => None,
        }
    } else {
        None
    }
}

/// Extracts the rightmost client IP with no assumption.
///
/// Returns `None` if no IP is provided, or it is obfuscated.
pub fn extract_rightmost_forwarded_ip(
    forwarded: &Vec<Option<String>>,
    x_forwarded: &Vec<Option<String>>,
) -> (r: Option<IpAddress>)
    ensures
        r == spec_extract_rightmost(forwarded.deep_view(), x_forwarded.deep_view()),
{
    if forwarded.len() > 0 {
        proof {
            assert(forwarded.deep_view().last() == forwarded@.last().deep_view());
        }
        match &forwarded[forwarded.len() - 1] {
            Some(h) => {
                let mut it = parse_forwarded_for_rev(h.as_str());
                match it.next() {
                    Some(node) => node.ip(),
                    None => None,
                }
            },
            None => None,
        }
    } else if x_forwarded.len() > 0 {
        proof {
            assert(x_forwarded.deep_view().last() == x_forwarded@.last().deep_view());
        }
        match &x_forwarded[x_forwarded.len() - 1] {
            Some(h) => {
                let mut it = parse_x_forwarded_for_rev(h.as_str());
                match it.next() {
                    Some(node) => node.ip(),
                    None => None,
                }
            },
            None => None,
        }
    } else {
        None
    }
}

/// Extracts the client IP taking the rightmost, after filtering out any IP
/// matching `filter`.
///
/// Returns `None` if no IP is provided, or it is obfuscated.
pub fn extract_filtered_forwarded_ip<F: Filter>(
    forwarded: &Vec<Option<String>>,
    x_forwarded: &Vec<Option<String>>,
    filter: &F,
) -> (r: Option<IpAddress>)
    ensures
        r == spec_extract_filtered(forwarded.deep_view(), x_forwarded.deep_view(), *filter),
{
    let nodes = collect_rev_forwarded(forwarded);
    if nodes.len() > 0 {
        scan_nodes(&nodes, filter)
    } else {
        let xnodes = collect_rev_x(x_forwarded);
        scan_nodes(&xnodes, filter)
    }
}

} // verus!
