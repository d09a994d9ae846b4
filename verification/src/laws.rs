//! General properties of the chain grammar and of filtered extraction,
//! stated over the specification functions and proved once for all inputs.

use vstd::prelude::*;

use crate::filter::Filter;
use crate::forwarded::{
    for_nodes, lemma_for_nodes_push, spec_for_node, spec_forwarded_for_nodes, spec_parse_node,
    NodeModel,
};
use crate::headers::{first_node_ip, spec_extract_leftmost, spec_extract_rightmost};
use crate::ip::IpAddress;
use crate::spec_find_next;
use crate::text::{
    char_in, eq_ignore_case, first_idx, lemma_first_idx, lemma_split_concat, lemma_split_no_sep,
    split_on, trim_set, CharSet,
};

verus! {

/// A token that chain splitting leaves whole: free of `,`, `;` and `=`.
pub open spec fn chain_token(s: Seq<char>) -> bool {
    forall|i: int|
        0 <= i < s.len() ==> !char_in(CharSet::CommaOrSemicolon, #[trigger] s[i]) && !char_in(
            CharSet::Equals,
            s[i],
        )
}

/// The header piece `for=` followed by the token.
pub open spec fn for_entry(a: Seq<char>) -> Seq<char> {
    "for="@ + a
}

/// A `for=`-entry piece is free of chain separators.
proof fn lemma_for_entry_clean(a: Seq<char>)
    requires
        chain_token(a),
    ensures
        forall|i: int|
            0 <= i < for_entry(a).len() ==> !char_in(
                CharSet::CommaOrSemicolon,
                #[trigger] for_entry(a)[i],
            ),
{
    reveal_strlit("for=");
    assert forall|i: int| 0 <= i < for_entry(a).len() implies !char_in(
        CharSet::CommaOrSemicolon,
        #[trigger] for_entry(a)[i],
    ) by {
        if i < 4 {
            assert(for_entry(a)[i] == "for="@[i]);
        } else {
            assert(for_entry(a)[i] == a[i - 4]);
        }
    }
}

/// What a `for=`-entry piece denotes in the `for`-only chain.
proof fn lemma_for_entry_node(a: Seq<char>)
    requires
        chain_token(a),
    ensures
        spec_for_node(for_entry(a)) == Some(spec_parse_node(a)),
{
    reveal_strlit("for=");
    reveal_strlit("for");
    let tok = for_entry(a);
    lemma_first_idx(tok, CharSet::Equals);
    assert(tok[0] == 'f' && tok[1] == 'o' && tok[2] == 'r' && tok[3] == '=');
    let fi = first_idx(tok, CharSet::Equals);
    assert(fi == 3) by {
        if fi < 3 {
            assert(char_in(CharSet::Equals, tok[fi]));
        }
        if fi > 3 {
            assert(!char_in(CharSet::Equals, tok[3]));
        }
    }
    assert(tok.take(3) =~= "for"@);
    assert(tok.skip(4) =~= a);
    assert(eq_ignore_case("for"@, "for"@));
}

/// The `for=unknown` piece denotes the unknown sentinel, and is free of
/// chain separators.
proof fn lemma_for_unknown()
    ensures
        spec_for_node("for=unknown"@) == Some(NodeModel::Unknown),
        forall|i: int|
            0 <= i < "for=unknown"@.len() ==> !char_in(
                CharSet::CommaOrSemicolon,
                #[trigger] "for=unknown"@[i],
            ),
{
    reveal_strlit("for=unknown");
    reveal_strlit("for");
    reveal_strlit("unknown");
    let tok = "for=unknown"@;
    lemma_first_idx(tok, CharSet::Equals);
    assert(tok[0] == 'f' && tok[1] == 'o' && tok[2] == 'r' && tok[3] == '=');
    let fi = first_idx(tok, CharSet::Equals);
    assert(fi == 3) by {
        if fi < 3 {
            assert(char_in(CharSet::Equals, tok[fi]));
        }
        if fi > 3 {
            assert(!char_in(CharSet::Equals, tok[3]));
        }
    }
    assert(tok.take(3) =~= "for"@);
    assert(tok.skip(4) =~= "unknown"@);
    assert(eq_ignore_case("for"@, "for"@));
    let u = "unknown"@;
    assert(trim_set(u, CharSet::Quote) == u);
    assert(eq_ignore_case(u, "unknown"@));
}

/// A three-token chain splits into its three tokens.
proof fn lemma_split_three(t1: Seq<char>, t2: Seq<char>, t3: Seq<char>)
    requires
        forall|i: int|
            0 <= i < t1.len() ==> !char_in(CharSet::CommaOrSemicolon, #[trigger] t1[i]),
        forall|i: int|
            0 <= i < t2.len() ==> !char_in(CharSet::CommaOrSemicolon, #[trigger] t2[i]),
        forall|i: int|
            0 <= i < t3.len() ==> !char_in(CharSet::CommaOrSemicolon, #[trigger] t3[i]),
    ensures
        split_on(t1 + seq![','] + t2 + seq![','] + t3, CharSet::CommaOrSemicolon) == seq![
            t1,
            t2,
            t3,
        ],
{
    let h = t1 + seq![','] + t2 + seq![','] + t3;
    assert(h =~= t1 + seq![','] + (t2 + seq![','] + t3));
    lemma_split_concat(t1, ',', t2 + seq![','] + t3, CharSet::CommaOrSemicolon);
    lemma_split_concat(t2, ',', t3, CharSet::CommaOrSemicolon);
    lemma_split_no_sep(t1, CharSet::CommaOrSemicolon);
    lemma_split_no_sep(t2, CharSet::CommaOrSemicolon);
    lemma_split_no_sep(t3, CharSet::CommaOrSemicolon);
    assert(split_on(h, CharSet::CommaOrSemicolon) =~= seq![t1, t2, t3]);
}

/// Three tokens that each denote a node yield those three nodes.
proof fn lemma_for_nodes_three(toks: Seq<Seq<char>>, n1: NodeModel, n2: NodeModel, n3: NodeModel)
    requires
        toks.len() == 3,
        spec_for_node(toks[0]) == Some(n1),
        spec_for_node(toks[1]) == Some(n2),
        spec_for_node(toks[2]) == Some(n3),
    ensures
        for_nodes(toks) == seq![n1, n2, n3],
{
    let d1 = toks.drop_first();
    let d2 = d1.drop_first();
    let d3 = d2.drop_first();
    assert(d1.len() == 2 && d2.len() == 1 && d3.len() == 0);
    assert(d1[0] == toks[1] && d2[0] == toks[2]);
    assert(d3 =~= Seq::<Seq<char>>::empty());
    assert(for_nodes(d3) =~= Seq::<NodeModel>::empty());
    assert(for_nodes(d2) =~= seq![n3]);
    assert(for_nodes(d1) =~= seq![n2, n3]);
    assert(for_nodes(toks) =~= seq![n1, n2, n3]);
}

/// For any header built as `for=A,for=B,for=C` from tokens that parse to
/// concrete IPs, forward `for`-only iteration yields the three IPs in that
/// order, and reverse iteration yields them reversed.
#[verifier::rlimit(100)]
pub proof fn lemma_chain_order(
    a: Seq<char>,
    b: Seq<char>,
    c: Seq<char>,
    ipa: IpAddress,
    ipb: IpAddress,
    ipc: IpAddress,
)
    requires
        chain_token(a),
        chain_token(b),
        chain_token(c),
        spec_parse_node(a) == NodeModel::Ip(ipa),
        spec_parse_node(b) == NodeModel::Ip(ipb),
        spec_parse_node(c) == NodeModel::Ip(ipc),
    ensures
        ({
            let h = for_entry(a) + seq![','] + for_entry(b) + seq![','] + for_entry(c);
            spec_forwarded_for_nodes(h) == seq![
                NodeModel::Ip(ipa),
                NodeModel::Ip(ipb),
                NodeModel::Ip(ipc),
            ] && spec_forwarded_for_nodes(h).reverse() == seq![
                NodeModel::Ip(ipc),
                NodeModel::Ip(ipb),
                NodeModel::Ip(ipa),
            ]
        }),
{
    let t1 = for_entry(a);
    let t2 = for_entry(b);
    let t3 = for_entry(c);
    let h = t1 + seq![','] + t2 + seq![','] + t3;
    lemma_for_entry_clean(a);
    lemma_for_entry_clean(b);
    lemma_for_entry_clean(c);
    lemma_split_three(t1, t2, t3);
    lemma_for_entry_node(a);
    lemma_for_entry_node(b);
    lemma_for_entry_node(c);
    lemma_for_nodes_three(
        seq![t1, t2, t3],
        NodeModel::Ip(ipa),
        NodeModel::Ip(ipb),
        NodeModel::Ip(ipc),
    );
    assert(seq![NodeModel::Ip(ipa), NodeModel::Ip(ipb), NodeModel::Ip(ipc)].reverse() =~= seq![
        NodeModel::Ip(ipc),
        NodeModel::Ip(ipb),
        NodeModel::Ip(ipa),
    ]);
}

/// Leftmost round trip: over a header that starts `for=A,`, with A a token
/// that parses to a concrete IP, the forward chain starts with that IP, and
/// leftmost extraction over that single occurrence returns it — whatever
/// follows the comma, and whatever the fallback header holds.
pub proof fn lemma_leftmost_round_trip(
    a: Seq<char>,
    rest: Seq<char>,
    ip: IpAddress,
    xf: Seq<Option<Seq<char>>>,
)
    requires
        chain_token(a),
        spec_parse_node(a) == NodeModel::Ip(ip),
    ensures
        ({
            let h = for_entry(a) + seq![','] + rest;
            first_node_ip(spec_forwarded_for_nodes(h)) == Some(ip) && spec_extract_leftmost(
                seq![Some(h)],
                xf,
            ) == Some(ip)
        }),
{
    let t1 = for_entry(a);
    let h = t1 + seq![','] + rest;
    lemma_for_entry_clean(a);
    lemma_split_concat(t1, ',', rest, CharSet::CommaOrSemicolon);
    lemma_split_no_sep(t1, CharSet::CommaOrSemicolon);
    lemma_for_entry_node(a);
    let toks = split_on(h, CharSet::CommaOrSemicolon);
    assert(toks =~= seq![t1] + split_on(rest, CharSet::CommaOrSemicolon));
    assert(toks[0] == t1);
    assert(toks.drop_first() =~= split_on(rest, CharSet::CommaOrSemicolon));
    assert(for_nodes(toks) == seq![NodeModel::Ip(ip)] + for_nodes(toks.drop_first()));
}

/// Rightmost round trip: over a header that ends `,for=Z`, with Z a token
/// that parses to a concrete IP, the reverse chain starts with that IP, and
/// rightmost extraction over that single occurrence returns it.
pub proof fn lemma_rightmost_round_trip(
    z: Seq<char>,
    rest: Seq<char>,
    ip: IpAddress,
    xf: Seq<Option<Seq<char>>>,
)
    requires
        chain_token(z),
        spec_parse_node(z) == NodeModel::Ip(ip),
    ensures
        ({
            let h = rest + seq![','] + for_entry(z);
            first_node_ip(spec_forwarded_for_nodes(h).reverse()) == Some(ip)
                && spec_extract_rightmost(seq![Some(h)], xf) == Some(ip)
        }),
{
    let tz = for_entry(z);
    let h = rest + seq![','] + tz;
    lemma_for_entry_clean(z);
    lemma_split_concat(rest, ',', tz, CharSet::CommaOrSemicolon);
    lemma_split_no_sep(tz, CharSet::CommaOrSemicolon);
    lemma_for_entry_node(z);
    let toks = split_on(h, CharSet::CommaOrSemicolon);
    let toks0 = split_on(rest, CharSet::CommaOrSemicolon);
    assert(toks =~= toks0.push(tz));
    lemma_for_nodes_push(toks0, tz);
    let ns = for_nodes(toks);
    assert(ns == for_nodes(toks0).push(NodeModel::Ip(ip)));
    assert(ns.len() > 0);
    assert(ns.reverse()[0] == ns[ns.len() - 1]);
}

/// Filter widening: if every IP the narrow filter matches is also matched
/// by the wide one, a filtered scan under the wide filter never returns an
/// IP that a scan under the narrow filter would have skipped — its result
/// matches neither filter.
pub proof fn lemma_filter_widening<F1: Filter, F2: Filter>(ns: Seq<NodeModel>, f1: F1, f2: F2)
    requires
        forall|ip: IpAddress| f1.spec_match(ip) ==> f2.spec_match(ip),
    ensures
        spec_find_next(ns, f2) matches Some(ip) ==> !f1.spec_match(ip) && !f2.spec_match(ip),
    decreases ns.len(),
{
    if ns.len() > 0 {
        match ns[0] {
            NodeModel::Ip(ip0) => {
                if f2.spec_match(ip0) {
                    lemma_filter_widening(ns.drop_first(), f1, f2);
                }
            },
            _ => {
            },
        }
    }
}

/// A chain headed by an IP the filter does not match yields that IP at
/// once: nothing past it is consulted.
pub proof fn lemma_immediate_return<F: Filter>(ns: Seq<NodeModel>, ip: IpAddress, filter: F)
    requires
        ns.len() > 0,
        ns[0] == NodeModel::Ip(ip),
        !filter.spec_match(ip),
    ensures
        spec_find_next(ns, filter) == Some(ip),
{
}

/// A chain headed by a node that is no concrete IP yields nothing, however
/// many valid IPs follow: an opaque hop poisons the rest of the scan.
pub proof fn lemma_opaque_aborts<F: Filter>(ns: Seq<NodeModel>, filter: F)
    requires
        ns.len() > 0,
        !(ns[0] is Ip),
    ensures
        spec_find_next(ns, filter) is None,
{
}

/// The abort rule on a whole header: in `for=A,for=unknown,for=B`, with a
/// filter that does not match A's IP, the reverse scan never reaches the
/// unknown hop — it yields A's IP at once.
#[verifier::rlimit(100)]
pub proof fn lemma_abort_rule<F: Filter>(a: Seq<char>, b: Seq<char>, ip: IpAddress, filter: F)
    requires
        chain_token(a),
        chain_token(b),
        spec_parse_node(a) == NodeModel::Ip(ip),
        !filter.spec_match(ip),
    ensures
        ({
            let h = for_entry(a) + seq![','] + "for=unknown"@ + seq![','] + for_entry(b);
            spec_find_next(spec_forwarded_for_nodes(h), filter) == Some(ip)
        }),
{
    let t1 = for_entry(a);
    let t2 = "for=unknown"@;
    let t3 = for_entry(b);
    let h = t1 + seq![','] + t2 + seq![','] + t3;
    lemma_for_entry_clean(a);
    lemma_for_unknown();
    lemma_for_entry_clean(b);
    lemma_split_three(t1, t2, t3);
    lemma_for_entry_node(a);
    lemma_for_entry_node(b);
    lemma_for_nodes_three(seq![t1, t2, t3], NodeModel::Ip(ip), NodeModel::Unknown, spec_parse_node(b));
    let ns = spec_forwarded_for_nodes(h);
    assert(ns[0] == NodeModel::Ip(ip));
    lemma_immediate_return(ns, ip, filter);
}

} // verus!
