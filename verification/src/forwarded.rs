//! The `Forwarded` header grammar: nodes, entry values, and the chain
//! iterators that walk a header value in either direction.
//!
//! A header value is a `,`-separated list of entries; an entry is a
//! `;`-separated list of `key=value` pairs (RFC 7239). The de-facto
//! `X-Forwarded-For` header is a plain `,`-separated list of addresses.

use vstd::prelude::*;

use crate::ip::{parse_ip_text, spec_parse_ip, IpAddress};
use crate::text::{
    eq_ignore_case, find_first, find_last, first_idx, last_idx, lemma_first_idx, reversed,
    split_on, split_text, str_eq_ignore_case, trim_set, trim_text, CharSet,
};

verus! {

/// The mathematical value of a parsed node.
pub enum NodeModel {
    /// A concrete IP address.
    Ip(IpAddress),
    /// An obscured identifier.
    Name(Seq<char>),
    /// The proxy declined to identify the hop.
    Unknown,
}

/// Parsed node of the `Forwarded` header: a concrete IP address, an
/// obscured name, or the `unknown` sentinel.
#[derive(Clone, Copy, PartialEq, Eq, Debug)]
pub enum ForwardedNode<'a> {
    /// Proxy specified a real IP address.
    Ip(IpAddress),
    /// Proxy decided to obscure the hop behind an opaque name.
    Name(&'a str),
    /// Proxy indicates it cannot know the IP.
    Unknown,
}

impl View for ForwardedNode<'_> {
    type V = NodeModel;

    open spec fn view(&self) -> NodeModel {
        match self {
            ForwardedNode::Ip(ip) => NodeModel::Ip(*ip),
            ForwardedNode::Name(s) => NodeModel::Name(s@),
            ForwardedNode::Unknown => NodeModel::Unknown,
        }
    }
}

/// The IP a node holds, if it holds one.
pub open spec fn spec_node_ip(n: NodeModel) -> Option<IpAddress> {
    match n {
        NodeModel::Ip(ip) => Some(ip),
        _ => None,
    }
}

/// The node a bare token denotes: an IP address when the token parses as
/// one, otherwise an opaque name.
pub open spec fn spec_parse_name(s: Seq<char>) -> NodeModel {
    match spec_parse_ip(s) {
        Some(ip) => NodeModel::Ip(ip),
        None => NodeModel::Name(s),
    }
}

/// The node an `X-Forwarded-For` token denotes: the token with surrounding
/// white space removed, read as an IP address or else kept as a name.
pub open spec fn spec_parse_x_node(s: Seq<char>) -> NodeModel {
    spec_parse_name(trim_set(s, CharSet::Whitespace))
}

/// The node a `Forwarded` token denotes. Surrounding quotes are removed;
/// `unknown` (in any case) is the unknown sentinel; a `[`-led token is a
/// bracketed v6 literal whose bracket content is the address; otherwise an
/// optional `:port` suffix is removed by taking the piece before the last
/// colon, and the rest is read as an IP address or kept as a name.
pub open spec fn spec_parse_node(s: Seq<char>) -> NodeModel {
    let t = trim_set(s, CharSet::Quote);
    if eq_ignore_case(t, "unknown"@) {
        NodeModel::Unknown
    } else if t.len() > 0 && t[0] == '[' {
        let inner = t.drop_first();
        let j = first_idx(inner, CharSet::CloseBracket);
        if j < inner.len() {
            spec_parse_name(inner.take(j))
        } else {
            NodeModel::Name(inner)
        }
    } else {
        let j = last_idx(t, CharSet::Colon);
        if j >= 0 {
            spec_parse_name(t.take(j))
        } else {
            spec_parse_name(t)
        }
    }
}

impl<'a> ForwardedNode<'a> {
    /// Reads a token as an IP address, or keeps it as a name.
    fn parse_name(name: &'a str) -> (r: Self)
        ensures
            r@ == spec_parse_name(name@),
    {
        match parse_ip_text(name) {
            Some(ip) => ForwardedNode::Ip(ip),
            None => ForwardedNode::Name(name),
        }
    }

    /// Returns the `ip` value if the node is a valid IP address.
    pub fn ip(&self) -> (r: Option<IpAddress>)
        ensures
            r == spec_node_ip(self@),
    {
        match self {
            ForwardedNode::Ip(ip) => Some(*ip),
            _ => None,
        }
    }

    /// Parses an `X-Forwarded-For` node identifier.
    pub fn parse_x_node(node: &'a str) -> (r: Self)
        ensures
            r@ == spec_parse_x_node(node@),
    {
        let t = trim_text(node, CharSet::Whitespace);
        Self::parse_name(t)
    }

    /// Parses a `Forwarded` node identifier.
    pub fn parse_node(node: &'a str) -> (r: Self)
        ensures
            r@ == spec_parse_node(node@),
    {
        let t = trim_text(node, CharSet::Quote);
        if str_eq_ignore_case(t, "unknown") {
            return ForwardedNode::Unknown;
        }
        let n = t.unicode_len();
        if n > 0 && t.get_char(0) == '[' {
            let inner = t.substring_char(1, n);
            proof {
                assert(inner@ =~= t@.drop_first());
            }
            let j = find_first(inner, CharSet::CloseBracket);
            proof {
                lemma_first_idx(inner@, CharSet::CloseBracket);
            }
            if j < inner.unicode_len() {
                let addr = inner.substring_char(0, j);
                proof {
                    assert(addr@ =~= inner@.take(j as int));
                }
                return Self::parse_name(addr);
            } else {
                return ForwardedNode::Name(inner);
            }
        }
        match find_last(t, CharSet::Colon) {
            Some(j) => {
                proof {
                    crate::text::lemma_last_idx(t@, CharSet::Colon);
                }
                let host = t.substring_char(0, j);
                proof {
                    assert(host@ =~= t@.take(j as int));
                }
                Self::parse_name(host)
            },
            None => Self::parse_name(t),
        }
    }
}

/// The mathematical value of one `Forwarded` entry component.
pub enum ValueModel {
    /// The node that passed the request to the proxy.
    By(NodeModel),
    /// The client the request came from.
    For(NodeModel),
    /// The original `Host` header value.
    Host(Seq<char>),
    /// The protocol name.
    Protocol(Seq<char>),
}

/// `Forwarded` entry value.
#[derive(Copy, Clone, PartialEq, Eq, Debug)]
pub enum ForwardedValue<'a> {
    /// Identifies the node that passed the request to the proxy.
    ///
    /// This potentially can be the same as `For`.
    By(ForwardedNode<'a>),
    /// Contains the client's IP information.
    ///
    /// This is normally what identifies the client's original IP.
    For(ForwardedNode<'a>),
    /// Original value of the `Host` header.
    Host(&'a str),
    /// String with the protocol name.
    Protocol(&'a str),
}

impl View for ForwardedValue<'_> {
    type V = ValueModel;

    open spec fn view(&self) -> ValueModel {
        match self {
            ForwardedValue::By(n) => ValueModel::By(n@),
            ForwardedValue::For(n) => ValueModel::For(n@),
            ForwardedValue::Host(s) => ValueModel::Host(s@),
            ForwardedValue::Protocol(s) => ValueModel::Protocol(s@),
        }
    }
}

/// The value denoted by one `key=value` pair token, if its key is one of
/// the four known keys; pairs without `=` and unknown keys denote nothing.
pub open spec fn spec_pair_value(tok: Seq<char>) -> Option<ValueModel> {
    let i = first_idx(tok, CharSet::Equals);
    if i == tok.len() {
        None
    } else {
        let key = tok.take(i);
        let val = tok.skip(i + 1);
        if eq_ignore_case(key, "for"@) {
            Some(ValueModel::For(spec_parse_node(val)))
        } else if eq_ignore_case(key, "by"@) {
            Some(ValueModel::By(spec_parse_node(val)))
        } else if eq_ignore_case(key, "proto"@) {
            Some(ValueModel::Protocol(trim_set(val, CharSet::Whitespace)))
        } else if eq_ignore_case(key, "host"@) {
            Some(ValueModel::Host(trim_set(val, CharSet::Whitespace)))
        } else {
            None
        }
    }
}

/// The values denoted by a run of pair tokens, in order.
pub open spec fn entry_values(toks: Seq<Seq<char>>) -> Seq<ValueModel>
    decreases toks.len(),
{
    if toks.len() == 0 {
        Seq::empty()
    } else {
        let rest = entry_values(toks.drop_first());
        match spec_pair_value(toks[0]) {
            Some(v) => seq![v] + rest,
            None => rest,
        }
    }
}

/// The values of one `Forwarded` entry, in appearance order.
pub open spec fn spec_entry_values(entry: Seq<char>) -> Seq<ValueModel> {
    entry_values(split_on(entry, CharSet::Semicolon))
}

/// The node denoted by a token whose key is `for`, if that is its key.
pub open spec fn spec_for_node(tok: Seq<char>) -> Option<NodeModel> {
    let i = first_idx(tok, CharSet::Equals);
    if i == tok.len() {
        None
    } else if eq_ignore_case(tok.take(i), "for"@) {
        Some(spec_parse_node(tok.skip(i + 1)))
    } else {
        None
    }
}

/// The `for` nodes denoted by a run of tokens, in order.
pub open spec fn for_nodes(toks: Seq<Seq<char>>) -> Seq<NodeModel>
    decreases toks.len(),
{
    if toks.len() == 0 {
        Seq::empty()
    } else {
        let rest = for_nodes(toks.drop_first());
        match spec_for_node(toks[0]) {
            Some(n) => seq![n] + rest,
            None => rest,
        }
    }
}

/// Appending a token appends its node, if it denotes one.
pub proof fn lemma_for_nodes_push(toks: Seq<Seq<char>>, tok: Seq<char>)
    ensures
        for_nodes(toks.push(tok)) == (match spec_for_node(tok) {
            Some(n) => for_nodes(toks).push(n),
            None => for_nodes(toks),
        }),
    decreases toks.len(),
{
    let p = toks.push(tok);
    if toks.len() == 0 {
        assert(p[0] == tok);
        assert(p.drop_first() =~= Seq::<Seq<char>>::empty());
        assert(for_nodes(p.drop_first()) == Seq::<NodeModel>::empty());
        match spec_for_node(tok) {
            Some(n) => {
                assert(for_nodes(p) == seq![n] + Seq::<NodeModel>::empty());
                assert(seq![n] + Seq::<NodeModel>::empty() =~= Seq::<NodeModel>::empty().push(n));
            },
            None => {
                assert(for_nodes(p) == Seq::<NodeModel>::empty());
            },
        }
    } else {
        lemma_for_nodes_push(toks.drop_first(), tok);
        assert(p[0] == toks[0]);
        assert(p.drop_first() =~= toks.drop_first().push(tok));
        let rest = for_nodes(toks.drop_first());
        match spec_for_node(toks[0]) {
            Some(m) => {
                assert(for_nodes(toks) == seq![m] + rest);
                assert(for_nodes(p) == seq![m] + for_nodes(p.drop_first()));
                match spec_for_node(tok) {
                    Some(n) => {
                        assert(for_nodes(p.drop_first()) == rest.push(n));
                        assert(seq![m] + rest.push(n) =~= (seq![m] + rest).push(n));
                    },
                    None => {
                        assert(for_nodes(p.drop_first()) == rest);
                    },
                }
            },
            None => {
                assert(for_nodes(toks) == rest);
                assert(for_nodes(p) == for_nodes(p.drop_first()));
            },
        }
    }
}

/// Reversing the tokens reverses the nodes they denote.
pub proof fn lemma_for_nodes_reverse(toks: Seq<Seq<char>>)
    ensures
        for_nodes(toks.reverse()) == for_nodes(toks).reverse(),
    decreases toks.len(),
{
    if toks.len() == 0 {
        assert(toks.reverse() =~= toks);
        assert(for_nodes(toks).reverse() =~= for_nodes(toks));
    } else {
        let d = toks.drop_first();
        lemma_for_nodes_reverse(d);
        lemma_for_nodes_push(d.reverse(), toks[0]);
        assert(toks.reverse() =~= d.reverse().push(toks[0]));
        match spec_for_node(toks[0]) {
            Some(n) => {
                assert(for_nodes(toks) =~= seq![n] + for_nodes(d));
                assert((seq![n] + for_nodes(d)).reverse() =~= for_nodes(d).reverse().push(n));
            },
            None => {
                assert(for_nodes(toks) =~= for_nodes(d));
            },
        }
    }
}

/// The entry texts of a `Forwarded` header, in order.
pub open spec fn spec_entries(s: Seq<char>) -> Seq<Seq<char>> {
    split_on(s, CharSet::Comma)
}

/// The `for` nodes of a `Forwarded` header, in order.
pub open spec fn spec_forwarded_for_nodes(s: Seq<char>) -> Seq<NodeModel> {
    for_nodes(split_on(s, CharSet::CommaOrSemicolon))
}

/// The nodes denoted by a run of `X-Forwarded-For` tokens, in order.
pub open spec fn x_nodes(toks: Seq<Seq<char>>) -> Seq<NodeModel> {
    toks.map_values(|t: Seq<char>| spec_parse_x_node(t))
}

/// The nodes of an `X-Forwarded-For` header, in order.
pub open spec fn spec_x_forwarded_nodes(s: Seq<char>) -> Seq<NodeModel> {
    x_nodes(split_on(s, CharSet::Comma))
}

/// Reads one token of the `for`-only chain.
fn for_token<'a>(tok: &'a str) -> (r: Option<ForwardedNode<'a>>)
    ensures
        match r {
            Some(n) => spec_for_node(tok@) == Some(n@),
            None => spec_for_node(tok@) is None,
        },
{
    let n = tok.unicode_len();
    let i = find_first(tok, CharSet::Equals);
    proof {
        lemma_first_idx(tok@, CharSet::Equals);
    }
    if i == n {
        return None;
    }
    let key = tok.substring_char(0, i);
    proof {
        assert(key@ =~= tok@.take(i as int));
    }
    if str_eq_ignore_case(key, "for") {
        let val = tok.substring_char(i + 1, n);
        proof {
            assert(val@ =~= tok@.skip(i + 1));
        }
        Some(ForwardedNode::parse_node(val))
    } else {
        None
    }
}

/// Reads one `key=value` pair token of an entry.
fn pair_token<'a>(tok: &'a str) -> (r: Option<ForwardedValue<'a>>)
    ensures
        match r {
            Some(v) => spec_pair_value(tok@) == Some(v@),
            None => spec_pair_value(tok@) is None,
        },
{
    let n = tok.unicode_len();
    let i = find_first(tok, CharSet::Equals);
    proof {
        lemma_first_idx(tok@, CharSet::Equals);
    }
    if i == n {
        return None;
    }
    let key = tok.substring_char(0, i);
    let val = tok.substring_char(i + 1, n);
    proof {
        assert(key@ =~= tok@.take(i as int));
        assert(val@ =~= tok@.skip(i + 1));
    }
    if str_eq_ignore_case(key, "for") {
        Some(ForwardedValue::For(ForwardedNode::parse_node(val)))
    } else if str_eq_ignore_case(key, "by") {
        Some(ForwardedValue::By(ForwardedNode::parse_node(val)))
    } else if str_eq_ignore_case(key, "proto") {
        Some(ForwardedValue::Protocol(trim_text(val, CharSet::Whitespace)))
    } else if str_eq_ignore_case(key, "host") {
        Some(ForwardedValue::Host(trim_text(val, CharSet::Whitespace)))
    } else {
        None
    }
}

/// Iterator of a `Forwarded` entry's components.
pub struct ForwardedEntryIter<'a> {
    toks: Vec<&'a str>,  // the pair tokens still to visit, last first
}

impl<'a> ForwardedEntryIter<'a> {
    /// The values this iterator has yet to yield.
    pub closed spec fn remaining(&self) -> Seq<ValueModel> {
        entry_values(self.toks.deep_view().reverse())
    }

    /// Parses a single entry within a `Forwarded` header.
    ///
    /// It performs no error checking: a pair that is not `key=value` with a
    /// known key is skipped, as the grammar is lenient.
    ///
    /// Values within the entry are separated by `;`.
    pub fn parse_entry(value: &'a str) -> (r: Self)
        ensures
            r.remaining() == spec_entry_values(value@),
    {
        let toks = reversed(split_text(value, CharSet::Semicolon));
        proof {
            assert(toks.deep_view().reverse() =~= split_on(value@, CharSet::Semicolon));
        }
        ForwardedEntryIter { toks }
    }

    /// Yields the next recognised value of the entry.
    pub fn next(&mut self) -> (r: Option<ForwardedValue<'a>>)
        ensures
            old(self).remaining().len() == 0 ==> r is None && final(self).remaining() == old(
                self,
            ).remaining(),
            old(self).remaining().len() > 0 ==> (r matches Some(v) && v@ == old(self).remaining()[0]
                && final(self).remaining() == old(self).remaining().drop_first()),
    {
        loop
            invariant
                self.remaining() == old(self).remaining(),
            decreases self.toks.len(),
        {
            let ghost pre = self.toks.deep_view();
            match self.toks.pop() {
                Some(tok) => {
                    proof {
                        assert(self.toks.deep_view() =~= pre.drop_last());
                        assert(pre.drop_last().reverse() =~= pre.reverse().drop_first());
                        assert(pre.reverse()[0] == tok@);
                    }
                    match pair_token(tok) {
                        Some(v) => {
                            return Some(v);
                        },
                        None => {
                        },
                    }
                },
                None => {
                    proof {
                        assert(pre.reverse() =~= Seq::<Seq<char>>::empty());
                    }
                    return None;
                },
            }
        }
    }
}

/// Iterator over the entries within a `Forwarded` header.
pub struct ForwardedIter<'a> {
    entries: Vec<&'a str>,  // the entry texts still to visit, last first
}

impl<'a> ForwardedIter<'a> {
    /// The entry texts this iterator has yet to yield.
    pub closed spec fn remaining(&self) -> Seq<Seq<char>> {
        self.entries.deep_view().reverse()
    }

    /// Yields an iterator over the next entry's components.
    pub fn next(&mut self) -> (r: Option<ForwardedEntryIter<'a>>)
        ensures
            old(self).remaining().len() == 0 ==> r is None && final(self).remaining() == old(
                self,
            ).remaining(),
            old(self).remaining().len() > 0 ==> (r matches Some(e) && e.remaining()
                == spec_entry_values(old(self).remaining()[0]) && final(self).remaining() == old(
                self,
            ).remaining().drop_first()),
    {
        let ghost pre = self.entries.deep_view();
        match self.entries.pop() {
            Some(entry) => {
                proof {
                    assert(self.entries.deep_view() =~= pre.drop_last());
                    assert(pre.drop_last().reverse() =~= pre.reverse().drop_first());
                    assert(pre.reverse()[0] == entry@);
                }
                Some(ForwardedEntryIter::parse_entry(entry))
            },
            None => {
                proof {
                    assert(pre.reverse() =~= Seq::<Seq<char>>::empty());
                }
                None
            },
        }
    }
}

/// Iterator over the `For` components within a `Forwarded` header.
///
/// This is most likely what determines a client's actual IP;
/// [`ForwardedIter`] walks all components instead.
pub struct ForwardedForIter<'a> {
    toks: Vec<&'a str>,  // the tokens still to visit, last first
}

impl<'a> ForwardedForIter<'a> {
    /// The nodes this iterator has yet to yield.
    pub closed spec fn remaining(&self) -> Seq<NodeModel> {
        for_nodes(self.toks.deep_view().reverse())
    }

    /// Yields the next `for` node of the chain.
    pub fn next(&mut self) -> (r: Option<ForwardedNode<'a>>)
        ensures
            old(self).remaining().len() == 0 ==> r is None && final(self).remaining() == old(
                self,
            ).remaining(),
            old(self).remaining().len() > 0 ==> (r matches Some(node) && node@ == old(
                self,
            ).remaining()[0] && final(self).remaining() == old(self).remaining().drop_first()),
    {
        loop
            invariant
                self.remaining() == old(self).remaining(),
            decreases self.toks.len(),
        {
            let ghost pre = self.toks.deep_view();
            match self.toks.pop() {
                Some(tok) => {
                    proof {
                        assert(self.toks.deep_view() =~= pre.drop_last());
                        assert(pre.drop_last().reverse() =~= pre.reverse().drop_first());
                        assert(pre.reverse()[0] == tok@);
                    }
                    match for_token(tok) {
                        Some(node) => {
                            return Some(node);
                        },
                        None => {
                        },
                    }
                },
                None => {
                    proof {
                        assert(pre.reverse() =~= Seq::<Seq<char>>::empty());
                    }
                    return None;
                },
            }
        }
    }
}

/// Iterator over an `X-Forwarded-For` header.
///
/// This header is not standard; the iterator assumes it is a simple list of
/// IP addresses.
pub struct XForwardedForIter<'a> {
    toks: Vec<&'a str>,  // the tokens still to visit, last first
}

impl<'a> XForwardedForIter<'a> {
    /// The nodes this iterator has yet to yield.
    pub closed spec fn remaining(&self) -> Seq<NodeModel> {
        x_nodes(self.toks.deep_view().reverse())
    }

    /// Yields the next node of the list.
    pub fn next(&mut self) -> (r: Option<ForwardedNode<'a>>)
        ensures
            old(self).remaining().len() == 0 ==> r is None && final(self).remaining() == old(
                self,
            ).remaining(),
            old(self).remaining().len() > 0 ==> (r matches Some(node) && node@ == old(
                self,
            ).remaining()[0] && final(self).remaining() == old(self).remaining().drop_first()),
    {
        let ghost pre = self.toks.deep_view();
        match self.toks.pop() {
            Some(tok) => {
                proof {
                    assert(self.toks.deep_view() =~= pre.drop_last());
                    assert(pre.drop_last().reverse() =~= pre.reverse().drop_first());
                    assert(pre.reverse()[0] == tok@);
                    assert(self.remaining() =~= old(self).remaining().drop_first());
                }
                Some(ForwardedNode::parse_x_node(tok))
            },
            None => {
                proof {
                    assert(pre.reverse() =~= Seq::<Seq<char>>::empty());
                    assert(x_nodes(pre.reverse()) =~= Seq::<NodeModel>::empty());
                }
                None
            },
        }
    }
}

/// A source of chain nodes, consumed front to back.
pub trait NodeChain<'a> {
    /// The nodes not yet yielded.
    spec fn chain_nodes(&self) -> Seq<NodeModel>;

    /// Yields the next node of the chain.
    fn next_node(&mut self) -> (r: Option<ForwardedNode<'a>>)
        ensures
            old(self).chain_nodes().len() == 0 ==> r is None && final(self).chain_nodes() == old(
                self,
            ).chain_nodes(),
            old(self).chain_nodes().len() > 0 ==> (r matches Some(node) && node@ == old(
                self,
            ).chain_nodes()[0] && final(self).chain_nodes() == old(
                self,
            ).chain_nodes().drop_first()),
    ;
}

impl<'a> NodeChain<'a> for ForwardedForIter<'a> {
    open spec fn chain_nodes(&self) -> Seq<NodeModel> {
        self.remaining()
    }

    fn next_node(&mut self) -> (r: Option<ForwardedNode<'a>>) {
        self.next()
    }
}

impl<'a> NodeChain<'a> for XForwardedForIter<'a> {
    open spec fn chain_nodes(&self) -> Seq<NodeModel> {
        self.remaining()
    }

    fn next_node(&mut self) -> (r: Option<ForwardedNode<'a>>) {
        self.next()
    }
}

/// Parses the provided string as a `Forwarded` header, yielding an iterator
/// over the individual proxies' entries.
///
/// It performs no error checking, ignoring invalid values, as it assumes a
/// valid `Forwarded` header. Every proxy's entry is separated by `,`.
pub fn parse_forwarded(value: &str) -> (r: ForwardedIter<'_>)
    ensures
        r.remaining() == spec_entries(value@),
{
    let entries = reversed(split_text(value, CharSet::Comma));
    proof {
        assert(entries.deep_view().reverse() =~= split_on(value@, CharSet::Comma));
    }
    ForwardedIter { entries }
}

/// Variant of [`parse_forwarded`] that reverses the order of output.
pub fn parse_forwarded_rev(value: &str) -> (r: ForwardedIter<'_>)
    ensures
        r.remaining() == spec_entries(value@).reverse(),
{
    let entries = split_text(value, CharSet::Comma);
    ForwardedIter { entries }
}

/// Parses the provided string as a `Forwarded` header, returning all `For`
/// nodes in order.
pub fn parse_forwarded_for(value: &str) -> (r: ForwardedForIter<'_>)
    ensures
        r.remaining() == spec_forwarded_for_nodes(value@),
{
    let toks = reversed(split_text(value, CharSet::CommaOrSemicolon));
    proof {
        assert(toks.deep_view().reverse() =~= split_on(value@, CharSet::CommaOrSemicolon));
    }
    ForwardedForIter { toks }
}

/// Parses the provided string as a `Forwarded` header, returning all `For`
/// nodes in reverse order.
pub fn parse_forwarded_for_rev(value: &str) -> (r: ForwardedForIter<'_>)
    ensures
        r.remaining() == spec_forwarded_for_nodes(value@).reverse(),
{
    let toks = split_text(value, CharSet::CommaOrSemicolon);
    proof {
        lemma_for_nodes_reverse(split_on(value@, CharSet::CommaOrSemicolon));
    }
    ForwardedForIter { toks }
}

/// Parses the provided string as an `X-Forwarded-For` header, returning all
/// nodes in order.
pub fn parse_x_forwarded_for(value: &str) -> (r: XForwardedForIter<'_>)
    ensures
        r.remaining() == spec_x_forwarded_nodes(value@),
{
    let toks = reversed(split_text(value, CharSet::Comma));
    proof {
        assert(toks.deep_view().reverse() =~= split_on(value@, CharSet::Comma));
    }
    XForwardedForIter { toks }
}

/// Parses the provided string as an `X-Forwarded-For` header, returning all
/// nodes in reverse order.
pub fn parse_x_forwarded_for_rev(value: &str) -> (r: XForwardedForIter<'_>)
    ensures
        r.remaining() == spec_x_forwarded_nodes(value@).reverse(),
{
    let toks = split_text(value, CharSet::Comma);
    proof {
        let sp = split_on(value@, CharSet::Comma);
        assert(x_nodes(sp.reverse()) =~= x_nodes(sp).reverse());
    }
    XForwardedForIter { toks }
}

} // verus!
