//! Filtering of IP addresses.
//!
//! When a match is found, the IP address is skipped from being selected as
//! the client's IP (e.g. it is a load balancer's IP).

use vstd::prelude::*;

use crate::ip::{parse_ip_text, spec_parse_ip, IpAddress};
use crate::text::{
    dec_value, find_first, is_dec_digit, lemma_first_idx, first_idx, CharSet,
};

verus! {

/// Interface of a function that filters out IP addresses.
pub trait Filter: Sized {
    /// Which addresses the filter matches.
    spec fn spec_match(&self, ip: IpAddress) -> bool;

    /// Returns `true` if `ip` matches.
    fn is_match(&self, ip: IpAddress) -> (r: bool)
        ensures
            r == self.spec_match(ip),
    ;
}

impl Filter for IpAddress {
    /// An exact address matches only itself.
    open spec fn spec_match(&self, ip: IpAddress) -> bool {
        *self == ip
    }

    fn is_match(&self, ip: IpAddress) -> (r: bool)
        ensures
            r == self.spec_match(ip),
    {
        *self == ip
    }
}

/// Combination of filters with an `OR` condition.
pub struct Or<F1, F2> {
    left: F1,
    right: F2,
}

impl<F1, F2> Or<F1, F2> {
    /// The left operand.
    pub closed spec fn spec_left(&self) -> F1 {
        self.left
    }

    /// The right operand.
    pub closed spec fn spec_right(&self) -> F2 {
        self.right
    }
}

impl<F1: Filter, F2: Filter> Filter for Or<F1, F2> {
    /// A combination matches what either operand matches.
    open spec fn spec_match(&self, ip: IpAddress) -> bool {
        self.spec_left().spec_match(ip) || self.spec_right().spec_match(ip)
    }

    fn is_match(&self, ip: IpAddress) -> (r: bool)
        ensures
            r == self.spec_match(ip),
    {
        self.left.is_match(ip) || self.right.is_match(ip)
    }
}

/// Creates a new `OR` filter out of two filters.
pub fn or<F1, F2>(left: F1, right: F2) -> (r: Or<F1, F2>)
    ensures
        r.spec_left() == left,
        r.spec_right() == right,
{
    Or { left, right }
}

/// Whether the address range `net/prefix` holds `ip`. A range never holds
/// an address of the other family; a zero prefix holds every address of its
/// family; otherwise the first `prefix` bits must agree.
pub open spec fn spec_cidr_contains(net: IpAddress, prefix: u8, ip: IpAddress) -> bool {
    match (net, ip) {
        (IpAddress::V4(a), IpAddress::V4(b)) => spec_v4_contains(a, prefix, b),
        (IpAddress::V6(a), IpAddress::V6(b)) => spec_v6_contains(a, prefix, b),
        _ => false,
    }
}

/// Range containment over the 32 bits of a v4 address.
pub open spec fn spec_v4_contains(net: u32, prefix: u8, ip: u32) -> bool {
    if prefix == 0 {
        true
    } else if prefix >= 32 {
        net == ip
    } else {
        net >> ((32 - prefix) as u32) == ip >> ((32 - prefix) as u32)
    }
}

/// Range containment over the 128 bits of a v6 address.
pub open spec fn spec_v6_contains(net: u128, prefix: u8, ip: u128) -> bool {
    if prefix == 0 {
        true
    } else if prefix >= 128 {
        net == ip
    } else {
        net >> ((128 - prefix) as u128) == ip >> ((128 - prefix) as u128)
    }
}

/// The number of bits in an address of the same family as `ip`.
pub open spec fn spec_family_bits(ip: IpAddress) -> u8 {
    match ip {
        IpAddress::V4(_) => 32,
        IpAddress::V6(_) => 128,
    }
}

// Possible faults of a textual CIDR expression.
#[derive(Clone, Copy, PartialEq, Eq, Debug)]
enum ParseFault {
    // The expression is not `<ip>/<prefix>`.
    Malformed,
    // The expression is well formed, but its prefix does not fit the
    // family of its IP address.
    InvalidPrefix,
}

/// Error which is returned when parsing a CIDR's textual representation.
#[derive(Clone, Copy, PartialEq, Eq, Debug)]
pub struct CidrParseError(ParseFault);

impl CidrParseError {
    /// True of the error that reports a prefix out of range for the
    /// address family.
    pub closed spec fn spec_invalid_prefix(&self) -> bool {
        self.0 is InvalidPrefix
    }

    /// Reports whether this error is about a prefix out of range, rather
    /// than about a malformed expression.
    pub fn is_invalid_prefix(&self) -> (r: bool)
        ensures
            r == self.spec_invalid_prefix(),
    {
        match self.0 {
            ParseFault::InvalidPrefix => true,
            ParseFault::Malformed => false,
        }
    }

    /// A short description of the error.
    pub fn message(&self) -> (r: &'static str)
        ensures
            self.spec_invalid_prefix() ==> r@ == "Invalid CIDR prefix"@,
            !self.spec_invalid_prefix() ==> r@ == "Invalid CIDR expression"@,
    {
        match self.0 {
            ParseFault::InvalidPrefix => "Invalid CIDR prefix",
            ParseFault::Malformed => "Invalid CIDR expression",
        }
    }
}

/// A textual prefix length: a nonempty run of decimal digits whose value
/// fits in a byte.
pub open spec fn is_prefix_text(s: Seq<char>) -> bool {
    &&& s.len() >= 1
    &&& (forall|i: int| 0 <= i < s.len() ==> is_dec_digit(s[i]))
    &&& dec_value(s) <= 255
}

/// The address and prefix length a textual CIDR expression denotes, if it
/// is well formed: an IP address, `/`, and a prefix length.
pub open spec fn spec_cidr_parts(s: Seq<char>) -> Option<(IpAddress, nat)> {
    let i = first_idx(s, CharSet::Slash);
    if i == s.len() {
        None
    } else {
        let ip_txt = s.take(i);
        let ptxt = s.skip(i + 1);
        if spec_parse_ip(ip_txt) is Some && is_prefix_text(ptxt) {
            Some((spec_parse_ip(ip_txt).unwrap(), dec_value(ptxt)))
        } else {
            None
        }
    }
}

/// CIDR filter: an address and a prefix length that fits its family.
#[derive(Copy, Clone, PartialEq, Eq, Debug)]
pub struct Cidr {
    addr: IpAddress,
    prefix: u8,
}

impl Cidr {
    /// The network address.
    pub closed spec fn spec_addr(self) -> IpAddress {
        self.addr
    }

    /// The prefix length.
    pub closed spec fn spec_prefix(self) -> u8 {
        self.prefix
    }

    /// Creates a new instance from a textual representation `<ip>/<prefix>`.
    ///
    /// The address part follows the textual IP grammar of [`crate::ip`]:
    /// dotted-decimal v4 without leading zeros, or grouped hexadecimal v6
    /// with at most one `::` abbreviation and an optional embedded v4 tail.
    /// The prefix part is a plain run of decimal digits.
    pub fn from_text(text: &str) -> (r: Result<Self, CidrParseError>)
        ensures
            match spec_cidr_parts(text@) {
                Some((ip, p)) => {
                    if p <= spec_family_bits(ip) {
                        r matches Ok(c) && c.spec_addr() == ip && c.spec_prefix() == p
                    } else {
                        r matches Err(e) && e.spec_invalid_prefix()
                    }
                },
                None => r matches Err(e) && !e.spec_invalid_prefix(),
            },
    {
        let n = text.unicode_len();
        let i = find_first(text, CharSet::Slash);
        proof {
            lemma_first_idx(text@, CharSet::Slash);
        }
        if i == n {
            return Err(CidrParseError(ParseFault::Malformed));
        }
        let ip_txt = text.substring_char(0, i);
        let ptxt = text.substring_char(i + 1, n);
        proof {
            assert(ip_txt@ =~= text@.take(i as int));
            assert(ptxt@ =~= text@.skip(i + 1));
        }
        let ip = match parse_ip_text(ip_txt) {
            Some(ip) => ip,
            None => {
                return Err(CidrParseError(ParseFault::Malformed));
            },
        };
        let p = match parse_prefix_len(ptxt) {
            Some(p) => p,
            None => {
                return Err(CidrParseError(ParseFault::Malformed));
            },
        };
        Self::new(ip, p)
    }

    /// Creates a new instance from an IP and a prefix, returning an error
    /// if `prefix` does not fit the address family.
    pub fn new(ip: IpAddress, prefix: u8) -> (r: Result<Self, CidrParseError>)
        ensures
            prefix <= spec_family_bits(ip) ==> (r matches Ok(c) && c.spec_addr() == ip
                && c.spec_prefix() == prefix),
            prefix > spec_family_bits(ip) ==> (r matches Err(e) && e.spec_invalid_prefix()),
    {
        let bits: u8 = if ip.is_v4() {
            32
        } else {
            128
        };
        if prefix > bits {
            Err(CidrParseError(ParseFault::InvalidPrefix))
        } else {
            Ok(Cidr { addr: ip, prefix })
        }
    }
}

impl Filter for Cidr {
    /// A CIDR filter matches the addresses its range holds.
    open spec fn spec_match(&self, ip: IpAddress) -> bool {
        spec_cidr_contains(self.spec_addr(), self.spec_prefix(), ip)
    }

    fn is_match(&self, ip: IpAddress) -> (r: bool)
        ensures
            r == self.spec_match(ip),
    {
        match (self.addr, ip) {
            (IpAddress::V4(a), IpAddress::V4(b)) => {
                if self.prefix == 0 {
                    true
                } else if self.prefix >= 32 {
                    a == b
                } else {
                    let sh: u32 = (32 - self.prefix) as u32;
                    (a >> sh) == (b >> sh)
                }
            },
            (IpAddress::V6(a), IpAddress::V6(b)) => {
                if self.prefix == 0 {
                    true
                } else if self.prefix >= 128 {
                    a == b
                } else {
                    let sh: u128 = (128 - self.prefix) as u128;
                    (a >> sh) == (b >> sh)
                }
            },
            _ => false,
        }
    }
}

/// Parses a textual prefix length.
fn parse_prefix_len(s: &str) -> (r: Option<u8>)
    ensures
        r is Some <==> is_prefix_text(s@),
        r matches Some(v) ==> v as nat == dec_value(s@),
{
    let n = s.unicode_len();
    if n == 0 {
        return None;
    }
    let mut val: u32 = 0;
    let mut i: usize = 0;
    proof {
        assert(s@.take(0) =~= Seq::<char>::empty());
    }
    while i < n
        invariant
            i <= n,
            n == s@.len(),
            1 <= n,
            val <= 255,
            val as nat == dec_value(s@.take(i as int)),
            forall|j: int| 0 <= j < i ==> is_dec_digit(s@[j]),
        decreases n - i,
    {
        let c = s.get_char(i);
        let u = c as u32;
        if !(0x30 <= u && u <= 0x39) {
            return None;
        }
        proof {
            assert(s@.take(i + 1).drop_last() =~= s@.take(i as int));
            assert(s@.take(i + 1).last() == s@[i as int]);
        }
        val = val * 10 + (u - 0x30);
        if val > 255 {
            proof {
                crate::ip::lemma_dec_value_prefix(s@, i + 1);
            }
            return None;
        }
        i = i + 1;
    }
    proof {
        assert(s@.take(n as int) =~= s@);
    }
    Some(val as u8)
}

} // verus!
