//! The IP address model: a v4 address as its 32 bits, a v6 address as its
//! 128 bits, together with the textual grammars that produce them.

use vstd::prelude::*;

use crate::text::{
    dec_value, digit_val, hex_val, hex_value, is_dec_digit, is_hex_digit, split_on, split_text,
    CharSet,
};

verus! {

/// An IP address: a v4 address held as its 32 bits, a v6 address as its
/// 128 bits, in network order (most significant octet first).
#[derive(Clone, Copy, PartialEq, Eq, Structural, Debug, Hash)]
pub enum IpAddress {
    /// An IPv4 address.
    V4(u32),
    /// An IPv6 address.
    V6(u128),
}

/// The numeric value of a sequence of 16-bit groups, most significant first.
pub open spec fn groups_value(gs: Seq<u16>) -> nat
    decreases gs.len(),
{
    if gs.len() == 0 {
        0
    } else {
        groups_value(gs.drop_last()) * 0x10000 + gs.last() as nat
    }
}

/// Appending a group shifts the value by 16 bits and adds the group.
pub proof fn lemma_groups_value_push(gs: Seq<u16>, x: u16)
    ensures
        groups_value(gs.push(x)) == groups_value(gs) * 0x10000 + x,
{
    assert(gs.push(x).drop_last() =~= gs);
    assert(gs.push(x).last() == x);
}

impl IpAddress {
    /// Builds a v4 address from its four octets, most significant first.
    pub fn v4(a: u8, b: u8, c: u8, d: u8) -> (r: IpAddress)
        ensures
            r == IpAddress::V4(
                ((a as u32) * 0x1000000 + (b as u32) * 0x10000 + (c as u32) * 0x100
                    + d as u32) as u32,
            ),
    {
        IpAddress::V4(
            (a as u32) * 0x1000000 + (b as u32) * 0x10000 + (c as u32) * 0x100 + (d as u32),
        )
    }

    /// Builds a v6 address from its eight 16-bit groups, most significant first.
    pub fn v6(a: u16, b: u16, c: u16, d: u16, e: u16, f: u16, g: u16, h: u16) -> (r: IpAddress)
        ensures
            r == IpAddress::V6(groups_value(seq![a, b, c, d, e, f, g, h]) as u128),
    {
        let r: u128 = (((((((a as u128) * 0x10000 + b as u128) * 0x10000 + c as u128) * 0x10000
            + d as u128) * 0x10000 + e as u128) * 0x10000 + f as u128) * 0x10000 + g as u128)
            * 0x10000 + h as u128;
        proof {
            let g0 = Seq::<u16>::empty();
            assert(groups_value(g0) == 0);
            lemma_groups_value_push(g0, a);
            lemma_groups_value_push(g0.push(a), b);
            lemma_groups_value_push(g0.push(a).push(b), c);
            lemma_groups_value_push(g0.push(a).push(b).push(c), d);
            lemma_groups_value_push(g0.push(a).push(b).push(c).push(d), e);
            lemma_groups_value_push(g0.push(a).push(b).push(c).push(d).push(e), f);
            lemma_groups_value_push(g0.push(a).push(b).push(c).push(d).push(e).push(f), g);
            lemma_groups_value_push(g0.push(a).push(b).push(c).push(d).push(e).push(f).push(g), h);
            assert(g0.push(a).push(b).push(c).push(d).push(e).push(f).push(g).push(h) =~= seq![
                a,
                b,
                c,
                d,
                e,
                f,
                g,
                h,
            ]);
        }
        IpAddress::V6(r)
    }

    /// True of v4 addresses.
    pub fn is_v4(&self) -> (r: bool)
        ensures
            r == (self is V4),
    {
        match self {
            IpAddress::V4(_) => true,
            IpAddress::V6(_) => false,
        }
    }
}

/// A textual v4 octet: one to three decimal digits, no leading zero,
/// value at most 255.
pub open spec fn is_octet_text(s: Seq<char>) -> bool {
    &&& 1 <= s.len() <= 3
    &&& (forall|i: int| 0 <= i < s.len() ==> is_dec_digit(s[i]))
    &&& dec_value(s) <= 255
    &&& (s.len() > 1 ==> s[0] != '0')
}

/// A textual v4 address: four octets separated by dots.
pub open spec fn spec_parse_ipv4(s: Seq<char>) -> Option<u32> {
    let parts = split_on(s, CharSet::Dot);
    if parts.len() == 4 && is_octet_text(parts[0]) && is_octet_text(parts[1]) && is_octet_text(
        parts[2],
    ) && is_octet_text(parts[3]) {
        Some(
            (dec_value(parts[0]) * 0x1000000 + dec_value(parts[1]) * 0x10000 + dec_value(parts[2])
                * 0x100 + dec_value(parts[3])) as u32,
        )
    } else {
        None
    }
}

/// A textual v6 group: one to four hexadecimal digits.
pub open spec fn is_group_text(s: Seq<char>) -> bool {
    1 <= s.len() <= 4 && (forall|i: int| 0 <= i < s.len() ==> is_hex_digit(s[i]))
}

/// Every token is a v6 group.
pub open spec fn all_group_texts(parts: Seq<Seq<char>>) -> bool {
    forall|i: int| 0 <= i < parts.len() ==> is_group_text(#[trigger] parts[i])
}

/// The group values of a run of group tokens.
pub open spec fn group_vals(parts: Seq<Seq<char>>) -> Seq<u16> {
    parts.map_values(|p: Seq<char>| hex_value(p) as u16)
}

/// The two 16-bit groups that a v4 address embeds in a v6 address.
pub open spec fn v4_groups(v: u32) -> Seq<u16> {
    seq![(v / 0x10000) as u16, (v % 0x10000) as u16]
}

/// The groups written on one side of a `::` abbreviation: hexadecimal
/// groups, of which the last may instead be an embedded v4 address
/// standing for two groups.
pub open spec fn side_groups(parts: Seq<Seq<char>>) -> Option<Seq<u16>> {
    if all_group_texts(parts) {
        Some(group_vals(parts))
    } else if parts.len() >= 1 && all_group_texts(parts.drop_last()) && spec_parse_ipv4(
        parts.last(),
    ) is Some {
        Some(group_vals(parts.drop_last()) + v4_groups(spec_parse_ipv4(parts.last()).unwrap()))
    } else {
        None
    }
}

/// The index of the first `::` in `s`, or the length if there is none.
pub open spec fn first_dcolon(s: Seq<char>) -> int
    decreases s.len(),
{
    if s.len() < 2 {
        s.len() as int
    } else if s[0] == ':' && s[1] == ':' {
        0
    } else {
        1 + first_dcolon(s.drop_first())
    }
}

/// What the `::` search promises.
pub proof fn lemma_first_dcolon(s: Seq<char>)
    ensures
        0 <= first_dcolon(s) <= s.len(),
        first_dcolon(s) < s.len() ==> first_dcolon(s) + 2 <= s.len() && s[first_dcolon(s)] == ':'
            && s[first_dcolon(s) + 1] == ':',
        forall|j: int|
            0 <= j < first_dcolon(s) && j + 1 < s.len() ==> !(#[trigger] s[j] == ':' && s[j + 1]
                == ':'),
    decreases s.len(),
{
    if s.len() >= 2 && !(s[0] == ':' && s[1] == ':') {
        lemma_first_dcolon(s.drop_first());
        assert forall|j: int|
            0 <= j < first_dcolon(s) && j + 1 < s.len() implies !(#[trigger] s[j] == ':' && s[j + 1]
            == ':') by {
            if j > 0 {
                assert(!(s.drop_first()[j - 1] == ':' && s.drop_first()[j] == ':'));
            }
        }
    }
}

/// A textual v6 address: eight groups separated by colons, or fewer groups
/// around a single `::` standing for the missing zero groups; the trailing
/// position may hold an embedded v4 address.
pub open spec fn spec_parse_ipv6(s: Seq<char>) -> Option<u128> {
    let d = first_dcolon(s);
    if d == s.len() {
        match side_groups(split_on(s, CharSet::Colon)) {
            Some(gs) => if gs.len() == 8 {
                Some(groups_value(gs) as u128)
            } else {
                None
            },
            None => None,
        }
    } else {
        let left = s.take(d);
        let right = s.skip(d + 2);
        let lparts = if left.len() == 0 {
            Seq::<Seq<char>>::empty()
        } else {
            split_on(left, CharSet::Colon)
        };
        let rparts = if right.len() == 0 {
            Seq::<Seq<char>>::empty()
        } else {
            split_on(right, CharSet::Colon)
        };
        if all_group_texts(lparts) {
            match side_groups(rparts) {
                Some(rg) => {
                    let lg = group_vals(lparts);
                    if lg.len() + rg.len() <= 7 {
                        Some(
                            groups_value(
                                lg + Seq::new((8 - lg.len() - rg.len()) as nat, |i: int| 0u16) + rg,
                            ) as u128,
                        )
                    } else {
                        None
                    }
                },
                None => None,
            }
        } else {
            None
        }
    }
}

/// A textual IP address of either family.
pub open spec fn spec_parse_ip(s: Seq<char>) -> Option<IpAddress> {
    if spec_parse_ipv4(s) is Some {
        Some(IpAddress::V4(spec_parse_ipv4(s).unwrap()))
    } else if spec_parse_ipv6(s) is Some {
        Some(IpAddress::V6(spec_parse_ipv6(s).unwrap()))
    } else {
        None
    }
}

/// A digit run's value never shrinks as the run grows to the right.
pub(crate) proof fn lemma_dec_value_prefix(s: Seq<char>, k: int)
    requires
        0 <= k <= s.len(),
    ensures
        dec_value(s.take(k)) <= dec_value(s),
    decreases s.len() - k,
{
    if k == s.len() {
        assert(s.take(k) =~= s);
    } else {
        lemma_dec_value_prefix(s, k + 1);
        assert(s.take(k + 1).drop_last() =~= s.take(k));
        assert(dec_value(s.take(k + 1)) == dec_value(s.take(k)) * 10 + digit_val(s.take(k + 1).last()));
    }
}

/// Bounds on the value of a short run of hexadecimal digits.
proof fn lemma_hex_value_bound(s: Seq<char>)
    requires
        forall|i: int| 0 <= i < s.len() ==> is_hex_digit(s[i]),
    ensures
        s.len() <= 1 ==> hex_value(s) < 0x10,
        s.len() <= 2 ==> hex_value(s) < 0x100,
        s.len() <= 3 ==> hex_value(s) < 0x1000,
        s.len() <= 4 ==> hex_value(s) < 0x10000,
    decreases s.len(),
{
    if s.len() > 0 {
        assert(forall|i: int| 0 <= i < s.drop_last().len() ==> is_hex_digit(
            #[trigger] s.drop_last()[i],
        ));
        lemma_hex_value_bound(s.drop_last());
        assert(is_hex_digit(s.last()));
        assert(hex_val(s.last()) < 16);
    }
}

/// Parses one v4 octet: its value exactly when the token is an octet.
fn parse_octet(s: &str) -> (r: Option<u8>)
    ensures
        r is Some <==> is_octet_text(s@),
        r matches Some(v) ==> v as nat == dec_value(s@),
{
    let n = s.unicode_len();
    if n == 0 || n > 3 {
        return None;
    }
    if n > 1 && s.get_char(0) == '0' {
        return None;
    }
    let mut val: u32 = 0;
    let mut i: usize = 0;
    proof {
        assert(s@.take(0) =~= Seq::<char>::empty());
    }
    while i < n
        invariant
            i <= n,
            n == s@.len(),
            1 <= n <= 3,
            val <= 255,
            val as nat == dec_value(s@.take(i as int)),
            forall|j: int| 0 <= j < i ==> is_dec_digit(s@[j]),
        decreases n - i,
    {
        let c = s.get_char(i);
        let u = c as u32;
        if !(0x30 <= u && u <= 0x39) {
            return None;
        }
        proof {
            assert(s@.take(i + 1).drop_last() =~= s@.take(i as int));
            assert(s@.take(i + 1).last() == s@[i as int]);
        }
        val = val * 10 + (u - 0x30);
        if val > 255 {
            proof {
                lemma_dec_value_prefix(s@, i + 1);
            }
            return None;
        }
        i = i + 1;
    }
    proof {
        assert(s@.take(n as int) =~= s@);
    }
    Some(val as u8)
}

/// Parses one v6 group: its value exactly when the token is a group.
fn parse_group(s: &str) -> (r: Option<u16>)
    ensures
        r is Some <==> is_group_text(s@),
        r matches Some(v) ==> v as nat == hex_value(s@),
{
    let n = s.unicode_len();
    if n == 0 || n > 4 {
        return None;
    }
    let mut val: u32 = 0;
    let mut i: usize = 0;
    proof {
        assert(s@.take(0) =~= Seq::<char>::empty());
    }
    while i < n
        invariant
            i <= n,
            n == s@.len(),
            1 <= n <= 4,
            val as nat == hex_value(s@.take(i as int)),
            val < 0x10000,
            forall|j: int| 0 <= j < i ==> is_hex_digit(s@[j]),
        decreases n - i,
    {
        let c = s.get_char(i);
        let u = c as u32;
        let d: u32 = if 0x30 <= u && u <= 0x39 {
            u - 0x30
        } else if 0x61 <= u && u <= 0x66 {
            u - 0x57
        } else if 0x41 <= u && u <= 0x46 {
            u - 0x37
        } else {
            return None;
        };
        proof {
            assert(s@.take(i + 1).drop_last() =~= s@.take(i as int));
            assert(s@.take(i + 1).last() == s@[i as int]);
            assert(forall|j: int| 0 <= j < i + 1 ==> is_hex_digit(#[trigger] s@.take(i + 1)[j]));
            lemma_hex_value_bound(s@.take(i + 1));
        }
        val = val * 16 + d;
        i = i + 1;
    }
    proof {
        assert(s@.take(n as int) =~= s@);
    }
    Some(val as u16)
}

/// Parses a textual v4 address.
pub fn parse_ipv4_text(s: &str) -> (r: Option<u32>)
    ensures
        r == spec_parse_ipv4(s@),
{
    let parts = split_text(s, CharSet::Dot);
    proof {
        assert(forall|k: int| 0 <= k < parts@.len() ==> parts.deep_view()[k] == #[trigger] parts@[k]@);
    }
    if parts.len() != 4 {
        return None;
    }
    let o0 = parse_octet(parts[0]);
    let o1 = parse_octet(parts[1]);
    let o2 = parse_octet(parts[2]);
    let o3 = parse_octet(parts[3]);
    match (o0, o1, o2, o3) {
        (Some(a), Some(b), Some(c), Some(d)) => Some(
            (a as u32) * 0x1000000 + (b as u32) * 0x10000 + (c as u32) * 0x100 + (d as u32),
        ),
        _ => None,
    }
}

/// Finds the first `::` of `s`, or its length if there is none.
fn find_dcolon(s: &str) -> (r: usize)
    ensures
        r == first_dcolon(s@),
{
    let n = s.unicode_len();
    if n >= 2 {
        let mut i: usize = 0;
        while i < n - 1
            invariant
                n == s@.len(),
                2 <= n,
                i <= n,
                forall|j: int| 0 <= j < i ==> !(#[trigger] s@[j] == ':' && s@[j + 1] == ':'),
            decreases n - i,
        {
            if s.get_char(i) == ':' && s.get_char(i + 1) == ':' {
                proof {
                    lemma_first_dcolon(s@);
                }
                return i;
            }
            i = i + 1;
        }
    }
    proof {
        lemma_first_dcolon(s@);
    }
    n
}

/// Parses every token as a v6 group; their values exactly when all are groups.
fn all_groups_exec<'a>(parts: &Vec<&'a str>) -> (r: Option<Vec<u16>>)
    ensures
        r matches Some(v) ==> all_group_texts(parts.deep_view()) && v@ == group_vals(
            parts.deep_view(),
        ),
        r is None ==> !all_group_texts(parts.deep_view()),
{
    let n = parts.len();
    let mut gs: Vec<u16> = Vec::new();
    let mut k: usize = 0;
    proof {
        assert(gs@ =~= group_vals(parts.deep_view().take(0)));
    }
    while k < n
        invariant
            k <= n,
            n == parts@.len(),
            parts.deep_view().len() == n,
            forall|j: int| 0 <= j < k ==> is_group_text(#[trigger] parts.deep_view()[j]),
            gs@ == group_vals(parts.deep_view().take(k as int)),
        decreases n - k,
    {
        proof {
            assert(parts.deep_view()[k as int] == parts@[k as int]@);
        }
        match parse_group(parts[k]) {
            Some(g) => {
                gs.push(g);
                proof {
                    lemma_hex_value_bound(parts.deep_view()[k as int]);
                    assert(gs@ =~= group_vals(parts.deep_view().take(k + 1)));
                }
                k = k + 1;
            },
            None => {
                return None;
            },
        }
    }
    proof {
        assert(parts.deep_view().take(n as int) =~= parts.deep_view());
    }
    Some(gs)
}

/// Parses the tokens of one side of a `::` abbreviation, allowing an
/// embedded v4 address in the last position.
fn side_groups_exec<'a>(parts: &Vec<&'a str>) -> (r: Option<Vec<u16>>)
    ensures
        r matches Some(v) ==> side_groups(parts.deep_view()) == Some(v@),
        r is None ==> side_groups(parts.deep_view()) is None,
{
    let n = parts.len();
    let mut gs: Vec<u16> = Vec::new();
    let mut k: usize = 0;
    proof {
        assert(gs@ =~= group_vals(parts.deep_view().take(0)));
    }
    while k < n
        invariant
            k <= n,
            n == parts@.len(),
            parts.deep_view().len() == n,
            forall|j: int| 0 <= j < k ==> is_group_text(#[trigger] parts.deep_view()[j]),
            gs@ == group_vals(parts.deep_view().take(k as int)),
        decreases n - k,
    {
        proof {
            assert(parts.deep_view()[k as int] == parts@[k as int]@);
        }
        let p = parts[k];
        match parse_group(p) {
            Some(g) => {
                gs.push(g);
                proof {
                    lemma_hex_value_bound(parts.deep_view()[k as int]);
                    assert(gs@ =~= group_vals(parts.deep_view().take(k + 1)));
                }
                k = k + 1;
            },
            None => {
                let ghost dv = parts.deep_view();
                proof {
                    assert(!is_group_text(dv[k as int]));
                    assert(!all_group_texts(dv));
                }
                if k + 1 == n {
                    proof {
                        assert(dv.last() == dv[k as int]);
                        assert(dv.drop_last() =~= dv.take(k as int));
                    }
                    match parse_ipv4_text(p) {
                        Some(v) => {
                            gs.push((v / 0x10000) as u16);
                            gs.push((v % 0x10000) as u16);
                            proof {
                                assert(gs@ =~= group_vals(dv.drop_last()) + v4_groups(v));
                            }
                            return Some(gs);
                        },
                        None => {
                            return None;
                        },
                    }
                } else {
                    proof {
                        assert(dv.drop_last()[k as int] == dv[k as int]);
                        assert(!all_group_texts(dv.drop_last()));
                    }
                    return None;
                }
            },
        }
    }
    proof {
        assert(parts.deep_view().take(n as int) =~= parts.deep_view());
    }
    Some(gs)
}

/// The value of exactly eight 16-bit groups.
fn groups8_value(gs: &Vec<u16>) -> (r: u128)
    requires
        gs@.len() == 8,
    ensures
        r as nat == groups_value(gs@),
{
    let a = gs[0];
    let b = gs[1];
    let c = gs[2];
    let d = gs[3];
    let e = gs[4];
    let f = gs[5];
    let g = gs[6];
    let h = gs[7];
    let r: u128 = (((((((a as u128) * 0x10000 + b as u128) * 0x10000 + c as u128) * 0x10000
        + d as u128) * 0x10000 + e as u128) * 0x10000 + f as u128) * 0x10000 + g as u128) * 0x10000
        + h as u128;
    proof {
        let g0 = Seq::<u16>::empty();
        assert(groups_value(g0) == 0);
        lemma_groups_value_push(g0, a);
        lemma_groups_value_push(g0.push(a), b);
        lemma_groups_value_push(g0.push(a).push(b), c);
        lemma_groups_value_push(g0.push(a).push(b).push(c), d);
        lemma_groups_value_push(g0.push(a).push(b).push(c).push(d), e);
        lemma_groups_value_push(g0.push(a).push(b).push(c).push(d).push(e), f);
        lemma_groups_value_push(g0.push(a).push(b).push(c).push(d).push(e).push(f), g);
        lemma_groups_value_push(g0.push(a).push(b).push(c).push(d).push(e).push(f).push(g), h);
        assert(g0.push(a).push(b).push(c).push(d).push(e).push(f).push(g).push(h) =~= gs@);
    }
    r
}

/// Parses a textual v6 address.
pub fn parse_ipv6_text(s: &str) -> (r: Option<u128>)
    ensures
        r == spec_parse_ipv6(s@),
{
    let n = s.unicode_len();
    let d = find_dcolon(s);
    proof {
        lemma_first_dcolon(s@);
    }
    if d == n {
        let parts = split_text(s, CharSet::Colon);
        match side_groups_exec(&parts) {
            Some(gs) => {
                if gs.len() == 8 {
                    Some(groups8_value(&gs))
                } else {
                    None
                }
            },
            None => None,
        }
    } else {
        let left = s.substring_char(0, d);
        let right = s.substring_char(d + 2, n);
        proof {
            assert(left@ =~= s@.take(d as int));
            assert(right@ =~= s@.skip(d + 2));
        }
        let lgs: Vec<u16>;
        if left.unicode_len() == 0 {
            lgs = Vec::new();
            proof {
                assert(lgs@ =~= group_vals(Seq::<Seq<char>>::empty()));
            }
        } else {
            let lparts = split_text(left, CharSet::Colon);
            match all_groups_exec(&lparts) {
                Some(v) => {
                    lgs = v;
                },
                None => {
                    return None;
                },
            }
        }
        let rgs: Vec<u16>;
        if right.unicode_len() == 0 {
            rgs = Vec::new();
            proof {
                assert(rgs@ =~= group_vals(Seq::<Seq<char>>::empty()));
                assert(side_groups(Seq::<Seq<char>>::empty()) == Some(rgs@));
            }
        } else {
            let rparts = split_text(right, CharSet::Colon);
            match side_groups_exec(&rparts) {
                Some(v) => {
                    rgs = v;
                },
                None => {
                    return None;
                },
            }
        }
        let l = lgs.len();
        let rl = rgs.len();
        if l <= 7 && rl <= 7 - l {
            let ghost lg = lgs@;
            let ghost rg = rgs@;
            let mut gs = lgs;
            let zeros = 8 - l - rl;
            let mut z: usize = 0;
            while z < zeros
                invariant
                    z <= zeros,
                    zeros == 8 - l - rl,
                    l + rl <= 7,
                    lg.len() == l,
                    gs@ == lg + Seq::new(z as nat, |i: int| 0u16),
                decreases zeros - z,
            {
                gs.push(0);
                proof {
                    assert(gs@ =~= lg + Seq::new((z + 1) as nat, |i: int| 0u16));
                }
                z = z + 1;
            }
            let mut t: usize = 0;
            while t < rl
                invariant
                    t <= rl,
                    rl == rgs@.len(),
                    rg == rgs@,
                    zeros == 8 - l - rl,
                    l + rl <= 7,
                    lg.len() == l,
                    gs@ == lg + Seq::new(zeros as nat, |i: int| 0u16) + rg.take(t as int),
                decreases rl - t,
            {
                gs.push(rgs[t]);
                proof {
                    assert(gs@ =~= lg + Seq::new(zeros as nat, |i: int| 0u16) + rg.take(t + 1));
                }
                t = t + 1;
            }
            proof {
                assert(rg.take(rl as int) =~= rg);
                assert(gs@.len() == 8);
            }
            Some(groups8_value(&gs))
        } else {
            None
        }
    }
}

/// Parses a textual IP address of either family.
pub fn parse_ip_text(s: &str) -> (r: Option<IpAddress>)
    ensures
        r == spec_parse_ip(s@),
{
    match parse_ipv4_text(s) {
        Some(v) => Some(IpAddress::V4(v)),
        None => match parse_ipv6_text(s) {
            Some(v) => Some(IpAddress::V6(v)),
            None => None,
        },
    }
}

} // verus!
