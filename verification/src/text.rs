//! Character-level text utilities: classifying characters, splitting a
//! character sequence at separators, trimming, case-insensitive comparison,
//! and the numeric value of digit runs.

use vstd::prelude::*;

verus! {

/// The sets of characters that the header grammar treats specially.
#[derive(Clone, Copy)]
pub enum CharSet {
    /// `,`: separates entries of a header value.
    Comma,
    /// `;`: separates pairs within a `Forwarded` entry.
    Semicolon,
    /// `,` or `;`: token boundaries when a header is scanned for `for=` pairs.
    CommaOrSemicolon,
    /// `.`: separates the octets of a v4 address.
    Dot,
    /// `:`: separates the groups of a v6 address, or a port from a host.
    Colon,
    /// `/`: separates a CIDR prefix from its address.
    Slash,
    /// `=`: separates a key from its value.
    Equals,
    /// `]`: closes a bracketed v6 literal.
    CloseBracket,
    /// `"`: quotes a node token.
    Quote,
    /// The white-space characters, as Unicode defines them.
    Whitespace,
}

/// Whether `c` belongs to the character set `set`.
pub open spec fn char_in(set: CharSet, c: char) -> bool {
    match set {
        CharSet::Comma => c == ',',
        CharSet::Semicolon => c == ';',
        CharSet::CommaOrSemicolon => c == ',' || c == ';',
        CharSet::Dot => c == '.',
        CharSet::Colon => c == ':',
        CharSet::Slash => c == '/',
        CharSet::Equals => c == '=',
        CharSet::CloseBracket => c == ']',
        CharSet::Quote => c == '"',
        CharSet::Whitespace => is_whitespace(c),
    }
}

/// The Unicode white-space characters.
pub open spec fn is_whitespace(c: char) -> bool {
    ||| c as u32 == 0x9
    ||| c as u32 == 0xA
    ||| c as u32 == 0xB
    ||| c as u32 == 0xC
    ||| c as u32 == 0xD
    ||| c as u32 == 0x20
    ||| c as u32 == 0x85
    ||| c as u32 == 0xA0
    ||| c as u32 == 0x1680
    ||| (0x2000 <= c as u32 && c as u32 <= 0x200A)
    ||| c as u32 == 0x2028
    ||| c as u32 == 0x2029
    ||| c as u32 == 0x202F
    ||| c as u32 == 0x205F
    ||| c as u32 == 0x3000
}

impl CharSet {
    /// Decides membership of `c` in `self`.
    pub fn contains(self, c: char) -> (r: bool)
        ensures
            r == char_in(self, c),
    {
        let u = c as u32;
        match self {
            CharSet::Comma => u == 0x2C,
            CharSet::Semicolon => u == 0x3B,
            CharSet::CommaOrSemicolon => u == 0x2C || u == 0x3B,
            CharSet::Dot => u == 0x2E,
            CharSet::Colon => u == 0x3A,
            CharSet::Slash => u == 0x2F,
            CharSet::Equals => u == 0x3D,
            CharSet::CloseBracket => u == 0x5D,
            CharSet::Quote => u == 0x22,
            CharSet::Whitespace => u == 0x9 || u == 0xA || u == 0xB || u == 0xC || u == 0xD
                || u == 0x20 || u == 0x85 || u == 0xA0 || u == 0x1680
                || (0x2000 <= u && u <= 0x200A) || u == 0x2028 || u == 0x2029 || u == 0x202F
                || u == 0x205F || u == 0x3000,
        }
    }
}

/// The tokens of `s` split at every character of `set`, in order.
/// An empty sequence yields one empty token; each separator ends a token.
pub open spec fn split_on(s: Seq<char>, set: CharSet) -> Seq<Seq<char>>
    decreases s.len(),
{
    if s.len() == 0 {
        seq![Seq::<char>::empty()]
    } else if char_in(set, s[0]) {
        seq![Seq::<char>::empty()] + split_on(s.drop_first(), set)
    } else {
        let rest = split_on(s.drop_first(), set);
        seq![seq![s[0]] + rest[0]] + rest.drop_first()
    }
}

/// A split always yields at least one token.
pub proof fn lemma_split_len(s: Seq<char>, set: CharSet)
    ensures
        split_on(s, set).len() >= 1,
    decreases s.len(),
{
    if s.len() > 0 {
        lemma_split_len(s.drop_first(), set);
    }
}

/// Splitting at the first separator: the part before it is the first token,
/// and the rest splits on its own.
pub proof fn lemma_split_at_first(s: Seq<char>, set: CharSet, i: int)
    requires
        0 <= i < s.len(),
        char_in(set, s[i]),
        forall|j: int| 0 <= j < i ==> !char_in(set, s[j]),
    ensures
        split_on(s, set) == seq![s.take(i)] + split_on(s.skip(i + 1), set),
    decreases i,
{
    if i == 0 {
        assert(s.take(0) =~= Seq::<char>::empty());
        assert(s.skip(1) =~= s.drop_first());
    } else {
        let d = s.drop_first();
        lemma_split_at_first(d, set, i - 1);
        lemma_split_len(d.skip(i), set);
        let rest = split_on(d, set);
        assert(rest[0] == d.take(i - 1));
        assert(rest.drop_first() =~= split_on(d.skip(i), set));
        assert(seq![s[0]] + d.take(i - 1) =~= s.take(i));
        assert(d.skip(i) =~= s.skip(i + 1));
        assert(split_on(s, set) =~= seq![s.take(i)] + split_on(s.skip(i + 1), set));
    }
}

/// A sequence free of separators splits into itself alone.
pub proof fn lemma_split_no_sep(s: Seq<char>, set: CharSet)
    requires
        forall|j: int| 0 <= j < s.len() ==> !char_in(set, s[j]),
    ensures
        split_on(s, set) == seq![s],
    decreases s.len(),
{
    if s.len() > 0 {
        assert(forall|j: int| 0 <= j < s.drop_first().len() ==> !char_in(
            set,
            #[trigger] s.drop_first()[j],
        ));
        lemma_split_no_sep(s.drop_first(), set);
        assert(seq![s[0]] + s.drop_first() =~= s);
        assert(split_on(s, set) =~= seq![s]);
    } else {
        assert(s =~= Seq::<char>::empty());
        assert(split_on(s, set) =~= seq![s]);
    }
}

/// Splitting around an explicit separator concatenates the two sides' splits.
pub proof fn lemma_split_concat(x: Seq<char>, c: char, y: Seq<char>, set: CharSet)
    requires
        char_in(set, c),
    ensures
        split_on(x + seq![c] + y, set) == split_on(x, set) + split_on(y, set),
    decreases x.len(),
{
    let s = x + seq![c] + y;
    if x.len() == 0 {
        assert(s =~= seq![c] + y);
        assert(s.drop_first() =~= y);
        assert(split_on(s, set) =~= seq![Seq::<char>::empty()] + split_on(y, set));
        assert(split_on(x, set) =~= seq![Seq::<char>::empty()]);
        assert(split_on(s, set) =~= split_on(x, set) + split_on(y, set));
    } else {
        let d = x.drop_first();
        lemma_split_concat(d, c, y, set);
        assert(s.drop_first() =~= d + seq![c] + y);
        lemma_split_len(d, set);
        lemma_split_len(d + seq![c] + y, set);
        let rest = split_on(d + seq![c] + y, set);
        let restx = split_on(d, set);
        if char_in(set, x[0]) {
            assert(split_on(s, set) =~= seq![Seq::<char>::empty()] + rest);
            assert(split_on(x, set) =~= seq![Seq::<char>::empty()] + restx);
            assert(split_on(s, set) =~= split_on(x, set) + split_on(y, set));
        } else {
            assert(rest[0] == restx[0]);
            assert(rest.drop_first() =~= restx.drop_first() + split_on(y, set));
            assert(split_on(s, set) =~= seq![seq![s[0]] + rest[0]] + rest.drop_first());
            assert(split_on(x, set) =~= seq![seq![x[0]] + restx[0]] + restx.drop_first());
            assert(split_on(s, set) =~= split_on(x, set) + split_on(y, set));
        }
    }
}

/// The index of the first character of `s` in `set`, or `s.len()` if none is.
pub open spec fn first_idx(s: Seq<char>, set: CharSet) -> int
    decreases s.len(),
{
    if s.len() == 0 {
        0
    } else if char_in(set, s[0]) {
        0
    } else {
        1 + first_idx(s.drop_first(), set)
    }
}

/// What the first-index function promises.
pub proof fn lemma_first_idx(s: Seq<char>, set: CharSet)
    ensures
        0 <= first_idx(s, set) <= s.len(),
        forall|j: int| 0 <= j < first_idx(s, set) ==> !char_in(set, s[j]),
        first_idx(s, set) < s.len() ==> char_in(set, s[first_idx(s, set)]),
    decreases s.len(),
{
    if s.len() > 0 && !char_in(set, s[0]) {
        lemma_first_idx(s.drop_first(), set);
        assert forall|j: int| 0 <= j < first_idx(s, set) implies !char_in(set, s[j]) by {
            if j > 0 {
                assert(!char_in(set, s.drop_first()[j - 1]));
            }
        }
    }
}

/// The index of the last character of `s` in `set`, or `-1` if none is.
pub open spec fn last_idx(s: Seq<char>, set: CharSet) -> int
    decreases s.len(),
{
    if s.len() == 0 {
        -1
    } else if char_in(set, s.last()) {
        s.len() - 1
    } else {
        last_idx(s.drop_last(), set)
    }
}

/// What the last-index function promises.
pub proof fn lemma_last_idx(s: Seq<char>, set: CharSet)
    ensures
        -1 <= last_idx(s, set) < s.len(),
        last_idx(s, set) >= 0 ==> char_in(set, s[last_idx(s, set)]),
        forall|j: int| last_idx(s, set) < j < s.len() ==> !char_in(set, s[j]),
    decreases s.len(),
{
    if s.len() > 0 && !char_in(set, s.last()) {
        lemma_last_idx(s.drop_last(), set);
        assert forall|j: int| last_idx(s, set) < j < s.len() implies !char_in(set, s[j]) by {
            if j < s.len() - 1 {
                assert(!char_in(set, s.drop_last()[j]));
            }
        }
    }
}

/// `s` with every leading and trailing character of `set` removed.
pub open spec fn trim_set(s: Seq<char>, set: CharSet) -> Seq<char>
    decreases s.len(),
{
    if s.len() > 0 && char_in(set, s[0]) {
        trim_set(s.drop_first(), set)
    } else if s.len() > 0 && char_in(set, s.last()) {
        trim_set(s.drop_last(), set)
    } else {
        s
    }
}

/// Case-folds an ASCII capital letter; leaves any other character alone.
pub open spec fn lower_char(c: char) -> char {
    if 0x41 <= c as u32 && c as u32 <= 0x5A {
        ((c as u32 + 0x20) as u8) as char
    } else {
        c
    }
}

/// Character-wise equality up to ASCII case.
pub open spec fn eq_ignore_case(a: Seq<char>, b: Seq<char>) -> bool {
    a.len() == b.len() && (forall|i: int| 0 <= i < a.len() ==> lower_char(a[i]) == lower_char(
        b[i],
    ))
}

/// The value of a run of decimal digits, most significant first.
pub open spec fn dec_value(s: Seq<char>) -> nat
    decreases s.len(),
{
    if s.len() == 0 {
        0
    } else {
        dec_value(s.drop_last()) * 10 + digit_val(s.last())
    }
}

/// The value of a run of hexadecimal digits, most significant first.
pub open spec fn hex_value(s: Seq<char>) -> nat
    decreases s.len(),
{
    if s.len() == 0 {
        0
    } else {
        hex_value(s.drop_last()) * 16 + hex_val(s.last())
    }
}

/// A decimal digit.
pub open spec fn is_dec_digit(c: char) -> bool {
    0x30 <= c as u32 && c as u32 <= 0x39
}

/// A hexadecimal digit, either case.
pub open spec fn is_hex_digit(c: char) -> bool {
    is_dec_digit(c) || (0x61 <= c as u32 && c as u32 <= 0x66) || (0x41 <= c as u32 && c as u32
        <= 0x46)
}

/// The value of a decimal digit.
pub open spec fn digit_val(c: char) -> nat
    recommends
        is_dec_digit(c),
{
    (c as u32 - 0x30) as nat
}

/// The value of a hexadecimal digit.
pub open spec fn hex_val(c: char) -> nat
    recommends
        is_hex_digit(c),
{
    if 0x61 <= c as u32 {
        (c as u32 - 0x57) as nat
    } else if 0x41 <= c as u32 && c as u32 <= 0x46 {
        (c as u32 - 0x37) as nat
    } else {
        (c as u32 - 0x30) as nat
    }
}

/// Splits `s` at every character of `set`; the tokens are slices of `s`.
pub(crate) fn split_text<'a>(s: &'a str, set: CharSet) -> (r: Vec<&'a str>)
    ensures
        r.deep_view() == split_on(s@, set),
        r.len() >= 1,
{
    let n = s.unicode_len();
    let mut r: Vec<&'a str> = Vec::new();
    let mut start: usize = 0;
    let mut i: usize = 0;
    proof {
        assert(r.deep_view() =~= Seq::<Seq<char>>::empty());
        assert(s@.skip(0) =~= s@);
    }
    while i < n
        invariant
            start <= i <= n,
            n == s@.len(),
            split_on(s@, set) == r.deep_view() + split_on(s@.skip(start as int), set),
            forall|j: int| start <= j < i ==> !char_in(set, s@[j]),
        decreases n - i,
    {
        let c = s.get_char(i);
        if set.contains(c) {
            let tok = s.substring_char(start, i);
            let ghost prev = r.deep_view();
            proof {
                let tail = s@.skip(start as int);
                lemma_split_at_first(tail, set, i - start);
                assert(tail.take(i - start) =~= s@.subrange(start as int, i as int));
                assert(tail.skip(i - start + 1) =~= s@.skip(i + 1));
            }
            r.push(tok);
            proof {
                assert(r.deep_view() =~= prev + seq![tok@]);
                assert(split_on(s@, set) =~= r.deep_view() + split_on(s@.skip(i + 1), set));
            }
            start = i + 1;
        }
        i = i + 1;
    }
    let tok = s.substring_char(start, n);
    let ghost prev = r.deep_view();
    proof {
        let tail = s@.skip(start as int);
        lemma_split_no_sep(tail, set);
        assert(tail =~= s@.subrange(start as int, n as int));
    }
    r.push(tok);
    proof {
        assert(r.deep_view() =~= prev + seq![tok@]);
        assert(r.deep_view() =~= split_on(s@, set));
    }
    r
}

/// Removes every leading and trailing character of `set` from `s`;
/// the result is a slice of `s`.
pub(crate) fn trim_text<'a>(s: &'a str, set: CharSet) -> (r: &'a str)
    ensures
        r@ == trim_set(s@, set),
{
    let n = s.unicode_len();
    let mut lo: usize = 0;
    let mut hi: usize = n;
    proof {
        assert(s@.subrange(0, n as int) =~= s@);
    }
    while lo < hi && set.contains(s.get_char(lo))
        invariant
            lo <= hi <= n,
            n == s@.len(),
            trim_set(s@, set) == trim_set(s@.subrange(lo as int, hi as int), set),
        decreases hi - lo,
    {
        proof {
            let cur = s@.subrange(lo as int, hi as int);
            assert(cur.drop_first() =~= s@.subrange(lo + 1, hi as int));
        }
        lo = lo + 1;
    }
    while hi > lo && set.contains(s.get_char(hi - 1))
        invariant
            lo <= hi <= n,
            n == s@.len(),
            trim_set(s@, set) == trim_set(s@.subrange(lo as int, hi as int), set),
            lo < hi ==> !char_in(set, s@[lo as int]),
        decreases hi,
    {
        proof {
            let cur = s@.subrange(lo as int, hi as int);
            assert(cur.drop_last() =~= s@.subrange(lo as int, hi - 1));
        }
        hi = hi - 1;
    }
    s.substring_char(lo, hi)
}

/// The index of the first character of `set` in `s`, or the length if none is.
pub(crate) fn find_first(s: &str, set: CharSet) -> (r: usize)
    ensures
        r == first_idx(s@, set),
{
    let n = s.unicode_len();
    let mut i: usize = 0;
    while i < n && !set.contains(s.get_char(i))
        invariant
            i <= n,
            n == s@.len(),
            forall|j: int| 0 <= j < i ==> !char_in(set, s@[j]),
        decreases n - i,
    {
        i = i + 1;
    }
    proof {
        lemma_first_idx(s@, set);
    }
    i
}

/// The index of the last character of `set` in `s`, if `s` holds one.
pub(crate) fn find_last(s: &str, set: CharSet) -> (r: Option<usize>)
    ensures
        match r {
            Some(i) => i == last_idx(s@, set),
            None => last_idx(s@, set) == -1,
        },
{
    let n = s.unicode_len();
    let mut i: usize = n;
    while i > 0
        invariant
            i <= n,
            n == s@.len(),
            forall|j: int| i <= j < n ==> !char_in(set, s@[j]),
        decreases i,
    {
        i = i - 1;
        if set.contains(s.get_char(i)) {
            proof {
                lemma_last_idx(s@, set);
            }
            return Some(i);
        }
    }
    proof {
        lemma_last_idx(s@, set);
    }
    None
}

/// Case-folds an ASCII capital letter; leaves any other character alone.
pub(crate) fn to_lower(c: char) -> (r: char)
    ensures
        r == lower_char(c),
{
    let u = c as u32;
    if 0x41 <= u && u <= 0x5A {
        ((u + 0x20) as u8) as char
    } else {
        c
    }
}

/// Compares two texts character-wise up to ASCII case.
pub(crate) fn str_eq_ignore_case(s: &str, t: &str) -> (r: bool)
    ensures
        r == eq_ignore_case(s@, t@),
{
    let n = s.unicode_len();
    if n != t.unicode_len() {
        return false;
    }
    let mut i: usize = 0;
    while i < n
        invariant
            i <= n,
            n == s@.len(),
            n == t@.len(),
            forall|j: int| 0 <= j < i ==> lower_char(s@[j]) == lower_char(t@[j]),
        decreases n - i,
    {
        let a = to_lower(s.get_char(i));
        let b = to_lower(t.get_char(i));
        if a != b {
            return false;
        }
        i = i + 1;
    }
    true
}

/// The same tokens in the opposite order.
pub(crate) fn reversed<'a>(v: Vec<&'a str>) -> (r: Vec<&'a str>)
    ensures
        r.deep_view() == v.deep_view().reverse(),
{
    let n = v.len();
    let mut r: Vec<&'a str> = Vec::new();
    let mut i: usize = 0;
    while i < n
        invariant
            i <= n,
            n == v.len(),
            r.deep_view() == v.deep_view().reverse().take(i as int),
        decreases n - i,
    {
        let ghost prev = r.deep_view();
        r.push(v[n - 1 - i]);
        proof {
            assert(r.deep_view() =~= prev.push(v.deep_view()[n - 1 - i]));
            assert(r.deep_view() =~= v.deep_view().reverse().take(i + 1));
        }
        i = i + 1;
    }
    proof {
        assert(v.deep_view().reverse().take(n as int) =~= v.deep_view().reverse());
    }
    r
}

} // verus!
