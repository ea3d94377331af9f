use vstd::prelude::*;

verus! {

/// A parsed version-four socket address: four dotted decimal octets and a
/// port.
#[derive(Debug, PartialEq, Eq, Structural, Clone, Copy)]
pub struct SockAddrV4 {
    pub a: u8,
    pub b: u8,
    pub c: u8,
    pub d: u8,
    pub port: u16,
}

/// A parsed version-six socket address: eight sixteen-bit groups and a
/// port.
#[derive(Debug, PartialEq, Eq, Structural, Clone, Copy)]
pub struct SockAddrV6 {
    pub g1: u16,
    pub g2: u16,
    pub g3: u16,
    pub g4: u16,
    pub g5: u16,
    pub g6: u16,
    pub g7: u16,
    pub g8: u16,
    pub port: u16,
    pub scope: u32,
}

/// A parsed network socket address of either version.
#[derive(Debug, PartialEq, Eq, Structural, Clone, Copy)]
pub enum SockAddr {
    V4(SockAddrV4),
    V6(SockAddrV6),
}

/// The network identity a session ticket is requested for: a platform
/// account identifier, or a socket address.
#[derive(Debug, PartialEq, Eq, Structural, Clone, Copy)]
pub enum NetIdentity {
    SteamId(u64),
    Ip(SockAddr),
}

/// A decimal digit.
pub open spec fn is_digit(c: char) -> bool {
    48 <= c as int && c as int <= 57
}

/// The value of a decimal digit.
pub open spec fn digit_val(c: char) -> int {
    c as int - 48
}

/// Every character of the sequence is a decimal digit.
pub open spec fn all_digits(s: Seq<char>) -> bool {
    forall|i: int| 0 <= i < s.len() ==> is_digit(#[trigger] s[i])
}

/// The number a digit sequence denotes in base ten.
pub open spec fn dec_val(s: Seq<char>) -> int
    decreases s.len(),
{
    if s.len() == 0 {
        0
    } else {
        dec_val(s.drop_last()) * 10 + digit_val(s.last())
    }
}

/// A well-formed octet field: one to `max_len` digits, no leading zero
/// unless the field is exactly "0", value at most `max`.
pub open spec fn valid_component(s: Seq<char>, max_len: int, max: int) -> bool {
    &&& 1 <= s.len() <= max_len
    &&& all_digits(s)
    &&& (s.len() > 1 ==> s[0] != '0')
    &&& dec_val(s) <= max
}

/// A well-formed port field: at least one digit, value at most 65535.
/// Leading zeros carry no meaning and are accepted, however many.
pub open spec fn valid_port(s: Seq<char>) -> bool {
    &&& 1 <= s.len()
    &&& all_digits(s)
    &&& dec_val(s) <= 65535
}

/// The positions `p1 < p2 < p3` of the three dots and `p4` of the colon cut
/// the string into four octet fields and a port field, each well formed.
pub open spec fn addr_split(s: Seq<char>, p1: int, p2: int, p3: int, p4: int) -> bool {
    &&& 0 <= p1 < p2 < p3 < p4 < s.len()
    &&& s[p1] == '.' && s[p2] == '.' && s[p3] == '.' && s[p4] == ':'
    &&& valid_component(s.subrange(0, p1), 3, 255)
    &&& valid_component(s.subrange(p1 + 1, p2), 3, 255)
    &&& valid_component(s.subrange(p2 + 1, p3), 3, 255)
    &&& valid_component(s.subrange(p3 + 1, p4), 3, 255)
    &&& valid_port(s.subrange(p4 + 1, s.len() as int))
}

/// The string is a version-four socket address: four dotted decimal octets,
/// a colon, and a port.
pub open spec fn is_valid_addr_v4(s: Seq<char>) -> bool {
    exists|p1: int, p2: int, p3: int, p4: int| addr_split(s, p1, p2, p3, p4)
}

/// The string is a socket address of either version.
pub open spec fn is_valid_addr(s: Seq<char>) -> bool {
    is_valid_addr_v4(s) || is_valid_addr_v6(s)
}

/// The version-four address a split denotes.
pub open spec fn addr_of(s: Seq<char>, p1: int, p2: int, p3: int, p4: int) -> SockAddrV4 {
    SockAddrV4 {
        a: dec_val(s.subrange(0, p1)) as u8,
        b: dec_val(s.subrange(p1 + 1, p2)) as u8,
        c: dec_val(s.subrange(p2 + 1, p3)) as u8,
        d: dec_val(s.subrange(p3 + 1, p4)) as u8,
        port: dec_val(s.subrange(p4 + 1, s.len() as int)) as u16,
    }
}

/// Ten to the `n`.
pub open spec fn pow10(n: nat) -> int
    decreases n,
{
    if n == 0 {
        1
    } else {
        10 * pow10((n - 1) as nat)
    }
}

/// A digit string of length `n` denotes a value below ten to the `n`.
proof fn lemma_dec_val_bound(s: Seq<char>)
    requires
        all_digits(s),
    ensures
        0 <= dec_val(s) < pow10(s.len()),
    decreases s.len(),
{
    if s.len() > 0 {
        assert(all_digits(s.drop_last())) by {
            assert forall|i: int| 0 <= i < s.len() - 1 implies is_digit(
                #[trigger] s.drop_last()[i],
            ) by {
                assert(s.drop_last()[i] == s[i]);
            }
        }
        lemma_dec_val_bound(s.drop_last());
        assert(is_digit(s.last()));
    }
}

/// A digit string denotes at least what any of its prefixes denotes.
proof fn lemma_dec_val_prefix_mono(s: Seq<char>, k: int)
    requires
        all_digits(s),
        0 <= k <= s.len(),
    ensures
        dec_val(s.subrange(0, k)) <= dec_val(s),
    decreases s.len() - k,
{
    if k < s.len() {
        let a = s.subrange(0, k);
        let b = s.subrange(0, k + 1);
        assert(b.drop_last() =~= a);
        assert(b.last() == s[k]);
        assert(all_digits(a)) by {
            assert forall|i: int| 0 <= i < a.len() implies is_digit(#[trigger] a[i]) by {
                assert(a[i] == s[i]);
            }
        }
        lemma_dec_val_bound(a);
        assert(is_digit(s[k]));
        lemma_dec_val_prefix_mono(s, k + 1);
    } else {
        assert(s.subrange(0, k) =~= s);
    }
}

/// Digits of a field, restated over the whole string's own indices.
proof fn lemma_component_digits(s: Seq<char>, lo: int, hi: int)
    requires
        0 <= lo <= hi <= s.len(),
        all_digits(s.subrange(lo, hi)),
    ensures
        forall|j: int| lo <= j < hi ==> is_digit(#[trigger] s[j]),
{
    assert forall|j: int| lo <= j < hi implies is_digit(s[j]) by {
        assert(s.subrange(lo, hi)[j - lo] == s[j]);
        assert(is_digit(s.subrange(lo, hi)[j - lo]));
    }
}

/// A left-to-right scan that stopped at the first non-digit finds exactly
/// the separator that ends a digit field.
proof fn lemma_scan_hits_separator(s: Seq<char>, lo: int, q: int, sep: int)
    requires
        lo <= q <= s.len(),
        forall|j: int| lo <= j < q ==> is_digit(#[trigger] s[j]),
        q < s.len() ==> !is_digit(s[q]),
        lo <= sep < s.len(),
        !is_digit(s[sep]),
        forall|j: int| lo <= j < sep ==> is_digit(#[trigger] s[j]),
    ensures
        q == sep,
{
    if q < sep {
        assert(is_digit(s[q]));
    }
    if q > sep {
        assert(is_digit(s[sep]));
    }
}

/// A version-four address cuts in only one way: the dots and the colon of
/// any valid split stand at forced positions.
pub proof fn lemma_addr_split_unique(
    s: Seq<char>,
    p1: int,
    p2: int,
    p3: int,
    p4: int,
    q1: int,
    q2: int,
    q3: int,
    q4: int,
)
    requires
        addr_split(s, p1, p2, p3, p4),
        addr_split(s, q1, q2, q3, q4),
    ensures
        p1 == q1 && p2 == q2 && p3 == q3 && p4 == q4,
{
    lemma_component_digits(s, 0, p1);
    lemma_component_digits(s, 0, q1);
    assert(!is_digit('.'));
    assert(!is_digit(':'));
    lemma_scan_hits_separator(s, 0, p1, q1);
    lemma_component_digits(s, p1 + 1, p2);
    lemma_component_digits(s, q1 + 1, q2);
    lemma_scan_hits_separator(s, p1 + 1, p2, q2);
    lemma_component_digits(s, p2 + 1, p3);
    lemma_component_digits(s, q2 + 1, q3);
    lemma_scan_hits_separator(s, p2 + 1, p3, q3);
    lemma_component_digits(s, p3 + 1, p4);
    lemma_component_digits(s, q3 + 1, q4);
    lemma_scan_hits_separator(s, p3 + 1, p4, q4);
}

/// Returns the first position at or after `from` whose character is not a
/// decimal digit, or the string's length if every remaining character is.
fn scan_digits(s: &str, from: usize, n: usize) -> (q: usize)
    requires
        from <= n <= s@.len(),
    ensures
        from <= q <= n,
        forall|j: int| from <= j < q ==> is_digit(#[trigger] s@[j]),
        q < n ==> !is_digit(s@[q as int]),
{
    let mut i = from;
    while i < n
        invariant
            from <= i <= n,
            n <= s@.len(),
            forall|j: int| from <= j < i ==> is_digit(#[trigger] s@[j]),
        decreases n - i,
    {
        let c = s.get_char(i);
        let u = c as u32;
        if u < 48 || u > 57 {
            return i;
        }
        i = i + 1;
    }
    i
}

/// Parses the octet field `s[start..end]` under the field rules: returns
/// its value exactly when the field is well formed.
fn parse_component(s: &str, start: usize, end: usize, max_len: usize, max: u32) -> (r: Option<
    u32,
>)
    requires
        start <= end <= s@.len(),
        max_len <= 5,
        max <= 65535,
    ensures
        match r {
            Some(v) => valid_component(s@.subrange(start as int, end as int), max_len as int, max as int)
                && v == dec_val(s@.subrange(start as int, end as int)),
            None => !valid_component(
                s@.subrange(start as int, end as int),
                max_len as int,
                max as int,
            ),
        },
{
    let ghost field = s@.subrange(start as int, end as int);
    let len = end - start;
    if len < 1 || len > max_len {
        return None;
    }
    let first = s.get_char(start);
    if len > 1 && first as u32 == 48 {
        proof {
            assert(field[0] == s@[start as int]);
            assert(field[0] == '0') by {
                assert(s@[start as int] as int == 48);
                assert('0' as int == 48);
            }
        }
        return None;
    }
    let mut v: u32 = 0;
    let mut i = start;
    while i < end
        invariant
            start <= i <= end,
            end <= s@.len(),
            end - start <= 5,
            field == s@.subrange(start as int, end as int),
            all_digits(s@.subrange(start as int, i as int)),
            v == dec_val(s@.subrange(start as int, i as int)),
            v < 100000,
        decreases end - i,
    {
        let c = s.get_char(i);
        let u = c as u32;
        if u < 48 || u > 57 {
            proof {
                assert(field[i - start] == s@[i as int]);
                assert(!is_digit(field[i - start]));
            }
            return None;
        }
        proof {
            let pre = s@.subrange(start as int, i as int);
            let ext = s@.subrange(start as int, i + 1);
            assert(ext.drop_last() =~= pre);
            assert(ext.last() == s@[i as int]);
            assert(all_digits(ext)) by {
                assert forall|j: int| 0 <= j < ext.len() implies is_digit(#[trigger] ext[j]) by {
                    if j < ext.len() - 1 {
                        assert(ext[j] == pre[j]);
                    }
                }
            }
            lemma_dec_val_bound(s@.subrange(start as int, i + 1));
            assert(pow10(5) == 100000) by {
                reveal_with_fuel(pow10, 6);
            }
            assert(ext.len() <= 5);
            assert(pow10(ext.len()) <= 100000) by {
                lemma_pow10_mono(ext.len(), 5);
            }
        }
        v = v * 10 + (u - 48);
        i = i + 1;
    }
    proof {
        assert(field =~= s@.subrange(start as int, i as int));
        assert('0' as int == 48);
    }
    if v > max {
        return None;
    }
    Some(v)
}

/// Parses the port field `s[start..end]`: returns its value exactly when
/// the field is one or more digits denoting at most 65535.
fn parse_port(s: &str, start: usize, end: usize) -> (r: Option<u16>)
    requires
        start <= end <= s@.len(),
    ensures
        match r {
            Some(v) => valid_port(s@.subrange(start as int, end as int)) && v == dec_val(
                s@.subrange(start as int, end as int),
            ),
            None => !valid_port(s@.subrange(start as int, end as int)),
        },
{
    let ghost field = s@.subrange(start as int, end as int);
    if end - start < 1 {
        return None;
    }
    let mut v: u32 = 0;
    let mut i = start;
    while i < end
        invariant
            start <= i <= end,
            end <= s@.len(),
            field == s@.subrange(start as int, end as int),
            all_digits(s@.subrange(start as int, i as int)),
            v == dec_val(s@.subrange(start as int, i as int)),
            v <= 65535,
        decreases end - i,
    {
        let c = s.get_char(i);
        let u = c as u32;
        if u < 48 || u > 57 {
            proof {
                assert(field[i - start] == s@[i as int]);
                assert(!is_digit(field[i - start]));
            }
            return None;
        }
        proof {
            let pre = s@.subrange(start as int, i as int);
            let ext = s@.subrange(start as int, i + 1);
            assert(ext.drop_last() =~= pre);
            assert(ext.last() == s@[i as int]);
            assert(all_digits(ext)) by {
                assert forall|j: int| 0 <= j < ext.len() implies is_digit(#[trigger] ext[j]) by {
                    if j < ext.len() - 1 {
                        assert(ext[j] == pre[j]);
                    }
                }
            }
        }
        v = v * 10 + (u - 48);
        i = i + 1;
        if v > 65535 {
            proof {
                if all_digits(field) {
                    assert(s@.subrange(start as int, i as int) =~= field.subrange(
                        0,
                        i - start,
                    ));
                    lemma_dec_val_prefix_mono(field, i - start);
                }
            }
            return None;
        }
    }
    proof {
        assert(field =~= s@.subrange(start as int, i as int));
    }
    Some(v as u16)
}

/// Ten to the `n` does not shrink as `n` grows.
proof fn lemma_pow10_mono(a: nat, b: nat)
    requires
        a <= b,
    ensures
        pow10(a) <= pow10(b),
        0 < pow10(a),
    decreases b,
{
    if a < b {
        lemma_pow10_mono(a, (b - 1) as nat);
    } else if 0 < b {
        lemma_pow10_mono((a - 1) as nat, (b - 1) as nat);
    }
}

/// The character at `i` has code point `code`.
fn char_is(s: &str, i: usize, code: u32) -> (r: bool)
    requires
        i < s@.len(),
    ensures
        r == (s@[i as int] as int == code as int),
{
    let c = s.get_char(i);
    c as u32 == code
}

/// In a valid split, the scan from the start stops exactly at the first dot.
proof fn pin_first(s: Seq<char>, p1: int, p2: int, p3: int, p4: int, q1: int)
    requires
        addr_split(s, p1, p2, p3, p4),
        0 <= q1 <= s.len(),
        forall|j: int| 0 <= j < q1 ==> is_digit(#[trigger] s[j]),
        q1 < s.len() ==> !is_digit(s[q1]),
    ensures
        q1 == p1,
{
    lemma_component_digits(s, 0, p1);
    lemma_scan_hits_separator(s, 0, q1, p1);
}

/// In a valid split, the first two scans stop exactly at the first two dots.
proof fn pin_first_two(
    s: Seq<char>,
    p1: int,
    p2: int,
    p3: int,
    p4: int,
    q1: int,
    q2: int,
)
    requires
        addr_split(s, p1, p2, p3, p4),
        0 <= q1 <= s.len(),
        forall|j: int| 0 <= j < q1 ==> is_digit(#[trigger] s[j]),
        q1 < s.len() ==> !is_digit(s[q1]),
        q1 + 1 <= q2 <= s.len(),
        forall|j: int| q1 + 1 <= j < q2 ==> is_digit(#[trigger] s[j]),
        q2 < s.len() ==> !is_digit(s[q2]),
    ensures
        q1 == p1,
        q2 == p2,
{
    pin_first(s, p1, p2, p3, p4, q1);
    lemma_component_digits(s, p1 + 1, p2);
    lemma_scan_hits_separator(s, p1 + 1, q2, p2);
}

/// In a valid split, the first three scans stop exactly at the three dots.
proof fn pin_first_three(
    s: Seq<char>,
    p1: int,
    p2: int,
    p3: int,
    p4: int,
    q1: int,
    q2: int,
    q3: int,
)
    requires
        addr_split(s, p1, p2, p3, p4),
        0 <= q1 <= s.len(),
        forall|j: int| 0 <= j < q1 ==> is_digit(#[trigger] s[j]),
        q1 < s.len() ==> !is_digit(s[q1]),
        q1 + 1 <= q2 <= s.len(),
        forall|j: int| q1 + 1 <= j < q2 ==> is_digit(#[trigger] s[j]),
        q2 < s.len() ==> !is_digit(s[q2]),
        q2 + 1 <= q3 <= s.len(),
        forall|j: int| q2 + 1 <= j < q3 ==> is_digit(#[trigger] s[j]),
        q3 < s.len() ==> !is_digit(s[q3]),
    ensures
        q1 == p1,
        q2 == p2,
        q3 == p3,
{
    pin_first_two(s, p1, p2, p3, p4, q1, q2);
    lemma_component_digits(s, p2 + 1, p3);
    lemma_scan_hits_separator(s, p2 + 1, q3, p3);
}

/// When the scan from the start runs past the end or stops at something
/// other than a dot, no valid version-four split exists.
proof fn refute_split_at_dot(s: Seq<char>, q: int, n: int)
    requires
        n == s.len(),
        0 <= q <= n,
        forall|j: int| 0 <= j < q ==> is_digit(#[trigger] s[j]),
        q < n ==> !is_digit(s[q]),
        q >= n || s[q] as int != 46,
    ensures
        !is_valid_addr_v4(s),
{
    if is_valid_addr_v4(s) {
        let (p1, p2, p3, p4) = choose|p1: int, p2: int, p3: int, p4: int|
            addr_split(s, p1, p2, p3, p4);
        pin_first(s, p1, p2, p3, p4, q);
        assert(s[p1] == '.');
        assert('.' as int == 46);
    }
}

/// A string that does not open with a bracket is no version-six address.
proof fn refute_v6_without_bracket(s: Seq<char>)
    requires
        s.len() == 0 || s[0] as int != 91,
    ensures
        !is_valid_addr_v6(s),
{
    if is_valid_addr_v6(s) {
        let rb = choose|rb: int|
            v6_bracket(s, rb) && valid_v6_inner(s, 1, rb) && valid_port(
                s.subrange(rb + 2, s.len() as int),
            );
        assert(s[0] == '[');
        assert('[' as int == 91);
    }
}

/// A string that opens with a bracket is no version-four address.
proof fn refute_v4_with_bracket(s: Seq<char>)
    requires
        s.len() >= 1,
        s[0] as int == 91,
    ensures
        !is_valid_addr_v4(s),
{
    if is_valid_addr_v4(s) {
        let (p1, p2, p3, p4) = choose|p1: int, p2: int, p3: int, p4: int|
            addr_split(s, p1, p2, p3, p4);
        lemma_component_digits(s, 0, p1);
        assert(is_digit(s[0]));
    }
}

/// Parses a caller-supplied string as a socket address. Accepts exactly
/// the dotted-decimal form `a.b.c.d:port` and the bracketed form
/// `[groups]:port`: groups of one to four hex digits separated by colons,
/// at most one `::` eliding a run of zero groups, optionally an embedded
/// dotted-decimal tail standing for the last two groups, and optionally a
/// percent sign with a numeric scope identifier. Every other string is
/// rejected.
pub fn parse_sock_addr(s: &str) -> (r: Option<SockAddr>)
    ensures
        match r {
            Some(ad) => is_valid_addr(s@) && match ad {
                SockAddr::V4(v) => is_valid_addr_v4(s@) && forall|
                    p1: int,
                    p2: int,
                    p3: int,
                    p4: int,
                |
                    #[trigger] addr_split(s@, p1, p2, p3, p4) ==> v == addr_of(
                        s@,
                        p1,
                        p2,
                        p3,
                        p4,
                    ),
                SockAddr::V6(v) => is_valid_addr_v6(s@) && forall|rb: int|
                    #[trigger] v6_bracket(s@, rb) ==> v == v6_addr_of(s@, rb),
            },
            None => !is_valid_addr(s@),
        },
{
    let n = s.unicode_len();
    if n == 0 {
        proof {
            refute_v6_without_bracket(s@);
            if is_valid_addr_v4(s@) {
                let (p1, p2, p3, p4) = choose|p1: int, p2: int, p3: int, p4: int|
                    addr_split(s@, p1, p2, p3, p4);
            }
        }
        return None;
    }
    if char_is(s, 0, 91) {
        proof {
            refute_v4_with_bracket(s@);
        }
        return parse_v6(s, n);
    }
    proof {
        refute_v6_without_bracket(s@);
    }
    let q1 = scan_digits(s, 0, n);
    if q1 >= n || !char_is(s, q1, 46) {
        proof {
            refute_split_at_dot(s@, q1 as int, n as int);
        }
        return None;
    }
    let q2 = scan_digits(s, q1 + 1, n);
    if q2 >= n || !char_is(s, q2, 46) {
        proof {
            if is_valid_addr_v4(s@) {
                let (p1, p2, p3, p4) = choose|p1: int, p2: int, p3: int, p4: int|
                    addr_split(s@, p1, p2, p3, p4);
                pin_first(s@, p1, p2, p3, p4, q1 as int);
                lemma_component_digits(s@, p1 + 1, p2);
                lemma_scan_hits_separator(s@, q1 + 1, q2 as int, p2);
                assert('.' as int == 46);
            }
        }
        return None;
    }
    let q3 = scan_digits(s, q2 + 1, n);
    if q3 >= n || !char_is(s, q3, 46) {
        proof {
            if is_valid_addr_v4(s@) {
                let (p1, p2, p3, p4) = choose|p1: int, p2: int, p3: int, p4: int|
                    addr_split(s@, p1, p2, p3, p4);
                pin_first_two(s@, p1, p2, p3, p4, q1 as int, q2 as int);
                lemma_component_digits(s@, p2 + 1, p3);
                lemma_scan_hits_separator(s@, q2 + 1, q3 as int, p3);
                assert('.' as int == 46);
            }
        }
        return None;
    }
    let q4 = scan_digits(s, q3 + 1, n);
    if q4 >= n || !char_is(s, q4, 58) {
        proof {
            if is_valid_addr_v4(s@) {
                let (p1, p2, p3, p4) = choose|p1: int, p2: int, p3: int, p4: int|
                    addr_split(s@, p1, p2, p3, p4);
                pin_first_three(s@, p1, p2, p3, p4, q1 as int, q2 as int, q3 as int);
                lemma_component_digits(s@, p3 + 1, p4);
                lemma_scan_hits_separator(s@, q3 + 1, q4 as int, p4);
                assert(':' as int == 58);
            }
        }
        return None;
    }
    let a = parse_component(s, 0, q1, 3, 255);
    let b = parse_component(s, q1 + 1, q2, 3, 255);
    let c = parse_component(s, q2 + 1, q3, 3, 255);
    let d = parse_component(s, q3 + 1, q4, 3, 255);
    let p = parse_port(s, q4 + 1, n);
    match (a, b, c, d, p) {
        (Some(av), Some(bv), Some(cv), Some(dv), Some(pv)) => {
            proof {
                assert('.' as int == 46);
                assert(':' as int == 58);
                assert(addr_split(s@, q1 as int, q2 as int, q3 as int, q4 as int));
                assert forall|p1: int, p2: int, p3: int, p4: int|
                    #[trigger] addr_split(s@, p1, p2, p3, p4) implies addr_of(
                    s@,
                    p1,
                    p2,
                    p3,
                    p4,
                ) == addr_of(s@, q1 as int, q2 as int, q3 as int, q4 as int) by {
                    lemma_addr_split_unique(
                        s@,
                        p1,
                        p2,
                        p3,
                        p4,
                        q1 as int,
                        q2 as int,
                        q3 as int,
                        q4 as int,
                    );
                }
            }
            Some(
                SockAddr::V4(
                    SockAddrV4 {
                        a: av as u8,
                        b: bv as u8,
                        c: cv as u8,
                        d: dv as u8,
                        port: pv,
                    },
                ),
            )
        },
        _ => {
            proof {
                if is_valid_addr_v4(s@) {
                    let (p1, p2, p3, p4) = choose|p1: int, p2: int, p3: int, p4: int|
                        addr_split(s@, p1, p2, p3, p4);
                    pin_first_three(s@, p1, p2, p3, p4, q1 as int, q2 as int, q3 as int);
                    lemma_component_digits(s@, p3 + 1, p4);
                    lemma_scan_hits_separator(s@, q3 + 1, q4 as int, p4);
                }
            }
            None
        },
    }
}

/// A hexadecimal digit.
pub open spec fn is_hex_digit(c: char) -> bool {
    (48 <= c as int && c as int <= 57) || (97 <= c as int && c as int <= 102) || (65 <= c as int
        && c as int <= 70)
}

/// The value of a hexadecimal digit.
pub open spec fn hex_digit_val(c: char) -> int {
    if c as int <= 57 {
        c as int - 48
    } else if c as int >= 97 {
        c as int - 87
    } else {
        c as int - 55
    }
}

/// Every character of the sequence is a hexadecimal digit.
pub open spec fn all_hex(s: Seq<char>) -> bool {
    forall|i: int| 0 <= i < s.len() ==> is_hex_digit(#[trigger] s[i])
}

/// The number a hexadecimal digit sequence denotes.
pub open spec fn hex_val(s: Seq<char>) -> int
    decreases s.len(),
{
    if s.len() == 0 {
        0
    } else {
        hex_val(s.drop_last()) * 16 + hex_digit_val(s.last())
    }
}

/// A well-formed version-six group: one to four hex digits. Leading zeros
/// carry no meaning and are accepted.
pub open spec fn valid_hex_group(s: Seq<char>) -> bool {
    1 <= s.len() <= 4 && all_hex(s)
}

/// Sixteen to the `n`.
pub open spec fn pow16(n: nat) -> int
    decreases n,
{
    if n == 0 {
        1
    } else {
        16 * pow16((n - 1) as nat)
    }
}

/// A hex string of length `n` denotes a value below sixteen to the `n`.
proof fn lemma_hex_val_bound(s: Seq<char>)
    requires
        all_hex(s),
    ensures
        0 <= hex_val(s) < pow16(s.len()),
    decreases s.len(),
{
    if s.len() > 0 {
        assert(all_hex(s.drop_last())) by {
            assert forall|i: int| 0 <= i < s.len() - 1 implies is_hex_digit(
                #[trigger] s.drop_last()[i],
            ) by {
                assert(s.drop_last()[i] == s[i]);
            }
        }
        lemma_hex_val_bound(s.drop_last());
        assert(is_hex_digit(s.last()));
    }
}

/// Sixteen to the `n` does not shrink as `n` grows.
proof fn lemma_pow16_mono(a: nat, b: nat)
    requires
        a <= b,
    ensures
        pow16(a) <= pow16(b),
        0 < pow16(a),
    decreases b,
{
    if a < b {
        lemma_pow16_mono(a, (b - 1) as nat);
    } else if 0 < b {
        lemma_pow16_mono((a - 1) as nat, (b - 1) as nat);
    }
}

/// The usize sequence, as mathematical integers.
pub open spec fn usize_seq(v: Seq<usize>) -> Seq<int> {
    v.map_values(|x: usize| x as int)
}

/// The positions of the colons within `s[lo..hi)`, in order.
pub open spec fn colons_between(s: Seq<char>, lo: int, hi: int) -> Seq<int>
    decreases hi - lo,
{
    if lo < 0 || hi > s.len() || lo >= hi {
        Seq::empty()
    } else if s[lo] as int == 58 {
        seq![lo] + colons_between(s, lo + 1, hi)
    } else {
        colons_between(s, lo + 1, hi)
    }
}

/// Where field `i` begins, given the colon positions.
pub open spec fn field_lo(cs: Seq<int>, lo: int, i: int) -> int {
    if i == 0 {
        lo
    } else {
        cs[i - 1] + 1
    }
}

/// Where field `i` ends.
pub open spec fn field_hi(cs: Seq<int>, hi: int, i: int) -> int {
    if i < cs.len() {
        cs[i]
    } else {
        hi
    }
}

/// The characters of field `i`.
pub open spec fn field_at(s: Seq<char>, cs: Seq<int>, lo: int, hi: int, i: int) -> Seq<char> {
    s.subrange(field_lo(cs, lo, i), field_hi(cs, hi, i))
}

/// Field `i` holds no characters.
pub open spec fn field_empty(cs: Seq<int>, lo: int, hi: int, i: int) -> bool {
    field_lo(cs, lo, i) == field_hi(cs, hi, i)
}

/// The three dot positions cut a field into four well-formed octet
/// fields: an embedded dotted-decimal tail, standing for the last two
/// groups.
pub open spec fn quad_split(f: Seq<char>, d1: int, d2: int, d3: int) -> bool {
    &&& 0 <= d1 < d2 < d3 < f.len()
    &&& f[d1] == '.' && f[d2] == '.' && f[d3] == '.'
    &&& valid_component(f.subrange(0, d1), 3, 255)
    &&& valid_component(f.subrange(d1 + 1, d2), 3, 255)
    &&& valid_component(f.subrange(d2 + 1, d3), 3, 255)
    &&& valid_component(f.subrange(d3 + 1, f.len() as int), 3, 255)
}

/// The field is an embedded dotted-decimal tail.
pub open spec fn valid_v4_quad(f: Seq<char>) -> bool {
    exists|d1: int, d2: int, d3: int| quad_split(f, d1, d2, d3)
}

/// The two sixteen-bit groups an embedded tail denotes.
pub open spec fn quad_groups(f: Seq<char>) -> (int, int) {
    let (d1, d2, d3) = choose|d1: int, d2: int, d3: int| quad_split(f, d1, d2, d3);
    (
        dec_val(f.subrange(0, d1)) * 256 + dec_val(f.subrange(d1 + 1, d2)),
        dec_val(f.subrange(d2 + 1, d3)) * 256 + dec_val(f.subrange(d3 + 1, f.len() as int)),
    )
}

/// An embedded tail cuts in only one way: its dots stand at forced
/// positions.
pub proof fn lemma_quad_split_unique(
    f: Seq<char>,
    d1: int,
    d2: int,
    d3: int,
    e1: int,
    e2: int,
    e3: int,
)
    requires
        quad_split(f, d1, d2, d3),
        quad_split(f, e1, e2, e3),
    ensures
        d1 == e1 && d2 == e2 && d3 == e3,
{
    lemma_component_digits(f, 0, d1);
    lemma_component_digits(f, 0, e1);
    assert(!is_digit('.'));
    lemma_scan_hits_separator(f, 0, d1, e1);
    lemma_component_digits(f, d1 + 1, d2);
    lemma_component_digits(f, e1 + 1, e2);
    lemma_scan_hits_separator(f, d1 + 1, d2, e2);
    lemma_component_digits(f, d2 + 1, d3);
    lemma_component_digits(f, e2 + 1, e3);
    lemma_scan_hits_separator(f, d2 + 1, d3, e3);
}

/// The position of the first percent sign in `s[lo..hi)`, marking off a
/// scope identifier.
pub open spec fn scope_pos(s: Seq<char>, lo: int, hi: int, pc: int) -> bool {
    &&& lo <= pc < hi
    &&& s[pc] as int == 37
    &&& forall|j: int| lo <= j < pc ==> (#[trigger] s[j]) as int != 37
}

/// A percent sign occurs in `s[lo..hi)`.
pub open spec fn has_scope(s: Seq<char>, lo: int, hi: int) -> bool {
    exists|pc: int| scope_pos(s, lo, hi, pc)
}

/// The position of the first percent sign.
pub open spec fn the_scope_pos(s: Seq<char>, lo: int, hi: int) -> int {
    choose|pc: int| scope_pos(s, lo, hi, pc)
}

/// A well-formed numeric scope identifier: one or more digits, value
/// fitting thirty-two bits. Leading zeros are accepted, however many.
pub open spec fn valid_scope(f: Seq<char>) -> bool {
    &&& 1 <= f.len()
    &&& all_digits(f)
    &&& dec_val(f) <= 4294967295
}

/// Field `i` is the one empty field, strictly inside the field list: the
/// place of a `::` between two explicit groups.
pub open spec fn middle_empty(cs: Seq<int>, lo: int, hi: int, i: int) -> bool {
    let nf = cs.len() as int + 1;
    &&& 0 < i < nf - 1
    &&& field_empty(cs, lo, hi, i)
    &&& forall|j: int| 0 <= j < nf && j != i ==> !(#[trigger] field_empty(cs, lo, hi, j))
}

/// How the field list of a version-six content reads, if it is well
/// shaped: the count of fields taken from the left and from the right,
/// with elided zero groups in between, and whether the last field is an
/// embedded dotted-decimal tail (worth two groups). Eight groups in all;
/// `::` alone; `::` leading; `::` trailing; or `::` in the middle.
pub open spec fn v6_shape(s: Seq<char>, cs: Seq<int>, lo: int, hi: int) -> Option<(int, int, bool)> {
    let nf = cs.len() as int + 1;
    let quad = valid_v4_quad(field_at(s, cs, lo, hi, nf - 1));
    let nfe = nf + if quad { 1 as int } else { 0 as int };
    if nfe == 8 && (forall|j: int| 0 <= j < nf ==> !(#[trigger] field_empty(cs, lo, hi, j))) {
        if quad {
            Some((nf - 1, 1, true))
        } else {
            Some((8, 0, false))
        }
    } else if nf == 3 && field_empty(cs, lo, hi, 0) && field_empty(cs, lo, hi, 1) && field_empty(
        cs,
        lo,
        hi,
        2,
    ) {
        Some((0, 0, false))
    } else if 3 <= nf && nfe <= 9 && field_empty(cs, lo, hi, 0) && field_empty(cs, lo, hi, 1)
        && (forall|j: int| 2 <= j < nf ==> !(#[trigger] field_empty(cs, lo, hi, j))) {
        Some((0, nf - 2, quad))
    } else if 3 <= nf <= 9 && field_empty(cs, lo, hi, nf - 1) && field_empty(cs, lo, hi, nf - 2)
        && (forall|j: int| 0 <= j < nf - 2 ==> !(#[trigger] field_empty(cs, lo, hi, j))) {
        Some((nf - 2, 0, false))
    } else if nfe <= 8 && (exists|i: int| middle_empty(cs, lo, hi, i)) {
        let i = choose|i: int| middle_empty(cs, lo, hi, i);
        Some((i, nf - 1 - i, quad))
    } else {
        None
    }
}

/// The content `s[lo..hi)` is a well-formed version-six address body:
/// well shaped, and every explicit group is one to four hex digits.
pub open spec fn valid_v6_content(s: Seq<char>, lo: int, hi: int) -> bool {
    let cs = colons_between(s, lo, hi);
    match v6_shape(s, cs, lo, hi) {
        Some(lr) => {
            let nf = cs.len() as int + 1;
            forall|j: int|
                0 <= j < nf && (j < lr.0 || j >= nf - lr.1) && !(lr.2 && j == nf - 1)
                    ==> valid_hex_group(#[trigger] field_at(s, cs, lo, hi, j))
        },
        None => false,
    }
}

/// The eight groups a well-shaped content denotes: the left explicit
/// groups, elided zeros, then the right explicit groups.
pub open spec fn groups_expanded(
    s: Seq<char>,
    cs: Seq<int>,
    lo: int,
    hi: int,
    left: int,
    right: int,
    quad: bool,
) -> Seq<int> {
    Seq::new(
        8,
        |k: int|
            if k < left {
                hex_val(field_at(s, cs, lo, hi, k))
            } else if quad && k == 6 {
                quad_groups(field_at(s, cs, lo, hi, cs.len() as int)).0
            } else if quad && k == 7 {
                quad_groups(field_at(s, cs, lo, hi, cs.len() as int)).1
            } else if !quad && k >= 8 - right {
                hex_val(field_at(s, cs, lo, hi, cs.len() as int + 1 + k - 8))
            } else if quad && k >= 7 - right && k < 6 {
                hex_val(field_at(s, cs, lo, hi, cs.len() as int + 1 + k - 7))
            } else {
                0
            },
    )
}

/// The eight groups of a valid content.
pub open spec fn v6_content_groups(s: Seq<char>, lo: int, hi: int) -> Seq<int> {
    let cs = colons_between(s, lo, hi);
    match v6_shape(s, cs, lo, hi) {
        Some(lr) => groups_expanded(s, cs, lo, hi, lr.0, lr.1, lr.2),
        None => Seq::empty(),
    }
}

/// The bracket layout of a version-six address string: an opening bracket
/// first, the closing bracket at `rb` with none earlier, then a colon and
/// the port.
pub open spec fn v6_bracket(s: Seq<char>, rb: int) -> bool {
    &&& 1 <= rb < s.len()
    &&& s[0] as int == 91
    &&& s[rb] as int == 93
    &&& forall|j: int| 1 <= j < rb ==> (#[trigger] s[j]) as int != 93
    &&& rb + 1 < s.len()
    &&& s[rb + 1] as int == 58
}

/// What stands between the brackets: the group content, optionally
/// followed by a percent sign and a numeric scope identifier.
pub open spec fn valid_v6_inner(s: Seq<char>, lo: int, hi: int) -> bool {
    if has_scope(s, lo, hi) {
        let pc = the_scope_pos(s, lo, hi);
        valid_v6_content(s, lo, pc) && valid_scope(s.subrange(pc + 1, hi))
    } else {
        valid_v6_content(s, lo, hi)
    }
}

/// The scope identifier the bracket content carries, or zero.
pub open spec fn v6_inner_scope(s: Seq<char>, lo: int, hi: int) -> int {
    if has_scope(s, lo, hi) {
        dec_val(s.subrange(the_scope_pos(s, lo, hi) + 1, hi))
    } else {
        0
    }
}

/// The eight groups the bracket content denotes.
pub open spec fn v6_inner_groups(s: Seq<char>, lo: int, hi: int) -> Seq<int> {
    if has_scope(s, lo, hi) {
        v6_content_groups(s, lo, the_scope_pos(s, lo, hi))
    } else {
        v6_content_groups(s, lo, hi)
    }
}

/// The string is a version-six socket address: bracketed groups with an
/// optional scope identifier, a colon, and a port.
pub open spec fn is_valid_addr_v6(s: Seq<char>) -> bool {
    exists|rb: int|
        v6_bracket(s, rb) && valid_v6_inner(s, 1, rb) && valid_port(
            s.subrange(rb + 2, s.len() as int),
        )
}

/// The version-six address the string denotes.
pub open spec fn v6_addr_of(s: Seq<char>, rb: int) -> SockAddrV6 {
    let g = v6_inner_groups(s, 1, rb);
    SockAddrV6 {
        g1: g[0] as u16,
        g2: g[1] as u16,
        g3: g[2] as u16,
        g4: g[3] as u16,
        g5: g[4] as u16,
        g6: g[5] as u16,
        g7: g[6] as u16,
        g8: g[7] as u16,
        port: dec_val(s.subrange(rb + 2, s.len() as int)) as u16,
        scope: v6_inner_scope(s, 1, rb) as u32,
    }
}

/// Returns the first position at or after `from` whose character has code
/// point `code`, if any.
fn find_char(s: &str, from: usize, n: usize, code: u32) -> (q: Option<usize>)
    requires
        from <= n <= s@.len(),
    ensures
        match q {
            Some(i) => from <= i < n && s@[i as int] as int == code as int && (forall|j: int|
                from <= j < i ==> (#[trigger] s@[j]) as int != code as int),
            None => forall|j: int| from <= j < n ==> (#[trigger] s@[j]) as int != code as int,
        },
{
    let mut i = from;
    while i < n
        invariant
            from <= i <= n,
            n <= s@.len(),
            forall|j: int| from <= j < i ==> (#[trigger] s@[j]) as int != code as int,
        decreases n - i,
    {
        let c = s.get_char(i);
        if c as u32 == code {
            return Some(i);
        }
        i = i + 1;
    }
    None
}

/// Parses the hex group `s[start..end]`: returns its value exactly when
/// the field is one to four hex digits.
fn parse_hex_group(s: &str, start: usize, end: usize) -> (r: Option<u16>)
    requires
        start <= end <= s@.len(),
    ensures
        match r {
            Some(v) => valid_hex_group(s@.subrange(start as int, end as int)) && v == hex_val(
                s@.subrange(start as int, end as int),
            ),
            None => !valid_hex_group(s@.subrange(start as int, end as int)),
        },
{
    let ghost field = s@.subrange(start as int, end as int);
    let len = end - start;
    if len < 1 || len > 4 {
        return None;
    }
    let mut v: u32 = 0;
    let mut i = start;
    while i < end
        invariant
            start <= i <= end,
            end <= s@.len(),
            end - start <= 4,
            field == s@.subrange(start as int, end as int),
            all_hex(s@.subrange(start as int, i as int)),
            v == hex_val(s@.subrange(start as int, i as int)),
            v < 65536,
        decreases end - i,
    {
        let c = s.get_char(i);
        let u = c as u32;
        let d: u32 = if u >= 48 && u <= 57 {
            u - 48
        } else if u >= 97 && u <= 102 {
            u - 87
        } else if u >= 65 && u <= 70 {
            u - 55
        } else {
            proof {
                assert(field[i - start] == s@[i as int]);
                assert(!is_hex_digit(field[i - start]));
            }
            return None;
        };
        proof {
            let pre = s@.subrange(start as int, i as int);
            let ext = s@.subrange(start as int, i + 1);
            assert(ext.drop_last() =~= pre);
            assert(ext.last() == s@[i as int]);
            assert(is_hex_digit(s@[i as int]));
            assert(all_hex(ext)) by {
                assert forall|j: int| 0 <= j < ext.len() implies is_hex_digit(
                    #[trigger] ext[j],
                ) by {
                    if j < ext.len() - 1 {
                        assert(ext[j] == pre[j]);
                    }
                }
            }
            lemma_hex_val_bound(ext);
            assert(pow16(4) == 65536) by {
                reveal_with_fuel(pow16, 5);
            }
            assert(ext.len() <= 4);
            assert(pow16(ext.len()) <= 65536) by {
                lemma_pow16_mono(ext.len(), 4);
            }
        }
        v = v * 16 + d;
        i = i + 1;
    }
    proof {
        assert(field =~= s@.subrange(start as int, i as int));
    }
    Some(v as u16)
}

/// Whether field `j` of the content `[lo, hi)` is empty.
fn is_field_empty(cps: &Vec<usize>, lo: usize, hi: usize, j: usize) -> (r: bool)
    requires
        j <= cps@.len(),
        forall|k: int| 0 <= k < cps@.len() ==> (#[trigger] cps@[k]) < hi,
    ensures
        r == field_empty(usize_seq(cps@), lo as int, hi as int, j as int),
{
    proof {
        assert(usize_seq(cps@).len() == cps@.len());
        if j > 0 {
            assert(usize_seq(cps@)[j - 1] == cps@[j - 1] as int);
        }
        if j < cps@.len() {
            assert(usize_seq(cps@)[j as int] == cps@[j as int] as int);
        }
    }
    let flo = if j == 0 {
        lo
    } else {
        cps[j - 1] + 1
    };
    let fhi = if j < cps.len() {
        cps[j]
    } else {
        hi
    };
    flo == fhi
}

/// Whether no field with index in `[a, b)` is empty.
fn fields_nonempty(cps: &Vec<usize>, lo: usize, hi: usize, a: usize, b: usize) -> (r: bool)
    requires
        a <= b <= cps@.len() + 1,
        forall|k: int| 0 <= k < cps@.len() ==> (#[trigger] cps@[k]) < hi,
    ensures
        r == (forall|j: int|
            a <= j < b ==> !(#[trigger] field_empty(usize_seq(cps@), lo as int, hi as int, j))),
{
    let mut j = a;
    while j < b
        invariant
            a <= j <= b,
            b <= cps@.len() + 1,
            forall|k: int| 0 <= k < cps@.len() ==> (#[trigger] cps@[k]) < hi,
            forall|jj: int|
                a <= jj < j ==> !(#[trigger] field_empty(
                    usize_seq(cps@),
                    lo as int,
                    hi as int,
                    jj,
                )),
        decreases b - j,
    {
        if is_field_empty(cps, lo, hi, j) {
            proof {
                assert(field_empty(usize_seq(cps@), lo as int, hi as int, j as int));
            }
            return false;
        }
        j = j + 1;
    }
    true
}

/// The index of the first empty field, if any.
fn first_empty(cps: &Vec<usize>, lo: usize, hi: usize) -> (r: Option<usize>)
    requires
        cps@.len() < usize::MAX,
        forall|k: int| 0 <= k < cps@.len() ==> (#[trigger] cps@[k]) < hi,
    ensures
        match r {
            Some(i) => i <= cps@.len() && field_empty(
                usize_seq(cps@),
                lo as int,
                hi as int,
                i as int,
            ) && (forall|j: int|
                0 <= j < i ==> !(#[trigger] field_empty(
                    usize_seq(cps@),
                    lo as int,
                    hi as int,
                    j,
                ))),
            None => forall|j: int|
                0 <= j <= cps@.len() ==> !(#[trigger] field_empty(
                    usize_seq(cps@),
                    lo as int,
                    hi as int,
                    j,
                )),
        },
{
    let nf = cps.len() + 1;
    let mut j: usize = 0;
    while j < nf
        invariant
            nf == cps@.len() + 1,
            j <= nf,
            forall|k: int| 0 <= k < cps@.len() ==> (#[trigger] cps@[k]) < hi,
            forall|jj: int|
                0 <= jj < j ==> !(#[trigger] field_empty(
                    usize_seq(cps@),
                    lo as int,
                    hi as int,
                    jj,
                )),
        decreases nf - j,
    {
        if is_field_empty(cps, lo, hi, j) {
            return Some(j);
        }
        j = j + 1;
    }
    None
}

/// Parses the field `s[start..end]` as an embedded dotted-decimal tail:
/// returns the two denoted groups exactly when the field is well formed.
#[verifier::rlimit(100)]
fn parse_quad(s: &str, start: usize, end: usize) -> (r: Option<(u16, u16)>)
    requires
        start <= end <= s@.len(),
    ensures
        match r {
            Some(v) => valid_v4_quad(s@.subrange(start as int, end as int)) && (
            v.0 as int,
            v.1 as int,
            ) == quad_groups(s@.subrange(start as int, end as int)),
            None => !valid_v4_quad(s@.subrange(start as int, end as int)),
        },
{
    let ghost f = s@.subrange(start as int, end as int);
    let q1 = scan_digits(s, start, end);
    if q1 >= end || !char_is(s, q1, 46) {
        proof {
            if valid_v4_quad(f) {
                let (d1, d2, d3) = choose|d1: int, d2: int, d3: int| quad_split(f, d1, d2, d3);
                assert(f.subrange(0, d1) =~= s@.subrange(start as int, start + d1));
                lemma_component_digits(s@, start as int, start + d1);
                assert(f[d1] == s@[start + d1]);
                assert(!is_digit('.'));
                lemma_scan_hits_separator(s@, start as int, q1 as int, start + d1);
                assert('.' as int == 46);
            }
        }
        return None;
    }
    let q2 = scan_digits(s, q1 + 1, end);
    if q2 >= end || !char_is(s, q2, 46) {
        proof {
            if valid_v4_quad(f) {
                let (d1, d2, d3) = choose|d1: int, d2: int, d3: int| quad_split(f, d1, d2, d3);
                assert(f.subrange(0, d1) =~= s@.subrange(start as int, start + d1));
                lemma_component_digits(s@, start as int, start + d1);
                assert(f[d1] == s@[start + d1]);
                assert(!is_digit('.'));
                lemma_scan_hits_separator(s@, start as int, q1 as int, start + d1);
                assert(f.subrange(d1 + 1, d2) =~= s@.subrange(start + d1 + 1, start + d2));
                lemma_component_digits(s@, start + d1 + 1, start + d2);
                assert(f[d2] == s@[start + d2]);
                lemma_scan_hits_separator(s@, q1 + 1, q2 as int, start + d2);
                assert('.' as int == 46);
            }
        }
        return None;
    }
    let q3 = scan_digits(s, q2 + 1, end);
    if q3 >= end || !char_is(s, q3, 46) {
        proof {
            if valid_v4_quad(f) {
                let (d1, d2, d3) = choose|d1: int, d2: int, d3: int| quad_split(f, d1, d2, d3);
                pin_quad(
                    s@,
                    start as int,
                    end as int,
                    d1,
                    d2,
                    d3,
                    q1 as int,
                    q2 as int,
                    q3 as int,
                );
                assert('.' as int == 46);
            }
        }
        return None;
    }
    let a = parse_component(s, start, q1, 3, 255);
    let b = parse_component(s, q1 + 1, q2, 3, 255);
    let c = parse_component(s, q2 + 1, q3, 3, 255);
    let d = parse_component(s, q3 + 1, end, 3, 255);
    proof {
        assert('.' as int == 46);
        assert(f.subrange(0, q1 - start) =~= s@.subrange(start as int, q1 as int));
        assert(f.subrange(q1 - start + 1, q2 - start) =~= s@.subrange(q1 + 1, q2 as int));
        assert(f.subrange(q2 - start + 1, q3 - start) =~= s@.subrange(q2 + 1, q3 as int));
        assert(f.subrange(q3 - start + 1, f.len() as int) =~= s@.subrange(q3 + 1, end as int));
    }
    match (a, b, c, d) {
        (Some(av), Some(bv), Some(cv), Some(dv)) => {
            proof {
                assert(f[q1 - start] == s@[q1 as int] && f[q2 - start] == s@[q2 as int] && f[q3
                    - start] == s@[q3 as int]);
                assert(quad_split(f, q1 - start, q2 - start, q3 - start));
                let (d1, d2, d3) = choose|d1: int, d2: int, d3: int| quad_split(f, d1, d2, d3);
                lemma_quad_split_unique(f, d1, d2, d3, q1 - start, q2 - start, q3 - start);
            }
            Some(((av * 256 + bv) as u16, (cv * 256 + dv) as u16))
        },
        _ => {
            proof {
                if valid_v4_quad(f) {
                    let (d1, d2, d3) = choose|d1: int, d2: int, d3: int|
                        quad_split(f, d1, d2, d3);
                    pin_quad(
                        s@,
                        start as int,
                        end as int,
                        d1,
                        d2,
                        d3,
                        q1 as int,
                        q2 as int,
                        q3 as int,
                    );
                }
            }
            None
        },
    }
}

/// In a valid tail, the three scans stop exactly at the three dots.
proof fn pin_quad(
    s: Seq<char>,
    start: int,
    end: int,
    d1: int,
    d2: int,
    d3: int,
    q1: int,
    q2: int,
    q3: int,
)
    requires
        0 <= start <= end <= s.len(),
        quad_split(s.subrange(start, end), d1, d2, d3),
        start <= q1 <= end,
        forall|j: int| start <= j < q1 ==> is_digit(#[trigger] s[j]),
        q1 < end ==> !is_digit(s[q1]),
        q1 + 1 <= q2 <= end,
        forall|j: int| q1 + 1 <= j < q2 ==> is_digit(#[trigger] s[j]),
        q2 < end ==> !is_digit(s[q2]),
        q2 + 1 <= q3 <= end,
        forall|j: int| q2 + 1 <= j < q3 ==> is_digit(#[trigger] s[j]),
        q3 < end ==> !is_digit(s[q3]),
    ensures
        q1 == start + d1,
        q2 == start + d2,
        q3 == start + d3,
{
    let f = s.subrange(start, end);
    assert(!is_digit('.'));
    assert(f.subrange(0, d1) =~= s.subrange(start, start + d1));
    lemma_component_digits(s, start, start + d1);
    assert(f[d1] == s[start + d1]);
    lemma_scan_hits_separator(s, start, q1, start + d1);
    assert(f.subrange(d1 + 1, d2) =~= s.subrange(start + d1 + 1, start + d2));
    lemma_component_digits(s, start + d1 + 1, start + d2);
    assert(f[d2] == s[start + d2]);
    lemma_scan_hits_separator(s, start + d1 + 1, q2, start + d2);
    assert(f.subrange(d2 + 1, d3) =~= s.subrange(start + d2 + 1, start + d3));
    lemma_component_digits(s, start + d2 + 1, start + d3);
    assert(f[d3] == s[start + d3]);
    lemma_scan_hits_separator(s, start + d2 + 1, q3, start + d3);
}

/// Parses the scope field `s[start..end]`: returns its value exactly when
/// the field is one or more digits fitting thirty-two bits.
fn parse_scope(s: &str, start: usize, end: usize) -> (r: Option<u32>)
    requires
        start <= end <= s@.len(),
    ensures
        match r {
            Some(v) => valid_scope(s@.subrange(start as int, end as int)) && v == dec_val(
                s@.subrange(start as int, end as int),
            ),
            None => !valid_scope(s@.subrange(start as int, end as int)),
        },
{
    let ghost field = s@.subrange(start as int, end as int);
    if end - start < 1 {
        return None;
    }
    let mut v: u64 = 0;
    let mut i = start;
    while i < end
        invariant
            start <= i <= end,
            end <= s@.len(),
            field == s@.subrange(start as int, end as int),
            all_digits(s@.subrange(start as int, i as int)),
            v == dec_val(s@.subrange(start as int, i as int)),
            v <= 4294967295,
        decreases end - i,
    {
        let c = s.get_char(i);
        let u = c as u32;
        if u < 48 || u > 57 {
            proof {
                assert(field[i - start] == s@[i as int]);
                assert(!is_digit(field[i - start]));
            }
            return None;
        }
        proof {
            let pre = s@.subrange(start as int, i as int);
            let ext = s@.subrange(start as int, i + 1);
            assert(ext.drop_last() =~= pre);
            assert(ext.last() == s@[i as int]);
            assert(all_digits(ext)) by {
                assert forall|j: int| 0 <= j < ext.len() implies is_digit(#[trigger] ext[j]) by {
                    if j < ext.len() - 1 {
                        assert(ext[j] == pre[j]);
                    }
                }
            }
        }
        v = v * 10 + ((u - 48) as u64);
        i = i + 1;
        if v > 4294967295 {
            proof {
                if all_digits(field) {
                    assert(s@.subrange(start as int, i as int) =~= field.subrange(
                        0,
                        i - start,
                    ));
                    lemma_dec_val_prefix_mono(field, i - start);
                }
            }
            return None;
        }
    }
    proof {
        assert(field =~= s@.subrange(start as int, i as int));
    }
    Some(v as u32)
}

/// Collects the colon positions of `s[1..hc)`, in order.
fn collect_colons(s: &str, hc: usize) -> (cps: Vec<usize>)
    requires
        1 <= hc <= s@.len(),
    ensures
        usize_seq(cps@) == colons_between(s@, 1, hc as int),
        cps@.len() < hc,
        forall|k: int| 0 <= k < cps@.len() ==> 1 <= (#[trigger] cps@[k]) && cps@[k] < hc,
        forall|k1: int, k2: int|
            0 <= k1 < k2 < cps@.len() ==> (#[trigger] cps@[k1]) < (#[trigger] cps@[k2]),
{
    let mut cps: Vec<usize> = Vec::new();
    proof {
        assert(usize_seq(cps@) =~= Seq::<int>::empty());
        assert(usize_seq(cps@) + colons_between(s@, 1, hc as int) =~= colons_between(
            s@,
            1,
            hc as int,
        ));
    }
    let mut i: usize = 1;
    while i < hc
        invariant
            1 <= i <= hc,
            hc <= s@.len(),
            colons_between(s@, 1, hc as int) == usize_seq(cps@) + colons_between(
                s@,
                i as int,
                hc as int,
            ),
            forall|k: int| 0 <= k < cps@.len() ==> 1 <= (#[trigger] cps@[k]) && cps@[k] < i,
            forall|k1: int, k2: int|
                0 <= k1 < k2 < cps@.len() ==> (#[trigger] cps@[k1]) < (#[trigger] cps@[k2]),
            cps@.len() < i,
        decreases hc - i,
    {
        let c = s.get_char(i);
        if c as u32 == 58 {
            let ghost old_cps = cps@;
            cps.push(i);
            proof {
                assert(usize_seq(cps@) =~= usize_seq(old_cps).push(i as int));
                assert(colons_between(s@, i as int, hc as int) == seq![i as int]
                    + colons_between(s@, i + 1, hc as int));
                assert(usize_seq(cps@) + colons_between(s@, i + 1, hc as int) =~= usize_seq(
                    old_cps,
                ) + (seq![i as int] + colons_between(s@, i + 1, hc as int)));
            }
        } else {
            proof {
                assert(colons_between(s@, i as int, hc as int) == colons_between(
                    s@,
                    i + 1,
                    hc as int,
                ));
            }
        }
        i = i + 1;
    }
    proof {
        assert(colons_between(s@, hc as int, hc as int) =~= Seq::<int>::empty());
        assert(usize_seq(cps@) + colons_between(s@, hc as int, hc as int) =~= usize_seq(cps@));
    }
    cps
}

/// Reads the shape of the content `s[1..hc)` exactly as the specification
/// does: the field counts taken from each side, and the parsed embedded
/// tail when the last field is one.
#[verifier::rlimit(100)]
fn decide_shape(s: &str, cps: &Vec<usize>, hc: usize) -> (r: Option<
    (usize, usize, Option<(u16, u16)>),
>)
    requires
        1 <= hc <= s@.len(),
        hc < usize::MAX,
        usize_seq(cps@) == colons_between(s@, 1, hc as int),
        cps@.len() < hc,
        forall|k: int| 0 <= k < cps@.len() ==> 1 <= (#[trigger] cps@[k]) && cps@[k] < hc,
        forall|k1: int, k2: int|
            0 <= k1 < k2 < cps@.len() ==> (#[trigger] cps@[k1]) < (#[trigger] cps@[k2]),
    ensures
        ({
            let cs = colons_between(s@, 1, hc as int);
            match r {
                Some(t) => {
                    &&& v6_shape(s@, cs, 1, hc as int) == Some(
                        (t.0 as int, t.1 as int, t.2 is Some),
                    )
                    &&& match t.2 {
                        Some(q) => (q.0 as int, q.1 as int) == quad_groups(
                            field_at(s@, cs, 1, hc as int, cs.len() as int),
                        ),
                        None => true,
                    }
                },
                None => v6_shape(s@, cs, 1, hc as int) is None,
            }
        }),
{
    let ghost cs = usize_seq(cps@);
    let ghost hci = hc as int;
    proof {
        assert(cs.len() == cps@.len());
        assert forall|k: int| 0 <= k < cs.len() implies 1 <= #[trigger] cs[k] && cs[k]
            < hci by {
            assert(cs[k] == cps@[k] as int);
        }
    }
    let nf = cps.len() + 1;
    proof {
        if nf >= 2 {
            assert(cs[nf - 2] == cps@[nf - 2] as int);
        }
    }
    let lq_lo = if nf == 1 {
        1
    } else {
        cps[nf - 2] + 1
    };
    proof {
        assert(lq_lo as int == field_lo(cs, 1, (nf - 1) as int));
        assert(field_hi(cs, hci, (nf - 1) as int) == hci);
        assert(lq_lo <= hc);
    }
    let pq = parse_quad(s, lq_lo, hc);
    proof {
        assert(field_at(s@, cs, 1, hci, cs.len() as int) == s@.subrange(
            lq_lo as int,
            hc as int,
        ));
    }
    let nfe = if pq.is_some() {
        nf + 1
    } else {
        nf
    };
    if nfe == 8 && fields_nonempty(cps, 1, hc, 0, nf) {
        if pq.is_some() {
            Some((nf - 1, 1, pq))
        } else {
            Some((8, 0, None))
        }
    } else if nf == 3 && is_field_empty(cps, 1, hc, 0) && is_field_empty(cps, 1, hc, 1)
        && is_field_empty(cps, 1, hc, 2) {
        Some((0, 0, None))
    } else if nf >= 3 && nfe <= 9 && is_field_empty(cps, 1, hc, 0) && is_field_empty(
        cps,
        1,
        hc,
        1,
    ) && fields_nonempty(cps, 1, hc, 2, nf) {
        Some((0, nf - 2, pq))
    } else if nf >= 3 && nf <= 9 && is_field_empty(cps, 1, hc, nf - 1) && is_field_empty(
        cps,
        1,
        hc,
        nf - 2,
    ) && fields_nonempty(cps, 1, hc, 0, nf - 2) {
        Some((nf - 2, 0, None))
    } else if nfe <= 8 {
        match first_empty(cps, 1, hc) {
            Some(ii) => {
                if 0 < ii && ii + 1 < nf && fields_nonempty(cps, 1, hc, ii + 1, nf) {
                    proof {
                        assert(middle_empty(cs, 1, hci, ii as int));
                        let ic = choose|i2: int| middle_empty(cs, 1, hci, i2);
                        if ic != ii as int {
                            assert(!field_empty(cs, 1, hci, ii as int));
                        }
                    }
                    Some((ii, nf - 1 - ii, pq))
                } else {
                    proof {
                        assert forall|i2: int| !middle_empty(cs, 1, hci, i2) by {
                            if middle_empty(cs, 1, hci, i2) {
                                if i2 != ii as int {
                                    assert(field_empty(cs, 1, hci, ii as int));
                                } else {
                                    if ii + 1 < nf {
                                        let k = choose|j: int|
                                            ii + 1 <= j < nf as int && field_empty(
                                                cs,
                                                1,
                                                hci,
                                                j,
                                            );
                                        assert(field_empty(cs, 1, hci, k));
                                    }
                                }
                            }
                        }
                    }
                    None
                }
            },
            None => {
                proof {
                    assert forall|i2: int| !middle_empty(cs, 1, hci, i2) by {
                        if middle_empty(cs, 1, hci, i2) {
                            assert(field_empty(cs, 1, hci, i2));
                        }
                    }
                }
                None
            },
        }
    } else {
        None
    }
}

/// Parses the explicit hex groups of a well-shaped content and assembles
/// the eight groups: the left fields, the elided zeros, the right fields,
/// and the embedded tail's two groups when there is one.
#[verifier::rlimit(100)]
fn assemble_groups(
    s: &str,
    cps: &Vec<usize>,
    hc: usize,
    left: usize,
    right: usize,
    quad: Option<(u16, u16)>,
) -> (r: Option<Vec<u16>>)
    requires
        1 <= hc <= s@.len(),
        usize_seq(cps@) == colons_between(s@, 1, hc as int),
        cps@.len() < hc,
        forall|k: int| 0 <= k < cps@.len() ==> 1 <= (#[trigger] cps@[k]) && cps@[k] < hc,
        forall|k1: int, k2: int|
            0 <= k1 < k2 < cps@.len() ==> (#[trigger] cps@[k1]) < (#[trigger] cps@[k2]),
        v6_shape(s@, usize_seq(cps@), 1, hc as int) == Some(
            (left as int, right as int, quad is Some),
        ),
        match quad {
            Some(q) => (q.0 as int, q.1 as int) == quad_groups(
                field_at(s@, usize_seq(cps@), 1, hc as int, cps@.len() as int),
            ),
            None => true,
        },
    ensures
        match r {
            Some(gs) => {
                &&& valid_v6_content(s@, 1, hc as int)
                &&& gs@.len() == 8
                &&& forall|t: int|
                    0 <= t < 8 ==> (#[trigger] gs@[t]) as int == v6_content_groups(
                        s@,
                        1,
                        hc as int,
                    )[t]
            },
            None => !valid_v6_content(s@, 1, hc as int),
        },
{
    let ghost cs = usize_seq(cps@);
    let ghost hci = hc as int;
    let ghost ge = groups_expanded(s@, cs, 1, hci, left as int, right as int, quad is Some);
    let nf = cps.len() + 1;
    proof {
        assert(cs.len() == cps@.len());
        assert forall|k: int| 0 <= k < cs.len() implies 1 <= #[trigger] cs[k] && cs[k]
            < hci by {
            assert(cs[k] == cps@[k] as int);
        }
        assert(left + right + (if quad is Some {
            1 as int
        } else {
            0 as int
        }) <= 8 && left as int <= cs.len() + 1 && right < nf);
        assert(quad is Some ==> right >= 1);
    }
    let qextra: usize = if quad.is_some() {
        1
    } else {
        0
    };
    let mut gs: Vec<u16> = Vec::new();
    let mut k: usize = 0;
    while k < left
        invariant
            k <= left,
            left + right + qextra <= 8,
            qextra == (if quad is Some {
                1 as int
            } else {
                0 as int
            }),
            nf == cps@.len() + 1,
            1 <= hc <= s@.len(),
            hci == hc as int,
            cs == usize_seq(cps@),
            cs == colons_between(s@, 1, hci),
            v6_shape(s@, cs, 1, hci) == Some((left as int, right as int, quad is Some)),
            ge == groups_expanded(s@, cs, 1, hci, left as int, right as int, quad is Some),
            left as int <= cs.len() + 1,
            forall|kk: int| 0 <= kk < cs.len() ==> 1 <= (#[trigger] cs[kk]) && cs[kk] < hci,
            forall|k1: int, k2: int|
                0 <= k1 < k2 < cs.len() ==> (#[trigger] cs[k1]) < (#[trigger] cs[k2]),
            gs@.len() == k,
            forall|t: int|
                0 <= t < k ==> (#[trigger] gs@[t]) as int == ge[t] && valid_hex_group(
                    field_at(s@, cs, 1, hci, t),
                ),
        decreases left - k,
    {
        proof {
            if k > 0 {
                assert(cs[k - 1] == cps@[k - 1] as int);
            }
            if k < cps@.len() {
                assert(cs[k as int] == cps@[k as int] as int);
            }
        }
        let flo = if k == 0 {
            1
        } else {
            cps[k - 1] + 1
        };
        let fhi = if k < cps.len() {
            cps[k]
        } else {
            hc
        };
        proof {
            assert(flo as int == field_lo(cs, 1, k as int));
            assert(fhi as int == field_hi(cs, hci, k as int));
            assert(flo <= fhi);
        }
        match parse_hex_group(s, flo, fhi) {
            Some(g) => {
                gs.push(g);
                proof {
                    assert(ge[k as int] == hex_val(field_at(s@, cs, 1, hci, k as int)));
                }
            },
            None => {
                proof {
                    if valid_v6_content(s@, 1, hci) {
                        assert(valid_hex_group(field_at(s@, cs, 1, hci, k as int)));
                    }
                }
                return None;
            },
        }
        k = k + 1;
    }
    proof {
        assert forall|t: int| 0 <= t < left implies valid_hex_group(
            #[trigger] field_at(s@, cs, 1, hci, t),
        ) by {
            assert((gs@[t]) as int == ge[t] && valid_hex_group(field_at(s@, cs, 1, hci, t)));
        }
    }
    let zeros = 8 - left - right - qextra;
    let mut z: usize = 0;
    while z < zeros
        invariant
            z <= zeros,
            zeros == 8 - left - right - qextra,
            qextra == (if quad is Some {
                1 as int
            } else {
                0 as int
            }),
            left + right + qextra <= 8,
            qextra == 1 ==> right >= 1,
            ge == groups_expanded(s@, cs, 1, hci, left as int, right as int, quad is Some),
            gs@.len() == left + z,
            forall|t: int| 0 <= t < left + z ==> (#[trigger] gs@[t]) as int == ge[t],
            forall|t: int|
                0 <= t < left ==> valid_hex_group(#[trigger] field_at(s@, cs, 1, hci, t)),
        decreases zeros - z,
    {
        gs.push(0);
        proof {
            assert(ge[(left + z) as int] == 0);
        }
        z = z + 1;
    }
    let rh = right - qextra;
    let mut m: usize = 0;
    while m < rh
        invariant
            m <= rh,
            rh == right - qextra,
            qextra == (if quad is Some {
                1 as int
            } else {
                0 as int
            }),
            left + right + qextra <= 8,
            nf == cps@.len() + 1,
            right < nf,
            1 <= hc <= s@.len(),
            hci == hc as int,
            cs == usize_seq(cps@),
            cs == colons_between(s@, 1, hci),
            v6_shape(s@, cs, 1, hci) == Some((left as int, right as int, quad is Some)),
            ge == groups_expanded(s@, cs, 1, hci, left as int, right as int, quad is Some),
            forall|kk: int| 0 <= kk < cs.len() ==> 1 <= (#[trigger] cs[kk]) && cs[kk] < hci,
            forall|k1: int, k2: int|
                0 <= k1 < k2 < cs.len() ==> (#[trigger] cs[k1]) < (#[trigger] cs[k2]),
            gs@.len() == 8 - right - qextra + m,
            forall|t: int|
                0 <= t < 8 - right - qextra + m ==> (#[trigger] gs@[t]) as int == ge[t],
            forall|t: int|
                nf as int - right as int <= t < nf as int - right as int + m as int
                    ==> valid_hex_group(#[trigger] field_at(s@, cs, 1, hci, t)),
            forall|t: int|
                0 <= t < left ==> valid_hex_group(#[trigger] field_at(s@, cs, 1, hci, t)),
        decreases rh - m,
    {
        let idx = nf - right + m;
        proof {
            assert(idx < cps@.len() + 1);
            if idx > 0 {
                assert(cs[idx - 1] == cps@[idx - 1] as int);
            }
            if idx < cps@.len() {
                assert(cs[idx as int] == cps@[idx as int] as int);
            }
        }
        let flo = if idx == 0 {
            1
        } else {
            cps[idx - 1] + 1
        };
        let fhi = if idx < cps.len() {
            cps[idx]
        } else {
            hc
        };
        proof {
            assert(flo as int == field_lo(cs, 1, idx as int));
            assert(fhi as int == field_hi(cs, hci, idx as int));
            assert(flo <= fhi);
        }
        match parse_hex_group(s, flo, fhi) {
            Some(g) => {
                gs.push(g);
                proof {
                    assert(ge[8 - right - qextra + m] == hex_val(
                        field_at(s@, cs, 1, hci, idx as int),
                    ));
                }
            },
            None => {
                proof {
                    if valid_v6_content(s@, 1, hci) {
                        assert(valid_hex_group(field_at(s@, cs, 1, hci, idx as int)));
                    }
                }
                return None;
            },
        }
        m = m + 1;
    }
    if let Some(q) = quad {
        gs.push(q.0);
        gs.push(q.1);
        proof {
            assert(ge[6] == quad_groups(field_at(s@, cs, 1, hci, cs.len() as int)).0);
            assert(ge[7] == quad_groups(field_at(s@, cs, 1, hci, cs.len() as int)).1);
        }
    }
    proof {
        assert(gs@.len() == 8);
        assert(valid_v6_content(s@, 1, hci)) by {
            assert forall|j: int|
                0 <= j < cs.len() + 1 && (j < left as int || j >= cs.len() + 1
                    - right as int) && !((quad is Some) && j == cs.len() as int) implies valid_hex_group(
                #[trigger] field_at(s@, cs, 1, hci, j),
            ) by {}
        }
        assert(v6_content_groups(s@, 1, hci) == ge);
    }
    Some(gs)
}

/// Parses a bracketed version-six address string, which is known to open
/// with a bracket.
#[verifier::rlimit(100)]
fn parse_v6(s: &str, n: usize) -> (r: Option<SockAddr>)
    requires
        n == s@.len(),
        1 <= n,
        s@[0] as int == 91,
    ensures
        match r {
            Some(ad) => is_valid_addr_v6(s@) && match ad {
                SockAddr::V6(v) => forall|rb: int|
                    #[trigger] v6_bracket(s@, rb) ==> v == v6_addr_of(s@, rb),
                SockAddr::V4(_) => false,
            },
            None => !is_valid_addr_v6(s@),
        },
{
    let rbo = find_char(s, 1, n, 93);
    let rb = match rbo {
        Some(rb) => rb,
        None => {
            proof {
                if is_valid_addr_v6(s@) {
                    let rb2 = choose|rb2: int|
                        v6_bracket(s@, rb2) && valid_v6_inner(s@, 1, rb2) && valid_port(
                            s@.subrange(rb2 + 2, s@.len() as int),
                        );
                }
            }
            return None;
        },
    };
    let ghost rbi = rb as int;
    proof {
        assert forall|rb2: int| #[trigger] v6_bracket(s@, rb2) implies rb2 == rbi by {
            if rb2 < rbi {
                assert(s@[rb2] as int == 93);
            } else if rb2 > rbi {
                assert(s@[rbi] as int != 93);
            }
        }
    }
    if rb + 1 >= n {
        proof {
            if is_valid_addr_v6(s@) {
                let rb2 = choose|rb2: int|
                    v6_bracket(s@, rb2) && valid_v6_inner(s@, 1, rb2) && valid_port(
                        s@.subrange(rb2 + 2, s@.len() as int),
                    );
            }
        }
        return None;
    }
    if !char_is(s, rb + 1, 58) {
        proof {
            if is_valid_addr_v6(s@) {
                let rb2 = choose|rb2: int|
                    v6_bracket(s@, rb2) && valid_v6_inner(s@, 1, rb2) && valid_port(
                        s@.subrange(rb2 + 2, s@.len() as int),
                    );
            }
        }
        return None;
    }
    let pv = match parse_port(s, rb + 2, n) {
        Some(p) => p,
        None => {
            proof {
                if is_valid_addr_v6(s@) {
                    let rb2 = choose|rb2: int|
                        v6_bracket(s@, rb2) && valid_v6_inner(s@, 1, rb2) && valid_port(
                            s@.subrange(rb2 + 2, s@.len() as int),
                        );
                }
            }
            return None;
        },
    };
    // split off an optional scope identifier
    let pco = find_char(s, 1, rb, 37);
    proof {
        if pco is Some {
            let pc = pco->Some_0;
            assert(scope_pos(s@, 1, rbi, pc as int));
            assert forall|pc2: int| #[trigger] scope_pos(s@, 1, rbi, pc2) implies pc2
                == pc as int by {
                if pc2 < pc as int {
                    assert(s@[pc2] as int == 37);
                } else if pc2 > pc as int {
                    assert(s@[pc as int] as int != 37);
                }
            }
            assert(scope_pos(s@, 1, rbi, the_scope_pos(s@, 1, rbi)));
        } else {
            if has_scope(s@, 1, rbi) {
                let pc2 = choose|pc2: int| scope_pos(s@, 1, rbi, pc2);
                assert(s@[pc2] as int == 37);
            }
        }
    }
    let (hc, scope): (usize, u32) = match pco {
        Some(pc) => {
            match parse_scope(s, pc + 1, rb) {
                Some(v) => (pc, v),
                None => {
                    proof {
                        if is_valid_addr_v6(s@) {
                            let rb2 = choose|rb2: int|
                                v6_bracket(s@, rb2) && valid_v6_inner(s@, 1, rb2) && valid_port(
                                    s@.subrange(rb2 + 2, s@.len() as int),
                                );
                            assert(the_scope_pos(s@, 1, rbi) == pc as int);
                        }
                    }
                    return None;
                },
            }
        },
        None => (rb, 0),
    };
    let ghost hci = hc as int;
    proof {
        assert(is_valid_addr_v6(s@) ==> valid_v6_content(s@, 1, hci)) by {
            if is_valid_addr_v6(s@) {
                let rb2 = choose|rb2: int|
                    v6_bracket(s@, rb2) && valid_v6_inner(s@, 1, rb2) && valid_port(
                        s@.subrange(rb2 + 2, s@.len() as int),
                    );
                if has_scope(s@, 1, rbi) {
                    assert(the_scope_pos(s@, 1, rbi) == hci);
                }
            }
        }
    }
    let cps = collect_colons(s, hc);
    let shape = decide_shape(s, &cps, hc);
    let (left, right, quad) = match shape {
        Some(t) => t,
        None => {
            proof {
                if is_valid_addr_v6(s@) {
                    assert(valid_v6_content(s@, 1, hci));
                }
            }
            return None;
        },
    };
    let gs = match assemble_groups(s, &cps, hc, left, right, quad) {
        Some(gs) => gs,
        None => {
            proof {
                if is_valid_addr_v6(s@) {
                    assert(valid_v6_content(s@, 1, hci));
                }
            }
            return None;
        },
    };
    proof {
        assert(v6_bracket(s@, rbi));
        assert(valid_v6_inner(s@, 1, rbi)) by {
            if has_scope(s@, 1, rbi) {
                assert(the_scope_pos(s@, 1, rbi) == hci);
            }
        }
        assert(is_valid_addr_v6(s@)) by {
            assert(v6_bracket(s@, rbi) && valid_v6_inner(s@, 1, rbi) && valid_port(
                s@.subrange(rbi + 2, s@.len() as int),
            ));
        }
        assert(v6_inner_groups(s@, 1, rbi) == v6_content_groups(s@, 1, hci)) by {
            if has_scope(s@, 1, rbi) {
                assert(the_scope_pos(s@, 1, rbi) == hci);
            }
        }
        assert(v6_inner_scope(s@, 1, rbi) == scope as int) by {
            if has_scope(s@, 1, rbi) {
                assert(the_scope_pos(s@, 1, rbi) == hci);
            }
        }
    }
    let v = SockAddrV6 {
        g1: gs[0],
        g2: gs[1],
        g3: gs[2],
        g4: gs[3],
        g5: gs[4],
        g6: gs[5],
        g7: gs[6],
        g8: gs[7],
        port: pv,
        scope,
    };
    proof {
        let ghost gr = v6_content_groups(s@, 1, hci);
        assert forall|rb2: int| #[trigger] v6_bracket(s@, rb2) implies v == v6_addr_of(
            s@,
            rb2,
        ) by {
            assert(rb2 == rbi);
            assert(gr[0] == gs@[0] as int && gr[1] == gs@[1] as int && gr[2] == gs@[2] as int
                && gr[3] == gs@[3] as int && gr[4] == gs@[4] as int && gr[5] == gs@[5] as int
                && gr[6] == gs@[6] as int && gr[7] == gs@[7] as int);
        }
    }
    Some(SockAddr::V6(v))
}

} // verus!
