//! IP addresses as the library's own plain-value type, with verified parsing
//! of the textual literal forms.
//!
//! An IPv4 literal is four decimal octets (`0..=255`, no leading zeros)
//! separated by `.`. An IPv6 literal is eight groups of one to four hex
//! digits separated by `:`, or a shorter form with one `::` standing for the
//! missing zero groups; dotted-quad tails are not part of this grammar.

use vstd::prelude::*;
use crate::text::{
    all_dec_digits, all_hex_digits, dec_val, hex_digit_val, hex_val, is_dec_digit, is_hex_digit,
    join_with, lemma_hex_val_bound, lemma_split_concat, lemma_split_join,
    lemma_split_multi_has_sep, lemma_split_no_sep, pow10, pow16, split_on, split_on_spec,
};

verus! {

/// A parsed, validated IP address: four octets, or eight 16-bit groups.
#[derive(Debug, Clone, Copy, PartialEq, Eq, Structural)]
pub enum IpAddress {
    V4(u8, u8, u8, u8),
    V6(u16, u16, u16, u16, u16, u16, u16, u16),
}

/// One decimal octet of an IPv4 literal: one to three digits, value at most
/// 255, no leading zero.
pub open spec fn is_octet_text(s: Seq<char>) -> bool {
    1 <= s.len() <= 3 && all_dec_digits(s) && (s.len() > 1 ==> s[0] != '0') && dec_val(s) <= 255
}

/// The address an IPv4 literal denotes, if the text is one.
pub open spec fn ipv4_of_text(s: Seq<char>) -> Option<IpAddress> {
    let parts = split_on_spec(s, '.');
    if parts.len() == 4 && is_octet_text(parts[0]) && is_octet_text(parts[1]) && is_octet_text(
        parts[2],
    ) && is_octet_text(parts[3]) {
        Some(
            IpAddress::V4(
                dec_val(parts[0]) as u8,
                dec_val(parts[1]) as u8,
                dec_val(parts[2]) as u8,
                dec_val(parts[3]) as u8,
            ),
        )
    } else {
        None
    }
}

/// One group of an IPv6 literal: one to four hex digits.
pub open spec fn is_hex_group(s: Seq<char>) -> bool {
    1 <= s.len() <= 4 && all_hex_digits(s)
}

/// The parts in `[lo, hi)` are all hex groups.
pub open spec fn all_hex_groups(parts: Seq<Seq<char>>, lo: int, hi: int) -> bool {
    forall|i: int| lo <= i < hi ==> is_hex_group(#[trigger] parts[i])
}

/// The group values of the parts in `[lo, hi)`.
pub open spec fn groups_vals(parts: Seq<Seq<char>>, lo: int, hi: int) -> Seq<u16> {
    Seq::new((hi - lo) as nat, |k: int| hex_val(parts[lo + k]) as u16)
}

pub open spec fn zero_groups(n: nat) -> Seq<u16> {
    Seq::new(n, |k: int| 0u16)
}

/// The parts of an IPv6 literal have a `::` gap at `i`: an empty part with
/// hex groups on both sides.
pub open spec fn mid_gap_at(parts: Seq<Seq<char>>, i: int) -> bool {
    1 <= i <= parts.len() - 2 && parts[i].len() == 0 && all_hex_groups(parts, 0, i)
        && all_hex_groups(parts, i + 1, parts.len() as int)
}

/// The eight groups an IPv6 literal denotes, from its `:`-separated parts.
/// An inner `::` shows up as one empty part, a leading or trailing `::` as
/// two; `::` alone splits into three empty parts.
pub open spec fn ipv6_groups_of_parts(parts: Seq<Seq<char>>) -> Option<Seq<u16>> {
    let n = parts.len() as int;
    if n == 8 && all_hex_groups(parts, 0, 8) {
        Some(groups_vals(parts, 0, 8))
    } else if n == 3 && parts[0].len() == 0 && parts[1].len() == 0 && parts[2].len() == 0 {
        Some(zero_groups(8))
    } else if 3 <= n <= 9 && parts[0].len() == 0 && parts[1].len() == 0 && all_hex_groups(
        parts,
        2,
        n,
    ) {
        Some(zero_groups((10 - n) as nat) + groups_vals(parts, 2, n))
    } else if 3 <= n <= 9 && parts[n - 1].len() == 0 && parts[n - 2].len() == 0 && all_hex_groups(
        parts,
        0,
        n - 2,
    ) {
        Some(groups_vals(parts, 0, n - 2) + zero_groups((10 - n) as nat))
    } else if 3 <= n <= 8 && (exists|i: int| mid_gap_at(parts, i)) {
        let i = choose|i: int| mid_gap_at(parts, i);
        Some(
            groups_vals(parts, 0, i) + zero_groups((9 - n) as nat) + groups_vals(parts, i + 1, n),
        )
    } else {
        None
    }
}

/// Builds the address value out of eight groups.
pub open spec fn v6_from_groups(g: Seq<u16>) -> IpAddress
    recommends
        g.len() == 8,
{
    IpAddress::V6(g[0], g[1], g[2], g[3], g[4], g[5], g[6], g[7])
}

/// The address an IPv6 literal denotes, if the text is one.
pub open spec fn ipv6_of_text(s: Seq<char>) -> Option<IpAddress> {
    match ipv6_groups_of_parts(split_on_spec(s, ':')) {
        Some(g) => Some(v6_from_groups(g)),
        None => None,
    }
}

/// The address a textual IP literal denotes: the IPv4 reading where the text
/// is an IPv4 literal, else the IPv6 reading. (No text is both: an IPv4
/// literal has no `:`, an IPv6 literal needs one.)
pub open spec fn ip_of_text(s: Seq<char>) -> Option<IpAddress> {
    if ipv4_of_text(s) is Some {
        ipv4_of_text(s)
    } else {
        ipv6_of_text(s)
    }
}

/// Parses one decimal octet.
pub fn parse_octet(s: &str) -> (r: Option<u8>)
    ensures
        match r {
            Some(v) => is_octet_text(s@) && v as int == dec_val(s@),
            None => !is_octet_text(s@),
        },
{
    let n = s.unicode_len();
    if n < 1 || n > 3 {
        return None;
    }
    if n > 1 && s.get_char(0) == '0' {
        return None;
    }
    let mut val: u32 = 0;
    let mut i: usize = 0;
    proof {
        assert(s@.take(0) =~= Seq::<char>::empty());
    }
    while i < n
        invariant
            n == s@.len(),
            1 <= n <= 3,
            0 <= i <= n,
            all_dec_digits(s@.take(i as int)),
            val == dec_val(s@.take(i as int)),
            0 <= val < pow10(i as nat),
        decreases n - i,
    {
        let c = s.get_char(i) as u32;
        if c < 48 || c > 57 {
            proof {
                assert(!is_dec_digit(s@[i as int]));
            }
            return None;
        }
        proof {
            assert(s@.take(i + 1).drop_last() =~= s@.take(i as int));
            assert(s@.take(i + 1).last() == s@[i as int]);
            assert(all_dec_digits(s@.take(i + 1)));
            assert(pow10(3) == 1000) by {
                assert(pow10(0) == 1);
                assert(pow10(1) == 10);
                assert(pow10(2) == 100);
            }
            assert(pow10(i as nat) <= 1000) by {
                assert(pow10(0) == 1);
                assert(pow10(1) == 10);
                assert(pow10(2) == 100);
            }
        }
        val = val * 10 + (c - 48);
        i += 1;
    }
    proof {
        assert(s@.take(n as int) =~= s@);
    }
    if val > 255 {
        return None;
    }
    Some(val as u8)
}

/// Parses one hex group.
pub fn parse_hex_group(s: &str) -> (r: Option<u16>)
    ensures
        match r {
            Some(v) => is_hex_group(s@) && v as int == hex_val(s@),
            None => !is_hex_group(s@),
        },
{
    let n = s.unicode_len();
    if n < 1 || n > 4 {
        return None;
    }
    let mut val: u32 = 0;
    let mut i: usize = 0;
    proof {
        assert(s@.take(0) =~= Seq::<char>::empty());
    }
    while i < n
        invariant
            n == s@.len(),
            1 <= n <= 4,
            0 <= i <= n,
            all_hex_digits(s@.take(i as int)),
            val == hex_val(s@.take(i as int)),
            0 <= val < pow16(i as nat),
        decreases n - i,
    {
        let c = s.get_char(i) as u32;
        let d: u32 = if 48 <= c && c <= 57 {
            c - 48
        } else if 97 <= c && c <= 102 {
            c - 87
        } else if 65 <= c && c <= 70 {
            c - 55
        } else {
            proof {
                assert(!is_hex_digit(s@[i as int]));
            }
            return None;
        };
        proof {
            assert(s@.take(i + 1).drop_last() =~= s@.take(i as int));
            assert(s@.take(i + 1).last() == s@[i as int]);
            assert(all_hex_digits(s@.take(i + 1)));
            assert(pow16(i as nat) <= 4096) by {
                assert(pow16(0) == 1);
                assert(pow16(1) == 16);
                assert(pow16(2) == 256);
                assert(pow16(3) == 4096);
            }
        }
        val = val * 16 + d;
        i += 1;
    }
    proof {
        assert(s@.take(n as int) =~= s@);
        lemma_hex_val_bound(s@);
        assert(pow16(4) == 65536) by {
            assert(pow16(0) == 1);
            assert(pow16(1) == 16);
            assert(pow16(2) == 256);
            assert(pow16(3) == 4096);
        }
        assert(pow16(s@.len()) <= 65536) by {
            assert(pow16(0) == 1);
            assert(pow16(1) == 16);
            assert(pow16(2) == 256);
            assert(pow16(3) == 4096);
        }
    }
    Some(val as u16)
}

/// Parses a whole IPv4 literal.
pub fn parse_ipv4(s: &str) -> (r: Option<IpAddress>)
    ensures
        r == ipv4_of_text(s@),
{
    let parts = split_on(s, '.');
    let ghost m = parts@.map_values(|p: String| p@);
    if parts.len() != 4 {
        return None;
    }
    let a = match parse_octet(parts[0].as_str()) {
        Some(v) => v,
        None => {
            return None;
        },
    };
    let b = match parse_octet(parts[1].as_str()) {
        Some(v) => v,
        None => {
            return None;
        },
    };
    let c = match parse_octet(parts[2].as_str()) {
        Some(v) => v,
        None => {
            return None;
        },
    };
    let d = match parse_octet(parts[3].as_str()) {
        Some(v) => v,
        None => {
            return None;
        },
    };
    Some(IpAddress::V4(a, b, c, d))
}

/// Parses the parts in `[lo, hi)` as hex groups.
fn parse_groups(parts: &Vec<String>, lo: usize, hi: usize) -> (r: Option<Vec<u16>>)
    requires
        lo <= hi,
        hi <= parts@.len(),
    ensures
        ({
            let m = parts@.map_values(|p: String| p@);
            match r {
                Some(v) => all_hex_groups(m, lo as int, hi as int) && v@ == groups_vals(
                    m,
                    lo as int,
                    hi as int,
                ),
                None => !all_hex_groups(m, lo as int, hi as int),
            }
        }),
{
    let ghost m = parts@.map_values(|p: String| p@);
    let mut out: Vec<u16> = Vec::new();
    let mut k: usize = lo;
    proof {
        assert(out@ =~= groups_vals(m, lo as int, lo as int));
    }
    while k < hi
        invariant
            lo <= k <= hi,
            hi <= parts@.len(),
            m == parts@.map_values(|p: String| p@),
            all_hex_groups(m, lo as int, k as int),
            out@ == groups_vals(m, lo as int, k as int),
        decreases hi - k,
    {
        match parse_hex_group(parts[k].as_str()) {
            Some(v) => {
                out.push(v);
                proof {
                    assert(out@ =~= groups_vals(m, lo as int, k + 1));
                }
            },
            None => {
                proof {
                    assert(!is_hex_group(m[k as int]));
                }
                return None;
            },
        }
        k += 1;
    }
    Some(out)
}

/// Appends `k` zero groups.
fn push_zero_groups(v: Vec<u16>, k: usize) -> (r: Vec<u16>)
    ensures
        r@ == v@ + zero_groups(k as nat),
{
    let mut r = v;
    let ghost orig = r@;
    let mut j: usize = 0;
    proof {
        assert(r@ =~= orig + zero_groups(0));
    }
    while j < k
        invariant
            0 <= j <= k,
            r@ == orig + zero_groups(j as nat),
        decreases k - j,
    {
        r.push(0);
        proof {
            assert(r@ =~= orig + zero_groups((j + 1) as nat));
        }
        j += 1;
    }
    r
}

/// Appends all of `w`.
fn push_all_groups(v: Vec<u16>, w: &Vec<u16>) -> (r: Vec<u16>)
    ensures
        r@ == v@ + w@,
{
    let mut r = v;
    let ghost orig = r@;
    let mut j: usize = 0;
    while j < w.len()
        invariant
            0 <= j <= w@.len(),
            r@ == orig + w@.take(j as int),
        decreases w@.len() - j,
    {
        r.push(w[j]);
        proof {
            assert(r@ =~= orig + w@.take(j + 1));
        }
        j += 1;
    }
    proof {
        assert(w@.take(w@.len() as int) =~= w@);
    }
    r
}

/// Turns an eight-group vector into the address value.
fn v6_of_vec(v: &Vec<u16>) -> (r: IpAddress)
    requires
        v@.len() == 8,
    ensures
        r == v6_from_groups(v@),
{
    IpAddress::V6(v[0], v[1], v[2], v[3], v[4], v[5], v[6], v[7])
}

/// Finds the first empty part, if any.
fn first_empty(parts: &Vec<String>) -> (r: Option<usize>)
    ensures
        ({
            let m = parts@.map_values(|p: String| p@);
            match r {
                Some(e) => e < m.len() && m[e as int].len() == 0 && forall|j: int|
                    0 <= j < e ==> #[trigger] m[j].len() != 0,
                None => forall|j: int| 0 <= j < m.len() ==> #[trigger] m[j].len() != 0,
            }
        }),
{
    let ghost m = parts@.map_values(|p: String| p@);
    let mut j: usize = 0;
    while j < parts.len()
        invariant
            0 <= j <= m.len(),
            m == parts@.map_values(|p: String| p@),
            m.len() == parts@.len(),
            forall|i: int| 0 <= i < j ==> #[trigger] m[i].len() != 0,
        decreases m.len() - j,
    {
        if parts[j].as_str().is_empty() {
            return Some(j);
        }
        j += 1;
    }
    None
}

/// Parses a whole IPv6 literal.
pub fn parse_ipv6(s: &str) -> (r: Option<IpAddress>)
    ensures
        r == ipv6_of_text(s@),
{
    let parts = split_on(s, ':');
    let ghost m = parts@.map_values(|p: String| p@);
    let n = parts.len();
    assert(m.len() == n);
    if n == 8 {
        if let Some(v) = parse_groups(&parts, 0, 8) {
            return Some(v6_of_vec(&v));
        }
    }
    if n == 3 && parts[0].as_str().is_empty() && parts[1].as_str().is_empty()
        && parts[2].as_str().is_empty() {
        let v = push_zero_groups(Vec::new(), 8);
        return Some(v6_of_vec(&v));
    }
    if 3 <= n && n <= 9 && parts[0].as_str().is_empty() && parts[1].as_str().is_empty() {
        if let Some(tail) = parse_groups(&parts, 2, n) {
            let v = push_all_groups(push_zero_groups(Vec::new(), 10 - n), &tail);
            proof {
                assert(v@ =~= zero_groups((10 - n) as nat) + groups_vals(m, 2, n as int));
            }
            return Some(v6_of_vec(&v));
        }
    }
    if 3 <= n && n <= 9 && parts[n - 1].as_str().is_empty() && parts[n - 2].as_str().is_empty() {
        if let Some(head) = parse_groups(&parts, 0, n - 2) {
            let v = push_zero_groups(push_all_groups(Vec::new(), &head), 10 - n);
            proof {
                assert(v@ =~= groups_vals(m, 0, n - 2) + zero_groups((10 - n) as nat));
            }
            return Some(v6_of_vec(&v));
        }
    }
    if 3 <= n && n <= 8 {
        if let Some(e) = first_empty(&parts) {
            if 1 <= e && e <= n - 2 {
                if let Some(head) = parse_groups(&parts, 0, e) {
                    if let Some(tail) = parse_groups(&parts, e + 1, n) {
                        proof {
                            assert(mid_gap_at(m, e as int));
                            let ic = choose|i: int| mid_gap_at(m, i);
                            assert(mid_gap_at(m, ic));
                            if ic != e {
                                if ic < e {
                                    assert(m[ic].len() != 0);
                                } else {
                                    assert(is_hex_group(m[ic]));
                                }
                                assert(false);
                            }
                        }
                        let v = push_all_groups(
                            push_zero_groups(push_all_groups(Vec::new(), &head), 9 - n),
                            &tail,
                        );
                        proof {
                            assert(v@ =~= groups_vals(m, 0, e as int) + zero_groups((9 - n) as nat)
                                + groups_vals(m, e + 1, n as int));
                        }
                        return Some(v6_of_vec(&v));
                    } else {
                        proof {
                            assert(forall|i: int| !mid_gap_at(m, i)) by {
                                assert forall|i: int| !mid_gap_at(m, i) by {
                                    if mid_gap_at(m, i) {
                                        if i < e {
                                            assert(m[i].len() != 0);
                                        } else if i > e {
                                            assert(is_hex_group(m[e as int]));
                                        } else {
                                            assert(all_hex_groups(m, i + 1, n as int));
                                        }
                                    }
                                }
                            }
                        }
                        return None;
                    }
                } else {
                    proof {
                        assert(forall|i: int| !mid_gap_at(m, i)) by {
                            assert forall|i: int| !mid_gap_at(m, i) by {
                                if mid_gap_at(m, i) {
                                    if i < e {
                                        assert(m[i].len() != 0);
                                    } else if i > e {
                                        assert(is_hex_group(m[e as int]));
                                    } else {
                                        assert(all_hex_groups(m, 0, i));
                                    }
                                }
                            }
                        }
                    }
                    return None;
                }
            } else {
                proof {
                    assert(forall|i: int| !mid_gap_at(m, i)) by {
                        assert forall|i: int| !mid_gap_at(m, i) by {
                            if mid_gap_at(m, i) {
                                if e < i {
                                    assert(is_hex_group(m[e as int]));
                                } else if e > i {
                                    assert(m[i].len() != 0);
                                }
                            }
                        }
                    }
                }
                return None;
            }
        } else {
            proof {
                assert(forall|i: int| !mid_gap_at(m, i)) by {
                    assert forall|i: int| !mid_gap_at(m, i) by {
                        if mid_gap_at(m, i) {
                            assert(m[i].len() != 0);
                        }
                    }
                }
            }
            return None;
        }
    }
    None
}

/// Every character of digit texts joined by a separator is a digit or the
/// separator.
proof fn lemma_digit_join_chars(parts: Seq<Seq<char>>, sep: char, i: int)
    requires
        forall|j: int| 0 <= j < parts.len() ==> all_dec_digits(#[trigger] parts[j]),
        0 <= i < join_with(parts, sep).len(),
    ensures
        is_dec_digit(join_with(parts, sep)[i]) || join_with(parts, sep)[i] == sep,
    decreases parts.len(),
{
    if parts.len() <= 1 {
        assert(all_dec_digits(parts[0]));
    } else {
        let p0 = parts[0];
        if i < p0.len() {
            assert(all_dec_digits(p0));
            assert(join_with(parts, sep)[i] == p0[i]);
        } else if i == p0.len() {
            assert(join_with(parts, sep)[i] == sep);
        } else {
            let rest = parts.drop_first();
            assert(forall|j: int| 0 <= j < rest.len() ==> all_dec_digits(#[trigger] rest[j]));
            lemma_digit_join_chars(rest, sep, i - p0.len() - 1);
            assert(join_with(parts, sep)[i] == join_with(rest, sep)[i - p0.len() - 1]);
        }
    }
}

/// No text reads as both kinds of literal: an IPv4 literal is digits and
/// dots only, an IPv6 literal contains a `:`.
pub proof fn lemma_ip_reading_unambiguous(s: Seq<char>)
    ensures
        !(ipv4_of_text(s) is Some && ipv6_of_text(s) is Some),
{
    if ipv4_of_text(s) is Some && ipv6_of_text(s) is Some {
        let parts = split_on_spec(s, '.');
        lemma_split_join(s, '.');
        assert(forall|j: int| 0 <= j < parts.len() ==> all_dec_digits(#[trigger] parts[j])) by {
            assert(is_octet_text(parts[0]));
            assert(is_octet_text(parts[1]));
            assert(is_octet_text(parts[2]));
            assert(is_octet_text(parts[3]));
        }
        assert(split_on_spec(s, ':').len() >= 3);
        lemma_split_multi_has_sep(s, ':');
        let k = choose|k: int| 0 <= k < s.len() && s[k] == ':';
        lemma_digit_join_chars(parts, '.', k);
        assert(':' as int == 58);
        assert('.' as int == 46);
        assert(false);
    }
}

/// One textual digit, lower-case for values ten and up.
fn digit_str(d: u8) -> (r: &'static str)
    requires
        d < 16,
    ensures
        r@.len() == 1,
        r@[0] as int == if d < 10 {
            48 + d as int
        } else {
            87 + d as int
        },
{
    proof {
        reveal_strlit("0");
        reveal_strlit("1");
        reveal_strlit("2");
        reveal_strlit("3");
        reveal_strlit("4");
        reveal_strlit("5");
        reveal_strlit("6");
        reveal_strlit("7");
        reveal_strlit("8");
        reveal_strlit("9");
        reveal_strlit("a");
        reveal_strlit("b");
        reveal_strlit("c");
        reveal_strlit("d");
        reveal_strlit("e");
        reveal_strlit("f");
    }
    if d == 0 {
        "0"
    } else if d == 1 {
        "1"
    } else if d == 2 {
        "2"
    } else if d == 3 {
        "3"
    } else if d == 4 {
        "4"
    } else if d == 5 {
        "5"
    } else if d == 6 {
        "6"
    } else if d == 7 {
        "7"
    } else if d == 8 {
        "8"
    } else if d == 9 {
        "9"
    } else if d == 10 {
        "a"
    } else if d == 11 {
        "b"
    } else if d == 12 {
        "c"
    } else if d == 13 {
        "d"
    } else if d == 14 {
        "e"
    } else {
        "f"
    }
}

/// Renders a number in decimal, without leading zeros.
pub fn dec_render(n: u32) -> (r: String)
    ensures
        all_dec_digits(r@),
        dec_val(r@) == n,
        r@.len() >= 1,
        r@[0] != '0' || n == 0,
        n < 10 ==> r@.len() == 1,
        n < 100 ==> r@.len() <= 2,
        n < 1000 ==> r@.len() <= 3,
    decreases n,
{
    if n < 10 {
        let s = digit_str(n as u8).to_owned();
        proof {
            assert(s@.drop_last() =~= Seq::<char>::empty());
            assert(dec_val(Seq::<char>::empty()) == 0);
            assert(s@.last() == s@[0]);
            assert(dec_val(s@) == n);
        }
        s
    } else {
        let prefix = dec_render(n / 10);
        let r = prefix.concat(digit_str((n % 10) as u8));
        proof {
            assert(r@.drop_last() =~= prefix@);
            assert(r@.last() as int == 48 + (n % 10));
            assert(r@[0] == prefix@[0]);
        }
        r
    }
}

/// Renders a number in lower-case hex, without leading zeros.
pub fn hex_render(n: u16) -> (r: String)
    ensures
        all_hex_digits(r@),
        hex_val(r@) == n,
        1 <= r@.len() <= 4,
        r@[0] != '0' || n == 0,
    decreases n,
{
    if n < 16 {
        let s = digit_str(n as u8).to_owned();
        proof {
            assert(s@.drop_last() =~= Seq::<char>::empty());
            assert(hex_val(Seq::<char>::empty()) == 0);
            assert(s@.last() == s@[0]);
            assert(hex_val(s@) == n);
        }
        s
    } else {
        let prefix = hex_render(n / 16);
        let d = (n % 16) as u8;
        let r = prefix.concat(digit_str(d));
        proof {
            assert(r@.drop_last() =~= prefix@);
            assert(r@.last() as int == if d < 10 {
                48 + d as int
            } else {
                87 + d as int
            });
            assert(is_hex_digit(r@.last()));
            assert(hex_val(prefix@) == n / 16);
            assert(n / 16 < 4096);
            assert(prefix@.len() <= 3) by {
                if prefix@.len() == 4 {
                    lemma_hex_val_bound(prefix@);
                    assert(pow16(3) == 4096) by {
                        assert(pow16(0) == 1);
                        assert(pow16(1) == 16);
                        assert(pow16(2) == 256);
                    }
                    assert(hex_val(prefix@) >= pow16(3)) by {
                        assert(prefix@.drop_last().len() == 3);
                        lemma_hex_min(prefix@);
                    }
                }
            }
        }
        r
    }
}

/// A hex string whose first digit is nonzero is at least 16^(len-1).
proof fn lemma_hex_min(s: Seq<char>)
    requires
        all_hex_digits(s),
        s.len() >= 1,
        s[0] != '0',
    ensures
        hex_val(s) >= pow16((s.len() - 1) as nat),
    decreases s.len(),
{
    assert('0' as int == 48);
    if s.len() == 1 {
        assert(hex_val(s) == 16 * hex_val(s.drop_last()) + hex_digit_val(s[0]));
        assert(s.drop_last() =~= Seq::<char>::empty());
        assert(hex_digit_val(s[0]) >= 1);
    } else {
        assert(all_hex_digits(s.drop_last()));
        assert(s.drop_last()[0] == s[0]);
        lemma_hex_min(s.drop_last());
        lemma_hex_val_bound(s.drop_last());
        assert(hex_digit_val(s.last()) >= 0);
    }
}

impl IpAddress {
    /// Renders the address as text: dotted decimal for IPv4; for IPv6 eight
    /// lower-case hex groups joined by `:`, never the `::` shorthand. The
    /// text parses back to the same address.
    #[verifier::rlimit(100)]
    pub fn to_text(&self) -> (r: String)
        ensures
            ip_of_text(r@) == Some(*self),
            *self is V6 ==> split_on_spec(r@, ':').len() == 8,
    {
        proof {
            reveal_strlit(".");
            assert("."@ =~= seq!['.']);
            reveal_strlit(":");
            assert(":"@ =~= seq![':']);
        }
        match self {
            IpAddress::V4(a, b, c, d) => {
                let t0 = dec_render(*a as u32);
                let t1 = dec_render(*b as u32);
                let t2 = dec_render(*c as u32);
                let t3 = dec_render(*d as u32);
                let r = t0.clone().concat(".").concat(t1.as_str()).concat(".").concat(
                    t2.as_str(),
                ).concat(".").concat(t3.as_str());
                proof {
                    lemma_octet_render(t0@, *a);
                    lemma_octet_render(t1@, *b);
                    lemma_octet_render(t2@, *c);
                    lemma_octet_render(t3@, *d);
                    let a1 = t0@ + seq!['.'] + t1@;
                    let a2 = a1 + seq!['.'] + t2@;
                    let a3 = a2 + seq!['.'] + t3@;
                    assert(r@ == a3);
                    lemma_split_no_sep(t0@, '.');
                    lemma_split_no_sep(t1@, '.');
                    lemma_split_no_sep(t2@, '.');
                    lemma_split_no_sep(t3@, '.');
                    lemma_split_concat(t0@, t1@, '.');
                    lemma_split_concat(a1, t2@, '.');
                    lemma_split_concat(a2, t3@, '.');
                    assert(split_on_spec(a3, '.') =~~= seq![t0@, t1@, t2@, t3@]);
                    assert(ipv4_of_text(r@) == Some(*self));
                }
                r
            },
            IpAddress::V6(g0, g1, g2, g3, g4, g5, g6, g7) => {
                let t0 = hex_render(*g0);
                let t1 = hex_render(*g1);
                let t2 = hex_render(*g2);
                let t3 = hex_render(*g3);
                let t4 = hex_render(*g4);
                let t5 = hex_render(*g5);
                let t6 = hex_render(*g6);
                let t7 = hex_render(*g7);
                let r = t0.clone().concat(":").concat(t1.as_str()).concat(":").concat(
                    t2.as_str(),
                ).concat(":").concat(t3.as_str()).concat(":").concat(t4.as_str()).concat(
                    ":",
                ).concat(t5.as_str()).concat(":").concat(t6.as_str()).concat(":").concat(
                    t7.as_str(),
                );
                proof {
                    lemma_group_render(t0@);
                    lemma_group_render(t1@);
                    lemma_group_render(t2@);
                    lemma_group_render(t3@);
                    lemma_group_render(t4@);
                    lemma_group_render(t5@);
                    lemma_group_render(t6@);
                    lemma_group_render(t7@);
                    let a1 = t0@ + seq![':'] + t1@;
                    let a2 = a1 + seq![':'] + t2@;
                    let a3 = a2 + seq![':'] + t3@;
                    let a4 = a3 + seq![':'] + t4@;
                    let a5 = a4 + seq![':'] + t5@;
                    let a6 = a5 + seq![':'] + t6@;
                    let a7 = a6 + seq![':'] + t7@;
                    assert(r@ == a7);
                    lemma_split_no_sep(t0@, ':');
                    lemma_split_no_sep(t1@, ':');
                    lemma_split_concat(t0@, t1@, ':');
                    lemma_split_no_sep(t2@, ':');
                    lemma_split_concat(a1, t2@, ':');
                    lemma_split_no_sep(t3@, ':');
                    lemma_split_concat(a2, t3@, ':');
                    lemma_split_no_sep(t4@, ':');
                    lemma_split_concat(a3, t4@, ':');
                    lemma_split_no_sep(t5@, ':');
                    lemma_split_concat(a4, t5@, ':');
                    lemma_split_no_sep(t6@, ':');
                    lemma_split_concat(a5, t6@, ':');
                    lemma_split_no_sep(t7@, ':');
                    lemma_split_concat(a6, t7@, ':');
                    let parts = seq![t0@, t1@, t2@, t3@, t4@, t5@, t6@, t7@];
                    assert(split_on_spec(a7, ':') =~~= parts);
                    assert(all_hex_groups(parts, 0, 8));
                    assert(groups_vals(parts, 0, 8) =~= seq![
                        *g0,
                        *g1,
                        *g2,
                        *g3,
                        *g4,
                        *g5,
                        *g6,
                        *g7,
                    ]);
                    assert(ipv6_of_text(r@) == Some(*self));
                    lemma_ip_reading_unambiguous(r@);
                }
                r
            },
        }
    }
}

/// A rendered octet has no `.` in it and is valid octet text.
proof fn lemma_octet_render(t: Seq<char>, v: u8)
    requires
        all_dec_digits(t),
        dec_val(t) == v,
        t.len() >= 1,
        t[0] != '0' || v == 0,
        v < 10 ==> t.len() == 1,
        t.len() <= 3,
    ensures
        is_octet_text(t),
        forall|i: int| 0 <= i < t.len() ==> #[trigger] t[i] != '.',
{
    assert('.' as int == 46);
    assert('0' as int == 48);
    assert forall|i: int| 0 <= i < t.len() implies #[trigger] t[i] != '.' by {
        assert(is_dec_digit(t[i]));
    }
    if t.len() > 1 {
        assert(v >= 10);
        assert(t[0] != '0');
    }
}

/// A rendered hex group has no `:` in it and is a valid group.
proof fn lemma_group_render(t: Seq<char>)
    requires
        all_hex_digits(t),
        1 <= t.len() <= 4,
    ensures
        is_hex_group(t),
        forall|i: int| 0 <= i < t.len() ==> #[trigger] t[i] != ':',
{
    assert(':' as int == 58);
    assert forall|i: int| 0 <= i < t.len() implies #[trigger] t[i] != ':' by {
        assert(is_hex_digit(t[i]));
    }
}

/// Parses a textual IP literal, IPv4 or IPv6.
pub fn parse_ip(s: &str) -> (r: Option<IpAddress>)
    ensures
        r == ip_of_text(s@),
{
    match parse_ipv4(s) {
        Some(a) => Some(a),
        None => parse_ipv6(s),
    }
}

} // verus!
