//! Character-level primitives shared by the parsers: decimal and hexadecimal
//! digits, ASCII-case-insensitive comparison, and splitting a string on a
//! separator character.

use vstd::prelude::*;

verus! {

/// `c` is an ASCII decimal digit `'0'..='9'` (codes 48..=57).
pub open spec fn is_dec_digit(c: char) -> bool {
    48 <= c as int && c as int <= 57
}

/// Numeric value of a decimal digit.
pub open spec fn dec_digit_val(c: char) -> int {
    c as int - 48
}

pub open spec fn all_dec_digits(s: Seq<char>) -> bool {
    forall|i: int| 0 <= i < s.len() ==> is_dec_digit(#[trigger] s[i])
}

/// Value of a sequence of decimal digits read most-significant first.
pub open spec fn dec_val(s: Seq<char>) -> int
    decreases s.len(),
{
    if s.len() == 0 {
        0
    } else {
        10 * dec_val(s.drop_last()) + dec_digit_val(s.last())
    }
}

/// `c` is an ASCII hexadecimal digit (`0-9`, `a-f`, `A-F`).
pub open spec fn is_hex_digit(c: char) -> bool {
    is_dec_digit(c) || (97 <= c as int && c as int <= 102) || (65 <= c as int && c as int <= 70)
}

/// Numeric value of a hexadecimal digit.
pub open spec fn hex_digit_val(c: char) -> int {
    if is_dec_digit(c) {
        c as int - 48
    } else if 97 <= c as int && c as int <= 102 {
        c as int - 87
    } else {
        c as int - 55
    }
}

pub open spec fn all_hex_digits(s: Seq<char>) -> bool {
    forall|i: int| 0 <= i < s.len() ==> is_hex_digit(#[trigger] s[i])
}

/// Value of a sequence of hexadecimal digits read most-significant first.
pub open spec fn hex_val(s: Seq<char>) -> int
    decreases s.len(),
{
    if s.len() == 0 {
        0
    } else {
        16 * hex_val(s.drop_last()) + hex_digit_val(s.last())
    }
}

pub open spec fn pow10(n: nat) -> int
    decreases n,
{
    if n == 0 {
        1
    } else {
        10 * pow10((n - 1) as nat)
    }
}

pub open spec fn pow16(n: nat) -> int
    decreases n,
{
    if n == 0 {
        1
    } else {
        16 * pow16((n - 1) as nat)
    }
}

/// A digit string's value is non-negative and below 10^len.
pub proof fn lemma_dec_val_bound(s: Seq<char>)
    requires
        all_dec_digits(s),
    ensures
        0 <= dec_val(s) < pow10(s.len()),
    decreases s.len(),
{
    if s.len() > 0 {
        assert(all_dec_digits(s.drop_last()));
        lemma_dec_val_bound(s.drop_last());
    }
}

/// A hex-digit string's value is non-negative and below 16^len.
pub proof fn lemma_hex_val_bound(s: Seq<char>)
    requires
        all_hex_digits(s),
    ensures
        0 <= hex_val(s) < pow16(s.len()),
    decreases s.len(),
{
    if s.len() > 0 {
        assert(all_hex_digits(s.drop_last()));
        lemma_hex_val_bound(s.drop_last());
    }
}

/// Reading more digits can only increase the value.
pub proof fn lemma_dec_val_prefix_le(s: Seq<char>, i: int)
    requires
        all_dec_digits(s),
        0 <= i <= s.len(),
    ensures
        dec_val(s.take(i)) <= dec_val(s),
    decreases s.len() - i,
{
    if i < s.len() {
        assert(all_dec_digits(s.take(i)));
        lemma_dec_val_bound(s.take(i));
        assert(s.take(i + 1).drop_last() =~= s.take(i));
        assert(s.take(i + 1).last() == s[i]);
        lemma_dec_val_prefix_le(s, i + 1);
    } else {
        assert(s.take(i) =~= s);
    }
}

/// `a` and `b` are the same letter up to ASCII case.
pub open spec fn same_char_ci(a: char, b: char) -> bool {
    a == b || (65 <= a as int <= 90 && b as int == a as int + 32) || (65 <= b as int <= 90
        && a as int == b as int + 32)
}

/// `a` and `b` are equal up to ASCII case, position by position.
pub open spec fn eq_ci(a: Seq<char>, b: Seq<char>) -> bool {
    a.len() == b.len() && forall|i: int| 0 <= i < a.len() ==> same_char_ci(#[trigger] a[i], b[i])
}

/// ASCII-case-insensitive string comparison.
pub fn chars_eq_ci(a: &str, b: &str) -> (r: bool)
    ensures
        r == eq_ci(a@, b@),
{
    let na = a.unicode_len();
    let nb = b.unicode_len();
    if na != nb {
        return false;
    }
    let mut i: usize = 0;
    while i < na
        invariant
            na == a@.len(),
            nb == b@.len(),
            na == nb,
            0 <= i <= na,
            forall|j: int| 0 <= j < i ==> same_char_ci(#[trigger] a@[j], b@[j]),
        decreases na - i,
    {
        let x = a.get_char(i) as u32;
        let y = b.get_char(i) as u32;
        let xf = if 65 <= x && x <= 90 {
            x + 32
        } else {
            x
        };
        let yf = if 65 <= y && y <= 90 {
            y + 32
        } else {
            y
        };
        if xf != yf {
            assert(!same_char_ci(a@[i as int], b@[i as int]));
            return false;
        }
        assert(same_char_ci(a@[i as int], b@[i as int]));
        i += 1;
    }
    true
}

/// Splitting a string on a separator character: the parts between the
/// separators, in order. A string without the separator is one part; `n`
/// separators give `n + 1` parts, empty parts included.
pub open spec fn split_on_spec(s: Seq<char>, sep: char) -> Seq<Seq<char>>
    decreases s.len(),
{
    if s.len() == 0 {
        seq![Seq::<char>::empty()]
    } else if s[0] == sep {
        seq![Seq::<char>::empty()] + split_on_spec(s.drop_first(), sep)
    } else {
        let rest = split_on_spec(s.drop_first(), sep);
        seq![seq![s[0]] + rest[0]] + rest.drop_first()
    }
}

pub proof fn lemma_split_len(s: Seq<char>, sep: char)
    ensures
        split_on_spec(s, sep).len() >= 1,
    decreases s.len(),
{
    if s.len() > 0 {
        lemma_split_len(s.drop_first(), sep);
    }
}

/// Appending a non-separator character extends the last part.
pub proof fn lemma_split_push_char(s: Seq<char>, sep: char, c: char)
    requires
        c != sep,
    ensures
        split_on_spec(s, sep).len() >= 1,
        split_on_spec(s.push(c), sep) == split_on_spec(s, sep).update(
            split_on_spec(s, sep).len() - 1,
            split_on_spec(s, sep).last().push(c),
        ),
    decreases s.len(),
{
    lemma_split_len(s, sep);
    if s.len() == 0 {
        assert(s.push(c).drop_first() =~= Seq::<char>::empty());
        assert(s.push(c)[0] == c);
        assert(split_on_spec(Seq::<char>::empty(), sep) == seq![Seq::<char>::empty()]);
        assert(split_on_spec(s.push(c), sep) =~~= split_on_spec(s, sep).update(
            0,
            split_on_spec(s, sep).last().push(c),
        ));
    } else {
        lemma_split_len(s.drop_first(), sep);
        lemma_split_push_char(s.drop_first(), sep, c);
        assert(s.push(c).drop_first() =~= s.drop_first().push(c));
        assert(s.push(c)[0] == s[0]);
        if s[0] == sep {
            assert(split_on_spec(s.push(c), sep) =~~= split_on_spec(s, sep).update(
                split_on_spec(s, sep).len() - 1,
                split_on_spec(s, sep).last().push(c),
            ));
        } else {
            let rest = split_on_spec(s.drop_first(), sep);
            let restp = split_on_spec(s.drop_first().push(c), sep);
            if rest.len() == 1 {
                assert(restp == rest.update(rest.len() - 1, rest.last().push(c)));
                assert(restp[0] == rest[0].push(c));
                assert(seq![s[0]] + rest[0].push(c) =~= (seq![s[0]] + rest[0]).push(c));
                assert(split_on_spec(s.push(c), sep) =~~= split_on_spec(s, sep).update(
                    split_on_spec(s, sep).len() - 1,
                    split_on_spec(s, sep).last().push(c),
                ));
            } else {
                assert(restp == rest.update(rest.len() - 1, rest.last().push(c)));
                assert(restp[0] == rest[0]);
                assert(split_on_spec(s.push(c), sep) =~~= split_on_spec(s, sep).update(
                    split_on_spec(s, sep).len() - 1,
                    split_on_spec(s, sep).last().push(c),
                ));
            }
        }
    }
}

/// Appending the separator adds one empty part at the end.
pub proof fn lemma_split_push_sep(s: Seq<char>, sep: char)
    ensures
        split_on_spec(s.push(sep), sep) == split_on_spec(s, sep).push(Seq::<char>::empty()),
    decreases s.len(),
{
    lemma_split_len(s, sep);
    if s.len() == 0 {
        assert(s.push(sep)[0] == sep);
        assert(s.push(sep).drop_first() =~= Seq::<char>::empty());
        assert(split_on_spec(Seq::<char>::empty(), sep) == seq![Seq::<char>::empty()]);
        assert(split_on_spec(s.push(sep), sep) =~~= split_on_spec(s, sep).push(
            Seq::<char>::empty(),
        ));
    } else {
        lemma_split_len(s.drop_first(), sep);
        lemma_split_push_sep(s.drop_first(), sep);
        assert(s.push(sep).drop_first() =~= s.drop_first().push(sep));
        assert(s.push(sep)[0] == s[0]);
        if s[0] == sep {
            assert(split_on_spec(s.push(sep), sep) =~~= split_on_spec(s, sep).push(
                Seq::<char>::empty(),
            ));
        } else {
            let rest = split_on_spec(s.drop_first(), sep);
            let restp = split_on_spec(s.drop_first().push(sep), sep);
            assert(restp == rest.push(Seq::<char>::empty()));
            assert(restp[0] == rest[0]);
            assert(split_on_spec(s.push(sep), sep) =~~= split_on_spec(s, sep).push(
                Seq::<char>::empty(),
            ));
        }
    }
}

/// A string without the separator splits into exactly itself.
pub proof fn lemma_split_no_sep(s: Seq<char>, sep: char)
    requires
        forall|i: int| 0 <= i < s.len() ==> #[trigger] s[i] != sep,
    ensures
        split_on_spec(s, sep) == seq![s],
    decreases s.len(),
{
    if s.len() == 0 {
        assert(split_on_spec(s, sep) =~~= seq![s]);
    } else {
        assert(forall|i: int|
            0 <= i < s.drop_first().len() ==> #[trigger] s.drop_first()[i] != sep);
        lemma_split_no_sep(s.drop_first(), sep);
        assert(seq![s[0]] + s.drop_first() =~= s);
        assert(split_on_spec(s, sep) =~~= seq![s]);
    }
}

/// Splitting distributes over a separator between two halves.
pub proof fn lemma_split_concat(a: Seq<char>, b: Seq<char>, sep: char)
    ensures
        split_on_spec(a + seq![sep] + b, sep) == split_on_spec(a, sep) + split_on_spec(b, sep),
    decreases a.len(),
{
    if a.len() == 0 {
        assert((a + seq![sep] + b)[0] == sep);
        assert((a + seq![sep] + b).drop_first() =~= b);
        assert(split_on_spec(a + seq![sep] + b, sep) =~~= split_on_spec(a, sep) + split_on_spec(
            b,
            sep,
        ));
    } else {
        lemma_split_concat(a.drop_first(), b, sep);
        lemma_split_len(a.drop_first(), sep);
        lemma_split_len(b, sep);
        assert((a + seq![sep] + b)[0] == a[0]);
        assert((a + seq![sep] + b).drop_first() =~= a.drop_first() + seq![sep] + b);
        if a[0] == sep {
            assert(split_on_spec(a + seq![sep] + b, sep) =~~= split_on_spec(a, sep)
                + split_on_spec(b, sep));
        } else {
            let rest = split_on_spec(a.drop_first() + seq![sep] + b, sep);
            let ra = split_on_spec(a.drop_first(), sep);
            assert(rest == ra + split_on_spec(b, sep));
            assert(ra.len() >= 1);
            assert(rest[0] == ra[0]);
            assert(split_on_spec(a + seq![sep] + b, sep) =~~= split_on_spec(a, sep)
                + split_on_spec(b, sep));
        }
    }
}

/// A string that splits into two or more parts contains the separator.
pub proof fn lemma_split_multi_has_sep(s: Seq<char>, sep: char)
    requires
        split_on_spec(s, sep).len() >= 2,
    ensures
        s.contains(sep),
    decreases s.len(),
{
    if s.len() > 0 {
        if s[0] == sep {
        } else {
            lemma_split_multi_has_sep(s.drop_first(), sep);
            let i = choose|i: int| 0 <= i < s.drop_first().len() && s.drop_first()[i] == sep;
            assert(s[i + 1] == sep);
        }
    }
}

/// Joins parts with a separator: the inverse of splitting.
pub open spec fn join_with(parts: Seq<Seq<char>>, sep: char) -> Seq<char>
    decreases parts.len(),
{
    if parts.len() == 0 {
        Seq::empty()
    } else if parts.len() == 1 {
        parts[0]
    } else {
        parts[0] + seq![sep] + join_with(parts.drop_first(), sep)
    }
}

/// Joining the parts of a split restores the string.
pub proof fn lemma_split_join(s: Seq<char>, sep: char)
    ensures
        join_with(split_on_spec(s, sep), sep) == s,
    decreases s.len(),
{
    if s.len() == 0 {
        assert(join_with(split_on_spec(s, sep), sep) =~= s);
    } else if s[0] == sep {
        lemma_split_join(s.drop_first(), sep);
        lemma_split_len(s.drop_first(), sep);
        let parts = split_on_spec(s, sep);
        assert(parts.drop_first() =~~= split_on_spec(s.drop_first(), sep));
        assert(join_with(parts, sep) =~= s);
    } else {
        lemma_split_join(s.drop_first(), sep);
        lemma_split_len(s.drop_first(), sep);
        let r = split_on_spec(s.drop_first(), sep);
        let parts = split_on_spec(s, sep);
        if r.len() == 1 {
            assert(parts.len() == 1);
            assert(parts[0] =~= seq![s[0]] + r[0]);
            assert(join_with(parts, sep) =~= s);
        } else {
            assert(parts.drop_first() =~~= r.drop_first());
            assert(join_with(parts, sep) =~= seq![s[0]] + join_with(r, sep));
            assert(seq![s[0]] + s.drop_first() =~= s);
        }
    }
}

/// Splits a string on a separator character into its parts.
pub fn split_on(s: &str, sep: char) -> (parts: Vec<String>)
    ensures
        parts@.len() >= 1,
        parts@.map_values(|p: String| p@) == split_on_spec(s@, sep),
{
    let n = s.unicode_len();
    let mut parts: Vec<String> = Vec::new();
    let mut start: usize = 0;
    let mut i: usize = 0;
    proof {
        assert(s@.take(0) =~= Seq::<char>::empty());
        assert(parts@.map_values(|p: String| p@) + seq![s@.subrange(0, 0)] =~~= split_on_spec(
            s@.take(0),
            sep,
        ));
    }
    while i < n
        invariant
            n == s@.len(),
            0 <= start <= i <= n,
            parts@.map_values(|p: String| p@) + seq![s@.subrange(start as int, i as int)]
                =~~= split_on_spec(s@.take(i as int), sep),
        decreases n - i,
    {
        let c = s.get_char(i);
        proof {
            assert(s@.take(i + 1) =~= s@.take(i as int).push(s@[i as int]));
        }
        if c == sep {
            let part = s.substring_char(start, i).to_owned();
            proof {
                lemma_split_push_sep(s@.take(i as int), sep);
                assert(part@ == s@.subrange(start as int, i as int));
            }
            parts.push(part);
            proof {
                assert(parts@.map_values(|p: String| p@) + seq![
                    s@.subrange(i + 1, i + 1),
                ] =~~= split_on_spec(s@.take(i + 1), sep));
            }
            start = i + 1;
        } else {
            proof {
                lemma_split_push_char(s@.take(i as int), sep, s@[i as int]);
                assert(s@.subrange(start as int, i as int).push(s@[i as int]) =~= s@.subrange(
                    start as int,
                    i + 1,
                ));
                assert(parts@.map_values(|p: String| p@) + seq![
                    s@.subrange(start as int, i + 1),
                ] =~~= split_on_spec(s@.take(i + 1), sep));
            }
        }
        i += 1;
    }
    let last = s.substring_char(start, n).to_owned();
    proof {
        assert(s@.take(n as int) =~= s@);
        assert(last@ == s@.subrange(start as int, n as int));
    }
    parts.push(last);
    proof {
        assert(parts@.map_values(|p: String| p@) =~~= split_on_spec(s@, sep));
    }
    parts
}

} // verus!
