//! Verified value validators for the rule kinds a node's metadata may
//! carry: string length and fragment, bounded decimal integers, IPv4
//! addresses, CIDR prefixes, MAC addresses, ports, booleans and
//! enumerations.

use vstd::prelude::*;

use crate::model::{opt_view, strs_view, ConfigNodeType, ValidationRule};
use crate::tree::{lemma_filter_step, ConfigEntry, ConfigTree};

verus! {

/// Decimal digit.
pub open spec fn is_digit(c: char) -> bool {
    48 <= c as u32 <= 57
}

/// Numeric value of a decimal digit.
pub open spec fn digit_val(c: char) -> int {
    c as u32 - 48
}

/// Hexadecimal digit, either case.
pub open spec fn is_hex_digit(c: char) -> bool {
    is_digit(c) || 97 <= c as u32 <= 102 || 65 <= c as u32 <= 70
}

/// One or more decimal digits and nothing else.
pub open spec fn all_digits(s: Seq<char>) -> bool {
    forall|i: int| 0 <= i < s.len() ==> is_digit(#[trigger] s[i])
}

/// Value of a digit string read as a decimal number.
pub open spec fn dec_value(s: Seq<char>) -> int
    decreases s.len(),
{
    if s.len() == 0 {
        0
    } else {
        dec_value(s.drop_last()) * 10 + digit_val(s.last())
    }
}

pub open spec fn pow10(n: nat) -> int
    decreases n,
{
    if n == 0 {
        1
    } else {
        10 * pow10((n - 1) as nat)
    }
}

pub proof fn lemma_dec_value_bounds(s: Seq<char>)
    requires
        all_digits(s),
    ensures
        0 <= dec_value(s) < pow10(s.len()),
    decreases s.len(),
{
    if s.len() > 0 {
        assert(all_digits(s.drop_last())) by {
            assert(forall|i: int|
                0 <= i < s.len() - 1 ==> s.drop_last()[i] == #[trigger] s[i]);
        }
        lemma_dec_value_bounds(s.drop_last());
        assert(is_digit(s.last()));
    }
}

/// Positions in `s`, from `from` on, that hold the character `c`,
/// in increasing order.
pub open spec fn positions_of(s: Seq<char>, c: char, from: int) -> Seq<int>
    decreases s.len() - from,
{
    if from < 0 || from >= s.len() {
        Seq::empty()
    } else if s[from] == c {
        seq![from] + positions_of(s, c, from + 1)
    } else {
        positions_of(s, c, from + 1)
    }
}

/// Collect the positions of `c` in `s`.
pub fn find_positions(s: &str, c: char) -> (r: Vec<usize>)
    ensures
        r@.map_values(|u: usize| u as int) == positions_of(s@, c, 0),
        forall|j: int| 0 <= j < r@.len() ==> (#[trigger] r@[j]) < s@.len(),
{
    let n = s.unicode_len();
    let mut r: Vec<usize> = Vec::new();
    let mut i: usize = 0;
    while i < n
        invariant
            i <= n,
            n == s@.len(),
            positions_of(s@, c, 0) == r@.map_values(|u: usize| u as int) + positions_of(
                s@,
                c,
                i as int,
            ),
            forall|j: int| 0 <= j < r@.len() ==> (#[trigger] r@[j]) < i,
        decreases n - i,
    {
        let ch = s.get_char(i);
        if ch == c {
            let ghost prev = r@;
            r.push(i);
            proof {
                assert(r@.map_values(|u: usize| u as int) =~= prev.map_values(|u: usize| u as int)
                    + seq![i as int]);
                assert(seq![i as int] + positions_of(s@, c, i + 1) == positions_of(
                    s@,
                    c,
                    i as int,
                ));
            }
        }
        i = i + 1;
    }
    proof {
        assert(positions_of(s@, c, n as int) =~= Seq::<int>::empty());
        assert(r@.map_values(|u: usize| u as int) + Seq::<int>::empty() =~= r@.map_values(
            |u: usize| u as int,
        ));
    }
    r
}

/// Check that `s[from..to]` consists of decimal digits only.
pub fn check_digits(s: &str, from: usize, to: usize) -> (r: bool)
    requires
        from <= to <= s@.len(),
    ensures
        r == all_digits(s@.subrange(from as int, to as int)),
{
    let ghost sub = s@.subrange(from as int, to as int);
    let mut i: usize = from;
    while i < to
        invariant
            from <= i <= to <= s@.len(),
            sub == s@.subrange(from as int, to as int),
            forall|j: int| 0 <= j < i - from ==> is_digit(#[trigger] sub[j]),
        decreases to - i,
    {
        let c = s.get_char(i);
        let u = c as u32;
        if u < 48 || u > 57 {
            proof {
                assert(sub[i - from] == c);
            }
            return false;
        }
        proof {
            assert(sub[i - from] == c);
        }
        i = i + 1;
    }
    true
}

/// Value of the digit run `s[from..to]`, at most nine digits long.
pub fn dec_value_range(s: &str, from: usize, to: usize) -> (v: u32)
    requires
        from <= to <= s@.len(),
        to - from <= 9,
        all_digits(s@.subrange(from as int, to as int)),
    ensures
        v == dec_value(s@.subrange(from as int, to as int)),
{
    let ghost sub = s@.subrange(from as int, to as int);
    let mut acc: u32 = 0;
    let mut i: usize = from;
    while i < to
        invariant
            from <= i <= to <= s@.len(),
            to - from <= 9,
            sub == s@.subrange(from as int, to as int),
            all_digits(sub),
            acc == dec_value(sub.take(i - from)),
        decreases to - i,
    {
        proof {
            assert(forall|j: int|
                0 <= j < i - from + 1 ==> sub.take(i - from + 1)[j] == #[trigger] sub[j]);
            assert(all_digits(sub.take(i - from + 1)));
            lemma_dec_value_bounds(sub.take(i - from + 1));
            assert(sub.take(i - from + 1).drop_last() =~= sub.take(i - from));
            assert(sub.take(i - from + 1).last() == sub[i - from]);
            assert(pow10(9) == 1000000000) by {
                reveal_with_fuel(pow10, 10);
            }
            assert(pow10(sub.take(i - from + 1).len()) <= pow10(9)) by {
                lemma_pow10_mono(sub.take(i - from + 1).len(), 9);
            }
        }
        let c = s.get_char(i);
        proof {
            assert(sub[i - from] == c);
        }
        let d = c as u32 - 48;
        acc = acc * 10 + d;
        i = i + 1;
    }
    proof {
        assert(sub.take(to - from) =~= sub);
    }
    acc
}

pub proof fn lemma_pow10_mono(a: nat, b: nat)
    requires
        a <= b,
    ensures
        pow10(a) <= pow10(b),
        pow10(a) >= 1,
    decreases b,
{
    if a < b {
        lemma_pow10_mono(a, (b - 1) as nat);
    } else if b > 0 {
        lemma_pow10_mono((a - 1) as nat, (b - 1) as nat);
    }
}

/// A dotted-quad field: one to three digits, value at most 255.
pub open spec fn is_octet(s: Seq<char>) -> bool {
    &&& 1 <= s.len() <= 3
    &&& all_digits(s)
    &&& dec_value(s) <= 255
}

/// Check that `s[from..to]` is an octet.
pub fn check_octet(s: &str, from: usize, to: usize) -> (r: bool)
    requires
        from <= to <= s@.len(),
    ensures
        r == is_octet(s@.subrange(from as int, to as int)),
{
    if to - from < 1 || to - from > 3 {
        return false;
    }
    if !check_digits(s, from, to) {
        return false;
    }
    let v = dec_value_range(s, from, to);
    v <= 255
}

/// An IPv4 address: four octets separated by single dots.
pub open spec fn is_ipv4(s: Seq<char>) -> bool {
    let dots = positions_of(s, '.', 0);
    &&& dots.len() == 3
    &&& is_octet(s.subrange(0, dots[0]))
    &&& is_octet(s.subrange(dots[0] + 1, dots[1]))
    &&& is_octet(s.subrange(dots[1] + 1, dots[2]))
    &&& is_octet(s.subrange(dots[2] + 1, s.len() as int))
}

pub proof fn lemma_positions_increase(s: Seq<char>, c: char, from: int)
    ensures
        forall|j: int, k: int|
            0 <= j < k < positions_of(s, c, from).len() ==> #[trigger] positions_of(s, c, from)[j]
                < #[trigger] positions_of(s, c, from)[k],
        forall|j: int|
            0 <= j < positions_of(s, c, from).len() ==> from <= #[trigger] positions_of(
                s,
                c,
                from,
            )[j] < s.len(),
    decreases s.len() - from,
{
    if 0 <= from < s.len() {
        lemma_positions_increase(s, c, from + 1);
        let tail = positions_of(s, c, from + 1);
        if s[from] == c {
            let whole = seq![from] + tail;
            assert(positions_of(s, c, from) == whole);
            assert forall|j: int| 0 <= j < whole.len() implies from <= #[trigger] whole[j]
                < s.len() by {
                if j > 0 {
                    assert(whole[j] == tail[j - 1]);
                }
            }
            assert forall|j: int, k: int| 0 <= j < k < whole.len() implies #[trigger] whole[j]
                < #[trigger] whole[k] by {
                assert(whole[k] == tail[k - 1]);
                if j > 0 {
                    assert(whole[j] == tail[j - 1]);
                }
            }
        }
    }
}

/// Check that `s` is an IPv4 address.
pub fn check_ipv4(s: &str) -> (r: bool)
    ensures
        r == is_ipv4(s@),
{
    let n = s.unicode_len();
    let dots = find_positions(s, '.');
    proof {
        lemma_positions_increase(s@, '.', 0);
    }
    if dots.len() != 3 {
        return false;
    }
    let d0 = dots[0];
    let d1 = dots[1];
    let d2 = dots[2];
    proof {
        assert(positions_of(s@, '.', 0)[0] == d0 as int);
        assert(positions_of(s@, '.', 0)[1] == d1 as int);
        assert(positions_of(s@, '.', 0)[2] == d2 as int);
    }
    if !check_octet(s, 0, d0) {
        return false;
    }
    if !check_octet(s, d0 + 1, d1) {
        return false;
    }
    if !check_octet(s, d1 + 1, d2) {
        return false;
    }
    check_octet(s, d2 + 1, n)
}

/// A CIDR form: an IPv4 address, one slash, and a prefix length of at
/// most 32 written with one or two digits.
pub open spec fn is_cidr(s: Seq<char>) -> bool {
    let slashes = positions_of(s, '/', 0);
    &&& slashes.len() == 1
    &&& is_ipv4(s.subrange(0, slashes[0]))
    &&& is_prefix_len(s.subrange(slashes[0] + 1, s.len() as int))
}

/// Prefix length field: one or two digits, value at most 32.
pub open spec fn is_prefix_len(s: Seq<char>) -> bool {
    &&& 1 <= s.len() <= 2
    &&& all_digits(s)
    &&& dec_value(s) <= 32
}

pub proof fn lemma_positions_none_past(s: Seq<char>, c: char, from: int, to: int)
    requires
        to <= from,
    ensures
        forall|j: int|
            0 <= j < positions_of(s, c, from).len() ==> #[trigger] positions_of(s, c, from)[j]
                >= to,
    decreases s.len() - from,
{
    if 0 <= from < s.len() {
        lemma_positions_none_past(s, c, from + 1, to);
        lemma_positions_increase(s, c, from);
    }
}

/// Check that `s` is a CIDR form.
pub fn check_cidr(s: &str) -> (r: bool)
    ensures
        r == is_cidr(s@),
{
    let n = s.unicode_len();
    let slashes = find_positions(s, '/');
    proof {
        lemma_positions_increase(s@, '/', 0);
    }
    if slashes.len() != 1 {
        return false;
    }
    let sl = slashes[0];
    proof {
        assert(positions_of(s@, '/', 0)[0] == sl as int);
    }
    let ip_part = s.substring_char(0, sl);
    proof {
        assert(ip_part@ == s@.subrange(0, sl as int));
    }
    if !check_ipv4(ip_part) {
        return false;
    }
    if n - sl - 1 < 1 || n - sl - 1 > 2 {
        return false;
    }
    if !check_digits(s, sl + 1, n) {
        return false;
    }
    let v = dec_value_range(s, sl + 1, n);
    v <= 32
}

/// A MAC address: six pairs of hexadecimal digits separated by colons.
pub open spec fn is_mac(s: Seq<char>) -> bool {
    &&& s.len() == 17
    &&& forall|k: int|
        0 <= k < 17 ==> if k % 3 == 2 {
            #[trigger] s[k] == ':'
        } else {
            is_hex_digit(s[k])
        }
}

/// Check that `s` is a MAC address.
pub fn check_mac(s: &str) -> (r: bool)
    ensures
        r == is_mac(s@),
{
    let n = s.unicode_len();
    if n != 17 {
        return false;
    }
    let mut k: usize = 0;
    while k < 17
        invariant
            k <= 17,
            s@.len() == 17,
            forall|j: int|
                0 <= j < k ==> if j % 3 == 2 {
                    #[trigger] s@[j] == ':'
                } else {
                    is_hex_digit(s@[j])
                },
        decreases 17 - k,
    {
        let c = s.get_char(k);
        let u = c as u32;
        if k % 3 == 2 {
            if c != ':' {
                return false;
            }
        } else {
            let hex = (48 <= u && u <= 57) || (97 <= u && u <= 102) || (65 <= u && u <= 70);
            if !hex {
                return false;
            }
        }
        k = k + 1;
    }
    true
}

/// A port: up to five digits, value at most 65535.
pub open spec fn is_port(s: Seq<char>) -> bool {
    &&& 1 <= s.len() <= 5
    &&& all_digits(s)
    &&& dec_value(s) <= 65535
}

/// Check that `s` is a port number.
pub fn check_port(s: &str) -> (r: bool)
    ensures
        r == is_port(s@),
{
    let n = s.unicode_len();
    if n < 1 || n > 5 {
        return false;
    }
    if !check_digits(s, 0, n) {
        return false;
    }
    proof {
        assert(s@.subrange(0, n as int) =~= s@);
    }
    let v = dec_value_range(s, 0, n);
    v <= 65535
}

/// A boolean literal.
pub open spec fn is_bool_str(s: Seq<char>) -> bool {
    s == "true"@ || s == "false"@
}

/// Check that `s` is a boolean literal.
pub fn check_bool_str(s: &str) -> (r: bool)
    ensures
        r == is_bool_str(s@),
{
    crate::order::str_eq(s, "true") || crate::order::str_eq(s, "false")
}

/// `needle` occurs in `hay` as a contiguous run.
pub open spec fn contains_seq(hay: Seq<char>, needle: Seq<char>) -> bool {
    exists|i: int|
        0 <= i <= hay.len() - needle.len() && #[trigger] hay.subrange(i, i + needle.len())
            == needle
}

/// Check that `needle` occurs in `hay`.
pub fn check_contains(hay: &str, needle: &str) -> (r: bool)
    ensures
        r == contains_seq(hay@, needle@),
{
    let hn = hay.unicode_len();
    let nn = needle.unicode_len();
    if nn > hn {
        return false;
    }
    if nn == 0 {
        proof {
            let zero: int = 0;
            assert(hay@.subrange(zero, zero + needle@.len()) =~= needle@);
            assert(contains_seq(hay@, needle@));
        }
        return true;
    }
    let mut i: usize = 0;
    while i <= hn - nn
        invariant
            1 <= nn <= hn,
            hn == hay@.len(),
            nn == needle@.len(),
            i <= hn - nn + 1,
            forall|a: int| 0 <= a < i ==> #[trigger] hay@.subrange(a, a + nn) != needle@,
        decreases hn + 1 - nn - i,
    {
        let mut j: usize = 0;
        let mut matches = true;
        proof {
            assert(hay@.subrange(i as int, i as int) =~= needle@.subrange(0, 0));
        }
        while j < nn
            invariant
                i + nn <= hn,
                hn == hay@.len(),
                nn == needle@.len(),
                j <= nn,
                matches == (hay@.subrange(i as int, i + j) == needle@.subrange(0, j as int)),
            decreases nn - j,
        {
            let hc = hay.get_char(i + j);
            let nc = needle.get_char(j);
            proof {
                assert(hay@.subrange(i as int, i + j + 1) =~= hay@.subrange(i as int, i + j).push(
                    hc,
                ));
                assert(needle@.subrange(0, j + 1) =~= needle@.subrange(0, j as int).push(nc));
                if hay@.subrange(i as int, i + j) == needle@.subrange(0, j as int) && hc == nc {
                    assert(hay@.subrange(i as int, i + j + 1) == needle@.subrange(0, j + 1));
                }
                if hay@.subrange(i as int, i + j + 1) == needle@.subrange(0, j + 1) {
                    assert(hay@.subrange(i as int, i + j).push(hc) =~= needle@.subrange(
                        0,
                        j as int,
                    ).push(nc));
                    assert(hay@.subrange(i as int, i + j) =~= hay@.subrange(
                        i as int,
                        i + j + 1,
                    ).drop_last());
                    assert(needle@.subrange(0, j as int) =~= needle@.subrange(0, j + 1).drop_last());
                }
            }
            if hc != nc {
                matches = false;
                proof {
                    assert(hay@.subrange(i as int, i + j + 1)[j as int] == hc);
                    assert(needle@.subrange(0, j + 1)[j as int] == nc);
                }
                j = nn;
            } else {
                j = j + 1;
            }
        }
        if matches && j == nn {
            proof {
                assert(needle@.subrange(0, nn as int) =~= needle@);
            }
            return true;
        }
        proof {
            if hay@.subrange(i as int, i + nn) == needle@ {
                assert(needle@.subrange(0, nn as int) =~= needle@);
                assert(false);
            }
        }
        i = i + 1;
    }
    false
}

/// What it means for a value to satisfy a validation rule.
pub open spec fn rule_accepts(rule: ValidationRule, v: Seq<char>) -> bool {
    match rule {
        ValidationRule::String { min_length, max_length, pattern } => {
            &&& match min_length {
                Some(m) => v.len() >= m,
                None => true,
            }
            &&& match max_length {
                Some(m) => v.len() <= m,
                None => true,
            }
            &&& match pattern {
                Some(p) => contains_seq(v, p@),
                None => true,
            }
        },
        ValidationRule::Integer { min, max } => {
            &&& is_i64_str(v)
            &&& match min {
                Some(m) => int_value(v) >= m,
                None => true,
            }
            &&& match max {
                Some(m) => int_value(v) <= m,
                None => true,
            }
        },
        ValidationRule::IpAddress => is_ipv4(v),
        ValidationRule::Cidr => is_cidr(v),
        ValidationRule::MacAddress => is_mac(v),
        ValidationRule::Port => is_port(v),
        ValidationRule::Boolean => is_bool_str(v),
        ValidationRule::Enum { values } => strs_view(values@).contains(v),
    }
}

/// An optional rule accepts a value when absent or satisfied.
pub open spec fn opt_rule_accepts(rule: Option<ValidationRule>, v: Seq<char>) -> bool {
    match rule {
        Some(r) => rule_accepts(r, v),
        None => true,
    }
}

/// A decimal integer, optionally signed.
pub open spec fn is_int_str(s: Seq<char>) -> bool {
    if s.len() > 0 && s[0] == '-' {
        s.len() >= 2 && all_digits(s.drop_first())
    } else {
        s.len() >= 1 && all_digits(s)
    }
}

/// Value of a decimal integer string.
pub open spec fn int_value(s: Seq<char>) -> int {
    if s.len() > 0 && s[0] == '-' {
        -dec_value(s.drop_first())
    } else {
        dec_value(s)
    }
}

/// A decimal integer that fits a 64-bit signed machine word.
pub open spec fn is_i64_str(s: Seq<char>) -> bool {
    &&& is_int_str(s)
    &&& -0x8000000000000000 <= int_value(s) <= 0x7fffffffffffffff
}

/// Parse a decimal integer, rejecting exactly the strings that are not
/// well-formed or do not fit.
pub fn parse_i64(s: &str) -> (r: Option<i64>)
    ensures
        match r {
            Some(v) => is_i64_str(s@) && v as int == int_value(s@),
            None => !is_i64_str(s@),
        },
{
    let n = s.unicode_len();
    if n == 0 {
        return None;
    }
    let neg = s.get_char(0) == '-';
    let start: usize = if neg {
        1
    } else {
        0
    };
    if start == n {
        return None;
    }
    let ghost digits = s@.skip(start as int);
    let limit: u64 = if neg {
        0x8000000000000000
    } else {
        0x7fffffffffffffff
    };
    let mut acc: u64 = 0;
    let mut i: usize = start;
    while i < n
        invariant
            start <= i <= n,
            n == s@.len(),
            start == if neg {
                1int
            } else {
                0int
            },
            neg ==> s@[0] == '-',
            !neg ==> (s@.len() == 0 || s@[0] != '-'),
            start < n,
            digits == s@.skip(start as int),
            limit == if neg {
                0x8000000000000000u64
            } else {
                0x7fffffffffffffffu64
            },
            all_digits(digits.take(i - start)),
            acc == dec_value(digits.take(i - start)),
            acc <= limit,
        decreases n - i,
    {
        let c = s.get_char(i);
        let u = c as u32;
        proof {
            assert(digits[i - start] == s@[i as int]);
            assert(digits.take(i - start + 1).drop_last() =~= digits.take(i - start));
            assert(digits.take(i - start + 1).last() == digits[i - start]);
            assert(forall|j: int|
                0 <= j < i - start ==> digits.take(i - start + 1)[j] == #[trigger] digits.take(
                    i - start,
                )[j]);
        }
        if u < 48 || u > 57 {
            proof {
                if is_int_str(s@) {
                    if neg {
                        assert(s@.drop_first() =~= digits);
                        assert(is_digit(digits[i - start]));
                    } else {
                        assert(digits =~= s@);
                        assert(is_digit(digits[i - start]));
                    }
                }
            }
            return None;
        }
        let d = (u - 48) as u64;
        proof {
            assert(all_digits(digits.take(i - start + 1)));
        }
        if acc > limit / 10 || (acc == limit / 10 && d > limit % 10) {
            proof {
                assert(dec_value(digits.take(i - start + 1)) > limit);
                lemma_value_stays_big(digits, i - start + 1, limit as int);
                if is_i64_str(s@) {
                    if neg {
                        assert(s@.drop_first() =~= digits);
                        assert(int_value(s@) == -dec_value(digits));
                    } else {
                        assert(digits =~= s@);
                        assert(int_value(s@) == dec_value(digits));
                    }
                }
            }
            return None;
        }
        acc = acc * 10 + d;
        i = i + 1;
    }
    proof {
        assert(digits.take(n - start) =~= digits);
        if neg {
            assert(s@.drop_first() =~= digits);
        } else {
            assert(digits =~= s@);
        }
    }
    if neg {
        if acc == 0x8000000000000000 {
            Some(i64::MIN)
        } else {
            Some(-(acc as i64))
        }
    } else {
        Some(acc as i64)
    }
}

/// Once a digit prefix exceeds a bound, the whole string does too.
pub proof fn lemma_value_stays_big(s: Seq<char>, k: int, bound: int)
    requires
        0 <= k <= s.len(),
        all_digits(s.take(k)),
        dec_value(s.take(k)) > bound,
        bound >= 0,
    ensures
        !all_digits(s) || dec_value(s) > bound,
    decreases s.len() - k,
{
    if k < s.len() {
        if all_digits(s) {
            assert(forall|j: int|
                0 <= j < k + 1 ==> s.take(k + 1)[j] == #[trigger] s[j]);
            assert(all_digits(s.take(k + 1)));
            assert(s.take(k + 1).drop_last() =~= s.take(k));
            assert(s.take(k + 1).last() == s[k]);
            assert(is_digit(s[k]));
            assert(dec_value(s.take(k + 1)) > bound);
            lemma_value_stays_big(s, k + 1, bound);
        }
    } else {
        assert(s.take(k) =~= s);
    }
}

/// Check a value against a rule.
pub fn check_value(rule: &ValidationRule, v: &str) -> (r: bool)
    ensures
        r == rule_accepts(*rule, v@),
{
    match rule {
        ValidationRule::String { min_length, max_length, pattern } => {
            let n = v.unicode_len();
            let min_ok = match min_length {
                Some(m) => n >= *m,
                None => true,
            };
            let max_ok = match max_length {
                Some(m) => n <= *m,
                None => true,
            };
            let pat_ok = match pattern {
                Some(p) => check_contains(v, p.as_str()),
                None => true,
            };
            min_ok && max_ok && pat_ok
        },
        ValidationRule::Integer { min, max } => {
            match parse_i64(v) {
                Some(x) => {
                    let min_ok = match min {
                        Some(m) => x >= *m,
                        None => true,
                    };
                    let max_ok = match max {
                        Some(m) => x <= *m,
                        None => true,
                    };
                    min_ok && max_ok
                },
                None => false,
            }
        },
        ValidationRule::IpAddress => check_ipv4(v),
        ValidationRule::Cidr => check_cidr(v),
        ValidationRule::MacAddress => check_mac(v),
        ValidationRule::Port => check_port(v),
        ValidationRule::Boolean => check_bool_str(v),
        ValidationRule::Enum { values } => {
            let mut i: usize = 0;
            while i < values.len()
                invariant
                    i <= values@.len(),
                    *rule matches ValidationRule::Enum { values: vs } && vs@ == values@,
                    forall|j: int| 0 <= j < i ==> (#[trigger] values@[j])@ != v@,
            decreases values@.len() - i,
            {
                if crate::order::str_eq(values[i].as_str(), v) {
                    proof {
                        assert(strs_view(values@)[i as int] == v@);
                        assert(strs_view(values@).contains(v@));
                        assert(*rule matches ValidationRule::Enum { values: vs } && vs@
                            == values@);
                        assert(rule_accepts(*rule, v@));
                    }
                    return true;
                }
                i = i + 1;
            }
            proof {
                if strs_view(values@).contains(v@) {
                    let j = choose|j: int|
                        0 <= j < strs_view(values@).len() && #[trigger] strs_view(values@)[j]
                            == v@;
                    assert(values@[j]@ == v@);
                }
            }
            false
        },
    }
}


/// Why a node failed validation.
#[derive(Clone, Copy, Debug, PartialEq, Eq, Structural)]
pub enum ValidationErrorType {
    Required,
    InvalidFormat,
    OutOfRange,
    Conflict,
    Dependency,
}

/// A fatal validation finding.
#[derive(Debug)]
pub struct ValidationError {
    pub path: String,
    pub message: String,
    pub error_type: ValidationErrorType,
}

/// Kind of a non-fatal validation finding.
#[derive(Clone, Copy, Debug, PartialEq, Eq, Structural)]
pub enum ValidationWarningType {
    Deprecated,
    DefaultValue,
    Recommendation,
}

/// A non-fatal validation finding.
#[derive(Debug)]
pub struct ValidationWarning {
    pub path: String,
    pub message: String,
    pub warning_type: ValidationWarningType,
}

/// Outcome of validating a whole tree.
#[derive(Debug)]
pub struct ConfigValidationResult {
    pub is_valid: bool,
    pub errors: Vec<ValidationError>,
    pub warnings: Vec<ValidationWarning>,
}

/// A node that fails validation: a required leaf without a value, or a
/// value its own rule rejects.
pub open spec fn entry_invalid(e: ConfigEntry) -> bool {
    ||| (e.node_type == ConfigNodeType::Leaf && e.metadata.is_required && e.value is None)
    ||| match (e.metadata.validation, e.value) {
        (Some(r), Some(v)) => !rule_accepts(r, v@),
        _ => false,
    }
}

/// A node that draws a warning: a leaf whose value merely restates its
/// declared default.
pub open spec fn entry_default_valued(e: ConfigEntry) -> bool {
    match (opt_view(e.metadata.default_value), opt_view(e.value)) {
        (Some(d), Some(v)) => d == v,
        _ => false,
    }
}

/// Some node of the tree fails validation.
pub open spec fn has_invalid(s: Seq<ConfigEntry>) -> bool {
    exists|i: int| 0 <= i < s.len() && entry_invalid(#[trigger] s[i])
}

/// How an invalid node failed: a required leaf without a value, or a
/// value rejected by the node's own rule.
pub open spec fn entry_error_kind(e: ConfigEntry) -> ValidationErrorType {
    if e.node_type == ConfigNodeType::Leaf && e.metadata.is_required && e.value is None {
        ValidationErrorType::Required
    } else {
        ValidationErrorType::InvalidFormat
    }
}

/// Validate a whole tree: fatal errors for the nodes `entry_invalid`
/// names, warnings for the nodes `entry_default_valued` names, each in
/// canonical order.
pub fn validate_tree(t: &ConfigTree) -> (r: ConfigValidationResult)
    ensures
        r.is_valid == !has_invalid(t@),
        r.errors@.len() == t@.filter(|e: ConfigEntry| entry_invalid(e)).len(),
        forall|i: int|
            0 <= i < r.errors@.len() ==> (#[trigger] r.errors@[i]).path@ == t@.filter(
                |e: ConfigEntry| entry_invalid(e),
            )[i].path@ && r.errors@[i].error_type == entry_error_kind(
                t@.filter(|e: ConfigEntry| entry_invalid(e))[i],
            ),
        r.warnings@.len() == t@.filter(|e: ConfigEntry| entry_default_valued(e)).len(),
        forall|i: int|
            0 <= i < r.warnings@.len() ==> (#[trigger] r.warnings@[i]).path@ == t@.filter(
                |e: ConfigEntry| entry_default_valued(e),
            )[i].path@ && r.warnings@[i].warning_type == ValidationWarningType::DefaultValue,
{
    let mut errors: Vec<ValidationError> = Vec::new();
    let mut warnings: Vec<ValidationWarning> = Vec::new();
    let n = t.len();
    let mut i: usize = 0;
    proof {
        assert(t@.take(0) =~= Seq::<ConfigEntry>::empty());
        reveal(Seq::filter);
    }
    while i < n
        invariant
            i <= n,
            n == t@.len(),
            errors@.len() == t@.take(i as int).filter(|e: ConfigEntry| entry_invalid(e)).len(),
            forall|k: int|
                0 <= k < errors@.len() ==> (#[trigger] errors@[k]).path@ == t@.take(
                    i as int,
                ).filter(|e: ConfigEntry| entry_invalid(e))[k].path@ && errors@[k].error_type
                    == entry_error_kind(
                    t@.take(i as int).filter(|e: ConfigEntry| entry_invalid(e))[k],
                ),
            warnings@.len() == t@.take(i as int).filter(
                |e: ConfigEntry| entry_default_valued(e),
            ).len(),
            forall|k: int|
                0 <= k < warnings@.len() ==> (#[trigger] warnings@[k]).path@ == t@.take(
                    i as int,
                ).filter(|e: ConfigEntry| entry_default_valued(e))[k].path@ && warnings@[k].warning_type
                    == ValidationWarningType::DefaultValue,
        decreases n - i,
    {
        let e = t.entry_at(i);
        let required_missing = match e.node_type {
            ConfigNodeType::Leaf => e.metadata.is_required && e.value.is_none(),
            _ => false,
        };
        let rule_failed = match (&e.metadata.validation, &e.value) {
            (Some(rule), Some(v)) => !check_value(rule, v.as_str()),
            _ => false,
        };
        proof {
            assert((required_missing || rule_failed) == entry_invalid(t@[i as int]));
            assert(t@.take(i + 1) =~= t@.take(i as int).push(t@[i as int]));
            lemma_filter_step(t@.take(i as int), t@[i as int], |en: ConfigEntry| entry_invalid(en));
            lemma_filter_step(
                t@.take(i as int),
                t@[i as int],
                |en: ConfigEntry| entry_default_valued(en),
            );
        }
        if required_missing || rule_failed {
            let kind = if required_missing {
                ValidationErrorType::Required
            } else {
                ValidationErrorType::InvalidFormat
            };
            proof {
                assert(kind == entry_error_kind(t@[i as int]));
            }
            errors.push(
                ValidationError {
                    path: e.path.clone(),
                    message: "the node fails its validation rule".to_owned(),
                    error_type: kind,
                },
            );
        }
        let defaulted = match (&e.metadata.default_value, &e.value) {
            (Some(d), Some(v)) => crate::order::str_eq(d.as_str(), v.as_str()),
            _ => false,
        };
        proof {
            assert(defaulted == entry_default_valued(t@[i as int]));
        }
        if defaulted {
            warnings.push(
                ValidationWarning {
                    path: e.path.clone(),
                    message: "the value restates the declared default".to_owned(),
                    warning_type: ValidationWarningType::DefaultValue,
                },
            );
        }
        i = i + 1;
    }
    proof {
        assert(t@.take(n as int) =~= t@);
        let pred = |e: ConfigEntry| entry_invalid(e);
        if has_invalid(t@) {
            let k = choose|k: int| 0 <= k < t@.len() && entry_invalid(#[trigger] t@[k]);
            t@.lemma_filter_contains(pred, k);
            assert(t@.filter(pred).contains(t@[k]));
            assert(t@.filter(pred).len() > 0);
        }
        if errors@.len() > 0 {
            crate::tree::lemma_filter_membership(t@, pred, 0);
            let i = choose|i: int| 0 <= i < t@.len() && #[trigger] t@[i] == t@.filter(pred)[0];
            assert(entry_invalid(t@[i]));
            assert(has_invalid(t@));
        }
    }
    let is_valid = errors.len() == 0;
    ConfigValidationResult { is_valid, errors, warnings }
}


/// Digit character of a value below ten.
pub open spec fn digit_char(d: int) -> char {
    if d == 0 {
        '0'
    } else if d == 1 {
        '1'
    } else if d == 2 {
        '2'
    } else if d == 3 {
        '3'
    } else if d == 4 {
        '4'
    } else if d == 5 {
        '5'
    } else if d == 6 {
        '6'
    } else if d == 7 {
        '7'
    } else if d == 8 {
        '8'
    } else {
        '9'
    }
}

/// Decimal digits of a number, most significant first, no leading zero.
pub open spec fn dec_str(n: int) -> Seq<char>
    decreases n,
{
    if n < 10 {
        seq![digit_char(n)]
    } else {
        dec_str(n / 10).push(digit_char(n % 10))
    }
}

/// Literal for one decimal digit.
fn digit_literal(d: u64) -> (r: &'static str)
    requires
        d < 10,
    ensures
        r@ == seq![digit_char(d as int)],
{
    proof {
        reveal_strlit("0");
        reveal_strlit("1");
        reveal_strlit("2");
        reveal_strlit("3");
        reveal_strlit("4");
        reveal_strlit("5");
        reveal_strlit("6");
        reveal_strlit("7");
        reveal_strlit("8");
        reveal_strlit("9");
    }
    match d {
        0 => "0",
        1 => "1",
        2 => "2",
        3 => "3",
        4 => "4",
        5 => "5",
        6 => "6",
        7 => "7",
        8 => "8",
        _ => "9",
    }
}

/// Write a number in decimal.
pub fn u64_to_string(n: u64) -> (r: String)
    ensures
        r@ == dec_str(n as int),
    decreases n,
{
    if n < 10 {
        digit_literal(n).to_owned()
    } else {
        let mut s = u64_to_string(n / 10);
        s.append(digit_literal(n % 10));
        proof {
            assert(s@ =~= dec_str((n / 10) as int).push(digit_char((n % 10) as int)));
        }
        s
    }
}

} // verus!
