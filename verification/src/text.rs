//! Textual forms: IP address literals and decimal numerals.
//!
//! The grammars are stated as spec functions over character sequences; each
//! executable parser is proved to return exactly what the grammar denotes.
//! An IPv4 literal is a dotted quad `a.b.c.d` of decimal octets without
//! leading zeroes; an IPv6 literal is the standard form of up to eight
//! hexadecimal groups, with at most one `::` compression and an optional
//! embedded dotted quad in the last two groups' place.

use crate::addr::be_val;
use crate::addr::IpAddress;
use vstd::prelude::*;
use vstd::std_specs::iter::IteratorSpec;

verus! {

broadcast use vstd::string::group_string_axioms, vstd::string::next_postcondition;

/// The characters of `s`, in order, as a vector.
pub fn chars_vec(s: &str) -> (r: Vec<char>)
    ensures
        r@ == s@,
{
    let mut it = s.chars();
    let mut r: Vec<char> = Vec::new();
    loop
        invariant_except_break
            r@ + it.remaining() == s@,
            it.decrease() is Some,
        ensures
            r@ == s@,
        decreases it.decrease()->0,
    {
        match it.next() {
            Some(c) => {
                r.push(c);
            },
            None => {
                proof {
                    assert(r@ =~= s@);
                }
                break ;
            },
        }
    }
    r
}

/// A decimal digit.
pub open spec fn is_digit(c: char) -> bool {
    48 <= c as u32 <= 57
}

/// The value of a decimal digit.
pub open spec fn digit_val(c: char) -> int {
    c as u32 - 48
}

/// A hexadecimal digit, either case.
pub open spec fn is_hex(c: char) -> bool {
    is_digit(c) || 97 <= c as u32 <= 102 || 65 <= c as u32 <= 70
}

/// The value of a hexadecimal digit.
pub open spec fn hex_val(c: char) -> int {
    if is_digit(c) {
        c as u32 - 48
    } else if 97 <= c as u32 {
        c as u32 - 87
    } else {
        c as u32 - 55
    }
}

/// Every character of `s[i..j)` is a decimal digit.
pub open spec fn all_digits(s: Seq<char>, i: int, j: int) -> bool {
    forall|k: int| i <= k < j ==> is_digit(#[trigger] s[k])
}

/// Every character of `s[i..j)` is a hexadecimal digit.
pub open spec fn all_hex(s: Seq<char>, i: int, j: int) -> bool {
    forall|k: int| i <= k < j ==> is_hex(#[trigger] s[k])
}

/// The value of the decimal digit run `s[i..j)`.
pub open spec fn dec_run_val(s: Seq<char>, i: int, j: int) -> int
    decreases j - i,
{
    if i >= j {
        0
    } else {
        dec_run_val(s, i, j - 1) * 10 + digit_val(s[j - 1])
    }
}

/// The value of the hexadecimal digit run `s[i..j)`.
pub open spec fn hex_run_val(s: Seq<char>, i: int, j: int) -> int
    decreases j - i,
{
    if i >= j {
        0
    } else {
        hex_run_val(s, i, j - 1) * 16 + hex_val(s[j - 1])
    }
}

/// The index of the first `c` in `s[from..end)`, or `end` if there is none.
pub open spec fn find_char(s: Seq<char>, from: int, end: int, c: char) -> int
    decreases end - from,
{
    if from >= end {
        end
    } else if s[from] == c {
        from
    } else {
        find_char(s, from + 1, end, c)
    }
}

/// A found index never lies before `from`.
pub proof fn lemma_find_char_ge(s: Seq<char>, from: int, end: int, c: char)
    requires
        from <= end,
    ensures
        from <= find_char(s, from, end, c) <= end,
    decreases end - from,
{
    if from < end && s[from] != c {
        lemma_find_char_ge(s, from + 1, end, c);
    }
}

fn scan_char(v: &Vec<char>, from: usize, end: usize, c: char) -> (r: usize)
    requires
        from <= end <= v@.len(),
    ensures
        r as int == find_char(v@, from as int, end as int, c),
        from <= r <= end,
        r < end ==> v@[r as int] == c,
{
    let mut i = from;
    while i < end
        invariant
            from <= i <= end <= v@.len(),
            find_char(v@, from as int, end as int, c) == find_char(v@, i as int, end as int, c),
            forall|k: int| from <= k < i ==> v@[k] != c,
        decreases end - i,
    {
        if v[i] == c {
            return i;
        }
        i = i + 1;
    }
    end
}

/// `s[i..j)` is a decimal octet: one to three digits, no leading zero, value
/// at most 255.
pub open spec fn is_octet(s: Seq<char>, i: int, j: int) -> bool {
    &&& 1 <= j - i <= 3
    &&& all_digits(s, i, j)
    &&& (j - i > 1 ==> s[i] != '0')
    &&& dec_run_val(s, i, j) <= 255
}

/// A digit run's value is non-negative and bounded by its length's power of
/// ten, up to the three digits an octet can have.
proof fn lemma_dec_run_bounds(s: Seq<char>, i: int, j: int)
    requires
        i <= j,
        all_digits(s, i, j),
    ensures
        0 <= dec_run_val(s, i, j),
        j - i <= 1 ==> dec_run_val(s, i, j) < 10,
        j - i <= 2 ==> dec_run_val(s, i, j) < 100,
        j - i <= 3 ==> dec_run_val(s, i, j) < 1000,
    decreases j - i,
{
    if i < j {
        lemma_dec_run_bounds(s, i, j - 1);
    }
}

fn parse_octet(v: &Vec<char>, i: usize, j: usize) -> (r: Option<u8>)
    requires
        i <= j <= v@.len(),
    ensures
        match r {
            Some(b) => is_octet(v@, i as int, j as int) && b as int == dec_run_val(
                v@,
                i as int,
                j as int,
            ),
            None => !is_octet(v@, i as int, j as int),
        },
{
    if j - i < 1 || j - i > 3 {
        return None;
    }
    if j - i > 1 && v[i] == '0' {
        return None;
    }
    let mut acc: u32 = 0;
    let mut k = i;
    while k < j
        invariant
            i <= k <= j <= v@.len(),
            j - i <= 3,
            acc as int == dec_run_val(v@, i as int, k as int),
            acc <= 999,
            all_digits(v@, i as int, k as int),
        decreases j - k,
    {
        let c = v[k];
        let u = c as u32;
        if u < 48 || u > 57 {
            proof {
                assert(!is_digit(v@[k as int]));
            }
            return None;
        }
        proof {
            lemma_dec_run_bounds(v@, i as int, k as int);
            assert(dec_run_val(v@, i as int, k + 1) == dec_run_val(v@, i as int, k as int) * 10
                + digit_val(v@[k as int]));
        }
        acc = acc * 10 + (u - 48);
        k = k + 1;
    }
    if acc > 255 {
        return None;
    }
    Some(acc as u8)
}

/// The IPv4 dotted quad denoted by `s[i..end)`, if it is one.
pub open spec fn ipv4_in(s: Seq<char>, i: int, end: int) -> Option<u32> {
    let d1 = find_char(s, i, end, '.');
    let d2 = find_char(s, d1 + 1, end, '.');
    let d3 = find_char(s, d2 + 1, end, '.');
    let d4 = find_char(s, d3 + 1, end, '.');
    if d1 < end && d2 < end && d3 < end && d4 == end && is_octet(s, i, d1) && is_octet(
        s,
        d1 + 1,
        d2,
    ) && is_octet(s, d2 + 1, d3) && is_octet(s, d3 + 1, end) {
        Some(
            (dec_run_val(s, i, d1) * 0x100_0000 + dec_run_val(s, d1 + 1, d2) * 0x1_0000
                + dec_run_val(s, d2 + 1, d3) * 0x100 + dec_run_val(s, d3 + 1, end)) as u32,
        )
    } else {
        None
    }
}

/// The IPv4 dotted quad denoted by a whole string.
pub open spec fn ipv4_of_text(s: Seq<char>) -> Option<u32> {
    ipv4_in(s, 0, s.len() as int)
}

fn parse_ipv4_in(v: &Vec<char>, i: usize, end: usize) -> (r: Option<u32>)
    requires
        i <= end <= v@.len(),
    ensures
        r == ipv4_in(v@, i as int, end as int),
{
    let d1 = scan_char(v, i, end, '.');
    if d1 == end {
        return None;
    }
    let d2 = scan_char(v, d1 + 1, end, '.');
    if d2 == end {
        return None;
    }
    let d3 = scan_char(v, d2 + 1, end, '.');
    if d3 == end {
        return None;
    }
    let d4 = scan_char(v, d3 + 1, end, '.');
    if d4 != end {
        return None;
    }
    let o1 = match parse_octet(v, i, d1) {
        Some(b) => b,
        None => {
            return None;
        },
    };
    let o2 = match parse_octet(v, d1 + 1, d2) {
        Some(b) => b,
        None => {
            return None;
        },
    };
    let o3 = match parse_octet(v, d2 + 1, d3) {
        Some(b) => b,
        None => {
            return None;
        },
    };
    let o4 = match parse_octet(v, d3 + 1, end) {
        Some(b) => b,
        None => {
            return None;
        },
    };
    Some(
        (o1 as u32) * 0x100_0000 + (o2 as u32) * 0x1_0000 + (o3 as u32) * 0x100 + (o4 as u32),
    )
}

/// An IPv6 hexadecimal group: one to four hex digits.
pub open spec fn is_hex_group(s: Seq<char>, i: int, j: int) -> bool {
    1 <= j - i <= 4 && all_hex(s, i, j)
}

/// A hex run's value is non-negative and bounded by its length's power of
/// sixteen, up to the four digits a group can have.
proof fn lemma_hex_run_bounds(s: Seq<char>, i: int, j: int)
    requires
        i <= j,
        all_hex(s, i, j),
    ensures
        0 <= hex_run_val(s, i, j),
        j - i <= 1 ==> hex_run_val(s, i, j) < 0x10,
        j - i <= 2 ==> hex_run_val(s, i, j) < 0x100,
        j - i <= 3 ==> hex_run_val(s, i, j) < 0x1000,
        j - i <= 4 ==> hex_run_val(s, i, j) < 0x1_0000,
    decreases j - i,
{
    if i < j {
        lemma_hex_run_bounds(s, i, j - 1);
    }
}

fn parse_hex_group(v: &Vec<char>, i: usize, j: usize) -> (r: Option<u16>)
    requires
        i <= j <= v@.len(),
    ensures
        match r {
            Some(g) => is_hex_group(v@, i as int, j as int) && g as int == hex_run_val(
                v@,
                i as int,
                j as int,
            ),
            None => !is_hex_group(v@, i as int, j as int),
        },
{
    if j - i < 1 || j - i > 4 {
        return None;
    }
    let mut acc: u32 = 0;
    let mut k = i;
    while k < j
        invariant
            i <= k <= j <= v@.len(),
            j - i <= 4,
            acc as int == hex_run_val(v@, i as int, k as int),
            all_hex(v@, i as int, k as int),
            acc < 0x1_0000,
        decreases j - k,
    {
        let c = v[k];
        let u = c as u32;
        let d: u32 = if 48 <= u && u <= 57 {
            u - 48
        } else if 97 <= u && u <= 102 {
            u - 87
        } else if 65 <= u && u <= 70 {
            u - 55
        } else {
            proof {
                assert(!is_hex(v@[k as int]));
            }
            return None;
        };
        proof {
            lemma_hex_run_bounds(v@, i as int, k as int);
            assert(hex_run_val(v@, i as int, k + 1) == hex_run_val(v@, i as int, k as int) * 16
                + hex_val(v@[k as int]));
        }
        acc = acc * 16 + d;
        k = k + 1;
    }
    Some(acc as u16)
}

/// The group values denoted by `s[i..end)` read as `:`-separated hex groups,
/// the last also allowed to be a dotted quad (two groups) when `v4tail`
/// holds.  Each value is between 0 and 0xFFFF.
pub open spec fn parse_groups(s: Seq<char>, i: int, end: int, v4tail: bool) -> Option<Seq<int>>
    decreases end - i,
    via parse_groups_dec
{
    let j = find_char(s, i, end, ':');
    if j >= end {
        if is_hex_group(s, i, end) {
            Some(seq![hex_run_val(s, i, end)])
        } else if v4tail {
            match ipv4_in(s, i, end) {
                Some(w) => Some(seq![w as int / 0x1_0000, w as int % 0x1_0000]),
                None => None,
            }
        } else {
            None
        }
    } else {
        if is_hex_group(s, i, j) {
            match parse_groups(s, j + 1, end, v4tail) {
                Some(g) => Some(seq![hex_run_val(s, i, j)] + g),
                None => None,
            }
        } else {
            None
        }
    }
}

#[via_fn]
proof fn parse_groups_dec(s: Seq<char>, i: int, end: int, v4tail: bool) {
    if i <= end {
        lemma_find_char_ge(s, i, end, ':');
    }
}

fn parse_groups_x(v: &Vec<char>, i: usize, end: usize, v4tail: bool) -> (r: Option<Vec<u16>>)
    requires
        i <= end <= v@.len(),
    ensures
        match r {
            Some(g) => parse_groups(v@, i as int, end as int, v4tail) == Some(
                g@.map_values(|x: u16| x as int),
            ),
            None => parse_groups(v@, i as int, end as int, v4tail) is None,
        },
    decreases end - i,
{
    let j = scan_char(v, i, end, ':');
    if j == end {
        match parse_hex_group(v, i, end) {
            Some(g) => {
                let mut out: Vec<u16> = Vec::new();
                out.push(g);
                proof {
                    assert(out@.map_values(|x: u16| x as int) =~= seq![
                        hex_run_val(v@, i as int, end as int),
                    ]);
                }
                Some(out)
            },
            None => {
                if v4tail {
                    match parse_ipv4_in(v, i, end) {
                        Some(w) => {
                            let mut out: Vec<u16> = Vec::new();
                            out.push((w / 0x1_0000) as u16);
                            out.push((w % 0x1_0000) as u16);
                            proof {
                                assert(out@.map_values(|x: u16| x as int) =~= seq![
                                    w as int / 0x1_0000,
                                    w as int % 0x1_0000,
                                ]);
                            }
                            Some(out)
                        },
                        None => None,
                    }
                } else {
                    None
                }
            },
        }
    } else {
        match parse_hex_group(v, i, j) {
            Some(g) => match parse_groups_x(v, j + 1, end, v4tail) {
                Some(tail) => {
                    let ghost tailm = tail@.map_values(|x: u16| x as int);
                    let mut out: Vec<u16> = Vec::new();
                    out.push(g);
                    let mut t = tail;
                    out.append(&mut t);
                    proof {
                        assert(out@.map_values(|x: u16| x as int) =~= seq![
                            hex_run_val(v@, i as int, j as int),
                        ] + tailm);
                    }
                    Some(out)
                },
                None => None,
            },
            None => None,
        }
    }
}

/// The index of the first `::` in `s` at or past `from`, or the length if
/// there is none.
pub open spec fn find_dc(s: Seq<char>, from: int) -> int
    decreases s.len() - from,
{
    if from + 2 > s.len() {
        s.len() as int
    } else if s[from] == ':' && s[from + 1] == ':' {
        from
    } else {
        find_dc(s, from + 1)
    }
}

fn scan_dc(v: &Vec<char>) -> (r: usize)
    ensures
        r as int == find_dc(v@, 0),
        r <= v@.len(),
        r < v@.len() ==> r + 2 <= v@.len() && v@[r as int] == ':' && v@[r + 1] == ':',
{
    let n = v.len();
    if n < 2 {
        return n;
    }
    let mut i: usize = 0;
    while i <= n - 2
        invariant
            2 <= n == v@.len(),
            i <= n - 1,
            find_dc(v@, 0) == find_dc(v@, i as int),
        decreases n - i,
    {
        if v[i] == ':' && v[i + 1] == ':' {
            return i;
        }
        i = i + 1;
    }
    n
}

/// The value of a sequence of 16-bit groups, most significant first.
pub open spec fn g16_val(g: Seq<int>) -> int
    decreases g.len(),
{
    if g.len() == 0 {
        0
    } else {
        g16_val(g.drop_last()) * 0x1_0000 + g.last()
    }
}

/// 65536 to the power `n`.
pub open spec fn pow64k(n: nat) -> int
    decreases n,
{
    if n == 0 {
        1
    } else {
        0x1_0000 * pow64k((n - 1) as nat)
    }
}

proof fn lemma_pow64k_8()
    ensures
        pow64k(8) == 0x1_0000_0000_0000_0000_0000_0000_0000_0000,
{
    reveal_with_fuel(pow64k, 9);
}

/// Eight or fewer bounded groups denote a value inside the 128-bit space.
proof fn lemma_g16_bound(g: Seq<int>)
    requires
        forall|k: int| 0 <= k < g.len() ==> 0 <= #[trigger] g[k] < 0x1_0000,
    ensures
        0 <= g16_val(g) < pow64k(g.len()),
    decreases g.len(),
{
    if g.len() > 0 {
        lemma_g16_bound(g.drop_last());
    }
}

proof fn lemma_pow64k_pos(n: nat)
    ensures
        1 <= pow64k(n),
    decreases n,
{
    if n > 0 {
        lemma_pow64k_pos((n - 1) as nat);
    }
}

proof fn lemma_pow64k_mono(m: nat, n: nat)
    requires
        m <= n,
    ensures
        pow64k(m) <= pow64k(n),
    decreases n,
{
    lemma_pow64k_pos(m);
    if m < n && n > 0 {
        lemma_pow64k_mono(m, (n - 1) as nat);
        lemma_pow64k_pos((n - 1) as nat);
    }
}

fn fold16(g: &Vec<u16>) -> (r: u128)
    requires
        g@.len() == 8,
    ensures
        r as int == g16_val(g@.map_values(|x: u16| x as int)),
{
    let ghost gm = g@.map_values(|x: u16| x as int);
    let mut acc: u128 = 0;
    let mut k: usize = 0;
    proof {
        assert(gm.subrange(0, 0) =~= Seq::<int>::empty());
        lemma_pow64k_8();
    }
    while k < 8
        invariant
            k <= 8,
            g@.len() == 8,
            gm == g@.map_values(|x: u16| x as int),
            gm.len() == 8,
            acc as int == g16_val(gm.subrange(0, k as int)),
            pow64k(8) == 0x1_0000_0000_0000_0000_0000_0000_0000_0000,
        decreases 8 - k,
    {
        proof {
            assert(forall|q: int| 0 <= q < k + 1 ==> 0 <= #[trigger] gm.subrange(0, k + 1)[q]
                < 0x1_0000);
            lemma_g16_bound(gm.subrange(0, k as int));
            lemma_pow64k_mono((k + 1) as nat, 8);
            assert(gm.subrange(0, k + 1).drop_last() =~= gm.subrange(0, k as int));
            assert(g16_val(gm.subrange(0, k + 1)) == g16_val(gm.subrange(0, k as int)) * 0x1_0000
                + gm[k as int]);
            assert(g16_val(gm.subrange(0, k as int)) * 0x1_0000 + 0xFFFF < pow64k((k + 1) as nat))
                by (nonlinear_arith)
                requires
                    0 <= g16_val(gm.subrange(0, k as int)) < pow64k(k as nat),
                    pow64k((k + 1) as nat) == 0x1_0000 * pow64k(k as nat),
            {
            }
        }
        acc = acc * 0x1_0000 + (g[k] as u128);
        k = k + 1;
    }
    proof {
        assert(gm.subrange(0, 8) =~= gm);
    }
    acc
}

/// The IPv6 value denoted by a whole string in standard textual form.
pub open spec fn ipv6_of_text(s: Seq<char>) -> Option<u128> {
    let n = s.len() as int;
    let dc = find_dc(s, 0);
    if dc == n {
        match parse_groups(s, 0, n, true) {
            Some(g) => if g.len() == 8 {
                Some(g16_val(g) as u128)
            } else {
                None
            },
            None => None,
        }
    } else {
        let lg: Option<Seq<int>> = if dc == 0 {
            Some(Seq::empty())
        } else {
            parse_groups(s, 0, dc, false)
        };
        let rg: Option<Seq<int>> = if dc + 2 == n {
            Some(Seq::empty())
        } else {
            parse_groups(s, dc + 2, n, true)
        };
        match (lg, rg) {
            (Some(l), Some(r)) => if l.len() + r.len() <= 7 {
                Some(g16_val(l + Seq::new((8 - l.len() - r.len()) as nat, |q: int| 0) + r) as u128)
            } else {
                None
            },
            _ => None,
        }
    }
}

/// Each group a well-formed group list denotes lies between 0 and 0xFFFF.
proof fn lemma_parse_groups_bounded(s: Seq<char>, i: int, end: int, v4tail: bool)
    ensures
        match parse_groups(s, i, end, v4tail) {
            Some(g) => forall|k: int| 0 <= k < g.len() ==> 0 <= #[trigger] g[k] < 0x1_0000,
            None => true,
        },
    decreases end - i,
{
    let j = find_char(s, i, end, ':');
    if i <= end {
        lemma_find_char_ge(s, i, end, ':');
    }
    if j >= end {
        if is_hex_group(s, i, end) {
            lemma_hex_run_bounds(s, i, end);
        }
    } else {
        if is_hex_group(s, i, j) {
            lemma_hex_run_bounds(s, i, j);
            lemma_parse_groups_bounded(s, j + 1, end, v4tail);
        }
    }
}

fn parse_ipv6(v: &Vec<char>) -> (r: Option<u128>)
    ensures
        r == ipv6_of_text(v@),
{
    let n = v.len();
    let dc = scan_dc(v);
    if dc == n {
        match parse_groups_x(v, 0, n, true) {
            Some(g) => {
                if g.len() == 8 {
                    proof {
                        lemma_parse_groups_bounded(v@, 0, n as int, true);
                        lemma_g16_bound(g@.map_values(|x: u16| x as int));
                        lemma_pow64k_8();
                    }
                    Some(fold16(&g))
                } else {
                    None
                }
            },
            None => None,
        }
    } else {
        let lopt: Option<Vec<u16>> = if dc == 0 {
            Some(Vec::new())
        } else {
            parse_groups_x(v, 0, dc, false)
        };
        let ropt: Option<Vec<u16>> = if dc + 2 == n {
            Some(Vec::new())
        } else {
            parse_groups_x(v, dc + 2, n, true)
        };
        match (lopt, ropt) {
            (Some(l), Some(r)) => {
                let ghost lm = l@.map_values(|x: u16| x as int);
                let ghost rm = r@.map_values(|x: u16| x as int);
                proof {
                    assert(lm =~= l@.map_values(|x: u16| x as int));
                    if dc == 0 {
                        assert(lm =~= Seq::<int>::empty());
                    }
                    if dc + 2 == n {
                        assert(rm =~= Seq::<int>::empty());
                    }
                }
                if l.len() <= 7 && r.len() <= 7 - l.len() {
                    let fill = 8 - l.len() - r.len();
                    let mut full = l;
                    let mut added: usize = 0;
                    while added < fill
                        invariant
                            added <= fill,
                            fill == 8 - lm.len() - rm.len(),
                            lm.len() + rm.len() <= 7,
                            full@.map_values(|x: u16| x as int) =~= lm + Seq::new(
                                added as nat,
                                |q: int| 0,
                            ),
                        decreases fill - added,
                    {
                        let ghost prevm = full@.map_values(|x: u16| x as int);
                        full.push(0u16);
                        proof {
                            assert(full@.map_values(|x: u16| x as int) =~= prevm.push(0));
                            assert(prevm.push(0) =~= lm + Seq::new((added + 1) as nat, |q: int| 0));
                        }
                        added = added + 1;
                    }
                    let mut rmoved = r;
                    full.append(&mut rmoved);
                    proof {
                        assert(full@.map_values(|x: u16| x as int) =~= lm + Seq::new(
                            fill as nat,
                            |q: int| 0,
                        ) + rm);
                        assert(full@.len() == 8);
                        lemma_parse_groups_bounded(v@, 0, dc as int, false);
                        lemma_parse_groups_bounded(v@, dc + 2, n as int, true);
                        let fullm = full@.map_values(|x: u16| x as int);
                        assert(forall|k: int| 0 <= k < fullm.len() ==> 0 <= #[trigger] fullm[k]
                            < 0x1_0000);
                        lemma_g16_bound(fullm);
                        lemma_pow64k_8();
                    }
                    Some(fold16(&full))
                } else {
                    None
                }
            },
            _ => None,
        }
    }
}

/// The address denoted by a textual IP literal: a dotted quad, else a
/// standard IPv6 form, else nothing.
pub open spec fn ip_of_text(s: Seq<char>) -> Option<IpAddress> {
    match ipv4_of_text(s) {
        Some(w) => Some(IpAddress::V4(w)),
        None => match ipv6_of_text(s) {
            Some(w) => Some(IpAddress::V6(w)),
            None => None,
        },
    }
}

/// Parses an IP address literal of either family.
pub fn parse_ip(s: &str) -> (r: Option<IpAddress>)
    ensures
        r == ip_of_text(s@),
{
    let v = chars_vec(s);
    match parse_ipv4_in(&v, 0, v.len()) {
        Some(w) => Some(IpAddress::V4(w)),
        None => match parse_ipv6(&v) {
            Some(w) => Some(IpAddress::V6(w)),
            None => None,
        },
    }
}




/// A dotted quad's key is exactly its four written octets: any 4-byte key
/// denoting the value a dotted quad parses to holds, in order, the octet
/// values written in the text.
pub proof fn lemma_v4_key_octets(s: Seq<char>, w: u32, key: Seq<u8>)
    requires
        ipv4_of_text(s) == Some(w),
        key.len() == 4,
        be_val(key) == w as nat,
    ensures
        ({
            let n = s.len() as int;
            let d1 = find_char(s, 0, n, '.');
            let d2 = find_char(s, d1 + 1, n, '.');
            let d3 = find_char(s, d2 + 1, n, '.');
            key =~= seq![
                dec_run_val(s, 0, d1) as u8,
                dec_run_val(s, d1 + 1, d2) as u8,
                dec_run_val(s, d2 + 1, d3) as u8,
                dec_run_val(s, d3 + 1, n) as u8,
            ]
        }),
{
    let n = s.len() as int;
    let d1 = find_char(s, 0, n, '.');
    let d2 = find_char(s, d1 + 1, n, '.');
    let d3 = find_char(s, d2 + 1, n, '.');
    let o1 = dec_run_val(s, 0, d1);
    let o2 = dec_run_val(s, d1 + 1, d2);
    let o3 = dec_run_val(s, d2 + 1, d3);
    let o4 = dec_run_val(s, d3 + 1, n);
    lemma_dec_run_bounds(s, 0, d1);
    lemma_dec_run_bounds(s, d1 + 1, d2);
    lemma_dec_run_bounds(s, d2 + 1, d3);
    lemma_dec_run_bounds(s, d3 + 1, n);
    assert(is_octet(s, 0, d1) && is_octet(s, d1 + 1, d2) && is_octet(s, d2 + 1, d3) && is_octet(
        s,
        d3 + 1,
        n,
    ));
    let e0 = Seq::<u8>::empty();
    let k1 = e0.push(o1 as u8);
    let ka = k1.push(o2 as u8);
    let kb = ka.push(o3 as u8);
    let k2 = kb.push(o4 as u8);
    assert(be_val(e0) == 0);
    assert(k1.drop_last() =~= e0 && k1.last() == o1 as u8);
    assert(be_val(k1) == o1);
    assert(ka.drop_last() =~= k1 && ka.last() == o2 as u8);
    assert(be_val(ka) == o1 * 256 + o2);
    assert(kb.drop_last() =~= ka && kb.last() == o3 as u8);
    assert(be_val(kb) == (o1 * 256 + o2) * 256 + o3);
    assert(k2.drop_last() =~= kb && k2.last() == o4 as u8);
    assert(be_val(k2) == ((o1 * 256 + o2) * 256 + o3) * 256 + o4);
    assert(w as nat == be_val(k2));
    crate::addr::lemma_be_val_injective(key, k2);
    assert(k2 =~= seq![o1 as u8, o2 as u8, o3 as u8, o4 as u8]);
}

/// One transition of the decimal-numeral automaton; state -1 rejects.
/// States: 0 start, 1 after sign, 2 integer digits, 3 after a bare dot,
/// 4 fraction digits, 5 after the exponent mark, 6 after the exponent's
/// sign, 7 exponent digits.
pub open spec fn dec_step(st: int, c: char) -> int {
    let u = c as u32;
    if st == 0 {
        if u == 43 || u == 45 {
            1
        } else if is_digit(c) {
            2
        } else if u == 46 {
            3
        } else {
            -1
        }
    } else if st == 1 {
        if is_digit(c) {
            2
        } else if u == 46 {
            3
        } else {
            -1
        }
    } else if st == 2 {
        if is_digit(c) {
            2
        } else if u == 46 {
            4
        } else if u == 101 || u == 69 {
            5
        } else {
            -1
        }
    } else if st == 3 {
        if is_digit(c) {
            4
        } else {
            -1
        }
    } else if st == 4 {
        if is_digit(c) {
            4
        } else if u == 101 || u == 69 {
            5
        } else {
            -1
        }
    } else if st == 5 {
        if u == 43 || u == 45 {
            6
        } else if is_digit(c) {
            7
        } else {
            -1
        }
    } else if st == 6 || st == 7 {
        if is_digit(c) {
            7
        } else {
            -1
        }
    } else {
        -1
    }
}

/// The automaton's state after reading `s[i..)` from state `st`.
pub open spec fn dec_run(s: Seq<char>, i: int, st: int) -> int
    decreases s.len() - i,
{
    if i < 0 || i >= s.len() {
        st
    } else {
        dec_run(s, i + 1, dec_step(st, s[i]))
    }
}

/// `s` is a decimal numeral: an optional sign, then digits with at most one
/// dot and at least one digit, then an optional exponent part.
pub open spec fn is_decimal_text(s: Seq<char>) -> bool {
    let st = dec_run(s, 0, 0);
    st == 2 || st == 4 || st == 7
}

fn dec_step_x(st: i8, c: char) -> (r: i8)
    ensures
        r as int == dec_step(st as int, c),
{
    let u = c as u32;
    let digit = 48 <= u && u <= 57;
    if st == 0 {
        if u == 43 || u == 45 {
            1
        } else if digit {
            2
        } else if u == 46 {
            3
        } else {
            -1
        }
    } else if st == 1 {
        if digit {
            2
        } else if u == 46 {
            3
        } else {
            -1
        }
    } else if st == 2 {
        if digit {
            2
        } else if u == 46 {
            4
        } else if u == 101 || u == 69 {
            5
        } else {
            -1
        }
    } else if st == 3 {
        if digit {
            4
        } else {
            -1
        }
    } else if st == 4 {
        if digit {
            4
        } else if u == 101 || u == 69 {
            5
        } else {
            -1
        }
    } else if st == 5 {
        if u == 43 || u == 45 {
            6
        } else if digit {
            7
        } else {
            -1
        }
    } else if st == 6 || st == 7 {
        if digit {
            7
        } else {
            -1
        }
    } else {
        -1
    }
}

fn is_decimal(v: &Vec<char>) -> (r: bool)
    ensures
        r == is_decimal_text(v@),
{
    let mut st: i8 = 0;
    let mut i: usize = 0;
    while i < v.len()
        invariant
            i <= v@.len(),
            dec_run(v@, 0, 0) == dec_run(v@, i as int, st as int),
        decreases v@.len() - i,
    {
        st = dec_step_x(st, v[i]);
        i = i + 1;
    }
    st == 2 || st == 4 || st == 7
}

/// What ingestion stores for a decimal field: the field itself when it is a
/// decimal numeral, else the numeral `"0"`.
pub open spec fn decimal_or_zero(s: Seq<char>) -> Seq<char> {
    if is_decimal_text(s) {
        s
    } else {
        seq!['0']
    }
}

fn zero_string() -> (r: String)
    ensures
        r@ == seq!['0'],
{
    proof {
        reveal_strlit("0");
    }
    let r = "0".to_owned();
    proof {
        assert(r@ =~= seq!['0']);
    }
    r
}

/// Normalizes a decimal field under the lenient-numeric policy: keeps a
/// well-formed numeral, and substitutes `"0"` for anything else.
pub fn normalize_decimal(s: &str) -> (r: String)
    ensures
        r@ == decimal_or_zero(s@),
{
    let v = chars_vec(s);
    if is_decimal(&v) {
        s.to_owned()
    } else {
        zero_string()
    }
}

/// The signed integer a field denotes, with the lenient-numeric policy: an
/// optional sign and decimal digits whose value fits a 64-bit signed
/// integer, and `0` for anything else, out-of-range values included.
pub open spec fn int_or_zero_of(s: Seq<char>) -> i64 {
    let signed = s.len() > 0 && (s[0] == '-' || s[0] == '+');
    let start: int = if signed {
        1
    } else {
        0
    };
    if s.len() - start >= 1 && all_digits(s, start, s.len() as int) {
        let m = dec_run_val(s, start, s.len() as int);
        if s.len() > 0 && s[0] == '-' {
            if m <= 0x8000_0000_0000_0000 {
                (-m) as i64
            } else {
                0
            }
        } else {
            if m <= 0x7FFF_FFFF_FFFF_FFFF {
                m as i64
            } else {
                0
            }
        }
    } else {
        0
    }
}

/// Appending a digit never shrinks a digit run's value.
proof fn lemma_dec_run_grows(s: Seq<char>, i: int, j: int)
    requires
        i <= j,
        all_digits(s, i, j + 1),
    ensures
        dec_run_val(s, i, j) <= dec_run_val(s, i, j + 1),
{
    lemma_dec_run_bounds(s, i, j);
    assert(dec_run_val(s, i, j + 1) == dec_run_val(s, i, j) * 10 + digit_val(s[j]));
}

/// Parses an integer field under the lenient-numeric policy.
pub fn int_or_zero(s: &str) -> (r: i64)
    ensures
        r as int == int_or_zero_of(s@),
{
    let v = chars_vec(s);
    let n = v.len();
    let signed = n > 0 && (v[0] == '-' || v[0] == '+');
    let neg = n > 0 && v[0] == '-';
    let start: usize = if signed {
        1
    } else {
        0
    };
    if n - start < 1 {
        return 0;
    }
    let mut mag: u128 = 0;
    let mut k = start;
    while k < n
        invariant
            start <= k <= n == v@.len(),
            start <= 1,
            v@ == s@,
            signed == (v@.len() > 0 && (v@[0] == '-' || v@[0] == '+')),
            neg == (v@.len() > 0 && v@[0] == '-'),
            start as int == (if signed { 1int } else { 0int }),
            n - start >= 1,
            all_digits(v@, start as int, k as int),
            if dec_run_val(v@, start as int, k as int) <= 0x8000_0000_0000_0000 {
                mag as int == dec_run_val(v@, start as int, k as int)
            } else {
                mag > 0x8000_0000_0000_0000
            },
            mag <= 0x5000_0000_0000_0000_0009,
        decreases n - k,
    {
        let c = v[k];
        let u = c as u32;
        if u < 48 || u > 57 {
            proof {
                assert(!is_digit(v@[k as int]));
                assert(!all_digits(v@, start as int, n as int));
                assert(int_or_zero_of(v@) == 0);
            }
            return 0;
        }
        proof {
            lemma_dec_run_bounds(v@, start as int, k as int);
            assert(all_digits(v@, start as int, k + 1));
            lemma_dec_run_grows(v@, start as int, k as int);
            assert(dec_run_val(v@, start as int, k + 1) == dec_run_val(v@, start as int, k as int)
                * 10 + digit_val(v@[k as int]));
        }
        if mag <= 0x8000_0000_0000_0000 {
            mag = mag * 10 + ((u - 48) as u128);
        }
        k = k + 1;
    }
    if neg {
        if mag <= 0x8000_0000_0000_0000 {
            proof {
                assert(mag as int == dec_run_val(v@, start as int, n as int));
            }
            if mag == 0x8000_0000_0000_0000 {
                i64::MIN
            } else {
                -(mag as i64)
            }
        } else {
            0
        }
    } else {
        if mag <= 0x7FFF_FFFF_FFFF_FFFF {
            mag as i64
        } else {
            0
        }
    }
}

} // verus!
