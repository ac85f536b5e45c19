//! Peer addresses: `<node_id>@<host>[:<port>]`, with the node id as 66
//! hex digits of a compressed public key and the host an IPv4 literal, an
//! IPv6 literal (in brackets when a port follows) or a Tor v3 onion name.

use vstd::prelude::*;
use vstd::string::StringSliceAdditionalSpecFns;
use crate::crypto::{is_public_key, public_key_valid};

verus! {

/// Port used when an address gives none.
pub const LIGHTNING_P2P_DEFAULT_PORT: u16 = 9735;
/// Length of a node id in hex digits.
pub const NODE_ID_HEX_LEN: usize = 66;
/// Length of a Tor v3 onion label.
pub const ONION_LABEL_LEN: usize = 56;

/// Position of the first `c` in `s`, or the length of `s` if there is none.
pub open spec fn find(s: Seq<u8>, c: u8) -> int
    decreases s.len(),
{
    if s.len() == 0 {
        0
    } else if s[0] == c {
        0
    } else {
        1 + find(s.drop_first(), c)
    }
}

proof fn lemma_find(s: Seq<u8>, c: u8, i: int)
    requires
        0 <= i <= s.len(),
        forall|j: int| 0 <= j < i ==> s[j] != c,
        i == s.len() || s[i] == c,
    ensures
        find(s, c) == i,
    decreases s.len(),
{
    if s.len() > 0 && i > 0 {
        assert forall|j: int| 0 <= j < i - 1 implies s.drop_first()[j] != c by {
            assert(s.drop_first()[j] == s[j + 1]);
        }
        if i < s.len() {
            assert(s.drop_first()[i - 1] == s[i]);
        }
        lemma_find(s.drop_first(), c, i - 1);
    }
}

/// Index of the first `c` in `s[start..end]`, counted from `start`, or
/// `end` if there is none.
pub fn find_byte(s: &[u8], start: usize, end: usize, c: u8) -> (r: usize)
    requires
        start <= end <= s@.len(),
    ensures
        start <= r <= end,
        r - start == find(s@.subrange(start as int, end as int), c),
{
    let ghost t = s@.subrange(start as int, end as int);
    let mut i: usize = start;
    while i < end && s[i] != c
        invariant
            start <= i <= end <= s@.len(),
            t == s@.subrange(start as int, end as int),
            forall|j: int| start <= j < i ==> s@[j] != c,
        decreases end - i,
    {
        i = i + 1;
    }
    proof {
        assert forall|j: int| 0 <= j < i - start implies t[j] != c by {
            assert(t[j] == s@[start + j]);
        }
        if i < end {
            assert(t[i - start] == s@[i as int]);
        }
        lemma_find(t, c, i - start);
    }
    i
}

/// Whether `c` is an ASCII decimal digit.
pub open spec fn is_digit(c: u8) -> bool {
    48 <= c <= 57
}

/// Value of a string of decimal digits.
pub open spec fn dec_value(t: Seq<u8>) -> nat
    decreases t.len(),
{
    if t.len() == 0 {
        0
    } else {
        dec_value(t.drop_last()) * 10 + (t.last() - 48) as nat
    }
}

/// Value of `t` read as a decimal number of 1 to `max_len` digits that
/// is at most `max`.
pub open spec fn parse_dec(t: Seq<u8>, max_len: nat, max: nat) -> Option<nat> {
    if 1 <= t.len() <= max_len && (forall|i: int| 0 <= i < t.len() ==> is_digit(#[trigger] t[i]))
        && dec_value(t) <= max {
        Some(dec_value(t))
    } else {
        None
    }
}

/// Shortest decimal digits of `n`.
pub open spec fn dec_digits(n: nat) -> Seq<u8>
    decreases n,
{
    if n < 10 {
        seq![(48 + n) as u8]
    } else {
        dec_digits(n / 10) + seq![(48 + n % 10) as u8]
    }
}

pub open spec fn pow10(k: nat) -> nat
    decreases k,
{
    if k == 0 {
        1
    } else {
        10 * pow10((k - 1) as nat)
    }
}

/// Printing a number in decimal and reading it back gives the number.
pub proof fn lemma_dec_round_trip(n: nat, k: nat)
    requires
        1 <= k,
        n < pow10(k),
    ensures
        dec_value(dec_digits(n)) == n,
        forall|i: int| 0 <= i < dec_digits(n).len() ==> is_digit(#[trigger] dec_digits(n)[i]),
        1 <= dec_digits(n).len() <= k,
    decreases n,
{
    reveal_with_fuel(pow10, 2);
    if n >= 10 {
        assert(k >= 2) by {
            if k == 1 {
                assert(pow10(1) == 10);
            }
        }
        assert(n / 10 < pow10((k - 1) as nat)) by (nonlinear_arith)
            requires
                n < pow10(k),
                pow10(k) == 10 * pow10((k - 1) as nat),
        ;
        lemma_dec_round_trip(n / 10, (k - 1) as nat);
        let d = dec_digits(n);
        assert(d.drop_last() =~= dec_digits(n / 10));
        assert((n / 10) * 10 + n % 10 == n) by (nonlinear_arith);
        assert(n % 10 < 10) by (nonlinear_arith);
        assert(d.last() == (48 + n % 10) as u8);
        assert(dec_value(d) == dec_value(d.drop_last()) * 10 + (d.last() - 48) as nat);
        assert forall|i: int| 0 <= i < d.len() implies is_digit(#[trigger] d[i]) by {
            if i < d.len() - 1 {
                assert(d[i] == dec_digits(n / 10)[i]);
            }
        }
    } else {
        assert(dec_digits(n).drop_last() =~= Seq::<u8>::empty());
        assert(dec_value(Seq::<u8>::empty()) == 0);
        assert(dec_value(dec_digits(n)) == dec_value(dec_digits(n).drop_last()) * 10 + (
        dec_digits(n).last() - 48) as nat);
    }
}

/// Appends the decimal digits of `n`.
pub fn push_decimal(out: &mut Vec<u8>, n: u32)
    ensures
        final(out)@ == old(out)@ + dec_digits(n as nat),
    decreases n,
{
    if n >= 10 {
        push_decimal(out, n / 10);
    }
    out.push((48 + n % 10) as u8);
    assert(final(out)@ =~= old(out)@ + dec_digits(n as nat));
}

/// Reads `s[start..end]` as a decimal number of 1 to `max_len` digits
/// that is at most `max`.
pub fn parse_decimal(s: &[u8], start: usize, end: usize, max_len: usize, max: u32) -> (r: Option<u32>)
    requires
        start <= end <= s@.len(),
        max_len <= 5,
    ensures
        match r {
            Some(v) => parse_dec(s@.subrange(start as int, end as int), max_len as nat, max as nat)
                == Some(v as nat),
            None => parse_dec(s@.subrange(start as int, end as int), max_len as nat, max as nat) is None,
        },
{
    let ghost t = s@.subrange(start as int, end as int);
    if end - start < 1 || end - start > max_len {
        return None;
    }
    let mut v: u32 = 0;
    let mut i: usize = start;
    while i < end
        invariant
            start <= i <= end <= s@.len(),
            end - start <= 5,
            t == s@.subrange(start as int, end as int),
            forall|j: int| start <= j < i ==> is_digit(#[trigger] s@[j]),
            v as nat == dec_value(s@.subrange(start as int, i as int)),
            v < pow10((i - start) as nat),
        decreases end - i,
    {
        let c = s[i];
        if c < 48 || c > 57 {
            proof {
                assert(!is_digit(t[i - start]));
            }
            return None;
        }
        proof {
            let p = s@.subrange(start as int, i + 1);
            assert(p.drop_last() =~= s@.subrange(start as int, i as int));
            assert(pow10((i - start) as nat) <= 10000) by {
                reveal_with_fuel(pow10, 6);
            }
            assert(v * 10 + (c - 48) < 10 * pow10((i - start) as nat)) by (nonlinear_arith)
                requires
                    v < pow10((i - start) as nat),
                    c - 48 < 10,
            ;
        }
        v = v * 10 + (c - 48) as u32;
        i = i + 1;
    }
    assert(s@.subrange(start as int, i as int) == t);
    assert forall|j: int| 0 <= j < t.len() implies is_digit(#[trigger] t[j]) by {
        assert(t[j] == s@[start + j]);
    }
    if v > max {
        return None;
    }
    Some(v)
}

/// Whether `c` is a hex digit, in either case.
pub open spec fn is_hex_digit(c: u8) -> bool {
    (48 <= c <= 57) || (97 <= c <= 102) || (65 <= c <= 70)
}

/// Value of a hex digit.
pub open spec fn hex_nibble(c: u8) -> nat {
    if 48 <= c <= 57 {
        (c - 48) as nat
    } else if 97 <= c <= 102 {
        (c - 87) as nat
    } else {
        (c - 55) as nat
    }
}

/// Whether `t` is an even number of hex digits.
pub open spec fn is_hex_text(t: Seq<u8>) -> bool {
    t.len() % 2 == 0 && forall|i: int| 0 <= i < t.len() ==> is_hex_digit(#[trigger] t[i])
}

/// Bytes written by the hex digits `t`, two digits a byte, high first.
pub open spec fn hex_decode(t: Seq<u8>) -> Seq<u8> {
    Seq::new(
        (t.len() / 2) as nat,
        |i: int| (hex_nibble(t[2 * i]) * 16 + hex_nibble(t[2 * i + 1])) as u8,
    )
}

/// Lower-case hex digit of a value below 16.
pub open spec fn hex_digit(x: nat) -> u8 {
    if x < 10 {
        (48 + x) as u8
    } else {
        (87 + x) as u8
    }
}

/// Lower-case hex digits of `b`, two a byte, high first.
pub open spec fn hex_encode(b: Seq<u8>) -> Seq<u8> {
    Seq::new(
        2 * b.len(),
        |i: int|
            if i % 2 == 0 {
                hex_digit((b[i / 2] / 16) as nat)
            } else {
                hex_digit((b[i / 2] % 16) as nat)
            },
    )
}

/// Whether `c` belongs to the lower-case base32 alphabet of onion names.
pub open spec fn is_base32(c: u8) -> bool {
    (97 <= c <= 122) || (50 <= c <= 55)
}

/// The suffix `.onion`.
pub open spec fn onion_suffix() -> Seq<u8> {
    seq![46u8, 111u8, 110u8, 105u8, 111u8, 110u8]
}

/// Whether `l` is the label of a Tor v3 onion name.
pub open spec fn is_onion_label(l: Seq<u8>) -> bool {
    l.len() == ONION_LABEL_LEN && forall|i: int| 0 <= i < l.len() ==> is_base32(#[trigger] l[i])
}

/// The `k` dot-separated decimal octets written in `t`.
pub open spec fn parse_octets(t: Seq<u8>, k: nat) -> Option<Seq<u8>>
    decreases k,
{
    let i = find(t, 46);
    if k <= 1 {
        match parse_dec(t, 3, 255) {
            Some(v) => Some(seq![v as u8]),
            None => None,
        }
    } else if i == t.len() {
        None
    } else {
        match (parse_dec(t.subrange(0, i), 3, 255), parse_octets(t.subrange(i + 1, t.len() as int), (k - 1) as nat)) {
            (Some(v), Some(rest)) => Some(seq![v as u8] + rest),
            _ => None,
        }
    }
}

/// Value of a string of hex digits.
pub open spec fn hexnum_value(t: Seq<u8>) -> nat
    decreases t.len(),
{
    if t.len() == 0 {
        0
    } else {
        hexnum_value(t.drop_last()) * 16 + hex_nibble(t.last())
    }
}

/// Value of `t` read as a group of 1 to 4 hex digits.
pub open spec fn parse_group(t: Seq<u8>) -> Option<nat> {
    if 1 <= t.len() <= 4 && (forall|i: int| 0 <= i < t.len() ==> is_hex_digit(#[trigger] t[i])) {
        Some(hexnum_value(t))
    } else {
        None
    }
}

/// Shortest lower-case hex digits of `n`.
pub open spec fn hexnum_digits(n: nat) -> Seq<u8>
    decreases n,
{
    if n < 16 {
        seq![hex_digit(n)]
    } else {
        hexnum_digits(n / 16) + seq![hex_digit(n % 16)]
    }
}

pub open spec fn pow16(k: nat) -> nat
    decreases k,
{
    if k == 0 {
        1
    } else {
        16 * pow16((k - 1) as nat)
    }
}

/// Printing a number in hex and reading it back gives the number.
proof fn lemma_hexnum_round_trip(n: nat, k: nat)
    requires
        1 <= k,
        n < pow16(k),
    ensures
        hexnum_value(hexnum_digits(n)) == n,
        forall|i: int| 0 <= i < hexnum_digits(n).len() ==> {
            let c = #[trigger] hexnum_digits(n)[i];
            is_hex_digit(c) && c != 58 && c != 93
        },
        1 <= hexnum_digits(n).len() <= k,
    decreases n,
{
    reveal_with_fuel(pow16, 2);
    if n >= 16 {
        assert(k >= 2) by {
            if k == 1 {
                assert(pow16(1) == 16);
            }
        }
        assert(n / 16 < pow16((k - 1) as nat)) by (nonlinear_arith)
            requires
                n < pow16(k),
                pow16(k) == 16 * pow16((k - 1) as nat),
        ;
        lemma_hexnum_round_trip(n / 16, (k - 1) as nat);
        let d = hexnum_digits(n);
        assert(d.drop_last() =~= hexnum_digits(n / 16));
        assert((n / 16) * 16 + n % 16 == n) by (nonlinear_arith);
        assert(n % 16 < 16) by (nonlinear_arith);
        assert(hex_nibble(hex_digit(n % 16)) == n % 16);
        assert(hexnum_value(d) == hexnum_value(d.drop_last()) * 16 + hex_nibble(d.last()));
        assert forall|i: int| 0 <= i < d.len() implies {
            let c = #[trigger] d[i];
            is_hex_digit(c) && c != 58 && c != 93
        } by {
            if i < d.len() - 1 {
                assert(d[i] == hexnum_digits(n / 16)[i]);
            }
        }
    } else {
        assert(hexnum_digits(n).drop_last() =~= Seq::<u8>::empty());
        assert(hexnum_value(Seq::<u8>::empty()) == 0);
        assert(hex_nibble(hex_digit(n)) == n);
        assert(hexnum_value(hexnum_digits(n)) == hexnum_value(hexnum_digits(n).drop_last()) * 16
            + hex_nibble(hexnum_digits(n).last()));
    }
}

/// The `k` colon-separated hex groups written in `t`.
pub open spec fn parse_groups(t: Seq<u8>, k: nat) -> Option<Seq<u16>>
    decreases k,
{
    let i = find(t, 58);
    if k <= 1 {
        match parse_group(t) {
            Some(v) => Some(seq![v as u16]),
            None => None,
        }
    } else if i == t.len() {
        None
    } else {
        match (parse_group(t.subrange(0, i)), parse_groups(t.subrange(i + 1, t.len() as int), (k - 1) as nat)) {
            (Some(v), Some(rest)) => Some(seq![v as u16] + rest),
            _ => None,
        }
    }
}

/// Hex groups separated by colons.
pub open spec fn groups_text(g: Seq<u16>) -> Seq<u8>
    decreases g.len(),
{
    if g.len() <= 1 {
        hexnum_digits(g[0] as nat)
    } else {
        hexnum_digits(g[0] as nat) + seq![58u8] + groups_text(g.drop_first())
    }
}

/// Reads `s[start..end]` as a group of 1 to 4 hex digits.
fn parse_group_at(s: &[u8], start: usize, end: usize) -> (r: Option<u16>)
    requires
        start <= end <= s@.len(),
    ensures
        match r {
            Some(v) => parse_group(s@.subrange(start as int, end as int)) == Some(v as nat),
            None => parse_group(s@.subrange(start as int, end as int)) is None,
        },
{
    let ghost t = s@.subrange(start as int, end as int);
    if end - start < 1 || end - start > 4 {
        return None;
    }
    let mut v: u32 = 0;
    let mut i: usize = start;
    while i < end
        invariant
            start <= i <= end <= s@.len(),
            end - start <= 4,
            t == s@.subrange(start as int, end as int),
            forall|j: int| start <= j < i ==> is_hex_digit(#[trigger] s@[j]),
            v as nat == hexnum_value(s@.subrange(start as int, i as int)),
            v < pow16((i - start) as nat),
        decreases end - i,
    {
        let c = s[i];
        let d: u32 = if 48 <= c && c <= 57 {
            (c - 48) as u32
        } else if 97 <= c && c <= 102 {
            (c - 87) as u32
        } else if 65 <= c && c <= 70 {
            (c - 55) as u32
        } else {
            proof {
                assert(!is_hex_digit(t[i - start]));
            }
            return None;
        };
        proof {
            let p = s@.subrange(start as int, i + 1);
            assert(p.drop_last() =~= s@.subrange(start as int, i as int));
            assert(pow16((i - start) as nat) <= 4096) by {
                reveal_with_fuel(pow16, 5);
            }
            assert(v * 16 + d < 16 * pow16((i - start) as nat)) by (nonlinear_arith)
                requires
                    v < pow16((i - start) as nat),
                    d < 16,
            ;
        }
        v = v * 16 + d;
        i = i + 1;
    }
    assert(s@.subrange(start as int, i as int) == t);
    assert forall|j: int| 0 <= j < t.len() implies is_hex_digit(#[trigger] t[j]) by {
        assert(t[j] == s@[start + j]);
    }
    assert(v < 65536) by {
        reveal_with_fuel(pow16, 5);
    }
    Some(v as u16)
}

/// Reads `k` colon-separated hex groups from `s[start..end]`.
fn parse_groups_at(s: &[u8], start: usize, end: usize, k: usize) -> (r: Option<Vec<u16>>)
    requires
        start <= end <= s@.len(),
    ensures
        match r {
            Some(g) => parse_groups(s@.subrange(start as int, end as int), k as nat) == Some(g@),
            None => parse_groups(s@.subrange(start as int, end as int), k as nat) is None,
        },
    decreases k,
{
    let ghost t = s@.subrange(start as int, end as int);
    if k <= 1 {
        return match parse_group_at(s, start, end) {
            Some(v) => {
                let out: Vec<u16> = vec![v];
                assert(out@ =~= seq![v]);
                Some(out)
            },
            None => None,
        };
    }
    let sep = find_byte(s, start, end, 58);
    if sep == end {
        return None;
    }
    proof {
        assert(t.subrange(0, sep - start) =~= s@.subrange(start as int, sep as int));
        assert(t.subrange(sep - start + 1, t.len() as int) =~= s@.subrange(sep + 1, end as int));
    }
    match parse_group_at(s, start, sep) {
        Some(v) => match parse_groups_at(s, sep + 1, end, k - 1) {
            Some(rest) => {
                let mut out: Vec<u16> = vec![v];
                let mut rest = rest;
                let ghost rest_view = rest@;
                out.append(&mut rest);
                assert(out@ =~= seq![v] + rest_view);
                Some(out)
            },
            None => None,
        },
        None => None,
    }
}

/// Position of the first `::` in `t`, or the length of `t` if there is none.
pub open spec fn find_pair(t: Seq<u8>) -> int
    decreases t.len(),
{
    if t.len() < 2 {
        t.len() as int
    } else if t[0] == 58 && t[1] == 58 {
        0
    } else {
        1 + find_pair(t.drop_first())
    }
}

proof fn lemma_find_pair(t: Seq<u8>, i: int)
    requires
        0 <= i <= t.len(),
        forall|j: int| 0 <= j < i && j + 1 < t.len() ==> !(#[trigger] t[j] == 58 && t[j + 1] == 58),
        i == t.len() || (i + 1 < t.len() && t[i] == 58 && t[i + 1] == 58),
    ensures
        find_pair(t) == i,
    decreases t.len(),
{
    if t.len() >= 2 && i > 0 {
        assert(!(t[0] == 58 && t[1] == 58));
        let u = t.drop_first();
        assert forall|j: int| 0 <= j < i - 1 && j + 1 < u.len() implies !(#[trigger] u[j] == 58 && u[j + 1] == 58) by {
            assert(u[j] == t[j + 1] && u[j + 1] == t[j + 2]);
        }
        if i < t.len() {
            assert(u[i - 1] == t[i] && u[i] == t[i + 1]);
        }
        lemma_find_pair(u, i - 1);
    } else if t.len() < 2 && i == 0 {
        assert(t.len() == 0);
    } else if t.len() == 1 && i == 1 {
    }
}

/// Index of the first `::` in `s[start..end]`, or `end`.
fn find_pair_at(s: &[u8], start: usize, end: usize) -> (r: usize)
    requires
        start <= end <= s@.len(),
    ensures
        start <= r <= end,
        r - start == find_pair(s@.subrange(start as int, end as int)),
        r < end ==> r + 1 < end && s@[r as int] == 58 && s@[r + 1] == 58,
{
    let ghost t = s@.subrange(start as int, end as int);
    let mut i: usize = start;
    while i < end && i < end - 1 && !(s[i] == 58 && s[i + 1] == 58)
        invariant
            start <= i <= end <= s@.len(),
            t == s@.subrange(start as int, end as int),
            forall|j: int| start <= j < i && j + 1 < end ==> !(#[trigger] s@[j] == 58 && s@[j + 1] == 58),
        decreases end - i,
    {
        i = i + 1;
    }
    let r = if i < end && i < end - 1 {
        i
    } else {
        end
    };
    proof {
        assert forall|j: int| 0 <= j < r - start && j + 1 < t.len() implies !(#[trigger] t[j] == 58 && t[j + 1] == 58) by {
            assert(t[j] == s@[start + j] && t[j + 1] == s@[start + j + 1]);
        }
        if r < end {
            assert(t[r - start] == s@[r as int] && t[r - start + 1] == s@[r + 1]);
        }
        lemma_find_pair(t, r - start);
    }
    r
}

/// The colon-separated hex groups written in `t`, however many there are.
pub open spec fn parse_group_list(t: Seq<u8>) -> Option<Seq<u16>>
    decreases t.len(),
{
    let i = find(t, 58);
    if !(0 <= i < t.len()) {
        match parse_group(t) {
            Some(v) => Some(seq![v as u16]),
            None => None,
        }
    } else {
        match (parse_group(t.subrange(0, i)), parse_group_list(t.subrange(i + 1, t.len() as int))) {
            (Some(v), Some(rest)) => Some(seq![v as u16] + rest),
            _ => None,
        }
    }
}

/// The eight groups of an IPv6 literal in standard text form: eight groups,
/// or groups around one `::` that stands for one or more zero groups.
pub open spec fn parse_ipv6(t: Seq<u8>) -> Option<Seq<u16>> {
    let d = find_pair(t);
    if d == t.len() {
        parse_groups(t, 8)
    } else {
        let left = if d == 0 {
            Some(Seq::<u16>::empty())
        } else {
            parse_group_list(t.subrange(0, d))
        };
        let right = if d + 2 == t.len() {
            Some(Seq::<u16>::empty())
        } else {
            parse_group_list(t.subrange(d + 2, t.len() as int))
        };
        match (left, right) {
            (Some(a), Some(b)) => if a.len() + b.len() <= 7 {
                Some(a + Seq::new((8 - a.len() - b.len()) as nat, |k: int| 0u16) + b)
            } else {
                None
            },
            _ => None,
        }
    }
}

/// Reads colon-separated hex groups from `s[start..end]`.
fn parse_group_list_at(s: &[u8], start: usize, end: usize) -> (r: Option<Vec<u16>>)
    requires
        start <= end <= s@.len(),
    ensures
        match r {
            Some(g) => parse_group_list(s@.subrange(start as int, end as int)) == Some(g@),
            None => parse_group_list(s@.subrange(start as int, end as int)) is None,
        },
    decreases end - start,
{
    let ghost t = s@.subrange(start as int, end as int);
    let sep = find_byte(s, start, end, 58);
    if sep == end {
        return match parse_group_at(s, start, end) {
            Some(v) => {
                let out: Vec<u16> = vec![v];
                assert(out@ =~= seq![v]);
                Some(out)
            },
            None => None,
        };
    }
    proof {
        assert(t.subrange(0, sep - start) =~= s@.subrange(start as int, sep as int));
        assert(t.subrange(sep - start + 1, t.len() as int) =~= s@.subrange(sep + 1, end as int));
    }
    match parse_group_at(s, start, sep) {
        Some(v) => match parse_group_list_at(s, sep + 1, end) {
            Some(rest) => {
                let mut out: Vec<u16> = vec![v];
                let mut rest = rest;
                let ghost rest_view = rest@;
                out.append(&mut rest);
                assert(out@ =~= seq![v] + rest_view);
                Some(out)
            },
            None => None,
        },
        None => None,
    }
}

/// Reads an IPv6 literal in standard text form from `s[start..end]`.
fn parse_ipv6_at(s: &[u8], start: usize, end: usize) -> (r: Option<Vec<u16>>)
    requires
        start <= end <= s@.len(),
    ensures
        match r {
            Some(g) => parse_ipv6(s@.subrange(start as int, end as int)) == Some(g@),
            None => parse_ipv6(s@.subrange(start as int, end as int)) is None,
        },
{
    let ghost t = s@.subrange(start as int, end as int);
    let d = find_pair_at(s, start, end);
    if d == end {
        return parse_groups_at(s, start, end, 8);
    }
    proof {
        assert(t.subrange(0, d - start) =~= s@.subrange(start as int, d as int));
        assert(t.subrange(d - start + 2, t.len() as int) =~= s@.subrange(d + 2, end as int));
    }
    let left = if d == start {
        Vec::new()
    } else {
        match parse_group_list_at(s, start, d) {
            Some(g) => g,
            None => {
                return None;
            },
        }
    };
    let right = if d + 2 == end {
        Vec::new()
    } else {
        match parse_group_list_at(s, d + 2, end) {
            Some(g) => g,
            None => {
                return None;
            },
        }
    };
    assert(d == start ==> left@ =~= Seq::<u16>::empty());
    assert(d + 2 == end ==> right@ =~= Seq::<u16>::empty());
    if left.len() > 7 || right.len() > 7 - left.len() {
        return None;
    }
    let zeros = 8 - left.len() - right.len();
    let mut out = left;
    let ghost lv = out@;
    let mut k: usize = 0;
    while k < zeros
        invariant
            k <= zeros,
            out@ == lv + Seq::new(k as nat, |j: int| 0u16),
        decreases zeros - k,
    {
        out.push(0u16);
        k = k + 1;
        assert(out@ =~= lv + Seq::new(k as nat, |j: int| 0u16));
    }
    let mut right = right;
    let ghost rv = right@;
    out.append(&mut right);
    assert(out@ =~= lv + Seq::new((8 - lv.len() - rv.len()) as nat, |j: int| 0u16) + rv);
    Some(out)
}

/// Abstract network location.
pub enum HostView {
    IPv4(Seq<u8>),
    IPv6(Seq<u16>),
    Tor(Seq<u8>),
}

/// The host written in `t`: an IPv4 literal, else an IPv6 literal in
/// brackets, else a bare IPv6 literal, else an onion name.
pub open spec fn parse_host(t: Seq<u8>) -> Option<HostView> {
    match parse_octets(t, 4) {
        Some(o) => Some(HostView::IPv4(o)),
        None => if t.len() >= 2 && t[0] == 91 && t.last() == 93 && parse_ipv6(
            t.subrange(1, t.len() - 1),
        ) is Some {
            Some(HostView::IPv6(parse_ipv6(t.subrange(1, t.len() - 1))->0))
        } else if parse_ipv6(t) is Some {
            Some(HostView::IPv6(parse_ipv6(t)->0))
        } else if t.len() == ONION_LABEL_LEN + 6 && is_onion_label(t.subrange(0, 56))
            && t.subrange(56, 62) == onion_suffix() {
            Some(HostView::Tor(t.subrange(0, 56)))
        } else {
            None
        },
    }
}

/// Decodes the hex digits `s[start..end]`.
fn decode_hex(s: &[u8], start: usize, end: usize) -> (r: Option<Vec<u8>>)
    requires
        start <= end <= s@.len(),
    ensures
        match r {
            Some(b) => is_hex_text(s@.subrange(start as int, end as int)) && b@ == hex_decode(
                s@.subrange(start as int, end as int),
            ),
            None => !is_hex_text(s@.subrange(start as int, end as int)),
        },
{
    let ghost t = s@.subrange(start as int, end as int);
    if (end - start) % 2 != 0 {
        return None;
    }
    let mut out: Vec<u8> = Vec::new();
    let mut i: usize = start;
    while i < end
        invariant
            start <= i <= end <= s@.len(),
            (end - start) % 2 == 0,
            (i - start) % 2 == 0,
            t == s@.subrange(start as int, end as int),
            forall|j: int| start <= j < i ==> is_hex_digit(#[trigger] s@[j]),
            out@.len() == (i - start) / 2,
            forall|j: int| 0 <= j < out@.len() ==> out@[j] == #[trigger] hex_decode(t)[j],
        decreases end - i,
    {
        let hi = s[i];
        let lo = s[i + 1];
        let h: u8 = if 48 <= hi && hi <= 57 {
            hi - 48
        } else if 97 <= hi && hi <= 102 {
            hi - 87
        } else if 65 <= hi && hi <= 70 {
            hi - 55
        } else {
            proof {
                assert(t[i - start] == hi);
            }
            return None;
        };
        let l: u8 = if 48 <= lo && lo <= 57 {
            lo - 48
        } else if 97 <= lo && lo <= 102 {
            lo - 87
        } else if 65 <= lo && lo <= 70 {
            lo - 55
        } else {
            proof {
                assert(t[i + 1 - start] == lo);
            }
            return None;
        };
        proof {
            let j = (i - start) / 2;
            assert(t[2 * j] == hi && t[2 * j + 1] == lo);
        }
        out.push(h * 16 + l);
        i = i + 2;
    }
    assert forall|j: int| 0 <= j < t.len() implies is_hex_digit(#[trigger] t[j]) by {
        assert(t[j] == s@[start + j]);
    }
    assert(out@ =~= hex_decode(t));
    Some(out)
}

/// Reads `k` dot-separated decimal octets from `s[start..end]`.
fn parse_octets_at(s: &[u8], start: usize, end: usize, k: usize) -> (r: Option<Vec<u8>>)
    requires
        start <= end <= s@.len(),
    ensures
        match r {
            Some(o) => parse_octets(s@.subrange(start as int, end as int), k as nat) == Some(o@),
            None => parse_octets(s@.subrange(start as int, end as int), k as nat) is None,
        },
    decreases k,
{
    let ghost t = s@.subrange(start as int, end as int);
    if k <= 1 {
        return match parse_decimal(s, start, end, 3, 255) {
            Some(v) => {
                let out: Vec<u8> = vec![v as u8];
                assert(out@ =~= seq![v as u8]);
                Some(out)
            },
            None => None,
        };
    }
    let dot = find_byte(s, start, end, 46);
    if dot == end {
        return None;
    }
    proof {
        assert(t.subrange(0, dot - start) =~= s@.subrange(start as int, dot as int));
        assert(t.subrange(dot - start + 1, t.len() as int) =~= s@.subrange(dot + 1, end as int));
    }
    match parse_decimal(s, start, dot, 3, 255) {
        Some(v) => match parse_octets_at(s, dot + 1, end, k - 1) {
            Some(rest) => {
                let mut out: Vec<u8> = vec![v as u8];
                let mut rest = rest;
                let ghost rest_view = rest@;
                out.append(&mut rest);
                assert(out@ =~= seq![v as u8] + rest_view);
                Some(out)
            },
            None => None,
        },
        None => None,
    }
}

/// Why a peer address text was refused.
#[derive(PartialEq, Eq, Structural, Clone, Copy, Debug)]
pub enum AddressFormatError {
    /// No `@` separates the node id from the host.
    MissingSeparator,
    /// The node id is not 66 hex digits of a valid public key.
    InvalidNodeId,
    /// The host is no IPv4 literal, IPv6 literal (bare or in brackets)
    /// or onion name.
    InvalidHost,
    /// The port is not a decimal number below 65536.
    InvalidPort,
}

/// Network location of a peer.
#[derive(Debug)]
pub enum InetAddr {
    /// Four octets.
    IPv4(Vec<u8>),
    /// Eight 16-bit groups.
    IPv6(Vec<u16>),
    /// The 56-character label of a Tor v3 onion name.
    Tor(Vec<u8>),
}

impl InetAddr {
    pub open spec fn view(&self) -> HostView {
        match self {
            InetAddr::IPv4(o) => HostView::IPv4(o@),
            InetAddr::IPv6(g) => HostView::IPv6(g@),
            InetAddr::Tor(l) => HostView::Tor(l@),
        }
    }

    /// Whether this is an onion-service location.
    pub fn is_tor(&self) -> (r: bool)
        ensures
            r == (self.view() is Tor),
    {
        match self {
            InetAddr::IPv4(_) => false,
            InetAddr::IPv6(_) => false,
            InetAddr::Tor(_) => true,
        }
    }
}

/// Network location and port.
#[derive(Debug)]
pub struct InetSocketAddr {
    pub address: InetAddr,
    pub port: u16,
}

/// Abstract peer address.
pub struct NodeAddrView {
    pub node_id: Seq<u8>,
    pub host: HostView,
    pub port: u16,
}

/// A peer: its node id (a compressed public key) and where it listens.
#[derive(Debug)]
pub struct NodeAddr {
    pub node_id: Vec<u8>,
    pub inet_addr: InetSocketAddr,
}

impl View for NodeAddr {
    type V = NodeAddrView;

    open spec fn view(&self) -> NodeAddrView {
        NodeAddrView {
            node_id: self.node_id@,
            host: self.inet_addr.address.view(),
            port: self.inet_addr.port,
        }
    }
}

/// End of the host text in what follows the `@`: up to the closing
/// bracket of a bracketed IPv6 literal; all of it when it holds two colons
/// or more (a bare IPv6 literal, which leaves no room for a port); else up
/// to the first colon.
pub open spec fn host_end(rest: Seq<u8>) -> int {
    let c = find(rest, 58);
    if rest.len() > 0 && rest[0] == 91 {
        if find(rest, 93) == rest.len() {
            rest.len() as int
        } else {
            find(rest, 93) + 1
        }
    } else if c < rest.len() && find(rest.subrange(c + 1, rest.len() as int), 58) < rest.len() - c - 1 {
        rest.len() as int
    } else {
        c
    }
}

/// The peer address written in `s`: node id, `@`, host, and optionally
/// `:` and a port.
pub open spec fn parse_node_addr(s: Seq<u8>) -> Result<NodeAddrView, AddressFormatError> {
    let at = find(s, 64);
    let id = s.subrange(0, at);
    let rest = s.subrange(at + 1, s.len() as int);
    let he = host_end(rest);
    let host = rest.subrange(0, he);
    let port = if he == rest.len() {
        Some(LIGHTNING_P2P_DEFAULT_PORT as nat)
    } else if rest[he] == 58 {
        parse_dec(rest.subrange(he + 1, rest.len() as int), 5, 65535)
    } else {
        None
    };
    if at == s.len() {
        Err(AddressFormatError::MissingSeparator)
    } else if !(id.len() == NODE_ID_HEX_LEN && is_hex_text(id) && is_public_key(hex_decode(id))) {
        Err(AddressFormatError::InvalidNodeId)
    } else if port is None {
        Err(AddressFormatError::InvalidPort)
    } else if parse_host(host) is None {
        Err(AddressFormatError::InvalidHost)
    } else {
        Ok(NodeAddrView { node_id: hex_decode(id), host: parse_host(host)->0, port: port->0 as u16 })
    }
}

/// Octets in decimal, separated by dots.
pub open spec fn octets_text(o: Seq<u8>) -> Seq<u8>
    decreases o.len(),
{
    if o.len() <= 1 {
        dec_digits(o[0] as nat)
    } else {
        dec_digits(o[0] as nat) + seq![46u8] + octets_text(o.drop_first())
    }
}

/// Text of a host.
pub open spec fn host_text(h: HostView) -> Seq<u8> {
    match h {
        HostView::IPv4(o) => octets_text(o),
        HostView::IPv6(g) => seq![91u8] + groups_text(g) + seq![93u8],
        HostView::Tor(l) => l + onion_suffix(),
    }
}

/// Canonical text of a peer address: lower-case node id and an explicit port.
pub open spec fn format_node_addr(a: NodeAddrView) -> Seq<u8> {
    hex_encode(a.node_id) + seq![64u8] + host_text(a.host) + seq![58u8] + dec_digits(a.port as nat)
}

/// Whether a host is four octets or an onion label.
pub open spec fn host_valid(h: HostView) -> bool {
    match h {
        HostView::IPv4(o) => o.len() == 4,
        HostView::IPv6(g) => g.len() == 8,
        HostView::Tor(l) => is_onion_label(l),
    }
}

/// Whether a peer address can be written down and read back.
pub open spec fn node_addr_valid(a: NodeAddrView) -> bool {
    &&& a.node_id.len() == 33
    &&& is_public_key(a.node_id)
    &&& host_valid(a.host)
}

/// Reads the host in `s[start..end]`.
fn parse_host_at(s: &[u8], start: usize, end: usize) -> (r: Option<InetAddr>)
    requires
        start <= end <= s@.len(),
    ensures
        match r {
            Some(h) => parse_host(s@.subrange(start as int, end as int)) == Some(h.view()),
            None => parse_host(s@.subrange(start as int, end as int)) is None,
        },
{
    let ghost t = s@.subrange(start as int, end as int);
    match parse_octets_at(s, start, end, 4) {
        Some(o) => {
            return Some(InetAddr::IPv4(o));
        },
        None => {},
    }
    if end - start >= 2 && s[start] == 91 && s[end - 1] == 93 {
        proof {
            assert(t.subrange(1, t.len() - 1) =~= s@.subrange(start + 1, end - 1));
        }
        match parse_ipv6_at(s, start + 1, end - 1) {
            Some(g) => {
                return Some(InetAddr::IPv6(g));
            },
            None => {},
        }
    }
    proof {
        if t.len() >= 2 {
            assert(t[0] == s@[start as int] && t.last() == s@[end - 1]);
            assert(t.subrange(1, t.len() - 1) =~= s@.subrange(start + 1, end - 1));
        }
    }
    assert(!(t.len() >= 2 && t[0] == 91 && t.last() == 93 && parse_ipv6(t.subrange(1, t.len() - 1)) is Some));
    match parse_ipv6_at(s, start, end) {
        Some(g) => {
            return Some(InetAddr::IPv6(g));
        },
        None => {},
    }
    if end - start != ONION_LABEL_LEN + 6 {
        return None;
    }
    let mut i: usize = start;
    while i < start + ONION_LABEL_LEN
        invariant
            start <= i <= start + ONION_LABEL_LEN,
            end == start + ONION_LABEL_LEN + 6,
            end <= s@.len(),
            t == s@.subrange(start as int, end as int),
            parse_octets(t, 4) is None,
            !(t.len() >= 2 && t[0] == 91 && t.last() == 93 && parse_ipv6(t.subrange(1, t.len() - 1)) is Some),
            parse_ipv6(t) is None,
            forall|j: int| start <= j < i ==> is_base32(#[trigger] s@[j]),
        decreases start + ONION_LABEL_LEN - i,
    {
        let c = s[i];
        if !((97 <= c && c <= 122) || (50 <= c && c <= 55)) {
            proof {
                let l = t.subrange(0, 56);
                assert(l[i - start] == c);
                assert(!is_base32(l[i - start]));
                assert(!is_onion_label(l));
            }
            return None;
        }
        i = i + 1;
    }
    let k = start + ONION_LABEL_LEN;
    if !(s[k] == 46 && s[k + 1] == 111 && s[k + 2] == 110 && s[k + 3] == 105 && s[k + 4] == 111
        && s[k + 5] == 110) {
        proof {
            if t.subrange(56, 62) == onion_suffix() {
                assert(t.subrange(56, 62)[0] == s@[k as int]);
                assert(t.subrange(56, 62)[1] == s@[k + 1]);
                assert(t.subrange(56, 62)[2] == s@[k + 2]);
                assert(t.subrange(56, 62)[3] == s@[k + 3]);
                assert(t.subrange(56, 62)[4] == s@[k + 4]);
                assert(t.subrange(56, 62)[5] == s@[k + 5]);
            }
        }
        return None;
    }
    assert(t.subrange(56, 62) =~= onion_suffix());
    let label = crate::bytes::copy_range(s, start, k);
    assert(label@ =~= t.subrange(0, 56));
    assert forall|j: int| 0 <= j < 56 implies is_base32(#[trigger] t.subrange(0, 56)[j]) by {
        assert(t.subrange(0, 56)[j] == s@[start + j]);
    }
    Some(InetAddr::Tor(label))
}

proof fn lemma_find_after(x: Seq<u8>, c: u8, y: Seq<u8>)
    requires
        forall|j: int| 0 <= j < x.len() ==> x[j] != c,
    ensures
        find(x + seq![c] + y, c) == x.len(),
{
    let s = x + seq![c] + y;
    assert forall|j: int| 0 <= j < x.len() implies s[j] != c by {
        assert(s[j] == x[j]);
    }
    lemma_find(s, c, x.len() as int);
}

proof fn lemma_find_none(x: Seq<u8>, c: u8)
    requires
        forall|j: int| 0 <= j < x.len() ==> x[j] != c,
    ensures
        find(x, c) == x.len(),
{
    lemma_find(x, c, x.len() as int);
}

proof fn lemma_octet_digits(v: u8)
    ensures
        parse_dec(dec_digits(v as nat), 3, 255) == Some(v as nat),
        forall|j: int| 0 <= j < dec_digits(v as nat).len() ==> is_digit(#[trigger] dec_digits(v as nat)[j]),
{
    reveal_with_fuel(pow10, 4);
    lemma_dec_round_trip(v as nat, 3);
}

/// Octets written out and read back.
proof fn lemma_octets_round_trip(o: Seq<u8>)
    requires
        o.len() >= 1,
    ensures
        parse_octets(octets_text(o), o.len()) == Some(o),
        forall|j: int| 0 <= j < octets_text(o).len() ==> {
            let c = #[trigger] octets_text(o)[j];
            is_digit(c) || c == 46
        },
    decreases o.len(),
{
    let d = dec_digits(o[0] as nat);
    lemma_octet_digits(o[0]);
    if o.len() <= 1 {
        assert(seq![o[0]] =~= o);
        if find(d, 46) != d.len() {
            lemma_find_none(d, 46);
        }
        reveal_with_fuel(parse_octets, 2);
    } else {
        let rest = o.drop_first();
        lemma_octets_round_trip(rest);
        let t = octets_text(o);
        assert(t == d + seq![46u8] + octets_text(rest));
        lemma_find_after(d, 46, octets_text(rest));
        assert(t.subrange(0, d.len() as int) =~= d);
        assert(t.subrange(d.len() as int + 1, t.len() as int) =~= octets_text(rest));
        assert(seq![o[0]] + rest =~= o);
        assert forall|j: int| 0 <= j < t.len() implies {
            let c = #[trigger] t[j];
            is_digit(c) || c == 46
        } by {
            if j > d.len() {
                assert(t[j] == octets_text(rest)[j - d.len() - 1]);
            } else if j < d.len() {
                assert(t[j] == d[j]);
            }
        }
    }
}

/// Hex groups written out and read back.
proof fn lemma_groups_round_trip(g: Seq<u16>)
    requires
        g.len() >= 1,
    ensures
        parse_groups(groups_text(g), g.len()) == Some(g),
        forall|j: int| 0 <= j < groups_text(g).len() ==> {
            let c = #[trigger] groups_text(g)[j];
            (is_hex_digit(c) || c == 58) && c != 93 && c != 46 && c != 91
        },
    decreases g.len(),
{
    let d = hexnum_digits(g[0] as nat);
    reveal_with_fuel(pow16, 5);
    lemma_hexnum_round_trip(g[0] as nat, 4);
    if g.len() <= 1 {
        assert(seq![g[0]] =~= g);
        reveal_with_fuel(parse_groups, 2);
    } else {
        let rest = g.drop_first();
        lemma_groups_round_trip(rest);
        let t = groups_text(g);
        assert(t == d + seq![58u8] + groups_text(rest));
        lemma_find_after(d, 58, groups_text(rest));
        assert(t.subrange(0, d.len() as int) =~= d);
        assert(t.subrange(d.len() as int + 1, t.len() as int) =~= groups_text(rest));
        assert(seq![g[0]] + rest =~= g);
        assert forall|j: int| 0 <= j < t.len() implies {
            let c = #[trigger] t[j];
            (is_hex_digit(c) || c == 58) && c != 93 && c != 46 && c != 91
        } by {
            if j > d.len() {
                assert(t[j] == groups_text(rest)[j - d.len() - 1]);
            } else if j < d.len() {
                assert(t[j] == d[j]);
            }
        }
    }
}

proof fn lemma_host_round_trip(h: HostView, p: Seq<u8>)
    requires
        host_valid(h),
        forall|j: int| 0 <= j < p.len() ==> #[trigger] p[j] != 58,
    ensures
        parse_host(host_text(h)) == Some(h),
        host_end(host_text(h) + seq![58u8] + p) == host_text(h).len(),
        forall|j: int| 0 <= j < host_text(h).len() ==> #[trigger] host_text(h)[j] < 128,
{
    let ht = host_text(h);
    let rest = ht + seq![58u8] + p;
    match h {
        HostView::IPv4(o) => {
            lemma_octets_round_trip(o);
            assert forall|j: int| 0 <= j < ht.len() implies ht[j] != 58 by {}
            lemma_find_after(ht, 58, p);
            assert(rest[0] == ht[0]);
            assert(rest.subrange(ht.len() as int + 1, rest.len() as int) =~= p);
            lemma_find_none(p, 58);
        },
        HostView::IPv6(g) => {
            lemma_groups_round_trip(g);
            let gt = groups_text(g);
            assert forall|j: int| 0 <= j < ht.len() implies ht[j] != 46 by {
                if 0 < j < ht.len() - 1 {
                    assert(ht[j] == gt[j - 1]);
                }
            }
            lemma_find_none(ht, 46);
            assert(ht.subrange(1, ht.len() - 1) =~= gt);
            assert(rest == seq![91u8] + gt + seq![93u8] + (seq![58u8] + p));
            assert forall|j: int| 0 <= j < (seq![91u8] + gt).len() implies (seq![91u8] + gt)[j] != 93 by {
                if j > 0 {
                    assert((seq![91u8] + gt)[j] == gt[j - 1]);
                }
            }
            lemma_find_after(seq![91u8] + gt, 93, seq![58u8] + p);
            lemma_groups_no_pair(g);
            lemma_find_pair(gt, gt.len() as int);
            assert forall|j: int| 0 <= j < ht.len() implies #[trigger] ht[j] < 128 by {
                if 0 < j < ht.len() - 1 {
                    assert(ht[j] == gt[j - 1]);
                }
            }
        },
        HostView::Tor(l) => {
            assert(ht == l + seq![46u8] + onion_suffix().drop_first());
            assert forall|j: int| 0 <= j < l.len() implies l[j] != 46 by {
                assert(is_base32(l[j]));
            }
            lemma_find_after(l, 46, onion_suffix().drop_first());
            assert(ht.subrange(0, 56) =~= l);
            assert(ht.subrange(56, 62) =~= onion_suffix());
            assert(parse_dec(ht.subrange(0, 56), 3, 255) is None);
            assert forall|j: int| 0 <= j < ht.len() implies ht[j] != 58 && #[trigger] ht[j] < 128 by {
                if j < 56 {
                    assert(ht[j] == l[j]);
                    assert(is_base32(l[j]));
                } else {
                    assert(ht[j] == onion_suffix()[j - 56]);
                }
            }
            lemma_find_after(ht, 58, p);
            assert(rest[0] == l[0]);
            assert(is_base32(l[0]));
            assert(rest.subrange(ht.len() as int + 1, rest.len() as int) =~= p);
            lemma_find_none(p, 58);
            lemma_find_none(ht, 58);
            lemma_find_pair(ht, ht.len() as int);
            assert(ht[0] == l[0]);
        },
    }
}

proof fn lemma_hex_round_trip(b: Seq<u8>)
    ensures
        is_hex_text(hex_encode(b)),
        hex_decode(hex_encode(b)) =~= b,
        forall|j: int| 0 <= j < hex_encode(b).len() ==> #[trigger] hex_encode(b)[j] != 64,
{
    let h = hex_encode(b);
    assert forall|j: int| 0 <= j < h.len() implies is_hex_digit(#[trigger] h[j]) && h[j] != 64 by {
        assert(b[j / 2] / 16 < 16 && b[j / 2] % 16 < 16);
    }
    assert(h.len() % 2 == 0);
    assert forall|i: int| 0 <= i < b.len() implies #[trigger] hex_decode(h)[i] == b[i] by {
        assert((2 * i) / 2 == i && (2 * i) % 2 == 0 && (2 * i + 1) / 2 == i && (2 * i + 1) % 2 == 1)
            by (nonlinear_arith);
        let x = b[i];
        assert(hex_nibble(hex_digit((x / 16) as nat)) == x / 16);
        assert(hex_nibble(hex_digit((x % 16) as nat)) == x % 16);
        assert((x / 16) * 16 + x % 16 == x) by (nonlinear_arith);
    }
}

/// Writing a valid peer address in its canonical form and reading it
/// back gives the same address.
pub proof fn lemma_format_parse_round_trip(a: NodeAddrView)
    requires
        node_addr_valid(a),
    ensures
        parse_node_addr(format_node_addr(a)) == Ok::<NodeAddrView, AddressFormatError>(a),
{
    let hx = hex_encode(a.node_id);
    let ht = host_text(a.host);
    let pt = dec_digits(a.port as nat);
    let s = format_node_addr(a);
    lemma_hex_round_trip(a.node_id);
    reveal_with_fuel(pow10, 6);
    lemma_dec_round_trip(a.port as nat, 5);
    assert forall|j: int| 0 <= j < pt.len() implies #[trigger] pt[j] != 58 by {
        assert(is_digit(pt[j]));
    }
    lemma_host_round_trip(a.host, pt);
    assert(s == hx + seq![64u8] + (ht + seq![58u8] + pt));
    lemma_find_after(hx, 64, ht + seq![58u8] + pt);
    let rest = s.subrange(hx.len() as int + 1, s.len() as int);
    assert(s.subrange(0, hx.len() as int) =~= hx);
    assert(rest =~= ht + seq![58u8] + pt);
    assert(rest[ht.len() as int] == 58);
    assert(rest.subrange(0, ht.len() as int) =~= ht);
    assert(rest.subrange(ht.len() as int + 1, rest.len() as int) =~= pt);
}

/// Malformed address texts are refused: a text with no `@`, with a node id
/// that is not 66 hex digits of a valid public key, with a port that is not
/// a decimal number below 65536, or with a host that is no IPv4 literal,
/// bracketed IPv6 literal or onion name, reads as an error.
pub proof fn lemma_malformed_refused(s: Seq<u8>)
    requires
        ({
            let at = find(s, 64);
            let id = s.subrange(0, at);
            let rest = s.subrange(at + 1, s.len() as int);
            let he = host_end(rest);
            ||| at == s.len()
            ||| !(id.len() == NODE_ID_HEX_LEN && is_hex_text(id) && is_public_key(hex_decode(id)))
            ||| (he < rest.len() && rest[he] != 58)
            ||| (he < rest.len() && parse_dec(rest.subrange(he + 1, rest.len() as int), 5, 65535) is None)
            ||| parse_host(rest.subrange(0, he)) is None
        }),
    ensures
        parse_node_addr(s) is Err,
{
}

/// Whether `t` holds no `@`.
pub open spec fn no_at(t: Seq<u8>) -> bool {
    forall|j: int| 0 <= j < t.len() ==> #[trigger] t[j] != 64
}

proof fn lemma_find_hit(t: Seq<u8>, c: u8)
    ensures
        0 <= find(t, c) <= t.len(),
        find(t, c) < t.len() ==> t[find(t, c)] == c,
    decreases t.len(),
{
    if t.len() > 0 && t[0] != c {
        lemma_find_hit(t.drop_first(), c);
        if find(t, c) < t.len() {
            assert(t.drop_first()[find(t, c) - 1] == t[find(t, c)]);
        }
    }
}

proof fn lemma_find_pair_hit(t: Seq<u8>)
    ensures
        0 <= find_pair(t) <= t.len(),
        find_pair(t) < t.len() ==> find_pair(t) + 1 < t.len() && t[find_pair(t)] == 58 && t[find_pair(t) + 1] == 58,
    decreases t.len(),
{
    if t.len() >= 2 && !(t[0] == 58 && t[1] == 58) {
        lemma_find_pair_hit(t.drop_first());
        let d = find_pair(t);
        if d < t.len() {
            assert(t.drop_first()[d - 1] == t[d] && t.drop_first()[d] == t[d + 1]);
        }
    }
}

/// `t` is `t[..i]`, a byte that is not `@`, and `t[i + 1..]`: it holds no
/// `@` when neither part does.
proof fn lemma_no_at_split(t: Seq<u8>, i: int)
    requires
        0 <= i < t.len(),
        t[i] != 64,
        no_at(t.subrange(0, i)),
        no_at(t.subrange(i + 1, t.len() as int)),
    ensures
        no_at(t),
{
    assert forall|j: int| 0 <= j < t.len() implies #[trigger] t[j] != 64 by {
        if j < i {
            assert(t[j] == t.subrange(0, i)[j]);
        } else if j > i {
            assert(t[j] == t.subrange(i + 1, t.len() as int)[j - i - 1]);
        }
    }
}

proof fn lemma_group_no_at(t: Seq<u8>)
    requires
        parse_group(t) is Some,
    ensures
        no_at(t),
{
    assert forall|j: int| 0 <= j < t.len() implies #[trigger] t[j] != 64 by {
        assert(is_hex_digit(t[j]));
    }
}

proof fn lemma_octets_no_at(t: Seq<u8>, k: nat)
    requires
        parse_octets(t, k) is Some,
    ensures
        no_at(t),
    decreases k,
{
    lemma_find_hit(t, 46);
    let i = find(t, 46);
    if k <= 1 || i == t.len() {
        assert forall|j: int| 0 <= j < t.len() implies #[trigger] t[j] != 64 by {
            assert(is_digit(t[j]));
        }
    } else {
        lemma_octets_no_at(t.subrange(i + 1, t.len() as int), (k - 1) as nat);
        let a = t.subrange(0, i);
        assert forall|j: int| 0 <= j < a.len() implies #[trigger] a[j] != 64 by {
            assert(is_digit(a[j]));
        }
        lemma_no_at_split(t, i);
    }
}

proof fn lemma_groups_no_at(t: Seq<u8>, k: nat)
    requires
        parse_groups(t, k) is Some,
    ensures
        no_at(t),
    decreases k,
{
    lemma_find_hit(t, 58);
    let i = find(t, 58);
    if k <= 1 || i == t.len() {
        lemma_group_no_at(t);
    } else {
        lemma_groups_no_at(t.subrange(i + 1, t.len() as int), (k - 1) as nat);
        lemma_group_no_at(t.subrange(0, i));
        lemma_no_at_split(t, i);
    }
}

proof fn lemma_group_list_no_at(t: Seq<u8>)
    requires
        parse_group_list(t) is Some,
    ensures
        no_at(t),
    decreases t.len(),
{
    lemma_find_hit(t, 58);
    let i = find(t, 58);
    if !(0 <= i < t.len()) {
        lemma_group_no_at(t);
    } else {
        lemma_group_list_no_at(t.subrange(i + 1, t.len() as int));
        lemma_group_no_at(t.subrange(0, i));
        lemma_no_at_split(t, i);
    }
}

proof fn lemma_ipv6_no_at(t: Seq<u8>)
    requires
        parse_ipv6(t) is Some,
    ensures
        no_at(t),
{
    lemma_find_pair_hit(t);
    let d = find_pair(t);
    if d == t.len() {
        lemma_groups_no_at(t, 8);
    } else {
        let a = t.subrange(0, d);
        let b = t.subrange(d + 2, t.len() as int);
        if d > 0 {
            lemma_group_list_no_at(a);
        }
        if d + 2 < t.len() {
            lemma_group_list_no_at(b);
        }
        assert forall|j: int| 0 <= j < t.len() implies #[trigger] t[j] != 64 by {
            if j < d {
                assert(t[j] == a[j]);
            } else if j > d + 1 {
                assert(t[j] == b[j - d - 2]);
            }
        }
    }
}

proof fn lemma_host_no_at(t: Seq<u8>)
    requires
        parse_host(t) is Some,
    ensures
        no_at(t),
{
    if parse_octets(t, 4) is Some {
        lemma_octets_no_at(t, 4);
    } else if t.len() >= 2 && t[0] == 91 && t.last() == 93 && parse_ipv6(t.subrange(1, t.len() - 1)) is Some {
        let m = t.subrange(1, t.len() - 1);
        lemma_ipv6_no_at(m);
        assert forall|j: int| 0 <= j < t.len() implies #[trigger] t[j] != 64 by {
            if 0 < j < t.len() - 1 {
                assert(t[j] == m[j - 1]);
            }
        }
    } else if parse_ipv6(t) is Some {
        lemma_ipv6_no_at(t);
    } else {
        assert forall|j: int| 0 <= j < t.len() implies #[trigger] t[j] != 64 by {
            if j < 56 {
                assert(t[j] == t.subrange(0, 56)[j]);
                assert(is_base32(t.subrange(0, 56)[j]));
            } else {
                assert(t[j] == t.subrange(56, 62)[j - 56]);
            }
        }
    }
}

/// A text with a second `@` after the one that ends the node id is
/// refused: neither a host nor a port holds an `@`.
pub proof fn lemma_second_separator_refused(s: Seq<u8>)
    requires
        find(s, 64) < s.len(),
        find(s.subrange(find(s, 64) + 1, s.len() as int), 64) < s.len() - find(s, 64) - 1,
    ensures
        parse_node_addr(s) is Err,
{
    lemma_find_hit(s, 64);
    let at = find(s, 64);
    let rest = s.subrange(at + 1, s.len() as int);
    lemma_find_hit(rest, 64);
    lemma_find_hit(rest, 58);
    lemma_find_hit(rest, 93);
    if parse_node_addr(s) is Ok {
        let he = host_end(rest);
        let host = rest.subrange(0, he);
        lemma_host_no_at(host);
        assert(0 <= he <= rest.len());
        if he < rest.len() {
            let p = rest.subrange(he + 1, rest.len() as int);
            assert(rest[he] == 58);
            assert forall|j: int| 0 <= j < p.len() implies #[trigger] p[j] != 64 by {
                assert(is_digit(p[j]));
            }
            lemma_no_at_split(rest, he);
        } else {
            assert(host =~= rest);
        }
        let k = find(rest, 64);
        assert(rest[k] == 64);
    }
}

/// What a successful parse returns can itself be written down and read back.
pub proof fn lemma_parsed_is_valid(s: Seq<u8>)
    requires
        parse_node_addr(s) is Ok,
    ensures
        node_addr_valid(parse_node_addr(s)->Ok_0),
{
    let at = find(s, 64);
    let rest = s.subrange(at + 1, s.len() as int);
    let host = rest.subrange(0, host_end(rest));
    if parse_octets(host, 4) is Some {
        lemma_octets_len(host, 4);
    } else {
        if host.len() >= 2 && parse_ipv6(host.subrange(1, host.len() - 1)) is Some {
            lemma_ipv6_len(host.subrange(1, host.len() - 1));
        }
        if parse_ipv6(host) is Some {
            lemma_ipv6_len(host);
        }
    }
}

proof fn lemma_ipv6_len(t: Seq<u8>)
    requires
        parse_ipv6(t) is Some,
    ensures
        parse_ipv6(t)->0.len() == 8,
{
    if find_pair(t) == t.len() {
        lemma_groups_len(t, 8);
    }
}

/// Formatted groups hold no `::` and start with a hex digit.
proof fn lemma_groups_no_pair(g: Seq<u16>)
    requires
        g.len() >= 1,
    ensures
        forall|j: int| 0 <= j && j + 1 < groups_text(g).len() ==> !(#[trigger] groups_text(g)[j] == 58
            && groups_text(g)[j + 1] == 58),
        groups_text(g).len() >= 1,
        is_hex_digit(groups_text(g)[0]),
    decreases g.len(),
{
    let d = hexnum_digits(g[0] as nat);
    reveal_with_fuel(pow16, 5);
    lemma_hexnum_round_trip(g[0] as nat, 4);
    let t = groups_text(g);
    if g.len() > 1 {
        let rest = g.drop_first();
        lemma_groups_no_pair(rest);
        let rt = groups_text(rest);
        assert(t == d + seq![58u8] + rt);
        assert forall|j: int| 0 <= j && j + 1 < t.len() implies !(#[trigger] t[j] == 58 && t[j + 1] == 58) by {
            if j < d.len() {
                assert(t[j] == d[j]);
            } else if j == d.len() {
                assert(t[j + 1] == rt[0]);
            } else {
                assert(t[j] == rt[j - d.len() - 1] && t[j + 1] == rt[j - d.len()]);
            }
        }
        assert(t[0] == d[0]);
    } else {
        assert forall|j: int| 0 <= j && j + 1 < t.len() implies !(#[trigger] t[j] == 58 && t[j + 1] == 58) by {
            assert(t[j] == d[j]);
        }
    }
}

proof fn lemma_groups_len(t: Seq<u8>, k: nat)
    requires
        k >= 1,
        parse_groups(t, k) is Some,
    ensures
        parse_groups(t, k)->0.len() == k,
    decreases k,
{
    if k > 1 {
        let i = find(t, 58);
        lemma_groups_len(t.subrange(i + 1, t.len() as int), (k - 1) as nat);
    }
}

proof fn lemma_octets_len(t: Seq<u8>, k: nat)
    requires
        k >= 1,
        parse_octets(t, k) is Some,
    ensures
        parse_octets(t, k)->0.len() == k,
    decreases k,
{
    if k > 1 {
        let i = find(t, 46);
        lemma_octets_len(t.subrange(i + 1, t.len() as int), (k - 1) as nat);
    }
}

/// Reading any address text, writing the result in canonical form and
/// reading that again gives the same address: a second cycle changes nothing.
pub proof fn lemma_parse_format_idempotent(s: Seq<u8>)
    requires
        parse_node_addr(s) is Ok,
    ensures
        parse_node_addr(format_node_addr(parse_node_addr(s)->Ok_0)) == parse_node_addr(s),
{
    lemma_parsed_is_valid(s);
    lemma_format_parse_round_trip(parse_node_addr(s)->Ok_0);
}

impl NodeAddr {
    /// Reads a peer address from its text form. No I/O is performed.
    pub fn from_str(s: &str) -> (r: Result<NodeAddr, AddressFormatError>)
        ensures
            match r {
                Ok(a) => parse_node_addr(s.spec_bytes()) == Ok::<NodeAddrView, AddressFormatError>(a@),
                Err(e) => parse_node_addr(s.spec_bytes()) == Err::<NodeAddrView, AddressFormatError>(e),
            },
    {
        Self::from_bytes(s.as_bytes())
    }

    /// Reads a peer address from the bytes of its text form.
    pub fn from_bytes(s: &[u8]) -> (r: Result<NodeAddr, AddressFormatError>)
        ensures
            match r {
                Ok(a) => parse_node_addr(s@) == Ok::<NodeAddrView, AddressFormatError>(a@),
                Err(e) => parse_node_addr(s@) == Err::<NodeAddrView, AddressFormatError>(e),
            },
    {
        let n = s.len();
        let at = find_byte(s, 0, n, 64);
        assert(s@.subrange(0, n as int) =~= s@);
        if at == n {
            return Err(AddressFormatError::MissingSeparator);
        }
        let ghost id = s@.subrange(0, at as int);
        let ghost rest = s@.subrange(at + 1, n as int);
        let node_id = if at != NODE_ID_HEX_LEN {
            None
        } else {
            decode_hex(s, 0, at)
        };
        let node_id = match node_id {
            Some(b) => b,
            None => {
                return Err(AddressFormatError::InvalidNodeId);
            },
        };
        if !public_key_valid(node_id.as_slice()) {
            return Err(AddressFormatError::InvalidNodeId);
        }
        let colon = if at + 1 < n && s[at + 1] == 91 {
            let close = find_byte(s, at + 1, n, 93);
            if close == n {
                n
            } else {
                close + 1
            }
        } else {
            let c = find_byte(s, at + 1, n, 58);
            if c < n {
                let c2 = find_byte(s, c + 1, n, 58);
                proof {
                    assert(rest.subrange(c - at, rest.len() as int) =~= s@.subrange(c + 1, n as int));
                }
                if c2 < n {
                    n
                } else {
                    c
                }
            } else {
                c
            }
        };
        proof {
            assert(colon - at - 1 == host_end(rest));
            assert(rest.subrange(0, colon - at - 1) =~= s@.subrange(at + 1, colon as int));
            if colon < n {
                assert(rest[colon - at - 1] == s@[colon as int]);
                assert(rest.subrange(colon - at, rest.len() as int) =~= s@.subrange(colon + 1, n as int));
            }
        }
        let port: u16 = if colon == n {
            LIGHTNING_P2P_DEFAULT_PORT
        } else if s[colon] != 58 {
            return Err(AddressFormatError::InvalidPort);
        } else {
            match parse_decimal(s, colon + 1, n, 5, 65535) {
                Some(p) => p as u16,
                None => {
                    return Err(AddressFormatError::InvalidPort);
                },
            }
        };
        let address = match parse_host_at(s, at + 1, colon) {
            Some(h) => h,
            None => {
                return Err(AddressFormatError::InvalidHost);
            },
        };
        Ok(NodeAddr { node_id, inet_addr: InetSocketAddr { address, port } })
    }
}

/// Relies on `String::from_utf8_lossy`: ASCII bytes are valid UTF-8 and
/// each stands for the character of the same code.
#[verifier::external_body]
fn ascii_string(b: &[u8]) -> (r: String)
    ensures
        (forall|i: int| 0 <= i < b@.len() ==> #[trigger] b@[i] < 128) ==> r@ == Seq::new(
            b@.len(),
            |i: int| b@[i] as char,
        ),
{
    String::from_utf8_lossy(b).into_owned()
}

/// Lower-case hex digit of a value below 16.
fn hex_digit_exec(x: u8) -> (r: u8)
    requires
        x < 16,
    ensures
        r == hex_digit(x as nat),
{
    if x < 10 {
        48 + x
    } else {
        87 + x
    }
}

/// Appends the lower-case hex digits of `b`.
fn push_hex(out: &mut Vec<u8>, b: &[u8])
    ensures
        final(out)@ == old(out)@ + hex_encode(b@),
{
    let ghost start = out@;
    let mut i: usize = 0;
    while i < b.len()
        invariant
            i <= b@.len(),
            out@.len() == start.len() + 2 * i,
            forall|j: int| 0 <= j < start.len() ==> out@[j] == start[j],
            forall|j: int| 0 <= j < 2 * i ==> out@[start.len() + j] == #[trigger] hex_encode(b@)[j],
        decreases b@.len() - i,
    {
        let x = b[i];
        out.push(hex_digit_exec(x / 16));
        out.push(hex_digit_exec(x % 16));
        proof {
            assert((2 * i) / 2 == i && (2 * i) % 2 == 0 && (2 * i + 1) / 2 == i && (2 * i + 1) % 2 == 1)
                by (nonlinear_arith);
        }
        i = i + 1;
    }
    assert(final(out)@ =~= old(out)@ + hex_encode(b@));
}

/// Appends the octets `o[i..]` in decimal, separated by dots.
fn push_octets(out: &mut Vec<u8>, o: &[u8], i: usize)
    requires
        i < o@.len(),
    ensures
        final(out)@ == old(out)@ + octets_text(o@.subrange(i as int, o@.len() as int)),
    decreases o@.len() - i,
{
    let ghost t = o@.subrange(i as int, o@.len() as int);
    push_decimal(out, o[i] as u32);
    if i + 1 < o.len() {
        out.push(46u8);
        push_octets(out, o, i + 1);
        assert(t.drop_first() =~= o@.subrange(i + 1, o@.len() as int));
    }
    assert(final(out)@ =~= old(out)@ + octets_text(t));
}

/// The canonical text of a valid address is ASCII.
proof fn lemma_format_ascii(a: NodeAddrView)
    requires
        host_valid(a.host),
    ensures
        forall|i: int| 0 <= i < format_node_addr(a).len() ==> #[trigger] format_node_addr(a)[i] < 128,
{
    let hx = hex_encode(a.node_id);
    let ht = host_text(a.host);
    let pt = dec_digits(a.port as nat);
    let s = format_node_addr(a);
    lemma_hex_round_trip(a.node_id);
    reveal_with_fuel(pow10, 6);
    lemma_dec_round_trip(a.port as nat, 5);
    assert forall|j: int| 0 <= j < pt.len() implies #[trigger] pt[j] != 58 by {
        assert(is_digit(pt[j]));
    }
    lemma_host_round_trip(a.host, pt);
    assert forall|i: int| 0 <= i < s.len() implies #[trigger] s[i] < 128 by {
        if i < hx.len() {
            assert(s[i] == hx[i]);
            assert(is_hex_digit(hx[i]));
        } else if i > hx.len() && i < hx.len() + 1 + ht.len() {
            assert(s[i] == ht[i - hx.len() - 1]);
        } else if i > hx.len() + ht.len() + 1 {
            assert(s[i] == pt[i - hx.len() - ht.len() - 2]);
        }
    }
}

/// Appends the lower-case hex digits of `n`.
fn push_hexnum(out: &mut Vec<u8>, n: u16)
    ensures
        final(out)@ == old(out)@ + hexnum_digits(n as nat),
    decreases n,
{
    if n >= 16 {
        push_hexnum(out, n / 16);
    }
    out.push(hex_digit_exec((n % 16) as u8));
    assert(final(out)@ =~= old(out)@ + hexnum_digits(n as nat));
}

/// Appends the groups `g[i..]` in hex, separated by colons.
fn push_groups(out: &mut Vec<u8>, g: &[u16], i: usize)
    requires
        i < g@.len(),
    ensures
        final(out)@ == old(out)@ + groups_text(g@.subrange(i as int, g@.len() as int)),
    decreases g@.len() - i,
{
    let ghost t = g@.subrange(i as int, g@.len() as int);
    push_hexnum(out, g[i]);
    if i + 1 < g.len() {
        out.push(58u8);
        push_groups(out, g, i + 1);
        assert(t.drop_first() =~= g@.subrange(i + 1, g@.len() as int));
    }
    assert(final(out)@ =~= old(out)@ + groups_text(t));
}

impl NodeAddr {
    /// Canonical text of the address, as bytes: lower-case node id and an
    /// explicit port.
    pub fn format_bytes(&self) -> (r: Vec<u8>)
        requires
            host_valid(self@.host) || self@.host is Tor,
        ensures
            r@ == format_node_addr(self@),
    {
        let mut out: Vec<u8> = Vec::new();
        push_hex(&mut out, self.node_id.as_slice());
        out.push(64u8);
        match &self.inet_addr.address {
            InetAddr::IPv4(o) => {
                push_octets(&mut out, o.as_slice(), 0);
                assert(o@.subrange(0, o@.len() as int) =~= o@);
            },
            InetAddr::IPv6(g) => {
                out.push(91u8);
                push_groups(&mut out, g.as_slice(), 0);
                assert(g@.subrange(0, g@.len() as int) =~= g@);
                out.push(93u8);
            },
            InetAddr::Tor(l) => {
                let mut label = crate::bytes::copy_all(l.as_slice());
                out.append(&mut label);
                out.push(46u8);
                out.push(111u8);
                out.push(110u8);
                out.push(105u8);
                out.push(111u8);
                out.push(110u8);
            },
        }
        out.push(58u8);
        push_decimal(&mut out, self.inet_addr.port as u32);
        assert(out@ =~= format_node_addr(self@));
        out
    }

    /// Canonical text of the address: the characters of
    /// `format_node_addr`, which are all ASCII.
    pub fn to_string(&self) -> (r: String)
        requires
            host_valid(self@.host),
        ensures
            r@ == Seq::new(format_node_addr(self@).len(), |i: int| format_node_addr(self@)[i] as char),
    {
        let b = self.format_bytes();
        proof {
            lemma_format_ascii(self@);
        }
        ascii_string(b.as_slice())
    }
}

} // verus!
