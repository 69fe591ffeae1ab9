//! IP addresses as plain values, and parsing their textual forms.
//!
//! An IPv4 address is dotted decimal: four octets of one to three digits,
//! no leading zeros, each at most 255. An IPv6 address is up to eight
//! colon-separated groups of one to four hex digits, with at most one `::`
//! standing for one or more zero groups, and optionally a dotted IPv4 quad
//! in place of the last two groups.

use vstd::prelude::*;

use crate::bencode::{
    digits_end, digits_value, digits_val, is_ascii_digit, lemma_digits_end_bounds,
    lemma_digits_end_is,
};

verus! {

/// An IP address of either family, as its numeric value in network order.
#[derive(Clone, Copy, Debug, PartialEq, Eq, Structural)]
pub enum IpAddress {
    V4(u32),
    V6(u128),
}

/// The numeric values of a sequence of byte-sized octets.
pub open spec fn octets_model(os: Seq<u8>) -> Seq<int> {
    Seq::new(os.len(), |i: int| os[i] as int)
}

/// The numeric values of a sequence of 16-bit groups.
pub open spec fn groups_model(gs: Seq<u16>) -> Seq<int> {
    Seq::new(gs.len(), |i: int| gs[i] as int)
}

/// Parses `count` dot-separated decimal octets covering all of `b`.
pub open spec fn spec_parse_octets(b: Seq<u8>, count: nat) -> Option<Seq<int>>
    decreases count,
{
    if count == 0 {
        None
    } else {
        let k = digits_end(b);
        if k < 1 || k > 3 {
            None
        } else if b[0] == 0x30 && k > 1 {
            None
        } else if digits_val(b.take(k)) > 255 {
            None
        } else if count == 1 {
            if k == b.len() {
                Some(seq![digits_val(b.take(k))])
            } else {
                None
            }
        } else if k < b.len() && b[k] == 0x2e {
            match spec_parse_octets(b.skip(k + 1), (count - 1) as nat) {
                Some(rest) => Some(seq![digits_val(b.take(k))] + rest),
                None => None,
            }
        } else {
            None
        }
    }
}

/// Parses a dotted-quad IPv4 address covering all of `b`.
pub open spec fn spec_parse_ipv4(b: Seq<u8>) -> Option<u32> {
    match spec_parse_octets(b, 4) {
        Some(os) => Some(
            (os[0] * 0x1000000 + os[1] * 0x10000 + os[2] * 0x100 + os[3]) as u32,
        ),
        None => None,
    }
}

pub open spec fn is_hex_digit(b: u8) -> bool {
    is_ascii_digit(b) || 0x41 <= b <= 0x46 || 0x61 <= b <= 0x66
}

pub open spec fn hex_digit_val(b: u8) -> int {
    if is_ascii_digit(b) {
        b - 0x30
    } else if 0x41 <= b <= 0x46 {
        b - 0x41 + 10
    } else {
        b - 0x61 + 10
    }
}

/// The length of the longest run of hex digits at the front of `s`.
pub open spec fn hex_end(s: Seq<u8>) -> int
    decreases s.len(),
{
    if s.len() == 0 || !is_hex_digit(s[0]) {
        0
    } else {
        1 + hex_end(s.drop_first())
    }
}

/// The number written by a sequence of hex digits, most significant first.
pub open spec fn hex_val(ds: Seq<u8>) -> int
    decreases ds.len(),
{
    if ds.len() == 0 {
        0
    } else {
        hex_val(ds.drop_last()) * 16 + hex_digit_val(ds.last())
    }
}

/// `16^n`.
pub open spec fn pow16(n: nat) -> int
    decreases n,
{
    if n == 0 {
        1
    } else {
        16 * pow16((n - 1) as nat)
    }
}

proof fn lemma_pow16_mono(a: nat, b: nat)
    requires
        a <= b,
    ensures
        pow16(a) <= pow16(b),
        pow16(a) >= 1,
    decreases b,
{
    if b > 0 {
        if a == b {
            lemma_pow16_mono((a - 1) as nat, (b - 1) as nat);
        } else {
            lemma_pow16_mono(a, (b - 1) as nat);
        }
    }
}

proof fn lemma_hex_end_bounds(s: Seq<u8>)
    ensures
        0 <= hex_end(s) <= s.len(),
        forall|j: int| 0 <= j < hex_end(s) ==> is_hex_digit(s[j]),
        hex_end(s) < s.len() ==> !is_hex_digit(s[hex_end(s)]),
    decreases s.len(),
{
    if s.len() > 0 && is_hex_digit(s[0]) {
        lemma_hex_end_bounds(s.drop_first());
        assert forall|j: int| 0 <= j < hex_end(s) implies is_hex_digit(s[j]) by {
            if j > 0 {
                assert(is_hex_digit(s.drop_first()[j - 1]));
            }
        }
    }
}

proof fn lemma_hex_end_is(s: Seq<u8>, k: int)
    requires
        0 <= k <= s.len(),
        forall|j: int| 0 <= j < k ==> is_hex_digit(s[j]),
        k < s.len() ==> !is_hex_digit(s[k]),
    ensures
        hex_end(s) == k,
    decreases s.len(),
{
    if k == 0 {
    } else {
        assert(is_hex_digit(s[0]));
        assert forall|j: int| 0 <= j < k - 1 implies is_hex_digit(s.drop_first()[j]) by {
            assert(is_hex_digit(s[j + 1]));
        }
        lemma_hex_end_is(s.drop_first(), k - 1);
    }
}

proof fn lemma_hex_val_bounds(ds: Seq<u8>)
    requires
        forall|j: int| 0 <= j < ds.len() ==> is_hex_digit(ds[j]),
    ensures
        0 <= hex_val(ds) < pow16(ds.len()),
    decreases ds.len(),
{
    if ds.len() > 0 {
        lemma_hex_val_bounds(ds.drop_last());
    }
}

/// The index of the first `::` in `b`, or -1 when there is none.
pub open spec fn find_dcolon(b: Seq<u8>) -> int
    decreases b.len(),
{
    if b.len() < 2 {
        -1
    } else if b[0] == 0x3a && b[1] == 0x3a {
        0
    } else {
        let r = find_dcolon(b.drop_first());
        if r < 0 {
            -1
        } else {
            1 + r
        }
    }
}

proof fn lemma_find_dcolon_none(b: Seq<u8>)
    requires
        forall|j: int| 0 <= j < b.len() - 1 ==> !(#[trigger] b[j] == 0x3a && b[j + 1] == 0x3a),
    ensures
        find_dcolon(b) == -1,
    decreases b.len(),
{
    if b.len() >= 2 {
        assert forall|j: int| 0 <= j < b.drop_first().len() - 1 implies !(#[trigger] b.drop_first()[j]
            == 0x3a && b.drop_first()[j + 1] == 0x3a) by {
            assert(b.drop_first()[j] == b[j + 1] && b.drop_first()[j + 1] == b[j + 2]);
        }
        lemma_find_dcolon_none(b.drop_first());
    }
}

proof fn lemma_find_dcolon_at(b: Seq<u8>, i: int)
    requires
        0 <= i,
        i + 1 < b.len(),
        b[i] == 0x3a && b[i + 1] == 0x3a,
        forall|j: int| 0 <= j < i ==> !(#[trigger] b[j] == 0x3a && b[j + 1] == 0x3a),
    ensures
        find_dcolon(b) == i,
    decreases b.len(),
{
    if i > 0 {
        assert forall|j: int| 0 <= j < i - 1 implies !(#[trigger] b.drop_first()[j] == 0x3a
            && b.drop_first()[j + 1] == 0x3a) by {
            assert(b.drop_first()[j] == b[j + 1] && b.drop_first()[j + 1] == b[j + 2]);
        }
        assert(b.drop_first()[i - 1] == b[i] && b.drop_first()[i] == b[i + 1]);
        lemma_find_dcolon_at(b.drop_first(), i - 1);
    }
}

/// Parses colon-separated hex groups covering all of `b`; a dotted IPv4
/// quad may stand for the last two groups when `allow_v4` holds.
pub open spec fn spec_parse_groups(b: Seq<u8>, allow_v4: bool) -> Option<Seq<int>>
    decreases b.len(),
{
    if allow_v4 && spec_parse_ipv4(b) is Some {
        let a = spec_parse_ipv4(b)->0;
        Some(seq![a as int / 0x10000, a as int % 0x10000])
    } else {
        let k = hex_end(b);
        if k < 1 || k > 4 {
            None
        } else if k == b.len() {
            Some(seq![hex_val(b.take(k))])
        } else if k < b.len() && b[k] == 0x3a {
            match spec_parse_groups(b.skip(k + 1), allow_v4) {
                Some(rest) => Some(seq![hex_val(b.take(k))] + rest),
                None => None,
            }
        } else {
            None
        }
    }
}

/// The value of a sequence of 16-bit groups, most significant first.
pub open spec fn groups_val(gs: Seq<int>) -> int
    decreases gs.len(),
{
    if gs.len() == 0 {
        0
    } else {
        groups_val(gs.drop_last()) * 0x10000 + gs.last()
    }
}

proof fn lemma_groups_val_bounds(gs: Seq<int>)
    requires
        forall|j: int| 0 <= j < gs.len() ==> 0 <= #[trigger] gs[j] < 0x10000,
    ensures
        0 <= groups_val(gs) < pow16(4 * gs.len()),
    decreases gs.len(),
{
    if gs.len() > 0 {
        assert forall|j: int| 0 <= j < gs.drop_last().len() implies 0 <= #[trigger] gs.drop_last()[j]
            < 0x10000 by {
            assert(gs.drop_last()[j] == gs[j]);
        }
        lemma_groups_val_bounds(gs.drop_last());
        assert(pow16(4 * gs.len()) == 0x10000 * pow16((4 * (gs.len() - 1)) as nat)) by {
            reveal_with_fuel(pow16, 5);
        }
    }
}

proof fn lemma_parse_groups_bounds(b: Seq<u8>, allow_v4: bool)
    ensures
        spec_parse_groups(b, allow_v4) matches Some(gs) ==> 1 <= gs.len() && forall|j: int|
            0 <= j < gs.len() ==> 0 <= #[trigger] gs[j] < 0x10000,
    decreases b.len(),
{
    if allow_v4 && spec_parse_ipv4(b) is Some {
    } else {
        let k = hex_end(b);
        if 1 <= k <= 4 {
            lemma_hex_end_bounds(b);
            assert forall|j: int| 0 <= j < b.take(k).len() implies is_hex_digit(
                b.take(k)[j],
            ) by {
                assert(b.take(k)[j] == b[j]);
            }
            lemma_hex_val_bounds(b.take(k));
            lemma_pow16_mono(k as nat, 4);
            assert(pow16(4) == 0x10000) by {
                reveal_with_fuel(pow16, 5);
            }
            if k < b.len() && b[k] == 0x3a {
                lemma_parse_groups_bounds(b.skip(k + 1), allow_v4);
            }
        }
    }
}

/// Parses an IPv6 address covering all of `b`: eight groups, or fewer
/// around a single `::` that stands for the missing zero groups.
pub open spec fn spec_parse_ipv6(b: Seq<u8>) -> Option<u128> {
    let i = find_dcolon(b);
    if i < 0 {
        match spec_parse_groups(b, true) {
            Some(gs) => if gs.len() == 8 {
                Some(groups_val(gs) as u128)
            } else {
                None
            },
            None => None,
        }
    } else if find_dcolon(b.skip(i + 2)) >= 0 {
        None
    } else {
        let lhs = if i == 0 {
            Some(Seq::<int>::empty())
        } else {
            spec_parse_groups(b.take(i), false)
        };
        let rhs = if i + 2 == b.len() {
            Some(Seq::<int>::empty())
        } else {
            spec_parse_groups(b.skip(i + 2), true)
        };
        match (lhs, rhs) {
            (Some(l), Some(r)) => if l.len() + r.len() <= 7 {
                Some(
                    groups_val(
                        l + Seq::new((8 - l.len() - r.len()) as nat, |j: int| 0int) + r,
                    ) as u128,
                )
            } else {
                None
            },
            _ => None,
        }
    }
}

/// Parses an IP address of either family covering all of `b`: the IPv4
/// form is tried first.
pub open spec fn spec_parse_ip(b: Seq<u8>) -> Option<IpAddress> {
    match spec_parse_ipv4(b) {
        Some(a) => Some(IpAddress::V4(a)),
        None => match spec_parse_ipv6(b) {
            Some(a) => Some(IpAddress::V6(a)),
            None => None,
        },
    }
}

/// The length of the digit run starting at `lo`, not looking past `hi`.
fn digits_run_window(s: &[u8], lo: usize, hi: usize) -> (k: usize)
    requires
        lo <= hi <= s@.len(),
    ensures
        lo + k <= hi,
        k == digits_end(s@.subrange(lo as int, hi as int)),
{
    let mut i: usize = lo;
    while i < hi && 0x30 <= s[i] && s[i] <= 0x39
        invariant
            lo <= i <= hi,
            hi <= s@.len(),
            forall|j: int| lo <= j < i ==> is_ascii_digit(s@[j]),
        decreases hi - i,
    {
        i = i + 1;
    }
    proof {
        let w = s@.subrange(lo as int, hi as int);
        assert forall|j: int| 0 <= j < i - lo implies is_ascii_digit(w[j]) by {
            assert(w[j] == s@[lo + j]);
        }
        if (i - lo) < w.len() {
            assert(w[i - lo] == s@[i as int]);
        }
        lemma_digits_end_is(w, i - lo);
    }
    i - lo
}

/// Parses `count` dot-separated decimal octets covering `lo..hi`.
fn parse_octets_at(s: &[u8], lo: usize, hi: usize, count: u8) -> (r: Option<Vec<u8>>)
    requires
        lo <= hi <= s@.len(),
        1 <= count <= 4,
    ensures
        match r {
            Some(os) => spec_parse_octets(s@.subrange(lo as int, hi as int), count as nat)
                == Some(octets_model(os@)) && os@.len() == count,
            None => spec_parse_octets(s@.subrange(lo as int, hi as int), count as nat) is None,
        },
    decreases count,
{
    let ghost w = s@.subrange(lo as int, hi as int);
    let k = digits_run_window(s, lo, hi);
    if k < 1 || k > 3 {
        return None;
    }
    if s[lo] == 0x30 && k > 1 {
        return None;
    }
    proof {
        lemma_digits_end_bounds(w);
        assert forall|j: int| lo <= j < lo + k implies is_ascii_digit(s@[j]) by {
            assert(w[j - lo] == s@[j]);
        }
        assert(w.take(k as int) =~= s@.subrange(lo as int, lo + k));
    }
    let v = digits_value(s, lo, k);
    if v > 255 {
        return None;
    }
    let oct = v as u8;
    if count == 1 {
        if lo + k == hi {
            let mut os: Vec<u8> = Vec::new();
            os.push(oct);
            proof {
                assert(octets_model(os@) =~= seq![digits_val(w.take(k as int))]);
            }
            Some(os)
        } else {
            None
        }
    } else {
        if lo + k < hi && s[lo + k] == 0x2e {
            proof {
                assert(w[k as int] == s@[lo + k]);
                assert(w.skip(k + 1) =~= s@.subrange(lo + k + 1, hi as int));
            }
            match parse_octets_at(s, lo + k + 1, hi, count - 1) {
                Some(rest) => {
                    let mut os = rest;
                    let ghost prev = os@;
                    os.insert(0, oct);
                    proof {
                        assert(octets_model(os@) =~= seq![oct as int] + octets_model(prev));
                    }
                    Some(os)
                },
                None => None,
            }
        } else {
            proof {
                if k < w.len() {
                    assert(w[k as int] == s@[lo + k]);
                }
            }
            None
        }
    }
}

/// Parses a dotted-quad IPv4 address covering `lo..hi`.
fn parse_ipv4_range(s: &[u8], lo: usize, hi: usize) -> (r: Option<u32>)
    requires
        lo <= hi <= s@.len(),
    ensures
        r == spec_parse_ipv4(s@.subrange(lo as int, hi as int)),
{
    match parse_octets_at(s, lo, hi, 4) {
        Some(os) => {
            let a = (os[0] as u32) * 0x1000000 + (os[1] as u32) * 0x10000 + (os[2] as u32) * 0x100
                + (os[3] as u32);
            Some(a)
        },
        None => None,
    }
}

/// The length of the hex-digit run starting at `lo`, not looking past
/// `hi`.
fn hex_run_window(s: &[u8], lo: usize, hi: usize) -> (k: usize)
    requires
        lo <= hi <= s@.len(),
    ensures
        lo + k <= hi,
        k == hex_end(s@.subrange(lo as int, hi as int)),
{
    let mut i: usize = lo;
    while i < hi && (0x30 <= s[i] && s[i] <= 0x39 || 0x41 <= s[i] && s[i] <= 0x46 || 0x61 <= s[i]
        && s[i] <= 0x66)
        invariant
            lo <= i <= hi,
            hi <= s@.len(),
            forall|j: int| lo <= j < i ==> is_hex_digit(s@[j]),
        decreases hi - i,
    {
        i = i + 1;
    }
    proof {
        let w = s@.subrange(lo as int, hi as int);
        assert forall|j: int| 0 <= j < i - lo implies is_hex_digit(w[j]) by {
            assert(w[j] == s@[lo + j]);
        }
        if (i - lo) < w.len() {
            assert(w[i - lo] == s@[i as int]);
        }
        lemma_hex_end_is(w, i - lo);
    }
    i - lo
}

/// The value of the `k` hex digits starting at `lo`.
fn hex_value_window(s: &[u8], lo: usize, k: usize) -> (r: u16)
    requires
        lo + k <= s@.len(),
        1 <= k <= 4,
        forall|j: int| lo <= j < lo + k ==> is_hex_digit(s@[j]),
    ensures
        r == hex_val(s@.subrange(lo as int, lo + k)),
{
    let ghost ds = s@.subrange(lo as int, lo + k);
    let n = s.len();
    let mut acc: u16 = 0;
    let mut j: usize = 0;
    proof {
        assert(ds.take(0) =~= Seq::<u8>::empty());
    }
    while j < k
        invariant
            j <= k,
            1 <= k <= 4,
            lo + k <= s@.len(),
            n == s@.len(),
            ds == s@.subrange(lo as int, lo + k),
            forall|i: int| lo <= i < lo + k ==> is_hex_digit(s@[i]),
            acc == hex_val(ds.take(j as int)),
        decreases k - j,
    {
        proof {
            assert forall|i: int| 0 <= i < ds.take(j as int).len() implies is_hex_digit(
                ds.take(j as int)[i],
            ) by {
                assert(ds.take(j as int)[i] == ds[i] == s@[lo + i]);
            }
            lemma_hex_val_bounds(ds.take(j as int));
            lemma_pow16_mono(j as nat, 3);
            assert(pow16(3) == 0x1000) by {
                reveal_with_fuel(pow16, 4);
            }
            assert(ds.take(j + 1).drop_last() =~= ds.take(j as int));
            assert(ds.take(j + 1).last() == s@[lo + j]);
        }
        let c = s[lo + j];
        let d: u16 = if c <= 0x39 {
            (c - 0x30) as u16
        } else if c <= 0x46 {
            (c - 0x41) as u16 + 10
        } else {
            (c - 0x61) as u16 + 10
        };
        acc = acc * 16 + d;
        j = j + 1;
    }
    proof {
        assert(ds.take(k as int) =~= ds);
    }
    acc
}

/// The position of the first `::` at or after `lo`.
fn dcolon_from(s: &[u8], lo: usize) -> (r: Option<usize>)
    requires
        lo <= s@.len(),
    ensures
        match r {
            Some(i) => lo <= i && i + 1 < s@.len() && find_dcolon(s@.skip(lo as int)) == i - lo,
            None => find_dcolon(s@.skip(lo as int)) == -1,
        },
{
    let n = s.len();
    let mut i: usize = lo;
    while n - i > 1
        invariant
            lo <= i,
            i <= n,
            n == s@.len(),
            forall|j: int| lo <= j < i ==> !(#[trigger] s@[j] == 0x3a && s@[j + 1] == 0x3a),
        decreases n - i,
    {
        if s[i] == 0x3a && s[i + 1] == 0x3a {
            proof {
                let w = s@.skip(lo as int);
                assert(w[i - lo] == s@[i as int] && w[i - lo + 1] == s@[i + 1]);
                assert forall|j: int| 0 <= j < i - lo implies !(#[trigger] w[j] == 0x3a && w[j + 1]
                    == 0x3a) by {
                    assert(w[j] == s@[lo + j] && w[j + 1] == s@[lo + j + 1]);
                }
                lemma_find_dcolon_at(w, i - lo);
            }
            return Some(i);
        }
        i = i + 1;
    }
    proof {
        let w = s@.skip(lo as int);
        assert forall|j: int| 0 <= j < w.len() - 1 implies !(#[trigger] w[j] == 0x3a && w[j + 1]
            == 0x3a) by {
            assert(w[j] == s@[lo + j] && w[j + 1] == s@[lo + j + 1]);
        }
        lemma_find_dcolon_none(w);
    }
    None
}

/// Parses colon-separated hex groups covering `lo..hi`.
fn parse_groups_at(s: &[u8], lo: usize, hi: usize, allow_v4: bool) -> (r: Option<Vec<u16>>)
    requires
        lo <= hi <= s@.len(),
    ensures
        match r {
            Some(gs) => spec_parse_groups(s@.subrange(lo as int, hi as int), allow_v4) == Some(
                groups_model(gs@),
            ),
            None => spec_parse_groups(s@.subrange(lo as int, hi as int), allow_v4) is None,
        },
    decreases hi - lo,
{
    let ghost w = s@.subrange(lo as int, hi as int);
    if allow_v4 {
        match parse_ipv4_range(s, lo, hi) {
            Some(a) => {
                let mut gs: Vec<u16> = Vec::new();
                gs.push((a / 0x10000) as u16);
                gs.push((a % 0x10000) as u16);
                proof {
                    assert(groups_model(gs@) =~= seq![a as int / 0x10000, a as int % 0x10000]);
                }
                return Some(gs);
            },
            None => {},
        }
    }
    let k = hex_run_window(s, lo, hi);
    if k < 1 || k > 4 {
        return None;
    }
    proof {
        lemma_hex_end_bounds(w);
        assert forall|j: int| lo <= j < lo + k implies is_hex_digit(s@[j]) by {
            assert(w[j - lo] == s@[j]);
        }
        assert(w.take(k as int) =~= s@.subrange(lo as int, lo + k));
    }
    let v = hex_value_window(s, lo, k);
    if lo + k == hi {
        let mut gs: Vec<u16> = Vec::new();
        gs.push(v);
        proof {
            assert(groups_model(gs@) =~= seq![hex_val(w.take(k as int))]);
        }
        return Some(gs);
    }
    proof {
        assert(w[k as int] == s@[lo + k]);
    }
    if s[lo + k] == 0x3a {
        proof {
            assert(w.skip(k + 1) =~= s@.subrange(lo + k + 1, hi as int));
        }
        match parse_groups_at(s, lo + k + 1, hi, allow_v4) {
            Some(rest) => {
                let mut gs = rest;
                let ghost prev = gs@;
                gs.insert(0, v);
                proof {
                    assert(groups_model(gs@) =~= seq![hex_val(w.take(k as int))] + groups_model(
                        prev,
                    ));
                }
                Some(gs)
            },
            None => None,
        }
    } else {
        None
    }
}

/// Folds up to eight 16-bit groups into the address value, most
/// significant first.
fn groups_fold(gs: &Vec<u16>) -> (r: u128)
    requires
        gs@.len() <= 8,
    ensures
        r == groups_val(groups_model(gs@)),
{
    let ghost gm = groups_model(gs@);
    let n = gs.len();
    let mut acc: u128 = 0;
    let mut i: usize = 0;
    proof {
        assert(gm.take(0) =~= Seq::<int>::empty());
    }
    while i < n
        invariant
            i <= n,
            n == gs@.len() <= 8,
            gm == groups_model(gs@),
            acc == groups_val(gm.take(i as int)),
        decreases n - i,
    {
        proof {
            assert forall|j: int| 0 <= j < gm.take(i as int).len() implies 0 <= #[trigger] gm.take(
                i as int,
            )[j] < 0x10000 by {
                assert(gm.take(i as int)[j] == gm[j]);
            }
            lemma_groups_val_bounds(gm.take(i as int));
            lemma_pow16_mono((4 * i) as nat, 28);
            assert(pow16(28) == 0x10000000000000000000000000000) by {
                reveal_with_fuel(pow16, 29);
            }
            assert(gm.take(i + 1).drop_last() =~= gm.take(i as int));
            assert(gm.take(i + 1).last() == gm[i as int]);
        }
        acc = acc * 0x10000 + gs[i] as u128;
        i = i + 1;
    }
    proof {
        assert(gm.take(n as int) =~= gm);
    }
    acc
}

/// Parses an IPv6 address covering all of `s`.
fn parse_ipv6(s: &[u8]) -> (r: Option<u128>)
    ensures
        r == spec_parse_ipv6(s@),
{
    let n = s.len();
    proof {
        assert(s@.skip(0) =~= s@);
        assert(s@.subrange(0, n as int) =~= s@);
    }
    match dcolon_from(s, 0) {
        None => {
            match parse_groups_at(s, 0, n, true) {
                Some(gs) => {
                    if gs.len() == 8 {
                        proof {
                            lemma_groups_val_bounds(groups_model(gs@));
                            lemma_pow16_mono(32, 32);
                            assert(pow16(32) == 0x100000000000000000000000000000000) by {
                                reveal_with_fuel(pow16, 33);
                            }
                        }
                        Some(groups_fold(&gs))
                    } else {
                        None
                    }
                },
                None => None,
            }
        },
        Some(i) => {
            match dcolon_from(s, i + 2) {
                Some(_) => None,
                None => {
                    let lhs: Option<Vec<u16>> = if i == 0 {
                        Some(Vec::new())
                    } else {
                        proof {
                            assert(s@.subrange(0, i as int) =~= s@.take(i as int));
                        }
                        parse_groups_at(s, 0, i, false)
                    };
                    match lhs {
                        None => None,
                        Some(l) => {
                            let rhs: Option<Vec<u16>> = if i + 2 == n {
                                Some(Vec::new())
                            } else {
                                proof {
                                    assert(s@.subrange(i + 2, n as int) =~= s@.skip(i + 2));
                                }
                                parse_groups_at(s, i + 2, n, true)
                            };
                            match rhs {
                                None => None,
                                Some(rg) => {
                                    proof {
                                        assert(groups_model(Seq::<u16>::empty()) =~= Seq::<
                                            int,
                                        >::empty());
                                    }
                                    if l.len() > 7 || rg.len() > 7 || l.len() + rg.len() > 7 {
                                        return None;
                                    }
                                    let ghost lm = groups_model(l@);
                                    let ghost rm = groups_model(rg@);
                                    let ghost l0 = l@;
                                    let ghost r0 = rg@;
                                    let zeros = 8 - l.len() - rg.len();
                                    let mut full = l;
                                    let mut z: usize = 0;
                                    while z < zeros
                                        invariant
                                            z <= zeros,
                                            zeros + l0.len() + r0.len() == 8,
                                            full@ == l0 + Seq::new(z as nat, |q: int| 0u16),
                                        decreases zeros - z,
                                    {
                                        full.push(0u16);
                                        proof {
                                            assert(full@ =~= l0 + Seq::new(
                                                (z + 1) as nat,
                                                |q: int| 0u16,
                                            ));
                                        }
                                        z = z + 1;
                                    }
                                    let mut tail = rg;
                                    full.append(&mut tail);
                                    proof {
                                        assert(groups_model(full@) =~= lm + Seq::new(
                                            (8 - lm.len() - rm.len()) as nat,
                                            |q: int| 0int,
                                        ) + rm);
                                        lemma_groups_val_bounds(groups_model(full@));
                                        assert(pow16(32) == 0x100000000000000000000000000000000)
                                            by {
                                            reveal_with_fuel(pow16, 33);
                                        }
                                        assert forall|j: int|
                                            0 <= j < groups_model(full@).len() implies 0
                                            <= #[trigger] groups_model(full@)[j] < 0x10000 by {}
                                    }
                                    Some(groups_fold(&full))
                                },
                            }
                        },
                    }
                },
            }
        },
    }
}

/// Parses an IP address of either family from text bytes.
pub fn parse_ip(s: &[u8]) -> (r: Option<IpAddress>)
    ensures
        r == spec_parse_ip(s@),
{
    let n = s.len();
    proof {
        assert(s@.subrange(0, n as int) =~= s@);
    }
    match parse_ipv4_range(s, 0, n) {
        Some(a) => Some(IpAddress::V4(a)),
        None => match parse_ipv6(s) {
            Some(a) => Some(IpAddress::V6(a)),
            None => None,
        },
    }
}

} // verus!
