//! The bencode wire format: parsing bytes into a [`Value`] tree and encoding
//! a tree back to bytes.
//!
//! The grammar: an integer is `i<decimal>e` with no leading zeros and no
//! `-0`; a byte string is `<decimal length>:<bytes>` with no leading zeros in
//! the length; a list is `l<values>e`; a dictionary is `d<(string value)*>e`
//! with byte-string keys kept in source order. Integers must fit a signed
//! 64-bit word and lengths must fit a machine word; anything else is a parse
//! failure.

use vstd::prelude::*;

use crate::value::{model_entries, model_items, SpecValue, Value};

verus! {

/// `i`, opening an integer.
pub const TOK_INT: u8 = 0x69;

/// `l`, opening a list.
pub const TOK_LIST: u8 = 0x6c;

/// `d`, opening a dictionary.
pub const TOK_DICT: u8 = 0x64;

/// `e`, closing an integer, list or dictionary.
pub const TOK_END: u8 = 0x65;

/// `:`, separating a byte string's length from its bytes.
pub const TOK_COLON: u8 = 0x3a;

/// `-`, the sign of a negative integer.
pub const TOK_MINUS: u8 = 0x2d;

/// `0`, the least decimal digit.
pub const TOK_ZERO: u8 = 0x30;

pub open spec fn is_ascii_digit(b: u8) -> bool {
    0x30 <= b <= 0x39
}

/// The length of the longest run of decimal digits at the front of `s`.
pub open spec fn digits_end(s: Seq<u8>) -> int
    decreases s.len(),
{
    if s.len() == 0 || !is_ascii_digit(s[0]) {
        0
    } else {
        1 + digits_end(s.drop_first())
    }
}

/// The number written by a sequence of decimal digits, most significant
/// first.
pub open spec fn digits_val(ds: Seq<u8>) -> int
    decreases ds.len(),
{
    if ds.len() == 0 {
        0
    } else {
        digits_val(ds.drop_last()) * 10 + (ds.last() - TOK_ZERO)
    }
}

/// Parses `i<decimal>e` at the front of `s`: the value and the number of
/// bytes consumed.
pub open spec fn spec_parse_int(s: Seq<u8>) -> Option<(int, int)> {
    if s.len() < 3 || s[0] != TOK_INT {
        None
    } else {
        let body = s.drop_first();
        let neg = body[0] == TOK_MINUS;
        let sign: int = if neg {
            1
        } else {
            0
        };
        let ds = body.skip(sign);
        let k = digits_end(ds);
        if k == 0 {
            None
        } else if ds[0] == TOK_ZERO && (k > 1 || neg) {
            None
        } else if k >= ds.len() || ds[k] != TOK_END {
            None
        } else {
            let mag = digits_val(ds.take(k));
            let v: int = if neg {
                -mag
            } else {
                mag
            };
            if v < i64::MIN || v > i64::MAX {
                None
            } else {
                Some((v, 1 + sign + k + 1))
            }
        }
    }
}

/// Parses `<decimal length>:<bytes>` at the front of `s`: the bytes and the
/// number of input bytes consumed.
pub open spec fn spec_parse_bstring(s: Seq<u8>) -> Option<(Seq<u8>, int)> {
    let k = digits_end(s);
    if k == 0 {
        None
    } else if s[0] == TOK_ZERO && k > 1 {
        None
    } else if k >= s.len() || s[k] != TOK_COLON {
        None
    } else {
        let n = digits_val(s.take(k));
        if n > usize::MAX {
            None
        } else if k + 1 + n > s.len() {
            None
        } else {
            Some((s.subrange(k + 1, k + 1 + n), k + 1 + n))
        }
    }
}

/// Parses one bencoded value at the front of `s`: its model and the number
/// of bytes consumed.
pub open spec fn spec_parse_value(s: Seq<u8>) -> Option<(SpecValue, int)>
    decreases s.len(), 0int,
{
    if s.len() == 0 {
        None
    } else if s[0] == TOK_INT {
        match spec_parse_int(s) {
            Some((v, n)) => Some((SpecValue::Integer(v), n)),
            None => None,
        }
    } else if is_ascii_digit(s[0]) {
        match spec_parse_bstring(s) {
            Some((b, n)) => Some((SpecValue::Bytes(b), n)),
            None => None,
        }
    } else if s[0] == TOK_LIST {
        match spec_parse_items(s.drop_first()) {
            Some((items, n)) => Some((SpecValue::List(items), 1 + n)),
            None => None,
        }
    } else if s[0] == TOK_DICT {
        match spec_parse_entries(s.drop_first()) {
            Some((entries, n)) => Some((SpecValue::Dictionary(entries), 1 + n)),
            None => None,
        }
    } else {
        None
    }
}

/// Parses list elements up to and including the closing `e`.
pub open spec fn spec_parse_items(s: Seq<u8>) -> Option<(Seq<SpecValue>, int)>
    decreases s.len(), 1int,
{
    if s.len() == 0 {
        None
    } else if s[0] == TOK_END {
        Some((Seq::empty(), 1))
    } else {
        match spec_parse_value(s) {
            Some((v, n)) => if n < 1 || n > s.len() {
                None
            } else {
                match spec_parse_items(s.skip(n)) {
                    Some((rest, m)) => Some((seq![v] + rest, n + m)),
                    None => None,
                }
            },
            None => None,
        }
    }
}

/// Parses dictionary entries up to and including the closing `e`.
pub open spec fn spec_parse_entries(s: Seq<u8>) -> Option<(Seq<(Seq<u8>, SpecValue)>, int)>
    decreases s.len(), 1int,
{
    if s.len() == 0 {
        None
    } else if s[0] == TOK_END {
        Some((Seq::empty(), 1))
    } else {
        match spec_parse_bstring(s) {
            Some((key, n1)) => if n1 < 1 || n1 > s.len() {
                None
            } else {
                match spec_parse_value(s.skip(n1)) {
                    Some((v, n2)) => if n2 < 1 || n1 + n2 > s.len() {
                        None
                    } else {
                        match spec_parse_entries(s.skip(n1 + n2)) {
                            Some((rest, m)) => Some((seq![(key, v)] + rest, n1 + n2 + m)),
                            None => None,
                        }
                    },
                    None => None,
                }
            },
            None => None,
        }
    }
}

/// `10^n`.
pub open spec fn pow10(n: nat) -> int
    decreases n,
{
    if n == 0 {
        1
    } else {
        10 * pow10((n - 1) as nat)
    }
}

pub proof fn lemma_pow10_mono(a: nat, b: nat)
    requires
        a <= b,
    ensures
        pow10(a) <= pow10(b),
        pow10(a) >= 1,
    decreases b,
{
    if b > 0 {
        if a == b {
            lemma_pow10_mono((a - 1) as nat, (b - 1) as nat);
        } else {
            lemma_pow10_mono(a, (b - 1) as nat);
        }
    }
}

pub proof fn lemma_digits_end_bounds(s: Seq<u8>)
    ensures
        0 <= digits_end(s) <= s.len(),
        forall|j: int| 0 <= j < digits_end(s) ==> is_ascii_digit(s[j]),
        digits_end(s) < s.len() ==> !is_ascii_digit(s[digits_end(s)]),
    decreases s.len(),
{
    if s.len() > 0 && is_ascii_digit(s[0]) {
        lemma_digits_end_bounds(s.drop_first());
        assert forall|j: int| 0 <= j < digits_end(s) implies is_ascii_digit(s[j]) by {
            if j > 0 {
                assert(is_ascii_digit(s.drop_first()[j - 1]));
            }
        }
    }
}

pub proof fn lemma_digits_end_is(s: Seq<u8>, k: int)
    requires
        0 <= k <= s.len(),
        forall|j: int| 0 <= j < k ==> is_ascii_digit(s[j]),
        k < s.len() ==> !is_ascii_digit(s[k]),
    ensures
        digits_end(s) == k,
    decreases s.len(),
{
    if k == 0 {
    } else {
        assert(is_ascii_digit(s[0]));
        assert forall|j: int| 0 <= j < k - 1 implies is_ascii_digit(s.drop_first()[j]) by {
            assert(is_ascii_digit(s[j + 1]));
        }
        lemma_digits_end_is(s.drop_first(), k - 1);
    }
}

pub proof fn lemma_digits_val_bounds(ds: Seq<u8>)
    requires
        forall|j: int| 0 <= j < ds.len() ==> is_ascii_digit(ds[j]),
    ensures
        0 <= digits_val(ds) < pow10(ds.len()),
        ds.len() > 0 && ds[0] > TOK_ZERO ==> digits_val(ds) >= pow10((ds.len() - 1) as nat),
    decreases ds.len(),
{
    if ds.len() > 0 {
        lemma_digits_val_bounds(ds.drop_last());
    }
}

/// The length of the digit run that starts at `pos`.
fn digits_run(s: &[u8], pos: usize) -> (k: usize)
    requires
        pos <= s@.len(),
    ensures
        pos + k <= s@.len(),
        k == digits_end(s@.skip(pos as int)),
{
    let n = s.len();
    let mut i: usize = pos;
    while i < n && 0x30 <= s[i] && s[i] <= 0x39
        invariant
            pos <= i <= n,
            n == s@.len(),
            forall|j: int| pos <= j < i ==> is_ascii_digit(s@[j]),
        decreases n - i,
    {
        i = i + 1;
    }
    proof {
        let t = s@.skip(pos as int);
        assert forall|j: int| 0 <= j < i - pos implies is_ascii_digit(t[j]) by {
            assert(t[j] == s@[pos + j]);
        }
        if (i - pos) < t.len() {
            assert(t[i - pos] == s@[i as int]);
        }
        lemma_digits_end_is(t, i - pos);
    }
    i - pos
}

/// The value of the `k` digits that start at `pos`.
pub(crate) fn digits_value(s: &[u8], pos: usize, k: usize) -> (r: u128)
    requires
        pos + k <= s@.len(),
        k <= 20,
        forall|j: int| pos <= j < pos + k ==> is_ascii_digit(s@[j]),
    ensures
        r == digits_val(s@.subrange(pos as int, pos + k)),
{
    let ghost ds = s@.subrange(pos as int, pos + k);
    let n = s.len();
    let mut acc: u128 = 0;
    let mut j: usize = 0;
    proof {
        assert(ds.take(0) =~= Seq::<u8>::empty());
    }
    while j < k
        invariant
            j <= k,
            pos + k <= s@.len(),
            n == s@.len(),
            k <= 20,
            ds == s@.subrange(pos as int, pos + k),
            forall|i: int| pos <= i < pos + k ==> is_ascii_digit(s@[i]),
            acc == digits_val(ds.take(j as int)),
        decreases k - j,
    {
        proof {
            assert forall|i: int| 0 <= i < ds.len() implies is_ascii_digit(ds[i]) by {
                assert(ds[i] == s@[pos + i]);
            }
            assert forall|i: int| 0 <= i < ds.take(j as int).len() implies is_ascii_digit(
                ds.take(j as int)[i],
            ) by {
                assert(ds.take(j as int)[i] == ds[i]);
            }
            lemma_digits_val_bounds(ds.take(j as int));
            lemma_pow10_mono(j as nat, 20);
            assert(pow10(20) == 0x56bc75e2d63100000) by {
                reveal_with_fuel(pow10, 21);
            }
            assert(ds.take(j + 1).drop_last() =~= ds.take(j as int));
            assert(ds.take(j + 1).last() == s@[pos + j]);
        }
        let d = s[pos + j];
        acc = acc * 10 + (d - 0x30) as u128;
        j = j + 1;
    }
    proof {
        assert(ds.take(k as int) =~= ds);
    }
    acc
}

/// Parses a byte string at `pos`.
fn parse_bstring_at(s: &[u8], pos: usize) -> (r: Option<(Vec<u8>, usize)>)
    requires
        pos <= s@.len(),
    ensures
        match r {
            Some(p) => pos < p.1 <= s@.len() && spec_parse_bstring(s@.skip(pos as int)) == Some(
                (p.0@, p.1 - pos as int),
            ),
            None => spec_parse_bstring(s@.skip(pos as int)) is None,
        },
{
    let ghost t = s@.skip(pos as int);
    let n = s.len();
    let k = digits_run(s, pos);
    if k == 0 {
        return None;
    }
    if k > 1 && s[pos] == 0x30 {
        return None;
    }
    if pos + k == n {
        return None;
    }
    if s[pos + k] != 0x3a {
        return None;
    }
    proof {
        lemma_digits_end_bounds(t);
        assert forall|j: int| pos <= j < pos + k implies is_ascii_digit(s@[j]) by {
            assert(t[j - pos] == s@[j]);
        }
        assert(t.take(k as int) =~= s@.subrange(pos as int, pos + k));
        assert forall|j: int| 0 <= j < k implies is_ascii_digit(t.take(k as int)[j]) by {
            assert(t.take(k as int)[j] == t[j]);
        }
        lemma_digits_val_bounds(t.take(k as int));
    }
    if k > 20 {
        proof {
            lemma_pow10_mono(20, (k - 1) as nat);
            assert(pow10(20) == 0x56bc75e2d63100000) by {
                reveal_with_fuel(pow10, 21);
            }
        }
        return None;
    }
    let len128 = digits_value(s, pos, k);
    if len128 > usize::MAX as u128 {
        return None;
    }
    let blen = len128 as usize;
    if blen > n - (pos + k + 1) {
        return None;
    }
    let start = pos + k + 1;
    let bytes = vstd::slice::slice_to_vec(vstd::slice::slice_subrange(s, start, start + blen));
    proof {
        assert(t.subrange(k + 1, k + 1 + blen) =~= s@.subrange(start as int, start + blen));
    }
    Some((bytes, start + blen))
}

/// Parses `i<decimal>e` at `pos`.
fn parse_int_at(s: &[u8], pos: usize) -> (r: Option<(i64, usize)>)
    requires
        pos <= s@.len(),
    ensures
        match r {
            Some(p) => pos < p.1 <= s@.len() && spec_parse_int(s@.skip(pos as int)) == Some(
                (p.0 as int, p.1 - pos as int),
            ),
            None => spec_parse_int(s@.skip(pos as int)) is None,
        },
{
    let ghost t = s@.skip(pos as int);
    let n = s.len();
    if n - pos < 3 || s[pos] != 0x69 {
        return None;
    }
    let neg = s[pos + 1] == 0x2d;
    let ds_pos = if neg {
        pos + 2
    } else {
        pos + 1
    };
    let ghost sign: int = if neg {
        1int
    } else {
        0int
    };
    let ghost ds = t.drop_first().skip(sign);
    proof {
        assert(ds =~= s@.skip(ds_pos as int));
    }
    let k = digits_run(s, ds_pos);
    if k == 0 {
        return None;
    }
    if s[ds_pos] == 0x30 && (k > 1 || neg) {
        return None;
    }
    if ds_pos + k == n {
        return None;
    }
    if s[ds_pos + k] != 0x65 {
        return None;
    }
    proof {
        lemma_digits_end_bounds(ds);
        assert forall|j: int| ds_pos <= j < ds_pos + k implies is_ascii_digit(s@[j]) by {
            assert(ds[j - ds_pos] == s@[j]);
        }
        assert(ds.take(k as int) =~= s@.subrange(ds_pos as int, ds_pos + k));
        assert forall|j: int| 0 <= j < k implies is_ascii_digit(ds.take(k as int)[j]) by {
            assert(ds.take(k as int)[j] == ds[j]);
        }
        lemma_digits_val_bounds(ds.take(k as int));
    }
    if k > 19 {
        proof {
            lemma_pow10_mono(19, (k - 1) as nat);
            assert(pow10(19) == 0x8ac7230489e80000) by {
                reveal_with_fuel(pow10, 20);
            }
        }
        return None;
    }
    let mag = digits_value(s, ds_pos, k);
    proof {
        lemma_pow10_mono(k as nat, 19);
        assert(pow10(19) == 0x8ac7230489e80000) by {
            reveal_with_fuel(pow10, 20);
        }
    }
    let end = ds_pos + k + 1;
    if neg {
        if mag > 0x8000000000000000u128 {
            return None;
        }
        let v: i64 = if mag == 0x8000000000000000u128 {
            i64::MIN
        } else {
            -((mag as u64) as i64)
        };
        Some((v, end))
    } else {
        if mag > 0x7fffffffffffffffu128 {
            return None;
        }
        Some((mag as i64, end))
    }
}

/// Parses one bencoded value at `pos`: the value and the position just past
/// it.
pub fn parse_value_at(s: &[u8], pos: usize) -> (r: Option<(Value, usize)>)
    requires
        pos <= s@.len(),
    ensures
        match r {
            Some(p) => pos < p.1 <= s@.len() && spec_parse_value(s@.skip(pos as int)) == Some(
                (p.0.model(), p.1 - pos as int),
            ),
            None => spec_parse_value(s@.skip(pos as int)) is None,
        },
    decreases s@.len() - pos, 0int,
{
    let ghost t = s@.skip(pos as int);
    let n = s.len();
    if pos == n {
        return None;
    }
    let c = s[pos];
    proof {
        assert(t[0] == c);
    }
    if c == 0x69 {
        match parse_int_at(s, pos) {
            Some(p) => Some((Value::Integer(p.0), p.1)),
            None => None,
        }
    } else if 0x30 <= c && c <= 0x39 {
        match parse_bstring_at(s, pos) {
            Some(p) => Some((Value::Bytes(p.0), p.1)),
            None => None,
        }
    } else if c == 0x6c {
        proof {
            assert(t.drop_first() =~= s@.skip(pos + 1));
        }
        match parse_items_at(s, pos + 1) {
            Some(p) => Some((Value::List(p.0), p.1)),
            None => None,
        }
    } else if c == 0x64 {
        proof {
            assert(t.drop_first() =~= s@.skip(pos + 1));
        }
        match parse_entries_at(s, pos + 1) {
            Some(p) => Some((Value::Dictionary(p.0), p.1)),
            None => None,
        }
    } else {
        None
    }
}

/// Parses list elements at `pos` up to and including the closing `e`.
fn parse_items_at(s: &[u8], pos: usize) -> (r: Option<(Vec<Value>, usize)>)
    requires
        pos <= s@.len(),
    ensures
        match r {
            Some(p) => pos < p.1 <= s@.len() && spec_parse_items(s@.skip(pos as int)) == Some(
                (model_items(p.0@), p.1 - pos as int),
            ),
            None => spec_parse_items(s@.skip(pos as int)) is None,
        },
    decreases s@.len() - pos, 1int,
{
    let ghost t = s@.skip(pos as int);
    let n = s.len();
    if pos == n {
        return None;
    }
    if s[pos] == 0x65 {
        proof {
            assert(t[0] == s@[pos as int]);
        }
        let empty: Vec<Value> = Vec::new();
        return Some((empty, pos + 1));
    }
    proof {
        assert(t[0] == s@[pos as int]);
    }
    match parse_value_at(s, pos) {
        None => None,
        Some(head) => {
            let (v, vend) = head;
            proof {
                assert(t.skip(vend - pos) =~= s@.skip(vend as int));
            }
            match parse_items_at(s, vend) {
                None => None,
                Some(tail) => {
                    let (mut rest, end) = tail;
                    let ghost old_rest = rest@;
                    rest.insert(0, v);
                    proof {
                        crate::value::lemma_model_items(rest@);
                        crate::value::lemma_model_items(old_rest);
                        assert(model_items(rest@) =~= seq![v.model()] + model_items(old_rest));
                    }
                    Some((rest, end))
                },
            }
        },
    }
}

/// Parses dictionary entries at `pos` up to and including the closing `e`.
fn parse_entries_at(s: &[u8], pos: usize) -> (r: Option<(Vec<(Vec<u8>, Value)>, usize)>)
    requires
        pos <= s@.len(),
    ensures
        match r {
            Some(p) => pos < p.1 <= s@.len() && spec_parse_entries(s@.skip(pos as int)) == Some(
                (model_entries(p.0@), p.1 - pos as int),
            ),
            None => spec_parse_entries(s@.skip(pos as int)) is None,
        },
    decreases s@.len() - pos, 1int,
{
    let ghost t = s@.skip(pos as int);
    let n = s.len();
    if pos == n {
        return None;
    }
    if s[pos] == 0x65 {
        proof {
            assert(t[0] == s@[pos as int]);
        }
        let empty: Vec<(Vec<u8>, Value)> = Vec::new();
        return Some((empty, pos + 1));
    }
    proof {
        assert(t[0] == s@[pos as int]);
    }
    match parse_bstring_at(s, pos) {
        None => None,
        Some(keyp) => {
            let (key, kend) = keyp;
            proof {
                assert(t.skip(kend - pos) =~= s@.skip(kend as int));
            }
            match parse_value_at(s, kend) {
                None => None,
                Some(valp) => {
                    let (v, vend) = valp;
                    proof {
                        assert(t.skip(vend - pos) =~= s@.skip(vend as int));
                    }
                    match parse_entries_at(s, vend) {
                        None => None,
                        Some(tail) => {
                            let (mut rest, end) = tail;
                            let ghost old_rest = rest@;
                            rest.insert(0, (key, v));
                            proof {
                                crate::value::lemma_model_entries(rest@);
                                crate::value::lemma_model_entries(old_rest);
                                assert(model_entries(rest@) =~= seq![
                                    (rest@[0].0@, rest@[0].1.model()),
                                ] + model_entries(old_rest));
                            }
                            Some((rest, end))
                        },
                    }
                },
            }
        },
    }
}

/// Strict byte-lexicographic order: the order bencode demands of canonical
/// dictionary keys.
pub open spec fn bytes_lt(a: Seq<u8>, b: Seq<u8>) -> bool
    decreases a.len(),
{
    if b.len() == 0 {
        false
    } else if a.len() == 0 {
        true
    } else if a[0] < b[0] {
        true
    } else if a[0] > b[0] {
        false
    } else {
        bytes_lt(a.drop_first(), b.drop_first())
    }
}

/// The decimal digits of `n`, most significant first.
pub open spec fn dec_digits(n: int) -> Seq<u8>
    decreases n,
{
    if n < 10 {
        seq![(0x30 + n) as u8]
    } else {
        dec_digits(n / 10) + seq![(0x30 + n % 10) as u8]
    }
}

/// The decimal form of `i`, with a leading `-` when negative.
pub open spec fn spec_encode_int(i: int) -> Seq<u8> {
    if i < 0 {
        seq![TOK_MINUS] + dec_digits(-i)
    } else {
        dec_digits(i)
    }
}

/// The bencoding of a value: dictionary entries are emitted in the order
/// given, so a tree is in canonical form exactly when every dictionary in it
/// lists its keys in byte-lexicographic order.
pub open spec fn spec_encode_value(v: SpecValue) -> Seq<u8>
    decreases v, 0int,
{
    match v {
        SpecValue::Integer(i) => seq![TOK_INT] + spec_encode_int(i) + seq![TOK_END],
        SpecValue::Bytes(b) => dec_digits(b.len() as int) + seq![TOK_COLON] + b,
        SpecValue::List(items) => seq![TOK_LIST] + spec_encode_items(items) + seq![TOK_END],
        SpecValue::Dictionary(entries) => seq![TOK_DICT] + spec_encode_entries(entries)
            + seq![TOK_END],
    }
}

/// The concatenated bencodings of a list's elements.
pub open spec fn spec_encode_items(items: Seq<SpecValue>) -> Seq<u8>
    decreases items, 1int,
{
    if items.len() == 0 {
        Seq::empty()
    } else {
        spec_encode_items(items.drop_last()) + spec_encode_value(items.last())
    }
}

/// The concatenated bencodings of a dictionary's entries, each a key string
/// followed by its value.
pub open spec fn spec_encode_entries(entries: Seq<(Seq<u8>, SpecValue)>) -> Seq<u8>
    decreases entries, 1int,
{
    if entries.len() == 0 {
        Seq::empty()
    } else {
        spec_encode_entries(entries.drop_last()) + dec_digits(entries.last().0.len() as int)
            + seq![TOK_COLON] + entries.last().0 + spec_encode_value(entries.last().1)
    }
}

/// Appends the decimal digits of `n`.
fn push_decimal_u64(n: u64, out: &mut Vec<u8>)
    ensures
        final(out)@ == old(out)@ + dec_digits(n as int),
    decreases n,
{
    if n < 10 {
        out.push(0x30 + n as u8);
        proof {
            assert(out@ =~= old(out)@ + dec_digits(n as int));
        }
    } else {
        push_decimal_u64(n / 10, out);
        out.push(0x30 + (n % 10) as u8);
        proof {
            assert(out@ =~= old(out)@ + dec_digits(n as int));
        }
    }
}

/// Appends the decimal form of `i`, with a leading `-` when negative.
fn push_decimal_i64(i: i64, out: &mut Vec<u8>)
    ensures
        final(out)@ == old(out)@ + spec_encode_int(i as int),
{
    if i < 0 {
        out.push(TOK_MINUS);
        let mag: u64 = if i == i64::MIN {
            0x8000000000000000u64
        } else {
            (-i) as u64
        };
        push_decimal_u64(mag, out);
        proof {
            assert(out@ =~= old(out)@ + spec_encode_int(i as int));
        }
    } else {
        push_decimal_u64(i as u64, out);
    }
}

/// Appends every byte of `b`.
fn push_bytes(b: &[u8], out: &mut Vec<u8>)
    ensures
        final(out)@ == old(out)@ + b@,
{
    let m = b.len();
    let mut idx: usize = 0;
    while idx < m
        invariant
            idx <= m,
            m == b@.len(),
            out@ == old(out)@ + b@.take(idx as int),
        decreases m - idx,
    {
        out.push(b[idx]);
        proof {
            assert(b@.take(idx + 1) =~= b@.take(idx as int).push(b@[idx as int]));
        }
        idx = idx + 1;
    }
    proof {
        assert(b@.take(m as int) =~= b@);
    }
}

/// Appends the bencoding of `v`.
fn encode_value_into(v: &Value, out: &mut Vec<u8>)
    ensures
        final(out)@ == old(out)@ + spec_encode_value(v.model()),
    decreases v, 0int,
{
    match v {
        Value::Integer(i) => {
            out.push(TOK_INT);
            push_decimal_i64(*i, out);
            out.push(TOK_END);
            proof {
                assert(out@ =~= old(out)@ + spec_encode_value(v.model()));
            }
        },
        Value::Bytes(b) => {
            push_decimal_u64(b.len() as u64, out);
            out.push(TOK_COLON);
            push_bytes(b.as_slice(), out);
            proof {
                assert(out@ =~= old(out)@ + spec_encode_value(v.model()));
            }
        },
        Value::List(l) => {
            out.push(TOK_LIST);
            encode_items_into(l, out);
            out.push(TOK_END);
            proof {
                assert(out@ =~= old(out)@ + spec_encode_value(v.model()));
            }
        },
        Value::Dictionary(d) => {
            out.push(TOK_DICT);
            encode_entries_into(d, out);
            out.push(TOK_END);
            proof {
                assert(out@ =~= old(out)@ + spec_encode_value(v.model()));
            }
        },
    }
}

/// Appends the bencodings of a list's elements, in order.
fn encode_items_into(l: &Vec<Value>, out: &mut Vec<u8>)
    ensures
        final(out)@ == old(out)@ + spec_encode_items(model_items(l@)),
    decreases l, 1int,
{
    proof {
        crate::value::lemma_model_items(l@);
        assert(model_items(l@).take(0) =~= Seq::<SpecValue>::empty());
    }
    let ghost m = model_items(l@);
    let n = l.len();
    let mut i: usize = 0;
    while i < n
        invariant
            i <= n,
            n == l@.len(),
            m == model_items(l@),
            m.len() == n,
            forall|j: int| 0 <= j < n ==> m[j] == l@[j].model(),
            out@ == old(out)@ + spec_encode_items(m.take(i as int)),
        decreases n - i,
    {
        encode_value_into(&l[i], out);
        proof {
            assert(m.take(i + 1).drop_last() =~= m.take(i as int));
            assert(m.take(i + 1).last() == l@[i as int].model());
            assert(out@ =~= old(out)@ + spec_encode_items(m.take(i + 1)));
        }
        i = i + 1;
    }
    proof {
        assert(m.take(n as int) =~= m);
    }
}

/// Appends the bencodings of a dictionary's entries, in order.
fn encode_entries_into(d: &Vec<(Vec<u8>, Value)>, out: &mut Vec<u8>)
    ensures
        final(out)@ == old(out)@ + spec_encode_entries(model_entries(d@)),
    decreases d, 1int,
{
    proof {
        crate::value::lemma_model_entries(d@);
        assert(model_entries(d@).take(0) =~= Seq::<(Seq<u8>, SpecValue)>::empty());
    }
    let ghost m = model_entries(d@);
    let n = d.len();
    let mut i: usize = 0;
    while i < n
        invariant
            i <= n,
            n == d@.len(),
            m == model_entries(d@),
            m.len() == n,
            forall|j: int| 0 <= j < n ==> #[trigger] m[j] == (d@[j].0@, d@[j].1.model()),
            out@ == old(out)@ + spec_encode_entries(m.take(i as int)),
        decreases n - i,
    {
        let entry = &d[i];
        push_decimal_u64(entry.0.len() as u64, out);
        out.push(TOK_COLON);
        push_bytes(entry.0.as_slice(), out);
        encode_value_into(&entry.1, out);
        proof {
            assert(m.take(i + 1).drop_last() =~= m.take(i as int));
            assert(m.take(i + 1).last() == (d@[i as int].0@, d@[i as int].1.model()));
            assert(out@ =~= old(out)@ + spec_encode_entries(m.take(i + 1)));
        }
        i = i + 1;
    }
    proof {
        assert(m.take(n as int) =~= m);
    }
}

proof fn lemma_digits_end_extend(s: Seq<u8>, t: Seq<u8>)
    requires
        digits_end(s) < s.len(),
    ensures
        digits_end(s + t) == digits_end(s),
    decreases s.len(),
{
    lemma_digits_end_bounds(s);
    if s.len() > 0 {
        assert((s + t)[0] == s[0]);
        if is_ascii_digit(s[0]) {
            assert((s + t).drop_first() =~= s.drop_first() + t);
            lemma_digits_end_extend(s.drop_first(), t);
        } else {
            lemma_digits_end_is(s + t, 0);
        }
    }
}

proof fn lemma_parse_int_extend(s: Seq<u8>, t: Seq<u8>)
    requires
        spec_parse_int(s) is Some,
    ensures
        spec_parse_int(s + t) == spec_parse_int(s),
{
    let u = s + t;
    assert(u.len() >= s.len() && u[0] == s[0]);
    let body = s.drop_first();
    let bodyu = u.drop_first();
    assert(bodyu =~= body + t);
    let neg = body[0] == TOK_MINUS;
    let sign: int = if neg {
        1
    } else {
        0
    };
    let ds = body.skip(sign);
    let dsu = bodyu.skip(sign);
    assert(dsu =~= ds + t);
    let k = digits_end(ds);
    lemma_digits_end_bounds(ds);
    assert(k < ds.len());
    lemma_digits_end_extend(ds, t);
    assert(dsu.take(k) =~= ds.take(k));
}

proof fn lemma_parse_bstring_extend(s: Seq<u8>, t: Seq<u8>)
    requires
        spec_parse_bstring(s) is Some,
    ensures
        spec_parse_bstring(s + t) == spec_parse_bstring(s),
{
    let u = s + t;
    let k = digits_end(s);
    lemma_digits_end_bounds(s);
    assert(k < s.len());
    lemma_digits_end_extend(s, t);
    assert(u.take(k) =~= s.take(k));
    assert(u[0] == s[0] && u[k] == s[k]);
    assert forall|j: int| 0 <= j < s.take(k).len() implies is_ascii_digit(s.take(k)[j]) by {
        assert(s.take(k)[j] == s[j]);
    }
    lemma_digits_val_bounds(s.take(k));
    let n = digits_val(s.take(k));
    assert(k + 1 + n <= s.len());
    assert(u.subrange(k + 1, k + 1 + n) =~= s.subrange(k + 1, k + 1 + n));
}

/// Parsing consumes a prefix and never looks past it: a value parsed out
/// of `s` parses identically out of `s` with anything appended.
pub proof fn lemma_parse_value_extend(s: Seq<u8>, t: Seq<u8>)
    requires
        spec_parse_value(s) is Some,
    ensures
        spec_parse_value(s + t) == spec_parse_value(s),
    decreases s.len(), 0int,
{
    let u = s + t;
    assert(u[0] == s[0]);
    if s[0] == TOK_INT {
        lemma_parse_int_extend(s, t);
    } else if is_ascii_digit(s[0]) {
        lemma_parse_bstring_extend(s, t);
    } else if s[0] == TOK_LIST {
        assert(u.drop_first() =~= s.drop_first() + t);
        lemma_parse_items_extend(s.drop_first(), t);
    } else if s[0] == TOK_DICT {
        assert(u.drop_first() =~= s.drop_first() + t);
        lemma_parse_entries_extend(s.drop_first(), t);
    }
}

proof fn lemma_parse_items_extend(s: Seq<u8>, t: Seq<u8>)
    requires
        spec_parse_items(s) is Some,
    ensures
        spec_parse_items(s + t) == spec_parse_items(s),
    decreases s.len(), 1int,
{
    let u = s + t;
    assert(u[0] == s[0]);
    if s[0] == TOK_END {
    } else {
        let (v, n) = spec_parse_value(s)->0;
        lemma_parse_value_extend(s, t);
        assert(u.skip(n) =~= s.skip(n) + t);
        lemma_parse_items_extend(s.skip(n), t);
    }
}

proof fn lemma_parse_entries_extend(s: Seq<u8>, t: Seq<u8>)
    requires
        spec_parse_entries(s) is Some,
    ensures
        spec_parse_entries(s + t) == spec_parse_entries(s),
    decreases s.len(), 1int,
{
    let u = s + t;
    assert(u[0] == s[0]);
    if s[0] == TOK_END {
    } else {
        let (key, n1) = spec_parse_bstring(s)->0;
        lemma_parse_bstring_extend(s, t);
        assert(u.skip(n1) =~= s.skip(n1) + t);
        let (v, n2) = spec_parse_value(s.skip(n1))->0;
        lemma_parse_value_extend(s.skip(n1), t);
        assert(u.skip(n1 + n2) =~= s.skip(n1 + n2) + t);
        lemma_parse_entries_extend(s.skip(n1 + n2), t);
    }
}

/// Whether a value stays inside the wire format's numeric limits: every
/// integer fits a signed 64-bit word and every byte-string length fits a
/// machine word. Everything the parser produces satisfies this.
pub open spec fn spec_encodable(v: SpecValue) -> bool
    decreases v, 0int,
{
    match v {
        SpecValue::Integer(i) => i64::MIN <= i <= i64::MAX,
        SpecValue::Bytes(b) => b.len() <= usize::MAX,
        SpecValue::List(items) => spec_items_encodable(items),
        SpecValue::Dictionary(entries) => spec_entries_encodable(entries),
    }
}

pub open spec fn spec_items_encodable(items: Seq<SpecValue>) -> bool
    decreases items, 1int,
{
    if items.len() == 0 {
        true
    } else {
        spec_items_encodable(items.drop_last()) && spec_encodable(items.last())
    }
}

pub open spec fn spec_entries_encodable(entries: Seq<(Seq<u8>, SpecValue)>) -> bool
    decreases entries, 1int,
{
    if entries.len() == 0 {
        true
    } else {
        spec_entries_encodable(entries.drop_last()) && entries.last().0.len() <= usize::MAX
            && spec_encodable(entries.last().1)
    }
}

proof fn lemma_items_encodable_cons(items: Seq<SpecValue>)
    requires
        spec_items_encodable(items),
        items.len() > 0,
    ensures
        spec_encodable(items[0]),
        spec_items_encodable(items.drop_first()),
    decreases items.len(),
{
    if items.len() == 1 {
        assert(items.drop_first() =~= Seq::<SpecValue>::empty());
    } else {
        lemma_items_encodable_cons(items.drop_last());
        assert(items.drop_last()[0] == items[0]);
        assert(items.drop_first().drop_last() =~= items.drop_last().drop_first());
        assert(items.drop_first().last() == items.last());
    }
}

proof fn lemma_entries_encodable_cons(entries: Seq<(Seq<u8>, SpecValue)>)
    requires
        spec_entries_encodable(entries),
        entries.len() > 0,
    ensures
        entries[0].0.len() <= usize::MAX,
        spec_encodable(entries[0].1),
        spec_entries_encodable(entries.drop_first()),
    decreases entries.len(),
{
    if entries.len() == 1 {
        assert(entries.drop_first() =~= Seq::<(Seq<u8>, SpecValue)>::empty());
    } else {
        lemma_entries_encodable_cons(entries.drop_last());
        assert(entries.drop_last()[0] == entries[0]);
        assert(entries.drop_first().drop_last() =~= entries.drop_last().drop_first());
        assert(entries.drop_first().last() == entries.last());
    }
}

proof fn lemma_dec_digits_props(n: int)
    requires
        n >= 0,
    ensures
        dec_digits(n).len() >= 1,
        forall|j: int| 0 <= j < dec_digits(n).len() ==> is_ascii_digit(dec_digits(n)[j]),
        dec_digits(n).len() > 1 ==> dec_digits(n)[0] != TOK_ZERO,
        n >= 1 ==> dec_digits(n)[0] != TOK_ZERO,
        digits_val(dec_digits(n)) == n,
    decreases n,
{
    reveal_with_fuel(digits_val, 3);
    if n >= 10 {
        lemma_dec_digits_props(n / 10);
        assert(dec_digits(n).drop_last() =~= dec_digits(n / 10));
        assert(dec_digits(n).last() == (0x30 + n % 10) as u8);
        assert(digits_val(dec_digits(n)) == (n / 10) * 10 + n % 10);
        assert forall|j: int| 0 <= j < dec_digits(n).len() implies is_ascii_digit(
            dec_digits(n)[j],
        ) by {
            if j < dec_digits(n / 10).len() {
                assert(dec_digits(n)[j] == dec_digits(n / 10)[j]);
            }
        }
    } else {
        assert(dec_digits(n).drop_last() =~= Seq::<u8>::empty());
        assert(dec_digits(n).last() == (0x30 + n) as u8);
    }
}

proof fn lemma_bstring_roundtrip(b: Seq<u8>)
    requires
        b.len() <= usize::MAX,
    ensures
        ({
            let s = dec_digits(b.len() as int) + seq![TOK_COLON] + b;
            spec_parse_bstring(s) == Some((b, s.len() as int))
        }),
{
    let ds = dec_digits(b.len() as int);
    lemma_dec_digits_props(b.len() as int);
    let s = ds + seq![TOK_COLON] + b;
    assert forall|j: int| 0 <= j < ds.len() implies is_ascii_digit(s[j]) by {
        assert(s[j] == ds[j]);
    }
    assert(s[ds.len() as int] == TOK_COLON);
    lemma_digits_end_is(s, ds.len() as int);
    assert(s.take(ds.len() as int) =~= ds);
    assert(s.subrange(ds.len() as int + 1, ds.len() + 1 + b.len() as int) =~= b);
}

proof fn lemma_int_roundtrip(i: int)
    requires
        i64::MIN <= i <= i64::MAX,
    ensures
        ({
            let s = seq![TOK_INT] + spec_encode_int(i) + seq![TOK_END];
            spec_parse_int(s) == Some((i, s.len() as int))
        }),
{
    let s = seq![TOK_INT] + spec_encode_int(i) + seq![TOK_END];
    let body = s.drop_first();
    if i >= 0 {
        let ds = dec_digits(i);
        lemma_dec_digits_props(i);
        assert(body =~= ds + seq![TOK_END]);
        assert(body[0] == ds[0] && is_ascii_digit(ds[0]));
        assert(body[0] != TOK_MINUS);
        assert(body.skip(0) =~= body);
        assert forall|j: int| 0 <= j < ds.len() implies is_ascii_digit(body[j]) by {
            assert(body[j] == ds[j]);
        }
        assert(body[ds.len() as int] == TOK_END);
        lemma_digits_end_is(body, ds.len() as int);
        assert(body.take(ds.len() as int) =~= ds);
    } else {
        let ds = dec_digits(-i);
        lemma_dec_digits_props(-i);
        assert(body =~= seq![TOK_MINUS] + ds + seq![TOK_END]);
        assert(body[0] == TOK_MINUS);
        let dsu = body.skip(1);
        assert(dsu =~= ds + seq![TOK_END]);
        assert forall|j: int| 0 <= j < ds.len() implies is_ascii_digit(dsu[j]) by {
            assert(dsu[j] == ds[j]);
        }
        assert(dsu[ds.len() as int] == TOK_END);
        lemma_digits_end_is(dsu, ds.len() as int);
        assert(dsu.take(ds.len() as int) =~= ds);
        assert(dsu[0] == ds[0] && ds[0] != TOK_ZERO);
    }
}

proof fn lemma_encode_value_first(v: SpecValue)
    ensures
        spec_encode_value(v).len() >= 1,
        spec_encode_value(v)[0] != TOK_END,
        v is Integer ==> spec_encode_value(v)[0] == TOK_INT,
        v is Bytes ==> is_ascii_digit(spec_encode_value(v)[0]),
        v is List ==> spec_encode_value(v)[0] == TOK_LIST,
        v is Dictionary ==> spec_encode_value(v)[0] == TOK_DICT,
{
    match v {
        SpecValue::Bytes(b) => {
            lemma_dec_digits_props(b.len() as int);
            assert(spec_encode_value(v)[0] == dec_digits(b.len() as int)[0]);
        },
        _ => {},
    }
}

proof fn lemma_encode_items_cons(items: Seq<SpecValue>)
    requires
        items.len() > 0,
    ensures
        spec_encode_items(items) == spec_encode_value(items[0]) + spec_encode_items(
            items.drop_first(),
        ),
    decreases items.len(),
{
    if items.len() == 1 {
        assert(items.drop_last() =~= Seq::<SpecValue>::empty());
        assert(items.drop_first() =~= Seq::<SpecValue>::empty());
        assert(spec_encode_items(items) =~= spec_encode_value(items[0]) + spec_encode_items(
            items.drop_first(),
        ));
    } else {
        lemma_encode_items_cons(items.drop_last());
        assert(items.drop_last()[0] == items[0]);
        assert(items.drop_first().drop_last() =~= items.drop_last().drop_first());
        assert(items.drop_first().last() == items.last());
        assert(spec_encode_items(items) =~= spec_encode_value(items[0]) + spec_encode_items(
            items.drop_first(),
        ));
    }
}

proof fn lemma_encode_entries_cons(entries: Seq<(Seq<u8>, SpecValue)>)
    requires
        entries.len() > 0,
    ensures
        spec_encode_entries(entries) == dec_digits(entries[0].0.len() as int) + seq![TOK_COLON]
            + entries[0].0 + spec_encode_value(entries[0].1) + spec_encode_entries(
            entries.drop_first(),
        ),
    decreases entries.len(),
{
    if entries.len() == 1 {
        assert(entries.drop_last() =~= Seq::<(Seq<u8>, SpecValue)>::empty());
        assert(entries.drop_first() =~= Seq::<(Seq<u8>, SpecValue)>::empty());
        assert(spec_encode_entries(entries) =~= dec_digits(entries[0].0.len() as int)
            + seq![TOK_COLON] + entries[0].0 + spec_encode_value(entries[0].1)
            + spec_encode_entries(entries.drop_first()));
    } else {
        lemma_encode_entries_cons(entries.drop_last());
        assert(entries.drop_last()[0] == entries[0]);
        assert(entries.drop_first().drop_last() =~= entries.drop_last().drop_first());
        assert(entries.drop_first().last() == entries.last());
        assert(spec_encode_entries(entries) =~= dec_digits(entries[0].0.len() as int)
            + seq![TOK_COLON] + entries[0].0 + spec_encode_value(entries[0].1)
            + spec_encode_entries(entries.drop_first()));
    }
}

/// The round-trip law: encoding any value inside the wire format's numeric
/// limits and parsing the result yields the value back, consuming exactly
/// the encoding — the encoder writes what the parser reads.
pub proof fn lemma_encode_parse_round_trip(v: SpecValue)
    requires
        spec_encodable(v),
    ensures
        spec_parse_value(spec_encode_value(v)) == Some((v, spec_encode_value(v).len() as int)),
    decreases v, 0int,
{
    let s = spec_encode_value(v);
    lemma_encode_value_first(v);
    match v {
        SpecValue::Integer(i) => {
            lemma_int_roundtrip(i);
            assert(s[0] == TOK_INT);
        },
        SpecValue::Bytes(b) => {
            lemma_bstring_roundtrip(b);
            assert(is_ascii_digit(s[0]) && s[0] != TOK_INT);
        },
        SpecValue::List(items) => {
            assert(s.drop_first() =~= spec_encode_items(items) + seq![TOK_END]);
            lemma_items_roundtrip(items);
        },
        SpecValue::Dictionary(entries) => {
            assert(s.drop_first() =~= spec_encode_entries(entries) + seq![TOK_END]);
            lemma_entries_roundtrip(entries);
        },
    }
}

proof fn lemma_items_roundtrip(items: Seq<SpecValue>)
    requires
        spec_items_encodable(items),
    ensures
        spec_parse_items(spec_encode_items(items) + seq![TOK_END]) == Some(
            (items, (spec_encode_items(items).len() + 1) as int),
        ),
    decreases items, 1int,
{
    let s = spec_encode_items(items) + seq![TOK_END];
    if items.len() == 0 {
        assert(s =~= seq![TOK_END]);
        assert(items =~= Seq::<SpecValue>::empty());
    } else {
        lemma_items_encodable_cons(items);
        lemma_encode_items_cons(items);
        let v0 = items[0];
        let e0 = spec_encode_value(v0);
        lemma_encode_value_first(v0);
        let tail = spec_encode_items(items.drop_first()) + seq![TOK_END];
        assert(s =~= e0 + tail);
        assert(s[0] == e0[0]);
        lemma_encode_parse_round_trip(v0);
        lemma_parse_value_extend(e0, tail);
        assert(s.skip(e0.len() as int) =~= tail);
        lemma_items_roundtrip(items.drop_first());
        assert(seq![v0] + items.drop_first() =~= items);
    }
}

#[verifier::rlimit(100)]
proof fn lemma_entries_roundtrip(entries: Seq<(Seq<u8>, SpecValue)>)
    requires
        spec_entries_encodable(entries),
    ensures
        spec_parse_entries(spec_encode_entries(entries) + seq![TOK_END]) == Some(
            (entries, (spec_encode_entries(entries).len() + 1) as int),
        ),
    decreases entries, 1int,
{
    let s = spec_encode_entries(entries) + seq![TOK_END];
    if entries.len() == 0 {
        assert(s =~= seq![TOK_END]);
        assert(entries =~= Seq::<(Seq<u8>, SpecValue)>::empty());
    } else {
        lemma_entries_encodable_cons(entries);
        lemma_encode_entries_cons(entries);
        let k0 = entries[0].0;
        let v0 = entries[0].1;
        let kenc = dec_digits(k0.len() as int) + seq![TOK_COLON] + k0;
        let e0 = spec_encode_value(v0);
        lemma_dec_digits_props(k0.len() as int);
        let tail1 = e0 + (spec_encode_entries(entries.drop_first()) + seq![TOK_END]);
        assert(s =~= kenc + tail1);
        assert(s[0] == kenc[0] && kenc[0] == dec_digits(k0.len() as int)[0]);
        assert(is_ascii_digit(s[0]) && s[0] != TOK_END);
        lemma_bstring_roundtrip(k0);
        lemma_parse_bstring_extend(kenc, tail1);
        assert(s.skip(kenc.len() as int) =~= tail1);
        let tail2 = spec_encode_entries(entries.drop_first()) + seq![TOK_END];
        lemma_encode_parse_round_trip(v0);
        lemma_parse_value_extend(e0, tail2);
        assert(tail1 =~= e0 + tail2);
        assert(s.skip(kenc.len() + e0.len() as int) =~= tail2);
        lemma_entries_roundtrip(entries.drop_first());
        assert(seq![(k0, v0)] + entries.drop_first() =~= entries);
    }
}

/// The bencoding of `v` as a fresh buffer.
pub fn encode_value(v: &Value) -> (out: Vec<u8>)
    ensures
        out@ == spec_encode_value(v.model()),
{
    let mut out: Vec<u8> = Vec::new();
    encode_value_into(v, &mut out);
    proof {
        assert(Seq::<u8>::empty() + spec_encode_value(v.model()) =~= spec_encode_value(
            v.model(),
        ));
    }
    out
}

} // verus!
