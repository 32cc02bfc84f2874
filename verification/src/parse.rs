//! Reading signed decimal integers and splitting fields, as command-line
//! dates and times are read.
use vstd::prelude::*;
use crate::number::{all_digits, digit_value, is_digit, NINE, ZERO};
use crate::text::{index_from, lemma_index_from_first};

verus! {

/// ASCII plus sign.
pub const PLUS: u8 = 43;

/// The value of a run of decimal digits.
pub open spec fn digits_value(s: Seq<u8>) -> int
    decreases s.len(),
{
    if s.len() == 0 {
        0
    } else {
        digits_value(s.drop_last()) * 10 + digit_value(s.last())
    }
}

/// A leading sign is present.
pub open spec fn has_sign(s: Seq<u8>) -> bool {
    s.len() > 0 && (s[0] == PLUS || s[0] == crate::number::MINUS)
}

/// The digits after an optional sign.
pub open spec fn unsigned_part(s: Seq<u8>) -> Seq<u8> {
    if has_sign(s) { s.skip(1) } else { s }
}

/// The integer that a string spells: an optional `+` or `-` followed by one
/// or more decimal digits and nothing else.
pub open spec fn parse_int(s: Seq<u8>) -> Option<int> {
    let ds = unsigned_part(s);
    if ds.len() > 0 && all_digits(ds) {
        Some(if has_sign(s) && s[0] == crate::number::MINUS { -digits_value(ds) } else { digits_value(ds) })
    } else {
        None
    }
}

/// What `str::parse::<i32>` gives: the integer, when it fits.
pub open spec fn parse_i32_spec(s: Seq<u8>) -> Option<i32> {
    match parse_int(s) {
        Some(v) => if i32::MIN <= v <= i32::MAX { Some(v as i32) } else { None },
        None => None,
    }
}

/// What `str::parse::<i64>` gives: the integer, when it fits.
pub open spec fn parse_i64_spec(s: Seq<u8>) -> Option<i64> {
    match parse_int(s) {
        Some(v) => if i64::MIN <= v <= i64::MAX { Some(v as i64) } else { None },
        None => None,
    }
}

proof fn lemma_digits_value_nonneg(s: Seq<u8>)
    requires
        all_digits(s),
    ensures
        0 <= digits_value(s),
    decreases s.len(),
{
    if s.len() > 0 {
        lemma_all_digits_drop_last(s);
        lemma_digits_value_nonneg(s.drop_last());
        assert(is_digit(s[s.len() - 1]));
    }
}

proof fn lemma_all_digits_drop_last(s: Seq<u8>)
    requires
        all_digits(s),
        s.len() > 0,
    ensures
        all_digits(s.drop_last()),
{
    assert forall|i: int| 0 <= i < s.len() - 1 implies is_digit(#[trigger] s.drop_last()[i]) by {
        assert(s.drop_last()[i] == s[i]);
    }
}

proof fn lemma_digits_value_grows(s: Seq<u8>, k: int)
    requires
        0 <= k <= s.len(),
        all_digits(s),
    ensures
        digits_value(s.take(k)) <= digits_value(s),
    decreases s.len(),
{
    if k == s.len() {
        assert(s.take(k) =~= s);
    } else {
        lemma_all_digits_drop_last(s);
        lemma_digits_value_grows(s.drop_last(), k);
        lemma_digits_value_nonneg(s.drop_last());
        assert(s.drop_last().take(k) =~= s.take(k));
        assert(is_digit(s[s.len() - 1]));
    }
}

const CAP: u128 = 0x1_0000_0000_0000_0000;

/// The integer that a string spells, when its size is at most 2^64.
fn parse_int_exec(s: &[u8]) -> (r: Option<i128>)
    ensures
        match parse_int(s@) {
            Some(v) => if -CAP <= v <= CAP { r == Some(v as i128) } else { r is None },
            None => r is None,
        },
{
    let n = s.len();
    let signed = n > 0 && (s[0] == PLUS || s[0] == crate::number::MINUS);
    let negative = signed && s[0] == crate::number::MINUS;
    let start: usize = if signed { 1 } else { 0 };
    let ghost ds = unsigned_part(s@);
    assert(ds =~= s@.skip(start as int));
    if start >= n {
        return None;
    }
    let mut acc: u128 = 0;
    let mut i: usize = start;
    while i < n
        invariant
            start <= i <= n,
            n == s@.len(),
            ds == s@.skip(start as int),
            ds == unsigned_part(s@),
            all_digits(ds.take(i - start)),
            acc as int == digits_value(ds.take(i - start)),
            acc <= CAP,
        decreases n - i,
    {
        let c = s[i];
        if !(ZERO <= c && c <= NINE) {
            proof {
                assert(ds[i - start] == c);
                assert(!is_digit(ds[i - start]));
            }
            return None;
        }
        let ghost prev = ds.take(i - start);
        assert(ds.take(i + 1 - start).drop_last() =~= prev);
        assert(ds.take(i + 1 - start).last() == c);
        acc = acc * 10 + (c - ZERO) as u128;
        assert(all_digits(ds.take(i + 1 - start))) by {
            assert forall|k: int| 0 <= k < i + 1 - start implies is_digit(#[trigger] ds.take(i + 1 - start)[k]) by {
                if k < i - start {
                    assert(ds.take(i + 1 - start)[k] == prev[k]);
                }
            }
        }
        if acc > CAP {
            proof {
                if all_digits(ds) {
                    lemma_digits_value_grows(ds, i + 1 - start);
                }
            }
            return None;
        }
        i = i + 1;
    }
    assert(ds.take(n - start) =~= ds);
    if negative {
        Some(-(acc as i128))
    } else {
        Some(acc as i128)
    }
}

/// Reads a signed 32-bit integer as `str::parse::<i32>` does.
pub fn parse_i32(s: &[u8]) -> (r: Option<i32>)
    ensures
        r == parse_i32_spec(s@),
{
    match parse_int_exec(s) {
        Some(v) => if -2147483648 <= v && v <= 2147483647 { Some(v as i32) } else { None },
        None => None,
    }
}

/// Reads a signed 64-bit integer as `str::parse::<i64>` does.
pub fn parse_i64(s: &[u8]) -> (r: Option<i64>)
    ensures
        r == parse_i64_spec(s@),
{
    match parse_int_exec(s) {
        Some(v) => if -9223372036854775808 <= v && v <= 9223372036854775807 { Some(v as i64) } else { None },
        None => None,
    }
}

/// The three fields of a string cut at exactly two separators, or nothing
/// when it holds fewer or more.
pub open spec fn split3(s: Seq<u8>, sep: u8) -> Option<(Seq<u8>, Seq<u8>, Seq<u8>)> {
    let i = index_from(s, sep, 0);
    let j = index_from(s, sep, i + 1);
    if i < s.len() && j < s.len() && index_from(s, sep, j + 1) == s.len() {
        Some((s.take(i), s.subrange(i + 1, j), s.skip(j + 1)))
    } else {
        None
    }
}

fn find_from(s: &[u8], sep: u8, from: usize) -> (k: usize)
    requires
        from <= s.len(),
    ensures
        k == index_from(s@, sep, from as int),
        from <= k <= s.len(),
{
    let mut k = from;
    while k < s.len() && s[k] != sep
        invariant
            from <= k <= s.len(),
            forall|m: int| from <= m < k ==> s@[m] != sep,
        decreases s.len() - k,
    {
        k = k + 1;
    }
    proof {
        lemma_index_from_first(s@, sep, from as int, k as int);
    }
    k
}

/// Cuts a string into three fields at two separators, as `split` into
/// exactly three parts does.
pub fn split3_exec(s: &[u8], sep: u8) -> (r: Option<(Vec<u8>, Vec<u8>, Vec<u8>)>)
    ensures
        match split3(s@, sep) {
            Some(t) => r matches Some(v) && v.0@ == t.0 && v.1@ == t.1 && v.2@ == t.2,
            None => r is None,
        },
{
    let i = find_from(s, sep, 0);
    if i >= s.len() {
        return None;
    }
    let j = find_from(s, sep, i + 1);
    if j >= s.len() {
        return None;
    }
    let k = find_from(s, sep, j + 1);
    if k != s.len() {
        return None;
    }
    let a = vstd::slice::slice_to_vec(&s[0..i]);
    let b = vstd::slice::slice_to_vec(&s[i + 1..j]);
    let c = vstd::slice::slice_to_vec(&s[j + 1..s.len()]);
    assert(a@ =~= s@.take(i as int));
    assert(c@ =~= s@.skip(j + 1));
    Some((a, b, c))
}

} // verus!
