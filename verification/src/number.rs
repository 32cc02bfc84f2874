//! Spelling decimal numbers out in English words.
use vstd::prelude::*;
use vstd::string::StringSliceAdditionalSpecFns;
use crate::text::{index_from, lemma_index_from_first, lemma_index_from_range, NEWLINE};

verus! {

/// Words for 0 to 19 (nothing for zero).
pub open spec fn name1(d: int) -> Seq<char> {
    if d == 1 { "one"@ } else if d == 2 { "two"@ } else if d == 3 { "three"@ }
    else if d == 4 { "four"@ } else if d == 5 { "five"@ } else if d == 6 { "six"@ }
    else if d == 7 { "seven"@ } else if d == 8 { "eight"@ } else if d == 9 { "nine"@ }
    else if d == 10 { "ten"@ } else if d == 11 { "eleven"@ } else if d == 12 { "twelve"@ }
    else if d == 13 { "thirteen"@ } else if d == 14 { "fourteen"@ } else if d == 15 { "fifteen"@ }
    else if d == 16 { "sixteen"@ } else if d == 17 { "seventeen"@ } else if d == 18 { "eighteen"@ }
    else if d == 19 { "nineteen"@ } else { ""@ }
}

fn name1_str(d: u8) -> (s: &'static str)
    requires
        d < 20,
    ensures
        s@ == name1(d as int),
{
    match d {
        1 => "one",
        2 => "two",
        3 => "three",
        4 => "four",
        5 => "five",
        6 => "six",
        7 => "seven",
        8 => "eight",
        9 => "nine",
        10 => "ten",
        11 => "eleven",
        12 => "twelve",
        13 => "thirteen",
        14 => "fourteen",
        15 => "fifteen",
        16 => "sixteen",
        17 => "seventeen",
        18 => "eighteen",
        19 => "nineteen",
        _ => "",
    }
}

/// Words for the multiples of ten, indexed by the tens digit.
pub open spec fn name2(d: int) -> Seq<char> {
    if d == 1 { "ten"@ } else if d == 2 { "twenty"@ } else if d == 3 { "thirty"@ }
    else if d == 4 { "forty"@ } else if d == 5 { "fifty"@ } else if d == 6 { "sixty"@ }
    else if d == 7 { "seventy"@ } else if d == 8 { "eighty"@ } else if d == 9 { "nineteen"@ }
    else { ""@ }
}

/// Names of the powers of one thousand (index 0 is "hundred").
pub open spec fn name3(i: int) -> Seq<char> {
    if i == 0 { "hundred"@ } else if i == 1 { "thousand"@ } else if i == 2 { "million"@ }
    else if i == 3 { "billion"@ } else if i == 4 { "trillion"@ } else if i == 5 { "quadrillion"@ }
    else if i == 6 { "quintillion"@ } else if i == 7 { "sextillion"@ } else if i == 8 { "septillion"@ }
    else if i == 9 { "octillion"@ } else if i == 10 { "nonillion"@ } else if i == 11 { "decillion"@ }
    else if i == 12 { "undecillion"@ } else if i == 13 { "duodecillion"@ }
    else if i == 14 { "tredecillion"@ } else if i == 15 { "quattuordecillion"@ }
    else if i == 16 { "quindecillion"@ } else if i == 17 { "sexdecillion"@ }
    else if i == 18 { "septendecillion"@ } else if i == 19 { "octodecillion"@ }
    else if i == 20 { "novemdecillion"@ } else { "vigintillion"@ }
}

/// Prefixes that scale a power of one thousand by ten or a hundred.
pub open spec fn pref(i: int) -> Seq<char> {
    if i == 1 { "ten-"@ } else if i == 2 { "hundred-"@ } else { ""@ }
}

fn name2_str(d: u8) -> (s: &'static str)
    requires
        d < 10,
    ensures
        s@ == name2(d as int),
{
    match d {
        1 => "ten",
        2 => "twenty",
        3 => "thirty",
        4 => "forty",
        5 => "fifty",
        6 => "sixty",
        7 => "seventy",
        8 => "eighty",
        9 => "nineteen",
        _ => "",
    }
}

fn name3_str(i: usize) -> (s: &'static str)
    requires
        i <= 21,
    ensures
        s@ == name3(i as int),
{
    match i {
        0 => "hundred",
        1 => "thousand",
        2 => "million",
        3 => "billion",
        4 => "trillion",
        5 => "quadrillion",
        6 => "quintillion",
        7 => "sextillion",
        8 => "septillion",
        9 => "octillion",
        10 => "nonillion",
        11 => "decillion",
        12 => "undecillion",
        13 => "duodecillion",
        14 => "tredecillion",
        15 => "quattuordecillion",
        16 => "quindecillion",
        17 => "sexdecillion",
        18 => "septendecillion",
        19 => "octodecillion",
        20 => "novemdecillion",
        _ => "vigintillion",
    }
}

fn pref_str(i: usize) -> (s: &'static str)
    requires
        i < 3,
    ensures
        s@ == pref(i as int),
{
    match i {
        1 => "ten-",
        2 => "hundred-",
        _ => "",
    }
}

/// The ASCII digit `0`.
pub const ZERO: u8 = 48;
/// The ASCII digit `9`.
pub const NINE: u8 = 57;

/// An ASCII decimal digit.
pub open spec fn is_digit(b: u8) -> bool {
    ZERO <= b <= NINE
}

/// The value of an ASCII decimal digit.
pub open spec fn digit_value(b: u8) -> int {
    b as int - ZERO as int
}

/// Every byte is an ASCII decimal digit.
pub open spec fn all_digits(p: Seq<u8>) -> bool {
    forall|i: int| 0 <= i < p.len() ==> #[trigger] is_digit(p[i])
}

/// Words for a value below one hundred (nothing for zero).
pub open spec fn tens_words(val: int) -> Seq<char> {
    if val < 20 {
        name1(val)
    } else if val % 10 != 0 {
        name2(val / 10) + "-"@ + name1(val % 10)
    } else {
        name2(val / 10)
    }
}

/// The value of the last two of three digits.
pub open spec fn low_pair(p: Seq<u8>) -> int {
    digit_value(p[1]) * 10 + digit_value(p[2])
}

/// The value of a pair of digits.
pub open spec fn pair_value(p: Seq<u8>) -> int {
    digit_value(p[0]) * 10 + digit_value(p[1])
}

/// Words for the first `len` digits of `p`, where `len` is one, two or three.
pub open spec fn number_words(p: Seq<u8>, len: int) -> Seq<char> {
    if len == 3 {
        let h = digit_value(p[0]);
        let val = low_pair(p);
        (if h != 0 { name1(h) + " hundred"@ } else { Seq::empty() }) + (if val != 0 {
            (if h != 0 { " "@ } else { Seq::empty() }) + tens_words(val)
        } else {
            Seq::empty()
        })
    } else if len == 2 {
        if pair_value(p) != 0 { tens_words(pair_value(p)) } else { Seq::empty() }
    } else if len == 1 {
        if digit_value(p[0]) != 0 { name1(digit_value(p[0])) } else { Seq::empty() }
    } else {
        Seq::empty()
    }
}

/// Whether the first `len` digits of `p` (one to three of them) say anything.
pub open spec fn number_nonzero(p: Seq<u8>, len: int) -> bool {
    if len == 3 {
        digit_value(p[0]) != 0 || low_pair(p) != 0
    } else if len == 2 {
        pair_value(p) != 0
    } else if len == 1 {
        digit_value(p[0]) != 0
    } else {
        false
    }
}

fn tens(val: u8, out: &mut String)
    requires
        0 < val < 100,
    ensures
        final(out)@ == old(out)@ + tens_words(val as int),
{
    if val < 20 {
        out.append(name1_str(val));
    } else {
        out.append(name2_str(val / 10));
        if val % 10 != 0 {
            out.append("-");
            out.append(name1_str(val % 10));
        }
    }
}

/// The bytes that the words for the first `len` characters of `p` can be
/// looked up for: none below the digit zero, a leading value below twenty
/// and a value below one hundred for the last two. Decimal digits always
/// qualify.
pub open spec fn number_ok(p: Seq<u8>, len: int) -> bool {
    if len == 3 {
        &&& p[0] >= ZERO && p[1] >= ZERO && p[2] >= ZERO
        &&& digit_value(p[0]) < 20
        &&& low_pair(p) < 100
    } else if len == 2 {
        p[0] >= ZERO && p[1] >= ZERO && pair_value(p) < 100
    } else if len == 1 {
        p[0] >= ZERO && digit_value(p[0]) < 20
    } else {
        true
    }
}

/// Appends the words for the first `len` digits of `p` (one to three
/// digits; nothing for any other count) and says whether it appended any.
pub fn number_fn(p: &[u8], len: usize, out: &mut String) -> (rval: bool)
    requires
        len <= 3 ==> len <= p.len() && number_ok(p@, len as int),
    ensures
        final(out)@ == old(out)@ + number_words(p@, len as int),
        rval == number_nonzero(p@, len as int),
{
    let ghost start = out@;
    let mut rval = false;
    if len == 3 {
        if p[0] != ZERO {
            rval = true;
            out.append(name1_str(p[0] - ZERO));
            out.append(" hundred");
        }
        let val: usize = (p[2] - ZERO) as usize + (p[1] - ZERO) as usize * 10;
        if val != 0 {
            if rval {
                out.append(" ");
            }
            tens(val as u8, out);
            rval = true;
        }
        assert(out@ =~= start + number_words(p@, 3));
    } else if len == 2 {
        let val: usize = (p[1] - ZERO) as usize + (p[0] - ZERO) as usize * 10;
        if val != 0 {
            tens(val as u8, out);
            rval = true;
        }
        assert(out@ =~= start + number_words(p@, 2));
    } else if len == 1 {
        if p[0] != ZERO {
            rval = true;
            out.append(name1_str(p[0] - ZERO));
        }
        assert(out@ =~= start + number_words(p@, 1));
    } else {
        assert(out@ =~= start + number_words(p@, len as int));
    }
    rval
}

/// What follows a word group: a space in one-line mode, else a full stop and
/// a newline.
pub open spec fn sep(lflag: bool) -> Seq<char> {
    if lflag { " "@ } else { ".\n"@ }
}

fn sep_str(lflag: bool) -> (s: &'static str)
    ensures
        s@ == sep(lflag),
{
    if lflag { " " } else { ".\n" }
}

/// A group of digits followed by the name of its power of one thousand.
pub open spec fn group_words(g: Seq<u8>, scale: int, lflag: bool) -> Seq<char> {
    if number_nonzero(g, g.len() as int) {
        number_words(g, g.len() as int) + " "@ + name3(scale) + sep(lflag)
    } else {
        Seq::empty()
    }
}

/// The last group of digits, which carries no power of one thousand.
pub open spec fn last_group_words(g: Seq<u8>, lflag: bool) -> Seq<char> {
    if number_nonzero(g, g.len() as int) {
        number_words(g, g.len() as int) + (if lflag { Seq::empty() } else { ".\n"@ })
    } else {
        Seq::empty()
    }
}

/// Words for digits taken three at a time from the front.
pub open spec fn triples_words(q: Seq<u8>, lflag: bool) -> Seq<char>
    decreases q.len(),
{
    if q.len() <= 3 {
        last_group_words(q, lflag)
    } else {
        group_words(q.take(3), (q.len() - 3) / 3, lflag) + triples_words(q.skip(3), lflag)
    }
}

/// Whether some group of three says anything.
pub open spec fn triples_nonzero(q: Seq<u8>) -> bool
    decreases q.len(),
{
    if q.len() <= 3 {
        number_nonzero(q, q.len() as int)
    } else {
        number_nonzero(q.take(3), 3) || triples_nonzero(q.skip(3))
    }
}

/// Words for a whole run of digits: a short leading group, then groups of three.
#[verifier::opaque]
pub open spec fn unit_words(p: Seq<u8>, lflag: bool) -> Seq<char> {
    if p.len() > 3 && (p.len() % 3) as int != 0 {
        group_words(p.take((p.len() % 3) as int), (p.len() - (p.len() % 3) as int) / 3, lflag)
            + triples_words(p.skip((p.len() % 3) as int), lflag)
    } else {
        triples_words(p, lflag)
    }
}

/// Whether the words for a run of digits say anything.
#[verifier::opaque]
pub open spec fn unit_nonzero(p: Seq<u8>) -> bool {
    if p.len() > 3 && (p.len() % 3) as int != 0 {
        number_nonzero(p.take((p.len() % 3) as int), (p.len() % 3) as int) || triples_nonzero(p.skip((p.len() % 3) as int))
    } else {
        triples_nonzero(p)
    }
}

/// A group whose words can be looked up and, when it says anything, whose
/// power of one thousand has a name.
pub open spec fn group_ok(g: Seq<u8>, scale: int) -> bool {
    number_ok(g, g.len() as int) && (number_nonzero(g, g.len() as int) ==> scale <= 21)
}

/// Every group of three can be spelled.
pub open spec fn triples_ok(q: Seq<u8>) -> bool
    decreases q.len(),
{
    if q.len() <= 3 {
        number_ok(q, q.len() as int)
    } else {
        group_ok(q.take(3), (q.len() - 3) / 3) && triples_ok(q.skip(3))
    }
}

/// Every group of a run of characters can be spelled: the inputs on which
/// `unit` runs to its end.
pub open spec fn unit_ok(p: Seq<u8>) -> bool {
    if p.len() > 3 && p.len() % 3 != 0 {
        group_ok(p.take((p.len() % 3) as int), (p.len() - (p.len() % 3) as int) / 3)
            && triples_ok(p.skip((p.len() % 3) as int))
    } else {
        triples_ok(p)
    }
}

/// A group of at most three decimal digits can always be looked up.
pub proof fn lemma_digits_number_ok(g: Seq<u8>)
    requires
        g.len() <= 3,
        all_digits(g),
    ensures
        number_ok(g, g.len() as int),
{
    if g.len() >= 1 {
        assert(is_digit(g[0]));
    }
    if g.len() >= 2 {
        assert(is_digit(g[1]));
    }
    if g.len() == 3 {
        assert(is_digit(g[2]));
    }
}

/// Every stretch of a run of decimal digits is a run of decimal digits.
pub proof fn lemma_all_digits_sub(p: Seq<u8>, a: int, b: int)
    requires
        all_digits(p),
        0 <= a <= b <= p.len(),
    ensures
        all_digits(p.subrange(a, b)),
{
    assert forall|i: int| 0 <= i < b - a implies #[trigger] is_digit(p.subrange(a, b)[i]) by {
        assert(p.subrange(a, b)[i] == p[a + i]);
    }
}

/// A run of at most 66 decimal digits, taken three at a time from the front,
/// can always be spelled.
pub proof fn lemma_triples_ok(q: Seq<u8>)
    requires
        all_digits(q),
        q.len() <= 66,
    ensures
        triples_ok(q),
    decreases q.len(),
{
    if q.len() <= 3 {
        lemma_digits_number_ok(q);
    } else {
        lemma_all_digits_sub(q, 0, 3);
        assert(q.subrange(0, 3) =~= q.take(3));
        lemma_digits_number_ok(q.take(3));
        lemma_all_digits_sub(q, 3, q.len() as int);
        assert(q.subrange(3, q.len() as int) =~= q.skip(3));
        lemma_triples_ok(q.skip(3));
    }
}

/// Runs of at most 66 decimal digits can always be spelled: they meet what
/// `unit` requires.
pub proof fn lemma_digits_unit_ok(p: Seq<u8>)
    requires
        all_digits(p),
        p.len() <= 66,
    ensures
        unit_ok(p),
{
    if p.len() > 3 && p.len() % 3 != 0 {
        let k = (p.len() % 3) as int;
        lemma_all_digits_sub(p, 0, k);
        assert(p.subrange(0, k) =~= p.take(k));
        lemma_digits_number_ok(p.take(k));
        lemma_all_digits_sub(p, k, p.len() as int);
        assert(p.subrange(k, p.len() as int) =~= p.skip(k));
        lemma_triples_ok(p.skip(k));
    } else {
        lemma_triples_ok(p);
    }
}

/// Appends the words for a group of one to three digits and, when the group
/// says anything, the name of its power of one thousand.
fn emit_group(g: &[u8], scale: usize, lflag: bool, out: &mut String) -> (rval: bool)
    requires
        1 <= g.len() <= 3,
        group_ok(g@, scale as int),
    ensures
        final(out)@ == old(out)@ + group_words(g@, scale as int, lflag),
        rval == number_nonzero(g@, g.len() as int),
{
    let ghost start = out@;
    let r = number_fn(g, g.len(), out);
    if r {
        out.append(" ");
        out.append(name3_str(scale));
        out.append(sep_str(lflag));
    }
    assert(out@ =~= start + group_words(g@, scale as int, lflag));
    r
}

/// Appends the words for the last group of digits.
fn emit_last_group(g: &[u8], lflag: bool, out: &mut String) -> (rval: bool)
    requires
        g.len() <= 3,
        number_ok(g@, g.len() as int),
    ensures
        final(out)@ == old(out)@ + last_group_words(g@, lflag),
        rval == number_nonzero(g@, g.len() as int),
{
    let ghost start = out@;
    let r = number_fn(g, g.len(), out);
    if r && !lflag {
        out.append(".\n");
    }
    assert(out@ =~= start + last_group_words(g@, lflag));
    r
}

/// Appends the words for the first `len` digits of `p`, each power of one
/// thousand named, and says whether it appended any.
#[verifier::spinoff_prover]
pub fn unit(len: usize, p: &[u8], lflag: bool, out: &mut String) -> (rval: bool)
    requires
        len <= p.len(),
        unit_ok(p@.take(len as int)),
    ensures
        final(out)@ == old(out)@ + unit_words(p@.take(len as int), lflag),
        rval == unit_nonzero(p@.take(len as int)),
{
    reveal(unit_words);
    reveal(unit_nonzero);
    let ghost whole = p@.take(len as int);
    let ghost start = out@;
    let total = len;
    let mut rval = false;
    let mut len = len;
    let mut pos: usize = 0;
    if len > 3 {
        if len % 3 != 0 {
            let off = len % 3;
            len = len - off;
            let g = &p[0..off];
            assert(g@ =~= whole.take(off as int));
            if emit_group(g, len / 3, lflag, out) {
                rval = true;
            }
            pos = off;
        }
        proof {
            if pos == 0 {
                assert(whole.skip(0) =~= whole);
            } else {
                let gw = group_words(whole.take(pos as int), (total - pos) as int / 3, lflag);
                let tw = triples_words(whole.skip(pos as int), lflag);
                assert(start + (gw + tw) =~= (start + gw) + tw);
            }
        }
        while len > 3
            invariant
                whole == p@.take(total as int),
                total <= p.len(),
                whole.len() == total,
                pos + len == total,
                len >= 3,
                len % 3 == 0,
                triples_ok(whole.skip(pos as int)),
                start + unit_words(whole, lflag) == out@ + triples_words(whole.skip(pos as int), lflag),
                unit_nonzero(whole) == (rval || triples_nonzero(whole.skip(pos as int))),
            decreases len,
        {
            let ghost before = out@;
            let ghost q = whole.skip(pos as int);
            len = len - 3;
            let g = &p[pos..pos + 3];
            proof {
                assert(g@ =~= q.take(3));
                assert(q.skip(3) =~= whole.skip(pos + 3));
            }
            if emit_group(g, len / 3, lflag, out) {
                rval = true;
            }
            proof {
                let gw = group_words(q.take(3), (q.len() - 3) / 3, lflag);
                let tw = triples_words(q.skip(3), lflag);
                assert(before + (gw + tw) =~= (before + gw) + tw);
            }
            pos = pos + 3;
        }
    } else {
        assert(whole.skip(0) =~= whole);
    }
    let ghost q = whole.skip(pos as int);
    let g = &p[pos..pos + len];
    assert(g@ =~= q);
    if emit_last_group(g, lflag, out) {
        rval = true;
    }
    rval
}

/// The name of the fraction whose denominator has `len` digits after the one.
#[verifier::opaque]
pub open spec fn fraction_name(len: int) -> Seq<char> {
    if len == 1 {
        "tenths.\n"@
    } else if len == 2 {
        "hundredths.\n"@
    } else {
        pref(len % 3) + name3(len / 3) + "ths.\n"@
    }
}

/// Appends the name of the fraction with `len` decimal places.
pub fn pfract(len: usize, out: &mut String)
    requires
        len <= 65,
    ensures
        final(out)@ == old(out)@ + fraction_name(len as int),
{
    reveal(fraction_name);
    if len == 1 {
        out.append("tenths.\n");
    } else if len == 2 {
        out.append("hundredths.\n");
    } else {
        let ghost start = out@;
        out.append(pref_str(len % 3));
        out.append(name3_str(len / 3));
        out.append("ths.\n");
        assert(out@ =~= start + fraction_name(len as int));
    }
}

/// Why a line cannot be spelled out.
#[derive(Debug, Clone, Copy, PartialEq, Eq, Structural)]
pub enum NumberError {
    /// A character other than a digit, a decimal point or a leading minus sign,
    /// or a second decimal point.
    IllegalNumber,
    /// More than 65 characters before or after the decimal point.
    TooLarge,
}

/// The most characters that either side of the decimal point may hold.
pub const MAXNUM: usize = 65;

/// ASCII tab.
pub const TAB: u8 = 9;
/// ASCII space.
pub const SPACE: u8 = 32;
/// ASCII full stop, the decimal point.
pub const DOT: u8 = 46;
/// ASCII hyphen, the minus sign.
pub const MINUS: u8 = 45;

/// The first index at or after `i` and before `end` that is not a space or a
/// tab, or `end`.
pub open spec fn skip_blanks(b: Seq<u8>, i: int, end: int) -> int
    decreases end - i,
{
    if i < end && (b[i] == SPACE || b[i] == TAB) {
        skip_blanks(b, i + 1, end)
    } else {
        i
    }
}

/// Where the number ends: at the first newline, else at the end of the line.
pub open spec fn body_end(b: Seq<u8>) -> int {
    index_from(b, NEWLINE, 0)
}

/// Where the number starts: after the leading spaces and tabs.
pub open spec fn body_start(b: Seq<u8>) -> int {
    skip_blanks(b, 0, body_end(b))
}

/// The characters of the number.
pub open spec fn number_chars(b: Seq<u8>) -> Seq<u8> {
    b.subrange(body_start(b), body_end(b))
}

/// A character that may stand in a number.
pub open spec fn is_number_char(c: u8) -> bool {
    is_digit(c) || c == DOT || c == MINUS
}

/// A number with a stray character, a minus sign anywhere but at the very
/// start, or two decimal points.
pub open spec fn illegal(body: Seq<u8>) -> bool {
    ||| exists|j: int| 0 <= j < body.len() && !is_number_char(#[trigger] body[j])
    ||| exists|j: int| 0 < j < body.len() && #[trigger] body[j] == MINUS
    ||| exists|j: int, k: int| 0 <= j < k < body.len() && #[trigger] body[j] == DOT && #[trigger] body[k] == DOT
}

/// The characters before the decimal point, sign included.
pub open spec fn int_part(body: Seq<u8>) -> Seq<u8> {
    body.take(index_from(body, DOT, 0))
}

/// The digits after the decimal point (none without one).
pub open spec fn frac_part(body: Seq<u8>) -> Seq<u8> {
    let d = index_from(body, DOT, 0);
    if d < body.len() { body.skip(d + 1) } else { Seq::empty() }
}

/// Too many characters on either side of the decimal point.
pub open spec fn too_large(body: Seq<u8>) -> bool {
    int_part(body).len() > MAXNUM || frac_part(body).len() > MAXNUM
}

/// The number starts with a minus sign.
pub open spec fn is_negative(body: Seq<u8>) -> bool {
    int_part(body).len() > 0 && int_part(body)[0] == MINUS
}

/// The digits before the decimal point, sign left out.
pub open spec fn int_digits(body: Seq<u8>) -> Seq<u8> {
    if is_negative(body) { int_part(body).skip(1) } else { int_part(body) }
}

/// Some character is not the digit zero.
pub open spec fn has_nonzero(s: Seq<u8>) -> bool {
    exists|j: int| 0 <= j < s.len() && #[trigger] s[j] != ZERO
}

/// "minus" for a negative number.
pub open spec fn minus_words(neg: bool, lflag: bool) -> Seq<char> {
    if neg { "minus"@ + sep(lflag) } else { Seq::empty() }
}

/// The integer digits say something.
pub open spec fn int_said(digits: Seq<u8>) -> bool {
    digits.len() > 0 && unit_nonzero(digits)
}

/// The fraction digits say something.
pub open spec fn frac_said(frac: Seq<u8>) -> bool {
    has_nonzero(frac) && unit_nonzero(frac)
}

/// Words for the integer digits.
pub open spec fn int_words(digits: Seq<u8>, lflag: bool) -> Seq<char> {
    if digits.len() > 0 { unit_words(digits, lflag) } else { Seq::empty() }
}

/// Words for the fraction: "and", its digits and its denominator.
pub open spec fn frac_words(digits: Seq<u8>, frac: Seq<u8>, lflag: bool) -> Seq<char> {
    if has_nonzero(frac) {
        (if int_said(digits) { "and"@ + sep(lflag) } else { Seq::empty() })
            + unit_words(frac, lflag)
            + (if unit_nonzero(frac) {
                (if lflag { " "@ } else { Seq::empty() }) + fraction_name(frac.len() as int)
            } else {
                Seq::empty()
            })
    } else {
        Seq::empty()
    }
}

/// "zero" when nothing else was said.
pub open spec fn zero_words(digits: Seq<u8>, frac: Seq<u8>, lflag: bool) -> Seq<char> {
    if !int_said(digits) && !frac_said(frac) {
        "zero"@ + (if lflag { Seq::empty() } else { ".\n"@ })
    } else {
        Seq::empty()
    }
}

/// The spelling of a number from its sign, its integer digits and its
/// fraction digits.
pub open spec fn spell_words(neg: bool, digits: Seq<u8>, frac: Seq<u8>, lflag: bool) -> Seq<char> {
    minus_words(neg, lflag) + int_words(digits, lflag) + frac_words(digits, frac, lflag)
        + zero_words(digits, frac, lflag) + (if lflag { "\n"@ } else { Seq::empty() })
}

/// What the tool prints for a line, or why it refuses it.
pub open spec fn convert_result(b: Seq<u8>, lflag: bool) -> Result<Seq<char>, NumberError> {
    let body = number_chars(b);
    if illegal(body) {
        Err(NumberError::IllegalNumber)
    } else if too_large(body) {
        Err(NumberError::TooLarge)
    } else {
        Ok(spell_words(is_negative(body), int_digits(body), frac_part(body), lflag))
    }
}

fn has_nonzero_exec(s: &[u8]) -> (r: bool)
    ensures
        r == has_nonzero(s@),
{
    let mut i: usize = 0;
    while i < s.len()
        invariant
            i <= s.len(),
            forall|k: int| 0 <= k < i ==> s@[k] == ZERO,
        decreases s.len() - i,
    {
        if s[i] != ZERO {
            return true;
        }
        i = i + 1;
    }
    false
}

/// Spells out a number given its sign, its integer digits and its fraction
/// digits.
#[verifier::spinoff_prover]
#[verifier::rlimit(30)]
fn spell(neg: bool, digits: &[u8], frac: &[u8], lflag: bool) -> (out: String)
    requires
        digits.len() <= MAXNUM,
        frac.len() <= MAXNUM,
        all_digits(digits@),
        all_digits(frac@),
    ensures
        out@ == spell_words(neg, digits@, frac@, lflag),
{
    let mut out = String::new();
    if neg {
        out.append("minus");
        out.append(sep_str(lflag));
    }
    assert(out@ =~= minus_words(neg, lflag));
    let ghost s1 = out@;
    let mut rval = false;
    if digits.len() > 0 {
        assert(digits@.take(digits.len() as int) =~= digits@);
        proof {
            lemma_digits_unit_ok(digits@);
        }
        rval = unit(digits.len(), digits, lflag, &mut out);
    } else {
        assert(out@ =~= s1 + int_words(digits@, lflag));
    }
    assert(rval == int_said(digits@));
    let ghost s2 = out@;
    let nz = has_nonzero_exec(frac);
    if nz {
        if rval {
            out.append("and");
            out.append(sep_str(lflag));
        }
        let ghost sa = out@;
        assert(frac@.take(frac.len() as int) =~= frac@);
        proof {
            lemma_digits_unit_ok(frac@);
        }
        if unit(frac.len(), frac, lflag, &mut out) {
            let ghost sb = out@;
            if lflag {
                out.append(" ");
            }
            pfract(frac.len(), &mut out);
            rval = true;
            assert(out@ =~= sb + (if lflag { " "@ } else { Seq::<char>::empty() }) + fraction_name(frac.len() as int));
        }
        assert(out@ =~= s2 + frac_words(digits@, frac@, lflag));
    } else {
        assert(out@ =~= s2 + frac_words(digits@, frac@, lflag));
    }
    assert(rval == (int_said(digits@) || frac_said(frac@)));
    let ghost s3 = out@;
    if !rval {
        out.append("zero");
        if !lflag {
            out.append(".\n");
        }
    }
    assert(out@ =~= s3 + zero_words(digits@, frac@, lflag));
    let ghost s4 = out@;
    if lflag {
        out.append("\n");
    }
    assert(out@ =~= s4 + (if lflag { "\n"@ } else { Seq::<char>::empty() }));
    out
}

/// Where the parts of the number on a line lie: whether it is negative,
/// then the bounds of its integer digits and of its fraction digits; or why
/// the line holds no number the tool accepts.
fn split_number(b: &[u8]) -> (r: Result<(bool, usize, usize, usize, usize), NumberError>)
    ensures
        match r {
            Err(e) => convert_result(b@, false) == Err::<Seq<char>, NumberError>(e),
            Ok((neg, ds, de, fs, fe)) => {
                let body = number_chars(b@);
                &&& !illegal(body)
                &&& !too_large(body)
                &&& neg == is_negative(body)
                &&& ds <= de <= b@.len()
                &&& fs <= fe <= b@.len()
                &&& b@.subrange(ds as int, de as int) == int_digits(body)
                &&& b@.subrange(fs as int, fe as int) == frac_part(body)
                &&& all_digits(int_digits(body))
                &&& all_digits(frac_part(body))
            },
        },
{
    let ghost bs = b@;
    let n = b.len();
    let mut end: usize = 0;
    while end < n && b[end] != NEWLINE
        invariant
            end <= n,
            n == bs.len(),
            b@ == bs,
            forall|k: int| 0 <= k < end ==> bs[k] != NEWLINE,
        decreases n - end,
    {
        end = end + 1;
    }
    proof {
        lemma_index_from_first(bs, NEWLINE, 0, end as int);
    }
    let mut start: usize = 0;
    while start < end && (b[start] == SPACE || b[start] == TAB)
        invariant
            start <= end <= n,
            n == bs.len(),
            b@ == bs,
            skip_blanks(bs, 0, end as int) == skip_blanks(bs, start as int, end as int),
        decreases end - start,
    {
        start = start + 1;
    }
    let ghost body = bs.subrange(start as int, end as int);
    assert(body == number_chars(bs));
    let mut dot: usize = end;
    let mut j: usize = start;
    while j < end
        invariant
            start <= j <= end <= n,
            n == bs.len(),
            b@ == bs,
            body == bs.subrange(start as int, end as int),
            body == number_chars(bs),
            dot == end || (start <= dot < j && bs[dot as int] == DOT),
            forall|k: int| start <= k < j ==> is_number_char(#[trigger] bs[k]),
            forall|k: int| start <= k < j && #[trigger] bs[k] == MINUS ==> k == start,
            forall|k: int| start <= k < j && #[trigger] bs[k] == DOT ==> k == dot,
        decreases end - j,
    {
        let c = b[j];
        if ZERO <= c && c <= NINE {
        } else if c == DOT {
            if dot != end {
                proof {
                    assert(body[dot - start] == DOT);
                    assert(body[j - start] == DOT);
                }
                return Err(NumberError::IllegalNumber);
            }
            dot = j;
        } else if c == MINUS {
            if j != start {
                proof {
                    assert(body[j - start] == MINUS);
                }
                return Err(NumberError::IllegalNumber);
            }
        } else {
            proof {
                assert(body[j - start] == c);
            }
            return Err(NumberError::IllegalNumber);
        }
        j = j + 1;
    }
    proof {
        assert forall|k: int| 0 <= k < body.len() implies is_number_char(#[trigger] body[k]) by {
            assert(body[k] == bs[start + k]);
        }
        assert forall|k: int| 0 < k < body.len() implies #[trigger] body[k] != MINUS by {
            assert(body[k] == bs[start + k]);
        }
        assert forall|k1: int, k2: int| 0 <= k1 < k2 < body.len() && #[trigger] body[k1] == DOT implies #[trigger] body[k2] != DOT by {
            assert(body[k1] == bs[start + k1]);
            assert(body[k2] == bs[start + k2]);
        }
        assert(!illegal(body));
        assert forall|k: int| 0 <= k < dot - start implies body[k] != DOT by {
            assert(body[k] == bs[start + k]);
        }
        lemma_index_from_first(body, DOT, 0, dot - start);
    }
    let ip_len = dot - start;
    let frac_start = if dot < end { dot + 1 } else { end };
    let frac_len = end - frac_start;
    assert(int_part(body) =~= bs.subrange(start as int, dot as int));
    assert(frac_part(body) =~= bs.subrange(frac_start as int, end as int));
    if ip_len > MAXNUM || (frac_len > 0 && frac_len > MAXNUM) {
        return Err(NumberError::TooLarge);
    }
    let neg = ip_len > 0 && b[start] == MINUS;
    let digits_start = if neg { start + 1 } else { start };
    assert(bs.subrange(digits_start as int, dot as int) =~= int_digits(body));
    proof {
        // Past a leading sign, every character before the decimal point is a
        // digit, and so is every one after it.
        assert forall|k: int| 0 <= k < dot - digits_start implies is_digit(#[trigger] int_digits(body)[k]) by {
            let m = digits_start + k;
            assert(int_digits(body)[k] == bs[m]);
            assert(is_number_char(bs[m]));
            assert(m != dot);
        }
        assert forall|k: int| 0 <= k < end - frac_start implies is_digit(#[trigger] frac_part(body)[k]) by {
            let m = frac_start + k;
            assert(frac_part(body)[k] == bs[m]);
            assert(is_number_char(bs[m]));
            assert(m != dot && m != start);
        }
    }
    Ok((neg, digits_start, dot, frac_start, end))
}

/// Spells out the number on a line, as the tool prints it, or says why the
/// line holds no number it can spell.
pub fn convert(line: &str, lflag: bool) -> (res: Result<String, NumberError>)
    ensures
        res matches Ok(s) ==> convert_result(line.spec_bytes(), lflag) == Ok::<Seq<char>, NumberError>(s@),
        res matches Err(e) ==> convert_result(line.spec_bytes(), lflag) == Err::<Seq<char>, NumberError>(e),
{
    let b = line.as_bytes();
    match split_number(b) {
        Err(e) => Err(e),
        Ok((neg, ds, de, fs, fe)) => Ok(spell(neg, &b[ds..de], &b[fs..fe], lflag)),
    }
}

/// The longest line, newline included, that is read from the input.
pub const LINE_MAX: usize = 256;

/// Why a run of numbers ended early, and at which of them.
#[derive(Debug, Clone, Copy, PartialEq, Eq, Structural)]
pub enum NumberStop {
    /// The number at this index was refused.
    Refused(usize, NumberError),
    /// The input line at this index is too long.
    LineTooLong(usize),
}

/// What the tool prints for the numbers from index `i` on, and where it
/// stops, if it does: a separator line between numbers, input lines checked
/// for length first when `check_len` holds.
pub open spec fn run_numbers(lines: Seq<Seq<u8>>, lflag: bool, check_len: bool, i: int) -> (Seq<char>, Option<NumberStop>)
    decreases lines.len() - i,
{
    if i < 0 || i >= lines.len() {
        (Seq::empty(), None)
    } else if check_len && lines[i].len() > LINE_MAX {
        (Seq::empty(), Some(NumberStop::LineTooLong(i as usize)))
    } else {
        let sep = if i > 0 { "...\n"@ } else { Seq::<char>::empty() };
        match convert_result(lines[i], lflag) {
            Err(e) => (sep, Some(NumberStop::Refused(i as usize, e))),
            Ok(w) => {
                let rest = run_numbers(lines, lflag, check_len, i + 1);
                (sep + w + rest.0, rest.1)
            },
        }
    }
}

/// The bytes of each line.
pub open spec fn lines_bytes(lines: Seq<String>) -> Seq<Seq<u8>> {
    lines.map_values(|l: String| vstd::utf8::encode_utf8(l@))
}

/// Spells out a run of numbers as the tool prints them, stopping where the
/// tool stops; see `run_numbers`.
#[verifier::spinoff_prover]
#[verifier::rlimit(30)]
pub fn number_lines(lines: &Vec<String>, lflag: bool, check_len: bool) -> (r: (String, Option<NumberStop>))
    ensures
        (r.0@, r.1) == run_numbers(lines_bytes(lines@), lflag, check_len, 0),
{
    let ghost all = lines_bytes(lines@);
    let mut out = String::new();
    let mut i: usize = 0;
    assert(out@ + run_numbers(all, lflag, check_len, 0).0 =~= run_numbers(all, lflag, check_len, 0).0);
    while i < lines.len()
        invariant
            i <= lines@.len(),
            all == lines_bytes(lines@),
            all.len() == lines@.len(),
            run_numbers(all, lflag, check_len, 0)
                == (out@ + run_numbers(all, lflag, check_len, i as int).0, run_numbers(all, lflag, check_len, i as int).1),
        decreases lines@.len() - i,
    {
        let line = lines[i].as_str();
        assert(line.spec_bytes() == all[i as int]);
        let ghost before = out@;
        if check_len && line.as_bytes().len() > LINE_MAX {
            return (out, Some(NumberStop::LineTooLong(i)));
        }
        if i > 0 {
            out.append("...\n");
        }
        let ghost sep = out@.subrange(before.len() as int, out@.len() as int);
        assert(out@ =~= before + sep);
        assert(sep =~= if i > 0 { "...\n"@ } else { Seq::<char>::empty() });
        match convert(line, lflag) {
            Err(e) => {
                return (out, Some(NumberStop::Refused(i, e)));
            },
            Ok(w) => {
                let ghost rest = run_numbers(all, lflag, check_len, i + 1);
                out.append(w.as_str());
                assert(before + (sep + w@ + rest.0) =~= out@ + rest.0);
            },
        }
        i = i + 1;
    }
    assert(out@ + run_numbers(all, lflag, check_len, i as int).0 =~= out@);
    (out, None)
}

proof fn lemma_group_nonzero(g: Seq<u8>)
    requires
        g.len() <= 3,
        all_digits(g),
    ensures
        number_nonzero(g, g.len() as int) == has_nonzero(g),
{
    if g.len() >= 1 {
        assert(is_digit(g[0]));
    }
    if g.len() >= 2 {
        assert(is_digit(g[1]));
    }
    if g.len() == 3 {
        assert(is_digit(g[2]));
    }
    if has_nonzero(g) {
        let j = choose|j: int| 0 <= j < g.len() && #[trigger] g[j] != ZERO;
        assert(number_nonzero(g, g.len() as int));
    }
}

proof fn lemma_split_nonzero(p: Seq<u8>, k: int)
    requires
        0 <= k <= p.len(),
    ensures
        has_nonzero(p) == (has_nonzero(p.take(k)) || has_nonzero(p.skip(k))),
        all_digits(p) ==> all_digits(p.take(k)) && all_digits(p.skip(k)),
{
    if has_nonzero(p) {
        let j = choose|j: int| 0 <= j < p.len() && #[trigger] p[j] != ZERO;
        if j < k {
            assert(p.take(k)[j] != ZERO);
        } else {
            assert(p.skip(k)[j - k] != ZERO);
        }
    }
    if has_nonzero(p.take(k)) {
        let j = choose|j: int| 0 <= j < k && #[trigger] p.take(k)[j] != ZERO;
        assert(p[j] != ZERO);
    }
    if has_nonzero(p.skip(k)) {
        let j = choose|j: int| 0 <= j < p.len() - k && #[trigger] p.skip(k)[j] != ZERO;
        assert(p[j + k] != ZERO);
    }
    if all_digits(p) {
        assert forall|i: int| 0 <= i < k implies #[trigger] is_digit(p.take(k)[i]) by {
            assert(p.take(k)[i] == p[i]);
        }
        assert forall|i: int| 0 <= i < p.len() - k implies #[trigger] is_digit(p.skip(k)[i]) by {
            assert(p.skip(k)[i] == p[i + k]);
        }
    }
}

proof fn lemma_triples_nonzero(q: Seq<u8>)
    requires
        all_digits(q),
    ensures
        triples_nonzero(q) == has_nonzero(q),
    decreases q.len(),
{
    if q.len() <= 3 {
        lemma_group_nonzero(q);
    } else {
        lemma_split_nonzero(q, 3);
        lemma_group_nonzero(q.take(3));
        lemma_triples_nonzero(q.skip(3));
    }
}

/// A run of digits is spelled with at least one word exactly when one of its
/// digits is not zero.
pub proof fn lemma_unit_says_something(p: Seq<u8>)
    requires
        all_digits(p),
    ensures
        unit_nonzero(p) == has_nonzero(p),
{
    reveal(unit_nonzero);
    if p.len() > 3 && p.len() % 3 != 0 {
        let k = (p.len() % 3) as int;
        lemma_split_nonzero(p, k);
        lemma_group_nonzero(p.take(k));
        lemma_triples_nonzero(p.skip(k));
    } else {
        lemma_triples_nonzero(p);
    }
}

/// A number is spelled "zero" exactly when none of its digits, before or
/// after the decimal point, is other than zero.
pub proof fn lemma_zero_exactly_when_all_zero(digits: Seq<u8>, frac: Seq<u8>, lflag: bool)
    requires
        all_digits(digits),
        all_digits(frac),
    ensures
        zero_words(digits, frac, lflag) == (if !has_nonzero(digits) && !has_nonzero(frac) {
            "zero"@ + (if lflag { Seq::<char>::empty() } else { ".\n"@ })
        } else {
            Seq::<char>::empty()
        }),
{
    lemma_unit_says_something(digits);
    lemma_unit_says_something(frac);
}

proof fn lemma_index_from_shift(c: u8, s: Seq<u8>, x: u8, k: int)
    requires
        0 <= k <= s.len(),
    ensures
        index_from(seq![c] + s, x, k + 1) == 1 + index_from(s, x, k),
    decreases s.len() - k,
{
    let t = seq![c] + s;
    if k < s.len() {
        assert(t[k + 1] == s[k]);
        if s[k] != x {
            lemma_index_from_shift(c, s, x, k + 1);
        }
    }
}

/// A plain number: decimal digits and decimal points only.
pub open spec fn plain_number(s: Seq<u8>) -> bool {
    forall|i: int| 0 <= i < s.len() ==> is_digit(#[trigger] s[i]) || s[i] == DOT
}

/// A line made only of characters that may stand in a number is all number.
pub proof fn lemma_number_chars_whole(s: Seq<u8>)
    requires
        forall|i: int| 0 <= i < s.len() ==> is_number_char(#[trigger] s[i]),
    ensures
        number_chars(s) == s,
{
    assert forall|k: int| 0 <= k < s.len() implies s[k] != NEWLINE by {
        assert(is_number_char(s[k]));
    }
    lemma_index_from_first(s, NEWLINE, 0, s.len() as int);
    if s.len() > 0 {
        assert(is_number_char(s[0]));
    }
    assert(s.subrange(0, s.len() as int) =~= s);
}

proof fn lemma_plain_body(s: Seq<u8>)
    requires
        plain_number(s),
    ensures
        number_chars(s) == s,
{
    assert forall|i: int| 0 <= i < s.len() implies is_number_char(#[trigger] s[i]) by {
        assert(is_digit(s[i]) || s[i] == DOT);
    }
    lemma_number_chars_whole(s);
}

/// A minus sign in front of a plain number puts "minus" in front of its
/// spelling, as long as the sign still fits before the decimal point.
pub proof fn lemma_minus_prefix(s: Seq<u8>, lflag: bool)
    requires
        plain_number(s),
        int_part(s).len() < MAXNUM,
    ensures
        convert_result(seq![MINUS] + s, lflag) == match convert_result(s, lflag) {
            Ok(w) => Ok(minus_words(true, lflag) + w),
            Err(e) => Err(e),
        },
{
    let t = seq![MINUS] + s;
    lemma_plain_body(s);
    // The signed line holds no newline and starts with its sign.
    assert forall|k: int| 0 <= k < t.len() implies t[k] != NEWLINE by {
        if k > 0 {
            assert(t[k] == s[k - 1]);
            assert(is_digit(s[k - 1]) || s[k - 1] == DOT);
        }
    }
    lemma_index_from_first(t, NEWLINE, 0, t.len() as int);
    assert(t.subrange(0, t.len() as int) =~= t);
    assert(number_chars(t) == t);
    // Both hold the same decimal points, one place apart.
    lemma_index_from_shift(MINUS, s, DOT, 0);
    let d = index_from(s, DOT, 0);
    lemma_index_from_range(s, DOT, 0);
    assert(index_from(t, DOT, 0) == index_from(t, DOT, 1));
    assert(int_part(t) =~= seq![MINUS] + int_part(s));
    assert(frac_part(t) =~= frac_part(s));
    assert(is_negative(t));
    assert(int_digits(t) =~= int_part(s));
    if int_part(s).len() > 0 {
        assert(is_digit(s[0]) || s[0] == DOT);
    }
    assert(!is_negative(s));
    // Neither holds a stray character or a misplaced minus sign.
    assert forall|j: int| 0 <= j < s.len() implies is_number_char(#[trigger] s[j]) && s[j] != MINUS by {
        assert(is_digit(s[j]) || s[j] == DOT);
    }
    assert forall|j: int| 0 <= j < t.len() implies is_number_char(#[trigger] t[j]) by {
        if j > 0 {
            assert(t[j] == s[j - 1]);
        }
    }
    assert(!(exists|j: int| 0 <= j < s.len() && !is_number_char(#[trigger] s[j])));
    assert(!(exists|j: int| 0 <= j < t.len() && !is_number_char(#[trigger] t[j])));
    assert(!(exists|j: int| 0 <= j < s.len() && #[trigger] s[j] == MINUS && s[0] != MINUS));
    assert(!(exists|j: int| 0 <= j < t.len() && #[trigger] t[j] == MINUS && t[0] != MINUS));
    // Two decimal points in one are two in the other.
    if exists|j: int, k: int| 0 <= j < k < s.len() && #[trigger] s[j] == DOT && #[trigger] s[k] == DOT {
        let (j, k) = choose|j: int, k: int| 0 <= j < k < s.len() && #[trigger] s[j] == DOT && #[trigger] s[k] == DOT;
        assert(t[j + 1] == DOT && t[k + 1] == DOT);
    }
    if exists|j: int, k: int| 0 <= j < k < t.len() && #[trigger] t[j] == DOT && #[trigger] t[k] == DOT {
        let (j, k) = choose|j: int, k: int| 0 <= j < k < t.len() && #[trigger] t[j] == DOT && #[trigger] t[k] == DOT;
        assert(j >= 1);
        assert(s[j - 1] == DOT && s[k - 1] == DOT);
    }
    assert(illegal(t) == illegal(s));
    assert(too_large(t) == too_large(s));
    let ds = int_part(s);
    let fr = frac_part(s);
    let m = minus_words(true, lflag);
    let rest = int_words(ds, lflag) + frac_words(ds, fr, lflag) + zero_words(ds, fr, lflag)
        + (if lflag { "\n"@ } else { Seq::<char>::empty() });
    assert(spell_words(false, ds, fr, lflag) =~= rest);
    assert(spell_words(true, ds, fr, lflag) =~= m + rest);
}

/// A space or a tab.
pub open spec fn is_blank(c: u8) -> bool {
    c == SPACE || c == TAB
}

/// Skipping blanks ends where it started, past the blanks, and no later than
/// the end.
proof fn lemma_skip_blanks_range(b: Seq<u8>, i: int, end: int)
    requires
        0 <= i <= end <= b.len(),
    ensures
        i <= skip_blanks(b, i, end) <= end,
    decreases end - i,
{
    if i < end && (b[i] == SPACE || b[i] == TAB) {
        lemma_skip_blanks_range(b, i + 1, end);
    }
}

/// Blanks in front of a place are skipped to reach it.
proof fn lemma_skip_blanks_over(b: Seq<u8>, i: int, n: int, end: int)
    requires
        0 <= i <= n <= end <= b.len(),
        forall|k: int| i <= k < n ==> is_blank(#[trigger] b[k]),
    ensures
        skip_blanks(b, i, end) == skip_blanks(b, n, end),
    decreases n - i,
{
    if i < n {
        assert(is_blank(b[i]));
        lemma_skip_blanks_over(b, i + 1, n, end);
    }
}

/// Skipping blanks in a line that stands inside a longer one.
proof fn lemma_skip_blanks_inside(pre: Seq<u8>, s: Seq<u8>, post: Seq<u8>, j: int)
    requires
        0 <= j <= s.len(),
    ensures
        skip_blanks(pre + s + post, pre.len() + j, (pre.len() + s.len()) as int)
            == pre.len() + skip_blanks(s, j, s.len() as int),
    decreases s.len() - j,
{
    let t = pre + s + post;
    if j < s.len() {
        assert(t[pre.len() + j] == s[j]);
        lemma_skip_blanks_inside(pre, s, post, j + 1);
    }
}

/// Leading spaces and tabs, and everything from the first newline on, do not
/// change which characters of a line make up its number.
pub proof fn lemma_number_chars_of_padded(b: Seq<u8>, s: Seq<u8>, tail: Seq<u8>)
    requires
        forall|k: int| 0 <= k < b.len() ==> is_blank(#[trigger] b[k]),
        forall|k: int| 0 <= k < s.len() ==> #[trigger] s[k] != NEWLINE,
        tail.len() == 0 || tail[0] == NEWLINE,
    ensures
        number_chars(b + s + tail) == number_chars(s),
{
    let t = b + s + tail;
    let e = (b.len() + s.len()) as int;
    assert forall|k: int| 0 <= k < e implies t[k] != NEWLINE by {
        if k < b.len() {
            assert(t[k] == b[k]);
            assert(is_blank(b[k]));
        } else {
            assert(t[k] == s[k - b.len()]);
        }
    }
    if e < t.len() {
        assert(t[e] == tail[0]);
    }
    lemma_index_from_first(t, NEWLINE, 0, e);
    lemma_index_from_first(s, NEWLINE, 0, s.len() as int);
    assert forall|k: int| 0 <= k < b.len() implies is_blank(#[trigger] t[k]) by {
        assert(t[k] == b[k]);
    }
    lemma_skip_blanks_over(t, 0, b.len() as int, e);
    lemma_skip_blanks_inside(b, s, tail, 0);
    lemma_skip_blanks_range(s, 0, s.len() as int);
    let k = skip_blanks(s, 0, s.len() as int);
    assert(body_start(t) == b.len() + k);
    assert(body_end(t) == e);
    assert(t.subrange(b.len() + k, e) =~= s.subrange(k, s.len() as int));
}

/// Leading spaces and tabs, and everything from the first newline on, leave
/// what the tool prints for a line, or why it refuses it, unchanged.
pub proof fn lemma_padding_ignored(b: Seq<u8>, s: Seq<u8>, tail: Seq<u8>, lflag: bool)
    requires
        forall|k: int| 0 <= k < b.len() ==> is_blank(#[trigger] b[k]),
        forall|k: int| 0 <= k < s.len() ==> #[trigger] s[k] != NEWLINE,
        tail.len() == 0 || tail[0] == NEWLINE,
    ensures
        convert_result(b + s + tail, lflag) == convert_result(s, lflag),
{
    lemma_number_chars_of_padded(b, s, tail);
}

/// Decimal digits, with perhaps a minus sign in front.
pub open spec fn signed_digits(i: Seq<u8>) -> bool {
    forall|k: int| 0 <= k < i.len() ==> is_digit(#[trigger] i[k]) || (k == 0 && i[k] == MINUS)
}

/// A run of digits with no digit other than zero is spelled with no word.
proof fn lemma_triples_words_silent(q: Seq<u8>, lflag: bool)
    requires
        all_digits(q),
        !has_nonzero(q),
    ensures
        triples_words(q, lflag) == Seq::<char>::empty(),
    decreases q.len(),
{
    if q.len() <= 3 {
        lemma_group_nonzero(q);
    } else {
        lemma_split_nonzero(q, 3);
        lemma_group_nonzero(q.take(3));
        lemma_triples_words_silent(q.skip(3), lflag);
        assert(triples_words(q, lflag) =~= Seq::<char>::empty());
    }
}

/// Digits that are all zero are spelled with no word at all.
pub proof fn lemma_unit_words_silent(p: Seq<u8>, lflag: bool)
    requires
        all_digits(p),
        !has_nonzero(p),
    ensures
        unit_words(p, lflag) == Seq::<char>::empty(),
{
    reveal(unit_words);
    if p.len() > 3 && p.len() % 3 != 0 {
        let k = (p.len() % 3) as int;
        lemma_split_nonzero(p, k);
        lemma_group_nonzero(p.take(k));
        lemma_triples_words_silent(p.skip(k), lflag);
        assert(unit_words(p, lflag) =~= Seq::<char>::empty());
    } else {
        lemma_triples_words_silent(p, lflag);
    }
}

/// How a line made of signed digits, a decimal point and digits splits up:
/// it is all number, is legal, and its parts are the pieces it was made of.
proof fn lemma_decimal_parts(i: Seq<u8>, f: Seq<u8>)
    requires
        signed_digits(i),
        all_digits(f),
    ensures
        number_chars(i + seq![DOT] + f) == i + seq![DOT] + f,
        number_chars(i) == i,
        !illegal(i + seq![DOT] + f),
        !illegal(i),
        int_part(i + seq![DOT] + f) == i,
        int_part(i) == i,
        frac_part(i + seq![DOT] + f) == f,
        frac_part(i) == Seq::<u8>::empty(),
{
    let t = i + seq![DOT] + f;
    let n = i.len() as int;
    assert forall|k: int| 0 <= k < n implies is_number_char(#[trigger] i[k]) && i[k] != DOT by {
        assert(is_digit(i[k]) || (k == 0 && i[k] == MINUS));
    }
    assert forall|k: int| 0 <= k < t.len() implies is_number_char(#[trigger] t[k])
        && (t[k] == DOT <==> k == n) && (t[k] == MINUS ==> k == 0) by {
        if k < n {
            assert(t[k] == i[k]);
            assert(is_digit(i[k]) || (k == 0 && i[k] == MINUS));
        } else if k > n {
            assert(t[k] == f[k - n - 1]);
            assert(is_digit(f[k - n - 1]));
        }
    }
    lemma_number_chars_whole(t);
    lemma_number_chars_whole(i);
    assert forall|k: int| 0 <= k < n implies t[k] != DOT by {
        assert(t[k] == i[k]);
    }
    lemma_index_from_first(t, DOT, 0, n);
    lemma_index_from_first(i, DOT, 0, n);
    assert(int_part(t) =~= i);
    assert(int_part(i) =~= i);
    assert(frac_part(t) =~= f);
    assert(!(exists|j: int| 0 <= j < t.len() && !is_number_char(#[trigger] t[j])));
    assert(!(exists|j: int| 0 <= j < t.len() && #[trigger] t[j] == MINUS && t[0] != MINUS));
    assert(!(exists|j: int, k: int| 0 <= j < k < t.len() && #[trigger] t[j] == DOT && #[trigger] t[k] == DOT));
    assert forall|k: int| 0 <= k < n && i[k] == MINUS implies k == 0 by {
        assert(is_digit(i[k]) || (k == 0 && i[k] == MINUS));
    }
    assert(!(exists|j: int| 0 <= j < i.len() && !is_number_char(#[trigger] i[j])));
    assert(!(exists|j: int| 0 <= j < i.len() && #[trigger] i[j] == MINUS && i[0] != MINUS));
    assert(!(exists|j: int, k: int| 0 <= j < k < i.len() && #[trigger] i[j] == DOT && #[trigger] i[k] == DOT));
}

/// A fraction of zeros only, or an empty one, changes nothing that the tool
/// prints: neither "and" nor the name of a fraction appears.
pub proof fn lemma_zero_fraction_ignored(i: Seq<u8>, z: Seq<u8>, lflag: bool)
    requires
        signed_digits(i),
        i.len() <= MAXNUM,
        forall|k: int| 0 <= k < z.len() ==> #[trigger] z[k] == ZERO,
        z.len() <= MAXNUM,
    ensures
        convert_result(i + seq![DOT] + z, lflag) == convert_result(i, lflag),
{
    assert forall|k: int| 0 <= k < z.len() implies is_digit(#[trigger] z[k]) by {
        assert(z[k] == ZERO);
    }
    lemma_decimal_parts(i, z);
    let t = i + seq![DOT] + z;
    assert(!has_nonzero(z));
    assert(!has_nonzero(Seq::<u8>::empty()));
    assert(int_digits(t) == int_digits(i));
    assert(is_negative(t) == is_negative(i));
}

/// With a fraction that has a digit other than zero, a number is spelled as
/// its integer part, "and" when that part says anything, the fraction's digits
/// as a number of their own, and the name of the fraction.
pub proof fn lemma_fraction_spelling(i: Seq<u8>, f: Seq<u8>)
    requires
        all_digits(i),
        i.len() <= MAXNUM,
        all_digits(f),
        has_nonzero(f),
        f.len() <= MAXNUM,
    ensures
        convert_result(i, false) is Ok,
        convert_result(f, false) is Ok,
        convert_result(i + seq![DOT] + f, false) == Ok::<Seq<char>, NumberError>(
            (if has_nonzero(i) { convert_result(i, false)->Ok_0 + "and.\n"@ } else { Seq::<char>::empty() })
                + convert_result(f, false)->Ok_0 + fraction_name(f.len() as int)),
{
    let t = i + seq![DOT] + f;
    let e = Seq::<u8>::empty();
    lemma_decimal_parts(i, f);
    lemma_decimal_parts(f, e);
    assert(f + seq![DOT] + e =~= f + seq![DOT]);
    assert(f + seq![DOT] =~= f.push(DOT));
    // The fraction on its own: a line of digits with no decimal point.
    lemma_digit_line(f);
    // The integer part carries no sign.
    if i.len() > 0 {
        assert(is_digit(i[0]));
    }
    assert(!is_negative(t));
    assert(!is_negative(i));
    assert(int_digits(t) == i);
    assert(int_digits(i) == i);
    assert(!has_nonzero(e));
    lemma_unit_says_something(i);
    lemma_unit_says_something(f);
    reveal_strlit("and");
    reveal_strlit(".\n");
    reveal_strlit("and.\n");
    let wf = unit_words(f, false);
    let nm = fraction_name(f.len() as int);
    assert(convert_result(f, false) == Ok::<Seq<char>, NumberError>(spell_words(false, f, e, false)));
    assert(spell_words(false, f, e, false) =~= wf);
    assert(frac_words(i, f, false) =~= (if has_nonzero(i) { "and"@ + ".\n"@ } else { Seq::<char>::empty() }) + wf + nm);
    if has_nonzero(i) {
        let wi = unit_words(i, false);
        assert(spell_words(false, i, e, false) =~= wi);
        assert(spell_words(false, i, f, false) =~= wi + "and.\n"@ + wf + nm);
    } else {
        if i.len() > 0 {
            lemma_unit_words_silent(i, false);
        }
        assert(int_words(i, false) =~= Seq::<char>::empty());
        assert(spell_words(false, i, f, false) =~= wf + nm);
    }
}

/// Each group of digits is named by its own power of one thousand: in a run
/// made of a leading group `g` of one to three digits and then `3 * k` more
/// digits, the leading group is spelled, when it says anything, followed by
/// `name3(k)` ("thousand" for one group after it, "million" for two, and so
/// on), and the rest is spelled as the run it is on its own.
pub proof fn lemma_group_named_by_its_power(g: Seq<u8>, r: Seq<u8>, k: int, lflag: bool)
    requires
        1 <= g.len() <= 3,
        all_digits(g),
        all_digits(r),
        k >= 1,
        r.len() == 3 * k,
    ensures
        unit_words(g + r, lflag) == (if has_nonzero(g) {
            number_words(g, g.len() as int) + " "@ + name3(k) + sep(lflag)
        } else {
            Seq::<char>::empty()
        }) + unit_words(r, lflag),
{
    reveal(unit_words);
    let p = g + r;
    let n = g.len() as int;
    lemma_group_nonzero(g);
    vstd::arithmetic::div_mod::lemma_fundamental_div_mod_converse(r.len() as int, 3, k, 0);
    assert(p.take(n) =~= g);
    assert(p.skip(n) =~= r);
    if n == 3 {
        assert(p.len() == 3 * k + 3);
        assert(p.len() % 3 == 0) by {
            vstd::arithmetic::div_mod::lemma_fundamental_div_mod_converse(p.len() as int, 3, k + 1, 0);
        }
        assert(p.take(3) =~= g);
        assert(p.skip(3) =~= r);
        assert((p.len() - 3) / 3 == k);
    } else {
        vstd::arithmetic::div_mod::lemma_fundamental_div_mod_converse(p.len() as int, 3, k, n);
        assert((p.len() - n) / 3 == k);
    }
}

/// The name of a fraction with `n` decimal places names ten to the `n`: tenths
/// and hundredths for one and two places, and from three places on the power
/// of one thousand that `n` holds whole, scaled by "ten-" when one place is
/// left over and by "hundred-" when two are.
pub proof fn lemma_fraction_name_scales(n: int)
    requires
        1 <= n <= MAXNUM,
    ensures
        fraction_name(n) == if n == 1 {
            "tenths.\n"@
        } else if n == 2 {
            "hundredths.\n"@
        } else if n % 3 == 1 {
            "ten-"@ + name3(n / 3) + "ths.\n"@
        } else if n % 3 == 2 {
            "hundred-"@ + name3(n / 3) + "ths.\n"@
        } else {
            name3(n / 3) + "ths.\n"@
        },
{
    reveal(fraction_name);
    reveal_strlit("");
    assert(""@ + name3(n / 3) =~= name3(n / 3));
}

/// Every name of a power of one thousand is a word of lower-case letters of
/// at least seven of them, so no hyphen occurs in it.
proof fn lemma_name3_shape(i: int)
    requires
        0 <= i <= 21,
    ensures
        name3(i).len() >= 7,
        forall|j: int| 0 <= j < name3(i).len() ==> 'a' <= #[trigger] name3(i)[j] <= 'z',
{
    reveal_strlit("hundred");
    reveal_strlit("thousand");
    reveal_strlit("million");
    reveal_strlit("billion");
    reveal_strlit("trillion");
    reveal_strlit("quadrillion");
    reveal_strlit("quintillion");
    reveal_strlit("sextillion");
    reveal_strlit("septillion");
    reveal_strlit("octillion");
    reveal_strlit("nonillion");
    reveal_strlit("decillion");
    reveal_strlit("undecillion");
    reveal_strlit("duodecillion");
    reveal_strlit("tredecillion");
    reveal_strlit("quattuordecillion");
    reveal_strlit("quindecillion");
    reveal_strlit("sexdecillion");
    reveal_strlit("septendecillion");
    reveal_strlit("octodecillion");
    reveal_strlit("novemdecillion");
    reveal_strlit("vigintillion");
}

/// Different powers of one thousand have different names.
proof fn lemma_name3_distinct(i: int, j: int)
    requires
        0 <= i <= 21,
        0 <= j <= 21,
        i != j,
    ensures
        name3(i) != name3(j),
{
    reveal_strlit("hundred");
    reveal_strlit("thousand");
    reveal_strlit("million");
    reveal_strlit("billion");
    reveal_strlit("trillion");
    reveal_strlit("quadrillion");
    reveal_strlit("quintillion");
    reveal_strlit("sextillion");
    reveal_strlit("septillion");
    reveal_strlit("octillion");
    reveal_strlit("nonillion");
    reveal_strlit("decillion");
    reveal_strlit("undecillion");
    reveal_strlit("duodecillion");
    reveal_strlit("tredecillion");
    reveal_strlit("quattuordecillion");
    reveal_strlit("quindecillion");
    reveal_strlit("sexdecillion");
    reveal_strlit("septendecillion");
    reveal_strlit("octodecillion");
    reveal_strlit("novemdecillion");
    reveal_strlit("vigintillion");
    if i == 0 && name3(i) == name3(j) {
        assert(name3(j).len() == name3(0).len());
        assert(name3(j)[0] == name3(0)[0] && name3(j)[1] == name3(0)[1] && name3(j)[2] == name3(0)[2]);
    }
    if i == 1 && name3(i) == name3(j) {
        assert(name3(j).len() == name3(1).len());
        assert(name3(j)[0] == name3(1)[0] && name3(j)[1] == name3(1)[1] && name3(j)[2] == name3(1)[2]);
    }
    if i == 2 && name3(i) == name3(j) {
        assert(name3(j).len() == name3(2).len());
        assert(name3(j)[0] == name3(2)[0] && name3(j)[1] == name3(2)[1] && name3(j)[2] == name3(2)[2]);
    }
    if i == 3 && name3(i) == name3(j) {
        assert(name3(j).len() == name3(3).len());
        assert(name3(j)[0] == name3(3)[0] && name3(j)[1] == name3(3)[1] && name3(j)[2] == name3(3)[2]);
    }
    if i == 4 && name3(i) == name3(j) {
        assert(name3(j).len() == name3(4).len());
        assert(name3(j)[0] == name3(4)[0] && name3(j)[1] == name3(4)[1] && name3(j)[2] == name3(4)[2]);
    }
    if i == 5 && name3(i) == name3(j) {
        assert(name3(j).len() == name3(5).len());
        assert(name3(j)[0] == name3(5)[0] && name3(j)[1] == name3(5)[1] && name3(j)[2] == name3(5)[2]);
    }
    if i == 6 && name3(i) == name3(j) {
        assert(name3(j).len() == name3(6).len());
        assert(name3(j)[0] == name3(6)[0] && name3(j)[1] == name3(6)[1] && name3(j)[2] == name3(6)[2]);
    }
    if i == 7 && name3(i) == name3(j) {
        assert(name3(j).len() == name3(7).len());
        assert(name3(j)[0] == name3(7)[0] && name3(j)[1] == name3(7)[1] && name3(j)[2] == name3(7)[2]);
    }
    if i == 8 && name3(i) == name3(j) {
        assert(name3(j).len() == name3(8).len());
        assert(name3(j)[0] == name3(8)[0] && name3(j)[1] == name3(8)[1] && name3(j)[2] == name3(8)[2]);
    }
    if i == 9 && name3(i) == name3(j) {
        assert(name3(j).len() == name3(9).len());
        assert(name3(j)[0] == name3(9)[0] && name3(j)[1] == name3(9)[1] && name3(j)[2] == name3(9)[2]);
    }
    if i == 10 && name3(i) == name3(j) {
        assert(name3(j).len() == name3(10).len());
        assert(name3(j)[0] == name3(10)[0] && name3(j)[1] == name3(10)[1] && name3(j)[2] == name3(10)[2]);
    }
    if i == 11 && name3(i) == name3(j) {
        assert(name3(j).len() == name3(11).len());
        assert(name3(j)[0] == name3(11)[0] && name3(j)[1] == name3(11)[1] && name3(j)[2] == name3(11)[2]);
    }
    if i == 12 && name3(i) == name3(j) {
        assert(name3(j).len() == name3(12).len());
        assert(name3(j)[0] == name3(12)[0] && name3(j)[1] == name3(12)[1] && name3(j)[2] == name3(12)[2]);
    }
    if i == 13 && name3(i) == name3(j) {
        assert(name3(j).len() == name3(13).len());
        assert(name3(j)[0] == name3(13)[0] && name3(j)[1] == name3(13)[1] && name3(j)[2] == name3(13)[2]);
    }
    if i == 14 && name3(i) == name3(j) {
        assert(name3(j).len() == name3(14).len());
        assert(name3(j)[0] == name3(14)[0] && name3(j)[1] == name3(14)[1] && name3(j)[2] == name3(14)[2]);
    }
    if i == 15 && name3(i) == name3(j) {
        assert(name3(j).len() == name3(15).len());
        assert(name3(j)[0] == name3(15)[0] && name3(j)[1] == name3(15)[1] && name3(j)[2] == name3(15)[2]);
    }
    if i == 16 && name3(i) == name3(j) {
        assert(name3(j).len() == name3(16).len());
        assert(name3(j)[0] == name3(16)[0] && name3(j)[1] == name3(16)[1] && name3(j)[2] == name3(16)[2]);
    }
    if i == 17 && name3(i) == name3(j) {
        assert(name3(j).len() == name3(17).len());
        assert(name3(j)[0] == name3(17)[0] && name3(j)[1] == name3(17)[1] && name3(j)[2] == name3(17)[2]);
    }
    if i == 18 && name3(i) == name3(j) {
        assert(name3(j).len() == name3(18).len());
        assert(name3(j)[0] == name3(18)[0] && name3(j)[1] == name3(18)[1] && name3(j)[2] == name3(18)[2]);
    }
    if i == 19 && name3(i) == name3(j) {
        assert(name3(j).len() == name3(19).len());
        assert(name3(j)[0] == name3(19)[0] && name3(j)[1] == name3(19)[1] && name3(j)[2] == name3(19)[2]);
    }
    if i == 20 && name3(i) == name3(j) {
        assert(name3(j).len() == name3(20).len());
        assert(name3(j)[0] == name3(20)[0] && name3(j)[1] == name3(20)[1] && name3(j)[2] == name3(20)[2]);
    }
    if i == 21 && name3(i) == name3(j) {
        assert(name3(j).len() == name3(21).len());
        assert(name3(j)[0] == name3(21)[0] && name3(j)[1] == name3(21)[1] && name3(j)[2] == name3(21)[2]);
    }
}

/// What scales the power in the name of a fraction with `n` places.
spec fn frac_prefix(n: int) -> Seq<char> {
    if n <= 2 || n % 3 == 0 { ""@ } else if n % 3 == 1 { "ten-"@ } else { "hundred-"@ }
}

/// The power named in the name of a fraction with `n` places.
spec fn frac_power(n: int) -> Seq<char> {
    if n == 1 { "ten"@ } else if n == 2 { name3(0) } else { name3(n / 3) }
}

proof fn lemma_fraction_name_parts(n: int)
    requires
        1 <= n <= MAXNUM,
    ensures
        fraction_name(n) == frac_prefix(n) + frac_power(n) + "ths.\n"@,
        frac_power(n).len() == 3 || frac_power(n).len() >= 7,
        frac_power(n).len() == 3 <==> n == 1,
        forall|j: int| 0 <= j < frac_power(n).len() ==> 'a' <= #[trigger] frac_power(n)[j] <= 'z',
{
    lemma_fraction_name_scales(n);
    reveal_strlit("");
    reveal_strlit("ten");
    reveal_strlit("hundred");
    reveal_strlit("ths.\n");
    reveal_strlit("tenths.\n");
    reveal_strlit("hundredths.\n");
    if n == 1 {
        assert("tenths.\n"@ =~= ""@ + "ten"@ + "ths.\n"@);
    } else if n == 2 {
        lemma_name3_shape(0);
        assert("hundredths.\n"@ =~= ""@ + name3(0) + "ths.\n"@);
    } else {
        lemma_name3_shape(n / 3);
        if n % 3 == 0 {
            assert(name3(n / 3) + "ths.\n"@ =~= ""@ + name3(n / 3) + "ths.\n"@);
        }
    }
}

/// Different numbers of decimal places give fractions different names: the
/// name says which power of ten the denominator is.
pub proof fn lemma_fraction_names_differ(n1: int, n2: int)
    requires
        1 <= n1 <= MAXNUM,
        1 <= n2 <= MAXNUM,
        n1 != n2,
    ensures
        fraction_name(n1) != fraction_name(n2),
{
    lemma_fraction_name_parts(n1);
    lemma_fraction_name_parts(n2);
    reveal_strlit("");
    reveal_strlit("ten-");
    reveal_strlit("hundred-");
    reveal_strlit("ths.\n");
    let p1 = frac_prefix(n1);
    let p2 = frac_prefix(n2);
    let w1 = frac_power(n1);
    let w2 = frac_power(n2);
    let x1 = p1 + w1;
    let x2 = p2 + w2;
    if fraction_name(n1) == fraction_name(n2) {
        let f = fraction_name(n1);
        assert(x1 =~= f.take(f.len() - 5));
        assert(x2 =~= f.take(f.len() - 5));
        assert(x1 == x2);
        // The prefix can be read off: a hyphen at index 3 or 7, or neither.
        if p1 != p2 {
            if p1 == "ten-"@ {
                assert(x1[3] == '-');
                if p2 == "hundred-"@ {
                    assert(x2[3] == 'd');
                } else {
                    assert(x2[3] == w2[3]);
                }
            } else if p1 == "hundred-"@ {
                assert(x1[7] == '-');
                if p2 == "ten-"@ {
                    assert(x2[7] == w2[3]);
                } else {
                    assert(x2[7] == w2[7]);
                }
            } else {
                if p2 == "ten-"@ {
                    assert(x2[3] == '-');
                    assert(x1[3] == w1[3]);
                } else {
                    assert(x2[7] == '-');
                    assert(x1[7] == w1[7]);
                }
            }
        }
        assert(w1 =~= x1.skip(p1.len() as int));
        assert(w2 =~= x2.skip(p2.len() as int));
        assert(w1 == w2);
        // The power can be read off too, and with the prefix it gives the
        // number of places.
        if n1 == 1 || n2 == 1 {
        } else {
            let k1 = if n1 == 2 { 0 } else { n1 / 3 };
            let k2 = if n2 == 2 { 0 } else { n2 / 3 };
            if k1 != k2 {
                lemma_name3_distinct(k1, k2);
            }
            assert(k1 == k2);
        }
    }
}

/// A line of decimal digits alone is all number, legal, unsigned, and all
/// integer part.
proof fn lemma_digit_line(f: Seq<u8>)
    requires
        all_digits(f),
    ensures
        number_chars(f) == f,
        !illegal(f),
        int_part(f) == f,
        frac_part(f) == Seq::<u8>::empty(),
        !is_negative(f),
        int_digits(f) == f,
{
    assert forall|k: int| 0 <= k < f.len() implies is_number_char(#[trigger] f[k]) && f[k] != DOT && f[k] != MINUS by {
        assert(is_digit(f[k]));
    }
    lemma_number_chars_whole(f);
    lemma_index_from_first(f, DOT, 0, f.len() as int);
    assert(int_part(f) =~= f);
    assert(frac_part(f) =~= Seq::<u8>::empty());
    assert(!(exists|j: int| 0 <= j < f.len() && !is_number_char(#[trigger] f[j])));
    assert(!(exists|j: int| 0 < j < f.len() && #[trigger] f[j] == MINUS));
    assert(!(exists|j: int, k: int| 0 <= j < k < f.len() && #[trigger] f[j] == DOT && #[trigger] f[k] == DOT));
    if f.len() > 0 {
        assert(is_digit(f[0]));
    }
}

/// A zero in front of one or two digits changes neither their words nor
/// whether they say anything.
proof fn lemma_zero_front_group(g: Seq<u8>)
    requires
        g.len() <= 2,
        all_digits(g),
    ensures
        number_words(seq![ZERO] + g, (g.len() + 1) as int) == number_words(g, g.len() as int),
        has_nonzero(seq![ZERO] + g) == has_nonzero(g),
{
    let z = seq![ZERO] + g;
    reveal_strlit("");
    if g.len() >= 1 {
        assert(is_digit(g[0]));
        assert(z[1] == g[0]);
    }
    if g.len() == 2 {
        assert(is_digit(g[1]));
        assert(z[2] == g[1]);
        if low_pair(z) != 0 {
            assert(number_words(z, 3) =~= tens_words(low_pair(z)));
        }
    }
    if has_nonzero(z) {
        let j = choose|j: int| 0 <= j < z.len() && #[trigger] z[j] != ZERO;
        assert(g[j - 1] != ZERO);
    }
    if has_nonzero(g) {
        let j = choose|j: int| 0 <= j < g.len() && #[trigger] g[j] != ZERO;
        assert(z[j + 1] != ZERO);
    }
}

/// A leading zero changes nothing in the words for a run of digits: however
/// the groups of three shift, the same words come out.
pub proof fn lemma_leading_zero_unit(p: Seq<u8>, lflag: bool)
    requires
        all_digits(p),
    ensures
        unit_words(seq![ZERO] + p, lflag) == unit_words(p, lflag),
{
    let zp = seq![ZERO] + p;
    assert(all_digits(zp)) by {
        assert forall|i: int| 0 <= i < zp.len() implies #[trigger] is_digit(zp[i]) by {
            if i > 0 {
                assert(zp[i] == p[i - 1]);
            }
        }
    }
    let z1 = seq![ZERO];
    assert(all_digits(z1));
    assert(!has_nonzero(z1));
    let n: int = if p.len() % 3 == 0 { 3 } else { (p.len() % 3) as int };
    if p.len() <= 2 {
        reveal(unit_words);
        lemma_zero_front_group(p);
        lemma_group_nonzero(p);
        lemma_group_nonzero(zp);
        assert(zp =~= seq![ZERO] + p);
    } else if n == 3 {
        let k: int = p.len() as int / 3;
        vstd::arithmetic::div_mod::lemma_fundamental_div_mod(p.len() as int, 3);
        lemma_group_named_by_its_power(z1, p, k, lflag);
        assert(z1 + p =~= zp);
        assert(Seq::<char>::empty() + unit_words(p, lflag) =~= unit_words(p, lflag));
    } else {
        let g = p.take(n);
        let r = p.skip(n);
        let k = (p.len() - n) / 3;
        vstd::arithmetic::div_mod::lemma_fundamental_div_mod(p.len() as int, 3);
        assert(p.len() == 3 * k + n);
        lemma_split_nonzero(p, n);
        lemma_zero_front_group(g);
        assert(g + r =~= p);
        assert((seq![ZERO] + g) + r =~= zp);
        assert(all_digits(seq![ZERO] + g)) by {
            assert forall|i: int| 0 <= i < g.len() + 1 implies #[trigger] is_digit((seq![ZERO] + g)[i]) by {
                if i > 0 {
                    assert((seq![ZERO] + g)[i] == g[i - 1]);
                }
            }
        }
        if k == 0 {
            reveal(unit_words);
            lemma_group_nonzero(g);
            lemma_group_nonzero(seq![ZERO] + g);
            assert(r.len() == 0);
            assert(p =~= g);
            assert(zp =~= seq![ZERO] + g);
        } else {
            lemma_group_named_by_its_power(g, r, k, lflag);
            lemma_group_named_by_its_power(seq![ZERO] + g, r, k, lflag);
        }
    }
}

/// A number written with a leading zero is spelled as the number without it.
pub proof fn lemma_leading_zero_number(s: Seq<u8>, lflag: bool)
    requires
        all_digits(s),
        s.len() < MAXNUM,
    ensures
        convert_result(seq![ZERO] + s, lflag) == convert_result(s, lflag),
{
    let zs = seq![ZERO] + s;
    assert(all_digits(zs)) by {
        assert forall|i: int| 0 <= i < zs.len() implies #[trigger] is_digit(zs[i]) by {
            if i > 0 {
                assert(zs[i] == s[i - 1]);
            }
        }
    }
    lemma_digit_line(s);
    lemma_digit_line(zs);
    lemma_leading_zero_unit(s, lflag);
    lemma_unit_says_something(s);
    lemma_unit_says_something(zs);
    lemma_split_nonzero(zs, 1);
    assert(zs.take(1) =~= seq![ZERO]);
    assert(zs.skip(1) =~= s);
    assert(!has_nonzero(seq![ZERO]));
    if s.len() == 0 {
        reveal(unit_words);
        assert(unit_words(s, lflag) =~= Seq::<char>::empty());
    }
    assert(int_words(zs, lflag) == int_words(s, lflag));
    assert(int_said(zs) == int_said(s));
}

/// A group of three is spelled as its hundreds, then a space and its last two
/// digits spelled on their own; the hundreds are the word for the digit and
/// "hundred".
pub proof fn lemma_hundreds_compose(h: u8, b: u8, c: u8)
    requires
        is_digit(h),
        is_digit(b),
        is_digit(c),
        h != ZERO,
    ensures
        number_words(seq![h, ZERO, ZERO], 3) == number_words(seq![h], 1) + " hundred"@,
        (b != ZERO || c != ZERO) ==> number_words(seq![h, b, c], 3)
            == number_words(seq![h, ZERO, ZERO], 3) + " "@ + number_words(seq![b, c], 2),
{
    let g = seq![h, b, c];
    let g0 = seq![h, ZERO, ZERO];
    assert(low_pair(g) == pair_value(seq![b, c]));
    assert(low_pair(g0) == 0);
}

/// Two digits from twenty on that do not end in zero are spelled as their
/// tens, a hyphen and their units.
pub proof fn lemma_tens_compose(a: u8, b: u8)
    requires
        is_digit(a),
        is_digit(b),
        digit_value(a) >= 2,
        b != ZERO,
    ensures
        number_words(seq![a, b], 2) == number_words(seq![a, ZERO], 2) + "-"@ + number_words(seq![b], 1),
{
    let v = pair_value(seq![a, b]);
    let t = pair_value(seq![a, ZERO]);
    assert(v == digit_value(a) * 10 + digit_value(b));
    assert(t == digit_value(a) * 10);
    assert(v / 10 == digit_value(a) && v % 10 == digit_value(b));
    assert(t / 10 == digit_value(a) && t % 10 == 0);
}

} // verus!
