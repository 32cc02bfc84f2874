//! Front-compression of a sorted path list with a table of common bigrams,
//! the encoding that the locate database is written in.
use vstd::prelude::*;
use crate::text::{index_from, lemma_index_from_first, lemma_index_from_range, NEWLINE};

verus! {

/// The longest path, terminating zero included, that one line may hold.
pub const LOCATE_PATH_MAX: usize = 1024;
/// The size of the bigram table written ahead of the list.
pub const BGBUFSIZE: usize = 256;
/// The bias added to each prefix-length difference.
pub const OFFSET: i32 = 14;
/// The bit that marks a bigram code.
pub const PARITY: u8 = 128;
/// The byte that announces a difference too large for one byte.
pub const SWITCH: u8 = 30;
/// The byte that announces a character outside printable ASCII.
pub const UMLAUT: u8 = 31;
/// The lowest printable ASCII character.
pub const ASCII_MIN: u8 = 32;
/// The highest character written as itself.
pub const ASCII_MAX: u8 = 127;

/// The bigram table as written to the output: the first 256 bytes of the
/// bigram line, padded with zero bytes.
pub open spec fn header_bytes(bigrams: Seq<u8>) -> Seq<u8> {
    Seq::new(BGBUFSIZE as nat, |i: int| if i < bigrams.len() { bigrams[i] } else { 0u8 })
}

/// The bigram table written ahead of the encoded list.
pub fn bigram_header(bigrams: &[u8]) -> (out: Vec<u8>)
    ensures
        out@ == header_bytes(bigrams@),
{
    let mut out: Vec<u8> = Vec::new();
    let mut i: usize = 0;
    while i < BGBUFSIZE
        invariant
            i <= BGBUFSIZE,
            out@.len() == i,
            forall|k: int| 0 <= k < i ==> #[trigger] out@[k] == header_bytes(bigrams@)[k],
        decreases BGBUFSIZE - i,
    {
        if i < bigrams.len() {
            out.push(bigrams[i]);
        } else {
            out.push(0);
        }
        i = i + 1;
    }
    assert(out@ =~= header_bytes(bigrams@));
    out
}

/// Whether pair `i` of the bigram line is read into the table: it lies
/// wholly inside the line and its first byte is not zero.
pub open spec fn pair_read(b: Seq<u8>, i: int) -> bool {
    2 * i + 1 < b.len() && b[2 * i] != 0
}

/// How many pairs, from pair `i` on, are read before the first one that is
/// not.
pub open spec fn pairs_from(b: Seq<u8>, i: int) -> int
    decreases b.len() - 2 * i,
{
    if 0 <= i && pair_read(b, i) {
        pairs_from(b, i + 1)
    } else {
        i
    }
}

/// The number of pairs of the bigram line that the table holds.
pub open spec fn pair_count(b: Seq<u8>) -> int {
    pairs_from(b, 0)
}

/// The code of the pair `(c1, c2)` among the first `n` pairs: the index of
/// the last of them that equals it, or -1.
pub open spec fn bigram_code(b: Seq<u8>, n: int, c1: u8, c2: u8) -> i32
    decreases n,
{
    if n <= 0 {
        -1i32
    } else if b[2 * (n - 1)] == c1 && b[2 * (n - 1) + 1] == c2 {
        (n - 1) as i32
    } else {
        bigram_code(b, n - 1, c1, c2)
    }
}

/// The code that the table built from the bigram line `b` gives the pair
/// `(c1, c2)`.
pub open spec fn table_code(b: Seq<u8>, c1: u8, c2: u8) -> i32 {
    bigram_code(b, pair_count(b), c1, c2)
}

proof fn lemma_pairs_from_at_least(b: Seq<u8>, i: int)
    requires
        0 <= i,
    ensures
        pairs_from(b, i) >= i,
        pair_read(b, i) ==> pairs_from(b, i) > i,
    decreases b.len() - 2 * i,
{
    if pair_read(b, i) {
        lemma_pairs_from_at_least(b, i + 1);
    }
}

/// How many pairs of the bigram line the table takes in.
pub fn bigram_pairs(b: &[u8]) -> (n: usize)
    ensures
        n == pair_count(b@),
{
    let mut i: usize = 0;
    let mut cp: usize = 0;
    while cp < b.len() && cp + 1 < b.len() && b[cp] != 0
        invariant
            cp == 2 * i,
            cp <= b.len(),
            pair_count(b@) == pairs_from(b@, i as int),
        decreases b.len() - cp,
    {
        i = i + 1;
        cp = cp + 2;
    }
    i
}

/// Pair `i` of the bigram line is `(c1, c2)`.
pub open spec fn pair_is(b: Seq<u8>, i: int, c1: u8, c2: u8) -> bool {
    b[2 * i] == c1 && b[2 * i + 1] == c2
}

proof fn lemma_bigram_code(b: Seq<u8>, n: int, c1: u8, c2: u8)
    requires
        0 <= n <= i32::MAX,
    ensures
        bigram_code(b, n, c1, c2) == -1 <==> !exists|i: int| 0 <= i < n && #[trigger] pair_is(b, i, c1, c2),
        bigram_code(b, n, c1, c2) != -1 ==> {
            let k = bigram_code(b, n, c1, c2) as int;
            &&& 0 <= k < n
            &&& pair_is(b, k, c1, c2)
            &&& forall|i: int| k < i < n ==> !#[trigger] pair_is(b, i, c1, c2)
        },
    decreases n,
{
    if n > 0 {
        lemma_bigram_code(b, n - 1, c1, c2);
        if pair_is(b, n - 1, c1, c2) {
            assert(((n - 1) as i32) as int == n - 1);
            assert(bigram_code(b, n, c1, c2) as int == n - 1);
        } else {
            assert(bigram_code(b, n, c1, c2) == bigram_code(b, n - 1, c1, c2));
            if exists|i: int| 0 <= i < n && #[trigger] pair_is(b, i, c1, c2) {
                let i = choose|i: int| 0 <= i < n && #[trigger] pair_is(b, i, c1, c2);
                assert(i < n - 1);
            }
            if bigram_code(b, n, c1, c2) == -1 {
                assert forall|i: int| 0 <= i < n implies !#[trigger] pair_is(b, i, c1, c2) by {
                    if i == n - 1 {
                    }
                }
            }
        }
    }
}

/// The table finds a pair exactly when the bigram line lists it among the
/// pairs read, and then gives the index of its last listing.
pub proof fn lemma_table_finds_listed_pairs(b: Seq<u8>, c1: u8, c2: u8)
    requires
        pair_count(b) <= i32::MAX,
    ensures
        table_code(b, c1, c2) == -1 <==> !exists|i: int| 0 <= i < pair_count(b) && #[trigger] pair_is(b, i, c1, c2),
        table_code(b, c1, c2) != -1 ==> {
            let k = table_code(b, c1, c2) as int;
            &&& pair_is(b, k, c1, c2)
            &&& forall|i: int| k < i < pair_count(b) ==> !#[trigger] pair_is(b, i, c1, c2)
        },
{
    lemma_pairs_from_at_least(b, 0);
    lemma_bigram_code(b, pair_count(b), c1, c2);
}

/// Where the pair `(c1, c2)` sits in the flat table.
pub open spec fn slot(c1: u8, c2: u8) -> int {
    c1 as int * 256 + c2 as int
}

proof fn lemma_slot(c1: u8, c2: u8, d1: u8, d2: u8)
    ensures
        0 <= slot(c1, c2) < 65536,
        slot(c1, c2) == slot(d1, d2) ==> c1 == d1 && c2 == d2,
{
    assert(0 <= slot(c1, c2) < 65536) by (nonlinear_arith)
        requires slot(c1, c2) == c1 as int * 256 + c2 as int, 0 <= c1 < 256, 0 <= c2 < 256;
    if slot(c1, c2) == slot(d1, d2) {
        assert(c1 == d1 && c2 == d2) by (nonlinear_arith)
            requires
                c1 as int * 256 + c2 as int == d1 as int * 256 + d2 as int,
                0 <= c1 < 256, 0 <= c2 < 256, 0 <= d1 < 256, 0 <= d2 < 256;
    }
}

fn slot_exec(c1: u8, c2: u8) -> (k: usize)
    ensures
        k == slot(c1, c2),
        k < 65536,
{
    proof {
        lemma_slot(c1, c2, c1, c2);
    }
    (c1 as usize) * 256 + (c2 as usize)
}

/// Builds the flat table of bigram codes from the bigram line.
fn build_codes(b: &[u8]) -> (codes: Vec<i32>)
    requires
        pair_count(b@) <= u32::MAX,
    ensures
        codes@.len() == 65536,
        forall|c1: u8, c2: u8| #[trigger] codes@[slot(c1, c2)] == table_code(b@, c1, c2),
{
    let mut codes: Vec<i32> = vec![-1i32; 65536];
    assert forall|c1: u8, c2: u8| #[trigger] codes@[slot(c1, c2)] == bigram_code(b@, 0, c1, c2) by {
        lemma_slot(c1, c2, c1, c2);
    }
    let mut i: u32 = 0;
    let mut cp: usize = 0;
    while cp + 1 < b.len() && b[cp] != 0
        invariant
            codes@.len() == 65536,
            cp == 2 * (i as int),
            pair_count(b@) == pairs_from(b@, i as int),
            pair_count(b@) <= u32::MAX,
            forall|c1: u8, c2: u8| #[trigger] codes@[slot(c1, c2)] == bigram_code(b@, i as int, c1, c2),
        decreases b.len() - cp,
    {
        let c1 = b[cp];
        let c2 = b[cp + 1];
        let k = slot_exec(c1, c2);
        codes.set(k, #[verifier::truncate] (i as i32));
        proof {
            lemma_pairs_from_at_least(b@, i as int);
            assert forall|d1: u8, d2: u8| #[trigger] codes@[slot(d1, d2)] == bigram_code(b@, i + 1, d1, d2) by {
                lemma_slot(d1, d2, c1, c2);
            }
        }
        i = i + 1;
        cp = cp + 2;
    }
    codes
}

/// How many bytes of a line are kept: at most one less than the path limit.
pub open spec fn kept_len(line: Seq<u8>) -> int {
    if line.len() < LOCATE_PATH_MAX - 1 { line.len() as int } else { LOCATE_PATH_MAX - 1 }
}

/// The kept bytes of a line.
pub open spec fn kept(line: Seq<u8>) -> Seq<u8> {
    line.take(kept_len(line))
}

/// The path of a line: its kept bytes, with the first newline turned into a
/// terminating zero.
pub open spec fn path_of(line: Seq<u8>) -> Seq<u8> {
    let t = kept(line);
    let k = index_from(t, NEWLINE, 0);
    if k < t.len() { t.update(k, 0u8) } else { t }
}

/// The length of the common prefix of `p` and `old` from index `i` on,
/// stopping at a terminating zero.
pub open spec fn common_prefix(p: Seq<u8>, old: Seq<u8>, i: int) -> int
    decreases p.len() - i,
{
    if 0 <= i < p.len() && i < old.len() && p[i] == old[i] && p[i] != 0 {
        common_prefix(p, old, i + 1)
    } else {
        i
    }
}

/// The unsigned 16-bit word that a difference is written as.
pub open spec fn diff_word(diff: int) -> int {
    if diff < 0 { diff + 65536 } else { diff }
}

/// The bytes that carry the biased difference of two prefix lengths: the
/// byte itself when it lies in 0..=28, else the switch byte and a
/// little-endian 16-bit word.
pub open spec fn count_bytes(diff: int) -> Seq<u8> {
    if diff < 0 || diff > 2 * OFFSET {
        seq![SWITCH, (diff_word(diff) % 256) as u8, (diff_word(diff) / 256) as u8]
    } else {
        seq![diff as u8]
    }
}

/// One character written on its own: as itself when printable ASCII, else
/// after the escape byte.
pub open spec fn char_bytes(c: u8) -> Seq<u8> {
    if c < ASCII_MIN || c > ASCII_MAX { seq![UMLAUT, c] } else { seq![c] }
}

/// The byte that stands for a bigram code.
pub open spec fn code_byte(code: i32) -> u8 {
    (((code as u32) / 2) as u8) | PARITY
}

/// The second character of the pair that starts at `cp`: zero at the end of
/// the path.
pub open spec fn next_char(p: Seq<u8>, cp: int) -> u8 {
    if cp + 1 < p.len() && p[cp + 1] != 0 { p[cp + 1] } else { 0u8 }
}

/// The encoding of the path `p` from index `cp` on: each pair found in the
/// table as one code byte, anything else a character at a time, two at most
/// before the table is tried again.
pub open spec fn residue(bigrams: Seq<u8>, p: Seq<u8>, cp: int) -> Seq<u8>
    decreases p.len() + 1 - cp,
{
    if 0 <= cp < p.len() && p[cp] != 0 {
        let code = table_code(bigrams, p[cp], next_char(p, cp));
        if code != -1 {
            seq![code_byte(code)] + residue(bigrams, p, cp + 2)
        } else if cp + 1 < p.len() && p[cp + 1] != 0 {
            char_bytes(p[cp]) + char_bytes(p[cp + 1]) + residue(bigrams, p, cp + 2)
        } else {
            char_bytes(p[cp]) + residue(bigrams, p, cp + 1)
        }
    } else {
        Seq::empty()
    }
}

/// The previous path before the first line: spaces all the way.
pub open spec fn initial_prev() -> Seq<u8> {
    Seq::new(LOCATE_PATH_MAX as nat, |i: int| 32u8)
}

/// One step of the encoder: the bytes written for `line`, the path that the
/// next line is compared with, and the prefix length that the next
/// difference is taken from. A line that starts with a newline writes
/// nothing and leaves the prefix length as it was.
pub open spec fn encode_step(bigrams: Seq<u8>, prev: Seq<u8>, oldcount: int, line: Seq<u8>) -> (Seq<u8>, Seq<u8>, int) {
    if line[0] == NEWLINE {
        (Seq::empty(), kept(line).push(0u8), oldcount)
    } else {
        let p = path_of(line);
        let count = common_prefix(p, prev, 0);
        (count_bytes(count - oldcount + OFFSET) + residue(bigrams, p, count), p.push(0u8), count)
    }
}

/// Encodes a path list line by line.
pub struct LocateEncoder {
    codes: Vec<i32>,
    prev: Vec<u8>,
    oldcount: i32,
    bigrams: Ghost<Seq<u8>>,
}

impl LocateEncoder {
    #[verifier::type_invariant]
    spec fn inv(self) -> bool {
        &&& self.codes@.len() == 65536
        &&& forall|c1: u8, c2: u8| #[trigger] self.codes@[slot(c1, c2)] == table_code(self.bigrams@, c1, c2)
        &&& 1 <= self.prev@.len() <= LOCATE_PATH_MAX
        &&& 0 <= self.oldcount < LOCATE_PATH_MAX
    }

    /// The bigram line the encoder was made with.
    pub closed spec fn bigrams(self) -> Seq<u8> {
        self.bigrams@
    }

    /// The path that the next line is compared with.
    pub closed spec fn prev(self) -> Seq<u8> {
        self.prev@
    }

    /// The prefix length that the next difference is taken from.
    pub closed spec fn oldcount(self) -> int {
        self.oldcount as int
    }

    /// An encoder for the table read from the bigram line `bigrams`.
    pub fn new(bigrams: &[u8]) -> (e: LocateEncoder)
        requires
            pair_count(bigrams@) <= u32::MAX,
        ensures
            e.bigrams() == bigrams@,
            e.prev() == initial_prev(),
            e.oldcount() == 0,
    {
        let codes = build_codes(bigrams);
        let prev: Vec<u8> = vec![32u8; LOCATE_PATH_MAX];
        assert(prev@ =~= initial_prev());
        LocateEncoder { codes, prev, oldcount: 0, bigrams: Ghost(bigrams@) }
    }
}

/// The path of a line, as the encoder compares and writes it.
fn line_path(line: &[u8]) -> (p: Vec<u8>)
    ensures
        p@ == path_of(line@),
        p@.len() <= LOCATE_PATH_MAX - 1,
{
    let n = line.len();
    let len = if n < LOCATE_PATH_MAX - 1 { n } else { LOCATE_PATH_MAX - 1 };
    let mut p: Vec<u8> = Vec::new();
    let mut i: usize = 0;
    while i < len
        invariant
            i <= len,
            len == kept_len(line@),
            p@ =~= line@.take(i as int),
        decreases len - i,
    {
        p.push(line[i]);
        i = i + 1;
    }
    let ghost t = p@;
    assert(t =~= kept(line@));
    let mut i: usize = 0;
    while i < len
        invariant
            i <= len,
            len == t.len(),
            p@ == t,
            t == kept(line@),
            len <= LOCATE_PATH_MAX - 1,
            forall|k: int| 0 <= k < i ==> t[k] != NEWLINE,
        decreases len - i,
    {
        if p[i] == NEWLINE {
            proof {
                lemma_index_from_first(t, NEWLINE, 0, i as int);
            }
            p.set(i, 0);
            return p;
        }
        i = i + 1;
    }
    proof {
        lemma_index_from_first(t, NEWLINE, 0, len as int);
    }
    p
}

/// The length of the common prefix of a path and the previous path.
fn prefix_len(p: &Vec<u8>, prev: &Vec<u8>) -> (cp: usize)
    ensures
        cp == common_prefix(p@, prev@, 0),
        cp <= p@.len(),
{
    let mut cp: usize = 0;
    while cp < p.len() && cp < prev.len() && p[cp] == prev[cp] && p[cp] != 0
        invariant
            cp <= p@.len(),
            common_prefix(p@, prev@, 0) == common_prefix(p@, prev@, cp as int),
        decreases p@.len() - cp,
    {
        cp = cp + 1;
    }
    cp
}

/// Writes the biased difference of two prefix lengths.
fn push_count(out: &mut Vec<u8>, diff: i32)
    requires
        -65536 < diff < 65536,
    ensures
        final(out)@ == old(out)@ + count_bytes(diff as int),
{
    if diff < 0 || diff > 2 * OFFSET {
        out.push(SWITCH);
        let word = diff as u16;
        assert(word as int == diff_word(diff as int)) by (bit_vector)
            requires
                word == diff as u16,
                -65536 < diff < 65536,
                diff_word(diff as int) == if diff < 0 { diff + 65536 } else { diff as int };
        out.push((word % 256) as u8);
        out.push((word / 256) as u8);
    } else {
        out.push(diff as u8);
    }
}

/// Writes one character on its own.
fn push_char(out: &mut Vec<u8>, c: u8)
    ensures
        final(out)@ == old(out)@ + char_bytes(c),
{
    if c < ASCII_MIN || c > ASCII_MAX {
        out.push(UMLAUT);
        out.push(c);
    } else {
        out.push(c);
    }
}

impl LocateEncoder {
    /// Writes the encoding of the path `p` from index `cp` on.
    fn push_residue(&self, p: &Vec<u8>, cp: usize, out: &mut Vec<u8>)
        requires
            cp <= p@.len(),
            p@.len() < LOCATE_PATH_MAX,
        ensures
            final(out)@ == old(out)@ + residue(self.bigrams(), p@, cp as int),
    {
        proof {
            use_type_invariant(self);
        }
        let ghost start = old(out)@;
        let ghost first = cp;
        let len = p.len();
        let mut cp = cp;
        while cp < len && p[cp] != 0
            invariant
                cp <= len + 1,
                len == p@.len(),
                len < LOCATE_PATH_MAX,
                start + residue(self.bigrams(), p@, first as int) == out@ + residue(self.bigrams(), p@, cp as int),
            decreases len + 1 - cp,
        {
            proof {
                use_type_invariant(self);
            }
            let ghost before = out@;
            let c1 = p[cp];
            let c2 = if cp + 1 < len && p[cp + 1] != 0 { p[cp + 1] } else { 0 };
            let code = self.codes[slot_exec(c1, c2)];
            assert(code == table_code(self.bigrams(), c1, c2));
            if code != -1 {
                out.push((#[verifier::truncate] (((#[verifier::truncate] (code as u32)) / 2) as u8)) | PARITY);
                proof {
                    let r = residue(self.bigrams(), p@, cp + 2);
                    assert(before + (seq![code_byte(code)] + r) =~= out@ + r);
                }
                cp = cp + 2;
            } else {
                push_char(out, c1);
                if cp + 1 < len && p[cp + 1] != 0 {
                    push_char(out, p[cp + 1]);
                    proof {
                        let r = residue(self.bigrams(), p@, cp + 2);
                        assert(before + (char_bytes(c1) + char_bytes(p@[cp + 1]) + r) =~= out@ + r);
                    }
                    cp = cp + 2;
                } else {
                    proof {
                        let r = residue(self.bigrams(), p@, cp + 1);
                        assert(before + (char_bytes(c1) + r) =~= out@ + r);
                    }
                    cp = cp + 1;
                }
            }
        }
        assert(residue(self.bigrams(), p@, cp as int) =~= Seq::<u8>::empty());
    }

    /// Encodes one line of the path list and moves on to it.
    pub fn encode_line(&mut self, line: &[u8]) -> (out: Vec<u8>)
        requires
            line@.len() >= 1,
        ensures
            (out@, final(self).prev(), final(self).oldcount())
                == encode_step(old(self).bigrams(), old(self).prev(), old(self).oldcount(), line@),
            final(self).bigrams() == old(self).bigrams(),
    {
        proof {
            use_type_invariant(&*self);
        }
        if line[0] == NEWLINE {
            let n = line.len();
            let len = if n < LOCATE_PATH_MAX - 1 { n } else { LOCATE_PATH_MAX - 1 };
            let mut p: Vec<u8> = Vec::new();
            let mut i: usize = 0;
            while i < len
                invariant
                    i <= len,
                    len == kept_len(line@),
                    p@ =~= line@.take(i as int),
                decreases len - i,
            {
                p.push(line[i]);
                i = i + 1;
            }
            p.push(0);
            assert(p@ =~= kept(line@).push(0u8));
            self.prev = p;
            return Vec::new();
        }
        let mut path = line_path(line);
        let count = prefix_len(&path, &self.prev);
        let diff = count as i32 - self.oldcount + OFFSET;
        let mut out: Vec<u8> = Vec::new();
        push_count(&mut out, diff);
        self.push_residue(&path, count, &mut out);
        path.push(0);
        self.prev = path;
        self.oldcount = count as i32;
        out
    }
}

/// The difference that a reader takes from the front of an encoded line: a
/// byte of its own, or after the switch byte a little-endian signed 16-bit
/// word.
pub open spec fn decoded_diff(out: Seq<u8>) -> int {
    if out[0] == SWITCH {
        let w = out[1] as int + 256 * out[2] as int;
        if w >= 32768 { w - 65536 } else { w }
    } else {
        out[0] as int
    }
}

/// Front compression loses nothing: a reader that knows the previous prefix
/// length recovers the new one from the first bytes written for a line.
pub proof fn lemma_prefix_length_recoverable(bigrams: Seq<u8>, prev: Seq<u8>, oldcount: int, line: Seq<u8>)
    requires
        line.len() >= 1,
        line[0] != NEWLINE,
        0 <= oldcount < LOCATE_PATH_MAX,
    ensures
        oldcount + decoded_diff(encode_step(bigrams, prev, oldcount, line).0) - OFFSET
            == encode_step(bigrams, prev, oldcount, line).2,
{
    let p = path_of(line);
    assert(kept(line).len() == kept_len(line));
    lemma_index_from_range(kept(line), NEWLINE, 0);
    assert(p.len() == kept(line).len());
    assert(p.len() <= LOCATE_PATH_MAX - 1);
    lemma_common_prefix_from(p, prev, 0);
    let count = common_prefix(p, prev, 0);
    let d = count - oldcount + OFFSET;
    let out = encode_step(bigrams, prev, oldcount, line).0;
    let head = count_bytes(d);
    assert(out == head + residue(bigrams, p, count));
    assert(out[0] == head[0]);
    if d < 0 || d > 2 * OFFSET {
        let w = diff_word(d);
        assert(out[1] == head[1] && out[2] == head[2]);
        assert(0 <= w < 65536);
        assert((w % 256) as u8 as int + 256 * ((w / 256) as u8 as int) == w) by (nonlinear_arith)
            requires 0 <= w < 65536;
    }
}

/// A line that starts with a newline writes nothing and leaves the prefix
/// count alone, so that a reader, who sees nothing for it, still recovers the
/// next written line's prefix length against the blank line's path from the
/// count it held before the blank line.
pub proof fn lemma_blank_line_keeps_count(bigrams: Seq<u8>, prev: Seq<u8>, oldcount: int, blank: Seq<u8>, line: Seq<u8>)
    requires
        blank.len() >= 1,
        blank[0] == NEWLINE,
        line.len() >= 1,
        line[0] != NEWLINE,
        0 <= oldcount < LOCATE_PATH_MAX,
    ensures
        encode_step(bigrams, prev, oldcount, blank).0.len() == 0,
        oldcount + decoded_diff(encode_step(bigrams, encode_step(bigrams, prev, oldcount, blank).1,
            encode_step(bigrams, prev, oldcount, blank).2, line).0) - OFFSET
            == common_prefix(path_of(line), encode_step(bigrams, prev, oldcount, blank).1, 0),
{
    let s1 = encode_step(bigrams, prev, oldcount, blank);
    assert(s1.2 == oldcount);
    lemma_prefix_length_recoverable(bigrams, s1.1, s1.2, line);
}

/// The common prefix is the longest run from the start on which both paths
/// hold the same bytes, none of them a terminating zero.
pub proof fn lemma_common_prefix_longest(p: Seq<u8>, old: Seq<u8>)
    ensures
        0 <= common_prefix(p, old, 0) <= p.len(),
        forall|i: int| 0 <= i < common_prefix(p, old, 0) ==> #[trigger] p[i] == old[i] && p[i] != 0,
        ({
            let c = common_prefix(p, old, 0);
            c == p.len() || c >= old.len() || p[c] != old[c] || p[c] == 0
        }),
{
    lemma_common_prefix_from(p, old, 0);
}

proof fn lemma_common_prefix_from(p: Seq<u8>, old: Seq<u8>, i: int)
    requires
        0 <= i <= p.len(),
    ensures
        i <= common_prefix(p, old, i) <= p.len(),
        forall|k: int| i <= k < common_prefix(p, old, i) ==> #[trigger] p[k] == old[k] && p[k] != 0,
        ({
            let c = common_prefix(p, old, i);
            c == p.len() || c >= old.len() || p[c] != old[c] || p[c] == 0
        }),
    decreases p.len() - i,
{
    if 0 <= i < p.len() && i < old.len() && p[i] == old[i] && p[i] != 0 {
        lemma_common_prefix_from(p, old, i + 1);
    }
}

} // verus!
