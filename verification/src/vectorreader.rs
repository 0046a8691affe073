//! Single-pass reader for the word2vec binary vector format.
//!
//! The format is a text header line `V D ... \n` followed by `V` entries,
//! each a word (bytes up to an ASCII space) and then `D` little-endian
//! binary32 values with no padding. The reader owns the raw bytes and yields
//! `(word, vector)` pairs until the declared count is reached or a read
//! fails, recording early termination in a flag.

use vstd::prelude::*;

use vstd::utf8::{decode_utf8, valid_utf8};

use crate::errors::Word2VecError;

verus! {

/// Whether `b` is an ASCII whitespace byte, the set the header tokenizer
/// and the word trimmer split on.
pub open spec fn is_ws(b: u8) -> bool {
    b == 0x20u8 || b == 0x09u8 || b == 0x0au8 || b == 0x0bu8 || b == 0x0cu8 || b == 0x0du8
}

/// Executable ASCII-whitespace test.
pub(crate) fn is_ws_byte(b: u8) -> (r: bool)
    ensures
        r == is_ws(b),
{
    b == 0x20u8 || b == 0x09u8 || b == 0x0au8 || b == 0x0bu8 || b == 0x0cu8 || b == 0x0du8
}

/// The index of the first occurrence of `b` in `s` at or after `i`, or
/// `s.len()` when there is none.
pub open spec fn find_from(s: Seq<u8>, i: int, b: u8) -> int
    decreases s.len() - i,
{
    if i < 0 || i >= s.len() {
        s.len() as int
    } else if s[i] == b {
        i
    } else {
        find_from(s, i + 1, b)
    }
}

pub(crate) proof fn lemma_find_from(s: Seq<u8>, i: int, b: u8)
    requires
        0 <= i <= s.len(),
    ensures
        i <= find_from(s, i, b) <= s.len(),
        find_from(s, i, b) < s.len() ==> s[find_from(s, i, b)] == b,
        forall|j: int| i <= j < find_from(s, i, b) ==> s[j] != b,
    decreases s.len() - i,
{
    if i < s.len() && s[i] != b {
        lemma_find_from(s, i + 1, b);
    }
}

pub(crate) proof fn lemma_find_from_eq(s: Seq<u8>, i: int, j: int, b: u8)
    requires
        0 <= i <= j <= s.len(),
        forall|k: int| i <= k < j ==> s[k] != b,
        j == s.len() || s[j] == b,
    ensures
        find_from(s, i, b) == j,
    decreases j - i,
{
    if i < j {
        lemma_find_from_eq(s, i + 1, j, b);
    }
}

/// The end of the whitespace-free token that starts at `i`: the first index
/// at or after `i` holding whitespace, or `s.len()`.
pub open spec fn token_end(s: Seq<u8>, i: int) -> int
    decreases s.len() - i,
{
    if i < 0 || i >= s.len() || is_ws(s[i]) {
        i
    } else {
        token_end(s, i + 1)
    }
}

proof fn lemma_token_end(s: Seq<u8>, i: int)
    requires
        0 <= i <= s.len(),
    ensures
        i <= token_end(s, i) <= s.len(),
        token_end(s, i) < s.len() ==> is_ws(s[token_end(s, i)]),
        forall|j: int| i <= j < token_end(s, i) ==> !is_ws(s[j]),
    decreases s.len() - i,
{
    if i < s.len() && !is_ws(s[i]) {
        lemma_token_end(s, i + 1);
    }
}

/// The value of the decimal digit run `t[i..]` accumulated onto `acc`, or
/// `None` if some byte of it is not an ASCII digit.
pub open spec fn digits_val(t: Seq<u8>, i: int, acc: nat) -> Option<nat>
    decreases t.len() - i,
{
    if i < 0 || i >= t.len() {
        Some(acc)
    } else if 0x30u8 <= t[i] <= 0x39u8 {
        digits_val(t, i + 1, acc * 10 + (t[i] - 0x30u8) as nat)
    } else {
        None
    }
}

pub(crate) proof fn lemma_digits_val_monotone(t: Seq<u8>, i: int, acc: nat)
    requires
        digits_val(t, i, acc) is Some,
    ensures
        digits_val(t, i, acc).unwrap() >= acc,
    decreases t.len() - i,
{
    if 0 <= i < t.len() && 0x30u8 <= t[i] <= 0x39u8 {
        lemma_digits_val_monotone(t, i + 1, acc * 10 + (t[i] - 0x30u8) as nat);
    }
}

/// The digits of an integer token: a single leading `+` is allowed and
/// ignored, as the usual decimal parser does.
pub open spec fn tok_digits(t: Seq<u8>) -> Seq<u8> {
    if t.len() > 0 && t[0] == 0x2bu8 {
        t.subrange(1, t.len() as int)
    } else {
        t
    }
}

/// The unsigned value of a decimal token, or `None` when the token is empty,
/// holds a non-digit, or does not fit the machine word.
pub open spec fn parse_usize_tok(t: Seq<u8>) -> Option<usize> {
    let d = tok_digits(t);
    if d.len() == 0 {
        None
    } else {
        match digits_val(d, 0, 0) {
            Some(v) => if v <= usize::MAX as nat {
                Some(v as usize)
            } else {
                None
            },
            None => None,
        }
    }
}

/// The parseable unsigned integers among the whitespace-separated tokens of
/// `s[i..]`, in order; tokens that do not parse are skipped.
pub open spec fn header_ints(s: Seq<u8>, i: int) -> Seq<usize>
    decreases s.len() - i,
    via header_ints_dec
{
    if i < 0 || i >= s.len() {
        Seq::empty()
    } else if is_ws(s[i]) {
        header_ints(s, i + 1)
    } else {
        let j = token_end(s, i);
        let rest = header_ints(s, j);
        match parse_usize_tok(s.subrange(i, j)) {
            Some(v) => seq![v] + rest,
            None => rest,
        }
    }
}

#[via_fn]
proof fn header_ints_dec(s: Seq<u8>, i: int) {
    if 0 <= i && i < s.len() && !is_ws(s[i]) {
        lemma_token_end(s, i);
    }
}

pub(crate) proof fn lemma_token_end_eq(s: Seq<u8>, i: int, j: int)
    requires
        0 <= i <= j <= s.len(),
        forall|k: int| i <= k < j ==> !is_ws(s[k]),
        j == s.len() || is_ws(s[j]),
    ensures
        token_end(s, i) == j,
    decreases j - i,
{
    if i < j {
        lemma_token_end_eq(s, i + 1, j);
    }
}

/// The declared vocabulary size and dimensionality, and the index where the
/// body starts: the first line is tokenized and the first two parseable
/// integers are taken, all on their plain bytes. `None` when fewer than two
/// tokens parse.
pub open spec fn header_spec(s: Seq<u8>) -> Option<(usize, usize, int)> {
    let nl = find_from(s, 0, 0x0au8);
    let body: int = if nl < s.len() {
        nl + 1
    } else {
        s.len() as int
    };
    let ints = header_ints(s.subrange(0, nl), 0);
    if ints.len() >= 2 {
        Some((ints[0], ints[1], body))
    } else {
        None
    }
}

/// `s` with leading ASCII whitespace removed.
pub open spec fn trim_start(s: Seq<u8>) -> Seq<u8>
    decreases s.len(),
{
    if s.len() > 0 && is_ws(s[0]) {
        trim_start(s.drop_first())
    } else {
        s
    }
}

/// `s` with trailing ASCII whitespace removed.
pub open spec fn trim_end(s: Seq<u8>) -> Seq<u8>
    decreases s.len(),
{
    if s.len() > 0 && is_ws(s[s.len() - 1]) {
        trim_end(s.drop_last())
    } else {
        s
    }
}

/// `s` with ASCII whitespace removed from both ends.
pub open spec fn trim_spec(s: Seq<u8>) -> Seq<u8> {
    trim_end(trim_start(s))
}

/// The binary32 bit pattern stored little-endian at `s[p..p + 4]`.
pub open spec fn le_u32_at(s: Seq<u8>, p: int) -> u32 {
    (s[p] as u32) | ((s[p + 1] as u32) << 8u32) | ((s[p + 2] as u32) << 16u32) | ((s[p
        + 3] as u32) << 24u32)
}

/// The `d` binary32 bit patterns stored little-endian from `p` on.
pub open spec fn floats_at(s: Seq<u8>, p: int, d: nat) -> Seq<u32> {
    Seq::new(d, |k: int| le_u32_at(s, p + 4 * k))
}

/// One body entry read from `pos`: the word bytes run to the first space (or
/// to the end when there is none), are trimmed of surrounding ASCII
/// whitespace, and must decode as UTF-8; then exactly `d` little-endian
/// binary32 values follow. `None` when decoding fails or the bytes run out,
/// which ends the iteration early.
pub open spec fn entry_at(s: Seq<u8>, pos: int, d: nat) -> Option<(Seq<char>, Seq<u32>, int)> {
    let sp = find_from(s, pos, 0x20u8);
    let vstart: int = if sp < s.len() {
        sp + 1
    } else {
        s.len() as int
    };
    let wb = trim_spec(s.subrange(pos, sp));
    if !valid_utf8(wb) {
        None
    } else if vstart + 4 * (d as int) > s.len() {
        None
    } else {
        Some((decode_utf8(wb), floats_at(s, vstart, d), vstart + 4 * (d as int)))
    }
}

/// Parses the decimal token `data[from..to]` as an unsigned machine word.
fn parse_usize_range(data: &Vec<u8>, from: usize, to: usize) -> (r: Option<usize>)
    requires
        from <= to <= data@.len(),
    ensures
        r == parse_usize_tok(data@.subrange(from as int, to as int)),
{
    let ghost t = data@.subrange(from as int, to as int);
    let mut i: usize = from;
    if i < to && data[i] == 0x2bu8 {
        i = i + 1;
    }
    let ghost d = tok_digits(t);
    proof {
        assert(d =~= data@.subrange(i as int, to as int));
    }
    if i == to {
        return None;
    }
    let mut acc: u128 = 0;
    let mut j: usize = i;
    while j < to
        invariant
            from <= i <= j <= to <= data@.len(),
            acc <= usize::MAX as u128,
            d == data@.subrange(i as int, to as int),
            d == tok_digits(t),
            i < to,
            t == data@.subrange(from as int, to as int),
            digits_val(d, j - i, acc as nat) == digits_val(d, 0, 0),
        decreases to - j,
    {
        let c = data[j];
        assert(d[j - i] == c);
        if c < 0x30u8 || c > 0x39u8 {
            assert(digits_val(d, j - i, acc as nat) is None);
            return None;
        }
        acc = acc * 10 + (c - 0x30u8) as u128;
        if acc > usize::MAX as u128 {
            proof {
                if digits_val(d, 0, 0) is Some {
                    lemma_digits_val_monotone(d, j + 1 - i, acc as nat);
                }
            }
            return None;
        }
        j = j + 1;
    }
    assert(digits_val(d, j - i, acc as nat) == Some(acc as nat));
    Some(acc as usize)
}

/// Relies on `core::str::from_utf8` and `str::to_owned`: the bytes decode to
/// a string exactly when they are valid UTF-8, and then decode to the
/// character sequence that UTF-8 assigns them.
#[verifier::external_body]
pub(crate) fn utf8_decode_bytes(bytes: &Vec<u8>) -> (r: Option<String>)
    ensures
        r is Some <==> valid_utf8(bytes@),
        r matches Some(s) ==> s@ == decode_utf8(bytes@),
{
    core::str::from_utf8(bytes.as_slice()).ok().map(|s| s.to_owned())
}

/// A single-pass producer of `(word, vector)` pairs decoded from the
/// word2vec binary format, over an owned byte source.
pub struct WordVectorReader {
    vocabulary_size: usize,
    vector_size: usize,
    data: Vec<u8>,
    pos: usize,
    vectors_read: usize,
    ended_early: bool,
}

impl WordVectorReader {
    /// The position stays inside the bytes, and no more than the declared
    /// count has been read.
    pub closed spec fn wf(&self) -> bool {
        self.pos <= self.data@.len() && self.vectors_read <= self.vocabulary_size
    }

    /// The declared vocabulary size.
    pub closed spec fn spec_vocabulary_size(&self) -> usize {
        self.vocabulary_size
    }

    /// The declared dimensionality.
    pub closed spec fn spec_vector_size(&self) -> usize {
        self.vector_size
    }

    /// The owned byte source.
    pub closed spec fn spec_data(&self) -> Seq<u8> {
        self.data@
    }

    /// The index the next entry would be read from.
    pub closed spec fn spec_pos(&self) -> usize {
        self.pos
    }

    /// How many entries have been produced so far.
    pub closed spec fn spec_vectors_read(&self) -> usize {
        self.vectors_read
    }

    /// Whether iteration stopped before the declared count.
    pub closed spec fn spec_ended_early(&self) -> bool {
        self.ended_early
    }

    /// What well-formedness guarantees, stated over the public views.
    pub proof fn lemma_wf_bounds(&self)
        requires
            self.wf(),
        ensures
            self.spec_pos() <= self.spec_data().len(),
            self.spec_vectors_read() <= self.spec_vocabulary_size(),
    {
    }

    /// Returns the vocabulary size declared by the header.
    pub fn vocabulary_size(&self) -> (r: usize)
        ensures
            r == self.spec_vocabulary_size(),
    {
        self.vocabulary_size
    }

    /// Returns the vector dimensionality declared by the header.
    pub fn vector_size(&self) -> (r: usize)
        ensures
            r == self.spec_vector_size(),
    {
        self.vector_size
    }

    /// Returns how many entries have been read so far.
    pub fn vectors_read(&self) -> (r: usize)
        ensures
            r == self.spec_vectors_read(),
    {
        self.vectors_read
    }

    /// Returns whether the iteration stopped before the declared count.
    pub fn ended_early(&self) -> (r: bool)
        ensures
            r == self.spec_ended_early(),
    {
        self.ended_early
    }

    /// Builds a reader over the given bytes by parsing the header line;
    /// fails with `WrongHeader` when the line holds fewer than two
    /// parseable integers.
    pub fn new_from_reader(data: Vec<u8>) -> (r: Result<WordVectorReader, Word2VecError>)
        ensures
            match r {
                Ok(rd) => {
                    &&& header_spec(data@) matches Some(h)
                    &&& rd.wf()
                    &&& rd.spec_vocabulary_size() == h.0
                    &&& rd.spec_vector_size() == h.1
                    &&& rd.spec_pos() == h.2
                    &&& rd.spec_data() == data@
                    &&& rd.spec_vectors_read() == 0
                    &&& !rd.spec_ended_early()
                },
                Err(e) => e == Word2VecError::WrongHeader && header_spec(data@) is None,
            },
    {
        let len = data.len();
        let mut nl: usize = 0;
        while nl < len && data[nl] != 0x0au8
            invariant
                0 <= nl <= len,
                len == data@.len(),
                forall|k: int| 0 <= k < nl ==> data@[k] != 0x0au8,
            decreases len - nl,
        {
            nl = nl + 1;
        }
        proof {
            lemma_find_from_eq(data@, 0, nl as int, 0x0au8);
        }
        let body: usize = if nl < len {
            nl + 1
        } else {
            len
        };
        let ghost line = data@.subrange(0, nl as int);
        let mut v0: usize = 0;
        let mut v1: usize = 0;
        let mut count: usize = 0;
        let mut i: usize = 0;
        while i < nl && count < 2
            invariant
                0 <= i <= nl <= len,
                len == data@.len(),
                nl < len ==> data@[nl as int] == 0x0au8,
                line == data@.subrange(0, nl as int),
                count <= 2,
                count == 0 ==> header_ints(line, 0) == header_ints(line, i as int),
                count == 1 ==> header_ints(line, 0) == seq![v0] + header_ints(line, i as int),
                count == 2 ==> header_ints(line, 0).len() >= 2 && header_ints(line, 0)[0] == v0
                    && header_ints(line, 0)[1] == v1,
            decreases nl - i,
        {
            assert(line[i as int] == data@[i as int]);
            if is_ws_byte(data[i]) {
                assert(header_ints(line, i as int) == header_ints(line, i + 1));
                i = i + 1;
            } else {
                let mut j: usize = i;
                while j < nl && !is_ws_byte(data[j])
                    invariant
                        i <= j <= nl <= len,
                        len == data@.len(),
                        forall|k: int| i <= k < j ==> !is_ws(data@[k]),
                    decreases nl - j,
                {
                    j = j + 1;
                }
                proof {
                    assert(forall|k: int| i <= k < j ==> line[k] == data@[k]);
                    if j < nl {
                        assert(is_ws(line[j as int]));
                    } else {
                        assert(j == nl);
                    }
                    lemma_token_end_eq(line, i as int, j as int);
                }
                let tok = parse_usize_range(&data, i, j);
                proof {
                    assert(data@.subrange(i as int, j as int) =~= line.subrange(
                        i as int,
                        j as int,
                    ));
                    assert(header_ints(line, i as int) == match parse_usize_tok(
                        line.subrange(i as int, j as int),
                    ) {
                        Some(v) => seq![v] + header_ints(line, j as int),
                        None => header_ints(line, j as int),
                    });
                }
                match tok {
                    Some(v) => {
                        if count == 0 {
                            v0 = v;
                            proof {
                                assert(header_ints(line, 0) == seq![v0] + header_ints(
                                    line,
                                    j as int,
                                ));
                            }
                        } else {
                            v1 = v;
                            proof {
                                assert(header_ints(line, 0) == seq![v0] + (seq![v1] + header_ints(
                                    line,
                                    j as int,
                                )));
                                assert(header_ints(line, 0)[0] == v0);
                                assert(header_ints(line, 0)[1] == v1);
                            }
                        }
                        count = count + 1;
                    },
                    None => {
                    },
                }
                i = j;
            }
        }
        if count < 2 {
            proof {
                if i == nl {
                    assert(header_ints(line, nl as int) =~= Seq::<usize>::empty());
                    assert(header_ints(line, 0).len() < 2);
                }
            }
            return Err(Word2VecError::WrongHeader);
        }
        Ok(
            WordVectorReader {
                vocabulary_size: v0,
                vector_size: v1,
                data,
                pos: body,
                vectors_read: 0,
                ended_early: false,
            },
        )
    }

    /// Produces the next `(word, vector)` pair, or `None` once the declared
    /// count is reached or a read fails; a failed read sets the early-end
    /// flag and leaves the position where it was.
    pub fn next_entry(&mut self) -> (r: Option<(String, Vec<u32>)>)
        requires
            old(self).wf(),
        ensures
            final(self).wf(),
            final(self).spec_vocabulary_size() == old(self).spec_vocabulary_size(),
            final(self).spec_vector_size() == old(self).spec_vector_size(),
            final(self).spec_data() == old(self).spec_data(),
            match r {
                Some(e) => {
                    &&& old(self).spec_vectors_read() < old(self).spec_vocabulary_size()
                    &&& entry_at(
                        old(self).spec_data(),
                        old(self).spec_pos() as int,
                        old(self).spec_vector_size() as nat,
                    ) == Some((e.0@, e.1@, final(self).spec_pos() as int))
                    &&& final(self).spec_vectors_read() == old(self).spec_vectors_read() + 1
                    &&& final(self).spec_ended_early() == old(self).spec_ended_early()
                },
                None => if old(self).spec_vectors_read() == old(self).spec_vocabulary_size() {
                    *final(self) == *old(self)
                } else {
                    &&& entry_at(
                        old(self).spec_data(),
                        old(self).spec_pos() as int,
                        old(self).spec_vector_size() as nat,
                    ) is None
                    &&& final(self).spec_pos() == old(self).spec_pos()
                    &&& final(self).spec_vectors_read() == old(self).spec_vectors_read()
                    &&& final(self).spec_ended_early()
                },
            },
    {
        if self.vectors_read == self.vocabulary_size {
            return None;
        }
        let ghost s = self.data@;
        let ghost pos0 = self.pos as int;
        let ghost d = self.vector_size as nat;
        let len = self.data.len();
        let mut sp: usize = self.pos;
        while sp < len && self.data[sp] != 0x20u8
            invariant
                pos0 <= sp <= len,
                len == s.len(),
                s == self.data@,
                forall|k: int| pos0 <= k < sp ==> s[k] != 0x20u8,
            decreases len - sp,
        {
            sp = sp + 1;
        }
        proof {
            lemma_find_from_eq(s, pos0, sp as int, 0x20u8);
        }
        let vstart: usize = if sp < len {
            sp + 1
        } else {
            len
        };
        // trim the word bytes
        let mut a: usize = self.pos;
        let mut b: usize = sp;
        while a < b && is_ws_byte(self.data[a])
            invariant
                pos0 <= a <= b,
                b == sp <= len,
                len == s.len(),
                s == self.data@,
                trim_start(s.subrange(pos0, sp as int)) == trim_start(
                    s.subrange(a as int, sp as int),
                ),
            decreases b - a,
        {
            proof {
                assert(s.subrange(a as int, sp as int).drop_first() =~= s.subrange(
                    a + 1,
                    sp as int,
                ));
            }
            a = a + 1;
        }
        proof {
            assert(trim_start(s.subrange(pos0, sp as int)) == s.subrange(a as int, sp as int));
        }
        while b > a && is_ws_byte(self.data[b - 1])
            invariant
                pos0 <= a <= b <= sp <= len,
                len == s.len(),
                s == self.data@,
                trim_end(s.subrange(a as int, sp as int)) == trim_end(s.subrange(a as int, b as int)),
            decreases b,
        {
            proof {
                assert(s.subrange(a as int, b as int).drop_last() =~= s.subrange(
                    a as int,
                    b - 1,
                ));
            }
            b = b - 1;
        }
        proof {
            assert(trim_end(s.subrange(a as int, b as int)) == s.subrange(a as int, b as int));
            assert(trim_spec(s.subrange(pos0, sp as int)) == s.subrange(a as int, b as int));
        }
        let mut wb: Vec<u8> = Vec::new();
        let mut k: usize = a;
        while k < b
            invariant
                a <= k <= b <= len,
                len == s.len(),
                s == self.data@,
                wb@ =~= s.subrange(a as int, k as int),
            decreases b - k,
        {
            wb.push(self.data[k]);
            k = k + 1;
        }
        proof {
            assert(wb@ =~= s.subrange(a as int, b as int));
        }
        let word = match utf8_decode_bytes(&wb) {
            None => {
                self.ended_early = true;
                return None;
            },
            Some(w) => w,
        };
        let avail: usize = len - vstart;
        if self.vector_size > avail / 4 {
            proof {
                assert(avail / 4 * 4 <= avail);
                assert(vstart + 4 * (d as int) > len);
            }
            self.ended_early = true;
            return None;
        }
        proof {
            assert(4 * (d as int) <= avail) by {
                assert(avail / 4 * 4 <= avail);
            };
        }
        let mut vector: Vec<u32> = Vec::new();
        let mut j: usize = 0;
        while j < self.vector_size
            invariant
                0 <= j <= self.vector_size,
                d == self.vector_size as nat,
                vstart + 4 * (d as int) <= len,
                len == s.len(),
                s == self.data@,
                vstart <= len,
                vector@.len() == j,
                forall|q: int| 0 <= q < j ==> vector@[q] == le_u32_at(s, vstart + 4 * q),
            decreases self.vector_size - j,
        {
            let p: usize = vstart + 4 * j;
            let x: u32 = (self.data[p] as u32) | ((self.data[p + 1] as u32) << 8u32) | ((self.data[p
                + 2] as u32) << 16u32) | ((self.data[p + 3] as u32) << 24u32);
            vector.push(x);
            j = j + 1;
        }
        proof {
            assert(vector@ =~= floats_at(s, vstart as int, d));
        }
        self.pos = vstart + 4 * self.vector_size;
        self.vectors_read = self.vectors_read + 1;
        proof {
            assert(entry_at(s, pos0, d) == Some(
                (word@, vector@, self.pos as int),
            ));
        }
        Some((word, vector))
    }
}

} // verus!
