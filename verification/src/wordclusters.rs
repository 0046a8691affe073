//! The word-cluster store: a mapping from signed integer cluster ids to the
//! ordered words assigned to them, with lookups in both directions.

use vstd::prelude::*;

use vstd::string::StringSliceAdditionalSpecFns;
use vstd::utf8::{decode_utf8, valid_utf8};

use crate::errors::Word2VecError;
use crate::vectorreader::{
    digits_val, find_from, is_ws, is_ws_byte, token_end, utf8_decode_bytes,
};

verus! {

/// The index past any ASCII whitespace run starting at `i`.
pub open spec fn skip_ws(s: Seq<u8>, i: int) -> int
    decreases s.len() - i,
{
    if i < 0 || i >= s.len() || !is_ws(s[i]) {
        i
    } else {
        skip_ws(s, i + 1)
    }
}

proof fn lemma_skip_ws_eq(s: Seq<u8>, i: int, j: int)
    requires
        0 <= i <= j <= s.len(),
        forall|k: int| i <= k < j ==> is_ws(s[k]),
        j == s.len() || !is_ws(s[j]),
    ensures
        skip_ws(s, i) == j,
    decreases j - i,
{
    if i < j {
        lemma_skip_ws_eq(s, i + 1, j);
    }
}

/// The signed value of a decimal token with an optional sign, or `None`
/// when the token is empty, holds a non-digit, or leaves the 32-bit range.
pub open spec fn parse_i32_tok(t: Seq<u8>) -> Option<i32> {
    let negp = t.len() > 0 && t[0] == 0x2du8;
    let d = if t.len() > 0 && (t[0] == 0x2du8 || t[0] == 0x2bu8) {
        t.subrange(1, t.len() as int)
    } else {
        t
    };
    if d.len() == 0 {
        None
    } else {
        match digits_val(d, 0, 0) {
            Some(v) => if negp {
                if v <= 0x8000_0000nat {
                    Some((-(v as int)) as i32)
                } else {
                    None
                }
            } else {
                if v <= 0x7fff_ffffnat {
                    Some(v as i32)
                } else {
                    None
                }
            },
            None => None,
        }
    }
}

/// The model of a cluster store: ordered `(id, words)` pairs, words in
/// file order within each cluster.
pub open spec fn model_of(cs: Seq<(i32, Vec<String>)>) -> Seq<(i32, Seq<Seq<char>>)> {
    Seq::new(
        cs.len(),
        |i: int| (cs[i].0, Seq::new(cs[i].1@.len(), |j: int| (cs[i].1@[j])@)),
    )
}

/// The index of the first cluster at or after `i` with the id `id`, if any.
pub open spec fn find_id(m: Seq<(i32, Seq<Seq<char>>)>, id: i32, i: int) -> Option<int>
    decreases m.len() - i,
{
    if i < 0 || i >= m.len() {
        None
    } else if m[i].0 == id {
        Some(i)
    } else {
        find_id(m, id, i + 1)
    }
}

/// `w` appended to the cluster with id `id`, which is created at the end
/// when it does not exist yet.
pub open spec fn add_word(m: Seq<(i32, Seq<Seq<char>>)>, id: i32, w: Seq<char>) -> Seq<
    (i32, Seq<Seq<char>>),
> {
    match find_id(m, id, 0) {
        Some(i) => m.update(i, (id, m[i].1.push(w))),
        None => m.push((id, seq![w])),
    }
}

/// One line parsed: `None` for a malformed record (a word whose bytes are
/// not UTF-8, or no parseable id after it), `Some(None)` for a blank line,
/// and `Some(Some((word, id)))` for a record. Tokens past the id are
/// ignored.
pub open spec fn line_record(line: Seq<u8>) -> Option<Option<(Seq<char>, i32)>> {
    let t0s = skip_ws(line, 0);
    if t0s >= line.len() {
        Some(None)
    } else {
        let t0e = token_end(line, t0s);
        let wb = line.subrange(t0s, t0e);
        let t1s = skip_ws(line, t0e);
        if !valid_utf8(wb) {
            None
        } else if t1s >= line.len() {
            None
        } else {
            let t1e = token_end(line, t1s);
            match parse_i32_tok(line.subrange(t1s, t1e)) {
                None => None,
                Some(id) => Some(Some((decode_utf8(wb), id))),
            }
        }
    }
}

/// The cluster model built from the text from `i` on, line by line onto
/// `acc`; `None` when some line is malformed.
pub open spec fn cluster_parse(s: Seq<u8>, i: int, acc: Seq<(i32, Seq<Seq<char>>)>) -> Option<
    Seq<(i32, Seq<Seq<char>>)>,
>
    decreases s.len() - i,
    via cluster_parse_dec
{
    if i < 0 || i >= s.len() {
        Some(acc)
    } else {
        let le = find_from(s, i, 0x0au8);
        let next: int = if le < s.len() {
            le + 1
        } else {
            le
        };
        match line_record(s.subrange(i, le)) {
            None => None,
            Some(None) => cluster_parse(s, next, acc),
            Some(Some(rec)) => cluster_parse(s, next, add_word(acc, rec.1, rec.0)),
        }
    }
}

#[via_fn]
proof fn cluster_parse_dec(s: Seq<u8>, i: int, acc: Seq<(i32, Seq<Seq<char>>)>) {
    if 0 <= i && i < s.len() {
        crate::vectorreader::lemma_find_from(s, i, 0x0au8);
    }
}

/// The id of the first cluster, in store order, whose word list holds `w`,
/// if any.
pub open spec fn cluster_of(m: Seq<(i32, Seq<Seq<char>>)>, w: Seq<char>, i: int) -> Option<i32>
    decreases m.len() - i,
{
    if i < 0 || i >= m.len() {
        None
    } else if m[i].1.contains(w) {
        Some(m[i].0)
    } else {
        cluster_of(m, w, i + 1)
    }
}

/// Forward and inverse lookup agree: when a word belongs to exactly one
/// cluster of the store, the cluster found for that word is the one that
/// lists it.
pub proof fn lemma_cluster_consistency(m: Seq<(i32, Seq<Seq<char>>)>, i: int, w: Seq<char>)
    requires
        0 <= i < m.len(),
        m[i].1.contains(w),
        forall|j: int| 0 <= j < m.len() && j != i ==> !(#[trigger] m[j].1).contains(w),
    ensures
        cluster_of(m, w, 0) == Some(m[i].0),
{
    lemma_cluster_of_from(m, i, w, 0);
}

proof fn lemma_cluster_of_from(m: Seq<(i32, Seq<Seq<char>>)>, i: int, w: Seq<char>, k: int)
    requires
        0 <= k <= i < m.len(),
        m[i].1.contains(w),
        forall|j: int| 0 <= j < m.len() && j != i ==> !(#[trigger] m[j].1).contains(w),
    ensures
        cluster_of(m, w, k) == Some(m[i].0),
    decreases i - k,
{
    if k < i {
        lemma_cluster_of_from(m, i, w, k + 1);
    }
}

proof fn lemma_find_id_none(m: Seq<(i32, Seq<Seq<char>>)>, id: i32, i: int)
    requires
        0 <= i,
        find_id(m, id, i) is None,
    ensures
        forall|j: int| i <= j < m.len() ==> (#[trigger] m[j]).0 != id,
    decreases m.len() - i,
{
    if i < m.len() {
        lemma_find_id_none(m, id, i + 1);
    }
}

/// Parses the signed decimal token `bytes[from..to]` as a 32-bit integer.
fn parse_i32_range(bytes: &[u8], from: usize, to: usize) -> (r: Option<i32>)
    requires
        from <= to <= bytes@.len(),
    ensures
        r == parse_i32_tok(bytes@.subrange(from as int, to as int)),
{
    let ghost t = bytes@.subrange(from as int, to as int);
    let mut negp = false;
    let mut i: usize = from;
    if i < to && bytes[i] == 0x2du8 {
        negp = true;
        i = i + 1;
    } else if i < to && bytes[i] == 0x2bu8 {
        i = i + 1;
    }
    let ghost d = if t.len() > 0 && (t[0] == 0x2du8 || t[0] == 0x2bu8) {
        t.subrange(1, t.len() as int)
    } else {
        t
    };
    proof {
        assert(d =~= bytes@.subrange(i as int, to as int));
    }
    if i == to {
        return None;
    }
    let mut acc: u64 = 0;
    let mut j: usize = i;
    while j < to
        invariant
            from <= i <= j <= to <= bytes@.len(),
            acc <= 0x8000_0000u64,
            d == bytes@.subrange(i as int, to as int),
            i < to,
            t == bytes@.subrange(from as int, to as int),
            d == (if t.len() > 0 && (t[0] == 0x2du8 || t[0] == 0x2bu8) {
                t.subrange(1, t.len() as int)
            } else {
                t
            }),
            negp == (t.len() > 0 && t[0] == 0x2du8),
            digits_val(d, j - i, acc as nat) == digits_val(d, 0, 0),
        decreases to - j,
    {
        let c = bytes[j];
        assert(d[j - i] == c);
        if c < 0x30u8 || c > 0x39u8 {
            proof {
                assert(digits_val(d, j - i, acc as nat) is None);
                assert(digits_val(d, 0, 0) is None);
                assert(d.len() > 0);
                assert(parse_i32_tok(t) is None);
            }
            return None;
        }
        acc = acc * 10 + (c - 0x30u8) as u64;
        if acc > 0x8000_0000u64 {
            proof {
                if digits_val(d, 0, 0) is Some {
                    crate::vectorreader::lemma_digits_val_monotone(d, j + 1 - i, acc as nat);
                }
            }
            return None;
        }
        j = j + 1;
    }
    assert(digits_val(d, j - i, acc as nat) == Some(acc as nat));
    if negp {
        if acc == 0x8000_0000u64 {
            Some(i32::MIN)
        } else {
            Some(-(acc as i32))
        }
    } else {
        if acc > 0x7fff_ffffu64 {
            return None;
        }
        Some(acc as i32)
    }
}


/// A mapping from signed integer cluster ids to the ordered words assigned
/// to them, created once from a cluster text file.
pub struct WordClusters {
    clusters: Vec<(i32, Vec<String>)>,
}

impl WordClusters {
    /// The `(id, words)` pairs, ids in order of first appearance.
    pub closed spec fn model(&self) -> Seq<(i32, Seq<Seq<char>>)> {
        model_of(self.clusters@)
    }

    /// Cluster ids are pairwise distinct.
    #[verifier::type_invariant]
    pub open spec fn wf(&self) -> bool {
        forall|a: int, b: int|
            0 <= a < b < self.model().len() ==> (#[trigger] self.model()[a]).0 != (
            #[trigger] self.model()[b]).0
    }

    /// Builds the store from the text of a cluster file: one record per
    /// line, a word and its signed cluster id, appended to that id's list
    /// in file order; blank lines are skipped, and a malformed record fails
    /// the load.
    pub fn load_from_text(text: &str) -> (r: Result<WordClusters, Word2VecError>)
        ensures
            match r {
                Ok(c) => cluster_parse(text.spec_bytes(), 0, Seq::empty()) == Some(c.model()),
                Err(e) => e == Word2VecError::Decode && cluster_parse(
                    text.spec_bytes(),
                    0,
                    Seq::empty(),
                ) is None,
            },
    {
        let bytes: &[u8] = text.as_bytes();
        let ghost s = text.spec_bytes();
        let len = bytes.len();
        let mut clusters: Vec<(i32, Vec<String>)> = Vec::new();
        proof {
            assert(model_of(clusters@) =~= Seq::<(i32, Seq<Seq<char>>)>::empty());
        }
        let mut i: usize = 0;
        while i < len
            invariant
                0 <= i <= len,
                len == s.len(),
                bytes@ == s,
                s == text.spec_bytes(),
                cluster_parse(s, 0, Seq::empty()) == cluster_parse(s, i as int, model_of(
                    clusters@,
                )),
                forall|a: int, b: int|
                    0 <= a < b < model_of(clusters@).len() ==> (#[trigger] model_of(clusters@)[a]).0
                        != (#[trigger] model_of(clusters@)[b]).0,
            decreases len - i,
        {
            let ghost m0 = model_of(clusters@);
            let mut le: usize = i;
            while le < len && bytes[le] != 0x0au8
                invariant
                    i <= le <= len,
                    len == s.len(),
                    bytes@ == s,
                    forall|k: int| i <= k < le ==> s[k] != 0x0au8,
                decreases len - le,
            {
                le = le + 1;
            }
            proof {
                crate::vectorreader::lemma_find_from_eq(s, i as int, le as int, 0x0au8);
            }
            let next: usize = if le < len {
                le + 1
            } else {
                le
            };
            let ghost line = s.subrange(i as int, le as int);
            let mut t0s: usize = i;
            while t0s < le && is_ws_byte(bytes[t0s])
                invariant
                    i <= t0s <= le <= len,
                    len == s.len(),
                    bytes@ == s,
                    forall|k: int| i <= k < t0s ==> is_ws(s[k]),
                decreases le - t0s,
            {
                t0s = t0s + 1;
            }
            proof {
                lemma_skip_ws_eq(line, 0, t0s - i);
            }
            if t0s == le {
                proof {
                    assert(line_record(line) == Some(None::<(Seq<char>, i32)>));
                }
                i = next;
            } else {
                let mut t0e: usize = t0s;
                while t0e < le && !is_ws_byte(bytes[t0e])
                    invariant
                        t0s <= t0e <= le <= len,
                        len == s.len(),
                        bytes@ == s,
                        forall|k: int| t0s <= k < t0e ==> !is_ws(s[k]),
                    decreases le - t0e,
                {
                    t0e = t0e + 1;
                }
                proof {
                    crate::vectorreader::lemma_token_end_eq(line, t0s - i, t0e - i);
                }
                let mut wb: Vec<u8> = Vec::new();
                let mut k: usize = t0s;
                while k < t0e
                    invariant
                        t0s <= k <= t0e <= le <= len,
                        len == s.len(),
                        bytes@ == s,
                        wb@ =~= s.subrange(t0s as int, k as int),
                    decreases t0e - k,
                {
                    wb.push(bytes[k]);
                    k = k + 1;
                }
                proof {
                    assert(wb@ =~= line.subrange(t0s - i, t0e - i));
                }
                let mut t1s: usize = t0e;
                while t1s < le && is_ws_byte(bytes[t1s])
                    invariant
                        t0e <= t1s <= le <= len,
                        len == s.len(),
                        bytes@ == s,
                        forall|k2: int| t0e <= k2 < t1s ==> is_ws(s[k2]),
                    decreases le - t1s,
                {
                    t1s = t1s + 1;
                }
                proof {
                    lemma_skip_ws_eq(line, t0e - i, t1s - i);
                }
                let word = match utf8_decode_bytes(&wb) {
                    None => {
                        proof {
                            assert(line_record(line) is None);
                            assert(cluster_parse(s, i as int, m0) is None);
                            assert(cluster_parse(s, 0, Seq::<(i32, Seq<Seq<char>>)>::empty())
                                is None);
                        }
                        return Err(Word2VecError::Decode);
                    },
                    Some(w) => w,
                };
                if t1s == le {
                    proof {
                        assert(line_record(line) is None);
                        assert(cluster_parse(s, i as int, m0) is None);
                        assert(cluster_parse(s, 0, Seq::<(i32, Seq<Seq<char>>)>::empty())
                            is None);
                    }
                    return Err(Word2VecError::Decode);
                }
                let mut t1e: usize = t1s;
                while t1e < le && !is_ws_byte(bytes[t1e])
                    invariant
                        t1s <= t1e <= le <= len,
                        len == s.len(),
                        bytes@ == s,
                        forall|k2: int| t1s <= k2 < t1e ==> !is_ws(s[k2]),
                    decreases le - t1e,
                {
                    t1e = t1e + 1;
                }
                proof {
                    crate::vectorreader::lemma_token_end_eq(line, t1s - i, t1e - i);
                    assert(bytes@.subrange(t1s as int, t1e as int) =~= line.subrange(
                        t1s - i,
                        t1e - i,
                    ));
                }
                let id = match parse_i32_range(bytes, t1s, t1e) {
                    None => {
                        proof {
                            assert(line_record(line) is None);
                            assert(cluster_parse(s, i as int, m0) is None);
                            assert(cluster_parse(s, 0, Seq::<(i32, Seq<Seq<char>>)>::empty())
                                is None);
                        }
                        return Err(Word2VecError::Decode);
                    },
                    Some(id) => id,
                };
                proof {
                    assert(line_record(line) == Some(Some((word@, id))));
                }
                let n_cl = clusters.len();
                let mut fopt: Option<usize> = None;
                let mut jj: usize = 0;
                while jj < n_cl && fopt.is_none()
                    invariant
                        0 <= jj <= n_cl,
                        n_cl == clusters@.len(),
                        m0 == model_of(clusters@),
                        match fopt {
                            None => find_id(m0, id, 0) == find_id(m0, id, jj as int),
                            Some(f) => find_id(m0, id, 0) == Some(f as int) && (f as int) < n_cl
                                && m0[f as int].0 == id,
                        },
                    decreases (if fopt is Some {
                        0int
                    } else {
                        1int
                    }), n_cl - jj,
                {
                    if clusters[jj].0 == id {
                        fopt = Some(jj);
                    } else {
                        jj = jj + 1;
                    }
                }
                match fopt {
                    Some(f) => {
                        let entry = &mut clusters[f];
                        entry.1.push(word);
                        proof {
                            let fi = f as int;
                            assert forall|q: int|
                                0 <= q < model_of(clusters@).len() implies model_of(clusters@)[q]
                                == add_word(m0, id, word@)[q] by {
                                if q == fi {
                                    assert(Seq::new(
                                        clusters@[fi].1@.len(),
                                        |j: int| (clusters@[fi].1@[j])@,
                                    ) =~= m0[fi].1.push(word@));
                                }
                            }
                            assert(model_of(clusters@) =~= add_word(m0, id, word@));
                            assert(forall|q: int|
                                0 <= q < m0.len() ==> (#[trigger] add_word(m0, id, word@)[q]).0
                                    == m0[q].0);
                        }
                    },
                    None => {
                        proof {
                            lemma_find_id_none(m0, id, 0);
                        }
                        clusters.push((id, vec![word]));
                        proof {
                            assert forall|q: int|
                                0 <= q < model_of(clusters@).len() implies model_of(clusters@)[q]
                                == add_word(m0, id, word@)[q] by {
                                if q == m0.len() {
                                    assert(Seq::new(
                                        clusters@[q].1@.len(),
                                        |j: int| (clusters@[q].1@[j])@,
                                    ) =~= seq![word@]);
                                }
                            }
                            assert(model_of(clusters@) =~= add_word(m0, id, word@));
                            assert(forall|q: int|
                                0 <= q < m0.len() ==> (#[trigger] add_word(m0, id, word@)[q]).0
                                    == m0[q].0);
                            assert(add_word(m0, id, word@)[m0.len() as int].0 == id);
                        }
                    },
                }
                i = next;
            }
        }
        proof {
            assert(cluster_parse(s, i as int, model_of(clusters@)) == Some(model_of(clusters@)));
        }
        let c = WordClusters { clusters };
        Ok(c)
    }

    /// Get the words assigned to the given cluster id, in file order;
    /// absent when the id is unknown.
    pub fn get_words_on_cluster(&self, index: i32) -> (r: Option<&Vec<String>>)
        ensures
            match r {
                Some(v) => {
                    &&& find_id(self.model(), index, 0) matches Some(ci)
                    &&& Seq::new(v@.len(), |j: int| (v@[j])@) == self.model()[find_id(
                        self.model(),
                        index,
                        0,
                    ).unwrap()].1
                },
                None => find_id(self.model(), index, 0) is None,
            },
    {
        let n = self.clusters.len();
        let mut i: usize = 0;
        while i < n
            invariant
                0 <= i <= n,
                n == self.clusters@.len(),
                find_id(self.model(), index, 0) == find_id(self.model(), index, i as int),
            decreases n - i,
        {
            if self.clusters[i].0 == index {
                proof {
                    assert(self.model()[i as int].0 == index);
                    assert(Seq::new(
                        self.clusters@[i as int].1@.len(),
                        |j: int| (self.clusters@[i as int].1@[j])@,
                    ) == self.model()[i as int].1);
                }
                return Some(&self.clusters[i].1);
            }
            proof {
                assert(self.model()[i as int].0 == self.clusters@[i as int].0);
            }
            i = i + 1;
        }
        None
    }

    /// Get the id of the first cluster whose word list holds the given
    /// word, scanning clusters in order of first appearance; absent when no
    /// cluster lists it.
    pub fn get_cluster(&self, word: &str) -> (r: Option<&i32>)
        ensures
            match r {
                Some(id) => cluster_of(self.model(), word@, 0) == Some(*id),
                None => cluster_of(self.model(), word@, 0) is None,
            },
    {
        let wkey: String = word.to_owned();
        let n = self.clusters.len();
        let mut i: usize = 0;
        while i < n
            invariant
                0 <= i <= n,
                n == self.clusters@.len(),
                wkey@ == word@,
                cluster_of(self.model(), word@, 0) == cluster_of(self.model(), word@, i as int),
            decreases n - i,
        {
            let hit = crate::wordvectors::contains_string(&self.clusters[i].1, &wkey);
            proof {
                let m = self.model();
                if hit {
                    let j = choose|j: int|
                        0 <= j < self.clusters@[i as int].1@.len() && (self.clusters@[i
                            as int].1@[j])@ == word@;
                    assert(m[i as int].1[j] == word@);
                    assert(m[i as int].1.contains(word@));
                } else {
                    if m[i as int].1.contains(word@) {
                        let j = choose|j: int|
                            0 <= j < m[i as int].1.len() && m[i as int].1[j] == word@;
                        assert((self.clusters@[i as int].1@[j])@ == word@);
                        assert(false);
                    }
                }
                assert(hit == m[i as int].1.contains(word@));
            }
            if hit {
                proof {
                    assert(self.model()[i as int].0 == self.clusters@[i as int].0);
                }
                return Some(&self.clusters[i].0);
            }
            i = i + 1;
        }
        None
    }
}

} // verus!
