//! The in-memory word vector space: an ordered vocabulary of words with
//! unit-norm binary32 vectors, with lookup, cosine top-k and analogy top-k.

use vstd::prelude::*;

use crate::errors::Word2VecError;
use crate::numeric::{bits_neg, neg_bits, sort_key, sort_key_bits};
use crate::utils::{dot_product, dot_spec, mean, mean_spec, normalized, vector_norm};
use crate::vectorreader::{entry_at, header_spec, WordVectorReader};

verus! {

/// The index of the first vocabulary entry at or after `i` whose word is
/// `w`, if any.
pub open spec fn first_match(voc: Seq<(String, Vec<u32>)>, w: Seq<char>, i: int) -> Option<int>
    decreases voc.len() - i,
{
    if i < 0 || i >= voc.len() {
        None
    } else if voc[i].0@ == w {
        Some(i)
    } else {
        first_match(voc, w, i + 1)
    }
}

/// The raw `(word, vector)` entries a reader yields from `pos` on: at most
/// `remaining` of them, ending early where an entry fails to parse.
pub open spec fn entries_from(s: Seq<u8>, pos: int, d: nat, remaining: nat) -> Seq<
    (Seq<char>, Seq<u32>),
>
    decreases remaining,
{
    if remaining == 0 {
        Seq::empty()
    } else {
        match entry_at(s, pos, d) {
            None => Seq::empty(),
            Some(e) => seq![(e.0, e.1)] + entries_from(s, e.2, d, (remaining - 1) as nat),
        }
    }
}

/// Whether the scored pairs are ranked: score keys never increase from one
/// position to a later one.
pub open spec fn sorted_desc(t: Seq<(usize, u32)>) -> bool {
    forall|i: int, j: int|
        0 <= i <= j < t.len() ==> sort_key(#[trigger] t[i].1) >= sort_key(#[trigger] t[j].1)
}

/// `x` placed into the ranked sequence `t`: `x` moves left past exactly the
/// entries whose score key is strictly below its own, so equal scores keep
/// their insertion order (a stable descending sort).
pub open spec fn insert_desc(t: Seq<(usize, u32)>, x: (usize, u32)) -> Seq<(usize, u32)>
    decreases t.len(),
{
    if t.len() == 0 {
        seq![x]
    } else if sort_key(x.1) > sort_key(t.last().1) {
        insert_desc(t.drop_last(), x).push(t.last())
    } else {
        t.push(x)
    }
}

/// The scored pairs ranked by descending score key, stably: the unique
/// result of inserting each pair in turn.
pub open spec fn rank_desc(s: Seq<(usize, u32)>) -> Seq<(usize, u32)>
    decreases s.len(),
{
    if s.len() == 0 {
        Seq::empty()
    } else {
        insert_desc(rank_desc(s.drop_last()), s.last())
    }
}

proof fn lemma_insert_desc_at(t: Seq<(usize, u32)>, x: (usize, u32), p: int)
    requires
        0 <= p <= t.len(),
        forall|j: int| p <= j < t.len() ==> sort_key(x.1) > sort_key(#[trigger] t[j].1),
        p > 0 ==> !(sort_key(x.1) > sort_key(t[p - 1].1)),
    ensures
        insert_desc(t, x) == t.subrange(0, p) + seq![x] + t.subrange(p, t.len() as int),
    decreases t.len() - p,
{
    if p == t.len() {
        if t.len() == 0 {
            assert(insert_desc(t, x) =~= t.subrange(0, p) + seq![x] + t.subrange(
                p,
                t.len() as int,
            ));
        } else {
            assert(insert_desc(t, x) =~= t.subrange(0, p) + seq![x] + t.subrange(
                p,
                t.len() as int,
            ));
        }
    } else {
        let dl = t.drop_last();
        assert(sort_key(x.1) > sort_key(t.last().1));
        assert(forall|j: int| p <= j < dl.len() ==> sort_key(x.1) > sort_key(#[trigger] dl[j].1));
        if p > 0 {
            assert(dl[p - 1] == t[p - 1]);
        }
        lemma_insert_desc_at(dl, x, p);
        assert(insert_desc(t, x) =~= t.subrange(0, p) + seq![x] + t.subrange(p, t.len() as int));
    }
}

proof fn lemma_insert_desc_props(t: Seq<(usize, u32)>, x: (usize, u32))
    ensures
        insert_desc(t, x).len() == t.len() + 1,
        forall|k: int|
            0 <= k < insert_desc(t, x).len() ==> insert_desc(t, x)[k] == x || t.contains(
                #[trigger] insert_desc(t, x)[k],
            ),
        sorted_desc(t) ==> sorted_desc(insert_desc(t, x)),
    decreases t.len(),
{
    if t.len() == 0 {
    } else if sort_key(x.1) > sort_key(t.last().1) {
        let dl = t.drop_last();
        lemma_insert_desc_props(dl, x);
        let v = insert_desc(dl, x);
        let u = insert_desc(t, x);
        assert(u == v.push(t.last()));
        assert(forall|k: int|
            0 <= k < u.len() ==> u[k] == x || t.contains(#[trigger] u[k])) by {
            assert forall|k: int| 0 <= k < u.len() implies u[k] == x || t.contains(
                #[trigger] u[k],
            ) by {
                if k < v.len() {
                    assert(u[k] == v[k]);
                    if v[k] != x {
                        assert(dl.contains(v[k]));
                        let j = choose|j: int| 0 <= j < dl.len() && dl[j] == v[k];
                        assert(t[j] == v[k]);
                    }
                } else {
                    assert(u[k] == t.last());
                    assert(t.contains(t.last()));
                }
            }
        }
        if sorted_desc(t) {
            assert(sorted_desc(dl));
            assert forall|i: int, j: int| 0 <= i <= j < u.len() implies sort_key(
                #[trigger] u[i].1,
            ) >= sort_key(#[trigger] u[j].1) by {
                if j < v.len() {
                } else {
                    // u[j] is t.last(); every earlier element is x or drawn
                    // from t, and both have keys at or above its own
                    if i < v.len() {
                        if v[i] == x {
                        } else {
                            assert(dl.contains(v[i]));
                            let q = choose|q: int| 0 <= q < dl.len() && dl[q] == v[i];
                            assert(sort_key(t[q].1) >= sort_key(t.last().1));
                        }
                    }
                }
            }
        }
    } else {
        let u = t.push(x);
        assert(forall|k: int| 0 <= k < t.len() ==> t.contains(#[trigger] t[k]));
        if sorted_desc(t) {
            assert forall|i: int, j: int| 0 <= i <= j < u.len() implies sort_key(
                #[trigger] u[i].1,
            ) >= sort_key(#[trigger] u[j].1) by {
                if j == t.len() && i < t.len() {
                    if t.len() > 0 {
                        assert(sort_key(t[i].1) >= sort_key(t.last().1));
                    }
                }
            }
        }
    }
}

/// The ranking of scored pairs is sorted: score keys never increase along
/// the result, the result has one entry per input pair, and every entry of
/// it is an input pair.
pub proof fn lemma_rank_desc_sorted(s: Seq<(usize, u32)>)
    ensures
        sorted_desc(rank_desc(s)),
        rank_desc(s).len() == s.len(),
        forall|k: int| 0 <= k < rank_desc(s).len() ==> s.contains(#[trigger] rank_desc(s)[k]),
    decreases s.len(),
{
    if s.len() > 0 {
        let dl = s.drop_last();
        lemma_rank_desc_sorted(dl);
        lemma_insert_desc_props(rank_desc(dl), s.last());
        let u = rank_desc(s);
        assert forall|k: int| 0 <= k < u.len() implies s.contains(#[trigger] u[k]) by {
            if u[k] == s.last() {
                assert(s[s.len() - 1] == s.last());
            } else {
                assert(rank_desc(dl).contains(u[k]));
                let j = choose|j: int| 0 <= j < rank_desc(dl).len() && rank_desc(dl)[j] == u[k];
                assert(dl.contains(u[k]));
                let q = choose|q: int| 0 <= q < dl.len() && dl[q] == u[k];
                assert(s[q] == u[k]);
            }
        }
    }
}

/// Ranks the scored pairs by descending score key with a stable insertion
/// sort.
fn rank_pairs(scores: Vec<(usize, u32)>) -> (r: Vec<(usize, u32)>)
    ensures
        r@ == rank_desc(scores@),
{
    let n = scores.len();
    let mut ranked: Vec<(usize, u32)> = Vec::new();
    let mut i: usize = 0;
    while i < n
        invariant
            0 <= i <= n,
            n == scores@.len(),
            ranked@ == rank_desc(scores@.take(i as int)),
        decreases n - i,
    {
        let x = scores[i];
        let mut p: usize = ranked.len();
        while p > 0 && sort_key_bits(x.1) > sort_key_bits(ranked[p - 1].1)
            invariant
                0 <= p <= ranked@.len(),
                forall|j: int|
                    p <= j < ranked@.len() ==> sort_key(x.1) > sort_key(#[trigger] ranked@[j].1),
            decreases p,
        {
            p = p - 1;
        }
        proof {
            lemma_insert_desc_at(ranked@, x, p as int);
        }
        ranked.insert(p, x);
        proof {
            assert(ranked@ =~= insert_desc(rank_desc(scores@.take(i as int)), x));
            assert(scores@.take(i + 1).drop_last() =~= scores@.take(i as int));
            assert(scores@.take(i + 1).last() == x);
        }
        i = i + 1;
    }
    proof {
        assert(scores@.take(n as int) =~= scores@);
    }
    ranked
}

proof fn lemma_insert_desc_multiset(t: Seq<(usize, u32)>, x: (usize, u32))
    ensures
        insert_desc(t, x).to_multiset() == t.to_multiset().insert(x),
    decreases t.len(),
{
    broadcast use vstd::seq_lib::group_to_multiset_ensures;

    if t.len() == 0 {
        assert(seq![x] =~= Seq::<(usize, u32)>::empty().push(x));
        assert(insert_desc(t, x).to_multiset() =~= t.to_multiset().insert(x));
    } else if sort_key(x.1) > sort_key(t.last().1) {
        let dl = t.drop_last();
        lemma_insert_desc_multiset(dl, x);
        assert(t =~= dl.push(t.last()));
        assert(insert_desc(t, x).to_multiset() =~= t.to_multiset().insert(x));
    } else {
        assert(insert_desc(t, x).to_multiset() =~= t.to_multiset().insert(x));
    }
}

/// The ranking is a permutation: ranked and unranked scores form the same
/// multiset of pairs.
pub proof fn lemma_rank_desc_permutes(s: Seq<(usize, u32)>)
    ensures
        rank_desc(s).to_multiset() == s.to_multiset(),
    decreases s.len(),
{
    broadcast use vstd::seq_lib::group_to_multiset_ensures;

    if s.len() > 0 {
        let dl = s.drop_last();
        lemma_rank_desc_permutes(dl);
        lemma_insert_desc_multiset(rank_desc(dl), s.last());
        assert(s =~= dl.push(s.last()));
        assert(rank_desc(s).to_multiset() =~= s.to_multiset());
    }
}

/// Whether the indices of the scored pairs are pairwise distinct.
pub open spec fn distinct_indices(t: Seq<(usize, u32)>) -> bool {
    forall|a: int, b: int|
        0 <= a < b < t.len() ==> (#[trigger] t[a]).0 != (#[trigger] t[b]).0
}

proof fn lemma_insert_desc_distinct(t: Seq<(usize, u32)>, x: (usize, u32))
    requires
        distinct_indices(t),
        forall|k: int| 0 <= k < t.len() ==> (#[trigger] t[k]).0 != x.0,
    ensures
        distinct_indices(insert_desc(t, x)),
    decreases t.len(),
{
    if t.len() == 0 {
    } else if sort_key(x.1) > sort_key(t.last().1) {
        let dl = t.drop_last();
        lemma_insert_desc_props(dl, x);
        lemma_insert_desc_distinct(dl, x);
        let v = insert_desc(dl, x);
        let u = insert_desc(t, x);
        assert(u == v.push(t.last()));
        assert forall|a: int, b: int| 0 <= a < b < u.len() implies (#[trigger] u[a]).0 != (
        #[trigger] u[b]).0 by {
            if b == v.len() {
                assert(u[b] == t.last());
                if v[a] != x {
                    assert(dl.contains(v[a]));
                    let q = choose|q: int| 0 <= q < dl.len() && dl[q] == v[a];
                    assert(t[q].0 != t[t.len() - 1].0);
                }
            }
        }
    } else {
        let u = t.push(x);
        assert forall|a: int, b: int| 0 <= a < b < u.len() implies (#[trigger] u[a]).0 != (
        #[trigger] u[b]).0 by {
            if b == t.len() {
                assert(u[a] == t[a]);
            }
        }
    }
}

/// Ranking keeps the indices of the scored pairs pairwise distinct.
pub proof fn lemma_rank_desc_distinct(s: Seq<(usize, u32)>)
    requires
        distinct_indices(s),
    ensures
        distinct_indices(rank_desc(s)),
    decreases s.len(),
{
    if s.len() > 0 {
        let dl = s.drop_last();
        assert(distinct_indices(dl)) by {
            assert(forall|a: int, b: int|
                0 <= a < b < dl.len() ==> (#[trigger] dl[a]).0 != (#[trigger] dl[b]).0) by {
                assert(forall|a: int, b: int|
                    0 <= a < b < dl.len() ==> dl[a] == s[a] && dl[b] == s[b]);
            }
        }
        lemma_rank_desc_distinct(dl);
        lemma_rank_desc_sorted(dl);
        assert forall|k: int| 0 <= k < rank_desc(dl).len() implies (#[trigger] rank_desc(
            dl,
        )[k]).0 != s.last().0 by {
            assert(dl.contains(rank_desc(dl)[k]));
            let q = choose|q: int| 0 <= q < dl.len() && dl[q] == rank_desc(dl)[k];
            assert(s[q].0 != s[s.len() - 1].0);
        }
        lemma_insert_desc_distinct(rank_desc(dl), s.last());
    }
}

/// The self match leads the cosine ranking. When the query word is stored
/// exactly once, at `qi`, and the key of its self-similarity score strictly
/// exceeds the key of every other entry's score, the top-ranked pair is the
/// query's own entry, and no later pair points at it or carries its word —
/// so the results, drawn from the ranking after the top element, never hold
/// the query word. An input on which the premise fails (two copies of one
/// vector, say) can rank another entry first.
pub proof fn lemma_cosine_excludes_query(voc: Seq<(String, Vec<u32>)>, qi: int)
    requires
        voc.len() <= usize::MAX,
        0 <= qi < voc.len(),
        forall|i: int|
            0 <= i < voc.len() && i != qi ==> (#[trigger] voc[i]).0@ != voc[qi].0@,
        forall|i: int|
            0 <= i < voc.len() && i != qi ==> sort_key(
                dot_spec((#[trigger] voc[i]).1@, voc[qi].1@),
            ) < sort_key(dot_spec(voc[qi].1@, voc[qi].1@)),
    ensures
        rank_desc(WordVector::scores_spec(voc, voc[qi].1@))[0] == (
            qi as usize,
            dot_spec(voc[qi].1@, voc[qi].1@),
        ),
        forall|k: int|
            1 <= k < rank_desc(WordVector::scores_spec(voc, voc[qi].1@)).len() ==> ((
            #[trigger] rank_desc(WordVector::scores_spec(voc, voc[qi].1@))[k]).0 as int) != qi
                && voc[rank_desc(WordVector::scores_spec(voc, voc[qi].1@))[k].0 as int].0@
                != voc[qi].0@,
{
    broadcast use vstd::seq_lib::group_to_multiset_ensures;

    let s = WordVector::scores_spec(voc, voc[qi].1@);
    let r = rank_desc(s);
    lemma_rank_desc_sorted(s);
    lemma_rank_desc_permutes(s);
    assert(distinct_indices(s)) by {
        assert(forall|a: int, b: int|
            0 <= a < b < s.len() ==> (#[trigger] s[a]).0 == a as usize && (#[trigger] s[b]).0 == b
                as usize);
    }
    lemma_rank_desc_distinct(s);
    let qpair = (qi as usize, dot_spec(voc[qi].1@, voc[qi].1@));
    assert(s[qi] == qpair);
    assert(s.contains(qpair));
    assert(r.to_multiset().count(qpair) > 0);
    assert(r.contains(qpair));
    let p = choose|p: int| 0 <= p < r.len() && r[p] == qpair;
    assert(s.contains(r[0]));
    let j0 = choose|j0: int| 0 <= j0 < s.len() && s[j0] == r[0];
    if j0 != qi {
        assert(sort_key(r[0].1) < sort_key(qpair.1));
        assert(sort_key(r[0].1) >= sort_key(r[p].1));
        assert(false);
    }
    assert(r[0] == qpair);
    assert forall|k: int| 1 <= k < r.len() implies ((#[trigger] r[k]).0 as int) != qi && voc[r[k].0
        as int].0@ != voc[qi].0@ by {
        assert(r[0].0 != r[k].0);
        assert(s.contains(r[k]));
        let q2 = choose|q2: int| 0 <= q2 < s.len() && s[q2] == r[k];
        assert(s[q2].0 == q2 as usize);
        assert((r[k].0 as int) == q2);
        assert(voc[q2].0@ != voc[qi].0@);
    }
}

/// The character sequences of a list of words.
pub open spec fn deep_words(ws: Seq<&str>) -> Seq<Seq<char>> {
    Seq::new(ws.len(), |i: int| ws[i]@)
}

/// The component-wise binary32 negation of a vector.
pub open spec fn neg_vec(v: Seq<u32>) -> Seq<u32> {
    Seq::new(v.len(), |i: int| bits_neg(v[i]))
}

/// The stored vectors of the query words found in the vocabulary, in query
/// order; missing words contribute nothing.
pub open spec fn contrib_pos(voc: Seq<(String, Vec<u32>)>, ws: Seq<Seq<char>>) -> Seq<Seq<u32>>
    decreases ws.len(),
{
    if ws.len() == 0 {
        Seq::empty()
    } else {
        let rest = contrib_pos(voc, ws.drop_last());
        match first_match(voc, ws.last(), 0) {
            Some(i) => rest.push(voc[i].1@),
            None => rest,
        }
    }
}

/// As `contrib_pos`, but each found vector is negated component-wise.
pub open spec fn contrib_neg(voc: Seq<(String, Vec<u32>)>, ws: Seq<Seq<char>>) -> Seq<Seq<u32>>
    decreases ws.len(),
{
    if ws.len() == 0 {
        Seq::empty()
    } else {
        let rest = contrib_neg(voc, ws.drop_last());
        match first_match(voc, ws.last(), 0) {
            Some(i) => rest.push(neg_vec(voc[i].1@)),
            None => rest,
        }
    }
}

/// The column of the contributing vectors at dimension `i`.
pub open spec fn col(vs: Seq<Seq<u32>>, i: int) -> Seq<u32> {
    Seq::new(vs.len(), |j: int| vs[j][i])
}

/// The per-dimension binary32 mean of the contributing vectors.
pub open spec fn mean_vec(vs: Seq<Seq<u32>>, d: nat) -> Seq<u32> {
    Seq::new(d, |i: int| mean_spec(col(vs, i)))
}

/// Whether the word `w` is among the query words and so barred from the
/// results.
pub open spec fn excluded(posw: Seq<Seq<char>>, negw: Seq<Seq<char>>, w: Seq<char>) -> bool {
    posw.contains(w) || negw.contains(w)
}

/// The ranked pairs that survive removing every entry whose word is a query
/// word, in ranked order.
pub open spec fn survivors(
    t: Seq<(usize, u32)>,
    voc: Seq<(String, Vec<u32>)>,
    posw: Seq<Seq<char>>,
    negw: Seq<Seq<char>>,
) -> Seq<(usize, u32)>
    decreases t.len(),
{
    if t.len() == 0 {
        Seq::empty()
    } else {
        let rest = survivors(t.drop_last(), voc, posw, negw);
        if !excluded(posw, negw, voc[t.last().0 as int].0@) {
            rest.push(t.last())
        } else {
            rest
        }
    }
}

/// What filtering keeps: every survivor is an entry of the ranked input
/// whose word is no query word, and a ranked input yields ranked survivors.
pub proof fn lemma_survivors(
    t: Seq<(usize, u32)>,
    voc: Seq<(String, Vec<u32>)>,
    posw: Seq<Seq<char>>,
    negw: Seq<Seq<char>>,
)
    ensures
        survivors(t, voc, posw, negw).len() <= t.len(),
        forall|k: int|
            0 <= k < survivors(t, voc, posw, negw).len() ==> t.contains(
                #[trigger] survivors(t, voc, posw, negw)[k],
            ),
        forall|k: int|
            0 <= k < survivors(t, voc, posw, negw).len() ==> !excluded(
                posw,
                negw,
                voc[(#[trigger] survivors(t, voc, posw, negw)[k]).0 as int].0@,
            ),
        sorted_desc(t) ==> sorted_desc(survivors(t, voc, posw, negw)),
    decreases t.len(),
{
    if t.len() > 0 {
        let dl = t.drop_last();
        lemma_survivors(dl, voc, posw, negw);
        let v = survivors(dl, voc, posw, negw);
        let u = survivors(t, voc, posw, negw);
        assert(forall|k: int| 0 <= k < v.len() ==> dl.contains(#[trigger] v[k]));
        assert forall|k: int| 0 <= k < u.len() implies t.contains(#[trigger] u[k]) by {
            if k < v.len() {
                assert(dl.contains(v[k]));
                let j = choose|j: int| 0 <= j < dl.len() && dl[j] == v[k];
                assert(t[j] == u[k]);
            } else {
                assert(u[k] == t.last());
                assert(t[t.len() - 1] == t.last());
            }
        }
        if sorted_desc(t) {
            assert(sorted_desc(dl));
            assert forall|i: int, j: int| 0 <= i <= j < u.len() implies sort_key(
                #[trigger] u[i].1,
            ) >= sort_key(#[trigger] u[j].1) by {
                if j < v.len() {
                } else if j == v.len() && u.len() > v.len() {
                    if i < j {
                        assert(dl.contains(v[i]));
                        let q = choose|q: int| 0 <= q < dl.len() && dl[q] == v[i];
                        assert(sort_key(t[q].1) >= sort_key(t.last().1));
                    }
                }
            }
        }
    }
}

/// Whether some element of `v` is the word `w`.
pub(crate) fn contains_string(v: &Vec<String>, w: &String) -> (r: bool)
    ensures
        r == exists|j: int| 0 <= j < v@.len() && (#[trigger] v@[j])@ == w@,
{
    let n = v.len();
    let mut i: usize = 0;
    while i < n
        invariant
            0 <= i <= n,
            n == v@.len(),
            forall|j: int| 0 <= j < i ==> (#[trigger] v@[j])@ != w@,
        decreases n - i,
    {
        if v[i] == *w {
            return true;
        }
        i = i + 1;
    }
    false
}

/// Representation of a word vector space.
///
/// Each word of a vocabulary is represented by a vector; all entries are
/// kept in source order, with each stored vector already L2-normalized.
pub struct WordVector {
    vocabulary: Vec<(String, Vec<u32>)>,
    vector_size: usize,
}

impl WordVector {
    /// The ordered vocabulary of `(word, vector)` entries.
    pub closed spec fn spec_vocab(&self) -> Seq<(String, Vec<u32>)> {
        self.vocabulary@
    }

    /// The declared dimensionality.
    pub closed spec fn spec_vector_size(&self) -> usize {
        self.vector_size
    }

    /// Every stored vector has the declared dimensionality.
    #[verifier::type_invariant]
    pub open spec fn wf(&self) -> bool {
        forall|i: int|
            0 <= i < self.spec_vocab().len() ==> (#[trigger] self.spec_vocab()[i]).1@.len()
                == self.spec_vector_size()
    }

    /// Builds the store from the bytes of a word2vec binary file: parses the
    /// header, then drains the entries, normalizing each vector as it
    /// arrives. A truncated body yields a shorter store, never an error.
    pub fn load_from_reader(data: Vec<u8>) -> (r: Result<WordVector, Word2VecError>)
        ensures
            match r {
                Ok(m) => {
                    &&& header_spec(data@) matches Some(h)
                    &&& m.spec_vector_size() == h.1
                    &&& {
                        let es = entries_from(data@, h.2, h.1 as nat, h.0 as nat);
                        &&& m.spec_vocab().len() == es.len()
                        &&& m.spec_vocab().len() <= h.0
                        &&& forall|i: int|
                            0 <= i < es.len() ==> (#[trigger] m.spec_vocab()[i]).0@ == es[i].0
                                && m.spec_vocab()[i].1@ == normalized(es[i].1)
                    }
                },
                Err(e) => e == Word2VecError::WrongHeader && header_spec(data@) is None,
            },
    {
        let ghost s = data@;
        let mut reader = match WordVectorReader::new_from_reader(data) {
            Err(e) => {
                return Err(e);
            },
            Ok(rd) => rd,
        };
        let ghost h = header_spec(s).unwrap();
        let vector_size = reader.vector_size();
        let vocab_count = reader.vocabulary_size();
        let ghost d = vector_size as nat;
        let ghost es = entries_from(s, h.2, d, vocab_count as nat);
        let mut vocabulary: Vec<(String, Vec<u32>)> = Vec::new();
        let ghost mut raw: Seq<(Seq<char>, Seq<u32>)> = Seq::empty();
        let mut done = false;
        while !done
            invariant
                reader.wf(),
                reader.spec_data() == s,
                reader.spec_vocabulary_size() == vocab_count,
                reader.spec_vector_size() == vector_size,
                d == vector_size as nat,
                es == entries_from(s, h.2, d, vocab_count as nat),
                raw.len() == vocabulary@.len(),
                reader.spec_vectors_read() == vocabulary@.len(),
                !done ==> es == raw + entries_from(
                    s,
                    reader.spec_pos() as int,
                    d,
                    (vocab_count - reader.spec_vectors_read()) as nat,
                ),
                done ==> es == raw,
                forall|i: int|
                    0 <= i < raw.len() ==> (#[trigger] vocabulary@[i]).0@ == raw[i].0
                        && vocabulary@[i].1@ == normalized(raw[i].1),
                forall|i: int| 0 <= i < raw.len() ==> (#[trigger] raw[i]).1.len() == d,
            decreases (if done {
                0int
            } else {
                1int
            }), vocab_count - reader.spec_vectors_read(),
        {
            let ghost pos_before = reader.spec_pos() as int;
            let ghost read_before = reader.spec_vectors_read();
            match reader.next_entry() {
                None => {
                    proof {
                        if read_before < vocab_count {
                            assert(entries_from(
                                s,
                                pos_before,
                                d,
                                (vocab_count - read_before) as nat,
                            ) =~= Seq::<(Seq<char>, Seq<u32>)>::empty());
                        }
                    }
                    done = true;
                },
                Some((word, mut vector)) => {
                    let ghost rawv = vector@;
                    proof {
                        assert(entries_from(s, pos_before, d, (vocab_count - read_before) as nat)
                            == seq![(word@, rawv)] + entries_from(
                            s,
                            reader.spec_pos() as int,
                            d,
                            (vocab_count - read_before - 1) as nat,
                        ));
                    }
                    vector_norm(&mut vector);
                    vocabulary.push((word, vector));
                    proof {
                        raw = raw + seq![(word@, rawv)];
                    }
                },
            }
        }
        proof {
            reader.lemma_wf_bounds();
            assert(forall|i: int|
                0 <= i < vocabulary@.len() ==> (#[trigger] vocabulary@[i]).1@.len()
                    == vector_size);
        }
        let m = WordVector { vocabulary, vector_size };
        Ok(m)
    }

    /// The index of the first entry whose word is `word`, if any.
    fn get_index(&self, word: &str) -> (r: Option<usize>)
        ensures
            match r {
                Some(i) => first_match(self.spec_vocab(), word@, 0) == Some(i as int) && (
                i as int) < self.spec_vocab().len(),
                None => first_match(self.spec_vocab(), word@, 0) is None,
            },
    {
        let wkey: String = word.to_owned();
        let n = self.vocabulary.len();
        let mut i: usize = 0;
        while i < n
            invariant
                0 <= i <= n,
                n == self.spec_vocab().len(),
                wkey@ == word@,
                first_match(self.spec_vocab(), word@, 0) == first_match(
                    self.spec_vocab(),
                    word@,
                    i as int,
                ),
            decreases n - i,
        {
            if self.vocabulary[i].0 == wkey {
                return Some(i);
            }
            i = i + 1;
        }
        None
    }

    /// Get the stored (unit-norm) vector for the given word: a linear scan,
    /// case-sensitive and exact; absent when the word is unknown.
    pub fn get_vector(&self, word: &str) -> (r: Option<&Vec<u32>>)
        ensures
            match r {
                Some(v) => {
                    &&& first_match(self.spec_vocab(), word@, 0) matches Some(i)
                    &&& v@ == self.spec_vocab()[first_match(
                        self.spec_vocab(),
                        word@,
                        0,
                    ).unwrap()].1@
                    &&& v@.len() == self.spec_vector_size()
                },
                None => first_match(self.spec_vocab(), word@, 0) is None,
            },
    {
        proof {
            use_type_invariant(&*self);
        }
        match self.get_index(word) {
            Some(i) => Some(&self.vocabulary[i].1),
            None => None,
        }
    }

    /// Every vocabulary entry scored against the query vector `q` by a
    /// binary32 dot product, paired with its index.
    pub open spec fn scores_spec(voc: Seq<(String, Vec<u32>)>, q: Seq<u32>) -> Seq<(usize, u32)> {
        Seq::new(voc.len(), |i: int| (i as usize, dot_spec(voc[i].1@, q)))
    }

    /// Scores every vocabulary entry against `q`.
    fn compute_scores(&self, q: &Vec<u32>) -> (r: Vec<(usize, u32)>)
        ensures
            r@ == Self::scores_spec(self.spec_vocab(), q@),
    {
        let n = self.vocabulary.len();
        let mut scores: Vec<(usize, u32)> = Vec::new();
        let mut i: usize = 0;
        while i < n
            invariant
                0 <= i <= n,
                n == self.spec_vocab().len(),
                scores@.len() == i,
                forall|j: int|
                    0 <= j < i ==> #[trigger] scores@[j] == (j as usize, dot_spec(
                        self.spec_vocab()[j].1@,
                        q@,
                    )),
            decreases n - i,
        {
            scores.push((i, dot_product(&self.vocabulary[i].1, q)));
            i = i + 1;
        }
        proof {
            assert(scores@ =~= Self::scores_spec(self.spec_vocab(), q@));
        }
        scores
    }

    /// Compute cosine similarity to the closest words.
    ///
    /// Absent when `word` is unknown. Otherwise every entry is scored by a
    /// dot product with the word's stored unit-norm vector, the pairs are
    /// ranked by descending score (stably, so ties keep vocabulary order),
    /// the top entry is dropped as the self match, and the next `n` pairs
    /// are returned — fewer when the vocabulary runs out.
    pub fn cosine(&self, word: &str, n: usize) -> (r: Option<Vec<(String, u32)>>)
        ensures
            match r {
                None => first_match(self.spec_vocab(), word@, 0) is None,
                Some(res) => {
                    &&& first_match(self.spec_vocab(), word@, 0) matches Some(qi)
                    &&& {
                        let ranked = rank_desc(
                            Self::scores_spec(self.spec_vocab(), self.spec_vocab()[qi].1@),
                        );
                        let m: int = if n <= self.spec_vocab().len() - 1 {
                            n as int
                        } else {
                            self.spec_vocab().len() - 1
                        };
                        &&& res@.len() == m
                        &&& res@.len() <= n
                        &&& forall|k: int|
                            0 <= k < m ==> (#[trigger] res@[k]).0@ == self.spec_vocab()[ranked[k
                                + 1].0 as int].0@ && res@[k].1 == ranked[k + 1].1
                    }
                },
            },
    {
        let qi = match self.get_index(word) {
            None => {
                return None;
            },
            Some(qi) => qi,
        };
        let n_voc = self.vocabulary.len();
        let scores = self.compute_scores(&self.vocabulary[qi].1);
        let ranked = rank_pairs(scores);
        let ghost rs = rank_desc(Self::scores_spec(self.spec_vocab(), self.spec_vocab()[qi as int].1@));
        proof {
            lemma_rank_desc_sorted(Self::scores_spec(self.spec_vocab(), self.spec_vocab()[qi as int].1@));
            assert forall|k: int| 0 <= k < rs.len() implies (#[trigger] rs[k].0 as int)
                < n_voc by {
                let sc = Self::scores_spec(self.spec_vocab(), self.spec_vocab()[qi as int].1@);
                assert(sc.contains(rs[k]));
                let j = choose|j: int| 0 <= j < sc.len() && sc[j] == rs[k];
            }
        }
        let m: usize = if n <= n_voc - 1 {
            n
        } else {
            n_voc - 1
        };
        let mut res: Vec<(String, u32)> = Vec::new();
        let mut k: usize = 0;
        while k < m
            invariant
                0 <= k <= m,
                (m as int) == if n <= self.spec_vocab().len() - 1 {
                    n as int
                } else {
                    self.spec_vocab().len() - 1
                },
                n_voc == self.spec_vocab().len(),
                m < n_voc,
                rs.len() == n_voc,
                forall|j: int| 0 <= j < rs.len() ==> (#[trigger] rs[j].0 as int) < n_voc,
                ranked@ == rs,
                res@.len() == k,
                forall|j: int|
                    0 <= j < k ==> (#[trigger] res@[j]).0@ == self.spec_vocab()[rs[j + 1].0 as int].0@
                        && res@[j].1 == rs[j + 1].1,
            decreases m - k,
        {
            let idx = ranked[k + 1].0;
            let sc = ranked[k + 1].1;
            res.push((self.vocabulary[idx].0.clone(), sc));
            k = k + 1;
        }
        Some(res)
    }

    /// Find the words nearest to the mean of the positive query vectors and
    /// the negated negative query vectors.
    ///
    /// Absent when both query lists are empty. Query words missing from the
    /// vocabulary contribute no vector but are still barred from the
    /// results; when no query word is found at all the result is an empty
    /// list. Otherwise every entry is scored by a dot product with the
    /// per-dimension mean, the pairs are ranked by descending score, every
    /// query word is removed, and the first `n` survivors are returned.
    pub fn analogy(&self, pos: Vec<&str>, neg: Vec<&str>, n: usize) -> (r: Option<
        Vec<(String, u32)>,
    >)
        ensures
            match r {
                None => pos@.len() == 0 && neg@.len() == 0,
                Some(res) => {
                    &&& pos@.len() + neg@.len() > 0
                    &&& res@.len() <= n
                    &&& forall|k: int|
                        0 <= k < res@.len() ==> !excluded(
                            deep_words(pos@),
                            deep_words(neg@),
                            (#[trigger] res@[k]).0@,
                        )
                    &&& {
                        let posw = deep_words(pos@);
                        let negw = deep_words(neg@);
                        let gathered = contrib_pos(self.spec_vocab(), posw) + contrib_neg(
                            self.spec_vocab(),
                            negw,
                        );
                        if gathered.len() == 0 {
                            res@.len() == 0
                        } else {
                            let ranked = rank_desc(
                                Self::scores_spec(
                                    self.spec_vocab(),
                                    mean_vec(gathered, self.spec_vector_size() as nat),
                                ),
                            );
                            let sv = survivors(ranked, self.spec_vocab(), posw, negw);
                            let m: int = if n <= sv.len() {
                                n as int
                            } else {
                                sv.len() as int
                            };
                            &&& res@.len() == m
                            &&& forall|k: int|
                                0 <= k < m ==> (#[trigger] res@[k]).0@ == self.spec_vocab()[sv[k].0
                                    as int].0@ && res@[k].1 == sv[k].1
                        }
                    }
                },
            },
    {
        proof {
            use_type_invariant(&*self);
        }
        let ghost posw = deep_words(pos@);
        let ghost negw = deep_words(neg@);
        let ghost voc = self.spec_vocab();
        let mut vectors: Vec<Vec<u32>> = Vec::new();
        let ghost mut cv: Seq<Seq<u32>> = Seq::empty();
        let mut exclude: Vec<String> = Vec::new();
        let np = pos.len();
        let mut pi: usize = 0;
        while pi < np
            invariant
                0 <= pi <= np,
                np == pos@.len(),
                voc == self.spec_vocab(),
                posw == deep_words(pos@),
                self.wf(),
                cv == contrib_pos(voc, posw.take(pi as int)),
                vectors@.len() == cv.len(),
                forall|j: int| 0 <= j < cv.len() ==> (#[trigger] vectors@[j])@ == cv[j],
                forall|j: int| 0 <= j < cv.len() ==> (#[trigger] cv[j]).len()
                    == self.spec_vector_size(),
                exclude@.len() == pi,
                forall|j: int| 0 <= j < pi ==> (#[trigger] exclude@[j])@ == posw[j],
            decreases np - pi,
        {
            let w = pos[pi];
            exclude.push(w.to_owned());
            match self.get_vector(w) {
                Some(v) => {
                    let mut cpy: Vec<u32> = Vec::new();
                    let mut q: usize = 0;
                    while q < v.len()
                        invariant
                            0 <= q <= v@.len(),
                            cpy@ =~= v@.take(q as int),
                        decreases v@.len() - q,
                    {
                        cpy.push(v[q]);
                        q = q + 1;
                    }
                    proof {
                        assert(cpy@ =~= v@);
                    }
                    vectors.push(cpy);
                    proof {
                        cv = cv.push(v@);
                    }
                },
                None => {},
            }
            proof {
                assert(posw.take(pi + 1).drop_last() =~= posw.take(pi as int));
                assert(posw.take(pi + 1).last() == w@);
                assert(cv == contrib_pos(voc, posw.take(pi + 1)));
            }
            pi = pi + 1;
        }
        proof {
            assert(posw.take(np as int) =~= posw);
        }
        let nn = neg.len();
        let mut ni: usize = 0;
        while ni < nn
            invariant
                0 <= ni <= nn,
                nn == neg@.len(),
                np == pos@.len(),
                voc == self.spec_vocab(),
                posw == deep_words(pos@),
                negw == deep_words(neg@),
                self.wf(),
                cv == contrib_pos(voc, posw) + contrib_neg(voc, negw.take(ni as int)),
                vectors@.len() == cv.len(),
                forall|j: int| 0 <= j < cv.len() ==> (#[trigger] vectors@[j])@ == cv[j],
                forall|j: int| 0 <= j < cv.len() ==> (#[trigger] cv[j]).len()
                    == self.spec_vector_size(),
                exclude@.len() == np + ni,
                forall|j: int| 0 <= j < np ==> (#[trigger] exclude@[j])@ == posw[j],
                forall|j: int| 0 <= j < ni ==> (#[trigger] exclude@[np + j])@ == negw[j],
            decreases nn - ni,
        {
            let w = neg[ni];
            exclude.push(w.to_owned());
            match self.get_vector(w) {
                Some(v) => {
                    let mut nv: Vec<u32> = Vec::new();
                    let mut q: usize = 0;
                    while q < v.len()
                        invariant
                            0 <= q <= v@.len(),
                            nv@ =~= neg_vec(v@).take(q as int),
                        decreases v@.len() - q,
                    {
                        nv.push(neg_bits(v[q]));
                        proof {
                            assert(nv@ =~= neg_vec(v@).take(q + 1));
                        }
                        q = q + 1;
                    }
                    proof {
                        assert(nv@ =~= neg_vec(v@));
                    }
                    vectors.push(nv);
                    proof {
                        cv = cv.push(neg_vec(v@));
                    }
                },
                None => {},
            }
            proof {
                assert(negw.take(ni + 1).drop_last() =~= negw.take(ni as int));
                assert(negw.take(ni + 1).last() == w@);
                assert(cv == contrib_pos(voc, posw) + contrib_neg(voc, negw.take(ni + 1)));
            }
            ni = ni + 1;
        }
        proof {
            assert(negw.take(nn as int) =~= negw);
        }
        let ghost gathered = contrib_pos(voc, posw) + contrib_neg(voc, negw);
        if exclude.is_empty() {
            return None;
        }
        if vectors.is_empty() {
            return Some(Vec::new());
        }
        let d = self.vector_size;
        let mut mvec: Vec<u32> = Vec::new();
        let mut di: usize = 0;
        while di < d
            invariant
                0 <= di <= d,
                d == self.spec_vector_size(),
                cv == gathered,
                vectors@.len() == cv.len(),
                forall|j: int| 0 <= j < cv.len() ==> (#[trigger] vectors@[j])@ == cv[j],
                forall|j: int| 0 <= j < cv.len() ==> (#[trigger] cv[j]).len() == d,
                mvec@.len() == di,
                forall|i: int| 0 <= i < di ==> #[trigger] mvec@[i] == mean_spec(col(cv, i)),
            decreases d - di,
        {
            let mut colv: Vec<u32> = Vec::new();
            let mut j: usize = 0;
            let nvecs = vectors.len();
            while j < nvecs
                invariant
                    0 <= j <= nvecs,
                    0 <= di < d,
                    nvecs == vectors@.len(),
                    vectors@.len() == cv.len(),
                    forall|q: int| 0 <= q < cv.len() ==> (#[trigger] vectors@[q])@ == cv[q],
                    forall|q: int| 0 <= q < cv.len() ==> (#[trigger] cv[q]).len() == d,
                    colv@.len() == j,
                    forall|q: int| 0 <= q < j ==> #[trigger] colv@[q] == cv[q][di as int],
                decreases nvecs - j,
            {
                colv.push(vectors[j][di]);
                j = j + 1;
            }
            proof {
                assert(colv@ =~= col(cv, di as int));
            }
            mvec.push(mean(&colv));
            di = di + 1;
        }
        proof {
            assert(mvec@ =~= mean_vec(cv, d as nat));
        }
        let scores = self.compute_scores(&mvec);
        let ranked = rank_pairs(scores);
        let ghost rs = rank_desc(Self::scores_spec(voc, mean_vec(gathered, d as nat)));
        let n_voc = self.vocabulary.len();
        proof {
            lemma_rank_desc_sorted(Self::scores_spec(voc, mean_vec(gathered, d as nat)));
            assert forall|k: int| 0 <= k < rs.len() implies (#[trigger] rs[k].0 as int)
                < n_voc by {
                let sc = Self::scores_spec(voc, mean_vec(gathered, d as nat));
                assert(sc.contains(rs[k]));
                let j = choose|j: int| 0 <= j < sc.len() && sc[j] == rs[k];
            }
        }
        let mut surv: Vec<(usize, u32)> = Vec::new();
        let rlen = ranked.len();
        let mut k: usize = 0;
        while k < rlen
            invariant
                0 <= k <= rlen,
                rlen == rs.len(),
                ranked@ == rs,
                voc == self.spec_vocab(),
                n_voc == voc.len(),
                np == pos@.len(),
                nn == neg@.len(),
                posw == deep_words(pos@),
                negw == deep_words(neg@),
                forall|j: int| 0 <= j < rs.len() ==> (#[trigger] rs[j].0 as int) < n_voc,
                exclude@.len() == np + nn,
                forall|j: int| 0 <= j < np ==> (#[trigger] exclude@[j])@ == posw[j],
                forall|j: int| 0 <= j < nn ==> (#[trigger] exclude@[np + j])@ == negw[j],
                surv@ == survivors(rs.take(k as int), voc, posw, negw),
            decreases rlen - k,
        {
            let idx = ranked[k].0;
            let sc = ranked[k].1;
            let ex = contains_string(&exclude, &self.vocabulary[idx].0);
            proof {
                let wv = voc[idx as int].0@;
                if ex {
                    let j = choose|j: int| 0 <= j < exclude@.len() && (exclude@[j])@ == wv;
                    if j < np {
                        assert(posw[j] == wv);
                        assert(posw.contains(wv));
                    } else {
                        assert((exclude@[np + (j - np)])@ == negw[j - np]);
                        assert(negw[j - np] == wv);
                        assert(negw.contains(wv));
                    }
                    assert(excluded(posw, negw, wv));
                } else {
                    if excluded(posw, negw, wv) {
                        if posw.contains(wv) {
                            let i0 = choose|i0: int| 0 <= i0 < posw.len() && posw[i0] == wv;
                            assert((exclude@[i0])@ == wv);
                        } else {
                            let i0 = choose|i0: int| 0 <= i0 < negw.len() && negw[i0] == wv;
                            assert((exclude@[np + i0])@ == wv);
                        }
                        assert(false);
                    }
                }
                assert(ex == excluded(posw, negw, wv));
            }
            if !ex {
                surv.push((idx, sc));
            }
            proof {
                assert(rs.take(k + 1).drop_last() =~= rs.take(k as int));
                assert(rs.take(k + 1).last() == rs[k as int]);
                assert(surv@ == survivors(rs.take(k + 1), voc, posw, negw));
            }
            k = k + 1;
        }
        proof {
            assert(rs.take(rlen as int) =~= rs);
            lemma_survivors(rs, voc, posw, negw);
            assert forall|j: int| 0 <= j < surv@.len() implies (#[trigger] surv@[j].0 as int)
                < n_voc by {
                assert(rs.contains(surv@[j]));
                let q = choose|q: int| 0 <= q < rs.len() && rs[q] == surv@[j];
            }
        }
        let ghost sv = survivors(rs, voc, posw, negw);
        let take_n: usize = if n <= surv.len() {
            n
        } else {
            surv.len()
        };
        let mut res: Vec<(String, u32)> = Vec::new();
        let mut k2: usize = 0;
        while k2 < take_n
            invariant
                0 <= k2 <= take_n,
                take_n <= surv@.len(),
                surv@ == sv,
                voc == self.spec_vocab(),
                n_voc == voc.len(),
                forall|j: int| 0 <= j < sv.len() ==> (#[trigger] sv[j].0 as int) < n_voc,
                res@.len() == k2,
                forall|j: int|
                    0 <= j < k2 ==> (#[trigger] res@[j]).0@ == voc[sv[j].0 as int].0@ && res@[j].1
                        == sv[j].1,
            decreases take_n - k2,
        {
            let idx = surv[k2].0;
            let sc = surv[k2].1;
            res.push((self.vocabulary[idx].0.clone(), sc));
            k2 = k2 + 1;
        }
        proof {
            assert forall|j: int| 0 <= j < res@.len() implies !excluded(
                posw,
                negw,
                (#[trigger] res@[j]).0@,
            ) by {
                assert(!excluded(posw, negw, voc[sv[j].0 as int].0@));
            }
        }
        Some(res)
    }

    /// Get the number of all known words of the vocabulary.
    pub fn word_count(&self) -> (r: usize)
        ensures
            r == self.spec_vocab().len(),
    {
        self.vocabulary.len()
    }

    /// Return the number of columns of each word vector.
    pub fn get_col_count(&self) -> (r: usize)
        ensures
            r == self.spec_vector_size(),
    {
        self.vector_size
    }

    /// Get a single-pass producer of all known words, in insertion order.
    pub fn get_words(&self) -> (r: Words<'_>)
        ensures
            r.spec_words() == self.spec_vocab(),
            r.spec_position() == 0,
    {
        Words::new(&self.vocabulary)
    }
}

/// A single-pass producer of the stored words, in insertion order.
pub struct Words<'parent> {
    words: &'parent Vec<(String, Vec<u32>)>,
    index: usize,
}

impl<'a> Words<'a> {
    /// The vocabulary the words are drawn from.
    pub closed spec fn spec_words(&self) -> Seq<(String, Vec<u32>)> {
        self.words@
    }

    /// How many words have been produced so far.
    pub closed spec fn spec_position(&self) -> usize {
        self.index
    }

    fn new(x: &'a Vec<(String, Vec<u32>)>) -> (r: Words<'a>)
        ensures
            r.spec_words() == x@,
            r.spec_position() == 0,
    {
        Words { words: x, index: 0 }
    }

    /// Produces the next stored word: each word of the vocabulary appears
    /// exactly at its own position, once per stored entry.
    pub fn next(&mut self) -> (r: Option<String>)
        ensures
            final(self).spec_words() == old(self).spec_words(),
            match r {
                Some(w) => {
                    &&& old(self).spec_position() < old(self).spec_words().len()
                    &&& w@ == old(self).spec_words()[old(self).spec_position() as int].0@
                    &&& final(self).spec_position() == old(self).spec_position() + 1
                },
                None => {
                    &&& old(self).spec_position() >= old(self).spec_words().len()
                    &&& final(self).spec_position() == old(self).spec_position()
                },
            },
    {
        if self.index >= self.words.len() {
            return None;
        }
        self.index = self.index + 1;
        Some(self.words[self.index - 1].0.clone())
    }
}

} // verus!
