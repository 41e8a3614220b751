//! The query engine: candidate selection and ranking.
//!
//! A query is a list of terms. The candidate documents are found by
//! ORing the posting-list bitmaps of every trigram derived from the
//! terms. Each candidate file is then re-scored against its (lowercased)
//! contents: a phrase match of all terms in order is worth 100 per
//! matched byte, each contained term 10 per byte, and each contained
//! query trigram 1.

use vstd::prelude::*;

use crate::bitmap::bit_at;
use crate::bitmap::or_bytes;
use crate::bitmap::BitMap;
use crate::index::bitmap_len_spec;
use crate::index::Index;
use crate::trigram::query_trigrams;
use crate::trigram::trigram_views;
use crate::trigram::Trigram;

verus! {

/// The flat list of query trigrams of all the terms, in order.
pub open spec fn terms_trigrams(terms: Seq<Seq<u8>>) -> Seq<Seq<u8>>
    decreases terms.len(),
{
    if terms.len() == 0 {
        seq![]
    } else {
        terms_trigrams(terms.drop_last()) + query_trigrams(terms.last())
    }
}

/// The views of a list of byte vectors.
pub open spec fn byte_views(v: Seq<Vec<u8>>) -> Seq<Seq<u8>> {
    v.map_values(|b: Vec<u8>| b@)
}

/// Collect the query trigrams of every term into one flat list,
/// duplicates kept.
pub fn collect_query_trigrams(terms: &Vec<Vec<u8>>) -> (r: Vec<Trigram>)
    ensures
        trigram_views(r@) == terms_trigrams(byte_views(terms@)),
{
    let mut r: Vec<Trigram> = Vec::new();
    let mut i: usize = 0;
    proof {
        assert(trigram_views(r@) =~= terms_trigrams(byte_views(terms@.take(0))));
    }
    while i < terms.len()
        invariant
            0 <= i <= terms@.len(),
            trigram_views(r@) == terms_trigrams(byte_views(terms@.take(i as int))),
        decreases terms@.len() - i,
    {
        let ghost prev = r@;
        crate::trigram::get_trigrams(terms[i].as_slice(), &mut r);
        i = i + 1;
        proof {
            assert(byte_views(terms@.take(i as int)).drop_last() =~= byte_views(
                terms@.take(i as int - 1),
            ));
            assert(byte_views(terms@.take(i as int)).last() == terms@[i as int - 1]@);
            assert(trigram_views(r@) =~= terms_trigrams(byte_views(terms@.take(i as int))));
        }
    }
    proof {
        assert(terms@.take(terms@.len() as int) =~= terms@);
    }
    r
}

/// Whether some query trigram among `tris` has a posting-list record
/// whose bitmap has bit `i` set.
pub open spec fn candidate_bit(ix: Index, tris: Seq<Trigram>, i: int) -> bool {
    exists|q: int, k: int|
        #![trigger ix.posting_tri(k), tris[q]]
        0 <= q < tris.len() && 0 <= k < ix.gram_count() && ix.posting_tri(k) == tris[q]@ && bit_at(
            ix.posting_map(k),
            i,
        )
}

/// Build the candidate bitmap: the OR of the posting-list bitmaps of
/// every query trigram that the index holds. Bit `i` is set exactly
/// when some query trigram's posting list has bit `i` set.
pub fn candidates(ix: &Index, tris: &Vec<Trigram>) -> (r: BitMap)
    requires
        ix.wf(),
    ensures
        r@.len() == bitmap_len_spec(ix.doc_count()),
        forall|i: int| 0 <= i < r@.len() * 8 ==> #[trigger] bit_at(r@, i) == candidate_bit(
            *ix,
            tris@,
            i,
        ),
{
    let mut any = BitMap::new(ix.document_count() as usize);
    proof {
        crate::bitmap::lemma_zero_bytes_no_bits(any@);
        assert forall|i: int| 0 <= i < any@.len() * 8 implies #[trigger] bit_at(any@, i)
            == candidate_bit(*ix, tris@.take(0), i) by {
            if candidate_bit(*ix, tris@.take(0), i) {
                let (q, k) = choose|q: int, k: int|
                    #![trigger ix.posting_tri(k), tris@.take(0)[q]]
                    0 <= q < tris@.take(0).len() && 0 <= k < ix.gram_count() && ix.posting_tri(k)
                        == tris@.take(0)[q]@ && bit_at(ix.posting_map(k), i);
                assert(false);
            }
        }
    }
    let mut qi: usize = 0;
    while qi < tris.len()
        invariant
            ix.wf(),
            0 <= qi <= tris@.len(),
            any@.len() == bitmap_len_spec(ix.doc_count()),
            forall|i: int|
                0 <= i < any@.len() * 8 ==> #[trigger] bit_at(any@, i) == candidate_bit(
                    *ix,
                    tris@.take(qi as int),
                    i,
                ),
        decreases tris@.len() - qi,
    {
        let ghost prev = any@;
        let ghost tp = tris@.take(qi as int);
        let ghost tc = tris@.take(qi as int + 1);
        proof {
            assert(tc.len() == qi + 1);
            assert(forall|j: int| 0 <= j < tc.len() ==> #[trigger] tc[j] == tris@[j]);
            assert(forall|j: int| 0 <= j < tp.len() ==> #[trigger] tp[j] == tris@[j]);
        }
        match ix.find_trigram(tris[qi]) {
            Some(bm) => {
                let ghost k0 = choose|k: int|
                    0 <= k < ix.gram_count() && ix.posting_tri(k) == tris@[qi as int]@ && bm@
                        == ix.posting_map(k);
                proof {
                    assert(bm@ == ix.posting_map(k0));
                    let rec = crate::index::record_len(ix.doc_count());
                    assert(0 <= k0 * rec && k0 * rec + rec <= ix.gram_count() as int * rec)
                        by (nonlinear_arith)
                        requires
                            0 <= k0 < ix.gram_count() as int,
                            rec >= 3,
                    ;
                    assert(crate::index::posting_off(ix.doc_count(), k0) + rec
                        <= ix.data_spec().len());
                    assert(bm@.len() == bitmap_len_spec(ix.doc_count()));
                }
                any.or_assign(&bm);
                proof {
                    assert(any@ == or_bytes(prev, bm@));
                    assert(any@.len() == prev.len());
                    assert forall|i: int| 0 <= i < any@.len() * 8 implies #[trigger] bit_at(
                        any@,
                        i,
                    ) == candidate_bit(*ix, tc, i) by {
                        let bi = i / 8;
                        let x = prev[bi];
                        let y = bm@[bi];
                        let jmu = (i % 8) as u8;
                        assert(((x | y) & (1u8 << jmu) != 0) == ((x & (1u8 << jmu) != 0) || (y & (
                        1u8 << jmu) != 0))) by (bit_vector);
                        assert(bit_at(any@, i) == (bit_at(prev, i) || bit_at(bm@, i)));
                        if bit_at(prev, i) {
                            let (q, k) = choose|q: int, k: int|
                                #![trigger ix.posting_tri(k), tp[q]]
                                0 <= q < tp.len() && 0 <= k < ix.gram_count() && ix.posting_tri(k)
                                    == tp[q]@ && bit_at(ix.posting_map(k), i);
                            assert(tc[q] == tp[q]);
                            assert(candidate_bit(*ix, tc, i));
                        }
                        if bit_at(bm@, i) {
                            assert(tc[qi as int] == tris@[qi as int]);
                            assert(0 <= qi < tc.len() && 0 <= k0 < ix.gram_count()
                                && ix.posting_tri(k0) == tc[qi as int]@ && bit_at(
                                ix.posting_map(k0),
                                i,
                            ));
                            assert(candidate_bit(*ix, tc, i));
                        }
                        if candidate_bit(*ix, tc, i) && !bit_at(any@, i) {
                            let (q, k) = choose|q: int, k: int|
                                #![trigger ix.posting_tri(k), tc[q]]
                                0 <= q < tc.len() && 0 <= k < ix.gram_count() && ix.posting_tri(k)
                                    == tc[q]@ && bit_at(ix.posting_map(k), i);
                            if q < qi {
                                assert(tp[q] == tc[q]);
                                assert(candidate_bit(*ix, tp, i));
                                assert(bit_at(prev, i));
                            } else {
                                assert(ix.posting_tri(k) == ix.posting_tri(k0));
                                if k != k0 {
                                    if k < k0 {
                                        crate::index::lemma_posting_order(ix, k, k0);
                                    } else {
                                        crate::index::lemma_posting_order(ix, k0, k);
                                    }
                                }
                                assert(bit_at(bm@, i));
                            }
                            assert(false);
                        }
                    }
                }
            },
            None => {
                proof {
                    assert forall|i: int| 0 <= i < any@.len() * 8 implies #[trigger] bit_at(
                        any@,
                        i,
                    ) == candidate_bit(*ix, tc, i) by {
                        if bit_at(any@, i) {
                            let (q, k) = choose|q: int, k: int|
                                #![trigger ix.posting_tri(k), tp[q]]
                                0 <= q < tp.len() && 0 <= k < ix.gram_count() && ix.posting_tri(k)
                                    == tp[q]@ && bit_at(ix.posting_map(k), i);
                            assert(tc[q] == tp[q]);
                            assert(candidate_bit(*ix, tc, i));
                        }
                        if candidate_bit(*ix, tc, i) && !bit_at(any@, i) {
                            let (q, k) = choose|q: int, k: int|
                                #![trigger ix.posting_tri(k), tc[q]]
                                0 <= q < tc.len() && 0 <= k < ix.gram_count() && ix.posting_tri(k)
                                    == tc[q]@ && bit_at(ix.posting_map(k), i);
                            if q < qi {
                                assert(tp[q] == tc[q]);
                                assert(candidate_bit(*ix, tp, i));
                            } else {
                                assert(tc[q] == tris@[qi as int]);
                                assert(ix.has_trigram(tris@[qi as int]@));
                            }
                            assert(false);
                        }
                    }
                }
            },
        }
        qi = qi + 1;
    }
    proof {
        assert(tris@.take(tris@.len() as int) =~= tris@);
    }
    any
}

/// Candidate correctness: against an index whose posting lists are the
/// inverted index of the corpus model `m`, bit `i` of the candidate
/// bitmap is set exactly when document `i` contains at least one of the
/// query trigrams.
pub proof fn lemma_candidate_correct(ix: Index, m: Seq<(Seq<u8>, Seq<Seq<u8>>)>, tris: Seq<Trigram>, i: int)
    requires
        crate::index::postings_complete(ix, m),
        crate::index::postings_exact(ix, m),
        0 <= i < m.len(),
    ensures
        candidate_bit(ix, tris, i) <==> exists|q: int|
            0 <= q < tris.len() && m[i].1.contains((#[trigger] tris[q])@),
{
    if candidate_bit(ix, tris, i) {
        let (q, k) = choose|q: int, k: int|
            #![trigger ix.posting_tri(k), tris[q]]
            0 <= q < tris.len() && 0 <= k < ix.gram_count() && ix.posting_tri(k) == tris[q]@
                && bit_at(ix.posting_map(k), i);
        assert(bit_at(ix.posting_map(k), i) == m[i].1.contains(ix.posting_tri(k)));
        assert(m[i].1.contains(tris[q]@));
    }
    if exists|q: int| 0 <= q < tris.len() && m[i].1.contains((#[trigger] tris[q])@) {
        let q = choose|q: int| 0 <= q < tris.len() && m[i].1.contains((#[trigger] tris[q])@);
        let j = choose|j: int| 0 <= j < m[i].1.len() && m[i].1[j] == tris[q]@;
        assert(ix.has_trigram(m[i].1[j]));
        let k = choose|k: int| 0 <= k < ix.gram_count() && ix.posting_tri(k) == m[i].1[j];
        assert(bit_at(ix.posting_map(k), i) == m[i].1.contains(ix.posting_tri(k)));
        assert(candidate_bit(ix, tris, i));
    }
}

/// The first position at or after `o` where `n` occurs in `h`, or -1.
pub open spec fn first_match(h: Seq<u8>, n: Seq<u8>, o: int) -> int
    recommends
        0 <= o,
    decreases h.len() - o + 1,
{
    if o < 0 || o + n.len() > h.len() {
        -1
    } else if h.subrange(o, o + n.len()) == n {
        o
    } else {
        first_match(h, n, o + 1)
    }
}

/// Whether `n` occurs anywhere in `h`.
pub open spec fn contains_sub(h: Seq<u8>, n: Seq<u8>) -> bool {
    first_match(h, n, 0) >= 0
}

/// Find the first occurrence of `n` in `h`.
pub fn find_bytes(h: &[u8], n: &[u8]) -> (r: Option<usize>)
    ensures
        r matches Some(o) ==> first_match(h@, n@, 0) == o,
        r is None ==> first_match(h@, n@, 0) == -1,
{
    if n.len() > h.len() {
        return None;
    }
    if n.len() == 0 {
        proof {
            assert(h@.subrange(0, 0) =~= n@);
        }
        return Some(0);
    }
    let hn = h.len();
    let last = h.len() - n.len();
    let mut o: usize = 0;
    while o <= last
        invariant
            1 <= n@.len() <= h@.len(),
            hn == h@.len(),
            last == h@.len() - n@.len(),
            0 <= o <= last + 1,
            first_match(h@, n@, 0) == first_match(h@, n@, o as int),
        decreases last + 1 - o,
    {
        let mut j: usize = 0;
        let mut eq = true;
        proof {
            assert(h@.subrange(o as int, o as int) =~= n@.subrange(0, 0));
        }
        while eq && j < n.len()
            invariant
                hn == h@.len(),
                o + n@.len() <= h@.len(),
                0 <= j <= n@.len(),
                eq ==> h@.subrange(o as int, o + j) == n@.subrange(0, j as int),
                !eq ==> h@.subrange(o as int, o + n@.len()) != n@,
            decreases n@.len() - j,
        {
            let ghost hpre = h@.subrange(o as int, o + j);
            let ghost npre = n@.subrange(0, j as int);
            if h[o + j] != n[j] {
                proof {
                    assert(h@.subrange(o as int, o + n@.len())[j as int] == h@[o + j]);
                    assert(h@.subrange(o as int, o + n@.len())[j as int] != n@[j as int]);
                }
                eq = false;
            } else {
                proof {
                    assert(h@.subrange(o as int, o + j + 1) =~= hpre.push(h@[o + j]));
                    assert(n@.subrange(0, j as int + 1) =~= npre.push(n@[j as int]));
                }
            }
            j = j + 1;
        }
        if eq {
            proof {
                assert(n@.subrange(0, n@.len() as int) =~= n@);
                assert(h@.subrange(o as int, o + n@.len()) == n@);
                assert(first_match(h@, n@, o as int) == o);
            }
            return Some(o);
        }
        proof {
            assert(first_match(h@, n@, o as int) == first_match(h@, n@, o as int + 1));
        }
        o = o + 1;
    }
    proof {
        assert(first_match(h@, n@, o as int) == -1);
    }
    None
}

/// Whether `n` occurs in `h`.
pub fn contains_bytes(h: &[u8], n: &[u8]) -> (r: bool)
    ensures
        r == contains_sub(h@, n@),
{
    match find_bytes(h, n) {
        Some(_) => true,
        None => false,
    }
}

/// ASCII whitespace: space, tab, line feed, vertical tab, form feed,
/// carriage return.
pub open spec fn is_ws(b: u8) -> bool {
    b == 0x20 || b == 0x09 || b == 0x0a || b == 0x0b || b == 0x0c || b == 0x0d
}

/// The first non-whitespace position at or after `o`.
pub open spec fn skip_ws(h: Seq<u8>, o: int) -> int
    recommends
        0 <= o <= h.len(),
    decreases h.len() - o + 1,
{
    if o < 0 || o >= h.len() {
        h.len() as int
    } else if is_ws(h[o]) {
        skip_ws(h, o + 1)
    } else {
        o
    }
}

/// Advance past whitespace from `o`.
fn skip_ws_exec(h: &[u8], o: usize) -> (r: usize)
    requires
        o <= h@.len(),
    ensures
        r == skip_ws(h@, o as int),
        o <= r <= h@.len(),
{
    let mut p = o;
    while p < h.len() && (h[p] == 0x20 || h[p] == 0x09 || h[p] == 0x0a || h[p] == 0x0b || h[p]
        == 0x0c || h[p] == 0x0d)
        invariant
            o <= p <= h@.len(),
            skip_ws(h@, o as int) == skip_ws(h@, p as int),
        decreases h@.len() - p,
    {
        p = p + 1;
    }
    p
}

/// Where the phrase made of `terms[ti..]` ends when it must start at
/// `pos`, with whitespace skipped between terms; -1 when it breaks off.
pub open spec fn phrase_end(c: Seq<u8>, terms: Seq<Seq<u8>>, ti: int, pos: int) -> int
    recommends
        0 <= ti < terms.len(),
        0 <= pos,
    decreases terms.len() - ti,
{
    if ti < 0 || ti >= terms.len() || pos < 0 || pos + terms[ti].len() > c.len() {
        -1
    } else if c.subrange(pos, pos + terms[ti].len()) != terms[ti] {
        -1
    } else {
        let e = pos + terms[ti].len();
        if ti == terms.len() - 1 {
            e
        } else {
            phrase_end(c, terms, ti + 1, skip_ws(c, e))
        }
    }
}

/// The sum of the byte lengths of the first `i` terms.
pub open spec fn total_upto(terms: Seq<Seq<u8>>, i: int) -> int
    decreases i,
{
    if i <= 0 {
        0
    } else {
        total_upto(terms, i - 1) + terms[i - 1].len()
    }
}

/// The sum of the byte lengths of the terms.
pub open spec fn total_len(terms: Seq<Seq<u8>>) -> int {
    total_upto(terms, terms.len() as int)
}

/// Prefix sums of term lengths are nonnegative and grow monotonically.
proof fn lemma_total_upto_bounds(terms: Seq<Seq<u8>>, i: int, j: int)
    requires
        0 <= i <= j,
    ensures
        0 <= total_upto(terms, i) <= total_upto(terms, j),
    decreases j,
{
    if j > 0 {
        if i == j {
            lemma_total_upto_bounds(terms, i - 1, j - 1);
        } else {
            lemma_total_upto_bounds(terms, i, j - 1);
        }
    }
}

/// The phrase bonus: when the terms appear in order starting at the
/// first occurrence of the first term, 100 per byte of the terms.
pub open spec fn phrase_bonus(c: Seq<u8>, terms: Seq<Seq<u8>>) -> int {
    if terms.len() > 0 && first_match(c, terms[0], 0) >= 0 && phrase_end(
        c,
        terms,
        0,
        first_match(c, terms[0], 0),
    ) >= 0 {
        100 * total_len(terms)
    } else {
        0
    }
}

/// The term bonus over the first `i` terms: 10 per byte of each term
/// the contents contain.
pub open spec fn term_bonus(c: Seq<u8>, terms: Seq<Seq<u8>>, i: int) -> int
    decreases i,
{
    if i <= 0 {
        0
    } else {
        term_bonus(c, terms, i - 1) + if contains_sub(c, terms[i - 1]) {
            10 * terms[i - 1].len()
        } else {
            0
        }
    }
}

/// The trigram bonus over the first `i` query trigrams: 1 for each the
/// contents contain.
pub open spec fn tri_bonus(c: Seq<u8>, tris: Seq<Seq<u8>>, i: int) -> int
    decreases i,
{
    if i <= 0 {
        0
    } else {
        tri_bonus(c, tris, i - 1) + if contains_sub(c, tris[i - 1]) {
            1int
        } else {
            0int
        }
    }
}

/// The score of lowercased contents `c` against the query.
pub open spec fn rank_spec(c: Seq<u8>, terms: Seq<Seq<u8>>, tris: Seq<Seq<u8>>) -> int {
    phrase_bonus(c, terms) + term_bonus(c, terms, terms.len() as int) + tri_bonus(
        c,
        tris,
        tris.len() as int,
    )
}

/// A line with its trailing carriage return removed.
pub open spec fn strip_cr(l: Seq<u8>) -> Seq<u8> {
    if l.len() > 0 && l.last() == 0x0d {
        l.drop_last()
    } else {
        l
    }
}

/// The position after the last non-whitespace byte before `e`.
pub open spec fn trim_end(l: Seq<u8>, e: int) -> int
    decreases e,
{
    if e <= 0 {
        0
    } else if is_ws(l[e - 1]) {
        trim_end(l, e - 1)
    } else {
        e
    }
}

/// The line with leading and trailing whitespace removed.
pub open spec fn trim_spec(l: Seq<u8>) -> Seq<u8> {
    let a = skip_ws(l, 0);
    if a == l.len() {
        Seq::empty()
    } else {
        l.subrange(a, trim_end(l, l.len() as int))
    }
}

/// At most the first 50 bytes.
pub open spec fn clip50(l: Seq<u8>) -> Seq<u8> {
    if l.len() <= 50 {
        l
    } else {
        l.take(50)
    }
}

/// A successful match is at or after the start, and fits.
proof fn lemma_first_match_bounds(h: Seq<u8>, n: Seq<u8>, o: int)
    requires
        first_match(h, n, o) >= 0,
    ensures
        o <= first_match(h, n, o),
        first_match(h, n, o) + n.len() <= h.len(),
    decreases h.len() - o + 1,
{
    if !(o < 0 || o + n.len() > h.len()) && h.subrange(o, o + n.len()) != n {
        lemma_first_match_bounds(h, n, o + 1);
    }
}

/// Skipping whitespace lands within bounds, on a non-whitespace byte.
proof fn lemma_skip_ws(l: Seq<u8>, o: int)
    requires
        0 <= o <= l.len(),
    ensures
        o <= skip_ws(l, o) <= l.len(),
        skip_ws(l, o) < l.len() ==> !is_ws(l[skip_ws(l, o)]),
    decreases l.len() - o,
{
    if o < l.len() && is_ws(l[o]) {
        lemma_skip_ws(l, o + 1);
    }
}

/// The preview drawn from the line starting at `o` or a later line:
/// the 1-based number (counting from `ln`) of the first line containing
/// the needle, with that line's trimmed content clipped to 50 bytes.
pub open spec fn preview_from(c: Seq<u8>, needle: Seq<u8>, o: int, ln: int) -> Option<(int, Seq<u8>)>
    decreases c.len() - o,
    via preview_from_decreases
{
    if o < 0 || o > c.len() {
        None
    } else {
        let p = first_match(c, seq![0x0au8], o);
        let rawend = if p < 0 {
            c.len() as int
        } else {
            p
        };
        let line = strip_cr(c.subrange(o, rawend));
        if contains_sub(line, needle) {
            Some((ln, clip50(trim_spec(line))))
        } else if p < 0 {
            None
        } else {
            preview_from(c, needle, p + 1, ln + 1)
        }
    }
}

#[via_fn]
proof fn preview_from_decreases(c: Seq<u8>, needle: Seq<u8>, o: int, ln: int) {
    if 0 <= o <= c.len() {
        let p = first_match(c, seq![0x0au8], o);
        if p >= 0 {
            lemma_first_match_bounds(c, seq![0x0au8], o);
        }
    }
}

/// A preview: a 1-based line number and that line's trimmed content
/// truncated to 50 bytes.
#[derive(Debug)]
pub struct Preview {
    pub line: usize,
    pub text: Vec<u8>,
}

impl View for Preview {
    type V = (int, Seq<u8>);

    open spec fn view(&self) -> (int, Seq<u8>) {
        (self.line as int, self.text@)
    }
}

/// Relies on the std guarantee that a slice occupies at most
/// `isize::MAX` bytes, so its length is below `usize::MAX`.
#[verifier::external_body]
fn slice_len(s: &[u8]) -> (r: usize)
    ensures
        r == s@.len(),
        r < usize::MAX,
{
    s.len()
}

/// The first newline at or after `from`.
fn find_nl(h: &[u8], from: usize) -> (r: Option<usize>)
    requires
        from <= h@.len(),
    ensures
        r matches Some(p) ==> first_match(h@, seq![0x0au8], from as int) == p && from <= p
            < h@.len(),
        r is None ==> first_match(h@, seq![0x0au8], from as int) == -1,
{
    let hn = h.len();
    let mut p = from;
    while p < h.len()
        invariant
            hn == h@.len(),
            from <= p <= h@.len(),
            first_match(h@, seq![0x0au8], from as int) == first_match(h@, seq![0x0au8], p as int),
        decreases h@.len() - p,
    {
        if h[p] == 0x0a {
            proof {
                assert(h@.subrange(p as int, p + 1) =~= seq![0x0au8]);
            }
            return Some(p);
        }
        proof {
            assert(h@.subrange(p as int, p + 1) =~= seq![h@[p as int]]);
            assert(h@.subrange(p as int, p + 1) != seq![0x0au8]) by {
                if h@.subrange(p as int, p + 1) == seq![0x0au8] {
                    assert(h@.subrange(p as int, p + 1)[0] == 0x0au8);
                }
            }
        }
        p = p + 1;
    }
    None
}

/// Whether `n` occurs at exactly position `pos` of `c`.
fn match_at(c: &[u8], n: &[u8], pos: usize) -> (r: bool)
    requires
        pos <= c@.len(),
    ensures
        r == (pos + n@.len() <= c@.len() && c@.subrange(pos as int, pos + n@.len()) == n@),
{
    let cn = c.len();
    if n.len() > c.len() - pos {
        return false;
    }
    let mut j: usize = 0;
    proof {
        assert(c@.subrange(pos as int, pos as int) =~= n@.subrange(0, 0));
    }
    while j < n.len()
        invariant
            cn == c@.len(),
            pos + n@.len() <= c@.len(),
            0 <= j <= n@.len(),
            c@.subrange(pos as int, pos + j) == n@.subrange(0, j as int),
        decreases n@.len() - j,
    {
        let ghost hpre = c@.subrange(pos as int, pos + j);
        let ghost npre = n@.subrange(0, j as int);
        if c[pos + j] != n[j] {
            proof {
                assert(c@.subrange(pos as int, pos + n@.len())[j as int] == c@[pos + j]);
            }
            return false;
        }
        proof {
            assert(c@.subrange(pos as int, pos + j + 1) =~= hpre.push(c@[pos + j]));
            assert(n@.subrange(0, j as int + 1) =~= npre.push(n@[j as int]));
        }
        j = j + 1;
    }
    proof {
        assert(n@.subrange(0, n@.len() as int) =~= n@);
    }
    true
}

/// Walk the phrase: each term must occur in order, whitespace skipped
/// between terms, the first term starting at `start`. Returns the end
/// of the last term.
fn phrase_scan(c: &[u8], terms: &Vec<Vec<u8>>, start: usize) -> (r: Option<usize>)
    requires
        terms@.len() > 0,
        start <= c@.len(),
    ensures
        r matches Some(e) ==> phrase_end(c@, byte_views(terms@), 0, start as int) == e && e
            <= c@.len(),
        r is None ==> phrase_end(c@, byte_views(terms@), 0, start as int) == -1,
{
    let cn = c.len();
    let mut ti: usize = 0;
    let mut pos = start;
    loop
        invariant
            cn == c@.len(),
            terms@.len() > 0,
            0 <= ti < terms@.len(),
            0 <= pos <= c@.len(),
            phrase_end(c@, byte_views(terms@), 0, start as int) == phrase_end(
                c@,
                byte_views(terms@),
                ti as int,
                pos as int,
            ),
        decreases terms@.len() - ti,
    {
        proof {
            assert(byte_views(terms@)[ti as int] == terms@[ti as int]@);
        }
        if !match_at(c, terms[ti].as_slice(), pos) {
            return None;
        }
        let e = pos + terms[ti].len();
        if ti == terms.len() - 1 {
            return Some(e);
        }
        pos = skip_ws_exec(c, e);
        ti = ti + 1;
    }
}

/// Extract the preview for a needle: the first line containing it, or
/// `None` when no single line does (a match may span lines).
pub fn get_preview(source: &[u8], needle: &[u8]) -> (r: Option<Preview>)
    ensures
        r matches Some(pv) ==> preview_from(source@, needle@, 0, 1) == Some(pv@),
        r is None ==> preview_from(source@, needle@, 0, 1) is None,
{
    let sn = slice_len(source);
    let mut o: usize = 0;
    let mut ln: usize = 1;
    loop
        invariant
            sn == source@.len(),
            sn < usize::MAX,
            0 <= o <= source@.len(),
            1 <= ln <= o + 1,
            preview_from(source@, needle@, 0, 1) == preview_from(
                source@,
                needle@,
                o as int,
                ln as int,
            ),
        decreases source@.len() - o,
    {
        let rawend = match find_nl(source, o) {
            Some(p) => p,
            None => source.len(),
        };
        // the line, without a trailing carriage return
        let mut lend = rawend;
        if lend > o && source[lend - 1] == 0x0d {
            lend = lend - 1;
        }
        let line = vstd::slice::slice_subrange(source, o, lend);
        proof {
            let raw = source@.subrange(o as int, rawend as int);
            assert(line@ =~= strip_cr(raw));
        }
        if contains_bytes(line, needle) {
            // trim and clip the line for display
            let lln = line.len();
            let a = skip_ws_exec(line, 0);
            proof {
                lemma_skip_ws(line@, 0);
            }
            let mut text: Vec<u8> = Vec::new();
            if a < line.len() {
                let mut b = line.len();
                while b > a && (line[b - 1] == 0x20 || line[b - 1] == 0x09 || line[b - 1] == 0x0a
                    || line[b - 1] == 0x0b || line[b - 1] == 0x0c || line[b - 1] == 0x0d)
                    invariant
                        lln == line@.len(),
                        0 <= a < line@.len(),
                        a < b <= line@.len(),
                        !is_ws(line@[a as int]),
                        trim_end(line@, line@.len() as int) == trim_end(line@, b as int),
                    decreases b,
                {
                    b = b - 1;
                }
                proof {
                    assert(trim_end(line@, b as int) == b);
                }
                let m = b - a;
                let take = if m <= 50 {
                    m
                } else {
                    50
                };
                let mut k: usize = 0;
                while k < take
                    invariant
                        lln == line@.len(),
                        0 <= k <= take,
                        a + take <= line@.len(),
                        text@ == line@.subrange(a as int, a + k),
                    decreases take - k,
                {
                    text.push(line[a + k]);
                    proof {
                        assert(text@ =~= line@.subrange(a as int, a + k + 1));
                    }
                    k = k + 1;
                }
                proof {
                    assert(text@ =~= clip50(trim_spec(line@)));
                }
            } else {
                proof {
                    assert(skip_ws(line@, 0) == line@.len());
                    assert(text@ =~= clip50(trim_spec(line@)));
                }
            }
            let pv = Preview { line: ln, text };
            proof {
                assert(preview_from(source@, needle@, o as int, ln as int) == Some(pv@));
            }
            return Some(pv);
        }
        match find_nl(source, o) {
            Some(p) => {
                o = p + 1;
                ln = ln + 1;
            },
            None => {
                return None;
            },
        }
    }
}

/// Every preview of the list was drawn from the contents by some
/// needle.
pub open spec fn previews_genuine(c: Seq<u8>, s: Seq<Preview>) -> bool {
    forall|a: int|
        0 <= a < s.len() ==> exists|n: Seq<u8>| preview_from(c, n, 0, 1) == Some(#[trigger] s[a]@)
}

/// The bytes of a trigram.
fn tri_to_vec(t: &Trigram) -> (r: Vec<u8>)
    ensures
        r@ == t@,
{
    let mut r: Vec<u8> = Vec::new();
    r.push(t.b0);
    r.push(t.b1);
    r.push(t.b2);
    proof {
        assert(r@ =~= t@);
    }
    r
}

/// The summed byte length of the terms.
fn total_len_exec(terms: &Vec<Vec<u8>>) -> (r: usize)
    requires
        total_len(byte_views(terms@)) <= usize::MAX,
    ensures
        r == total_len(byte_views(terms@)),
{
    let ghost tv = byte_views(terms@);
    let mut sum: usize = 0;
    let mut i: usize = 0;
    while i < terms.len()
        invariant
            tv == byte_views(terms@),
            total_len(tv) <= usize::MAX,
            0 <= i <= terms@.len(),
            sum == total_upto(tv, i as int),
        decreases terms@.len() - i,
    {
        proof {
            lemma_total_upto_bounds(tv, i as int + 1, tv.len() as int);
            assert(tv[i as int] == terms@[i as int]@);
        }
        sum = sum + terms[i].len();
        i = i + 1;
    }
    sum
}

/// Whether the list already holds an equal preview.
fn contains_pv(v: &Vec<Preview>, p: &Preview) -> (r: bool)
    ensures
        r == exists|a: int| 0 <= a < v@.len() && (#[trigger] v@[a])@ == p@,
{
    let mut a: usize = 0;
    while a < v.len()
        invariant
            0 <= a <= v@.len(),
            forall|q: int| 0 <= q < a ==> (#[trigger] v@[q])@ != p@,
        decreases v@.len() - a,
    {
        if v[a].line == p.line && crate::index::bytes_eq(&v[a].text, &p.text) {
            proof {
                assert(v@[a as int]@ == p@);
            }
            return true;
        }
        a = a + 1;
    }
    false
}

/// Sort previews ascending by line number, keeping the arrival order of
/// equal lines, then drop repeated previews, keeping each first
/// occurrence.
fn sort_dedup_previews(cand: Vec<Preview>, Ghost(c): Ghost<Seq<u8>>) -> (r: Vec<Preview>)
    requires
        previews_genuine(c, cand@),
    ensures
        previews_genuine(c, r@),
        forall|a: int, b: int| 0 <= a < b < r@.len() ==> (#[trigger] r@[a])@.0 <= (
        #[trigger] r@[b])@.0,
        forall|a: int, b: int| 0 <= a < b < r@.len() ==> (#[trigger] r@[a])@ != (
        #[trigger] r@[b])@,
{
    // insertion sort by line
    let mut sorted: Vec<Preview> = Vec::new();
    let mut i: usize = 0;
    while i < cand.len()
        invariant
            previews_genuine(c, cand@),
            0 <= i <= cand@.len(),
            previews_genuine(c, sorted@),
            forall|a: int, b: int|
                0 <= a < b < sorted@.len() ==> (#[trigger] sorted@[a])@.0 <= (
                #[trigger] sorted@[b])@.0,
        decreases cand@.len() - i,
    {
        let ghost prev = sorted@;
        let x = Preview {
            line: cand[i].line,
            text: crate::index::clone_bytes(&cand[i].text),
        };
        proof {
            assert(x@ == cand@[i as int]@);
        }
        let mut p: usize = 0;
        while p < sorted.len() && sorted[p].line <= x.line
            invariant
                0 <= p <= sorted@.len(),
                forall|q: int| 0 <= q < p ==> (#[trigger] sorted@[q])@.0 <= x@.0,
            decreases sorted@.len() - p,
        {
            p = p + 1;
        }
        sorted.insert(p, x);
        proof {
            assert forall|a: int, b: int|
                0 <= a < b < sorted@.len() implies (#[trigger] sorted@[a])@.0 <= (
            #[trigger] sorted@[b])@.0 by {
                if b == p {
                    assert(sorted@[a] == prev[a]);
                } else if a == p {
                    assert(sorted@[b] == prev[b - 1]);
                    assert(p < prev.len() && b - 1 >= p);
                    assert(prev[p as int]@.0 > x@.0);
                    if b - 1 > p {
                        assert(prev[p as int]@.0 <= prev[b - 1]@.0);
                    }
                } else if b < p {
                    assert(sorted@[a] == prev[a] && sorted@[b] == prev[b]);
                } else if a < p {
                    assert(sorted@[a] == prev[a] && sorted@[b] == prev[b - 1]);
                } else {
                    assert(sorted@[a] == prev[a - 1] && sorted@[b] == prev[b - 1]);
                }
            }
            assert forall|a: int| 0 <= a < sorted@.len() implies exists|n: Seq<u8>|
                preview_from(c, n, 0, 1) == Some((#[trigger] sorted@[a])@) by {
                if a < p {
                    assert(sorted@[a] == prev[a]);
                } else if a == p {
                    assert(sorted@[a]@ == cand@[i as int]@);
                } else {
                    assert(sorted@[a] == prev[a - 1]);
                }
            }
        }
        i = i + 1;
    }
    // drop repeats, keeping first occurrences
    let mut out: Vec<Preview> = Vec::new();
    let mut j: usize = 0;
    while j < sorted.len()
        invariant
            previews_genuine(c, sorted@),
            forall|a: int, b: int|
                0 <= a < b < sorted@.len() ==> (#[trigger] sorted@[a])@.0 <= (
                #[trigger] sorted@[b])@.0,
            0 <= j <= sorted@.len(),
            previews_genuine(c, out@),
            forall|a: int|
                0 <= a < out@.len() ==> exists|b: int|
                    0 <= b < j && (#[trigger] out@[a])@ == sorted@[b]@,
            forall|a: int, b: int|
                0 <= a < b < out@.len() ==> (#[trigger] out@[a])@.0 <= (#[trigger] out@[b])@.0,
            forall|a: int, b: int|
                0 <= a < b < out@.len() ==> (#[trigger] out@[a])@ != (#[trigger] out@[b])@,
        decreases sorted@.len() - j,
    {
        let ghost prev_out = out@;
        let pv = Preview {
            line: sorted[j].line,
            text: crate::index::clone_bytes(&sorted[j].text),
        };
        proof {
            assert(pv@ == sorted@[j as int]@);
        }
        if !contains_pv(&out, &pv) {
            out.push(pv);
            proof {
                assert forall|a: int| 0 <= a < out@.len() implies exists|b: int|
                    0 <= b < j + 1 && (#[trigger] out@[a])@ == sorted@[b]@ by {
                    if a < prev_out.len() {
                        assert(out@[a] == prev_out[a]);
                    } else {
                        assert(out@[a]@ == sorted@[j as int]@);
                    }
                }
                assert forall|a: int, b: int|
                    0 <= a < b < out@.len() implies (#[trigger] out@[a])@.0 <= (
                #[trigger] out@[b])@.0 by {
                    if b == out@.len() - 1 {
                        assert(out@[a] == prev_out[a]);
                        let bb = choose|bb: int| 0 <= bb < j && prev_out[a]@ == sorted@[bb]@;
                        assert(sorted@[bb]@.0 <= sorted@[j as int]@.0);
                    }
                }
                assert forall|a: int| 0 <= a < out@.len() implies exists|n: Seq<u8>|
                    preview_from(c, n, 0, 1) == Some((#[trigger] out@[a])@) by {
                    if a < prev_out.len() {
                        assert(out@[a] == prev_out[a]);
                    } else {
                        assert(out@[a]@ == sorted@[j as int]@);
                    }
                }
            }
        }
        j = j + 1;
    }
    out
}

/// Score the lowercased contents of one document against the query and
/// collect its previews: the phrase bonus, then 10 per byte for each
/// contained term, then 1 for each contained query trigram. Previews
/// are sorted by line and kept once each.
pub fn rank_bytes(c: &[u8], terms: &Vec<Vec<u8>>, tris: &Vec<Trigram>) -> (r: (usize, Vec<Preview>))
    requires
        110 * total_len(byte_views(terms@)) + tris@.len() <= usize::MAX,
    ensures
        r.0 == rank_spec(c@, byte_views(terms@), trigram_views(tris@)),
        previews_genuine(c@, r.1@),
        forall|a: int, b: int| 0 <= a < b < r.1@.len() ==> (#[trigger] r.1@[a])@.0 <= (
        #[trigger] r.1@[b])@.0,
        forall|a: int, b: int| 0 <= a < b < r.1@.len() ==> (#[trigger] r.1@[a])@ != (
        #[trigger] r.1@[b])@,
{
    let ghost tv = byte_views(terms@);
    let ghost xv = trigram_views(tris@);
    proof {
        lemma_total_upto_bounds(tv, 0, tv.len() as int);
    }
    let mut rank: usize = 0;
    let mut cand: Vec<Preview> = Vec::new();
    // phrase match
    if terms.len() > 0 {
        proof {
            assert(tv[0] == terms@[0]@);
        }
        match find_bytes(c, terms[0].as_slice()) {
            Some(start) => {
                proof {
                    lemma_first_match_bounds(c@, terms@[0]@, 0);
                }
                match phrase_scan(c, terms, start) {
                    Some(endp) => {
                        let tl = total_len_exec(terms);
                        rank = 100 * tl;
                        proof {
                            assert(rank == phrase_bonus(c@, tv));
                        }
                        if endp > start {
                            let span = vstd::slice::slice_subrange(c, start, endp);
                            match get_preview(c, span) {
                                Some(pv) => {
                                    cand.push(pv);
                                    proof {
                                        assert(preview_from(c@, span@, 0, 1) == Some(
                                            cand@[0]@,
                                        ));
                                        assert(previews_genuine(c@, cand@));
                                    }
                                },
                                None => {},
                            }
                        }
                    },
                    None => {
                        proof {
                            assert(phrase_bonus(c@, tv) == 0);
                        }
                    },
                }
            },
            None => {
                proof {
                    assert(phrase_bonus(c@, tv) == 0);
                }
            },
        }
    } else {
        proof {
            assert(phrase_bonus(c@, tv) == 0);
        }
    }
    let ghost pb = phrase_bonus(c@, tv);
    // contained terms
    let mut i: usize = 0;
    while i < terms.len()
        invariant
            tv == byte_views(terms@),
            110 * total_len(tv) + tris@.len() <= usize::MAX,
            pb == phrase_bonus(c@, tv),
            0 <= pb <= 100 * total_len(tv),
            0 <= i <= terms@.len(),
            rank == pb + term_bonus(c@, tv, i as int),
            0 <= term_bonus(c@, tv, i as int) <= 10 * total_upto(tv, i as int),
            previews_genuine(c@, cand@),
        decreases terms@.len() - i,
    {
        proof {
            assert(tv[i as int] == terms@[i as int]@);
            lemma_total_upto_bounds(tv, i as int + 1, tv.len() as int);
            lemma_total_upto_bounds(tv, i as int, i as int + 1);
        }
        let ghost prev_c = cand@;
        if contains_bytes(c, terms[i].as_slice()) {
            rank = rank + 10 * terms[i].len();
            match get_preview(c, terms[i].as_slice()) {
                Some(pv) => {
                    cand.push(pv);
                    proof {
                        assert forall|a: int| 0 <= a < cand@.len() implies exists|n: Seq<u8>|
                            preview_from(c@, n, 0, 1) == Some((#[trigger] cand@[a])@) by {
                            if a < prev_c.len() {
                                assert(cand@[a] == prev_c[a]);
                            } else {
                                assert(preview_from(c@, terms@[i as int]@, 0, 1) == Some(
                                    cand@[a]@,
                                ));
                            }
                        }
                    }
                },
                None => {},
            }
        }
        i = i + 1;
    }
    let ghost tb = term_bonus(c@, tv, tv.len() as int);
    // contained trigrams
    let mut q: usize = 0;
    while q < tris.len()
        invariant
            tv == byte_views(terms@),
            xv == trigram_views(tris@),
            110 * total_len(tv) + tris@.len() <= usize::MAX,
            pb == phrase_bonus(c@, tv),
            tb == term_bonus(c@, tv, tv.len() as int),
            0 <= pb <= 100 * total_len(tv),
            0 <= tb <= 10 * total_len(tv),
            0 <= q <= tris@.len(),
            rank == pb + tb + tri_bonus(c@, xv, q as int),
            0 <= tri_bonus(c@, xv, q as int) <= q,
            previews_genuine(c@, cand@),
        decreases tris@.len() - q,
    {
        proof {
            assert(xv[q as int] == tris@[q as int]@);
        }
        let tb3 = tri_to_vec(&tris[q]);
        let ghost prev_c = cand@;
        if contains_bytes(c, tb3.as_slice()) {
            rank = rank + 1;
            match get_preview(c, tb3.as_slice()) {
                Some(pv) => {
                    cand.push(pv);
                    proof {
                        assert forall|a: int| 0 <= a < cand@.len() implies exists|n: Seq<u8>|
                            preview_from(c@, n, 0, 1) == Some((#[trigger] cand@[a])@) by {
                            if a < prev_c.len() {
                                assert(cand@[a] == prev_c[a]);
                            } else {
                                assert(preview_from(c@, tb3@, 0, 1) == Some(cand@[a]@));
                            }
                        }
                    }
                },
                None => {},
            }
        }
        q = q + 1;
    }
    let out = sort_dedup_previews(cand, Ghost(c@));
    (rank, out)
}

/// The bytes of the Unicode-lowercased form of a string. Named, not
/// defined: the Unicode case tables are outside this library.
pub uninterp spec fn lower_utf8_of(s: Seq<char>) -> Seq<u8>;

/// Relies on `str::to_lowercase`: the lowercased form of the contents
/// depends on the characters alone; `lower_utf8_of` names its bytes.
#[verifier::external_body]
fn to_lowercase_bytes(s: &str) -> (r: Vec<u8>)
    ensures
        r@ == lower_utf8_of(s@),
{
    s.to_lowercase().into_bytes()
}

/// Score one candidate document: lowercase its contents, then rank the
/// bytes against the query terms and trigrams.
pub fn rank_document(contents: &str, terms: &Vec<Vec<u8>>, tris: &Vec<Trigram>) -> (r: (
    usize,
    Vec<Preview>,
))
    requires
        110 * total_len(byte_views(terms@)) + tris@.len() <= usize::MAX,
    ensures
        r.0 == rank_spec(lower_utf8_of(contents@), byte_views(terms@), trigram_views(tris@)),
        previews_genuine(lower_utf8_of(contents@), r.1@),
        forall|a: int, b: int| 0 <= a < b < r.1@.len() ==> (#[trigger] r.1@[a])@.0 <= (
        #[trigger] r.1@[b])@.0,
        forall|a: int, b: int| 0 <= a < b < r.1@.len() ==> (#[trigger] r.1@[a])@ != (
        #[trigger] r.1@[b])@,
{
    let lower = to_lowercase_bytes(contents);
    rank_bytes(lower.as_slice(), terms, tris)
}

/// One search result: a document's path, its score, and its previews.
#[derive(Debug)]
pub struct SearchResult {
    pub path: Vec<u8>,
    pub rank: usize,
    pub previews: Vec<Preview>,
}

/// Sort the results by decreasing score, keeping the arrival order of
/// equal scores; the caller prints the leading few.
pub fn sort_results(results: Vec<SearchResult>) -> (r: Vec<SearchResult>)
    ensures
        r@.len() == results@.len(),
        r@.to_multiset() == results@.to_multiset(),
        forall|a: int, b: int| 0 <= a < b < r@.len() ==> (#[trigger] r@[a]).rank >= (
        #[trigger] r@[b]).rank,
{
    let mut r: Vec<SearchResult> = Vec::new();
    let mut i: usize = 0;
    proof {
        results@.take(0).to_multiset_ensures();
        assert(results@.take(0) =~= Seq::<SearchResult>::empty());
        r@.to_multiset_ensures();
        assert(r@.to_multiset() =~= results@.take(0).to_multiset());
    }
    let mut rest = results;
    let n = rest.len();
    let ghost orig = rest@;
    while i < n
        invariant
            n == orig.len(),
            0 <= i <= n,
            rest@ == orig.skip(i as int),
            r@.len() == i,
            r@.to_multiset() == orig.take(i as int).to_multiset(),
            forall|a: int, b: int|
                0 <= a < b < r@.len() ==> (#[trigger] r@[a]).rank >= (#[trigger] r@[b]).rank,
        decreases n - i,
    {
        let x = rest.remove(0);
        proof {
            assert(x == orig[i as int]);
            assert(rest@ =~= orig.skip(i as int + 1));
        }
        let ghost prev = r@;
        let mut p: usize = 0;
        while p < r.len() && r[p].rank >= x.rank
            invariant
                0 <= p <= r@.len(),
                forall|q: int| 0 <= q < p ==> (#[trigger] r@[q]).rank >= x.rank,
            decreases r@.len() - p,
        {
            p = p + 1;
        }
        r.insert(p, x);
        proof {
            crate::index::lemma_insert_multiset(prev, p as int, x);
            orig.take(i + 1).to_multiset_ensures();
            assert(orig.take(i + 1) =~= orig.take(i as int).push(orig[i as int]));
            orig.take(i as int).to_multiset_ensures();
            assert(r@.to_multiset() =~= orig.take(i + 1).to_multiset());
            assert forall|a: int, b: int|
                0 <= a < b < r@.len() implies (#[trigger] r@[a]).rank >= (
            #[trigger] r@[b]).rank by {
                if b == p {
                    assert(r@[a] == prev[a]);
                } else if a == p {
                    assert(r@[b] == prev[b - 1]);
                    assert(p < prev.len() && b - 1 >= p);
                    assert(prev[p as int].rank < x.rank);
                    if b - 1 > p {
                        assert(prev[p as int].rank >= prev[b - 1].rank);
                    }
                } else if b < p {
                    assert(r@[a] == prev[a] && r@[b] == prev[b]);
                } else if a < p {
                    assert(r@[a] == prev[a] && r@[b] == prev[b - 1]);
                } else {
                    assert(r@[a] == prev[a - 1] && r@[b] == prev[b - 1]);
                }
            }
        }
        i = i + 1;
    }
    proof {
        assert(orig.take(orig.len() as int) =~= orig);
    }
    r
}

} // verus!
