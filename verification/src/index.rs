//! The index file: its binary format and its query paths.
//!
//! An index is a byte image of the on-disk file. The format is: a 12-byte
//! header (magic `KCS`, an n-gram width byte of 3, then document and
//! n-gram counts as big-endian `u32`); a posting-list table of fixed-width
//! records, each a 3-byte trigram followed by a `ceil(D / 8)`-byte bitmap,
//! sorted ascending by trigram; and a document table of length-prefixed
//! paths, one per document ordinal.

use vstd::multiset::Multiset;
use vstd::prelude::*;

use crate::bitmap::bit_at;
use crate::bitmap::BitMap;
use crate::index_error::IndexError;
use crate::trigram::extract_trigrams;
use crate::trigram::extract_spec;
use crate::trigram::is_binary;
use crate::trigram::trigram_views;
use crate::trigram::Trigram;

verus! {

/// The byte length of the header.
pub const HEADER_LEN: usize = 12;

/// The byte width of a posting-list bitmap for `d` documents.
pub open spec fn bitmap_len_spec(d: nat) -> nat {
    (d + 7) / 8
}

/// A big-endian 32-bit integer read from 4 bytes.
pub open spec fn be32(b: Seq<u8>) -> int
    recommends
        b.len() == 4,
{
    b[0] * 0x1000000 + b[1] * 0x10000 + b[2] * 0x100 + b[3]
}

/// The 4 big-endian bytes of a 32-bit integer.
pub open spec fn u32_be(v: int) -> Seq<u8>
    recommends
        0 <= v <= u32::MAX,
{
    seq![
        ((v / 0x1000000) % 0x100) as u8,
        ((v / 0x10000) % 0x100) as u8,
        ((v / 0x100) % 0x100) as u8,
        (v % 0x100) as u8,
    ]
}

/// Reading back the big-endian bytes of a value gives the value.
pub proof fn lemma_be32_roundtrip(v: int)
    requires
        0 <= v <= u32::MAX,
    ensures
        be32(u32_be(v)) == v,
{
}

/// Strict bytewise lexicographic order on 3-byte trigrams.
pub open spec fn tri_lt(a: Seq<u8>, b: Seq<u8>) -> bool
    recommends
        a.len() == 3,
        b.len() == 3,
{
    a[0] < b[0] || (a[0] == b[0] && (a[1] < b[1] || (a[1] == b[1] && a[2] < b[2])))
}

/// The width of one posting-list record for `d` documents.
pub open spec fn record_len(d: nat) -> int {
    3 + bitmap_len_spec(d) as int
}

/// Where the posting-list record `k` starts.
pub open spec fn posting_off(d: nat, k: int) -> int {
    HEADER_LEN + k * record_len(d)
}

/// The trigram bytes of posting-list record `k`.
pub open spec fn posting_trigram(data: Seq<u8>, d: nat, k: int) -> Seq<u8> {
    data.subrange(posting_off(d, k), posting_off(d, k) + 3)
}

/// The bitmap bytes of posting-list record `k`.
pub open spec fn posting_bitmap(data: Seq<u8>, d: nat, k: int) -> Seq<u8> {
    data.subrange(posting_off(d, k) + 3, posting_off(d, k) + record_len(d))
}

/// Where the document table starts.
pub open spec fn doc_table_start(d: nat, g: nat) -> int {
    HEADER_LEN + g * record_len(d)
}

/// Parse `count` length-prefixed document paths starting at `off`.
/// `None` when the table is truncated. Trailing bytes are ignored: a
/// rewrite may leave stale bytes after the tables.
pub open spec fn parse_docs(data: Seq<u8>, off: int, count: nat) -> Option<Seq<Seq<u8>>>
    decreases count,
{
    if count == 0 {
        Some(seq![])
    } else if off + 4 <= data.len() {
        let len = be32(data.subrange(off, off + 4));
        if off + 4 + len <= data.len() {
            match parse_docs(data, off + 4 + len, (count - 1) as nat) {
                Some(rest) => Some(seq![data.subrange(off + 4, off + 4 + len)] + rest),
                None => None,
            }
        } else {
            None
        }
    } else {
        None
    }
}

/// A parsed document table has exactly `count` entries.
pub proof fn lemma_parse_docs_len(data: Seq<u8>, off: int, count: nat)
    requires
        parse_docs(data, off, count) is Some,
    ensures
        parse_docs(data, off, count)->Some_0.len() == count,
    decreases count,
{
    if count > 0 {
        let len = be32(data.subrange(off, off + 4));
        lemma_parse_docs_len(data, off + 4 + len, (count - 1) as nat);
    }
}

/// The first three header bytes spell `KCS`.
pub open spec fn magic_ok(data: Seq<u8>) -> bool {
    data.len() >= 12 && data[0] == 0x4b && data[1] == 0x43 && data[2] == 0x53
}

/// The tables behind the header are complete: the posting-list table
/// fits, the document table parses, and the posting-list records are
/// strictly ascending by trigram.
pub open spec fn tables_ok(data: Seq<u8>, d: nat, g: nat) -> bool {
    &&& doc_table_start(d, g) <= data.len()
    &&& parse_docs(data, doc_table_start(d, g), d) is Some
    &&& forall|k: int|
        0 <= k < g - 1 ==> tri_lt(
            #[trigger] posting_trigram(data, d, k),
            posting_trigram(data, d, k + 1),
        )
}

/// A well-formed index image for the given counts.
pub open spec fn wf_data(data: Seq<u8>, d: nat, g: nat) -> bool {
    &&& magic_ok(data)
    &&& data[3] == 3
    &&& be32(data.subrange(4, 8)) == d
    &&& be32(data.subrange(8, 12)) == g
    &&& tables_ok(data, d, g)
}

/// A file handed to the index builder: its path (raw OS-native bytes)
/// and its contents.
pub struct InputFile {
    pub path: Vec<u8>,
    pub content: Vec<u8>,
}

/// A document of the corpus: its path and its distinct trigrams.
pub struct Document {
    pub path: Vec<u8>,
    pub trigrams: Vec<Trigram>,
}

/// One posting-list record in memory: a trigram and the bitmap of the
/// documents that contain it.
pub struct Posting {
    pub tri: Trigram,
    pub map: BitMap,
}

/// The model of a document: its path bytes and its trigram byte strings.
pub open spec fn doc_model(d: Document) -> (Seq<u8>, Seq<Seq<u8>>) {
    (d.path@, trigram_views(d.trigrams@))
}

/// The models of a document list.
pub open spec fn docs_model(docs: Seq<Document>) -> Seq<(Seq<u8>, Seq<Seq<u8>>)> {
    docs.map_values(|d: Document| doc_model(d))
}

/// The documents a corpus yields: for each input file that is not
/// binary and has at least one trigram, its path and its extracted
/// trigrams, in input order.
pub open spec fn built_docs(files: Seq<InputFile>) -> Seq<(Seq<u8>, Seq<Seq<u8>>)>
    decreases files.len(),
{
    if files.len() == 0 {
        seq![]
    } else {
        let rest = built_docs(files.drop_last());
        let f = files.last();
        if !is_binary(f.content@) && extract_spec(f.content@).len() != 0 {
            rest.push((f.path@, extract_spec(f.content@)))
        } else {
            rest
        }
    }
}

/// The indices of the input files whose extraction failed as binary.
pub open spec fn binary_file_indices(files: Seq<InputFile>) -> Seq<int>
    decreases files.len(),
{
    if files.len() == 0 {
        seq![]
    } else {
        let rest = binary_file_indices(files.drop_last());
        if is_binary(files.last().content@) {
            rest.push(files.len() - 1)
        } else {
            rest
        }
    }
}

/// Extract trigrams for every input file. Files that fail extraction as
/// binary are skipped and their indices reported; files with no
/// trigrams are skipped silently. The survivors become the documents,
/// with ordinals in input order.
pub fn build_documents(files: Vec<InputFile>) -> (r: (Vec<Document>, Vec<usize>))
    ensures
        docs_model(r.0@) == built_docs(files@),
        r.1@.map_values(|u: usize| u as int) == binary_file_indices(files@),
{
    let mut docs: Vec<Document> = Vec::new();
    let mut failed: Vec<usize> = Vec::new();
    let mut i: usize = 0;
    while i < files.len()
        invariant
            0 <= i <= files@.len(),
            docs_model(docs@) == built_docs(files@.take(i as int)),
            failed@.map_values(|u: usize| u as int) == binary_file_indices(files@.take(i as int)),
        decreases files@.len() - i,
    {
        let ghost prev_docs = docs@;
        let ghost prev_failed = failed@;
        let f = &files[i];
        match extract_trigrams(f.content.as_slice()) {
            Ok(trigrams) => {
                if trigrams.len() > 0 {
                    let mut path: Vec<u8> = Vec::new();
                    let mut k: usize = 0;
                    while k < f.path.len()
                        invariant
                            0 <= k <= f.path@.len(),
                            f == &files@[i as int],
                            i < files@.len(),
                            path@ == f.path@.take(k as int),
                        decreases f.path@.len() - k,
                    {
                        path.push(f.path[k]);
                        proof {
                            assert(path@ =~= f.path@.take(k + 1));
                        }
                        k = k + 1;
                    }
                    proof {
                        assert(path@ =~= f.path@);
                    }
                    docs.push(Document { path, trigrams });
                    proof {
                        assert(docs_model(docs@) =~= docs_model(prev_docs).push(
                            doc_model(docs@.last()),
                        ));
                    }
                }
            },
            Err(_) => {
                failed.push(i);
                proof {
                    assert(failed@.map_values(|u: usize| u as int) =~= prev_failed.map_values(
                        |u: usize| u as int,
                    ).push(i as int));
                }
            },
        }
        i = i + 1;
        proof {
            assert(files@.take(i as int).drop_last() =~= files@.take(i as int - 1));
            assert(files@.take(i as int).last() == files@[i as int - 1]);
            assert(docs_model(docs@) =~= built_docs(files@.take(i as int)));
            assert(failed@.map_values(|u: usize| u as int) =~= binary_file_indices(
                files@.take(i as int),
            ));
        }
    }
    proof {
        assert(files@.take(files@.len() as int) =~= files@);
    }
    (docs, failed)
}

/// Every key occurs in some document's trigram list.
pub open spec fn keys_sound(ks: Seq<Trigram>, docs: Seq<Document>) -> bool {
    forall|k: int|
        0 <= k < ks.len() ==> exists|i: int|
            0 <= i < docs.len() && trigram_views(docs[i].trigrams@).contains(#[trigger] ks[k]@)
}

/// The distinct trigrams of a document list, in first-occurrence order.
fn collect_keys(docs: &Vec<Document>) -> (r: Vec<Trigram>)
    ensures
        forall|a: int, b: int| 0 <= a < b < r@.len() ==> r@[a]@ != r@[b]@,
        keys_sound(r@, docs@),
        forall|i: int, j: int|
            0 <= i < docs@.len() && 0 <= j < docs@[i].trigrams@.len() ==> trigram_views(
                r@,
            ).contains(#[trigger] trigram_views(docs@[i].trigrams@)[j]),
{
    let mut r: Vec<Trigram> = Vec::new();
    let mut i: usize = 0;
    while i < docs.len()
        invariant
            0 <= i <= docs@.len(),
            forall|a: int, b: int| 0 <= a < b < r@.len() ==> r@[a]@ != r@[b]@,
            keys_sound(r@, docs@),
            forall|ii: int, j: int|
                0 <= ii < i && 0 <= j < docs@[ii].trigrams@.len() ==> trigram_views(
                    r@,
                ).contains(#[trigger] trigram_views(docs@[ii].trigrams@)[j]),
        decreases docs@.len() - i,
    {
        let tris = &docs[i].trigrams;
        let mut j: usize = 0;
        while j < tris.len()
            invariant
                0 <= i < docs@.len(),
                0 <= j <= tris@.len(),
                tris == &docs@[i as int].trigrams,
                forall|a: int, b: int| 0 <= a < b < r@.len() ==> r@[a]@ != r@[b]@,
                keys_sound(r@, docs@),
                forall|ii: int, jj: int|
                    0 <= ii < i && 0 <= jj < docs@[ii].trigrams@.len() ==> trigram_views(
                        r@,
                    ).contains(#[trigger] trigram_views(docs@[ii].trigrams@)[jj]),
                forall|jj: int|
                    0 <= jj < j ==> trigram_views(r@).contains(
                        trigram_views(docs@[i as int].trigrams@)[jj],
                    ),
            decreases tris@.len() - j,
        {
            let t = tris[j];
            let ghost prev = r@;
            if !crate::trigram::contains_trigram(&r, &t) {
                r.push(t);
                proof {
                    assert(trigram_views(r@) =~= trigram_views(prev).push(t@));
                    assert forall|v: Seq<u8>| trigram_views(prev).contains(v) implies trigram_views(
                        r@,
                    ).contains(v) by {
                        let k = choose|k: int|
                            0 <= k < trigram_views(prev).len() && trigram_views(prev)[k] == v;
                        assert(trigram_views(r@)[k] == v);
                    }
                    assert forall|a: int, b: int| 0 <= a < b < r@.len() implies r@[a]@ != r@[b]@ by {
                        if b == r@.len() - 1 {
                            if r@[a]@ == t@ {
                                assert(trigram_views(prev)[a] == t@);
                                assert(trigram_views(prev).contains(t@));
                            }
                        }
                    }
                    assert(trigram_views(docs@[i as int].trigrams@).contains(t@)) by {
                        assert(trigram_views(docs@[i as int].trigrams@)[j as int] == t@);
                    }
                    assert forall|k: int| 0 <= k < r@.len() implies exists|ii: int|
                        0 <= ii < docs@.len() && trigram_views(docs@[ii].trigrams@).contains(
                            #[trigger] r@[k]@,
                        ) by {
                        if k < prev.len() {
                            assert(r@[k] == prev[k]);
                        } else {
                            assert(r@[k]@ == t@);
                            assert(trigram_views(docs@[i as int].trigrams@).contains(r@[k]@));
                        }
                    }
                    assert(keys_sound(r@, docs@));
                    assert forall|jj: int| 0 <= jj < j + 1 implies trigram_views(r@).contains(
                        #[trigger] trigram_views(docs@[i as int].trigrams@)[jj],
                    ) by {
                        let v = trigram_views(docs@[i as int].trigrams@)[jj];
                        if jj < j {
                            assert(trigram_views(prev).contains(v));
                        } else {
                            assert(trigram_views(r@)[r@.len() - 1] == t@);
                        }
                    }
                }
            } else {
                proof {
                    assert(trigram_views(docs@[i as int].trigrams@)[j as int] == t@);
                }
            }
            j = j + 1;
        }
        i = i + 1;
    }
    r
}

/// Appending to a sequence adds one element to its multiset; inserting
/// anywhere does the same.
pub(crate) proof fn lemma_insert_multiset<T>(s: Seq<T>, p: int, x: T)
    requires
        0 <= p <= s.len(),
    ensures
        s.insert(p, x).to_multiset() == s.to_multiset().insert(x),
{
    broadcast use vstd::seq_lib::group_seq_properties;

    let left = s.subrange(0, p);
    let right = s.subrange(p, s.len() as int);
    assert(s.insert(p, x) =~= left + (seq![x] + right));
    assert(s =~= left + right);
    vstd::seq_lib::lemma_multiset_commutative(left, seq![x] + right);
    vstd::seq_lib::lemma_multiset_commutative(seq![x], right);
    vstd::seq_lib::lemma_multiset_commutative(left, right);
    assert(seq![x].to_multiset() =~= Multiset::<T>::empty().insert(x)) by {
        assert(seq![x] =~= Seq::<T>::empty().push(x));
        Seq::<T>::empty().to_multiset_ensures();
    }
    assert(s.insert(p, x).to_multiset() =~= s.to_multiset().insert(x));
}

/// Sort trigram keys ascending, by insertion into position.
fn sort_keys(keys: &Vec<Trigram>) -> (r: Vec<Trigram>)
    ensures
        r@.to_multiset() == keys@.to_multiset(),
        r@.len() == keys@.len(),
        forall|a: int, b: int| 0 <= a < b < r@.len() ==> !tri_lt(r@[b]@, r@[a]@),
{
    let mut r: Vec<Trigram> = Vec::new();
    let mut i: usize = 0;
    proof {
        keys@.take(0).to_multiset_ensures();
        assert(keys@.take(0) =~= Seq::<Trigram>::empty());
        r@.to_multiset_ensures();
        assert(r@.to_multiset() =~= keys@.take(0).to_multiset());
    }
    while i < keys.len()
        invariant
            0 <= i <= keys@.len(),
            r@.len() == i,
            r@.to_multiset() == keys@.take(i as int).to_multiset(),
            forall|a: int, b: int| 0 <= a < b < r@.len() ==> !tri_lt(r@[b]@, r@[a]@),
        decreases keys@.len() - i,
    {
        let x = keys[i];
        let ghost prev = r@;
        // find the first position whose key is above `x`
        let mut p: usize = 0;
        while p < r.len() && !tri_bytes_lt(x.b0, x.b1, x.b2, r[p].b0, r[p].b1, r[p].b2)
            invariant
                0 <= p <= r@.len(),
                forall|q: int| 0 <= q < p ==> !tri_lt(x@, #[trigger] r@[q]@),
            decreases r@.len() - p,
        {
            proof {
                assert(r@[p as int]@ =~= seq![r@[p as int].b0, r@[p as int].b1, r@[p as int].b2]);
                assert(x@ =~= seq![x.b0, x.b1, x.b2]);
            }
            p = p + 1;
        }
        proof {
            if p < r@.len() {
                assert(r@[p as int]@ =~= seq![r@[p as int].b0, r@[p as int].b1, r@[p as int].b2]);
                assert(x@ =~= seq![x.b0, x.b1, x.b2]);
                assert(tri_lt(x@, r@[p as int]@));
            }
        }
        r.insert(p, x);
        proof {
            lemma_insert_multiset(prev, p as int, x);
            keys@.take(i + 1).to_multiset_ensures();
            assert(keys@.take(i + 1) =~= keys@.take(i as int).push(keys@[i as int]));
            keys@.take(i as int).to_multiset_ensures();
            assert(r@.to_multiset() =~= keys@.take(i + 1).to_multiset());
            assert forall|a: int, b: int| 0 <= a < b < r@.len() implies !tri_lt(r@[b]@, r@[a]@) by {
                if b == p {
                    // r[b] is x; earlier entries are at or below x
                    assert(r@[a] == prev[a]);
                    assert(!tri_lt(x@, prev[a]@));
                    if tri_lt(x@, prev[a]@) {
                        assert(false);
                    }
                } else if a == p {
                    // r[a] is x; later entries are strictly above x
                    assert(r@[b] == prev[b - 1]);
                    assert(p <= b - 1 < prev.len());
                    if tri_lt(prev[b - 1]@, x@) {
                        assert(tri_lt(x@, prev[p as int]@));
                        lemma_tri_trans(prev[b - 1]@, x@, prev[p as int]@);
                        assert(false);
                    }
                } else if a < p && b < p {
                    assert(r@[a] == prev[a] && r@[b] == prev[b]);
                } else if a < p {
                    assert(r@[a] == prev[a] && r@[b] == prev[b - 1]);
                } else {
                    assert(r@[a] == prev[a - 1] && r@[b] == prev[b - 1]);
                }
            }
        }
        i = i + 1;
    }
    proof {
        assert(keys@.take(keys@.len() as int) =~= keys@);
    }
    r
}

/// Trigrams with distinct bytes are at most as many as there are 3-byte
/// values.
proof fn lemma_distinct_trigram_bound(ks: Seq<Trigram>)
    requires
        forall|a: int, b: int| 0 <= a < b < ks.len() ==> ks[a]@ != ks[b]@,
    ensures
        ks.len() <= 0x1000000,
{
    let codes = ks.map_values(
        |t: Trigram| (t.b0 as int) * 0x10000 + (t.b1 as int) * 0x100 + (t.b2 as int),
    );
    assert forall|a: int, b: int| 0 <= a < b < codes.len() implies codes[a] != codes[b] by {
        if codes[a] == codes[b] {
            let x = ks[a];
            let y = ks[b];
            assert((x.b0 as int) * 0x10000 + (x.b1 as int) * 0x100 + (x.b2 as int) == (
            y.b0 as int) * 0x10000 + (y.b1 as int) * 0x100 + (y.b2 as int));
            assert(x.b0 == y.b0 && x.b1 == y.b1 && x.b2 == y.b2);
            assert(x@ =~= y@);
        }
    }
    assert(codes.no_duplicates());
    codes.unique_seq_to_set();
    assert(codes.to_set().subset_of(vstd::set_lib::set_int_range(0, 0x1000000))) by {
        assert forall|c: int| codes.to_set().contains(c) implies 0 <= c < 0x1000000 by {
            let k = choose|k: int| 0 <= k < codes.len() && codes[k] == c;
            assert(codes[k] == (ks[k].b0 as int) * 0x10000 + (ks[k].b1 as int) * 0x100 + (
            ks[k].b2 as int));
        }
    }
    vstd::set_lib::lemma_int_range(0, 0x1000000);
    vstd::set_lib::lemma_len_subset(codes.to_set(), vstd::set_lib::set_int_range(0, 0x1000000));
}

/// Build one posting-list record per key, in key order: the bitmap of
/// key `k` has bit `i` set exactly when document `i` contains the key.
fn build_postings(docs: &Vec<Document>, keys: &Vec<Trigram>) -> (r: Vec<Posting>)
    ensures
        r@.len() == keys@.len(),
        forall|k: int| 0 <= k < r@.len() ==> (#[trigger] r@[k]).tri == keys@[k],
        forall|k: int|
            0 <= k < r@.len() ==> (#[trigger] r@[k]).map@.len() == bitmap_len_spec(
                docs@.len() as nat,
            ),
        forall|k: int, i: int|
            0 <= k < r@.len() && 0 <= i < docs@.len() ==> #[trigger] bit_at(r@[k].map@, i)
                == trigram_views(docs@[i].trigrams@).contains(r@[k].tri@),
        forall|k: int, i: int|
            0 <= k < r@.len() && docs@.len() <= i < 8 * bitmap_len_spec(docs@.len() as nat)
                ==> !#[trigger] bit_at(r@[k].map@, i),
{
    let mut r: Vec<Posting> = Vec::new();
    let mut k: usize = 0;
    while k < keys.len()
        invariant
            0 <= k <= keys@.len(),
            r@.len() == k,
            forall|q: int| 0 <= q < r@.len() ==> (#[trigger] r@[q]).tri == keys@[q],
            forall|q: int|
                0 <= q < r@.len() ==> (#[trigger] r@[q]).map@.len() == bitmap_len_spec(
                    docs@.len() as nat,
                ),
            forall|q: int, i: int|
                0 <= q < r@.len() && 0 <= i < docs@.len() ==> #[trigger] bit_at(r@[q].map@, i)
                    == trigram_views(docs@[i].trigrams@).contains(r@[q].tri@),
            forall|q: int, i: int|
                0 <= q < r@.len() && docs@.len() <= i < 8 * bitmap_len_spec(docs@.len() as nat)
                    ==> !#[trigger] bit_at(r@[q].map@, i),
        decreases keys@.len() - k,
    {
        let t = keys[k];
        let mut bm = BitMap::new(docs.len());
        proof {
            crate::bitmap::lemma_zero_bytes_no_bits(bm@);
        }
        let mut i: usize = 0;
        while i < docs.len()
            invariant
                0 <= i <= docs@.len(),
                bm@.len() == bitmap_len_spec(docs@.len() as nat),
                forall|ii: int|
                    0 <= ii < i ==> #[trigger] bit_at(bm@, ii) == trigram_views(
                        docs@[ii].trigrams@,
                    ).contains(t@),
                forall|ii: int| i <= ii < 8 * bm@.len() ==> !#[trigger] bit_at(bm@, ii),
            decreases docs@.len() - i,
        {
            if crate::trigram::contains_trigram(&docs[i].trigrams, &t) {
                proof {
                    assert(i < 8 * bm@.len());
                }
                bm.set(i, true);
            }
            i = i + 1;
        }
        r.push(Posting { tri: t, map: bm });
        k = k + 1;
    }
    r
}

/// The paths of a document list.
pub open spec fn docs_paths(docs: Seq<Document>) -> Seq<Seq<u8>> {
    docs.map_values(|d: Document| d.path@)
}

/// The byte encoding of a posting-list table: fixed-width records, each
/// a trigram followed by its bitmap.
pub open spec fn encode_postings(ps: Seq<Posting>) -> Seq<u8>
    decreases ps.len(),
{
    if ps.len() == 0 {
        seq![]
    } else {
        ps[0].tri@ + ps[0].map@ + encode_postings(ps.drop_first())
    }
}

/// The byte encoding of a document table: each path length-prefixed by
/// a big-endian `u32`.
pub open spec fn encode_docs(paths: Seq<Seq<u8>>) -> Seq<u8>
    decreases paths.len(),
{
    if paths.len() == 0 {
        seq![]
    } else {
        u32_be(paths[0].len() as int) + paths[0] + encode_docs(paths.drop_first())
    }
}

/// The byte encoding of a whole index file: header, posting-list table,
/// document table.
pub open spec fn encode_index_spec(ps: Seq<Posting>, paths: Seq<Seq<u8>>) -> Seq<u8> {
    seq![0x4bu8, 0x43u8, 0x53u8, 3u8] + u32_be(paths.len() as int) + u32_be(ps.len() as int)
        + encode_postings(ps) + encode_docs(paths)
}

proof fn lemma_encode_postings_snoc(ps: Seq<Posting>, p: Posting)
    ensures
        encode_postings(ps.push(p)) == encode_postings(ps) + p.tri@ + p.map@,
    decreases ps.len(),
{
    if ps.len() == 0 {
        assert(ps =~= Seq::<Posting>::empty());
        assert(ps.push(p).drop_first() =~= Seq::<Posting>::empty());
        assert(ps.push(p)[0] == p);
        assert(encode_postings(Seq::<Posting>::empty()) == Seq::<u8>::empty());
        assert(encode_postings(ps.push(p)) == p.tri@ + p.map@ + encode_postings(
            Seq::<Posting>::empty(),
        ));
        assert(encode_postings(ps.push(p)) =~= encode_postings(ps) + p.tri@ + p.map@);
    } else {
        assert(ps.push(p).drop_first() =~= ps.drop_first().push(p));
        lemma_encode_postings_snoc(ps.drop_first(), p);
        assert(ps.push(p)[0] == ps[0]);
        assert(encode_postings(ps.push(p)) =~= encode_postings(ps) + p.tri@ + p.map@);
    }
}

proof fn lemma_encode_docs_snoc(paths: Seq<Seq<u8>>, p: Seq<u8>)
    ensures
        encode_docs(paths.push(p)) == encode_docs(paths) + u32_be(p.len() as int) + p,
    decreases paths.len(),
{
    if paths.len() == 0 {
        assert(paths =~= Seq::<Seq<u8>>::empty());
        assert(paths.push(p).drop_first() =~= Seq::<Seq<u8>>::empty());
        assert(paths.push(p)[0] == p);
        assert(encode_docs(Seq::<Seq<u8>>::empty()) == Seq::<u8>::empty());
        assert(encode_docs(paths.push(p)) == u32_be(p.len() as int) + p + encode_docs(
            Seq::<Seq<u8>>::empty(),
        ));
        assert(encode_docs(paths.push(p)) =~= encode_docs(paths) + u32_be(p.len() as int) + p);
    } else {
        assert(paths.push(p).drop_first() =~= paths.drop_first().push(p));
        lemma_encode_docs_snoc(paths.drop_first(), p);
        assert(paths.push(p)[0] == paths[0]);
        assert(encode_docs(paths.push(p)) =~= encode_docs(paths) + u32_be(p.len() as int) + p);
    }
}

/// The posting-list table has fixed-width records: its length, and the
/// trigram and bitmap of each record read back by position.
proof fn lemma_encode_postings_extract(ps: Seq<Posting>, d: nat)
    requires
        forall|k: int| 0 <= k < ps.len() ==> (#[trigger] ps[k]).map@.len() == bitmap_len_spec(d),
    ensures
        encode_postings(ps).len() == ps.len() * record_len(d),
        forall|k: int|
            0 <= k < ps.len() ==> encode_postings(ps).subrange(
                k * record_len(d),
                k * record_len(d) + 3,
            ) == (#[trigger] ps[k]).tri@ && encode_postings(ps).subrange(
                k * record_len(d) + 3,
                (k + 1) * record_len(d),
            ) == ps[k].map@,
    decreases ps.len(),
{
    let rec = record_len(d);
    if ps.len() == 0 {
    } else {
        let e = encode_postings(ps);
        let tail = ps.drop_first();
        lemma_encode_postings_extract(tail, d);
        assert(e == ps[0].tri@ + ps[0].map@ + encode_postings(tail));
        assert(ps[0].tri@.len() == 3);
        assert(e.len() == ps.len() * rec) by {
            assert((ps.len() - 1) * rec + rec == ps.len() * rec) by (nonlinear_arith);
        }
        assert forall|k: int| 0 <= k < ps.len() implies e.subrange(k * rec, k * rec + 3) == (
        #[trigger] ps[k]).tri@ && e.subrange(k * rec + 3, (k + 1) * rec) == ps[k].map@ by {
            if k == 0 {
                assert(e.subrange(0, 3) =~= ps[0].tri@);
                assert(e.subrange(3, rec) =~= ps[0].map@);
            } else {
                assert((k - 1) * rec + rec == k * rec && k * rec + rec == (k + 1) * rec)
                    by (nonlinear_arith);
                assert(0 <= (k - 1) * rec && (k - 1) * rec + rec <= encode_postings(tail).len())
                    by (nonlinear_arith)
                    requires
                        1 <= k < ps.len(),
                        rec >= 3,
                        encode_postings(tail).len() == (ps.len() - 1) * rec,
                ;
                assert(tail[k - 1] == ps[k]);
                assert(e.subrange(k * rec, k * rec + 3) =~= encode_postings(tail).subrange(
                    (k - 1) * rec,
                    (k - 1) * rec + 3,
                ));
                assert(e.subrange(k * rec + 3, (k + 1) * rec) =~= encode_postings(tail).subrange(
                    (k - 1) * rec + 3,
                    k * rec,
                ));
            }
        }
    }
}

/// A document table encoded from paths parses back to those paths.
proof fn lemma_parse_encoded_docs(data: Seq<u8>, off: int, paths: Seq<Seq<u8>>)
    requires
        0 <= off,
        off + encode_docs(paths).len() <= data.len(),
        data.subrange(off, off + encode_docs(paths).len()) == encode_docs(paths),
        forall|p: int| 0 <= p < paths.len() ==> (#[trigger] paths[p]).len() <= u32::MAX,
    ensures
        parse_docs(data, off, paths.len() as nat) == Some(paths),
    decreases paths.len(),
{
    if paths.len() == 0 {
        assert(parse_docs(data, off, 0) == Some(Seq::<Seq<u8>>::empty()));
        assert(paths =~= Seq::<Seq<u8>>::empty());
    } else {
        let e = encode_docs(paths);
        let l0 = paths[0].len() as int;
        let tail = paths.drop_first();
        let e1 = encode_docs(tail);
        assert(e == u32_be(l0) + paths[0] + e1);
        assert(e.len() == 4 + l0 + e1.len());
        let sub = data.subrange(off, off + e.len() as int);
        assert(data.subrange(off, off + 4) =~= sub.subrange(0, 4));
        assert(e.subrange(0, 4) =~= u32_be(l0));
        lemma_be32_roundtrip(l0);
        assert(be32(data.subrange(off, off + 4)) == l0);
        assert(data.subrange(off + 4, off + 4 + l0) =~= sub.subrange(4, 4 + l0));
        assert(e.subrange(4, 4 + l0) =~= paths[0]);
        assert(data.subrange(off + 4, off + 4 + l0) == paths[0]);
        assert(data.subrange(off + 4 + l0, off + 4 + l0 + e1.len() as int) =~= sub.subrange(
            4 + l0,
            4 + l0 + e1.len() as int,
        ));
        assert(e.subrange(4 + l0, 4 + l0 + e1.len() as int) =~= e1);
        assert(data.subrange(off + 4 + l0, off + 4 + l0 + e1.len() as int) == e1);
        lemma_parse_encoded_docs(data, off + 4 + l0, tail);
        assert(parse_docs(data, off, paths.len() as nat) == Some(seq![paths[0]] + tail));
        assert(seq![paths[0]] + tail =~= paths);
    }
}

/// The pieces of an encoded index image sit at their offsets.
#[verifier::rlimit(60)]
proof fn lemma_encode_index_layout(ps: Seq<Posting>, paths: Seq<Seq<u8>>)
    ensures
        ({
            let data = encode_index_spec(ps, paths);
            let ep = encode_postings(ps);
            let ed = encode_docs(paths);
            &&& data.len() == 12 + ep.len() + ed.len()
            &&& data[0] == 0x4b && data[1] == 0x43 && data[2] == 0x53 && data[3] == 3
            &&& data.subrange(4, 8) == u32_be(paths.len() as int)
            &&& data.subrange(8, 12) == u32_be(ps.len() as int)
            &&& data.subrange(12, 12 + ep.len() as int) == ep
            &&& data.subrange(12 + ep.len() as int, data.len() as int) == ed
        }),
{
    let data = encode_index_spec(ps, paths);
    let ep = encode_postings(ps);
    let ed = encode_docs(paths);
    assert(data.subrange(4, 8) =~= u32_be(paths.len() as int));
    assert(data.subrange(8, 12) =~= u32_be(ps.len() as int));
    assert(data.subrange(12, 12 + ep.len() as int) =~= ep);
    assert(data.subrange(12 + ep.len() as int, data.len() as int) =~= ed);
}

/// An index image encoded from sorted postings and paths is well formed
/// and reads back record by record.
#[verifier::rlimit(60)]
proof fn lemma_encode_index_wf(ps: Seq<Posting>, paths: Seq<Seq<u8>>)
    requires
        ps.len() <= u32::MAX,
        paths.len() <= u32::MAX,
        forall|k: int|
            0 <= k < ps.len() ==> (#[trigger] ps[k]).map@.len() == bitmap_len_spec(
                paths.len() as nat,
            ),
        forall|p: int| 0 <= p < paths.len() ==> (#[trigger] paths[p]).len() <= u32::MAX,
        forall|k: int| 0 <= k < ps.len() - 1 ==> tri_lt((#[trigger] ps[k]).tri@, ps[k + 1].tri@),
    ensures
        ({
            let data = encode_index_spec(ps, paths);
            let d = paths.len() as nat;
            let g = ps.len() as nat;
            &&& wf_data(data, d, g)
            &&& data.len() == 12 + g * record_len(d) + encode_docs(paths).len()
            &&& forall|k: int|
                0 <= k < g ==> posting_trigram(data, d, k) == (#[trigger] ps[k]).tri@
                    && posting_bitmap(data, d, k) == ps[k].map@
            &&& parse_docs(data, doc_table_start(d, g), d) == Some(paths)
        }),
{
    let data = encode_index_spec(ps, paths);
    let d = paths.len() as nat;
    let g = ps.len() as nat;
    let rec = record_len(d);
    let ep = encode_postings(ps);
    let ed = encode_docs(paths);
    lemma_encode_postings_extract(ps, d);
    lemma_encode_index_layout(ps, paths);
    lemma_be32_roundtrip(d as int);
    lemma_be32_roundtrip(g as int);
    let subp = data.subrange(12, 12 + ep.len() as int);
    assert forall|k: int| 0 <= k < g implies posting_trigram(data, d, k) == (
    #[trigger] ps[k]).tri@ && posting_bitmap(data, d, k) == ps[k].map@ by {
        assert(0 <= k * rec && (k + 1) * rec <= g * rec) by (nonlinear_arith)
            requires
                0 <= k < g,
                rec >= 3,
        ;
        assert(k * rec + rec == (k + 1) * rec) by (nonlinear_arith);
        assert(posting_trigram(data, d, k) =~= subp.subrange(k * rec, k * rec + 3));
        assert(subp.subrange(k * rec, k * rec + 3) == ep.subrange(k * rec, k * rec + 3));
        assert(posting_bitmap(data, d, k) =~= subp.subrange(k * rec + 3, (k + 1) * rec));
        assert(subp.subrange(k * rec + 3, (k + 1) * rec) == ep.subrange(k * rec + 3, (k + 1)
            * rec));
    }
    assert(doc_table_start(d, g) == 12 + ep.len());
    lemma_parse_encoded_docs(data, 12 + ep.len() as int, paths);
    assert forall|k: int| 0 <= k < g - 1 implies tri_lt(
        #[trigger] posting_trigram(data, d, k),
        posting_trigram(data, d, k + 1),
    ) by {
        assert(posting_trigram(data, d, k) == ps[k].tri@);
        assert(posting_trigram(data, d, k + 1) == ps[k + 1].tri@);
    }
}

/// Encode an index image from postings and documents.
fn encode_index(ps: &Vec<Posting>, docs: &Vec<Document>) -> (r: Vec<u8>)
    requires
        ps@.len() <= u32::MAX,
        docs@.len() <= u32::MAX,
        forall|i: int| 0 <= i < docs@.len() ==> (#[trigger] docs@[i]).path@.len() <= u32::MAX,
    ensures
        r@ == encode_index_spec(ps@, docs_paths(docs@)),
{
    let mut r: Vec<u8> = Vec::new();
    r.push(0x4b);
    r.push(0x43);
    r.push(0x53);
    r.push(0x03);
    push_be_u32(&mut r, docs.len() as u32);
    push_be_u32(&mut r, ps.len() as u32);
    let ghost header = seq![0x4bu8, 0x43u8, 0x53u8, 3u8] + u32_be(docs@.len() as int) + u32_be(
        ps@.len() as int,
    );
    proof {
        assert(r@ =~= header);
        assert(r@ =~= header + encode_postings(ps@.take(0)));
    }
    let mut k: usize = 0;
    while k < ps.len()
        invariant
            0 <= k <= ps@.len(),
            header == seq![0x4bu8, 0x43u8, 0x53u8, 3u8] + u32_be(docs@.len() as int) + u32_be(
                ps@.len() as int,
            ),
            r@ == header + encode_postings(ps@.take(k as int)),
        decreases ps@.len() - k,
    {
        let ghost prev = r@;
        let p = &ps[k];
        r.push(p.tri.b0);
        r.push(p.tri.b1);
        r.push(p.tri.b2);
        let mb = p.map.as_bytes();
        let mut b: usize = 0;
        while b < mb.len()
            invariant
                0 <= b <= mb@.len(),
                mb@ == ps@[k as int].map@,
                k < ps@.len(),
                r@ == prev + ps@[k as int].tri@ + mb@.take(b as int),
            decreases mb@.len() - b,
        {
            r.push(mb[b]);
            proof {
                assert(r@ =~= prev + ps@[k as int].tri@ + mb@.take(b + 1));
            }
            b = b + 1;
        }
        proof {
            assert(mb@.take(mb@.len() as int) =~= mb@);
            lemma_encode_postings_snoc(ps@.take(k as int), ps@[k as int]);
            assert(ps@.take(k as int).push(ps@[k as int]) =~= ps@.take(k as int + 1));
            assert(r@ =~= header + encode_postings(ps@.take(k as int + 1)));
        }
        k = k + 1;
    }
    proof {
        assert(ps@.take(ps@.len() as int) =~= ps@);
    }
    let ghost mid = header + encode_postings(ps@);
    proof {
        assert(r@ =~= mid + encode_docs(docs_paths(docs@).take(0)));
    }
    let mut i: usize = 0;
    while i < docs.len()
        invariant
            0 <= i <= docs@.len(),
            docs@.len() <= u32::MAX,
            forall|ii: int| 0 <= ii < docs@.len() ==> (#[trigger] docs@[ii]).path@.len() <= u32::MAX,
            mid == header + encode_postings(ps@),
            r@ == mid + encode_docs(docs_paths(docs@).take(i as int)),
        decreases docs@.len() - i,
    {
        let ghost prev = r@;
        let path = &docs[i].path;
        push_be_u32(&mut r, path.len() as u32);
        let mut b: usize = 0;
        while b < path.len()
            invariant
                0 <= b <= path@.len(),
                path@ == docs@[i as int].path@,
                i < docs@.len(),
                r@ == prev + u32_be(path@.len() as int) + path@.take(b as int),
            decreases path@.len() - b,
        {
            r.push(path[b]);
            proof {
                assert(r@ =~= prev + u32_be(path@.len() as int) + path@.take(b + 1));
            }
            b = b + 1;
        }
        proof {
            assert(path@.take(path@.len() as int) =~= path@);
            lemma_encode_docs_snoc(docs_paths(docs@).take(i as int), path@);
            assert(docs_paths(docs@).take(i as int).push(path@) =~= docs_paths(docs@).take(
                i as int + 1,
            ));
            assert(r@ =~= mid + encode_docs(docs_paths(docs@).take(i as int + 1)));
        }
        i = i + 1;
    }
    proof {
        assert(docs_paths(docs@).take(docs@.len() as int) =~= docs_paths(docs@));
        assert(r@ =~= encode_index_spec(ps@, docs_paths(docs@)));
    }
    r
}

/// Two trigrams that neither orders below the other are equal.
proof fn lemma_tri_connex(a: Seq<u8>, b: Seq<u8>)
    requires
        a.len() == 3,
        b.len() == 3,
        !tri_lt(a, b),
        !tri_lt(b, a),
    ensures
        a == b,
{
    assert(a =~= b);
}

/// The built corpus has at most one document per input file, and every
/// document comes from an input file.
proof fn lemma_built_docs_sources(files: Seq<InputFile>)
    ensures
        built_docs(files).len() <= files.len(),
        forall|i: int|
            0 <= i < built_docs(files).len() ==> exists|j: int|
                0 <= j < files.len() && #[trigger] built_docs(files)[i] == (
                    files[j].path@,
                    extract_spec(files[j].content@),
                ),
    decreases files.len(),
{
    if files.len() > 0 {
        lemma_built_docs_sources(files.drop_last());
        let rest = built_docs(files.drop_last());
        assert forall|i: int| 0 <= i < built_docs(files).len() implies exists|j: int|
            0 <= j < files.len() && #[trigger] built_docs(files)[i] == (
                files[j].path@,
                extract_spec(files[j].content@),
            ) by {
            if i < rest.len() {
                let j = choose|j: int|
                    0 <= j < files.drop_last().len() && rest[i] == (
                        files.drop_last()[j].path@,
                        extract_spec(files.drop_last()[j].content@),
                    );
                assert(files.drop_last()[j] == files[j]);
                assert(built_docs(files)[i] == rest[i]);
            } else {
                let j = files.len() - 1;
                assert(files.last() == files[j]);
                assert(built_docs(files)[i] == (files[j].path@, extract_spec(files[j].content@)));
            }
        }
    }
}

/// A sorted permutation of view-distinct keys is strictly ascending,
/// and membership carries across the permutation both ways.
proof fn lemma_sorted_keys_facts(keys: Seq<Trigram>, sorted: Seq<Trigram>)
    requires
        forall|a: int, b: int| 0 <= a < b < keys.len() ==> keys[a]@ != keys[b]@,
        sorted.to_multiset() == keys.to_multiset(),
        sorted.len() == keys.len(),
        forall|a: int, b: int| 0 <= a < b < sorted.len() ==> !tri_lt(sorted[b]@, sorted[a]@),
    ensures
        forall|a: int, b: int|
            0 <= a < b < sorted.len() ==> tri_lt((#[trigger] sorted[a])@, (#[trigger] sorted[b])@),
        forall|k: int| 0 <= k < sorted.len() ==> keys.contains(#[trigger] sorted[k]),
        forall|k: int| 0 <= k < keys.len() ==> sorted.contains(#[trigger] keys[k]),
{
    // values with equal views are equal, so view-distinct keys have
    // no duplicates, and neither has their sorted permutation
    assert forall|a: int, b: int|
        0 <= a < keys.len() && 0 <= b < keys.len() && a != b implies keys[a] != keys[b] by {
        if keys[a] == keys[b] {
            assert(keys[a]@ == keys[b]@);
        }
    }
    assert(keys.no_duplicates());
    keys.lemma_multiset_has_no_duplicates();
    sorted.lemma_multiset_has_no_duplicates_conv();
    keys.to_multiset_ensures();
    sorted.to_multiset_ensures();
    // the sorted keys are strictly ascending
    assert forall|a: int, b: int| 0 <= a < b < sorted.len() implies tri_lt(
        (#[trigger] sorted[a])@,
        (#[trigger] sorted[b])@,
    ) by {
        assert(!tri_lt(sorted[b]@, sorted[a]@));
        if !tri_lt(sorted[a]@, sorted[b]@) {
            lemma_tri_connex(sorted[a]@, sorted[b]@);
            assert(sorted[a]@ =~= seq![sorted[a].b0, sorted[a].b1, sorted[a].b2]);
            assert(sorted[b]@ =~= seq![sorted[b].b0, sorted[b].b1, sorted[b].b2]);
            assert(sorted[a] == sorted[b]);
        }
    }
    // membership carries across the permutation, in both directions
    assert forall|k: int| 0 <= k < sorted.len() implies keys.contains(#[trigger] sorted[k]) by {
        let x = sorted[k];
        assert(sorted.contains(x));
        assert(sorted.to_multiset().count(x) > 0);
        assert(keys.to_multiset().count(x) > 0);
        assert(keys.contains(x));
    }
    assert forall|k: int| 0 <= k < keys.len() implies sorted.contains(#[trigger] keys[k]) by {
        let x = keys[k];
        assert(keys.contains(x));
        assert(keys.to_multiset().count(x) > 0);
        assert(sorted.to_multiset().count(x) > 0);
        assert(sorted.contains(x));
    }
}

/// Every posting-list trigram occurs in some document of the corpus
/// model `m`.
pub open spec fn corpus_has(m: Seq<(Seq<u8>, Seq<Seq<u8>>)>, t: Seq<u8>) -> bool {
    exists|i: int| 0 <= i < m.len() && (#[trigger] m[i]).1.contains(t)
}

pub open spec fn postings_sound(ix: Index, m: Seq<(Seq<u8>, Seq<Seq<u8>>)>) -> bool {
    forall|k: int| 0 <= k < ix.gram_count() ==> corpus_has(m, #[trigger] ix.posting_tri(k))
}

/// Every trigram of every document has a posting-list record.
pub open spec fn postings_complete(ix: Index, m: Seq<(Seq<u8>, Seq<Seq<u8>>)>) -> bool {
    forall|i: int, j: int|
        0 <= i < m.len() && 0 <= j < m[i].1.len() ==> ix.has_trigram(#[trigger] m[i].1[j])
}

/// Bit `i` of a posting-list record is set exactly when document `i`
/// contains the record's trigram.
pub open spec fn postings_exact(ix: Index, m: Seq<(Seq<u8>, Seq<Seq<u8>>)>) -> bool {
    forall|k: int, i: int|
        0 <= k < ix.gram_count() && 0 <= i < m.len() ==> #[trigger] bit_at(ix.posting_map(k), i)
            == m[i].1.contains(ix.posting_tri(k))
}

/// Invert the documents into sorted posting lists, encode the image,
/// and wrap it as an index.
#[verifier::rlimit(100)]
fn assemble(docs: &Vec<Document>, modified: u64) -> (ix: Index)
    requires
        docs@.len() <= u32::MAX,
        forall|i: int| 0 <= i < docs@.len() ==> (#[trigger] docs@[i]).path@.len() <= u32::MAX,
    ensures
        ix.wf(),
        ix.modified_spec() == modified,
        ix.doc_count() == docs@.len(),
        ix.documents() == docs_paths(docs@),
        postings_sound(ix, docs_model(docs@)),
        postings_complete(ix, docs_model(docs@)),
        postings_exact(ix, docs_model(docs@)),
{
    let keys = collect_keys(&docs);
    let sorted = sort_keys(&keys);
    proof {
        lemma_distinct_trigram_bound(keys@);
        lemma_sorted_keys_facts(keys@, sorted@);
    }
    let ps = build_postings(&docs, &sorted);
    proof {
        assert forall|k: int| 0 <= k < ps@.len() - 1 implies tri_lt(
            (#[trigger] ps@[k]).tri@,
            ps@[k + 1].tri@,
        ) by {
            assert(ps@[k].tri == sorted@[k] && ps@[k + 1].tri == sorted@[k + 1]);
        }
    }
    let data = encode_index(&ps, &docs);
    let ghost d = docs@.len() as nat;
    let ghost g = ps@.len() as nat;
    proof {
        lemma_encode_index_wf(ps@, docs_paths(docs@));
    }
    let ix = Index {
        document_count: docs.len() as u32,
        ngram_count: ps.len() as u32,
        modified,
        data,
    };
    proof {
        assert(ix.wf());
        lemma_parse_docs_len(ix.data_spec(), doc_table_start(d, g), d);
        assert(ix.documents() == docs_paths(docs@));
        assert forall|k: int| 0 <= k < ix.gram_count() implies #[trigger] ix.posting_tri(k)
            == ps@[k].tri@ && ix.posting_map(k) == ps@[k].map@ by {
            assert(posting_trigram(ix.data_spec(), ix.doc_count(), k) == ps@[k].tri@);
        }
        lemma_assembled_model(ix, ps@, sorted@, keys@, docs@);
    }
    ix
}

/// The assembled posting lists are the inverted index of the corpus
/// model.
proof fn lemma_assembled_model(
    ix: Index,
    ps: Seq<Posting>,
    sorted: Seq<Trigram>,
    keys: Seq<Trigram>,
    docs: Seq<Document>,
)
    requires
        ix.gram_count() == ps.len(),
        forall|k: int|
            0 <= k < ix.gram_count() ==> #[trigger] ix.posting_tri(k) == ps[k].tri@
                && ix.posting_map(k) == ps[k].map@,
        ps.len() == sorted.len(),
        forall|k: int| 0 <= k < ps.len() ==> (#[trigger] ps[k]).tri == sorted[k],
        forall|k: int, i: int|
            0 <= k < ps.len() && 0 <= i < docs.len() ==> #[trigger] bit_at(ps[k].map@, i)
                == trigram_views(docs[i].trigrams@).contains(ps[k].tri@),
        keys_sound(keys, docs),
        forall|i: int, j: int|
            0 <= i < docs.len() && 0 <= j < docs[i].trigrams@.len() ==> trigram_views(
                keys,
            ).contains(#[trigger] trigram_views(docs[i].trigrams@)[j]),
        forall|k: int| 0 <= k < sorted.len() ==> keys.contains(#[trigger] sorted[k]),
        forall|k: int| 0 <= k < keys.len() ==> sorted.contains(#[trigger] keys[k]),
    ensures
        postings_sound(ix, docs_model(docs)),
        postings_complete(ix, docs_model(docs)),
        postings_exact(ix, docs_model(docs)),
{
    assert(docs_model(docs).len() == docs.len());
    assert forall|i: int| 0 <= i < docs.len() implies (#[trigger] docs_model(docs)[i]).1 == trigram_views(
        docs[i].trigrams@,
    ) by {
        assert(docs_model(docs)[i] == doc_model(docs[i]));
    }
    // soundness: every posting trigram occurs in some document
    assert forall|k: int| 0 <= k < ix.gram_count() implies corpus_has(
        docs_model(docs),
        #[trigger] ix.posting_tri(k),
    ) by {
        assert(ix.posting_tri(k) == ps[k].tri@);
        assert(ps[k].tri == sorted[k as int]);
        assert(keys.contains(sorted[k as int]));
        let q = choose|q: int| 0 <= q < keys.len() && keys[q] == sorted[k as int];
        let i = choose|i: int|
            0 <= i < docs.len() && trigram_views(docs[i].trigrams@).contains(keys[q]@);
        assert((docs_model(docs)[i]).1.contains(ix.posting_tri(k)));
        assert(corpus_has(docs_model(docs), ix.posting_tri(k)));
    }
    assert(postings_sound(ix, docs_model(docs)));
    // coverage: every document trigram has a posting-list record
    assert forall|i: int, j: int|
        0 <= i < docs_model(docs).len() && 0 <= j < docs_model(docs)[i].1.len() implies ix.has_trigram(
        #[trigger] docs_model(docs)[i].1[j],
    ) by {
        assert(docs_model(docs)[i].1 == trigram_views(docs[i].trigrams@));
        assert(trigram_views(keys).contains(trigram_views(docs[i].trigrams@)[j]));
        let q = choose|q: int|
            0 <= q < trigram_views(keys).len() && trigram_views(keys)[q] == trigram_views(
                docs[i].trigrams@,
            )[j];
        assert(sorted.contains(keys[q]));
        let k = choose|k: int| 0 <= k < sorted.len() && sorted[k] == keys[q];
        assert(ps[k].tri == sorted[k]);
        assert(ix.posting_tri(k) == ps[k].tri@);
        assert(ix.posting_tri(k) == docs_model(docs)[i].1[j]);
    }
    assert(postings_complete(ix, docs_model(docs)));
    // exactness: bit `i` of record `k` says document `i` holds the trigram
    assert forall|k: int, i: int|
        0 <= k < ix.gram_count() && 0 <= i < docs_model(docs).len() implies #[trigger] bit_at(
        ix.posting_map(k),
        i,
    ) == docs_model(docs)[i].1.contains(ix.posting_tri(k)) by {
        assert(docs_model(docs)[i].1 == trigram_views(docs[i].trigrams@));
        assert(ix.posting_tri(k) == ps[k].tri@);
        assert(ix.posting_map(k) == ps[k].map@);
        assert(bit_at(ps[k].map@, i) == trigram_views(docs[i].trigrams@).contains(ps[k].tri@));
    }
    assert(postings_exact(ix, docs_model(docs)));
}

/// What `create` guarantees: the index is well formed, its documents
/// are the non-binary input files with at least one trigram in input
/// order, the reported failures are the binary files, and the
/// posting-list table is exactly the inverted index of the corpus.
pub open spec fn create_post(
    ix: Index,
    failed: Seq<usize>,
    files: Seq<InputFile>,
    modified: u64,
) -> bool {
    let built = built_docs(files);
    &&& ix.wf()
    &&& ix.modified_spec() == modified
    &&& ix.doc_count() == built.len()
    &&& ix.documents() == built.map_values(|p: (Seq<u8>, Seq<Seq<u8>>)| p.0)
    &&& failed.map_values(|u: usize| u as int) == binary_file_indices(files)
    &&& postings_sound(ix, built)
    &&& postings_complete(ix, built)
    &&& postings_exact(ix, built)
}

impl Index {
    /// Creates a new index over the given corpus, recording `modified`
    /// as its last-modified stamp. Files whose extraction fails as
    /// binary are skipped and their indices returned beside the index;
    /// files with no trigrams are skipped silently. The posting-list
    /// table holds one sorted record per distinct trigram, and bit `i`
    /// of a record is set exactly when document `i` contains the
    /// record's trigram.
    #[verifier::rlimit(60)]
    pub fn create(files: Vec<InputFile>, modified: u64) -> (r: (Index, Vec<usize>))
    requires
        files@.len() <= u32::MAX,
        forall|i: int| 0 <= i < files@.len() ==> (#[trigger] files@[i]).path@.len() <= u32::MAX,
    ensures
        create_post(r.0, r.1@, files@, modified),
{
    let (docs, failed) = build_documents(files);
    proof {
        lemma_built_docs_sources(files@);
        assert(docs@.len() == built_docs(files@).len());
        assert forall|i: int| 0 <= i < docs@.len() implies (#[trigger] docs@[i]).path@ == built_docs(files@)[i].0
            && trigram_views(docs@[i].trigrams@) == built_docs(files@)[i].1 by {
            assert(docs_model(docs@)[i] == doc_model(docs@[i]));
        }
        assert forall|i: int| 0 <= i < docs@.len() implies (#[trigger] docs@[i]).path@.len()
            <= u32::MAX by {
            let j = choose|j: int|
                0 <= j < files@.len() && built_docs(files@)[i] == (
                    files@[j].path@,
                    extract_spec(files@[j].content@),
                );
            assert(files@[j].path@.len() <= u32::MAX);
        }
    }
    let ix = assemble(&docs, modified);
    proof {
        assert(docs_model(docs@) == built_docs(files@));
        assert(ix.documents() =~= built_docs(files@).map_values(
            |p: (Seq<u8>, Seq<Seq<u8>>)| p.0,
        ));
        assert(postings_sound(ix, built_docs(files@)));
        assert(postings_complete(ix, built_docs(files@)));
        assert(postings_exact(ix, built_docs(files@)));
        assert(create_post(ix, failed@, files@, modified));
    }
    (ix, failed)
}
}

/// A file seen by the directory walker: its path (raw OS-native bytes)
/// and its last-modified stamp.
pub struct FileStamp {
    pub path: Vec<u8>,
    pub mtime: u64,
}

/// The paths among `files` whose stamp is above `m`, in order.
pub open spec fn stale_paths_spec(files: Seq<FileStamp>, m: u64) -> Seq<Seq<u8>>
    decreases files.len(),
{
    if files.len() == 0 {
        seq![]
    } else {
        let rest = stale_paths_spec(files.drop_last(), m);
        if files.last().mtime > m {
            rest.push(files.last().path@)
        } else {
            rest
        }
    }
}

/// Copy a byte vector.
pub(crate) fn clone_bytes(v: &Vec<u8>) -> (r: Vec<u8>)
    ensures
        r@ == v@,
{
    let mut r: Vec<u8> = Vec::new();
    let mut k: usize = 0;
    while k < v.len()
        invariant
            0 <= k <= v@.len(),
            r@ == v@.take(k as int),
        decreases v@.len() - k,
    {
        r.push(v[k]);
        proof {
            assert(r@ =~= v@.take(k + 1));
        }
        k = k + 1;
    }
    proof {
        assert(v@.take(v@.len() as int) =~= v@);
    }
    r
}

/// Whether two byte strings are equal.
pub(crate) fn bytes_eq(a: &Vec<u8>, b: &Vec<u8>) -> (r: bool)
    ensures
        r == (a@ == b@),
{
    if a.len() != b.len() {
        return false;
    }
    let mut k: usize = 0;
    while k < a.len()
        invariant
            a@.len() == b@.len(),
            0 <= k <= a@.len(),
            forall|i: int| 0 <= i < k ==> a@[i] == b@[i],
        decreases a@.len() - k,
    {
        if a[k] != b[k] {
            return false;
        }
        k = k + 1;
    }
    proof {
        assert(a@ =~= b@);
    }
    true
}

/// Every entry of a parsed document table fits a 32-bit length prefix.
proof fn lemma_parse_docs_entry_len(data: Seq<u8>, off: int, count: nat)
    requires
        0 <= off,
        parse_docs(data, off, count) is Some,
    ensures
        forall|i: int|
            0 <= i < parse_docs(data, off, count)->Some_0.len() ==> (#[trigger] parse_docs(
                data,
                off,
                count,
            )->Some_0[i]).len() <= u32::MAX,
    decreases count,
{
    if count > 0 {
        let len = be32(data.subrange(off, off + 4));
        assert(0 <= len <= u32::MAX);
        lemma_parse_docs_entry_len(data, off + 4 + len, (count - 1) as nat);
        lemma_parse_docs_len(data, off + 4 + len, (count - 1) as nat);
        let rest = parse_docs(data, off + 4 + len, (count - 1) as nat)->Some_0;
        assert(parse_docs(data, off, count)->Some_0 == seq![data.subrange(off + 4, off + 4 + len)]
            + rest);
        assert forall|i: int| 0 <= i < parse_docs(data, off, count)->Some_0.len() implies (
        #[trigger] parse_docs(data, off, count)->Some_0[i]).len() <= u32::MAX by {
            if i == 0 {
                assert(parse_docs(data, off, count)->Some_0[0] == data.subrange(
                    off + 4,
                    off + 4 + len,
                ));
            } else {
                assert(rest[i - 1].len() <= u32::MAX);
                assert(parse_docs(data, off, count)->Some_0[i] == rest[i - 1]);
            }
        }
    }
}

impl Index {
    /// Whether any walked file is newer than the index.
    pub fn needs_update(&self, files: &Vec<FileStamp>) -> (r: bool)
        ensures
            r == exists|i: int|
                0 <= i < files@.len() && (#[trigger] files@[i]).mtime > self.modified_spec(),
    {
        let mut i: usize = 0;
        while i < files.len()
            invariant
                0 <= i <= files@.len(),
                forall|j: int| 0 <= j < i ==> (#[trigger] files@[j]).mtime <= self.modified_spec(),
            decreases files@.len() - i,
        {
            if files[i].mtime > self.modified {
                return true;
            }
            i = i + 1;
        }
        false
    }

    /// The paths of the walked files that are newer than the index:
    /// the files whose contents must be re-read for an update.
    pub fn stale_paths(&self, files: &Vec<FileStamp>) -> (r: Vec<Vec<u8>>)
        ensures
            r@.map_values(|p: Vec<u8>| p@) == stale_paths_spec(files@, self.modified_spec()),
    {
        let mut r: Vec<Vec<u8>> = Vec::new();
        let mut i: usize = 0;
        while i < files.len()
            invariant
                0 <= i <= files@.len(),
                r@.map_values(|p: Vec<u8>| p@) == stale_paths_spec(
                    files@.take(i as int),
                    self.modified_spec(),
                ),
            decreases files@.len() - i,
        {
            let ghost prev = r@;
            if files[i].mtime > self.modified {
                r.push(clone_bytes(&files[i].path));
                proof {
                    assert(r@.map_values(|p: Vec<u8>| p@) =~= prev.map_values(
                        |p: Vec<u8>| p@,
                    ).push(files@[i as int].path@));
                }
            }
            i = i + 1;
            proof {
                assert(files@.take(i as int).drop_last() =~= files@.take(i as int - 1));
                assert(files@.take(i as int).last() == files@[i as int - 1]);
                assert(r@.map_values(|p: Vec<u8>| p@) =~= stale_paths_spec(
                    files@.take(i as int),
                    self.modified_spec(),
                ));
            }
        }
        proof {
            assert(files@.take(files@.len() as int) =~= files@);
        }
        r
    }

    /// The trigram of posting-list record `k`, read from the image.
    fn posting_tri_at(&self, k: usize) -> (r: Trigram)
        requires
            self.wf(),
            k < self.gram_count(),
        ensures
            r@ == self.posting_tri(k as int),
    {
        let n = self.data.len();
        proof {
            assert((self.document_count as u64 + 7) / 8 <= 0x2000_0000u64);
        }
        let bl: usize = ((self.document_count as u64 + 7) / 8) as usize;
        let rec: usize = 3 + bl;
        let g = self.ngram_count as usize;
        proof {
            assert(rec == record_len(self.doc_count()));
            assert(12 + g as int * rec as int <= self.data_spec().len());
            assert(k as int * rec as int >= 0 && k as int * rec as int + rec as int <= g as int
                * rec as int) by (nonlinear_arith)
                requires
                    (k + 1) as int <= g as int,
                    rec as int >= 0,
            ;
        }
        let off = 12 + k * rec;
        proof {
            assert(off == posting_off(self.doc_count(), k as int));
            assert(off + rec <= self.data@.len() && rec >= 3);
        }
        let r = Trigram { b0: self.data[off], b1: self.data[off + 1], b2: self.data[off + 2] };
        proof {
            assert(r@ =~= self.posting_tri(k as int));
        }
        r
    }

    /// Bit `i` of the bitmap of posting-list record `k`.
    fn posting_bit(&self, k: usize, i: usize) -> (r: bool)
        requires
            self.wf(),
            k < self.gram_count(),
            i < 8 * bitmap_len_spec(self.doc_count()),
        ensures
            r == bit_at(self.posting_map(k as int), i as int),
    {
        let n = self.data.len();
        proof {
            assert((self.document_count as u64 + 7) / 8 <= 0x2000_0000u64);
        }
        let bl: usize = ((self.document_count as u64 + 7) / 8) as usize;
        let rec: usize = 3 + bl;
        let g = self.ngram_count as usize;
        proof {
            assert(rec == record_len(self.doc_count()));
            assert(12 + g as int * rec as int <= self.data_spec().len());
            assert(k as int * rec as int >= 0 && k as int * rec as int + rec as int <= g as int
                * rec as int) by (nonlinear_arith)
                requires
                    (k + 1) as int <= g as int,
                    rec as int >= 0,
            ;
        }
        let off = 12 + k * rec;
        proof {
            assert(off == posting_off(self.doc_count(), k as int));
            assert(off + rec <= self.data@.len() && rec >= 3);
        }
        let byte = self.data[off + 3 + i / 8];
        let bit = (i % 8) as u8;
        let mask = 1u8 << bit;
        let r = byte & mask != 0;
        proof {
            let pb = self.posting_map(k as int);
            assert(pb.len() == bl);
            assert(pb[i as int / 8] == self.data@[off + 3 + i as int / 8]);
        }
        r
    }
}

/// The trigrams the index recorded for ordinal `i`, read off the first
/// `k` posting-list records: every record whose bitmap has bit `i` set.
pub open spec fn recorded_tris(data: Seq<u8>, d: nat, i: int, k: int) -> Seq<Seq<u8>>
    decreases k,
{
    if k <= 0 {
        seq![]
    } else {
        let prev = recorded_tris(data, d, i, k - 1);
        if bit_at(posting_bitmap(data, d, k - 1), i) {
            prev.push(posting_trigram(data, d, k - 1))
        } else {
            prev
        }
    }
}

/// Whether some walked file has this path.
pub open spec fn path_listed(files: Seq<FileStamp>, p: Seq<u8>) -> bool {
    exists|j: int| 0 <= j < files.len() && (#[trigger] files[j]).path@ == p
}

/// The surviving documents among the first `i` ordinals of an index:
/// those whose path is still on disk and whose recorded trigram set is
/// not empty, with their recorded trigrams.
pub open spec fn survivors_upto(
    data: Seq<u8>,
    d: nat,
    g: nat,
    docs: Seq<Seq<u8>>,
    files: Seq<FileStamp>,
    i: int,
) -> Seq<(Seq<u8>, Seq<Seq<u8>>)>
    decreases i,
{
    if i <= 0 {
        seq![]
    } else {
        let rest = survivors_upto(data, d, g, docs, files, i - 1);
        let tris = recorded_tris(data, d, i - 1, g as int);
        if path_listed(files, docs[i - 1]) && tris.len() > 0 {
            rest.push((docs[i - 1], tris))
        } else {
            rest
        }
    }
}

/// The first position of the corpus model holding path `p`, or -1.
pub open spec fn find_path(m: Seq<(Seq<u8>, Seq<Seq<u8>>)>, p: Seq<u8>) -> int
    decreases m.len(),
{
    if m.len() == 0 {
        -1
    } else if m[0].0 == p {
        0
    } else {
        let r = find_path(m.drop_first(), p);
        if r < 0 {
            -1
        } else {
            r + 1
        }
    }
}

/// Fold one re-extracted file into the corpus model: a binary file
/// changes nothing; otherwise the file's entry is replaced in place, or
/// appended when its path is new. An empty trigram set is kept.
pub open spec fn apply_one(m: Seq<(Seq<u8>, Seq<Seq<u8>>)>, f: InputFile) -> Seq<
    (Seq<u8>, Seq<Seq<u8>>),
> {
    if is_binary(f.content@) {
        m
    } else {
        let idx = find_path(m, f.path@);
        if idx >= 0 {
            m.update(idx, (f.path@, extract_spec(f.content@)))
        } else {
            m.push((f.path@, extract_spec(f.content@)))
        }
    }
}

/// Fold all the re-extracted files into the corpus model, in order.
pub open spec fn apply_fresh(m: Seq<(Seq<u8>, Seq<Seq<u8>>)>, fresh: Seq<InputFile>) -> Seq<
    (Seq<u8>, Seq<Seq<u8>>),
>
    decreases fresh.len(),
{
    if fresh.len() == 0 {
        m
    } else {
        apply_fresh(apply_one(m, fresh[0]), fresh.drop_first())
    }
}

proof fn lemma_apply_fresh_snoc(m: Seq<(Seq<u8>, Seq<Seq<u8>>)>, fresh: Seq<InputFile>, f: InputFile)
    ensures
        apply_fresh(m, fresh.push(f)) == apply_one(apply_fresh(m, fresh), f),
    decreases fresh.len(),
{
    if fresh.len() == 0 {
        assert(fresh.push(f).drop_first() =~= Seq::<InputFile>::empty());
        assert(fresh.push(f)[0] == f);
        assert(apply_fresh(apply_one(m, f), Seq::<InputFile>::empty()) == apply_one(m, f));
    } else {
        assert(fresh.push(f).drop_first() =~= fresh.drop_first().push(f));
        assert(fresh.push(f)[0] == fresh[0]);
        lemma_apply_fresh_snoc(apply_one(m, fresh[0]), fresh.drop_first(), f);
    }
}

/// What the reconciled corpus of an update is: the surviving documents
/// of the old index, with every re-extracted file replaced or appended.
pub open spec fn updated_model(
    ix: Index,
    files: Seq<FileStamp>,
    fresh: Seq<InputFile>,
) -> Seq<(Seq<u8>, Seq<Seq<u8>>)> {
    apply_fresh(
        survivors_upto(
            ix.data_spec(),
            ix.doc_count(),
            ix.gram_count(),
            ix.documents(),
            files,
            ix.doc_count() as int,
        ),
        fresh,
    )
}

/// What `update` guarantees: the rewritten index is well formed, keeps
/// its stamp, and indexes exactly the reconciled corpus; the reported
/// failures are the re-read files that turned out binary.
pub open spec fn update_post(
    new: Index,
    old_ix: Index,
    failed: Seq<usize>,
    files: Seq<FileStamp>,
    fresh: Seq<InputFile>,
) -> bool {
    let m = updated_model(old_ix, files, fresh);
    &&& new.wf()
    &&& new.modified_spec() == old_ix.modified_spec()
    &&& new.doc_count() == m.len()
    &&& new.documents() == m.map_values(|p: (Seq<u8>, Seq<Seq<u8>>)| p.0)
    &&& failed.map_values(|u: usize| u as int) == binary_file_indices(fresh)
    &&& postings_sound(new, m)
    &&& postings_complete(new, m)
    &&& postings_exact(new, m)
}

/// When no entry before `j` holds the path and entry `j` does, the
/// first position is `j`.
proof fn lemma_find_path_hit(m: Seq<(Seq<u8>, Seq<Seq<u8>>)>, p: Seq<u8>, j: int)
    requires
        0 <= j < m.len(),
        forall|q: int| 0 <= q < j ==> (#[trigger] m[q]).0 != p,
        m[j].0 == p,
    ensures
        find_path(m, p) == j,
    decreases j,
{
    if j == 0 {
    } else {
        let rest = m.drop_first();
        assert forall|q: int| 0 <= q < j - 1 implies (#[trigger] rest[q]).0 != p by {
            assert(rest[q] == m[q + 1]);
        }
        assert(rest[j - 1] == m[j]);
        lemma_find_path_hit(rest, p, j - 1);
    }
}

/// When no entry holds the path, the first position is -1.
proof fn lemma_find_path_miss(m: Seq<(Seq<u8>, Seq<Seq<u8>>)>, p: Seq<u8>)
    requires
        forall|q: int| 0 <= q < m.len() ==> (#[trigger] m[q]).0 != p,
    ensures
        find_path(m, p) == -1,
    decreases m.len(),
{
    if m.len() > 0 {
        let rest = m.drop_first();
        assert forall|q: int| 0 <= q < rest.len() implies (#[trigger] rest[q]).0 != p by {
            assert(rest[q] == m[q + 1]);
        }
        lemma_find_path_miss(rest, p);
    }
}

/// Whether any document of `v` has the given path.
fn find_doc_path(v: &Vec<Document>, p: &Vec<u8>) -> (r: Option<usize>)
    ensures
        r matches Some(x) ==> 0 <= x < v@.len() && find_path(docs_model(v@), p@) == x,
        r is None ==> find_path(docs_model(v@), p@) == -1,
{
    let mut j: usize = 0;
    while j < v.len()
        invariant
            0 <= j <= v@.len(),
            forall|q: int| 0 <= q < j ==> (#[trigger] docs_model(v@)[q]).0 != p@,
        decreases v@.len() - j,
    {
        proof {
            assert(docs_model(v@)[j as int] == doc_model(v@[j as int]));
        }
        if bytes_eq(&v[j].path, p) {
            proof {
                lemma_find_path_hit(docs_model(v@), p@, j as int);
            }
            return Some(j);
        }
        j = j + 1;
    }
    proof {
        lemma_find_path_miss(docs_model(v@), p@);
    }
    None
}

/// Whether the walk list holds this path.
fn path_listed_exec(files: &Vec<FileStamp>, p: &Vec<u8>) -> (r: bool)
    ensures
        r == path_listed(files@, p@),
{
    let mut j: usize = 0;
    while j < files.len()
        invariant
            0 <= j <= files@.len(),
            forall|q: int| 0 <= q < j ==> (#[trigger] files@[q]).path@ != p@,
        decreases files@.len() - j,
    {
        if bytes_eq(&files[j].path, p) {
            return true;
        }
        j = j + 1;
    }
    false
}

impl Index {
    /// Reconciles the index with the current state of the tree: drops
    /// documents whose path is gone or whose recorded trigram set is
    /// empty, folds in the re-read files (`fresh`), rebuilds the
    /// inverted index over the surviving corpus with fresh ordinals, and
    /// rewrites the image in place. Re-read files that turn out binary
    /// are skipped and their indices returned.
    #[verifier::rlimit(60)]
    pub fn update(&mut self, files: &Vec<FileStamp>, fresh: Vec<InputFile>) -> (failed: Vec<
        usize,
    >)
        requires
            old(self).wf(),
            old(self).doc_count() + fresh@.len() <= u32::MAX,
            forall|i: int|
                0 <= i < fresh@.len() ==> (#[trigger] fresh@[i]).path@.len() <= u32::MAX,
        ensures
            update_post(*final(self), *old(self), failed@, files@, fresh@),
    {
        let d = self.document_count as usize;
        let g = self.ngram_count as usize;
        let ghost data0 = self.data_spec();
        let ghost dn = self.doc_count();
        let ghost gn = self.gram_count();
        proof {
            lemma_parse_docs_len(data0, doc_table_start(dn, gn), dn);
            lemma_parse_docs_entry_len(data0, doc_table_start(dn, gn), dn);
        }
        // reconstruct the surviving documents from the old image
        let mut docs: Vec<Document> = Vec::new();
        let mut i: usize = 0;
        while i < d
            invariant
                self.wf(),
                *self == *old(self),
                d == self.doc_count(),
                g == self.gram_count(),
                data0 == self.data_spec(),
                dn == self.doc_count(),
                gn == self.gram_count(),
                self.documents().len() == d,
                forall|q: int|
                    0 <= q < d ==> (#[trigger] self.documents()[q]).len() <= u32::MAX,
                0 <= i <= d,
                docs_model(docs@) == survivors_upto(
                    data0,
                    dn,
                    gn,
                    self.documents(),
                    files@,
                    i as int,
                ),
                docs@.len() <= i,
                forall|q: int|
                    0 <= q < docs@.len() ==> (#[trigger] docs@[q]).path@.len() <= u32::MAX,
            decreases d - i,
        {
            let ghost prev = docs@;
            let path = match self.find_document(i as u32) {
                Some(p) => p,
                None => {
                    proof {
                        assert(false);
                    }
                    Vec::new()
                },
            };
            let mut tris: Vec<Trigram> = Vec::new();
            let mut k: usize = 0;
            while k < g
                invariant
                    self.wf(),
                    d == self.doc_count(),
                    g == self.gram_count(),
                    data0 == self.data_spec(),
                    dn == self.doc_count(),
                    gn == self.gram_count(),
                    i < d,
                    0 <= k <= g,
                    trigram_views(tris@) == recorded_tris(data0, dn, i as int, k as int),
                decreases g - k,
            {
                let ghost prev_t = tris@;
                proof {
                    assert(i < 8 * bitmap_len_spec(dn));
                }
                if self.posting_bit(k, i) {
                    let t = self.posting_tri_at(k);
                    tris.push(t);
                    proof {
                        assert(trigram_views(tris@) =~= trigram_views(prev_t).push(t@));
                    }
                }
                k = k + 1;
                proof {
                    assert(trigram_views(tris@) =~= recorded_tris(data0, dn, i as int, k as int));
                }
            }
            let listed = path_listed_exec(files, &path);
            if listed && tris.len() > 0 {
                docs.push(Document { path, trigrams: tris });
                proof {
                    assert(docs_model(docs@) =~= docs_model(prev).push(doc_model(docs@.last())));
                    assert(doc_model(docs@.last()).0 == self.documents()[i as int]);
                    assert(doc_model(docs@.last()).1 == recorded_tris(data0, dn, i as int, g as int));
                }
            }
            i = i + 1;
            proof {
                assert(docs_model(docs@) =~= survivors_upto(
                    data0,
                    dn,
                    gn,
                    self.documents(),
                    files@,
                    i as int,
                ));
            }
        }
        let ghost surv = survivors_upto(data0, dn, gn, self.documents(), files@, dn as int);
        // fold in the re-read files
        let mut failed: Vec<usize> = Vec::new();
        let mut fi: usize = 0;
        proof {
            assert(fresh@.take(0) =~= Seq::<InputFile>::empty());
            assert(docs_model(docs@) == apply_fresh(surv, fresh@.take(0)));
            assert(failed@.map_values(|u: usize| u as int) =~= binary_file_indices(
                fresh@.take(0),
            ));
        }
        while fi < fresh.len()
            invariant
                self.wf(),
                *self == *old(self),
                dn == self.doc_count(),
                surv == survivors_upto(data0, dn, gn, self.documents(), files@, dn as int),
                dn + fresh@.len() <= u32::MAX,
                forall|q: int|
                    0 <= q < fresh@.len() ==> (#[trigger] fresh@[q]).path@.len() <= u32::MAX,
                0 <= fi <= fresh@.len(),
                docs_model(docs@) == apply_fresh(surv, fresh@.take(fi as int)),
                failed@.map_values(|u: usize| u as int) == binary_file_indices(
                    fresh@.take(fi as int),
                ),
                docs@.len() <= dn + fi,
                forall|q: int|
                    0 <= q < docs@.len() ==> (#[trigger] docs@[q]).path@.len() <= u32::MAX,
            decreases fresh@.len() - fi,
        {
            let ghost prev = docs@;
            let ghost prev_f = failed@;
            let f = &fresh[fi];
            match extract_trigrams(f.content.as_slice()) {
                Ok(trigrams) => {
                    let path = clone_bytes(&f.path);
                    let newdoc = Document { path, trigrams };
                    proof {
                        assert(doc_model(newdoc) == (
                            fresh@[fi as int].path@,
                            extract_spec(fresh@[fi as int].content@),
                        ));
                    }
                    match find_doc_path(&docs, &f.path) {
                        Some(x) => {
                            docs.set(x, newdoc);
                            proof {
                                assert(docs_model(docs@) =~= docs_model(prev).update(
                                    x as int,
                                    doc_model(docs@[x as int]),
                                ));
                            }
                        },
                        None => {
                            docs.push(newdoc);
                            proof {
                                assert(docs_model(docs@) =~= docs_model(prev).push(
                                    doc_model(docs@.last()),
                                ));
                            }
                        },
                    }
                },
                Err(_) => {
                    failed.push(fi);
                    proof {
                        assert(failed@.map_values(|u: usize| u as int) =~= prev_f.map_values(
                            |u: usize| u as int,
                        ).push(fi as int));
                    }
                },
            }
            fi = fi + 1;
            proof {
                lemma_apply_fresh_snoc(surv, fresh@.take(fi - 1), fresh@[fi - 1]);
                assert(fresh@.take(fi as int) =~= fresh@.take(fi - 1).push(fresh@[fi - 1]));
                assert(fresh@.take(fi as int).drop_last() =~= fresh@.take(fi - 1));
                assert(fresh@.take(fi as int).last() == fresh@[fi - 1]);
                assert(docs_model(docs@) =~= apply_fresh(surv, fresh@.take(fi as int)));
                assert(failed@.map_values(|u: usize| u as int) =~= binary_file_indices(
                    fresh@.take(fi as int),
                ));
            }
        }
        proof {
            assert(fresh@.take(fresh@.len() as int) =~= fresh@);
        }
        // rebuild the inverted index over the reconciled corpus and
        // rewrite the image in place
        let ix = assemble(&docs, self.modified);
        let ghost m = updated_model(*old(self), files@, fresh@);
        proof {
            assert(docs_model(docs@) == m);
            assert(ix.documents() =~= m.map_values(|p: (Seq<u8>, Seq<Seq<u8>>)| p.0));
        }
        *self = ix;
        proof {
            assert(update_post(*self, *old(self), failed@, files@, fresh@));
        }
        failed
    }
}

/// Append the four big-endian bytes of `v`.
fn push_be_u32(r: &mut Vec<u8>, v: u32)
    ensures
        final(r)@ == old(r)@ + u32_be(v as int),
{
    let b0 = (v >> 24u32) as u8;
    let b1 = ((v >> 16u32) & 0xff) as u8;
    let b2 = ((v >> 8u32) & 0xff) as u8;
    let b3 = (v & 0xff) as u8;
    proof {
        assert((v >> 24u32) < 0x100 && ((v >> 16u32) & 0xff) < 0x100 && ((v >> 8u32) & 0xff)
            < 0x100 && (v & 0xff) < 0x100) by (bit_vector);
        assert((v >> 24u32) == (v as int / 0x1000000 % 0x100) as u32 && ((v >> 16u32) & 0xff) == (
        v as int / 0x10000 % 0x100) as u32 && ((v >> 8u32) & 0xff) == (v as int / 0x100
            % 0x100) as u32 && (v & 0xff) == (v as int % 0x100) as u32) by (bit_vector);
    }
    r.push(b0);
    r.push(b1);
    r.push(b2);
    r.push(b3);
    proof {
        assert(r@ =~= old(r)@ + u32_be(v as int));
    }
}

/// Represents a search index: the counts from its header, the stamp of
/// the file it was loaded from, and the file's byte image.
#[derive(Debug)]
pub struct Index {
    document_count: u32,
    ngram_count: u32,
    modified: u64,
    data: Vec<u8>,
}

impl Index {
    /// The number of documents.
    pub closed spec fn doc_count(&self) -> nat {
        self.document_count as nat
    }

    /// The number of posting-list records.
    pub closed spec fn gram_count(&self) -> nat {
        self.ngram_count as nat
    }

    /// The last-modified stamp recorded at load.
    pub closed spec fn modified_spec(&self) -> u64 {
        self.modified
    }

    /// The byte image.
    pub closed spec fn data_spec(&self) -> Seq<u8> {
        self.data@
    }

    /// The index is a well-formed image for its counts.
    pub open spec fn wf(&self) -> bool {
        wf_data(self.data_spec(), self.doc_count(), self.gram_count())
    }

    /// The parsed document table, in ordinal order.
    pub open spec fn documents(&self) -> Seq<Seq<u8>>
        recommends
            self.wf(),
    {
        parse_docs(
            self.data_spec(),
            doc_table_start(self.doc_count(), self.gram_count()),
            self.doc_count(),
        )->Some_0
    }

    /// The trigram of posting-list record `k`.
    pub open spec fn posting_tri(&self, k: int) -> Seq<u8> {
        posting_trigram(self.data_spec(), self.doc_count(), k)
    }

    /// The bitmap bytes of posting-list record `k`.
    pub open spec fn posting_map(&self, k: int) -> Seq<u8> {
        posting_bitmap(self.data_spec(), self.doc_count(), k)
    }

    /// Whether some posting-list record holds this trigram.
    pub open spec fn has_trigram(&self, t: Seq<u8>) -> bool {
        exists|k: int| 0 <= k < self.gram_count() && self.posting_tri(k) == t
    }

    /// Returns the length in bytes of a bitmap stored in this index.
    pub fn bitmap_len(&self) -> (r: u64)
        ensures
            r == bitmap_len_spec(self.doc_count()),
    {
        (self.document_count as u64 + 7) / 8
    }

    /// The bytes of the index image, for writing back to disk.
    pub fn as_bytes(&self) -> (r: &[u8])
        ensures
            r@ == self.data_spec(),
    {
        self.data.as_slice()
    }

    /// The number of documents in the index.
    pub fn document_count(&self) -> (r: u32)
        ensures
            r == self.doc_count(),
    {
        self.document_count
    }

    /// The number of posting-list records in the index.
    pub fn ngram_count(&self) -> (r: u32)
        ensures
            r == self.gram_count(),
    {
        self.ngram_count
    }

    /// Loads an index from the byte image of an index file, recording the
    /// file's last-modified stamp. The magic and the n-gram width are
    /// checked, the counts are read, and both tables are validated.
    pub fn load(data: Vec<u8>, modified: u64) -> (r: Result<Index, IndexError>)
        ensures
            !magic_ok(data@) ==> r == Err::<Index, IndexError>(IndexError::InvalidHeader),
            magic_ok(data@) && data@[3] != 3 ==> r == Err::<Index, IndexError>(
                IndexError::UnsupportedNGramLength(data@[3]),
            ),
            magic_ok(data@) && data@[3] == 3 && !tables_ok(
                data@,
                be32(data@.subrange(4, 8)) as nat,
                be32(data@.subrange(8, 12)) as nat,
            ) ==> r == Err::<Index, IndexError>(IndexError::InvalidHeader),
            r matches Ok(ix) ==> {
                &&& ix.wf()
                &&& ix.data_spec() == data@
                &&& ix.doc_count() == be32(data@.subrange(4, 8))
                &&& ix.gram_count() == be32(data@.subrange(8, 12))
                &&& ix.modified_spec() == modified
            },
            r is Ok <==> magic_ok(data@) && data@[3] == 3 && tables_ok(
                data@,
                be32(data@.subrange(4, 8)) as nat,
                be32(data@.subrange(8, 12)) as nat,
            ),
    {
        if data.len() < 12 {
            return Err(IndexError::InvalidHeader);
        }
        if !(data[0] == 0x4b && data[1] == 0x43 && data[2] == 0x53) {
            return Err(IndexError::InvalidHeader);
        }
        if data[3] != 3 {
            return Err(IndexError::UnsupportedNGramLength(data[3]));
        }
        let document_count = read_be_u32(&data, 4);
        let ngram_count = read_be_u32(&data, 8);
        let d = document_count as usize;
        let g = ngram_count as usize;
        proof {
            assert((document_count as u64 + 7) / 8 <= 0x2000_0000u64);
        }
        let bl: usize = ((document_count as u64 + 7) / 8) as usize;
        let rec: usize = 3 + bl;
        proof {
            assert(rec == record_len(document_count as nat));
        }
        // posting-list table must fit: data.len() - 12 must hold g records
        let avail = data.len() - 12;
        if avail / rec < g {
            proof {
                assert((avail as int) / (rec as int) < g as int ==> g as int * rec as int
                    > avail as int) by (nonlinear_arith)
                    requires
                        rec as int > 0,
                        avail as int >= 0,
                        g as int >= 0,
                ;
                assert(doc_table_start(document_count as nat, ngram_count as nat) > data@.len());
            }
            return Err(IndexError::InvalidHeader);
        }
        proof {
            assert((avail as int) / (rec as int) >= g as int ==> g as int * rec as int
                <= avail as int) by (nonlinear_arith)
                requires
                    rec as int > 0,
                    avail as int >= 0,
                    g as int >= 0,
            ;
            assert(doc_table_start(document_count as nat, ngram_count as nat) <= data@.len());
        }
        // the posting-list records must be strictly ascending by trigram
        let mut k: usize = 0;
        while g >= 1 && k < g - 1
            invariant
                wf_load_inv(data@, document_count, ngram_count),
                g == ngram_count,
                rec == record_len(document_count as nat),
                0 <= k,
                g >= 1 ==> k <= g - 1,
                forall|j: int|
                    0 <= j < k ==> tri_lt(
                        #[trigger] posting_trigram(data@, document_count as nat, j),
                        posting_trigram(data@, document_count as nat, j + 1),
                    ),
            decreases g - k,
        {
            proof {
                assert((k + 1) as int * rec as int + rec as int <= g as int * rec as int)
                    by (nonlinear_arith)
                    requires
                        (k + 2) as int <= g as int,
                        rec as int >= 0,
                ;
                assert(k as int * rec as int >= 0 && k as int * rec as int + rec as int <= g as int
                    * rec as int) by (nonlinear_arith)
                    requires
                        (k + 1) as int <= g as int,
                        rec as int >= 0,
                ;
                assert(12 + g as int * rec as int <= data@.len());
            }
            let off0 = 12 + k * rec;
            let off1 = off0 + rec;
            proof {
                assert((k as int + 1) * rec as int == k as int * rec as int + rec as int)
                    by (nonlinear_arith);
                assert(off0 == posting_off(document_count as nat, k as int));
                assert(off1 == posting_off(document_count as nat, k as int + 1));
                assert(off1 + rec <= data@.len());
                assert(rec >= 3);
            }
            let lt = tri_bytes_lt(
                data[off0],
                data[off0 + 1],
                data[off0 + 2],
                data[off1],
                data[off1 + 1],
                data[off1 + 2],
            );
            proof {
                assert(posting_trigram(data@, document_count as nat, k as int) =~= seq![
                    data@[off0 as int],
                    data@[off0 + 1],
                    data@[off0 + 2],
                ]);
                assert(posting_trigram(data@, document_count as nat, k as int + 1) =~= seq![
                    data@[off1 as int],
                    data@[off1 + 1],
                    data@[off1 + 2],
                ]);
            }
            if !lt {
                return Err(IndexError::InvalidHeader);
            }
            k = k + 1;
        }
        // the document table must parse
        let mut off: usize = 12 + g * rec;
        let mut i: usize = 0;
        proof {
            assert(off == doc_table_start(document_count as nat, ngram_count as nat));
        }
        while i < d
            invariant
                wf_load_inv(data@, document_count, ngram_count),
                d == document_count,
                0 <= i <= d,
                0 <= off <= data@.len(),
                parse_docs(data@, doc_table_start(document_count as nat, ngram_count as nat), d as nat)
                    is Some <==> parse_docs(data@, off as int, (d - i) as nat) is Some,
            decreases d - i,
        {
            if data.len() - off < 4 {
                return Err(IndexError::InvalidHeader);
            }
            let len = read_be_u32(&data, off);
            if ((data.len() - off - 4) as u64) < (len as u64) {
                return Err(IndexError::InvalidHeader);
            }
            off = off + 4 + (len as usize);
            i = i + 1;
        }
        let ix = Index { document_count, ngram_count, modified, data };
        proof {
            assert(parse_docs(
                ix.data_spec(),
                doc_table_start(ix.doc_count(), ix.gram_count()),
                ix.doc_count(),
            ) is Some);
            assert(ix.wf());
        }
        Ok(ix)
    }
}

/// Loop-invariant bundle for `load`: header checks passed and the
/// posting-list table fits.
pub open spec fn wf_load_inv(data: Seq<u8>, document_count: u32, ngram_count: u32) -> bool {
    &&& magic_ok(data)
    &&& data[3] == 3
    &&& be32(data.subrange(4, 8)) == document_count
    &&& be32(data.subrange(8, 12)) == ngram_count
    &&& doc_table_start(document_count as nat, ngram_count as nat) <= data.len()
    &&& data.len() <= usize::MAX
}

/// Read a big-endian `u32` at byte offset `off`.
fn read_be_u32(data: &Vec<u8>, off: usize) -> (r: u32)
    requires
        off + 4 <= data@.len(),
    ensures
        r == be32(data@.subrange(off as int, off + 4)),
{
    let n = data.len();
    let b0 = data[off] as u32;
    let b1 = data[off + 1] as u32;
    let b2 = data[off + 2] as u32;
    let b3 = data[off + 3] as u32;
    let r = (b0 << 24u32) | (b1 << 16u32) | (b2 << 8u32) | b3;
    proof {
        let s = data@.subrange(off as int, off + 4);
        assert(s[0] == data@[off as int] && s[1] == data@[off + 1] && s[2] == data@[off + 2] && s[3]
            == data@[off + 3]);
        let c0 = data@[off as int];
        let c1 = data@[off + 1];
        let c2 = data@[off + 2];
        let c3 = data@[off + 3];
        assert((((c0 as u32) << 24u32) | ((c1 as u32) << 16u32) | ((c2 as u32) << 8u32) | (
        c3 as u32)) == c0 * 0x1000000 + c1 * 0x10000 + c2 * 0x100 + c3) by (bit_vector);
    }
    r
}

/// Strict lexicographic comparison of two trigrams given byte by byte.
fn tri_bytes_lt(a0: u8, a1: u8, a2: u8, b0: u8, b1: u8, b2: u8) -> (r: bool)
    ensures
        r == tri_lt(seq![a0, a1, a2], seq![b0, b1, b2]),
{
    a0 < b0 || (a0 == b0 && (a1 < b1 || (a1 == b1 && a2 < b2)))
}

/// The trigram order is transitive.
proof fn lemma_tri_trans(a: Seq<u8>, b: Seq<u8>, c: Seq<u8>)
    requires
        tri_lt(a, b),
        tri_lt(b, c),
    ensures
        tri_lt(a, c),
{
}

/// In a sorted posting-list table any earlier record is strictly below
/// any later one.
proof fn lemma_tri_chain(data: Seq<u8>, d: nat, g: nat, k1: int, k2: int)
    requires
        forall|k: int|
            0 <= k < g - 1 ==> tri_lt(
                #[trigger] posting_trigram(data, d, k),
                posting_trigram(data, d, k + 1),
            ),
        0 <= k1 < k2 < g,
    ensures
        tri_lt(posting_trigram(data, d, k1), posting_trigram(data, d, k2)),
    decreases k2 - k1,
{
    if k2 == k1 + 1 {
    } else {
        lemma_tri_chain(data, d, g, k1, k2 - 1);
        lemma_tri_trans(
            posting_trigram(data, d, k1),
            posting_trigram(data, d, k2 - 1),
            posting_trigram(data, d, k2),
        );
    }
}

/// In a well-formed index the posting-list records are strictly
/// ascending, so two distinct records hold distinct trigrams.
pub proof fn lemma_posting_order(ix: &Index, k1: int, k2: int)
    requires
        ix.wf(),
        0 <= k1 < k2 < ix.gram_count(),
    ensures
        tri_lt(ix.posting_tri(k1), ix.posting_tri(k2)),
        ix.posting_tri(k1) != ix.posting_tri(k2),
{
    lemma_tri_chain(ix.data_spec(), ix.doc_count(), ix.gram_count(), k1, k2);
    if ix.posting_tri(k1) == ix.posting_tri(k2) {
        assert(!tri_lt(ix.posting_tri(k1), ix.posting_tri(k1)));
    }
}

/// Copy `n` bytes of `data` starting at `start`.
fn copy_range(data: &Vec<u8>, start: usize, n: usize) -> (r: Vec<u8>)
    requires
        start + n <= data@.len(),
    ensures
        r@ == data@.subrange(start as int, start + n),
{
    let m = data.len();
    let mut r: Vec<u8> = Vec::new();
    let mut k: usize = 0;
    while k < n
        invariant
            0 <= k <= n,
            start + n <= data@.len(),
            data@.len() <= usize::MAX,
            r@ == data@.subrange(start as int, start + k),
        decreases n - k,
    {
        r.push(data[start + k]);
        proof {
            assert(r@ =~= data@.subrange(start as int, start + k + 1));
        }
        k = k + 1;
    }
    r
}

impl Index {
    /// Finds the given trigram by binary search over the sorted
    /// posting-list table and returns its posting-list bitmap, or `None`
    /// when no record holds the trigram.
    #[verifier::rlimit(60)]
    pub fn find_trigram(&self, trigram: Trigram) -> (r: Option<BitMap>)
        requires
            self.wf(),
        ensures
            r is Some <==> self.has_trigram(trigram@),
            r matches Some(bm) ==> exists|k: int|
                0 <= k < self.gram_count() && self.posting_tri(k) == trigram@ && bm@
                    == #[trigger] self.posting_map(k),
    {
        let n = self.data.len();
        proof {
            assert((self.document_count as u64 + 7) / 8 <= 0x2000_0000u64);
        }
        let bl: usize = ((self.document_count as u64 + 7) / 8) as usize;
        let rec: usize = 3 + bl;
        let g = self.ngram_count as usize;
        proof {
            assert(rec == record_len(self.doc_count()));
            assert(12 + g as int * rec as int <= self.data_spec().len());
        }
        let mut lo: usize = 0;
        let mut hi: usize = g;
        while lo < hi
            invariant
                self.wf(),
                rec == record_len(self.doc_count()),
                rec == 3 + bl,
                g == self.gram_count(),
                12 + g as int * rec as int <= self.data_spec().len(),
                self.data@.len() <= usize::MAX,
                0 <= lo <= hi <= g,
                forall|k: int| 0 <= k < lo ==> tri_lt(#[trigger] self.posting_tri(k), trigram@),
                forall|k: int| hi <= k < g ==> tri_lt(trigram@, #[trigger] self.posting_tri(k)),
            decreases hi - lo,
        {
            let mid = lo + (hi - lo) / 2;
            proof {
                assert(mid as int * rec as int >= 0 && mid as int * rec as int + rec as int
                    <= g as int * rec as int) by (nonlinear_arith)
                    requires
                        (mid + 1) as int <= g as int,
                        rec as int >= 0,
                ;
            }
            let off = 12 + mid * rec;
            proof {
                assert(off == posting_off(self.doc_count(), mid as int));
                assert(off + rec <= self.data@.len() && rec >= 3);
                assert(self.posting_tri(mid as int) =~= seq![
                    self.data@[off as int],
                    self.data@[off + 1],
                    self.data@[off + 2],
                ]);
            }
            let e0 = self.data[off];
            let e1 = self.data[off + 1];
            let e2 = self.data[off + 2];
            if e0 == trigram.b0 && e1 == trigram.b1 && e2 == trigram.b2 {
                proof {
                    assert(self.posting_tri(mid as int) =~= trigram@);
                }
                let bytes = copy_range(&self.data, off + 3, bl);
                let bm = BitMap::from_bytes(bytes);
                proof {
                    assert(off + 3 + bl == posting_off(self.doc_count(), mid as int) + record_len(
                        self.doc_count(),
                    ));
                    assert(bm@ =~= self.posting_map(mid as int));
                }
                return Some(bm);
            } else if tri_bytes_lt(e0, e1, e2, trigram.b0, trigram.b1, trigram.b2) {
                proof {
                    assert(tri_lt(self.posting_tri(mid as int), trigram@));
                    assert forall|k: int| 0 <= k < mid + 1 implies tri_lt(
                        #[trigger] self.posting_tri(k),
                        trigram@,
                    ) by {
                        if k < mid {
                            lemma_tri_chain(
                                self.data_spec(),
                                self.doc_count(),
                                self.gram_count(),
                                k,
                                mid as int,
                            );
                            lemma_tri_trans(
                                self.posting_tri(k),
                                self.posting_tri(mid as int),
                                trigram@,
                            );
                        }
                    }
                }
                lo = mid + 1;
            } else {
                proof {
                    let e = self.posting_tri(mid as int);
                    assert(e.len() == 3);
                    assert(e[0] == e0 && e[1] == e1 && e[2] == e2);
                    if !tri_lt(trigram@, e) {
                        assert(e =~= trigram@);
                        assert(false);
                    }
                    assert forall|k: int| mid <= k < g implies tri_lt(
                        trigram@,
                        #[trigger] self.posting_tri(k),
                    ) by {
                        if k > mid {
                            lemma_tri_chain(
                                self.data_spec(),
                                self.doc_count(),
                                self.gram_count(),
                                mid as int,
                                k,
                            );
                            lemma_tri_trans(
                                trigram@,
                                self.posting_tri(mid as int),
                                self.posting_tri(k),
                            );
                        }
                    }
                }
                hi = mid;
            }
        }
        proof {
            if self.has_trigram(trigram@) {
                let k = choose|k: int|
                    0 <= k < self.gram_count() && self.posting_tri(k) == trigram@;
                assert(!tri_lt(trigram@, trigram@));
                assert(false);
            }
        }
        None
    }

    /// Finds the document with the given ordinal by walking the
    /// length-prefixed document table. `None` when the ordinal is out of
    /// range.
    #[verifier::rlimit(60)]
    pub fn find_document(&self, document: u32) -> (r: Option<Vec<u8>>)
        requires
            self.wf(),
        ensures
            r is Some <==> document < self.doc_count(),
            r matches Some(p) ==> p@ == self.documents()[document as int],
    {
        if document >= self.document_count {
            return None;
        }
        let n = self.data.len();
        proof {
            assert((self.document_count as u64 + 7) / 8 <= 0x2000_0000u64);
        }
        let bl: usize = ((self.document_count as u64 + 7) / 8) as usize;
        let rec: usize = 3 + bl;
        let g = self.ngram_count as usize;
        let d = self.document_count as usize;
        proof {
            assert(rec == record_len(self.doc_count()));
            assert(12 + g as int * rec as int <= self.data_spec().len());
        }
        let mut off: usize = 12 + g * rec;
        let mut i: usize = 0;
        let target = document as usize;
        proof {
            assert(off == doc_table_start(self.doc_count(), self.gram_count()));
            lemma_parse_docs_len(self.data_spec(), off as int, self.doc_count());
            assert(self.documents().len() == d);
            assert(self.documents().skip(0) =~= self.documents());
        }
        while i < target
            invariant
                self.wf(),
                d == self.doc_count(),
                target == document,
                target < d,
                0 <= i <= target,
                0 <= off <= self.data@.len(),
                self.data@.len() <= usize::MAX,
                self.documents().len() == d,
                parse_docs(self.data_spec(), off as int, (d - i) as nat) == Some(
                    self.documents().skip(i as int),
                ),
            decreases target - i,
        {
            proof {
                assert(parse_docs(self.data_spec(), off as int, (d - i) as nat) is Some);
                assert(off + 4 <= self.data@.len());
            }
            let len = read_be_u32(&self.data, off);
            proof {
                assert(off + 4 + (len as int) <= self.data@.len());
                assert(self.documents().skip(i as int).len() == d - i);
                assert(self.documents().skip(i as int).drop_first() =~= self.documents().skip(
                    i as int + 1,
                ));
            }
            off = off + 4 + (len as usize);
            i = i + 1;
        }
        proof {
            assert(parse_docs(self.data_spec(), off as int, (d - target) as nat) is Some);
            assert(off + 4 <= self.data@.len());
        }
        let len = read_be_u32(&self.data, off);
        proof {
            assert(off + 4 + (len as int) <= self.data@.len());
        }
        let path = copy_range(&self.data, off + 4, len as usize);
        proof {
            let docs_rest = self.documents().skip(target as int);
            assert(docs_rest.len() == d - target);
            assert(docs_rest[0] == self.data_spec().subrange(off + 4, off + 4 + (len as int)));
            assert(self.documents()[target as int] == docs_rest[0]);
        }
        Some(path)
    }
}

} // verus!
