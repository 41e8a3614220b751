use codesearch::candidates;
use codesearch::collect_query_trigrams;
use codesearch::get_preview;
use codesearch::rank_bytes;
use codesearch::rank_document;
use codesearch::save_file_name;
use codesearch::sort_results;
use codesearch::Index;
use codesearch::InputFile;
use codesearch::Preview;
use codesearch::SearchResult;
use codesearch::Trigram;

fn file(path: &[u8], content: &[u8]) -> InputFile {
    InputFile { path: path.to_vec(), content: content.to_vec() }
}

fn terms(words: &[&str]) -> Vec<Vec<u8>> {
    words.iter().map(|w| w.as_bytes().to_vec()).collect()
}

#[test]
fn query_trigrams_flatten_all_terms() {
    let tris = collect_query_trigrams(&terms(&["hello", "or"]));
    let got: Vec<[u8; 3]> = tris.iter().map(|t| [t.b0, t.b1, t.b2]).collect();
    assert_eq!(got, vec![*b"hel", *b"ell", *b"llo"]);
}

#[test]
fn searching_hello_finds_the_single_file() {
    let (ix, _) = Index::create(vec![file(b"hello.txt", b"hello world")], 0);
    let tris = collect_query_trigrams(&terms(&["hello"]));
    let any = candidates(&ix, &tris);
    assert!(any.get(0));
    let (rank, previews) = rank_document("hello world", &terms(&["hello"]), &tris);
    assert!(rank > 0);
    assert_eq!(previews[0].line, 1);
}

#[test]
fn mixed_case_queries_reach_the_same_candidates() {
    let (ix, _) = Index::create(vec![file(b"f", b"Hello")], 0);
    let upper = candidates(&ix, &collect_query_trigrams(&terms(&["HELLO"])));
    let lower = candidates(&ix, &collect_query_trigrams(&terms(&["hello"])));
    assert_eq!(upper.as_bytes(), lower.as_bytes());
    assert!(upper.get(0));
}

#[test]
fn unmatched_queries_select_nothing() {
    let (ix, _) = Index::create(vec![file(b"f", b"hello world")], 0);
    let any = candidates(&ix, &collect_query_trigrams(&terms(&["zebra"])));
    assert!(!any.get(0));
}

#[test]
fn phrase_scores_above_scattered_terms() {
    let q = terms(&["foo", "bar"]);
    let tris = collect_query_trigrams(&q);
    let (together, _) = rank_bytes(b"foo bar", &q, &tris);
    let (apart, _) = rank_bytes(b"foo and also bar", &q, &tris);
    // the phrase is worth 100 per byte of the terms, the contained
    // terms 10 per byte, and each contained trigram 1
    assert_eq!(together, 100 * 6 + 10 * 3 + 10 * 3 + 2);
    assert_eq!(apart, 10 * 3 + 10 * 3 + 2);
    assert!(together > apart);
}

#[test]
fn single_term_occurrence_counts_as_a_phrase() {
    let q = terms(&["foo"]);
    let tris = collect_query_trigrams(&q);
    let (rank, _) = rank_bytes(b"a foo b", &q, &tris);
    assert_eq!(rank, 100 * 3 + 10 * 3 + 1);
}

#[test]
fn ranking_lowercases_the_contents() {
    let q = terms(&["foo"]);
    let tris = collect_query_trigrams(&q);
    let (rank, _) = rank_document("FOO", &q, &tris);
    assert_eq!(rank, 100 * 3 + 10 * 3 + 1);
}

#[test]
fn previews_name_the_first_matching_line() {
    let pv = get_preview(b"aaa\nbbb ccc\nccc\n", b"ccc").unwrap();
    assert_eq!(pv.line, 2);
    assert_eq!(pv.text, b"bbb ccc".to_vec());
}

#[test]
fn previews_trim_and_clip_the_line() {
    let pv = get_preview(b"   padded line \t\n", b"padded").unwrap();
    assert_eq!(pv.line, 1);
    assert_eq!(pv.text, b"padded line".to_vec());
    let long = [b"start ".to_vec(), vec![b'x'; 80]].concat();
    let pv2 = get_preview(&long, b"start").unwrap();
    assert_eq!(pv2.text.len(), 50);
    assert_eq!(&pv2.text[..6], b"start ");
}

#[test]
fn previews_strip_a_trailing_carriage_return() {
    let pv = get_preview(b"one two\r\nthree\r\n", b"three").unwrap();
    assert_eq!(pv.line, 2);
    assert_eq!(pv.text, b"three".to_vec());
}

#[test]
fn a_match_spanning_lines_yields_no_preview() {
    assert!(get_preview(b"ab\ncd", b"b\nc").is_none());
    assert!(get_preview(b"abc", b"xyz").is_none());
}

#[test]
fn previews_are_sorted_and_deduplicated() {
    let q = terms(&["bbb", "aaa"]);
    let tris = collect_query_trigrams(&q);
    let (_, previews) = rank_bytes(b"aaa\nbbb\n", &q, &tris);
    let lines: Vec<usize> = previews.iter().map(|p| p.line).collect();
    let mut sorted = lines.clone();
    sorted.sort();
    assert_eq!(lines, sorted);
    for i in 0..previews.len() {
        for j in i + 1..previews.len() {
            assert!(
                previews[i].line != previews[j].line
                    || previews[i].text != previews[j].text
            );
        }
    }
    // the term previews for both lines survive deduplication
    assert!(lines.contains(&1));
    assert!(lines.contains(&2));
}

#[test]
fn results_sort_by_decreasing_rank() {
    let mk = |p: &[u8], r: usize| SearchResult {
        path: p.to_vec(),
        rank: r,
        previews: Vec::<Preview>::new(),
    };
    let sorted = sort_results(vec![mk(b"a", 2), mk(b"b", 30), mk(b"c", 7)]);
    let got: Vec<usize> = sorted.iter().map(|r| r.rank).collect();
    assert_eq!(got, vec![30, 7, 2]);
    assert_eq!(sorted[0].path, b"b".to_vec());
}

#[test]
fn save_file_name_is_the_hex_digest_of_the_directory() {
    // the digest of the empty input is a fixed, well-known value
    assert_eq!(
        save_file_name(b""),
        "e3b0c44298fc1c149afbf4c8996fb92427ae41e4649b934ca495991b7852b855"
    );
    let named = save_file_name(b"/home/someone/project");
    assert_eq!(named.len(), 64);
    assert_ne!(named, save_file_name(b"/home/someone/other"));
}

#[test]
fn candidate_bits_track_document_contents() {
    let (ix, _) = Index::create(
        vec![
            file(b"one", b"alpha beta"),
            file(b"two", b"beta gamma"),
            file(b"three", b"delta"),
        ],
        0,
    );
    let tris = collect_query_trigrams(&terms(&["beta"]));
    let any = candidates(&ix, &tris);
    assert!(any.get(0));
    assert!(any.get(1));
    assert!(!any.get(2));
    let gamma = candidates(&ix, &collect_query_trigrams(&terms(&["gamma"])));
    assert!(!gamma.get(0));
    assert!(gamma.get(1));
    assert!(!gamma.get(2));
}

#[test]
fn non_ascii_files_are_rejected_as_binary() {
    let word = [b'c', b'a', b'f', 0xc3, 0xa9];
    let (ix, failed) = Index::create(vec![file(b"menu", &word)], 0);
    assert_eq!(failed, vec![0]);
    assert_eq!(ix.document_count(), 0);
    let t = Trigram { b0: b'f', b1: 0xc3, b2: 0xa9 };
    assert!(ix.find_trigram(t).is_none());
}
