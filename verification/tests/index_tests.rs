use codesearch::Index;
use codesearch::IndexError;
use codesearch::InputFile;
use codesearch::FileStamp;
use codesearch::Trigram;

fn file(path: &[u8], content: &[u8]) -> InputFile {
    InputFile { path: path.to_vec(), content: content.to_vec() }
}

fn tri(s: &[u8; 3]) -> Trigram {
    Trigram { b0: s[0], b1: s[1], b2: s[2] }
}

#[test]
fn single_file_corpus_builds_a_one_document_index() {
    let (ix, failed) = Index::create(vec![file(b"hello.txt", b"hello world")], 7);
    assert!(failed.is_empty());
    assert_eq!(ix.document_count(), 1);
    assert_eq!(ix.ngram_count(), 6);
    assert_eq!(ix.find_document(0).unwrap(), b"hello.txt".to_vec());
    assert!(ix.find_document(1).is_none());
}

#[test]
fn header_has_magic_width_and_counts() {
    let (ix, _) = Index::create(vec![file(b"a", b"hello world")], 0);
    let bytes = ix.as_bytes();
    assert_eq!(&bytes[0..3], &[0x4b, 0x43, 0x53]);
    assert_eq!(bytes[3], 0x03);
    assert_eq!(&bytes[4..8], &[0, 0, 0, 1]);
    assert_eq!(&bytes[8..12], &[0, 0, 0, 6]);
}

#[test]
fn write_then_load_round_trips() {
    let (ix, _) = Index::create(
        vec![file(b"one", b"hello world"), file(b"two", b"fresh bread")],
        42,
    );
    let loaded = Index::load(ix.as_bytes().to_vec(), 42).unwrap();
    assert_eq!(loaded.document_count(), ix.document_count());
    assert_eq!(loaded.ngram_count(), ix.ngram_count());
    assert_eq!(loaded.as_bytes(), ix.as_bytes());
    assert_eq!(loaded.find_document(0).unwrap(), b"one".to_vec());
    assert_eq!(loaded.find_document(1).unwrap(), b"two".to_vec());
    // every trigram present in the corpus is found with its posting list
    for t in [b"hel", b"ell", b"llo", b"wor", b"orl", b"rld"] {
        let bm = ix.find_trigram(tri(t)).unwrap();
        assert!(bm.get(0));
        assert!(!bm.get(1));
    }
    for t in [b"fre", b"res", b"esh", b"bre", b"rea", b"ead"] {
        let bm = ix.find_trigram(tri(t)).unwrap();
        assert!(!bm.get(0));
        assert!(bm.get(1));
    }
    // an absent trigram returns none
    assert!(ix.find_trigram(tri(b"zzz")).is_none());
    assert!(ix.find_trigram(tri(b"aaa")).is_none());
}

#[test]
fn binary_files_are_skipped_with_a_report() {
    let (ix, failed) = Index::create(
        vec![
            file(b"prog", &[0x7f, 0x45, 0x4c, 0x46, 0x02, 0x01]),
            file(b"text", b"hello world"),
        ],
        0,
    );
    assert_eq!(failed, vec![0]);
    assert_eq!(ix.document_count(), 1);
    assert_eq!(ix.find_document(0).unwrap(), b"text".to_vec());
}

#[test]
fn empty_files_are_skipped_silently() {
    let (ix, failed) = Index::create(
        vec![file(b"empty", b""), file(b"text", b"abc")],
        0,
    );
    assert!(failed.is_empty());
    assert_eq!(ix.document_count(), 1);
    assert_eq!(ix.find_document(0).unwrap(), b"text".to_vec());
}

#[test]
fn load_rejects_a_missing_magic() {
    let r = Index::load(b"not an index at all".to_vec(), 0);
    assert_eq!(r.unwrap_err(), IndexError::InvalidHeader);
    let r2 = Index::load(vec![], 0);
    assert_eq!(r2.unwrap_err(), IndexError::InvalidHeader);
}

#[test]
fn load_rejects_an_unsupported_width() {
    let mut data = vec![0x4b, 0x43, 0x53, 0x04];
    data.extend_from_slice(&[0, 0, 0, 0, 0, 0, 0, 0]);
    let r = Index::load(data, 0);
    assert_eq!(r.unwrap_err(), IndexError::UnsupportedNGramLength(4));
}

#[test]
fn load_rejects_truncated_tables() {
    let (ix, _) = Index::create(vec![file(b"a", b"hello world")], 0);
    let bytes = ix.as_bytes();
    let cut = bytes[..bytes.len() - 4].to_vec();
    assert_eq!(Index::load(cut, 0).unwrap_err(), IndexError::InvalidHeader);
    let header_only = bytes[..12].to_vec();
    assert_eq!(Index::load(header_only, 0).unwrap_err(), IndexError::InvalidHeader);
}

#[test]
fn needs_update_compares_against_the_stamp() {
    let (ix, _) = Index::create(vec![file(b"a", b"hello world")], 10);
    let unchanged = vec![FileStamp { path: b"a".to_vec(), mtime: 10 }];
    assert!(!ix.needs_update(&unchanged));
    let touched = vec![FileStamp { path: b"a".to_vec(), mtime: 11 }];
    assert!(ix.needs_update(&touched));
    let paths = ix.stale_paths(&touched);
    assert_eq!(paths, vec![b"a".to_vec()]);
    assert!(ix.stale_paths(&unchanged).is_empty());
}

#[test]
fn incremental_update_matches_a_fresh_create() {
    let (mut ix, _) = Index::create(
        vec![file(b"one", b"hello world"), file(b"two", b"fresh bread")],
        10,
    );
    // "two" changes on disk; "one" keeps its trigram set
    let walk = vec![
        FileStamp { path: b"one".to_vec(), mtime: 5 },
        FileStamp { path: b"two".to_vec(), mtime: 20 },
    ];
    assert!(ix.needs_update(&walk));
    assert_eq!(ix.stale_paths(&walk), vec![b"two".to_vec()]);
    let failed = ix.update(&walk, vec![file(b"two", b"toasted rye")]);
    assert!(failed.is_empty());
    let (fresh, _) = Index::create(
        vec![file(b"one", b"hello world"), file(b"two", b"toasted rye")],
        10,
    );
    assert_eq!(ix.as_bytes(), fresh.as_bytes());
}

#[test]
fn update_drops_files_gone_from_disk() {
    let (mut ix, _) = Index::create(
        vec![file(b"one", b"hello world"), file(b"two", b"fresh bread")],
        10,
    );
    // "one" is no longer on disk; "two" was touched
    let walk = vec![FileStamp { path: b"two".to_vec(), mtime: 20 }];
    let failed = ix.update(&walk, vec![file(b"two", b"fresh bread")]);
    assert!(failed.is_empty());
    assert_eq!(ix.document_count(), 1);
    assert_eq!(ix.find_document(0).unwrap(), b"two".to_vec());
}

#[test]
fn update_adds_new_files() {
    let (mut ix, _) = Index::create(vec![file(b"one", b"hello world")], 10);
    let walk = vec![
        FileStamp { path: b"one".to_vec(), mtime: 5 },
        FileStamp { path: b"new".to_vec(), mtime: 30 },
    ];
    let failed = ix.update(&walk, vec![file(b"new", b"apple pie")]);
    assert!(failed.is_empty());
    assert_eq!(ix.document_count(), 2);
    assert_eq!(ix.find_document(0).unwrap(), b"one".to_vec());
    assert_eq!(ix.find_document(1).unwrap(), b"new".to_vec());
    assert!(ix.find_trigram(tri(b"pie")).unwrap().get(1));
}

#[test]
fn update_reports_binary_fresh_files() {
    let (mut ix, _) = Index::create(vec![file(b"one", b"hello world")], 10);
    let walk = vec![
        FileStamp { path: b"one".to_vec(), mtime: 5 },
        FileStamp { path: b"bin".to_vec(), mtime: 30 },
    ];
    let failed = ix.update(&walk, vec![file(b"bin", &[0x7f, 0x45, 0x4c, 0x46])]);
    assert_eq!(failed, vec![0]);
    assert_eq!(ix.document_count(), 1);
}
