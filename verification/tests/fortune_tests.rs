use fortune::fortune::{
    get_fortunes_dir, get_rand_file, get_rand_fortune, get_rand_fortune_from_all, pick_entry,
    pick_entry_from_all, split_all,
};
use fortune::randnum::get_rand_value;
use fortune::split::split_quotes;

#[test]
fn test_get_fortune_dir() {
    assert_eq!(get_fortunes_dir(None).len() > 0, true);
}

#[test]
fn test_get_fortune_dir_default() {
    assert_eq!(get_fortunes_dir(None), "fortunes");
    assert_eq!(get_fortunes_dir(Some("elsewhere".to_string())), "elsewhere");
}

#[test]
fn test_get_rand_file() {
    let files = vec!["fortunes/one".to_string(), "fortunes/two".to_string()];
    assert_eq!(get_rand_file(&files).is_ok(), true)
}

#[test]
fn test_get_rand_file_member() {
    let files = vec!["a".to_string(), "b".to_string(), "c".to_string()];
    let picked = get_rand_file(&files).unwrap();
    assert!(files.contains(&picked));
}

#[test]
fn test_get_rand_file_empty() {
    let files: Vec<String> = Vec::new();
    assert_eq!(get_rand_file(&files).is_err(), true);
}

#[test]
fn test_get_rand_fortune() {
    let raw = b"Quote A\n%\nQuote B\n%\n".to_vec();
    let fortune = get_rand_fortune(&raw);
    assert_eq!(fortune.len() > 0, true)
}

#[test]
fn test_get_rand_fortune_member() {
    let raw = b"Quote A\n%\nQuote B\n%\n".to_vec();
    let fortune = get_rand_fortune(&raw);
    assert!(fortune == b"Quote A".to_vec() || fortune == b"Quote B".to_vec());
}

#[test]
fn test_get_rand_fortune_from_all() {
    let raws = vec![b"Quote A\n%\nQuote B\n%\n".to_vec(), b"Quote C\n%\n".to_vec()];
    let fortune = get_rand_fortune_from_all(&raws);
    assert_eq!(fortune.len() > 0, true);
    // A degenerate pick (a trailing empty entry) falls back to a whole
    // file's content, so the last file's full text is a possible outcome.
    assert!(
        fortune == b"Quote A".to_vec() || fortune == b"Quote B".to_vec()
            || fortune == b"Quote C".to_vec() || fortune == b"Quote C\n%\n".to_vec()
    );
}

#[test]
fn test_get_rand_fortune_from_all_no_quote() {
    let raws = vec![b"a".to_vec()];
    let fortune = get_rand_fortune_from_all(&raws);
    assert_eq!(fortune, b"Oops, no quote. Are fortune cookies empty?".to_vec());
}

#[test]
fn test_get_rand_value() {
    match get_rand_value(10) {
        0..=10 => {} // ignore, it means ok,
        _ => panic!("test_get_rand_value() -> get_rand_value()"),
    }
}

#[test]
fn test_get_rand_value_bound() {
    for _ in 0..100 {
        assert!(get_rand_value(3) < 3);
    }
}

#[test]
fn test_split_round_trip() {
    let raw = b"Quote A\n%\nQuote B\n%\n".to_vec();
    let quotes = split_quotes(&raw);
    let expected: Vec<Vec<u8>> = vec![b"Quote A".to_vec(), b"Quote B".to_vec(), b"".to_vec()];
    assert_eq!(quotes, expected);
    let mut rejoined: Vec<u8> = Vec::new();
    for (i, q) in quotes.iter().enumerate() {
        if i > 0 {
            rejoined.extend_from_slice(b"\n%\n");
        }
        rejoined.extend_from_slice(q);
    }
    assert_eq!(rejoined, raw);
}

#[test]
fn test_split_no_delimiter() {
    let raw = b"hello world".to_vec();
    let quotes = split_quotes(&raw);
    assert_eq!(quotes, vec![b"hello world".to_vec()]);
}

#[test]
fn test_split_empty() {
    let raw: Vec<u8> = Vec::new();
    let quotes = split_quotes(&raw);
    assert_eq!(quotes, vec![Vec::<u8>::new()]);
}

#[test]
fn test_pick_entry_backward_scan() {
    let quotes = vec![b"aa".to_vec(), b"".to_vec(), b"bb".to_vec(), b"".to_vec()];
    // The last entry is degenerate: the backward scan must yield the entry
    // with real content that is nearest to the end.
    assert_eq!(pick_entry(&quotes, 3), b"bb".to_vec());
}

#[test]
fn test_pick_entry_reaches_first() {
    let quotes = vec![b"aa".to_vec(), b"".to_vec(), b"\n".to_vec(), b"".to_vec()];
    // Every entry after the first is degenerate: the scan terminates at the
    // first entry, whatever index was picked.
    for k in 0..quotes.len() {
        assert_eq!(pick_entry(&quotes, k), b"aa".to_vec());
    }
}

#[test]
fn test_pick_entry_non_degenerate() {
    let quotes = vec![b"aa".to_vec(), b"".to_vec(), b"bb".to_vec()];
    assert_eq!(pick_entry(&quotes, 2), b"bb".to_vec());
}

#[test]
fn test_pick_entry_from_all_file_granularity() {
    // The corpus-wide fallback walks whole file contents, not entries: the
    // picked degenerate entry comes from the second file, and the fallback
    // returns the whole content of the nearest-to-the-end readable file.
    let contents = vec![b"Quote A\n%\n".to_vec(), b"\n".to_vec()];
    let entries = split_all(&contents);
    assert_eq!(entries.len(), 3);
    // Entry 2 is the second file's lone degenerate entry.
    assert_eq!(pick_entry_from_all(&contents, 2), b"Quote A\n%\n".to_vec());
}

#[test]
fn test_decode_repairs_invalid_utf8() {
    // A lone 0xFF byte is malformed UTF-8 and is replaced, not rejected.
    let raw = vec![0xFFu8];
    let fortune = get_rand_fortune(&raw);
    assert_eq!(fortune, vec![0xEFu8, 0xBFu8, 0xBDu8]);
}
