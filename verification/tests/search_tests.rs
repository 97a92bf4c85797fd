use fortune::search::{search_fortune, search_fortune_regex};

#[test]
fn test_search_fortune() {
    let raws = vec![
        b"aaaaaaabbbbb\n%\nhello world\n%\n".to_vec(),
        b"Hello World\n%\n".to_vec(),
    ];
    let strings: [&[u8]; 5] = [b"", b"a", b"aaaaaaabbbbb", b"hello", b"x"];
    strings
        .iter()
        .for_each(|e| {
            search_fortune(&raws, &e.to_vec(), true, true, true);
        });
    strings
        .iter()
        .for_each(|e| {
            search_fortune(&raws, &e.to_vec(), true, true, false);
        });
    strings
        .iter()
        .for_each(|e| {
            search_fortune(&raws, &e.to_vec(), true, false, false);
        });
    strings
        .iter()
        .for_each(|e| {
            search_fortune(&raws, &e.to_vec(), false, false, false);
        });
    strings
        .iter()
        .for_each(|e| {
            search_fortune(&raws, &e.to_vec(), false, true, true);
        });
    strings
        .iter()
        .for_each(|e| {
            search_fortune(&raws, &e.to_vec(), false, false, true);
        });
}

#[test]
fn test_search_fortune_regex() {
    let raws = vec![
        b"aaaaaaabbbbb\n%\nhello world\n%\n".to_vec(),
        b"Hello World\n%\n".to_vec(),
    ];
    let strings: [&[u8]; 10] = [
        b"",
        b"a",
        b"aaaaaaabbbbb",
        b"hello",
        b"x",
        b".",
        b"a.",
        b"A.",
        b"[a-z]",
        b"[A-Z]",
    ];
    strings
        .iter()
        .for_each(|e| {
            assert!(search_fortune_regex(&raws, &e.to_vec(), true, true).is_ok());
        });
    strings
        .iter()
        .for_each(|e| {
            assert!(search_fortune_regex(&raws, &e.to_vec(), true, false).is_ok());
        });
    strings
        .iter()
        .for_each(|e| {
            assert!(search_fortune_regex(&raws, &e.to_vec(), false, false).is_ok());
        });
    strings
        .iter()
        .for_each(|e| {
            assert!(search_fortune_regex(&raws, &e.to_vec(), false, true).is_ok());
        });
}

#[test]
fn test_search_insensitive_highlight() {
    // The match is located case-insensitively but the original-case bytes
    // are wrapped in the markers.
    let raws = vec![b"Hello World".to_vec()];
    let out = search_fortune(&raws, &b"world".to_vec(), true, true, false);
    assert_eq!(out.len(), 1);
    assert_eq!(out[0], b"Hello \x1b[1;91mWorld\x1b[0m\n%".to_vec());
}

#[test]
fn test_search_insensitive_no_highlight() {
    let raws = vec![b"Hello World".to_vec()];
    let out = search_fortune(&raws, &b"world".to_vec(), true, false, false);
    assert_eq!(out, vec![b"Hello World\n%".to_vec()]);
}

#[test]
fn test_search_uppercase_pattern_lowered() {
    // The pattern's comparison form is lower-cased too: an upper-case query
    // still matches lower-case text when insensitive.
    let raws = vec![b"hello\n%\n".to_vec()];
    let out = search_fortune(&raws, &b"HELLO".to_vec(), true, false, false);
    assert_eq!(out.len(), 1);
    let none = search_fortune(&raws, &b"HELLO".to_vec(), false, false, false);
    assert_eq!(none.len(), 0);
}

#[test]
fn test_search_first_only_stops() {
    // Matches sit in the second and third files: first-only prints the
    // second file's match alone.
    let raws = vec![
        b"nothing here\n%\n".to_vec(),
        b"match two\n%\n".to_vec(),
        b"match three\n%\n".to_vec(),
    ];
    let out = search_fortune(&raws, &b"match".to_vec(), false, false, true);
    assert_eq!(out, vec![b"match two\n%".to_vec()]);
}

#[test]
fn test_search_both_quotes() {
    // One file with two quotes and a trailing delimiter: both quotes are
    // printed, and the trailing empty entry matches nothing.
    let raws = vec![b"Quote A\n%\nQuote B\n%\n".to_vec()];
    let out = search_fortune(&raws, &b"Quote".to_vec(), false, false, false);
    assert_eq!(out, vec![b"Quote A\n%".to_vec(), b"Quote B\n%".to_vec()]);
}

#[test]
fn test_search_no_match() {
    let raws = vec![b"Quote A\n%\nQuote B\n%\n".to_vec()];
    let out = search_fortune(&raws, &b"zebra".to_vec(), false, true, false);
    assert_eq!(out.len(), 0);
}

#[test]
fn test_regex_lowercased_class_matches() {
    // Case-insensitive regex lower-cases the pattern text itself, so the
    // class [A-Z] becomes [a-z] and matches plain lower-case text.
    let raws = vec![b"abc".to_vec()];
    let out = search_fortune_regex(&raws, &b"[A-Z]".to_vec(), true, false).unwrap();
    assert_eq!(out, vec![b"abc\n%".to_vec()]);
    let none = search_fortune_regex(&raws, &b"[A-Z]".to_vec(), false, false).unwrap();
    assert_eq!(none.len(), 0);
}

#[test]
fn test_regex_first_only() {
    let raws = vec![
        b"one match\n%\nanother match\n%\n".to_vec(),
        b"third match\n%\n".to_vec(),
    ];
    let out = search_fortune_regex(&raws, &b"match".to_vec(), false, true).unwrap();
    assert_eq!(out, vec![b"one match\n%".to_vec()]);
}

#[test]
fn test_regex_invalid_pattern() {
    let raws = vec![b"abc".to_vec()];
    assert!(search_fortune_regex(&raws, &b"[".to_vec(), false, false).is_err());
}
