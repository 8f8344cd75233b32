use opacity::errors::ProofError;
use opacity::ranges::{find_ranges, resolve, ByteRange};

fn br(start: usize, end: usize) -> ByteRange {
    ByteRange { start, end }
}

#[test]
fn single_match_splits_transcript() {
    let transcript = b"hello world";
    let patterns: [&[u8]; 1] = [b"world"];
    let (public, private) = find_ranges(transcript, &patterns);
    assert_eq!(private, vec![br(6, 11)]);
    assert_eq!(public, vec![br(0, 6)]);
}

#[test]
fn match_in_the_middle_leaves_two_public_ranges() {
    let transcript = b"xxabyy";
    let patterns: [&[u8]; 1] = [b"ab"];
    let (public, private) = find_ranges(transcript, &patterns);
    assert_eq!(private, vec![br(2, 4)]);
    assert_eq!(public, vec![br(0, 2), br(4, 6)]);
}

#[test]
fn empty_pattern_list_gives_full_span() {
    let transcript = b"some recorded bytes";
    let patterns: [&[u8]; 0] = [];
    let (public, private) = find_ranges(transcript, &patterns);
    assert_eq!(private, vec![]);
    assert_eq!(public, vec![br(0, transcript.len())]);
}

#[test]
fn fully_matching_pattern_gives_no_public_range() {
    let transcript = b"top secret";
    let patterns: [&[u8]; 1] = [b"top secret"];
    let (public, private) = find_ranges(transcript, &patterns);
    assert_eq!(private, vec![br(0, 10)]);
    assert_eq!(public, vec![]);
}

#[test]
fn overlapping_matches_merge() {
    let transcript = b"aaaa";
    let patterns: [&[u8]; 1] = [b"aa"];
    let (public, private) = find_ranges(transcript, &patterns);
    // All three raw match positions are recorded, unmerged.
    assert_eq!(private, vec![br(0, 2), br(1, 3), br(2, 4)]);
    // Once merged by the sweep no gap is left, so nothing is public.
    assert_eq!(public, vec![]);
}

#[test]
fn pattern_longer_than_transcript_matches_nowhere() {
    let transcript = b"abc";
    let patterns: [&[u8]; 1] = [b"abcdef"];
    let (public, private) = find_ranges(transcript, &patterns);
    assert_eq!(private, vec![]);
    assert_eq!(public, vec![br(0, 3)]);
}

#[test]
fn private_ranges_are_pattern_major() {
    let transcript = b"abcabc";
    let patterns: [&[u8]; 2] = [b"ab", b"bc"];
    let (public, private) = find_ranges(transcript, &patterns);
    // All matches of the first pattern come first, each ascending.
    assert_eq!(private, vec![br(0, 2), br(3, 5), br(1, 3), br(4, 6)]);
    assert_eq!(public, vec![]);
}

#[test]
fn public_ranges_are_sorted_and_disjoint() {
    let transcript = b"one two three two one";
    let patterns: [&[u8]; 2] = [b"two", b"three"];
    let (public, _private) = find_ranges(transcript, &patterns);
    assert_eq!(public, vec![br(0, 4), br(7, 8), br(13, 14), br(17, 21)]);
    for w in public.windows(2) {
        assert!(w[0].end < w[1].start);
    }
    for r in &public {
        assert!(r.start < r.end && r.end <= transcript.len());
    }
}

#[test]
fn resolving_twice_is_deterministic() {
    let transcript = b"GET / HTTP/1.1\r\nHost: example.com\r\n";
    let patterns: [&[u8]; 2] = [b"example", b"HTTP"];
    let (public1, private1) = find_ranges(transcript, &patterns);
    let (public2, private2) = find_ranges(transcript, &patterns);
    assert_eq!(public1, public2);
    assert_eq!(private1, private2);
}

#[test]
fn no_public_range_contains_a_pattern() {
    let transcript = b"begin secret middle secret end";
    let patterns: [&[u8]; 1] = [b"secret"];
    let (public, _private) = find_ranges(transcript, &patterns);
    for r in &public {
        let window = &transcript[r.start..r.end];
        assert!(!window
            .windows(b"secret".len())
            .any(|w| w == b"secret"));
    }
}

#[test]
fn empty_transcript_yields_nothing() {
    let transcript = b"";
    let patterns: [&[u8]; 1] = [b"x"];
    let (public, private) = find_ranges(transcript, &patterns);
    assert_eq!(private, vec![]);
    assert_eq!(public, vec![]);
}

#[test]
fn resolve_rejects_empty_pattern() {
    let transcript = b"anything";
    let patterns: [&[u8]; 2] = [b"any", b""];
    let r = resolve(transcript, &patterns);
    assert_eq!(r.unwrap_err(), ProofError::EmptyPattern);
}

#[test]
fn resolve_agrees_with_find_ranges() {
    let transcript = b"redact me: token-123, keep the rest";
    let patterns: [&[u8]; 1] = [b"token-123"];
    let (public, private) = resolve(transcript, &patterns).unwrap();
    let (public2, private2) = find_ranges(transcript, &patterns);
    assert_eq!(public, public2);
    assert_eq!(private, private2);
}
