use slashmail::uidset::{build_uid_set, MAX_UID_SET_LENGTH};

#[test]
fn build_uid_set_empty() {
    assert!(build_uid_set(&[]).is_empty());
}

#[test]
fn build_uid_set_single() {
    assert_eq!(build_uid_set(&[42]), vec!["42"]);
}

#[test]
fn build_uid_set_compresses_ranges() {
    assert_eq!(build_uid_set(&[1, 2, 3, 5, 7, 8, 9]), vec!["1:3,5,7:9"]);
}

#[test]
fn build_uid_set_unsorted_input() {
    assert_eq!(build_uid_set(&[5, 3, 1, 2, 4]), vec!["1:5"]);
}

#[test]
fn build_uid_set_deduplicates() {
    assert_eq!(build_uid_set(&[1, 1, 2, 2, 3]), vec!["1:3"]);
}

#[test]
fn build_uid_set_chunks_large_sets() {
    // Enough identifiers, none consecutive, to exceed one chunk.
    let uids: Vec<u32> = (0..2000).map(|i| i * 3).collect();
    let chunks = build_uid_set(&uids);
    assert!(chunks.len() > 1);
    for chunk in &chunks {
        assert!(chunk.len() <= MAX_UID_SET_LENGTH);
    }
}

#[test]
fn build_uid_set_round_trips_as_a_set() {
    // Decoding every chunk recovers exactly the deduplicated input.
    let input: Vec<u32> = vec![10, 7, 7, 3, 4, 5, 90, 91, 1];
    let chunks = build_uid_set(&input);
    let mut decoded: Vec<u32> = Vec::new();
    for chunk in &chunks {
        for part in chunk.split(',') {
            match part.split_once(':') {
                Some((a, b)) => {
                    let lo: u32 = a.parse().unwrap();
                    let hi: u32 = b.parse().unwrap();
                    assert!(lo < hi);
                    for v in lo..=hi {
                        decoded.push(v);
                    }
                },
                None => decoded.push(part.parse().unwrap()),
            }
        }
    }
    let mut expected = input.clone();
    expected.sort_unstable();
    expected.dedup();
    assert_eq!(decoded, expected);
}

#[test]
fn build_uid_set_depends_only_on_the_set() {
    assert_eq!(build_uid_set(&[5, 3, 1, 2, 4]), build_uid_set(&[1, 2, 3, 4, 5]));
    assert_eq!(build_uid_set(&[9, 9, 7, 8]), build_uid_set(&[7, 8, 9]));
    assert_eq!(build_uid_set(&[20, 10, 10, 30]), build_uid_set(&[30, 20, 10]));
}
