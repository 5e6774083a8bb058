use cavity_bit_filter::bucket::{Bucket, SLOTS};

#[test]
fn bucket_is_exactly_one_word() {
    assert_eq!(std::mem::size_of::<Bucket>(), std::mem::size_of::<u64>());
}

#[test]
fn compact_operations_preserve_order() {
    let mut bucket = Bucket::default();
    for fingerprint in [7, 11, 13, 17] {
        assert!(bucket.append(fingerprint));
    }
    assert!(bucket.is_full());
    assert!(bucket.contains(13));
    assert!(bucket.remove_first(11));
    assert_eq!(bucket.slots(), [7, 13, 17, 0]);
    assert_eq!(bucket.occupancy(), 3);
    assert!(!bucket.remove_first(19));

    for (fingerprint, expected) in [
        (7, [11, 13, 17, 0]),
        (11, [7, 13, 17, 0]),
        (13, [7, 11, 17, 0]),
        (17, [7, 11, 13, 0]),
    ] {
        let mut bucket = Bucket::from_slots([7, 11, 13, 17]);
        assert!(bucket.remove_first(fingerprint));
        assert_eq!(bucket.slots(), expected);
    }

    let mut duplicates = Bucket::from_slots([7, 11, 11, 17]);
    assert!(duplicates.remove_first(11));
    assert_eq!(duplicates.slots(), [7, 11, 17, 0]);
}

#[test]
fn pair_cavity_codec_round_trips_all_unique_permutations() {
    for a in 1..=SLOTS as u16 {
        for b in 1..=SLOTS as u16 {
            for c in 1..=SLOTS as u16 {
                for d in 1..=SLOTS as u16 {
                    let input = [a, b, c, d];
                    if a == b || a == c || a == d || b == c || b == d || c == d {
                        continue;
                    }
                    let mut unique = input;
                    unique.sort_unstable();
                    for state in [1, 2] {
                        let encoded = Bucket::encode_cavity(input, state);
                        assert_eq!(encoded.decode_cavity(), state);
                        let mut payload = encoded.slots();
                        payload.sort_unstable();
                        assert_eq!(payload, unique);
                    }
                }
            }
        }
    }
}

#[test]
fn rank4_codec_round_trips_every_encodable_multiset() {
    for a in 1..=SLOTS as u16 {
        for b in 1..=SLOTS as u16 {
            for c in 1..=SLOTS as u16 {
                for d in 1..=SLOTS as u16 {
                    let input = [a, b, c, d];
                    if input
                        .iter()
                        .any(|value| input.iter().filter(|other| *other == value).count() >= 3)
                    {
                        continue;
                    }
                    let mut expected = input;
                    expected.sort_unstable();
                    for rank in 1..=4 {
                        let encoded = Bucket::encode_rank4(input, rank);
                        assert_eq!(encoded.decode_rank4(), rank);
                        let mut actual = encoded.slots();
                        actual.sort_unstable();
                        assert_eq!(actual, expected);
                    }
                }
            }
        }
    }

    let mut payload = Bucket::encode_rank4([7, 7, 7, 11], 4).slots();
    payload.sort_unstable();
    assert_eq!(payload, [7, 7, 7, 11]);
}

#[test]
fn rank4_encoding_never_changes_query_results() {
    for a in 1..=SLOTS as u16 {
        for b in 1..=SLOTS as u16 {
            for c in 1..=SLOTS as u16 {
                for d in 1..=SLOTS as u16 {
                    let plain = Bucket::from_slots([a, b, c, d]);
                    for rank in 1..=4 {
                        let encoded = Bucket::encode_rank4(plain.slots(), rank);
                        for fingerprint in 1..=SLOTS as u16 + 1 {
                            assert_eq!(encoded.contains(fingerprint), plain.contains(fingerprint));
                        }
                    }
                }
            }
        }
    }
}

#[test]
fn rank4_aliases_only_when_three_fingerprints_are_equal() {
    let mut aliased_inputs = 0;
    for a in 1..=SLOTS as u16 {
        for b in 1..=SLOTS as u16 {
            for c in 1..=SLOTS as u16 {
                for d in 1..=SLOTS as u16 {
                    let input = [a, b, c, d];
                    let aliases = input
                        .iter()
                        .any(|value| input.iter().filter(|other| *other == value).count() >= 3);
                    aliased_inputs += usize::from(aliases);
                    for rank in 1..=4 {
                        let encoded = Bucket::encode_rank4(input, rank);
                        if aliases {
                            assert_eq!(encoded.decode_rank4(), 1);
                        } else {
                            assert_eq!(encoded.decode_rank4(), rank);
                        }
                    }
                }
            }
        }
    }
    assert_eq!(aliased_inputs, 52);
}

#[test]
fn d4_codec_round_trips_all_states() {
    let payload = [19, 3, 41, 7];
    let mut expected = payload;
    expected.sort_unstable();
    for state in 1..=8 {
        let encoded = Bucket::encode_d4(payload, state);
        assert_eq!(encoded.decode_d4(), state);
        let mut actual = encoded.slots();
        actual.sort_unstable();
        assert_eq!(actual, expected);
    }
}

#[test]
fn occupancy_counts_agree_on_every_prefix() {
    let mut bucket = Bucket::default();
    assert_eq!(bucket.occupancy(), 0);
    assert_eq!(bucket.branchless_occupancy(), 0);
    for (count, fingerprint) in [(1, 5), (2, 9), (3, 0xffff), (4, 1)] {
        assert!(bucket.append(fingerprint));
        assert_eq!(bucket.occupancy(), count);
        assert_eq!(bucket.branchless_occupancy(), count);
    }
    assert!(!bucket.append(3));
    assert_eq!(bucket.slots(), [5, 9, 0xffff, 1]);
}

#[test]
fn replace_overwrites_only_its_lane() {
    let mut bucket = Bucket::from_slots([1, 2, 3, 4]);
    bucket.replace(2, 9);
    assert_eq!(bucket.slots(), [1, 2, 9, 4]);
    assert_eq!(bucket.slot(2), 9);
    assert_eq!(Bucket::from_slots([4, 1, 3, 2]).sorted_slots(), [1, 2, 3, 4]);
}

#[test]
fn d4_marks_repeated_fingerprints_as_unordered() {
    let encoded = Bucket::encode_d4([5, 3, 5, 1], 6);
    assert_eq!(encoded.slots(), [1, 3, 5, 5]);
    assert_eq!(encoded.decode_d4(), 4);
}

#[test]
fn cavity_codec_keeps_all_equal_multisets_unchanged() {
    let encoded = Bucket::encode_cavity([6, 6, 6, 6], 2);
    assert_eq!(encoded.slots(), [6, 6, 6, 6]);
    assert_eq!(encoded.decode_cavity(), 1);
    let paired = Bucket::encode_cavity([6, 6, 8, 6], 2);
    assert_eq!(paired.decode_cavity(), 2);
}
