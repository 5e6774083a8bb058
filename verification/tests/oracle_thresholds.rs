use cavity_bit_filter::hash::fingerprint_delta;
use cavity_bit_filter::oracle::{
    exact_threshold, generate_items, slot_matching_threshold, ExactOracle, GraphModel, Item,
    OracleError,
};

#[test]
fn incremental_oracle_matches_independent_slot_matching() {
    let mut instances = 0;
    for graph in [GraphModel::Independent, GraphModel::Xor16] {
        for seed in 0..512_u64 {
            let bucket_count = 4 << (seed as usize & 3);
            let mut items = generate_items(bucket_count, bucket_count * 4 + 8, seed, graph).unwrap();

            match seed & 3 {
                0 => {
                    items[1].fingerprint = items[0].fingerprint;
                }
                1 => {
                    items[1].second = items[1].first;
                    items[2].fingerprint = items[1].fingerprint;
                }
                2 => {
                    items[2] = items[1];
                }
                _ => {
                    items.extend(
                        [Item {
                            first: 0,
                            second: 0,
                            fingerprint: 7,
                        }; 6],
                    );
                }
            }

            assert_eq!(
                exact_threshold(bucket_count, &items).unwrap(),
                slot_matching_threshold(bucket_count, &items).unwrap(),
                "graph={graph:?}, seed={seed}, buckets={bucket_count}"
            );
            instances += 1;
        }
    }

    let xor = generate_items(16, 8, 0, GraphModel::Xor16).unwrap();
    let independent = generate_items(16, 8, 0, GraphModel::Independent).unwrap();
    assert_eq!(
        &xor[..4],
        &[
            Item {
                first: 1,
                second: 4,
                fingerprint: 42_757,
            },
            Item {
                first: 2,
                second: 7,
                fingerprint: 10_021,
            },
            Item {
                first: 3,
                second: 6,
                fingerprint: 60_293,
            },
            Item {
                first: 7,
                second: 12,
                fingerprint: 9_195,
            },
        ]
    );
    assert_eq!(
        independent[..4].iter().map(|item| item.second).collect::<Vec<_>>(),
        [0, 5, 13, 2]
    );
    for (xor_item, independent_item) in xor.iter().zip(&independent) {
        assert_eq!(xor_item.first, independent_item.first);
        assert_eq!(xor_item.fingerprint, independent_item.fingerprint);
        assert_eq!(xor_item.second, xor_item.first ^ fingerprint_delta(15, xor_item.fingerprint));
        assert_ne!(independent_item.first, independent_item.second);
    }
    assert_eq!(instances, 1_024);
}

#[test]
fn oracle_rejects_bad_dimensions_and_endpoints() {
    assert_eq!(ExactOracle::new(0).unwrap_err(), OracleError::BucketCount);
    assert_eq!(generate_items(3, 4, 0, GraphModel::Xor16).unwrap_err(), OracleError::BucketCount);
    assert_eq!(generate_items(1, 4, 0, GraphModel::Xor16).unwrap_err(), OracleError::BucketCount);
    assert_eq!(exact_threshold(0, &[]), Err(OracleError::BucketCount));
    assert_eq!(slot_matching_threshold(0, &[]), Err(OracleError::BucketCount));

    let mut oracle = ExactOracle::new(4).unwrap();
    let outside_first = Item { first: 4, second: 9, fingerprint: 1 };
    let outside_second = Item { first: 1, second: 9, fingerprint: 1 };
    assert_eq!(
        oracle.insert(outside_first),
        Err(OracleError::EndpointOutOfRange { endpoint: 4, bucket_count: 4 })
    );
    assert_eq!(
        oracle.insert(outside_second),
        Err(OracleError::EndpointOutOfRange { endpoint: 9, bucket_count: 4 })
    );
    assert!(oracle.is_empty());
    assert_eq!(
        exact_threshold(4, &[Item { first: 0, second: 1, fingerprint: 1 }, outside_second]),
        Err(OracleError::EndpointOutOfRange { endpoint: 9, bucket_count: 4 })
    );
    assert_eq!(
        slot_matching_threshold(4, &[Item { first: 0, second: 1, fingerprint: 1 }, outside_first]),
        Err(OracleError::EndpointOutOfRange { endpoint: 4, bucket_count: 4 })
    );
    assert_eq!(
        OracleError::EndpointOutOfRange { endpoint: 9, bucket_count: 4 }.message(),
        "bucket endpoint 9 is outside a 4-bucket table"
    );
    assert_eq!(
        OracleError::BucketCount.message(),
        "bucket count must be nonzero and addressable by a 32-bit bucket index"
    );
}

#[test]
fn oracle_accepts_four_loops_per_bucket_and_augments_paths() {
    let mut oracle = ExactOracle::new(2).unwrap();
    let looped = Item { first: 0, second: 0, fingerprint: 3 };
    for _ in 0..4 {
        assert_eq!(oracle.insert(looped), Ok(true));
    }
    assert_eq!(oracle.insert(looped), Ok(false));
    assert_eq!(oracle.len(), 4);
    // An item between the full bucket and the empty one still fits.
    let bridge = Item { first: 0, second: 1, fingerprint: 5 };
    for _ in 0..4 {
        assert_eq!(oracle.insert(bridge), Ok(true));
    }
    assert_eq!(oracle.insert(bridge), Ok(false));
    assert_eq!(oracle.len(), 8);

    let items = [looped; 5];
    assert_eq!(exact_threshold(2, &items), Ok(4));
    assert_eq!(slot_matching_threshold(2, &items), Ok(4));

    // Moving a resident to its other endpoint makes room for a new item.
    let mut chain = ExactOracle::new(2).unwrap();
    for _ in 0..4 {
        assert_eq!(chain.insert(Item { first: 0, second: 1, fingerprint: 9 }), Ok(true));
    }
    for _ in 0..4 {
        assert_eq!(chain.insert(Item { first: 0, second: 0, fingerprint: 2 }), Ok(true));
    }
    assert_eq!(chain.len(), 8);
    assert_eq!(chain.insert(Item { first: 1, second: 1, fingerprint: 4 }), Ok(false));
}
