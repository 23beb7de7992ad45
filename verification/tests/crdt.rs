use std::str::FromStr;

use rand::rng;
use rand::seq::SliceRandom;

use sink::{CompareMessage, CrdtError, HashBlock, Message, MessageID, Operation, Timestamp, CRDT};

fn at(text: &str) -> Timestamp {
    let nanos = jiff::Timestamp::from_str(text).unwrap().as_nanosecond();
    Timestamp::from_nanosecond(nanos).unwrap()
}

fn sample_ops() -> Vec<Message> {
    vec![
        Message {
            id: String::from("1"),
            operation: Operation::Add(String::from("1")),
            timestamp: at("2025-08-11T15:48:01.693605086Z"),
        },
        Message {
            id: String::from("2"),
            operation: Operation::Add(String::from("2")),
            timestamp: at("2025-08-11T15:48:02.693605086Z"),
        },
        Message {
            id: String::from("3"),
            operation: Operation::Add(String::from("3")),
            timestamp: at("2025-08-11T15:48:03.693605086Z"),
        },
        Message {
            id: String::from("4"),
            operation: Operation::Add(String::from("4")),
            timestamp: at("2025-08-11T15:48:04.693605086Z"),
        },
        Message {
            id: String::from("5"),
            operation: Operation::Add(String::from("5")),
            timestamp: at("2025-08-11T15:48:05.693605086Z"),
        },
        Message {
            id: String::from("6"),
            operation: Operation::Add(String::from("6")),
            timestamp: at("2025-08-11T15:48:06.693605086Z"),
        },
        Message {
            id: String::from("7"),
            operation: Operation::Remove(MessageID::from("5")),
            timestamp: at("2025-08-11T15:48:07.693605086Z"),
        },
    ]
}

#[test]
fn test_crdt() {
    let mut crdt = CRDT::new();

    let mut ops = sample_ops();

    let mut rng = rng();
    ops.shuffle(&mut rng);

    crdt.merge(ops);

    let text = crdt.text();
    assert_eq!(
        text,
        String::from(
            r###"
# id: 6, timestamp: 2025-08-11T15:48:06.693605086Z
6
# id: 4, timestamp: 2025-08-11T15:48:04.693605086Z
4
# id: 3, timestamp: 2025-08-11T15:48:03.693605086Z
3
# id: 2, timestamp: 2025-08-11T15:48:02.693605086Z
2
# id: 1, timestamp: 2025-08-11T15:48:01.693605086Z
1"###
        )
    );

    let hash_chain = crdt.hash_chain();
    println!("{:#?}", hash_chain);

    let expected_hashes = vec![
        "0000000000000000000000000000000000000000",
        "1eb53bed2bf35a2c9f8e608f0ecb1485e03e01e3",
        "fdb99193d4eabcfadbf04b8d3dbda0fdd459d9d1",
        "17350e1bad4ace58a036c628e3e369b7d69732f2",
        "2811b0fce0fe29a7f9a43899b2b4077b085e0607",
        "c5a19a2a549b4209bfee4a0fe7626349ba43d8af",
        "090f7f7aa9d47cec924ffa911afabffb91cb9b0d",
        "25bbbc46c4ec1068202563dad3e78b0ab7ed55fb",
    ];
    for (block, expected_hash) in hash_chain.iter().zip(expected_hashes.iter()) {
        assert_eq!(block.hash, *expected_hash);
    }
    assert_eq!(hash_chain.len(), 8);
}

#[test]
fn test_compare_less() {
    let mut rng = rng();

    let mut crdt_1 = CRDT::new();
    let mut ops = sample_ops();
    ops.shuffle(&mut rng);
    crdt_1.merge(ops);

    let mut crdt_2 = CRDT::new();
    let mut ops: Vec<Message> = sample_ops().into_iter().take(4).collect();
    ops.shuffle(&mut rng);
    crdt_2.merge(ops);
    let compare_message = CompareMessage {
        hash_block: crdt_2.hash_chain()[4].clone(),
        timestamp: crdt_2.list().last().unwrap().timestamp,
        message_position: crdt_2.list().len(),
    };

    let compare = crdt_1.compare(compare_message).unwrap();
    for (result, expect) in compare.diff.iter().zip(vec!["5", "6", "7"]) {
        assert_eq!(result.id, expect);
    }
}

fn message_at(id: &str, op: Operation, nanos: i128) -> Message {
    Message { id: id.to_string(), operation: op, timestamp: Timestamp::from_nanosecond(nanos).unwrap() }
}

#[test]
fn new_crdt_holds_genesis() {
    let crdt = CRDT::new();
    let ops = crdt.list();
    assert_eq!(ops.len(), 1);
    assert_eq!(ops[0].id, "0");
    assert_eq!(ops[0].operation, Operation::Add("0".to_string()));
    assert_eq!(ops[0].timestamp.as_nanosecond(), 0);
    assert_eq!(crdt.text(), "");
    let chain = crdt.hash_chain();
    assert_eq!(chain.len(), 1);
    assert_eq!(chain[0].id, "0");
    assert_eq!(chain[0].hash, "0000000000000000000000000000000000000000");
    assert_eq!(chain[0].hash(), vec![0u8; 20]);
}

#[test]
fn chain_hash_is_sha1_of_id_and_previous_digest() {
    let block = HashBlock::compute_from("1".to_string(), &[0u8; 20]);
    assert_eq!(block.id, "1");
    assert_eq!(block.hash, "1eb53bed2bf35a2c9f8e608f0ecb1485e03e01e3");
    let digest = HashBlock::compute_hash("abc", &[]);
    assert_eq!(hex::encode(&digest), "a9993e364706816aba3e25717850c26c9cd0d89d");
    assert_eq!(block.hash().len(), 20);
    assert_eq!(block.hash()[0], 0x1e);
    let upper = HashBlock::new("x".to_string(), "ABcd".to_string());
    assert_eq!(upper.hash(), vec![0xab, 0xcd]);
}

#[test]
fn list_is_ordered_by_timestamp_then_id() {
    let mut crdt = CRDT::new();
    crdt.merge(vec![
        message_at("b", Operation::Add("x".to_string()), 5),
        message_at("a", Operation::Add("y".to_string()), 5),
        message_at("c", Operation::Add("z".to_string()), 1),
    ]);
    let ids: Vec<String> = crdt.list().into_iter().map(|m| m.id).collect();
    assert_eq!(ids, vec!["0", "c", "a", "b"]);
}

#[test]
fn duplicate_key_keeps_first_message() {
    let mut crdt = CRDT::new();
    crdt.merge(vec![
        message_at("a", Operation::Add("first".to_string()), 3),
        message_at("a", Operation::Add("second".to_string()), 3),
    ]);
    let ops = crdt.list();
    assert_eq!(ops.len(), 2);
    assert_eq!(ops[1].operation, Operation::Add("first".to_string()));
    assert!(crdt.text().ends_with("\nfirst"));
}

#[test]
fn remove_marks_first_entry_with_that_id() {
    let mut crdt = CRDT::new();
    crdt.merge(vec![
        message_at("a", Operation::Add("one".to_string()), 1_000_000_000),
        message_at("a", Operation::Add("two".to_string()), 2_000_000_000),
        message_at("r", Operation::Remove("a".to_string()), 3_000_000_000),
    ]);
    assert_eq!(crdt.text(), "\n# id: a, timestamp: 1970-01-01T00:00:02Z\ntwo");
}

#[test]
fn remove_before_its_add_is_lost() {
    let mut crdt = CRDT::new();
    crdt.merge(vec![message_at("r", Operation::Remove("a".to_string()), 1)]);
    crdt.merge(vec![message_at("a", Operation::Add("kept".to_string()), 2)]);
    assert_eq!(crdt.text(), "\n# id: a, timestamp: 1970-01-01T00:00:00.000000002Z\nkept");
}

#[test]
fn merging_again_keeps_the_log_and_grows_the_chain() {
    let mut crdt = CRDT::new();
    crdt.merge(sample_ops());
    let once = crdt.list();
    let chain_once = crdt.hash_chain();
    crdt.merge(sample_ops());
    assert_eq!(crdt.list(), once);
    let chain_twice = crdt.hash_chain();
    assert_eq!(chain_twice.len(), chain_once.len() + once.len() - 1);
    for (a, b) in chain_once.iter().zip(chain_twice.iter()) {
        assert_eq!(a.hash, b.hash);
    }
}

#[test]
fn merge_result_ignores_input_order() {
    let mut forward = CRDT::new();
    forward.merge(sample_ops());
    let mut reversed_ops = sample_ops();
    reversed_ops.reverse();
    let mut backward = CRDT::new();
    backward.merge(reversed_ops);
    assert_eq!(forward.list(), backward.list());
    assert_eq!(forward.text(), backward.text());
    let f: Vec<String> = forward.hash_chain().into_iter().map(|b| b.hash).collect();
    let b: Vec<String> = backward.hash_chain().into_iter().map(|b| b.hash).collect();
    assert_eq!(f, b);
}

#[test]
fn compare_at_own_tip_is_empty() {
    let mut crdt = CRDT::new();
    crdt.merge(sample_ops());
    let chain = crdt.hash_chain();
    let compare = crdt
        .compare(CompareMessage {
            hash_block: chain[chain.len() - 1].clone(),
            timestamp: Timestamp::unix_epoch(),
            message_position: chain.len(),
        })
        .unwrap();
    assert!(compare.diff.is_empty());
}

#[test]
fn compare_at_tip_with_other_hash_sends_last() {
    let mut crdt = CRDT::new();
    crdt.merge(sample_ops());
    let chain = crdt.hash_chain();
    let compare = crdt
        .compare(CompareMessage {
            hash_block: HashBlock::new("x".to_string(), "ff".to_string()),
            timestamp: Timestamp::unix_epoch(),
            message_position: chain.len(),
        })
        .unwrap();
    assert_eq!(compare.diff.len(), 1);
    assert_eq!(compare.diff[0].id, "7");
}

#[test]
fn compare_past_the_end_is_an_error() {
    let crdt = CRDT::new();
    let result = crdt.compare(CompareMessage {
        hash_block: HashBlock::new("0".to_string(), "00".to_string()),
        timestamp: Timestamp::unix_epoch(),
        message_position: 2,
    });
    let err = result.unwrap_err();
    assert_eq!(err, CrdtError::IndexOutOfBounds);
    assert_eq!(err.message(), "index out of bounds");
}

#[test]
fn compare_with_unknown_hash_sends_everything() {
    let mut crdt = CRDT::new();
    crdt.merge(sample_ops());
    let compare = crdt
        .compare(CompareMessage {
            hash_block: HashBlock::new("x".to_string(), "ff".to_string()),
            timestamp: Timestamp::unix_epoch(),
            message_position: 3,
        })
        .unwrap();
    assert_eq!(compare.diff.len(), 8);
    assert_eq!(compare.diff, crdt.list());
}

#[test]
fn timestamp_range_follows_jiff() {
    assert!(Timestamp::from_nanosecond(sink::timestamp::MIN_NANOSECOND).is_some());
    assert!(Timestamp::from_nanosecond(sink::timestamp::MIN_NANOSECOND - 1).is_none());
    assert!(Timestamp::from_nanosecond(sink::timestamp::MAX_NANOSECOND).is_some());
    assert!(Timestamp::from_nanosecond(sink::timestamp::MAX_NANOSECOND + 1).is_none());
    assert_eq!(jiff::Timestamp::MIN.as_nanosecond(), sink::timestamp::MIN_NANOSECOND);
    assert_eq!(jiff::Timestamp::MAX.as_nanosecond(), sink::timestamp::MAX_NANOSECOND);
    assert_eq!(
        Timestamp::from_nanosecond(1_500_000_000).unwrap().to_rfc3339(),
        "1970-01-01T00:00:01.5Z"
    );
}

#[test]
fn removal_stays_after_later_merges() {
    let mut crdt = CRDT::new();
    crdt.merge(sample_ops());
    assert!(!crdt.text().contains("# id: 5,"));
    crdt.merge(vec![message_at("5", Operation::Add("5".to_string()), at("2025-08-11T15:48:05.693605086Z").as_nanosecond())]);
    crdt.merge(sample_ops());
    assert!(!crdt.text().contains("# id: 5,"));
    assert!(crdt.text().contains("# id: 6,"));
}

#[test]
fn equal_timestamps_keep_input_order() {
    let add = message_at("a", Operation::Add("x".to_string()), 7);
    let remove = message_at("r", Operation::Remove("a".to_string()), 7);
    let mut first = CRDT::new();
    first.merge(vec![add.clone(), remove.clone()]);
    assert_eq!(first.text(), "");
    let mut second = CRDT::new();
    second.merge(vec![remove, add]);
    assert_eq!(second.text(), "\n# id: a, timestamp: 1970-01-01T00:00:00.000000007Z\nx");
}

#[test]
fn each_block_seals_the_previous_one() {
    let mut crdt = CRDT::new();
    crdt.merge(sample_ops());
    let chain = crdt.hash_chain();
    for k in 1..chain.len() {
        let expected = HashBlock::compute_from(chain[k].id.clone(), &chain[k - 1].hash());
        assert_eq!(chain[k].hash, expected.hash);
    }
    let ids: Vec<String> = chain.iter().skip(1).map(|b| b.id.clone()).collect();
    assert_eq!(ids, vec!["1", "2", "3", "4", "5", "6", "7"]);
}

#[test]
fn second_merge_leaves_text_unchanged() {
    let mut crdt = CRDT::new();
    crdt.merge(sample_ops());
    let list_once = crdt.list();
    let text_once = crdt.text();
    crdt.merge(sample_ops());
    assert_eq!(crdt.list(), list_once);
    assert_eq!(crdt.text(), text_once);
    assert!(!text_once.contains("# id: 5,"));
}

#[test]
fn peer_with_a_prefix_gets_exactly_the_rest() {
    let mut full = CRDT::new();
    full.merge(sample_ops());
    let whole = full.list();
    for k in 0..=sample_ops().len() {
        let mut peer = CRDT::new();
        peer.merge(sample_ops().into_iter().take(k).collect());
        let p = peer.list().len();
        assert_eq!(peer.list(), whole[..p].to_vec());
        let compare = full
            .compare(CompareMessage {
                hash_block: peer.hash_chain()[p - 1].clone(),
                timestamp: Timestamp::unix_epoch(),
                message_position: p,
            })
            .unwrap();
        assert_eq!(compare.diff, whole[p..].to_vec());
    }
}

#[test]
fn fresh_replicas_converge_for_every_rotation() {
    let mut reference = CRDT::new();
    reference.merge(sample_ops());
    let hashes: Vec<String> = reference.hash_chain().into_iter().map(|b| b.hash).collect();
    for r in 0..sample_ops().len() {
        let mut ops = sample_ops();
        ops.rotate_left(r);
        let mut replica = CRDT::new();
        replica.merge(ops);
        assert_eq!(replica.list(), reference.list());
        assert_eq!(replica.text(), reference.text());
        let h: Vec<String> = replica.hash_chain().into_iter().map(|b| b.hash).collect();
        assert_eq!(h, hashes);
    }
}

#[test]
fn two_batches_in_either_order_give_the_same_log() {
    let (a, b): (Vec<Message>, Vec<Message>) = sample_ops().into_iter().partition(|m| m.id.as_str() < "4");
    let mut first = CRDT::new();
    first.merge(a.clone());
    first.merge(b.clone());
    let mut second = CRDT::new();
    second.merge(b);
    second.merge(a);
    assert_eq!(first.list(), second.list());
    assert_eq!(first.text(), second.text());
}

#[test]
fn removal_delivered_before_its_add_leaves_the_logs_equal_but_not_the_texts() {
    let add = message_at("x", Operation::Add("data".to_string()), 1);
    let remove = message_at("r", Operation::Remove("x".to_string()), 2);
    let mut first = CRDT::new();
    first.merge(vec![add.clone()]);
    first.merge(vec![remove.clone()]);
    let mut second = CRDT::new();
    second.merge(vec![remove]);
    second.merge(vec![add]);
    assert_eq!(first.list(), second.list());
    assert_eq!(first.text(), "");
    assert_eq!(second.text(), "\n# id: x, timestamp: 1970-01-01T00:00:00.000000001Z\ndata");
}

#[test]
fn messages_order_by_timestamp_then_id() {
    let early = message_at("b", Operation::Add("1".to_string()), 1);
    let late = message_at("a", Operation::Add("2".to_string()), 2);
    let same_time = message_at("c", Operation::Add("3".to_string()), 1);
    assert!(early < late);
    assert!(late > early);
    assert!(early < same_time);
    assert_eq!(early.partial_cmp(&early.clone()), Some(std::cmp::Ordering::Equal));
    let mut ops = vec![late.clone(), same_time.clone(), early.clone()];
    ops.sort_by(|x, y| x.partial_cmp(y).unwrap());
    assert_eq!(ops, vec![early, same_time, late]);
}
