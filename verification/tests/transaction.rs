use std::collections::HashSet;

use bt_rust_dht::transaction::{
    generate_aids, generate_mids, AIDGenerator, ActionID, MIDGenerator, MessageID, TransactionID,
    ACTION_ID_PRE_ALLOC_LEN, MAX_ACTION_ID, MAX_MESSAGE_ID, MESSAGE_ID_PRE_ALLOC_LEN,
};

const BLOCK: usize = 16;

fn generator() -> AIDGenerator {
    AIDGenerator::with_block_len(BLOCK, BLOCK)
}

#[test]
fn positive_tid_from_bytes() {
    let mut aid_generator = AIDGenerator::default();
    let mut mid_generator = aid_generator.generate();

    let tid = mid_generator.generate();
    let tid_from_bytes = TransactionID::from_bytes(tid.as_ref()).unwrap();

    assert_eq!(tid, tid_from_bytes);
}

#[test]
fn positive_unique_aid_blocks() {
    // Go through ten blocks worth of action ids, make sure they are unique
    let mut action_ids = HashSet::new();
    let mut aid_generator = generator();

    for _ in 0..(BLOCK * 10) {
        let action_id = aid_generator.generate().action_id();

        assert!(!action_ids.contains(&action_id));

        action_ids.insert(action_id);
    }
}

#[test]
fn positive_unique_mid_blocks() {
    // Go through ten blocks worth of message ids, make sure they are unique
    let mut message_ids = HashSet::new();
    let mut aid_generator = generator();
    let mut mid_generator = aid_generator.generate();

    for _ in 0..(BLOCK * 10) {
        let message_id = mid_generator.generate().message_id();

        assert!(!message_ids.contains(&message_id));

        message_ids.insert(message_id);
    }
}

#[test]
fn positive_unique_tid_blocks() {
    // Go through two blocks of compound ids (transaction ids), make sure they are unique
    let mut transaction_ids = HashSet::new();
    let mut aid_generator = generator();

    for _ in 0..BLOCK {
        let mut mid_generator = aid_generator.generate();

        for _ in 0..BLOCK {
            let transaction_id = mid_generator.generate();

            assert!(!transaction_ids.contains(&transaction_id));

            transaction_ids.insert(transaction_id);
        }
    }
}

#[test]
fn positive_overflow_aid_generate() {
    let mut action_ids = HashSet::new();
    let mut aid_generator = generator();

    // Track all action ids in the first block
    for _ in 0..BLOCK {
        let action_id = aid_generator.generate().action_id();

        assert!(!action_ids.contains(&action_id));

        action_ids.insert(action_id);
    }

    // Overflow back to first block
    aid_generator.resume_at(MAX_ACTION_ID);

    // Check all action ids in the block (should be first block)
    for _ in 0..BLOCK {
        let action_id = aid_generator.generate().action_id();

        assert!(action_ids.remove(&action_id));
    }

    assert!(action_ids.is_empty());
}

#[test]
fn positive_overflow_mid_generate() {
    let mut message_ids = HashSet::new();
    let mut aid_generator = generator();
    let mut mid_generator = aid_generator.generate();

    // Track all message ids in the first block
    for _ in 0..BLOCK {
        let message_id = mid_generator.generate().message_id();

        assert!(!message_ids.contains(&message_id));

        message_ids.insert(message_id);
    }

    // Overflow back to first block
    mid_generator.resume_at(MAX_MESSAGE_ID);

    // Check all message ids in the block (should be first block)
    for _ in 0..BLOCK {
        let message_id = mid_generator.generate().message_id();

        assert!(message_ids.remove(&message_id));
    }

    assert!(message_ids.is_empty());
}

#[test]
fn positive_overflow_tid_generate() {
    let mut transaction_ids = HashSet::new();
    let mut aid_generator = generator();

    // Track all transaction ids in the first block
    for _ in 0..BLOCK {
        let mut mid_generator = aid_generator.generate();

        for _ in 0..BLOCK {
            let transaction_id = mid_generator.generate();

            assert!(!transaction_ids.contains(&transaction_id));

            transaction_ids.insert(transaction_id);
        }
    }

    // Overflow back to first block
    aid_generator.resume_at(MAX_ACTION_ID);

    // Check all transaction ids in the block (should be first block)
    for _ in 0..BLOCK {
        let mut mid_generator = aid_generator.generate();

        for _ in 0..BLOCK {
            let transaction_id = mid_generator.generate();

            assert!(transaction_ids.remove(&transaction_id));
        }
    }

    assert!(transaction_ids.is_empty());
}

#[test]
fn blocks_are_consecutive_and_shuffled() {
    assert_eq!(generate_aids(0, 4), (4, vec![0, 1, 2, 3]));
    assert_eq!(generate_aids(32, 4), (36, vec![32, 33, 34, 35]));
    assert_eq!(generate_aids(MAX_ACTION_ID, 4), (4, vec![0, 1, 2, 3]));
    assert_eq!(generate_mids(MAX_MESSAGE_ID, 2), (2, vec![0, 1]));
    assert_eq!(generate_mids(MAX_MESSAGE_ID - 2, 2).0, MAX_MESSAGE_ID);

    // The ids of a block are those of the block, whatever their order; with 2048 ids the
    // order is not the order of counting.
    let mut generator = AIDGenerator::default();
    let mut first: Vec<u64> = Vec::new();
    for _ in 0..ACTION_ID_PRE_ALLOC_LEN {
        first.push(generator.generate().action_id().value());
    }
    let in_order: Vec<u64> = (0..ACTION_ID_PRE_ALLOC_LEN as u64).collect();
    assert_ne!(first, in_order);
    first.sort();
    assert_eq!(first, in_order);
    let next = generator.generate().action_id().value();
    assert!(next >= ACTION_ID_PRE_ALLOC_LEN as u64 && next < 2 * ACTION_ID_PRE_ALLOC_LEN as u64);

    let mut messages = MIDGenerator::new(5 << 24);
    let mut second: Vec<u64> = Vec::new();
    for _ in 0..MESSAGE_ID_PRE_ALLOC_LEN {
        let id = messages.generate();
        assert_eq!(id.action_id(), messages.action_id());
        second.push(id.message_id().value());
    }
    second.sort();
    assert_eq!(second, (0..MESSAGE_ID_PRE_ALLOC_LEN as u64).collect::<Vec<u64>>());
}

#[test]
fn transaction_id_is_five_and_three_bytes() {
    let id = TransactionID::new(0x0102_0304_05aa_bbcc);
    assert_eq!(id.as_ref(), &[1, 2, 3, 4, 5, 0xaa, 0xbb, 0xcc]);
    assert_eq!(id.to_vec(), vec![1, 2, 3, 4, 5, 0xaa, 0xbb, 0xcc]);
    assert_eq!(id.value(), 0x0102_0304_05aa_bbcc);
    assert_eq!(id.action_id().value(), 0x01_0203_0405);
    assert_eq!(id.message_id().value(), 0xaa_bbcc);
    assert_eq!(id.action_id(), ActionID::from_transaction_id(0x0102_0304_0500_0000));
    assert_eq!(id.message_id(), MessageID::from_transaction_id(0xaa_bbcc));
    assert_eq!(TransactionID::from_bytes(&[1, 2, 3, 4, 5, 0xaa, 0xbb, 0xcc]), Some(id));
    assert_eq!(TransactionID::from_bytes(&[1, 2, 3, 4, 5, 0xaa, 0xbb]), None);
    assert_eq!(TransactionID::from_bytes(&[0; 9]), None);
    assert_eq!(TransactionID::new(u64::MAX).as_ref(), &[0xff; 8]);
    assert_eq!(TransactionID::new(0).value(), 0);
}
