use anova::block::Block;
use anova::digest::hash;
use anova::error::LedgerError;
use anova::transaction::Transaction;

fn two_blocks_worth() -> (Transaction, Transaction, Transaction) {
    (
        Transaction::new(vec![0, 1, 2, 3, 4], 1),
        Transaction::new(vec![0, 1, 2, 3, 4], 2),
        Transaction::new(vec![5, 6, 7, 8, 9], 1),
    )
}

#[test]
fn block_new_block() {
    let tx_1 = Transaction::new(vec![0, 1, 2, 3, 4], 1);
    let tx_2 = Transaction::new(vec![0, 1, 2, 3, 4], 2);
    let tx_3 = Transaction::new(vec![5, 6, 7, 8, 9], 1);

    let block = Block::new(vec![tx_1.clone(), tx_2.clone(), tx_3.clone()], None);
    let expected_id: Vec<u8> = vec![
        246, 134, 115, 10, 204, 145, 13, 37, 13, 114, 184, 74, 164, 48, 50, 144, 22, 104, 204,
        116, 53, 94, 84, 254, 216, 22, 97, 58, 245, 188, 45, 21,
    ];

    assert_eq!(
        (block.id(), block.transactions(), block.get_previous_block_id()),
        (
            &expected_id,
            &vec![tx_1.clone(), tx_2.clone(), tx_3.clone()],
            None
        )
    );
}

#[test]
fn block_serde() {
    let tx_1 = Transaction::new(vec![0, 1, 2, 3, 4], 1);
    let transactions = vec![tx_1];
    let prev_block_id = Some(vec![5, 6, 7, 8, 9]);
    let block = Block::new(transactions.clone(), prev_block_id.clone());

    let serialized = Block::serialize(&transactions, prev_block_id.clone().as_ref());
    assert_eq!(
        serialized,
        vec![
            1, 0, 0, 0, 0, 0, 0, 0, 32, 0, 0, 0, 0, 0, 0, 0, 196, 70, 213, 169, 141, 198, 53, 47,
            112, 185, 125, 254, 146, 41, 135, 204, 30, 126, 28, 159, 0, 167, 6, 219, 32, 215, 216,
            240, 151, 197, 172, 26, 5, 0, 0, 0, 0, 0, 0, 0, 0, 1, 2, 3, 4, 1, 0, 0, 0, 0, 0, 0, 0,
            1, 5, 0, 0, 0, 0, 0, 0, 0, 5, 6, 7, 8, 9
        ]
    );

    let deserialized = Block::deserialize(serialized);
    assert_eq!(deserialized, Ok(block));
}

#[test]
fn block_set_previous_block_id() {
    let tx = Transaction::new(vec![0, 1, 2, 3, 4], 1);

    let mut block = Block::new(vec![tx.clone()], None);
    let expected_initial_id: Vec<u8> = vec![
        61, 76, 173, 32, 98, 204, 110, 230, 105, 241, 153, 253, 74, 212, 214, 61, 101, 52, 42,
        176, 46, 29, 206, 216, 251, 40, 250, 159, 168, 103, 81, 99,
    ];
    assert_eq!(
        (block.id(), block.transactions(), block.get_previous_block_id()),
        (&expected_initial_id, &vec![tx.clone()], None)
    );

    // Update the previous Block id
    block.set_previous_block_id(Some(vec![1, 2, 3, 4]));
    let expected_updated_id: Vec<u8> = vec![
        137, 184, 196, 140, 0, 212, 191, 29, 101, 3, 16, 175, 81, 94, 71, 5, 59, 215, 214, 187,
        147, 58, 226, 21, 220, 250, 77, 67, 131, 51, 91, 60,
    ];
    assert_eq!(
        (block.id(), block.transactions(), block.get_previous_block_id()),
        (
            &expected_updated_id,
            &vec![tx.clone()],
            Some(&vec![1, 2, 3, 4])
        )
    );
}

#[test]
fn block_id_is_the_digest_of_transactions_and_predecessor() {
    let (tx_1, tx_2, tx_3) = two_blocks_worth();
    let transactions = vec![tx_3, tx_1, tx_2];
    let prev = Some(vec![7; 32]);
    let block = Block::new(transactions.clone(), prev.clone());

    let serialized = Block::serialize(&transactions, prev.as_ref());
    assert_eq!(block.id(), &hash(&serialized));
    assert_eq!(block.id(), &Block::generate_id(&transactions, prev.as_ref()));
}

#[test]
fn block_id_depends_on_the_order_of_transactions() {
    let (tx_1, tx_2, _) = two_blocks_worth();
    let forward = Block::new(vec![tx_1.clone(), tx_2.clone()], None);
    let backward = Block::new(vec![tx_2, tx_1], None);
    assert_ne!(forward.id(), backward.id());
}

#[test]
fn block_serialize_agrees_with_bincode() {
    let (tx_1, tx_2, tx_3) = two_blocks_worth();
    let transactions = vec![tx_1, tx_2, tx_3];
    let plain: Vec<(Vec<u8>, Vec<u8>, u64)> = transactions
        .iter()
        .map(|tx| (tx.id().clone(), tx.sender().clone(), tx.nonce()))
        .collect();

    let prev: Option<Vec<u8>> = Some(vec![9, 9, 9]);
    assert_eq!(
        Block::serialize(&transactions, prev.as_ref()),
        bincode::serialize(&(&plain, &prev)).unwrap()
    );
    let none: Option<Vec<u8>> = None;
    assert_eq!(
        Block::serialize(&transactions, None),
        bincode::serialize(&(&plain, &none)).unwrap()
    );
}

#[test]
fn block_serialize_without_transactions() {
    assert_eq!(
        Block::serialize(&Vec::new(), None),
        vec![0, 0, 0, 0, 0, 0, 0, 0, 0]
    );
    let block = Block::deserialize(vec![0, 0, 0, 0, 0, 0, 0, 0, 0]).unwrap();
    assert_eq!(block, Block::new(Vec::new(), None));
}

#[test]
fn block_deserialize_rejects_truncated_input() {
    let (tx_1, tx_2, _) = two_blocks_worth();
    let serialized = Block::serialize(&vec![tx_1, tx_2], Some(&vec![1, 2, 3]));
    for len in 0..serialized.len() {
        assert_eq!(
            Block::deserialize(serialized[..len].to_vec()),
            Err(LedgerError::DecodeError)
        );
    }
}

#[test]
fn block_deserialize_rejects_trailing_input() {
    let (tx_1, _, _) = two_blocks_worth();
    let mut serialized = Block::serialize(&vec![tx_1], None);
    serialized.push(0);
    assert_eq!(
        Block::deserialize(serialized),
        Err(LedgerError::DecodeError)
    );
}

#[test]
fn block_deserialize_rejects_an_invalid_option_tag() {
    let (tx_1, _, _) = two_blocks_worth();
    let mut serialized = Block::serialize(&vec![tx_1], None);
    let last = serialized.len() - 1;
    serialized[last] = 2;
    assert_eq!(
        Block::deserialize(serialized),
        Err(LedgerError::DecodeError)
    );
}

#[test]
fn block_deserialize_rejects_an_overstated_count() {
    let (tx_1, _, _) = two_blocks_worth();
    let mut serialized = Block::serialize(&vec![tx_1], None);
    serialized[0] = 2;
    assert_eq!(
        Block::deserialize(serialized.clone()),
        Err(LedgerError::DecodeError)
    );
    for byte in serialized.iter_mut().take(8) {
        *byte = 255;
    }
    assert_eq!(
        Block::deserialize(serialized),
        Err(LedgerError::DecodeError)
    );
}

#[test]
fn block_deserialize_rejects_a_corrupted_transaction() {
    let (tx_1, tx_2, _) = two_blocks_worth();
    let mut serialized = Block::serialize(&vec![tx_1, tx_2], None);
    // The first byte of the first transaction's identifier.
    serialized[16] ^= 1;
    assert_eq!(
        Block::deserialize(serialized),
        Err(LedgerError::CorruptedTransaction)
    );
}

#[test]
fn block_encode_layout() {
    let (tx_1, _, _) = two_blocks_worth();
    let block = Block::new(vec![tx_1.clone()], Some(vec![5, 6, 7, 8, 9]));

    let mut expected: Vec<u8> = vec![32, 0, 0, 0, 0, 0, 0, 0];
    expected.extend_from_slice(block.id());
    expected.extend_from_slice(&Block::serialize(&vec![tx_1], Some(&vec![5, 6, 7, 8, 9])));
    assert_eq!(block.encode(), expected);
}

#[test]
fn block_decode_gives_the_encoded_block_back() {
    let (tx_1, tx_2, tx_3) = two_blocks_worth();
    let block = Block::new(vec![tx_1, tx_2, tx_3], Some(vec![4; 32]));
    assert_eq!(Block::decode(&block.encode()), Ok(block));

    let empty = Block::new(Vec::new(), None);
    assert_eq!(Block::decode(&empty.encode()), Ok(empty));
}

#[test]
fn block_decode_rejects_malformed_input() {
    let (tx_1, _, _) = two_blocks_worth();
    let encoded = Block::new(vec![tx_1], Some(vec![4; 32])).encode();
    for len in 0..encoded.len() {
        assert_eq!(
            Block::decode(&encoded[..len].to_vec()),
            Err(LedgerError::DecodeError)
        );
    }
    let mut trailing = encoded.clone();
    trailing.push(0);
    assert_eq!(Block::decode(&trailing), Err(LedgerError::DecodeError));
}

#[test]
fn block_decode_rejects_a_corrupted_transaction() {
    let (tx_1, _, _) = two_blocks_worth();
    let mut encoded = Block::new(vec![tx_1], None).encode();
    // Block identifier (8 + 32), count (8), length of the transaction's
    // identifier (8), then the identifier itself.
    encoded[56] ^= 1;
    assert_eq!(
        Block::decode(&encoded),
        Err(LedgerError::CorruptedTransaction)
    );
}

#[test]
fn block_decode_rejects_a_corrupted_block() {
    let (tx_1, _, _) = two_blocks_worth();
    let mut encoded = Block::new(vec![tx_1.clone()], None).encode();
    encoded[8] ^= 1;
    assert_eq!(Block::decode(&encoded), Err(LedgerError::CorruptedBlock));

    // The identifier of another block over the same transactions.
    let other = Block::new(vec![tx_1.clone()], Some(vec![1]));
    let mut encoded = Block::new(vec![tx_1], None).encode();
    encoded[8..40].copy_from_slice(other.id());
    assert_eq!(Block::decode(&encoded), Err(LedgerError::CorruptedBlock));
}

#[test]
fn block_decode_reports_a_corrupted_transaction_before_a_corrupted_block() {
    let (tx_1, _, _) = two_blocks_worth();
    let mut encoded = Block::new(vec![tx_1], None).encode();
    encoded[8] ^= 1;
    encoded[56] ^= 1;
    assert_eq!(
        Block::decode(&encoded),
        Err(LedgerError::CorruptedTransaction)
    );
}

#[test]
fn block_clone_is_equal() {
    let (tx_1, tx_2, _) = two_blocks_worth();
    let block = Block::new(vec![tx_1, tx_2], Some(vec![1, 2, 3, 4]));
    let copy = block.clone();
    assert_eq!(copy, block);
}

#[test]
fn new_block() {
    let tx_1 = Transaction::new(vec![0, 1, 2, 3, 4], 1);
    let tx_2 = Transaction::new(vec![0, 1, 2, 3, 4], 2);
    let tx_3 = Transaction::new(vec![5, 6, 7, 8, 9], 1);

    let block = Block::new(vec![tx_1.clone(), tx_2.clone(), tx_3.clone()], None);
    // The same block as its whole encoding says it.
    let mut encoded: Vec<u8> = vec![32, 0, 0, 0, 0, 0, 0, 0];
    encoded.extend_from_slice(&[
        246, 134, 115, 10, 204, 145, 13, 37, 13, 114, 184, 74, 164, 48, 50, 144, 22, 104, 204,
        116, 53, 94, 84, 254, 216, 22, 97, 58, 245, 188, 45, 21,
    ]);
    encoded.extend_from_slice(&Block::serialize(&vec![tx_1, tx_2, tx_3], None));
    let expected = Block::decode(&encoded);

    assert_eq!(Ok(block), expected);
}

#[test]
fn set_previous_block_id() {
    let tx = Transaction::new(vec![0, 1, 2, 3, 4], 1);

    let mut block = Block::new(vec![tx.clone()], None);
    let mut encoded: Vec<u8> = vec![32, 0, 0, 0, 0, 0, 0, 0];
    encoded.extend_from_slice(&[
        61, 76, 173, 32, 98, 204, 110, 230, 105, 241, 153, 253, 74, 212, 214, 61, 101, 52, 42,
        176, 46, 29, 206, 216, 251, 40, 250, 159, 168, 103, 81, 99,
    ]);
    encoded.extend_from_slice(&Block::serialize(&vec![tx.clone()], None));
    let expected_initial = Block::decode(&encoded);
    assert_eq!(Ok(block.clone()), expected_initial);

    // Update the `previous_block_id`
    block.set_previous_block_id(Some(vec![1, 2, 3, 4]));
    let mut encoded: Vec<u8> = vec![32, 0, 0, 0, 0, 0, 0, 0];
    encoded.extend_from_slice(&[
        137, 184, 196, 140, 0, 212, 191, 29, 101, 3, 16, 175, 81, 94, 71, 5, 59, 215, 214, 187,
        147, 58, 226, 21, 220, 250, 77, 67, 131, 51, 91, 60,
    ]);
    encoded.extend_from_slice(&Block::serialize(
        &vec![tx.clone()],
        Some(&vec![1, 2, 3, 4]),
    ));
    let expected_updated = Block::decode(&encoded);
    assert_eq!(Ok(block), expected_updated);
}

#[test]
fn block_encode_agrees_with_bincode() {
    let (tx_1, tx_2, tx_3) = two_blocks_worth();
    let block = Block::new(vec![tx_1, tx_2, tx_3], Some(vec![8; 32]));
    let plain: Vec<(Vec<u8>, Vec<u8>, u64)> = block
        .transactions()
        .iter()
        .map(|tx| (tx.id().clone(), tx.sender().clone(), tx.nonce()))
        .collect();

    assert_eq!(
        block.encode(),
        bincode::serialize(&(block.id(), &plain, block.get_previous_block_id())).unwrap()
    );
}
