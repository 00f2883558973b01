use anova::codec::{
    decode_bytes, decode_optional, decode_u64, encode_bytes, encode_optional, encode_u64,
};
use anova::error::LedgerError;
use anova::transaction::Transaction;

#[test]
fn encode_u64_is_little_endian() {
    assert_eq!(encode_u64(0), vec![0, 0, 0, 0, 0, 0, 0, 0]);
    assert_eq!(encode_u64(42), vec![42, 0, 0, 0, 0, 0, 0, 0]);
    assert_eq!(encode_u64(256), vec![0, 1, 0, 0, 0, 0, 0, 0]);
    assert_eq!(
        encode_u64(0x0102_0304_0506_0708),
        vec![8, 7, 6, 5, 4, 3, 2, 1]
    );
    assert_eq!(encode_u64(u64::MAX), vec![255; 8]);
}

#[test]
fn decode_u64_reads_exactly_eight_bytes() {
    assert_eq!(decode_u64(&vec![8, 7, 6, 5, 4, 3, 2, 1]), Ok(0x0102_0304_0506_0708));
    assert_eq!(decode_u64(&vec![]), Err(LedgerError::DecodeError));
    assert_eq!(decode_u64(&vec![1; 7]), Err(LedgerError::DecodeError));
    assert_eq!(decode_u64(&vec![1; 9]), Err(LedgerError::DecodeError));
    for x in [0, 1, 255, 256, 1 << 32, u64::MAX - 1, u64::MAX] {
        assert_eq!(decode_u64(&encode_u64(x)), Ok(x));
        assert_eq!(encode_u64(x), bincode::serialize(&x).unwrap());
    }
}

#[test]
fn encode_bytes_prefixes_the_length() {
    assert_eq!(encode_bytes(&vec![]), vec![0, 0, 0, 0, 0, 0, 0, 0]);
    assert_eq!(
        encode_bytes(&vec![9, 8, 7]),
        vec![3, 0, 0, 0, 0, 0, 0, 0, 9, 8, 7]
    );
    let long: Vec<u8> = (0..1000).map(|i| (i % 251) as u8).collect();
    let encoded = encode_bytes(&long);
    assert_eq!(&encoded[..8], &[232, 3, 0, 0, 0, 0, 0, 0]);
    assert_eq!(&encoded[8..], &long[..]);
    assert_eq!(encoded, bincode::serialize(&long).unwrap());
}

#[test]
fn decode_bytes_gives_the_encoded_bytes_back() {
    for bytes in [vec![], vec![0], vec![1, 2, 3], vec![255; 300]] {
        assert_eq!(decode_bytes(&encode_bytes(&bytes)), Ok(bytes));
    }
}

#[test]
fn decode_bytes_rejects_malformed_input() {
    let encoded = encode_bytes(&vec![1, 2, 3]);
    for len in 0..encoded.len() {
        assert_eq!(
            decode_bytes(&encoded[..len].to_vec()),
            Err(LedgerError::DecodeError)
        );
    }
    let mut trailing = encoded.clone();
    trailing.push(4);
    assert_eq!(decode_bytes(&trailing), Err(LedgerError::DecodeError));
    assert_eq!(
        decode_bytes(&vec![255, 255, 255, 255, 255, 255, 255, 255]),
        Err(LedgerError::DecodeError)
    );
}

#[test]
fn encode_optional_writes_a_tag() {
    assert_eq!(encode_optional(None), vec![0]);
    assert_eq!(
        encode_optional(Some(&vec![5, 6, 7, 8, 9])),
        vec![1, 5, 0, 0, 0, 0, 0, 0, 0, 5, 6, 7, 8, 9]
    );
    assert_eq!(
        encode_optional(Some(&vec![])),
        vec![1, 0, 0, 0, 0, 0, 0, 0, 0]
    );
    let some: Option<Vec<u8>> = Some(vec![5, 6, 7, 8, 9]);
    assert_eq!(
        encode_optional(some.as_ref()),
        bincode::serialize(&some).unwrap()
    );
}

#[test]
fn decode_optional_gives_the_encoded_value_back() {
    for value in [None, Some(vec![]), Some(vec![7; 32])] {
        assert_eq!(decode_optional(&encode_optional(value.as_ref())), Ok(value));
    }
}

#[test]
fn decode_optional_rejects_malformed_input() {
    assert_eq!(decode_optional(&vec![]), Err(LedgerError::DecodeError));
    assert_eq!(decode_optional(&vec![2]), Err(LedgerError::DecodeError));
    assert_eq!(decode_optional(&vec![255]), Err(LedgerError::DecodeError));
    assert_eq!(decode_optional(&vec![0, 0]), Err(LedgerError::DecodeError));
    assert_eq!(decode_optional(&vec![1]), Err(LedgerError::DecodeError));
    assert_eq!(
        decode_optional(&vec![1, 1, 0, 0, 0, 0, 0, 0, 0]),
        Err(LedgerError::DecodeError)
    );
    assert_eq!(
        decode_optional(&vec![1, 1, 0, 0, 0, 0, 0, 0, 0, 5, 5]),
        Err(LedgerError::DecodeError)
    );
}

#[test]
fn deserialize_reads_what_bincode_reads() {
    let serialized = Transaction::serialize(&vec![3, 1, 4, 1, 5, 9, 2, 6], &53);
    let (sender, nonce): (Vec<u8>, u64) = bincode::deserialize(&serialized).unwrap();
    let tx = Transaction::deserialize(serialized).unwrap();
    assert_eq!((tx.sender(), tx.nonce()), (&sender, nonce));
}
