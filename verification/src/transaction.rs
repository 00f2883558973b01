//! Transactions: an opaque sender, a nonce, and the identifier derived from
//! both.

use vstd::prelude::*;
use crate::codec::{
    dec_bytes, dec_u64, enc_bytes, enc_u64, lemma_concat_assoc, lemma_dec_enc_bytes,
    lemma_dec_enc_u64, lemma_enc_dec_bytes, lemma_enc_dec_u64, put_bytes, put_u64, take_bytes,
    take_u64,
};
use crate::digest::{hash, keccak256, Keccak256, DIGEST_LEN};
use crate::error::LedgerError;

verus! {

/// A transaction as a mathematical value.
pub struct TransactionView {
    pub id: Seq<u8>,
    pub sender: Seq<u8>,
    pub nonce: u64,
}

/// The bytes an identifier is derived from: the sender as a byte string,
/// then the nonce.
pub open spec fn enc_payload(sender: Seq<u8>, nonce: u64) -> Seq<u8> {
    enc_bytes(sender) + enc_u64(nonce)
}

/// The identifier of the transaction with this sender and nonce.
pub open spec fn transaction_id(sender: Seq<u8>, nonce: u64) -> Seq<u8> {
    keccak256(enc_payload(sender, nonce))
}

/// Encoding of a whole transaction: identifier, sender, nonce.
pub open spec fn enc_transaction(t: TransactionView) -> Seq<u8> {
    enc_bytes(t.id) + enc_bytes(t.sender) + enc_u64(t.nonce)
}

impl TransactionView {
    /// Both byte strings are short enough for their length to be encoded.
    pub open spec fn encodable(self) -> bool {
        self.id.len() <= u64::MAX && self.sender.len() <= u64::MAX
    }

    /// The identifier is the one derived from sender and nonce.
    pub open spec fn intact(self) -> bool {
        self.id == transaction_id(self.sender, self.nonce)
    }

    /// What holds of every transaction: it is intact, and its identifier is
    /// a digest.
    pub open spec fn wf(self) -> bool {
        &&& self.intact()
        &&& self.id.len() == DIGEST_LEN
        &&& self.encodable()
    }
}

/// Reads a sender and a nonce from the front of `s`.
pub open spec fn dec_payload(s: Seq<u8>) -> Option<((Seq<u8>, u64), Seq<u8>)> {
    match dec_bytes(s) {
        Some((sender, rest)) => match dec_u64(rest) {
            Some((nonce, rest)) => Some(((sender, nonce), rest)),
            None => None,
        },
        None => None,
    }
}

/// Reads a whole transaction from the front of `s`.
pub open spec fn dec_transaction(s: Seq<u8>) -> Option<(TransactionView, Seq<u8>)> {
    match dec_bytes(s) {
        Some((id, rest)) => match dec_payload(rest) {
            Some(((sender, nonce), rest)) => Some((TransactionView { id, sender, nonce }, rest)),
            None => None,
        },
        None => None,
    }
}

/// What decoding a sender and a nonce from exactly `data` gives.
pub open spec fn payload_decoding(data: Seq<u8>) -> Result<(Seq<u8>, u64), LedgerError> {
    match dec_payload(data) {
        Some((p, rest)) => if rest.len() == 0 {
            Ok(p)
        } else {
            Err(LedgerError::DecodeError)
        },
        None => Err(LedgerError::DecodeError),
    }
}

/// What decoding a whole transaction from exactly `data` gives.
pub open spec fn transaction_decoding(data: Seq<u8>) -> Result<TransactionView, LedgerError> {
    match dec_transaction(data) {
        Some((t, rest)) => if rest.len() != 0 {
            Err(LedgerError::DecodeError)
        } else if t.intact() {
            Ok(t)
        } else {
            Err(LedgerError::CorruptedTransaction)
        },
        None => Err(LedgerError::DecodeError),
    }
}

/// Reading an encoded sender and nonce gives them back.
pub proof fn lemma_dec_enc_payload(sender: Seq<u8>, nonce: u64, rest: Seq<u8>)
    requires
        sender.len() <= u64::MAX,
    ensures
        dec_payload(enc_payload(sender, nonce) + rest) == Some(((sender, nonce), rest)),
{
    lemma_dec_enc_bytes(sender, enc_u64(nonce) + rest);
    lemma_dec_enc_u64(nonce, rest);
}

/// Whatever a sender and nonce were read from is their encoding followed by
/// the rest.
pub proof fn lemma_enc_dec_payload(s: Seq<u8>)
    requires
        dec_payload(s) is Some,
    ensures
        dec_payload(s).unwrap().0.0.len() <= u64::MAX,
        s == enc_payload(dec_payload(s).unwrap().0.0, dec_payload(s).unwrap().0.1) + dec_payload(
            s,
        ).unwrap().1,
{
    lemma_enc_dec_bytes(s);
    lemma_enc_dec_u64(dec_bytes(s).unwrap().1);
}

/// Reading an encoded transaction gives it back.
pub proof fn lemma_dec_enc_transaction(t: TransactionView, rest: Seq<u8>)
    requires
        t.encodable(),
    ensures
        dec_transaction(enc_transaction(t) + rest) == Some((t, rest)),
{
    assert(enc_transaction(t) + rest =~= enc_bytes(t.id) + (enc_payload(t.sender, t.nonce)
        + rest));
    lemma_dec_enc_bytes(t.id, enc_payload(t.sender, t.nonce) + rest);
    lemma_dec_enc_payload(t.sender, t.nonce, rest);
}

/// Whatever a transaction was read from is its encoding followed by the
/// rest.
pub proof fn lemma_enc_dec_transaction(s: Seq<u8>)
    requires
        dec_transaction(s) is Some,
    ensures
        dec_transaction(s).unwrap().0.encodable(),
        s == enc_transaction(dec_transaction(s).unwrap().0) + dec_transaction(s).unwrap().1,
{
    lemma_enc_dec_bytes(s);
    let (id, rest) = dec_bytes(s).unwrap();
    lemma_enc_dec_payload(rest);
    let ((sender, nonce), rest2) = dec_payload(rest).unwrap();
    lemma_concat_assoc(enc_bytes(id), enc_payload(sender, nonce), rest2);
    lemma_concat_assoc(enc_bytes(id), enc_bytes(sender), enc_u64(nonce));
}

/// Different senders or nonces have different encodings.
pub proof fn lemma_enc_payload_injective(
    sender_a: Seq<u8>,
    nonce_a: u64,
    sender_b: Seq<u8>,
    nonce_b: u64,
)
    requires
        sender_a.len() <= u64::MAX,
        sender_b.len() <= u64::MAX,
        enc_payload(sender_a, nonce_a) == enc_payload(sender_b, nonce_b),
    ensures
        sender_a == sender_b,
        nonce_a == nonce_b,
{
    lemma_dec_enc_payload(sender_a, nonce_a, Seq::empty());
    lemma_dec_enc_payload(sender_b, nonce_b, Seq::empty());
}

/// Different transactions have different encodings.
pub proof fn lemma_enc_transaction_injective(a: TransactionView, b: TransactionView)
    requires
        a.encodable(),
        b.encodable(),
        enc_transaction(a) == enc_transaction(b),
    ensures
        a == b,
{
    lemma_dec_enc_transaction(a, Seq::empty());
    lemma_dec_enc_transaction(b, Seq::empty());
}

/// Decoding the encoding of a sender and a nonce gives them back.
pub proof fn lemma_payload_roundtrip(sender: Seq<u8>, nonce: u64)
    requires
        sender.len() <= u64::MAX,
    ensures
        payload_decoding(enc_payload(sender, nonce)) == Ok::<(Seq<u8>, u64), LedgerError>(
            (sender, nonce),
        ),
{
    lemma_dec_enc_payload(sender, nonce, Seq::empty());
}

/// Bytes decode to a sender and a nonce exactly when they are the encoding
/// of that sender and nonce.
pub proof fn lemma_payload_decoding_exact(data: Seq<u8>, sender: Seq<u8>, nonce: u64)
    ensures
        payload_decoding(data) == Ok::<(Seq<u8>, u64), LedgerError>((sender, nonce)) <==> (
        sender.len() <= u64::MAX && data == enc_payload(sender, nonce)),
{
    if sender.len() <= u64::MAX && data == enc_payload(sender, nonce) {
        lemma_payload_roundtrip(sender, nonce);
    }
    if payload_decoding(data) == Ok::<(Seq<u8>, u64), LedgerError>((sender, nonce)) {
        lemma_enc_dec_payload(data);
        assert(enc_payload(sender, nonce) + dec_payload(data).unwrap().1 =~= enc_payload(
            sender,
            nonce,
        ));
    }
}

/// Decoding the encoding of an intact transaction gives it back.
pub proof fn lemma_transaction_roundtrip(t: TransactionView)
    requires
        t.encodable(),
        t.intact(),
    ensures
        transaction_decoding(enc_transaction(t)) == Ok::<TransactionView, LedgerError>(t),
{
    lemma_dec_enc_transaction(t, Seq::empty());
}

/// Bytes decode to a transaction exactly when they are the encoding of that
/// transaction and it is intact; they are refused as corrupted exactly when
/// they are the encoding of a transaction that is not intact.
pub proof fn lemma_transaction_decoding_exact(data: Seq<u8>, t: TransactionView)
    ensures
        transaction_decoding(data) == Ok::<TransactionView, LedgerError>(t) <==> (t.encodable()
            && t.intact() && data == enc_transaction(t)),
        (t.encodable() && !t.intact() && data == enc_transaction(t)) ==> transaction_decoding(data)
            == Err::<TransactionView, LedgerError>(LedgerError::CorruptedTransaction),
        transaction_decoding(data) == Err::<TransactionView, LedgerError>(
            LedgerError::CorruptedTransaction,
        ) ==> exists|v: TransactionView| v.encodable() && !v.intact() && data == enc_transaction(v),
{
    if t.encodable() && data == enc_transaction(t) {
        lemma_dec_enc_transaction(t, Seq::empty());
    }
    if dec_transaction(data) is Some {
        lemma_enc_dec_transaction(data);
    }
}

/// A transaction: a record of its sender and nonce under the identifier
/// derived from them. It cannot be changed once made.
#[derive(Debug, PartialEq, Eq)]
pub struct Transaction {
    id: Keccak256,
    sender: Vec<u8>,
    nonce: u64,
}

impl View for Transaction {
    type V = TransactionView;

    closed spec fn view(&self) -> TransactionView {
        TransactionView { id: self.id@, sender: self.sender@, nonce: self.nonce }
    }
}

/// The transactions of a vector as mathematical values.
pub open spec fn tx_views(transactions: Seq<Transaction>) -> Seq<TransactionView> {
    Seq::new(transactions.len(), |i: int| transactions[i]@)
}

/// Every transaction held in memory can be encoded.
pub proof fn lemma_transaction_encodable(tx: Transaction)
    ensures
        tx@.encodable(),
{
    assert(tx.id@.len() == tx.id.len());
    assert(tx.sender@.len() == tx.sender.len());
}

impl Clone for Transaction {
    fn clone(&self) -> (copy: Self)
        ensures
            copy@ == self@,
    {
        Transaction { id: self.id.clone(), sender: self.sender.clone(), nonce: self.nonce }
    }
}

impl Transaction {
    /// Creates a new Transaction.
    pub fn new(sender: Vec<u8>, nonce: u64) -> (tx: Self)
        ensures
            tx@.sender == sender@,
            tx@.nonce == nonce,
            tx@.id == transaction_id(sender@, nonce),
            tx@.wf(),
    {
        let id = Transaction::generate_id(&sender, &nonce);
        assert(sender@.len() == sender.len());
        Transaction { id, sender, nonce }
    }

    /// Generates a unique Transaction id.
    pub fn generate_id(sender: &Vec<u8>, nonce: &u64) -> (id: Keccak256)
        ensures
            id@ == transaction_id(sender@, *nonce),
            id@.len() == DIGEST_LEN,
    {
        let serialized = Transaction::serialize(sender, nonce);
        hash(&serialized)
    }

    /// Serializes the Transaction data into a binary representation.
    pub fn serialize(sender: &Vec<u8>, nonce: &u64) -> (bytes: Vec<u8>)
        ensures
            bytes@ == enc_payload(sender@, *nonce),
            sender@.len() <= u64::MAX,
    {
        let mut bytes: Vec<u8> = Vec::new();
        put_bytes(&mut bytes, sender);
        put_u64(&mut bytes, *nonce);
        assert(sender@.len() == sender.len());
        bytes
    }

    /// Deserializes a Transactions binary representation.
    pub fn deserialize(data: Vec<u8>) -> (r: Result<Transaction, LedgerError>)
        ensures
            match r {
                Ok(tx) => tx@.wf() && payload_decoding(data@) == Ok::<(Seq<u8>, u64), LedgerError>(
                    (tx@.sender, tx@.nonce),
                ) && data@ == enc_payload(tx@.sender, tx@.nonce),
                Err(e) => payload_decoding(data@) == Err::<(Seq<u8>, u64), LedgerError>(e) && e
                    == LedgerError::DecodeError,
            },
            forall|sender: Seq<u8>, nonce: u64|
                sender.len() <= u64::MAX && data@ == #[trigger] enc_payload(sender, nonce) ==> (
                r matches Ok(tx) && tx@.sender == sender && tx@.nonce == nonce),
    {
        proof {
            assert forall|sender: Seq<u8>, nonce: u64|
                sender.len() <= u64::MAX && data@ == #[trigger] enc_payload(
                    sender,
                    nonce,
                ) implies payload_decoding(data@) == Ok::<(Seq<u8>, u64), LedgerError>(
                (sender, nonce),
            ) by {
                lemma_payload_roundtrip(sender, nonce);
            }
        }
        proof {
            assert(data@.skip(0) =~= data@);
        }
        let (sender, pos) = match take_bytes(&data, 0) {
            Some(p) => p,
            None => { return Err(LedgerError::DecodeError); },
        };
        let (nonce, end) = match take_u64(&data, pos) {
            Some(p) => p,
            None => { return Err(LedgerError::DecodeError); },
        };
        if end != data.len() {
            return Err(LedgerError::DecodeError);
        }
        proof {
            lemma_payload_decoding_exact(data@, sender@, nonce);
        }
        Ok(Transaction::new(sender, nonce))
    }

    /// Encodes the whole Transaction: identifier, sender, nonce.
    pub fn encode(&self) -> (bytes: Vec<u8>)
        ensures
            bytes@ == enc_transaction(self@),
            self@.encodable(),
    {
        let mut bytes: Vec<u8> = Vec::new();
        self.write(&mut bytes);
        proof {
            lemma_transaction_encodable(*self);
        }
        bytes
    }

    /// Decodes a whole Transaction and checks that it carries the identifier
    /// derived from its sender and nonce.
    pub fn decode(data: &Vec<u8>) -> (r: Result<Transaction, LedgerError>)
        ensures
            match r {
                Ok(tx) => tx@.wf() && transaction_decoding(data@) == Ok::<
                    TransactionView,
                    LedgerError,
                >(tx@) && data@ == enc_transaction(tx@),
                Err(e) => transaction_decoding(data@) == Err::<TransactionView, LedgerError>(e),
            },
            forall|t: TransactionView|
                t.encodable() && t.intact() && data@ == #[trigger] enc_transaction(t) ==> (
                r matches Ok(tx) && tx@ == t),
    {
        proof {
            assert forall|t: TransactionView|
                t.encodable() && t.intact() && data@ == #[trigger] enc_transaction(
                    t,
                ) implies transaction_decoding(data@) == Ok::<TransactionView, LedgerError>(t) by {
                lemma_transaction_roundtrip(t);
            }
        }
        proof {
            assert(data@.skip(0) =~= data@);
        }
        let (tx, end) = match Transaction::read(data, 0) {
            Some(p) => p,
            None => { return Err(LedgerError::DecodeError); },
        };
        if end != data.len() {
            return Err(LedgerError::DecodeError);
        }
        if !tx.is_intact() {
            return Err(LedgerError::CorruptedTransaction);
        }
        proof {
            lemma_transaction_decoding_exact(data@, tx@);
        }
        Ok(tx)
    }

    /// Appends the encoding of the whole Transaction to `out`.
    pub(crate) fn write(&self, out: &mut Vec<u8>)
        ensures
            final(out)@ == old(out)@ + enc_transaction(self@),
    {
        put_bytes(out, &self.id);
        put_bytes(out, &self.sender);
        put_u64(out, self.nonce);
    }

    /// Reads a whole Transaction at `pos`, without checking its identifier;
    /// gives it and the position after it.
    pub(crate) fn read(data: &Vec<u8>, pos: usize) -> (r: Option<(Transaction, usize)>)
        requires
            pos <= data.len(),
        ensures
            match r {
                Some((tx, next)) => pos <= next <= data.len() && tx@.encodable()
                    && dec_transaction(data@.skip(pos as int)) == Some(
                    (tx@, data@.skip(next as int)),
                ),
                None => dec_transaction(data@.skip(pos as int)) is None,
            },
    {
        let (id, pos) = match take_bytes(data, pos) {
            Some(p) => p,
            None => { return None; },
        };
        let (sender, pos) = match take_bytes(data, pos) {
            Some(p) => p,
            None => { return None; },
        };
        let (nonce, pos) = match take_u64(data, pos) {
            Some(p) => p,
            None => { return None; },
        };
        Some((Transaction { id, sender, nonce }, pos))
    }

    /// Whether the Transaction carries the identifier derived from its
    /// sender and nonce.
    pub(crate) fn is_intact(&self) -> (intact: bool)
        ensures
            intact == self@.intact(),
            intact ==> self@.id.len() == DIGEST_LEN,
    {
        let expected = Transaction::generate_id(&self.sender, &self.nonce);
        let same = self.id == expected;
        assert(same == (self.id@ =~= expected@));
        same
    }

    /// The identifier.
    pub fn id(&self) -> (id: &Keccak256)
        ensures
            id@ == self@.id,
    {
        &self.id
    }

    /// The sender.
    pub fn sender(&self) -> (sender: &Vec<u8>)
        ensures
            sender@ == self@.sender,
    {
        &self.sender
    }

    /// The nonce.
    pub fn nonce(&self) -> (nonce: u64)
        ensures
            nonce == self@.nonce,
    {
        self.nonce
    }
}

} // verus!
